# skeletree

A queryable graph of a repository's code structure. Source files are parsed
with tree-sitter into symbols and raw references, references are resolved by
name into a symbol graph, the graph is ranked, and token-budgeted text views
answer queries about it.

## Layout

- `src/` — the library, verified with Verus: symbol and edge kinds,
  languages and their queries (`language`), extraction of symbols and
  references from query captures (`extract`), the tree-sitter calls behind
  trusted items (`treesitter`), per-file parsing and batch tallying
  (`engine`), edge resolution (`resolve`), the link structure PageRank walks
  (`rank`), neighbour search (`graph`) and the budgeted listings (`tools`).
- `tests/` — tests of the library.
- `app/` — the command-line program around it: the file walk, SQLite
  storage, the floating-point PageRank loop and the MCP server.
