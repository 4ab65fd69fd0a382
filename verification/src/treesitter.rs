//! The tree-sitter calls the extractor makes, each behind a trusted item.
//!
//! Tree-sitter's handles (grammar, parser, query, tree) are opaque, so each is
//! held beside a ghost record of where it came from: the language whose
//! grammar it uses, the query text it was compiled from, the source bytes a
//! tree was parsed from. The outcomes that depend on those alone (whether a
//! grammar loads, whether a query compiles, a query's capture names and its
//! captures over a source) are named below; the library only reads the plain
//! facts (capture index, byte range, rows, ancestor kinds) copied out of
//! tree-sitter's nodes.

use vstd::prelude::*;

use crate::extract::{Ancestor, NodeRange};
use crate::lang::Lang;

verus! {

#[verifier::external_type_specification]
#[verifier::external_body]
pub struct ExTsLanguage(tree_sitter::Language);

#[verifier::external_type_specification]
#[verifier::external_body]
pub struct ExTsParser(tree_sitter::Parser);

#[verifier::external_type_specification]
#[verifier::external_body]
pub struct ExTsQuery(tree_sitter::Query);

#[verifier::external_type_specification]
#[verifier::external_body]
pub struct ExTsTree(tree_sitter::Tree);

#[verifier::external_type_specification]
#[verifier::external_body]
pub struct ExTsLanguageError(tree_sitter::LanguageError);

#[verifier::external_type_specification]
#[verifier::external_body]
pub struct ExTsQueryError(tree_sitter::QueryError);

#[verifier::external_type_specification]
#[verifier::external_body]
pub struct ExUtf8Error(std::str::Utf8Error);

/// `tree_sitter_python::language`: the Python grammar. Nothing is claimed of it.
pub assume_specification[ tree_sitter_python::language ]() -> tree_sitter::Language;

/// `tree_sitter_javascript::language`: the JavaScript (JSX) grammar. Nothing is
/// claimed of it.
pub assume_specification[ tree_sitter_javascript::language ]() -> tree_sitter::Language;

/// `tree_sitter_rust::language`: the Rust grammar. Nothing is claimed of it.
pub assume_specification[ tree_sitter_rust::language ]() -> tree_sitter::Language;

/// `tree_sitter_typescript::language_tsx`: the TSX grammar (a superset of
/// TypeScript). Nothing is claimed of it.
pub assume_specification[ tree_sitter_typescript::language_tsx ]() -> tree_sitter::Language;

/// Whether this tree-sitter build accepts the grammar of `l` (its ABI version
/// is in the supported range), as `Parser::set_language` decides.
pub uninterp spec fn grammar_loads(l: Lang) -> bool;

/// Whether `Query::new` compiles `text` against the grammar of `l`.
pub uninterp spec fn query_compiles(l: Lang, text: Seq<char>) -> bool;

/// The capture names of the query `text` for the grammar of `l`, in
/// capture-index order.
pub uninterp spec fn query_capture_names(l: Lang, text: Seq<char>) -> Seq<Seq<char>>;

/// The matches of the query `text` over the tree the grammar of `l` parses
/// from `source`, in the order `QueryCursor::matches` finds them: for each
/// match its captures as (capture index, node range).
pub uninterp spec fn query_captures(l: Lang, text: Seq<char>, source: Seq<u8>) -> Seq<
    Seq<(u32, NodeRange)>,
>;

/// For the matches of the query `text` over the tree the grammar of `l`
/// parses from `source`, in the same order, the ancestors of each capture's
/// node, nearest first.
pub uninterp spec fn query_capture_ancestors(l: Lang, text: Seq<char>, source: Seq<u8>) -> Seq<
    Seq<Seq<Ancestor>>,
>;

/// A grammar handle and the language it is the grammar of.
pub struct TsGrammar {
    handle: tree_sitter::Language,
    lang: Ghost<Lang>,
}

impl TsGrammar {
    /// The language this is the grammar of.
    pub closed spec fn lang(self) -> Lang {
        self.lang@
    }
}

/// The grammar the library uses for a language: Python's, TSX's for
/// TypeScript, JavaScript's, Rust's.
pub fn grammar(l: Lang) -> (g: TsGrammar)
    ensures
        g.lang() == l,
{
    match l {
        Lang::Python => TsGrammar { handle: tree_sitter_python::language(), lang: Ghost(Lang::Python) },
        Lang::TypeScript => TsGrammar {
            handle: tree_sitter_typescript::language_tsx(),
            lang: Ghost(Lang::TypeScript),
        },
        Lang::JavaScript => TsGrammar {
            handle: tree_sitter_javascript::language(),
            lang: Ghost(Lang::JavaScript),
        },
        Lang::Rust => TsGrammar { handle: tree_sitter_rust::language(), lang: Ghost(Lang::Rust) },
    }
}

/// A parser and the language whose grammar it has been given, if any.
pub struct LangParser {
    parser: tree_sitter::Parser,
    lang: Ghost<Option<Lang>>,
}

impl LangParser {
    /// The language whose grammar the parser has, if any.
    pub closed spec fn lang(self) -> Option<Lang> {
        self.lang@
    }
}

/// A compiled query, the language it was compiled for and its text.
pub struct TsQuery {
    query: tree_sitter::Query,
    lang: Ghost<Lang>,
    text: Ghost<Seq<char>>,
}

impl TsQuery {
    /// The language the query was compiled for.
    pub closed spec fn lang(self) -> Lang {
        self.lang@
    }

    /// The text the query was compiled from.
    pub closed spec fn text(self) -> Seq<char> {
        self.text@
    }
}

/// A syntax tree, the source it was parsed from and the language of the
/// grammar that parsed it.
pub struct SourceTree {
    tree: tree_sitter::Tree,
    source: Vec<u8>,
    lang: Ghost<Lang>,
}

impl SourceTree {
    /// The language of the grammar that parsed the tree.
    pub closed spec fn lang(self) -> Lang {
        self.lang@
    }

    /// The bytes the tree was parsed from.
    pub closed spec fn source(self) -> Seq<u8> {
        self.source@
    }

    /// The bytes the tree was parsed from.
    pub fn source_bytes(&self) -> (s: &[u8])
        ensures
            s@ == self.source(),
    {
        self.source.as_slice()
    }
}

/// `tree_sitter::Parser::new`: a parser with no grammar yet.
#[verifier::external_body]
pub(crate) fn new_parser() -> (p: LangParser)
    ensures
        p.lang() is None,
{
    LangParser { parser: tree_sitter::Parser::new(), lang: Ghost(None) }
}

/// `tree_sitter::Parser::set_language`: succeeds exactly when the grammar's
/// ABI version is supported (`grammar_loads`), and then the parser has that
/// grammar; on failure the parser is left as it was.
#[verifier::external_body]
pub(crate) fn set_parser_language(parser: &mut LangParser, grammar: &TsGrammar) -> (r: Result<
    (),
    tree_sitter::LanguageError,
>)
    ensures
        r is Ok <==> grammar_loads(grammar.lang()),
        final(parser).lang() == (if r is Ok {
            Some(grammar.lang())
        } else {
            old(parser).lang()
        }),
{
    parser.parser.set_language(&grammar.handle)
}

/// `tree_sitter::Query::new`: compiles `source` for a grammar; succeeds
/// exactly when `query_compiles` says so, and the query records its language
/// and text.
#[verifier::external_body]
pub(crate) fn compile_query(grammar: &TsGrammar, source: &str) -> (r: Result<
    TsQuery,
    tree_sitter::QueryError,
>)
    ensures
        r is Ok <==> query_compiles(grammar.lang(), source@),
        r matches Ok(q) ==> q.lang() == grammar.lang() && q.text() == source@,
{
    let query = tree_sitter::Query::new(&grammar.handle, source)?;
    Ok(TsQuery { query, lang: Ghost(grammar.lang@), text: Ghost(source@) })
}

/// `tree_sitter::Query::capture_names`, copied out: the capture names in
/// capture-index order, which are `query_capture_names` of the query.
#[verifier::external_body]
pub(crate) fn capture_names(query: &TsQuery) -> (names: Vec<String>)
    ensures
        names@.map_values(|s: String| s@) == query_capture_names(query.lang(), query.text()),
{
    query.query.capture_names().iter().map(|name| name.to_string()).collect()
}

/// `tree_sitter::Parser::parse` of a whole source with no previous tree. With
/// no timeout or cancellation flag ever set, it fails only when the parser has
/// no grammar; the tree records its source and language.
#[verifier::external_body]
pub(crate) fn parse_source(parser: &mut LangParser, source: &[u8]) -> (r: Option<SourceTree>)
    ensures
        final(parser).lang() == old(parser).lang(),
        r is Some <==> old(parser).lang() is Some,
        r matches Some(t) ==> Some(t.lang()) == old(parser).lang() && t.source() == source@,
{
    let tree = parser.parser.parse(source, None)?;
    Some(SourceTree { tree, source: source.to_vec(), lang: Ghost(parser.lang@.unwrap()) })
}

/// Whether a node range lies in a source of `len` bytes, is ordered, and its
/// rows do not outnumber the bytes before its end.
pub open spec fn range_in(r: NodeRange, len: nat) -> bool {
    &&& r.start_byte <= r.end_byte <= len
    &&& r.start_row <= r.end_row <= r.end_byte
}

/// The matches of a list of copied-out matches.
pub open spec fn match_views<T>(ms: Seq<Vec<T>>) -> Seq<Seq<T>> {
    ms.map_values(|m: Vec<T>| m@)
}

/// `tree_sitter::QueryCursor::matches` of a query over a tree's root, with
/// the tree's own source as text: for each match in the order found, its
/// captures as (capture index, node range). They are `query_captures` of the
/// query's language and text and the tree's source; each range lies in the
/// source, in order, with no more rows than bytes before its end.
#[verifier::external_body]
pub(crate) fn query_matches(query: &TsQuery, tree: &SourceTree) -> (r: Vec<Vec<(u32, NodeRange)>>)
    requires
        query.lang() == tree.lang(),
    ensures
        match_views(r@) == query_captures(query.lang(), query.text(), tree.source()),
        forall|i: int, j: int|
            0 <= i < r@.len() && 0 <= j < r@[i]@.len() ==> range_in((#[trigger] r@[i]@[j]).1, tree.source().len()),
{
    let mut cursor = tree_sitter::QueryCursor::new();
    cursor.matches(&query.query, tree.tree.root_node(), tree.source.as_slice()).map(
        |m| m.captures.iter().map(|c| {
            let (s, e) = (c.node.start_position(), c.node.end_position());
            let range = NodeRange { start_byte: c.node.start_byte(), end_byte: c.node.end_byte(), start_row: s.row, end_row: e.row };
            (c.index, range)
        }).collect(),
    ).collect()
}

/// The same matches as `query_matches`, each capture given as the chain of
/// its node's `tree_sitter::Node::parent`s, nearest first, each as its kind
/// and range. The chains are `query_capture_ancestors` of the query's
/// language and text and the tree's source; running the same query over the
/// same tree finds the same matches, so they line up with `query_captures`.
#[verifier::external_body]
pub(crate) fn query_ancestors(query: &TsQuery, tree: &SourceTree) -> (r: Vec<Vec<Vec<Ancestor>>>)
    requires
        query.lang() == tree.lang(),
    ensures
        match_views(r@).map_values(|m: Seq<Vec<Ancestor>>| m.map_values(|a: Vec<Ancestor>| a@))
            == query_capture_ancestors(query.lang(), query.text(), tree.source()),
        r@.len() == query_captures(query.lang(), query.text(), tree.source()).len(),
        forall|i: int| 0 <= i < r@.len() ==> (#[trigger] r@[i])@.len() == query_captures(query.lang(), query.text(), tree.source())[i].len(),
{
    let mut cursor = tree_sitter::QueryCursor::new();
    cursor.matches(&query.query, tree.tree.root_node(), tree.source.as_slice()).map(|m| m.captures.iter().map(|c| {
        let (mut out, mut current) = (Vec::new(), c.node.parent());
        while let Some(p) = current {
            let (s, e) = (p.start_position(), p.end_position());
            let range = NodeRange { start_byte: p.start_byte(), end_byte: p.end_byte(), start_row: s.row, end_row: e.row };
            out.push(Ancestor { kind: p.kind(), range });
            current = p.parent();
        }
        out
    }).collect()).collect()
}

/// `std::str::from_utf8`, copied into a `String`: `Ok` exactly when the bytes
/// are valid UTF-8, with their decoding.
#[verifier::external_body]
pub(crate) fn utf8_string(bytes: &[u8]) -> (r: Result<String, std::str::Utf8Error>)
    ensures
        r is Ok <==> vstd::utf8::valid_utf8(bytes@),
        r matches Ok(s) ==> s@ == vstd::utf8::decode_utf8(bytes@),
{
    std::str::from_utf8(bytes).map(|s| s.to_owned())
}

} // verus!
