use skeletree::tools::{
    contains_pattern, default_budget, default_depth, escape_like, estimate_tokens, location,
    missing_symbol, neighbors_text, render, row,
};
use skeletree::{FileId, Span, Symbol, SymbolId, SymbolKind};

fn sym(name: &str, kind: SymbolKind, line: u32, sig: Option<&str>) -> Symbol {
    Symbol {
        id: SymbolId(1),
        file_id: FileId(1),
        name: name.to_string(),
        kind,
        span: Span { start_byte: 0, end_byte: 1, start_line: line, end_line: line },
        signature: sig.map(|s| s.to_string()),
        file_path: "m.py".to_string(),
    }
}

#[test]
fn defaults() {
    assert_eq!(default_budget(), 1500);
    assert_eq!(default_depth(), 1);
}

#[test]
fn token_estimate_rounds_up() {
    assert_eq!(estimate_tokens(""), 0);
    assert_eq!(estimate_tokens("abcd"), 1);
    assert_eq!(estimate_tokens("abcde"), 2);
    // Bytes, not characters: '…' is three bytes.
    assert_eq!(estimate_tokens("……"), 2);
}

#[test]
fn escape_like_escapes_wildcards() {
    assert_eq!(escape_like("get_x"), "get\\_x");
    assert_eq!(escape_like("100%"), "100\\%");
    assert_eq!(escape_like("a\\b"), "a\\\\b");
    assert_eq!(escape_like("plain"), "plain");
    assert_eq!(contains_pattern("help"), "%help%");
    assert_eq!(contains_pattern("a_b"), "%a\\_b%");
}

#[test]
fn rows_and_locations() {
    let s = sym("helper", SymbolKind::Function, 12, Some("def helper():"));
    assert_eq!(location(&s), "m.py:12");
    assert_eq!(row(&s), "function helper  m.py:12  def helper():\n");
    let c = sym("MAX", SymbolKind::Constant, 3, None);
    assert_eq!(row(&c), "constant MAX  m.py:3\n");
}

#[test]
fn empty_listing() {
    assert_eq!(render(&[], 1500), "(nothing found)\n");
}

#[test]
fn listing_within_budget_is_complete() {
    let syms = vec![
        sym("helper", SymbolKind::Function, 1, Some("def helper():")),
        sym("caller", SymbolKind::Function, 4, Some("def caller():")),
    ];
    let out = render(&syms, 1500);
    assert_eq!(
        out,
        "function helper  m.py:1  def helper():\nfunction caller  m.py:4  def caller():\n"
    );
}

#[test]
fn tiny_budget_shows_only_the_truncation_marker() {
    let syms = vec![
        sym("helper", SymbolKind::Function, 1, Some("def helper():")),
        sym("caller", SymbolKind::Function, 4, Some("def caller():")),
    ];
    let out = render(&syms, 3);
    assert_eq!(out, "… (truncated to fit token budget)\n");
    assert!(out.lines().count() <= 2);
    assert_eq!(render(&syms[..1], 0), "… (truncated to fit token budget)\n");
}

#[test]
fn budget_boundary_is_inclusive() {
    // Each row is "function f  m.py:1\n" = 19 bytes = 5 tokens.
    let syms = vec![
        sym("f", SymbolKind::Function, 1, None),
        sym("f", SymbolKind::Function, 1, None),
        sym("f", SymbolKind::Function, 1, None),
    ];
    assert_eq!(estimate_tokens(&row(&syms[0])), 5);
    let two = render(&syms, 10);
    assert_eq!(two.matches("function f").count(), 2);
    assert!(two.ends_with("… (truncated to fit token budget)\n"));
    let three = render(&syms, 15);
    assert_eq!(three.matches("function f").count(), 3);
    assert!(!three.contains("truncated"));
}

#[test]
fn neighbor_answers() {
    assert_eq!(missing_symbol("does_not_exist"), "no symbol named `does_not_exist`\n");
    let root = sym("caller", SymbolKind::Function, 4, Some("def caller():"));
    let n = vec![sym("helper", SymbolKind::Function, 1, Some("def helper():"))];
    assert_eq!(
        neighbors_text(&root, &n, 1500),
        "function caller (m.py:4)\nfunction helper  m.py:1  def helper():\n"
    );
    assert_eq!(neighbors_text(&root, &[], 1500), "function caller (m.py:4)\n(nothing found)\n");
}
