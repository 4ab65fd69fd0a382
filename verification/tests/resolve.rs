use skeletree::resolve::resolve_edges;
use skeletree::{Edge, EdgeKind, FileId, ParsedFile, RawRef, Span, Symbol, SymbolId, SymbolKind, Lang};

fn span(start: u32, end: u32) -> Span {
    Span { start_byte: start, end_byte: end, start_line: 1, end_line: 1 }
}

fn sym(id: i64, file: i64, name: &str, kind: SymbolKind, sp: Span) -> Symbol {
    Symbol {
        id: SymbolId(id),
        file_id: FileId(file),
        name: name.to_string(),
        kind,
        span: sp,
        signature: None,
        file_path: if file == 1 { "a.py".to_string() } else { "b.py".to_string() },
    }
}

fn parsed(path: &str, refs: Vec<RawRef>) -> ParsedFile {
    ParsedFile { path: path.to_string(), lang: Lang::Python, hash: String::new(), symbols: Vec::new(), refs }
}

fn call(from: Span, to: &str) -> RawRef {
    RawRef { from, to_name: to.to_string(), kind: EdgeKind::Calls }
}

fn files() -> Vec<(FileId, String)> {
    vec![(FileId(1), "a.py".to_string()), (FileId(2), "b.py".to_string())]
}

#[test]
fn call_resolves_to_same_file_first() {
    // main (a.py) calls helper; helper exists in a.py and b.py.
    let symbols = vec![
        sym(1, 1, "main", SymbolKind::Function, span(0, 10)),
        sym(2, 1, "helper", SymbolKind::Function, span(20, 30)),
        sym(3, 2, "helper", SymbolKind::Function, span(0, 10)),
    ];
    let p = vec![parsed("a.py", vec![call(span(0, 10), "helper")])];
    let edges = resolve_edges(&symbols, &files(), &p);
    assert_eq!(edges, vec![Edge { src: SymbolId(1), dst: SymbolId(2), kind: EdgeKind::Calls }]);
}

#[test]
fn call_falls_back_to_all_files() {
    let symbols = vec![
        sym(1, 1, "main", SymbolKind::Function, span(0, 10)),
        sym(3, 2, "helper", SymbolKind::Function, span(0, 10)),
        sym(4, 2, "helper", SymbolKind::Method, span(40, 50)),
    ];
    let p = vec![parsed("a.py", vec![call(span(0, 10), "helper")])];
    let edges = resolve_edges(&symbols, &files(), &p);
    assert_eq!(
        edges,
        vec![
            Edge { src: SymbolId(1), dst: SymbolId(3), kind: EdgeKind::Calls },
            Edge { src: SymbolId(1), dst: SymbolId(4), kind: EdgeKind::Calls },
        ]
    );
}

#[test]
fn no_self_edges_and_unknown_names_skipped() {
    let symbols = vec![sym(1, 1, "rec", SymbolKind::Function, span(0, 10))];
    let p = vec![parsed(
        "a.py",
        vec![call(span(0, 10), "rec"), call(span(0, 10), "missing"), call(span(5, 9), "rec")],
    )];
    assert!(resolve_edges(&symbols, &files(), &p).is_empty());
}

#[test]
fn unknown_file_is_skipped() {
    let symbols = vec![
        sym(1, 1, "main", SymbolKind::Function, span(0, 10)),
        sym(2, 1, "helper", SymbolKind::Function, span(20, 30)),
    ];
    let p = vec![parsed("c.py", vec![call(span(0, 10), "helper")])];
    assert!(resolve_edges(&symbols, &files(), &p).is_empty());
}

#[test]
fn class_defines_contained_methods() {
    let symbols = vec![
        sym(1, 1, "Bar", SymbolKind::Class, span(0, 100)),
        sym(2, 1, "m", SymbolKind::Method, span(20, 40)),
        sym(3, 1, "outside", SymbolKind::Method, span(200, 220)),
        sym(4, 2, "n", SymbolKind::Method, span(20, 40)),
        sym(5, 1, "f", SymbolKind::Function, span(10, 12)),
    ];
    let edges = resolve_edges(&symbols, &files(), &Vec::new());
    assert_eq!(edges, vec![Edge { src: SymbolId(1), dst: SymbolId(2), kind: EdgeKind::Defines }]);
}

#[test]
fn extends_keeps_its_kind() {
    let symbols = vec![
        sym(1, 1, "A", SymbolKind::Class, span(0, 10)),
        sym(2, 1, "B", SymbolKind::Class, span(20, 60)),
    ];
    let r = RawRef { from: span(20, 60), to_name: "A".to_string(), kind: EdgeKind::Extends };
    let p = vec![parsed("a.py", vec![r])];
    let edges = resolve_edges(&symbols, &files(), &p);
    assert_eq!(edges, vec![Edge { src: SymbolId(2), dst: SymbolId(1), kind: EdgeKind::Extends }]);
}

#[test]
fn unresolvable_references_add_nothing() {
    let symbols = vec![
        sym(1, 1, "main", SymbolKind::Function, span(0, 10)),
        sym(2, 1, "helper", SymbolKind::Function, span(20, 30)),
    ];
    let live = call(span(0, 10), "helper");
    let with = vec![
        parsed("a.py", vec![call(span(0, 10), "nowhere"), live.clone(), call(span(11, 19), "helper")]),
        parsed("c.py", vec![call(span(0, 10), "helper")]),
    ];
    let without = vec![parsed("a.py", vec![live]), parsed("c.py", vec![])];
    assert_eq!(resolve_edges(&symbols, &files(), &with), resolve_edges(&symbols, &files(), &without));
    assert_eq!(resolve_edges(&symbols, &files(), &with).len(), 1);
}
