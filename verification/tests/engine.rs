use skeletree::store::symbol_from_row;
use skeletree::{FileId, ParseError, Span, SymbolId};
use skeletree::engine::{new_file, parse_one, tally, ExtractorCache};
use skeletree::{hash_contents, EngineError, Lang, ParsedFile, Registry, SourceLanguage, SymbolKind};

#[test]
fn registry_maps_paths_by_extension() {
    let r = Registry::with_defaults();
    assert_eq!(r.for_path("src/app.tsx").map(|g| g.lang()), Some(Lang::TypeScript));
    assert_eq!(r.for_path("lib/mod.py").map(|g| g.lang()), Some(Lang::Python));
    assert_eq!(r.for_path("main.rs").map(|g| g.lang()), Some(Lang::Rust));
    assert_eq!(r.for_path("index.cjs").map(|g| g.lang()), Some(Lang::JavaScript));
    assert!(r.for_path("README.md").is_none());
    assert!(r.for_path("Makefile").is_none());
    assert!(r.for_path(".py").is_none());
}

#[test]
fn hash_is_blake3_hex() {
    let h = hash_contents(b"");
    assert_eq!(h, "af1349b9f5f9a1a6a0404dea36dcc9499bcb25c9adc112b7cc9a93cae41f3262");
    let h2 = hash_contents(b"abc");
    assert_eq!(h2.len(), 64);
    assert_ne!(h, h2);
}

#[test]
fn parse_one_reads_a_python_file() {
    let reg = Registry::with_defaults();
    let mut cache = ExtractorCache::new();
    let src = b"def foo():\n    pass\n\nclass Bar:\n    def m(self):\n        pass\n";
    let pf = parse_one(&reg, &mut cache, "mod.py", src).unwrap();
    assert_eq!(pf.path, "mod.py");
    assert_eq!(pf.lang, Lang::Python);
    assert_eq!(pf.symbols.len(), 3);
    assert_eq!(pf.hash, hash_contents(src));
    // The cached extractor is reused for the next file of the language.
    let again = parse_one(&reg, &mut cache, "other.py", b"X = 1\n").unwrap();
    assert_eq!(again.symbols.len(), 1);
    assert_eq!(again.symbols[0].kind, SymbolKind::Constant);
}

#[test]
fn parse_one_refuses_unknown_languages() {
    let reg = Registry::with_defaults();
    let mut cache = ExtractorCache::new();
    match parse_one(&reg, &mut cache, "README.md", b"hi") {
        Err(EngineError::NoLanguage(p)) => assert_eq!(p, "README.md"),
        other => panic!("unexpected: {other:?}"),
    }
}

#[test]
fn tally_counts_every_outcome() {
    let reg = Registry::with_defaults();
    let mut cache = ExtractorCache::new();
    let a = parse_one(&reg, &mut cache, "a.py", b"def f():\n    pass\n");
    let b = parse_one(&reg, &mut cache, "notes.txt", b"");
    let c = parse_one(&reg, &mut cache, "c.py", b"class C:\n    def m(self):\n        pass\n");
    let (files, stats): (Vec<ParsedFile>, _) = tally(vec![a, b, c]);
    assert_eq!(stats.files, 2);
    assert_eq!(stats.skipped, 1);
    assert_eq!(stats.symbols, 3);
    assert_eq!(files[0].path, "a.py");
    assert_eq!(files[1].path, "c.py");
}

#[test]
fn new_file_borrows_the_parse() {
    let reg = Registry::with_defaults();
    let mut cache = ExtractorCache::new();
    let pf = parse_one(&reg, &mut cache, "a.py", b"def f():\n    pass\n").unwrap();
    let nf = new_file(&pf);
    assert_eq!(nf.path, "a.py");
    assert_eq!(nf.lang, Lang::Python);
    assert_eq!(nf.hash, pf.hash.as_str());
    assert_eq!(nf.symbols.len(), 1);
    assert_eq!(nf.symbols[0].name, "f");
    assert_eq!(nf.symbols[0].signature, Some("def f():"));
}

#[test]
fn stored_rows_read_back_as_symbols() {
    let s = symbol_from_row(
        7,
        3,
        "helper".to_string(),
        "function",
        0,
        25,
        1,
        2,
        Some("def helper():".to_string()),
        "m.py".to_string(),
    )
    .unwrap();
    assert_eq!(s.id, SymbolId(7));
    assert_eq!(s.file_id, FileId(3));
    assert_eq!(s.name, "helper");
    assert_eq!(s.kind, SymbolKind::Function);
    assert_eq!(s.span, Span { start_byte: 0, end_byte: 25, start_line: 1, end_line: 2 });
    assert_eq!(s.signature.as_deref(), Some("def helper():"));
    assert_eq!(s.file_path, "m.py");
    let bad = symbol_from_row(1, 1, "x".to_string(), "gadget", 0, 1, 1, 1, None, "m.py".to_string());
    assert_eq!(bad, Err(ParseError::UnknownSymbolKind("gadget".to_string())));
}
