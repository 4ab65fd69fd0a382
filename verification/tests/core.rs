use skeletree::{EdgeKind, Lang, SymbolKind};

/// Every enum's string form must round-trip through the exact string the
/// index stores — a mismatch silently corrupts reads.
#[test]
fn enum_strings_round_trip() {
    for lang in [Lang::TypeScript, Lang::JavaScript, Lang::Python, Lang::Rust] {
        assert_eq!(lang.to_string().parse::<Lang>().unwrap(), lang);
    }
    for kind in [
        SymbolKind::Function,
        SymbolKind::Class,
        SymbolKind::Method,
        SymbolKind::Interface,
        SymbolKind::TypeAlias,
        SymbolKind::Constant,
    ] {
        assert_eq!(kind.to_string().parse::<SymbolKind>().unwrap(), kind);
    }
    for kind in [
        EdgeKind::Imports,
        EdgeKind::Calls,
        EdgeKind::Defines,
        EdgeKind::References,
        EdgeKind::Extends,
    ] {
        assert_eq!(kind.to_string().parse::<EdgeKind>().unwrap(), kind);
    }
}

#[test]
fn unknown_strings_error() {
    assert!("cobol".parse::<Lang>().is_err());
    assert!("gadget".parse::<SymbolKind>().is_err());
    assert!("teleports".parse::<EdgeKind>().is_err());
}

#[test]
fn extensions_map_to_langs() {
    assert_eq!(Lang::from_extension("tsx"), Some(Lang::TypeScript));
    assert_eq!(Lang::from_extension("mjs"), Some(Lang::JavaScript));
    assert_eq!(Lang::from_extension("pyi"), Some(Lang::Python));
    assert_eq!(Lang::from_extension("rs"), Some(Lang::Rust));
    assert_eq!(Lang::from_extension("cobol"), None);
}

#[test]
fn stored_strings_are_exact() {
    assert_eq!(Lang::TypeScript.as_str(), "typescript");
    assert_eq!(Lang::JavaScript.as_str(), "javascript");
    assert_eq!(Lang::Python.as_str(), "python");
    assert_eq!(Lang::Rust.as_str(), "rust");
    assert_eq!(SymbolKind::TypeAlias.as_str(), "type_alias");
    assert_eq!(SymbolKind::Constant.as_str(), "constant");
    assert_eq!(EdgeKind::References.as_str(), "references");
    assert_eq!(EdgeKind::Imports.as_str(), "imports");
}

#[test]
fn unknown_strings_carry_the_string() {
    assert_eq!(
        Lang::from_name("cobol"),
        Err(skeletree::ParseError::UnknownLang("cobol".to_string()))
    );
    assert_eq!(
        SymbolKind::from_name("gadget"),
        Err(skeletree::ParseError::UnknownSymbolKind("gadget".to_string()))
    );
    assert_eq!(
        EdgeKind::from_name("teleports"),
        Err(skeletree::ParseError::UnknownEdgeKind("teleports".to_string()))
    );
    // Matching is exact: case and surrounding text matter.
    assert!("Python".parse::<Lang>().is_err());
    assert!(" calls".parse::<EdgeKind>().is_err());
}

#[test]
fn every_extension_maps() {
    for ext in ["ts", "tsx", "mts", "cts"] {
        assert_eq!(Lang::from_extension(ext), Some(Lang::TypeScript));
    }
    for ext in ["js", "jsx", "mjs", "cjs"] {
        assert_eq!(Lang::from_extension(ext), Some(Lang::JavaScript));
    }
    assert_eq!(Lang::from_extension("py"), Some(Lang::Python));
    assert_eq!(Lang::from_extension(""), None);
    assert_eq!(Lang::from_extension(".rs"), None);
    assert_eq!(Lang::from_extension("RS"), None);
}
