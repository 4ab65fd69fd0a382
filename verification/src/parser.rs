//! What parsing one file yields: its symbols and its unresolved references.

use vstd::prelude::*;

use crate::entities::Span;
use crate::kinds::{EdgeKind, SymbolKind};

verus! {

/// A symbol as produced by parsing, before the store assigns it an id.
#[derive(Debug, Clone, PartialEq, Eq)]
pub struct ParsedSymbol {
    pub name: String,
    pub kind: SymbolKind,
    pub span: Span,
    pub signature: Option<String>,
}

/// An unresolved relationship: the enclosing definition's span (the source),
/// the name being referenced (the target, resolved to an id later), and its
/// kind.
#[derive(Debug, Clone, PartialEq, Eq)]
pub struct RawRef {
    pub from: Span,
    pub to_name: String,
    pub kind: EdgeKind,
}

/// Everything one file yields in a single parse: its symbols and its raw refs.
#[derive(Debug, Clone, PartialEq, Eq)]
pub struct FileParse {
    pub symbols: Vec<ParsedSymbol>,
    pub refs: Vec<RawRef>,
}

impl Default for FileParse {
    fn default() -> (r: FileParse)
        ensures
            r.symbols@.len() == 0,
            r.refs@.len() == 0,
    {
        FileParse { symbols: Vec::new(), refs: Vec::new() }
    }
}

} // verus!
