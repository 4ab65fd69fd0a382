//! Failures parsing a domain enum back from its stored string form.

use vstd::prelude::*;

verus! {

/// A stored string that names no language, symbol kind or edge kind; each
/// variant carries the offending string.
#[derive(Debug, Clone, PartialEq, Eq)]
pub enum ParseError {
    UnknownLang(String),
    UnknownSymbolKind(String),
    UnknownEdgeKind(String),
}

} // verus!
