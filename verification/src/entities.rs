//! Domain records: spans, files, symbols and edges.

use vstd::prelude::*;

use crate::ids::{FileId, SymbolId};
use crate::kinds::{EdgeKind, SymbolKind};
use crate::lang::Lang;

verus! {

/// Byte and line range of a symbol within its file. Byte offsets drive
/// snippet extraction; line numbers (1-based) drive display.
#[derive(Debug, Clone, Copy, PartialEq, Eq, Hash, Structural)]
pub struct Span {
    pub start_byte: u32,
    pub end_byte: u32,
    pub start_line: u32,
    pub end_line: u32,
}

impl Span {
    /// Whether `inner` lies within this span's byte range.
    pub open spec fn contains(self, inner: Span) -> bool {
        self.start_byte <= inner.start_byte && inner.end_byte <= self.end_byte
    }
}

/// A source file in the index.
#[derive(Debug, Clone, PartialEq, Eq)]
pub struct File {
    pub id: FileId,
    /// Path of the file, as stored in the index.
    pub path: String,
    pub lang: Lang,
    /// blake3 of the file contents, lowercase hex.
    pub hash: String,
}

/// A named code entity, with the path of the file it lives in. Its PageRank
/// score is kept by the store beside it.
#[derive(Debug, Clone, PartialEq)]
pub struct Symbol {
    pub id: SymbolId,
    pub file_id: FileId,
    pub name: String,
    pub kind: SymbolKind,
    pub span: Span,
    /// Rendered signature, when the kind has one.
    pub signature: Option<String>,
    /// Path of the file this symbol lives in.
    pub file_path: String,
}

/// A directed relationship between two symbols.
#[derive(Debug, Clone, Copy, PartialEq, Eq, Hash, Structural)]
pub struct Edge {
    pub src: SymbolId,
    pub dst: SymbolId,
    pub kind: EdgeKind,
}

} // verus!
