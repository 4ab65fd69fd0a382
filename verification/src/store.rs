//! The store's write model — a symbol before it has an id, a file with its
//! symbols —, the reading of a stored symbol row back, and the content hash
//! the index keeps per file.

use vstd::prelude::*;

use crate::entities::{Span, Symbol};
use crate::error::ParseError;
use crate::ids::{FileId, SymbolId};
use crate::kinds::SymbolKind;
use crate::lang::Lang;

verus! {

/// A symbol to insert, before it has an id.
#[derive(Debug, Clone, Copy)]
pub struct NewSymbol<'a> {
    pub name: &'a str,
    pub kind: SymbolKind,
    pub span: Span,
    pub signature: Option<&'a str>,
}

/// A file and its symbols, inserted together.
#[derive(Debug, Clone)]
pub struct NewFile<'a> {
    pub path: &'a str,
    pub lang: Lang,
    pub hash: &'a str,
    pub symbols: Vec<NewSymbol<'a>>,
}

/// A stored symbol row read back into a symbol: the integer columns narrowed
/// to their field types (`as`, as the row was written from them), the kind
/// parsed from its stored string. Fails with `UnknownSymbolKind` carrying the
/// kind when it is not a stored kind string.
pub fn symbol_from_row(
    id: i64,
    file_id: i64,
    name: String,
    kind: &str,
    start_byte: i64,
    end_byte: i64,
    start_line: i64,
    end_line: i64,
    signature: Option<String>,
    file_path: String,
) -> (r: Result<Symbol, ParseError>)
    ensures
        match r {
            Ok(s) => {
                &&& s.id == SymbolId(id)
                &&& s.file_id == FileId(file_id)
                &&& s.name@ == name@
                &&& SymbolKind::parse_canonical(kind@) == Some(s.kind)
                &&& s.span.start_byte == start_byte as u32
                &&& s.span.end_byte == end_byte as u32
                &&& s.span.start_line == start_line as u32
                &&& s.span.end_line == end_line as u32
                &&& s.signature == signature
                &&& s.file_path@ == file_path@
            },
            Err(e) => SymbolKind::parse_canonical(kind@) is None && (e matches ParseError::UnknownSymbolKind(t)
                && t@ == kind@),
        },
{
    let kind = match SymbolKind::from_name(kind) {
        Ok(k) => k,
        Err(e) => {
            return Err(e);
        },
    };
    let span = Span {
        start_byte: start_byte as u32,
        end_byte: end_byte as u32,
        start_line: start_line as u32,
        end_line: end_line as u32,
    };
    Ok(Symbol { id: SymbolId(id), file_id: FileId(file_id), name, kind, span, signature, file_path })
}

/// Lowercase hex of the blake3 digest of some bytes.
pub uninterp spec fn blake3_hex(bytes: Seq<u8>) -> Seq<char>;

/// Whether `c` is a lowercase hexadecimal digit.
pub open spec fn is_lower_hex(c: char) -> bool {
    ('0' <= c && c <= '9') || ('a' <= c && c <= 'f')
}

/// `blake3::hash(..).to_hex()`: the 32-byte digest in lowercase hex. Claimed:
/// the result is `blake3_hex` of the bytes, 64 characters, each a lowercase
/// hex digit (as `Hash::to_hex` writes them from its table).
#[verifier::external_body]
fn blake3_hex_of(bytes: &[u8]) -> (h: String)
    ensures
        h@ == blake3_hex(bytes@),
        h@.len() == 64,
        forall|i: int| 0 <= i < h@.len() ==> is_lower_hex(#[trigger] h@[i]),
{
    blake3::hash(bytes).to_hex().to_string()
}

/// blake3 of file contents in lowercase hex — the exact form the index
/// stores per file, so that the engine and the schema agree on one format.
pub fn hash_contents(bytes: &[u8]) -> (h: String)
    ensures
        h@ == blake3_hex(bytes@),
        h@.len() == 64,
        forall|i: int| 0 <= i < h@.len() ==> is_lower_hex(#[trigger] h@[i]),
{
    blake3_hex_of(bytes)
}

} // verus!
