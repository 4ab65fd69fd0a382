//! Newtype ids so a file id and a symbol id can never be swapped by accident.
//! Both wrap the database row id (`i64`).

use vstd::prelude::*;

verus! {

/// Row id of a file in the index.
#[derive(Debug, Clone, Copy, PartialEq, Eq, Hash, PartialOrd, Ord, Structural)]
pub struct FileId(pub i64);

/// Row id of a symbol in the index.
#[derive(Debug, Clone, Copy, PartialEq, Eq, Hash, PartialOrd, Ord, Structural)]
pub struct SymbolId(pub i64);

} // verus!
