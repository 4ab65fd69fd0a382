//! Skeletree: a code-structure indexer. Source files are parsed into symbols
//! and raw references, references are resolved into a symbol graph, and the
//! graph is queried through token-budgeted text views.

pub mod engine;
pub mod entities;
pub mod error;
pub mod extract;
pub mod graph;
pub mod ids;
pub mod index;
pub mod kinds;
pub mod lang;
pub mod language;
pub mod parser;
pub mod rank;
pub mod resolve;
pub mod store;
pub mod text;
pub mod tools;
pub mod treesitter;

pub use engine::{EngineError, IndexStats, ParsedFile};
pub use entities::{Edge, File, Span, Symbol};
pub use error::ParseError;
pub use extract::{Extractor, LangError};
pub use ids::{FileId, SymbolId};
pub use kinds::{EdgeKind, SymbolKind};
pub use lang::Lang;
pub use language::{Grammar, JavaScript, Python, Registry, Rust, SourceLanguage, TypeScript};
pub use parser::{FileParse, ParsedSymbol, RawRef};
pub use store::{hash_contents, NewFile, NewSymbol};
