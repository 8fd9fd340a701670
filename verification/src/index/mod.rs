//! The symbol index.

pub mod core_library;
pub mod definitions;
pub mod extractor;
pub mod jar;
pub mod jar_cache;
pub mod jdk;
pub mod laws;
pub mod locals;
pub mod model;
pub mod namespaces;
pub mod occurrences;
pub mod scanner;
pub mod scope;
pub mod scope_laws;
pub mod store;
pub mod symbols;
pub mod walk_laws;

pub use model::{
    CoreSymbol, DefKind, ExtractConfig, NsMeta, Occurrence, Symbol, SymbolSource,
};
