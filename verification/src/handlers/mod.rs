//! What the server answers to the editor's requests.

pub mod builtins;
pub mod clean_ns;
pub mod clojuredocs;
pub mod code_action;
pub mod completion;
pub mod definition;
pub mod highlight;
pub mod hover;
pub mod ignored_forms;
pub mod indent;
pub mod java;
pub mod letgo_builtins;
pub mod matching;
pub mod references;
pub mod rename;
pub mod resolve;
pub mod selection;
pub mod semantic_tokens;
pub mod signature;
pub mod symbols;

pub use resolve::{resolve_symbol, ResolvedSymbol};
