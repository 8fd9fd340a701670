//! The logic of a Clojure language server.

pub mod archive;
pub mod chars;
pub mod classpath;
pub mod clojuredocs;
pub mod collect;
pub mod config;
pub mod diagnostics;
pub mod document;
pub mod edn;
pub mod handlers;
pub mod index;
pub mod jar_content;
pub mod json;
pub mod kondo;
pub mod leiningen;
pub mod lgx;
pub mod libraries;
pub mod lsp;
pub mod panic_guard;
pub mod path;
pub mod projects;
pub mod rope;
pub mod sort;
pub mod syntax;
pub mod text;
pub mod words;
