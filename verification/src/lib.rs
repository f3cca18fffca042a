//! Module-graph construction and linking core of a JavaScript bundler.
//!
//! Given a set of entry modules, the library discovers the dependency
//! graph, resolves every cross-module import/export binding following
//! ECMAScript module-linking semantics, assigns each module a
//! deterministic execution order, and collapses aliased bindings into
//! canonical symbols via a union-find over symbol references.
//!
//! Parsing, path resolution and file reading are capabilities supplied
//! by the embedding program; the library works on plain values that
//! describe a module's top-level declarations.

pub mod error;
pub mod graph;
pub mod ids;
pub mod linker;
pub mod loader;
pub mod maps;
pub mod module;
pub mod options;
pub mod resource;
pub mod scanner;
pub mod symbols;
