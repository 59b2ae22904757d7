//! Content-addressed program forests, procedure records, modules and libraries.
//!
//! Nodes are interned into a [`forest::Forest`], which deduplicates them by digest.
//! A [`module::ProcedureInfo`] binds a name to a root node and its digest, a
//! [`module::ModuleInfo`] groups such records under a path, and a
//! [`library::Library`] resolves references across modules, merges libraries and
//! checks that every stored digest can be recomputed from the nodes.

pub mod digest;
pub mod forest;
pub mod module;
pub mod library;
