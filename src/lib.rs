//! The high-level intermediate representation (HIR) of a compiler backend:
//! a generics-free, trait-free program tree that code generators consume,
//! the compilation of pattern matches into decision trees, and the order in
//! which a printed tree lists its shared definitions.
pub mod types;
pub mod hir;
pub mod decision_tree;
pub mod listing;
pub mod printer;
