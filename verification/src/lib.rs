//! A node-graph representation of small scripts.
//!
//! The crate converts between a textual script (already parsed into an
//! abstract syntax tree by an external parser) and a directed dataflow graph
//! of typed nodes, and back: importing an AST materializes a graph, and
//! evaluating a graph regenerates script text by template substitution with
//! per-node memoization. An auto-layout pass recomputes node positions for an
//! imported graph.

pub mod eval;
pub mod import;
pub mod layout;
pub mod store;
pub mod templates;
pub mod text;
pub mod update;
