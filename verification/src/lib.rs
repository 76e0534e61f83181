//! A dependency graph for visualisation: nodes are resolved packages, edges
//! point from a package to one it depends on. The graph is built
//! incrementally, tidied in a finalisation pass, and written out as a
//! Graphviz `digraph`.
//!
//! Every operation carries a contract over the mathematical model in
//! [`model`]; the laws that relate several operations are proved in
//! [`laws`].

pub mod config;
pub mod dep;
pub mod graph;
pub mod importance;
pub mod laws;
pub mod lemmas;
pub mod model;
pub mod order;
pub mod subgraph;
pub mod text;
