//! A dependency-graph library: a directed graph over package names with
//! idempotent construction, cycle-safe depth-first traversal in both
//! directions, substring-based exclusion filtering, and export to a
//! diagram edge-list format.

pub mod cargo_parser;
pub mod config;
pub mod d2;
pub mod graph;
pub mod test_repo;
pub mod text;
pub mod traverse;
