//! Pattern search over an e-graph: a pattern with variables is compiled to a
//! small instruction program, and a backtracking virtual machine enumerates
//! every substitution under which the pattern is reachable from a starting
//! equivalence class.

pub mod egraph;
pub mod language;
pub mod pending;
pub mod machine;
pub mod program;
pub mod searcher;
