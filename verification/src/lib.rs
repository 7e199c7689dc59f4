//! Treewidth analysis of control-flow graphs: graph construction, greedy
//! elimination heuristics, summary statistics and the glue around an
//! external treewidth solver.

pub mod seq_lemmas;
pub mod graph;
pub mod treewidth;
pub mod text;
pub mod stats;
pub mod results;
pub mod crate_list;
pub mod cfg;
pub mod samples;
