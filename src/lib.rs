//! Vertex coloring and maximum clique local search on large graphs.

/// bitsets of vertices
pub mod bitset;

/// integer-exact segment intersection and CGSHOP solutions
pub mod cgshop;

/// sparse sets of vertices
pub mod sparse_set;

/// graphs, solutions and the solution checker
pub mod color;

/// sums over sequences and ranges, with their lemmas
pub mod sums;

/// reactive tabu tenure
pub mod tabu;

/// conflict weighting local search for the vertex coloring problem
pub mod coloring_conflict_weighting;

/// cliques: search space and greedy construction
pub mod clique;

/// reading DIMACS instances
pub mod dimacs;

/// partial weighting local search for the vertex coloring problem
pub mod coloring_partial_weighting;

/// conflict weighting local search for the maximum clique problem
pub mod clique_conflict_weighting;

/// partial weighting local search for the maximum clique problem
pub mod clique_partial_weighting;

/// greedy Recursive Largest First coloring
pub mod greedy_rlf;

/// greedy DSATUR coloring
pub mod greedy_dsatur;
