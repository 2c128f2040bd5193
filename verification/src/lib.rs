//! Tree-decomposable M-k landscapes with known global optima.
//!
//! A landscape is a sum of `M` subfunctions ("cliques") over `k` binary
//! variables each. The cliques form a tree in which a clique shares `o`
//! variables (its separator) with its parent. This crate builds such clique
//! trees, computes the exact set of global optima by dynamic programming over
//! the tree, and evaluates candidate solutions, all with machine-checked
//! contracts.
//!
//! Fitness values are fixed-point numbers: a table entry is an `i64` count of
//! units of `10^-15`, and totals are `i128`, so that sums are exact and cannot
//! overflow.

pub mod problem;
