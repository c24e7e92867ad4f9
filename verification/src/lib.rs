//! A genetic-algorithm engine that approximates solutions of the Traveling
//! Salesman Problem: given a matrix of pairwise distances between locations,
//! it evolves populations of candidate tours towards low round-trip cost.

/// A square table of pairwise distances and the round-trip cost of a tour.
pub mod distance_mat;
/// The individual of the algorithm: a route through all locations.
pub mod route;
/// The population of routes: deduplication, selection and evolution.
pub mod routes;
/// The individual under its older name.
pub mod solution;
/// A contiguous index range over a route, used by the ordered crossover.
pub mod subsequence;
/// Shared utilities, among them the ordered-crossover operator itself.
pub mod utils;
/// Helpers for the tests: the shared distance table and the permutation
/// check.
pub mod test_utils;
