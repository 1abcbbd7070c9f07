//! Cuckoo Cycle proof of work: a keyed pseudorandom bipartite multigraph,
//! a search for a cycle of a given length in it, and a verifier of
//! claimed cycles.
pub mod adjacency;
pub mod cycle;
pub mod graph;
pub mod search;
pub mod sip;
