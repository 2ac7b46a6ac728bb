pub mod aggregator;
pub mod cfg;
pub mod graph;
pub mod scc;
pub mod topo;
pub mod loops;
