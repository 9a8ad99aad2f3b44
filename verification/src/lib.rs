//! Undirected graphs for experiments on networks: a sparse form that is built from edge
//! lists, its largest connected component, a compact form for simulation, and the compact
//! forms of some self-similar networks. Two union-find structures serve them.

pub mod adjacency;
pub mod apollo;
pub mod compact_edges;
pub mod connectivity;
pub mod decimal;
pub mod dsu;
pub mod fast_dsu;
pub mod general_graph;
pub mod koch;
pub mod konect;
pub mod normal_graph;
pub mod power;
pub mod pseudofractal;
pub mod text;

pub use dsu::DSU;
pub use fast_dsu::FastDSU;
pub use general_graph::GeneralUndiGraph;
pub use normal_graph::NormalUndiGraph;
