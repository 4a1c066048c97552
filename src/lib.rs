pub mod centrality;
pub mod components;
pub mod graph;
