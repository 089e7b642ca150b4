pub mod graph;
pub mod scc_result;
pub mod vec_util;
pub mod strong_connected_components;
pub mod elementary_cycles_search;
pub mod tarjan;
pub mod subgraph_components;
