pub mod call_graph_builder;
pub mod call_graph_visitor;
