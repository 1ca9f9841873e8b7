pub mod algorithms;
pub mod graph_classifier;
pub mod graph_query;
pub mod graph_view;
pub mod standard;
pub mod transform;
