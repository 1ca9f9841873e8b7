pub mod context;
pub mod map_filter_fold;
pub mod para;
pub mod types;
pub mod unfold_graph;
