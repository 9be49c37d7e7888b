//! Analysis of four-row perfect clears: a bit-packed model of piece queues,
//! the graph of reachable boards, and a search for the share of hidden piece
//! orders that a player with limited previews can always clear.

pub mod shape;
pub mod board;
pub mod queue;
pub mod bag_laws;
pub mod board_map;
pub mod board_set;
pub mod boardgraph;
pub mod see_model;
pub mod calculate;
pub mod culling;
pub mod shape_counts;
pub mod combinatoric;
pub mod parse;
pub mod text;
pub mod permute;
pub mod big_queue;
pub mod chance;
pub mod leb;
pub mod board_list;
pub mod builder;
pub mod field;
pub mod see_laws;
pub mod shards;
pub mod count_laws;
