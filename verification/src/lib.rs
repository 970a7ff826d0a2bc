//! Exact nearest-neighbour fraud scoring over a quantized transaction index.
pub mod builder;
pub mod cell;
pub mod cell_course;
pub mod cell_search;
pub mod course;
pub mod distance;
pub mod frontier;
pub mod index_check;
pub mod index_format;
pub mod normalization;
pub mod numbers;
pub mod oracle;
pub mod perf;
pub mod queue;
pub mod score;
pub mod search;
pub mod stats;
pub mod topk;
pub mod trace;
pub mod traverse;
pub mod tree;
pub mod tree_builder;
pub mod tree_search;
pub mod types;
pub mod vectorize;
pub mod vote;
pub mod walk;

pub use builder::build_index;
pub use cell::{cell_key_from_i16, cell_lower_bound_sq, neighbor_keys};
pub use distance::l2sq_scalar;
pub use index_format::{
    write_index, CellEntry, IndexHeader, IndexView, TreeNode, TreeRootEntry, EMPTY_NODE,
    TREE_LEAF_SIZE,
};
pub use normalization::Constants;
pub use search::{Index, SearchEngine, Verdict};
pub use topk::TopK;
pub use types::{Payload, Vec16I};
pub use vectorize::{
    cell_key_from_payload, fast_parse_mcc, vectorize_to_i16, vectorize_to_i16_and_key,
};
