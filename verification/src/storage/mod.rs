//! The in-memory stores: no pages, no offsets, adjacency by node id.

pub mod adjacency_index;
pub mod column_chunk;
pub mod edge_group;
pub mod edge_laws;
pub mod edge_meaning;
pub mod edge_records;
pub mod edge_store;
pub mod edge_table;
pub mod node_laws;
pub mod node_meaning;
pub mod node_store;
pub mod node_table;

pub use adjacency_index::{AdjacencyIndex, EdgeRef};
pub use crate::error::StorageError;
pub use crate::io::page::Page;
pub use edge_group::EdgeRecord;
pub use edge_store::EdgeStore;
pub use edge_table::EdgeTable;
