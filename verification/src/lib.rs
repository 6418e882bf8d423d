//! The core of a graph storage engine: the in-memory tables of nodes and edges, the stores over them,
//! and the format of the pages that hold them on disk.

use vstd::prelude::*;

pub mod adjacency;
pub mod catalog;
pub mod command;
pub mod config;
pub mod error;
pub mod float;
pub mod io;
pub mod listing;
pub mod ordered_map;
pub mod search;
pub mod state;
pub mod storage;
pub mod table;
pub mod text;
pub mod types;
pub mod utf8;

pub use error::{OpenError, StorageError};
pub use io::page::Page;
pub use state::database::StorageManager;
pub use state::edge_store::EdgeStore;
pub use state::edge_table::EdgeTable;
pub use table::edge::CSREdgeRecord;

verus! {

/// Prepares the library for use; there is nothing to prepare.
pub fn init() {
}

} // verus!
