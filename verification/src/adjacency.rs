//! References to edges from a node's adjacency list.

use vstd::prelude::*;

use crate::types::{EdgeId, LabelId, NodeId};

verus! {

/// A reference to an edge from a node's adjacency list.
/// Used as the return type for CSR-based neighbor lookups.
#[derive(Debug, Clone, Copy, PartialEq, Eq, Structural)]
pub struct EdgeRef {
    pub edge_id: EdgeId,
    pub type_id: LabelId,
    pub neighbor: NodeId,
}

} // verus!
