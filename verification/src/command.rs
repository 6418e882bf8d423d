//! Commands.

use vstd::prelude::*;

use crate::error::{ErrorView, StorageError};
use crate::float::{equal_vectors, same32, same_vectors};
use crate::types::{ColumnId, EdgeId, LabelId, NodeId, PropertyValue, PropertyView};

verus! {

/// The v0 command model.
///
/// All mutations enter the system through these commands.
/// The commit log is a sequence of checksummed commands. Replay is deterministic.
/// This follows the TigerBeetle principle: the log owns commit semantics.
#[derive(Debug, Clone)]
pub enum Command {
    /// Create a node with the given label and properties.
    CreateNode { node_id: NodeId, label_id: LabelId, properties: Vec<PropertyValue> },
    /// Create an edge between two nodes.
    CreateEdge {
        edge_id: EdgeId,
        type_id: LabelId,
        from: NodeId,
        to: NodeId,
        properties: Vec<PropertyValue>,
    },
    /// Insert or update a vector attached to a node.
    /// ANN is derived from committed vectors, which are stored in the base graph store.
    /// The numbers are given by their IEEE 754 bit patterns.
    UpsertVector {
        node_id: NodeId,
        /// Column ID of the vector property within the node label schema.
        column_id: ColumnId,
        vector: Vec<u32>,
    },
    /// Soft-delete a node. Does not remove edges immediately in v0.
    DeleteNode { node_id: NodeId },
    /// Delete an edge by its ID.
    DeleteEdge { edge_id: EdgeId },
}

/// A log entry wraps a command with metadata for the commit log.
#[derive(Debug, Clone, PartialEq)]
pub struct LogEntry {
    /// Monotonically increasing log sequence number.
    pub lsn: u64,
    /// Checksum of the serialized command bytes.
    /// Corrupt entries are rejected at replay time.
    pub checksum: u32,
    pub command: Command,
}

/// What a [`Command`] stands for.
#[verifier::ext_equal]
pub enum CommandView {
    CreateNode { node_id: NodeId, label_id: LabelId, properties: Seq<PropertyView> },
    CreateEdge {
        edge_id: EdgeId,
        type_id: LabelId,
        from: NodeId,
        to: NodeId,
        properties: Seq<PropertyView>,
    },
    UpsertVector { node_id: NodeId, column_id: ColumnId, vector: Seq<u32> },
    DeleteNode { node_id: NodeId },
    DeleteEdge { edge_id: EdgeId },
}

pub open spec fn values_view(values: Seq<PropertyValue>) -> Seq<PropertyView> {
    Seq::new(values.len(), |i: int| values[i]@)
}

impl View for Command {
    type V = CommandView;

    open spec fn view(&self) -> CommandView {
        match self {
            Command::CreateNode { node_id, label_id, properties } => CommandView::CreateNode {
                node_id: *node_id,
                label_id: *label_id,
                properties: values_view(properties@),
            },
            Command::CreateEdge { edge_id, type_id, from, to, properties } => {
                CommandView::CreateEdge {
                    edge_id: *edge_id,
                    type_id: *type_id,
                    from: *from,
                    to: *to,
                    properties: values_view(properties@),
                }
            },
            Command::UpsertVector { node_id, column_id, vector } => CommandView::UpsertVector {
                node_id: *node_id,
                column_id: *column_id,
                vector: vector@,
            },
            Command::DeleteNode { node_id } => CommandView::DeleteNode { node_id: *node_id },
            Command::DeleteEdge { edge_id } => CommandView::DeleteEdge { edge_id: *edge_id },
        }
    }
}

/// The values are equal one by one.
pub open spec fn same_values(a: Seq<PropertyView>, b: Seq<PropertyView>) -> bool {
    a.len() == b.len() && forall|i: int| 0 <= i < a.len() ==> (#[trigger] a[i]).same(b[i])
}

impl CommandView {
    /// The commands are equal, floating-point numbers being compared as numbers.
    pub open spec fn same(self, other: CommandView) -> bool {
        match (self, other) {
            (
                CommandView::CreateNode { node_id: n, label_id: l, properties: p },
                CommandView::CreateNode { node_id, label_id, properties },
            ) => n == node_id && l == label_id && same_values(p, properties),
            (
                CommandView::CreateEdge { edge_id: e, type_id: y, from: f, to: t, properties: p },
                CommandView::CreateEdge { edge_id, type_id, from, to, properties },
            ) => e == edge_id && y == type_id && f == from && t == to && same_values(p, properties),
            (
                CommandView::UpsertVector { node_id: n, column_id: c, vector: v },
                CommandView::UpsertVector { node_id, column_id, vector },
            ) => n == node_id && c == column_id && same_vectors(v, vector),
            (
                CommandView::DeleteNode { node_id: n },
                CommandView::DeleteNode { node_id },
            ) => n == node_id,
            (
                CommandView::DeleteEdge { edge_id: e },
                CommandView::DeleteEdge { edge_id },
            ) => e == edge_id,
            _ => false,
        }
    }
}

fn equal_values(a: &Vec<PropertyValue>, b: &Vec<PropertyValue>) -> (r: bool)
    ensures
        r == same_values(values_view(a@), values_view(b@)),
{
    let ghost v = values_view(a@);
    let ghost w = values_view(b@);
    if a.len() != b.len() {
        return false;
    }
    let mut i: usize = 0;
    while i < a.len()
        invariant
            i <= a@.len(),
            a@.len() == b@.len(),
            v == values_view(a@),
            w == values_view(b@),
            forall|j: int| 0 <= j < i ==> (#[trigger] v[j]).same(w[j]),
        decreases a@.len() - i,
    {
        if a[i] != b[i] {
            assert(!v[i as int].same(w[i as int]));
            return false;
        }
        i = i + 1;
    }
    true
}

impl PartialEq for Command {
    fn eq(&self, other: &Self) -> (r: bool) {
        match (self, other) {
            (
                Command::CreateNode { node_id: n, label_id: l, properties: p },
                Command::CreateNode { node_id, label_id, properties },
            ) => *n == *node_id && *l == *label_id && equal_values(p, properties),
            (
                Command::CreateEdge { edge_id: e, type_id: y, from: f, to: t, properties: p },
                Command::CreateEdge { edge_id, type_id, from, to, properties },
            ) => *e == *edge_id && *y == *type_id && *f == *from && *t == *to && equal_values(
                p,
                properties,
            ),
            (
                Command::UpsertVector { node_id: n, column_id: c, vector: v },
                Command::UpsertVector { node_id, column_id, vector },
            ) => *n == *node_id && *c == *column_id && equal_vectors(v, vector),
            (Command::DeleteNode { node_id: n }, Command::DeleteNode { node_id }) => *n == *node_id,
            (Command::DeleteEdge { edge_id: e }, Command::DeleteEdge { edge_id }) => *e == *edge_id,
            _ => false,
        }
    }
}

impl vstd::std_specs::cmp::PartialEqSpecImpl for Command {
    open spec fn obeys_eq_spec() -> bool {
        true
    }

    open spec fn eq_spec(&self, other: &Self) -> bool {
        self@.same(other@)
    }
}

/// What a command does: the state after it, and success or the error.
pub struct Applied<S> {
    pub state: S,
    pub result: Result<(), ErrorView>,
}

/// The result of a command is success or an error.
pub open spec fn same_result(r: Result<(), StorageError>, v: Result<(), ErrorView>) -> bool {
    match r {
        Ok(()) => v is Ok,
        Err(e) => v == Err::<(), ErrorView>(e@),
    }
}

impl CommandView {
    /// No floating-point number of the command is a NaN or zero.
    pub open spec fn plain(self) -> bool {
        match self {
            CommandView::CreateNode { properties, .. } => forall|i: int|
                0 <= i < properties.len() ==> (#[trigger] properties[i]).plain(),
            CommandView::CreateEdge { properties, .. } => forall|i: int|
                0 <= i < properties.len() ==> (#[trigger] properties[i]).plain(),
            CommandView::UpsertVector { vector, .. } => forall|i: int|
                0 <= i < vector.len() ==> same32(#[trigger] vector[i], vector[i]) && !same32(
                    vector[i],
                    0,
                ),
            _ => true,
        }
    }
}

/// Plain commands are equal exactly if they are the same, and equality goes both ways.
pub proof fn law_commands_equal(a: CommandView, b: CommandView)
    ensures
        a.plain() ==> (a.same(b) <==> a == b),
        a.same(b) <==> b.same(a),
{
    assert forall|p: Seq<PropertyView>, q: Seq<PropertyView>| #[trigger] same_values(p, q) implies same_values(
        q,
        p,
    ) by {
        assert forall|i: int| 0 <= i < q.len() implies (#[trigger] q[i]).same(p[i]) by {
            assert(p[i].same(q[i]));
        }
    }
    assert forall|v: Seq<u32>, w: Seq<u32>| #[trigger] same_vectors(v, w) implies same_vectors(
        w,
        v,
    ) by {
        assert forall|i: int| 0 <= i < w.len() implies same32(#[trigger] w[i], v[i]) by {
            assert(same32(v[i], w[i]));
        }
    }
    if a.plain() {
        match (a, b) {
            (
                CommandView::CreateNode { properties: p, .. },
                CommandView::CreateNode { properties: q, .. },
            ) => {
                lemma_plain_values(p, q);
            },
            (
                CommandView::CreateEdge { properties: p, .. },
                CommandView::CreateEdge { properties: q, .. },
            ) => {
                lemma_plain_values(p, q);
            },
            (
                CommandView::UpsertVector { vector: v, .. },
                CommandView::UpsertVector { vector: w, .. },
            ) => {
                if same_vectors(v, w) {
                    assert forall|i: int| 0 <= i < v.len() implies v[i] == w[i] by {
                        assert(same32(v[i], w[i]));
                    }
                    assert(v =~= w);
                }
            },
            _ => {},
        }
    }
}

proof fn lemma_plain_values(p: Seq<PropertyView>, q: Seq<PropertyView>)
    requires
        forall|i: int| 0 <= i < p.len() ==> (#[trigger] p[i]).plain(),
    ensures
        same_values(p, q) <==> p == q,
{
    if same_values(p, q) {
        assert forall|i: int| 0 <= i < p.len() implies p[i] == q[i] by {
            assert(p[i].plain() && p[i].same(q[i]));
        }
        assert(p =~= q);
    }
    if p == q {
        assert forall|i: int| 0 <= i < p.len() implies (#[trigger] p[i]).same(q[i]) by {
            assert(p[i].plain());
        }
    }
}

} // verus!
