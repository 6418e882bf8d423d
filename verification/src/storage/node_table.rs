//! The nodes of one label, in memory.

use vstd::prelude::*;

use crate::catalog::{columns_of, NodeLabelEntry, NodeLabelView};
use crate::error::{ErrorView, StorageError};
use crate::search;
use crate::search::first_where;
use crate::state::node_table::{
    append_records, groups_view, live_rows, node_records_view, table_records, NodeRecordView,
};
use crate::table::node;
use crate::table::node::{GroupView, NodeGroup};
use crate::table::row::{row_view, RowView};
use crate::types::{LabelId, NodeGroupIdx, NodeId, PropertyValue, RowIdx, TableId};

pub use crate::state::node_table::NodeRecord;

verus! {

/// Manages all node groups for a single node label.
/// Groups are append-only: when the current group fills, a new one is allocated.
/// No file handle here; this is a pure in-memory structure.
pub struct NodeTable {
    table_id: TableId,
    label_id: LabelId,
    schema: NodeLabelEntry,
    groups: Vec<NodeGroup>,
}

// ---------------------------------------------------------------------------------------------
// The model

/// What a [`NodeTable`] stands for.
#[verifier::ext_equal]
pub struct PlainNodesView {
    pub schema: NodeLabelView,
    pub groups: Seq<GroupView>,
}

/// What inserting a node does: the table after it, and the place of the node or the error.
pub struct NodePlaced {
    pub state: PlainNodesView,
    pub result: Result<(NodeGroupIdx, u64), ErrorView>,
}

impl PlainNodesView {
    /// A table without nodes.
    pub open spec fn empty(schema: NodeLabelView) -> PlainNodesView {
        PlainNodesView { schema, groups: Seq::empty() }
    }

    /// Each group is dense.
    pub open spec fn sound(self) -> bool {
        forall|i: int|
            0 <= i < self.groups.len() ==> (#[trigger] self.groups[i]).valid()
                && self.groups[i].dense()
    }

    /// The groups with one at the end that has room.
    pub open spec fn active_groups(self) -> Seq<GroupView> {
        if self.groups.len() == 0 || self.groups.last().is_full() {
            self.groups.push(
                GroupView::empty(
                    NodeGroupIdx(self.groups.len() as u64),
                    columns_of(self.schema.properties),
                ),
            )
        } else {
            self.groups
        }
    }

    /// A node goes into the last group, or into a new one.
    pub open spec fn insert(self, node_id: NodeId, values: RowView) -> NodePlaced {
        let groups = self.active_groups();
        let n = groups.len() - 1;
        let i = groups[n].insert(node_id, values);
        NodePlaced {
            state: PlainNodesView { groups: groups.update(n, i.state), ..self },
            result: match i.result {
                Ok(row) => Ok((NodeGroupIdx(n as u64), row)),
                Err(e) => Err(e),
            },
        }
    }

    pub open spec fn group_has(self, node_id: NodeId) -> spec_fn(int) -> bool {
        |i: int| self.groups[i].find(node_id) is Some
    }

    /// The place of the first group with a node.
    pub open spec fn group_with(self, node_id: NodeId) -> Option<int> {
        first_where(self.groups.len(), self.group_has(node_id))
    }

    /// What reading a node gives; `None` where there is none.
    pub open spec fn read(self, node_id: NodeId) -> Result<Option<RowView>, ErrorView> {
        match self.group_with(node_id) {
            Some(i) => self.groups[i].read(self.groups[i].find(node_id)->Some_0 as u64),
            None => Ok(None),
        }
    }

    /// The table after the first group with a node lost it.
    pub open spec fn delete(self, node_id: NodeId) -> PlainNodesView {
        match self.group_with(node_id) {
            Some(i) => PlainNodesView {
                groups: self.groups.update(
                    i,
                    self.groups[i].delete(self.groups[i].find(node_id)->Some_0 as u64),
                ),
                ..self
            },
            None => self,
        }
    }

    pub open spec fn num_nodes(self) -> nat {
        live_rows(self.groups, self.groups.len())
    }

    /// All nodes, in insertion order.
    pub open spec fn records(self) -> Seq<NodeRecordView> {
        table_records(self.groups, self.groups.len())
    }
}

// ---------------------------------------------------------------------------------------------
// Facts

proof fn lemma_insert_sound(t: PlainNodesView, node_id: NodeId, values: RowView)
    requires
        t.sound(),
    ensures
        t.insert(node_id, values).state.sound(),
        t.active_groups().last().valid(),
        t.active_groups().last().dense(),
{
    let groups = t.active_groups();
    let n = groups.len() - 1;
    assert forall|i: int| 0 <= i < groups.len() implies (#[trigger] groups[i]).valid()
        && groups[i].dense() by {
        if i < t.groups.len() {
            assert(groups[i] == t.groups[i]);
        }
    }
    assert(groups[n].valid() && groups[n].dense());
    node::law_insert_keeps_dense(groups[n], node_id, values);
    let s = t.insert(node_id, values).state;
    assert forall|i: int| 0 <= i < s.groups.len() implies (#[trigger] s.groups[i]).valid()
        && s.groups[i].dense() by {
        if i != n {
            assert(s.groups[i] == groups[i]);
        }
    }
}

proof fn lemma_delete_sound(t: PlainNodesView, i: int, row: u64)
    requires
        t.sound(),
        0 <= i < t.groups.len(),
    ensures
        (PlainNodesView { groups: t.groups.update(i, t.groups[i].delete(row)), ..t }).sound(),
{
    assert(t.groups[i].valid() && t.groups[i].dense());
    node::law_delete_keeps_dense(t.groups[i], row);
    let groups = t.groups.update(i, t.groups[i].delete(row));
    assert forall|k: int| 0 <= k < groups.len() implies (#[trigger] groups[k]).valid()
        && groups[k].dense() by {
        if k != i {
            assert(groups[k] == t.groups[k]);
        }
    }
}

// ---------------------------------------------------------------------------------------------
// The table

impl View for NodeTable {
    type V = PlainNodesView;

    closed spec fn view(&self) -> PlainNodesView {
        PlainNodesView { schema: self.schema@, groups: groups_view(self.groups@) }
    }
}

impl NodeTable {
    pub closed spec fn wf(&self) -> bool {
        &&& self.table_id == self.schema.table_id
        &&& self.label_id == self.schema.label_id
        &&& forall|i: int| 0 <= i < self.groups@.len() ==> (#[trigger] self.groups@[i]).wf()
        &&& self@.sound()
    }

    pub proof fn lemma_wf(&self)
        requires
            self.wf(),
        ensures
            self@.sound(),
    {
    }

    pub fn new(schema: NodeLabelEntry) -> (t: Self)
        ensures
            t.wf(),
            t@ == PlainNodesView::empty(schema@),
    {
        let t = NodeTable {
            table_id: schema.table_id,
            label_id: schema.label_id,
            schema,
            groups: Vec::new(),
        };
        assert(t@ =~= PlainNodesView::empty(schema@));
        t
    }

    #[must_use]
    pub fn table_id(&self) -> (id: TableId)
        requires
            self.wf(),
        ensures
            id == self@.schema.table_id,
    {
        self.table_id
    }

    #[must_use]
    pub fn label_id(&self) -> (id: LabelId)
        requires
            self.wf(),
        ensures
            id == self@.schema.label_id,
    {
        self.label_id
    }

    /// Insert a node. Finds (or creates) a non-full group and appends.
    /// Returns the `(NodeGroupIdx, RowIdx)` location of the inserted row.
    pub fn insert_node(&mut self, node_id: NodeId, properties: &[Option<PropertyValue>]) -> (r:
        Result<(NodeGroupIdx, RowIdx), StorageError>)
        requires
            old(self).wf(),
        ensures
            final(self).wf(),
            ({
                let i = old(self)@.insert(node_id, row_view(properties@));
                &&& final(self)@ == i.state
                &&& match r {
                    Ok(place) => i.result == Ok::<(NodeGroupIdx, u64), ErrorView>(place),
                    Err(e) => i.result == Err::<(NodeGroupIdx, u64), ErrorView>(e@),
                }
            }),
    {
        proof {
            lemma_insert_sound(self@, node_id, row_view(properties@));
        }
        let count: usize = self.groups.len();
        if count > 0 {
            assert(self@.groups.last() == self.groups@[count - 1]@);
        }
        if count == 0 || self.groups[count - 1].is_full() {
            let group = NodeGroup::new(NodeGroupIdx(count as u64), &self.schema);
            self.groups.push(group);
        }
        let ghost a = *self;
        assert(a@.groups =~= old(self)@.active_groups());
        let last: usize = self.groups.len() - 1;
        proof {
            assert(a@.groups[last as int] == a.groups@[last as int]@);
            node::law_dense_bounds(a@.groups[last as int]);
        }
        let r = self.groups[last].insert_row(node_id, properties);
        assert(self@.groups =~= a@.groups.update(
            last as int,
            a@.groups[last as int].insert(node_id, row_view(properties@)).state,
        ));
        assert(self@ =~= old(self)@.insert(node_id, row_view(properties@)).state);
        match r {
            Ok(row) => Ok((NodeGroupIdx(last as u64), row)),
            Err(e) => Err(e),
        }
    }

    /// The place of the first group with a node, and the row in it.
    fn locate(&self, node_id: NodeId) -> (r: Option<(usize, RowIdx)>)
        requires
            self.wf(),
        ensures
            match r {
                Some((i, row)) => {
                    &&& i < self.groups@.len()
                    &&& self@.group_with(node_id) == Some(i as int)
                    &&& self@.groups[i as int].find(node_id) == Some(row as int)
                },
                None => self@.group_with(node_id) is None,
            },
    {
        let ghost p = self@.group_has(node_id);
        let mut i: usize = 0;
        while i < self.groups.len()
            invariant
                self.wf(),
                i <= self.groups@.len(),
                p == self@.group_has(node_id),
                forall|j: int| 0 <= j < i ==> !#[trigger] p(j),
            decreases self.groups@.len() - i,
        {
            proof {
                assert(self@.groups[i as int] == self.groups@[i as int]@);
                node::law_dense_bounds(self@.groups[i as int]);
            }
            if let Some(row) = self.groups[i].find_node(node_id) {
                proof {
                    assert(p(i as int));
                    search::lemma_first_where_is(self@.groups.len(), p, i as int);
                }
                return Some((i, row));
            }
            i = i + 1;
        }
        proof {
            search::lemma_first_where_none(self@.groups.len(), p);
        }
        None
    }

    /// Read all properties for a node by scanning all groups.
    /// Returns `None` if the node is not found; propagates storage errors.
    pub fn get_node(&self, node_id: NodeId) -> (r: Result<
        Option<Vec<Option<PropertyValue>>>,
        StorageError,
    >)
        requires
            self.wf(),
        ensures
            match r {
                Ok(Some(v)) => self@.read(node_id) == Ok::<Option<RowView>, ErrorView>(
                    Some(row_view(v@)),
                ),
                Ok(None) => self@.read(node_id) == Ok::<Option<RowView>, ErrorView>(None),
                Err(e) => self@.read(node_id) == Err::<Option<RowView>, ErrorView>(e@),
            },
    {
        match self.locate(node_id) {
            Some((i, row)) => {
                proof {
                    assert(self@.groups[i as int] == self.groups@[i as int]@);
                    node::law_dense_bounds(self@.groups[i as int]);
                }
                self.groups[i].get_row(row)
            },
            None => Ok(None),
        }
    }

    /// Soft-delete a node. Returns `NodeNotFound` if the node doesn't exist.
    pub fn delete_node(&mut self, node_id: NodeId) -> (r: Result<(), StorageError>)
        requires
            old(self).wf(),
        ensures
            final(self).wf(),
            final(self)@ == old(self)@.delete(node_id),
            match r {
                Ok(()) => old(self)@.group_with(node_id) is Some,
                Err(e) => old(self)@.group_with(node_id) is None && e@ == (
                ErrorView::NodeNotFound { node_id }),
            },
    {
        match self.locate(node_id) {
            Some((i, row)) => {
                proof {
                    assert(self@.groups[i as int] == self.groups@[i as int]@);
                    node::law_dense_bounds(self@.groups[i as int]);
                    node::lemma_find_row(self@.groups[i as int], node_id);
                    lemma_delete_sound(self@, i as int, row);
                }
                let r = self.groups[i].delete_row(row);
                assert(self@.groups =~= old(self)@.groups.update(
                    i as int,
                    old(self)@.groups[i as int].delete(row),
                ));
                assert(self@ =~= old(self)@.delete(node_id));
                r
            },
            None => Err(StorageError::NodeNotFound { node_id }),
        }
    }

    #[must_use]
    pub fn num_groups(&self) -> (n: usize)
        ensures
            n == self@.groups.len(),
    {
        self.groups.len()
    }

    #[must_use]
    pub fn num_nodes(&self) -> (n: u64)
        requires
            self.wf(),
            self@.num_nodes() <= u64::MAX,
        ensures
            n == self@.num_nodes(),
    {
        self.checked_num_nodes().unwrap()
    }

    /// Like [`NodeTable::num_nodes`]; `None` where the number is too large.
    pub fn checked_num_nodes(&self) -> (r: Option<u64>)
        requires
            self.wf(),
        ensures
            match r {
                Some(n) => n == self@.num_nodes(),
                None => self@.num_nodes() > u64::MAX,
            },
    {
        let mut n: u64 = 0;
        let mut i: usize = 0;
        while i < self.groups.len()
            invariant
                self.wf(),
                i <= self.groups@.len(),
                n == live_rows(self@.groups, i as nat),
            decreases self.groups@.len() - i,
        {
            proof {
                assert(self@.groups[i as int] == self.groups@[i as int]@);
                node::law_dense_bounds(self@.groups[i as int]);
                lemma_live_mono(self@.groups, (i + 1) as nat, self@.groups.len());
            }
            match n.checked_add(self.groups[i].num_live_rows()) {
                Some(sum) => {
                    n = sum;
                },
                None => {
                    return None;
                },
            }
            i = i + 1;
        }
        Some(n)
    }

    /// All live nodes in the table, in insertion order.
    #[must_use]
    pub fn iter(&self) -> (records: Vec<NodeRecord>)
        requires
            self.wf(),
        ensures
            node_records_view(records@) == self@.records(),
    {
        let mut records: Vec<NodeRecord> = Vec::new();
        let mut i: usize = 0;
        assert(node_records_view(records@) =~= Seq::empty());
        while i < self.groups.len()
            invariant
                self.wf(),
                i <= self.groups@.len(),
                node_records_view(records@) == table_records(self@.groups, i as nat),
            decreases self.groups@.len() - i,
        {
            proof {
                assert(self@.groups[i as int] == self.groups@[i as int]@);
                node::law_dense_bounds(self@.groups[i as int]);
            }
            append_records(&self.groups[i], &mut records);
            i = i + 1;
        }
        records
    }
}

proof fn lemma_live_mono(groups: Seq<GroupView>, i: nat, n: nat)
    requires
        i <= n,
    ensures
        live_rows(groups, i) <= live_rows(groups, n),
    decreases n - i,
{
    if i < n {
        lemma_live_mono(groups, i, (n - 1) as nat);
    }
}

} // verus!
