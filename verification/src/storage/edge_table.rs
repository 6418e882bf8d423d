//! The edges of one type, in memory.

use vstd::prelude::*;

use crate::catalog::{EdgeTypeEntry, EdgeTypeView};
use crate::error::{ErrorView, StorageError};
use crate::search;
use crate::search::{count_false, first_where};
use crate::storage::edge_group::{EdgeGroup, EdgeRecord, PlainGroupView};
use crate::table::edge::RecordView;
use crate::table::row::{row_view, RowView};
use crate::types::{EdgeId, LabelId, NodeGroupIdx, NodeId, PropertyValue, RowIdx, TableId};

verus! {

/// Groups are append-only: when the last group fills, a new one is added.
pub struct EdgeTable {
    table_id: TableId,
    type_id: LabelId,
    schema: EdgeTypeEntry,
    groups: Vec<EdgeGroup>,
}

// ---------------------------------------------------------------------------------------------
// The model

/// What an [`EdgeTable`] stands for.
#[verifier::ext_equal]
pub struct PlainEdgesView {
    pub schema: EdgeTypeView,
    pub groups: Seq<PlainGroupView>,
}

/// What inserting an edge does: the table after it, and the place of the edge or the error.
pub struct EdgePlaced {
    pub state: PlainEdgesView,
    pub result: Result<(NodeGroupIdx, u64), ErrorView>,
}

pub open spec fn plain_groups_view(groups: Seq<EdgeGroup>) -> Seq<PlainGroupView> {
    Seq::new(groups.len(), |i: int| groups[i]@)
}

pub open spec fn edge_records_view(records: Seq<EdgeRecord>) -> Seq<RecordView> {
    Seq::new(records.len(), |i: int| records[i]@)
}

/// The number of live rows of the first `n` groups.
pub open spec fn live_rows(groups: Seq<PlainGroupView>, n: nat) -> nat
    decreases n,
{
    if n == 0 {
        0
    } else {
        live_rows(groups, (n - 1) as nat) + count_false(groups[n - 1].deleted)
    }
}

/// The live rows among the first `n` of a group.
pub open spec fn group_records(g: PlainGroupView, n: nat) -> Seq<RecordView>
    decreases n,
{
    if n == 0 {
        Seq::empty()
    } else {
        let before = group_records(g, (n - 1) as nat);
        match g.read((n - 1) as u64) {
            Ok(Some(record)) => before.push(record),
            _ => before,
        }
    }
}

/// The live rows of the first `n` groups.
pub open spec fn table_records(groups: Seq<PlainGroupView>, n: nat) -> Seq<RecordView>
    decreases n,
{
    if n == 0 {
        Seq::empty()
    } else {
        table_records(groups, (n - 1) as nat) + group_records(groups[n - 1], groups[n - 1].len())
    }
}

impl PlainEdgesView {
    /// A table without edges.
    pub open spec fn empty(schema: EdgeTypeView) -> PlainEdgesView {
        PlainEdgesView { schema, groups: Seq::empty() }
    }

    /// The groups with one at the end that has room.
    pub open spec fn active_groups(self) -> Seq<PlainGroupView> {
        if self.groups.len() == 0 || self.groups.last().is_full() {
            self.groups.push(
                PlainGroupView::empty(
                    NodeGroupIdx(self.groups.len() as u64),
                    self.schema.properties,
                ),
            )
        } else {
            self.groups
        }
    }

    /// An edge goes into the last group, or into a new one.
    pub open spec fn insert(
        self,
        edge_id: EdgeId,
        from: NodeId,
        to: NodeId,
        values: RowView,
    ) -> EdgePlaced {
        let groups = self.active_groups();
        let n = groups.len() - 1;
        let i = groups[n].insert(edge_id, from, to, values);
        EdgePlaced {
            state: PlainEdgesView { groups: groups.update(n, i.state), ..self },
            result: match i.result {
                Ok(row) => Ok((NodeGroupIdx(n as u64), row)),
                Err(e) => Err(e),
            },
        }
    }

    pub open spec fn group_has(self, edge_id: EdgeId) -> spec_fn(int) -> bool {
        |i: int| self.groups[i].find(edge_id) is Some
    }

    /// The place of the first group with an edge.
    pub open spec fn group_with(self, edge_id: EdgeId) -> Option<int> {
        first_where(self.groups.len(), self.group_has(edge_id))
    }

    /// What reading an edge gives; `None` where there is none.
    pub open spec fn read(self, edge_id: EdgeId) -> Result<Option<RecordView>, ErrorView> {
        match self.group_with(edge_id) {
            Some(i) => self.groups[i].read(self.groups[i].find(edge_id)->Some_0 as u64),
            None => Ok(None),
        }
    }

    /// The table after the first group with an edge lost it.
    pub open spec fn delete(self, edge_id: EdgeId) -> PlainEdgesView {
        match self.group_with(edge_id) {
            Some(i) => PlainEdgesView {
                groups: self.groups.update(
                    i,
                    self.groups[i].delete(self.groups[i].find(edge_id)->Some_0 as u64),
                ),
                ..self
            },
            None => self,
        }
    }

    pub open spec fn num_edges(self) -> nat {
        live_rows(self.groups, self.groups.len())
    }

    /// All edges, group by group and row by row.
    pub open spec fn records(self) -> Seq<RecordView> {
        table_records(self.groups, self.groups.len())
    }
}

// ---------------------------------------------------------------------------------------------
// The table

impl View for EdgeTable {
    type V = PlainEdgesView;

    closed spec fn view(&self) -> PlainEdgesView {
        PlainEdgesView { schema: self.schema@, groups: plain_groups_view(self.groups@) }
    }
}

proof fn lemma_live_mono(groups: Seq<PlainGroupView>, i: nat, n: nat)
    requires
        i <= n,
    ensures
        live_rows(groups, i) <= live_rows(groups, n),
    decreases n - i,
{
    if i < n {
        lemma_live_mono(groups, i, (n - 1) as nat);
    }
}

impl EdgeTable {
    pub closed spec fn wf(&self) -> bool {
        &&& self.table_id == self.schema.table_id
        &&& self.type_id == self.schema.label_id
        &&& forall|i: int| 0 <= i < self.groups@.len() ==> (#[trigger] self.groups@[i]).wf()
    }

    pub fn new(schema: EdgeTypeEntry) -> (t: Self)
        ensures
            t.wf(),
            t@ == PlainEdgesView::empty(schema@),
    {
        let t = EdgeTable {
            table_id: schema.table_id,
            type_id: schema.label_id,
            schema,
            groups: Vec::new(),
        };
        assert(t@ =~= PlainEdgesView::empty(schema@));
        t
    }

    pub fn table_id(&self) -> (id: TableId)
        requires
            self.wf(),
        ensures
            id == self@.schema.table_id,
    {
        self.table_id
    }

    pub fn type_id(&self) -> (id: LabelId)
        requires
            self.wf(),
        ensures
            id == self@.schema.label_id,
    {
        self.type_id
    }

    /// Adds an edge and gives its group and its row in it.
    pub fn insert_edge(
        &mut self,
        edge_id: EdgeId,
        from: NodeId,
        to: NodeId,
        properties: &[Option<PropertyValue>],
    ) -> (r: Result<(NodeGroupIdx, RowIdx), StorageError>)
        requires
            old(self).wf(),
        ensures
            final(self).wf(),
            ({
                let i = old(self)@.insert(edge_id, from, to, row_view(properties@));
                &&& final(self)@ == i.state
                &&& match r {
                    Ok(place) => i.result == Ok::<(NodeGroupIdx, u64), ErrorView>(place),
                    Err(e) => i.result == Err::<(NodeGroupIdx, u64), ErrorView>(e@),
                }
            }),
    {
        let count: usize = self.groups.len();
        if count > 0 {
            assert(self@.groups.last() == self.groups@[count - 1]@);
        }
        if count == 0 || self.groups[count - 1].is_full() {
            let group = EdgeGroup::new(NodeGroupIdx(count as u64), &self.schema);
            self.groups.push(group);
        }
        let ghost a = *self;
        assert(a@.groups =~= old(self)@.active_groups());
        let last: usize = self.groups.len() - 1;
        assert(a@.groups[last as int] == a.groups@[last as int]@);
        let r = self.groups[last].insert_row(edge_id, from, to, properties);
        assert(self@.groups =~= a@.groups.update(
            last as int,
            a@.groups[last as int].insert(edge_id, from, to, row_view(properties@)).state,
        ));
        match r {
            Ok(row) => Ok((NodeGroupIdx(last as u64), row)),
            Err(e) => Err(e),
        }
    }

    /// The place of the first group with an edge, and the row in it.
    fn locate(&self, edge_id: EdgeId) -> (r: Option<(usize, RowIdx)>)
        requires
            self.wf(),
        ensures
            match r {
                Some((i, row)) => {
                    &&& i < self.groups@.len()
                    &&& self@.group_with(edge_id) == Some(i as int)
                    &&& self@.groups[i as int].find(edge_id) == Some(row as int)
                    &&& row < self@.groups[i as int].len()
                },
                None => self@.group_with(edge_id) is None,
            },
    {
        let ghost p = self@.group_has(edge_id);
        let mut i: usize = 0;
        while i < self.groups.len()
            invariant
                self.wf(),
                i <= self.groups@.len(),
                p == self@.group_has(edge_id),
                forall|j: int| 0 <= j < i ==> !#[trigger] p(j),
            decreases self.groups@.len() - i,
        {
            assert(self@.groups[i as int] == self.groups@[i as int]@);
            if let Some(row) = self.groups[i].find_edge(edge_id) {
                proof {
                    assert(p(i as int));
                    search::lemma_first_where_is(self@.groups.len(), p, i as int);
                }
                return Some((i, row));
            }
            i = i + 1;
        }
        proof {
            search::lemma_first_where_none(self@.groups.len(), p);
        }
        None
    }

    /// An edge, or `None` where there is none.
    pub fn get_edge(&self, edge_id: EdgeId) -> (r: Result<Option<EdgeRecord>, StorageError>)
        requires
            self.wf(),
        ensures
            match r {
                Ok(Some(rec)) => self@.read(edge_id) == Ok::<Option<RecordView>, ErrorView>(
                    Some(rec@),
                ),
                Ok(None) => self@.read(edge_id) == Ok::<Option<RecordView>, ErrorView>(None),
                Err(e) => self@.read(edge_id) == Err::<Option<RecordView>, ErrorView>(e@),
            },
    {
        match self.locate(edge_id) {
            Some((i, row)) => {
                assert(self@.groups[i as int] == self.groups@[i as int]@);
                self.groups[i].get_row(row)
            },
            None => Ok(None),
        }
    }

    pub fn delete_edge(&mut self, edge_id: EdgeId) -> (r: Result<(), StorageError>)
        requires
            old(self).wf(),
        ensures
            final(self).wf(),
            final(self)@ == old(self)@.delete(edge_id),
            match r {
                Ok(()) => old(self)@.group_with(edge_id) is Some,
                Err(e) => old(self)@.group_with(edge_id) is None && e@ == (
                ErrorView::EdgeNotFound { edge_id }),
            },
    {
        match self.locate(edge_id) {
            Some((i, row)) => {
                assert(self@.groups[i as int] == self.groups@[i as int]@);
                let r = self.groups[i].delete_row(row);
                assert(self@.groups =~= old(self)@.groups.update(
                    i as int,
                    old(self)@.groups[i as int].delete(row),
                ));
                r
            },
            None => Err(StorageError::EdgeNotFound { edge_id }),
        }
    }

    pub fn num_groups(&self) -> (n: usize)
        ensures
            n == self@.groups.len(),
    {
        self.groups.len()
    }

    pub fn num_edges(&self) -> (n: u64)
        requires
            self.wf(),
            self@.num_edges() <= u64::MAX,
        ensures
            n == self@.num_edges(),
    {
        self.checked_num_edges().unwrap()
    }

    /// Like [`EdgeTable::num_edges`]; `None` where the number is too large.
    pub fn checked_num_edges(&self) -> (r: Option<u64>)
        requires
            self.wf(),
        ensures
            match r {
                Some(n) => n == self@.num_edges(),
                None => self@.num_edges() > u64::MAX,
            },
    {
        let mut n: u64 = 0;
        let mut i: usize = 0;
        while i < self.groups.len()
            invariant
                self.wf(),
                i <= self.groups@.len(),
                n == live_rows(self@.groups, i as nat),
            decreases self.groups@.len() - i,
        {
            assert(self@.groups[i as int] == self.groups@[i as int]@);
            proof {
                lemma_live_mono(self@.groups, (i + 1) as nat, self@.groups.len());
            }
            match n.checked_add(self.groups[i].num_live_rows()) {
                Some(sum) => {
                    n = sum;
                },
                None => {
                    return None;
                },
            }
            i = i + 1;
        }
        Some(n)
    }

    /// All edges, group by group and row by row.
    pub fn iter(&self) -> (records: Vec<EdgeRecord>)
        requires
            self.wf(),
        ensures
            edge_records_view(records@) == self@.records(),
    {
        let mut records: Vec<EdgeRecord> = Vec::new();
        let mut i: usize = 0;
        assert(edge_records_view(records@) =~= Seq::empty());
        while i < self.groups.len()
            invariant
                self.wf(),
                i <= self.groups@.len(),
                edge_records_view(records@) == table_records(self@.groups, i as nat),
            decreases self.groups@.len() - i,
        {
            assert(self@.groups[i as int] == self.groups@[i as int]@);
            append_records(&self.groups[i], &mut records);
            i = i + 1;
        }
        records
    }
}

/// Appends the live rows of a group.
fn append_records(group: &EdgeGroup, records: &mut Vec<EdgeRecord>)
    requires
        group.wf(),
    ensures
        edge_records_view(final(records)@) == edge_records_view(old(records)@) + group_records(
            group@,
            group@.len(),
        ),
{
    let ghost start = edge_records_view(records@);
    let num_rows: u64 = group.num_rows();
    let mut row: u64 = 0;
    assert(start + Seq::empty() =~= start);
    while row < num_rows
        invariant
            row <= num_rows,
            num_rows == group@.len(),
            group.wf(),
            edge_records_view(records@) == start + group_records(group@, row as nat),
        decreases num_rows - row,
    {
        let ghost before = records@;
        if let Ok(Some(record)) = group.get_row(row) {
            records.push(record);
            assert(edge_records_view(records@) =~= edge_records_view(before).push(record@));
        }
        assert(edge_records_view(records@) =~= start + group_records(group@, (row + 1) as nat));
        row = row + 1;
    }
}

} // verus!
