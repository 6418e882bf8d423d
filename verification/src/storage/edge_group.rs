//! Groups of edges.

use vstd::prelude::*;

use crate::catalog::{EdgeTypeEntry, PropertyDef, PropertyDefView};
use crate::catalog;
use crate::config::StorageConfig;
use crate::error::{ErrorView, StorageError};
use crate::io::binary;
use crate::io::binary::low_u32;
use crate::search;
use crate::search::{count_false, first_where};
use crate::table::chunked_node_group::Inserted;
use crate::table::column::{ColumnChunk, ColumnView};
use crate::table::edge::RecordView;
use crate::table::row;
use crate::table::row::{
    append_all, columns_view, columns_wf, empty_columns, read_all, row_view, RowView,
};
use crate::types::{ColumnId, DataType, EdgeId, NodeGroupIdx, NodeId, PropertyValue, RowIdx};

verus! {

#[derive(Debug, Clone, PartialEq)]
pub struct EdgeRecord {
    pub edge_id: EdgeId,
    pub from: NodeId,
    pub to: NodeId,
    pub properties: Vec<Option<PropertyValue>>,
}

pub struct EdgeGroup {
    group_idx: NodeGroupIdx,
    num_rows: u64,
    edge_ids: Vec<EdgeId>,
    from_ids: Vec<NodeId>,
    to_ids: Vec<NodeId>,
    columns: Vec<ColumnChunk>,
    delete_mask: Vec<bool>,
}

// ---------------------------------------------------------------------------------------------
// The model

impl View for EdgeRecord {
    type V = RecordView;

    open spec fn view(&self) -> RecordView {
        RecordView {
            edge_id: self.edge_id,
            from: self.from,
            to: self.to,
            properties: row_view(self.properties@),
        }
    }
}

/// What an [`EdgeGroup`] stands for.
#[verifier::ext_equal]
pub struct PlainGroupView {
    pub group_idx: NodeGroupIdx,
    pub edge_ids: Seq<EdgeId>,
    pub from_ids: Seq<NodeId>,
    pub to_ids: Seq<NodeId>,
    pub columns: Seq<ColumnView>,
    pub deleted: Seq<bool>,
}

/// The columns of properties, numbered by their place.
pub open spec fn numbered_columns(properties: Seq<PropertyDefView>) -> Seq<(ColumnId, DataType)> {
    Seq::new(properties.len(), |i: int| (ColumnId(low_u32(i)), properties[i].data_type))
}

impl PlainGroupView {
    /// A group without edges.
    pub open spec fn empty(
        group_idx: NodeGroupIdx,
        properties: Seq<PropertyDefView>,
    ) -> PlainGroupView {
        PlainGroupView {
            group_idx,
            edge_ids: Seq::empty(),
            from_ids: Seq::empty(),
            to_ids: Seq::empty(),
            columns: empty_columns(numbered_columns(properties)),
            deleted: Seq::empty(),
        }
    }

    /// The number of rows, deleted ones included.
    pub open spec fn len(self) -> nat {
        self.edge_ids.len()
    }

    pub open spec fn valid(self) -> bool {
        &&& self.from_ids.len() == self.len()
        &&& self.to_ids.len() == self.len()
        &&& self.deleted.len() == self.len()
        &&& self.len() <= u64::MAX
        &&& forall|i: int| 0 <= i < self.columns.len() ==> (#[trigger] self.columns[i]).valid()
    }

    /// The rows stand in all columns.
    pub open spec fn aligned(self) -> bool {
        forall|i: int|
            0 <= i < self.columns.len() ==> (#[trigger] self.columns[i]).len() == self.len()
    }

    pub open spec fn is_full(self) -> bool {
        self.len() >= StorageConfig::NODE_GROUP_SIZE
    }

    /// What inserting an edge does.
    pub open spec fn insert(
        self,
        edge_id: EdgeId,
        from: NodeId,
        to: NodeId,
        values: RowView,
    ) -> Inserted<PlainGroupView> {
        if self.is_full() {
            Inserted { state: self, result: Err(ErrorView::EdgeGroupFull) }
        } else {
            match append_all(self.columns, values) {
                (columns, Some(e)) => Inserted {
                    state: PlainGroupView { columns, ..self },
                    result: Err(e),
                },
                (columns, None) => Inserted {
                    state: PlainGroupView {
                        edge_ids: self.edge_ids.push(edge_id),
                        from_ids: self.from_ids.push(from),
                        to_ids: self.to_ids.push(to),
                        deleted: self.deleted.push(false),
                        columns,
                        ..self
                    },
                    result: Ok(self.len() as u64),
                },
            }
        }
    }

    /// The error of a row that is not there.
    pub open spec fn no_row(self, row: u64) -> ErrorView {
        ErrorView::RowOutOfBounds { row, len: self.len() as u64 }
    }

    /// What reading a row gives; `None` where it was deleted.
    pub open spec fn read(self, row: u64) -> Result<Option<RecordView>, ErrorView> {
        if row >= self.len() {
            Err(self.no_row(row))
        } else if self.deleted[row as int] {
            Ok(None)
        } else {
            match read_all(self.columns, row) {
                Ok(properties) => Ok(
                    Some(
                        RecordView {
                            edge_id: self.edge_ids[row as int],
                            from: self.from_ids[row as int],
                            to: self.to_ids[row as int],
                            properties,
                        },
                    ),
                ),
                Err(e) => Err(e),
            }
        }
    }

    pub open spec fn holds_edge(self, edge_id: EdgeId) -> spec_fn(int) -> bool {
        |i: int| self.edge_ids[i] == edge_id && !self.deleted[i]
    }

    /// The first live row of an edge.
    pub open spec fn find(self, edge_id: EdgeId) -> Option<int> {
        first_where(self.len(), self.holds_edge(edge_id))
    }

    /// The group with a row marked as deleted.
    pub open spec fn delete(self, row: u64) -> PlainGroupView {
        PlainGroupView { deleted: self.deleted.update(row as int, true), ..self }
    }
}

// ---------------------------------------------------------------------------------------------
// The group

impl View for EdgeGroup {
    type V = PlainGroupView;

    closed spec fn view(&self) -> PlainGroupView {
        PlainGroupView {
            group_idx: self.group_idx,
            edge_ids: self.edge_ids@,
            from_ids: self.from_ids@,
            to_ids: self.to_ids@,
            columns: columns_view(self.columns@),
            deleted: self.delete_mask@,
        }
    }
}

/// The columns of properties, numbered by their place.
fn number_columns(properties: &Vec<PropertyDef>) -> (r: Vec<(ColumnId, DataType)>)
    ensures
        r@ == numbered_columns(catalog::properties_view(properties@)),
{
    let mut r: Vec<(ColumnId, DataType)> = Vec::new();
    let mut i: usize = 0;
    while i < properties.len()
        invariant
            i <= properties@.len(),
            r@.len() == i,
            forall|j: int|
                0 <= j < i ==> #[trigger] r@[j] == (
                    ColumnId(low_u32(j)),
                    properties@[j]@.data_type,
                ),
        decreases properties@.len() - i,
    {
        r.push((ColumnId(binary::to_low_u32(i)), properties[i].data_type));
        i = i + 1;
    }
    assert(r@ =~= numbered_columns(catalog::properties_view(properties@)));
    r
}

impl EdgeGroup {
    pub closed spec fn wf(&self) -> bool {
        &&& self.edge_ids@.len() == self.num_rows
        &&& self.from_ids@.len() == self.num_rows
        &&& self.to_ids@.len() == self.num_rows
        &&& self.delete_mask@.len() == self.num_rows
        &&& columns_wf(self.columns@)
    }

    pub proof fn lemma_wf(&self)
        requires
            self.wf(),
        ensures
            self@.valid(),
    {
        row::lemma_columns_valid(self.columns@);
    }

    pub fn new(group_idx: NodeGroupIdx, schema: &EdgeTypeEntry) -> (g: Self)
        ensures
            g.wf(),
            g@ == PlainGroupView::empty(group_idx, schema@.properties),
    {
        let numbered = number_columns(&schema.properties);
        let columns = row::new_columns(numbered.as_slice());
        let g = EdgeGroup {
            group_idx,
            num_rows: 0,
            edge_ids: Vec::new(),
            from_ids: Vec::new(),
            to_ids: Vec::new(),
            columns,
            delete_mask: Vec::new(),
        };
        assert(g@ =~= PlainGroupView::empty(group_idx, schema@.properties));
        g
    }

    pub fn group_idx(&self) -> (idx: NodeGroupIdx)
        ensures
            idx == self@.group_idx,
    {
        self.group_idx
    }

    pub fn num_rows(&self) -> (n: u64)
        requires
            self.wf(),
        ensures
            n == self@.len(),
    {
        self.num_rows
    }

    /// How many rows are not deleted.
    pub fn num_live_rows(&self) -> (n: u64)
        ensures
            n == count_false(self@.deleted),
    {
        search::count_live(&self.delete_mask)
    }

    pub fn is_full(&self) -> (b: bool)
        requires
            self.wf(),
        ensures
            b == self@.is_full(),
    {
        self.num_rows >= StorageConfig::NODE_GROUP_SIZE
    }

    /// Adds an edge and gives its row. Values stand for the columns by their place; columns without
    /// a value are null. Where a value is refused, the columns before it keep theirs.
    pub fn insert_row(
        &mut self,
        edge_id: EdgeId,
        from: NodeId,
        to: NodeId,
        values: &[Option<PropertyValue>],
    ) -> (r: Result<RowIdx, StorageError>)
        requires
            old(self).wf(),
        ensures
            final(self).wf(),
            ({
                let i = old(self)@.insert(edge_id, from, to, row_view(values@));
                &&& final(self)@ == i.state
                &&& match r {
                    Ok(row) => i.result == Ok::<u64, ErrorView>(row),
                    Err(e) => i.result == Err::<u64, ErrorView>(e@),
                }
            }),
    {
        if self.is_full() {
            return Err(StorageError::EdgeGroupFull);
        }
        match row::append_row(&mut self.columns, values) {
            Ok(()) => {},
            Err(e) => {
                return Err(e);
            },
        }
        self.edge_ids.push(edge_id);
        self.from_ids.push(from);
        self.to_ids.push(to);
        self.delete_mask.push(false);
        let row: u64 = self.num_rows;
        self.num_rows = self.num_rows + 1;
        assert(self@ =~= old(self)@.insert(edge_id, from, to, row_view(values@)).state);
        Ok(row)
    }

    /// Returns `Ok(None)` if soft-deleted.
    pub fn get_row(&self, row: RowIdx) -> (r: Result<Option<EdgeRecord>, StorageError>)
        requires
            self.wf(),
        ensures
            match r {
                Ok(Some(rec)) => self@.read(row) == Ok::<Option<RecordView>, ErrorView>(Some(rec@)),
                Ok(None) => self@.read(row) == Ok::<Option<RecordView>, ErrorView>(None),
                Err(e) => self@.read(row) == Err::<Option<RecordView>, ErrorView>(e@),
            },
    {
        if row >= self.num_rows {
            return Err(StorageError::RowOutOfBounds { row, len: self.num_rows });
        }
        let count: usize = self.delete_mask.len();
        assert(row < count);
        let i: usize = row as usize;
        if self.delete_mask[i] {
            return Ok(None);
        }
        match row::read_row(&self.columns, row) {
            Ok(properties) => Ok(
                Some(
                    EdgeRecord {
                        edge_id: self.edge_ids[i],
                        from: self.from_ids[i],
                        to: self.to_ids[i],
                        properties,
                    },
                ),
            ),
            Err(e) => Err(e),
        }
    }

    /// The first row of the edge that is not deleted.
    pub fn find_edge(&self, edge_id: EdgeId) -> (r: Option<RowIdx>)
        requires
            self.wf(),
        ensures
            match r {
                Some(row) => self@.find(edge_id) == Some(row as int) && row < self@.len(),
                None => self@.find(edge_id) is None,
            },
    {
        let ghost p = self@.holds_edge(edge_id);
        let mut i: usize = 0;
        while i < self.edge_ids.len()
            invariant
                self.wf(),
                i <= self.edge_ids@.len(),
                p == self@.holds_edge(edge_id),
                forall|j: int| 0 <= j < i ==> !#[trigger] p(j),
            decreases self.edge_ids@.len() - i,
        {
            if self.edge_ids[i].0 == edge_id.0 && !self.delete_mask[i] {
                proof {
                    assert(p(i as int));
                    search::lemma_first_where_is(self@.len(), p, i as int);
                }
                return Some(i as u64);
            }
            i = i + 1;
        }
        proof {
            search::lemma_first_where_none(self@.len(), p);
        }
        None
    }

    pub fn edge_id_at(&self, row: RowIdx) -> (r: Result<EdgeId, StorageError>)
        requires
            self.wf(),
        ensures
            match r {
                Ok(id) => row < self@.len() && id == self@.edge_ids[row as int],
                Err(e) => row >= self@.len() && e@ == self@.no_row(row),
            },
    {
        if row >= self.num_rows {
            return Err(StorageError::RowOutOfBounds { row, len: self.num_rows });
        }
        let count: usize = self.edge_ids.len();
        assert(row < count);
        Ok(self.edge_ids[row as usize])
    }

    /// Marks a row as deleted.
    pub fn delete_row(&mut self, row: RowIdx) -> (r: Result<(), StorageError>)
        requires
            old(self).wf(),
        ensures
            final(self).wf(),
            match r {
                Ok(()) => row < old(self)@.len() && final(self)@ == old(self)@.delete(row),
                Err(e) => row >= old(self)@.len() && final(self)@ == old(self)@ && e@ == old(
                    self,
                )@.no_row(row),
            },
    {
        if row >= self.num_rows {
            return Err(StorageError::RowOutOfBounds { row, len: self.num_rows });
        }
        let count: usize = self.delete_mask.len();
        assert(row < count);
        self.delete_mask.set(row as usize, true);
        assert(self@ =~= old(self)@.delete(row));
        Ok(())
    }
}

// ---------------------------------------------------------------------------------------------
// Laws

/// A deleted row reads as nothing and is not found, and every other row is as it was. If it was
/// live there is one live row less.
pub proof fn law_delete_hides(g: PlainGroupView, row: u64, other: u64)
    requires
        g.valid(),
        row < g.len(),
    ensures
        g.delete(row).valid(),
        g.delete(row).read(row) == Ok::<Option<RecordView>, ErrorView>(None),
        g.delete(row).find(g.edge_ids[row as int]) != Some(row as int),
        other != row ==> g.delete(row).read(other) == g.read(other),
        !g.deleted[row as int] ==> count_false(g.delete(row).deleted) == count_false(g.deleted) - 1,
{
    let d = g.delete(row);
    let p = d.holds_edge(g.edge_ids[row as int]);
    search::lemma_first_where(d.len(), p);
    assert(!p(row as int));
    search::lemma_count_false_set(g.deleted, row as int);
}

/// A full group takes no edge and stays as it was.
pub proof fn law_full_group_refuses(
    g: PlainGroupView,
    edge_id: EdgeId,
    from: NodeId,
    to: NodeId,
    values: RowView,
)
    requires
        g.is_full(),
    ensures
        g.insert(edge_id, from, to, values).state == g,
        g.insert(edge_id, from, to, values).result == Err::<u64, ErrorView>(
            ErrorView::EdgeGroupFull,
        ),
{
}

} // verus!
