//! Edge groups with a compressed-sparse-row index.

use vstd::prelude::*;
use vstd::string::StringExecFns;

use crate::catalog::{column_schema, columns_of, EdgeTypeEntry};
use crate::config::StorageConfig;
use crate::error::{ErrorView, StorageError};
use crate::io::binary;
use crate::io::binary::{
    bitmask, holds_at, ints_at, ints_le, low_u32, mask_len, overwrite, u32_at, u32_le, u64_at,
    u64_le, unmasked, words_at, words_le,
};
use crate::io::codec;
use crate::io::codec::{blob_start, concat, many, Decoded, Reading};
use crate::io::page;
use crate::io::page::{join_pages, pages_of, pages_view, split_into_pages, Page};
use crate::ordered_map;
use crate::ordered_map::{lookup, mapped, put, put_all, sorted, OrderedMap};
use crate::search;
use crate::search::{count_false, first_where};
use crate::table::chunked_node_group::{
    id_words, ids_of_words, read_node_ids, read_u32s, write_node_ids, Inserted,
};
use crate::table::column::{ColumnChunk, ColumnView};
use crate::table::column;
use crate::table::edge_list::{read_list, ListView, NodeEdgeList};
use crate::table::edge_list;
use crate::table::row;
use crate::table::row::{
    append_all, column_blobs, column_lens, columns_view, columns_wf, empty_columns, first_mismatch,
    has_schema, parse_columns, read_all, row_view, with_row, RowView,
};
use crate::text::{decimal, push_decimal};
use crate::types::{
    ColumnId, DataType, Direction, EdgeId, NodeGroupIdx, NodeId, NodeOffset, PropertyValue, RowIdx,
};

pub use crate::table::edge_list::NodeEdgeIter;

verus! {

broadcast use binary::group_lengths;

/// Determines the granularity of incremental checkpoint: only dirty
/// leaf regions are re-serialized during flush.
const CSR_LEAF_REGION_SIZE: u64 = 1024;

#[derive(Debug, PartialEq)]
pub struct CSREdgeRecord {
    pub edge_id: EdgeId,
    pub from: NodeId,
    pub to: NodeId,
    pub properties: Vec<Option<PropertyValue>>,
}

/// Each group is scoped to a fixed range of `NODE_GROUP_SIZE` node offsets:
/// group `k` covers `[k * NODE_GROUP_SIZE, (k+1) * NODE_GROUP_SIZE)`.
/// This makes the group responsible for a predictable slice of the CSR key
/// space, as in Kuzu's `NodeGroup`-scoped CSR design.
///
/// Direction determines which node is the reference key:
///   FWD: reference = from (source node offset)
///   BWD: reference = to   (destination node offset)
pub struct CSREdgeGroup {
    group_idx: NodeGroupIdx,
    /// First node offset covered by this group (= `group_idx * NODE_GROUP_SIZE`).
    offset_base: NodeOffset,
    num_rows: u64,
    direction: Direction,
    edge_ids: Vec<EdgeId>,
    from_ids: Vec<NodeId>,
    to_ids: Vec<NodeId>,
    columns: Vec<ColumnChunk>,
    delete_mask: Vec<bool>,
    /// Maps `(ref_offset - offset_base)` to an edge list. Key range `[0, NODE_GROUP_SIZE)`.
    /// O(log n) lookup with sequential optimization for contiguous-insert cases.
    csr_index: OrderedMap<NodeEdgeList>,
    /// Bitmask of dirty leaf regions (1 bit per `CSR_LEAF_REGION_SIZE`-node region);
    /// only dirty regions are re-serialized during incremental flush.
    dirty_regions: u64,
}

// ---------------------------------------------------------------------------------------------
// The model

/// What a [`CSREdgeRecord`] stands for.
#[verifier::ext_equal]
pub struct RecordView {
    pub edge_id: EdgeId,
    pub from: NodeId,
    pub to: NodeId,
    pub properties: RowView,
}

impl View for CSREdgeRecord {
    type V = RecordView;

    open spec fn view(&self) -> RecordView {
        RecordView {
            edge_id: self.edge_id,
            from: self.from,
            to: self.to,
            properties: row_view(self.properties@),
        }
    }
}

/// What a [`CSREdgeGroup`] stands for.
#[verifier::ext_equal]
pub struct EdgeGroupView {
    pub group_idx: NodeGroupIdx,
    pub offset_base: u64,
    pub direction: Direction,
    pub edge_ids: Seq<EdgeId>,
    pub from_ids: Seq<NodeId>,
    pub to_ids: Seq<NodeId>,
    pub columns: Seq<ColumnView>,
    pub deleted: Seq<bool>,
    pub index: Seq<(u64, ListView)>,
    pub dirty: u64,
}

pub open spec fn edge_words(ids: Seq<EdgeId>) -> Seq<u64> {
    Seq::new(ids.len(), |i: int| ids[i].0)
}

pub open spec fn edge_ids_of_words(words: Seq<u64>) -> Seq<EdgeId> {
    Seq::new(words.len(), |i: int| EdgeId(words[i]))
}

/// What a list stands for, as a function.
pub open spec fn list_view() -> spec_fn(NodeEdgeList) -> ListView {
    |list: NodeEdgeList| list@
}

/// The bit of the region of a key.
pub open spec fn region_bit(key: u64) -> u64 {
    1u64 << (key / 1024)
}

/// The list of a key, or an empty one.
pub open spec fn list_of(index: Seq<(u64, ListView)>, key: u64) -> ListView {
    match lookup(index, key) {
        Some(list) => list,
        None => ListView::empty(),
    }
}

impl EdgeGroupView {
    /// A group without edges.
    pub open spec fn empty(
        group_idx: NodeGroupIdx,
        direction: Direction,
        schema: Seq<(ColumnId, DataType)>,
    ) -> EdgeGroupView {
        EdgeGroupView {
            group_idx,
            offset_base: (group_idx.0 * 65536) as u64,
            direction,
            edge_ids: Seq::empty(),
            from_ids: Seq::empty(),
            to_ids: Seq::empty(),
            columns: empty_columns(schema),
            deleted: Seq::empty(),
            index: Seq::empty(),
            dirty: 0,
        }
    }

    /// The number of rows, deleted ones included.
    pub open spec fn len(self) -> nat {
        self.edge_ids.len()
    }

    pub open spec fn valid(self) -> bool {
        &&& self.from_ids.len() == self.len()
        &&& self.to_ids.len() == self.len()
        &&& self.deleted.len() == self.len()
        &&& self.len() <= u64::MAX
        &&& sorted(self.index)
        &&& forall|i: int| 0 <= i < self.columns.len() ==> (#[trigger] self.columns[i]).valid()
    }

    /// The range of offsets ends below the largest number, and the index has keys of that range
    /// with ascending rows of the group.
    pub open spec fn sound(self) -> bool {
        &&& self.offset_base + 65536 <= u64::MAX
        &&& forall|i: int|
            0 <= i < self.index.len() ==> (#[trigger] self.index[i]).0 < 65536
                && self.index[i].1.sound(self.len())
    }

    pub open spec fn is_full(self) -> bool {
        self.len() >= StorageConfig::NODE_GROUP_SIZE
    }

    /// The key of an offset; `None` if it falls outside this group's range.
    pub open spec fn local_key(self, offset: u64) -> Option<u64> {
        if self.offset_base <= offset < self.offset_base + 65536 {
            Some((offset - self.offset_base) as u64)
        } else {
            None
        }
    }

    /// The error of an offset outside this group's range.
    pub open spec fn out_of_range(self, offset: u64) -> ErrorView {
        ErrorView::SerDe(
            "offset "@ + decimal(offset as nat) + " outside group "@ + decimal(
                self.group_idx.0 as nat,
            ) + " range ["@ + decimal(self.offset_base as nat) + ", "@ + decimal(
                (self.offset_base + 65536) as nat,
            ) + ")"@,
        )
    }

    /// The group with one more row, in the list of a key.
    pub open spec fn with_edge(
        self,
        key: u64,
        edge_id: EdgeId,
        from: NodeId,
        to: NodeId,
        columns: Seq<ColumnView>,
    ) -> EdgeGroupView {
        EdgeGroupView {
            edge_ids: self.edge_ids.push(edge_id),
            from_ids: self.from_ids.push(from),
            to_ids: self.to_ids.push(to),
            deleted: self.deleted.push(false),
            columns,
            index: put(self.index, key, list_of(self.index, key).push(self.len() as u64)),
            dirty: self.dirty | region_bit(key),
            ..self
        }
    }

    /// What inserting an edge at an offset does.
    pub open spec fn insert(
        self,
        offset: u64,
        edge_id: EdgeId,
        from: NodeId,
        to: NodeId,
        values: RowView,
    ) -> Inserted<EdgeGroupView> {
        if self.is_full() {
            Inserted { state: self, result: Err(ErrorView::CsrEdgeGroupFull) }
        } else {
            match self.local_key(offset) {
                None => Inserted { state: self, result: Err(self.out_of_range(offset)) },
                Some(key) => match append_all(self.columns, values) {
                    (columns, Some(e)) => Inserted {
                        state: EdgeGroupView { columns, ..self },
                        result: Err(e),
                    },
                    (columns, None) => Inserted {
                        state: self.with_edge(key, edge_id, from, to, columns),
                        result: Ok(self.len() as u64),
                    },
                },
            }
        }
    }

    /// The rows of the edges at an offset.
    pub open spec fn found(self, offset: u64) -> Seq<u64> {
        match self.local_key(offset) {
            Some(key) => list_of(self.index, key).rows(),
            None => Seq::empty(),
        }
    }

    /// What reading a row gives; `None` where it was deleted.
    pub open spec fn read(self, row: u64) -> Result<Option<RecordView>, ErrorView> {
        if row >= self.len() {
            Err(ErrorView::RowOutOfBounds { row, len: self.len() as u64 })
        } else if self.deleted[row as int] {
            Ok(None)
        } else {
            match read_all(self.columns, row) {
                Ok(properties) => Ok(
                    Some(
                        RecordView {
                            edge_id: self.edge_ids[row as int],
                            from: self.from_ids[row as int],
                            to: self.to_ids[row as int],
                            properties,
                        },
                    ),
                ),
                Err(e) => Err(e),
            }
        }
    }

    pub open spec fn holds_edge(self, edge_id: EdgeId) -> spec_fn(int) -> bool {
        |i: int| self.edge_ids[i] == edge_id && !self.deleted[i]
    }

    /// The first live row of an edge.
    pub open spec fn find(self, edge_id: EdgeId) -> Option<int> {
        first_where(self.len(), self.holds_edge(edge_id))
    }

    pub open spec fn lists_row(self, row: u64) -> spec_fn(int) -> bool {
        |i: int| self.index[i].1.rows().contains(row)
    }

    /// The place in the index of the first list that has a row.
    pub open spec fn list_with(self, row: u64) -> Option<int> {
        first_where(self.index.len(), self.lists_row(row))
    }

    /// The group with a row marked as deleted and taken out of the index. A list that has no row
    /// left goes too.
    pub open spec fn delete(self, row: u64) -> EdgeGroupView {
        let deleted = self.deleted.update(row as int, true);
        match self.list_with(row) {
            Some(i) => {
                let key = self.index[i].0;
                let list = self.index[i].1.without(row);
                EdgeGroupView {
                    deleted,
                    index: if list.rows().len() == 0 {
                        self.index.remove(i)
                    } else {
                        self.index.update(i, (key, list))
                    },
                    dirty: self.dirty | region_bit(key),
                    ..self
                }
            },
            None => EdgeGroupView { deleted, ..self },
        }
    }
}

// ---------------------------------------------------------------------------------------------
// The group

impl Clone for CSREdgeRecord {
    fn clone(&self) -> (r: Self)
        ensures
            r@ == self@,
    {
        let mut properties: Vec<Option<PropertyValue>> = Vec::new();
        let mut i: usize = 0;
        while i < self.properties.len()
            invariant
                i <= self.properties@.len(),
                properties@.len() == i,
                forall|j: int|
                    0 <= j < i ==> row::opt_view(#[trigger] properties@[j]) == row::opt_view(
                        self.properties@[j],
                    ),
            decreases self.properties@.len() - i,
        {
            match &self.properties[i] {
                Some(v) => properties.push(Some(v.clone())),
                None => properties.push(None),
            }
            i = i + 1;
        }
        assert(row_view(properties@) =~= row_view(self.properties@));
        CSREdgeRecord { edge_id: self.edge_id, from: self.from, to: self.to, properties }
    }
}

impl View for CSREdgeGroup {
    type V = EdgeGroupView;

    closed spec fn view(&self) -> EdgeGroupView {
        EdgeGroupView {
            group_idx: self.group_idx,
            offset_base: self.offset_base,
            direction: self.direction,
            edge_ids: self.edge_ids@,
            from_ids: self.from_ids@,
            to_ids: self.to_ids@,
            columns: columns_view(self.columns@),
            deleted: self.delete_mask@,
            index: mapped(self.csr_index@, list_view()),
            dirty: self.dirty_regions,
        }
    }
}

impl CSREdgeGroup {
    pub closed spec fn wf(&self) -> bool {
        &&& self.edge_ids@.len() == self.num_rows
        &&& self.from_ids@.len() == self.num_rows
        &&& self.to_ids@.len() == self.num_rows
        &&& self.delete_mask@.len() == self.num_rows
        &&& columns_wf(self.columns@)
        &&& self.csr_index.wf()
    }

    pub proof fn lemma_wf(&self)
        requires
            self.wf(),
        ensures
            self@.valid(),
    {
        row::lemma_columns_valid(self.columns@);
        self.csr_index.lemma_wf();
        ordered_map::lemma_mapped_sorted(self.csr_index@, list_view());
    }

    pub fn new(group_idx: NodeGroupIdx, direction: Direction, schema: &EdgeTypeEntry) -> (g: Self)
        requires
            group_idx.0 * 65536 <= u64::MAX,
        ensures
            g.wf(),
            g@ == EdgeGroupView::empty(group_idx, direction, columns_of(schema@.properties)),
    {
        let columns_schema = column_schema(&schema.properties);
        let columns = row::new_columns(columns_schema.as_slice());
        let g = CSREdgeGroup {
            group_idx,
            offset_base: group_idx.0 * StorageConfig::NODE_GROUP_SIZE,
            num_rows: 0,
            direction,
            edge_ids: Vec::new(),
            from_ids: Vec::new(),
            to_ids: Vec::new(),
            columns,
            delete_mask: Vec::new(),
            csr_index: OrderedMap::new(),
            dirty_regions: 0,
        };
        assert(g@ =~= EdgeGroupView::empty(group_idx, direction, columns_of(schema@.properties)));
        g
    }

    #[must_use]
    pub fn group_idx(&self) -> (idx: NodeGroupIdx)
        ensures
            idx == self@.group_idx,
    {
        self.group_idx
    }

    #[must_use]
    pub fn offset_base(&self) -> (base: NodeOffset)
        ensures
            base == self@.offset_base,
    {
        self.offset_base
    }

    #[must_use]
    pub fn num_rows(&self) -> (n: u64)
        requires
            self.wf(),
        ensures
            n == self@.len(),
    {
        self.num_rows
    }

    /// How many rows are not deleted.
    #[must_use]
    pub fn num_live_rows(&self) -> (n: u64)
        ensures
            n == count_false(self@.deleted),
    {
        search::count_live(&self.delete_mask)
    }

    #[must_use]
    pub fn is_full(&self) -> (b: bool)
        requires
            self.wf(),
        ensures
            b == self@.is_full(),
    {
        self.num_rows >= StorageConfig::NODE_GROUP_SIZE
    }

    /// Whether the range and the index are such that edges can be inserted, found and deleted.
    pub fn is_sound(&self) -> (b: bool)
        requires
            self.wf(),
        ensures
            b == self@.sound(),
    {
        if self.offset_base > u64::MAX - StorageConfig::NODE_GROUP_SIZE {
            return false;
        }
        let mut i: usize = 0;
        while i < self.csr_index.len()
            invariant
                self.wf(),
                self@.offset_base + 65536 <= u64::MAX,
                i <= self.csr_index@.len(),
                forall|j: int|
                    0 <= j < i ==> (#[trigger] self@.index[j]).0 < 65536 && self@.index[j].1.sound(
                        self@.len(),
                    ),
            decreases self.csr_index@.len() - i,
        {
            assert(self@.index[i as int] == (
                self.csr_index@[i as int].0,
                self.csr_index@[i as int].1@,
            ));
            if self.csr_index.key_at(i) >= StorageConfig::NODE_GROUP_SIZE {
                return false;
            }
            if !self.csr_index.value_at(i).is_sound(self.num_rows) {
                return false;
            }
            i = i + 1;
        }
        true
    }

    /// Returns `None` if `ref_offset` falls outside this group's range.
    fn local_key(&self, ref_offset: NodeOffset) -> (key: Option<u64>)
        requires
            self@.sound(),
        ensures
            key == self@.local_key(ref_offset),
    {
        let end: u64 = self.offset_base + StorageConfig::NODE_GROUP_SIZE;
        if ref_offset >= self.offset_base && ref_offset < end {
            Some(ref_offset - self.offset_base)
        } else {
            None
        }
    }

    fn mark_region_dirty(&mut self, local_key: u64)
        requires
            local_key < 65536,
        ensures
            *final(self) == (CSREdgeGroup {
                dirty_regions: old(self).dirty_regions | region_bit(local_key),
                ..*old(self)
            }),
    {
        let region: u64 = local_key / CSR_LEAF_REGION_SIZE;
        self.dirty_regions = self.dirty_regions | (1u64 << region);
    }

    fn range_error(&self, ref_offset: NodeOffset) -> (e: StorageError)
        requires
            self@.sound(),
        ensures
            e@ == self@.out_of_range(ref_offset),
    {
        let mut msg = String::new();
        msg.append("offset ");
        push_decimal(&mut msg, ref_offset as u128);
        msg.append(" outside group ");
        push_decimal(&mut msg, self.group_idx.0 as u128);
        msg.append(" range [");
        push_decimal(&mut msg, self.offset_base as u128);
        msg.append(", ");
        push_decimal(&mut msg, (self.offset_base + StorageConfig::NODE_GROUP_SIZE) as u128);
        msg.append(")");
        let e = StorageError::SerDe(msg);
        assert(msg@ =~= "offset "@ + decimal(ref_offset as nat) + " outside group "@ + decimal(
            self.group_idx.0 as nat,
        ) + " range ["@ + decimal(self.offset_base as nat) + ", "@ + decimal(
            (self.offset_base + 65536) as nat,
        ) + ")"@);
        e
    }

    /// `ref_offset` is the CSR key:
    ///  - FWD: `source_node_offset` (`source_group_idx * NODE_GROUP_SIZE + source_row`)
    ///  - BWD: `dest_node_offset`
    ///
    /// `values` must match the schema's property list positionally.
    pub fn insert_edge(
        &mut self,
        ref_offset: NodeOffset,
        edge_id: EdgeId,
        from: NodeId,
        to: NodeId,
        values: &[Option<PropertyValue>],
    ) -> (r: Result<RowIdx, StorageError>)
        requires
            old(self).wf(),
            old(self)@.sound(),
        ensures
            final(self).wf(),
            ({
                let i = old(self)@.insert(ref_offset, edge_id, from, to, row_view(values@));
                &&& final(self)@ == i.state
                &&& match r {
                    Ok(row) => i.result == Ok::<u64, ErrorView>(row),
                    Err(e) => i.result == Err::<u64, ErrorView>(e@),
                }
            }),
    {
        if self.is_full() {
            return Err(StorageError::CsrEdgeGroupFull);
        }
        let local: u64 = match self.local_key(ref_offset) {
            Some(key) => key,
            None => {
                return Err(self.range_error(ref_offset));
            },
        };
        match row::append_row(&mut self.columns, values) {
            Ok(()) => {},
            Err(e) => {
                return Err(e);
            },
        }
        self.edge_ids.push(edge_id);
        self.from_ids.push(from);
        self.to_ids.push(to);
        self.delete_mask.push(false);
        let row: u64 = self.num_rows;
        self.num_rows = self.num_rows + 1;
        self.push_to_index(local, row);
        self.mark_region_dirty(local);
        assert(self@ =~= old(self)@.with_edge(
            local,
            edge_id,
            from,
            to,
            append_all(old(self)@.columns, row_view(values@)).0,
        ));
        Ok(row)
    }

    /// Appends a row to the list of a key.
    fn push_to_index(&mut self, local: u64, row: u64)
        requires
            old(self).csr_index.wf(),
            row <= 65536,
            forall|i: int|
                0 <= i < old(self)@.index.len() ==> (#[trigger] old(self)@.index[i]).1.sound(
                    row as nat,
                ),
        ensures
            *final(self) == (CSREdgeGroup { csr_index: final(self).csr_index, ..*old(self) }),
            final(self).csr_index.wf(),
            final(self)@.index == put(
                old(self)@.index,
                local,
                list_of(old(self)@.index, local).push(row),
            ),
    {
        let ghost f = list_view();
        let ghost s = self.csr_index@;
        proof {
            self.csr_index.lemma_wf();
            ordered_map::lemma_mapped_rank(s, f, local);
        }
        match self.csr_index.find(local) {
            Some(i) => {
                assert(self@.index[i as int] == (s[i as int].0, s[i as int].1@));
                proof {
                    edge_list::lemma_sound_rows(s[i as int].1@, row as nat);
                    search::lemma_ascending_len(s[i as int].1@.rows(), row as nat);
                }
                self.csr_index.value_at_mut(i).push(row);
                proof {
                    ordered_map::lemma_mapped_update(s, f, i as int, self.csr_index@[i as int].1);
                }
            },
            None => {
                let mut list = NodeEdgeList::empty();
                list.push(row);
                self.csr_index.insert(local, list);
                proof {
                    ordered_map::lemma_mapped_put(s, f, local, list);
                }
            },
        }
    }

    /// Returns an empty iterator if the node has no edges in this group.
    pub fn find_edges(&self, ref_offset: NodeOffset) -> (it: NodeEdgeIter<'_>)
        requires
            self.wf(),
            self@.sound(),
        ensures
            it.remaining() == self@.found(ref_offset),
    {
        match self.local_key(ref_offset) {
            Some(key) => {
                proof {
                    self.csr_index.lemma_wf();
                    ordered_map::lemma_mapped_rank(self.csr_index@, list_view(), key);
                }
                match self.csr_index.find(key) {
                    Some(i) => {
                        let list = self.csr_index.value_at(i);
                        assert(self@.index[i as int] == (key, list@));
                        proof {
                            edge_list::lemma_sound_rows(list@, self@.len());
                        }
                        NodeEdgeIter::from_list(list)
                    },
                    None => {
                        assert(ListView::empty().rows() =~= Seq::empty());
                        NodeEdgeIter::Empty
                    },
                }
            },
            None => NodeEdgeIter::Empty,
        }
    }

    /// Returns `Ok(None)` if soft-deleted.
    pub fn get_row(&self, row: RowIdx) -> (r: Result<Option<CSREdgeRecord>, StorageError>)
        requires
            self.wf(),
        ensures
            match r {
                Ok(Some(rec)) => self@.read(row) == Ok::<Option<RecordView>, ErrorView>(Some(rec@)),
                Ok(None) => self@.read(row) == Ok::<Option<RecordView>, ErrorView>(None),
                Err(e) => self@.read(row) == Err::<Option<RecordView>, ErrorView>(e@),
            },
    {
        if row >= self.num_rows {
            return Err(StorageError::RowOutOfBounds { row, len: self.num_rows });
        }
        let count: usize = self.delete_mask.len();
        assert(row < count);
        let i: usize = row as usize;
        if self.delete_mask[i] {
            return Ok(None);
        }
        match row::read_row(&self.columns, row) {
            Ok(properties) => Ok(
                Some(
                    CSREdgeRecord {
                        edge_id: self.edge_ids[i],
                        from: self.from_ids[i],
                        to: self.to_ids[i],
                        properties,
                    },
                ),
            ),
            Err(e) => Err(e),
        }
    }

    /// The first row of the edge that is not deleted.
    #[must_use]
    pub fn find_edge(&self, edge_id: EdgeId) -> (r: Option<RowIdx>)
        requires
            self.wf(),
        ensures
            match r {
                Some(row) => self@.find(edge_id) == Some(row as int),
                None => self@.find(edge_id) is None,
            },
    {
        let ghost p = self@.holds_edge(edge_id);
        let mut i: usize = 0;
        while i < self.edge_ids.len()
            invariant
                self.wf(),
                i <= self.edge_ids@.len(),
                p == self@.holds_edge(edge_id),
                forall|j: int| 0 <= j < i ==> !#[trigger] p(j),
            decreases self.edge_ids@.len() - i,
        {
            if self.edge_ids[i].0 == edge_id.0 && !self.delete_mask[i] {
                proof {
                    assert(p(i as int));
                    search::lemma_first_where_is(self@.len(), p, i as int);
                }
                return Some(i as u64);
            }
            i = i + 1;
        }
        proof {
            search::lemma_first_where_none(self@.len(), p);
        }
        None
    }

    /// Marks a row as deleted and takes it out of the index.
    pub fn delete_row(&mut self, row: RowIdx) -> (r: Result<(), StorageError>)
        requires
            old(self).wf(),
            old(self)@.sound(),
        ensures
            final(self).wf(),
            match r {
                Ok(()) => row < old(self)@.len() && final(self)@ == old(self)@.delete(row),
                Err(e) => {
                    &&& row >= old(self)@.len()
                    &&& final(self)@ == old(self)@
                    &&& e@ == (ErrorView::RowOutOfBounds { row, len: old(self)@.len() as u64 })
                },
            },
    {
        if row >= self.num_rows {
            return Err(StorageError::RowOutOfBounds { row, len: self.num_rows });
        }
        let count: usize = self.delete_mask.len();
        assert(row < count);
        self.delete_mask.set(row as usize, true);
        assert(self@.index == old(self)@.index);
        assert(self@.lists_row(row) =~= old(self)@.lists_row(row));
        match self.list_with(row) {
            Some(i) => {
                let ghost s = self.csr_index@;
                let ghost f = list_view();
                let key: u64 = self.csr_index.key_at(i);
                assert(old(self)@.index[i as int] == (key, s[i as int].1@));
                proof {
                    edge_list::lemma_sound_rows(s[i as int].1@, old(self)@.len());
                    search::lemma_first_where(
                        old(self)@.index.len(),
                        old(self)@.lists_row(row),
                    );
                }
                self.csr_index.value_at_mut(i).remove(row);
                proof {
                    ordered_map::lemma_mapped_update(s, f, i as int, self.csr_index@[i as int].1);
                    self.csr_index.lemma_wf();
                    ordered_map::lemma_rank_at(self.csr_index@, i as int);
                }
                if self.csr_index.value_at(i).is_empty() {
                    self.csr_index.remove(key);
                    assert(mapped(self.csr_index@, f) =~= mapped(s, f).remove(i as int));
                }
                self.mark_region_dirty(key);
            },
            None => {},
        }
        assert(self@ =~= old(self)@.delete(row));
        Ok(())
    }

    /// The place in the index of the first list that has a row.
    fn list_with(&self, row: RowIdx) -> (r: Option<usize>)
        requires
            self.csr_index.wf(),
            self@.sound(),
            self@.len() <= u64::MAX,
        ensures
            match r {
                Some(i) => self@.list_with(row) == Some(i as int) && i < self.csr_index@.len(),
                None => self@.list_with(row) is None,
            },
    {
        let ghost p = self@.lists_row(row);
        let mut i: usize = 0;
        while i < self.csr_index.len()
            invariant
                self.csr_index.wf(),
                self@.sound(),
                self@.len() <= u64::MAX,
                i <= self.csr_index@.len(),
                p == self@.lists_row(row),
                forall|j: int| 0 <= j < i ==> !#[trigger] p(j),
            decreases self.csr_index@.len() - i,
        {
            let list = self.csr_index.value_at(i);
            assert(self@.index[i as int] == (self.csr_index@[i as int].0, list@));
            proof {
                edge_list::lemma_sound_rows(list@, self@.len());
            }
            assert(p(i as int) == list@.rows().contains(row));
            if list.contains(row) {
                proof {
                    search::lemma_first_where_is(self@.index.len(), p, i as int);
                }
                return Some(i);
            }
            i = i + 1;
        }
        proof {
            search::lemma_first_where_none(self@.index.len(), p);
        }
        None
    }

    #[must_use]
    pub fn dirty_regions(&self) -> (mask: u64)
        ensures
            mask == self@.dirty,
    {
        self.dirty_regions
    }

    pub fn clear_dirty_regions(&mut self)
        ensures
            final(self)@ == (EdgeGroupView { dirty: 0, ..old(self)@ }),
            old(self).wf() ==> final(self).wf(),
    {
        self.dirty_regions = 0;
    }

    /// Like `clear_dirty_regions` but only clears the regions that were actually flushed.
    pub fn clear_dirty_regions_mask(&mut self, mask: u64)
        ensures
            final(self)@ == (EdgeGroupView { dirty: old(self)@.dirty & !mask, ..old(self)@ }),
            old(self).wf() ==> final(self).wf(),
    {
        self.dirty_regions = self.dirty_regions & !mask;
    }
}

// ---------------------------------------------------------------------------------------------
// The group on disk

pub open spec fn entry_encoding(entry: (u64, ListView)) -> Seq<u8> {
    u64_le(entry.0) + entry.1.encoding()
}

pub open spec fn entry_blobs(index: Seq<(u64, ListView)>) -> Seq<Seq<u8>> {
    Seq::new(index.len(), |i: int| entry_encoding(index[i]))
}

pub open spec fn read_entry(buf: Seq<u8>, pos: int) -> Reading<(u64, ListView)> {
    if pos + 8 <= buf.len() {
        match read_list(buf, pos + 8) {
            Some((list, end)) => Some(((u64_at(buf, pos), list), end)),
            None => None,
        }
    } else {
        None
    }
}

pub open spec fn entry_reader(buf: Seq<u8>) -> spec_fn(int) -> Reading<(u64, ListView)> {
    |pos: int| read_entry(buf, pos)
}

impl EdgeGroupView {
    /// Index, first offset and the counts of the group.
    pub open spec fn counts(self) -> Seq<u8> {
        u64_le(self.group_idx.0) + u64_le(self.offset_base) + u64_le(self.len() as u64) + u32_le(
            low_u32(count_false(self.deleted) as int),
        ) + u32_le(low_u32(self.columns.len() as int)) + u32_le(low_u32(self.index.len() as int))
    }

    /// The length of each column, and the parts of a row that every edge has.
    #[verifier::opaque]
    pub open spec fn head(self) -> Seq<u8> {
        self.counts() + ints_le(column_lens(self.columns)) + words_le(edge_words(self.edge_ids))
            + words_le(id_words(self.from_ids)) + words_le(id_words(self.to_ids)) + bitmask(
            self.deleted,
        )
    }

    /// The group on disk: index, first offset, number of rows, live rows, columns and index
    /// entries, length of each column, edge ids, source ids, destination ids, bit-packed delete
    /// mask, index entries, columns.
    pub open spec fn encoding(self) -> Seq<u8> {
        self.head() + concat(entry_blobs(self.index)) + concat(column_blobs(self.columns))
    }

    /// The group that a block holds. The index in the block is not used.
    #[verifier::opaque]
    pub open spec fn parse(
        direction: Direction,
        schema: Seq<(ColumnId, DataType)>,
        group_idx: NodeGroupIdx,
        buf: Seq<u8>,
    ) -> Decoded<EdgeGroupView> {
        if buf.len() < 36 {
            None
        } else {
            let rows = u64_at(buf, 16) as nat;
            let num_columns = u32_at(buf, 28) as nat;
            let edges_at = 36 + 4 * num_columns as int;
            let from_at = edges_at + 8 * rows;
            let to_at = from_at + 8 * rows;
            let mask_at = to_at + 8 * rows;
            let index_at = mask_at + mask_len(rows);
            if index_at > buf.len() {
                None
            } else {
                match many(u32_at(buf, 32) as nat, entry_reader(buf), index_at) {
                    Some((entries, columns_at)) => match parse_columns(
                        schema,
                        buf,
                        columns_at,
                        ints_at(buf, 36, num_columns),
                    ) {
                        Some(Ok(columns)) => Some(
                            Ok(
                                EdgeGroupView {
                                    group_idx,
                                    offset_base: u64_at(buf, 8),
                                    direction,
                                    edge_ids: edge_ids_of_words(words_at(buf, edges_at, rows)),
                                    from_ids: ids_of_words(words_at(buf, from_at, rows)),
                                    to_ids: ids_of_words(words_at(buf, to_at, rows)),
                                    columns,
                                    deleted: unmasked(buf.subrange(mask_at, index_at), rows),
                                    index: put_all(entries, entries.len()),
                                    dirty: 0,
                                },
                            ),
                        ),
                        Some(Err(e)) => Some(Err(e)),
                        None => None,
                    },
                    None => None,
                }
            }
        }
    }
}

proof fn lemma_head_len(g: EdgeGroupView)
    requires
        g.valid(),
    ensures
        g.counts().len() == 36,
        g.head().len() == 36 + 4 * g.columns.len() + 24 * g.len() + mask_len(g.len()),
{
    reveal(EdgeGroupView::head);
}

impl CSREdgeGroup {
    /// The size of the group on disk; `None` where it is too large.
    fn compute_serialized_size(&self) -> (r: Option<usize>)
        requires
            self.wf(),
        ensures
            match r {
                Some(n) => n == self@.encoding().len(),
                None => self@.encoding().len() > usize::MAX,
            },
    {
        proof {
            self.lemma_wf();
            lemma_head_len(self@);
        }
        let rows: usize = self.edge_ids.len();
        let head: u128 = 36 + 4 * self.columns.len() as u128 + 24 * rows as u128
            + binary::bitmask_len(rows) as u128;
        assert(head == self@.head().len());
        if head > usize::MAX as u128 {
            return None;
        }
        match self.add_entry_lens(head as usize) {
            Some(n) => row::add_columns_len(&self.columns, n),
            None => None,
        }
    }

    /// `start` and the lengths of the index entries.
    fn add_entry_lens(&self, start: usize) -> (r: Option<usize>)
        requires
            self.csr_index.wf(),
        ensures
            match r {
                Some(n) => n == start + concat(entry_blobs(self@.index)).len(),
                None => start + concat(entry_blobs(self@.index)).len() > usize::MAX,
            },
    {
        let ghost blobs = entry_blobs(self@.index);
        let mut total: usize = start;
        let mut i: usize = 0;
        assert(blobs.take(0) =~= Seq::empty());
        while i < self.csr_index.len()
            invariant
                self.csr_index.wf(),
                i <= self.csr_index@.len(),
                blobs == entry_blobs(self@.index),
                total == start + blob_start(blobs, i as int),
            decreases self.csr_index@.len() - i,
        {
            let list = self.csr_index.value_at(i);
            assert(self@.index[i as int] == (self.csr_index@[i as int].0, list@));
            proof {
                codec::lemma_concat_take(blobs, i as int);
                codec::lemma_blob_start_mono(blobs, i + 1, blobs.len() as int);
                assert(blobs[i as int].len() == 8 + list@.encoding().len());
            }
            match list.checked_len() {
                Some(len) => {
                    if len > usize::MAX - 8 || len + 8 > usize::MAX - total {
                        return None;
                    }
                    total = total + (len + 8);
                },
                None => {
                    return None;
                },
            }
            i = i + 1;
        }
        assert(blobs.take(blobs.len() as int) =~= blobs);
        Some(total)
    }

    /// The group on pages.
    pub fn serialize_to_pages(&self) -> (r: Result<Vec<Page>, StorageError>)
        requires
            self.wf(),
            self@.encoding().len() <= usize::MAX,
        ensures
            r matches Ok(pages) && pages_view(pages@) == pages_of(self@.encoding()),
    {
        Ok(self.try_serialize_to_pages().unwrap())
    }

    /// Like [`CSREdgeGroup::serialize_to_pages`]; `None` where the group is too large for memory.
    pub fn try_serialize_to_pages(&self) -> (r: Option<Vec<Page>>)
        requires
            self.wf(),
        ensures
            match r {
                Some(pages) => pages_view(pages@) == pages_of(self@.encoding())
                    && self@.encoding().len() <= usize::MAX,
                None => self@.encoding().len() > usize::MAX,
            },
    {
        match self.compute_serialized_size() {
            Some(total) => {
                let mut buf: Vec<u8> = vec![0u8; total];
                let ghost b0 = buf@;
                let ghost head = self@.head();
                let ghost entries = concat(entry_blobs(self@.index));
                let ghost columns = concat(column_blobs(self@.columns));
                assert(total == head.len() + entries.len() + columns.len());
                let mut pos: usize = 0;
                self.write_head(&mut buf, &mut pos);
                self.write_index(&mut buf, &mut pos);
                proof {
                    binary::lemma_overwrite_append(b0, 0, head, entries);
                }
                row::write_columns(&self.columns, &mut buf, &mut pos);
                proof {
                    binary::lemma_overwrite_append(b0, 0, head + entries, columns);
                    binary::lemma_overwrite_all(b0, self@.encoding());
                }
                Some(split_into_pages(buf.as_slice()))
            },
            None => None,
        }
    }

    fn write_counts(&self, buf: &mut [u8], pos: &mut usize)
        requires
            self.wf(),
            *old(pos) + 36 <= old(buf)@.len(),
        ensures
            final(buf)@ == overwrite(old(buf)@, *old(pos) as int, self@.counts()),
            final(buf)@.len() == old(buf)@.len(),
            *final(pos) == *old(pos) + 36,
    {
        let ghost b0 = buf@;
        let ghost start = *pos as int;
        let ghost live = u32_le(low_u32(count_false(self@.deleted) as int));
        let ghost num_columns = u32_le(low_u32(self@.columns.len() as int));
        let ghost num_entries = u32_le(low_u32(self@.index.len() as int));
        let ghost e1 = u64_le(self@.group_idx.0);
        let ghost e2 = e1 + u64_le(self@.offset_base);
        let ghost e3 = e2 + u64_le(self@.len() as u64);
        let ghost e4 = e3 + live;
        let ghost e5 = e4 + num_columns;
        assert(self@.counts() == e5 + num_entries);
        binary::write_u64(buf, pos, self.group_idx.0);
        binary::write_u64(buf, pos, self.offset_base);
        proof {
            binary::lemma_overwrite_append(b0, start, e1, u64_le(self@.offset_base));
        }
        binary::write_u64(buf, pos, self.num_rows);
        proof {
            binary::lemma_overwrite_append(b0, start, e2, u64_le(self@.len() as u64));
        }
        binary::write_u32(buf, pos, (self.num_live_rows() % 0x1_0000_0000) as u32);
        proof {
            binary::lemma_overwrite_append(b0, start, e3, live);
        }
        binary::write_u32(buf, pos, binary::to_low_u32(self.columns.len()));
        proof {
            binary::lemma_overwrite_append(b0, start, e4, num_columns);
        }
        binary::write_u32(buf, pos, binary::to_low_u32(self.csr_index.len()));
        proof {
            binary::lemma_overwrite_append(b0, start, e5, num_entries);
        }
    }

    fn write_head(&self, buf: &mut [u8], pos: &mut usize)
        requires
            self.wf(),
            *old(pos) + self@.head().len() <= old(buf)@.len(),
            concat(column_blobs(self@.columns)).len() <= usize::MAX,
        ensures
            final(buf)@ == overwrite(old(buf)@, *old(pos) as int, self@.head()),
            final(buf)@.len() == old(buf)@.len(),
            *final(pos) == *old(pos) + self@.head().len(),
    {
        proof {
            self.lemma_wf();
            lemma_head_len(self@);
        }
        let ghost b0 = buf@;
        let ghost start = *pos as int;
        let ghost lens = ints_le(column_lens(self@.columns));
        let ghost edges = words_le(edge_words(self@.edge_ids));
        let ghost froms = words_le(id_words(self@.from_ids));
        let ghost tos = words_le(id_words(self@.to_ids));
        let ghost e1 = self@.counts();
        let ghost e2 = e1 + lens;
        let ghost e3 = e2 + edges;
        let ghost e4 = e3 + froms;
        let ghost e5 = e4 + tos;
        proof {
            reveal(EdgeGroupView::head);
            assert(self@.head() == e5 + bitmask(self@.deleted));
        }
        self.write_counts(buf, pos);
        row::write_column_lens(&self.columns, buf, pos);
        proof {
            binary::lemma_overwrite_append(b0, start, e1, lens);
        }
        write_edge_ids(&self.edge_ids, buf, pos);
        proof {
            binary::lemma_overwrite_append(b0, start, e2, edges);
        }
        write_node_ids(&self.from_ids, buf, pos);
        proof {
            binary::lemma_overwrite_append(b0, start, e3, froms);
        }
        write_node_ids(&self.to_ids, buf, pos);
        proof {
            binary::lemma_overwrite_append(b0, start, e4, tos);
        }
        let mask = binary::pack_bitmask(self.delete_mask.as_slice());
        binary::write_bytes(buf, pos, mask.as_slice());
        proof {
            binary::lemma_overwrite_append(b0, start, e5, bitmask(self@.deleted));
        }
    }

    fn write_index(&self, buf: &mut [u8], pos: &mut usize)
        requires
            self.csr_index.wf(),
            *old(pos) + concat(entry_blobs(self@.index)).len() <= old(buf)@.len(),
        ensures
            final(buf)@ == overwrite(
                old(buf)@,
                *old(pos) as int,
                concat(entry_blobs(self@.index)),
            ),
            final(buf)@.len() == old(buf)@.len(),
            *final(pos) == *old(pos) + concat(entry_blobs(self@.index)).len(),
    {
        let ghost start = *pos as int;
        let ghost blobs = entry_blobs(self@.index);
        let mut i: usize = 0;
        proof {
            binary::lemma_overwrite_empty(buf@, start);
            assert(blobs.take(0) =~= Seq::empty());
        }
        while i < self.csr_index.len()
            invariant
                self.csr_index.wf(),
                i <= self.csr_index@.len(),
                blobs == entry_blobs(self@.index),
                start == *old(pos),
                *pos == start + blob_start(blobs, i as int),
                start + concat(blobs).len() <= old(buf)@.len(),
                buf@.len() == old(buf)@.len(),
                buf@ == overwrite(old(buf)@, start, concat(blobs.take(i as int))),
            decreases self.csr_index@.len() - i,
        {
            let key: u64 = self.csr_index.key_at(i);
            let list = self.csr_index.value_at(i);
            let ghost before = buf@;
            let ghost at = *pos as int;
            assert(self@.index[i as int] == (key, list@));
            assert(blobs[i as int] == u64_le(key) + list@.encoding());
            proof {
                codec::lemma_concat_take(blobs, i as int);
                codec::lemma_blob_start_mono(blobs, i + 1, blobs.len() as int);
                binary::lemma_overwrite_append(
                    old(buf)@,
                    start,
                    concat(blobs.take(i as int)),
                    blobs[i as int],
                );
            }
            binary::write_u64(buf, pos, key);
            list.serialize_entry(buf, pos);
            proof {
                binary::lemma_overwrite_append(before, at, u64_le(key), list@.encoding());
            }
            i = i + 1;
        }
        assert(blobs.take(blobs.len() as int) =~= blobs);
    }

    /// Reads a group with the columns of a schema from pages.
    pub fn deserialize_from_pages(
        direction: Direction,
        schema: &EdgeTypeEntry,
        group_idx: NodeGroupIdx,
        pages: &[Page],
    ) -> (r: Result<Self, StorageError>)
        requires
            EdgeGroupView::parse(
                direction,
                columns_of(schema@.properties),
                group_idx,
                concat(pages_view(pages@)),
            ) is Some,
        ensures
            ({
                let d = EdgeGroupView::parse(
                    direction,
                    columns_of(schema@.properties),
                    group_idx,
                    concat(pages_view(pages@)),
                );
                match r {
                    Ok(g) => g.wf() && d == Some(Ok::<EdgeGroupView, ErrorView>(g@)),
                    Err(e) => d == Some(Err::<EdgeGroupView, ErrorView>(e@)),
                }
            }),
    {
        Self::try_deserialize_from_pages(direction, schema, group_idx, pages).unwrap()
    }

    /// Like [`CSREdgeGroup::deserialize_from_pages`], for any pages: `None` where a length or an
    /// offset in them points outside of what it is in.
    pub fn try_deserialize_from_pages(
        direction: Direction,
        schema: &EdgeTypeEntry,
        group_idx: NodeGroupIdx,
        pages: &[Page],
    ) -> (r: Option<Result<Self, StorageError>>)
        ensures
            ({
                let d = EdgeGroupView::parse(
                    direction,
                    columns_of(schema@.properties),
                    group_idx,
                    concat(pages_view(pages@)),
                );
                match r {
                    Some(Ok(g)) => g.wf() && d == Some(Ok::<EdgeGroupView, ErrorView>(g@)),
                    Some(Err(e)) => d == Some(Err::<EdgeGroupView, ErrorView>(e@)),
                    None => d is None,
                }
            }),
    {
        reveal(EdgeGroupView::parse);
        let column_schema = column_schema(&schema.properties);
        let joined = join_pages(pages);
        let buf = joined.as_slice();
        if buf.len() < 36 {
            return None;
        }
        let mut pos: usize = 8;
        let offset_base: u64 = binary::read_u64(buf, &mut pos);
        let num_rows: u64 = binary::read_u64(buf, &mut pos);
        pos = 28;
        let num_columns: usize = binary::read_u32(buf, &mut pos) as usize;
        let num_csr_entries: usize = binary::read_u32(buf, &mut pos) as usize;
        if num_columns > (buf.len() - pos) / 4 {
            return None;
        }
        let lens = read_u32s(buf, &mut pos, num_columns);
        if num_rows > ((buf.len() - pos) / 24) as u64 {
            return None;
        }
        let rows: usize = num_rows as usize;
        let edge_ids = read_edge_ids(buf, &mut pos, rows);
        let from_ids = read_node_ids(buf, &mut pos, rows);
        let to_ids = read_node_ids(buf, &mut pos, rows);
        let mask_bytes: usize = binary::bitmask_len(rows);
        if mask_bytes > buf.len() - pos {
            return None;
        }
        let mask = binary::read_bytes(buf, &mut pos, mask_bytes);
        let delete_mask = binary::unpack_bitmask(mask, rows);
        let csr_index = match Self::try_read_index(buf, &mut pos, num_csr_entries) {
            Some(map) => map,
            None => {
                return None;
            },
        };
        match row::try_read_columns(column_schema.as_slice(), buf, pos, &lens) {
            Some(Ok(columns)) => {
                let g = CSREdgeGroup {
                    group_idx,
                    offset_base,
                    num_rows,
                    direction,
                    edge_ids,
                    from_ids,
                    to_ids,
                    columns,
                    delete_mask,
                    csr_index,
                    dirty_regions: 0,
                };
                Some(Ok(g))
            },
            Some(Err(e)) => Some(Err(e)),
            None => None,
        }
    }

    /// Reads index entries. Of two entries with one key the later one counts.
    fn try_read_index(buf: &[u8], pos: &mut usize, n: usize) -> (r: Option<
        OrderedMap<NodeEdgeList>,
    >)
        requires
            *old(pos) <= buf@.len(),
        ensures
            ({
                let d = many(n as nat, entry_reader(buf@), *old(pos) as int);
                match r {
                    Some(map) => {
                        &&& map.wf()
                        &&& *final(pos) <= buf@.len()
                        &&& d matches Some((entries, end))
                        &&& end == *final(pos)
                        &&& mapped(map@, list_view()) == put_all(entries, entries.len())
                    },
                    None => d is None,
                }
            }),
    {
        let ghost f = entry_reader(buf@);
        let ghost start = *pos as int;
        let ghost mut entries: Seq<(u64, ListView)> = Seq::empty();
        let mut map: OrderedMap<NodeEdgeList> = OrderedMap::new();
        let mut i: usize = 0;
        assert(mapped(map@, list_view()) =~= put_all(entries, 0));
        while i < n
            invariant
                i <= n,
                start == *old(pos),
                f == entry_reader(buf@),
                *pos <= buf@.len(),
                map.wf(),
                entries.len() == i,
                many(i as nat, f, start) == Some((entries, *pos as int)),
                mapped(map@, list_view()) == put_all(entries, i as nat),
            decreases n - i,
        {
            let ghost before = entries;
            let ghost at = *pos as int;
            assert(f(at) == read_entry(buf@, at));
            if buf.len() - *pos < 8 {
                proof {
                    codec::lemma_many_stuck((i + 1) as nat, n as nat, f, start);
                }
                return None;
            }
            let key: u64 = binary::read_u64(buf, pos);
            match NodeEdgeList::try_deserialize_entry(buf, pos) {
                Some(list) => {
                    proof {
                        entries = before.push((key, list@));
                        ordered_map::lemma_mapped_put(map@, list_view(), key, list);
                        lemma_put_all_prefix(before, (key, list@), i as nat);
                    }
                    map.insert(key, list);
                },
                None => {
                    proof {
                        codec::lemma_many_stuck((i + 1) as nat, n as nat, f, start);
                    }
                    return None;
                },
            }
            i = i + 1;
        }
        Some(map)
    }
}

/// The first entries are put in alike whatever follows them.
proof fn lemma_put_all_prefix(s: Seq<(u64, ListView)>, e: (u64, ListView), n: nat)
    requires
        n <= s.len(),
    ensures
        put_all(s.push(e), n) == put_all(s, n),
    decreases n,
{
    if n > 0 {
        lemma_put_all_prefix(s, e, (n - 1) as nat);
    }
}

/// Writes edge ids as words.
pub fn write_edge_ids(ids: &Vec<EdgeId>, buf: &mut [u8], pos: &mut usize)
    requires
        *old(pos) + 8 * ids@.len() <= old(buf)@.len(),
    ensures
        final(buf)@ == overwrite(old(buf)@, *old(pos) as int, words_le(edge_words(ids@))),
        final(buf)@.len() == old(buf)@.len(),
        *final(pos) == *old(pos) + 8 * ids@.len(),
{
    let ghost start = *pos as int;
    let ghost words = edge_words(ids@);
    let mut i: usize = 0;
    proof {
        binary::lemma_overwrite_empty(buf@, start);
        assert(words_le(words.take(0)) =~= Seq::empty());
    }
    while i < ids.len()
        invariant
            i <= ids@.len(),
            words == edge_words(ids@),
            start == *old(pos),
            *pos == start + 8 * i,
            start + 8 * ids@.len() <= old(buf)@.len(),
            buf@.len() == old(buf)@.len(),
            buf@ == overwrite(old(buf)@, start, words_le(words.take(i as int))),
        decreases ids@.len() - i,
    {
        let w: u64 = ids[i].0;
        binary::write_u64(buf, pos, w);
        proof {
            assert(words.take(i + 1) =~= words.take(i as int).push(w));
            binary::lemma_overwrite_append(
                old(buf)@,
                start,
                words_le(words.take(i as int)),
                u64_le(w),
            );
            binary::lemma_words_push(words.take(i as int), w);
        }
        i = i + 1;
    }
    assert(words.take(ids@.len() as int) =~= words);
}

/// Reads `n` edge ids.
pub fn read_edge_ids(buf: &[u8], pos: &mut usize, n: usize) -> (ids: Vec<EdgeId>)
    requires
        *old(pos) + 8 * n <= buf@.len(),
    ensures
        ids@ == edge_ids_of_words(words_at(buf@, *old(pos) as int, n as nat)),
        ids@.len() == n,
        *final(pos) == *old(pos) + 8 * n,
{
    let mut ids: Vec<EdgeId> = Vec::new();
    while ids.len() < n
        invariant
            ids@.len() <= n,
            *pos == *old(pos) + 8 * ids@.len(),
            *old(pos) + 8 * n <= buf@.len(),
            forall|i: int|
                0 <= i < ids@.len() ==> ids@[i] == EdgeId(u64_at(buf@, *old(pos) + 8 * i)),
        decreases n - ids@.len(),
    {
        let w: u64 = binary::read_u64(buf, pos);
        ids.push(EdgeId(w));
    }
    assert(ids@ =~= edge_ids_of_words(words_at(buf@, *old(pos) as int, n as nat)));
    ids
}

// ---------------------------------------------------------------------------------------------
// Laws

impl EdgeGroupView {
    /// The row is there and not deleted.
    pub open spec fn live(self, row: u64) -> bool {
        row < self.len() && !self.deleted[row as int]
    }

    /// A row is in some list of the index.
    pub open spec fn listed(self, row: u64) -> bool {
        exists|i: int| 0 <= i < self.index.len() && #[trigger] self.lists_row(row)(i)
    }

    /// What every group built by inserts and deletes is like: all columns have all rows, and the
    /// index has the live rows, each in one list, and no empty list.
    pub open spec fn regular(self) -> bool {
        &&& self.valid()
        &&& self.sound()
        &&& self.len() <= StorageConfig::NODE_GROUP_SIZE
        &&& forall|i: int|
            0 <= i < self.columns.len() ==> (#[trigger] self.columns[i]).len() >= self.len()
        &&& forall|row: u64| #[trigger] self.live(row) <==> self.listed(row)
        &&& forall|row: u64, i: int, j: int|
            0 <= i < self.index.len() && 0 <= j < self.index.len() && #[trigger] self.lists_row(
                row,
            )(i) && #[trigger] self.lists_row(row)(j) ==> i == j
        &&& forall|i: int|
            0 <= i < self.index.len() ==> (#[trigger] self.index[i]).1.rows().len() > 0
    }

    /// No column has more values than there are rows. An edge that was refused for the value of a
    /// later column leaves values behind in the earlier ones.
    pub open spec fn even(self) -> bool {
        forall|i: int|
            0 <= i < self.columns.len() ==> (#[trigger] self.columns[i]).len() == self.len()
    }
}

/// A new group is regular.
pub proof fn law_empty_edge_group_regular(
    group_idx: NodeGroupIdx,
    direction: Direction,
    schema: Seq<(ColumnId, DataType)>,
)
    requires
        (group_idx.0 + 1) * 65536 <= u64::MAX,
    ensures
        EdgeGroupView::empty(group_idx, direction, schema).regular(),
        EdgeGroupView::empty(group_idx, direction, schema).even(),
        has_schema(EdgeGroupView::empty(group_idx, direction, schema).columns, schema),
        forall|offset: u64| #[trigger]
            EdgeGroupView::empty(group_idx, direction, schema).found(offset).len() == 0,
{
    let g = EdgeGroupView::empty(group_idx, direction, schema);
    assert forall|offset: u64| #[trigger] g.found(offset).len() == 0 by {
        assert(lookup(g.index, 0) is None);
    }
}

/// Inserting keeps a group valid and sound, whether or not it succeeds.
pub proof fn law_insert_keeps_sound(
    g: EdgeGroupView,
    offset: u64,
    edge_id: EdgeId,
    from: NodeId,
    to: NodeId,
    values: RowView,
)
    requires
        g.valid(),
        g.sound(),
    ensures
        ({
            let s = g.insert(offset, edge_id, from, to, values).state;
            &&& s.valid()
            &&& s.sound()
            &&& s.group_idx == g.group_idx
            &&& s.offset_base == g.offset_base
            &&& s.direction == g.direction
        }),
{
    row::lemma_append_keeps_valid(g.columns, values, g.columns.len());
    if !g.is_full() && g.local_key(offset) is Some && append_all(g.columns, values).1 is None {
        lemma_index_sound(g.index, g.local_key(offset)->Some_0, g.len());
    }
}

/// The index after a row was noted is sound.
proof fn lemma_index_sound(index: Seq<(u64, ListView)>, key: u64, len: nat)
    requires
        sorted(index),
        key < 65536,
        len < u32::MAX,
        forall|i: int|
            0 <= i < index.len() ==> (#[trigger] index[i]).0 < 65536 && index[i].1.sound(len),
    ensures
        ({
            let after = put(index, key, list_of(index, key).push(len as u64));
            &&& sorted(after)
            &&& forall|i: int|
                0 <= i < after.len() ==> (#[trigger] after[i]).0 < 65536 && after[i].1.sound(
                    len + 1,
                )
        }),
{
    let list = list_of(index, key);
    let row = len as u64;
    let after = put(index, key, list.push(row));
    ordered_map::law_put_then_lookup(index, key, list.push(row), 0);
    ordered_map::lemma_rank(index, key);
    let r = ordered_map::rank(index, key) as int;
    if ordered_map::has_key(index, key) {
        assert(index[r].1.sound(len));
    }
    edge_list::lemma_push_last(list, len);
    assert forall|i: int| 0 <= i < after.len() implies (#[trigger] after[i]).0 < 65536
        && after[i].1.sound(len + 1) by {
        if i == r {
            assert(after[i] == (key, list.push(row)));
        } else if ordered_map::has_key(index, key) || i < r {
            assert(after[i] == index[i]);
            lemma_sound_mono(index[i].1, len);
        } else {
            assert(after[i] == index[i - 1]);
            lemma_sound_mono(index[i - 1].1, len);
        }
    }
}

/// Deleting keeps a group valid and sound.
pub proof fn law_delete_keeps_sound(g: EdgeGroupView, row: u64)
    requires
        g.valid(),
        g.sound(),
        row < g.len(),
    ensures
        g.delete(row).valid(),
        g.delete(row).sound(),
        g.delete(row).group_idx == g.group_idx,
        g.delete(row).offset_base == g.offset_base,
        g.delete(row).len() == g.len(),
{
    let d = g.delete(row);
    search::lemma_first_where(g.index.len(), g.lists_row(row));
    match g.list_with(row) {
        Some(p) => {
            let key = g.index[p].0;
            let list = g.index[p].1.without(row);
            assert(g.lists_row(row)(p));
            assert(g.index[p].1.sound(g.len()));
            edge_list::lemma_without(g.index[p].1, row, g.len());
            ordered_map::lemma_rank_at(g.index, p);
            if list.rows().len() == 0 {
                assert(d.index == ordered_map::without(g.index, key));
                ordered_map::law_without_then_lookup(g.index, key, 0);
                assert forall|i: int| 0 <= i < d.index.len() implies (#[trigger] d.index[i]).0
                    < 65536 && d.index[i].1.sound(d.len()) by {
                    if i < p {
                        assert(d.index[i] == g.index[i]);
                    } else {
                        assert(d.index[i] == g.index[i + 1]);
                    }
                }
            } else {
                assert(d.index == put(g.index, key, list));
                ordered_map::law_put_then_lookup(g.index, key, list, 0);
                assert forall|i: int| 0 <= i < d.index.len() implies (#[trigger] d.index[i]).0
                    < 65536 && d.index[i].1.sound(d.len()) by {
                    if i != p {
                        assert(d.index[i] == g.index[i]);
                    }
                }
            }
        },
        None => {},
    }
}

/// Rows of a list are those of the place of its key.
proof fn lemma_found_at(g: EdgeGroupView, offset: u64, i: int)
    requires
        g.valid(),
        g.local_key(offset) is Some,
        0 <= i < g.index.len(),
        g.index[i].0 == g.local_key(offset)->Some_0,
    ensures
        g.found(offset) == g.index[i].1.rows(),
{
    ordered_map::lemma_rank_at(g.index, i);
}

/// A row that is found at an offset is in the list at some place of the index.
proof fn lemma_found_listed(g: EdgeGroupView, offset: u64, row: u64) -> (i: int)
    requires
        g.valid(),
        g.found(offset).contains(row),
    ensures
        0 <= i < g.index.len(),
        g.lists_row(row)(i),
        g.local_key(offset) == Some(g.index[i].0),
        g.found(offset) == g.index[i].1.rows(),
{
    let key = g.local_key(offset)->Some_0;
    let i = ordered_map::rank(g.index, key) as int;
    if !ordered_map::has_key(g.index, key) {
        assert(ListView::empty().rows().len() == 0);
    }
    i
}

/// The rows that are found at an offset are live, and every live row is found at exactly one
/// offset of the group's range.
pub proof fn law_found_is_live(g: EdgeGroupView, offset: u64, row: u64)
    requires
        g.regular(),
    ensures
        g.found(offset).contains(row) ==> g.live(row),
        search::ascending(g.found(offset)),
        g.live(row) ==> exists|o: u64| #[trigger] g.found(o).contains(row),
        forall|o: u64|
            #![trigger g.found(o)]
            g.found(offset).contains(row) && g.found(o).contains(row) ==> o == offset,
{
    match g.local_key(offset) {
        Some(key) => {
            if ordered_map::has_key(g.index, key) {
                let r = ordered_map::rank(g.index, key) as int;
                assert(g.index[r].1.sound(g.len()));
                edge_list::lemma_sound_rows(g.index[r].1, g.len());
            }
        },
        None => {},
    }
    if g.found(offset).contains(row) {
        let i = lemma_found_listed(g, offset, row);
        assert(g.listed(row));
        assert(g.live(row));
        assert forall|o: u64| #![trigger g.found(o)] g.found(o).contains(row) implies o
            == offset by {
            let j = lemma_found_listed(g, o, row);
            assert(g.lists_row(row)(i) && g.lists_row(row)(j));
        }
    }
    if g.live(row) {
        assert(g.listed(row));
        let i = choose|i: int| 0 <= i < g.index.len() && #[trigger] g.lists_row(row)(i);
        let o = (g.offset_base + g.index[i].0) as u64;
        assert(g.index[i].0 < 65536);
        lemma_found_at(g, o, i);
        assert(g.found(o).contains(row));
    }
}

/// Inserting an edge at an offset of the range, with values of the columns' types, into a group that
/// is not full and has even columns succeeds. If an edge was inserted, it is found at the offset,
/// behind those that were found there; at every other offset the same rows are found as before; the
/// edge is read back, with its values if the columns were even; and every other row is as it was.
pub proof fn law_insert_edge_then_find(
    g: EdgeGroupView,
    offset: u64,
    edge_id: EdgeId,
    from: NodeId,
    to: NodeId,
    values: RowView,
    other: u64,
    row: u64,
)
    requires
        g.regular(),
        !g.is_full(),
        g.local_key(offset) is Some,
    ensures
        ({
            let i = g.insert(offset, edge_id, from, to, values);
            let fitting = first_mismatch(g.columns, values, g.columns.len()) is None;
            &&& g.even() && fitting ==> i.result is Ok
            &&& i.result is Ok ==> {
                &&& fitting
                &&& i.result == Ok::<u64, ErrorView>(g.len() as u64)
                &&& i.state.regular()
                &&& g.even() ==> i.state.even()
                &&& i.state.columns == with_row(g.columns, values)
                &&& i.state.len() == g.len() + 1
                &&& i.state.found(offset) == g.found(offset).push(g.len() as u64)
                &&& other != offset ==> i.state.found(other) == g.found(other)
                &&& i.state.read(g.len() as u64) matches Ok(Some(record)) && record.edge_id
                    == edge_id && record.from == from && record.to == to && (g.even()
                    ==> record.properties == Seq::new(
                    g.columns.len(),
                    |k: int| row::value_for(values, k),
                ))
                &&& row < g.len() ==> i.state.read(row) == g.read(row)
            }
        }),
{
    let i = g.insert(offset, edge_id, from, to, values);
    let key = g.local_key(offset)->Some_0;
    let columns = with_row(g.columns, values);
    let n = g.columns.len();
    if g.even() && first_mismatch(g.columns, values, n) is None {
        row::lemma_no_mismatch(g.columns, values, n);
        assert forall|k: int| 0 <= k < n implies (#[trigger] g.columns[k]).refusal(
            row::value_for(values, k),
        ) is None by {
            assert(row::mismatch(g.columns[k], row::value_for(values, k)) is None);
        }
        row::lemma_append_accepted(g.columns, values, n);
    }
    if i.result is Ok {
        lemma_insert_columns(g, values);
        let s = g.with_edge(key, edge_id, from, to, columns);
        assert(i.state == s);
        lemma_insert_index(g, s, key);
        lemma_insert_regular(g, s, key);
        if other != offset {
            match g.local_key(other) {
                Some(k) => {
                    ordered_map::law_put_then_lookup(
                        g.index,
                        key,
                        list_of(g.index, key).push(g.len() as u64),
                        k,
                    );
                },
                None => {},
            }
        }
        assert(s.edge_ids.take(g.len() as int) =~= g.edge_ids);
        assert(s.from_ids.take(g.len() as int) =~= g.from_ids);
        assert(s.to_ids.take(g.len() as int) =~= g.to_ids);
        lemma_insert_reads(g, s, values, row);
    }
}

/// Where an edge was refused, every row is read and found as before.
pub proof fn law_refused_edge(
    g: EdgeGroupView,
    offset: u64,
    edge_id: EdgeId,
    from: NodeId,
    to: NodeId,
    values: RowView,
    row: u64,
)
    requires
        g.regular(),
        g.insert(offset, edge_id, from, to, values).result is Err,
    ensures
        ({
            let s = g.insert(offset, edge_id, from, to, values).state;
            &&& s == (EdgeGroupView { columns: s.columns, ..g })
            &&& s.regular()
            &&& s.read(row) == g.read(row)
            &&& forall|i: int, r: int|
                0 <= i < g.columns.len() && 0 <= r < g.len() ==> #[trigger] s.columns[i].value(r)
                    == g.columns[i].value(r)
        }),
{
    let s = g.insert(offset, edge_id, from, to, values).state;
    let n = g.columns.len();
    row::lemma_append_keeps_valid(g.columns, values, n);
    row::lemma_append_keeps_rows(g.columns, values, n);
    assert forall|row: u64, i: int| #[trigger] s.lists_row(row)(i) == g.lists_row(row)(i) by {}
    assert forall|i: int, r: int|
        0 <= i < n && 0 <= r < g.len() implies #[trigger] s.columns[i].value(r)
        == g.columns[i].value(r) by {
        assert(g.columns[i].len() >= g.len());
    }
    lemma_same_index_regular(g, s);
    lemma_same_rows_read(g, s, row);
}

/// A group that differs from a regular one in nothing but values behind the last row is regular.
pub proof fn lemma_same_index_regular(g: EdgeGroupView, s: EdgeGroupView)
    requires
        g.regular(),
        s == (EdgeGroupView { columns: s.columns, dirty: s.dirty, ..g }),
        forall|i: int|
            0 <= i < s.columns.len() ==> (#[trigger] s.columns[i]).valid() && s.columns[i].len()
                >= s.len(),
    ensures
        s.regular(),
{
    assert forall|row: u64, i: int| #[trigger] s.lists_row(row)(i) == g.lists_row(row)(i) by {}
    assert forall|row: u64| #[trigger] s.live(row) <==> s.listed(row) by {
        assert(g.live(row) <==> g.listed(row));
        if g.listed(row) {
            let i = choose|i: int| 0 <= i < g.index.len() && #[trigger] g.lists_row(row)(i);
            assert(s.lists_row(row)(i));
        }
        if s.listed(row) {
            let i = choose|i: int| 0 <= i < s.index.len() && #[trigger] s.lists_row(row)(i);
            assert(g.lists_row(row)(i));
        }
    }
    assert forall|row: u64, i: int, j: int|
        0 <= i < s.index.len() && 0 <= j < s.index.len() && #[trigger] s.lists_row(row)(i)
            && #[trigger] s.lists_row(row)(j) implies i == j by {
        assert(g.lists_row(row)(i) && g.lists_row(row)(j));
    }
}

/// Columns that have the same values in all rows are read alike.
pub proof fn lemma_same_rows_read(g: EdgeGroupView, s: EdgeGroupView, row: u64)
    requires
        g.regular(),
        s.regular(),
        s == (EdgeGroupView { columns: s.columns, dirty: s.dirty, ..g }),
        s.columns.len() == g.columns.len(),
        forall|i: int, r: int|
            0 <= i < g.columns.len() && 0 <= r < g.len() ==> #[trigger] s.columns[i].value(r)
                == g.columns[i].value(r),
    ensures
        s.read(row) == g.read(row),
{
    if row < g.len() {
        let n = g.columns.len();
        row::lemma_read_all_values(s.columns, row);
        row::lemma_read_all_values(g.columns, row);
        assert(Seq::new(n, |k: int| s.columns[k].value(row as int)) =~= Seq::new(
            n,
            |k: int| g.columns[k].value(row as int),
        ));
    }
}

/// Values that were appended to all columns.
proof fn lemma_insert_columns(g: EdgeGroupView, values: RowView)
    requires
        g.regular(),
        append_all(g.columns, values).1 is None,
    ensures
        first_mismatch(g.columns, values, g.columns.len()) is None,
        append_all(g.columns, values) == (with_row(g.columns, values), None::<ErrorView>),
        forall|k: int|
            0 <= k < g.columns.len() ==> (#[trigger] with_row(g.columns, values)[k]).valid()
                && with_row(g.columns, values)[k].len() == g.columns[k].len() + 1,
{
    let n = g.columns.len();
    row::lemma_append_unrefused(g.columns, values, n);
    row::lemma_append_accepted(g.columns, values, n);
    assert forall|k: int| 0 <= k < n implies (#[trigger] with_row(g.columns, values)[k]).valid()
        && with_row(g.columns, values)[k].len() == g.columns[k].len() + 1 by {
        assert(g.columns[k].refusal(row::value_for(values, k)) is None);
        column::law_append_then_read(g.columns[k], row::value_for(values, k), 0);
    }
}

/// The index after an insert: the list of the key has the new row at its end, the others are as
/// they were.
proof fn lemma_insert_index(g: EdgeGroupView, s: EdgeGroupView, key: u64)
    requires
        g.regular(),
        !g.is_full(),
        key < 65536,
        s.index == put(g.index, key, list_of(g.index, key).push(g.len() as u64)),
        s.len() == g.len() + 1,
    ensures
        sorted(s.index),
        lookup(s.index, key) == Some(list_of(g.index, key).push(g.len() as u64)),
        list_of(g.index, key).push(g.len() as u64).rows() == list_of(g.index, key).rows().push(
            g.len() as u64,
        ),
        forall|i: int|
            0 <= i < s.index.len() ==> (#[trigger] s.index[i]).0 < 65536 && s.index[i].1.sound(
                s.len(),
            ) && s.index[i].1.rows().len() > 0,
{
    let list = list_of(g.index, key);
    let row = g.len() as u64;
    ordered_map::law_put_then_lookup(g.index, key, list.push(row), 0);
    ordered_map::lemma_rank(g.index, key);
    let r = ordered_map::rank(g.index, key) as int;
    if ordered_map::has_key(g.index, key) {
        assert(g.index[r].1.sound(g.len()));
    }
    edge_list::lemma_push_last(list, g.len());
    assert forall|i: int| 0 <= i < s.index.len() implies (#[trigger] s.index[i]).0 < 65536
        && s.index[i].1.sound(s.len()) && s.index[i].1.rows().len() > 0 by {
        if i == r {
            assert(s.index[i] == (key, list.push(row)));
        } else if ordered_map::has_key(g.index, key) || i < r {
            assert(s.index[i] == g.index[i]);
            lemma_sound_mono(g.index[i].1, g.len());
        } else {
            assert(s.index[i] == g.index[i - 1]);
            lemma_sound_mono(g.index[i - 1].1, g.len());
        }
    }
}

proof fn lemma_sound_mono(list: ListView, bound: nat)
    requires
        list.sound(bound),
    ensures
        list.sound(bound + 1),
{
}

proof fn lemma_insert_regular(g: EdgeGroupView, s: EdgeGroupView, key: u64)
    requires
        g.regular(),
        !g.is_full(),
        key < 65536,
        s.index == put(g.index, key, list_of(g.index, key).push(g.len() as u64)),
        s.len() == g.len() + 1,
        s.from_ids.len() == s.len(),
        s.to_ids.len() == s.len(),
        s.deleted == g.deleted.push(false),
        s.offset_base == g.offset_base,
        sorted(s.index),
        lookup(s.index, key) == Some(list_of(g.index, key).push(g.len() as u64)),
        list_of(g.index, key).push(g.len() as u64).rows() == list_of(g.index, key).rows().push(
            g.len() as u64,
        ),
        forall|i: int|
            0 <= i < s.index.len() ==> (#[trigger] s.index[i]).0 < 65536 && s.index[i].1.sound(
                s.len(),
            ) && s.index[i].1.rows().len() > 0,
        forall|k: int|
            0 <= k < s.columns.len() ==> (#[trigger] s.columns[k]).valid() && s.columns[k].len()
                >= s.len(),
    ensures
        s.regular(),
{
    let new_row = g.len() as u64;
    let list = list_of(g.index, key);
    let has = ordered_map::has_key(g.index, key);
    let r = ordered_map::rank(g.index, key) as int;
    ordered_map::lemma_rank(g.index, key);
    assert(ListView::empty().rows().len() == 0);
    // The place in the old index of each list of the new one.
    let back = |i: int|
        if has || i < r {
            i
        } else {
            i - 1
        };
    assert forall|i: int| 0 <= i < s.index.len() && i != r implies s.index[i] == g.index[back(
        i,
    )] && 0 <= back(i) < g.index.len() by {}
    assert(s.index[r] == (key, list.push(new_row)));
    assert forall|row: u64, i: int| 0 <= i < s.index.len() implies (#[trigger] s.lists_row(row)(i)
        <==> (i == r && (row == new_row || has && g.lists_row(row)(r)) || i != r && g.lists_row(
        row,
    )(back(i)))) by {
        if i == r {
            let old_rows = list.rows();
            let rows = old_rows.push(new_row);
            assert(s.index[r].1.rows() == rows);
            if rows.contains(row) {
                let k = choose|k: int| 0 <= k < rows.len() && rows[k] == row;
                if k < old_rows.len() {
                    assert(old_rows[k] == row);
                }
            }
            assert(rows[old_rows.len() as int] == new_row);
            if old_rows.contains(row) {
                let k = choose|k: int| 0 <= k < old_rows.len() && old_rows[k] == row;
                assert(rows[k] == row);
            }
            if has {
                assert(g.index[r].1 == list);
            }
        }
    }
    // No old list has the new row.
    assert forall|i: int| 0 <= i < g.index.len() implies !#[trigger] g.lists_row(new_row)(i) by {
        if g.lists_row(new_row)(i) {
            assert(g.listed(new_row));
            assert(g.live(new_row));
        }
    }
    assert forall|row: u64| #[trigger] s.live(row) <==> s.listed(row) by {
        if s.live(row) {
            if row == new_row {
                assert(s.lists_row(row)(r));
            } else {
                assert(g.live(row));
                let j = choose|j: int| 0 <= j < g.index.len() && #[trigger] g.lists_row(row)(j);
                let i = if has || j < r {
                    j
                } else {
                    j + 1
                };
                assert(back(i) == j);
                assert(s.lists_row(row)(i));
            }
        }
        if s.listed(row) {
            let i = choose|i: int| 0 <= i < s.index.len() && #[trigger] s.lists_row(row)(i);
            if row != new_row {
                let j = if i == r {
                    r
                } else {
                    back(i)
                };
                assert(g.lists_row(row)(j));
                assert(g.listed(row));
                assert(g.live(row));
            }
        }
    }
    assert forall|row: u64, i: int, j: int|
        0 <= i < s.index.len() && 0 <= j < s.index.len() && #[trigger] s.lists_row(row)(i)
            && #[trigger] s.lists_row(row)(j) implies i == j by {
        if row == new_row {
            assert(i == r);
            assert(j == r);
        } else {
            let a = if i == r {
                r
            } else {
                back(i)
            };
            let b = if j == r {
                r
            } else {
                back(j)
            };
            assert(g.lists_row(row)(a) && g.lists_row(row)(b));
        }
    }
}

proof fn lemma_insert_reads(g: EdgeGroupView, s: EdgeGroupView, values: RowView, row: u64)
    requires
        g.regular(),
        s.columns == with_row(g.columns, values),
        s.len() == g.len() + 1,
        s.from_ids.len() == s.len(),
        s.to_ids.len() == s.len(),
        s.deleted == g.deleted.push(false),
        s.edge_ids.take(g.len() as int) == g.edge_ids,
        s.from_ids.take(g.len() as int) == g.from_ids,
        s.to_ids.take(g.len() as int) == g.to_ids,
        forall|k: int|
            0 <= k < s.columns.len() ==> (#[trigger] s.columns[k]).valid() && s.columns[k].len()
                == g.columns[k].len() + 1,
    ensures
        s.read(g.len() as u64) matches Ok(Some(record)) && record.edge_id
            == s.edge_ids[g.len() as int] && record.from == s.from_ids[g.len() as int] && record.to
            == s.to_ids[g.len() as int] && (g.even() ==> record.properties == Seq::new(
            g.columns.len(),
            |k: int| row::value_for(values, k),
        )),
        row < g.len() ==> s.read(row) == g.read(row),
{
    let n = g.columns.len();
    assert forall|k: int| 0 <= k < n implies (#[trigger] s.columns[k]).len() > g.len() by {
        assert(g.columns[k].len() >= g.len());
    }
    row::lemma_read_all_values(s.columns, g.len() as u64);
    if g.even() {
        assert(Seq::new(n, |k: int| s.columns[k].value(g.len() as int)) =~= Seq::new(
            n,
            |k: int| row::value_for(values, k),
        )) by {
            assert forall|k: int| 0 <= k < n implies s.columns[k].value(g.len() as int)
                == row::value_for(values, k) by {
                assert(g.columns[k].len() == g.len());
            }
        }
    }
    if row < g.len() {
        row::lemma_read_all_values(s.columns, row);
        row::lemma_read_all_values(g.columns, row);
        assert(Seq::new(n, |k: int| s.columns[k].value(row as int)) =~= Seq::new(
            n,
            |k: int| g.columns[k].value(row as int),
        )) by {
            assert forall|k: int| 0 <= k < n implies s.columns[k].value(row as int)
                == g.columns[k].value(row as int) by {
                assert(g.columns[k].len() >= g.len());
            }
        }
        assert(s.edge_ids.take(g.len() as int)[row as int] == s.edge_ids[row as int]);
        assert(s.from_ids.take(g.len() as int)[row as int] == s.from_ids[row as int]);
        assert(s.to_ids.take(g.len() as int)[row as int] == s.to_ids[row as int]);
    }
}

/// The rows found at an offset after a row was deleted.
pub open spec fn found_without(rows: Seq<u64>, row: u64) -> Seq<u64> {
    if rows.contains(row) {
        edge_list::remove_sorted(rows, row)
    } else {
        rows
    }
}

/// A live row that was deleted reads as nothing and is found at no offset; every other row is
/// read and found as before.
pub proof fn law_delete_edge_hides(g: EdgeGroupView, row: u64, offset: u64, other: u64)
    requires
        g.regular(),
        g.live(row),
    ensures
        g.delete(row).regular(),
        g.even() ==> g.delete(row).even(),
        g.delete(row).len() == g.len(),
        g.delete(row).read(row) == Ok::<Option<RecordView>, ErrorView>(None),
        other != row ==> g.delete(row).read(other) == g.read(other),
        g.delete(row).found(offset) == found_without(g.found(offset), row),
        !g.delete(row).found(offset).contains(row),
        count_false(g.delete(row).deleted) == count_false(g.deleted) - 1,
{
    let d = g.delete(row);
    assert(g.listed(row));
    let w = choose|i: int| 0 <= i < g.index.len() && #[trigger] g.lists_row(row)(i);
    search::lemma_first_where(g.index.len(), g.lists_row(row));
    let p = g.list_with(row)->Some_0;
    assert(g.lists_row(row)(p) && g.lists_row(row)(w));
    let key = g.index[p].0;
    let list = g.index[p].1.without(row);
    assert(g.index[p].1.sound(g.len()));
    edge_list::lemma_without(g.index[p].1, row, g.len());
    ordered_map::lemma_rank_at(g.index, p);
    if list.rows().len() == 0 {
        assert(d.index == ordered_map::without(g.index, key));
        ordered_map::law_without_then_lookup(g.index, key, 0);
    } else {
        assert(d.index == put(g.index, key, list));
        ordered_map::law_put_then_lookup(g.index, key, list, 0);
    }
    lemma_delete_regular(g, row, p);
    search::lemma_count_false_set(g.deleted, row as int);
    lemma_delete_found(g, row, p, offset);
    if d.found(offset).contains(row) {
        law_found_is_live(d, offset, row);
    }
}

proof fn lemma_delete_found(g: EdgeGroupView, row: u64, p: int, offset: u64)
    requires
        g.regular(),
        g.live(row),
        0 <= p < g.index.len(),
        g.list_with(row) == Some(p),
        g.lists_row(row)(p),
    ensures
        g.delete(row).found(offset) == found_without(g.found(offset), row),
{
    let d = g.delete(row);
    let key = g.index[p].0;
    let list = g.index[p].1.without(row);
    ordered_map::lemma_rank_at(g.index, p);
    match g.local_key(offset) {
        Some(k) => {
            if list.rows().len() == 0 {
                assert(d.index == ordered_map::without(g.index, key));
                ordered_map::law_without_then_lookup(g.index, key, k);
            } else {
                assert(d.index == put(g.index, key, list));
                ordered_map::law_put_then_lookup(g.index, key, list, k);
            }
            if k == key {
                assert(g.found(offset) == g.index[p].1.rows());
                if list.rows().len() == 0 {
                    assert(d.found(offset) =~= list.rows());
                }
            } else if g.found(offset).contains(row) {
                let i = lemma_found_listed(g, offset, row);
                assert(g.lists_row(row)(i) && g.lists_row(row)(p));
            }
        },
        None => {},
    }
}

proof fn lemma_delete_regular(g: EdgeGroupView, row: u64, p: int)
    requires
        g.regular(),
        g.live(row),
        0 <= p < g.index.len(),
        g.list_with(row) == Some(p),
        g.lists_row(row)(p),
        sorted(g.delete(row).index),
    ensures
        g.delete(row).regular(),
{
    let d = g.delete(row);
    let list = g.index[p].1.without(row);
    assert(g.index[p].1.sound(g.len()));
    edge_list::lemma_without(g.index[p].1, row, g.len());
    let gone = list.rows().len() == 0;
    let back = |i: int|
        if gone && i >= p {
            i + 1
        } else {
            i
        };
    assert forall|i: int| 0 <= i < d.index.len() implies 0 <= back(i) < g.index.len() && (if back(i)
        == p {
        d.index[i] == (g.index[p].0, list) && !gone
    } else {
        d.index[i] == g.index[back(i)]
    }) by {}
    assert forall|i: int| 0 <= i < d.index.len() implies (#[trigger] d.index[i]).0 < 65536
        && d.index[i].1.sound(d.len()) && d.index[i].1.rows().len() > 0 by {
        assert(g.index[back(i)].0 < 65536 && g.index[back(i)].1.sound(g.len())
            && g.index[back(i)].1.rows().len() > 0);
    }
    assert forall|r: u64, i: int| 0 <= i < d.index.len() implies (#[trigger] d.lists_row(r)(i)
        <==> r != row && g.lists_row(r)(back(i))) by {
        if back(i) == p {
            assert(d.index[i].1.rows() == list.rows());
            if r != row {
                assert(list.rows().contains(r) <==> g.index[p].1.rows().contains(r));
            }
        } else {
            assert(d.index[i] == g.index[back(i)]);
            if r == row && g.lists_row(row)(back(i)) {
                assert(g.lists_row(row)(p));
            }
        }
    }
    assert forall|r: u64| #[trigger] d.live(r) <==> d.listed(r) by {
        if d.live(r) {
            assert(r != row);
            assert(g.live(r));
            let j = choose|j: int| 0 <= j < g.index.len() && #[trigger] g.lists_row(r)(j);
            if gone && j == p {
                // The only row of that list was the deleted one.
                let only = g.index[p].1.rows();
                assert(list.rows().contains(r) <==> only.contains(r));
                assert(only.contains(r));
                assert(false);
            }
            let i = if gone && j > p {
                j - 1
            } else {
                j
            };
            assert(back(i) == j);
            assert(d.lists_row(r)(i));
        }
        if d.listed(r) {
            let i = choose|i: int| 0 <= i < d.index.len() && #[trigger] d.lists_row(r)(i);
            assert(g.lists_row(r)(back(i)));
            assert(g.listed(r));
            assert(g.live(r));
        }
    }
    assert forall|r: u64, i: int, j: int|
        0 <= i < d.index.len() && 0 <= j < d.index.len() && #[trigger] d.lists_row(r)(i)
            && #[trigger] d.lists_row(r)(j) implies i == j by {
        assert(g.lists_row(r)(back(i)) && g.lists_row(r)(back(j)));
    }
}

impl EdgeGroupView {
    /// The counts and lengths can be written in 32 bits.
    pub open spec fn fits(self) -> bool {
        &&& self.columns.len() <= u32::MAX
        &&& self.index.len() <= u32::MAX
        &&& forall|i: int|
            0 <= i < self.columns.len() ==> (#[trigger] self.columns[i]).encoding().len()
                <= u32::MAX
        &&& forall|i: int|
            0 <= i < self.index.len() ==> (#[trigger] self.index[i]).1.rows().len() <= u32::MAX
    }
}

proof fn lemma_counts_hold(
    buf: Seq<u8>,
    idx: u64,
    base: u64,
    rows: u64,
    live: u32,
    num_columns: u32,
    num_entries: u32,
)
    requires
        holds_at(
            buf,
            0,
            u64_le(idx) + u64_le(base) + u64_le(rows) + u32_le(live) + u32_le(num_columns)
                + u32_le(num_entries),
        ),
    ensures
        u64_at(buf, 8) == base,
        u64_at(buf, 16) == rows,
        u32_at(buf, 28) == num_columns,
        u32_at(buf, 32) == num_entries,
{
    let e1 = u64_le(idx);
    let e2 = e1 + u64_le(base);
    let e3 = e2 + u64_le(rows);
    let e4 = e3 + u32_le(live);
    let e5 = e4 + u32_le(num_columns);
    binary::lemma_holds_append(buf, 0, e5, u32_le(num_entries));
    binary::lemma_holds_append(buf, 0, e4, u32_le(num_columns));
    binary::lemma_holds_append(buf, 0, e3, u32_le(live));
    binary::lemma_holds_append(buf, 0, e2, u64_le(rows));
    binary::lemma_holds_append(buf, 0, e1, u64_le(base));
    binary::lemma_u64_at(buf, 8, base);
    binary::lemma_u64_at(buf, 16, rows);
    binary::lemma_u32_at(buf, 28, num_columns);
    binary::lemma_u32_at(buf, 32, num_entries);
}

proof fn lemma_arrays_hold(
    buf: Seq<u8>,
    counts: Seq<u8>,
    lens: Seq<u32>,
    edges: Seq<u64>,
    froms: Seq<u64>,
    tos: Seq<u64>,
    mask: Seq<u8>,
)
    requires
        counts.len() == 36,
        holds_at(
            buf,
            0,
            counts + ints_le(lens) + words_le(edges) + words_le(froms) + words_le(tos) + mask,
        ),
    ensures
        ({
            let edges_at = 36 + 4 * lens.len() as int;
            let from_at = edges_at + 8 * edges.len();
            let to_at = from_at + 8 * froms.len();
            let mask_at = to_at + 8 * tos.len();
            &&& holds_at(buf, 0, counts)
            &&& mask_at + mask.len() <= buf.len()
            &&& ints_at(buf, 36, lens.len()) == lens
            &&& words_at(buf, edges_at, edges.len()) == edges
            &&& words_at(buf, from_at, froms.len()) == froms
            &&& words_at(buf, to_at, tos.len()) == tos
            &&& buf.subrange(mask_at, mask_at + mask.len()) == mask
        }),
{
    let e2 = counts + ints_le(lens);
    let e3 = e2 + words_le(edges);
    let e4 = e3 + words_le(froms);
    let e5 = e4 + words_le(tos);
    binary::lemma_holds_append(buf, 0, e5, mask);
    binary::lemma_holds_append(buf, 0, e4, words_le(tos));
    binary::lemma_holds_append(buf, 0, e3, words_le(froms));
    binary::lemma_holds_append(buf, 0, e2, words_le(edges));
    binary::lemma_holds_append(buf, 0, counts, ints_le(lens));
    binary::lemma_ints_at(buf, 36, lens);
    binary::lemma_words_at(buf, e2.len() as int, edges);
    binary::lemma_words_at(buf, e3.len() as int, froms);
    binary::lemma_words_at(buf, e4.len() as int, tos);
    binary::lemma_holds_subrange(buf, e5.len() as int, mask);
}

/// What a buffer holds that starts with the head of a group.
proof fn lemma_head_holds(g: EdgeGroupView, buf: Seq<u8>)
    requires
        g.valid(),
        g.columns.len() <= u32::MAX,
        g.index.len() <= u32::MAX,
        holds_at(buf, 0, g.head()),
    ensures
        ({
            let edges_at = 36 + 4 * g.columns.len() as int;
            let from_at = edges_at + 8 * g.len();
            let to_at = from_at + 8 * g.len();
            let mask_at = to_at + 8 * g.len();
            let index_at = mask_at + mask_len(g.len());
            &&& 36 <= index_at <= buf.len()
            &&& g.head().len() == index_at
            &&& u64_at(buf, 8) == g.offset_base
            &&& u64_at(buf, 16) == g.len()
            &&& u32_at(buf, 28) == g.columns.len()
            &&& u32_at(buf, 32) == g.index.len()
            &&& ints_at(buf, 36, g.columns.len()) == column_lens(g.columns)
            &&& edge_ids_of_words(words_at(buf, edges_at, g.len())) == g.edge_ids
            &&& ids_of_words(words_at(buf, from_at, g.len())) == g.from_ids
            &&& ids_of_words(words_at(buf, to_at, g.len())) == g.to_ids
            &&& unmasked(buf.subrange(mask_at, index_at), g.len()) == g.deleted
        }),
{
    lemma_head_len(g);
    let lens = column_lens(g.columns);
    let edges = edge_words(g.edge_ids);
    let froms = id_words(g.from_ids);
    let tos = id_words(g.to_ids);
    let mask = bitmask(g.deleted);
    let num_columns = g.columns.len() as u32;
    let num_entries = g.index.len() as u32;
    let live = low_u32(count_false(g.deleted) as int);
    assert(low_u32(g.columns.len() as int) == num_columns);
    assert(low_u32(g.index.len() as int) == num_entries);
    assert(g.counts() == u64_le(g.group_idx.0) + u64_le(g.offset_base) + u64_le(g.len() as u64)
        + u32_le(live) + u32_le(num_columns) + u32_le(num_entries));
    assert(g.head() == g.counts() + ints_le(lens) + words_le(edges) + words_le(froms) + words_le(
        tos,
    ) + mask) by {
        reveal(EdgeGroupView::head);
    }
    lemma_arrays_hold(buf, g.counts(), lens, edges, froms, tos, mask);
    lemma_counts_hold(
        buf,
        g.group_idx.0,
        g.offset_base,
        g.len() as u64,
        live,
        num_columns,
        num_entries,
    );
    assert(edge_ids_of_words(edges) =~= g.edge_ids);
    assert(ids_of_words(froms) =~= g.from_ids);
    assert(ids_of_words(tos) =~= g.to_ids);
    binary::law_bitmask_roundtrip(g.deleted);
}

proof fn lemma_entries_roundtrip(index: Seq<(u64, ListView)>, buf: Seq<u8>, pos: int)
    requires
        forall|i: int| 0 <= i < index.len() ==> (#[trigger] index[i]).1.rows().len() <= u32::MAX,
        holds_at(buf, pos, concat(entry_blobs(index))),
    ensures
        many(index.len(), entry_reader(buf), pos) == Some(
            (index, pos + concat(entry_blobs(index)).len()),
        ),
{
    let blobs = entry_blobs(index);
    let f = entry_reader(buf);
    assert forall|i: int| 0 <= i < index.len() implies #[trigger] f(pos + blob_start(blobs, i))
        == Some((index[i], pos + blob_start(blobs, i) + blobs[i].len())) by {
        let at = pos + blob_start(blobs, i);
        let (key, list) = index[i];
        codec::lemma_concat_holds(buf, pos, blobs, i);
        assert(blobs[i] == u64_le(key) + list.encoding());
        assert(index[i].1.rows().len() <= u32::MAX);
        binary::lemma_holds_append(buf, at, u64_le(key), list.encoding());
        binary::lemma_u64_at(buf, at, key);
        edge_list::lemma_list_roundtrip(list, buf, at + 8);
        assert(f(at) == read_entry(buf, at));
    }
    codec::lemma_many_all(index, blobs, f, pos);
}

proof fn lemma_parse_group(
    g: EdgeGroupView,
    schema: Seq<(ColumnId, DataType)>,
    buf: Seq<u8>,
    columns_at: int,
)
    requires
        ({
            let edges_at = 36 + 4 * g.columns.len() as int;
            let from_at = edges_at + 8 * g.len();
            let to_at = from_at + 8 * g.len();
            let mask_at = to_at + 8 * g.len();
            let index_at = mask_at + mask_len(g.len());
            &&& 36 <= index_at <= buf.len()
            &&& u64_at(buf, 8) == g.offset_base
            &&& u64_at(buf, 16) == g.len()
            &&& u32_at(buf, 28) == g.columns.len()
            &&& u32_at(buf, 32) == g.index.len()
            &&& edge_ids_of_words(words_at(buf, edges_at, g.len())) == g.edge_ids
            &&& ids_of_words(words_at(buf, from_at, g.len())) == g.from_ids
            &&& ids_of_words(words_at(buf, to_at, g.len())) == g.to_ids
            &&& unmasked(buf.subrange(mask_at, index_at), g.len()) == g.deleted
            &&& many(g.index.len(), entry_reader(buf), index_at) == Some((g.index, columns_at))
        }),
        parse_columns(schema, buf, columns_at, ints_at(buf, 36, g.columns.len())) == Some(
            Ok::<Seq<ColumnView>, ErrorView>(g.columns),
        ),
        put_all(g.index, g.index.len()) == g.index,
    ensures
        EdgeGroupView::parse(g.direction, schema, g.group_idx, buf) == Some(
            Ok::<EdgeGroupView, ErrorView>(EdgeGroupView { dirty: 0, ..g }),
        ),
{
    reveal(EdgeGroupView::parse);
}

/// A group that was put on pages is read back from them as it was, with no region dirty.
pub proof fn law_edge_group_roundtrip(g: EdgeGroupView, schema: Seq<(ColumnId, DataType)>)
    requires
        g.valid(),
        g.fits(),
        has_schema(g.columns, schema),
    ensures
        EdgeGroupView::parse(
            g.direction,
            schema,
            g.group_idx,
            concat(pages_of(g.encoding())),
        ) == Some(Ok::<EdgeGroupView, ErrorView>(EdgeGroupView { dirty: 0, ..g })),
{
    let buf = concat(pages_of(g.encoding()));
    let entries = concat(entry_blobs(g.index));
    let columns = concat(column_blobs(g.columns));
    page::lemma_pages_hold(g.encoding());
    binary::lemma_holds_append(buf, 0, g.head() + entries, columns);
    binary::lemma_holds_append(buf, 0, g.head(), entries);
    lemma_head_holds(g, buf);
    let index_at = g.head().len() as int;
    lemma_entries_roundtrip(g.index, buf, index_at);
    let columns_at = index_at + entries.len();
    row::lemma_columns_roundtrip(g.columns, schema, buf, columns_at);
    ordered_map::lemma_put_all_sorted(g.index, g.index.len());
    assert(g.index.take(g.index.len() as int) =~= g.index);
    lemma_parse_group(g, schema, buf, columns_at);
}

// ---------------------------------------------------------------------------------------------
// Dirty regions

/// The region of a mask is marked.
pub open spec fn marked(mask: u64, region: u64) -> bool {
    (mask >> region) & 1 == 1
}

proof fn lemma_mark(mask: u64, region: u64, other: u64)
    requires
        region < 64,
        other < 64,
    ensures
        marked(mask | (1u64 << region), other) <==> other == region || marked(mask, other),
        !marked(0, other),
{
    assert((((mask | (1u64 << region)) >> other) & 1 == 1) <==> (other == region || (mask >> other)
        & 1 == 1)) by (bit_vector)
        requires
            region < 64,
            other < 64,
    ;
    assert((0u64 >> other) & 1 == 0) by (bit_vector)
        requires
            other < 64,
    ;
}

/// Each region is of 1024 offsets. An edge that is inserted marks the region of its offset, and no
/// other; an edge that is refused marks none.
pub proof fn law_insert_marks(
    g: EdgeGroupView,
    offset: u64,
    edge_id: EdgeId,
    from: NodeId,
    to: NodeId,
    values: RowView,
    region: u64,
)
    requires
        g.valid(),
        g.sound(),
        region < 64,
    ensures
        ({
            let i = g.insert(offset, edge_id, from, to, values);
            &&& i.result is Ok ==> g.offset_base <= offset < g.offset_base + 65536
            &&& marked(i.state.dirty, region) <==> marked(g.dirty, region) || i.result is Ok
                && g.offset_base + 1024 * region <= offset < g.offset_base + 1024 * (region + 1)
        }),
{
    if g.local_key(offset) is Some {
        let key = g.local_key(offset)->Some_0;
        lemma_mark(g.dirty, key / 1024, region);
    }
}

/// Deleting the row of an edge marks the region of the offset at which it was found, and no other.
pub proof fn law_delete_marks(g: EdgeGroupView, row: u64, offset: u64, region: u64)
    requires
        g.regular(),
        g.found(offset).contains(row),
        region < 64,
    ensures
        marked(g.delete(row).dirty, region) <==> marked(g.dirty, region) || g.offset_base + 1024
            * region <= offset < g.offset_base + 1024 * (region + 1),
{
    let i = lemma_found_listed(g, offset, row);
    assert(g.lists_row(row)(i));
    search::lemma_first_where(g.index.len(), g.lists_row(row));
    let p = g.list_with(row)->Some_0;
    assert(g.lists_row(row)(p));
    assert(p == i);
    lemma_mark(g.dirty, g.index[i].0 / 1024, region);
}

/// No region of a new group is marked.
pub proof fn law_new_unmarked(
    group_idx: NodeGroupIdx,
    direction: Direction,
    schema: Seq<(ColumnId, DataType)>,
    region: u64,
)
    requires
        region < 64,
    ensures
        !marked(EdgeGroupView::empty(group_idx, direction, schema).dirty, region),
{
    lemma_mark(0, 0, region);
}

} // verus!
