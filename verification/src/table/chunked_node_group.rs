//! Chunks of rows of a node group.

use vstd::prelude::*;

use crate::config::StorageConfig;
use crate::error::{ErrorView, StorageError};
use crate::io::binary;
use crate::io::binary::{
    bitmask, holds_at, ints_at, ints_le, low_u32, mask_len, overwrite, u32_at, u32_le, u64_at,
    u64_le, unmasked, words_at, words_le,
};
use crate::io::codec::{concat, Decoded};
use crate::io::codec;
use crate::search::{count_false, first_where};
use crate::search;
use crate::table::column::{ColumnChunk, ColumnView};
use crate::table::column;
use crate::table::row;
use crate::table::row::{
    append_all, column_blobs, column_lens, columns_view, columns_wf, empty_columns, first_mismatch,
    has_schema, parse_columns, read_all, row_view, with_row, RowView,
};
use crate::types::{ColumnId, DataType, NodeId, PropertyValue, RowIdx};

verus! {

broadcast use binary::group_lengths;

pub struct ChunkedNodeGroup {
    start_row_idx: RowIdx,
    num_rows: u64,
    capacity: u64,
    columns: Vec<ColumnChunk>,
    node_ids: Vec<NodeId>,
    delete_mask: Vec<bool>,
}

// ---------------------------------------------------------------------------------------------
// The model

/// What a [`ChunkedNodeGroup`] stands for: its first row in the group, its columns, and for each
/// row the node and whether it was deleted.
#[verifier::ext_equal]
pub struct ChunkView {
    pub start_row: u64,
    pub columns: Seq<ColumnView>,
    pub node_ids: Seq<NodeId>,
    pub deleted: Seq<bool>,
}

/// What inserting a row does: the state after it, and the row or the error.
pub struct Inserted<S> {
    pub state: S,
    pub result: Result<u64, ErrorView>,
}

/// Plain numbers of node ids.
pub open spec fn id_words(ids: Seq<NodeId>) -> Seq<u64> {
    Seq::new(ids.len(), |i: int| ids[i].0)
}

pub open spec fn ids_of_words(words: Seq<u64>) -> Seq<NodeId> {
    Seq::new(words.len(), |i: int| NodeId(words[i]))
}

impl ChunkView {
    /// A chunk without rows.
    pub open spec fn empty(start_row: u64, schema: Seq<(ColumnId, DataType)>) -> ChunkView {
        ChunkView {
            start_row,
            columns: empty_columns(schema),
            node_ids: Seq::empty(),
            deleted: Seq::empty(),
        }
    }

    /// The number of rows, deleted ones included.
    pub open spec fn len(self) -> nat {
        self.node_ids.len()
    }

    pub open spec fn valid(self) -> bool {
        &&& self.deleted.len() == self.node_ids.len()
        &&& self.node_ids.len() <= u64::MAX
        &&& forall|i: int| 0 <= i < self.columns.len() ==> (#[trigger] self.columns[i]).valid()
    }

    /// Each column has as many rows as the chunk.
    pub open spec fn aligned(self) -> bool {
        forall|i: int|
            0 <= i < self.columns.len() ==> (#[trigger] self.columns[i]).len() == self.len()
    }

    pub open spec fn is_full(self) -> bool {
        self.len() >= StorageConfig::CHUNKED_NODE_GROUP_CAPACITY
    }

    /// The row of the group is one of this chunk.
    pub open spec fn contains(self, row: u64) -> bool {
        self.start_row <= row < self.start_row + self.len()
    }

    /// The row is there and not deleted.
    pub open spec fn live(self, local: int) -> bool {
        0 <= local < self.len() && !self.deleted[local]
    }

    /// A row is inserted after the type of every value was checked.
    pub open spec fn insert(self, node_id: NodeId, values: RowView) -> Inserted<ChunkView> {
        if self.is_full() {
            Inserted { state: self, result: Err(ErrorView::NodeGroupFull) }
        } else {
            match first_mismatch(self.columns, values, self.columns.len()) {
                Some(e) => Inserted { state: self, result: Err(e) },
                None => match append_all(self.columns, values) {
                    (columns, Some(e)) => Inserted {
                        state: ChunkView { columns, ..self },
                        result: Err(e),
                    },
                    (columns, None) => Inserted {
                        state: ChunkView {
                            columns,
                            node_ids: self.node_ids.push(node_id),
                            deleted: self.deleted.push(false),
                            ..self
                        },
                        result: Ok((self.start_row + self.len()) as u64),
                    },
                },
            }
        }
    }

    /// What reading a row gives; `None` where it was deleted.
    pub open spec fn read(self, local: u64) -> Result<Option<RowView>, ErrorView> {
        if local >= self.len() {
            Err(ErrorView::RowOutOfBounds { row: local, len: self.len() as u64 })
        } else if self.deleted[local as int] {
            Ok(None)
        } else {
            match read_all(self.columns, local) {
                Ok(values) => Ok(Some(values)),
                Err(e) => Err(e),
            }
        }
    }

    pub open spec fn holds_node(self, node_id: NodeId) -> spec_fn(int) -> bool {
        |i: int| self.node_ids[i] == node_id && !self.deleted[i]
    }

    /// The first live row of a node.
    pub open spec fn find(self, node_id: NodeId) -> Option<int> {
        first_where(self.len(), self.holds_node(node_id))
    }

    pub open spec fn node_at(self, local: u64) -> Result<NodeId, ErrorView> {
        if local < self.len() {
            Ok(self.node_ids[local as int])
        } else {
            Err(ErrorView::RowOutOfBounds { row: local, len: self.len() as u64 })
        }
    }

    pub open spec fn delete(self, local: int) -> ChunkView {
        ChunkView { deleted: self.deleted.update(local, true), ..self }
    }

    /// The chunk on disk up to its columns.
    pub open spec fn head(self) -> Seq<u8> {
        u64_le(self.start_row) + u64_le(self.len() as u64) + u32_le(
            low_u32(self.columns.len() as int),
        ) + ints_le(column_lens(self.columns)) + words_le(id_words(self.node_ids)) + bitmask(
            self.deleted,
        )
    }

    /// The chunk on disk: first row, number of rows, number of columns, length of each column,
    /// node ids, bit-packed delete mask, columns.
    #[verifier::opaque]
    pub open spec fn encoding(self) -> Seq<u8> {
        self.head() + concat(column_blobs(self.columns))
    }

    /// The lengths can be written in 32 bits.
    pub open spec fn fits(self) -> bool {
        &&& self.columns.len() <= u32::MAX
        &&& forall|i: int|
            0 <= i < self.columns.len() ==> (#[trigger] self.columns[i]).encoding().len()
                <= u32::MAX
    }

    /// The chunk that `buf` holds.
    #[verifier::opaque]
    pub open spec fn parse(schema: Seq<(ColumnId, DataType)>, buf: Seq<u8>) -> Decoded<ChunkView> {
        if buf.len() < 20 {
            None
        } else {
            let rows = u64_at(buf, 8) as nat;
            let num_columns = u32_at(buf, 16) as nat;
            let ids_at = 20 + 4 * num_columns;
            let mask_at = ids_at + 8 * rows;
            let columns_at = mask_at + mask_len(rows);
            if columns_at > buf.len() {
                None
            } else {
                match parse_columns(
                    schema,
                    buf,
                    columns_at as int,
                    ints_at(buf, 20, num_columns),
                ) {
                    Some(Ok(columns)) => Some(
                        Ok(
                            ChunkView {
                                start_row: u64_at(buf, 0),
                                columns,
                                node_ids: ids_of_words(words_at(buf, ids_at as int, rows)),
                                deleted: unmasked(
                                    buf.subrange(mask_at as int, columns_at as int),
                                    rows,
                                ),
                            },
                        ),
                    ),
                    Some(Err(e)) => Some(Err(e)),
                    None => None,
                }
            }
        }
    }
}

// ---------------------------------------------------------------------------------------------
// The chunk

impl View for ChunkedNodeGroup {
    type V = ChunkView;

    closed spec fn view(&self) -> ChunkView {
        ChunkView {
            start_row: self.start_row_idx,
            columns: columns_view(self.columns@),
            node_ids: self.node_ids@,
            deleted: self.delete_mask@,
        }
    }
}

impl ChunkedNodeGroup {
    pub closed spec fn wf(&self) -> bool {
        &&& self.capacity == StorageConfig::CHUNKED_NODE_GROUP_CAPACITY
        &&& self.node_ids@.len() == self.num_rows
        &&& self.delete_mask@.len() == self.num_rows
        &&& columns_wf(self.columns@)
    }

    pub proof fn lemma_wf(&self)
        requires
            self.wf(),
        ensures
            self@.valid(),
    {
        row::lemma_columns_valid(self.columns@);
    }

    pub fn new(start_row_idx: RowIdx, schema_columns: &[(ColumnId, DataType)]) -> (c: Self)
        ensures
            c.wf(),
            c@ == ChunkView::empty(start_row_idx, schema_columns@),
    {
        let columns = row::new_columns(schema_columns);
        let c = ChunkedNodeGroup {
            start_row_idx,
            num_rows: 0,
            capacity: StorageConfig::CHUNKED_NODE_GROUP_CAPACITY,
            columns,
            node_ids: Vec::with_capacity(2048),
            delete_mask: Vec::with_capacity(2048),
        };
        assert(c@ =~= ChunkView::empty(start_row_idx, schema_columns@));
        c
    }

    #[must_use]
    pub fn start_row_idx(&self) -> (r: RowIdx)
        ensures
            r == self@.start_row,
    {
        self.start_row_idx
    }

    #[must_use]
    pub fn num_rows(&self) -> (n: u64)
        requires
            self.wf(),
        ensures
            n == self@.len(),
    {
        self.num_rows
    }

    /// How many rows are not deleted.
    #[must_use]
    pub fn num_live_rows(&self) -> (n: u64)
        ensures
            n == count_false(self@.deleted),
    {
        search::count_live(&self.delete_mask)
    }

    #[must_use]
    pub fn is_full(&self) -> (b: bool)
        requires
            self.wf(),
        ensures
            b == self@.is_full(),
    {
        self.num_rows >= self.capacity
    }

    /// One past the last row.
    #[must_use]
    pub fn end_row_idx(&self) -> (r: RowIdx)
        requires
            self.wf(),
            self@.start_row + self@.len() <= u64::MAX,
        ensures
            r == self@.start_row + self@.len(),
    {
        self.start_row_idx + self.num_rows
    }

    #[must_use]
    pub fn contains(&self, row_idx: RowIdx) -> (b: bool)
        requires
            self.wf(),
        ensures
            b == self@.contains(row_idx),
    {
        row_idx >= self.start_row_idx && row_idx - self.start_row_idx < self.num_rows
    }

    /// Adds a row for a node and gives its row in the group. Columns past the end of `values` get
    /// nulls, values past the last column are left out.
    pub fn insert_row(&mut self, node_id: NodeId, values: &[Option<PropertyValue>]) -> (r: Result<
        RowIdx,
        StorageError,
    >)
        requires
            old(self).wf(),
            old(self)@.start_row + old(self)@.len() < u64::MAX,
        ensures
            final(self).wf(),
            ({
                let i = old(self)@.insert(node_id, row_view(values@));
                &&& final(self)@ == i.state
                &&& match r {
                    Ok(row) => i.result == Ok::<u64, ErrorView>(row),
                    Err(e) => i.result == Err::<u64, ErrorView>(e@),
                }
            }),
    {
        if self.is_full() {
            return Err(StorageError::NodeGroupFull);
        }
        match row::check_types(&self.columns, values) {
            Ok(()) => {},
            Err(e) => {
                return Err(e);
            },
        }
        match row::append_row(&mut self.columns, values) {
            Ok(()) => {},
            Err(e) => {
                return Err(e);
            },
        }
        self.node_ids.push(node_id);
        self.delete_mask.push(false);
        let local_row: u64 = self.num_rows;
        self.num_rows = self.num_rows + 1;
        Ok(self.start_row_idx + local_row)
    }

    /// The values of a row, or `None` where it was deleted.
    pub fn get_row_local(&self, local_row: RowIdx) -> (r: Result<
        Option<Vec<Option<PropertyValue>>>,
        StorageError,
    >)
        requires
            self.wf(),
        ensures
            match r {
                Ok(Some(v)) => self@.read(local_row) == Ok::<Option<RowView>, ErrorView>(
                    Some(row_view(v@)),
                ),
                Ok(None) => self@.read(local_row) == Ok::<Option<RowView>, ErrorView>(None),
                Err(e) => self@.read(local_row) == Err::<Option<RowView>, ErrorView>(e@),
            },
    {
        if local_row >= self.num_rows {
            return Err(StorageError::RowOutOfBounds { row: local_row, len: self.num_rows });
        }
        let rows: usize = self.delete_mask.len();
        assert(local_row < rows);
        if self.delete_mask[local_row as usize] {
            return Ok(None);
        }
        match row::read_row(&self.columns, local_row) {
            Ok(v) => Ok(Some(v)),
            Err(e) => Err(e),
        }
    }

    /// The first row of the node that is not deleted.
    #[must_use]
    pub fn find_node_local(&self, node_id: NodeId) -> (r: Option<RowIdx>)
        requires
            self.wf(),
        ensures
            match r {
                Some(row) => self@.find(node_id) == Some(row as int),
                None => self@.find(node_id) is None,
            },
    {
        let ghost p = self@.holds_node(node_id);
        let mut i: usize = 0;
        while i < self.node_ids.len()
            invariant
                self.wf(),
                i <= self.node_ids@.len(),
                p == self@.holds_node(node_id),
                forall|j: int| 0 <= j < i ==> !#[trigger] p(j),
            decreases self.node_ids@.len() - i,
        {
            if self.node_ids[i].0 == node_id.0 && !self.delete_mask[i] {
                proof {
                    assert(p(i as int));
                    search::lemma_first_where_is(self@.len(), p, i as int);
                }
                return Some(i as u64);
            }
            i = i + 1;
        }
        proof {
            search::lemma_first_where_none(self@.len(), p);
        }
        None
    }

    /// The node of a row, deleted or not.
    pub fn node_id_at_local(&self, local_row: RowIdx) -> (r: Result<NodeId, StorageError>)
        requires
            self.wf(),
        ensures
            match r {
                Ok(id) => self@.node_at(local_row) == Ok::<NodeId, ErrorView>(id),
                Err(e) => self@.node_at(local_row) == Err::<NodeId, ErrorView>(e@),
            },
    {
        let rows: usize = self.node_ids.len();
        if local_row < rows as u64 {
            Ok(self.node_ids[local_row as usize])
        } else {
            Err(StorageError::RowOutOfBounds { row: local_row, len: self.num_rows })
        }
    }

    /// Marks a row as deleted.
    pub fn delete_row_local(&mut self, local_row: RowIdx) -> (r: Result<(), StorageError>)
        requires
            old(self).wf(),
        ensures
            final(self).wf(),
            match r {
                Ok(()) => local_row < old(self)@.len() && final(self)@ == old(self)@.delete(
                    local_row as int,
                ),
                Err(e) => {
                    &&& local_row >= old(self)@.len()
                    &&& final(self)@ == old(self)@
                    &&& e@ == (ErrorView::RowOutOfBounds {
                        row: local_row,
                        len: old(self)@.len() as u64,
                    })
                },
            },
    {
        let rows: usize = self.delete_mask.len();
        if local_row < rows as u64 {
            self.delete_mask.set(local_row as usize, true);
            Ok(())
        } else {
            Err(StorageError::RowOutOfBounds { row: local_row, len: self.num_rows })
        }
    }

    /// The number of bytes that [`ChunkedNodeGroup::serialize`] writes.
    pub fn serialized_len(&self) -> (len: usize)
        requires
            self.wf(),
            self@.encoding().len() <= usize::MAX,
        ensures
            len == self@.encoding().len(),
    {
        self.checked_len().unwrap()
    }

    /// Like [`ChunkedNodeGroup::serialized_len`]; `None` where the number is too large.
    pub fn checked_len(&self) -> (len: Option<usize>)
        requires
            self.wf(),
        ensures
            match len {
                Some(n) => n == self@.encoding().len(),
                None => self@.encoding().len() > usize::MAX,
            },
    {
        reveal(ChunkView::encoding);
        let rows: usize = self.node_ids.len();
        let num_columns: usize = self.columns.len();
        let head: u128 = 20 + 4 * num_columns as u128 + 8 * rows as u128 + binary::bitmask_len(
            rows,
        ) as u128;
        assert(head == self@.head().len());
        if head > usize::MAX as u128 {
            return None;
        }
        row::add_columns_len(&self.columns, head as usize)
    }

    /// Writes the chunk at the start of `buf` and gives the number of bytes written.
    pub fn serialize(&self, buf: &mut [u8]) -> (r: Result<usize, StorageError>)
        requires
            self.wf(),
            self@.encoding().len() <= old(buf)@.len(),
        ensures
            r == Ok::<usize, StorageError>(self@.encoding().len() as usize),
            final(buf)@ == overwrite(old(buf)@, 0, self@.encoding()),
            final(buf)@.len() == old(buf)@.len(),
    {
        let mut pos: usize = 0;
        self.write_to(buf, &mut pos);
        Ok(pos)
    }

    /// Writes the chunk at `pos` and moves `pos` past it.
    pub fn write_to(&self, buf: &mut [u8], pos: &mut usize)
        requires
            self.wf(),
            *old(pos) + self@.encoding().len() <= old(buf)@.len(),
        ensures
            final(buf)@ == overwrite(old(buf)@, *old(pos) as int, self@.encoding()),
            final(buf)@.len() == old(buf)@.len(),
            *final(pos) == *old(pos) + self@.encoding().len(),
    {
        reveal(ChunkView::encoding);
        let ghost start = *pos as int;
        let end: usize = buf.len();
        assert(concat(column_blobs(self@.columns)).len() <= end);
        self.write_head(buf, pos);
        row::write_columns(&self.columns, buf, pos);
        proof {
            binary::lemma_overwrite_append(
                old(buf)@,
                start,
                self@.head(),
                concat(column_blobs(self@.columns)),
            );
        }
    }

    fn write_head(&self, buf: &mut [u8], pos: &mut usize)
        requires
            self.wf(),
            *old(pos) + self@.head().len() <= old(buf)@.len(),
            concat(column_blobs(self@.columns)).len() <= usize::MAX,
        ensures
            final(buf)@ == overwrite(old(buf)@, *old(pos) as int, self@.head()),
            final(buf)@.len() == old(buf)@.len(),
            *final(pos) == *old(pos) + self@.head().len(),
    {
        let ghost b0 = buf@;
        let ghost start = *pos as int;
        let ghost lens = column_lens(self@.columns);
        let ghost ids = id_words(self@.node_ids);
        let ghost count = low_u32(self@.columns.len() as int);
        let ghost e1 = u64_le(self@.start_row);
        let ghost e2 = e1 + u64_le(self@.len() as u64);
        let ghost e3 = e2 + u32_le(count);
        let ghost e4 = e3 + ints_le(lens);
        let ghost e5 = e4 + words_le(ids);
        assert(self@.head() == e5 + bitmask(self@.deleted));
        binary::write_u64(buf, pos, self.start_row_idx);
        binary::write_u64(buf, pos, self.num_rows);
        proof {
            binary::lemma_overwrite_append(b0, start, e1, u64_le(self@.len() as u64));
        }
        binary::write_u32(buf, pos, binary::to_low_u32(self.columns.len()));
        proof {
            binary::lemma_overwrite_append(b0, start, e2, u32_le(count));
        }
        row::write_column_lens(&self.columns, buf, pos);
        proof {
            binary::lemma_overwrite_append(b0, start, e3, ints_le(lens));
        }
        write_node_ids(&self.node_ids, buf, pos);
        proof {
            binary::lemma_overwrite_append(b0, start, e4, words_le(ids));
        }
        let mask = binary::pack_bitmask(self.delete_mask.as_slice());
        binary::write_bytes(buf, pos, mask.as_slice());
        proof {
            binary::lemma_overwrite_append(b0, start, e5, bitmask(self@.deleted));
        }
    }

    /// Reads a chunk with the columns of a schema from the start of `buf`.
    pub fn deserialize(schema_columns: &[(ColumnId, DataType)], buf: &[u8]) -> (r: Result<
        Self,
        StorageError,
    >)
        requires
            ChunkView::parse(schema_columns@, buf@) is Some,
        ensures
            match r {
                Ok(c) => c.wf() && ChunkView::parse(schema_columns@, buf@) == Some(
                    Ok::<ChunkView, ErrorView>(c@),
                ),
                Err(e) => ChunkView::parse(schema_columns@, buf@) == Some(
                    Err::<ChunkView, ErrorView>(e@),
                ),
            },
    {
        Self::try_deserialize(schema_columns, buf).unwrap()
    }

    /// Like [`ChunkedNodeGroup::deserialize`], for any bytes: `None` where a length or an offset
    /// in them points outside of `buf`.
    pub fn try_deserialize(schema_columns: &[(ColumnId, DataType)], buf: &[u8]) -> (r: Option<
        Result<Self, StorageError>,
    >)
        ensures
            match r {
                Some(Ok(c)) => c.wf() && ChunkView::parse(schema_columns@, buf@) == Some(
                    Ok::<ChunkView, ErrorView>(c@),
                ),
                Some(Err(e)) => ChunkView::parse(schema_columns@, buf@) == Some(
                    Err::<ChunkView, ErrorView>(e@),
                ),
                None => ChunkView::parse(schema_columns@, buf@) is None,
            },
    {
        reveal(ChunkView::parse);
        if buf.len() < 20 {
            return None;
        }
        let mut pos: usize = 0;
        let start_row_idx: u64 = binary::read_u64(buf, &mut pos);
        let num_rows: u64 = binary::read_u64(buf, &mut pos);
        let num_columns: usize = binary::read_u32(buf, &mut pos) as usize;
        if num_columns > (buf.len() - pos) / 4 {
            return None;
        }
        let lens = read_u32s(buf, &mut pos, num_columns);
        if num_rows > ((buf.len() - pos) / 8) as u64 {
            return None;
        }
        let rows: usize = num_rows as usize;
        let node_ids = read_node_ids(buf, &mut pos, rows);
        let mask_bytes: usize = binary::bitmask_len(rows);
        if mask_bytes > buf.len() - pos {
            return None;
        }
        let mask = binary::read_bytes(buf, &mut pos, mask_bytes);
        let delete_mask = binary::unpack_bitmask(mask, rows);
        match row::try_read_columns(schema_columns, buf, pos, &lens) {
            Some(Ok(columns)) => {
                Some(
                    Ok(
                        ChunkedNodeGroup {
                            start_row_idx,
                            num_rows,
                            capacity: StorageConfig::CHUNKED_NODE_GROUP_CAPACITY,
                            columns,
                            node_ids,
                            delete_mask,
                        },
                    ),
                )
            },
            Some(Err(e)) => Some(Err(e)),
            None => None,
        }
    }
}

/// Writes node ids as words.
pub fn write_node_ids(ids: &Vec<NodeId>, buf: &mut [u8], pos: &mut usize)
    requires
        *old(pos) + 8 * ids@.len() <= old(buf)@.len(),
    ensures
        final(buf)@ == overwrite(old(buf)@, *old(pos) as int, words_le(id_words(ids@))),
        final(buf)@.len() == old(buf)@.len(),
        *final(pos) == *old(pos) + 8 * ids@.len(),
{
    let ghost start = *pos as int;
    let ghost words = id_words(ids@);
    let mut i: usize = 0;
    proof {
        binary::lemma_overwrite_empty(buf@, start);
        assert(words_le(words.take(0)) =~= Seq::empty());
    }
    while i < ids.len()
        invariant
            i <= ids@.len(),
            words == id_words(ids@),
            start == *old(pos),
            *pos == start + 8 * i,
            start + 8 * ids@.len() <= old(buf)@.len(),
            buf@.len() == old(buf)@.len(),
            buf@ == overwrite(old(buf)@, start, words_le(words.take(i as int))),
        decreases ids@.len() - i,
    {
        let w: u64 = ids[i].0;
        binary::write_u64(buf, pos, w);
        proof {
            assert(words.take(i + 1) =~= words.take(i as int).push(w));
            binary::lemma_overwrite_append(
                old(buf)@,
                start,
                words_le(words.take(i as int)),
                u64_le(w),
            );
            binary::lemma_words_push(words.take(i as int), w);
        }
        i = i + 1;
    }
    assert(words.take(ids@.len() as int) =~= words);
}

/// Reads `n` node ids.
pub fn read_node_ids(buf: &[u8], pos: &mut usize, n: usize) -> (ids: Vec<NodeId>)
    requires
        *old(pos) + 8 * n <= buf@.len(),
    ensures
        ids@ == ids_of_words(words_at(buf@, *old(pos) as int, n as nat)),
        ids@.len() == n,
        *final(pos) == *old(pos) + 8 * n,
{
    let mut ids: Vec<NodeId> = Vec::new();
    while ids.len() < n
        invariant
            ids@.len() <= n,
            *pos == *old(pos) + 8 * ids@.len(),
            *old(pos) + 8 * n <= buf@.len(),
            forall|i: int|
                0 <= i < ids@.len() ==> ids@[i] == NodeId(u64_at(buf@, *old(pos) + 8 * i)),
        decreases n - ids@.len(),
    {
        let w: u64 = binary::read_u64(buf, pos);
        ids.push(NodeId(w));
    }
    assert(ids@ =~= ids_of_words(words_at(buf@, *old(pos) as int, n as nat)));
    ids
}

/// Reads `n` 32-bit numbers.
pub fn read_u32s(buf: &[u8], pos: &mut usize, n: usize) -> (v: Vec<u32>)
    requires
        *old(pos) + 4 * n <= buf@.len(),
    ensures
        v@ == ints_at(buf@, *old(pos) as int, n as nat),
        *final(pos) == *old(pos) + 4 * n,
{
    let mut v: Vec<u32> = Vec::new();
    while v.len() < n
        invariant
            v@.len() <= n,
            *pos == *old(pos) + 4 * v@.len(),
            *old(pos) + 4 * n <= buf@.len(),
            forall|i: int| 0 <= i < v@.len() ==> v@[i] == u32_at(buf@, *old(pos) + 4 * i),
        decreases n - v@.len(),
    {
        let w: u32 = binary::read_u32(buf, pos);
        v.push(w);
    }
    assert(v@ =~= ints_at(buf@, *old(pos) as int, n as nat));
    v
}

// ---------------------------------------------------------------------------------------------
// Laws

/// In an aligned chunk that has room, a row whose values are of the columns' types is taken; it
/// goes behind the other rows, which are as they were, and is read back.
pub proof fn law_insert_then_read(c: ChunkView, node_id: NodeId, values: RowView, local: u64)
    requires
        c.valid(),
        c.aligned(),
        !c.is_full(),
        c.start_row + c.len() <= u64::MAX,
        first_mismatch(c.columns, values, c.columns.len()) is None,
    ensures
        ({
            let i = c.insert(node_id, values);
            &&& i.result == Ok::<u64, ErrorView>((c.start_row + c.len()) as u64)
            &&& i.state.valid()
            &&& i.state.aligned()
            &&& i.state.len() == c.len() + 1
            &&& i.state.read(c.len() as u64) == Ok::<Option<RowView>, ErrorView>(
                Some(Seq::new(c.columns.len(), |k: int| row::value_for(values, k))),
            )
            &&& i.state.node_at(c.len() as u64) == Ok::<NodeId, ErrorView>(node_id)
            &&& local < c.len() ==> i.state.read(local) == c.read(local)
        }),
{
    let n = c.columns.len();
    row::lemma_no_mismatch(c.columns, values, n);
    assert forall|k: int| 0 <= k < n implies (#[trigger] c.columns[k]).refusal(
        row::value_for(values, k),
    ) is None by {
        assert(row::mismatch(c.columns[k], row::value_for(values, k)) is None);
    }
    row::lemma_append_accepted(c.columns, values, n);
    let state = c.insert(node_id, values).state;
    assert(state.columns == with_row(c.columns, values));
    assert forall|k: int| 0 <= k < n implies (#[trigger] state.columns[k]).valid()
        && state.columns[k].len() == c.len() + 1 by {
        column::law_append_then_read(c.columns[k], row::value_for(values, k), 0);
    }
    row::lemma_read_all_values(state.columns, c.len() as u64);
    assert(Seq::new(n, |k: int| state.columns[k].value(c.len() as int)) =~= Seq::new(
        n,
        |k: int| row::value_for(values, k),
    ));
    if local < c.len() {
        row::lemma_read_all_values(state.columns, local);
        row::lemma_read_all_values(c.columns, local);
        assert(Seq::new(n, |k: int| state.columns[k].value(local as int)) =~= Seq::new(
            n,
            |k: int| c.columns[k].value(local as int),
        ));
    }
}

/// A deleted row reads as nothing, no row of its node is found there, and every other row is as
/// it was.
pub proof fn law_delete_hides(c: ChunkView, local: u64, other: u64)
    requires
        c.valid(),
        local < c.len(),
    ensures
        c.delete(local as int).valid(),
        c.delete(local as int).read(local) == Ok::<Option<RowView>, ErrorView>(None),
        c.delete(local as int).find(c.node_ids[local as int]) != Some(local as int),
        other != local ==> c.delete(local as int).read(other) == c.read(other),
        c.live(local as int) ==> count_false(c.delete(local as int).deleted) == count_false(
            c.deleted,
        ) - 1,
{
    let d = c.delete(local as int);
    let p = d.holds_node(c.node_ids[local as int]);
    search::lemma_first_where(d.len(), p);
    assert(!p(local as int));
    search::lemma_count_false_set(c.deleted, local as int);
}

/// What a buffer holds that starts with a start row, two counts, lengths, ids and a mask.
proof fn lemma_head_holds(
    buf: Seq<u8>,
    start: u64,
    rows: u64,
    count: u32,
    lens: Seq<u32>,
    ids: Seq<u64>,
    mask: Seq<u8>,
)
    requires
        holds_at(
            buf,
            0,
            u64_le(start) + u64_le(rows) + u32_le(count) + ints_le(lens) + words_le(ids) + mask,
        ),
    ensures
        buf.len() >= 20 + 4 * lens.len() + 8 * ids.len() + mask.len(),
        u64_at(buf, 0) == start,
        u64_at(buf, 8) == rows,
        u32_at(buf, 16) == count,
        ints_at(buf, 20, lens.len()) == lens,
        words_at(buf, 20 + 4 * lens.len() as int, ids.len()) == ids,
        buf.subrange(
            (20 + 4 * lens.len() + 8 * ids.len()) as int,
            (20 + 4 * lens.len() + 8 * ids.len() + mask.len()) as int,
        ) == mask,
{
    let e1 = u64_le(start);
    let e2 = e1 + u64_le(rows);
    let e3 = e2 + u32_le(count);
    let e4 = e3 + ints_le(lens);
    let e5 = e4 + words_le(ids);
    assert(e3.len() == 20);
    assert(e4.len() == 20 + 4 * lens.len());
    assert(e5.len() == 20 + 4 * lens.len() + 8 * ids.len());
    binary::lemma_holds_append(buf, 0, e5, mask);
    binary::lemma_holds_append(buf, 0, e4, words_le(ids));
    binary::lemma_holds_append(buf, 0, e3, ints_le(lens));
    binary::lemma_holds_append(buf, 0, e2, u32_le(count));
    binary::lemma_holds_append(buf, 0, e1, u64_le(rows));
    binary::lemma_u64_at(buf, 0, start);
    binary::lemma_u64_at(buf, 8, rows);
    binary::lemma_u32_at(buf, 16, count);
    binary::lemma_ints_at(buf, 20, lens);
    binary::lemma_words_at(buf, 20 + 4 * lens.len() as int, ids);
    binary::lemma_holds_subrange(buf, (20 + 4 * lens.len() + 8 * ids.len()) as int, mask);
}

proof fn lemma_chunk_head(c: ChunkView, buf: Seq<u8>)
    requires
        c.deleted.len() == c.node_ids.len(),
        c.len() <= u64::MAX,
        c.columns.len() <= u32::MAX,
        holds_at(buf, 0, c.head()),
    ensures
        ({
            let ids_at = 20 + 4 * c.columns.len();
            let mask_at = ids_at + 8 * c.len();
            let columns_at = mask_at + mask_len(c.len());
            &&& 20 <= columns_at <= buf.len()
            &&& c.head().len() == columns_at
            &&& u64_at(buf, 0) == c.start_row
            &&& u64_at(buf, 8) == c.len()
            &&& u32_at(buf, 16) == c.columns.len()
            &&& ints_at(buf, 20, c.columns.len()) == column_lens(c.columns)
            &&& ids_of_words(words_at(buf, ids_at as int, c.len())) == c.node_ids
            &&& unmasked(buf.subrange(mask_at as int, columns_at as int), c.len()) == c.deleted
        }),
{
    let lens = column_lens(c.columns);
    let ids = id_words(c.node_ids);
    let mask = bitmask(c.deleted);
    let count = c.columns.len() as u32;
    assert(low_u32(c.columns.len() as int) == count);
    assert(c.head() == u64_le(c.start_row) + u64_le(c.len() as u64) + u32_le(count) + ints_le(lens)
        + words_le(ids) + mask);
    lemma_head_holds(buf, c.start_row, c.len() as u64, count, lens, ids, mask);
    assert(mask.len() == mask_len(c.len()));
    assert(c.head().len() == 20 + 4 * c.columns.len() + 8 * c.len() + mask_len(c.len()));
    assert(ids_of_words(ids) =~= c.node_ids);
    binary::law_bitmask_roundtrip(c.deleted);
}

/// A chunk that was serialized is read back as it was, whatever follows it.
pub proof fn law_chunk_roundtrip(c: ChunkView, schema: Seq<(ColumnId, DataType)>, buf: Seq<u8>)
    requires
        c.valid(),
        c.fits(),
        has_schema(c.columns, schema),
        holds_at(buf, 0, c.encoding()),
    ensures
        ChunkView::parse(schema, buf) == Some(Ok::<ChunkView, ErrorView>(c)),
{
    reveal(ChunkView::encoding);
    reveal(ChunkView::parse);
    binary::lemma_holds_append(buf, 0, c.head(), concat(column_blobs(c.columns)));
    lemma_chunk_head(c, buf);
    row::lemma_columns_roundtrip(c.columns, schema, buf, c.head().len() as int);
}

/// A chunk whose serialized form is counted in 32 bits can be written.
pub proof fn lemma_small_chunk_fits(c: ChunkView)
    requires
        c.encoding().len() <= u32::MAX,
    ensures
        c.fits(),
{
    reveal(ChunkView::encoding);
    let blobs = column_blobs(c.columns);
    assert(c.head().len() >= 4 * c.columns.len());
    assert forall|i: int| 0 <= i < c.columns.len() implies (
    #[trigger] c.columns[i]).encoding().len() <= u32::MAX by {
        codec::lemma_concat_take(blobs, i);
        codec::lemma_blob_start_mono(blobs, i + 1, blobs.len() as int);
        assert(blobs[i] == c.columns[i].encoding());
    }
}

} // verus!
