//! Node groups.

use vstd::prelude::*;
use vstd::slice::slice_subrange;
use vstd::string::StringExecFns;

use crate::catalog::{column_schema, columns_of, NodeLabelEntry};
use crate::config::StorageConfig;
use crate::error::{ErrorView, StorageError};
use crate::io::binary;
use crate::io::binary::{
    holds_at, ints_at, ints_le, low_u32, overwrite, u32_at, u32_le, u64_le,
};
use crate::io::codec;
use crate::io::codec::{blob_start, collect, concat, Decoded};
use crate::io::page::{join_pages, pages_of, pages_view, split_into_pages, Page};
use crate::io::page;
use crate::search;
use crate::search::{count_false, first_where};
use crate::table::chunked_node_group::{read_u32s, ChunkView, ChunkedNodeGroup, Inserted};
use crate::table::chunked_node_group;
use crate::table::row;
use crate::table::row::{
    empty_columns, first_mismatch, has_schema, row_view, sum_upto, RowView,
};
use crate::text::{decimal, push_decimal};
use crate::types::{ColumnId, DataType, NodeGroupIdx, NodeId, PropertyValue, RowIdx};

verus! {

broadcast use binary::group_lengths;

pub struct NodeGroup {
    group_idx: NodeGroupIdx,
    chunked_groups: Vec<ChunkedNodeGroup>,
    column_schema: Vec<(ColumnId, DataType)>,
}

// ---------------------------------------------------------------------------------------------
// The model

/// What a [`NodeGroup`] stands for.
#[verifier::ext_equal]
pub struct GroupView {
    pub group_idx: NodeGroupIdx,
    pub chunks: Seq<ChunkView>,
    pub schema: Seq<(ColumnId, DataType)>,
}

/// What a list of chunks stands for.
pub open spec fn chunks_view(chunks: Seq<ChunkedNodeGroup>) -> Seq<ChunkView> {
    Seq::new(chunks.len(), |i: int| chunks[i]@)
}

/// The live rows of the first `n` chunks.
pub open spec fn live_upto(chunks: Seq<ChunkView>, n: nat) -> nat
    decreases n,
{
    if n == 0 {
        0
    } else {
        live_upto(chunks, (n - 1) as nat) + count_false(chunks[n - 1].deleted)
    }
}

pub open spec fn chunk_blobs(chunks: Seq<ChunkView>) -> Seq<Seq<u8>> {
    Seq::new(chunks.len(), |i: int| chunks[i].encoding())
}

/// The lengths of the chunks, as they are added up.
pub open spec fn chunk_lens(chunks: Seq<ChunkView>) -> Seq<u32> {
    Seq::new(chunks.len(), |i: int| low_u32(chunks[i].encoding().len() as int))
}

/// Where each chunk starts, counted from the first one.
pub open spec fn chunk_offsets(chunks: Seq<ChunkView>) -> Seq<u32> {
    Seq::new(chunks.len(), |i: int| sum_upto(chunk_lens(chunks), i as nat) as u32)
}

/// The error of a chunk whose bounds are not inside of the block.
pub open spec fn bad_chunk_bounds(start: int, end: int, len: nat) -> ErrorView {
    ErrorView::SerDe(
        "chunk offsets out of range: start="@ + decimal(start as nat) + " end="@ + decimal(
            end as nat,
        ) + " buf_len="@ + decimal(len),
    )
}

/// Chunk `i` of those that start at the given offsets behind `data_start`; the last one reaches to
/// the end.
pub open spec fn parse_chunk(
    schema: Seq<(ColumnId, DataType)>,
    buf: Seq<u8>,
    data_start: int,
    offsets: Seq<u32>,
    i: int,
) -> Decoded<ChunkView> {
    let start = data_start + offsets[i];
    let end = if i + 1 < offsets.len() {
        data_start + offsets[i + 1]
    } else {
        buf.len() as int
    };
    if start > end || end > buf.len() {
        Some(Err(bad_chunk_bounds(start, end, buf.len())))
    } else {
        ChunkView::parse(schema, buf.subrange(start, end))
    }
}

pub open spec fn chunk_parser(
    schema: Seq<(ColumnId, DataType)>,
    buf: Seq<u8>,
    data_start: int,
    offsets: Seq<u32>,
) -> spec_fn(int) -> Decoded<ChunkView> {
    |i: int| parse_chunk(schema, buf, data_start, offsets, i)
}

impl GroupView {
    /// A group without chunks.
    pub open spec fn empty(
        group_idx: NodeGroupIdx,
        schema: Seq<(ColumnId, DataType)>,
    ) -> GroupView {
        GroupView { group_idx, chunks: Seq::empty(), schema }
    }

    pub open spec fn valid(self) -> bool {
        forall|i: int| 0 <= i < self.chunks.len() ==> (#[trigger] self.chunks[i]).valid()
    }

    /// The rows of each chunk can be numbered in 64 bits.
    pub open spec fn sized(self) -> bool {
        forall|i: int|
            0 <= i < self.chunks.len() ==> (#[trigger] self.chunks[i]).start_row
                + self.chunks[i].len() <= u64::MAX
    }

    /// Chunk `i` holds the rows from `2048 * i` on, and only the last one is not full.
    pub open spec fn dense(self) -> bool {
        &&& self.chunks.len() <= 32
        &&& forall|i: int|
            0 <= i < self.chunks.len() ==> (#[trigger] self.chunks[i]).start_row == 2048 * i
                && self.chunks[i].len() <= 2048
        &&& forall|i: int|
            0 <= i < self.chunks.len() - 1 ==> (#[trigger] self.chunks[i]).len() == 2048
    }

    /// The rows of each chunk stand in all of its columns, which are those of the schema.
    pub open spec fn aligned(self) -> bool {
        forall|i: int|
            0 <= i < self.chunks.len() ==> (#[trigger] self.chunks[i]).aligned() && has_schema(
                self.chunks[i].columns,
                self.schema,
            )
    }

    /// The number of rows, deleted ones included.
    pub open spec fn num_rows(self) -> nat {
        if self.chunks.len() == 0 {
            0
        } else {
            self.chunks.last().start_row as nat + self.chunks.last().len()
        }
    }

    pub open spec fn num_live_rows(self) -> nat {
        live_upto(self.chunks, self.chunks.len())
    }

    pub open spec fn is_full(self) -> bool {
        self.chunks.len() == 32 && self.chunks.last().is_full()
    }

    /// The chunk of a row, and the row in it.
    pub open spec fn find_chunk(self, row: u64) -> Option<(int, u64)> {
        let i = row as int / 2048;
        if i < self.chunks.len() && self.chunks[i].contains(row) {
            Some((i, (row - self.chunks[i].start_row) as u64))
        } else {
            None
        }
    }

    /// The error of a row that is not there.
    pub open spec fn no_row(self, row: u64) -> ErrorView {
        ErrorView::RowOutOfBounds { row, len: self.num_rows() as u64 }
    }

    /// The group with a chunk at its end that has room.
    pub open spec fn with_active_chunk(self) -> GroupView {
        if self.chunks.len() == 0 || self.chunks.last().is_full() {
            GroupView {
                chunks: self.chunks.push(ChunkView::empty(self.num_rows() as u64, self.schema)),
                ..self
            }
        } else {
            self
        }
    }

    /// A row goes into the last chunk, or into a new one.
    pub open spec fn insert(self, node_id: NodeId, values: RowView) -> Inserted<GroupView> {
        if self.is_full() {
            Inserted { state: self, result: Err(ErrorView::NodeGroupFull) }
        } else {
            let g = self.with_active_chunk();
            let i = g.chunks.last().insert(node_id, values);
            Inserted {
                state: GroupView { chunks: g.chunks.update(g.chunks.len() - 1, i.state), ..g },
                result: i.result,
            }
        }
    }

    /// What reading a row gives; `None` where it was deleted.
    pub open spec fn read(self, row: u64) -> Result<Option<RowView>, ErrorView> {
        match self.find_chunk(row) {
            Some((i, local)) => self.chunks[i].read(local),
            None => Err(self.no_row(row)),
        }
    }

    pub open spec fn chunk_has(self, node_id: NodeId) -> spec_fn(int) -> bool {
        |i: int| self.chunks[i].find(node_id) is Some
    }

    /// The first live row of a node.
    pub open spec fn find(self, node_id: NodeId) -> Option<int> {
        match first_where(self.chunks.len(), self.chunk_has(node_id)) {
            Some(i) => Some(self.chunks[i].start_row + self.chunks[i].find(node_id)->Some_0),
            None => None,
        }
    }

    pub open spec fn node_at(self, row: u64) -> Result<NodeId, ErrorView> {
        match self.find_chunk(row) {
            Some((i, local)) => self.chunks[i].node_at(local),
            None => Err(self.no_row(row)),
        }
    }

    /// The group with a row marked as deleted.
    pub open spec fn delete(self, row: u64) -> GroupView {
        match self.find_chunk(row) {
            Some((i, local)) => GroupView {
                chunks: self.chunks.update(i, self.chunks[i].delete(local as int)),
                ..self
            },
            None => self,
        }
    }

    /// The group on disk up to its chunks.
    #[verifier::opaque]
    pub open spec fn head(self) -> Seq<u8> {
        u64_le(self.group_idx.0) + u64_le(self.num_rows() as u64) + u32_le(
            low_u32(self.num_live_rows() as int),
        ) + u32_le(low_u32(self.chunks.len() as int)) + ints_le(chunk_offsets(self.chunks))
    }

    /// The group on disk: its index, number of rows, number of live rows, number of chunks, where
    /// each chunk starts, chunks.
    pub open spec fn encoding(self) -> Seq<u8> {
        self.head() + concat(chunk_blobs(self.chunks))
    }

    /// The live rows can be counted, the lengths of the chunks can be added up in 32 bits, and the
    /// whole can be held in memory.
    pub open spec fn serializable(self) -> bool {
        &&& self.num_live_rows() <= u64::MAX
        &&& sum_upto(chunk_lens(self.chunks), self.chunks.len()) <= u32::MAX
        &&& self.encoding().len() <= usize::MAX
    }

    /// The group that a block holds. The index in the block is not used.
    pub open spec fn parse(
        schema: Seq<(ColumnId, DataType)>,
        group_idx: NodeGroupIdx,
        buf: Seq<u8>,
    ) -> Decoded<GroupView> {
        if buf.len() < 24 {
            None
        } else {
            let n = u32_at(buf, 20) as nat;
            let data_start = 24 + 4 * n;
            if data_start > buf.len() {
                None
            } else {
                match collect(
                    n,
                    chunk_parser(schema, buf, data_start as int, ints_at(buf, 24, n)),
                ) {
                    Some(Ok(chunks)) => Some(Ok(GroupView { group_idx, chunks, schema })),
                    Some(Err(e)) => Some(Err(e)),
                    None => None,
                }
            }
        }
    }
}

// ---------------------------------------------------------------------------------------------
// The group

impl View for NodeGroup {
    type V = GroupView;

    closed spec fn view(&self) -> GroupView {
        GroupView {
            group_idx: self.group_idx,
            chunks: chunks_view(self.chunked_groups@),
            schema: self.column_schema@,
        }
    }
}

impl NodeGroup {
    /// Each chunk is well-formed.
    pub closed spec fn wf(&self) -> bool {
        forall|i: int|
            0 <= i < self.chunked_groups@.len() ==> (#[trigger] self.chunked_groups@[i]).wf()
    }

    pub proof fn lemma_wf(&self)
        requires
            self.wf(),
        ensures
            self@.valid(),
    {
        assert forall|i: int| 0 <= i < self@.chunks.len() implies (
        #[trigger] self@.chunks[i]).valid() by {
            self.chunked_groups@[i].lemma_wf();
        }
    }

    pub fn new(group_idx: NodeGroupIdx, schema: &NodeLabelEntry) -> (g: Self)
        ensures
            g.wf(),
            g@ == GroupView::empty(group_idx, columns_of(schema@.properties)),
    {
        let g = NodeGroup {
            group_idx,
            chunked_groups: Vec::new(),
            column_schema: column_schema(&schema.properties),
        };
        assert(g@ =~= GroupView::empty(group_idx, columns_of(schema@.properties)));
        g
    }

    #[must_use]
    pub fn group_idx(&self) -> (idx: NodeGroupIdx)
        ensures
            idx == self@.group_idx,
    {
        self.group_idx
    }

    /// The number of chunks that the rows are spread over.
    #[must_use]
    pub fn num_chunks(&self) -> (n: usize)
        ensures
            n == self@.chunks.len(),
    {
        self.chunked_groups.len()
    }

    #[must_use]
    pub fn num_rows(&self) -> (n: u64)
        requires
            self.wf(),
            self@.sized(),
        ensures
            n == self@.num_rows(),
    {
        let count: usize = self.chunked_groups.len();
        if count == 0 {
            0
        } else {
            let last = &self.chunked_groups[count - 1];
            assert(self@.chunks[count - 1] == last@);
            last.start_row_idx() + last.num_rows()
        }
    }

    /// Whether each chunk but the last is full and holds the rows of its place.
    pub fn is_dense(&self) -> (b: bool)
        requires
            self.wf(),
        ensures
            b == self@.dense(),
    {
        let count: usize = self.chunked_groups.len();
        if count > 32 {
            return false;
        }
        let mut i: usize = 0;
        while i < count
            invariant
                self.wf(),
                count == self.chunked_groups@.len(),
                count <= 32,
                i <= count,
                forall|j: int|
                    0 <= j < i ==> (#[trigger] self@.chunks[j]).start_row == 2048 * j
                        && self@.chunks[j].len() <= 2048,
                forall|j: int|
                    0 <= j < i && j < count - 1 ==> (#[trigger] self@.chunks[j]).len() == 2048,
            decreases count - i,
        {
            let chunk = &self.chunked_groups[i];
            assert(self@.chunks[i as int] == chunk@);
            if chunk.start_row_idx() != 2048 * i as u64 || chunk.num_rows() > 2048 {
                return false;
            }
            if i < count - 1 && chunk.num_rows() != 2048 {
                return false;
            }
            i = i + 1;
        }
        true
    }

    /// Whether the rows of each chunk can be numbered in 64 bits.
    pub fn is_sized(&self) -> (b: bool)
        requires
            self.wf(),
        ensures
            b == self@.sized(),
    {
        let mut i: usize = 0;
        while i < self.chunked_groups.len()
            invariant
                self.wf(),
                i <= self.chunked_groups@.len(),
                forall|j: int|
                    0 <= j < i ==> (#[trigger] self@.chunks[j]).start_row + self@.chunks[j].len()
                        <= u64::MAX,
            decreases self.chunked_groups@.len() - i,
        {
            let chunk = &self.chunked_groups[i];
            assert(self@.chunks[i as int] == chunk@);
            if chunk.num_rows() > u64::MAX - chunk.start_row_idx() {
                return false;
            }
            i = i + 1;
        }
        true
    }

    #[must_use]
    pub fn num_live_rows(&self) -> (n: u64)
        requires
            self.wf(),
            self@.num_live_rows() <= u64::MAX,
        ensures
            n == self@.num_live_rows(),
    {
        self.checked_live_rows().unwrap()
    }

    /// Like [`NodeGroup::num_live_rows`]; `None` where the number is too large.
    pub fn checked_live_rows(&self) -> (r: Option<u64>)
        requires
            self.wf(),
        ensures
            match r {
                Some(n) => n == self@.num_live_rows(),
                None => self@.num_live_rows() > u64::MAX,
            },
    {
        let mut n: u64 = 0;
        let mut i: usize = 0;
        while i < self.chunked_groups.len()
            invariant
                self.wf(),
                i <= self.chunked_groups@.len(),
                n == live_upto(self@.chunks, i as nat),
            decreases self.chunked_groups@.len() - i,
        {
            proof {
                lemma_live_mono(self@.chunks, (i + 1) as nat, self@.chunks.len());
            }
            assert(self@.chunks[i as int] == self.chunked_groups@[i as int]@);
            match n.checked_add(self.chunked_groups[i].num_live_rows()) {
                Some(sum) => {
                    n = sum;
                },
                None => {
                    return None;
                },
            }
            i = i + 1;
        }
        Some(n)
    }

    #[must_use]
    pub fn is_full(&self) -> (b: bool)
        requires
            self.wf(),
        ensures
            b == self@.is_full(),
    {
        let count: usize = self.chunked_groups.len();
        if count == 32 {
            assert(self@.chunks.last() == self.chunked_groups@[31]@);
            self.chunked_groups[31].is_full()
        } else {
            false
        }
    }

    /// The chunk of a row, and the row in it.
    fn find_chunk(&self, row: RowIdx) -> (r: Option<(usize, RowIdx)>)
        requires
            self.wf(),
        ensures
            match r {
                Some((i, local)) => self@.find_chunk(row) == Some((i as int, local)) && i
                    < self.chunked_groups@.len(),
                None => self@.find_chunk(row) is None,
            },
    {
        let idx: u64 = row / StorageConfig::CHUNKED_NODE_GROUP_CAPACITY;
        let count: usize = self.chunked_groups.len();
        if idx >= count as u64 {
            return None;
        }
        let i: usize = idx as usize;
        let chunk = &self.chunked_groups[i];
        assert(self@.chunks[i as int] == chunk@);
        if chunk.contains(row) {
            Some((i, row - chunk.start_row_idx()))
        } else {
            None
        }
    }

    /// Makes sure that the last chunk has room, as long as the group is not full.
    fn ensure_active_chunk(&mut self)
        requires
            old(self).wf(),
            old(self)@.sized(),
        ensures
            final(self).wf(),
            final(self)@ == old(self)@.with_active_chunk(),
    {
        let count: usize = self.chunked_groups.len();
        if count > 0 {
            assert(self@.chunks.last() == self.chunked_groups@[count - 1]@);
        }
        if count == 0 || self.chunked_groups[count - 1].is_full() {
            let start_row: u64 = self.num_rows();
            let chunk = ChunkedNodeGroup::new(start_row, self.column_schema.as_slice());
            self.chunked_groups.push(chunk);
            assert(self@ =~= old(self)@.with_active_chunk());
        }
    }

    /// Adds a row for a node and gives its row in the group.
    pub fn insert_row(&mut self, node_id: NodeId, values: &[Option<PropertyValue>]) -> (r: Result<
        RowIdx,
        StorageError,
    >)
        requires
            old(self).wf(),
            old(self)@.sized(),
            old(self)@.num_rows() < u64::MAX,
        ensures
            final(self).wf(),
            ({
                let i = old(self)@.insert(node_id, row_view(values@));
                &&& final(self)@ == i.state
                &&& match r {
                    Ok(row) => i.result == Ok::<u64, ErrorView>(row),
                    Err(e) => i.result == Err::<u64, ErrorView>(e@),
                }
            }),
    {
        if self.is_full() {
            return Err(StorageError::NodeGroupFull);
        }
        self.ensure_active_chunk();
        let ghost g = *self;
        let count: usize = self.chunked_groups.len();
        assert(g@.chunks.last() == g.chunked_groups@[count - 1]@);
        let r = self.chunked_groups[count - 1].insert_row(node_id, values);
        assert(self@.chunks =~= g@.chunks.update(
            count - 1,
            g@.chunks.last().insert(node_id, row_view(values@)).state,
        ));
        r
    }

    /// The values of a row, or `None` where it was deleted.
    pub fn get_row(&self, row: RowIdx) -> (r: Result<
        Option<Vec<Option<PropertyValue>>>,
        StorageError,
    >)
        requires
            self.wf(),
            self@.sized(),
        ensures
            match r {
                Ok(Some(v)) => self@.read(row) == Ok::<Option<RowView>, ErrorView>(
                    Some(row_view(v@)),
                ),
                Ok(None) => self@.read(row) == Ok::<Option<RowView>, ErrorView>(None),
                Err(e) => self@.read(row) == Err::<Option<RowView>, ErrorView>(e@),
            },
    {
        match self.find_chunk(row) {
            Some((i, local)) => self.chunked_groups[i].get_row_local(local),
            None => Err(StorageError::RowOutOfBounds { row, len: self.num_rows() }),
        }
    }

    /// The first row of the node that is not deleted.
    #[must_use]
    pub fn find_node(&self, node_id: NodeId) -> (r: Option<RowIdx>)
        requires
            self.wf(),
            self@.sized(),
        ensures
            match r {
                Some(row) => self@.find(node_id) == Some(row as int),
                None => self@.find(node_id) is None,
            },
    {
        let ghost p = self@.chunk_has(node_id);
        let mut i: usize = 0;
        while i < self.chunked_groups.len()
            invariant
                self.wf(),
                self@.sized(),
                i <= self.chunked_groups@.len(),
                p == self@.chunk_has(node_id),
                forall|j: int| 0 <= j < i ==> !#[trigger] p(j),
            decreases self.chunked_groups@.len() - i,
        {
            let chunk = &self.chunked_groups[i];
            assert(self@.chunks[i as int] == chunk@);
            match chunk.find_node_local(node_id) {
                Some(local) => {
                    proof {
                        assert(p(i as int));
                        search::lemma_first_where_is(self@.chunks.len(), p, i as int);
                        search::lemma_first_where(chunk@.len(), chunk@.holds_node(node_id));
                    }
                    return Some(chunk.start_row_idx() + local);
                },
                None => {},
            }
            i = i + 1;
        }
        proof {
            search::lemma_first_where_none(self@.chunks.len(), p);
        }
        None
    }

    /// The node of a row, deleted or not.
    pub fn node_id_at(&self, row: RowIdx) -> (r: Result<NodeId, StorageError>)
        requires
            self.wf(),
            self@.sized(),
        ensures
            match r {
                Ok(id) => self@.node_at(row) == Ok::<NodeId, ErrorView>(id),
                Err(e) => self@.node_at(row) == Err::<NodeId, ErrorView>(e@),
            },
    {
        match self.find_chunk(row) {
            Some((i, local)) => self.chunked_groups[i].node_id_at_local(local),
            None => Err(StorageError::RowOutOfBounds { row, len: self.num_rows() }),
        }
    }

    /// Marks a row as deleted.
    pub fn delete_row(&mut self, row: RowIdx) -> (r: Result<(), StorageError>)
        requires
            old(self).wf(),
            old(self)@.sized(),
        ensures
            final(self).wf(),
            final(self)@ == old(self)@.delete(row),
            match r {
                Ok(()) => old(self)@.find_chunk(row) is Some,
                Err(e) => old(self)@.find_chunk(row) is None && e@ == old(self)@.no_row(row),
            },
    {
        match self.find_chunk(row) {
            Some((i, local)) => {
                let ghost g = *self;
                assert(g@.chunks[i as int] == g.chunked_groups@[i as int]@);
                let r = self.chunked_groups[i].delete_row_local(local);
                assert(self@.chunks =~= g@.chunks.update(
                    i as int,
                    g@.chunks[i as int].delete(local as int),
                ));
                r
            },
            None => Err(StorageError::RowOutOfBounds { row, len: self.num_rows() }),
        }
    }
}

pub proof fn lemma_live_mono(chunks: Seq<ChunkView>, i: nat, n: nat)
    requires
        i <= n,
    ensures
        live_upto(chunks, i) <= live_upto(chunks, n),
    decreases n - i,
{
    if i < n {
        lemma_live_mono(chunks, i, (n - 1) as nat);
    }
}

// ---------------------------------------------------------------------------------------------
// Serialization

pub proof fn lemma_head_len(g: GroupView)
    ensures
        g.head().len() == 24 + 4 * g.chunks.len(),
        g.encoding().len() == 24 + 4 * g.chunks.len() + concat(chunk_blobs(g.chunks)).len(),
{
    reveal(GroupView::head);
}

impl NodeGroup {
    /// The size of the group on disk, if it can be serialized.
    fn compute_serialized_size(&self) -> (r: Option<usize>)
        requires
            self.wf(),
        ensures
            match r {
                Some(n) => self@.serializable() && n == self@.encoding().len(),
                None => !self@.serializable(),
            },
    {
        let ghost blobs = chunk_blobs(self@.chunks);
        let ghost lens = chunk_lens(self@.chunks);
        let count: usize = self.chunked_groups.len();
        proof {
            lemma_head_len(self@);
        }
        if count > usize::MAX / 4 - 6 || self.checked_live_rows().is_none() {
            return None;
        }
        let mut total: usize = 24 + count * 4;
        let mut offset: u32 = 0;
        let mut i: usize = 0;
        assert(blobs.take(0) =~= Seq::empty());
        while i < count
            invariant
                self.wf(),
                self@.num_live_rows() <= u64::MAX,
                i <= count,
                count == self.chunked_groups@.len(),
                blobs == chunk_blobs(self@.chunks),
                lens == chunk_lens(self@.chunks),
                self@.encoding().len() == 24 + 4 * count + concat(blobs).len(),
                total == 24 + 4 * count + blob_start(blobs, i as int),
                offset == sum_upto(lens, i as nat),
            decreases count - i,
        {
            assert(self@.chunks[i as int] == self.chunked_groups@[i as int]@);
            proof {
                codec::lemma_concat_take(blobs, i as int);
                codec::lemma_blob_start_mono(blobs, i + 1, count as int);
                row::lemma_sum_mono(lens, (i + 1) as nat, count as nat);
            }
            match self.chunked_groups[i].checked_len() {
                Some(len) => {
                    match (total.checked_add(len), offset.checked_add(binary::to_low_u32(len))) {
                        (Some(t), Some(o)) => {
                            total = t;
                            offset = o;
                        },
                        _ => {
                            return None;
                        },
                    }
                },
                None => {
                    return None;
                },
            }
            i = i + 1;
        }
        assert(blobs.take(count as int) =~= blobs);
        Some(total)
    }

    /// The group on pages.
    pub fn serialize_to_pages(&self) -> (r: Result<Vec<Page>, StorageError>)
        requires
            self.wf(),
            self@.sized(),
            self@.serializable(),
        ensures
            r matches Ok(pages) && pages_view(pages@) == pages_of(self@.encoding()),
    {
        Ok(self.try_serialize_to_pages().unwrap())
    }

    /// Like [`NodeGroup::serialize_to_pages`]; `None` where the group is too large, or its chunks are
    /// so large that their places cannot be written in 32 bits.
    pub fn try_serialize_to_pages(&self) -> (r: Option<Vec<Page>>)
        requires
            self.wf(),
            self@.sized(),
        ensures
            match r {
                Some(pages) => self@.serializable() && pages_view(pages@) == pages_of(
                    self@.encoding(),
                ),
                None => !self@.serializable(),
            },
    {
        match self.compute_serialized_size() {
            Some(total) => {
                let mut buf: Vec<u8> = vec![0u8; total];
                let ghost b0 = buf@;
                let mut pos: usize = 0;
                self.write_head(&mut buf, &mut pos);
                self.write_chunks(&mut buf, &mut pos);
                proof {
                    binary::lemma_overwrite_append(
                        b0,
                        0,
                        self@.head(),
                        concat(chunk_blobs(self@.chunks)),
                    );
                    binary::lemma_overwrite_all(b0, self@.encoding());
                }
                Some(split_into_pages(buf.as_slice()))
            },
            None => None,
        }
    }

    fn write_head(&self, buf: &mut [u8], pos: &mut usize)
        requires
            self.wf(),
            self@.sized(),
            self@.serializable(),
            *old(pos) + self@.head().len() <= old(buf)@.len(),
        ensures
            final(buf)@ == overwrite(old(buf)@, *old(pos) as int, self@.head()),
            final(buf)@.len() == old(buf)@.len(),
            *final(pos) == *old(pos) + self@.head().len(),
    {
        let ghost b0 = buf@;
        let ghost start = *pos as int;
        let ghost rows = u64_le(self@.num_rows() as u64);
        let ghost live = u32_le(low_u32(self@.num_live_rows() as int));
        let ghost count = u32_le(low_u32(self@.chunks.len() as int));
        let ghost offsets = ints_le(chunk_offsets(self@.chunks));
        let ghost e1 = u64_le(self@.group_idx.0);
        let ghost e2 = e1 + rows;
        let ghost e3 = e2 + live;
        let ghost e4 = e3 + count;
        proof {
            reveal(GroupView::head);
            assert(self@.head() == e4 + offsets);
        }
        binary::write_u64(buf, pos, self.group_idx.0);
        binary::write_u64(buf, pos, self.num_rows());
        proof {
            binary::lemma_overwrite_append(b0, start, e1, rows);
        }
        binary::write_u32(buf, pos, (self.num_live_rows() % 0x1_0000_0000) as u32);
        proof {
            binary::lemma_overwrite_append(b0, start, e2, live);
        }
        binary::write_u32(buf, pos, binary::to_low_u32(self.chunked_groups.len()));
        proof {
            binary::lemma_overwrite_append(b0, start, e3, count);
        }
        self.write_offsets(buf, pos);
        proof {
            binary::lemma_overwrite_append(b0, start, e4, offsets);
        }
    }

    fn write_offsets(&self, buf: &mut [u8], pos: &mut usize)
        requires
            self.wf(),
            self@.serializable(),
            *old(pos) + 4 * self@.chunks.len() <= old(buf)@.len(),
        ensures
            final(buf)@ == overwrite(
                old(buf)@,
                *old(pos) as int,
                ints_le(chunk_offsets(self@.chunks)),
            ),
            final(buf)@.len() == old(buf)@.len(),
            *final(pos) == *old(pos) + 4 * self@.chunks.len(),
    {
        let ghost start = *pos as int;
        let ghost lens = chunk_lens(self@.chunks);
        let ghost blobs = chunk_blobs(self@.chunks);
        let ghost offsets = chunk_offsets(self@.chunks);
        let count: usize = self.chunked_groups.len();
        let mut offset: u32 = 0;
        let mut i: usize = 0;
        proof {
            binary::lemma_overwrite_empty(buf@, start);
            assert(ints_le(offsets.take(0)) =~= Seq::empty());
            lemma_head_len(self@);
        }
        while i < count
            invariant
                self.wf(),
                i <= count,
                count == self.chunked_groups@.len(),
                lens == chunk_lens(self@.chunks),
                blobs == chunk_blobs(self@.chunks),
                offsets == chunk_offsets(self@.chunks),
                concat(blobs).len() <= usize::MAX,
                sum_upto(lens, count as nat) <= u32::MAX,
                offset == sum_upto(lens, i as nat),
                start == *old(pos),
                *pos == start + 4 * i,
                start + 4 * count <= old(buf)@.len(),
                buf@.len() == old(buf)@.len(),
                buf@ == overwrite(old(buf)@, start, ints_le(offsets.take(i as int))),
            decreases count - i,
        {
            assert(self@.chunks[i as int] == self.chunked_groups@[i as int]@);
            binary::write_u32(buf, pos, offset);
            proof {
                assert(offsets.take(i + 1) =~= offsets.take(i as int).push(offset));
                binary::lemma_overwrite_append(
                    old(buf)@,
                    start,
                    ints_le(offsets.take(i as int)),
                    u32_le(offset),
                );
                binary::lemma_ints_push(offsets.take(i as int), offset);
                codec::lemma_concat_take(blobs, i as int);
                codec::lemma_blob_start_mono(blobs, i + 1, count as int);
                row::lemma_sum_mono(lens, (i + 1) as nat, count as nat);
            }
            offset = offset + binary::to_low_u32(self.chunked_groups[i].serialized_len());
            i = i + 1;
        }
        assert(offsets.take(count as int) =~= offsets);
    }

    fn write_chunks(&self, buf: &mut [u8], pos: &mut usize)
        requires
            self.wf(),
            *old(pos) + concat(chunk_blobs(self@.chunks)).len() <= old(buf)@.len(),
        ensures
            final(buf)@ == overwrite(
                old(buf)@,
                *old(pos) as int,
                concat(chunk_blobs(self@.chunks)),
            ),
            final(buf)@.len() == old(buf)@.len(),
            *final(pos) == *old(pos) + concat(chunk_blobs(self@.chunks)).len(),
    {
        let ghost start = *pos as int;
        let ghost blobs = chunk_blobs(self@.chunks);
        let count: usize = self.chunked_groups.len();
        let mut i: usize = 0;
        proof {
            binary::lemma_overwrite_empty(buf@, start);
            assert(blobs.take(0) =~= Seq::empty());
        }
        while i < count
            invariant
                self.wf(),
                i <= count,
                count == self.chunked_groups@.len(),
                blobs == chunk_blobs(self@.chunks),
                start == *old(pos),
                *pos == start + blob_start(blobs, i as int),
                start + concat(blobs).len() <= old(buf)@.len(),
                buf@.len() == old(buf)@.len(),
                buf@ == overwrite(old(buf)@, start, concat(blobs.take(i as int))),
            decreases count - i,
        {
            assert(self@.chunks[i as int] == self.chunked_groups@[i as int]@);
            proof {
                codec::lemma_concat_take(blobs, i as int);
                codec::lemma_blob_start_mono(blobs, i + 1, count as int);
                binary::lemma_overwrite_append(
                    old(buf)@,
                    start,
                    concat(blobs.take(i as int)),
                    blobs[i as int],
                );
            }
            self.chunked_groups[i].write_to(buf, pos);
            i = i + 1;
        }
        assert(blobs.take(count as int) =~= blobs);
    }

    /// Reads a group with the columns of a schema from pages.
    pub fn deserialize_from_pages(
        schema: &NodeLabelEntry,
        group_idx: NodeGroupIdx,
        pages: &[Page],
    ) -> (r: Result<Self, StorageError>)
        requires
            GroupView::parse(
                columns_of(schema@.properties),
                group_idx,
                concat(pages_view(pages@)),
            ) is Some,
        ensures
            ({
                let d = GroupView::parse(
                    columns_of(schema@.properties),
                    group_idx,
                    concat(pages_view(pages@)),
                );
                match r {
                    Ok(g) => g.wf() && d == Some(Ok::<GroupView, ErrorView>(g@)),
                    Err(e) => d == Some(Err::<GroupView, ErrorView>(e@)),
                }
            }),
    {
        Self::try_deserialize_from_pages(schema, group_idx, pages).unwrap()
    }

    /// Like [`NodeGroup::deserialize_from_pages`], for any pages: `None` where a length or an
    /// offset in them points outside of what it is in.
    pub fn try_deserialize_from_pages(
        schema: &NodeLabelEntry,
        group_idx: NodeGroupIdx,
        pages: &[Page],
    ) -> (r: Option<Result<Self, StorageError>>)
        ensures
            ({
                let d = GroupView::parse(
                    columns_of(schema@.properties),
                    group_idx,
                    concat(pages_view(pages@)),
                );
                match r {
                    Some(Ok(g)) => g.wf() && d == Some(Ok::<GroupView, ErrorView>(g@)),
                    Some(Err(e)) => d == Some(Err::<GroupView, ErrorView>(e@)),
                    None => d is None,
                }
            }),
    {
        let column_schema = column_schema(&schema.properties);
        let buf = join_pages(pages);
        if buf.len() < 24 {
            return None;
        }
        let mut pos: usize = 20;
        let num_chunks: usize = binary::read_u32(buf.as_slice(), &mut pos) as usize;
        if num_chunks > (buf.len() - pos) / 4 {
            return None;
        }
        let offsets = read_u32s(buf.as_slice(), &mut pos, num_chunks);
        match Self::try_read_chunks(column_schema.as_slice(), buf.as_slice(), pos, &offsets) {
            Some(Ok(chunked_groups)) => Some(
                Ok(NodeGroup { group_idx, chunked_groups, column_schema }),
            ),
            Some(Err(e)) => Some(Err(e)),
            None => None,
        }
    }

    fn try_read_chunks(
        schema: &[(ColumnId, DataType)],
        buf: &[u8],
        data_start: usize,
        offsets: &Vec<u32>,
    ) -> (r: Option<Result<Vec<ChunkedNodeGroup>, StorageError>>)
        requires
            data_start <= buf@.len(),
        ensures
            ({
                let d = collect(
                    offsets@.len(),
                    chunk_parser(schema@, buf@, data_start as int, offsets@),
                );
                match r {
                    Some(Ok(v)) => {
                        &&& d == Some(Ok::<Seq<ChunkView>, ErrorView>(chunks_view(v@)))
                        &&& forall|i: int| 0 <= i < v@.len() ==> (#[trigger] v@[i]).wf()
                    },
                    Some(Err(e)) => d == Some(Err::<Seq<ChunkView>, ErrorView>(e@)),
                    None => d is None,
                }
            }),
    {
        let ghost f = chunk_parser(schema@, buf@, data_start as int, offsets@);
        let n: usize = offsets.len();
        let mut chunks: Vec<ChunkedNodeGroup> = Vec::new();
        let mut i: usize = 0;
        assert(chunks_view(chunks@) =~= Seq::empty());
        while i < n
            invariant
                i <= n,
                n == offsets@.len(),
                data_start <= buf@.len(),
                f == chunk_parser(schema@, buf@, data_start as int, offsets@),
                chunks@.len() == i,
                forall|j: int| 0 <= j < i ==> (#[trigger] chunks@[j]).wf(),
                collect(i as nat, f) == Some(
                    Ok::<Seq<ChunkView>, ErrorView>(chunks_view(chunks@)),
                ),
            decreases n - i,
        {
            let ghost before = chunks@;
            assert(f(i as int) == parse_chunk(
                schema@,
                buf@,
                data_start as int,
                offsets@,
                i as int,
            ));
            let start: u128 = data_start as u128 + offsets[i] as u128;
            let end: u128 = if i + 1 < n {
                data_start as u128 + offsets[i + 1] as u128
            } else {
                buf.len() as u128
            };
            if start > end || end > buf.len() as u128 {
                proof {
                    codec::lemma_collect_stuck((i + 1) as nat, n as nat, f);
                }
                return Some(Err(Self::chunk_bounds_error(start, end, buf.len())));
            }
            let bytes = slice_subrange(buf, start as usize, end as usize);
            match ChunkedNodeGroup::try_deserialize(schema, bytes) {
                Some(Ok(c)) => {
                    chunks.push(c);
                    assert(chunks_view(chunks@) =~= chunks_view(before).push(c@));
                },
                Some(Err(e)) => {
                    proof {
                        codec::lemma_collect_stuck((i + 1) as nat, n as nat, f);
                    }
                    return Some(Err(e));
                },
                None => {
                    proof {
                        codec::lemma_collect_stuck((i + 1) as nat, n as nat, f);
                    }
                    return None;
                },
            }
            i = i + 1;
        }
        Some(Ok(chunks))
    }

    fn chunk_bounds_error(start: u128, end: u128, len: usize) -> (e: StorageError)
        requires
            start <= usize::MAX + u32::MAX,
            end <= usize::MAX + u32::MAX,
        ensures
            e@ == bad_chunk_bounds(start as int, end as int, len as nat),
    {
        let mut msg = String::new();
        msg.append("chunk offsets out of range: start=");
        push_decimal(&mut msg, start);
        msg.append(" end=");
        push_decimal(&mut msg, end);
        msg.append(" buf_len=");
        push_decimal(&mut msg, len as u128);
        let e = StorageError::SerDe(msg);
        assert(msg@ =~= "chunk offsets out of range: start="@ + decimal(start as nat) + " end="@
            + decimal(end as nat) + " buf_len="@ + decimal(len as nat));
        e
    }
}

// ---------------------------------------------------------------------------------------------
// Laws

/// Every value that is there is of the type of its column.
pub open spec fn types_match(schema: Seq<(ColumnId, DataType)>, values: RowView) -> bool {
    first_mismatch(empty_columns(schema), values, schema.len()) is None
}

/// A row as it is read: a value for each column.
pub open spec fn padded(schema: Seq<(ColumnId, DataType)>, values: RowView) -> RowView {
    Seq::new(schema.len(), |k: int| row::value_for(values, k))
}

impl GroupView {
    /// What every group built by inserting and deleting is like.
    pub open spec fn regular(self) -> bool {
        self.valid() && self.dense() && self.aligned()
    }

    /// The row is the node's and not deleted.
    pub open spec fn row_holds(self, node_id: NodeId) -> spec_fn(int) -> bool {
        |row: int|
            self.node_at(row as u64) == Ok::<NodeId, ErrorView>(node_id) && self.read(row as u64)
                != Ok::<Option<RowView>, ErrorView>(None)
    }
}

/// A new group is regular.
pub proof fn law_empty_regular(group_idx: NodeGroupIdx, schema: Seq<(ColumnId, DataType)>)
    ensures
        GroupView::empty(group_idx, schema).regular(),
        GroupView::empty(group_idx, schema).num_rows() == 0,
{
}

proof fn lemma_dense_live(g: GroupView, n: nat)
    requires
        g.valid(),
        g.dense(),
        n <= g.chunks.len(),
    ensures
        live_upto(g.chunks, n) <= 2048 * n,
        0 < n ==> live_upto(g.chunks, n) <= 2048 * (n - 1) + g.chunks[n - 1].len(),
    decreases n,
{
    if n > 0 {
        lemma_dense_live(g, (n - 1) as nat);
        assert(g.chunks[n - 1].valid());
        search::lemma_count_false_bound(g.chunks[n - 1].deleted);
    }
}

pub proof fn lemma_active_chunk(g: GroupView)
    requires
        g.regular(),
        !g.is_full(),
    ensures
        ({
            let a = g.with_active_chunk();
            &&& a.regular()
            &&& a.chunks.len() > 0
            &&& !a.chunks.last().is_full()
            &&& a.num_rows() == g.num_rows()
            &&& a.num_live_rows() == g.num_live_rows()
            &&& forall|row: u64| row < g.num_rows() ==> #[trigger] a.read(row) == g.read(row)
            &&& forall|row: u64| row < g.num_rows() ==> #[trigger] a.node_at(row) == g.node_at(row)
        }),
{
    let a = g.with_active_chunk();
    if g.chunks.len() > 0 {
        assert(g.chunks[g.chunks.len() - 1].start_row == 2048 * (g.chunks.len() - 1));
    }
    if g.chunks.len() == 0 || g.chunks.last().is_full() {
        let n = g.chunks.len();
        assert(a.chunks[n as int] == ChunkView::empty(g.num_rows() as u64, g.schema));
        assert forall|i: int| 0 <= i < a.chunks.len() implies (#[trigger] a.chunks[i]).valid()
            && a.chunks[i].start_row == 2048 * i && a.chunks[i].len() <= 2048
            && a.chunks[i].aligned() && has_schema(a.chunks[i].columns, a.schema) by {
            if i < n {
                assert(a.chunks[i] == g.chunks[i]);
            }
        }
        assert forall|i: int| 0 <= i < a.chunks.len() - 1 implies (#[trigger] a.chunks[i]).len()
            == 2048 by {
            assert(a.chunks[i] == g.chunks[i]);
        }
        assert forall|row: u64| row < g.num_rows() implies #[trigger] a.read(row) == g.read(row)
            && a.node_at(row) == g.node_at(row) by {
            law_dense_bounds(g);
            assert(g.find_chunk(row) is Some);
            assert(a.chunks[row as int / 2048] == g.chunks[row as int / 2048]);
        }
        assert forall|row: u64| row < g.num_rows() implies #[trigger] a.node_at(row) == g.node_at(
            row,
        ) by {
            assert(a.read(row) == g.read(row));
        }
        lemma_live_prefix(g.chunks, a.chunks, n);
    }
}

pub proof fn lemma_live_prefix(a: Seq<ChunkView>, b: Seq<ChunkView>, n: nat)
    requires
        n <= a.len(),
        n <= b.len(),
        forall|i: int| 0 <= i < n ==> #[trigger] a[i] == b[i],
    ensures
        live_upto(a, n) == live_upto(b, n),
    decreases n,
{
    if n > 0 {
        lemma_live_prefix(a, b, (n - 1) as nat);
        assert(a[n - 1] == b[n - 1]);
    }
}

/// Inserting a row whose values are of the columns' types into a regular group that is not full
/// succeeds: the row goes behind all others, which are as they were, and is read back.
pub proof fn law_group_insert_then_read(g: GroupView, node_id: NodeId, values: RowView, row: u64)
    requires
        g.regular(),
        !g.is_full(),
        types_match(g.schema, values),
    ensures
        ({
            let i = g.insert(node_id, values);
            &&& i.result == Ok::<u64, ErrorView>(g.num_rows() as u64)
            &&& i.state.regular()
            &&& i.state.group_idx == g.group_idx
            &&& i.state.schema == g.schema
            &&& i.state.num_rows() == g.num_rows() + 1
            &&& i.state.read(g.num_rows() as u64) == Ok::<Option<RowView>, ErrorView>(
                Some(padded(g.schema, values)),
            )
            &&& i.state.node_at(g.num_rows() as u64) == Ok::<NodeId, ErrorView>(node_id)
            &&& i.state.num_live_rows() == g.num_live_rows() + 1
            &&& row < g.num_rows() ==> i.state.read(row) == g.read(row)
            &&& row < g.num_rows() ==> i.state.node_at(row) == g.node_at(row)
        }),
{
    lemma_active_chunk(g);
    law_dense_bounds(g);
    let a = g.with_active_chunk();
    let n = a.chunks.len() - 1;
    let c = a.chunks[n];
    assert(c.valid() && c.aligned() && has_schema(c.columns, g.schema) && c.start_row == 2048 * n);
    assert(a.num_rows() == c.start_row + c.len());
    assert forall|k: int| 0 <= k < c.columns.len() implies (#[trigger] c.columns[k]).data_type
        == empty_columns(g.schema)[k].data_type by {}
    row::lemma_mismatch_by_type(c.columns, empty_columns(g.schema), values, c.columns.len());
    chunked_node_group::law_insert_then_read(c, node_id, values, 0);
    let s = g.insert(node_id, values).state;
    let d = c.insert(node_id, values).state;
    assert(s.chunks[n] == d);
    lemma_insert_keeps_schema(c, node_id, values, g.schema);
    assert forall|i: int| 0 <= i < s.chunks.len() implies (#[trigger] s.chunks[i]).valid()
        && s.chunks[i].start_row == 2048 * i && s.chunks[i].len() <= 2048 && s.chunks[i].aligned()
        && has_schema(s.chunks[i].columns, s.schema) by {
        if i < n {
            assert(s.chunks[i] == a.chunks[i]);
        }
    }
    assert forall|i: int| 0 <= i < s.chunks.len() - 1 implies (#[trigger] s.chunks[i]).len()
        == 2048 by {
        assert(s.chunks[i] == a.chunks[i]);
    }
    let new_row = g.num_rows() as u64;
    assert(new_row as int / 2048 == n);
    assert(s.find_chunk(new_row) == Some((n, c.len() as u64)));
    assert(Seq::new(c.columns.len(), |k: int| row::value_for(values, k)) =~= padded(
        g.schema,
        values,
    ));
    assert(d.deleted.drop_last() =~= c.deleted);
    lemma_live_update(a.chunks, n, d, a.chunks.len());
    if row < g.num_rows() {
        assert(a.read(row) == g.read(row));
        assert(a.node_at(row) == g.node_at(row));
        let i = row as int / 2048;
        assert(a.find_chunk(row) is Some) by {
            law_dense_bounds(a);
        }
        if i == n {
            chunked_node_group::law_insert_then_read(
                c,
                node_id,
                values,
                (row - c.start_row) as u64,
            );
        } else {
            assert(s.chunks[i] == a.chunks[i]);
        }
    }
}

/// A chunk refuses a row with a value of another type than its column, and stays as it was.
pub proof fn lemma_refused_chunk(g: GroupView, c: ChunkView, node_id: NodeId, values: RowView)
    requires
        has_schema(c.columns, g.schema),
        !c.is_full(),
        !types_match(g.schema, values),
    ensures
        c.insert(node_id, values).state == c,
        c.insert(node_id, values).result == Err::<u64, ErrorView>(
            first_mismatch(empty_columns(g.schema), values, g.schema.len())->Some_0,
        ),
{
    assert forall|k: int| 0 <= k < c.columns.len() implies (#[trigger] c.columns[k]).data_type
        == empty_columns(g.schema)[k].data_type by {}
    row::lemma_mismatch_by_type(c.columns, empty_columns(g.schema), values, c.columns.len());
}

/// A row with a value of another type than its column is refused, and every row is as it was.
pub proof fn law_group_mismatch_refused(g: GroupView, node_id: NodeId, values: RowView, row: u64)
    requires
        g.regular(),
        !g.is_full(),
        !types_match(g.schema, values),
    ensures
        ({
            let i = g.insert(node_id, values);
            &&& i.result == Err::<u64, ErrorView>(
                first_mismatch(empty_columns(g.schema), values, g.schema.len())->Some_0,
            )
            &&& i.state.regular()
            &&& i.state.group_idx == g.group_idx
            &&& i.state.schema == g.schema
            &&& i.state.num_rows() == g.num_rows()
            &&& i.state.num_live_rows() == g.num_live_rows()
            &&& row < g.num_rows() ==> i.state.read(row) == g.read(row)
            &&& row < g.num_rows() ==> i.state.node_at(row) == g.node_at(row)
        }),
{
    lemma_active_chunk(g);
    let a = g.with_active_chunk();
    let n = a.chunks.len() - 1;
    let c = a.chunks[n];
    assert(c.valid() && c.aligned() && has_schema(c.columns, g.schema));
    lemma_refused_chunk(g, c, node_id, values);
    assert(a.chunks.update(n, c) =~= a.chunks);
    if row < g.num_rows() {
        assert(a.read(row) == g.read(row));
        assert(a.node_at(row) == g.node_at(row));
    }
}

/// Inserting does not change which columns a chunk has.
proof fn lemma_insert_keeps_schema(
    c: ChunkView,
    node_id: NodeId,
    values: RowView,
    schema: Seq<(ColumnId, DataType)>,
)
    requires
        has_schema(c.columns, schema),
    ensures
        has_schema(c.insert(node_id, values).state.columns, schema),
{
    row::lemma_append_keeps_schema(c.columns, values, c.columns.len(), schema);
}

/// Inserting keeps a group valid and dense, whether or not it succeeds. A row that is given is the
/// next one, and one of the group.
pub proof fn law_insert_keeps_dense(g: GroupView, node_id: NodeId, values: RowView)
    requires
        g.valid(),
        g.dense(),
    ensures
        ({
            let i = g.insert(node_id, values);
            &&& i.state.valid()
            &&& i.state.dense()
            &&& i.state.group_idx == g.group_idx
            &&& i.state.schema == g.schema
            &&& i.result matches Ok(row) ==> row == g.num_rows() && row
                < StorageConfig::NODE_GROUP_SIZE
        }),
{
    if !g.is_full() {
        let a = g.with_active_chunk();
        let n = a.chunks.len() - 1;
        let c = a.chunks[n];
        if g.chunks.len() > 0 {
            let last = g.chunks.len() - 1;
            assert(g.chunks[last].start_row == 2048 * last && g.chunks[last].valid());
        }
        assert(c.valid() && c.start_row == 2048 * n && c.len() < 2048);
        let i = c.insert(node_id, values);
        row::lemma_append_keeps_valid(c.columns, values, c.columns.len());
        assert(i.state.valid());
        let s = g.insert(node_id, values).state;
        assert forall|k: int| 0 <= k < s.chunks.len() implies (#[trigger] s.chunks[k]).valid()
            && s.chunks[k].start_row == 2048 * k && s.chunks[k].len() <= 2048 by {
            if k < n {
                assert(s.chunks[k] == g.chunks[k]);
            }
        }
        assert forall|k: int| 0 <= k < s.chunks.len() - 1 implies (#[trigger] s.chunks[k]).len()
            == 2048 by {
            assert(s.chunks[k] == g.chunks[k]);
        }
    }
}

/// Deleting keeps a group valid and dense.
pub proof fn law_delete_keeps_dense(g: GroupView, row: u64)
    requires
        g.valid(),
        g.dense(),
    ensures
        g.delete(row).valid(),
        g.delete(row).dense(),
        g.delete(row).group_idx == g.group_idx,
        g.delete(row).schema == g.schema,
        g.delete(row).num_rows() == g.num_rows(),
{
    let d = g.delete(row);
    match g.find_chunk(row) {
        Some((i, local)) => {
            assert forall|k: int| 0 <= k < d.chunks.len() implies (#[trigger] d.chunks[k]).valid()
                && d.chunks[k].start_row == 2048 * k && d.chunks[k].len() == g.chunks[k].len()
                && d.chunks[k].len() <= 2048 by {
                assert(g.chunks[k].valid() && g.chunks[k].start_row == 2048 * k);
            }
            assert forall|k: int| 0 <= k < d.chunks.len() - 1 implies (
            #[trigger] d.chunks[k]).len() == 2048 by {
                assert(g.chunks[k].len() == 2048);
            }
            let last = g.chunks.len() - 1;
            assert(d.chunks[last].len() == g.chunks[last].len());
        },
        None => {},
    }
}

/// A valid dense group has at most 65536 rows, and the rows below their number are there.
pub proof fn law_dense_bounds(g: GroupView)
    requires
        g.valid(),
        g.dense(),
    ensures
        g.sized(),
        g.num_rows() <= StorageConfig::NODE_GROUP_SIZE,
        g.num_live_rows() <= g.num_rows(),
        g.is_full() <==> g.num_rows() == StorageConfig::NODE_GROUP_SIZE,
        forall|row: u64| g.find_chunk(row) is Some <==> row < g.num_rows(),
{
    lemma_dense_live(g, g.chunks.len());
    assert forall|row: u64| g.find_chunk(row) is Some <==> row < g.num_rows() by {
        let i = row as int / 2048;
        if i < g.chunks.len() {
            assert(g.chunks[i].start_row == 2048 * i);
        }
        if g.chunks.len() > 0 {
            let last = g.chunks.len() - 1;
            assert(g.chunks[last].start_row == 2048 * last);
        }
    }
}

/// A full group takes no row.
pub proof fn law_full_group_refuses(g: GroupView, node_id: NodeId, values: RowView)
    requires
        g.is_full(),
    ensures
        g.insert(node_id, values).state == g,
        g.insert(node_id, values).result == Err::<u64, ErrorView>(ErrorView::NodeGroupFull),
{
}

/// Every row of a regular group can be read.
pub proof fn law_regular_reads(g: GroupView, row: u64)
    requires
        g.regular(),
        row < g.num_rows(),
    ensures
        g.read(row) is Ok,
        g.node_at(row) is Ok,
{
    law_dense_bounds(g);
    assert(g.find_chunk(row) is Some);
    let c = g.chunks[row as int / 2048];
    let local = (row - c.start_row) as u64;
    assert(c.valid() && c.aligned());
    if !c.deleted[local as int] {
        row::lemma_read_all_values(c.columns, local);
    }
}

/// The row at which a node is found is a row of the group, live and the node's.
pub proof fn lemma_find_row(g: GroupView, node_id: NodeId)
    requires
        g.valid(),
        g.dense(),
        g.find(node_id) is Some,
    ensures
        ({
            let row = g.find(node_id)->Some_0;
            &&& 0 <= row < g.num_rows()
            &&& g.node_at(row as u64) == Ok::<NodeId, ErrorView>(node_id)
        }),
{
    law_dense_bounds(g);
    search::lemma_first_where(g.chunks.len(), g.chunk_has(node_id));
    let i = first_where(g.chunks.len(), g.chunk_has(node_id))->Some_0;
    let c = g.chunks[i];
    search::lemma_first_where(c.len(), c.holds_node(node_id));
    assert(c.valid() && c.start_row == 2048 * i && c.len() <= 2048);
    let row = g.find(node_id)->Some_0;
    assert(row / 2048 == i);
    assert(g.find_chunk(row as u64) is Some);
}

/// A node is found at the first of its rows that is not deleted.
pub proof fn law_find_is_first(g: GroupView, node_id: NodeId)
    requires
        g.valid(),
        g.dense(),
    ensures
        g.find(node_id) == first_where(g.num_rows(), g.row_holds(node_id)),
{
    law_dense_bounds(g);
    let p = g.row_holds(node_id);
    let n = g.chunks.len();
    search::lemma_first_where(n, g.chunk_has(node_id));
    let first = first_where(n, g.chunk_has(node_id));
    assert forall|row: int| 0 <= row < g.num_rows() implies #[trigger] p(row) == g.chunks[row
        / 2048].holds_node(node_id)(row % 2048) by {
        let c = g.chunks[row / 2048];
        assert(c.valid() && c.start_row == 2048 * (row / 2048));
        assert(g.find_chunk(row as u64) == Some((row / 2048, (row % 2048) as u64)));
    }
    assert forall|row: int|
        0 <= row < g.num_rows() && (first matches Some(i) ==> row < g.find(
            node_id,
        )->Some_0) implies !#[trigger] p(row) by {
        let k = row / 2048;
        let c = g.chunks[k];
        assert(c.start_row == 2048 * k && c.len() <= 2048);
        search::lemma_first_where(c.len(), c.holds_node(node_id));
        assert(g.find_chunk(row as u64) is Some);
        match first {
            Some(i) => {
                let d = g.chunks[i];
                assert(d.start_row == 2048 * i && d.len() <= 2048);
                search::lemma_first_where(d.len(), d.holds_node(node_id));
                if k < i {
                    assert(!g.chunk_has(node_id)(k));
                }
            },
            None => {
                assert(!g.chunk_has(node_id)(k));
            },
        }
    }
    match first {
        Some(i) => {
            let d = g.chunks[i];
            assert(d.start_row == 2048 * i && d.len() <= 2048);
            search::lemma_first_where(d.len(), d.holds_node(node_id));
            lemma_find_row(g, node_id);
            let row = g.find(node_id)->Some_0;
            assert(row / 2048 == i);
            assert(p(row));
            search::lemma_first_where_is(g.num_rows(), p, row);
        },
        None => {
            search::lemma_first_where_none(g.num_rows(), p);
        },
    }
}

/// A row that was deleted reads as nothing; every other row is as it was, and if the row was live
/// there is one live row less.
pub proof fn law_group_delete_hides(g: GroupView, row: u64, other: u64)
    requires
        g.regular(),
        row < g.num_rows(),
    ensures
        g.delete(row).regular(),
        g.delete(row).num_rows() == g.num_rows(),
        g.delete(row).read(row) == Ok::<Option<RowView>, ErrorView>(None),
        g.delete(row).node_at(row) == g.node_at(row),
        other != row ==> g.delete(row).read(other) == g.read(other),
        other != row ==> g.delete(row).node_at(other) == g.node_at(other),
        !(g.read(row) matches Ok(None)) ==> g.delete(row).num_live_rows() == g.num_live_rows() - 1,
{
    law_dense_bounds(g);
    assert(g.find_chunk(row) is Some);
    let i = row as int / 2048;
    let c = g.chunks[i];
    let local = (row - c.start_row) as u64;
    let d = g.delete(row);
    assert(c.valid() && c.aligned() && has_schema(c.columns, g.schema));
    chunked_node_group::law_delete_hides(c, local, 0);
    assert(d.chunks[i] == c.delete(local as int));
    assert forall|k: int| 0 <= k < d.chunks.len() implies (#[trigger] d.chunks[k]).valid()
        && d.chunks[k].start_row == g.chunks[k].start_row && d.chunks[k].len() == g.chunks[k].len()
        && d.chunks[k].aligned() && has_schema(d.chunks[k].columns, d.schema) by {
        assert(g.chunks[k].valid() && g.chunks[k].aligned() && has_schema(
            g.chunks[k].columns,
            g.schema,
        ));
        if k != i {
            assert(d.chunks[k] == g.chunks[k]);
        }
    }
    assert(d.dense()) by {
        assert forall|k: int| 0 <= k < d.chunks.len() implies (#[trigger] d.chunks[k]).start_row
            == 2048 * k && d.chunks[k].len() <= 2048 by {
            assert(g.chunks[k].start_row == 2048 * k);
        }
        assert forall|k: int| 0 <= k < d.chunks.len() - 1 implies (#[trigger] d.chunks[k]).len()
            == 2048 by {
            assert(g.chunks[k].len() == 2048);
        }
    }
    let last = g.chunks.len() - 1;
    assert(d.chunks[last].len() == g.chunks[last].len());
    assert(d.find_chunk(row) == Some((i, local)));
    if other != row {
        let k = other as int / 2048;
        if k < g.chunks.len() {
            assert(d.chunks[k].len() == g.chunks[k].len());
            if k == i && c.contains(other) {
                chunked_node_group::law_delete_hides(
                    c,
                    local,
                    (other - c.start_row) as u64,
                );
            }
        }
    }
    if !(g.read(row) matches Ok(None)) {
        assert(c.live(local as int));
        lemma_live_update(g.chunks, i, c.delete(local as int), g.chunks.len());
    }
}

proof fn lemma_live_update(chunks: Seq<ChunkView>, i: int, c: ChunkView, n: nat)
    requires
        0 <= i < chunks.len(),
        n <= chunks.len(),
    ensures
        live_upto(chunks.update(i, c), n) == live_upto(chunks, n) + if i < n {
            count_false(c.deleted) - count_false(chunks[i].deleted)
        } else {
            0int
        },
    decreases n,
{
    if n > 0 {
        lemma_live_update(chunks, i, c, (n - 1) as nat);
    }
}

pub proof fn lemma_chunk_sum(chunks: Seq<ChunkView>, i: nat)
    requires
        i <= chunks.len(),
        concat(chunk_blobs(chunks)).len() <= u32::MAX,
    ensures
        sum_upto(chunk_lens(chunks), i) == blob_start(chunk_blobs(chunks), i as int),
        blob_start(chunk_blobs(chunks), i as int) <= u32::MAX,
        0 < i ==> chunks[i - 1].encoding().len() <= u32::MAX,
    decreases i,
{
    let blobs = chunk_blobs(chunks);
    codec::lemma_blob_start_mono(blobs, i as int, blobs.len() as int);
    if i > 0 {
        lemma_chunk_sum(chunks, (i - 1) as nat);
        codec::lemma_concat_take(blobs, i - 1);
        assert(blobs[i - 1] == chunks[i - 1].encoding());
    } else {
        assert(blobs.take(0) =~= Seq::empty());
    }
}

/// Chunk `i` is parsed from bytes that start with its own.
proof fn lemma_chunk_from_bytes(
    c: ChunkView,
    schema: Seq<(ColumnId, DataType)>,
    buf: Seq<u8>,
    start: int,
    end: int,
)
    requires
        c.valid(),
        has_schema(c.columns, schema),
        c.encoding().len() <= u32::MAX,
        holds_at(buf, start, c.encoding()),
        start + c.encoding().len() <= end <= buf.len(),
    ensures
        ChunkView::parse(schema, buf.subrange(start, end)) == Some(Ok::<ChunkView, ErrorView>(c)),
{
    let own = buf.subrange(start, end);
    chunked_node_group::lemma_small_chunk_fits(c);
    binary::lemma_holds_part(buf, start, end, c.encoding());
    chunked_node_group::law_chunk_roundtrip(c, schema, own);
}

proof fn lemma_chunks_roundtrip(
    chunks: Seq<ChunkView>,
    schema: Seq<(ColumnId, DataType)>,
    buf: Seq<u8>,
    data_start: int,
)
    requires
        forall|i: int|
            0 <= i < chunks.len() ==> (#[trigger] chunks[i]).valid() && has_schema(
                chunks[i].columns,
                schema,
            ),
        concat(chunk_blobs(chunks)).len() <= u32::MAX,
        0 <= data_start,
        holds_at(buf, data_start, concat(chunk_blobs(chunks))),
    ensures
        collect(
            chunks.len(),
            chunk_parser(schema, buf, data_start, chunk_offsets(chunks)),
        ) == Some(Ok::<Seq<ChunkView>, ErrorView>(chunks)),
{
    let blobs = chunk_blobs(chunks);
    let offsets = chunk_offsets(chunks);
    let f = chunk_parser(schema, buf, data_start, offsets);
    binary::lemma_holds_subrange(buf, data_start, concat(blobs));
    assert forall|i: int| 0 <= i < chunks.len() implies #[trigger] f(i) == Some(
        Ok::<ChunkView, ErrorView>(chunks[i]),
    ) by {
        assert(chunks[i].valid() && has_schema(chunks[i].columns, schema));
        lemma_chunk_sum(chunks, i as nat);
        lemma_chunk_sum(chunks, (i + 1) as nat);
        codec::lemma_concat_holds(buf, data_start, blobs, i);
        codec::lemma_concat_take(blobs, i);
        codec::lemma_blob_start_mono(blobs, i + 1, blobs.len() as int);
        assert(blobs[i] == chunks[i].encoding());
        let start = data_start + offsets[i];
        let end = if i + 1 < offsets.len() {
            data_start + offsets[i + 1]
        } else {
            buf.len() as int
        };
        lemma_chunk_from_bytes(chunks[i], schema, buf, start, end);
        assert(f(i) == parse_chunk(schema, buf, data_start, offsets, i));
    }
    codec::lemma_collect_all(chunks, f);
}

proof fn lemma_group_head(g: GroupView, buf: Seq<u8>)
    requires
        g.chunks.len() <= u32::MAX,
        holds_at(buf, 0, g.head()),
    ensures
        24 + 4 * g.chunks.len() <= buf.len(),
        u32_at(buf, 20) == g.chunks.len(),
        ints_at(buf, 24, g.chunks.len()) == chunk_offsets(g.chunks),
{
    reveal(GroupView::head);
    let offsets = chunk_offsets(g.chunks);
    let count = g.chunks.len() as u32;
    assert(low_u32(g.chunks.len() as int) == count);
    lemma_head_parts(
        buf,
        g.group_idx.0,
        g.num_rows() as u64,
        low_u32(g.num_live_rows() as int),
        count,
        offsets,
    );
}

proof fn lemma_head_parts(
    buf: Seq<u8>,
    idx: u64,
    rows: u64,
    live: u32,
    count: u32,
    offsets: Seq<u32>,
)
    requires
        holds_at(
            buf,
            0,
            u64_le(idx) + u64_le(rows) + u32_le(live) + u32_le(count) + ints_le(offsets),
        ),
    ensures
        24 + 4 * offsets.len() <= buf.len(),
        u32_at(buf, 20) == count,
        ints_at(buf, 24, offsets.len()) == offsets,
{
    let e3 = u64_le(idx) + u64_le(rows) + u32_le(live);
    let e4 = e3 + u32_le(count);
    binary::lemma_holds_append(buf, 0, e4, ints_le(offsets));
    binary::lemma_holds_append(buf, 0, e3, u32_le(count));
    binary::lemma_u32_at(buf, 20, count);
    binary::lemma_ints_at(buf, 24, offsets);
}

proof fn lemma_parse_group(g: GroupView, buf: Seq<u8>)
    requires
        g.chunks.len() <= u32::MAX,
        24 + 4 * g.chunks.len() <= buf.len(),
        u32_at(buf, 20) == g.chunks.len(),
        collect(
            g.chunks.len(),
            chunk_parser(
                g.schema,
                buf,
                24 + 4 * g.chunks.len() as int,
                ints_at(buf, 24, g.chunks.len()),
            ),
        ) == Some(Ok::<Seq<ChunkView>, ErrorView>(g.chunks)),
    ensures
        GroupView::parse(g.schema, g.group_idx, buf) == Some(Ok::<GroupView, ErrorView>(g)),
{
}

/// A group that was put on pages is read back from them as it was.
pub proof fn law_group_roundtrip(g: GroupView)
    requires
        g.valid(),
        forall|i: int|
            0 <= i < g.chunks.len() ==> has_schema((#[trigger] g.chunks[i]).columns, g.schema),
        g.chunks.len() <= u32::MAX,
        concat(chunk_blobs(g.chunks)).len() <= u32::MAX,
    ensures
        GroupView::parse(g.schema, g.group_idx, concat(pages_of(g.encoding()))) == Some(
            Ok::<GroupView, ErrorView>(g),
        ),
{
    let buf = concat(pages_of(g.encoding()));
    page::lemma_pages_hold(g.encoding());
    binary::lemma_holds_append(buf, 0, g.head(), concat(chunk_blobs(g.chunks)));
    lemma_head_len(g);
    lemma_group_head(g, buf);
    assert forall|i: int| 0 <= i < g.chunks.len() implies (#[trigger] g.chunks[i]).valid()
        && has_schema(g.chunks[i].columns, g.schema) by {}
    lemma_chunks_roundtrip(g.chunks, g.schema, buf, 24 + 4 * g.chunks.len() as int);
    lemma_parse_group(g, buf);
}

} // verus!
