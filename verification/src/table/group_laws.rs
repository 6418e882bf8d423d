//! What is read from columns and groups row by row: which rows there are, which of them are found, and
//! how many are live.

use vstd::prelude::*;

use crate::error::ErrorView;
use crate::search;
use crate::search::count_false;
use crate::storage::edge_group::PlainGroupView;
use crate::table::chunked_node_group::ChunkView;
use crate::table::column::ColumnView;
use crate::table::edge::{EdgeGroupView, RecordView};
use crate::table::node;
use crate::table::node::GroupView;
use crate::table::row;
use crate::table::row::RowView;
use crate::table::row_laws::of_type;
use crate::types::{ColumnId, DataType, EdgeId, NodeId, PropertyView};

verus! {

/// The error of a row behind the last of `len`.
pub open spec fn beyond(row: u64, len: nat) -> ErrorView {
    ErrorView::RowOutOfBounds { row, len: len as u64 }
}

/// A column has as many rows as were appended, and each is null or has a value. It takes 65536 values,
/// each if it is of the column's type or null.
pub proof fn law_column_rows(c: ColumnView, row: u64, value: PropertyView)
    requires
        c.valid(),
    ensures
        row >= c.len() ==> c.read(row) == Err::<Option<PropertyView>, ErrorView>(
            beyond(row, c.len()),
        ),
        row < c.len() ==> (c.read(row) matches Ok(v) && (v is None <==> c.nulls[row as int])),
        c.len() < 65536 ==> c.refusal(None) is None,
        c.len() < 65536 ==> (c.refusal(Some(value)) is None <==> of_type(value, c.data_type)),
        c.len() < 65536 && !of_type(value, c.data_type) ==> c.refusal(Some(value)) == Some(
            ErrorView::ColumnTypeMismatch { expected: c.data_type, got: value.data_type() },
        ),
        ColumnView::empty(c.column_id, c.data_type).len() == 0,
{
}

// ---------------------------------------------------------------------------------------------
// Chunks

/// A chunk holds the rows from its first on. It is full with 2048 of them.
pub proof fn law_chunk_rows(c: ChunkView, row: u64)
    requires
        c.valid(),
        c.aligned(),
    ensures
        row >= c.len() ==> c.read(row) == Err::<Option<RowView>, ErrorView>(beyond(row, c.len())),
        row >= c.len() ==> c.node_at(row) == Err::<NodeId, ErrorView>(beyond(row, c.len())),
        row < c.len() ==> c.read(row) is Ok && c.node_at(row) is Ok,
        c.is_full() <==> c.len() >= 2048,
        c.contains(row) <==> c.start_row <= row && row - c.start_row < c.len(),
{
    if row < c.len() {
        row::lemma_read_all_values(c.columns, row);
    }
}

/// A row of the chunk is the node's, and is read.
pub open spec fn chunk_reads(c: ChunkView, node_id: NodeId, row: int) -> bool {
    c.node_at(row as u64) == Ok::<NodeId, ErrorView>(node_id) && (c.read(
        row as u64,
    ) matches Ok(Some(_)))
}

/// The row at which a node is found is its first that is read; none is found exactly if none is read.
pub proof fn law_chunk_find(c: ChunkView, node_id: NodeId)
    requires
        c.valid(),
        c.aligned(),
    ensures
        match c.find(node_id) {
            Some(row) => 0 <= row < c.len() && chunk_reads(c, node_id, row) && forall|q: int|
                0 <= q < row ==> !#[trigger] chunk_reads(c, node_id, q),
            None => forall|q: int| 0 <= q < c.len() ==> !#[trigger] chunk_reads(c, node_id, q),
        },
{
    let p = c.holds_node(node_id);
    search::lemma_first_where(c.len(), p);
    assert forall|q: int| 0 <= q < c.len() implies #[trigger] chunk_reads(c, node_id, q) == p(q) by {
        row::lemma_read_all_values(c.columns, q as u64);
    }
}

/// There is one live row more for each row that is inserted, and one less for each that is deleted the
/// first time.
pub proof fn law_chunk_live(
    c: ChunkView,
    node_id: NodeId,
    values: RowView,
    row: u64,
    start: u64,
    schema: Seq<(ColumnId, DataType)>,
)
    requires
        c.valid(),
        c.aligned(),
    ensures
        count_false(ChunkView::empty(start, schema).deleted) == 0,
        count_false(c.insert(node_id, values).state.deleted) == count_false(c.deleted) + if c.insert(
            node_id,
            values,
        ).result is Ok {
            1int
        } else {
            0
        },
        row < c.len() ==> count_false(c.delete(row as int).deleted) == count_false(c.deleted)
            - if c.read(row) matches Ok(Some(_)) {
            1int
        } else {
            0
        },
{
    if row < c.len() {
        row::lemma_read_all_values(c.columns, row);
        search::lemma_count_false_set(c.deleted, row as int);
    }
    assert(c.deleted.push(false).drop_last() =~= c.deleted);
}

// ---------------------------------------------------------------------------------------------
// Groups of nodes

/// A group has as many rows as were inserted, and no other. It is full with 65536 of them.
pub proof fn law_group_rows(g: GroupView, row: u64)
    requires
        g.regular(),
    ensures
        row >= g.num_rows() ==> g.read(row) == Err::<Option<RowView>, ErrorView>(
            beyond(row, g.num_rows()),
        ),
        row >= g.num_rows() ==> g.node_at(row) == Err::<NodeId, ErrorView>(
            beyond(row, g.num_rows()),
        ),
        row >= g.num_rows() ==> g.delete(row) == g,
        row < g.num_rows() ==> g.read(row) is Ok && g.node_at(row) is Ok,
        g.is_full() <==> g.num_rows() >= 65536,
        g.find_chunk(row) is Some <==> row < g.num_rows(),
{
    node::law_dense_bounds(g);
    if row < g.num_rows() {
        node::law_regular_reads(g, row);
    }
    if g.chunks.len() > 0 {
        let n = g.chunks.len() - 1;
        assert(g.chunks[n].start_row == 2048 * n && g.chunks[n].len() <= 2048);
        let i = row as int / 2048;
        if i < g.chunks.len() {
            assert(g.chunks[i].start_row == 2048 * i && g.chunks[i].len() <= 2048);
        }
    }
}

/// A row of the group is the node's, and is read.
pub open spec fn group_reads(g: GroupView, node_id: NodeId, row: int) -> bool {
    g.node_at(row as u64) == Ok::<NodeId, ErrorView>(node_id) && (g.read(
        row as u64,
    ) matches Ok(Some(_)))
}

/// The row at which a node is found is its first that is read; none is found exactly if none is read.
pub proof fn law_group_find(g: GroupView, node_id: NodeId)
    requires
        g.regular(),
    ensures
        match g.find(node_id) {
            Some(row) => 0 <= row < g.num_rows() && group_reads(g, node_id, row) && forall|q: int|
                0 <= q < row ==> !#[trigger] group_reads(g, node_id, q),
            None => forall|q: int|
                0 <= q < g.num_rows() ==> !#[trigger] group_reads(g, node_id, q),
        },
{
    let p = g.row_holds(node_id);
    node::law_find_is_first(g, node_id);
    node::law_dense_bounds(g);
    search::lemma_first_where(g.num_rows(), p);
    assert forall|q: int| 0 <= q < g.num_rows() implies #[trigger] group_reads(g, node_id, q) == p(
        q,
    ) by {
        node::law_regular_reads(g, q as u64);
    }
}

// ---------------------------------------------------------------------------------------------
// Groups of edges

/// A group has as many rows as were inserted, and no other. It is full with 65536 of them.
pub proof fn law_edge_group_rows(g: EdgeGroupView, row: u64)
    requires
        g.regular(),
    ensures
        row >= g.len() ==> g.read(row) == Err::<Option<RecordView>, ErrorView>(
            beyond(row, g.len()),
        ),
        row < g.len() ==> g.read(row) is Ok,
        g.is_full() <==> g.len() >= 65536,
{
    if row < g.len() {
        row::lemma_read_all_values(g.columns, row);
    }
}

/// A row of the group is the edge's, and is read.
pub open spec fn edge_group_reads(g: EdgeGroupView, edge_id: EdgeId, row: int) -> bool {
    g.read(row as u64) matches Ok(Some(record)) && record.edge_id == edge_id
}

/// The row at which an edge is found is its first that is read; none is found exactly if none is read.
pub proof fn law_edge_group_find(g: EdgeGroupView, edge_id: EdgeId)
    requires
        g.regular(),
    ensures
        match g.find(edge_id) {
            Some(row) => 0 <= row < g.len() && edge_group_reads(g, edge_id, row) && forall|q: int|
                0 <= q < row ==> !#[trigger] edge_group_reads(g, edge_id, q),
            None => forall|q: int|
                0 <= q < g.len() ==> !#[trigger] edge_group_reads(g, edge_id, q),
        },
{
    let p = g.holds_edge(edge_id);
    search::lemma_first_where(g.len(), p);
    assert forall|q: int| 0 <= q < g.len() implies #[trigger] edge_group_reads(g, edge_id, q) == p(
        q,
    ) by {
        row::lemma_read_all_values(g.columns, q as u64);
    }
}

/// There is one live row more for each edge that is inserted, and one less for each row that is deleted
/// the first time.
pub proof fn law_edge_group_live(
    g: EdgeGroupView,
    offset: u64,
    edge_id: EdgeId,
    from: NodeId,
    to: NodeId,
    values: RowView,
    row: u64,
)
    requires
        g.regular(),
    ensures
        ({
            let i = g.insert(offset, edge_id, from, to, values);
            count_false(i.state.deleted) == count_false(g.deleted) + if i.result is Ok {
                1int
            } else {
                0
            }
        }),
        row < g.len() ==> count_false(g.delete(row).deleted) == count_false(g.deleted) - if g.read(
            row,
        ) matches Ok(Some(_)) {
            1int
        } else {
            0
        },
{
    if row < g.len() {
        row::lemma_read_all_values(g.columns, row);
        search::lemma_count_false_set(g.deleted, row as int);
    }
    assert(g.deleted.push(false).drop_last() =~= g.deleted);
}

/// A group in memory has as many rows as were inserted, and no other. It is full with 65536 of them.
pub proof fn law_plain_group_rows(g: PlainGroupView, row: u64)
    requires
        g.regular(),
    ensures
        row >= g.len() ==> g.read(row) == Err::<Option<RecordView>, ErrorView>(
            beyond(row, g.len()),
        ),
        row >= g.len() ==> g.no_row(row) == beyond(row, g.len()),
        row < g.len() ==> g.read(row) is Ok,
        g.is_full() <==> g.len() >= 65536,
{
    if row < g.len() {
        row::lemma_read_all_values(g.columns, row);
    }
}

/// A row of the group is the edge's, and is read.
pub open spec fn plain_group_reads(g: PlainGroupView, edge_id: EdgeId, row: int) -> bool {
    g.read(row as u64) matches Ok(Some(record)) && record.edge_id == edge_id
}

/// The row at which an edge is found is its first that is read; none is found exactly if none is read.
pub proof fn law_plain_group_find(g: PlainGroupView, edge_id: EdgeId)
    requires
        g.regular(),
    ensures
        match g.find(edge_id) {
            Some(row) => 0 <= row < g.len() && plain_group_reads(g, edge_id, row) && forall|q: int|
                0 <= q < row ==> !#[trigger] plain_group_reads(g, edge_id, q),
            None => forall|q: int|
                0 <= q < g.len() ==> !#[trigger] plain_group_reads(g, edge_id, q),
        },
{
    let p = g.holds_edge(edge_id);
    search::lemma_first_where(g.len(), p);
    assert forall|q: int| 0 <= q < g.len() implies #[trigger] plain_group_reads(g, edge_id, q) == p(
        q,
    ) by {
        row::lemma_read_all_values(g.columns, q as u64);
    }
}

/// A row that was deleted is not read, and every other is read as before.
pub proof fn law_plain_group_delete(g: PlainGroupView, row: u64, other: u64)
    requires
        g.regular(),
        row < g.len(),
    ensures
        g.delete(row).regular(),
        g.delete(row).len() == g.len(),
        g.delete(row).read(row) == Ok::<Option<RecordView>, ErrorView>(None),
        other != row ==> g.delete(row).read(other) == g.read(other),
        count_false(g.delete(row).deleted) == count_false(g.deleted) - if g.read(
            row,
        ) matches Ok(Some(_)) {
            1int
        } else {
            0
        },
{
    row::lemma_read_all_values(g.columns, row);
    search::lemma_count_false_set(g.deleted, row as int);
}

} // verus!
