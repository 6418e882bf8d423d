//! What holds of edge tables: what is read and which neighbors there are after inserting and
//! deleting.

use vstd::prelude::*;

use crate::adjacency::EdgeRef;
use crate::catalog::EdgeTypeView;
use crate::error::ErrorView;
use crate::ordered_map;
use crate::ordered_map::{put, sorted};
use crate::search;
use crate::search::count_false;
use crate::state::edge_table::{
    delete_in, group_has, groups_live, groups_of, insert_in, locate, range_has, range_of,
    ranges_live, ref_at, refs_of_groups, refs_of_rows, with_active_group, EdgeTableView, Ranges,
};
use crate::storage::adjacency_index::without_edge;
use crate::table::column::ColumnView;
use crate::table::edge;
use crate::table::edge::{EdgeGroupView, RecordView};
use crate::table::node::{padded, types_match};
use crate::table::row;
use crate::table::row::{empty_columns, has_schema, RowView};
use crate::types::{ColumnId, DataType, Direction, EdgeId, LabelId, NodeGroupIdx, NodeId};

verus! {

/// A group of a range: built by inserting and deleting, with the columns of the schema. An edge that is
/// refused is refused by its source's group, so only forward groups can have uneven columns.
pub open spec fn group_ok(
    g: EdgeGroupView,
    k: u64,
    direction: Direction,
    schema: Seq<(ColumnId, DataType)>,
) -> bool {
    &&& g.regular()
    &&& has_schema(g.columns, schema)
    &&& g.group_idx.0 == k
    &&& g.offset_base == k * 65536
    &&& g.direction == direction
    &&& direction == Direction::Backward ==> g.even()
}

/// The groups of a range, of which only the last is not full.
pub open spec fn groups_ok(
    groups: Seq<EdgeGroupView>,
    k: u64,
    direction: Direction,
    schema: Seq<(ColumnId, DataType)>,
) -> bool {
    &&& groups.len() > 0
    &&& forall|j: int|
        0 <= j < groups.len() ==> group_ok(#[trigger] groups[j], k, direction, schema)
    &&& forall|j: int| 0 <= j < groups.len() - 1 ==> (#[trigger] groups[j]).is_full()
}

/// The ranges of a direction.
pub open spec fn ranges_ok(
    ranges: Ranges,
    direction: Direction,
    schema: Seq<(ColumnId, DataType)>,
) -> bool {
    &&& sorted(ranges)
    &&& forall|i: int|
        0 <= i < ranges.len() ==> (#[trigger] ranges[i]).0 < 0xffff_ffff_ffff && groups_ok(
            ranges[i].1,
            ranges[i].0,
            direction,
            schema,
        )
}

/// An edge is in a live row of a group of a range.
pub open spec fn edge_at(ranges: Ranges, edge_id: EdgeId, k: u64, j: int, row: u64) -> bool {
    let groups = groups_of(ranges, k);
    &&& 0 <= j < groups.len()
    &&& groups[j].live(row)
    &&& groups[j].edge_ids[row as int] == edge_id
}

/// The edge is in no two rows.
pub open spec fn once(ranges: Ranges, edge_id: EdgeId) -> bool {
    forall|k: u64, j: int, row: u64, k2: u64, j2: int, row2: u64|
        #[trigger] edge_at(ranges, edge_id, k, j, row) && #[trigger] edge_at(
            ranges,
            edge_id,
            k2,
            j2,
            row2,
        ) ==> k == k2 && j == j2 && row == row2
}

/// The row is the first that the edge is in.
pub open spec fn first_at(ranges: Ranges, edge_id: EdgeId, k: u64, j: int, row: u64) -> bool {
    &&& edge_at(ranges, edge_id, k, j, row)
    &&& forall|k2: u64, j2: int, row2: u64| #[trigger]
        edge_at(ranges, edge_id, k2, j2, row2) ==> k < k2 || (k == k2 && (j < j2 || (j == j2 && row
            <= row2)))
}

/// The edge is in no row.
pub open spec fn absent(ranges: Ranges, edge_id: EdgeId) -> bool {
    forall|k: u64, j: int, row: u64| !#[trigger] edge_at(ranges, edge_id, k, j, row)
}

/// The live rows that the edge is in, each as a range, a group of it and a row.
pub open spec fn places(ranges: Ranges, edge_id: EdgeId) -> Set<(u64, int, u64)> {
    Set::new(|p: (u64, int, u64)| edge_at(ranges, edge_id, p.0, p.1, p.2))
}

/// The edge is in as many rows of one direction as of the other.
pub open spec fn paired(fwd: Ranges, bwd: Ranges, edge_id: EdgeId) -> bool {
    &&& places(fwd, edge_id).finite()
    &&& places(bwd, edge_id).finite()
    &&& places(fwd, edge_id).len() == places(bwd, edge_id).len()
}

/// Every edge is in as many rows of one direction as of the other.
pub open spec fn mirrored(fwd: Ranges, bwd: Ranges) -> bool {
    forall|edge_id: EdgeId| #[trigger] paired(fwd, bwd, edge_id)
}

/// What reading an edge from the groups of a direction gives.
pub open spec fn read_in(ranges: Ranges, edge_id: EdgeId) -> Result<
    Option<RecordView>,
    ErrorView,
> {
    match locate(ranges, edge_id) {
        Some((i, j)) => {
            let g = ranges[i].1[j];
            g.read(g.find(edge_id)->Some_0 as u64)
        },
        None => Ok(None),
    }
}

/// The edges at an offset in the groups of a direction.
pub open spec fn refs_in(
    ranges: Ranges,
    offset: u64,
    type_id: LabelId,
    direction: Direction,
) -> Seq<EdgeRef> {
    let groups = groups_of(ranges, range_of(offset));
    refs_of_groups(groups, groups.len(), offset, type_id, direction)
}

/// The neighbor that an edge leads to in a direction.
pub open spec fn far_end(from: NodeId, to: NodeId, direction: Direction) -> NodeId {
    match direction {
        Direction::Forward => to,
        Direction::Backward => from,
    }
}

// ---------------------------------------------------------------------------------------------
// Places of edges

/// The groups of a range that is there.
pub proof fn lemma_range(ranges: Ranges, direction: Direction, schema: Seq<(ColumnId, DataType)>, k: u64)
    requires
        ranges_ok(ranges, direction, schema),
        groups_of(ranges, k).len() > 0,
    ensures
        k < 0xffff_ffff_ffff,
        groups_ok(groups_of(ranges, k), k, direction, schema),
{
    let i = ordered_map::rank(ranges, k) as int;
    assert(ranges[i].0 == k);
}

/// Searching finds a place of the edge, if there is one.
pub proof fn lemma_locate_place(ranges: Ranges, edge_id: EdgeId)
    requires
        sorted(ranges),
    ensures
        match locate(ranges, edge_id) {
            Some((i, j)) => {
                let row = ranges[i].1[j].find(edge_id);
                &&& 0 <= i < ranges.len()
                &&& 0 <= j < ranges[i].1.len()
                &&& row is Some
                &&& 0 <= row->Some_0 < ranges[i].1[j].len()
                &&& groups_of(ranges, ranges[i].0) == ranges[i].1
                &&& ranges[i].1[j].len() <= u64::MAX ==> edge_at(
                    ranges,
                    edge_id,
                    ranges[i].0,
                    j,
                    row->Some_0 as u64,
                )
            },
            None => absent(ranges, edge_id),
        },
{
    let p = range_has(ranges, edge_id);
    search::lemma_first_where(ranges.len(), p);
    match locate(ranges, edge_id) {
        Some((i, j)) => {
            assert(p(i));
            let groups = ranges[i].1;
            let q = group_has(groups, edge_id);
            search::lemma_first_where(groups.len(), q);
            assert(q(j));
            let g = groups[j];
            search::lemma_first_where(g.len(), g.holds_edge(edge_id));
            assert(g.holds_edge(edge_id)(g.find(edge_id)->Some_0));
            ordered_map::lemma_rank_at(ranges, i);
        },
        None => {
            assert forall|k: u64, j: int, row: u64| !#[trigger] edge_at(
                ranges,
                edge_id,
                k,
                j,
                row,
            ) by {
                if edge_at(ranges, edge_id, k, j, row) {
                    let i = ordered_map::rank(ranges, k) as int;
                    let groups = ranges[i].1;
                    let g = groups[j];
                    search::lemma_first_where(g.len(), g.holds_edge(edge_id));
                    assert(g.holds_edge(edge_id)(row as int));
                    search::lemma_first_where(groups.len(), group_has(groups, edge_id));
                    assert(group_has(groups, edge_id)(j));
                    assert(p(i));
                }
            }
        },
    }
}

/// Searching finds the first row that the edge is in.
pub proof fn lemma_locate_first(
    ranges: Ranges,
    direction: Direction,
    schema: Seq<(ColumnId, DataType)>,
    edge_id: EdgeId,
)
    requires
        ranges_ok(ranges, direction, schema),
    ensures
        match locate(ranges, edge_id) {
            Some((i, j)) => {
                let k = ranges[i].0;
                let row = ranges[i].1[j].find(edge_id);
                &&& 0 <= i < ranges.len()
                &&& i == ordered_map::rank(ranges, k)
                &&& ranges[i].1 == groups_of(ranges, k)
                &&& row is Some
                &&& 0 <= row->Some_0 <= u64::MAX
                &&& first_at(ranges, edge_id, k, j, row->Some_0 as u64)
                &&& read_in(ranges, edge_id) == groups_of(ranges, k)[j].read(row->Some_0 as u64)
            },
            None => absent(ranges, edge_id) && read_in(ranges, edge_id) == Ok::<
                Option<RecordView>,
                ErrorView,
            >(None),
        },
{
    lemma_locate_place(ranges, edge_id);
    match locate(ranges, edge_id) {
        Some((i, j)) => {
            let k = ranges[i].0;
            let groups = ranges[i].1;
            assert(groups_ok(groups, k, direction, schema));
            assert(group_ok(groups[j], k, direction, schema));
            ordered_map::lemma_rank_at(ranges, i);
            let row = groups[j].find(edge_id)->Some_0 as u64;
            let p = range_has(ranges, edge_id);
            search::lemma_first_where(ranges.len(), p);
            search::lemma_first_where(groups.len(), group_has(groups, edge_id));
            search::lemma_first_where(groups[j].len(), groups[j].holds_edge(edge_id));
            assert forall|k2: u64, j2: int, row2: u64| #[trigger]
                edge_at(ranges, edge_id, k2, j2, row2) implies k < k2 || (k == k2 && (j < j2 || (j
                == j2 && row <= row2))) by {
                let i2 = ordered_map::rank(ranges, k2) as int;
                let groups2 = ranges[i2].1;
                let g2 = groups2[j2];
                search::lemma_first_where(g2.len(), g2.holds_edge(edge_id));
                assert(g2.holds_edge(edge_id)(row2 as int));
                search::lemma_first_where(groups2.len(), group_has(groups2, edge_id));
                assert(group_has(groups2, edge_id)(j2));
                assert(p(i2));
                assert(i <= i2);
                if i < i2 {
                    assert(ranges[i].0 < ranges[i2].0);
                }
            }
        },
        None => {},
    }
}

/// Where an edge is in one row, that is the row that searching finds.
pub proof fn lemma_read_at(
    ranges: Ranges,
    direction: Direction,
    schema: Seq<(ColumnId, DataType)>,
    edge_id: EdgeId,
    k: u64,
    j: int,
    row: u64,
)
    requires
        ranges_ok(ranges, direction, schema),
        first_at(ranges, edge_id, k, j, row),
    ensures
        ({
            let i = ordered_map::rank(ranges, k) as int;
            &&& locate(ranges, edge_id) == Some((i, j))
            &&& 0 <= i < ranges.len()
            &&& ranges[i] == (k, groups_of(ranges, k))
            &&& ranges[i].1[j].find(edge_id) == Some(row as int)
        }),
        read_in(ranges, edge_id) == groups_of(ranges, k)[j].read(row),
{
    lemma_locate_first(ranges, direction, schema, edge_id);
    match locate(ranges, edge_id) {
        Some((i, jj)) => {
            let r = ranges[i].1[jj].find(edge_id)->Some_0 as u64;
            assert(edge_at(ranges, edge_id, ranges[i].0, jj, r));
            assert(edge_at(ranges, edge_id, k, j, row));
        },
        None => {
            assert(!edge_at(ranges, edge_id, k, j, row));
        },
    }
}

/// An edge that is in the same rows, and is read alike from them, is read alike.
pub proof fn lemma_same_places(
    a: Ranges,
    b: Ranges,
    direction: Direction,
    schema: Seq<(ColumnId, DataType)>,
    edge_id: EdgeId,
)
    requires
        ranges_ok(a, direction, schema),
        ranges_ok(b, direction, schema),
        forall|k: u64, j: int, row: u64| #[trigger]
            edge_at(b, edge_id, k, j, row) <==> edge_at(a, edge_id, k, j, row),
        forall|k: u64, j: int, row: u64| #[trigger]
            edge_at(b, edge_id, k, j, row) ==> groups_of(b, k)[j].read(row) == groups_of(
                a,
                k,
            )[j].read(row),
    ensures
        read_in(b, edge_id) == read_in(a, edge_id),
        absent(b, edge_id) == absent(a, edge_id),
        once(b, edge_id) == once(a, edge_id),
{
    lemma_locate_first(a, direction, schema, edge_id);
    lemma_locate_first(b, direction, schema, edge_id);
    match locate(a, edge_id) {
        Some((i, j)) => {
            let k = a[i].0;
            let row = a[i].1[j].find(edge_id)->Some_0 as u64;
            assert(edge_at(b, edge_id, k, j, row) == edge_at(a, edge_id, k, j, row));
            assert forall|k2: u64, j2: int, row2: u64| #[trigger]
                edge_at(b, edge_id, k2, j2, row2) implies k < k2 || (k == k2 && (j < j2 || (j == j2
                && row <= row2))) by {
                assert(edge_at(a, edge_id, k2, j2, row2));
            }
            lemma_read_at(b, direction, schema, edge_id, k, j, row);
        },
        None => {
            assert forall|k: u64, j: int, row: u64| !#[trigger] edge_at(b, edge_id, k, j, row) by {
                assert(!edge_at(a, edge_id, k, j, row));
            }
            lemma_absent_read(b, direction, schema, edge_id);
        },
    }
    if absent(b, edge_id) {
        assert forall|k: u64, j: int, row: u64| !#[trigger] edge_at(a, edge_id, k, j, row) by {
            assert(!edge_at(b, edge_id, k, j, row));
        }
    }
    if once(b, edge_id) {
        assert forall|k: u64, j: int, row: u64, k2: u64, j2: int, row2: u64|
            #[trigger] edge_at(a, edge_id, k, j, row) && #[trigger] edge_at(
                a,
                edge_id,
                k2,
                j2,
                row2,
            ) implies k == k2 && j == j2 && row == row2 by {
            assert(edge_at(b, edge_id, k, j, row) && edge_at(b, edge_id, k2, j2, row2));
        }
    }
}

// ---------------------------------------------------------------------------------------------
// Inserting

pub proof fn lemma_refs_of_rows_same(
    a: EdgeGroupView,
    b: EdgeGroupView,
    s: Seq<u64>,
    t: Seq<u64>,
    n: nat,
    type_id: LabelId,
    direction: Direction,
)
    requires
        n <= s.len(),
        n <= t.len(),
        forall|x: int| 0 <= x < n ==> #[trigger] s[x] == t[x],
        forall|x: int|
            0 <= x < n ==> ref_at(a, #[trigger] s[x], type_id, direction) == ref_at(
                b,
                s[x],
                type_id,
                direction,
            ),
    ensures
        refs_of_rows(a, s, n, type_id, direction) == refs_of_rows(b, t, n, type_id, direction),
    decreases n,
{
    if n > 0 {
        lemma_refs_of_rows_same(a, b, s, t, (n - 1) as nat, type_id, direction);
        assert(s[n - 1] == t[n - 1]);
    }
}

proof fn lemma_refs_of_groups_prefix(
    a: Seq<EdgeGroupView>,
    b: Seq<EdgeGroupView>,
    n: nat,
    offset: u64,
    type_id: LabelId,
    direction: Direction,
)
    requires
        n <= a.len(),
        n <= b.len(),
        forall|j: int| 0 <= j < n ==> #[trigger] a[j] == b[j],
    ensures
        refs_of_groups(a, n, offset, type_id, direction) == refs_of_groups(
            b,
            n,
            offset,
            type_id,
            direction,
        ),
    decreases n,
{
    if n > 0 {
        lemma_refs_of_groups_prefix(a, b, (n - 1) as nat, offset, type_id, direction);
        assert(a[n - 1] == b[n - 1]);
    }
}

proof fn lemma_groups_live_prefix(a: Seq<EdgeGroupView>, b: Seq<EdgeGroupView>, n: nat)
    requires
        n <= a.len(),
        n <= b.len(),
        forall|j: int| 0 <= j < n ==> #[trigger] a[j] == b[j],
    ensures
        groups_live(a, n) == groups_live(b, n),
    decreases n,
{
    if n > 0 {
        lemma_groups_live_prefix(a, b, (n - 1) as nat);
        assert(a[n - 1] == b[n - 1]);
    }
}

/// The groups of a range with one that has room at the end hold the same edges.
pub proof fn lemma_active_groups(
    groups: Seq<EdgeGroupView>,
    k: u64,
    direction: Direction,
    schema: Seq<(ColumnId, DataType)>,
    offset: u64,
    type_id: LabelId,
)
    requires
        k < 0xffff_ffff_ffff,
        groups.len() > 0 ==> groups_ok(groups, k, direction, schema),
    ensures
        ({
            let a = with_active_group(groups, k, direction, schema);
            &&& groups_ok(a, k, direction, schema)
            &&& !a.last().is_full()
            &&& groups.len() <= a.len() <= groups.len() + 1
            &&& forall|j: int| 0 <= j < groups.len() ==> #[trigger] a[j] == groups[j]
            &&& a.len() > groups.len() ==> a.last().len() == 0
            &&& refs_of_groups(a, a.len(), offset, type_id, direction) == refs_of_groups(
                groups,
                groups.len(),
                offset,
                type_id,
                direction,
            )
            &&& groups_live(a, a.len()) == groups_live(groups, groups.len())
        }),
{
    let a = with_active_group(groups, k, direction, schema);
    if groups.len() == 0 || groups.last().is_full() {
        let e = EdgeGroupView::empty(NodeGroupIdx(k), direction, schema);
        edge::law_empty_edge_group_regular(NodeGroupIdx(k), direction, schema);
        assert(e.found(offset).len() == 0);
        assert forall|j: int| 0 <= j < a.len() implies group_ok(
            #[trigger] a[j],
            k,
            direction,
            schema,
        ) by {
            if j < groups.len() {
                assert(a[j] == groups[j]);
            }
        }
        assert forall|j: int| 0 <= j < a.len() - 1 implies (#[trigger] a[j]).is_full() by {
            assert(a[j] == groups[j]);
            if j == groups.len() - 1 {
                assert(groups.last() == groups[j]);
            }
        }
        lemma_refs_of_groups_prefix(a, groups, groups.len(), offset, type_id, direction);
        lemma_groups_live_prefix(a, groups, groups.len());
        assert(refs_of_groups(a, a.len(), offset, type_id, direction) =~= refs_of_groups(
            groups,
            groups.len(),
            offset,
            type_id,
            direction,
        ));
    }
}

/// What inserting an edge into a group that has room does.
pub proof fn lemma_insert_group(
    g: EdgeGroupView,
    k: u64,
    direction: Direction,
    schema: Seq<(ColumnId, DataType)>,
    offset: u64,
    edge_id: EdgeId,
    from: NodeId,
    to: NodeId,
    values: RowView,
    other: u64,
    row: u64,
)
    requires
        k < 0xffff_ffff_ffff,
        group_ok(g, k, direction, schema),
        !g.is_full(),
        range_of(offset) == k,
    ensures
        ({
            let i = g.insert(offset, edge_id, from, to, values);
            &&& types_match(schema, values) && g.even() ==> i.result is Ok
            &&& i.result is Ok ==> {
                &&& types_match(schema, values)
                &&& i.result == Ok::<u64, ErrorView>(g.len() as u64)
                &&& group_ok(i.state, k, direction, schema)
                &&& g.even() ==> i.state.even()
                &&& i.state.len() == g.len() + 1
                &&& i.state.edge_ids == g.edge_ids.push(edge_id)
                &&& i.state.deleted == g.deleted.push(false)
                &&& i.state.found(offset) == g.found(offset).push(g.len() as u64)
                &&& other != offset ==> i.state.found(other) == g.found(other)
                &&& i.state.read(g.len() as u64) matches Ok(Some(record)) && record.edge_id
                    == edge_id && record.from == from && record.to == to && (g.even()
                    ==> record.properties == padded(schema, values))
                &&& row < g.len() ==> i.state.read(row) == g.read(row)
            }
            &&& i.result is Err && direction == Direction::Forward ==> {
                &&& group_ok(i.state, k, direction, schema)
                &&& i.state == (EdgeGroupView { columns: i.state.columns, ..g })
                &&& i.state.read(row) == g.read(row)
            }
        }),
{
    assert forall|c: int| 0 <= c < g.columns.len() implies (#[trigger] g.columns[c]).data_type
        == empty_columns(schema)[c].data_type by {}
    row::lemma_mismatch_by_type(g.columns, empty_columns(schema), values, g.columns.len());
    edge::law_insert_edge_then_find(g, offset, edge_id, from, to, values, other, row);
    row::lemma_append_keeps_schema(g.columns, values, g.columns.len(), schema);
    assert(Seq::new(g.columns.len(), |c: int| row::value_for(values, c)) =~= padded(
        schema,
        values,
    ));
    if g.insert(offset, edge_id, from, to, values).result is Err {
        edge::law_refused_edge(g, offset, edge_id, from, to, values, row);
    }
}

/// What inserting an edge does to the references of the group.
proof fn lemma_insert_group_refs(
    g: EdgeGroupView,
    k: u64,
    direction: Direction,
    schema: Seq<(ColumnId, DataType)>,
    offset: u64,
    edge_id: EdgeId,
    from: NodeId,
    to: NodeId,
    values: RowView,
    other: u64,
    type_id: LabelId,
)
    requires
        k < 0xffff_ffff_ffff,
        group_ok(g, k, direction, schema),
        !g.is_full(),
        range_of(offset) == k,
        g.insert(offset, edge_id, from, to, values).result is Ok || direction
            == Direction::Forward,
    ensures
        ({
            let i = g.insert(offset, edge_id, from, to, values);
            let s = i.state;
            let before = refs_of_rows(
                g,
                g.found(other),
                g.found(other).len(),
                type_id,
                direction,
            );
            let after = refs_of_rows(s, s.found(other), s.found(other).len(), type_id, direction);
            after == if other == offset && i.result is Ok {
                before.push(
                    EdgeRef { edge_id, type_id, neighbor: far_end(from, to, direction) },
                )
            } else {
                before
            }
        }),
{
    let s = g.insert(offset, edge_id, from, to, values).state;
    lemma_insert_group(g, k, direction, schema, offset, edge_id, from, to, values, other, 0);
    let a = g.found(other);
    let b = s.found(other);
    assert forall|x: int| 0 <= x < a.len() implies ref_at(
        s,
        #[trigger] b[x],
        type_id,
        direction,
    ) == ref_at(g, b[x], type_id, direction) by {
        assert(a.contains(a[x]));
        edge::law_found_is_live(g, other, a[x]);
        assert(g.live(a[x]));
        lemma_insert_group(
            g,
            k,
            direction,
            schema,
            offset,
            edge_id,
            from,
            to,
            values,
            other,
            a[x],
        );
    }
    lemma_refs_of_rows_same(s, g, b, a, a.len(), type_id, direction);
}

/// The group that an edge goes into.
pub open spec fn active_group(
    ranges: Ranges,
    direction: Direction,
    schema: Seq<(ColumnId, DataType)>,
    offset: u64,
) -> EdgeGroupView {
    let k = range_of(offset);
    with_active_group(groups_of(ranges, k), k, direction, schema).last()
}

/// What inserting an edge into the groups of a direction does: it is the last of the edges at its
/// offset, unless it is refused; at other offsets everything is as it was.
proof fn lemma_insert_in(
    ranges: Ranges,
    direction: Direction,
    schema: Seq<(ColumnId, DataType)>,
    offset: u64,
    edge_id: EdgeId,
    from: NodeId,
    to: NodeId,
    values: RowView,
    other: u64,
    type_id: LabelId,
)
    requires
        ranges_ok(ranges, direction, schema),
        range_of(offset) < 0xffff_ffff_ffff,
        direction == Direction::Forward || types_match(schema, values),
    ensures
        ({
            let i = insert_in(ranges, direction, schema, offset, edge_id, from, to, values);
            let g = active_group(ranges, direction, schema, offset);
            let before = refs_in(ranges, other, type_id, direction);
            &&& direction == Direction::Backward ==> g.even()
            &&& types_match(schema, values) && g.even() ==> i.result is Ok
            &&& i.result is Ok ==> types_match(schema, values)
            &&& ranges_ok(i.ranges, direction, schema)
            &&& refs_in(i.ranges, other, type_id, direction) == if other == offset && i.result is Ok {
                before.push(
                    EdgeRef { edge_id, type_id, neighbor: far_end(from, to, direction) },
                )
            } else {
                before
            }
            &&& ranges_live(i.ranges, i.ranges.len()) == ranges_live(ranges, ranges.len()) + if i.result is Ok {
                1int
            } else {
                0
            }
        }),
{
    let k = range_of(offset);
    let groups = groups_of(ranges, k);
    if groups.len() > 0 {
        lemma_range(ranges, direction, schema, k);
    }
    let a = with_active_group(groups, k, direction, schema);
    let n = a.len() - 1;
    lemma_active_groups(groups, k, direction, schema, other, type_id);
    let g = a[n];
    assert(group_ok(g, k, direction, schema));
    lemma_insert_group(g, k, direction, schema, offset, edge_id, from, to, values, other, 0);
    let s = g.insert(offset, edge_id, from, to, values).state;
    let after = a.update(n, s);
    assert(groups_ok(after, k, direction, schema)) by {
        assert forall|j: int| 0 <= j < after.len() implies group_ok(
            #[trigger] after[j],
            k,
            direction,
            schema,
        ) by {
            if j != n {
                assert(after[j] == a[j]);
            }
        }
        assert forall|j: int| 0 <= j < after.len() - 1 implies (#[trigger] after[j]).is_full() by {
            assert(after[j] == a[j]);
        }
    }
    let result = insert_in(ranges, direction, schema, offset, edge_id, from, to, values);
    lemma_put_ok(ranges, direction, schema, k, after);
    let k2 = range_of(other);
    ordered_map::law_put_then_lookup(ranges, k, after, k2);
    if k2 == k {
        lemma_insert_group_refs(
            g,
            k,
            direction,
            schema,
            offset,
            edge_id,
            from,
            to,
            values,
            other,
            type_id,
        );
        lemma_refs_of_groups_prefix(after, a, n as nat, other, type_id, direction);
        let head = refs_of_groups(a, n as nat, other, type_id, direction);
        let tail = refs_of_rows(g, g.found(other), g.found(other).len(), type_id, direction);
        let r = EdgeRef { edge_id, type_id, neighbor: far_end(from, to, direction) };
        assert(head + tail.push(r) =~= (head + tail).push(r));
    }
    lemma_groups_live_prefix(after, a, n as nat);
    if result.result is Ok {
        assert(s.deleted.drop_last() =~= g.deleted);
    }
    lemma_ranges_live_put(ranges, k, after);
}

/// A range can be replaced by one of the same kind.
pub proof fn lemma_put_ok(
    ranges: Ranges,
    direction: Direction,
    schema: Seq<(ColumnId, DataType)>,
    k: u64,
    groups: Seq<EdgeGroupView>,
)
    requires
        ranges_ok(ranges, direction, schema),
        k < 0xffff_ffff_ffff,
        groups_ok(groups, k, direction, schema),
    ensures
        ranges_ok(put(ranges, k, groups), direction, schema),
{
    ordered_map::law_put_then_lookup(ranges, k, groups, 0);
    ordered_map::lemma_rank(ranges, k);
    let r = put(ranges, k, groups);
    let at = ordered_map::rank(ranges, k) as int;
    assert forall|i: int| 0 <= i < r.len() implies (#[trigger] r[i]).0 < 0xffff_ffff_ffff
        && groups_ok(r[i].1, r[i].0, direction, schema) by {
        if i == at {
            assert(r[i] == (k, groups));
        } else if ordered_map::has_key(ranges, k) || i < at {
            assert(r[i] == ranges[i]);
        } else {
            assert(r[i] == ranges[i - 1]);
        }
    }
}

proof fn lemma_ranges_live_update(ranges: Ranges, i: int, e: (u64, Seq<EdgeGroupView>), n: nat)
    requires
        0 <= i < ranges.len(),
        n <= ranges.len(),
    ensures
        ranges_live(ranges.update(i, e), n) == ranges_live(ranges, n) + if i < n {
            groups_live(e.1, e.1.len()) - groups_live(ranges[i].1, ranges[i].1.len())
        } else {
            0int
        },
    decreases n,
{
    if n > 0 {
        lemma_ranges_live_update(ranges, i, e, (n - 1) as nat);
    }
}

proof fn lemma_ranges_live_insert(ranges: Ranges, i: int, e: (u64, Seq<EdgeGroupView>), n: nat)
    requires
        0 <= i <= ranges.len(),
        n <= ranges.len() + 1,
    ensures
        ranges_live(ranges.insert(i, e), n) == if i < n {
            ranges_live(ranges, (n - 1) as nat) + groups_live(e.1, e.1.len())
        } else {
            ranges_live(ranges, n)
        },
    decreases n,
{
    if n > 0 {
        lemma_ranges_live_insert(ranges, i, e, (n - 1) as nat);
        let r = ranges.insert(i, e);
        if n - 1 > i {
            assert(r[n - 1] == ranges[n - 2]);
        } else if n - 1 < i {
            assert(r[n - 1] == ranges[n - 1]);
        }
    }
}

proof fn lemma_ranges_live_put(ranges: Ranges, k: u64, groups: Seq<EdgeGroupView>)
    requires
        sorted(ranges),
    ensures
        ({
            let r = put(ranges, k, groups);
            let before = groups_of(ranges, k);
            ranges_live(r, r.len()) == ranges_live(ranges, ranges.len()) + groups_live(
                groups,
                groups.len(),
            ) - groups_live(before, before.len())
        }),
{
    ordered_map::lemma_rank(ranges, k);
    let i = ordered_map::rank(ranges, k) as int;
    if ordered_map::has_key(ranges, k) {
        lemma_ranges_live_update(ranges, i, (k, groups), ranges.len());
    } else {
        lemma_ranges_live_insert(ranges, i, (k, groups), ranges.len() + 1);
    }
}

/// The places of edges after an edge was inserted: those before, and one more unless it was refused.
proof fn lemma_insert_places(
    ranges: Ranges,
    direction: Direction,
    schema: Seq<(ColumnId, DataType)>,
    offset: u64,
    edge_id: EdgeId,
    from: NodeId,
    to: NodeId,
    values: RowView,
    x: EdgeId,
    k2: u64,
    j: int,
    row: u64,
)
    requires
        ranges_ok(ranges, direction, schema),
        range_of(offset) < 0xffff_ffff_ffff,
        direction == Direction::Forward || types_match(schema, values),
    ensures
        ({
            let k = range_of(offset);
            let a = with_active_group(groups_of(ranges, k), k, direction, schema);
            let i = insert_in(ranges, direction, schema, offset, edge_id, from, to, values);
            let s = i.ranges;
            let is_new = i.result is Ok && k2 == k && j == a.len() - 1 && row == a.last().len();
            &&& edge_at(s, x, k2, j, row) <==> edge_at(ranges, x, k2, j, row) || (x == edge_id
                && is_new)
            &&& is_new ==> !edge_at(ranges, x, k2, j, row)
            &&& is_new ==> (groups_of(s, k2)[j].read(row) matches Ok(Some(record))
                && record.edge_id == edge_id && record.from == from && record.to == to && (
            a.last().even() ==> record.properties == padded(schema, values)))
            &&& edge_at(ranges, x, k2, j, row) ==> groups_of(s, k2)[j].read(row) == groups_of(
                ranges,
                k2,
            )[j].read(row)
        }),
{
    let k = range_of(offset);
    let groups = groups_of(ranges, k);
    if groups.len() > 0 {
        lemma_range(ranges, direction, schema, k);
    }
    let a = with_active_group(groups, k, direction, schema);
    let n = a.len() - 1;
    lemma_active_groups(groups, k, direction, schema, offset, LabelId(0));
    let g = a[n];
    assert(group_ok(g, k, direction, schema));
    lemma_insert_group(g, k, direction, schema, offset, edge_id, from, to, values, offset, row);
    let h = g.insert(offset, edge_id, from, to, values).state;
    let after = a.update(n, h);
    ordered_map::law_put_then_lookup(ranges, k, after, k2);
    if k2 == k && 0 <= j < after.len() {
        if j < groups.len() {
            assert(a[j] == groups[j]);
        }
        if j == n {
            assert(after[j] == h);
        } else {
            assert(after[j] == a[j]);
        }
    }
}

impl EdgeTableView {
    /// What every table built by inserts and deletes is like.
    pub open spec fn tidy(self) -> bool {
        &&& ranges_ok(self.fwd, Direction::Forward, self.columns())
        &&& ranges_ok(self.bwd, Direction::Backward, self.columns())
        &&& mirrored(self.fwd, self.bwd)
    }

    /// The edge is in no row.
    pub open spec fn lacks(self, edge_id: EdgeId) -> bool {
        absent(self.fwd, edge_id) && absent(self.bwd, edge_id)
    }

    /// The edge is in at most one row of each direction: it was not inserted twice.
    pub open spec fn has_once(self, edge_id: EdgeId) -> bool {
        once(self.fwd, edge_id) && once(self.bwd, edge_id)
    }

    /// The columns of the group that an edge from an offset goes into are even.
    pub open spec fn even_at(self, offset: u64) -> bool {
        active_group(self.fwd, Direction::Forward, self.columns(), offset).even()
    }
}

/// What inserting an edge does to what is read: it is read back if it was in no row before, and every
/// other edge is read as before.
proof fn lemma_insert_read(
    ranges: Ranges,
    direction: Direction,
    schema: Seq<(ColumnId, DataType)>,
    offset: u64,
    edge_id: EdgeId,
    from: NodeId,
    to: NodeId,
    values: RowView,
)
    requires
        ranges_ok(ranges, direction, schema),
        range_of(offset) < 0xffff_ffff_ffff,
        direction == Direction::Forward || types_match(schema, values),
    ensures
        ({
            let i = insert_in(ranges, direction, schema, offset, edge_id, from, to, values);
            let g = active_group(ranges, direction, schema, offset);
            let s = i.ranges;
            &&& i.result is Ok && absent(ranges, edge_id) ==> once(s, edge_id) && (read_in(
                s,
                edge_id,
            ) matches Ok(Some(record)) && record.edge_id == edge_id && record.from == from
                && record.to == to && (g.even() ==> record.properties == padded(schema, values)))
            &&& i.result is Ok ==> !absent(s, edge_id)
            &&& forall|x: EdgeId|
                x != edge_id || i.result is Err ==> #[trigger] read_in(s, x) == read_in(ranges, x)
                    && absent(s, x) == absent(ranges, x) && once(s, x) == once(ranges, x)
        }),
{
    let i = insert_in(ranges, direction, schema, offset, edge_id, from, to, values);
    let s = i.ranges;
    let k = range_of(offset);
    let a = with_active_group(groups_of(ranges, k), k, direction, schema);
    let n = a.len() - 1;
    let new_row = a.last().len() as u64;
    lemma_insert_in(
        ranges,
        direction,
        schema,
        offset,
        edge_id,
        from,
        to,
        values,
        offset,
        LabelId(0),
    );
    if groups_of(ranges, k).len() > 0 {
        lemma_range(ranges, direction, schema, k);
    }
    lemma_active_groups(groups_of(ranges, k), k, direction, schema, offset, LabelId(0));
    assert(group_ok(a[n], k, direction, schema));
    if i.result is Ok {
        lemma_insert_places(
            ranges, direction, schema, offset, edge_id, from, to, values, edge_id, k, n, new_row);
        assert(edge_at(s, edge_id, k, n, new_row));
        if absent(ranges, edge_id) {
            assert forall|k2: u64, j2: int, r2: u64| #[trigger]
                edge_at(s, edge_id, k2, j2, r2) implies k2 == k && j2 == n && r2 == new_row by {
                lemma_insert_places(
                    ranges, direction, schema, offset, edge_id, from, to, values, edge_id, k2, j2,
                    r2);
                assert(!edge_at(ranges, edge_id, k2, j2, r2));
            }
            lemma_read_at(s, direction, schema, edge_id, k, n, new_row);
        }
    }
    assert forall|x: EdgeId| x != edge_id || i.result is Err implies #[trigger] read_in(s, x)
        == read_in(ranges, x) && absent(s, x) == absent(ranges, x) && once(s, x) == once(
        ranges,
        x,
    ) by {
        assert forall|k2: u64, j: int, row: u64| #[trigger]
            edge_at(s, x, k2, j, row) <==> edge_at(ranges, x, k2, j, row) by {
            lemma_insert_places(
                ranges, direction, schema, offset, edge_id, from, to, values, x, k2, j, row);
        }
        assert forall|k2: u64, j: int, row: u64| #[trigger]
            edge_at(s, x, k2, j, row) implies groups_of(s, k2)[j].read(row) == groups_of(
            ranges,
            k2,
        )[j].read(row) by {
            lemma_insert_places(
                ranges, direction, schema, offset, edge_id, from, to, values, x, k2, j, row);
        }
        lemma_same_places(ranges, s, direction, schema, x);
    }
}

/// An edge that is in no row reads as nothing.
pub proof fn lemma_absent_read(
    ranges: Ranges,
    direction: Direction,
    schema: Seq<(ColumnId, DataType)>,
    x: EdgeId,
)
    requires
        ranges_ok(ranges, direction, schema),
    ensures
        absent(ranges, x) <==> locate(ranges, x) is None,
        absent(ranges, x) ==> read_in(ranges, x) == Ok::<Option<RecordView>, ErrorView>(None),
{
    lemma_locate_place(ranges, x);
    if locate(ranges, x) is Some {
        let (i, j) = locate(ranges, x)->Some_0;
        assert(groups_ok(ranges[i].1, ranges[i].0, direction, schema));
        assert(group_ok(ranges[i].1[j], ranges[i].0, direction, schema));
        assert(edge_at(ranges, x, ranges[i].0, j, ranges[i].1[j].find(x)->Some_0 as u64));
    }
}

/// An edge that is in no row of one direction is in no row of the other.
proof fn lemma_paired_absent(fwd: Ranges, bwd: Ranges, x: EdgeId)
    requires
        paired(fwd, bwd, x),
    ensures
        absent(fwd, x) <==> absent(bwd, x),
{
    lemma_absent_places(fwd, x);
    lemma_absent_places(bwd, x);
}

proof fn lemma_absent_places(ranges: Ranges, x: EdgeId)
    requires
        places(ranges, x).finite(),
    ensures
        absent(ranges, x) <==> places(ranges, x).len() == 0,
{
    let s = places(ranges, x);
    if absent(ranges, x) {
        assert(s =~= Set::empty());
    } else {
        let (k, j, row) = choose|k: u64, j: int, row: u64| #[trigger] edge_at(ranges, x, k, j, row);
        assert(s.contains((k, j, row)));
        assert(s.remove((k, j, row)).len() == s.len() - 1);
    }
}

/// The rows that an edge is in after an edge was inserted.
proof fn lemma_insert_paired(
    ranges: Ranges,
    direction: Direction,
    schema: Seq<(ColumnId, DataType)>,
    offset: u64,
    edge_id: EdgeId,
    from: NodeId,
    to: NodeId,
    values: RowView,
    x: EdgeId,
)
    requires
        ranges_ok(ranges, direction, schema),
        range_of(offset) < 0xffff_ffff_ffff,
        direction == Direction::Forward || types_match(schema, values),
        places(ranges, x).finite(),
    ensures
        ({
            let i = insert_in(ranges, direction, schema, offset, edge_id, from, to, values);
            &&& places(i.ranges, x).finite()
            &&& places(i.ranges, x).len() == places(ranges, x).len() + if i.result is Ok && x
                == edge_id {
                1int
            } else {
                0
            }
        }),
{
    let i = insert_in(ranges, direction, schema, offset, edge_id, from, to, values);
    let s = i.ranges;
    let k = range_of(offset);
    let a = with_active_group(groups_of(ranges, k), k, direction, schema);
    let n = a.len() - 1;
    let new_row = a.last().len() as u64;
    if groups_of(ranges, k).len() > 0 {
        lemma_range(ranges, direction, schema, k);
    }
    lemma_active_groups(groups_of(ranges, k), k, direction, schema, offset, LabelId(0));
    assert(group_ok(a[n], k, direction, schema));
    let before = places(ranges, x);
    let after = places(s, x);
    if i.result is Ok && x == edge_id {
        lemma_insert_places(
            ranges, direction, schema, offset, edge_id, from, to, values, x, k, n, new_row);
        assert forall|p: (u64, int, u64)| #[trigger]
            after.contains(p) == before.insert((k, n, new_row)).contains(p) by {
            lemma_insert_places(
                ranges, direction, schema, offset, edge_id, from, to, values, x, p.0, p.1, p.2);
        }
        assert(after =~= before.insert((k, n, new_row)));
        assert(!before.contains((k, n, new_row)));
    } else {
        assert forall|p: (u64, int, u64)| #[trigger] after.contains(p) == before.contains(p) by {
            lemma_insert_places(
                ranges, direction, schema, offset, edge_id, from, to, values, x, p.0, p.1, p.2);
        }
        assert(after =~= before);
    }
}

/// An edge whose values are of the columns' types is taken by a group with even columns. An edge that
/// is taken is the last of the edges that leave the offset of its source and of those that reach the
/// offset of its destination, and there is one edge more. If it was not there before, it is read
/// back. Every other edge is read as before, and the edges at other offsets are as they were.
pub proof fn law_insert_then_read(
    t: EdgeTableView,
    edge_id: EdgeId,
    from: NodeId,
    to: NodeId,
    from_offset: u64,
    to_offset: u64,
    values: RowView,
    other: EdgeId,
    offset: u64,
)
    requires
        t.tidy(),
        range_of(from_offset) < 0xffff_ffff_ffff,
        range_of(to_offset) < 0xffff_ffff_ffff,
    ensures
        ({
            let i = t.insert(edge_id, from, to, from_offset, to_offset, values);
            let type_id = t.schema.label_id;
            &&& types_match(t.columns(), values) && t.even_at(from_offset) ==> i.result is Ok
            &&& i.result is Ok ==> {
                &&& types_match(t.columns(), values)
                &&& i.state.tidy()
                &&& i.state.schema == t.schema
                &&& t.lacks(edge_id) ==> i.state.has_once(edge_id) && (i.state.read(
                    edge_id,
                ) matches Ok(Some(record)) && record.edge_id == edge_id && record.from == from
                    && record.to == to && (t.even_at(from_offset) ==> record.properties == padded(
                    t.columns(),
                    values,
                )))
                &&& !i.state.lacks(edge_id)
                &&& other != edge_id ==> i.state.read(other) == t.read(other)
                &&& other != edge_id ==> i.state.lacks(other) == t.lacks(other)
                &&& other != edge_id ==> i.state.has_once(other) == t.has_once(other)
                &&& i.state.neighbors(offset, Direction::Forward) == if offset == from_offset {
                    t.neighbors(offset, Direction::Forward).push(
                        EdgeRef { edge_id, type_id, neighbor: to },
                    )
                } else {
                    t.neighbors(offset, Direction::Forward)
                }
                &&& i.state.neighbors(offset, Direction::Backward) == if offset == to_offset {
                    t.neighbors(offset, Direction::Backward).push(
                        EdgeRef { edge_id, type_id, neighbor: from },
                    )
                } else {
                    t.neighbors(offset, Direction::Backward)
                }
                &&& i.state.num_edges() == t.num_edges() + 1
            }
        }),
{
    let i = t.insert(edge_id, from, to, from_offset, to_offset, values);
    lemma_insert_both(t, edge_id, from, to, from_offset, to_offset, values, offset);
    if i.result is Ok {
        let s = i.state;
        assert(s.read(edge_id) == read_in(s.fwd, edge_id));
        if other != edge_id {
            assert(s.read(other) == read_in(s.fwd, other) && t.read(other) == read_in(
                t.fwd,
                other,
            ));
            assert(read_in(s.fwd, other) == read_in(t.fwd, other));
            assert(read_in(s.bwd, other) == read_in(t.bwd, other));
        }
    }
}

/// Where an edge was refused, every edge is read as before, the edges at every offset are as they
/// were, and there are as many.
pub proof fn law_refused_insert(
    t: EdgeTableView,
    edge_id: EdgeId,
    from: NodeId,
    to: NodeId,
    from_offset: u64,
    to_offset: u64,
    values: RowView,
    other: EdgeId,
    offset: u64,
    direction: Direction,
)
    requires
        t.tidy(),
        range_of(from_offset) < 0xffff_ffff_ffff,
        range_of(to_offset) < 0xffff_ffff_ffff,
        t.insert(edge_id, from, to, from_offset, to_offset, values).result is Err,
    ensures
        ({
            let s = t.insert(edge_id, from, to, from_offset, to_offset, values).state;
            &&& s.tidy()
            &&& s == (EdgeTableView { fwd: s.fwd, ..t })
            &&& s.read(other) == t.read(other)
            &&& s.lacks(other) == t.lacks(other)
            &&& s.has_once(other) == t.has_once(other)
            &&& s.neighbors(offset, direction) == t.neighbors(offset, direction)
            &&& s.num_edges() == t.num_edges()
        }),
{
    let s = t.insert(edge_id, from, to, from_offset, to_offset, values).state;
    lemma_insert_both(t, edge_id, from, to, from_offset, to_offset, values, offset);
    assert(s.read(other) == read_in(s.fwd, other) && t.read(other) == read_in(t.fwd, other));
    assert(read_in(s.fwd, other) == read_in(t.fwd, other));
}

/// What inserting an edge does to both directions.
pub proof fn lemma_insert_both(
    t: EdgeTableView,
    edge_id: EdgeId,
    from: NodeId,
    to: NodeId,
    from_offset: u64,
    to_offset: u64,
    values: RowView,
    offset: u64,
)
    requires
        t.tidy(),
        range_of(from_offset) < 0xffff_ffff_ffff,
        range_of(to_offset) < 0xffff_ffff_ffff,
    ensures
        ({
            let fwd = Direction::Forward;
            let bwd = Direction::Backward;
            let i = t.insert(edge_id, from, to, from_offset, to_offset, values);
            let s = i.state;
            let f = insert_in(
                t.fwd,
                fwd,
                t.columns(),
                from_offset,
                edge_id,
                from,
                to,
                values,
            );
            let type_id = t.schema.label_id;
            &&& s.tidy()
            &&& i.result is Ok <==> f.result is Ok
            &&& types_match(t.columns(), values) && t.even_at(from_offset) ==> i.result is Ok
            &&& i.result is Err ==> s == (EdgeTableView { fwd: f.ranges, ..t })
            &&& i.result is Ok ==> types_match(t.columns(), values)
            &&& i.result is Ok && t.lacks(edge_id) ==> s.has_once(edge_id) && (read_in(
                s.fwd,
                edge_id,
            ) matches Ok(Some(record)) && record.edge_id == edge_id && record.from == from
                && record.to == to && (t.even_at(from_offset) ==> record.properties == padded(
                t.columns(),
                values,
            )))
            &&& i.result is Ok ==> !s.lacks(edge_id)
            &&& forall|x: EdgeId|
                x != edge_id || i.result is Err ==> #[trigger] read_in(s.fwd, x) == read_in(
                    t.fwd,
                    x,
                ) && absent(s.fwd, x) == absent(t.fwd, x) && once(s.fwd, x) == once(t.fwd, x)
            &&& forall|x: EdgeId|
                x != edge_id || i.result is Err ==> #[trigger] read_in(s.bwd, x) == read_in(
                    t.bwd,
                    x,
                ) && absent(s.bwd, x) == absent(t.bwd, x) && once(s.bwd, x) == once(t.bwd, x)
            &&& s.neighbors(offset, fwd) == if offset == from_offset && i.result is Ok {
                t.neighbors(offset, fwd).push(EdgeRef { edge_id, type_id, neighbor: to })
            } else {
                t.neighbors(offset, fwd)
            }
            &&& s.neighbors(offset, bwd) == if offset == to_offset && i.result is Ok {
                t.neighbors(offset, bwd).push(EdgeRef { edge_id, type_id, neighbor: from })
            } else {
                t.neighbors(offset, bwd)
            }
            &&& s.num_edges() == t.num_edges() + if i.result is Ok {
                1int
            } else {
                0
            }
        }),
{
    let schema = t.columns();
    let type_id = t.schema.label_id;
    let fwd = Direction::Forward;
    let bwd = Direction::Backward;
    let i = t.insert(edge_id, from, to, from_offset, to_offset, values);
    let s = i.state;
    lemma_insert_in(t.fwd, fwd, schema, from_offset, edge_id, from, to, values, offset, type_id);
    lemma_insert_read(t.fwd, fwd, schema, from_offset, edge_id, from, to, values);
    if types_match(schema, values) {
        lemma_insert_in(t.bwd, bwd, schema, to_offset, edge_id, from, to, values, offset, type_id);
        lemma_insert_read(t.bwd, bwd, schema, to_offset, edge_id, from, to, values);
    }
    assert forall|x: EdgeId| #[trigger] paired(s.fwd, s.bwd, x) by {
        assert(paired(t.fwd, t.bwd, x));
        lemma_insert_paired(t.fwd, fwd, schema, from_offset, edge_id, from, to, values, x);
        if types_match(schema, values) {
            lemma_insert_paired(t.bwd, bwd, schema, to_offset, edge_id, from, to, values, x);
        }
    }
    assert(s.neighbors(offset, fwd) == refs_in(s.fwd, offset, type_id, fwd));
    assert(t.neighbors(offset, fwd) == refs_in(t.fwd, offset, type_id, fwd));
    assert(s.neighbors(offset, bwd) == refs_in(s.bwd, offset, type_id, bwd));
    assert(t.neighbors(offset, bwd) == refs_in(t.bwd, offset, type_id, bwd));
}

/// A new table is tidy and has no edge.
pub proof fn law_empty_tidy(schema: EdgeTypeView, edge_id: EdgeId, offset: u64)
    ensures
        EdgeTableView::empty(schema).tidy(),
        EdgeTableView::empty(schema).lacks(edge_id),
        EdgeTableView::empty(schema).even_at(offset),
        EdgeTableView::empty(schema).num_edges() == 0,
        EdgeTableView::empty(schema).neighbors(offset, Direction::Forward).len() == 0,
        EdgeTableView::empty(schema).neighbors(offset, Direction::Backward).len() == 0,
{
    let t = EdgeTableView::empty(schema);
    assert forall|x: EdgeId| #[trigger] paired(t.fwd, t.bwd, x) by {
        assert(places(t.fwd, x) =~= Set::empty());
    }
}

// ---------------------------------------------------------------------------------------------
// Deleting

/// The references of some rows without those to an edge are those of the other rows.
proof fn lemma_refs_without(
    g: EdgeGroupView,
    d: EdgeGroupView,
    rows: Seq<u64>,
    kept: Seq<u64>,
    at: int,
    edge_id: EdgeId,
    n: nat,
    m: nat,
    type_id: LabelId,
    direction: Direction,
)
    requires
        n <= rows.len(),
        0 <= at < rows.len(),
        kept == rows.remove(at),
        m == if n > at {
            n - 1
        } else {
            n as int
        },
        forall|x: int|
            0 <= x < rows.len() ==> (ref_at(g, #[trigger] rows[x], type_id, direction) matches Some(
                r,
            ) && (r.edge_id == edge_id <==> x == at)),
        forall|x: int|
            0 <= x < rows.len() && x != at ==> ref_at(d, #[trigger] rows[x], type_id, direction)
                == ref_at(g, rows[x], type_id, direction),
    ensures
        refs_of_rows(d, kept, m, type_id, direction) == without_edge(
            refs_of_rows(g, rows, n, type_id, direction),
            edge_id,
        ),
    decreases n,
{
    if n > 0 {
        let x = n - 1;
        let m1 = if x > at {
            (x - 1) as nat
        } else {
            x as nat
        };
        lemma_refs_without(g, d, rows, kept, at, edge_id, x as nat, m1, type_id, direction);
        let before = refs_of_rows(g, rows, x as nat, type_id, direction);
        let r = ref_at(g, rows[x], type_id, direction)->Some_0;
        assert(before.push(r).drop_last() =~= before);
        if x != at {
            assert(kept[m - 1] == rows[x]);
        }
    }
}

/// References none of which is to an edge stay as they are without it.
proof fn lemma_refs_keep(
    g: EdgeGroupView,
    rows: Seq<u64>,
    edge_id: EdgeId,
    n: nat,
    type_id: LabelId,
    direction: Direction,
)
    requires
        n <= rows.len(),
        forall|x: int|
            0 <= x < rows.len() ==> (ref_at(g, #[trigger] rows[x], type_id, direction) matches Some(
                r,
            ) ==> r.edge_id != edge_id),
    ensures
        without_edge(refs_of_rows(g, rows, n, type_id, direction), edge_id) == refs_of_rows(
            g,
            rows,
            n,
            type_id,
            direction,
        ),
    decreases n,
{
    if n > 0 {
        lemma_refs_keep(g, rows, edge_id, (n - 1) as nat, type_id, direction);
        let before = refs_of_rows(g, rows, (n - 1) as nat, type_id, direction);
        match ref_at(g, rows[n - 1], type_id, direction) {
            Some(r) => {
                assert(before.push(r).drop_last() =~= before);
            },
            None => {},
        }
    }
}

pub proof fn lemma_without_concat(a: Seq<EdgeRef>, b: Seq<EdgeRef>, edge_id: EdgeId)
    ensures
        without_edge(a + b, edge_id) == without_edge(a, edge_id) + without_edge(b, edge_id),
    decreases b.len(),
{
    if b.len() == 0 {
        assert(a + b =~= a);
        assert(without_edge(a, edge_id) + without_edge(b, edge_id) =~= without_edge(a, edge_id));
    } else {
        lemma_without_concat(a, b.drop_last(), edge_id);
        assert((a + b).drop_last() =~= a + b.drop_last());
        assert(without_edge(a + b, edge_id) =~= without_edge(a, edge_id) + without_edge(
            b,
            edge_id,
        ));
    }
}

/// What a row that is found gives.
proof fn lemma_found_ref(
    g: EdgeGroupView,
    offset: u64,
    x: int,
    type_id: LabelId,
    direction: Direction,
)
    requires
        g.regular(),
        0 <= x < g.found(offset).len(),
    ensures
        g.live(g.found(offset)[x]),
        ref_at(g, g.found(offset)[x], type_id, direction) matches Some(r) && r.edge_id
            == g.edge_ids[g.found(offset)[x] as int],
{
    let row = g.found(offset)[x];
    assert(g.found(offset).contains(row));
    edge::law_found_is_live(g, offset, row);
    row::lemma_read_all_values(g.columns, row);
}

/// What deleting an edge does to the references of its group.
proof fn lemma_delete_group_refs(
    g: EdgeGroupView,
    row: u64,
    offset: u64,
    type_id: LabelId,
    direction: Direction,
)
    requires
        g.regular(),
        g.live(row),
        forall|r: u64|
            #[trigger] g.live(r) && g.edge_ids[r as int] == g.edge_ids[row as int] ==> r == row,
    ensures
        ({
            let d = g.delete(row);
            refs_of_rows(d, d.found(offset), d.found(offset).len(), type_id, direction)
                == without_edge(
                refs_of_rows(g, g.found(offset), g.found(offset).len(), type_id, direction),
                g.edge_ids[row as int],
            )
        }),
{
    let d = g.delete(row);
    let id = g.edge_ids[row as int];
    edge::law_delete_edge_hides(g, row, offset, 0);
    edge::law_found_is_live(g, offset, row);
    let rows = g.found(offset);
    assert forall|x: int| 0 <= x < rows.len() implies (ref_at(
        g,
        #[trigger] rows[x],
        type_id,
        direction,
    ) matches Some(r) && (r.edge_id == id <==> rows[x] == row)) by {
        lemma_found_ref(g, offset, x, type_id, direction);
    }
    assert forall|x: int| 0 <= x < rows.len() && rows[x] != row implies ref_at(
        d,
        #[trigger] rows[x],
        type_id,
        direction,
    ) == ref_at(g, rows[x], type_id, direction) by {
        edge::law_delete_edge_hides(g, row, offset, rows[x]);
    }
    if rows.contains(row) {
        search::lemma_contains_at(rows, row);
        let at = search::lower_bound(rows, row) as int;
        assert forall|x: int| 0 <= x < rows.len() implies (rows[x] == row <==> x == at) by {
            if x < at {
                assert(rows[x] < rows[at]);
            } else if x > at {
                assert(rows[at] < rows[x]);
            }
        }
        assert forall|x: int| 0 <= x < rows.len() implies (ref_at(
            g,
            #[trigger] rows[x],
            type_id,
            direction,
        ) matches Some(r) && (r.edge_id == id <==> x == at)) by {}
        lemma_refs_without(
            g,
            d,
            rows,
            rows.remove(at),
            at,
            id,
            rows.len(),
            (rows.len() - 1) as nat,
            type_id,
            direction,
        );
    } else {
        lemma_refs_of_rows_same(d, g, rows, rows, rows.len(), type_id, direction);
        lemma_refs_keep(g, rows, id, rows.len(), type_id, direction);
    }
}

/// The references of groups without an edge are those of the groups without it.
proof fn lemma_groups_without(
    a: Seq<EdgeGroupView>,
    b: Seq<EdgeGroupView>,
    n: nat,
    offset: u64,
    edge_id: EdgeId,
    type_id: LabelId,
    direction: Direction,
)
    requires
        n <= a.len(),
        n <= b.len(),
        forall|j: int|
            0 <= j < n ==> #[trigger] refs_of_rows(
                b[j],
                b[j].found(offset),
                b[j].found(offset).len(),
                type_id,
                direction,
            ) == without_edge(
                refs_of_rows(
                    a[j],
                    a[j].found(offset),
                    a[j].found(offset).len(),
                    type_id,
                    direction,
                ),
                edge_id,
            ),
    ensures
        refs_of_groups(b, n, offset, type_id, direction) == without_edge(
            refs_of_groups(a, n, offset, type_id, direction),
            edge_id,
        ),
    decreases n,
{
    if n > 0 {
        let m = n - 1;
        lemma_groups_without(a, b, m as nat, offset, edge_id, type_id, direction);
        let tail = refs_of_rows(
            a[m],
            a[m].found(offset),
            a[m].found(offset).len(),
            type_id,
            direction,
        );
        lemma_without_concat(
            refs_of_groups(a, m as nat, offset, type_id, direction),
            tail,
            edge_id,
        );
        assert(refs_of_rows(
            b[m],
            b[m].found(offset),
            b[m].found(offset).len(),
            type_id,
            direction,
        ) == without_edge(tail, edge_id));
    }
}

/// A group without an edge has no reference to it.
proof fn lemma_group_keeps(
    g: EdgeGroupView,
    offset: u64,
    edge_id: EdgeId,
    type_id: LabelId,
    direction: Direction,
)
    requires
        g.regular(),
        forall|row: u64| #[trigger] g.live(row) ==> g.edge_ids[row as int] != edge_id,
    ensures
        ({
            let refs = refs_of_rows(
                g,
                g.found(offset),
                g.found(offset).len(),
                type_id,
                direction,
            );
            refs == without_edge(refs, edge_id)
        }),
{
    let rows = g.found(offset);
    assert forall|x: int| 0 <= x < rows.len() implies (ref_at(
        g,
        #[trigger] rows[x],
        type_id,
        direction,
    ) matches Some(r) ==> r.edge_id != edge_id) by {
        lemma_found_ref(g, offset, x, type_id, direction);
    }
    lemma_refs_keep(g, rows, edge_id, rows.len(), type_id, direction);
}

/// Without an edge, the edges at an offset are those that there are where the edge is in no row.
proof fn lemma_absent_refs(
    ranges: Ranges,
    direction: Direction,
    schema: Seq<(ColumnId, DataType)>,
    edge_id: EdgeId,
    offset: u64,
    type_id: LabelId,
)
    requires
        ranges_ok(ranges, direction, schema),
        forall|j: int, row: u64| !#[trigger] edge_at(ranges, edge_id, range_of(offset), j, row),
    ensures
        refs_in(ranges, offset, type_id, direction) == without_edge(
            refs_in(ranges, offset, type_id, direction),
            edge_id,
        ),
{
    let k = range_of(offset);
    let groups = groups_of(ranges, k);
    if groups.len() > 0 {
        lemma_range(ranges, direction, schema, k);
    }
    assert forall|j: int| 0 <= j < groups.len() implies #[trigger] refs_of_rows(
        groups[j],
        groups[j].found(offset),
        groups[j].found(offset).len(),
        type_id,
        direction,
    ) == without_edge(
        refs_of_rows(
            groups[j],
            groups[j].found(offset),
            groups[j].found(offset).len(),
            type_id,
            direction,
        ),
        edge_id,
    ) by {
        assert(group_ok(groups[j], k, direction, schema));
        assert forall|row: u64| #[trigger] groups[j].live(row) implies groups[j].edge_ids[row as int]
            != edge_id by {
            assert(!edge_at(ranges, edge_id, k, j, row));
        }
        lemma_group_keeps(groups[j], offset, edge_id, type_id, direction);
    }
    lemma_groups_without(groups, groups, groups.len(), offset, edge_id, type_id, direction);
}

/// The groups of the range of a deleted edge.
pub open spec fn groups_after(groups: Seq<EdgeGroupView>, j: int, row: u64) -> Seq<EdgeGroupView> {
    groups.update(j, groups[j].delete(row))
}

/// What deleting does to the groups of a range.
proof fn lemma_delete_groups(
    groups: Seq<EdgeGroupView>,
    k: u64,
    direction: Direction,
    schema: Seq<(ColumnId, DataType)>,
    j: int,
    row: u64,
    offset: u64,
    type_id: LabelId,
)
    requires
        groups_ok(groups, k, direction, schema),
        0 <= j < groups.len(),
        groups[j].live(row),
        forall|jj: int, r: u64|
            0 <= jj < groups.len() && #[trigger] groups[jj].live(r) && groups[jj].edge_ids[r as int]
                == groups[j].edge_ids[row as int] ==> jj == j && r == row,
    ensures
        groups_ok(groups_after(groups, j, row), k, direction, schema),
        groups_live(groups_after(groups, j, row), groups.len()) == groups_live(groups, groups.len())
            - 1,
        refs_of_groups(
            groups_after(groups, j, row),
            groups.len(),
            offset,
            type_id,
            direction,
        ) == without_edge(
            refs_of_groups(groups, groups.len(), offset, type_id, direction),
            groups[j].edge_ids[row as int],
        ),
{
    let after = groups_after(groups, j, row);
    let g = groups[j];
    let id = g.edge_ids[row as int];
    assert(group_ok(g, k, direction, schema));
    edge::law_delete_edge_hides(g, row, offset, 0);
    edge::law_delete_keeps_sound(g, row);
    assert(groups_ok(after, k, direction, schema)) by {
        assert forall|i: int| 0 <= i < after.len() implies group_ok(
            #[trigger] after[i],
            k,
            direction,
            schema,
        ) by {
            assert(group_ok(groups[i], k, direction, schema));
        }
        assert forall|i: int| 0 <= i < after.len() - 1 implies (#[trigger] after[i]).is_full() by {
            assert(groups[i].is_full());
        }
    }
    assert forall|i: int| 0 <= i < groups.len() implies #[trigger] refs_of_rows(
        after[i],
        after[i].found(offset),
        after[i].found(offset).len(),
        type_id,
        direction,
    ) == without_edge(
        refs_of_rows(
            groups[i],
            groups[i].found(offset),
            groups[i].found(offset).len(),
            type_id,
            direction,
        ),
        id,
    ) by {
        assert(group_ok(groups[i], k, direction, schema));
        if i == j {
            assert forall|r: u64| #[trigger] g.live(r) && g.edge_ids[r as int] == id implies r
                == row by {
                assert(groups[j].live(r));
            }
            lemma_delete_group_refs(g, row, offset, type_id, direction);
        } else {
            assert forall|r: u64| #[trigger] groups[i].live(r) implies groups[i].edge_ids[r as int]
                != id by {}
            lemma_group_keeps(groups[i], offset, id, type_id, direction);
        }
    }
    lemma_groups_without(groups, after, groups.len(), offset, id, type_id, direction);
    lemma_groups_live_update(groups, j, g.delete(row), groups.len());
}

proof fn lemma_groups_live_update(groups: Seq<EdgeGroupView>, i: int, g: EdgeGroupView, n: nat)
    requires
        0 <= i < groups.len(),
        n <= groups.len(),
    ensures
        groups_live(groups.update(i, g), n) == groups_live(groups, n) + if i < n {
            count_false(g.deleted) - count_false(groups[i].deleted)
        } else {
            0int
        },
    decreases n,
{
    if n > 0 {
        lemma_groups_live_update(groups, i, g, (n - 1) as nat);
    }
}

/// What deleting an edge from the groups of a direction does: it is in no row and at no offset; every
/// other edge is as it was.
proof fn lemma_delete_in(
    ranges: Ranges,
    direction: Direction,
    schema: Seq<(ColumnId, DataType)>,
    edge_id: EdgeId,
    offset: u64,
    type_id: LabelId,
)
    requires
        ranges_ok(ranges, direction, schema),
        once(ranges, edge_id),
    ensures
        ({
            let d = delete_in(ranges, edge_id);
            &&& ranges_ok(d, direction, schema)
            &&& absent(d, edge_id)
            &&& refs_in(d, offset, type_id, direction) == without_edge(
                refs_in(ranges, offset, type_id, direction),
                edge_id,
            )
            &&& ranges_live(d, d.len()) == ranges_live(ranges, ranges.len()) - if absent(
                ranges,
                edge_id,
            ) {
                0int
            } else {
                1
            }
            &&& forall|x: EdgeId|
                x != edge_id ==> #[trigger] read_in(d, x) == read_in(ranges, x) && absent(d, x)
                    == absent(ranges, x) && once(d, x) == once(ranges, x)
        }),
{
    lemma_absent_read(ranges, direction, schema, edge_id);
    if absent(ranges, edge_id) {
        lemma_absent_refs(ranges, direction, schema, edge_id, offset, type_id);
    } else {
        let (k, j, row) = choose|k: u64, j: int, row: u64| #[trigger]
            edge_at(ranges, edge_id, k, j, row);
        assert(first_at(ranges, edge_id, k, j, row));
        lemma_read_at(ranges, direction, schema, edge_id, k, j, row);
        lemma_range(ranges, direction, schema, k);
        let groups = groups_of(ranges, k);
        let after = groups_after(groups, j, row);
        let d = delete_in(ranges, edge_id);
        let at = ordered_map::rank(ranges, k) as int;
        assert(d =~= put(ranges, k, after));
        assert forall|jj: int, r: u64|
            0 <= jj < groups.len() && #[trigger] groups[jj].live(r) && groups[jj].edge_ids[r as int]
                == groups[j].edge_ids[row as int] implies jj == j && r == row by {
            assert(edge_at(ranges, edge_id, k, jj, r));
        }
        lemma_delete_groups(groups, k, direction, schema, j, row, offset, type_id);
        lemma_put_ok(ranges, direction, schema, k, after);
        lemma_ranges_live_put(ranges, k, after);
        let k2 = range_of(offset);
        ordered_map::law_put_then_lookup(ranges, k, after, k2);
        if k2 != k {
            assert forall|jj: int, r: u64| !#[trigger] edge_at(ranges, edge_id, k2, jj, r) by {
                assert(edge_at(ranges, edge_id, k, j, row));
            }
            lemma_absent_refs(ranges, direction, schema, edge_id, offset, type_id);
        }
        assert(edge_at(ranges, edge_id, k, j, row));
        lemma_delete_places_all(ranges, direction, schema, edge_id, k, j, row);
    }
}

/// The places of edges after a row was deleted: those before, but for that row.
proof fn lemma_delete_places(
    ranges: Ranges,
    direction: Direction,
    schema: Seq<(ColumnId, DataType)>,
    k: u64,
    j: int,
    row: u64,
    x: EdgeId,
    k2: u64,
    j2: int,
    r2: u64,
)
    requires
        ranges_ok(ranges, direction, schema),
        0 <= j < groups_of(ranges, k).len(),
        groups_of(ranges, k)[j].live(row),
    ensures
        ({
            let d = put(ranges, k, groups_after(groups_of(ranges, k), j, row));
            &&& edge_at(d, x, k2, j2, r2) <==> edge_at(ranges, x, k2, j2, r2) && !(k2 == k && j2
                == j && r2 == row)
            &&& edge_at(d, x, k2, j2, r2) ==> groups_of(d, k2)[j2].read(r2) == groups_of(
                ranges,
                k2,
            )[j2].read(r2)
        }),
{
    lemma_range(ranges, direction, schema, k);
    let groups = groups_of(ranges, k);
    let g = groups[j];
    assert(group_ok(g, k, direction, schema));
    let after = groups_after(groups, j, row);
    ordered_map::law_put_then_lookup(ranges, k, after, k2);
    edge::law_delete_edge_hides(g, row, 0, r2);
}

proof fn lemma_delete_places_all(
    ranges: Ranges,
    direction: Direction,
    schema: Seq<(ColumnId, DataType)>,
    edge_id: EdgeId,
    k: u64,
    j: int,
    row: u64,
)
    requires
        ranges_ok(ranges, direction, schema),
        once(ranges, edge_id),
        edge_at(ranges, edge_id, k, j, row),
        ranges_ok(
            put(ranges, k, groups_after(groups_of(ranges, k), j, row)),
            direction,
            schema,
        ),
    ensures
        ({
            let d = put(ranges, k, groups_after(groups_of(ranges, k), j, row));
            &&& absent(d, edge_id)
            &&& forall|x: EdgeId|
                x != edge_id ==> #[trigger] read_in(d, x) == read_in(ranges, x) && absent(d, x)
                    == absent(ranges, x) && once(d, x) == once(ranges, x)
        }),
{
    let d = put(ranges, k, groups_after(groups_of(ranges, k), j, row));
    assert forall|k2: u64, j2: int, r2: u64| !#[trigger] edge_at(d, edge_id, k2, j2, r2) by {
        lemma_delete_places(ranges, direction, schema, k, j, row, edge_id, k2, j2, r2);
    }
    assert forall|x: EdgeId| x != edge_id implies #[trigger] read_in(d, x) == read_in(ranges, x)
        && absent(d, x) == absent(ranges, x) && once(d, x) == once(ranges, x) by {
        assert forall|k2: u64, j2: int, r2: u64| #[trigger]
            edge_at(d, x, k2, j2, r2) <==> edge_at(ranges, x, k2, j2, r2) by {
            lemma_delete_places(ranges, direction, schema, k, j, row, x, k2, j2, r2);
        }
        assert forall|k2: u64, j2: int, r2: u64| #[trigger]
            edge_at(d, x, k2, j2, r2) implies groups_of(d, k2)[j2].read(r2) == groups_of(
            ranges,
            k2,
        )[j2].read(r2) by {
            lemma_delete_places(ranges, direction, schema, k, j, row, x, k2, j2, r2);
        }
        lemma_same_places(ranges, d, direction, schema, x);
    }
}

/// The rows that an edge is in after an edge was deleted: the deleted one is in one row less, if it
/// was in any.
proof fn lemma_delete_paired(
    ranges: Ranges,
    direction: Direction,
    schema: Seq<(ColumnId, DataType)>,
    edge_id: EdgeId,
    x: EdgeId,
)
    requires
        ranges_ok(ranges, direction, schema),
        places(ranges, x).finite(),
    ensures
        ({
            let d = delete_in(ranges, edge_id);
            &&& places(d, x).finite()
            &&& places(d, x).len() == places(ranges, x).len() - if x == edge_id && !absent(
                ranges,
                edge_id,
            ) {
                1int
            } else {
                0
            }
        }),
{
    lemma_locate_first(ranges, direction, schema, edge_id);
    match locate(ranges, edge_id) {
        Some((i, j)) => {
            let k = ranges[i].0;
            let row = ranges[i].1[j].find(edge_id)->Some_0 as u64;
            let before = places(ranges, x);
            let d = delete_in(ranges, edge_id);
            let after = places(d, x);
            let gone = (k, j, row);
            assert(edge_at(ranges, edge_id, k, j, row));
            assert(d =~= put(ranges, k, groups_after(groups_of(ranges, k), j, row)));
            assert forall|p: (u64, int, u64)| #[trigger]
                after.contains(p) == before.remove(gone).contains(p) by {
                lemma_delete_places(ranges, direction, schema, k, j, row, x, p.0, p.1, p.2);
            }
            assert(after =~= before.remove(gone));
            if x == edge_id {
                assert(before.contains(gone));
            } else {
                assert(!before.contains(gone));
                assert(before.remove(gone) =~= before);
            }
        },
        None => {},
    }
}

/// Deleting takes as many rows of an edge from one direction as from the other.
proof fn lemma_delete_mirrored(t: EdgeTableView, edge_id: EdgeId)
    requires
        t.tidy(),
    ensures
        mirrored(delete_in(t.fwd, edge_id), delete_in(t.bwd, edge_id)),
{
    let f = delete_in(t.fwd, edge_id);
    let b = delete_in(t.bwd, edge_id);
    assert forall|x: EdgeId| #[trigger] paired(f, b, x) by {
        assert(paired(t.fwd, t.bwd, x));
        assert(paired(t.fwd, t.bwd, edge_id));
        lemma_paired_absent(t.fwd, t.bwd, edge_id);
        lemma_delete_paired(t.fwd, Direction::Forward, t.columns(), edge_id, x);
        lemma_delete_paired(t.bwd, Direction::Backward, t.columns(), edge_id, x);
    }
}

/// An edge that was inserted once and deleted is not there any more: it reads as nothing, and it is
/// among the edges of no offset. There is one edge less if it was there; if it was not, nothing
/// changes. Every other edge is read as before, and the others at an offset keep their order.
pub proof fn law_delete_hides(t: EdgeTableView, edge_id: EdgeId, other: EdgeId, offset: u64)
    requires
        t.tidy(),
        t.has_once(edge_id),
    ensures
        ({
            let d = t.delete(edge_id);
            &&& d.tidy()
            &&& d.schema == t.schema
            &&& d.lacks(edge_id)
            &&& d.read(edge_id) == Ok::<Option<RecordView>, ErrorView>(None)
            &&& other != edge_id ==> d.read(other) == t.read(other)
            &&& other != edge_id ==> d.lacks(other) == t.lacks(other)
            &&& other != edge_id ==> d.has_once(other) == t.has_once(other)
            &&& d.neighbors(offset, Direction::Forward) == without_edge(
                t.neighbors(offset, Direction::Forward),
                edge_id,
            )
            &&& d.neighbors(offset, Direction::Backward) == without_edge(
                t.neighbors(offset, Direction::Backward),
                edge_id,
            )
            &&& t.has(edge_id) <==> !t.lacks(edge_id)
            &&& t.has(edge_id) <==> t.read(edge_id) is Ok && t.read(edge_id)->Ok_0 is Some
            &&& !t.has(edge_id) <==> t.read(edge_id) == Ok::<Option<RecordView>, ErrorView>(None)
            &&& !t.has(edge_id) ==> d == t
            &&& d.num_edges() == t.num_edges() - if t.has(edge_id) {
                1int
            } else {
                0
            }
        }),
{
    let schema = t.columns();
    let type_id = t.schema.label_id;
    let fwd = Direction::Forward;
    let bwd = Direction::Backward;
    lemma_delete_in(t.fwd, fwd, schema, edge_id, offset, type_id);
    lemma_delete_in(t.bwd, bwd, schema, edge_id, offset, type_id);
    lemma_absent_read(t.fwd, fwd, schema, edge_id);
    lemma_absent_read(t.bwd, bwd, schema, edge_id);
    lemma_delete_mirrored(t, edge_id);
    law_read_is_present(t, edge_id, offset);
    let d = t.delete(edge_id);
    assert(d.fwd == delete_in(t.fwd, edge_id));
    assert(d.bwd == delete_in(t.bwd, edge_id));
    lemma_absent_read(d.fwd, fwd, schema, edge_id);
    assert(d.read(edge_id) == read_in(d.fwd, edge_id));
    assert(d.read(other) == read_in(d.fwd, other) && t.read(other) == read_in(t.fwd, other));
    assert(d.neighbors(offset, fwd) == refs_in(d.fwd, offset, type_id, fwd));
    assert(t.neighbors(offset, fwd) == refs_in(t.fwd, offset, type_id, fwd));
    assert(d.neighbors(offset, bwd) == refs_in(d.bwd, offset, type_id, bwd));
    assert(t.neighbors(offset, bwd) == refs_in(t.bwd, offset, type_id, bwd));
    if other != edge_id {
        assert(read_in(d.fwd, other) == read_in(t.fwd, other));
        assert(read_in(d.bwd, other) == read_in(t.bwd, other));
    }
}

/// An edge that is in a row is read from there.
proof fn lemma_present_read(
    ranges: Ranges,
    direction: Direction,
    schema: Seq<(ColumnId, DataType)>,
    x: EdgeId,
)
    requires
        ranges_ok(ranges, direction, schema),
        !absent(ranges, x),
    ensures
        read_in(ranges, x) matches Ok(Some(record)) && record.edge_id == x,
{
    lemma_locate_first(ranges, direction, schema, x);
    match locate(ranges, x) {
        Some((i, j)) => {
            let g = ranges[i].1[j];
            let row = g.find(x)->Some_0 as u64;
            assert(groups_ok(ranges[i].1, ranges[i].0, direction, schema));
            assert(group_ok(g, ranges[i].0, direction, schema));
            assert(edge_at(ranges, x, ranges[i].0, j, row));
            row::lemma_read_all_values(g.columns, row);
        },
        None => {},
    }
}

/// Reading an edge gives it exactly if it is in a row, and never an error. It is in a row of one
/// direction exactly if it is in one of the other. Where it is in none, it is among the edges of no
/// offset.
pub proof fn law_read_is_present(t: EdgeTableView, edge_id: EdgeId, offset: u64)
    requires
        t.tidy(),
    ensures
        absent(t.fwd, edge_id) <==> absent(t.bwd, edge_id),
        t.has(edge_id) <==> !absent(t.fwd, edge_id),
        !absent(t.fwd, edge_id) ==> (t.read(edge_id) matches Ok(Some(record)) && record.edge_id
            == edge_id),
        absent(t.fwd, edge_id) ==> t.read(edge_id) == Ok::<Option<RecordView>, ErrorView>(None),
        absent(t.fwd, edge_id) ==> t.neighbors(offset, Direction::Forward) == without_edge(
            t.neighbors(offset, Direction::Forward),
            edge_id,
        ),
        absent(t.bwd, edge_id) ==> t.neighbors(offset, Direction::Backward) == without_edge(
            t.neighbors(offset, Direction::Backward),
            edge_id,
        ),
{
    let fwd = Direction::Forward;
    let bwd = Direction::Backward;
    let schema = t.columns();
    let type_id = t.schema.label_id;
    assert(t.read(edge_id) == read_in(t.fwd, edge_id));
    assert(t.neighbors(offset, fwd) == refs_in(t.fwd, offset, type_id, fwd));
    assert(t.neighbors(offset, bwd) == refs_in(t.bwd, offset, type_id, bwd));
    assert(paired(t.fwd, t.bwd, edge_id));
    lemma_paired_absent(t.fwd, t.bwd, edge_id);
    lemma_absent_read(t.fwd, fwd, schema, edge_id);
    lemma_absent_read(t.bwd, bwd, schema, edge_id);
    if absent(t.fwd, edge_id) {
        lemma_absent_refs(t.fwd, fwd, schema, edge_id, offset, type_id);
    } else {
        lemma_present_read(t.fwd, fwd, schema, edge_id);
    }
    if absent(t.bwd, edge_id) {
        lemma_absent_refs(t.bwd, bwd, schema, edge_id, offset, type_id);
    }
}

proof fn lemma_delete_in_ok(
    ranges: Ranges,
    direction: Direction,
    schema: Seq<(ColumnId, DataType)>,
    edge_id: EdgeId,
)
    requires
        ranges_ok(ranges, direction, schema),
    ensures
        ranges_ok(delete_in(ranges, edge_id), direction, schema),
{
    lemma_locate_first(ranges, direction, schema, edge_id);
    match locate(ranges, edge_id) {
        Some((i, j)) => {
            let k = ranges[i].0;
            let groups = ranges[i].1;
            let g = groups[j];
            let row = g.find(edge_id)->Some_0 as u64;
            assert(groups_ok(groups, k, direction, schema));
            assert(group_ok(g, k, direction, schema));
            assert(edge_at(ranges, edge_id, k, j, row));
            edge::law_delete_edge_hides(g, row, 0, 0);
            edge::law_delete_keeps_sound(g, row);
            let after = groups_after(groups, j, row);
            assert(groups_ok(after, k, direction, schema)) by {
                assert forall|x: int| 0 <= x < after.len() implies group_ok(
                    #[trigger] after[x],
                    k,
                    direction,
                    schema,
                ) by {
                    assert(group_ok(groups[x], k, direction, schema));
                }
                assert forall|x: int| 0 <= x < after.len() - 1 implies (
                #[trigger] after[x]).is_full() by {
                    assert(groups[x].is_full());
                }
            }
            let d = delete_in(ranges, edge_id);
            assert(d =~= put(ranges, k, after));
            lemma_put_ok(ranges, direction, schema, k, after);
        },
        None => {},
    }
}

/// A table stays tidy when an edge is deleted, however often it was inserted.
pub proof fn law_delete_keeps_tidy(t: EdgeTableView, edge_id: EdgeId)
    requires
        t.tidy(),
    ensures
        t.delete(edge_id).tidy(),
        t.delete(edge_id).schema == t.schema,
{
    lemma_delete_in_ok(t.fwd, Direction::Forward, t.columns(), edge_id);
    lemma_delete_in_ok(t.bwd, Direction::Backward, t.columns(), edge_id);
    lemma_delete_mirrored(t, edge_id);
    assert(t.delete(edge_id).fwd == delete_in(t.fwd, edge_id));
    assert(t.delete(edge_id).bwd == delete_in(t.bwd, edge_id));
}

/// The references of some rows and of all but one of them, to other edges.
proof fn lemma_refs_others(
    g: EdgeGroupView,
    d: EdgeGroupView,
    rows: Seq<u64>,
    kept: Seq<u64>,
    at: int,
    edge_id: EdgeId,
    n: nat,
    m: nat,
    type_id: LabelId,
    direction: Direction,
)
    requires
        n <= rows.len(),
        0 <= at < rows.len(),
        kept == rows.remove(at),
        m == if n > at {
            n - 1
        } else {
            n as int
        },
        ref_at(g, rows[at], type_id, direction) matches Some(r) && r.edge_id == edge_id,
        forall|x: int|
            0 <= x < rows.len() && x != at ==> ref_at(d, #[trigger] rows[x], type_id, direction)
                == ref_at(g, rows[x], type_id, direction),
    ensures
        without_edge(refs_of_rows(d, kept, m, type_id, direction), edge_id) == without_edge(
            refs_of_rows(g, rows, n, type_id, direction),
            edge_id,
        ),
        refs_of_rows(d, kept, m, type_id, direction).len() <= refs_of_rows(
            g,
            rows,
            n,
            type_id,
            direction,
        ).len(),
    decreases n,
{
    if n > 0 {
        let x = n - 1;
        let m1 = if x > at {
            (x - 1) as nat
        } else {
            x as nat
        };
        lemma_refs_others(g, d, rows, kept, at, edge_id, x as nat, m1, type_id, direction);
        let before = refs_of_rows(g, rows, x as nat, type_id, direction);
        let left = refs_of_rows(d, kept, m1, type_id, direction);
        match ref_at(g, rows[x], type_id, direction) {
            Some(r) => {
                assert(before.push(r).drop_last() =~= before);
                if x != at {
                    assert(kept[m1 as int] == rows[x]);
                    assert(left.push(r).drop_last() =~= left);
                }
            },
            None => {
                if x != at {
                    assert(kept[m1 as int] == rows[x]);
                }
            },
        }
    }
}

/// What deleting an edge does to the references of its group to other edges: nothing.
proof fn lemma_delete_group_others(
    g: EdgeGroupView,
    row: u64,
    offset: u64,
    type_id: LabelId,
    direction: Direction,
)
    requires
        g.regular(),
        g.live(row),
    ensures
        ({
            let d = g.delete(row);
            without_edge(
                refs_of_rows(d, d.found(offset), d.found(offset).len(), type_id, direction),
                g.edge_ids[row as int],
            ) == without_edge(
                refs_of_rows(g, g.found(offset), g.found(offset).len(), type_id, direction),
                g.edge_ids[row as int],
            ) && refs_of_rows(
                d,
                d.found(offset),
                d.found(offset).len(),
                type_id,
                direction,
            ).len() <= refs_of_rows(
                g,
                g.found(offset),
                g.found(offset).len(),
                type_id,
                direction,
            ).len()
        }),
{
    let d = g.delete(row);
    let id = g.edge_ids[row as int];
    edge::law_delete_edge_hides(g, row, offset, 0);
    edge::law_found_is_live(g, offset, row);
    let rows = g.found(offset);
    assert forall|x: int| 0 <= x < rows.len() && rows[x] != row implies ref_at(
        d,
        #[trigger] rows[x],
        type_id,
        direction,
    ) == ref_at(g, rows[x], type_id, direction) by {
        edge::law_delete_edge_hides(g, row, offset, rows[x]);
    }
    if rows.contains(row) {
        search::lemma_contains_at(rows, row);
        let at = search::lower_bound(rows, row) as int;
        assert forall|x: int| 0 <= x < rows.len() implies (rows[x] == row <==> x == at) by {
            if x < at {
                assert(rows[x] < rows[at]);
            } else if x > at {
                assert(rows[at] < rows[x]);
            }
        }
        lemma_found_ref(g, offset, at, type_id, direction);
        lemma_refs_others(
            g,
            d,
            rows,
            rows.remove(at),
            at,
            id,
            rows.len(),
            (rows.len() - 1) as nat,
            type_id,
            direction,
        );
    } else {
        lemma_refs_of_rows_same(d, g, rows, rows, rows.len(), type_id, direction);
    }
}

/// Groups that give the same references to other edges.
proof fn lemma_groups_others(
    groups: Seq<EdgeGroupView>,
    j: int,
    row: u64,
    n: nat,
    offset: u64,
    type_id: LabelId,
    direction: Direction,
)
    requires
        n <= groups.len(),
        0 <= j < groups.len(),
        groups[j].regular(),
        groups[j].live(row),
    ensures
        without_edge(
            refs_of_groups(groups_after(groups, j, row), n, offset, type_id, direction),
            groups[j].edge_ids[row as int],
        ) == without_edge(
            refs_of_groups(groups, n, offset, type_id, direction),
            groups[j].edge_ids[row as int],
        ),
        refs_of_groups(groups_after(groups, j, row), n, offset, type_id, direction).len()
            <= refs_of_groups(groups, n, offset, type_id, direction).len(),
    decreases n,
{
    if n > 0 {
        let m = (n - 1) as nat;
        let after = groups_after(groups, j, row);
        let id = groups[j].edge_ids[row as int];
        lemma_groups_others(groups, j, row, m, offset, type_id, direction);
        let g = groups[m as int];
        let d = after[m as int];
        lemma_without_concat(
            refs_of_groups(groups, m, offset, type_id, direction),
            refs_of_rows(g, g.found(offset), g.found(offset).len(), type_id, direction),
            id,
        );
        lemma_without_concat(
            refs_of_groups(after, m, offset, type_id, direction),
            refs_of_rows(d, d.found(offset), d.found(offset).len(), type_id, direction),
            id,
        );
        if m == j {
            lemma_delete_group_others(g, row, offset, type_id, direction);
        }
    }
}

/// What deleting an edge from the groups of a direction does, however often it is there: it takes one
/// row, and nothing from other edges.
proof fn lemma_delete_first(
    ranges: Ranges,
    direction: Direction,
    schema: Seq<(ColumnId, DataType)>,
    edge_id: EdgeId,
    other: EdgeId,
    offset: u64,
    type_id: LabelId,
)
    requires
        ranges_ok(ranges, direction, schema),
    ensures
        ({
            let d = delete_in(ranges, edge_id);
            &&& ranges_live(d, d.len()) == ranges_live(ranges, ranges.len()) - if absent(
                ranges,
                edge_id,
            ) {
                0int
            } else {
                1
            }
            &&& without_edge(refs_in(d, offset, type_id, direction), edge_id) == without_edge(
                refs_in(ranges, offset, type_id, direction),
                edge_id,
            )
            &&& refs_in(d, offset, type_id, direction).len() <= refs_in(
                ranges,
                offset,
                type_id,
                direction,
            ).len()
            &&& other != edge_id ==> read_in(d, other) == read_in(ranges, other) && absent(d, other)
                == absent(ranges, other) && once(d, other) == once(ranges, other)
        }),
{
    lemma_locate_first(ranges, direction, schema, edge_id);
    lemma_delete_in_ok(ranges, direction, schema, edge_id);
    match locate(ranges, edge_id) {
        Some((i, j)) => {
            let k = ranges[i].0;
            let groups = groups_of(ranges, k);
            let g = groups[j];
            let row = g.find(edge_id)->Some_0 as u64;
            let d = delete_in(ranges, edge_id);
            let after = groups_after(groups, j, row);
            assert(edge_at(ranges, edge_id, k, j, row));
            lemma_range(ranges, direction, schema, k);
            assert(group_ok(g, k, direction, schema));
            assert(d =~= put(ranges, k, after));
            edge::law_delete_edge_hides(g, row, offset, 0);
            lemma_groups_live_update(groups, j, g.delete(row), groups.len());
            lemma_ranges_live_put(ranges, k, after);
            let k2 = range_of(offset);
            ordered_map::law_put_then_lookup(ranges, k, after, k2);
            if k2 == k {
                lemma_groups_others(groups, j, row, groups.len(), offset, type_id, direction);
            }
            if other != edge_id {
                assert forall|k2: u64, j2: int, r2: u64| #[trigger]
                    edge_at(d, other, k2, j2, r2) <==> edge_at(ranges, other, k2, j2, r2) by {
                    lemma_delete_places(ranges, direction, schema, k, j, row, other, k2, j2, r2);
                }
                assert forall|k2: u64, j2: int, r2: u64| #[trigger]
                    edge_at(d, other, k2, j2, r2) implies groups_of(d, k2)[j2].read(r2)
                    == groups_of(ranges, k2)[j2].read(r2) by {
                    lemma_delete_places(ranges, direction, schema, k, j, row, other, k2, j2, r2);
                }
                lemma_same_places(ranges, d, direction, schema, other);
            }
        },
        None => {},
    }
}

/// Deleting an edge fails exactly where reading it gives nothing, and then changes nothing. Otherwise
/// there is one edge less. However often the edge was inserted, every other edge is read as before,
/// and the others at an offset keep their order.
pub proof fn law_delete_exactly(t: EdgeTableView, edge_id: EdgeId, other: EdgeId, offset: u64)
    requires
        t.tidy(),
    ensures
        ({
            let d = t.delete(edge_id);
            &&& d.tidy()
            &&& d.schema == t.schema
            &&& absent(t.fwd, edge_id) <==> absent(t.bwd, edge_id)
            &&& !t.has(edge_id) <==> t.read(edge_id) == Ok::<Option<RecordView>, ErrorView>(None)
            &&& !t.has(edge_id) ==> d == t
            &&& d.num_edges() == t.num_edges() - if t.has(edge_id) {
                1int
            } else {
                0
            }
            &&& other != edge_id ==> d.read(other) == t.read(other)
            &&& other != edge_id ==> d.lacks(other) == t.lacks(other)
            &&& other != edge_id ==> d.has_once(other) == t.has_once(other)
            &&& without_edge(d.neighbors(offset, Direction::Forward), edge_id) == without_edge(
                t.neighbors(offset, Direction::Forward),
                edge_id,
            )
            &&& without_edge(d.neighbors(offset, Direction::Backward), edge_id) == without_edge(
                t.neighbors(offset, Direction::Backward),
                edge_id,
            )
            &&& d.neighbors(offset, Direction::Forward).len() <= t.neighbors(
                offset,
                Direction::Forward,
            ).len()
            &&& d.neighbors(offset, Direction::Backward).len() <= t.neighbors(
                offset,
                Direction::Backward,
            ).len()
        }),
{
    let schema = t.columns();
    let type_id = t.schema.label_id;
    let fwd = Direction::Forward;
    let bwd = Direction::Backward;
    let d = t.delete(edge_id);
    law_delete_keeps_tidy(t, edge_id);
    law_read_is_present(t, edge_id, offset);
    lemma_delete_first(t.fwd, fwd, schema, edge_id, other, offset, type_id);
    lemma_delete_first(t.bwd, bwd, schema, edge_id, other, offset, type_id);
    assert(d.fwd == delete_in(t.fwd, edge_id));
    assert(d.bwd == delete_in(t.bwd, edge_id));
    assert(d.read(other) == read_in(d.fwd, other) && t.read(other) == read_in(t.fwd, other));
    assert(d.neighbors(offset, fwd) == refs_in(d.fwd, offset, type_id, fwd));
    assert(t.neighbors(offset, fwd) == refs_in(t.fwd, offset, type_id, fwd));
    assert(d.neighbors(offset, bwd) == refs_in(d.bwd, offset, type_id, bwd));
    assert(t.neighbors(offset, bwd) == refs_in(t.bwd, offset, type_id, bwd));
}

// ---------------------------------------------------------------------------------------------
// Any number of inserts and deletes

/// An insert or a delete.
pub enum EdgeStep {
    Insert {
        edge_id: EdgeId,
        from: NodeId,
        to: NodeId,
        from_offset: u64,
        to_offset: u64,
        values: RowView,
    },
    Delete { edge_id: EdgeId },
}

/// The offsets of an edge that is inserted leave room for a group's range.
pub open spec fn in_reach(step: EdgeStep) -> bool {
    step matches EdgeStep::Insert { from_offset, to_offset, .. } ==> range_of(from_offset)
        < 0xffff_ffff_ffff && range_of(to_offset) < 0xffff_ffff_ffff
}

impl EdgeTableView {
    pub open spec fn step(self, step: EdgeStep) -> EdgeTableView {
        match step {
            EdgeStep::Insert { edge_id, from, to, from_offset, to_offset, values } => self.insert(
                edge_id,
                from,
                to,
                from_offset,
                to_offset,
                values,
            ).state,
            EdgeStep::Delete { edge_id } => self.delete(edge_id),
        }
    }
}

/// The table after the first `n` steps on a new one.
pub open spec fn built(schema: EdgeTypeView, steps: Seq<EdgeStep>, n: nat) -> EdgeTableView
    decreases n,
{
    if n == 0 {
        EdgeTableView::empty(schema)
    } else {
        built(schema, steps, (n - 1) as nat).step(steps[n - 1])
    }
}

/// Whatever was inserted and deleted, taken or refused: an edge is in a row of one direction exactly
/// if it is in one of the other, and deleting it fails exactly where reading it gives nothing.
pub proof fn law_built(schema: EdgeTypeView, steps: Seq<EdgeStep>, n: nat, edge_id: EdgeId)
    requires
        n <= steps.len(),
        forall|i: int| 0 <= i < n ==> in_reach(#[trigger] steps[i]),
    ensures
        ({
            let t = built(schema, steps, n);
            &&& t.tidy()
            &&& t.schema == schema
            &&& absent(t.fwd, edge_id) <==> absent(t.bwd, edge_id)
            &&& !t.has(edge_id) <==> t.read(edge_id) == Ok::<Option<RecordView>, ErrorView>(None)
        }),
    decreases n,
{
    let t = built(schema, steps, n);
    if n == 0 {
        law_empty_tidy(schema, edge_id, 0);
    } else {
        let before = built(schema, steps, (n - 1) as nat);
        law_built(schema, steps, (n - 1) as nat, edge_id);
        assert(in_reach(steps[n - 1]));
        match steps[n - 1] {
            EdgeStep::Insert { edge_id: id, from, to, from_offset, to_offset, values } => {
                lemma_insert_both(before, id, from, to, from_offset, to_offset, values, 0);
            },
            EdgeStep::Delete { edge_id: id } => {
                law_delete_keeps_tidy(before, id);
            },
        }
    }
    law_read_is_present(t, edge_id, 0);
}

/// The step inserts the edge, whether or not it is taken.
pub open spec fn inserts(step: EdgeStep, id: EdgeId) -> bool {
    step matches EdgeStep::Insert { edge_id, .. } && edge_id == id
}

/// No two of the first `n` steps insert the edge.
pub open spec fn inserted_once(steps: Seq<EdgeStep>, n: nat, edge_id: EdgeId) -> bool {
    forall|i: int, j: int|
        0 <= i < n && 0 <= j < n && inserts(#[trigger] steps[i], edge_id) && inserts(
            #[trigger] steps[j],
            edge_id,
        ) ==> i == j
}

/// An edge that was inserted once is in one row at most, and one that was not is in none.
proof fn lemma_built_once(schema: EdgeTypeView, steps: Seq<EdgeStep>, n: nat, edge_id: EdgeId)
    requires
        n <= steps.len(),
        forall|i: int| 0 <= i < n ==> in_reach(#[trigger] steps[i]),
        inserted_once(steps, n, edge_id),
    ensures
        built(schema, steps, n).has_once(edge_id),
        (forall|i: int| 0 <= i < n ==> !inserts(#[trigger] steps[i], edge_id)) ==> built(
            schema,
            steps,
            n,
        ).lacks(edge_id),
    decreases n,
{
    if n > 0 {
        let m = (n - 1) as nat;
        lemma_built_once(schema, steps, m, edge_id);
        law_built(schema, steps, m, edge_id);
        assert(in_reach(steps[n - 1]));
        if inserts(steps[n - 1], edge_id) {
            assert forall|i: int| 0 <= i < m implies !inserts(#[trigger] steps[i], edge_id) by {}
        }
        lemma_step_once(built(schema, steps, m), steps[n - 1], edge_id);
    }
}

/// What a step does to the number of rows that an edge is in.
proof fn lemma_step_once(t: EdgeTableView, step: EdgeStep, edge_id: EdgeId)
    requires
        t.tidy(),
        in_reach(step),
        t.has_once(edge_id),
        inserts(step, edge_id) ==> t.lacks(edge_id),
    ensures
        t.step(step).has_once(edge_id),
        !inserts(step, edge_id) && t.lacks(edge_id) ==> t.step(step).lacks(edge_id),
{
    match step {
        EdgeStep::Insert { edge_id: id, from, to, from_offset, to_offset, values } => {
            if t.insert(id, from, to, from_offset, to_offset, values).result is Ok {
                law_insert_then_read(
                    t,
                    id,
                    from,
                    to,
                    from_offset,
                    to_offset,
                    values,
                    edge_id,
                    0,
                );
            } else {
                law_refused_insert(
                    t,
                    id,
                    from,
                    to,
                    from_offset,
                    to_offset,
                    values,
                    edge_id,
                    0,
                    Direction::Forward,
                );
            }
        },
        EdgeStep::Delete { edge_id: id } => {
            if id == edge_id {
                law_delete_hides(t, id, id, 0);
            } else {
                law_delete_exactly(t, id, edge_id, 0);
            }
        },
    }
}

/// In a table made by inserting and deleting, if the edge was inserted at most once, deleting it fails
/// exactly if reading it gave nothing, and then changes nothing. Where it succeeds the edge reads as
/// nothing, there is one edge less, and it is gone from the edges that leave and that reach any
/// offset. Every other edge is read as before, and the others at an offset keep their order.
pub proof fn law_built_delete(
    schema: EdgeTypeView,
    steps: Seq<EdgeStep>,
    n: nat,
    edge_id: EdgeId,
    other: EdgeId,
    offset: u64,
    direction: Direction,
)
    requires
        n <= steps.len(),
        forall|i: int| 0 <= i < n ==> in_reach(#[trigger] steps[i]),
        inserted_once(steps, n, edge_id),
    ensures
        ({
            let t = built(schema, steps, n);
            let d = t.delete(edge_id);
            &&& !t.has(edge_id) <==> t.read(edge_id) == Ok::<Option<RecordView>, ErrorView>(None)
            &&& !t.has(edge_id) ==> d == t
            &&& d.read(edge_id) == Ok::<Option<RecordView>, ErrorView>(None)
            &&& d.num_edges() == t.num_edges() - if t.has(edge_id) {
                1int
            } else {
                0
            }
            &&& d.neighbors(offset, direction) == without_edge(
                t.neighbors(offset, direction),
                edge_id,
            )
            &&& other != edge_id ==> d.read(other) == t.read(other)
        }),
{
    law_built(schema, steps, n, edge_id);
    lemma_built_once(schema, steps, n, edge_id);
    law_delete_hides(built(schema, steps, n), edge_id, other, offset);
}

// ---------------------------------------------------------------------------------------------
// What is left behind, and errors

impl EdgeTableView {
    /// No refused edge left values behind in a group that edges go into.
    pub open spec fn unspoilt(self) -> bool {
        forall|offset: u64| #[trigger] self.even_at(offset)
    }
}

/// An edge that is taken, and deleting, leave no values behind.
pub proof fn law_unspoilt(
    t: EdgeTableView,
    edge_id: EdgeId,
    from: NodeId,
    to: NodeId,
    from_offset: u64,
    to_offset: u64,
    values: RowView,
)
    requires
        t.tidy(),
        t.unspoilt(),
        range_of(from_offset) < 0xffff_ffff_ffff,
        range_of(to_offset) < 0xffff_ffff_ffff,
    ensures
        ({
            let i = t.insert(edge_id, from, to, from_offset, to_offset, values);
            i.result is Ok ==> i.state.unspoilt()
        }),
        t.delete(edge_id).unspoilt(),
{
    let i = t.insert(edge_id, from, to, from_offset, to_offset, values);
    if i.result is Ok {
        assert forall|offset: u64| #[trigger] i.state.even_at(offset) by {
            lemma_insert_even(t, edge_id, from, to, from_offset, to_offset, values, offset);
        }
    }
    assert forall|offset: u64| #[trigger] t.delete(edge_id).even_at(offset) by {
        lemma_delete_even(t, edge_id, offset);
    }
}

proof fn lemma_insert_even(
    t: EdgeTableView,
    edge_id: EdgeId,
    from: NodeId,
    to: NodeId,
    from_offset: u64,
    to_offset: u64,
    values: RowView,
    offset: u64,
)
    requires
        t.tidy(),
        t.even_at(from_offset),
        t.even_at(offset),
        range_of(from_offset) < 0xffff_ffff_ffff,
        range_of(to_offset) < 0xffff_ffff_ffff,
        t.insert(edge_id, from, to, from_offset, to_offset, values).result is Ok,
    ensures
        t.insert(edge_id, from, to, from_offset, to_offset, values).state.even_at(offset),
{
    let fwd = Direction::Forward;
    let schema = t.columns();
    let k = range_of(from_offset);
    let k2 = range_of(offset);
    let groups = groups_of(t.fwd, k);
    if groups.len() > 0 {
        lemma_range(t.fwd, fwd, schema, k);
    }
    lemma_active_groups(groups, k, fwd, schema, offset, LabelId(0));
    let a = with_active_group(groups, k, fwd, schema);
    let n = a.len() - 1;
    let g = a[n];
    assert(a.last() == g);
    assert(group_ok(g, k, fwd, schema));
    lemma_insert_group(g, k, fwd, schema, from_offset, edge_id, from, to, values, offset, 0);
    let h = g.insert(from_offset, edge_id, from, to, values).state;
    let after = a.update(n, h);
    assert(after.last() == h);
    ordered_map::law_put_then_lookup(t.fwd, k, after, k2);
    edge::law_empty_edge_group_regular(NodeGroupIdx(k), fwd, schema);
}

proof fn lemma_delete_even(t: EdgeTableView, edge_id: EdgeId, offset: u64)
    requires
        t.tidy(),
        t.even_at(offset),
    ensures
        t.delete(edge_id).even_at(offset),
{
    let fwd = Direction::Forward;
    let schema = t.columns();
    lemma_locate_first(t.fwd, fwd, schema, edge_id);
    assert(t.delete(edge_id).fwd == delete_in(t.fwd, edge_id));
    match locate(t.fwd, edge_id) {
        Some((i, j)) => {
            let k = t.fwd[i].0;
            let groups = groups_of(t.fwd, k);
            let g = groups[j];
            let row = g.find(edge_id)->Some_0 as u64;
            assert(edge_at(t.fwd, edge_id, k, j, row));
            lemma_range(t.fwd, fwd, schema, k);
            assert(group_ok(g, k, fwd, schema));
            let after = groups_after(groups, j, row);
            let d = delete_in(t.fwd, edge_id);
            assert(d =~= put(t.fwd, k, after));
            edge::law_delete_edge_hides(g, row, 0, 0);
            ordered_map::law_put_then_lookup(t.fwd, k, after, range_of(offset));
            assert(after.last() == if j == groups.len() - 1 {
                g.delete(row)
            } else {
                groups.last()
            });
        },
        None => {},
    }
}

/// A new table is unspoilt.
pub proof fn law_empty_unspoilt(schema: EdgeTypeView)
    ensures
        EdgeTableView::empty(schema).unspoilt(),
{
    assert forall|offset: u64| #[trigger] EdgeTableView::empty(schema).even_at(offset) by {
        law_empty_tidy(schema, EdgeId(0), offset);
    }
}

/// The error of an edge that is refused, where none was refused before: it is that of its first value
/// that its column does not take.
pub proof fn law_refused_error(
    t: EdgeTableView,
    edge_id: EdgeId,
    from: NodeId,
    to: NodeId,
    from_offset: u64,
    to_offset: u64,
    values: RowView,
)
    requires
        t.tidy(),
        t.even_at(from_offset),
        range_of(from_offset) < 0xffff_ffff_ffff,
        !types_match(t.columns(), values),
    ensures
        t.insert(edge_id, from, to, from_offset, to_offset, values).result == Err::<(), ErrorView>(
            row::first_mismatch(empty_columns(t.columns()), values, t.columns().len())->Some_0,
        ),
{
    let fwd = Direction::Forward;
    let schema = t.columns();
    let k = range_of(from_offset);
    let groups = groups_of(t.fwd, k);
    if groups.len() > 0 {
        lemma_range(t.fwd, fwd, schema, k);
    }
    lemma_active_groups(groups, k, fwd, schema, from_offset, LabelId(0));
    let a = with_active_group(groups, k, fwd, schema);
    let g = a[a.len() - 1];
    assert(a.last() == g);
    assert(group_ok(g, k, fwd, schema));
    lemma_insert_group(
        g, k, fwd, schema, from_offset, edge_id, from, to, values, from_offset, 0);
    lemma_append_mismatch(g.columns, values, g.columns.len());
    assert forall|c: int| 0 <= c < g.columns.len() implies (#[trigger] g.columns[c]).data_type
        == empty_columns(schema)[c].data_type by {}
    row::lemma_mismatch_by_type(g.columns, empty_columns(schema), values, g.columns.len());
}

/// Columns that are not full refuse a row for its first value of another type.
pub proof fn lemma_append_mismatch(columns: Seq<ColumnView>, values: RowView, n: nat)
    requires
        n <= columns.len(),
        forall|c: int| 0 <= c < columns.len() ==> (#[trigger] columns[c]).len() < 65536,
    ensures
        row::append_upto(columns, values, n).1 == row::first_mismatch(columns, values, n),
    decreases n,
{
    if n > 0 {
        lemma_append_mismatch(columns, values, (n - 1) as nat);
        assert(columns[n - 1].len() < 65536);
    }
}

} // verus!
