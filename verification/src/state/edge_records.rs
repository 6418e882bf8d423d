//! The records of an edge table: which there are and in what order.

use vstd::prelude::*;

use crate::error::ErrorView;
use crate::listing;
use crate::listing::{chained, filled};
use crate::ordered_map;
use crate::ordered_map::{put, rank, sorted};
use crate::search;
use crate::search::first_where;
use crate::state::edge_laws;
use crate::state::edge_laws::{
    edge_at, group_ok, groups_after, groups_ok, lemma_locate_first, ranges_ok,
};
use crate::state::edge_table::{
    delete_in, group_has, group_records, groups_live, groups_of, groups_records, locate, range_has, range_of,
    ranges_groups, ranges_live, ranges_records, with_active_group, EdgeTableView, Ranges,
};
use crate::storage::edge_records::record_of;
use crate::table::edge;
use crate::table::edge::{EdgeGroupView, RecordView};
use crate::table::node::padded;
use crate::table::row;
use crate::table::row::RowView;
use crate::types::{ColumnId, DataType, Direction, EdgeId, LabelId, NodeId};

verus! {

/// The record of each row of a group, if the row is live.
spec fn rows(g: EdgeGroupView) -> spec_fn(int) -> Option<RecordView> {
    |row: int|
        match g.read(row as u64) {
            Ok(Some(record)) => Some(record),
            _ => None,
        }
}

/// The records of each group of a range.
spec fn parts(groups: Seq<EdgeGroupView>) -> spec_fn(int) -> Seq<RecordView> {
    |j: int| group_records(groups[j], groups[j].len())
}

/// The records of each range.
spec fn spans(ranges: Ranges) -> spec_fn(int) -> Seq<RecordView> {
    |i: int| groups_records(ranges[i].1, ranges[i].1.len())
}

spec fn is_edge(edge_id: EdgeId) -> spec_fn(RecordView) -> bool {
    |r: RecordView| r.edge_id == edge_id
}

proof fn lemma_rows(g: EdgeGroupView, n: nat)
    ensures
        group_records(g, n) == filled(rows(g), n),
    decreases n,
{
    if n > 0 {
        lemma_rows(g, (n - 1) as nat);
    }
}

proof fn lemma_parts(groups: Seq<EdgeGroupView>, n: nat)
    ensures
        groups_records(groups, n) == chained(parts(groups), n),
    decreases n,
{
    if n > 0 {
        lemma_parts(groups, (n - 1) as nat);
    }
}

proof fn lemma_spans(ranges: Ranges, n: nat)
    ensures
        ranges_records(ranges, n) == chained(spans(ranges), n),
    decreases n,
{
    if n > 0 {
        lemma_spans(ranges, (n - 1) as nat);
    }
}

/// A row of a regular group has a record exactly if it was not deleted.
proof fn lemma_row(g: EdgeGroupView, row: int)
    requires
        g.regular(),
        0 <= row < g.len(),
    ensures
        rows(g)(row) is None <==> g.deleted[row],
        rows(g)(row) matches Some(record) ==> record.edge_id == g.edge_ids[row] && g.read(
            row as u64,
        ) == Ok::<Option<RecordView>, ErrorView>(Some(record)),
{
    row::lemma_read_all_values(g.columns, row as u64);
}

// ---------------------------------------------------------------------------------------------
// Counting

proof fn lemma_groups_count(
    groups: Seq<EdgeGroupView>,
    k: u64,
    direction: Direction,
    schema: Seq<(ColumnId, DataType)>,
    n: nat,
)
    requires
        groups_ok(groups, k, direction, schema),
        n <= groups.len(),
    ensures
        groups_records(groups, n).len() == groups_live(groups, n),
    decreases n,
{
    if n > 0 {
        lemma_groups_count(groups, k, direction, schema, (n - 1) as nat);
        let g = groups[n - 1];
        assert(group_ok(g, k, direction, schema));
        lemma_rows(g, g.len());
        assert forall|row: int| 0 <= row < g.len() implies (#[trigger] rows(g)(row) is None
            <==> g.deleted[row]) by {
            lemma_row(g, row);
        }
        listing::lemma_filled_count(rows(g), g.len(), g.deleted);
    }
}

proof fn lemma_ranges_count(
    ranges: Ranges,
    direction: Direction,
    schema: Seq<(ColumnId, DataType)>,
    n: nat,
)
    requires
        ranges_ok(ranges, direction, schema),
        n <= ranges.len(),
    ensures
        ranges_records(ranges, n).len() == ranges_live(ranges, n),
    decreases n,
{
    if n > 0 {
        lemma_ranges_count(ranges, direction, schema, (n - 1) as nat);
        let groups = ranges[n - 1].1;
        assert(groups_ok(groups, ranges[n - 1].0, direction, schema));
        lemma_groups_count(groups, ranges[n - 1].0, direction, schema, groups.len());
    }
}

/// There is a record for each edge that is counted.
pub proof fn law_records_counted(t: EdgeTableView)
    requires
        t.tidy(),
    ensures
        t.records().len() == t.num_edges(),
{
    lemma_ranges_count(t.fwd, Direction::Forward, t.columns(), t.fwd.len());
}

// ---------------------------------------------------------------------------------------------
// Inserting

/// What inserting an edge does to the records of its range.
proof fn lemma_insert_groups(
    groups: Seq<EdgeGroupView>,
    k: u64,
    schema: Seq<(ColumnId, DataType)>,
    offset: u64,
    edge_id: EdgeId,
    from: NodeId,
    to: NodeId,
    values: RowView,
)
    requires
        k < 0xffff_ffff_ffff,
        range_of(offset) == k,
        groups.len() > 0 ==> groups_ok(groups, k, Direction::Forward, schema),
    ensures
        ({
            let a = with_active_group(groups, k, Direction::Forward, schema);
            let n = a.len() - 1;
            let i = a[n].insert(offset, edge_id, from, to, values);
            let before = groups_records(groups, groups.len());
            let after = groups_records(a.update(n, i.state), a.len());
            &&& i.result is Ok ==> {
                &&& after == before.push(after.last())
                &&& after.last().edge_id == edge_id
                &&& after.last().from == from
                &&& after.last().to == to
                &&& a[n].even() ==> after.last().properties == padded(schema, values)
            }
            &&& i.result is Err ==> after == before
        }),
{
    let direction = Direction::Forward;
    let a = with_active_group(groups, k, direction, schema);
    let n = a.len() - 1;
    let m = a.len();
    edge_laws::lemma_active_groups(groups, k, direction, schema, offset, LabelId(0));
    let g = a[n];
    assert(group_ok(g, k, direction, schema));
    edge_laws::lemma_insert_group(
        g,
        k,
        direction,
        schema,
        offset,
        edge_id,
        from,
        to,
        values,
        offset,
        0,
    );
    let h = g.insert(offset, edge_id, from, to, values).state;
    let s = a.update(n, h);
    lemma_parts(a, m);
    lemma_parts(s, m);
    lemma_parts(groups, groups.len());
    let before = groups_records(groups, groups.len());
    assert(chained(parts(a), m) == before) by {
        listing::lemma_chained_same(parts(a), parts(groups), groups.len());
        if groups.len() < m {
            assert(g.len() == 0);
            assert(chained(parts(a), m) =~= chained(parts(a), n as nat));
        }
    }
    lemma_rows(g, g.len());
    lemma_rows(h, g.len());
    assert forall|row: int| 0 <= row < g.len() implies #[trigger] rows(h)(row) == rows(g)(row) by {
        edge_laws::lemma_insert_group(
            g,
            k,
            direction,
            schema,
            offset,
            edge_id,
            from,
            to,
            values,
            offset,
            row as u64,
        );
    }
    listing::lemma_filled_same(rows(h), rows(g), g.len());
    assert forall|j: int| 0 <= j < m && j != n implies #[trigger] parts(a)(j) == parts(s)(j) by {}
    if g.insert(offset, edge_id, from, to, values).result is Ok {
        let r = h.read(g.len() as u64)->Ok_0->Some_0;
        assert(parts(s)(n) == parts(a)(n).push(r));
        listing::lemma_chained_with(parts(a), parts(s), n, r, m);
        assert(before.insert(before.len() as int, r) =~= before.push(r));
    } else {
        listing::lemma_chained_same(parts(a), parts(s), m);
    }
}

/// An edge that is taken gets a record behind those of its source's range and of the ranges before it,
/// with its values if none were left behind by a refused edge. All other records stay, in their order.
/// A refused edge leaves the records as they are.
pub proof fn law_insert_record(
    t: EdgeTableView,
    edge_id: EdgeId,
    from: NodeId,
    to: NodeId,
    from_offset: u64,
    to_offset: u64,
    values: RowView,
)
    requires
        t.tidy(),
        range_of(from_offset) < 0xffff_ffff_ffff,
        range_of(to_offset) < 0xffff_ffff_ffff,
    ensures
        ({
            let i = t.insert(edge_id, from, to, from_offset, to_offset, values);
            let n = rank(t.fwd, (range_of(from_offset) + 1) as u64);
            let p = ranges_records(t.fwd, n).len() as int;
            let record = i.state.records()[p];
            &&& p <= t.records().len()
            &&& i.result is Ok ==> {
                &&& i.state.records() == t.records().insert(p, record)
                &&& record.edge_id == edge_id
                &&& record.from == from
                &&& record.to == to
                &&& t.even_at(from_offset) ==> record.properties == padded(t.columns(), values)
            }
            &&& i.result is Err ==> i.state.records() == t.records()
        }),
{
    let schema = t.columns();
    let k = range_of(from_offset);
    let groups = groups_of(t.fwd, k);
    let at = rank(t.fwd, k) as int;
    let i = t.insert(edge_id, from, to, from_offset, to_offset, values);
    let n = rank(t.fwd, (k + 1) as u64);
    edge_laws::lemma_insert_both(t, edge_id, from, to, from_offset, to_offset, values, 0);
    if groups.len() > 0 {
        edge_laws::lemma_range(t.fwd, Direction::Forward, schema, k);
    }
    lemma_insert_groups(groups, k, schema, from_offset, edge_id, from, to, values);
    let a = with_active_group(groups, k, Direction::Forward, schema);
    let after = a.update(
        a.len() - 1,
        a[a.len() - 1].insert(from_offset, edge_id, from, to, values).state,
    );
    let s = i.state.fwd;
    assert(s == put(t.fwd, k, after));
    assert(a.last() == a[a.len() - 1]);
    ordered_map::lemma_rank(t.fwd, k);
    let before = groups_records(groups, groups.len());
    let m = t.fwd.len();
    lemma_spans(t.fwd, m);
    lemma_spans(t.fwd, n);
    lemma_spans(s, s.len());
    if ordered_map::has_key(t.fwd, k) {
        ordered_map::lemma_rank_is(t.fwd, (k + 1) as u64, (at + 1) as nat);
        assert forall|x: int| 0 <= x < m && x != at implies #[trigger] spans(t.fwd)(x) == spans(s)(
            x,
        ) by {}
        assert(spans(t.fwd)(at) == before);
        let got = groups_records(after, after.len());
        assert(spans(s)(at) == got);
        if i.result is Ok {
            listing::lemma_chained_with(spans(t.fwd), spans(s), at, got.last(), m);
        } else {
            listing::lemma_chained_same(spans(t.fwd), spans(s), m);
            listing::lemma_chained_grows(spans(t.fwd), (at + 1) as nat, m);
        }
    } else {
        ordered_map::lemma_rank_is(t.fwd, (k + 1) as u64, at as nat);
        assert(groups.len() == 0 && before.len() == 0);
        assert forall|x: int| 0 <= x < at implies #[trigger] spans(t.fwd)(x) == spans(s)(x) by {}
        assert forall|x: int| at < x <= m implies #[trigger] spans(s)(x) == spans(t.fwd)(x - 1) by {
            assert(s[x] == t.fwd[x - 1]);
        }
        let got = groups_records(after, after.len());
        assert(s[at] == (k, after));
        assert(spans(s)(at) == got);
        listing::lemma_chained_between(spans(t.fwd), spans(s), at, m);
        let p = chained(spans(t.fwd), at as nat).len() as int;
        let all = t.records();
        if i.result is Ok {
            let r = got.last();
            assert(got =~= seq![r]);
            assert(all.take(p) + got + all.skip(p) =~= all.insert(p, r));
        } else {
            assert(all.take(p) + got + all.skip(p) =~= all);
        }
    }
}

// ---------------------------------------------------------------------------------------------
// Reading and deleting

/// Rows none of which is the edge's have no record of it.
proof fn lemma_no_rows(g: EdgeGroupView, edge_id: EdgeId, n: nat)
    requires
        g.regular(),
        n <= g.len(),
        forall|row: u64| row < n && #[trigger] g.live(row) ==> g.edge_ids[row as int] != edge_id,
    ensures
        forall|x: int|
            0 <= x < group_records(g, n).len() ==> !is_edge(edge_id)(
                #[trigger] group_records(g, n)[x],
            ),
{
    lemma_rows(g, n);
    assert forall|row: int| 0 <= row < n implies (#[trigger] rows(g)(row) matches Some(record)
        ==> !is_edge(edge_id)(record)) by {
        lemma_row(g, row);
        if !g.deleted[row] {
            assert(g.live(row as u64));
        }
    }
    listing::lemma_filled_none(rows(g), n, is_edge(edge_id));
}

proof fn lemma_no_groups(
    groups: Seq<EdgeGroupView>,
    k: u64,
    direction: Direction,
    schema: Seq<(ColumnId, DataType)>,
    edge_id: EdgeId,
    n: nat,
)
    requires
        groups_ok(groups, k, direction, schema),
        n <= groups.len(),
        forall|j: int, row: u64|
            0 <= j < n && #[trigger] groups[j].live(row) ==> groups[j].edge_ids[row as int]
                != edge_id,
    ensures
        forall|x: int|
            0 <= x < groups_records(groups, n).len() ==> !is_edge(edge_id)(
                #[trigger] groups_records(groups, n)[x],
            ),
{
    lemma_parts(groups, n);
    assert forall|j: int, x: int| 0 <= j < n && 0 <= x < parts(groups)(j).len() implies !is_edge(
        edge_id,
    )(#[trigger] parts(groups)(j)[x]) by {
        let g = groups[j];
        assert(group_ok(g, k, direction, schema));
        assert forall|row: u64| row < g.len() && #[trigger] g.live(row) implies g.edge_ids[row as int]
            != edge_id by {
            assert(groups[j].live(row));
        }
        lemma_no_rows(g, edge_id, g.len());
        assert(!is_edge(edge_id)(group_records(g, g.len())[x]));
    }
    listing::lemma_chained_none(parts(groups), n, is_edge(edge_id));
}

proof fn lemma_no_ranges(
    ranges: Ranges,
    direction: Direction,
    schema: Seq<(ColumnId, DataType)>,
    edge_id: EdgeId,
    n: nat,
)
    requires
        ranges_ok(ranges, direction, schema),
        n <= ranges.len(),
        forall|k: u64, j: int, row: u64| #[trigger]
            edge_at(ranges, edge_id, k, j, row) ==> rank(ranges, k) >= n,
    ensures
        forall|x: int|
            0 <= x < ranges_records(ranges, n).len() ==> !is_edge(edge_id)(
                #[trigger] ranges_records(ranges, n)[x],
            ),
{
    lemma_spans(ranges, n);
    assert forall|i: int, x: int| 0 <= i < n && 0 <= x < spans(ranges)(i).len() implies !is_edge(
        edge_id,
    )(#[trigger] spans(ranges)(i)[x]) by {
        let groups = ranges[i].1;
        let k = ranges[i].0;
        assert(groups_ok(groups, k, direction, schema));
        ordered_map::lemma_rank_at(ranges, i);
        assert forall|j: int, row: u64|
            0 <= j < groups.len() && #[trigger] groups[j].live(row) implies groups[j].edge_ids[row as int]
            != edge_id by {
            if groups[j].edge_ids[row as int] == edge_id {
                assert(edge_at(ranges, edge_id, k, j, row));
            }
        }
        lemma_no_groups(groups, k, direction, schema, edge_id, groups.len());
        assert(!is_edge(edge_id)(groups_records(groups, groups.len())[x]));
    }
    listing::lemma_chained_none(spans(ranges), n, is_edge(edge_id));
}

/// The first record of an edge is that of the first row that it is in, and deleting takes it out.
proof fn lemma_delete_records(
    ranges: Ranges,
    direction: Direction,
    schema: Seq<(ColumnId, DataType)>,
    edge_id: EdgeId,
) -> (q: int)
    requires
        ranges_ok(ranges, direction, schema),
        locate(ranges, edge_id) is Some,
    ensures
        ({
            let (i, j) = locate(ranges, edge_id)->Some_0;
            let g = ranges[i].1[j];
            let d = delete_in(ranges, edge_id);
            let list = ranges_records(ranges, ranges.len());
            &&& 0 <= q < list.len()
            &&& g.read(g.find(edge_id)->Some_0 as u64) == Ok::<Option<RecordView>, ErrorView>(
                Some(list[q]),
            )
            &&& list[q].edge_id == edge_id
            &&& forall|x: int| 0 <= x < q ==> (#[trigger] list[x]).edge_id != edge_id
            &&& ranges_records(d, d.len()) == list.remove(q)
        }),
{
    lemma_locate_first(ranges, direction, schema, edge_id);
    let (i, j) = locate(ranges, edge_id)->Some_0;
    let k = ranges[i].0;
    let groups = ranges[i].1;
    let g = groups[j];
    let row = g.find(edge_id)->Some_0 as int;
    assert(edge_at(ranges, edge_id, k, j, row as u64));
    assert(groups_ok(groups, k, direction, schema));
    assert(group_ok(g, k, direction, schema));
    let d = delete_in(ranges, edge_id);
    let after = groups_after(groups, j, row as u64);
    let h = g.delete(row as u64);
    edge::law_delete_edge_hides(g, row as u64, 0, 0);
    // In the group.
    lemma_rows(g, g.len());
    lemma_rows(g, row as nat);
    lemma_rows(h, g.len());
    lemma_row(g, row);
    assert forall|r: int| 0 <= r < g.len() && r != row implies #[trigger] rows(g)(r) == rows(h)(
        r,
    ) by {
        edge::law_delete_edge_hides(g, row as u64, 0, r as u64);
    }
    listing::lemma_filled_without(rows(g), rows(h), row, g.len());
    let p = filled(rows(g), row as nat).len() as int;
    assert forall|r: u64| r < row && #[trigger] g.live(r) implies g.edge_ids[r as int]
        != edge_id by {
        if g.edge_ids[r as int] == edge_id {
            assert(edge_at(ranges, edge_id, k, j, r));
        }
    }
    lemma_no_rows(g, edge_id, row as nat);
    // In the range.
    let m = groups.len();
    lemma_parts(groups, m);
    lemma_parts(groups, j as nat);
    lemma_parts(after, m);
    assert forall|x: int| 0 <= x < m && x != j implies #[trigger] parts(groups)(x) == parts(after)(
        x,
    ) by {}
    listing::lemma_chained_without(parts(groups), parts(after), j, p, m);
    listing::lemma_chained_part(parts(groups), j, p, m);
    let p2 = chained(parts(groups), j as nat).len() + p;
    assert forall|jj: int, r: u64|
        0 <= jj < j && #[trigger] groups[jj].live(r) implies groups[jj].edge_ids[r as int]
        != edge_id by {
        if groups[jj].edge_ids[r as int] == edge_id {
            assert(edge_at(ranges, edge_id, k, jj, r));
        }
    }
    lemma_no_groups(groups, k, direction, schema, edge_id, j as nat);
    // In the table.
    let n = ranges.len();
    lemma_spans(ranges, n);
    lemma_spans(ranges, i as nat);
    lemma_spans(d, n);
    assert(d[i].1 == after);
    assert forall|x: int| 0 <= x < n && x != i implies #[trigger] spans(ranges)(x) == spans(d)(
        x,
    ) by {}
    listing::lemma_chained_without(spans(ranges), spans(d), i, p2, n);
    listing::lemma_chained_part(spans(ranges), i, p2, n);
    let q = chained(spans(ranges), i as nat).len() + p2;
    assert forall|k2: u64, j2: int, r2: u64| #[trigger]
        edge_at(ranges, edge_id, k2, j2, r2) implies rank(ranges, k2) >= i by {
        ordered_map::lemma_rank(ranges, k2);
        if rank(ranges, k2) < i {
            assert(ranges[rank(ranges, k2) as int].0 < ranges[i].0);
        }
    }
    lemma_no_ranges(ranges, direction, schema, edge_id, i as nat);
    let list = ranges_records(ranges, n);
    assert forall|x: int| 0 <= x < q implies (#[trigger] list[x]).edge_id != edge_id by {
        let head = ranges_records(ranges, i as nat);
        let inner = groups_records(groups, j as nat);
        let tail = group_records(g, row as nat);
        assert(list[x] == list.take(q)[x]);
        if x < head.len() {
            assert(!is_edge(edge_id)(head[x]));
        } else {
            let y = x - head.len();
            assert(list[x] == groups_records(groups, m).take(p2)[y]);
            if y < inner.len() {
                assert(!is_edge(edge_id)(inner[y]));
            } else {
                assert(!is_edge(edge_id)(tail[y - inner.len()]));
            }
        }
    }
    q
}

/// The first record of an edge is what reading it gives, and an edge that is not there has no record.
/// Deleting an edge takes its first record out, and leaves all others in their order; deleting an edge
/// that is not there changes nothing.
pub proof fn law_delete_record(t: EdgeTableView, edge_id: EdgeId)
    requires
        t.tidy(),
    ensures
        match first_where(t.records().len(), record_of(t.records(), edge_id)) {
            Some(p) => {
                &&& t.has(edge_id)
                &&& t.read(edge_id) == Ok::<Option<RecordView>, ErrorView>(Some(t.records()[p]))
                &&& t.delete(edge_id).records() == t.records().remove(p)
            },
            None => {
                &&& !t.has(edge_id)
                &&& t.read(edge_id) == Ok::<Option<RecordView>, ErrorView>(None)
                &&& t.delete(edge_id) == t
            },
        },
{
    let schema = t.columns();
    let list = t.records();
    edge_laws::law_read_is_present(t, edge_id, 0);
    lemma_locate_first(t.fwd, Direction::Forward, schema, edge_id);
    if locate(t.fwd, edge_id) is Some {
        let q = lemma_delete_records(t.fwd, Direction::Forward, schema, edge_id);
        assert(t.delete(edge_id).fwd == delete_in(t.fwd, edge_id));
        search::lemma_first_where_is(list.len(), record_of(list, edge_id), q);
    } else {
        lemma_no_ranges(t.fwd, Direction::Forward, schema, edge_id, t.fwd.len());
        assert forall|x: int| 0 <= x < list.len() implies !#[trigger] record_of(list, edge_id)(
            x,
        ) by {
            assert(!is_edge(edge_id)(list[x]));
        }
        search::lemma_first_where_none(list.len(), record_of(list, edge_id));
    }
}

/// If the edge was not inserted twice, it has one record at most.
pub proof fn law_one_record(t: EdgeTableView, edge_id: EdgeId, p: int, q: int)
    requires
        t.tidy(),
        t.has_once(edge_id),
        0 <= p < t.records().len(),
        0 <= q < t.records().len(),
        t.records()[p].edge_id == edge_id,
        t.records()[q].edge_id == edge_id,
    ensures
        p == q,
{
    let list = t.records();
    law_delete_record(t, edge_id);
    search::lemma_first_where(list.len(), record_of(list, edge_id));
    assert(record_of(list, edge_id)(p) && record_of(list, edge_id)(q));
    let first = first_where(list.len(), record_of(list, edge_id))->Some_0;
    let d = t.delete(edge_id);
    edge_laws::law_delete_hides(t, edge_id, edge_id, 0);
    law_delete_record(d, edge_id);
    let left = d.records();
    search::lemma_first_where(left.len(), record_of(left, edge_id));
    assert forall|x: int| 0 <= x < list.len() && list[x].edge_id == edge_id implies x == first by {
        assert(record_of(list, edge_id)(x));
        if x > first {
            assert(left[x - 1] == list[x]);
            assert(record_of(left, edge_id)(x - 1));
        }
    }
}

// ---------------------------------------------------------------------------------------------
// How many groups there are

proof fn lemma_groups_same(a: Ranges, b: Ranges, n: nat)
    requires
        n <= a.len(),
        n <= b.len(),
        forall|i: int| 0 <= i < n ==> (#[trigger] a[i]).1.len() == b[i].1.len(),
    ensures
        ranges_groups(a, n) == ranges_groups(b, n),
    decreases n,
{
    if n > 0 {
        lemma_groups_same(a, b, (n - 1) as nat);
        assert(a[n - 1].1.len() == b[n - 1].1.len());
    }
}

/// Putting in the groups of a range changes the number of groups by theirs.
proof fn lemma_groups_put(ranges: Ranges, key: u64, groups: Seq<EdgeGroupView>)
    requires
        sorted(ranges),
    ensures
        ranges_groups(put(ranges, key, groups), put(ranges, key, groups).len()) == ranges_groups(
            ranges,
            ranges.len(),
        ) + groups.len() - groups_of(ranges, key).len(),
{
    ordered_map::lemma_rank(ranges, key);
    let i = ordered_map::rank(ranges, key) as int;
    let after = put(ranges, key, groups);
    lemma_groups_same(ranges, after, i as nat);
    if ordered_map::has_key(ranges, key) {
        lemma_groups_behind(ranges, after, i, 0, ranges.len());
    } else {
        assert(ranges_groups(after, (i + 1) as nat) == ranges_groups(after, i as nat)
            + groups.len());
        lemma_groups_behind(ranges, after, i - 1, 1, ranges.len());
    }
}

/// Ranges that are the same behind a place have numbers of groups that differ by what they differ by up
/// to there.
proof fn lemma_groups_behind(a: Ranges, b: Ranges, i: int, shift: nat, n: nat)
    requires
        0 <= i + 1 <= n <= a.len(),
        n + shift <= b.len(),
        forall|j: int| i < j < n ==> #[trigger] a[j] == b[j + shift],
    ensures
        ranges_groups(b, n + shift) - ranges_groups(b, (i + 1 + shift) as nat) == ranges_groups(a, n)
            - ranges_groups(a, (i + 1) as nat),
    decreases n,
{
    if n > i + 1 {
        lemma_groups_behind(a, b, i, shift, (n - 1) as nat);
        assert(a[n - 1] == b[n - 1 + shift]);
    }
}

/// A new table has no groups. There is one more where an edge comes to a range that has none yet, or
/// whose last is full, and no more or less otherwise.
pub proof fn law_num_groups(
    t: EdgeTableView,
    edge_id: EdgeId,
    from: NodeId,
    to: NodeId,
    from_offset: u64,
    to_offset: u64,
    values: RowView,
)
    requires
        sorted(t.fwd),
    ensures
        EdgeTableView::empty(t.schema).num_groups() == 0,
        t.delete(edge_id).num_groups() == t.num_groups(),
        ({
            let groups = groups_of(t.fwd, (from_offset / 65536) as u64);
            let i = t.insert(edge_id, from, to, from_offset, to_offset, values);
            i.state.num_groups() == t.num_groups() + if groups.len() == 0 || groups.last().len()
                >= 65536 {
                1int
            } else {
                0
            }
        }),
{
    let k = range_of(from_offset);
    let a = with_active_group(groups_of(t.fwd, k), k, Direction::Forward, t.columns());
    let n = a.len() - 1;
    let g = a[n].insert(from_offset, edge_id, from, to, values).state;
    lemma_groups_put(t.fwd, k, a.update(n, g));
    search::lemma_first_where(t.fwd.len(), range_has(t.fwd, edge_id));
    let d = delete_in(t.fwd, edge_id);
    assert(d.len() == t.fwd.len());
    assert forall|i: int| 0 <= i < d.len() implies (#[trigger] d[i]).1.len()
        == t.fwd[i].1.len() by {
        match locate(t.fwd, edge_id) {
            Some((at, j)) => {
                assert(range_has(t.fwd, edge_id)(at));
                search::lemma_first_where(t.fwd[at].1.len(), group_has(t.fwd[at].1, edge_id));
                let h = t.fwd[at].1[j];
                let groups = t.fwd[at].1.update(j, h.delete(h.find(edge_id)->Some_0 as u64));
                assert(d[i] == if i == at {
                    (t.fwd[at].0, groups)
                } else {
                    t.fwd[i]
                });
            },
            None => {},
        }
    }
    lemma_groups_same(d, t.fwd, d.len());
}

} // verus!
