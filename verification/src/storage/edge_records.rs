//! The records of the in-memory edges: which there are and in what order, and the rows that they take.

use vstd::prelude::*;

use crate::catalog::EdgeTypeView;
use crate::error::ErrorView;
use crate::listing;
use crate::listing::{chained, filled};
use crate::search;
use crate::search::first_where;
use crate::storage::edge_group::PlainGroupView;
use crate::storage::edge_laws;
use crate::storage::edge_table::{group_records, live_rows, table_records, PlainEdgesView};
use crate::table::edge::RecordView;
use crate::table::node::padded;
use crate::table::row;
use crate::table::row::{has_schema, RowView};
use crate::types::{EdgeId, NodeGroupIdx, NodeId};

verus! {

/// The record is of the edge.
pub open spec fn record_of(records: Seq<RecordView>, edge_id: EdgeId) -> spec_fn(int) -> bool {
    |p: int| records[p].edge_id == edge_id
}

/// The record of each row of a group, if the row is live.
spec fn rows(g: PlainGroupView) -> spec_fn(int) -> Option<RecordView> {
    |row: int|
        match g.read(row as u64) {
            Ok(Some(record)) => Some(record),
            _ => None,
        }
}

/// The records of each group.
spec fn parts(groups: Seq<PlainGroupView>) -> spec_fn(int) -> Seq<RecordView> {
    |i: int| group_records(groups[i], groups[i].len())
}

proof fn lemma_rows(g: PlainGroupView, n: nat)
    ensures
        group_records(g, n) == filled(rows(g), n),
    decreases n,
{
    if n > 0 {
        lemma_rows(g, (n - 1) as nat);
    }
}

proof fn lemma_parts(groups: Seq<PlainGroupView>, n: nat)
    ensures
        table_records(groups, n) == chained(parts(groups), n),
    decreases n,
{
    if n > 0 {
        lemma_parts(groups, (n - 1) as nat);
    }
}

/// A row of a regular group has a record exactly if it was not deleted.
proof fn lemma_row(g: PlainGroupView, row: int)
    requires
        g.regular(),
        0 <= row < g.len(),
    ensures
        rows(g)(row) is None <==> g.deleted[row],
        rows(g)(row) matches Some(record) ==> record.edge_id == g.edge_ids[row] && g.read(
            row as u64,
        ) == Ok::<Option<RecordView>, ErrorView>(Some(record)),
{
    row::lemma_read_all_values(g.columns, row as u64);
}

/// An edge that is taken is the last record, with its values if none were left behind by a refused
/// edge. A refused edge leaves the records as they are.
pub proof fn law_insert_record(
    t: PlainEdgesView,
    edge_id: EdgeId,
    from: NodeId,
    to: NodeId,
    values: RowView,
)
    requires
        t.regular(),
    ensures
        ({
            let i = t.insert(edge_id, from, to, values);
            let last = i.state.records().last();
            &&& i.result is Ok ==> {
                &&& i.state.records() == t.records().push(last)
                &&& last.edge_id == edge_id
                &&& last.from == from
                &&& last.to == to
                &&& t.even() ==> last.properties == padded(t.columns(), values)
            }
            &&& i.result is Err ==> i.state.records() == t.records()
        }),
{
    edge_laws::lemma_active(t, edge_id);
    let a = t.active_groups();
    let n = a.len() - 1;
    let g = a[n];
    let s = t.insert(edge_id, from, to, values).state;
    let h = s.groups[n];
    let m = a.len();
    assert(PlainEdgesView { groups: a, ..t }.groups[n].regular());
    lemma_parts(a, m);
    lemma_parts(s.groups, m);
    lemma_parts(t.groups, t.groups.len());
    assert(table_records(a, m) == t.records()) by {
        listing::lemma_chained_same(parts(a), parts(t.groups), t.groups.len());
        if t.groups.len() < m {
            assert(g.len() == 0);
            assert(chained(parts(a), m) =~= chained(parts(a), n as nat));
        }
    }
    edge_laws::law_group_insert(g, edge_id, from, to, values, 0);
    lemma_rows(g, g.len());
    lemma_rows(h, g.len());
    assert forall|row: int| 0 <= row < g.len() implies #[trigger] rows(h)(row) == rows(g)(row) by {
        edge_laws::law_group_insert(g, edge_id, from, to, values, row as u64);
    }
    listing::lemma_filled_same(rows(h), rows(g), g.len());
    assert forall|i: int| 0 <= i < m && i != n implies #[trigger] parts(a)(i) == parts(s.groups)(
        i,
    ) by {}
    if t.insert(edge_id, from, to, values).result is Ok {
        let r = h.read(g.len() as u64)->Ok_0->Some_0;
        assert(parts(s.groups)(n) == parts(a)(n).push(r));
        listing::lemma_chained_with(parts(a), parts(s.groups), n, r, m);
        assert(t.records().insert(t.records().len() as int, r) =~= t.records().push(r));
        assert(has_schema(g.columns, t.columns()));
        assert(Seq::new(g.columns.len(), |k: int| row::value_for(values, k)) =~= padded(
            t.columns(),
            values,
        ));
    } else {
        listing::lemma_chained_same(parts(a), parts(s.groups), m);
    }
}

/// There is a record for each edge that is counted.
pub proof fn law_records_counted(t: PlainEdgesView)
    requires
        t.regular(),
    ensures
        t.records().len() == t.num_edges(),
{
    lemma_count(t, t.groups.len());
}

proof fn lemma_count(t: PlainEdgesView, n: nat)
    requires
        t.regular(),
        n <= t.groups.len(),
    ensures
        table_records(t.groups, n).len() == live_rows(t.groups, n),
    decreases n,
{
    if n > 0 {
        lemma_count(t, (n - 1) as nat);
        let g = t.groups[n - 1];
        assert(g.regular());
        lemma_rows(g, g.len());
        assert forall|row: int| 0 <= row < g.len() implies (#[trigger] rows(g)(row) is None
            <==> g.deleted[row]) by {
            lemma_row(g, row);
        }
        listing::lemma_filled_count(rows(g), g.len(), g.deleted);
    }
}

/// The first record of an edge is what reading it gives. An edge that is not there has no record.
/// Deleting an edge takes its first record out, and leaves all others in their order; deleting an edge
/// that is not there changes nothing.
pub proof fn law_delete_record(t: PlainEdgesView, edge_id: EdgeId)
    requires
        t.regular(),
    ensures
        match first_where(t.records().len(), record_of(t.records(), edge_id)) {
            Some(p) => {
                &&& t.group_with(edge_id) is Some
                &&& t.read(edge_id) == Ok::<Option<RecordView>, ErrorView>(Some(t.records()[p]))
                &&& t.delete(edge_id).records() == t.records().remove(p)
            },
            None => {
                &&& t.group_with(edge_id) is None
                &&& t.read(edge_id) == Ok::<Option<RecordView>, ErrorView>(None)
                &&& t.delete(edge_id) == t
            },
        },
{
    let m = t.groups.len();
    let is_edge = |r: RecordView| r.edge_id == edge_id;
    search::lemma_first_where(m, t.group_has(edge_id));
    lemma_parts(t.groups, m);
    match t.group_with(edge_id) {
        Some(n) => {
            assert(t.group_has(edge_id)(n));
            let g = t.groups[n];
            assert(g.regular());
            search::lemma_first_where(g.len(), g.holds_edge(edge_id));
            let row = g.find(edge_id)->Some_0;
            assert(g.holds_edge(edge_id)(row));
            let d = t.delete(edge_id);
            let h = g.delete(row as u64);
            lemma_rows(g, g.len());
            lemma_rows(g, row as nat);
            lemma_rows(h, g.len());
            lemma_row(g, row);
            assert forall|r: int| 0 <= r < g.len() && r != row implies #[trigger] rows(g)(r)
                == rows(h)(r) by {}
            listing::lemma_filled_without(rows(g), rows(h), row, g.len());
            let p = filled(rows(g), row as nat).len() as int;
            lemma_parts(d.groups, m);
            assert forall|i: int| 0 <= i < m && i != n implies #[trigger] parts(t.groups)(i)
                == parts(d.groups)(i) by {}
            listing::lemma_chained_without(parts(t.groups), parts(d.groups), n, p, m);
            listing::lemma_chained_part(parts(t.groups), n, p, m);
            let q = chained(parts(t.groups), n as nat).len() + p;
            assert forall|r: int| 0 <= r < row implies (#[trigger] rows(g)(r) matches Some(record)
                ==> !is_edge(record)) by {
                assert(!g.holds_edge(edge_id)(r));
                lemma_row(g, r);
            }
            listing::lemma_filled_none(rows(g), row as nat, is_edge);
            lemma_none_before(t, edge_id, n as nat);
            let list = t.records();
            assert forall|x: int| 0 <= x < q implies !#[trigger] record_of(list, edge_id)(x) by {
                let head = chained(parts(t.groups), n as nat);
                assert(list[x] == list.take(q)[x]);
                if x < head.len() {
                    assert(list[x] == head[x]);
                    assert(!is_edge(head[x]));
                } else {
                    let tail = filled(rows(g), row as nat);
                    assert(list[x] == tail[x - head.len()]);
                    assert(!is_edge(tail[x - head.len()]));
                }
            }
            search::lemma_first_where_is(list.len(), record_of(list, edge_id), q);
        },
        None => {
            lemma_none_before(t, edge_id, m);
            let list = t.records();
            assert forall|x: int| 0 <= x < list.len() implies !#[trigger] record_of(
                list,
                edge_id,
            )(x) by {
                assert(chained(parts(t.groups), m)[x].edge_id != edge_id);
            }
            search::lemma_first_where_none(list.len(), record_of(list, edge_id));
        },
    }
}

/// Groups that do not have an edge have no record of it.
proof fn lemma_none_before(t: PlainEdgesView, edge_id: EdgeId, n: nat)
    requires
        t.regular(),
        n <= t.groups.len(),
        forall|i: int| 0 <= i < n ==> !#[trigger] t.group_has(edge_id)(i),
    ensures
        forall|x: int|
            0 <= x < chained(parts(t.groups), n).len() ==> (#[trigger] chained(parts(t.groups), n)[x]).edge_id
                != edge_id,
{
    let is_edge = |r: RecordView| r.edge_id == edge_id;
    assert forall|i: int, x: int| 0 <= i < n && 0 <= x < parts(t.groups)(i).len() implies !is_edge(
        #[trigger] parts(t.groups)(i)[x],
    ) by {
        let g = t.groups[i];
        assert(g.regular());
        assert(!t.group_has(edge_id)(i));
        search::lemma_first_where(g.len(), g.holds_edge(edge_id));
        assert forall|r: int| 0 <= r < g.len() implies (#[trigger] rows(g)(r) matches Some(record)
            ==> !is_edge(record)) by {
            assert(!g.holds_edge(edge_id)(r));
            lemma_row(g, r);
        }
        lemma_rows(g, g.len());
        listing::lemma_filled_none(rows(g), g.len(), is_edge);
    }
    listing::lemma_chained_none(parts(t.groups), n, is_edge);
    assert forall|x: int| 0 <= x < chained(parts(t.groups), n).len() implies (
    #[trigger] chained(parts(t.groups), n)[x]).edge_id != edge_id by {
        assert(!is_edge(chained(parts(t.groups), n)[x]));
    }
}

/// If the edge was not inserted twice, it has one record at most.
pub proof fn law_one_record(t: PlainEdgesView, edge_id: EdgeId, p: int, q: int)
    requires
        t.regular(),
        t.alone(edge_id),
        0 <= p < t.records().len(),
        0 <= q < t.records().len(),
        t.records()[p].edge_id == edge_id,
        t.records()[q].edge_id == edge_id,
    ensures
        p == q,
{
    let list = t.records();
    law_delete_record(t, edge_id);
    search::lemma_first_where(list.len(), record_of(list, edge_id));
    assert(record_of(list, edge_id)(p) && record_of(list, edge_id)(q));
    let first = first_where(list.len(), record_of(list, edge_id))->Some_0;
    let d = t.delete(edge_id);
    edge_laws::law_delete_hides(t, edge_id, edge_id);
    law_delete_record(d, edge_id);
    let left = d.records();
    search::lemma_first_where(left.len(), record_of(left, edge_id));
    assert forall|x: int| 0 <= x < list.len() && list[x].edge_id == edge_id implies x == first by {
        assert(record_of(list, edge_id)(x));
        if x > first {
            assert(left[x - 1] == list[x]);
            assert(record_of(left, edge_id)(x - 1));
        }
    }
}

// ---------------------------------------------------------------------------------------------
// Where edges go

/// The rows of the first `n` groups, deleted ones included.
pub open spec fn rows_upto(groups: Seq<PlainGroupView>, n: nat) -> nat
    decreases n,
{
    if n == 0 {
        0
    } else {
        rows_upto(groups, (n - 1) as nat) + groups[n - 1].len()
    }
}

proof fn lemma_rows_same(a: Seq<PlainGroupView>, b: Seq<PlainGroupView>, n: nat)
    requires
        forall|i: int| 0 <= i < n ==> (#[trigger] a[i]).len() == b[i].len(),
    ensures
        rows_upto(a, n) == rows_upto(b, n),
    decreases n,
{
    if n > 0 {
        lemma_rows_same(a, b, (n - 1) as nat);
        assert(a[n - 1].len() == b[n - 1].len());
    }
}

proof fn lemma_full_rows(groups: Seq<PlainGroupView>, n: nat)
    requires
        n <= groups.len(),
        forall|i: int| 0 <= i < n ==> (#[trigger] groups[i]).len() == 65536,
    ensures
        rows_upto(groups, n) == 65536 * n,
    decreases n,
{
    if n > 0 {
        lemma_full_rows(groups, (n - 1) as nat);
        assert(groups[n - 1].len() == 65536);
    }
}

impl PlainEdgesView {
    /// The number of rows, deleted ones included.
    pub open spec fn num_rows(self) -> nat {
        rows_upto(self.groups, self.groups.len())
    }

    /// Only the last group is not full.
    pub open spec fn packed(self) -> bool {
        self.regular() && forall|i: int|
            0 <= i < self.groups.len() - 1 ==> (#[trigger] self.groups[i]).is_full()
    }
}

/// A packed table with `k` rows takes the next edge in row `k % 65536` of group `k / 65536`, which is
/// the last one then. An edge that is refused takes no row, and rows of deleted edges are not used
/// again.
pub proof fn law_insert_place(
    t: PlainEdgesView,
    edge_id: EdgeId,
    from: NodeId,
    to: NodeId,
    values: RowView,
)
    requires
        t.packed(),
    ensures
        ({
            let i = t.insert(edge_id, from, to, values);
            let k = t.num_rows();
            &&& i.state.packed()
            &&& i.state.groups.len() == k / 65536 + 1
            &&& i.result matches Ok(place) ==> {
                &&& place.0 == NodeGroupIdx((k / 65536) as u64)
                &&& place.1 == (k % 65536) as u64
                &&& i.state.num_rows() == k + 1
            }
            &&& i.result is Err ==> i.state.num_rows() == k
        }),
{
    edge_laws::lemma_active(t, edge_id);
    edge_laws::law_insert_then_read(t, edge_id, from, to, values, edge_id);
    let a = t.active_groups();
    let n = a.len() - 1;
    let g = a[n];
    let s = t.insert(edge_id, from, to, values).state;
    assert(PlainEdgesView { groups: a, ..t }.groups[n].regular());
    assert forall|i: int| 0 <= i < n implies (#[trigger] a[i]).len() == 65536 by {
        assert(a[i] == t.groups[i]);
        assert(t.groups[i].regular());
        if i == t.groups.len() - 1 {
            assert(t.groups.last().is_full());
        } else {
            assert(t.groups[i].is_full());
        }
    }
    lemma_full_rows(a, n as nat);
    lemma_rows_same(a, t.groups, t.groups.len());
    let k = t.num_rows();
    assert(k == 65536 * n + g.len());
    edge_laws::law_group_insert(g, edge_id, from, to, values, 0);
    lemma_rows_same(s.groups, a, n as nat);
    assert forall|i: int| 0 <= i < s.groups.len() - 1 implies (#[trigger] s.groups[i]).is_full() by {
        assert(s.groups[i] == a[i]);
        assert(a[i].len() == 65536);
    }
    assert(k / 65536 == n && k % 65536 == g.len());
}

/// Deleting keeps a table packed, with its groups and rows.
pub proof fn law_delete_keeps_rows(t: PlainEdgesView, edge_id: EdgeId)
    requires
        t.packed(),
    ensures
        t.delete(edge_id).packed(),
        t.delete(edge_id).num_rows() == t.num_rows(),
        t.delete(edge_id).groups.len() == t.groups.len(),
{
    if t.group_with(edge_id) is Some {
        edge_laws::law_delete_hides(t, edge_id, edge_id);
        search::lemma_first_where(t.groups.len(), t.group_has(edge_id));
        let s = t.delete(edge_id);
        assert forall|i: int| 0 <= i < s.groups.len() implies (#[trigger] s.groups[i]).len()
            == t.groups[i].len() by {}
        lemma_rows_same(s.groups, t.groups, t.groups.len());
        assert forall|i: int| 0 <= i < s.groups.len() - 1 implies (
        #[trigger] s.groups[i]).is_full() by {
            assert(t.groups[i].is_full());
        }
    }
}

// ---------------------------------------------------------------------------------------------
// Any number of inserts and deletes

/// An insert or a delete, whether or not it succeeds.
pub enum EdgeStep {
    Insert { edge_id: EdgeId, from: NodeId, to: NodeId, values: RowView },
    Delete { edge_id: EdgeId },
}

impl PlainEdgesView {
    pub open spec fn step(self, step: EdgeStep) -> PlainEdgesView {
        match step {
            EdgeStep::Insert { edge_id, from, to, values } => self.insert(
                edge_id,
                from,
                to,
                values,
            ).state,
            EdgeStep::Delete { edge_id } => self.delete(edge_id),
        }
    }

    /// The step inserts an edge, and it is taken.
    pub open spec fn takes(self, step: EdgeStep) -> bool {
        step matches EdgeStep::Insert { edge_id, from, to, values } && self.insert(
            edge_id,
            from,
            to,
            values,
        ).result is Ok
    }
}

/// The table after the first `n` steps on a new one.
pub open spec fn built(
    schema: EdgeTypeView,
    steps: Seq<EdgeStep>,
    n: nat,
) -> PlainEdgesView
    decreases n,
{
    if n == 0 {
        PlainEdgesView::empty(schema)
    } else {
        built(schema, steps, (n - 1) as nat).step(steps[n - 1])
    }
}

/// How many of the first `n` steps inserted an edge.
pub open spec fn taken(
    schema: EdgeTypeView,
    steps: Seq<EdgeStep>,
    n: nat,
) -> nat
    decreases n,
{
    if n == 0 {
        0
    } else {
        taken(schema, steps, (n - 1) as nat) + if built(schema, steps, (n - 1) as nat).takes(
            steps[n - 1],
        ) {
            1nat
        } else {
            0
        }
    }
}

/// A table made by inserting and deleting is packed, has a row for each edge that was inserted, and as
/// many records as edges.
pub proof fn law_built(schema: EdgeTypeView, steps: Seq<EdgeStep>, n: nat)
    requires
        n <= steps.len(),
    ensures
        ({
            let t = built(schema, steps, n);
            &&& t.schema == schema
            &&& t.packed()
            &&& t.num_rows() == taken(schema, steps, n)
            &&& t.records().len() == t.num_edges()
        }),
    decreases n,
{
    if n > 0 {
        let m = (n - 1) as nat;
        let before = built(schema, steps, m);
        law_built(schema, steps, m);
        match steps[n - 1] {
            EdgeStep::Insert { edge_id, from, to, values } => {
                law_insert_place(before, edge_id, from, to, values);
            },
            EdgeStep::Delete { edge_id } => {
                law_delete_keeps_rows(before, edge_id);
            },
        }
    }
    law_records_counted(built(schema, steps, n));
}

} // verus!
