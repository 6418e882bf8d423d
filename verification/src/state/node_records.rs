//! The records of the live rows of node groups, one after the other.

use vstd::prelude::*;

use crate::error::ErrorView;
use crate::search::count_false;
use crate::state::node_table::{
    group_records, live_rows, record_at, table_records, NodeRecordView,
};
use crate::table::node;
use crate::table::node::{live_upto, padded, types_match, GroupView};
use crate::table::row;
use crate::table::row::RowView;
use crate::types::NodeId;

verus! {

/// Every group is one that inserting and deleting make.
pub open spec fn all_regular(groups: Seq<GroupView>) -> bool {
    forall|i: int| 0 <= i < groups.len() ==> (#[trigger] groups[i]).regular()
}

/// A live row, and its record.
pub open spec fn is_record(
    groups: Seq<GroupView>,
    i: int,
    row: int,
    record: NodeRecordView,
) -> bool {
    &&& 0 <= i < groups.len()
    &&& 0 <= row < groups[i].num_rows()
    &&& record_at(groups[i], row as u64) == Some(record)
}

/// How many records come before a row.
pub open spec fn place(groups: Seq<GroupView>, i: int, row: int) -> nat {
    table_records(groups, i as nat).len() + group_records(groups[i], row as nat).len()
}

/// A row of a regular group has a record exactly if it is the node's and not deleted.
pub proof fn lemma_record_holds(g: GroupView, row: int)
    requires
        g.regular(),
        0 <= row < g.num_rows(),
    ensures
        match record_at(g, row as u64) {
            Some(record) => {
                &&& g.row_holds(record.node_id)(row)
                &&& g.node_at(row as u64) == Ok::<NodeId, ErrorView>(record.node_id)
                &&& g.read(row as u64) == Ok::<Option<RowView>, ErrorView>(Some(record.properties))
            },
            None => g.read(row as u64) == Ok::<Option<RowView>, ErrorView>(None) && forall|
                node_id: NodeId,
            |
                !#[trigger] g.row_holds(node_id)(row),
        },
{
    node::law_dense_bounds(g);
    node::law_regular_reads(g, row as u64);
}

/// Rows with the same records give the same list.
pub proof fn lemma_group_records_same(a: GroupView, b: GroupView, n: nat)
    requires
        forall|row: int| 0 <= row < n ==> #[trigger] record_at(a, row as u64) == record_at(
            b,
            row as u64,
        ),
    ensures
        group_records(a, n) == group_records(b, n),
    decreases n,
{
    if n > 0 {
        lemma_group_records_same(a, b, (n - 1) as nat);
        let row = n - 1;
        assert(record_at(a, row as u64) == record_at(b, row as u64));
    }
}

pub proof fn lemma_table_records_same(a: Seq<GroupView>, b: Seq<GroupView>, n: nat)
    requires
        n <= a.len(),
        n <= b.len(),
        forall|i: int|
            0 <= i < n ==> group_records(#[trigger] a[i], a[i].num_rows()) == group_records(
                b[i],
                b[i].num_rows(),
            ),
    ensures
        table_records(a, n) == table_records(b, n),
    decreases n,
{
    if n > 0 {
        lemma_table_records_same(a, b, (n - 1) as nat);
        assert(group_records(a[n - 1], a[n - 1].num_rows()) == group_records(
            b[n - 1],
            b[n - 1].num_rows(),
        ));
    }
}

/// A group without rows at the end adds no record.
pub proof fn lemma_push_records(groups: Seq<GroupView>, g: GroupView)
    requires
        g.num_rows() == 0,
    ensures
        table_records(groups.push(g), groups.len() + 1) == table_records(groups, groups.len()),
{
    lemma_table_records_same(groups.push(g), groups, groups.len());
    assert(table_records(groups.push(g), groups.len() + 1) =~= table_records(
        groups,
        groups.len(),
    ));
}

// ---------------------------------------------------------------------------------------------
// Rows

/// The rows of the first `n` groups, deleted ones included.
pub open spec fn rows_upto(groups: Seq<GroupView>, n: nat) -> nat
    decreases n,
{
    if n == 0 {
        0
    } else {
        rows_upto(groups, (n - 1) as nat) + groups[n - 1].num_rows()
    }
}

/// Full groups have 65536 rows each.
pub proof fn lemma_full_rows(groups: Seq<GroupView>, n: nat)
    requires
        all_regular(groups),
        n <= groups.len(),
        forall|i: int| 0 <= i < n ==> (#[trigger] groups[i]).is_full(),
    ensures
        rows_upto(groups, n) == 65536 * n,
    decreases n,
{
    if n > 0 {
        lemma_full_rows(groups, (n - 1) as nat);
        assert(groups[n - 1].regular() && groups[n - 1].is_full());
        node::law_dense_bounds(groups[n - 1]);
    }
}

pub proof fn lemma_rows_same(a: Seq<GroupView>, b: Seq<GroupView>, n: nat)
    requires
        n <= a.len(),
        n <= b.len(),
        forall|i: int| 0 <= i < n ==> (#[trigger] a[i]).num_rows() == b[i].num_rows(),
    ensures
        rows_upto(a, n) == rows_upto(b, n),
    decreases n,
{
    if n > 0 {
        lemma_rows_same(a, b, (n - 1) as nat);
        assert(a[n - 1].num_rows() == b[n - 1].num_rows());
    }
}

// ---------------------------------------------------------------------------------------------
// How many there are

/// The records of the first `n` rows of chunk `i`, and of all chunks before it.
proof fn lemma_chunk_count(g: GroupView, i: nat, n: nat)
    requires
        g.regular(),
        i < g.chunks.len(),
        n <= g.chunks[i as int].len(),
    ensures
        group_records(g, (2048 * i + n) as nat).len() == live_upto(g.chunks, i) + count_false(
            g.chunks[i as int].deleted.take(n as int),
        ),
    decreases i, n,
{
    let c = g.chunks[i as int];
    assert(c.valid() && c.aligned() && c.start_row == 2048 * i && c.len() <= 2048);
    node::law_dense_bounds(g);
    if n == 0 {
        assert(c.deleted.take(0) =~= Seq::empty());
        if i > 0 {
            let b = g.chunks[i - 1];
            assert(b.len() == 2048 && b.valid());
            lemma_chunk_count(g, (i - 1) as nat, 2048);
            assert(b.deleted.take(2048) =~= b.deleted);
        }
    } else {
        let m = (n - 1) as nat;
        lemma_chunk_count(g, i, m);
        let row = (2048 * i + m) as u64;
        assert(c.deleted.take(n as int).drop_last() =~= c.deleted.take(m as int));
        assert(c.deleted.take(n as int).last() == c.deleted[m as int]);
        assert(row as int / 2048 == i);
        assert(g.find_chunk(row) == Some((i as int, m as u64)));
        if !c.deleted[m as int] {
            row::lemma_read_all_values(c.columns, m as u64);
        }
        assert((2048 * i + n) as nat - 1 == row);
    }
}

/// A regular group has as many records as live rows.
pub proof fn lemma_group_count(g: GroupView)
    requires
        g.regular(),
    ensures
        group_records(g, g.num_rows()).len() == g.num_live_rows(),
{
    let n = g.chunks.len();
    if n > 0 {
        let c = g.chunks[n - 1];
        assert(c.valid() && c.start_row == 2048 * (n - 1));
        lemma_chunk_count(g, (n - 1) as nat, c.len());
        assert(c.deleted.take(c.len() as int) =~= c.deleted);
    }
}

/// Regular groups have as many records as live rows.
pub proof fn lemma_table_count(groups: Seq<GroupView>, n: nat)
    requires
        all_regular(groups),
        n <= groups.len(),
    ensures
        table_records(groups, n).len() == live_rows(groups, n),
    decreases n,
{
    if n > 0 {
        lemma_table_count(groups, (n - 1) as nat);
        lemma_group_count(groups[n - 1]);
    }
}

// ---------------------------------------------------------------------------------------------
// Which stands where

/// More rows, more records.
proof fn lemma_group_mono(g: GroupView, m: nat, n: nat)
    requires
        m <= n,
    ensures
        group_records(g, m).len() <= group_records(g, n).len(),
        group_records(g, n).take(group_records(g, m).len() as int) == group_records(g, m),
    decreases n,
{
    if m < n {
        lemma_group_mono(g, m, (n - 1) as nat);
        assert(group_records(g, n).take(group_records(g, m).len() as int) =~= group_records(g, m));
    } else {
        assert(group_records(g, n).take(group_records(g, m).len() as int) =~= group_records(g, m));
    }
}

/// The record of a live row stands behind those of the rows before it.
proof fn lemma_group_place(g: GroupView, row: nat, n: nat)
    requires
        row < n,
        record_at(g, row as u64) is Some,
    ensures
        group_records(g, row).len() < group_records(g, n).len(),
        group_records(g, n)[group_records(g, row).len() as int] == record_at(
            g,
            row as u64,
        )->Some_0,
{
    lemma_group_mono(g, row + 1, n);
    let p = group_records(g, row).len() as int;
    assert(group_records(g, row + 1)[p] == record_at(g, row as u64)->Some_0);
    assert(group_records(g, n).take(group_records(g, row + 1).len() as int)[p]
        == group_records(g, n)[p]);
}

/// The row of a record.
proof fn lemma_group_row(g: GroupView, n: nat, p: int) -> (row: int)
    requires
        0 <= p < group_records(g, n).len(),
    ensures
        0 <= row < n,
        record_at(g, row as u64) == Some(group_records(g, n)[p]),
        group_records(g, row as nat).len() == p,
    decreases n,
{
    let before = group_records(g, (n - 1) as nat);
    if p < before.len() {
        lemma_group_row(g, (n - 1) as nat, p)
    } else {
        n - 1
    }
}

/// More groups, more records.
proof fn lemma_table_mono(groups: Seq<GroupView>, m: nat, n: nat)
    requires
        m <= n,
    ensures
        table_records(groups, m).len() <= table_records(groups, n).len(),
        table_records(groups, n).take(table_records(groups, m).len() as int) == table_records(
            groups,
            m,
        ),
    decreases n,
{
    if m < n {
        lemma_table_mono(groups, m, (n - 1) as nat);
    }
    assert(table_records(groups, n).take(table_records(groups, m).len() as int) =~= table_records(
        groups,
        m,
    ));
}

/// The record of a live row stands behind those of the rows before it.
pub proof fn lemma_place(groups: Seq<GroupView>, i: int, row: int, record: NodeRecordView)
    requires
        is_record(groups, i, row, record),
    ensures
        place(groups, i, row) < table_records(groups, groups.len()).len(),
        table_records(groups, groups.len())[place(groups, i, row) as int] == record,
{
    let g = groups[i];
    lemma_group_place(g, row as nat, g.num_rows());
    let all = table_records(groups, groups.len());
    let upto = table_records(groups, (i + 1) as nat);
    lemma_table_mono(groups, (i + 1) as nat, groups.len());
    let p = place(groups, i, row) as int;
    assert(upto[p] == record);
    assert(all.take(upto.len() as int)[p] == all[p]);
}

/// The row of a record.
pub proof fn lemma_row_of(groups: Seq<GroupView>, n: nat, p: int) -> (r: (int, int))
    requires
        n <= groups.len(),
        0 <= p < table_records(groups, n).len(),
    ensures
        0 <= r.0 < n,
        is_record(groups, r.0, r.1, table_records(groups, n)[p]),
        place(groups, r.0, r.1) == p,
    decreases n,
{
    let before = table_records(groups, (n - 1) as nat);
    if p < before.len() {
        lemma_row_of(groups, (n - 1) as nat, p)
    } else {
        let g = groups[n - 1];
        let row = lemma_group_row(g, g.num_rows(), p - before.len());
        (n - 1, row)
    }
}

/// A row that is not before another has no earlier place.
pub proof fn lemma_place_order(groups: Seq<GroupView>, i: int, row: int, j: int, k: int)
    requires
        0 <= i < groups.len(),
        0 <= row < groups[i].num_rows(),
        0 <= j < groups.len(),
        0 <= k < groups[j].num_rows(),
        i < j || (i == j && row <= k),
    ensures
        place(groups, i, row) <= place(groups, j, k),
{
    if i == j {
        lemma_group_mono(groups[i], row as nat, k as nat);
    } else {
        lemma_group_mono(groups[i], row as nat, groups[i].num_rows());
        lemma_table_mono(groups, (i + 1) as nat, j as nat);
    }
}

// ---------------------------------------------------------------------------------------------
// Inserting and deleting

/// A row that is inserted comes behind all others.
pub proof fn lemma_insert_records(
    groups: Seq<GroupView>,
    n: int,
    node_id: NodeId,
    values: RowView,
)
    requires
        all_regular(groups),
        n == groups.len() - 1,
        0 <= n,
        !groups[n].is_full(),
        types_match(groups[n].schema, values),
    ensures
        ({
            let after = groups.update(n, groups[n].insert(node_id, values).state);
            table_records(after, after.len()) == table_records(groups, groups.len()).push(
                NodeRecordView { node_id, properties: padded(groups[n].schema, values) },
            )
        }),
{
    let g = groups[n];
    assert(g.regular());
    let h = g.insert(node_id, values).state;
    let after = groups.update(n, h);
    let rows = g.num_rows();
    node::law_dense_bounds(g);
    node::law_group_insert_then_read(g, node_id, values, 0);
    assert forall|row: int| 0 <= row < rows implies #[trigger] record_at(h, row as u64)
        == record_at(g, row as u64) by {
        node::law_group_insert_then_read(g, node_id, values, row as u64);
    }
    lemma_group_records_same(h, g, rows);
    lemma_table_records_same(after, groups, n as nat);
    let record = NodeRecordView { node_id, properties: padded(g.schema, values) };
    assert(group_records(h, rows + 1) =~= group_records(g, rows).push(record));
    assert(table_records(after, after.len()) =~= table_records(groups, groups.len()).push(record));
}

/// A row that is refused leaves the records.
pub proof fn lemma_refused_records(
    groups: Seq<GroupView>,
    n: int,
    node_id: NodeId,
    values: RowView,
)
    requires
        all_regular(groups),
        n == groups.len() - 1,
        0 <= n,
        !groups[n].is_full(),
        !types_match(groups[n].schema, values),
    ensures
        ({
            let after = groups.update(n, groups[n].insert(node_id, values).state);
            table_records(after, after.len()) == table_records(groups, groups.len())
        }),
{
    let g = groups[n];
    assert(g.regular());
    let h = g.insert(node_id, values).state;
    let after = groups.update(n, h);
    let rows = g.num_rows();
    node::law_dense_bounds(g);
    node::law_group_mismatch_refused(g, node_id, values, 0);
    assert forall|row: int| 0 <= row < rows implies #[trigger] record_at(h, row as u64)
        == record_at(g, row as u64) by {
        node::law_group_mismatch_refused(g, node_id, values, row as u64);
    }
    lemma_group_records_same(h, g, rows);
    assert forall|i: int| 0 <= i < groups.len() implies group_records(
        #[trigger] after[i],
        after[i].num_rows(),
    ) == group_records(groups[i], groups[i].num_rows()) by {}
    lemma_table_records_same(after, groups, groups.len());
}

/// The records of a group without a row.
proof fn lemma_group_without(g: GroupView, h: GroupView, row: int, n: nat)
    requires
        0 <= row < n,
        record_at(g, row as u64) is Some,
        record_at(h, row as u64) is None,
        n <= u64::MAX,
        forall|k: int|
            0 <= k < n && k != row ==> #[trigger] record_at(h, k as u64) == record_at(g, k as u64),
    ensures
        group_records(g, row as nat).len() < group_records(g, n).len(),
        group_records(h, n) == group_records(g, n).remove(group_records(g, row as nat).len() as int),
    decreases n,
{
    let p = group_records(g, row as nat).len() as int;
    if n == row + 1 {
        lemma_group_records_same(h, g, row as nat);
        assert(group_records(g, n).remove(p) =~= group_records(g, row as nat));
    } else {
        let m = n - 1;
        lemma_group_without(g, h, row, m as nat);
        assert(record_at(h, m as u64) == record_at(g, m as u64));
        assert(group_records(h, n) =~= group_records(g, n).remove(p));
    }
}

/// The records without that of a row that is deleted.
pub proof fn lemma_delete_records(groups: Seq<GroupView>, i: int, row: int)
    requires
        all_regular(groups),
        0 <= i < groups.len(),
        0 <= row < groups[i].num_rows(),
        record_at(groups[i], row as u64) is Some,
    ensures
        ({
            let after = groups.update(i, groups[i].delete(row as u64));
            &&& place(groups, i, row) < table_records(groups, groups.len()).len()
            &&& table_records(after, after.len()) == table_records(groups, groups.len()).remove(
                place(groups, i, row) as int,
            )
        }),
{
    let g = groups[i];
    assert(g.regular());
    let h = g.delete(row as u64);
    let after = groups.update(i, h);
    node::law_dense_bounds(g);
    node::law_group_delete_hides(g, row as u64, 0);
    assert forall|k: int| 0 <= k < g.num_rows() && k != row implies #[trigger] record_at(
        h,
        k as u64,
    ) == record_at(g, k as u64) by {
        node::law_group_delete_hides(g, row as u64, k as u64);
    }
    lemma_group_without(g, h, row, g.num_rows());
    lemma_place(groups, i, row, record_at(g, row as u64)->Some_0);
    lemma_table_records_same(after, groups, i as nat);
    lemma_without_upto(groups, after, i, place(groups, i, row) as int, groups.len());
}

proof fn lemma_without_upto(
    groups: Seq<GroupView>,
    after: Seq<GroupView>,
    i: int,
    p: int,
    n: nat,
)
    requires
        0 <= i < n <= groups.len(),
        after.len() == groups.len(),
        forall|k: int| 0 <= k < groups.len() && k != i ==> after[k] == groups[k],
        table_records(after, i as nat) == table_records(groups, i as nat),
        table_records(groups, i as nat).len() <= p < table_records(groups, (i + 1) as nat).len(),
        group_records(after[i], after[i].num_rows()) == group_records(
            groups[i],
            groups[i].num_rows(),
        ).remove(p - table_records(groups, i as nat).len()),
    ensures
        p < table_records(groups, n).len(),
        table_records(after, n) == table_records(groups, n).remove(p),
    decreases n,
{
    if n == i + 1 {
        assert(table_records(after, n) =~= table_records(groups, n).remove(p));
    } else {
        lemma_without_upto(groups, after, i, p, (n - 1) as nat);
        assert(after[n - 1] == groups[n - 1]);
        assert(table_records(after, n) =~= table_records(groups, n).remove(p));
    }
}

} // verus!
