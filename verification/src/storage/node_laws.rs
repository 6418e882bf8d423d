//! What is read from the in-memory nodes after inserting and deleting.

use vstd::prelude::*;

use crate::catalog::{columns_of, CatalogView, NodeLabelView};
use crate::command::CommandView;
use crate::error::ErrorView;
use crate::ordered_map;
use crate::ordered_map::{lookup, put, put_all, sorted};
use crate::search;
use crate::search::first_where;
use crate::state::node_laws;
use crate::state::node_records;
use crate::state::node_records::rows_upto;
use crate::state::node_table::{record_at, NodeRecordView};
use crate::storage::node_store::{empty_tables, PlainStoreView, PlainTables};
use crate::storage::node_table::PlainNodesView;
use crate::table::node;
use crate::table::node::{padded, types_match, GroupView};
use crate::table::row::{aligned_row, empty_columns, first_mismatch, RowView};
use crate::types::{ColumnId, DataType, LabelId, NodeGroupIdx, NodeId, PropertyView};

verus! {

impl PlainNodesView {
    pub open spec fn columns(self) -> Seq<(ColumnId, DataType)> {
        columns_of(self.schema.properties)
    }

    /// What every table built by inserting and deleting is like: each group is regular and has the
    /// columns of the schema.
    pub open spec fn regular(self) -> bool {
        forall|i: int|
            0 <= i < self.groups.len() ==> (#[trigger] self.groups[i]).regular()
                && self.groups[i].schema == self.columns()
    }

    /// A row of a group is the node's and not deleted.
    pub open spec fn in_row(self, node_id: NodeId, i: int, row: int) -> bool {
        &&& 0 <= i < self.groups.len()
        &&& 0 <= row < self.groups[i].num_rows()
        &&& self.groups[i].row_holds(node_id)(row)
    }

    /// The node is in one row at most: it was not inserted twice.
    pub open spec fn alone(self, node_id: NodeId) -> bool {
        forall|i: int, row: int, j: int, k: int| #[trigger]
            self.in_row(node_id, i, row) && #[trigger] self.in_row(node_id, j, k) ==> i == j && row
                == k
    }
}

/// A new table is regular.
pub proof fn law_empty_regular(schema: NodeLabelView, node_id: NodeId)
    ensures
        PlainNodesView::empty(schema).regular(),
        PlainNodesView::empty(schema).alone(node_id),
        PlainNodesView::empty(schema).read(node_id) == Ok::<Option<RowView>, ErrorView>(None),
{
}

/// The rows of a group after a row was inserted.
proof fn lemma_inserted_rows(g: GroupView, node_id: NodeId, values: RowView, other: NodeId)
    requires
        g.regular(),
        !g.is_full(),
        types_match(g.schema, values),
    ensures
        ({
            let s = g.insert(node_id, values).state;
            &&& forall|row: int|
                0 <= row < g.num_rows() ==> #[trigger] s.row_holds(other)(row) == g.row_holds(
                    other,
                )(row)
            &&& s.row_holds(other)(g.num_rows() as int) == (other == node_id)
            &&& s.find(other) == (match g.find(other) {
                Some(row) => Some(row),
                None => if other == node_id {
                    Some(g.num_rows() as int)
                } else {
                    None
                },
            })
        }),
{
    let s = g.insert(node_id, values).state;
    let n = g.num_rows();
    node::law_dense_bounds(g);
    node::law_group_insert_then_read(g, node_id, values, 0);
    assert forall|row: int| 0 <= row < n implies #[trigger] s.row_holds(other)(row) == g.row_holds(
        other,
    )(row) by {
        node::law_group_insert_then_read(g, node_id, values, row as u64);
    }
    search::lemma_first_where_same(n, s.row_holds(other), g.row_holds(other));
    node::law_find_is_first(g, other);
    node::law_find_is_first(s, other);
}

/// The rows of a group after one was deleted.
proof fn lemma_deleted_rows(g: GroupView, row: u64, other: NodeId)
    requires
        g.regular(),
        row < g.num_rows(),
    ensures
        forall|k: int|
            0 <= k < g.num_rows() && k != row ==> #[trigger] g.delete(row).row_holds(other)(k)
                == g.row_holds(other)(k),
        !g.delete(row).row_holds(other)(row as int),
        g.node_at(row) != Ok::<NodeId, ErrorView>(other) ==> g.delete(row).find(other) == g.find(
            other,
        ),
{
    let d = g.delete(row);
    let n = g.num_rows();
    node::law_dense_bounds(g);
    node::law_group_delete_hides(g, row, 0);
    assert forall|k: int| 0 <= k < n && k != row implies #[trigger] d.row_holds(other)(k)
        == g.row_holds(other)(k) by {
        node::law_group_delete_hides(g, row, k as u64);
    }
    node::law_find_is_first(g, other);
    node::law_find_is_first(d, other);
    if g.node_at(row) != Ok::<NodeId, ErrorView>(other) {
        assert(!g.row_holds(other)(row as int));
        search::lemma_first_where_same(n, d.row_holds(other), g.row_holds(other));
    }
}

/// A group without the node does not change where it is read, if the others are as they were.
proof fn lemma_active(t: PlainNodesView, other: NodeId)
    requires
        t.regular(),
    ensures
        ({
            let a = PlainNodesView { groups: t.active_groups(), ..t };
            &&& a.regular()
            &&& a.groups.len() > 0
            &&& !a.groups.last().is_full()
            &&& a.group_with(other) == t.group_with(other)
            &&& a.read(other) == t.read(other)
            &&& a.num_nodes() == t.num_nodes()
            &&& a.records() == t.records()
            &&& forall|i: int, row: int| #[trigger]
                a.in_row(other, i, row) == t.in_row(other, i, row)
        }),
{
    let a = PlainNodesView { groups: t.active_groups(), ..t };
    let n = t.groups.len();
    node_records::lemma_table_records_same(a.groups, t.groups, n);
    search::lemma_first_where_same(n, a.group_has(other), t.group_has(other));
    search::lemma_first_where(n, t.group_has(other));
    node_laws::lemma_live_prefix(a.groups, t.groups, n);
    if a.groups.len() > n {
        let g = a.groups[n as int];
        node::law_empty_regular(NodeGroupIdx(n as u64), t.columns());
        assert(g == GroupView::empty(NodeGroupIdx(n as u64), t.columns()));
        node::law_find_is_first(g, other);
        assert(g.num_live_rows() == 0);
        assert(a.records() =~= t.records());
    }
    assert forall|i: int| 0 <= i < a.groups.len() implies (#[trigger] a.groups[i]).regular()
        && a.groups[i].schema == a.columns() by {
        if i < n {
            assert(a.groups[i] == t.groups[i]);
        }
    }
}

/// Where one group is replaced, a node is read as before if it is found in the same row of that
/// group, with the same values.
proof fn lemma_replaced(t: PlainNodesView, s: PlainNodesView, n: int, other: NodeId)
    requires
        0 <= n < t.groups.len(),
        s.groups.len() == t.groups.len(),
        s.schema == t.schema,
        forall|i: int| 0 <= i < t.groups.len() && i != n ==> s.groups[i] == t.groups[i],
        s.groups[n].find(other) == t.groups[n].find(other),
        t.groups[n].find(other) matches Some(row) ==> s.groups[n].read(row as u64)
            == t.groups[n].read(row as u64),
    ensures
        s.group_with(other) == t.group_with(other),
        s.read(other) == t.read(other),
{
    search::lemma_first_where_same(t.groups.len(), s.group_has(other), t.group_has(other));
    search::lemma_first_where(t.groups.len(), t.group_has(other));
}

/// A node whose values are of the columns' types can be inserted. If it was not there, it is read
/// back; a node that was there already is still read as it was first inserted, and so is every other
/// node. There is one node more, and its record comes behind all others.
pub proof fn law_insert_then_read(
    t: PlainNodesView,
    node_id: NodeId,
    values: RowView,
    other: NodeId,
)
    requires
        t.regular(),
        types_match(t.columns(), values),
    ensures
        ({
            let i = t.insert(node_id, values);
            &&& i.result is Ok
            &&& i.state.regular()
            &&& t.group_with(node_id) is None ==> i.state.read(node_id) == Ok::<
                Option<RowView>,
                ErrorView,
            >(Some(padded(t.columns(), values)))
            &&& t.group_with(node_id) is None ==> i.state.alone(node_id)
            &&& other != node_id || t.group_with(other) is Some ==> i.state.read(other) == t.read(
                other,
            )
            &&& other != node_id && t.alone(other) ==> i.state.alone(other)
            &&& i.state.num_nodes() == t.num_nodes() + 1
            &&& i.state.records() == t.records().push(
                NodeRecordView { node_id, properties: padded(t.columns(), values) },
            )
        }),
{
    lemma_active(t, node_id);
    lemma_active(t, other);
    let a = PlainNodesView { groups: t.active_groups(), ..t };
    let n = a.groups.len() - 1;
    let g = a.groups[n];
    assert(g.regular() && g.schema == t.columns());
    node::law_dense_bounds(g);
    node::law_group_insert_then_read(g, node_id, values, 0);
    let s = t.insert(node_id, values).state;
    let h = s.groups[n];
    node_laws::lemma_live_update(a.groups, n, h, a.groups.len());
    assert forall|i: int| 0 <= i < s.groups.len() implies (#[trigger] s.groups[i]).regular()
        && s.groups[i].schema == s.columns() by {
        if i != n {
            assert(s.groups[i] == a.groups[i]);
        }
    }
    node_records::lemma_insert_records(a.groups, n, node_id, values);
    lemma_inserted_rows(g, node_id, values, node_id);
    lemma_inserted_rows(g, node_id, values, other);
    if t.group_with(node_id) is None {
        search::lemma_first_where(a.groups.len(), a.group_has(node_id));
        assert(!a.group_has(node_id)(n));
        assert forall|i: int| 0 <= i < n implies !#[trigger] s.group_has(node_id)(i) by {
            assert(!a.group_has(node_id)(i));
        }
        search::lemma_first_where_is(s.groups.len(), s.group_has(node_id), n);
        assert forall|i: int, row: int| #[trigger] s.in_row(node_id, i, row) implies i == n && row
            == g.num_rows() by {
            assert(!a.group_has(node_id)(i));
            node::law_find_is_first(a.groups[i], node_id);
            search::lemma_first_where(a.groups[i].num_rows(), a.groups[i].row_holds(node_id));
            if i != n {
                assert(s.groups[i] == a.groups[i]);
            } else if row < g.num_rows() {
                assert(s.groups[n].row_holds(node_id)(row) == g.row_holds(node_id)(row));
            }
        }
    }
    if other != node_id || t.group_with(other) is Some {
        if g.find(other) is Some {
            node::lemma_find_row(g, other);
            node::law_group_insert_then_read(g, node_id, values, g.find(other)->Some_0 as u64);
            lemma_replaced(a, s, n, other);
        } else if other != node_id {
            lemma_replaced(a, s, n, other);
        } else {
            lemma_found_before(a, s, n, other);
        }
    }
    if other != node_id && t.alone(other) {
        assert forall|i: int, row: int, j: int, k: int| #[trigger]
            s.in_row(other, i, row) && #[trigger] s.in_row(other, j, k) implies i == j && row
            == k by {
            lemma_row_stays(a, s, n, other, i, row);
            lemma_row_stays(a, s, n, other, j, k);
            assert(t.in_row(other, i, row) && t.in_row(other, j, k));
        }
    }
}

/// A node that is found before the group that is replaced is read as before.
proof fn lemma_found_before(t: PlainNodesView, s: PlainNodesView, n: int, other: NodeId)
    requires
        n == t.groups.len() - 1,
        s.groups.len() == t.groups.len(),
        forall|i: int| 0 <= i < n ==> s.groups[i] == t.groups[i],
        t.groups[n].find(other) is None,
        t.group_with(other) is Some,
    ensures
        s.read(other) == t.read(other),
{
    let p = t.group_has(other);
    search::lemma_first_where(t.groups.len(), p);
    let i = t.group_with(other)->Some_0;
    assert(p(i));
    assert(i < n);
    assert forall|j: int| 0 <= j < i implies !#[trigger] s.group_has(other)(j) by {
        assert(!p(j));
    }
    search::lemma_first_where_is(s.groups.len(), s.group_has(other), i);
}

/// A live row of another node was there before a row was inserted.
proof fn lemma_row_stays(
    a: PlainNodesView,
    s: PlainNodesView,
    n: int,
    other: NodeId,
    i: int,
    row: int,
)
    requires
        0 <= n < a.groups.len(),
        s.groups.len() == a.groups.len(),
        forall|i: int| 0 <= i < a.groups.len() && i != n ==> s.groups[i] == a.groups[i],
        s.groups[n].num_rows() == a.groups[n].num_rows() + 1,
        forall|row: int|
            0 <= row < a.groups[n].num_rows() ==> #[trigger] s.groups[n].row_holds(other)(row)
                == a.groups[n].row_holds(other)(row),
        !s.groups[n].row_holds(other)(a.groups[n].num_rows() as int),
        s.in_row(other, i, row),
    ensures
        a.in_row(other, i, row),
{
    if i == n && row < a.groups[n].num_rows() {
        assert(s.groups[n].row_holds(other)(row) == a.groups[n].row_holds(other)(row));
    }
}

/// A node with a value of another type than its column is refused, and what is there is as it was.
pub proof fn law_mismatch_refused(
    t: PlainNodesView,
    node_id: NodeId,
    values: RowView,
    other: NodeId,
)
    requires
        t.regular(),
        !types_match(t.columns(), values),
    ensures
        ({
            let i = t.insert(node_id, values);
            &&& i.result == Err::<(NodeGroupIdx, u64), ErrorView>(
                first_mismatch(empty_columns(t.columns()), values, t.columns().len())->Some_0,
            )
            &&& i.state.regular()
            &&& i.state.group_with(other) == t.group_with(other)
            &&& i.state.read(other) == t.read(other)
            &&& i.state.num_nodes() == t.num_nodes()
            &&& i.state.records() == t.records()
            &&& t.alone(other) ==> i.state.alone(other)
        }),
{
    lemma_active(t, other);
    let a = PlainNodesView { groups: t.active_groups(), ..t };
    let n = a.groups.len() - 1;
    let g = a.groups[n];
    assert(g.regular() && g.schema == t.columns());
    node::law_dense_bounds(g);
    node::law_group_mismatch_refused(g, node_id, values, 0);
    let s = t.insert(node_id, values).state;
    let h = s.groups[n];
    node_laws::lemma_live_update(a.groups, n, h, a.groups.len());
    assert forall|i: int| 0 <= i < s.groups.len() implies (#[trigger] s.groups[i]).regular()
        && s.groups[i].schema == s.columns() by {
        if i != n {
            assert(s.groups[i] == a.groups[i]);
        }
    }
    assert forall|row: int| 0 <= row < g.num_rows() implies #[trigger] h.row_holds(other)(row)
        == g.row_holds(other)(row) by {
        node::law_group_mismatch_refused(g, node_id, values, row as u64);
    }
    node_records::lemma_refused_records(a.groups, n, node_id, values);
    if t.alone(other) {
        assert forall|i: int, r: int, j: int, k: int| #[trigger]
            s.in_row(other, i, r) && #[trigger] s.in_row(other, j, k) implies i == j && r == k by {
            if i == n {
                assert(h.row_holds(other)(r) == g.row_holds(other)(r));
            }
            if j == n {
                assert(h.row_holds(other)(k) == g.row_holds(other)(k));
            }
            assert(a.in_row(other, i, r) && a.in_row(other, j, k));
            assert(t.in_row(other, i, r) && t.in_row(other, j, k));
        }
    }
    search::lemma_first_where_same(g.num_rows(), h.row_holds(other), g.row_holds(other));
    node::law_find_is_first(g, other);
    node::law_find_is_first(h, other);
    if g.find(other) is Some {
        node::lemma_find_row(g, other);
        node::law_group_mismatch_refused(g, node_id, values, g.find(other)->Some_0 as u64);
    }
    lemma_replaced(a, s, n, other);
}

/// Deleting a node that is there leaves every other node as it was, and there is one node less: the
/// first record of the node goes, and all others stay in their order. If the node was in one row, it
/// is not there after it.
pub proof fn law_delete_hides(t: PlainNodesView, node_id: NodeId, other: NodeId)
    requires
        t.regular(),
        t.group_with(node_id) is Some,
    ensures
        t.delete(node_id).regular(),
        t.alone(node_id) ==> t.delete(node_id).group_with(node_id) is None,
        t.alone(node_id) ==> t.delete(node_id).read(node_id) == Ok::<Option<RowView>, ErrorView>(
            None,
        ),
        other != node_id ==> t.delete(node_id).read(other) == t.read(other),
        t.alone(other) ==> t.delete(node_id).alone(other),
        t.delete(node_id).num_nodes() == t.num_nodes() - 1,
        ({
            let p = first_where(t.records().len(), record_of(t.records(), node_id));
            &&& p is Some
            &&& t.delete(node_id).records() == t.records().remove(p->Some_0)
        }),
{
    lemma_deleted_record(t, node_id);
    search::lemma_first_where(t.groups.len(), t.group_has(node_id));
    let n = t.group_with(node_id)->Some_0;
    assert(t.group_has(node_id)(n));
    let g = t.groups[n];
    assert(g.regular() && g.schema == t.columns());
    node::lemma_find_row(g, node_id);
    node::law_dense_bounds(g);
    let row = g.find(node_id)->Some_0 as u64;
    node::law_find_is_first(g, node_id);
    search::lemma_first_where(g.num_rows(), g.row_holds(node_id));
    assert(g.row_holds(node_id)(row as int));
    node::law_group_delete_hides(g, row, 0);
    let s = t.delete(node_id);
    let h = g.delete(row);
    node_laws::lemma_live_update(t.groups, n, h, t.groups.len());
    assert forall|i: int| 0 <= i < s.groups.len() implies (#[trigger] s.groups[i]).regular()
        && s.groups[i].schema == s.columns() by {
        if i != n {
            assert(s.groups[i] == t.groups[i]);
        }
    }
    lemma_deleted_rows(g, row, other);
    if other != node_id {
        if g.find(other) is Some {
            node::lemma_find_row(g, other);
            node::law_group_delete_hides(g, row, g.find(other)->Some_0 as u64);
        }
        lemma_replaced(t, s, n, other);
    }
    if t.alone(other) {
        assert forall|i: int, r: int, j: int, k: int| #[trigger]
            s.in_row(other, i, r) && #[trigger] s.in_row(other, j, k) implies i == j && r == k by {
            assert(t.in_row(other, i, r) && t.in_row(other, j, k));
        }
    }
    if t.alone(node_id) {
        assert(t.in_row(node_id, n, row as int));
        lemma_deleted_rows(g, row, node_id);
        assert forall|i: int| 0 <= i < s.groups.len() implies !#[trigger] s.group_has(node_id)(
            i,
        ) by {
            node::law_find_is_first(s.groups[i], node_id);
            assert forall|r: int| 0 <= r < s.groups[i].num_rows() implies !#[trigger]
                s.groups[i].row_holds(node_id)(r) by {
                if s.groups[i].row_holds(node_id)(r) {
                    assert(t.in_row(node_id, i, r));
                }
            }
            search::lemma_first_where_none(s.groups[i].num_rows(), s.groups[i].row_holds(node_id));
        }
        search::lemma_first_where_none(s.groups.len(), s.group_has(node_id));
    }
}

/// A record is the node's.
pub open spec fn record_of(records: Seq<NodeRecordView>, node_id: NodeId) -> spec_fn(int) -> bool {
    |p: int| records[p].node_id == node_id
}

/// A node is deleted in the row of its first record.
proof fn lemma_deleted_record(t: PlainNodesView, node_id: NodeId)
    requires
        t.regular(),
        t.group_with(node_id) is Some,
    ensures
        ({
            let p = first_where(t.records().len(), record_of(t.records(), node_id));
            &&& p is Some
            &&& t.delete(node_id).records() == t.records().remove(p->Some_0)
        }),
{
    search::lemma_first_where(t.groups.len(), t.group_has(node_id));
    let n = t.group_with(node_id)->Some_0;
    assert(t.group_has(node_id)(n));
    let g = t.groups[n];
    assert(g.regular());
    node::lemma_find_row(g, node_id);
    node::law_find_is_first(g, node_id);
    search::lemma_first_where(g.num_rows(), g.row_holds(node_id));
    let row = g.find(node_id)->Some_0;
    assert(g.row_holds(node_id)(row));
    node_records::lemma_record_holds(g, row);
    assert forall|i: int| 0 <= i < t.groups.len() implies (#[trigger] t.groups[i]).regular() by {}
    let record = record_at(g, row as u64)->Some_0;
    node_records::lemma_delete_records(t.groups, n, row);
    node_records::lemma_place(t.groups, n, row, record);
    let p = node_records::place(t.groups, n, row) as int;
    let is_node = record_of(t.records(), node_id);
    assert(t.records()[p] == record);
    assert forall|q: int| 0 <= q < p implies !#[trigger] is_node(q) by {
        let (j, k) = node_records::lemma_row_of(t.groups, t.groups.len(), q);
        if is_node(q) {
            let d = t.groups[j];
            assert(d.regular());
            node_records::lemma_record_holds(d, k);
            assert(d.row_holds(node_id)(k));
            if j < n {
                node::law_find_is_first(d, node_id);
                search::lemma_first_where(d.num_rows(), d.row_holds(node_id));
                assert(t.group_has(node_id)(j));
            } else if j == n && k < row {
                assert(!g.row_holds(node_id)(k));
            } else {
                node_records::lemma_place_order(t.groups, n, row, j, k);
            }
        }
    }
    search::lemma_first_where_is(t.records().len(), is_node, p);
}

/// There is a record for each node that is counted.
pub proof fn law_records_counted(t: PlainNodesView)
    requires
        t.regular(),
    ensures
        t.records().len() == t.num_nodes(),
{
    assert forall|i: int| 0 <= i < t.groups.len() implies (#[trigger] t.groups[i]).regular() by {}
    node_records::lemma_table_count(t.groups, t.groups.len());
}

/// If no node was inserted again while it was there, each node has one record, with the values that
/// reading it gives, and a node that is not there has none.
pub proof fn law_records_read(t: PlainNodesView, node_id: NodeId)
    requires
        t.regular(),
        t.alone(node_id),
    ensures
        forall|p: int, q: int|
            0 <= p < t.records().len() && 0 <= q < t.records().len()
                && (#[trigger] t.records()[p]).node_id == node_id && (
            #[trigger] t.records()[q]).node_id == node_id ==> p == q,
        match t.read(node_id) {
            Ok(Some(properties)) => t.records().contains(NodeRecordView { node_id, properties }),
            Ok(None) => forall|p: int|
                0 <= p < t.records().len() ==> (#[trigger] t.records()[p]).node_id != node_id,
            Err(_) => false,
        },
{
    let n = t.groups.len();
    assert forall|i: int| 0 <= i < n implies (#[trigger] t.groups[i]).regular() by {}
    assert forall|p: int, q: int|
        0 <= p < t.records().len() && 0 <= q < t.records().len() && (
        #[trigger] t.records()[p]).node_id == node_id && (#[trigger] t.records()[q]).node_id
            == node_id implies p == q by {
        let a = lemma_record_row(t, node_id, p);
        let b = lemma_record_row(t, node_id, q);
        assert(t.in_row(node_id, a.0, a.1) && t.in_row(node_id, b.0, b.1));
    }
    search::lemma_first_where(n, t.group_has(node_id));
    match t.group_with(node_id) {
        Some(i) => {
            assert(t.group_has(node_id)(i));
            let g = t.groups[i];
            node::lemma_find_row(g, node_id);
            node::law_find_is_first(g, node_id);
            search::lemma_first_where(g.num_rows(), g.row_holds(node_id));
            let row = g.find(node_id)->Some_0;
            assert(g.row_holds(node_id)(row));
            node_records::lemma_record_holds(g, row);
            let record = record_at(g, row as u64)->Some_0;
            node_records::lemma_place(t.groups, i, row, record);
        },
        None => {
            assert forall|p: int| 0 <= p < t.records().len() implies (
            #[trigger] t.records()[p]).node_id != node_id by {
                if t.records()[p].node_id == node_id {
                    let (i, row) = lemma_record_row(t, node_id, p);
                    assert(!t.group_has(node_id)(i));
                    let g = t.groups[i];
                    node::law_find_is_first(g, node_id);
                    search::lemma_first_where(g.num_rows(), g.row_holds(node_id));
                }
            }
        },
    }
}

/// The row of a node's record.
proof fn lemma_record_row(t: PlainNodesView, node_id: NodeId, p: int) -> (r: (int, int))
    requires
        t.regular(),
        0 <= p < t.records().len(),
        t.records()[p].node_id == node_id,
    ensures
        t.in_row(node_id, r.0, r.1),
        node_records::place(t.groups, r.0, r.1) == p,
{
    let r = node_records::lemma_row_of(t.groups, t.groups.len(), p);
    assert(t.groups[r.0].regular());
    node_records::lemma_record_holds(t.groups[r.0], r.1);
    r
}

/// A node reads as nothing exactly if no group has it, and as a row otherwise. Deleting one that is
/// not there changes nothing.
pub proof fn law_missing_node(t: PlainNodesView, node_id: NodeId)
    requires
        t.regular(),
    ensures
        t.read(node_id) == Ok::<Option<RowView>, ErrorView>(None) <==> t.group_with(node_id) is None,
        t.group_with(node_id) is Some ==> (t.read(node_id) matches Ok(Some(_))),
        t.group_with(node_id) is None ==> t.delete(node_id) == t,
        t.delete(node_id).groups.len() == t.groups.len(),
{
    if t.group_with(node_id) is Some {
        search::lemma_first_where(t.groups.len(), t.group_has(node_id));
        let n = t.group_with(node_id)->Some_0;
        assert(t.group_has(node_id)(n));
        let g = t.groups[n];
        assert(g.regular());
        node::lemma_find_row(g, node_id);
        node::law_find_is_first(g, node_id);
        search::lemma_first_where(g.num_rows(), g.row_holds(node_id));
        node::law_regular_reads(g, g.find(node_id)->Some_0 as u64);
        assert(g.row_holds(node_id)(g.find(node_id)->Some_0));
    }
}

// ---------------------------------------------------------------------------------------------
// Where nodes go

impl PlainNodesView {
    /// The number of rows, deleted ones included.
    pub open spec fn num_rows(self) -> nat {
        rows_upto(self.groups, self.groups.len())
    }

    /// Only the last group is not full.
    pub open spec fn packed(self) -> bool {
        self.regular() && forall|i: int|
            0 <= i < self.groups.len() - 1 ==> (#[trigger] self.groups[i]).is_full()
    }
}

/// A packed table with `k` rows takes the next node in row `k % 65536` of group `k / 65536`, which is
/// the last one then. A node that is refused takes no row, and rows of deleted nodes are not used
/// again.
pub proof fn law_insert_place(t: PlainNodesView, node_id: NodeId, values: RowView)
    requires
        t.packed(),
    ensures
        ({
            let i = t.insert(node_id, values);
            let k = t.num_rows();
            &&& i.state.packed()
            &&& types_match(t.columns(), values) ==> {
                &&& i.result == Ok::<(NodeGroupIdx, u64), ErrorView>(
                    (NodeGroupIdx((k / 65536) as u64), (k % 65536) as u64),
                )
                &&& i.state.num_rows() == k + 1
                &&& i.state.groups.len() == k / 65536 + 1
            }
            &&& !types_match(t.columns(), values) ==> i.result is Err && i.state.num_rows() == k
        }),
{
    lemma_active(t, node_id);
    let a = PlainNodesView { groups: t.active_groups(), ..t };
    let n = a.groups.len() - 1;
    let g = a.groups[n];
    assert(g.regular() && g.schema == t.columns());
    assert forall|i: int| 0 <= i < n implies (#[trigger] a.groups[i]).is_full() by {
        assert(a.groups[i] == t.groups[i]);
        if i == t.groups.len() - 1 {
            assert(t.groups.last().is_full());
        } else {
            assert(t.groups[i].is_full());
        }
    }
    node_records::lemma_full_rows(a.groups, n as nat);
    node::law_dense_bounds(g);
    let k = t.num_rows();
    assert(k == 65536 * n + g.num_rows()) by {
        node_records::lemma_rows_same(a.groups, t.groups, t.groups.len());
    }
    let s = t.insert(node_id, values).state;
    if types_match(t.columns(), values) {
        law_insert_then_read(t, node_id, values, node_id);
        node::law_group_insert_then_read(g, node_id, values, 0);
    } else {
        law_mismatch_refused(t, node_id, values, node_id);
        node::law_group_mismatch_refused(g, node_id, values, 0);
    }
    node_records::lemma_rows_same(s.groups, a.groups, n as nat);
    assert forall|i: int| 0 <= i < s.groups.len() - 1 implies (#[trigger] s.groups[i]).is_full() by {
        assert(s.groups[i] == a.groups[i]);
    }
    assert(k / 65536 == n && k % 65536 == g.num_rows());
}

/// Deleting keeps a table packed, with its groups and rows.
pub proof fn law_delete_keeps_rows(t: PlainNodesView, node_id: NodeId)
    requires
        t.packed(),
    ensures
        t.delete(node_id).packed(),
        t.delete(node_id).num_rows() == t.num_rows(),
        t.delete(node_id).groups.len() == t.groups.len(),
{
    if t.group_with(node_id) is Some {
        law_delete_hides(t, node_id, node_id);
        search::lemma_first_where(t.groups.len(), t.group_has(node_id));
        let n = t.group_with(node_id)->Some_0;
        assert(t.group_has(node_id)(n));
        let g = t.groups[n];
        assert(g.regular());
        node::lemma_find_row(g, node_id);
        node::law_dense_bounds(g);
        let row = g.find(node_id)->Some_0 as u64;
        node::law_group_delete_hides(g, row, 0);
        node::law_dense_bounds(g.delete(row));
        let s = t.delete(node_id);
        assert forall|i: int| 0 <= i < s.groups.len() implies (#[trigger] s.groups[i]).num_rows()
            == t.groups[i].num_rows() by {}
        node_records::lemma_rows_same(s.groups, t.groups, t.groups.len());
        assert forall|i: int| 0 <= i < s.groups.len() - 1 implies (
        #[trigger] s.groups[i]).is_full() by {
            assert(t.groups[i].is_full());
        }
    }
}

// ---------------------------------------------------------------------------------------------
// Tables made by inserting and deleting

/// An insert or a delete, whether or not it succeeds.
pub enum NodeStep {
    Insert { node_id: NodeId, values: RowView },
    Delete { node_id: NodeId },
}

impl PlainNodesView {
    pub open spec fn step(self, step: NodeStep) -> PlainNodesView {
        match step {
            NodeStep::Insert { node_id, values } => self.insert(node_id, values).state,
            NodeStep::Delete { node_id } => self.delete(node_id),
        }
    }

    /// The step inserts a node, and it is taken.
    pub open spec fn takes(self, step: NodeStep) -> bool {
        step matches NodeStep::Insert { node_id, values } && self.insert(node_id, values).result
            is Ok
    }

    /// The step does not insert a node that is there.
    pub open spec fn renews_none(self, step: NodeStep) -> bool {
        step matches NodeStep::Insert { node_id, values } ==> self.group_with(node_id) is None
    }
}

/// The table after the first `n` steps.
pub open spec fn built(schema: NodeLabelView, steps: Seq<NodeStep>, n: nat) -> PlainNodesView
    decreases n,
{
    if n == 0 {
        PlainNodesView::empty(schema)
    } else {
        built(schema, steps, (n - 1) as nat).step(steps[n - 1])
    }
}

/// How many of the first `n` steps inserted a node.
pub open spec fn taken(schema: NodeLabelView, steps: Seq<NodeStep>, n: nat) -> nat
    decreases n,
{
    if n == 0 {
        0
    } else {
        taken(schema, steps, (n - 1) as nat) + if built(schema, steps, (n - 1) as nat).takes(
            steps[n - 1],
        ) {
            1nat
        } else {
            0
        }
    }
}

/// None of the first `n` steps inserted a node that was there.
pub open spec fn renewing_none(schema: NodeLabelView, steps: Seq<NodeStep>, n: nat) -> bool {
    forall|k: int|
        0 <= k < n ==> built(schema, steps, k as nat).renews_none(#[trigger] steps[k])
}

/// The nodes that the first `n` steps inserted and did not delete, in the order of their inserts.
pub open spec fn standing(
    schema: NodeLabelView,
    steps: Seq<NodeStep>,
    n: nat,
) -> Seq<NodeRecordView>
    decreases n,
{
    if n == 0 {
        Seq::empty()
    } else {
        let before = standing(schema, steps, (n - 1) as nat);
        match steps[n - 1] {
            NodeStep::Insert { node_id, values } => if types_match(
                columns_of(schema.properties),
                values,
            ) {
                before.push(
                    NodeRecordView {
                        node_id,
                        properties: padded(columns_of(schema.properties), values),
                    },
                )
            } else {
                before
            },
            NodeStep::Delete { node_id } => match first_where(
                before.len(),
                record_of(before, node_id),
            ) {
                Some(p) => before.remove(p),
                None => before,
            },
        }
    }
}

/// A table made by inserting and deleting is packed, has a row for each node that was inserted, and
/// has as records the nodes that were inserted and not deleted, in the order of their inserts. If no
/// node was inserted while it was there, each is in one row.
pub proof fn law_built(schema: NodeLabelView, steps: Seq<NodeStep>, n: nat, other: NodeId)
    requires
        n <= steps.len(),
    ensures
        ({
            let t = built(schema, steps, n);
            &&& t.schema == schema
            &&& t.packed()
            &&& t.num_rows() == taken(schema, steps, n)
            &&& t.records() == standing(schema, steps, n)
            &&& t.records().len() == t.num_nodes()
            &&& renewing_none(schema, steps, n) ==> t.alone(other)
        }),
    decreases n,
{
    let t = built(schema, steps, n);
    if n > 0 {
        let m = (n - 1) as nat;
        let before = built(schema, steps, m);
        law_built(schema, steps, m, other);
        if renewing_none(schema, steps, n) {
            assert(before.renews_none(steps[n - 1]));
            assert(renewing_none(schema, steps, m));
        }
        match steps[n - 1] {
            NodeStep::Insert { node_id, values } => {
                law_insert_place(before, node_id, values);
                if types_match(before.columns(), values) {
                    law_insert_then_read(before, node_id, values, other);
                } else {
                    law_mismatch_refused(before, node_id, values, other);
                }
            },
            NodeStep::Delete { node_id } => {
                law_delete_keeps_rows(before, node_id);
                if before.group_with(node_id) is Some {
                    law_delete_hides(before, node_id, other);
                } else {
                    lemma_no_record(before, node_id);
                }
            },
        }
    } else {
        assert(t.records() =~= Seq::empty());
    }
    law_records_counted(t);
}

/// A node that no group has is in no record.
proof fn lemma_no_record(t: PlainNodesView, node_id: NodeId)
    requires
        t.regular(),
        t.group_with(node_id) is None,
    ensures
        first_where(t.records().len(), record_of(t.records(), node_id)) is None,
{
    let p = record_of(t.records(), node_id);
    search::lemma_first_where(t.groups.len(), t.group_has(node_id));
    assert forall|q: int| 0 <= q < t.records().len() implies !#[trigger] p(q) by {
        if p(q) {
            let (i, row) = lemma_record_row(t, node_id, q);
            assert(!t.group_has(node_id)(i));
            let g = t.groups[i];
            assert(g.regular());
            node::law_find_is_first(g, node_id);
            search::lemma_first_where(g.num_rows(), g.row_holds(node_id));
        }
    }
    search::lemma_first_where_none(t.records().len(), p);
}

/// In a table made by inserting and deleting, in which `k` nodes were inserted before, a node that is
/// taken goes into row `k % 65536` of group `k / 65536`, and there are as many groups as that takes.
/// If it was not there it is read back. There is one node more, and every other node is read as
/// before.
pub proof fn law_kth_insert(
    schema: NodeLabelView,
    steps: Seq<NodeStep>,
    n: nat,
    node_id: NodeId,
    values: RowView,
    other: NodeId,
)
    requires
        n <= steps.len(),
        types_match(columns_of(schema.properties), values),
    ensures
        ({
            let t = built(schema, steps, n);
            let k = taken(schema, steps, n);
            let i = t.insert(node_id, values);
            &&& i.result == Ok::<(NodeGroupIdx, u64), ErrorView>(
                (NodeGroupIdx((k / 65536) as u64), (k % 65536) as u64),
            )
            &&& i.state.groups.len() == k / 65536 + 1
            &&& i.state.num_nodes() == t.num_nodes() + 1
            &&& t.group_with(node_id) is None ==> i.state.read(node_id) == Ok::<
                Option<RowView>,
                ErrorView,
            >(Some(padded(columns_of(schema.properties), values)))
            &&& other != node_id ==> i.state.read(other) == t.read(other)
        }),
{
    law_built(schema, steps, n, node_id);
    let t = built(schema, steps, n);
    law_insert_place(t, node_id, values);
    law_insert_then_read(t, node_id, values, other);
}

/// In a table made by inserting and deleting, if no node was inserted while it was there, deleting a
/// node fails exactly if reading it gave nothing, and then changes nothing. Where it succeeds the node
/// reads as nothing, its record goes and all others stay in their order, there is one node less in as
/// many groups, and every other node is read as before.
pub proof fn law_built_delete(
    schema: NodeLabelView,
    steps: Seq<NodeStep>,
    n: nat,
    node_id: NodeId,
    other: NodeId,
)
    requires
        n <= steps.len(),
        renewing_none(schema, steps, n),
    ensures
        ({
            let t = built(schema, steps, n);
            let d = t.delete(node_id);
            let p = first_where(t.records().len(), record_of(t.records(), node_id));
            &&& t.group_with(node_id) is None <==> t.read(node_id) == Ok::<
                Option<RowView>,
                ErrorView,
            >(None)
            &&& t.group_with(node_id) is None ==> d == t
            &&& t.group_with(node_id) is Some ==> {
                &&& d.read(node_id) == Ok::<Option<RowView>, ErrorView>(None)
                &&& p is Some
                &&& d.records() == t.records().remove(p->Some_0)
                &&& d.num_nodes() == t.num_nodes() - 1
            }
            &&& d.groups.len() == t.groups.len()
            &&& other != node_id ==> d.read(other) == t.read(other)
        }),
{
    let t = built(schema, steps, n);
    law_built(schema, steps, n, node_id);
    law_missing_node(t, node_id);
    if t.group_with(node_id) is Some {
        law_delete_hides(t, node_id, other);
    }
}

/// In a table made by inserting and deleting, if no node was inserted while it was there, each node
/// has exactly one record, with the values that reading it gives, and a node that is not there has
/// none. There are as many records as nodes.
pub proof fn law_built_records(
    schema: NodeLabelView,
    steps: Seq<NodeStep>,
    n: nat,
    node_id: NodeId,
)
    requires
        n <= steps.len(),
        renewing_none(schema, steps, n),
    ensures
        ({
            let t = built(schema, steps, n);
            let is_node = record_of(t.records(), node_id);
            &&& t.records().len() == t.num_nodes()
            &&& forall|p: int, q: int|
                0 <= p < t.records().len() && 0 <= q < t.records().len() && #[trigger] is_node(p)
                    && #[trigger] is_node(q) ==> p == q
            &&& match t.read(node_id) {
                Ok(Some(properties)) => t.records().contains(
                    NodeRecordView { node_id, properties },
                ),
                Ok(None) => first_where(t.records().len(), is_node) is None,
                Err(_) => false,
            }
        }),
{
    let t = built(schema, steps, n);
    law_built(schema, steps, n, node_id);
    law_records_read(t, node_id);
    law_missing_node(t, node_id);
    if t.group_with(node_id) is None {
        lemma_no_record(t, node_id);
    }
}

// ---------------------------------------------------------------------------------------------
// Stores

impl PlainStoreView {
    /// What every store built by commands is like.
    pub open spec fn regular(self) -> bool {
        sorted(self.tables) && forall|i: int|
            0 <= i < self.tables.len() ==> (#[trigger] self.tables[i]).1.regular()
    }
}

/// A table of a regular store can be replaced by a regular one.
proof fn lemma_put_table(s: PlainStoreView, key: u64, t: PlainNodesView, r: PlainStoreView)
    requires
        s.regular(),
        t.regular(),
        r == (PlainStoreView { tables: put(s.tables, key, t), ..s }),
    ensures
        r.regular(),
        lookup(r.tables, key) == Some(t),
        forall|k: u64| k != key ==> #[trigger] lookup(r.tables, k) == lookup(s.tables, k),
{
    let p = |t: PlainNodesView| t.regular();
    assert forall|i: int| 0 <= i < s.tables.len() implies p((#[trigger] s.tables[i]).1) by {}
    ordered_map::lemma_put_keeps(s.tables, key, t, p);
    ordered_map::law_put_then_lookup(s.tables, key, t, 0);
    assert forall|i: int| 0 <= i < r.tables.len() implies (#[trigger] r.tables[i]).1.regular() by {
        assert(p(r.tables[i].1));
    }
    assert forall|k: u64| k != key implies #[trigger] lookup(r.tables, k) == lookup(
        s.tables,
        k,
    ) by {
        ordered_map::law_put_then_lookup(s.tables, key, t, k);
    }
}

/// A new store is regular.
pub proof fn law_empty_store_regular(catalog: CatalogView)
    ensures
        PlainStoreView::empty(catalog).regular(),
{
    let tables = empty_tables(catalog.node_labels);
    lemma_put_empty(tables, tables.len());
}

proof fn lemma_put_empty(tables: PlainTables, n: nat)
    requires
        n <= tables.len(),
        forall|i: int|
            0 <= i < tables.len() ==> (#[trigger] tables[i]).1 == PlainNodesView::empty(
                tables[i].1.schema,
            ),
    ensures
        sorted(put_all(tables, n)),
        forall|i: int|
            0 <= i < put_all(tables, n).len() ==> (#[trigger] put_all(tables, n)[i]).1.regular(),
    decreases n,
{
    if n > 0 {
        lemma_put_empty(tables, (n - 1) as nat);
        let before = put_all(tables, (n - 1) as nat);
        let t = tables[n - 1].1;
        assert(t == PlainNodesView::empty(t.schema));
        let p = |t: PlainNodesView| t.regular();
        assert forall|i: int| 0 <= i < before.len() implies p((#[trigger] before[i]).1) by {}
        ordered_map::lemma_put_keeps(before, tables[n - 1].0, t, p);
        ordered_map::law_put_then_lookup(before, tables[n - 1].0, t, 0);
        let after = put_all(tables, n);
        assert forall|i: int| 0 <= i < after.len() implies (#[trigger] after[i]).1.regular() by {
            assert(p(after[i].1));
        }
    }
}

/// Creating a node of a known label succeeds exactly if the values are of the columns' types. If the
/// label did not have the node, it is read back. There is one more of its label. Nothing else
/// changes, and nothing that is read if the node is refused, or the label unknown.
pub proof fn law_create_node(
    s: PlainStoreView,
    node_id: NodeId,
    label_id: LabelId,
    properties: Seq<PropertyView>,
    other: NodeId,
    other_label: LabelId,
)
    requires
        s.regular(),
    ensures
        ({
            let a = s.apply(CommandView::CreateNode { node_id, label_id, properties });
            match (s.catalog.node_label(label_id), s.table(label_id)) {
                (Some(schema), Some(t)) => {
                    let row = aligned_row(schema.properties.len(), properties);
                    &&& a.state.regular()
                    &&& a.result is Ok <==> types_match(t.columns(), row)
                    &&& a.result is Ok && t.group_with(node_id) is None ==> a.state.read(
                        node_id,
                        label_id,
                    ) == Some(padded(t.columns(), row))
                    &&& a.result is Err || other != node_id || other_label != label_id || t.group_with(
                        node_id,
                    ) is Some ==> a.state.read(other, other_label) == s.read(other, other_label)
                    &&& a.state.num_nodes(other_label) == s.num_nodes(other_label)
                        + if a.result is Ok && other_label == label_id {
                        1int
                    } else {
                        0
                    }
                },
                _ => a.state == s && a.result == Err::<(), ErrorView>(
                    ErrorView::LabelNotFound { label_id },
                ),
            }
        }),
{
    let a = s.apply(CommandView::CreateNode { node_id, label_id, properties });
    match (s.catalog.node_label(label_id), s.table(label_id)) {
        (Some(schema), Some(t)) => {
            let row = aligned_row(schema.properties.len(), properties);
            let key = label_id.0 as u64;
            assert(s.tables[ordered_map::rank(s.tables, key) as int].1.regular());
            if types_match(t.columns(), row) {
                law_insert_then_read(t, node_id, row, other);
            } else {
                law_mismatch_refused(t, node_id, row, other);
            }
            lemma_put_table(s, key, t.insert(node_id, row).state, a.state);
            assert(other_label != label_id ==> lookup(a.state.tables, other_label.0 as u64)
                == lookup(s.tables, other_label.0 as u64));
        },
        _ => {},
    }
}

/// Deleting a node that is there succeeds. If the first of its labels had it in one row, it is not
/// there any more. Nothing else changes, and nothing at all if there is no such node.
pub proof fn law_delete_node(
    s: PlainStoreView,
    node_id: NodeId,
    label_id: LabelId,
    other: NodeId,
)
    requires
        s.regular(),
    ensures
        ({
            let a = s.apply(CommandView::DeleteNode { node_id });
            match s.table_with(node_id) {
                Some(i) => {
                    let is_first = label_id.0 as u64 == s.tables[i].0;
                    &&& a.state.regular()
                    &&& a.result is Ok
                    &&& is_first && s.tables[i].1.alone(node_id) ==> a.state.read(
                        node_id,
                        label_id,
                    ) is None
                    &&& !is_first || other != node_id ==> a.state.read(other, label_id) == s.read(
                        other,
                        label_id,
                    )
                    &&& a.state.num_nodes(label_id) == s.num_nodes(label_id) - if is_first {
                        1int
                    } else {
                        0
                    }
                },
                None => a.state == s && a.result == Err::<(), ErrorView>(
                    ErrorView::NodeNotFound { node_id },
                ),
            }
        }),
{
    let a = s.apply(CommandView::DeleteNode { node_id });
    search::lemma_first_where(s.tables.len(), s.table_has(node_id));
    match s.table_with(node_id) {
        Some(i) => {
            let t = s.tables[i].1;
            assert(s.table_has(node_id)(i));
            assert(t.regular());
            law_delete_hides(t, node_id, other);
            ordered_map::lemma_rank_at(s.tables, i);
            let key = s.tables[i].0;
            assert(a.state.tables =~= put(s.tables, key, t.delete(node_id)));
            lemma_put_table(s, key, t.delete(node_id), a.state);
            assert(label_id.0 as u64 != key ==> lookup(a.state.tables, label_id.0 as u64)
                == lookup(s.tables, label_id.0 as u64));
        },
        None => {},
    }
}

/// Commands on edges and vectors do nothing to nodes.
pub proof fn law_node_store_ignores(s: PlainStoreView, cmd: CommandView)
    requires
        !(cmd is CreateNode),
        !(cmd is DeleteNode),
    ensures
        s.apply(cmd).state == s,
        s.apply(cmd).result is Ok,
{
}

} // verus!
