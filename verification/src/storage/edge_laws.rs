//! What is read from the in-memory edges after inserting and deleting.

use vstd::prelude::*;

use crate::adjacency::EdgeRef;
use crate::catalog::{CatalogView, EdgeTypeView};
use crate::command::CommandView;
use crate::config::StorageConfig;
use crate::error::ErrorView;
use crate::ordered_map;
use crate::ordered_map::{lookup, put, put_all, sorted};
use crate::search;
use crate::search::count_false;
use crate::storage::adjacency_index;
use crate::storage::adjacency_index::without_edge;
use crate::storage::edge_group::{numbered_columns, PlainGroupView};
use crate::storage::edge_store::{empty_tables, PlainStoreView, PlainTables};
use crate::storage::edge_table::{live_rows, PlainEdgesView};
use crate::table::column;
use crate::table::edge::RecordView;
use crate::table::node::{padded, types_match};
use crate::table::row;
use crate::table::row::{aligned_row, empty_columns, first_mismatch, has_schema, with_row, RowView};
use crate::types::{
    ColumnId, DataType, Direction, EdgeId, LabelId, NodeId, PropertyView,
};

verus! {

// ---------------------------------------------------------------------------------------------
// Groups

impl PlainGroupView {
    /// What every group built by inserts and deletes is like: all columns have all rows.
    pub open spec fn regular(self) -> bool {
        &&& self.valid()
        &&& self.len() <= StorageConfig::NODE_GROUP_SIZE
        &&& forall|i: int|
            0 <= i < self.columns.len() ==> (#[trigger] self.columns[i]).len() >= self.len()
    }
}

/// Inserting an edge with values of the columns' types into a group that is not full and whose
/// columns have no values but those of its rows succeeds. An edge that was inserted is read back,
/// with its values if there were no others. Whether or not it was inserted, every other row is as it
/// was.
pub proof fn law_group_insert(
    g: PlainGroupView,
    edge_id: EdgeId,
    from: NodeId,
    to: NodeId,
    values: RowView,
    row: u64,
)
    requires
        g.regular(),
        !g.is_full(),
    ensures
        ({
            let i = g.insert(edge_id, from, to, values);
            let fitting = first_mismatch(g.columns, values, g.columns.len()) is None;
            &&& i.state.regular()
            &&& g.aligned() && fitting ==> i.result is Ok
            &&& i.result is Ok ==> {
                &&& fitting
                &&& i.result == Ok::<u64, ErrorView>(g.len() as u64)
                &&& g.aligned() ==> i.state.aligned()
                &&& i.state.len() == g.len() + 1
                &&& i.state.edge_ids == g.edge_ids.push(edge_id)
                &&& i.state.deleted == g.deleted.push(false)
                &&& i.state.read(g.len() as u64) matches Ok(Some(record)) && record.edge_id
                    == edge_id && record.from == from && record.to == to && (g.aligned()
                    ==> record.properties == Seq::new(
                    g.columns.len(),
                    |k: int| row::value_for(values, k),
                ))
            }
            &&& i.result is Err ==> i.state == (PlainGroupView { columns: i.state.columns, ..g })
            &&& i.result is Err || row < g.len() ==> i.state.read(row) == g.read(row)
        }),
{
    let i = g.insert(edge_id, from, to, values);
    let s = i.state;
    let n = g.columns.len();
    if g.aligned() && first_mismatch(g.columns, values, n) is None {
        row::lemma_no_mismatch(g.columns, values, n);
        assert forall|k: int| 0 <= k < n implies (#[trigger] g.columns[k]).refusal(
            row::value_for(values, k),
        ) is None by {
            assert(row::mismatch(g.columns[k], row::value_for(values, k)) is None);
        }
        row::lemma_append_accepted(g.columns, values, n);
    }
    row::lemma_append_keeps_valid(g.columns, values, n);
    row::lemma_append_keeps_rows(g.columns, values, n);
    if i.result is Ok {
        row::lemma_append_unrefused(g.columns, values, n);
        row::lemma_append_accepted(g.columns, values, n);
        assert(s.columns == with_row(g.columns, values));
        assert forall|k: int| 0 <= k < n implies (#[trigger] s.columns[k]).len()
            == g.columns[k].len() + 1 by {
            assert(g.columns[k].refusal(row::value_for(values, k)) is None);
            column::law_append_then_read(g.columns[k], row::value_for(values, k), 0);
        }
        row::lemma_read_all_values(s.columns, g.len() as u64);
        if g.aligned() {
            assert(Seq::new(n, |k: int| s.columns[k].value(g.len() as int)) =~= Seq::new(
                n,
                |k: int| row::value_for(values, k),
            ));
        }
    }
    if row < g.len() {
        row::lemma_read_all_values(s.columns, row);
        row::lemma_read_all_values(g.columns, row);
        assert(Seq::new(n, |k: int| s.columns[k].value(row as int)) =~= Seq::new(
            n,
            |k: int| g.columns[k].value(row as int),
        ));
    }
}

/// Where an edge is found after another was inserted.
proof fn lemma_inserted_find(g: PlainGroupView, s: PlainGroupView, edge_id: EdgeId, other: EdgeId)
    requires
        g.deleted.len() == g.len(),
        s.edge_ids == g.edge_ids.push(edge_id),
        s.deleted == g.deleted.push(false),
    ensures
        s.find(other) == (match g.find(other) {
            Some(row) => Some(row),
            None => if other == edge_id {
                Some(g.len() as int)
            } else {
                None
            },
        }),
{
    search::lemma_first_where_same(g.len(), s.holds_edge(other), g.holds_edge(other));
}

/// Where an edge is found after a row of another was deleted.
proof fn lemma_deleted_find(g: PlainGroupView, row: u64, other: EdgeId)
    requires
        g.valid(),
        row < g.len(),
        g.edge_ids[row as int] != other,
    ensures
        g.delete(row).find(other) == g.find(other),
{
    search::lemma_first_where_same(g.len(), g.delete(row).holds_edge(other), g.holds_edge(other));
}

// ---------------------------------------------------------------------------------------------
// Tables

impl PlainEdgesView {
    pub open spec fn columns(self) -> Seq<(ColumnId, DataType)> {
        numbered_columns(self.schema.properties)
    }

    /// What every table built by inserting and deleting is like: each group is regular and has the
    /// columns of the schema.
    pub open spec fn regular(self) -> bool {
        forall|i: int|
            0 <= i < self.groups.len() ==> (#[trigger] self.groups[i]).regular() && has_schema(
                self.groups[i].columns,
                self.columns(),
            )
    }

    /// The group that the next edge goes into has no values but those of its rows. An edge that was
    /// refused for the value of a later column leaves values behind in the earlier ones.
    pub open spec fn even(self) -> bool {
        self.active_groups().last().aligned()
    }

    /// A row of a group is the edge's and not deleted.
    pub open spec fn in_row(self, edge_id: EdgeId, i: int, row: int) -> bool {
        &&& 0 <= i < self.groups.len()
        &&& 0 <= row < self.groups[i].len()
        &&& self.groups[i].holds_edge(edge_id)(row)
    }

    /// The edge is in one row at most: it was not inserted twice.
    pub open spec fn alone(self, edge_id: EdgeId) -> bool {
        forall|i: int, row: int, j: int, k: int| #[trigger]
            self.in_row(edge_id, i, row) && #[trigger] self.in_row(edge_id, j, k) ==> i == j && row
                == k
    }
}

/// A new table is regular.
pub proof fn law_empty_regular(schema: EdgeTypeView, edge_id: EdgeId)
    ensures
        PlainEdgesView::empty(schema).regular(),
        PlainEdgesView::empty(schema).even(),
        PlainEdgesView::empty(schema).alone(edge_id),
        PlainEdgesView::empty(schema).read(edge_id) == Ok::<Option<RecordView>, ErrorView>(None),
{
}

proof fn lemma_live_prefix(a: Seq<PlainGroupView>, b: Seq<PlainGroupView>, n: nat)
    requires
        n <= a.len(),
        n <= b.len(),
        forall|i: int| 0 <= i < n ==> #[trigger] a[i] == b[i],
    ensures
        live_rows(a, n) == live_rows(b, n),
    decreases n,
{
    if n > 0 {
        lemma_live_prefix(a, b, (n - 1) as nat);
        assert(a[n - 1] == b[n - 1]);
    }
}

proof fn lemma_live_update(groups: Seq<PlainGroupView>, i: int, g: PlainGroupView, n: nat)
    requires
        0 <= i < groups.len(),
        n <= groups.len(),
    ensures
        live_rows(groups.update(i, g), n) == live_rows(groups, n) + if i < n {
            count_false(g.deleted) - count_false(groups[i].deleted)
        } else {
            0int
        },
    decreases n,
{
    if n > 0 {
        lemma_live_update(groups, i, g, (n - 1) as nat);
    }
}

/// A group without rows at the end changes nothing that is read.
pub proof fn lemma_active(t: PlainEdgesView, other: EdgeId)
    requires
        t.regular(),
    ensures
        ({
            let a = PlainEdgesView { groups: t.active_groups(), ..t };
            &&& a.regular()
            &&& a.groups.len() > 0
            &&& !a.groups.last().is_full()
            &&& a.group_with(other) == t.group_with(other)
            &&& a.read(other) == t.read(other)
            &&& a.num_edges() == t.num_edges()
            &&& forall|i: int, row: int| #[trigger]
                a.in_row(other, i, row) == t.in_row(other, i, row)
        }),
{
    let a = PlainEdgesView { groups: t.active_groups(), ..t };
    let n = t.groups.len();
    search::lemma_first_where_same(n, a.group_has(other), t.group_has(other));
    search::lemma_first_where(n, t.group_has(other));
    lemma_live_prefix(a.groups, t.groups, n);
    assert forall|i: int| 0 <= i < a.groups.len() implies (#[trigger] a.groups[i]).regular()
        && has_schema(a.groups[i].columns, a.columns()) by {
        if i < n {
            assert(a.groups[i] == t.groups[i]);
        }
    }
}

/// Where one group is replaced, an edge is read as before if it is found in the same row of that
/// group, with the same values.
proof fn lemma_replaced(t: PlainEdgesView, s: PlainEdgesView, n: int, other: EdgeId)
    requires
        0 <= n < t.groups.len(),
        s.groups.len() == t.groups.len(),
        s.schema == t.schema,
        forall|i: int| 0 <= i < t.groups.len() && i != n ==> s.groups[i] == t.groups[i],
        s.groups[n].find(other) == t.groups[n].find(other),
        t.groups[n].find(other) matches Some(row) ==> s.groups[n].read(row as u64)
            == t.groups[n].read(row as u64),
    ensures
        s.group_with(other) == t.group_with(other),
        s.read(other) == t.read(other),
{
    search::lemma_first_where_same(t.groups.len(), s.group_has(other), t.group_has(other));
    search::lemma_first_where(t.groups.len(), t.group_has(other));
}

/// An edge that is found before the group that is replaced is read as before.
proof fn lemma_found_before(t: PlainEdgesView, s: PlainEdgesView, n: int, other: EdgeId)
    requires
        n == t.groups.len() - 1,
        s.groups.len() == t.groups.len(),
        forall|i: int| 0 <= i < n ==> s.groups[i] == t.groups[i],
        t.groups[n].find(other) is None,
        t.group_with(other) is Some,
    ensures
        s.read(other) == t.read(other),
{
    let p = t.group_has(other);
    search::lemma_first_where(t.groups.len(), p);
    let i = t.group_with(other)->Some_0;
    assert(p(i));
    assert(i < n);
    assert forall|j: int| 0 <= j < i implies !#[trigger] s.group_has(other)(j) by {
        assert(!p(j));
    }
    search::lemma_first_where_is(s.groups.len(), s.group_has(other), i);
}

/// An edge can be inserted if its values are of the columns' types and no values were left behind by
/// a refused one. If it was inserted and was not there before, it is read back, with its values if
/// none were left behind. An edge that was there already is still read as it was first inserted, and
/// so is every other edge. If the edge was refused, all edges are read as before.
pub proof fn law_insert_then_read(
    t: PlainEdgesView,
    edge_id: EdgeId,
    from: NodeId,
    to: NodeId,
    values: RowView,
    other: EdgeId,
)
    requires
        t.regular(),
    ensures
        ({
            let i = t.insert(edge_id, from, to, values);
            &&& i.state.regular()
            &&& t.even() && types_match(t.columns(), values) ==> i.result is Ok
            &&& i.result is Ok ==> types_match(t.columns(), values)
            &&& i.result is Ok && t.even() ==> i.state.even()
            &&& i.result is Ok && t.group_with(edge_id) is None ==> {
                &&& i.state.read(edge_id) matches Ok(Some(record)) && record.edge_id == edge_id
                    && record.from == from && record.to == to && (t.even() ==> record.properties
                    == padded(t.columns(), values))
                &&& i.state.alone(edge_id)
            }
            &&& i.result is Err || other != edge_id || t.group_with(other) is Some
                ==> i.state.read(other) == t.read(other)
            &&& (i.result is Err || other != edge_id) && t.alone(other) ==> i.state.alone(other)
            &&& i.state.num_edges() == t.num_edges() + if i.result is Ok {
                1int
            } else {
                0
            }
        }),
{
    lemma_active(t, edge_id);
    lemma_active(t, other);
    let a = PlainEdgesView { groups: t.active_groups(), ..t };
    let n = a.groups.len() - 1;
    let g = a.groups[n];
    assert(g.regular() && has_schema(g.columns, t.columns()));
    let i = t.insert(edge_id, from, to, values);
    let s = i.state;
    let h = s.groups[n];
    law_group_insert(g, edge_id, from, to, values, 0);
    lemma_live_update(a.groups, n, h, a.groups.len());
    row::lemma_append_keeps_schema(g.columns, values, g.columns.len(), t.columns());
    assert forall|k: int| 0 <= k < g.columns.len() implies (#[trigger] g.columns[k]).data_type
        == empty_columns(t.columns())[k].data_type by {}
    row::lemma_mismatch_by_type(g.columns, empty_columns(t.columns()), values, g.columns.len());
    assert(Seq::new(g.columns.len(), |k: int| row::value_for(values, k)) =~= padded(
        t.columns(),
        values,
    ));
    assert forall|k: int| 0 <= k < s.groups.len() implies (#[trigger] s.groups[k]).regular()
        && has_schema(s.groups[k].columns, s.columns()) by {
        if k != n {
            assert(s.groups[k] == a.groups[k]);
        }
    }
    search::lemma_first_where(g.len(), g.holds_edge(other));
    if i.result is Ok {
        assert(h.deleted.drop_last() =~= g.deleted);
        lemma_inserted_find(g, h, edge_id, edge_id);
        lemma_inserted_find(g, h, edge_id, other);
        if t.group_with(edge_id) is None {
            lemma_new_edge(a, s, n, edge_id);
        }
    } else {
        search::lemma_first_where_same(g.len(), h.holds_edge(other), g.holds_edge(other));
    }
    if i.result is Err || other != edge_id || t.group_with(other) is Some {
        if g.find(other) is Some {
            law_group_insert(g, edge_id, from, to, values, g.find(other)->Some_0 as u64);
            lemma_replaced(a, s, n, other);
        } else if i.result is Err || other != edge_id {
            lemma_replaced(a, s, n, other);
        } else {
            lemma_found_before(a, s, n, other);
        }
    }
    if (i.result is Err || other != edge_id) && t.alone(other) {
        assert forall|k: int, row: int, j: int, m: int| #[trigger]
            s.in_row(other, k, row) && #[trigger] s.in_row(other, j, m) implies k == j && row
            == m by {
            assert(a.in_row(other, k, row) && a.in_row(other, j, m));
            assert(t.in_row(other, k, row) && t.in_row(other, j, m));
        }
    }
}

/// An edge that was not there is found in the row that was inserted, and only there.
proof fn lemma_new_edge(a: PlainEdgesView, s: PlainEdgesView, n: int, edge_id: EdgeId)
    requires
        0 <= n == a.groups.len() - 1,
        a.regular(),
        a.group_with(edge_id) is None,
        s.groups.len() == a.groups.len(),
        forall|i: int| 0 <= i < n ==> s.groups[i] == a.groups[i],
        s.groups[n].edge_ids == a.groups[n].edge_ids.push(edge_id),
        s.groups[n].deleted == a.groups[n].deleted.push(false),
        a.groups[n].find(edge_id) is None ==> s.groups[n].find(edge_id) == Some(
            a.groups[n].len() as int,
        ),
    ensures
        s.group_with(edge_id) == Some(n),
        s.groups[n].find(edge_id) == Some(a.groups[n].len() as int),
        s.alone(edge_id),
{
    search::lemma_first_where(a.groups.len(), a.group_has(edge_id));
    assert(!a.group_has(edge_id)(n));
    assert forall|i: int| 0 <= i < n implies !#[trigger] s.group_has(edge_id)(i) by {
        assert(!a.group_has(edge_id)(i));
    }
    assert(s.group_has(edge_id)(n));
    search::lemma_first_where_is(s.groups.len(), s.group_has(edge_id), n);
    assert forall|i: int, row: int| #[trigger] s.in_row(edge_id, i, row) implies i == n && row
        == a.groups[n].len() by {
        assert(!a.group_has(edge_id)(i));
        let g = a.groups[i];
        assert(g.regular());
        search::lemma_first_where(g.len(), g.holds_edge(edge_id));
        if row < g.len() {
            assert(!g.holds_edge(edge_id)(row));
        }
    }
}

/// Deleting an edge that is there leaves every other edge as it was, and there is one edge less. If
/// the edge was in one row, it is not there after it.
pub proof fn law_delete_hides(t: PlainEdgesView, edge_id: EdgeId, other: EdgeId)
    requires
        t.regular(),
        t.group_with(edge_id) is Some,
    ensures
        t.delete(edge_id).regular(),
        t.even() ==> t.delete(edge_id).even(),
        t.alone(edge_id) ==> t.delete(edge_id).group_with(edge_id) is None,
        t.alone(edge_id) ==> t.delete(edge_id).read(edge_id) == Ok::<Option<RecordView>, ErrorView>(
            None,
        ),
        other != edge_id ==> t.delete(edge_id).read(other) == t.read(other),
        t.alone(other) ==> t.delete(edge_id).alone(other),
        t.delete(edge_id).num_edges() == t.num_edges() - 1,
{
    search::lemma_first_where(t.groups.len(), t.group_has(edge_id));
    let n = t.group_with(edge_id)->Some_0;
    assert(t.group_has(edge_id)(n));
    let g = t.groups[n];
    assert(g.regular() && has_schema(g.columns, t.columns()));
    search::lemma_first_where(g.len(), g.holds_edge(edge_id));
    let row = g.find(edge_id)->Some_0 as u64;
    assert(g.holds_edge(edge_id)(row as int));
    let s = t.delete(edge_id);
    let h = g.delete(row);
    search::lemma_count_false_set(g.deleted, row as int);
    lemma_live_update(t.groups, n, h, t.groups.len());
    assert forall|i: int| 0 <= i < s.groups.len() implies (#[trigger] s.groups[i]).regular()
        && has_schema(s.groups[i].columns, s.columns()) by {
        if i != n {
            assert(s.groups[i] == t.groups[i]);
        }
    }
    if other != edge_id {
        lemma_deleted_find(g, row, other);
        search::lemma_first_where(g.len(), g.holds_edge(other));
        lemma_replaced(t, s, n, other);
    }
    if t.alone(other) {
        assert forall|i: int, r: int, j: int, k: int| #[trigger]
            s.in_row(other, i, r) && #[trigger] s.in_row(other, j, k) implies i == j && r == k by {
            assert(t.in_row(other, i, r) && t.in_row(other, j, k));
        }
    }
    if t.alone(edge_id) {
        assert(t.in_row(edge_id, n, row as int));
        assert forall|i: int| 0 <= i < s.groups.len() implies !#[trigger] s.group_has(edge_id)(
            i,
        ) by {
            let d = s.groups[i];
            assert forall|r: int| 0 <= r < d.len() implies !#[trigger] d.holds_edge(edge_id)(r) by {
                if d.holds_edge(edge_id)(r) {
                    assert(t.in_row(edge_id, i, r));
                }
            }
            search::lemma_first_where_none(d.len(), d.holds_edge(edge_id));
        }
        search::lemma_first_where_none(s.groups.len(), s.group_has(edge_id));
    }
}

// ---------------------------------------------------------------------------------------------
// Stores

impl PlainStoreView {
    /// What every store built by commands is like.
    pub open spec fn regular(self) -> bool {
        self.sound() && forall|i: int|
            0 <= i < self.tables.len() ==> (#[trigger] self.tables[i]).1.regular()
    }
}

/// A table of a regular store can be replaced by a regular one.
proof fn lemma_put_table(tables: PlainTables, key: u64, t: PlainEdgesView)
    requires
        sorted(tables),
        forall|i: int| 0 <= i < tables.len() ==> (#[trigger] tables[i]).1.regular(),
        t.regular(),
    ensures
        ({
            let r = put(tables, key, t);
            &&& sorted(r)
            &&& forall|i: int| 0 <= i < r.len() ==> (#[trigger] r[i]).1.regular()
            &&& lookup(r, key) == Some(t)
            &&& forall|k: u64| k != key ==> #[trigger] lookup(r, k) == lookup(tables, k)
        }),
{
    let r = put(tables, key, t);
    let p = |t: PlainEdgesView| t.regular();
    assert forall|i: int| 0 <= i < tables.len() implies p((#[trigger] tables[i]).1) by {}
    ordered_map::lemma_put_keeps(tables, key, t, p);
    ordered_map::law_put_then_lookup(tables, key, t, 0);
    assert forall|i: int| 0 <= i < r.len() implies (#[trigger] r[i]).1.regular() by {
        assert(p(r[i].1));
    }
    assert forall|k: u64| k != key implies #[trigger] lookup(r, k) == lookup(tables, k) by {
        ordered_map::law_put_then_lookup(tables, key, t, k);
    }
}

/// A new store is regular and has no edges at any node.
pub proof fn law_empty_store_regular(catalog: CatalogView, node: NodeId, direction: Direction)
    ensures
        PlainStoreView::empty(catalog).regular(),
        PlainStoreView::empty(catalog).neighbors(node, direction).len() == 0,
{
    let tables = empty_tables(catalog.edge_types);
    lemma_put_empty(tables, tables.len());
}

proof fn lemma_put_empty(tables: PlainTables, n: nat)
    requires
        n <= tables.len(),
        forall|i: int|
            0 <= i < tables.len() ==> (#[trigger] tables[i]).1 == PlainEdgesView::empty(
                tables[i].1.schema,
            ),
    ensures
        sorted(put_all(tables, n)),
        forall|i: int|
            0 <= i < put_all(tables, n).len() ==> (#[trigger] put_all(tables, n)[i]).1.regular(),
    decreases n,
{
    if n > 0 {
        lemma_put_empty(tables, (n - 1) as nat);
        let t = tables[n - 1].1;
        assert(t == PlainEdgesView::empty(t.schema));
        lemma_put_table(put_all(tables, (n - 1) as nat), tables[n - 1].0, t);
    }
}

/// Creating an edge of a known type with values of the columns' types succeeds, if none were left
/// behind by a refused edge. An edge that was created is the last one at both of its nodes and, if its
/// type did not have it, is read back; there is one more of its type. Nothing else that is read
/// changes, and nothing at all if the type is unknown.
pub proof fn law_create_edge(
    s: PlainStoreView,
    edge_id: EdgeId,
    type_id: LabelId,
    from: NodeId,
    to: NodeId,
    properties: Seq<PropertyView>,
    other: EdgeId,
    other_type: LabelId,
    node: NodeId,
)
    requires
        s.regular(),
    ensures
        ({
            let a = s.apply(CommandView::CreateEdge { edge_id, type_id, from, to, properties });
            let fwd = Direction::Forward;
            let bwd = Direction::Backward;
            match (s.catalog.edge_type(type_id), s.table(type_id)) {
                (Some(schema), Some(t)) => {
                    let row = aligned_row(schema.properties.len(), properties);
                    &&& a.state.regular()
                    &&& t.even() && types_match(t.columns(), row) ==> a.result is Ok
                    &&& a.result is Ok ==> types_match(t.columns(), row)
                    &&& a.result is Ok && t.group_with(edge_id) is None ==> (a.state.read(
                        edge_id,
                        type_id,
                    ) matches Some(record) && record.edge_id == edge_id && record.from == from
                        && record.to == to && (t.even() ==> record.properties == padded(
                        t.columns(),
                        row,
                    )))
                    &&& a.result is Err || other != edge_id || other_type != type_id || t.group_with(
                        edge_id,
                    ) is Some ==> a.state.read(other, other_type) == s.read(other, other_type)
                    &&& a.state.num_edges(other_type) == s.num_edges(other_type)
                        + if a.result is Ok && other_type == type_id {
                        1int
                    } else {
                        0
                    }
                    &&& a.state.neighbors(node, fwd) == if a.result is Ok && node == from {
                        s.neighbors(node, fwd).push(EdgeRef { edge_id, type_id, neighbor: to })
                    } else {
                        s.neighbors(node, fwd)
                    }
                    &&& a.state.neighbors(node, bwd) == if a.result is Ok && node == to {
                        s.neighbors(node, bwd).push(EdgeRef { edge_id, type_id, neighbor: from })
                    } else {
                        s.neighbors(node, bwd)
                    }
                },
                _ => a.state == s && a.result == Err::<(), ErrorView>(
                    ErrorView::LabelNotFound { label_id: type_id },
                ),
            }
        }),
{
    let a = s.apply(CommandView::CreateEdge { edge_id, type_id, from, to, properties });
    match (s.catalog.edge_type(type_id), s.table(type_id)) {
        (Some(schema), Some(t)) => {
            let row = aligned_row(schema.properties.len(), properties);
            let key = type_id.0 as u64;
            assert(s.tables[ordered_map::rank(s.tables, key) as int].1.regular());
            law_insert_then_read(t, edge_id, from, to, row, other);
            lemma_put_table(s.tables, key, t.insert(edge_id, from, to, row).state);
            assert(other_type != type_id ==> lookup(a.state.tables, other_type.0 as u64) == lookup(
                s.tables,
                other_type.0 as u64,
            ));
            adjacency_index::law_add_then_get(s.adjacency, edge_id, type_id, from, to, node);
        },
        _ => {},
    }
}

/// Deleting an edge that is there succeeds. It is not at its nodes any more, and if the first of its
/// types had it in one row, it is not read there any more. Nothing else changes, and nothing at all if
/// there is no such edge.
pub proof fn law_delete_edge(
    s: PlainStoreView,
    edge_id: EdgeId,
    type_id: LabelId,
    other: EdgeId,
    node: NodeId,
)
    requires
        s.regular(),
    ensures
        ({
            let a = s.apply(CommandView::DeleteEdge { edge_id });
            let fwd = Direction::Forward;
            let bwd = Direction::Backward;
            match s.table_with(edge_id) {
                Some(i) => {
                    let t = s.tables[i].1;
                    let record = t.read(edge_id)->Ok_0->Some_0;
                    let is_first = type_id.0 as u64 == s.tables[i].0;
                    &&& a.state.regular()
                    &&& a.result is Ok
                    &&& is_first && t.alone(edge_id) ==> a.state.read(edge_id, type_id) is None
                    &&& !is_first || other != edge_id ==> a.state.read(other, type_id) == s.read(
                        other,
                        type_id,
                    )
                    &&& a.state.num_edges(type_id) == s.num_edges(type_id) - if is_first {
                        1int
                    } else {
                        0
                    }
                    &&& a.state.neighbors(node, fwd) == if node == record.from {
                        without_edge(s.neighbors(node, fwd), edge_id)
                    } else {
                        s.neighbors(node, fwd)
                    }
                    &&& a.state.neighbors(node, bwd) == if node == record.to {
                        without_edge(s.neighbors(node, bwd), edge_id)
                    } else {
                        s.neighbors(node, bwd)
                    }
                },
                None => a.state == s && a.result == Err::<(), ErrorView>(
                    ErrorView::EdgeNotFound { edge_id },
                ),
            }
        }),
{
    let a = s.apply(CommandView::DeleteEdge { edge_id });
    search::lemma_first_where(s.tables.len(), s.table_has(edge_id));
    match s.table_with(edge_id) {
        Some(i) => {
            let t = s.tables[i].1;
            let record = t.read(edge_id)->Ok_0->Some_0;
            assert(s.table_has(edge_id)(i));
            assert(t.regular());
            law_delete_hides(t, edge_id, other);
            ordered_map::lemma_rank_at(s.tables, i);
            let key = s.tables[i].0;
            assert(a.state.tables =~= put(s.tables, key, t.delete(edge_id)));
            lemma_put_table(s.tables, key, t.delete(edge_id));
            assert(type_id.0 as u64 != key ==> lookup(a.state.tables, type_id.0 as u64) == lookup(
                s.tables,
                type_id.0 as u64,
            ));
            adjacency_index::law_remove_hides(
                s.adjacency,
                edge_id,
                record.from,
                record.to,
                node,
            );
        },
        None => {},
    }
}

/// Commands on nodes and vectors do nothing to edges.
pub proof fn law_edge_store_ignores(s: PlainStoreView, cmd: CommandView)
    requires
        !(cmd is CreateEdge),
        !(cmd is DeleteEdge),
    ensures
        s.apply(cmd).state == s,
        s.apply(cmd).result is Ok,
{
}

} // verus!
