//! What holds of node tables: what is read after inserting, deleting, and storing on disk.

use vstd::prelude::*;

use crate::catalog::NodeLabelView;
use crate::catalog::columns_of;
use crate::error::ErrorView;
use crate::ordered_map;
use crate::ordered_map::lookup;
use crate::state::node_records;
use crate::state::node_records::rows_upto;
use crate::state::node_table;
use crate::state::node_table::{
    live_rows, offset_at, record_at, NodeRecordView, NodeTableView,
};
use crate::table::node;
use crate::table::node::{padded, types_match, GroupView};
use crate::table::row::RowView;
use crate::table::row;
use crate::types::{ColumnId, DataType, NodeGroupIdx, NodeId};

verus! {

impl NodeTableView {
    pub open spec fn columns(self) -> Seq<(ColumnId, DataType)> {
        columns_of(self.schema.properties)
    }

    /// Group `i` has index `i` and the columns of the schema, and only the last one is not full.
    pub open spec fn regular(self) -> bool {
        &&& self.sound()
        &&& forall|i: int|
            0 <= i < self.groups.len() ==> (#[trigger] self.groups[i]).regular()
                && self.groups[i].schema == self.columns() && self.groups[i].group_idx.0 == i
        &&& forall|i: int| 0 <= i < self.groups.len() - 1 ==> (#[trigger] self.groups[i]).is_full()
    }

    /// The node in the row at an offset, if the row is live.
    pub open spec fn node_in(self, offset: u64) -> Option<NodeId> {
        if offset as int / 65536 < self.groups.len() {
            match record_at(self.groups[offset as int / 65536], (offset % 65536) as u64) {
                Some(record) => Some(record.node_id),
                None => None,
            }
        } else {
            None
        }
    }

    /// If this is the node's offset, the node is in the row there.
    pub open spec fn tidy_at(self, id: u64, offset: u64) -> bool {
        lookup(self.offsets, id) == Some(offset) ==> self.node_in(offset) == Some(NodeId(id))
    }

    /// What every table built by inserting and deleting is like: regular, and each node is in the
    /// row at its offset.
    pub open spec fn tidy(self) -> bool {
        self.regular() && forall|id: u64, offset: u64| #[trigger] self.tidy_at(id, offset)
    }

    /// If the node is in the row here, it has an offset, and that is not before here.
    pub open spec fn known_at(self, id: u64, offset: u64) -> bool {
        self.node_in(offset) == Some(NodeId(id)) ==> (lookup(self.offsets, id) matches Some(o)
            && offset <= o)
    }

    /// The offset of a node is that of the last row it is in.
    pub open spec fn complete(self) -> bool {
        forall|id: u64, offset: u64| #[trigger] self.known_at(id, offset)
    }

    /// The node is in no other row than that at its offset: it was not inserted twice.
    pub open spec fn alone(self, node_id: NodeId) -> bool {
        forall|offset: u64| #[trigger]
            self.node_in(offset) == Some(node_id) ==> self.offset(node_id) == Some(offset)
    }
}

/// A new table is tidy.
pub proof fn law_empty_tidy(schema: NodeLabelView)
    ensures
        NodeTableView::empty(schema).tidy(),
        NodeTableView::empty(schema).complete(),
        NodeTableView::empty(schema).num_nodes() == 0,
{
    let t = NodeTableView::empty(schema);
    assert forall|id: u64, offset: u64| #[trigger] t.tidy_at(id, offset) by {}
    assert forall|id: u64, offset: u64| #[trigger] t.known_at(id, offset) by {}
}

pub proof fn lemma_no_record(g: GroupView, row: u64)
    requires
        g.regular(),
        row >= g.num_rows(),
    ensures
        record_at(g, row) is None,
{
    node::law_dense_bounds(g);
}

/// The offset of a node is that of a row.
pub proof fn lemma_offset_row(t: NodeTableView, node_id: NodeId)
    requires
        t.tidy(),
        t.offset(node_id) is Some,
    ensures
        ({
            let offset = t.offset(node_id)->Some_0;
            let n = offset as int / 65536;
            let row = (offset % 65536) as u64;
            &&& n < t.groups.len()
            &&& row < t.groups[n].num_rows()
            &&& t.groups[n].read(row) matches Ok(Some(_))
            &&& t.groups[n].node_at(row) == Ok::<NodeId, ErrorView>(node_id)
        }),
{
    let offset = t.offset(node_id)->Some_0;
    assert(t.tidy_at(node_id.0, offset));
    let n = offset as int / 65536;
    let row = (offset % 65536) as u64;
    assert(t.groups[n].regular());
    if row >= t.groups[n].num_rows() {
        lemma_no_record(t.groups[n], row);
    }
}

/// A table with a group at its end that has room is regular and holds the same nodes.
pub proof fn lemma_active_regular(t: NodeTableView)
    requires
        t.regular(),
        t.groups.len() + 1 < 0x1_0000_0000_0000,
    ensures
        ({
            let a = t.with_active_group();
            &&& a.regular()
            &&& a.groups.len() > 0
            &&& !a.groups.last().is_full()
            &&& a.num_nodes() == t.num_nodes()
            &&& a.groups.len() >= t.groups.len()
            &&& forall|i: int| 0 <= i < t.groups.len() ==> #[trigger] a.groups[i] == t.groups[i]
            &&& forall|offset: u64| #[trigger] a.node_in(offset) == t.node_in(offset)
        }),
{
    let a = t.with_active_group();
    node_table::lemma_insert_sound(t, NodeId(0), Seq::empty());
    if t.groups.len() == 0 || t.groups.last().is_full() {
        let n = t.groups.len();
        let e = a.groups[n as int];
        node::law_empty_regular(NodeGroupIdx(n as u64), t.columns());
        assert forall|i: int| 0 <= i < a.groups.len() implies (#[trigger] a.groups[i]).regular()
            && a.groups[i].schema == a.columns() && a.groups[i].group_idx.0 == i by {
            if i < n {
                assert(a.groups[i] == t.groups[i]);
            }
        }
        assert forall|i: int| 0 <= i < a.groups.len() - 1 implies (
        #[trigger] a.groups[i]).is_full() by {
            assert(a.groups[i] == t.groups[i]);
            if i == n - 1 {
                assert(t.groups.last() == t.groups[i]);
            }
        }
        assert forall|offset: u64| #[trigger] a.node_in(offset) == t.node_in(offset) by {
            if offset as int / 65536 == n {
                lemma_no_record(e, (offset % 65536) as u64);
            }
        }
        lemma_live_prefix(t.groups, a.groups, n);
    }
}

pub proof fn lemma_live_prefix(a: Seq<GroupView>, b: Seq<GroupView>, n: nat)
    requires
        n <= a.len(),
        n <= b.len(),
        forall|i: int| 0 <= i < n ==> #[trigger] a[i] == b[i],
    ensures
        live_rows(a, n) == live_rows(b, n),
    decreases n,
{
    if n > 0 {
        lemma_live_prefix(a, b, (n - 1) as nat);
        assert(a[n - 1] == b[n - 1]);
    }
}

pub proof fn lemma_live_update(groups: Seq<GroupView>, i: int, g: GroupView, n: nat)
    requires
        0 <= i < groups.len(),
        n <= groups.len(),
    ensures
        live_rows(groups.update(i, g), n) == live_rows(groups, n) + if i < n {
            g.num_live_rows() - groups[i].num_live_rows()
        } else {
            0int
        },
    decreases n,
{
    if n > 0 {
        lemma_live_update(groups, i, g, (n - 1) as nat);
    }
}

/// A group of a regular table can be replaced by a regular one of the same index that is full if the
/// group was.
proof fn lemma_update_regular(t: NodeTableView, n: int, g: GroupView, r: NodeTableView)
    requires
        t.regular(),
        0 <= n < t.groups.len(),
        g.regular(),
        g.schema == t.groups[n].schema,
        g.group_idx == t.groups[n].group_idx,
        n < t.groups.len() - 1 ==> g.is_full(),
        r.sound(),
        r.schema == t.schema,
        r.groups == t.groups.update(n, g),
    ensures
        r.regular(),
{
    assert forall|i: int| 0 <= i < r.groups.len() implies (#[trigger] r.groups[i]).regular()
        && r.groups[i].schema == r.columns() && r.groups[i].group_idx.0 == i by {
        assert(t.groups[n].group_idx.0 == n);
        if i != n {
            assert(r.groups[i] == t.groups[i]);
        }
    }
    assert forall|i: int| 0 <= i < r.groups.len() - 1 implies (#[trigger] r.groups[i]).is_full() by {
        if i != n {
            assert(r.groups[i] == t.groups[i]);
        }
    }
}

/// A node whose values are of the columns' types can be inserted. It is read back, every other node
/// is read as before, and there is one node more.
pub proof fn law_insert_then_read(
    t: NodeTableView,
    node_id: NodeId,
    values: RowView,
    other: NodeId,
)
    requires
        t.tidy(),
        t.groups.len() + 1 < 0x1_0000_0000_0000,
        types_match(t.columns(), values),
    ensures
        ({
            let i = t.insert(node_id, values);
            &&& i.result is Ok
            &&& i.state.tidy()
            &&& t.complete() ==> i.state.complete()
            &&& t.complete() && t.offset(node_id) is None ==> i.state.alone(node_id)
            &&& other != node_id && t.alone(other) ==> i.state.alone(other)
            &&& i.state.offset(node_id) is Some
            &&& other != node_id ==> i.state.offset(other) == t.offset(other)
            &&& i.state.read(node_id) == Ok::<Option<RowView>, ErrorView>(
                Some(padded(t.columns(), values)),
            )
            &&& other != node_id ==> i.state.read(other) == t.read(other)
            &&& i.state.num_nodes() == t.num_nodes() + 1
        }),
{
    let a = t.with_active_group();
    lemma_active_regular(t);
    node_table::lemma_insert_sound(t, node_id, values);
    let n = a.groups.len() - 1;
    let g = a.groups[n];
    assert(g.regular() && g.schema == t.columns() && g.group_idx.0 == n);
    node::law_dense_bounds(g);
    node::law_group_insert_then_read(g, node_id, values, 0);
    let s = t.insert(node_id, values).state;
    let h = g.insert(node_id, values).state;
    lemma_update_regular(a, n, h, s);
    let row = g.num_rows() as u64;
    let offset = offset_at(g.group_idx, row) as u64;
    assert(offset as int / 65536 == n && offset % 65536 == row);
    ordered_map::law_put_then_lookup(t.offsets, node_id.0, offset, other.0);
    assert(s.groups[n] == h);
    lemma_live_update(a.groups, n, h, a.groups.len());
    if other != node_id && t.offset(other) is Some {
        lemma_offset_row(t, other);
        let o = t.offset(other)->Some_0;
        let k = o as int / 65536;
        assert(a.groups[k] == t.groups[k]);
        if k == n {
            node::law_group_insert_then_read(g, node_id, values, (o % 65536) as u64);
        }
    }
    assert forall|o: u64| #[trigger] s.node_in(o) == if o == offset {
        Some(node_id)
    } else {
        t.node_in(o)
    } by {
        assert(a.node_in(o) == t.node_in(o));
        let r = (o % 65536) as u64;
        if o as int / 65536 == n {
            if r < row {
                node::law_group_insert_then_read(g, node_id, values, r);
            } else if r > row {
                lemma_no_record(h, r);
                lemma_no_record(g, r);
            } else {
                assert(o == offset);
            }
        }
    }
    if t.complete() && t.offset(node_id) is None {
        assert forall|o: u64| #[trigger] s.node_in(o) == Some(node_id) implies s.offset(node_id)
            == Some(o) by {
            assert(t.known_at(node_id.0, o));
        }
    }
    if other != node_id && t.alone(other) {
        assert forall|o: u64| #[trigger] s.node_in(o) == Some(other) implies s.offset(other)
            == Some(o) by {
            assert(t.node_in(o) == Some(other));
        }
    }
    assert forall|id: u64, o: u64| #[trigger] s.tidy_at(id, o) by {
        assert(t.tidy_at(id, o));
        assert(t.tidy_at(id, offset));
        assert(a.node_in(offset) == t.node_in(offset));
        lemma_no_record(g, row);
        assert(s.node_in(o) == if o == offset {
            Some(node_id)
        } else {
            t.node_in(o)
        });
        ordered_map::law_put_then_lookup(t.offsets, node_id.0, offset, id);
    }
    if t.complete() {
        assert forall|id: u64, o: u64| #[trigger] s.known_at(id, o) by {
            assert(t.known_at(id, o));
            assert(s.node_in(o) == if o == offset {
                Some(node_id)
            } else {
                t.node_in(o)
            });
            ordered_map::law_put_then_lookup(t.offsets, node_id.0, offset, id);
            assert(a.node_in(o) == t.node_in(o));
            if o > offset && t.node_in(o) is Some {
                if o as int / 65536 == n {
                    lemma_no_record(g, (o % 65536) as u64);
                }
            }
        }
    }
}

/// A node with a value of another type than its column is refused, and what is there is as it was.
pub proof fn law_mismatch_refused(
    t: NodeTableView,
    node_id: NodeId,
    values: RowView,
    other: NodeId,
)
    requires
        t.tidy(),
        t.groups.len() + 1 < 0x1_0000_0000_0000,
        !types_match(t.columns(), values),
    ensures
        ({
            let i = t.insert(node_id, values);
            &&& i.result matches Err(ErrorView::ColumnTypeMismatch { .. })
            &&& i.result == Err::<(NodeGroupIdx, u64), ErrorView>(
                row::first_mismatch(
                    row::empty_columns(t.columns()),
                    values,
                    t.columns().len(),
                )->Some_0,
            )
            &&& i.state.tidy()
            &&& t.complete() ==> i.state.complete()
            &&& t.alone(other) ==> i.state.alone(other)
            &&& i.state.offsets == t.offsets
            &&& i.state.read(other) == t.read(other)
            &&& i.state.num_nodes() == t.num_nodes()
        }),
{
    let a = t.with_active_group();
    lemma_active_regular(t);
    node_table::lemma_insert_sound(t, node_id, values);
    let n = a.groups.len() - 1;
    let g = a.groups[n];
    assert(g.regular() && g.schema == t.columns() && g.group_idx.0 == n);
    node::law_dense_bounds(g);
    node::law_group_mismatch_refused(g, node_id, values, 0);
    lemma_mismatch_is(t.columns(), values, t.columns().len());
    let s = t.insert(node_id, values).state;
    let h = g.insert(node_id, values).state;
    lemma_update_regular(a, n, h, s);
    lemma_live_update(a.groups, n, h, a.groups.len());
    if t.offset(other) is Some {
        lemma_offset_row(t, other);
        let o = t.offset(other)->Some_0;
        let k = o as int / 65536;
        assert(a.groups[k] == t.groups[k]);
        if k == n {
            node::law_group_mismatch_refused(g, node_id, values, (o % 65536) as u64);
        }
    }
    assert forall|o: u64| #[trigger] s.node_in(o) == t.node_in(o) by {
        assert(a.node_in(o) == t.node_in(o));
        let r = (o % 65536) as u64;
        if o as int / 65536 == n {
            if r < g.num_rows() {
                node::law_group_mismatch_refused(g, node_id, values, r);
            } else {
                lemma_no_record(h, r);
                lemma_no_record(g, r);
            }
        }
    }
    if t.alone(other) {
        assert forall|o: u64| #[trigger] s.node_in(o) == Some(other) implies s.offset(other)
            == Some(o) by {
            assert(t.node_in(o) == Some(other));
        }
    }
    assert forall|id: u64, o: u64| #[trigger] s.tidy_at(id, o) by {
        assert(t.tidy_at(id, o));
        assert(s.node_in(o) == t.node_in(o));
    }
    if t.complete() {
        assert forall|id: u64, o: u64| #[trigger] s.known_at(id, o) by {
            assert(t.known_at(id, o));
            assert(s.node_in(o) == t.node_in(o));
        }
    }
}

proof fn lemma_mismatch_is(schema: Seq<(ColumnId, DataType)>, values: RowView, n: nat)
    ensures
        row::first_mismatch(
            row::empty_columns(schema),
            values,
            n,
        ) matches Some(e) ==> e is ColumnTypeMismatch,
    decreases n,
{
    if n > 0 {
        lemma_mismatch_is(schema, values, (n - 1) as nat);
    }
}

/// A node that is there can be deleted. It is not there after it, every other node is read as
/// before, and there is one node less. The other nodes' offsets stay those of their last rows, and if
/// the node was inserted once, it is in no row any more.
pub proof fn law_delete_hides(t: NodeTableView, node_id: NodeId, other: NodeId)
    requires
        t.tidy(),
        t.offset(node_id) is Some,
    ensures
        t.delete_refusal(node_id) is None,
        t.delete(node_id).tidy(),
        t.complete() && t.alone(node_id) ==> t.delete(node_id).complete(),
        other != node_id && t.alone(other) ==> t.delete(node_id).alone(other),
        t.delete(node_id).offset(node_id) is None,
        t.delete(node_id).read(node_id) == Ok::<Option<RowView>, ErrorView>(None),
        other != node_id ==> t.delete(node_id).read(other) == t.read(other),
        other != node_id ==> t.delete(node_id).offset(other) == t.offset(other),
        t.delete(node_id).num_nodes() == t.num_nodes() - 1,
{
    lemma_offset_row(t, node_id);
    node_table::lemma_delete_sound(t, node_id);
    let offset = t.offset(node_id)->Some_0;
    let n = offset as int / 65536;
    let row = (offset % 65536) as u64;
    let g = t.groups[n];
    assert(g.regular() && g.schema == t.columns() && g.group_idx.0 == n);
    node::law_dense_bounds(g);
    node::law_group_delete_hides(g, row, 0);
    let d = t.delete(node_id);
    let h = g.delete(row);
    node::law_dense_bounds(h);
    lemma_update_regular(t, n, h, d);
    lemma_live_update(t.groups, n, h, t.groups.len());
    ordered_map::law_without_then_lookup(t.offsets, node_id.0, other.0);
    if other != node_id && t.offset(other) is Some {
        lemma_offset_row(t, other);
        let o = t.offset(other)->Some_0;
        assert(t.tidy_at(node_id.0, o));
        assert(t.tidy_at(other.0, o));
        assert(o != offset);
        if o as int / 65536 == n {
            node::law_group_delete_hides(g, row, (o % 65536) as u64);
        }
    }
    assert forall|o: u64| #[trigger] d.node_in(o) == if o == offset {
        None
    } else {
        t.node_in(o)
    } by {
        if o as int / 65536 == n && o != offset {
            node::law_group_delete_hides(g, row, (o % 65536) as u64);
        }
    }
    if other != node_id && t.alone(other) {
        assert forall|o: u64| #[trigger] d.node_in(o) == Some(other) implies d.offset(other)
            == Some(o) by {
            assert(t.node_in(o) == Some(other));
        }
    }
    assert forall|id: u64, o: u64| #[trigger] d.tidy_at(id, o) by {
        assert(t.tidy_at(id, o));
        assert(t.tidy_at(node_id.0, offset));
        assert(d.node_in(o) == if o == offset {
            None
        } else {
            t.node_in(o)
        });
        ordered_map::law_without_then_lookup(t.offsets, node_id.0, id);
    }
    if t.complete() && t.alone(node_id) {
        assert forall|id: u64, o: u64| #[trigger] d.known_at(id, o) by {
            assert(t.known_at(id, o));
            assert(d.node_in(o) == if o == offset {
                None
            } else {
                t.node_in(o)
            });
            ordered_map::law_without_then_lookup(t.offsets, node_id.0, id);
        }
    }
}

/// A node that is not there cannot be deleted, and reads as nothing.
pub proof fn law_missing_node(t: NodeTableView, node_id: NodeId)
    requires
        t.offset(node_id) is None,
    ensures
        t.read(node_id) == Ok::<Option<RowView>, ErrorView>(None),
        t.delete(node_id) == t,
        t.delete_refusal(node_id) == Some(ErrorView::NodeNotFound { node_id }),
{
}

// ---------------------------------------------------------------------------------------------
// Rows and records

impl NodeTableView {
    /// The number of rows, deleted ones included.
    pub open spec fn num_rows(self) -> nat {
        rows_upto(self.groups, self.groups.len())
    }
}

/// A table with `k` rows takes the next node in row `k % 65536` of group `k / 65536`, which is the
/// last one then. Its offset is `k`, and its record comes behind all others. A node that is refused
/// takes no row and leaves the records, and rows of deleted nodes are not used again.
pub proof fn law_insert_place(t: NodeTableView, node_id: NodeId, values: RowView)
    requires
        t.regular(),
        t.groups.len() + 1 < 0x1_0000_0000_0000,
    ensures
        ({
            let i = t.insert(node_id, values);
            let k = t.num_rows();
            &&& types_match(t.columns(), values) ==> {
                &&& i.result == Ok::<(NodeGroupIdx, u64), ErrorView>(
                    (NodeGroupIdx((k / 65536) as u64), (k % 65536) as u64),
                )
                &&& i.state.offset(node_id) == Some(k as u64)
                &&& k <= u64::MAX
                &&& i.state.num_rows() == k + 1
                &&& i.state.groups.len() == k / 65536 + 1
                &&& i.state.records() == t.records().push(
                    NodeRecordView { node_id, properties: padded(t.columns(), values) },
                )
            }
            &&& !types_match(t.columns(), values) ==> {
                &&& i.result is Err
                &&& i.state.num_rows() == k
                &&& i.state.records() == t.records()
            }
        }),
{
    let a = t.with_active_group();
    lemma_active_regular(t);
    let n = a.groups.len() - 1;
    let g = a.groups[n];
    assert(g.regular() && g.schema == t.columns() && g.group_idx.0 == n);
    assert forall|i: int| 0 <= i < a.groups.len() implies (#[trigger] a.groups[i]).regular() by {}
    node_records::lemma_full_rows(a.groups, n as nat);
    node::law_dense_bounds(g);
    if a.groups.len() > t.groups.len() {
        node_records::lemma_push_records(t.groups, g);
    }
    assert(a.records() == t.records());
    let k = t.num_rows();
    assert(k == 65536 * n + g.num_rows()) by {
        node_records::lemma_rows_same(a.groups, t.groups, t.groups.len());
    }
    assert(k / 65536 == n && k % 65536 == g.num_rows());
    let s = t.insert(node_id, values).state;
    node_records::lemma_rows_same(s.groups, a.groups, n as nat);
    if types_match(t.columns(), values) {
        node::law_group_insert_then_read(g, node_id, values, 0);
        node_records::lemma_insert_records(a.groups, n, node_id, values);
        ordered_map::law_put_then_lookup(t.offsets, node_id.0, k as u64, node_id.0);
    } else {
        node::law_group_mismatch_refused(g, node_id, values, 0);
        node_records::lemma_refused_records(a.groups, n, node_id, values);
    }
}

/// Deleting a node takes its record out and leaves all others in their order, and takes no row or
/// group away.
pub proof fn law_delete_record(t: NodeTableView, node_id: NodeId) -> (p: int)
    requires
        t.tidy(),
        t.offset(node_id) is Some,
    ensures
        0 <= p < t.records().len(),
        t.records()[p].node_id == node_id,
        t.delete(node_id).records() == t.records().remove(p),
        t.delete(node_id).num_rows() == t.num_rows(),
        t.delete(node_id).groups.len() == t.groups.len(),
{
    lemma_offset_row(t, node_id);
    let offset = t.offset(node_id)->Some_0;
    let n = offset as int / 65536;
    let row = offset as int % 65536;
    let g = t.groups[n];
    assert forall|i: int| 0 <= i < t.groups.len() implies (#[trigger] t.groups[i]).regular() by {}
    node::law_dense_bounds(g);
    node::law_group_delete_hides(g, row as u64, 0);
    node_records::lemma_delete_records(t.groups, n, row);
    node_records::lemma_place(t.groups, n, row, record_at(g, row as u64)->Some_0);
    let s = t.delete(node_id);
    assert forall|i: int| 0 <= i < s.groups.len() implies (#[trigger] s.groups[i]).num_rows()
        == t.groups[i].num_rows() by {}
    node_records::lemma_rows_same(s.groups, t.groups, t.groups.len());
    node_records::place(t.groups, n, row) as int
}

/// There is a record for each node that is counted.
pub proof fn law_records_counted(t: NodeTableView)
    requires
        t.regular(),
    ensures
        t.records().len() == t.num_nodes(),
{
    assert forall|i: int| 0 <= i < t.groups.len() implies (#[trigger] t.groups[i]).regular() by {}
    node_records::lemma_table_count(t.groups, t.groups.len());
}

/// A node that was not inserted twice has one record, with the values that reading it gives, and a
/// node that is not there has none.
pub proof fn law_records_read(t: NodeTableView, node_id: NodeId)
    requires
        t.tidy(),
        t.complete(),
        t.alone(node_id),
    ensures
        forall|p: int, q: int|
            0 <= p < t.records().len() && 0 <= q < t.records().len()
                && (#[trigger] t.records()[p]).node_id == node_id && (
            #[trigger] t.records()[q]).node_id == node_id ==> p == q,
        match t.read(node_id) {
            Ok(Some(properties)) => t.records().contains(NodeRecordView { node_id, properties }),
            Ok(None) => forall|p: int|
                0 <= p < t.records().len() ==> (#[trigger] t.records()[p]).node_id != node_id,
            Err(_) => false,
        },
{
    assert forall|p: int|
        0 <= p < t.records().len() && (#[trigger] t.records()[p]).node_id == node_id implies (
    t.offset(node_id) matches Some(o) && p == node_records::place(
        t.groups,
        o as int / 65536,
        o as int % 65536,
    )) by {
        let (i, row) = node_records::lemma_row_of(t.groups, t.groups.len(), p);
        assert(t.groups[i].regular() && t.groups[i].group_idx.0 == i);
        node::law_dense_bounds(t.groups[i]);
        let o = (65536 * i + row) as u64;
        assert(o as int / 65536 == i && o as int % 65536 == row);
        assert(t.node_in(o) == Some(node_id));
    }
    if t.offset(node_id) is Some {
        lemma_offset_row(t, node_id);
        let offset = t.offset(node_id)->Some_0;
        let n = offset as int / 65536;
        let row = offset as int % 65536;
        node_records::lemma_place(t.groups, n, row, record_at(t.groups[n], row as u64)->Some_0);
    }
}

} // verus!
