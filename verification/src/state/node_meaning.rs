//! What the commands on nodes mean: what is read from a store before and after them, value by value.

use vstd::prelude::*;

use crate::command::CommandView;
use crate::error::ErrorView;
use crate::ordered_map;
use crate::ordered_map::{put, sorted};
use crate::search;
use crate::state::node_laws;
use crate::state::node_store::NodeStoreView;
use crate::state::node_table::{offset_at, NodeRecordView, NodeTableView};
use crate::state::store_laws;
use crate::table::node;
use crate::table::node::types_match;
use crate::table::row::{aligned_row, RowView};
use crate::table::row_laws;
use crate::table::row_laws::{acceptable, first_refused, holds_values};
use crate::types::{LabelId, NodeId, PropertyView};

verus! {

// ---------------------------------------------------------------------------------------------
// Rows of tables

impl NodeTableView {
    /// The row at an offset was given to the node, which may have been deleted since.
    pub open spec fn row_of(self, offset: u64, node_id: NodeId) -> bool {
        let n = offset as int / 65536;
        &&& n < self.groups.len()
        &&& offset % 65536 < self.groups[n].num_rows()
        &&& self.groups[n].node_at((offset % 65536) as u64) == Ok::<NodeId, ErrorView>(node_id)
    }
}

/// The row at the offset of a node is the node's.
pub proof fn lemma_offset_is_row(t: NodeTableView, node_id: NodeId)
    requires
        t.tidy(),
        t.offset(node_id) is Some,
    ensures
        t.row_of(t.offset(node_id)->Some_0, node_id),
{
    node_laws::lemma_offset_row(t, node_id);
}

/// A row is never given to another node, and a node that is taken gets one that nobody had.
pub proof fn lemma_insert_rows(t: NodeTableView, node_id: NodeId, values: RowView)
    requires
        t.tidy(),
        t.groups.len() + 1 < 0x1_0000_0000_0000,
    ensures
        ({
            let i = t.insert(node_id, values);
            &&& forall|o: u64, x: NodeId| #[trigger] t.row_of(o, x) ==> i.state.row_of(o, x)
            &&& i.result is Ok ==> {
                &&& i.state.offset(node_id) is Some
                &&& forall|x: NodeId| !#[trigger] t.row_of(i.state.offset(node_id)->Some_0, x)
            }
        }),
{
    let a = t.with_active_group();
    node_laws::lemma_active_regular(t);
    let n = a.groups.len() - 1;
    let g = a.groups[n];
    assert(g.regular() && g.schema == t.columns() && g.group_idx.0 == n);
    node::law_dense_bounds(g);
    let i = t.insert(node_id, values);
    let s = i.state;
    if types_match(t.columns(), values) {
        node::law_group_insert_then_read(g, node_id, values, 0);
        node_laws::law_insert_then_read(t, node_id, values, node_id);
        let row = g.num_rows() as u64;
        let offset = offset_at(g.group_idx, row) as u64;
        ordered_map::law_put_then_lookup(t.offsets, node_id.0, offset, node_id.0);
        assert(s.offset(node_id) == Some(offset));
        assert(offset as int / 65536 == n && offset % 65536 == row);
        assert forall|x: NodeId| !#[trigger] t.row_of(offset, x) by {
            if n < t.groups.len() {
                assert(t.groups[n] == g);
            }
        }
    } else {
        node::law_group_mismatch_refused(g, node_id, values, 0);
    }
    assert forall|o: u64, x: NodeId| #[trigger] t.row_of(o, x) implies s.row_of(o, x) by {
        let k = o as int / 65536;
        let r = (o % 65536) as u64;
        assert(a.groups[k] == t.groups[k]);
        if k == n {
            if types_match(t.columns(), values) {
                node::law_group_insert_then_read(g, node_id, values, r);
            } else {
                node::law_group_mismatch_refused(g, node_id, values, r);
            }
        } else {
            assert(s.groups[k] == t.groups[k]);
        }
    }
}

/// A row stays its node's when a node is deleted.
pub proof fn lemma_delete_rows(t: NodeTableView, node_id: NodeId)
    requires
        t.tidy(),
    ensures
        forall|o: u64, x: NodeId| #[trigger] t.row_of(o, x) ==> t.delete(node_id).row_of(o, x),
{
    if t.offset(node_id) is Some {
        node_laws::lemma_offset_row(t, node_id);
        let offset = t.offset(node_id)->Some_0;
        let n = offset as int / 65536;
        let row = (offset % 65536) as u64;
        let g = t.groups[n];
        assert(g.regular());
        let d = t.delete(node_id);
        assert forall|o: u64, x: NodeId| #[trigger] t.row_of(o, x) implies d.row_of(o, x) by {
            let k = o as int / 65536;
            node::law_group_delete_hides(g, row, (o % 65536) as u64);
            if k != n {
                assert(d.groups[k] == t.groups[k]);
            }
        }
    }
}

// ---------------------------------------------------------------------------------------------
// Stores

/// The label is the first that has the node.
pub open spec fn first_label(s: NodeStoreView, node_id: NodeId, label_id: LabelId) -> bool {
    s.read(node_id, label_id) is Some && forall|l: LabelId|
        #[trigger] s.read(node_id, l) is Some ==> label_id.0 <= l.0
}

/// What creating a node is for. A label that the catalog does not have is refused, and nothing
/// changes. Otherwise the node is taken exactly if each value is taken by the property in its place;
/// the error names the first that is not. A node that is taken is read back with the values of the
/// command, as many as there are properties, and is the last record of its label. Whatever else is
/// read is read as before, and so is everything if the node is refused.
pub open spec fn node_created(
    s: NodeStoreView,
    r: NodeStoreView,
    result: Result<(), ErrorView>,
    node_id: NodeId,
    label_id: LabelId,
    values: Seq<PropertyView>,
) -> bool {
    let labels = s.catalog.node_labels;
    &&& r.catalog == s.catalog
    &&& (forall|c: int| 0 <= c < labels.len() ==> (#[trigger] labels[c]).label_id != label_id)
        ==> r == s && result == Err::<(), ErrorView>(ErrorView::LabelNotFound { label_id })
    &&& forall|c: int|
        0 <= c < labels.len() && (#[trigger] labels[c]).label_id == label_id ==> {
            let properties = labels[c].properties;
            &&& result is Ok <==> acceptable(properties, values)
            &&& forall|i: int| #[trigger]
                first_refused(properties, values, i) ==> result == Err::<(), ErrorView>(
                    ErrorView::ColumnTypeMismatch {
                        expected: properties[i].data_type,
                        got: values[i].data_type(),
                    },
                )
            &&& result is Ok ==> (r.read(node_id, label_id) matches Some(row) && holds_values(
                row,
                properties.len(),
                values,
            ))
        }
    &&& forall|x: NodeId, l: LabelId|
        result is Err || x != node_id || l != label_id ==> #[trigger] r.read(x, l) == s.read(x, l)
    &&& forall|l: LabelId| #[trigger]
        r.num_nodes(l) == s.num_nodes(l) + if result is Ok && l == label_id {
            1int
        } else {
            0
        }
    &&& forall|l: LabelId| #[trigger]
        r.records(l) == if result is Ok && l == label_id {
            s.records(l).push(
                NodeRecordView { node_id, properties: r.read(node_id, label_id)->Some_0 },
            )
        } else {
            s.records(l)
        }
    &&& forall|x: NodeId|
        result is Err || x != node_id ==> #[trigger] r.offset(x) == s.offset(x)
    &&& result is Ok ==> r.offset(node_id) is Some
}

/// What deleting a node is for. It fails exactly if no label has the node, and then nothing changes.
/// Otherwise the first label that has it has it no more: it reads as nothing there, its record is gone
/// and all others stay in their order. Whatever else is read is read as before.
pub open spec fn node_deleted(
    s: NodeStoreView,
    r: NodeStoreView,
    result: Result<(), ErrorView>,
    node_id: NodeId,
) -> bool {
    &&& r.catalog == s.catalog
    &&& (forall|l: LabelId| #[trigger] s.read(node_id, l) is None) ==> r == s && result == Err::<
        (),
        ErrorView,
    >(ErrorView::NodeNotFound { node_id })
    &&& forall|l: LabelId| #[trigger] s.read(node_id, l) is Some ==> result is Ok
    &&& forall|l: LabelId| #[trigger]
        first_label(s, node_id, l) ==> {
            &&& r.read(node_id, l) is None
            &&& r.num_nodes(l) == s.num_nodes(l) - 1
            &&& exists|p: int|
                0 <= p < s.records(l).len() && (#[trigger] s.records(l)[p]).node_id == node_id
                    && r.records(l) == s.records(l).remove(p)
        }
    &&& forall|x: NodeId, l: LabelId|
        x != node_id || !first_label(s, node_id, l) ==> #[trigger] r.read(x, l) == s.read(x, l)
    &&& forall|l: LabelId|
        !first_label(s, node_id, l) ==> #[trigger] r.num_nodes(l) == s.num_nodes(l)
    &&& forall|l: LabelId|
        !first_label(s, node_id, l) ==> #[trigger] r.records(l) == s.records(l)
    &&& forall|x: NodeId| x != node_id ==> #[trigger] r.offset(x) == s.offset(x)
    &&& (forall|l1: LabelId, l2: LabelId| #[trigger]
        s.read(node_id, l1) is Some && #[trigger] s.read(node_id, l2) is Some ==> l1 == l2)
        ==> r.offset(node_id) is None
}

/// The schema of a label.
pub proof fn lemma_label(s: NodeStoreView, label_id: LabelId)
    requires
        s.labelled(),
    ensures
        s.catalog.node_label(label_id) is None <==> forall|c: int|
            0 <= c < s.catalog.node_labels.len() ==> (
            #[trigger] s.catalog.node_labels[c]).label_id != label_id,
        forall|c: int|
            0 <= c < s.catalog.node_labels.len() && (
            #[trigger] s.catalog.node_labels[c]).label_id == label_id ==> s.catalog.node_label(
                label_id,
            ) == Some(s.catalog.node_labels[c]) && (s.table(label_id) matches Some(t)
                && t.schema == s.catalog.node_labels[c]),
{
    let labels = s.catalog.node_labels;
    let p = s.catalog.node_label_is(label_id);
    search::lemma_first_where(labels.len(), p);
    assert forall|c: int|
        0 <= c < labels.len() && (#[trigger] labels[c]).label_id == label_id implies s.catalog.node_label(
        label_id,
    ) == Some(labels[c]) && (s.table(label_id) matches Some(t) && t.schema == labels[c]) by {
        assert(p(c));
        let i = search::first_where(labels.len(), p)->Some_0;
        assert(p(i));
        assert(s.table(labels[i].label_id)->Some_0.schema == labels[i]);
        assert(s.table(labels[c].label_id)->Some_0.schema == labels[c]);
    }
    if s.catalog.node_label(label_id) is None {
        assert forall|c: int| 0 <= c < labels.len() implies (#[trigger] labels[c]).label_id
            != label_id by {
            assert(!p(c));
        }
    } else {
        let i = search::first_where(labels.len(), p)->Some_0;
        assert(p(i));
        assert(labels[i].label_id == label_id);
    }
}

/// A node is read exactly from the tables that have an offset for it.
pub proof fn lemma_read_there(s: NodeStoreView, node_id: NodeId, label_id: LabelId)
    requires
        s.tidy(),
    ensures
        s.read(node_id, label_id) is Some <==> (s.table(label_id) matches Some(t) && t.offset(
            node_id,
        ) is Some),
{
    match s.table(label_id) {
        Some(t) => {
            let i = ordered_map::rank(s.tables, label_id.0 as u64) as int;
            assert(s.tables[i].1.tidy());
            if t.offset(node_id) is Some {
                node_laws::lemma_offset_row(t, node_id);
            } else {
                node_laws::law_missing_node(t, node_id);
            }
        },
        None => {},
    }
}

/// A node of a store has an offset exactly if some label has it.
pub proof fn lemma_offset_there(s: NodeStoreView, node_id: NodeId)
    requires
        s.tidy(),
        s.labelled(),
    ensures
        s.offset(node_id) is Some <==> exists|l: LabelId| #[trigger] s.read(node_id, l) is Some,
{
    search::lemma_first_where(s.tables.len(), s.table_has(node_id));
    match s.table_with(node_id) {
        Some(i) => {
            assert(s.table_has(node_id)(i));
            lemma_key(s, i);
            let l = LabelId(s.tables[i].0 as u32);
            lemma_read_there(s, node_id, l);
            assert(s.read(node_id, l) is Some);
        },
        None => {
            assert forall|l: LabelId| !(#[trigger] s.read(node_id, l) is Some) by {
                lemma_read_there(s, node_id, l);
                if s.table(l) is Some {
                    let i = ordered_map::rank(s.tables, l.0 as u64) as int;
                    assert(!s.table_has(node_id)(i));
                }
            }
        },
    }
}

/// The key of a table is the id of a label.
pub proof fn lemma_key(s: NodeStoreView, i: int)
    requires
        s.tidy(),
        s.labelled(),
        0 <= i < s.tables.len(),
    ensures
        s.tables[i].0 <= u32::MAX,
        s.table(LabelId(s.tables[i].0 as u32)) == Some(s.tables[i].1),
{
    let labels = s.catalog.node_labels;
    let c = choose|c: int|
        0 <= c < labels.len() && (#[trigger] labels[c]).label_id.0 as u64 == (
        #[trigger] s.tables[i]).0;
    assert(labels[c].label_id.0 as u64 == s.tables[i].0);
    ordered_map::lemma_rank_at(s.tables, i);
}

/// Replacing a table keeps which labels there are.
pub proof fn lemma_still_labelled(s: NodeStoreView, r: NodeStoreView, i: int, t: NodeTableView)
    requires
        s.tidy(),
        s.labelled(),
        0 <= i < s.tables.len(),
        t.schema == s.tables[i].1.schema,
        r == (NodeStoreView { tables: s.tables.update(i, (s.tables[i].0, t)), ..s }),
    ensures
        sorted(r.tables),
        r.labelled(),
        forall|j: int| 0 <= j < s.tables.len() ==> (#[trigger] r.tables[j]).0 == s.tables[j].0,
{
    let labels = s.catalog.node_labels;
    assert(sorted(r.tables)) by {
        assert forall|a: int, b: int| 0 <= a < b < r.tables.len() implies (
        #[trigger] r.tables[a]).0 < (#[trigger] r.tables[b]).0 by {
            assert(s.tables[a].0 < s.tables[b].0);
        }
    }
    assert forall|x: int| 0 <= x < labels.len() implies (r.table(
        (#[trigger] labels[x]).label_id,
    ) matches Some(u) && u.schema == labels[x]) by {
        let key = labels[x].label_id.0 as u64;
        assert(s.table(labels[x].label_id)->Some_0.schema == labels[x]);
        let at = ordered_map::rank(s.tables, key) as int;
        assert(r.tables[at].0 == key);
        ordered_map::lemma_rank_at(r.tables, at);
    }
    assert forall|j: int| 0 <= j < r.tables.len() implies exists|x: int|
        0 <= x < labels.len() && (#[trigger] labels[x]).label_id.0 as u64 == (
        #[trigger] r.tables[j]).0 by {
        assert(r.tables[j].0 == s.tables[j].0);
        let x = choose|x: int|
            0 <= x < labels.len() && (#[trigger] labels[x]).label_id.0 as u64 == (
            #[trigger] s.tables[j]).0;
        assert(labels[x].label_id.0 as u64 == r.tables[j].0);
    }
}

/// The offsets of nodes whose offsets in one table stay.
proof fn lemma_offset_stays(s: NodeStoreView, r: NodeStoreView, i: int, x: NodeId)
    requires
        0 <= i < s.tables.len(),
        r.tables.len() == s.tables.len(),
        forall|j: int| 0 <= j < s.tables.len() && j != i ==> r.tables[j] == s.tables[j],
        r.tables[i].1.offset(x) == s.tables[i].1.offset(x),
    ensures
        r.offset(x) == s.offset(x),
{
    assert forall|j: int| 0 <= j < s.tables.len() implies #[trigger] r.table_has(x)(j)
        == s.table_has(x)(j) by {
        if j != i {
            assert(r.tables[j] == s.tables[j]);
        }
    }
    search::lemma_first_where_same(s.tables.len(), r.table_has(x), s.table_has(x));
    search::lemma_first_where(s.tables.len(), s.table_has(x));
}

/// Creating a node does what it is for.
#[verifier::rlimit(40)]
pub proof fn law_create_node(
    s: NodeStoreView,
    node_id: NodeId,
    label_id: LabelId,
    values: Seq<PropertyView>,
)
    requires
        s.tidy(),
        s.labelled(),
        s.has_room(CommandView::CreateNode { node_id, label_id, properties: values }),
    ensures
        ({
            let a = s.apply(CommandView::CreateNode { node_id, label_id, properties: values });
            &&& a.state.tidy()
            &&& a.state.labelled()
            &&& node_created(s, a.state, a.result, node_id, label_id, values)
        }),
{
    let cmd = CommandView::CreateNode { node_id, label_id, properties: values };
    let a = s.apply(cmd);
    let r = a.state;
    let labels = s.catalog.node_labels;
    lemma_label(s, label_id);
    match s.catalog.node_label(label_id) {
        Some(schema) => {
            let c0 = search::first_where(labels.len(), s.catalog.node_label_is(label_id))->Some_0;
            search::lemma_first_where(labels.len(), s.catalog.node_label_is(label_id));
            assert(s.catalog.node_label_is(label_id)(c0));
            assert(labels[c0].label_id == label_id);
            let t = s.table(label_id)->Some_0;
            let properties = schema.properties;
            let row = aligned_row(properties.len(), values);
            let at = ordered_map::rank(s.tables, label_id.0 as u64) as int;
            assert(s.tables[at].1.tidy());
            row_laws::law_columns_of(properties);
            row_laws::lemma_acceptable(t.columns(), properties, values);
            let u = t.insert(node_id, row).state;
            assert(r.tables =~= s.tables.update(at, (s.tables[at].0, u)));
            assert(u.schema == t.schema);
            lemma_still_labelled(s, r, at, u);
            store_laws::law_create_node(s, node_id, label_id, values, node_id, label_id);
            node_laws::law_insert_place(t, node_id, row);
            if types_match(t.columns(), row) {
                node_laws::law_insert_then_read(t, node_id, row, node_id);
            } else {
                node_laws::law_mismatch_refused(t, node_id, row, node_id);
            }
            assert forall|x: NodeId, l: LabelId|
                a.result is Err || x != node_id || l != label_id implies #[trigger] r.read(x, l)
                == s.read(x, l) by {
                store_laws::law_create_node(s, node_id, label_id, values, x, l);
            }
            assert forall|l: LabelId| #[trigger]
                r.num_nodes(l) == s.num_nodes(l) + if a.result is Ok && l == label_id {
                    1int
                } else {
                    0
                } by {
                store_laws::law_create_node(s, node_id, label_id, values, node_id, l);
            }
            assert forall|l: LabelId| #[trigger]
                r.records(l) == if a.result is Ok && l == label_id {
                    s.records(l).push(
                        NodeRecordView { node_id, properties: r.read(node_id, label_id)->Some_0 },
                    )
                } else {
                    s.records(l)
                } by {
                ordered_map::law_put_then_lookup(s.tables, label_id.0 as u64, u, l.0 as u64);
            }
            assert forall|x: NodeId| a.result is Err || x != node_id implies #[trigger] r.offset(x)
                == s.offset(x) by {
                if types_match(t.columns(), row) {
                    node_laws::law_insert_then_read(t, node_id, row, x);
                }
                lemma_offset_stays(s, r, at, x);
            }
            if a.result is Ok {
                search::lemma_first_where(r.tables.len(), r.table_has(node_id));
                assert(r.table_has(node_id)(at));
                let i = r.table_with(node_id)->Some_0;
                assert(r.table_has(node_id)(i));
            }
        },
        None => {},
    }
}

/// Deleting a node does what it is for.
#[verifier::rlimit(40)]
pub proof fn law_delete_node(s: NodeStoreView, node_id: NodeId)
    requires
        s.tidy(),
        s.labelled(),
    ensures
        ({
            let a = s.apply(CommandView::DeleteNode { node_id });
            &&& a.state.tidy()
            &&& a.state.labelled()
            &&& node_deleted(s, a.state, a.result, node_id)
        }),
{
    let a = s.apply(CommandView::DeleteNode { node_id });
    let r = a.state;
    lemma_offset_there(s, node_id);
    search::lemma_first_where(s.tables.len(), s.table_has(node_id));
    match s.table_with(node_id) {
        Some(i) => {
            let t = s.tables[i].1;
            let key = s.tables[i].0;
            assert(s.table_has(node_id)(i));
            assert(t.tidy());
            lemma_key(s, i);
            let first = LabelId(key as u32);
            ordered_map::lemma_rank_at(s.tables, i);
            let u = t.delete(node_id);
            lemma_still_labelled(s, r, i, u);
            store_laws::law_delete_node(s, node_id, first, node_id);
            node_laws::law_delete_hides(t, node_id, node_id);
            lemma_read_there(s, node_id, first);
            assert(r.tables =~= put(s.tables, key, u));
            assert(s.read(node_id, first) is Some);
            assert forall|l: LabelId| #[trigger] s.read(node_id, l) is Some implies first.0 <= l.0 by {
                lemma_read_there(s, node_id, l);
                let j = ordered_map::rank(s.tables, l.0 as u64) as int;
                assert(s.table_has(node_id)(j));
                assert(i <= j);
                if i < j {
                    assert(s.tables[i].0 < s.tables[j].0);
                }
            }
            assert forall|l: LabelId| #[trigger] first_label(s, node_id, l) <==> l == first by {
                if first_label(s, node_id, l) {
                    assert(s.read(node_id, first) is Some);
                    assert(l.0 <= first.0);
                }
            }
            let p = node_laws::law_delete_record(t, node_id);
            assert(s.records(first)[p].node_id == node_id);
            ordered_map::law_put_then_lookup(s.tables, key, u, key);
            assert(r.records(first) == s.records(first).remove(p));
            assert forall|x: NodeId, l: LabelId| x != node_id || !first_label(s, node_id, l) implies #[trigger] r.read(
                x,
                l,
            ) == s.read(x, l) by {
                store_laws::law_delete_node(s, node_id, l, x);
            }
            assert forall|l: LabelId| !first_label(s, node_id, l) implies #[trigger] r.num_nodes(l)
                == s.num_nodes(l) by {
                store_laws::law_delete_node(s, node_id, l, node_id);
            }
            assert forall|l: LabelId| !first_label(s, node_id, l) implies #[trigger] r.records(l)
                == s.records(l) by {
                ordered_map::law_put_then_lookup(s.tables, key, u, l.0 as u64);
            }
            assert forall|x: NodeId| x != node_id implies #[trigger] r.offset(x) == s.offset(x) by {
                node_laws::law_delete_hides(t, node_id, x);
                lemma_offset_stays(s, r, i, x);
            }
            if forall|l1: LabelId, l2: LabelId| #[trigger]
                s.read(node_id, l1) is Some && #[trigger] s.read(node_id, l2) is Some ==> l1
                    == l2 {
                assert forall|j: int| 0 <= j < r.tables.len() implies !#[trigger] r.table_has(
                    node_id,
                )(j) by {
                    if j != i && r.table_has(node_id)(j) {
                        assert(s.tables[j].1.offset(node_id) is Some);
                        lemma_key(s, j);
                        let l = LabelId(s.tables[j].0 as u32);
                        lemma_read_there(s, node_id, l);
                        assert(s.read(node_id, l) is Some && s.read(node_id, first) is Some);
                        ordered_map::lemma_rank_at(s.tables, j);
                    }
                }
                search::lemma_first_where_none(r.tables.len(), r.table_has(node_id));
            }
        },
        None => {},
    }
}

/// In a store of one label, two nodes never have the same offset.
pub proof fn law_offsets_differ(s: NodeStoreView, a: NodeId, b: NodeId)
    requires
        s.tidy(),
        s.tables.len() <= 1,
        s.offset(a) is Some,
        s.offset(a) == s.offset(b),
    ensures
        a == b,
{
    search::lemma_first_where(s.tables.len(), s.table_has(a));
    search::lemma_first_where(s.tables.len(), s.table_has(b));
    let t = s.tables[0].1;
    assert(t.tidy());
    let o = s.offset(a)->Some_0;
    assert(t.tidy_at(a.0, o) && t.tidy_at(b.0, o));
}

} // verus!
