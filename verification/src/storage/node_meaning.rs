//! What the commands on nodes mean in memory: what is read from a store before and after them, value by
//! value.

use vstd::prelude::*;

use crate::catalog::{CatalogView, NodeLabelView};
use crate::command::CommandView;
use crate::error::ErrorView;
use crate::ordered_map;
use crate::ordered_map::{lookup, put, put_all, sorted};
use crate::search;
use crate::search::first_where;
use crate::state::node_table::NodeRecordView;
use crate::storage::node_laws;
use crate::storage::node_laws::record_of;
use crate::storage::node_store::{empty_tables, PlainStoreView};
use crate::storage::node_table::PlainNodesView;
use crate::table::node::types_match;
use crate::table::row::aligned_row;
use crate::table::row_laws;
use crate::table::row_laws::{acceptable, first_refused, holds_values};
use crate::types::{LabelId, NodeId, PropertyView};

verus! {

// ---------------------------------------------------------------------------------------------
// Tables and labels

/// Labels that share an id are the same.
pub open spec fn labels_differ(labels: Seq<NodeLabelView>) -> bool {
    forall|i: int, j: int|
        0 <= i < labels.len() && 0 <= j < labels.len() && (#[trigger] labels[i]).label_id == (
        #[trigger] labels[j]).label_id ==> labels[i] == labels[j]
}

impl PlainStoreView {
    /// There is a table for each label of the catalog, with its properties, and no other.
    pub open spec fn labelled(self) -> bool {
        let labels = self.catalog.node_labels;
        &&& forall|i: int|
            0 <= i < labels.len() ==> (self.table((#[trigger] labels[i]).label_id) matches Some(t)
                && t.schema == labels[i])
        &&& forall|j: int|
            0 <= j < self.tables.len() ==> exists|i: int|
                0 <= i < labels.len() && (#[trigger] labels[i]).label_id.0 as u64 == (
                #[trigger] self.tables[j]).0
    }
}

/// A new store has a table for each label, and no nodes.
pub proof fn law_empty_store(catalog: CatalogView)
    requires
        labels_differ(catalog.node_labels),
    ensures
        ({
            let s = PlainStoreView::empty(catalog);
            &&& s.regular()
            &&& s.labelled()
            &&& s.catalog == catalog
            &&& forall|x: NodeId, l: LabelId| #[trigger] s.read(x, l) is None
            &&& forall|l: LabelId| #[trigger] s.num_nodes(l) == 0
            &&& forall|l: LabelId| #[trigger] s.records(l) == Seq::<NodeRecordView>::empty()
        }),
{
    let s = PlainStoreView::empty(catalog);
    let labels = catalog.node_labels;
    node_laws::law_empty_store_regular(catalog);
    lemma_new_tables(labels, labels.len());
    assert forall|i: int| 0 <= i < labels.len() implies (s.table(
        (#[trigger] labels[i]).label_id,
    ) matches Some(t) && t.schema == labels[i]) by {
        let t = lookup(s.tables, labels[i].label_id.0 as u64)->Some_0;
        assert(labels[i].label_id == t.schema.label_id);
    }
    assert forall|j: int| 0 <= j < s.tables.len() implies exists|i: int|
        0 <= i < labels.len() && (#[trigger] labels[i]).label_id.0 as u64 == (
        #[trigger] s.tables[j]).0 by {
        ordered_map::lemma_rank_at(s.tables, j);
        assert(lookup(s.tables, s.tables[j].0) is Some);
    }
    assert forall|x: NodeId, l: LabelId| #[trigger] s.read(x, l) is None by {
        if s.table(l) is Some {
            node_laws::law_empty_regular(s.table(l)->Some_0.schema, x);
        }
    }
    assert forall|l: LabelId| #[trigger] s.records(l) == Seq::<NodeRecordView>::empty() by {
        if s.table(l) is Some {
            assert(s.records(l) =~= Seq::<NodeRecordView>::empty());
        }
    }
    assert forall|l: LabelId| #[trigger] s.num_nodes(l) == 0 by {
        if s.table(l) is Some {
            let t = s.table(l)->Some_0;
            node_laws::law_empty_regular(t.schema, NodeId(0));
            node_laws::law_records_counted(t);
        }
    }
}

proof fn lemma_new_tables(labels: Seq<NodeLabelView>, n: nat)
    requires
        n <= labels.len(),
    ensures
        ({
            let r = put_all(empty_tables(labels), n);
            &&& sorted(r)
            &&& forall|i: int|
                0 <= i < n ==> lookup(r, (#[trigger] labels[i]).label_id.0 as u64) is Some
            &&& forall|k: u64| #[trigger]
                lookup(r, k) matches Some(t) ==> t == PlainNodesView::empty(t.schema)
                    && t.schema.label_id.0 as u64 == k && exists|i: int|
                    0 <= i < n && #[trigger] labels[i] == t.schema
        }),
    decreases n,
{
    if n > 0 {
        lemma_new_tables(labels, (n - 1) as nat);
        let tables = empty_tables(labels);
        let before = put_all(tables, (n - 1) as nat);
        let (key, t) = tables[n - 1];
        let r = put(before, key, t);
        ordered_map::law_put_then_lookup(before, key, t, 0);
        assert(labels[n - 1] == t.schema);
        assert forall|i: int| 0 <= i < n implies lookup(
            r,
            (#[trigger] labels[i]).label_id.0 as u64,
        ) is Some by {
            ordered_map::law_put_then_lookup(before, key, t, labels[i].label_id.0 as u64);
        }
        assert forall|k: u64| #[trigger] lookup(r, k) is Some implies ({
            let u = lookup(r, k)->Some_0;
            u == PlainNodesView::empty(u.schema) && u.schema.label_id.0 as u64 == k && exists|
                i: int,
            |
                0 <= i < n && #[trigger] labels[i] == u.schema
        }) by {
            ordered_map::law_put_then_lookup(before, key, t, k);
            if k != key {
                let u = lookup(before, k)->Some_0;
                let i = choose|i: int| 0 <= i < n - 1 && #[trigger] labels[i] == u.schema;
                assert(labels[i] == u.schema);
            }
        }
    }
}

/// The schema and the table of a label.
proof fn lemma_label(s: PlainStoreView, label_id: LabelId)
    requires
        s.labelled(),
    ensures
        s.catalog.node_label(label_id) is None <==> forall|c: int|
            0 <= c < s.catalog.node_labels.len() ==> (
            #[trigger] s.catalog.node_labels[c]).label_id != label_id,
        forall|c: int|
            0 <= c < s.catalog.node_labels.len() && (
            #[trigger] s.catalog.node_labels[c]).label_id == label_id ==> s.catalog.node_label(
                label_id,
            ) == Some(s.catalog.node_labels[c]) && (s.table(label_id) matches Some(t)
                && t.schema == s.catalog.node_labels[c]),
{
    let labels = s.catalog.node_labels;
    let p = s.catalog.node_label_is(label_id);
    search::lemma_first_where(labels.len(), p);
    assert forall|c: int|
        0 <= c < labels.len() && (#[trigger] labels[c]).label_id == label_id implies s.catalog.node_label(
        label_id,
    ) == Some(labels[c]) && (s.table(label_id) matches Some(t) && t.schema == labels[c]) by {
        assert(p(c));
        let i = first_where(labels.len(), p)->Some_0;
        assert(p(i));
        assert(s.table(labels[i].label_id)->Some_0.schema == labels[i]);
        assert(s.table(labels[c].label_id)->Some_0.schema == labels[c]);
    }
    if s.catalog.node_label(label_id) is None {
        assert forall|c: int| 0 <= c < labels.len() implies (#[trigger] labels[c]).label_id
            != label_id by {
            assert(!p(c));
        }
    } else {
        let i = first_where(labels.len(), p)->Some_0;
        assert(p(i));
        assert(labels[i].label_id == label_id);
    }
}

/// A node is read exactly from the tables that have it.
proof fn lemma_read_there(s: PlainStoreView, node_id: NodeId, label_id: LabelId)
    requires
        s.regular(),
    ensures
        s.read(node_id, label_id) is Some <==> (s.table(label_id) matches Some(t) && t.group_with(
            node_id,
        ) is Some),
{
    if s.table(label_id) is Some {
        let i = ordered_map::rank(s.tables, label_id.0 as u64) as int;
        assert(s.tables[i].1.regular());
        node_laws::law_missing_node(s.tables[i].1, node_id);
    }
}

/// Replacing a table by one of the same label keeps which labels there are.
proof fn lemma_still_labelled(s: PlainStoreView, r: PlainStoreView, i: int, t: PlainNodesView)
    requires
        s.regular(),
        s.labelled(),
        0 <= i < s.tables.len(),
        t.schema == s.tables[i].1.schema,
        r == (PlainStoreView { tables: s.tables.update(i, (s.tables[i].0, t)), ..s }),
    ensures
        r.labelled(),
        s.tables[i].0 <= u32::MAX,
        s.table(LabelId(s.tables[i].0 as u32)) == Some(s.tables[i].1),
{
    let labels = s.catalog.node_labels;
    ordered_map::lemma_update_is_put(s.tables, i, t);
    assert forall|x: int| 0 <= x < labels.len() implies (r.table(
        (#[trigger] labels[x]).label_id,
    ) matches Some(u) && u.schema == labels[x]) by {
        assert(s.table(labels[x].label_id)->Some_0.schema == labels[x]);
    }
    assert forall|j: int| 0 <= j < r.tables.len() implies exists|x: int|
        0 <= x < labels.len() && (#[trigger] labels[x]).label_id.0 as u64 == (
        #[trigger] r.tables[j]).0 by {
        assert(r.tables[j].0 == s.tables[j].0);
        let x = choose|x: int|
            0 <= x < labels.len() && (#[trigger] labels[x]).label_id.0 as u64 == (
            #[trigger] s.tables[j]).0;
        assert(labels[x].label_id.0 as u64 == r.tables[j].0);
    }
    let c = choose|c: int|
        0 <= c < labels.len() && (#[trigger] labels[c]).label_id.0 as u64 == (
        #[trigger] s.tables[i]).0;
    assert(labels[c].label_id.0 as u64 == s.tables[i].0);
}

// ---------------------------------------------------------------------------------------------
// Commands

/// What creating a node is for. A label that the catalog does not have is refused, and nothing
/// changes. Otherwise the node is taken exactly if each value is taken by the property in its place;
/// the error names the first that is not. A node that is taken is the last record of its label, with
/// the values of the command, as many as there are properties, and if the label did not have it, it is
/// read back with them. Whatever else is read is read as before, and so is everything if the node is
/// refused.
pub open spec fn node_created(
    s: PlainStoreView,
    r: PlainStoreView,
    result: Result<(), ErrorView>,
    node_id: NodeId,
    label_id: LabelId,
    values: Seq<PropertyView>,
) -> bool {
    let labels = s.catalog.node_labels;
    &&& r.catalog == s.catalog
    &&& (forall|c: int| 0 <= c < labels.len() ==> (#[trigger] labels[c]).label_id != label_id)
        ==> r == s && result == Err::<(), ErrorView>(ErrorView::LabelNotFound { label_id })
    &&& forall|c: int|
        0 <= c < labels.len() && (#[trigger] labels[c]).label_id == label_id ==> {
            let properties = labels[c].properties;
            &&& result is Ok <==> acceptable(properties, values)
            &&& forall|i: int| #[trigger]
                first_refused(properties, values, i) ==> result == Err::<(), ErrorView>(
                    ErrorView::ColumnTypeMismatch {
                        expected: properties[i].data_type,
                        got: values[i].data_type(),
                    },
                )
            &&& result is Ok ==> {
                let last = r.records(label_id).last();
                &&& r.records(label_id) == s.records(label_id).push(last)
                &&& last.node_id == node_id
                &&& holds_values(last.properties, properties.len(), values)
                &&& s.read(node_id, label_id) is None ==> r.read(node_id, label_id) == Some(
                    last.properties,
                )
            }
        }
    &&& forall|x: NodeId, l: LabelId|
        result is Err || x != node_id || l != label_id || s.read(x, l) is Some ==> #[trigger] r.read(
            x,
            l,
        ) == s.read(x, l)
    &&& forall|l: LabelId| #[trigger]
        r.num_nodes(l) == s.num_nodes(l) + if result is Ok && l == label_id {
            1int
        } else {
            0
        }
    &&& forall|l: LabelId|
        result is Err || l != label_id ==> #[trigger] r.records(l) == s.records(l)
}

/// The label is the first that has the node.
pub open spec fn first_label(s: PlainStoreView, node_id: NodeId, label_id: LabelId) -> bool {
    s.read(node_id, label_id) is Some && forall|l: LabelId|
        #[trigger] s.read(node_id, l) is Some ==> label_id.0 <= l.0
}

/// No two records are of the node.
pub open spec fn one_record(records: Seq<NodeRecordView>, node_id: NodeId) -> bool {
    forall|p: int, q: int|
        0 <= p < q < records.len() ==> !((#[trigger] records[p]).node_id == node_id && (
        #[trigger] records[q]).node_id == node_id)
}

/// What deleting a node is for. It fails exactly if no label has the node, and then nothing changes.
/// Otherwise the first of its records goes from the first label that has it, and all others stay in
/// their order; if that was its only record there, it reads as nothing there. Whatever else is read is
/// read as before.
pub open spec fn node_deleted(
    s: PlainStoreView,
    r: PlainStoreView,
    result: Result<(), ErrorView>,
    node_id: NodeId,
) -> bool {
    &&& r.catalog == s.catalog
    &&& (forall|l: LabelId| #[trigger] s.read(node_id, l) is None) ==> r == s && result == Err::<
        (),
        ErrorView,
    >(ErrorView::NodeNotFound { node_id })
    &&& forall|l: LabelId| #[trigger] s.read(node_id, l) is Some ==> result is Ok
    &&& forall|l: LabelId| #[trigger]
        first_label(s, node_id, l) ==> {
            &&& one_record(s.records(l), node_id) ==> r.read(node_id, l) is None
            &&& r.num_nodes(l) == s.num_nodes(l) - 1
            &&& exists|p: int|
                0 <= p < s.records(l).len() && (#[trigger] s.records(l)[p]).node_id == node_id
                    && r.records(l) == s.records(l).remove(p) && forall|q: int|
                    0 <= q < p ==> (#[trigger] s.records(l)[q]).node_id != node_id
        }
    &&& forall|x: NodeId, l: LabelId|
        x != node_id || !first_label(s, node_id, l) ==> #[trigger] r.read(x, l) == s.read(x, l)
    &&& forall|l: LabelId|
        !first_label(s, node_id, l) ==> #[trigger] r.num_nodes(l) == s.num_nodes(l)
    &&& forall|l: LabelId|
        !first_label(s, node_id, l) ==> #[trigger] r.records(l) == s.records(l)
}

/// Creating a node does what it is for.
#[verifier::rlimit(40)]
pub proof fn law_create_node(
    s: PlainStoreView,
    node_id: NodeId,
    label_id: LabelId,
    values: Seq<PropertyView>,
)
    requires
        s.regular(),
        s.labelled(),
    ensures
        ({
            let a = s.apply(CommandView::CreateNode { node_id, label_id, properties: values });
            &&& a.state.regular()
            &&& a.state.labelled()
            &&& node_created(s, a.state, a.result, node_id, label_id, values)
        }),
{
    let a = s.apply(CommandView::CreateNode { node_id, label_id, properties: values });
    let r = a.state;
    let labels = s.catalog.node_labels;
    lemma_label(s, label_id);
    match s.catalog.node_label(label_id) {
        Some(schema) => {
            let is_label = s.catalog.node_label_is(label_id);
            search::lemma_first_where(labels.len(), is_label);
            let c0 = first_where(labels.len(), is_label)->Some_0;
            assert(is_label(c0));
            assert(labels[c0].label_id == label_id);
            let t = s.table(label_id)->Some_0;
            let properties = schema.properties;
            let row = aligned_row(properties.len(), values);
            let at = ordered_map::rank(s.tables, label_id.0 as u64) as int;
            assert(s.tables[at].1.regular());
            row_laws::law_columns_of(properties);
            row_laws::lemma_acceptable(t.columns(), properties, values);
            let u = t.insert(node_id, row).state;
            assert(r.tables =~= s.tables.update(at, (s.tables[at].0, u)));
            assert(u.schema == t.schema);
            lemma_still_labelled(s, r, at, u);
            ordered_map::lemma_update_is_put(s.tables, at, u);
            node_laws::law_create_node(s, node_id, label_id, values, node_id, label_id);
            lemma_read_there(s, node_id, label_id);
            if types_match(t.columns(), row) {
                node_laws::law_insert_then_read(t, node_id, row, node_id);
            } else {
                node_laws::law_mismatch_refused(t, node_id, row, node_id);
            }
            assert forall|x: NodeId, l: LabelId|
                a.result is Err || x != node_id || l != label_id || s.read(x, l) is Some implies #[trigger] r.read(
                x,
                l,
            ) == s.read(x, l) by {
                node_laws::law_create_node(s, node_id, label_id, values, x, l);
            }
            assert forall|l: LabelId| #[trigger]
                r.num_nodes(l) == s.num_nodes(l) + if a.result is Ok && l == label_id {
                    1int
                } else {
                    0
                } by {
                node_laws::law_create_node(s, node_id, label_id, values, node_id, l);
            }
        },
        None => {},
    }
}

/// Deleting a node does what it is for.
#[verifier::rlimit(40)]
pub proof fn law_delete_node(s: PlainStoreView, node_id: NodeId)
    requires
        s.regular(),
        s.labelled(),
    ensures
        ({
            let a = s.apply(CommandView::DeleteNode { node_id });
            &&& a.state.regular()
            &&& a.state.labelled()
            &&& node_deleted(s, a.state, a.result, node_id)
        }),
{
    let a = s.apply(CommandView::DeleteNode { node_id });
    let r = a.state;
    search::lemma_first_where(s.tables.len(), s.table_has(node_id));
    match s.table_with(node_id) {
        Some(i) => {
            let t = s.tables[i].1;
            assert(s.table_has(node_id)(i));
            assert(t.regular());
            let u = t.delete(node_id);
            lemma_still_labelled(s, r, i, u);
            ordered_map::lemma_update_is_put(s.tables, i, u);
            let first = LabelId(s.tables[i].0 as u32);
            node_laws::law_delete_node(s, node_id, first, node_id);
            node_laws::law_delete_hides(t, node_id, node_id);
            lemma_read_there(s, node_id, first);
            assert forall|l: LabelId| #[trigger] s.read(node_id, l) is Some implies first.0 <= l.0 by {
                lemma_read_there(s, node_id, l);
                let j = ordered_map::rank(s.tables, l.0 as u64) as int;
                assert(s.table_has(node_id)(j));
                if i < j {
                    assert(s.tables[i].0 < s.tables[j].0);
                }
            }
            assert forall|l: LabelId| #[trigger] first_label(s, node_id, l) <==> l == first by {
                if first_label(s, node_id, l) {
                    assert(s.read(node_id, first) is Some);
                    assert(l.0 <= first.0);
                }
            }
            let list = t.records();
            assert(s.records(first) == list && r.records(first) == u.records());
            search::lemma_first_where(list.len(), record_of(list, node_id));
            let p = first_where(list.len(), record_of(list, node_id))->Some_0;
            assert(record_of(list, node_id)(p));
            assert(s.records(first)[p].node_id == node_id);
            assert forall|q: int| 0 <= q < p implies (#[trigger] s.records(first)[q]).node_id
                != node_id by {
                assert(!record_of(list, node_id)(q));
            }
            if one_record(list, node_id) {
                lemma_read_there(r, node_id, first);
                if u.group_with(node_id) is Some {
                    node_laws::law_delete_hides(u, node_id, node_id);
                    let rest = u.records();
                    search::lemma_first_where(rest.len(), record_of(rest, node_id));
                    let q = first_where(rest.len(), record_of(rest, node_id))->Some_0;
                    assert(record_of(rest, node_id)(q));
                    let w = if q < p { q } else { q + 1 };
                    assert(list[w].node_id == node_id && list[p].node_id == node_id);
                }
            }
            assert forall|x: NodeId, l: LabelId| x != node_id || !first_label(s, node_id, l) implies #[trigger] r.read(
                x,
                l,
            ) == s.read(x, l) by {
                node_laws::law_delete_node(s, node_id, l, x);
            }
            assert forall|l: LabelId| !first_label(s, node_id, l) implies #[trigger] r.num_nodes(l)
                == s.num_nodes(l) by {
                node_laws::law_delete_node(s, node_id, l, node_id);
            }
        },
        None => {
            assert forall|l: LabelId| #[trigger] s.read(node_id, l) is None by {
                lemma_read_there(s, node_id, l);
                if s.table(l) is Some {
                    let j = ordered_map::rank(s.tables, l.0 as u64) as int;
                    assert(!s.table_has(node_id)(j));
                }
            }
        },
    }
}

} // verus!
