//! What the commands on a database mean: what is read from it before and after them, and which edges
//! its nodes have.

use vstd::prelude::*;

use crate::adjacency::EdgeRef;
use crate::catalog::CatalogView;
use crate::command::CommandView;
use crate::error::{ErrorView, OpenErrorView};
use crate::io::page::Disk;
use crate::ordered_map;
use crate::ordered_map::{lookup, sorted};
use crate::search;
use crate::state::database;
use crate::state::database::{offsets_in_range, ManagerView};
use crate::state::database_laws;
use crate::state::edge_laws;
use crate::state::edge_meaning;
use crate::state::edge_meaning::{
    first_type, ids_differ, near_end, one_record, other_end, resolves,
    with_ref, without_ref,
};
use crate::state::edge_records;
use crate::state::edge_store::{joined_neighbors, EdgeStoreView};
use crate::state::edge_table::{range_of, ranges_records, EdgeTableView};
use crate::state::node_laws;
use crate::state::node_meaning;
use crate::state::node_meaning::{node_created, node_deleted};
use crate::state::node_store::NodeStoreView;
use crate::state::node_table::NodeTableView;
use crate::state::recovery;
use crate::state::recovery::ids_unambiguous;
use crate::storage::edge_records::record_of;
use crate::table::edge::RecordView;
use crate::table::row::{aligned_row, RowView};
use crate::table::row_laws::{acceptable, first_refused, holds_values};
use crate::types::{Direction, EdgeId, LabelId, NodeId, PropertyView};

verus! {

// ---------------------------------------------------------------------------------------------
// What databases are like

impl ManagerView {
    /// The row at an offset of some label was given to the node.
    pub open spec fn owned(self, offset: u64, node_id: NodeId) -> bool {
        exists|i: int|
            0 <= i < self.nodes.tables.len() && (#[trigger] self.nodes.tables[i]).1.row_of(
                offset,
                node_id,
            )
    }

    /// Which nodes were given the rows at which offsets.
    pub open spec fn owners(self) -> spec_fn(u64, NodeId) -> bool {
        |offset: u64, node_id: NodeId| self.owned(offset, node_id)
    }

    /// The offset that edges are created with is the node's.
    pub open spec fn rooted_at(self, node_id: NodeId, offset: u64) -> bool {
        self.edges.offset(node_id) == Some(offset) ==> self.owned(offset, node_id)
    }

    /// Edges stand only at offsets that nodes were given.
    pub open spec fn rooted(self) -> bool {
        &&& forall|x: NodeId, o: u64| #[trigger] self.rooted_at(x, o)
        &&& forall|i: int, o: u64, direction: Direction|
            0 <= i < self.edges.tables.len() && (#[trigger] self.edges.tables[i].1.neighbors(
                o,
                direction,
            )).len() > 0 ==> exists|x: NodeId| self.owned(o, x)
    }

    /// What every database made by commands is like.
    pub open spec fn proper(self) -> bool {
        &&& self.sound()
        &&& self.nodes.tidy()
        &&& self.nodes.labelled()
        &&& self.edges.tidy()
        &&& self.edges.typed()
        &&& self.rooted()
    }

    /// No edge was created again while it was there, and every reference to an edge resolves.
    pub open spec fn faithful(self) -> bool {
        self.proper() && self.edges.homed(self.owners())
    }

    /// Edges can be created from and to the node: it is there, or was when an edge was last created or
    /// deleted.
    pub open spec fn knows(self, node_id: NodeId) -> bool {
        self.nodes.offset(node_id) is Some || self.edges.offset(node_id) is Some
    }

    /// No two labels have the node.
    pub open spec fn of_one_label(self, node_id: NodeId) -> bool {
        forall|l1: LabelId, l2: LabelId| #[trigger]
            self.nodes.read(node_id, l1) is Some && #[trigger] self.nodes.read(node_id, l2) is Some
                ==> l1 == l2
    }

    /// The same is read from the edges.
    pub open spec fn same_edges(self, other: ManagerView) -> bool {
        &&& forall|e: EdgeId, t: LabelId| #[trigger]
            self.edges.read(e, t) == other.edges.read(e, t)
        &&& forall|t: LabelId| #[trigger] self.edges.num_edges(t) == other.edges.num_edges(t)
        &&& forall|t: LabelId| #[trigger] self.edges.records(t) == other.edges.records(t)
        &&& forall|n: NodeId, direction: Direction| #[trigger]
            self.neighbors(n, direction) == other.neighbors(n, direction)
    }
}

/// All entries of the catalog are of one label.
pub open spec fn one_label(catalog: CatalogView) -> bool {
    let labels = catalog.node_labels;
    forall|c: int, d: int|
        0 <= c < labels.len() && 0 <= d < labels.len() ==> (#[trigger] labels[c]).label_id == (
        #[trigger] labels[d]).label_id
}

proof fn lemma_one_table(s: NodeStoreView)
    requires
        s.tidy(),
        s.labelled(),
        one_label(s.catalog),
    ensures
        s.tables.len() <= 1,
{
    if s.tables.len() > 1 {
        let labels = s.catalog.node_labels;
        let a = choose|c: int|
            0 <= c < labels.len() && (#[trigger] labels[c]).label_id.0 as u64 == (
            #[trigger] s.tables[0]).0;
        let b = choose|c: int|
            0 <= c < labels.len() && (#[trigger] labels[c]).label_id.0 as u64 == (
            #[trigger] s.tables[1]).0;
        assert(labels[a].label_id.0 as u64 == s.tables[0].0);
        assert(labels[b].label_id.0 as u64 == s.tables[1].0);
        assert(s.tables[0].0 < s.tables[1].0);
    }
}

/// Stores that are tidy can be worked with.
proof fn lemma_sound(m: ManagerView)
    requires
        m.nodes.tidy(),
        m.nodes.catalog == m.catalog,
        m.edges.tidy(),
        m.edges.catalog == m.catalog,
        sorted(m.edges.offsets),
        offsets_in_range(m.edges.offsets),
    ensures
        m.sound(),
{
    assert forall|i: int| 0 <= i < m.edges.tables.len() implies (
    #[trigger] m.edges.tables[i]).1.sound() by {
        let t = m.edges.tables[i].1;
        assert(t.tidy());
        recovery::lemma_ok_sound(t.fwd, Direction::Forward, t.columns());
        recovery::lemma_ok_sound(t.bwd, Direction::Backward, t.columns());
    }
    assert forall|i: int| 0 <= i < m.nodes.tables.len() implies (
    #[trigger] m.nodes.tables[i]).1.sound() by {
        assert(m.nodes.tables[i].1.tidy());
    }
}

/// A node's offset is that of a row that it was given.
proof fn lemma_offset_owned(m: ManagerView, node_id: NodeId)
    requires
        m.nodes.tidy(),
        m.nodes.offset(node_id) is Some,
    ensures
        m.owned(m.nodes.offset(node_id)->Some_0, node_id),
{
    let s = m.nodes;
    search::lemma_first_where(s.tables.len(), s.table_has(node_id));
    let i = s.table_with(node_id)->Some_0;
    assert(s.table_has(node_id)(i));
    assert(s.tables[i].1.tidy());
    node_meaning::lemma_offset_is_row(s.tables[i].1, node_id);
}

/// In a database of one label, a row was given to one node.
proof fn lemma_one_owner(m: ManagerView, offset: u64, a: NodeId, b: NodeId)
    requires
        m.nodes.tables.len() <= 1,
        m.owned(offset, a),
        m.owned(offset, b),
    ensures
        a == b,
{
}

proof fn lemma_homed_grows(
    s: EdgeStoreView,
    a: spec_fn(u64, NodeId) -> bool,
    b: spec_fn(u64, NodeId) -> bool,
)
    requires
        s.homed(a),
        forall|o: u64, x: NodeId| #[trigger] a(o, x) ==> b(o, x),
    ensures
        s.homed(b),
{
    assert forall|i: int| 0 <= i < s.tables.len() implies ids_differ(
        (#[trigger] s.tables[i]).1.records(),
    ) && s.tables[i].1.homed(b) by {
        let t = s.tables[i].1;
        assert(t.homed(a));
        assert forall|offset: u64, direction: Direction, x: int|
            0 <= x < t.neighbors(offset, direction).len() implies resolves(
            t,
            #[trigger] t.neighbors(offset, direction)[x],
            offset,
            direction,
            b,
        ) by {
            assert(resolves(t, t.neighbors(offset, direction)[x], offset, direction, a));
        }
    }
}

/// The nodes change, and each row stays its node's.
proof fn lemma_nodes_change(m: ManagerView, r: ManagerView)
    requires
        m.proper(),
        r.catalog == m.catalog,
        r.edges == m.edges,
        r.nodes.catalog == m.nodes.catalog,
        r.nodes.tidy(),
        r.nodes.labelled(),
        r.nodes.tables.len() == m.nodes.tables.len(),
        forall|i: int, o: u64, x: NodeId|
            0 <= i < m.nodes.tables.len() && #[trigger] m.nodes.tables[i].1.row_of(o, x)
                ==> r.nodes.tables[i].1.row_of(o, x),
    ensures
        r.proper(),
        m.faithful() ==> r.faithful(),
        forall|o: u64, x: NodeId| #[trigger] m.owned(o, x) ==> r.owned(o, x),
{
    assert forall|o: u64, x: NodeId| #[trigger] m.owned(o, x) implies r.owned(o, x) by {
        let i = choose|i: int|
            0 <= i < m.nodes.tables.len() && (#[trigger] m.nodes.tables[i]).1.row_of(o, x);
        assert(m.nodes.tables[i].1.row_of(o, x));
        assert(r.nodes.tables[i].1.row_of(o, x));
    }
    assert forall|x: NodeId, o: u64| #[trigger] r.rooted_at(x, o) by {
        assert(m.rooted_at(x, o));
    }
    assert forall|i: int, o: u64, direction: Direction|
        0 <= i < r.edges.tables.len() && (#[trigger] r.edges.tables[i].1.neighbors(
            o,
            direction,
        )).len() > 0 implies exists|x: NodeId| r.owned(o, x) by {
        assert(m.edges.tables[i].1.neighbors(o, direction).len() > 0);
        let x = choose|x: NodeId| m.owned(o, x);
        assert(r.owned(o, x));
    }
    lemma_sound(r);
    if m.faithful() {
        assert forall|o: u64, x: NodeId| #[trigger] m.owners()(o, x) implies r.owners()(o, x) by {
            assert(m.owned(o, x));
        }
        lemma_homed_grows(m.edges, m.owners(), r.owners());
    }
}

/// No table has an edge where none stands.
proof fn lemma_joined_empty(s: EdgeStoreView, n: nat, offset: u64, direction: Direction)
    requires
        n <= s.tables.len(),
        forall|i: int|
            0 <= i < s.tables.len() ==> (#[trigger] s.tables[i].1.neighbors(
                offset,
                direction,
            )).len() == 0,
    ensures
        joined_neighbors(s.tables, n, offset, direction).len() == 0,
    decreases n,
{
    if n > 0 {
        lemma_joined_empty(s, (n - 1) as nat, offset, direction);
        assert(s.tables[n - 1].1.neighbors(offset, direction).len() == 0);
    }
}

// ---------------------------------------------------------------------------------------------
// New databases

/// From a new database nothing is read, and no node has edges.
pub proof fn law_new_database(catalog: CatalogView)
    requires
        ids_unambiguous(catalog),
    ensures
        ({
            let m = ManagerView::empty(catalog);
            &&& m.faithful()
            &&& m.edges.unspoilt()
            &&& m.catalog == catalog
            &&& forall|n: NodeId, l: LabelId| #[trigger] m.nodes.read(n, l) is None
            &&& forall|l: LabelId| #[trigger] m.nodes.num_nodes(l) == 0
            &&& forall|l: LabelId| (#[trigger] m.nodes.records(l)).len() == 0
            &&& forall|n: NodeId| !#[trigger] m.knows(n)
            &&& forall|e: EdgeId, t: LabelId| #[trigger] m.edges.read(e, t) is None
            &&& forall|t: LabelId| #[trigger] m.edges.num_edges(t) == 0
            &&& forall|t: LabelId| (#[trigger] m.edges.records(t)).len() == 0
            &&& forall|n: NodeId, direction: Direction|
                (#[trigger] m.neighbors(n, direction)).len() == 0
        }),
{
    let m = ManagerView::empty(catalog);
    let labels = catalog.node_labels;
    let types = catalog.edge_types;
    recovery::lemma_new_node_tables(labels, labels.len());
    recovery::lemma_new_edge_tables(types, types.len());
    recovery::lemma_new_labelled(catalog, Seq::empty());
    recovery::lemma_new_typed(catalog, Seq::empty());
    assert forall|i: int| 0 <= i < m.nodes.tables.len() implies (
    #[trigger] m.nodes.tables[i]).1.tidy() by {
        node_laws::law_empty_tidy(m.nodes.tables[i].1.schema);
    }
    assert forall|i: int| 0 <= i < m.edges.tables.len() implies (
    #[trigger] m.edges.tables[i]).1.tidy() && m.edges.tables[i].1.unspoilt() by {
        edge_laws::law_empty_tidy(m.edges.tables[i].1.schema, EdgeId(0), 0);
        edge_laws::law_empty_unspoilt(m.edges.tables[i].1.schema);
    }
    lemma_sound(m);
    assert forall|x: NodeId, o: u64| #[trigger] m.rooted_at(x, o) by {}
    assert forall|i: int, o: u64, direction: Direction| 0 <= i < m.edges.tables.len() implies (
    #[trigger] m.edges.tables[i].1.neighbors(o, direction)).len() == 0 by {
        edge_laws::law_empty_tidy(m.edges.tables[i].1.schema, EdgeId(0), o);
    }
    assert forall|i: int| 0 <= i < m.edges.tables.len() implies ids_differ(
        (#[trigger] m.edges.tables[i]).1.records(),
    ) && m.edges.tables[i].1.homed(m.owners()) by {
        let t = m.edges.tables[i].1;
        assert(t.records().len() == 0);
        assert forall|offset: u64, direction: Direction, x: int|
            0 <= x < t.neighbors(offset, direction).len() implies resolves(
            t,
            #[trigger] t.neighbors(offset, direction)[x],
            offset,
            direction,
            m.owners(),
        ) by {
            assert(m.edges.tables[i].1.neighbors(offset, direction).len() == 0);
        }
    }
    assert forall|n: NodeId| m.nodes.offset(n) is None by {
        search::lemma_first_where(m.nodes.tables.len(), m.nodes.table_has(n));
        if m.nodes.table_with(n) is Some {
            let i = m.nodes.table_with(n)->Some_0;
            assert(m.nodes.table_has(n)(i));
            assert(m.nodes.tables[i].1 == NodeTableView::empty(m.nodes.tables[i].1.schema));
        }
    }
    assert forall|n: NodeId, l: LabelId| #[trigger] m.nodes.read(n, l) is None by {
        if m.nodes.table(l) is Some {
            let i = ordered_map::rank(m.nodes.tables, l.0 as u64) as int;
            assert(m.nodes.tables[i].1 == NodeTableView::empty(m.nodes.tables[i].1.schema));
        }
    }
    assert forall|l: LabelId| #[trigger] m.nodes.num_nodes(l) == 0 by {
        if m.nodes.table(l) is Some {
            let i = ordered_map::rank(m.nodes.tables, l.0 as u64) as int;
            node_laws::law_empty_tidy(m.nodes.tables[i].1.schema);
        }
    }
    assert forall|l: LabelId| (#[trigger] m.nodes.records(l)).len() == 0 by {
        if m.nodes.table(l) is Some {
            let i = ordered_map::rank(m.nodes.tables, l.0 as u64) as int;
            assert(m.nodes.tables[i].1 == NodeTableView::empty(m.nodes.tables[i].1.schema));
        }
    }
    assert forall|e: EdgeId, t: LabelId| #[trigger] m.edges.read(e, t) is None by {
        if m.edges.table(t) is Some {
            let i = ordered_map::rank(m.edges.tables, t.0 as u64) as int;
            edge_laws::law_empty_tidy(m.edges.tables[i].1.schema, e, 0);
            edge_meaning::lemma_edge_there(m.edges, e, t);
            edge_laws::law_read_is_present(m.edges.tables[i].1, e, 0);
        }
    }
    assert forall|t: LabelId| #[trigger] m.edges.num_edges(t) == 0 by {
        if m.edges.table(t) is Some {
            let i = ordered_map::rank(m.edges.tables, t.0 as u64) as int;
            edge_laws::law_empty_tidy(m.edges.tables[i].1.schema, EdgeId(0), 0);
        }
    }
    assert forall|t: LabelId| (#[trigger] m.edges.records(t)).len() == 0 by {
        if m.edges.table(t) is Some {
            let i = ordered_map::rank(m.edges.tables, t.0 as u64) as int;
            assert(m.edges.tables[i].1 == EdgeTableView::empty(m.edges.tables[i].1.schema));
        }
    }
}

// ---------------------------------------------------------------------------------------------
// Nodes

/// Creating a node does to the nodes of a database what it is for, and nothing to its edges. Every
/// other node has the edges that it had; if all nodes are of one label, a node that was created has
/// none.
pub proof fn law_create_node(
    m: ManagerView,
    node_id: NodeId,
    label_id: LabelId,
    values: Seq<PropertyView>,
)
    requires
        m.proper(),
        m.nodes.has_room(CommandView::CreateNode { node_id, label_id, properties: values }),
    ensures
        ({
            let a = m.apply(CommandView::CreateNode { node_id, label_id, properties: values });
            &&& a.state.proper()
            &&& m.faithful() ==> a.state.faithful()
            &&& a.state.catalog == m.catalog
            &&& a.state.edges == m.edges
            &&& node_created(m.nodes, a.state.nodes, a.result, node_id, label_id, values)
            &&& forall|n: NodeId, direction: Direction|
                n != node_id || a.result is Err ==> #[trigger] a.state.neighbors(n, direction)
                    == m.neighbors(n, direction)
            &&& forall|direction: Direction|
                a.result is Ok && one_label(m.catalog) ==> (#[trigger] a.state.neighbors(
                    node_id,
                    direction,
                )).len() == 0
        }),
{
    let cmd = CommandView::CreateNode { node_id, label_id, properties: values };
    let a = m.apply(cmd);
    let r = a.state;
    let s = m.nodes;
    node_meaning::law_create_node(s, node_id, label_id, values);
    node_meaning::lemma_label(s, label_id);
    match s.catalog.node_label(label_id) {
        Some(schema) => {
            let labels = s.catalog.node_labels;
            let p0 = s.catalog.node_label_is(label_id);
            search::lemma_first_where(labels.len(), p0);
            let c0 = search::first_where(labels.len(), p0)->Some_0;
            assert(p0(c0));
            assert(labels[c0].label_id == label_id);
            let t = s.table(label_id)->Some_0;
            let row = aligned_row(schema.properties.len(), values);
            let at = ordered_map::rank(s.tables, label_id.0 as u64) as int;
            assert(s.tables[at].1.tidy());
            let u = t.insert(node_id, row).state;
            assert(r.nodes.tables =~= s.tables.update(at, (s.tables[at].0, u)));
            node_meaning::lemma_insert_rows(t, node_id, row);
            lemma_nodes_change(m, r);
            if a.result is Ok && one_label(m.catalog) {
                lemma_one_table(s);
                lemma_one_table(r.nodes);
                search::lemma_first_where(r.nodes.tables.len(), r.nodes.table_has(node_id));
                assert(r.nodes.table_has(node_id)(at));
                let o = r.nodes.offset(node_id)->Some_0;
                assert(u.offset(node_id) == Some(o));
                assert forall|x: NodeId| !m.owned(o, x) by {
                    if m.owned(o, x) {
                        assert(t.row_of(o, x));
                    }
                }
                assert forall|direction: Direction| (#[trigger] r.neighbors(
                    node_id,
                    direction,
                )).len() == 0 by {
                    assert forall|i: int| 0 <= i < m.edges.tables.len() implies (
                    #[trigger] m.edges.tables[i].1.neighbors(o, direction)).len() == 0 by {
                        if m.edges.tables[i].1.neighbors(o, direction).len() > 0 {
                            let x = choose|x: NodeId| m.owned(o, x);
                            assert(m.owned(o, x));
                        }
                    }
                    lemma_joined_empty(m.edges, m.edges.tables.len(), o, direction);
                }
            }
        },
        None => {},
    }
}

/// Deleting a node does to the nodes of a database what it is for, and nothing to its edges. Every
/// other node has the edges that it had; a node of one label has none any more.
pub proof fn law_delete_node(m: ManagerView, node_id: NodeId)
    requires
        m.proper(),
    ensures
        ({
            let a = m.apply(CommandView::DeleteNode { node_id });
            &&& a.state.proper()
            &&& m.faithful() ==> a.state.faithful()
            &&& a.state.catalog == m.catalog
            &&& a.state.edges == m.edges
            &&& node_deleted(m.nodes, a.state.nodes, a.result, node_id)
            &&& forall|n: NodeId, direction: Direction|
                n != node_id ==> #[trigger] a.state.neighbors(n, direction) == m.neighbors(
                    n,
                    direction,
                )
            &&& forall|direction: Direction|
                m.of_one_label(node_id) ==> (#[trigger] a.state.neighbors(
                    node_id,
                    direction,
                )).len() == 0
        }),
{
    let a = m.apply(CommandView::DeleteNode { node_id });
    let r = a.state;
    let s = m.nodes;
    node_meaning::law_delete_node(s, node_id);
    search::lemma_first_where(s.tables.len(), s.table_has(node_id));
    match s.table_with(node_id) {
        Some(i) => {
            let t = s.tables[i].1;
            assert(t.tidy());
            node_meaning::lemma_delete_rows(t, node_id);
            assert forall|j: int, o: u64, x: NodeId|
                0 <= j < s.tables.len() && #[trigger] s.tables[j].1.row_of(o, x) implies r.nodes.tables[j].1.row_of(
                o,
                x,
            ) by {
                if j != i {
                    assert(r.nodes.tables[j] == s.tables[j]);
                }
            }
            lemma_nodes_change(m, r);
        },
        None => {},
    }
}

// ---------------------------------------------------------------------------------------------
// Edges

/// The edge store that a command on edges is given.
spec fn informed(m: ManagerView) -> EdgeStoreView {
    m.edges.with_offsets(m.nodes.offsets())
}

/// What the edge store is told of nodes.
proof fn lemma_informed(m: ManagerView)
    requires
        m.proper(),
    ensures
        ({
            let s = informed(m);
            &&& s.tables == m.edges.tables
            &&& s.catalog == m.catalog
            &&& s.tidy()
            &&& s.typed()
            &&& sorted(s.offsets)
            &&& offsets_in_range(s.offsets)
            &&& forall|x: NodeId| #[trigger] s.offset(x) is Some <==> m.knows(x)
            &&& forall|x: NodeId, o: u64| #[trigger]
                s.offset(x) == Some(o) ==> #[trigger] m.owned(o, x)
            &&& forall|x: NodeId|
                m.nodes.offset(x) is Some && m.of_one_label(x) ==> #[trigger] s.offset(x)
                    == m.nodes.offset(x)
        }),
{
    let s = informed(m);
    let tables = m.nodes.tables;
    let merged = m.nodes.offsets();
    database::lemma_with_offsets_in_range(m);
    assert forall|i: int| 0 <= i < tables.len() implies sorted((#[trigger] tables[i]).1.offsets) by {
        assert(tables[i].1.sound());
    }
    let types = m.catalog.edge_types;
    assert forall|c: int| 0 <= c < types.len() implies (s.table(
        (#[trigger] types[c]).label_id,
    ) matches Some(t) && t.schema == types[c]) by {
        assert(m.edges.table(types[c].label_id)->Some_0.schema == types[c]);
    }
    assert forall|x: NodeId| #[trigger] s.offset(x) is Some <==> m.knows(x) by {
        lemma_informed_at(m, x);
    }
    assert forall|x: NodeId, o: u64| #[trigger] s.offset(x) == Some(o) implies #[trigger] m.owned(
        o,
        x,
    ) by {
        lemma_informed_at(m, x);
    }
    assert forall|x: NodeId| m.nodes.offset(x) is Some && m.of_one_label(x) implies #[trigger] s.offset(
        x,
    ) == m.nodes.offset(x) by {
        assert(m.nodes.of_one_label(x)) by {
            assert forall|i: int, j: int|
                0 <= i < tables.len() && 0 <= j < tables.len() && (#[trigger] tables[i]).1.offset(
                    x,
                ) is Some && (#[trigger] tables[j]).1.offset(x) is Some implies i == j by {
                node_meaning::lemma_key(m.nodes, i);
                node_meaning::lemma_key(m.nodes, j);
                let a = LabelId(tables[i].0 as u32);
                let b = LabelId(tables[j].0 as u32);
                node_meaning::lemma_read_there(m.nodes, x, a);
                node_meaning::lemma_read_there(m.nodes, x, b);
                assert(m.nodes.read(x, a) is Some && m.nodes.read(x, b) is Some);
                ordered_map::lemma_rank_at(tables, i);
                ordered_map::lemma_rank_at(tables, j);
            }
        }
        database_laws::lemma_known_offset(m, x);
    }
}

proof fn lemma_informed_at(m: ManagerView, x: NodeId)
    requires
        m.proper(),
    ensures
        informed(m).offset(x) is Some <==> m.knows(x),
        informed(m).offset(x) matches Some(o) ==> m.owned(o, x),
{
    let s = informed(m);
    let tables = m.nodes.tables;
    let merged = m.nodes.offsets();
    assert forall|i: int| 0 <= i < tables.len() implies sorted((#[trigger] tables[i]).1.offsets) by {
        assert(tables[i].1.sound());
    }
    database_laws::lemma_merged_lookup(tables, tables.len(), x.0);
    ordered_map::law_put_upto_then_lookup(m.edges.offsets, merged, merged.len(), x.0);
    search::lemma_first_where(tables.len(), m.nodes.table_has(x));
    match lookup(merged, x.0) {
        Some(o) => {
            let i = choose|i: int|
                0 <= i < tables.len() && lookup((#[trigger] tables[i]).1.offsets, x.0) == Some(o);
            assert(tables[i].1.offset(x) == Some(o));
            assert(m.nodes.table_has(x)(i));
            let j = m.nodes.table_with(x)->Some_0;
            assert(m.nodes.table_has(x)(j));
            assert(tables[i].1.tidy());
            node_meaning::lemma_offset_is_row(tables[i].1, x);
            assert(m.owned(o, x));
        },
        None => {
            if m.nodes.offset(x) is Some {
                let j = m.nodes.table_with(x)->Some_0;
                assert(m.nodes.table_has(x)(j));
                assert(lookup(tables[j].1.offsets, x.0) is None);
            }
            if m.edges.offset(x) is Some {
                assert(m.rooted_at(x, m.edges.offset(x)->Some_0));
            }
        },
    }
}

/// What creating an edge in a database is for; see [`edge_created`]. The edge is one more of the edges
/// that leave its source, if that is there and of one label, and of those that reach its destination.
/// Every node with another offset has the edges that it had; if all nodes are of one label, that is
/// every other node. Which nodes are known stays.
pub open spec fn edge_created_in(
    m: ManagerView,
    r: ManagerView,
    result: Result<(), ErrorView>,
    edge_id: EdgeId,
    type_id: LabelId,
    from: NodeId,
    to: NodeId,
    values: Seq<PropertyView>,
) -> bool {
    let types = m.catalog.edge_types;
    let unknown = forall|c: int| 0 <= c < types.len() ==> (#[trigger] types[c]).label_id != type_id;
    &&& r.catalog == m.catalog
    &&& r.nodes == m.nodes
    &&& result is Err ==> r.same_edges(m)
    &&& !m.knows(from) ==> result == Err::<(), ErrorView>(
        ErrorView::NodeNotFound { node_id: from },
    )
    &&& m.knows(from) && !m.knows(to) ==> result == Err::<(), ErrorView>(
        ErrorView::NodeNotFound { node_id: to },
    )
    &&& m.knows(from) && m.knows(to) && unknown ==> result == Err::<(), ErrorView>(
        ErrorView::LabelNotFound { label_id: type_id },
    )
    &&& forall|c: int|
        m.knows(from) && m.knows(to) && 0 <= c < types.len() && (#[trigger] types[c]).label_id
            == type_id ==> {
            let properties = types[c].properties;
            &&& result is Ok ==> acceptable(properties, values)
            &&& m.edges.unspoilt() && acceptable(properties, values) ==> result is Ok
            &&& forall|i: int|
                m.edges.unspoilt() && #[trigger] first_refused(properties, values, i) ==> result
                    == Err::<(), ErrorView>(
                    ErrorView::ColumnTypeMismatch {
                        expected: properties[i].data_type,
                        got: values[i].data_type(),
                    },
                )
            &&& result is Ok && m.edges.read(edge_id, type_id) is None ==> (r.edges.read(
                edge_id,
                type_id,
            ) matches Some(record) && record.edge_id == edge_id && record.from == from && record.to
                == to && (m.edges.unspoilt() ==> holds_values(
                record.properties,
                properties.len(),
                values,
            )))
        }
    &&& forall|e: EdgeId, t: LabelId|
        e != edge_id || t != type_id ==> #[trigger] r.edges.read(e, t) == m.edges.read(e, t)
    &&& forall|t: LabelId| #[trigger]
        r.edges.num_edges(t) == m.edges.num_edges(t) + if result is Ok && t == type_id {
            1int
        } else {
            0
        }
    &&& forall|t: LabelId| t != type_id ==> #[trigger] r.edges.records(t) == m.edges.records(t)
    &&& result is Ok ==> exists|p: int, record: RecordView|
        0 <= p <= m.edges.records(type_id).len() && record.edge_id == edge_id && record.from
            == from && record.to == to && r.edges.records(type_id)
            == #[trigger] m.edges.records(type_id).insert(p, record)
    &&& result is Ok && m.nodes.offset(from) is Some && m.of_one_label(from) ==> with_ref(
        m.neighbors(from, Direction::Forward),
        r.neighbors(from, Direction::Forward),
        EdgeRef { edge_id, type_id, neighbor: to },
    )
    &&& result is Ok && m.nodes.offset(to) is Some && m.of_one_label(to) ==> with_ref(
        m.neighbors(to, Direction::Backward),
        r.neighbors(to, Direction::Backward),
        EdgeRef { edge_id, type_id, neighbor: from },
    )
    &&& forall|n: NodeId|
        n != from && one_label(m.catalog) ==> #[trigger] r.neighbors(n, Direction::Forward)
            == m.neighbors(n, Direction::Forward)
    &&& forall|n: NodeId|
        n != to && one_label(m.catalog) ==> #[trigger] r.neighbors(n, Direction::Backward)
            == m.neighbors(n, Direction::Backward)
    &&& forall|n: NodeId|
        m.nodes.offset(from) is Some && m.of_one_label(from) && m.nodes.offset(n)
            != m.nodes.offset(from) ==> #[trigger] r.neighbors(n, Direction::Forward)
            == m.neighbors(n, Direction::Forward)
    &&& forall|n: NodeId|
        m.nodes.offset(to) is Some && m.of_one_label(to) && m.nodes.offset(n) != m.nodes.offset(to)
            ==> #[trigger] r.neighbors(n, Direction::Backward) == m.neighbors(
            n,
            Direction::Backward,
        )
    &&& forall|n: NodeId| #[trigger] r.knows(n) == m.knows(n)
}

/// Creating an edge does to a database what it is for, and nothing to its nodes. If the edge was not
/// there, every reference still resolves, and if it is taken, no values are left behind.
#[verifier::rlimit(60)]
pub proof fn law_create_edge(
    m: ManagerView,
    edge_id: EdgeId,
    type_id: LabelId,
    from: NodeId,
    to: NodeId,
    values: Seq<PropertyView>,
)
    requires
        m.proper(),
    ensures
        ({
            let cmd = CommandView::CreateEdge { edge_id, type_id, from, to, properties: values };
            let a = m.apply(cmd);
            &&& a.state.proper()
            &&& edge_created_in(m, a.state, a.result, edge_id, type_id, from, to, values)
            &&& m.faithful() && m.edges.read(edge_id, type_id) is None ==> a.state.faithful()
            &&& m.edges.unspoilt() && a.result is Ok ==> a.state.edges.unspoilt()
        }),
{
    let cmd = CommandView::CreateEdge { edge_id, type_id, from, to, properties: values };
    let a = m.apply(cmd);
    let r = a.state;
    let s = informed(m);
    lemma_informed(m);
    database::lemma_in_range_has_room(s, cmd);
    edge_meaning::law_create_edge(s, edge_id, type_id, from, to, values);
    assert(r.edges == s.apply(cmd).state);
    assert forall|e: EdgeId, t: LabelId| s.read(e, t) == m.edges.read(e, t) by {}
    assert forall|o: u64, direction: Direction| #[trigger] s.neighbors(o, direction)
        == m.edges.neighbors(o, direction) by {}
    assert(s.unspoilt() == m.edges.unspoilt());
    lemma_edges_change(m, edge_id, type_id, from, to, values);
    if a.result is Err {
        assert(r.same_edges(m)) by {
            assert forall|n: NodeId, direction: Direction| #[trigger] r.neighbors(n, direction)
                == m.neighbors(n, direction) by {
                match m.nodes.offset(n) {
                    Some(o) => {
                        match direction {
                            Direction::Forward => {
                                assert(r.edges.neighbors(o, Direction::Forward) == s.neighbors(
                                    o,
                                    Direction::Forward,
                                ));
                            },
                            Direction::Backward => {
                                assert(r.edges.neighbors(o, Direction::Backward) == s.neighbors(
                                    o,
                                    Direction::Backward,
                                ));
                            },
                        }
                    },
                    None => {},
                }
            }
        }
    }
    assert forall|n: NodeId| #[trigger] r.knows(n) == m.knows(n) by {
        assert(r.edges.offset(n) == s.offset(n));
    }
    assert forall|n: NodeId|
        m.nodes.offset(from) is Some && m.of_one_label(from) && m.nodes.offset(n)
            != m.nodes.offset(from) implies #[trigger] r.neighbors(n, Direction::Forward)
        == m.neighbors(n, Direction::Forward) by {
        if m.nodes.offset(n) is Some {
            let o = m.nodes.offset(n)->Some_0;
            assert(s.offset(from) == m.nodes.offset(from));
            assert(r.edges.neighbors(o, Direction::Forward) == s.neighbors(o, Direction::Forward));
        }
    }
    assert forall|n: NodeId|
        m.nodes.offset(to) is Some && m.of_one_label(to) && m.nodes.offset(n) != m.nodes.offset(
            to,
        ) implies #[trigger] r.neighbors(n, Direction::Backward) == m.neighbors(
        n,
        Direction::Backward,
    ) by {
        if m.nodes.offset(n) is Some {
            let o = m.nodes.offset(n)->Some_0;
            assert(s.offset(to) == m.nodes.offset(to));
            assert(r.edges.neighbors(o, Direction::Backward) == s.neighbors(
                o,
                Direction::Backward,
            ));
        }
    }
    if one_label(m.catalog) {
        lemma_one_table(m.nodes);
        assert forall|n: NodeId| n != from implies #[trigger] r.neighbors(n, Direction::Forward)
            == m.neighbors(n, Direction::Forward) by {
            if m.nodes.offset(n) is Some {
                let o = m.nodes.offset(n)->Some_0;
                lemma_offset_owned(m, n);
                if s.offset(from) == Some(o) {
                    assert(m.owned(o, from));
                    lemma_one_owner(m, o, n, from);
                }
                assert(r.edges.neighbors(o, Direction::Forward) == s.neighbors(
                    o,
                    Direction::Forward,
                ));
            }
        }
        assert forall|n: NodeId| n != to implies #[trigger] r.neighbors(n, Direction::Backward)
            == m.neighbors(n, Direction::Backward) by {
            if m.nodes.offset(n) is Some {
                let o = m.nodes.offset(n)->Some_0;
                lemma_offset_owned(m, n);
                if s.offset(to) == Some(o) {
                    assert(m.owned(o, to));
                    lemma_one_owner(m, o, n, to);
                }
                assert(r.edges.neighbors(o, Direction::Backward) == s.neighbors(
                    o,
                    Direction::Backward,
                ));
            }
        }
    }
    if a.result is Ok && m.nodes.offset(from) is Some && m.of_one_label(from) {
        let o = m.nodes.offset(from)->Some_0;
        assert(s.offset(from) == Some(o));
        assert(with_ref(
            s.neighbors(o, Direction::Forward),
            r.edges.neighbors(o, Direction::Forward),
            EdgeRef { edge_id, type_id, neighbor: to },
        ));
    }
    if a.result is Ok && m.nodes.offset(to) is Some && m.of_one_label(to) {
        let o = m.nodes.offset(to)->Some_0;
        assert(s.offset(to) == Some(o));
        assert(with_ref(
            s.neighbors(o, Direction::Backward),
            r.edges.neighbors(o, Direction::Backward),
            EdgeRef { edge_id, type_id, neighbor: from },
        ));
    }
    if a.result is Ok {
        let (p, record) = choose|p: int, record: RecordView|
            0 <= p <= s.records(type_id).len() && record.edge_id == edge_id && record.from == from
                && record.to == to && r.edges.records(type_id)
                == #[trigger] s.records(type_id).insert(p, record);
        assert(r.edges.records(type_id) == m.edges.records(type_id).insert(p, record));
    }
}

/// What a database made by commands is like, after an edge was created.
proof fn lemma_edges_change(
    m: ManagerView,
    edge_id: EdgeId,
    type_id: LabelId,
    from: NodeId,
    to: NodeId,
    values: Seq<PropertyView>,
)
    requires
        m.proper(),
    ensures
        ({
            let cmd = CommandView::CreateEdge { edge_id, type_id, from, to, properties: values };
            let a = m.apply(cmd);
            &&& a.state.proper()
            &&& m.faithful() && m.edges.read(edge_id, type_id) is None ==> a.state.faithful()
            &&& m.edges.unspoilt() && a.result is Ok ==> a.state.edges.unspoilt()
        }),
{
    let cmd = CommandView::CreateEdge { edge_id, type_id, from, to, properties: values };
    let a = m.apply(cmd);
    let r = a.state;
    let s = informed(m);
    lemma_informed(m);
    database::lemma_in_range_has_room(s, cmd);
    edge_meaning::law_create_edge(s, edge_id, type_id, from, to, values);
    assert(r.edges == s.apply(cmd).state);
    lemma_sound(r);
    assert forall|o: u64, x: NodeId| #[trigger] m.owned(o, x) == r.owned(o, x) by {}
    assert(m.owners() =~= r.owners());
    assert forall|x: NodeId, o: u64| #[trigger] r.rooted_at(x, o) by {
        assert(r.edges.offset(x) == s.offset(x));
        if s.offset(x) == Some(o) {
            assert(m.owned(o, x));
        }
    }
    if r.edges.tables == m.edges.tables {
        assert forall|i: int, o: u64, direction: Direction|
            0 <= i < r.edges.tables.len() && (#[trigger] r.edges.tables[i].1.neighbors(
                o,
                direction,
            )).len() > 0 implies exists|x: NodeId| r.owned(o, x) by {
            assert(m.edges.tables[i].1.neighbors(o, direction).len() > 0);
            let x = choose|x: NodeId| m.owned(o, x);
            assert(r.owned(o, x));
        }
    } else {
        let f = s.offset(from)->Some_0;
        let b = s.offset(to)->Some_0;
        let schema = s.catalog.edge_type(type_id)->Some_0;
        let t = s.table(type_id)->Some_0;
        let row = aligned_row(schema.properties.len(), values);
        let at = ordered_map::rank(s.tables, type_id.0 as u64) as int;
        assert(s.tables[at].1.tidy());
        let i = t.insert(edge_id, from, to, f, b, row);
        let u = i.state;
        assert(r.edges.tables =~= s.tables.update(at, (s.tables[at].0, u)));
        assert(m.owned(f, from) && m.owned(b, to));
        assert forall|j: int, o: u64, direction: Direction|
            0 <= j < r.edges.tables.len() && (#[trigger] r.edges.tables[j].1.neighbors(
                o,
                direction,
            )).len() > 0 implies exists|x: NodeId| r.owned(o, x) by {
            if j == at {
                edge_laws::lemma_insert_both(t, edge_id, from, to, f, b, row, o);
                if o == f && direction == Direction::Forward {
                    assert(r.owned(o, from));
                } else if o == b && direction == Direction::Backward {
                    assert(r.owned(o, to));
                } else {
                    assert(u.neighbors(o, direction) == t.neighbors(o, direction));
                    assert(m.edges.tables[j].1.neighbors(o, direction).len() > 0);
                    let x = choose|x: NodeId| m.owned(o, x);
                    assert(r.owned(o, x));
                }
            } else {
                assert(r.edges.tables[j] == m.edges.tables[j]);
                assert(m.edges.tables[j].1.neighbors(o, direction).len() > 0);
                let x = choose|x: NodeId| m.owned(o, x);
                assert(r.owned(o, x));
            }
        }
        if m.faithful() && m.edges.read(edge_id, type_id) is None {
            edge_meaning::lemma_edge_there(s, edge_id, type_id);
            assert(m.edges.tables[at].1.homed(m.owners()));
            assert(m.owners()(f, from) && m.owners()(b, to));
            edge_meaning::lemma_insert_homed(t, edge_id, from, to, f, b, row, m.owners());
            lemma_insert_differ(t, edge_id, from, to, f, b, row);
            assert forall|j: int| 0 <= j < r.edges.tables.len() implies ids_differ(
                (#[trigger] r.edges.tables[j]).1.records(),
            ) && r.edges.tables[j].1.homed(r.owners()) by {
                if j != at {
                    assert(r.edges.tables[j] == m.edges.tables[j]);
                }
            }
        }
        if m.edges.unspoilt() && a.result is Ok {
            assert(m.edges.tables[at].1.unspoilt());
            edge_laws::law_unspoilt(t, edge_id, from, to, f, b, row);
            assert forall|j: int| 0 <= j < r.edges.tables.len() implies (
            #[trigger] r.edges.tables[j]).1.unspoilt() by {
                if j != at {
                    assert(r.edges.tables[j] == m.edges.tables[j]);
                }
            }
        }
    }
}

/// A new edge is no second record of another.
proof fn lemma_insert_differ(
    t: EdgeTableView,
    edge_id: EdgeId,
    from: NodeId,
    to: NodeId,
    from_offset: u64,
    to_offset: u64,
    values: RowView,
)
    requires
        t.tidy(),
        ids_differ(t.records()),
        range_of(from_offset) < 0xffff_ffff_ffff,
        range_of(to_offset) < 0xffff_ffff_ffff,
        t.read(edge_id) == Ok::<Option<RecordView>, ErrorView>(None),
    ensures
        ids_differ(t.insert(edge_id, from, to, from_offset, to_offset, values).state.records()),
{
    let i = t.insert(edge_id, from, to, from_offset, to_offset, values);
    edge_records::law_insert_record(t, edge_id, from, to, from_offset, to_offset, values);
    edge_records::law_delete_record(t, edge_id);
    let before = t.records();
    let same = record_of(before, edge_id);
    search::lemma_first_where(before.len(), same);
    if i.result is Ok {
        let n = ordered_map::rank(t.fwd, (range_of(from_offset) + 1) as u64);
        let p = ranges_records(t.fwd, n).len() as int;
        let after = i.state.records();
        let record = after[p];
        assert forall|x: int| 0 <= x < before.len() implies (#[trigger] before[x]).edge_id
            != edge_id by {
            assert(!same(x));
        }
        assert forall|x: int, y: int|
            0 <= x < after.len() && 0 <= y < after.len() && (#[trigger] after[x]).edge_id == (
            #[trigger] after[y]).edge_id implies x == y by {
            let x0 = if x < p {
                x
            } else {
                x - 1
            };
            let y0 = if y < p {
                y
            } else {
                y - 1
            };
            if x != p {
                assert(after[x] == before[x0]);
            }
            if y != p {
                assert(after[y] == before[y0]);
            }
        }
    }
}

/// What deleting an edge from a database is for; see [`edge_deleted`]. If it had one record, no node has
/// it among its edges any more, and all others stay in their order.
pub open spec fn edge_deleted_in(
    m: ManagerView,
    r: ManagerView,
    result: Result<(), ErrorView>,
    edge_id: EdgeId,
) -> bool {
    &&& r.catalog == m.catalog
    &&& r.nodes == m.nodes
    &&& (forall|t: LabelId| #[trigger] m.edges.read(edge_id, t) is None) ==> r.same_edges(m)
        && result == Err::<(), ErrorView>(ErrorView::EdgeNotFound { edge_id })
    &&& forall|t: LabelId| #[trigger] m.edges.read(edge_id, t) is Some ==> result is Ok
    &&& forall|t: LabelId| #[trigger]
        first_type(m.edges, edge_id, t) ==> {
            &&& r.edges.num_edges(t) == m.edges.num_edges(t) - 1
            &&& exists|p: int|
                0 <= p < m.edges.records(t).len() && Some(#[trigger] m.edges.records(t)[p])
                    == m.edges.read(edge_id, t) && r.edges.records(t) == m.edges.records(
                    t,
                ).remove(p)
            &&& one_record(m.edges.records(t), edge_id) ==> r.edges.read(edge_id, t) is None
        }
    &&& forall|t: LabelId, n: NodeId, direction: Direction|
        #[trigger] first_type(m.edges, edge_id, t) && one_record(m.edges.records(t), edge_id)
            ==> #[trigger] r.neighbors(n, direction) == without_ref(
            m.neighbors(n, direction),
            edge_id,
            t,
        )
    &&& forall|e: EdgeId, t: LabelId|
        e != edge_id || !first_type(m.edges, edge_id, t) ==> #[trigger] r.edges.read(e, t)
            == m.edges.read(e, t)
    &&& forall|t: LabelId|
        !first_type(m.edges, edge_id, t) ==> #[trigger] r.edges.num_edges(t) == m.edges.num_edges(t)
    &&& forall|t: LabelId|
        !first_type(m.edges, edge_id, t) ==> #[trigger] r.edges.records(t) == m.edges.records(t)
    &&& forall|n: NodeId| #[trigger] r.knows(n) == m.knows(n)
}

/// Deleting an edge does to a database what it is for, and nothing to its nodes.
#[verifier::rlimit(60)]
pub proof fn law_delete_edge(m: ManagerView, edge_id: EdgeId)
    requires
        m.proper(),
    ensures
        ({
            let a = m.apply(CommandView::DeleteEdge { edge_id });
            &&& a.state.proper()
            &&& edge_deleted_in(m, a.state, a.result, edge_id)
            &&& m.faithful() ==> a.state.faithful()
            &&& m.edges.unspoilt() ==> a.state.edges.unspoilt()
        }),
{
    let cmd = CommandView::DeleteEdge { edge_id };
    let a = m.apply(cmd);
    let r = a.state;
    let s = informed(m);
    lemma_informed(m);
    edge_meaning::law_delete_edge(s, edge_id);
    assert(r.edges == s.apply(cmd).state);
    lemma_edge_gone(m, edge_id);
    assert forall|n: NodeId| #[trigger] r.knows(n) == m.knows(n) by {
        assert(r.edges.offset(n) == s.offset(n));
    }
    assert forall|e: EdgeId, t: LabelId| #[trigger] s.read(e, t) == m.edges.read(e, t) by {}
    assert forall|o: u64, direction: Direction| #[trigger] s.neighbors(o, direction)
        == m.edges.neighbors(o, direction) by {}
    assert forall|t: LabelId| #[trigger] first_type(m.edges, edge_id, t) == first_type(
        s,
        edge_id,
        t,
    ) by {
        if first_type(m.edges, edge_id, t) {
            assert forall|l: LabelId| #[trigger] s.read(edge_id, l) is Some implies t.0 <= l.0 by {
                assert(m.edges.read(edge_id, l) is Some);
            }
        }
        if first_type(s, edge_id, t) {
            assert forall|l: LabelId| #[trigger] m.edges.read(edge_id, l) is Some implies t.0
                <= l.0 by {
                assert(s.read(edge_id, l) is Some);
            }
        }
    }
    assert forall|t: LabelId, n: NodeId, direction: Direction|
        #[trigger] first_type(m.edges, edge_id, t) && one_record(
            m.edges.records(t),
            edge_id,
        ) implies #[trigger] r.neighbors(n, direction) == without_ref(
        m.neighbors(n, direction),
        edge_id,
        t,
    ) by {
        assert(first_type(s, edge_id, t));
        assert(s.records(t) == m.edges.records(t));
        match m.nodes.offset(n) {
            Some(o) => {
                assert(r.edges.neighbors(o, direction) == without_ref(
                    s.neighbors(o, direction),
                    edge_id,
                    t,
                ));
            },
            None => {
                reveal(Seq::filter);
                assert(without_ref(Seq::empty(), edge_id, t) =~= Seq::empty());
            },
        }
    }
    assert forall|t: LabelId| #[trigger] first_type(m.edges, edge_id, t) implies {
        &&& r.edges.num_edges(t) == m.edges.num_edges(t) - 1
        &&& exists|p: int|
            0 <= p < m.edges.records(t).len() && Some(#[trigger] m.edges.records(t)[p])
                == m.edges.read(edge_id, t) && r.edges.records(t) == m.edges.records(t).remove(p)
        &&& one_record(m.edges.records(t), edge_id) ==> r.edges.read(edge_id, t) is None
    } by {
        assert(first_type(s, edge_id, t));
        assert(s.records(t) == m.edges.records(t));
    }
    assert forall|t: LabelId| #[trigger] m.edges.read(edge_id, t) is Some implies a.result is Ok by {
        assert(s.read(edge_id, t) is Some);
    }
    if forall|t: LabelId| #[trigger] m.edges.read(edge_id, t) is None {
        assert forall|t: LabelId| #[trigger] s.read(edge_id, t) is None by {
            assert(m.edges.read(edge_id, t) is None);
        }
        assert(r.edges.tables == m.edges.tables);
    }
    assert forall|e: EdgeId, t: LabelId| e != edge_id || !first_type(m.edges, edge_id, t) implies #[trigger] r.edges.read(
        e,
        t,
    ) == m.edges.read(e, t) by {
        assert(first_type(m.edges, edge_id, t) == first_type(s, edge_id, t));
        assert(r.edges.read(e, t) == s.read(e, t));
    }
    assert forall|t: LabelId| !first_type(m.edges, edge_id, t) implies #[trigger] r.edges.num_edges(
        t,
    ) == m.edges.num_edges(t) by {
        assert(first_type(m.edges, edge_id, t) == first_type(s, edge_id, t));
        assert(r.edges.num_edges(t) == s.num_edges(t));
    }
    assert forall|t: LabelId| !first_type(m.edges, edge_id, t) implies #[trigger] r.edges.records(t)
        == m.edges.records(t) by {
        assert(first_type(m.edges, edge_id, t) == first_type(s, edge_id, t));
        assert(r.edges.records(t) == s.records(t));
    }
}

/// A node is known if some label has it.
pub proof fn law_known(m: ManagerView, node_id: NodeId, label_id: LabelId)
    requires
        m.proper(),
        m.nodes.read(node_id, label_id) is Some,
    ensures
        m.knows(node_id),
{
    node_meaning::lemma_offset_there(m.nodes, node_id);
}

/// What a database made by commands is like, after an edge was deleted.
proof fn lemma_edge_gone(m: ManagerView, edge_id: EdgeId)
    requires
        m.proper(),
    ensures
        ({
            let a = m.apply(CommandView::DeleteEdge { edge_id });
            &&& a.state.proper()
            &&& m.faithful() ==> a.state.faithful()
            &&& m.edges.unspoilt() ==> a.state.edges.unspoilt()
        }),
{
    let cmd = CommandView::DeleteEdge { edge_id };
    let a = m.apply(cmd);
    let r = a.state;
    let s = informed(m);
    lemma_informed(m);
    edge_meaning::law_delete_edge(s, edge_id);
    assert(r.edges == s.apply(cmd).state);
    lemma_sound(r);
    assert forall|o: u64, x: NodeId| #[trigger] m.owned(o, x) == r.owned(o, x) by {}
    assert(m.owners() =~= r.owners());
    assert forall|x: NodeId, o: u64| #[trigger] r.rooted_at(x, o) by {
        assert(r.edges.offset(x) == s.offset(x));
        if s.offset(x) == Some(o) {
            assert(m.owned(o, x));
        }
    }
    search::lemma_first_where(s.tables.len(), s.table_answers(edge_id));
    match s.table_with(edge_id) {
        Some(i) => {
            let t = s.tables[i].1;
            assert(t.tidy());
            edge_laws::law_read_is_present(t, edge_id, 0);
            let u = t.delete(edge_id);
            assert(r.edges.tables =~= s.tables.update(i, (s.tables[i].0, u)));
            assert forall|j: int, o: u64, direction: Direction|
                0 <= j < r.edges.tables.len() && (#[trigger] r.edges.tables[j].1.neighbors(
                    o,
                    direction,
                )).len() > 0 implies exists|x: NodeId| r.owned(o, x) by {
                if j == i {
                    edge_laws::law_delete_exactly(t, edge_id, edge_id, o);
                } else {
                    assert(r.edges.tables[j] == m.edges.tables[j]);
                }
                assert(m.edges.tables[j].1.neighbors(o, direction).len() > 0);
                let x = choose|x: NodeId| m.owned(o, x);
                assert(r.owned(o, x));
            }
            if m.faithful() {
                assert(m.edges.tables[i].1.homed(m.owners()));
                edge_meaning::lemma_delete_homed(t, edge_id, m.owners());
                edge_records::law_delete_record(t, edge_id);
                let same = record_of(t.records(), edge_id);
                search::lemma_first_where(t.records().len(), same);
                let p = search::first_where(t.records().len(), same)->Some_0;
                let after = u.records();
                assert(after == t.records().remove(p));
                assert(ids_differ(after)) by {
                    assert forall|x: int, y: int|
                        0 <= x < after.len() && 0 <= y < after.len() && (
                        #[trigger] after[x]).edge_id == (#[trigger] after[y]).edge_id implies x
                        == y by {
                        let x0 = if x < p {
                            x
                        } else {
                            x + 1
                        };
                        let y0 = if y < p {
                            y
                        } else {
                            y + 1
                        };
                        assert(after[x] == t.records()[x0] && after[y] == t.records()[y0]);
                    }
                }
                assert forall|j: int| 0 <= j < r.edges.tables.len() implies ids_differ(
                    (#[trigger] r.edges.tables[j]).1.records(),
                ) && r.edges.tables[j].1.homed(r.owners()) by {
                    if j != i {
                        assert(r.edges.tables[j] == m.edges.tables[j]);
                    }
                }
            }
            if m.edges.unspoilt() {
                assert(m.edges.tables[i].1.unspoilt());
                edge_laws::law_unspoilt(t, edge_id, NodeId(0), NodeId(0), 0, 0, Seq::empty());
                assert forall|j: int| 0 <= j < r.edges.tables.len() implies (
                #[trigger] r.edges.tables[j]).1.unspoilt() by {
                    if j != i {
                        assert(r.edges.tables[j] == m.edges.tables[j]);
                    }
                }
            }
        },
        None => {
            assert forall|j: int, o: u64, direction: Direction|
                0 <= j < r.edges.tables.len() && (#[trigger] r.edges.tables[j].1.neighbors(
                    o,
                    direction,
                )).len() > 0 implies exists|x: NodeId| r.owned(o, x) by {
                assert(m.edges.tables[j].1.neighbors(o, direction).len() > 0);
                let x = choose|x: NodeId| m.owned(o, x);
                assert(r.owned(o, x));
            }
        },
    }
}

/// Every edge of a node is read, and leads to the neighbor, from a node that was given the offset of the
/// node, or to such a node in the other direction; if all nodes are of one label, that is the node.
pub proof fn law_neighbors_resolve(m: ManagerView, node_id: NodeId, direction: Direction, x: int)
    requires
        m.faithful(),
        0 <= x < m.neighbors(node_id, direction).len(),
    ensures
        ({
            let r = m.neighbors(node_id, direction)[x];
            &&& m.edges.read(r.edge_id, r.type_id) matches Some(record)
            &&& record.edge_id == r.edge_id
            &&& other_end(record, direction) == r.neighbor
            &&& m.nodes.offset(node_id) matches Some(o)
            &&& m.owned(o, near_end(record, direction))
            &&& one_label(m.catalog) ==> near_end(record, direction) == node_id
        }),
{
    let o = m.nodes.offset(node_id)->Some_0;
    lemma_offset_owned(m, node_id);
    lemma_joined_resolves(m, m.edges.tables.len(), o, direction, x);
    let r = m.neighbors(node_id, direction)[x];
    if one_label(m.catalog) {
        lemma_one_table(m.nodes);
        let record = m.edges.read(r.edge_id, r.type_id)->Some_0;
        lemma_one_owner(m, o, node_id, near_end(record, direction));
    }
}

/// No node of a database without edges has any.
pub proof fn law_no_edges(m: ManagerView, node_id: NodeId, direction: Direction)
    requires
        m.faithful(),
        forall|e: EdgeId, t: LabelId| #[trigger] m.edges.read(e, t) is None,
    ensures
        m.neighbors(node_id, direction).len() == 0,
{
    if m.neighbors(node_id, direction).len() > 0 {
        law_neighbors_resolve(m, node_id, direction, 0);
    }
}

proof fn lemma_joined_resolves(m: ManagerView, n: nat, offset: u64, direction: Direction, x: int)
    requires
        m.faithful(),
        n <= m.edges.tables.len(),
        0 <= x < joined_neighbors(m.edges.tables, n, offset, direction).len(),
    ensures
        ({
            let r = joined_neighbors(m.edges.tables, n, offset, direction)[x];
            &&& m.edges.read(r.edge_id, r.type_id) matches Some(record)
            &&& record.edge_id == r.edge_id
            &&& other_end(record, direction) == r.neighbor
            &&& m.owned(offset, near_end(record, direction))
        }),
    decreases n,
{
    if n > 0 {
        let k = (n - 1) as nat;
        let before = joined_neighbors(m.edges.tables, k, offset, direction);
        if x < before.len() {
            lemma_joined_resolves(m, k, offset, direction, x);
        } else {
            let t = m.edges.tables[n - 1].1;
            let y = x - before.len();
            assert(t.homed(m.owners()));
            let r = t.neighbors(offset, direction)[y];
            assert(resolves(t, r, offset, direction, m.owners()));
            edge_meaning::lemma_type_key(m.edges, n - 1);
            edge_meaning::lemma_table_types(t, offset, direction);
            assert(r.type_id == LabelId(m.edges.tables[n - 1].0 as u32));
            assert(m.owners()(offset, near_end(t.read(r.edge_id)->Ok_0->Some_0, direction)));
        }
    }
}

// ---------------------------------------------------------------------------------------------
// Any number of commands

/// Each of the first `n` commands has room when its turn comes.
pub open spec fn all_have_room(catalog: CatalogView, cmds: Seq<CommandView>, n: nat) -> bool {
    forall|k: int|
        0 <= k < n ==> ManagerView::empty(catalog).replay(cmds, k as nat).nodes.has_room(
            #[trigger] cmds[k],
        )
}

/// No edge was created while there was one of its id and type.
pub open spec fn renews_no_edge(catalog: CatalogView, cmds: Seq<CommandView>, n: nat) -> bool {
    forall|k: int|
        0 <= k < n ==> (#[trigger] cmds[k] matches CommandView::CreateEdge { edge_id, type_id, .. }
            ==> ManagerView::empty(catalog).replay(cmds, k as nat).edges.read(
            edge_id,
            type_id,
        ) is None)
}

/// Whatever commands were applied to a new database, whether or not they succeeded, the laws of each
/// command hold of it. If no edge was created again while it was there, every reference resolves.
pub proof fn law_replayed(catalog: CatalogView, cmds: Seq<CommandView>, n: nat)
    requires
        ids_unambiguous(catalog),
        n <= cmds.len(),
        all_have_room(catalog, cmds, n),
    ensures
        ({
            let m = ManagerView::empty(catalog).replay(cmds, n);
            &&& m.proper()
            &&& m.catalog == catalog
            &&& renews_no_edge(catalog, cmds, n) ==> m.faithful()
        }),
    decreases n,
{
    if n == 0 {
        law_new_database(catalog);
    } else {
        let k = (n - 1) as nat;
        let m = ManagerView::empty(catalog).replay(cmds, k);
        assert(all_have_room(catalog, cmds, k));
        law_replayed(catalog, cmds, k);
        assert(m.nodes.has_room(cmds[n - 1]));
        if renews_no_edge(catalog, cmds, n) {
            assert(renews_no_edge(catalog, cmds, k));
        }
        match cmds[n - 1] {
            CommandView::CreateNode { node_id, label_id, properties } => {
                law_create_node(m, node_id, label_id, properties);
            },
            CommandView::DeleteNode { node_id } => {
                law_delete_node(m, node_id);
            },
            CommandView::CreateEdge { edge_id, type_id, from, to, properties } => {
                law_create_edge(m, edge_id, type_id, from, to, properties);
            },
            CommandView::DeleteEdge { edge_id } => {
                law_delete_edge(m, edge_id);
            },
            CommandView::UpsertVector { .. } => {
                database_laws::law_commands_touch(m, cmds[n - 1]);
            },
        }
    }
}

/// Each command makes one group more at most.
#[verifier::rlimit(40)]
proof fn lemma_groups(catalog: CatalogView, cmds: Seq<CommandView>, n: nat)
    requires
        ids_unambiguous(catalog),
        n <= cmds.len(),
        all_have_room(catalog, cmds, n),
    ensures
        forall|k: u64| #[trigger]
            lookup(ManagerView::empty(catalog).replay(cmds, n).nodes.tables, k) matches Some(t)
                ==> t.groups.len() <= n,
    decreases n,
{
    let r = ManagerView::empty(catalog).replay(cmds, n);
    if n == 0 {
        let labels = catalog.node_labels;
        recovery::lemma_new_node_tables(labels, labels.len());
    } else {
        let m = ManagerView::empty(catalog).replay(cmds, (n - 1) as nat);
        assert(all_have_room(catalog, cmds, (n - 1) as nat));
        law_replayed(catalog, cmds, (n - 1) as nat);
        lemma_groups(catalog, cmds, (n - 1) as nat);
        let s = m.nodes;
        assert forall|k: u64| #[trigger] lookup(r.nodes.tables, k) is Some implies lookup(
            r.nodes.tables,
            k,
        )->Some_0.groups.len() <= n by {
            match cmds[n - 1] {
                CommandView::CreateNode { node_id, label_id, properties } => {
                    match (s.catalog.node_label(label_id), s.table(label_id)) {
                        (Some(schema), Some(t)) => {
                            let row = aligned_row(schema.properties.len(), properties);
                            let u = t.insert(node_id, row).state;
                            ordered_map::law_put_then_lookup(s.tables, label_id.0 as u64, u, k);
                            assert(lookup(s.tables, label_id.0 as u64) == Some(t));
                            assert(u.groups.len() <= t.groups.len() + 1);
                            assert(lookup(s.tables, k) is Some);
                        },
                        _ => {},
                    }
                },
                CommandView::DeleteNode { node_id } => {
                    search::lemma_first_where(s.tables.len(), s.table_has(node_id));
                    match s.table_with(node_id) {
                        Some(i) => {
                            let t = s.tables[i].1;
                            let u = t.delete(node_id);
                            assert(u.groups.len() == t.groups.len());
                            ordered_map::lemma_update_is_put(s.tables, i, u);
                            assert(lookup(s.tables, k) is Some);
                        },
                        None => {},
                    }
                },
                _ => {
                    assert(r.nodes == s);
                },
            }
        }
    }
}

/// As long as fewer commands were applied to a new database than there can be groups of nodes, there is
/// room for any other.
#[verifier::rlimit(40)]
pub proof fn law_room(catalog: CatalogView, cmds: Seq<CommandView>, n: nat, cmd: CommandView)
    requires
        ids_unambiguous(catalog),
        n <= cmds.len(),
        n + 1 < 0x1_0000_0000_0000,
    ensures
        all_have_room(catalog, cmds, n),
        ManagerView::empty(catalog).replay(cmds, n).nodes.has_room(cmd),
        ManagerView::empty(catalog).replay(cmds, n).edges.has_room(cmd),
    decreases n,
{
    let m = ManagerView::empty(catalog).replay(cmds, n);
    assert(all_have_room(catalog, cmds, n)) by {
        if n > 0 {
            law_room(catalog, cmds, (n - 1) as nat, cmds[n - 1]);
            assert forall|k: int| 0 <= k < n implies ManagerView::empty(catalog).replay(
                cmds,
                k as nat,
            ).nodes.has_room(#[trigger] cmds[k]) by {
                if k < n - 1 {
                    assert(all_have_room(catalog, cmds, (n - 1) as nat));
                }
            }
        }
    }
    assert(m.nodes.has_room(cmd)) by {
        lemma_groups(catalog, cmds, n);
        match cmd {
            CommandView::CreateNode { label_id, .. } => {
                assert(m.nodes.table(label_id) == lookup(m.nodes.tables, label_id.0 as u64));
            },
            _ => {},
        }
    }
    assert(m.edges.has_room(cmd)) by {
        law_replayed(catalog, cmds, n);
        law_edges_have_room(m, cmd);
    }
}

/// The offsets of nodes never stop an edge from being created.
pub proof fn law_edges_have_room(m: ManagerView, cmd: CommandView)
    requires
        m.proper(),
    ensures
        m.edges.has_room(cmd),
{
    database::lemma_in_range_has_room(m.edges, cmd);
}

// ---------------------------------------------------------------------------------------------
// Opened databases

/// The laws of the commands hold of a database that was flushed and opened, from which everything is
/// read as before.
pub proof fn law_opened(m: ManagerView, disk: Disk) -> (l: ManagerView)
    requires
        m.proper(),
        m.recoverable(disk),
        m.flushable(disk),
    ensures
        ManagerView::open(m.flush(disk).disk) == Some(Ok::<ManagerView, OpenErrorView>(l)),
        l.reads_as(m),
        l.proper(),
        m.faithful() ==> l.faithful(),
{
    let l = recovery::law_flush_then_open(m, disk);
    let merged = l.nodes.offsets();
    let tables = l.nodes.tables;
    assert forall|o: u64, x: NodeId| #[trigger] m.owned(o, x) == l.owned(o, x) by {
        if m.owned(o, x) {
            let i = choose|i: int|
                0 <= i < m.nodes.tables.len() && (#[trigger] m.nodes.tables[i]).1.row_of(o, x);
            assert(l.nodes.tables[i].1.row_of(o, x) == m.nodes.tables[i].1.row_of(o, x));
        }
        if l.owned(o, x) {
            let i = choose|i: int|
                0 <= i < l.nodes.tables.len() && (#[trigger] l.nodes.tables[i]).1.row_of(o, x);
            assert(l.nodes.tables[i].1.row_of(o, x) == m.nodes.tables[i].1.row_of(o, x));
            assert(m.nodes.tables[i].1.row_of(o, x));
        }
    }
    assert(m.owners() =~= l.owners());
    assert forall|i: int| 0 <= i < tables.len() implies sorted((#[trigger] tables[i]).1.offsets) by {
        assert(tables[i].1.sound());
    }
    assert forall|x: NodeId, o: u64| #[trigger] l.rooted_at(x, o) by {
        if l.edges.offset(x) == Some(o) {
            database_laws::lemma_merged_lookup(tables, tables.len(), x.0);
            ordered_map::law_put_upto_then_lookup(Seq::empty(), merged, merged.len(), x.0);
            let i = choose|i: int|
                0 <= i < tables.len() && lookup((#[trigger] tables[i]).1.offsets, x.0) == Some(o);
            assert(tables[i].1.offset(x) == Some(o));
            assert(tables[i].1.tidy());
            node_meaning::lemma_offset_is_row(tables[i].1, x);
            assert(l.owned(o, x));
        }
    }
    assert forall|i: int, o: u64, direction: Direction|
        0 <= i < l.edges.tables.len() && (#[trigger] l.edges.tables[i].1.neighbors(
            o,
            direction,
        )).len() > 0 implies exists|x: NodeId| l.owned(o, x) by {
        assert(l.edges.tables[i].1.neighbors(o, direction) == m.edges.tables[i].1.neighbors(
            o,
            direction,
        ));
        assert(m.edges.tables[i].1.neighbors(o, direction).len() > 0);
        let x = choose|x: NodeId| m.owned(o, x);
        assert(l.owned(o, x));
    }
    if m.faithful() {
        assert forall|i: int| 0 <= i < l.edges.tables.len() implies ids_differ(
            (#[trigger] l.edges.tables[i]).1.records(),
        ) && l.edges.tables[i].1.homed(l.owners()) by {
            let t = m.edges.tables[i].1;
            let u = l.edges.tables[i].1;
            assert(ids_differ(t.records()) && t.homed(m.owners()));
            assert forall|offset: u64, direction: Direction, x: int|
                0 <= x < u.neighbors(offset, direction).len() implies resolves(
                u,
                #[trigger] u.neighbors(offset, direction)[x],
                offset,
                direction,
                l.owners(),
            ) by {
                assert(u.neighbors(offset, direction) == t.neighbors(offset, direction));
                let r = t.neighbors(offset, direction)[x];
                assert(resolves(t, r, offset, direction, m.owners()));
                assert(u.read(r.edge_id) == t.read(r.edge_id));
            }
        }
    }
    l
}

} // verus!
