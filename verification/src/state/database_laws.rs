//! What holds of databases: which commands touch what, replay, and the edges of nodes.

use vstd::prelude::*;

use crate::adjacency::EdgeRef;
use crate::command::CommandView;
use crate::error::ErrorView;
use crate::io::page::Disk;
use crate::ordered_map;
use crate::ordered_map::{has_key, lookup, sorted};
use crate::search;
use crate::state::database;
use crate::state::database::ManagerView;
use crate::state::edge_laws;
use crate::state::edge_persistence;
use crate::state::edge_store::EdgeStoreView;
use crate::state::edge_table::EdgeTableView;
use crate::state::node_laws;
use crate::state::node_persistence;
use crate::state::node_store::{merged_offsets, NodeStoreView, NodeTables};
use crate::state::node_table::NodeTableView;
use crate::state::store_laws;
use crate::table::column::ColumnView;
use crate::table::node;
use crate::table::row::{aligned_row, append_upto, RowView};
use crate::types::{Direction, EdgeId, LabelId, NodeId, PropertyView};

verus! {

/// Commands on edges leave the nodes as they are, all other commands leave the edges, and inserting a
/// vector leaves everything.
pub proof fn law_commands_touch(m: ManagerView, cmd: CommandView)
    ensures
        cmd is CreateEdge || cmd is DeleteEdge ==> m.apply(cmd).state.nodes == m.nodes,
        !(cmd is CreateEdge || cmd is DeleteEdge) ==> m.apply(cmd).state.edges == m.edges,
        cmd is UpsertVector ==> m.apply(cmd).state == m && m.apply(cmd).result is Ok,
        m.apply(cmd).state.catalog == m.catalog,
{
}

/// Replaying commands is replaying the first of them, and then the others.
pub proof fn law_replay_splits(m: ManagerView, cmds: Seq<CommandView>, i: nat, n: nat)
    requires
        i <= n <= cmds.len(),
    ensures
        m.replay(cmds, n) == m.replay(cmds, i).replay(cmds.skip(i as int), (n - i) as nat),
    decreases n,
{
    if i < n {
        law_replay_splits(m, cmds, i, (n - 1) as nat);
        assert(cmds.skip(i as int)[n - i - 1] == cmds[n - 1]);
    }
}

/// The state after some commands depends on no later ones.
pub proof fn law_replay_prefix(
    m: ManagerView,
    cmds: Seq<CommandView>,
    others: Seq<CommandView>,
    n: nat,
)
    requires
        n <= cmds.len(),
        n <= others.len(),
        cmds.take(n as int) == others.take(n as int),
    ensures
        m.replay(cmds, n) == m.replay(others, n),
    decreases n,
{
    if n > 0 {
        let k = n - 1;
        assert(cmds.take(n as int)[k] == cmds[k] && others.take(n as int)[k] == others[k]);
        assert(cmds.take(k) =~= cmds.take(n as int).take(k));
        assert(others.take(k) =~= others.take(n as int).take(k));
        law_replay_prefix(m, cmds, others, k as nat);
    }
}

// ---------------------------------------------------------------------------------------------
// The edges of nodes

impl NodeStoreView {
    /// No two labels have the node.
    pub open spec fn of_one_label(self, node_id: NodeId) -> bool {
        forall|i: int, j: int|
            0 <= i < self.tables.len() && 0 <= j < self.tables.len() && (
            #[trigger] self.tables[i]).1.offset(node_id) is Some && (
            #[trigger] self.tables[j]).1.offset(node_id) is Some ==> i == j
    }
}

/// Some of the first tables has a node exactly if its offset is among those of them.
pub proof fn lemma_merged_lookup(tables: NodeTables, n: nat, id: u64)
    requires
        n <= tables.len(),
        forall|i: int| 0 <= i < tables.len() ==> sorted((#[trigger] tables[i]).1.offsets),
    ensures
        sorted(merged_offsets(tables, n)),
        match lookup(merged_offsets(tables, n), id) {
            Some(o) => exists|i: int|
                0 <= i < n && lookup((#[trigger] tables[i]).1.offsets, id) == Some(o),
            None => forall|i: int|
                0 <= i < n ==> lookup((#[trigger] tables[i]).1.offsets, id) is None,
        },
    decreases n,
{
    if n > 0 {
        let m = n - 1;
        let before = merged_offsets(tables, m as nat);
        let offsets = tables[m].1.offsets;
        lemma_merged_lookup(tables, m as nat, id);
        ordered_map::law_put_upto_then_lookup(before, offsets, offsets.len(), id);
        if has_key(offsets, id) {
            assert(lookup(tables[m].1.offsets, id) == lookup(merged_offsets(tables, n), id));
        } else {
            match lookup(before, id) {
                Some(o) => {
                    let i = choose|i: int|
                        0 <= i < m && lookup((#[trigger] tables[i]).1.offsets, id) == Some(o);
                    assert(lookup(tables[i].1.offsets, id) == Some(o));
                },
                None => {},
            }
        }
    }
}

/// A node that is there has an offset for edges, which is its own if it is of one label.
pub proof fn lemma_known_offset(m: ManagerView, node_id: NodeId)
    requires
        m.sound(),
        m.nodes.offset(node_id) is Some,
    ensures
        ({
            let edges = m.edges.with_offsets(m.nodes.offsets());
            &&& edges.offset(node_id) is Some
            &&& m.nodes.of_one_label(node_id) ==> edges.offset(node_id) == m.nodes.offset(node_id)
        }),
{
    let tables = m.nodes.tables;
    search::lemma_first_where(tables.len(), m.nodes.table_has(node_id));
    let at = m.nodes.table_with(node_id)->Some_0;
    assert(m.nodes.table_has(node_id)(at));
    assert forall|i: int| 0 <= i < tables.len() implies sorted((#[trigger] tables[i]).1.offsets) by {
        assert(tables[i].1.sound());
    }
    lemma_merged_lookup(tables, tables.len(), node_id.0);
    let merged = m.nodes.offsets();
    assert(lookup(tables[at].1.offsets, node_id.0) is Some);
    ordered_map::lemma_rank(merged, node_id.0);
    ordered_map::law_put_upto_then_lookup(m.edges.offsets, merged, merged.len(), node_id.0);
    if m.nodes.of_one_label(node_id) {
        let o = lookup(merged, node_id.0)->Some_0;
        let i = choose|i: int|
            0 <= i < tables.len() && lookup((#[trigger] tables[i]).1.offsets, node_id.0) == Some(o);
        assert(tables[i].1.offset(node_id) is Some && tables[at].1.offset(node_id) is Some);
    }
}

proof fn lemma_append_error(columns: Seq<ColumnView>, values: RowView, n: nat)
    ensures
        append_upto(columns, values, n).1 matches Some(e) ==> !(e is NodeNotFound),
    decreases n,
{
    if n > 0 {
        lemma_append_error(columns, values, (n - 1) as nat);
    }
}

/// A table does not refuse an edge for its nodes.
proof fn lemma_insert_error(
    t: EdgeTableView,
    edge_id: EdgeId,
    from: NodeId,
    to: NodeId,
    from_offset: u64,
    to_offset: u64,
    values: RowView,
)
    ensures
        t.insert(edge_id, from, to, from_offset, to_offset, values).result matches Err(e) ==> !(
        e is NodeNotFound),
{
    let schema = t.columns();
    let f = edge_laws::active_group(t.fwd, Direction::Forward, schema, from_offset);
    let b = edge_laws::active_group(t.bwd, Direction::Backward, schema, to_offset);
    lemma_append_error(f.columns, values, f.columns.len());
    lemma_append_error(b.columns, values, b.columns.len());
}

/// Creating an edge never fails for nodes that are there. If the edge is created, and its nodes are of
/// one label each, it is one more among the edges of both.
pub proof fn law_create_edge_then_neighbors(
    m: ManagerView,
    edge_id: EdgeId,
    type_id: LabelId,
    from: NodeId,
    to: NodeId,
    properties: Seq<PropertyView>,
)
    requires
        m.sound(),
        m.edges.tidy(),
        m.nodes.offset(from) is Some,
        m.nodes.offset(to) is Some,
    ensures
        ({
            let a = m.apply(CommandView::CreateEdge { edge_id, type_id, from, to, properties });
            let fwd = Direction::Forward;
            let bwd = Direction::Backward;
            &&& !(a.result matches Err(ErrorView::NodeNotFound { .. }))
            &&& a.result is Ok && m.nodes.of_one_label(from) && m.nodes.of_one_label(to) ==> {
                let label_id = m.edges.table(type_id)->Some_0.schema.label_id;
                &&& a.state.neighbors(from, fwd).to_multiset() == m.neighbors(
                    from,
                    fwd,
                ).to_multiset().insert(EdgeRef { edge_id, type_id: label_id, neighbor: to })
                &&& a.state.neighbors(to, bwd).to_multiset() == m.neighbors(
                    to,
                    bwd,
                ).to_multiset().insert(EdgeRef { edge_id, type_id: label_id, neighbor: from })
            }
        }),
{
    let cmd = CommandView::CreateEdge { edge_id, type_id, from, to, properties };
    let edges = m.edges.with_offsets(m.nodes.offsets());
    lemma_known_offset(m, from);
    lemma_known_offset(m, to);
    database::lemma_with_offsets_in_range(m);
    database::lemma_in_range_has_room(edges, cmd);
    assert(edges.tidy());
    assert forall|offset: u64, direction: Direction| #[trigger]
        edges.neighbors(offset, direction) == m.edges.neighbors(offset, direction) by {}
    let f = m.nodes.offset(from)->Some_0;
    let t = m.nodes.offset(to)->Some_0;
    store_laws::law_create_edge(
        edges, edge_id, type_id, from, to, properties, edge_id, type_id, f);
    store_laws::law_create_edge(
        edges, edge_id, type_id, from, to, properties, edge_id, type_id, t);
    assert(edges.table(type_id) == m.edges.table(type_id));
    if m.apply(cmd).result is Err {
        match edges.table(type_id) {
            Some(table) => {
                lemma_insert_error(
                    table,
                    edge_id,
                    from,
                    to,
                    edges.offset(from)->Some_0,
                    edges.offset(to)->Some_0,
                    aligned_row(
                        edges.catalog.edge_type(type_id)->Some_0.properties.len(),
                        properties,
                    ),
                );
            },
            None => {},
        }
    }
}

// ---------------------------------------------------------------------------------------------
// Recovery

impl ManagerView {
    /// All groups of all tables can be written.
    pub open spec fn storable(self) -> bool {
        &&& forall|i: int|
            0 <= i < self.nodes.tables.len() ==> (#[trigger] self.nodes.tables[i]).1.storable()
        &&& forall|i: int|
            0 <= i < self.edges.tables.len() ==> (#[trigger] self.edges.tables[i]).1.storable()
    }

    /// What the command does is found again in the data file: it does not delete a node that was
    /// created twice, and no range of edges needs a second group for it.
    pub open spec fn keeps(self, cmd: CommandView) -> bool {
        match cmd {
            CommandView::DeleteNode { node_id } => match self.nodes.table_with(node_id) {
                Some(i) => self.nodes.tables[i].1.alone(node_id),
                None => true,
            },
            CommandView::CreateEdge { type_id, from, to, .. } => {
                let edges = self.edges.with_offsets(self.nodes.offsets());
                match (edges.offset(from), edges.offset(to), edges.table(type_id)) {
                    (Some(f), Some(t), Some(table)) => table.has_room(f, Direction::Forward)
                        && table.has_room(t, Direction::Backward),
                    _ => true,
                }
            },
            _ => true,
        }
    }
}

proof fn lemma_put_node_filed(
    s: NodeStoreView,
    i: int,
    t: NodeTableView,
    r: NodeStoreView,
    disk: Disk,
)
    requires
        s.tidy(),
        s.filed(disk),
        s.labelled(),
        0 <= i < s.tables.len(),
        t.schema == s.tables[i].1.schema,
        t.tidy(),
        t.complete(),
        t.filed(disk),
        r == (NodeStoreView { tables: s.tables.update(i, (s.tables[i].0, t)), ..s }),
        forall|j: int| 0 <= j < r.tables.len() ==> (#[trigger] r.tables[j]).1.storable(),
    ensures
        r.tidy(),
        r.filed(disk),
        r.labelled(),
{
    let labels = s.catalog.node_labels;
    assert(sorted(r.tables)) by {
        assert forall|a: int, b: int| 0 <= a < b < r.tables.len() implies (
        #[trigger] r.tables[a]).0 < (#[trigger] r.tables[b]).0 by {
            assert(s.tables[a].0 < s.tables[b].0);
        }
    }
    assert forall|j: int| 0 <= j < r.tables.len() implies (#[trigger] r.tables[j]).1.tidy()
        && r.tables[j].1.complete() && r.tables[j].1.storable() && r.tables[j].1.filed(disk) by {
        assert(r.tables[j].1.storable());
        if j != i {
            assert(r.tables[j] == s.tables[j]);
        }
    }
    assert forall|x: int| 0 <= x < labels.len() implies (r.table(
        (#[trigger] labels[x]).label_id,
    ) matches Some(u) && u.schema == labels[x]) by {
        let key = labels[x].label_id.0 as u64;
        assert(s.table(labels[x].label_id)->Some_0.schema == labels[x]);
        let at = ordered_map::rank(s.tables, key) as int;
        assert(r.tables[at].0 == key);
        ordered_map::lemma_rank_at(r.tables, at);
    }
    assert forall|j: int| 0 <= j < r.tables.len() implies exists|x: int|
        0 <= x < labels.len() && (#[trigger] labels[x]).label_id.0 as u64 == (
        #[trigger] r.tables[j]).0 by {
        assert(r.tables[j].0 == s.tables[j].0);
        let x = choose|x: int|
            0 <= x < labels.len() && (#[trigger] labels[x]).label_id.0 as u64 == (
            #[trigger] s.tables[j]).0;
        assert(labels[x].label_id.0 as u64 == r.tables[j].0);
    }
}

proof fn lemma_put_edge_filed(
    s: EdgeStoreView,
    i: int,
    t: EdgeTableView,
    r: EdgeStoreView,
    disk: Disk,
)
    requires
        s.tidy(),
        s.filed(disk),
        s.typed(),
        0 <= i < s.tables.len(),
        t.schema == s.tables[i].1.schema,
        t.tidy(),
        t.filed(disk),
        r.tables == s.tables.update(i, (s.tables[i].0, t)),
        r.catalog == s.catalog,
        forall|j: int| 0 <= j < r.tables.len() ==> (#[trigger] r.tables[j]).1.storable(),
    ensures
        r.tidy(),
        r.filed(disk),
        r.typed(),
{
    let types = s.catalog.edge_types;
    assert(sorted(r.tables)) by {
        assert forall|a: int, b: int| 0 <= a < b < r.tables.len() implies (
        #[trigger] r.tables[a]).0 < (#[trigger] r.tables[b]).0 by {
            assert(s.tables[a].0 < s.tables[b].0);
        }
    }
    assert forall|j: int| 0 <= j < r.tables.len() implies (#[trigger] r.tables[j]).1.tidy()
        && r.tables[j].1.storable() && r.tables[j].1.filed(disk) by {
        assert(r.tables[j].1.storable());
        if j != i {
            assert(r.tables[j] == s.tables[j]);
        }
    }
    assert forall|x: int| 0 <= x < types.len() implies (r.table(
        (#[trigger] types[x]).label_id,
    ) matches Some(u) && u.schema == types[x]) by {
        let key = types[x].label_id.0 as u64;
        assert(s.table(types[x].label_id)->Some_0.schema == types[x]);
        let at = ordered_map::rank(s.tables, key) as int;
        assert(r.tables[at].0 == key);
        ordered_map::lemma_rank_at(r.tables, at);
    }
    assert forall|j: int| 0 <= j < r.tables.len() implies exists|x: int|
        0 <= x < types.len() && (#[trigger] types[x]).label_id.0 as u64 == (
        #[trigger] r.tables[j]).0 by {
        assert(r.tables[j].0 == s.tables[j].0);
        let x = choose|x: int|
            0 <= x < types.len() && (#[trigger] types[x]).label_id.0 as u64 == (
            #[trigger] s.tables[j]).0;
        assert(types[x].label_id.0 as u64 == r.tables[j].0);
    }
}

proof fn lemma_node_command_keeps(m: ManagerView, disk: Disk, cmd: CommandView)
    requires
        m.recoverable(disk),
        m.nodes.has_room(cmd),
        m.keeps(cmd),
        cmd is CreateNode || cmd is DeleteNode,
        m.apply(cmd).state.storable(),
    ensures
        m.apply(cmd).state.recoverable(disk),
{
    let s = m.nodes;
    let r = m.apply(cmd).state.nodes;
    match cmd {
        CommandView::CreateNode { node_id, label_id, properties } => {
            match (s.catalog.node_label(label_id), s.table(label_id)) {
                (Some(schema), Some(t)) => {
                    let row = aligned_row(schema.properties.len(), properties);
                    let at = ordered_map::rank(s.tables, label_id.0 as u64) as int;
                    assert(s.tables[at] == (label_id.0 as u64, t));
                    assert(t.tidy() && t.complete() && t.storable() && t.filed(disk));
                    let u = t.insert(node_id, row).state;
                    node_persistence::law_insert_keeps_filed(t, node_id, row, disk);
                    if node::types_match(t.columns(), row) {
                        node_laws::law_insert_then_read(t, node_id, row, node_id);
                    } else {
                        node_laws::law_mismatch_refused(t, node_id, row, node_id);
                    }
                    assert(r.tables =~= s.tables.update(at, (s.tables[at].0, u)));
                    lemma_put_node_filed(s, at, u, r, disk);
                },
                _ => {},
            }
        },
        CommandView::DeleteNode { node_id } => {
            search::lemma_first_where(s.tables.len(), s.table_has(node_id));
            match s.table_with(node_id) {
                Some(i) => {
                    let t = s.tables[i].1;
                    assert(s.table_has(node_id)(i));
                    assert(t.tidy() && t.complete() && t.storable() && t.filed(disk));
                    node_laws::law_delete_hides(t, node_id, node_id);
                    node_persistence::law_delete_keeps_filed(t, node_id, disk);
                    lemma_put_node_filed(s, i, t.delete(node_id), r, disk);
                },
                None => {},
            }
        },
        _ => {},
    }
}

proof fn lemma_edge_command_keeps(m: ManagerView, disk: Disk, cmd: CommandView)
    requires
        m.sound(),
        m.recoverable(disk),
        m.keeps(cmd),
        cmd is CreateEdge || cmd is DeleteEdge,
        m.apply(cmd).state.storable(),
    ensures
        m.apply(cmd).state.recoverable(disk),
{
    let s = m.edges.with_offsets(m.nodes.offsets());
    let r = m.apply(cmd).state.edges;
    assert(s.tables == m.edges.tables);
    lemma_offsets_only(m.edges, s, disk);
    database::lemma_with_offsets_in_range(m);
    database::lemma_in_range_has_room(s, cmd);
    match cmd {
        CommandView::CreateEdge { edge_id, type_id, from, to, properties } => {
            match (s.offset(from), s.offset(to), s.catalog.edge_type(type_id), s.table(type_id)) {
                (Some(f), Some(b), Some(schema), Some(t)) => {
                    let row = aligned_row(schema.properties.len(), properties);
                    let at = ordered_map::rank(s.tables, type_id.0 as u64) as int;
                    assert(s.tables[at] == (type_id.0 as u64, t));
                    assert(t.tidy() && t.storable() && t.filed(disk));
                    let u = t.insert(edge_id, from, to, f, b, row).state;
                    edge_persistence::law_insert_keeps_filed(t, disk, edge_id, from, to, f, b, row);
                    edge_laws::lemma_insert_both(t, edge_id, from, to, f, b, row, 0);
                    assert(r.tables =~= s.tables.update(at, (s.tables[at].0, u)));
                    lemma_put_edge_filed(s, at, u, r, disk);
                },
                _ => {},
            }
        },
        CommandView::DeleteEdge { edge_id } => {
            search::lemma_first_where(s.tables.len(), s.table_answers(edge_id));
            match s.table_with(edge_id) {
                Some(i) => {
                    let t = s.tables[i].1;
                    assert(t.tidy() && t.storable() && t.filed(disk));
                    edge_laws::law_read_is_present(t, edge_id, 0);
                    edge_laws::law_delete_keeps_tidy(t, edge_id);
                    edge_persistence::law_delete_keeps_filed(t, disk, edge_id);
                    lemma_put_edge_filed(s, i, t.delete(edge_id), r, disk);
                },
                None => {},
            }
        },
        _ => {},
    }
}

/// The offsets that an edge store knows have nothing to do with what is written.
proof fn lemma_offsets_only(a: EdgeStoreView, b: EdgeStoreView, disk: Disk)
    requires
        a.tables == b.tables,
        a.catalog == b.catalog,
        a.tidy(),
        a.filed(disk),
        a.typed(),
    ensures
        b.tidy(),
        b.filed(disk),
        b.typed(),
{
    let types = a.catalog.edge_types;
    assert forall|i: int| 0 <= i < types.len() implies (b.table(
        (#[trigger] types[i]).label_id,
    ) matches Some(t) && t.schema == types[i]) by {
        assert(a.table(types[i].label_id)->Some_0.schema == types[i]);
    }
}

/// A database that can be written to its data file and opened from there stays so when a command is
/// applied, whether or not it succeeds, as long as its groups are not too large, no node that was
/// created twice is deleted, and no range of edges needs a second group.
pub proof fn law_apply_keeps_recoverable(m: ManagerView, disk: Disk, cmd: CommandView)
    requires
        m.sound(),
        m.recoverable(disk),
        m.nodes.has_room(cmd),
        m.keeps(cmd),
        m.apply(cmd).state.storable(),
    ensures
        m.apply(cmd).state.recoverable(disk),
{
    match cmd {
        CommandView::CreateEdge { .. } => {
            lemma_edge_command_keeps(m, disk, cmd);
        },
        CommandView::DeleteEdge { .. } => {
            lemma_edge_command_keeps(m, disk, cmd);
        },
        CommandView::UpsertVector { .. } => {},
        _ => {
            lemma_node_command_keeps(m, disk, cmd);
        },
    }
}

} // verus!
