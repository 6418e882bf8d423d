//! What holds of stores: what is read after commands were applied.

use vstd::prelude::*;

use crate::adjacency::EdgeRef;
use crate::command::CommandView;
use crate::error::ErrorView;
use crate::ordered_map;
use crate::ordered_map::{lookup, put, sorted};
use crate::search;
use crate::state::edge_laws;
use crate::state::edge_store::{joined_neighbors, EdgeStoreView, EdgeTables};
use crate::state::edge_table::EdgeTableView;
use crate::state::node_laws;
use crate::state::node_store::NodeStoreView;
use crate::state::node_table::NodeTableView;
use crate::storage::adjacency_index::without_edge;
use crate::table::node::{padded, types_match};
use crate::table::row::aligned_row;
use crate::types::{Direction, EdgeId, LabelId, NodeId, PropertyView};

verus! {

// ---------------------------------------------------------------------------------------------
// Nodes

impl NodeStoreView {
    /// What every store built by commands is like.
    pub open spec fn tidy(self) -> bool {
        sorted(self.tables) && forall|i: int|
            0 <= i < self.tables.len() ==> (#[trigger] self.tables[i]).1.tidy()
    }
}

/// A table of a tidy store can be replaced by a tidy one.
proof fn lemma_put_node_table(s: NodeStoreView, key: u64, t: NodeTableView, r: NodeStoreView)
    requires
        s.tidy(),
        t.tidy(),
        r == (NodeStoreView { tables: put(s.tables, key, t), ..s }),
    ensures
        r.tidy(),
        lookup(r.tables, key) == Some(t),
        forall|k: u64| k != key ==> #[trigger] lookup(r.tables, k) == lookup(s.tables, k),
{
    let p = |t: NodeTableView| t.tidy();
    assert forall|i: int| 0 <= i < s.tables.len() implies p((#[trigger] s.tables[i]).1) by {}
    ordered_map::lemma_put_keeps(s.tables, key, t, p);
    ordered_map::law_put_then_lookup(s.tables, key, t, 0);
    assert forall|i: int| 0 <= i < r.tables.len() implies (#[trigger] r.tables[i]).1.tidy() by {
        assert(p(r.tables[i].1));
    }
    assert forall|k: u64| k != key implies #[trigger] lookup(r.tables, k) == lookup(
        s.tables,
        k,
    ) by {
        ordered_map::law_put_then_lookup(s.tables, key, t, k);
    }
}

proof fn lemma_node_table(s: NodeStoreView, label_id: LabelId)
    requires
        s.tidy(),
        s.table(label_id) is Some,
    ensures
        s.table(label_id)->Some_0.tidy(),
{
    let i = ordered_map::rank(s.tables, label_id.0 as u64) as int;
    assert(s.tables[i].1.tidy());
}

/// Creating a node of a known label succeeds exactly if the values are of the columns' types. The
/// node is read back, and there is one more of its label. Nothing else changes, and nothing at all if
/// the node is refused or the label unknown.
pub proof fn law_create_node(
    s: NodeStoreView,
    node_id: NodeId,
    label_id: LabelId,
    properties: Seq<PropertyView>,
    other: NodeId,
    other_label: LabelId,
)
    requires
        s.tidy(),
        s.has_room(CommandView::CreateNode { node_id, label_id, properties }),
    ensures
        ({
            let a = s.apply(CommandView::CreateNode { node_id, label_id, properties });
            match (s.catalog.node_label(label_id), s.table(label_id)) {
                (Some(schema), Some(t)) => {
                    let row = aligned_row(schema.properties.len(), properties);
                    &&& a.state.tidy()
                    &&& a.result is Ok <==> types_match(t.columns(), row)
                    &&& a.result matches Err(e) ==> e is ColumnTypeMismatch
                    &&& a.result is Ok ==> a.state.read(node_id, label_id) == Some(
                        padded(t.columns(), row),
                    )
                    &&& a.result is Err || other != node_id || other_label != label_id
                        ==> a.state.read(other, other_label) == s.read(other, other_label)
                    &&& a.state.num_nodes(other_label) == s.num_nodes(other_label)
                        + if a.result is Ok && other_label == label_id {
                        1int
                    } else {
                        0
                    }
                },
                _ => a.state == s && a.result == Err::<(), ErrorView>(
                    ErrorView::LabelNotFound { label_id },
                ),
            }
        }),
{
    let a = s.apply(CommandView::CreateNode { node_id, label_id, properties });
    match (s.catalog.node_label(label_id), s.table(label_id)) {
        (Some(schema), Some(t)) => {
            let row = aligned_row(schema.properties.len(), properties);
            let key = label_id.0 as u64;
            lemma_node_table(s, label_id);
            if types_match(t.columns(), row) {
                node_laws::law_insert_then_read(t, node_id, row, other);
            } else {
                node_laws::law_mismatch_refused(t, node_id, row, other);
            }
            lemma_put_node_table(s, key, t.insert(node_id, row).state, a.state);
            assert(other_label != label_id ==> lookup(a.state.tables, other_label.0 as u64)
                == lookup(s.tables, other_label.0 as u64));
        },
        _ => {},
    }
}

/// Deleting a node that is there succeeds. It is not in the first of its labels any more. Nothing
/// else changes, and nothing at all if there is no such node.
pub proof fn law_delete_node(
    s: NodeStoreView,
    node_id: NodeId,
    label_id: LabelId,
    other: NodeId,
)
    requires
        s.tidy(),
    ensures
        ({
            let a = s.apply(CommandView::DeleteNode { node_id });
            match s.table_with(node_id) {
                Some(i) => {
                    let is_first = label_id.0 as u64 == s.tables[i].0;
                    &&& a.state.tidy()
                    &&& a.result is Ok
                    &&& is_first ==> a.state.read(node_id, label_id) is None
                    &&& !is_first || other != node_id ==> a.state.read(other, label_id) == s.read(
                        other,
                        label_id,
                    )
                    &&& a.state.num_nodes(label_id) == s.num_nodes(label_id) - if is_first {
                        1int
                    } else {
                        0
                    }
                },
                None => a.state == s && a.result == Err::<(), ErrorView>(
                    ErrorView::NodeNotFound { node_id },
                ),
            }
        }),
{
    let a = s.apply(CommandView::DeleteNode { node_id });
    search::lemma_first_where(s.tables.len(), s.table_has(node_id));
    match s.table_with(node_id) {
        Some(i) => {
            let t = s.tables[i].1;
            assert(s.table_has(node_id)(i));
            assert(t.tidy());
            node_laws::law_delete_hides(t, node_id, other);
            ordered_map::lemma_rank_at(s.tables, i);
            let key = s.tables[i].0;
            assert(a.state.tables =~= put(s.tables, key, t.delete(node_id)));
            lemma_put_node_table(s, key, t.delete(node_id), a.state);
            assert(label_id.0 as u64 != key ==> lookup(a.state.tables, label_id.0 as u64)
                == lookup(s.tables, label_id.0 as u64));
        },
        None => {},
    }
}

/// Commands on edges and vectors do nothing to nodes.
pub proof fn law_node_store_ignores(s: NodeStoreView, cmd: CommandView)
    requires
        !(cmd is CreateNode),
        !(cmd is DeleteNode),
    ensures
        s.apply(cmd).state == s,
        s.apply(cmd).result is Ok,
{
}

// ---------------------------------------------------------------------------------------------
// Edges

impl EdgeStoreView {
    /// What every store built by commands is like.
    pub open spec fn tidy(self) -> bool {
        sorted(self.tables) && forall|i: int|
            0 <= i < self.tables.len() ==> (#[trigger] self.tables[i]).1.tidy()
    }
}

/// A table of a tidy store can be replaced by a tidy one.
proof fn lemma_put_edge_table(s: EdgeStoreView, key: u64, t: EdgeTableView, r: EdgeStoreView)
    requires
        s.tidy(),
        t.tidy(),
        r == (EdgeStoreView { tables: put(s.tables, key, t), ..s }),
    ensures
        r.tidy(),
        lookup(r.tables, key) == Some(t),
        forall|k: u64| k != key ==> #[trigger] lookup(r.tables, k) == lookup(s.tables, k),
{
    let p = |t: EdgeTableView| t.tidy();
    assert forall|i: int| 0 <= i < s.tables.len() implies p((#[trigger] s.tables[i]).1) by {}
    ordered_map::lemma_put_keeps(s.tables, key, t, p);
    ordered_map::law_put_then_lookup(s.tables, key, t, 0);
    assert forall|i: int| 0 <= i < r.tables.len() implies (#[trigger] r.tables[i]).1.tidy() by {
        assert(p(r.tables[i].1));
    }
    assert forall|k: u64| k != key implies #[trigger] lookup(r.tables, k) == lookup(
        s.tables,
        k,
    ) by {
        ordered_map::law_put_then_lookup(s.tables, key, t, k);
    }
}

/// The edges at an offset with one table replaced by one that has the same there, or one more.
proof fn lemma_joined_update(
    tables: EdgeTables,
    i: int,
    t: EdgeTableView,
    n: nat,
    offset: u64,
    direction: Direction,
)
    requires
        0 <= i < tables.len(),
        n <= tables.len(),
    ensures
        ({
            let after = joined_neighbors(
                tables.update(i, (tables[i].0, t)),
                n,
                offset,
                direction,
            );
            let before = joined_neighbors(tables, n, offset, direction);
            let own = tables[i].1.neighbors(offset, direction);
            let new = t.neighbors(offset, direction);
            &&& i >= n || new == own ==> after == before
            &&& i < n ==> forall|r: EdgeRef|
                new == #[trigger] own.push(r) ==> after.to_multiset()
                    == before.to_multiset().insert(r)
        }),
    decreases n,
{
    if n > 0 {
        let m = (n - 1) as nat;
        lemma_joined_update(tables, i, t, m, offset, direction);
        let updated = tables.update(i, (tables[i].0, t));
        let a = joined_neighbors(updated, m, offset, direction);
        let b = joined_neighbors(tables, m, offset, direction);
        let own = tables[i].1.neighbors(offset, direction);
        let new = t.neighbors(offset, direction);
        let tail = tables[n - 1].1.neighbors(offset, direction);
        if i < n {
            assert forall|r: EdgeRef| new == #[trigger] own.push(r) implies joined_neighbors(
                updated,
                n,
                offset,
                direction,
            ).to_multiset() == joined_neighbors(
                tables,
                n,
                offset,
                direction,
            ).to_multiset().insert(r) by {
                if i == n - 1 {
                    assert(a == b);
                    let s = b + own;
                    assert(b + own.push(r) =~= s.push(r));
                    s.to_multiset_ensures();
                } else {
                    assert(updated[n - 1] == tables[n - 1]);
                    vstd::seq_lib::lemma_multiset_commutative(a, tail);
                    vstd::seq_lib::lemma_multiset_commutative(b, tail);
                    assert(b.to_multiset().insert(r).add(tail.to_multiset())
                        =~= b.to_multiset().add(tail.to_multiset()).insert(r));
                }
            }
        }
    }
}

/// Creating an edge of a known type between known nodes succeeds if the values are of the columns'
/// types and no refused edge left values behind in the group that it goes into. The edge is read back
/// if it was not there before, it is among the edges of its nodes' offsets, and there is one more of
/// its type. Nothing else changes, and nothing that is read if the edge is refused.
pub proof fn law_create_edge(
    s: EdgeStoreView,
    edge_id: EdgeId,
    type_id: LabelId,
    from: NodeId,
    to: NodeId,
    properties: Seq<PropertyView>,
    other: EdgeId,
    other_type: LabelId,
    offset: u64,
)
    requires
        s.tidy(),
        s.has_room(CommandView::CreateEdge { edge_id, type_id, from, to, properties }),
    ensures
        ({
            let a = s.apply(CommandView::CreateEdge { edge_id, type_id, from, to, properties });
            match (s.offset(from), s.offset(to), s.catalog.edge_type(type_id), s.table(type_id)) {
                (Some(from_offset), Some(to_offset), Some(schema), Some(t)) => {
                    let row = aligned_row(schema.properties.len(), properties);
                    let fwd = Direction::Forward;
                    let bwd = Direction::Backward;
                    &&& a.state.tidy()
                    &&& types_match(t.columns(), row) && t.even_at(from_offset) ==> a.result is Ok
                    &&& a.result is Ok ==> types_match(t.columns(), row)
                    &&& a.result is Ok && t.lacks(edge_id) ==> (a.state.read(
                        edge_id,
                        type_id,
                    ) matches Some(record) && record.edge_id == edge_id && record.from == from
                        && record.to == to && (t.even_at(from_offset) ==> record.properties
                        == padded(t.columns(), row)))
                    &&& a.result is Err || other != edge_id || other_type != type_id
                        ==> a.state.read(other, other_type) == s.read(other, other_type)
                    &&& a.state.num_edges(other_type) == s.num_edges(other_type)
                        + if a.result is Ok && other_type == type_id {
                        1int
                    } else {
                        0
                    }
                    &&& if a.result is Ok && offset == from_offset {
                        a.state.neighbors(offset, fwd).to_multiset() == s.neighbors(
                            offset,
                            fwd,
                        ).to_multiset().insert(
                            EdgeRef { edge_id, type_id: t.schema.label_id, neighbor: to },
                        )
                    } else {
                        a.state.neighbors(offset, fwd) == s.neighbors(offset, fwd)
                    }
                    &&& if a.result is Ok && offset == to_offset {
                        a.state.neighbors(offset, bwd).to_multiset() == s.neighbors(
                            offset,
                            bwd,
                        ).to_multiset().insert(
                            EdgeRef { edge_id, type_id: t.schema.label_id, neighbor: from },
                        )
                    } else {
                        a.state.neighbors(offset, bwd) == s.neighbors(offset, bwd)
                    }
                },
                (None, _, _, _) => a.state == s && a.result == Err::<(), ErrorView>(
                    ErrorView::NodeNotFound { node_id: from },
                ),
                (_, None, _, _) => a.state == s && a.result == Err::<(), ErrorView>(
                    ErrorView::NodeNotFound { node_id: to },
                ),
                _ => a.state == s && a.result == Err::<(), ErrorView>(
                    ErrorView::LabelNotFound { label_id: type_id },
                ),
            }
        }),
{
    let a = s.apply(CommandView::CreateEdge { edge_id, type_id, from, to, properties });
    match (s.offset(from), s.offset(to), s.catalog.edge_type(type_id), s.table(type_id)) {
        (Some(from_offset), Some(to_offset), Some(schema), Some(t)) => {
            let row = aligned_row(schema.properties.len(), properties);
            let key = type_id.0 as u64;
            let at = ordered_map::rank(s.tables, key) as int;
            assert(s.tables[at].1.tidy());
            let i = t.insert(edge_id, from, to, from_offset, to_offset, row);
            edge_laws::law_insert_then_read(
                t,
                edge_id,
                from,
                to,
                from_offset,
                to_offset,
                row,
                other,
                offset,
            );
            if i.result is Err {
                edge_laws::law_refused_insert(
                    t,
                    edge_id,
                    from,
                    to,
                    from_offset,
                    to_offset,
                    row,
                    other,
                    offset,
                    Direction::Forward,
                );
                edge_laws::law_refused_insert(
                    t,
                    edge_id,
                    from,
                    to,
                    from_offset,
                    to_offset,
                    row,
                    edge_id,
                    offset,
                    Direction::Backward,
                );
            }
            lemma_put_edge_table(s, key, i.state, a.state);
            assert(a.state.tables =~= s.tables.update(at, (s.tables[at].0, i.state)));
            lemma_joined_update(
                s.tables,
                at,
                i.state,
                s.tables.len(),
                offset,
                Direction::Forward,
            );
            lemma_joined_update(
                s.tables,
                at,
                i.state,
                s.tables.len(),
                offset,
                Direction::Backward,
            );
            assert(other_type != type_id ==> lookup(a.state.tables, other_type.0 as u64) == lookup(
                s.tables,
                other_type.0 as u64,
            ));
        },
        _ => {},
    }
}

/// The edges at an offset without an edge that one table has.
proof fn lemma_joined_without(
    tables: EdgeTables,
    i: int,
    t: EdgeTableView,
    edge_id: EdgeId,
    n: nat,
    offset: u64,
    direction: Direction,
)
    requires
        0 <= i < tables.len(),
        n <= tables.len(),
        t.neighbors(offset, direction) == without_edge(
            tables[i].1.neighbors(offset, direction),
            edge_id,
        ),
        forall|j: int|
            0 <= j < tables.len() && j != i ==> (#[trigger] tables[j]).1.neighbors(
                offset,
                direction,
            ) == without_edge(tables[j].1.neighbors(offset, direction), edge_id),
    ensures
        joined_neighbors(tables.update(i, (tables[i].0, t)), n, offset, direction) == without_edge(
            joined_neighbors(tables, n, offset, direction),
            edge_id,
        ),
    decreases n,
{
    if n > 0 {
        let m = (n - 1) as nat;
        lemma_joined_without(tables, i, t, edge_id, m, offset, direction);
        edge_laws::lemma_without_concat(
            joined_neighbors(tables, m, offset, direction),
            tables[n - 1].1.neighbors(offset, direction),
            edge_id,
        );
    }
}

/// The other edges at an offset after one table lost an edge.
proof fn lemma_joined_others(
    tables: EdgeTables,
    i: int,
    t: EdgeTableView,
    edge_id: EdgeId,
    n: nat,
    offset: u64,
    direction: Direction,
)
    requires
        0 <= i < tables.len(),
        n <= tables.len(),
        without_edge(t.neighbors(offset, direction), edge_id) == without_edge(
            tables[i].1.neighbors(offset, direction),
            edge_id,
        ),
    ensures
        without_edge(
            joined_neighbors(tables.update(i, (tables[i].0, t)), n, offset, direction),
            edge_id,
        ) == without_edge(joined_neighbors(tables, n, offset, direction), edge_id),
    decreases n,
{
    if n > 0 {
        let m = (n - 1) as nat;
        let after = tables.update(i, (tables[i].0, t));
        lemma_joined_others(tables, i, t, edge_id, m, offset, direction);
        edge_laws::lemma_without_concat(
            joined_neighbors(tables, m, offset, direction),
            tables[n - 1].1.neighbors(offset, direction),
            edge_id,
        );
        edge_laws::lemma_without_concat(
            joined_neighbors(after, m, offset, direction),
            after[n - 1].1.neighbors(offset, direction),
            edge_id,
        );
    }
}

/// Deleting an edge succeeds exactly if some table has it, and takes it out of the first that does:
/// there is one edge less of that type. If the edge was created once, and is of one type, it is not
/// there any more, and it is among the edges of no offset. Every other edge is read as before, and
/// the others at an offset keep their order. Nothing at all changes if there is no such edge.
pub proof fn law_delete_edge(
    s: EdgeStoreView,
    edge_id: EdgeId,
    other: EdgeId,
    type_id: LabelId,
    offset: u64,
    direction: Direction,
)
    requires
        s.tidy(),
    ensures
        ({
            let a = s.apply(CommandView::DeleteEdge { edge_id });
            match s.table_with(edge_id) {
                Some(i) => {
                    let t = s.tables[i].1;
                    let is_first = type_id.0 as u64 == s.tables[i].0;
                    let of_one_type = forall|j: int|
                        0 <= j < s.tables.len() && j != i ==> (#[trigger] s.tables[j]).1.lacks(
                            edge_id,
                        );
                    &&& a.state.tidy()
                    &&& a.result is Ok
                    &&& !t.lacks(edge_id)
                    &&& t.has_once(edge_id) && is_first ==> a.state.read(edge_id, type_id) is None
                    &&& !is_first || other != edge_id ==> a.state.read(other, type_id) == s.read(
                        other,
                        type_id,
                    )
                    &&& a.state.num_edges(type_id) == s.num_edges(type_id) - if is_first {
                        1int
                    } else {
                        0
                    }
                    &&& without_edge(a.state.neighbors(offset, direction), edge_id) == without_edge(
                        s.neighbors(offset, direction),
                        edge_id,
                    )
                    &&& t.has_once(edge_id) && of_one_type ==> a.state.neighbors(offset, direction)
                        == without_edge(s.neighbors(offset, direction), edge_id)
                },
                None => a.state == s && a.result == Err::<(), ErrorView>(
                    ErrorView::EdgeNotFound { edge_id },
                ) && s.read(edge_id, type_id) is None && (forall|j: int|
                    0 <= j < s.tables.len() ==> (#[trigger] s.tables[j]).1.lacks(edge_id)),
            }
        }),
{
    let a = s.apply(CommandView::DeleteEdge { edge_id });
    search::lemma_first_where(s.tables.len(), s.table_answers(edge_id));
    match s.table_with(edge_id) {
        Some(i) => {
            let t = s.tables[i].1;
            assert(s.table_answers(edge_id)(i));
            assert(t.tidy());
            edge_laws::law_read_is_present(t, edge_id, offset);
            edge_laws::law_delete_exactly(t, edge_id, other, offset);
            lemma_joined_others(
                s.tables,
                i,
                t.delete(edge_id),
                edge_id,
                s.tables.len(),
                offset,
                direction,
            );
            if t.has_once(edge_id) {
                edge_laws::law_delete_hides(t, edge_id, other, offset);
            }
            ordered_map::lemma_rank_at(s.tables, i);
            let key = s.tables[i].0;
            assert(a.state.tables =~= put(s.tables, key, t.delete(edge_id)));
            lemma_put_edge_table(s, key, t.delete(edge_id), a.state);
            assert(type_id.0 as u64 != key ==> lookup(a.state.tables, type_id.0 as u64) == lookup(
                s.tables,
                type_id.0 as u64,
            ));
            let of_one_type = forall|j: int|
                0 <= j < s.tables.len() && j != i ==> (#[trigger] s.tables[j]).1.lacks(edge_id);
            if t.has_once(edge_id) && of_one_type {
                assert forall|j: int| 0 <= j < s.tables.len() && j != i implies (
                #[trigger] s.tables[j]).1.neighbors(offset, direction) == without_edge(
                    s.tables[j].1.neighbors(offset, direction),
                    edge_id,
                ) by {
                    assert(s.tables[j].1.tidy());
                    edge_laws::law_read_is_present(s.tables[j].1, edge_id, offset);
                }
                lemma_joined_without(
                    s.tables,
                    i,
                    t.delete(edge_id),
                    edge_id,
                    s.tables.len(),
                    offset,
                    direction,
                );
            }
        },
        None => {
            assert forall|j: int| 0 <= j < s.tables.len() implies (#[trigger] s.tables[j]).1.lacks(
                edge_id,
            ) by {
                assert(!s.table_answers(edge_id)(j));
                edge_laws::law_read_is_present(s.tables[j].1, edge_id, offset);
            }
            let key = type_id.0 as u64;
            if ordered_map::has_key(s.tables, key) {
                let at = ordered_map::rank(s.tables, key) as int;
                assert(!s.table_answers(edge_id)(at));
            }
        },
    }
}

/// Commands on nodes and vectors do nothing to edges.
pub proof fn law_edge_store_ignores(s: EdgeStoreView, cmd: CommandView)
    requires
        !(cmd is CreateEdge),
        !(cmd is DeleteEdge),
    ensures
        s.apply(cmd).state == s,
        s.apply(cmd).result is Ok,
{
}

} // verus!
