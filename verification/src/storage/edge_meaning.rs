//! What the commands on edges mean in memory: what is read from a store before and after them, value by
//! value, and which edges stand at which node.

use vstd::prelude::*;

use crate::adjacency::EdgeRef;
use crate::catalog::{CatalogView, EdgeTypeView};
use crate::command::CommandView;
use crate::error::ErrorView;
use crate::ordered_map;
use crate::ordered_map::{lookup, put, put_all, sorted};
use crate::search;
use crate::search::first_where;
use crate::state::edge_laws::lemma_append_mismatch;
use crate::state::edge_meaning::{near_end, one_record, other_end};
use crate::storage::adjacency_index;
use crate::storage::adjacency_index::without_edge;
use crate::storage::edge_laws;
use crate::storage::edge_records;
use crate::storage::edge_records::record_of;
use crate::storage::edge_store::{empty_tables, PlainStoreView};
use crate::storage::edge_table::PlainEdgesView;
use crate::table::edge::RecordView;
use crate::table::node::types_match;
use crate::table::row;
use crate::table::row::{aligned_row, empty_columns, RowView};
use crate::table::row_laws;
use crate::table::row_laws::{acceptable, first_refused, holds_values};
use crate::types::{Direction, EdgeId, LabelId, NodeId, PropertyView};

verus! {

// ---------------------------------------------------------------------------------------------
// Tables and types

/// Types that share an id are the same.
pub open spec fn types_differ(types: Seq<EdgeTypeView>) -> bool {
    forall|i: int, j: int|
        0 <= i < types.len() && 0 <= j < types.len() && (#[trigger] types[i]).label_id == (
        #[trigger] types[j]).label_id ==> types[i] == types[j]
}

impl PlainStoreView {
    /// There is a table for each type of the catalog, with its properties, and no other.
    pub open spec fn typed(self) -> bool {
        let types = self.catalog.edge_types;
        &&& forall|i: int|
            0 <= i < types.len() ==> (self.table((#[trigger] types[i]).label_id) matches Some(t)
                && t.schema == types[i])
        &&& forall|j: int|
            0 <= j < self.tables.len() ==> exists|i: int|
                0 <= i < types.len() && (#[trigger] types[i]).label_id.0 as u64 == (
                #[trigger] self.tables[j]).0
    }

    /// No values were left behind by a refused edge.
    pub open spec fn unspoilt(self) -> bool {
        forall|i: int| 0 <= i < self.tables.len() ==> (#[trigger] self.tables[i]).1.even()
    }

    /// Each reference at a node is to an edge that is listed for its type, and leads from the node to
    /// the neighbor.
    pub open spec fn resolved(self) -> bool {
        forall|n: NodeId, d: Direction, x: int|
            0 <= x < self.neighbors(n, d).len() ==> leads(
                self,
                n,
                d,
                #[trigger] self.neighbors(n, d)[x],
            )
    }
}

/// The reference is to an edge that is listed for its type, and leads from the node to the neighbor.
pub open spec fn leads(s: PlainStoreView, n: NodeId, d: Direction, r: EdgeRef) -> bool {
    exists|p: int|
        {
            &&& 0 <= p < s.records(r.type_id).len()
            &&& (#[trigger] s.records(r.type_id)[p]).edge_id == r.edge_id
            &&& near_end(s.records(r.type_id)[p], d) == n
            &&& other_end(s.records(r.type_id)[p], d) == r.neighbor
        }
}

/// A new store has a table for each type, and no edges.
pub proof fn law_empty_store(catalog: CatalogView)
    requires
        types_differ(catalog.edge_types),
    ensures
        ({
            let s = PlainStoreView::empty(catalog);
            &&& s.regular()
            &&& s.typed()
            &&& s.unspoilt()
            &&& s.resolved()
            &&& s.catalog == catalog
            &&& forall|x: EdgeId, l: LabelId| #[trigger] s.read(x, l) is None
            &&& forall|l: LabelId| #[trigger] s.num_edges(l) == 0
            &&& forall|l: LabelId| #[trigger] s.records(l) == Seq::<RecordView>::empty()
            &&& forall|n: NodeId, d: Direction| #[trigger]
                s.neighbors(n, d) == Seq::<EdgeRef>::empty()
        }),
{
    let s = PlainStoreView::empty(catalog);
    let types = catalog.edge_types;
    edge_laws::law_empty_store_regular(catalog, NodeId(0), Direction::Forward);
    lemma_new_tables(types, types.len());
    assert forall|i: int| 0 <= i < types.len() implies (s.table(
        (#[trigger] types[i]).label_id,
    ) matches Some(t) && t.schema == types[i]) by {
        let t = lookup(s.tables, types[i].label_id.0 as u64)->Some_0;
        assert(types[i].label_id == t.schema.label_id);
    }
    assert forall|j: int| 0 <= j < s.tables.len() implies (#[trigger] s.tables[j]).1.even()
        && exists|i: int|
        0 <= i < types.len() && (#[trigger] types[i]).label_id.0 as u64 == s.tables[j].0 by {
        ordered_map::lemma_rank_at(s.tables, j);
        assert(lookup(s.tables, s.tables[j].0) is Some);
        edge_laws::law_empty_regular(s.tables[j].1.schema, EdgeId(0));
    }
    assert forall|x: EdgeId, l: LabelId| #[trigger] s.read(x, l) is None by {
        if s.table(l) is Some {
            edge_laws::law_empty_regular(s.table(l)->Some_0.schema, x);
        }
    }
    assert forall|l: LabelId| #[trigger] s.records(l) == Seq::<RecordView>::empty() by {
        if s.table(l) is Some {
            assert(s.records(l) =~= Seq::<RecordView>::empty());
        }
    }
    assert forall|l: LabelId| #[trigger] s.num_edges(l) == 0 by {
        if s.table(l) is Some {
            let t = s.table(l)->Some_0;
            edge_laws::law_empty_regular(t.schema, EdgeId(0));
            edge_records::law_records_counted(t);
        }
    }
}

proof fn lemma_new_tables(types: Seq<EdgeTypeView>, n: nat)
    requires
        n <= types.len(),
    ensures
        ({
            let r = put_all(empty_tables(types), n);
            &&& sorted(r)
            &&& forall|i: int|
                0 <= i < n ==> lookup(r, (#[trigger] types[i]).label_id.0 as u64) is Some
            &&& forall|k: u64| #[trigger]
                lookup(r, k) matches Some(t) ==> t == PlainEdgesView::empty(t.schema)
                    && t.schema.label_id.0 as u64 == k && exists|i: int|
                    0 <= i < n && #[trigger] types[i] == t.schema
        }),
    decreases n,
{
    if n > 0 {
        lemma_new_tables(types, (n - 1) as nat);
        let tables = empty_tables(types);
        let before = put_all(tables, (n - 1) as nat);
        let (key, t) = tables[n - 1];
        let r = put(before, key, t);
        ordered_map::law_put_then_lookup(before, key, t, 0);
        assert(types[n - 1] == t.schema);
        assert forall|i: int| 0 <= i < n implies lookup(
            r,
            (#[trigger] types[i]).label_id.0 as u64,
        ) is Some by {
            ordered_map::law_put_then_lookup(before, key, t, types[i].label_id.0 as u64);
        }
        assert forall|k: u64| #[trigger] lookup(r, k) is Some implies ({
            let u = lookup(r, k)->Some_0;
            u == PlainEdgesView::empty(u.schema) && u.schema.label_id.0 as u64 == k && exists|
                i: int,
            |
                0 <= i < n && #[trigger] types[i] == u.schema
        }) by {
            ordered_map::law_put_then_lookup(before, key, t, k);
            if k != key {
                let u = lookup(before, k)->Some_0;
                let i = choose|i: int| 0 <= i < n - 1 && #[trigger] types[i] == u.schema;
                assert(types[i] == u.schema);
            }
        }
    }
}

/// The schema and the table of a type.
proof fn lemma_type(s: PlainStoreView, type_id: LabelId)
    requires
        s.typed(),
    ensures
        s.catalog.edge_type(type_id) is None <==> forall|c: int|
            0 <= c < s.catalog.edge_types.len() ==> (#[trigger] s.catalog.edge_types[c]).label_id
                != type_id,
        forall|c: int|
            0 <= c < s.catalog.edge_types.len() && (#[trigger] s.catalog.edge_types[c]).label_id
                == type_id ==> s.catalog.edge_type(type_id) == Some(s.catalog.edge_types[c]) && (
            s.table(type_id) matches Some(t) && t.schema == s.catalog.edge_types[c]),
{
    let types = s.catalog.edge_types;
    let p = s.catalog.edge_type_is(type_id);
    search::lemma_first_where(types.len(), p);
    assert forall|c: int|
        0 <= c < types.len() && (#[trigger] types[c]).label_id == type_id implies s.catalog.edge_type(
        type_id,
    ) == Some(types[c]) && (s.table(type_id) matches Some(t) && t.schema == types[c]) by {
        assert(p(c));
        let i = first_where(types.len(), p)->Some_0;
        assert(p(i));
        assert(s.table(types[i].label_id)->Some_0.schema == types[i]);
        assert(s.table(types[c].label_id)->Some_0.schema == types[c]);
    }
    if s.catalog.edge_type(type_id) is None {
        assert forall|c: int| 0 <= c < types.len() implies (#[trigger] types[c]).label_id
            != type_id by {
            assert(!p(c));
        }
    } else {
        let i = first_where(types.len(), p)->Some_0;
        assert(p(i));
        assert(types[i].label_id == type_id);
    }
}

/// An edge is read from a table exactly if it has a record there: the first of them.
proof fn lemma_read_record(t: PlainEdgesView, edge_id: EdgeId)
    requires
        t.regular(),
    ensures
        match t.read(edge_id) {
            Ok(Some(record)) => t.group_with(edge_id) is Some && record.edge_id == edge_id,
            Ok(None) => t.group_with(edge_id) is None && forall|p: int|
                0 <= p < t.records().len() ==> (#[trigger] t.records()[p]).edge_id != edge_id,
            Err(_) => false,
        },
{
    let list = t.records();
    edge_records::law_delete_record(t, edge_id);
    search::lemma_first_where(list.len(), record_of(list, edge_id));
    match first_where(list.len(), record_of(list, edge_id)) {
        Some(p) => {
            assert(record_of(list, edge_id)(p));
        },
        None => {
            assert forall|p: int| 0 <= p < list.len() implies (#[trigger] list[p]).edge_id
                != edge_id by {
                assert(!record_of(list, edge_id)(p));
            }
        },
    }
}

/// Replacing a table by one of the same type keeps which types there are.
proof fn lemma_still_typed(s: PlainStoreView, tables: Seq<(u64, PlainEdgesView)>, i: int, t: PlainEdgesView)
    requires
        s.regular(),
        s.typed(),
        0 <= i < s.tables.len(),
        t.schema == s.tables[i].1.schema,
        tables == s.tables.update(i, (s.tables[i].0, t)),
    ensures
        forall|r: PlainStoreView|
            r.tables == tables && r.catalog == s.catalog ==> #[trigger] r.typed(),
        s.tables[i].0 <= u32::MAX,
        s.table(LabelId(s.tables[i].0 as u32)) == Some(s.tables[i].1),
{
    let types = s.catalog.edge_types;
    ordered_map::lemma_update_is_put(s.tables, i, t);
    assert forall|r: PlainStoreView| r.tables == tables && r.catalog == s.catalog implies #[trigger] r.typed() by {
        assert forall|x: int| 0 <= x < types.len() implies (r.table(
            (#[trigger] types[x]).label_id,
        ) matches Some(u) && u.schema == types[x]) by {
            assert(s.table(types[x].label_id)->Some_0.schema == types[x]);
        }
        assert forall|j: int| 0 <= j < r.tables.len() implies exists|x: int|
            0 <= x < types.len() && (#[trigger] types[x]).label_id.0 as u64 == (
            #[trigger] r.tables[j]).0 by {
            assert(r.tables[j].0 == s.tables[j].0);
            let x = choose|x: int|
                0 <= x < types.len() && (#[trigger] types[x]).label_id.0 as u64 == (
                #[trigger] s.tables[j]).0;
            assert(types[x].label_id.0 as u64 == r.tables[j].0);
        }
    }
    let c = choose|c: int|
        0 <= c < types.len() && (#[trigger] types[c]).label_id.0 as u64 == (
        #[trigger] s.tables[i]).0;
    assert(types[c].label_id.0 as u64 == s.tables[i].0);
}

/// The error of an edge that is refused, where none was refused before.
proof fn lemma_refused_error(
    t: PlainEdgesView,
    edge_id: EdgeId,
    from: NodeId,
    to: NodeId,
    values: RowView,
)
    requires
        t.regular(),
        t.even(),
        !types_match(t.columns(), values),
    ensures
        t.insert(edge_id, from, to, values).result is Err,
        t.insert(edge_id, from, to, values).result->Err_0 == row::first_mismatch(
            empty_columns(t.columns()),
            values,
            t.columns().len(),
        )->Some_0,
{
    edge_laws::lemma_active(t, edge_id);
    let a = PlainEdgesView { groups: t.active_groups(), ..t };
    let g = a.groups[a.groups.len() - 1];
    assert(a.groups.last() == g);
    assert(g.regular() && row::has_schema(g.columns, t.columns()));
    assert forall|c: int| 0 <= c < g.columns.len() implies (#[trigger] g.columns[c]).len()
        < 65536 by {}
    lemma_append_mismatch(g.columns, values, g.columns.len());
    assert forall|c: int| 0 <= c < g.columns.len() implies (#[trigger] g.columns[c]).data_type
        == empty_columns(t.columns())[c].data_type by {}
    row::lemma_mismatch_by_type(g.columns, empty_columns(t.columns()), values, g.columns.len());
}

// ---------------------------------------------------------------------------------------------
// Commands

/// References without those to an edge, in their order.
pub open spec fn without_edges(refs: Seq<EdgeRef>, edge_id: EdgeId) -> Seq<EdgeRef> {
    refs.filter(|r: EdgeRef| r.edge_id != edge_id)
}

proof fn lemma_without_edges(refs: Seq<EdgeRef>, edge_id: EdgeId)
    ensures
        without_edges(refs, edge_id) == without_edge(refs, edge_id),
    decreases refs.len(),
{
    reveal(Seq::filter);
    if refs.len() > 0 {
        lemma_without_edges(refs.drop_last(), edge_id);
    }
}

/// What creating an edge is for. A type that the catalog does not have is refused, and nothing changes.
/// Otherwise, where no edge was refused before, the edge is taken exactly if each value is taken by
/// the property in its place, and the error names the first that is not. An edge that is taken is the
/// last record of its type, with its ends and the values of the command, as many as there are
/// properties; if the type did not have it, it is read back so. It is the last at its two ends.
/// Whatever else is read is read as before, and so is everything if the edge is refused.
pub open spec fn edge_created(
    s: PlainStoreView,
    r: PlainStoreView,
    result: Result<(), ErrorView>,
    edge_id: EdgeId,
    type_id: LabelId,
    from: NodeId,
    to: NodeId,
    values: Seq<PropertyView>,
) -> bool {
    let types = s.catalog.edge_types;
    let fwd = Direction::Forward;
    let bwd = Direction::Backward;
    &&& r.catalog == s.catalog
    &&& (forall|c: int| 0 <= c < types.len() ==> (#[trigger] types[c]).label_id != type_id)
        ==> r == s && result == Err::<(), ErrorView>(
        ErrorView::LabelNotFound { label_id: type_id },
    )
    &&& forall|c: int|
        0 <= c < types.len() && (#[trigger] types[c]).label_id == type_id ==> {
            let properties = types[c].properties;
            &&& result is Ok ==> acceptable(properties, values)
            &&& s.unspoilt() && acceptable(properties, values) ==> result is Ok
            &&& forall|i: int| #[trigger]
                first_refused(properties, values, i) && s.unspoilt() ==> result == Err::<
                    (),
                    ErrorView,
                >(
                    ErrorView::ColumnTypeMismatch {
                        expected: properties[i].data_type,
                        got: values[i].data_type(),
                    },
                )
            &&& result is Ok ==> {
                let last = r.records(type_id).last();
                &&& r.records(type_id) == s.records(type_id).push(last)
                &&& last.edge_id == edge_id
                &&& last.from == from
                &&& last.to == to
                &&& s.unspoilt() ==> holds_values(last.properties, properties.len(), values)
                &&& s.read(edge_id, type_id) is None ==> r.read(edge_id, type_id) == Some(last)
            }
        }
    &&& result is Ok && s.unspoilt() ==> r.unspoilt()
    &&& forall|x: EdgeId, l: LabelId|
        result is Err || x != edge_id || l != type_id || s.read(x, l) is Some ==> #[trigger] r.read(
            x,
            l,
        ) == s.read(x, l)
    &&& forall|l: LabelId| #[trigger]
        r.num_edges(l) == s.num_edges(l) + if result is Ok && l == type_id {
            1int
        } else {
            0
        }
    &&& forall|l: LabelId|
        result is Err || l != type_id ==> #[trigger] r.records(l) == s.records(l)
    &&& forall|n: NodeId| #[trigger]
        r.neighbors(n, fwd) == if result is Ok && n == from {
            s.neighbors(n, fwd).push(EdgeRef { edge_id, type_id, neighbor: to })
        } else {
            s.neighbors(n, fwd)
        }
    &&& forall|n: NodeId| #[trigger]
        r.neighbors(n, bwd) == if result is Ok && n == to {
            s.neighbors(n, bwd).push(EdgeRef { edge_id, type_id, neighbor: from })
        } else {
            s.neighbors(n, bwd)
        }
}

/// The type is the first that has the edge.
pub open spec fn first_type(s: PlainStoreView, edge_id: EdgeId, type_id: LabelId) -> bool {
    s.read(edge_id, type_id) is Some && forall|l: LabelId|
        #[trigger] s.read(edge_id, l) is Some ==> type_id.0 <= l.0
}

/// What deleting an edge is for. It fails exactly if no type has the edge, and then nothing changes.
/// Otherwise the record that was read of it goes from the first type that has it, and all others stay
/// in their order; if that was its only record there, it reads as nothing there. No reference at its
/// two ends is to the edge any more, and all others stay. Whatever else is read is read as before.
pub open spec fn edge_deleted(
    s: PlainStoreView,
    r: PlainStoreView,
    result: Result<(), ErrorView>,
    edge_id: EdgeId,
) -> bool {
    &&& r.catalog == s.catalog
    &&& (forall|l: LabelId| #[trigger] s.read(edge_id, l) is None) ==> r == s && result == Err::<
        (),
        ErrorView,
    >(ErrorView::EdgeNotFound { edge_id })
    &&& forall|l: LabelId| #[trigger] s.read(edge_id, l) is Some ==> result is Ok
    &&& s.unspoilt() ==> r.unspoilt()
    &&& forall|l: LabelId| #[trigger]
        first_type(s, edge_id, l) ==> {
            let record = s.read(edge_id, l)->Some_0;
            &&& one_record(s.records(l), edge_id) ==> r.read(edge_id, l) is None
            &&& r.num_edges(l) == s.num_edges(l) - 1
            &&& exists|p: int|
                0 <= p < s.records(l).len() && #[trigger] s.records(l)[p] == record
                    && record.edge_id == edge_id && r.records(l) == s.records(l).remove(p)
            &&& forall|n: NodeId, d: Direction| #[trigger]
                r.neighbors(n, d) == if n == near_end(record, d) {
                    without_edges(s.neighbors(n, d), edge_id)
                } else {
                    s.neighbors(n, d)
                }
        }
    &&& forall|x: EdgeId, l: LabelId|
        x != edge_id || !first_type(s, edge_id, l) ==> #[trigger] r.read(x, l) == s.read(x, l)
    &&& forall|l: LabelId|
        !first_type(s, edge_id, l) ==> #[trigger] r.num_edges(l) == s.num_edges(l)
    &&& forall|l: LabelId|
        !first_type(s, edge_id, l) ==> #[trigger] r.records(l) == s.records(l)
}

/// Creating an edge does what it is for.
#[verifier::rlimit(60)]
pub proof fn law_create_edge(
    s: PlainStoreView,
    edge_id: EdgeId,
    type_id: LabelId,
    from: NodeId,
    to: NodeId,
    values: Seq<PropertyView>,
)
    requires
        s.regular(),
        s.typed(),
    ensures
        ({
            let a = s.apply(
                CommandView::CreateEdge { edge_id, type_id, from, to, properties: values },
            );
            &&& a.state.regular()
            &&& a.state.typed()
            &&& edge_created(s, a.state, a.result, edge_id, type_id, from, to, values)
        }),
{
    let a = s.apply(CommandView::CreateEdge { edge_id, type_id, from, to, properties: values });
    let r = a.state;
    let types = s.catalog.edge_types;
    let fwd = Direction::Forward;
    let bwd = Direction::Backward;
    lemma_type(s, type_id);
    match s.catalog.edge_type(type_id) {
        Some(schema) => {
            let is_type = s.catalog.edge_type_is(type_id);
            search::lemma_first_where(types.len(), is_type);
            let c0 = first_where(types.len(), is_type)->Some_0;
            assert(is_type(c0));
            assert(types[c0].label_id == type_id);
            let t = s.table(type_id)->Some_0;
            let properties = schema.properties;
            let row = aligned_row(properties.len(), values);
            let at = ordered_map::rank(s.tables, type_id.0 as u64) as int;
            assert(s.tables[at].1.regular());
            row_laws::law_columns_of(properties);
            row_laws::lemma_acceptable(t.columns(), properties, values);
            let u = t.insert(edge_id, from, to, row).state;
            assert(r.tables =~= s.tables.update(at, (s.tables[at].0, u)));
            assert(u.schema == t.schema);
            lemma_still_typed(s, r.tables, at, u);
            ordered_map::lemma_update_is_put(s.tables, at, u);
            edge_laws::law_create_edge(
                s,
                edge_id,
                type_id,
                from,
                to,
                values,
                edge_id,
                type_id,
                from,
            );
            edge_laws::law_insert_then_read(t, edge_id, from, to, row, edge_id);
            edge_records::law_insert_record(t, edge_id, from, to, row);
            lemma_read_record(t, edge_id);
            if s.unspoilt() {
                assert(s.tables[at].1.even());
                if !types_match(t.columns(), row) {
                    lemma_refused_error(t, edge_id, from, to, row);
                }
            }
            if a.result is Ok {
                let last = u.records().last();
                assert(r.records(type_id) == u.records());
                if s.read(edge_id, type_id) is None {
                    let list = u.records();
                    edge_records::law_delete_record(u, edge_id);
                    assert forall|p: int| 0 <= p < list.len() - 1 implies !#[trigger] record_of(
                        list,
                        edge_id,
                    )(p) by {
                        assert(list[p] == t.records()[p]);
                    }
                    assert(record_of(list, edge_id)(list.len() - 1));
                    search::lemma_first_where_is(
                        list.len(),
                        record_of(list, edge_id),
                        list.len() - 1,
                    );
                    assert(r.read(edge_id, type_id) == Some(last));
                }
                if s.unspoilt() {
                    assert forall|i: int| 0 <= i < r.tables.len() implies (
                    #[trigger] r.tables[i]).1.even() by {
                        if i != at {
                            assert(r.tables[i] == s.tables[i]);
                        }
                    }
                }
            }
            assert forall|x: EdgeId, l: LabelId|
                a.result is Err || x != edge_id || l != type_id || s.read(x, l) is Some implies #[trigger] r.read(
                x,
                l,
            ) == s.read(x, l) by {
                edge_laws::law_create_edge(s, edge_id, type_id, from, to, values, x, l, from);
            }
            assert forall|l: LabelId| #[trigger]
                r.num_edges(l) == s.num_edges(l) + if a.result is Ok && l == type_id {
                    1int
                } else {
                    0
                } by {
                edge_laws::law_create_edge(s, edge_id, type_id, from, to, values, edge_id, l, from);
            }
            assert forall|n: NodeId| #[trigger]
                r.neighbors(n, fwd) == if a.result is Ok && n == from {
                    s.neighbors(n, fwd).push(EdgeRef { edge_id, type_id, neighbor: to })
                } else {
                    s.neighbors(n, fwd)
                } by {
                edge_laws::law_create_edge(
                    s,
                    edge_id,
                    type_id,
                    from,
                    to,
                    values,
                    edge_id,
                    type_id,
                    n,
                );
            }
            assert forall|n: NodeId| #[trigger]
                r.neighbors(n, bwd) == if a.result is Ok && n == to {
                    s.neighbors(n, bwd).push(EdgeRef { edge_id, type_id, neighbor: from })
                } else {
                    s.neighbors(n, bwd)
                } by {
                edge_laws::law_create_edge(
                    s,
                    edge_id,
                    type_id,
                    from,
                    to,
                    values,
                    edge_id,
                    type_id,
                    n,
                );
            }
        },
        None => {},
    }
}

/// Deleting an edge does what it is for.
#[verifier::rlimit(60)]
pub proof fn law_delete_edge(s: PlainStoreView, edge_id: EdgeId)
    requires
        s.regular(),
        s.typed(),
    ensures
        ({
            let a = s.apply(CommandView::DeleteEdge { edge_id });
            &&& a.state.regular()
            &&& a.state.typed()
            &&& edge_deleted(s, a.state, a.result, edge_id)
        }),
{
    let a = s.apply(CommandView::DeleteEdge { edge_id });
    let r = a.state;
    search::lemma_first_where(s.tables.len(), s.table_has(edge_id));
    match s.table_with(edge_id) {
        Some(i) => {
            let t = s.tables[i].1;
            assert(s.table_has(edge_id)(i));
            assert(t.regular());
            lemma_read_record(t, edge_id);
            let record = t.read(edge_id)->Ok_0->Some_0;
            let u = t.delete(edge_id);
            lemma_still_typed(s, r.tables, i, u);
            ordered_map::lemma_update_is_put(s.tables, i, u);
            let first = LabelId(s.tables[i].0 as u32);
            edge_laws::law_delete_edge(s, edge_id, first, edge_id, NodeId(0));
            edge_laws::law_delete_hides(t, edge_id, edge_id);
            assert(s.read(edge_id, first) == Some(record));
            assert forall|l: LabelId| #[trigger] s.read(edge_id, l) is Some implies first.0 <= l.0 by {
                let j = ordered_map::rank(s.tables, l.0 as u64) as int;
                assert(s.table_has(edge_id)(j));
                if i < j {
                    assert(s.tables[i].0 < s.tables[j].0);
                }
            }
            assert forall|l: LabelId| #[trigger] first_type(s, edge_id, l) <==> l == first by {
                if first_type(s, edge_id, l) {
                    assert(s.read(edge_id, first) is Some);
                    assert(l.0 <= first.0);
                }
            }
            let list = t.records();
            assert(s.records(first) == list && r.records(first) == u.records());
            edge_records::law_delete_record(t, edge_id);
            search::lemma_first_where(list.len(), record_of(list, edge_id));
            let p = first_where(list.len(), record_of(list, edge_id))->Some_0;
            assert(record_of(list, edge_id)(p));
            assert(s.records(first)[p] == record);
            if one_record(list, edge_id) {
                lemma_read_record(u, edge_id);
                let rest = u.records();
                edge_records::law_delete_record(u, edge_id);
                search::lemma_first_where(rest.len(), record_of(rest, edge_id));
                if first_where(rest.len(), record_of(rest, edge_id)) is Some {
                    let q = first_where(rest.len(), record_of(rest, edge_id))->Some_0;
                    assert(record_of(rest, edge_id)(q));
                    let w = if q < p {
                        q
                    } else {
                        q + 1
                    };
                    assert(list[w].edge_id == edge_id && list[p].edge_id == edge_id);
                }
            }
            if s.unspoilt() {
                assert(s.tables[i].1.even());
                assert forall|j: int| 0 <= j < r.tables.len() implies (
                #[trigger] r.tables[j]).1.even() by {
                    if j != i {
                        assert(r.tables[j] == s.tables[j]);
                    }
                }
            }
            assert forall|n: NodeId, d: Direction| #[trigger]
                r.neighbors(n, d) == if n == near_end(record, d) {
                    without_edges(s.neighbors(n, d), edge_id)
                } else {
                    s.neighbors(n, d)
                } by {
                edge_laws::law_delete_edge(s, edge_id, first, edge_id, n);
                lemma_without_edges(s.neighbors(n, d), edge_id);
            }
            assert forall|x: EdgeId, l: LabelId| x != edge_id || !first_type(s, edge_id, l) implies #[trigger] r.read(
                x,
                l,
            ) == s.read(x, l) by {
                edge_laws::law_delete_edge(s, edge_id, l, x, NodeId(0));
            }
            assert forall|l: LabelId| !first_type(s, edge_id, l) implies #[trigger] r.num_edges(l)
                == s.num_edges(l) by {
                edge_laws::law_delete_edge(s, edge_id, l, edge_id, NodeId(0));
            }
        },
        None => {
            assert forall|l: LabelId| #[trigger] s.read(edge_id, l) is None by {
                if s.table(l) is Some {
                    let j = ordered_map::rank(s.tables, l.0 as u64) as int;
                    assert(!s.table_has(edge_id)(j));
                }
            }
        },
    }
}

// ---------------------------------------------------------------------------------------------
// Neighbors

/// After an edge was created, each reference still leads to an edge that is listed.
pub proof fn law_created_resolved(
    s: PlainStoreView,
    r: PlainStoreView,
    result: Result<(), ErrorView>,
    edge_id: EdgeId,
    type_id: LabelId,
    from: NodeId,
    to: NodeId,
    values: Seq<PropertyView>,
)
    requires
        s.regular(),
        s.typed(),
        s.resolved(),
        edge_created(s, r, result, edge_id, type_id, from, to, values),
    ensures
        r.resolved(),
{
    let types = s.catalog.edge_types;
    lemma_type(s, type_id);
    if s.catalog.edge_type(type_id) is Some {
        let c = choose|c: int|
            0 <= c < types.len() && (#[trigger] types[c]).label_id == type_id;
        assert(types[c].label_id == type_id);
        assert forall|n: NodeId, d: Direction, x: int|
            0 <= x < r.neighbors(n, d).len() implies leads(
            r,
            n,
            d,
            #[trigger] r.neighbors(n, d)[x],
        ) by {
            let e = r.neighbors(n, d)[x];
            assert(d == Direction::Forward || d == Direction::Backward);
            if x < s.neighbors(n, d).len() {
                assert(s.neighbors(n, d)[x] == e);
                assert(leads(s, n, d, e));
                let p = choose|p: int|
                    {
                        &&& 0 <= p < s.records(e.type_id).len()
                        &&& (#[trigger] s.records(e.type_id)[p]).edge_id == e.edge_id
                        &&& near_end(s.records(e.type_id)[p], d) == n
                        &&& other_end(s.records(e.type_id)[p], d) == e.neighbor
                    };
                assert(r.records(e.type_id)[p] == s.records(e.type_id)[p]);
            } else {
                let p = r.records(type_id).len() - 1;
                assert(r.records(type_id)[p].edge_id == edge_id);
            }
        }
    }
}

/// After an edge was deleted, each reference still leads to an edge that is listed.
pub proof fn law_deleted_resolved(
    s: PlainStoreView,
    r: PlainStoreView,
    result: Result<(), ErrorView>,
    edge_id: EdgeId,
    type_id: LabelId,
)
    requires
        s.resolved(),
        first_type(s, edge_id, type_id),
        edge_deleted(s, r, result, edge_id),
    ensures
        r.resolved(),
{
    let record = s.read(edge_id, type_id)->Some_0;
    let gone = choose|p: int|
        0 <= p < s.records(type_id).len() && #[trigger] s.records(type_id)[p] == record
            && record.edge_id == edge_id && r.records(type_id) == s.records(type_id).remove(p);
    assert forall|n: NodeId, d: Direction, x: int| 0 <= x < r.neighbors(n, d).len() implies leads(
        r,
        n,
        d,
        #[trigger] r.neighbors(n, d)[x],
    ) by {
        let e = r.neighbors(n, d)[x];
        let before = s.neighbors(n, d);
        if n == near_end(record, d) {
            lemma_without_edges(before, edge_id);
            adjacency_index::law_without_edge(before, edge_id, e);
            assert(r.neighbors(n, d).contains(e));
        } else {
            assert(before[x] == e);
        }
        assert(before.contains(e));
        let y = choose|y: int| 0 <= y < before.len() && before[y] == e;
        assert(leads(s, n, d, s.neighbors(n, d)[y]));
        let list = s.records(e.type_id);
        let p = choose|p: int|
            {
                &&& 0 <= p < list.len()
                &&& (#[trigger] list[p]).edge_id == e.edge_id
                &&& near_end(list[p], d) == n
                &&& other_end(list[p], d) == e.neighbor
            };
        if e.type_id == type_id {
            assert(p != gone);
            let q = if p < gone {
                p
            } else {
                p - 1
            };
            assert(r.records(type_id)[q] == list[p]);
        } else {
            assert(!first_type(s, edge_id, e.type_id));
            assert(r.records(e.type_id)[p] == list[p]);
        }
    }
}

} // verus!
