//! What the commands on edges mean: what is read from a store before and after them, value by value,
//! and which edges stand at which offset.

use vstd::prelude::*;

use crate::adjacency::EdgeRef;
use crate::command::CommandView;
use crate::error::ErrorView;
use crate::ordered_map;
use crate::ordered_map::{put, sorted};
use crate::search;
use crate::search::first_where;
use crate::state::edge_laws;
use crate::state::edge_records;
use crate::state::edge_store::{joined_neighbors, EdgeStoreView, EdgeTables};
use crate::state::edge_table::{
    groups_of, range_of, ranges_records, refs_of_groups, refs_of_rows, EdgeTableView,
};
use crate::state::store_laws;
use crate::storage::adjacency_index::without_edge;
use crate::storage::edge_records::record_of;
use crate::table::edge::{EdgeGroupView, RecordView};
use crate::table::node::types_match;
use crate::table::row::{aligned_row, RowView};
use crate::table::row_laws;
use crate::table::row_laws::{acceptable, first_refused, holds_values};
use crate::types::{Direction, EdgeId, LabelId, NodeId, PropertyView};

verus! {

// ---------------------------------------------------------------------------------------------
// References

/// References without those to an edge of a type, in their order.
pub open spec fn without_ref(refs: Seq<EdgeRef>, edge_id: EdgeId, type_id: LabelId) -> Seq<EdgeRef> {
    refs.filter(|r: EdgeRef| r.edge_id != edge_id || r.type_id != type_id)
}

/// The list with one more reference, behind all of its type and of the types before it.
pub open spec fn with_ref(before: Seq<EdgeRef>, after: Seq<EdgeRef>, r: EdgeRef) -> bool {
    exists|p: int|
        {
            &&& 0 <= p <= before.len()
            &&& after == #[trigger] before.insert(p, r)
            &&& forall|x: int| 0 <= x < p ==> (#[trigger] before[x]).type_id.0 <= r.type_id.0
            &&& forall|x: int|
                p <= x < before.len() ==> (#[trigger] before[x]).type_id.0 > r.type_id.0
        }
}

/// The end of an edge at which it is listed in a direction.
pub open spec fn near_end(record: RecordView, direction: Direction) -> NodeId {
    match direction {
        Direction::Forward => record.from,
        Direction::Backward => record.to,
    }
}

/// The other end.
pub open spec fn other_end(record: RecordView, direction: Direction) -> NodeId {
    match direction {
        Direction::Forward => record.to,
        Direction::Backward => record.from,
    }
}

proof fn lemma_row_types(
    g: EdgeGroupView,
    rows: Seq<u64>,
    n: nat,
    type_id: LabelId,
    direction: Direction,
)
    ensures
        forall|x: int|
            0 <= x < refs_of_rows(g, rows, n, type_id, direction).len() ==> (
            #[trigger] refs_of_rows(g, rows, n, type_id, direction)[x]).type_id == type_id,
    decreases n,
{
    if n > 0 {
        lemma_row_types(g, rows, (n - 1) as nat, type_id, direction);
        let before = refs_of_rows(g, rows, (n - 1) as nat, type_id, direction);
        let all = refs_of_rows(g, rows, n, type_id, direction);
        assert forall|x: int| 0 <= x < all.len() implies (#[trigger] all[x]).type_id == type_id by {
            if x < before.len() {
                assert(all[x] == before[x]);
            }
        }
    }
}

proof fn lemma_group_types(
    groups: Seq<EdgeGroupView>,
    n: nat,
    offset: u64,
    type_id: LabelId,
    direction: Direction,
)
    ensures
        forall|x: int|
            0 <= x < refs_of_groups(groups, n, offset, type_id, direction).len() ==> (
            #[trigger] refs_of_groups(groups, n, offset, type_id, direction)[x]).type_id == type_id,
    decreases n,
{
    if n > 0 {
        lemma_group_types(groups, (n - 1) as nat, offset, type_id, direction);
        let g = groups[n - 1];
        let rows = g.found(offset);
        lemma_row_types(g, rows, rows.len(), type_id, direction);
        let before = refs_of_groups(groups, (n - 1) as nat, offset, type_id, direction);
        let tail = refs_of_rows(g, rows, rows.len(), type_id, direction);
        let all = refs_of_groups(groups, n, offset, type_id, direction);
        assert forall|x: int| 0 <= x < all.len() implies (#[trigger] all[x]).type_id == type_id by {
            if x < before.len() {
                assert(all[x] == before[x]);
            } else {
                assert(all[x] == tail[x - before.len()]);
            }
        }
    }
}

/// The references of a table are of its type.
pub proof fn lemma_table_types(t: EdgeTableView, offset: u64, direction: Direction)
    ensures
        forall|x: int|
            0 <= x < t.neighbors(offset, direction).len() ==> (
            #[trigger] t.neighbors(offset, direction)[x]).type_id == t.schema.label_id,
{
    let groups = groups_of(t.ranges(direction), range_of(offset));
    lemma_group_types(groups, groups.len(), offset, t.schema.label_id, direction);
}

/// Taking references out one by one keeps those that are of another edge or type.
proof fn lemma_without_ref(refs: Seq<EdgeRef>, edge_id: EdgeId, type_id: LabelId)
    requires
        forall|x: int| 0 <= x < refs.len() ==> (#[trigger] refs[x]).type_id == type_id,
    ensures
        without_ref(refs, edge_id, type_id) == without_edge(refs, edge_id),
    decreases refs.len(),
{
    reveal(Seq::filter);
    if refs.len() > 0 {
        let before = refs.drop_last();
        assert forall|x: int| 0 <= x < before.len() implies (#[trigger] before[x]).type_id
            == type_id by {
            assert(before[x] == refs[x]);
        }
        lemma_without_ref(before, edge_id, type_id);
        assert(refs.last() == refs[refs.len() - 1]);
    }
}

/// References of other types stay.
proof fn lemma_keeps_types(refs: Seq<EdgeRef>, edge_id: EdgeId, type_id: LabelId)
    requires
        forall|x: int| 0 <= x < refs.len() ==> (#[trigger] refs[x]).type_id != type_id,
    ensures
        without_ref(refs, edge_id, type_id) == refs,
    decreases refs.len(),
{
    reveal(Seq::filter);
    if refs.len() > 0 {
        let before = refs.drop_last();
        assert forall|x: int| 0 <= x < before.len() implies (#[trigger] before[x]).type_id
            != type_id by {
            assert(before[x] == refs[x]);
        }
        lemma_keeps_types(before, edge_id, type_id);
        assert(refs.last() == refs[refs.len() - 1]);
        assert(before.push(refs.last()) =~= refs);
    } else {
        assert(without_ref(refs, edge_id, type_id) =~= refs);
    }
}

proof fn lemma_without_ref_concat(
    a: Seq<EdgeRef>,
    b: Seq<EdgeRef>,
    edge_id: EdgeId,
    type_id: LabelId,
)
    ensures
        without_ref(a + b, edge_id, type_id) == without_ref(a, edge_id, type_id) + without_ref(
            b,
            edge_id,
            type_id,
        ),
    decreases b.len(),
{
    reveal(Seq::filter);
    if b.len() == 0 {
        assert(a + b =~= a);
        assert(without_ref(a, edge_id, type_id) + without_ref(b, edge_id, type_id)
            =~= without_ref(a, edge_id, type_id));
    } else {
        lemma_without_ref_concat(a, b.drop_last(), edge_id, type_id);
        assert((a + b).drop_last() =~= a + b.drop_last());
        assert(without_ref(a + b, edge_id, type_id) =~= without_ref(a, edge_id, type_id)
            + without_ref(b, edge_id, type_id));
    }
}

// ---------------------------------------------------------------------------------------------
// Tables

/// No two records are of one edge: it was not inserted again while it was there.
pub open spec fn ids_differ(records: Seq<RecordView>) -> bool {
    forall|p: int, q: int|
        0 <= p < records.len() && 0 <= q < records.len() && (#[trigger] records[p]).edge_id == (
        #[trigger] records[q]).edge_id ==> p == q
}

/// The edge has one record at most.
pub open spec fn one_record(records: Seq<RecordView>, edge_id: EdgeId) -> bool {
    forall|p: int, q: int|
        0 <= p < records.len() && 0 <= q < records.len() && (#[trigger] records[p]).edge_id
            == edge_id && (#[trigger] records[q]).edge_id == edge_id ==> p == q
}

/// The reference that stands at an offset is of an edge that is read, which leads from an owner of the
/// offset to the neighbor.
pub open spec fn resolves(
    t: EdgeTableView,
    r: EdgeRef,
    offset: u64,
    direction: Direction,
    owns: spec_fn(u64, NodeId) -> bool,
) -> bool {
    t.read(r.edge_id) matches Ok(Some(record)) && record.edge_id == r.edge_id && other_end(
        record,
        direction,
    ) == r.neighbor && owns(offset, near_end(record, direction))
}

impl EdgeTableView {
    /// Every reference resolves.
    pub open spec fn homed(self, owns: spec_fn(u64, NodeId) -> bool) -> bool {
        forall|offset: u64, direction: Direction, x: int|
            0 <= x < self.neighbors(offset, direction).len() ==> resolves(
                self,
                #[trigger] self.neighbors(offset, direction)[x],
                offset,
                direction,
                owns,
            )
    }
}

/// Nothing is left that is of the edge.
proof fn lemma_without_has_none(refs: Seq<EdgeRef>, edge_id: EdgeId)
    ensures
        forall|x: int|
            0 <= x < without_edge(refs, edge_id).len() ==> (
            #[trigger] without_edge(refs, edge_id)[x]).edge_id != edge_id && refs.contains(
                without_edge(refs, edge_id)[x],
            ),
    decreases refs.len(),
{
    if refs.len() > 0 {
        lemma_without_has_none(refs.drop_last(), edge_id);
        let before = without_edge(refs.drop_last(), edge_id);
        let all = without_edge(refs, edge_id);
        assert forall|x: int| 0 <= x < all.len() implies (#[trigger] all[x]).edge_id != edge_id
            && refs.contains(all[x]) by {
            if x < before.len() {
                assert(all[x] == before[x]);
                let y = choose|y: int|
                    0 <= y < refs.drop_last().len() && refs.drop_last()[y] == before[x];
                assert(refs[y] == all[x]);
            } else {
                assert(all[x] == refs.last());
                assert(refs[refs.len() - 1] == all[x]);
            }
        }
    }
}

/// Deleting an edge that has one record takes it away altogether.
pub proof fn lemma_delete_all(t: EdgeTableView, edge_id: EdgeId, offset: u64, direction: Direction)
    requires
        t.tidy(),
        one_record(t.records(), edge_id),
    ensures
        t.delete(edge_id).lacks(edge_id),
        t.delete(edge_id).read(edge_id) == Ok::<Option<RecordView>, ErrorView>(None),
        t.delete(edge_id).neighbors(offset, direction) == without_edge(
            t.neighbors(offset, direction),
            edge_id,
        ),
{
    let d = t.delete(edge_id);
    let list = t.records();
    edge_laws::law_delete_exactly(t, edge_id, edge_id, offset);
    edge_records::law_delete_record(t, edge_id);
    edge_records::law_delete_record(d, edge_id);
    search::lemma_first_where(list.len(), record_of(list, edge_id));
    search::lemma_first_where(d.records().len(), record_of(d.records(), edge_id));
    match first_where(list.len(), record_of(list, edge_id)) {
        Some(p) => {
            match first_where(d.records().len(), record_of(d.records(), edge_id)) {
                Some(q) => {
                    assert(record_of(list, edge_id)(p));
                    assert(record_of(d.records(), edge_id)(q));
                    let z = if q < p {
                        q
                    } else {
                        q + 1
                    };
                    assert(list[z] == d.records()[q]);
                    assert(list[z].edge_id == edge_id && list[p].edge_id == edge_id);
                },
                None => {},
            }
        },
        None => {},
    }
    edge_laws::law_read_is_present(d, edge_id, offset);
}

/// A table whose references resolve keeps that when a new edge is inserted.
pub proof fn lemma_insert_homed(
    t: EdgeTableView,
    edge_id: EdgeId,
    from: NodeId,
    to: NodeId,
    from_offset: u64,
    to_offset: u64,
    values: RowView,
    owns: spec_fn(u64, NodeId) -> bool,
)
    requires
        t.tidy(),
        t.homed(owns),
        range_of(from_offset) < 0xffff_ffff_ffff,
        range_of(to_offset) < 0xffff_ffff_ffff,
        owns(from_offset, from),
        owns(to_offset, to),
        t.insert(edge_id, from, to, from_offset, to_offset, values).result is Ok ==> t.read(
            edge_id,
        ) == Ok::<Option<RecordView>, ErrorView>(None),
    ensures
        t.insert(edge_id, from, to, from_offset, to_offset, values).state.homed(owns),
{
    let i = t.insert(edge_id, from, to, from_offset, to_offset, values);
    let s = i.state;
    assert forall|offset: u64, direction: Direction, x: int|
        0 <= x < s.neighbors(offset, direction).len() implies resolves(
        s,
        #[trigger] s.neighbors(offset, direction)[x],
        offset,
        direction,
        owns,
    ) by {
        let r = s.neighbors(offset, direction)[x];
        let before = t.neighbors(offset, direction);
        if i.result is Ok {
            edge_laws::law_read_is_present(t, edge_id, offset);
            edge_laws::law_insert_then_read(
                t, edge_id, from, to, from_offset, to_offset, values, r.edge_id, offset);
            if x < before.len() {
                assert(r == before[x]);
                assert(resolves(t, before[x], offset, direction, owns));
                lemma_without_has_none(before, edge_id);
                assert(r.edge_id != edge_id);
            }
        } else {
            edge_laws::law_refused_insert(
                t,
                edge_id,
                from,
                to,
                from_offset,
                to_offset,
                values,
                r.edge_id,
                offset,
                direction,
            );
            assert(resolves(t, before[x], offset, direction, owns));
        }
    }
}

/// A table whose references resolve keeps that when an edge is deleted.
pub proof fn lemma_delete_homed(
    t: EdgeTableView,
    edge_id: EdgeId,
    owns: spec_fn(u64, NodeId) -> bool,
)
    requires
        t.tidy(),
        t.homed(owns),
        ids_differ(t.records()),
    ensures
        t.delete(edge_id).homed(owns),
{
    let d = t.delete(edge_id);
    assert forall|offset: u64, direction: Direction, x: int|
        0 <= x < d.neighbors(offset, direction).len() implies resolves(
        d,
        #[trigger] d.neighbors(offset, direction)[x],
        offset,
        direction,
        owns,
    ) by {
        let before = t.neighbors(offset, direction);
        lemma_delete_all(t, edge_id, offset, direction);
        lemma_without_has_none(before, edge_id);
        let r = without_edge(before, edge_id)[x];
        let y = choose|y: int| 0 <= y < before.len() && before[y] == r;
        assert(resolves(t, before[y], offset, direction, owns));
        edge_laws::law_delete_exactly(t, edge_id, r.edge_id, offset);
    }
}

// ---------------------------------------------------------------------------------------------
// Stores

impl EdgeStoreView {
    /// No refused edge left values behind.
    pub open spec fn unspoilt(self) -> bool {
        forall|i: int| 0 <= i < self.tables.len() ==> (#[trigger] self.tables[i]).1.unspoilt()
    }

    /// No edge was created again while it was there, and every reference resolves.
    pub open spec fn homed(self, owns: spec_fn(u64, NodeId) -> bool) -> bool {
        forall|i: int|
            0 <= i < self.tables.len() ==> ids_differ((#[trigger] self.tables[i]).1.records())
                && self.tables[i].1.homed(owns)
    }
}

/// The type is the first that has the edge.
pub open spec fn first_type(s: EdgeStoreView, edge_id: EdgeId, type_id: LabelId) -> bool {
    s.read(edge_id, type_id) is Some && forall|t: LabelId|
        #[trigger] s.read(edge_id, t) is Some ==> type_id.0 <= t.0
}

/// What creating an edge is for. A node that is not known is named in the error, and a type that the
/// catalog does not have is refused; then nothing changes. Otherwise the edge is taken exactly if each
/// value is taken by the property in its place, and the error names the first that is not, unless a
/// refused edge left values behind. An edge that is taken, and was not there, is read back with its
/// nodes and its values, and it has one more record. It is one more reference at the offset of its
/// source, and at that of its destination, and at no other. Whatever else is read is read as before,
/// and so is everything if the edge is refused.
pub open spec fn edge_created(
    s: EdgeStoreView,
    r: EdgeStoreView,
    result: Result<(), ErrorView>,
    edge_id: EdgeId,
    type_id: LabelId,
    from: NodeId,
    to: NodeId,
    values: Seq<PropertyView>,
) -> bool {
    let types = s.catalog.edge_types;
    let unknown = forall|c: int| 0 <= c < types.len() ==> (#[trigger] types[c]).label_id != type_id;
    &&& r.catalog == s.catalog
    &&& r.offsets == s.offsets
    &&& s.offset(from) is None ==> r == s && result == Err::<(), ErrorView>(
        ErrorView::NodeNotFound { node_id: from },
    )
    &&& s.offset(from) is Some && s.offset(to) is None ==> r == s && result == Err::<(), ErrorView>(
        ErrorView::NodeNotFound { node_id: to },
    )
    &&& s.offset(from) is Some && s.offset(to) is Some && unknown ==> r == s && result == Err::<
        (),
        ErrorView,
    >(ErrorView::LabelNotFound { label_id: type_id })
    &&& forall|c: int|
        s.offset(from) is Some && s.offset(to) is Some && 0 <= c < types.len() && (
        #[trigger] types[c]).label_id == type_id ==> {
            let properties = types[c].properties;
            &&& result is Ok ==> acceptable(properties, values)
            &&& s.unspoilt() && acceptable(properties, values) ==> result is Ok
            &&& forall|i: int|
                s.unspoilt() && #[trigger] first_refused(properties, values, i) ==> result == Err::<
                    (),
                    ErrorView,
                >(
                    ErrorView::ColumnTypeMismatch {
                        expected: properties[i].data_type,
                        got: values[i].data_type(),
                    },
                )
            &&& result is Ok && s.read(edge_id, type_id) is None ==> (r.read(
                edge_id,
                type_id,
            ) matches Some(record) && record.edge_id == edge_id && record.from == from && record.to
                == to && (s.unspoilt() ==> holds_values(
                record.properties,
                properties.len(),
                values,
            )))
        }
    &&& forall|e: EdgeId, t: LabelId|
        result is Err || e != edge_id || t != type_id ==> #[trigger] r.read(e, t) == s.read(e, t)
    &&& forall|t: LabelId| #[trigger]
        r.num_edges(t) == s.num_edges(t) + if result is Ok && t == type_id {
            1int
        } else {
            0
        }
    &&& forall|t: LabelId|
        result is Err || t != type_id ==> #[trigger] r.records(t) == s.records(t)
    &&& result is Ok ==> exists|p: int, record: RecordView|
        0 <= p <= s.records(type_id).len() && record.edge_id == edge_id && record.from == from
            && record.to == to && r.records(type_id) == #[trigger] s.records(type_id).insert(
            p,
            record,
        )
    &&& forall|o: u64|
        result is Ok && s.offset(from) == Some(o) ==> with_ref(
            s.neighbors(o, Direction::Forward),
            #[trigger] r.neighbors(o, Direction::Forward),
            EdgeRef { edge_id, type_id, neighbor: to },
        )
    &&& forall|o: u64|
        result is Ok && s.offset(to) == Some(o) ==> with_ref(
            s.neighbors(o, Direction::Backward),
            #[trigger] r.neighbors(o, Direction::Backward),
            EdgeRef { edge_id, type_id, neighbor: from },
        )
    &&& forall|o: u64|
        result is Err || s.offset(from) != Some(o) ==> #[trigger] r.neighbors(
            o,
            Direction::Forward,
        ) == s.neighbors(o, Direction::Forward)
    &&& forall|o: u64|
        result is Err || s.offset(to) != Some(o) ==> #[trigger] r.neighbors(o, Direction::Backward)
            == s.neighbors(o, Direction::Backward)
}

/// What deleting an edge is for. It fails exactly if no type has the edge, and then nothing changes.
/// Otherwise the first type that has it loses its first record, and all others stay in their order. If
/// that was its only one, the edge reads as nothing there, and it stands at no offset, where all others
/// stay in their order. Whatever else is read is read as before.
pub open spec fn edge_deleted(
    s: EdgeStoreView,
    r: EdgeStoreView,
    result: Result<(), ErrorView>,
    edge_id: EdgeId,
) -> bool {
    &&& r.catalog == s.catalog
    &&& r.offsets == s.offsets
    &&& (forall|t: LabelId| #[trigger] s.read(edge_id, t) is None) ==> r == s && result == Err::<
        (),
        ErrorView,
    >(ErrorView::EdgeNotFound { edge_id })
    &&& forall|t: LabelId| #[trigger] s.read(edge_id, t) is Some ==> result is Ok
    &&& forall|t: LabelId| #[trigger]
        first_type(s, edge_id, t) ==> {
            &&& r.num_edges(t) == s.num_edges(t) - 1
            &&& exists|p: int|
                0 <= p < s.records(t).len() && Some(#[trigger] s.records(t)[p]) == s.read(
                    edge_id,
                    t,
                ) && r.records(t) == s.records(t).remove(p)
            &&& one_record(s.records(t), edge_id) ==> r.read(edge_id, t) is None
        }
    &&& forall|t: LabelId, o: u64, direction: Direction|
        #[trigger] first_type(s, edge_id, t) && one_record(s.records(t), edge_id)
            ==> #[trigger] r.neighbors(o, direction) == without_ref(
            s.neighbors(o, direction),
            edge_id,
            t,
        )
    &&& forall|e: EdgeId, t: LabelId|
        e != edge_id || !first_type(s, edge_id, t) ==> #[trigger] r.read(e, t) == s.read(e, t)
    &&& forall|t: LabelId|
        !first_type(s, edge_id, t) ==> #[trigger] r.num_edges(t) == s.num_edges(t)
    &&& forall|t: LabelId|
        !first_type(s, edge_id, t) ==> #[trigger] r.records(t) == s.records(t)
}

/// The schema of a type.
pub proof fn lemma_type(s: EdgeStoreView, type_id: LabelId)
    requires
        s.typed(),
    ensures
        s.catalog.edge_type(type_id) is None <==> forall|c: int|
            0 <= c < s.catalog.edge_types.len() ==> (
            #[trigger] s.catalog.edge_types[c]).label_id != type_id,
        forall|c: int|
            0 <= c < s.catalog.edge_types.len() && (
            #[trigger] s.catalog.edge_types[c]).label_id == type_id ==> s.catalog.edge_type(
                type_id,
            ) == Some(s.catalog.edge_types[c]) && (s.table(type_id) matches Some(t) && t.schema
                == s.catalog.edge_types[c]),
{
    let types = s.catalog.edge_types;
    let p = s.catalog.edge_type_is(type_id);
    search::lemma_first_where(types.len(), p);
    assert forall|c: int|
        0 <= c < types.len() && (#[trigger] types[c]).label_id == type_id implies s.catalog.edge_type(
        type_id,
    ) == Some(types[c]) && (s.table(type_id) matches Some(t) && t.schema == types[c]) by {
        assert(p(c));
        let i = first_where(types.len(), p)->Some_0;
        assert(p(i));
        assert(s.table(types[i].label_id)->Some_0.schema == types[i]);
        assert(s.table(types[c].label_id)->Some_0.schema == types[c]);
    }
    if s.catalog.edge_type(type_id) is None {
        assert forall|c: int| 0 <= c < types.len() implies (#[trigger] types[c]).label_id
            != type_id by {
            assert(!p(c));
        }
    } else {
        let i = first_where(types.len(), p)->Some_0;
        assert(p(i));
        assert(types[i].label_id == type_id);
    }
}

/// The key of a table is the id of its type.
pub proof fn lemma_type_key(s: EdgeStoreView, i: int)
    requires
        s.tidy(),
        s.typed(),
        0 <= i < s.tables.len(),
    ensures
        s.tables[i].0 <= u32::MAX,
        s.table(LabelId(s.tables[i].0 as u32)) == Some(s.tables[i].1),
        s.tables[i].1.schema.label_id.0 == s.tables[i].0,
{
    let types = s.catalog.edge_types;
    let c = choose|c: int|
        0 <= c < types.len() && (#[trigger] types[c]).label_id.0 as u64 == (
        #[trigger] s.tables[i]).0;
    assert(types[c].label_id.0 as u64 == s.tables[i].0);
    ordered_map::lemma_rank_at(s.tables, i);
    assert(s.table(types[c].label_id)->Some_0.schema == types[c]);
}

/// An edge is read exactly from the tables that have it.
pub proof fn lemma_edge_there(s: EdgeStoreView, edge_id: EdgeId, type_id: LabelId)
    requires
        s.tidy(),
    ensures
        s.read(edge_id, type_id) is Some <==> (s.table(type_id) matches Some(t) && t.read(edge_id)
            != Ok::<Option<RecordView>, ErrorView>(None)),
        s.table(type_id) matches Some(t) ==> (s.read(edge_id, type_id) is None ==> t.lacks(
            edge_id,
        )),
        s.table(type_id) matches Some(t) ==> t.read(edge_id) == Ok::<Option<RecordView>, ErrorView>(
            s.read(edge_id, type_id),
        ),
{
    match s.table(type_id) {
        Some(t) => {
            let i = ordered_map::rank(s.tables, type_id.0 as u64) as int;
            assert(s.tables[i].1.tidy());
            edge_laws::law_read_is_present(t, edge_id, 0);
        },
        None => {},
    }
}

/// Replacing a table keeps which types there are.
pub proof fn lemma_still_typed(s: EdgeStoreView, r: EdgeStoreView, i: int, t: EdgeTableView)
    requires
        s.tidy(),
        s.typed(),
        0 <= i < s.tables.len(),
        t.schema == s.tables[i].1.schema,
        r == (EdgeStoreView { tables: s.tables.update(i, (s.tables[i].0, t)), ..s }),
    ensures
        sorted(r.tables),
        r.typed(),
{
    let types = s.catalog.edge_types;
    assert(sorted(r.tables)) by {
        assert forall|a: int, b: int| 0 <= a < b < r.tables.len() implies (
        #[trigger] r.tables[a]).0 < (#[trigger] r.tables[b]).0 by {
            assert(s.tables[a].0 < s.tables[b].0);
        }
    }
    assert forall|x: int| 0 <= x < types.len() implies (r.table(
        (#[trigger] types[x]).label_id,
    ) matches Some(u) && u.schema == types[x]) by {
        let key = types[x].label_id.0 as u64;
        assert(s.table(types[x].label_id)->Some_0.schema == types[x]);
        let at = ordered_map::rank(s.tables, key) as int;
        assert(r.tables[at].0 == key);
        ordered_map::lemma_rank_at(r.tables, at);
    }
    assert forall|j: int| 0 <= j < r.tables.len() implies exists|x: int|
        0 <= x < types.len() && (#[trigger] types[x]).label_id.0 as u64 == (
        #[trigger] r.tables[j]).0 by {
        assert(r.tables[j].0 == s.tables[j].0);
        let x = choose|x: int|
            0 <= x < types.len() && (#[trigger] types[x]).label_id.0 as u64 == (
            #[trigger] s.tables[j]).0;
        assert(types[x].label_id.0 as u64 == r.tables[j].0);
    }
}

/// The references of the first tables are of their types.
proof fn lemma_joined_types(s: EdgeStoreView, n: nat, offset: u64, direction: Direction)
    requires
        s.tidy(),
        s.typed(),
        n <= s.tables.len(),
    ensures
        forall|x: int|
            0 <= x < joined_neighbors(s.tables, n, offset, direction).len() ==> exists|i: int|
                0 <= i < n && (#[trigger] s.tables[i]).0 == (
                #[trigger] joined_neighbors(s.tables, n, offset, direction)[x]).type_id.0,
    decreases n,
{
    if n > 0 {
        let m = (n - 1) as nat;
        lemma_joined_types(s, m, offset, direction);
        let before = joined_neighbors(s.tables, m, offset, direction);
        let own = s.tables[n - 1].1.neighbors(offset, direction);
        let all = joined_neighbors(s.tables, n, offset, direction);
        lemma_table_types(s.tables[n - 1].1, offset, direction);
        lemma_type_key(s, n - 1);
        assert forall|x: int| 0 <= x < all.len() implies exists|i: int|
            0 <= i < n && (#[trigger] s.tables[i]).0 == (#[trigger] all[x]).type_id.0 by {
            if x < before.len() {
                assert(all[x] == before[x]);
                let i = choose|i: int|
                    0 <= i < m && (#[trigger] s.tables[i]).0 == before[x].type_id.0;
                assert(s.tables[i].0 == all[x].type_id.0);
            } else {
                assert(all[x] == own[x - before.len()]);
                assert(s.tables[n - 1].0 == all[x].type_id.0);
            }
        }
    }
}

/// The edges at an offset where one table got one more.
proof fn lemma_joined_with(
    s: EdgeStoreView,
    i: int,
    t: EdgeTableView,
    n: nat,
    offset: u64,
    direction: Direction,
    r: EdgeRef,
)
    requires
        s.tidy(),
        s.typed(),
        0 <= i < s.tables.len(),
        n <= s.tables.len(),
        r.type_id.0 == s.tables[i].0,
        t.neighbors(offset, direction) == s.tables[i].1.neighbors(offset, direction).push(r),
    ensures
        ({
            let before = joined_neighbors(s.tables, n, offset, direction);
            let after = joined_neighbors(
                s.tables.update(i, (s.tables[i].0, t)),
                n,
                offset,
                direction,
            );
            &&& i >= n ==> after == before
            &&& i < n ==> with_ref(before, after, r)
        }),
    decreases n,
{
    if n > 0 {
        let m = (n - 1) as nat;
        lemma_joined_with(s, i, t, m, offset, direction, r);
        lemma_joined_types(s, n, offset, direction);
        lemma_joined_types(s, m, offset, direction);
        let updated = s.tables.update(i, (s.tables[i].0, t));
        let a = joined_neighbors(updated, m, offset, direction);
        let b = joined_neighbors(s.tables, m, offset, direction);
        let tail = s.tables[n - 1].1.neighbors(offset, direction);
        let before = joined_neighbors(s.tables, n, offset, direction);
        let after = joined_neighbors(updated, n, offset, direction);
        lemma_table_types(s.tables[n - 1].1, offset, direction);
        lemma_type_key(s, n - 1);
        if i == n - 1 {
            let p = before.len() as int;
            assert(after =~= before.insert(p, r));
            assert forall|x: int| 0 <= x < p implies (#[trigger] before[x]).type_id.0
                <= r.type_id.0 by {
                let j = choose|j: int|
                    0 <= j < n && (#[trigger] s.tables[j]).0 == before[x].type_id.0;
                if j < i {
                    assert(s.tables[j].0 < s.tables[i].0);
                }
            }
        } else if i < n - 1 {
            let p = choose|p: int|
                {
                    &&& 0 <= p <= b.len()
                    &&& a == #[trigger] b.insert(p, r)
                    &&& forall|x: int| 0 <= x < p ==> (#[trigger] b[x]).type_id.0 <= r.type_id.0
                    &&& forall|x: int| p <= x < b.len() ==> (#[trigger] b[x]).type_id.0 > r.type_id.0
                };
            assert(after =~= before.insert(p, r));
            assert(s.tables[i].0 < s.tables[n - 1].0);
            assert forall|x: int| 0 <= x < p implies (#[trigger] before[x]).type_id.0
                <= r.type_id.0 by {
                assert(before[x] == b[x]);
            }
            assert forall|x: int| p <= x < before.len() implies (#[trigger] before[x]).type_id.0
                > r.type_id.0 by {
                if x < b.len() {
                    assert(before[x] == b[x]);
                } else {
                    assert(before[x] == tail[x - b.len()]);
                }
            }
        }
    }
}

/// The edges at an offset where one table has the same.
proof fn lemma_joined_same(
    tables: EdgeTables,
    i: int,
    t: EdgeTableView,
    n: nat,
    offset: u64,
    direction: Direction,
)
    requires
        0 <= i < tables.len(),
        n <= tables.len(),
        t.neighbors(offset, direction) == tables[i].1.neighbors(offset, direction),
    ensures
        joined_neighbors(tables.update(i, (tables[i].0, t)), n, offset, direction)
            == joined_neighbors(tables, n, offset, direction),
    decreases n,
{
    if n > 0 {
        lemma_joined_same(tables, i, t, (n - 1) as nat, offset, direction);
    }
}

/// The edges at an offset where one table lost an edge.
proof fn lemma_joined_out(
    s: EdgeStoreView,
    i: int,
    t: EdgeTableView,
    edge_id: EdgeId,
    n: nat,
    offset: u64,
    direction: Direction,
)
    requires
        s.tidy(),
        s.typed(),
        0 <= i < s.tables.len(),
        n <= s.tables.len(),
        t.neighbors(offset, direction) == without_edge(
            s.tables[i].1.neighbors(offset, direction),
            edge_id,
        ),
    ensures
        joined_neighbors(s.tables.update(i, (s.tables[i].0, t)), n, offset, direction)
            == without_ref(
            joined_neighbors(s.tables, n, offset, direction),
            edge_id,
            LabelId(s.tables[i].0 as u32),
        ),
    decreases n,
{
    let type_id = LabelId(s.tables[i].0 as u32);
    lemma_type_key(s, i);
    if n > 0 {
        let m = (n - 1) as nat;
        lemma_joined_out(s, i, t, edge_id, m, offset, direction);
        let own = s.tables[n - 1].1.neighbors(offset, direction);
        lemma_without_ref_concat(
            joined_neighbors(s.tables, m, offset, direction),
            own,
            edge_id,
            type_id,
        );
        lemma_table_types(s.tables[n - 1].1, offset, direction);
        lemma_type_key(s, n - 1);
        if i == n - 1 {
            lemma_without_ref(own, edge_id, type_id);
        } else {
            if i < n - 1 {
                assert(s.tables[i].0 < s.tables[n - 1].0);
            } else {
                assert(s.tables[n - 1].0 < s.tables[i].0);
            }
            assert forall|x: int| 0 <= x < own.len() implies (#[trigger] own[x]).type_id
                != type_id by {}
            lemma_keeps_types(own, edge_id, type_id);
        }
    } else {
        reveal(Seq::filter);
        assert(joined_neighbors(s.tables, 0, offset, direction) =~= Seq::empty());
    }
}

/// Creating an edge does what it is for.
#[verifier::rlimit(60)]
pub proof fn law_create_edge(
    s: EdgeStoreView,
    edge_id: EdgeId,
    type_id: LabelId,
    from: NodeId,
    to: NodeId,
    values: Seq<PropertyView>,
)
    requires
        s.tidy(),
        s.typed(),
        s.has_room(CommandView::CreateEdge { edge_id, type_id, from, to, properties: values }),
    ensures
        ({
            let cmd = CommandView::CreateEdge { edge_id, type_id, from, to, properties: values };
            let a = s.apply(cmd);
            &&& a.state.tidy()
            &&& a.state.typed()
            &&& edge_created(s, a.state, a.result, edge_id, type_id, from, to, values)
        }),
{
    let cmd = CommandView::CreateEdge { edge_id, type_id, from, to, properties: values };
    let a = s.apply(cmd);
    let r = a.state;
    let types = s.catalog.edge_types;
    lemma_type(s, type_id);
    match (s.offset(from), s.offset(to), s.catalog.edge_type(type_id)) {
        (Some(f), Some(b), Some(schema)) => {
            let p0 = s.catalog.edge_type_is(type_id);
            let c0 = first_where(types.len(), p0)->Some_0;
            search::lemma_first_where(types.len(), p0);
            assert(p0(c0));
            assert(types[c0].label_id == type_id);
            let t = s.table(type_id)->Some_0;
            let properties = schema.properties;
            let row = aligned_row(properties.len(), values);
            let at = ordered_map::rank(s.tables, type_id.0 as u64) as int;
            assert(s.tables[at].1.tidy());
            row_laws::law_columns_of(properties);
            row_laws::lemma_acceptable(t.columns(), properties, values);
            let i = t.insert(edge_id, from, to, f, b, row);
            let u = i.state;
            assert(r.tables =~= s.tables.update(at, (s.tables[at].0, u)));
            edge_laws::lemma_insert_both(t, edge_id, from, to, f, b, row, 0);
            assert(u.schema == t.schema);
            lemma_still_typed(s, r, at, u);
            store_laws::law_create_edge(
                s, edge_id, type_id, from, to, values, edge_id, type_id, f);
            lemma_edge_there(s, edge_id, type_id);
            edge_records::law_insert_record(t, edge_id, from, to, f, b, row);
            ordered_map::law_put_then_lookup(s.tables, type_id.0 as u64, u, type_id.0 as u64);
            if s.unspoilt() {
                assert(s.tables[at].1.unspoilt());
                assert(t.even_at(f));
                if !types_match(t.columns(), row) {
                    edge_laws::law_refused_error(t, edge_id, from, to, f, b, row);
                }
            }
            assert forall|e: EdgeId, l: LabelId|
                a.result is Err || e != edge_id || l != type_id implies #[trigger] r.read(e, l)
                == s.read(e, l) by {
                store_laws::law_create_edge(s, edge_id, type_id, from, to, values, e, l, f);
            }
            assert forall|l: LabelId| #[trigger]
                r.num_edges(l) == s.num_edges(l) + if a.result is Ok && l == type_id {
                    1int
                } else {
                    0
                } by {
                store_laws::law_create_edge(
                    s, edge_id, type_id, from, to, values, edge_id, l, f);
            }
            assert forall|l: LabelId| a.result is Err || l != type_id implies #[trigger] r.records(
                l,
            ) == s.records(l) by {
                ordered_map::law_put_then_lookup(s.tables, type_id.0 as u64, u, l.0 as u64);
            }
            if a.result is Ok {
                let n = ordered_map::rank(t.fwd, (range_of(f) + 1) as u64);
                let p = ranges_records(t.fwd, n).len() as int;
                let record = u.records()[p];
                assert(r.records(type_id) == s.records(type_id).insert(p, record));
            }
            assert forall|o: u64| a.result is Ok && s.offset(from) == Some(o) implies with_ref(
                s.neighbors(o, Direction::Forward),
                #[trigger] r.neighbors(o, Direction::Forward),
                EdgeRef { edge_id, type_id, neighbor: to },
            ) by {
                edge_laws::lemma_insert_both(t, edge_id, from, to, f, b, row, o);
                lemma_joined_with(
                    s,
                    at,
                    u,
                    s.tables.len(),
                    o,
                    Direction::Forward,
                    EdgeRef { edge_id, type_id, neighbor: to },
                );
            }
            assert forall|o: u64| a.result is Ok && s.offset(to) == Some(o) implies with_ref(
                s.neighbors(o, Direction::Backward),
                #[trigger] r.neighbors(o, Direction::Backward),
                EdgeRef { edge_id, type_id, neighbor: from },
            ) by {
                edge_laws::lemma_insert_both(t, edge_id, from, to, f, b, row, o);
                lemma_joined_with(
                    s,
                    at,
                    u,
                    s.tables.len(),
                    o,
                    Direction::Backward,
                    EdgeRef { edge_id, type_id, neighbor: from },
                );
            }
            assert forall|o: u64| a.result is Err || s.offset(from) != Some(o) implies #[trigger] r.neighbors(
                o,
                Direction::Forward,
            ) == s.neighbors(o, Direction::Forward) by {
                edge_laws::lemma_insert_both(t, edge_id, from, to, f, b, row, o);
                lemma_joined_same(s.tables, at, u, s.tables.len(), o, Direction::Forward);
            }
            assert forall|o: u64| a.result is Err || s.offset(to) != Some(o) implies #[trigger] r.neighbors(
                o,
                Direction::Backward,
            ) == s.neighbors(o, Direction::Backward) by {
                edge_laws::lemma_insert_both(t, edge_id, from, to, f, b, row, o);
                lemma_joined_same(s.tables, at, u, s.tables.len(), o, Direction::Backward);
            }
        },
        _ => {},
    }
}

/// Deleting an edge does what it is for.
#[verifier::rlimit(60)]
pub proof fn law_delete_edge(s: EdgeStoreView, edge_id: EdgeId)
    requires
        s.tidy(),
        s.typed(),
    ensures
        ({
            let a = s.apply(CommandView::DeleteEdge { edge_id });
            &&& a.state.tidy()
            &&& a.state.typed()
            &&& edge_deleted(s, a.state, a.result, edge_id)
        }),
{
    let a = s.apply(CommandView::DeleteEdge { edge_id });
    let r = a.state;
    search::lemma_first_where(s.tables.len(), s.table_answers(edge_id));
    match s.table_with(edge_id) {
        Some(i) => {
            let t = s.tables[i].1;
            let key = s.tables[i].0;
            assert(s.table_answers(edge_id)(i));
            assert(t.tidy());
            lemma_type_key(s, i);
            let first = LabelId(key as u32);
            ordered_map::lemma_rank_at(s.tables, i);
            edge_laws::law_delete_exactly(t, edge_id, edge_id, 0);
            edge_laws::law_read_is_present(t, edge_id, 0);
            let u = t.delete(edge_id);
            lemma_still_typed(s, r, i, u);
            store_laws::law_delete_edge(s, edge_id, edge_id, first, 0, Direction::Forward);
            lemma_edge_there(s, edge_id, first);
            assert(r.tables =~= put(s.tables, key, u));
            assert(s.read(edge_id, first) is Some);
            assert forall|l: LabelId| #[trigger] s.read(edge_id, l) is Some implies first.0 <= l.0 by {
                lemma_edge_there(s, edge_id, l);
                let j = ordered_map::rank(s.tables, l.0 as u64) as int;
                assert(s.table_answers(edge_id)(j));
                assert(i <= j);
                if i < j {
                    assert(s.tables[i].0 < s.tables[j].0);
                }
            }
            assert forall|l: LabelId| #[trigger] first_type(s, edge_id, l) <==> l == first by {
                if first_type(s, edge_id, l) {
                    assert(s.read(edge_id, first) is Some);
                    assert(l.0 <= first.0);
                }
            }
            edge_records::law_delete_record(t, edge_id);
            ordered_map::law_put_then_lookup(s.tables, key, u, key);
            let p = first_where(t.records().len(), record_of(t.records(), edge_id))->Some_0;
            search::lemma_first_where(t.records().len(), record_of(t.records(), edge_id));
            assert(Some(s.records(first)[p]) == s.read(edge_id, first));
            if one_record(s.records(first), edge_id) {
                lemma_delete_all(t, edge_id, 0, Direction::Forward);
                assert forall|o: u64, direction: Direction| #[trigger]
                    r.neighbors(o, direction) == without_ref(
                        s.neighbors(o, direction),
                        edge_id,
                        first,
                    ) by {
                    lemma_delete_all(t, edge_id, o, direction);
                    lemma_joined_out(s, i, u, edge_id, s.tables.len(), o, direction);
                }
            }
            assert forall|e: EdgeId, l: LabelId| e != edge_id || !first_type(s, edge_id, l) implies #[trigger] r.read(
                e,
                l,
            ) == s.read(e, l) by {
                store_laws::law_delete_edge(s, edge_id, e, l, 0, Direction::Forward);
            }
            assert forall|l: LabelId| !first_type(s, edge_id, l) implies #[trigger] r.num_edges(l)
                == s.num_edges(l) by {
                store_laws::law_delete_edge(s, edge_id, edge_id, l, 0, Direction::Forward);
            }
            assert forall|l: LabelId| !first_type(s, edge_id, l) implies #[trigger] r.records(l)
                == s.records(l) by {
                ordered_map::law_put_then_lookup(s.tables, key, u, l.0 as u64);
            }
        },
        None => {
            assert forall|l: LabelId| #[trigger] s.read(edge_id, l) is None by {
                lemma_edge_there(s, edge_id, l);
                if s.table(l) is Some {
                    let j = ordered_map::rank(s.tables, l.0 as u64) as int;
                    assert(!s.table_answers(edge_id)(j));
                }
            }
        },
    }
}

} // verus!
