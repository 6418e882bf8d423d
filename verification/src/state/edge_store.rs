//! The edges of all types.

use std::sync::Arc;

use vstd::prelude::*;

use crate::adjacency::EdgeRef;
use crate::catalog::{Catalog, CatalogView, EdgeTypeView};
use crate::command::{same_result, values_view, Applied, Command, CommandView};
use crate::error::{ErrorView, StorageError};
use crate::io::codec::Decoded;
use crate::io::page::{pages_view, Disk, Page};
use crate::ordered_map;
use crate::ordered_map::{lookup, mapped, put, put_all, put_upto, sorted, OrderedMap};
use crate::search;
use crate::search::first_where;
use crate::state::edge_table::{
    blocks_view, range_of, records_view, CSREdgeGroupPageInfo, EdgeTable,
    EdgeTableView,
};
use crate::state::node_persistence::Flushed;
use crate::state::recovery;
use crate::table::edge::{CSREdgeRecord, RecordView};
use crate::table::row::{align_properties, aligned_row};
use crate::types::{
    Direction, EdgeId, LabelId, NodeId, NodeOffset, PropertyValue, PropertyView,
};

verus! {

/// Maps each edge type to its table.
pub struct EdgeStore {
    tables: OrderedMap<EdgeTable>,
    /// Maps the number of each node to its dense offset (`group_idx * NODE_GROUP_SIZE + row`).
    /// It has to be kept up to date with the node tables before edge commands are applied.
    node_offsets: OrderedMap<NodeOffset>,
    catalog: Arc<Catalog>,
}

// ---------------------------------------------------------------------------------------------
// The model

/// Tables by the number of their type.
pub type EdgeTables = Seq<(u64, EdgeTableView)>;

/// What an [`EdgeStore`] stands for.
#[verifier::ext_equal]
pub struct EdgeStoreView {
    pub tables: EdgeTables,
    pub offsets: Seq<(u64, u64)>,
    pub catalog: CatalogView,
}

/// What a table stands for, as a function.
pub open spec fn edge_table_view() -> spec_fn(EdgeTable) -> EdgeTableView {
    |t: EdgeTable| t@
}

/// A table without edges for each type.
pub open spec fn empty_tables(types: Seq<EdgeTypeView>) -> EdgeTables {
    Seq::new(types.len(), |i: int| (types[i].label_id.0 as u64, EdgeTableView::empty(types[i])))
}

/// The edges at an offset in the first `n` tables.
pub open spec fn joined_neighbors(
    tables: EdgeTables,
    n: nat,
    offset: u64,
    direction: Direction,
) -> Seq<EdgeRef>
    decreases n,
{
    if n == 0 {
        Seq::empty()
    } else {
        joined_neighbors(tables, (n - 1) as nat, offset, direction) + tables[n - 1].1.neighbors(
            offset,
            direction,
        )
    }
}

/// The page ranges of the first `n` tables.
pub open spec fn joined_infos(tables: EdgeTables, n: nat) -> Seq<CSREdgeGroupPageInfo>
    decreases n,
{
    if n == 0 {
        Seq::empty()
    } else {
        joined_infos(tables, (n - 1) as nat) + tables[n - 1].1.page_infos
    }
}

/// The tables of the first `n` types, each with the groups that the blocks hold.
pub open spec fn load_tables(
    types: Seq<EdgeTypeView>,
    infos: Seq<CSREdgeGroupPageInfo>,
    blocks: Seq<Seq<u8>>,
    n: nat,
) -> Decoded<EdgeTables>
    decreases n,
{
    if n == 0 {
        Some(Ok(Seq::empty()))
    } else {
        match load_tables(types, infos, blocks, (n - 1) as nat) {
            Some(Ok(tables)) => match EdgeTableView::load(
                types[n - 1],
                infos,
                blocks,
                infos.len(),
            ) {
                Some(Ok(t)) => Some(Ok(put(tables, types[n - 1].label_id.0 as u64, t))),
                Some(Err(e)) => Some(Err(e)),
                None => None,
            },
            r => r,
        }
    }
}

impl EdgeStoreView {
    /// A store with a table for each type of the catalog, that knows of no node.
    pub open spec fn empty(catalog: CatalogView) -> EdgeStoreView {
        let tables = empty_tables(catalog.edge_types);
        EdgeStoreView { tables: put_all(tables, tables.len()), offsets: Seq::empty(), catalog }
    }

    pub open spec fn sound(self) -> bool {
        &&& sorted(self.tables)
        &&& forall|i: int| 0 <= i < self.tables.len() ==> (#[trigger] self.tables[i]).1.sound()
    }

    /// The table of a type.
    pub open spec fn table(self, type_id: LabelId) -> Option<EdgeTableView> {
        lookup(self.tables, type_id.0 as u64)
    }

    /// The offset of a node, as far as it is known here.
    pub open spec fn offset(self, node_id: NodeId) -> Option<u64> {
        lookup(self.offsets, node_id.0)
    }

    /// Reading an edge from table `i` gives it, or an error.
    pub open spec fn table_answers(self, edge_id: EdgeId) -> spec_fn(int) -> bool {
        |i: int| self.tables[i].1.read(edge_id) != Ok::<Option<RecordView>, ErrorView>(None)
    }

    /// The place of the first table from which reading an edge gives it, or an error.
    pub open spec fn table_with(self, edge_id: EdgeId) -> Option<int> {
        first_where(self.tables.len(), self.table_answers(edge_id))
    }

    /// The offsets of the edge that a command creates leave room for a group's range.
    pub open spec fn has_room(self, cmd: CommandView) -> bool {
        cmd matches CommandView::CreateEdge { from, to, .. } ==> match (
            self.offset(from),
            self.offset(to),
        ) {
            (Some(f), Some(t)) => range_of(f) < 0xffff_ffff_ffff && range_of(t) < 0xffff_ffff_ffff,
            _ => true,
        }
    }

    /// An edge goes into the table of its type, by the offsets of its nodes.
    pub open spec fn create(
        self,
        edge_id: EdgeId,
        type_id: LabelId,
        from: NodeId,
        to: NodeId,
        properties: Seq<PropertyView>,
    ) -> Applied<EdgeStoreView> {
        match (self.offset(from), self.offset(to)) {
            (None, _) => Applied {
                state: self,
                result: Err(ErrorView::NodeNotFound { node_id: from }),
            },
            (_, None) => Applied {
                state: self,
                result: Err(ErrorView::NodeNotFound { node_id: to }),
            },
            (Some(from_offset), Some(to_offset)) => match (
                self.catalog.edge_type(type_id),
                self.table(type_id),
            ) {
                (Some(schema), Some(t)) => {
                    let i = t.insert(
                        edge_id,
                        from,
                        to,
                        from_offset,
                        to_offset,
                        aligned_row(schema.properties.len(), properties),
                    );
                    Applied {
                        state: EdgeStoreView {
                            tables: put(self.tables, type_id.0 as u64, i.state),
                            ..self
                        },
                        result: i.result,
                    }
                },
                _ => Applied {
                    state: self,
                    result: Err(ErrorView::LabelNotFound { label_id: type_id }),
                },
            },
        }
    }

    /// An edge is taken out of the first table that has it.
    pub open spec fn delete(self, edge_id: EdgeId) -> Applied<EdgeStoreView> {
        match self.table_with(edge_id) {
            Some(i) => {
                let t = self.tables[i].1;
                match t.read(edge_id) {
                    Ok(_) => Applied { state: self.with_table(i, t.delete(edge_id)), result: Ok(()) },
                    Err(e) => Applied { state: self, result: Err(e) },
                }
            },
            None => Applied { state: self, result: Err(ErrorView::EdgeNotFound { edge_id }) },
        }
    }

    /// What a command does; commands on nodes do nothing here.
    pub open spec fn apply(self, cmd: CommandView) -> Applied<EdgeStoreView> {
        match cmd {
            CommandView::CreateEdge { edge_id, type_id, from, to, properties } => self.create(
                edge_id,
                type_id,
                from,
                to,
                properties,
            ),
            CommandView::DeleteEdge { edge_id } => self.delete(edge_id),
            _ => Applied { state: self, result: Ok(()) },
        }
    }

    /// The store after the offsets of nodes were noted.
    pub open spec fn with_offsets(self, offsets: Seq<(u64, u64)>) -> EdgeStoreView {
        EdgeStoreView { offsets: put_upto(self.offsets, offsets, offsets.len()), ..self }
    }

    /// An edge of a type, if it is there.
    pub open spec fn read(self, edge_id: EdgeId, type_id: LabelId) -> Option<RecordView> {
        match self.table(type_id) {
            Some(t) => match t.read(edge_id) {
                Ok(record) => record,
                Err(_) => None,
            },
            None => None,
        }
    }

    /// All edges of a type.
    pub open spec fn records(self, type_id: LabelId) -> Seq<RecordView> {
        match self.table(type_id) {
            Some(t) => t.records(),
            None => Seq::empty(),
        }
    }

    pub open spec fn num_edges(self, type_id: LabelId) -> nat {
        match self.table(type_id) {
            Some(t) => t.num_edges(),
            None => 0,
        }
    }

    /// The edges at an offset, of all types.
    pub open spec fn neighbors(self, offset: u64, direction: Direction) -> Seq<EdgeRef> {
        joined_neighbors(self.tables, self.tables.len(), offset, direction)
    }

    pub open spec fn page_infos(self) -> Seq<CSREdgeGroupPageInfo> {
        joined_infos(self.tables, self.tables.len())
    }

    /// The store with another table in a place.
    pub open spec fn with_table(self, i: int, t: EdgeTableView) -> EdgeStoreView {
        EdgeStoreView { tables: self.tables.update(i, (self.tables[i].0, t)), ..self }
    }

    /// The store whose groups the blocks hold: each table takes all of them.
    pub open spec fn load(
        catalog: CatalogView,
        infos: Seq<CSREdgeGroupPageInfo>,
        blocks: Seq<Seq<u8>>,
    ) -> Decoded<EdgeStoreView> {
        match load_tables(catalog.edge_types, infos, blocks, catalog.edge_types.len()) {
            Some(Ok(tables)) => Some(
                Ok(EdgeStoreView { tables, offsets: Seq::empty(), catalog }),
            ),
            Some(Err(e)) => Some(Err(e)),
            None => None,
        }
    }
}

// ---------------------------------------------------------------------------------------------
// Facts

/// A table can be replaced by a sound one.
proof fn lemma_with_table_sound(s: EdgeStoreView, i: int, t: EdgeTableView)
    requires
        s.sound(),
        0 <= i < s.tables.len(),
        t.sound(),
    ensures
        s.with_table(i, t).sound(),
        s.with_table(i, t).tables == put(s.tables, s.tables[i].0, t),
{
    ordered_map::lemma_rank_at(s.tables, i);
    lemma_put_sound(s.tables, s.offsets, s.catalog, s.tables[i].0, t);
    assert(s.with_table(i, t).tables =~= put(s.tables, s.tables[i].0, t));
}

proof fn lemma_put_sound(
    tables: EdgeTables,
    offsets: Seq<(u64, u64)>,
    catalog: CatalogView,
    key: u64,
    t: EdgeTableView,
)
    requires
        (EdgeStoreView { tables, offsets, catalog }).sound(),
        t.sound(),
    ensures
        (EdgeStoreView { tables: put(tables, key, t), offsets, catalog }).sound(),
{
    let p = |t: EdgeTableView| t.sound();
    ordered_map::law_put_then_lookup(tables, key, t, 0);
    assert forall|i: int| 0 <= i < tables.len() implies p((#[trigger] tables[i]).1) by {}
    ordered_map::lemma_put_keeps(tables, key, t, p);
    let r = put(tables, key, t);
    assert forall|i: int| 0 <= i < r.len() implies (#[trigger] r[i]).1.sound() by {
        assert(p(r[i].1));
    }
}

proof fn lemma_load_stuck(
    types: Seq<EdgeTypeView>,
    infos: Seq<CSREdgeGroupPageInfo>,
    blocks: Seq<Seq<u8>>,
    i: nat,
    n: nat,
)
    requires
        i <= n,
        !(load_tables(types, infos, blocks, i) matches Some(Ok(_))),
    ensures
        load_tables(types, infos, blocks, n) == load_tables(types, infos, blocks, i),
    decreases n - i,
{
    if i < n {
        lemma_load_stuck(types, infos, blocks, i, (n - 1) as nat);
    }
}

/// The parts of each table are well-formed.
spec fn all_intact(tables: Seq<(u64, EdgeTable)>) -> bool {
    forall|i: int| 0 <= i < tables.len() ==> (#[trigger] tables[i]).1.intact()
}

proof fn lemma_put_intact(tables: Seq<(u64, EdgeTable)>, key: u64, t: EdgeTable)
    requires
        all_intact(tables),
        t.intact(),
    ensures
        all_intact(put(tables, key, t)),
{
    let p = |t: EdgeTable| t.intact();
    assert forall|i: int| 0 <= i < tables.len() implies p((#[trigger] tables[i]).1) by {}
    ordered_map::lemma_put_keeps(tables, key, t, p);
    let r = put(tables, key, t);
    assert forall|i: int| 0 <= i < r.len() implies (#[trigger] r[i]).1.intact() by {
        assert(p(r[i].1));
    }
}

proof fn lemma_update_intact(tables: Seq<(u64, EdgeTable)>, i: int, t: EdgeTable)
    requires
        all_intact(tables),
        0 <= i < tables.len(),
        t.intact(),
    ensures
        all_intact(tables.update(i, (tables[i].0, t))),
{
    let r = tables.update(i, (tables[i].0, t));
    assert forall|k: int| 0 <= k < r.len() implies (#[trigger] r[k]).1.intact() by {
        if k != i {
            assert(r[k] == tables[k]);
        }
    }
}

// ---------------------------------------------------------------------------------------------
// The store

impl View for EdgeStore {
    type V = EdgeStoreView;

    closed spec fn view(&self) -> EdgeStoreView {
        EdgeStoreView {
            tables: mapped(self.tables@, edge_table_view()),
            offsets: self.node_offsets@,
            catalog: (*self.catalog)@,
        }
    }
}

impl EdgeStore {
    /// The parts of the store are well-formed.
    pub closed spec fn intact(&self) -> bool {
        self.tables.wf() && all_intact(self.tables@) && self.node_offsets.wf()
    }

    pub open spec fn wf(&self) -> bool {
        self.intact() && self@.sound()
    }

    /// A store with an empty table for each edge type of the catalog.
    pub fn new(catalog: Arc<Catalog>) -> (s: Self)
        ensures
            s.wf(),
            s@ == EdgeStoreView::empty((*catalog)@),
    {
        let ghost entries = empty_tables((*catalog)@.edge_types);
        let ghost f = edge_table_view();
        let mut tables: OrderedMap<EdgeTable> = OrderedMap::new();
        let mut i: usize = 0;
        assert(mapped(tables@, f) =~= put_all(entries, 0));
        while i < catalog.edge_types.len()
            invariant
                i <= (*catalog).edge_types@.len(),
                entries == empty_tables((*catalog)@.edge_types),
                f == edge_table_view(),
                tables.wf(),
                all_intact(tables@),
                mapped(tables@, f) == put_all(entries, i as nat),
                (EdgeStoreView {
                    tables: mapped(tables@, f),
                    offsets: Seq::empty(),
                    catalog: (*catalog)@,
                }).sound(),
            decreases (*catalog).edge_types@.len() - i,
        {
            let entry = catalog.edge_types[i].clone();
            let key: u64 = entry.label_id.0 as u64;
            let table = EdgeTable::new(entry);
            let ghost before = tables@;
            tables.insert(key, table);
            proof {
                lemma_put_intact(before, key, table);
                ordered_map::lemma_mapped_put(before, f, key, table);
                lemma_put_sound(mapped(before, f), Seq::empty(), (*catalog)@, key, table@);
                assert(entries[i as int] == (key, table@));
            }
            i = i + 1;
        }
        let s = EdgeStore { tables, node_offsets: OrderedMap::new(), catalog };
        assert(s@ =~= EdgeStoreView::empty((*catalog)@));
        s
    }

    /// Whether commands can be applied and edges can be read.
    pub fn is_sound(&self) -> (b: bool)
        requires
            self.intact(),
        ensures
            b == self@.sound(),
    {
        proof {
            self.tables.lemma_wf();
            ordered_map::lemma_mapped_sorted(self.tables@, edge_table_view());
        }
        let mut i: usize = 0;
        while i < self.tables.len()
            invariant
                self.intact(),
                i <= self.tables@.len(),
                forall|k: int| 0 <= k < i ==> (#[trigger] self@.tables[k]).1.sound(),
            decreases self.tables@.len() - i,
        {
            assert(self@.tables[i as int].1 == self.tables@[i as int].1@);
            assert(self.tables@[i as int].1.intact());
            if !self.tables.value_at(i).is_sound() {
                return false;
            }
            i = i + 1;
        }
        true
    }

    /// Notes the offsets of nodes.
    pub fn update_node_offsets(&mut self, offsets: &OrderedMap<NodeOffset>)
        requires
            old(self).intact(),
            offsets.wf(),
        ensures
            final(self).intact(),
            final(self)@ == old(self)@.with_offsets(offsets@),
    {
        self.node_offsets.extend(offsets);
        assert(self@ =~= old(self)@.with_offsets(offsets@));
    }

    /// For `CreateEdge`, the from/to node offsets must have been registered
    /// via `update_node_offsets` before this call.
    pub fn apply_command(&mut self, cmd: &Command) -> (r: Result<(), StorageError>)
        requires
            old(self).wf(),
            old(self)@.has_room(cmd@),
        ensures
            final(self).wf(),
            final(self)@ == old(self)@.apply(cmd@).state,
            same_result(r, old(self)@.apply(cmd@).result),
    {
        match cmd {
            Command::CreateEdge { edge_id, type_id, from, to, properties } => self.create_edge(
                *edge_id,
                *type_id,
                *from,
                *to,
                properties,
            ),
            Command::DeleteEdge { edge_id } => self.delete_edge(*edge_id),
            _ => Ok(()),
        }
    }

    fn create_edge(
        &mut self,
        edge_id: EdgeId,
        type_id: LabelId,
        from: NodeId,
        to: NodeId,
        properties: &Vec<PropertyValue>,
    ) -> (r: Result<(), StorageError>)
        requires
            old(self).wf(),
            old(self)@.has_room(
                CommandView::CreateEdge {
                    edge_id,
                    type_id,
                    from,
                    to,
                    properties: values_view(properties@),
                },
            ),
        ensures
            final(self).wf(),
            ({
                let a = old(self)@.create(edge_id, type_id, from, to, values_view(properties@));
                final(self)@ == a.state && same_result(r, a.result)
            }),
    {
        let from_offset: u64 = match self.lookup_offset(from) {
            Ok(offset) => offset,
            Err(e) => {
                return Err(e);
            },
        };
        let to_offset: u64 = match self.lookup_offset(to) {
            Ok(offset) => offset,
            Err(e) => {
                return Err(e);
            },
        };
        let ghost f = edge_table_view();
        let ghost before = self.tables@;
        let key: u64 = type_id.0 as u64;
        proof {
            ordered_map::lemma_mapped_rank(before, f, key);
        }
        let aligned = match self.catalog.get_edge_type(type_id) {
            Some(schema) => align_properties(schema.properties.len(), properties.as_slice()),
            None => {
                return Err(StorageError::LabelNotFound { label_id: type_id });
            },
        };
        match self.tables.find(key) {
            Some(i) => {
                proof {
                    assert(before[i as int].1.intact());
                    assert(self@.tables[i as int] == (key, before[i as int].1@));
                    assert(self@.tables[i as int].1.sound());
                }
                let r = self.tables.value_at_mut(i).insert_edge(
                    edge_id,
                    from,
                    to,
                    from_offset,
                    to_offset,
                    aligned.as_slice(),
                );
                proof {
                    let t = self.tables@[i as int].1;
                    ordered_map::lemma_mapped_update(before, f, i as int, t);
                    lemma_with_table_sound(old(self)@, i as int, t@);
                    lemma_update_intact(before, i as int, t);
                }
                r
            },
            None => Err(StorageError::LabelNotFound { label_id: type_id }),
        }
    }

    fn delete_edge(&mut self, edge_id: EdgeId) -> (r: Result<(), StorageError>)
        requires
            old(self).wf(),
        ensures
            final(self).wf(),
            final(self)@ == old(self)@.delete(edge_id).state,
            same_result(r, old(self)@.delete(edge_id).result),
    {
        let ghost p = self@.table_answers(edge_id);
        let mut i: usize = 0;
        while i < self.tables.len()
            invariant
                *self == *old(self),
                self.wf(),
                p == self@.table_answers(edge_id),
                i <= self.tables@.len(),
                forall|k: int| 0 <= k < i ==> !#[trigger] p(k),
            decreases self.tables@.len() - i,
        {
            let ghost f = edge_table_view();
            let ghost before = self.tables@;
            proof {
                assert(before[i as int].1.intact());
                assert(self@.tables[i as int].1 == before[i as int].1@);
                assert(self@.tables[i as int].1.sound());
            }
            match self.tables.value_at(i).get_edge(edge_id) {
                Ok(None) => {},
                Ok(Some(_)) => {
                    proof {
                        assert(p(i as int));
                        search::lemma_first_where_is(self@.tables.len(), p, i as int);
                    }
                    let r = self.tables.value_at_mut(i).delete_edge(edge_id);
                    proof {
                        let t = self.tables@[i as int].1;
                        ordered_map::lemma_mapped_update(before, f, i as int, t);
                        lemma_with_table_sound(old(self)@, i as int, t@);
                        lemma_update_intact(before, i as int, t);
                    }
                    return r;
                },
                Err(e) => {
                    proof {
                        assert(p(i as int));
                        search::lemma_first_where_is(self@.tables.len(), p, i as int);
                    }
                    return Err(e);
                },
            }
            i = i + 1;
        }
        proof {
            search::lemma_first_where_none(self@.tables.len(), p);
        }
        Err(StorageError::EdgeNotFound { edge_id })
    }

    fn lookup_offset(&self, node_id: NodeId) -> (r: Result<NodeOffset, StorageError>)
        requires
            self.intact(),
        ensures
            match r {
                Ok(offset) => self@.offset(node_id) == Some(offset),
                Err(e) => self@.offset(node_id) is None && e@ == (ErrorView::NodeNotFound {
                    node_id,
                }),
            },
    {
        match self.node_offsets.get(node_id.0) {
            Some(offset) => Ok(*offset),
            None => Err(StorageError::NodeNotFound { node_id }),
        }
    }

    /// The table of a type.
    fn table(&self, type_id: LabelId) -> (r: Option<&EdgeTable>)
        requires
            self.intact(),
        ensures
            match r {
                Some(t) => t.intact() && self@.table(type_id) == Some(t@),
                None => self@.table(type_id) is None,
            },
    {
        proof {
            ordered_map::lemma_mapped_rank(self.tables@, edge_table_view(), type_id.0 as u64);
        }
        match self.tables.find(type_id.0 as u64) {
            Some(i) => {
                assert(self.tables@[i as int].1.intact());
                Some(self.tables.value_at(i))
            },
            None => None,
        }
    }

    /// Whether the offsets of the edge that a command creates leave room for a group's range.
    pub fn has_room(&self, cmd: &Command) -> (b: bool)
        requires
            self.intact(),
        ensures
            b == self@.has_room(cmd@),
    {
        match cmd {
            Command::CreateEdge { from, to, .. } => {
                match (self.node_offsets.get(from.0), self.node_offsets.get(to.0)) {
                    (Some(f), Some(t)) => *f / 65536 < 0xffff_ffff_ffff && *t / 65536
                        < 0xffff_ffff_ffff,
                    _ => true,
                }
            },
            _ => true,
        }
    }

    pub fn get_edge(&self, edge_id: EdgeId, type_id: LabelId) -> (r: Option<CSREdgeRecord>)
        requires
            self.intact(),
        ensures
            match r {
                Some(record) => self@.read(edge_id, type_id) == Some(record@),
                None => self@.read(edge_id, type_id) is None,
            },
    {
        match self.table(type_id) {
            Some(t) => match t.get_edge(edge_id) {
                Ok(record) => record,
                Err(_) => None,
            },
            None => None,
        }
    }

    /// All edges of a type; none for a type that is not there.
    pub fn scan_type(&self, type_id: LabelId) -> (records: Vec<CSREdgeRecord>)
        requires
            self.intact(),
        ensures
            records_view(records@) == self@.records(type_id),
    {
        match self.table(type_id) {
            Some(t) => t.iter(),
            None => {
                let records: Vec<CSREdgeRecord> = Vec::new();
                assert(records_view(records@) =~= Seq::empty());
                records
            },
        }
    }

    pub fn num_edges(&self, type_id: LabelId) -> (n: u64)
        requires
            self.intact(),
            self@.num_edges(type_id) <= u64::MAX,
        ensures
            n == self@.num_edges(type_id),
    {
        self.checked_num_edges(type_id).unwrap()
    }

    /// Like [`EdgeStore::num_edges`]; `None` where the number is too large.
    pub fn checked_num_edges(&self, type_id: LabelId) -> (r: Option<u64>)
        requires
            self.intact(),
        ensures
            match r {
                Some(n) => n == self@.num_edges(type_id),
                None => self@.num_edges(type_id) > u64::MAX,
            },
    {
        match self.table(type_id) {
            Some(t) => t.checked_num_edges(),
            None => Some(0),
        }
    }

    /// Appends `EdgeRef`s for `node_offset` (dense offset) in the given direction.
    pub fn neighbors(&self, node_offset: NodeOffset, dir: Direction, out: &mut Vec<EdgeRef>)
        requires
            self.wf(),
        ensures
            final(out)@ == old(out)@ + self@.neighbors(node_offset, dir),
    {
        let mut i: usize = 0;
        assert(old(out)@ + Seq::empty() =~= old(out)@);
        while i < self.tables.len()
            invariant
                self.wf(),
                i <= self.tables@.len(),
                out@ == old(out)@ + joined_neighbors(self@.tables, i as nat, node_offset, dir),
            decreases self.tables@.len() - i,
        {
            assert(self.tables@[i as int].1.intact());
            assert(self@.tables[i as int].1 == self.tables@[i as int].1@);
            assert(self@.tables[i as int].1.sound());
            self.tables.value_at(i).neighbors_into(node_offset, dir, out);
            assert(out@ =~= old(out)@ + joined_neighbors(
                self@.tables,
                (i + 1) as nat,
                node_offset,
                dir,
            ));
            i = i + 1;
        }
    }

    #[must_use]
    pub fn node_offsets(&self) -> (m: &OrderedMap<NodeOffset>)
        requires
            self.intact(),
        ensures
            m.wf(),
            m@ == self@.offsets,
    {
        &self.node_offsets
    }

    /// The page ranges of all tables.
    #[must_use]
    pub fn all_page_infos(&self) -> (infos: Vec<CSREdgeGroupPageInfo>)
        requires
            self.intact(),
        ensures
            infos@ == self@.page_infos(),
    {
        let mut infos: Vec<CSREdgeGroupPageInfo> = Vec::new();
        let mut i: usize = 0;
        while i < self.tables.len()
            invariant
                self.intact(),
                i <= self.tables@.len(),
                infos@ == joined_infos(self@.tables, i as nat),
            decreases self.tables@.len() - i,
        {
            assert(self@.tables[i as int].1 == self.tables@[i as int].1@);
            infos.extend_from_slice(self.tables.value_at(i).page_infos());
            assert(infos@ =~= joined_infos(self@.tables, (i + 1) as nat));
            i = i + 1;
        }
        infos
    }

    /// The pages to be written behind the first `first_page` pages of the data file: those of all dirty
    /// groups of all tables, which are noted as being there. `None` where a group is too large to be
    /// written, or the file would have too many pages.
    pub fn flush_all(&mut self, first_page: u64) -> (r: Option<Result<Vec<Page>, StorageError>>)
        requires
            old(self).wf(),
        ensures
            final(self).wf(),
            match r {
                Some(Ok(pages)) => forall|disk: Disk|
                    disk.len() == first_page ==> #[trigger] old(self)@.flush_outcome(disk) == Some(
                        Ok::<Flushed<EdgeStoreView>, ErrorView>(
                            Flushed { table: final(self)@, disk: disk + pages_view(pages@) },
                        ),
                    ),
                Some(Err(e)) => forall|disk: Disk|
                    disk.len() == first_page ==> #[trigger] old(self)@.flush_outcome(disk) == Some(
                        Err::<Flushed<EdgeStoreView>, ErrorView>(e@),
                    ),
                None => forall|disk: Disk|
                    disk.len() == first_page ==> #[trigger] old(self)@.flush_outcome(disk) is None,
            },
            r matches Some(Ok(pages)) ==> first_page + pages@.len() <= u64::MAX,
            final(self)@.alike(old(self)@),
    {
        let ghost s = old(self)@;
        let mut out: Vec<Page> = Vec::new();
        assert forall|disk: Disk| disk.len() == first_page implies #[trigger] s.tables_outcome(
            0,
            disk,
        ) == Some(
            Ok::<Flushed<EdgeStoreView>, ErrorView>(
                Flushed { table: self@, disk: disk + pages_view(out@) },
            ),
        ) by {
            assert(disk + pages_view(out@) =~= disk);
        }
        let n: usize = self.tables.len();
        let mut i: usize = 0;
        while i < n
            invariant
                self.wf(),
                i <= n,
                n == self@.tables.len(),
                n == s.tables.len(),
                s == old(self)@,
                self@.alike(s),
                forall|j: int| i <= j < n ==> #[trigger] self@.tables[j] == s.tables[j],
                first_page + out@.len() <= u64::MAX,
                forall|disk: Disk|
                    disk.len() == first_page ==> #[trigger] s.tables_outcome(i as nat, disk)
                        == Some(
                        Ok::<Flushed<EdgeStoreView>, ErrorView>(
                            Flushed { table: self@, disk: disk + pages_view(out@) },
                        ),
                    ),
            decreases n - i,
        {
            let ghost f = edge_table_view();
            let ghost before = self.tables@;
            let ghost v = self@;
            let ghost t = v.tables[i as int].1;
            let ghost written = pages_view(out@);
            proof {
                assert(before[i as int].1.intact());
                assert(t == before[i as int].1@);
                assert(t.sound());
            }
            let start: u64 = first_page + out.len() as u64;
            let r = self.tables.value_at_mut(i).flush(start);
            proof {
                let u = self.tables@[i as int].1;
                ordered_map::lemma_mapped_update(before, f, i as int, u);
                lemma_with_table_sound(v, i as int, u@);
                lemma_update_intact(before, i as int, u);
                assert(self@ == v.with_table(i as int, u@));
            }
            match r {
                Some(Ok(mut pages)) => {
                    let ghost added = pages_view(pages@);
                    out.append(&mut pages);
                    assert(pages_view(out@) =~= written + added);
                    assert forall|disk: Disk| disk.len() == first_page implies
                        #[trigger] s.tables_outcome((i + 1) as nat, disk) == Some(
                        Ok::<Flushed<EdgeStoreView>, ErrorView>(
                            Flushed { table: self@, disk: disk + pages_view(out@) },
                        ),
                    ) by {
                        assert(s.tables_outcome(i as nat, disk) == Some(
                            Ok::<Flushed<EdgeStoreView>, ErrorView>(
                                Flushed { table: v, disk: disk + written },
                            ),
                        ));
                        assert((disk + written).len() == start);
                        assert(t.flush_outcome(disk + written) == Some(
                            Ok::<Flushed<EdgeTableView>, ErrorView>(
                                Flushed {
                                    table: self@.tables[i as int].1,
                                    disk: (disk + written) + added,
                                },
                            ),
                        ));
                        assert(disk + pages_view(out@) =~= (disk + written) + added);
                    }
                },
                Some(Err(e)) => {
                    assert forall|disk: Disk| disk.len() == first_page implies
                        #[trigger] s.flush_outcome(disk) == Some(
                        Err::<Flushed<EdgeStoreView>, ErrorView>(e@),
                    ) by {
                        assert(s.tables_outcome(i as nat, disk) == Some(
                            Ok::<Flushed<EdgeStoreView>, ErrorView>(
                                Flushed { table: v, disk: disk + written },
                            ),
                        ));
                        assert((disk + written).len() == start);
                        assert(t.flush_outcome(disk + written) == Some(
                            Err::<Flushed<EdgeTableView>, ErrorView>(e@),
                        ));
                        recovery::lemma_edges_stuck(s, (i + 1) as nat, n as nat, disk);
                    }
                    return Some(Err(e));
                },
                None => {
                    assert forall|disk: Disk| disk.len() == first_page implies
                        #[trigger] s.flush_outcome(disk) is None by {
                        assert(s.tables_outcome(i as nat, disk) == Some(
                            Ok::<Flushed<EdgeStoreView>, ErrorView>(
                                Flushed { table: v, disk: disk + written },
                            ),
                        ));
                        assert((disk + written).len() == start);
                        assert(t.flush_outcome(disk + written) is None);
                        recovery::lemma_edges_stuck(s, (i + 1) as nat, n as nat, disk);
                    }
                    return None;
                },
            }
            i = i + 1;
        }
        Some(Ok(out))
    }

    /// The store whose groups stand on pages: `pages[i]` are those of `page_infos[i]`.
    pub fn load(
        catalog: Arc<Catalog>,
        page_infos: &[CSREdgeGroupPageInfo],
        pages: &Vec<Vec<Page>>,
    ) -> (r: Result<Self, StorageError>)
        requires
            pages@.len() == page_infos@.len(),
            EdgeStoreView::load((*catalog)@, page_infos@, blocks_view(pages@)) is Some,
        ensures
            ({
                let d = EdgeStoreView::load((*catalog)@, page_infos@, blocks_view(pages@));
                match r {
                    Ok(s) => s.intact() && d == Some(Ok::<EdgeStoreView, ErrorView>(s@)),
                    Err(e) => d == Some(Err::<EdgeStoreView, ErrorView>(e@)),
                }
            }),
    {
        Self::try_load(catalog, page_infos, pages).unwrap()
    }

    /// Like [`EdgeStore::load`], for any pages.
    pub fn try_load(
        catalog: Arc<Catalog>,
        page_infos: &[CSREdgeGroupPageInfo],
        pages: &Vec<Vec<Page>>,
    ) -> (r: Option<Result<Self, StorageError>>)
        requires
            pages@.len() == page_infos@.len(),
        ensures
            ({
                let d = EdgeStoreView::load((*catalog)@, page_infos@, blocks_view(pages@));
                match r {
                    Some(Ok(s)) => s.intact() && d == Some(Ok::<EdgeStoreView, ErrorView>(s@)),
                    Some(Err(e)) => d == Some(Err::<EdgeStoreView, ErrorView>(e@)),
                    None => d is None,
                }
            }),
    {
        let ghost types = (*catalog)@.edge_types;
        let ghost blocks = blocks_view(pages@);
        let ghost f = edge_table_view();
        let mut tables: OrderedMap<EdgeTable> = OrderedMap::new();
        let n: usize = catalog.edge_types.len();
        let mut i: usize = 0;
        assert(mapped(tables@, f) =~= Seq::empty());
        while i < n
            invariant
                i <= n,
                n == types.len(),
                types == (*catalog)@.edge_types,
                blocks == blocks_view(pages@),
                pages@.len() == page_infos@.len(),
                f == edge_table_view(),
                tables.wf(),
                all_intact(tables@),
                load_tables(types, page_infos@, blocks, i as nat) == Some(
                    Ok::<EdgeTables, ErrorView>(mapped(tables@, f)),
                ),
            decreases n - i,
        {
            let entry = catalog.edge_types[i].clone();
            assert(types[i as int] == entry@);
            let key: u64 = entry.label_id.0 as u64;
            let mut infos: Vec<CSREdgeGroupPageInfo> = Vec::new();
            infos.extend_from_slice(page_infos);
            assert(infos@ =~= page_infos@);
            match EdgeTable::try_load(entry, infos, pages) {
                Some(Ok(table)) => {
                    let ghost before = tables@;
                    tables.insert(key, table);
                    proof {
                        lemma_put_intact(before, key, table);
                        ordered_map::lemma_mapped_put(before, f, key, table);
                    }
                },
                Some(Err(e)) => {
                    proof {
                        lemma_load_stuck(types, page_infos@, blocks, (i + 1) as nat, n as nat);
                    }
                    return Some(Err(e));
                },
                None => {
                    proof {
                        lemma_load_stuck(types, page_infos@, blocks, (i + 1) as nat, n as nat);
                    }
                    return None;
                },
            }
            i = i + 1;
        }
        let s = EdgeStore { tables, node_offsets: OrderedMap::new(), catalog };
        assert(s@ =~= (EdgeStoreView {
            tables: mapped(tables@, f),
            offsets: Seq::empty(),
            catalog: (*catalog)@,
        }));
        Some(Ok(s))
    }
}

} // verus!
