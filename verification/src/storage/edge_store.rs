//! The edges of all types, in memory.

use vstd::prelude::*;

use crate::catalog::{Catalog, CatalogView, EdgeTypeView};
use crate::command::{same_result, values_view, Applied, Command, CommandView};
use crate::error::{ErrorView, StorageError};
use crate::ordered_map;
use crate::ordered_map::{lookup, mapped, put, put_all, sorted, OrderedMap};
use crate::search;
use crate::search::first_where;
use crate::storage::adjacency_index::{refs_of, AdjacencyIndex, AdjacencyView, EdgeRef};
use crate::storage::edge_group::EdgeRecord;
use crate::storage::edge_table::{edge_records_view, EdgeTable, PlainEdgesView};
use crate::table::edge::RecordView;
use crate::table::row::{align_properties, aligned_row};
use crate::types::{Direction, EdgeId, LabelId, NodeId, PropertyValue, PropertyView};

verus! {

pub struct EdgeStore {
    tables: OrderedMap<EdgeTable>,
    adjacency: AdjacencyIndex,
    catalog: Catalog,
}

// ---------------------------------------------------------------------------------------------
// The model

/// Tables by the number of their type.
pub type PlainTables = Seq<(u64, PlainEdgesView)>;

/// What an [`EdgeStore`] stands for.
#[verifier::ext_equal]
pub struct PlainStoreView {
    pub tables: PlainTables,
    pub adjacency: AdjacencyView,
    pub catalog: CatalogView,
}

/// What a table stands for, as a function.
pub open spec fn edge_table_view() -> spec_fn(EdgeTable) -> PlainEdgesView {
    |t: EdgeTable| t@
}

/// A table without edges for each type.
pub open spec fn empty_tables(types: Seq<EdgeTypeView>) -> PlainTables {
    Seq::new(types.len(), |i: int| (types[i].label_id.0 as u64, PlainEdgesView::empty(types[i])))
}

impl PlainStoreView {
    /// A store with a table for each type of the catalog.
    pub open spec fn empty(catalog: CatalogView) -> PlainStoreView {
        let tables = empty_tables(catalog.edge_types);
        PlainStoreView {
            tables: put_all(tables, tables.len()),
            adjacency: AdjacencyView::empty(),
            catalog,
        }
    }

    /// The tables and the nodes of the index are in order.
    pub open spec fn sound(self) -> bool {
        sorted(self.tables) && self.adjacency.sound()
    }

    /// The table of a type.
    pub open spec fn table(self, type_id: LabelId) -> Option<PlainEdgesView> {
        lookup(self.tables, type_id.0 as u64)
    }

    pub open spec fn table_has(self, edge_id: EdgeId) -> spec_fn(int) -> bool {
        |i: int| self.tables[i].1.read(edge_id) matches Ok(Some(_))
    }

    /// The place of the first table from which an edge can be read.
    pub open spec fn table_with(self, edge_id: EdgeId) -> Option<int> {
        first_where(self.tables.len(), self.table_has(edge_id))
    }

    /// An edge goes into the table of its type and, if it is taken there, into the index.
    pub open spec fn create(
        self,
        edge_id: EdgeId,
        type_id: LabelId,
        from: NodeId,
        to: NodeId,
        properties: Seq<PropertyView>,
    ) -> Applied<PlainStoreView> {
        match (self.catalog.edge_type(type_id), self.table(type_id)) {
            (Some(schema), Some(t)) => {
                let i = t.insert(
                    edge_id,
                    from,
                    to,
                    aligned_row(schema.properties.len(), properties),
                );
                let tables = put(self.tables, type_id.0 as u64, i.state);
                match i.result {
                    Ok(_) => Applied {
                        state: PlainStoreView {
                            tables,
                            adjacency: self.adjacency.with_edge(edge_id, type_id, from, to),
                            ..self
                        },
                        result: Ok(()),
                    },
                    Err(e) => Applied {
                        state: PlainStoreView { tables, ..self },
                        result: Err(e),
                    },
                }
            },
            _ => Applied {
                state: self,
                result: Err(ErrorView::LabelNotFound { label_id: type_id }),
            },
        }
    }

    /// An edge is taken out of the first table that has it, and out of the index.
    pub open spec fn delete(self, edge_id: EdgeId) -> Applied<PlainStoreView> {
        match self.table_with(edge_id) {
            Some(i) => {
                let t = self.tables[i].1;
                let record = t.read(edge_id)->Ok_0->Some_0;
                Applied {
                    state: PlainStoreView {
                        tables: self.tables.update(i, (self.tables[i].0, t.delete(edge_id))),
                        adjacency: self.adjacency.without(edge_id, record.from, record.to),
                        ..self
                    },
                    result: Ok(()),
                }
            },
            None => Applied { state: self, result: Err(ErrorView::EdgeNotFound { edge_id }) },
        }
    }

    /// What a command does; commands on nodes do nothing here.
    pub open spec fn apply(self, cmd: CommandView) -> Applied<PlainStoreView> {
        match cmd {
            CommandView::CreateEdge { edge_id, type_id, from, to, properties } => self.create(
                edge_id,
                type_id,
                from,
                to,
                properties,
            ),
            CommandView::DeleteEdge { edge_id } => self.delete(edge_id),
            _ => Applied { state: self, result: Ok(()) },
        }
    }

    /// An edge of a type, if it is there.
    pub open spec fn read(self, edge_id: EdgeId, type_id: LabelId) -> Option<RecordView> {
        match self.table(type_id) {
            Some(t) => match t.read(edge_id) {
                Ok(record) => record,
                Err(_) => None,
            },
            None => None,
        }
    }

    /// All edges of a type.
    pub open spec fn records(self, type_id: LabelId) -> Seq<RecordView> {
        match self.table(type_id) {
            Some(t) => t.records(),
            None => Seq::empty(),
        }
    }

    pub open spec fn num_edges(self, type_id: LabelId) -> nat {
        match self.table(type_id) {
            Some(t) => t.num_edges(),
            None => 0,
        }
    }

    /// The edges of a node.
    pub open spec fn neighbors(self, node: NodeId, direction: Direction) -> Seq<EdgeRef> {
        match direction {
            Direction::Forward => refs_of(self.adjacency.forward, node),
            Direction::Backward => refs_of(self.adjacency.backward, node),
        }
    }
}

// ---------------------------------------------------------------------------------------------
// The store

impl View for EdgeStore {
    type V = PlainStoreView;

    closed spec fn view(&self) -> PlainStoreView {
        PlainStoreView {
            tables: mapped(self.tables@, edge_table_view()),
            adjacency: self.adjacency@,
            catalog: self.catalog@,
        }
    }
}

spec fn all_wf(tables: Seq<(u64, EdgeTable)>) -> bool {
    forall|i: int| 0 <= i < tables.len() ==> (#[trigger] tables[i]).1.wf()
}

proof fn lemma_put_wf(tables: Seq<(u64, EdgeTable)>, key: u64, t: EdgeTable)
    requires
        all_wf(tables),
        t.wf(),
    ensures
        all_wf(put(tables, key, t)),
{
    let p = |t: EdgeTable| t.wf();
    assert forall|i: int| 0 <= i < tables.len() implies p((#[trigger] tables[i]).1) by {}
    ordered_map::lemma_put_keeps(tables, key, t, p);
    let r = put(tables, key, t);
    assert forall|i: int| 0 <= i < r.len() implies (#[trigger] r[i]).1.wf() by {
        assert(p(r[i].1));
    }
}

proof fn lemma_update_wf(tables: Seq<(u64, EdgeTable)>, i: int, t: EdgeTable)
    requires
        all_wf(tables),
        0 <= i < tables.len(),
        t.wf(),
    ensures
        all_wf(tables.update(i, (tables[i].0, t))),
{
    let r = tables.update(i, (tables[i].0, t));
    assert forall|k: int| 0 <= k < r.len() implies (#[trigger] r[k]).1.wf() by {
        if k != i {
            assert(r[k] == tables[k]);
        }
    }
}

impl EdgeStore {
    pub closed spec fn wf(&self) -> bool {
        self.tables.wf() && all_wf(self.tables@) && self.adjacency.wf()
    }

    pub proof fn lemma_wf(&self)
        requires
            self.wf(),
        ensures
            self@.sound(),
    {
        self.tables.lemma_wf();
        self.adjacency.lemma_wf();
        ordered_map::lemma_mapped_sorted(self.tables@, edge_table_view());
    }

    /// A store with an empty table for each edge type of the catalog.
    pub fn new(catalog: Catalog) -> (s: Self)
        ensures
            s.wf(),
            s@ == PlainStoreView::empty(catalog@),
    {
        let ghost entries = empty_tables(catalog@.edge_types);
        let ghost f = edge_table_view();
        let mut tables: OrderedMap<EdgeTable> = OrderedMap::new();
        let mut i: usize = 0;
        assert(mapped(tables@, f) =~= put_all(entries, 0));
        while i < catalog.edge_types.len()
            invariant
                i <= catalog.edge_types@.len(),
                entries == empty_tables(catalog@.edge_types),
                f == edge_table_view(),
                tables.wf(),
                all_wf(tables@),
                mapped(tables@, f) == put_all(entries, i as nat),
            decreases catalog.edge_types@.len() - i,
        {
            let entry = catalog.edge_types[i].clone();
            let key: u64 = entry.label_id.0 as u64;
            let table = EdgeTable::new(entry);
            let ghost before = tables@;
            tables.insert(key, table);
            proof {
                lemma_put_wf(before, key, table);
                ordered_map::lemma_mapped_put(before, f, key, table);
                assert(entries[i as int] == (key, table@));
            }
            i = i + 1;
        }
        let s = EdgeStore { tables, adjacency: AdjacencyIndex::new(), catalog };
        assert(s@ =~= PlainStoreView::empty(catalog@));
        s
    }

    pub fn apply_command(&mut self, cmd: &Command) -> (r: Result<(), StorageError>)
        requires
            old(self).wf(),
        ensures
            final(self).wf(),
            final(self)@ == old(self)@.apply(cmd@).state,
            same_result(r, old(self)@.apply(cmd@).result),
    {
        match cmd {
            Command::CreateEdge { edge_id, type_id, from, to, properties } => self.create_edge(
                *edge_id,
                *type_id,
                *from,
                *to,
                properties,
            ),
            Command::DeleteEdge { edge_id } => self.delete_edge(*edge_id),
            _ => Ok(()),
        }
    }

    fn create_edge(
        &mut self,
        edge_id: EdgeId,
        type_id: LabelId,
        from: NodeId,
        to: NodeId,
        properties: &Vec<PropertyValue>,
    ) -> (r: Result<(), StorageError>)
        requires
            old(self).wf(),
        ensures
            final(self).wf(),
            ({
                let a = old(self)@.create(edge_id, type_id, from, to, values_view(properties@));
                final(self)@ == a.state && same_result(r, a.result)
            }),
    {
        let ghost f = edge_table_view();
        let ghost before = self.tables@;
        let key: u64 = type_id.0 as u64;
        proof {
            ordered_map::lemma_mapped_rank(before, f, key);
        }
        let aligned = match self.catalog.get_edge_type(type_id) {
            Some(schema) => align_properties(schema.properties.len(), properties.as_slice()),
            None => {
                return Err(StorageError::LabelNotFound { label_id: type_id });
            },
        };
        match self.tables.find(key) {
            Some(i) => {
                proof {
                    assert(before[i as int].1.wf());
                    assert(self@.tables[i as int] == (key, before[i as int].1@));
                }
                let r = self.tables.value_at_mut(i).insert_edge(
                    edge_id,
                    from,
                    to,
                    aligned.as_slice(),
                );
                proof {
                    let t = self.tables@[i as int].1;
                    ordered_map::lemma_mapped_update(before, f, i as int, t);
                    lemma_update_wf(before, i as int, t);
                }
                match r {
                    Ok(_) => {
                        self.adjacency.add_edge(edge_id, type_id, from, to);
                        Ok(())
                    },
                    Err(e) => Err(e),
                }
            },
            None => Err(StorageError::LabelNotFound { label_id: type_id }),
        }
    }

    fn delete_edge(&mut self, edge_id: EdgeId) -> (r: Result<(), StorageError>)
        requires
            old(self).wf(),
        ensures
            final(self).wf(),
            final(self)@ == old(self)@.delete(edge_id).state,
            same_result(r, old(self)@.delete(edge_id).result),
    {
        let ghost p = self@.table_has(edge_id);
        let mut i: usize = 0;
        while i < self.tables.len()
            invariant
                *self == *old(self),
                self.wf(),
                p == self@.table_has(edge_id),
                i <= self.tables@.len(),
                forall|k: int| 0 <= k < i ==> !#[trigger] p(k),
            decreases self.tables@.len() - i,
        {
            let ghost f = edge_table_view();
            let ghost before = self.tables@;
            proof {
                assert(before[i as int].1.wf());
                assert(self@.tables[i as int].1 == before[i as int].1@);
            }
            if let Ok(Some(record)) = self.tables.value_at(i).get_edge(edge_id) {
                proof {
                    assert(p(i as int));
                    search::lemma_first_where_is(self@.tables.len(), p, i as int);
                }
                let r = self.tables.value_at_mut(i).delete_edge(edge_id);
                proof {
                    let t = self.tables@[i as int].1;
                    ordered_map::lemma_mapped_update(before, f, i as int, t);
                    lemma_update_wf(before, i as int, t);
                }
                match r {
                    Ok(()) => {},
                    Err(e) => {
                        return Err(e);
                    },
                }
                self.adjacency.remove_edge(edge_id, record.from, record.to);
                return Ok(());
            }
            i = i + 1;
        }
        proof {
            search::lemma_first_where_none(self@.tables.len(), p);
        }
        Err(StorageError::EdgeNotFound { edge_id })
    }

    /// The table of a type.
    fn table(&self, type_id: LabelId) -> (r: Option<&EdgeTable>)
        requires
            self.wf(),
        ensures
            match r {
                Some(t) => t.wf() && self@.table(type_id) == Some(t@),
                None => self@.table(type_id) is None,
            },
    {
        proof {
            ordered_map::lemma_mapped_rank(self.tables@, edge_table_view(), type_id.0 as u64);
        }
        match self.tables.find(type_id.0 as u64) {
            Some(i) => {
                assert(self.tables@[i as int].1.wf());
                Some(self.tables.value_at(i))
            },
            None => None,
        }
    }

    pub fn get_edge(&self, edge_id: EdgeId, type_id: LabelId) -> (r: Option<EdgeRecord>)
        requires
            self.wf(),
        ensures
            match r {
                Some(record) => self@.read(edge_id, type_id) == Some(record@),
                None => self@.read(edge_id, type_id) is None,
            },
    {
        match self.table(type_id) {
            Some(t) => match t.get_edge(edge_id) {
                Ok(record) => record,
                Err(_) => None,
            },
            None => None,
        }
    }

    /// All edges of a type; none for a type that is not there.
    pub fn scan_type(&self, type_id: LabelId) -> (records: Vec<EdgeRecord>)
        requires
            self.wf(),
        ensures
            edge_records_view(records@) == self@.records(type_id),
    {
        match self.table(type_id) {
            Some(t) => t.iter(),
            None => {
                let records: Vec<EdgeRecord> = Vec::new();
                assert(edge_records_view(records@) =~= Seq::empty());
                records
            },
        }
    }

    pub fn num_edges(&self, type_id: LabelId) -> (n: u64)
        requires
            self.wf(),
            self@.num_edges(type_id) <= u64::MAX,
        ensures
            n == self@.num_edges(type_id),
    {
        self.checked_num_edges(type_id).unwrap()
    }

    /// Like [`EdgeStore::num_edges`]; `None` where the number is too large.
    pub fn checked_num_edges(&self, type_id: LabelId) -> (r: Option<u64>)
        requires
            self.wf(),
        ensures
            match r {
                Some(n) => n == self@.num_edges(type_id),
                None => self@.num_edges(type_id) > u64::MAX,
            },
    {
        match self.table(type_id) {
            Some(t) => t.checked_num_edges(),
            None => Some(0),
        }
    }

    /// The edges of a node.
    pub fn neighbors(&self, node: NodeId, dir: Direction) -> (refs: &[EdgeRef])
        requires
            self.wf(),
        ensures
            refs@ == self@.neighbors(node, dir),
    {
        match dir {
            Direction::Forward => self.adjacency.get_forward(node),
            Direction::Backward => self.adjacency.get_backward(node),
        }
    }
}

} // verus!
