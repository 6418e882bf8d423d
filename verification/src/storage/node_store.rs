//! The nodes of all labels, in memory.

use vstd::prelude::*;

use crate::catalog::{Catalog, CatalogView, NodeLabelView};
use crate::command::{same_result, values_view, Applied, Command, CommandView};
use crate::error::{ErrorView, StorageError};
use crate::ordered_map;
use crate::ordered_map::{lookup, mapped, put, put_all, sorted, OrderedMap};
use crate::search;
use crate::search::first_where;
use crate::state::node_table::{node_records_view, NodeRecordView};
use crate::storage::node_table::{NodeRecord, NodeTable, PlainNodesView};
use crate::table::row::{align_properties, aligned_row, row_view, RowView};
use crate::types::{LabelId, NodeId, PropertyValue, PropertyView};

verus! {

/// Top-level in-memory node storage. Maps each label to its table.
/// `apply_command` is the single write entry point of the log-driven state machine.
pub struct NodeStore {
    tables: OrderedMap<NodeTable>,
    catalog: Catalog,
}

// ---------------------------------------------------------------------------------------------
// The model

/// Tables by the number of their label.
pub type PlainTables = Seq<(u64, PlainNodesView)>;

/// What a [`NodeStore`] stands for.
#[verifier::ext_equal]
pub struct PlainStoreView {
    pub tables: PlainTables,
    pub catalog: CatalogView,
}

/// What a table stands for, as a function.
pub open spec fn node_table_view() -> spec_fn(NodeTable) -> PlainNodesView {
    |t: NodeTable| t@
}

/// A table without nodes for each label.
pub open spec fn empty_tables(labels: Seq<NodeLabelView>) -> PlainTables {
    Seq::new(labels.len(), |i: int| (labels[i].label_id.0 as u64, PlainNodesView::empty(labels[i])))
}

impl PlainStoreView {
    /// A store with a table for each label of the catalog.
    pub open spec fn empty(catalog: CatalogView) -> PlainStoreView {
        let tables = empty_tables(catalog.node_labels);
        PlainStoreView { tables: put_all(tables, tables.len()), catalog }
    }

    /// The table of a label.
    pub open spec fn table(self, label_id: LabelId) -> Option<PlainNodesView> {
        lookup(self.tables, label_id.0 as u64)
    }

    pub open spec fn table_has(self, node_id: NodeId) -> spec_fn(int) -> bool {
        |i: int| self.tables[i].1.group_with(node_id) is Some
    }

    /// The place of the first table with a node.
    pub open spec fn table_with(self, node_id: NodeId) -> Option<int> {
        first_where(self.tables.len(), self.table_has(node_id))
    }

    /// A node goes into the table of its label.
    pub open spec fn create(
        self,
        node_id: NodeId,
        label_id: LabelId,
        properties: Seq<PropertyView>,
    ) -> Applied<PlainStoreView> {
        match (self.catalog.node_label(label_id), self.table(label_id)) {
            (Some(schema), Some(t)) => {
                let i = t.insert(node_id, aligned_row(schema.properties.len(), properties));
                Applied {
                    state: PlainStoreView {
                        tables: put(self.tables, label_id.0 as u64, i.state),
                        ..self
                    },
                    result: match i.result {
                        Ok(_) => Ok(()),
                        Err(e) => Err(e),
                    },
                }
            },
            _ => Applied { state: self, result: Err(ErrorView::LabelNotFound { label_id }) },
        }
    }

    /// A node is taken out of the first table that has it.
    pub open spec fn delete(self, node_id: NodeId) -> Applied<PlainStoreView> {
        match self.table_with(node_id) {
            Some(i) => Applied {
                state: PlainStoreView {
                    tables: self.tables.update(
                        i,
                        (self.tables[i].0, self.tables[i].1.delete(node_id)),
                    ),
                    ..self
                },
                result: Ok(()),
            },
            None => Applied { state: self, result: Err(ErrorView::NodeNotFound { node_id }) },
        }
    }

    /// What a command does; commands on edges and vectors do nothing here.
    pub open spec fn apply(self, cmd: CommandView) -> Applied<PlainStoreView> {
        match cmd {
            CommandView::CreateNode { node_id, label_id, properties } => self.create(
                node_id,
                label_id,
                properties,
            ),
            CommandView::DeleteNode { node_id } => self.delete(node_id),
            _ => Applied { state: self, result: Ok(()) },
        }
    }

    /// The values of a node of a label, if it is there.
    pub open spec fn read(self, node_id: NodeId, label_id: LabelId) -> Option<RowView> {
        match self.table(label_id) {
            Some(t) => match t.read(node_id) {
                Ok(row) => row,
                Err(_) => None,
            },
            None => None,
        }
    }

    /// All nodes of a label.
    pub open spec fn records(self, label_id: LabelId) -> Seq<NodeRecordView> {
        match self.table(label_id) {
            Some(t) => t.records(),
            None => Seq::empty(),
        }
    }

    pub open spec fn num_nodes(self, label_id: LabelId) -> nat {
        match self.table(label_id) {
            Some(t) => t.num_nodes(),
            None => 0,
        }
    }
}

// ---------------------------------------------------------------------------------------------
// The store

impl View for NodeStore {
    type V = PlainStoreView;

    closed spec fn view(&self) -> PlainStoreView {
        PlainStoreView { tables: mapped(self.tables@, node_table_view()), catalog: self.catalog@ }
    }
}

spec fn all_wf(tables: Seq<(u64, NodeTable)>) -> bool {
    forall|i: int| 0 <= i < tables.len() ==> (#[trigger] tables[i]).1.wf()
}

proof fn lemma_put_wf(tables: Seq<(u64, NodeTable)>, key: u64, t: NodeTable)
    requires
        all_wf(tables),
        t.wf(),
    ensures
        all_wf(put(tables, key, t)),
{
    let p = |t: NodeTable| t.wf();
    assert forall|i: int| 0 <= i < tables.len() implies p((#[trigger] tables[i]).1) by {}
    ordered_map::lemma_put_keeps(tables, key, t, p);
    let r = put(tables, key, t);
    assert forall|i: int| 0 <= i < r.len() implies (#[trigger] r[i]).1.wf() by {
        assert(p(r[i].1));
    }
}

proof fn lemma_update_wf(tables: Seq<(u64, NodeTable)>, i: int, t: NodeTable)
    requires
        all_wf(tables),
        0 <= i < tables.len(),
        t.wf(),
    ensures
        all_wf(tables.update(i, (tables[i].0, t))),
{
    let r = tables.update(i, (tables[i].0, t));
    assert forall|k: int| 0 <= k < r.len() implies (#[trigger] r[k]).1.wf() by {
        if k != i {
            assert(r[k] == tables[k]);
        }
    }
}

impl NodeStore {
    pub closed spec fn wf(&self) -> bool {
        self.tables.wf() && all_wf(self.tables@)
    }

    pub proof fn lemma_wf(&self)
        requires
            self.wf(),
        ensures
            sorted(self@.tables),
    {
        self.tables.lemma_wf();
        ordered_map::lemma_mapped_sorted(self.tables@, node_table_view());
    }

    /// Build a store pre-populated with one empty table per label in the catalog.
    pub fn new(catalog: Catalog) -> (s: Self)
        ensures
            s.wf(),
            s@ == PlainStoreView::empty(catalog@),
    {
        let ghost entries = empty_tables(catalog@.node_labels);
        let ghost f = node_table_view();
        let mut tables: OrderedMap<NodeTable> = OrderedMap::new();
        let mut i: usize = 0;
        assert(mapped(tables@, f) =~= put_all(entries, 0));
        while i < catalog.node_labels.len()
            invariant
                i <= catalog.node_labels@.len(),
                entries == empty_tables(catalog@.node_labels),
                f == node_table_view(),
                tables.wf(),
                all_wf(tables@),
                mapped(tables@, f) == put_all(entries, i as nat),
            decreases catalog.node_labels@.len() - i,
        {
            let entry = catalog.node_labels[i].clone();
            let key: u64 = entry.label_id.0 as u64;
            let table = NodeTable::new(entry);
            let ghost before = tables@;
            tables.insert(key, table);
            proof {
                lemma_put_wf(before, key, table);
                ordered_map::lemma_mapped_put(before, f, key, table);
                assert(entries[i as int] == (key, table@));
            }
            i = i + 1;
        }
        let s = NodeStore { tables, catalog };
        assert(s@ =~= PlainStoreView::empty(catalog@));
        s
    }

    /// Apply a command from the log. Only `CreateNode` and `DeleteNode` are handled here.
    /// Other variants are silently ignored (edges, vectors are separate stores).
    pub fn apply_command(&mut self, cmd: &Command) -> (r: Result<(), StorageError>)
        requires
            old(self).wf(),
        ensures
            final(self).wf(),
            final(self)@ == old(self)@.apply(cmd@).state,
            same_result(r, old(self)@.apply(cmd@).result),
    {
        match cmd {
            Command::CreateNode { node_id, label_id, properties } => self.create_node(
                *node_id,
                *label_id,
                properties,
            ),
            Command::DeleteNode { node_id } => self.delete_node(*node_id),
            _ => Ok(()),
        }
    }

    fn create_node(
        &mut self,
        node_id: NodeId,
        label_id: LabelId,
        properties: &Vec<PropertyValue>,
    ) -> (r: Result<(), StorageError>)
        requires
            old(self).wf(),
        ensures
            final(self).wf(),
            ({
                let a = old(self)@.create(node_id, label_id, values_view(properties@));
                final(self)@ == a.state && same_result(r, a.result)
            }),
    {
        let ghost f = node_table_view();
        let ghost before = self.tables@;
        let key: u64 = label_id.0 as u64;
        proof {
            ordered_map::lemma_mapped_rank(before, f, key);
        }
        let aligned = match self.catalog.get_node_label(label_id) {
            Some(schema) => align_properties(schema.properties.len(), properties.as_slice()),
            None => {
                return Err(StorageError::LabelNotFound { label_id });
            },
        };
        match self.tables.find(key) {
            Some(i) => {
                proof {
                    assert(before[i as int].1.wf());
                    assert(self@.tables[i as int] == (key, before[i as int].1@));
                }
                let r = self.tables.value_at_mut(i).insert_node(node_id, aligned.as_slice());
                proof {
                    let t = self.tables@[i as int].1;
                    ordered_map::lemma_mapped_update(before, f, i as int, t);
                    lemma_update_wf(before, i as int, t);
                }
                match r {
                    Ok(_) => Ok(()),
                    Err(e) => Err(e),
                }
            },
            None => Err(StorageError::LabelNotFound { label_id }),
        }
    }

    /// `DeleteNode` doesn't carry a label, so all tables are scanned.
    fn delete_node(&mut self, node_id: NodeId) -> (r: Result<(), StorageError>)
        requires
            old(self).wf(),
        ensures
            final(self).wf(),
            final(self)@ == old(self)@.delete(node_id).state,
            same_result(r, old(self)@.delete(node_id).result),
    {
        let ghost p = self@.table_has(node_id);
        let ghost f = node_table_view();
        let mut i: usize = 0;
        while i < self.tables.len()
            invariant
                self.wf(),
                self@ == old(self)@,
                p == self@.table_has(node_id),
                f == node_table_view(),
                i <= self.tables@.len(),
                forall|k: int| 0 <= k < i ==> !#[trigger] p(k),
            decreases self.tables@.len() - i,
        {
            let ghost before = self.tables@;
            let ghost store = self@;
            proof {
                assert(before[i as int].1.wf());
                assert(self@.tables[i as int].1 == before[i as int].1@);
            }
            let r = self.tables.value_at_mut(i).delete_node(node_id);
            proof {
                let t = self.tables@[i as int].1;
                ordered_map::lemma_mapped_update(before, f, i as int, t);
                lemma_update_wf(before, i as int, t);
            }
            match r {
                Ok(()) => {
                    proof {
                        assert(p(i as int));
                        search::lemma_first_where_is(store.tables.len(), p, i as int);
                    }
                    return Ok(());
                },
                Err(StorageError::NodeNotFound { .. }) => {
                    assert(!p(i as int));
                    assert(self@ =~= store);
                },
                Err(e) => {
                    return Err(e);
                },
            }
            i = i + 1;
        }
        proof {
            search::lemma_first_where_none(self@.tables.len(), p);
        }
        Err(StorageError::NodeNotFound { node_id })
    }

    /// The table of a label.
    fn table(&self, label_id: LabelId) -> (r: Option<&NodeTable>)
        requires
            self.wf(),
        ensures
            match r {
                Some(t) => t.wf() && self@.table(label_id) == Some(t@),
                None => self@.table(label_id) is None,
            },
    {
        proof {
            ordered_map::lemma_mapped_rank(self.tables@, node_table_view(), label_id.0 as u64);
        }
        match self.tables.find(label_id.0 as u64) {
            Some(i) => {
                assert(self.tables@[i as int].1.wf());
                Some(self.tables.value_at(i))
            },
            None => None,
        }
    }

    #[must_use]
    pub fn get_node(&self, node_id: NodeId, label_id: LabelId) -> (r: Option<
        Vec<Option<PropertyValue>>,
    >)
        requires
            self.wf(),
        ensures
            match r {
                Some(row) => self@.read(node_id, label_id) == Some(row_view(row@)),
                None => self@.read(node_id, label_id) is None,
            },
    {
        match self.table(label_id) {
            Some(t) => match t.get_node(node_id) {
                Ok(row) => row,
                Err(_) => None,
            },
            None => None,
        }
    }

    /// All nodes of a label; none for unknown labels.
    #[must_use]
    pub fn scan_label(&self, label_id: LabelId) -> (records: Vec<NodeRecord>)
        requires
            self.wf(),
        ensures
            node_records_view(records@) == self@.records(label_id),
    {
        match self.table(label_id) {
            Some(t) => t.iter(),
            None => {
                let records: Vec<NodeRecord> = Vec::new();
                assert(node_records_view(records@) =~= Seq::empty());
                records
            },
        }
    }

    #[must_use]
    pub fn num_nodes(&self, label_id: LabelId) -> (n: u64)
        requires
            self.wf(),
            self@.num_nodes(label_id) <= u64::MAX,
        ensures
            n == self@.num_nodes(label_id),
    {
        self.checked_num_nodes(label_id).unwrap()
    }

    /// Like [`NodeStore::num_nodes`]; `None` where the number is too large.
    pub fn checked_num_nodes(&self, label_id: LabelId) -> (r: Option<u64>)
        requires
            self.wf(),
        ensures
            match r {
                Some(n) => n == self@.num_nodes(label_id),
                None => self@.num_nodes(label_id) > u64::MAX,
            },
    {
        match self.table(label_id) {
            Some(t) => t.checked_num_nodes(),
            None => Some(0),
        }
    }
}

} // verus!
