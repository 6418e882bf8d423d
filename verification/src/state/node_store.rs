//! The nodes of all labels.

use std::sync::Arc;

use vstd::prelude::*;

use crate::catalog::{Catalog, CatalogView, NodeLabelView};
use crate::command::{same_result, values_view, Applied, Command, CommandView};
use crate::error::{ErrorView, StorageError};
use crate::io::codec::Decoded;
use crate::io::page::{pages_view, Disk, Page};
use crate::ordered_map;
use crate::ordered_map::{lookup, mapped, put, put_all, put_upto, sorted, OrderedMap};
use crate::search;
use crate::search::first_where;
use crate::state::node_persistence::Flushed;
use crate::state::node_table::{
    blocks_view, node_records_view, NodeGroupPageInfo, NodeRecord, NodeRecordView, NodeTable,
    NodeTableView,
};
use crate::state::recovery;
use crate::table::row::{align_properties, aligned_row, row_view, RowView};
use crate::types::{LabelId, NodeId, NodeOffset, PropertyValue};

verus! {

/// Maps each label to its table. Commands are the only way to change the nodes.
pub struct NodeStore {
    tables: OrderedMap<NodeTable>,
    catalog: Arc<Catalog>,
}

// ---------------------------------------------------------------------------------------------
// The model

/// Tables by the number of their label.
pub type NodeTables = Seq<(u64, NodeTableView)>;

/// What a [`NodeStore`] stands for.
#[verifier::ext_equal]
pub struct NodeStoreView {
    pub tables: NodeTables,
    pub catalog: CatalogView,
}

/// What a table stands for, as a function.
pub open spec fn node_table_view() -> spec_fn(NodeTable) -> NodeTableView {
    |t: NodeTable| t@
}

/// A table without nodes for each label.
pub open spec fn empty_tables(labels: Seq<NodeLabelView>) -> NodeTables {
    Seq::new(labels.len(), |i: int| (labels[i].label_id.0 as u64, NodeTableView::empty(labels[i])))
}

/// The offsets after those of the first `n` tables were put in.
pub open spec fn merged_offsets(tables: NodeTables, n: nat) -> Seq<(u64, u64)>
    decreases n,
{
    if n == 0 {
        Seq::empty()
    } else {
        let offsets = tables[n - 1].1.offsets;
        put_upto(merged_offsets(tables, (n - 1) as nat), offsets, offsets.len())
    }
}

/// The page ranges of the first `n` tables.
pub open spec fn joined_infos(tables: NodeTables, n: nat) -> Seq<NodeGroupPageInfo>
    decreases n,
{
    if n == 0 {
        Seq::empty()
    } else {
        joined_infos(tables, (n - 1) as nat) + tables[n - 1].1.page_infos
    }
}

/// The tables of the first `n` labels, each with the groups that the blocks hold.
pub open spec fn load_tables(
    labels: Seq<NodeLabelView>,
    infos: Seq<NodeGroupPageInfo>,
    blocks: Seq<Seq<u8>>,
    n: nat,
) -> Decoded<NodeTables>
    decreases n,
{
    if n == 0 {
        Some(Ok(Seq::empty()))
    } else {
        match load_tables(labels, infos, blocks, (n - 1) as nat) {
            Some(Ok(tables)) => match NodeTableView::load(
                labels[n - 1],
                infos,
                blocks,
                infos.len(),
            ) {
                Some(Ok(t)) => Some(Ok(put(tables, labels[n - 1].label_id.0 as u64, t))),
                Some(Err(e)) => Some(Err(e)),
                None => None,
            },
            r => r,
        }
    }
}

impl NodeStoreView {
    /// A store with a table for each label of the catalog.
    pub open spec fn empty(catalog: CatalogView) -> NodeStoreView {
        let tables = empty_tables(catalog.node_labels);
        NodeStoreView { tables: put_all(tables, tables.len()), catalog }
    }

    pub open spec fn sound(self) -> bool {
        &&& sorted(self.tables)
        &&& forall|i: int| 0 <= i < self.tables.len() ==> (#[trigger] self.tables[i]).1.sound()
    }

    /// The table of a label.
    pub open spec fn table(self, label_id: LabelId) -> Option<NodeTableView> {
        lookup(self.tables, label_id.0 as u64)
    }

    pub open spec fn table_has(self, node_id: NodeId) -> spec_fn(int) -> bool {
        |i: int| self.tables[i].1.offset(node_id) is Some
    }

    /// The place of the first table with a node.
    pub open spec fn table_with(self, node_id: NodeId) -> Option<int> {
        first_where(self.tables.len(), self.table_has(node_id))
    }

    /// The node that a command creates can be numbered.
    pub open spec fn has_room(self, cmd: CommandView) -> bool {
        cmd matches CommandView::CreateNode { label_id, .. } ==> (self.table(
            label_id,
        ) matches Some(t) ==> t.groups.len() + 1 < 0x1_0000_0000_0000)
    }

    /// A node goes into the table of its label. Deleting one takes it out of the first table that
    /// has it. Other commands do nothing here.
    pub open spec fn apply(self, cmd: CommandView) -> Applied<NodeStoreView> {
        match cmd {
            CommandView::CreateNode { node_id, label_id, properties } => match (
                self.catalog.node_label(label_id),
                self.table(label_id),
            ) {
                (Some(schema), Some(t)) => {
                    let i = t.insert(node_id, aligned_row(schema.properties.len(), properties));
                    Applied {
                        state: NodeStoreView {
                            tables: put(self.tables, label_id.0 as u64, i.state),
                            ..self
                        },
                        result: match i.result {
                            Ok(_) => Ok(()),
                            Err(e) => Err(e),
                        },
                    }
                },
                _ => Applied { state: self, result: Err(ErrorView::LabelNotFound { label_id }) },
            },
            CommandView::DeleteNode { node_id } => match self.table_with(node_id) {
                Some(i) => {
                    let t = self.tables[i].1;
                    Applied {
                        state: NodeStoreView {
                            tables: self.tables.update(i, (self.tables[i].0, t.delete(node_id))),
                            ..self
                        },
                        result: match t.delete_refusal(node_id) {
                            Some(e) => Err(e),
                            None => Ok(()),
                        },
                    }
                },
                None => Applied { state: self, result: Err(ErrorView::NodeNotFound { node_id }) },
            },
            _ => Applied { state: self, result: Ok(()) },
        }
    }

    /// The values of a node of a label, if it is there.
    pub open spec fn read(self, node_id: NodeId, label_id: LabelId) -> Option<RowView> {
        match self.table(label_id) {
            Some(t) => match t.read(node_id) {
                Ok(row) => row,
                Err(_) => None,
            },
            None => None,
        }
    }

    /// All nodes of a label.
    pub open spec fn records(self, label_id: LabelId) -> Seq<NodeRecordView> {
        match self.table(label_id) {
            Some(t) => t.records(),
            None => Seq::empty(),
        }
    }

    pub open spec fn num_nodes(self, label_id: LabelId) -> nat {
        match self.table(label_id) {
            Some(t) => t.num_nodes(),
            None => 0,
        }
    }

    /// The offset of a node in the first table that has it.
    pub open spec fn offset(self, node_id: NodeId) -> Option<u64> {
        match self.table_with(node_id) {
            Some(i) => self.tables[i].1.offset(node_id),
            None => None,
        }
    }

    /// The offset of every node.
    pub open spec fn offsets(self) -> Seq<(u64, u64)> {
        merged_offsets(self.tables, self.tables.len())
    }

    pub open spec fn page_infos(self) -> Seq<NodeGroupPageInfo> {
        joined_infos(self.tables, self.tables.len())
    }

    /// The store with another table in a place.
    pub open spec fn with_table(self, i: int, t: NodeTableView) -> NodeStoreView {
        NodeStoreView { tables: self.tables.update(i, (self.tables[i].0, t)), ..self }
    }

    /// The store whose groups the blocks hold: each table takes all of them.
    pub open spec fn load(
        catalog: CatalogView,
        infos: Seq<NodeGroupPageInfo>,
        blocks: Seq<Seq<u8>>,
    ) -> Decoded<NodeStoreView> {
        match load_tables(catalog.node_labels, infos, blocks, catalog.node_labels.len()) {
            Some(Ok(tables)) => Some(Ok(NodeStoreView { tables, catalog })),
            Some(Err(e)) => Some(Err(e)),
            None => None,
        }
    }
}

// ---------------------------------------------------------------------------------------------
// Facts

/// A table can be replaced by a sound one.
proof fn lemma_with_table_sound(s: NodeStoreView, i: int, t: NodeTableView)
    requires
        s.sound(),
        0 <= i < s.tables.len(),
        t.sound(),
    ensures
        s.with_table(i, t).sound(),
        s.with_table(i, t).tables == put(s.tables, s.tables[i].0, t),
{
    ordered_map::lemma_rank_at(s.tables, i);
    lemma_put_sound(s.tables, s.catalog, s.tables[i].0, t);
    assert(s.with_table(i, t).tables =~= put(s.tables, s.tables[i].0, t));
}

proof fn lemma_load_stuck(
    labels: Seq<NodeLabelView>,
    infos: Seq<NodeGroupPageInfo>,
    blocks: Seq<Seq<u8>>,
    i: nat,
    n: nat,
)
    requires
        i <= n,
        !(load_tables(labels, infos, blocks, i) matches Some(Ok(_))),
    ensures
        load_tables(labels, infos, blocks, n) == load_tables(labels, infos, blocks, i),
    decreases n - i,
{
    if i < n {
        lemma_load_stuck(labels, infos, blocks, i, (n - 1) as nat);
    }
}

// ---------------------------------------------------------------------------------------------
// The store

impl View for NodeStore {
    type V = NodeStoreView;

    closed spec fn view(&self) -> NodeStoreView {
        NodeStoreView { tables: mapped(self.tables@, node_table_view()), catalog: (*self.catalog)@ }
    }
}

/// The parts of each table are well-formed.
spec fn all_intact(tables: Seq<(u64, NodeTable)>) -> bool {
    forall|i: int| 0 <= i < tables.len() ==> (#[trigger] tables[i]).1.intact()
}

proof fn lemma_put_intact(tables: Seq<(u64, NodeTable)>, key: u64, t: NodeTable)
    requires
        all_intact(tables),
        t.intact(),
    ensures
        all_intact(put(tables, key, t)),
{
    let p = |t: NodeTable| t.intact();
    assert forall|i: int| 0 <= i < tables.len() implies p((#[trigger] tables[i]).1) by {}
    ordered_map::lemma_put_keeps(tables, key, t, p);
    let r = put(tables, key, t);
    assert forall|i: int| 0 <= i < r.len() implies (#[trigger] r[i]).1.intact() by {
        assert(p(r[i].1));
    }
}

impl NodeStore {
    /// The parts of the store are well-formed.
    pub closed spec fn intact(&self) -> bool {
        self.tables.wf() && all_intact(self.tables@)
    }

    pub open spec fn wf(&self) -> bool {
        self.intact() && self@.sound()
    }

    /// A store with an empty table for each label of the catalog.
    pub fn new(catalog: Arc<Catalog>) -> (s: Self)
        ensures
            s.wf(),
            s@ == NodeStoreView::empty((*catalog)@),
    {
        let ghost entries = empty_tables((*catalog)@.node_labels);
        let ghost f = node_table_view();
        let mut tables: OrderedMap<NodeTable> = OrderedMap::new();
        let mut i: usize = 0;
        assert(mapped(tables@, f) =~= put_all(entries, 0));
        while i < catalog.node_labels.len()
            invariant
                i <= (*catalog).node_labels@.len(),
                entries == empty_tables((*catalog)@.node_labels),
                f == node_table_view(),
                tables.wf(),
                all_intact(tables@),
                mapped(tables@, f) == put_all(entries, i as nat),
                (NodeStoreView { tables: mapped(tables@, f), catalog: (*catalog)@ }).sound(),
            decreases (*catalog).node_labels@.len() - i,
        {
            let entry = catalog.node_labels[i].clone();
            let key: u64 = entry.label_id.0 as u64;
            let table = NodeTable::new(entry);
            let ghost before = tables@;
            tables.insert(key, table);
            proof {
                lemma_put_intact(before, key, table);
                ordered_map::lemma_mapped_put(before, f, key, table);
                lemma_put_sound(mapped(before, f), (*catalog)@, key, table@);
                assert(entries[i as int] == (key, table@));
            }
            i = i + 1;
        }
        let s = NodeStore { tables, catalog };
        assert(s@ =~= NodeStoreView::empty((*catalog)@));
        s
    }

    /// Whether commands can be applied and nodes can be read.
    pub fn is_sound(&self) -> (b: bool)
        requires
            self.intact(),
        ensures
            b == self@.sound(),
    {
        proof {
            self.tables.lemma_wf();
            ordered_map::lemma_mapped_sorted(self.tables@, node_table_view());
        }
        let mut i: usize = 0;
        while i < self.tables.len()
            invariant
                self.intact(),
                i <= self.tables@.len(),
                forall|k: int| 0 <= k < i ==> (#[trigger] self@.tables[k]).1.sound(),
            decreases self.tables@.len() - i,
        {
            assert(self@.tables[i as int].1 == self.tables@[i as int].1@);
            assert(self.tables@[i as int].1.intact());
            if !self.tables.value_at(i).is_sound() {
                return false;
            }
            i = i + 1;
        }
        true
    }

    /// Applies a command from the log. Only `CreateNode` and `DeleteNode` are handled here;
    /// other commands are silently ignored.
    pub fn apply_command(&mut self, cmd: &Command) -> (r: Result<(), StorageError>)
        requires
            old(self).wf(),
            old(self)@.has_room(cmd@),
        ensures
            final(self).wf(),
            final(self)@ == old(self)@.apply(cmd@).state,
            same_result(r, old(self)@.apply(cmd@).result),
    {
        match cmd {
            Command::CreateNode { node_id, label_id, properties } => self.create_node(
                *node_id,
                *label_id,
                properties,
            ),
            Command::DeleteNode { node_id } => self.delete_node(*node_id),
            _ => Ok(()),
        }
    }

    fn create_node(
        &mut self,
        node_id: NodeId,
        label_id: LabelId,
        properties: &Vec<PropertyValue>,
    ) -> (r: Result<(), StorageError>)
        requires
            old(self).wf(),
            old(self)@.has_room(
                CommandView::CreateNode { node_id, label_id, properties: values_view(properties@) },
            ),
        ensures
            final(self).wf(),
            ({
                let cmd = CommandView::CreateNode {
                    node_id,
                    label_id,
                    properties: values_view(properties@),
                };
                let a = old(self)@.apply(cmd);
                final(self)@ == a.state && same_result(r, a.result)
            }),
    {
        let ghost f = node_table_view();
        let ghost before = self.tables@;
        let key: u64 = label_id.0 as u64;
        proof {
            ordered_map::lemma_mapped_rank(before, f, key);
        }
        let aligned = match self.catalog.get_node_label(label_id) {
            Some(schema) => align_properties(schema.properties.len(), properties.as_slice()),
            None => {
                return Err(StorageError::LabelNotFound { label_id });
            },
        };
        match self.tables.find(key) {
            Some(i) => {
                proof {
                    assert(before[i as int].1.intact());
                    assert(self@.tables[i as int] == (key, before[i as int].1@));
                    assert(self@.tables[i as int].1.sound());
                }
                let r = self.tables.value_at_mut(i).insert_node(node_id, aligned.as_slice());
                proof {
                    ordered_map::lemma_mapped_update(before, f, i as int, self.tables@[i as int].1);
                    lemma_with_table_sound(old(self)@, i as int, self.tables@[i as int].1@);
                    lemma_update_intact(before, i as int, self.tables@[i as int].1);
                }
                match r {
                    Ok(_) => Ok(()),
                    Err(e) => Err(e),
                }
            },
            None => Err(StorageError::LabelNotFound { label_id }),
        }
    }

    fn delete_node(&mut self, node_id: NodeId) -> (r: Result<(), StorageError>)
        requires
            old(self).wf(),
        ensures
            final(self).wf(),
            ({
                let a = old(self)@.apply(CommandView::DeleteNode { node_id });
                final(self)@ == a.state && same_result(r, a.result)
            }),
    {
        match self.find_table(node_id) {
            Some(i) => {
                let ghost f = node_table_view();
                let ghost before = self.tables@;
                proof {
                    assert(before[i as int].1.intact());
                    assert(self@.tables[i as int].1 == before[i as int].1@);
                    assert(self@.tables[i as int].1.sound());
                }
                let r = self.tables.value_at_mut(i).delete_node(node_id);
                proof {
                    ordered_map::lemma_mapped_update(before, f, i as int, self.tables@[i as int].1);
                    lemma_with_table_sound(old(self)@, i as int, self.tables@[i as int].1@);
                    lemma_update_intact(before, i as int, self.tables@[i as int].1);
                }
                r
            },
            None => Err(StorageError::NodeNotFound { node_id }),
        }
    }

    /// The place of the first table with a node.
    fn find_table(&self, node_id: NodeId) -> (r: Option<usize>)
        requires
            self.intact(),
        ensures
            match r {
                Some(i) => i < self.tables@.len() && self@.table_with(node_id) == Some(i as int),
                None => self@.table_with(node_id) is None,
            },
    {
        let ghost p = self@.table_has(node_id);
        let mut i: usize = 0;
        while i < self.tables.len()
            invariant
                self.intact(),
                p == self@.table_has(node_id),
                i <= self.tables@.len(),
                forall|k: int| 0 <= k < i ==> !#[trigger] p(k),
            decreases self.tables@.len() - i,
        {
            assert(self.tables@[i as int].1.intact());
            assert(self@.tables[i as int].1 == self.tables@[i as int].1@);
            if let Some(_) = self.tables.value_at(i).node_offset(node_id) {
                proof {
                    assert(p(i as int));
                    search::lemma_first_where_is(self@.tables.len(), p, i as int);
                }
                return Some(i);
            }
            i = i + 1;
        }
        proof {
            search::lemma_first_where_none(self@.tables.len(), p);
        }
        None
    }

    /// The table of a label.
    fn table(&self, label_id: LabelId) -> (r: Option<&NodeTable>)
        requires
            self.intact(),
        ensures
            match r {
                Some(t) => t.intact() && self@.table(label_id) == Some(t@),
                None => self@.table(label_id) is None,
            },
            self@.sound() ==> (r matches Some(t) ==> t.wf()),
    {
        proof {
            ordered_map::lemma_mapped_rank(self.tables@, node_table_view(), label_id.0 as u64);
        }
        match self.tables.find(label_id.0 as u64) {
            Some(i) => {
                assert(self.tables@[i as int].1.intact());
                assert(self@.tables[i as int].1 == self.tables@[i as int].1@);
                Some(self.tables.value_at(i))
            },
            None => None,
        }
    }

    #[must_use]
    /// Whether the node that a command creates can be numbered.
    pub fn has_room(&self, cmd: &Command) -> (b: bool)
        requires
            self.intact(),
        ensures
            b == self@.has_room(cmd@),
    {
        match cmd {
            Command::CreateNode { label_id, .. } => match self.table(*label_id) {
                Some(t) => t.has_room(),
                None => true,
            },
            _ => true,
        }
    }

    pub fn get_node(&self, node_id: NodeId, label_id: LabelId) -> (r: Option<
        Vec<Option<PropertyValue>>,
    >)
        requires
            self.wf(),
        ensures
            match r {
                Some(row) => self@.read(node_id, label_id) == Some(row_view(row@)),
                None => self@.read(node_id, label_id) is None,
            },
    {
        match self.table(label_id) {
            Some(t) => match t.get_node(node_id) {
                Ok(row) => row,
                Err(_) => None,
            },
            None => None,
        }
    }

    /// All nodes of a label; none for a label that is not there.
    #[must_use]
    pub fn scan_label(&self, label_id: LabelId) -> (records: Vec<NodeRecord>)
        requires
            self.wf(),
        ensures
            node_records_view(records@) == self@.records(label_id),
    {
        match self.table(label_id) {
            Some(t) => t.iter(),
            None => {
                let records: Vec<NodeRecord> = Vec::new();
                assert(node_records_view(records@) =~= Seq::empty());
                records
            },
        }
    }

    #[must_use]
    pub fn num_nodes(&self, label_id: LabelId) -> (n: u64)
        requires
            self.wf(),
        ensures
            n == self@.num_nodes(label_id),
    {
        match self.table(label_id) {
            Some(t) => t.num_nodes(),
            None => 0,
        }
    }

    /// The offset of a node in the first table that has it.
    #[must_use]
    pub fn node_offset(&self, node_id: NodeId) -> (r: Option<NodeOffset>)
        requires
            self.intact(),
        ensures
            r == self@.offset(node_id),
    {
        match self.find_table(node_id) {
            Some(i) => {
                assert(self.tables@[i as int].1.intact());
                assert(self@.tables[i as int].1 == self.tables@[i as int].1@);
                self.tables.value_at(i).node_offset(node_id)
            },
            None => None,
        }
    }

    /// The offset of every node, by its number.
    #[must_use]
    pub fn node_offset_map(&self) -> (m: OrderedMap<NodeOffset>)
        requires
            self.intact(),
        ensures
            m.wf(),
            m@ == self@.offsets(),
    {
        let mut m: OrderedMap<NodeOffset> = OrderedMap::new();
        let mut i: usize = 0;
        while i < self.tables.len()
            invariant
                self.intact(),
                i <= self.tables@.len(),
                m.wf(),
                m@ == merged_offsets(self@.tables, i as nat),
            decreases self.tables@.len() - i,
        {
            assert(self.tables@[i as int].1.intact());
            assert(self@.tables[i as int].1 == self.tables@[i as int].1@);
            m.extend(self.tables.value_at(i).node_offsets());
            i = i + 1;
        }
        m
    }

    /// The page ranges of all tables.
    #[must_use]
    pub fn all_page_infos(&self) -> (infos: Vec<NodeGroupPageInfo>)
        requires
            self.intact(),
        ensures
            infos@ == self@.page_infos(),
    {
        let mut infos: Vec<NodeGroupPageInfo> = Vec::new();
        let mut i: usize = 0;
        while i < self.tables.len()
            invariant
                self.intact(),
                i <= self.tables@.len(),
                infos@ == joined_infos(self@.tables, i as nat),
            decreases self.tables@.len() - i,
        {
            assert(self@.tables[i as int].1 == self.tables@[i as int].1@);
            infos.extend_from_slice(self.tables.value_at(i).page_infos());
            assert(infos@ =~= joined_infos(self@.tables, (i + 1) as nat));
            i = i + 1;
        }
        infos
    }

    /// The pages to be written behind the first `first_page` pages of the data file: those of all dirty
    /// groups of all tables, which are noted as being there. `None` where a group is too large to be
    /// written, or the file would have too many pages.
    pub fn flush_all(&mut self, first_page: u64) -> (r: Option<Vec<Page>>)
        requires
            old(self).wf(),
        ensures
            final(self).wf(),
            match r {
                Some(pages) => forall|disk: Disk|
                    disk.len() == first_page ==> #[trigger] old(self)@.flush_outcome(disk) == Some(
                        Flushed { table: final(self)@, disk: disk + pages_view(pages@) },
                    ),
                None => forall|disk: Disk|
                    disk.len() == first_page ==> #[trigger] old(self)@.flush_outcome(disk) is None,
            },
            r matches Some(pages) ==> first_page + pages@.len() <= u64::MAX,
            final(self)@.alike(old(self)@),
    {
        let ghost s = old(self)@;
        let mut out: Vec<Page> = Vec::new();
        assert forall|disk: Disk| disk.len() == first_page implies #[trigger] s.tables_outcome(
            0,
            disk,
        ) == Some(Flushed { table: self@, disk: disk + pages_view(out@) }) by {
            assert(disk + pages_view(out@) =~= disk);
        }
        let n: usize = self.tables.len();
        let mut i: usize = 0;
        while i < n
            invariant
                self.wf(),
                i <= n,
                n == self@.tables.len(),
                n == s.tables.len(),
                s == old(self)@,
                self@.alike(s),
                forall|j: int| i <= j < n ==> #[trigger] self@.tables[j] == s.tables[j],
                first_page + out@.len() <= u64::MAX,
                forall|disk: Disk|
                    disk.len() == first_page ==> #[trigger] s.tables_outcome(i as nat, disk)
                        == Some(Flushed { table: self@, disk: disk + pages_view(out@) }),
            decreases n - i,
        {
            let ghost f = node_table_view();
            let ghost before = self.tables@;
            let ghost v = self@;
            let ghost t = v.tables[i as int].1;
            let ghost written = pages_view(out@);
            proof {
                assert(before[i as int].1.intact());
                assert(t == before[i as int].1@);
                assert(t.sound());
            }
            let start: u64 = first_page + out.len() as u64;
            let r = self.tables.value_at_mut(i).flush(start);
            proof {
                let u = self.tables@[i as int].1;
                ordered_map::lemma_mapped_update(before, f, i as int, u);
                lemma_with_table_sound(v, i as int, u@);
                lemma_update_intact(before, i as int, u);
                assert(self@ == v.with_table(i as int, u@));
            }
            match r {
                Some(mut pages) => {
                    let ghost added = pages_view(pages@);
                    out.append(&mut pages);
                    assert(pages_view(out@) =~= written + added);
                    assert forall|disk: Disk| disk.len() == first_page implies
                        #[trigger] s.tables_outcome((i + 1) as nat, disk) == Some(
                        Flushed { table: self@, disk: disk + pages_view(out@) },
                    ) by {
                        assert(s.tables_outcome(i as nat, disk) == Some(
                            Flushed { table: v, disk: disk + written },
                        ));
                        assert((disk + written).len() == start);
                        assert(t.flush_outcome(disk + written) == Some(
                            Flushed {
                                table: self@.tables[i as int].1,
                                disk: (disk + written) + added,
                            },
                        ));
                        assert(disk + pages_view(out@) =~= (disk + written) + added);
                    }
                },
                None => {
                    assert forall|disk: Disk| disk.len() == first_page implies
                        #[trigger] s.flush_outcome(disk) is None by {
                        assert(s.tables_outcome(i as nat, disk) == Some(
                            Flushed { table: v, disk: disk + written },
                        ));
                        assert((disk + written).len() == start);
                        assert(t.flush_outcome(disk + written) is None);
                        recovery::lemma_nodes_stuck(s, (i + 1) as nat, n as nat, disk);
                    }
                    return None;
                },
            }
            i = i + 1;
        }
        Some(out)
    }

    /// The store whose groups stand on pages: `pages[i]` are those of `page_infos[i]`.
    pub fn load(
        catalog: Arc<Catalog>,
        page_infos: &[NodeGroupPageInfo],
        pages: &Vec<Vec<Page>>,
    ) -> (r: Result<Self, StorageError>)
        requires
            pages@.len() == page_infos@.len(),
            NodeStoreView::load((*catalog)@, page_infos@, blocks_view(pages@)) is Some,
        ensures
            ({
                let d = NodeStoreView::load((*catalog)@, page_infos@, blocks_view(pages@));
                match r {
                    Ok(s) => s.intact() && d == Some(Ok::<NodeStoreView, ErrorView>(s@)),
                    Err(e) => d == Some(Err::<NodeStoreView, ErrorView>(e@)),
                }
            }),
    {
        Self::try_load(catalog, page_infos, pages).unwrap()
    }

    /// Like [`NodeStore::load`], for any pages.
    pub fn try_load(
        catalog: Arc<Catalog>,
        page_infos: &[NodeGroupPageInfo],
        pages: &Vec<Vec<Page>>,
    ) -> (r: Option<Result<Self, StorageError>>)
        requires
            pages@.len() == page_infos@.len(),
        ensures
            ({
                let d = NodeStoreView::load((*catalog)@, page_infos@, blocks_view(pages@));
                match r {
                    Some(Ok(s)) => s.intact() && d == Some(Ok::<NodeStoreView, ErrorView>(s@)),
                    Some(Err(e)) => d == Some(Err::<NodeStoreView, ErrorView>(e@)),
                    None => d is None,
                }
            }),
    {
        let ghost labels = (*catalog)@.node_labels;
        let ghost blocks = blocks_view(pages@);
        let ghost f = node_table_view();
        let mut tables: OrderedMap<NodeTable> = OrderedMap::new();
        let n: usize = catalog.node_labels.len();
        let mut i: usize = 0;
        assert(mapped(tables@, f) =~= Seq::empty());
        while i < n
            invariant
                i <= n,
                n == labels.len(),
                labels == (*catalog)@.node_labels,
                blocks == blocks_view(pages@),
                pages@.len() == page_infos@.len(),
                f == node_table_view(),
                tables.wf(),
                all_intact(tables@),
                load_tables(labels, page_infos@, blocks, i as nat) == Some(
                    Ok::<NodeTables, ErrorView>(mapped(tables@, f)),
                ),
            decreases n - i,
        {
            let entry = catalog.node_labels[i].clone();
            assert(labels[i as int] == entry@);
            let key: u64 = entry.label_id.0 as u64;
            let mut infos: Vec<NodeGroupPageInfo> = Vec::new();
            infos.extend_from_slice(page_infos);
            assert(infos@ =~= page_infos@);
            match NodeTable::try_load(entry, infos, pages) {
                Some(Ok(table)) => {
                    let ghost before = tables@;
                    tables.insert(key, table);
                    proof {
                        lemma_put_intact(before, key, table);
                        ordered_map::lemma_mapped_put(before, f, key, table);
                    }
                },
                Some(Err(e)) => {
                    proof {
                        lemma_load_stuck(labels, page_infos@, blocks, (i + 1) as nat, n as nat);
                    }
                    return Some(Err(e));
                },
                None => {
                    proof {
                        lemma_load_stuck(labels, page_infos@, blocks, (i + 1) as nat, n as nat);
                    }
                    return None;
                },
            }
            i = i + 1;
        }
        Some(Ok(NodeStore { tables, catalog }))
    }
}

proof fn lemma_update_intact(tables: Seq<(u64, NodeTable)>, i: int, t: NodeTable)
    requires
        all_intact(tables),
        0 <= i < tables.len(),
        t.intact(),
    ensures
        all_intact(tables.update(i, (tables[i].0, t))),
{
    let r = tables.update(i, (tables[i].0, t));
    assert forall|k: int| 0 <= k < r.len() implies (#[trigger] r[k]).1.intact() by {
        if k != i {
            assert(r[k] == tables[k]);
        }
    }
}

proof fn lemma_put_sound(tables: NodeTables, catalog: CatalogView, key: u64, t: NodeTableView)
    requires
        (NodeStoreView { tables, catalog }).sound(),
        t.sound(),
    ensures
        (NodeStoreView { tables: put(tables, key, t), catalog }).sound(),
{
    let p = |t: NodeTableView| t.sound();
    ordered_map::law_put_then_lookup(tables, key, t, 0);
    assert forall|i: int| 0 <= i < tables.len() implies p((#[trigger] tables[i]).1) by {}
    ordered_map::lemma_put_keeps(tables, key, t, p);
    let r = put(tables, key, t);
    assert forall|i: int| 0 <= i < r.len() implies (#[trigger] r[i]).1.sound() by {
        assert(p(r[i].1));
    }
}

} // verus!
