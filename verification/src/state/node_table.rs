//! The nodes of one label.

use vstd::prelude::*;

use crate::catalog::{columns_of, NodeLabelEntry, NodeLabelView};
use crate::config::StorageConfig;
use crate::error::{ErrorView, StorageError};
use crate::io::codec::{concat, Decoded};
use crate::io::page::{pages_of, pages_view, Disk, Page};
use crate::ordered_map;
use crate::ordered_map::{lookup, put, sorted, without, OrderedMap};
use crate::search;
use crate::search::first_where;
use crate::state::node_persistence;
use crate::state::node_persistence::Flushed;
use crate::table::node;
use crate::table::node::{GroupView, NodeGroup};
use crate::table::row::{row_view, RowView};
use crate::types::{
    LabelId, NodeGroupIdx, NodeId, NodeOffset, PageIdx, PageRange, PropertyValue, RowIdx, TableId,
};

verus! {

/// Metadata mapping a node group to its on-disk page range.
#[derive(Debug, Clone, Copy, PartialEq, Eq, Structural)]
pub struct NodeGroupPageInfo {
    pub group_idx: NodeGroupIdx,
    pub page_range: PageRange,
}

/// Groups are append-only: when the current group fills, a new one is allocated.
pub struct NodeTable {
    table_id: TableId,
    label_id: LabelId,
    schema: NodeLabelEntry,
    groups: Vec<NodeGroup>,
    /// Dense offset = `group_idx * NODE_GROUP_SIZE + row_in_group` (CSR key).
    node_id_to_offset: OrderedMap<NodeOffset>,
    page_infos: Vec<NodeGroupPageInfo>,
    /// The groups that changed since they were last flushed, in the order in which they did.
    dirty_groups: Vec<NodeGroupIdx>,
}

#[derive(Debug, Clone, PartialEq)]
pub struct NodeRecord {
    pub node_id: NodeId,
    pub properties: Vec<Option<PropertyValue>>,
}

// ---------------------------------------------------------------------------------------------
// The model

/// What a [`NodeRecord`] stands for.
#[verifier::ext_equal]
pub struct NodeRecordView {
    pub node_id: NodeId,
    pub properties: RowView,
}

impl View for NodeRecord {
    type V = NodeRecordView;

    open spec fn view(&self) -> NodeRecordView {
        NodeRecordView { node_id: self.node_id, properties: row_view(self.properties@) }
    }
}

pub open spec fn node_records_view(records: Seq<NodeRecord>) -> Seq<NodeRecordView> {
    Seq::new(records.len(), |i: int| records[i]@)
}

/// What a list of groups stands for.
pub open spec fn groups_view(groups: Seq<NodeGroup>) -> Seq<GroupView> {
    Seq::new(groups.len(), |i: int| groups[i]@)
}

/// What a [`NodeTable`] stands for. `offsets` maps the number of each node to its offset.
#[verifier::ext_equal]
pub struct NodeTableView {
    pub schema: NodeLabelView,
    pub groups: Seq<GroupView>,
    pub offsets: Seq<(u64, u64)>,
    pub page_infos: Seq<NodeGroupPageInfo>,
    pub dirty: Seq<NodeGroupIdx>,
}

/// What inserting a node does: the table after it, and the place of the node or the error.
pub struct NodeInserted {
    pub state: NodeTableView,
    pub result: Result<(NodeGroupIdx, u64), ErrorView>,
}

/// The list with an entry that is not there twice.
pub open spec fn with_dirty(dirty: Seq<NodeGroupIdx>, idx: NodeGroupIdx) -> Seq<NodeGroupIdx> {
    if dirty.contains(idx) {
        dirty
    } else {
        dirty.push(idx)
    }
}

/// The offset of a row of a group.
pub open spec fn offset_at(idx: NodeGroupIdx, row: u64) -> int {
    idx.0 * 65536 + row
}

/// The record of a row, if the row is live.
pub open spec fn record_at(g: GroupView, row: u64) -> Option<NodeRecordView> {
    match (g.read(row), g.node_at(row)) {
        (Ok(Some(properties)), Ok(node_id)) => Some(NodeRecordView { node_id, properties }),
        _ => None,
    }
}

/// The live rows among the first `n` of a group.
pub open spec fn group_records(g: GroupView, n: nat) -> Seq<NodeRecordView>
    decreases n,
{
    if n == 0 {
        Seq::empty()
    } else {
        let before = group_records(g, (n - 1) as nat);
        match record_at(g, (n - 1) as u64) {
            Some(record) => before.push(record),
            None => before,
        }
    }
}

/// The live rows of the first `n` groups.
pub open spec fn table_records(groups: Seq<GroupView>, n: nat) -> Seq<NodeRecordView>
    decreases n,
{
    if n == 0 {
        Seq::empty()
    } else {
        table_records(groups, (n - 1) as nat) + group_records(
            groups[n - 1],
            groups[n - 1].num_rows(),
        )
    }
}

/// The number of live rows of the first `n` groups.
pub open spec fn live_rows(groups: Seq<GroupView>, n: nat) -> nat
    decreases n,
{
    if n == 0 {
        0
    } else {
        live_rows(groups, (n - 1) as nat) + groups[n - 1].num_live_rows()
    }
}

/// The offsets after those of the live rows among the first `n` of a group were put in. `None`
/// where an offset does not fit in 64 bits.
pub open spec fn scan_offsets(
    g: GroupView,
    idx: NodeGroupIdx,
    offsets: Seq<(u64, u64)>,
    n: nat,
) -> Option<Seq<(u64, u64)>>
    decreases n,
{
    if n == 0 {
        Some(offsets)
    } else {
        match scan_offsets(g, idx, offsets, (n - 1) as nat) {
            Some(before) => {
                let row = (n - 1) as u64;
                match record_at(g, row) {
                    Some(record) => if offset_at(idx, row) <= u64::MAX {
                        Some(put(before, record.node_id.0, offset_at(idx, row) as u64))
                    } else {
                        None
                    },
                    None => Some(before),
                }
            },
            None => None,
        }
    }
}

impl NodeTableView {
    /// A table without nodes.
    pub open spec fn empty(schema: NodeLabelView) -> NodeTableView {
        NodeTableView {
            schema,
            groups: Seq::empty(),
            offsets: Seq::empty(),
            page_infos: Seq::empty(),
            dirty: Seq::empty(),
        }
    }

    /// Each group is dense, each node that has an offset and each dirty group is in a group of the
    /// table, and offsets fit in 64 bits.
    pub open spec fn sound(self) -> bool {
        &&& self.groups.len() < 0x1_0000_0000_0000
        &&& forall|i: int|
            0 <= i < self.groups.len() ==> (#[trigger] self.groups[i]).valid()
                && self.groups[i].dense() && self.groups[i].group_idx.0 < self.groups.len()
        &&& sorted(self.offsets)
        &&& forall|i: int|
            0 <= i < self.offsets.len() ==> (#[trigger] self.offsets[i]).1 / 65536
                < self.groups.len()
        &&& forall|i: int| 0 <= i < self.dirty.len() ==> (#[trigger] self.dirty[i]).0
            < self.groups.len()
    }

    /// The offset of a node.
    pub open spec fn offset(self, node_id: NodeId) -> Option<u64> {
        lookup(self.offsets, node_id.0)
    }

    /// The table with a group at its end that has room.
    pub open spec fn with_active_group(self) -> NodeTableView {
        if self.groups.len() == 0 || self.groups.last().is_full() {
            NodeTableView {
                groups: self.groups.push(
                    GroupView::empty(
                        NodeGroupIdx(self.groups.len() as u64),
                        columns_of(self.schema.properties),
                    ),
                ),
                ..self
            }
        } else {
            self
        }
    }

    /// A node goes into the last group, or into a new one.
    pub open spec fn insert(self, node_id: NodeId, values: RowView) -> NodeInserted {
        let t = self.with_active_group();
        let n = t.groups.len() - 1;
        let i = t.groups[n].insert(node_id, values);
        let groups = t.groups.update(n, i.state);
        let idx = t.groups[n].group_idx;
        match i.result {
            Ok(row) => NodeInserted {
                state: NodeTableView {
                    groups,
                    offsets: put(t.offsets, node_id.0, offset_at(idx, row) as u64),
                    dirty: with_dirty(t.dirty, idx),
                    ..t
                },
                result: Ok((idx, row)),
            },
            Err(e) => NodeInserted { state: NodeTableView { groups, ..t }, result: Err(e) },
        }
    }

    /// What reading a node gives; `None` where there is none.
    pub open spec fn read(self, node_id: NodeId) -> Result<Option<RowView>, ErrorView> {
        match self.offset(node_id) {
            Some(offset) => self.groups[offset as int / 65536].read((offset % 65536) as u64),
            None => Ok(None),
        }
    }

    /// The table without a node that it has: its row is deleted and its group is dirty.
    pub open spec fn delete(self, node_id: NodeId) -> NodeTableView {
        match self.offset(node_id) {
            Some(offset) => {
                let n = offset as int / 65536;
                NodeTableView {
                    groups: self.groups.update(n, self.groups[n].delete((offset % 65536) as u64)),
                    offsets: without(self.offsets, node_id.0),
                    dirty: with_dirty(self.dirty, self.groups[n].group_idx),
                    ..self
                }
            },
            None => self,
        }
    }

    /// The error of deleting a node, if there is one.
    pub open spec fn delete_refusal(self, node_id: NodeId) -> Option<ErrorView> {
        match self.offset(node_id) {
            Some(offset) => {
                let g = self.groups[offset as int / 65536];
                let row = (offset % 65536) as u64;
                if g.find_chunk(row) is Some {
                    None
                } else {
                    Some(g.no_row(row))
                }
            },
            None => Some(ErrorView::NodeNotFound { node_id }),
        }
    }

    /// All nodes, group by group and row by row.
    pub open spec fn records(self) -> Seq<NodeRecordView> {
        table_records(self.groups, self.groups.len())
    }

    pub open spec fn num_nodes(self) -> nat {
        live_rows(self.groups, self.groups.len())
    }

    pub open spec fn info_of(self, idx: NodeGroupIdx) -> spec_fn(int) -> bool {
        |i: int| self.page_infos[i].group_idx == idx
    }

    /// The table with the pages of a group noted.
    pub open spec fn with_page_info(self, idx: NodeGroupIdx, range: PageRange) -> NodeTableView {
        let info = NodeGroupPageInfo { group_idx: idx, page_range: range };
        match first_where(self.page_infos.len(), self.info_of(idx)) {
            Some(i) => NodeTableView { page_infos: self.page_infos.update(i, info), ..self },
            None => NodeTableView { page_infos: self.page_infos.push(info), ..self },
        }
    }

    /// The table with the group that a block holds.
    pub open spec fn load_group(self, info: NodeGroupPageInfo, block: Seq<u8>) -> Decoded<
        NodeTableView,
    > {
        match GroupView::parse(columns_of(self.schema.properties), info.group_idx, block) {
            Some(Ok(g)) => if g.sized() {
                match scan_offsets(g, info.group_idx, self.offsets, g.num_rows()) {
                    Some(offsets) => Some(
                        Ok(
                            NodeTableView {
                                groups: self.groups.push(g),
                                offsets,
                                page_infos: self.page_infos.push(info),
                                ..self
                            },
                        ),
                    ),
                    None => None,
                }
            } else {
                None
            },
            Some(Err(e)) => Some(Err(e)),
            None => None,
        }
    }

    /// The table with the first `n` of the groups that blocks hold.
    pub open spec fn load(
        schema: NodeLabelView,
        infos: Seq<NodeGroupPageInfo>,
        blocks: Seq<Seq<u8>>,
        n: nat,
    ) -> Decoded<NodeTableView>
        decreases n,
    {
        if n == 0 {
            Some(Ok(NodeTableView::empty(schema)))
        } else {
            match NodeTableView::load(schema, infos, blocks, (n - 1) as nat) {
                Some(Ok(t)) => t.load_group(infos[n - 1], blocks[n - 1]),
                r => r,
            }
        }
    }
}

// ---------------------------------------------------------------------------------------------
// Facts

pub proof fn lemma_insert_sound(t: NodeTableView, node_id: NodeId, values: RowView)
    requires
        t.sound(),
        t.groups.len() + 1 < 0x1_0000_0000_0000,
    ensures
        t.insert(node_id, values).state.sound(),
        t.with_active_group().sound(),
        t.with_active_group().groups.last().valid(),
        t.with_active_group().groups.last().dense(),
        t.insert(node_id, values).result matches Ok((idx, row)) ==> offset_at(idx, row) <= u64::MAX,
{
    let a = t.with_active_group();
    let n = a.groups.len() - 1;
    let g = a.groups[n];
    assert(a.sound()) by {
        assert forall|i: int| 0 <= i < a.groups.len() implies (#[trigger] a.groups[i]).valid()
            && a.groups[i].dense() && a.groups[i].group_idx.0 < a.groups.len() by {
            if i < t.groups.len() {
                assert(a.groups[i] == t.groups[i]);
            }
        }
    }
    assert(g.valid() && g.dense() && g.group_idx.0 < a.groups.len());
    node::law_insert_keeps_dense(g, node_id, values);
    let s = t.insert(node_id, values).state;
    let i = g.insert(node_id, values);
    assert forall|k: int| 0 <= k < s.groups.len() implies (#[trigger] s.groups[k]).valid()
        && s.groups[k].dense() && s.groups[k].group_idx.0 < s.groups.len() by {
        if k != n {
            assert(s.groups[k] == a.groups[k]);
        }
    }
    match i.result {
        Ok(row) => {
            let offset = offset_at(g.group_idx, row) as u64;
            assert(offset / 65536 == g.group_idx.0);
            ordered_map::law_put_then_lookup(t.offsets, node_id.0, offset, 0);
            ordered_map::lemma_rank(t.offsets, node_id.0);
            let r = ordered_map::rank(t.offsets, node_id.0) as int;
            assert forall|k: int| 0 <= k < s.offsets.len() implies (#[trigger] s.offsets[k]).1
                / 65536 < s.groups.len() by {
                if k == r {
                    assert(s.offsets[k] == (node_id.0, offset));
                } else if ordered_map::has_key(t.offsets, node_id.0) || k < r {
                    assert(s.offsets[k] == t.offsets[k]);
                } else {
                    assert(s.offsets[k] == t.offsets[k - 1]);
                }
            }
            assert forall|k: int| 0 <= k < s.dirty.len() implies (#[trigger] s.dirty[k]).0
                < s.groups.len() by {
                if k < t.dirty.len() {
                    assert(s.dirty[k] == t.dirty[k]);
                }
            }
        },
        Err(e) => {},
    }
}

pub proof fn lemma_delete_sound(t: NodeTableView, node_id: NodeId)
    requires
        t.sound(),
    ensures
        t.delete(node_id).sound(),
        t.offset(node_id) matches Some(offset) ==> offset / 65536 < t.groups.len(),
{
    match t.offset(node_id) {
        Some(offset) => {
            let r = ordered_map::rank(t.offsets, node_id.0) as int;
            assert(t.offsets[r].1 == offset);
            let n = offset as int / 65536;
            let g = t.groups[n];
            assert(g.valid() && g.dense() && g.group_idx.0 < t.groups.len());
            node::law_delete_keeps_dense(g, (offset % 65536) as u64);
            let s = t.delete(node_id);
            ordered_map::law_without_then_lookup(t.offsets, node_id.0, 0);
            assert forall|k: int| 0 <= k < s.groups.len() implies (#[trigger] s.groups[k]).valid()
                && s.groups[k].dense() && s.groups[k].group_idx.0 < s.groups.len() by {
                if k != n {
                    assert(s.groups[k] == t.groups[k]);
                }
            }
            assert forall|k: int| 0 <= k < s.offsets.len() implies (#[trigger] s.offsets[k]).1
                / 65536 < s.groups.len() by {
                if k < r {
                    assert(s.offsets[k] == t.offsets[k]);
                } else {
                    assert(s.offsets[k] == t.offsets[k + 1]);
                }
            }
            assert forall|k: int| 0 <= k < s.dirty.len() implies (#[trigger] s.dirty[k]).0
                < s.groups.len() by {
                if k < t.dirty.len() {
                    assert(s.dirty[k] == t.dirty[k]);
                }
            }
        },
        None => {},
    }
}

pub proof fn lemma_live_rows_bound(groups: Seq<GroupView>, n: nat)
    requires
        n <= groups.len(),
        forall|i: int|
            0 <= i < groups.len() ==> (#[trigger] groups[i]).valid() && groups[i].dense(),
    ensures
        live_rows(groups, n) <= 65536 * n,
    decreases n,
{
    if n > 0 {
        lemma_live_rows_bound(groups, (n - 1) as nat);
        assert(groups[n - 1].valid() && groups[n - 1].dense());
        node::law_dense_bounds(groups[n - 1]);
    }
}

pub proof fn lemma_scan_stuck(
    g: GroupView,
    idx: NodeGroupIdx,
    offsets: Seq<(u64, u64)>,
    i: nat,
    n: nat,
)
    requires
        i <= n,
        scan_offsets(g, idx, offsets, i) is None,
    ensures
        scan_offsets(g, idx, offsets, n) is None,
    decreases n - i,
{
    if i < n {
        lemma_scan_stuck(g, idx, offsets, i, (n - 1) as nat);
    }
}

pub proof fn lemma_load_stuck(
    schema: NodeLabelView,
    infos: Seq<NodeGroupPageInfo>,
    blocks: Seq<Seq<u8>>,
    i: nat,
    n: nat,
)
    requires
        i <= n,
        !(NodeTableView::load(schema, infos, blocks, i) matches Some(Ok(_))),
    ensures
        NodeTableView::load(schema, infos, blocks, n) == NodeTableView::load(
            schema,
            infos,
            blocks,
            i,
        ),
    decreases n - i,
{
    if i < n {
        lemma_load_stuck(schema, infos, blocks, i, (n - 1) as nat);
    }
}

proof fn lemma_with_page_info(t: NodeTableView, idx: NodeGroupIdx, range: PageRange, i: int)
    requires
        0 <= i < t.page_infos.len(),
        t.info_of(idx)(i),
        forall|j: int| 0 <= j < i ==> !#[trigger] t.info_of(idx)(j),
    ensures
        t.with_page_info(idx, range) == (NodeTableView {
            page_infos: t.page_infos.update(
                i,
                NodeGroupPageInfo { group_idx: idx, page_range: range },
            ),
            ..t
        }),
{
    search::lemma_first_where_is(t.page_infos.len(), t.info_of(idx), i);
}

// ---------------------------------------------------------------------------------------------
// The table

/// The blocks of several groups.
pub open spec fn blocks_view(pages: Seq<Vec<Page>>) -> Seq<Seq<u8>> {
    Seq::new(pages.len(), |i: int| concat(pages_view(pages[i]@)))
}

impl View for NodeTable {
    type V = NodeTableView;

    closed spec fn view(&self) -> NodeTableView {
        NodeTableView {
            schema: self.schema@,
            groups: groups_view(self.groups@),
            offsets: self.node_id_to_offset@,
            page_infos: self.page_infos@,
            dirty: self.dirty_groups@,
        }
    }
}

/// Notes of pages have nothing to do with what can be worked with.
proof fn lemma_page_info_sound(t: NodeTableView, idx: NodeGroupIdx, range: PageRange)
    requires
        t.sound(),
    ensures
        t.with_page_info(idx, range).sound(),
        t.with_page_info(idx, range) == (NodeTableView {
            page_infos: t.with_page_info(idx, range).page_infos,
            ..t
        }),
{
}

impl NodeTable {
    /// The parts of the table are well-formed.
    pub closed spec fn intact(&self) -> bool {
        &&& self.table_id == self.schema.table_id
        &&& self.label_id == self.schema.label_id
        &&& self.node_id_to_offset.wf()
        &&& forall|i: int| 0 <= i < self.groups@.len() ==> (#[trigger] self.groups@[i]).wf()
    }

    pub open spec fn wf(&self) -> bool {
        self.intact() && self@.sound()
    }

    pub fn new(schema: NodeLabelEntry) -> (t: Self)
        ensures
            t.wf(),
            t@ == NodeTableView::empty(schema@),
    {
        let t = NodeTable {
            table_id: schema.table_id,
            label_id: schema.label_id,
            schema,
            groups: Vec::new(),
            node_id_to_offset: OrderedMap::new(),
            page_infos: Vec::new(),
            dirty_groups: Vec::new(),
        };
        assert(t@ =~= NodeTableView::empty(schema@));
        t
    }

    #[inline]
    pub fn table_id(&self) -> (id: TableId)
        requires
            self.intact(),
        ensures
            id == self@.schema.table_id,
    {
        self.table_id
    }

    #[inline]
    pub fn label_id(&self) -> (id: LabelId)
        requires
            self.intact(),
        ensures
            id == self@.schema.label_id,
    {
        self.label_id
    }

    /// Whether nodes can be inserted, read and deleted.
    pub fn is_sound(&self) -> (b: bool)
        requires
            self.intact(),
        ensures
            b == self@.sound(),
    {
        let count: u64 = self.groups.len() as u64;
        if count >= 0x1_0000_0000_0000 {
            return false;
        }
        proof {
            self.node_id_to_offset.lemma_wf();
        }
        let mut i: usize = 0;
        while i < self.groups.len()
            invariant
                self.intact(),
                count == self.groups@.len(),
                i <= self.groups@.len(),
                forall|j: int|
                    0 <= j < i ==> (#[trigger] self@.groups[j]).valid() && self@.groups[j].dense()
                        && self@.groups[j].group_idx.0 < count,
            decreases self.groups@.len() - i,
        {
            assert(self@.groups[i as int] == self.groups@[i as int]@);
            proof {
                self.groups@[i as int].lemma_wf();
            }
            if !self.groups[i].is_dense() || self.groups[i].group_idx().0 >= count {
                return false;
            }
            i = i + 1;
        }
        i = 0;
        while i < self.node_id_to_offset.len()
            invariant
                self.intact(),
                count == self.groups@.len(),
                i <= self.node_id_to_offset@.len(),
                forall|j: int| 0 <= j < i ==> (#[trigger] self@.offsets[j]).1 / 65536 < count,
            decreases self.node_id_to_offset@.len() - i,
        {
            if *self.node_id_to_offset.value_at(i) / StorageConfig::NODE_GROUP_SIZE >= count {
                assert(self@.offsets[i as int].1 / 65536 >= count);
                return false;
            }
            i = i + 1;
        }
        i = 0;
        while i < self.dirty_groups.len()
            invariant
                count == self.groups@.len(),
                i <= self.dirty_groups@.len(),
                forall|j: int| 0 <= j < i ==> (#[trigger] self@.dirty[j]).0 < count,
            decreases self.dirty_groups@.len() - i,
        {
            if self.dirty_groups[i].0 >= count {
                assert(self@.dirty[i as int].0 >= count);
                return false;
            }
            i = i + 1;
        }
        true
    }

    fn mark_dirty(&mut self, idx: NodeGroupIdx)
        ensures
            *final(self) == (NodeTable { dirty_groups: final(self).dirty_groups, ..*old(self) }),
            final(self).dirty_groups@ == with_dirty(old(self).dirty_groups@, idx),
    {
        let mut i: usize = 0;
        while i < self.dirty_groups.len()
            invariant
                *self == *old(self),
                i <= self.dirty_groups@.len(),
                forall|j: int| 0 <= j < i ==> self.dirty_groups@[j] != idx,
            decreases self.dirty_groups@.len() - i,
        {
            if self.dirty_groups[i].0 == idx.0 {
                assert(self.dirty_groups@[i as int] == idx);
                return;
            }
            i = i + 1;
        }
        self.dirty_groups.push(idx);
    }

    /// Adds a node and gives its group and its row in it.
    pub fn insert_node(&mut self, node_id: NodeId, properties: &[Option<PropertyValue>]) -> (r:
        Result<(NodeGroupIdx, RowIdx), StorageError>)
        requires
            old(self).wf(),
            old(self)@.groups.len() + 1 < 0x1_0000_0000_0000,
        ensures
            final(self).wf(),
            ({
                let i = old(self)@.insert(node_id, row_view(properties@));
                &&& final(self)@ == i.state
                &&& match r {
                    Ok(place) => i.result == Ok::<(NodeGroupIdx, u64), ErrorView>(place),
                    Err(e) => i.result == Err::<(NodeGroupIdx, u64), ErrorView>(e@),
                }
            }),
    {
        proof {
            lemma_insert_sound(self@, node_id, row_view(properties@));
        }
        self.ensure_active_group();
        let ghost a = *self;
        let count: usize = self.groups.len();
        proof {
            assert(a@.groups.last() == a.groups@[count - 1]@);
            node::law_dense_bounds(a@.groups.last());
        }
        let ng_idx = self.groups[count - 1].group_idx();
        let r = self.groups[count - 1].insert_row(node_id, properties);
        assert(self@.groups =~= a@.groups.update(
            count - 1,
            a@.groups.last().insert(node_id, row_view(properties@)).state,
        ));
        match r {
            Ok(row) => {
                let offset: u64 = StorageConfig::NODE_GROUP_SIZE * ng_idx.0 + row;
                self.node_id_to_offset.insert(node_id.0, offset);
                self.mark_dirty(ng_idx);
                assert(self@ =~= old(self)@.insert(node_id, row_view(properties@)).state);
                Ok((ng_idx, row))
            },
            Err(e) => {
                assert(self@ =~= old(self)@.insert(node_id, row_view(properties@)).state);
                Err(e)
            },
        }
    }

    /// Makes sure that the last group has room.
    fn ensure_active_group(&mut self)
        requires
            old(self).intact(),
        ensures
            final(self).intact(),
            final(self)@ == old(self)@.with_active_group(),
    {
        let count: usize = self.groups.len();
        if count > 0 {
            assert(self@.groups.last() == self.groups@[count - 1]@);
        }
        if count == 0 || self.groups[count - 1].is_full() {
            let group = NodeGroup::new(NodeGroupIdx(count as u64), &self.schema);
            self.groups.push(group);
            assert(self@ =~= old(self)@.with_active_group());
        }
    }

    /// The values of a node, or `None` where there is none.
    pub fn get_node(&self, node_id: NodeId) -> (r: Result<
        Option<Vec<Option<PropertyValue>>>,
        StorageError,
    >)
        requires
            self.wf(),
        ensures
            match r {
                Ok(Some(v)) => self@.read(node_id) == Ok::<Option<RowView>, ErrorView>(
                    Some(row_view(v@)),
                ),
                Ok(None) => self@.read(node_id) == Ok::<Option<RowView>, ErrorView>(None),
                Err(e) => self@.read(node_id) == Err::<Option<RowView>, ErrorView>(e@),
            },
    {
        match self.node_id_to_offset.get(node_id.0) {
            Some(offset) => {
                let (group_idx, row) = split_offset(*offset);
                proof {
                    lemma_delete_sound(self@, node_id);
                    let count: usize = self.groups.len();
                    assert(self@.groups[group_idx as int] == self.groups@[group_idx as int]@);
                    node::law_dense_bounds(self@.groups[group_idx as int]);
                }
                let count: usize = self.groups.len();
                assert(group_idx < count);
                self.groups[group_idx as usize].get_row(row)
            },
            None => Ok(None),
        }
    }

    /// Deletes a node.
    pub fn delete_node(&mut self, node_id: NodeId) -> (r: Result<(), StorageError>)
        requires
            old(self).wf(),
        ensures
            final(self).wf(),
            final(self)@ == old(self)@.delete(node_id),
            match r {
                Ok(()) => old(self)@.delete_refusal(node_id) is None,
                Err(e) => old(self)@.delete_refusal(node_id) == Some(e@),
            },
    {
        proof {
            lemma_delete_sound(self@, node_id);
        }
        let offset: u64 = match self.node_id_to_offset.get(node_id.0) {
            Some(offset) => *offset,
            None => {
                return Err(StorageError::NodeNotFound { node_id });
            },
        };
        self.node_id_to_offset.remove(node_id.0);
        let (idx, row) = split_offset(offset);
        let count: usize = self.groups.len();
        assert(idx < count);
        let n: usize = idx as usize;
        proof {
            assert(old(self)@.groups[n as int] == old(self).groups@[n as int]@);
            node::law_dense_bounds(old(self)@.groups[n as int]);
        }
        let group_idx = self.groups[n].group_idx();
        self.mark_dirty(group_idx);
        let r = self.groups[n].delete_row(row);
        assert(self@.groups =~= old(self)@.groups.update(
            n as int,
            old(self)@.groups[n as int].delete(row),
        ));
        assert(self@ =~= old(self)@.delete(node_id));
        r
    }

    #[must_use]
    pub fn node_offset(&self, node_id: NodeId) -> (r: Option<NodeOffset>)
        requires
            self.intact(),
        ensures
            r == self@.offset(node_id),
    {
        match self.node_id_to_offset.get(node_id.0) {
            Some(offset) => Some(*offset),
            None => None,
        }
    }

    /// The offset of each node, by its number.
    #[must_use]
    pub fn node_offsets(&self) -> (m: &OrderedMap<NodeOffset>)
        requires
            self.intact(),
        ensures
            m.wf(),
            m@ == self@.offsets,
    {
        &self.node_id_to_offset
    }

    #[must_use]
    pub fn num_groups(&self) -> (n: usize)
        ensures
            n == self@.groups.len(),
    {
        self.groups.len()
    }

    /// Whether one more node can be numbered.
    pub fn has_room(&self) -> (b: bool)
        ensures
            b == (self@.groups.len() + 1 < 0x1_0000_0000_0000),
    {
        (self.groups.len() as u64) < 0xffff_ffff_ffff
    }

    #[must_use]
    pub fn num_nodes(&self) -> (n: u64)
        requires
            self.wf(),
        ensures
            n == self@.num_nodes(),
    {
        let mut n: u64 = 0;
        let mut i: usize = 0;
        while i < self.groups.len()
            invariant
                self.wf(),
                i <= self.groups@.len(),
                n == live_rows(self@.groups, i as nat),
            decreases self.groups@.len() - i,
        {
            assert(self@.groups[i as int] == self.groups@[i as int]@);
            proof {
                node::law_dense_bounds(self@.groups[i as int]);
                lemma_live_rows_bound(self@.groups, (i + 1) as nat);
            }
            n = n + self.groups[i].num_live_rows();
            i = i + 1;
        }
        n
    }

    /// All nodes, group by group and row by row.
    pub fn iter(&self) -> (records: Vec<NodeRecord>)
        requires
            self.wf(),
        ensures
            node_records_view(records@) == self@.records(),
    {
        let mut records: Vec<NodeRecord> = Vec::new();
        let mut i: usize = 0;
        assert(node_records_view(records@) =~= Seq::empty());
        while i < self.groups.len()
            invariant
                self.wf(),
                i <= self.groups@.len(),
                node_records_view(records@) == table_records(self@.groups, i as nat),
            decreases self.groups@.len() - i,
        {
            assert(self@.groups[i as int] == self.groups@[i as int]@);
            proof {
                node::law_dense_bounds(self@.groups[i as int]);
            }
            append_records(&self.groups[i], &mut records);
            i = i + 1;
        }
        records
    }

    #[must_use]
    pub fn page_infos(&self) -> (infos: &[NodeGroupPageInfo])
        ensures
            infos@ == self@.page_infos,
    {
        self.page_infos.as_slice()
    }

    /// The groups that are to be written, in the order in which they became dirty. None is dirty
    /// after it.
    pub fn begin_flush(&mut self) -> (dirty: Vec<NodeGroupIdx>)
        requires
            old(self).wf(),
        ensures
            final(self).wf(),
            dirty@ == old(self)@.dirty,
            final(self)@ == (NodeTableView { dirty: Seq::empty(), ..old(self)@ }),
    {
        let mut dirty: Vec<NodeGroupIdx> = Vec::new();
        std::mem::swap(&mut dirty, &mut self.dirty_groups);
        assert(self@ =~= (NodeTableView { dirty: Seq::empty(), ..old(self)@ }));
        dirty
    }

    /// The pages of a group; `None` where it is too large to be written.
    pub fn group_pages(&self, idx: NodeGroupIdx) -> (r: Option<Vec<Page>>)
        requires
            self.wf(),
            idx.0 < self@.groups.len(),
        ensures
            match r {
                Some(pages) => pages_view(pages@) == pages_of(
                    self@.groups[idx.0 as int].encoding(),
                ) && self@.groups[idx.0 as int].serializable(),
                None => !self@.groups[idx.0 as int].serializable(),
            },
    {
        let count: usize = self.groups.len();
        assert(idx.0 < count);
        assert(self@.groups[idx.0 as int] == self.groups@[idx.0 as int]@);
        proof {
            node::law_dense_bounds(self@.groups[idx.0 as int]);
        }
        self.groups[idx.0 as usize].try_serialize_to_pages()
    }

    /// The pages to be written behind the first `first_page` pages of the data file: those of all dirty
    /// groups, which are noted as being there. `None` where a group is too large to be written, or the
    /// file would have too many pages.
    pub fn flush(&mut self, first_page: u64) -> (r: Option<Vec<Page>>)
        requires
            old(self).wf(),
        ensures
            final(self).wf(),
            match r {
                Some(pages) => forall|disk: Disk|
                    disk.len() == first_page ==> #[trigger] old(self)@.flush_outcome(disk) == Some(
                        Flushed { table: final(self)@, disk: disk + pages_view(pages@) },
                    ),
                None => forall|disk: Disk|
                    disk.len() == first_page ==> #[trigger] old(self)@.flush_outcome(disk) is None,
            },
            r matches Some(pages) ==> first_page + pages@.len() <= u64::MAX,
            final(self)@ == (NodeTableView {
                page_infos: final(self)@.page_infos,
                dirty: Seq::empty(),
                ..old(self)@
            }),
    {
        let ghost t = old(self)@;
        let ghost c = NodeTableView { dirty: Seq::empty(), ..t };
        let dirty = self.begin_flush();
        let mut out: Vec<Page> = Vec::new();
        assert forall|disk: Disk| disk.len() == first_page implies #[trigger] c.write_outcome(
            dirty@,
            0,
            disk,
        ) == Some(Flushed { table: self@, disk: disk + pages_view(out@) }) by {
            assert(disk + pages_view(out@) =~= disk);
        }
        let mut i: usize = 0;
        while i < dirty.len()
            invariant
                self.wf(),
                i <= dirty@.len(),
                dirty@ == t.dirty,
                t == old(self)@,
                t.sound(),
                c == (NodeTableView { dirty: Seq::empty(), ..t }),
                self@ == (NodeTableView { page_infos: self@.page_infos, ..c }),
                first_page + out@.len() <= u64::MAX,
                forall|disk: Disk|
                    disk.len() == first_page ==> #[trigger] c.write_outcome(
                        dirty@,
                        i as nat,
                        disk,
                    ) == Some(Flushed { table: self@, disk: disk + pages_view(out@) }),
            decreases dirty@.len() - i,
        {
            let idx = dirty[i];
            let ghost before = self@;
            let ghost written = pages_view(out@);
            let ghost g = before.groups[idx.0 as int];
            assert(t.dirty[i as int].0 < t.groups.len());
            let next = match self.group_pages(idx) {
                Some(mut pages) => {
                    let count: usize = pages.len();
                    let start: u64 = first_page + out.len() as u64;
                    if count <= u32::MAX as usize && count as u64 <= u64::MAX - start {
                        let range = PageRange {
                            start_page: PageIdx(start),
                            num_pages: count as u32,
                        };
                        self.upsert_page_info(idx, range);
                        proof {
                            lemma_page_info_sound(before, idx, range);
                        }
                        let ghost added = pages_view(pages@);
                        out.append(&mut pages);
                        assert(pages_view(out@) =~= written + added);
                        assert forall|disk: Disk| disk.len() == first_page implies
                            #[trigger] c.write_outcome(dirty@, (i + 1) as nat, disk) == Some(
                            Flushed { table: self@, disk: disk + pages_view(out@) },
                        ) by {
                            assert(c.write_outcome(dirty@, i as nat, disk) == Some(
                                Flushed { table: before, disk: disk + written },
                            ));
                            assert(disk + pages_view(out@) =~= (disk + written) + added);
                        }
                        true
                    } else {
                        false
                    }
                },
                None => false,
            };
            if !next {
                assert forall|disk: Disk| disk.len() == first_page implies
                    #[trigger] t.flush_outcome(disk) is None by {
                    assert(c.write_outcome(dirty@, i as nat, disk) == Some(
                        Flushed { table: before, disk: disk + written },
                    ));
                    assert(c.write_outcome(dirty@, (i + 1) as nat, disk) is None);
                    node_persistence::lemma_outcome_stuck(
                        c,
                        dirty@,
                        (i + 1) as nat,
                        dirty@.len(),
                        disk,
                    );
                }
                return None;
            }
            i = i + 1;
        }
        assert forall|disk: Disk| disk.len() == first_page implies #[trigger] t.flush_outcome(disk)
            == Some(Flushed { table: self@, disk: disk + pages_view(out@) }) by {
            assert(c.write_outcome(dirty@, dirty@.len(), disk) == Some(
                Flushed { table: self@, disk: disk + pages_view(out@) },
            ));
        }
        Some(out)
    }

    /// Notes the pages that a group was written to.
    pub fn upsert_page_info(&mut self, group_idx: NodeGroupIdx, range: PageRange)
        ensures
            old(self).intact() ==> final(self).intact(),
            final(self)@ == old(self)@.with_page_info(group_idx, range),
    {
        let ghost p = self@.info_of(group_idx);
        let info = NodeGroupPageInfo { group_idx, page_range: range };
        let mut i: usize = 0;
        while i < self.page_infos.len()
            invariant
                *self == *old(self),
                info == (NodeGroupPageInfo { group_idx, page_range: range }),
                i <= self.page_infos@.len(),
                p == self@.info_of(group_idx),
                forall|j: int| 0 <= j < i ==> !#[trigger] p(j),
            decreases self.page_infos@.len() - i,
        {
            if self.page_infos[i].group_idx.0 == group_idx.0 {
                proof {
                    assert(p(i as int));
                    lemma_with_page_info(self@, group_idx, range, i as int);
                }
                self.page_infos.set(i, info);
                assert(self@ =~= old(self)@.with_page_info(group_idx, range));
                return;
            }
            i = i + 1;
        }
        proof {
            search::lemma_first_where_none(self@.page_infos.len(), p);
        }
        self.page_infos.push(info);
        assert(self@ =~= old(self)@.with_page_info(group_idx, range));
    }

    /// Adds the group that pages hold.
    pub fn load_group(self, info: NodeGroupPageInfo, pages: &[Page]) -> (r: Result<
        Self,
        StorageError,
    >)
        requires
            self.intact(),
            self@.load_group(info, concat(pages_view(pages@))) is Some,
        ensures
            match r {
                Ok(t) => t.intact() && self@.load_group(info, concat(pages_view(pages@))) == Some(
                    Ok::<NodeTableView, ErrorView>(t@),
                ),
                Err(e) => self@.load_group(info, concat(pages_view(pages@))) == Some(
                    Err::<NodeTableView, ErrorView>(e@),
                ),
            },
    {
        self.try_load_group(info, pages).unwrap()
    }

    /// Like [`NodeTable::load_group`], for any pages: `None` where a length or an offset in them
    /// points outside of what it is in, or a row cannot be numbered in 64 bits.
    pub fn try_load_group(self, info: NodeGroupPageInfo, pages: &[Page]) -> (r: Option<
        Result<Self, StorageError>,
    >)
        requires
            self.intact(),
        ensures
            match r {
                Some(Ok(t)) => t.intact() && self@.load_group(info, concat(pages_view(pages@)))
                    == Some(Ok::<NodeTableView, ErrorView>(t@)),
                Some(Err(e)) => self@.load_group(info, concat(pages_view(pages@))) == Some(
                    Err::<NodeTableView, ErrorView>(e@),
                ),
                None => self@.load_group(info, concat(pages_view(pages@))) is None,
            },
    {
        let mut t = self;
        let group = match NodeGroup::try_deserialize_from_pages(&t.schema, info.group_idx, pages) {
            Some(Ok(group)) => group,
            Some(Err(e)) => {
                return Some(Err(e));
            },
            None => {
                return None;
            },
        };
        if !group.is_sized() {
            return None;
        }
        let num_rows: u64 = group.num_rows();
        let mut row: u64 = 0;
        while row < num_rows
            invariant
                row <= num_rows,
                num_rows == group@.num_rows(),
                group.wf(),
                group@.sized(),
                t.intact(),
                t@ == (NodeTableView { offsets: t@.offsets, ..self@ }),
                scan_offsets(group@, info.group_idx, self@.offsets, row as nat) == Some(t@.offsets),
                GroupView::parse(
                    columns_of(self@.schema.properties),
                    info.group_idx,
                    concat(pages_view(pages@)),
                ) == Some(Ok::<GroupView, ErrorView>(group@)),
            decreases num_rows - row,
        {
            if let Ok(Some(_)) = group.get_row(row) {
                if let Ok(node_id) = group.node_id_at(row) {
                    let offset: u128 = info.group_idx.0 as u128 * 65536 + row as u128;
                    if offset > u64::MAX as u128 {
                        proof {
                            lemma_scan_stuck(
                                group@,
                                info.group_idx,
                                self@.offsets,
                                (row + 1) as nat,
                                num_rows as nat,
                            );
                        }
                        return None;
                    }
                    t.node_id_to_offset.insert(node_id.0, offset as u64);
                }
            }
            row = row + 1;
        }
        let ghost before = t@;
        t.groups.push(group);
        t.page_infos.push(info);
        assert(t@ =~= (NodeTableView {
            groups: before.groups.push(group@),
            page_infos: before.page_infos.push(info),
            ..before
        }));
        Some(Ok(t))
    }

    /// The table whose groups stand on pages: `pages[i]` are those of `page_infos[i]`.
    pub fn load(
        schema: NodeLabelEntry,
        page_infos: Vec<NodeGroupPageInfo>,
        pages: &Vec<Vec<Page>>,
    ) -> (r: Result<Self, StorageError>)
        requires
            pages@.len() == page_infos@.len(),
            NodeTableView::load(
                schema@,
                page_infos@,
                blocks_view(pages@),
                page_infos@.len(),
            ) is Some,
        ensures
            ({
                let d = NodeTableView::load(
                    schema@,
                    page_infos@,
                    blocks_view(pages@),
                    page_infos@.len(),
                );
                match r {
                    Ok(t) => t.intact() && d == Some(Ok::<NodeTableView, ErrorView>(t@)),
                    Err(e) => d == Some(Err::<NodeTableView, ErrorView>(e@)),
                }
            }),
    {
        Self::try_load(schema, page_infos, pages).unwrap()
    }

    /// Like [`NodeTable::load`], for any pages.
    pub fn try_load(
        schema: NodeLabelEntry,
        page_infos: Vec<NodeGroupPageInfo>,
        pages: &Vec<Vec<Page>>,
    ) -> (r: Option<Result<Self, StorageError>>)
        requires
            pages@.len() == page_infos@.len(),
        ensures
            ({
                let d = NodeTableView::load(
                    schema@,
                    page_infos@,
                    blocks_view(pages@),
                    page_infos@.len(),
                );
                match r {
                    Some(Ok(t)) => t.intact() && d == Some(Ok::<NodeTableView, ErrorView>(t@)),
                    Some(Err(e)) => d == Some(Err::<NodeTableView, ErrorView>(e@)),
                    None => d is None,
                }
            }),
    {
        let ghost sv = schema@;
        let ghost blocks = blocks_view(pages@);
        let n: usize = page_infos.len();
        let mut t = NodeTable::new(schema);
        let mut i: usize = 0;
        while i < n
            invariant
                i <= n,
                n == page_infos@.len(),
                pages@.len() == n,
                sv == schema@,
                blocks == blocks_view(pages@),
                t.intact(),
                NodeTableView::load(sv, page_infos@, blocks, i as nat) == Some(
                    Ok::<NodeTableView, ErrorView>(t@),
                ),
            decreases n - i,
        {
            match t.try_load_group(page_infos[i], pages[i].as_slice()) {
                Some(Ok(next)) => {
                    t = next;
                },
                Some(Err(e)) => {
                    proof {
                        lemma_load_stuck(sv, page_infos@, blocks, (i + 1) as nat, n as nat);
                    }
                    return Some(Err(e));
                },
                None => {
                    proof {
                        lemma_load_stuck(sv, page_infos@, blocks, (i + 1) as nat, n as nat);
                    }
                    return None;
                },
            }
            i = i + 1;
        }
        Some(Ok(t))
    }
}

/// Appends the live rows of a group.
pub(crate) fn append_records(group: &NodeGroup, records: &mut Vec<NodeRecord>)
    requires
        group.wf(),
        group@.sized(),
    ensures
        node_records_view(final(records)@) == node_records_view(old(records)@) + group_records(
            group@,
            group@.num_rows(),
        ),
{
    let ghost start = node_records_view(records@);
    let num_rows: u64 = group.num_rows();
    let mut row: u64 = 0;
    assert(start + group_records(group@, 0) =~= start);
    while row < num_rows
        invariant
            row <= num_rows,
            num_rows == group@.num_rows(),
            group.wf(),
            group@.sized(),
            node_records_view(records@) == start + group_records(group@, row as nat),
        decreases num_rows - row,
    {
        let ghost before = records@;
        if let Ok(Some(properties)) = group.get_row(row) {
            if let Ok(node_id) = group.node_id_at(row) {
                let record = NodeRecord { node_id, properties };
                records.push(record);
                assert(node_records_view(records@) =~= node_records_view(before).push(record@));
            }
        }
        assert(node_records_view(records@) =~= start + group_records(group@, (row + 1) as nat));
        row = row + 1;
    }
}

/// The group and the row of an offset.
#[inline]
fn split_offset(offset: NodeOffset) -> (r: (u64, RowIdx))
    ensures
        r == (offset / 65536, offset % 65536),
{
    (offset / StorageConfig::NODE_GROUP_SIZE, offset % StorageConfig::NODE_GROUP_SIZE)
}

} // verus!
