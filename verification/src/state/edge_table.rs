//! The edges of one type.

use vstd::prelude::*;
use vstd::string::StringExecFns;

use crate::adjacency::EdgeRef;
use crate::catalog::{columns_of, EdgeTypeEntry, EdgeTypeView};
use crate::config::StorageConfig;
use crate::error::{ErrorView, StorageError};
use crate::io::codec::{concat, Decoded};
use crate::io::page::{pages_of, pages_view, Disk, Page};
use crate::ordered_map;
use crate::ordered_map::{lookup, mapped, put, sorted, OrderedMap};
use crate::search;
use crate::search::{count_false, first_where};
use crate::state::edge_persistence;
use crate::state::node_persistence::Flushed;
use crate::table::edge::{CSREdgeGroup, CSREdgeRecord, EdgeGroupView, RecordView};
use crate::table::edge;
use crate::table::row::{row_view, RowView};
use crate::text::{decimal, push_decimal};
use crate::types::{
    ColumnId, DataType, Direction, EdgeId, LabelId, NodeGroupIdx, NodeId, NodeOffset, PageIdx,
    PageRange, PropertyValue, TableId,
};

verus! {

/// Metadata mapping a CSR edge group to its on-disk page range.
#[derive(Debug, Clone, Copy, PartialEq, Eq, Structural)]
pub struct CSREdgeGroupPageInfo {
    pub group_idx: NodeGroupIdx,
    pub direction: Direction,
    pub page_range: PageRange,
}

/// Groups are organised by **node-offset range**: group `k` covers offsets
/// `[k * NODE_GROUP_SIZE, (k+1) * NODE_GROUP_SIZE)`. Multiple groups per range
/// are created when one fills beyond `NODE_GROUP_SIZE` edges.
pub struct EdgeTable {
    table_id: TableId,
    type_id: LabelId,
    schema: EdgeTypeEntry,
    fwd_ranges: OrderedMap<Vec<CSREdgeGroup>>,
    bwd_ranges: OrderedMap<Vec<CSREdgeGroup>>,
    /// The groups that changed since they were last flushed, in the order in which they did.
    dirty_groups: Vec<(NodeGroupIdx, Direction)>,
    page_infos: Vec<CSREdgeGroupPageInfo>,
}

// ---------------------------------------------------------------------------------------------
// The model

/// Groups by the range of node offsets that they are for.
pub type Ranges = Seq<(u64, Seq<EdgeGroupView>)>;

/// What an [`EdgeTable`] stands for.
#[verifier::ext_equal]
pub struct EdgeTableView {
    pub schema: EdgeTypeView,
    pub fwd: Ranges,
    pub bwd: Ranges,
    pub dirty: Seq<(NodeGroupIdx, Direction)>,
    pub page_infos: Seq<CSREdgeGroupPageInfo>,
}

/// What inserting an edge into the groups of one direction does.
pub struct RangesInserted {
    pub ranges: Ranges,
    pub result: Result<u64, ErrorView>,
}

/// What inserting an edge does.
pub struct EdgeInserted {
    pub state: EdgeTableView,
    pub result: Result<(), ErrorView>,
}

pub open spec fn edge_groups_view(groups: Seq<CSREdgeGroup>) -> Seq<EdgeGroupView> {
    Seq::new(groups.len(), |i: int| groups[i]@)
}

/// What the groups of a range stand for, as a function.
pub open spec fn range_view() -> spec_fn(Vec<CSREdgeGroup>) -> Seq<EdgeGroupView> {
    |groups: Vec<CSREdgeGroup>| edge_groups_view(groups@)
}

/// The range of an offset.
pub open spec fn range_of(offset: u64) -> u64 {
    offset / 65536
}

/// The groups of a range.
pub open spec fn groups_of(ranges: Ranges, k: u64) -> Seq<EdgeGroupView> {
    match lookup(ranges, k) {
        Some(groups) => groups,
        None => Seq::empty(),
    }
}

/// All groups can be searched, inserted into and deleted from.
pub open spec fn ranges_sound(ranges: Ranges) -> bool {
    &&& sorted(ranges)
    &&& forall|i: int, j: int|
        0 <= i < ranges.len() && 0 <= j < ranges[i].1.len() ==> (#[trigger] ranges[i].1[j]).valid()
            && ranges[i].1[j].sound()
}

/// The groups of a range, with one at the end that has room.
pub open spec fn with_active_group(
    groups: Seq<EdgeGroupView>,
    k: u64,
    direction: Direction,
    schema: Seq<(ColumnId, DataType)>,
) -> Seq<EdgeGroupView> {
    if groups.len() == 0 || groups.last().is_full() {
        groups.push(EdgeGroupView::empty(NodeGroupIdx(k), direction, schema))
    } else {
        groups
    }
}

/// An edge goes into the last group of its range, or into a new one.
pub open spec fn insert_in(
    ranges: Ranges,
    direction: Direction,
    schema: Seq<(ColumnId, DataType)>,
    offset: u64,
    edge_id: EdgeId,
    from: NodeId,
    to: NodeId,
    values: RowView,
) -> RangesInserted {
    let k = range_of(offset);
    let groups = with_active_group(groups_of(ranges, k), k, direction, schema);
    let n = groups.len() - 1;
    let i = groups[n].insert(offset, edge_id, from, to, values);
    RangesInserted { ranges: put(ranges, k, groups.update(n, i.state)), result: i.result }
}

/// The index of the group that an edge goes into.
pub open spec fn active_idx(
    ranges: Ranges,
    direction: Direction,
    schema: Seq<(ColumnId, DataType)>,
    offset: u64,
) -> NodeGroupIdx {
    let k = range_of(offset);
    with_active_group(groups_of(ranges, k), k, direction, schema).last().group_idx
}

pub open spec fn group_has(groups: Seq<EdgeGroupView>, edge_id: EdgeId) -> spec_fn(int) -> bool {
    |j: int| groups[j].find(edge_id) is Some
}

/// The place of the first group with an edge.
pub open spec fn group_with(groups: Seq<EdgeGroupView>, edge_id: EdgeId) -> Option<int> {
    first_where(groups.len(), group_has(groups, edge_id))
}

pub open spec fn range_has(ranges: Ranges, edge_id: EdgeId) -> spec_fn(int) -> bool {
    |i: int| group_with(ranges[i].1, edge_id) is Some
}

/// The place of the first range with an edge, and of the group in it.
pub open spec fn locate(ranges: Ranges, edge_id: EdgeId) -> Option<(int, int)> {
    match first_where(ranges.len(), range_has(ranges, edge_id)) {
        Some(i) => Some((i, group_with(ranges[i].1, edge_id)->Some_0)),
        None => None,
    }
}

/// The groups after the first group with an edge lost it.
pub open spec fn delete_in(ranges: Ranges, edge_id: EdgeId) -> Ranges {
    match locate(ranges, edge_id) {
        Some((i, j)) => {
            let g = ranges[i].1[j];
            ranges.update(
                i,
                (
                    ranges[i].0,
                    ranges[i].1.update(j, g.delete(g.find(edge_id)->Some_0 as u64)),
                ),
            )
        },
        None => ranges,
    }
}

/// The list with an entry that is not there twice.
pub open spec fn with_dirty(
    dirty: Seq<(NodeGroupIdx, Direction)>,
    entry: (NodeGroupIdx, Direction),
) -> Seq<(NodeGroupIdx, Direction)> {
    if dirty.contains(entry) {
        dirty
    } else {
        dirty.push(entry)
    }
}

/// The reference that a row of a group gives, if the row is live.
pub open spec fn ref_at(
    g: EdgeGroupView,
    row: u64,
    type_id: LabelId,
    direction: Direction,
) -> Option<EdgeRef> {
    match g.read(row) {
        Ok(Some(record)) => Some(
            EdgeRef {
                edge_id: record.edge_id,
                type_id,
                neighbor: match direction {
                    Direction::Forward => record.to,
                    Direction::Backward => record.from,
                },
            },
        ),
        _ => None,
    }
}

/// The references of the first `n` of some rows.
pub open spec fn refs_of_rows(
    g: EdgeGroupView,
    rows: Seq<u64>,
    n: nat,
    type_id: LabelId,
    direction: Direction,
) -> Seq<EdgeRef>
    decreases n,
{
    if n == 0 {
        Seq::empty()
    } else {
        let before = refs_of_rows(g, rows, (n - 1) as nat, type_id, direction);
        match ref_at(g, rows[n - 1], type_id, direction) {
            Some(r) => before.push(r),
            None => before,
        }
    }
}

/// The references at an offset in the first `n` groups.
pub open spec fn refs_of_groups(
    groups: Seq<EdgeGroupView>,
    n: nat,
    offset: u64,
    type_id: LabelId,
    direction: Direction,
) -> Seq<EdgeRef>
    decreases n,
{
    if n == 0 {
        Seq::empty()
    } else {
        let g = groups[n - 1];
        refs_of_groups(groups, (n - 1) as nat, offset, type_id, direction) + refs_of_rows(
            g,
            g.found(offset),
            g.found(offset).len(),
            type_id,
            direction,
        )
    }
}

/// The live rows among the first `n` of a group.
pub open spec fn group_records(g: EdgeGroupView, n: nat) -> Seq<RecordView>
    decreases n,
{
    if n == 0 {
        Seq::empty()
    } else {
        let before = group_records(g, (n - 1) as nat);
        match g.read((n - 1) as u64) {
            Ok(Some(record)) => before.push(record),
            _ => before,
        }
    }
}

pub open spec fn groups_records(groups: Seq<EdgeGroupView>, n: nat) -> Seq<RecordView>
    decreases n,
{
    if n == 0 {
        Seq::empty()
    } else {
        groups_records(groups, (n - 1) as nat) + group_records(
            groups[n - 1],
            groups[n - 1].len(),
        )
    }
}

pub open spec fn ranges_records(ranges: Ranges, n: nat) -> Seq<RecordView>
    decreases n,
{
    if n == 0 {
        Seq::empty()
    } else {
        ranges_records(ranges, (n - 1) as nat) + groups_records(
            ranges[n - 1].1,
            ranges[n - 1].1.len(),
        )
    }
}

pub open spec fn groups_live(groups: Seq<EdgeGroupView>, n: nat) -> nat
    decreases n,
{
    if n == 0 {
        0
    } else {
        groups_live(groups, (n - 1) as nat) + count_false(groups[n - 1].deleted)
    }
}

pub open spec fn ranges_live(ranges: Ranges, n: nat) -> nat
    decreases n,
{
    if n == 0 {
        0
    } else {
        ranges_live(ranges, (n - 1) as nat) + groups_live(ranges[n - 1].1, ranges[n - 1].1.len())
    }
}

pub open spec fn ranges_groups(ranges: Ranges, n: nat) -> nat
    decreases n,
{
    if n == 0 {
        0
    } else {
        ranges_groups(ranges, (n - 1) as nat) + ranges[n - 1].1.len()
    }
}

pub open spec fn group_is(groups: Seq<EdgeGroupView>, idx: NodeGroupIdx) -> spec_fn(int) -> bool {
    |j: int| groups[j].group_idx == idx
}

pub open spec fn range_is(ranges: Ranges, idx: NodeGroupIdx) -> spec_fn(int) -> bool {
    |i: int| first_where(ranges[i].1.len(), group_is(ranges[i].1, idx)) is Some
}

/// The place of the first range with a group of an index, and of the group in it.
pub open spec fn locate_idx(ranges: Ranges, idx: NodeGroupIdx) -> Option<(int, int)> {
    match first_where(ranges.len(), range_is(ranges, idx)) {
        Some(i) => Some(
            (i, first_where(ranges[i].1.len(), group_is(ranges[i].1, idx))->Some_0),
        ),
        None => None,
    }
}

/// The groups with one of them changed.
pub open spec fn with_group(ranges: Ranges, i: int, j: int, g: EdgeGroupView) -> Ranges {
    ranges.update(i, (ranges[i].0, ranges[i].1.update(j, g)))
}

/// The error of a dirty group that is not there.
pub open spec fn lost_group(idx: NodeGroupIdx) -> ErrorView {
    ErrorView::SerDe("group "@ + decimal(idx.0 as nat) + " not found during flush"@)
}

impl EdgeTableView {
    /// A table without edges.
    pub open spec fn empty(schema: EdgeTypeView) -> EdgeTableView {
        EdgeTableView {
            schema,
            fwd: Seq::empty(),
            bwd: Seq::empty(),
            dirty: Seq::empty(),
            page_infos: Seq::empty(),
        }
    }

    pub open spec fn sound(self) -> bool {
        ranges_sound(self.fwd) && ranges_sound(self.bwd)
    }

    pub open spec fn columns(self) -> Seq<(ColumnId, DataType)> {
        columns_of(self.schema.properties)
    }

    pub open spec fn ranges(self, direction: Direction) -> Ranges {
        match direction {
            Direction::Forward => self.fwd,
            Direction::Backward => self.bwd,
        }
    }

    pub open spec fn with_ranges(self, direction: Direction, ranges: Ranges) -> EdgeTableView {
        match direction {
            Direction::Forward => EdgeTableView { fwd: ranges, ..self },
            Direction::Backward => EdgeTableView { bwd: ranges, ..self },
        }
    }

    /// An edge is inserted by the offset of its source, then by that of its destination.
    pub open spec fn insert(
        self,
        edge_id: EdgeId,
        from: NodeId,
        to: NodeId,
        from_offset: u64,
        to_offset: u64,
        values: RowView,
    ) -> EdgeInserted {
        let f = insert_in(
            self.fwd,
            Direction::Forward,
            self.columns(),
            from_offset,
            edge_id,
            from,
            to,
            values,
        );
        match f.result {
            Err(e) => EdgeInserted {
                state: EdgeTableView { fwd: f.ranges, ..self },
                result: Err(e),
            },
            Ok(_) => {
                let b = insert_in(
                    self.bwd,
                    Direction::Backward,
                    self.columns(),
                    to_offset,
                    edge_id,
                    from,
                    to,
                    values,
                );
                match b.result {
                    Err(e) => EdgeInserted {
                        state: EdgeTableView { fwd: f.ranges, bwd: b.ranges, ..self },
                        result: Err(e),
                    },
                    Ok(_) => {
                        let fwd_idx = active_idx(
                            self.fwd,
                            Direction::Forward,
                            self.columns(),
                            from_offset,
                        );
                        let bwd_idx = active_idx(
                            self.bwd,
                            Direction::Backward,
                            self.columns(),
                            to_offset,
                        );
                        EdgeInserted {
                            state: EdgeTableView {
                                fwd: f.ranges,
                                bwd: b.ranges,
                                dirty: with_dirty(
                                    with_dirty(self.dirty, (fwd_idx, Direction::Forward)),
                                    (bwd_idx, Direction::Backward),
                                ),
                                ..self
                            },
                            result: Ok(()),
                        }
                    },
                }
            },
        }
    }

    /// What reading an edge gives; `None` where there is none.
    pub open spec fn read(self, edge_id: EdgeId) -> Result<Option<RecordView>, ErrorView> {
        match locate(self.fwd, edge_id) {
            Some((i, j)) => {
                let g = self.fwd[i].1[j];
                g.read(g.find(edge_id)->Some_0 as u64)
            },
            None => Ok(None),
        }
    }

    /// The edge is there in some direction.
    pub open spec fn has(self, edge_id: EdgeId) -> bool {
        locate(self.fwd, edge_id) is Some || locate(self.bwd, edge_id) is Some
    }

    /// The groups of one direction without an edge; the group that had it is dirty.
    pub open spec fn delete_one_way(self, edge_id: EdgeId, direction: Direction) -> EdgeTableView {
        let ranges = self.ranges(direction);
        match locate(ranges, edge_id) {
            Some((i, j)) => {
                let t = self.with_ranges(direction, delete_in(ranges, edge_id));
                EdgeTableView {
                    dirty: with_dirty(self.dirty, (ranges[i].1[j].group_idx, direction)),
                    ..t
                }
            },
            None => self,
        }
    }

    /// The table without an edge.
    pub open spec fn delete(self, edge_id: EdgeId) -> EdgeTableView {
        self.delete_one_way(edge_id, Direction::Forward).delete_one_way(
            edge_id,
            Direction::Backward,
        )
    }

    /// The edges at an offset: those that leave it, or those that reach it.
    pub open spec fn neighbors(self, offset: u64, direction: Direction) -> Seq<EdgeRef> {
        let groups = groups_of(self.ranges(direction), range_of(offset));
        refs_of_groups(groups, groups.len(), offset, self.schema.label_id, direction)
    }

    pub open spec fn num_edges(self) -> nat {
        ranges_live(self.fwd, self.fwd.len())
    }

    pub open spec fn num_groups(self) -> nat {
        ranges_groups(self.fwd, self.fwd.len())
    }

    /// All edges, range by range, group by group and row by row.
    pub open spec fn records(self) -> Seq<RecordView> {
        ranges_records(self.fwd, self.fwd.len())
    }

    /// The table with no region of a group dirty.
    pub open spec fn group_flushed(self, idx: NodeGroupIdx, direction: Direction) -> EdgeTableView {
        let ranges = self.ranges(direction);
        match locate_idx(ranges, idx) {
            Some((i, j)) => self.with_ranges(
                direction,
                with_group(ranges, i, j, EdgeGroupView { dirty: 0, ..ranges[i].1[j] }),
            ),
            None => self,
        }
    }

    pub open spec fn info_of(self, idx: NodeGroupIdx, direction: Direction) -> spec_fn(
        int,
    ) -> bool {
        |i: int|
            self.page_infos[i].group_idx == idx && self.page_infos[i].direction == direction
    }

    /// The table with the pages of a group noted.
    pub open spec fn with_page_info(
        self,
        idx: NodeGroupIdx,
        direction: Direction,
        range: PageRange,
    ) -> EdgeTableView {
        let info = CSREdgeGroupPageInfo { group_idx: idx, direction, page_range: range };
        match first_where(self.page_infos.len(), self.info_of(idx, direction)) {
            Some(i) => EdgeTableView { page_infos: self.page_infos.update(i, info), ..self },
            None => EdgeTableView { page_infos: self.page_infos.push(info), ..self },
        }
    }

    /// The table with the group that a block holds, in the range of its first offset.
    pub open spec fn load_group(self, info: CSREdgeGroupPageInfo, block: Seq<u8>) -> Decoded<
        EdgeTableView,
    > {
        match EdgeGroupView::parse(info.direction, self.columns(), info.group_idx, block) {
            Some(Ok(g)) => {
                let k = range_of(g.offset_base);
                let ranges = self.ranges(info.direction);
                let t = self.with_ranges(
                    info.direction,
                    put(ranges, k, groups_of(ranges, k).push(g)),
                );
                Some(Ok(EdgeTableView { page_infos: self.page_infos.push(info), ..t }))
            },
            Some(Err(e)) => Some(Err(e)),
            None => None,
        }
    }

    /// The table with the first `n` of the groups that blocks hold.
    pub open spec fn load(
        schema: EdgeTypeView,
        infos: Seq<CSREdgeGroupPageInfo>,
        blocks: Seq<Seq<u8>>,
        n: nat,
    ) -> Decoded<EdgeTableView>
        decreases n,
    {
        if n == 0 {
            Some(Ok(EdgeTableView::empty(schema)))
        } else {
            match EdgeTableView::load(schema, infos, blocks, (n - 1) as nat) {
                Some(Ok(t)) => t.load_group(infos[n - 1], blocks[n - 1]),
                r => r,
            }
        }
    }
}

// ---------------------------------------------------------------------------------------------
// Groups of one direction

/// The parts of the groups are well-formed.
pub open spec fn groups_wf(groups: Seq<CSREdgeGroup>) -> bool {
    forall|j: int| 0 <= j < groups.len() ==> (#[trigger] groups[j]).wf()
}

pub open spec fn ranges_wf(ranges: Seq<(u64, Vec<CSREdgeGroup>)>) -> bool {
    forall|i: int| 0 <= i < ranges.len() ==> groups_wf((#[trigger] ranges[i]).1@)
}

pub open spec fn groups_sound(groups: Seq<EdgeGroupView>) -> bool {
    forall|j: int| 0 <= j < groups.len() ==> (#[trigger] groups[j]).valid() && groups[j].sound()
}

proof fn lemma_range_sound(ranges: Ranges, i: int)
    requires
        ranges_sound(ranges),
        0 <= i < ranges.len(),
    ensures
        groups_sound(ranges[i].1),
{
    let groups = ranges[i].1;
    assert forall|j: int| 0 <= j < groups.len() implies (#[trigger] groups[j]).valid()
        && groups[j].sound() by {
        assert(ranges[i].1[j].valid() && ranges[i].1[j].sound());
    }
}

/// A range can be replaced by one whose groups are sound.
pub proof fn lemma_put_sound(ranges: Ranges, k: u64, groups: Seq<EdgeGroupView>)
    requires
        ranges_sound(ranges),
        groups_sound(groups),
    ensures
        ranges_sound(put(ranges, k, groups)),
{
    ordered_map::law_put_then_lookup(ranges, k, groups, 0);
    ordered_map::lemma_rank(ranges, k);
    let s = put(ranges, k, groups);
    let r = ordered_map::rank(ranges, k) as int;
    assert forall|i: int, j: int| 0 <= i < s.len() && 0 <= j < s[i].1.len() implies (
    #[trigger] s[i].1[j]).valid() && s[i].1[j].sound() by {
        if i == r {
            assert(s[i] == (k, groups));
            assert(groups[j].valid() && groups[j].sound());
        } else {
            let a = if ordered_map::has_key(ranges, k) || i < r {
                i
            } else {
                i - 1
            };
            assert(s[i] == ranges[a]);
            assert(ranges[a].1[j].valid() && ranges[a].1[j].sound());
        }
    }
}

/// Inserting keeps all groups of a direction sound.
proof fn lemma_insert_in_sound(
    ranges: Ranges,
    direction: Direction,
    schema: Seq<(ColumnId, DataType)>,
    offset: u64,
    edge_id: EdgeId,
    from: NodeId,
    to: NodeId,
    values: RowView,
)
    requires
        ranges_sound(ranges),
        range_of(offset) < 0xffff_ffff_ffff,
    ensures
        ranges_sound(
            insert_in(ranges, direction, schema, offset, edge_id, from, to, values).ranges,
        ),
        groups_sound(
            with_active_group(
                groups_of(ranges, range_of(offset)),
                range_of(offset),
                direction,
                schema,
            ),
        ),
        groups_sound(groups_of(ranges, range_of(offset))),
{
    let k = range_of(offset);
    let old_groups = groups_of(ranges, k);
    if ordered_map::has_key(ranges, k) {
        lemma_range_sound(ranges, ordered_map::rank(ranges, k) as int);
    }
    let groups = with_active_group(old_groups, k, direction, schema);
    assert(groups_sound(groups)) by {
        assert forall|j: int| 0 <= j < groups.len() implies (#[trigger] groups[j]).valid()
            && groups[j].sound() by {
            if j < old_groups.len() {
                assert(groups[j] == old_groups[j]);
            } else {
                edge::law_empty_edge_group_regular(
                    NodeGroupIdx(k),
                    direction,
                    schema,
                );
            }
        }
    }
    let n = groups.len() - 1;
    assert(groups[n].valid() && groups[n].sound());
    edge::law_insert_keeps_sound(groups[n], offset, edge_id, from, to, values);
    let i = groups[n].insert(offset, edge_id, from, to, values);
    let after = groups.update(n, i.state);
    assert(groups_sound(after)) by {
        assert forall|j: int| 0 <= j < after.len() implies (#[trigger] after[j]).valid()
            && after[j].sound() by {
            if j != n {
                assert(after[j] == groups[j]);
            }
        }
    }
    lemma_put_sound(ranges, k, after);
}

fn insert_in_groups(
    groups: &mut Vec<CSREdgeGroup>,
    direction: Direction,
    schema: &EdgeTypeEntry,
    offset: NodeOffset,
    edge_id: EdgeId,
    from: NodeId,
    to: NodeId,
    values: &[Option<PropertyValue>],
) -> (r: (NodeGroupIdx, Result<u64, StorageError>))
    requires
        groups_wf(old(groups)@),
        groups_sound(
            with_active_group(
                edge_groups_view(old(groups)@),
                range_of(offset),
                direction,
                columns_of(schema@.properties),
            ),
        ),
    ensures
        groups_wf(final(groups)@),
        ({
            let gs = with_active_group(
                edge_groups_view(old(groups)@),
                range_of(offset),
                direction,
                columns_of(schema@.properties),
            );
            let n = gs.len() - 1;
            let i = gs[n].insert(offset, edge_id, from, to, row_view(values@));
            &&& edge_groups_view(final(groups)@) == gs.update(n, i.state)
            &&& r.0 == gs[n].group_idx
            &&& match r.1 {
                Ok(row) => i.result == Ok::<u64, ErrorView>(row),
                Err(e) => i.result == Err::<u64, ErrorView>(e@),
            }
        }),
{
    let ghost v0 = edge_groups_view(groups@);
    let count: usize = groups.len();
    if count > 0 {
        assert(v0.last() == groups@[count - 1]@);
    }
    if count == 0 || groups[count - 1].is_full() {
        let range: u64 = offset / StorageConfig::NODE_GROUP_SIZE;
        let group = CSREdgeGroup::new(NodeGroupIdx(range), direction, schema);
        groups.push(group);
        assert(edge_groups_view(groups@) =~= v0.push(group@));
    }
    let ghost v1 = edge_groups_view(groups@);
    let n: usize = groups.len() - 1;
    assert(v1[n as int] == groups@[n as int]@);
    let idx = groups[n].group_idx();
    let r = groups[n].insert_edge(offset, edge_id, from, to, values);
    assert(edge_groups_view(groups@) =~= v1.update(
        n as int,
        v1[n as int].insert(offset, edge_id, from, to, row_view(values@)).state,
    ));
    (idx, r)
}

fn insert_in_ranges(
    ranges: &mut OrderedMap<Vec<CSREdgeGroup>>,
    direction: Direction,
    schema: &EdgeTypeEntry,
    offset: NodeOffset,
    edge_id: EdgeId,
    from: NodeId,
    to: NodeId,
    values: &[Option<PropertyValue>],
) -> (r: (NodeGroupIdx, Result<u64, StorageError>))
    requires
        old(ranges).wf(),
        ranges_wf(old(ranges)@),
        ranges_sound(mapped(old(ranges)@, range_view())),
        range_of(offset) < 0xffff_ffff_ffff,
    ensures
        final(ranges).wf(),
        ranges_wf(final(ranges)@),
        ({
            let v = mapped(old(ranges)@, range_view());
            let columns = columns_of(schema@.properties);
            let i = insert_in(
                v,
                direction,
                columns,
                offset,
                edge_id,
                from,
                to,
                row_view(values@),
            );
            &&& mapped(final(ranges)@, range_view()) == i.ranges
            &&& ranges_sound(i.ranges)
            &&& r.0 == active_idx(v, direction, columns, offset)
            &&& match r.1 {
                Ok(row) => i.result == Ok::<u64, ErrorView>(row),
                Err(e) => i.result == Err::<u64, ErrorView>(e@),
            }
        }),
{
    let ghost s = ranges@;
    let ghost f = range_view();
    let ghost v = mapped(s, f);
    let k: u64 = offset / StorageConfig::NODE_GROUP_SIZE;
    proof {
        ranges.lemma_wf();
        ordered_map::lemma_mapped_rank(s, f, k);
        lemma_insert_in_sound(
            v,
            direction,
            columns_of(schema@.properties),
            offset,
            edge_id,
            from,
            to,
            row_view(values@),
        );
    }
    match ranges.find(k) {
        Some(i) => {
            assert(v[i as int] == (k, edge_groups_view(s[i as int].1@)));
            assert(groups_wf(s[i as int].1@));
            let r = insert_in_groups(
                ranges.value_at_mut(i),
                direction,
                schema,
                offset,
                edge_id,
                from,
                to,
                values,
            );
            proof {
                ordered_map::lemma_mapped_update(s, f, i as int, ranges@[i as int].1);
                assert(ranges_wf(ranges@)) by {
                    assert forall|a: int| 0 <= a < ranges@.len() implies groups_wf(
                        (#[trigger] ranges@[a]).1@,
                    ) by {
                        if a != i {
                            assert(ranges@[a] == s[a]);
                        }
                    }
                }
            }
            r
        },
        None => {
            let mut groups: Vec<CSREdgeGroup> = Vec::new();
            assert(edge_groups_view(groups@) =~= Seq::empty());
            let r = insert_in_groups(
                &mut groups,
                direction,
                schema,
                offset,
                edge_id,
                from,
                to,
                values,
            );
            ranges.insert(k, groups);
            proof {
                ordered_map::lemma_mapped_put(s, f, k, groups);
                lemma_put_wf(s, k, groups);
            }
            r
        },
    }
}

proof fn lemma_put_wf(s: Seq<(u64, Vec<CSREdgeGroup>)>, k: u64, groups: Vec<CSREdgeGroup>)
    requires
        sorted(s),
        ranges_wf(s),
        groups_wf(groups@),
    ensures
        ranges_wf(put(s, k, groups)),
{
    ordered_map::lemma_rank(s, k);
    let t = put(s, k, groups);
    let r = ordered_map::rank(s, k) as int;
    assert forall|i: int| 0 <= i < t.len() implies groups_wf((#[trigger] t[i]).1@) by {
        if i == r {
            assert(t[i] == (k, groups));
        } else if ordered_map::has_key(s, k) || i < r {
            assert(t[i] == s[i]);
        } else {
            assert(t[i] == s[i - 1]);
        }
    }
}

/// The place of the first group with an edge, and the row of the edge in it.
fn find_in_groups(groups: &Vec<CSREdgeGroup>, edge_id: EdgeId) -> (r: Option<(usize, u64)>)
    requires
        groups_wf(groups@),
    ensures
        match r {
            Some((j, row)) => {
                &&& group_with(edge_groups_view(groups@), edge_id) == Some(j as int)
                &&& j < groups@.len()
                &&& groups@[j as int]@.find(edge_id) == Some(row as int)
                &&& row < groups@[j as int]@.len()
            },
            None => group_with(edge_groups_view(groups@), edge_id) is None,
        },
{
    let ghost v = edge_groups_view(groups@);
    let ghost p = group_has(v, edge_id);
    let mut j: usize = 0;
    while j < groups.len()
        invariant
            groups_wf(groups@),
            v == edge_groups_view(groups@),
            p == group_has(v, edge_id),
            j <= groups@.len(),
            forall|a: int| 0 <= a < j ==> !#[trigger] p(a),
        decreases groups@.len() - j,
    {
        assert(v[j as int] == groups@[j as int]@);
        match groups[j].find_edge(edge_id) {
            Some(row) => {
                proof {
                    assert(p(j as int));
                    search::lemma_first_where_is(v.len(), p, j as int);
                    search::lemma_first_where(v[j as int].len(), v[j as int].holds_edge(edge_id));
                }
                return Some((j, row));
            },
            None => {},
        }
        j = j + 1;
    }
    proof {
        search::lemma_first_where_none(v.len(), p);
    }
    None
}

/// The place of the first range and group with an edge, and the row of the edge in it.
fn find_in_ranges(ranges: &OrderedMap<Vec<CSREdgeGroup>>, edge_id: EdgeId) -> (r: Option<
    (usize, usize, u64),
>)
    requires
        ranges.wf(),
        ranges_wf(ranges@),
    ensures
        match r {
            Some((i, j, row)) => {
                &&& locate(mapped(ranges@, range_view()), edge_id) == Some((i as int, j as int))
                &&& i < ranges@.len()
                &&& j < ranges@[i as int].1@.len()
                &&& ranges@[i as int].1@[j as int]@.find(edge_id) == Some(row as int)
                &&& row < ranges@[i as int].1@[j as int]@.len()
            },
            None => locate(mapped(ranges@, range_view()), edge_id) is None,
        },
{
    let ghost v = mapped(ranges@, range_view());
    let ghost p = range_has(v, edge_id);
    let mut i: usize = 0;
    while i < ranges.len()
        invariant
            ranges.wf(),
            ranges_wf(ranges@),
            v == mapped(ranges@, range_view()),
            p == range_has(v, edge_id),
            i <= ranges@.len(),
            forall|a: int| 0 <= a < i ==> !#[trigger] p(a),
        decreases ranges@.len() - i,
    {
        assert(v[i as int] == (ranges@[i as int].0, edge_groups_view(ranges@[i as int].1@)));
        match find_in_groups(ranges.value_at(i), edge_id) {
            Some((j, row)) => {
                proof {
                    assert(p(i as int));
                    search::lemma_first_where_is(v.len(), p, i as int);
                }
                return Some((i, j, row));
            },
            None => {},
        }
        i = i + 1;
    }
    proof {
        search::lemma_first_where_none(v.len(), p);
    }
    None
}

fn delete_in_groups(groups: &mut Vec<CSREdgeGroup>, j: usize, row: u64)
    requires
        groups_wf(old(groups)@),
        j < old(groups)@.len(),
        old(groups)@[j as int]@.sound(),
        row < old(groups)@[j as int]@.len(),
    ensures
        groups_wf(final(groups)@),
        edge_groups_view(final(groups)@) == edge_groups_view(old(groups)@).update(
            j as int,
            old(groups)@[j as int]@.delete(row),
        ),
{
    let ghost v = edge_groups_view(groups@);
    let r = groups[j].delete_row(row);
    assert(edge_groups_view(groups@) =~= v.update(j as int, old(groups)@[j as int]@.delete(row)));
}

/// Deletes an edge in one direction and gives the index of the group that had it.
fn delete_in_ranges(ranges: &mut OrderedMap<Vec<CSREdgeGroup>>, edge_id: EdgeId) -> (r: Option<
    NodeGroupIdx,
>)
    requires
        old(ranges).wf(),
        ranges_wf(old(ranges)@),
        ranges_sound(mapped(old(ranges)@, range_view())),
    ensures
        final(ranges).wf(),
        ranges_wf(final(ranges)@),
        ({
            let v = mapped(old(ranges)@, range_view());
            &&& mapped(final(ranges)@, range_view()) == delete_in(v, edge_id)
            &&& ranges_sound(delete_in(v, edge_id))
            &&& match r {
                Some(idx) => locate(v, edge_id) matches Some((i, j)) && idx == v[i].1[j].group_idx,
                None => locate(v, edge_id) is None,
            }
        }),
{
    let ghost s = ranges@;
    let ghost f = range_view();
    let ghost v = mapped(s, f);
    match find_in_ranges(ranges, edge_id) {
        Some((i, j, row)) => {
            proof {
                assert(v[i as int] == (s[i as int].0, edge_groups_view(s[i as int].1@)));
                assert(v[i as int].1[j as int] == s[i as int].1@[j as int]@);
                lemma_range_sound(v, i as int);
                lemma_delete_in_sound(v, edge_id);
                assert(groups_wf(s[i as int].1@));
            }
            let idx = ranges.value_at(i)[j].group_idx();
            delete_in_groups(ranges.value_at_mut(i), j, row);
            proof {
                ordered_map::lemma_mapped_update(s, f, i as int, ranges@[i as int].1);
                assert forall|a: int| 0 <= a < ranges@.len() implies groups_wf(
                    (#[trigger] ranges@[a]).1@,
                ) by {
                    if a != i {
                        assert(ranges@[a] == s[a]);
                    }
                }
            }
            Some(idx)
        },
        None => None,
    }
}

proof fn lemma_delete_in_sound(ranges: Ranges, edge_id: EdgeId)
    requires
        ranges_sound(ranges),
    ensures
        ranges_sound(delete_in(ranges, edge_id)),
{
    match locate(ranges, edge_id) {
        Some((i, j)) => {
            lemma_locate(ranges, edge_id);
            lemma_range_sound(ranges, i);
            let g = ranges[i].1[j];
            assert(g.valid() && g.sound());
            let row = g.find(edge_id)->Some_0 as u64;
            edge::law_delete_keeps_sound(g, row);
            let groups = ranges[i].1.update(j, g.delete(row));
            assert(groups_sound(groups)) by {
                assert forall|a: int| 0 <= a < groups.len() implies (#[trigger] groups[a]).valid()
                    && groups[a].sound() by {
                    if a != j {
                        assert(groups[a] == ranges[i].1[a]);
                    }
                }
            }
            ordered_map::lemma_rank_at(ranges, i);
            assert(delete_in(ranges, edge_id) =~= put(ranges, ranges[i].0, groups));
            lemma_put_sound(ranges, ranges[i].0, groups);
        },
        None => {},
    }
}

/// A located edge is there, and no range or group before has it.
pub proof fn lemma_locate(ranges: Ranges, edge_id: EdgeId)
    ensures
        match locate(ranges, edge_id) {
            Some((i, j)) => {
                &&& 0 <= i < ranges.len()
                &&& 0 <= j < ranges[i].1.len()
                &&& ranges[i].1[j].find(edge_id) is Some
                &&& 0 <= ranges[i].1[j].find(edge_id)->Some_0 < ranges[i].1[j].len()
                &&& forall|a: int, b: int|
                    0 <= a < ranges.len() && 0 <= b < ranges[a].1.len() && (a < i || a == i && b < j)
                        ==> (#[trigger] ranges[a].1[b]).find(edge_id) is None
            },
            None => forall|a: int, b: int|
                0 <= a < ranges.len() && 0 <= b < ranges[a].1.len() ==> (
                #[trigger] ranges[a].1[b]).find(edge_id) is None,
        },
{
    let p = range_has(ranges, edge_id);
    search::lemma_first_where(ranges.len(), p);
    match first_where(ranges.len(), p) {
        Some(i) => {
            let q = group_has(ranges[i].1, edge_id);
            search::lemma_first_where(ranges[i].1.len(), q);
            let j = group_with(ranges[i].1, edge_id)->Some_0;
            assert(q(j));
            let g = ranges[i].1[j];
            search::lemma_first_where(g.len(), g.holds_edge(edge_id));
            assert forall|a: int, b: int|
                0 <= a < ranges.len() && 0 <= b < ranges[a].1.len() && (a < i || a == i && b
                    < j) implies (#[trigger] ranges[a].1[b]).find(edge_id) is None by {
                if a < i {
                    assert(!p(a));
                    search::lemma_first_where(ranges[a].1.len(), group_has(ranges[a].1, edge_id));
                    assert(!group_has(ranges[a].1, edge_id)(b));
                } else {
                    assert(!q(b));
                }
            }
        },
        None => {
            assert forall|a: int, b: int| 0 <= a < ranges.len() && 0 <= b < ranges[a].1.len() implies (
            #[trigger] ranges[a].1[b]).find(edge_id) is None by {
                assert(!p(a));
                search::lemma_first_where(ranges[a].1.len(), group_has(ranges[a].1, edge_id));
                assert(!group_has(ranges[a].1, edge_id)(b));
            }
        },
    }
}

// ---------------------------------------------------------------------------------------------
// The table

/// The blocks of several groups.
pub open spec fn blocks_view(pages: Seq<Vec<Page>>) -> Seq<Seq<u8>> {
    Seq::new(pages.len(), |i: int| concat(pages_view(pages[i]@)))
}

pub open spec fn records_view(records: Seq<CSREdgeRecord>) -> Seq<RecordView> {
    Seq::new(records.len(), |i: int| records[i]@)
}

impl View for EdgeTable {
    type V = EdgeTableView;

    closed spec fn view(&self) -> EdgeTableView {
        EdgeTableView {
            schema: self.schema@,
            fwd: mapped(self.fwd_ranges@, range_view()),
            bwd: mapped(self.bwd_ranges@, range_view()),
            dirty: self.dirty_groups@,
            page_infos: self.page_infos@,
        }
    }
}

/// What flushing gives where a group cannot be written: what writing that group gives.
proof fn lemma_flush_stops(
    t: EdgeTableView,
    c: EdgeTableView,
    dirty: Seq<(NodeGroupIdx, Direction)>,
    i: nat,
    disk: Disk,
    before: EdgeTableView,
    written: Seq<Seq<u8>>,
)
    requires
        c == (EdgeTableView { dirty: Seq::empty(), ..t }),
        dirty == t.dirty,
        i < dirty.len(),
        c.write_outcome(dirty, i, disk) == Some(
            Ok::<Flushed<EdgeTableView>, ErrorView>(
                Flushed { table: before, disk: disk + written },
            ),
        ),
        ({
            let (idx, direction) = dirty[i as int];
            let ranges = before.ranges(direction);
            locate_idx(ranges, idx) matches Some((x, y)) ==> {
                let encoding = ranges[x].1[y].encoding();
                let count = pages_of(encoding).len();
                !(encoding.len() <= usize::MAX && count <= u32::MAX && disk.len() + written.len()
                    + count <= u64::MAX)
            }
        }),
    ensures
        ({
            let (idx, direction) = dirty[i as int];
            t.flush_outcome(disk) == if locate_idx(before.ranges(direction), idx) is Some {
                None
            } else {
                Some(Err::<Flushed<EdgeTableView>, ErrorView>(lost_group(idx)))
            }
        }),
{
    edge_persistence::lemma_outcome_stuck(c, dirty, i + 1, dirty.len(), disk);
}

impl EdgeTable {
    /// The parts of the table are well-formed.
    pub closed spec fn intact(&self) -> bool {
        &&& self.table_id == self.schema.table_id
        &&& self.type_id == self.schema.label_id
        &&& self.fwd_ranges.wf()
        &&& self.bwd_ranges.wf()
        &&& ranges_wf(self.fwd_ranges@)
        &&& ranges_wf(self.bwd_ranges@)
    }

    pub open spec fn wf(&self) -> bool {
        self.intact() && self@.sound()
    }

    pub fn new(schema: EdgeTypeEntry) -> (t: Self)
        ensures
            t.wf(),
            t@ == EdgeTableView::empty(schema@),
    {
        let t = EdgeTable {
            table_id: schema.table_id,
            type_id: schema.label_id,
            schema,
            fwd_ranges: OrderedMap::new(),
            bwd_ranges: OrderedMap::new(),
            dirty_groups: Vec::new(),
            page_infos: Vec::new(),
        };
        assert(t@ =~= EdgeTableView::empty(schema@));
        t
    }

    #[inline]
    pub fn table_id(&self) -> (id: TableId)
        requires
            self.intact(),
        ensures
            id == self@.schema.table_id,
    {
        self.table_id
    }

    #[inline]
    pub fn type_id(&self) -> (id: LabelId)
        requires
            self.intact(),
        ensures
            id == self@.schema.label_id,
    {
        self.type_id
    }

    /// Whether edges can be inserted, found and deleted.
    pub fn is_sound(&self) -> (b: bool)
        requires
            self.intact(),
        ensures
            b == self@.sound(),
    {
        are_sound(&self.fwd_ranges) && are_sound(&self.bwd_ranges)
    }

    fn mark_dirty(&mut self, idx: NodeGroupIdx, direction: Direction)
        ensures
            *final(self) == (EdgeTable { dirty_groups: final(self).dirty_groups, ..*old(self) }),
            final(self).dirty_groups@ == with_dirty(old(self).dirty_groups@, (idx, direction)),
    {
        let mut i: usize = 0;
        while i < self.dirty_groups.len()
            invariant
                *self == *old(self),
                i <= self.dirty_groups@.len(),
                forall|j: int| 0 <= j < i ==> self.dirty_groups@[j] != (idx, direction),
            decreases self.dirty_groups@.len() - i,
        {
            let entry = self.dirty_groups[i];
            if entry.0.0 == idx.0 && entry.1 == direction {
                assert(self.dirty_groups@[i as int] == (idx, direction));
                return;
            }
            i = i + 1;
        }
        self.dirty_groups.push((idx, direction));
    }

    /// `from_offset` and `to_offset` are dense node offsets used as CSR keys;
    /// `EdgeStore` is responsible for computing them from `NodeTable`.
    pub fn insert_edge(
        &mut self,
        edge_id: EdgeId,
        from: NodeId,
        to: NodeId,
        from_offset: NodeOffset,
        to_offset: NodeOffset,
        properties: &[Option<PropertyValue>],
    ) -> (r: Result<(), StorageError>)
        requires
            old(self).wf(),
            range_of(from_offset) < 0xffff_ffff_ffff,
            range_of(to_offset) < 0xffff_ffff_ffff,
        ensures
            final(self).wf(),
            ({
                let i = old(self)@.insert(
                    edge_id,
                    from,
                    to,
                    from_offset,
                    to_offset,
                    row_view(properties@),
                );
                &&& final(self)@ == i.state
                &&& match r {
                    Ok(()) => i.result is Ok,
                    Err(e) => i.result == Err::<(), ErrorView>(e@),
                }
            }),
    {
        let (fwd_idx, fwd) = insert_in_ranges(
            &mut self.fwd_ranges,
            Direction::Forward,
            &self.schema,
            from_offset,
            edge_id,
            from,
            to,
            properties,
        );
        match fwd {
            Ok(_) => {},
            Err(e) => {
                return Err(e);
            },
        }
        let (bwd_idx, bwd) = insert_in_ranges(
            &mut self.bwd_ranges,
            Direction::Backward,
            &self.schema,
            to_offset,
            edge_id,
            from,
            to,
            properties,
        );
        match bwd {
            Ok(_) => {},
            Err(e) => {
                return Err(e);
            },
        }
        self.mark_dirty(fwd_idx, Direction::Forward);
        self.mark_dirty(bwd_idx, Direction::Backward);
        Ok(())
    }

    /// An edge, or `None` where there is none.
    pub fn get_edge(&self, edge_id: EdgeId) -> (r: Result<Option<CSREdgeRecord>, StorageError>)
        requires
            self.intact(),
        ensures
            match r {
                Ok(Some(rec)) => self@.read(edge_id) == Ok::<Option<RecordView>, ErrorView>(
                    Some(rec@),
                ),
                Ok(None) => self@.read(edge_id) == Ok::<Option<RecordView>, ErrorView>(None),
                Err(e) => self@.read(edge_id) == Err::<Option<RecordView>, ErrorView>(e@),
            },
    {
        match find_in_ranges(&self.fwd_ranges, edge_id) {
            Some((i, j, row)) => {
                proof {
                    assert(self@.fwd[i as int].1[j as int]
                        == self.fwd_ranges@[i as int].1@[j as int]@);
                    assert(groups_wf(self.fwd_ranges@[i as int].1@));
                }
                self.fwd_ranges.value_at(i)[j].get_row(row)
            },
            None => Ok(None),
        }
    }

    /// Deletes an edge in both directions.
    pub fn delete_edge(&mut self, edge_id: EdgeId) -> (r: Result<(), StorageError>)
        requires
            old(self).wf(),
        ensures
            final(self).wf(),
            final(self)@ == old(self)@.delete(edge_id),
            match r {
                Ok(()) => old(self)@.has(edge_id),
                Err(e) => !old(self)@.has(edge_id) && e@ == (ErrorView::EdgeNotFound { edge_id }),
            },
    {
        let mut deleted = false;
        match delete_in_ranges(&mut self.fwd_ranges, edge_id) {
            Some(idx) => {
                self.mark_dirty(idx, Direction::Forward);
                deleted = true;
            },
            None => {},
        }
        assert(self@ =~= old(self)@.delete_one_way(edge_id, Direction::Forward));
        let ghost mid = self@;
        match delete_in_ranges(&mut self.bwd_ranges, edge_id) {
            Some(idx) => {
                self.mark_dirty(idx, Direction::Backward);
                deleted = true;
            },
            None => {},
        }
        assert(self@ =~= mid.delete_one_way(edge_id, Direction::Backward));
        if deleted {
            Ok(())
        } else {
            Err(StorageError::EdgeNotFound { edge_id })
        }
    }

    /// Appends the edges at an offset to `out`.
    pub fn neighbors_into(&self, node_offset: NodeOffset, dir: Direction, out: &mut Vec<EdgeRef>)
        requires
            self.wf(),
        ensures
            final(out)@ == old(out)@ + self@.neighbors(node_offset, dir),
    {
        let ranges = match dir {
            Direction::Forward => &self.fwd_ranges,
            Direction::Backward => &self.bwd_ranges,
        };
        let ghost v = mapped(ranges@, range_view());
        assert(v == self@.ranges(dir));
        let k: u64 = node_offset / StorageConfig::NODE_GROUP_SIZE;
        proof {
            ranges.lemma_wf();
            ordered_map::lemma_mapped_rank(ranges@, range_view(), k);
        }
        match ranges.find(k) {
            Some(i) => {
                let groups = ranges.value_at(i);
                proof {
                    assert(v[i as int] == (k, edge_groups_view(groups@)));
                    lemma_range_sound(v, i as int);
                    assert(groups_wf(groups@));
                }
                append_refs(groups, node_offset, self.type_id, dir, out);
            },
            None => {
                assert(old(out)@ + Seq::empty() =~= old(out)@);
            },
        }
    }

    #[must_use]
    pub fn num_groups(&self) -> (n: usize)
        requires
            self.intact(),
            self@.num_groups() <= usize::MAX,
        ensures
            n == self@.num_groups(),
    {
        self.checked_num_groups().unwrap()
    }

    /// Like [`EdgeTable::num_groups`]; `None` where the number is too large.
    pub fn checked_num_groups(&self) -> (r: Option<usize>)
        requires
            self.intact(),
        ensures
            match r {
                Some(n) => n == self@.num_groups(),
                None => self@.num_groups() > usize::MAX,
            },
    {
        let ghost v = self@.fwd;
        let mut n: usize = 0;
        let mut i: usize = 0;
        while i < self.fwd_ranges.len()
            invariant
                self.intact(),
                v == self@.fwd,
                v == mapped(self.fwd_ranges@, range_view()),
                i <= self.fwd_ranges@.len(),
                n == ranges_groups(v, i as nat),
            decreases self.fwd_ranges@.len() - i,
        {
            assert(v[i as int].1.len() == self.fwd_ranges@[i as int].1@.len());
            proof {
                lemma_ranges_groups_mono(v, (i + 1) as nat, v.len());
            }
            match n.checked_add(self.fwd_ranges.value_at(i).len()) {
                Some(sum) => {
                    n = sum;
                },
                None => {
                    return None;
                },
            }
            i = i + 1;
        }
        Some(n)
    }

    #[must_use]
    pub fn num_edges(&self) -> (n: u64)
        requires
            self.intact(),
            self@.num_edges() <= u64::MAX,
        ensures
            n == self@.num_edges(),
    {
        self.checked_num_edges().unwrap()
    }

    /// Like [`EdgeTable::num_edges`]; `None` where the number is too large.
    pub fn checked_num_edges(&self) -> (r: Option<u64>)
        requires
            self.intact(),
        ensures
            match r {
                Some(n) => n == self@.num_edges(),
                None => self@.num_edges() > u64::MAX,
            },
    {
        let ghost v = self@.fwd;
        let mut n: u64 = 0;
        let mut i: usize = 0;
        while i < self.fwd_ranges.len()
            invariant
                self.intact(),
                v == self@.fwd,
                v == mapped(self.fwd_ranges@, range_view()),
                i <= self.fwd_ranges@.len(),
                n == ranges_live(v, i as nat),
            decreases self.fwd_ranges@.len() - i,
        {
            assert(v[i as int] == (
                self.fwd_ranges@[i as int].0,
                edge_groups_view(self.fwd_ranges@[i as int].1@),
            ));
            proof {
                lemma_ranges_live_mono(v, (i + 1) as nat, v.len());
            }
            match count_groups(self.fwd_ranges.value_at(i), n) {
                Some(sum) => {
                    n = sum;
                },
                None => {
                    return None;
                },
            }
            i = i + 1;
        }
        Some(n)
    }

    /// All edges, range by range, group by group and row by row.
    pub fn iter(&self) -> (records: Vec<CSREdgeRecord>)
        requires
            self.intact(),
        ensures
            records_view(records@) == self@.records(),
    {
        let ghost v = self@.fwd;
        let mut records: Vec<CSREdgeRecord> = Vec::new();
        let mut i: usize = 0;
        assert(records_view(records@) =~= Seq::empty());
        while i < self.fwd_ranges.len()
            invariant
                self.intact(),
                v == mapped(self.fwd_ranges@, range_view()),
                i <= self.fwd_ranges@.len(),
                records_view(records@) == ranges_records(v, i as nat),
            decreases self.fwd_ranges@.len() - i,
        {
            assert(v[i as int] == (
                self.fwd_ranges@[i as int].0,
                edge_groups_view(self.fwd_ranges@[i as int].1@),
            ));
            assert(groups_wf(self.fwd_ranges@[i as int].1@));
            append_groups_records(self.fwd_ranges.value_at(i), &mut records);
            i = i + 1;
        }
        records
    }

    #[must_use]
    pub fn page_infos(&self) -> (infos: &[CSREdgeGroupPageInfo])
        ensures
            infos@ == self@.page_infos,
    {
        self.page_infos.as_slice()
    }

    /// The groups that are to be written, in the order in which they became dirty. None is dirty
    /// after it.
    pub fn begin_flush(&mut self) -> (dirty: Vec<(NodeGroupIdx, Direction)>)
        requires
            old(self).wf(),
        ensures
            final(self).wf(),
            dirty@ == old(self)@.dirty,
            final(self)@ == (EdgeTableView { dirty: Seq::empty(), ..old(self)@ }),
    {
        let mut dirty: Vec<(NodeGroupIdx, Direction)> = Vec::new();
        std::mem::swap(&mut dirty, &mut self.dirty_groups);
        assert(self@ =~= (EdgeTableView { dirty: Seq::empty(), ..old(self)@ }));
        dirty
    }

    /// The pages of a group, whose regions are clean after it. `None` where the group is too large
    /// to be written.
    pub fn flush_group(&mut self, idx: NodeGroupIdx, direction: Direction) -> (r: Option<
        Result<Vec<Page>, StorageError>,
    >)
        requires
            old(self).wf(),
        ensures
            final(self).wf(),
            ({
                let ranges = old(self)@.ranges(direction);
                match locate_idx(ranges, idx) {
                    Some((i, j)) => {
                        let g = ranges[i].1[j];
                        match r {
                            Some(Ok(pages)) => pages_view(pages@) == pages_of(g.encoding())
                                && g.encoding().len() <= usize::MAX && final(self)@ == old(
                                self,
                            )@.group_flushed(idx, direction),
                            Some(Err(_)) => false,
                            None => g.encoding().len() > usize::MAX && final(self)@ == old(self)@,
                        }
                    },
                    None => r matches Some(Err(e)) && e@ == lost_group(idx) && final(self)@ == old(
                        self,
                    )@,
                }
            }),
    {
        match direction {
            Direction::Forward => {
                let r = flush_in_ranges(&mut self.fwd_ranges, idx);
                assert(r is Some ==> self@ =~= old(self)@.group_flushed(idx, direction));
                r
            },
            Direction::Backward => {
                let r = flush_in_ranges(&mut self.bwd_ranges, idx);
                assert(r is Some ==> self@ =~= old(self)@.group_flushed(idx, direction));
                r
            },
        }
    }

    /// The pages to be written behind the first `first_page` pages of the data file: those of all dirty
    /// groups, which are noted as being there. `None` where a group is too large to be written, or the
    /// file would have too many pages.
    pub fn flush(&mut self, first_page: u64) -> (r: Option<Result<Vec<Page>, StorageError>>)
        requires
            old(self).wf(),
        ensures
            final(self).wf(),
            match r {
                Some(Ok(pages)) => forall|disk: Disk|
                    disk.len() == first_page ==> #[trigger] old(self)@.flush_outcome(disk) == Some(
                        Ok::<Flushed<EdgeTableView>, ErrorView>(
                            Flushed { table: final(self)@, disk: disk + pages_view(pages@) },
                        ),
                    ),
                Some(Err(e)) => forall|disk: Disk|
                    disk.len() == first_page ==> #[trigger] old(self)@.flush_outcome(disk) == Some(
                        Err::<Flushed<EdgeTableView>, ErrorView>(e@),
                    ),
                None => forall|disk: Disk|
                    disk.len() == first_page ==> #[trigger] old(self)@.flush_outcome(disk) is None,
            },
            r matches Some(Ok(pages)) ==> first_page + pages@.len() <= u64::MAX,
            final(self)@.alike(old(self)@),
            final(self)@.dirty == Seq::<(NodeGroupIdx, Direction)>::empty(),
    {
        let ghost t = old(self)@;
        let ghost c = EdgeTableView { dirty: Seq::empty(), ..t };
        let dirty = self.begin_flush();
        let mut out: Vec<Page> = Vec::new();
        assert forall|disk: Disk| disk.len() == first_page implies #[trigger] c.write_outcome(
            dirty@,
            0,
            disk,
        ) == Some(
            Ok::<Flushed<EdgeTableView>, ErrorView>(
                Flushed { table: self@, disk: disk + pages_view(out@) },
            ),
        ) by {
            assert(disk + pages_view(out@) =~= disk);
        }
        let mut i: usize = 0;
        while i < dirty.len()
            invariant
                self.wf(),
                i <= dirty@.len(),
                dirty@ == t.dirty,
                t == old(self)@,
                c == (EdgeTableView { dirty: Seq::empty(), ..t }),
                self@.alike(t),
                self@.dirty == Seq::<(NodeGroupIdx, Direction)>::empty(),
                first_page + out@.len() <= u64::MAX,
                forall|disk: Disk|
                    disk.len() == first_page ==> #[trigger] c.write_outcome(
                        dirty@,
                        i as nat,
                        disk,
                    ) == Some(
                        Ok::<Flushed<EdgeTableView>, ErrorView>(
                            Flushed { table: self@, disk: disk + pages_view(out@) },
                        ),
                    ),
            decreases dirty@.len() - i,
        {
            let (idx, direction) = dirty[i];
            let ghost before = self@;
            let ghost written = pages_view(out@);
            proof {
                edge_persistence::lemma_group_flushed_alike(before, idx, direction);
            }
            let r = self.flush_group(idx, direction);
            match r {
                Some(Ok(mut pages)) => {
                    let count: usize = pages.len();
                    let start: u64 = first_page + out.len() as u64;
                    let ghost added = pages_view(pages@);
                    if count > u32::MAX as usize || count as u64 > u64::MAX - start {
                        assert forall|disk: Disk| disk.len() == first_page implies
                            #[trigger] t.flush_outcome(disk) is None by {
                            lemma_flush_stops(t, c, dirty@, i as nat, disk, before, written);
                        }
                        return None;
                    }
                    let range = PageRange { start_page: PageIdx(start), num_pages: count as u32 };
                    self.upsert_page_info(idx, direction, range);
                    out.append(&mut pages);
                    assert(pages_view(out@) =~= written + added);
                    assert forall|disk: Disk| disk.len() == first_page implies
                        #[trigger] c.write_outcome(dirty@, (i + 1) as nat, disk) == Some(
                        Ok::<Flushed<EdgeTableView>, ErrorView>(
                            Flushed { table: self@, disk: disk + pages_view(out@) },
                        ),
                    ) by {
                        assert(c.write_outcome(dirty@, i as nat, disk) == Some(
                            Ok::<Flushed<EdgeTableView>, ErrorView>(
                                Flushed { table: before, disk: disk + written },
                            ),
                        ));
                        assert(disk + pages_view(out@) =~= (disk + written) + added);
                    }
                },
                Some(Err(e)) => {
                    assert forall|disk: Disk| disk.len() == first_page implies
                        #[trigger] t.flush_outcome(disk) == Some(
                        Err::<Flushed<EdgeTableView>, ErrorView>(e@),
                    ) by {
                        lemma_flush_stops(t, c, dirty@, i as nat, disk, before, written);
                    }
                    return Some(Err(e));
                },
                None => {
                    assert forall|disk: Disk| disk.len() == first_page implies
                        #[trigger] t.flush_outcome(disk) is None by {
                        lemma_flush_stops(t, c, dirty@, i as nat, disk, before, written);
                    }
                    return None;
                },
            }
            i = i + 1;
        }
        assert forall|disk: Disk| disk.len() == first_page implies #[trigger] t.flush_outcome(disk)
            == Some(
            Ok::<Flushed<EdgeTableView>, ErrorView>(
                Flushed { table: self@, disk: disk + pages_view(out@) },
            ),
        ) by {
            assert(c.write_outcome(dirty@, dirty@.len(), disk) == Some(
                Ok::<Flushed<EdgeTableView>, ErrorView>(
                    Flushed { table: self@, disk: disk + pages_view(out@) },
                ),
            ));
        }
        Some(Ok(out))
    }

    /// Notes the pages that a group was written to.
    pub fn upsert_page_info(&mut self, group_idx: NodeGroupIdx, direction: Direction, range: PageRange)
        ensures
            old(self).intact() ==> final(self).intact(),
            final(self)@ == old(self)@.with_page_info(group_idx, direction, range),
    {
        let ghost p = self@.info_of(group_idx, direction);
        let info = CSREdgeGroupPageInfo { group_idx, direction, page_range: range };
        let mut i: usize = 0;
        while i < self.page_infos.len()
            invariant
                *self == *old(self),
                info == (CSREdgeGroupPageInfo { group_idx, direction, page_range: range }),
                i <= self.page_infos@.len(),
                p == self@.info_of(group_idx, direction),
                forall|j: int| 0 <= j < i ==> !#[trigger] p(j),
            decreases self.page_infos@.len() - i,
        {
            if self.page_infos[i].group_idx.0 == group_idx.0 && self.page_infos[i].direction
                == direction {
                proof {
                    assert(p(i as int));
                    search::lemma_first_where_is(self@.page_infos.len(), p, i as int);
                }
                self.page_infos.set(i, info);
                assert(self@ =~= old(self)@.with_page_info(group_idx, direction, range));
                return;
            }
            i = i + 1;
        }
        proof {
            search::lemma_first_where_none(self@.page_infos.len(), p);
        }
        self.page_infos.push(info);
        assert(self@ =~= old(self)@.with_page_info(group_idx, direction, range));
    }

    /// Adds the group that pages hold.
    pub fn load_group(self, info: CSREdgeGroupPageInfo, pages: &[Page]) -> (r: Result<
        Self,
        StorageError,
    >)
        requires
            self.intact(),
            self@.load_group(info, concat(pages_view(pages@))) is Some,
        ensures
            match r {
                Ok(t) => t.intact() && self@.load_group(info, concat(pages_view(pages@))) == Some(
                    Ok::<EdgeTableView, ErrorView>(t@),
                ),
                Err(e) => self@.load_group(info, concat(pages_view(pages@))) == Some(
                    Err::<EdgeTableView, ErrorView>(e@),
                ),
            },
    {
        self.try_load_group(info, pages).unwrap()
    }

    /// Like [`EdgeTable::load_group`], for any pages: `None` where a length or an offset in them
    /// points outside of what it is in.
    pub fn try_load_group(self, info: CSREdgeGroupPageInfo, pages: &[Page]) -> (r: Option<
        Result<Self, StorageError>,
    >)
        requires
            self.intact(),
        ensures
            match r {
                Some(Ok(t)) => t.intact() && self@.load_group(info, concat(pages_view(pages@)))
                    == Some(Ok::<EdgeTableView, ErrorView>(t@)),
                Some(Err(e)) => self@.load_group(info, concat(pages_view(pages@))) == Some(
                    Err::<EdgeTableView, ErrorView>(e@),
                ),
                None => self@.load_group(info, concat(pages_view(pages@))) is None,
            },
    {
        let mut t = self;
        match CSREdgeGroup::try_deserialize_from_pages(
            info.direction,
            &t.schema,
            info.group_idx,
            pages,
        ) {
            Some(Ok(group)) => {
                match info.direction {
                    Direction::Forward => add_group(&mut t.fwd_ranges, group),
                    Direction::Backward => add_group(&mut t.bwd_ranges, group),
                }
                t.page_infos.push(info);
                assert(self@.load_group(info, concat(pages_view(pages@))) matches Some(Ok(v)) && v
                    =~= t@);
                Some(Ok(t))
            },
            Some(Err(e)) => Some(Err(e)),
            None => None,
        }
    }

    /// The table whose groups stand on pages: `pages[i]` are those of `page_infos[i]`.
    pub fn load(
        schema: EdgeTypeEntry,
        page_infos: Vec<CSREdgeGroupPageInfo>,
        pages: &Vec<Vec<Page>>,
    ) -> (r: Result<Self, StorageError>)
        requires
            pages@.len() == page_infos@.len(),
            EdgeTableView::load(
                schema@,
                page_infos@,
                blocks_view(pages@),
                page_infos@.len(),
            ) is Some,
        ensures
            ({
                let d = EdgeTableView::load(
                    schema@,
                    page_infos@,
                    blocks_view(pages@),
                    page_infos@.len(),
                );
                match r {
                    Ok(t) => t.intact() && d == Some(Ok::<EdgeTableView, ErrorView>(t@)),
                    Err(e) => d == Some(Err::<EdgeTableView, ErrorView>(e@)),
                }
            }),
    {
        Self::try_load(schema, page_infos, pages).unwrap()
    }

    /// Like [`EdgeTable::load`], for any pages.
    pub fn try_load(
        schema: EdgeTypeEntry,
        page_infos: Vec<CSREdgeGroupPageInfo>,
        pages: &Vec<Vec<Page>>,
    ) -> (r: Option<Result<Self, StorageError>>)
        requires
            pages@.len() == page_infos@.len(),
        ensures
            ({
                let d = EdgeTableView::load(
                    schema@,
                    page_infos@,
                    blocks_view(pages@),
                    page_infos@.len(),
                );
                match r {
                    Some(Ok(t)) => t.intact() && d == Some(Ok::<EdgeTableView, ErrorView>(t@)),
                    Some(Err(e)) => d == Some(Err::<EdgeTableView, ErrorView>(e@)),
                    None => d is None,
                }
            }),
    {
        let ghost sv = schema@;
        let ghost blocks = blocks_view(pages@);
        let n: usize = page_infos.len();
        let mut t = EdgeTable::new(schema);
        let mut i: usize = 0;
        while i < n
            invariant
                i <= n,
                n == page_infos@.len(),
                pages@.len() == n,
                sv == schema@,
                blocks == blocks_view(pages@),
                t.intact(),
                EdgeTableView::load(sv, page_infos@, blocks, i as nat) == Some(
                    Ok::<EdgeTableView, ErrorView>(t@),
                ),
            decreases n - i,
        {
            match t.try_load_group(page_infos[i], pages[i].as_slice()) {
                Some(Ok(next)) => {
                    t = next;
                },
                Some(Err(e)) => {
                    proof {
                        lemma_load_stuck(sv, page_infos@, blocks, (i + 1) as nat, n as nat);
                    }
                    return Some(Err(e));
                },
                None => {
                    proof {
                        lemma_load_stuck(sv, page_infos@, blocks, (i + 1) as nat, n as nat);
                    }
                    return None;
                },
            }
            i = i + 1;
        }
        Some(Ok(t))
    }
}

proof fn lemma_load_stuck(
    schema: EdgeTypeView,
    infos: Seq<CSREdgeGroupPageInfo>,
    blocks: Seq<Seq<u8>>,
    i: nat,
    n: nat,
)
    requires
        i <= n,
        !(EdgeTableView::load(schema, infos, blocks, i) matches Some(Ok(_))),
    ensures
        EdgeTableView::load(schema, infos, blocks, n) == EdgeTableView::load(
            schema,
            infos,
            blocks,
            i,
        ),
    decreases n - i,
{
    if i < n {
        lemma_load_stuck(schema, infos, blocks, i, (n - 1) as nat);
    }
}

proof fn lemma_ranges_groups_mono(ranges: Ranges, i: nat, n: nat)
    requires
        i <= n,
    ensures
        ranges_groups(ranges, i) <= ranges_groups(ranges, n),
    decreases n - i,
{
    if i < n {
        lemma_ranges_groups_mono(ranges, i, (n - 1) as nat);
    }
}

proof fn lemma_ranges_live_mono(ranges: Ranges, i: nat, n: nat)
    requires
        i <= n,
    ensures
        ranges_live(ranges, i) <= ranges_live(ranges, n),
    decreases n - i,
{
    if i < n {
        lemma_ranges_live_mono(ranges, i, (n - 1) as nat);
    }
}

proof fn lemma_groups_live_mono(groups: Seq<EdgeGroupView>, i: nat, n: nat)
    requires
        i <= n,
    ensures
        groups_live(groups, i) <= groups_live(groups, n),
    decreases n - i,
{
    if i < n {
        lemma_groups_live_mono(groups, i, (n - 1) as nat);
    }
}

fn are_sound(ranges: &OrderedMap<Vec<CSREdgeGroup>>) -> (b: bool)
    requires
        ranges.wf(),
        ranges_wf(ranges@),
    ensures
        b == ranges_sound(mapped(ranges@, range_view())),
{
    let ghost v = mapped(ranges@, range_view());
    proof {
        ranges.lemma_wf();
        ordered_map::lemma_mapped_sorted(ranges@, range_view());
    }
    let mut i: usize = 0;
    while i < ranges.len()
        invariant
            ranges.wf(),
            ranges_wf(ranges@),
            v == mapped(ranges@, range_view()),
            i <= ranges@.len(),
            forall|a: int, b: int|
                0 <= a < i && 0 <= b < v[a].1.len() ==> (#[trigger] v[a].1[b]).valid()
                    && v[a].1[b].sound(),
        decreases ranges@.len() - i,
    {
        let groups = ranges.value_at(i);
        assert(v[i as int] == (ranges@[i as int].0, edge_groups_view(groups@)));
        let mut j: usize = 0;
        while j < groups.len()
            invariant
                groups_wf(groups@),
                v == mapped(ranges@, range_view()),
                i < v.len(),
                v[i as int].1 == edge_groups_view(groups@),
                j <= groups@.len(),
                forall|b: int|
                    0 <= b < j ==> (#[trigger] v[i as int].1[b]).valid() && v[i as int].1[b].sound(),
            decreases groups@.len() - j,
        {
            assert(v[i as int].1[j as int] == groups@[j as int]@);
            proof {
                groups@[j as int].lemma_wf();
            }
            if !groups[j].is_sound() {
                return false;
            }
            j = j + 1;
        }
        i = i + 1;
    }
    true
}

/// Appends the references at an offset in all groups of a range.
fn append_refs(
    groups: &Vec<CSREdgeGroup>,
    offset: NodeOffset,
    type_id: LabelId,
    dir: Direction,
    out: &mut Vec<EdgeRef>,
)
    requires
        groups_wf(groups@),
        groups_sound(edge_groups_view(groups@)),
    ensures
        final(out)@ == old(out)@ + refs_of_groups(
            edge_groups_view(groups@),
            groups@.len(),
            offset,
            type_id,
            dir,
        ),
{
    let ghost v = edge_groups_view(groups@);
    let mut j: usize = 0;
    assert(old(out)@ + Seq::empty() =~= old(out)@);
    while j < groups.len()
        invariant
            groups_wf(groups@),
            v == edge_groups_view(groups@),
            groups_sound(v),
            j <= groups@.len(),
            out@ == old(out)@ + refs_of_groups(v, j as nat, offset, type_id, dir),
        decreases groups@.len() - j,
    {
        assert(v[j as int] == groups@[j as int]@);
        append_group_refs(&groups[j], offset, type_id, dir, out);
        assert(out@ =~= old(out)@ + refs_of_groups(v, (j + 1) as nat, offset, type_id, dir));
        j = j + 1;
    }
}

fn append_group_refs(
    group: &CSREdgeGroup,
    offset: NodeOffset,
    type_id: LabelId,
    dir: Direction,
    out: &mut Vec<EdgeRef>,
)
    requires
        group.wf(),
        group@.sound(),
    ensures
        final(out)@ == old(out)@ + refs_of_rows(
            group@,
            group@.found(offset),
            group@.found(offset).len(),
            type_id,
            dir,
        ),
{
    let rows = group.find_edges(offset).collect();
    let mut i: usize = 0;
    assert(old(out)@ + Seq::empty() =~= old(out)@);
    while i < rows.len()
        invariant
            group.wf(),
            rows@ == group@.found(offset),
            i <= rows@.len(),
            out@ == old(out)@ + refs_of_rows(group@, rows@, i as nat, type_id, dir),
        decreases rows@.len() - i,
    {
        if let Ok(Some(record)) = group.get_row(rows[i]) {
            let neighbor = match dir {
                Direction::Forward => record.to,
                Direction::Backward => record.from,
            };
            out.push(EdgeRef { edge_id: record.edge_id, type_id, neighbor });
        }
        assert(out@ =~= old(out)@ + refs_of_rows(group@, rows@, (i + 1) as nat, type_id, dir));
        i = i + 1;
    }
}

/// `start` and the live rows of all groups of a range; `None` where these are too many.
fn count_groups(groups: &Vec<CSREdgeGroup>, start: u64) -> (r: Option<u64>)
    ensures
        match r {
            Some(n) => n == start + groups_live(edge_groups_view(groups@), groups@.len()),
            None => start + groups_live(edge_groups_view(groups@), groups@.len()) > u64::MAX,
        },
{
    let ghost v = edge_groups_view(groups@);
    let mut n: u64 = start;
    let mut j: usize = 0;
    while j < groups.len()
        invariant
            v == edge_groups_view(groups@),
            j <= groups@.len(),
            n == start + groups_live(v, j as nat),
        decreases groups@.len() - j,
    {
        assert(v[j as int] == groups@[j as int]@);
        proof {
            lemma_groups_live_mono(v, (j + 1) as nat, groups@.len());
        }
        match n.checked_add(groups[j].num_live_rows()) {
            Some(sum) => {
                n = sum;
            },
            None => {
                return None;
            },
        }
        j = j + 1;
    }
    Some(n)
}

fn append_groups_records(groups: &Vec<CSREdgeGroup>, records: &mut Vec<CSREdgeRecord>)
    requires
        groups_wf(groups@),
    ensures
        records_view(final(records)@) == records_view(old(records)@) + groups_records(
            edge_groups_view(groups@),
            groups@.len(),
        ),
{
    let ghost start = records_view(records@);
    let ghost v = edge_groups_view(groups@);
    let mut j: usize = 0;
    assert(start + Seq::empty() =~= start);
    while j < groups.len()
        invariant
            groups_wf(groups@),
            v == edge_groups_view(groups@),
            j <= groups@.len(),
            records_view(records@) == start + groups_records(v, j as nat),
        decreases groups@.len() - j,
    {
        assert(v[j as int] == groups@[j as int]@);
        append_group_records(&groups[j], records);
        assert(records_view(records@) =~= start + groups_records(v, (j + 1) as nat));
        j = j + 1;
    }
}

fn append_group_records(group: &CSREdgeGroup, records: &mut Vec<CSREdgeRecord>)
    requires
        group.wf(),
    ensures
        records_view(final(records)@) == records_view(old(records)@) + group_records(
            group@,
            group@.len(),
        ),
{
    let ghost start = records_view(records@);
    let num_rows: u64 = group.num_rows();
    let mut row: u64 = 0;
    assert(start + Seq::empty() =~= start);
    while row < num_rows
        invariant
            row <= num_rows,
            num_rows == group@.len(),
            group.wf(),
            records_view(records@) == start + group_records(group@, row as nat),
        decreases num_rows - row,
    {
        let ghost before = records@;
        if let Ok(Some(record)) = group.get_row(row) {
            records.push(record);
            assert(records_view(records@) =~= records_view(before).push(record@));
        }
        assert(records_view(records@) =~= start + group_records(group@, (row + 1) as nat));
        row = row + 1;
    }
}

/// The place of the first group of an index.
fn find_idx_in_groups(groups: &Vec<CSREdgeGroup>, idx: NodeGroupIdx) -> (r: Option<usize>)
    ensures
        match r {
            Some(j) => j < groups@.len() && first_where(
                groups@.len(),
                group_is(edge_groups_view(groups@), idx),
            ) == Some(j as int),
            None => first_where(
                groups@.len(),
                group_is(edge_groups_view(groups@), idx),
            ) is None,
        },
{
    let ghost v = edge_groups_view(groups@);
    let ghost p = group_is(v, idx);
    let mut j: usize = 0;
    while j < groups.len()
        invariant
            v == edge_groups_view(groups@),
            p == group_is(v, idx),
            j <= groups@.len(),
            forall|a: int| 0 <= a < j ==> !#[trigger] p(a),
        decreases groups@.len() - j,
    {
        assert(v[j as int] == groups@[j as int]@);
        if groups[j].group_idx().0 == idx.0 {
            proof {
                assert(p(j as int));
                search::lemma_first_where_is(v.len(), p, j as int);
            }
            return Some(j);
        }
        j = j + 1;
    }
    proof {
        search::lemma_first_where_none(v.len(), p);
    }
    None
}

/// The place of the first range and group of an index.
fn find_idx_in_ranges(ranges: &OrderedMap<Vec<CSREdgeGroup>>, idx: NodeGroupIdx) -> (r: Option<
    (usize, usize),
>)
    requires
        ranges.wf(),
    ensures
        match r {
            Some((i, j)) => {
                &&& locate_idx(mapped(ranges@, range_view()), idx) == Some((i as int, j as int))
                &&& i < ranges@.len()
                &&& j < ranges@[i as int].1@.len()
            },
            None => locate_idx(mapped(ranges@, range_view()), idx) is None,
        },
{
    let ghost v = mapped(ranges@, range_view());
    let ghost p = range_is(v, idx);
    let mut i: usize = 0;
    while i < ranges.len()
        invariant
            ranges.wf(),
            v == mapped(ranges@, range_view()),
            p == range_is(v, idx),
            i <= ranges@.len(),
            forall|a: int| 0 <= a < i ==> !#[trigger] p(a),
        decreases ranges@.len() - i,
    {
        assert(v[i as int] == (ranges@[i as int].0, edge_groups_view(ranges@[i as int].1@)));
        match find_idx_in_groups(ranges.value_at(i), idx) {
            Some(j) => {
                proof {
                    assert(p(i as int));
                    search::lemma_first_where_is(v.len(), p, i as int);
                }
                return Some((i, j));
            },
            None => {},
        }
        i = i + 1;
    }
    proof {
        search::lemma_first_where_none(v.len(), p);
    }
    None
}

fn clear_in_groups(groups: &mut Vec<CSREdgeGroup>, j: usize)
    requires
        groups_wf(old(groups)@),
        j < old(groups)@.len(),
    ensures
        groups_wf(final(groups)@),
        edge_groups_view(final(groups)@) == edge_groups_view(old(groups)@).update(
            j as int,
            EdgeGroupView { dirty: 0, ..old(groups)@[j as int]@ },
        ),
{
    let ghost v = edge_groups_view(groups@);
    groups[j].clear_dirty_regions();
    assert(edge_groups_view(groups@) =~= v.update(
        j as int,
        EdgeGroupView { dirty: 0, ..old(groups)@[j as int]@ },
    ));
}

fn flush_in_ranges(ranges: &mut OrderedMap<Vec<CSREdgeGroup>>, idx: NodeGroupIdx) -> (r: Option<
    Result<Vec<Page>, StorageError>,
>)
    requires
        old(ranges).wf(),
        ranges_wf(old(ranges)@),
        ranges_sound(mapped(old(ranges)@, range_view())),
    ensures
        final(ranges).wf(),
        ranges_wf(final(ranges)@),
        ranges_sound(mapped(final(ranges)@, range_view())),
        ({
            let v = mapped(old(ranges)@, range_view());
            let w = mapped(final(ranges)@, range_view());
            match locate_idx(v, idx) {
                Some((i, j)) => {
                    let g = v[i].1[j];
                    match r {
                        Some(Ok(pages)) => pages_view(pages@) == pages_of(g.encoding())
                            && g.encoding().len() <= usize::MAX && w == with_group(
                            v,
                            i,
                            j,
                            EdgeGroupView { dirty: 0, ..g },
                        ),
                        Some(Err(_)) => false,
                        None => g.encoding().len() > usize::MAX && w == v,
                    }
                },
                None => r matches Some(Err(e)) && e@ == lost_group(idx) && w == v,
            }
        }),
{
    let ghost s = ranges@;
    let ghost f = range_view();
    let ghost v = mapped(s, f);
    match find_idx_in_ranges(ranges, idx) {
        Some((i, j)) => {
            proof {
                assert(v[i as int] == (s[i as int].0, edge_groups_view(s[i as int].1@)));
                assert(v[i as int].1[j as int] == s[i as int].1@[j as int]@);
                assert(groups_wf(s[i as int].1@));
            }
            match ranges.value_at(i)[j].try_serialize_to_pages() {
                Some(pages) => {
                    clear_in_groups(ranges.value_at_mut(i), j);
                    proof {
                        ordered_map::lemma_mapped_update(s, f, i as int, ranges@[i as int].1);
                        lemma_clear_sound(v, i as int, j as int);
                        assert forall|a: int| 0 <= a < ranges@.len() implies groups_wf(
                            (#[trigger] ranges@[a]).1@,
                        ) by {
                            if a != i {
                                assert(ranges@[a] == s[a]);
                            }
                        }
                    }
                    Some(Ok(pages))
                },
                None => None,
            }
        },
        None => {
            let mut msg = String::new();
            msg.append("group ");
            push_decimal(&mut msg, idx.0 as u128);
            msg.append(" not found during flush");
            assert(msg@ =~= "group "@ + decimal(idx.0 as nat) + " not found during flush"@);
            Some(Err(StorageError::SerDe(msg)))
        },
    }
}

proof fn lemma_clear_sound(ranges: Ranges, i: int, j: int)
    requires
        ranges_sound(ranges),
        0 <= i < ranges.len(),
        0 <= j < ranges[i].1.len(),
    ensures
        ranges_sound(with_group(ranges, i, j, EdgeGroupView { dirty: 0, ..ranges[i].1[j] })),
{
    let g = EdgeGroupView { dirty: 0, ..ranges[i].1[j] };
    let groups = ranges[i].1.update(j, g);
    lemma_range_sound(ranges, i);
    assert(groups_sound(groups)) by {
        assert(ranges[i].1[j].valid() && ranges[i].1[j].sound());
        assert forall|a: int| 0 <= a < groups.len() implies (#[trigger] groups[a]).valid()
            && groups[a].sound() by {
            if a != j {
                assert(groups[a] == ranges[i].1[a]);
            }
        }
    }
    ordered_map::lemma_rank_at(ranges, i);
    assert(with_group(ranges, i, j, g) =~= put(ranges, ranges[i].0, groups));
    lemma_put_sound(ranges, ranges[i].0, groups);
}

/// Adds a group to the range of its first offset.
fn add_group(ranges: &mut OrderedMap<Vec<CSREdgeGroup>>, group: CSREdgeGroup)
    requires
        old(ranges).wf(),
        ranges_wf(old(ranges)@),
        group.wf(),
    ensures
        final(ranges).wf(),
        ranges_wf(final(ranges)@),
        ({
            let v = mapped(old(ranges)@, range_view());
            let k = range_of(group@.offset_base);
            mapped(final(ranges)@, range_view()) == put(v, k, groups_of(v, k).push(group@))
        }),
{
    let ghost s = ranges@;
    let ghost f = range_view();
    let ghost v = mapped(s, f);
    let ghost gv = group@;
    let k: u64 = group.offset_base() / StorageConfig::NODE_GROUP_SIZE;
    proof {
        ranges.lemma_wf();
        ordered_map::lemma_mapped_rank(s, f, k);
    }
    match ranges.find(k) {
        Some(i) => {
            assert(v[i as int] == (k, edge_groups_view(s[i as int].1@)));
            assert(groups_wf(s[i as int].1@));
            ranges.value_at_mut(i).push(group);
            proof {
                let groups = ranges@[i as int].1;
                assert(edge_groups_view(groups@) =~= edge_groups_view(s[i as int].1@).push(gv));
                ordered_map::lemma_mapped_update(s, f, i as int, groups);
                assert forall|a: int| 0 <= a < ranges@.len() implies groups_wf(
                    (#[trigger] ranges@[a]).1@,
                ) by {
                    if a != i {
                        assert(ranges@[a] == s[a]);
                    }
                }
            }
        },
        None => {
            let mut groups: Vec<CSREdgeGroup> = Vec::new();
            groups.push(group);
            assert(edge_groups_view(groups@) =~= Seq::empty().push(gv));
            ranges.insert(k, groups);
            proof {
                ordered_map::lemma_mapped_put(s, f, k, groups);
                lemma_put_wf(s, k, groups);
            }
        },
    }
}

} // verus!
