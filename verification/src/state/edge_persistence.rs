//! What is read from an edge table after its groups were written to disk and loaded from there.
//!
//! A group is found by its index, which is that of its range. So what is stated here is about tables
//! in which no range has more than one group of a direction.
//!
//! An edge that is refused can leave values behind the last row of a group, or a group without rows,
//! which is not noted as a change to be written. So a group on disk can differ from the one in memory
//! in that, and is then one that the same edges are read from.

use vstd::prelude::*;

use crate::catalog::EdgeTypeView;
use crate::error::ErrorView;
use crate::io::codec::{concat, Decoded};
use crate::io::page;
use crate::io::page::{appended_range, block_at, extends, on_disk, pages_of, Disk};
use crate::ordered_map;
use crate::ordered_map::{has_key, lookup, put, sorted};
use crate::search;
use crate::search::first_where;
use crate::state::edge_laws;
use crate::state::edge_laws::{
    absent, edge_at, group_ok, groups_ok, once, paired, places, ranges_ok, read_in, refs_in,
};
use crate::state::edge_table::{
    active_idx, delete_in, group_is, group_records, groups_live, groups_of, groups_records, insert_in,
    locate, locate_idx, lost_group, range_is, range_of, ranges_live, ranges_records, ref_at,
    refs_of_groups, with_active_group, with_dirty, with_group,
    CSREdgeGroupPageInfo, EdgeTableView, Ranges,
};
use crate::state::node_persistence::Flushed;
use crate::table::edge;
use crate::table::edge::EdgeGroupView;
use crate::table::row;
use crate::table::row::RowView;
use crate::types::{
    ColumnId, DataType, Direction, EdgeId, LabelId, NodeGroupIdx, NodeId, PageRange,
};

verus! {

impl EdgeGroupView {
    /// The group with no region dirty.
    pub open spec fn clean(self) -> EdgeGroupView {
        EdgeGroupView { dirty: 0, ..self }
    }

    /// The lengths, and the number of pages, can be written.
    pub open spec fn storable(self) -> bool {
        self.fits() && pages_of(self.encoding()).len() <= u32::MAX
    }
}

pub open spec fn clean_groups(groups: Seq<EdgeGroupView>) -> Seq<EdgeGroupView> {
    Seq::new(groups.len(), |j: int| groups[j].clean())
}

/// The groups of all ranges with no region dirty.
pub open spec fn clean_ranges(ranges: Ranges) -> Ranges {
    Seq::new(ranges.len(), |i: int| (ranges[i].0, clean_groups(ranges[i].1)))
}

/// No range has more than one group.
pub open spec fn single(ranges: Ranges) -> bool {
    forall|i: int| 0 <= i < ranges.len() ==> (#[trigger] ranges[i]).1.len() == 1
}

pub open spec fn ranges_storable(ranges: Ranges) -> bool {
    forall|i: int| 0 <= i < ranges.len() ==> (#[trigger] ranges[i]).1[0].storable()
}

pub open spec fn info_is(
    infos: Seq<CSREdgeGroupPageInfo>,
    idx: NodeGroupIdx,
    direction: Direction,
) -> spec_fn(int) -> bool {
    |i: int| infos[i].group_idx == idx && infos[i].direction == direction
}

/// The pages noted for a group.
pub open spec fn noted(
    infos: Seq<CSREdgeGroupPageInfo>,
    n: nat,
    idx: NodeGroupIdx,
    direction: Direction,
) -> Option<PageRange> {
    match first_where(n, info_is(infos, idx, direction)) {
        Some(i) => Some(infos[i].page_range),
        None => None,
    }
}

/// Pages are noted at most once for a group.
pub open spec fn distinct(infos: Seq<CSREdgeGroupPageInfo>) -> bool {
    forall|i: int, j: int|
        0 <= i < j < infos.len() ==> (#[trigger] infos[i]).group_idx != (
        #[trigger] infos[j]).group_idx || infos[i].direction != infos[j].direction
}

/// The groups have the same rows; they can differ in what is dirty and in values behind the last row.
pub open spec fn kin(h: EdgeGroupView, g: EdgeGroupView) -> bool {
    &&& h == (EdgeGroupView { columns: h.columns, dirty: h.dirty, ..g })
    &&& h.columns.len() == g.columns.len()
    &&& forall|i: int|
        0 <= i < h.columns.len() ==> (#[trigger] h.columns[i]).valid() && h.columns[i].len()
            >= h.len() && h.columns[i].column_id == g.columns[i].column_id
            && h.columns[i].data_type == g.columns[i].data_type
    &&& forall|i: int, row: int|
        0 <= i < h.columns.len() && 0 <= row < h.len() ==> #[trigger] h.columns[i].value(row)
            == g.columns[i].value(row)
    &&& g.even() ==> h.even()
}

/// The block holds a group that has the same rows.
pub open spec fn stored_as(block: Seq<u8>, h: EdgeGroupView, g: EdgeGroupView) -> bool {
    h.storable() && kin(h, g) && block == concat(pages_of(h.encoding()))
}

/// The pages hold the rows of the group.
pub open spec fn holds_group(disk: Disk, range: PageRange, g: EdgeGroupView) -> bool {
    on_disk(disk, range) && exists|h: EdgeGroupView| #[trigger]
        stored_as(block_at(disk, range), h, g)
}

/// The blocks that some ranges of pages hold.
pub open spec fn edge_blocks(disk: Disk, infos: Seq<CSREdgeGroupPageInfo>) -> Seq<Seq<u8>> {
    Seq::new(infos.len(), |i: int| block_at(disk, infos[i].page_range))
}

impl EdgeTableView {
    /// A group is appended to the file, its regions are clean, and its pages are noted.
    pub open spec fn write_group(
        self,
        idx: NodeGroupIdx,
        direction: Direction,
        disk: Disk,
    ) -> Flushed<EdgeTableView> {
        let ranges = self.ranges(direction);
        match locate_idx(ranges, idx) {
            Some((i, j)) => {
                let pages = pages_of(ranges[i].1[j].encoding());
                Flushed {
                    table: self.group_flushed(idx, direction).with_page_info(
                        idx,
                        direction,
                        appended_range(disk, pages),
                    ),
                    disk: disk + pages,
                }
            },
            None => Flushed { table: self, disk },
        }
    }

    /// The first `n` of some groups are written one after the other.
    pub open spec fn write_groups(
        self,
        idxs: Seq<(NodeGroupIdx, Direction)>,
        n: nat,
        disk: Disk,
    ) -> Flushed<EdgeTableView>
        decreases n,
    {
        if n == 0 {
            Flushed { table: self, disk }
        } else {
            let f = self.write_groups(idxs, (n - 1) as nat, disk);
            f.table.write_group(idxs[n - 1].0, idxs[n - 1].1, f.disk)
        }
    }

    /// All dirty groups are written, in the order in which they became dirty.
    pub open spec fn flush(self, disk: Disk) -> Flushed<EdgeTableView> {
        (EdgeTableView { dirty: Seq::empty(), ..self }).write_groups(
            self.dirty,
            self.dirty.len(),
            disk,
        )
    }

    /// What writing the first `n` of some groups one after the other gives. `None` where a group is too
    /// large, or the file would have too many pages.
    pub open spec fn write_outcome(
        self,
        idxs: Seq<(NodeGroupIdx, Direction)>,
        n: nat,
        disk: Disk,
    ) -> Decoded<Flushed<EdgeTableView>>
        decreases n,
    {
        if n == 0 {
            Some(Ok(Flushed { table: self, disk }))
        } else {
            match self.write_outcome(idxs, (n - 1) as nat, disk) {
                Some(Ok(f)) => {
                    let (idx, direction) = idxs[n - 1];
                    let ranges = f.table.ranges(direction);
                    match locate_idx(ranges, idx) {
                        Some((i, j)) => {
                            let encoding = ranges[i].1[j].encoding();
                            let count = pages_of(encoding).len();
                            if encoding.len() <= usize::MAX && count <= u32::MAX && f.disk.len()
                                + count <= u64::MAX {
                                Some(Ok(f.table.write_group(idx, direction, f.disk)))
                            } else {
                                None
                            }
                        },
                        None => Some(Err(lost_group(idx))),
                    }
                },
                r => r,
            }
        }
    }

    /// What writing all dirty groups gives.
    pub open spec fn flush_outcome(self, disk: Disk) -> Decoded<Flushed<EdgeTableView>> {
        (EdgeTableView { dirty: Seq::empty(), ..self }).write_outcome(
            self.dirty,
            self.dirty.len(),
            disk,
        )
    }

    /// The group of a range.
    pub open spec fn group(self, idx: NodeGroupIdx, direction: Direction) -> EdgeGroupView {
        groups_of(self.ranges(direction), idx.0)[0]
    }

    pub open spec fn has_range(self, idx: NodeGroupIdx, direction: Direction) -> bool {
        has_key(self.ranges(direction), idx.0)
    }

    /// A group that has pages is on them unless it is dirty, and a group without pages is dirty or has
    /// no rows.
    pub open spec fn filed_at(self, idx: NodeGroupIdx, direction: Direction, disk: Disk) -> bool {
        let range = noted(self.page_infos, self.page_infos.len(), idx, direction);
        let dirty = self.dirty.contains((idx, direction));
        &&& range is Some || dirty ==> self.has_range(idx, direction)
        &&& self.has_range(idx, direction) ==> range is Some || dirty || self.group(
            idx,
            direction,
        ).len() == 0
        &&& range is Some && !dirty ==> holds_group(
            disk,
            range->Some_0,
            self.group(idx, direction),
        )
    }

    /// No range has more than one group of a direction, and every group is dirty or on the pages
    /// noted for it.
    pub open spec fn filed(self, disk: Disk) -> bool {
        &&& single(self.fwd)
        &&& single(self.bwd)
        &&& distinct(self.page_infos)
        &&& forall|idx: NodeGroupIdx, direction: Direction| #[trigger]
            self.filed_at(idx, direction, disk)
    }

    pub open spec fn storable(self) -> bool {
        ranges_storable(self.fwd) && ranges_storable(self.bwd)
    }
}

proof fn lemma_write_outcome(
    t: EdgeTableView,
    idxs: Seq<(NodeGroupIdx, Direction)>,
    n: nat,
    disk: Disk,
)
    ensures
        t.write_outcome(idxs, n, disk) matches Some(Ok(f)) ==> f == t.write_groups(idxs, n, disk)
            && (disk.len() <= u64::MAX ==> f.disk.len() <= u64::MAX),
    decreases n,
{
    if n > 0 {
        lemma_write_outcome(t, idxs, (n - 1) as nat, disk);
    }
}

/// Where flushing succeeds, all dirty groups were written.
pub proof fn law_flush_outcome(t: EdgeTableView, disk: Disk)
    ensures
        t.flush_outcome(disk) matches Some(Ok(f)) ==> f == t.flush(disk) && (disk.len() <= u64::MAX
            ==> f.disk.len() <= u64::MAX),
{
    lemma_write_outcome(
        EdgeTableView { dirty: Seq::empty(), ..t },
        t.dirty,
        t.dirty.len(),
        disk,
    );
}

/// Where a group cannot be written, none behind it is.
pub proof fn lemma_outcome_stuck(
    t: EdgeTableView,
    idxs: Seq<(NodeGroupIdx, Direction)>,
    i: nat,
    n: nat,
    disk: Disk,
)
    requires
        i <= n,
        !(t.write_outcome(idxs, i, disk) matches Some(Ok(_))),
    ensures
        t.write_outcome(idxs, n, disk) == t.write_outcome(idxs, i, disk),
    decreases n - i,
{
    if i < n {
        lemma_outcome_stuck(t, idxs, i, (n - 1) as nat, disk);
    }
}

/// Clearing the dirty regions of a group changes nothing else.
pub proof fn lemma_group_flushed_alike(t: EdgeTableView, idx: NodeGroupIdx, direction: Direction)
    ensures
        t.group_flushed(idx, direction).alike(t),
        t.group_flushed(idx, direction).dirty == t.dirty,
        t.group_flushed(idx, direction).page_infos == t.page_infos,
{
    let ranges = t.ranges(direction);
    let p = range_is(ranges, idx);
    search::lemma_first_where(ranges.len(), p);
    match locate_idx(ranges, idx) {
        Some((at, j)) => {
            assert(p(at));
            let q = group_is(ranges[at].1, idx);
            search::lemma_first_where(ranges[at].1.len(), q);
            let after = with_group(ranges, at, j, ranges[at].1[j].clean());
            assert(clean_ranges(after) =~= clean_ranges(ranges)) by {
                assert forall|i: int| 0 <= i < ranges.len() implies #[trigger] clean_ranges(
                    after,
                )[i] == clean_ranges(ranges)[i] by {
                    if i == at {
                        assert(clean_groups(after[i].1) =~= clean_groups(ranges[i].1));
                    }
                }
            }
        },
        None => {},
    }
}

// ---------------------------------------------------------------------------------------------
// Notes of pages

proof fn lemma_noted(
    infos: Seq<CSREdgeGroupPageInfo>,
    n: nat,
    idx: NodeGroupIdx,
    direction: Direction,
)
    requires
        distinct(infos),
        n <= infos.len(),
    ensures
        match first_where(n, info_is(infos, idx, direction)) {
            Some(i) => 0 <= i < n && infos[i].group_idx == idx && infos[i].direction == direction
                && noted(infos, n, idx, direction) == Some(infos[i].page_range),
            None => noted(infos, n, idx, direction) is None && forall|i: int|
                0 <= i < n ==> (#[trigger] infos[i]).group_idx != idx || infos[i].direction
                    != direction,
        },
{
    let p = info_is(infos, idx, direction);
    search::lemma_first_where(n, p);
    match first_where(n, p) {
        Some(i) => {
            assert(p(i));
        },
        None => {
            assert forall|i: int| 0 <= i < n implies (#[trigger] infos[i]).group_idx != idx
                || infos[i].direction != direction by {
                assert(!p(i));
            }
        },
    }
}

/// The pages of an entry are those noted for its group.
proof fn lemma_noted_at(infos: Seq<CSREdgeGroupPageInfo>, i: int)
    requires
        distinct(infos),
        0 <= i < infos.len(),
    ensures
        noted(infos, infos.len(), infos[i].group_idx, infos[i].direction) == Some(
            infos[i].page_range,
        ),
{
    let p = info_is(infos, infos[i].group_idx, infos[i].direction);
    assert forall|j: int| 0 <= j < i implies !#[trigger] p(j) by {
        assert(infos[j].group_idx != infos[i].group_idx || infos[j].direction
            != infos[i].direction);
    }
    search::lemma_first_where_is(infos.len(), p, i);
}

/// Noting pages of a group changes what is noted for no other.
proof fn lemma_with_page_info(
    t: EdgeTableView,
    idx: NodeGroupIdx,
    direction: Direction,
    range: PageRange,
)
    requires
        distinct(t.page_infos),
    ensures
        ({
            let infos = t.with_page_info(idx, direction, range).page_infos;
            &&& distinct(infos)
            &&& forall|idx2: NodeGroupIdx, direction2: Direction| #[trigger]
                noted(infos, infos.len(), idx2, direction2) == if idx2 == idx && direction2
                    == direction {
                    Some(range)
                } else {
                    noted(t.page_infos, t.page_infos.len(), idx2, direction2)
                }
        }),
{
    let old_infos = t.page_infos;
    let infos = t.with_page_info(idx, direction, range).page_infos;
    let info = CSREdgeGroupPageInfo { group_idx: idx, direction, page_range: range };
    let p = t.info_of(idx, direction);
    search::lemma_first_where(old_infos.len(), p);
    let at = match first_where(old_infos.len(), p) {
        Some(i) => i,
        None => old_infos.len() as int,
    };
    if at < old_infos.len() {
        assert(p(at));
        assert(infos == old_infos.update(at, info));
    } else {
        assert(infos == old_infos.push(info));
    }
    assert(distinct(infos)) by {
        assert forall|i: int, j: int| 0 <= i < j < infos.len() implies (
        #[trigger] infos[i]).group_idx != (#[trigger] infos[j]).group_idx || infos[i].direction
            != infos[j].direction by {
            if at == old_infos.len() && j == at {
                assert(!p(i));
            } else {
                assert(old_infos[i].group_idx != old_infos[j].group_idx || old_infos[i].direction
                    != old_infos[j].direction);
            }
        }
    }
    assert forall|idx2: NodeGroupIdx, direction2: Direction| #[trigger]
        noted(infos, infos.len(), idx2, direction2) == if idx2 == idx && direction2 == direction {
            Some(range)
        } else {
            noted(old_infos, old_infos.len(), idx2, direction2)
        } by {
        if idx2 == idx && direction2 == direction {
            assert(infos[at] == info);
            lemma_noted_at(infos, at);
        } else {
            lemma_noted(old_infos, old_infos.len(), idx2, direction2);
            lemma_noted(infos, infos.len(), idx2, direction2);
            match first_where(old_infos.len(), info_is(old_infos, idx2, direction2)) {
                Some(i) => {
                    assert(i != at);
                    assert(infos[i] == old_infos[i]);
                    lemma_noted_at(infos, i);
                },
                None => {
                    match first_where(infos.len(), info_is(infos, idx2, direction2)) {
                        Some(i) => {
                            assert(i != at);
                            assert(infos[i] == old_infos[i]);
                        },
                        None => {},
                    }
                },
            }
        }
    }
}

// ---------------------------------------------------------------------------------------------
// Clean groups

/// Groups that differ at most in which regions are dirty are alike in all else.
proof fn lemma_alike(
    a: EdgeGroupView,
    b: EdgeGroupView,
    k: u64,
    direction: Direction,
    schema: Seq<(ColumnId, DataType)>,
)
    requires
        a.clean() == b.clean(),
        group_ok(a, k, direction, schema),
    ensures
        group_ok(b, k, direction, schema),
        kin(b, a),
        b.encoding() == a.encoding(),
        b.storable() == a.storable(),
        forall|row: u64| #[trigger] b.read(row) == a.read(row),
        forall|offset: u64| #[trigger] b.found(offset) == a.found(offset),
{
    reveal(EdgeGroupView::head);
    assert(a.edge_ids == b.edge_ids && a.deleted == b.deleted && a.index == b.index && a.columns
        == b.columns && a.from_ids == b.from_ids && a.to_ids == b.to_ids) by {
        assert(a.clean().edge_ids == b.clean().edge_ids);
        assert(a.clean().deleted == b.clean().deleted);
        assert(a.clean().index == b.clean().index);
        assert(a.clean().columns == b.clean().columns);
        assert(a.clean().from_ids == b.clean().from_ids);
        assert(a.clean().to_ids == b.clean().to_ids);
    }
    assert(a.group_idx == b.group_idx && a.offset_base == b.offset_base && a.direction
        == b.direction) by {
        assert(a.clean().group_idx == b.clean().group_idx);
        assert(a.clean().offset_base == b.clean().offset_base);
        assert(a.clean().direction == b.clean().direction);
    }
    assert(b.counts() == a.counts());
    assert forall|row: u64, i: int| #[trigger] b.lists_row(row)(i) == a.lists_row(row)(i) by {}
    assert forall|row: u64| #[trigger] b.listed(row) == a.listed(row) by {
        if a.listed(row) {
            let i = choose|i: int| 0 <= i < a.index.len() && #[trigger] a.lists_row(row)(i);
            assert(b.lists_row(row)(i));
        }
        if b.listed(row) {
            let i = choose|i: int| 0 <= i < b.index.len() && #[trigger] b.lists_row(row)(i);
            assert(a.lists_row(row)(i));
        }
    }
    assert forall|row: u64| #[trigger] b.live(row) <==> b.listed(row) by {
        assert(a.live(row) <==> a.listed(row));
        assert(b.live(row) == a.live(row));
    }
    assert forall|row: u64, i: int, j: int|
        0 <= i < b.index.len() && 0 <= j < b.index.len() && #[trigger] b.lists_row(row)(i)
            && #[trigger] b.lists_row(row)(j) implies i == j by {
        assert(a.lists_row(row)(i) && a.lists_row(row)(j));
    }
}

/// Groups with the same rows are read alike.
proof fn lemma_kin(
    h: EdgeGroupView,
    g: EdgeGroupView,
    k: u64,
    direction: Direction,
    schema: Seq<(ColumnId, DataType)>,
)
    requires
        kin(h, g),
        group_ok(g, k, direction, schema),
    ensures
        group_ok(h, k, direction, schema),
        kin(h.clean(), g),
        group_ok(h.clean(), k, direction, schema),
        forall|row: u64| #[trigger] h.read(row) == g.read(row),
        forall|offset: u64| #[trigger] h.found(offset) == g.found(offset),
{
    edge::lemma_same_index_regular(g, h);
    edge::lemma_same_index_regular(g, h.clean());
    assert forall|i: int| 0 <= i < h.columns.len() implies (#[trigger] h.columns[i]).column_id
        == schema[i].0 && h.columns[i].data_type == schema[i].1 by {
        assert(g.columns[i].column_id == schema[i].0);
    }
    assert forall|row: u64| #[trigger] h.read(row) == g.read(row) by {
        edge::lemma_same_rows_read(g, h, row);
    }
}

/// A group keeps its rows when an edge is refused.
proof fn lemma_kin_refused(
    h: EdgeGroupView,
    g: EdgeGroupView,
    s: EdgeGroupView,
    offset: u64,
    edge_id: EdgeId,
    from: NodeId,
    to: NodeId,
    values: RowView,
)
    requires
        kin(h, g),
        g.regular(),
        g.insert(offset, edge_id, from, to, values).result is Err,
        s == g.insert(offset, edge_id, from, to, values).state,
    ensures
        kin(h, s),
{
    let n = g.columns.len();
    edge::law_refused_edge(g, offset, edge_id, from, to, values, 0);
    row::lemma_append_keeps_rows(g.columns, values, n);
    assert forall|i: int| 0 <= i < h.columns.len() implies (#[trigger] h.columns[i]).valid()
        && h.columns[i].len() >= h.len() && h.columns[i].column_id == s.columns[i].column_id
        && h.columns[i].data_type == s.columns[i].data_type by {
        row::lemma_append_keeps_kind(g.columns, values, n, i);
    }
    assert forall|i: int, row: int|
        0 <= i < h.columns.len() && 0 <= row < h.len() implies #[trigger] h.columns[i].value(row)
        == s.columns[i].value(row) by {
        assert(s.columns[i].value(row) == g.columns[i].value(row));
    }
    if s.even() {
        assert(g.even()) by {
            assert forall|i: int| 0 <= i < g.columns.len() implies (#[trigger] g.columns[i]).len()
                == g.len() by {
                assert(s.columns[i].len() >= g.columns[i].len());
            }
        }
    }
}

/// What holds of a group holds of one that differs at most in which regions are dirty.
proof fn lemma_kin_alike(h: EdgeGroupView, g: EdgeGroupView, g2: EdgeGroupView)
    requires
        kin(h, g),
        g.clean() == g2.clean(),
    ensures
        kin(h, g2),
{
    assert(g == (EdgeGroupView { dirty: g.dirty, ..g2 })) by {
        assert(g.clean().edge_ids == g2.clean().edge_ids);
        assert(g.clean().deleted == g2.clean().deleted);
        assert(g.clean().index == g2.clean().index);
        assert(g.clean().columns == g2.clean().columns);
        assert(g.clean().from_ids == g2.clean().from_ids);
        assert(g.clean().to_ids == g2.clean().to_ids);
        assert(g.clean().group_idx == g2.clean().group_idx);
        assert(g.clean().offset_base == g2.clean().offset_base);
        assert(g.clean().direction == g2.clean().direction);
    }
}

/// Ranges that differ at most in which regions are dirty have the same keys, and groups that are
/// alike.
proof fn lemma_alike_ranges(
    a: Ranges,
    b: Ranges,
    direction: Direction,
    schema: Seq<(ColumnId, DataType)>,
    k: u64,
)
    requires
        clean_ranges(a) == clean_ranges(b),
        ranges_ok(a, direction, schema),
    ensures
        ranges_ok(b, direction, schema),
        single(a) == single(b),
        ranges_storable(a) ==> single(a) ==> ranges_storable(b),
        has_key(b, k) == has_key(a, k),
        groups_of(b, k).len() == groups_of(a, k).len(),
        forall|j: int|
            0 <= j < groups_of(a, k).len() ==> (#[trigger] groups_of(b, k)[j]).clean() == groups_of(
                a,
                k,
            )[j].clean(),
{
    assert(a.len() == clean_ranges(a).len() && b.len() == clean_ranges(b).len());
    assert forall|i: int| 0 <= i < a.len() implies (#[trigger] b[i]).0 == a[i].0 && b[i].1.len()
        == a[i].1.len() && (forall|j: int|
        0 <= j < a[i].1.len() ==> (#[trigger] b[i].1[j]).clean() == a[i].1[j].clean()) by {
        assert(clean_ranges(a)[i] == clean_ranges(b)[i]);
        assert(clean_groups(a[i].1).len() == clean_groups(b[i].1).len());
        assert forall|j: int| 0 <= j < a[i].1.len() implies (#[trigger] b[i].1[j]).clean()
            == a[i].1[j].clean() by {
            assert(clean_groups(a[i].1)[j] == clean_groups(b[i].1)[j]);
        }
    }
    assert forall|i: int| 0 <= i < b.len() implies (#[trigger] b[i]).0 < 0xffff_ffff_ffff
        && groups_ok(b[i].1, b[i].0, direction, schema) by {
        assert(groups_ok(a[i].1, a[i].0, direction, schema));
        assert(b[i].0 == a[i].0);
        assert forall|j: int| 0 <= j < b[i].1.len() implies group_ok(
            #[trigger] b[i].1[j],
            b[i].0,
            direction,
            schema,
        ) by {
            assert(group_ok(a[i].1[j], a[i].0, direction, schema));
            assert(b[i].1[j].clean() == a[i].1[j].clean());
            lemma_alike(a[i].1[j], b[i].1[j], b[i].0, direction, schema);
        }
        assert forall|j: int| 0 <= j < b[i].1.len() - 1 implies (#[trigger] b[i].1[j]).is_full() by {
            assert(a[i].1[j].is_full());
            assert(b[i].1[j].clean() == a[i].1[j].clean());
            assert(b[i].1[j].clean().edge_ids == a[i].1[j].clean().edge_ids);
        }
    }
    assert(sorted(b)) by {
        assert forall|i: int, j: int| 0 <= i < j < b.len() implies (#[trigger] b[i]).0 < (
        #[trigger] b[j]).0 by {
            assert(a[i].0 < a[j].0);
        }
    }
    if single(a) {
        assert forall|i: int| 0 <= i < b.len() implies (#[trigger] b[i]).1.len() == 1 by {
            assert(a[i].1.len() == 1);
        }
        if ranges_storable(a) {
            assert forall|i: int| 0 <= i < b.len() implies (#[trigger] b[i]).1[0].storable() by {
                assert(a[i].1[0].storable());
                assert(groups_ok(a[i].1, a[i].0, direction, schema));
                assert(a[i].1.len() == 1);
                assert(group_ok(a[i].1[0], a[i].0, direction, schema));
                assert(b[i].1[0].clean() == a[i].1[0].clean());
                lemma_alike(a[i].1[0], b[i].1[0], a[i].0, direction, schema);
            }
        }
    }
    if single(b) {
        assert forall|i: int| 0 <= i < a.len() implies (#[trigger] a[i]).1.len() == 1 by {
            assert(b[i].1.len() == 1);
        }
    }
    ordered_map::lemma_has_key(a, k);
    ordered_map::lemma_has_key(b, k);
    if has_key(a, k) {
        let i = ordered_map::rank(a, k) as int;
        assert(b[i].0 == k);
        ordered_map::lemma_rank_at(b, i);
    }
    if has_key(b, k) {
        let i = ordered_map::rank(b, k) as int;
        assert(b[i].0 == a[i].0);
        ordered_map::lemma_rank_at(a, i);
    }
}

/// The group of a range is found by its index.
proof fn lemma_locate_idx(
    ranges: Ranges,
    direction: Direction,
    schema: Seq<(ColumnId, DataType)>,
    idx: NodeGroupIdx,
)
    requires
        ranges_ok(ranges, direction, schema),
        single(ranges),
        has_key(ranges, idx.0),
    ensures
        locate_idx(ranges, idx) == Some((ordered_map::rank(ranges, idx.0) as int, 0int)),
        groups_of(ranges, idx.0) == ranges[ordered_map::rank(ranges, idx.0) as int].1,
        groups_of(ranges, idx.0).len() == 1,
{
    let at = ordered_map::rank(ranges, idx.0) as int;
    let p = range_is(ranges, idx);
    assert(ranges[at].1.len() == 1);
    assert forall|i: int| 0 <= i < ranges.len() implies (#[trigger] p(i) <==> i == at) by {
        let groups = ranges[i].1;
        let q = group_is(groups, idx);
        assert(groups.len() == 1);
        assert(groups_ok(groups, ranges[i].0, direction, schema));
        assert(group_ok(groups[0], ranges[i].0, direction, schema));
        assert(q(0) <==> ranges[i].0 == idx.0);
        if i == at {
            search::lemma_first_where_is(1, q, 0);
        } else {
            if i < at {
                assert(ranges[i].0 < ranges[at].0);
            } else {
                assert(ranges[at].0 < ranges[i].0);
            }
            assert forall|j: int| 0 <= j < 1 implies !#[trigger] q(j) by {}
            search::lemma_first_where_none(1, q);
        }
    }
    search::lemma_first_where_is(ranges.len(), p, at);
    let q = group_is(ranges[at].1, idx);
    assert(groups_ok(ranges[at].1, ranges[at].0, direction, schema));
    assert(group_ok(ranges[at].1[0], ranges[at].0, direction, schema));
    assert(q(0));
    search::lemma_first_where_is(1, q, 0);
}

impl EdgeTableView {
    /// The tables differ at most in which regions are dirty, which groups are dirty, and where they
    /// are.
    pub open spec fn alike(self, other: EdgeTableView) -> bool {
        &&& self.schema == other.schema
        &&& clean_ranges(self.fwd) == clean_ranges(other.fwd)
        &&& clean_ranges(self.bwd) == clean_ranges(other.bwd)
    }

    /// Each range has one group, which can be written.
    pub open spec fn writable(self) -> bool {
        &&& ranges_ok(self.fwd, Direction::Forward, self.columns())
        &&& ranges_ok(self.bwd, Direction::Backward, self.columns())
        &&& single(self.fwd)
        &&& single(self.bwd)
        &&& self.storable()
    }
}

proof fn lemma_alike_table(
    u: EdgeTableView,
    t: EdgeTableView,
    idx: NodeGroupIdx,
    direction: Direction,
)
    requires
        t.writable(),
        u.alike(t),
    ensures
        u.writable(),
        u.has_range(idx, direction) == t.has_range(idx, direction),
        t.has_range(idx, direction) ==> {
            &&& u.group(idx, direction).encoding() == t.group(idx, direction).encoding()
            &&& u.group(idx, direction).clean() == t.group(idx, direction).clean()
            &&& group_ok(t.group(idx, direction), idx.0, direction, t.columns())
            &&& t.group(idx, direction).storable()
        },
{
    let schema = t.columns();
    lemma_alike_ranges(t.fwd, u.fwd, Direction::Forward, schema, idx.0);
    lemma_alike_ranges(t.bwd, u.bwd, Direction::Backward, schema, idx.0);
    if t.has_range(idx, direction) {
        let ranges = t.ranges(direction);
        let at = ordered_map::rank(ranges, idx.0) as int;
        assert(ranges[at].1.len() == 1);
        assert(ranges[at].1[0].storable());
        assert(groups_ok(ranges[at].1, ranges[at].0, direction, schema));
        assert(group_ok(ranges[at].1[0], ranges[at].0, direction, schema));
        assert(u.group(idx, direction).clean() == t.group(idx, direction).clean());
        lemma_alike(
            t.group(idx, direction),
            u.group(idx, direction),
            idx.0,
            direction,
            schema,
        );
    }
}

/// What writing one group does.
proof fn lemma_write_group(
    u: EdgeTableView,
    t: EdgeTableView,
    idx: NodeGroupIdx,
    direction: Direction,
    disk: Disk,
)
    requires
        t.writable(),
        u.alike(t),
        distinct(u.page_infos),
        t.has_range(idx, direction),
        0 < disk.len() <= u64::MAX,
    ensures
        ({
            let f = u.write_group(idx, direction, disk);
            let infos = f.table.page_infos;
            let pages = pages_of(t.group(idx, direction).encoding());
            let range = appended_range(disk, pages);
            &&& f.table.alike(t)
            &&& f.table.dirty == u.dirty
            &&& f.disk == disk + pages
            &&& extends(f.disk, disk)
            &&& distinct(infos)
            &&& holds_group(f.disk, range, t.group(idx, direction))
            &&& forall|idx2: NodeGroupIdx, direction2: Direction| #[trigger]
                noted(infos, infos.len(), idx2, direction2) == if idx2 == idx && direction2
                    == direction {
                    Some(range)
                } else {
                    noted(u.page_infos, u.page_infos.len(), idx2, direction2)
                }
        }),
{
    lemma_alike_table(u, t, idx, direction);
    let ranges = u.ranges(direction);
    lemma_locate_idx(ranges, direction, u.columns(), idx);
    let at = ordered_map::rank(ranges, idx.0) as int;
    let g = ranges[at].1[0];
    let pages = pages_of(g.encoding());
    let range = appended_range(disk, pages);
    let c = u.group_flushed(idx, direction);
    lemma_with_page_info(c, idx, direction, range);
    page::law_append_pages(disk, pages);
    let own = t.group(idx, direction);
    lemma_alike(own, own, idx.0, direction, t.columns());
    assert(stored_as(block_at(disk + pages, range), own, own));
    let after = with_group(ranges, at, 0, g.clean());
    assert(clean_ranges(after) =~= clean_ranges(ranges)) by {
        assert forall|i: int| 0 <= i < ranges.len() implies #[trigger] clean_ranges(after)[i]
            == clean_ranges(ranges)[i] by {
            if i == at {
                assert(clean_groups(after[i].1) =~= clean_groups(ranges[i].1));
            }
        }
    }
}

/// What writing groups one after the other does.
proof fn lemma_write_groups(
    t: EdgeTableView,
    idxs: Seq<(NodeGroupIdx, Direction)>,
    n: nat,
    disk: Disk,
)
    requires
        t.writable(),
        distinct(t.page_infos),
        n <= idxs.len(),
        forall|i: int| 0 <= i < idxs.len() ==> t.has_range((#[trigger] idxs[i]).0, idxs[i].1),
        0 < disk.len(),
        t.write_groups(idxs, n, disk).disk.len() <= u64::MAX,
    ensures
        ({
            let f = t.write_groups(idxs, n, disk);
            let infos = f.table.page_infos;
            &&& f.table.alike(t)
            &&& f.table.dirty == t.dirty
            &&& extends(f.disk, disk)
            &&& distinct(infos)
            &&& forall|idx: NodeGroupIdx, direction: Direction|
                ({
                    let range = #[trigger] noted(infos, infos.len(), idx, direction);
                    let before = noted(t.page_infos, t.page_infos.len(), idx, direction);
                    let written = idxs.take(n as int).contains((idx, direction));
                    &&& range is Some <==> before is Some || written
                    &&& written || (before is Some && holds_group(
                        disk,
                        before->Some_0,
                        t.group(idx, direction),
                    )) ==> holds_group(f.disk, range->Some_0, t.group(idx, direction))
                })
        }),
    decreases n,
{
    let f = t.write_groups(idxs, n, disk);
    let infos = f.table.page_infos;
    if n > 0 {
        let m = n - 1;
        let before = t.write_groups(idxs, m as nat, disk);
        let (idx, direction) = idxs[m];
        assert(t.has_range(idxs[m].0, idxs[m].1));
        let pages = pages_of(t.group(idx, direction).encoding());
        let b = before.table;
        lemma_write_groups_len(t, idxs, n, disk);
        lemma_write_groups(t, idxs, m as nat, disk);
        lemma_write_group(b, t, idx, direction, before.disk);
        assert forall|idx2: NodeGroupIdx, direction2: Direction|
            ({
                let range = #[trigger] noted(infos, infos.len(), idx2, direction2);
                let first = noted(t.page_infos, t.page_infos.len(), idx2, direction2);
                let written = idxs.take(n as int).contains((idx2, direction2));
                &&& range is Some <==> first is Some || written
                &&& written || (first is Some && holds_group(
                    disk,
                    first->Some_0,
                    t.group(idx2, direction2),
                )) ==> holds_group(f.disk, range->Some_0, t.group(idx2, direction2))
            }) by {
            let mid = noted(b.page_infos, b.page_infos.len(), idx2, direction2);
            let key = (idx2, direction2);
            assert(idxs.take(n as int) =~= idxs.take(m).push(idxs[m]));
            if idxs.take(n as int).contains(key) && key != idxs[m] {
                let i = choose|i: int|
                    0 <= i < idxs.take(n as int).len() && idxs.take(n as int)[i] == key;
                assert(idxs.take(m)[i] == key);
            }
            if idxs.take(m).contains(key) {
                let i = choose|i: int| 0 <= i < idxs.take(m).len() && idxs.take(m)[i] == key;
                assert(idxs.take(n as int)[i] == key);
            }
            if key == idxs[m] {
                assert(idxs.take(n as int)[m] == key);
            } else if mid is Some && holds_group(before.disk, mid->Some_0, t.group(idx2, direction2)) {
                assert(on_disk(before.disk, mid->Some_0));
                assert(block_at(f.disk, mid->Some_0) == block_at(before.disk, mid->Some_0));
            }
        }
    } else {
        assert(idxs.take(0) =~= Seq::empty());
    }
}

/// Writing only appends.
proof fn lemma_write_groups_len(
    t: EdgeTableView,
    idxs: Seq<(NodeGroupIdx, Direction)>,
    n: nat,
    disk: Disk,
)
    ensures
        n > 0 ==> t.write_groups(idxs, (n - 1) as nat, disk).disk.len() <= t.write_groups(
            idxs,
            n,
            disk,
        ).disk.len(),
{
}

/// Flushing a filed table leaves it filed, with nothing dirty and every group on the pages noted for
/// it.
pub proof fn law_flush_files(t: EdgeTableView, disk: Disk)
    requires
        t.writable(),
        t.filed(disk),
        0 < disk.len(),
        t.flush(disk).disk.len() <= u64::MAX,
    ensures
        ({
            let f = t.flush(disk);
            &&& f.table.alike(t)
            &&& f.table.dirty == Seq::<(NodeGroupIdx, Direction)>::empty()
            &&& f.table.filed(f.disk)
            &&& extends(f.disk, disk)
        }),
{
    let c = EdgeTableView { dirty: Seq::empty(), ..t };
    let f = t.flush(disk);
    let infos = f.table.page_infos;
    assert forall|i: int| 0 <= i < t.dirty.len() implies c.has_range(
        (#[trigger] t.dirty[i]).0,
        t.dirty[i].1,
    ) by {
        assert(t.filed_at(t.dirty[i].0, t.dirty[i].1, disk));
        assert(t.dirty.contains((t.dirty[i].0, t.dirty[i].1)));
    }
    lemma_write_groups(c, t.dirty, t.dirty.len(), disk);
    assert(t.dirty.take(t.dirty.len() as int) =~= t.dirty);
    lemma_alike_table(f.table, t, NodeGroupIdx(0), Direction::Forward);
    assert forall|idx: NodeGroupIdx, direction: Direction| #[trigger]
        f.table.filed_at(idx, direction, f.disk) by {
        assert(t.filed_at(idx, direction, disk));
        lemma_alike_table(f.table, t, idx, direction);
        let range = noted(infos, infos.len(), idx, direction);
        assert(c.group(idx, direction) == t.group(idx, direction));
        if range is Some {
            assert(t.has_range(idx, direction));
            let own = t.group(idx, direction);
            let block = block_at(f.disk, range->Some_0);
            assert(holds_group(f.disk, range->Some_0, own));
            let h = choose|h: EdgeGroupView| #[trigger] stored_as(block, h, own);
            lemma_kin_alike(h, own, f.table.group(idx, direction));
            assert(stored_as(block, h, f.table.group(idx, direction)));
        }
        if t.has_range(idx, direction) {
            assert(f.table.group(idx, direction).clean().edge_ids == t.group(
                idx,
                direction,
            ).clean().edge_ids);
        }
    }
}

/// A table that is filed stays so when more is written to the file.
pub proof fn law_extended_filed(t: EdgeTableView, disk: Disk, after: Disk)
    requires
        t.filed(disk),
        extends(after, disk),
    ensures
        t.filed(after),
{
    assert forall|idx: NodeGroupIdx, direction: Direction| #[trigger]
        t.filed_at(idx, direction, after) by {
        assert(t.filed_at(idx, direction, disk));
        let range = noted(t.page_infos, t.page_infos.len(), idx, direction);
        if range is Some {
            assert(on_disk(disk, range->Some_0) ==> block_at(after, range->Some_0) == block_at(
                disk,
                range->Some_0,
            ));
        }
    }
}

// ---------------------------------------------------------------------------------------------
// Loading

proof fn lemma_noted_next(
    infos: Seq<CSREdgeGroupPageInfo>,
    n: nat,
    idx: NodeGroupIdx,
    direction: Direction,
)
    requires
        distinct(infos),
        0 < n <= infos.len(),
    ensures
        noted(infos, n, idx, direction) is Some <==> noted(
            infos,
            (n - 1) as nat,
            idx,
            direction,
        ) is Some || (infos[n - 1].group_idx == idx && infos[n - 1].direction == direction),
        infos[n - 1].group_idx == idx && infos[n - 1].direction == direction ==> noted(
            infos,
            (n - 1) as nat,
            idx,
            direction,
        ) is None,
{
    lemma_noted(infos, n, idx, direction);
    lemma_noted(infos, (n - 1) as nat, idx, direction);
    let p = info_is(infos, idx, direction);
    if infos[n - 1].group_idx == idx && infos[n - 1].direction == direction {
        match first_where((n - 1) as nat, p) {
            Some(i) => {
                assert(infos[i].group_idx != infos[n - 1].group_idx || infos[i].direction
                    != infos[n - 1].direction);
            },
            None => {},
        }
    }
}

/// The groups of a range after the first `n` were loaded; `hs` gives the group at each place.
spec fn loaded_groups(
    hs: spec_fn(int) -> EdgeGroupView,
    infos: Seq<CSREdgeGroupPageInfo>,
    n: nat,
    k: u64,
    direction: Direction,
) -> Option<Seq<EdgeGroupView>> {
    match first_where(n, info_is(infos, NodeGroupIdx(k), direction)) {
        Some(i) => Some(seq![hs(i).clean()]),
        None => None,
    }
}

/// The block holds a group of the range of its index.
spec fn block_holds(
    h: EdgeGroupView,
    info: CSREdgeGroupPageInfo,
    block: Seq<u8>,
    schema: Seq<(ColumnId, DataType)>,
) -> bool {
    &&& h.storable()
    &&& group_ok(h, info.group_idx.0, info.direction, schema)
    &&& info.group_idx.0 < 0xffff_ffff_ffff
    &&& block == concat(pages_of(h.encoding()))
}

/// The groups that pages hold are loaded one after the other.
proof fn lemma_load(
    schema: EdgeTypeView,
    hs: spec_fn(int) -> EdgeGroupView,
    infos: Seq<CSREdgeGroupPageInfo>,
    blocks: Seq<Seq<u8>>,
    n: nat,
) -> (l: EdgeTableView)
    requires
        distinct(infos),
        n <= infos.len(),
        blocks.len() == infos.len(),
        forall|i: int|
            0 <= i < infos.len() ==> block_holds(
                hs(i),
                #[trigger] infos[i],
                blocks[i],
                EdgeTableView::empty(schema).columns(),
            ),
    ensures
        EdgeTableView::load(schema, infos, blocks, n) == Some(Ok::<EdgeTableView, ErrorView>(l)),
        l.schema == schema,
        l.page_infos == infos.take(n as int),
        l.dirty == Seq::<(NodeGroupIdx, Direction)>::empty(),
        sorted(l.fwd),
        sorted(l.bwd),
        forall|k: u64| #[trigger]
            lookup(l.fwd, k) == loaded_groups(hs, infos, n, k, Direction::Forward),
        forall|k: u64| #[trigger]
            lookup(l.bwd, k) == loaded_groups(hs, infos, n, k, Direction::Backward),
    decreases n,
{
    if n == 0 {
        let l = EdgeTableView::empty(schema);
        assert(infos.take(0) =~= Seq::empty());
        l
    } else {
        let m = (n - 1) as nat;
        let before = lemma_load(schema, hs, infos, blocks, m);
        let info = infos[m as int];
        let direction = info.direction;
        let idx = info.group_idx;
        let g = hs(m as int);
        let columns = EdgeTableView::empty(schema).columns();
        assert(block_holds(g, infos[m as int], blocks[m as int], columns));
        edge::law_edge_group_roundtrip(g, columns);
        let ranges = before.ranges(direction);
        assert(range_of(g.offset_base) == idx.0);
        assert(g.group_idx == idx);
        lemma_loaded_next(hs, infos, n, idx.0, direction);
        assert(lookup(ranges, idx.0) == loaded_groups(hs, infos, m, idx.0, direction));
        assert(NodeGroupIdx(idx.0) == idx);
        assert(groups_of(ranges, idx.0).push(g.clean()) =~= seq![g.clean()]);
        let after = put(ranges, idx.0, seq![g.clean()]);
        let l = EdgeTableView {
            page_infos: before.page_infos.push(info),
            ..before.with_ranges(direction, after)
        };
        assert(l.page_infos =~= infos.take(n as int));
        ordered_map::law_put_then_lookup(ranges, idx.0, seq![g.clean()], 0);
        assert forall|k: u64| #[trigger]
            lookup(l.fwd, k) == loaded_groups(hs, infos, n, k, Direction::Forward) by {
            lemma_loaded_next(hs, infos, n, k, Direction::Forward);
            ordered_map::law_put_then_lookup(ranges, idx.0, seq![g.clean()], k);
            assert(lookup(before.fwd, k) == loaded_groups(hs, infos, m, k, Direction::Forward));
        }
        assert forall|k: u64| #[trigger]
            lookup(l.bwd, k) == loaded_groups(hs, infos, n, k, Direction::Backward) by {
            lemma_loaded_next(hs, infos, n, k, Direction::Backward);
            ordered_map::law_put_then_lookup(ranges, idx.0, seq![g.clean()], k);
            assert(lookup(before.bwd, k) == loaded_groups(hs, infos, m, k, Direction::Backward));
        }
        l
    }
}

proof fn lemma_loaded_next(
    hs: spec_fn(int) -> EdgeGroupView,
    infos: Seq<CSREdgeGroupPageInfo>,
    n: nat,
    k: u64,
    direction: Direction,
)
    requires
        distinct(infos),
        0 < n <= infos.len(),
    ensures
        ({
            let info = infos[n - 1];
            let before = loaded_groups(hs, infos, (n - 1) as nat, k, direction);
            let own = info.group_idx.0 == k && info.direction == direction;
            &&& own ==> before is None
            &&& loaded_groups(hs, infos, n, k, direction) == if own {
                Some(seq![hs(n - 1).clean()])
            } else {
                before
            }
        }),
{
    let idx = NodeGroupIdx(k);
    let p = info_is(infos, idx, direction);
    lemma_noted_next(infos, n, idx, direction);
    search::lemma_first_where((n - 1) as nat, p);
    if infos[n - 1].group_idx == idx && infos[n - 1].direction == direction {
        assert forall|j: int| 0 <= j < n - 1 implies !#[trigger] p(j) by {
            assert(noted(infos, (n - 1) as nat, idx, direction) is None);
        }
        assert(p(n - 1));
        search::lemma_first_where_is(n, p, n - 1);
    } else {
        assert(!p(n - 1));
    }
}

/// The range has the groups of the other's range, with the same rows, or it is not there and the
/// other's groups have no rows.
pub open spec fn kin_at(b: Ranges, a: Ranges, k: u64) -> bool {
    let gb = groups_of(b, k);
    let ga = groups_of(a, k);
    if has_key(b, k) {
        &&& has_key(a, k)
        &&& gb.len() == 1
        &&& ga.len() == 1
        &&& kin(gb[0], ga[0])
    } else {
        has_key(a, k) ==> ga.len() == 1 && ga[0].len() == 0
    }
}

/// The ranges have the same rows.
pub open spec fn kin_ranges(b: Ranges, a: Ranges) -> bool {
    sorted(b) && forall|k: u64| #[trigger] kin_at(b, a, k)
}

proof fn lemma_kin_ranges_ok(
    a: Ranges,
    b: Ranges,
    direction: Direction,
    schema: Seq<(ColumnId, DataType)>,
)
    requires
        kin_ranges(b, a),
        ranges_ok(a, direction, schema),
    ensures
        ranges_ok(b, direction, schema),
        single(b),
{
    assert forall|i: int| 0 <= i < b.len() implies (#[trigger] b[i]).0 < 0xffff_ffff_ffff
        && groups_ok(b[i].1, b[i].0, direction, schema) && b[i].1.len() == 1 by {
        let k = b[i].0;
        ordered_map::lemma_rank_at(b, i);
        assert(kin_at(b, a, k));
        edge_laws::lemma_range(a, direction, schema, k);
        let g = groups_of(a, k)[0];
        assert(group_ok(g, k, direction, schema));
        lemma_kin(b[i].1[0], g, k, direction, schema);
        assert forall|j: int| 0 <= j < b[i].1.len() implies group_ok(
            #[trigger] b[i].1[j],
            k,
            direction,
            schema,
        ) by {}
    }
}

proof fn lemma_kin_places(
    a: Ranges,
    b: Ranges,
    direction: Direction,
    schema: Seq<(ColumnId, DataType)>,
    x: EdgeId,
    k: u64,
    j: int,
    row: u64,
)
    requires
        kin_ranges(b, a),
        ranges_ok(a, direction, schema),
    ensures
        edge_at(b, x, k, j, row) == edge_at(a, x, k, j, row),
        edge_at(b, x, k, j, row) ==> groups_of(b, k)[j].read(row) == groups_of(a, k)[j].read(row),
{
    assert(kin_at(b, a, k));
    if has_key(b, k) {
        edge_laws::lemma_range(a, direction, schema, k);
        let g = groups_of(a, k)[0];
        assert(group_ok(g, k, direction, schema));
        lemma_kin(groups_of(b, k)[0], g, k, direction, schema);
        assert(groups_of(b, k)[0].read(row) == g.read(row));
    }
}

/// Ranges with the same rows are read alike.
proof fn lemma_kin_reads(
    a: Ranges,
    b: Ranges,
    direction: Direction,
    schema: Seq<(ColumnId, DataType)>,
)
    requires
        kin_ranges(b, a),
        ranges_ok(a, direction, schema),
    ensures
        ranges_ok(b, direction, schema),
        single(b),
        forall|x: EdgeId| #[trigger]
            read_in(b, x) == read_in(a, x) && absent(b, x) == absent(a, x) && once(b, x) == once(
                a,
                x,
            ),
        forall|x: EdgeId| #[trigger] places(b, x) == places(a, x),
        forall|offset: u64, type_id: LabelId| #[trigger]
            refs_in(b, offset, type_id, direction) == refs_in(a, offset, type_id, direction),
        ranges_live(b, b.len()) == ranges_live(a, a.len()),
        ranges_records(b, b.len()) == ranges_records(a, a.len()),
{
    lemma_kin_ranges_ok(a, b, direction, schema);
    assert forall|x: EdgeId| #[trigger]
        read_in(b, x) == read_in(a, x) && absent(b, x) == absent(a, x) && once(b, x) == once(
            a,
            x,
        ) by {
        assert forall|k: u64, j: int, row: u64| #[trigger]
            edge_at(b, x, k, j, row) <==> edge_at(a, x, k, j, row) by {
            lemma_kin_places(a, b, direction, schema, x, k, j, row);
        }
        assert forall|k: u64, j: int, row: u64| #[trigger]
            edge_at(b, x, k, j, row) implies groups_of(b, k)[j].read(row) == groups_of(
            a,
            k,
        )[j].read(row) by {
            lemma_kin_places(a, b, direction, schema, x, k, j, row);
        }
        edge_laws::lemma_same_places(a, b, direction, schema, x);
    }
    assert forall|x: EdgeId| #[trigger] places(b, x) == places(a, x) by {
        assert forall|p: (u64, int, u64)| #[trigger]
            places(b, x).contains(p) == places(a, x).contains(p) by {
            lemma_kin_places(a, b, direction, schema, x, p.0, p.1, p.2);
        }
        assert(places(b, x) =~= places(a, x));
    }
    assert forall|offset: u64, type_id: LabelId| #[trigger]
        refs_in(b, offset, type_id, direction) == refs_in(a, offset, type_id, direction) by {
        lemma_kin_refs(a, b, direction, schema, offset, type_id);
    }
    lemma_kin_live(a, b, direction, schema);
}

proof fn lemma_kin_refs(
    a: Ranges,
    b: Ranges,
    direction: Direction,
    schema: Seq<(ColumnId, DataType)>,
    offset: u64,
    type_id: LabelId,
)
    requires
        kin_ranges(b, a),
        ranges_ok(a, direction, schema),
    ensures
        refs_in(b, offset, type_id, direction) == refs_in(a, offset, type_id, direction),
{
    reveal_with_fuel(refs_of_groups, 2);
    let k = range_of(offset);
    assert(kin_at(b, a, k));
    if has_key(a, k) {
        assert(groups_of(a, k).len() == 1);
        edge_laws::lemma_range(a, direction, schema, k);
        let g = groups_of(a, k)[0];
        assert(group_ok(g, k, direction, schema));
        let rows = g.found(offset);
        if has_key(b, k) {
            let h = groups_of(b, k)[0];
            lemma_kin(h, g, k, direction, schema);
            assert(h.found(offset) == rows);
            assert forall|x: int| 0 <= x < rows.len() implies ref_at(
                h,
                #[trigger] rows[x],
                type_id,
                direction,
            ) == ref_at(g, rows[x], type_id, direction) by {
                assert(h.read(rows[x]) == g.read(rows[x]));
            }
            edge_laws::lemma_refs_of_rows_same(h, g, rows, rows, rows.len(), type_id, direction);
        } else {
            if rows.len() > 0 {
                assert(rows.contains(rows[0]));
                edge::law_found_is_live(g, offset, rows[0]);
            }
            assert(refs_in(a, offset, type_id, direction) =~= Seq::empty());
        }
    }
}

/// Ranges without the last one.
proof fn lemma_lookup_init(a: Ranges, k: u64)
    requires
        sorted(a),
        a.len() > 0,
    ensures
        sorted(a.drop_last()),
        has_key(a.drop_last(), k) == (has_key(a, k) && k != a.last().0),
        k != a.last().0 ==> groups_of(a.drop_last(), k) == groups_of(a, k),
        has_key(a, a.last().0),
        groups_of(a, a.last().0) == a.last().1,
{
    let init = a.drop_last();
    let n = a.len() - 1;
    assert forall|i: int, j: int| 0 <= i < j < init.len() implies (#[trigger] init[i]).0 < (
    #[trigger] init[j]).0 by {
        assert(a[i].0 < a[j].0);
    }
    ordered_map::lemma_rank_at(a, n);
    if has_key(init, k) {
        let i = ordered_map::rank(init, k) as int;
        assert(init[i] == a[i]);
        assert(a[i].0 < a[n].0);
        ordered_map::lemma_rank_at(a, i);
    }
    if has_key(a, k) && k != a.last().0 {
        let i = ordered_map::rank(a, k) as int;
        assert(i < n);
        assert(init[i] == a[i]);
        ordered_map::lemma_rank_at(init, i);
    }
}

/// Groups that are read alike have the same records.
proof fn lemma_group_records_same(h: EdgeGroupView, g: EdgeGroupView, n: nat)
    requires
        forall|row: u64| #[trigger] h.read(row) == g.read(row),
    ensures
        group_records(h, n) == group_records(g, n),
    decreases n,
{
    if n > 0 {
        lemma_group_records_same(h, g, (n - 1) as nat);
        assert(h.read((n - 1) as u64) == g.read((n - 1) as u64));
    }
}

/// Ranges with the same rows have as many live ones, and the same records.
proof fn lemma_kin_live(
    a: Ranges,
    b: Ranges,
    direction: Direction,
    schema: Seq<(ColumnId, DataType)>,
)
    requires
        kin_ranges(b, a),
        ranges_ok(a, direction, schema),
    ensures
        ranges_live(b, b.len()) == ranges_live(a, a.len()),
        ranges_records(b, b.len()) == ranges_records(a, a.len()),
    decreases a.len(),
{
    reveal_with_fuel(groups_live, 2);
    reveal_with_fuel(groups_records, 2);
    if a.len() == 0 {
        if b.len() > 0 {
            ordered_map::lemma_rank_at(b, 0);
            assert(kin_at(b, a, b[0].0));
        }
    } else {
        let k = a.last().0;
        let init = a.drop_last();
        lemma_lookup_init(a, k);
        assert(kin_at(b, a, k));
        assert(ranges_ok(init, direction, schema)) by {
            assert forall|i: int| 0 <= i < init.len() implies (#[trigger] init[i]).0
                < 0xffff_ffff_ffff && groups_ok(init[i].1, init[i].0, direction, schema) by {
                assert(init[i] == a[i]);
            }
        }
        lemma_ranges_live_init(a);
        if has_key(b, k) {
            let at = ordered_map::rank(b, k) as int;
            assert(at == b.len() - 1) by {
                if at < b.len() - 1 {
                    let last = b.last().0;
                    ordered_map::lemma_rank_at(b, b.len() - 1);
                    assert(kin_at(b, a, last));
                    let i = ordered_map::rank(a, last) as int;
                    assert(b[at].0 < b[b.len() - 1].0);
                    if i < a.len() - 1 {
                        assert(a[i].0 < a[a.len() - 1].0);
                    }
                }
            }
            let short = b.drop_last();
            assert forall|x: u64| #[trigger] kin_at(short, init, x) by {
                lemma_lookup_init(a, x);
                lemma_lookup_init(b, x);
                assert(kin_at(b, a, x));
            }
            lemma_lookup_init(b, k);
            lemma_ranges_live_init(b);
            lemma_kin_live(init, short, direction, schema);
            assert(b.last().1[0].deleted == a.last().1[0].deleted);
            let g = a.last().1[0];
            assert(groups_ok(a[a.len() - 1].1, k, direction, schema));
            assert(group_ok(g, k, direction, schema));
            lemma_kin(b.last().1[0], g, k, direction, schema);
            lemma_group_records_same(b.last().1[0], g, g.len());
        } else {
            assert forall|x: u64| #[trigger] kin_at(b, init, x) by {
                lemma_lookup_init(a, x);
                assert(kin_at(b, a, x));
            }
            lemma_kin_live(init, b, direction, schema);
            let g = a.last().1[0];
            assert(groups_ok(a[a.len() - 1].1, k, direction, schema));
            assert(group_ok(g, k, direction, schema));
            assert(g.deleted.len() == 0);
            assert(groups_records(a.last().1, 1) =~= Seq::empty());
            assert(ranges_records(a, a.len()) =~= ranges_records(init, init.len()));
        }
    }
}

proof fn lemma_ranges_live_init(a: Ranges)
    requires
        a.len() > 0,
    ensures
        ranges_live(a, a.len()) == ranges_live(a.drop_last(), (a.len() - 1) as nat) + groups_live(
            a.last().1,
            a.last().1.len(),
        ),
        ranges_records(a, a.len()) == ranges_records(a.drop_last(), (a.len() - 1) as nat)
            + groups_records(a.last().1, a.last().1.len()),
{
    lemma_ranges_live_prefix(a, a.drop_last(), (a.len() - 1) as nat);
}

proof fn lemma_ranges_live_prefix(a: Ranges, b: Ranges, n: nat)
    requires
        n <= a.len(),
        n <= b.len(),
        forall|i: int| 0 <= i < n ==> #[trigger] a[i] == b[i],
    ensures
        ranges_live(a, n) == ranges_live(b, n),
        ranges_records(a, n) == ranges_records(b, n),
    decreases n,
{
    if n > 0 {
        lemma_ranges_live_prefix(a, b, (n - 1) as nat);
        assert(a[n - 1] == b[n - 1]);
    }
}

/// Tables that differ at most in what is dirty and where it is are read alike.
pub proof fn lemma_alike_reads(u: EdgeTableView, t: EdgeTableView)
    requires
        t.writable(),
        u.alike(t),
    ensures
        u.writable(),
        t.tidy() ==> u.tidy(),
        u.num_edges() == t.num_edges(),
        u.records() == t.records(),
        forall|edge_id: EdgeId| #[trigger] u.read(edge_id) == t.read(edge_id),
        forall|offset: u64, direction: Direction| #[trigger]
            u.neighbors(offset, direction) == t.neighbors(offset, direction),
{
    lemma_alike_table(u, t, NodeGroupIdx(0), Direction::Forward);
    lemma_alike_kin(u, t, Direction::Forward);
    lemma_alike_kin(u, t, Direction::Backward);
    lemma_kin_reads(t.fwd, u.fwd, Direction::Forward, t.columns());
    lemma_kin_reads(t.bwd, u.bwd, Direction::Backward, t.columns());
    if t.tidy() {
        assert forall|edge_id: EdgeId| #[trigger] paired(u.fwd, u.bwd, edge_id) by {
            assert(paired(t.fwd, t.bwd, edge_id));
            assert(places(u.fwd, edge_id) == places(t.fwd, edge_id));
            assert(places(u.bwd, edge_id) == places(t.bwd, edge_id));
        }
    }
    assert forall|edge_id: EdgeId| #[trigger] u.read(edge_id) == t.read(edge_id) by {
        assert(read_in(u.fwd, edge_id) == read_in(t.fwd, edge_id));
    }
    assert forall|offset: u64, direction: Direction| #[trigger]
        u.neighbors(offset, direction) == t.neighbors(offset, direction) by {
        let type_id = t.schema.label_id;
        assert(refs_in(u.fwd, offset, type_id, Direction::Forward) == refs_in(
            t.fwd,
            offset,
            type_id,
            Direction::Forward,
        ));
        assert(refs_in(u.bwd, offset, type_id, Direction::Backward) == refs_in(
            t.bwd,
            offset,
            type_id,
            Direction::Backward,
        ));
    }
}

proof fn lemma_alike_kin(u: EdgeTableView, t: EdgeTableView, direction: Direction)
    requires
        t.writable(),
        u.alike(t),
    ensures
        kin_ranges(u.ranges(direction), t.ranges(direction)),
{
    let ranges = t.ranges(direction);
    lemma_alike_table(u, t, NodeGroupIdx(0), direction);
    assert forall|k: u64| #[trigger] kin_at(u.ranges(direction), ranges, k) by {
        lemma_alike_table(u, t, NodeGroupIdx(k), direction);
        lemma_alike_ranges(ranges, u.ranges(direction), direction, t.columns(), k);
        if has_key(ranges, k) {
            let at = ordered_map::rank(ranges, k) as int;
            assert(ranges[at].1.len() == 1);
            lemma_alike(
                groups_of(ranges, k)[0],
                groups_of(u.ranges(direction), k)[0],
                k,
                direction,
                t.columns(),
            );
        }
    }
}

/// What was loaded has the rows of the table that was written.
proof fn lemma_loaded_kin(
    t: EdgeTableView,
    hs: spec_fn(int) -> EdgeGroupView,
    infos: Seq<CSREdgeGroupPageInfo>,
    direction: Direction,
    loaded: Ranges,
)
    requires
        t.writable(),
        distinct(infos),
        sorted(loaded),
        forall|k: u64| #[trigger]
            lookup(loaded, k) == loaded_groups(hs, infos, infos.len(), k, direction),
        forall|i: int|
            0 <= i < infos.len() ==> t.has_range(
                (#[trigger] infos[i]).group_idx,
                infos[i].direction,
            ) && kin(hs(i), t.group(infos[i].group_idx, infos[i].direction)),
        forall|idx: NodeGroupIdx| #[trigger]
            t.has_range(idx, direction) ==> noted(infos, infos.len(), idx, direction) is Some
                || t.group(idx, direction).len() == 0,
    ensures
        kin_ranges(loaded, t.ranges(direction)),
{
    let ranges = t.ranges(direction);
    assert forall|k: u64| #[trigger] kin_at(loaded, ranges, k) by {
        let idx = NodeGroupIdx(k);
        assert(lookup(loaded, k) == loaded_groups(hs, infos, infos.len(), k, direction));
        lemma_noted(infos, infos.len(), idx, direction);
        if t.has_range(idx, direction) {
            let at = ordered_map::rank(ranges, k) as int;
            assert(ranges[at].1.len() == 1);
            lemma_alike_table(t, t, idx, direction);
        }
        match first_where(infos.len(), info_is(infos, idx, direction)) {
            Some(i) => {
                assert(t.has_range(infos[i].group_idx, infos[i].direction));
                lemma_kin(hs(i), t.group(idx, direction), k, direction, t.columns());
            },
            None => {},
        }
    }
}

/// What was loaded can be written.
proof fn lemma_loaded_storable(
    hs: spec_fn(int) -> EdgeGroupView,
    infos: Seq<CSREdgeGroupPageInfo>,
    direction: Direction,
    loaded: Ranges,
)
    requires
        sorted(loaded),
        forall|k: u64| #[trigger]
            lookup(loaded, k) == loaded_groups(hs, infos, infos.len(), k, direction),
        forall|i: int| 0 <= i < infos.len() ==> (#[trigger] hs(i)).clean().storable(),
    ensures
        ranges_storable(loaded),
{
    assert forall|i: int| 0 <= i < loaded.len() implies (#[trigger] loaded[i]).1[0].storable() by {
        let k = loaded[i].0;
        ordered_map::lemma_rank_at(loaded, i);
        assert(lookup(loaded, k) == loaded_groups(hs, infos, infos.len(), k, direction));
        search::lemma_first_where(infos.len(), info_is(infos, NodeGroupIdx(k), direction));
    }
}

/// A table whose dirty groups were written is loaded from the pages that were noted: every edge is
/// read as before, every offset has the same edges, there are as many edges, with the same records
/// in the same order, and the loaded table can be worked on and flushed in turn.
pub proof fn law_flush_then_load(t: EdgeTableView, disk: Disk) -> (l: EdgeTableView)
    requires
        t.tidy(),
        t.storable(),
        t.filed(disk),
        0 < disk.len(),
        t.flush(disk).disk.len() <= u64::MAX,
    ensures
        ({
            let f = t.flush(disk);
            let infos = f.table.page_infos;
            &&& extends(f.disk, disk)
            &&& EdgeTableView::load(t.schema, infos, edge_blocks(f.disk, infos), infos.len())
                == Some(Ok::<EdgeTableView, ErrorView>(l))
            &&& forall|i: int|
                0 <= i < infos.len() ==> on_disk(f.disk, (#[trigger] infos[i]).page_range)
            &&& l.schema == t.schema
            &&& l.page_infos == infos
            &&& l.tidy()
            &&& l.storable()
            &&& l.filed(f.disk)
            &&& l.num_edges() == t.num_edges()
            &&& l.records() == t.records()
            &&& forall|edge_id: EdgeId| #[trigger] l.lacks(edge_id) == t.lacks(edge_id)
            &&& forall|edge_id: EdgeId| #[trigger] l.has_once(edge_id) == t.has_once(edge_id)
            &&& forall|edge_id: EdgeId| #[trigger] l.read(edge_id) == t.read(edge_id)
            &&& forall|offset: u64, direction: Direction| #[trigger]
                l.neighbors(offset, direction) == t.neighbors(offset, direction)
        }),
{
    let f = t.flush(disk);
    let infos = f.table.page_infos;
    let blocks = edge_blocks(f.disk, infos);
    law_flush_files(t, disk);
    let hs = |i: int|
        choose|h: EdgeGroupView| #[trigger]
            stored_as(blocks[i], h, f.table.group(infos[i].group_idx, infos[i].direction));
    assert forall|i: int| 0 <= i < infos.len() implies t.has_range(
        (#[trigger] infos[i]).group_idx,
        infos[i].direction,
    ) && block_holds(hs(i), infos[i], blocks[i], t.columns()) && kin(
        hs(i),
        t.group(infos[i].group_idx, infos[i].direction),
    ) && on_disk(f.disk, infos[i].page_range) by {
        let idx = infos[i].group_idx;
        let direction = infos[i].direction;
        lemma_noted_at(infos, i);
        assert(f.table.filed_at(idx, direction, f.disk));
        lemma_alike_table(f.table, t, idx, direction);
        let own = f.table.group(idx, direction);
        assert(holds_group(f.disk, infos[i].page_range, own));
        assert(stored_as(blocks[i], hs(i), own));
        lemma_kin_alike(hs(i), own, t.group(idx, direction));
        lemma_kin(hs(i), t.group(idx, direction), idx.0, direction, t.columns());
        edge_laws::lemma_range(t.ranges(direction), direction, t.columns(), idx.0);
    }
    let l = lemma_load(t.schema, hs, infos, blocks, infos.len());
    assert(infos.take(infos.len() as int) =~= infos);
    assert forall|idx: NodeGroupIdx, direction: Direction| #[trigger]
        t.has_range(idx, direction) implies noted(infos, infos.len(), idx, direction) is Some
        || t.group(idx, direction).len() == 0 by {
        assert(f.table.filed_at(idx, direction, f.disk));
        lemma_alike_table(f.table, t, idx, direction);
        assert(f.table.group(idx, direction).clean().edge_ids == t.group(
            idx,
            direction,
        ).clean().edge_ids);
    }
    lemma_loaded_kin(t, hs, infos, Direction::Forward, l.fwd);
    lemma_loaded_kin(t, hs, infos, Direction::Backward, l.bwd);
    lemma_kin_reads(t.fwd, l.fwd, Direction::Forward, t.columns());
    lemma_kin_reads(t.bwd, l.bwd, Direction::Backward, t.columns());
    assert forall|i: int| 0 <= i < infos.len() implies (#[trigger] hs(i)).clean().storable() by {
        assert(block_holds(hs(i), infos[i], blocks[i], t.columns()));
        lemma_alike(
            hs(i),
            hs(i).clean(),
            infos[i].group_idx.0,
            infos[i].direction,
            t.columns(),
        );
    }
    lemma_loaded_storable(hs, infos, Direction::Forward, l.fwd);
    lemma_loaded_storable(hs, infos, Direction::Backward, l.bwd);
    assert forall|idx: NodeGroupIdx, direction: Direction| #[trigger]
        l.filed_at(idx, direction, f.disk) by {
        let k = idx.0;
        lemma_noted(infos, infos.len(), idx, direction);
        assert(lookup(l.ranges(direction), k) == loaded_groups(
            hs,
            infos,
            infos.len(),
            k,
            direction,
        )) by {
            assert(lookup(l.fwd, k) == loaded_groups(
                hs,
                infos,
                infos.len(),
                k,
                Direction::Forward,
            ));
            assert(lookup(l.bwd, k) == loaded_groups(
                hs,
                infos,
                infos.len(),
                k,
                Direction::Backward,
            ));
        }
        assert(NodeGroupIdx(k) == idx);
        match first_where(infos.len(), info_is(infos, idx, direction)) {
            Some(i) => {
                let h = hs(i);
                assert(block_holds(h, infos[i], blocks[i], t.columns()));
                lemma_alike(h, h.clean(), k, direction, t.columns());
                lemma_alike(h, h, k, direction, t.columns());
                lemma_kin_alike(h, h, h.clean());
                assert(l.group(idx, direction) == h.clean());
                assert(stored_as(blocks[i], h, h.clean()));
            },
            None => {},
        }
    }
    assert forall|edge_id: EdgeId| #[trigger] paired(l.fwd, l.bwd, edge_id) by {
        assert(paired(t.fwd, t.bwd, edge_id));
        assert(places(l.fwd, edge_id) == places(t.fwd, edge_id));
        assert(places(l.bwd, edge_id) == places(t.bwd, edge_id));
    }
    assert forall|edge_id: EdgeId| #[trigger] l.lacks(edge_id) == t.lacks(edge_id) by {
        assert(read_in(l.fwd, edge_id) == read_in(t.fwd, edge_id));
        assert(read_in(l.bwd, edge_id) == read_in(t.bwd, edge_id));
    }
    assert forall|edge_id: EdgeId| #[trigger] l.has_once(edge_id) == t.has_once(edge_id) by {
        assert(read_in(l.fwd, edge_id) == read_in(t.fwd, edge_id));
        assert(read_in(l.bwd, edge_id) == read_in(t.bwd, edge_id));
    }
    assert forall|edge_id: EdgeId| #[trigger] l.read(edge_id) == t.read(edge_id) by {
        assert(read_in(l.fwd, edge_id) == read_in(t.fwd, edge_id));
    }
    assert forall|offset: u64, direction: Direction| #[trigger]
        l.neighbors(offset, direction) == t.neighbors(offset, direction) by {
        let type_id = t.schema.label_id;
        assert(refs_in(l.fwd, offset, type_id, Direction::Forward) == refs_in(
            t.fwd,
            offset,
            type_id,
            Direction::Forward,
        ));
        assert(refs_in(l.bwd, offset, type_id, Direction::Backward) == refs_in(
            t.bwd,
            offset,
            type_id,
            Direction::Backward,
        ));
    }
    l
}

// ---------------------------------------------------------------------------------------------
// Changing a filed table

impl EdgeTableView {
    /// The range of an offset has no group in the direction, or one that is not full.
    pub open spec fn has_room(self, offset: u64, direction: Direction) -> bool {
        let groups = groups_of(self.ranges(direction), range_of(offset));
        groups.len() > 0 ==> !groups.last().is_full()
    }
}

/// A new table is filed, whatever is on disk.
pub proof fn law_empty_filed(schema: EdgeTypeView, disk: Disk)
    ensures
        EdgeTableView::empty(schema).filed(disk),
        EdgeTableView::empty(schema).storable(),
{
    let t = EdgeTableView::empty(schema);
    assert forall|idx: NodeGroupIdx, direction: Direction| #[trigger]
        t.filed_at(idx, direction, disk) by {
        lemma_noted(t.page_infos, 0, idx, direction);
    }
}

/// A filed table stays filed when one group changes and becomes dirty.
proof fn lemma_change_filed(
    t: EdgeTableView,
    u: EdgeTableView,
    idx: NodeGroupIdx,
    direction: Direction,
    disk: Disk,
)
    requires
        t.filed(disk),
        single(u.fwd),
        single(u.bwd),
        u.page_infos == t.page_infos,
        u.dirty == with_dirty(t.dirty, (idx, direction)),
        u.has_range(idx, direction),
        forall|k: u64|
            !(k == idx.0 && direction == Direction::Forward) ==> #[trigger] lookup(u.fwd, k)
                == lookup(t.fwd, k),
        forall|k: u64|
            !(k == idx.0 && direction == Direction::Backward) ==> #[trigger] lookup(u.bwd, k)
                == lookup(t.bwd, k),
    ensures
        u.filed(disk),
{
    assert forall|idx2: NodeGroupIdx, direction2: Direction| #[trigger]
        u.filed_at(idx2, direction2, disk) by {
        assert(t.filed_at(idx2, direction2, disk));
        let key = (idx, direction);
        let key2 = (idx2, direction2);
        assert(u.dirty.contains(key)) by {
            if !t.dirty.contains(key) {
                assert(u.dirty[t.dirty.len() as int] == key);
            }
        }
        if key2 != key {
            assert(lookup(u.fwd, idx2.0) == lookup(t.fwd, idx2.0) || direction2
                == Direction::Backward);
            assert(lookup(u.bwd, idx2.0) == lookup(t.bwd, idx2.0) || direction2
                == Direction::Forward);
            assert(u.dirty.contains(key2) == t.dirty.contains(key2)) by {
                if t.dirty.contains(key2) {
                    let i = choose|i: int| 0 <= i < t.dirty.len() && t.dirty[i] == key2;
                    assert(u.dirty[i] == key2);
                }
                if u.dirty.contains(key2) {
                    let i = choose|i: int| 0 <= i < u.dirty.len() && u.dirty[i] == key2;
                    assert(t.dirty[i] == key2);
                }
            }
        }
    }
}

/// Inserting into a range whose group is not full leaves one group in it.
proof fn lemma_insert_single(
    ranges: Ranges,
    direction: Direction,
    schema: Seq<(ColumnId, DataType)>,
    offset: u64,
    edge_id: EdgeId,
    from: NodeId,
    to: NodeId,
    values: RowView,
)
    requires
        ranges_ok(ranges, direction, schema),
        single(ranges),
        range_of(offset) < 0xffff_ffff_ffff,
        groups_of(ranges, range_of(offset)).len() > 0 ==> !groups_of(
            ranges,
            range_of(offset),
        ).last().is_full(),
    ensures
        ({
            let i = insert_in(ranges, direction, schema, offset, edge_id, from, to, values);
            let k = range_of(offset);
            &&& single(i.ranges)
            &&& has_key(i.ranges, k)
            &&& active_idx(ranges, direction, schema, offset) == NodeGroupIdx(k)
            &&& forall|k2: u64| k2 != k ==> #[trigger] lookup(i.ranges, k2) == lookup(ranges, k2)
        }),
{
    let k = range_of(offset);
    let groups = groups_of(ranges, k);
    if groups.len() > 0 {
        edge_laws::lemma_range(ranges, direction, schema, k);
        assert(groups.len() == 1) by {
            let at = ordered_map::rank(ranges, k) as int;
            assert(ranges[at].1.len() == 1);
        }
    }
    let a = with_active_group(groups, k, direction, schema);
    edge_laws::lemma_active_groups(groups, k, direction, schema, 0, LabelId(0));
    assert(group_ok(a.last(), k, direction, schema));
    assert(a.len() == 1);
    let i = insert_in(ranges, direction, schema, offset, edge_id, from, to, values);
    let after = a.update(0, a[0].insert(offset, edge_id, from, to, values).state);
    assert(i.ranges == put(ranges, k, after));
    assert forall|k2: u64| k2 != k implies #[trigger] lookup(i.ranges, k2) == lookup(
        ranges,
        k2,
    ) by {
        ordered_map::law_put_then_lookup(ranges, k, after, k2);
    }
    ordered_map::law_put_then_lookup(ranges, k, after, k);
    ordered_map::lemma_rank(ranges, k);
    let at = ordered_map::rank(ranges, k) as int;
    assert forall|x: int| 0 <= x < i.ranges.len() implies (#[trigger] i.ranges[x]).1.len() == 1 by {
        if x == at {
            assert(i.ranges[x] == (k, after));
        } else if has_key(ranges, k) || x < at {
            assert(i.ranges[x] == ranges[x]);
        } else {
            assert(i.ranges[x] == ranges[x - 1]);
        }
    }
}

/// A filed table stays filed when an edge is inserted, whether or not it is taken, unless a range
/// needs a second group.
pub proof fn law_insert_keeps_filed(
    t: EdgeTableView,
    disk: Disk,
    edge_id: EdgeId,
    from: NodeId,
    to: NodeId,
    from_offset: u64,
    to_offset: u64,
    values: RowView,
)
    requires
        t.tidy(),
        t.filed(disk),
        range_of(from_offset) < 0xffff_ffff_ffff,
        range_of(to_offset) < 0xffff_ffff_ffff,
        t.has_room(from_offset, Direction::Forward),
        t.has_room(to_offset, Direction::Backward),
    ensures
        t.insert(edge_id, from, to, from_offset, to_offset, values).state.filed(disk),
{
    let fwd = Direction::Forward;
    let bwd = Direction::Backward;
    let schema = t.columns();
    let i = t.insert(edge_id, from, to, from_offset, to_offset, values);
    let s = i.state;
    lemma_insert_single(t.fwd, fwd, schema, from_offset, edge_id, from, to, values);
    let f = NodeGroupIdx(range_of(from_offset));
    if i.result is Ok {
        lemma_insert_single(t.bwd, bwd, schema, to_offset, edge_id, from, to, values);
        let b = NodeGroupIdx(range_of(to_offset));
        let u = EdgeTableView { fwd: s.fwd, dirty: with_dirty(t.dirty, (f, fwd)), ..t };
        lemma_change_filed(t, u, f, fwd, disk);
        lemma_change_filed(u, s, b, bwd, disk);
    } else {
        edge_laws::lemma_insert_both(t, edge_id, from, to, from_offset, to_offset, values, 0);
        let k = range_of(from_offset);
        let groups = groups_of(t.fwd, k);
        let a = with_active_group(groups, k, fwd, schema);
        if groups.len() > 0 {
            edge_laws::lemma_range(t.fwd, fwd, schema, k);
            let at = ordered_map::rank(t.fwd, k) as int;
            assert(t.fwd[at].1.len() == 1);
        }
        edge_laws::lemma_active_groups(groups, k, fwd, schema, 0, LabelId(0));
        let g = a[0];
        assert(a.len() == 1 && group_ok(g, k, fwd, schema));
        let h = g.insert(from_offset, edge_id, from, to, values).state;
        ordered_map::law_put_then_lookup(t.fwd, k, a.update(0, h), k);
        assert(s.group(f, fwd) == h);
        edge::law_refused_edge(g, from_offset, edge_id, from, to, values, 0);
        assert forall|idx: NodeGroupIdx, direction: Direction| #[trigger]
            s.filed_at(idx, direction, disk) by {
            assert(t.filed_at(idx, direction, disk));
            if direction == fwd && idx.0 == k {
                assert(idx == f);
                let range = noted(t.page_infos, t.page_infos.len(), idx, direction);
                if range is Some && !t.dirty.contains((idx, direction)) {
                    let block = block_at(disk, range->Some_0);
                    let x = choose|x: EdgeGroupView| #[trigger]
                        stored_as(block, x, t.group(idx, direction));
                    assert(stored_as(block, x, g));
                    lemma_kin_refused(x, g, h, from_offset, edge_id, from, to, values);
                    assert(stored_as(block, x, h));
                }
            } else {
                assert(lookup(s.fwd, idx.0) == lookup(t.fwd, idx.0) || direction == bwd);
            }
        }
    }
}

proof fn lemma_delete_one_way_filed(
    t: EdgeTableView,
    disk: Disk,
    edge_id: EdgeId,
    direction: Direction,
)
    requires
        ranges_ok(t.ranges(direction), direction, t.columns()),
        t.filed(disk),
    ensures
        t.delete_one_way(edge_id, direction).filed(disk),
{
    let ranges = t.ranges(direction);
    edge_laws::lemma_locate_place(ranges, edge_id);
    match locate(ranges, edge_id) {
        Some((i, j)) => {
            let k = ranges[i].0;
            assert(groups_ok(ranges[i].1, k, direction, t.columns()));
            assert(group_ok(ranges[i].1[j], k, direction, t.columns()));
            let d = delete_in(ranges, edge_id);
            let after = d[i].1;
            ordered_map::lemma_rank_at(ranges, i);
            assert(d =~= put(ranges, k, after));
            assert forall|k2: u64| k2 != k implies #[trigger] lookup(d, k2) == lookup(
                ranges,
                k2,
            ) by {
                ordered_map::law_put_then_lookup(ranges, k, after, k2);
            }
            ordered_map::law_put_then_lookup(ranges, k, after, k);
            assert(single(d)) by {
                assert forall|x: int| 0 <= x < d.len() implies (#[trigger] d[x]).1.len() == 1 by {
                    assert(ranges[x].1.len() == 1);
                }
            }
            let u = t.delete_one_way(edge_id, direction);
            assert(ranges[i].1[j].group_idx == NodeGroupIdx(k));
            lemma_change_filed(t, u, NodeGroupIdx(k), direction, disk);
        },
        None => {},
    }
}

/// A filed table stays filed when an edge is deleted.
pub proof fn law_delete_keeps_filed(t: EdgeTableView, disk: Disk, edge_id: EdgeId)
    requires
        t.tidy(),
        t.filed(disk),
    ensures
        t.delete(edge_id).filed(disk),
{
    lemma_delete_one_way_filed(t, disk, edge_id, Direction::Forward);
    lemma_delete_one_way_filed(
        t.delete_one_way(edge_id, Direction::Forward),
        disk,
        edge_id,
        Direction::Backward,
    );
}

// ---------------------------------------------------------------------------------------------
// When flushing succeeds

impl EdgeTableView {
    /// The bytes of each group can be held in memory.
    pub open spec fn countable(self) -> bool {
        forall|idx: NodeGroupIdx, direction: Direction| #[trigger]
            self.has_range(idx, direction) ==> self.group(idx, direction).encoding().len()
                <= usize::MAX
    }
}

/// Flushing succeeds, unless a group is too large or the file would have too many pages to be counted.
pub proof fn law_flush_succeeds(t: EdgeTableView, disk: Disk)
    requires
        t.writable(),
        t.filed(disk),
        0 < disk.len(),
        t.countable(),
        t.flush(disk).disk.len() <= u64::MAX,
    ensures
        t.flush_outcome(disk) == Some(Ok::<Flushed<EdgeTableView>, ErrorView>(t.flush(disk))),
{
    let c = EdgeTableView { dirty: Seq::empty(), ..t };
    assert forall|i: int| 0 <= i < t.dirty.len() implies c.has_range(
        (#[trigger] t.dirty[i]).0,
        t.dirty[i].1,
    ) by {
        assert(t.filed_at(t.dirty[i].0, t.dirty[i].1, disk));
        assert(t.dirty.contains((t.dirty[i].0, t.dirty[i].1)));
    }
    assert forall|idx: NodeGroupIdx, direction: Direction| #[trigger]
        c.has_range(idx, direction) implies c.group(idx, direction).encoding().len()
        <= usize::MAX by {
        assert(t.has_range(idx, direction));
    }
    lemma_write_succeeds(c, t.dirty, t.dirty.len(), disk);
}

proof fn lemma_write_succeeds(
    t: EdgeTableView,
    idxs: Seq<(NodeGroupIdx, Direction)>,
    n: nat,
    disk: Disk,
)
    requires
        t.writable(),
        distinct(t.page_infos),
        t.countable(),
        n <= idxs.len(),
        forall|i: int| 0 <= i < idxs.len() ==> t.has_range((#[trigger] idxs[i]).0, idxs[i].1),
        0 < disk.len(),
        t.write_groups(idxs, n, disk).disk.len() <= u64::MAX,
    ensures
        t.write_outcome(idxs, n, disk) == Some(
            Ok::<Flushed<EdgeTableView>, ErrorView>(t.write_groups(idxs, n, disk)),
        ),
    decreases n,
{
    if n > 0 {
        let m = (n - 1) as nat;
        let before = t.write_groups(idxs, m, disk);
        let (idx, direction) = idxs[n - 1];
        lemma_write_groups_len(t, idxs, n, disk);
        lemma_write_succeeds(t, idxs, m, disk);
        lemma_write_groups(t, idxs, m, disk);
        assert(t.has_range(idxs[n - 1].0, idxs[n - 1].1));
        lemma_alike_table(before.table, t, idx, direction);
        lemma_locate_idx(
            before.table.ranges(direction),
            direction,
            before.table.columns(),
            idx,
        );
    }
}

/// After the pages of a group were noted, they stand there once; the notes of all other groups are as
/// they were, and nothing else changed.
pub proof fn law_page_info(
    t: EdgeTableView,
    idx: NodeGroupIdx,
    direction: Direction,
    range: PageRange,
)
    ensures
        ({
            let u = t.with_page_info(idx, direction, range);
            let notes = t.page_infos;
            let known = exists|i: int|
                0 <= i < notes.len() && (#[trigger] notes[i]).group_idx == idx
                    && notes[i].direction == direction;
            &&& u == (EdgeTableView { page_infos: u.page_infos, ..t })
            &&& u.page_infos.len() == notes.len() + if known {
                0int
            } else {
                1
            }
            &&& exists|i: int|
                0 <= i < u.page_infos.len() && #[trigger] u.page_infos[i] == (
                CSREdgeGroupPageInfo { group_idx: idx, direction, page_range: range })
            &&& forall|i: int|
                0 <= i < notes.len() && ((#[trigger] notes[i]).group_idx != idx
                    || notes[i].direction != direction) ==> u.page_infos[i] == notes[i]
        }),
{
    let notes = t.page_infos;
    let u = t.with_page_info(idx, direction, range);
    let p = t.info_of(idx, direction);
    search::lemma_first_where(notes.len(), p);
    match search::first_where(notes.len(), p) {
        Some(i) => {
            assert(p(i));
            assert(notes[i].group_idx == idx && notes[i].direction == direction);
            assert(u.page_infos[i].page_range == range);
        },
        None => {
            assert forall|i: int| 0 <= i < notes.len() implies ((#[trigger] notes[i]).group_idx
                != idx || notes[i].direction != direction) by {
                assert(!p(i));
            }
            assert(u.page_infos[notes.len() as int].page_range == range);
        },
    }
}

} // verus!
