//! What is read from a node table after its groups were written to disk and loaded from there.

use vstd::prelude::*;

use crate::catalog::NodeLabelView;
use crate::error::ErrorView;
use crate::io::codec::concat;
use crate::io::page;
use crate::io::page::{appended_range, block_at, extends, on_disk, pages_of, Disk};
use crate::ordered_map;
use crate::ordered_map::{lookup, sorted};
use crate::search;
use crate::state::node_laws;
use crate::state::node_records;
use crate::state::node_table;
use crate::state::node_table::{
    group_records, offset_at, record_at, scan_offsets, with_dirty, NodeGroupPageInfo, NodeTableView,
};
use crate::table::node;
use crate::table::node::{chunk_blobs, types_match, GroupView};
use crate::table::row::RowView;
use crate::table::row;
use crate::types::{NodeGroupIdx, NodeId, PageRange};

verus! {

/// A table and the data file after some of its groups were written.
pub struct Flushed<T> {
    pub table: T,
    pub disk: Disk,
}

/// How many groups have pages after the first `n` of some were written one after the other, if `m`
/// had before. `None` where a group would be written before one of a lower index.
pub open spec fn turn(idxs: Seq<NodeGroupIdx>, n: nat, m: nat) -> Option<nat>
    decreases n,
{
    if n == 0 {
        Some(m)
    } else {
        match turn(idxs, (n - 1) as nat, m) {
            Some(c) => if idxs[n - 1].0 < c {
                Some(c)
            } else if idxs[n - 1].0 == c {
                Some(c + 1)
            } else {
                None
            },
            None => None,
        }
    }
}

impl GroupView {
    /// The lengths of the chunks can be written.
    pub open spec fn storable(self) -> bool {
        concat(chunk_blobs(self.chunks)).len() <= u32::MAX
    }

    /// The group without an empty chunk at its end. A refused row can leave one behind.
    pub open spec fn trimmed(self) -> GroupView {
        if self.chunks.len() > 0 && self.chunks.last().len() == 0 {
            GroupView { chunks: self.chunks.drop_last(), ..self }
        } else {
            self
        }
    }
}

/// An empty chunk at the end holds no row.
proof fn lemma_trimmed(g: GroupView)
    requires
        g.regular(),
    ensures
        g.trimmed().regular(),
        g.trimmed().num_rows() == g.num_rows(),
        g.trimmed().num_live_rows() == g.num_live_rows(),
        g.trimmed().is_full() == g.is_full(),
        g.storable() ==> g.trimmed().storable(),
        forall|row: u64| #[trigger] g.trimmed().read(row) == g.read(row),
        forall|row: u64| #[trigger] g.trimmed().node_at(row) == g.node_at(row),
{
    let h = g.trimmed();
    if g.chunks.len() > 0 && g.chunks.last().len() == 0 {
        let n = g.chunks.len() - 1;
        assert(g.chunks[n].start_row == 2048 * n);
        assert forall|i: int| 0 <= i < h.chunks.len() implies #[trigger] h.chunks[i]
            == g.chunks[i] by {}
        assert(h.regular()) by {
            assert forall|i: int| 0 <= i < h.chunks.len() implies (#[trigger] h.chunks[i]).valid()
                && h.chunks[i].start_row == 2048 * i && h.chunks[i].len() <= 2048
                && h.chunks[i].aligned() && row::has_schema(
                h.chunks[i].columns,
                h.schema,
            ) by {
                assert(h.chunks[i] == g.chunks[i]);
            }
            assert forall|i: int| 0 <= i < h.chunks.len() - 1 implies (
            #[trigger] h.chunks[i]).len() == 2048 by {
                assert(h.chunks[i] == g.chunks[i]);
            }
        }
        if n > 0 {
            assert(g.chunks[n - 1].start_row == 2048 * (n - 1) && g.chunks[n - 1].len() == 2048);
        }
        assert(h.num_rows() == g.num_rows());
        assert forall|row: u64| #[trigger] h.find_chunk(row) == g.find_chunk(row) by {
            let i = row as int / 2048;
            if i < n {
                assert(h.chunks[i] == g.chunks[i]);
            }
        }
        assert forall|row: u64| #[trigger] h.read(row) == g.read(row) by {
            assert(h.find_chunk(row) == g.find_chunk(row));
        }
        assert forall|row: u64| #[trigger] h.node_at(row) == g.node_at(row) by {
            assert(h.find_chunk(row) == g.find_chunk(row));
        }
        assert(g.chunks[n].valid());
        assert(g.chunks[n].deleted =~= Seq::empty());
        node::lemma_live_prefix(g.chunks, h.chunks, n as nat);
        assert(chunk_blobs(g.chunks).drop_last() =~= chunk_blobs(h.chunks));
    }
}

/// The group with or without an empty chunk at its end.
pub open spec fn same_rows(a: GroupView, g: GroupView) -> bool {
    a == g || a == g.trimmed()
}

/// The pages hold the rows of the group.
pub open spec fn holds_group(disk: Disk, info: NodeGroupPageInfo, g: GroupView) -> bool {
    &&& on_disk(disk, info.page_range)
    &&& block_at(disk, info.page_range) == concat(pages_of(g.encoding())) || block_at(
        disk,
        info.page_range,
    ) == concat(pages_of(g.trimmed().encoding()))
}

/// The blocks that some ranges of pages hold.
pub open spec fn node_blocks(disk: Disk, infos: Seq<NodeGroupPageInfo>) -> Seq<Seq<u8>> {
    Seq::new(infos.len(), |i: int| block_at(disk, infos[i].page_range))
}

impl NodeTableView {
    /// A group is appended to the file, and its pages are noted.
    pub open spec fn write_group(self, idx: NodeGroupIdx, disk: Disk) -> Flushed<NodeTableView> {
        let pages = pages_of(self.groups[idx.0 as int].encoding());
        Flushed {
            table: self.with_page_info(idx, appended_range(disk, pages)),
            disk: disk + pages,
        }
    }

    /// The first `n` of some groups are written one after the other.
    pub open spec fn write_groups(
        self,
        idxs: Seq<NodeGroupIdx>,
        n: nat,
        disk: Disk,
    ) -> Flushed<NodeTableView>
        decreases n,
    {
        if n == 0 {
            Flushed { table: self, disk }
        } else {
            let f = self.write_groups(idxs, (n - 1) as nat, disk);
            f.table.write_group(idxs[n - 1], f.disk)
        }
    }

    /// All dirty groups are written, in the order in which they became dirty.
    pub open spec fn flush(self, disk: Disk) -> Flushed<NodeTableView> {
        (NodeTableView { dirty: Seq::empty(), ..self }).write_groups(
            self.dirty,
            self.dirty.len(),
            disk,
        )
    }

    /// What writing the first `n` of some groups one after the other gives. `None` where a group is too
    /// large, or the file would have too many pages.
    pub open spec fn write_outcome(
        self,
        idxs: Seq<NodeGroupIdx>,
        n: nat,
        disk: Disk,
    ) -> Option<Flushed<NodeTableView>>
        decreases n,
    {
        if n == 0 {
            Some(Flushed { table: self, disk })
        } else {
            match self.write_outcome(idxs, (n - 1) as nat, disk) {
                Some(f) => {
                    let g = f.table.groups[idxs[n - 1].0 as int];
                    let count = pages_of(g.encoding()).len();
                    if g.serializable() && count <= u32::MAX && f.disk.len() + count <= u64::MAX {
                        Some(f.table.write_group(idxs[n - 1], f.disk))
                    } else {
                        None
                    }
                },
                None => None,
            }
        }
    }

    /// What writing all dirty groups gives.
    pub open spec fn flush_outcome(self, disk: Disk) -> Option<Flushed<NodeTableView>> {
        (NodeTableView { dirty: Seq::empty(), ..self }).write_outcome(
            self.dirty,
            self.dirty.len(),
            disk,
        )
    }

    /// The number of groups that have rows.
    pub open spec fn filled(self) -> nat {
        if self.groups.len() > 0 && self.groups.last().num_rows() == 0 {
            (self.groups.len() - 1) as nat
        } else {
            self.groups.len()
        }
    }

    /// Group `i` is on the pages noted for it unless it is dirty, and writing the dirty groups gives
    /// pages to every group that has rows, in the order of the groups.
    pub open spec fn filed(self, disk: Disk) -> bool {
        &&& forall|i: int|
            0 <= i < self.page_infos.len() ==> (#[trigger] self.page_infos[i]).group_idx.0 == i
        &&& turn(self.dirty, self.dirty.len(), self.page_infos.len()) == Some(self.filled())
        &&& forall|i: int|
            0 <= i < self.page_infos.len() && !self.dirty.contains(NodeGroupIdx(i as u64))
                ==> holds_group(disk, #[trigger] self.page_infos[i], self.groups[i])
    }

    pub open spec fn storable(self) -> bool {
        forall|i: int| 0 <= i < self.groups.len() ==> (#[trigger] self.groups[i]).storable()
    }
}

proof fn lemma_write_outcome(t: NodeTableView, idxs: Seq<NodeGroupIdx>, n: nat, disk: Disk)
    ensures
        t.write_outcome(idxs, n, disk) matches Some(f) ==> f == t.write_groups(idxs, n, disk) && (
        disk.len() <= u64::MAX ==> f.disk.len() <= u64::MAX),
    decreases n,
{
    if n > 0 {
        lemma_write_outcome(t, idxs, (n - 1) as nat, disk);
    }
}

/// Where flushing succeeds, all dirty groups were written.
pub proof fn law_flush_outcome(t: NodeTableView, disk: Disk)
    ensures
        t.flush_outcome(disk) matches Some(f) ==> f == t.flush(disk) && (disk.len() <= u64::MAX
            ==> f.disk.len() <= u64::MAX),
{
    lemma_write_outcome(
        NodeTableView { dirty: Seq::empty(), ..t },
        t.dirty,
        t.dirty.len(),
        disk,
    );
}

/// Where a group cannot be written, none behind it is.
pub proof fn lemma_outcome_stuck(
    t: NodeTableView,
    idxs: Seq<NodeGroupIdx>,
    i: nat,
    n: nat,
    disk: Disk,
)
    requires
        i <= n,
        t.write_outcome(idxs, i, disk) is None,
    ensures
        t.write_outcome(idxs, n, disk) is None,
    decreases n - i,
{
    if i < n {
        lemma_outcome_stuck(t, idxs, i, (n - 1) as nat, disk);
    }
}

proof fn lemma_turn(idxs: Seq<NodeGroupIdx>, n: nat, m: nat)
    requires
        turn(idxs, n, m) is Some,
    ensures
        m <= turn(idxs, n, m)->Some_0,
        forall|i: int| 0 <= i < n ==> (#[trigger] idxs[i]).0 < turn(idxs, n, m)->Some_0,
    decreases n,
{
    if n > 0 {
        lemma_turn(idxs, (n - 1) as nat, m);
    }
}

proof fn lemma_turn_earlier(idxs: Seq<NodeGroupIdx>, i: nat, n: nat, m: nat)
    requires
        i <= n,
        turn(idxs, n, m) is Some,
    ensures
        turn(idxs, i, m) is Some,
        turn(idxs, i, m)->Some_0 <= turn(idxs, n, m)->Some_0,
    decreases n - i,
{
    if i < n {
        lemma_turn_earlier(idxs, i, (n - 1) as nat, m);
    }
}

proof fn lemma_turn_prefix(a: Seq<NodeGroupIdx>, b: Seq<NodeGroupIdx>, n: nat, m: nat)
    requires
        n <= a.len(),
        n <= b.len(),
        forall|i: int| 0 <= i < n ==> #[trigger] a[i] == b[i],
    ensures
        turn(a, n, m) == turn(b, n, m),
    decreases n,
{
    if n > 0 {
        lemma_turn_prefix(a, b, (n - 1) as nat, m);
        assert(a[n - 1] == b[n - 1]);
    }
}

/// A group that is written late enough can be written once more.
proof fn lemma_turn_with_dirty(dirty: Seq<NodeGroupIdx>, idx: NodeGroupIdx, m: nat)
    requires
        turn(dirty, dirty.len(), m) is Some,
        idx.0 <= turn(dirty, dirty.len(), m)->Some_0,
    ensures
        ({
            let c = turn(dirty, dirty.len(), m)->Some_0;
            let d = with_dirty(dirty, idx);
            turn(d, d.len(), m) == Some(
                if idx.0 == c {
                    c + 1
                } else {
                    c
                },
            )
        }),
{
    let d = with_dirty(dirty, idx);
    lemma_turn(dirty, dirty.len(), m);
    if dirty.contains(idx) {
        let i = choose|i: int| 0 <= i < dirty.len() && dirty[i] == idx;
        assert(dirty[i].0 < turn(dirty, dirty.len(), m)->Some_0);
    } else {
        lemma_turn_prefix(dirty, d, dirty.len(), m);
        assert(d[d.len() - 1] == idx);
    }
}

proof fn lemma_pages_small(g: GroupView)
    requires
        g.storable(),
        g.dense(),
    ensures
        pages_of(g.encoding()).len() <= u32::MAX,
{
    node::lemma_head_len(g);
}

/// What writing groups one after the other does.
proof fn lemma_write_groups(t: NodeTableView, idxs: Seq<NodeGroupIdx>, n: nat, disk: Disk)
    requires
        t.regular(),
        t.storable(),
        n <= idxs.len(),
        forall|i: int| 0 <= i < idxs.len() ==> (#[trigger] idxs[i]).0 < t.groups.len(),
        turn(idxs, n, t.page_infos.len()) is Some,
        turn(idxs, n, t.page_infos.len())->Some_0 <= t.groups.len(),
        forall|i: int|
            0 <= i < t.page_infos.len() ==> (#[trigger] t.page_infos[i]).group_idx.0 == i,
        0 < disk.len(),
        t.write_groups(idxs, n, disk).disk.len() <= u64::MAX,
    ensures
        ({
            let f = t.write_groups(idxs, n, disk);
            let infos = f.table.page_infos;
            &&& f.table == (NodeTableView { page_infos: infos, ..t })
            &&& extends(f.disk, disk)
            &&& infos.len() == turn(idxs, n, t.page_infos.len())->Some_0
            &&& forall|i: int| 0 <= i < infos.len() ==> (#[trigger] infos[i]).group_idx.0 == i
            &&& forall|i: int|
                0 <= i < infos.len() && (idxs.take(n as int).contains(NodeGroupIdx(i as u64)) || (i
                    < t.page_infos.len() && holds_group(disk, t.page_infos[i], t.groups[i])))
                    ==> holds_group(f.disk, #[trigger] infos[i], t.groups[i])
        }),
    decreases n,
{
    if n > 0 {
        let m = (n - 1) as nat;
        let before = t.write_groups(idxs, m, disk);
        let f = t.write_groups(idxs, n, disk);
        let idx = idxs[m as int];
        let k = idx.0 as int;
        let g = t.groups[k];
        let pages = pages_of(g.encoding());
        assert(g.regular() && g.storable());
        lemma_pages_small(g);
        lemma_turn_earlier(idxs, m, n, t.page_infos.len());
        lemma_write_groups(t, idxs, m, disk);
        let old_infos = before.table.page_infos;
        let infos = f.table.page_infos;
        let range = appended_range(before.disk, pages);
        let info = NodeGroupPageInfo { group_idx: idx, page_range: range };
        let p = before.table.info_of(idx);
        assert forall|i: int| 0 <= i < old_infos.len() && i != k implies !#[trigger] p(i) by {
            assert(old_infos[i].group_idx.0 == i);
        }
        if k < old_infos.len() {
            assert(old_infos[k].group_idx.0 == k);
            assert(p(k));
            search::lemma_first_where_is(old_infos.len(), p, k);
            assert(infos == old_infos.update(k, info));
        } else {
            search::lemma_first_where_none(old_infos.len(), p);
            assert(infos == old_infos.push(info));
        }
        page::law_append_pages(before.disk, pages);
        assert(holds_group(f.disk, info, g));
        assert forall|i: int| 0 <= i < infos.len() implies (#[trigger] infos[i]).group_idx.0
            == i by {
            if i != k {
                assert(old_infos[i].group_idx.0 == i);
            }
        }
        assert forall|i: int|
            0 <= i < infos.len() && (idxs.take(n as int).contains(NodeGroupIdx(i as u64)) || (i
                < t.page_infos.len() && holds_group(
                disk,
                t.page_infos[i],
                t.groups[i],
            ))) implies holds_group(f.disk, #[trigger] infos[i], t.groups[i]) by {
            if i != k {
                assert(infos[i] == old_infos[i]);
                if idxs.take(n as int).contains(NodeGroupIdx(i as u64)) {
                    let j = choose|j: int|
                        0 <= j < idxs.take(n as int).len() && idxs.take(n as int)[j]
                            == NodeGroupIdx(i as u64);
                    assert(idxs.take(m as int)[j] == NodeGroupIdx(i as u64));
                }
                assert(holds_group(before.disk, old_infos[i], t.groups[i]));
                assert(on_disk(before.disk, old_infos[i].page_range));
            }
        }
    }
}

/// A new table is filed.
pub proof fn law_empty_filed(schema: NodeLabelView, disk: Disk)
    ensures
        NodeTableView::empty(schema).filed(disk),
{
}

/// The number of filled groups is that of all groups but an empty last one.
proof fn lemma_filled(t: NodeTableView)
    requires
        t.regular(),
    ensures
        t.filled() <= t.groups.len() <= t.filled() + 1,
        forall|i: int| 0 <= i < t.filled() ==> (#[trigger] t.groups[i]).num_rows() > 0,
        forall|i: int| t.filled() <= i < t.groups.len() ==> (#[trigger] t.groups[i]).num_rows() == 0,
{
    assert forall|i: int| 0 <= i < t.filled() implies (#[trigger] t.groups[i]).num_rows() > 0 by {
        node::law_dense_bounds(t.groups[i]);
    }
}

/// A table that is filed stays so when more is written to the file.
pub proof fn law_extended_filed(t: NodeTableView, disk: Disk, after: Disk)
    requires
        t.filed(disk),
        extends(after, disk),
    ensures
        t.filed(after),
{
    assert forall|i: int|
        0 <= i < t.page_infos.len() && !t.dirty.contains(
            NodeGroupIdx(i as u64),
        ) implies holds_group(after, #[trigger] t.page_infos[i], t.groups[i]) by {
        assert(holds_group(disk, t.page_infos[i], t.groups[i]));
        assert(on_disk(disk, t.page_infos[i].page_range));
    }
}

/// Flushing a filed table leaves it filed with nothing dirty, and gives pages to every group that
/// has rows.
pub proof fn law_flush_files(t: NodeTableView, disk: Disk)
    requires
        t.regular(),
        t.storable(),
        t.filed(disk),
        0 < disk.len(),
        t.flush(disk).disk.len() <= u64::MAX,
    ensures
        ({
            let f = t.flush(disk);
            &&& f.table == (NodeTableView {
                page_infos: f.table.page_infos,
                dirty: Seq::empty(),
                ..t
            })
            &&& extends(f.disk, disk)
            &&& f.table.regular()
            &&& f.table.filed(f.disk)
            &&& f.table.page_infos.len() == t.filled()
            &&& forall|i: int|
                0 <= i < t.filled() ==> holds_group(
                    f.disk,
                    #[trigger] f.table.page_infos[i],
                    t.groups[i],
                )
        }),
{
    let c = NodeTableView { dirty: Seq::empty(), ..t };
    let f = t.flush(disk);
    lemma_filled(t);
    assert forall|i: int| 0 <= i < c.groups.len() implies (#[trigger] c.groups[i]).storable() by {
        assert(t.groups[i].storable());
    }
    assert(c.regular()) by {
        assert forall|i: int| 0 <= i < c.groups.len() implies (#[trigger] c.groups[i]).regular()
            && c.groups[i].schema == c.columns() && c.groups[i].group_idx.0 == i by {
            assert(t.groups[i].regular());
        }
        assert forall|i: int| 0 <= i < c.groups.len() - 1 implies (
        #[trigger] c.groups[i]).is_full() by {
            assert(t.groups[i].is_full());
        }
        assert forall|i: int| 0 <= i < c.groups.len() implies (#[trigger] c.groups[i]).valid()
            && c.groups[i].dense() && c.groups[i].group_idx.0 < c.groups.len() by {
            assert(t.groups[i].regular());
        }
    }
    lemma_turn(t.dirty, t.dirty.len(), t.page_infos.len());
    lemma_write_groups(c, t.dirty, t.dirty.len(), disk);
    assert(t.dirty.take(t.dirty.len() as int) =~= t.dirty);
    let infos = f.table.page_infos;
    assert forall|i: int| 0 <= i < t.filled() implies holds_group(
        f.disk,
        #[trigger] infos[i],
        t.groups[i],
    ) by {
        if !t.dirty.contains(NodeGroupIdx(i as u64)) {
            if i >= t.page_infos.len() {
                lemma_turn_covers(t.dirty, t.dirty.len(), t.page_infos.len(), i);
                assert(false);
            }
            assert(holds_group(disk, t.page_infos[i], t.groups[i]));
        }
    }
    assert(f.table.regular()) by {
        assert(f.table.groups == c.groups && f.table.schema == c.schema);
    }
}

/// Every group that gets its first pages is among those that are written.
proof fn lemma_turn_covers(idxs: Seq<NodeGroupIdx>, n: nat, m: nat, k: int)
    requires
        n <= idxs.len(),
        turn(idxs, n, m) is Some,
        m <= k < turn(idxs, n, m)->Some_0,
    ensures
        idxs.contains(NodeGroupIdx(k as u64)),
    decreases n,
{
    if n > 0 {
        lemma_turn_earlier(idxs, (n - 1) as nat, n, m);
        if k < turn(idxs, (n - 1) as nat, m)->Some_0 {
            lemma_turn_covers(idxs, (n - 1) as nat, m, k);
        } else {
            assert(idxs[n - 1] == NodeGroupIdx(k as u64));
        }
    }
}

/// If `offsets` has this offset for the node, the node is in the row there, which is below the bound.
/// If the node is in the row here, and that is below the bound, `offsets` has one for it that is not
/// before here.
pub open spec fn noted_below(
    t: NodeTableView,
    offsets: Seq<(u64, u64)>,
    bound: int,
    id: u64,
    offset: u64,
) -> bool {
    let inside = offset < bound && t.node_in(offset) == Some(NodeId(id));
    &&& lookup(offsets, id) == Some(offset) ==> inside
    &&& inside ==> (lookup(offsets, id) matches Some(o) && offset <= o)
}

/// The offsets are those of the last rows below a bound that nodes are in.
pub open spec fn all_below(t: NodeTableView, offsets: Seq<(u64, u64)>, bound: int) -> bool {
    forall|id: u64, offset: u64| #[trigger] noted_below(t, offsets, bound, id, offset)
}

/// The rows of a group are noted one after the other.
proof fn lemma_scan(t: NodeTableView, j: int, g: GroupView, base: Seq<(u64, u64)>, n: nat)
    requires
        t.regular(),
        0 <= j < t.groups.len(),
        same_rows(g, t.groups[j]),
        sorted(base),
        all_below(t, base, j * 65536),
        n <= t.groups[j].num_rows(),
    ensures
        scan_offsets(g, NodeGroupIdx(j as u64), base, n) matches Some(s) && sorted(s)
            && all_below(t, s, j * 65536 + n),
    decreases n,
{
    assert(t.groups[j].regular());
    lemma_trimmed(t.groups[j]);
    if n > 0 {
        lemma_scan(t, j, g, base, (n - 1) as nat);
        let before = scan_offsets(g, NodeGroupIdx(j as u64), base, (n - 1) as nat)->Some_0;
        let row = (n - 1) as u64;
        let offset = offset_at(NodeGroupIdx(j as u64), row);
        node::law_dense_bounds(t.groups[j]);
        assert(row < 65536 && offset < 0x1_0000_0000_0000_0000);
        let o = offset as u64;
        assert(o as int / 65536 == j && o % 65536 == row);
        assert(record_at(g, row) == record_at(t.groups[j], row)) by {
            assert(t.groups[j].trimmed().read(row) == t.groups[j].read(row));
            assert(t.groups[j].trimmed().node_at(row) == t.groups[j].node_at(row));
        }
        let s = scan_offsets(g, NodeGroupIdx(j as u64), base, n)->Some_0;
        if record_at(g, row) is Some {
            ordered_map::law_put_then_lookup(before, record_at(g, row)->Some_0.node_id.0, o, 0);
        }
        assert forall|id: u64, x: u64| #[trigger]
            noted_below(t, s, j * 65536 + n, id, x) by {
            assert(noted_below(t, before, j * 65536 + n - 1, id, x));
            assert(noted_below(t, before, j * 65536 + n - 1, id, o));
            match record_at(g, row) {
                Some(record) => {
                    ordered_map::law_put_then_lookup(before, record.node_id.0, o, id);
                },
                None => {},
            }
        }
    } else {
        assert(j * 65536 + n == j * 65536);
    }
}

/// A group that pages hold is read from them, but for an empty chunk at its end.
proof fn lemma_group_loads(t: NodeTableView, j: int, block: Seq<u8>) -> (g: GroupView)
    requires
        t.regular(),
        t.storable(),
        0 <= j < t.groups.len(),
        block == concat(pages_of(t.groups[j].encoding())) || block == concat(
            pages_of(t.groups[j].trimmed().encoding()),
        ),
    ensures
        same_rows(g, t.groups[j]),
        GroupView::parse(t.columns(), NodeGroupIdx(j as u64), block) == Some(
            Ok::<GroupView, ErrorView>(g),
        ),
        g.sized(),
        g.num_rows() == t.groups[j].num_rows(),
{
    let own = t.groups[j];
    assert(own.regular() && own.storable() && own.schema == t.columns() && own.group_idx.0 == j);
    lemma_trimmed(own);
    let g = if block == concat(pages_of(own.encoding())) {
        own
    } else {
        own.trimmed()
    };
    assert forall|i: int| 0 <= i < g.chunks.len() implies row::has_schema(
        (#[trigger] g.chunks[i]).columns,
        g.schema,
    ) by {}
    node::law_group_roundtrip(g);
    node::law_dense_bounds(g);
    g
}

/// Nothing is behind the last row of a group.
proof fn lemma_below_next(t: NodeTableView, offsets: Seq<(u64, u64)>, j: int)
    requires
        t.regular(),
        0 <= j < t.groups.len(),
        all_below(t, offsets, j * 65536 + t.groups[j].num_rows()),
    ensures
        all_below(t, offsets, (j + 1) * 65536),
{
    let g = t.groups[j];
    assert(g.regular());
    node::law_dense_bounds(g);
    assert forall|id: u64, x: u64| #[trigger]
        noted_below(t, offsets, (j + 1) * 65536, id, x) by {
        assert(noted_below(t, offsets, j * 65536 + g.num_rows(), id, x));
        if j * 65536 + g.num_rows() <= x < (j + 1) * 65536 {
            node_laws::lemma_no_record(g, (x % 65536) as u64);
        }
    }
}

/// Tables of the same schema whose groups hold the same rows.
pub open spec fn same_groups(l: NodeTableView, t: NodeTableView, n: nat) -> bool {
    &&& l.schema == t.schema
    &&& l.groups.len() == n
    &&& n <= t.groups.len()
    &&& forall|i: int| 0 <= i < n ==> same_rows(#[trigger] l.groups[i], t.groups[i])
}

/// The groups that pages hold are loaded one after the other.
proof fn lemma_load(
    t: NodeTableView,
    infos: Seq<NodeGroupPageInfo>,
    blocks: Seq<Seq<u8>>,
    n: nat,
) -> (l: NodeTableView)
    requires
        t.regular(),
        t.storable(),
        n <= infos.len() <= t.groups.len(),
        blocks.len() == infos.len(),
        forall|i: int| 0 <= i < infos.len() ==> (#[trigger] infos[i]).group_idx.0 == i,
        forall|i: int|
            0 <= i < infos.len() ==> #[trigger] blocks[i] == concat(
                pages_of(t.groups[i].encoding()),
            ) || blocks[i] == concat(pages_of(t.groups[i].trimmed().encoding())),
    ensures
        NodeTableView::load(t.schema, infos, blocks, n) == Some(
            Ok::<NodeTableView, ErrorView>(l),
        ),
        same_groups(l, t, n),
        forall|i: int|
            0 <= i < n ==> GroupView::parse(t.columns(), NodeGroupIdx(i as u64), blocks[i]) == Some(
                Ok::<GroupView, ErrorView>(#[trigger] l.groups[i]),
            ),
        l.page_infos == infos.take(n as int),
        l.dirty == Seq::<NodeGroupIdx>::empty(),
        sorted(l.offsets),
        all_below(t, l.offsets, n as int * 65536),
    decreases n,
{
    if n == 0 {
        let l = NodeTableView::empty(t.schema);
        assert(infos.take(0) =~= Seq::empty());
        assert forall|id: u64, x: u64| #[trigger] noted_below(t, l.offsets, 0, id, x) by {}
        l
    } else {
        let m = (n - 1) as nat;
        let before = lemma_load(t, infos, blocks, m);
        let j = m as int;
        assert(infos[j].group_idx == NodeGroupIdx(j as u64));
        assert(blocks[j] == blocks[j]);
        let g = lemma_group_loads(t, j, blocks[j]);
        lemma_scan(t, j, g, before.offsets, g.num_rows());
        let offsets = scan_offsets(
            g,
            NodeGroupIdx(j as u64),
            before.offsets,
            g.num_rows(),
        )->Some_0;
        let l = NodeTableView {
            groups: before.groups.push(g),
            offsets,
            page_infos: before.page_infos.push(infos[j]),
            ..before
        };
        assert(l.page_infos =~= infos.take(n as int));
        assert forall|i: int| 0 <= i < n implies same_rows(#[trigger] l.groups[i], t.groups[i])
            && GroupView::parse(t.columns(), NodeGroupIdx(i as u64), blocks[i]) == Some(
            Ok::<GroupView, ErrorView>(l.groups[i]),
        ) by {
            if i < m {
                assert(l.groups[i] == before.groups[i]);
            }
        }
        lemma_below_next(t, offsets, j);
        l
    }
}

/// Every node is below the end of the groups that have rows.
proof fn lemma_below_filled(t: NodeTableView, id: u64)
    requires
        t.tidy(),
    ensures
        lookup(t.offsets, id) matches Some(o) ==> o < t.filled() * 65536,
{
    lemma_filled(t);
    if lookup(t.offsets, id) is Some {
        node_laws::lemma_offset_row(t, NodeId(id));
        let n = lookup(t.offsets, id)->Some_0 as int / 65536;
        if n >= t.filled() {
            assert(t.groups[n].num_rows() == 0);
        }
    }
}

/// The offsets of the last rows that nodes are in are the table's.
proof fn lemma_all_offsets(t: NodeTableView, offsets: Seq<(u64, u64)>)
    requires
        t.tidy(),
        t.complete(),
        sorted(offsets),
        all_below(t, offsets, t.filled() as int * 65536),
    ensures
        offsets == t.offsets,
{
    assert forall|id: u64| #[trigger] lookup(offsets, id) == lookup(t.offsets, id) by {
        lemma_below_filled(t, id);
        let bound = t.filled() as int * 65536;
        match lookup(t.offsets, id) {
            Some(o) => {
                assert(t.tidy_at(id, o));
                assert(noted_below(t, offsets, bound, id, o));
                let l = lookup(offsets, id)->Some_0;
                assert(noted_below(t, offsets, bound, id, l));
                assert(t.known_at(id, l));
            },
            None => {
                if lookup(offsets, id) is Some {
                    let l = lookup(offsets, id)->Some_0;
                    assert(noted_below(t, offsets, bound, id, l));
                    assert(t.known_at(id, l));
                }
            },
        }
    }
    ordered_map::law_same_lookups(offsets, t.offsets);
}

/// A table with the same rows and the same offsets reads the same.
proof fn lemma_same_reads(l: NodeTableView, t: NodeTableView, n: nat)
    requires
        t.tidy(),
        t.complete(),
        n == t.filled(),
        same_groups(l, t, n),
        l.offsets == t.offsets,
        l.dirty == Seq::<NodeGroupIdx>::empty(),
    ensures
        l.tidy(),
        l.complete(),
        l.num_nodes() == t.num_nodes(),
        l.filled() == n,
        forall|node_id: NodeId| #[trigger] l.read(node_id) == t.read(node_id),
{
    lemma_filled(t);
    assert forall|i: int| 0 <= i < n implies (#[trigger] l.groups[i]).regular()
        && l.groups[i].schema == t.columns() && l.groups[i].group_idx.0 == i
        && l.groups[i].num_rows() == t.groups[i].num_rows() && l.groups[i].num_rows() > 0 by {
        assert(same_rows(l.groups[i], t.groups[i]));
        assert(t.groups[i].regular());
        assert(t.groups[i].num_rows() > 0);
        lemma_trimmed(t.groups[i]);
    }
    assert forall|i: int| 0 <= i < n - 1 implies (#[trigger] l.groups[i]).is_full() by {
        assert(same_rows(l.groups[i], t.groups[i]));
        assert(t.groups[i].regular());
        lemma_trimmed(t.groups[i]);
        assert(t.groups[i].is_full());
    }
    assert(l.sound()) by {
        assert forall|i: int| 0 <= i < l.groups.len() implies (#[trigger] l.groups[i]).valid()
            && l.groups[i].dense() && l.groups[i].group_idx.0 < l.groups.len() by {
            assert(l.groups[i].regular());
        }
        assert forall|i: int| 0 <= i < l.offsets.len() implies (#[trigger] l.offsets[i]).1 / 65536
            < l.groups.len() by {
            ordered_map::lemma_rank_at(t.offsets, i);
            lemma_below_filled(t, t.offsets[i].0);
        }
    }
    assert forall|offset: u64| #[trigger] l.node_in(offset) == t.node_in(offset) by {
        let k = offset as int / 65536;
        let row = (offset % 65536) as u64;
        if k < n {
            assert(same_rows(l.groups[k], t.groups[k]));
            assert(t.groups[k].regular());
            lemma_trimmed(t.groups[k]);
            assert(t.groups[k].trimmed().read(row) == t.groups[k].read(row));
            assert(t.groups[k].trimmed().node_at(row) == t.groups[k].node_at(row));
        } else if k < t.groups.len() {
            assert(t.groups[k].num_rows() == 0);
            node_laws::lemma_no_record(t.groups[k], row);
        }
    }
    assert forall|id: u64, o: u64| #[trigger] l.tidy_at(id, o) by {
        assert(t.tidy_at(id, o));
        assert(l.node_in(o) == t.node_in(o));
    }
    assert forall|id: u64, o: u64| #[trigger] l.known_at(id, o) by {
        assert(t.known_at(id, o));
        assert(l.node_in(o) == t.node_in(o));
    }
    assert forall|node_id: NodeId| #[trigger] l.read(node_id) == t.read(node_id) by {
        if t.offset(node_id) is Some {
            lemma_below_filled(t, node_id.0);
            let offset = t.offset(node_id)->Some_0;
            let k = offset as int / 65536;
            let row = (offset % 65536) as u64;
            assert(same_rows(l.groups[k], t.groups[k]));
            assert(t.groups[k].regular());
            lemma_trimmed(t.groups[k]);
            assert(t.groups[k].trimmed().read(row) == t.groups[k].read(row));
        }
    }
    lemma_same_live(l, t, n);
}

/// Groups with the same rows were given to the same nodes.
proof fn lemma_same_row_of(l: NodeTableView, t: NodeTableView, n: nat, o: u64, x: NodeId)
    requires
        t.regular(),
        n == t.filled(),
        same_groups(l, t, n),
    ensures
        l.row_of(o, x) == t.row_of(o, x),
{
    lemma_filled(t);
    let k = o as int / 65536;
    let row = (o % 65536) as u64;
    if k < n {
        let g = t.groups[k];
        let h = l.groups[k];
        assert(same_rows(h, g));
        assert(g.regular());
        lemma_trimmed(g);
        assert(g.trimmed().node_at(row) == g.node_at(row));
    }
}

/// Groups with the same rows have the same records.
proof fn lemma_same_records(l: NodeTableView, t: NodeTableView, n: nat)
    requires
        t.regular(),
        n == t.filled(),
        same_groups(l, t, n),
    ensures
        l.records() == t.records(),
{
    lemma_filled(t);
    assert forall|i: int| 0 <= i < n implies group_records(
        #[trigger] l.groups[i],
        l.groups[i].num_rows(),
    ) == group_records(t.groups[i], t.groups[i].num_rows()) by {
        let g = t.groups[i];
        let h = l.groups[i];
        assert(same_rows(h, g));
        assert(g.regular());
        lemma_trimmed(g);
        assert forall|row: int| 0 <= row < g.num_rows() implies #[trigger] record_at(h, row as u64)
            == record_at(g, row as u64) by {
            assert(g.trimmed().read(row as u64) == g.read(row as u64));
            assert(g.trimmed().node_at(row as u64) == g.node_at(row as u64));
        }
        node_records::lemma_group_records_same(h, g, g.num_rows());
    }
    node_records::lemma_table_records_same(l.groups, t.groups, n);
    if n < t.groups.len() {
        assert(t.groups =~= t.groups.take(n as int).push(t.groups[n as int]));
        node_records::lemma_push_records(t.groups.take(n as int), t.groups[n as int]);
        node_records::lemma_table_records_same(t.groups.take(n as int), t.groups, n);
    }
}

proof fn lemma_same_live(l: NodeTableView, t: NodeTableView, n: nat)
    requires
        t.regular(),
        n == t.filled(),
        same_groups(l, t, n),
    ensures
        l.num_nodes() == t.num_nodes(),
{
    lemma_filled(t);
    lemma_same_live_upto(l, t, n, n);
    if n < t.groups.len() {
        node::law_dense_bounds(t.groups[n as int]);
    }
}

proof fn lemma_same_live_upto(l: NodeTableView, t: NodeTableView, n: nat, m: nat)
    requires
        t.regular(),
        same_groups(l, t, n),
        m <= n,
    ensures
        node_table::live_rows(l.groups, m) == node_table::live_rows(t.groups, m),
    decreases m,
{
    if m > 0 {
        lemma_same_live_upto(l, t, n, (m - 1) as nat);
        assert(same_rows(l.groups[m - 1], t.groups[m - 1]));
        assert(t.groups[m - 1].regular());
        lemma_trimmed(t.groups[m - 1]);
    }
}

/// A table whose dirty groups were written is loaded from the pages that were noted: every node is
/// read as before, there are as many nodes, with the same records in the same order, and the loaded
/// table can be worked on and flushed in turn.
pub proof fn law_flush_then_load(t: NodeTableView, disk: Disk) -> (l: NodeTableView)
    requires
        t.tidy(),
        t.complete(),
        t.storable(),
        t.filed(disk),
        0 < disk.len(),
        t.flush(disk).disk.len() <= u64::MAX,
    ensures
        ({
            let f = t.flush(disk);
            let infos = f.table.page_infos;
            &&& extends(f.disk, disk)
            &&& NodeTableView::load(t.schema, infos, node_blocks(f.disk, infos), infos.len())
                == Some(Ok::<NodeTableView, ErrorView>(l))
            &&& forall|i: int| 0 <= i < infos.len() ==> on_disk(f.disk, (#[trigger] infos[i]).page_range)
            &&& l.schema == t.schema
            &&& l.page_infos == infos
            &&& l.tidy()
            &&& l.complete()
            &&& l.storable()
            &&& l.filed(f.disk)
            &&& l.offsets == t.offsets
            &&& l.num_nodes() == t.num_nodes()
            &&& l.records() == t.records()
            &&& forall|node_id: NodeId| #[trigger] l.read(node_id) == t.read(node_id)
            &&& forall|o: u64, node_id: NodeId| #[trigger]
                l.row_of(o, node_id) == t.row_of(o, node_id)
        }),
{
    let f = t.flush(disk);
    let infos = f.table.page_infos;
    let blocks = node_blocks(f.disk, infos);
    law_flush_files(t, disk);
    lemma_filled(t);
    assert forall|i: int| 0 <= i < infos.len() implies (#[trigger] infos[i]).group_idx.0 == i by {
        assert(f.table.page_infos[i].group_idx.0 == i);
    }
    assert forall|i: int| 0 <= i < infos.len() implies #[trigger] blocks[i] == concat(
        pages_of(t.groups[i].encoding()),
    ) || blocks[i] == concat(pages_of(t.groups[i].trimmed().encoding())) by {
        assert(holds_group(f.disk, f.table.page_infos[i], t.groups[i]));
    }
    let l = lemma_load(t, infos, blocks, infos.len());
    assert(infos.take(infos.len() as int) =~= infos);
    lemma_all_offsets(t, l.offsets);
    lemma_same_reads(l, t, t.filled());
    lemma_same_records(l, t, t.filled());
    assert forall|o: u64, node_id: NodeId| #[trigger] l.row_of(o, node_id) == t.row_of(
        o,
        node_id,
    ) by {
        lemma_same_row_of(l, t, t.filled(), o, node_id);
    }
    assert forall|i: int| 0 <= i < l.groups.len() implies (#[trigger] l.groups[i]).storable() by {
        assert(same_rows(l.groups[i], t.groups[i]));
        assert(t.groups[i].regular() && t.groups[i].storable());
        lemma_trimmed(t.groups[i]);
    }
    assert forall|i: int|
        0 <= i < l.page_infos.len() && !l.dirty.contains(
            NodeGroupIdx(i as u64),
        ) implies holds_group(f.disk, #[trigger] l.page_infos[i], l.groups[i]) by {
        assert(holds_group(f.disk, f.table.page_infos[i], t.groups[i]));
        assert(same_rows(l.groups[i], t.groups[i]));
        assert(blocks[i] == block_at(f.disk, infos[i].page_range));
        lemma_loaded_holds(t, i, f.disk, infos[i], l.groups[i]);
    }
    l
}

/// The pages of a group hold what was loaded from them.
proof fn lemma_loaded_holds(
    t: NodeTableView,
    i: int,
    disk: Disk,
    info: NodeGroupPageInfo,
    g: GroupView,
)
    requires
        t.regular(),
        t.storable(),
        0 <= i < t.groups.len(),
        holds_group(disk, info, t.groups[i]),
        GroupView::parse(
            t.columns(),
            NodeGroupIdx(i as u64),
            block_at(disk, info.page_range),
        ) == Some(Ok::<GroupView, ErrorView>(g)),
    ensures
        holds_group(disk, info, g),
{
    let own = t.groups[i];
    let block = block_at(disk, info.page_range);
    let h = lemma_group_loads(t, i, block);
    assert(h == g);
    assert(t.groups[i].regular() && t.groups[i].storable());
    lemma_trimmed(own);
    if block != concat(pages_of(own.encoding())) {
        node::law_group_roundtrip(own.trimmed());
    } else {
        node::law_group_roundtrip(own);
    }
}

/// Inserting keeps a table filed, whether or not the node is taken.
pub proof fn law_insert_keeps_filed(
    t: NodeTableView,
    node_id: NodeId,
    values: RowView,
    disk: Disk,
)
    requires
        t.tidy(),
        t.groups.len() + 1 < 0x1_0000_0000_0000,
        t.filed(disk),
    ensures
        t.insert(node_id, values).state.filed(disk),
{
    let a = t.with_active_group();
    let s = t.insert(node_id, values).state;
    let n = a.groups.len() - 1;
    let g = a.groups[n];
    let h = g.insert(node_id, values).state;
    node_laws::lemma_active_regular(t);
    lemma_filled(t);
    assert(g.regular() && g.schema == t.columns() && g.group_idx.0 == n);
    node::law_dense_bounds(g);
    assert(a.filled() == t.filled()) by {
        if a.groups.len() > t.groups.len() && t.groups.len() > 0 {
            node::law_dense_bounds(t.groups.last());
        }
    }
    if types_match(t.columns(), values) {
        node::law_group_insert_then_read(g, node_id, values, 0);
        assert(s.groups.last() == h);
        lemma_turn_with_dirty(t.dirty, g.group_idx, t.page_infos.len());
        assert forall|i: int|
            0 <= i < s.page_infos.len() && !s.dirty.contains(
                NodeGroupIdx(i as u64),
            ) implies holds_group(disk, #[trigger] s.page_infos[i], s.groups[i]) by {
            lemma_with_dirty_has(t.dirty, g.group_idx);
            if t.dirty.contains(NodeGroupIdx(i as u64)) {
                lemma_with_dirty_keeps(t.dirty, g.group_idx, NodeGroupIdx(i as u64));
            }
            assert(i != n);
            lemma_turn(t.dirty, t.dirty.len(), t.page_infos.len());
            assert(holds_group(disk, t.page_infos[i], t.groups[i]));
            assert(s.groups[i] == t.groups[i]);
        }
    } else {
        node::law_group_mismatch_refused(g, node_id, values, 0);
        assert(s.groups.last() == h);
        assert forall|i: int|
            0 <= i < s.page_infos.len() && !s.dirty.contains(
                NodeGroupIdx(i as u64),
            ) implies holds_group(disk, #[trigger] s.page_infos[i], s.groups[i]) by {
            lemma_turn(t.dirty, t.dirty.len(), t.page_infos.len());
            assert(holds_group(disk, t.page_infos[i], t.groups[i]));
            if i == n {
                assert(t.groups[i] == g);
                lemma_refused_rows(g, node_id, values);
            } else {
                assert(s.groups[i] == t.groups[i]);
            }
        }
    }
}

/// A refused row leaves at most an empty chunk behind.
proof fn lemma_refused_rows(g: GroupView, node_id: NodeId, values: RowView)
    requires
        g.regular(),
        !g.is_full(),
        !types_match(g.schema, values),
    ensures
        ({
            let h = g.insert(node_id, values).state;
            h == g || (h.trimmed() == g && g.trimmed() == g)
        }),
{
    let a = g.with_active_chunk();
    let n = a.chunks.len() - 1;
    let h = g.insert(node_id, values).state;
    node::lemma_active_chunk(g);
    let c = a.chunks[n];
    assert(c.valid() && c.aligned() && row::has_schema(c.columns, g.schema));
    node::lemma_refused_chunk(g, c, node_id, values);
    assert(a.chunks.update(n, c) =~= a.chunks);
    if a != g {
        assert(a.chunks.drop_last() =~= g.chunks);
    }
}

proof fn lemma_with_dirty_has(dirty: Seq<NodeGroupIdx>, idx: NodeGroupIdx)
    ensures
        with_dirty(dirty, idx).contains(idx),
{
    if !dirty.contains(idx) {
        assert(dirty.push(idx)[dirty.len() as int] == idx);
    }
}

proof fn lemma_with_dirty_keeps(dirty: Seq<NodeGroupIdx>, idx: NodeGroupIdx, other: NodeGroupIdx)
    requires
        dirty.contains(other),
    ensures
        with_dirty(dirty, idx).contains(other),
{
    let i = choose|i: int| 0 <= i < dirty.len() && dirty[i] == other;
    if !dirty.contains(idx) {
        assert(dirty.push(idx)[i] == other);
    }
}

/// Deleting keeps a table filed.
pub proof fn law_delete_keeps_filed(t: NodeTableView, node_id: NodeId, disk: Disk)
    requires
        t.tidy(),
        t.filed(disk),
    ensures
        t.delete(node_id).filed(disk),
{
    if t.offset(node_id) is Some {
        node_laws::lemma_offset_row(t, node_id);
        let offset = t.offset(node_id)->Some_0;
        let n = offset as int / 65536;
        let row = (offset % 65536) as u64;
        let g = t.groups[n];
        let d = t.delete(node_id);
        assert(g.regular() && g.group_idx.0 == n);
        node::law_group_delete_hides(g, row, 0);
        lemma_filled(t);
        assert(n < t.filled()) by {
            if n >= t.filled() {
                assert(t.groups[n].num_rows() == 0);
            }
        }
        assert(d.filled() == t.filled()) by {
            if n == t.groups.len() - 1 {
                assert(d.groups.last() == g.delete(row));
            } else {
                assert(d.groups.last() == t.groups.last());
            }
        }
        lemma_turn_with_dirty(t.dirty, g.group_idx, t.page_infos.len());
        assert forall|i: int|
            0 <= i < d.page_infos.len() && !d.dirty.contains(
                NodeGroupIdx(i as u64),
            ) implies holds_group(disk, #[trigger] d.page_infos[i], d.groups[i]) by {
            lemma_with_dirty_has(t.dirty, g.group_idx);
            if t.dirty.contains(NodeGroupIdx(i as u64)) {
                lemma_with_dirty_keeps(t.dirty, g.group_idx, NodeGroupIdx(i as u64));
            }
            assert(i != n);
            lemma_turn(t.dirty, t.dirty.len(), t.page_infos.len());
            assert(holds_group(disk, t.page_infos[i], t.groups[i]));
            assert(d.groups[i] == t.groups[i]);
        }
    }
}

// ---------------------------------------------------------------------------------------------
// When flushing succeeds

impl NodeTableView {
    /// The bytes of each group can be held in memory, and its pages counted in 32 bits.
    pub open spec fn countable(self) -> bool {
        forall|i: int|
            0 <= i < self.groups.len() ==> (#[trigger] self.groups[i]).encoding().len()
                <= usize::MAX && pages_of(self.groups[i].encoding()).len() <= u32::MAX
    }
}

/// Flushing succeeds, unless a group is too large or the file would have too many pages to be counted.
pub proof fn law_flush_succeeds(t: NodeTableView, disk: Disk)
    requires
        t.regular(),
        t.storable(),
        t.filed(disk),
        t.countable(),
        t.flush(disk).disk.len() <= u64::MAX,
    ensures
        t.flush_outcome(disk) == Some(t.flush(disk)),
{
    let c = NodeTableView { dirty: Seq::empty(), ..t };
    lemma_filled(t);
    lemma_turn(t.dirty, t.dirty.len(), t.page_infos.len());
    assert forall|i: int| 0 <= i < c.groups.len() implies (#[trigger] c.groups[i]).serializable()
        && pages_of(c.groups[i].encoding()).len() <= u32::MAX by {
        let g = t.groups[i];
        assert(g.regular() && g.storable());
        node::law_dense_bounds(g);
        node::lemma_chunk_sum(g.chunks, g.chunks.len());
        let blobs = chunk_blobs(g.chunks);
        assert(blobs.take(blobs.len() as int) =~= blobs);
    }
    lemma_write_succeeds(c, t.dirty, t.dirty.len(), disk);
}

proof fn lemma_write_succeeds(t: NodeTableView, idxs: Seq<NodeGroupIdx>, n: nat, disk: Disk)
    requires
        n <= idxs.len(),
        forall|i: int| 0 <= i < n ==> (#[trigger] idxs[i]).0 < t.groups.len(),
        forall|i: int|
            0 <= i < t.groups.len() ==> (#[trigger] t.groups[i]).serializable() && pages_of(
                t.groups[i].encoding(),
            ).len() <= u32::MAX,
        t.write_groups(idxs, n, disk).disk.len() <= u64::MAX,
    ensures
        t.write_outcome(idxs, n, disk) == Some(t.write_groups(idxs, n, disk)),
        t.write_groups(idxs, n, disk).table.groups == t.groups,
    decreases n,
{
    if n > 0 {
        let before = t.write_groups(idxs, (n - 1) as nat, disk);
        let after = t.write_groups(idxs, n, disk);
        let pages = pages_of(before.table.groups[idxs[n - 1].0 as int].encoding());
        assert(after.disk == before.disk + pages);
        lemma_write_succeeds(t, idxs, (n - 1) as nat, disk);
        assert(t.groups[idxs[n - 1].0 as int].serializable());
    }
}

/// After the pages of a group were noted, they stand there once; the notes of all other groups are as
/// they were, and nothing else changed.
pub proof fn law_page_info(t: NodeTableView, idx: NodeGroupIdx, range: PageRange)
    ensures
        ({
            let u = t.with_page_info(idx, range);
            let notes = t.page_infos;
            let known = exists|i: int|
                0 <= i < notes.len() && (#[trigger] notes[i]).group_idx == idx;
            &&& u == (NodeTableView { page_infos: u.page_infos, ..t })
            &&& u.page_infos.len() == notes.len() + if known {
                0int
            } else {
                1
            }
            &&& exists|i: int|
                0 <= i < u.page_infos.len() && #[trigger] u.page_infos[i] == (NodeGroupPageInfo {
                    group_idx: idx,
                    page_range: range,
                })
            &&& forall|i: int|
                0 <= i < notes.len() && (#[trigger] notes[i]).group_idx != idx ==> u.page_infos[i]
                    == notes[i]
        }),
{
    let notes = t.page_infos;
    let u = t.with_page_info(idx, range);
    search::lemma_first_where(notes.len(), t.info_of(idx));
    match search::first_where(notes.len(), t.info_of(idx)) {
        Some(i) => {
            assert(t.info_of(idx)(i));
            assert(notes[i].group_idx == idx);
            assert(u.page_infos[i].page_range == range);
        },
        None => {
            assert forall|i: int| 0 <= i < notes.len() implies (#[trigger] notes[i]).group_idx
                != idx by {
                assert(!t.info_of(idx)(i));
            }
            assert(u.page_infos[notes.len() as int].page_range == range);
        },
    }
}

} // verus!
