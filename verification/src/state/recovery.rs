//! What is read from a database after it was written to its data file and opened from there.
//!
//! The notes of where groups stand do not tell their tables, and each table takes all of them. So what
//! is stated here is about databases in which no table takes the pages of another.

use vstd::prelude::*;

use crate::catalog::{CatalogView, EdgeTypeView, NodeLabelView};
use crate::config::MAGIC_BYTES;
use crate::error::{ErrorView, OpenErrorView};
use crate::io::binary::overwrite;
use crate::io::codec::{concat, Decoded};
use crate::io::header;
use crate::io::header::HeaderView;
use crate::io::page;
use crate::io::page::{
    appended_range, block_at, extends, on_disk, pages_of, read_range, read_ranges,
    zero_page, Disk,
};
use crate::ordered_map;
use crate::ordered_map::{lookup, mapped, put, put_all, sorted};
use crate::search;
use crate::state::database;
use crate::state::database::ManagerView;
use crate::state::edge_laws;
use crate::state::edge_laws::{group_ok, groups_ok, ranges_ok};
use crate::state::edge_persistence;
use crate::state::edge_persistence::edge_blocks;
use crate::state::edge_store;
use crate::state::edge_store::{joined_neighbors, EdgeStoreView, EdgeTables};
use crate::state::edge_table::{ranges_sound, CSREdgeGroupPageInfo, EdgeTableView, Ranges};
use crate::state::metadata;
use crate::state::metadata::{catalog_block, parse_catalog_block};
use crate::state::node_laws;
use crate::state::node_persistence;
use crate::state::node_persistence::{node_blocks, Flushed};
use crate::state::node_store;
use crate::state::node_store::{merged_offsets, NodeStoreView, NodeTables};
use crate::state::node_table::{NodeGroupPageInfo, NodeTableView};
use crate::types::{
    ColumnId, DataType, Direction, EdgeId, LabelId, NodeGroupIdx, NodeId, PageIdx, PageRange,
};

verus! {

// ---------------------------------------------------------------------------------------------
// Node stores

impl NodeStoreView {
    /// The first `n` tables are flushed one after the other.
    pub open spec fn flush_tables(self, n: nat, disk: Disk) -> Flushed<NodeStoreView>
        decreases n,
    {
        if n == 0 {
            Flushed { table: self, disk }
        } else {
            let f = self.flush_tables((n - 1) as nat, disk);
            let r = f.table.tables[n - 1].1.flush(f.disk);
            Flushed { table: f.table.with_table(n - 1, r.table), disk: r.disk }
        }
    }

    /// All tables are flushed.
    pub open spec fn flush(self, disk: Disk) -> Flushed<NodeStoreView> {
        self.flush_tables(self.tables.len(), disk)
    }

    /// What flushing the first `n` tables one after the other gives.
    pub open spec fn tables_outcome(self, n: nat, disk: Disk) -> Option<Flushed<NodeStoreView>>
        decreases n,
    {
        if n == 0 {
            Some(Flushed { table: self, disk })
        } else {
            match self.tables_outcome((n - 1) as nat, disk) {
                Some(f) => match f.table.tables[n - 1].1.flush_outcome(f.disk) {
                    Some(r) => Some(
                        Flushed { table: f.table.with_table(n - 1, r.table), disk: r.disk },
                    ),
                    None => None,
                },
                None => None,
            }
        }
    }

    /// What flushing all tables gives; `None` where something is too large to be written.
    pub open spec fn flush_outcome(self, disk: Disk) -> Option<Flushed<NodeStoreView>> {
        self.tables_outcome(self.tables.len(), disk)
    }

    /// The stores differ at most in what is dirty and where it is.
    pub open spec fn alike(self, other: NodeStoreView) -> bool {
        &&& self.catalog == other.catalog
        &&& self.tables.len() == other.tables.len()
        &&& forall|i: int|
            0 <= i < self.tables.len() ==> (#[trigger] self.tables[i]).0 == other.tables[i].0
                && self.tables[i].1 == (NodeTableView {
                page_infos: self.tables[i].1.page_infos,
                dirty: self.tables[i].1.dirty,
                ..other.tables[i].1
            })
    }

    /// Every table is written to pages or has what is to be written noted, and can be written.
    pub open spec fn filed(self, disk: Disk) -> bool {
        forall|i: int|
            0 <= i < self.tables.len() ==> {
                &&& (#[trigger] self.tables[i]).1.complete()
                &&& self.tables[i].1.storable()
                &&& self.tables[i].1.filed(disk)
            }
    }

    /// Each label of the catalog has a table with its schema, and there are no other tables.
    pub open spec fn labelled(self) -> bool {
        let labels = self.catalog.node_labels;
        &&& forall|i: int|
            0 <= i < labels.len() ==> (self.table((#[trigger] labels[i]).label_id) matches Some(t)
                && t.schema == labels[i])
        &&& forall|j: int|
            0 <= j < self.tables.len() ==> exists|i: int|
                0 <= i < labels.len() && (#[trigger] labels[i]).label_id.0 as u64 == (
                #[trigger] self.tables[j]).0
    }

    /// No table takes the pages of another: there is one table, or there are no pages.
    pub open spec fn undivided(self) -> bool {
        forall|i: int|
            0 <= i < self.tables.len() ==> (#[trigger] self.tables[i]).1.page_infos
                == self.page_infos()
    }
}

/// The tables have the same nodes at the same offsets.
pub open spec fn same_nodes(l: NodeTableView, t: NodeTableView) -> bool {
    &&& l.schema == t.schema
    &&& l.offsets == t.offsets
    &&& l.num_nodes() == t.num_nodes()
    &&& l.records() == t.records()
    &&& forall|node_id: NodeId| #[trigger] l.read(node_id) == t.read(node_id)
    &&& forall|o: u64, node_id: NodeId| #[trigger] l.row_of(o, node_id) == t.row_of(o, node_id)
}

/// The table that is loaded from the pages.
pub open spec fn reloaded_nodes(
    schema: NodeLabelView,
    infos: Seq<NodeGroupPageInfo>,
    disk: Disk,
) -> Decoded<NodeTableView> {
    NodeTableView::load(schema, infos, node_blocks(disk, infos), infos.len())
}

/// Loading from the pages gives a table with the same nodes, which is filed.
spec fn reloads_nodes(t: NodeTableView, infos: Seq<NodeGroupPageInfo>, disk: Disk) -> bool {
    &&& forall|i: int| 0 <= i < infos.len() ==> on_disk(disk, (#[trigger] infos[i]).page_range)
    &&& reloaded_nodes(t.schema, infos, disk) matches Some(Ok(l)) && same_nodes(l, t) && l.tidy()
        && l.complete() && l.storable() && l.filed(disk) && l.page_infos == infos
}

/// Where a table cannot be flushed, none behind it is.
pub proof fn lemma_nodes_stuck(s: NodeStoreView, i: nat, n: nat, disk: Disk)
    requires
        i <= n,
        s.tables_outcome(i, disk) is None,
    ensures
        s.tables_outcome(n, disk) is None,
    decreases n - i,
{
    if i < n {
        lemma_nodes_stuck(s, i, (n - 1) as nat, disk);
    }
}

/// Where flushing succeeds, all tables were flushed.
proof fn lemma_nodes_outcome(s: NodeStoreView, n: nat, disk: Disk)
    requires
        disk.len() <= u64::MAX,
    ensures
        s.tables_outcome(n, disk) matches Some(f) ==> f == s.flush_tables(n, disk) && f.disk.len()
            <= u64::MAX,
    decreases n,
{
    if n > 0 {
        lemma_nodes_outcome(s, (n - 1) as nat, disk);
        if s.tables_outcome((n - 1) as nat, disk) is Some {
            let f = s.tables_outcome((n - 1) as nat, disk)->Some_0;
            node_persistence::law_flush_outcome(f.table.tables[n - 1].1, f.disk);
        }
    }
}

proof fn lemma_nodes_extended(
    t: NodeTableView,
    infos: Seq<NodeGroupPageInfo>,
    disk: Disk,
    after: Disk,
)
    requires
        reloads_nodes(t, infos, disk),
        extends(after, disk),
    ensures
        reloads_nodes(t, infos, after),
{
    assert forall|i: int| 0 <= i < infos.len() implies on_disk(
        after,
        (#[trigger] infos[i]).page_range,
    ) && block_at(after, infos[i].page_range) == block_at(disk, infos[i].page_range) by {
        assert(on_disk(disk, infos[i].page_range));
    }
    assert(node_blocks(after, infos) =~= node_blocks(disk, infos));
    let l = reloaded_nodes(t.schema, infos, disk)->Some_0->Ok_0;
    node_persistence::law_extended_filed(l, disk, after);
}

/// What flushing tables one after the other does.
proof fn lemma_flush_nodes(s: NodeStoreView, n: nat, disk: Disk)
    requires
        s.tidy(),
        s.filed(disk),
        n <= s.tables.len(),
        0 < disk.len(),
        s.flush_tables(n, disk).disk.len() <= u64::MAX,
    ensures
        ({
            let f = s.flush_tables(n, disk);
            let u = f.table;
            &&& extends(f.disk, disk)
            &&& f.disk[0] == disk[0]
            &&& u.catalog == s.catalog
            &&& u.tables.len() == s.tables.len()
            &&& forall|i: int|
                0 <= i < s.tables.len() ==> {
                    &&& (#[trigger] u.tables[i]).0 == s.tables[i].0
                    &&& i >= n ==> u.tables[i] == s.tables[i]
                    &&& i < n ==> reloads_nodes(s.tables[i].1, u.tables[i].1.page_infos, f.disk)
                    &&& i < n ==> u.tables[i].1.tidy() && u.tables[i].1.complete()
                        && u.tables[i].1.storable() && u.tables[i].1.filed(f.disk) && same_nodes(
                        u.tables[i].1,
                        s.tables[i].1,
                    )
                }
        }),
    decreases n,
{
    if n > 0 {
        let m = n - 1;
        let before = s.flush_tables(m as nat, disk);
        let t = before.table.tables[m].1;
        let r = t.flush(before.disk);
        lemma_flush_grows(t, before.disk);
        lemma_flush_nodes(s, m as nat, disk);
        assert(before.table.tables[m] == s.tables[m]);
        assert(s.tables[m].1.tidy() && s.tables[m].1.complete() && s.tables[m].1.storable()
            && s.tables[m].1.filed(disk));
        node_persistence::law_extended_filed(t, disk, before.disk);
        let l = node_persistence::law_flush_then_load(t, before.disk);
        node_persistence::law_flush_files(t, before.disk);
        lemma_flushed_nodes(t, r.table);
        let f = s.flush_tables(n, disk);
        assert forall|i: int| 0 <= i < s.tables.len() implies {
            &&& (#[trigger] f.table.tables[i]).0 == s.tables[i].0
            &&& i >= n ==> f.table.tables[i] == s.tables[i]
            &&& i < n ==> reloads_nodes(
                s.tables[i].1,
                f.table.tables[i].1.page_infos,
                f.disk,
            )
            &&& i < n ==> f.table.tables[i].1.tidy() && f.table.tables[i].1.complete()
                && f.table.tables[i].1.storable() && f.table.tables[i].1.filed(f.disk)
                && same_nodes(f.table.tables[i].1, s.tables[i].1)
        } by {
            if i != m {
                assert(f.table.tables[i] == before.table.tables[i]);
                if i < m {
                    lemma_nodes_extended(
                        s.tables[i].1,
                        before.table.tables[i].1.page_infos,
                        before.disk,
                        f.disk,
                    );
                    node_persistence::law_extended_filed(
                        before.table.tables[i].1,
                        before.disk,
                        f.disk,
                    );
                }
            }
        }
        assert(extends(f.disk, disk)) by {
            assert forall|range: PageRange| #[trigger] on_disk(disk, range) implies on_disk(
                f.disk,
                range,
            ) && block_at(f.disk, range) == block_at(disk, range) by {
                assert(on_disk(before.disk, range));
            }
        }
    }
}

/// Flushing only appends.
proof fn lemma_flush_grows(t: NodeTableView, disk: Disk)
    ensures
        disk.len() <= t.flush(disk).disk.len(),
        0 < disk.len() ==> t.flush(disk).disk[0] == disk[0],
{
    lemma_write_grows(NodeTableView { dirty: Seq::empty(), ..t }, t.dirty, t.dirty.len(), disk);
}

proof fn lemma_write_grows(
    t: NodeTableView,
    idxs: Seq<NodeGroupIdx>,
    n: nat,
    disk: Disk,
)
    ensures
        disk.len() <= t.write_groups(idxs, n, disk).disk.len(),
        0 < disk.len() ==> t.write_groups(idxs, n, disk).disk[0] == disk[0],
    decreases n,
{
    if n > 0 {
        lemma_write_grows(t, idxs, (n - 1) as nat, disk);
    }
}

/// A flushed table has the nodes that it had.
proof fn lemma_flushed_nodes(t: NodeTableView, r: NodeTableView)
    requires
        t.tidy(),
        t.complete(),
        t.storable(),
        r == (NodeTableView { page_infos: r.page_infos, dirty: Seq::empty(), ..t }),
        r.regular(),
    ensures
        r.tidy(),
        r.complete(),
        r.storable(),
        same_nodes(r, t),
{
    assert forall|offset: u64| #[trigger] r.node_in(offset) == t.node_in(offset) by {}
    assert forall|id: u64, offset: u64| #[trigger] r.tidy_at(id, offset) by {
        assert(t.tidy_at(id, offset));
        assert(r.node_in(offset) == t.node_in(offset));
    }
    assert forall|id: u64, offset: u64| #[trigger] r.known_at(id, offset) by {
        assert(t.known_at(id, offset));
        assert(r.node_in(offset) == t.node_in(offset));
    }
    assert forall|i: int| 0 <= i < r.groups.len() implies (#[trigger] r.groups[i]).storable() by {
        assert(t.groups[i].storable());
    }
    assert forall|node_id: NodeId| #[trigger] r.read(node_id) == t.read(node_id) by {}
}

/// The tables of all labels are loaded one after the other.
proof fn lemma_load_nodes(
    labels: Seq<NodeLabelView>,
    infos: Seq<NodeGroupPageInfo>,
    disk: Disk,
    n: nat,
) -> (r: NodeTables)
    requires
        n <= labels.len(),
        forall|i: int|
            0 <= i < labels.len() ==> (reloaded_nodes(#[trigger] labels[i], infos, disk) matches Some(
                Ok(_),
            )),
        forall|i: int, j: int|
            0 <= i < labels.len() && 0 <= j < labels.len() && (#[trigger] labels[i]).label_id == (
            #[trigger] labels[j]).label_id ==> labels[i] == labels[j],
    ensures
        node_store::load_tables(labels, infos, node_blocks(disk, infos), n) == Some(
            Ok::<NodeTables, ErrorView>(r),
        ),
        sorted(r),
        forall|i: int|
            0 <= i < n ==> lookup(r, (#[trigger] labels[i]).label_id.0 as u64) == Some(
                reloaded_nodes(labels[i], infos, disk)->Some_0->Ok_0,
            ),
        forall|k: u64| #[trigger]
            lookup(r, k) is Some ==> exists|i: int|
                0 <= i < n && (#[trigger] labels[i]).label_id.0 as u64 == k,
    decreases n,
{
    if n == 0 {
        Seq::empty()
    } else {
        let m = n - 1;
        let before = lemma_load_nodes(labels, infos, disk, m as nat);
        assert(reloaded_nodes(labels[m], infos, disk) matches Some(Ok(_)));
        let l = reloaded_nodes(labels[m], infos, disk)->Some_0->Ok_0;
        let key = labels[m].label_id.0 as u64;
        let r = put(before, key, l);
        ordered_map::law_put_then_lookup(before, key, l, 0);
        assert forall|i: int| 0 <= i < n implies lookup(
            r,
            (#[trigger] labels[i]).label_id.0 as u64,
        ) == Some(reloaded_nodes(labels[i], infos, disk)->Some_0->Ok_0) by {
            ordered_map::law_put_then_lookup(before, key, l, labels[i].label_id.0 as u64);
            if labels[i].label_id.0 as u64 == key {
                assert(labels[i].label_id == labels[m].label_id);
            }
        }
        assert forall|k: u64| #[trigger] lookup(r, k) is Some implies exists|i: int|
            0 <= i < n && (#[trigger] labels[i]).label_id.0 as u64 == k by {
            ordered_map::law_put_then_lookup(before, key, l, k);
            if k == key {
                assert(labels[m].label_id.0 as u64 == k);
            } else {
                let i = choose|i: int|
                    0 <= i < m && (#[trigger] labels[i]).label_id.0 as u64 == k;
                assert(labels[i].label_id.0 as u64 == k);
            }
        }
        r
    }
}

/// Stores whose tables have the same labels and nodes.
pub open spec fn same_node_tables(l: NodeStoreView, s: NodeStoreView) -> bool {
    &&& l.catalog == s.catalog
    &&& l.tables.len() == s.tables.len()
    &&& forall|i: int|
        0 <= i < s.tables.len() ==> (#[trigger] l.tables[i]).0 == s.tables[i].0 && same_nodes(
            l.tables[i].1,
            s.tables[i].1,
        )
}

/// Stores whose tables have the same labels and nodes are read alike.
proof fn lemma_same_node_store(l: NodeStoreView, s: NodeStoreView)
    requires
        same_node_tables(l, s),
        sorted(s.tables),
    ensures
        sorted(l.tables),
        l.offsets() == s.offsets(),
        forall|node_id: NodeId, label_id: LabelId| #[trigger]
            l.read(node_id, label_id) == s.read(node_id, label_id),
        forall|label_id: LabelId| #[trigger] l.num_nodes(label_id) == s.num_nodes(label_id),
        forall|label_id: LabelId| #[trigger] l.records(label_id) == s.records(label_id),
        forall|node_id: NodeId| #[trigger] l.offset(node_id) == s.offset(node_id),
        forall|label_id: LabelId|
            #![trigger l.table(label_id)]
            match s.table(label_id) {
                Some(t) => l.table(label_id) matches Some(x) && same_nodes(x, t),
                None => l.table(label_id) is None,
            },
{
    assert(sorted(l.tables)) by {
        assert forall|i: int, j: int| 0 <= i < j < l.tables.len() implies (
        #[trigger] l.tables[i]).0 < (#[trigger] l.tables[j]).0 by {
            assert(s.tables[i].0 < s.tables[j].0);
        }
    }
    assert forall|label_id: LabelId|
        #![trigger l.table(label_id)]
        match s.table(label_id) {
            Some(t) => l.table(label_id) matches Some(x) && same_nodes(x, t),
            None => l.table(label_id) is None,
        } by {
        let k = label_id.0 as u64;
        if ordered_map::has_key(s.tables, k) {
            let i = ordered_map::rank(s.tables, k) as int;
            assert(l.tables[i].0 == s.tables[i].0);
            ordered_map::lemma_rank_at(l.tables, i);
        }
        if ordered_map::has_key(l.tables, k) {
            let i = ordered_map::rank(l.tables, k) as int;
            assert(l.tables[i].0 == s.tables[i].0);
            ordered_map::lemma_rank_at(s.tables, i);
        }
    }
    assert forall|node_id: NodeId, label_id: LabelId| #[trigger]
        l.read(node_id, label_id) == s.read(node_id, label_id) by {
        let x = l.table(label_id);
        if s.table(label_id) is Some {
            assert(x->Some_0.read(node_id) == s.table(label_id)->Some_0.read(node_id));
        }
    }
    assert forall|label_id: LabelId| #[trigger]
        l.num_nodes(label_id) == s.num_nodes(label_id) by {
        let x = l.table(label_id);
    }
    assert forall|label_id: LabelId| #[trigger] l.records(label_id) == s.records(label_id) by {
        let x = l.table(label_id);
    }
    assert forall|node_id: NodeId| #[trigger] l.offset(node_id) == s.offset(node_id) by {
        let p = l.table_has(node_id);
        let q = s.table_has(node_id);
        assert forall|i: int| 0 <= i < s.tables.len() implies #[trigger] p(i) == q(i) by {
            assert(l.tables[i].0 == s.tables[i].0);
        }
        search::lemma_first_where_same(s.tables.len(), p, q);
        if s.table_with(node_id) is Some {
            search::lemma_first_where(s.tables.len(), q);
            let i = s.table_with(node_id)->Some_0;
            assert(l.tables[i].0 == s.tables[i].0);
        }
    }
    lemma_same_merged(l.tables, s.tables, s.tables.len());
}

proof fn lemma_same_merged(a: NodeTables, b: NodeTables, n: nat)
    requires
        n <= a.len(),
        n <= b.len(),
        forall|i: int| 0 <= i < n ==> (#[trigger] a[i]).1.offsets == b[i].1.offsets,
    ensures
        merged_offsets(a, n) == merged_offsets(b, n),
    decreases n,
{
    if n > 0 {
        lemma_same_merged(a, b, (n - 1) as nat);
        assert(a[n - 1].1.offsets == b[n - 1].1.offsets);
    }
}

proof fn lemma_same_labelled(l: NodeStoreView, s: NodeStoreView)
    requires
        same_node_tables(l, s),
        sorted(s.tables),
        s.labelled(),
    ensures
        l.labelled(),
{
    let labels = s.catalog.node_labels;
    lemma_same_node_store(l, s);
    assert forall|i: int| 0 <= i < labels.len() implies (l.table(
        (#[trigger] labels[i]).label_id,
    ) matches Some(t) && t.schema == labels[i]) by {
        assert(s.table(labels[i].label_id)->Some_0.schema == labels[i]);
    }
    assert forall|j: int| 0 <= j < l.tables.len() implies exists|i: int|
        0 <= i < labels.len() && (#[trigger] labels[i]).label_id.0 as u64 == (
        #[trigger] l.tables[j]).0 by {
        assert(l.tables[j].0 == s.tables[j].0);
        let i = choose|i: int|
            0 <= i < labels.len() && (#[trigger] labels[i]).label_id.0 as u64 == (
            #[trigger] s.tables[j]).0;
        assert(labels[i].label_id.0 as u64 == l.tables[j].0);
    }
}

/// A node store whose tables were flushed is loaded from the pages that were noted.
proof fn lemma_nodes_flush_then_load(s: NodeStoreView, disk: Disk, after: Disk) -> (l:
    NodeStoreView)
    requires
        s.tidy(),
        s.filed(disk),
        s.labelled(),
        0 < disk.len(),
        s.flush(disk).disk.len() <= u64::MAX,
        s.flush(disk).table.undivided(),
        extends(after, s.flush(disk).disk),
    ensures
        ({
            let infos = s.flush(disk).table.page_infos();
            &&& NodeStoreView::load(s.catalog, infos, node_blocks(after, infos)) == Some(
                Ok::<NodeStoreView, ErrorView>(l),
            )
            &&& forall|i: int|
                0 <= i < infos.len() ==> on_disk(after, (#[trigger] infos[i]).page_range)
            &&& same_node_tables(l, s)
            &&& l.tidy()
            &&& l.filed(after)
            &&& l.labelled()
        }),
{
    let f = s.flush(disk);
    let u = f.table;
    let infos = u.page_infos();
    let labels = s.catalog.node_labels;
    lemma_flush_nodes(s, s.tables.len(), disk);
    assert forall|i: int| 0 <= i < s.tables.len() implies reloads_nodes(
        (#[trigger] s.tables[i]).1,
        infos,
        after,
    ) by {
        assert(u.tables[i].0 == s.tables[i].0);
        assert(u.tables[i].1.page_infos == infos);
        lemma_nodes_extended(s.tables[i].1, infos, f.disk, after);
    }
    assert forall|i: int| 0 <= i < labels.len() implies (reloaded_nodes(
        #[trigger] labels[i],
        infos,
        after,
    ) matches Some(Ok(_))) by {
        assert(s.table(labels[i].label_id)->Some_0.schema == labels[i]);
        let at = ordered_map::rank(s.tables, labels[i].label_id.0 as u64) as int;
        assert(reloads_nodes(s.tables[at].1, infos, after));
    }
    assert forall|i: int, j: int|
        0 <= i < labels.len() && 0 <= j < labels.len() && (#[trigger] labels[i]).label_id == (
        #[trigger] labels[j]).label_id implies labels[i] == labels[j] by {
        assert(s.table(labels[i].label_id)->Some_0.schema == labels[i]);
        assert(s.table(labels[j].label_id)->Some_0.schema == labels[j]);
    }
    let r = lemma_load_nodes(labels, infos, after, labels.len());
    let g = |t: NodeTableView| reloaded_nodes(t.schema, infos, after)->Some_0->Ok_0;
    let m = mapped(s.tables, g);
    ordered_map::lemma_mapped_sorted(s.tables, g);
    assert forall|k: u64| #[trigger] lookup(r, k) == lookup(m, k) by {
        ordered_map::lemma_mapped_rank(s.tables, g, k);
        if ordered_map::has_key(s.tables, k) {
            let j = ordered_map::rank(s.tables, k) as int;
            assert(s.tables[j].0 == k);
            let i = choose|i: int|
                0 <= i < labels.len() && (#[trigger] labels[i]).label_id.0 as u64 == s.tables[j].0;
            assert(s.table(labels[i].label_id)->Some_0.schema == labels[i]);
            assert(lookup(r, labels[i].label_id.0 as u64) is Some);
        } else if lookup(r, k) is Some {
            let i = choose|i: int|
                0 <= i < labels.len() && (#[trigger] labels[i]).label_id.0 as u64 == k;
            assert(s.table(labels[i].label_id) is Some);
        }
    }
    ordered_map::law_same_lookups(r, m);
    let l = NodeStoreView { tables: r, catalog: s.catalog };
    assert forall|i: int| 0 <= i < l.tables.len() implies (#[trigger] l.tables[i]).0
        == s.tables[i].0 && same_nodes(l.tables[i].1, s.tables[i].1) && l.tables[i].1.tidy()
        && l.tables[i].1.complete() && l.tables[i].1.storable() && l.tables[i].1.filed(after) by {
        assert(reloads_nodes(s.tables[i].1, infos, after));
        assert(m[i] == (s.tables[i].0, g(s.tables[i].1)));
    }
    lemma_same_labelled(l, s);
    l
}

// ---------------------------------------------------------------------------------------------
// Edge stores

impl EdgeStoreView {
    /// The first `n` tables are flushed one after the other.
    pub open spec fn flush_tables(self, n: nat, disk: Disk) -> Flushed<EdgeStoreView>
        decreases n,
    {
        if n == 0 {
            Flushed { table: self, disk }
        } else {
            let f = self.flush_tables((n - 1) as nat, disk);
            let r = f.table.tables[n - 1].1.flush(f.disk);
            Flushed { table: f.table.with_table(n - 1, r.table), disk: r.disk }
        }
    }

    /// All tables are flushed.
    pub open spec fn flush(self, disk: Disk) -> Flushed<EdgeStoreView> {
        self.flush_tables(self.tables.len(), disk)
    }

    /// What flushing the first `n` tables one after the other gives.
    pub open spec fn tables_outcome(self, n: nat, disk: Disk) -> Decoded<Flushed<EdgeStoreView>>
        decreases n,
    {
        if n == 0 {
            Some(Ok(Flushed { table: self, disk }))
        } else {
            match self.tables_outcome((n - 1) as nat, disk) {
                Some(Ok(f)) => match f.table.tables[n - 1].1.flush_outcome(f.disk) {
                    Some(Ok(r)) => Some(
                        Ok(Flushed { table: f.table.with_table(n - 1, r.table), disk: r.disk }),
                    ),
                    Some(Err(e)) => Some(Err(e)),
                    None => None,
                },
                r => r,
            }
        }
    }

    /// What flushing all tables gives; `None` where something is too large to be written.
    pub open spec fn flush_outcome(self, disk: Disk) -> Decoded<Flushed<EdgeStoreView>> {
        self.tables_outcome(self.tables.len(), disk)
    }

    /// The stores differ at most in what is dirty and where it is.
    pub open spec fn alike(self, other: EdgeStoreView) -> bool {
        &&& self.catalog == other.catalog
        &&& self.offsets == other.offsets
        &&& self.tables.len() == other.tables.len()
        &&& forall|i: int|
            0 <= i < self.tables.len() ==> (#[trigger] self.tables[i]).0 == other.tables[i].0
                && self.tables[i].1.alike(other.tables[i].1)
    }

    /// Every table is written to pages or has what is to be written noted, and can be written.
    pub open spec fn filed(self, disk: Disk) -> bool {
        forall|i: int|
            0 <= i < self.tables.len() ==> {
                &&& (#[trigger] self.tables[i]).1.storable()
                &&& self.tables[i].1.filed(disk)
            }
    }

    /// Each type of the catalog has a table with its schema, and there are no other tables.
    pub open spec fn typed(self) -> bool {
        let types = self.catalog.edge_types;
        &&& forall|i: int|
            0 <= i < types.len() ==> (self.table((#[trigger] types[i]).label_id) matches Some(t)
                && t.schema == types[i])
        &&& forall|j: int|
            0 <= j < self.tables.len() ==> exists|i: int|
                0 <= i < types.len() && (#[trigger] types[i]).label_id.0 as u64 == (
                #[trigger] self.tables[j]).0
    }

    /// No table takes the pages of another: there is one table, or there are no pages.
    pub open spec fn undivided(self) -> bool {
        forall|i: int|
            0 <= i < self.tables.len() ==> (#[trigger] self.tables[i]).1.page_infos
                == self.page_infos()
    }
}

/// The tables have the same edges.
pub open spec fn same_edges(l: EdgeTableView, t: EdgeTableView) -> bool {
    &&& l.schema == t.schema
    &&& l.num_edges() == t.num_edges()
    &&& l.records() == t.records()
    &&& forall|edge_id: EdgeId| #[trigger] l.read(edge_id) == t.read(edge_id)
    &&& forall|offset: u64, direction: Direction| #[trigger]
        l.neighbors(offset, direction) == t.neighbors(offset, direction)
}

/// The table that is loaded from the pages.
pub open spec fn reloaded_edges(
    schema: EdgeTypeView,
    infos: Seq<CSREdgeGroupPageInfo>,
    disk: Disk,
) -> Decoded<EdgeTableView> {
    EdgeTableView::load(schema, infos, edge_blocks(disk, infos), infos.len())
}

/// Loading from the pages gives a table with the same edges, which is filed.
spec fn reloads_edges(t: EdgeTableView, infos: Seq<CSREdgeGroupPageInfo>, disk: Disk) -> bool {
    &&& forall|i: int| 0 <= i < infos.len() ==> on_disk(disk, (#[trigger] infos[i]).page_range)
    &&& reloaded_edges(t.schema, infos, disk) matches Some(Ok(l)) && same_edges(l, t) && l.tidy()
        && l.storable() && l.filed(disk) && l.page_infos == infos
}

/// Where a table cannot be flushed, none behind it is.
pub proof fn lemma_edges_stuck(s: EdgeStoreView, i: nat, n: nat, disk: Disk)
    requires
        i <= n,
        !(s.tables_outcome(i, disk) matches Some(Ok(_))),
    ensures
        s.tables_outcome(n, disk) == s.tables_outcome(i, disk),
    decreases n - i,
{
    if i < n {
        lemma_edges_stuck(s, i, (n - 1) as nat, disk);
    }
}

/// Where flushing succeeds, all tables were flushed.
proof fn lemma_edges_outcome(s: EdgeStoreView, n: nat, disk: Disk)
    requires
        disk.len() <= u64::MAX,
    ensures
        s.tables_outcome(n, disk) matches Some(Ok(f)) ==> f == s.flush_tables(n, disk)
            && f.disk.len() <= u64::MAX,
    decreases n,
{
    if n > 0 {
        lemma_edges_outcome(s, (n - 1) as nat, disk);
        match s.tables_outcome((n - 1) as nat, disk) {
            Some(Ok(f)) => {
                edge_persistence::law_flush_outcome(f.table.tables[n - 1].1, f.disk);
            },
            _ => {},
        }
    }
}

proof fn lemma_edges_extended(
    t: EdgeTableView,
    infos: Seq<CSREdgeGroupPageInfo>,
    disk: Disk,
    after: Disk,
)
    requires
        reloads_edges(t, infos, disk),
        extends(after, disk),
    ensures
        reloads_edges(t, infos, after),
{
    assert forall|i: int| 0 <= i < infos.len() implies on_disk(
        after,
        (#[trigger] infos[i]).page_range,
    ) && block_at(after, infos[i].page_range) == block_at(disk, infos[i].page_range) by {
        assert(on_disk(disk, infos[i].page_range));
    }
    assert(edge_blocks(after, infos) =~= edge_blocks(disk, infos));
    let l = reloaded_edges(t.schema, infos, disk)->Some_0->Ok_0;
    edge_persistence::law_extended_filed(l, disk, after);
}

/// What flushing tables one after the other does.
proof fn lemma_flush_edges(s: EdgeStoreView, n: nat, disk: Disk)
    requires
        s.tidy(),
        s.filed(disk),
        n <= s.tables.len(),
        0 < disk.len(),
        s.flush_tables(n, disk).disk.len() <= u64::MAX,
    ensures
        ({
            let f = s.flush_tables(n, disk);
            let u = f.table;
            &&& extends(f.disk, disk)
            &&& f.disk[0] == disk[0]
            &&& u.catalog == s.catalog
            &&& u.tables.len() == s.tables.len()
            &&& forall|i: int|
                0 <= i < s.tables.len() ==> {
                    &&& (#[trigger] u.tables[i]).0 == s.tables[i].0
                    &&& i >= n ==> u.tables[i] == s.tables[i]
                    &&& i < n ==> reloads_edges(s.tables[i].1, u.tables[i].1.page_infos, f.disk)
                    &&& i < n ==> u.tables[i].1.tidy() && u.tables[i].1.storable()
                        && u.tables[i].1.filed(f.disk) && same_edges(
                        u.tables[i].1,
                        s.tables[i].1,
                    )
                }
        }),
    decreases n,
{
    if n > 0 {
        let m = n - 1;
        let before = s.flush_tables(m as nat, disk);
        let t = before.table.tables[m].1;
        let r = t.flush(before.disk);
        lemma_edge_flush_grows(t, before.disk);
        lemma_flush_edges(s, m as nat, disk);
        assert(before.table.tables[m] == s.tables[m]);
        assert(s.tables[m].1.tidy() && s.tables[m].1.storable() && s.tables[m].1.filed(disk));
        edge_persistence::law_extended_filed(t, disk, before.disk);
        let l = edge_persistence::law_flush_then_load(t, before.disk);
        edge_persistence::law_flush_files(t, before.disk);
        lemma_flushed_edges(t, r.table);
        let f = s.flush_tables(n, disk);
        assert forall|i: int| 0 <= i < s.tables.len() implies {
            &&& (#[trigger] f.table.tables[i]).0 == s.tables[i].0
            &&& i >= n ==> f.table.tables[i] == s.tables[i]
            &&& i < n ==> reloads_edges(
                s.tables[i].1,
                f.table.tables[i].1.page_infos,
                f.disk,
            )
            &&& i < n ==> f.table.tables[i].1.tidy() && f.table.tables[i].1.storable() && f.table.tables[i].1.filed(f.disk)
                && same_edges(f.table.tables[i].1, s.tables[i].1)
        } by {
            if i != m {
                assert(f.table.tables[i] == before.table.tables[i]);
                if i < m {
                    lemma_edges_extended(
                        s.tables[i].1,
                        before.table.tables[i].1.page_infos,
                        before.disk,
                        f.disk,
                    );
                    edge_persistence::law_extended_filed(
                        before.table.tables[i].1,
                        before.disk,
                        f.disk,
                    );
                }
            }
        }
        assert(extends(f.disk, disk)) by {
            assert forall|range: PageRange| #[trigger] on_disk(disk, range) implies on_disk(
                f.disk,
                range,
            ) && block_at(f.disk, range) == block_at(disk, range) by {
                assert(on_disk(before.disk, range));
            }
        }
    }
}

/// Flushing only appends.
proof fn lemma_edge_flush_grows(t: EdgeTableView, disk: Disk)
    ensures
        disk.len() <= t.flush(disk).disk.len(),
        0 < disk.len() ==> t.flush(disk).disk[0] == disk[0],
{
    lemma_edge_write_grows(EdgeTableView { dirty: Seq::empty(), ..t }, t.dirty, t.dirty.len(), disk);
}

proof fn lemma_edge_write_grows(
    t: EdgeTableView,
    idxs: Seq<(NodeGroupIdx, Direction)>,
    n: nat,
    disk: Disk,
)
    ensures
        disk.len() <= t.write_groups(idxs, n, disk).disk.len(),
        0 < disk.len() ==> t.write_groups(idxs, n, disk).disk[0] == disk[0],
    decreases n,
{
    if n > 0 {
        lemma_edge_write_grows(t, idxs, (n - 1) as nat, disk);
    }
}

/// A flushed table has the edges that it had.
proof fn lemma_flushed_edges(t: EdgeTableView, r: EdgeTableView)
    requires
        t.tidy(),
        t.writable(),
        r.alike(t),
    ensures
        r.tidy(),
        r.storable(),
        same_edges(r, t),
{
    edge_persistence::lemma_alike_reads(r, t);
}

/// The tables of all types are loaded one after the other.
proof fn lemma_load_edges(
    types: Seq<EdgeTypeView>,
    infos: Seq<CSREdgeGroupPageInfo>,
    disk: Disk,
    n: nat,
) -> (r: EdgeTables)
    requires
        n <= types.len(),
        forall|i: int|
            0 <= i < types.len() ==> (reloaded_edges(#[trigger] types[i], infos, disk) matches Some(
                Ok(_),
            )),
        forall|i: int, j: int|
            0 <= i < types.len() && 0 <= j < types.len() && (#[trigger] types[i]).label_id == (
            #[trigger] types[j]).label_id ==> types[i] == types[j],
    ensures
        edge_store::load_tables(types, infos, edge_blocks(disk, infos), n) == Some(
            Ok::<EdgeTables, ErrorView>(r),
        ),
        sorted(r),
        forall|i: int|
            0 <= i < n ==> lookup(r, (#[trigger] types[i]).label_id.0 as u64) == Some(
                reloaded_edges(types[i], infos, disk)->Some_0->Ok_0,
            ),
        forall|k: u64| #[trigger]
            lookup(r, k) is Some ==> exists|i: int|
                0 <= i < n && (#[trigger] types[i]).label_id.0 as u64 == k,
    decreases n,
{
    if n == 0 {
        Seq::empty()
    } else {
        let m = n - 1;
        let before = lemma_load_edges(types, infos, disk, m as nat);
        assert(reloaded_edges(types[m], infos, disk) matches Some(Ok(_)));
        let l = reloaded_edges(types[m], infos, disk)->Some_0->Ok_0;
        let key = types[m].label_id.0 as u64;
        let r = put(before, key, l);
        ordered_map::law_put_then_lookup(before, key, l, 0);
        assert forall|i: int| 0 <= i < n implies lookup(
            r,
            (#[trigger] types[i]).label_id.0 as u64,
        ) == Some(reloaded_edges(types[i], infos, disk)->Some_0->Ok_0) by {
            ordered_map::law_put_then_lookup(before, key, l, types[i].label_id.0 as u64);
            if types[i].label_id.0 as u64 == key {
                assert(types[i].label_id == types[m].label_id);
            }
        }
        assert forall|k: u64| #[trigger] lookup(r, k) is Some implies exists|i: int|
            0 <= i < n && (#[trigger] types[i]).label_id.0 as u64 == k by {
            ordered_map::law_put_then_lookup(before, key, l, k);
            if k == key {
                assert(types[m].label_id.0 as u64 == k);
            } else {
                let i = choose|i: int|
                    0 <= i < m && (#[trigger] types[i]).label_id.0 as u64 == k;
                assert(types[i].label_id.0 as u64 == k);
            }
        }
        r
    }
}

/// Stores whose tables have the same types and nodes.
pub open spec fn same_edge_tables(l: EdgeStoreView, s: EdgeStoreView) -> bool {
    &&& l.catalog == s.catalog
    &&& l.tables.len() == s.tables.len()
    &&& forall|i: int|
        0 <= i < s.tables.len() ==> (#[trigger] l.tables[i]).0 == s.tables[i].0 && same_edges(
            l.tables[i].1,
            s.tables[i].1,
        )
}

/// Stores whose tables have the same types and nodes are read alike.
proof fn lemma_same_edge_store(l: EdgeStoreView, s: EdgeStoreView)
    requires
        same_edge_tables(l, s),
        sorted(s.tables),
    ensures
        sorted(l.tables),
        forall|edge_id: EdgeId, type_id: LabelId| #[trigger]
            l.read(edge_id, type_id) == s.read(edge_id, type_id),
        forall|type_id: LabelId| #[trigger] l.num_edges(type_id) == s.num_edges(type_id),
        forall|type_id: LabelId| #[trigger] l.records(type_id) == s.records(type_id),
        forall|offset: u64, direction: Direction| #[trigger]
            l.neighbors(offset, direction) == s.neighbors(offset, direction),
        forall|type_id: LabelId|
            #![trigger l.table(type_id)]
            match s.table(type_id) {
                Some(t) => l.table(type_id) matches Some(x) && same_edges(x, t),
                None => l.table(type_id) is None,
            },
{
    assert(sorted(l.tables)) by {
        assert forall|i: int, j: int| 0 <= i < j < l.tables.len() implies (
        #[trigger] l.tables[i]).0 < (#[trigger] l.tables[j]).0 by {
            assert(s.tables[i].0 < s.tables[j].0);
        }
    }
    assert forall|type_id: LabelId|
        #![trigger l.table(type_id)]
        match s.table(type_id) {
            Some(t) => l.table(type_id) matches Some(x) && same_edges(x, t),
            None => l.table(type_id) is None,
        } by {
        let k = type_id.0 as u64;
        if ordered_map::has_key(s.tables, k) {
            let i = ordered_map::rank(s.tables, k) as int;
            assert(l.tables[i].0 == s.tables[i].0);
            ordered_map::lemma_rank_at(l.tables, i);
        }
        if ordered_map::has_key(l.tables, k) {
            let i = ordered_map::rank(l.tables, k) as int;
            assert(l.tables[i].0 == s.tables[i].0);
            ordered_map::lemma_rank_at(s.tables, i);
        }
    }
    assert forall|edge_id: EdgeId, type_id: LabelId| #[trigger]
        l.read(edge_id, type_id) == s.read(edge_id, type_id) by {
        let x = l.table(type_id);
        if s.table(type_id) is Some {
            assert(x->Some_0.read(edge_id) == s.table(type_id)->Some_0.read(edge_id));
        }
    }
    assert forall|type_id: LabelId| #[trigger]
        l.num_edges(type_id) == s.num_edges(type_id) by {
        let x = l.table(type_id);
    }
    assert forall|type_id: LabelId| #[trigger] l.records(type_id) == s.records(type_id) by {
        let x = l.table(type_id);
    }
    assert forall|offset: u64, direction: Direction| #[trigger]
        l.neighbors(offset, direction) == s.neighbors(offset, direction) by {
        lemma_same_joined(l.tables, s.tables, s.tables.len(), offset, direction);
    }
}

proof fn lemma_same_joined(
    a: EdgeTables,
    b: EdgeTables,
    n: nat,
    offset: u64,
    direction: Direction,
)
    requires
        n <= a.len(),
        n <= b.len(),
        forall|i: int| 0 <= i < n ==> same_edges((#[trigger] a[i]).1, b[i].1),
    ensures
        joined_neighbors(a, n, offset, direction) == joined_neighbors(b, n, offset, direction),
    decreases n,
{
    if n > 0 {
        lemma_same_joined(a, b, (n - 1) as nat, offset, direction);
        assert(same_edges(a[n - 1].1, b[n - 1].1));
        assert(a[n - 1].1.neighbors(offset, direction) == b[n - 1].1.neighbors(offset, direction));
    }
}

proof fn lemma_same_typed(l: EdgeStoreView, s: EdgeStoreView)
    requires
        same_edge_tables(l, s),
        sorted(s.tables),
        s.typed(),
    ensures
        l.typed(),
{
    let types = s.catalog.edge_types;
    lemma_same_edge_store(l, s);
    assert forall|i: int| 0 <= i < types.len() implies (l.table(
        (#[trigger] types[i]).label_id,
    ) matches Some(t) && t.schema == types[i]) by {
        assert(s.table(types[i].label_id)->Some_0.schema == types[i]);
    }
    assert forall|j: int| 0 <= j < l.tables.len() implies exists|i: int|
        0 <= i < types.len() && (#[trigger] types[i]).label_id.0 as u64 == (
        #[trigger] l.tables[j]).0 by {
        assert(l.tables[j].0 == s.tables[j].0);
        let i = choose|i: int|
            0 <= i < types.len() && (#[trigger] types[i]).label_id.0 as u64 == (
            #[trigger] s.tables[j]).0;
        assert(types[i].label_id.0 as u64 == l.tables[j].0);
    }
}

/// A edge store whose tables were flushed is loaded from the pages that were noted.
proof fn lemma_edges_flush_then_load(s: EdgeStoreView, disk: Disk, after: Disk) -> (l:
    EdgeStoreView)
    requires
        s.tidy(),
        s.filed(disk),
        s.typed(),
        0 < disk.len(),
        s.flush(disk).disk.len() <= u64::MAX,
        s.flush(disk).table.undivided(),
        extends(after, s.flush(disk).disk),
    ensures
        ({
            let infos = s.flush(disk).table.page_infos();
            &&& EdgeStoreView::load(s.catalog, infos, edge_blocks(after, infos)) == Some(
                Ok::<EdgeStoreView, ErrorView>(l),
            )
            &&& l.offsets == Seq::<(u64, u64)>::empty()
            &&& forall|i: int|
                0 <= i < infos.len() ==> on_disk(after, (#[trigger] infos[i]).page_range)
            &&& same_edge_tables(l, s)
            &&& l.tidy()
            &&& l.filed(after)
            &&& l.typed()
        }),
{
    let f = s.flush(disk);
    let u = f.table;
    let infos = u.page_infos();
    let types = s.catalog.edge_types;
    lemma_flush_edges(s, s.tables.len(), disk);
    assert forall|i: int| 0 <= i < s.tables.len() implies reloads_edges(
        (#[trigger] s.tables[i]).1,
        infos,
        after,
    ) by {
        assert(u.tables[i].0 == s.tables[i].0);
        assert(u.tables[i].1.page_infos == infos);
        lemma_edges_extended(s.tables[i].1, infos, f.disk, after);
    }
    assert forall|i: int| 0 <= i < types.len() implies (reloaded_edges(
        #[trigger] types[i],
        infos,
        after,
    ) matches Some(Ok(_))) by {
        assert(s.table(types[i].label_id)->Some_0.schema == types[i]);
        let at = ordered_map::rank(s.tables, types[i].label_id.0 as u64) as int;
        assert(reloads_edges(s.tables[at].1, infos, after));
    }
    assert forall|i: int, j: int|
        0 <= i < types.len() && 0 <= j < types.len() && (#[trigger] types[i]).label_id == (
        #[trigger] types[j]).label_id implies types[i] == types[j] by {
        assert(s.table(types[i].label_id)->Some_0.schema == types[i]);
        assert(s.table(types[j].label_id)->Some_0.schema == types[j]);
    }
    let r = lemma_load_edges(types, infos, after, types.len());
    let g = |t: EdgeTableView| reloaded_edges(t.schema, infos, after)->Some_0->Ok_0;
    let m = mapped(s.tables, g);
    ordered_map::lemma_mapped_sorted(s.tables, g);
    assert forall|k: u64| #[trigger] lookup(r, k) == lookup(m, k) by {
        ordered_map::lemma_mapped_rank(s.tables, g, k);
        if ordered_map::has_key(s.tables, k) {
            let j = ordered_map::rank(s.tables, k) as int;
            assert(s.tables[j].0 == k);
            let i = choose|i: int|
                0 <= i < types.len() && (#[trigger] types[i]).label_id.0 as u64 == s.tables[j].0;
            assert(s.table(types[i].label_id)->Some_0.schema == types[i]);
            assert(lookup(r, types[i].label_id.0 as u64) is Some);
        } else if lookup(r, k) is Some {
            let i = choose|i: int|
                0 <= i < types.len() && (#[trigger] types[i]).label_id.0 as u64 == k;
            assert(s.table(types[i].label_id) is Some);
        }
    }
    ordered_map::law_same_lookups(r, m);
    let l = EdgeStoreView { tables: r, offsets: Seq::empty(), catalog: s.catalog };
    assert forall|i: int| 0 <= i < l.tables.len() implies (#[trigger] l.tables[i]).0
        == s.tables[i].0 && same_edges(l.tables[i].1, s.tables[i].1) && l.tables[i].1.tidy()
        && l.tables[i].1.storable() && l.tables[i].1.filed(after) by {
        assert(reloads_edges(s.tables[i].1, infos, after));
        assert(m[i] == (s.tables[i].0, g(s.tables[i].1)));
    }
    lemma_same_typed(l, s);
    l
}

// ---------------------------------------------------------------------------------------------
// Databases

/// The pages of node groups.
pub open spec fn node_ranges(infos: Seq<NodeGroupPageInfo>) -> Seq<PageRange> {
    Seq::new(infos.len(), |i: int| infos[i].page_range)
}

/// The pages of edge groups.
pub open spec fn edge_ranges(infos: Seq<CSREdgeGroupPageInfo>) -> Seq<PageRange> {
    Seq::new(infos.len(), |i: int| infos[i].page_range)
}

/// The page of a header.
pub open spec fn header_page(header: HeaderView) -> Seq<u8> {
    overwrite(zero_page(), 0, header.encoding())
}

/// What opening gives; `None` where a length or an offset points outside of what it is in.
pub type Opening<T> = Option<Result<T, OpenErrorView>>;

/// What stands on pages that could be read.
pub open spec fn opened<T>(d: Decoded<T>) -> Opening<T> {
    match d {
        Some(Ok(v)) => Some(Ok(v)),
        Some(Err(e)) => Some(Err(OpenErrorView::Storage(e))),
        None => None,
    }
}

/// A page is missing for the first of the groups that were not read; but what stands on the pages of
/// those before it comes first.
pub open spec fn interrupted<S, T>(d: Decoded<T>, missing: PageIdx) -> Opening<S> {
    match d {
        Some(Ok(_)) => Some(Err(OpenErrorView::Unreadable(missing))),
        Some(Err(e)) => Some(Err(OpenErrorView::Storage(e))),
        None => None,
    }
}

/// The node store whose groups stand on pages of the file. Each table reads all of them; if there is
/// no table, none is read.
pub open spec fn open_nodes(
    disk: Disk,
    catalog: CatalogView,
    infos: Seq<NodeGroupPageInfo>,
) -> Opening<NodeStoreView> {
    let r = read_ranges(disk, node_ranges(infos), infos.len());
    let readable = infos.take(r.blocks.len() as int);
    match r.missing {
        Some(idx) if catalog.node_labels.len() > 0 => interrupted(
            NodeTableView::load(catalog.node_labels[0], readable, r.blocks, readable.len()),
            idx,
        ),
        _ => opened(NodeStoreView::load(catalog, readable, r.blocks)),
    }
}

/// The edge store whose groups stand on pages of the file. Each table reads all of them; if there is
/// no table, none is read.
pub open spec fn open_edges(
    disk: Disk,
    catalog: CatalogView,
    infos: Seq<CSREdgeGroupPageInfo>,
) -> Opening<EdgeStoreView> {
    let r = read_ranges(disk, edge_ranges(infos), infos.len());
    let readable = infos.take(r.blocks.len() as int);
    match r.missing {
        Some(idx) if catalog.edge_types.len() > 0 => interrupted(
            EdgeTableView::load(catalog.edge_types[0], readable, r.blocks, readable.len()),
            idx,
        ),
        _ => opened(EdgeStoreView::load(catalog, readable, r.blocks)),
    }
}

impl ManagerView {
    /// The data file of a new database: the header page, and behind it the catalog block.
    pub open spec fn create(catalog: CatalogView, db_id: Seq<u8>) -> Disk {
        let pages = pages_of(catalog_block(catalog, Seq::empty(), Seq::empty()));
        let range = PageRange { start_page: PageIdx(1), num_pages: pages.len() as u32 };
        seq![header_page(HeaderView { version: 1, db_id, catalog_page_range: range })] + pages
    }

    /// All dirty node groups are written, then all dirty edge groups, then the catalog block, and the
    /// header is made to point to that.
    pub open spec fn flush(self, disk: Disk) -> Flushed<ManagerView> {
        let n = self.nodes.flush(disk);
        let e = self.edges.flush(n.disk);
        let pages = pages_of(
            catalog_block(self.catalog, n.table.page_infos(), e.table.page_infos()),
        );
        let written = e.disk + pages;
        let header = HeaderView {
            catalog_page_range: appended_range(e.disk, pages),
            ..HeaderView::parse(written[0])->Some_0
        };
        Flushed {
            table: ManagerView { nodes: n.table, edges: e.table, ..self },
            disk: written.update(0, header_page(header)),
        }
    }

    /// What flushing gives; `None` where something is too large to be written.
    pub open spec fn flush_outcome(self, disk: Disk) -> Decoded<Flushed<ManagerView>> {
        match self.nodes.flush_outcome(disk) {
            Some(n) => match self.edges.flush_outcome(n.disk) {
                Some(Ok(e)) => {
                    let pages = pages_of(
                        catalog_block(self.catalog, n.table.page_infos(), e.table.page_infos()),
                    );
                    if self.catalog.encoding().len() <= usize::MAX && pages.len() <= u32::MAX
                        && e.disk.len() + pages.len() <= u64::MAX {
                        match HeaderView::parse(disk[0]) {
                            Some(header) => {
                                let updated = HeaderView {
                                    catalog_page_range: appended_range(e.disk, pages),
                                    ..header
                                };
                                Some(
                                    Ok(
                                        Flushed {
                                            table: ManagerView {
                                                nodes: n.table,
                                                edges: e.table,
                                                ..self
                                            },
                                            disk: (e.disk + pages).update(
                                                0,
                                                header_page(updated),
                                            ),
                                        },
                                    ),
                                )
                            },
                            None => Some(Err(ErrorView::CorruptHeader)),
                        }
                    } else {
                        None
                    }
                },
                Some(Err(e)) => Some(Err(e)),
                None => None,
            },
            None => None,
        }
    }

    /// The database that a data file holds. `None` where what is written there points outside of what
    /// it is in.
    pub open spec fn open(disk: Disk) -> Opening<ManagerView> {
        if disk.len() == 0 {
            Some(Err(OpenErrorView::Unreadable(PageIdx(0))))
        } else {
            match HeaderView::parse(disk[0]) {
                Some(header) => match read_range(disk, header.catalog_page_range) {
                    Ok(block) => match parse_catalog_block(block) {
                        Some((catalog, (nodes, edges))) => ManagerView::open_groups(
                            disk,
                            catalog,
                            nodes,
                            edges,
                        ),
                        None => None,
                    },
                    Err(idx) => Some(Err(OpenErrorView::Unreadable(idx))),
                },
                None => Some(Err(OpenErrorView::Storage(ErrorView::CorruptHeader))),
            }
        }
    }

    /// The database whose groups stand on pages of the file. The nodes are read before the edges.
    pub open spec fn open_groups(
        disk: Disk,
        catalog: CatalogView,
        node_infos: Seq<NodeGroupPageInfo>,
        edge_infos: Seq<CSREdgeGroupPageInfo>,
    ) -> Opening<ManagerView> {
        match open_nodes(disk, catalog, node_infos) {
            Some(Ok(nodes)) => match open_edges(disk, catalog, edge_infos) {
                Some(Ok(edges)) => Some(
                    Ok(ManagerView { catalog, nodes, edges: edges.with_offsets(nodes.offsets()) }),
                ),
                Some(Err(e)) => Some(Err(e)),
                None => None,
            },
            Some(Err(e)) => Some(Err(e)),
            None => None,
        }
    }

    /// The file starts with a header.
    pub open spec fn headed(disk: Disk) -> bool {
        0 < disk.len() && (HeaderView::parse(disk[0]) matches Some(header) && header.db_id.len()
            == 16)
    }

    /// The database can be written to the data file so that it can be opened from there.
    pub open spec fn recoverable(self, disk: Disk) -> bool {
        &&& ManagerView::headed(disk)
        &&& self.catalog.fits()
        &&& self.nodes.catalog == self.catalog
        &&& self.nodes.tidy()
        &&& self.nodes.filed(disk)
        &&& self.nodes.labelled()
        &&& self.edges.catalog == self.catalog
        &&& self.edges.tidy()
        &&& self.edges.filed(disk)
        &&& self.edges.typed()
    }

    /// What is written can be counted: the bytes of each group and of the catalog can be held in memory,
    /// the pages of each group and of the catalog block can be counted in 32 bits, and those of the file
    /// in 64 bits.
    pub open spec fn countable(self, disk: Disk) -> bool {
        let n = self.nodes.flush(disk);
        let e = self.edges.flush(n.disk);
        &&& forall|i: int|
            0 <= i < self.nodes.tables.len() ==> (#[trigger] self.nodes.tables[i]).1.countable()
        &&& forall|i: int|
            0 <= i < self.edges.tables.len() ==> (#[trigger] self.edges.tables[i]).1.countable()
        &&& self.catalog.encoding().len() <= usize::MAX
        &&& pages_of(
            catalog_block(self.catalog, n.table.page_infos(), e.table.page_infos()),
        ).len() <= u32::MAX
        &&& self.flush(disk).disk.len() <= u64::MAX
    }

    /// What is written can be counted, the groups in 32 bits, and no table takes the pages of another.
    pub open spec fn flushable(self, disk: Disk) -> bool {
        let n = self.nodes.flush(disk);
        let e = self.edges.flush(n.disk);
        &&& self.countable(disk)
        &&& n.table.undivided()
        &&& e.table.undivided()
        &&& n.table.page_infos().len() <= u32::MAX
        &&& e.table.page_infos().len() <= u32::MAX
    }

    /// The same is read from both databases.
    pub open spec fn reads_as(self, other: ManagerView) -> bool {
        &&& self.catalog == other.catalog
        &&& forall|node_id: NodeId, label_id: LabelId| #[trigger]
            self.nodes.read(node_id, label_id) == other.nodes.read(node_id, label_id)
        &&& forall|label_id: LabelId| #[trigger]
            self.nodes.num_nodes(label_id) == other.nodes.num_nodes(label_id)
        &&& forall|label_id: LabelId| #[trigger]
            self.nodes.records(label_id) == other.nodes.records(label_id)
        &&& forall|edge_id: EdgeId, type_id: LabelId| #[trigger]
            self.edges.read(edge_id, type_id) == other.edges.read(edge_id, type_id)
        &&& forall|type_id: LabelId| #[trigger]
            self.edges.num_edges(type_id) == other.edges.num_edges(type_id)
        &&& forall|type_id: LabelId| #[trigger]
            self.edges.records(type_id) == other.edges.records(type_id)
        &&& forall|node_id: NodeId, direction: Direction| #[trigger]
            self.neighbors(node_id, direction) == other.neighbors(node_id, direction)
    }
}

/// A database is like itself.
pub proof fn lemma_alike_self(m: ManagerView)
    ensures
        m.nodes.alike(m.nodes),
        m.edges.alike(m.edges),
{
}

/// Databases with the same nodes and edges are read alike.
proof fn lemma_reads_as(l: ManagerView, m: ManagerView)
    requires
        l.catalog == m.catalog,
        same_node_tables(l.nodes, m.nodes),
        same_edge_tables(l.edges, m.edges),
        sorted(m.nodes.tables),
        sorted(m.edges.tables),
    ensures
        l.reads_as(m),
{
    lemma_same_node_store(l.nodes, m.nodes);
    lemma_same_edge_store(l.edges, m.edges);
    assert forall|node_id: NodeId, direction: Direction| #[trigger]
        l.neighbors(node_id, direction) == m.neighbors(node_id, direction) by {
        assert(l.nodes.offset(node_id) == m.nodes.offset(node_id));
        match m.nodes.offset(node_id) {
            Some(offset) => {
                assert(l.edges.neighbors(offset, direction) == m.edges.neighbors(
                    offset,
                    direction,
                ));
            },
            None => {},
        }
    }
}

/// Flushing tables only appends.
proof fn lemma_store_grows(s: EdgeStoreView, n: nat, disk: Disk)
    ensures
        disk.len() <= s.flush_tables(n, disk).disk.len(),
    decreases n,
{
    if n > 0 {
        lemma_store_grows(s, (n - 1) as nat, disk);
        let f = s.flush_tables((n - 1) as nat, disk);
        let t = f.table.tables[n - 1].1;
        lemma_edge_write_grows(
            EdgeTableView { dirty: Seq::empty(), ..t },
            t.dirty,
            t.dirty.len(),
            f.disk,
        );
    }
}

proof fn lemma_nodes_succeed(s: NodeStoreView, n: nat, disk: Disk)
    requires
        s.tidy(),
        s.filed(disk),
        n <= s.tables.len(),
        0 < disk.len(),
        forall|i: int| 0 <= i < s.tables.len() ==> (#[trigger] s.tables[i]).1.countable(),
        s.flush_tables(n, disk).disk.len() <= u64::MAX,
    ensures
        s.tables_outcome(n, disk) == Some(s.flush_tables(n, disk)),
    decreases n,
{
    if n > 0 {
        let m = n - 1;
        let before = s.flush_tables(m as nat, disk);
        let t = before.table.tables[m].1;
        lemma_flush_grows(t, before.disk);
        lemma_nodes_succeed(s, m as nat, disk);
        lemma_flush_nodes(s, m as nat, disk);
        assert(before.table.tables[m] == s.tables[m]);
        assert(s.tables[m].1.tidy() && s.tables[m].1.storable() && s.tables[m].1.filed(disk));
        node_persistence::law_extended_filed(t, disk, before.disk);
        node_persistence::law_flush_succeeds(t, before.disk);
    }
}

proof fn lemma_edges_succeed(s: EdgeStoreView, n: nat, disk: Disk)
    requires
        s.tidy(),
        s.filed(disk),
        n <= s.tables.len(),
        0 < disk.len(),
        forall|i: int| 0 <= i < s.tables.len() ==> (#[trigger] s.tables[i]).1.countable(),
        s.flush_tables(n, disk).disk.len() <= u64::MAX,
    ensures
        s.tables_outcome(n, disk) == Some(
            Ok::<Flushed<EdgeStoreView>, ErrorView>(s.flush_tables(n, disk)),
        ),
    decreases n,
{
    if n > 0 {
        let m = n - 1;
        let before = s.flush_tables(m as nat, disk);
        let t = before.table.tables[m].1;
        lemma_edge_write_grows(
            EdgeTableView { dirty: Seq::empty(), ..t },
            t.dirty,
            t.dirty.len(),
            before.disk,
        );
        lemma_store_grows(s, m as nat, disk);
        lemma_edges_succeed(s, m as nat, disk);
        lemma_flush_edges(s, m as nat, disk);
        assert(before.table.tables[m] == s.tables[m]);
        assert(s.tables[m].1.tidy() && s.tables[m].1.storable() && s.tables[m].1.filed(disk));
        edge_persistence::law_extended_filed(t, disk, before.disk);
        edge_persistence::law_flush_succeeds(t, before.disk);
    }
}

/// Flushing succeeds for every database that can be written to its data file, unless something is too
/// large to be counted.
pub proof fn law_flush_succeeds(m: ManagerView, disk: Disk)
    requires
        m.recoverable(disk),
        m.countable(disk),
    ensures
        m.flush_outcome(disk) == Some(Ok::<Flushed<ManagerView>, ErrorView>(m.flush(disk))),
{
    let n = m.nodes.flush(disk);
    let e = m.edges.flush(n.disk);
    lemma_store_grows(m.edges, m.edges.tables.len(), n.disk);
    lemma_nodes_succeed(m.nodes, m.nodes.tables.len(), disk);
    lemma_flush_nodes(m.nodes, m.nodes.tables.len(), disk);
    assert(m.edges.filed(n.disk)) by {
        assert forall|i: int| 0 <= i < m.edges.tables.len() implies {
            &&& (#[trigger] m.edges.tables[i]).1.storable()
            &&& m.edges.tables[i].1.filed(n.disk)
        } by {
            edge_persistence::law_extended_filed(m.edges.tables[i].1, disk, n.disk);
        }
    }
    lemma_edges_succeed(m.edges, m.edges.tables.len(), n.disk);
    lemma_flush_edges(m.edges, m.edges.tables.len(), n.disk);
    let pages = pages_of(
        catalog_block(m.catalog, n.table.page_infos(), e.table.page_infos()),
    );
    assert((e.disk + pages)[0] == disk[0]);
}

/// Wherever flushing succeeds, all that is to be written was written.
pub proof fn law_flush_outcome(m: ManagerView, disk: Disk)
    requires
        m.recoverable(disk),
        disk.len() <= u64::MAX,
    ensures
        m.flush_outcome(disk) matches Some(Ok(f)) ==> f == m.flush(disk) && f.disk.len() <= u64::MAX,
{
    if m.flush_outcome(disk) matches Some(Ok(_)) {
        lemma_nodes_outcome(m.nodes, m.nodes.tables.len(), disk);
        let n = m.nodes.flush(disk);
        lemma_edges_outcome(m.edges, m.edges.tables.len(), n.disk);
        let e = m.edges.flush(n.disk);
        lemma_flush_nodes(m.nodes, m.nodes.tables.len(), disk);
        assert forall|i: int| 0 <= i < m.edges.tables.len() implies {
            &&& (#[trigger] m.edges.tables[i]).1.storable()
            &&& m.edges.tables[i].1.filed(n.disk)
        } by {
            edge_persistence::law_extended_filed(m.edges.tables[i].1, disk, n.disk);
        }
        lemma_flush_edges(m.edges, m.edges.tables.len(), n.disk);
        let pages = pages_of(
            catalog_block(m.catalog, n.table.page_infos(), e.table.page_infos()),
        );
        assert((e.disk + pages)[0] == disk[0]);
    }
}

/// If there is one label and one type, no table takes the pages of another.
pub proof fn law_undivided(m: ManagerView, disk: Disk)
    requires
        m.nodes.tables.len() <= 1,
        m.edges.tables.len() <= 1,
    ensures
        m.nodes.flush(disk).table.undivided(),
        m.edges.flush(m.nodes.flush(disk).disk).table.undivided(),
{
    let n = m.nodes.flush(disk);
    let e = m.edges.flush(n.disk);
    reveal_with_fuel(NodeStoreView::flush_tables, 3);
    reveal_with_fuel(EdgeStoreView::flush_tables, 3);
    reveal_with_fuel(node_store::joined_infos, 3);
    reveal_with_fuel(edge_store::joined_infos, 3);
    if n.table.tables.len() == 1 {
        assert(n.table.page_infos() =~= n.table.tables[0].1.page_infos);
    }
    if e.table.tables.len() == 1 {
        assert(e.table.page_infos() =~= e.table.tables[0].1.page_infos);
    }
}

/// A database that was flushed is opened from its data file: every node and every edge is read as
/// before, every node has the same edges, and there are as many. The database that was opened can be
/// worked with and flushed to the file in turn, and so can the one that was flushed.
pub proof fn law_flush_then_open(m: ManagerView, disk: Disk) -> (l: ManagerView)
    requires
        m.recoverable(disk),
        m.flushable(disk),
    ensures
        ({
            let f = m.flush(disk);
            &&& m.flush_outcome(disk) == Some(Ok::<Flushed<ManagerView>, ErrorView>(f))
            &&& ManagerView::open(f.disk) == Some(Ok::<ManagerView, OpenErrorView>(l))
            &&& l.sound()
            &&& l.reads_as(m)
            &&& l.recoverable(f.disk)
            &&& same_node_tables(l.nodes, m.nodes)
            &&& same_edge_tables(l.edges, m.edges)
            &&& l.edges.offsets == ordered_map::put_upto(
                Seq::empty(),
                l.nodes.offsets(),
                l.nodes.offsets().len(),
            )
            &&& f.table.reads_as(m)
            &&& f.table.recoverable(f.disk)
        }),
{
    let n = m.nodes.flush(disk);
    let e = m.edges.flush(n.disk);
    let nodes = n.table.page_infos();
    let edges = e.table.page_infos();
    let pages = pages_of(catalog_block(m.catalog, nodes, edges));
    let written = e.disk + pages;
    let range = appended_range(e.disk, pages);
    let f = m.flush(disk);
    law_flush_succeeds(m, disk);
    lemma_store_grows(m.edges, m.edges.tables.len(), n.disk);
    lemma_flush_nodes(m.nodes, m.nodes.tables.len(), disk);
    assert(m.edges.filed(n.disk)) by {
        assert forall|i: int| 0 <= i < m.edges.tables.len() implies {
            &&& (#[trigger] m.edges.tables[i]).1.storable()
            &&& m.edges.tables[i].1.filed(n.disk)
        } by {
            edge_persistence::law_extended_filed(m.edges.tables[i].1, disk, n.disk);
        }
    }
    lemma_flush_edges(m.edges, m.edges.tables.len(), n.disk);
    page::law_append_pages(e.disk, pages);
    let header = HeaderView { catalog_page_range: range, ..HeaderView::parse(written[0])->Some_0 };
    assert(written[0] == disk[0]);
    header::law_header_roundtrip(header);
    page::law_write_header_page(written, header_page(header));
    lemma_extends_twice(f.disk, written, e.disk);
    lemma_extends_twice(f.disk, e.disk, n.disk);
    let ln = lemma_nodes_flush_then_load(m.nodes, disk, f.disk);
    let le = lemma_edges_flush_then_load(m.edges, n.disk, f.disk);
    assert(on_disk(written, range));
    assert(block_at(f.disk, range) == concat(pages));
    metadata::law_catalog_block_roundtrip(m.catalog, nodes, edges);
    page::law_read_range(f.disk, range);
    lemma_open_groups(f.disk, m.catalog, nodes, edges);
    let l = ManagerView {
        catalog: m.catalog,
        nodes: ln,
        edges: le.with_offsets(ln.offsets()),
    };
    assert(l.edges.tables == le.tables);
    lemma_tidy_sound(l, le);
    lemma_reads_as(l, m);
    lemma_flushed_node_store(m.nodes, disk, f.disk);
    lemma_flushed_edge_store(m.edges, n.disk, f.disk);
    lemma_reads_as(f.table, m);
    assert(f.disk[0] == header_page(header));
    assert(l.edges.typed()) by {
        lemma_same_typed(l.edges, m.edges);
    }
    l
}

/// A database that was loaded and is tidy can be worked with.
proof fn lemma_tidy_sound(l: ManagerView, le: EdgeStoreView)
    requires
        l.nodes.tidy(),
        l.nodes.catalog == l.catalog,
        le.tidy(),
        le.offsets == Seq::<(u64, u64)>::empty(),
        le.catalog == l.catalog,
        l.edges == le.with_offsets(l.nodes.offsets()),
    ensures
        l.sound(),
{
    assert forall|i: int| 0 <= i < l.edges.tables.len() implies (
    #[trigger] l.edges.tables[i]).1.sound() by {
        let t = l.edges.tables[i].1;
        assert(le.tables[i].1.tidy());
        lemma_ok_sound(t.fwd, Direction::Forward, t.columns());
        lemma_ok_sound(t.bwd, Direction::Backward, t.columns());
    }
    assert forall|i: int| 0 <= i < l.nodes.tables.len() implies (
    #[trigger] l.nodes.tables[i]).1.sound() by {
        assert(l.nodes.tables[i].1.tidy());
    }
    database::lemma_loaded_offsets_in_range(l.nodes);
}

pub proof fn lemma_ok_sound(
    ranges: Ranges,
    direction: Direction,
    schema: Seq<(ColumnId, DataType)>,
)
    requires
        ranges_ok(ranges, direction, schema),
    ensures
        ranges_sound(ranges),
{
    assert forall|i: int, j: int| 0 <= i < ranges.len() && 0 <= j < ranges[i].1.len() implies (
    #[trigger] ranges[i].1[j]).valid() && ranges[i].1[j].sound() by {
        assert(groups_ok(ranges[i].1, ranges[i].0, direction, schema));
        assert(group_ok(ranges[i].1[j], ranges[i].0, direction, schema));
    }
}

proof fn lemma_extends_twice(a: Disk, b: Disk, c: Disk)
    requires
        extends(a, b),
        extends(b, c),
    ensures
        extends(a, c),
{
    assert forall|range: PageRange| #[trigger] on_disk(c, range) implies on_disk(a, range)
        && block_at(a, range) == block_at(c, range) by {
        assert(on_disk(b, range));
    }
}

/// Groups whose pages are in the file can be read.
proof fn lemma_open_groups(
    disk: Disk,
    catalog: CatalogView,
    nodes: Seq<NodeGroupPageInfo>,
    edges: Seq<CSREdgeGroupPageInfo>,
)
    requires
        forall|i: int| 0 <= i < nodes.len() ==> on_disk(disk, (#[trigger] nodes[i]).page_range),
        forall|i: int| 0 <= i < edges.len() ==> on_disk(disk, (#[trigger] edges[i]).page_range),
    ensures
        open_nodes(disk, catalog, nodes) == opened(
            NodeStoreView::load(catalog, nodes, node_blocks(disk, nodes)),
        ),
        open_edges(disk, catalog, edges) == opened(
            EdgeStoreView::load(catalog, edges, edge_blocks(disk, edges)),
        ),
{
    let ns = node_ranges(nodes);
    let es = edge_ranges(edges);
    page::law_read_ranges(disk, ns, nodes.len());
    page::law_read_ranges(disk, es, edges.len());
    assert(Seq::new(nodes.len(), |i: int| block_at(disk, ns[i])) =~= node_blocks(disk, nodes));
    assert(Seq::new(edges.len(), |i: int| block_at(disk, es[i])) =~= edge_blocks(disk, edges));
    assert(nodes.take(nodes.len() as int) =~= nodes);
    assert(edges.take(edges.len() as int) =~= edges);
}

/// A flushed node store has the nodes that it had, and stays filed when more is written.
proof fn lemma_flushed_node_store(s: NodeStoreView, disk: Disk, after: Disk)
    requires
        s.tidy(),
        s.filed(disk),
        s.labelled(),
        0 < disk.len(),
        s.flush(disk).disk.len() <= u64::MAX,
        extends(after, s.flush(disk).disk),
    ensures
        same_node_tables(s.flush(disk).table, s),
        s.flush(disk).table.tidy(),
        s.flush(disk).table.filed(after),
        s.flush(disk).table.labelled(),
{
    let f = s.flush(disk);
    lemma_flush_nodes(s, s.tables.len(), disk);
    assert forall|i: int| 0 <= i < f.table.tables.len() implies {
        &&& (#[trigger] f.table.tables[i]).1.complete()
        &&& f.table.tables[i].1.storable()
        &&& f.table.tables[i].1.filed(after)
    } by {
        node_persistence::law_extended_filed(f.table.tables[i].1, f.disk, after);
    }
    lemma_same_node_store(f.table, s);
    lemma_same_labelled(f.table, s);
}

/// A flushed edge store has the edges that it had, and stays filed when more is written.
proof fn lemma_flushed_edge_store(s: EdgeStoreView, disk: Disk, after: Disk)
    requires
        s.tidy(),
        s.filed(disk),
        s.typed(),
        0 < disk.len(),
        s.flush(disk).disk.len() <= u64::MAX,
        extends(after, s.flush(disk).disk),
    ensures
        same_edge_tables(s.flush(disk).table, s),
        s.flush(disk).table.tidy(),
        s.flush(disk).table.filed(after),
        s.flush(disk).table.typed(),
{
    let f = s.flush(disk);
    lemma_flush_edges(s, s.tables.len(), disk);
    assert forall|i: int| 0 <= i < f.table.tables.len() implies {
        &&& (#[trigger] f.table.tables[i]).1.storable()
        &&& f.table.tables[i].1.filed(after)
    } by {
        edge_persistence::law_extended_filed(f.table.tables[i].1, f.disk, after);
    }
    lemma_same_edge_store(f.table, s);
    lemma_same_typed(f.table, s);
}

// ---------------------------------------------------------------------------------------------
// New databases

/// Entries of the catalog with the same id are the same.
pub open spec fn ids_unambiguous(catalog: CatalogView) -> bool {
    let labels = catalog.node_labels;
    let types = catalog.edge_types;
    &&& forall|i: int, j: int|
        0 <= i < labels.len() && 0 <= j < labels.len() && (#[trigger] labels[i]).label_id == (
        #[trigger] labels[j]).label_id ==> labels[i] == labels[j]
    &&& forall|i: int, j: int|
        0 <= i < types.len() && 0 <= j < types.len() && (#[trigger] types[i]).label_id == (
        #[trigger] types[j]).label_id ==> types[i] == types[j]
}

proof fn lemma_load_no_nodes(labels: Seq<NodeLabelView>, blocks: Seq<Seq<u8>>, n: nat)
    requires
        n <= labels.len(),
    ensures
        ({
            let tables = node_store::empty_tables(labels);
            node_store::load_tables(labels, Seq::empty(), blocks, n) == Some(
                Ok::<NodeTables, ErrorView>(put_all(tables, n)),
            )
        }),
    decreases n,
{
    if n > 0 {
        lemma_load_no_nodes(labels, blocks, (n - 1) as nat);
    }
}

proof fn lemma_load_no_edges(types: Seq<EdgeTypeView>, blocks: Seq<Seq<u8>>, n: nat)
    requires
        n <= types.len(),
    ensures
        ({
            let tables = edge_store::empty_tables(types);
            edge_store::load_tables(types, Seq::empty(), blocks, n) == Some(
                Ok::<EdgeTables, ErrorView>(put_all(tables, n)),
            )
        }),
    decreases n,
{
    if n > 0 {
        lemma_load_no_edges(types, blocks, (n - 1) as nat);
    }
}

/// The tables of a new node store are new.
pub proof fn lemma_new_node_tables(labels: Seq<NodeLabelView>, n: nat)
    requires
        n <= labels.len(),
    ensures
        ({
            let r = put_all(node_store::empty_tables(labels), n);
            &&& sorted(r)
            &&& forall|i: int|
                0 <= i < r.len() ==> (#[trigger] r[i]).1 == NodeTableView::empty(r[i].1.schema)
        }),
    decreases n,
{
    if n > 0 {
        lemma_new_node_tables(labels, (n - 1) as nat);
        let tables = node_store::empty_tables(labels);
        let before = put_all(tables, (n - 1) as nat);
        let (key, t) = tables[n - 1];
        let p = |t: NodeTableView| t == NodeTableView::empty(t.schema);
        assert forall|i: int| 0 <= i < before.len() implies p((#[trigger] before[i]).1) by {}
        ordered_map::lemma_put_keeps(before, key, t, p);
        ordered_map::law_put_then_lookup(before, key, t, 0);
        let r = put(before, key, t);
        assert forall|i: int| 0 <= i < r.len() implies (#[trigger] r[i]).1
            == NodeTableView::empty(r[i].1.schema) by {
            assert(p(r[i].1));
        }
    }
}

/// The tables of a new edge store are new.
pub proof fn lemma_new_edge_tables(types: Seq<EdgeTypeView>, n: nat)
    requires
        n <= types.len(),
    ensures
        ({
            let r = put_all(edge_store::empty_tables(types), n);
            &&& sorted(r)
            &&& forall|i: int|
                0 <= i < r.len() ==> (#[trigger] r[i]).1 == EdgeTableView::empty(r[i].1.schema)
        }),
    decreases n,
{
    if n > 0 {
        lemma_new_edge_tables(types, (n - 1) as nat);
        let tables = edge_store::empty_tables(types);
        let before = put_all(tables, (n - 1) as nat);
        let (key, t) = tables[n - 1];
        let p = |t: EdgeTableView| t == EdgeTableView::empty(t.schema);
        assert forall|i: int| 0 <= i < before.len() implies p((#[trigger] before[i]).1) by {}
        ordered_map::lemma_put_keeps(before, key, t, p);
        ordered_map::law_put_then_lookup(before, key, t, 0);
        let r = put(before, key, t);
        assert forall|i: int| 0 <= i < r.len() implies (#[trigger] r[i]).1
            == EdgeTableView::empty(r[i].1.schema) by {
            assert(p(r[i].1));
        }
    }
}

proof fn lemma_no_offsets(tables: NodeTables, n: nat)
    requires
        n <= tables.len(),
        forall|i: int| 0 <= i < tables.len() ==> (#[trigger] tables[i]).1.offsets.len() == 0,
    ensures
        merged_offsets(tables, n) == Seq::<(u64, u64)>::empty(),
    decreases n,
{
    if n > 0 {
        lemma_no_offsets(tables, (n - 1) as nat);
        assert(tables[n - 1].1.offsets.len() == 0);
    }
}

/// A database that was created is opened from its data file, without nodes and edges.
pub proof fn law_create_then_open(catalog: CatalogView, db_id: Seq<u8>)
    requires
        catalog.fits(),
        db_id.len() == 16,
        pages_of(catalog_block(catalog, Seq::empty(), Seq::empty())).len() <= u32::MAX,
    ensures
        ManagerView::open(ManagerView::create(catalog, db_id)) == Some(
            Ok::<ManagerView, OpenErrorView>(ManagerView::empty(catalog)),
        ),
{
    let disk = ManagerView::create(catalog, db_id);
    let pages = pages_of(catalog_block(catalog, Seq::empty(), Seq::empty()));
    let range = PageRange { start_page: PageIdx(1), num_pages: pages.len() as u32 };
    let header = HeaderView { version: 1, db_id, catalog_page_range: range };
    let first = seq![header_page(header)];
    header::law_header_roundtrip(header);
    assert(disk[0] == header_page(header));
    page::law_append_pages(first, pages);
    assert(appended_range(first, pages) == range);
    metadata::law_catalog_block_roundtrip(catalog, Seq::empty(), Seq::empty());
    let labels = catalog.node_labels;
    let types = catalog.edge_types;
    let nodes: Seq<NodeGroupPageInfo> = Seq::empty();
    let edges: Seq<CSREdgeGroupPageInfo> = Seq::empty();
    lemma_load_no_nodes(labels, node_blocks(disk, nodes), labels.len());
    lemma_load_no_edges(types, edge_blocks(disk, edges), types.len());
    page::law_read_range(disk, range);
    lemma_open_groups(disk, catalog, nodes, edges);
    let e = ManagerView::empty(catalog);
    lemma_new_node_tables(labels, labels.len());
    lemma_no_offsets(e.nodes.tables, e.nodes.tables.len());
    assert(e.edges.with_offsets(e.nodes.offsets()) =~= e.edges);
}

/// A new database can be written to the file that was created for it, if no two entries of its
/// catalog have the same id.
pub proof fn law_created_recoverable(catalog: CatalogView, db_id: Seq<u8>)
    requires
        catalog.fits(),
        ids_unambiguous(catalog),
        db_id.len() == 16,
    ensures
        ManagerView::empty(catalog).recoverable(ManagerView::create(catalog, db_id)),
{
    let m = ManagerView::empty(catalog);
    let disk = ManagerView::create(catalog, db_id);
    let pages = pages_of(catalog_block(catalog, Seq::empty(), Seq::empty()));
    let range = PageRange { start_page: PageIdx(1), num_pages: pages.len() as u32 };
    let header = HeaderView { version: 1, db_id, catalog_page_range: range };
    header::law_header_roundtrip(header);
    assert(disk[0] == header_page(header));
    let labels = catalog.node_labels;
    let types = catalog.edge_types;
    lemma_new_node_tables(labels, labels.len());
    lemma_new_edge_tables(types, types.len());
    assert forall|i: int| 0 <= i < m.nodes.tables.len() implies (
    #[trigger] m.nodes.tables[i]).1.tidy() && m.nodes.tables[i].1.complete()
        && m.nodes.tables[i].1.storable() && m.nodes.tables[i].1.filed(disk) by {
        node_laws::law_empty_tidy(m.nodes.tables[i].1.schema);
        node_persistence::law_empty_filed(m.nodes.tables[i].1.schema, disk);
    }
    assert forall|i: int| 0 <= i < m.edges.tables.len() implies (
    #[trigger] m.edges.tables[i]).1.tidy() && m.edges.tables[i].1.storable()
        && m.edges.tables[i].1.filed(disk) by {
        edge_laws::law_empty_tidy(m.edges.tables[i].1.schema, EdgeId(0), 0);
        edge_persistence::law_empty_filed(m.edges.tables[i].1.schema, disk);
    }
    lemma_new_labelled(catalog, disk);
    lemma_new_typed(catalog, disk);
}

pub proof fn lemma_new_labelled(catalog: CatalogView, disk: Disk)
    requires
        ids_unambiguous(catalog),
    ensures
        NodeStoreView::empty(catalog).labelled(),
{
    let s = NodeStoreView::empty(catalog);
    let labels = catalog.node_labels;
    let infos: Seq<NodeGroupPageInfo> = Seq::empty();
    lemma_load_no_nodes(labels, node_blocks(disk, infos), labels.len());
    let r = lemma_load_nodes(labels, infos, disk, labels.len());
    assert(r == s.tables);
    assert forall|i: int| 0 <= i < labels.len() implies (s.table(
        (#[trigger] labels[i]).label_id,
    ) matches Some(t) && t.schema == labels[i]) by {
        assert(lookup(r, labels[i].label_id.0 as u64) is Some);
    }
    assert forall|j: int| 0 <= j < s.tables.len() implies exists|i: int|
        0 <= i < labels.len() && (#[trigger] labels[i]).label_id.0 as u64 == (
        #[trigger] s.tables[j]).0 by {
        ordered_map::lemma_rank_at(r, j);
        assert(lookup(r, s.tables[j].0) is Some);
    }
}

pub proof fn lemma_new_typed(catalog: CatalogView, disk: Disk)
    requires
        ids_unambiguous(catalog),
    ensures
        EdgeStoreView::empty(catalog).typed(),
{
    let s = EdgeStoreView::empty(catalog);
    let types = catalog.edge_types;
    let infos: Seq<CSREdgeGroupPageInfo> = Seq::empty();
    lemma_load_no_edges(types, edge_blocks(disk, infos), types.len());
    let r = lemma_load_edges(types, infos, disk, types.len());
    assert(r == s.tables);
    assert forall|i: int| 0 <= i < types.len() implies (s.table(
        (#[trigger] types[i]).label_id,
    ) matches Some(t) && t.schema == types[i]) by {
        assert(lookup(r, types[i].label_id.0 as u64) is Some);
    }
    assert forall|j: int| 0 <= j < s.tables.len() implies exists|i: int|
        0 <= i < types.len() && (#[trigger] types[i]).label_id.0 as u64 == (
        #[trigger] s.tables[j]).0 by {
        ordered_map::lemma_rank_at(r, j);
        assert(lookup(r, s.tables[j].0) is Some);
    }
}

// ---------------------------------------------------------------------------------------------
// Files that hold no database

/// An empty file, one that does not start with the magic bytes, and one whose catalog is not all in it
/// are refused: each with the error that says so.
pub proof fn law_open_refuses(disk: Disk, idx: u64)
    requires
        0 < disk.len() ==> disk[0].len() == 4096,
    ensures
        disk.len() == 0 ==> ManagerView::open(disk) == Some(
            Err::<ManagerView, OpenErrorView>(OpenErrorView::Unreadable(PageIdx(0))),
        ),
        0 < disk.len() && (exists|i: int| 0 <= i < 16 && #[trigger] disk[0][i] != MAGIC_BYTES@[i])
            ==> ManagerView::open(disk) == Some(
            Err::<ManagerView, OpenErrorView>(OpenErrorView::Storage(ErrorView::CorruptHeader)),
        ),
        0 < disk.len() && (HeaderView::parse(disk[0]) matches Some(header) && {
            let range = header.catalog_page_range;
            &&& range.start_page.0 <= idx < range.start_page.0 + range.num_pages
            &&& idx >= disk.len()
            &&& range.start_page.0 < idx ==> idx - 1 < disk.len()
        }) ==> ManagerView::open(disk) == Some(
            Err::<ManagerView, OpenErrorView>(OpenErrorView::Unreadable(PageIdx(idx))),
        ),
{
    if 0 < disk.len() {
        header::law_header_magic(disk[0]);
        if let Some(header) = HeaderView::parse(disk[0]) {
            let range = header.catalog_page_range;
            if range.start_page.0 <= idx < range.start_page.0 + range.num_pages && idx
                >= disk.len() && (range.start_page.0 < idx ==> idx - 1 < disk.len()) {
                page::law_missing_page(disk, range, idx);
            }
        }
    }
}

/// Nothing is written to a file that does not start with a header.
pub proof fn law_flush_needs_header(m: ManagerView, disk: Disk, i: int)
    requires
        0 < disk.len(),
        disk[0].len() == 4096,
        0 <= i < 16,
        disk[0][i] != MAGIC_BYTES@[i],
    ensures
        !(m.flush_outcome(disk) matches Some(Ok(_))),
{
    header::law_header_magic(disk[0]);
}

// ---------------------------------------------------------------------------------------------
// What is written

proof fn lemma_node_write_clean(t: NodeTableView, idxs: Seq<NodeGroupIdx>, n: nat, disk: Disk)
    ensures
        t.write_groups(idxs, n, disk).table.dirty == t.dirty,
    decreases n,
{
    if n > 0 {
        lemma_node_write_clean(t, idxs, (n - 1) as nat, disk);
    }
}

proof fn lemma_edge_write_clean(
    t: EdgeTableView,
    idxs: Seq<(NodeGroupIdx, Direction)>,
    n: nat,
    disk: Disk,
)
    ensures
        t.write_groups(idxs, n, disk).table.dirty == t.dirty,
    decreases n,
{
    if n > 0 {
        lemma_edge_write_clean(t, idxs, (n - 1) as nat, disk);
    }
}

proof fn lemma_nodes_clean(s: NodeStoreView, n: nat, disk: Disk)
    requires
        n <= s.tables.len(),
    ensures
        s.flush_tables(n, disk).table.tables.len() == s.tables.len(),
        forall|i: int|
            0 <= i < n ==> (#[trigger] s.flush_tables(n, disk).table.tables[i]).1.dirty.len() == 0,
    decreases n,
{
    if n > 0 {
        lemma_nodes_clean(s, (n - 1) as nat, disk);
        let f = s.flush_tables((n - 1) as nat, disk);
        let t = f.table.tables[n - 1].1;
        lemma_node_write_clean(
            NodeTableView { dirty: Seq::empty(), ..t },
            t.dirty,
            t.dirty.len(),
            f.disk,
        );
        let r = s.flush_tables(n, disk).table;
        assert forall|i: int| 0 <= i < n implies (#[trigger] r.tables[i]).1.dirty.len() == 0 by {
            if i < n - 1 {
                assert(r.tables[i] == f.table.tables[i]);
            }
        }
    }
}

proof fn lemma_edges_clean(s: EdgeStoreView, n: nat, disk: Disk)
    requires
        n <= s.tables.len(),
    ensures
        s.flush_tables(n, disk).table.tables.len() == s.tables.len(),
        forall|i: int|
            0 <= i < n ==> (#[trigger] s.flush_tables(n, disk).table.tables[i]).1.dirty.len() == 0,
    decreases n,
{
    if n > 0 {
        lemma_edges_clean(s, (n - 1) as nat, disk);
        let f = s.flush_tables((n - 1) as nat, disk);
        let t = f.table.tables[n - 1].1;
        lemma_edge_write_clean(
            EdgeTableView { dirty: Seq::empty(), ..t },
            t.dirty,
            t.dirty.len(),
            f.disk,
        );
        let r = s.flush_tables(n, disk).table;
        assert forall|i: int| 0 <= i < n implies (#[trigger] r.tables[i]).1.dirty.len() == 0 by {
            if i < n - 1 {
                assert(r.tables[i] == f.table.tables[i]);
            }
        }
    }
}

proof fn lemma_clean_nodes(s: NodeStoreView, n: nat, disk: Disk)
    requires
        n <= s.tables.len(),
        forall|i: int| 0 <= i < s.tables.len() ==> (#[trigger] s.tables[i]).1.dirty.len() == 0,
    ensures
        s.flush_tables(n, disk) == (Flushed { table: s, disk }),
    decreases n,
{
    if n > 0 {
        lemma_clean_nodes(s, (n - 1) as nat, disk);
        let t = s.tables[n - 1].1;
        assert(t.dirty =~= Seq::empty());
        assert(t.flush(disk) == (Flushed { table: t, disk }));
        assert(s.flush_tables(n, disk).table.tables =~= s.tables);
    }
}

proof fn lemma_clean_edges(s: EdgeStoreView, n: nat, disk: Disk)
    requires
        n <= s.tables.len(),
        forall|i: int| 0 <= i < s.tables.len() ==> (#[trigger] s.tables[i]).1.dirty.len() == 0,
    ensures
        s.flush_tables(n, disk) == (Flushed { table: s, disk }),
    decreases n,
{
    if n > 0 {
        lemma_clean_edges(s, (n - 1) as nat, disk);
        let t = s.tables[n - 1].1;
        assert(t.dirty =~= Seq::empty());
        assert(t.flush(disk) == (Flushed { table: t, disk }));
        assert(s.flush_tables(n, disk).table.tables =~= s.tables);
    }
}

/// A database that was just flushed has nothing to write but its catalog, and flushing it again
/// changes nothing in it.
pub proof fn law_flush_again(m: ManagerView, disk: Disk)
    ensures
        ({
            let f = m.flush(disk);
            let again = f.table.flush(f.disk);
            &&& again.table == f.table
            &&& again.disk.len() == f.disk.len() + pages_of(
                catalog_block(m.catalog, f.table.nodes.page_infos(), f.table.edges.page_infos()),
            ).len()
            &&& forall|i: int| 0 < i < f.disk.len() ==> #[trigger] again.disk[i] == f.disk[i]
        }),
{
    let n = m.nodes.flush(disk);
    lemma_nodes_clean(m.nodes, m.nodes.tables.len(), disk);
    lemma_edges_clean(m.edges, m.edges.tables.len(), n.disk);
    let f = m.flush(disk);
    lemma_clean_nodes(f.table.nodes, f.table.nodes.tables.len(), f.disk);
    lemma_clean_edges(f.table.edges, f.table.edges.tables.len(), f.disk);
}

/// The file of a new database starts with a header of version 1 with its id, which points to the
/// catalog behind it.
pub proof fn law_created_file(catalog: CatalogView, db_id: Seq<u8>)
    requires
        db_id.len() == 16,
    ensures
        ({
            let disk = ManagerView::create(catalog, db_id);
            &&& disk.len() > 0
            &&& HeaderView::parse(disk[0]) == Some(
                HeaderView {
                    version: 1,
                    db_id,
                    catalog_page_range: PageRange {
                        start_page: PageIdx(1),
                        num_pages: (disk.len() - 1) as u32,
                    },
                },
            )
        }),
{
    let disk = ManagerView::create(catalog, db_id);
    let range = PageRange { start_page: PageIdx(1), num_pages: (disk.len() - 1) as u32 };
    let header = HeaderView { version: 1, db_id, catalog_page_range: range };
    header::law_header_roundtrip(header);
    assert(disk[0] == header_page(header));
}

/// Flushing writes behind what is in the file, and changes of the pages that were there only the
/// header: it points to the catalog, which comes last, and has the version and the id that it had.
pub proof fn law_flushed_file(m: ManagerView, disk: Disk)
    requires
        m.recoverable(disk),
        m.countable(disk),
    ensures
        ({
            let after = m.flush(disk).disk;
            let before = HeaderView::parse(disk[0])->Some_0;
            &&& after.len() >= disk.len()
            &&& HeaderView::parse(after[0]) matches Some(header) && {
                let range = header.catalog_page_range;
                &&& header.version == before.version
                &&& header.db_id == before.db_id
                &&& range.start_page.0 >= disk.len()
                &&& range.start_page.0 + range.num_pages == after.len()
            }
            &&& forall|i: int| 0 < i < disk.len() ==> #[trigger] after[i] == disk[i]
        }),
{
    let n = m.nodes.flush(disk);
    let e = m.edges.flush(n.disk);
    lemma_node_store_appends(m.nodes, m.nodes.tables.len(), disk);
    lemma_edge_store_appends(m.edges, m.edges.tables.len(), n.disk);
    let pages = pages_of(
        catalog_block(m.catalog, n.table.page_infos(), e.table.page_infos()),
    );
    let header = HeaderView {
        catalog_page_range: appended_range(e.disk, pages),
        ..HeaderView::parse(disk[0])->Some_0
    };
    header::law_header_roundtrip(header);
}

proof fn lemma_node_write_appends(t: NodeTableView, idxs: Seq<NodeGroupIdx>, n: nat, disk: Disk)
    ensures
        disk.len() <= t.write_groups(idxs, n, disk).disk.len(),
        forall|i: int|
            0 <= i < disk.len() ==> #[trigger] t.write_groups(idxs, n, disk).disk[i] == disk[i],
    decreases n,
{
    if n > 0 {
        lemma_node_write_appends(t, idxs, (n - 1) as nat, disk);
        let f = t.write_groups(idxs, (n - 1) as nat, disk);
        assert forall|i: int| 0 <= i < disk.len() implies #[trigger] t.write_groups(
            idxs,
            n,
            disk,
        ).disk[i] == disk[i] by {
            assert(f.disk[i] == disk[i]);
        }
    }
}

proof fn lemma_edge_write_appends(
    t: EdgeTableView,
    idxs: Seq<(NodeGroupIdx, Direction)>,
    n: nat,
    disk: Disk,
)
    ensures
        disk.len() <= t.write_groups(idxs, n, disk).disk.len(),
        forall|i: int|
            0 <= i < disk.len() ==> #[trigger] t.write_groups(idxs, n, disk).disk[i] == disk[i],
    decreases n,
{
    if n > 0 {
        lemma_edge_write_appends(t, idxs, (n - 1) as nat, disk);
        let f = t.write_groups(idxs, (n - 1) as nat, disk);
        assert forall|i: int| 0 <= i < disk.len() implies #[trigger] t.write_groups(
            idxs,
            n,
            disk,
        ).disk[i] == disk[i] by {
            assert(f.disk[i] == disk[i]);
        }
    }
}

proof fn lemma_node_store_appends(s: NodeStoreView, n: nat, disk: Disk)
    ensures
        disk.len() <= s.flush_tables(n, disk).disk.len(),
        forall|i: int|
            0 <= i < disk.len() ==> #[trigger] s.flush_tables(n, disk).disk[i] == disk[i],
    decreases n,
{
    if n > 0 {
        lemma_node_store_appends(s, (n - 1) as nat, disk);
        let f = s.flush_tables((n - 1) as nat, disk);
        let t = f.table.tables[n - 1].1;
        lemma_node_write_appends(
            NodeTableView { dirty: Seq::empty(), ..t },
            t.dirty,
            t.dirty.len(),
            f.disk,
        );
        assert forall|i: int| 0 <= i < disk.len() implies #[trigger] s.flush_tables(n, disk).disk[i]
            == disk[i] by {
            assert(f.disk[i] == disk[i]);
        }
    }
}

proof fn lemma_edge_store_appends(s: EdgeStoreView, n: nat, disk: Disk)
    ensures
        disk.len() <= s.flush_tables(n, disk).disk.len(),
        forall|i: int|
            0 <= i < disk.len() ==> #[trigger] s.flush_tables(n, disk).disk[i] == disk[i],
    decreases n,
{
    if n > 0 {
        lemma_edge_store_appends(s, (n - 1) as nat, disk);
        let f = s.flush_tables((n - 1) as nat, disk);
        let t = f.table.tables[n - 1].1;
        lemma_edge_write_appends(
            EdgeTableView { dirty: Seq::empty(), ..t },
            t.dirty,
            t.dirty.len(),
            f.disk,
        );
        assert forall|i: int| 0 <= i < disk.len() implies #[trigger] s.flush_tables(n, disk).disk[i]
            == disk[i] by {
            assert(f.disk[i] == disk[i]);
        }
    }
}

} // verus!
