//! The database: catalog, nodes and edges.

use std::sync::Arc;

use vstd::prelude::*;

use crate::adjacency::EdgeRef;
use crate::catalog::{Catalog, CatalogView};
use crate::command::{same_result, Applied, Command, CommandView};
use crate::error::{ErrorView, OpenError, OpenErrorView, StorageError};
use crate::io::header::DatabaseHeader;
use crate::io::page;
use crate::io::page::{pages_view, Disk, Page};
use crate::ordered_map;
use crate::ordered_map::{put_upto, sorted};
use crate::state::edge_store::{EdgeStore, EdgeStoreView};
use crate::state::edge_table;
use crate::state::edge_table::{range_of, CSREdgeGroupPageInfo, EdgeTable};
use crate::state::metadata;
use crate::state::node_persistence::Flushed;
use crate::state::node_store::{merged_offsets, NodeStore, NodeStoreView, NodeTables};
use crate::state::node_table;
use crate::state::node_table::{NodeGroupPageInfo, NodeTable};
use crate::state::recovery;
use crate::state::recovery::{edge_ranges, node_ranges};
use crate::table::edge::CSREdgeRecord;
use crate::table::row::row_view;
use crate::types::{Direction, EdgeId, LabelId, NodeId, PageIdx, PageRange, PropertyValue};

verus! {

/// Owns the catalog and the in-memory stores. Its owner reads and writes the data file.
pub struct StorageManager {
    catalog: Arc<Catalog>,
    node_store: NodeStore,
    edge_store: EdgeStore,
}

// ---------------------------------------------------------------------------------------------
// The model

/// What a [`StorageManager`] stands for.
#[verifier::ext_equal]
pub struct ManagerView {
    pub catalog: CatalogView,
    pub nodes: NodeStoreView,
    pub edges: EdgeStoreView,
}

/// Every offset leaves room for the range of a group.
pub open spec fn offsets_in_range(offsets: Seq<(u64, u64)>) -> bool {
    forall|i: int| 0 <= i < offsets.len() ==> range_of((#[trigger] offsets[i]).1) < 0xffff_ffff_ffff
}

impl ManagerView {
    /// A database without nodes and edges.
    pub open spec fn empty(catalog: CatalogView) -> ManagerView {
        ManagerView {
            catalog,
            nodes: NodeStoreView::empty(catalog),
            edges: EdgeStoreView::empty(catalog),
        }
    }

    /// The stores can be worked with, and have the database's catalog.
    pub open spec fn sound(self) -> bool {
        &&& self.nodes.sound()
        &&& self.edges.sound()
        &&& self.nodes.catalog == self.catalog
        &&& self.edges.catalog == self.catalog
        &&& sorted(self.edges.offsets)
        &&& offsets_in_range(self.edges.offsets)
    }

    /// Commands on edges go to the edge store, after it was told the offsets of all nodes; other
    /// commands go to the node store.
    pub open spec fn apply(self, cmd: CommandView) -> Applied<ManagerView> {
        match cmd {
            CommandView::CreateEdge { .. } | CommandView::DeleteEdge { .. } => {
                let a = self.edges.with_offsets(self.nodes.offsets()).apply(cmd);
                Applied { state: ManagerView { edges: a.state, ..self }, result: a.result }
            },
            _ => {
                let a = self.nodes.apply(cmd);
                Applied { state: ManagerView { nodes: a.state, ..self }, result: a.result }
            },
        }
    }

    /// The state after the first `n` of some commands, whether or not they succeeded.
    pub open spec fn replay(self, cmds: Seq<CommandView>, n: nat) -> ManagerView
        decreases n,
    {
        if n == 0 {
            self
        } else {
            self.replay(cmds, (n - 1) as nat).apply(cmds[n - 1]).state
        }
    }

    /// The edges of a node; none for a node that is not there.
    pub open spec fn neighbors(self, node_id: NodeId, direction: Direction) -> Seq<EdgeRef> {
        match self.nodes.offset(node_id) {
            Some(offset) => self.edges.neighbors(offset, direction),
            None => Seq::empty(),
        }
    }
}

// ---------------------------------------------------------------------------------------------
// Facts

proof fn lemma_put_in_range(base: Seq<(u64, u64)>, key: u64, offset: u64)
    requires
        sorted(base),
        offsets_in_range(base),
        range_of(offset) < 0xffff_ffff_ffff,
    ensures
        sorted(ordered_map::put(base, key, offset)),
        offsets_in_range(ordered_map::put(base, key, offset)),
{
    let p = |o: u64| range_of(o) < 0xffff_ffff_ffff;
    ordered_map::law_put_then_lookup(base, key, offset, 0);
    assert forall|i: int| 0 <= i < base.len() implies p((#[trigger] base[i]).1) by {}
    ordered_map::lemma_put_keeps(base, key, offset, p);
    let r = ordered_map::put(base, key, offset);
    assert forall|i: int| 0 <= i < r.len() implies range_of((#[trigger] r[i]).1)
        < 0xffff_ffff_ffff by {
        assert(p(r[i].1));
    }
}

proof fn lemma_put_upto_in_range(base: Seq<(u64, u64)>, s: Seq<(u64, u64)>, n: nat)
    requires
        sorted(base),
        offsets_in_range(base),
        offsets_in_range(s),
        n <= s.len(),
    ensures
        sorted(put_upto(base, s, n)),
        offsets_in_range(put_upto(base, s, n)),
    decreases n,
{
    if n > 0 {
        lemma_put_upto_in_range(base, s, (n - 1) as nat);
        assert(range_of(s[n - 1].1) < 0xffff_ffff_ffff);
        lemma_put_in_range(put_upto(base, s, (n - 1) as nat), s[n - 1].0, s[n - 1].1);
    }
}

proof fn lemma_merged_in_range(tables: NodeTables, n: nat)
    requires
        forall|i: int| 0 <= i < tables.len() ==> (#[trigger] tables[i]).1.sound(),
        n <= tables.len(),
    ensures
        sorted(merged_offsets(tables, n)),
        offsets_in_range(merged_offsets(tables, n)),
    decreases n,
{
    if n > 0 {
        lemma_merged_in_range(tables, (n - 1) as nat);
        let t = tables[n - 1].1;
        assert(t.sound());
        assert(offsets_in_range(t.offsets)) by {
            assert forall|i: int| 0 <= i < t.offsets.len() implies range_of(
                (#[trigger] t.offsets[i]).1,
            ) < 0xffff_ffff_ffff by {}
        }
        lemma_put_upto_in_range(
            merged_offsets(tables, (n - 1) as nat),
            t.offsets,
            t.offsets.len(),
        );
    }
}

/// The offsets of a sound node store can be given to an edge store.
pub proof fn lemma_with_offsets_in_range(v: ManagerView)
    requires
        v.sound(),
    ensures
        ({
            let offsets = v.edges.with_offsets(v.nodes.offsets()).offsets;
            sorted(offsets) && offsets_in_range(offsets)
        }),
{
    lemma_merged_in_range(v.nodes.tables, v.nodes.tables.len());
    lemma_put_upto_in_range(v.edges.offsets, v.nodes.offsets(), v.nodes.offsets().len());
}

/// The offsets of a sound node store can be given to an edge store that knows of no node.
pub proof fn lemma_loaded_offsets_in_range(nodes: NodeStoreView)
    requires
        nodes.sound(),
    ensures
        ({
            let offsets = put_upto(Seq::empty(), nodes.offsets(), nodes.offsets().len());
            sorted(offsets) && offsets_in_range(offsets)
        }),
{
    lemma_merged_in_range(nodes.tables, nodes.tables.len());
    lemma_put_upto_in_range(Seq::empty(), nodes.offsets(), nodes.offsets().len());
}

/// An edge store whose offsets are all in range has room for any edge.
pub proof fn lemma_in_range_has_room(edges: EdgeStoreView, cmd: CommandView)
    requires
        offsets_in_range(edges.offsets),
    ensures
        edges.has_room(cmd),
{
    match cmd {
        CommandView::CreateEdge { from, to, .. } => {
            if edges.offset(from) is Some {
                let i = ordered_map::rank(edges.offsets, from.0) as int;
                assert(range_of(edges.offsets[i].1) < 0xffff_ffff_ffff);
            }
            if edges.offset(to) is Some {
                let i = ordered_map::rank(edges.offsets, to.0) as int;
                assert(range_of(edges.offsets[i].1) < 0xffff_ffff_ffff);
            }
        },
        _ => {},
    }
}

// ---------------------------------------------------------------------------------------------
// The database

impl View for StorageManager {
    type V = ManagerView;

    closed spec fn view(&self) -> ManagerView {
        ManagerView {
            catalog: (*self.catalog)@,
            nodes: self.node_store@,
            edges: self.edge_store@,
        }
    }
}

impl StorageManager {
    /// The parts of the database are well-formed and have its catalog.
    pub closed spec fn intact(&self) -> bool {
        &&& self.node_store.intact()
        &&& self.edge_store.intact()
        &&& self.node_store@.catalog == (*self.catalog)@
        &&& self.edge_store@.catalog == (*self.catalog)@
    }

    pub open spec fn wf(&self) -> bool {
        self.intact() && self@.sound()
    }

    /// A database without nodes and edges.
    pub fn new(catalog: Catalog) -> (m: Self)
        ensures
            m.wf(),
            m@ == ManagerView::empty(catalog@),
    {
        let node_store = NodeStore::new(Arc::new(catalog.clone()));
        let edge_store = EdgeStore::new(Arc::new(catalog.clone()));
        StorageManager { catalog: Arc::new(catalog), node_store, edge_store }
    }

    /// Whether commands can be applied, and nodes and edges can be read.
    pub fn is_sound(&self) -> (b: bool)
        requires
            self.intact(),
        ensures
            b == self@.sound(),
    {
        if !self.node_store.is_sound() || !self.edge_store.is_sound() {
            return false;
        }
        let offsets = self.edge_store.node_offsets();
        proof {
            offsets.lemma_wf();
        }
        let mut i: usize = 0;
        while i < offsets.len()
            invariant
                offsets.wf(),
                offsets@ == self@.edges.offsets,
                i <= offsets@.len(),
                forall|k: int|
                    0 <= k < i ==> range_of((#[trigger] offsets@[k]).1) < 0xffff_ffff_ffff,
            decreases offsets@.len() - i,
        {
            if *offsets.value_at(i) / 65536 >= 0xffff_ffff_ffff {
                assert(range_of(offsets@[i as int].1) >= 0xffff_ffff_ffff);
                return false;
            }
            i = i + 1;
        }
        true
    }

    /// Whether the node that a command creates can be numbered.
    pub fn has_room(&self, cmd: &Command) -> (b: bool)
        requires
            self.intact(),
        ensures
            b == self@.nodes.has_room(cmd@),
    {
        self.node_store.has_room(cmd)
    }

    pub fn apply_command(&mut self, cmd: &Command) -> (r: Result<(), StorageError>)
        requires
            old(self).wf(),
            old(self)@.nodes.has_room(cmd@),
        ensures
            final(self).wf(),
            final(self)@ == old(self)@.apply(cmd@).state,
            same_result(r, old(self)@.apply(cmd@).result),
    {
        match cmd {
            Command::CreateEdge { .. } | Command::DeleteEdge { .. } => {
                let offsets = self.node_store.node_offset_map();
                self.edge_store.update_node_offsets(&offsets);
                proof {
                    lemma_with_offsets_in_range(old(self)@);
                    lemma_in_range_has_room(self.edge_store@, cmd@);
                }
                self.edge_store.apply_command(cmd)
            },
            _ => self.node_store.apply_command(cmd),
        }
    }

    pub fn get_node(&self, node_id: NodeId, label_id: LabelId) -> (r: Option<
        Vec<Option<PropertyValue>>,
    >)
        requires
            self.wf(),
        ensures
            match r {
                Some(row) => self@.nodes.read(node_id, label_id) == Some(row_view(row@)),
                None => self@.nodes.read(node_id, label_id) is None,
            },
    {
        self.node_store.get_node(node_id, label_id)
    }

    pub fn get_edge(&self, edge_id: EdgeId, type_id: LabelId) -> (r: Option<CSREdgeRecord>)
        requires
            self.wf(),
        ensures
            match r {
                Some(record) => self@.edges.read(edge_id, type_id) == Some(record@),
                None => self@.edges.read(edge_id, type_id) is None,
            },
    {
        self.edge_store.get_edge(edge_id, type_id)
    }

    /// Appends the edges of a node.
    pub fn neighbors(&self, node_id: NodeId, dir: Direction, out: &mut Vec<EdgeRef>)
        requires
            self.wf(),
        ensures
            final(out)@ == old(out)@ + self@.neighbors(node_id, dir),
    {
        match self.node_store.node_offset(node_id) {
            Some(offset) => self.edge_store.neighbors(offset, dir, out),
            None => {
                assert(old(out)@ + Seq::empty() =~= old(out)@);
            },
        }
    }

    /// The pages to be written behind the `num_pages` pages of the data file, and the page that is to
    /// take the place of its header page after that: the pages of all dirty node groups, then those of
    /// all dirty edge groups, then the catalog block. `None` where something is too large to be
    /// written.
    pub fn flush(&mut self, num_pages: u64, header_page: &Page) -> (r: Option<
        Result<(Vec<Page>, Page), StorageError>,
    >)
        requires
            old(self).wf(),
        ensures
            final(self).wf(),
            match r {
                Some(Ok((pages, header))) => forall|disk: Disk|
                    disk.len() == num_pages && 0 < num_pages && disk[0] == header_page@
                        ==> #[trigger] old(self)@.flush_outcome(disk) == Some(
                        Ok::<Flushed<ManagerView>, ErrorView>(
                            Flushed {
                                table: final(self)@,
                                disk: (disk + pages_view(pages@)).update(0, header@),
                            },
                        ),
                    ),
                Some(Err(e)) => forall|disk: Disk|
                    disk.len() == num_pages && 0 < num_pages && disk[0] == header_page@
                        ==> #[trigger] old(self)@.flush_outcome(disk) == Some(
                        Err::<Flushed<ManagerView>, ErrorView>(e@),
                    ),
                None => forall|disk: Disk|
                    disk.len() == num_pages && 0 < num_pages && disk[0] == header_page@
                        ==> #[trigger] old(self)@.flush_outcome(disk) is None,
            },
            final(self)@.catalog == old(self)@.catalog,
            final(self)@.nodes.alike(old(self)@.nodes),
            final(self)@.edges.alike(old(self)@.edges),
    {
        let ghost m = old(self)@;
        let ghost disks = |disk: Disk|
            disk.len() == num_pages && 0 < num_pages && disk[0] == header_page@;
        proof {
            recovery::lemma_alike_self(m);
        }
        let mut out: Vec<Page> = match self.node_store.flush_all(num_pages) {
            Some(pages) => pages,
            None => {
                return None;
            },
        };
        let ghost node_pages = pages_view(out@);
        let ghost n = self.node_store@;
        let start: u64 = num_pages + out.len() as u64;
        let mut edge_pages: Vec<Page> = match self.edge_store.flush_all(start) {
            Some(Ok(pages)) => pages,
            Some(Err(e)) => {
                assert forall|disk: Disk| disks(disk) implies #[trigger] m.flush_outcome(disk)
                    == Some(Err::<Flushed<ManagerView>, ErrorView>(e@)) by {
                    assert(m.nodes.flush_outcome(disk) == Some(
                        Flushed { table: n, disk: disk + node_pages },
                    ));
                    assert((disk + node_pages).len() == start);
                    assert(m.edges.flush_outcome(disk + node_pages) == Some(
                        Err::<Flushed<EdgeStoreView>, ErrorView>(e@),
                    ));
                }
                return Some(Err(e));
            },
            None => {
                assert forall|disk: Disk| disks(disk) implies #[trigger] m.flush_outcome(
                    disk,
                ) is None by {
                    assert(m.nodes.flush_outcome(disk) == Some(
                        Flushed { table: n, disk: disk + node_pages },
                    ));
                    assert((disk + node_pages).len() == start);
                    assert(m.edges.flush_outcome(disk + node_pages) is None);
                }
                return None;
            },
        };
        let ghost more = pages_view(edge_pages@);
        let ghost groups = node_pages + more;
        let ghost e = self.edge_store@;
        out.append(&mut edge_pages);
        assert(pages_view(out@) =~= groups);
        assert forall|disk: Disk| disks(disk) implies m.nodes.flush_outcome(disk) == Some(
            Flushed { table: n, disk: disk + node_pages },
        ) && m.edges.flush_outcome(disk + node_pages) == Some(
            Ok::<Flushed<EdgeStoreView>, ErrorView>(Flushed { table: e, disk: disk + groups }),
        ) by {
            assert((disk + node_pages).len() == start);
            assert(m.edges.flush_outcome(disk + node_pages) == Some(
                Ok::<Flushed<EdgeStoreView>, ErrorView>(
                    Flushed { table: e, disk: (disk + node_pages) + more },
                ),
            ));
            assert((disk + node_pages) + more =~= disk + groups);
        }
        let node_pis = self.node_store.all_page_infos();
        let edge_pis = self.edge_store.all_page_infos();
        let block = metadata::serialize_catalog_block(
            &self.catalog,
            node_pis.as_slice(),
            edge_pis.as_slice(),
        );
        let mut block_pages: Vec<Page> = match block {
            Some(Ok(pages)) => pages,
            Some(Err(error)) => {
                return Some(Err(error));
            },
            None => {
                return None;
            },
        };
        let ghost added = pages_view(block_pages@);
        let cat_start: u64 = num_pages + out.len() as u64;
        let count: usize = block_pages.len();
        if count > u32::MAX as usize || count as u64 > u64::MAX - cat_start {
            return None;
        }
        match DatabaseHeader::deserialize(header_page) {
            Ok(mut header) => {
                let range = PageRange { start_page: PageIdx(cat_start), num_pages: count as u32 };
                header.set_catalog_page_range(range);
                out.append(&mut block_pages);
                let page = header.serialize();
                assert(pages_view(out@) =~= groups + added);
                assert forall|disk: Disk| disks(disk) implies #[trigger] m.flush_outcome(disk)
                    == Some(
                    Ok::<Flushed<ManagerView>, ErrorView>(
                        Flushed {
                            table: self@,
                            disk: (disk + pages_view(out@)).update(0, page@),
                        },
                    ),
                ) by {
                    assert((disk + groups) + added =~= disk + pages_view(out@));
                    assert(page::appended_range(disk + groups, added) == range);
                }
                Some(Ok((out, page)))
            },
            Err(error) => Some(Err(error)),
        }
    }

    /// The pages of the data file of a new database, and the database. `None` where the catalog is too
    /// large to be written.
    pub fn create(catalog: Catalog, db_id: [u8; 16]) -> (r: Option<
        Result<(Self, Vec<Page>), StorageError>,
    >)
        ensures
            match r {
                Some(Ok((m, pages))) => {
                    &&& m.wf()
                    &&& m@ == ManagerView::empty(catalog@)
                    &&& pages_view(pages@) == ManagerView::create(catalog@, db_id@)
                    &&& pages@.len() <= u32::MAX + 1
                },
                Some(Err(_)) => false,
                None => catalog@.encoding().len() > usize::MAX || ManagerView::create(
                    catalog@,
                    db_id@,
                ).len() > u32::MAX + 1,
            },
    {
        let no_nodes: Vec<NodeGroupPageInfo> = Vec::new();
        let no_edges: Vec<CSREdgeGroupPageInfo> = Vec::new();
        let mut cat_pages: Vec<Page> = match metadata::serialize_catalog_block(
            &catalog,
            no_nodes.as_slice(),
            no_edges.as_slice(),
        ) {
            Some(Ok(pages)) => pages,
            Some(Err(e)) => {
                return Some(Err(e));
            },
            None => {
                return None;
            },
        };
        let ghost block = pages_view(cat_pages@);
        assert(no_nodes@ =~= Seq::empty() && no_edges@ =~= Seq::empty());
        let count: usize = cat_pages.len();
        if count > u32::MAX as usize {
            return None;
        }
        let mut header = DatabaseHeader::new(db_id);
        header.set_catalog_page_range(
            PageRange { start_page: PageIdx(1), num_pages: count as u32 },
        );
        let first = header.serialize();
        let ghost front = first@;
        let mut pages: Vec<Page> = Vec::new();
        pages.push(first);
        pages.append(&mut cat_pages);
        assert(pages_view(pages@) =~= seq![front] + block);
        Some(Ok((StorageManager::new(catalog), pages)))
    }

    /// The database that the pages of a data file hold. `None` where what is written there points
    /// outside of what it is in.
    pub fn open(file: &Vec<Page>) -> (r: Option<Result<Self, OpenError>>)
        ensures
            match r {
                Some(Ok(m)) => m.intact() && ManagerView::open(pages_view(file@)) == Some(
                    Ok::<ManagerView, OpenErrorView>(m@),
                ),
                Some(Err(e)) => ManagerView::open(pages_view(file@)) == Some(
                    Err::<ManagerView, OpenErrorView>(e@),
                ),
                None => ManagerView::open(pages_view(file@)) is None,
            },
    {
        if file.len() == 0 {
            return Some(Err(OpenError::Unreadable(PageIdx(0))));
        }
        let header = match DatabaseHeader::deserialize(&file[0]) {
            Ok(header) => header,
            Err(e) => {
                return Some(Err(OpenError::Storage(e)));
            },
        };
        let cat_pages = match page::read_page_range(file.as_slice(), header.catalog_page_range) {
            Ok(pages) => pages,
            Err(idx) => {
                return Some(Err(OpenError::Unreadable(idx)));
            },
        };
        let (catalog, nodes, edges) = match metadata::read_catalog_block(cat_pages.as_slice()) {
            Some(parts) => parts,
            None => {
                return None;
            },
        };
        let node_store = match open_node_store(file, &catalog, nodes) {
            Some(Ok(s)) => s,
            Some(Err(e)) => {
                return Some(Err(e));
            },
            None => {
                return None;
            },
        };
        let mut edge_store = match open_edge_store(file, &catalog, edges) {
            Some(Ok(s)) => s,
            Some(Err(e)) => {
                return Some(Err(e));
            },
            None => {
                return None;
            },
        };
        let offsets = node_store.node_offset_map();
        edge_store.update_node_offsets(&offsets);
        Some(Ok(StorageManager { catalog: Arc::new(catalog), node_store, edge_store }))
    }
}

/// The node store whose groups stand on pages of a file.
fn open_node_store(file: &Vec<Page>, catalog: &Catalog, infos: Vec<NodeGroupPageInfo>) -> (r:
    Option<Result<NodeStore, OpenError>>)
    ensures
        match r {
            Some(Ok(s)) => s.intact() && s@.catalog == catalog@ && recovery::open_nodes(
                pages_view(file@),
                catalog@,
                infos@,
            ) == Some(Ok::<NodeStoreView, OpenErrorView>(s@)),
            Some(Err(e)) => recovery::open_nodes(pages_view(file@), catalog@, infos@) == Some(
                Err::<NodeStoreView, OpenErrorView>(e@),
            ),
            None => recovery::open_nodes(pages_view(file@), catalog@, infos@) is None,
        },
{
    let ranges = ranges_of_nodes(infos.as_slice());
    let (pages, missing) = page::read_page_ranges(file.as_slice(), ranges.as_slice());
    assert(node_table::blocks_view(pages@) =~= page::joined_blocks(pages@));
    let mut readable: Vec<NodeGroupPageInfo> = infos;
    readable.truncate(pages.len());
    assert(readable@ =~= infos@.take(pages@.len() as int));
    match missing {
        Some(idx) if catalog.node_labels.len() > 0 => {
            match NodeTable::try_load(catalog.node_labels[0].clone(), readable, &pages) {
                Some(Ok(_)) => Some(Err(OpenError::Unreadable(idx))),
                Some(Err(e)) => Some(Err(OpenError::Storage(e))),
                None => None,
            }
        },
        _ => match NodeStore::try_load(Arc::new(catalog.clone()), readable.as_slice(), &pages) {
            Some(Ok(s)) => Some(Ok(s)),
            Some(Err(e)) => Some(Err(OpenError::Storage(e))),
            None => None,
        },
    }
}

/// The edge store whose groups stand on pages of a file.
fn open_edge_store(file: &Vec<Page>, catalog: &Catalog, infos: Vec<CSREdgeGroupPageInfo>) -> (r:
    Option<Result<EdgeStore, OpenError>>)
    ensures
        match r {
            Some(Ok(s)) => s.intact() && s@.catalog == catalog@ && recovery::open_edges(
                pages_view(file@),
                catalog@,
                infos@,
            ) == Some(Ok::<EdgeStoreView, OpenErrorView>(s@)),
            Some(Err(e)) => recovery::open_edges(pages_view(file@), catalog@, infos@) == Some(
                Err::<EdgeStoreView, OpenErrorView>(e@),
            ),
            None => recovery::open_edges(pages_view(file@), catalog@, infos@) is None,
        },
{
    let ranges = ranges_of_edges(infos.as_slice());
    let (pages, missing) = page::read_page_ranges(file.as_slice(), ranges.as_slice());
    assert(edge_table::blocks_view(pages@) =~= page::joined_blocks(pages@));
    let mut readable: Vec<CSREdgeGroupPageInfo> = infos;
    readable.truncate(pages.len());
    assert(readable@ =~= infos@.take(pages@.len() as int));
    match missing {
        Some(idx) if catalog.edge_types.len() > 0 => {
            match EdgeTable::try_load(catalog.edge_types[0].clone(), readable, &pages) {
                Some(Ok(_)) => Some(Err(OpenError::Unreadable(idx))),
                Some(Err(e)) => Some(Err(OpenError::Storage(e))),
                None => None,
            }
        },
        _ => match EdgeStore::try_load(Arc::new(catalog.clone()), readable.as_slice(), &pages) {
            Some(Ok(s)) => Some(Ok(s)),
            Some(Err(e)) => Some(Err(OpenError::Storage(e))),
            None => None,
        },
    }
}

/// The pages of node groups.
fn ranges_of_nodes(infos: &[NodeGroupPageInfo]) -> (ranges: Vec<PageRange>)
    ensures
        ranges@ == node_ranges(infos@),
{
    let mut ranges: Vec<PageRange> = Vec::new();
    let mut i: usize = 0;
    while i < infos.len()
        invariant
            i <= infos@.len(),
            ranges@.len() == i,
            forall|j: int| 0 <= j < i ==> #[trigger] ranges@[j] == infos@[j].page_range,
        decreases infos@.len() - i,
    {
        ranges.push(infos[i].page_range);
        i = i + 1;
    }
    assert(ranges@ =~= node_ranges(infos@));
    ranges
}

/// The pages of edge groups.
fn ranges_of_edges(infos: &[CSREdgeGroupPageInfo]) -> (ranges: Vec<PageRange>)
    ensures
        ranges@ == edge_ranges(infos@),
{
    let mut ranges: Vec<PageRange> = Vec::new();
    let mut i: usize = 0;
    while i < infos.len()
        invariant
            i <= infos@.len(),
            ranges@.len() == i,
            forall|j: int| 0 <= j < i ==> #[trigger] ranges@[j] == infos@[j].page_range,
        decreases infos@.len() - i,
    {
        ranges.push(infos[i].page_range);
        i = i + 1;
    }
    assert(ranges@ =~= edge_ranges(infos@));
    ranges
}

} // verus!
