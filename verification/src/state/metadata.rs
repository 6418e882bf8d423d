//! The block that holds the catalog and where each group stands on disk.

use vstd::prelude::*;
use vstd::slice::slice_subrange;

use crate::catalog::{Catalog, CatalogView};
use crate::catalog;
use crate::error::StorageError;
use crate::io::binary;
use crate::io::binary::{holds_at, low_u32, u32_at, u32_le, u64_at, u64_le};
use crate::io::codec;
use crate::io::codec::{blob_start, concat, many, Reading};
use crate::io::page::{join_pages, pages_of, pages_view, split_into_pages, Page};
use crate::io::page;
use crate::state::edge_table::CSREdgeGroupPageInfo;
use crate::state::node_table::NodeGroupPageInfo;
use crate::types::{Direction, NodeGroupIdx, PageIdx, PageRange};

verus! {

broadcast use binary::group_lengths;

// ---------------------------------------------------------------------------------------------
// The model

/// The byte that stands for a direction.
pub open spec fn direction_byte(direction: Direction) -> u8 {
    match direction {
        Direction::Forward => 0,
        Direction::Backward => 1,
    }
}

/// The direction that a byte stands for.
pub open spec fn direction_of(b: u8) -> Direction {
    if b == 0 {
        Direction::Forward
    } else {
        Direction::Backward
    }
}

impl NodeGroupPageInfo {
    /// On disk: index, first page, number of pages.
    pub open spec fn encoding(self) -> Seq<u8> {
        u64_le(self.group_idx.0) + u64_le(self.page_range.start_page.0) + u32_le(
            self.page_range.num_pages,
        )
    }
}

impl CSREdgeGroupPageInfo {
    /// On disk: index, direction, first page, number of pages.
    pub open spec fn encoding(self) -> Seq<u8> {
        u64_le(self.group_idx.0) + seq![direction_byte(self.direction)] + u64_le(
            self.page_range.start_page.0,
        ) + u32_le(self.page_range.num_pages)
    }
}

pub open spec fn node_info_blobs(infos: Seq<NodeGroupPageInfo>) -> Seq<Seq<u8>> {
    Seq::new(infos.len(), |i: int| infos[i].encoding())
}

pub open spec fn edge_info_blobs(infos: Seq<CSREdgeGroupPageInfo>) -> Seq<Seq<u8>> {
    Seq::new(infos.len(), |i: int| infos[i].encoding())
}

/// The numbers of node and edge groups.
pub open spec fn metadata_head(nodes: nat, edges: nat) -> Seq<u8> {
    u32_le(low_u32(nodes as int)) + u32_le(low_u32(edges as int))
}

/// Where the groups stand, on disk: how many there are of each kind, node groups, edge groups.
pub open spec fn metadata_encoding(
    nodes: Seq<NodeGroupPageInfo>,
    edges: Seq<CSREdgeGroupPageInfo>,
) -> Seq<u8> {
    metadata_head(nodes.len(), edges.len()) + concat(node_info_blobs(nodes)) + concat(
        edge_info_blobs(edges),
    )
}

pub open spec fn read_node_info(buf: Seq<u8>, pos: int) -> Reading<NodeGroupPageInfo> {
    if pos + 20 <= buf.len() {
        Some(
            (
                NodeGroupPageInfo {
                    group_idx: NodeGroupIdx(u64_at(buf, pos)),
                    page_range: PageRange {
                        start_page: PageIdx(u64_at(buf, pos + 8)),
                        num_pages: u32_at(buf, pos + 16),
                    },
                },
                pos + 20,
            ),
        )
    } else {
        None
    }
}

pub open spec fn read_edge_info(buf: Seq<u8>, pos: int) -> Reading<CSREdgeGroupPageInfo> {
    if pos + 21 <= buf.len() {
        Some(
            (
                CSREdgeGroupPageInfo {
                    group_idx: NodeGroupIdx(u64_at(buf, pos)),
                    direction: direction_of(buf[pos + 8]),
                    page_range: PageRange {
                        start_page: PageIdx(u64_at(buf, pos + 9)),
                        num_pages: u32_at(buf, pos + 17),
                    },
                },
                pos + 21,
            ),
        )
    } else {
        None
    }
}

pub open spec fn node_info_reader(buf: Seq<u8>) -> spec_fn(int) -> Reading<NodeGroupPageInfo> {
    |pos: int| read_node_info(buf, pos)
}

pub open spec fn edge_info_reader(buf: Seq<u8>) -> spec_fn(int) -> Reading<CSREdgeGroupPageInfo> {
    |pos: int| read_edge_info(buf, pos)
}

/// Where the groups of both kinds stand.
pub type GroupPages = (Seq<NodeGroupPageInfo>, Seq<CSREdgeGroupPageInfo>);

/// What `buf` starts with; nothing where it is too short for the numbers of groups. `None` where it
/// ends within a group.
pub open spec fn parse_metadata(buf: Seq<u8>) -> Option<GroupPages> {
    if buf.len() < 8 {
        Some((Seq::empty(), Seq::empty()))
    } else {
        match many(u32_at(buf, 0) as nat, node_info_reader(buf), 8) {
            Some((nodes, p)) => match many(u32_at(buf, 4) as nat, edge_info_reader(buf), p) {
                Some((edges, _)) => Some((nodes, edges)),
                None => None,
            },
            None => None,
        }
    }
}

/// The catalog, and behind it where the groups stand.
pub open spec fn catalog_block(
    catalog: CatalogView,
    nodes: Seq<NodeGroupPageInfo>,
    edges: Seq<CSREdgeGroupPageInfo>,
) -> Seq<u8> {
    catalog.encoding() + metadata_encoding(nodes, edges)
}

/// What a catalog block holds. `None` where it ends too early.
pub open spec fn parse_catalog_block(buf: Seq<u8>) -> Option<(CatalogView, GroupPages)> {
    match codec::first_read(CatalogView::parse(buf)) {
        Some(catalog) => if catalog.encoding().len() <= buf.len() {
            match parse_metadata(buf.skip(catalog.encoding().len() as int)) {
                Some(pages) => Some((catalog, pages)),
                None => None,
            }
        } else {
            None
        },
        None => None,
    }
}

// ---------------------------------------------------------------------------------------------
// Writing

#[inline]
fn direction_to_byte(dir: Direction) -> (b: u8)
    ensures
        b == direction_byte(dir),
{
    match dir {
        Direction::Forward => 0,
        Direction::Backward => 1,
    }
}

#[inline]
fn byte_to_direction(b: u8) -> (dir: Direction)
    ensures
        dir == direction_of(b),
{
    if b == 0 {
        Direction::Forward
    } else {
        Direction::Backward
    }
}

fn append_node_info(buf: &mut Vec<u8>, info: &NodeGroupPageInfo)
    ensures
        final(buf)@ == old(buf)@ + info.encoding(),
{
    let mut entry: [u8; 20] = [0u8;20];
    let bytes: &mut [u8] = &mut entry;
    let ghost b0 = bytes@;
    let mut pos: usize = 0;
    binary::write_u64(bytes, &mut pos, info.group_idx.0);
    binary::write_u64(bytes, &mut pos, info.page_range.start_page.0);
    binary::write_u32(bytes, &mut pos, info.page_range.num_pages);
    proof {
        let e1 = u64_le(info.group_idx.0);
        let e2 = e1 + u64_le(info.page_range.start_page.0);
        binary::lemma_overwrite_append(b0, 0, e1, u64_le(info.page_range.start_page.0));
        binary::lemma_overwrite_append(b0, 0, e2, u32_le(info.page_range.num_pages));
        binary::lemma_overwrite_all(b0, info.encoding());
    }
    buf.extend_from_slice(bytes);
    assert(buf@ =~= old(buf)@ + info.encoding());
}

fn append_edge_info(buf: &mut Vec<u8>, info: &CSREdgeGroupPageInfo)
    ensures
        final(buf)@ == old(buf)@ + info.encoding(),
{
    let mut entry: [u8; 21] = [0u8;21];
    let bytes: &mut [u8] = &mut entry;
    let ghost b0 = bytes@;
    let mut pos: usize = 0;
    binary::write_u64(bytes, &mut pos, info.group_idx.0);
    binary::write_u8(bytes, &mut pos, direction_to_byte(info.direction));
    binary::write_u64(bytes, &mut pos, info.page_range.start_page.0);
    binary::write_u32(bytes, &mut pos, info.page_range.num_pages);
    proof {
        let e1 = u64_le(info.group_idx.0);
        let d = seq![direction_byte(info.direction)];
        let e2 = e1 + d;
        let e3 = e2 + u64_le(info.page_range.start_page.0);
        binary::lemma_overwrite_append(b0, 0, e1, d);
        binary::lemma_overwrite_append(b0, 0, e2, u64_le(info.page_range.start_page.0));
        binary::lemma_overwrite_append(b0, 0, e3, u32_le(info.page_range.num_pages));
        binary::lemma_overwrite_all(b0, info.encoding());
    }
    buf.extend_from_slice(bytes);
    assert(buf@ =~= old(buf)@ + info.encoding());
}

/// Appends where the groups stand.
pub fn write_table_metadata(
    buf: &mut Vec<u8>,
    node_pis: &[NodeGroupPageInfo],
    edge_pis: &[CSREdgeGroupPageInfo],
)
    ensures
        final(buf)@ == old(buf)@ + metadata_encoding(node_pis@, edge_pis@),
{
    let ghost head = metadata_head(node_pis@.len(), edge_pis@.len());
    let ghost nodes = node_info_blobs(node_pis@);
    let ghost edges = edge_info_blobs(edge_pis@);
    let mut header: [u8; 8] = [0u8;8];
    let bytes: &mut [u8] = &mut header;
    let ghost b0 = bytes@;
    let mut pos: usize = 0;
    binary::write_u32(bytes, &mut pos, binary::to_low_u32(node_pis.len()));
    binary::write_u32(bytes, &mut pos, binary::to_low_u32(edge_pis.len()));
    proof {
        binary::lemma_overwrite_append(
            b0,
            0,
            u32_le(low_u32(node_pis@.len() as int)),
            u32_le(low_u32(edge_pis@.len() as int)),
        );
        binary::lemma_overwrite_all(b0, head);
    }
    buf.extend_from_slice(bytes);
    let mut i: usize = 0;
    assert(nodes.take(0) =~= Seq::empty());
    assert(buf@ =~= old(buf)@ + (head + concat(nodes.take(0))));
    while i < node_pis.len()
        invariant
            i <= node_pis@.len(),
            nodes == node_info_blobs(node_pis@),
            buf@ == old(buf)@ + (head + concat(nodes.take(i as int))),
        decreases node_pis@.len() - i,
    {
        append_node_info(buf, &node_pis[i]);
        proof {
            codec::lemma_concat_take(nodes, i as int);
        }
        assert(buf@ =~= old(buf)@ + (head + concat(nodes.take(i + 1))));
        i = i + 1;
    }
    assert(nodes.take(nodes.len() as int) =~= nodes);
    i = 0;
    assert(edges.take(0) =~= Seq::empty());
    assert(buf@ =~= old(buf)@ + (head + concat(nodes) + concat(edges.take(0))));
    while i < edge_pis.len()
        invariant
            i <= edge_pis@.len(),
            edges == edge_info_blobs(edge_pis@),
            buf@ == old(buf)@ + (head + concat(nodes) + concat(edges.take(i as int))),
        decreases edge_pis@.len() - i,
    {
        append_edge_info(buf, &edge_pis[i]);
        proof {
            codec::lemma_concat_take(edges, i as int);
        }
        assert(buf@ =~= old(buf)@ + (head + concat(nodes) + concat(edges.take(i + 1))));
        i = i + 1;
    }
    assert(edges.take(edges.len() as int) =~= edges);
}

/// The pages of a catalog block; `None` where the catalog is too large to be written.
pub fn serialize_catalog_block(
    catalog: &Catalog,
    node_pis: &[NodeGroupPageInfo],
    edge_pis: &[CSREdgeGroupPageInfo],
) -> (r: Option<Result<Vec<Page>, StorageError>>)
    ensures
        match r {
            Some(Ok(pages)) => pages_view(pages@) == pages_of(
                catalog_block(catalog@, node_pis@, edge_pis@),
            ) && catalog@.encoding().len() <= usize::MAX,
            Some(Err(_)) => false,
            None => catalog@.encoding().len() > usize::MAX,
        },
{
    let cat_len: usize = match catalog.checked_len() {
        Some(n) => n,
        None => {
            return None;
        },
    };
    let mut buf: Vec<u8> = Vec::new();
    buf.resize(cat_len, 0u8);
    let ghost zeros = buf@;
    match catalog.serialize(buf.as_mut_slice()) {
        Ok(_) => {},
        Err(e) => {
            return Some(Err(e));
        },
    }
    proof {
        binary::lemma_overwrite_all(zeros, catalog@.encoding());
    }
    write_table_metadata(&mut buf, node_pis, edge_pis);
    Some(Ok(split_into_pages(buf.as_slice())))
}

// ---------------------------------------------------------------------------------------------
// Reading

fn try_read_node_info(buf: &[u8], pos: &mut usize) -> (r: Option<NodeGroupPageInfo>)
    requires
        *old(pos) <= buf@.len(),
    ensures
        match r {
            Some(info) => read_node_info(buf@, *old(pos) as int) == Some((info, *final(pos) as int))
                && *final(pos) <= buf@.len(),
            None => read_node_info(buf@, *old(pos) as int) is None,
        },
{
    if buf.len() - *pos < 20 {
        return None;
    }
    let group_idx = NodeGroupIdx(binary::read_u64(buf, pos));
    let start_page = PageIdx(binary::read_u64(buf, pos));
    let num_pages: u32 = binary::read_u32(buf, pos);
    Some(NodeGroupPageInfo { group_idx, page_range: PageRange { start_page, num_pages } })
}

fn try_read_edge_info(buf: &[u8], pos: &mut usize) -> (r: Option<CSREdgeGroupPageInfo>)
    requires
        *old(pos) <= buf@.len(),
    ensures
        match r {
            Some(info) => read_edge_info(buf@, *old(pos) as int) == Some((info, *final(pos) as int))
                && *final(pos) <= buf@.len(),
            None => read_edge_info(buf@, *old(pos) as int) is None,
        },
{
    if buf.len() - *pos < 21 {
        return None;
    }
    let group_idx = NodeGroupIdx(binary::read_u64(buf, pos));
    let direction = byte_to_direction(binary::read_u8(buf, pos));
    let start_page = PageIdx(binary::read_u64(buf, pos));
    let num_pages: u32 = binary::read_u32(buf, pos);
    Some(
        CSREdgeGroupPageInfo {
            group_idx,
            direction,
            page_range: PageRange { start_page, num_pages },
        },
    )
}

/// Where the groups stand, read from bytes that do not end within a group.
pub fn deserialize_table_metadata(buf: &[u8]) -> (r: Result<
    (Vec<NodeGroupPageInfo>, Vec<CSREdgeGroupPageInfo>),
    StorageError,
>)
    requires
        parse_metadata(buf@) is Some,
    ensures
        r matches Ok(infos) && parse_metadata(buf@) == Some((infos.0@, infos.1@)),
{
    Ok(try_deserialize_table_metadata(buf).unwrap())
}

/// Like [`deserialize_table_metadata`], for any bytes: `None` where they end within a group.
pub fn try_deserialize_table_metadata(buf: &[u8]) -> (r: Option<
    (Vec<NodeGroupPageInfo>, Vec<CSREdgeGroupPageInfo>),
>)
    ensures
        match r {
            Some(infos) => parse_metadata(buf@) == Some((infos.0@, infos.1@)),
            None => parse_metadata(buf@) is None,
        },
{
    let mut node_pis: Vec<NodeGroupPageInfo> = Vec::new();
    let mut edge_pis: Vec<CSREdgeGroupPageInfo> = Vec::new();
    if buf.len() < 8 {
        return Some((node_pis, edge_pis));
    }
    let mut pos: usize = 0;
    let num_node: u32 = binary::read_u32(buf, &mut pos);
    let num_edge: u32 = binary::read_u32(buf, &mut pos);
    let ghost f = node_info_reader(buf@);
    let mut i: u32 = 0;
    while i < num_node
        invariant
            i <= num_node,
            num_node == u32_at(buf@, 0),
            8 <= buf@.len(),
            f == node_info_reader(buf@),
            pos <= buf@.len(),
            many(i as nat, f, 8) == Some((node_pis@, pos as int)),
        decreases num_node - i,
    {
        assert(f(pos as int) == read_node_info(buf@, pos as int));
        match try_read_node_info(buf, &mut pos) {
            Some(info) => node_pis.push(info),
            None => {
                proof {
                    codec::lemma_many_stuck((i + 1) as nat, num_node as nat, f, 8);
                }
                return None;
            },
        }
        i = i + 1;
    }
    let ghost mid = pos as int;
    let ghost g = edge_info_reader(buf@);
    i = 0;
    while i < num_edge
        invariant
            i <= num_edge,
            num_edge == u32_at(buf@, 4),
            8 <= buf@.len(),
            f == node_info_reader(buf@),
            g == edge_info_reader(buf@),
            pos <= buf@.len(),
            many(u32_at(buf@, 0) as nat, f, 8) == Some((node_pis@, mid)),
            many(i as nat, g, mid) == Some((edge_pis@, pos as int)),
        decreases num_edge - i,
    {
        assert(g(pos as int) == read_edge_info(buf@, pos as int));
        match try_read_edge_info(buf, &mut pos) {
            Some(info) => edge_pis.push(info),
            None => {
                proof {
                    codec::lemma_many_stuck((i + 1) as nat, num_edge as nat, g, mid);
                }
                return None;
            },
        }
        i = i + 1;
    }
    Some((node_pis, edge_pis))
}

/// The catalog, and where the groups stand, from the pages of a catalog block. `None` where they
/// end too early.
pub fn read_catalog_block(pages: &[Page]) -> (r: Option<
    (Catalog, Vec<NodeGroupPageInfo>, Vec<CSREdgeGroupPageInfo>),
>)
    ensures
        match r {
            Some((catalog, nodes, edges)) => parse_catalog_block(concat(pages_view(pages@)))
                == Some((catalog@, (nodes@, edges@))),
            None => parse_catalog_block(concat(pages_view(pages@))) is None,
        },
{
    let buf = join_pages(pages);
    let catalog = match Catalog::try_deserialize(buf.as_slice()) {
        Some(catalog) => catalog,
        None => {
            return None;
        },
    };
    let total: usize = buf.len();
    let cat_len: usize = match catalog.checked_len() {
        Some(n) => n,
        None => {
            return None;
        },
    };
    if cat_len > total {
        return None;
    }
    let rest = slice_subrange(buf.as_slice(), cat_len, total);
    assert(rest@ =~= buf@.skip(cat_len as int));
    match try_deserialize_table_metadata(rest) {
        Some((nodes, edges)) => Some((catalog, nodes, edges)),
        None => None,
    }
}

// ---------------------------------------------------------------------------------------------
// Laws

/// A direction is given back by its byte.
pub proof fn law_direction_roundtrip(direction: Direction)
    ensures
        direction_of(direction_byte(direction)) == direction,
{
}

proof fn lemma_node_info(buf: Seq<u8>, pos: int, info: NodeGroupPageInfo)
    requires
        holds_at(buf, pos, info.encoding()),
    ensures
        read_node_info(buf, pos) == Some((info, pos + info.encoding().len())),
{
    let e1 = u64_le(info.group_idx.0);
    let e2 = e1 + u64_le(info.page_range.start_page.0);
    binary::lemma_holds_append(buf, pos, e2, u32_le(info.page_range.num_pages));
    binary::lemma_holds_append(buf, pos, e1, u64_le(info.page_range.start_page.0));
    binary::lemma_u64_at(buf, pos, info.group_idx.0);
    binary::lemma_u64_at(buf, pos + 8, info.page_range.start_page.0);
    binary::lemma_u32_at(buf, pos + 16, info.page_range.num_pages);
}

proof fn lemma_edge_info(buf: Seq<u8>, pos: int, info: CSREdgeGroupPageInfo)
    requires
        holds_at(buf, pos, info.encoding()),
    ensures
        read_edge_info(buf, pos) == Some((info, pos + info.encoding().len())),
{
    let e1 = u64_le(info.group_idx.0);
    let d = seq![direction_byte(info.direction)];
    let e2 = e1 + d;
    let e3 = e2 + u64_le(info.page_range.start_page.0);
    binary::lemma_holds_append(buf, pos, e3, u32_le(info.page_range.num_pages));
    binary::lemma_holds_append(buf, pos, e2, u64_le(info.page_range.start_page.0));
    binary::lemma_holds_append(buf, pos, e1, d);
    binary::lemma_u64_at(buf, pos, info.group_idx.0);
    binary::lemma_holds_subrange(buf, pos + 8, d);
    assert(buf.subrange(pos + 8, pos + 8 + d.len())[0] == d[0]);
    binary::lemma_u64_at(buf, pos + 9, info.page_range.start_page.0);
    binary::lemma_u32_at(buf, pos + 17, info.page_range.num_pages);
}

/// Where the groups stand is read back as it was written, whatever follows it.
pub proof fn law_metadata_roundtrip(
    nodes: Seq<NodeGroupPageInfo>,
    edges: Seq<CSREdgeGroupPageInfo>,
    buf: Seq<u8>,
)
    requires
        nodes.len() <= u32::MAX,
        edges.len() <= u32::MAX,
        holds_at(buf, 0, metadata_encoding(nodes, edges)),
    ensures
        parse_metadata(buf) == Some((nodes, edges)),
{
    let head = metadata_head(nodes.len(), edges.len());
    let nb = node_info_blobs(nodes);
    let eb = edge_info_blobs(edges);
    binary::lemma_holds_append(buf, 0, head + concat(nb), concat(eb));
    binary::lemma_holds_append(buf, 0, head, concat(nb));
    binary::lemma_holds_append(
        buf,
        0,
        u32_le(low_u32(nodes.len() as int)),
        u32_le(low_u32(edges.len() as int)),
    );
    binary::lemma_u32_at(buf, 0, low_u32(nodes.len() as int));
    binary::lemma_u32_at(buf, 4, low_u32(edges.len() as int));
    let f = node_info_reader(buf);
    assert forall|i: int| 0 <= i < nodes.len() implies #[trigger] f(8int + blob_start(nb, i)) == Some(
        (nodes[i], 8int + blob_start(nb, i) + nb[i].len()),
    ) by {
        codec::lemma_concat_holds(buf, 8, nb, i);
        lemma_node_info(buf, 8int + blob_start(nb, i), nodes[i]);
    }
    codec::lemma_many_all(nodes, nb, f, 8);
    let p = 8 + concat(nb).len() as int;
    let g = edge_info_reader(buf);
    assert forall|i: int| 0 <= i < edges.len() implies #[trigger] g(p + blob_start(eb, i)) == Some(
        (edges[i], p + blob_start(eb, i) + eb[i].len()),
    ) by {
        codec::lemma_concat_holds(buf, p, eb, i);
        lemma_edge_info(buf, p + blob_start(eb, i), edges[i]);
    }
    codec::lemma_many_all(edges, eb, g, p);
}

/// A catalog block that was put on pages is read back from them as it was.
pub proof fn law_catalog_block_roundtrip(
    catalog: CatalogView,
    nodes: Seq<NodeGroupPageInfo>,
    edges: Seq<CSREdgeGroupPageInfo>,
)
    requires
        catalog.fits(),
        nodes.len() <= u32::MAX,
        edges.len() <= u32::MAX,
    ensures
        parse_catalog_block(concat(pages_of(catalog_block(catalog, nodes, edges)))) == Some(
            (catalog, (nodes, edges)),
        ),
{
    let block = catalog_block(catalog, nodes, edges);
    let buf = concat(pages_of(block));
    let n = catalog.encoding().len() as int;
    page::lemma_pages_hold(block);
    binary::lemma_holds_append(buf, 0, catalog.encoding(), metadata_encoding(nodes, edges));
    catalog::law_catalog_roundtrip(catalog, buf);
    binary::lemma_holds_part(buf, n, buf.len() as int, metadata_encoding(nodes, edges));
    assert(buf.subrange(n, buf.len() as int) =~= buf.skip(n));
    law_metadata_roundtrip(nodes, edges, buf.skip(n));
}

} // verus!
