//! Where the parts of columns, chunks, groups and notes stand on disk, byte by byte.

use vstd::prelude::*;
use vstd::utf8::encode_utf8;

use crate::catalog::{property_blobs, EdgeTypeView, NodeLabelView, PropertyDefView};
use crate::io::binary;
use crate::io::binary::{bitmask, ints_le, little_endian, u16_le, u32_le, u64_le, words_le};
use crate::io::codec;
use crate::io::codec::{blob_start, concat};
use crate::search;
use crate::search::count_false;
use crate::state::edge_table::CSREdgeGroupPageInfo;
use crate::state::metadata::{edge_info_blobs, metadata_encoding, node_info_blobs};
use crate::state::node_table::NodeGroupPageInfo;
use crate::table::chunked_node_group::{id_words, ChunkView};
use crate::table::column::{offsets_of, stored_type, ColumnView};
use crate::table::edge::{edge_words, EdgeGroupView};
use crate::table::edge_list::ListView;
use crate::table::node;
use crate::table::node::GroupView;
use crate::table::row::column_lens;
use crate::types::{DataType, Direction, PropertyView};

verus! {

broadcast use binary::group_lengths;

/// The number that stands in `n` bytes from `pos` on, the least significant first.
pub open spec fn number_at(bytes: Seq<u8>, pos: int, n: int) -> int {
    little_endian(bytes.subrange(pos, pos + n))
}

/// Numbers of eight bytes stand one after the other.
pub proof fn law_words(words: Seq<u64>, i: int)
    requires
        0 <= i < words.len(),
    ensures
        words_le(words).len() == 8 * words.len(),
        number_at(words_le(words), 8 * i, 8) == words[i],
{
    reveal(words_le);
    binary::law_little_endian(0, 0, words[i]);
    assert(words_le(words).subrange(8 * i, 8 * i + 8) =~= u64_le(words[i]));
}

/// Numbers of four bytes stand one after the other.
pub proof fn law_ints(ints: Seq<u32>, i: int)
    requires
        0 <= i < ints.len(),
    ensures
        ints_le(ints).len() == 4 * ints.len(),
        number_at(ints_le(ints), 4 * i, 4) == ints[i],
{
    reveal(ints_le);
    binary::law_little_endian(0, ints[i], 0);
    assert(ints_le(ints).subrange(4 * i, 4 * i + 4) =~= u32_le(ints[i]));
}

/// A word of an array that stands somewhere.
proof fn lemma_word_in(bytes: Seq<u8>, pos: int, words: Seq<u64>, i: int)
    requires
        0 <= i < words.len(),
        0 <= pos,
        pos + 8 * words.len() <= bytes.len(),
        bytes.subrange(pos, pos + 8 * words.len()) == words_le(words),
    ensures
        number_at(bytes, pos + 8 * i, 8) == words[i],
{
    law_words(words, i);
    assert(bytes.subrange(pos + 8 * i, pos + 8 * i + 8) =~= words_le(words).subrange(
        8 * i,
        8 * i + 8,
    ));
}

/// A number of an array that stands somewhere.
proof fn lemma_int_in(bytes: Seq<u8>, pos: int, ints: Seq<u32>, i: int)
    requires
        0 <= i < ints.len(),
        0 <= pos,
        pos + 4 * ints.len() <= bytes.len(),
        bytes.subrange(pos, pos + 4 * ints.len()) == ints_le(ints),
    ensures
        number_at(bytes, pos + 4 * i, 4) == ints[i],
{
    law_ints(ints, i);
    assert(bytes.subrange(pos + 4 * i, pos + 4 * i + 4) =~= ints_le(ints).subrange(
        4 * i,
        4 * i + 4,
    ));
}

// ---------------------------------------------------------------------------------------------
// Columns

/// A null is held as false, zero, or nothing.
pub proof fn law_null_cell(c: ColumnView)
    ensures
        c.append(None).cells.last() == match c.data_type {
            DataType::Bool => PropertyView::Bool(false),
            DataType::Int64 => PropertyView::Int64(0),
            DataType::Float64 => PropertyView::Float64(0),
            DataType::String => PropertyView::String(Seq::empty()),
            _ => PropertyView::Bytes(Seq::empty()),
        },
{
}

/// A column on disk: the number of its rows, a bit for each that is set where it is null, and the
/// cells, a byte for a truth value and eight for a number.
pub proof fn law_column_bytes(c: ColumnView, i: int)
    requires
        c.valid(),
        0 <= i < c.len(),
    ensures
        ({
            let e = c.encoding();
            let cells: int = 4int + (c.len() + 7) / 8;
            &&& number_at(e, 0, 4) == c.len()
            &&& e.subrange(4, cells) == bitmask(c.nulls)
            &&& c.cells[i] matches PropertyView::Bool(b) ==> e.len() == cells + c.len() && e[cells
                + i] == if b {
                1u8
            } else {
                0
            }
            &&& c.cells[i] matches PropertyView::Int64(v) ==> e.len() == cells + 8 * c.len()
                && number_at(e, cells + 8 * i, 8) == if v < 0 {
                v + 0x1_0000_0000_0000_0000
            } else {
                v as int
            }
            &&& c.cells[i] matches PropertyView::Float64(x) ==> e.len() == cells + 8 * c.len()
                && number_at(e, cells + 8 * i, 8) == x
        }),
{
    reveal(ColumnView::encoding);
    let e = c.encoding();
    let cells: int = 4int + (c.len() + 7) / 8;
    binary::law_little_endian(0, c.len() as u32, 0);
    assert(e.subrange(0, 4) =~= u32_le(c.len() as u32));
    assert(e.subrange(4, cells) =~= bitmask(c.nulls));
    assert(e.subrange(cells, e.len() as int) =~= c.payload());
    assert(c.cells[i].data_type() == stored_type(c.data_type));
    match c.cells[i] {
        PropertyView::Bool(_) => {
            assert(e[cells + i] == c.payload()[i]);
        },
        PropertyView::Int64(_) | PropertyView::Float64(_) => {
            assert(c.words().len() == c.len());
            assert(e.subrange(cells, cells + 8 * c.words().len()) == words_le(c.words()));
            lemma_word_in(e, cells, c.words(), i);
        },
        _ => {},
    }
}

/// The texts and byte strings of a column on disk: where each starts and where the last ends, counted
/// from the first, and then their bytes one after the other.
pub proof fn law_text_column_bytes(c: ColumnView, i: int)
    requires
        c.valid(),
        c.fits(),
        0 <= i < c.len(),
        c.cells[i] is String || c.cells[i] is Bytes,
    ensures
        ({
            let e = c.encoding();
            let cells: int = 4int + (c.len() + 7) / 8;
            let data: int = cells + 4 * (c.len() + 1);
            let start = number_at(e, cells + 4 * i, 4);
            let end = number_at(e, cells + 4 * i + 4, 4);
            &&& number_at(e, cells, 4) == 0
            &&& data + end <= e.len()
            &&& e.subrange(data + start, data + end) == match c.cells[i] {
                PropertyView::String(s) => encode_utf8(s),
                PropertyView::Bytes(b) => b,
                _ => Seq::empty(),
            }
        }),
{
    let e = c.encoding();
    let cells: int = 4int + (c.len() + 7) / 8;
    let data: int = cells + 4 * (c.len() + 1);
    let blobs = c.blobs();
    let offsets = offsets_of(blobs);
    let all = concat(blobs);
    lemma_text_parts(c, i);
    lemma_blob_at(blobs, i);
    lemma_blob_at(blobs, 0);
    lemma_int_in(e, cells, offsets, 0);
    lemma_int_in(e, cells, offsets, i);
    lemma_int_in(e, cells, offsets, i + 1);
    assert(blobs.take(0) =~= Seq::empty());
    let start = offsets[i] as int;
    let end = offsets[i + 1] as int;
    assert(e.subrange(data + start, data + end) =~= all.subrange(start, end));
}

/// Where the parts of a column of texts or byte strings stand.
proof fn lemma_text_parts(c: ColumnView, i: int)
    requires
        c.valid(),
        0 <= i < c.len(),
        c.cells[i] is String || c.cells[i] is Bytes,
    ensures
        ({
            let e = c.encoding();
            let cells: int = 4int + (c.len() + 7) / 8;
            let data: int = cells + 4 * (c.len() + 1);
            let offsets = offsets_of(c.blobs());
            &&& offsets.len() == c.len() + 1
            &&& e.subrange(cells, data) == ints_le(offsets)
            &&& e.len() == data + concat(c.blobs()).len()
            &&& e.subrange(data, e.len() as int) == concat(c.blobs())
        }),
{
    reveal(ColumnView::encoding);
    let e = c.encoding();
    let cells: int = 4int + (c.len() + 7) / 8;
    let data: int = cells + 4 * (c.len() + 1);
    let offsets = offsets_of(c.blobs());
    assert(c.cells[i].data_type() == stored_type(c.data_type));
    assert(c.payload() == ints_le(offsets) + concat(c.blobs()));
    let head = u32_le(c.len() as u32) + bitmask(c.nulls);
    assert(head.len() == cells);
    assert(e == head + c.payload());
    assert(e.subrange(cells, data) =~= ints_le(offsets));
    assert(e.subrange(data, e.len() as int) =~= concat(c.blobs()));
}

/// A blob stands between two of the offsets.
proof fn lemma_blob_at(blobs: Seq<Seq<u8>>, i: int)
    requires
        0 <= i < blobs.len(),
        concat(blobs).len() <= u32::MAX,
    ensures
        offsets_of(blobs)[i] == blob_start(blobs, i),
        offsets_of(blobs)[i + 1] == blob_start(blobs, i) + blobs[i].len(),
        blob_start(blobs, i) + blobs[i].len() <= concat(blobs).len(),
        concat(blobs).subrange(
            blob_start(blobs, i) as int,
            (blob_start(blobs, i) + blobs[i].len()) as int,
        ) == blobs[i],
{
    codec::lemma_concat_self(blobs);
    codec::lemma_concat_holds(concat(blobs), 0, blobs, i);
    codec::lemma_concat_take(blobs, i);
    binary::lemma_holds_subrange(concat(blobs), blob_start(blobs, i) as int, blobs[i]);
}

// ---------------------------------------------------------------------------------------------
// Chunks and groups of nodes

/// A chunk on disk starts with its first row, the numbers of its rows and columns, and the lengths of
/// the columns; then come the ids of the nodes, and a bit for each row that is set where it is deleted.
pub proof fn law_chunk_bytes(c: ChunkView, i: int)
    requires
        c.valid(),
        c.fits(),
        0 <= i < c.len(),
    ensures
        ({
            let e = c.encoding();
            let ids: int = 20int + 4 * c.columns.len();
            let mask: int = ids + 8 * c.len();
            &&& number_at(e, 0, 8) == c.start_row
            &&& number_at(e, 8, 8) == c.len()
            &&& number_at(e, 16, 4) == c.columns.len()
            &&& forall|k: int|
                0 <= k < c.columns.len() ==> #[trigger] number_at(e, 20 + 4 * k, 4)
                    == c.columns[k].encoding().len()
            &&& number_at(e, ids + 8 * i, 8) == c.node_ids[i].0
            &&& e.subrange(mask, mask + (c.len() + 7) / 8) == bitmask(c.deleted)
        }),
{
    reveal(ChunkView::encoding);
    let e = c.encoding();
    let lens = column_lens(c.columns);
    let ids: int = 20int + 4 * c.columns.len();
    let mask: int = ids + 8 * c.len();
    binary::law_little_endian(0, c.columns.len() as u32, c.start_row);
    binary::law_little_endian(0, 0, c.len() as u64);
    assert(e.subrange(0, 8) =~= u64_le(c.start_row));
    assert(e.subrange(8, 16) =~= u64_le(c.len() as u64));
    assert(e.subrange(16, 20) =~= u32_le(c.columns.len() as u32));
    assert(e.subrange(20, 20int + 4 * lens.len()) =~= ints_le(lens));
    assert(e.subrange(ids, ids + 8 * id_words(c.node_ids).len()) =~= words_le(
        id_words(c.node_ids),
    ));
    assert(e.subrange(mask, mask + (c.len() + 7) / 8) =~= bitmask(c.deleted));
    assert forall|k: int| 0 <= k < c.columns.len() implies #[trigger] number_at(e, 20 + 4 * k, 4)
        == c.columns[k].encoding().len() by {
        lemma_int_in(e, 20, lens, k);
        assert(c.columns[k].encoding().len() <= u32::MAX);
    }
    lemma_word_in(e, ids, id_words(c.node_ids), i);
}

/// A group of nodes on disk starts with its index, the numbers of its rows, live rows and chunks.
pub proof fn law_group_bytes(g: GroupView)
    requires
        g.regular(),
    ensures
        ({
            let e = g.encoding();
            &&& number_at(e, 0, 8) == g.group_idx.0
            &&& number_at(e, 8, 8) == g.num_rows()
            &&& number_at(e, 16, 4) == g.num_live_rows()
            &&& number_at(e, 20, 4) == g.chunks.len()
        }),
{
    reveal(GroupView::head);
    let e = g.encoding();
    node::law_dense_bounds(g);
    binary::law_little_endian(0, g.num_live_rows() as u32, g.group_idx.0);
    binary::law_little_endian(0, g.chunks.len() as u32, g.num_rows() as u64);
    assert(e.subrange(0, 8) =~= u64_le(g.group_idx.0));
    assert(e.subrange(8, 16) =~= u64_le(g.num_rows() as u64));
    assert(e.subrange(16, 20) =~= u32_le(g.num_live_rows() as u32));
    assert(e.subrange(20, 24) =~= u32_le(g.chunks.len() as u32));
}

// ---------------------------------------------------------------------------------------------
// Groups of edges

/// A group of edges on disk starts with its index, its first offset, and the numbers of its rows, live
/// rows, columns and lists; then come the lengths of the columns, the ids of the edges, of their sources
/// and of their destinations, and a bit for each row that is set where it is deleted.
pub proof fn law_edge_group_bytes(g: EdgeGroupView, i: int)
    requires
        g.regular(),
        g.columns.len() <= u32::MAX,
        g.index.len() <= u32::MAX,
        0 <= i < g.len(),
    ensures
        ({
            let e = g.encoding();
            let ids: int = 36int + 4 * g.columns.len();
            let mask: int = ids + 24 * g.len();
            &&& number_at(e, 0, 8) == g.group_idx.0
            &&& number_at(e, 8, 8) == g.offset_base
            &&& number_at(e, 16, 8) == g.len()
            &&& number_at(e, 24, 4) == count_false(g.deleted)
            &&& number_at(e, 28, 4) == g.columns.len()
            &&& number_at(e, 32, 4) == g.index.len()
            &&& number_at(e, ids + 8 * i, 8) == g.edge_ids[i].0
            &&& number_at(e, ids + 8 * g.len() + 8 * i, 8) == g.from_ids[i].0
            &&& number_at(e, ids + 16 * g.len() + 8 * i, 8) == g.to_ids[i].0
            &&& e.subrange(mask, mask + (g.len() + 7) / 8) == bitmask(g.deleted)
        }),
{
    let e = g.encoding();
    let ids: int = 36int + 4 * g.columns.len();
    let mask: int = ids + 24 * g.len();
    lemma_edge_counts(g);
    lemma_edge_arrays(g);
    let head = g.head();
    let w = edge_words(g.edge_ids);
    let f = id_words(g.from_ids);
    let t = id_words(g.to_ids);
    let sources: int = ids + 8 * g.len();
    let destinations: int = ids + 16 * g.len();
    assert forall|a: int, b: int| 0 <= a <= b <= head.len() implies #[trigger] e.subrange(a, b)
        == head.subrange(a, b) by {
        assert(e.subrange(a, b) =~= head.subrange(a, b));
    }
    assert forall|a: int, b: int| 0 <= a <= b <= 36 implies #[trigger] e.subrange(a, b)
        == g.counts().subrange(a, b) by {
        assert(e.subrange(a, b) == head.subrange(a, b));
        assert(head.subrange(a, b) =~= g.counts().subrange(a, b));
    }
    lemma_word_in(e, ids, w, i);
    lemma_word_in(e, sources, f, i);
    lemma_word_in(e, destinations, t, i);
}

proof fn lemma_edge_counts(g: EdgeGroupView)
    requires
        g.regular(),
        g.columns.len() <= u32::MAX,
        g.index.len() <= u32::MAX,
    ensures
        g.counts().len() == 36,
        number_at(g.counts(), 0, 8) == g.group_idx.0,
        number_at(g.counts(), 8, 8) == g.offset_base,
        number_at(g.counts(), 16, 8) == g.len(),
        number_at(g.counts(), 24, 4) == count_false(g.deleted),
        number_at(g.counts(), 28, 4) == g.columns.len(),
        number_at(g.counts(), 32, 4) == g.index.len(),
{
    let counts = g.counts();
    let live = count_false(g.deleted);
    search::lemma_count_false_bound(g.deleted);
    binary::law_little_endian(0, live as u32, g.group_idx.0);
    binary::law_little_endian(0, g.columns.len() as u32, g.offset_base);
    binary::law_little_endian(0, g.index.len() as u32, g.len() as u64);
    assert(counts.subrange(0, 8) =~= u64_le(g.group_idx.0));
    assert(counts.subrange(8, 16) =~= u64_le(g.offset_base));
    assert(counts.subrange(16, 24) =~= u64_le(g.len() as u64));
    assert(counts.subrange(24, 28) =~= u32_le(live as u32));
    assert(counts.subrange(28, 32) =~= u32_le(g.columns.len() as u32));
    assert(counts.subrange(32, 36) =~= u32_le(g.index.len() as u32));
}

proof fn lemma_edge_arrays(g: EdgeGroupView)
    requires
        g.regular(),
        g.counts().len() == 36,
    ensures
        ({
            let head = g.head();
            let ids: int = 36int + 4 * g.columns.len();
            let n = g.len();
            let mask: int = ids + 24 * n;
            &&& head.len() == mask + (n + 7) / 8
            &&& head.subrange(0, 36) == g.counts()
            &&& head.subrange(ids, ids + 8 * n) == words_le(edge_words(g.edge_ids))
            &&& head.subrange(ids + 8 * n, ids + 16 * n) == words_le(id_words(g.from_ids))
            &&& head.subrange(ids + 16 * n, mask) == words_le(id_words(g.to_ids))
            &&& head.subrange(mask, mask + (n + 7) / 8) == bitmask(g.deleted)
        }),
{
    reveal(EdgeGroupView::head);
    let head = g.head();
    let a = g.counts() + ints_le(column_lens(g.columns));
    let b = a + words_le(edge_words(g.edge_ids));
    let c = b + words_le(id_words(g.from_ids));
    let d = c + words_le(id_words(g.to_ids));
    let ids: int = 36int + 4 * g.columns.len();
    let n = g.len();
    let mask: int = ids + 24 * n;
    assert(a.len() == ids && b.len() == ids + 8 * n && c.len() == ids + 16 * n && d.len() == mask);
    assert(head == d + bitmask(g.deleted));
    assert(head.subrange(mask, mask + (n + 7) / 8) =~= bitmask(g.deleted));
    assert(head.subrange(ids + 16 * n, mask) =~= words_le(id_words(g.to_ids)));
    assert(head.subrange(ids + 8 * n, ids + 16 * n) =~= words_le(id_words(g.from_ids)));
    assert(head.subrange(ids, ids + 8 * n) =~= words_le(edge_words(g.edge_ids)));
    assert(head.subrange(0, 36) =~= g.counts());
}

/// A list of rows on disk: a run is a zero, its first row and its length; other rows are a one, how many
/// there are, and each of them.
pub proof fn law_list_bytes(list: ListView, i: int)
    requires
        list.rows().len() <= u32::MAX,
    ensures
        ({
            let e = list.encoding();
            match list {
                ListView::Sequential { start, len } => {
                    &&& e.len() == 13
                    &&& e[0] == 0
                    &&& number_at(e, 1, 8) == start
                    &&& number_at(e, 9, 4) == len
                },
                ListView::Sparse(rows) => {
                    &&& e.len() == 5 + 8 * rows.len()
                    &&& e[0] == 1
                    &&& number_at(e, 1, 4) == rows.len()
                    &&& 0 <= i < rows.len() ==> number_at(e, 5 + 8 * i, 8) == rows[i]
                },
            }
        }),
{
    let e = list.encoding();
    match list {
        ListView::Sequential { start, len } => {
            binary::law_little_endian(0, len, start);
            assert(e.subrange(1, 9) =~= u64_le(start));
            assert(e.subrange(9, 13) =~= u32_le(len));
        },
        ListView::Sparse(rows) => {
            binary::law_little_endian(0, rows.len() as u32, 0);
            assert(e.subrange(1, 5) =~= u32_le(rows.len() as u32));
            assert(e.subrange(5, 5int + 8 * rows.len()) =~= words_le(rows));
            if 0 <= i < rows.len() {
                lemma_word_in(e, 5, rows, i);
            }
        },
    }
}

// ---------------------------------------------------------------------------------------------
// Notes

/// The note of a group of nodes: its index, its first page and the number of its pages.
pub proof fn law_node_info_bytes(info: NodeGroupPageInfo)
    ensures
        info.encoding().len() == 20,
        number_at(info.encoding(), 0, 8) == info.group_idx.0,
        number_at(info.encoding(), 8, 8) == info.page_range.start_page.0,
        number_at(info.encoding(), 16, 4) == info.page_range.num_pages,
{
    let e = info.encoding();
    binary::law_little_endian(0, info.page_range.num_pages, info.group_idx.0);
    binary::law_little_endian(0, 0, info.page_range.start_page.0);
    assert(e.subrange(0, 8) =~= u64_le(info.group_idx.0));
    assert(e.subrange(8, 16) =~= u64_le(info.page_range.start_page.0));
    assert(e.subrange(16, 20) =~= u32_le(info.page_range.num_pages));
}

/// The note of a group of edges: its index, a one if the edges are those that reach its nodes, its first
/// page and the number of its pages.
pub proof fn law_edge_info_bytes(info: CSREdgeGroupPageInfo)
    ensures
        info.encoding().len() == 21,
        number_at(info.encoding(), 0, 8) == info.group_idx.0,
        info.encoding()[8] == if info.direction == Direction::Backward {
            1u8
        } else {
            0
        },
        number_at(info.encoding(), 9, 8) == info.page_range.start_page.0,
        number_at(info.encoding(), 17, 4) == info.page_range.num_pages,
{
    let e = info.encoding();
    binary::law_little_endian(0, info.page_range.num_pages, info.group_idx.0);
    binary::law_little_endian(0, 0, info.page_range.start_page.0);
    assert(e.subrange(0, 8) =~= u64_le(info.group_idx.0));
    assert(e.subrange(9, 17) =~= u64_le(info.page_range.start_page.0));
    assert(e.subrange(17, 21) =~= u32_le(info.page_range.num_pages));
}

proof fn lemma_uniform(blobs: Seq<Seq<u8>>, size: nat, i: int)
    requires
        forall|k: int| 0 <= k < blobs.len() ==> (#[trigger] blobs[k]).len() == size,
        0 <= i < blobs.len(),
    ensures
        concat(blobs).len() == blobs.len() * size,
        0 <= size * i,
        size * i + size <= concat(blobs).len(),
        concat(blobs).subrange(size * i, size * i + size) == blobs[i],
{
    codec::lemma_concat_uniform(blobs, size);
    codec::lemma_concat_uniform(blobs.take(i), size);
    codec::lemma_concat_self(blobs);
    codec::lemma_concat_holds(concat(blobs), 0, blobs, i);
    assert(blob_start(blobs, i) == size * i) by (nonlinear_arith)
        requires
            blob_start(blobs, i) == i * size,
    ;
    binary::lemma_holds_subrange(concat(blobs), size * i, blobs[i]);
    assert(0 <= size * i && size * i + size <= blobs.len() * size) by (nonlinear_arith)
        requires
            0 <= i < blobs.len(),
    ;
}

/// The notes on disk: how many there are of each kind, then those of the groups of nodes, twenty bytes
/// each, and those of the groups of edges, twenty-one bytes each.
pub proof fn law_metadata_bytes(
    nodes: Seq<NodeGroupPageInfo>,
    edges: Seq<CSREdgeGroupPageInfo>,
    i: int,
)
    requires
        nodes.len() <= u32::MAX,
        edges.len() <= u32::MAX,
    ensures
        ({
            let e = metadata_encoding(nodes, edges);
            let behind: int = 8int + 20 * nodes.len();
            &&& e.len() == behind + 21 * edges.len()
            &&& number_at(e, 0, 4) == nodes.len()
            &&& number_at(e, 4, 4) == edges.len()
            &&& 0 <= i < nodes.len() ==> e.subrange(8 + 20 * i, 28 + 20 * i) == nodes[i].encoding()
            &&& 0 <= i < edges.len() ==> e.subrange(behind + 21 * i, behind + 21 * i + 21)
                == edges[i].encoding()
        }),
{
    let e = metadata_encoding(nodes, edges);
    let behind: int = 8int + 20 * nodes.len();
    let a = node_info_blobs(nodes);
    let b = edge_info_blobs(edges);
    assert forall|k: int| 0 <= k < a.len() implies (#[trigger] a[k]).len() == 20 by {
        law_node_info_bytes(nodes[k]);
    }
    assert forall|k: int| 0 <= k < b.len() implies (#[trigger] b[k]).len() == 21 by {
        law_edge_info_bytes(edges[k]);
    }
    codec::lemma_concat_uniform(a, 20);
    codec::lemma_concat_uniform(b, 21);
    binary::law_little_endian(0, nodes.len() as u32, 0);
    binary::law_little_endian(0, edges.len() as u32, 0);
    assert(e.subrange(0, 4) =~= u32_le(nodes.len() as u32));
    assert(e.subrange(4, 8) =~= u32_le(edges.len() as u32));
    if 0 <= i < nodes.len() {
        lemma_uniform(a, 20, i);
        assert(e.subrange(8 + 20 * i, 28 + 20 * i) =~= concat(a).subrange(20 * i, 20 * i + 20));
    }
    if 0 <= i < edges.len() {
        lemma_uniform(b, 21, i);
        assert(e.subrange(behind + 21 * i, behind + 21 * i + 21) =~= concat(b).subrange(
            21 * i,
            21 * i + 21,
        ));
    }
}

// ---------------------------------------------------------------------------------------------
// The catalog

/// A property on disk: the length of its name and the name, its column, the tag of its type, the
/// dimension of a vector, and a one if it may be null.
pub proof fn law_property_bytes(p: PropertyDefView)
    requires
        encode_utf8(p.name).len() <= u16::MAX,
    ensures
        ({
            let e = p.encoding();
            let n = encode_utf8(p.name).len() as int;
            &&& number_at(e, 0, 2) == n
            &&& e.subrange(2, 2 + n) == encode_utf8(p.name)
            &&& number_at(e, 2 + n, 4) == p.column_id.0
            &&& e[6 + n] == p.data_type.tag()
            &&& p.data_type matches DataType::Vector { dim } ==> number_at(e, 7 + n, 4) == dim
            &&& e.len() == if p.data_type is Vector {
                12 + n
            } else {
                8 + n
            }
            &&& e.last() == if p.nullable {
                1u8
            } else {
                0
            }
        }),
{
    let e = p.encoding();
    let n = encode_utf8(p.name).len() as int;
    binary::law_little_endian(n as u16, p.column_id.0, 0);
    assert(e.subrange(0, 2) =~= u16_le(n as u16));
    assert(e.subrange(2, 2 + n) =~= encode_utf8(p.name));
    assert(e.subrange(2 + n, 6 + n) =~= u32_le(p.column_id.0));
    match p.data_type {
        DataType::Vector { dim } => {
            binary::law_little_endian(0, dim, 0);
            assert(e.subrange(7 + n, 11 + n) =~= u32_le(dim));
        },
        _ => {},
    }
}

/// A label on disk: its table, its id, the length of its name and the name, the column of its key, and
/// the number of its properties, which follow.
pub proof fn law_label_bytes(l: NodeLabelView)
    requires
        encode_utf8(l.name).len() <= u16::MAX,
        l.properties.len() <= u32::MAX,
    ensures
        ({
            let e = l.encoding();
            let n = encode_utf8(l.name).len() as int;
            &&& number_at(e, 0, 4) == l.table_id.0
            &&& number_at(e, 4, 4) == l.label_id.0
            &&& number_at(e, 8, 2) == n
            &&& e.subrange(10, 10 + n) == encode_utf8(l.name)
            &&& number_at(e, 10 + n, 4) == l.pk_column_id.0
            &&& number_at(e, 14 + n, 4) == l.properties.len()
            &&& e.skip(18 + n) == concat(property_blobs(l.properties))
        }),
{
    let e = l.encoding();
    let n = encode_utf8(l.name).len() as int;
    binary::law_little_endian(n as u16, l.table_id.0, 0);
    binary::law_little_endian(0, l.label_id.0, 0);
    binary::law_little_endian(0, l.pk_column_id.0, 0);
    binary::law_little_endian(0, l.properties.len() as u32, 0);
    assert(e.subrange(0, 4) =~= u32_le(l.table_id.0));
    assert(e.subrange(4, 8) =~= u32_le(l.label_id.0));
    assert(e.subrange(8, 10) =~= u16_le(n as u16));
    assert(e.subrange(10, 10 + n) =~= encode_utf8(l.name));
    assert(e.subrange(10 + n, 14 + n) =~= u32_le(l.pk_column_id.0));
    assert(e.subrange(14 + n, 18 + n) =~= u32_le(l.properties.len() as u32));
    assert(e.skip(18 + n) =~= concat(property_blobs(l.properties)));
}

/// A type on disk: its table, its id, the length of its name and the name, the labels of its sources and
/// destinations, and the number of its properties, which follow.
pub proof fn law_type_bytes(t: EdgeTypeView)
    requires
        encode_utf8(t.name).len() <= u16::MAX,
        t.properties.len() <= u32::MAX,
    ensures
        ({
            let e = t.encoding();
            let n = encode_utf8(t.name).len() as int;
            &&& number_at(e, 0, 4) == t.table_id.0
            &&& number_at(e, 4, 4) == t.label_id.0
            &&& number_at(e, 8, 2) == n
            &&& e.subrange(10, 10 + n) == encode_utf8(t.name)
            &&& number_at(e, 10 + n, 4) == t.from_label_id.0
            &&& number_at(e, 14 + n, 4) == t.to_label_id.0
            &&& number_at(e, 18 + n, 4) == t.properties.len()
            &&& e.skip(22 + n) == concat(property_blobs(t.properties))
        }),
{
    let e = t.encoding();
    let n = encode_utf8(t.name).len() as int;
    binary::law_little_endian(n as u16, t.table_id.0, 0);
    binary::law_little_endian(0, t.label_id.0, 0);
    binary::law_little_endian(0, t.from_label_id.0, 0);
    binary::law_little_endian(0, t.to_label_id.0, 0);
    binary::law_little_endian(0, t.properties.len() as u32, 0);
    assert(e.subrange(0, 4) =~= u32_le(t.table_id.0));
    assert(e.subrange(4, 8) =~= u32_le(t.label_id.0));
    assert(e.subrange(8, 10) =~= u16_le(n as u16));
    assert(e.subrange(10, 10 + n) =~= encode_utf8(t.name));
    assert(e.subrange(10 + n, 14 + n) =~= u32_le(t.from_label_id.0));
    assert(e.subrange(14 + n, 18 + n) =~= u32_le(t.to_label_id.0));
    assert(e.subrange(18 + n, 22 + n) =~= u32_le(t.properties.len() as u32));
    assert(e.skip(22 + n) =~= concat(property_blobs(t.properties)));
}

} // verus!
