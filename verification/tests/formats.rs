use cheguers_core::catalog::{Catalog, EdgeTypeEntry, NodeLabelEntry, PropertyDef};
use cheguers_core::config::{
    get_node_group_idx, get_start_offset_of_node_group, StorageConfig, MAGIC_BYTES,
};
use cheguers_core::error::StorageError;
use cheguers_core::io::binary;
use cheguers_core::io::header::DatabaseHeader;
use cheguers_core::io::page::{join_pages, read_page_range, read_page_ranges, split_into_pages};
use cheguers_core::state::edge_table::CSREdgeGroupPageInfo;
use cheguers_core::state::metadata::{
    deserialize_table_metadata, read_catalog_block, serialize_catalog_block,
    try_deserialize_table_metadata, write_table_metadata,
};
use cheguers_core::state::node_table::NodeGroupPageInfo;
use cheguers_core::table::chunked_node_group::ChunkedNodeGroup;
use cheguers_core::table::column::ColumnChunk;
use cheguers_core::types::{
    ColumnId, DataType, Direction, LabelId, NodeGroupIdx, NodeId, PageIdx, PageRange,
    PropertyValue, TableId,
};
use cheguers_core::Page;

#[test]
fn numbers_are_written_low_byte_first() {
    let mut buf = [0xAAu8; 26];
    let mut pos = 1;
    binary::write_u8(&mut buf, &mut pos, 7);
    binary::write_u16(&mut buf, &mut pos, 0x0102);
    binary::write_u32(&mut buf, &mut pos, 0x03040506);
    binary::write_u64(&mut buf, &mut pos, 0x0708090A0B0C0D0E);
    binary::write_i64(&mut buf, &mut pos, -2);
    assert_eq!(pos, 24);
    assert_eq!(
        buf,
        [
            0xAA, 7, 2, 1, 6, 5, 4, 3, 0x0E, 0x0D, 0x0C, 0x0B, 0x0A, 9, 8, 7, 0xFE, 0xFF, 0xFF,
            0xFF, 0xFF, 0xFF, 0xFF, 0xFF, 0xAA, 0xAA
        ]
    );
    let mut pos = 1;
    assert_eq!(binary::read_u8(&buf, &mut pos), 7);
    assert_eq!(binary::read_u16(&buf, &mut pos), 0x0102);
    assert_eq!(binary::read_u32(&buf, &mut pos), 0x03040506);
    assert_eq!(binary::read_u64(&buf, &mut pos), 0x0708090A0B0C0D0E);
    assert_eq!(binary::read_i64(&buf, &mut pos), -2);
    assert_eq!(pos, 24);
}

#[test]
fn extreme_numbers_come_back() {
    let mut buf = [0u8; 24];
    let mut pos = 0;
    binary::write_i64(&mut buf, &mut pos, i64::MIN);
    binary::write_i64(&mut buf, &mut pos, i64::MAX);
    binary::write_f64(&mut buf, &mut pos, f64::NEG_INFINITY.to_bits());
    let mut pos = 0;
    assert_eq!(binary::read_i64(&buf, &mut pos), i64::MIN);
    assert_eq!(binary::read_i64(&buf, &mut pos), i64::MAX);
    assert_eq!(f64::from_bits(binary::read_f64(&buf, &mut pos)), f64::NEG_INFINITY);
}

#[test]
fn byte_strings_come_back_and_leave_the_rest() {
    let mut buf = [9u8; 6];
    let mut pos = 2;
    binary::write_bytes(&mut buf, &mut pos, &[1, 2, 3]);
    assert_eq!(pos, 5);
    assert_eq!(buf, [9, 9, 1, 2, 3, 9]);
    let mut pos = 2;
    assert_eq!(binary::read_bytes(&buf, &mut pos, 3), &[1, 2, 3]);
    assert_eq!(pos, 5);
}

#[test]
fn bitmasks_start_at_the_high_bit() {
    assert_eq!(binary::pack_bitmask(&[]), Vec::<u8>::new());
    assert_eq!(binary::pack_bitmask(&[true]), vec![0x80]);
    let bits = [true, false, true, false, false, false, false, true, false, true];
    assert_eq!(binary::pack_bitmask(&bits), vec![0b1010_0001, 0b0100_0000]);
    assert_eq!(binary::unpack_bitmask(&[0b1010_0001, 0b0100_0000], 10), bits.to_vec());
    assert_eq!(binary::bitmask_len(0), 0);
    assert_eq!(binary::bitmask_len(8), 1);
    assert_eq!(binary::bitmask_len(9), 2);
}

#[test]
fn sizes_of_the_format() {
    assert_eq!(StorageConfig::PAGE_SIZE, 4096);
    assert_eq!(StorageConfig::NODE_GROUP_SIZE, 65536);
    assert_eq!(StorageConfig::CHUNKED_NODE_GROUP_CAPACITY, 2048);
    assert_eq!(StorageConfig::MAX_PROPERTIES_PER_LABEL, 64);
    assert_eq!(StorageConfig::DB_HEADER_PAGE_IDX, 0);
    assert_eq!(StorageConfig::LOG_SEGMENT_SIZE, 256);
    assert_eq!(StorageConfig::FILE_SUFFIX, "cheguers");
    assert_eq!(StorageConfig::STORAGE_VERSION, 1);
    assert_eq!(&MAGIC_BYTES, b"CHEGUERSDB\0\0\0\0\0\0");
}

#[test]
fn groups_and_offsets() {
    assert_eq!(get_start_offset_of_node_group(NodeGroupIdx(3)), 196_608);
    assert_eq!(get_start_offset_of_node_group(NodeGroupIdx(1 << 48)), 0);
    assert_eq!(get_node_group_idx(196_607), NodeGroupIdx(2));
    assert_eq!(get_node_group_idx(196_608), NodeGroupIdx(3));
    assert_eq!(get_node_group_idx(u64::MAX), NodeGroupIdx((1 << 48) - 1));
}

#[test]
fn a_page_keeps_its_first_bytes() {
    let page = Page::from_bytes(&[1, 2, 3]);
    assert_eq!(page.as_bytes().len(), 4096);
    assert_eq!(&page.as_bytes()[..5], &[1, 2, 3, 0, 0]);
    let long = vec![7u8; 5000];
    assert_eq!(Page::from_bytes(&long).to_vec(), vec![7u8; 4096]);
    assert_eq!(Page::new().to_vec(), vec![0u8; 4096]);
    assert_eq!(Page::default().to_vec(), vec![0u8; 4096]);
    let mut page = Page::new();
    page.as_bytes_mut()[4095] = 5;
    assert_eq!(page.as_bytes()[4095], 5);
    assert_eq!(page.display(), "Page(4096 bytes)");
}

#[test]
fn bytes_are_split_into_pages() {
    assert_eq!(split_into_pages(&[]).len(), 0);
    assert_eq!(split_into_pages(&[1u8; 4096]).len(), 1);
    let mut bytes = vec![1u8; 4096];
    bytes.push(2);
    let pages = split_into_pages(&bytes);
    assert_eq!(pages.len(), 2);
    assert_eq!(pages[1].as_bytes()[0], 2);
    assert_eq!(pages[1].as_bytes()[1], 0);
    let joined = join_pages(&pages);
    assert_eq!(joined.len(), 8192);
    assert_eq!(&joined[..4097], &bytes[..]);
}

fn range(start: u64, num_pages: u32) -> PageRange {
    PageRange { start_page: PageIdx(start), num_pages }
}

#[test]
fn ranges_are_read_from_a_file() {
    let file: Vec<Page> = (0..4u8).map(|b| Page::from_bytes(&[b])).collect();
    let pages = read_page_range(&file, range(1, 2)).unwrap();
    assert_eq!(pages.len(), 2);
    assert_eq!(pages[0].as_bytes()[0], 1);
    assert_eq!(pages[1].as_bytes()[0], 2);
    assert_eq!(read_page_range(&file, range(9, 0)).unwrap().len(), 0);
    let (both, missing) = read_page_ranges(&file, &[range(3, 1), range(0, 2)]);
    assert_eq!(missing, None);
    assert_eq!(both[0].len(), 1);
    assert_eq!(both[0][0].as_bytes()[0], 3);
    assert_eq!(both[1][1].as_bytes()[0], 1);
}

#[test]
fn pages_behind_the_file_cannot_be_read() {
    let file: Vec<Page> = (0..4u8).map(|b| Page::from_bytes(&[b])).collect();
    assert_eq!(read_page_range(&file, range(2, 3)).err(), Some(PageIdx(4)));
    assert_eq!(read_page_range(&file, range(7, 1)).err(), Some(PageIdx(7)));
    assert_eq!(read_page_range(&file, range(u64::MAX, 2)).err(), Some(PageIdx(u64::MAX)));
    let (read, missing) = read_page_ranges(&file, &[range(0, 1), range(4, 1), range(9, 1)]);
    assert_eq!(read.len(), 1);
    assert_eq!(missing, Some(PageIdx(4)));
}

#[test]
fn the_header_comes_back() {
    let mut header = DatabaseHeader::new([3u8; 16]);
    assert_eq!(header.catalog_page_range, range(0, 0));
    header.set_catalog_page_range(range(0x0102, 9));
    let page = header.serialize();
    assert_eq!(&page.as_bytes()[..16], b"CHEGUERSDB\0\0\0\0\0\0");
    assert_eq!(&page.as_bytes()[16..20], &[1, 0, 0, 0]);
    assert_eq!(&page.as_bytes()[20..36], &[3u8; 16]);
    assert_eq!(&page.as_bytes()[36..44], &[2, 1, 0, 0, 0, 0, 0, 0]);
    assert_eq!(&page.as_bytes()[44..49], &[9, 0, 0, 0, 0]);
    let back = DatabaseHeader::deserialize(&page).unwrap();
    assert_eq!(back.version, 1);
    assert_eq!(back.db_id, [3u8; 16]);
    assert_eq!(back.catalog_page_range, range(0x0102, 9));
}

#[test]
fn a_page_without_the_magic_bytes_is_no_header() {
    let mut page = DatabaseHeader::new([3u8; 16]).serialize();
    page.as_bytes_mut()[15] = 1;
    assert_eq!(DatabaseHeader::deserialize(&page).err(), Some(StorageError::CorruptHeader));
}

fn catalog() -> Catalog {
    Catalog {
        node_labels: vec![NodeLabelEntry {
            table_id: TableId(1),
            label_id: LabelId(2),
            name: "N".into(),
            pk_column_id: ColumnId(3),
            properties: vec![PropertyDef {
                name: "é".into(),
                column_id: ColumnId(4),
                data_type: DataType::Vector { dim: 5 },
                nullable: true,
            }],
        }],
        edge_types: vec![EdgeTypeEntry {
            table_id: TableId(6),
            label_id: LabelId(7),
            name: "".into(),
            from_label_id: LabelId(8),
            to_label_id: LabelId(9),
            properties: vec![PropertyDef {
                name: "w".into(),
                column_id: ColumnId(10),
                data_type: DataType::Float64,
                nullable: false,
            }],
        }],
    }
}

const CATALOG_BYTES: [u8; 72] = [
    1, 0, 0, 0, // one node label
    1, 0, 0, 0, 2, 0, 0, 0, 1, 0, 78, 3, 0, 0, 0, 1, 0, 0, 0, // its head
    2, 0, 0xC3, 0xA9, 4, 0, 0, 0, 5, 5, 0, 0, 0, 1, // its property
    1, 0, 0, 0, // one edge type
    6, 0, 0, 0, 7, 0, 0, 0, 0, 0, 8, 0, 0, 0, 9, 0, 0, 0, 1, 0, 0, 0, // its head
    1, 0, 119, 10, 0, 0, 0, 2, 0, // its property
];

#[test]
fn the_catalog_comes_back() {
    let c = catalog();
    assert_eq!(c.serialized_len(), 72);
    let mut buf = vec![0u8; 74];
    assert_eq!(c.serialize(&mut buf), Ok(72));
    assert_eq!(&buf[..72], &CATALOG_BYTES[..]);
    assert_eq!(&buf[72..], &[0, 0]);
    let back = Catalog::deserialize(&buf).unwrap();
    assert_eq!(back.node_labels, c.node_labels);
    assert_eq!(back.edge_types, c.edge_types);
}

#[test]
fn a_catalog_that_was_cut_is_not_read() {
    for n in 0..72 {
        assert!(Catalog::try_deserialize(&CATALOG_BYTES[..n]).is_none());
    }
    assert!(Catalog::try_deserialize(&CATALOG_BYTES).is_some());
}

#[test]
fn the_empty_catalog_is_two_zeros() {
    let c = Catalog::default();
    assert_eq!(c.serialized_len(), 8);
    let mut buf = [1u8; 8];
    assert_eq!(c.serialize(&mut buf), Ok(8));
    assert_eq!(buf, [0u8; 8]);
}

#[test]
fn an_unknown_type_counts_as_int64() {
    let mut bytes = CATALOG_BYTES;
    bytes[70] = 77;
    let back = Catalog::deserialize(&bytes).unwrap();
    assert_eq!(back.edge_types[0].properties[0].data_type, DataType::Int64);
}

#[test]
fn names_that_are_no_text_are_replaced() {
    let mut bytes = CATALOG_BYTES;
    bytes[25] = 0xFF;
    bytes[26] = b'x';
    let back = Catalog::deserialize(&bytes).unwrap();
    assert_eq!(back.node_labels[0].properties[0].name, "\u{FFFD}x");
}

#[test]
fn the_catalog_finds_its_entries() {
    let c = catalog();
    assert_eq!(c.get_node_label(LabelId(2)).unwrap().name, "N");
    assert!(c.get_node_label(LabelId(7)).is_none());
    assert_eq!(c.get_edge_type(LabelId(7)).unwrap().table_id, TableId(6));
    assert!(c.get_edge_type(LabelId(2)).is_none());
}

fn infos() -> (Vec<NodeGroupPageInfo>, Vec<CSREdgeGroupPageInfo>) {
    (
        vec![NodeGroupPageInfo { group_idx: NodeGroupIdx(1), page_range: range(2, 3) }],
        vec![
            CSREdgeGroupPageInfo {
                group_idx: NodeGroupIdx(4),
                direction: Direction::Forward,
                page_range: range(5, 6),
            },
            CSREdgeGroupPageInfo {
                group_idx: NodeGroupIdx(7),
                direction: Direction::Backward,
                page_range: range(8, 9),
            },
        ],
    )
}

const METADATA: [u8; 70] = [
    1, 0, 0, 0, 2, 0, 0, 0, // how many
    1, 0, 0, 0, 0, 0, 0, 0, 2, 0, 0, 0, 0, 0, 0, 0, 3, 0, 0, 0, // nodes
    4, 0, 0, 0, 0, 0, 0, 0, 0, 5, 0, 0, 0, 0, 0, 0, 0, 6, 0, 0, 0, // edges, forward
    7, 0, 0, 0, 0, 0, 0, 0, 1, 8, 0, 0, 0, 0, 0, 0, 0, 9, 0, 0, 0, // edges, backward
];

#[test]
fn metadata_comes_back() {
    let (nodes, edges) = infos();
    let mut buf = vec![42u8];
    write_table_metadata(&mut buf, &nodes, &edges);
    assert_eq!(buf[0], 42);
    assert_eq!(&buf[1..], &METADATA[..]);
    let (back_nodes, back_edges) = deserialize_table_metadata(&METADATA).unwrap();
    assert_eq!(back_nodes.len(), 1);
    assert_eq!(back_nodes[0].group_idx, NodeGroupIdx(1));
    assert_eq!(back_nodes[0].page_range, range(2, 3));
    assert_eq!(back_edges.len(), 2);
    assert_eq!(back_edges[0].direction, Direction::Forward);
    assert_eq!(back_edges[1].direction, Direction::Backward);
    assert_eq!(back_edges[1].group_idx, NodeGroupIdx(7));
    assert_eq!(back_edges[1].page_range, range(8, 9));
}

#[test]
fn metadata_that_was_cut() {
    let (nodes, edges) = deserialize_table_metadata(&METADATA[..7]).unwrap();
    assert!(nodes.is_empty() && edges.is_empty());
    for n in 8..70 {
        assert!(try_deserialize_table_metadata(&METADATA[..n]).is_none());
    }
}

#[test]
fn the_catalog_block_comes_back() {
    let (nodes, edges) = infos();
    let pages = serialize_catalog_block(&catalog(), &nodes, &edges).unwrap().unwrap();
    assert_eq!(pages.len(), 1);
    assert_eq!(&pages[0].as_bytes()[..72], &CATALOG_BYTES[..]);
    assert_eq!(&pages[0].as_bytes()[72..142], &METADATA[..]);
    assert_eq!(&pages[0].as_bytes()[142..], &vec![0u8; 3954][..]);
    let (c, back_nodes, back_edges) = read_catalog_block(&pages).unwrap();
    assert_eq!(c.node_labels, catalog().node_labels);
    assert_eq!(back_nodes.len(), 1);
    assert_eq!(back_edges.len(), 2);
}

fn column_bytes(chunk: &ColumnChunk) -> Vec<u8> {
    let mut buf = vec![0u8; chunk.serialized_len()];
    assert_eq!(chunk.serialize(&mut buf), Ok(buf.len()));
    buf
}

#[test]
fn a_bool_column_takes_a_byte_a_row() {
    let mut c = ColumnChunk::new(ColumnId(0), DataType::Bool);
    c.append_value(Some(&PropertyValue::Bool(true))).unwrap();
    c.append_value(None).unwrap();
    assert_eq!(column_bytes(&c), vec![2, 0, 0, 0, 0b0100_0000, 1, 0]);
}

#[test]
fn an_int_column_takes_eight_bytes_a_row() {
    let mut c = ColumnChunk::new(ColumnId(0), DataType::Int64);
    c.append_value(Some(&PropertyValue::Int64(-1))).unwrap();
    assert_eq!(column_bytes(&c), vec![1, 0, 0, 0, 0, 255, 255, 255, 255, 255, 255, 255, 255]);
}

#[test]
fn a_float_column_keeps_the_bits() {
    let mut c = ColumnChunk::new(ColumnId(0), DataType::Float64);
    c.append_value(Some(&PropertyValue::Float64(1.0f64.to_bits()))).unwrap();
    assert_eq!(column_bytes(&c), vec![1, 0, 0, 0, 0, 0, 0, 0, 0, 0, 0, 0xF0, 0x3F]);
}

#[test]
fn a_text_column_holds_offsets_and_then_the_texts() {
    let mut c = ColumnChunk::new(ColumnId(0), DataType::String);
    c.append_value(Some(&PropertyValue::String("ab".into()))).unwrap();
    c.append_value(None).unwrap();
    c.append_value(Some(&PropertyValue::String("c".into()))).unwrap();
    let bytes = column_bytes(&c);
    assert_eq!(
        bytes,
        vec![
            3, 0, 0, 0, 0b0100_0000, 0, 0, 0, 0, 2, 0, 0, 0, 2, 0, 0, 0, 3, 0, 0, 0, b'a', b'b',
            b'c'
        ]
    );
    let back = ColumnChunk::deserialize(ColumnId(0), DataType::String, &bytes).unwrap();
    assert_eq!(back.get(0), Ok(Some(PropertyValue::String("ab".into()))));
    assert_eq!(back.get(1), Ok(None));
    assert_eq!(back.get(2), Ok(Some(PropertyValue::String("c".into()))));
}

#[test]
fn a_text_column_that_is_no_text_is_refused() {
    let bytes = [1, 0, 0, 0, 0, 0, 0, 0, 0, 2, 0, 0, 0, b'a', 0xFF];
    assert_eq!(
        ColumnChunk::deserialize(ColumnId(0), DataType::String, &bytes).err(),
        Some(StorageError::SerDe(
            "invalid UTF-8: invalid utf-8 sequence of 1 bytes from index 1".into()
        ))
    );
    let raw = ColumnChunk::deserialize(ColumnId(0), DataType::Bytes, &bytes).unwrap();
    assert_eq!(raw.get(0), Ok(Some(PropertyValue::Bytes(vec![b'a', 0xFF]))));
}

#[test]
fn a_column_that_was_cut() {
    assert_eq!(
        ColumnChunk::deserialize(ColumnId(0), DataType::Bool, &[1, 0, 0]).err(),
        Some(StorageError::SerDe("buffer too short for num_rows".into()))
    );
    assert!(ColumnChunk::try_deserialize(ColumnId(0), DataType::Bool, &[1, 0, 0, 0]).is_none());
    assert!(ColumnChunk::try_deserialize(ColumnId(0), DataType::Bool, &[1, 0, 0, 0, 0]).is_none());
    let bad_offset = [1, 0, 0, 0, 0, 2, 0, 0, 0, 1, 0, 0, 0, b'a', b'b'];
    assert!(ColumnChunk::try_deserialize(ColumnId(0), DataType::Bytes, &bad_offset).is_none());
}

#[test]
fn vectors_are_held_as_bytes() {
    let mut c = ColumnChunk::new(ColumnId(0), DataType::Vector { dim: 2 });
    assert_eq!(c.append_value(Some(&PropertyValue::Bytes(vec![1, 2]))), Ok(()));
    assert_eq!(c.get(0), Ok(Some(PropertyValue::Bytes(vec![1, 2]))));
    assert_eq!(
        c.append_value(Some(&PropertyValue::Int64(1))),
        Err(StorageError::ColumnTypeMismatch {
            expected: DataType::Vector { dim: 2 },
            got: DataType::Int64,
        })
    );
}

#[test]
fn a_chunk_on_disk() {
    let schema = [(ColumnId(0), DataType::Bool)];
    let mut chunk = ChunkedNodeGroup::new(2048, &schema);
    chunk.insert_row(NodeId(5), &[Some(PropertyValue::Bool(true))]).unwrap();
    chunk.insert_row(NodeId(6), &[None]).unwrap();
    chunk.delete_row_local(0).unwrap();
    let mut buf = vec![0u8; chunk.serialized_len()];
    assert_eq!(chunk.serialize(&mut buf), Ok(48));
    assert_eq!(
        buf,
        vec![
            0, 8, 0, 0, 0, 0, 0, 0, // first row
            2, 0, 0, 0, 0, 0, 0, 0, // rows
            1, 0, 0, 0, 7, 0, 0, 0, // columns and the length of each
            5, 0, 0, 0, 0, 0, 0, 0, 6, 0, 0, 0, 0, 0, 0, 0, // nodes
            0b1000_0000, // deleted
            2, 0, 0, 0, 0b0100_0000, 1, 0, // the column
        ]
    );
    let back = ChunkedNodeGroup::deserialize(&schema, &buf).unwrap();
    assert_eq!(back.start_row_idx(), 2048);
    assert_eq!(back.num_rows(), 2);
    assert_eq!(back.num_live_rows(), 1);
    assert_eq!(back.find_node_local(NodeId(6)), Some(1));
    assert_eq!(back.find_node_local(NodeId(5)), None);
    for n in 0..48 {
        assert!(ChunkedNodeGroup::try_deserialize(&schema, &buf[..n])
            .map_or(true, |r| r.is_err()));
    }
}
