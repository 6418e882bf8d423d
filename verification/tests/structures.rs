use cheguers_core::catalog::{Catalog, EdgeTypeEntry, NodeLabelEntry, PropertyDef};
use cheguers_core::command::Command;
use cheguers_core::error::StorageError;
use cheguers_core::ordered_map::OrderedMap;
use cheguers_core::search::{count_live, lower_bound_of};
use cheguers_core::state::node_store::NodeStore;
use cheguers_core::state::node_table::NodeTable;
use cheguers_core::storage::edge_group::EdgeGroup;
use cheguers_core::storage::edge_store::EdgeStore as PlainEdgeStore;
use cheguers_core::storage::edge_table::EdgeTable as PlainEdgeTable;
use cheguers_core::storage::node_table::NodeTable as PlainNodeTable;
use cheguers_core::table::chunked_node_group::ChunkedNodeGroup;
use cheguers_core::table::edge::CSREdgeGroup;
use cheguers_core::table::edge_list::{NodeEdgeIter, NodeEdgeList};
use cheguers_core::table::node::NodeGroup;
use cheguers_core::types::{
    ColumnId, DataType, Direction, EdgeId, LabelId, NodeGroupIdx, NodeId, PropertyValue, TableId,
};
use cheguers_core::{EdgeStore, EdgeTable, Page};
use std::sync::Arc;

fn property(column: u32, data_type: DataType) -> PropertyDef {
    PropertyDef { name: "p".into(), column_id: ColumnId(column), data_type, nullable: true }
}

fn edge_schema(types: &[DataType]) -> EdgeTypeEntry {
    EdgeTypeEntry {
        table_id: TableId(1),
        label_id: LabelId(1),
        name: "Knows".into(),
        from_label_id: LabelId(0),
        to_label_id: LabelId(0),
        properties: types
            .iter()
            .enumerate()
            .map(|(i, t)| property(i as u32, t.clone()))
            .collect(),
    }
}

fn node_schema(label: u32, types: &[DataType]) -> NodeLabelEntry {
    NodeLabelEntry {
        table_id: TableId(label),
        label_id: LabelId(label),
        name: "Person".into(),
        pk_column_id: ColumnId(0),
        properties: types
            .iter()
            .enumerate()
            .map(|(i, t)| property(i as u32, t.clone()))
            .collect(),
    }
}

fn num(n: i64) -> Option<PropertyValue> {
    Some(PropertyValue::Int64(n))
}

fn mismatch() -> StorageError {
    StorageError::ColumnTypeMismatch { expected: DataType::Int64, got: DataType::Bool }
}

// Ordered maps and searching

#[test]
fn a_map_keeps_its_keys_in_order() {
    let mut m = OrderedMap::new();
    for key in [5u64, 1, 3, 1] {
        m.insert(key, key * 10 + m.len() as u64);
    }
    assert_eq!(m.len(), 3);
    assert_eq!((m.key_at(0), *m.value_at(0)), (1, 13));
    assert_eq!((m.key_at(1), *m.value_at(1)), (3, 32));
    assert_eq!((m.key_at(2), *m.value_at(2)), (5, 50));
    assert_eq!(m.get(3), Some(&32));
    assert_eq!(m.get(4), None);
    assert_eq!(m.find(5), Some(2));
    assert_eq!(m.position(4), 2);
    *m.value_at_mut(1) = 7;
    assert_eq!(m.get(3), Some(&7));
    m.remove(1);
    m.remove(2);
    assert_eq!(m.len(), 2);
    assert_eq!(m.get(1), None);
}

#[test]
fn extending_a_map_replaces_what_is_there() {
    let mut a = OrderedMap::new();
    a.insert(1, 10u64);
    a.insert(2, 20);
    let mut b = OrderedMap::new();
    b.insert(2, 22);
    b.insert(3, 33);
    a.extend(&b);
    assert_eq!(a.len(), 3);
    assert_eq!(a.get(1), Some(&10));
    assert_eq!(a.get(2), Some(&22));
    assert_eq!(a.get(3), Some(&33));
}

#[test]
fn searching_ascending_numbers() {
    assert_eq!(lower_bound_of(&vec![], 5), 0);
    assert_eq!(lower_bound_of(&vec![1, 3, 5], 0), 0);
    assert_eq!(lower_bound_of(&vec![1, 3, 5], 3), 1);
    assert_eq!(lower_bound_of(&vec![1, 3, 5], 4), 2);
    assert_eq!(lower_bound_of(&vec![1, 3, 5], 6), 3);
    assert_eq!(count_live(&vec![false, true, false]), 2);
}

// Edge lists

fn rows(list: &NodeEdgeList) -> Vec<u64> {
    NodeEdgeIter::from_list(list).collect()
}

#[test]
fn a_list_stays_sequential_while_rows_follow_each_other() {
    let mut list = NodeEdgeList::empty();
    assert!(list.is_empty());
    for row in [7, 8, 9] {
        list.push(row);
    }
    assert!(matches!(list, NodeEdgeList::Sequential { start: 7, len: 3 }));
    assert_eq!(rows(&list), vec![7, 8, 9]);
    assert!(list.contains(8) && !list.contains(10));
    list.push(20);
    assert!(matches!(list, NodeEdgeList::Sparse(_)));
    assert_eq!(rows(&list), vec![7, 8, 9, 20]);
    list.push(15);
    assert_eq!(rows(&list), vec![7, 8, 9, 15, 20]);
    assert_eq!(NodeEdgeIter::from_list(&list).count(), 5);
}

#[test]
fn removing_the_row_just_pushed_gives_the_rows_back() {
    let mut list = NodeEdgeList::empty();
    list.push(4);
    list.push(9);
    let before = rows(&list);
    list.push(6);
    assert!(list.remove(6));
    assert_eq!(rows(&list), before);
    assert!(!list.remove(6));
    assert!(list.remove(4) && list.remove(9));
    assert!(list.is_empty());
}

#[test]
fn an_iterator_ends() {
    let mut list = NodeEdgeList::empty();
    list.push(3);
    let mut it = NodeEdgeIter::from_list(&list);
    assert_eq!(it.next(), Some(3));
    assert_eq!(it.next(), None);
    assert_eq!(it.next(), None);
}

#[test]
fn lists_on_disk() {
    let mut seq = NodeEdgeList::empty();
    seq.push(2);
    seq.push(3);
    let mut buf = [0u8; 13];
    let mut pos = 0;
    assert_eq!(seq.checked_len(), Some(13));
    seq.serialize_entry(&mut buf, &mut pos);
    assert_eq!(pos, 13);
    assert_eq!(buf, [0, 2, 0, 0, 0, 0, 0, 0, 0, 2, 0, 0, 0]);
    let mut pos = 0;
    assert_eq!(rows(&NodeEdgeList::try_deserialize_entry(&buf, &mut pos).unwrap()), vec![2, 3]);

    let sparse = NodeEdgeList::Sparse(vec![1, 5]);
    let mut buf = [0u8; 21];
    let mut pos = 0;
    assert_eq!(sparse.checked_len(), Some(21));
    sparse.serialize_entry(&mut buf, &mut pos);
    assert_eq!(&buf[..5], &[1, 2, 0, 0, 0]);
    let mut pos = 0;
    assert_eq!(rows(&NodeEdgeList::try_deserialize_entry(&buf, &mut pos).unwrap()), vec![1, 5]);
    let mut pos = 0;
    assert!(NodeEdgeList::try_deserialize_entry(&buf[..20], &mut pos).is_none());
}

// Node groups

#[test]
fn a_refused_row_leaves_the_chunk_as_it_was() {
    let schema = [(ColumnId(0), DataType::Int64), (ColumnId(1), DataType::Int64)];
    let mut chunk = ChunkedNodeGroup::new(0, &schema);
    chunk.insert_row(NodeId(1), &[num(1), num(2)]).unwrap();
    let refused = chunk.insert_row(NodeId(2), &[num(1), Some(PropertyValue::Bool(true))]);
    assert_eq!(refused, Err(mismatch()));
    assert_eq!(chunk.num_rows(), 1);
    assert_eq!(chunk.insert_row(NodeId(3), &[num(5), num(6)]), Ok(1));
    assert_eq!(chunk.get_row_local(1), Ok(Some(vec![num(5), num(6)])));
    assert_eq!(chunk.node_id_at_local(1), Ok(NodeId(3)));
    assert_eq!(
        chunk.node_id_at_local(2),
        Err(StorageError::RowOutOfBounds { row: 2, len: 2 })
    );
    assert_eq!(
        chunk.delete_row_local(2),
        Err(StorageError::RowOutOfBounds { row: 2, len: 2 })
    );
}

#[test]
fn missing_values_are_null() {
    let schema = node_schema(0, &[DataType::Int64, DataType::Int64]);
    let mut group = NodeGroup::new(NodeGroupIdx(0), &schema);
    group.insert_row(NodeId(1), &[num(1)]).unwrap();
    assert_eq!(group.get_row(0), Ok(Some(vec![num(1), None])));
}

#[test]
fn a_group_of_many_chunks_comes_back() {
    let schema = node_schema(0, &[DataType::Int64]);
    let mut group = NodeGroup::new(NodeGroupIdx(3), &schema);
    for i in 0..5000u64 {
        assert_eq!(group.insert_row(NodeId(i), &[num(i as i64)]), Ok(i));
    }
    group.delete_row(2048).unwrap();
    assert_eq!(group.num_chunks(), 3);
    let pages = group.serialize_to_pages().unwrap();
    let back = NodeGroup::deserialize_from_pages(&schema, NodeGroupIdx(3), &pages).unwrap();
    assert!(back.is_dense() && back.is_sized());
    assert_eq!(back.num_rows(), 5000);
    assert_eq!(back.num_live_rows(), 4999);
    assert_eq!(back.get_row(4999), Ok(Some(vec![num(4999)])));
    assert_eq!(back.get_row(2048), Ok(None));
    assert_eq!(back.get_row(5000), Err(StorageError::RowOutOfBounds { row: 5000, len: 5000 }));
    assert_eq!(back.find_node(NodeId(2048)), None);
    assert_eq!(back.find_node(NodeId(2049)), Some(2049));
    assert_eq!(back.node_id_at(4000), Ok(NodeId(4000)));
}

#[test]
fn chunk_offsets_out_of_range_are_refused() {
    let schema = node_schema(0, &[DataType::Int64]);
    let mut group = NodeGroup::new(NodeGroupIdx(0), &schema);
    group.insert_row(NodeId(1), &[num(1)]).unwrap();
    let pages = group.serialize_to_pages().unwrap();
    let mut bytes = pages[0].to_vec();
    bytes[25] = 0x20;
    let damaged = [Page::from_bytes(&bytes)];
    assert_eq!(
        NodeGroup::deserialize_from_pages(&schema, NodeGroupIdx(0), &damaged).err(),
        Some(StorageError::SerDe(
            "chunk offsets out of range: start=8220 end=4096 buf_len=4096".into()
        ))
    );
    assert!(NodeGroup::try_deserialize_from_pages(&schema, NodeGroupIdx(0), &[]).is_none());
}

// Edge groups

#[test]
fn an_edge_outside_of_the_range_is_named() {
    let schema = edge_schema(&[]);
    let mut group = CSREdgeGroup::new(NodeGroupIdx(1), Direction::Forward, &schema);
    assert_eq!(group.offset_base(), 65536);
    assert_eq!(
        group.insert_edge(5, EdgeId(1), NodeId(1), NodeId(2), &[]),
        Err(StorageError::SerDe("offset 5 outside group 1 range [65536, 131072)".into()))
    );
    assert_eq!(group.find_edges(5).count(), 0);
}

#[test]
fn a_full_edge_group_refuses() {
    let schema = edge_schema(&[]);
    let mut group = CSREdgeGroup::new(NodeGroupIdx(0), Direction::Forward, &schema);
    for i in 0..65536u64 {
        group.insert_edge(9, EdgeId(i), NodeId(1), NodeId(2), &[]).unwrap();
    }
    assert!(group.is_full());
    assert_eq!(
        group.insert_edge(9, EdgeId(65536), NodeId(1), NodeId(2), &[]),
        Err(StorageError::CsrEdgeGroupFull)
    );
}

#[test]
fn regions_are_marked_and_cleared() {
    let schema = edge_schema(&[]);
    let mut group = CSREdgeGroup::new(NodeGroupIdx(0), Direction::Forward, &schema);
    group.insert_edge(0, EdgeId(1), NodeId(1), NodeId(2), &[]).unwrap();
    group.insert_edge(65535, EdgeId(2), NodeId(1), NodeId(2), &[]).unwrap();
    assert_eq!(group.dirty_regions(), 1 | 1 << 63);
    group.clear_dirty_regions_mask(1);
    assert_eq!(group.dirty_regions(), 1 << 63);
    group.clear_dirty_regions();
    assert_eq!(group.dirty_regions(), 0);
    group.delete_row(0).unwrap();
    assert_eq!(group.dirty_regions(), 1);
}

#[test]
fn values_of_a_refused_edge_shift_the_next_ones() {
    let schema = edge_schema(&[DataType::Int64, DataType::Int64]);
    let mut group = CSREdgeGroup::new(NodeGroupIdx(0), Direction::Forward, &schema);
    group.insert_edge(0, EdgeId(1), NodeId(1), NodeId(2), &[num(1), num(2)]).unwrap();
    assert_eq!(
        group.insert_edge(
            0,
            EdgeId(2),
            NodeId(1),
            NodeId(2),
            &[num(3), Some(PropertyValue::Bool(true))]
        ),
        Err(mismatch())
    );
    assert_eq!(group.find_edge(EdgeId(2)), None);
    let row = group.insert_edge(0, EdgeId(3), NodeId(1), NodeId(2), &[num(5), num(6)]).unwrap();
    assert_eq!(group.get_row(0).unwrap().unwrap().properties, vec![num(1), num(2)]);
    assert_eq!(group.get_row(row).unwrap().unwrap().properties, vec![num(3), num(6)]);
}

#[test]
fn an_edge_group_on_disk() {
    let schema = edge_schema(&[DataType::Bool]);
    let mut group = CSREdgeGroup::new(NodeGroupIdx(0), Direction::Backward, &schema);
    let yes = [Some(PropertyValue::Bool(true))];
    group.insert_edge(3, EdgeId(7), NodeId(8), NodeId(9), &yes).unwrap();
    let pages = group.serialize_to_pages().unwrap();
    assert_eq!(pages.len(), 1);
    let mut expected = vec![0u8; 16];
    expected.extend([1, 0, 0, 0, 0, 0, 0, 0]); // rows
    expected.extend([1, 0, 0, 0, 1, 0, 0, 0, 1, 0, 0, 0]); // live rows, columns, keys
    expected.extend([6, 0, 0, 0]); // the length of the column
    expected.extend([7, 0, 0, 0, 0, 0, 0, 0, 8, 0, 0, 0, 0, 0, 0, 0, 9, 0, 0, 0, 0, 0, 0, 0]);
    expected.extend([0]); // deleted
    expected.extend([3, 0, 0, 0, 0, 0, 0, 0]); // the key
    expected.extend([0, 0, 0, 0, 0, 0, 0, 0, 0, 1, 0, 0, 0]); // its list
    expected.extend([1, 0, 0, 0, 0, 1]); // the column
    expected.resize(4096, 0);
    assert_eq!(pages[0].to_vec(), expected);
    let back = CSREdgeGroup::deserialize_from_pages(
        Direction::Backward,
        &schema,
        NodeGroupIdx(0),
        &pages,
    )
    .unwrap();
    assert!(back.is_sound());
    assert_eq!(back.find_edges(3).collect(), vec![0]);
    assert_eq!(back.get_row(0).unwrap().unwrap().to, NodeId(9));
    assert!(CSREdgeGroup::try_deserialize_from_pages(
        Direction::Backward,
        &schema,
        NodeGroupIdx(0),
        &[]
    )
    .is_none());
}

// Tables

#[test]
fn deleting_a_node_leaves_the_others() {
    let mut table = NodeTable::new(node_schema(0, &[DataType::Int64]));
    for i in 1..=3 {
        assert_eq!(table.insert_node(NodeId(i), &[num(i as i64)]), Ok((NodeGroupIdx(0), i - 1)));
    }
    table.delete_node(NodeId(2)).unwrap();
    assert_eq!(table.get_node(NodeId(2)), Ok(None));
    assert_eq!(table.node_offset(NodeId(2)), None);
    assert_eq!(table.get_node(NodeId(1)), Ok(Some(vec![num(1)])));
    assert_eq!(table.node_offset(NodeId(3)), Some(2));
    let seen: Vec<u64> = table.iter().iter().map(|r| r.node_id.0).collect();
    assert_eq!(seen, vec![1, 3]);
    assert_eq!(
        table.delete_node(NodeId(2)),
        Err(StorageError::NodeNotFound { node_id: NodeId(2) })
    );
}

#[test]
fn a_table_that_is_not_huge_has_room() {
    let mut table = NodeTable::new(node_schema(0, &[]));
    assert!(table.has_room());
    table.insert_node(NodeId(1), &[]).unwrap();
    assert!(table.has_room());
}

#[test]
fn edges_of_a_plain_group_are_named_by_their_rows() {
    let mut group = EdgeGroup::new(NodeGroupIdx(2), &edge_schema(&[]));
    assert_eq!(group.group_idx(), NodeGroupIdx(2));
    group.insert_row(EdgeId(7), NodeId(1), NodeId(2), &[]).unwrap();
    assert_eq!(group.edge_id_at(0), Ok(EdgeId(7)));
    assert_eq!(group.edge_id_at(1), Err(StorageError::RowOutOfBounds { row: 1, len: 1 }));
}

#[test]
fn offsets_at_the_end_of_the_numbers_have_no_room() {
    let mut store = EdgeStore::new(two_labels());
    let mut offsets = OrderedMap::new();
    offsets.insert(1, 100);
    offsets.insert(2, u64::MAX);
    store.update_node_offsets(&offsets);
    let create = |from: u64, to: u64| Command::CreateEdge {
        edge_id: EdgeId(9),
        type_id: LabelId(1),
        from: NodeId(from),
        to: NodeId(to),
        properties: vec![],
    };
    assert!(store.has_room(&create(1, 1)));
    assert!(!store.has_room(&create(1, 2)));
    assert!(store.has_room(&create(2, 3)));
}

#[test]
fn counting_edges() {
    let mut table = EdgeTable::new(edge_schema(&[]));
    for i in 0..3 {
        table.insert_edge(EdgeId(i), NodeId(1), NodeId(2), i * 65536, 0, &[]).unwrap();
    }
    table.delete_edge(EdgeId(1)).unwrap();
    assert_eq!(table.checked_num_groups(), Some(3));
    assert_eq!(table.checked_num_edges(), Some(2));
}

#[test]
fn a_refused_node_is_not_there() {
    let mut table = NodeTable::new(node_schema(0, &[DataType::Int64]));
    assert_eq!(table.insert_node(NodeId(1), &[Some(PropertyValue::Bool(true))]), Err(mismatch()));
    assert_eq!(table.get_node(NodeId(1)), Ok(None));
    assert_eq!(table.num_nodes(), 0);
}

#[test]
fn a_flushed_node_table_is_read_back() {
    let schema = node_schema(0, &[DataType::Int64]);
    let mut table = NodeTable::new(schema.clone());
    for i in 0..600 {
        table.insert_node(NodeId(i), &[num(i as i64)]).unwrap();
    }
    let pages = table.flush(5).unwrap();
    let info = table.page_infos()[0];
    assert_eq!(info.group_idx, NodeGroupIdx(0));
    assert_eq!(info.page_range.start_page.0, 5);
    assert_eq!(info.page_range.num_pages as usize, pages.len());
    assert!(table.flush(9).unwrap().is_empty());
    let loaded = NodeTable::load(schema, vec![info], &vec![pages]).unwrap();
    assert!(loaded.is_sound());
    assert_eq!(loaded.num_nodes(), 600);
    for i in 0..600 {
        assert_eq!(loaded.get_node(NodeId(i)), Ok(Some(vec![num(i as i64)])));
        assert_eq!(loaded.node_offset(NodeId(i)), Some(i));
    }
}

#[test]
fn a_flushed_edge_table_is_read_back() {
    let schema = edge_schema(&[DataType::Int64]);
    let mut table = EdgeTable::new(schema.clone());
    for i in 0..100u64 {
        table
            .insert_edge(EdgeId(i), NodeId(i), NodeId(i + 1), i, 70_000 + i, &[num(i as i64)])
            .unwrap();
    }
    table.delete_edge(EdgeId(50)).unwrap();
    assert_eq!(table.num_groups(), 1);
    let pages = table.flush(1).unwrap().unwrap();
    let infos = table.page_infos().to_vec();
    assert_eq!(infos.len(), 2);
    let blocks: Vec<Vec<Page>> = infos
        .iter()
        .map(|info| {
            let start = info.page_range.start_page.0 as usize - 1;
            (start..start + info.page_range.num_pages as usize)
                .map(|i| Page::from_bytes(pages[i].as_bytes()))
                .collect()
        })
        .collect();
    let loaded = EdgeTable::load(schema, infos, &blocks).unwrap();
    assert!(loaded.is_sound());
    assert_eq!(loaded.num_edges(), 99);
    assert_eq!(loaded.get_edge(EdgeId(50)), Ok(None));
    let edge = loaded.get_edge(EdgeId(99)).unwrap().unwrap();
    assert_eq!((edge.from, edge.to, edge.properties), (NodeId(99), NodeId(100), vec![num(99)]));
    let mut out = Vec::new();
    loaded.neighbors_into(70_007, Direction::Backward, &mut out);
    assert_eq!(out.len(), 1);
    assert_eq!((out[0].edge_id, out[0].neighbor), (EdgeId(7), NodeId(7)));
}

// Stores

fn two_labels() -> Arc<Catalog> {
    Arc::new(Catalog {
        node_labels: vec![node_schema(3, &[DataType::Int64]), node_schema(4, &[])],
        edge_types: vec![edge_schema(&[])],
    })
}

#[test]
fn nodes_live_in_the_table_of_their_label() {
    let mut store = NodeStore::new(two_labels());
    let create = |id: u64, label: u32| Command::CreateNode {
        node_id: NodeId(id),
        label_id: LabelId(label),
        properties: vec![],
    };
    store.apply_command(&create(1, 3)).unwrap();
    store.apply_command(&create(2, 4)).unwrap();
    assert_eq!(
        store.apply_command(&create(3, 5)),
        Err(StorageError::LabelNotFound { label_id: LabelId(5) })
    );
    assert_eq!(store.get_node(NodeId(1), LabelId(3)), Some(vec![None]));
    assert_eq!(store.get_node(NodeId(1), LabelId(4)), None);
    assert_eq!(store.get_node(NodeId(2), LabelId(4)), Some(vec![]));
    assert_eq!(store.num_nodes(LabelId(3)), 1);
    assert_eq!(store.num_nodes(LabelId(5)), 0);
    assert_eq!(store.scan_label(LabelId(4)).len(), 1);
    assert_eq!(store.scan_label(LabelId(5)).len(), 0);
    assert_eq!(store.node_offset(NodeId(2)), Some(0));
    assert_eq!(store.node_offset_map().len(), 2);
    store.apply_command(&Command::DeleteNode { node_id: NodeId(2) }).unwrap();
    assert_eq!(store.get_node(NodeId(2), LabelId(4)), None);
    assert_eq!(
        store.apply_command(&Command::DeleteNode { node_id: NodeId(2) }),
        Err(StorageError::NodeNotFound { node_id: NodeId(2) })
    );
    assert_eq!(store.apply_command(&Command::DeleteEdge { edge_id: EdgeId(1) }), Ok(()));
    assert!(store.is_sound());
    assert!(store.has_room(&create(4, 3)) && store.has_room(&create(4, 5)));
}

#[test]
fn an_edge_shows_up_at_both_ends() {
    let mut store = EdgeStore::new(two_labels());
    let mut offsets = OrderedMap::new();
    offsets.insert(1, 100);
    offsets.insert(2, 200);
    store.update_node_offsets(&offsets);
    let create = Command::CreateEdge {
        edge_id: EdgeId(9),
        type_id: LabelId(1),
        from: NodeId(1),
        to: NodeId(2),
        properties: vec![],
    };
    store.apply_command(&create).unwrap();
    let mut fwd = Vec::new();
    store.neighbors(100, Direction::Forward, &mut fwd);
    assert_eq!((fwd[0].edge_id, fwd[0].type_id, fwd[0].neighbor), (EdgeId(9), LabelId(1), NodeId(2)));
    let mut bwd = Vec::new();
    store.neighbors(200, Direction::Backward, &mut bwd);
    assert_eq!(bwd[0].neighbor, NodeId(1));
    let mut none = Vec::new();
    store.neighbors(100, Direction::Backward, &mut none);
    store.neighbors(200, Direction::Forward, &mut none);
    assert!(none.is_empty());
    assert_eq!(store.num_edges(LabelId(1)), 1);
    assert_eq!(store.scan_type(LabelId(1))[0].edge_id, EdgeId(9));
    assert_eq!(store.node_offsets().get(2), Some(&200));
    store.apply_command(&Command::DeleteEdge { edge_id: EdgeId(9) }).unwrap();
    store.neighbors(100, Direction::Forward, &mut none);
    store.neighbors(200, Direction::Backward, &mut none);
    assert!(none.is_empty());
    assert_eq!(store.get_edge(EdgeId(9), LabelId(1)), None);
}

// In memory

#[test]
fn a_node_inserted_twice_is_read_as_first_inserted() {
    let mut table = PlainNodeTable::new(node_schema(0, &[DataType::Int64]));
    table.insert_node(NodeId(1), &[num(1)]).unwrap();
    table.insert_node(NodeId(2), &[num(2)]).unwrap();
    table.insert_node(NodeId(1), &[num(3)]).unwrap();
    assert_eq!(table.num_nodes(), 3);
    assert_eq!(table.get_node(NodeId(1)), Ok(Some(vec![num(1)])));
    table.delete_node(NodeId(1)).unwrap();
    assert_eq!(table.get_node(NodeId(1)), Ok(Some(vec![num(3)])));
    table.delete_node(NodeId(1)).unwrap();
    assert_eq!(table.get_node(NodeId(1)), Ok(None));
    assert_eq!(table.get_node(NodeId(2)), Ok(Some(vec![num(2)])));
    assert_eq!(
        table.insert_node(NodeId(4), &[Some(PropertyValue::Bool(true))]),
        Err(mismatch())
    );
    assert_eq!(table.checked_num_nodes(), Some(1));
}

#[test]
fn a_refused_plain_edge_is_not_there() {
    let mut table = PlainEdgeTable::new(edge_schema(&[DataType::Int64, DataType::Int64]));
    table.insert_edge(EdgeId(1), NodeId(1), NodeId(2), &[num(1), num(2)]).unwrap();
    assert_eq!(
        table.insert_edge(
            EdgeId(2),
            NodeId(1),
            NodeId(2),
            &[num(3), Some(PropertyValue::Bool(true))]
        ),
        Err(mismatch())
    );
    assert_eq!(table.get_edge(EdgeId(2)), Ok(None));
    table.insert_edge(EdgeId(3), NodeId(1), NodeId(2), &[num(5), num(6)]).unwrap();
    assert_eq!(table.get_edge(EdgeId(1)).unwrap().unwrap().properties, vec![num(1), num(2)]);
    assert_eq!(table.get_edge(EdgeId(3)).unwrap().unwrap().properties, vec![num(3), num(6)]);
    table.delete_edge(EdgeId(1)).unwrap();
    assert_eq!(table.get_edge(EdgeId(1)), Ok(None));
    assert_eq!(table.checked_num_edges(), Some(1));
}

#[test]
fn a_refused_edge_is_not_among_the_neighbors() {
    let mut store = PlainEdgeStore::new(Catalog {
        node_labels: vec![],
        edge_types: vec![edge_schema(&[DataType::Int64])],
    });
    let create = |id: u64, value: PropertyValue| Command::CreateEdge {
        edge_id: EdgeId(id),
        type_id: LabelId(1),
        from: NodeId(1),
        to: NodeId(2),
        properties: vec![value],
    };
    store.apply_command(&create(1, PropertyValue::Int64(7))).unwrap();
    assert_eq!(store.apply_command(&create(2, PropertyValue::Bool(true))), Err(mismatch()));
    store.apply_command(&create(3, PropertyValue::Int64(8))).unwrap();
    let ids = |refs: &[cheguers_core::adjacency::EdgeRef]| -> Vec<u64> {
        refs.iter().map(|r| r.edge_id.0).collect()
    };
    assert_eq!(ids(store.neighbors(NodeId(1), Direction::Forward)), vec![1, 3]);
    assert_eq!(ids(store.neighbors(NodeId(2), Direction::Backward)), vec![1, 3]);
    store.apply_command(&Command::DeleteEdge { edge_id: EdgeId(1) }).unwrap();
    assert_eq!(ids(store.neighbors(NodeId(1), Direction::Forward)), vec![3]);
    assert_eq!(store.checked_num_edges(LabelId(1)), Some(1));
    assert_eq!(
        store.apply_command(&Command::DeleteEdge { edge_id: EdgeId(1) }),
        Err(StorageError::EdgeNotFound { edge_id: EdgeId(1) })
    );
}
