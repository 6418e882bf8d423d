use cheguers_core::catalog::{EdgeTypeEntry, PropertyDef};
use cheguers_core::config::StorageConfig;
use cheguers_core::table::edge::CSREdgeGroup;
use cheguers_core::types::{
    ColumnId, DataType, Direction, EdgeId, LabelId, NodeGroupIdx, NodeId, NodeOffset, PropertyValue,
    TableId,
};

fn knows_schema() -> EdgeTypeEntry {
    EdgeTypeEntry {
        table_id:      TableId(1),
        label_id:      LabelId(1),
        name:          "Knows".into(),
        from_label_id: LabelId(0),
        to_label_id:   LabelId(0),
        properties:    vec![PropertyDef {
            name:      "weight".into(),
            column_id: ColumnId(0),
            data_type: DataType::Float64,
            nullable:  false,
        }],
    }
}

fn edge_values(weight: f64) -> Vec<Option<PropertyValue>> {
    vec![Some(PropertyValue::Float64(f64::to_bits(weight)))]
}

fn in_range(group_idx: u64) -> NodeOffset {
    group_idx * StorageConfig::NODE_GROUP_SIZE
}

#[test]
fn edge_insert_and_read_back() {
    let base = in_range(0);
    let mut group = CSREdgeGroup::new(NodeGroupIdx(0), Direction::Forward, &knows_schema());
    let row = group
        .insert_edge(base + 100, EdgeId(1), NodeId(10), NodeId(20), &edge_values(0.95))
        .unwrap();
    assert_eq!(row, 0);
    let record = group.get_row(0).unwrap().unwrap();
    assert_eq!(record.edge_id, EdgeId(1));
    assert_eq!(record.from, NodeId(10));
    assert_eq!(record.to, NodeId(20));
    assert_eq!(record.properties[0], Some(PropertyValue::Float64(f64::to_bits(0.95))));
}

#[test]
fn insert_out_of_range_rejects() {
    let mut group = CSREdgeGroup::new(NodeGroupIdx(0), Direction::Forward, &knows_schema());
    let offset_outside = StorageConfig::NODE_GROUP_SIZE + 1;
    let result = group.insert_edge(offset_outside, EdgeId(1), NodeId(10), NodeId(20), &edge_values(0.5));
    assert!(result.is_err());
}

#[test]
fn find_edges_by_offset() {
    let base = in_range(0);
    let mut group = CSREdgeGroup::new(NodeGroupIdx(0), Direction::Forward, &knows_schema());
    group.insert_edge(base + 100, EdgeId(1), NodeId(10), NodeId(20), &edge_values(0.5)).unwrap();
    group.insert_edge(base + 100, EdgeId(2), NodeId(10), NodeId(30), &edge_values(0.7)).unwrap();
    group.insert_edge(base + 200, EdgeId(3), NodeId(50), NodeId(60), &edge_values(0.3)).unwrap();

    assert_eq!(group.find_edges(base + 100).count(), 2);
    assert_eq!(group.find_edges(base + 200).count(), 1);
    assert_eq!(group.find_edges(base + 999).count(), 0);
}

#[test]
fn sequential_optimization_stays_compact() {
    let base = in_range(0);
    let mut group = CSREdgeGroup::new(NodeGroupIdx(0), Direction::Forward, &knows_schema());
    for i in 0..100u64 {
        group.insert_edge(base, EdgeId(i), NodeId(10), NodeId(20 + i), &edge_values(0.5)).unwrap();
    }
    let rows: Vec<_> = group.find_edges(base).collect();
    assert_eq!(rows.len(), 100);
    assert_eq!(rows[0], 0);
    assert_eq!(rows[99], 99);
}

#[test]
fn out_of_order_explodes_to_sparse() {
    let base = in_range(0);
    let mut group = CSREdgeGroup::new(NodeGroupIdx(0), Direction::Forward, &knows_schema());
    group.insert_edge(base, EdgeId(1), NodeId(10), NodeId(20), &edge_values(0.5)).unwrap();
    group.insert_edge(base, EdgeId(2), NodeId(10), NodeId(30), &edge_values(0.7)).unwrap();
    group.insert_edge(base, EdgeId(3), NodeId(50), NodeId(60), &edge_values(0.3)).unwrap();
    group.insert_edge(base + 1, EdgeId(4), NodeId(11), NodeId(21), &edge_values(0.1)).unwrap();

    assert_eq!(group.find_edges(base).count(), 3);
}

#[test]
fn edge_delete_hides_row() {
    let base = in_range(0);
    let mut group = CSREdgeGroup::new(NodeGroupIdx(0), Direction::Forward, &knows_schema());
    group.insert_edge(base + 100, EdgeId(1), NodeId(10), NodeId(20), &edge_values(0.5)).unwrap();
    assert_eq!(group.num_live_rows(), 1);
    assert_eq!(group.find_edges(base + 100).count(), 1);

    group.delete_row(0).unwrap();
    assert_eq!(group.num_live_rows(), 0);
    assert_eq!(group.find_edges(base + 100).count(), 0);
    assert_eq!(group.get_row(0).unwrap(), None);
}

#[test]
fn edge_serde_roundtrip() {
    let base = in_range(0);
    let mut group = CSREdgeGroup::new(NodeGroupIdx(0), Direction::Forward, &knows_schema());
    group.insert_edge(base + 100, EdgeId(1), NodeId(10), NodeId(20), &edge_values(0.5)).unwrap();
    group.insert_edge(base + 100, EdgeId(2), NodeId(10), NodeId(30), &edge_values(0.7)).unwrap();
    group.insert_edge(base + 200, EdgeId(3), NodeId(50), NodeId(60), &edge_values(0.3)).unwrap();

    let pages = group.serialize_to_pages().unwrap();
    let restored = CSREdgeGroup::deserialize_from_pages(
        Direction::Forward,
        &knows_schema(),
        NodeGroupIdx(0),
        &pages,
    )
    .unwrap();

    assert_eq!(restored.num_rows(), 3);
    assert_eq!(restored.num_live_rows(), 3);
    assert_eq!(restored.find_edges(base + 100).count(), 2);
    assert_eq!(restored.find_edges(base + 200).count(), 1);

    let row0 = restored.get_row(0).unwrap().unwrap();
    assert_eq!(row0.edge_id, EdgeId(1));
    assert_eq!(row0.properties[0], Some(PropertyValue::Float64(f64::to_bits(0.5))));
}

#[test]
fn serde_sequential_compactness() {
    let base = in_range(0);
    let mut group = CSREdgeGroup::new(NodeGroupIdx(0), Direction::Forward, &knows_schema());
    for i in 0..50u64 {
        group.insert_edge(base, EdgeId(i), NodeId(10), NodeId(20 + i), &edge_values(0.5)).unwrap();
    }
    let pages = group.serialize_to_pages().unwrap();
    let restored = CSREdgeGroup::deserialize_from_pages(
        Direction::Forward,
        &knows_schema(),
        NodeGroupIdx(0),
        &pages,
    )
    .unwrap();
    assert_eq!(restored.num_rows(), 50);
    assert_eq!(restored.find_edges(base).count(), 50);
}

#[test]
fn dirty_regions_tracked() {
    let base = in_range(0);
    let mut group = CSREdgeGroup::new(NodeGroupIdx(0), Direction::Forward, &knows_schema());
    assert_eq!(group.dirty_regions(), 0);
    group.insert_edge(base + 50, EdgeId(1), NodeId(10), NodeId(20), &edge_values(0.5)).unwrap();
    assert_ne!(group.dirty_regions(), 0, "region 0 should be dirty");
    group.clear_dirty_regions();
    assert_eq!(group.dirty_regions(), 0);
}

#[test]
fn delete_sequential_explodes_and_removes() {
    let base = in_range(0);
    let mut group = CSREdgeGroup::new(NodeGroupIdx(0), Direction::Forward, &knows_schema());
    group.insert_edge(base, EdgeId(1), NodeId(10), NodeId(20), &edge_values(0.5)).unwrap();
    group.insert_edge(base, EdgeId(2), NodeId(10), NodeId(30), &edge_values(0.7)).unwrap();
    group.insert_edge(base, EdgeId(3), NodeId(10), NodeId(40), &edge_values(0.9)).unwrap();
    group.delete_row(1).unwrap();
    let rows: Vec<_> = group.find_edges(base).collect();
    assert_eq!(rows, vec![0, 2]);
}
