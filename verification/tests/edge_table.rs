use cheguers_core::catalog::{EdgeTypeEntry, PropertyDef};
use cheguers_core::config::StorageConfig;
use cheguers_core::error::StorageError;
use cheguers_core::types::{
    ColumnId, DataType, Direction, EdgeId, LabelId, NodeId, PropertyValue, TableId,
};
use cheguers_core::EdgeTable;

fn knows_schema() -> EdgeTypeEntry {
    EdgeTypeEntry {
        table_id:      TableId(1),
        label_id:      LabelId(1),
        name:          "Knows".into(),
        from_label_id: LabelId(0),
        to_label_id:   LabelId(0),
        properties:    vec![PropertyDef {
            name:      "weight".into(),
            column_id: ColumnId(0),
            data_type: DataType::Float64,
            nullable:  false,
        }],
    }
}

fn ev(weight: f64) -> Vec<Option<PropertyValue>> {
    vec![Some(PropertyValue::Float64(f64::to_bits(weight)))]
}

#[test]
fn edge_table_single_insert_and_get() {
    let mut table = EdgeTable::new(knows_schema());
    table.insert_edge(EdgeId(1), NodeId(10), NodeId(20), 100, 200, &ev(0.95)).unwrap();
    let record = table.get_edge(EdgeId(1)).unwrap().unwrap();
    assert_eq!(record.edge_id, EdgeId(1));
}

#[test]
fn neighbors_csr() {
    let mut table = EdgeTable::new(knows_schema());
    table.insert_edge(EdgeId(1), NodeId(10), NodeId(20), 100, 200, &ev(0.5)).unwrap();
    table.insert_edge(EdgeId(2), NodeId(10), NodeId(30), 100, 300, &ev(0.7)).unwrap();

    let mut fwd = Vec::new();
    table.neighbors_into(100, Direction::Forward, &mut fwd);
    assert_eq!(fwd.len(), 2);
    assert!(fwd.iter().any(|r| r.neighbor == NodeId(20)));
    assert!(fwd.iter().any(|r| r.neighbor == NodeId(30)));

    let mut bwd = Vec::new();
    table.neighbors_into(300, Direction::Backward, &mut bwd);
    assert_eq!(bwd.len(), 1);
    assert_eq!(bwd[0].neighbor, NodeId(10));
}

#[test]
fn edge_table_delete_edge() {
    let mut table = EdgeTable::new(knows_schema());
    table.insert_edge(EdgeId(1), NodeId(10), NodeId(20), 100, 200, &ev(0.5)).unwrap();
    assert_eq!(table.num_edges(), 1);
    table.delete_edge(EdgeId(1)).unwrap();
    assert_eq!(table.num_edges(), 0);
    assert!(table.get_edge(EdgeId(1)).unwrap().is_none());
}

#[test]
fn edge_table_delete_missing_edge_returns_error() {
    let mut table = EdgeTable::new(knows_schema());
    assert!(matches!(table.delete_edge(EdgeId(999)), Err(StorageError::EdgeNotFound { .. })));
}

#[test]
fn edge_table_scan_iterator_skips_deleted() {
    let mut table = EdgeTable::new(knows_schema());
    for i in 0..5 {
        table.insert_edge(EdgeId(i), NodeId(10), NodeId(20 + i), 100, 200 + i, &ev(0.5)).unwrap();
    }
    table.delete_edge(EdgeId(1)).unwrap();
    table.delete_edge(EdgeId(3)).unwrap();

    let collected: Vec<_> = table.iter().into_iter().map(|r| r.edge_id).collect();
    assert_eq!(collected, vec![EdgeId(0), EdgeId(2), EdgeId(4)]);
}

#[test]
fn edge_table_scan_empty_table() {
    let table = EdgeTable::new(knows_schema());
    assert_eq!(table.iter().len(), 0);
}

#[test]
fn edge_table_multi_group_overflow() {
    let mut table = EdgeTable::new(knows_schema());
    let total = StorageConfig::NODE_GROUP_SIZE + 100;
    for i in 0..total {
        table.insert_edge(EdgeId(i), NodeId(10), NodeId(20), i, 200 + i, &ev(0.5)).unwrap();
    }
    assert!(table.num_groups() > 1);
    assert_eq!(table.num_edges(), total);
}
