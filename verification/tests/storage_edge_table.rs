use cheguers_core::catalog::{EdgeTypeEntry, PropertyDef};
use cheguers_core::config::StorageConfig;
use cheguers_core::error::StorageError;
use cheguers_core::storage::edge_table::EdgeTable;
use cheguers_core::types::{ColumnId, DataType, EdgeId, LabelId, NodeId, PropertyValue, TableId};

fn knows_schema() -> EdgeTypeEntry {
    EdgeTypeEntry {
        table_id: TableId(1),
        label_id: LabelId(1),
        name: "Knows".to_string(),
        from_label_id: LabelId(0),
        to_label_id: LabelId(0),
        properties: vec![PropertyDef {
            name: "weight".to_string(),
            column_id: ColumnId(0),
            data_type: DataType::Float64,
            nullable: false,
        }],
    }
}

fn edge_values() -> Vec<Option<PropertyValue>> {
    vec![Some(PropertyValue::Float64(f64::to_bits(0.95)))]
}

#[test]
fn storage_edge_table_single_insert_and_get() {
    let mut table = EdgeTable::new(knows_schema());
    let edge_id = EdgeId(1);

    table
        .insert_edge(edge_id, NodeId(10), NodeId(20), &edge_values())
        .expect("insert");

    let record = table.get_edge(edge_id).expect("get").expect("found");
    assert_eq!(record.edge_id, edge_id);
}

#[test]
fn storage_edge_table_delete_edge() {
    let mut table = EdgeTable::new(knows_schema());
    let edge_id = EdgeId(1);

    table
        .insert_edge(edge_id, NodeId(10), NodeId(20), &edge_values())
        .expect("insert");

    assert_eq!(table.num_edges(), 1);
    table.delete_edge(edge_id).expect("delete");
    assert_eq!(table.num_edges(), 0);

    let record = table.get_edge(edge_id).expect("get");
    assert_eq!(record, None);
}

#[test]
fn storage_edge_table_delete_missing_edge_returns_error() {
    let mut table = EdgeTable::new(knows_schema());
    let err = table
        .delete_edge(EdgeId(999))
        .expect_err("should be not found");
    assert_eq!(
        err,
        StorageError::EdgeNotFound {
            edge_id: EdgeId(999)
        }
    );
}

#[test]
fn storage_edge_table_multi_group_overflow() {
    let mut table = EdgeTable::new(knows_schema());

    for i in 0..StorageConfig::NODE_GROUP_SIZE + 100 {
        table
            .insert_edge(
                EdgeId(i as u64),
                NodeId(10),
                NodeId(20),
                &edge_values(),
            )
            .expect("insert");
    }

    assert!(table.num_groups() > 1);
}

#[test]
fn storage_edge_table_scan_iterator_skips_deleted() {
    let mut table = EdgeTable::new(knows_schema());

    for i in 0..5 {
        table
            .insert_edge(
                EdgeId(i),
                NodeId(10),
                NodeId(20),
                &edge_values(),
            )
            .expect("insert");
    }

    table.delete_edge(EdgeId(1)).expect("delete 1");
    table.delete_edge(EdgeId(3)).expect("delete 3");

    let collected: Vec<_> = table.iter().into_iter().map(|r| r.edge_id).collect();
    assert_eq!(collected, vec![EdgeId(0), EdgeId(2), EdgeId(4)]);
}

#[test]
fn storage_edge_table_scan_empty_table() {
    let table = EdgeTable::new(knows_schema());
    assert_eq!(table.iter().len(), 0);
}
