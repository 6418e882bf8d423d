use cheguers_core::catalog::{EdgeTypeEntry, PropertyDef};
use cheguers_core::config::StorageConfig;
use cheguers_core::error::StorageError;
use cheguers_core::storage::edge_group::EdgeGroup;
use cheguers_core::types::{
    ColumnId, DataType, EdgeId, LabelId, NodeGroupIdx, NodeId, PropertyValue, TableId,
};

fn knows_schema() -> EdgeTypeEntry {
    EdgeTypeEntry {
        table_id: TableId(1),
        label_id: LabelId(1),
        name: "Knows".to_string(),
        from_label_id: LabelId(0),
        to_label_id: LabelId(0),
        properties: vec![PropertyDef {
            name: "weight".to_string(),
            column_id: ColumnId(0),
            data_type: DataType::Float64,
            nullable: false,
        }],
    }
}

fn edge_values() -> Vec<Option<PropertyValue>> {
    vec![Some(PropertyValue::Float64(f64::to_bits(0.95)))]
}

#[test]
fn edge_group_insert_and_read_back() {
    let mut group = EdgeGroup::new(NodeGroupIdx(0), &knows_schema());
    let edge_id = EdgeId(1);
    let from = NodeId(10);
    let to = NodeId(20);

    let row = group
        .insert_row(edge_id, from, to, &edge_values())
        .expect("insert");
    assert_eq!(row, 0);

    let record = group.get_row(row).expect("get_row").expect("not deleted");
    assert_eq!(record.edge_id, edge_id);
    assert_eq!(record.from, from);
    assert_eq!(record.to, to);
    assert_eq!(record.properties[0], Some(PropertyValue::Float64(f64::to_bits(0.95))));
}

#[test]
fn find_edge() {
    let mut group = EdgeGroup::new(NodeGroupIdx(0), &knows_schema());
    let edge_id = EdgeId(1);

    group
        .insert_row(edge_id, NodeId(10), NodeId(20), &edge_values())
        .expect("insert");

    let row = group.find_edge(edge_id).expect("find");
    assert_eq!(row, 0);

    assert_eq!(group.find_edge(EdgeId(999)), None);
}

#[test]
fn edge_group_delete_hides_row() {
    let mut group = EdgeGroup::new(NodeGroupIdx(0), &knows_schema());
    let edge_id = EdgeId(1);

    let row = group
        .insert_row(edge_id, NodeId(10), NodeId(20), &edge_values())
        .expect("insert");

    assert_eq!(group.num_live_rows(), 1);
    group.delete_row(row).expect("delete");
    assert_eq!(group.num_live_rows(), 0);

    let record = group.get_row(row).expect("get_row");
    assert_eq!(record, None);

    let found = group.find_edge(edge_id);
    assert_eq!(found, None);
}

#[test]
fn edge_group_delete_out_of_bounds_returns_error() {
    let mut group = EdgeGroup::new(NodeGroupIdx(0), &knows_schema());
    let err = group.delete_row(0).expect_err("should error");
    assert_eq!(
        err,
        StorageError::RowOutOfBounds {
            row: 0,
            len: 0
        }
    );
}

#[test]
fn edge_group_full_group_rejects_insert() {
    let mut group = EdgeGroup::new(NodeGroupIdx(0), &knows_schema());

    for i in 0..StorageConfig::NODE_GROUP_SIZE {
        let edge_id = EdgeId(i as u64);
        group
            .insert_row(edge_id, NodeId(10), NodeId(20), &edge_values())
            .expect("insert");
    }

    assert!(group.is_full());
    let err = group
        .insert_row(
            EdgeId(StorageConfig::NODE_GROUP_SIZE as u64),
            NodeId(10),
            NodeId(20),
            &edge_values(),
        )
        .expect_err("should be full");
    assert_eq!(err, StorageError::EdgeGroupFull);
}

#[test]
fn zero_property_schema() {
    let schema = EdgeTypeEntry {
        table_id: TableId(1),
        label_id: LabelId(1),
        name: "Links".to_string(),
        from_label_id: LabelId(0),
        to_label_id: LabelId(0),
        properties: vec![],
    };

    let mut group = EdgeGroup::new(NodeGroupIdx(0), &schema);
    let row = group
        .insert_row(EdgeId(1), NodeId(10), NodeId(20), &[])
        .expect("insert");

    let record = group.get_row(row).expect("get_row").expect("not deleted");
    assert_eq!(record.edge_id, EdgeId(1));
    assert_eq!(record.from, NodeId(10));
    assert_eq!(record.to, NodeId(20));
    assert!(record.properties.is_empty());
}
