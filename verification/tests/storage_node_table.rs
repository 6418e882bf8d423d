use cheguers_core::catalog::{NodeLabelEntry, PropertyDef};
use cheguers_core::config::StorageConfig;
use cheguers_core::error::StorageError;
use cheguers_core::storage::node_table::NodeTable;
use cheguers_core::types::{ColumnId, DataType, LabelId, NodeId, PropertyValue, TableId};

fn person_schema() -> NodeLabelEntry {
    NodeLabelEntry {
        table_id:     TableId(0),
        label_id:     LabelId(0),
        name:         "Person".into(),
        pk_column_id: ColumnId(0),
        properties:   vec![
            PropertyDef {
                name:      "name".into(),
                column_id: ColumnId(0),
                data_type: DataType::String,
                nullable:  false,
            },
            PropertyDef {
                name:      "age".into(),
                column_id: ColumnId(1),
                data_type: DataType::Int64,
                nullable:  true,
            },
        ],
    }
}

fn pv(name: &str, age: i64) -> Vec<Option<PropertyValue>> {
    vec![Some(PropertyValue::String(name.into())), Some(PropertyValue::Int64(age))]
}

#[test]
fn storage_node_table_single_insert_and_get() {
    let mut table = NodeTable::new(person_schema());
    table.insert_node(NodeId(1), &pv("Alice", 30)).unwrap();
    let props = table.get_node(NodeId(1)).unwrap().unwrap();
    assert_eq!(props[0], Some(PropertyValue::String("Alice".into())));
    assert_eq!(props[1], Some(PropertyValue::Int64(30)));
}

#[test]
fn storage_node_table_delete_node() {
    let mut table = NodeTable::new(person_schema());
    table.insert_node(NodeId(1), &pv("Alice", 30)).unwrap();
    assert_eq!(table.num_nodes(), 1);
    table.delete_node(NodeId(1)).unwrap();
    assert_eq!(table.num_nodes(), 0);
    assert!(table.get_node(NodeId(1)).unwrap().is_none());
}

#[test]
fn storage_node_table_delete_missing_node_returns_error() {
    let mut table = NodeTable::new(person_schema());
    assert!(matches!(
        table.delete_node(NodeId(99)),
        Err(StorageError::NodeNotFound { node_id: NodeId(99) })
    ));
}

#[test]
fn storage_node_table_multi_group_overflow() {
    let schema = NodeLabelEntry {
        table_id:     TableId(0),
        label_id:     LabelId(0),
        name:         "T".into(),
        pk_column_id: ColumnId(0),
        properties:   vec![PropertyDef {
            name:      "flag".into(),
            column_id: ColumnId(0),
            data_type: DataType::Bool,
            nullable:  false,
        }],
    };
    let mut table = NodeTable::new(schema);
    let total = StorageConfig::NODE_GROUP_SIZE + 1;
    for i in 0..total {
        table.insert_node(NodeId(i), &[Some(PropertyValue::Bool(true))]).unwrap();
    }
    assert_eq!(table.num_groups(), 2);
    assert_eq!(table.num_nodes(), total);
}

#[test]
fn storage_node_table_scan_iterator_skips_deleted() {
    let mut table = NodeTable::new(person_schema());
    table.insert_node(NodeId(1), &pv("Alice", 30)).unwrap();
    table.insert_node(NodeId(2), &pv("Bob", 25)).unwrap();
    table.insert_node(NodeId(3), &pv("Carol", 40)).unwrap();
    table.delete_node(NodeId(2)).unwrap();

    let records: Vec<_> = table.iter().into_iter().collect();
    assert_eq!(records.len(), 2);
    assert_eq!(records[0].node_id, NodeId(1));
    assert_eq!(records[1].node_id, NodeId(3));
}

#[test]
fn storage_node_table_scan_empty_table() {
    let table = NodeTable::new(person_schema());
    assert_eq!(table.iter().len(), 0);
}
