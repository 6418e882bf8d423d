use cheguers_core::catalog::{Catalog, NodeLabelEntry, PropertyDef};
use cheguers_core::command::Command;
use cheguers_core::error::StorageError;
use cheguers_core::storage::node_store::NodeStore;
use cheguers_core::types::{ColumnId, DataType, EdgeId, LabelId, NodeId, PropertyValue, TableId};

fn catalog_with_person() -> Catalog {
    Catalog {
        node_labels: vec![NodeLabelEntry {
            table_id:     TableId(0),
            label_id:     LabelId(0),
            name:         "Person".into(),
            pk_column_id: ColumnId(0),
            properties:   vec![
                PropertyDef {
                    name:      "name".into(),
                    column_id: ColumnId(0),
                    data_type: DataType::String,
                    nullable:  false,
                },
                PropertyDef {
                    name:      "age".into(),
                    column_id: ColumnId(1),
                    data_type: DataType::Int64,
                    nullable:  true,
                },
            ],
        }],
        edge_types: vec![],
    }
}

fn create_person(id: u64, name: &str, age: i64) -> Command {
    Command::CreateNode {
        node_id:    NodeId(id),
        label_id:   LabelId(0),
        properties: vec![PropertyValue::String(name.into()), PropertyValue::Int64(age)],
    }
}

#[test]
fn create_and_read_node() {
    let mut store = NodeStore::new(catalog_with_person());
    store.apply_command(&create_person(1, "Alice", 30)).unwrap();

    let props = store.get_node(NodeId(1), LabelId(0)).unwrap();
    assert_eq!(props[0], Some(PropertyValue::String("Alice".into())));
    assert_eq!(props[1], Some(PropertyValue::Int64(30)));
}

#[test]
fn delete_node_via_command() {
    let mut store = NodeStore::new(catalog_with_person());
    store.apply_command(&create_person(1, "Alice", 30)).unwrap();
    assert_eq!(store.num_nodes(LabelId(0)), 1);

    store.apply_command(&Command::DeleteNode { node_id: NodeId(1) }).unwrap();
    assert_eq!(store.num_nodes(LabelId(0)), 0);
    assert!(store.get_node(NodeId(1), LabelId(0)).is_none());
}

#[test]
fn node_store_delete_missing_node_returns_error() {
    let mut store = NodeStore::new(catalog_with_person());
    let result = store.apply_command(&Command::DeleteNode { node_id: NodeId(99) });
    assert!(matches!(result, Err(StorageError::NodeNotFound { node_id: NodeId(99) })));
}

#[test]
fn unknown_label_returns_error() {
    let mut store = NodeStore::new(catalog_with_person());
    let cmd = Command::CreateNode {
        node_id:    NodeId(1),
        label_id:   LabelId(99),
        properties: vec![],
    };
    assert!(matches!(
        store.apply_command(&cmd),
        Err(StorageError::LabelNotFound { label_id: LabelId(99) })
    ));
}

#[test]
fn node_store_replay_sequence() {
    let mut store = NodeStore::new(catalog_with_person());
    for i in 0..10u64 {
        store.apply_command(&create_person(i, "X", i as i64)).unwrap();
    }
    for i in (0..10u64).step_by(2) {
        store.apply_command(&Command::DeleteNode { node_id: NodeId(i) }).unwrap();
    }
    assert_eq!(store.num_nodes(LabelId(0)), 5);

    let ids: Vec<u64> = store.scan_label(LabelId(0)).into_iter().map(|r| r.node_id.0).collect();
    assert_eq!(ids, vec![1, 3, 5, 7, 9]);
}

#[test]
fn edge_command_is_ignored() {
    let mut store = NodeStore::new(catalog_with_person());
    let cmd = Command::CreateEdge {
        edge_id:    EdgeId(1),
        type_id:    LabelId(0),
        from:       NodeId(1),
        to:         NodeId(2),
        properties: vec![],
    };
    assert!(store.apply_command(&cmd).is_ok());
}

#[test]
fn scan_unknown_label_returns_empty_iter() {
    let store = NodeStore::new(catalog_with_person());
    assert_eq!(store.scan_label(LabelId(99)).len(), 0);
}
