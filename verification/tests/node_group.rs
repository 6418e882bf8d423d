use cheguers_core::catalog::{NodeLabelEntry, PropertyDef};
use cheguers_core::config::StorageConfig;
use cheguers_core::error::StorageError;
use cheguers_core::table::node::NodeGroup;
use cheguers_core::types::{ColumnId, DataType, LabelId, NodeGroupIdx, NodeId, PropertyValue, TableId};

fn person_schema() -> NodeLabelEntry {
    NodeLabelEntry {
        table_id:     TableId(0),
        label_id:     LabelId(0),
        name:         "Person".into(),
        pk_column_id: ColumnId(0),
        properties:   vec![
            PropertyDef {
                name:      "name".into(),
                column_id: ColumnId(0),
                data_type: DataType::String,
                nullable:  false,
            },
            PropertyDef {
                name:      "age".into(),
                column_id: ColumnId(1),
                data_type: DataType::Int64,
                nullable:  true,
            },
        ],
    }
}

fn person_values(name: &str, age: i64) -> Vec<Option<PropertyValue>> {
    vec![Some(PropertyValue::String(name.into())), Some(PropertyValue::Int64(age))]
}

#[test]
fn node_insert_and_read_back() {
    let schema = person_schema();
    let mut group = NodeGroup::new(NodeGroupIdx(0), &schema);

    let row = group.insert_row(NodeId(1), &person_values("Alice", 30)).unwrap();
    assert_eq!(row, 0);

    let values = group.get_row(0).unwrap().unwrap();
    assert_eq!(values[0], Some(PropertyValue::String("Alice".into())));
    assert_eq!(values[1], Some(PropertyValue::Int64(30)));
}

#[test]
fn find_node() {
    let schema = person_schema();
    let mut group = NodeGroup::new(NodeGroupIdx(0), &schema);
    group.insert_row(NodeId(10), &person_values("Bob", 25)).unwrap();
    group.insert_row(NodeId(20), &person_values("Carol", 40)).unwrap();

    assert_eq!(group.find_node(NodeId(10)), Some(0));
    assert_eq!(group.find_node(NodeId(20)), Some(1));
    assert_eq!(group.find_node(NodeId(99)), None);
}

#[test]
fn node_delete_hides_row() {
    let schema = person_schema();
    let mut group = NodeGroup::new(NodeGroupIdx(0), &schema);
    group.insert_row(NodeId(1), &person_values("Alice", 30)).unwrap();
    group.insert_row(NodeId(2), &person_values("Bob", 25)).unwrap();

    assert_eq!(group.num_live_rows(), 2);
    group.delete_row(0).unwrap();
    assert_eq!(group.num_live_rows(), 1);

    assert_eq!(group.get_row(0).unwrap(), None);
    assert_eq!(group.find_node(NodeId(1)), None);
    assert!(group.get_row(1).unwrap().is_some());
}

#[test]
fn node_delete_out_of_bounds_returns_error() {
    let schema = person_schema();
    let mut group = NodeGroup::new(NodeGroupIdx(0), &schema);
    assert!(matches!(
        group.delete_row(0),
        Err(StorageError::RowOutOfBounds { .. })
    ));
}

#[test]
fn node_full_group_rejects_insert() {
    let schema = NodeLabelEntry {
        table_id:     TableId(0),
        label_id:     LabelId(0),
        name:         "T".into(),
        pk_column_id: ColumnId(0),
        properties:   vec![PropertyDef {
            name:      "flag".into(),
            column_id: ColumnId(0),
            data_type: DataType::Bool,
            nullable:  false,
        }],
    };
    let mut group = NodeGroup::new(NodeGroupIdx(0), &schema);
    for i in 0..StorageConfig::NODE_GROUP_SIZE {
        group
            .insert_row(NodeId(i), &[Some(PropertyValue::Bool(true))])
            .unwrap();
    }
    assert!(group.is_full());
    let result = group.insert_row(NodeId(u64::MAX), &[Some(PropertyValue::Bool(false))]);
    assert!(matches!(result, Err(StorageError::NodeGroupFull)));
}

#[test]
fn overflow_into_second_chunk() {
    let schema = NodeLabelEntry {
        table_id:     TableId(0),
        label_id:     LabelId(0),
        name:         "T".into(),
        pk_column_id: ColumnId(0),
        properties:   vec![PropertyDef {
            name:      "flag".into(),
            column_id: ColumnId(0),
            data_type: DataType::Bool,
            nullable:  false,
        }],
    };
    let mut group = NodeGroup::new(NodeGroupIdx(0), &schema);
    let cap = StorageConfig::CHUNKED_NODE_GROUP_CAPACITY;
    for i in 0..cap + 1 {
        group.insert_row(NodeId(i), &[Some(PropertyValue::Bool(true))]).unwrap();
    }
    assert_eq!(group.num_rows(), cap + 1);
    assert_eq!(group.num_chunks(), 2);
    assert!(group.get_row(0).unwrap().is_some());
    assert!(group.get_row(cap - 1).unwrap().is_some());
    assert!(group.get_row(cap).unwrap().is_some());
}

#[test]
fn find_node_across_chunks() {
    let schema = person_schema();
    let mut group = NodeGroup::new(NodeGroupIdx(0), &schema);
    let cap = StorageConfig::CHUNKED_NODE_GROUP_CAPACITY;
    for i in 0..cap {
        group.insert_row(NodeId(i), &person_values("X", i as i64)).unwrap();
    }
    group.insert_row(NodeId(cap), &person_values("Target", 42)).unwrap();

    assert_eq!(group.find_node(NodeId(0)), Some(0));
    assert_eq!(group.find_node(NodeId(cap - 1)), Some(cap - 1));
    assert_eq!(group.find_node(NodeId(cap)), Some(cap));
}

#[test]
fn delete_across_chunks() {
    let schema = person_schema();
    let mut group = NodeGroup::new(NodeGroupIdx(0), &schema);
    let cap = StorageConfig::CHUNKED_NODE_GROUP_CAPACITY;
    for i in 0..cap + 2 {
        group.insert_row(NodeId(i), &person_values("X", i as i64)).unwrap();
    }
    group.delete_row(cap - 1).unwrap();
    group.delete_row(cap).unwrap();

    assert!(group.get_row(cap - 1).unwrap().is_none());
    assert!(group.get_row(cap).unwrap().is_none());
    assert!(group.get_row(cap - 2).unwrap().is_some());
    assert!(group.get_row(cap + 1).unwrap().is_some());
}

#[test]
fn node_serde_roundtrip() {
    let schema = person_schema();
    let mut group = NodeGroup::new(NodeGroupIdx(0), &schema);
    group.insert_row(NodeId(1), &person_values("Alice", 30)).unwrap();
    group.insert_row(NodeId(2), &person_values("Bob", 25)).unwrap();
    group.insert_row(NodeId(3), &person_values("Carol", 40)).unwrap();

    let pages = group.serialize_to_pages().unwrap();
    let restored = NodeGroup::deserialize_from_pages(&schema, NodeGroupIdx(0), &pages).unwrap();

    assert_eq!(restored.num_rows(), 3);
    assert_eq!(restored.num_live_rows(), 3);
    assert_eq!(restored.find_node(NodeId(1)), Some(0));
    assert_eq!(restored.find_node(NodeId(3)), Some(2));

    let row0 = restored.get_row(0).unwrap().unwrap();
    assert_eq!(row0[0], Some(PropertyValue::String("Alice".into())));
    assert_eq!(row0[1], Some(PropertyValue::Int64(30)));
}

#[test]
fn serde_with_deletes() {
    let schema = person_schema();
    let mut group = NodeGroup::new(NodeGroupIdx(0), &schema);
    group.insert_row(NodeId(1), &person_values("Alice", 30)).unwrap();
    group.insert_row(NodeId(2), &person_values("Bob", 25)).unwrap();
    group.delete_row(0).unwrap();

    let pages = group.serialize_to_pages().unwrap();
    let restored = NodeGroup::deserialize_from_pages(&schema, NodeGroupIdx(0), &pages).unwrap();

    assert_eq!(restored.num_rows(), 2);
    assert_eq!(restored.num_live_rows(), 1);
    assert_eq!(restored.get_row(0).unwrap(), None);
    assert!(restored.get_row(1).unwrap().is_some());
    assert_eq!(restored.find_node(NodeId(1)), None);
}

#[test]
fn serde_empty_group() {
    let schema = person_schema();
    let group = NodeGroup::new(NodeGroupIdx(5), &schema);
    let pages = group.serialize_to_pages().unwrap();
    assert!(!pages.is_empty());
    let restored = NodeGroup::deserialize_from_pages(&schema, NodeGroupIdx(5), &pages).unwrap();
    assert_eq!(restored.num_rows(), 0);
}

#[test]
fn serde_multi_chunk_roundtrip() {
    let schema = NodeLabelEntry {
        table_id:     TableId(0),
        label_id:     LabelId(0),
        name:         "T".into(),
        pk_column_id: ColumnId(0),
        properties:   vec![PropertyDef {
            name:      "val".into(),
            column_id: ColumnId(0),
            data_type: DataType::Int64,
            nullable:  false,
        }],
    };
    let mut group = NodeGroup::new(NodeGroupIdx(7), &schema);
    let cap = StorageConfig::CHUNKED_NODE_GROUP_CAPACITY;
    for i in 0..cap + 5 {
        group.insert_row(NodeId(i), &[Some(PropertyValue::Int64(i as i64))]).unwrap();
    }
    group.delete_row(0).unwrap();
    group.delete_row(cap).unwrap();
    group.delete_row(cap + 1).unwrap();

    let pages = group.serialize_to_pages().unwrap();
    let restored = NodeGroup::deserialize_from_pages(&schema, NodeGroupIdx(7), &pages).unwrap();

    assert_eq!(restored.num_rows(), cap + 5);
    assert_eq!(restored.num_live_rows(), cap + 2);
    assert!(restored.get_row(0).unwrap().is_none());
    assert!(restored.get_row(1).unwrap().is_some());
    assert_eq!(restored.get_row(1).unwrap().unwrap()[0], Some(PropertyValue::Int64(1)));
    assert!(restored.get_row(cap).unwrap().is_none());
    assert!(restored.get_row(cap + 1).unwrap().is_none());
    assert!(restored.get_row(cap + 2).unwrap().is_some());
    assert_eq!(restored.get_row(cap + 2).unwrap().unwrap()[0], Some(PropertyValue::Int64((cap + 2) as i64)));
}
