use cheguers_core::config::StorageConfig;
use cheguers_core::error::StorageError;
use cheguers_core::table::chunked_node_group::ChunkedNodeGroup;
use cheguers_core::types::{ColumnId, DataType, NodeId, PropertyValue};

fn columns_schema() -> Vec<(ColumnId, DataType)> {
    vec![
        (ColumnId(0), DataType::String),
        (ColumnId(1), DataType::Int64),
    ]
}

fn person_values(name: &str, age: i64) -> Vec<Option<PropertyValue>> {
    vec![Some(PropertyValue::String(name.into())), Some(PropertyValue::Int64(age))]
}

#[test]
fn insert_and_read_back_local() {
    let schema = columns_schema();
    let mut chunk = ChunkedNodeGroup::new(0, &schema);

    let global = chunk.insert_row(NodeId(1), &person_values("Alice", 30)).unwrap();
    assert_eq!(global, 0);

    let row = chunk.get_row_local(0).unwrap().unwrap();
    assert_eq!(row[0], Some(PropertyValue::String("Alice".into())));
    assert_eq!(row[1], Some(PropertyValue::Int64(30)));
}

#[test]
fn find_node_local() {
    let schema = columns_schema();
    let mut chunk = ChunkedNodeGroup::new(0, &schema);
    chunk.insert_row(NodeId(10), &person_values("Bob", 25)).unwrap();
    chunk.insert_row(NodeId(20), &person_values("Carol", 40)).unwrap();

    assert_eq!(chunk.find_node_local(NodeId(10)), Some(0));
    assert_eq!(chunk.find_node_local(NodeId(20)), Some(1));
    assert_eq!(chunk.find_node_local(NodeId(99)), None);
}

#[test]
fn chunked_node_group_delete_hides_row() {
    let schema = columns_schema();
    let mut chunk = ChunkedNodeGroup::new(0, &schema);
    chunk.insert_row(NodeId(1), &person_values("Alice", 30)).unwrap();
    chunk.insert_row(NodeId(2), &person_values("Bob", 25)).unwrap();

    assert_eq!(chunk.num_live_rows(), 2);
    chunk.delete_row_local(0).unwrap();
    assert_eq!(chunk.num_live_rows(), 1);
    assert!(chunk.get_row_local(0).unwrap().is_none());
    assert!(chunk.get_row_local(1).unwrap().is_some());
}

#[test]
fn contains_check() {
    let schema = columns_schema();
    let mut chunk = ChunkedNodeGroup::new(100, &schema);
    chunk.insert_row(NodeId(1), &person_values("Alice", 30)).unwrap();
    chunk.insert_row(NodeId(2), &person_values("Bob", 25)).unwrap();

    assert!(chunk.contains(100));
    assert!(chunk.contains(101));
    assert!(!chunk.contains(99));
    assert!(!chunk.contains(102));
}

#[test]
fn end_row_idx() {
    let schema = columns_schema();
    let mut chunk = ChunkedNodeGroup::new(0, &schema);
    assert_eq!(chunk.end_row_idx(), 0);
    chunk.insert_row(NodeId(1), &person_values("X", 0)).unwrap();
    chunk.insert_row(NodeId(2), &person_values("Y", 0)).unwrap();
    assert_eq!(chunk.end_row_idx(), 2);
}

#[test]
fn chunked_node_group_is_full_at_capacity() {
    let schema = vec![(ColumnId(0), DataType::Bool)];
    let mut chunk = ChunkedNodeGroup::new(0, &schema);
    for i in 0..StorageConfig::CHUNKED_NODE_GROUP_CAPACITY {
        chunk.insert_row(NodeId(i), &[Some(PropertyValue::Bool(true))]).unwrap();
    }
    assert!(chunk.is_full());
    let result = chunk.insert_row(NodeId(u64::MAX), &[Some(PropertyValue::Bool(false))]);
    assert!(matches!(result, Err(StorageError::NodeGroupFull)));
}

#[test]
fn type_mismatch_does_not_corrupt_chunk() {
    let schema = columns_schema();
    let mut chunk = ChunkedNodeGroup::new(0, &schema);
    chunk.insert_row(NodeId(1), &person_values("Alice", 30)).unwrap();

    // Second column expects Int64 — pass a Bool to trigger a type error.
    let bad = vec![
        Some(PropertyValue::String("X".into())),
        Some(PropertyValue::Bool(true)),
    ];
    let result = chunk.insert_row(NodeId(2), &bad);
    assert!(matches!(result, Err(StorageError::ColumnTypeMismatch { .. })));

    // Chunk must still be consistent: only the first row exists, all columns aligned.
    assert_eq!(chunk.num_rows(), 1);
    assert_eq!(chunk.num_live_rows(), 1);
    let row = chunk.get_row_local(0).unwrap().unwrap();
    assert_eq!(row[0], Some(PropertyValue::String("Alice".into())));
    assert_eq!(row[1], Some(PropertyValue::Int64(30)));
}

#[test]
fn chunked_node_group_serde_roundtrip() {
    let schema = columns_schema();
    let mut chunk = ChunkedNodeGroup::new(10, &schema);
    chunk.insert_row(NodeId(1), &person_values("Alice", 30)).unwrap();
    chunk.insert_row(NodeId(2), &person_values("Bob", 25)).unwrap();
    chunk.insert_row(NodeId(3), &person_values("Carol", 40)).unwrap();
    chunk.delete_row_local(1).unwrap();

    let len = chunk.serialized_len();
    let mut buf = vec![0u8; len];
    let written = chunk.serialize(&mut buf).unwrap();
    assert_eq!(written, len);

    let restored = ChunkedNodeGroup::deserialize(&schema, &buf).unwrap();
    assert_eq!(restored.start_row_idx(), 10);
    assert_eq!(restored.num_rows(), 3);
    assert_eq!(restored.num_live_rows(), 2);
    assert!(restored.get_row_local(0).unwrap().is_some());
    assert!(restored.get_row_local(1).unwrap().is_none());
    assert!(restored.get_row_local(2).unwrap().is_some());
}
