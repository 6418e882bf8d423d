use cheguers_core::config::StorageConfig;
use cheguers_core::error::StorageError;
use cheguers_core::storage::column_chunk::ColumnChunk;
use cheguers_core::types::{ColumnId, DataType, PropertyValue};

fn int64_chunk() -> ColumnChunk {
    ColumnChunk::new(ColumnId(0), DataType::Int64)
}

#[test]
fn column_chunk_append_and_read_back() {
    let mut chunk = int64_chunk();
    for i in 0i64..10 {
        chunk.append_value(Some(&PropertyValue::Int64(i))).unwrap();
    }
    assert_eq!(chunk.len(), 10);
    for i in 0u64..10 {
        assert_eq!(chunk.get(i).unwrap(), Some(PropertyValue::Int64(i as i64)));
    }
}

#[test]
fn column_chunk_null_handling() {
    let mut chunk = int64_chunk();
    chunk.append_value(Some(&PropertyValue::Int64(42))).unwrap();
    chunk.append_value(None).unwrap();
    chunk.append_value(Some(&PropertyValue::Int64(99))).unwrap();

    assert!(!chunk.is_null(0));
    assert!(chunk.is_null(1));
    assert!(!chunk.is_null(2));

    assert_eq!(chunk.get(0).unwrap(), Some(PropertyValue::Int64(42)));
    assert_eq!(chunk.get(1).unwrap(), None);
    assert_eq!(chunk.get(2).unwrap(), Some(PropertyValue::Int64(99)));
}

#[test]
fn column_chunk_type_mismatch_returns_error() {
    let mut chunk = int64_chunk();
    let result = chunk.append_value(Some(&PropertyValue::Bool(true)));
    assert!(matches!(result, Err(StorageError::ColumnTypeMismatch { .. })));
}

#[test]
fn column_chunk_row_out_of_bounds_returns_error() {
    let chunk = int64_chunk();
    assert!(matches!(
        chunk.get(0),
        Err(StorageError::RowOutOfBounds { row: 0, len: 0 })
    ));
}

#[test]
fn column_chunk_is_full_at_capacity() {
    let mut chunk = ColumnChunk::new(ColumnId(0), DataType::Bool);
    for _ in 0..StorageConfig::NODE_GROUP_SIZE {
        chunk.append_value(Some(&PropertyValue::Bool(true))).unwrap();
    }
    assert!(chunk.is_full());
    let result = chunk.append_value(Some(&PropertyValue::Bool(false)));
    assert!(matches!(result, Err(StorageError::NodeGroupFull)));
}
