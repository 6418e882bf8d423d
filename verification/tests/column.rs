use cheguers_core::config::StorageConfig;
use cheguers_core::error::StorageError;
use cheguers_core::table::column::ColumnChunk;
use cheguers_core::types::{ColumnId, DataType, PropertyValue};

fn int64_chunk() -> ColumnChunk {
    ColumnChunk::new(ColumnId(0), DataType::Int64)
}

#[test]
fn column_append_and_read_back() {
    let mut chunk = int64_chunk();
    for i in 0i64..10 {
        chunk.append_value(Some(&PropertyValue::Int64(i))).unwrap();
    }
    assert_eq!(chunk.len(), 10);
    for i in 0u64..10 {
        assert_eq!(chunk.get(i).unwrap(), Some(PropertyValue::Int64(i as i64)));
    }
}

#[test]
fn column_null_handling() {
    let mut chunk = int64_chunk();
    chunk.append_value(Some(&PropertyValue::Int64(42))).unwrap();
    chunk.append_value(None).unwrap();
    chunk.append_value(Some(&PropertyValue::Int64(99))).unwrap();

    assert!(!chunk.is_null(0));
    assert!(chunk.is_null(1));
    assert!(!chunk.is_null(2));

    assert_eq!(chunk.get(0).unwrap(), Some(PropertyValue::Int64(42)));
    assert_eq!(chunk.get(1).unwrap(), None);
    assert_eq!(chunk.get(2).unwrap(), Some(PropertyValue::Int64(99)));
}

#[test]
fn column_type_mismatch_returns_error() {
    let mut chunk = int64_chunk();
    let result = chunk.append_value(Some(&PropertyValue::Bool(true)));
    assert!(matches!(result, Err(StorageError::ColumnTypeMismatch { .. })));
}

#[test]
fn column_row_out_of_bounds_returns_error() {
    let chunk = int64_chunk();
    assert!(matches!(
        chunk.get(0),
        Err(StorageError::RowOutOfBounds { row: 0, len: 0 })
    ));
}

#[test]
fn column_is_full_at_capacity() {
    let mut chunk = ColumnChunk::new(ColumnId(0), DataType::Bool);
    for _ in 0..StorageConfig::NODE_GROUP_SIZE {
        chunk.append_value(Some(&PropertyValue::Bool(true))).unwrap();
    }
    assert!(chunk.is_full());
    let result = chunk.append_value(Some(&PropertyValue::Bool(false)));
    assert!(matches!(result, Err(StorageError::NodeGroupFull)));
}

#[test]
fn serde_int64_roundtrip() {
    let mut chunk = int64_chunk();
    for i in 0i64..10 {
        chunk.append_value(Some(&PropertyValue::Int64(i))).unwrap();
    }
    chunk.append_value(None).unwrap();
    chunk.append_value(Some(&PropertyValue::Int64(99))).unwrap();

    let len = chunk.serialized_len();
    let mut buf = vec![0u8; len];
    let written = chunk.serialize(&mut buf).unwrap();
    assert_eq!(written, len);

    let restored = ColumnChunk::deserialize(ColumnId(0), DataType::Int64, &buf).unwrap();
    assert_eq!(restored.len(), 12);
    assert_eq!(restored.get(0).unwrap(), Some(PropertyValue::Int64(0)));
    assert_eq!(restored.get(9).unwrap(), Some(PropertyValue::Int64(9)));
    assert_eq!(restored.get(10).unwrap(), None);
    assert_eq!(restored.get(11).unwrap(), Some(PropertyValue::Int64(99)));
}

#[test]
fn serde_bool_roundtrip() {
    let mut chunk = ColumnChunk::new(ColumnId(0), DataType::Bool);
    chunk.append_value(Some(&PropertyValue::Bool(true))).unwrap();
    chunk.append_value(Some(&PropertyValue::Bool(false))).unwrap();
    chunk.append_value(None).unwrap();

    let len = chunk.serialized_len();
    let mut buf = vec![0u8; len];
    chunk.serialize(&mut buf).unwrap();

    let restored = ColumnChunk::deserialize(ColumnId(0), DataType::Bool, &buf).unwrap();
    assert_eq!(restored.get(0).unwrap(), Some(PropertyValue::Bool(true)));
    assert_eq!(restored.get(1).unwrap(), Some(PropertyValue::Bool(false)));
    assert_eq!(restored.get(2).unwrap(), None);
}

#[test]
fn serde_float64_roundtrip() {
    let mut chunk = ColumnChunk::new(ColumnId(0), DataType::Float64);
    chunk.append_value(Some(&PropertyValue::Float64(f64::to_bits(1.5)))).unwrap();
    chunk.append_value(Some(&PropertyValue::Float64(f64::to_bits(-2.0)))).unwrap();

    let len = chunk.serialized_len();
    let mut buf = vec![0u8; len];
    chunk.serialize(&mut buf).unwrap();

    let restored = ColumnChunk::deserialize(ColumnId(0), DataType::Float64, &buf).unwrap();
    assert_eq!(restored.get(0).unwrap(), Some(PropertyValue::Float64(f64::to_bits(1.5))));
    assert_eq!(restored.get(1).unwrap(), Some(PropertyValue::Float64(f64::to_bits(-2.0))));
}

#[test]
fn serde_string_roundtrip() {
    let mut chunk = ColumnChunk::new(ColumnId(0), DataType::String);
    chunk.append_value(Some(&PropertyValue::String("hello".into()))).unwrap();
    chunk.append_value(Some(&PropertyValue::String("".into()))).unwrap();
    chunk.append_value(None).unwrap();

    let len = chunk.serialized_len();
    let mut buf = vec![0u8; len];
    chunk.serialize(&mut buf).unwrap();

    let restored = ColumnChunk::deserialize(ColumnId(0), DataType::String, &buf).unwrap();
    assert_eq!(restored.get(0).unwrap(), Some(PropertyValue::String("hello".into())));
    assert_eq!(restored.get(1).unwrap(), Some(PropertyValue::String("".into())));
    assert_eq!(restored.get(2).unwrap(), None);
}

#[test]
fn serde_bytes_roundtrip() {
    let mut chunk = ColumnChunk::new(ColumnId(0), DataType::Bytes);
    chunk.append_value(Some(&PropertyValue::Bytes(vec![1, 2, 3]))).unwrap();
    chunk.append_value(Some(&PropertyValue::Bytes(vec![]))).unwrap();
    chunk.append_value(None).unwrap();

    let len = chunk.serialized_len();
    let mut buf = vec![0u8; len];
    chunk.serialize(&mut buf).unwrap();

    let restored = ColumnChunk::deserialize(ColumnId(0), DataType::Bytes, &buf).unwrap();
    assert_eq!(restored.get(0).unwrap(), Some(PropertyValue::Bytes(vec![1, 2, 3])));
    assert_eq!(restored.get(1).unwrap(), Some(PropertyValue::Bytes(vec![])));
    assert_eq!(restored.get(2).unwrap(), None);
}

#[test]
fn serde_empty_chunk() {
    let chunk = ColumnChunk::new(ColumnId(0), DataType::Int64);
    let len = chunk.serialized_len();
    let mut buf = vec![0u8; len];
    chunk.serialize(&mut buf).unwrap();
    let restored = ColumnChunk::deserialize(ColumnId(0), DataType::Int64, &buf).unwrap();
    assert_eq!(restored.len(), 0);
}
