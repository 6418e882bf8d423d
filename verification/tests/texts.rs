use cheguers_core::command::Command;
use cheguers_core::error::StorageError;
use cheguers_core::float::{equal32, equal64};
use cheguers_core::text::{decimal_text, push_signed_decimal};
use cheguers_core::types::{
    ColumnId, DataType, EdgeId, LabelId, NodeGroupIdx, NodeId, PageIdx, PropertyValue, TableId,
};

#[test]
fn numbers_in_decimal() {
    assert_eq!(decimal_text(0), "0");
    assert_eq!(decimal_text(1090), "1090");
    assert_eq!(decimal_text(u128::MAX), u128::MAX.to_string());
    let mut s = String::from("n=");
    push_signed_decimal(&mut s, i64::MIN);
    assert_eq!(s, "n=-9223372036854775808");
}

#[test]
fn ids_are_shown_as_numbers() {
    assert_eq!(NodeId(7).display(), "7");
    assert_eq!(EdgeId(u64::MAX).display(), "18446744073709551615");
    assert_eq!(LabelId(10).display(), "10");
    assert_eq!(ColumnId(0).display(), "0");
    assert_eq!(TableId(3).display(), "3");
    assert_eq!(PageIdx(12).display(), "12");
    assert_eq!(NodeGroupIdx(100).display(), "100");
}

#[test]
fn types_and_their_tags() {
    let types = [
        (DataType::Bool, 0, "Bool"),
        (DataType::Int64, 1, "Int64"),
        (DataType::Float64, 2, "Float64"),
        (DataType::String, 3, "String"),
        (DataType::Bytes, 4, "Bytes"),
        (DataType::Vector { dim: 0 }, 5, "Vector(0)"),
    ];
    for (t, tag, text) in types {
        assert_eq!(t.discriminant(), tag);
        assert_eq!(DataType::from_discriminant(tag), Some(t.clone()));
        assert_eq!(t.display(), text);
    }
    assert_eq!(DataType::Vector { dim: 128 }.display(), "Vector(128)");
    assert_eq!(DataType::from_discriminant(6), None);
    assert_eq!(DataType::from_discriminant(255), None);
}

#[test]
fn values_have_types_and_texts() {
    let half = PropertyValue::Float64(0.5f64.to_bits());
    assert_eq!(PropertyValue::Bool(true).data_type(), DataType::Bool);
    assert_eq!(PropertyValue::Int64(1).data_type(), DataType::Int64);
    assert_eq!(half.data_type(), DataType::Float64);
    assert_eq!(PropertyValue::String("a".into()).data_type(), DataType::String);
    assert_eq!(PropertyValue::Bytes(vec![]).data_type(), DataType::Bytes);
    assert_eq!(PropertyValue::Bool(false).display(""), "false");
    assert_eq!(PropertyValue::Bool(true).display(""), "true");
    assert_eq!(PropertyValue::Int64(-30).display(""), "-30");
    assert_eq!(half.display("0.5"), "0.5");
    assert_eq!(PropertyValue::String("Alice".into()).display(""), "Alice");
    assert_eq!(PropertyValue::Bytes(vec![1, 2, 3]).display(""), "<3 bytes>");
}

#[test]
fn each_error_has_its_message() {
    let errors = [
        (
            StorageError::ColumnTypeMismatch {
                expected: DataType::Vector { dim: 4 },
                got: DataType::Bool,
            },
            "column type mismatch: expected Vector(4), got Bool",
        ),
        (StorageError::NodeGroupFull, "node group is full"),
        (StorageError::EdgeGroupFull, "edge group is full"),
        (
            StorageError::RowOutOfBounds { row: 7, len: 3 },
            "row 7 is out of bounds (len=3)",
        ),
        (StorageError::LabelNotFound { label_id: LabelId(2) }, "label 2 not found"),
        (StorageError::NodeNotFound { node_id: NodeId(10) }, "node 10 not found"),
        (StorageError::EdgeNotFound { edge_id: EdgeId(11) }, "edge 11 not found"),
        (StorageError::SerDe("x".into()), "serialization error: x"),
        (StorageError::Io("y".into()), "I/O error: y"),
        (StorageError::CorruptHeader, "corrupt database header"),
        (StorageError::CsrEdgeGroupFull, "CSR edge group is full"),
    ];
    for (e, text) in errors {
        assert_eq!(e.display(), text);
    }
}

#[test]
fn floats_are_compared_as_numbers() {
    let float = |x: f64| PropertyValue::Float64(x.to_bits());
    let samples = [
        0.0,
        -0.0,
        1.0,
        -1.0,
        f64::MIN_POSITIVE,
        f64::MAX,
        f64::INFINITY,
        f64::NEG_INFINITY,
        f64::NAN,
        -f64::NAN,
    ];
    for a in samples {
        for b in samples {
            assert_eq!(float(a) == float(b), a == b);
            assert_eq!(equal64(a.to_bits(), b.to_bits()), a == b);
            let (x, y) = (a as f32, b as f32);
            assert_eq!(equal32(x.to_bits(), y.to_bits()), x == y);
        }
    }
    assert!(float(1.0) != PropertyValue::Int64(1));
    assert!(PropertyValue::String("a".into()) == PropertyValue::String("a".into()));
    assert!(PropertyValue::String("a".into()) != PropertyValue::String("b".into()));
    assert!(PropertyValue::Bytes(vec![1]) == PropertyValue::Bytes(vec![1]));
    assert!(PropertyValue::Bytes(vec![1]) != PropertyValue::Bytes(vec![1, 2]));
    assert!(PropertyValue::Bool(true) != PropertyValue::Bool(false));
}

#[test]
fn commands_are_compared_by_their_values() {
    let vector = |x: f32| Command::UpsertVector {
        node_id: NodeId(1),
        column_id: ColumnId(0),
        vector: vec![1.0f32.to_bits(), x.to_bits()],
    };
    assert!(vector(0.0) == vector(-0.0));
    assert!(vector(f32::NAN) != vector(f32::NAN));
    assert!(vector(1.0) != vector(2.0));
    let node = |x: f64| Command::CreateNode {
        node_id: NodeId(1),
        label_id: LabelId(0),
        properties: vec![PropertyValue::Float64(x.to_bits())],
    };
    assert!(node(0.0) == node(-0.0));
    assert!(node(f64::NAN) != node(f64::NAN));
    let edge = |to: u64| Command::CreateEdge {
        edge_id: EdgeId(1),
        type_id: LabelId(0),
        from: NodeId(1),
        to: NodeId(to),
        properties: vec![],
    };
    assert!(edge(2) == edge(2) && edge(2) != edge(3));
    assert!(Command::DeleteNode { node_id: NodeId(1) } == Command::DeleteNode { node_id: NodeId(1) });
    assert!(Command::DeleteEdge { edge_id: EdgeId(1) } != Command::DeleteEdge { edge_id: EdgeId(2) });
    assert!(Command::DeleteNode { node_id: NodeId(1) } != Command::DeleteEdge { edge_id: EdgeId(1) });
}
