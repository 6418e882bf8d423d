use std::sync::Arc;

use cheguers_core::catalog::{Catalog, EdgeTypeEntry, PropertyDef};
use cheguers_core::command::Command;
use cheguers_core::error::StorageError;
use cheguers_core::ordered_map::OrderedMap;
use cheguers_core::types::{
    ColumnId, DataType, Direction, EdgeId, LabelId, NodeId, NodeOffset, PropertyValue, TableId,
};
use cheguers_core::EdgeStore;

fn catalog_with_knows() -> Catalog {
    Catalog {
        node_labels: vec![],
        edge_types:  vec![EdgeTypeEntry {
            table_id:      TableId(1),
            label_id:      LabelId(1),
            name:          "Knows".into(),
            from_label_id: LabelId(0),
            to_label_id:   LabelId(0),
            properties:    vec![PropertyDef {
                name:      "weight".into(),
                column_id: ColumnId(0),
                data_type: DataType::Float64,
                nullable:  false,
            }],
        }],
    }
}

fn edge_values() -> Vec<PropertyValue> {
    vec![PropertyValue::Float64(f64::to_bits(0.95))]
}

fn store_with_offsets(offsets: &[(u64, u64)]) -> EdgeStore {
    let mut store = EdgeStore::new(Arc::new(catalog_with_knows()));
    let mut map: OrderedMap<NodeOffset> = OrderedMap::new();
    for &(nid, off) in offsets {
        map.insert(nid, off);
    }
    store.update_node_offsets(&map);
    store
}

#[test]
fn edge_store_create_and_read_edge() {
    let mut store = store_with_offsets(&[(10, 100), (20, 200)]);
    let edge_id = EdgeId(1);
    let type_id = LabelId(1);

    store
        .apply_command(&Command::CreateEdge {
            edge_id,
            type_id,
            from: NodeId(10),
            to: NodeId(20),
            properties: edge_values(),
        })
        .expect("apply");

    let record = store.get_edge(edge_id, type_id).expect("get");
    assert_eq!(record.edge_id, edge_id);
}

#[test]
fn edge_store_delete_edge_via_command() {
    let mut store = store_with_offsets(&[(10, 100), (20, 200)]);
    let edge_id = EdgeId(1);
    let type_id = LabelId(1);

    store
        .apply_command(&Command::CreateEdge {
            edge_id,
            type_id,
            from: NodeId(10),
            to: NodeId(20),
            properties: edge_values(),
        })
        .expect("create");

    assert_eq!(store.num_edges(type_id), 1);

    store.apply_command(&Command::DeleteEdge { edge_id }).expect("delete");
    assert_eq!(store.num_edges(type_id), 0);
    assert!(store.get_edge(edge_id, type_id).is_none());
}

#[test]
fn edge_store_delete_missing_edge_returns_error() {
    let mut store = store_with_offsets(&[]);
    assert!(matches!(
        store.apply_command(&Command::DeleteEdge { edge_id: EdgeId(999) }),
        Err(StorageError::EdgeNotFound { .. })
    ));
}

#[test]
fn edge_store_unknown_type_returns_error() {
    let mut store = store_with_offsets(&[(10, 100), (20, 200)]);
    assert!(matches!(
        store.apply_command(&Command::CreateEdge {
            edge_id: EdgeId(1),
            type_id: LabelId(999),
            from: NodeId(10),
            to: NodeId(20),
            properties: edge_values(),
        }),
        Err(StorageError::LabelNotFound { .. })
    ));
}

#[test]
fn edge_store_adjacency_updated_on_create() {
    let mut store = store_with_offsets(&[(10, 100), (20, 200)]);
    store
        .apply_command(&Command::CreateEdge {
            edge_id: EdgeId(1),
            type_id: LabelId(1),
            from: NodeId(10),
            to: NodeId(20),
            properties: edge_values(),
        })
        .expect("apply");

    let mut forward = Vec::new();
    store.neighbors(100, Direction::Forward, &mut forward);
    assert_eq!(forward.len(), 1);
    assert_eq!(forward[0].neighbor, NodeId(20));
}

#[test]
fn edge_store_adjacency_updated_on_delete() {
    let mut store = store_with_offsets(&[(10, 100), (20, 200)]);
    store
        .apply_command(&Command::CreateEdge {
            edge_id: EdgeId(1),
            type_id: LabelId(1),
            from: NodeId(10),
            to: NodeId(20),
            properties: edge_values(),
        })
        .expect("create");

    store.apply_command(&Command::DeleteEdge { edge_id: EdgeId(1) }).expect("delete");
    let mut forward = Vec::new();
    store.neighbors(100, Direction::Forward, &mut forward);
    assert_eq!(forward.len(), 0);
}

#[test]
fn edge_store_replay_sequence() {
    let mut store = store_with_offsets(&[
        (100, 1000), (200, 2000), (201, 2001), (202, 2002), (203, 2003),
        (204, 2004), (205, 2005), (206, 2006), (207, 2007), (208, 2008),
        (209, 2009),
    ]);
    let type_id = LabelId(1);

    for i in 0..10 {
        store
            .apply_command(&Command::CreateEdge {
                edge_id: EdgeId(i),
                type_id,
                from: NodeId(100),
                to: NodeId(200 + i),
                properties: edge_values(),
            })
            .expect("create");
    }

    for i in (0..10).step_by(2) {
        store.apply_command(&Command::DeleteEdge { edge_id: EdgeId(i) }).expect("delete");
    }

    let remaining: Vec<_> = store.scan_type(type_id).into_iter().map(|r| r.edge_id).collect();
    assert_eq!(remaining, vec![EdgeId(1), EdgeId(3), EdgeId(5), EdgeId(7), EdgeId(9)]);
}

#[test]
fn edge_store_node_command_is_ignored() {
    let mut store = store_with_offsets(&[]);
    assert!(store.apply_command(&Command::CreateNode {
        node_id: NodeId(1), label_id: LabelId(0), properties: vec![],
    }).is_ok());
    assert!(store.apply_command(&Command::DeleteNode { node_id: NodeId(1) }).is_ok());
    assert!(store.apply_command(&Command::UpsertVector {
        node_id: NodeId(1), column_id: ColumnId(0), vector: vec![],
    }).is_ok());
}

#[test]
fn edge_store_scan_unknown_type_returns_empty_iter() {
    let store = store_with_offsets(&[]);
    assert_eq!(store.scan_type(LabelId(999)).len(), 0);
}

#[test]
fn create_edge_missing_offset_returns_error() {
    let mut store = EdgeStore::new(Arc::new(catalog_with_knows()));
    let result = store.apply_command(&Command::CreateEdge {
        edge_id: EdgeId(1),
        type_id: LabelId(1),
        from: NodeId(10),
        to: NodeId(20),
        properties: edge_values(),
    });
    assert!(matches!(result, Err(StorageError::NodeNotFound { node_id: NodeId(10) })));
}
