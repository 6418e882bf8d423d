use cheguers_core::catalog::{Catalog, EdgeTypeEntry, PropertyDef};
use cheguers_core::command::Command;
use cheguers_core::error::StorageError;
use cheguers_core::storage::edge_store::EdgeStore;
use cheguers_core::types::{
    ColumnId, DataType, Direction, EdgeId, LabelId, NodeId, PropertyValue, TableId,
};

fn catalog_with_knows() -> Catalog {
    let mut catalog = Catalog::default();
    catalog.edge_types.push(EdgeTypeEntry {
        table_id: TableId(1),
        label_id: LabelId(1),
        name: "Knows".to_string(),
        from_label_id: LabelId(0),
        to_label_id: LabelId(0),
        properties: vec![PropertyDef {
            name: "weight".to_string(),
            column_id: ColumnId(0),
            data_type: DataType::Float64,
            nullable: false,
        }],
    });
    catalog
}

fn edge_values() -> Vec<PropertyValue> {
    vec![PropertyValue::Float64(f64::to_bits(0.95))]
}

#[test]
fn storage_edge_store_create_and_read_edge() {
    let mut store = EdgeStore::new(catalog_with_knows());
    let edge_id = EdgeId(1);
    let type_id = LabelId(1);

    let cmd = Command::CreateEdge {
        edge_id,
        type_id,
        from: NodeId(10),
        to: NodeId(20),
        properties: edge_values(),
    };
    store.apply_command(&cmd).expect("apply");

    let record = store.get_edge(edge_id, type_id).expect("get");
    assert_eq!(record.edge_id, edge_id);
}

#[test]
fn storage_edge_store_delete_edge_via_command() {
    let mut store = EdgeStore::new(catalog_with_knows());
    let edge_id = EdgeId(1);
    let type_id = LabelId(1);

    store
        .apply_command(&Command::CreateEdge {
            edge_id,
            type_id,
            from: NodeId(10),
            to: NodeId(20),
            properties: edge_values(),
        })
        .expect("create");

    assert_eq!(store.num_edges(type_id), 1);

    store
        .apply_command(&Command::DeleteEdge { edge_id })
        .expect("delete");

    assert_eq!(store.num_edges(type_id), 0);
    assert!(store.get_edge(edge_id, type_id).is_none());
}

#[test]
fn storage_edge_store_delete_missing_edge_returns_error() {
    let mut store = EdgeStore::new(catalog_with_knows());
    let err = store
        .apply_command(&Command::DeleteEdge {
            edge_id: EdgeId(999),
        })
        .expect_err("should error");
    assert_eq!(
        err,
        StorageError::EdgeNotFound {
            edge_id: EdgeId(999)
        }
    );
}

#[test]
fn storage_edge_store_unknown_type_returns_error() {
    let mut store = EdgeStore::new(catalog_with_knows());
    let err = store
        .apply_command(&Command::CreateEdge {
            edge_id: EdgeId(1),
            type_id: LabelId(999),
            from: NodeId(10),
            to: NodeId(20),
            properties: edge_values(),
        })
        .expect_err("should error");
    assert_eq!(
        err,
        StorageError::LabelNotFound {
            label_id: LabelId(999)
        }
    );
}

#[test]
fn storage_edge_store_adjacency_updated_on_create() {
    let mut store = EdgeStore::new(catalog_with_knows());
    let from = NodeId(10);
    let to = NodeId(20);

    store
        .apply_command(&Command::CreateEdge {
            edge_id: EdgeId(1),
            type_id: LabelId(1),
            from,
            to,
            properties: edge_values(),
        })
        .expect("apply");

    let forward = store.neighbors(from, Direction::Forward);
    assert_eq!(forward.len(), 1);
    assert_eq!(forward[0].neighbor, to);
}

#[test]
fn storage_edge_store_adjacency_updated_on_delete() {
    let mut store = EdgeStore::new(catalog_with_knows());
    let from = NodeId(10);
    let to = NodeId(20);

    store
        .apply_command(&Command::CreateEdge {
            edge_id: EdgeId(1),
            type_id: LabelId(1),
            from,
            to,
            properties: edge_values(),
        })
        .expect("create");

    store
        .apply_command(&Command::DeleteEdge {
            edge_id: EdgeId(1),
        })
        .expect("delete");

    assert_eq!(store.neighbors(from, Direction::Forward).len(), 0);
}

#[test]
fn storage_edge_store_replay_sequence() {
    let mut store = EdgeStore::new(catalog_with_knows());
    let type_id = LabelId(1);

    for i in 0..10 {
        store
            .apply_command(&Command::CreateEdge {
                edge_id: EdgeId(i),
                type_id,
                from: NodeId(100),
                to: NodeId(200 + i),
                properties: edge_values(),
            })
            .expect("create");
    }

    for i in 0..10 {
        if i % 2 == 0 {
            store
                .apply_command(&Command::DeleteEdge {
                    edge_id: EdgeId(i),
                })
                .expect("delete");
        }
    }

    let remaining: Vec<_> = store
        .scan_type(type_id).into_iter()
        .map(|r| r.edge_id)
        .collect();
    assert_eq!(remaining, vec![EdgeId(1), EdgeId(3), EdgeId(5), EdgeId(7), EdgeId(9)]);
}

#[test]
fn storage_edge_store_node_command_is_ignored() {
    let mut store = EdgeStore::new(catalog_with_knows());

    store
        .apply_command(&Command::CreateNode {
            node_id: NodeId(1),
            label_id: LabelId(0),
            properties: vec![],
        })
        .expect("should silently ok");

    store
        .apply_command(&Command::DeleteNode {
            node_id: NodeId(1),
        })
        .expect("should silently ok");

    store
        .apply_command(&Command::UpsertVector {
            node_id: NodeId(1),
            column_id: ColumnId(0),
            vector: vec![],
        })
        .expect("should silently ok");
}

#[test]
fn storage_edge_store_scan_unknown_type_returns_empty_iter() {
    let store = EdgeStore::new(catalog_with_knows());
    assert_eq!(store.scan_type(LabelId(999)).len(), 0);
}
