use cheguers_core::catalog::{EdgeTypeEntry, NodeLabelEntry, PropertyDef};
use cheguers_core::error::StorageError;
use cheguers_core::state::node_table::NodeTable;
use cheguers_core::storage::edge_table::EdgeTable as PlainEdgeTable;
use cheguers_core::storage::node_table::NodeTable as PlainNodeTable;
use cheguers_core::types::{
    ColumnId, DataType, Direction, EdgeId, LabelId, NodeGroupIdx, NodeId, PropertyValue, TableId,
};
use cheguers_core::{EdgeTable, Page};

fn properties() -> Vec<PropertyDef> {
    vec![PropertyDef {
        name: "p".into(),
        column_id: ColumnId(0),
        data_type: DataType::Int64,
        nullable: true,
    }]
}

fn node_schema() -> NodeLabelEntry {
    NodeLabelEntry {
        table_id: TableId(0),
        label_id: LabelId(0),
        name: "Person".into(),
        pk_column_id: ColumnId(0),
        properties: properties(),
    }
}

fn edge_schema() -> EdgeTypeEntry {
    EdgeTypeEntry {
        table_id: TableId(1),
        label_id: LabelId(1),
        name: "Knows".into(),
        from_label_id: LabelId(0),
        to_label_id: LabelId(0),
        properties: properties(),
    }
}

fn num(n: u64) -> Option<PropertyValue> {
    Some(PropertyValue::Int64(n as i64))
}

fn wrong() -> Option<PropertyValue> {
    Some(PropertyValue::Bool(true))
}

fn neighbors(table: &EdgeTable, offset: u64, direction: Direction) -> Vec<u64> {
    let mut out = Vec::new();
    table.neighbors_into(offset, direction, &mut out);
    out.iter().map(|r| r.edge_id.0).collect()
}

fn edge_ids(table: &EdgeTable) -> Vec<u64> {
    table.iter().iter().map(|r| r.edge_id.0).collect()
}

// Where rows go

#[test]
fn plain_nodes_go_into_the_next_row() {
    let mut table = PlainNodeTable::new(node_schema());
    for k in 0..65_540u64 {
        assert_eq!(
            table.insert_node(NodeId(k), &[num(k)]),
            Ok((NodeGroupIdx(k / 65_536), k % 65_536))
        );
        if k == 9 {
            table.delete_node(NodeId(4)).unwrap();
            assert!(table.insert_node(NodeId(1_000_000), &[wrong()]).is_err());
        }
    }
    assert_eq!(table.num_groups(), 2);
    assert_eq!(table.num_nodes(), 65_539);
}

#[test]
fn nodes_go_into_the_next_row() {
    let mut table = NodeTable::new(node_schema());
    for k in 0..65_540u64 {
        assert_eq!(
            table.insert_node(NodeId(k), &[num(k)]),
            Ok((NodeGroupIdx(k / 65_536), k % 65_536))
        );
        assert_eq!(table.node_offset(NodeId(k)), Some(k));
        if k == 9 {
            table.delete_node(NodeId(4)).unwrap();
            assert!(table.insert_node(NodeId(1_000_000), &[wrong()]).is_err());
        }
    }
    assert_eq!(table.num_groups(), 2);
    assert_eq!(table.num_nodes(), 65_539);
}

#[test]
fn plain_edges_go_into_the_next_row() {
    let mut table = PlainEdgeTable::new(edge_schema());
    for k in 0..65_540u64 {
        assert_eq!(
            table.insert_edge(EdgeId(k), NodeId(1), NodeId(2), &[num(k)]),
            Ok((NodeGroupIdx(k / 65_536), k % 65_536))
        );
        if k == 9 {
            table.delete_edge(EdgeId(4)).unwrap();
            assert!(table.insert_edge(EdgeId(70_000), NodeId(1), NodeId(2), &[wrong()]).is_err());
        }
    }
    assert_eq!(table.num_groups(), 2);
    assert_eq!(table.num_edges(), 65_539);
}

// Records

#[test]
fn node_records_stay_in_the_order_of_their_inserts() {
    let mut plain = PlainNodeTable::new(node_schema());
    let mut table = NodeTable::new(node_schema());
    for k in [5u64, 3, 8, 1] {
        plain.insert_node(NodeId(k), &[num(10 * k)]).unwrap();
        table.insert_node(NodeId(k), &[num(10 * k)]).unwrap();
    }
    plain.delete_node(NodeId(3)).unwrap();
    table.delete_node(NodeId(3)).unwrap();
    plain.insert_node(NodeId(3), &[num(31)]).unwrap();
    table.insert_node(NodeId(3), &[num(31)]).unwrap();
    let expected = vec![(5, num(50)), (8, num(80)), (1, num(10)), (3, num(31))];
    let got: Vec<_> =
        plain.iter().iter().map(|r| (r.node_id.0, r.properties[0].clone())).collect();
    assert_eq!(got, expected);
    let got: Vec<_> =
        table.iter().iter().map(|r| (r.node_id.0, r.properties[0].clone())).collect();
    assert_eq!(got, expected);
    for r in table.iter() {
        assert_eq!(table.get_node(r.node_id), Ok(Some(r.properties)));
    }
    assert_eq!(table.iter().len() as u64, table.num_nodes());
}

#[test]
fn node_records_come_back_from_disk() {
    let mut table = NodeTable::new(node_schema());
    for k in [5u64, 3, 8, 1] {
        table.insert_node(NodeId(k), &[num(k)]).unwrap();
    }
    table.delete_node(NodeId(8)).unwrap();
    let pages = table.flush(1).unwrap();
    let infos = table.page_infos().to_vec();
    let loaded = NodeTable::load(node_schema(), infos, &vec![pages]).unwrap();
    assert_eq!(loaded.iter(), table.iter());
    assert_eq!(loaded.iter().iter().map(|r| r.node_id.0).collect::<Vec<_>>(), vec![5, 3, 1]);
}

#[test]
fn plain_edge_records_stay_in_the_order_of_their_inserts() {
    let mut table = PlainEdgeTable::new(edge_schema());
    for k in [5u64, 3, 8, 3] {
        table.insert_edge(EdgeId(k), NodeId(k), NodeId(k + 1), &[num(k)]).unwrap();
    }
    let ids = |t: &PlainEdgeTable| t.iter().iter().map(|r| r.edge_id.0).collect::<Vec<u64>>();
    assert_eq!(ids(&table), vec![5, 3, 8, 3]);
    table.delete_edge(EdgeId(3)).unwrap();
    assert_eq!(ids(&table), vec![5, 8, 3]);
    assert_eq!(table.get_edge(EdgeId(8)).unwrap().unwrap(), table.iter()[1]);
    table.delete_edge(EdgeId(3)).unwrap();
    assert_eq!(ids(&table), vec![5, 8]);
    assert_eq!(table.get_edge(EdgeId(3)), Ok(None));
    assert_eq!(
        table.delete_edge(EdgeId(3)),
        Err(StorageError::EdgeNotFound { edge_id: EdgeId(3) })
    );
    assert_eq!(table.num_edges(), 2);
}

#[test]
fn edge_records_are_ordered_by_range_and_insert() {
    let mut table = EdgeTable::new(edge_schema());
    for (id, from) in [(1u64, 70_000u64), (2, 7), (3, 200_000), (4, 70_001), (5, 3)] {
        table.insert_edge(EdgeId(id), NodeId(from), NodeId(9), from, 9, &[num(id)]).unwrap();
    }
    assert_eq!(edge_ids(&table), vec![2, 5, 1, 4, 3]);
    assert!(table.insert_edge(EdgeId(6), NodeId(7), NodeId(9), 7, 9, &[wrong()]).is_err());
    assert_eq!(edge_ids(&table), vec![2, 5, 1, 4, 3]);
    table.delete_edge(EdgeId(1)).unwrap();
    assert_eq!(edge_ids(&table), vec![2, 5, 4, 3]);
    for r in table.iter() {
        assert_eq!(table.get_edge(r.edge_id), Ok(Some(r)));
    }
    assert_eq!(table.num_edges(), 4);
}

#[test]
fn edge_records_come_back_from_disk() {
    let mut table = EdgeTable::new(edge_schema());
    for (id, from) in [(1u64, 70_000u64), (2, 7), (4, 70_001), (5, 3)] {
        table.insert_edge(EdgeId(id), NodeId(from), NodeId(9), from, 9, &[num(id)]).unwrap();
    }
    table.delete_edge(EdgeId(5)).unwrap();
    let pages = table.flush(1).unwrap().unwrap();
    let infos = table.page_infos().to_vec();
    let blocks: Vec<Vec<Page>> = infos
        .iter()
        .map(|info| {
            let start = info.page_range.start_page.0 as usize - 1;
            (start..start + info.page_range.num_pages as usize)
                .map(|i| Page::from_bytes(pages[i].as_bytes()))
                .collect()
        })
        .collect();
    let loaded = EdgeTable::load(edge_schema(), infos, &blocks).unwrap();
    assert_eq!(loaded.iter(), table.iter());
    assert_eq!(edge_ids(&loaded), vec![2, 1, 4]);
}

// Both directions

#[test]
fn an_edge_is_deleted_exactly_if_it_is_read() {
    let mut table = EdgeTable::new(edge_schema());
    for id in 0..6u64 {
        table.insert_edge(EdgeId(id), NodeId(1), NodeId(2), 10, 20, &[num(id)]).unwrap();
    }
    assert!(table.insert_edge(EdgeId(6), NodeId(1), NodeId(2), 10, 20, &[wrong()]).is_err());
    for id in [3u64, 6, 0, 3, 99] {
        let there = table.get_edge(EdgeId(id)).unwrap().is_some();
        let count = table.num_edges();
        let fwd = neighbors(&table, 10, Direction::Forward);
        let bwd = neighbors(&table, 20, Direction::Backward);
        assert_eq!(fwd, bwd);
        let result = table.delete_edge(EdgeId(id));
        assert_eq!(result.is_ok(), there);
        if there {
            assert_eq!(table.num_edges(), count - 1);
            assert_eq!(table.get_edge(EdgeId(id)), Ok(None));
        } else {
            assert_eq!(result, Err(StorageError::EdgeNotFound { edge_id: EdgeId(id) }));
            assert_eq!(table.num_edges(), count);
        }
        let kept: Vec<u64> = fwd.into_iter().filter(|x| *x != id).collect();
        assert_eq!(neighbors(&table, 10, Direction::Forward), kept);
        assert_eq!(neighbors(&table, 20, Direction::Backward), kept);
    }
    assert_eq!(neighbors(&table, 10, Direction::Forward), vec![1, 2, 4, 5]);
}

#[test]
fn an_edge_inserted_twice_is_deleted_twice() {
    let mut table = EdgeTable::new(edge_schema());
    table.insert_edge(EdgeId(1), NodeId(1), NodeId(2), 10, 20, &[num(1)]).unwrap();
    table.insert_edge(EdgeId(2), NodeId(1), NodeId(3), 10, 30, &[num(2)]).unwrap();
    table.insert_edge(EdgeId(1), NodeId(1), NodeId(3), 10, 30, &[num(3)]).unwrap();
    assert_eq!(table.delete_edge(EdgeId(1)), Ok(()));
    assert_eq!(table.num_edges(), 2);
    assert_eq!(neighbors(&table, 10, Direction::Forward), vec![2, 1]);
    assert_eq!(neighbors(&table, 30, Direction::Backward), vec![2, 1]);
    assert!(neighbors(&table, 20, Direction::Backward).is_empty());
    assert_eq!(table.delete_edge(EdgeId(1)), Ok(()));
    assert_eq!(table.num_edges(), 1);
    assert_eq!(neighbors(&table, 10, Direction::Forward), vec![2]);
    assert_eq!(neighbors(&table, 30, Direction::Backward), vec![2]);
    assert_eq!(table.get_edge(EdgeId(1)), Ok(None));
    assert_eq!(
        table.delete_edge(EdgeId(1)),
        Err(StorageError::EdgeNotFound { edge_id: EdgeId(1) })
    );
}
