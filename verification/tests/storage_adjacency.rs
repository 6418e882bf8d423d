use cheguers_core::storage::adjacency_index::AdjacencyIndex;
use cheguers_core::types::{EdgeId, LabelId, NodeId};

#[test]
fn add_and_get_forward() {
    let mut index = AdjacencyIndex::new();
    let edge_id = EdgeId(1);
    let type_id = LabelId(1);
    let from = NodeId(10);
    let to = NodeId(20);

    index.add_edge(edge_id, type_id, from, to);

    let refs = index.get_forward(from);
    assert_eq!(refs.len(), 1);
    assert_eq!(refs[0].edge_id, edge_id);
    assert_eq!(refs[0].type_id, type_id);
    assert_eq!(refs[0].neighbor, to);
}

#[test]
fn add_and_get_backward() {
    let mut index = AdjacencyIndex::new();
    let edge_id = EdgeId(1);
    let type_id = LabelId(1);
    let from = NodeId(10);
    let to = NodeId(20);

    index.add_edge(edge_id, type_id, from, to);

    let refs = index.get_backward(to);
    assert_eq!(refs.len(), 1);
    assert_eq!(refs[0].edge_id, edge_id);
    assert_eq!(refs[0].type_id, type_id);
    assert_eq!(refs[0].neighbor, from);
}

#[test]
fn remove_edge() {
    let mut index = AdjacencyIndex::new();
    let edge_id = EdgeId(1);
    let from = NodeId(10);
    let to = NodeId(20);

    index.add_edge(edge_id, LabelId(1), from, to);
    assert_eq!(index.get_forward(from).len(), 1);
    assert_eq!(index.get_backward(to).len(), 1);

    index.remove_edge(edge_id, from, to);
    assert_eq!(index.get_forward(from).len(), 0);
    assert_eq!(index.get_backward(to).len(), 0);
}

#[test]
fn remove_nonexistent_is_silent() {
    let mut index = AdjacencyIndex::new();
    // Should not panic
    index.remove_edge(EdgeId(999), NodeId(10), NodeId(20));
    assert_eq!(index.get_forward(NodeId(10)), &[]);
}

#[test]
fn get_empty_node_returns_empty_slice() {
    let index = AdjacencyIndex::new();
    assert_eq!(index.get_forward(NodeId(999)), &[]);
    assert_eq!(index.get_backward(NodeId(999)), &[]);
}

#[test]
fn multiple_edges_same_node() {
    let mut index = AdjacencyIndex::new();

    index.add_edge(EdgeId(1), LabelId(1), NodeId(10), NodeId(20));
    index.add_edge(EdgeId(2), LabelId(1), NodeId(10), NodeId(30));

    let refs = index.get_forward(NodeId(10));
    assert_eq!(refs.len(), 2);
    assert_eq!(refs[0].neighbor, NodeId(20));
    assert_eq!(refs[1].neighbor, NodeId(30));
}

#[test]
fn removing_an_edge_keeps_the_order_of_the_others() {
    let mut index = AdjacencyIndex::default();
    index.add_edge(EdgeId(1), LabelId(1), NodeId(10), NodeId(20));
    index.add_edge(EdgeId(2), LabelId(1), NodeId(10), NodeId(30));
    index.add_edge(EdgeId(3), LabelId(2), NodeId(10), NodeId(20));

    index.remove_edge(EdgeId(2), NodeId(10), NodeId(30));

    let ids: Vec<u64> = index.get_forward(NodeId(10)).iter().map(|r| r.edge_id.0).collect();
    assert_eq!(ids, vec![1, 3]);
    assert_eq!(index.get_backward(NodeId(30)), &[]);
    assert_eq!(index.get_backward(NodeId(20)).len(), 2);
}

#[test]
fn adding_then_removing_a_new_edge_gives_the_index_back() {
    let mut index = AdjacencyIndex::new();
    index.add_edge(EdgeId(1), LabelId(1), NodeId(10), NodeId(20));
    let before = index.get_forward(NodeId(10)).to_vec();
    index.add_edge(EdgeId(2), LabelId(1), NodeId(10), NodeId(20));
    index.remove_edge(EdgeId(2), NodeId(10), NodeId(20));
    assert_eq!(index.get_forward(NodeId(10)), &before[..]);
}
