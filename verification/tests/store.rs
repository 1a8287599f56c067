use std::time::Instant;

use truth_mines_engine::Edge;
use truth_mines_engine::GraphStore;
use truth_mines_engine::Node;

fn create_test_node(id: &str) -> Node {
    Node {
        id: id.to_string(),
        node_type: "proposition".to_string(),
        domain: "philosophy".to_string(),
        title: format!("Node {id}"),
        content: None,
        formal: None,
        tags: vec![],
        metadata: None,
        sources: vec![],
        created: None,
        updated: None,
    }
}

fn create_test_edge(from: &str, to: &str) -> Edge {
    Edge {
        from: from.to_string(),
        to: to.to_string(),
        relation: "supports".to_string(),
        domain: "philosophy".to_string(),
        weight: Some(900),
    }
}

#[test]
fn test_graph_store_new_is_empty() {
    let store = GraphStore::new();
    assert_eq!(store.node_count(), 0);
    assert_eq!(store.edge_count(), 0);
}

#[test]
fn test_graph_store_add_node_success() {
    let mut store = GraphStore::new();
    let node = create_test_node("abc123");

    store.add_node(node.clone());

    assert_eq!(store.node_count(), 1);
    assert_eq!(store.get_node("abc123"), Some(&node));
}

#[test]
fn test_graph_store_add_multiple_nodes() {
    let mut store = GraphStore::new();

    for i in 0..10 {
        let id = format!("node{i:02}");
        store.add_node(create_test_node(&id));
    }

    assert_eq!(store.node_count(), 10);

    for i in 0..10 {
        let id = format!("node{i:02}");
        assert!(store.get_node(&id).is_some());
    }
}

#[test]
fn test_graph_store_get_nonexistent_node_returns_none() {
    let store = GraphStore::new();
    assert_eq!(store.get_node("nonexistent"), None);
}

#[test]
fn test_graph_store_add_edge() {
    let mut store = GraphStore::new();
    let edge = create_test_edge("node1", "node2");

    store.add_edge(edge);

    assert_eq!(store.edge_count(), 1);
}

#[test]
fn test_graph_store_build_adjacency_single_edge() {
    let mut store = GraphStore::new();
    store.add_node(create_test_node("a"));
    store.add_node(create_test_node("b"));
    store.add_edge(create_test_edge("a", "b"));

    store.build_adjacency();

    assert_eq!(store.out_edges.len(), 2);
    assert_eq!(store.in_edges.len(), 2);

    let a_idx = store.node_index("a").unwrap();
    let b_idx = store.node_index("b").unwrap();

    assert!(store.out_edges[a_idx].contains(&b_idx));
    assert!(store.in_edges[b_idx].contains(&a_idx));
}

#[test]
fn test_graph_store_build_adjacency_multiple_edges() {
    let mut store = GraphStore::new();
    store.add_node(create_test_node("a"));
    store.add_node(create_test_node("b"));
    store.add_node(create_test_node("c"));

    // a -> b, a -> c, b -> c
    store.add_edge(create_test_edge("a", "b"));
    store.add_edge(create_test_edge("a", "c"));
    store.add_edge(create_test_edge("b", "c"));

    store.build_adjacency();

    let a_idx = store.node_index("a").unwrap();
    let b_idx = store.node_index("b").unwrap();
    let c_idx = store.node_index("c").unwrap();

    assert_eq!(store.out_edges[a_idx].len(), 2);
    assert!(store.out_edges[a_idx].contains(&b_idx));
    assert!(store.out_edges[a_idx].contains(&c_idx));

    assert_eq!(store.out_edges[b_idx].len(), 1);
    assert!(store.out_edges[b_idx].contains(&c_idx));

    assert_eq!(store.in_edges[c_idx].len(), 2);
    assert!(store.in_edges[c_idx].contains(&a_idx));
    assert!(store.in_edges[c_idx].contains(&b_idx));
}

#[test]
fn test_graph_store_adjacency_handles_missing_nodes() {
    let mut store = GraphStore::new();
    store.add_node(create_test_node("a"));
    store.add_edge(create_test_edge("a", "nonexistent"));

    store.build_adjacency();

    let a_idx = store.node_index("a").unwrap();
    assert!(store.out_edges[a_idx].is_empty());
}

#[test]
fn test_graph_store_large_graph_performance() {
    let mut store = GraphStore::new();

    for i in 0..1000 {
        let id = format!("n{i:06}");
        store.add_node(create_test_node(&id));
    }

    for i in 0..5000 {
        let from_idx = i % 1000;
        let to_idx = (i * 7) % 1000;
        let from_id = format!("n{from_idx:06}");
        let to_id = format!("n{to_idx:06}");
        store.add_edge(create_test_edge(&from_id, &to_id));
    }

    let start = Instant::now();
    store.build_adjacency();
    let elapsed = start.elapsed();

    assert!(elapsed.as_millis() < 100, "build_adjacency took {elapsed:?}");

    assert_eq!(store.node_count(), 1000);
    assert_eq!(store.edge_count(), 5000);
}

#[test]
fn test_graph_store_duplicate_node_id_overwrites() {
    let mut store = GraphStore::new();
    let node1 = Node {
        id: "same01".to_string(),
        title: "First".to_string(),
        ..create_test_node("same01")
    };
    let node2 = Node {
        id: "same01".to_string(),
        title: "Second".to_string(),
        ..create_test_node("same01")
    };

    store.add_node(node1);
    store.add_node(node2.clone());

    assert_eq!(store.node_count(), 1);
    assert_eq!(store.get_node("same01"), Some(&node2));
}

#[test]
fn test_graph_store_default_trait() {
    let store: GraphStore = Default::default();
    assert_eq!(store.node_count(), 0);
}
