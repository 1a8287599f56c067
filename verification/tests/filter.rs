use truth_mines_engine::Edge;
use truth_mines_engine::GraphStore;
use truth_mines_engine::Node;

fn create_test_node(id: &str, domain: &str) -> Node {
    Node {
        id: id.to_string(),
        node_type: "proposition".to_string(),
        domain: domain.to_string(),
        title: format!("Node {id}"),
        content: None,
        formal: None,
        tags: vec![],
        metadata: None,
        sources: vec![],
        created: None,
        updated: None,
    }
}

fn create_edge(from: &str, to: &str) -> Edge {
    Edge {
        from: from.to_string(),
        to: to.to_string(),
        relation: "supports".to_string(),
        domain: "philosophy".to_string(),
        weight: Some(900),
    }
}

#[test]
fn test_filter_by_domain_single() {
    let mut store = GraphStore::new();
    store.add_node(create_test_node("a", "philosophy"));
    store.add_node(create_test_node("b", "mathematics"));
    store.add_node(create_test_node("c", "physics"));

    let filtered = store.filter_by_domain(&["philosophy"]);

    assert_eq!(filtered.len(), 1);
    assert_eq!(filtered[0].id, "a");
}

#[test]
fn test_filter_by_domain_multiple() {
    let mut store = GraphStore::new();
    store.add_node(create_test_node("a", "philosophy"));
    store.add_node(create_test_node("b", "mathematics"));
    store.add_node(create_test_node("c", "physics"));

    let filtered = store.filter_by_domain(&["philosophy", "mathematics"]);

    assert_eq!(filtered.len(), 2);
}

#[test]
fn test_neighbors_filtered() {
    let mut store = GraphStore::new();
    store.add_node(create_test_node("a", "philosophy"));
    store.add_node(create_test_node("b", "mathematics"));
    store.add_node(create_test_node("c", "philosophy"));

    store.add_edge(create_edge("a", "b"));
    store.add_edge(create_edge("b", "c"));
    store.build_adjacency();

    let neighbors = store.neighbors_filtered("a", 2, &["philosophy"]);

    // b and c are within two hops, but only c is philosophy.
    assert_eq!(neighbors.len(), 1);
    assert_eq!(neighbors[0].id, "c");
}
