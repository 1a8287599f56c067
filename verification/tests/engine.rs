use truth_mines_engine::Edge;
use truth_mines_engine::GraphStore;
use truth_mines_engine::Node;

fn create_test_node(id: &str) -> Node {
    Node {
        id: id.to_string(),
        node_type: "proposition".to_string(),
        domain: "philosophy".to_string(),
        title: format!("Node {id}"),
        content: None,
        formal: None,
        tags: vec![],
        metadata: None,
        sources: vec![],
        created: None,
        updated: None,
    }
}

fn create_test_edge(from: &str, to: &str, relation: &str) -> Edge {
    Edge {
        from: from.to_string(),
        to: to.to_string(),
        relation: relation.to_string(),
        domain: "philosophy".to_string(),
        weight: Some(900),
    }
}

#[test]
fn it_works() {
    assert_eq!(2 + 2, 4);
}

#[test]
fn test_replacing_node_keeps_index_and_adjacency() {
    let mut store = GraphStore::new();
    store.add_node(create_test_node("a"));
    store.add_node(create_test_node("b"));
    store.add_edge(create_test_edge("a", "b", "supports"));
    store.build_adjacency();

    let a_before = store.node_index("a").unwrap();

    let mut replacement = create_test_node("a");
    replacement.title = "Replaced".to_string();
    store.add_node(replacement);

    // Same slot, same adjacency, new contents.
    assert_eq!(store.node_index("a").unwrap(), a_before);
    assert_eq!(store.node_count(), 2);
    assert_eq!(store.get_node("a").unwrap().title, "Replaced");
    let b_idx = store.node_index("b").unwrap();
    assert!(store.out_edges[a_before].contains(&b_idx));
}

#[test]
fn test_queries_reflect_last_rebuild_only() {
    let mut store = GraphStore::new();
    store.add_node(create_test_node("a"));
    store.add_node(create_test_node("b"));
    store.build_adjacency();

    // The edge is stored, but the index is stale until the next rebuild.
    store.add_edge(create_test_edge("a", "b", "supports"));
    assert_eq!(store.edge_count(), 1);
    assert!(store.neighbors("a", 1).is_empty());

    store.build_adjacency();
    assert_eq!(store.neighbors("a", 1).len(), 1);
}

#[test]
fn test_edge_weight_is_optional() {
    let mut store = GraphStore::new();
    store.add_node(create_test_node("a"));
    store.add_node(create_test_node("b"));
    store.add_edge(Edge {
        from: "a".to_string(),
        to: "b".to_string(),
        relation: "attacks".to_string(),
        domain: "philosophy".to_string(),
        weight: None,
    });
    store.build_adjacency();

    assert_eq!(store.edge_count(), 1);
    assert_eq!(store.neighbors("a", 1).len(), 1);
}

#[test]
fn test_self_loop_and_duplicate_edges_allowed() {
    let mut store = GraphStore::new();
    store.add_node(create_test_node("a"));
    store.add_node(create_test_node("b"));
    store.add_edge(create_test_edge("a", "a", "supports"));
    store.add_edge(create_test_edge("a", "b", "supports"));
    store.add_edge(create_test_edge("a", "b", "supports"));
    store.build_adjacency();

    assert_eq!(store.edge_count(), 3);
    let a_idx = store.node_index("a").unwrap();
    assert_eq!(store.out_edges[a_idx].len(), 3);
    // The neighbor set still holds each node once.
    let neighbors = store.neighbors("a", 1);
    assert_eq!(neighbors.len(), 1);
    assert_eq!(neighbors[0].id, "b");
}
