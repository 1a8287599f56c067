use truth_mines_engine::Edge;
use truth_mines_engine::GraphStore;
use truth_mines_engine::Node;

fn create_test_node(id: &str) -> Node {
    Node {
        id: id.to_string(),
        node_type: "proposition".to_string(),
        domain: "philosophy".to_string(),
        title: format!("Node {id}"),
        content: None,
        formal: None,
        tags: vec![],
        metadata: None,
        sources: vec![],
        created: None,
        updated: None,
    }
}

fn create_test_edge(from: &str, to: &str, relation: &str) -> Edge {
    Edge {
        from: from.to_string(),
        to: to.to_string(),
        relation: relation.to_string(),
        domain: "philosophy".to_string(),
        weight: Some(900),
    }
}

fn build_test_graph() -> GraphStore {
    let mut store = GraphStore::new();

    // a -> b -> c, plus a direct a -> c shortcut
    store.add_node(create_test_node("a"));
    store.add_node(create_test_node("b"));
    store.add_node(create_test_node("c"));

    store.add_edge(create_test_edge("a", "b", "supports"));
    store.add_edge(create_test_edge("b", "c", "supports"));
    store.add_edge(create_test_edge("a", "c", "entails"));

    store.build_adjacency();
    store
}

fn path_ids<'a>(store: &'a GraphStore, path: &[usize]) -> Vec<&'a str> {
    path.iter().map(|&i| store.nodes[i].id.as_str()).collect()
}

// ===== Neighbors Tests =====

#[test]
fn test_neighbors_0_hop_returns_empty() {
    let store = build_test_graph();
    let neighbors = store.neighbors("a", 0);
    assert!(neighbors.is_empty());
}

#[test]
fn test_neighbors_1_hop() {
    let store = build_test_graph();
    // a -> b, a -> c
    let neighbors = store.neighbors("a", 1);

    assert_eq!(neighbors.len(), 2);
    let ids: Vec<&str> = neighbors.iter().map(|n| n.id.as_str()).collect();
    assert!(ids.contains(&"b"));
    assert!(ids.contains(&"c"));
}

#[test]
fn test_neighbors_2_hop() {
    let mut store = GraphStore::new();
    // a -> b -> c, a -> d
    store.add_node(create_test_node("a"));
    store.add_node(create_test_node("b"));
    store.add_node(create_test_node("c"));
    store.add_node(create_test_node("d"));

    store.add_edge(create_test_edge("a", "b", "supports"));
    store.add_edge(create_test_edge("b", "c", "supports"));
    store.add_edge(create_test_edge("a", "d", "supports"));

    store.build_adjacency();

    let neighbors = store.neighbors("a", 2);

    assert_eq!(neighbors.len(), 3); // b, c, d
    let ids: Vec<&str> = neighbors.iter().map(|n| n.id.as_str()).collect();
    assert!(ids.contains(&"b"));
    assert!(ids.contains(&"c"));
    assert!(ids.contains(&"d"));
}

#[test]
fn test_neighbors_respects_depth_limit() {
    let mut store = GraphStore::new();
    // Chain: a -> b -> c -> d -> e
    for id in ["a", "b", "c", "d", "e"] {
        store.add_node(create_test_node(id));
    }

    store.add_edge(create_test_edge("a", "b", "supports"));
    store.add_edge(create_test_edge("b", "c", "supports"));
    store.add_edge(create_test_edge("c", "d", "supports"));
    store.add_edge(create_test_edge("d", "e", "supports"));

    store.build_adjacency();

    let neighbors = store.neighbors("a", 2);

    assert_eq!(neighbors.len(), 2);
    let ids: Vec<&str> = neighbors.iter().map(|n| n.id.as_str()).collect();
    assert!(ids.contains(&"b"));
    assert!(ids.contains(&"c"));
    assert!(!ids.contains(&"d"));
    assert!(!ids.contains(&"e"));
}

#[test]
fn test_neighbors_nonexistent_node() {
    let store = build_test_graph();
    let neighbors = store.neighbors("nonexistent", 1);
    assert!(neighbors.is_empty());
}

// ===== Path Finding Tests =====

#[test]
fn test_find_paths_direct_edge() {
    let store = build_test_graph();
    // a -> c directly and via b
    let paths = store.find_paths("a", "c", 10);

    assert_eq!(paths.len(), 2);

    let has_direct = paths.iter().any(|path| path.len() == 2);
    assert!(has_direct);

    let has_via_b = paths.iter().any(|path| path.len() == 3);
    assert!(has_via_b);
}

#[test]
fn test_find_paths_single_path() {
    let mut store = GraphStore::new();
    // Linear: a -> b -> c (no shortcut)
    store.add_node(create_test_node("a"));
    store.add_node(create_test_node("b"));
    store.add_node(create_test_node("c"));

    store.add_edge(create_test_edge("a", "b", "supports"));
    store.add_edge(create_test_edge("b", "c", "supports"));

    store.build_adjacency();

    let paths = store.find_paths("a", "c", 10);

    assert_eq!(paths.len(), 1);
    assert_eq!(paths[0].len(), 3); // a, b, c

    assert_eq!(path_ids(&store, &paths[0]), vec!["a", "b", "c"]);
}

#[test]
fn test_find_paths_multiple_paths() {
    let mut store = GraphStore::new();
    // Diamond: a -> b -> d and a -> c -> d
    for id in ["a", "b", "c", "d"] {
        store.add_node(create_test_node(id));
    }

    store.add_edge(create_test_edge("a", "b", "supports"));
    store.add_edge(create_test_edge("a", "c", "supports"));
    store.add_edge(create_test_edge("b", "d", "supports"));
    store.add_edge(create_test_edge("c", "d", "supports"));

    store.build_adjacency();

    let paths = store.find_paths("a", "d", 10);

    assert_eq!(paths.len(), 2);

    for path in &paths {
        assert_eq!(path.len(), 3);
        assert_eq!(store.nodes[path[0]].id, "a");
        assert_eq!(store.nodes[path[2]].id, "d");
    }
}

#[test]
fn test_find_paths_no_path_returns_empty() {
    let mut store = GraphStore::new();
    // Disconnected: a -> b, c -> d
    for id in ["a", "b", "c", "d"] {
        store.add_node(create_test_node(id));
    }

    store.add_edge(create_test_edge("a", "b", "supports"));
    store.add_edge(create_test_edge("c", "d", "supports"));

    store.build_adjacency();

    let paths = store.find_paths("a", "d", 10);

    assert!(paths.is_empty());
}

#[test]
fn test_find_paths_respects_max_depth() {
    let mut store = GraphStore::new();
    // Long chain: a -> b -> c -> d -> e
    for id in ["a", "b", "c", "d", "e"] {
        store.add_node(create_test_node(id));
    }

    store.add_edge(create_test_edge("a", "b", "supports"));
    store.add_edge(create_test_edge("b", "c", "supports"));
    store.add_edge(create_test_edge("c", "d", "supports"));
    store.add_edge(create_test_edge("d", "e", "supports"));

    store.build_adjacency();

    // The only path has 5 nodes, over the limit of 3.
    let paths = store.find_paths("a", "e", 3);

    assert!(paths.is_empty());
}

#[test]
fn test_find_paths_same_node() {
    let store = build_test_graph();
    let paths = store.find_paths("a", "a", 10);

    // Either empty or a single trivial one-node path is acceptable.
    if !paths.is_empty() {
        assert_eq!(paths.len(), 1);
        assert_eq!(paths[0].len(), 1);
        assert_eq!(store.nodes[paths[0][0]].id, "a");
    }
}

#[test]
fn test_find_paths_nonexistent_nodes() {
    let store = build_test_graph();

    let paths1 = store.find_paths("nonexistent", "c", 10);
    assert!(paths1.is_empty());

    let paths2 = store.find_paths("a", "nonexistent", 10);
    assert!(paths2.is_empty());
}

#[test]
fn test_find_paths_no_cycles() {
    let mut store = GraphStore::new();
    // Cycle: a -> b -> c -> a
    for id in ["a", "b", "c"] {
        store.add_node(create_test_node(id));
    }

    store.add_edge(create_test_edge("a", "b", "supports"));
    store.add_edge(create_test_edge("b", "c", "supports"));
    store.add_edge(create_test_edge("c", "a", "supports"));

    store.build_adjacency();

    let paths = store.find_paths("a", "c", 10);

    assert_eq!(paths.len(), 1); // only a -> b -> c, no cycling back
    assert_eq!(paths[0].len(), 3);
}
