use truth_mines_engine::layout::depth::compute_depths;
use truth_mines_engine::Edge;
use truth_mines_engine::GraphStore;
use truth_mines_engine::Node;

fn create_test_node(id: &str) -> Node {
    Node {
        id: id.to_string(),
        node_type: "proposition".to_string(),
        domain: "philosophy".to_string(),
        title: format!("Node {id}"),
        content: None,
        formal: None,
        tags: vec![],
        metadata: None,
        sources: vec![],
        created: None,
        updated: None,
    }
}

fn create_test_edge(from: &str, to: &str, relation: &str) -> Edge {
    Edge {
        from: from.to_string(),
        to: to.to_string(),
        relation: relation.to_string(),
        domain: "philosophy".to_string(),
        weight: Some(900),
    }
}

fn depth_of(store: &GraphStore, depths: &[usize], id: &str) -> usize {
    depths[store.node_index(id).unwrap()]
}

#[test]
fn test_depth_single_foundation_node() {
    let mut store = GraphStore::new();
    store.add_node(create_test_node("foundation"));
    store.build_adjacency();

    let depths = compute_depths(&store);

    assert_eq!(depth_of(&store, &depths, "foundation"), 0);
}

#[test]
fn test_depth_linear_chain() {
    let mut store = GraphStore::new();
    // f -> a -> b -> c
    for id in ["f", "a", "b", "c"] {
        store.add_node(create_test_node(id));
    }

    store.add_edge(create_test_edge("f", "a", "supports"));
    store.add_edge(create_test_edge("a", "b", "supports"));
    store.add_edge(create_test_edge("b", "c", "supports"));

    store.build_adjacency();

    let depths = compute_depths(&store);

    assert_eq!(depth_of(&store, &depths, "f"), 0);
    assert_eq!(depth_of(&store, &depths, "a"), 1);
    assert_eq!(depth_of(&store, &depths, "b"), 2);
    assert_eq!(depth_of(&store, &depths, "c"), 3);
}

#[test]
fn test_depth_diamond_structure() {
    let mut store = GraphStore::new();
    // f -> a -> c and f -> b -> c
    for id in ["f", "a", "b", "c"] {
        store.add_node(create_test_node(id));
    }

    store.add_edge(create_test_edge("f", "a", "supports"));
    store.add_edge(create_test_edge("f", "b", "supports"));
    store.add_edge(create_test_edge("a", "c", "supports"));
    store.add_edge(create_test_edge("b", "c", "supports"));

    store.build_adjacency();

    let depths = compute_depths(&store);

    assert_eq!(depth_of(&store, &depths, "f"), 0);
    assert_eq!(depth_of(&store, &depths, "a"), 1);
    assert_eq!(depth_of(&store, &depths, "b"), 1);
    assert_eq!(depth_of(&store, &depths, "c"), 2); // max(1, 1) + 1
}

#[test]
fn test_depth_multiple_foundations() {
    let mut store = GraphStore::new();
    // f1 -> a, f2 -> b, a -> c, b -> c
    for id in ["f1", "f2", "a", "b", "c"] {
        store.add_node(create_test_node(id));
    }

    store.add_edge(create_test_edge("f1", "a", "supports"));
    store.add_edge(create_test_edge("f2", "b", "supports"));
    store.add_edge(create_test_edge("a", "c", "supports"));
    store.add_edge(create_test_edge("b", "c", "supports"));

    store.build_adjacency();

    let depths = compute_depths(&store);

    assert_eq!(depth_of(&store, &depths, "f1"), 0);
    assert_eq!(depth_of(&store, &depths, "f2"), 0);
    assert_eq!(depth_of(&store, &depths, "a"), 1);
    assert_eq!(depth_of(&store, &depths, "b"), 1);
    assert_eq!(depth_of(&store, &depths, "c"), 2);
}

#[test]
fn test_depth_handles_cycle() {
    let mut store = GraphStore::new();
    // f -> a -> b -> a (cycle), b -> c
    for id in ["f", "a", "b", "c"] {
        store.add_node(create_test_node(id));
    }

    store.add_edge(create_test_edge("f", "a", "supports"));
    store.add_edge(create_test_edge("a", "b", "supports"));
    store.add_edge(create_test_edge("b", "a", "supports"));
    store.add_edge(create_test_edge("b", "c", "supports"));

    store.build_adjacency();

    let depths = compute_depths(&store);

    // Every node gets a depth.
    assert_eq!(depths.len(), store.node_count());
    assert!(store.node_index("f").is_some());
    assert!(store.node_index("a").is_some());
    assert!(store.node_index("b").is_some());
    assert!(store.node_index("c").is_some());

    // The foundation sits at depth 0.
    assert_eq!(depth_of(&store, &depths, "f"), 0);

    // c is deeper than f.
    assert!(depth_of(&store, &depths, "c") > depth_of(&store, &depths, "f"));
}

#[test]
fn test_depth_only_counts_support_edges() {
    let mut store = GraphStore::new();
    // f -> a (supports), a -> b (attacks: must not count)
    for id in ["f", "a", "b"] {
        store.add_node(create_test_node(id));
    }

    store.add_edge(create_test_edge("f", "a", "supports"));
    store.add_edge(create_test_edge("a", "b", "attacks"));

    store.build_adjacency();

    let depths = compute_depths(&store);

    assert_eq!(depth_of(&store, &depths, "f"), 0);
    assert_eq!(depth_of(&store, &depths, "a"), 1);
    // b has no incoming supports/proves/entails, so it is a foundation.
    assert_eq!(depth_of(&store, &depths, "b"), 0);
}

#[test]
fn test_depth_considers_proves_and_entails() {
    let mut store = GraphStore::new();
    // f -> a (supports), a -> b (proves), b -> c (entails)
    for id in ["f", "a", "b", "c"] {
        store.add_node(create_test_node(id));
    }

    store.add_edge(create_test_edge("f", "a", "supports"));
    store.add_edge(create_test_edge("a", "b", "proves"));
    store.add_edge(create_test_edge("b", "c", "entails"));

    store.build_adjacency();

    let depths = compute_depths(&store);

    assert_eq!(depth_of(&store, &depths, "f"), 0);
    assert_eq!(depth_of(&store, &depths, "a"), 1);
    assert_eq!(depth_of(&store, &depths, "b"), 2);
    assert_eq!(depth_of(&store, &depths, "c"), 3);
}

#[test]
fn test_depth_unsettled_nodes_get_fallback_one() {
    let mut store = GraphStore::new();
    // f -> a, a -> b, b -> a (cycle), b -> c: none of a, b, c can settle
    // topologically, so each gets exactly the fallback depth 1.
    for id in ["f", "a", "b", "c"] {
        store.add_node(create_test_node(id));
    }

    store.add_edge(create_test_edge("f", "a", "supports"));
    store.add_edge(create_test_edge("a", "b", "supports"));
    store.add_edge(create_test_edge("b", "a", "supports"));
    store.add_edge(create_test_edge("b", "c", "supports"));

    store.build_adjacency();

    let depths = compute_depths(&store);

    assert_eq!(depth_of(&store, &depths, "f"), 0);
    assert_eq!(depth_of(&store, &depths, "a"), 1);
    assert_eq!(depth_of(&store, &depths, "b"), 1);
    assert_eq!(depth_of(&store, &depths, "c"), 1);
}

#[test]
fn test_depth_dangling_source_counts_toward_in_degree() {
    let mut store = GraphStore::new();
    // An edge from an unknown id still counts toward x's depth-relevant
    // in-degree, so x is no foundation; with its source unresolvable it
    // can never settle and gets the fallback depth 1.
    store.add_node(create_test_node("x"));
    store.add_edge(create_test_edge("ghost", "x", "supports"));
    store.build_adjacency();

    let depths = compute_depths(&store);

    assert_eq!(depth_of(&store, &depths, "x"), 1);
}

#[test]
fn test_depth_empty_graph() {
    let store = GraphStore::new();
    let depths = compute_depths(&store);

    assert!(depths.is_empty());
}

#[test]
fn test_depth_disconnected_components() {
    let mut store = GraphStore::new();
    // Two separate components: f1 -> a, f2 -> b
    for id in ["f1", "a", "f2", "b"] {
        store.add_node(create_test_node(id));
    }

    store.add_edge(create_test_edge("f1", "a", "supports"));
    store.add_edge(create_test_edge("f2", "b", "supports"));

    store.build_adjacency();

    let depths = compute_depths(&store);

    assert_eq!(depth_of(&store, &depths, "f1"), 0);
    assert_eq!(depth_of(&store, &depths, "a"), 1);
    assert_eq!(depth_of(&store, &depths, "f2"), 0);
    assert_eq!(depth_of(&store, &depths, "b"), 1);
}

#[test]
fn test_depth_complex_graph() {
    let mut store = GraphStore::new();
    for id in ["f1", "f2", "a", "b", "c", "d", "e"] {
        store.add_node(create_test_node(id));
    }

    store.add_edge(create_test_edge("f1", "a", "supports"));
    store.add_edge(create_test_edge("f2", "b", "supports"));
    store.add_edge(create_test_edge("a", "c", "supports"));
    store.add_edge(create_test_edge("b", "c", "supports"));
    store.add_edge(create_test_edge("c", "d", "proves"));
    store.add_edge(create_test_edge("d", "e", "entails"));

    store.build_adjacency();

    let depths = compute_depths(&store);

    assert_eq!(depth_of(&store, &depths, "f1"), 0);
    assert_eq!(depth_of(&store, &depths, "f2"), 0);
    assert_eq!(depth_of(&store, &depths, "a"), 1);
    assert_eq!(depth_of(&store, &depths, "b"), 1);
    assert_eq!(depth_of(&store, &depths, "c"), 2);
    assert_eq!(depth_of(&store, &depths, "d"), 3);
    assert_eq!(depth_of(&store, &depths, "e"), 4);
}
