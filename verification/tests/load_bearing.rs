use truth_mines_engine::analysis::compute_load_bearing;
use truth_mines_engine::analysis::load_bearing::find_foundation_nodes;
use truth_mines_engine::analysis::load_bearing::has_path;
use truth_mines_engine::analysis::load_bearing::has_path_avoiding_node;
use truth_mines_engine::Edge;
use truth_mines_engine::GraphStore;
use truth_mines_engine::Node;

fn create_test_node(id: &str, node_type: &str) -> Node {
    Node {
        id: id.to_string(),
        node_type: node_type.to_string(),
        domain: "mathematics".to_string(),
        title: format!("Test {}", id),
        content: None,
        formal: None,
        tags: vec![],
        metadata: None,
        sources: vec![],
        created: None,
        updated: None,
    }
}

fn create_test_edge(from: &str, to: &str, relation: &str) -> Edge {
    Edge {
        from: from.to_string(),
        to: to.to_string(),
        relation: relation.to_string(),
        domain: "mathematics".to_string(),
        weight: Some(1000),
    }
}

fn score(graph: &GraphStore, node_id: &str) -> f32 {
    let lb = compute_load_bearing(graph, node_id);
    if lb.total == 0 {
        0.0
    } else {
        lb.orphaned as f32 / lb.total as f32
    }
}

#[test]
fn test_load_bearing_isolated_node() {
    let mut graph = GraphStore::new();
    graph.add_node(create_test_node("isolated", "axiom"));
    graph.build_adjacency();

    let load = score(&graph, "isolated");
    assert_eq!(load, 0.0, "Isolated node should have 0 load-bearing");
}

#[test]
fn test_load_bearing_leaf_node() {
    let mut graph = GraphStore::new();
    graph.add_node(create_test_node("root", "axiom"));
    graph.add_node(create_test_node("leaf", "theorem"));
    graph.add_edge(create_test_edge("root", "leaf", "supports"));
    graph.build_adjacency();

    let load = score(&graph, "leaf");
    assert_eq!(load, 0.0, "Leaf node has no descendants, should be 0");
}

#[test]
fn test_load_bearing_simple_foundation() {
    // foundation -> theorem (1 descendant out of 2 nodes)
    let mut graph = GraphStore::new();
    graph.add_node(create_test_node("foundation", "axiom"));
    graph.add_node(create_test_node("theorem", "theorem"));
    graph.add_edge(create_test_edge("foundation", "theorem", "supports"));
    graph.build_adjacency();

    let load = score(&graph, "foundation");
    // 1 orphaned descendant / 2 total nodes = 0.5
    assert!((load - 0.5).abs() < 0.01);
}

#[test]
fn test_load_bearing_linear_chain() {
    // a -> b -> c: removing a orphans both b and c
    let mut graph = GraphStore::new();
    graph.add_node(create_test_node("a", "axiom"));
    graph.add_node(create_test_node("b", "theorem"));
    graph.add_node(create_test_node("c", "theorem"));
    graph.add_edge(create_test_edge("a", "b", "supports"));
    graph.add_edge(create_test_edge("b", "c", "supports"));
    graph.build_adjacency();

    let load_a = score(&graph, "a");
    // 2 / 3 = 0.667
    assert!((load_a - 0.667).abs() < 0.01);

    let load_b = score(&graph, "b");
    // 1 / 3 = 0.333
    assert!((load_b - 0.333).abs() < 0.01);
}

#[test]
fn test_load_bearing_diamond_structure() {
    // foundation -> middle1/middle2 -> conclusion
    let mut graph = GraphStore::new();
    graph.add_node(create_test_node("foundation", "axiom"));
    graph.add_node(create_test_node("middle1", "theorem"));
    graph.add_node(create_test_node("middle2", "theorem"));
    graph.add_node(create_test_node("conclusion", "theorem"));

    graph.add_edge(create_test_edge("foundation", "middle1", "supports"));
    graph.add_edge(create_test_edge("foundation", "middle2", "supports"));
    graph.add_edge(create_test_edge("middle1", "conclusion", "supports"));
    graph.add_edge(create_test_edge("middle2", "conclusion", "supports"));
    graph.build_adjacency();

    let load = score(&graph, "foundation");
    // 3 descendants / 4 total = 0.75
    assert!((load - 0.75).abs() < 0.01);
}

#[test]
fn test_load_bearing_alternate_path() {
    // f1 -> middle -> conclusion, and an independent f2 -> conclusion
    let mut graph = GraphStore::new();
    graph.add_node(create_test_node("f1", "axiom"));
    graph.add_node(create_test_node("f2", "axiom"));
    graph.add_node(create_test_node("middle", "theorem"));
    graph.add_node(create_test_node("conclusion", "theorem"));

    graph.add_edge(create_test_edge("f1", "middle", "supports"));
    graph.add_edge(create_test_edge("middle", "conclusion", "supports"));
    graph.add_edge(create_test_edge("f2", "conclusion", "supports"));
    graph.build_adjacency();

    let load_f1 = score(&graph, "f1");
    // Only middle is orphaned: 1 / 4 = 0.25
    assert!((load_f1 - 0.25).abs() < 0.01);
}

#[test]
fn test_load_bearing_multiple_foundations() {
    // f1 and f2 both support theorem independently
    let mut graph = GraphStore::new();
    graph.add_node(create_test_node("f1", "axiom"));
    graph.add_node(create_test_node("f2", "axiom"));
    graph.add_node(create_test_node("theorem", "theorem"));

    graph.add_edge(create_test_edge("f1", "theorem", "supports"));
    graph.add_edge(create_test_edge("f2", "theorem", "supports"));
    graph.build_adjacency();

    let load_f1 = score(&graph, "f1");
    assert_eq!(load_f1, 0.0);

    let load_f2 = score(&graph, "f2");
    assert_eq!(load_f2, 0.0);
}

#[test]
fn test_load_bearing_ignores_non_epistemic_edges() {
    // a --defines--> b (non-epistemic), a --supports--> c (epistemic)
    let mut graph = GraphStore::new();
    graph.add_node(create_test_node("a", "axiom"));
    graph.add_node(create_test_node("b", "definition"));
    graph.add_node(create_test_node("c", "theorem"));

    graph.add_edge(create_test_edge("a", "b", "defines"));
    graph.add_edge(create_test_edge("a", "c", "supports"));
    graph.build_adjacency();

    let load = score(&graph, "a");
    // Only c matters epistemically: 1 / 3 = 0.333
    assert!((load - 0.333).abs() < 0.01);
}

#[test]
fn test_find_foundation_nodes() {
    let mut graph = GraphStore::new();
    graph.add_node(create_test_node("foundation", "axiom"));
    graph.add_node(create_test_node("derived", "theorem"));
    graph.add_edge(create_test_edge("foundation", "derived", "supports"));
    graph.build_adjacency();

    let foundations = find_foundation_nodes(&graph);
    assert_eq!(foundations.len(), 1);
    assert_eq!(graph.nodes[foundations[0]].id, "foundation");
}

#[test]
fn test_has_path() {
    let mut graph = GraphStore::new();
    graph.add_node(create_test_node("a", "axiom"));
    graph.add_node(create_test_node("b", "theorem"));
    graph.add_node(create_test_node("c", "theorem"));
    graph.add_edge(create_test_edge("a", "b", "supports"));
    graph.add_edge(create_test_edge("b", "c", "supports"));
    graph.build_adjacency();

    assert!(has_path(&graph, 0, 1)); // a -> b
    assert!(has_path(&graph, 0, 2)); // a -> b -> c
    assert!(!has_path(&graph, 1, 0)); // no path backward
}

#[test]
fn test_has_path_avoiding_node() {
    let mut graph = GraphStore::new();
    graph.add_node(create_test_node("start", "axiom"));
    graph.add_node(create_test_node("middle", "theorem"));
    graph.add_node(create_test_node("end", "theorem"));
    graph.add_edge(create_test_edge("start", "middle", "supports"));
    graph.add_edge(create_test_edge("middle", "end", "supports"));
    graph.build_adjacency();

    // With middle present: start -> middle -> end
    assert!(has_path(&graph, 0, 2));

    // Avoiding middle: no path
    assert!(!has_path_avoiding_node(&graph, 0, 2, 1));
}
