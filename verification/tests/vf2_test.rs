use matchbox::graph::Graph;
use matchbox::graph::NodeData;
use matchbox::vf2::find_mappings;

fn nd(name: &str) -> NodeData {
    NodeData::new(name.to_string(), String::new(), name.to_string())
}

#[test]
fn test_vf2_found() {
    let mut graph = Graph::new();
    let a = graph.add_node(nd("A"));
    let b = graph.add_node(nd("B"));
    let c = graph.add_node(nd("C"));
    let d = graph.add_node(nd("D"));
    graph.add_edge(a, b, "ab".to_string());
    graph.add_edge(b, c, "bc".to_string());
    graph.add_edge(c, d, "cd".to_string());
    graph.add_edge(a, d, "ad".to_string());

    let mut pattern = Graph::new();
    let p1 = pattern.add_node(nd("A"));
    let p2 = pattern.add_node(nd("B"));
    let p3 = pattern.add_node(nd("C"));
    pattern.add_edge(p1, p2, "ab".to_string());
    pattern.add_edge(p2, p3, "bc".to_string());

    let mappings = find_mappings(&pattern, &graph, true);
    assert!(!mappings.is_empty());
}

#[test]
fn test_vf2_not_found() {
    let mut graph = Graph::new();
    let a = graph.add_node(nd("A"));
    let b = graph.add_node(nd("B"));
    let c = graph.add_node(nd("C"));
    graph.add_edge(a, b, "ab".to_string());
    graph.add_edge(b, c, "bc".to_string());

    let mut pattern = Graph::new();
    let p1 = pattern.add_node(nd("A"));
    let p2 = pattern.add_node(nd("B"));
    let p3 = pattern.add_node(nd("D"));
    pattern.add_edge(p1, p2, "ab".to_string());
    pattern.add_edge(p2, p3, "bd".to_string());

    let mappings = find_mappings(&pattern, &graph, true);
    assert!(mappings.is_empty());
}

#[test]
fn test_vf2_path_in_cycle_mapping() {
    let mut graph = Graph::new();
    let a = graph.add_node(nd("A"));
    let b = graph.add_node(nd("B"));
    let c = graph.add_node(nd("C"));
    let d = graph.add_node(nd("D"));
    graph.add_edge(a, b, "ab".to_string());
    graph.add_edge(b, c, "bc".to_string());
    graph.add_edge(c, d, "cd".to_string());
    graph.add_edge(a, d, "ad".to_string());

    let mut pattern = Graph::new();
    let p1 = pattern.add_node(nd("A"));
    let p2 = pattern.add_node(nd("B"));
    let p3 = pattern.add_node(nd("C"));
    pattern.add_edge(p1, p2, "ab".to_string());
    pattern.add_edge(p2, p3, "bc".to_string());

    let mappings = find_mappings(&pattern, &graph, true);
    assert!(mappings.contains(&vec![(p1, a), (p2, b), (p3, c)]));
}

#[test]
fn test_vf2_repeated_calls_agree() {
    let mut graph = Graph::new();
    let a = graph.add_node(nd("A"));
    let b = graph.add_node(nd("A"));
    let c = graph.add_node(nd("B"));
    graph.add_edge(a, c, "x".to_string());
    graph.add_edge(b, c, "x".to_string());

    let mut pattern = Graph::new();
    let p1 = pattern.add_node(nd("A"));
    let p2 = pattern.add_node(nd("B"));
    pattern.add_edge(p1, p2, "x".to_string());

    let first = find_mappings(&pattern, &graph, true);
    let second = find_mappings(&pattern, &graph, true);
    assert_eq!(first, second);
    assert_eq!(first.len(), 2);
    assert_eq!(first[0], vec![(p1, a), (p2, c)]);
    assert_eq!(first[1], vec![(p1, b), (p2, c)]);
}

#[test]
fn test_vf2_ignoring_edge_labels() {
    let mut graph = Graph::new();
    let a = graph.add_node(nd("A"));
    let b = graph.add_node(nd("B"));
    graph.add_edge(a, b, "other".to_string());

    let mut pattern = Graph::new();
    let p1 = pattern.add_node(nd("A"));
    let p2 = pattern.add_node(nd("B"));
    pattern.add_edge(p1, p2, "ab".to_string());

    assert!(find_mappings(&pattern, &graph, true).is_empty());
    assert_eq!(find_mappings(&pattern, &graph, false).len(), 1);
}
