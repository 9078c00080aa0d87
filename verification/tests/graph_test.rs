use matchbox::graph::Direction;
use matchbox::graph::Graph;
use matchbox::graph::NodeData;

fn nd(name: &str) -> NodeData {
    NodeData::new(name.to_string(), String::new(), name.to_string())
}

#[test]
fn test_remove_node_cascades() {
    let mut g = Graph::new();
    let a = g.add_node(nd("A"));
    let b = g.add_node(nd("B"));
    let c = g.add_node(nd("C"));
    g.add_edge(a, b, "ab".to_string());
    g.add_edge(b, c, "bc".to_string());
    let ac = g.add_edge(a, c, "ac".to_string());
    assert_eq!(g.node_count(), 3);
    assert_eq!(g.edge_count(), 3);

    g.remove_node(b);
    assert!(!g.is_node(b));
    assert_eq!(g.node_count(), 2);
    assert_eq!(g.edge_count(), 1);
    assert!(g.is_edge(ac));
    assert!(g.find_edge(a, b).is_none());
    assert!(g.find_edge(b, c).is_none());
    assert!(g.find_edge(a, c).is_some());
}

#[test]
fn test_identifiers_are_not_reused() {
    let mut g = Graph::new();
    let a = g.add_node(nd("A"));
    g.remove_node(a);
    let b = g.add_node(nd("B"));
    assert_ne!(a, b);
    assert!(!g.is_node(a));
    assert!(g.is_node(b));
}

#[test]
fn test_find_edge_prefers_first_and_label() {
    let mut g = Graph::new();
    let a = g.add_node(nd("A"));
    let b = g.add_node(nd("B"));
    let e1 = g.add_edge(a, b, "x".to_string());
    let e2 = g.add_edge(a, b, "y".to_string());
    assert_eq!(g.find_edge(a, b), Some(e1));
    assert_eq!(g.find_edge_labeled(a, b, &"y".to_string()), Some(e2));
    assert_eq!(g.find_edge_labeled(a, b, &"z".to_string()), None);
}

#[test]
fn test_edge_accessors() {
    let mut g = Graph::new();
    let a = g.add_node(nd("A"));
    let b = g.add_node(nd("B"));
    let e = g.add_edge(a, b, "ab".to_string());
    assert_eq!(g.edge_endpoints(e), (a, b));
    assert_eq!(g.edge_label(e).as_str(), "ab");
    g.remove_edge(e);
    assert!(!g.is_edge(e));
    assert_eq!(g.edge_count(), 0);
    assert_eq!(g.node_count(), 2);
}

#[test]
fn test_neighbors_by_direction() {
    let mut g = Graph::new();
    let a = g.add_node(nd("A"));
    let b = g.add_node(nd("B"));
    let c = g.add_node(nd("C"));
    g.add_edge(a, b, "ab".to_string());
    g.add_edge(a, c, "ac".to_string());
    g.add_edge(c, a, "ca".to_string());
    assert_eq!(g.neighbors(a, Direction::Outgoing), vec![b, c]);
    assert_eq!(g.neighbors(a, Direction::Incoming), vec![c]);
    assert_eq!(g.neighbors(b, Direction::Outgoing), Vec::<usize>::new());
    assert_eq!(g.neighbors(b, Direction::Incoming), vec![a]);
}
