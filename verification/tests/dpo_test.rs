use matchbox::apply_exhaustive;
use matchbox::apply_rules;
use matchbox::dpo::apply_once;
use matchbox::dpo::find_matches;
use matchbox::graph::Graph;
use matchbox::graph::NodeData;
use matchbox::morphism::Morphism;
use matchbox::rule::Rule;

fn nd(name: &str) -> NodeData {
    NodeData::new(name.to_string(), String::new(), name.to_string())
}

#[test]
fn test_delete_fails_on_dangling() {
    // Host: A-B-C
    let mut host = Graph::new();
    let ha = host.add_node(nd("A"));
    let hb = host.add_node(nd("B"));
    let hc = host.add_node(nd("C"));
    host.add_edge(ha, hb, "ab".to_string());
    host.add_edge(hb, hc, "bc".to_string());

    // Rule: delete B (no interface) -> should fail (dangling edges)
    let mut lhs = Graph::new();
    let _lb = lhs.add_node(nd("B"));

    let interface = Graph::new();
    let rhs = Graph::new();
    let l2k = Morphism::new();
    let k2r = Morphism::new();
    let rule = Rule::new(lhs, interface, rhs, l2k, k2r);

    let matches = find_matches(&rule, &host, true);
    assert_eq!(matches.len(), 1, "Should find exactly one match for node B");

    let result = apply_once(&rule, &host, &matches[0]);
    assert!(result.is_none(), "apply_once should return None due to dangling edges");
}

#[test]
fn test_add_node_and_edge() {
    // Host: single node A
    let mut host = Graph::new();
    let _ha = host.add_node(nd("A"));

    // Rule: match A, then add B and an edge A->B
    let mut lhs = Graph::new();
    let la = lhs.add_node(nd("A"));

    let mut interface = Graph::new();
    let ka = interface.add_node(nd("A"));

    let mut rhs = Graph::new();
    let ra = rhs.add_node(nd("A"));
    let rb = rhs.add_node(nd("B"));
    rhs.add_edge(ra, rb, "ab".to_string());

    let mut l2k = Morphism::new();
    l2k.insert_node(la, ka);

    let mut k2r = Morphism::new();
    k2r.insert_node(ka, ra);

    let rule = Rule::new(lhs, interface, rhs, l2k, k2r);

    let matches = find_matches(&rule, &host, true);
    assert_eq!(matches.len(), 1, "Should find one match for the single node A");

    let result = apply_once(&rule, &host, &matches[0])
        .expect("apply_once should succeed for an addition rule");

    assert_eq!(result.node_count(), 2, "Result should have 2 nodes");
    assert_eq!(result.edge_count(), 1, "Result should have 1 edge");

    let mut a_index = None;
    let mut b_index = None;
    for i in 0..result.node_bound() {
        if result.is_node(i) {
            if result.node_label(i).name == "A" {
                a_index = Some(i);
            }
            if result.node_label(i).name == "B" {
                b_index = Some(i);
            }
        }
    }
    let a_index = a_index.unwrap();
    let b_index = b_index.unwrap();
    assert!(
        result.find_edge(a_index, b_index).is_some(),
        "Expected an edge A\u{2192}B to have been created"
    );
}

#[test]
fn test_identity_rule_returns_equal_graph() {
    let mut host = Graph::new();
    let ha = host.add_node(nd("A"));
    let hb = host.add_node(nd("B"));
    host.add_edge(ha, hb, "ab".to_string());

    // L = K = R = single node A with identity morphisms.
    let mut lhs = Graph::new();
    let la = lhs.add_node(nd("A"));
    let mut interface = Graph::new();
    let ka = interface.add_node(nd("A"));
    let mut rhs = Graph::new();
    let ra = rhs.add_node(nd("A"));
    let mut l2k = Morphism::new();
    l2k.insert_node(la, ka);
    let mut k2r = Morphism::new();
    k2r.insert_node(ka, ra);
    let rule = Rule::new(lhs, interface, rhs, l2k, k2r);

    let matches = find_matches(&rule, &host, true);
    assert_eq!(matches.len(), 1);
    let result = apply_once(&rule, &host, &matches[0]).expect("identity rule must apply");
    assert_eq!(result.node_count(), host.node_count());
    assert_eq!(result.edge_count(), host.edge_count());
    assert!(result.find_edge(ha, hb).is_some());
    assert_eq!(result.node_label(ha).name, "A");
    assert_eq!(result.node_label(hb).name, "B");
}

fn edge_deleting_rule() -> Rule {
    // L: A->B, K: {A, B}, R: {A, B}: the rule deletes one ab edge.
    let mut lhs = Graph::new();
    let la = lhs.add_node(nd("A"));
    let lb = lhs.add_node(nd("B"));
    lhs.add_edge(la, lb, "ab".to_string());
    let mut interface = Graph::new();
    let ka = interface.add_node(nd("A"));
    let kb = interface.add_node(nd("B"));
    let mut rhs = Graph::new();
    let ra = rhs.add_node(nd("A"));
    let rb = rhs.add_node(nd("B"));
    let mut l2k = Morphism::new();
    l2k.insert_node(la, ka);
    l2k.insert_node(lb, kb);
    let mut k2r = Morphism::new();
    k2r.insert_node(ka, ra);
    k2r.insert_node(kb, rb);
    Rule::new(lhs, interface, rhs, l2k, k2r)
}

#[test]
fn test_exhaustive_edge_deletion_terminates() {
    let mut host = Graph::new();
    let ha = host.add_node(nd("A"));
    let hb = host.add_node(nd("B"));
    host.add_edge(ha, hb, "ab".to_string());

    let rule = edge_deleting_rule();
    let finals = apply_exhaustive(&host, &rule);
    assert_eq!(finals.len(), 1);
    assert_eq!(finals[0].node_count(), 2);
    assert_eq!(finals[0].edge_count(), 0);
}

#[test]
fn test_apply_rules_threads_graph() {
    let mut host = Graph::new();
    let ha = host.add_node(nd("A"));
    let hb = host.add_node(nd("B"));
    host.add_edge(ha, hb, "ab".to_string());

    let rules = vec![edge_deleting_rule(), edge_deleting_rule()];
    let result = apply_rules(&host, &rules);
    // The first rule removes the only ab edge; the second no longer matches.
    assert_eq!(result.node_count(), 2);
    assert_eq!(result.edge_count(), 0);
}

#[test]
fn test_exhaustive_without_match_returns_host() {
    let mut host = Graph::new();
    host.add_node(nd("X"));

    let rule = edge_deleting_rule();
    let finals = apply_exhaustive(&host, &rule);
    assert_eq!(finals.len(), 1);
    assert_eq!(finals[0].node_count(), 1);
    assert_eq!(finals[0].edge_count(), 0);
    assert_eq!(finals[0].node_label(0).name, "X");
}
