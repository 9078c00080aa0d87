use matchbox::graph::Graph;
use matchbox::graph::NodeData;
use matchbox::morphism::Morphism;
use matchbox::rule::Rule;

fn nd(name: &str) -> NodeData {
    NodeData::new(name.to_string(), String::new(), name.to_string())
}

#[test]
fn test_cypher_export_add_edge() {
    // Build a simple DPO rule that matches a single node "A" and then adds
    // node "B" plus an edge A-[:ab]->B.
    let mut lhs = Graph::new();
    let la = lhs.add_node(nd("A"));

    let mut interface = Graph::new();
    let ka = interface.add_node(nd("A"));

    let mut rhs = Graph::new();
    let ra = rhs.add_node(nd("A"));
    let rb = rhs.add_node(nd("B"));
    rhs.add_edge(ra, rb, "ab".to_string());

    let mut l2k = Morphism::new();
    l2k.insert_node(la, ka);

    let mut k2r = Morphism::new();
    k2r.insert_node(ka, ra);

    let rule = Rule::new(lhs, interface, rhs, l2k, k2r);

    let cypher = rule.to_cypher();

    assert!(
        cypher.contains("MATCH") || cypher.contains("MERGE"),
        "Cypher must match or merge preserved elements: {}",
        cypher
    );
    assert!(cypher.contains("CREATE"), "Cypher must create new parts: {}", cypher);
    assert!(cypher.contains("ab"), "Cypher must include the relationship type: {}", cypher);
}

fn make_delete_edge_rule() -> Rule {
    // LHS: A->B
    let mut lhs = Graph::new();
    let la = lhs.add_node(nd("A"));
    let lb = lhs.add_node(nd("B"));
    lhs.add_edge(la, lb, "ab".to_string());

    // K (interface): nodes A, B, no edge
    let mut interface = Graph::new();
    let ka = interface.add_node(nd("A"));
    let kb = interface.add_node(nd("B"));

    // RHS: same nodes A, B, no edge
    let mut rhs = Graph::new();
    let ra = rhs.add_node(nd("A"));
    let rb = rhs.add_node(nd("B"));

    let mut l2k = Morphism::new();
    l2k.insert_node(la, ka);
    l2k.insert_node(lb, kb);
    let mut k2r = Morphism::new();
    k2r.insert_node(ka, ra);
    k2r.insert_node(kb, rb);

    Rule::new(lhs, interface, rhs, l2k, k2r)
}

fn make_add_edge_rule() -> Rule {
    // LHS: nodes A, B, no edge
    let mut lhs = Graph::new();
    let la = lhs.add_node(nd("A"));
    let lb = lhs.add_node(nd("B"));

    // K: same nodes, no edge
    let mut interface = Graph::new();
    let ka = interface.add_node(nd("A"));
    let kb = interface.add_node(nd("B"));

    // RHS: A->B
    let mut rhs = Graph::new();
    let ra = rhs.add_node(nd("A"));
    let rb = rhs.add_node(nd("B"));
    rhs.add_edge(ra, rb, "ab".to_string());

    let mut l2k = Morphism::new();
    l2k.insert_node(la, ka);
    l2k.insert_node(lb, kb);
    let mut k2r = Morphism::new();
    k2r.insert_node(ka, ra);
    k2r.insert_node(kb, rb);

    Rule::new(lhs, interface, rhs, l2k, k2r)
}

#[test]
fn test_delete_edge_to_cypher() {
    let rule = make_delete_edge_rule();
    let cypher = rule.to_cypher();

    assert!(cypher.contains("MATCH (n0)-[r0:ab]->(n1)"),
        "expected MATCH (n0)-[r0:ab]->(n1) in:\n{}", cypher);

    assert!(cypher.contains("DELETE r0"),
        "expected DELETE r0 in:\n{}", cypher);

    assert!(cypher.contains("WITH n0, n1"),
        "expected WITH n0, n1 in:\n{}", cypher);

    assert!(cypher.contains("CREATE"),
        "expected a CREATE clause in:\n{}", cypher);
}

#[test]
fn test_add_edge_to_cypher() {
    let rule = make_add_edge_rule();
    let cypher = rule.to_cypher();

    assert!(cypher.starts_with("MATCH "),
        "expected MATCH at start of:\n{}", cypher);

    assert!(cypher.contains("DELETE"),
        "expected DELETE clause in:\n{}", cypher);

    assert!(cypher.contains("WITH n0, n1"),
        "expected WITH n0, n1 in:\n{}", cypher);

    assert!(cypher.contains("CREATE (n0)-[:ab]->(n1)"),
        "expected CREATE (n0)-[:ab]->(n1) in:\n{}", cypher);
}

#[test]
fn test_cypher_merge_line_for_added_node() {
    let mut lhs = Graph::new();
    let la = lhs.add_node(nd("A"));
    let mut interface = Graph::new();
    let ka = interface.add_node(nd("A"));
    let mut rhs = Graph::new();
    let ra = rhs.add_node(nd("A"));
    let rb = rhs.add_node(nd("B"));
    rhs.add_edge(ra, rb, "ab".to_string());
    let mut l2k = Morphism::new();
    l2k.insert_node(la, ka);
    let mut k2r = Morphism::new();
    k2r.insert_node(ka, ra);
    let rule = Rule::new(lhs, interface, rhs, l2k, k2r);

    let cypher = rule.to_cypher();
    assert_eq!(
        cypher,
        "MATCH (n0 {name: \"A\"})\nWITH n0\nDELETE \nMERGE (m1 {name: \"B\"})\nCREATE (n0)-[:ab]->(m1)\n"
    );
}

#[test]
fn test_cypher_two_digit_variables() {
    // Eleven preserved nodes force a two-digit variable name.
    let mut lhs = Graph::new();
    let mut interface = Graph::new();
    let mut rhs = Graph::new();
    let mut l2k = Morphism::new();
    let mut k2r = Morphism::new();
    for i in 0..11usize {
        let name = format!("N{}", i);
        let l = lhs.add_node(nd(&name));
        let k = interface.add_node(nd(&name));
        let r = rhs.add_node(nd(&name));
        l2k.insert_node(l, k);
        k2r.insert_node(k, r);
    }
    let rule = Rule::new(lhs, interface, rhs, l2k, k2r);
    let cypher = rule.to_cypher();
    assert!(cypher.contains("n10"), "expected n10 in:\n{}", cypher);
}

#[test]
fn test_cypher_repeated_calls_agree() {
    let rule = make_delete_edge_rule();
    assert_eq!(rule.to_cypher(), rule.to_cypher());
}
