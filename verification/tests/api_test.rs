use matchbox::GraphRewrite;
use matchbox::MatchOptions;
use matchbox::RuleBuilder;
use matchbox::apply_rule;
use matchbox::export_rule_to_cypher;
use matchbox::has_subgraph;
use matchbox::load_neo4j_graph;
use matchbox::match_subgraphs;
use matchbox::save_rule_as_cypher;
use matchbox::graph::Graph;
use matchbox::graph::NodeData;
use matchbox::morphism::Morphism;

fn nd(name: &str) -> NodeData {
    NodeData::new(name.to_string(), String::new(), name.to_string())
}

#[test]
fn test_match_options_default() {
    let opts = MatchOptions::default();
    assert!(opts.find_all);
    assert!(opts.check_edge_labels);
}

#[test]
fn test_match_subgraphs_first_only() {
    let mut host = Graph::new();
    host.add_node(nd("A"));
    host.add_node(nd("A"));
    let mut pattern = Graph::new();
    pattern.add_node(nd("A"));

    let all = match_subgraphs(&pattern, &host, MatchOptions::default());
    assert_eq!(all.len(), 2);
    let first = match_subgraphs(
        &pattern,
        &host,
        MatchOptions { find_all: false, check_edge_labels: true },
    );
    assert_eq!(first.len(), 1);
    assert_eq!(first[0], all[0]);
}

#[test]
fn test_has_subgraph() {
    let mut host = Graph::new();
    let a = host.add_node(nd("A"));
    let b = host.add_node(nd("B"));
    host.add_edge(a, b, "ab".to_string());
    let mut pattern = Graph::new();
    pattern.add_node(nd("B"));
    assert!(has_subgraph(&pattern, &host, true));
    let mut missing = Graph::new();
    missing.add_node(nd("C"));
    assert!(!has_subgraph(&missing, &host, true));
}

#[test]
fn test_rule_builder_and_apply() {
    let mut host = Graph::new();
    host.add_node(nd("A"));

    let mut lhs = Graph::new();
    let la = lhs.add_node(nd("A"));
    let mut interface = Graph::new();
    let ka = interface.add_node(nd("A"));
    let mut rhs = Graph::new();
    let ra = rhs.add_node(nd("A"));
    let rb = rhs.add_node(nd("B"));
    rhs.add_edge(ra, rb, "ab".to_string());
    let mut l2k = Morphism::new();
    l2k.insert_node(la, ka);
    let mut k2r = Morphism::new();
    k2r.insert_node(ka, ra);

    let rule = RuleBuilder::new()
        .lhs(lhs)
        .interface(interface)
        .rhs(rhs)
        .l2k(l2k)
        .k2r(k2r)
        .build();
    assert!(rule.validate());

    let via_fn = apply_rule(&host, &rule).expect("rule should apply");
    assert_eq!(via_fn.node_count(), 2);
    assert_eq!(via_fn.edge_count(), 1);

    let via_trait = rule.apply(&host).expect("rule should apply");
    assert_eq!(via_trait.node_count(), 2);
    assert_eq!(via_trait.edge_count(), 1);
}

#[test]
fn test_export_entry_points_agree() {
    let mut lhs = Graph::new();
    let la = lhs.add_node(nd("A"));
    let mut interface = Graph::new();
    let ka = interface.add_node(nd("A"));
    let mut rhs = Graph::new();
    let ra = rhs.add_node(nd("A"));
    let mut l2k = Morphism::new();
    l2k.insert_node(la, ka);
    let mut k2r = Morphism::new();
    k2r.insert_node(ka, ra);
    let rule = RuleBuilder::new()
        .lhs(lhs)
        .interface(interface)
        .rhs(rhs)
        .l2k(l2k)
        .k2r(k2r)
        .build();
    let exported = export_rule_to_cypher(&rule);
    let saved = save_rule_as_cypher(&rule);
    assert_eq!(exported, saved);
    assert_eq!(exported, rule.to_cypher());
}

#[test]
fn test_load_neo4j_graph_single_node() {
    let json = "[{\"Node\": {\"name\": \"A\", \"text\": \"t\", \"id\": \"ida\"}, \"Rel\": null, \"Target\": null}]";
    let g = load_neo4j_graph(json).expect("single node entry must parse");
    assert_eq!(g.node_count(), 1);
    assert_eq!(g.edge_count(), 0);
}

#[test]
fn test_rule_validate_rejects_bad_morphism() {
    let mut lhs = Graph::new();
    let la = lhs.add_node(nd("A"));
    let interface = Graph::new();
    let rhs = Graph::new();
    let mut l2k = Morphism::new();
    // Maps node A to an interface node that does not exist.
    l2k.insert_node(la, 0);
    let k2r = Morphism::new();
    let rule = matchbox::rule::Rule::new(lhs, interface, rhs, l2k, k2r);
    assert!(!rule.validate());
}
