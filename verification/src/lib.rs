//! Pattern matching and rule-based rewriting of labeled directed graphs.
//!
//! The library is organized around two cores: a VF2-style subgraph
//! isomorphism matcher that enumerates label-preserving embeddings of a
//! pattern graph into a host graph, and a double-pushout (DPO) rewriting
//! engine that applies rules `L <- K -> R` to a host graph subject to the
//! gluing condition.
pub mod api;
pub mod graph;
pub mod morphism;
pub mod neo4j;
pub mod cypher;
pub mod dpo;
pub mod rule;
pub mod vf2;

pub use api::GraphRewrite;
pub use api::MatchOptions;
pub use api::RuleBuilder;
pub use api::apply_exhaustive;
pub use api::apply_rule;
pub use api::apply_rules;
pub use api::export_rule_to_cypher;
pub use api::has_subgraph;
pub use api::load_neo4j_graph;
pub use api::match_subgraphs;
pub use api::save_rule_as_cypher;
pub use dpo::apply;
pub use dpo::apply_once;
pub use dpo::find_matches;
pub use graph::Graph;
pub use graph::NodeData;
pub use morphism::Morphism;
pub use neo4j::Neo4jError;
pub use neo4j::graph_from_neo4j_json;
pub use rule::Rule;
pub use vf2::find_mappings;
pub use vf2::vf2_subgraph_isomorphism;
