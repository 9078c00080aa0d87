//! The public convenience surface: options-driven matching, single and
//! sequential rule application, exhaustive application, a rule builder,
//! and the ingest and export entry points.
use vstd::prelude::*;
use crate::cypher::spec_cypher;
use crate::dpo;
use crate::dpo::l2k_covers_k2r;
use crate::dpo::pairs_morphism;
use crate::dpo::spec_gluing;
use crate::dpo::spec_leaves;
use crate::dpo::spec_rewrite;
use crate::graph::Graph;
use crate::morphism::Morphism;
use crate::neo4j::Neo4jError;
use crate::rule::Rule;
use crate::vf2::embedding_ok;
use crate::vf2::find_mappings;
use crate::vf2::spec_search;

verus! {

/// Options for subgraph matching.
#[derive(Clone, Copy, Debug)]
pub struct MatchOptions {
    /// Return all matches, or only the first.
    pub find_all: bool,
    /// Require edge labels to coincide, or ignore them.
    pub check_edge_labels: bool,
}

impl Default for MatchOptions {
    /// By default all matches are returned and edge labels must match.
    fn default() -> (opts: Self)
        ensures
            opts.find_all,
            opts.check_edge_labels,
    {
        MatchOptions { find_all: true, check_edge_labels: true }
    }
}

/// Run subgraph matching of `pattern` in `host` under the given options.
/// Every returned node map is a complete embedding; without `find_all`
/// at most one map is returned, the first found.
pub fn match_subgraphs(pattern: &Graph, host: &Graph, opts: MatchOptions) -> (res: Vec<
    Vec<(usize, usize)>,
>)
    requires
        pattern@.wf(),
        host@.wf(),
    ensures
        forall|i: int|
            0 <= i < res@.len() ==> embedding_ok(
                pattern@,
                host@,
                #[trigger] res@[i]@,
                opts.check_edge_labels,
            ),
        !opts.find_all ==> res@.len() <= 1,
        res@.map_values(|x: Vec<(usize, usize)>| x@) == (if opts.find_all {
            spec_search(
                pattern@,
                host@,
                Seq::<(usize, usize)>::empty(),
                opts.check_edge_labels,
            )
        } else {
            spec_search(
                pattern@,
                host@,
                Seq::<(usize, usize)>::empty(),
                opts.check_edge_labels,
            ).take(
                vstd::math::min(
                    1,
                    spec_search(
                        pattern@,
                        host@,
                        Seq::<(usize, usize)>::empty(),
                        opts.check_edge_labels,
                    ).len() as int,
                ),
            )
        }),
{
    let mut all = find_mappings(pattern, host, opts.check_edge_labels);
    let ghost full = all@.map_values(|x: Vec<(usize, usize)>| x@);
    if !opts.find_all {
        let ghost before = all@;
        all.truncate(1);
        proof {
            if before.len() >= 1 {
                assert(all@ =~= before.subrange(0, 1));
            }
            assert(all@.map_values(|x: Vec<(usize, usize)>| x@) =~= full.take(
                vstd::math::min(1, full.len() as int),
            ));
        }
    }
    all
}

/// Does `pattern` embed in `host`? The truthiness shortcut over the
/// matcher: true exactly when the matcher's result is non-empty, so a
/// positive answer is witnessed by an embedding and a negative one rules
/// every embedding out.
pub fn has_subgraph(pattern: &Graph, host: &Graph, check_edge_labels: bool) -> (r: bool)
    requires
        pattern@.wf(),
        host@.wf(),
    ensures
        r == (spec_search(pattern@, host@, Seq::<(usize, usize)>::empty(), check_edge_labels).len()
            != 0),
        r ==> exists|mu: Seq<(usize, usize)>|
            embedding_ok(pattern@, host@, mu, check_edge_labels),
        (exists|mu: Seq<(usize, usize)>|
            embedding_ok(pattern@, host@, mu, check_edge_labels)
                && crate::vf2::keys_ascending(mu)) ==> r,
{
    crate::vf2::vf2_subgraph_isomorphism(pattern, host, check_edge_labels)
}

/// What applying a rule at its first match yields: nothing when the
/// rule has no match or its first match fails the gluing check, else
/// the rewritten graph. Later matches are never tried.
pub open spec fn spec_first_match_step(g: crate::graph::GraphModel, r: crate::rule::RuleModel) -> Option<
    crate::graph::GraphModel,
> {
    let ms = spec_search(r.lhs, g, Seq::<(usize, usize)>::empty(), true);
    if ms.len() == 0 {
        None
    } else {
        let m = pairs_morphism(ms[0]);
        if spec_gluing(g, m, r) {
            Some(spec_rewrite(g, r, m))
        } else {
            None
        }
    }
}

/// A single-step graph rewrite.
pub trait GraphRewrite {
    /// The rewrite is well-formed enough to be applied.
    spec fn rewrite_ok(&self) -> bool;

    /// Try to apply the rewrite to `host` once; the result, if any,
    /// satisfies the graph invariant.
    fn apply(&self, host: &Graph) -> (r: Option<Graph>)
        requires
            self.rewrite_ok(),
            host@.wf(),
        ensures
            r matches Some(g2) ==> g2@.wf(),
    ;
}

impl GraphRewrite for Rule {
    /// A rule is applicable when it is well-formed, valid and linear,
    /// and every interface node that `k2r` maps is reachable from `L`.
    open spec fn rewrite_ok(&self) -> bool {
        self@.wf() && self@.valid() && l2k_covers_k2r(self@) && self@.l2k.injective_nodes()
            && self@.k2r.injective_nodes()
    }

    /// Apply the rule at its first match, checking edge labels; the
    /// result is exactly `spec_first_match_step`: nothing when there is
    /// no match or the gluing condition fails on the first match, else
    /// the rewritten graph.
    fn apply(&self, host: &Graph) -> (r: Option<Graph>)
        ensures
            (match spec_first_match_step(host@, self@) {
                Some(gm) => r is Some && r->0@ == gm,
                None => r is None,
            }),
    {
        apply_rule(host, self)
    }
}

/// Apply a single rule once, at its first match, checking edge labels.
/// The result is exactly `spec_first_match_step`: nothing when the rule
/// has no match in the host or its first match in enumeration order
/// fails the gluing check, else the graph rewritten at that match.
pub fn apply_rule(host: &Graph, rule: &Rule) -> (r: Option<Graph>)
    requires
        rule@.wf(),
        rule@.valid(),
        l2k_covers_k2r(rule@),
        rule@.l2k.injective_nodes(),
        rule@.k2r.injective_nodes(),
        host@.wf(),
    ensures
        r matches Some(g2) ==> g2@.wf(),
        (match spec_first_match_step(host@, rule@) {
            Some(gm) => r is Some && r->0@ == gm,
            None => r is None,
        }),
{
    let ghost ms = spec_search(rule@.lhs, host@, Seq::<(usize, usize)>::empty(), true);
    let matches = dpo::find_matches(rule, host, true);
    if matches.len() > 0 {
        proof {
            assert(matches@[0]@ == pairs_morphism(ms[0]));
        }
        dpo::apply_once(rule, host, &matches[0])
    } else {
        None
    }
}

/// The graph after threading `g` through the first `n` rules, applying
/// each at most once at its first match; a rule that does not apply
/// leaves the graph unchanged.
pub open spec fn spec_rules_chain(
    g: crate::graph::GraphModel,
    rules: Seq<Rule>,
    n: int,
) -> crate::graph::GraphModel
    decreases n,
{
    if n <= 0 {
        g
    } else {
        let prev = spec_rules_chain(g, rules, n - 1);
        match spec_first_match_step(prev, rules[n - 1]@) {
            Some(g2) => g2,
            None => prev,
        }
    }
}

/// Sequentially apply a list of rules, threading the graph forward; each
/// rule is applied at most once, at its first match. The result is
/// exactly the left fold of single-rule application over the list.
pub fn apply_rules(host: &Graph, rules: &Vec<Rule>) -> (g: Graph)
    requires
        host@.wf(),
        forall|i: int|
            0 <= i < rules@.len() ==> (#[trigger] rules@[i]@).wf() && rules@[i]@.valid()
                && l2k_covers_k2r(rules@[i]@) && rules@[i]@.l2k.injective_nodes()
                && rules@[i]@.k2r.injective_nodes(),
    ensures
        g@.wf(),
        g@ == spec_rules_chain(host@, rules@, rules@.len() as int),
{
    let mut current = host.clone();
    let mut i: usize = 0;
    while i < rules.len()
        invariant
            i <= rules@.len(),
            current@.wf(),
            current@ == spec_rules_chain(host@, rules@, i as int),
            forall|j: int|
                0 <= j < rules@.len() ==> (#[trigger] rules@[j]@).wf() && rules@[j]@.valid()
                    && l2k_covers_k2r(rules@[j]@) && rules@[j]@.l2k.injective_nodes()
                    && rules@[j]@.k2r.injective_nodes(),
        decreases rules@.len() - i,
    {
        match apply_rule(&current, &rules[i]) {
            Some(next) => {
                current = next;
            },
            None => {},
        }
        proof {
            assert(current@ == spec_rules_chain(host@, rules@, i as int + 1));
        }
        i = i + 1;
    }
    current
}

/// Exhaustively apply a single rule, checking edge labels: exactly the
/// leaves of the derivation tree that the search over strictly
/// shrinking rewrite steps explores, every one of them terminal.
pub fn apply_exhaustive(host: &Graph, rule: &Rule) -> (res: Vec<Graph>)
    requires
        rule@.wf(),
        rule@.valid(),
        l2k_covers_k2r(rule@),
        rule@.l2k.injective_nodes(),
        rule@.k2r.injective_nodes(),
        host@.wf(),
    ensures
        res@.map_values(|x: Graph| x@) == spec_leaves(rule@, host@, true),
        forall|i: int|
            0 <= i < res@.len() ==> (#[trigger] res@[i])@.wf() && spec_search(
                rule@.lhs,
                res@[i]@,
                Seq::<(usize, usize)>::empty(),
                true,
            ).len() == 0,
        spec_search(rule@.lhs, host@, Seq::<(usize, usize)>::empty(), true).len() == 0
            ==> res@.len() == 1 && res@[0]@ == host@,
{
    dpo::apply(rule, host, true)
}

/// Collect the five parts of a rule step by step.
pub struct RuleBuilder {
    pub lhs: Option<Graph>,
    pub interface: Option<Graph>,
    pub rhs: Option<Graph>,
    pub l2k: Option<Morphism>,
    pub k2r: Option<Morphism>,
}

impl RuleBuilder {
    /// Start with no part set.
    pub fn new() -> (b: RuleBuilder)
        ensures
            b.lhs is None && b.interface is None && b.rhs is None && b.l2k is None && b.k2r
                is None,
    {
        RuleBuilder { lhs: None, interface: None, rhs: None, l2k: None, k2r: None }
    }

    /// Set the left-hand side graph.
    pub fn lhs(self, g: Graph) -> (b: Self)
        ensures
            b.lhs == Some(g),
            b.interface == self.interface && b.rhs == self.rhs && b.l2k == self.l2k && b.k2r
                == self.k2r,
    {
        RuleBuilder { lhs: Some(g), ..self }
    }

    /// Set the interface graph.
    pub fn interface(self, g: Graph) -> (b: Self)
        ensures
            b.interface == Some(g),
            b.lhs == self.lhs && b.rhs == self.rhs && b.l2k == self.l2k && b.k2r == self.k2r,
    {
        RuleBuilder { interface: Some(g), ..self }
    }

    /// Set the right-hand side graph.
    pub fn rhs(self, g: Graph) -> (b: Self)
        ensures
            b.rhs == Some(g),
            b.lhs == self.lhs && b.interface == self.interface && b.l2k == self.l2k && b.k2r
                == self.k2r,
    {
        RuleBuilder { rhs: Some(g), ..self }
    }

    /// Set the morphism from `L` to `K`.
    pub fn l2k(self, m: Morphism) -> (b: Self)
        ensures
            b.l2k == Some(m),
            b.lhs == self.lhs && b.interface == self.interface && b.rhs == self.rhs && b.k2r
                == self.k2r,
    {
        RuleBuilder { l2k: Some(m), ..self }
    }

    /// Set the morphism from `K` to `R`.
    pub fn k2r(self, m: Morphism) -> (b: Self)
        ensures
            b.k2r == Some(m),
            b.lhs == self.lhs && b.interface == self.interface && b.rhs == self.rhs && b.l2k
                == self.l2k,
    {
        RuleBuilder { k2r: Some(m), ..self }
    }

    /// Finalize into a rule; every part must have been set.
    pub fn build(self) -> (r: Rule)
        requires
            self.lhs is Some,
            self.interface is Some,
            self.rhs is Some,
            self.l2k is Some,
            self.k2r is Some,
        ensures
            r@.lhs == self.lhs->0@,
            r@.interface == self.interface->0@,
            r@.rhs == self.rhs->0@,
            r@.l2k == self.l2k->0@,
            r@.k2r == self.k2r->0@,
    {
        let lhs = match self.lhs {
            Some(g) => g,
            None => unreached(),
        };
        let interface = match self.interface {
            Some(g) => g,
            None => unreached(),
        };
        let rhs = match self.rhs {
            Some(g) => g,
            None => unreached(),
        };
        let l2k = match self.l2k {
            Some(m) => m,
            None => unreached(),
        };
        let k2r = match self.k2r {
            Some(m) => m,
            None => unreached(),
        };
        Rule::new(lhs, interface, rhs, l2k, k2r)
    }
}

/// Parse a Neo4j-style JSON string into a graph: the `spec_ingest`
/// image of the entries the text parses to.
pub fn load_neo4j_graph(json: &str) -> (r: Result<Graph, Neo4jError>)
    ensures
        r matches Ok(g) ==> g@.wf() && exists|es: Seq<crate::neo4j::EntryModel>|
            g@ == #[trigger] crate::neo4j::spec_ingest(es, es.len() as int).0,
{
    crate::neo4j::graph_from_neo4j_json(json)
}

/// Render a rule's Cypher script for saving; writing the text out is the
/// caller's concern.
pub fn save_rule_as_cypher(rule: &Rule) -> (s: String)
    requires
        rule@.wf(),
        rule@.valid(),
        rule@.l2k.injective_nodes(),
        rule@.k2r.injective_nodes(),
        l2k_covers_k2r(rule@),
    ensures
        s@ == spec_cypher(rule@),
{
    rule.to_cypher()
}

/// Render a rule as a Cypher script.
pub fn export_rule_to_cypher(rule: &Rule) -> (s: String)
    requires
        rule@.wf(),
        rule@.valid(),
        rule@.l2k.injective_nodes(),
        rule@.k2r.injective_nodes(),
        l2k_covers_k2r(rule@),
    ensures
        s@ == spec_cypher(rule@),
{
    rule.to_cypher()
}

} // verus!
