//! Double-pushout rewrite rules: a span `L <- K -> R` stored as the two
//! morphisms `l2k: L -> K` and `k2r: K -> R`, with well-formedness
//! validation.
use vstd::prelude::*;
use crate::graph::Graph;
use crate::graph::GraphModel;
use crate::morphism::Morphism;
use crate::morphism::MorphismModel;

verus! {

/// Mathematical model of a rule: the three graphs and two morphisms.
pub ghost struct RuleModel {
    pub lhs: GraphModel,
    pub interface: GraphModel,
    pub rhs: GraphModel,
    pub l2k: MorphismModel,
    pub k2r: MorphismModel,
}

/// The morphism `m` is well-defined from graph `a` into graph `b`: mapped
/// nodes and edges are live on both sides, and edge images preserve
/// endpoints under the node part.
pub open spec fn morphism_ok(m: MorphismModel, a: GraphModel, b: GraphModel) -> bool {
    &&& forall|s: int| #[trigger]
        m.node_at(s) is Some ==> a.node_live(s) && b.node_live(m.node_at(s)->0)
    &&& forall|s: int| #[trigger]
        m.edge_at(s) is Some ==> a.edge_live(s) && b.edge_live(m.edge_at(s)->0) && m.node_at(
            a.edge(s).src,
        ) == Some(b.edge(m.edge_at(s)->0).src) && m.node_at(a.edge(s).dst) == Some(
            b.edge(m.edge_at(s)->0).dst,
        )
}

impl RuleModel {
    /// The four well-formedness conditions of a rule: `l2k` is a morphism
    /// from `L` into `K` and `k2r` is a morphism from `K` into `R`.
    pub open spec fn valid(self) -> bool {
        morphism_ok(self.l2k, self.lhs, self.interface) && morphism_ok(
            self.k2r,
            self.interface,
            self.rhs,
        )
    }

    /// The three graphs satisfy the graph invariant.
    pub open spec fn wf(self) -> bool {
        self.lhs.wf() && self.interface.wf() && self.rhs.wf()
    }
}

/// A DPO rewrite rule `L <- K -> R`.
///
/// - `lhs`: left-hand side graph `L`, the pattern to match.
/// - `interface`: interface graph `K`, the preserved part.
/// - `rhs`: right-hand side graph `R`, the replacement.
/// - `l2k`: morphism from `L` to `K`; elements of `L` outside its domain
///   are deleted by the rule.
/// - `k2r`: morphism from `K` to `R`; elements of `R` outside its image
///   are added by the rule.
pub struct Rule {
    pub lhs: Graph,
    pub interface: Graph,
    pub rhs: Graph,
    pub l2k: Morphism,
    pub k2r: Morphism,
}

impl View for Rule {
    type V = RuleModel;

    open spec fn view(&self) -> RuleModel {
        RuleModel {
            lhs: self.lhs@,
            interface: self.interface@,
            rhs: self.rhs@,
            l2k: self.l2k@,
            k2r: self.k2r@,
        }
    }
}

/// Check one direction of rule well-formedness: that `m` is a
/// well-defined morphism from `a` into `b`.
fn check_morphism(m: &Morphism, a: &Graph, b: &Graph) -> (r: bool)
    ensures
        r == morphism_ok(m@, a@, b@),
{
    let mut s: usize = 0;
    while s < m.node_map.len()
        invariant
            s <= m.node_map@.len(),
            forall|j: int|
                0 <= j < s as int && #[trigger] m@.node_at(j) is Some ==> a@.node_live(j)
                    && b@.node_live(m@.node_at(j)->0),
        decreases m.node_map@.len() - s,
    {
        match m.node_map[s] {
            Some(t) => {
                if !(a.is_node(s) && b.is_node(t)) {
                    proof {
                        assert(m@.node_at(s as int) == Some(t as int));
                    }
                    return false;
                }
                proof {
                    assert(m@.node_at(s as int) == Some(t as int));
                }
            },
            None => {
                proof {
                    assert(m@.node_at(s as int) is None);
                }
            },
        }
        s = s + 1;
    }
    proof {
        assert forall|s2: int| #[trigger] m@.node_at(s2) is Some implies a@.node_live(s2)
            && b@.node_live(m@.node_at(s2)->0) by {
            if s2 >= m@.nodes.len() || s2 < 0 {
                assert(m@.node_at(s2) is None);
            }
        }
    }
    let mut e: usize = 0;
    while e < m.edge_map.len()
        invariant
            e <= m.edge_map@.len(),
            forall|s2: int| #[trigger]
                m@.node_at(s2) is Some ==> a@.node_live(s2) && b@.node_live(m@.node_at(s2)->0),
            forall|j: int|
                0 <= j < e as int && #[trigger] m@.edge_at(j) is Some ==> a@.edge_live(j)
                    && b@.edge_live(m@.edge_at(j)->0) && m@.node_at(a@.edge(j).src) == Some(
                    b@.edge(m@.edge_at(j)->0).src,
                ) && m@.node_at(a@.edge(j).dst) == Some(b@.edge(m@.edge_at(j)->0).dst),
        decreases m.edge_map@.len() - e,
    {
        match m.edge_map[e] {
            Some(t) => {
                proof {
                    assert(m@.edge_at(e as int) == Some(t as int));
                }
                if !(a.is_edge(e) && b.is_edge(t)) {
                    return false;
                }
                let (asrc, adst) = a.edge_endpoints(e);
                let (bsrc, bdst) = b.edge_endpoints(t);
                let src_ok: bool = match m.map_node(asrc) {
                    Some(x) => x == bsrc,
                    None => false,
                };
                let dst_ok: bool = match m.map_node(adst) {
                    Some(x) => x == bdst,
                    None => false,
                };
                if !(src_ok && dst_ok) {
                    return false;
                }
            },
            None => {
                proof {
                    assert(m@.edge_at(e as int) is None);
                }
            },
        }
        e = e + 1;
    }
    proof {
        assert forall|e2: int| #[trigger] m@.edge_at(e2) is Some implies a@.edge_live(e2)
            && b@.edge_live(m@.edge_at(e2)->0) && m@.node_at(a@.edge(e2).src) == Some(
            b@.edge(m@.edge_at(e2)->0).src,
        ) && m@.node_at(a@.edge(e2).dst) == Some(b@.edge(m@.edge_at(e2)->0).dst) by {
            if e2 >= m@.edges.len() || e2 < 0 {
                assert(m@.edge_at(e2) is None);
            }
        }
    }
    true
}

impl Rule {
    /// Construct a rule from its five components.
    pub fn new(
        lhs: Graph,
        interface: Graph,
        rhs: Graph,
        l2k: Morphism,
        k2r: Morphism,
    ) -> (r: Rule)
        ensures
            r@.lhs == lhs@,
            r@.interface == interface@,
            r@.rhs == rhs@,
            r@.l2k == l2k@,
            r@.k2r == k2r@,
    {
        Rule { lhs, interface, rhs, l2k, k2r }
    }

    /// Decide the four well-formedness conditions: nodes and edges mapped
    /// by `l2k` are live in `L` and `K` with endpoints preserved, and
    /// symmetrically for `k2r` into `R`.
    pub fn validate(&self) -> (r: bool)
        ensures
            r == self@.valid(),
    {
        check_morphism(&self.l2k, &self.lhs, &self.interface) && check_morphism(
            &self.k2r,
            &self.interface,
            &self.rhs,
        )
    }
}

} // verus!
