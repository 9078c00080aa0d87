//! The double-pushout rewriting engine: matching a rule's left-hand side,
//! the gluing (dangling-edge) check, the delete and add steps, single-step
//! application and exhaustive application.
use vstd::prelude::*;
use crate::graph::Graph;
use crate::graph::GraphModel;
use crate::morphism::Morphism;
use crate::morphism::MorphismModel;
use crate::rule::Rule;
use crate::rule::RuleModel;
use crate::vf2::find_mappings;
use crate::vf2::spec_search;
use crate::vf2::embedding_ok;
use crate::vf2::host_edge_matches;
use crate::vf2::has_key;
use crate::vf2::has_key_upto;
use crate::vf2::keys_ascending;
use crate::vf2::lemma_results_ascending;
use crate::vf2::key_at;
use crate::vf2::val_at;

verus! {

/// The node part of `m` is defined on every live node of `l`.
pub open spec fn match_total(l: GraphModel, m: MorphismModel) -> bool {
    forall|v: int| #[trigger] l.node_live(v) ==> m.node_at(v) is Some
}

/// A morphism usable as a match of `l` in `h`: total on the live nodes of
/// `l`, injective, and mapping into live nodes of `h`.
pub open spec fn match_usable(l: GraphModel, h: GraphModel, m: MorphismModel) -> bool {
    &&& match_total(l, m)
    &&& m.injective_nodes()
    &&& forall|v: int| #[trigger] m.node_at(v) is Some ==> h.node_live(m.node_at(v)->0)
}

/// A complete match of `l` in `h`: a usable morphism that is defined
/// exactly on the live nodes of `l`, preserves node labels, and realizes
/// every edge of `l` by a host edge between the images (label-matching
/// when `check` is set).
pub open spec fn match_ok(l: GraphModel, h: GraphModel, m: MorphismModel, check: bool) -> bool {
    &&& match_usable(l, h, m)
    &&& forall|v: int| #[trigger]
        m.node_at(v) is Some ==> l.node_live(v) && h.node_label(m.node_at(v)->0) == l.node_label(
            v,
        )
    &&& forall|e: int| #[trigger]
        l.edge_live(e) ==> host_edge_matches(
            h,
            m.node_at(l.edge(e).src)->0,
            m.node_at(l.edge(e).dst)->0,
            l.edge(e).label,
            check,
        )
}

/// Node `v` of `L` is deleted by the rule: live but outside the domain of
/// `l2k`.
pub open spec fn deleted_node(r: RuleModel, v: int) -> bool {
    r.lhs.node_live(v) && r.l2k.node_at(v) is None
}

/// Edge `e` of `L` is deleted by the rule: live but outside the domain of
/// `l2k`.
pub open spec fn deleted_edge(r: RuleModel, e: int) -> bool {
    r.lhs.edge_live(e) && r.l2k.edge_at(e) is None
}

/// Some interface node is mapped to `v` by `k2r`.
pub open spec fn k2r_hits_node(r: RuleModel, v: int) -> bool {
    exists|k: int| #[trigger] r.k2r.node_at(k) == Some(v)
}

/// Some interface edge is mapped to `e` by `k2r`.
pub open spec fn k2r_hits_edge(r: RuleModel, e: int) -> bool {
    exists|k: int| #[trigger] r.k2r.edge_at(k) == Some(e)
}

/// Node `v` of `R` is added by the rule: live but outside the image of
/// `k2r`.
pub open spec fn new_rhs_node(r: RuleModel, v: int) -> bool {
    r.rhs.node_live(v) && !k2r_hits_node(r, v)
}

/// Edge `e` of `R` is added by the rule: live but outside the image of
/// `k2r`.
pub open spec fn new_rhs_edge(r: RuleModel, e: int) -> bool {
    r.rhs.edge_live(e) && !k2r_hits_edge(r, e)
}

/// Every interface node in the domain of `k2r` is an `l2k` image, so a
/// new edge's interface endpoints can be traced back to `L` and then into
/// the host.
pub open spec fn l2k_covers_k2r(r: RuleModel) -> bool {
    forall|k: int| #[trigger] r.k2r.node_at(k) is Some ==> exists|v: int| #[trigger]
        r.l2k.node_at(v) == Some(k)
}

/// The rule neither deletes nor adds anything: `l2k` covers all of `L`
/// and `k2r` reaches all of `R`.
pub open spec fn identity_rule(r: RuleModel) -> bool {
    &&& forall|v: int| !#[trigger] deleted_node(r, v)
    &&& forall|e: int| !#[trigger] deleted_edge(r, e)
    &&& forall|v: int| !#[trigger] new_rhs_node(r, v)
    &&& forall|e: int| !#[trigger] new_rhs_edge(r, e)
}

/// Host node `x` is the image of some live node of `l` under `m`.
pub open spec fn node_covered(l: GraphModel, m: MorphismModel, x: int) -> bool {
    exists|v: int| l.node_live(v) && #[trigger] m.node_at(v) == Some(x)
}

/// The gluing condition: every host edge incident to the image of a
/// deleted node has both endpoints inside the image of the match, so the
/// delete step leaves no dangling edge.
pub open spec fn spec_gluing(h: GraphModel, m: MorphismModel, r: RuleModel) -> bool {
    forall|v: int, e: int|
        #![trigger m.node_at(v), h.edge_live(e)]
        deleted_node(r, v) && m.node_at(v) is Some && h.edge_live(e) ==> ((h.edge(e).src
            == m.node_at(v)->0 ==> node_covered(r.lhs, m, h.edge(e).dst)) && (h.edge(e).dst
            == m.node_at(v)->0 ==> node_covered(r.lhs, m, h.edge(e).src)))
}

/// Host node `hv` is the image of some deleted node of the rule.
pub open spec fn host_node_deleted(r: RuleModel, m: MorphismModel, hv: int) -> bool {
    exists|v: int| deleted_node(r, v) && #[trigger] m.node_at(v) == Some(hv)
}


/// Edge slot `j` holds a live edge from `u` to `v`.
pub open spec fn edge_slot_matches(s: Seq<Option<crate::graph::EdgeModel>>, j: int, u: int, v: int) -> bool {
    0 <= j < s.len() && s[j] is Some && s[j]->0.src == u && s[j]->0.dst == v
}

/// First edge slot at or after `j` holding a live edge from `u` to `v`.
pub open spec fn find_edge_from(
    s: Seq<Option<crate::graph::EdgeModel>>,
    u: int,
    v: int,
    j: int,
) -> Option<int>
    decreases s.len() - j,
{
    if j >= s.len() {
        None
    } else if edge_slot_matches(s, j, u, v) {
        Some(j)
    } else {
        find_edge_from(s, u, v, j + 1)
    }
}

/// First edge slot at or after `j` holding a live edge from `u` to `v`
/// labeled `l`.
pub open spec fn find_labeled_from(
    s: Seq<Option<crate::graph::EdgeModel>>,
    u: int,
    v: int,
    l: Seq<char>,
    j: int,
) -> Option<int>
    decreases s.len() - j,
{
    if j >= s.len() {
        None
    } else if edge_slot_matches(s, j, u, v) && s[j]->0.label == l {
        Some(j)
    } else {
        find_labeled_from(s, u, v, l, j + 1)
    }
}

/// The edge slot the delete step removes for one deleted lhs edge: the
/// first edge from `u` to `v` with the matching label if one exists,
/// else the first edge from `u` to `v` of any label.
pub open spec fn delete_target(
    s: Seq<Option<crate::graph::EdgeModel>>,
    u: int,
    v: int,
    l: Seq<char>,
) -> Option<int> {
    match find_labeled_from(s, u, v, l, 0) {
        Some(e) => Some(e),
        None => find_edge_from(s, u, v, 0),
    }
}

/// The edge array after the delete step has processed the first `n` lhs
/// edges: for each deleted lhs edge, in identifier order, one target
/// edge between the match images is removed when one exists.
pub open spec fn spec_delete_edges(
    s: Seq<Option<crate::graph::EdgeModel>>,
    r: RuleModel,
    m: MorphismModel,
    n: int,
) -> Seq<Option<crate::graph::EdgeModel>>
    decreases n,
{
    if n <= 0 {
        s
    } else {
        let prev = spec_delete_edges(s, r, m, n - 1);
        if deleted_edge(r, n - 1) && m.node_at(r.lhs.edge(n - 1).src) is Some && m.node_at(
            r.lhs.edge(n - 1).dst,
        ) is Some {
            match delete_target(
                prev,
                m.node_at(r.lhs.edge(n - 1).src)->0,
                m.node_at(r.lhs.edge(n - 1).dst)->0,
                r.lhs.edge(n - 1).label,
            ) {
                Some(e) => prev.update(e, None),
                None => prev,
            }
        } else {
            prev
        }
    }
}

/// The edge array after the cascading node removals: every edge incident
/// to the image of a deleted node is gone, everything else untouched.
pub open spec fn spec_drop_incident(
    s: Seq<Option<crate::graph::EdgeModel>>,
    r: RuleModel,
    m: MorphismModel,
) -> Seq<Option<crate::graph::EdgeModel>> {
    Seq::new(
        s.len(),
        |k: int|
            match s[k] {
                Some(e) => if host_node_deleted(r, m, e.src) || host_node_deleted(r, m, e.dst) {
                    None
                } else {
                    Some(e)
                },
                None => None,
            },
    )
}

/// The node array after the delete step: the images of the deleted lhs
/// nodes are gone, everything else untouched.
pub open spec fn spec_deleted_nodes(
    nodes: Seq<Option<crate::graph::NodeDataModel>>,
    r: RuleModel,
    m: MorphismModel,
) -> Seq<Option<crate::graph::NodeDataModel>> {
    Seq::new(
        nodes.len(),
        |v: int|
            if host_node_deleted(r, m, v) {
                None
            } else {
                nodes[v]
            },
    )
}

/// A first-match characterization determines the spec's answer: the
/// unlabeled search.
proof fn lemma_find_edge_from_char(
    s: Seq<Option<crate::graph::EdgeModel>>,
    u: int,
    v: int,
    j: int,
    r: Option<int>,
)
    requires
        0 <= j,
        match r {
            Some(e) => j <= e && edge_slot_matches(s, e, u, v) && forall|k: int|
                j <= k < e ==> !#[trigger] edge_slot_matches(s, k, u, v),
            None => forall|k: int| j <= k ==> !#[trigger] edge_slot_matches(s, k, u, v),
        },
    ensures
        find_edge_from(s, u, v, j) == r,
    decreases s.len() - j,
{
    if j >= s.len() {
        if r is Some {
            assert(edge_slot_matches(s, r->0, u, v));
            assert(false);
        }
    } else if edge_slot_matches(s, j, u, v) {
        if r is None {
            assert(!edge_slot_matches(s, j, u, v));
        }
        if r is Some && r->0 != j {
            assert(!edge_slot_matches(s, j, u, v));
        }
    } else {
        lemma_find_edge_from_char(s, u, v, j + 1, r);
    }
}

/// A first-match characterization determines the spec's answer: the
/// labeled search.
proof fn lemma_find_labeled_from_char(
    s: Seq<Option<crate::graph::EdgeModel>>,
    u: int,
    v: int,
    l: Seq<char>,
    j: int,
    r: Option<int>,
)
    requires
        0 <= j,
        match r {
            Some(e) => j <= e && edge_slot_matches(s, e, u, v) && s[e]->0.label == l && forall|
                k: int,
            |
                j <= k < e ==> !(#[trigger] edge_slot_matches(s, k, u, v) && s[k]->0.label == l),
            None => forall|k: int|
                j <= k ==> !(#[trigger] edge_slot_matches(s, k, u, v) && s[k]->0.label == l),
        },
    ensures
        find_labeled_from(s, u, v, l, j) == r,
    decreases s.len() - j,
{
    if j >= s.len() {
        if r is Some {
            assert(edge_slot_matches(s, r->0, u, v));
            assert(false);
        }
    } else if edge_slot_matches(s, j, u, v) && s[j]->0.label == l {
        if r is None {
            assert(!(edge_slot_matches(s, j, u, v) && s[j]->0.label == l));
        }
        if r is Some && r->0 != j {
            assert(!(edge_slot_matches(s, j, u, v) && s[j]->0.label == l));
        }
    } else {
        lemma_find_labeled_from_char(s, u, v, l, j + 1, r);
    }
}

/// A rule that deletes no edge leaves the edge-delete phase a no-op.
pub proof fn lemma_delete_edges_noop(
    s: Seq<Option<crate::graph::EdgeModel>>,
    r: RuleModel,
    m: MorphismModel,
    n: int,
)
    requires
        forall|le: int| !#[trigger] deleted_edge(r, le),
    ensures
        spec_delete_edges(s, r, m, n) == s,
    decreases n,
{
    if n > 0 {
        lemma_delete_edges_noop(s, r, m, n - 1);
    }
}

/// Is `x` the image of a live node of `lhs` under `m`?
fn is_covered(lhs: &Graph, m: &Morphism, x: usize) -> (r: bool)
    ensures
        r == node_covered(lhs@, m@, x as int),
{
    let bound = lhs.node_bound();
    let mut v: usize = 0;
    while v < bound
        invariant
            bound as int == lhs@.nodes.len(),
            v <= bound,
            forall|w: int|
                0 <= w < v as int && lhs@.node_live(w) ==> #[trigger] m@.node_at(w) != Some(
                    x as int,
                ),
        decreases bound as int - v,
    {
        if lhs.is_node(v) {
            match m.map_node(v) {
                Some(t) => {
                    if t == x {
                        return true;
                    }
                },
                None => {},
            }
        }
        v = v + 1;
    }
    proof {
        assert forall|w: int| lhs@.node_live(w) implies #[trigger] m@.node_at(w) != Some(
            x as int,
        ) by {
            if w >= bound as int || w < 0 {
                assert(!lhs@.node_live(w));
            }
        }
    }
    false
}

/// Decide the gluing condition for a match `m` of the rule's left-hand
/// side in `host`.
pub fn check_gluing(host: &Graph, m: &Morphism, rule: &Rule) -> (r: bool)
    requires
        match_total(rule@.lhs, m@),
    ensures
        r == spec_gluing(host@, m@, rule@),
{
    let lbound = rule.lhs.node_bound();
    let mut v: usize = 0;
    while v < lbound
        invariant
            lbound as int == rule@.lhs.nodes.len(),
            v <= lbound,
            match_total(rule@.lhs, m@),
            forall|w: int, e: int|
                #![trigger m@.node_at(w), host@.edge_live(e)]
                0 <= w < v as int && deleted_node(rule@, w) && m@.node_at(w) is Some
                    && host@.edge_live(e) ==> ((host@.edge(e).src == m@.node_at(w)->0
                    ==> node_covered(rule@.lhs, m@, host@.edge(e).dst)) && (host@.edge(e).dst
                    == m@.node_at(w)->0 ==> node_covered(rule@.lhs, m@, host@.edge(e).src))),
        decreases lbound as int - v,
    {
        if rule.lhs.is_node(v) {
            if rule.l2k.map_node(v).is_none() {
                let hv = match m.map_node(v) {
                    Some(t) => t,
                    None => unreached(),
                };
                let ebound = host.edge_bound();
                let mut e: usize = 0;
                while e < ebound
                    invariant
                        ebound as int == host@.edges.len(),
                        e <= ebound,
                        rule@.lhs.node_live(v as int),
                        deleted_node(rule@, v as int),
                        m@.node_at(v as int) == Some(hv as int),
                        forall|e2: int|
                            0 <= e2 < e as int && #[trigger] host@.edge_live(e2) ==> ((host@.edge(
                                e2,
                            ).src == hv as int ==> node_covered(rule@.lhs, m@, host@.edge(e2).dst))
                                && (host@.edge(e2).dst == hv as int ==> node_covered(
                                rule@.lhs,
                                m@,
                                host@.edge(e2).src,
                            ))),
                    decreases ebound as int - e,
                {
                    if host.is_edge(e) {
                        let (es, ed) = host.edge_endpoints(e);
                        if es == hv {
                            if !is_covered(&rule.lhs, m, ed) {
                                proof {
                                    assert(deleted_node(rule@, v as int));
                                    if spec_gluing(host@, m@, rule@) {
                                        assert(host@.edge_live(e as int));
                                        assert(node_covered(
                                            rule@.lhs,
                                            m@,
                                            host@.edge(e as int).dst,
                                        ));
                                    }
                                }
                                return false;
                            }
                        }
                        if ed == hv {
                            if !is_covered(&rule.lhs, m, es) {
                                proof {
                                    assert(deleted_node(rule@, v as int));
                                    if spec_gluing(host@, m@, rule@) {
                                        assert(host@.edge_live(e as int));
                                        assert(node_covered(
                                            rule@.lhs,
                                            m@,
                                            host@.edge(e as int).src,
                                        ));
                                    }
                                }
                                return false;
                            }
                        }
                    }
                    e = e + 1;
                }
            }
        }
        v = v + 1;
    }
    proof {
        assert forall|w: int, e: int|
            #![trigger m@.node_at(w), host@.edge_live(e)]
            deleted_node(rule@, w) && m@.node_at(w) is Some && host@.edge_live(
                e,
            ) implies ((host@.edge(e).src == m@.node_at(w)->0 ==> node_covered(
            rule@.lhs,
            m@,
            host@.edge(e).dst,
        )) && (host@.edge(e).dst == m@.node_at(w)->0 ==> node_covered(
            rule@.lhs,
            m@,
            host@.edge(e).src,
        ))) by {
            if w >= lbound as int || w < 0 {
                assert(!rule@.lhs.node_live(w));
            }
        }
    }
    true
}

/// Delete step: remove the images of the deleted edges of `L`, then the
/// images of the deleted nodes (with their remaining incident edges).
/// The result is exact: the edge array is `spec_delete_edges` (one
/// target edge removed per deleted lhs edge, matching label preferred)
/// followed by `spec_drop_incident` (the cascade of the node removals),
/// and the node array is `spec_deleted_nodes`.
pub fn delete_part(host: &mut Graph, m: &Morphism, rule: &Rule)
    requires
        old(host)@.wf(),
        rule@.wf(),
        rule@.valid(),
        match_usable(rule@.lhs, old(host)@, m@),
    ensures
        final(host)@.wf(),
        final(host)@.nodes == spec_deleted_nodes(old(host)@.nodes, rule@, m@),
        final(host)@.edges == spec_drop_incident(
            spec_delete_edges(old(host)@.edges, rule@, m@, rule@.lhs.edges.len() as int),
            rule@,
            m@,
        ),
{
    let lebound = rule.lhs.edge_bound();
    let mut le: usize = 0;
    while le < lebound
        invariant
            lebound as int == rule@.lhs.edges.len(),
            le <= lebound,
            host@.wf(),
            rule@.wf(),
            rule@.valid(),
            match_usable(rule@.lhs, old(host)@, m@),
            host@.nodes == old(host)@.nodes,
            host@.edges == spec_delete_edges(old(host)@.edges, rule@, m@, le as int),
        decreases lebound as int - le,
    {
        let ghost prev = host@;
        if rule.lhs.is_edge(le) {
            if rule.l2k.map_edge(le).is_none() {
                proof {
                    assert(deleted_edge(rule@, le as int));
                }
                let (ls, ld) = rule.lhs.edge_endpoints(le);
                proof {
                    assert(rule@.lhs.node_live(ls as int));
                    assert(rule@.lhs.node_live(ld as int));
                }
                let hs = match m.map_node(ls) {
                    Some(t) => t,
                    None => unreached(),
                };
                let hd = match m.map_node(ld) {
                    Some(t) => t,
                    None => unreached(),
                };
                let label = rule.lhs.edge_label(le).clone();
                let labeled = host.find_edge_labeled(hs, hd, &label);
                proof {
                    match labeled {
                        Some(e) => {
                            assert(prev.edge_between(e as int, hs as int, hd as int));
                            assert(edge_slot_matches(prev.edges, e as int, hs as int, hd as int));
                            assert forall|k: int|
                                0 <= k < e as int implies !(#[trigger] edge_slot_matches(
                                prev.edges,
                                k,
                                hs as int,
                                hd as int,
                            ) && prev.edges[k]->0.label == label@) by {
                                if edge_slot_matches(prev.edges, k, hs as int, hd as int)
                                    && prev.edges[k]->0.label == label@ {
                                    assert(prev.edge_between(k, hs as int, hd as int)
                                        && prev.edge(k).label == label@);
                                }
                            }
                            lemma_find_labeled_from_char(
                                prev.edges,
                                hs as int,
                                hd as int,
                                label@,
                                0,
                                Some(e as int),
                            );
                        },
                        None => {
                            assert forall|k: int|
                                0 <= k implies !(edge_slot_matches(
                                prev.edges,
                                k,
                                hs as int,
                                hd as int,
                            ) && prev.edges[k]->0.label == label@) by {
                                if edge_slot_matches(prev.edges, k, hs as int, hd as int)
                                    && prev.edges[k]->0.label == label@ {
                                    assert(prev.edge_between(k, hs as int, hd as int));
                                    assert(prev.has_labeled_edge(hs as int, hd as int, label@));
                                }
                            }
                            lemma_find_labeled_from_char(
                                prev.edges,
                                hs as int,
                                hd as int,
                                label@,
                                0,
                                None,
                            );
                        },
                    }
                }
                let target: Option<usize> = match labeled {
                    Some(e) => Some(e),
                    None => {
                        let unl = host.find_edge(hs, hd);
                        proof {
                            match unl {
                                Some(e) => {
                                    assert(prev.edge_between(e as int, hs as int, hd as int));
                                    assert(edge_slot_matches(
                                        prev.edges,
                                        e as int,
                                        hs as int,
                                        hd as int,
                                    ));
                                    assert forall|k: int|
                                        0 <= k < e as int implies !#[trigger] edge_slot_matches(
                                        prev.edges,
                                        k,
                                        hs as int,
                                        hd as int,
                                    ) by {
                                        if edge_slot_matches(prev.edges, k, hs as int, hd as int) {
                                            assert(prev.edge_between(k, hs as int, hd as int));
                                        }
                                    }
                                    lemma_find_edge_from_char(
                                        prev.edges,
                                        hs as int,
                                        hd as int,
                                        0,
                                        Some(e as int),
                                    );
                                },
                                None => {
                                    assert forall|k: int|
                                        0 <= k implies !edge_slot_matches(
                                        prev.edges,
                                        k,
                                        hs as int,
                                        hd as int,
                                    ) by {
                                        if edge_slot_matches(prev.edges, k, hs as int, hd as int) {
                                            assert(prev.edge_between(k, hs as int, hd as int));
                                            assert(prev.has_edge(hs as int, hd as int));
                                        }
                                    }
                                    lemma_find_edge_from_char(
                                        prev.edges,
                                        hs as int,
                                        hd as int,
                                        0,
                                        None,
                                    );
                                },
                            }
                        }
                        unl
                    },
                };
                proof {
                    assert(m@.node_at(rule@.lhs.edge(le as int).src) == Some(hs as int));
                    assert(m@.node_at(rule@.lhs.edge(le as int).dst) == Some(hd as int));
                    match target {
                        Some(e) => {
                            assert(delete_target(prev.edges, hs as int, hd as int, label@)
                                == Some(e as int));
                        },
                        None => {
                            assert(delete_target(prev.edges, hs as int, hd as int, label@)
                                is None);
                        },
                    }
                }
                match target {
                    Some(e) => {
                        host.remove_edge(e);
                        proof {
                            assert(host@.edges == prev.edges.update(e as int, None));
                            assert(host@.edges == spec_delete_edges(
                                old(host)@.edges,
                                rule@,
                                m@,
                                le as int + 1,
                            ));
                        }
                    },
                    None => {
                        proof {
                            assert(host@.edges == spec_delete_edges(
                                old(host)@.edges,
                                rule@,
                                m@,
                                le as int + 1,
                            ));
                        }
                    },
                }
            } else {
                proof {
                    assert(!deleted_edge(rule@, le as int));
                    assert(host@.edges == spec_delete_edges(
                        old(host)@.edges,
                        rule@,
                        m@,
                        le as int + 1,
                    ));
                }
            }
        } else {
            proof {
                assert(!deleted_edge(rule@, le as int));
                assert(host@.edges == spec_delete_edges(
                    old(host)@.edges,
                    rule@,
                    m@,
                    le as int + 1,
                ));
            }
        }
        le = le + 1;
    }
    let ghost mid = host@;
    let lnbound = rule.lhs.node_bound();
    let mut v: usize = 0;
    while v < lnbound
        invariant
            lnbound as int == rule@.lhs.nodes.len(),
            v <= lnbound,
            host@.wf(),
            rule@.wf(),
            rule@.valid(),
            match_usable(rule@.lhs, old(host)@, m@),
            mid.nodes == old(host)@.nodes,
            host@.nodes.len() == old(host)@.nodes.len(),
            host@.edges.len() == mid.edges.len(),
            forall|hv: int|
                0 <= hv < old(host)@.nodes.len() ==> #[trigger] host@.nodes[hv] == (
                if exists|w: int|
                    0 <= w < v as int && deleted_node(rule@, w) && #[trigger] m@.node_at(w)
                        == Some(hv) {
                    None
                } else {
                    old(host)@.nodes[hv]
                }),
            forall|k: int|
                0 <= k < mid.edges.len() ==> #[trigger] host@.edges[k] == (
                if mid.edges[k] is Some && exists|w: int|
                    0 <= w < v as int && deleted_node(rule@, w) && #[trigger] m@.node_at(w)
                        is Some && (mid.edges[k]->0.src == m@.node_at(w)->0 || mid.edges[k]->0.dst
                        == m@.node_at(w)->0) {
                    None
                } else {
                    mid.edges[k]
                }),
        decreases lnbound as int - v,
    {
        if rule.lhs.is_node(v) {
            if rule.l2k.map_node(v).is_none() {
                proof {
                    assert(deleted_node(rule@, v as int));
                }
                let hv = match m.map_node(v) {
                    Some(t) => t,
                    None => unreached(),
                };
                proof {
                    assert(old(host)@.node_live(hv as int));
                    if exists|w: int|
                        0 <= w < v as int && deleted_node(rule@, w) && #[trigger] m@.node_at(w)
                            == Some(hv as int) {
                        let w = choose|w: int|
                            0 <= w < v as int && deleted_node(rule@, w) && #[trigger] m@.node_at(
                                w,
                            ) == Some(hv as int);
                        assert(m@.node_at(w) == m@.node_at(v as int));
                        assert(false);
                    }
                    assert(host@.node_live(hv as int));
                }
                let ghost prev = host@;
                host.remove_node(hv);
                proof {
                    assert forall|hv2: int|
                        0 <= hv2 < old(host)@.nodes.len() implies #[trigger] host@.nodes[hv2] == (
                    if exists|w: int|
                        0 <= w < v as int + 1 && deleted_node(rule@, w) && #[trigger] m@.node_at(w)
                            == Some(hv2) {
                        None
                    } else {
                        old(host)@.nodes[hv2]
                    }) by {
                        if hv2 == hv as int {
                            assert(m@.node_at(v as int) == Some(hv2));
                        } else {
                            assert(host@.nodes[hv2] == prev.nodes[hv2]);
                            if exists|w: int|
                                0 <= w < v as int + 1 && deleted_node(rule@, w)
                                    && #[trigger] m@.node_at(w) == Some(hv2) {
                                let w = choose|w: int|
                                    0 <= w < v as int + 1 && deleted_node(rule@, w)
                                        && #[trigger] m@.node_at(w) == Some(hv2);
                                assert(w < v as int);
                            }
                        }
                    }
                    assert forall|k: int|
                        0 <= k < mid.edges.len() implies #[trigger] host@.edges[k] == (
                    if mid.edges[k] is Some && exists|w: int|
                        0 <= w < v as int + 1 && deleted_node(rule@, w) && #[trigger] m@.node_at(
                            w,
                        ) is Some && (mid.edges[k]->0.src == m@.node_at(w)->0 || mid.edges[k]->0.dst
                        == m@.node_at(w)->0) {
                        None
                    } else {
                        mid.edges[k]
                    }) by {
                        if prev.edges[k] is None {
                            assert(host@.edges[k] == prev.edges[k]);
                            if mid.edges[k] is Some {
                                assert(exists|w: int|
                                    0 <= w < v as int && deleted_node(rule@, w)
                                        && #[trigger] m@.node_at(w) is Some && (mid.edges[k]->0.src
                                        == m@.node_at(w)->0 || mid.edges[k]->0.dst == m@.node_at(
                                        w,
                                    )->0));
                                let w = choose|w: int|
                                    0 <= w < v as int && deleted_node(rule@, w)
                                        && #[trigger] m@.node_at(w) is Some && (mid.edges[k]->0.src
                                        == m@.node_at(w)->0 || mid.edges[k]->0.dst == m@.node_at(
                                        w,
                                    )->0);
                                assert(0 <= w < v as int + 1);
                            }
                        } else {
                            assert(prev.edges[k] == mid.edges[k]);
                            assert(prev.edge_live(k));
                            if prev.edge(k).src == hv as int || prev.edge(k).dst == hv as int {
                                assert(host@.edges[k] is None);
                                assert(m@.node_at(v as int) is Some);
                                assert(deleted_node(rule@, v as int) && m@.node_at(
                                    v as int,
                                ) is Some && (mid.edges[k]->0.src == m@.node_at(v as int)->0
                                    || mid.edges[k]->0.dst == m@.node_at(v as int)->0));
                            } else {
                                assert(host@.edges[k] == prev.edges[k]);
                                if exists|w: int|
                                    0 <= w < v as int + 1 && deleted_node(rule@, w)
                                        && #[trigger] m@.node_at(w) is Some && (mid.edges[k]->0.src
                                        == m@.node_at(w)->0 || mid.edges[k]->0.dst == m@.node_at(
                                        w,
                                    )->0) {
                                    let w = choose|w: int|
                                        0 <= w < v as int + 1 && deleted_node(rule@, w)
                                            && #[trigger] m@.node_at(w) is Some && (
                                        mid.edges[k]->0.src == m@.node_at(w)->0
                                            || mid.edges[k]->0.dst == m@.node_at(w)->0);
                                    if w == v as int {
                                        assert(m@.node_at(w) == Some(hv as int));
                                        assert(false);
                                    }
                                    assert(0 <= w < v as int);
                                    assert(prev.edges[k] is None);
                                    assert(false);
                                }
                            }
                        }
                    }
                }
            }
        }
        v = v + 1;
    }
    proof {
        assert forall|hv: int| 0 <= hv < old(host)@.nodes.len() implies #[trigger] host@.nodes[hv]
            == (if host_node_deleted(rule@, m@, hv) {
            None
        } else {
            old(host)@.nodes[hv]
        }) by {
            if host_node_deleted(rule@, m@, hv) {
                let w = choose|w: int| deleted_node(rule@, w) && #[trigger] m@.node_at(w) == Some(
                    hv,
                );
                assert(0 <= w < lnbound as int);
            }
        }
        assert(host@.nodes =~= spec_deleted_nodes(old(host)@.nodes, rule@, m@));
        assert forall|k: int| 0 <= k < mid.edges.len() implies #[trigger] host@.edges[k]
            == spec_drop_incident(mid.edges, rule@, m@)[k] by {
            if mid.edges[k] is Some {
                let e = mid.edges[k]->0;
                if host_node_deleted(rule@, m@, e.src) || host_node_deleted(rule@, m@, e.dst) {
                    if host_node_deleted(rule@, m@, e.src) {
                        let w = choose|w: int|
                            deleted_node(rule@, w) && #[trigger] m@.node_at(w) == Some(e.src);
                        assert(0 <= w < lnbound as int);
                        assert(m@.node_at(w) is Some && mid.edges[k]->0.src == m@.node_at(w)->0);
                    } else {
                        let w = choose|w: int|
                            deleted_node(rule@, w) && #[trigger] m@.node_at(w) == Some(e.dst);
                        assert(0 <= w < lnbound as int);
                        assert(m@.node_at(w) is Some && mid.edges[k]->0.dst == m@.node_at(w)->0);
                    }
                } else {
                    if exists|w: int|
                        0 <= w < lnbound as int && deleted_node(rule@, w) && #[trigger] m@.node_at(
                            w,
                        ) is Some && (mid.edges[k]->0.src == m@.node_at(w)->0 || mid.edges[k]->0.dst
                        == m@.node_at(w)->0) {
                        let w = choose|w: int|
                            0 <= w < lnbound as int && deleted_node(rule@, w)
                                && #[trigger] m@.node_at(w) is Some && (mid.edges[k]->0.src
                                == m@.node_at(w)->0 || mid.edges[k]->0.dst == m@.node_at(w)->0);
                        if mid.edges[k]->0.src == m@.node_at(w)->0 {
                            assert(m@.node_at(w) == Some(e.src));
                            assert(host_node_deleted(rule@, m@, e.src));
                        } else {
                            assert(m@.node_at(w) == Some(e.dst));
                            assert(host_node_deleted(rule@, m@, e.dst));
                        }
                        assert(false);
                    }
                }
            }
        }
        assert(host@.edges =~= spec_drop_incident(mid.edges, rule@, m@));
    }
}

/// Does some interface node map to rhs node `v` under `k2r`?
pub(crate) fn k2r_hits_node_exec(rule: &Rule, v: usize) -> (r: bool)
    ensures
        r == k2r_hits_node(rule@, v as int),
{
    let mut k: usize = 0;
    while k < rule.k2r.node_map.len()
        invariant
            k <= rule.k2r.node_map@.len(),
            forall|j: int|
                0 <= j < k as int ==> #[trigger] rule@.k2r.node_at(j) != Some(v as int),
        decreases rule.k2r.node_map@.len() - k,
    {
        match rule.k2r.node_map[k] {
            Some(t) => {
                if t == v {
                    proof {
                        assert(rule@.k2r.node_at(k as int) == Some(v as int));
                    }
                    return true;
                }
                proof {
                    assert(rule@.k2r.node_at(k as int) == Some(t as int));
                }
            },
            None => {
                proof {
                    assert(rule@.k2r.node_at(k as int) is None);
                }
            },
        }
        k = k + 1;
    }
    proof {
        assert forall|j: int| #[trigger] rule@.k2r.node_at(j) != Some(v as int) by {
            if j < 0 || j >= rule@.k2r.nodes.len() {
                assert(rule@.k2r.node_at(j) is None);
            }
        }
    }
    false
}

/// Does some interface edge map to rhs edge `e` under `k2r`?
pub(crate) fn k2r_hits_edge_exec(rule: &Rule, e: usize) -> (r: bool)
    ensures
        r == k2r_hits_edge(rule@, e as int),
{
    let mut k: usize = 0;
    while k < rule.k2r.edge_map.len()
        invariant
            k <= rule.k2r.edge_map@.len(),
            forall|j: int|
                0 <= j < k as int ==> #[trigger] rule@.k2r.edge_at(j) != Some(e as int),
        decreases rule.k2r.edge_map@.len() - k,
    {
        match rule.k2r.edge_map[k] {
            Some(t) => {
                if t == e {
                    proof {
                        assert(rule@.k2r.edge_at(k as int) == Some(e as int));
                    }
                    return true;
                }
                proof {
                    assert(rule@.k2r.edge_at(k as int) == Some(t as int));
                }
            },
            None => {
                proof {
                    assert(rule@.k2r.edge_at(k as int) is None);
                }
            },
        }
        k = k + 1;
    }
    proof {
        assert forall|j: int| #[trigger] rule@.k2r.edge_at(j) != Some(e as int) by {
            if j < 0 || j >= rule@.k2r.edges.len() {
                assert(rule@.k2r.edge_at(j) is None);
            }
        }
    }
    false
}

/// First interface node that `k2r` maps to rhs node `v`.
pub(crate) fn k2r_preimage_node(rule: &Rule, v: usize) -> (r: Option<usize>)
    ensures
        match r {
            Some(k) => rule@.k2r.node_at(k as int) == Some(v as int),
            None => !k2r_hits_node(rule@, v as int),
        },
{
    let mut k: usize = 0;
    while k < rule.k2r.node_map.len()
        invariant
            k <= rule.k2r.node_map@.len(),
            forall|j: int|
                0 <= j < k as int ==> #[trigger] rule@.k2r.node_at(j) != Some(v as int),
        decreases rule.k2r.node_map@.len() - k,
    {
        match rule.k2r.node_map[k] {
            Some(t) => {
                if t == v {
                    proof {
                        assert(rule@.k2r.node_at(k as int) == Some(v as int));
                    }
                    return Some(k);
                }
                proof {
                    assert(rule@.k2r.node_at(k as int) == Some(t as int));
                }
            },
            None => {
                proof {
                    assert(rule@.k2r.node_at(k as int) is None);
                }
            },
        }
        k = k + 1;
    }
    proof {
        assert forall|j: int| #[trigger] rule@.k2r.node_at(j) != Some(v as int) by {
            if j < 0 || j >= rule@.k2r.nodes.len() {
                assert(rule@.k2r.node_at(j) is None);
            }
        }
    }
    None
}

/// First lhs node that `l2k` maps to interface node `k`.
pub(crate) fn l2k_preimage_node(rule: &Rule, k: usize) -> (r: Option<usize>)
    ensures
        match r {
            Some(v) => rule@.l2k.node_at(v as int) == Some(k as int),
            None => forall|v: int| #[trigger] rule@.l2k.node_at(v) != Some(k as int),
        },
{
    let mut v: usize = 0;
    while v < rule.l2k.node_map.len()
        invariant
            v <= rule.l2k.node_map@.len(),
            forall|j: int|
                0 <= j < v as int ==> #[trigger] rule@.l2k.node_at(j) != Some(k as int),
        decreases rule.l2k.node_map@.len() - v,
    {
        match rule.l2k.node_map[v] {
            Some(t) => {
                if t == k {
                    proof {
                        assert(rule@.l2k.node_at(v as int) == Some(k as int));
                    }
                    return Some(v);
                }
                proof {
                    assert(rule@.l2k.node_at(v as int) == Some(t as int));
                }
            },
            None => {
                proof {
                    assert(rule@.l2k.node_at(v as int) is None);
                }
            },
        }
        v = v + 1;
    }
    proof {
        assert forall|j: int| #[trigger] rule@.l2k.node_at(j) != Some(k as int) by {
            if j < 0 || j >= rule@.l2k.nodes.len() {
                assert(rule@.l2k.node_at(j) is None);
            }
        }
    }
    None
}

/// The node slots the add step appends while processing the first `n`
/// rhs nodes: one fresh slot per added rhs node, carrying its label, in
/// identifier order.
pub open spec fn spec_added_nodes(r: RuleModel, n: int) -> Seq<
    Option<crate::graph::NodeDataModel>,
>
    decreases n,
{
    if n <= 0 {
        Seq::empty()
    } else {
        spec_added_nodes(r, n - 1) + (if new_rhs_node(r, n - 1) {
            seq![Some(r.rhs.node_label(n - 1))]
        } else {
            Seq::empty()
        })
    }
}

/// The host endpoint the add step wires rhs node `rv` to: for an
/// interface image, the match image traced back through `k2r` and `l2k`
/// (unique under linearity); for an added node, the fresh slot appended
/// for it. `base` is the host's node slot count before the add step.
pub open spec fn spec_endpoint(r: RuleModel, m: MorphismModel, base: int, rv: int) -> int {
    if k2r_hits_node(r, rv) {
        let k = choose|k: int| #[trigger] r.k2r.node_at(k) == Some(rv);
        let v = choose|v: int| #[trigger] r.l2k.node_at(v) == Some(k);
        m.node_at(v)->0
    } else {
        base + spec_added_nodes(r, rv).len()
    }
}

/// The edge slots the add step appends while processing the first `n`
/// rhs edges: one fresh edge per added rhs edge, between the resolved
/// endpoints, carrying its label, in identifier order.
pub open spec fn spec_added_edges(r: RuleModel, m: MorphismModel, base: int, n: int) -> Seq<
    Option<crate::graph::EdgeModel>,
>
    decreases n,
{
    if n <= 0 {
        Seq::empty()
    } else {
        spec_added_edges(r, m, base, n - 1) + (if new_rhs_edge(r, n - 1) {
            seq![
                Some(
                    crate::graph::EdgeModel {
                        src: spec_endpoint(r, m, base, r.rhs.edge(n - 1).src),
                        dst: spec_endpoint(r, m, base, r.rhs.edge(n - 1).dst),
                        label: r.rhs.edge(n - 1).label,
                    },
                ),
            ]
        } else {
            Seq::empty()
        })
    }
}

/// A rule that adds no node appends no node slots.
pub proof fn lemma_added_nodes_noop(r: RuleModel, n: int)
    requires
        forall|v: int| !#[trigger] new_rhs_node(r, v),
    ensures
        spec_added_nodes(r, n) == Seq::<Option<crate::graph::NodeDataModel>>::empty(),
    decreases n,
{
    if n > 0 {
        lemma_added_nodes_noop(r, n - 1);
        assert(spec_added_nodes(r, n) =~= Seq::<Option<crate::graph::NodeDataModel>>::empty());
    } else {
        assert(spec_added_nodes(r, n) =~= Seq::<Option<crate::graph::NodeDataModel>>::empty());
    }
}

/// A rule that adds no edge appends no edge slots.
pub proof fn lemma_added_edges_noop(r: RuleModel, m: MorphismModel, base: int, n: int)
    requires
        forall|e: int| !#[trigger] new_rhs_edge(r, e),
    ensures
        spec_added_edges(r, m, base, n) == Seq::<Option<crate::graph::EdgeModel>>::empty(),
    decreases n,
{
    if n > 0 {
        lemma_added_edges_noop(r, m, base, n - 1);
        assert(spec_added_edges(r, m, base, n) =~= Seq::<
            Option<crate::graph::EdgeModel>,
        >::empty());
    } else {
        assert(spec_added_edges(r, m, base, n) =~= Seq::<
            Option<crate::graph::EdgeModel>,
        >::empty());
    }
}

/// Add step: insert one fresh host node for every added node of `R`, then
/// one fresh host edge for every added edge of `R`, wiring interface
/// endpoints back through `k2r` and `l2k` into the match and new
/// endpoints to the freshly inserted nodes. The result is exact: the
/// node and edge arrays are the old ones with `spec_added_nodes` and
/// `spec_added_edges` appended.
pub fn add_part(host: &mut Graph, m: &Morphism, rule: &Rule)
    requires
        old(host)@.wf(),
        rule@.wf(),
        rule@.valid(),
        match_total(rule@.lhs, m@),
        l2k_covers_k2r(rule@),
        rule@.l2k.injective_nodes(),
        rule@.k2r.injective_nodes(),
        forall|v: int|
            rule@.lhs.node_live(v) && rule@.l2k.node_at(v) is Some && #[trigger] m@.node_at(
                v,
            ) is Some ==> old(host)@.node_live(m@.node_at(v)->0),
    ensures
        final(host)@.wf(),
        final(host)@.nodes == old(host)@.nodes + spec_added_nodes(
            rule@,
            rule@.rhs.nodes.len() as int,
        ),
        final(host)@.edges == old(host)@.edges + spec_added_edges(
            rule@,
            m@,
            old(host)@.nodes.len() as int,
            rule@.rhs.edges.len() as int,
        ),
{
    let ghost base = old(host)@.nodes.len() as int;
    let rnbound = rule.rhs.node_bound();
    let mut table: Vec<(usize, usize)> = Vec::new();
    let mut rv: usize = 0;
    proof {
        assert(host@.nodes =~= old(host)@.nodes + spec_added_nodes(rule@, 0));
    }
    while rv < rnbound
        invariant
            rnbound as int == rule@.rhs.nodes.len(),
            rv <= rnbound,
            host@.wf(),
            rule@.wf(),
            rule@.valid(),
            host@.edges == old(host)@.edges,
            base == old(host)@.nodes.len() as int,
            host@.nodes == old(host)@.nodes + spec_added_nodes(rule@, rv as int),
            forall|t: int|
                #![trigger key_at(table@, t)]
                #![trigger val_at(table@, t)]
                0 <= t < table@.len() ==> new_rhs_node(rule@, key_at(table@, t))
                    && host@.node_live(val_at(table@, t)) && val_at(table@, t) == base
                    + spec_added_nodes(rule@, key_at(table@, t)).len(),
            forall|rv2: int|
                0 <= rv2 < rv as int && new_rhs_node(rule@, rv2) ==> has_key(table@, rv2),
        decreases rnbound as int - rv,
    {
        if rule.rhs.is_node(rv) {
            if !k2r_hits_node_exec(rule, rv) {
                proof {
                    assert(new_rhs_node(rule@, rv as int));
                }
                let label = rule.rhs.node_label(rv).clone();
                let ghost prev = host@;
                let ghost prev_table = table@;
                let id = host.add_node(label);
                table.push((rv, id));
                proof {
                    assert(table@ == prev_table.push((rv, id)));
                    assert forall|t: int| 0 <= t < prev_table.len() implies #[trigger] table@[t]
                        == prev_table[t] by {
                    }
                    assert(key_at(table@, table@.len() - 1) == rv as int);
                    assert(val_at(table@, table@.len() - 1) == id as int);
                    assert(id as int == base + spec_added_nodes(rule@, rv as int).len());
                    assert(spec_added_nodes(rule@, rv as int + 1) =~= spec_added_nodes(
                        rule@,
                        rv as int,
                    ).push(Some(rule@.rhs.node_label(rv as int))));
                    assert(host@.nodes =~= old(host)@.nodes + spec_added_nodes(
                        rule@,
                        rv as int + 1,
                    ));
                    assert(host@.nodes[id as int] == Some(rule@.rhs.node_label(rv as int)));
                    assert forall|t: int|
                        #![trigger key_at(table@, t)]
                        #![trigger val_at(table@, t)]
                        0 <= t < table@.len() implies new_rhs_node(rule@, key_at(table@, t))
                        && host@.node_live(val_at(table@, t)) && val_at(table@, t) == base
                        + spec_added_nodes(rule@, key_at(table@, t)).len() by {
                        if t < table@.len() - 1 {
                            assert(key_at(table@, t) == key_at(prev_table, t));
                            assert(val_at(table@, t) == val_at(prev_table, t));
                            assert(new_rhs_node(rule@, key_at(prev_table, t)));
                            assert(prev.node_live(val_at(prev_table, t)));
                            assert(host@.nodes[val_at(prev_table, t)] == prev.nodes[val_at(
                                prev_table,
                                t,
                            )]);
                        }
                    }
                    assert forall|rv2: int|
                        0 <= rv2 < rv as int + 1 && new_rhs_node(rule@, rv2) implies has_key(
                        table@,
                        rv2,
                    ) by {
                        if rv2 == rv as int {
                            assert(key_at(table@, table@.len() - 1) == rv2);
                        } else {
                            let j = choose|j: int|
                                0 <= j < prev_table.len() && #[trigger] key_at(prev_table, j)
                                    == rv2;
                            assert(key_at(table@, j) == rv2);
                        }
                    }
                }
            } else {
                proof {
                    assert(!new_rhs_node(rule@, rv as int));
                    assert(spec_added_nodes(rule@, rv as int + 1) =~= spec_added_nodes(
                        rule@,
                        rv as int,
                    ));
                }
            }
        } else {
            proof {
                assert(!new_rhs_node(rule@, rv as int));
                assert(spec_added_nodes(rule@, rv as int + 1) =~= spec_added_nodes(
                    rule@,
                    rv as int,
                ));
            }
        }
        rv = rv + 1;
    }
    let ghost after_nodes = host@;
    let rebound = rule.rhs.edge_bound();
    let mut re: usize = 0;
    proof {
        assert(host@.edges =~= old(host)@.edges + spec_added_edges(rule@, m@, base, 0));
    }
    while re < rebound
        invariant
            rebound as int == rule@.rhs.edges.len(),
            re <= rebound,
            host@.wf(),
            rule@.wf(),
            rule@.valid(),
            match_total(rule@.lhs, m@),
            l2k_covers_k2r(rule@),
            rule@.l2k.injective_nodes(),
            rule@.k2r.injective_nodes(),
            base == old(host)@.nodes.len() as int,
            host@.nodes == after_nodes.nodes,
            host@.edges == old(host)@.edges + spec_added_edges(rule@, m@, base, re as int),
            forall|v: int|
                rule@.lhs.node_live(v) && rule@.l2k.node_at(v) is Some && #[trigger] m@.node_at(
                    v,
                ) is Some ==> host@.node_live(m@.node_at(v)->0),
            forall|t: int|
                #![trigger key_at(table@, t)]
                #![trigger val_at(table@, t)]
                0 <= t < table@.len() ==> new_rhs_node(rule@, key_at(table@, t))
                    && host@.node_live(val_at(table@, t)) && val_at(table@, t) == base
                    + spec_added_nodes(rule@, key_at(table@, t)).len(),
            forall|rv2: int| new_rhs_node(rule@, rv2) ==> has_key(table@, rv2),
        decreases rebound as int - re,
    {
        if rule.rhs.is_edge(re) {
            if !k2r_hits_edge_exec(rule, re) {
                proof {
                    assert(new_rhs_edge(rule@, re as int));
                }
                let (ru, rw) = rule.rhs.edge_endpoints(re);
                proof {
                    assert(rule@.rhs.node_live(ru as int));
                    assert(rule@.rhs.node_live(rw as int));
                }
                let hu = resolve_endpoint(host, m, rule, &table, ru, Ghost(base));
                let hw = resolve_endpoint(host, m, rule, &table, rw, Ghost(base));
                let label = rule.rhs.edge_label(re).clone();
                let ghost prev = host@;
                host.add_edge(hu, hw, label);
                proof {
                    assert(host@.edges =~= prev.edges.push(
                        Some(
                            crate::graph::EdgeModel {
                                src: hu as int,
                                dst: hw as int,
                                label: rule@.rhs.edge(re as int).label,
                            },
                        ),
                    ));
                    assert(spec_added_edges(rule@, m@, base, re as int + 1) =~= spec_added_edges(
                        rule@,
                        m@,
                        base,
                        re as int,
                    ).push(
                        Some(
                            crate::graph::EdgeModel {
                                src: spec_endpoint(rule@, m@, base, rule@.rhs.edge(re as int).src),
                                dst: spec_endpoint(rule@, m@, base, rule@.rhs.edge(re as int).dst),
                                label: rule@.rhs.edge(re as int).label,
                            },
                        ),
                    ));
                    assert(host@.edges =~= old(host)@.edges + spec_added_edges(
                        rule@,
                        m@,
                        base,
                        re as int + 1,
                    ));
                    assert(host@.nodes == prev.nodes);
                    assert forall|t: int|
                        #![trigger key_at(table@, t)]
                        #![trigger val_at(table@, t)]
                        0 <= t < table@.len() implies new_rhs_node(rule@, key_at(table@, t))
                        && host@.node_live(val_at(table@, t)) && val_at(table@, t) == base
                        + spec_added_nodes(rule@, key_at(table@, t)).len() by {
                        assert(new_rhs_node(rule@, key_at(table@, t)) && prev.node_live(
                            val_at(table@, t),
                        ));
                    }
                }
            } else {
                proof {
                    assert(!new_rhs_edge(rule@, re as int));
                    assert(spec_added_edges(rule@, m@, base, re as int + 1) =~= spec_added_edges(
                        rule@,
                        m@,
                        base,
                        re as int,
                    ));
                }
            }
        } else {
            proof {
                assert(!new_rhs_edge(rule@, re as int));
                assert(spec_added_edges(rule@, m@, base, re as int + 1) =~= spec_added_edges(
                    rule@,
                    m@,
                    base,
                    re as int,
                ));
            }
        }
        re = re + 1;
    }
}

/// Host endpoint for rhs node `rv`: exactly `spec_endpoint`, the match
/// image traced back through `k2r` and `l2k` when `rv` is an interface
/// image, else the fresh node recorded for it in `table`.
fn resolve_endpoint(
    host: &Graph,
    m: &Morphism,
    rule: &Rule,
    table: &Vec<(usize, usize)>,
    rv: usize,
    Ghost(base): Ghost<int>,
) -> (h: usize)
    requires
        rule@.rhs.node_live(rv as int),
        rule@.wf(),
        rule@.valid(),
        match_total(rule@.lhs, m@),
        l2k_covers_k2r(rule@),
        rule@.l2k.injective_nodes(),
        rule@.k2r.injective_nodes(),
        forall|v: int|
            rule@.lhs.node_live(v) && rule@.l2k.node_at(v) is Some && #[trigger] m@.node_at(
                v,
            ) is Some ==> host@.node_live(m@.node_at(v)->0),
        forall|t: int|
            #![trigger key_at(table@, t)]
            #![trigger val_at(table@, t)]
            0 <= t < table@.len() ==> new_rhs_node(rule@, key_at(table@, t)) && host@.node_live(
                val_at(table@, t),
            ) && val_at(table@, t) == base + spec_added_nodes(rule@, key_at(table@, t)).len(),
        forall|rv2: int| new_rhs_node(rule@, rv2) ==> has_key(table@, rv2),
    ensures
        host@.node_live(h as int),
        h as int == spec_endpoint(rule@, m@, base, rv as int),
{
    match k2r_preimage_node(rule, rv) {
        Some(k) => {
            proof {
                assert(rule@.k2r.node_at(k as int) is Some);
                let k0 = choose|k0: int| #[trigger] rule@.k2r.node_at(k0) == Some(rv as int);
                assert(rule@.k2r.node_at(k0) == rule@.k2r.node_at(k as int));
                assert(k0 == k as int);
            }
            match l2k_preimage_node(rule, k) {
                Some(v) => {
                    proof {
                        assert(rule@.l2k.node_at(v as int) == Some(k as int));
                        assert(rule@.lhs.node_live(v as int));
                        let v0 = choose|v0: int| #[trigger] rule@.l2k.node_at(v0) == Some(
                            k as int,
                        );
                        assert(rule@.l2k.node_at(v0) == rule@.l2k.node_at(v as int));
                        assert(v0 == v as int);
                    }
                    match m.map_node(v) {
                        Some(hv) => hv,
                        None => unreached(),
                    }
                },
                None => {
                    proof {
                        let v0 = choose|v0: int| #[trigger] rule@.l2k.node_at(v0) == Some(
                            k as int,
                        );
                        if v0 < 0 || v0 >= rule@.l2k.nodes.len() {
                            assert(rule@.l2k.node_at(v0) is None);
                        }
                        assert(rule@.l2k.node_at(v0) != Some(k as int));
                        assert(false);
                    }
                    unreached()
                },
            }
        },
        None => {
            proof {
                assert(new_rhs_node(rule@, rv as int));
                assert(has_key(table@, rv as int));
            }
            let mut t: usize = 0;
            while t < table.len()
                invariant
                    t <= table@.len(),
                    base == base,
                    has_key(table@, rv as int),
                    forall|j: int|
                        0 <= j < t as int ==> #[trigger] key_at(table@, j) != rv as int,
                    forall|j: int|
                        #![trigger key_at(table@, j)]
                        #![trigger val_at(table@, j)]
                        0 <= j < table@.len() ==> new_rhs_node(rule@, key_at(table@, j))
                            && host@.node_live(val_at(table@, j)) && val_at(table@, j) == base
                            + spec_added_nodes(rule@, key_at(table@, j)).len(),
                decreases table@.len() - t,
            {
                if table[t].0 == rv {
                    let id = table[t].1;
                    proof {
                        assert(key_at(table@, t as int) == rv as int);
                        assert(val_at(table@, t as int) == id as int);
                        assert(host@.node_live(val_at(table@, t as int)));
                        assert(id as int == base + spec_added_nodes(rule@, rv as int).len());
                    }
                    return id;
                }
                proof {
                    assert(key_at(table@, t as int) != rv as int);
                }
                t = t + 1;
            }
            proof {
                let j = choose|j: int| 0 <= j < table@.len() && #[trigger] key_at(table@, j)
                    == rv as int;
                assert(false);
            }
            unreached()
        },
    }
}

/// A morphism built from the pairs of a complete embedding is a complete
/// match.
pub proof fn lemma_match_from_pairs(
    l: GraphModel,
    h: GraphModel,
    mu: Seq<(usize, usize)>,
    m: MorphismModel,
    check: bool,
)
    requires
        l.wf(),
        embedding_ok(l, h, mu, check),
        forall|j: int|
            0 <= j < mu.len() ==> m.node_at(#[trigger] key_at(mu, j)) == Some(val_at(mu, j)),
        forall|p: int| !has_key(mu, p) ==> #[trigger] m.node_at(p) is None,
    ensures
        match_ok(l, h, m, check),
{
    assert forall|v: int| #[trigger] l.node_live(v) implies m.node_at(v) is Some by {
        assert(has_key(mu, v));
        let j = choose|j: int| 0 <= j < mu.len() && #[trigger] key_at(mu, j) == v;
        assert(m.node_at(key_at(mu, j)) == Some(val_at(mu, j)));
    }
    assert forall|v: int| #[trigger] m.node_at(v) is Some implies l.node_live(v) && h.node_live(
        m.node_at(v)->0,
    ) && h.node_label(m.node_at(v)->0) == l.node_label(v) by {
        assert(has_key(mu, v));
        let j = choose|j: int| 0 <= j < mu.len() && #[trigger] key_at(mu, j) == v;
        assert(l.node_live(key_at(mu, j)));
        assert(m.node_at(key_at(mu, j)) == Some(val_at(mu, j)));
    }
    assert forall|s1: int, s2: int|
        #![trigger m.node_at(s1), m.node_at(s2)]
        m.node_at(s1) is Some && m.node_at(s2) is Some && s1 != s2 implies m.node_at(s1)
        != m.node_at(s2) by {
        assert(has_key(mu, s1));
        assert(has_key(mu, s2));
        let j1 = choose|j: int| 0 <= j < mu.len() && #[trigger] key_at(mu, j) == s1;
        let j2 = choose|j: int| 0 <= j < mu.len() && #[trigger] key_at(mu, j) == s2;
        assert(m.node_at(key_at(mu, j1)) == Some(val_at(mu, j1)));
        assert(m.node_at(key_at(mu, j2)) == Some(val_at(mu, j2)));
        if val_at(mu, j1) == val_at(mu, j2) {
            if j1 < j2 {
                assert(val_at(mu, j1) != val_at(mu, j2));
            } else {
                assert(j2 < j1);
                assert(val_at(mu, j2) != val_at(mu, j1));
            }
        }
    }
    assert forall|e: int| #[trigger] l.edge_live(e) implies host_edge_matches(
        h,
        m.node_at(l.edge(e).src)->0,
        m.node_at(l.edge(e).dst)->0,
        l.edge(e).label,
        check,
    ) by {
        assert(l.node_live(l.edge(e).src));
        assert(l.node_live(l.edge(e).dst));
        assert(has_key(mu, l.edge(e).src));
        assert(has_key(mu, l.edge(e).dst));
        let j1 = choose|j: int| 0 <= j < mu.len() && #[trigger] key_at(mu, j) == l.edge(e).src;
        let j2 = choose|j: int| 0 <= j < mu.len() && #[trigger] key_at(mu, j) == l.edge(e).dst;
        assert(m.node_at(key_at(mu, j1)) == Some(val_at(mu, j1)));
        assert(m.node_at(key_at(mu, j2)) == Some(val_at(mu, j2)));
        assert(host_edge_matches(h, val_at(mu, j1), val_at(mu, j2), l.edge(e).label, check));
    }
}

/// The node-array length a match morphism is stored with: one slot past
/// the largest mapped pattern node.
pub open spec fn pairs_len(mu: Seq<(usize, usize)>) -> int {
    if mu.len() == 0 {
        0
    } else {
        key_at(mu, mu.len() - 1) + 1
    }
}

/// The morphism a node-map pair list denotes: each mapped pattern node
/// carries its paired host node, everything else is unmapped, and the
/// edge part is empty.
pub open spec fn pairs_morphism(mu: Seq<(usize, usize)>) -> MorphismModel {
    MorphismModel {
        nodes: Seq::new(
            pairs_len(mu) as nat,
            |s: int|
                if has_key(mu, s) {
                    Some(
                        val_at(
                            mu,
                            choose|i: int| 0 <= i < mu.len() && #[trigger] key_at(mu, i) == s,
                        ),
                    )
                } else {
                    None
                },
        ),
        edges: Seq::empty(),
    }
}

/// A stored morphism that agrees with an ascending pair list and has the
/// canonical array length is the morphism the pair list denotes.
proof fn lemma_pairs_morphism_eq(mu: Seq<(usize, usize)>, m: MorphismModel)
    requires
        keys_ascending(mu),
        morphism_of_pairs(m, mu),
        m.nodes.len() == pairs_len(mu),
        m.edges.len() == 0,
    ensures
        m == pairs_morphism(mu),
{
    assert forall|s: int|
        0 <= s < m.nodes.len() implies m.nodes[s] == pairs_morphism(mu).nodes[s] by {
        if has_key(mu, s) {
            let i = choose|i: int| 0 <= i < mu.len() && #[trigger] key_at(mu, i) == s;
            assert(m.node_at(key_at(mu, i)) == Some(val_at(mu, i)));
            assert(m.node_at(s) == Some(val_at(mu, i)));
        } else {
            assert(m.node_at(s) is None);
        }
    }
    assert(m.nodes =~= pairs_morphism(mu).nodes);
    assert(m.edges =~= pairs_morphism(mu).edges);
}

/// The node part of the morphism is exactly the given pair list, and its
/// edge part is empty.
pub open spec fn morphism_of_pairs(m: MorphismModel, mu: Seq<(usize, usize)>) -> bool {
    &&& forall|j: int|
        0 <= j < mu.len() ==> m.node_at(#[trigger] key_at(mu, j)) == Some(val_at(mu, j))
    &&& forall|p: int| !has_key(mu, p) ==> #[trigger] m.node_at(p) is None
    &&& m.edges.len() == 0
}

/// All matches of the rule's left-hand side in the host, as morphisms
/// whose node part is a complete embedding; the edge part is left empty.
/// The list corresponds match for match to the node maps that the
/// matcher enumerates, so it is a function of the inputs alone.
pub fn find_matches(rule: &Rule, host: &Graph, check_edge_labels: bool) -> (res: Vec<Morphism>)
    requires
        rule@.wf(),
        host@.wf(),
        rule@.valid(),
    ensures
        forall|i: int|
            0 <= i < res@.len() ==> match_ok(
                rule@.lhs,
                host@,
                #[trigger] res@[i]@,
                check_edge_labels,
            ),
        res@.len() == spec_search(
            rule@.lhs,
            host@,
            Seq::<(usize, usize)>::empty(),
            check_edge_labels,
        ).len(),
        forall|i: int|
            0 <= i < res@.len() ==> #[trigger] res@[i]@ == pairs_morphism(
                spec_search(
                    rule@.lhs,
                    host@,
                    Seq::<(usize, usize)>::empty(),
                    check_edge_labels,
                )[i],
            ),
{
    let nb = rule.lhs.node_bound();
    proof {
        assert(rule@.lhs.nodes.len() <= usize::MAX);
    }
    let maps = find_mappings(&rule.lhs, host, check_edge_labels);
    let ghost ms = maps@.map_values(|x: Vec<(usize, usize)>| x@);
    let mut res: Vec<Morphism> = Vec::new();
    let mut i: usize = 0;
    while i < maps.len()
        invariant
            i <= maps@.len(),
            rule@.lhs.wf(),
            rule@.lhs.nodes.len() <= usize::MAX,
            ms == maps@.map_values(|x: Vec<(usize, usize)>| x@),
            ms == spec_search(
                rule@.lhs,
                host@,
                Seq::<(usize, usize)>::empty(),
                check_edge_labels,
            ),
            forall|k: int|
                0 <= k < maps@.len() ==> embedding_ok(
                    rule@.lhs,
                    host@,
                    #[trigger] maps@[k]@,
                    check_edge_labels,
                ),
            res@.len() == i as int,
            forall|k: int|
                0 <= k < i as int ==> match_ok(
                    rule@.lhs,
                    host@,
                    #[trigger] res@[k]@,
                    check_edge_labels,
                ),
            forall|k: int|
                0 <= k < i as int ==> #[trigger] res@[k]@ == pairs_morphism(ms[k]),
        decreases maps@.len() - i,
    {
        let mu = &maps[i];
        proof {
            assert(mu@ == ms[i as int]);
            assert(spec_search(
                rule@.lhs,
                host@,
                Seq::<(usize, usize)>::empty(),
                check_edge_labels,
            ).contains(mu@));
            lemma_results_ascending(rule@.lhs, host@, check_edge_labels, mu@);
        }
        let mut mo = Morphism::new();
        let mut k: usize = 0;
        proof {
            assert(mo@.nodes.len() == 0);
        }
        while k < mu.len()
            invariant
                k <= mu@.len(),
                embedding_ok(rule@.lhs, host@, mu@, check_edge_labels),
                keys_ascending(mu@),
                mo@.edges.len() == 0,
                mo@.nodes.len() == (if k == 0 {
                    0int
                } else {
                    key_at(mu@, k as int - 1) + 1
                }),
                forall|j: int|
                    0 <= j < k as int ==> mo@.node_at(#[trigger] key_at(mu@, j)) == Some(
                        val_at(mu@, j),
                    ),
                forall|p: int|
                    !has_key_upto(mu@, k as int, p) ==> #[trigger] mo@.node_at(p) is None,
            decreases mu@.len() - k,
        {
            let (pk, hv) = mu[k];
            proof {
                assert(key_at(mu@, k as int) == pk as int);
                assert(val_at(mu@, k as int) == hv as int);
            }
            let ghost before = mo@;
            mo.insert_node(pk, hv);
            proof {
                if k > 0 {
                    assert(key_at(mu@, k as int - 1) < key_at(mu@, k as int));
                }
                assert(mo@.nodes.len() == key_at(mu@, k as int) + 1);
                assert forall|j: int| 0 <= j < k as int + 1 implies mo@.node_at(
                    #[trigger] key_at(mu@, j),
                ) == Some(val_at(mu@, j)) by {
                    if j < k as int {
                        assert(key_at(mu@, j) != key_at(mu@, k as int));
                        assert(mo@.node_at(key_at(mu@, j)) == before.node_at(key_at(mu@, j)));
                    }
                }
                assert forall|p: int| !has_key_upto(mu@, k as int + 1, p) implies #[trigger]
                    mo@.node_at(p) is None by {
                    assert(p != key_at(mu@, k as int));
                    assert(!has_key_upto(mu@, k as int, p));
                    assert(mo@.node_at(p) == before.node_at(p));
                }
            }
            k = k + 1;
        }
        proof {
            assert forall|p: int| !has_key(mu@, p) implies #[trigger] mo@.node_at(p) is None by {
                assert(!has_key_upto(mu@, mu@.len() as int, p));
            }
            lemma_match_from_pairs(rule@.lhs, host@, mu@, mo@, check_edge_labels);
            assert(mo@.nodes.len() == pairs_len(mu@));
            lemma_pairs_morphism_eq(mu@, mo@);
        }
        let ghost prev_res = res@;
        res.push(mo);
        proof {
            assert forall|k2: int| 0 <= k2 < i as int + 1 implies match_ok(
                rule@.lhs,
                host@,
                #[trigger] res@[k2]@,
                check_edge_labels,
            ) && res@[k2]@ == pairs_morphism(ms[k2]) by {
                if k2 < i as int {
                    assert(res@[k2] == prev_res[k2]);
                } else {
                    assert(mu@ == ms[i as int]);
                }
            }
        }
        i = i + 1;
    }
    res
}

/// The interface is untouched: every host node that is the image of a
/// preserved node of `L` is still live in the result and keeps its label.
pub open spec fn interface_preserved(
    r: RuleModel,
    m: MorphismModel,
    h0: GraphModel,
    h1: GraphModel,
) -> bool {
    forall|v: int|
        r.lhs.node_live(v) && r.l2k.node_at(v) is Some && #[trigger] m.node_at(v) is Some
            ==> h1.node_live(m.node_at(v)->0) && h1.node_label(m.node_at(v)->0) == h0.node_label(
            m.node_at(v)->0,
        )
}

/// The one-step rewrite of `h` at match `m`: the delete step (one
/// target edge per deleted lhs edge, then the deleted node images with
/// their incident edges) followed by the add step (fresh nodes and
/// edges for the added part of `R`, wired through `k2r` and `l2k`).
pub open spec fn spec_rewrite(h: GraphModel, r: RuleModel, m: MorphismModel) -> GraphModel {
    GraphModel {
        nodes: spec_deleted_nodes(h.nodes, r, m) + spec_added_nodes(r, r.rhs.nodes.len() as int),
        edges: spec_drop_incident(
            spec_delete_edges(h.edges, r, m, r.lhs.edges.len() as int),
            r,
            m,
        ) + spec_added_edges(r, m, h.nodes.len() as int, r.rhs.edges.len() as int),
    }
}

/// A positive answer of the unlabeled search is a matching slot.
proof fn lemma_find_edge_from_range(
    s: Seq<Option<crate::graph::EdgeModel>>,
    u: int,
    v: int,
    j: int,
)
    ensures
        match find_edge_from(s, u, v, j) {
            Some(t) => j <= t && edge_slot_matches(s, t, u, v),
            None => true,
        },
    decreases s.len() - j,
{
    if j < s.len() && !edge_slot_matches(s, j, u, v) {
        lemma_find_edge_from_range(s, u, v, j + 1);
    }
}

/// A positive answer of the labeled search is a matching slot.
proof fn lemma_find_labeled_from_range(
    s: Seq<Option<crate::graph::EdgeModel>>,
    u: int,
    v: int,
    l: Seq<char>,
    j: int,
)
    ensures
        match find_labeled_from(s, u, v, l, j) {
            Some(t) => j <= t && edge_slot_matches(s, t, u, v) && s[t]->0.label == l,
            None => true,
        },
    decreases s.len() - j,
{
    if j < s.len() && !(edge_slot_matches(s, j, u, v) && s[j]->0.label == l) {
        lemma_find_labeled_from_range(s, u, v, l, j + 1);
    }
}

/// The edge-delete phase never changes the length of the edge array.
proof fn lemma_delete_edges_len(
    s: Seq<Option<crate::graph::EdgeModel>>,
    r: RuleModel,
    m: MorphismModel,
    n: int,
)
    ensures
        spec_delete_edges(s, r, m, n).len() == s.len(),
    decreases n,
{
    if n > 0 {
        lemma_delete_edges_len(s, r, m, n - 1);
        let prev = spec_delete_edges(s, r, m, n - 1);
        if deleted_edge(r, n - 1) && m.node_at(r.lhs.edge(n - 1).src) is Some && m.node_at(
            r.lhs.edge(n - 1).dst,
        ) is Some {
            match delete_target(
                prev,
                m.node_at(r.lhs.edge(n - 1).src)->0,
                m.node_at(r.lhs.edge(n - 1).dst)->0,
                r.lhs.edge(n - 1).label,
            ) {
                Some(t) => {
                    lemma_find_labeled_from_range(
                        prev,
                        m.node_at(r.lhs.edge(n - 1).src)->0,
                        m.node_at(r.lhs.edge(n - 1).dst)->0,
                        r.lhs.edge(n - 1).label,
                        0,
                    );
                    lemma_find_edge_from_range(
                        prev,
                        m.node_at(r.lhs.edge(n - 1).src)->0,
                        m.node_at(r.lhs.edge(n - 1).dst)->0,
                        0,
                    );
                    assert(0 <= t < prev.len());
                    assert(spec_delete_edges(s, r, m, n) == prev.update(t, None));
                    assert(prev.update(t, None).len() == prev.len());
                },
                None => {
                    assert(spec_delete_edges(s, r, m, n) == prev);
                },
            }
        } else {
            assert(spec_delete_edges(s, r, m, n) == prev);
        }
    }
}

/// An edge slot whose endpoint pair is the image pair of no deleted lhs
/// edge is never selected by the edge-delete phase.
proof fn lemma_delete_edges_slot(
    s: Seq<Option<crate::graph::EdgeModel>>,
    r: RuleModel,
    m: MorphismModel,
    n: int,
    e: int,
)
    requires
        0 <= e < s.len(),
        s[e] is Some,
        forall|le: int| #[trigger]
            deleted_edge(r, le) ==> !(m.node_at(r.lhs.edge(le).src) == Some(s[e]->0.src)
                && m.node_at(r.lhs.edge(le).dst) == Some(s[e]->0.dst)),
    ensures
        spec_delete_edges(s, r, m, n)[e] == s[e],
    decreases n,
{
    if n > 0 {
        lemma_delete_edges_slot(s, r, m, n - 1, e);
        lemma_delete_edges_len(s, r, m, n - 1);
        let prev = spec_delete_edges(s, r, m, n - 1);
        if deleted_edge(r, n - 1) && m.node_at(r.lhs.edge(n - 1).src) is Some && m.node_at(
            r.lhs.edge(n - 1).dst,
        ) is Some {
            let hs = m.node_at(r.lhs.edge(n - 1).src)->0;
            let hd = m.node_at(r.lhs.edge(n - 1).dst)->0;
            match delete_target(prev, hs, hd, r.lhs.edge(n - 1).label) {
                Some(t) => {
                    lemma_find_labeled_from_range(prev, hs, hd, r.lhs.edge(n - 1).label, 0);
                    lemma_find_edge_from_range(prev, hs, hd, 0);
                    assert(0 <= t < prev.len());
                    if t == e {
                        assert(edge_slot_matches(prev, e, hs, hd));
                        assert(m.node_at(r.lhs.edge(n - 1).src) == Some(s[e]->0.src)
                            && m.node_at(r.lhs.edge(n - 1).dst) == Some(s[e]->0.dst));
                        assert(false);
                    }
                },
                None => {},
            }
        }
    }
}

/// Interface edges survive: a host edge whose endpoints are not images
/// of deleted nodes, and whose endpoint pair is the image pair of no
/// deleted lhs edge, is still present in the rewritten graph with its
/// endpoints and label untouched. In particular, the host edges lying
/// between preserved interface node images that the rule does not
/// target are untouched, so the image of `K` is preserved.
pub proof fn lemma_untargeted_edges_survive(
    h: GraphModel,
    r: RuleModel,
    m: MorphismModel,
    e: int,
)
    requires
        0 <= e < h.edges.len(),
        h.edges[e] is Some,
        !host_node_deleted(r, m, h.edges[e]->0.src),
        !host_node_deleted(r, m, h.edges[e]->0.dst),
        forall|le: int| #[trigger]
            deleted_edge(r, le) ==> !(m.node_at(r.lhs.edge(le).src) == Some(h.edges[e]->0.src)
                && m.node_at(r.lhs.edge(le).dst) == Some(h.edges[e]->0.dst)),
    ensures
        spec_rewrite(h, r, m).edges[e] == h.edges[e],
{
    let n = r.lhs.edges.len() as int;
    lemma_delete_edges_len(h.edges, r, m, n);
    lemma_delete_edges_slot(h.edges, r, m, n, e);
    let mid = spec_delete_edges(h.edges, r, m, n);
    assert(spec_drop_incident(mid, r, m)[e] == h.edges[e]);
    assert(spec_rewrite(h, r, m).edges[e] == spec_drop_incident(mid, r, m)[e]);
}

/// Single-step DPO rewriting at a given match: clone the host, check the
/// gluing condition, and on success delete the image of `L \ K` and add
/// the image of `R \ K`. The result is returned exactly when the gluing
/// condition holds, and is then exactly `spec_rewrite`: the delete step
/// followed by the add step on a clone of the host. The image of the
/// interface is preserved, and a rule that neither deletes nor adds
/// returns a graph equal to the host.
pub fn apply_once(rule: &Rule, host: &Graph, m: &Morphism) -> (r: Option<Graph>)
    requires
        rule@.wf(),
        rule@.valid(),
        host@.wf(),
        match_usable(rule@.lhs, host@, m@),
        l2k_covers_k2r(rule@),
        rule@.l2k.injective_nodes(),
        rule@.k2r.injective_nodes(),
    ensures
        r is Some <==> spec_gluing(host@, m@, rule@),
        match r {
            Some(g2) => g2@ == spec_rewrite(host@, rule@, m@) && g2@.wf() && interface_preserved(
                rule@,
                m@,
                host@,
                g2@,
            ) && (identity_rule(rule@) ==> g2@.nodes == host@.nodes && g2@.edges == host@.edges),
            None => true,
        },
{
    let mut result = host.clone();
    if !check_gluing(&result, m, rule) {
        return None;
    }
    delete_part(&mut result, m, rule);
    proof {
        assert forall|v: int|
            rule@.lhs.node_live(v) && rule@.l2k.node_at(v) is Some && #[trigger] m@.node_at(
                v,
            ) is Some implies result@.node_live(m@.node_at(v)->0) && result@.nodes[m@.node_at(
            v,
        )->0] == host@.nodes[m@.node_at(v)->0] by {
            let hv = m@.node_at(v)->0;
            assert(host@.node_live(hv));
            if host_node_deleted(rule@, m@, hv) {
                let w = choose|w: int|
                    deleted_node(rule@, w) && #[trigger] m@.node_at(w) == Some(hv);
                assert(m@.node_at(w) == m@.node_at(v));
                assert(w != v);
                assert(false);
            }
        }
    }
    let ghost after_delete = result@;
    add_part(&mut result, m, rule);
    proof {
        assert forall|v: int|
            rule@.lhs.node_live(v) && rule@.l2k.node_at(v) is Some && #[trigger] m@.node_at(
                v,
            ) is Some implies result@.node_live(m@.node_at(v)->0) && result@.node_label(
            m@.node_at(v)->0,
        ) == host@.node_label(m@.node_at(v)->0) by {
            let hv = m@.node_at(v)->0;
            assert(after_delete.node_live(hv));
            assert(result@.nodes[hv] == after_delete.nodes[hv]);
        }
        assert(after_delete.nodes.len() == host@.nodes.len());
        assert(result@.nodes == spec_rewrite(host@, rule@, m@).nodes);
        assert(result@.edges == spec_rewrite(host@, rule@, m@).edges);
        assert(result@ == spec_rewrite(host@, rule@, m@));
        if identity_rule(rule@) {
            assert forall|hv: int|
                0 <= hv < host@.nodes.len() implies after_delete.nodes[hv] == host@.nodes[hv] by {
                if host_node_deleted(rule@, m@, hv) {
                    let w = choose|w: int|
                        deleted_node(rule@, w) && #[trigger] m@.node_at(w) == Some(hv);
                    assert(!deleted_node(rule@, w));
                }
            }
            assert(after_delete.nodes =~= host@.nodes);
            lemma_delete_edges_noop(host@.edges, rule@, m@, rule@.lhs.edges.len() as int);
            assert forall|k: int|
                0 <= k < host@.edges.len() implies after_delete.edges[k] == host@.edges[k] by {
                if host@.edges[k] is Some {
                    if host_node_deleted(rule@, m@, host@.edges[k]->0.src) {
                        let w = choose|w: int|
                            deleted_node(rule@, w) && #[trigger] m@.node_at(w) == Some(
                                host@.edges[k]->0.src,
                            );
                        assert(!deleted_node(rule@, w));
                    }
                    if host_node_deleted(rule@, m@, host@.edges[k]->0.dst) {
                        let w = choose|w: int|
                            deleted_node(rule@, w) && #[trigger] m@.node_at(w) == Some(
                                host@.edges[k]->0.dst,
                            );
                        assert(!deleted_node(rule@, w));
                    }
                }
            }
            assert(after_delete.edges =~= host@.edges);
            lemma_added_nodes_noop(rule@, rule@.rhs.nodes.len() as int);
            lemma_added_edges_noop(
                rule@,
                m@,
                host@.nodes.len() as int,
                rule@.rhs.edges.len() as int,
            );
            assert(result@.nodes =~= after_delete.nodes);
            assert(result@.edges =~= after_delete.edges);
        }
    }
    Some(result)
}

/// A rule that neither deletes nor adds anything: one whose morphisms are
/// the identity on every live node and edge of `L = K = R`. Such a rule
/// always satisfies the gluing condition, and `apply_once` then returns a
/// graph equal to the host.
pub proof fn lemma_identity_rule_noop(r: RuleModel, h: GraphModel, m: MorphismModel)
    requires
        r.interface == r.lhs,
        r.rhs == r.lhs,
        forall|v: int| #[trigger]
            r.lhs.node_live(v) ==> r.l2k.node_at(v) == Some(v) && r.k2r.node_at(v) == Some(v),
        forall|e: int| #[trigger]
            r.lhs.edge_live(e) ==> r.l2k.edge_at(e) == Some(e) && r.k2r.edge_at(e) == Some(e),
    ensures
        identity_rule(r),
        spec_gluing(h, m, r),
{
    assert forall|v: int| !#[trigger] deleted_node(r, v) by {
        if r.lhs.node_live(v) {
            assert(r.l2k.node_at(v) == Some(v));
        }
    }
    assert forall|e: int| !#[trigger] deleted_edge(r, e) by {
        if r.lhs.edge_live(e) {
            assert(r.l2k.edge_at(e) == Some(e));
        }
    }
    assert forall|v: int| !#[trigger] new_rhs_node(r, v) by {
        if r.rhs.node_live(v) {
            assert(r.lhs.node_live(v));
            assert(r.k2r.node_at(v) == Some(v));
            assert(k2r_hits_node(r, v));
        }
    }
    assert forall|e: int| !#[trigger] new_rhs_edge(r, e) by {
        if r.rhs.edge_live(e) {
            assert(r.lhs.edge_live(e));
            assert(r.k2r.edge_at(e) == Some(e));
            assert(k2r_hits_edge(r, e));
        }
    }
}

/// The leaves of the derivation tree that the exhaustive search
/// explores from `g`: `g` itself when the rule has no match; otherwise,
/// for each match in enumeration order whose gluing check passes and
/// whose rewrite strictly shrinks `|V| + |E|`, the leaves reached from
/// the rewritten graph. A match that fails the gluing check, or whose
/// rewrite does not shrink the graph, contributes nothing.
pub open spec fn spec_leaves(r: RuleModel, g: GraphModel, check: bool) -> Seq<GraphModel>
    decreases g.size(), spec_search(r.lhs, g, Seq::<(usize, usize)>::empty(), check).len() + 1,
{
    let ms = spec_search(r.lhs, g, Seq::<(usize, usize)>::empty(), check);
    if ms.len() == 0 {
        seq![g]
    } else {
        spec_leaves_upto(r, g, check, ms.len() as int)
    }
}

/// The leaves contributed by the first `i` matches of `g`.
pub open spec fn spec_leaves_upto(r: RuleModel, g: GraphModel, check: bool, i: int) -> Seq<
    GraphModel,
>
    decreases g.size(), i,
{
    let ms = spec_search(r.lhs, g, Seq::<(usize, usize)>::empty(), check);
    if i <= 0 {
        Seq::empty()
    } else {
        spec_leaves_upto(r, g, check, i - 1) + ({
            let m = pairs_morphism(ms[i - 1]);
            if spec_gluing(g, m, r) && spec_rewrite(g, r, m).size() < g.size() {
                spec_leaves(r, spec_rewrite(g, r, m), check)
            } else {
                Seq::empty()
            }
        })
    }
}

/// Depth-first exhaustive application. A graph with no match is terminal
/// and recorded; otherwise each match is applied and the search continues
/// on every successor that strictly shrinks the graph. The appended
/// results are exactly `spec_leaves`, and each is terminal: the rule has
/// no match in it. For shrinking rules, where every successful
/// application strictly decreases `|V| + |E|`, this explores the full
/// derivation tree, and the `decreases` measure is exactly why the
/// search terminates.
fn apply_rec(rule: &Rule, current: Graph, check_edge_labels: bool, results: &mut Vec<Graph>)
    requires
        rule@.wf(),
        rule@.valid(),
        current@.wf(),
        l2k_covers_k2r(rule@),
        rule@.l2k.injective_nodes(),
        rule@.k2r.injective_nodes(),
    ensures
        final(results)@.len() >= old(results)@.len(),
        forall|i: int|
            0 <= i < old(results)@.len() ==> #[trigger] final(results)@[i] == old(results)@[i],
        forall|i: int|
            old(results)@.len() <= i < final(results)@.len()
                ==> (#[trigger] final(results)@[i])@.wf() && spec_search(
                rule@.lhs,
                final(results)@[i]@,
                Seq::<(usize, usize)>::empty(),
                check_edge_labels,
            ).len() == 0,
        final(results)@.map_values(|x: Graph| x@) == old(results)@.map_values(|x: Graph| x@)
            + spec_leaves(rule@, current@, check_edge_labels),
    decreases current@.size(),
{
    let ghost ms = spec_search(
        rule@.lhs,
        current@,
        Seq::<(usize, usize)>::empty(),
        check_edge_labels,
    );
    let matches = find_matches(rule, &current, check_edge_labels);
    if matches.len() == 0 {
        let ghost cur = current@;
        results.push(current);
        proof {
            assert(spec_leaves(rule@, cur, check_edge_labels) == seq![cur]);
            assert(results@.map_values(|x: Graph| x@) =~= old(results)@.map_values(
                |x: Graph| x@,
            ) + spec_leaves(rule@, cur, check_edge_labels));
        }
    } else {
        let cur_size = current.size_measure();
        let mut idx: usize = 0;
        while idx < matches.len()
            invariant
                idx <= matches@.len(),
                rule@.wf(),
                rule@.valid(),
                current@.wf(),
                l2k_covers_k2r(rule@),
                rule@.l2k.injective_nodes(),
                rule@.k2r.injective_nodes(),
                cur_size as nat == current@.size(),
                forall|k: int|
                    0 <= k < matches@.len() ==> match_ok(
                        rule@.lhs,
                        current@,
                        #[trigger] matches@[k]@,
                        check_edge_labels,
                    ),
                ms == spec_search(
                    rule@.lhs,
                    current@,
                    Seq::<(usize, usize)>::empty(),
                    check_edge_labels,
                ),
                ms.len() == matches@.len(),
                ms.len() != 0,
                forall|k: int|
                    0 <= k < matches@.len() ==> #[trigger] matches@[k]@ == pairs_morphism(ms[k]),
                results@.len() >= old(results)@.len(),
                forall|i: int|
                    0 <= i < old(results)@.len() ==> #[trigger] results@[i] == old(results)@[i],
                forall|i: int|
                    old(results)@.len() <= i < results@.len() ==> (#[trigger] results@[i])@.wf()
                        && spec_search(
                        rule@.lhs,
                        results@[i]@,
                        Seq::<(usize, usize)>::empty(),
                        check_edge_labels,
                    ).len() == 0,
                results@.map_values(|x: Graph| x@) == old(results)@.map_values(|x: Graph| x@)
                    + spec_leaves_upto(rule@, current@, check_edge_labels, idx as int),
            decreases matches@.len() - idx,
        {
            let ghost pre_iter = results@;
            match apply_once(rule, &current, &matches[idx]) {
                Some(next) => {
                    proof {
                        assert(spec_gluing(current@, pairs_morphism(ms[idx as int]), rule@));
                        assert(next@ == spec_rewrite(
                            current@,
                            rule@,
                            pairs_morphism(ms[idx as int]),
                        ));
                    }
                    if next.size_measure() < cur_size {
                        let ghost mid = results@;
                        apply_rec(rule, next, check_edge_labels, results);
                        proof {
                            assert forall|i: int|
                                0 <= i < old(results)@.len() implies #[trigger] results@[i] == old(
                                results,
                            )@[i] by {
                                assert(results@[i] == mid[i]);
                            }
                            assert forall|i: int|
                                old(results)@.len() <= i < results@.len() implies (
                            #[trigger] results@[i])@.wf() && spec_search(
                                rule@.lhs,
                                results@[i]@,
                                Seq::<(usize, usize)>::empty(),
                                check_edge_labels,
                            ).len() == 0 by {
                                if i < mid.len() {
                                    assert(results@[i] == mid[i]);
                                }
                            }
                            assert(results@.map_values(|x: Graph| x@) =~= old(
                                results,
                            )@.map_values(|x: Graph| x@) + spec_leaves_upto(
                                rule@,
                                current@,
                                check_edge_labels,
                                idx as int + 1,
                            ));
                        }
                    } else {
                        proof {
                            assert(!(spec_rewrite(
                                current@,
                                rule@,
                                pairs_morphism(ms[idx as int]),
                            ).size() < current@.size()));
                            assert(results@.map_values(|x: Graph| x@) =~= old(
                                results,
                            )@.map_values(|x: Graph| x@) + spec_leaves_upto(
                                rule@,
                                current@,
                                check_edge_labels,
                                idx as int + 1,
                            ));
                        }
                    }
                },
                None => {
                    proof {
                        assert(!spec_gluing(current@, pairs_morphism(ms[idx as int]), rule@));
                        assert(results@.map_values(|x: Graph| x@) =~= old(results)@.map_values(
                            |x: Graph| x@,
                        ) + spec_leaves_upto(
                            rule@,
                            current@,
                            check_edge_labels,
                            idx as int + 1,
                        ));
                    }
                },
            }
            idx = idx + 1;
        }
        proof {
            assert(spec_leaves(rule@, current@, check_edge_labels) == spec_leaves_upto(
                rule@,
                current@,
                check_edge_labels,
                ms.len() as int,
            ));
        }
    }
}

/// Exhaustive application: exactly the leaves of the derivation tree
/// that the depth-first search over strictly shrinking rewrite steps
/// explores from the host, in match-enumeration order. Every returned
/// graph is terminal (the rule has no match in it), and a host without
/// a match is returned as the single result.
pub fn apply(rule: &Rule, host: &Graph, check_edge_labels: bool) -> (res: Vec<Graph>)
    requires
        rule@.wf(),
        rule@.valid(),
        host@.wf(),
        l2k_covers_k2r(rule@),
        rule@.l2k.injective_nodes(),
        rule@.k2r.injective_nodes(),
    ensures
        res@.map_values(|x: Graph| x@) == spec_leaves(rule@, host@, check_edge_labels),
        forall|i: int|
            0 <= i < res@.len() ==> (#[trigger] res@[i])@.wf() && spec_search(
                rule@.lhs,
                res@[i]@,
                Seq::<(usize, usize)>::empty(),
                check_edge_labels,
            ).len() == 0,
        spec_search(rule@.lhs, host@, Seq::<(usize, usize)>::empty(), check_edge_labels).len()
            == 0 ==> res@.len() == 1 && res@[0]@ == host@,
{
    let mut results: Vec<Graph> = Vec::new();
    let start = host.clone();
    apply_rec(rule, start, check_edge_labels, &mut results);
    proof {
        assert(results@.map_values(|x: Graph| x@) =~= spec_leaves(
            rule@,
            host@,
            check_edge_labels,
        ));
        if spec_search(rule@.lhs, host@, Seq::<(usize, usize)>::empty(), check_edge_labels).len()
            == 0 {
            assert(spec_leaves(rule@, host@, check_edge_labels) == seq![host@]);
            assert(results@.map_values(|x: Graph| x@).len() == 1);
            assert(results@[0]@ == results@.map_values(|x: Graph| x@)[0]);
        }
    }
    results
}

} // verus!
