//! Subgraph isomorphism: enumerate injective, label-preserving embeddings
//! of a pattern graph into a host graph by depth-first extension of
//! partial node maps with feasibility pruning.
//!
//! A (partial) node map is a list of `(pattern node, host node)` pairs in
//! insertion order; pattern nodes are always picked in increasing
//! identifier order, so the enumeration is deterministic.
use vstd::prelude::*;
use vstd::set_lib::lemma_int_range;
use vstd::set_lib::lemma_len_subset;
use vstd::set_lib::set_int_range;
use crate::graph::Graph;
use crate::graph::GraphModel;

verus! {

/// Pattern node of the `i`-th pair.
pub open spec fn key_at(mu: Seq<(usize, usize)>, i: int) -> int {
    mu[i].0 as int
}

/// Host node of the `i`-th pair.
pub open spec fn val_at(mu: Seq<(usize, usize)>, i: int) -> int {
    mu[i].1 as int
}

/// Pattern node `p` is mapped by `mu`.
pub open spec fn has_key(mu: Seq<(usize, usize)>, p: int) -> bool {
    exists|i: int| 0 <= i < mu.len() && #[trigger] key_at(mu, i) == p
}

/// Host node `h` is an image under `mu`.
pub open spec fn has_val(mu: Seq<(usize, usize)>, h: int) -> bool {
    exists|i: int| 0 <= i < mu.len() && #[trigger] val_at(mu, i) == h
}

/// `mu` maps pattern node `p` to host node `h`.
pub open spec fn mu_maps(mu: Seq<(usize, usize)>, p: int, h: int) -> bool {
    exists|i: int|
        0 <= i < mu.len() && #[trigger] key_at(mu, i) == p && #[trigger] val_at(mu, i) == h
}

/// No pattern node occurs twice.
pub open spec fn distinct_keys(mu: Seq<(usize, usize)>) -> bool {
    forall|i: int, j: int|
        0 <= i < j < mu.len() ==> #[trigger] key_at(mu, i) != #[trigger] key_at(mu, j)
}

/// No host node occurs twice: the map is injective.
pub open spec fn distinct_vals(mu: Seq<(usize, usize)>) -> bool {
    forall|i: int, j: int|
        0 <= i < j < mu.len() ==> #[trigger] val_at(mu, i) != #[trigger] val_at(mu, j)
}

/// Every pair joins a live pattern node to a live host node with the same
/// label.
pub open spec fn pairs_ok(p: GraphModel, h: GraphModel, mu: Seq<(usize, usize)>) -> bool {
    forall|i: int|
        0 <= i < mu.len() ==> p.node_live(#[trigger] key_at(mu, i)) && h.node_live(val_at(mu, i))
            && h.node_label(val_at(mu, i)) == p.node_label(key_at(mu, i))
}

/// The host has an edge from `u` to `v`; when `check` is set it must also
/// carry label `l`.
pub open spec fn host_edge_matches(h: GraphModel, u: int, v: int, l: Seq<char>, check: bool) -> bool {
    if check {
        h.has_labeled_edge(u, v, l)
    } else {
        h.has_edge(u, v)
    }
}

/// Every pattern edge whose two endpoints are both mapped is realized by a
/// host edge between the images (label-matching when requested).
pub open spec fn edges_ok(
    p: GraphModel,
    h: GraphModel,
    mu: Seq<(usize, usize)>,
    check: bool,
) -> bool {
    forall|e: int, i: int, j: int|
        #![trigger p.edge_live(e), key_at(mu, i), key_at(mu, j)]
        p.edge_live(e) && 0 <= i < mu.len() && 0 <= j < mu.len() && key_at(mu, i) == p.edge(e).src
            && key_at(mu, j) == p.edge(e).dst ==> host_edge_matches(
            h,
            val_at(mu, i),
            val_at(mu, j),
            p.edge(e).label,
            check,
        )
}

/// A consistent partial node map: injective both ways, label-preserving,
/// and edge-respecting on the mapped part.
pub open spec fn partial_ok(
    p: GraphModel,
    h: GraphModel,
    mu: Seq<(usize, usize)>,
    check: bool,
) -> bool {
    distinct_keys(mu) && distinct_vals(mu) && pairs_ok(p, h, mu) && edges_ok(p, h, mu, check)
}

/// Every live pattern node is mapped.
pub open spec fn total_on(p: GraphModel, mu: Seq<(usize, usize)>) -> bool {
    forall|v: int| #[trigger] p.node_live(v) ==> has_key(mu, v)
}

/// A complete embedding of the pattern in the host: a total, injective,
/// label-preserving node map under which every pattern edge has a host
/// edge between the images (label-matching when requested).
pub open spec fn embedding_ok(
    p: GraphModel,
    h: GraphModel,
    mu: Seq<(usize, usize)>,
    check: bool,
) -> bool {
    partial_ok(p, h, mu, check) && total_on(p, mu)
}

/// Extending the current map by `(pn, g)` keeps it edge-respecting: every
/// pattern edge between `pn` and an already-mapped node (or a loop at
/// `pn`) is realized in the host.
pub open spec fn spec_feasible(
    p: GraphModel,
    h: GraphModel,
    mu: Seq<(usize, usize)>,
    pn: int,
    g: int,
    check: bool,
) -> bool {
    &&& h.node_label(g) == p.node_label(pn)
    &&& forall|e: int, j: int|
        #![trigger p.edge_live(e), key_at(mu, j)]
        p.edge_live(e) && p.edge(e).src == pn && 0 <= j < mu.len() && key_at(mu, j) == p.edge(
            e,
        ).dst ==> host_edge_matches(h, g, val_at(mu, j), p.edge(e).label, check)
    &&& forall|e: int, i: int|
        #![trigger p.edge_live(e), key_at(mu, i)]
        p.edge_live(e) && p.edge(e).dst == pn && 0 <= i < mu.len() && key_at(mu, i) == p.edge(
            e,
        ).src ==> host_edge_matches(h, val_at(mu, i), g, p.edge(e).label, check)
    &&& forall|e: int| #[trigger]
        p.edge_live(e) && p.edge(e).src == pn && p.edge(e).dst == pn ==> host_edge_matches(
            h,
            g,
            g,
            p.edge(e).label,
            check,
        )
}


/// First live pattern node at or after `v` that the map leaves unmapped.
pub open spec fn first_unmapped_from(p: GraphModel, mu: Seq<(usize, usize)>, v: int) -> Option<
    int,
>
    decreases p.nodes.len() - v,
{
    if v >= p.nodes.len() {
        None
    } else if p.node_live(v) && !has_key(mu, v) {
        Some(v)
    } else {
        first_unmapped_from(p, mu, v + 1)
    }
}

/// The list of embeddings that the depth-first search emits from the
/// partial map `mu`: the map itself once it is total, else the
/// concatenation, over every candidate host node for the first unmapped
/// pattern node, of the searches from the extended maps.
pub open spec fn spec_search(
    p: GraphModel,
    h: GraphModel,
    mu: Seq<(usize, usize)>,
    check: bool,
) -> Seq<Seq<(usize, usize)>>
    decreases p.nodes.len() - mu.len(), h.nodes.len() + 1,
{
    match first_unmapped_from(p, mu, 0) {
        None => seq![mu],
        Some(pn) => spec_cands_upto(p, h, mu, check, pn, h.nodes.len() as int),
    }
}

/// The part of the search over the candidate host nodes below `g`.
pub open spec fn spec_cands_upto(
    p: GraphModel,
    h: GraphModel,
    mu: Seq<(usize, usize)>,
    check: bool,
    pn: int,
    g: int,
) -> Seq<Seq<(usize, usize)>>
    decreases p.nodes.len() - mu.len(), g,
{
    if g <= 0 {
        Seq::empty()
    } else {
        spec_cands_upto(p, h, mu, check, pn, g - 1) + (if h.node_live(g - 1) && !has_val(
            mu,
            g - 1,
        ) && spec_feasible(p, h, mu, pn, g - 1, check) && mu.len() < p.nodes.len() {
            spec_search(p, h, mu.push((pn as usize, (g - 1) as usize)), check)
        } else {
            Seq::empty()
        })
    }
}

/// The result of matching is a function of the inputs alone: two results
/// that both satisfy the contract of `find_mappings` on equal inputs are
/// equal, so repeated calls yield identical result sequences.
pub proof fn lemma_matching_deterministic(
    p: GraphModel,
    h: GraphModel,
    check: bool,
    r1: Seq<Seq<(usize, usize)>>,
    r2: Seq<Seq<(usize, usize)>>,
)
    requires
        r1 == spec_search(p, h, Seq::<(usize, usize)>::empty(), check),
        r2 == spec_search(p, h, Seq::<(usize, usize)>::empty(), check),
    ensures
        r1 == r2,
{
}

/// A characterized first-unmapped answer is the one the spec computes.
proof fn lemma_first_unmapped_some(p: GraphModel, mu: Seq<(usize, usize)>, v: int, pn: int)
    requires
        0 <= v <= pn,
        p.node_live(pn),
        !has_key(mu, pn),
        forall|w: int| 0 <= w < pn && #[trigger] p.node_live(w) ==> has_key(mu, w),
    ensures
        first_unmapped_from(p, mu, v) == Some(pn),
    decreases pn - v,
{
    if v < pn {
        lemma_first_unmapped_some(p, mu, v + 1, pn);
    }
}

/// On a total map the spec finds no unmapped pattern node.
proof fn lemma_first_unmapped_none(p: GraphModel, mu: Seq<(usize, usize)>, v: int)
    requires
        total_on(p, mu),
    ensures
        first_unmapped_from(p, mu, v) is None,
    decreases p.nodes.len() - v,
{
    if v < p.nodes.len() {
        lemma_first_unmapped_none(p, mu, v + 1);
    }
}


/// Pattern node `p` occurs among the first `n` pairs of the map.
pub open spec fn has_key_upto(mu: Seq<(usize, usize)>, n: int, p: int) -> bool {
    exists|j: int| 0 <= j < n && #[trigger] key_at(mu, j) == p
}

/// The map was built first-fit: ahead of each pair, every smaller live
/// pattern node is already mapped.
pub open spec fn first_fit(p: GraphModel, mu: Seq<(usize, usize)>) -> bool {
    forall|j: int, w: int|
        #![trigger key_at(mu, j), p.node_live(w)]
        0 <= j < mu.len() && 0 <= w < key_at(mu, j) && p.node_live(w) ==> has_key_upto(mu, j, w)
}

/// The pattern nodes of the map are listed in increasing order.
pub open spec fn keys_ascending(mu: Seq<(usize, usize)>) -> bool {
    forall|i: int, j: int|
        0 <= i < j < mu.len() ==> #[trigger] key_at(mu, i) < #[trigger] key_at(mu, j)
}

/// Every element of the candidate block at `g` appears in the search
/// over all candidates below `G`.
proof fn lemma_cands_block_subset(
    p: GraphModel,
    h: GraphModel,
    mu: Seq<(usize, usize)>,
    check: bool,
    pn: int,
    g: int,
    big: int,
    x: Seq<(usize, usize)>,
)
    requires
        0 <= g < big,
        h.node_live(g),
        !has_val(mu, g),
        spec_feasible(p, h, mu, pn, g, check),
        mu.len() < p.nodes.len(),
        spec_search(p, h, mu.push((pn as usize, g as usize)), check).contains(x),
    ensures
        spec_cands_upto(p, h, mu, check, pn, big).contains(x),
    decreases big,
{
    let block = spec_search(p, h, mu.push((pn as usize, g as usize)), check);
    if g == big - 1 {
        let pre = spec_cands_upto(p, h, mu, check, pn, big - 1);
        let i = choose|i: int| 0 <= i < block.len() && block[i] == x;
        assert(spec_cands_upto(p, h, mu, check, pn, big)[pre.len() + i] == x);
    } else {
        lemma_cands_block_subset(p, h, mu, check, pn, g, big - 1, x);
        let pre = spec_cands_upto(p, h, mu, check, pn, big - 1);
        let i = choose|i: int| 0 <= i < pre.len() && pre[i] == x;
        assert(spec_cands_upto(p, h, mu, check, pn, big)[i] == x);
    }
}

/// Inside a complete embedding, mapping the `k`-th pattern node to its
/// image is feasible for the first `k` pairs.
proof fn lemma_embedding_feasible(
    p: GraphModel,
    h: GraphModel,
    mu: Seq<(usize, usize)>,
    k: int,
    check: bool,
)
    requires
        p.wf(),
        embedding_ok(p, h, mu, check),
        0 <= k < mu.len(),
    ensures
        spec_feasible(p, h, mu.take(k), key_at(mu, k), val_at(mu, k), check),
{
    let cur = mu.take(k);
    let pn = key_at(mu, k);
    let g = val_at(mu, k);
    assert(h.node_label(g) == p.node_label(pn));
    assert forall|e: int, j: int|
        #![trigger p.edge_live(e), key_at(cur, j)]
        p.edge_live(e) && p.edge(e).src == pn && 0 <= j < cur.len() && key_at(cur, j) == p.edge(
        e,
    ).dst implies host_edge_matches(h, g, val_at(cur, j), p.edge(e).label, check) by {
        assert(key_at(cur, j) == key_at(mu, j));
        assert(val_at(cur, j) == val_at(mu, j));
        assert(host_edge_matches(h, val_at(mu, k), val_at(mu, j), p.edge(e).label, check));
    }
    assert forall|e: int, i: int|
        #![trigger p.edge_live(e), key_at(cur, i)]
        p.edge_live(e) && p.edge(e).dst == pn && 0 <= i < cur.len() && key_at(cur, i) == p.edge(
        e,
    ).src implies host_edge_matches(h, val_at(cur, i), g, p.edge(e).label, check) by {
        assert(key_at(cur, i) == key_at(mu, i));
        assert(val_at(cur, i) == val_at(mu, i));
        assert(host_edge_matches(h, val_at(mu, i), val_at(mu, k), p.edge(e).label, check));
    }
    assert forall|e: int| #[trigger]
        p.edge_live(e) && p.edge(e).src == pn && p.edge(e).dst == pn implies host_edge_matches(
        h,
        g,
        g,
        p.edge(e).label,
        check,
    ) by {
        assert(host_edge_matches(h, val_at(mu, k), val_at(mu, k), p.edge(e).label, check));
    }
}

/// In an ascending total embedding, the `k`-th pattern node is exactly
/// the first one that the first `k` pairs leave unmapped.
proof fn lemma_next_key_is_first_unmapped(p: GraphModel, mu: Seq<(usize, usize)>, k: int)
    requires
        total_on(p, mu),
        keys_ascending(mu),
        forall|i: int| 0 <= i < mu.len() ==> p.node_live(#[trigger] key_at(mu, i)),
        0 <= k < mu.len(),
    ensures
        first_unmapped_from(p, mu.take(k), 0) == Some(key_at(mu, k)),
{
    let cur = mu.take(k);
    let pn = key_at(mu, k);
    assert(p.node_live(pn));
    assert forall|j: int| 0 <= j < cur.len() implies #[trigger] key_at(cur, j) != pn by {
        assert(key_at(cur, j) == key_at(mu, j));
        assert(key_at(mu, j) < key_at(mu, k));
    }
    assert(!has_key(cur, pn));
    assert forall|w: int| 0 <= w < pn && #[trigger] p.node_live(w) implies has_key(cur, w) by {
        assert(has_key(mu, w));
        let i = choose|i: int| 0 <= i < mu.len() && #[trigger] key_at(mu, i) == w;
        if i >= k {
            assert(key_at(mu, k) <= key_at(mu, i) || i == k);
            assert(false);
        }
        assert(key_at(cur, i) == w);
    }
    lemma_first_unmapped_some(p, cur, 0, pn);
}

/// The search from the first `k` pairs of an ascending embedding emits
/// the embedding.
proof fn lemma_complete_rec(
    p: GraphModel,
    h: GraphModel,
    mu: Seq<(usize, usize)>,
    k: int,
    check: bool,
)
    requires
        p.wf(),
        embedding_ok(p, h, mu, check),
        keys_ascending(mu),
        0 <= k <= mu.len(),
    ensures
        spec_search(p, h, mu.take(k), check).contains(mu),
    decreases mu.len() - k,
{
    if k == mu.len() {
        assert(mu.take(k) =~= mu);
        lemma_first_unmapped_none(p, mu, 0);
        assert(spec_search(p, h, mu.take(k), check)[0] == mu);
    } else {
        let cur = mu.take(k);
        let pn = key_at(mu, k);
        let g = val_at(mu, k);
        lemma_next_key_is_first_unmapped(p, mu, k);
        lemma_embedding_feasible(p, h, mu, k, check);
        assert(h.node_live(g));
        assert forall|j: int| 0 <= j < cur.len() implies #[trigger] val_at(cur, j) != g by {
            assert(val_at(cur, j) == val_at(mu, j));
            assert(val_at(mu, j) != val_at(mu, k));
        }
        assert(!has_val(cur, g));
        assert forall|i: int|
            0 <= i < mu.len() implies 0 <= #[trigger] key_at(mu, i) < p.nodes.len() as int by {
            assert(p.node_live(key_at(mu, i)));
        }
        lemma_mu_len_bound(mu, p.nodes.len() as int);
        assert(cur.len() < p.nodes.len());
        assert(cur.push((pn as usize, g as usize)) =~= mu.take(k + 1));
        lemma_complete_rec(p, h, mu, k + 1, check);
        lemma_cands_block_subset(p, h, cur, check, pn, g, h.nodes.len() as int, mu);
    }
}

/// Completeness of matching: every complete embedding, listed with its
/// pattern nodes in increasing order, appears in the matcher's result.
pub proof fn lemma_matching_complete(
    p: GraphModel,
    h: GraphModel,
    mu: Seq<(usize, usize)>,
    check: bool,
)
    requires
        p.wf(),
        embedding_ok(p, h, mu, check),
        keys_ascending(mu),
    ensures
        spec_search(p, h, Seq::<(usize, usize)>::empty(), check).contains(mu),
{
    assert(mu.take(0) =~= Seq::<(usize, usize)>::empty());
    lemma_complete_rec(p, h, mu, 0, check);
}


/// Every map the search emits extends the partial map it started from.
proof fn lemma_search_extends(
    p: GraphModel,
    h: GraphModel,
    mu: Seq<(usize, usize)>,
    check: bool,
    x: Seq<(usize, usize)>,
)
    requires
        spec_search(p, h, mu, check).contains(x),
    ensures
        x.len() >= mu.len(),
        x.take(mu.len() as int) == mu,
    decreases p.nodes.len() - mu.len(), h.nodes.len() + 1,
{
    match first_unmapped_from(p, mu, 0) {
        None => {
            assert(x == mu);
            assert(x.take(mu.len() as int) =~= mu);
        },
        Some(pn) => {
            lemma_cands_elem(p, h, mu, check, pn, h.nodes.len() as int, x);
        },
    }
}

/// Every map emitted while trying the candidates below `g` extends the
/// partial map by a pair for the selected pattern node and a candidate
/// below `g`.
proof fn lemma_cands_elem(
    p: GraphModel,
    h: GraphModel,
    mu: Seq<(usize, usize)>,
    check: bool,
    pn: int,
    g: int,
    x: Seq<(usize, usize)>,
)
    requires
        spec_cands_upto(p, h, mu, check, pn, g).contains(x),
    ensures
        x.len() > mu.len(),
        x.take(mu.len() as int) == mu,
        x[mu.len() as int].0 == pn as usize,
        (x[mu.len() as int].1 as int) < g,
    decreases p.nodes.len() - mu.len(), g,
{
    if g <= 0 {
        assert(false);
    } else {
        let pre = spec_cands_upto(p, h, mu, check, pn, g - 1);
        let i = choose|i: int|
            0 <= i < spec_cands_upto(p, h, mu, check, pn, g).len() && spec_cands_upto(
                p,
                h,
                mu,
                check,
                pn,
                g,
            )[i] == x;
        if i < pre.len() {
            assert(pre.contains(x));
            lemma_cands_elem(p, h, mu, check, pn, g - 1, x);
        } else {
            let mu2 = mu.push((pn as usize, (g - 1) as usize));
            let block = spec_search(p, h, mu2, check);
            assert(block[i - pre.len()] == x);
            assert(block.contains(x));
            lemma_search_extends(p, h, mu2, check, x);
            assert(x.take(mu2.len() as int)[mu.len() as int] == (
            pn as usize,
            (g - 1) as usize,
            ));
            assert(x[mu.len() as int] == (pn as usize, (g - 1) as usize));
            assert(x.take(mu.len() as int) =~= x.take(mu2.len() as int).take(mu.len() as int));
            assert(x.take(mu2.len() as int).take(mu.len() as int) =~= mu);
            assert((x[mu.len() as int].1 as int) < g);
        }
    }
}

/// The search emits no map twice.
proof fn lemma_search_nodup(p: GraphModel, h: GraphModel, mu: Seq<(usize, usize)>, check: bool)
    requires
        h.nodes.len() <= usize::MAX,
    ensures
        spec_search(p, h, mu, check).no_duplicates(),
    decreases p.nodes.len() - mu.len(), h.nodes.len() + 1,
{
    match first_unmapped_from(p, mu, 0) {
        None => {
            assert(spec_search(p, h, mu, check).no_duplicates());
        },
        Some(pn) => {
            lemma_cands_nodup(p, h, mu, check, pn, h.nodes.len() as int);
        },
    }
}

/// The maps emitted while trying the candidates below `g` are pairwise
/// distinct: maps from different candidates differ right after the
/// shared prefix.
proof fn lemma_cands_nodup(
    p: GraphModel,
    h: GraphModel,
    mu: Seq<(usize, usize)>,
    check: bool,
    pn: int,
    g: int,
)
    requires
        h.nodes.len() <= usize::MAX,
        g <= h.nodes.len(),
    ensures
        spec_cands_upto(p, h, mu, check, pn, g).no_duplicates(),
    decreases p.nodes.len() - mu.len(), g,
{
    if g <= 0 {
    } else {
        lemma_cands_nodup(p, h, mu, check, pn, g - 1);
        let pre = spec_cands_upto(p, h, mu, check, pn, g - 1);
        let whole = spec_cands_upto(p, h, mu, check, pn, g);
        if h.node_live(g - 1) && !has_val(mu, g - 1) && spec_feasible(p, h, mu, pn, g - 1, check)
            && mu.len() < p.nodes.len() {
            let mu2 = mu.push((pn as usize, (g - 1) as usize));
            let block = spec_search(p, h, mu2, check);
            lemma_search_nodup(p, h, mu2, check);
            assert forall|i: int, j: int|
                0 <= i < pre.len() && 0 <= j < block.len() implies pre[i] != block[j] by {
                assert(pre.contains(pre[i]));
                lemma_cands_elem(p, h, mu, check, pn, g - 1, pre[i]);
                assert(block.contains(block[j]));
                lemma_search_extends(p, h, mu2, check, block[j]);
                assert(block[j].take(mu2.len() as int)[mu.len() as int] == (
                pn as usize,
                (g - 1) as usize,
                ));
                assert(block[j][mu.len() as int].1 == (g - 1) as usize);
                assert((block[j][mu.len() as int].1 as int) == g - 1);
                assert((pre[i][mu.len() as int].1 as int) < g - 1);
                if pre[i] == block[j] {
                    assert(pre[i][mu.len() as int] == block[j][mu.len() as int]);
                    assert(false);
                }
            }
            assert forall|i: int, j: int|
                0 <= i < whole.len() && 0 <= j < whole.len() && i != j implies whole[i]
                != whole[j] by {
                if i < pre.len() && j < pre.len() {
                    assert(pre[i] != pre[j]);
                } else if i < pre.len() {
                    assert(pre[i] != block[j - pre.len()]);
                } else if j < pre.len() {
                    assert(pre[j] != block[i - pre.len()]);
                } else {
                    assert(block[i - pre.len()] != block[j - pre.len()]);
                }
            }
        } else {
            assert(whole =~= pre);
        }
    }
}

/// The matcher returns no mapping twice: its result, as the search
/// describes it, is free of duplicates.
pub proof fn lemma_matching_no_duplicates(p: GraphModel, h: GraphModel, check: bool)
    requires
        h.nodes.len() <= usize::MAX,
    ensures
        spec_search(p, h, Seq::<(usize, usize)>::empty(), check).no_duplicates(),
{
    lemma_search_nodup(p, h, Seq::<(usize, usize)>::empty(), check);
}


/// What a positive first-unmapped answer means: the node is live and
/// unmapped, and every smaller live node from `v` on is mapped.
proof fn lemma_first_unmapped_min(p: GraphModel, mu: Seq<(usize, usize)>, v: int, pn: int)
    requires
        0 <= v,
        first_unmapped_from(p, mu, v) == Some(pn),
    ensures
        v <= pn < p.nodes.len(),
        p.node_live(pn),
        !has_key(mu, pn),
        forall|w: int| v <= w < pn && #[trigger] p.node_live(w) ==> has_key(mu, w),
    decreases p.nodes.len() - v,
{
    if v >= p.nodes.len() {
        assert(false);
    } else if p.node_live(v) && !has_key(mu, v) {
    } else {
        lemma_first_unmapped_min(p, mu, v + 1, pn);
    }
}

/// Every map the search emits from a first-fit map is itself first-fit,
/// with its pattern nodes ascending.
proof fn lemma_search_first_fit(
    p: GraphModel,
    h: GraphModel,
    mu: Seq<(usize, usize)>,
    check: bool,
    x: Seq<(usize, usize)>,
)
    requires
        p.nodes.len() <= usize::MAX,
        spec_search(p, h, mu, check).contains(x),
        keys_ascending(mu),
        first_fit(p, mu),
    ensures
        keys_ascending(x),
        first_fit(p, x),
    decreases p.nodes.len() - mu.len(), h.nodes.len() + 1,
{
    match first_unmapped_from(p, mu, 0) {
        None => {
            assert(x == mu);
        },
        Some(pn) => {
            lemma_cands_first_fit(p, h, mu, check, pn, h.nodes.len() as int, x);
        },
    }
}

/// The candidate part of the first-fit argument.
proof fn lemma_cands_first_fit(
    p: GraphModel,
    h: GraphModel,
    mu: Seq<(usize, usize)>,
    check: bool,
    pn: int,
    g: int,
    x: Seq<(usize, usize)>,
)
    requires
        p.nodes.len() <= usize::MAX,
        spec_cands_upto(p, h, mu, check, pn, g).contains(x),
        first_unmapped_from(p, mu, 0) == Some(pn),
        keys_ascending(mu),
        first_fit(p, mu),
    ensures
        keys_ascending(x),
        first_fit(p, x),
    decreases p.nodes.len() - mu.len(), g,
{
    if g <= 0 {
        assert(false);
    } else {
        let pre = spec_cands_upto(p, h, mu, check, pn, g - 1);
        let i = choose|i: int|
            0 <= i < spec_cands_upto(p, h, mu, check, pn, g).len() && spec_cands_upto(
                p,
                h,
                mu,
                check,
                pn,
                g,
            )[i] == x;
        if i < pre.len() {
            assert(pre.contains(x));
            lemma_cands_first_fit(p, h, mu, check, pn, g - 1, x);
        } else {
            let mu2 = mu.push((pn as usize, (g - 1) as usize));
            let block = spec_search(p, h, mu2, check);
            assert(block[i - pre.len()] == x);
            assert(block.contains(x));
            lemma_first_unmapped_min(p, mu, 0, pn);
            assert((pn as usize) as int == pn);
            assert forall|j: int| 0 <= j < mu.len() implies #[trigger] key_at(mu, j) < pn by {
                if key_at(mu, j) == pn {
                    assert(has_key(mu, pn));
                    assert(false);
                }
                if key_at(mu, j) > pn {
                    assert(p.node_live(pn));
                    assert(has_key_upto(mu, j, pn));
                    assert(has_key(mu, pn));
                    assert(false);
                }
            }
            assert forall|j1: int, j2: int| 0 <= j1 < j2 < mu2.len() implies #[trigger] key_at(
                mu2,
                j1,
            ) < #[trigger] key_at(mu2, j2) by {
                if j2 < mu.len() {
                    assert(key_at(mu2, j1) == key_at(mu, j1));
                    assert(key_at(mu2, j2) == key_at(mu, j2));
                } else {
                    assert(key_at(mu2, j1) == key_at(mu, j1));
                    assert(key_at(mu2, j2) == pn);
                }
            }
            assert forall|j: int, w: int|
                #![trigger key_at(mu2, j), p.node_live(w)]
                0 <= j < mu2.len() && 0 <= w < key_at(mu2, j) && p.node_live(w) implies
                has_key_upto(mu2, j, w) by {
                if j < mu.len() {
                    assert(key_at(mu2, j) == key_at(mu, j));
                    assert(has_key_upto(mu, j, w));
                    let t = choose|t: int| 0 <= t < j && #[trigger] key_at(mu, t) == w;
                    assert(key_at(mu2, t) == w);
                } else {
                    assert(key_at(mu2, j) == pn);
                    assert(has_key(mu, w));
                    let t = choose|t: int|
                        0 <= t < mu.len() && #[trigger] key_at(mu, t) == w;
                    assert(key_at(mu2, t) == w);
                }
            }
            lemma_search_first_fit(p, h, mu2, check, x);
        }
    }
}

/// Every map in the matcher's result lists its pattern nodes in
/// increasing order. Together with soundness, completeness and the
/// absence of duplicates, the result is exactly the ascending complete
/// embeddings, each once.
pub proof fn lemma_results_ascending(
    p: GraphModel,
    h: GraphModel,
    check: bool,
    x: Seq<(usize, usize)>,
)
    requires
        p.nodes.len() <= usize::MAX,
        spec_search(p, h, Seq::<(usize, usize)>::empty(), check).contains(x),
    ensures
        keys_ascending(x),
{
    lemma_search_first_fit(p, h, Seq::<(usize, usize)>::empty(), check, x);
}

/// A list of distinct keys below `n` has at most `n` entries.
pub proof fn lemma_mu_len_bound(mu: Seq<(usize, usize)>, n: int)
    requires
        distinct_keys(mu),
        forall|i: int| 0 <= i < mu.len() ==> 0 <= #[trigger] key_at(mu, i) < n,
        0 <= n,
    ensures
        mu.len() <= n,
{
    let keys = Seq::new(mu.len(), |i: int| key_at(mu, i));
    assert(keys.no_duplicates());
    keys.unique_seq_to_set();
    lemma_int_range(0, n);
    assert(keys.to_set() <= set_int_range(0, n)) by {
        assert forall|x: int| keys.to_set().contains(x) implies set_int_range(0, n).contains(
            x,
        ) by {
            let i = choose|i: int| 0 <= i < keys.len() && keys[i] == x;
            assert(0 <= key_at(mu, i) < n);
        }
    }
    lemma_len_subset(keys.to_set(), set_int_range(0, n));
}

/// A feasible fresh pair extends a consistent partial map consistently.
pub proof fn lemma_push_partial_ok(
    p: GraphModel,
    h: GraphModel,
    mu: Seq<(usize, usize)>,
    pn: usize,
    g: usize,
    check: bool,
)
    requires
        partial_ok(p, h, mu, check),
        p.node_live(pn as int),
        h.node_live(g as int),
        !has_key(mu, pn as int),
        !has_val(mu, g as int),
        spec_feasible(p, h, mu, pn as int, g as int, check),
    ensures
        partial_ok(p, h, mu.push((pn, g)), check),
{
    let mu2 = mu.push((pn, g));
    assert forall|i: int| 0 <= i < mu2.len() implies p.node_live(#[trigger] key_at(mu2, i))
        && h.node_live(val_at(mu2, i)) && h.node_label(val_at(mu2, i)) == p.node_label(
        key_at(mu2, i),
    ) by {
        if i < mu.len() {
            assert(key_at(mu2, i) == key_at(mu, i));
            assert(val_at(mu2, i) == val_at(mu, i));
            assert(p.node_live(key_at(mu, i)));
        } else {
            assert(key_at(mu2, i) == pn as int);
        }
    }
    assert forall|i: int, j: int| 0 <= i < j < mu2.len() implies #[trigger] key_at(mu2, i)
        != #[trigger] key_at(mu2, j) by {
        if j < mu.len() {
            assert(key_at(mu2, i) == key_at(mu, i) && key_at(mu2, j) == key_at(mu, j));
        } else {
            assert(key_at(mu2, i) == key_at(mu, i));
            assert(key_at(mu2, j) == pn as int);
        }
    }
    assert forall|i: int, j: int| 0 <= i < j < mu2.len() implies #[trigger] val_at(mu2, i)
        != #[trigger] val_at(mu2, j) by {
        if j < mu.len() {
            assert(val_at(mu2, i) == val_at(mu, i) && val_at(mu2, j) == val_at(mu, j));
        } else {
            assert(val_at(mu2, i) == val_at(mu, i));
            assert(val_at(mu2, j) == g as int);
        }
    }
    assert forall|e: int, i: int, j: int|
        #![trigger p.edge_live(e), key_at(mu2, i), key_at(mu2, j)]
        p.edge_live(e) && 0 <= i < mu2.len() && 0 <= j < mu2.len() && key_at(mu2, i) == p.edge(
        e,
    ).src && key_at(mu2, j) == p.edge(e).dst implies host_edge_matches(
        h,
        val_at(mu2, i),
        val_at(mu2, j),
        p.edge(e).label,
        check,
    ) by {
        if i < mu.len() && j < mu.len() {
            assert(key_at(mu2, i) == key_at(mu, i) && key_at(mu2, j) == key_at(mu, j));
            assert(val_at(mu2, i) == val_at(mu, i) && val_at(mu2, j) == val_at(mu, j));
        } else if i == mu.len() && j == mu.len() {
            assert(p.edge(e).src == pn as int && p.edge(e).dst == pn as int);
        } else if i == mu.len() {
            assert(key_at(mu2, j) == key_at(mu, j) && val_at(mu2, j) == val_at(mu, j));
            assert(p.edge(e).src == pn as int);
        } else {
            assert(key_at(mu2, i) == key_at(mu, i) && val_at(mu2, i) == val_at(mu, i));
            assert(p.edge(e).dst == pn as int);
        }
    }
}

/// `more` extends `base` by embeddings only: the old entries are kept and
/// every new entry is a complete embedding.
pub open spec fn results_extended(
    p: GraphModel,
    h: GraphModel,
    base: Seq<Vec<(usize, usize)>>,
    more: Seq<Vec<(usize, usize)>>,
    check: bool,
) -> bool {
    &&& more.len() >= base.len()
    &&& forall|i: int| 0 <= i < base.len() ==> #[trigger] more[i]@ == base[i]@
    &&& forall|i: int|
        base.len() <= i < more.len() ==> embedding_ok(p, h, #[trigger] more[i]@, check)
}

/// First match of `key` among the pattern nodes of the map.
fn mu_lookup(mu: &Vec<(usize, usize)>, key: usize) -> (r: Option<usize>)
    ensures
        match r {
            Some(h) => mu_maps(mu@, key as int, h as int) && has_key(mu@, key as int),
            None => !has_key(mu@, key as int),
        },
{
    let mut i: usize = 0;
    while i < mu.len()
        invariant
            i <= mu@.len(),
            forall|j: int| 0 <= j < i as int ==> #[trigger] key_at(mu@, j) != key as int,
        decreases mu@.len() - i,
    {
        if mu[i].0 == key {
            let hv = mu[i].1;
            proof {
                assert(key_at(mu@, i as int) == key as int);
                assert(val_at(mu@, i as int) == hv as int);
            }
            return Some(hv);
        }
        i = i + 1;
    }
    None
}

/// Is `h` already an image of the map?
fn mu_contains_val(mu: &Vec<(usize, usize)>, h: usize) -> (r: bool)
    ensures
        r == has_val(mu@, h as int),
{
    let mut i: usize = 0;
    while i < mu.len()
        invariant
            i <= mu@.len(),
            forall|j: int| 0 <= j < i as int ==> #[trigger] val_at(mu@, j) != h as int,
        decreases mu@.len() - i,
    {
        if mu[i].1 == h {
            proof {
                assert(val_at(mu@, i as int) == h as int);
            }
            return true;
        }
        i = i + 1;
    }
    false
}

/// Copy of a node map.
fn copy_pairs(mu: &Vec<(usize, usize)>) -> (r: Vec<(usize, usize)>)
    ensures
        r@ == mu@,
{
    let mut r: Vec<(usize, usize)> = Vec::new();
    let mut i: usize = 0;
    while i < mu.len()
        invariant
            i <= mu@.len(),
            r@ == mu@.take(i as int),
        decreases mu@.len() - i,
    {
        r.push(mu[i]);
        proof {
            assert(r@ =~= mu@.take(i as int + 1));
        }
        i = i + 1;
    }
    proof {
        assert(mu@.take(mu@.len() as int) =~= mu@);
    }
    r
}

/// The host has a suitable edge from `u` to `v` for a pattern edge labeled
/// `l`.
fn edge_present(host: &Graph, u: usize, v: usize, l: &String, check: bool) -> (r: bool)
    ensures
        r == host_edge_matches(host@, u as int, v as int, l@, check),
{
    if check {
        host.find_edge_labeled(u, v, l).is_some()
    } else {
        host.find_edge(u, v).is_some()
    }
}

/// Feasibility of mapping pattern node `pn` to host node `g` given the
/// current partial map: equal node labels, and every pattern edge between
/// `pn` and a mapped node (or a loop at `pn`) realized in the host.
fn is_feasible(
    mu: &Vec<(usize, usize)>,
    pattern: &Graph,
    host: &Graph,
    pn: usize,
    g: usize,
    check_edge_labels: bool,
) -> (r: bool)
    requires
        pattern@.node_live(pn as int),
        host@.node_live(g as int),
        distinct_keys(mu@),
        !has_key(mu@, pn as int),
    ensures
        r == spec_feasible(pattern@, host@, mu@, pn as int, g as int, check_edge_labels),
{
    if !(pattern.node_label(pn) == host.node_label(g)) {
        return false;
    }
    let bound = pattern.edge_bound();
    let mut e: usize = 0;
    while e < bound
        invariant
            bound as int == pattern@.edges.len(),
            e <= bound,
            pattern@.node_live(pn as int),
            host@.node_live(g as int),
            distinct_keys(mu@),
            !has_key(mu@, pn as int),
            forall|e2: int, j: int|
                #![trigger pattern@.edge_live(e2), key_at(mu@, j)]
                0 <= e2 < e as int && pattern@.edge_live(e2) && pattern@.edge(e2).src == pn as int
                    && 0 <= j < mu@.len() && key_at(mu@, j) == pattern@.edge(e2).dst
                    ==> host_edge_matches(
                    host@,
                    g as int,
                    val_at(mu@, j),
                    pattern@.edge(e2).label,
                    check_edge_labels,
                ),
            forall|e2: int, i: int|
                #![trigger pattern@.edge_live(e2), key_at(mu@, i)]
                0 <= e2 < e as int && pattern@.edge_live(e2) && pattern@.edge(e2).dst == pn as int
                    && 0 <= i < mu@.len() && key_at(mu@, i) == pattern@.edge(e2).src
                    ==> host_edge_matches(
                    host@,
                    val_at(mu@, i),
                    g as int,
                    pattern@.edge(e2).label,
                    check_edge_labels,
                ),
            forall|e2: int|
                0 <= e2 < e as int && #[trigger] pattern@.edge_live(e2) && pattern@.edge(e2).src
                    == pn as int && pattern@.edge(e2).dst == pn as int ==> host_edge_matches(
                    host@,
                    g as int,
                    g as int,
                    pattern@.edge(e2).label,
                    check_edge_labels,
                ),
        decreases bound as int - e,
    {
        if pattern.is_edge(e) {
            let (es, ed) = pattern.edge_endpoints(e);
            let label = pattern.edge_label(e);
            if es == pn {
                if ed == pn {
                    if !edge_present(host, g, g, label, check_edge_labels) {
                        return false;
                    }
                } else {
                    match mu_lookup(mu, ed) {
                        Some(hd) => {
                            if !edge_present(host, g, hd, label, check_edge_labels) {
                                proof {
                                    let j = choose|j: int|
                                        0 <= j < mu@.len() && #[trigger] key_at(mu@, j)
                                            == ed as int && val_at(mu@, j) == hd as int;
                                    assert(!host_edge_matches(
                                        host@,
                                        g as int,
                                        val_at(mu@, j),
                                        pattern@.edge(e as int).label,
                                        check_edge_labels,
                                    ));
                                }
                                return false;
                            }
                            proof {
                                assert forall|j: int|
                                    0 <= j < mu@.len() && #[trigger] key_at(mu@, j)
                                        == ed as int implies val_at(mu@, j) == hd as int by {
                                    let j0 = choose|j0: int|
                                        0 <= j0 < mu@.len() && #[trigger] key_at(mu@, j0)
                                            == ed as int && val_at(mu@, j0) == hd as int;
                                    if j != j0 {
                                        assert(key_at(mu@, j) != key_at(mu@, j0));
                                    }
                                }
                            }
                        },
                        None => {},
                    }
                }
            }
            if ed == pn && es != pn {
                match mu_lookup(mu, es) {
                    Some(hs) => {
                        if !edge_present(host, hs, g, label, check_edge_labels) {
                            proof {
                                let i = choose|i: int|
                                    0 <= i < mu@.len() && #[trigger] key_at(mu@, i) == es as int
                                        && val_at(mu@, i) == hs as int;
                                assert(!host_edge_matches(
                                    host@,
                                    val_at(mu@, i),
                                    g as int,
                                    pattern@.edge(e as int).label,
                                    check_edge_labels,
                                ));
                            }
                            return false;
                        }
                        proof {
                            assert forall|i: int|
                                0 <= i < mu@.len() && #[trigger] key_at(mu@, i)
                                    == es as int implies val_at(mu@, i) == hs as int by {
                                let i0 = choose|i0: int|
                                    0 <= i0 < mu@.len() && #[trigger] key_at(mu@, i0) == es as int
                                        && val_at(mu@, i0) == hs as int;
                                if i != i0 {
                                    assert(key_at(mu@, i) != key_at(mu@, i0));
                                }
                            }
                        }
                    },
                    None => {},
                }
            }
        }
        e = e + 1;
    }
    true
}

/// First live pattern node that the map leaves unmapped, in identifier
/// order.
fn first_unmapped(pattern: &Graph, mu: &Vec<(usize, usize)>) -> (r: Option<usize>)
    ensures
        match r {
            Some(p) => pattern@.node_live(p as int) && !has_key(mu@, p as int) && forall|v: int|
                0 <= v < p as int && #[trigger] pattern@.node_live(v) ==> has_key(mu@, v),
            None => total_on(pattern@, mu@),
        },
{
    let bound = pattern.node_bound();
    let mut v: usize = 0;
    while v < bound
        invariant
            bound as int == pattern@.nodes.len(),
            v <= bound,
            forall|w: int|
                0 <= w < v as int && #[trigger] pattern@.node_live(w) ==> has_key(mu@, w),
        decreases bound as int - v,
    {
        if pattern.is_node(v) {
            if mu_lookup(mu, v).is_none() {
                return Some(v);
            }
        }
        v = v + 1;
    }
    None
}

/// Depth-first search: extend the partial map over every feasible
/// candidate for the first unmapped pattern node, emitting each completed
/// map. The map is restored on return; every emitted entry is a complete
/// embedding.
fn search_collect(
    pattern: &Graph,
    host: &Graph,
    mu: &mut Vec<(usize, usize)>,
    check_edge_labels: bool,
    results: &mut Vec<Vec<(usize, usize)>>,
)
    requires
        pattern@.wf(),
        host@.wf(),
        partial_ok(pattern@, host@, old(mu)@, check_edge_labels),
    ensures
        final(mu)@ == old(mu)@,
        results_extended(pattern@, host@, old(results)@, final(results)@, check_edge_labels),
        final(results)@.map_values(|x: Vec<(usize, usize)>| x@) == old(results)@.map_values(
            |x: Vec<(usize, usize)>| x@,
        ) + spec_search(pattern@, host@, old(mu)@, check_edge_labels),
    decreases pattern@.nodes.len() - old(mu)@.len(),
{
    proof {
        lemma_mu_len_bound(mu@, pattern@.nodes.len() as int);
    }
    let next = first_unmapped(pattern, mu);
    match next {
        None => {
            let complete = copy_pairs(mu);
            results.push(complete);
            proof {
                lemma_first_unmapped_none(pattern@, mu@, 0);
                assert(results@.map_values(|x: Vec<(usize, usize)>| x@) =~= old(
                    results,
                )@.map_values(|x: Vec<(usize, usize)>| x@) + spec_search(
                    pattern@,
                    host@,
                    mu@,
                    check_edge_labels,
                ));
            }
            return ;
        },
        Some(pn) => {
            proof {
                lemma_first_unmapped_some(pattern@, mu@, 0, pn as int);
            }
            let bound = host.node_bound();
            let mut g: usize = 0;
            while g < bound
                invariant
                    bound as int == host@.nodes.len(),
                    g <= bound,
                    pattern@.wf(),
                    host@.wf(),
                    mu@ == old(mu)@,
                    partial_ok(pattern@, host@, mu@, check_edge_labels),
                    pattern@.node_live(pn as int),
                    !has_key(mu@, pn as int),
                    first_unmapped_from(pattern@, mu@, 0) == Some(pn as int),
                    results_extended(
                        pattern@,
                        host@,
                        old(results)@,
                        results@,
                        check_edge_labels,
                    ),
                    results@.map_values(|x: Vec<(usize, usize)>| x@) == old(
                        results,
                    )@.map_values(|x: Vec<(usize, usize)>| x@) + spec_cands_upto(
                        pattern@,
                        host@,
                        mu@,
                        check_edge_labels,
                        pn as int,
                        g as int,
                    ),
                decreases bound as int - g,
            {
                let ghost inv_results = results@;
                let mut extended: bool = false;
                if host.is_node(g) && !mu_contains_val(mu, g) {
                    if is_feasible(mu, pattern, host, pn, g, check_edge_labels) {
                        let ghost pre = mu@;
                        let ghost pre_results = results@;
                        mu.push((pn, g));
                        proof {
                            lemma_push_partial_ok(
                                pattern@,
                                host@,
                                pre,
                                pn,
                                g,
                                check_edge_labels,
                            );
                            lemma_mu_len_bound(mu@, pattern@.nodes.len() as int);
                            assert forall|i: int|
                                0 <= i < mu@.len() implies 0 <= #[trigger] key_at(mu@, i)
                                < pattern@.nodes.len() as int by {
                                assert(pattern@.node_live(key_at(mu@, i)));
                            }
                            assert(pre.len() < pattern@.nodes.len());
                        }
                        search_collect(pattern, host, mu, check_edge_labels, results);
                        extended = true;
                        mu.pop();
                        proof {
                            assert(mu@ =~= pre);
                            assert forall|i: int|
                                0 <= i < pre_results.len() implies #[trigger] results@[i]@
                                == pre_results[i]@ by {
                                assert(results@[i]@ == pre_results[i]@);
                            }
                            assert(results@.map_values(|x: Vec<(usize, usize)>| x@)
                                =~= pre_results.map_values(|x: Vec<(usize, usize)>| x@)
                                + spec_search(
                                pattern@,
                                host@,
                                pre.push((pn, g)),
                                check_edge_labels,
                            ));
                        }
                    }
                }
                proof {
                    assert(results@.map_values(|x: Vec<(usize, usize)>| x@) =~= old(
                        results,
                    )@.map_values(|x: Vec<(usize, usize)>| x@) + spec_cands_upto(
                        pattern@,
                        host@,
                        mu@,
                        check_edge_labels,
                        pn as int,
                        g as int + 1,
                    ));
                }
                g = g + 1;
            }
        },
    }
}

/// All embeddings of `pattern` in `host`, as node maps listing
/// `(pattern node, host node)` pairs in increasing pattern-node order.
/// Every returned map is injective, total on the live pattern nodes,
/// label-preserving, and realizes every pattern edge by a host edge
/// between the images; when `check_edge_labels` is set the host edge also
/// carries the pattern edge's label.
pub fn find_mappings(pattern: &Graph, host: &Graph, check_edge_labels: bool) -> (res: Vec<
    Vec<(usize, usize)>,
>)
    requires
        pattern@.wf(),
        host@.wf(),
    ensures
        forall|i: int|
            0 <= i < res@.len() ==> embedding_ok(
                pattern@,
                host@,
                #[trigger] res@[i]@,
                check_edge_labels,
            ),
        res@.map_values(|x: Vec<(usize, usize)>| x@) == spec_search(
            pattern@,
            host@,
            Seq::<(usize, usize)>::empty(),
            check_edge_labels,
        ),
{
    let mut results: Vec<Vec<(usize, usize)>> = Vec::new();
    let mut mu: Vec<(usize, usize)> = Vec::new();
    search_collect(pattern, host, &mut mu, check_edge_labels, &mut results);
    proof {
        assert(results@.map_values(|x: Vec<(usize, usize)>| x@) =~= spec_search(
            pattern@,
            host@,
            Seq::<(usize, usize)>::empty(),
            check_edge_labels,
        ));
    }
    results
}

/// Does at least one embedding of `pattern` in `host` exist? A positive
/// answer is witnessed by an embedding.
pub fn vf2_subgraph_isomorphism(pattern: &Graph, host: &Graph, check_edge_labels: bool) -> (r:
    bool)
    requires
        pattern@.wf(),
        host@.wf(),
    ensures
        r == (spec_search(pattern@, host@, Seq::<(usize, usize)>::empty(), check_edge_labels).len()
            != 0),
        r ==> exists|mu: Seq<(usize, usize)>|
            embedding_ok(pattern@, host@, mu, check_edge_labels),
        (exists|mu: Seq<(usize, usize)>|
            embedding_ok(pattern@, host@, mu, check_edge_labels) && keys_ascending(mu)) ==> r,
{
    let maps = find_mappings(pattern, host, check_edge_labels);
    proof {
        assert(maps@.map_values(|x: Vec<(usize, usize)>| x@).len() == maps@.len());
    }
    if maps.len() > 0 {
        proof {
            assert(embedding_ok(pattern@, host@, maps@[0]@, check_edge_labels));
        }
        true
    } else {
        proof {
            if exists|mu: Seq<(usize, usize)>|
                embedding_ok(pattern@, host@, mu, check_edge_labels) && keys_ascending(mu) {
                let mu = choose|mu: Seq<(usize, usize)>|
                    embedding_ok(pattern@, host@, mu, check_edge_labels) && keys_ascending(mu);
                lemma_matching_complete(pattern@, host@, mu, check_edge_labels);
                assert(maps@.map_values(|x: Vec<(usize, usize)>| x@).len() == 0);
                assert(false);
            }
        }
        false
    }
}

} // verus!
