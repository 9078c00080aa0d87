//! Cypher export: render a validated linear rule as a script that applies
//! one rewriting step. The script is the concatenation of exactly one
//! `MATCH` clause binding every left-hand-side node and edge, one `WITH`
//! clause carrying the interface node variables and the edge variables to
//! delete, one `DELETE` clause naming the deleted edge variables, one
//! `MERGE` line per added node, and one `CREATE` clause for the added
//! edges. Variable names derive from identifiers: `n<i>` for a
//! left-hand-side node, `r<j>` for a left-hand-side edge, `m<k>` for an
//! added right-hand-side node.
use vstd::prelude::*;
use vstd::string::StringExecFns;
use crate::graph::Graph;
use crate::rule::Rule;
use crate::rule::RuleModel;
use crate::dpo::deleted_edge;
use crate::dpo::k2r_hits_node;
use crate::dpo::k2r_hits_edge;
use crate::dpo::l2k_covers_k2r;
use crate::dpo::new_rhs_node;
use crate::dpo::new_rhs_edge;

verus! {

/// The decimal digit character for `d`.
pub open spec fn digit(d: nat) -> char {
    if d == 0 {
        '0'
    } else if d == 1 {
        '1'
    } else if d == 2 {
        '2'
    } else if d == 3 {
        '3'
    } else if d == 4 {
        '4'
    } else if d == 5 {
        '5'
    } else if d == 6 {
        '6'
    } else if d == 7 {
        '7'
    } else if d == 8 {
        '8'
    } else {
        '9'
    }
}

/// Decimal representation of `n`, most significant digit first.
pub open spec fn dec_str(n: nat) -> Seq<char>
    decreases n,
{
    if n < 10 {
        seq![digit(n)]
    } else {
        dec_str(n / 10) + seq![digit(n % 10)]
    }
}

/// The digit `d` as a string slice.
fn digit_str(d: usize) -> (r: &'static str)
    requires
        d < 10,
    ensures
        r@ == seq![digit(d as nat)],
{
    let r: &'static str = match d {
        0 => "0",
        1 => "1",
        2 => "2",
        3 => "3",
        4 => "4",
        5 => "5",
        6 => "6",
        7 => "7",
        8 => "8",
        _ => "9",
    };
    proof {
        reveal_strlit("0");
        reveal_strlit("1");
        reveal_strlit("2");
        reveal_strlit("3");
        reveal_strlit("4");
        reveal_strlit("5");
        reveal_strlit("6");
        reveal_strlit("7");
        reveal_strlit("8");
        reveal_strlit("9");
        assert(r@ =~= seq![digit(d as nat)]);
    }
    r
}

/// Decimal rendering of an identifier.
fn usize_to_string(n: usize) -> (s: String)
    ensures
        s@ == dec_str(n as nat),
    decreases n,
{
    let d = n % 10;
    let ds = digit_str(d);
    if n < 10 {
        let mut s = String::new();
        s.append(ds);
        proof {
            assert(s@ =~= dec_str(n as nat));
        }
        s
    } else {
        let mut s = usize_to_string(n / 10);
        s.append(ds);
        proof {
            assert(s@ =~= dec_str(n as nat));
        }
        s
    }
}

/// Join items with a separator.
pub open spec fn spec_join(items: Seq<Seq<char>>, sep: Seq<char>) -> Seq<char>
    decreases items.len(),
{
    if items.len() == 0 {
        Seq::empty()
    } else if items.len() == 1 {
        items[0]
    } else {
        spec_join(items.drop_last(), sep) + sep + items.last()
    }
}

/// The `MATCH` pattern binding left-hand-side edge `j`.
pub open spec fn edge_pattern(r: RuleModel, j: int) -> Seq<char> {
    "(n"@ + dec_str(r.lhs.edge(j).src as nat) + ")-[r"@ + dec_str(j as nat) + ":"@ + r.lhs.edge(
        j,
    ).label + "]->(n"@ + dec_str(r.lhs.edge(j).dst as nat) + ")"@
}

/// The `MATCH` pattern binding left-hand-side node `i`, constrained by
/// its `name` property.
pub open spec fn node_pattern(r: RuleModel, i: int) -> Seq<char> {
    "(n"@ + dec_str(i as nat) + " {name: \""@ + r.lhs.node_label(i).name + "\"})"@
}

/// Edge patterns of the `MATCH` clause: one per live left-hand-side edge,
/// in identifier order.
pub open spec fn match_edge_items(r: RuleModel, n: int) -> Seq<Seq<char>>
    decreases n,
{
    if n <= 0 {
        Seq::empty()
    } else {
        match_edge_items(r, n - 1) + (if r.lhs.edge_live(n - 1) {
            seq![edge_pattern(r, n - 1)]
        } else {
            Seq::empty()
        })
    }
}

/// Node patterns of the `MATCH` clause: one per live left-hand-side node,
/// in identifier order.
pub open spec fn match_node_items(r: RuleModel, n: int) -> Seq<Seq<char>>
    decreases n,
{
    if n <= 0 {
        Seq::empty()
    } else {
        match_node_items(r, n - 1) + (if r.lhs.node_live(n - 1) {
            seq![node_pattern(r, n - 1)]
        } else {
            Seq::empty()
        })
    }
}

/// All items of the `MATCH` clause: edge patterns first, node patterns
/// after them.
pub open spec fn spec_match_items(r: RuleModel) -> Seq<Seq<char>> {
    match_edge_items(r, r.lhs.edges.len() as int) + match_node_items(r, r.lhs.nodes.len() as int)
}

/// Interface node variables: `n<i>` for every live left-hand-side node in
/// the domain of `l2k`.
pub open spec fn with_node_items(r: RuleModel, n: int) -> Seq<Seq<char>>
    decreases n,
{
    if n <= 0 {
        Seq::empty()
    } else {
        with_node_items(r, n - 1) + (if r.lhs.node_live(n - 1) && r.l2k.node_at(n - 1) is Some {
            seq!["n"@ + dec_str((n - 1) as nat)]
        } else {
            Seq::empty()
        })
    }
}

/// Deleted edge variables: `r<j>` for every live left-hand-side edge
/// outside the domain of `l2k`.
pub open spec fn delete_items(r: RuleModel, n: int) -> Seq<Seq<char>>
    decreases n,
{
    if n <= 0 {
        Seq::empty()
    } else {
        delete_items(r, n - 1) + (if deleted_edge(r, n - 1) {
            seq!["r"@ + dec_str((n - 1) as nat)]
        } else {
            Seq::empty()
        })
    }
}

/// Items of the `DELETE` clause.
pub open spec fn spec_delete_items(r: RuleModel) -> Seq<Seq<char>> {
    delete_items(r, r.lhs.edges.len() as int)
}

/// Items of the `WITH` clause: the interface node variables followed by
/// every deleted edge variable, so that the `DELETE` clause may name
/// them.
pub open spec fn spec_with_items(r: RuleModel) -> Seq<Seq<char>> {
    with_node_items(r, r.lhs.nodes.len() as int) + spec_delete_items(r)
}

/// The `MERGE` line for added right-hand-side node `i`.
pub open spec fn merge_line(r: RuleModel, i: int) -> Seq<char> {
    "MERGE (m"@ + dec_str(i as nat) + " {name: \""@ + r.rhs.node_label(i).name + "\"})\n"@
}

/// One `MERGE` line per added right-hand-side node, in identifier order.
pub open spec fn merge_items(r: RuleModel, n: int) -> Seq<Seq<char>>
    decreases n,
{
    if n <= 0 {
        Seq::empty()
    } else {
        merge_items(r, n - 1) + (if new_rhs_node(r, n - 1) {
            seq![merge_line(r, n - 1)]
        } else {
            Seq::empty()
        })
    }
}

/// All `MERGE` lines.
pub open spec fn spec_merge_items(r: RuleModel) -> Seq<Seq<char>> {
    merge_items(r, r.rhs.nodes.len() as int)
}

/// The variable standing for right-hand-side node `rv` in the `CREATE`
/// clause: the interface variable traced back through `k2r` and `l2k`
/// when `rv` is an interface image, else the `MERGE` variable of the
/// added node.
pub open spec fn endpoint_var(r: RuleModel, rv: int) -> Seq<char> {
    if k2r_hits_node(r, rv) {
        let k = choose|k: int| #[trigger] r.k2r.node_at(k) == Some(rv);
        let v = choose|v: int| #[trigger] r.l2k.node_at(v) == Some(k);
        "n"@ + dec_str(v as nat)
    } else {
        "m"@ + dec_str(rv as nat)
    }
}

/// The `CREATE` pattern for added right-hand-side edge `e`.
pub open spec fn create_pattern(r: RuleModel, e: int) -> Seq<char> {
    "("@ + endpoint_var(r, r.rhs.edge(e).src) + ")-[:"@ + r.rhs.edge(e).label + "]->("@
        + endpoint_var(r, r.rhs.edge(e).dst) + ")"@
}

/// One `CREATE` item per added right-hand-side edge, in identifier order.
pub open spec fn create_items(r: RuleModel, n: int) -> Seq<Seq<char>>
    decreases n,
{
    if n <= 0 {
        Seq::empty()
    } else {
        create_items(r, n - 1) + (if new_rhs_edge(r, n - 1) {
            seq![create_pattern(r, n - 1)]
        } else {
            Seq::empty()
        })
    }
}

/// All `CREATE` items.
pub open spec fn spec_create_items(r: RuleModel) -> Seq<Seq<char>> {
    create_items(r, r.rhs.edges.len() as int)
}

/// Concatenation of a list of lines.
pub open spec fn concat_items(items: Seq<Seq<char>>) -> Seq<char>
    decreases items.len(),
{
    if items.len() == 0 {
        Seq::empty()
    } else {
        concat_items(items.drop_last()) + items.last()
    }
}

/// The whole Cypher script: `MATCH`, `WITH`, `DELETE`, the `MERGE` lines,
/// and `CREATE`, in that order and nothing else.
pub open spec fn spec_cypher(r: RuleModel) -> Seq<char> {
    "MATCH "@ + spec_join(spec_match_items(r), ", "@) + "\n"@ + "WITH "@ + spec_join(
        spec_with_items(r),
        ", "@,
    ) + "\n"@ + "DELETE "@ + spec_join(spec_delete_items(r), ", "@) + "\n"@ + concat_items(
        spec_merge_items(r),
    ) + "CREATE "@ + spec_join(spec_create_items(r), ", "@) + "\n"@
}

/// Every variable named by the `DELETE` clause is carried forward by the
/// `WITH` clause.
pub proof fn lemma_with_covers_delete(r: RuleModel)
    ensures
        forall|x: Seq<char>|
            spec_delete_items(r).contains(x) ==> #[trigger] spec_with_items(r).contains(x),
{
    assert forall|x: Seq<char>| spec_delete_items(r).contains(x) implies #[trigger] spec_with_items(
        r,
    ).contains(x) by {
        let i = choose|i: int|
            0 <= i < spec_delete_items(r).len() && spec_delete_items(r)[i] == x;
        let shifted = i + with_node_items(r, r.lhs.nodes.len() as int).len();
        assert(spec_with_items(r)[shifted] == x);
    }
}


/// An interface node variable appears among the first `n` `WITH` node
/// items.
proof fn lemma_with_node_items_contains(r: RuleModel, i: int, n: int)
    requires
        0 <= i < n,
        r.lhs.node_live(i),
        r.l2k.node_at(i) is Some,
    ensures
        with_node_items(r, n).contains("n"@ + dec_str(i as nat)),
    decreases n,
{
    if i == n - 1 {
        assert(with_node_items(r, n)[with_node_items(r, n - 1).len() as int] == "n"@ + dec_str(
            i as nat,
        ));
    } else {
        lemma_with_node_items_contains(r, i, n - 1);
        let pre = with_node_items(r, n - 1);
        let t = choose|t: int| 0 <= t < pre.len() && pre[t] == "n"@ + dec_str(i as nat);
        assert(with_node_items(r, n)[t] == "n"@ + dec_str(i as nat));
    }
}

/// The `MERGE` line of an added node appears among the first `n` `MERGE`
/// items.
proof fn lemma_merge_items_contains(r: RuleModel, i: int, n: int)
    requires
        0 <= i < n,
        new_rhs_node(r, i),
    ensures
        merge_items(r, n).contains(merge_line(r, i)),
    decreases n,
{
    if i == n - 1 {
        assert(merge_items(r, n)[merge_items(r, n - 1).len() as int] == merge_line(r, i));
    } else {
        lemma_merge_items_contains(r, i, n - 1);
        let pre = merge_items(r, n - 1);
        let t = choose|t: int| 0 <= t < pre.len() && pre[t] == merge_line(r, i);
        assert(merge_items(r, n)[t] == merge_line(r, i));
    }
}

/// The `CREATE` variable of rhs node `rv` is accounted for: an interface
/// endpoint's variable is carried by the `WITH` clause, and any other
/// endpoint is the variable of its own `MERGE` line.
pub open spec fn endpoint_covered(r: RuleModel, rv: int) -> bool {
    if k2r_hits_node(r, rv) {
        spec_with_items(r).contains(endpoint_var(r, rv))
    } else {
        spec_merge_items(r).contains(merge_line(r, rv)) && endpoint_var(r, rv) == "m"@ + dec_str(
            rv as nat,
        )
    }
}

/// Every variable that the `CREATE` clause wires an added edge to is
/// either carried forward by the `WITH` clause or introduced by one of
/// the `MERGE` lines.
pub proof fn lemma_with_or_merge_covers_create(r: RuleModel)
    requires
        r.wf(),
        r.valid(),
        l2k_covers_k2r(r),
    ensures
        forall|e: int| #[trigger]
            new_rhs_edge(r, e) ==> endpoint_covered(r, r.rhs.edge(e).src) && endpoint_covered(
                r,
                r.rhs.edge(e).dst,
            ),
{
    assert forall|e: int| #[trigger] new_rhs_edge(r, e) implies endpoint_covered(
        r,
        r.rhs.edge(e).src,
    ) && endpoint_covered(r, r.rhs.edge(e).dst) by {
        assert(r.rhs.edge_live(e));
        lemma_endpoint_covered(r, r.rhs.edge(e).src);
        lemma_endpoint_covered(r, r.rhs.edge(e).dst);
    }
}

/// One endpoint of an added edge is accounted for.
proof fn lemma_endpoint_covered(r: RuleModel, rv: int)
    requires
        r.wf(),
        r.valid(),
        l2k_covers_k2r(r),
        r.rhs.node_live(rv),
    ensures
        endpoint_covered(r, rv),
{
    if k2r_hits_node(r, rv) {
        let k = choose|k: int| #[trigger] r.k2r.node_at(k) == Some(rv);
        assert(r.k2r.node_at(k) is Some);
        let v = choose|v: int| #[trigger] r.l2k.node_at(v) == Some(k);
        assert(r.l2k.node_at(v) is Some);
        assert(r.lhs.node_live(v));
        lemma_with_node_items_contains(r, v, r.lhs.nodes.len() as int);
        let pre = with_node_items(r, r.lhs.nodes.len() as int);
        let t = choose|t: int| 0 <= t < pre.len() && pre[t] == "n"@ + dec_str(v as nat);
        assert(spec_with_items(r)[t] == "n"@ + dec_str(v as nat));
        assert(endpoint_var(r, rv) == "n"@ + dec_str(v as nat));
    } else {
        assert(new_rhs_node(r, rv));
        lemma_merge_items_contains(r, rv, r.rhs.nodes.len() as int);
    }
}

/// Exec join of rendered items.
fn join_items(items: &Vec<String>, sep: &str) -> (s: String)
    ensures
        s@ == spec_join(items@.map_values(|x: String| x@), sep@),
{
    let ghost model = items@.map_values(|x: String| x@);
    let mut s = String::new();
    let mut i: usize = 0;
    while i < items.len()
        invariant
            i <= items@.len(),
            model == items@.map_values(|x: String| x@),
            s@ == spec_join(model.take(i as int), sep@),
        decreases items@.len() - i,
    {
        if i > 0 {
            s.append(sep);
        }
        s.append(items[i].as_str());
        proof {
            assert(model.take(i as int + 1).drop_last() =~= model.take(i as int));
            assert(model.take(i as int + 1).last() == model[i as int]);
            if i == 0 {
                assert(s@ =~= spec_join(model.take(i as int + 1), sep@));
            } else {
                assert(s@ =~= spec_join(model.take(i as int + 1), sep@));
            }
        }
        i = i + 1;
    }
    proof {
        assert(model.take(model.len() as int) =~= model);
    }
    s
}

impl Rule {
    /// Render the rule as a Cypher script. The rule must be well-formed
    /// and linear, with every interface node that `k2r` maps reachable
    /// from `L`; the result is exactly the script that `spec_cypher`
    /// describes.
    pub fn to_cypher(&self) -> (s: String)
        requires
            self@.wf(),
            self@.valid(),
            self@.l2k.injective_nodes(),
            self@.k2r.injective_nodes(),
            l2k_covers_k2r(self@),
        ensures
            s@ == spec_cypher(self@),
    {
        let mut out = String::new();
        out.append("MATCH ");
        let mi = self.collect_match_items();
        let joined = join_items(&mi, ", ");
        out.append(joined.as_str());
        out.append("\n");
        out.append("WITH ");
        let wi = self.collect_with_items();
        let joined_w = join_items(&wi, ", ");
        out.append(joined_w.as_str());
        out.append("\n");
        out.append("DELETE ");
        let di = self.collect_delete_items();
        let joined_d = join_items(&di, ", ");
        out.append(joined_d.as_str());
        out.append("\n");
        let merged = self.collect_merge_text();
        out.append(merged.as_str());
        out.append("CREATE ");
        let ci = self.collect_create_items();
        let joined_c = join_items(&ci, ", ");
        out.append(joined_c.as_str());
        out.append("\n");
        proof {
            assert(out@ =~= spec_cypher(self@));
        }
        out
    }

    /// Items of the `MATCH` clause: every live lhs edge, then every live
    /// lhs node.
    fn collect_match_items(&self) -> (items: Vec<String>)
        requires
            self@.wf(),
        ensures
            items@.map_values(|x: String| x@) == spec_match_items(self@),
    {
        let mut items: Vec<String> = Vec::new();
        let ebound = self.lhs.edge_bound();
        let mut j: usize = 0;
        while j < ebound
            invariant
                ebound as int == self@.lhs.edges.len(),
                j <= ebound,
                self@.wf(),
                items@.map_values(|x: String| x@) == match_edge_items(self@, j as int),
            decreases ebound as int - j,
        {
            let ghost prev = items@.map_values(|x: String| x@);
            if self.lhs.is_edge(j) {
                let (es, ed) = self.lhs.edge_endpoints(j);
                let mut item = String::new();
                item.append("(n");
                let t0 = usize_to_string(es);
                item.append(t0.as_str());
                item.append(")-[r");
                let t1 = usize_to_string(j);
                item.append(t1.as_str());
                item.append(":");
                item.append(self.lhs.edge_label(j).as_str());
                item.append("]->(n");
                let t2 = usize_to_string(ed);
                item.append(t2.as_str());
                item.append(")");
                proof {
                    assert(item@ =~= edge_pattern(self@, j as int));
                }
                items.push(item);
                proof {
                    assert(items@.map_values(|x: String| x@) =~= prev.push(
                        edge_pattern(self@, j as int),
                    ));
                    assert(match_edge_items(self@, j as int + 1) =~= prev.push(
                        edge_pattern(self@, j as int),
                    ));
                }
            } else {
                proof {
                    assert(match_edge_items(self@, j as int + 1) =~= prev);
                }
            }
            j = j + 1;
        }
        let nbound = self.lhs.node_bound();
        let mut i: usize = 0;
        while i < nbound
            invariant
                nbound as int == self@.lhs.nodes.len(),
                i <= nbound,
                self@.wf(),
                items@.map_values(|x: String| x@) == match_edge_items(
                    self@,
                    self@.lhs.edges.len() as int,
                ) + match_node_items(self@, i as int),
            decreases nbound as int - i,
        {
            let ghost prev = items@.map_values(|x: String| x@);
            if self.lhs.is_node(i) {
                let mut item = String::new();
                item.append("(n");
                let t0 = usize_to_string(i);
                item.append(t0.as_str());
                item.append(" {name: \"");
                item.append(self.lhs.node_label(i).name.as_str());
                item.append("\"})");
                proof {
                    assert(item@ =~= node_pattern(self@, i as int));
                }
                items.push(item);
                proof {
                    assert(items@.map_values(|x: String| x@) =~= prev.push(
                        node_pattern(self@, i as int),
                    ));
                    assert(match_edge_items(self@, self@.lhs.edges.len() as int)
                        + match_node_items(self@, i as int + 1) =~= prev.push(
                        node_pattern(self@, i as int),
                    ));
                }
            } else {
                proof {
                    assert(match_edge_items(self@, self@.lhs.edges.len() as int)
                        + match_node_items(self@, i as int + 1) =~= prev);
                }
            }
            i = i + 1;
        }
        items
    }

    /// Items of the `WITH` clause.
    fn collect_with_items(&self) -> (items: Vec<String>)
        requires
            self@.wf(),
        ensures
            items@.map_values(|x: String| x@) == spec_with_items(self@),
    {
        let mut items: Vec<String> = Vec::new();
        let nbound = self.lhs.node_bound();
        let mut i: usize = 0;
        while i < nbound
            invariant
                nbound as int == self@.lhs.nodes.len(),
                i <= nbound,
                items@.map_values(|x: String| x@) == with_node_items(self@, i as int),
            decreases nbound as int - i,
        {
            let ghost prev = items@.map_values(|x: String| x@);
            if self.lhs.is_node(i) && self.l2k.map_node(i).is_some() {
                let mut item = String::new();
                item.append("n");
                let t0 = usize_to_string(i);
                item.append(t0.as_str());
                proof {
                    assert(item@ =~= "n"@ + dec_str(i as nat));
                }
                items.push(item);
                proof {
                    assert(items@.map_values(|x: String| x@) =~= prev.push(
                        "n"@ + dec_str(i as nat),
                    ));
                    assert(with_node_items(self@, i as int + 1) =~= prev.push(
                        "n"@ + dec_str(i as nat),
                    ));
                }
            } else {
                proof {
                    assert(with_node_items(self@, i as int + 1) =~= prev);
                }
            }
            i = i + 1;
        }
        let mut dels = self.collect_delete_items();
        let mut k: usize = 0;
        let ghost nodes_done = items@.map_values(|x: String| x@);
        let ghost del_model = dels@.map_values(|x: String| x@);
        while k < dels.len()
            invariant
                k <= dels@.len(),
                dels@.map_values(|x: String| x@) == del_model,
                items@.map_values(|x: String| x@) == nodes_done + del_model.take(k as int),
            decreases dels@.len() - k,
        {
            let ghost prev = items@.map_values(|x: String| x@);
            let item = dels[k].clone();
            items.push(item);
            proof {
                assert(items@.map_values(|x: String| x@) =~= prev.push(del_model[k as int]));
                assert(nodes_done + del_model.take(k as int + 1) =~= prev.push(
                    del_model[k as int],
                ));
            }
            k = k + 1;
        }
        proof {
            assert(del_model.take(del_model.len() as int) =~= del_model);
            assert(items@.map_values(|x: String| x@) =~= spec_with_items(self@));
        }
        items
    }

    /// Items of the `DELETE` clause: the variables of the deleted edges.
    fn collect_delete_items(&self) -> (items: Vec<String>)
        ensures
            items@.map_values(|x: String| x@) == spec_delete_items(self@),
    {
        let mut items: Vec<String> = Vec::new();
        let ebound = self.lhs.edge_bound();
        let mut j: usize = 0;
        while j < ebound
            invariant
                ebound as int == self@.lhs.edges.len(),
                j <= ebound,
                items@.map_values(|x: String| x@) == delete_items(self@, j as int),
            decreases ebound as int - j,
        {
            let ghost prev = items@.map_values(|x: String| x@);
            if self.lhs.is_edge(j) && self.l2k.map_edge(j).is_none() {
                let mut item = String::new();
                item.append("r");
                let t0 = usize_to_string(j);
                item.append(t0.as_str());
                proof {
                    assert(item@ =~= "r"@ + dec_str(j as nat));
                }
                items.push(item);
                proof {
                    assert(deleted_edge(self@, j as int));
                    assert(items@.map_values(|x: String| x@) =~= prev.push(
                        "r"@ + dec_str(j as nat),
                    ));
                    assert(delete_items(self@, j as int + 1) =~= prev.push(
                        "r"@ + dec_str(j as nat),
                    ));
                }
            } else {
                proof {
                    assert(delete_items(self@, j as int + 1) =~= prev);
                }
            }
            j = j + 1;
        }
        items
    }

    /// The `MERGE` lines, concatenated.
    fn collect_merge_text(&self) -> (s: String)
        requires
            self@.wf(),
        ensures
            s@ == concat_items(spec_merge_items(self@)),
    {
        let mut s = String::new();
        let nbound = self.rhs.node_bound();
        let mut i: usize = 0;
        while i < nbound
            invariant
                nbound as int == self@.rhs.nodes.len(),
                i <= nbound,
                self@.wf(),
                s@ == concat_items(merge_items(self@, i as int)),
            decreases nbound as int - i,
        {
            let ghost prev = s@;
            if self.rhs.is_node(i) && !crate::dpo::k2r_hits_node_exec(self, i) {
                s.append("MERGE (m");
                let t0 = usize_to_string(i);
                s.append(t0.as_str());
                s.append(" {name: \"");
                s.append(self.rhs.node_label(i).name.as_str());
                s.append("\"})\n");
                proof {
                    assert(new_rhs_node(self@, i as int));
                    assert(merge_items(self@, i as int + 1) =~= merge_items(
                        self@,
                        i as int,
                    ).push(merge_line(self@, i as int)));
                    assert(merge_items(self@, i as int + 1).drop_last() =~= merge_items(
                        self@,
                        i as int,
                    ));
                    assert(s@ =~= concat_items(merge_items(self@, i as int + 1)));
                }
            } else {
                proof {
                    assert(merge_items(self@, i as int + 1) =~= merge_items(self@, i as int));
                }
            }
            i = i + 1;
        }
        s
    }

    /// Items of the `CREATE` clause: the patterns of the added edges.
    fn collect_create_items(&self) -> (items: Vec<String>)
        requires
            self@.wf(),
            self@.valid(),
            self@.l2k.injective_nodes(),
            self@.k2r.injective_nodes(),
            l2k_covers_k2r(self@),
        ensures
            items@.map_values(|x: String| x@) == spec_create_items(self@),
    {
        let mut items: Vec<String> = Vec::new();
        let ebound = self.rhs.edge_bound();
        let mut j: usize = 0;
        while j < ebound
            invariant
                ebound as int == self@.rhs.edges.len(),
                j <= ebound,
                self@.wf(),
                self@.valid(),
                self@.l2k.injective_nodes(),
                self@.k2r.injective_nodes(),
                l2k_covers_k2r(self@),
                items@.map_values(|x: String| x@) == create_items(self@, j as int),
            decreases ebound as int - j,
        {
            let ghost prev = items@.map_values(|x: String| x@);
            if self.rhs.is_edge(j) && !crate::dpo::k2r_hits_edge_exec(self, j) {
                let (ru, rw) = self.rhs.edge_endpoints(j);
                let uvar = self.render_endpoint_var(ru);
                let wvar = self.render_endpoint_var(rw);
                let mut item = String::new();
                item.append("(");
                item.append(uvar.as_str());
                item.append(")-[:");
                item.append(self.rhs.edge_label(j).as_str());
                item.append("]->(");
                item.append(wvar.as_str());
                item.append(")");
                proof {
                    assert(item@ =~= create_pattern(self@, j as int));
                }
                items.push(item);
                proof {
                    assert(new_rhs_edge(self@, j as int));
                    assert(items@.map_values(|x: String| x@) =~= prev.push(
                        create_pattern(self@, j as int),
                    ));
                    assert(create_items(self@, j as int + 1) =~= prev.push(
                        create_pattern(self@, j as int),
                    ));
                }
            } else {
                proof {
                    assert(create_items(self@, j as int + 1) =~= prev);
                }
            }
            j = j + 1;
        }
        items
    }

    /// Render the `CREATE` variable for right-hand-side node `rv`.
    fn render_endpoint_var(&self, rv: usize) -> (s: String)
        requires
            self@.wf(),
            self@.valid(),
            self@.l2k.injective_nodes(),
            self@.k2r.injective_nodes(),
            l2k_covers_k2r(self@),
        ensures
            s@ == endpoint_var(self@, rv as int),
    {
        match crate::dpo::k2r_preimage_node(self, rv) {
            Some(k) => {
                proof {
                    assert(self@.k2r.node_at(k as int) is Some);
                    let k0 = choose|k0: int| #[trigger] self@.k2r.node_at(k0) == Some(rv as int);
                    assert(self@.k2r.node_at(k0) == self@.k2r.node_at(k as int));
                    assert(k0 == k as int);
                }
                match crate::dpo::l2k_preimage_node(self, k) {
                    Some(v) => {
                        let mut s = String::new();
                        s.append("n");
                        let t0 = usize_to_string(v);
                        s.append(t0.as_str());
                        proof {
                            let v0 = choose|v0: int| #[trigger] self@.l2k.node_at(v0) == Some(
                                k as int,
                            );
                            assert(self@.l2k.node_at(v0) == self@.l2k.node_at(v as int));
                            assert(v0 == v as int);
                            assert(s@ =~= endpoint_var(self@, rv as int));
                        }
                        s
                    },
                    None => {
                        proof {
                            let v0 = choose|v0: int| #[trigger] self@.l2k.node_at(v0) == Some(
                                k as int,
                            );
                            assert(self@.l2k.node_at(v0) != Some(k as int));
                            assert(false);
                        }
                        unreached()
                    },
                }
            },
            None => {
                let mut s = String::new();
                s.append("m");
                let t0 = usize_to_string(rv);
                s.append(t0.as_str());
                proof {
                    assert(s@ =~= endpoint_var(self@, rv as int));
                }
                s
            },
        }
    }
}

} // verus!
