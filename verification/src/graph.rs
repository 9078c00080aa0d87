//! Labeled directed multigraph with stable node and edge identifiers.
//!
//! Nodes and edges live in two arrays; an identifier is the index of its
//! slot. Removal leaves a tombstone (`None`), so identifiers are never
//! reused within a graph's lifetime and iteration in index order is
//! deterministic for a given insertion history.
use vstd::prelude::*;

verus! {

/// The label payload of a node: three string properties.
#[derive(Debug)]
pub struct NodeData {
    pub name: String,
    pub text: String,
    pub id: String,
}

/// Mathematical model of a node label: the three properties as character
/// sequences.
pub ghost struct NodeDataModel {
    pub name: Seq<char>,
    pub text: Seq<char>,
    pub id: Seq<char>,
}

impl View for NodeData {
    type V = NodeDataModel;

    open spec fn view(&self) -> NodeDataModel {
        NodeDataModel { name: self.name@, text: self.text@, id: self.id@ }
    }
}

impl NodeData {
    /// Build a label whose three properties are given explicitly.
    pub fn new(name: String, text: String, id: String) -> (d: NodeData)
        ensures
            d@.name == name@ && d@.text == text@ && d@.id == id@,
    {
        NodeData { name, text, id }
    }
}

impl Clone for NodeData {
    fn clone(&self) -> (res: Self)
        ensures
            res@ == self@,
    {
        NodeData { name: self.name.clone(), text: self.text.clone(), id: self.id.clone() }
    }
}

impl PartialEq for NodeData {
    fn eq(&self, other: &Self) -> (r: bool) {
        self.name == other.name && self.text == other.text && self.id == other.id
    }
}

impl vstd::std_specs::cmp::PartialEqSpecImpl for NodeData {
    open spec fn obeys_eq_spec() -> bool {
        true
    }

    open spec fn eq_spec(&self, other: &Self) -> bool {
        self@ == other@
    }
}

/// A directed edge: its two endpoint node identifiers and its label.
#[derive(Debug)]
pub struct Edge {
    pub src: usize,
    pub dst: usize,
    pub label: String,
}

/// Mathematical model of an edge.
pub ghost struct EdgeModel {
    pub src: int,
    pub dst: int,
    pub label: Seq<char>,
}

impl View for Edge {
    type V = EdgeModel;

    open spec fn view(&self) -> EdgeModel {
        EdgeModel { src: self.src as int, dst: self.dst as int, label: self.label@ }
    }
}

impl Clone for Edge {
    fn clone(&self) -> (res: Self)
        ensures
            res@ == self@,
    {
        Edge { src: self.src, dst: self.dst, label: self.label.clone() }
    }
}

/// Number of `Some` entries of a sequence of optional values.
pub open spec fn count_some<T>(s: Seq<Option<T>>) -> nat
    decreases s.len(),
{
    if s.len() == 0 {
        0
    } else {
        count_some(s.drop_last()) + (if s.last() is Some {
            1nat
        } else {
            0nat
        })
    }
}

pub proof fn lemma_count_some_take_step<T>(s: Seq<Option<T>>, i: int)
    requires
        0 <= i < s.len(),
    ensures
        count_some(s.take(i + 1)) == count_some(s.take(i)) + (if s[i] is Some {
            1nat
        } else {
            0nat
        }),
{
    assert(s.take(i + 1).drop_last() =~= s.take(i));
    assert(s.take(i + 1).last() == s[i]);
}

pub proof fn lemma_count_some_all<T>(s: Seq<Option<T>>)
    ensures
        count_some(s.take(s.len() as int)) == count_some(s),
{
    assert(s.take(s.len() as int) =~= s);
}

/// Appending a slot grows the count by one exactly when the slot is `Some`.
pub proof fn lemma_count_some_push<T>(s: Seq<Option<T>>, v: Option<T>)
    ensures
        count_some(s.push(v)) == count_some(s) + (if v is Some {
            1nat
        } else {
            0nat
        }),
{
    assert(s.push(v).drop_last() =~= s);
}

/// Mathematical model of a graph: one optional label per node slot and one
/// optional edge per edge slot; `None` marks a removed identifier.
pub ghost struct GraphModel {
    pub nodes: Seq<Option<NodeDataModel>>,
    pub edges: Seq<Option<EdgeModel>>,
}

impl GraphModel {
    /// Node identifier `v` is live: in range and not removed.
    pub open spec fn node_live(self, v: int) -> bool {
        0 <= v < self.nodes.len() && self.nodes[v] is Some
    }

    /// Label of a live node.
    pub open spec fn node_label(self, v: int) -> NodeDataModel {
        self.nodes[v]->0
    }

    /// Edge identifier `e` is live: in range and not removed.
    pub open spec fn edge_live(self, e: int) -> bool {
        0 <= e < self.edges.len() && self.edges[e] is Some
    }

    /// The edge stored under a live identifier.
    pub open spec fn edge(self, e: int) -> EdgeModel {
        self.edges[e]->0
    }

    /// Every live edge has live endpoints.
    pub open spec fn wf(self) -> bool {
        forall|e: int| #[trigger]
            self.edge_live(e) ==> self.node_live(self.edge(e).src) && self.node_live(
                self.edge(e).dst,
            )
    }

    /// Number of live nodes.
    pub open spec fn node_count(self) -> nat {
        count_some(self.nodes)
    }

    /// Number of live edges.
    pub open spec fn edge_count(self) -> nat {
        count_some(self.edges)
    }

    /// Total size `|V| + |E|`, the measure that shrinking rules decrease.
    pub open spec fn size(self) -> nat {
        self.node_count() + self.edge_count()
    }

    /// Edge `e` is live and runs from `u` to `v`.
    pub open spec fn edge_between(self, e: int, u: int, v: int) -> bool {
        self.edge_live(e) && self.edge(e).src == u && self.edge(e).dst == v
    }

    /// Some live edge runs from `u` to `v`.
    pub open spec fn has_edge(self, u: int, v: int) -> bool {
        exists|e: int| self.edge_between(e, u, v)
    }

    /// Some live edge runs from `u` to `v` and carries label `l`.
    pub open spec fn has_labeled_edge(self, u: int, v: int, l: Seq<char>) -> bool {
        exists|e: int| self.edge_between(e, u, v) && self.edge(e).label == l
    }
}

/// Direction of edge traversal from a node.
#[derive(Clone, Copy, PartialEq, Eq, Structural, Debug)]
pub enum Direction {
    /// Follow edges leaving the node.
    Outgoing,
    /// Follow edges entering the node.
    Incoming,
}

/// The neighbors of `v` among the first `n` edge slots: the opposite
/// endpoint of every live edge leaving (or entering) `v`, in edge
/// identifier order.
pub open spec fn neighbors_upto(g: GraphModel, v: int, out: bool, n: int) -> Seq<int>
    decreases n,
{
    if n <= 0 {
        Seq::empty()
    } else {
        neighbors_upto(g, v, out, n - 1) + (if g.edge_live(n - 1) && (if out {
            g.edge(n - 1).src == v
        } else {
            g.edge(n - 1).dst == v
        }) {
            seq![
                if out {
                    g.edge(n - 1).dst
                } else {
                    g.edge(n - 1).src
                },
            ]
        } else {
            Seq::empty()
        })
    }
}

/// A labeled directed multigraph. Identifiers are slot indices; removed
/// slots stay as `None` so identifiers are stable and never reused.
#[derive(Debug)]
pub struct Graph {
    pub nodes: Vec<Option<NodeData>>,
    pub edges: Vec<Option<Edge>>,
}

impl View for Graph {
    type V = GraphModel;

    open spec fn view(&self) -> GraphModel {
        GraphModel {
            nodes: Seq::new(
                self.nodes@.len(),
                |i: int|
                    match self.nodes@[i] {
                        Some(d) => Some(d@),
                        None => None,
                    },
            ),
            edges: Seq::new(
                self.edges@.len(),
                |i: int|
                    match self.edges@[i] {
                        Some(e) => Some(e@),
                        None => None,
                    },
            ),
        }
    }
}

impl Clone for Graph {
    fn clone(&self) -> (res: Self)
        ensures
            res@ == self@,
    {
        let mut nodes: Vec<Option<NodeData>> = Vec::new();
        let mut edges: Vec<Option<Edge>> = Vec::new();
        let mut i: usize = 0;
        while i < self.nodes.len()
            invariant
                i <= self.nodes@.len(),
                nodes@.len() == i as int,
                forall|j: int|
                    0 <= j < i as int ==> #[trigger] self@.nodes[j] == match nodes@[j] {
                        Some(d) => Some(d@),
                        None => None::<NodeDataModel>,
                    },
            decreases self.nodes@.len() - i,
        {
            let entry: Option<NodeData> = match &self.nodes[i] {
                Some(d) => Some(d.clone()),
                None => None,
            };
            nodes.push(entry);
            i = i + 1;
        }
        let mut k: usize = 0;
        while k < self.edges.len()
            invariant
                k <= self.edges@.len(),
                edges@.len() == k as int,
                forall|j: int|
                    0 <= j < k as int ==> #[trigger] self@.edges[j] == match edges@[j] {
                        Some(e) => Some(e@),
                        None => None::<EdgeModel>,
                    },
            decreases self.edges@.len() - k,
        {
            let entry: Option<Edge> = match &self.edges[k] {
                Some(e) => Some(e.clone()),
                None => None,
            };
            edges.push(entry);
            k = k + 1;
        }
        let res = Graph { nodes, edges };
        proof {
            assert(res@.nodes =~= self@.nodes);
            assert(res@.edges =~= self@.edges);
        }
        res
    }
}

impl Graph {
    /// The empty graph.
    pub fn new() -> (g: Graph)
        ensures
            g@.nodes == Seq::<Option<NodeDataModel>>::empty(),
            g@.edges == Seq::<Option<EdgeModel>>::empty(),
            g@.wf(),
    {
        let g = Graph { nodes: Vec::new(), edges: Vec::new() };
        proof {
            assert(g@.nodes =~= Seq::<Option<NodeDataModel>>::empty());
            assert(g@.edges =~= Seq::<Option<EdgeModel>>::empty());
        }
        g
    }

    /// Insert a node with the given label; its identifier is the next slot.
    pub fn add_node(&mut self, label: NodeData) -> (v: usize)
        ensures
            v as int == old(self)@.nodes.len(),
            final(self)@.nodes == old(self)@.nodes.push(Some(label@)),
            final(self)@.edges == old(self)@.edges,
            old(self)@.wf() ==> final(self)@.wf(),
            final(self)@.node_live(v as int),
    {
        let v = self.nodes.len();
        self.nodes.push(Some(label));
        proof {
            assert(self@.nodes =~= old(self)@.nodes.push(Some(label@)));
            assert(self@.edges =~= old(self)@.edges);
            if old(self)@.wf() {
                assert forall|e: int| #[trigger] self@.edge_live(e) implies self@.node_live(
                    self@.edge(e).src,
                ) && self@.node_live(self@.edge(e).dst) by {
                    assert(old(self)@.edge_live(e));
                }
            }
        }
        v
    }

    /// Insert a directed edge between two live nodes; its identifier is the
    /// next edge slot.
    pub fn add_edge(&mut self, src: usize, dst: usize, label: String) -> (e: usize)
        requires
            old(self)@.node_live(src as int),
            old(self)@.node_live(dst as int),
        ensures
            e as int == old(self)@.edges.len(),
            final(self)@.edges == old(self)@.edges.push(
                Some(EdgeModel { src: src as int, dst: dst as int, label: label@ }),
            ),
            final(self)@.nodes == old(self)@.nodes,
            old(self)@.wf() ==> final(self)@.wf(),
            final(self)@.edge_live(e as int),
    {
        let e = self.edges.len();
        self.edges.push(Some(Edge { src, dst, label }));
        proof {
            assert(self@.edges =~= old(self)@.edges.push(
                Some(EdgeModel { src: src as int, dst: dst as int, label: label@ }),
            ));
            assert(self@.nodes =~= old(self)@.nodes);
            if old(self)@.wf() {
                assert forall|k: int| #[trigger] self@.edge_live(k) implies self@.node_live(
                    self@.edge(k).src,
                ) && self@.node_live(self@.edge(k).dst) by {
                    if k < old(self)@.edges.len() {
                        assert(old(self)@.edge_live(k));
                    }
                }
            }
        }
        e
    }

    /// Remove a live edge; its slot becomes a tombstone.
    pub fn remove_edge(&mut self, e: usize)
        requires
            old(self)@.edge_live(e as int),
        ensures
            final(self)@.edges == old(self)@.edges.update(e as int, None),
            final(self)@.nodes == old(self)@.nodes,
            old(self)@.wf() ==> final(self)@.wf(),
    {
        self.edges[e] = None;
        proof {
            assert(self@.edges =~= old(self)@.edges.update(e as int, None));
            assert(self@.nodes =~= old(self)@.nodes);
            if old(self)@.wf() {
                assert forall|k: int| #[trigger] self@.edge_live(k) implies self@.node_live(
                    self@.edge(k).src,
                ) && self@.node_live(self@.edge(k).dst) by {
                    assert(old(self)@.edge_live(k));
                }
            }
        }
    }

    /// Remove a live node together with every edge incident to it.
    pub fn remove_node(&mut self, v: usize)
        requires
            old(self)@.node_live(v as int),
        ensures
            final(self)@.nodes == old(self)@.nodes.update(v as int, None),
            final(self)@.edges.len() == old(self)@.edges.len(),
            forall|k: int|
                0 <= k < old(self)@.edges.len() ==> #[trigger] final(self)@.edges[k] == (
                if old(self)@.edge_live(k) && (old(self)@.edge(k).src == v as int || old(
                    self,
                )@.edge(k).dst == v as int) {
                    None
                } else {
                    old(self)@.edges[k]
                }),
            old(self)@.wf() ==> final(self)@.wf(),
    {
        let mut k: usize = 0;
        while k < self.edges.len()
            invariant
                k <= self.edges@.len(),
                self@.nodes == old(self)@.nodes,
                self@.edges.len() == old(self)@.edges.len(),
                forall|j: int|
                    k as int <= j < old(self)@.edges.len() ==> #[trigger] self@.edges[j] == old(
                        self,
                    )@.edges[j],
                forall|j: int|
                    0 <= j < k as int ==> #[trigger] self@.edges[j] == (
                    if old(self)@.edge_live(j) && (old(self)@.edge(j).src == v as int || old(
                        self,
                    )@.edge(j).dst == v as int) {
                        None
                    } else {
                        old(self)@.edges[j]
                    }),
            decreases self.edges@.len() - k,
        {
            let ghost prev = self@;
            let remove: bool = match &self.edges[k] {
                Some(e) => e.src == v || e.dst == v,
                None => false,
            };
            if remove {
                proof {
                    assert(old(self)@.edges[k as int] == prev.edges[k as int]);
                    assert(old(self)@.edge_live(k as int));
                    assert(old(self)@.edge(k as int).src == v as int || old(self)@.edge(
                        k as int,
                    ).dst == v as int);
                }
                self.edges[k] = None;
                proof {
                    assert(self@.edges =~= prev.edges.update(k as int, None));
                    assert(self@.nodes =~= prev.nodes);
                }
            }
            k = k + 1;
        }
        let ghost before_node = self@;
        self.nodes[v] = None;
        proof {
            assert(self@.nodes =~= old(self)@.nodes.update(v as int, None));
            assert(self@.edges =~= before_node.edges);
            if old(self)@.wf() {
                assert forall|j: int| #[trigger] self@.edge_live(j) implies self@.node_live(
                    self@.edge(j).src,
                ) && self@.node_live(self@.edge(j).dst) by {
                    assert(old(self)@.edge_live(j));
                    assert(self@.edge(j) == old(self)@.edge(j));
                    assert(old(self)@.edge(j).src != v as int && old(self)@.edge(j).dst
                        != v as int);
                }
            }
        }
    }

    /// Number of node slots ever allocated; node identifiers range below it.
    pub fn node_bound(&self) -> (n: usize)
        ensures
            n as int == self@.nodes.len(),
    {
        self.nodes.len()
    }

    /// Number of edge slots ever allocated; edge identifiers range below it.
    pub fn edge_bound(&self) -> (n: usize)
        ensures
            n as int == self@.edges.len(),
    {
        self.edges.len()
    }

    /// Is `v` a live node identifier?
    pub fn is_node(&self, v: usize) -> (r: bool)
        ensures
            r == self@.node_live(v as int),
    {
        v < self.nodes.len() && self.nodes[v].is_some()
    }

    /// Is `e` a live edge identifier?
    pub fn is_edge(&self, e: usize) -> (r: bool)
        ensures
            r == self@.edge_live(e as int),
    {
        e < self.edges.len() && self.edges[e].is_some()
    }

    /// Label of a live node.
    pub fn node_label(&self, v: usize) -> (d: &NodeData)
        requires
            self@.node_live(v as int),
        ensures
            d@ == self@.node_label(v as int),
    {
        match &self.nodes[v] {
            Some(d) => d,
            None => unreached(),
        }
    }

    /// Endpoints `(src, dst)` of a live edge.
    pub fn edge_endpoints(&self, e: usize) -> (p: (usize, usize))
        requires
            self@.edge_live(e as int),
        ensures
            p.0 as int == self@.edge(e as int).src,
            p.1 as int == self@.edge(e as int).dst,
    {
        match &self.edges[e] {
            Some(edge) => (edge.src, edge.dst),
            None => unreached(),
        }
    }

    /// Label of a live edge.
    pub fn edge_label(&self, e: usize) -> (l: &String)
        requires
            self@.edge_live(e as int),
        ensures
            l@ == self@.edge(e as int).label,
    {
        match &self.edges[e] {
            Some(edge) => &edge.label,
            None => unreached(),
        }
    }

    /// Number of live nodes.
    pub fn node_count(&self) -> (n: usize)
        ensures
            n as nat == self@.node_count(),
    {
        let mut n: usize = 0;
        let mut i: usize = 0;
        while i < self.nodes.len()
            invariant
                i <= self.nodes@.len(),
                n <= i,
                n as nat == count_some(self@.nodes.take(i as int)),
            decreases self.nodes@.len() - i,
        {
            proof {
                lemma_count_some_take_step(self@.nodes, i as int);
            }
            if self.nodes[i].is_some() {
                n = n + 1;
            }
            i = i + 1;
        }
        proof {
            lemma_count_some_all(self@.nodes);
        }
        n
    }

    /// Number of live edges.
    pub fn edge_count(&self) -> (n: usize)
        ensures
            n as nat == self@.edge_count(),
    {
        let mut n: usize = 0;
        let mut i: usize = 0;
        while i < self.edges.len()
            invariant
                i <= self.edges@.len(),
                n <= i,
                n as nat == count_some(self@.edges.take(i as int)),
            decreases self.edges@.len() - i,
        {
            proof {
                lemma_count_some_take_step(self@.edges, i as int);
            }
            if self.edges[i].is_some() {
                n = n + 1;
            }
            i = i + 1;
        }
        proof {
            lemma_count_some_all(self@.edges);
        }
        n
    }

    /// Total size `|V| + |E|`: the number of live nodes plus the number
    /// of live edges, the measure that shrinking rewrite rules decrease.
    pub fn size_measure(&self) -> (s: u128)
        ensures
            s as nat == self@.size(),
    {
        let n = self.node_count();
        let e = self.edge_count();
        n as u128 + e as u128
    }

    /// The neighbors of `v` in the given direction: the opposite endpoint
    /// of every live edge leaving (or entering) `v`, in edge identifier
    /// order, one entry per edge.
    pub fn neighbors(&self, v: usize, dir: Direction) -> (ns: Vec<usize>)
        ensures
            ns@.map_values(|x: usize| x as int) == neighbors_upto(
                self@,
                v as int,
                dir == Direction::Outgoing,
                self@.edges.len() as int,
            ),
    {
        let out = match dir {
            Direction::Outgoing => true,
            Direction::Incoming => false,
        };
        let mut ns: Vec<usize> = Vec::new();
        let mut e: usize = 0;
        while e < self.edges.len()
            invariant
                e <= self.edges@.len(),
                ns@.map_values(|x: usize| x as int) == neighbors_upto(
                    self@,
                    v as int,
                    out,
                    e as int,
                ),
            decreases self.edges@.len() - e,
        {
            let ghost prev = ns@.map_values(|x: usize| x as int);
            match &self.edges[e] {
                Some(edge) => {
                    if out && edge.src == v {
                        ns.push(edge.dst);
                        proof {
                            assert(ns@.map_values(|x: usize| x as int) =~= prev.push(
                                self@.edge(e as int).dst,
                            ));
                            assert(neighbors_upto(self@, v as int, out, e as int + 1)
                                =~= prev.push(self@.edge(e as int).dst));
                        }
                    } else if !out && edge.dst == v {
                        ns.push(edge.src);
                        proof {
                            assert(ns@.map_values(|x: usize| x as int) =~= prev.push(
                                self@.edge(e as int).src,
                            ));
                            assert(neighbors_upto(self@, v as int, out, e as int + 1)
                                =~= prev.push(self@.edge(e as int).src));
                        }
                    } else {
                        proof {
                            assert(neighbors_upto(self@, v as int, out, e as int + 1) =~= prev);
                        }
                    }
                },
                None => {
                    proof {
                        assert(neighbors_upto(self@, v as int, out, e as int + 1) =~= prev);
                    }
                },
            }
            e = e + 1;
        }
        proof {
            if dir == Direction::Outgoing {
                assert(out);
            } else {
                assert(dir == Direction::Incoming);
                assert(!out);
            }
        }
        ns
    }

    /// First live edge from `src` to `dst` in identifier order, if any.
    pub fn find_edge(&self, src: usize, dst: usize) -> (r: Option<usize>)
        ensures
            match r {
                Some(e) => self@.edge_between(e as int, src as int, dst as int) && forall|j: int|
                    0 <= j < e as int ==> !self@.edge_between(j, src as int, dst as int),
                None => !self@.has_edge(src as int, dst as int),
            },
    {
        let mut i: usize = 0;
        while i < self.edges.len()
            invariant
                i <= self.edges@.len(),
                forall|j: int|
                    0 <= j < i as int ==> !self@.edge_between(j, src as int, dst as int),
            decreases self.edges@.len() - i,
        {
            let hit: bool = match &self.edges[i] {
                Some(e) => e.src == src && e.dst == dst,
                None => false,
            };
            if hit {
                return Some(i);
            }
            i = i + 1;
        }
        None
    }

    /// First live edge from `src` to `dst` carrying the given label, in
    /// identifier order, if any.
    pub fn find_edge_labeled(&self, src: usize, dst: usize, label: &String) -> (r: Option<usize>)
        ensures
            match r {
                Some(e) => self@.edge_between(e as int, src as int, dst as int) && self@.edge(
                    e as int,
                ).label == label@ && forall|j: int|
                    0 <= j < e as int ==> !(self@.edge_between(j, src as int, dst as int)
                        && self@.edge(j).label == label@),
                None => !self@.has_labeled_edge(src as int, dst as int, label@),
            },
    {
        let mut i: usize = 0;
        while i < self.edges.len()
            invariant
                i <= self.edges@.len(),
                forall|j: int|
                    0 <= j < i as int ==> !(self@.edge_between(j, src as int, dst as int)
                        && self@.edge(j).label == label@),
            decreases self.edges@.len() - i,
        {
            let hit: bool = match &self.edges[i] {
                Some(e) => e.src == src && e.dst == dst && e.label == *label,
                None => false,
            };
            if hit {
                return Some(i);
            }
            i = i + 1;
        }
        None
    }
}

} // verus!
