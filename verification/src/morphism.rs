//! Partial maps of node and edge identifiers from one graph into another.
//!
//! A morphism stores, for each source identifier, the optional identifier
//! of its image. The backing arrays are indexed by source identifier, so
//! iteration over a morphism is deterministic.
use vstd::prelude::*;

verus! {

/// Mathematical model of a morphism: two partial maps over identifiers,
/// each represented as an array of optional images indexed by source.
pub ghost struct MorphismModel {
    pub nodes: Seq<Option<int>>,
    pub edges: Seq<Option<int>>,
}

/// Model of an array of optional identifiers: the same array over `int`.
pub open spec fn opts_model(s: Seq<Option<usize>>) -> Seq<Option<int>> {
    Seq::new(
        s.len(),
        |i: int|
            match s[i] {
                Some(t) => Some(t as int),
                None => None,
            },
    )
}

/// Image of `s` under a partial map stored as an array of options.
pub open spec fn map_at(m: Seq<Option<int>>, s: int) -> Option<int> {
    if 0 <= s < m.len() && m[s] is Some {
        m[s]
    } else {
        None
    }
}

impl MorphismModel {
    /// Image of node identifier `s`, if mapped.
    pub open spec fn node_at(self, s: int) -> Option<int> {
        map_at(self.nodes, s)
    }

    /// Image of edge identifier `s`, if mapped.
    pub open spec fn edge_at(self, s: int) -> Option<int> {
        map_at(self.edges, s)
    }

    /// The node part is injective on its defined domain.
    pub open spec fn injective_nodes(self) -> bool {
        forall|s1: int, s2: int|
            #![trigger self.node_at(s1), self.node_at(s2)]
            self.node_at(s1) is Some && self.node_at(s2) is Some && s1 != s2 ==> self.node_at(s1)
                != self.node_at(s2)
    }

    /// Some node maps to `t`.
    pub open spec fn node_hits(self, t: int) -> bool {
        exists|s: int| #[trigger] self.node_at(s) == Some(t)
    }
}

/// A graph morphism: node identifiers and edge identifiers of a source
/// graph mapped to identifiers of a target graph.
#[derive(Debug)]
pub struct Morphism {
    pub node_map: Vec<Option<usize>>,
    pub edge_map: Vec<Option<usize>>,
}

impl View for Morphism {
    type V = MorphismModel;

    open spec fn view(&self) -> MorphismModel {
        MorphismModel { nodes: opts_model(self.node_map@), edges: opts_model(self.edge_map@) }
    }
}

/// Grow an option array until index `n` is in range, appending `None`.
fn pad_past(v: &mut Vec<Option<usize>>, n: usize)
    ensures
        final(v)@.len() == (if old(v)@.len() > n as int {
            old(v)@.len() as int
        } else {
            n as int + 1
        }),
        forall|i: int| 0 <= i < old(v)@.len() ==> #[trigger] final(v)@[i] == old(v)@[i],
        forall|i: int| old(v)@.len() <= i < final(v)@.len() ==> #[trigger] final(v)@[i] is None,
{
    while v.len() <= n
        invariant
            v@.len() >= old(v)@.len(),
            v@.len() <= n as int + 1 || v@.len() == old(v)@.len(),
            forall|i: int| 0 <= i < old(v)@.len() ==> #[trigger] v@[i] == old(v)@[i],
            forall|i: int| old(v)@.len() <= i < v@.len() ==> #[trigger] v@[i] is None,
        decreases n as int + 1 - v@.len(),
    {
        v.push(None);
    }
}

impl Clone for Morphism {
    fn clone(&self) -> (res: Self)
        ensures
            res@ == self@,
    {
        let mut node_map: Vec<Option<usize>> = Vec::new();
        let mut i: usize = 0;
        while i < self.node_map.len()
            invariant
                i <= self.node_map@.len(),
                node_map@.len() == i as int,
                forall|j: int| 0 <= j < i as int ==> #[trigger] node_map@[j] == self.node_map@[j],
            decreases self.node_map@.len() - i,
        {
            node_map.push(self.node_map[i]);
            i = i + 1;
        }
        let mut edge_map: Vec<Option<usize>> = Vec::new();
        let mut k: usize = 0;
        while k < self.edge_map.len()
            invariant
                k <= self.edge_map@.len(),
                edge_map@.len() == k as int,
                forall|j: int| 0 <= j < k as int ==> #[trigger] edge_map@[j] == self.edge_map@[j],
            decreases self.edge_map@.len() - k,
        {
            edge_map.push(self.edge_map[k]);
            k = k + 1;
        }
        let res = Morphism { node_map, edge_map };
        proof {
            assert(res@.nodes =~= self@.nodes);
            assert(res@.edges =~= self@.edges);
        }
        res
    }
}

impl Morphism {
    /// The empty morphism: no node and no edge is mapped.
    pub fn new() -> (m: Morphism)
        ensures
            m@.nodes == Seq::<Option<int>>::empty(),
            m@.edges == Seq::<Option<int>>::empty(),
            forall|s: int| #[trigger] m@.node_at(s) is None,
            forall|s: int| #[trigger] m@.edge_at(s) is None,
    {
        let m = Morphism { node_map: Vec::new(), edge_map: Vec::new() };
        proof {
            assert(m@.nodes =~= Seq::<Option<int>>::empty());
            assert(m@.edges =~= Seq::<Option<int>>::empty());
        }
        m
    }

    /// Map node `src` to node `dst`, overwriting any earlier image of `src`.
    pub fn insert_node(&mut self, src: usize, dst: usize)
        ensures
            final(self)@.node_at(src as int) == Some(dst as int),
            forall|s: int|
                s != src as int ==> #[trigger] final(self)@.node_at(s) == old(self)@.node_at(s),
            final(self)@.edges == old(self)@.edges,
            final(self)@.nodes.len() == (if old(self)@.nodes.len() > src as int {
                old(self)@.nodes.len() as int
            } else {
                src as int + 1
            }),
    {
        pad_past(&mut self.node_map, src);
        self.node_map[src] = Some(dst);
        proof {
            assert(final(self)@.node_at(src as int) == Some(dst as int));
            assert forall|s: int| s != src as int implies #[trigger] final(self)@.node_at(s)
                == old(self)@.node_at(s) by {
                if 0 <= s < old(self)@.nodes.len() {
                    assert(old(self).node_map@[s] == self.node_map@[s]);
                }
            }
            assert(final(self)@.edges =~= old(self)@.edges);
        }
    }

    /// Map edge `src` to edge `dst`, overwriting any earlier image of `src`.
    pub fn insert_edge(&mut self, src: usize, dst: usize)
        ensures
            final(self)@.edge_at(src as int) == Some(dst as int),
            forall|s: int|
                s != src as int ==> #[trigger] final(self)@.edge_at(s) == old(self)@.edge_at(s),
            final(self)@.nodes == old(self)@.nodes,
    {
        pad_past(&mut self.edge_map, src);
        self.edge_map[src] = Some(dst);
        proof {
            assert(final(self)@.edge_at(src as int) == Some(dst as int));
            assert forall|s: int| s != src as int implies #[trigger] final(self)@.edge_at(s)
                == old(self)@.edge_at(s) by {
                if 0 <= s < old(self)@.edges.len() {
                    assert(old(self).edge_map@[s] == self.edge_map@[s]);
                }
            }
            assert(final(self)@.nodes =~= old(self)@.nodes);
        }
    }

    /// Image of node `src`, if mapped.
    pub fn map_node(&self, src: usize) -> (r: Option<usize>)
        ensures
            match r {
                Some(t) => self@.node_at(src as int) == Some(t as int),
                None => self@.node_at(src as int) is None,
            },
    {
        if src < self.node_map.len() {
            self.node_map[src]
        } else {
            None
        }
    }

    /// Image of edge `src`, if mapped.
    pub fn map_edge(&self, src: usize) -> (r: Option<usize>)
        ensures
            match r {
                Some(t) => self@.edge_at(src as int) == Some(t as int),
                None => self@.edge_at(src as int) is None,
            },
    {
        if src < self.edge_map.len() {
            self.edge_map[src]
        } else {
            None
        }
    }

    /// Compose with another morphism: the result maps `s` through `other`
    /// and then through `self`, and is defined exactly where both are.
    pub fn compose(&self, other: &Morphism) -> (res: Morphism)
        ensures
            forall|s: int| #[trigger]
                res@.node_at(s) == match other@.node_at(s) {
                    Some(m) => self@.node_at(m),
                    None => None,
                },
            forall|s: int| #[trigger]
                res@.edge_at(s) == match other@.edge_at(s) {
                    Some(m) => self@.edge_at(m),
                    None => None,
                },
    {
        let mut node_map: Vec<Option<usize>> = Vec::new();
        let mut i: usize = 0;
        while i < other.node_map.len()
            invariant
                i <= other.node_map@.len(),
                node_map@.len() == i as int,
                forall|s: int|
                    0 <= s < i as int ==> #[trigger] map_at(opts_model(node_map@), s) == match other@.node_at(s) {
                        Some(m) => self@.node_at(m),
                        None => None,
                    },
            decreases other.node_map@.len() - i,
        {
            let ghost prev_map = node_map@;
            let step: Option<usize> = match other.node_map[i] {
                Some(m) => self.map_node(m),
                None => None,
            };
            node_map.push(step);
            proof {
                assert forall|s: int| 0 <= s < i as int + 1 implies #[trigger] map_at(
                    opts_model(node_map@),
                    s,
                ) == match other@.node_at(s) {
                    Some(m) => self@.node_at(m),
                    None => None,
                } by {
                    if s < i as int {
                        assert(node_map@[s] == prev_map[s]);
                        assert(map_at(opts_model(node_map@), s) == map_at(
                            opts_model(prev_map),
                            s,
                        ));
                    } else {
                        assert(node_map@[s] == step);
                    }
                }
            }
            i = i + 1;
        }
        let mut edge_map: Vec<Option<usize>> = Vec::new();
        let mut k: usize = 0;
        while k < other.edge_map.len()
            invariant
                k <= other.edge_map@.len(),
                edge_map@.len() == k as int,
                forall|s: int|
                    0 <= s < k as int ==> #[trigger] map_at(opts_model(edge_map@), s) == match other@.edge_at(s) {
                        Some(m) => self@.edge_at(m),
                        None => None,
                    },
            decreases other.edge_map@.len() - k,
        {
            let ghost prev_map = edge_map@;
            let step: Option<usize> = match other.edge_map[k] {
                Some(m) => self.map_edge(m),
                None => None,
            };
            edge_map.push(step);
            proof {
                assert forall|s: int| 0 <= s < k as int + 1 implies #[trigger] map_at(
                    opts_model(edge_map@),
                    s,
                ) == match other@.edge_at(s) {
                    Some(m) => self@.edge_at(m),
                    None => None,
                } by {
                    if s < k as int {
                        assert(edge_map@[s] == prev_map[s]);
                        assert(map_at(opts_model(edge_map@), s) == map_at(
                            opts_model(prev_map),
                            s,
                        ));
                    } else {
                        assert(edge_map@[s] == step);
                    }
                }
            }
            k = k + 1;
        }
        Morphism { node_map, edge_map }
    }

    /// Invert the morphism by swapping sources and targets. When the map is
    /// not injective, the largest source wins, since sources are visited in
    /// increasing order and later writes overwrite earlier ones.
    pub fn invert(&self) -> (res: Morphism)
        ensures
            forall|t: int| #[trigger]
                res@.node_at(t) matches Some(s) ==> self@.node_at(s) == Some(t),
            forall|t: int, s2: int|
                #![trigger res@.node_at(t), self@.node_at(s2)]
                res@.node_at(t) is Some && res@.node_at(t)->0 < s2 ==> self@.node_at(s2) != Some(
                    t,
                ),
            forall|t: int, s2: int|
                #![trigger res@.node_at(t), self@.node_at(s2)]
                res@.node_at(t) is None ==> self@.node_at(s2) != Some(t),
            forall|t: int| #[trigger]
                res@.edge_at(t) matches Some(s) ==> self@.edge_at(s) == Some(t),
            forall|t: int, s2: int|
                #![trigger res@.edge_at(t), self@.edge_at(s2)]
                res@.edge_at(t) is Some && res@.edge_at(t)->0 < s2 ==> self@.edge_at(s2) != Some(
                    t,
                ),
            forall|t: int, s2: int|
                #![trigger res@.edge_at(t), self@.edge_at(s2)]
                res@.edge_at(t) is None ==> self@.edge_at(s2) != Some(t),
    {
        let mut res = Morphism::new();
        let mut i: usize = 0;
        while i < self.node_map.len()
            invariant
                i <= self.node_map@.len(),
                forall|t: int| #[trigger]
                    res@.node_at(t) matches Some(s) ==> 0 <= s < i as int && self@.node_at(s)
                        == Some(t) && forall|s2: int|
                        s < s2 < i as int ==> #[trigger] self@.node_at(s2) != Some(t),
                forall|t: int| #[trigger]
                    res@.node_at(t) is None ==> forall|s: int|
                        0 <= s < i as int ==> #[trigger] self@.node_at(s) != Some(t),
                res@.edges.len() == 0,
            decreases self.node_map@.len() - i,
        {
            if let Some(t) = self.node_map[i] {
                res.insert_node(t, i);
            }
            i = i + 1;
        }
        proof {
            assert forall|t: int, s2: int|
                #![trigger res@.node_at(t), self@.node_at(s2)]
                res@.node_at(t) is Some && res@.node_at(t)->0 < s2 implies self@.node_at(s2)
                != Some(t) by {
                if s2 >= self@.nodes.len() || s2 < 0 {
                    assert(self@.node_at(s2) is None);
                }
            }
            assert forall|t: int, s2: int|
                #![trigger res@.node_at(t), self@.node_at(s2)]
                res@.node_at(t) is None implies self@.node_at(s2) != Some(t) by {
                if s2 >= self@.nodes.len() || s2 < 0 {
                    assert(self@.node_at(s2) is None);
                }
            }
        }
        let ghost nodes_done = res@;
        let mut k: usize = 0;
        while k < self.edge_map.len()
            invariant
                k <= self.edge_map@.len(),
                res@.nodes == nodes_done.nodes,
                forall|t: int| #[trigger]
                    res@.edge_at(t) matches Some(s) ==> 0 <= s < k as int && self@.edge_at(s)
                        == Some(t) && forall|s2: int|
                        s < s2 < k as int ==> #[trigger] self@.edge_at(s2) != Some(t),
                forall|t: int| #[trigger]
                    res@.edge_at(t) is None ==> forall|s: int|
                        0 <= s < k as int ==> #[trigger] self@.edge_at(s) != Some(t),
            decreases self.edge_map@.len() - k,
        {
            if let Some(t) = self.edge_map[k] {
                res.insert_edge(t, k);
            }
            k = k + 1;
        }
        proof {
            assert forall|t: int, s2: int|
                #![trigger res@.edge_at(t), self@.edge_at(s2)]
                res@.edge_at(t) is Some && res@.edge_at(t)->0 < s2 implies self@.edge_at(s2)
                != Some(t) by {
                if s2 >= self@.edges.len() || s2 < 0 {
                    assert(self@.edge_at(s2) is None);
                }
            }
            assert forall|t: int, s2: int|
                #![trigger res@.edge_at(t), self@.edge_at(s2)]
                res@.edge_at(t) is None implies self@.edge_at(s2) != Some(t) by {
                if s2 >= self@.edges.len() || s2 < 0 {
                    assert(self@.edge_at(s2) is None);
                }
            }
            assert forall|t: int| res@.node_at(t) is Some implies self@.node_at(
                #[trigger] res@.node_at(t)->0,
            ) == Some(t) by {
                assert(res@.node_at(t) == nodes_done.node_at(t));
            }
            assert forall|t: int, s2: int|
                #![trigger res@.node_at(t), self@.node_at(s2)]
                res@.node_at(t) is Some && res@.node_at(t)->0 < s2 implies self@.node_at(s2)
                != Some(t) by {
                assert(res@.node_at(t) == nodes_done.node_at(t));
            }
            assert forall|t: int, s2: int|
                #![trigger res@.node_at(t), self@.node_at(s2)]
                res@.node_at(t) is None implies self@.node_at(s2) != Some(t) by {
                assert(res@.node_at(t) == nodes_done.node_at(t));
            }
        }
        res
    }
}

} // verus!
