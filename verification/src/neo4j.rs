//! Ingest of a Neo4j-style JSON export: a JSON array of entries, each
//! carrying a `Node` object (`name`, `text`, `id`), an optional `Rel`
//! triple `[source, type, target]`, and an optional `Target` node object.
//! Nodes are deduplicated by `id`; every entry whose `Rel` and `Target`
//! are both present contributes one directed edge labeled with the
//! relationship type.
//!
//! JSON text is parsed by `serde_json` behind trusted declarations; the
//! extraction of entries from the parsed value and the construction of
//! the graph are verified.
use vstd::prelude::*;
use crate::graph::Graph;
use crate::graph::NodeData;
use crate::graph::NodeDataModel;
use crate::graph::lemma_count_some_push;

verus! {

#[verifier::external_type_specification]
#[verifier::external_body]
pub struct ExValue(serde_json::Value);

#[verifier::external_type_specification]
#[verifier::external_body]
pub struct ExJsonError(serde_json::Error);

/// Relies on serde_json::from_str::<serde_json::Value>: parses JSON text
/// into a generic value, or reports a syntax error.
#[verifier::external_body]
fn parse_json(s: &str) -> Result<serde_json::Value, serde_json::Error> {
    serde_json::from_str(s)
}

/// Relies on serde_json's Display for its error type: renders the parse
/// error as text.
#[verifier::external_body]
fn json_error_string(e: &serde_json::Error) -> String {
    e.to_string()
}

/// Relies on serde_json::Value::get with a string key: field lookup in a
/// JSON object, or nothing when the value is no object or has no such
/// field.
#[verifier::external_body]
fn json_get<'a>(v: &'a serde_json::Value, key: &str) -> Option<&'a serde_json::Value> {
    v.get(key)
}

/// Relies on serde_json::Value::as_array: the elements when the value is
/// a JSON array.
pub assume_specification<'a>[ serde_json::Value::as_array ](v: &'a serde_json::Value) -> Option<
    &'a Vec<serde_json::Value>,
>;

/// Relies on serde_json::Value::as_str: the text when the value is a
/// JSON string.
pub assume_specification<'a>[ serde_json::Value::as_str ](v: &'a serde_json::Value) -> Option<
    &'a str,
>;

/// Relies on serde_json::Value::is_null: whether the value is JSON null.
pub assume_specification[ serde_json::Value::is_null ](v: &serde_json::Value) -> bool;

/// Errors of the JSON ingest.
#[derive(Debug)]
pub enum Neo4jError {
    /// The text is not valid JSON, or its shape is not the expected
    /// array of entries; the payload describes the fault.
    Json(String),
    /// A relationship array does not have exactly three elements.
    BadRelLength(usize),
    /// The middle element of a relationship array is not a string.
    BadRelFormat,
}

/// One ingested entry: its node, and, when the entry carries a complete
/// relationship, the relationship type together with the target node.
pub struct Entry {
    pub node: NodeData,
    pub link: Option<(String, NodeData)>,
}

/// Mathematical model of an entry.
pub ghost struct EntryModel {
    pub node: NodeDataModel,
    pub link: Option<(Seq<char>, NodeDataModel)>,
}

impl View for Entry {
    type V = EntryModel;

    open spec fn view(&self) -> EntryModel {
        EntryModel {
            node: self.node@,
            link: match self.link {
                Some((ref t, ref d)) => Some((t@, d@)),
                None => None,
            },
        }
    }
}

/// The distinct node identifiers among the first `n` entries: each
/// entry's own node id, and the target id where a link is present.
pub open spec fn ids_upto(es: Seq<EntryModel>, n: int) -> Set<Seq<char>>
    decreases n,
{
    if n <= 0 {
        Set::empty()
    } else {
        let prev = ids_upto(es, n - 1).insert(es[n - 1].node.id);
        match es[n - 1].link {
            Some(l) => prev.insert(l.1.id),
            None => prev,
        }
    }
}

/// How many of the first `n` entries carry a link.
pub open spec fn links_upto(es: Seq<EntryModel>, n: int) -> nat
    decreases n,
{
    if n <= 0 {
        0
    } else {
        links_upto(es, n - 1) + (if es[n - 1].link is Some {
            1nat
        } else {
            0nat
        })
    }
}

/// Model of the id table: each entry's id text and node identifier.
pub open spec fn tbl_model(m: Seq<(String, usize)>) -> Seq<(Seq<char>, int)> {
    Seq::new(m.len(), |t: int| (m[t].0@, m[t].1 as int))
}

/// The table holds `id`.
pub open spec fn tbl_has(t: Seq<(Seq<char>, int)>, id: Seq<char>) -> bool {
    exists|j: int| 0 <= j < t.len() && #[trigger] t[j].0 == id
}

/// The node identifier the table records for `id`.
pub open spec fn tbl_val(t: Seq<(Seq<char>, int)>, id: Seq<char>) -> int {
    let j = choose|j: int| 0 <= j < t.len() && #[trigger] t[j].0 == id;
    t[j].1
}

/// Interning one node label: when its id is already in the table the
/// graph and table are unchanged and the recorded node is returned;
/// otherwise a fresh node carrying the label is appended and recorded.
pub open spec fn spec_intern(
    g: crate::graph::GraphModel,
    t: Seq<(Seq<char>, int)>,
    d: NodeDataModel,
) -> (crate::graph::GraphModel, Seq<(Seq<char>, int)>, int) {
    if tbl_has(t, d.id) {
        (g, t, tbl_val(t, d.id))
    } else {
        (
            crate::graph::GraphModel { nodes: g.nodes.push(Some(d)), edges: g.edges },
            t.push((d.id, g.nodes.len() as int)),
            g.nodes.len() as int,
        )
    }
}

/// The graph and id table after ingesting the first `n` entries: each
/// entry interns its node, and an entry with a link interns the target
/// and appends one edge from the node to the target labeled with the
/// relationship type.
pub open spec fn spec_ingest(es: Seq<EntryModel>, n: int) -> (
    crate::graph::GraphModel,
    Seq<(Seq<char>, int)>,
)
    decreases n,
{
    if n <= 0 {
        (
            crate::graph::GraphModel {
                nodes: Seq::<Option<NodeDataModel>>::empty(),
                edges: Seq::<Option<crate::graph::EdgeModel>>::empty(),
            },
            Seq::<(Seq<char>, int)>::empty(),
        )
    } else {
        let prev = spec_ingest(es, n - 1);
        let s1 = spec_intern(prev.0, prev.1, es[n - 1].node);
        match es[n - 1].link {
            Some(l) => {
                let s2 = spec_intern(s1.0, s1.1, l.1);
                (
                    crate::graph::GraphModel {
                        nodes: s2.0.nodes,
                        edges: s2.0.edges.push(
                            Some(
                                crate::graph::EdgeModel { src: s1.2, dst: s2.2, label: l.0 },
                            ),
                        ),
                    },
                    s2.1,
                )
            },
            None => (s1.0, s1.1),
        }
    }
}

pub proof fn lemma_ids_upto_finite(es: Seq<EntryModel>, n: int)
    ensures
        ids_upto(es, n).finite(),
    decreases n,
{
    if n > 0 {
        lemma_ids_upto_finite(es, n - 1);
    }
}

/// Extract the three string properties of a node object.
fn node_from_value(v: &serde_json::Value) -> Option<NodeData>
{
    let name = match json_get(v, "name") {
        Some(x) => match x.as_str() {
            Some(s) => s.to_owned(),
            None => {
                return None;
            },
        },
        None => {
            return None;
        },
    };
    let text = match json_get(v, "text") {
        Some(x) => match x.as_str() {
            Some(s) => s.to_owned(),
            None => {
                return None;
            },
        },
        None => {
            return None;
        },
    };
    let id = match json_get(v, "id") {
        Some(x) => match x.as_str() {
            Some(s) => s.to_owned(),
            None => {
                return None;
            },
        },
        None => {
            return None;
        },
    };
    Some(NodeData::new(name, text, id))
}

/// Walk the parsed JSON value and extract the entries. The value must be
/// an array of objects, each with a well-shaped `Node` object and
/// optional `Rel` array and `Target` object; a present `Rel` must be an
/// array, and where both `Rel` and `Target` are present the `Rel` must
/// have exactly three elements with a string in the middle.
fn parse_entries(v: &serde_json::Value) -> Result<Vec<Entry>, Neo4jError>
{
    let arr = match v.as_array() {
        Some(a) => a,
        None => {
            let mut msg = String::new();
            msg.append("expected a JSON array of entries");
            return Err(Neo4jError::Json(msg));
        },
    };
    let mut raw: Vec<(NodeData, Option<&Vec<serde_json::Value>>, Option<NodeData>)> = Vec::new();
    let mut i: usize = 0;
    while i < arr.len()
        decreases arr@.len() - i,
    {
        let el = &arr[i];
        let node = match json_get(el, "Node") {
            Some(nv) => match node_from_value(nv) {
                Some(nd) => nd,
                None => {
                    let mut msg = String::new();
                    msg.append("entry has a malformed Node object");
                    return Err(Neo4jError::Json(msg));
                },
            },
            None => {
                let mut msg = String::new();
                msg.append("entry has no Node object");
                return Err(Neo4jError::Json(msg));
            },
        };
        let rel: Option<&Vec<serde_json::Value>> = match json_get(el, "Rel") {
            Some(rv) => {
                if rv.is_null() {
                    None
                } else {
                    match rv.as_array() {
                        Some(a) => Some(a),
                        None => {
                            let mut msg = String::new();
                            msg.append("Rel is neither null nor an array");
                            return Err(Neo4jError::Json(msg));
                        },
                    }
                }
            },
            None => None,
        };
        let target: Option<NodeData> = match json_get(el, "Target") {
            Some(tv) => {
                if tv.is_null() {
                    None
                } else {
                    match node_from_value(tv) {
                        Some(nd) => Some(nd),
                        None => {
                            let mut msg = String::new();
                            msg.append("Target is neither null nor a node object");
                            return Err(Neo4jError::Json(msg));
                        },
                    }
                }
            },
            None => None,
        };
        raw.push((node, rel, target));
        i = i + 1;
    }
    let mut entries: Vec<Entry> = Vec::new();
    let mut k: usize = 0;
    while k < raw.len()
        decreases raw@.len() - k,
    {
        let (ref node, rel, ref target) = raw[k];
        let link: Option<(String, NodeData)> = match (rel, target) {
            (Some(rel_arr), Some(t)) => {
                if rel_arr.len() != 3 {
                    return Err(Neo4jError::BadRelLength(rel_arr.len()));
                }
                match rel_arr[1].as_str() {
                    Some(rel_type) => Some((rel_type.to_owned(), t.clone())),
                    None => {
                        return Err(Neo4jError::BadRelFormat);
                    },
                }
            },
            _ => None,
        };
        entries.push(Entry { node: node.clone(), link });
        k = k + 1;
    }
    Ok(entries)
}

/// The id table is consistent with the graph: every recorded identifier
/// is a live node, and no id occurs twice.
pub open spec fn table_ok(g: crate::graph::GraphModel, m: Seq<(String, usize)>) -> bool {
    &&& forall|t: int| 0 <= t < m.len() ==> g.node_live(#[trigger] m[t].1 as int)
    &&& forall|t1: int, t2: int|
        0 <= t1 < t2 < m.len() ==> #[trigger] m[t1].0@ != #[trigger] m[t2].0@
}

/// The id table holds `id`.
pub open spec fn has_id(m: Seq<(String, usize)>, id: Seq<char>) -> bool {
    exists|t: int| 0 <= t < m.len() && #[trigger] m[t].0@ == id
}

/// Does the id table hold `id`?
fn lookup_id(map: &Vec<(String, usize)>, id: &String) -> (r: Option<usize>)
    ensures
        match r {
            Some(ix) => exists|t: int|
                0 <= t < map@.len() && #[trigger] map@[t].0@ == id@ && map@[t].1 == ix,
            None => !has_id(map@, id@),
        },
{
    let mut t: usize = 0;
    while t < map.len()
        invariant
            t <= map@.len(),
            forall|j: int| 0 <= j < t as int ==> #[trigger] map@[j].0@ != id@,
        decreases map@.len() - t,
    {
        if map[t].0 == *id {
            let ix = map[t].1;
            proof {
                assert(map@[t as int].0@ == id@ && map@[t as int].1 == ix);
            }
            return Some(ix);
        }
        t = t + 1;
    }
    None
}

/// The node of the given label, reused when its id is already interned,
/// freshly inserted and recorded otherwise.
fn intern_node(g: &mut Graph, map: &mut Vec<(String, usize)>, node: &NodeData) -> (ix: usize)
    requires
        old(g)@.wf(),
        table_ok(old(g)@, old(map)@),
    ensures
        final(g)@.wf(),
        table_ok(final(g)@, final(map)@),
        final(g)@.edges == old(g)@.edges,
        forall|v: int| old(g)@.node_live(v) ==> final(g)@.node_live(v),
        final(g)@.node_live(ix as int),
        forall|id: Seq<char>|
            #[trigger] has_id(final(map)@, id) <==> has_id(old(map)@, id) || id == node@.id,
        final(map)@.len() == old(map)@.len() + (if has_id(old(map)@, node@.id) {
            0int
        } else {
            1int
        }),
        final(g)@.node_count() == old(g)@.node_count() + (if has_id(old(map)@, node@.id) {
            0int
        } else {
            1int
        }),
        ({
            let s1 = spec_intern(old(g)@, tbl_model(old(map)@), node@);
            final(g)@ == s1.0 && tbl_model(final(map)@) == s1.1 && ix as int == s1.2
        }),
{
    proof {
        assert forall|id: Seq<char>| #[trigger]
            tbl_has(tbl_model(map@), id) <==> has_id(map@, id) by {
            if tbl_has(tbl_model(map@), id) {
                let j = choose|j: int|
                    0 <= j < tbl_model(map@).len() && #[trigger] tbl_model(map@)[j].0 == id;
                assert(map@[j].0@ == id);
            }
            if has_id(map@, id) {
                let j = choose|j: int| 0 <= j < map@.len() && #[trigger] map@[j].0@ == id;
                assert(tbl_model(map@)[j].0 == id);
            }
        }
    }
    match lookup_id(map, &node.id) {
        Some(ix) => {
            proof {
                assert(has_id(map@, node@.id));
                let t = choose|t: int|
                    0 <= t < map@.len() && #[trigger] map@[t].0@ == node@.id && map@[t].1 == ix;
                assert(g@.node_live(map@[t].1 as int));
                assert(tbl_has(tbl_model(map@), node@.id));
                let j = choose|j: int|
                    0 <= j < tbl_model(map@).len() && #[trigger] tbl_model(map@)[j].0 == node@.id;
                assert(map@[j].0@ == node@.id);
                if j != t {
                    assert(map@[j].0@ != map@[t].0@);
                }
                assert(tbl_val(tbl_model(map@), node@.id) == ix as int);
            }
            ix
        },
        None => {
            let ghost prev = g@;
            let ghost prev_map = map@;
            let ix = g.add_node(node.clone());
            map.push((node.id.clone(), ix));
            proof {
                lemma_count_some_push(prev.nodes, Some(node@));
                assert(map@[map@.len() - 1].0@ == node@.id);
                assert forall|t1: int, t2: int|
                    0 <= t1 < t2 < map@.len() implies #[trigger] map@[t1].0@
                    != #[trigger] map@[t2].0@ by {
                    if t2 == map@.len() - 1 {
                        assert(map@[t1].0@ == prev_map[t1].0@);
                        assert(prev_map[t1].0@ != node@.id);
                    } else {
                        assert(map@[t1].0@ == prev_map[t1].0@);
                        assert(map@[t2].0@ == prev_map[t2].0@);
                    }
                }
                assert forall|t: int| 0 <= t < map@.len() implies g@.node_live(
                    #[trigger] map@[t].1 as int,
                ) by {
                    if t < map@.len() - 1 {
                        assert(map@[t].1 == prev_map[t].1);
                        assert(prev.node_live(prev_map[t].1 as int));
                    }
                }
                assert forall|id: Seq<char>| #[trigger] has_id(map@, id) <==> has_id(
                    prev_map,
                    id,
                ) || id == node@.id by {
                    if has_id(map@, id) {
                        let t = choose|t: int| 0 <= t < map@.len() && #[trigger] map@[t].0@ == id;
                        if t < map@.len() - 1 {
                            assert(prev_map[t].0@ == id);
                        }
                    }
                    if has_id(prev_map, id) {
                        let t = choose|t: int|
                            0 <= t < prev_map.len() && #[trigger] prev_map[t].0@ == id;
                        assert(map@[t].0@ == id);
                    }
                    if id == node@.id {
                        assert(map@[map@.len() - 1].0@ == id);
                    }
                }
                assert(!tbl_has(tbl_model(prev_map), node@.id)) by {
                    if tbl_has(tbl_model(prev_map), node@.id) {
                        let j = choose|j: int|
                            0 <= j < tbl_model(prev_map).len() && #[trigger] tbl_model(
                                prev_map,
                            )[j].0 == node@.id;
                        assert(prev_map[j].0@ == node@.id);
                        assert(has_id(prev_map, node@.id));
                    }
                }
                assert(g@.nodes =~= prev.nodes.push(Some(node@)));
                assert(g@.edges =~= prev.edges);
                assert(g@ == spec_intern(prev, tbl_model(prev_map), node@).0);
                assert(tbl_model(map@) =~= tbl_model(prev_map).push(
                    (node@.id, prev.nodes.len() as int),
                ));
            }
            ix
        },
    }
}

/// Build the graph from the ingested entries: one node per distinct id,
/// in order of first appearance, and one edge per entry that carries a
/// link, from the entry's node to the link's target, labeled with the
/// relationship type. The result is exactly the graph `spec_ingest`
/// builds, with as many nodes as there are distinct ids and as many
/// edges as there are entries with a link.
pub fn graph_from_entries(entries: &Vec<Entry>) -> (g: Graph)
    ensures
        g@.wf(),
        g@ == spec_ingest(entries@.map_values(|e: Entry| e@), entries@.len() as int).0,
        g@.node_count() == ids_upto(
            entries@.map_values(|e: Entry| e@),
            entries@.len() as int,
        ).len(),
        g@.edge_count() == links_upto(
            entries@.map_values(|e: Entry| e@),
            entries@.len() as int,
        ),
{
    broadcast use vstd::set::group_set_axioms;

    let ghost es = entries@.map_values(|e: Entry| e@);
    let mut g = Graph::new();
    let mut map: Vec<(String, usize)> = Vec::new();
    let mut k: usize = 0;
    proof {
        lemma_ids_upto_finite(es, 0);
        assert(g@.nodes =~= spec_ingest(es, 0).0.nodes);
        assert(g@.edges =~= spec_ingest(es, 0).0.edges);
        assert(g@ == spec_ingest(es, 0).0);
        assert(tbl_model(map@) =~= spec_ingest(es, 0).1);
    }
    while k < entries.len()
        invariant
            k <= entries@.len(),
            es == entries@.map_values(|e: Entry| e@),
            g@.wf(),
            table_ok(g@, map@),
            forall|id: Seq<char>|
                #[trigger] has_id(map@, id) <==> ids_upto(es, k as int).contains(id),
            map@.len() == ids_upto(es, k as int).len(),
            g@.node_count() == map@.len(),
            g@.edge_count() == links_upto(es, k as int),
            g@ == spec_ingest(es, k as int).0,
            tbl_model(map@) == spec_ingest(es, k as int).1,
        decreases entries@.len() - k,
    {
        let entry = &entries[k];
        proof {
            assert(es[k as int] == entry@);
            lemma_ids_upto_finite(es, k as int);
        }
        let ghost ids0 = ids_upto(es, k as int);
        let ghost map0 = map@;
        let ghost pre_state = spec_ingest(es, k as int);
        let src_ix = intern_node(&mut g, &mut map, &entry.node);
        proof {
            assert(entry@.node == es[k as int].node);
            assert(g@ == spec_intern(pre_state.0, pre_state.1, es[k as int].node).0);
            assert(tbl_model(map@) == spec_intern(pre_state.0, pre_state.1, es[k as int].node).1);
            assert(src_ix as int == spec_intern(pre_state.0, pre_state.1, es[k as int].node).2);
        }
        proof {
            let ids1 = ids0.insert(entry@.node.id);
            assert forall|id: Seq<char>| #[trigger] has_id(map@, id) <==> ids1.contains(id) by {
            }
            assert(map@.len() == ids1.len());
            assert(g@.node_count() == map@.len());
        }
        let ghost ids1 = ids0.insert(entry@.node.id);
        match &entry.link {
            Some((rel, target)) => {
                let ghost s1 = spec_intern(pre_state.0, pre_state.1, es[k as int].node);
                let tgt_ix = intern_node(&mut g, &mut map, target);
                proof {
                    assert(target@ == (es[k as int].link->0).1);
                    assert(g@ == spec_intern(s1.0, s1.1, (es[k as int].link->0).1).0);
                    assert(tgt_ix as int == spec_intern(s1.0, s1.1, (es[k as int].link->0).1).2);
                }
                proof {
                    let ids2 = ids1.insert((entry@.link->0).1.id);
                    assert(target@.id == (entry@.link->0).1.id);
                    assert forall|id: Seq<char>| #[trigger] has_id(map@, id) <==> ids2.contains(
                        id,
                    ) by {
                    }
                    assert(map@.len() == ids2.len());
                    assert(g@.node_live(src_ix as int));
                }
                let ghost prev = g@;
                g.add_edge(src_ix, tgt_ix, rel.clone());
                proof {
                    lemma_count_some_push(
                        prev.edges,
                        Some(
                            crate::graph::EdgeModel {
                                src: src_ix as int,
                                dst: tgt_ix as int,
                                label: rel@,
                            },
                        ),
                    );
                    assert(ids_upto(es, k as int + 1) == ids1.insert((entry@.link->0).1.id));
                    assert(links_upto(es, k as int + 1) == links_upto(es, k as int) + 1nat);
                    assert forall|t: int| 0 <= t < map@.len() implies g@.node_live(
                        #[trigger] map@[t].1 as int,
                    ) by {
                        assert(prev.node_live(map@[t].1 as int));
                    }
                    assert(rel@ == (es[k as int].link->0).0);
                    assert(g@.edges =~= prev.edges.push(
                        Some(
                            crate::graph::EdgeModel {
                                src: src_ix as int,
                                dst: tgt_ix as int,
                                label: (es[k as int].link->0).0,
                            },
                        ),
                    ));
                    assert(g@.nodes =~= prev.nodes);
                    assert(g@ == spec_ingest(es, k as int + 1).0);
                    assert(tbl_model(map@) == spec_ingest(es, k as int + 1).1);
                }
            },
            None => {
                proof {
                    assert(ids_upto(es, k as int + 1) == ids1);
                    assert(links_upto(es, k as int + 1) == links_upto(es, k as int));
                    assert(g@ == spec_ingest(es, k as int + 1).0);
                    assert(tbl_model(map@) == spec_ingest(es, k as int + 1).1);
                }
            },
        }
        k = k + 1;
    }
    proof {
        assert(es.len() == entries@.len());
    }
    g
}

/// Parse a Neo4j-style JSON export into a graph. Reports `Json` for
/// malformed JSON or entries of the wrong shape, `BadRelLength` for a
/// relationship array whose length is not three, and `BadRelFormat` when
/// the relationship type position holds no string. A successful parse
/// yields the `spec_ingest` image of the extracted entries: nodes
/// deduplicated by id in order of first appearance and one edge per
/// complete relationship. What the text parses to passes through the
/// trusted `serde_json` layer, whose opaque values no contract of this
/// crate can describe; the exact entry-to-graph relation is stated on
/// `graph_from_entries`.
pub fn graph_from_neo4j_json(json_str: &str) -> (r: Result<Graph, Neo4jError>)
    ensures
        r matches Ok(g) ==> g@.wf() && exists|es: Seq<EntryModel>|
            g@ == #[trigger] spec_ingest(es, es.len() as int).0,
{
    let value = match parse_json(json_str) {
        Ok(v) => v,
        Err(e) => {
            return Err(Neo4jError::Json(json_error_string(&e)));
        },
    };
    let entries = match parse_entries(&value) {
        Ok(es) => es,
        Err(err) => {
            return Err(err);
        },
    };
    let g = graph_from_entries(&entries);
    proof {
        let esw = entries@.map_values(|e: Entry| e@);
        assert(g@ == spec_ingest(esw, esw.len() as int).0);
    }
    Ok(g)
}

} // verus!
