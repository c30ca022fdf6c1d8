//! Canonical and serializable representations of a graph.
//!
//! The canonical form lists nodes ordered by id and edges ordered by
//! `(from, to)` — exactly the store's own iteration order — so two exports
//! of the same graph state are identical values, and any byte framing
//! applied to them downstream is identical bytes. Reconstruction preserves
//! the original node ids and advances the next-id counter past the highest
//! imported id.

use vstd::prelude::*;
use crate::primitives::{EdgeWeight, EntityId, Node, NodeId};
use crate::graph::Graph;
use crate::sorted::as_map;

verus! {

/// One node of a canonical export.
#[derive(Debug, Clone, Copy, PartialEq, Eq, Structural)]
pub struct CanonicalNode {
    pub id: u64,
    pub entity: u64,
}

/// One edge of a canonical export.
#[derive(Debug, Clone, Copy, PartialEq, Eq, Structural)]
pub struct CanonicalEdge {
    pub from: u64,
    pub to: u64,
    pub weight: i64,
}

/// A deterministic, order-canonical description of a whole graph:
/// sufficient to rebuild an equivalent store.
#[derive(Debug, Clone, PartialEq, Eq)]
pub struct CanonicalGraph {
    pub nodes: Vec<CanonicalNode>,
    pub edges: Vec<CanonicalEdge>,
    pub next_node_id: u64,
}

/// The node table a canonical node list builds, later entries winning.
pub open spec fn canon_nodes_map(s: Seq<CanonicalNode>) -> Map<u64, u64>
    decreases s.len(),
{
    if s.len() == 0 {
        Map::empty()
    } else {
        canon_nodes_map(s.drop_last()).insert(s.last().id, s.last().entity)
    }
}

/// The entity index a canonical node list builds, later entries winning.
pub open spec fn canon_index_map(s: Seq<CanonicalNode>) -> Map<u64, u64>
    decreases s.len(),
{
    if s.len() == 0 {
        Map::empty()
    } else {
        canon_index_map(s.drop_last()).insert(s.last().entity, s.last().id)
    }
}

/// The least next-id value that keeps every imported id in the past:
/// the running bound after importing the list node by node.
pub open spec fn canon_next_floor(s: Seq<CanonicalNode>) -> u64
    decreases s.len(),
{
    if s.len() == 0 {
        0
    } else {
        let rest = canon_next_floor(s.drop_last());
        if s.last().id >= rest {
            crate::primitives::sat_inc_u64(s.last().id)
        } else {
            rest
        }
    }
}

/// Whether a canonical edge list, imported against the node table `nm`,
/// produces the edge `f -> t`: some entry names the pair and both
/// endpoints exist.
pub open spec fn canon_has_edge(nm: Map<u64, u64>, es: Seq<CanonicalEdge>, f: u64, t: u64) -> bool
    decreases es.len(),
{
    if es.len() == 0 {
        false
    } else {
        let e = es.last();
        (e.from == f && e.to == t && nm.dom().contains(f) && nm.dom().contains(t))
            || canon_has_edge(nm, es.drop_last(), f, t)
    }
}

/// The weight the import leaves on `f -> t`: the last valid entry wins.
pub open spec fn canon_edge_val(nm: Map<u64, u64>, es: Seq<CanonicalEdge>, f: u64, t: u64) -> i64
    decreases es.len(),
{
    if es.len() == 0 {
        0
    } else {
        let e = es.last();
        if e.from == f && e.to == t && nm.dom().contains(f) && nm.dom().contains(t) {
            e.weight
        } else {
            canon_edge_val(nm, es.drop_last(), f, t)
        }
    }
}

impl Graph {
    /// Export the graph canonically: nodes ordered by id, edges ordered by
    /// `(from, to)`, plus the next-id counter. A pure function of graph
    /// content — equal graphs export equal values.
    pub fn to_canonical(&self) -> (r: CanonicalGraph)
        ensures
            r.next_node_id == self.next_id(),
            r.nodes@.len() == self.nodes_view().len(),
            forall|i: int| 0 <= i < r.nodes@.len()
                ==> #[trigger] r.nodes@[i] == (CanonicalNode {
                    id: self.nodes_view()[i].0,
                    entity: self.nodes_view()[i].1,
                }),
            r.edges@.len() == self.edges_view().len(),
            forall|i: int| 0 <= i < r.edges@.len()
                ==> #[trigger] r.edges@[i] == (CanonicalEdge {
                    from: self.edges_view()[i].0,
                    to: self.edges_view()[i].1,
                    weight: self.edges_view()[i].2,
                }),
    {
        let ns = self.nodes();
        let es = self.edges();
        let mut cns: Vec<CanonicalNode> = Vec::new();
        let mut ces: Vec<CanonicalEdge> = Vec::new();
        let n = ns.len();
        let mut i: usize = 0;
        while i < n
            invariant
                i <= n,
                n == ns@.len(),
                ns@.len() == self.nodes_view().len(),
                forall|m: int| 0 <= m < ns@.len()
                    ==> #[trigger] ns@[m] == (Node {
                        id: NodeId(self.nodes_view()[m].0),
                        entity: EntityId(self.nodes_view()[m].1),
                    }),
                cns@.len() == i,
                forall|m: int| 0 <= m < i
                    ==> #[trigger] cns@[m] == (CanonicalNode {
                        id: self.nodes_view()[m].0,
                        entity: self.nodes_view()[m].1,
                    }),
            decreases n - i,
        {
            cns.push(CanonicalNode { id: ns[i].id.0, entity: ns[i].entity.0 });
            i = i + 1;
        }
        let m = es.len();
        let mut j: usize = 0;
        while j < m
            invariant
                j <= m,
                m == es@.len(),
                es@.len() == self.edges_view().len(),
                forall|k: int| 0 <= k < es@.len()
                    ==> #[trigger] es@[k] == (NodeId(self.edges_view()[k].0),
                        NodeId(self.edges_view()[k].1), EdgeWeight(self.edges_view()[k].2)),
                ces@.len() == j,
                forall|k: int| 0 <= k < j
                    ==> #[trigger] ces@[k] == (CanonicalEdge {
                        from: self.edges_view()[k].0,
                        to: self.edges_view()[k].1,
                        weight: self.edges_view()[k].2,
                    }),
            decreases m - j,
        {
            ces.push(CanonicalEdge { from: es[j].0.0, to: es[j].1.0, weight: es[j].2.0 });
            j = j + 1;
        }
        CanonicalGraph { nodes: cns, edges: ces, next_node_id: self.next_node_id() }
    }

    /// Rebuild a graph from a canonical description, preserving the
    /// original node ids, keeping exactly the listed edges whose endpoints
    /// exist (the last listed weight winning), and advancing the next-id
    /// counter past both the stored counter and the highest imported id.
    pub fn from_canonical(canonical: &CanonicalGraph) -> (g: Graph)
        ensures
            g.wf(),
            as_map(g.nodes_view()) == canon_nodes_map(canonical.nodes@),
            as_map(g.index_view()) == canon_index_map(canonical.nodes@),
            forall|f: u64, t: u64| #[trigger] g.has_edge(f, t)
                <==> canon_has_edge(canon_nodes_map(canonical.nodes@), canonical.edges@, f, t),
            forall|f: u64, t: u64| #[trigger] g.has_edge(f, t)
                ==> g.edge_val(f, t)
                    == canon_edge_val(canon_nodes_map(canonical.nodes@), canonical.edges@, f, t),
            g.next_id() == (if canonical.next_node_id >= canon_next_floor(canonical.nodes@) {
                canonical.next_node_id
            } else {
                canon_next_floor(canonical.nodes@)
            }),
    {
        let mut g = Graph::new();
        let n = canonical.nodes.len();
        let mut i: usize = 0;
        proof {
            assert(canonical.nodes@.take(0) =~= Seq::<CanonicalNode>::empty());
            assert(as_map(g.nodes_view()) =~= Map::<u64, u64>::empty());
            assert(as_map(g.index_view()) =~= Map::<u64, u64>::empty());
        }
        while i < n
            invariant
                i <= n,
                n == canonical.nodes@.len(),
                g.wf(),
                as_map(g.nodes_view()) == canon_nodes_map(canonical.nodes@.take(i as int)),
                as_map(g.index_view()) == canon_index_map(canonical.nodes@.take(i as int)),
                g.adj_raw() == Seq::<(u64, Vec<(u64, i64)>)>::empty(),
                g.next_id() == canon_next_floor(canonical.nodes@.take(i as int)),
            decreases n - i,
        {
            let cn = canonical.nodes[i];
            g.import_node(Node { id: NodeId(cn.id), entity: EntityId(cn.entity) });
            proof {
                assert(canonical.nodes@.take(i as int + 1).drop_last() =~= canonical.nodes@.take(i as int));
                assert(canonical.nodes@.take(i as int + 1).last() == canonical.nodes@[i as int]);
            }
            i = i + 1;
        }
        proof {
            assert(canonical.nodes@.take(n as int) =~= canonical.nodes@);
        }
        g.raise_next_id(canonical.next_node_id);
        let ghost nm = canon_nodes_map(canonical.nodes@);
        let m = canonical.edges.len();
        let mut j: usize = 0;
        proof {
            assert(canonical.edges@.take(0) =~= Seq::<CanonicalEdge>::empty());
            assert forall|f: u64, t: u64| !(#[trigger] g.has_edge(f, t)) by {
                assert(g.neighbors_of(f) =~= Seq::<(u64, i64)>::empty());
            }
        }
        while j < m
            invariant
                j <= m,
                m == canonical.edges@.len(),
                g.wf(),
                as_map(g.nodes_view()) == nm,
                nm == canon_nodes_map(canonical.nodes@),
                as_map(g.index_view()) == canon_index_map(canonical.nodes@),
                g.next_id() == (if canonical.next_node_id >= canon_next_floor(canonical.nodes@) {
                    canonical.next_node_id
                } else {
                    canon_next_floor(canonical.nodes@)
                }),
                forall|f: u64, t: u64| #[trigger] g.has_edge(f, t)
                    <==> canon_has_edge(nm, canonical.edges@.take(j as int), f, t),
                forall|f: u64, t: u64| #[trigger] g.has_edge(f, t)
                    ==> g.edge_val(f, t) == canon_edge_val(nm, canonical.edges@.take(j as int), f, t),
            decreases m - j,
        {
            let ghost pre = g;
            let ce = canonical.edges[j];
            g.insert_edge(NodeId(ce.from), NodeId(ce.to), EdgeWeight(ce.weight));
            proof {
                let tk = canonical.edges@.take(j as int + 1);
                assert(tk.drop_last() =~= canonical.edges@.take(j as int));
                assert(tk.last() == canonical.edges@[j as int]);
                assert(pre.has_node(ce.from) <==> nm.dom().contains(ce.from));
                assert(pre.has_node(ce.to) <==> nm.dom().contains(ce.to));
                if pre.has_node(ce.from) && pre.has_node(ce.to) {
                    assert(Graph::step_set_edge(pre, ce.from, ce.to, ce.weight, g));
                    assert forall|f: u64, t: u64| #[trigger] g.has_edge(f, t)
                        <==> canon_has_edge(nm, tk, f, t) by {
                        assert(pre.has_edge(f, t)
                            <==> canon_has_edge(nm, canonical.edges@.take(j as int), f, t));
                        if f == ce.from {
                            assert(as_map(g.neighbors_of(f))
                                == as_map(pre.neighbors_of(f)).insert(ce.to, ce.weight));
                            assert(g.has_edge(f, t) <==> as_map(g.neighbors_of(f)).dom().contains(t));
                            assert(pre.has_edge(f, t) <==> as_map(pre.neighbors_of(f)).dom().contains(t));
                            if t == ce.to {
                                assert(g.has_edge(f, t));
                                assert(nm.dom().contains(f) && nm.dom().contains(t));
                                assert(canon_has_edge(nm, tk, f, t));
                            } else {
                                assert(g.has_edge(f, t) <==> pre.has_edge(f, t));
                            }
                        } else {
                            assert(g.neighbors_of(f) == pre.neighbors_of(f));
                            assert(g.has_edge(f, t) <==> pre.has_edge(f, t));
                        }
                    }
                    assert forall|f: u64, t: u64| #[trigger] g.has_edge(f, t)
                        implies g.edge_val(f, t) == canon_edge_val(nm, tk, f, t) by {
                        assert(pre.has_edge(f, t)
                            <==> canon_has_edge(nm, canonical.edges@.take(j as int), f, t));
                        assert(pre.has_edge(f, t)
                            ==> pre.edge_val(f, t) == canon_edge_val(nm, canonical.edges@.take(j as int), f, t));
                        if f == ce.from {
                            assert(as_map(g.neighbors_of(f))
                                == as_map(pre.neighbors_of(f)).insert(ce.to, ce.weight));
                            assert(as_map(g.neighbors_of(f)).dom().contains(t));
                            assert(as_map(g.neighbors_of(f))[t] == g.edge_val(f, t));
                            if t == ce.to {
                                assert(g.edge_val(f, t) == ce.weight);
                            } else {
                                assert(as_map(pre.neighbors_of(f)).dom().contains(t));
                                assert(as_map(pre.neighbors_of(f))[t] == pre.edge_val(f, t));
                                assert(g.edge_val(f, t) == pre.edge_val(f, t));
                                assert(pre.has_edge(f, t));
                            }
                        } else {
                            assert(g.neighbors_of(f) == pre.neighbors_of(f));
                            assert(g.has_edge(f, t) <==> pre.has_edge(f, t));
                            assert(g.edge_val(f, t) == pre.edge_val(f, t));
                        }
                    }
                } else {
                    assert(g == pre);
                }
            }
            j = j + 1;
        }
        proof {
            assert(canonical.edges@.take(m as int) =~= canonical.edges@);
        }
        g
    }
}

/// A plain, field-public image of a graph for persistence front ends:
/// node list, edge list, and the next-id counter.
#[derive(Debug, Clone)]
pub struct SerializableGraph {
    pub nodes: Vec<Node>,
    pub edges: Vec<(NodeId, NodeId, EdgeWeight)>,
    pub next_node_id: u64,
}

impl<'a> From<&'a Graph> for SerializableGraph {
    /// Snapshot the graph's deterministic node and edge order.
    fn from(graph: &'a Graph) -> Self {
        SerializableGraph {
            nodes: graph.nodes(),
            edges: graph.edges(),
            next_node_id: graph.next_node_id(),
        }
    }
}

impl<'a> vstd::std_specs::convert::FromSpecImpl<&'a Graph> for SerializableGraph {
    open spec fn obeys_from_spec() -> bool {
        false
    }

    open spec fn from_spec(v: &'a Graph) -> Self {
        vstd::pervasive::arbitrary()
    }
}

impl From<SerializableGraph> for Graph {
    /// Rebuild a store from the snapshot: nodes under their original ids,
    /// edges whose endpoints exist, counter advanced past every id.
    fn from(sg: SerializableGraph) -> Self {
        let mut g = Graph::new();
        let n = sg.nodes.len();
        let mut i: usize = 0;
        while i < n
            invariant
                i <= n,
                n == sg.nodes@.len(),
                g.wf(),
            decreases n - i,
        {
            g.import_node(sg.nodes[i]);
            i = i + 1;
        }
        g.raise_next_id(sg.next_node_id);
        let m = sg.edges.len();
        let mut j: usize = 0;
        while j < m
            invariant
                j <= m,
                m == sg.edges@.len(),
                g.wf(),
            decreases m - j,
        {
            let e = sg.edges[j];
            g.insert_edge(e.0, e.1, e.2);
            j = j + 1;
        }
        g
    }
}

impl vstd::std_specs::convert::FromSpecImpl<SerializableGraph> for Graph {
    open spec fn obeys_from_spec() -> bool {
        false
    }

    open spec fn from_spec(v: SerializableGraph) -> Self {
        vstd::pervasive::arbitrary()
    }
}

} // verus!
