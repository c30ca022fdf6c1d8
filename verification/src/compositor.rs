//! The compositor: a stateless façade mapping query intents onto graph
//! operations and wrapping the outcomes as artifacts. Purely
//! compositional — it never mutates the graph and adds no algorithm of
//! its own.

use vstd::prelude::*;
use crate::primitives::{Artifact, EdgeWeight, NodeId};
use crate::graph::Graph;
use crate::traversal::nid_in;

verus! {

/// The edges along the consecutive pairs of a path, where they exist.
pub open spec fn path_edges_spec(g: Graph, p: Seq<u64>) -> Seq<(u64, u64, i64)>
    decreases p.len(),
{
    if p.len() < 2 {
        Seq::empty()
    } else {
        let head: Seq<(u64, u64, i64)> = if g.has_edge(p[0], p[1]) {
            Seq::empty().push((p[0], p[1], g.edge_val(p[0], p[1])))
        } else {
            Seq::empty()
        };
        head + path_edges_spec(g, p.drop_first())
    }
}

/// The output assembly façade.
pub struct Compositor;

impl Compositor {
    /// Compose an artifact by bounded traversal from a starting node:
    /// exactly `Graph::traverse`.
    pub fn compose(graph: &Graph, start: NodeId, depth: usize) -> (r: Option<Artifact>)
        requires
            graph.wf(),
        ensures
            r is Some <==> graph.has_node(start.0),
            r is Some ==> (r->Some_0)@.path == Graph::traverse_model(*graph, start.0, depth, None).path
                && (r->Some_0)@.subgraph == Graph::traverse_model(*graph, start.0, depth, None).subgraph,
    {
        graph.traverse(start, depth)
    }

    /// Compose an artifact keeping only edges at or above `min_weight`:
    /// exactly `Graph::traverse_filtered`.
    pub fn compose_filtered(graph: &Graph, start: NodeId, depth: usize, min_weight: EdgeWeight) -> (r: Option<Artifact>)
        requires
            graph.wf(),
        ensures
            r is Some <==> graph.has_node(start.0),
            r is Some ==> (r->Some_0)@.path
                == Graph::traverse_model(*graph, start.0, depth, Some(min_weight.0)).path
                && (r->Some_0)@.subgraph
                    == Graph::traverse_model(*graph, start.0, depth, Some(min_weight.0)).subgraph,
    {
        graph.traverse_filtered(start, depth, min_weight)
    }

    /// Extract the strongest path between two nodes together with the
    /// weights of its hops: the path is exactly the strongest-path search
    /// result, the subgraph exactly the existing edges along consecutive
    /// path pairs.
    pub fn extract_path(graph: &Graph, start: NodeId, end: NodeId) -> (r: Option<Artifact>)
        requires
            graph.wf(),
        ensures
            ({
                let m = Graph::strongest_path_model(*graph, start.0, end.0);
                match r {
                    None => m is None,
                    Some(a) => m is Some && a@.path == m->Some_0
                        && a@.subgraph == path_edges_spec(*graph, m->Some_0),
                }
            }),
    {
        match graph.strongest_path(start, end) {
            None => None,
            Some(path) => {
                let mut subgraph: Vec<(NodeId, NodeId, EdgeWeight)> = Vec::new();
                let ghost p = path@.map(|_i: int, n: NodeId| n.0);
                let n = path.len();
                proof {
                    assert(p.skip(0) =~= p);
                    assert(subgraph@.map(|_i: int, e: (NodeId, NodeId, EdgeWeight)| (e.0.0, e.1.0, e.2.0))
                        =~= Seq::<(u64, u64, i64)>::empty());
                }
                let mut i: usize = 0;
                while n >= 2 && i < n - 1
                    invariant
                        graph.wf(),
                        n == path@.len(),
                        p == path@.map(|_i: int, n: NodeId| n.0),
                        i < n || n < 2,
                        subgraph@.map(|_i: int, e: (NodeId, NodeId, EdgeWeight)| (e.0.0, e.1.0, e.2.0))
                            + path_edges_spec(*graph, p.skip(i as int))
                            == path_edges_spec(*graph, p),
                    decreases n - i,
                {
                    let ghost sub_in = subgraph@.map(|_i: int, e: (NodeId, NodeId, EdgeWeight)| (e.0.0, e.1.0, e.2.0));
                    let ghost rest = p.skip(i as int);
                    proof {
                        assert(rest.len() >= 2);
                        assert(rest[0] == p[i as int]);
                        assert(rest[1] == p[i as int + 1]);
                        assert(rest.drop_first() =~= p.skip(i as int + 1));
                    }
                    let from = path[i];
                    let to = path[i + 1];
                    match graph.get_edge(from, to) {
                        Some(w) => {
                            subgraph.push((from, to, w));
                            proof {
                                assert(subgraph@.map(|_i: int, e: (NodeId, NodeId, EdgeWeight)| (e.0.0, e.1.0, e.2.0))
                                    =~= sub_in.push((from.0, to.0, w.0)));
                                assert(sub_in.push((from.0, to.0, w.0)) + path_edges_spec(*graph, p.skip(i as int + 1))
                                    =~= sub_in + (Seq::<(u64, u64, i64)>::empty().push((from.0, to.0, w.0))
                                        + path_edges_spec(*graph, p.skip(i as int + 1))));
                            }
                        }
                        None => {
                            proof {
                                assert(sub_in + path_edges_spec(*graph, p.skip(i as int + 1))
                                    =~= sub_in + (Seq::<(u64, u64, i64)>::empty()
                                        + path_edges_spec(*graph, p.skip(i as int + 1))));
                            }
                        }
                    }
                    i = i + 1;
                }
                proof {
                    assert(path_edges_spec(*graph, p.skip(i as int)) =~= Seq::<(u64, u64, i64)>::empty());
                    assert(subgraph@.map(|_i: int, e: (NodeId, NodeId, EdgeWeight)| (e.0.0, e.1.0, e.2.0))
                        + Seq::<(u64, u64, i64)>::empty()
                        =~= subgraph@.map(|_i: int, e: (NodeId, NodeId, EdgeWeight)| (e.0.0, e.1.0, e.2.0)));
                }
                let a = Artifact::with_subgraph(path, subgraph);
                proof {
                    assert(a@.path =~= p);
                    assert(a@.subgraph =~= path_edges_spec(*graph, p));
                }
                Some(a)
            }
        }
    }

    /// Wrap the common out-neighbors of `nodes` as a path-only artifact:
    /// sorted ascending, holding exactly the shared targets.
    pub fn find_intersection(graph: &Graph, nodes: &[NodeId]) -> (r: Artifact)
        requires
            graph.wf(),
        ensures
            r@.subgraph.len() == 0,
            forall|i: int, j: int| 0 <= i < j < r.path@.len() ==> r.path@[i].0 < r.path@[j].0,
            forall|x: u64| #[trigger] nid_in(r.path@, x)
                <==> (nodes@.len() > 0
                    && forall|k: int| 0 <= k < nodes@.len() ==> graph.has_edge((#[trigger] nodes@[k]).0, x)),
    {
        let common = graph.intersect(nodes);
        Artifact::with_path(common)
    }

    /// The related context around a node: exactly `Graph::related_subgraph`.
    pub fn related_context(graph: &Graph, start: NodeId, depth: usize) -> (r: Option<Artifact>)
        requires
            graph.wf(),
        ensures
            r is Some <==> graph.has_node(start.0),
            r is Some ==> (r->Some_0)@.path == Graph::traverse_model(*graph, start.0, depth, None).path
                && (r->Some_0)@.subgraph == Graph::traverse_model(*graph, start.0, depth, None).subgraph,
    {
        graph.related_subgraph(start, depth)
    }
}

} // verus!
