//! Grounding: executing a query against the graph and annotating the
//! outcome with a confidence assessment.
//!
//! A query that produced nothing yields the unverified result — zero
//! confidence, no evidence path, `verified` false. A produced artifact is
//! scored, and `verified` is exactly "score at or above the threshold":
//! this layer never fabricates evidence and never upgrades an unverified
//! outcome.

use vstd::prelude::*;
use crate::primitives::{Artifact, NodeId};
use crate::graph::Graph;
use crate::confidence::{compute_confidence, compute_path_confidence, confidence_formula,
    path_confidence_formula, ConfidenceScore, VERIFICATION_THRESHOLD};
use crate::query::{Query, QueryType};
use crate::traversal::id_in;

verus! {

/// Whether `x` is an immediate out-neighbor of every node of `nodes`.
pub open spec fn common_neighbor(g: Graph, nodes: Seq<NodeId>, x: u64) -> bool {
    nodes.len() > 0 && forall|k: int| 0 <= k < nodes.len() ==> g.has_edge((#[trigger] nodes[k]).0, x)
}

/// The outcome of verifying a query: the artifact (if any), its
/// confidence, the threshold verdict, and the supporting evidence path.
#[derive(Debug, Clone)]
pub struct GroundedResult {
    /// The artifact the query produced, if any.
    pub artifact: Option<Artifact>,
    /// The confidence assessment.
    pub confidence: ConfidenceScore,
    /// Whether confidence clears the fixed threshold.
    pub verified: bool,
    /// The evidence path supporting the result.
    pub evidence_path: Vec<NodeId>,
}

impl GroundedResult {
    /// The no-evidence outcome: nothing found, zero confidence, not
    /// verified, empty evidence.
    pub fn unverified() -> (r: GroundedResult)
        ensures
            r.artifact is None,
            r.confidence.score == 0,
            !r.verified,
            r.evidence_path@.len() == 0,
    {
        GroundedResult {
            artifact: None,
            confidence: ConfidenceScore::zero(),
            verified: false,
            evidence_path: Vec::new(),
        }
    }

    /// Wrap a produced artifact: the evidence path is the artifact's path,
    /// and `verified` is exactly the threshold verdict on `confidence`.
    pub fn with_artifact(artifact: Artifact, confidence: ConfidenceScore) -> (r: GroundedResult)
        ensures
            r.artifact == Some(artifact),
            r.confidence == confidence,
            r.verified == (confidence.score >= VERIFICATION_THRESHOLD),
            r.evidence_path@ == artifact.path@,
    {
        let verified = confidence.is_verified();
        let evidence_path = copy_ids(&artifact.path);
        GroundedResult { artifact: Some(artifact), confidence, verified, evidence_path }
    }
}

/// An exact copy of a node-id list.
fn copy_ids(v: &Vec<NodeId>) -> (r: Vec<NodeId>)
    ensures
        r@ == v@,
{
    let mut r: Vec<NodeId> = Vec::new();
    let n = v.len();
    let mut i: usize = 0;
    while i < n
        invariant
            i <= n,
            n == v@.len(),
            r@ == v@.take(i as int),
        decreases n - i,
    {
        r.push(v[i]);
        proof {
            assert(r@ =~= v@.take(i as int + 1));
        }
        i = i + 1;
    }
    proof {
        assert(v@.take(n as int) =~= v@);
    }
    r
}

/// Execute a query and return the grounded outcome.
///
/// Dispatch is exact: each query kind runs its graph operation, a missing
/// result becomes the unverified outcome, and a produced artifact is
/// scored by the published curves. In every case the evidence path is the
/// produced artifact's path — never invented.
pub fn verify_hypothesis(graph: &Graph, query: Query) -> (r: GroundedResult)
    requires
        graph.wf(),
    ensures
        r.artifact is None ==> r.confidence.score == 0 && !r.verified && r.evidence_path@.len() == 0,
        r.verified ==> r.confidence.score >= VERIFICATION_THRESHOLD && r.artifact is Some,
        r.artifact matches Some(a) ==> r.evidence_path@ == a.path@
            && r.verified == (r.confidence.score >= VERIFICATION_THRESHOLD),
        match query.query_type {
            QueryType::Lookup(e) => {
                if graph.has_entity(e.0) {
                    &&& r.artifact matches Some(a)
                    &&& a@.path == Seq::<u64>::empty().push(graph.id_of_entity(e.0))
                    &&& a@.subgraph.len() == 0
                    &&& r.confidence.score == 100
                    &&& r.verified
                } else {
                    r.artifact is None
                }
            },
            QueryType::Traverse { start, depth } => {
                if graph.has_node(start.0) {
                    &&& r.artifact matches Some(a)
                    &&& a@.path == Graph::traverse_model(*graph, start.0, depth, None).path
                    &&& a@.subgraph == Graph::traverse_model(*graph, start.0, depth, None).subgraph
                    &&& r.confidence.score == confidence_formula(a@.path.len(), a@.subgraph.len())
                } else {
                    r.artifact is None
                }
            },
            QueryType::TraverseFiltered { start, depth, min_weight } => {
                if graph.has_node(start.0) {
                    &&& r.artifact matches Some(a)
                    &&& a@.path == Graph::traverse_model(*graph, start.0, depth, Some(min_weight.0)).path
                    &&& a@.subgraph == Graph::traverse_model(*graph, start.0, depth, Some(min_weight.0)).subgraph
                    &&& r.confidence.score == confidence_formula(a@.path.len(), a@.subgraph.len())
                } else {
                    r.artifact is None
                }
            },
            QueryType::StrongestPath { start, end } => {
                match Graph::strongest_path_model(*graph, start.0, end.0) {
                    Some(p) => {
                        &&& r.artifact matches Some(a)
                        &&& a@.path == p
                        &&& a@.subgraph.len() == 0
                        &&& r.confidence.score == path_confidence_formula(p.len())
                    },
                    None => r.artifact is None,
                }
            },
            QueryType::Intersect(ref nodes) => {
                match r.artifact {
                    Some(a) => {
                        &&& a@.path.len() > 0
                        &&& a@.subgraph.len() == 0
                        &&& (forall|x: u64| #[trigger] id_in(a@.path, x)
                            <==> common_neighbor(*graph, nodes@, x))
                        &&& r.confidence.score == confidence_formula(a@.path.len(), 0)
                    },
                    None => forall|x: u64| !(#[trigger] common_neighbor(*graph, nodes@, x)),
                }
            },
            QueryType::RelatedSubgraph { start, depth } => {
                if graph.has_node(start.0) {
                    &&& r.artifact matches Some(a)
                    &&& a@.path == Graph::traverse_model(*graph, start.0, depth, None).path
                    &&& a@.subgraph == Graph::traverse_model(*graph, start.0, depth, None).subgraph
                    &&& r.confidence.score == confidence_formula(a@.path.len(), a@.subgraph.len())
                } else {
                    r.artifact is None
                }
            },
            QueryType::TraverseDfs { start, depth } => {
                if graph.has_node(start.0) {
                    &&& r.artifact matches Some(a)
                    &&& a@.path == Graph::dfs_model(*graph, start.0, depth).path
                    &&& a@.subgraph == Graph::dfs_model(*graph, start.0, depth).subgraph
                    &&& r.confidence.score == confidence_formula(a@.path.len(), a@.subgraph.len())
                } else {
                    r.artifact is None
                }
            },
        },
{
    match query.query_type {
        QueryType::Lookup(entity) => {
            match graph.get_node_by_entity(entity) {
                Some(node_id) => {
                    let mut path: Vec<NodeId> = Vec::new();
                    path.push(node_id);
                    let artifact = Artifact::with_path(path);
                    proof {
                        assert(artifact@.path =~= Seq::<u64>::empty().push(graph.id_of_entity(entity.0)));
                    }
                    let confidence = ConfidenceScore::new(100, 0, 1);
                    GroundedResult::with_artifact(artifact, confidence)
                }
                None => GroundedResult::unverified(),
            }
        }
        QueryType::Traverse { start, depth } => {
            match graph.traverse(start, depth) {
                Some(artifact) => {
                    let confidence = compute_confidence(&artifact, graph);
                    GroundedResult::with_artifact(artifact, confidence)
                }
                None => GroundedResult::unverified(),
            }
        }
        QueryType::TraverseFiltered { start, depth, min_weight } => {
            match graph.traverse_filtered(start, depth, min_weight) {
                Some(artifact) => {
                    let confidence = compute_confidence(&artifact, graph);
                    GroundedResult::with_artifact(artifact, confidence)
                }
                None => GroundedResult::unverified(),
            }
        }
        QueryType::StrongestPath { start, end } => {
            match graph.strongest_path(start, end) {
                Some(path) => {
                    let confidence = compute_path_confidence(&path, graph);
                    let artifact = Artifact::with_path(path);
                    GroundedResult::with_artifact(artifact, confidence)
                }
                None => GroundedResult::unverified(),
            }
        }
        QueryType::Intersect(nodes) => {
            let common = graph.intersect(nodes.as_slice());
            if common.len() == 0 {
                proof {
                    assert forall|x: u64| !(#[trigger] common_neighbor(*graph, nodes@, x)) by {
                        if common_neighbor(*graph, nodes@, x) {
                            assert(crate::traversal::nid_in(common@, x));
                        }
                    }
                }
                GroundedResult::unverified()
            } else {
                let artifact = Artifact::with_path(common);
                let confidence = compute_confidence(&artifact, graph);
                proof {
                    assert forall|x: u64| #[trigger] id_in(artifact@.path, x)
                        <==> crate::traversal::nid_in(artifact.path@, x) by {
                        if id_in(artifact@.path, x) {
                            let i = choose|i: int| 0 <= i < artifact@.path.len() && artifact@.path[i] == x;
                            assert(artifact.path@[i].0 == x);
                        }
                        if crate::traversal::nid_in(artifact.path@, x) {
                            let i = choose|i: int| 0 <= i < artifact.path@.len() && artifact.path@[i].0 == x;
                            assert(artifact@.path[i] == x);
                        }
                    }
                }
                GroundedResult::with_artifact(artifact, confidence)
            }
        }
        QueryType::RelatedSubgraph { start, depth } => {
            match graph.related_subgraph(start, depth) {
                Some(artifact) => {
                    let confidence = compute_confidence(&artifact, graph);
                    GroundedResult::with_artifact(artifact, confidence)
                }
                None => GroundedResult::unverified(),
            }
        }
        QueryType::TraverseDfs { start, depth } => {
            match graph.traverse_dfs(start, depth) {
                Some(artifact) => {
                    let confidence = compute_confidence(&artifact, graph);
                    GroundedResult::with_artifact(artifact, confidence)
                }
                None => GroundedResult::unverified(),
            }
        }
    }
}

} // verus!
