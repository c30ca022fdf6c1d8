//! Confidence scoring: turning a query outcome into a 0–100 evidence
//! strength with a fixed verification threshold.
//!
//! The exact curve is a tunable policy, not a fixed contract; its pinned
//! boundary behaviour is: an empty result scores zero, a direct lookup
//! scores one hundred, the score grows monotonically with evidence (path
//! length and edge count), and `verified` is exactly "score at or above
//! the threshold". All arithmetic is small-integer and exact.

use vstd::prelude::*;
use crate::primitives::{Artifact, NodeId};
use crate::graph::Graph;

verus! {

/// A result is verified when its confidence reaches this score.
pub const VERIFICATION_THRESHOLD: u8 = 50;

/// A confidence assessment: the score plus the evidence extent it was
/// derived from. Computed once per query outcome, immutable afterwards.
#[derive(Debug, Clone, Copy, PartialEq, Eq, Structural)]
pub struct ConfidenceScore {
    /// Evidence strength, 0 to 100.
    pub score: u8,
    /// Number of evidence edges behind the score.
    pub edge_count: usize,
    /// Length of the evidence path behind the score.
    pub path_len: usize,
}

impl ConfidenceScore {
    /// The no-evidence score.
    pub fn zero() -> (r: ConfidenceScore)
        ensures
            r.score == 0,
            r.edge_count == 0,
            r.path_len == 0,
    {
        ConfidenceScore { score: 0, edge_count: 0, path_len: 0 }
    }

    /// A score clamped to 100, tagged with its evidence extent.
    pub fn new(score: u8, edge_count: usize, path_len: usize) -> (r: ConfidenceScore)
        ensures
            r.score == (if score > 100 { 100u8 } else { score }),
            r.edge_count == edge_count,
            r.path_len == path_len,
    {
        ConfidenceScore {
            score: if score > 100 { 100 } else { score },
            edge_count,
            path_len,
        }
    }

    /// Whether the score clears the fixed verification threshold.
    pub fn is_verified(&self) -> (r: bool)
        ensures
            r == (self.score >= VERIFICATION_THRESHOLD),
    {
        self.score >= VERIFICATION_THRESHOLD
    }
}

/// The scoring curve for traversal-shaped evidence: nothing scores zero;
/// any result starts at forty and earns ten per evidence edge (up to
/// three) and ten per path node (up to three).
pub open spec fn confidence_formula(path_len: nat, edges: nat) -> u8 {
    if path_len == 0 {
        0
    } else {
        (40 + 10 * (if edges < 3 { edges } else { 3 }) + 10 * (if path_len < 3 { path_len } else { 3 })) as u8
    }
}

/// The scoring curve for path-shaped evidence: nothing scores zero; a
/// found path starts at fifty and earns ten per hop, up to five.
pub open spec fn path_confidence_formula(path_len: nat) -> u8 {
    if path_len == 0 {
        0
    } else {
        (50 + 10 * (if path_len - 1 < 5 { path_len - 1 } else { 5 })) as u8
    }
}

/// Score a traversal-derived artifact against the graph it came from.
pub fn compute_confidence(artifact: &Artifact, graph: &Graph) -> (r: ConfidenceScore)
    ensures
        r.score == confidence_formula(artifact@.path.len(), artifact@.subgraph.len()),
        r.edge_count == artifact@.subgraph.len(),
        r.path_len == artifact@.path.len(),
{
    let path_len = artifact.path.len();
    let edges = artifact.subgraph.len();
    let score: u8 = if path_len == 0 {
        0
    } else {
        let e10: u8 = if edges < 3 { (10 * edges) as u8 } else { 30 };
        let p10: u8 = if path_len < 3 { (10 * path_len) as u8 } else { 30 };
        40 + e10 + p10
    };
    ConfidenceScore { score, edge_count: edges, path_len }
}

/// Score a strongest-path result against the graph it came from.
pub fn compute_path_confidence(path: &Vec<NodeId>, graph: &Graph) -> (r: ConfidenceScore)
    ensures
        r.score == path_confidence_formula(path@.len()),
        r.path_len == path@.len(),
        r.edge_count == (if path@.len() == 0 { 0int } else { path@.len() - 1 }),
{
    let path_len = path.len();
    let score: u8 = if path_len == 0 {
        0
    } else {
        let hops = path_len - 1;
        let h10: u8 = if hops < 5 { (10 * hops) as u8 } else { 50 };
        50 + h10
    };
    ConfidenceScore {
        score,
        edge_count: if path_len == 0 { 0 } else { path_len - 1 },
        path_len,
    }
}

/// The traversal curve is monotonic: more evidence never lowers the score.
pub proof fn lemma_confidence_monotonic(p1: nat, e1: nat, p2: nat, e2: nat)
    requires
        0 < p1 <= p2,
        e1 <= e2,
    ensures
        confidence_formula(p1, e1) <= confidence_formula(p2, e2),
        confidence_formula(p1, e1) >= VERIFICATION_THRESHOLD,
{
}

/// The path curve is monotonic, and any found path is verified.
pub proof fn lemma_path_confidence_monotonic(p1: nat, p2: nat)
    requires
        0 < p1 <= p2,
    ensures
        path_confidence_formula(p1) <= path_confidence_formula(p2),
        path_confidence_formula(p1) >= VERIFICATION_THRESHOLD,
{
}

} // verus!
