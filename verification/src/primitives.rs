//! Small value types used as keys and payloads throughout the engine:
//! identifiers, saturating edge weights, nodes, and the query-result artifact.

use vstd::prelude::*;

verus! {

/// Every traversal entry point caps the requested depth at this bound,
/// so no query can run to unbounded cost.
pub const MAX_TRAVERSAL_DEPTH: usize = 10;

/// Saturating increment on an unsigned 64-bit counter.
pub open spec fn sat_inc_u64(x: u64) -> u64 {
    if x == u64::MAX {
        x
    } else {
        (x + 1) as u64
    }
}

/// Saturating increment on a signed 64-bit value.
pub open spec fn sat_inc_i64(x: i64) -> i64 {
    if x == i64::MAX {
        x
    } else {
        (x + 1) as i64
    }
}

/// An external identifier supplied by signal producers. Signals carrying the
/// same `EntityId` always resolve to the same node.
#[derive(Debug, Clone, Copy, PartialEq, Eq, Hash, Structural)]
pub struct EntityId(pub u64);

/// An internal identifier, assigned monotonically by the graph and never
/// reused within a session.
#[derive(Debug, Clone, Copy, PartialEq, Eq, Hash, Structural)]
pub struct NodeId(pub u64);

/// A directed edge weight: a signed 64-bit integer that saturates instead of
/// overflowing. No floating point is used anywhere in the engine.
#[derive(Debug, Clone, Copy, PartialEq, Eq, Hash, Structural)]
pub struct EdgeWeight(pub i64);

impl EdgeWeight {
    /// Wrap a raw weight.
    pub fn new(w: i64) -> (r: EdgeWeight)
        ensures
            r.0 == w,
    {
        EdgeWeight(w)
    }

    /// The raw weight.
    pub fn value(self) -> (r: i64)
        ensures
            r == self.0,
    {
        self.0
    }

    /// Add one, saturating at `i64::MAX`.
    pub fn increment(self) -> (r: EdgeWeight)
        ensures
            r.0 == sat_inc_i64(self.0),
    {
        if self.0 == i64::MAX {
            self
        } else {
            EdgeWeight(self.0 + 1)
        }
    }
}

/// A graph node: an internal id paired with the external entity it stands for.
/// Created only by node insertion and never mutated afterwards.
#[derive(Debug, Clone, Copy, PartialEq, Eq, Structural)]
pub struct Node {
    pub id: NodeId,
    pub entity: EntityId,
}

impl Node {
    /// Pair an id with its entity.
    pub fn new(id: NodeId, entity: EntityId) -> (r: Node)
        ensures
            r.id == id && r.entity == entity,
    {
        Node { id, entity }
    }
}

/// Mathematical shape of an [`Artifact`]: the visited path and the examined
/// edge list, as plain sequences.
pub struct ArtifactModel {
    pub path: Seq<u64>,
    pub subgraph: Seq<(u64, u64, i64)>,
}

/// The uniform query-result container: an ordered node path plus the edge
/// subgraph examined while producing it. Produced fresh by every query and
/// never mutated afterwards.
#[derive(Debug, Clone, PartialEq, Eq)]
pub struct Artifact {
    pub path: Vec<NodeId>,
    pub subgraph: Vec<(NodeId, NodeId, EdgeWeight)>,
}

impl View for Artifact {
    type V = ArtifactModel;

    open spec fn view(&self) -> ArtifactModel {
        ArtifactModel {
            path: self.path@.map(|_i: int, n: NodeId| n.0),
            subgraph: self.subgraph@.map(|_i: int, e: (NodeId, NodeId, EdgeWeight)| (e.0.0, e.1.0, e.2.0)),
        }
    }
}

impl Artifact {
    /// An artifact holding only a node path.
    pub fn with_path(path: Vec<NodeId>) -> (r: Artifact)
        ensures
            r.path == path,
            r.subgraph@.len() == 0,
            r@.path == path@.map(|_i: int, n: NodeId| n.0),
            r@.subgraph == Seq::<(u64, u64, i64)>::empty(),
    {
        let r = Artifact { path, subgraph: Vec::new() };
        proof {
            assert(r@.subgraph =~= Seq::<(u64, u64, i64)>::empty());
        }
        r
    }

    /// An artifact holding a node path and the edges examined along it.
    pub fn with_subgraph(path: Vec<NodeId>, subgraph: Vec<(NodeId, NodeId, EdgeWeight)>) -> (r: Artifact)
        ensures
            r.path == path,
            r.subgraph == subgraph,
    {
        Artifact { path, subgraph }
    }
}

} // verus!
