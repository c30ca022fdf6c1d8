//! Query intents: the request shapes the grounding layer dispatches on.

use vstd::prelude::*;
use crate::primitives::{EdgeWeight, EntityId, NodeId};

verus! {

/// The kinds of structural question the engine answers.
#[derive(Debug, Clone)]
pub enum QueryType {
    /// Resolve an entity to its node.
    Lookup(EntityId),
    /// Bounded breadth-first traversal.
    Traverse { start: NodeId, depth: usize },
    /// Bounded traversal following only edges at or above a weight.
    TraverseFiltered { start: NodeId, depth: usize, min_weight: EdgeWeight },
    /// The maximum-total-weight path between two nodes.
    StrongestPath { start: NodeId, end: NodeId },
    /// The common out-neighbors of a node list.
    Intersect(Vec<NodeId>),
    /// The related subgraph around a node.
    RelatedSubgraph { start: NodeId, depth: usize },
    /// Bounded depth-first traversal.
    TraverseDfs { start: NodeId, depth: usize },
}

/// A query to verify against the graph.
#[derive(Debug, Clone)]
pub struct Query {
    pub query_type: QueryType,
}

impl Query {
    /// A lookup query.
    pub fn lookup(entity: EntityId) -> (r: Query)
        ensures
            r.query_type == QueryType::Lookup(entity),
    {
        Query { query_type: QueryType::Lookup(entity) }
    }

    /// A traversal query.
    pub fn traverse(start: NodeId, depth: usize) -> (r: Query)
        ensures
            r.query_type == (QueryType::Traverse { start, depth }),
    {
        Query { query_type: QueryType::Traverse { start, depth } }
    }

    /// A weight-filtered traversal query.
    pub fn traverse_filtered(start: NodeId, depth: usize, min_weight: EdgeWeight) -> (r: Query)
        ensures
            r.query_type == (QueryType::TraverseFiltered { start, depth, min_weight }),
    {
        Query { query_type: QueryType::TraverseFiltered { start, depth, min_weight } }
    }

    /// A strongest-path query.
    pub fn strongest_path(start: NodeId, end: NodeId) -> (r: Query)
        ensures
            r.query_type == (QueryType::StrongestPath { start, end }),
    {
        Query { query_type: QueryType::StrongestPath { start, end } }
    }

    /// An intersection query.
    pub fn intersect(nodes: Vec<NodeId>) -> (r: Query)
        ensures
            r.query_type == QueryType::Intersect(nodes),
    {
        Query { query_type: QueryType::Intersect(nodes) }
    }

    /// A related-subgraph query.
    pub fn related_subgraph(start: NodeId, depth: usize) -> (r: Query)
        ensures
            r.query_type == (QueryType::RelatedSubgraph { start, depth }),
    {
        Query { query_type: QueryType::RelatedSubgraph { start, depth } }
    }

    /// A depth-first traversal query.
    pub fn traverse_dfs(start: NodeId, depth: usize) -> (r: Query)
        ensures
            r.query_type == (QueryType::TraverseDfs { start, depth }),
    {
        Query { query_type: QueryType::TraverseDfs { start, depth } }
    }
}

} // verus!
