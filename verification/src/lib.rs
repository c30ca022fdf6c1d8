//! A deterministic graph engine: entity/attribute/value signals become nodes
//! and weighted directed edges, and bounded structural queries (traversal,
//! strongest path, intersection) answer with reproducible, order-independent
//! results. All collections iterate in sorted key order, all arithmetic
//! saturates, and no wall-clock time is ever read.

pub mod primitives;
pub mod sorted;
pub mod graph;
pub mod traversal;
pub mod strongest;
pub mod dfs;
pub mod export;
pub mod cache;
pub mod confidence;
pub mod query;
pub mod compositor;
pub mod grounding;
pub mod response;
pub mod protocol;
pub mod laws;

pub use primitives::{Artifact, ArtifactModel, EdgeWeight, EntityId, Node, NodeId, MAX_TRAVERSAL_DEPTH};
pub use graph::{Graph, GraphReadGuard, GraphStore};
pub use export::{CanonicalEdge, CanonicalGraph, CanonicalNode, SerializableGraph};
pub use cache::{node_cache, node_cache_with_size, traversal_cache, CacheEntry, CacheKey,
    CacheStats, LruCache, NodeCache, TraversalCache, TraversalCacheKey, DEFAULT_CACHE_SIZE,
    DEFAULT_EVICTION_BATCH};
pub use compositor::Compositor;
pub use confidence::{compute_confidence, compute_path_confidence, ConfidenceScore,
    VERIFICATION_THRESHOLD};
pub use query::{Query, QueryType};
pub use grounding::{verify_hypothesis, GroundedResult};
pub use response::{Fact, HonestResponse, Inference, Unknown};
pub use protocol::{Edge, HealthResponse, IngestResponse, QueryResponse, Signal, SignalError,
    StageResponse, StatusResponse};
