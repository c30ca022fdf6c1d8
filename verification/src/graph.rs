//! The deterministic graph store.
//!
//! Three sorted mappings — node table (`NodeId` to entity), adjacency
//! (`NodeId` to a sorted row of `(target, weight)` pairs), and the reverse
//! entity index — plus the monotone next-id counter. Sorted storage makes
//! every iteration order a function of graph content alone.

use vstd::prelude::*;
use crate::primitives::{Artifact, EdgeWeight, EntityId, Node, NodeId, sat_inc_i64, sat_inc_u64};
use crate::sorted::{as_map, find_idx, has_key, key_idx, keys_sorted, lemma_idx_unique, set_kv, val_of};

verus! {

/// Edges of one adjacency row, tagged with their source id.
pub open spec fn row_edges(f: u64, row: Seq<(u64, i64)>) -> Seq<(u64, u64, i64)> {
    row.map(|_i: int, e: (u64, i64)| (f, e.0, e.1))
}

/// All edges of an adjacency structure, flattened in storage order:
/// sorted by source, then by target.
pub open spec fn flat_edges(s: Seq<(u64, Vec<(u64, i64)>)>) -> Seq<(u64, u64, i64)>
    decreases s.len(),
{
    if s.len() == 0 {
        Seq::empty()
    } else {
        flat_edges(s.drop_last()) + row_edges(s.last().0, s.last().1@)
    }
}

/// Total number of stored edges.
pub open spec fn adj_total(s: Seq<(u64, Vec<(u64, i64)>)>) -> nat
    decreases s.len(),
{
    if s.len() == 0 {
        0
    } else {
        adj_total(s.drop_last()) + s.last().1@.len()
    }
}

/// The graph store: adjacency structure, entity index, and next-id counter.
pub struct Graph {
    /// Node table: id to entity, sorted by id.
    nodes: Vec<(u64, u64)>,
    /// Adjacency: source id to its sorted `(target, weight)` row, sorted by source.
    adj: Vec<(u64, Vec<(u64, i64)>)>,
    /// Reverse index: entity to node id, sorted by entity.
    index: Vec<(u64, u64)>,
    /// Next node id to assign; advances saturating, never reused.
    next_node_id: u64,
}

impl Graph {
    /// The node table as a sorted sequence of `(id, entity)` pairs.
    pub closed spec fn nodes_view(self) -> Seq<(u64, u64)> {
        self.nodes@
    }

    /// The entity index as a sorted sequence of `(entity, id)` pairs.
    pub closed spec fn index_view(self) -> Seq<(u64, u64)> {
        self.index@
    }

    /// The raw adjacency rows.
    pub closed spec fn adj_raw(self) -> Seq<(u64, Vec<(u64, i64)>)> {
        self.adj@
    }

    /// The next node id the store would assign.
    pub closed spec fn next_id(self) -> u64 {
        self.next_node_id
    }

    /// Whether a node with this id exists.
    pub open spec fn has_node(self, id: u64) -> bool {
        has_key(self.nodes_view(), id)
    }

    /// The entity a node stands for.
    pub open spec fn entity_of(self, id: u64) -> u64 {
        val_of(self.nodes_view(), id)
    }

    /// Whether some node stands for this entity.
    pub open spec fn has_entity(self, e: u64) -> bool {
        has_key(self.index_view(), e)
    }

    /// The node id registered for an entity.
    pub open spec fn id_of_entity(self, e: u64) -> u64 {
        val_of(self.index_view(), e)
    }

    /// The outgoing edge row of a node, sorted by target id; empty when the
    /// node has no row.
    pub open spec fn neighbors_of(self, n: u64) -> Seq<(u64, i64)> {
        if has_key(self.adj_raw(), n) {
            val_of(self.adj_raw(), n)@
        } else {
            Seq::empty()
        }
    }

    /// Whether the directed edge `f -> t` exists.
    pub open spec fn has_edge(self, f: u64, t: u64) -> bool {
        has_key(self.neighbors_of(f), t)
    }

    /// The weight of the directed edge `f -> t`.
    pub open spec fn edge_val(self, f: u64, t: u64) -> i64 {
        val_of(self.neighbors_of(f), t)
    }

    /// Number of nodes.
    pub open spec fn node_count_spec(self) -> nat {
        self.nodes_view().len()
    }

    /// Number of edges.
    pub open spec fn edge_total(self) -> nat {
        adj_total(self.adj_raw())
    }

    /// All edges in deterministic order: sorted by source, then target.
    pub open spec fn edges_view(self) -> Seq<(u64, u64, i64)> {
        flat_edges(self.adj_raw())
    }

    /// Well-formedness: all three mappings sorted, every adjacency row
    /// sorted, every edge endpoint an existing node, every indexed entity
    /// resolving to an existing node, and all ids below the next-id counter
    /// (until the counter saturates).
    pub open spec fn wf(self) -> bool {
        &&& keys_sorted(self.nodes_view())
        &&& keys_sorted(self.index_view())
        &&& keys_sorted(self.adj_raw())
        &&& (forall|i: int| 0 <= i < self.adj_raw().len() ==> keys_sorted(#[trigger] self.adj_raw()[i].1@))
        &&& (forall|i: int| 0 <= i < self.adj_raw().len() ==> self.has_node(#[trigger] self.adj_raw()[i].0))
        &&& (forall|i: int, j: int|
            0 <= i < self.adj_raw().len() && 0 <= j < self.adj_raw()[i].1@.len()
                ==> self.has_node(#[trigger] self.adj_raw()[i].1@[j].0))
        &&& (forall|i: int| 0 <= i < self.adj_raw().len() ==> (#[trigger] self.adj_raw()[i].1@).len() > 0)
        &&& (forall|i: int| 0 <= i < self.index_view().len() ==> self.has_node(#[trigger] self.index_view()[i].1))
        &&& (self.next_id() != u64::MAX
            ==> forall|i: int| 0 <= i < self.nodes_view().len() ==> (#[trigger] self.nodes_view()[i].0) < self.next_id())
    }

    /// What `insert_node` does: return the registered id when the entity is
    /// already mapped, otherwise allocate the next id and register it in the
    /// node table and the entity index.
    pub open spec fn step_insert_node(pre: Graph, e: u64, post: Graph, r: u64) -> bool {
        if pre.has_entity(e) {
            post == pre && r == pre.id_of_entity(e)
        } else {
            &&& r == pre.next_id()
            &&& as_map(post.nodes_view()) == as_map(pre.nodes_view()).insert(r, e)
            &&& as_map(post.index_view()) == as_map(pre.index_view()).insert(e, r)
            &&& post.has_node(r) && post.entity_of(r) == e
            &&& post.has_entity(e) && post.id_of_entity(e) == r
            &&& (forall|q: u64| #[trigger] post.has_node(q) <==> (q == r || pre.has_node(q)))
            &&& (forall|q: u64| q != r && pre.has_node(q) ==> #[trigger] post.entity_of(q) == pre.entity_of(q))
            &&& (forall|q: u64| #[trigger] post.has_entity(q) <==> (q == e || pre.has_entity(q)))
            &&& post.node_count_spec() == pre.node_count_spec() + (if pre.has_node(r) { 0int } else { 1int })
            &&& post.adj_raw() == pre.adj_raw()
            &&& post.next_id() == sat_inc_u64(pre.next_id())
        }
    }

    /// What an edge write does to the adjacency: the written row holds the
    /// new binding, every other row is untouched, and nothing else changes.
    pub open spec fn step_set_edge(pre: Graph, f: u64, t: u64, w: i64, post: Graph) -> bool {
        &&& post.nodes_view() == pre.nodes_view()
        &&& post.index_view() == pre.index_view()
        &&& post.next_id() == pre.next_id()
        &&& (forall|x: u64| x != f ==> post.neighbors_of(x) == pre.neighbors_of(x))
        &&& as_map(post.neighbors_of(f)) == as_map(pre.neighbors_of(f)).insert(t, w)
        &&& post.has_edge(f, t) && post.edge_val(f, t) == w
        &&& post.neighbors_of(f).len() == pre.neighbors_of(f).len() + (if pre.has_edge(f, t) { 0int } else { 1int })
        &&& post.edge_total() == pre.edge_total() + (if pre.has_edge(f, t) { 0int } else { 1int })
    }

    /// What `insert_edge` does: replace the weight of `f -> t` when both
    /// endpoints exist, and do nothing at all otherwise.
    pub open spec fn step_insert_edge(pre: Graph, f: u64, t: u64, w: i64, post: Graph) -> bool {
        if pre.has_node(f) && pre.has_node(t) {
            Graph::step_set_edge(pre, f, t, w, post)
        } else {
            post == pre
        }
    }

    /// What `increment_edge` does: add one (saturating) to the current
    /// weight, or create the edge with weight one, when both endpoints
    /// exist; nothing otherwise.
    pub open spec fn step_increment_edge(pre: Graph, f: u64, t: u64, post: Graph) -> bool {
        if pre.has_node(f) && pre.has_node(t) {
            Graph::step_set_edge(
                pre,
                f,
                t,
                sat_inc_i64(if pre.has_edge(f, t) { pre.edge_val(f, t) } else { 0 }),
                post,
            )
        } else {
            post == pre
        }
    }

    /// What `import_node` does: register the node under its original id,
    /// remap its entity, and advance the counter past the imported id.
    pub open spec fn step_import_node(pre: Graph, id: u64, e: u64, post: Graph) -> bool {
        &&& as_map(post.nodes_view()) == as_map(pre.nodes_view()).insert(id, e)
        &&& as_map(post.index_view()) == as_map(pre.index_view()).insert(e, id)
        &&& post.has_node(id) && post.entity_of(id) == e
        &&& (forall|q: u64| #[trigger] post.has_node(q) <==> (q == id || pre.has_node(q)))
        &&& post.node_count_spec() == pre.node_count_spec() + (if pre.has_node(id) { 0int } else { 1int })
        &&& post.adj_raw() == pre.adj_raw()
        &&& post.next_id() == (if id >= pre.next_id() { sat_inc_u64(id) } else { pre.next_id() })
    }

    /// Create a new empty graph.
    pub fn new() -> (r: Graph)
        ensures
            r.wf(),
            r.nodes_view() == Seq::<(u64, u64)>::empty(),
            r.index_view() == Seq::<(u64, u64)>::empty(),
            r.adj_raw() == Seq::<(u64, Vec<(u64, i64)>)>::empty(),
            r.next_id() == 0,
    {
        let r = Graph { nodes: Vec::new(), adj: Vec::new(), index: Vec::new(), next_node_id: 0 };
        proof {
            assert(r.nodes_view() =~= Seq::<(u64, u64)>::empty());
            assert(r.index_view() =~= Seq::<(u64, u64)>::empty());
            assert(r.adj_raw() =~= Seq::<(u64, Vec<(u64, i64)>)>::empty());
        }
        r
    }

    /// Insert a node for `entity`, idempotently per entity: the same entity
    /// always resolves to the same node id.
    pub fn insert_node(&mut self, entity: EntityId) -> (r: NodeId)
        requires
            old(self).wf(),
        ensures
            final(self).wf(),
            Graph::step_insert_node(*old(self), entity.0, *final(self), r.0),
            final(self).has_node(r.0),
            final(self).has_entity(entity.0),
            final(self).id_of_entity(entity.0) == r.0,
    {
        let ghost pre = *self;
        match find_idx(&self.index, entity.0) {
            Some(i) => {
                let id = self.index[i].1;
                proof {
                    lemma_idx_unique(pre.index_view(), entity.0, i as int);
                    let w = key_idx(pre.index_view(), entity.0);
                    assert(pre.index_view()[w].1 == id);
                    assert(pre.has_node(id));
                    lemma_idx_unique(pre.nodes_view(), id, key_idx(pre.nodes_view(), id));
                }
                NodeId(id)
            }
            None => {
                let id = self.next_node_id;
                set_kv(&mut self.nodes, id, entity.0);
                set_kv(&mut self.index, entity.0, id);
                if self.next_node_id != u64::MAX {
                    self.next_node_id = self.next_node_id + 1;
                }
                proof {
                    lemma_idx_unique(self.index_view(), entity.0, key_idx(self.index_view(), entity.0));
                    lemma_idx_unique(self.nodes_view(), id, key_idx(self.nodes_view(), id));
                    assert(self.wf()) by {
                        assert(forall|i: int| 0 <= i < self.adj_raw().len()
                            ==> self.has_node(#[trigger] self.adj_raw()[i].0));
                        assert(forall|i: int, j: int|
                            0 <= i < self.adj_raw().len() && 0 <= j < self.adj_raw()[i].1@.len()
                                ==> self.has_node(#[trigger] self.adj_raw()[i].1@[j].0));
                        if self.next_id() != u64::MAX {
                            assert forall|i: int| 0 <= i < self.nodes_view().len()
                                implies (#[trigger] self.nodes_view()[i].0) < self.next_id() by {
                                let q = self.nodes_view()[i].0;
                                assert(has_key(self.nodes_view(), q));
                                lemma_idx_unique(self.nodes_view(), q, i);
                                if q != id {
                                    assert(has_key(pre.nodes_view(), q));
                                    let m = key_idx(pre.nodes_view(), q);
                                    assert(pre.nodes_view()[m].0 == q);
                                }
                            }
                        }
                    }
                }
                NodeId(id)
            }
        }
    }

    /// Write the binding `t -> w` into the row of `f`, creating the row if
    /// absent. Callers have checked that `f` and `t` are nodes.
    fn set_edge_raw(&mut self, f: u64, t: u64, w: i64)
        requires
            old(self).wf(),
            old(self).has_node(f),
            old(self).has_node(t),
        ensures
            final(self).wf(),
            Graph::step_set_edge(*old(self), f, t, w, *final(self)),
    {
        let ghost pre = *self;
        match find_idx(&self.adj, f) {
            Some(i) => {
                let (key, mut row) = self.adj.remove(i);
                proof {
                    lemma_idx_unique(pre.adj_raw(), f, i as int);
                    assert(row@ == pre.neighbors_of(f));
                }
                set_kv(&mut row, t, w);
                let ghost newrow = row;
                self.adj.insert(i, (key, row));
                proof {
                    assert(self.adj_raw() =~= pre.adj_raw().update(i as int, (f, newrow)));
                    assert(keys_sorted(self.adj_raw()));
                    lemma_idx_unique(self.adj_raw(), f, i as int);
                    assert(self.neighbors_of(f) == newrow@);
                    assert(has_key(newrow@, t) && val_of(newrow@, t) == w);
                    assert(self.has_edge(f, t) && self.edge_val(f, t) == w);
                    assert forall|x: u64| x != f implies self.neighbors_of(x) == pre.neighbors_of(x) by {
                        if has_key(self.adj_raw(), x) {
                            let m = key_idx(self.adj_raw(), x);
                            lemma_idx_unique(self.adj_raw(), x, m);
                            assert(pre.adj_raw()[m].0 == x);
                            lemma_idx_unique(pre.adj_raw(), x, m);
                        } else {
                            if has_key(pre.adj_raw(), x) {
                                let m = key_idx(pre.adj_raw(), x);
                                assert(self.adj_raw()[m].0 == x);
                            }
                        }
                    }
                    assert(pre.has_edge(f, t) == has_key(pre.neighbors_of(f), t));
                    lemma_adj_total_update(pre.adj_raw(), i as int, (f, newrow));
                    assert(self.wf()) by {
                        assert(forall|m: int| 0 <= m < self.adj_raw().len() && m != i
                            ==> self.adj_raw()[m] == pre.adj_raw()[m]);
                    }
                }
            }
            None => {
                let mut row: Vec<(u64, i64)> = Vec::new();
                row.push((t, w));
                let ghost newrow = row;
                set_kv(&mut self.adj, f, row);
                proof {
                    assert(pre.neighbors_of(f) =~= Seq::<(u64, i64)>::empty());
                    assert(!pre.has_edge(f, t));
                    lemma_idx_unique(self.adj_raw(), f, key_idx(self.adj_raw(), f));
                    assert(self.neighbors_of(f) == newrow@);
                    assert(newrow@ =~= Seq::<(u64, i64)>::empty().push((t, w)));
                    lemma_idx_unique(newrow@, t, 0);
                    assert(self.has_edge(f, t) && self.edge_val(f, t) == w);
                    assert(as_map(self.neighbors_of(f)) =~= as_map(pre.neighbors_of(f)).insert(t, w)) by {
                        assert(keys_sorted(newrow@));
                        lemma_idx_unique(newrow@, t, 0);
                        assert forall|q: u64| has_key(newrow@, q) implies q == t by {
                            let m = key_idx(newrow@, q);
                            assert(m == 0);
                        }
                        assert forall|q: u64| !has_key(pre.neighbors_of(f), q) by {}
                    }
                    assert forall|x: u64| x != f implies self.neighbors_of(x) == pre.neighbors_of(x) by {
                        if has_key(self.adj_raw(), x) {
                            let m = key_idx(self.adj_raw(), x);
                            lemma_idx_unique(self.adj_raw(), x, m);
                            assert(has_key(pre.adj_raw(), x));
                            let m2 = key_idx(pre.adj_raw(), x);
                            lemma_idx_unique(pre.adj_raw(), x, m2);
                            assert(val_of(self.adj_raw(), x) == val_of(pre.adj_raw(), x));
                        } else {
                            assert(!has_key(pre.adj_raw(), x));
                        }
                    }
                    lemma_adj_total_set(pre.adj_raw(), self.adj_raw(), f, newrow);
                    assert(self.wf()) by {
                        assert forall|m: int| 0 <= m < self.adj_raw().len()
                            implies keys_sorted(#[trigger] self.adj_raw()[m].1@)
                                && self.has_node(self.adj_raw()[m].0)
                                && (forall|j: int| 0 <= j < self.adj_raw()[m].1@.len()
                                    ==> self.has_node(#[trigger] self.adj_raw()[m].1@[j].0)) by {
                            let x = self.adj_raw()[m].0;
                            lemma_idx_unique(self.adj_raw(), x, m);
                            if x != f {
                                assert(has_key(pre.adj_raw(), x));
                                let m2 = key_idx(pre.adj_raw(), x);
                                lemma_idx_unique(pre.adj_raw(), x, m2);
                                assert(self.adj_raw()[m].1 == val_of(pre.adj_raw(), x));
                                assert(pre.adj_raw()[m2].1 == val_of(pre.adj_raw(), x));
                            } else {
                                assert(self.adj_raw()[m].1 == newrow);
                            }
                        }
                    }
                }
            }
        }
    }

    /// Insert or replace the edge `from -> to` with the given weight.
    /// A silent no-op when either endpoint is absent.
    pub fn insert_edge(&mut self, from: NodeId, to: NodeId, weight: EdgeWeight)
        requires
            old(self).wf(),
        ensures
            final(self).wf(),
            Graph::step_insert_edge(*old(self), from.0, to.0, weight.0, *final(self)),
    {
        if self.contains_node(from) && self.contains_node(to) {
            self.set_edge_raw(from.0, to.0, weight.0);
        }
    }

    /// Add one to the weight of `from -> to` (saturating at `i64::MAX`),
    /// creating the edge with weight one when absent. A silent no-op when
    /// either endpoint is absent.
    pub fn increment_edge(&mut self, from: NodeId, to: NodeId)
        requires
            old(self).wf(),
        ensures
            final(self).wf(),
            Graph::step_increment_edge(*old(self), from.0, to.0, *final(self)),
    {
        if self.contains_node(from) && self.contains_node(to) {
            let current = match self.get_edge(from, to) {
                Some(w) => w.0,
                None => 0,
            };
            let bumped = if current == i64::MAX {
                current
            } else {
                current + 1
            };
            self.set_edge_raw(from.0, to.0, bumped);
        }
    }

    /// Look a node up by id.
    pub fn lookup(&self, id: NodeId) -> (r: Option<Node>)
        requires
            self.wf(),
        ensures
            r == (if self.has_node(id.0) {
                Some(Node { id, entity: EntityId(self.entity_of(id.0)) })
            } else {
                None::<Node>
            }),
    {
        match find_idx(&self.nodes, id.0) {
            Some(i) => {
                proof {
                    lemma_idx_unique(self.nodes_view(), id.0, i as int);
                }
                Some(Node { id, entity: EntityId(self.nodes[i].1) })
            }
            None => None,
        }
    }

    /// Look the node id up that stands for an entity.
    pub fn get_node_by_entity(&self, entity: EntityId) -> (r: Option<NodeId>)
        requires
            self.wf(),
        ensures
            r == (if self.has_entity(entity.0) {
                Some(NodeId(self.id_of_entity(entity.0)))
            } else {
                None::<NodeId>
            }),
            r is Some ==> self.has_node(r->Some_0.0),
    {
        match find_idx(&self.index, entity.0) {
            Some(i) => {
                proof {
                    lemma_idx_unique(self.index_view(), entity.0, i as int);
                }
                Some(NodeId(self.index[i].1))
            }
            None => None,
        }
    }

    /// The weight of the edge `from -> to`, if it exists.
    pub fn get_edge(&self, from: NodeId, to: NodeId) -> (r: Option<EdgeWeight>)
        requires
            self.wf(),
        ensures
            r == (if self.has_edge(from.0, to.0) {
                Some(EdgeWeight(self.edge_val(from.0, to.0)))
            } else {
                None::<EdgeWeight>
            }),
    {
        match find_idx(&self.adj, from.0) {
            Some(i) => {
                proof {
                    lemma_idx_unique(self.adj_raw(), from.0, i as int);
                }
                match find_idx(&self.adj[i].1, to.0) {
                    Some(j) => {
                        proof {
                            lemma_idx_unique(self.neighbors_of(from.0), to.0, j as int);
                        }
                        Some(EdgeWeight(self.adj[i].1[j].1))
                    }
                    None => None,
                }
            }
            None => {
                proof {
                    assert(self.neighbors_of(from.0) =~= Seq::<(u64, i64)>::empty());
                }
                None
            }
        }
    }

    /// Whether the graph contains a node with this id.
    pub fn contains_node(&self, id: NodeId) -> (r: bool)
        ensures
            r == self.has_node(id.0),
    {
        find_idx(&self.nodes, id.0).is_some()
    }

    /// Whether the graph contains the directed edge `from -> to`.
    pub fn contains_edge(&self, from: NodeId, to: NodeId) -> (r: bool)
        requires
            self.wf(),
        ensures
            r == self.has_edge(from.0, to.0),
    {
        self.get_edge(from, to).is_some()
    }

    /// The outgoing neighbors of a node, as `(target, weight)` pairs sorted
    /// by target id — the ordering every algorithm and export relies on.
    pub fn neighbors(&self, node: NodeId) -> (r: Vec<(NodeId, EdgeWeight)>)
        requires
            self.wf(),
        ensures
            r@.len() == self.neighbors_of(node.0).len(),
            forall|i: int| 0 <= i < r@.len()
                ==> #[trigger] r@[i] == (NodeId(self.neighbors_of(node.0)[i].0), EdgeWeight(self.neighbors_of(node.0)[i].1)),
            forall|i: int, j: int| 0 <= i < j < r@.len() ==> r@[i].0.0 < r@[j].0.0,
    {
        let mut r: Vec<(NodeId, EdgeWeight)> = Vec::new();
        match find_idx(&self.adj, node.0) {
            Some(i) => {
                proof {
                    lemma_idx_unique(self.adj_raw(), node.0, i as int);
                }
                let row = &self.adj[i].1;
                let n = row.len();
                let mut j: usize = 0;
                while j < n
                    invariant
                        j <= n,
                        n == row@.len(),
                        row@ == self.neighbors_of(node.0),
                        keys_sorted(row@),
                        r@.len() == j,
                        forall|m: int| 0 <= m < j
                            ==> #[trigger] r@[m] == (NodeId(row@[m].0), EdgeWeight(row@[m].1)),
                    decreases n - j,
                {
                    r.push((NodeId(row[j].0), EdgeWeight(row[j].1)));
                    j = j + 1;
                }
            }
            None => {
                proof {
                    assert(self.neighbors_of(node.0) =~= Seq::<(u64, i64)>::empty());
                }
            }
        }
        r
    }

    /// The raw `(target, weight)` row of a node, as a fresh vector.
    pub(crate) fn row_of(&self, n: u64) -> (r: Vec<(u64, i64)>)
        requires
            self.wf(),
        ensures
            r@ == self.neighbors_of(n),
            keys_sorted(r@),
    {
        let mut r: Vec<(u64, i64)> = Vec::new();
        match find_idx(&self.adj, n) {
            Some(i) => {
                proof {
                    lemma_idx_unique(self.adj_raw(), n, i as int);
                }
                let row = &self.adj[i].1;
                let len = row.len();
                let mut j: usize = 0;
                while j < len
                    invariant
                        j <= len,
                        len == row@.len(),
                        r@ == row@.take(j as int),
                    decreases len - j,
                {
                    r.push(row[j]);
                    proof {
                        assert(r@ =~= row@.take(j as int + 1));
                    }
                    j = j + 1;
                }
                proof {
                    assert(row@.take(len as int) =~= row@);
                }
            }
            None => {
                proof {
                    assert(self.neighbors_of(n) =~= Seq::<(u64, i64)>::empty());
                    assert(r@ =~= Seq::<(u64, i64)>::empty());
                }
            }
        }
        r
    }

    /// Every target in any adjacency row is an existing node.
    pub proof fn lemma_neighbors_are_nodes(&self, n: u64)
        requires
            self.wf(),
        ensures
            forall|j: int| 0 <= j < self.neighbors_of(n).len()
                ==> self.has_node((#[trigger] self.neighbors_of(n)[j]).0),
    {
        if has_key(self.adj_raw(), n) {
            let i = key_idx(self.adj_raw(), n);
            assert(0 <= i < self.adj_raw().len() && self.adj_raw()[i].0 == n);
            assert(self.neighbors_of(n) == self.adj_raw()[i].1@);
        }
    }

    /// Number of nodes, in constant time.
    pub fn node_count(&self) -> (r: usize)
        ensures
            r == self.node_count_spec(),
    {
        self.nodes.len()
    }

    /// Number of edges, summed with saturating arithmetic.
    pub fn edge_count(&self) -> (r: usize)
        ensures
            r == (if self.edge_total() <= usize::MAX { self.edge_total() as int } else { usize::MAX as int }),
    {
        let n = self.adj.len();
        let mut total: usize = 0;
        let mut i: usize = 0;
        while i < n
            invariant
                i <= n,
                n == self.adj_raw().len(),
                total == (if adj_total(self.adj_raw().take(i as int)) <= usize::MAX {
                    adj_total(self.adj_raw().take(i as int)) as int
                } else {
                    usize::MAX as int
                }),
            decreases n - i,
        {
            proof {
                lemma_adj_total_take(self.adj_raw(), i as int);
            }
            let row_len = self.adj[i].1.len();
            if total > usize::MAX - row_len {
                total = usize::MAX;
            } else {
                total = total + row_len;
            }
            i = i + 1;
        }
        proof {
            assert(self.adj_raw().take(n as int) =~= self.adj_raw());
        }
        total
    }

    /// The next node id the store would assign.
    pub fn next_node_id(&self) -> (r: u64)
        ensures
            r == self.next_id(),
    {
        self.next_node_id
    }

    /// Import a node under its original id, remapping its entity and
    /// advancing the next-id counter past the imported id.
    pub fn import_node(&mut self, node: Node)
        requires
            old(self).wf(),
        ensures
            final(self).wf(),
            Graph::step_import_node(*old(self), node.id.0, node.entity.0, *final(self)),
    {
        let ghost pre = *self;
        if node.id.0 >= self.next_node_id {
            self.next_node_id = if node.id.0 == u64::MAX {
                u64::MAX
            } else {
                node.id.0 + 1
            };
        }
        set_kv(&mut self.index, node.entity.0, node.id.0);
        set_kv(&mut self.nodes, node.id.0, node.entity.0);
        proof {
            assert(self.wf()) by {
                assert(forall|i: int| 0 <= i < self.adj_raw().len()
                    ==> self.has_node(#[trigger] self.adj_raw()[i].0));
                assert(forall|i: int, j: int|
                    0 <= i < self.adj_raw().len() && 0 <= j < self.adj_raw()[i].1@.len()
                        ==> self.has_node(#[trigger] self.adj_raw()[i].1@[j].0));
                if self.next_id() != u64::MAX {
                    assert forall|i: int| 0 <= i < self.nodes_view().len()
                        implies (#[trigger] self.nodes_view()[i].0) < self.next_id() by {
                        let q = self.nodes_view()[i].0;
                        lemma_idx_unique(self.nodes_view(), q, i);
                        if q != node.id.0 {
                            assert(has_key(pre.nodes_view(), q));
                            let m = key_idx(pre.nodes_view(), q);
                            assert(pre.nodes_view()[m].0 == q);
                        }
                    }
                }
            }
        }
    }
}

impl Graph {
    /// All nodes, sorted by id — the deterministic export order.
    pub fn nodes(&self) -> (r: Vec<Node>)
        ensures
            r@.len() == self.nodes_view().len(),
            forall|i: int| 0 <= i < r@.len()
                ==> #[trigger] r@[i] == (Node {
                    id: NodeId(self.nodes_view()[i].0),
                    entity: EntityId(self.nodes_view()[i].1),
                }),
    {
        let mut r: Vec<Node> = Vec::new();
        let n = self.nodes.len();
        let mut i: usize = 0;
        while i < n
            invariant
                i <= n,
                n == self.nodes_view().len(),
                r@.len() == i,
                forall|m: int| 0 <= m < i
                    ==> #[trigger] r@[m] == (Node {
                        id: NodeId(self.nodes_view()[m].0),
                        entity: EntityId(self.nodes_view()[m].1),
                    }),
            decreases n - i,
        {
            r.push(Node { id: NodeId(self.nodes[i].0), entity: EntityId(self.nodes[i].1) });
            i = i + 1;
        }
        r
    }

    /// All edges, sorted by source then target — the deterministic export
    /// order, a function of graph content alone.
    pub fn edges(&self) -> (r: Vec<(NodeId, NodeId, EdgeWeight)>)
        ensures
            r@.len() == self.edges_view().len(),
            forall|i: int| 0 <= i < r@.len()
                ==> #[trigger] r@[i] == (NodeId(self.edges_view()[i].0),
                    NodeId(self.edges_view()[i].1), EdgeWeight(self.edges_view()[i].2)),
    {
        let mut acc: Vec<(u64, u64, i64)> = Vec::new();
        let n = self.adj.len();
        let mut i: usize = 0;
        proof {
            assert(acc@ =~= flat_edges(self.adj_raw().take(0)));
        }
        while i < n
            invariant
                i <= n,
                n == self.adj_raw().len(),
                acc@ == flat_edges(self.adj_raw().take(i as int)),
            decreases n - i,
        {
            let ghost outer_acc = acc@;
            let f = self.adj[i].0;
            let row = &self.adj[i].1;
            let rn = row.len();
            let mut j: usize = 0;
            proof {
                assert(row_edges(f, row@.take(0)) =~= Seq::<(u64, u64, i64)>::empty());
                assert(acc@ =~= outer_acc + row_edges(f, row@.take(0)));
            }
            while j < rn
                invariant
                    j <= rn,
                    rn == row@.len(),
                    acc@ == outer_acc + row_edges(f, row@.take(j as int)),
                decreases rn - j,
            {
                acc.push((f, row[j].0, row[j].1));
                proof {
                    assert(row_edges(f, row@.take(j as int + 1))
                        =~= row_edges(f, row@.take(j as int)).push((f, row@[j as int].0, row@[j as int].1)));
                    assert(acc@ =~= outer_acc + row_edges(f, row@.take(j as int + 1)));
                }
                j = j + 1;
            }
            proof {
                assert(row@.take(rn as int) =~= row@);
                assert(self.adj_raw().take(i as int + 1).drop_last() =~= self.adj_raw().take(i as int));
                assert(self.adj_raw().take(i as int + 1).last() == self.adj_raw()[i as int]);
                assert(acc@ =~= flat_edges(self.adj_raw().take(i as int + 1)));
            }
            i = i + 1;
        }
        proof {
            assert(self.adj_raw().take(n as int) =~= self.adj_raw());
        }
        let r = crate::traversal::to_edge_vec(&acc);
        proof {
            assert forall|i: int| 0 <= i < r@.len()
                implies #[trigger] r@[i] == (NodeId(self.edges_view()[i].0),
                    NodeId(self.edges_view()[i].1), EdgeWeight(self.edges_view()[i].2)) by {
                assert(acc@[i] == self.edges_view()[i]);
            }
        }
        r
    }

    /// Raise the next-id counter to at least `floor`, leaving everything
    /// else untouched.
    pub(crate) fn raise_next_id(&mut self, floor: u64)
        requires
            old(self).wf(),
        ensures
            final(self).wf(),
            final(self).nodes_view() == old(self).nodes_view(),
            final(self).index_view() == old(self).index_view(),
            final(self).adj_raw() == old(self).adj_raw(),
            final(self).next_id() == (if floor >= old(self).next_id() { floor } else { old(self).next_id() }),
    {
        if floor > self.next_node_id {
            self.next_node_id = floor;
        }
    }

    /// Acquire a read guard over the graph, for atomic, tear-free
    /// serialization: while the guard lives, the borrow checker keeps every
    /// mutating method unreachable.
    pub fn acquire_read_lock(&self) -> (r: GraphReadGuard<'_>)
        requires
            self.wf(),
        ensures
            r.view_graph() == *self,
    {
        GraphReadGuard { graph: self }
    }
}

/// An immutable borrow of the whole graph, held for the duration of an
/// export or snapshot so that no mutation can interleave.
pub struct GraphReadGuard<'a> {
    graph: &'a Graph,
}

impl<'a> GraphReadGuard<'a> {
    /// The graph the guard pins.
    pub closed spec fn view_graph(self) -> Graph {
        *self.graph
    }

    /// The underlying graph reference.
    pub fn graph(&self) -> (r: &'a Graph)
        ensures
            *r == self.view_graph(),
    {
        self.graph
    }

    /// Number of nodes of the guarded graph.
    pub fn node_count(&self) -> (r: usize)
        ensures
            r == self.view_graph().node_count_spec(),
    {
        self.graph.node_count()
    }

    /// Number of edges of the guarded graph, saturating.
    pub fn edge_count(&self) -> (r: usize)
        ensures
            r == (if self.view_graph().edge_total() <= usize::MAX {
                self.view_graph().edge_total() as int
            } else {
                usize::MAX as int
            }),
    {
        self.graph.edge_count()
    }
}

/// The storage-backend contract: the operation set every graph store
/// offers, over an implementation-chosen invariant. The in-memory [`Graph`]
/// carries the exact per-operation contracts on its inherent methods.
pub trait GraphStore {
    /// The backend's well-formedness invariant.
    spec fn inv(&self) -> bool;

    /// Insert a node for the entity, idempotently per entity.
    fn insert_node(&mut self, entity: EntityId) -> (r: NodeId)
        requires
            old(self).inv(),
        ensures
            final(self).inv(),
    ;

    /// Insert or replace an edge; no-op when an endpoint is absent.
    fn insert_edge(&mut self, from: NodeId, to: NodeId, weight: EdgeWeight)
        requires
            old(self).inv(),
        ensures
            final(self).inv(),
    ;

    /// Add one to an edge's weight, saturating; create it when absent.
    fn increment_edge(&mut self, from: NodeId, to: NodeId)
        requires
            old(self).inv(),
        ensures
            final(self).inv(),
    ;

    /// Look a node up by id.
    fn lookup(&self, id: NodeId) -> Option<Node>
        requires
            self.inv(),
    ;

    /// Look a node id up by entity.
    fn get_node_by_entity(&self, entity: EntityId) -> Option<NodeId>
        requires
            self.inv(),
    ;

    /// The weight of an edge, if present.
    fn get_edge(&self, from: NodeId, to: NodeId) -> Option<EdgeWeight>
        requires
            self.inv(),
    ;

    /// Outgoing neighbors, sorted by target id.
    fn neighbors(&self, node: NodeId) -> Vec<(NodeId, EdgeWeight)>
        requires
            self.inv(),
    ;

    /// Bounded breadth-first traversal.
    fn traverse(&self, start: NodeId, depth: usize) -> Option<Artifact>
        requires
            self.inv(),
    ;

    /// Bounded traversal following only edges at or above a weight.
    fn traverse_filtered(&self, start: NodeId, depth: usize, min_weight: EdgeWeight) -> Option<Artifact>
        requires
            self.inv(),
    ;

    /// Common out-neighbors of all given nodes.
    fn intersect(&self, nodes: &[NodeId]) -> Vec<NodeId>
        requires
            self.inv(),
    ;

    /// The maximum-total-weight path between two nodes.
    fn strongest_path(&self, start: NodeId, end: NodeId) -> Option<Vec<NodeId>>
        requires
            self.inv(),
    ;

    /// A related subgraph around a node.
    fn related_subgraph(&self, start: NodeId, depth: usize) -> Option<Artifact>
        requires
            self.inv(),
    ;

    /// Number of nodes.
    fn node_count(&self) -> usize
        requires
            self.inv(),
    ;

    /// Number of edges.
    fn edge_count(&self) -> usize
        requires
            self.inv(),
    ;

    /// A read guard for atomic snapshots.
    fn acquire_read_lock<'a>(&'a self) -> GraphReadGuard<'a>
        requires
            self.inv(),
    ;
}

impl GraphStore for Graph {
    open spec fn inv(&self) -> bool {
        self.wf()
    }

    fn insert_node(&mut self, entity: EntityId) -> NodeId {
        Graph::insert_node(self, entity)
    }

    fn insert_edge(&mut self, from: NodeId, to: NodeId, weight: EdgeWeight) {
        Graph::insert_edge(self, from, to, weight)
    }

    fn increment_edge(&mut self, from: NodeId, to: NodeId) {
        Graph::increment_edge(self, from, to)
    }

    fn lookup(&self, id: NodeId) -> Option<Node> {
        Graph::lookup(self, id)
    }

    fn get_node_by_entity(&self, entity: EntityId) -> Option<NodeId> {
        Graph::get_node_by_entity(self, entity)
    }

    fn get_edge(&self, from: NodeId, to: NodeId) -> Option<EdgeWeight> {
        Graph::get_edge(self, from, to)
    }

    fn neighbors(&self, node: NodeId) -> Vec<(NodeId, EdgeWeight)> {
        Graph::neighbors(self, node)
    }

    fn traverse(&self, start: NodeId, depth: usize) -> Option<Artifact> {
        Graph::traverse(self, start, depth)
    }

    fn traverse_filtered(&self, start: NodeId, depth: usize, min_weight: EdgeWeight) -> Option<Artifact> {
        Graph::traverse_filtered(self, start, depth, min_weight)
    }

    fn intersect(&self, nodes: &[NodeId]) -> Vec<NodeId> {
        Graph::intersect(self, nodes)
    }

    fn strongest_path(&self, start: NodeId, end: NodeId) -> Option<Vec<NodeId>> {
        Graph::strongest_path(self, start, end)
    }

    fn related_subgraph(&self, start: NodeId, depth: usize) -> Option<Artifact> {
        Graph::related_subgraph(self, start, depth)
    }

    fn node_count(&self) -> usize {
        Graph::node_count(self)
    }

    fn edge_count(&self) -> usize {
        Graph::edge_count(self)
    }

    fn acquire_read_lock<'a>(&'a self) -> GraphReadGuard<'a> {
        Graph::acquire_read_lock(self)
    }
}

/// Replacing one row changes the edge total by that row's length change.
proof fn lemma_adj_total_update(s: Seq<(u64, Vec<(u64, i64)>)>, i: int, p: (u64, Vec<(u64, i64)>))
    requires
        0 <= i < s.len(),
    ensures
        adj_total(s.update(i, p)) == adj_total(s) - s[i].1@.len() + p.1@.len(),
    decreases s.len(),
{
    if s.len() > 0 {
        if i == s.len() - 1 {
            assert(s.update(i, p).drop_last() =~= s.drop_last());
        } else {
            assert(s.update(i, p).drop_last() =~= s.drop_last().update(i, p));
            lemma_adj_total_update(s.drop_last(), i, p);
        }
    }
}

/// Inserting one new row adds that row's length to the edge total.
proof fn lemma_adj_total_insert(s: Seq<(u64, Vec<(u64, i64)>)>, i: int, p: (u64, Vec<(u64, i64)>))
    requires
        0 <= i <= s.len(),
    ensures
        adj_total(s.insert(i, p)) == adj_total(s) + p.1@.len(),
    decreases s.len(),
{
    if i == s.len() {
        assert(s.insert(i, p).drop_last() =~= s);
    } else {
        assert(s.insert(i, p).drop_last() =~= s.drop_last().insert(i, p));
        lemma_adj_total_insert(s.drop_last(), i, p);
    }
}

/// Edge-total bookkeeping for `set_kv` on the adjacency vector: the new row
/// replaces an empty binding, so the total grows by the new row's length.
proof fn lemma_adj_total_set(
    pre: Seq<(u64, Vec<(u64, i64)>)>,
    post: Seq<(u64, Vec<(u64, i64)>)>,
    f: u64,
    row: Vec<(u64, i64)>,
)
    requires
        !has_key(pre, f),
        post.len() == pre.len() + 1,
        exists|i: int| 0 <= i <= pre.len() && post == pre.insert(i, (f, row)),
    ensures
        adj_total(post) == adj_total(pre) + row@.len(),
{
    let i = choose|i: int| 0 <= i <= pre.len() && post == pre.insert(i, (f, row));
    lemma_adj_total_insert(pre, i, (f, row));
}

/// One step of the edge-count sum: taking one more row adds its length.
proof fn lemma_adj_total_take(s: Seq<(u64, Vec<(u64, i64)>)>, i: int)
    requires
        0 <= i < s.len(),
    ensures
        adj_total(s.take(i + 1)) == adj_total(s.take(i)) + s[i].1@.len(),
{
    assert(s.take(i + 1).drop_last() =~= s.take(i));
    assert(s.take(i + 1).last() == s[i]);
}

} // verus!
