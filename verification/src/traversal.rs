//! Bounded breadth-first traversal and neighbor intersection.
//!
//! The executable walkers mirror, step for step, spec-level recursions over
//! the graph's sorted adjacency rows, so each result is pinned down exactly:
//! it is a function of graph content, the start node, the clamped depth and
//! the optional weight filter — nothing else.

use vstd::prelude::*;
use crate::primitives::{Artifact, ArtifactModel, EdgeWeight, NodeId, MAX_TRAVERSAL_DEPTH};
use crate::graph::Graph;
use crate::sorted::keys_sorted;

verus! {

/// Whether some queue entry carries the node id `x`.
pub open spec fn qid_in(q: Seq<(u64, usize)>, x: u64) -> bool {
    exists|i: int| 0 <= i < q.len() && q[i].0 == x
}

/// Whether a plain id sequence contains `x`.
pub open spec fn id_in(s: Seq<u64>, x: u64) -> bool {
    exists|i: int| 0 <= i < s.len() && s[i] == x
}

/// Whether a `NodeId` sequence contains the id `x`.
pub open spec fn nid_in(s: Seq<NodeId>, x: u64) -> bool {
    exists|i: int| 0 <= i < s.len() && s[i].0 == x
}

/// BFS queue sanity: every queued id is a node, and no id is queued twice
/// (nodes are marked visited at enqueue time).
pub open spec fn queue_ok(g: Graph, q: Seq<(u64, usize)>) -> bool {
    &&& (forall|i: int| 0 <= i < q.len() ==> g.has_node((#[trigger] q[i]).0))
    &&& (forall|i: int, j: int| 0 <= i < j < q.len() ==> q[i].0 != q[j].0)
}

/// Whether an edge of this weight passes the optional minimum-weight filter.
pub open spec fn filter_pass(filter: Option<i64>, w: i64) -> bool {
    match filter {
        Some(mw) => w >= mw,
        None => true,
    }
}

/// The ids carried by a queue, in order.
pub open spec fn queue_ids(q: Seq<(u64, usize)>) -> Seq<u64> {
    q.map(|_i: int, p: (u64, usize)| p.0)
}

/// Processing one adjacency row during BFS: record every passing edge, and
/// enqueue its target one level deeper unless it was already seen.
pub open spec fn bfs_row(
    src: u64,
    d: usize,
    row: Seq<(u64, i64)>,
    q: Seq<(u64, usize)>,
    es: Seq<(u64, u64, i64)>,
    filter: Option<i64>,
) -> (Seq<(u64, usize)>, Seq<(u64, u64, i64)>)
    decreases row.len(),
{
    if row.len() == 0 {
        (q, es)
    } else {
        let e = row.first();
        if filter_pass(filter, e.1) {
            let es2 = es.push((src, e.0, e.1));
            let q2 = if qid_in(q, e.0) {
                q
            } else {
                q.push((e.0, (d + 1) as usize))
            };
            bfs_row(src, d, row.drop_first(), q2, es2, filter)
        } else {
            bfs_row(src, d, row.drop_first(), q, es, filter)
        }
    }
}

/// A queue of distinct node ids can never be longer than the node table.
pub proof fn lemma_queue_len(g: Graph, q: Seq<(u64, usize)>)
    requires
        keys_sorted(g.nodes_view()),
        queue_ok(g, q),
    ensures
        q.len() <= g.node_count_spec(),
{
    broadcast use vstd::seq_lib::group_seq_properties;
    broadcast use vstd::set_lib::group_set_lib_default;

    let ids = queue_ids(q);
    assert(ids.no_duplicates()) by {
        assert(forall|i: int| 0 <= i < q.len() ==> ids[i] == q[i].0);
    }
    ids.unique_seq_to_set();
    let nk = g.nodes_view().map(|_i: int, p: (u64, u64)| p.0);
    assert(nk.no_duplicates()) by {
        assert(forall|i: int| 0 <= i < nk.len() ==> nk[i] == g.nodes_view()[i].0);
    }
    nk.unique_seq_to_set();
    assert(ids.to_set().subset_of(nk.to_set())) by {
        assert forall|x: u64| ids.to_set().contains(x) implies nk.to_set().contains(x) by {
            let i = choose|i: int| 0 <= i < ids.len() && ids[i] == x;
            assert(q[i].0 == x);
            assert(g.has_node(x));
            let m = choose|m: int| 0 <= m < g.nodes_view().len() && g.nodes_view()[m].0 == x;
            assert(nk[m] == x);
            assert(nk.contains(x));
        }
    }
    vstd::set_lib::lemma_len_subset(ids.to_set(), nk.to_set());
}

/// Row processing only appends to the queue and keeps it sane; appended
/// entries sit one level below their source.
pub proof fn lemma_bfs_row_ok(
    g: Graph,
    src: u64,
    d: usize,
    row: Seq<(u64, i64)>,
    q: Seq<(u64, usize)>,
    es: Seq<(u64, u64, i64)>,
    filter: Option<i64>,
    depth: usize,
)
    requires
        queue_ok(g, q),
        forall|j: int| 0 <= j < row.len() ==> g.has_node((#[trigger] row[j]).0),
        d < depth,
        forall|i: int| 0 <= i < q.len() ==> (#[trigger] q[i]).1 <= depth,
    ensures
        ({
            let (q2, es2) = bfs_row(src, d, row, q, es, filter);
            &&& queue_ok(g, q2)
            &&& q2.len() >= q.len()
            &&& (forall|m: int| 0 <= m < q.len() ==> q2[m] == q[m])
            &&& (forall|i: int| 0 <= i < q2.len() ==> (#[trigger] q2[i]).1 <= depth)
        }),
    decreases row.len(),
{
    if row.len() > 0 {
        let e = row.first();
        if filter_pass(filter, e.1) {
            let es2 = es.push((src, e.0, e.1));
            if qid_in(q, e.0) {
                lemma_bfs_row_ok(g, src, d, row.drop_first(), q, es2, filter, depth);
            } else {
                let q2 = q.push((e.0, (d + 1) as usize));
                assert(queue_ok(g, q2));
                lemma_bfs_row_ok(g, src, d, row.drop_first(), q2, es2, filter, depth);
            }
        } else {
            lemma_bfs_row_ok(g, src, d, row.drop_first(), q, es, filter, depth);
        }
    }
}

/// The whole BFS from position `qi` of the work queue: dequeue, expand the
/// node's sorted row unless its level reached the cap, and continue. The
/// final queue is the visitation order; the edge list holds every examined
/// edge.
pub open spec fn bfs_from(
    g: Graph,
    q: Seq<(u64, usize)>,
    qi: nat,
    es: Seq<(u64, u64, i64)>,
    depth: usize,
    filter: Option<i64>,
) -> (Seq<(u64, usize)>, Seq<(u64, u64, i64)>)
    decreases g.node_count_spec() + 1 - qi,
        when g.wf() && queue_ok(g, q) && qi <= q.len()
            && (forall|i: int| 0 <= i < q.len() ==> (#[trigger] q[i]).1 <= depth)
        via bfs_from_dec
{
    if qi >= q.len() {
        (q, es)
    } else {
        let n = q[qi as int].0;
        let d = q[qi as int].1;
        if d >= depth {
            bfs_from(g, q, qi + 1, es, depth, filter)
        } else {
            let (q2, es2) = bfs_row(n, d, g.neighbors_of(n), q, es, filter);
            bfs_from(g, q2, qi + 1, es2, depth, filter)
        }
    }
}

#[via_fn]
proof fn bfs_from_dec(
    g: Graph,
    q: Seq<(u64, usize)>,
    qi: nat,
    es: Seq<(u64, u64, i64)>,
    depth: usize,
    filter: Option<i64>,
) {
    lemma_queue_len(g, q);
    if qi < q.len() {
        let n = q[qi as int].0;
        let d = q[qi as int].1;
        if d < depth {
            g.lemma_neighbors_are_nodes(n);
            lemma_bfs_row_ok(g, n, d, g.neighbors_of(n), q, es, filter, depth);
            let (q2, es2) = bfs_row(n, d, g.neighbors_of(n), q, es, filter);
            lemma_queue_len(g, q2);
        }
    }
}

impl Graph {
    /// The depth actually walked: the request, capped at the fixed bound.
    pub open spec fn clamp_depth(depth: usize) -> usize {
        if depth > MAX_TRAVERSAL_DEPTH {
            MAX_TRAVERSAL_DEPTH
        } else {
            depth
        }
    }

    /// The exact result of a breadth-first walk from `start`: path in
    /// first-seen order, and every examined edge (including edges back into
    /// already-visited nodes) in examination order.
    pub open spec fn traverse_model(g: Graph, start: u64, depth: usize, filter: Option<i64>) -> ArtifactModel {
        let r = bfs_from(
            g,
            Seq::empty().push((start, 0usize)),
            0,
            Seq::empty(),
            Graph::clamp_depth(depth),
            filter,
        );
        ArtifactModel { path: queue_ids(r.0), subgraph: r.1 }
    }

    /// The shared BFS engine behind `traverse` and `traverse_filtered`.
    fn bfs_collect(&self, start: u64, depth: usize, filter: Option<i64>) -> (r: (Vec<u64>, Vec<(u64, u64, i64)>))
        requires
            self.wf(),
            self.has_node(start),
        ensures
            ({
                let m = bfs_from(*self, Seq::empty().push((start, 0usize)), 0, Seq::empty(), depth, filter);
                r.0@ == queue_ids(m.0) && r.1@ == m.1
            }),
    {
        let mut queue: Vec<(u64, usize)> = Vec::new();
        queue.push((start, 0));
        let mut qi: usize = 0;
        let mut path: Vec<u64> = Vec::new();
        let mut es: Vec<(u64, u64, i64)> = Vec::new();
        let ghost q0 = queue@;
        proof {
            assert(q0 =~= Seq::<(u64, usize)>::empty().push((start, 0usize)));
            assert(es@ =~= Seq::<(u64, u64, i64)>::empty());
            assert(path@ =~= queue_ids(queue@.take(0)));
        }
        while qi < queue.len()
            invariant
                self.wf(),
                queue_ok(*self, queue@),
                qi <= queue@.len(),
                forall|i: int| 0 <= i < queue@.len() ==> (#[trigger] queue@[i]).1 <= depth,
                path@ == queue_ids(queue@.take(qi as int)),
                bfs_from(*self, queue@, qi as nat, es@, depth, filter)
                    == bfs_from(*self, q0, 0, Seq::empty(), depth, filter),
            decreases self.node_count_spec() + 1 - qi,
        {
            proof {
                lemma_queue_len(*self, queue@);
            }
            let n = queue[qi].0;
            let d = queue[qi].1;
            path.push(n);
            proof {
                assert(path@ =~= queue_ids(queue@.take(qi as int + 1)));
            }
            if d < depth {
                let ghost q_in = queue@;
                let ghost es_in = es@;
                let row = self.row_of(n);
                proof {
                    self.lemma_neighbors_are_nodes(n);
                    assert(row@.skip(0) =~= row@);
                }
                let mut j: usize = 0;
                while j < row.len()
                    invariant
                        self.wf(),
                        row@ == self.neighbors_of(n),
                        forall|m: int| 0 <= m < row@.len() ==> self.has_node((#[trigger] row@[m]).0),
                        j <= row@.len(),
                        d < depth,
                        queue_ok(*self, queue@),
                        forall|i: int| 0 <= i < queue@.len() ==> (#[trigger] queue@[i]).1 <= depth,
                        queue@.len() >= q_in.len(),
                        forall|m: int| 0 <= m < q_in.len() ==> queue@[m] == q_in[m],
                        bfs_row(n, d, row@.skip(j as int), queue@, es@, filter)
                            == bfs_row(n, d, row@, q_in, es_in, filter),
                    decreases row@.len() - j,
                {
                    let t = row[j].0;
                    let w = row[j].1;
                    let ghost rest = row@.skip(j as int);
                    proof {
                        assert(rest.len() > 0);
                        assert(rest.first() == row@[j as int]);
                        assert(rest.drop_first() =~= row@.skip(j as int + 1));
                    }
                    let pass = match filter {
                        Some(mw) => w >= mw,
                        None => true,
                    };
                    if pass {
                        es.push((n, t, w));
                        if !queue_contains(&queue, t) {
                            queue.push((t, d + 1));
                        }
                    }
                    j = j + 1;
                }
                proof {
                    assert(row@.skip(row@.len() as int) =~= Seq::<(u64, i64)>::empty());
                    assert(bfs_row(n, d, row@.skip(row@.len() as int), queue@, es@, filter) == (queue@, es@));
                    assert(bfs_from(*self, q_in, qi as nat, es_in, depth, filter)
                        == bfs_from(*self, queue@, qi as nat + 1, es@, depth, filter));
                }
            } else {
                proof {
                    assert(bfs_from(*self, queue@, qi as nat, es@, depth, filter)
                        == bfs_from(*self, queue@, qi as nat + 1, es@, depth, filter));
                }
            }
            qi = qi + 1;
        }
        proof {
            assert(bfs_from(*self, queue@, qi as nat, es@, depth, filter) == (queue@, es@));
            assert(queue@.take(qi as int) =~= queue@);
        }
        (path, es)
    }

    /// Breadth-first traversal from `start`, depth capped at
    /// [`MAX_TRAVERSAL_DEPTH`]. `None` exactly when `start` does not exist;
    /// otherwise the artifact is exactly the breadth-first walk of the
    /// graph's sorted adjacency — path in first-seen order, subgraph holding
    /// every examined edge.
    pub fn traverse(&self, start: NodeId, depth: usize) -> (r: Option<Artifact>)
        requires
            self.wf(),
        ensures
            r is Some <==> self.has_node(start.0),
            r is Some ==> (r->Some_0)@.path == Graph::traverse_model(*self, start.0, depth, None).path
                && (r->Some_0)@.subgraph == Graph::traverse_model(*self, start.0, depth, None).subgraph,
    {
        self.traverse_opt_filter(start, depth, None)
    }

    /// Like `traverse`, but an edge is followed and recorded only when its
    /// weight is at least `min_weight`; nodes reachable only through
    /// sub-threshold edges are left out entirely.
    pub fn traverse_filtered(&self, start: NodeId, depth: usize, min_weight: EdgeWeight) -> (r: Option<Artifact>)
        requires
            self.wf(),
        ensures
            r is Some <==> self.has_node(start.0),
            r is Some ==> (r->Some_0)@.path
                == Graph::traverse_model(*self, start.0, depth, Some(min_weight.0)).path
                && (r->Some_0)@.subgraph
                    == Graph::traverse_model(*self, start.0, depth, Some(min_weight.0)).subgraph,
    {
        self.traverse_opt_filter(start, depth, Some(min_weight.0))
    }

    /// Traversal with an optional weight filter; the shared entry point.
    fn traverse_opt_filter(&self, start: NodeId, depth: usize, filter: Option<i64>) -> (r: Option<Artifact>)
        requires
            self.wf(),
        ensures
            r is Some <==> self.has_node(start.0),
            r is Some ==> (r->Some_0)@.path == Graph::traverse_model(*self, start.0, depth, filter).path
                && (r->Some_0)@.subgraph == Graph::traverse_model(*self, start.0, depth, filter).subgraph,
    {
        if !self.contains_node(start) {
            return None;
        }
        let bounded = if depth > MAX_TRAVERSAL_DEPTH {
            MAX_TRAVERSAL_DEPTH
        } else {
            depth
        };
        let (path, es) = self.bfs_collect(start.0, bounded, filter);
        let a = Artifact::with_subgraph(to_node_vec(&path), to_edge_vec(&es));
        proof {
            assert(a@.path =~= path@);
            assert(a@.subgraph =~= es@);
        }
        Some(a)
    }

    /// The related-subgraph query: the same bounded breadth-first walk as
    /// `traverse`, kept as a distinct named operation.
    pub fn related_subgraph(&self, start: NodeId, depth: usize) -> (r: Option<Artifact>)
        requires
            self.wf(),
        ensures
            r is Some <==> self.has_node(start.0),
            r is Some ==> (r->Some_0)@.path == Graph::traverse_model(*self, start.0, depth, None).path
                && (r->Some_0)@.subgraph == Graph::traverse_model(*self, start.0, depth, None).subgraph,
    {
        self.traverse(start, depth)
    }

    /// Traversal with the depth cap applied by the caller's hand: identical
    /// to `traverse`, which already clamps.
    pub fn traverse_bounded(&self, start: NodeId, depth: usize) -> (r: Option<Artifact>)
        requires
            self.wf(),
        ensures
            r is Some <==> self.has_node(start.0),
            r is Some ==> (r->Some_0)@.path == Graph::traverse_model(*self, start.0, depth, None).path
                && (r->Some_0)@.subgraph == Graph::traverse_model(*self, start.0, depth, None).subgraph,
    {
        let bounded = if depth > MAX_TRAVERSAL_DEPTH {
            MAX_TRAVERSAL_DEPTH
        } else {
            depth
        };
        let r = self.traverse(start, bounded);
        proof {
            assert(Graph::clamp_depth(bounded) == Graph::clamp_depth(depth));
        }
        r
    }

    /// The set of immediate out-neighbors common to every node of `nodes`:
    /// sorted ascending, and containing exactly the ids that every listed
    /// node points at. Empty when `nodes` is empty.
    pub fn intersect(&self, nodes: &[NodeId]) -> (r: Vec<NodeId>)
        requires
            self.wf(),
        ensures
            forall|i: int, j: int| 0 <= i < j < r@.len() ==> r@[i].0 < r@[j].0,
            forall|x: u64| #[trigger] nid_in(r@, x)
                <==> (nodes@.len() > 0
                    && forall|k: int| 0 <= k < nodes@.len() ==> self.has_edge((#[trigger] nodes@[k]).0, x)),
    {
        if nodes.len() == 0 {
            let r: Vec<NodeId> = Vec::new();
            proof {
                assert(forall|x: u64| !nid_in(r@, x));
            }
            return r;
        }
        let mut acc: Vec<u64> = self.neighbor_ids(nodes[0].0);
        let n = nodes.len();
        let mut k: usize = 1;
        while k < n
            invariant
                self.wf(),
                1 <= k <= n,
                n == nodes@.len(),
                forall|i: int, j: int| 0 <= i < j < acc@.len() ==> acc@[i] < acc@[j],
                forall|x: u64| #[trigger] id_in(acc@, x)
                    <==> (forall|m: int| 0 <= m < k ==> self.has_edge((#[trigger] nodes@[m]).0, x)),
            decreases n - k,
        {
            let row = self.neighbor_ids(nodes[k].0);
            acc = intersect_sorted(&acc, &row);
            k = k + 1;
        }
        let r = to_node_vec(&acc);
        proof {
            assert forall|x: u64| #[trigger] nid_in(r@, x) implies id_in(acc@, x) by {
                let i = choose|i: int| 0 <= i < r@.len() && r@[i].0 == x;
                assert(acc@[i] == x);
            }
            assert forall|x: u64| id_in(acc@, x) implies nid_in(r@, x) by {
                let i = choose|i: int| 0 <= i < acc@.len() && acc@[i] == x;
                assert(r@[i].0 == x);
            }
        }
        r
    }

    /// The sorted target ids of one node's out-edges.
    fn neighbor_ids(&self, n: u64) -> (r: Vec<u64>)
        requires
            self.wf(),
        ensures
            forall|i: int, j: int| 0 <= i < j < r@.len() ==> r@[i] < r@[j],
            forall|x: u64| #[trigger] id_in(r@, x) <==> self.has_edge(n, x),
    {
        let row = self.row_of(n);
        let mut r: Vec<u64> = Vec::new();
        let len = row.len();
        let mut i: usize = 0;
        while i < len
            invariant
                i <= len,
                len == row@.len(),
                row@ == self.neighbors_of(n),
                keys_sorted(row@),
                r@.len() == i,
                forall|m: int| 0 <= m < i ==> r@[m] == row@[m].0,
            decreases len - i,
        {
            r.push(row[i].0);
            i = i + 1;
        }
        proof {
            assert forall|x: u64| #[trigger] id_in(r@, x) implies self.has_edge(n, x) by {
                let m = choose|m: int| 0 <= m < r@.len() && r@[m] == x;
                assert(row@[m].0 == x);
            }
            assert forall|x: u64| self.has_edge(n, x) implies id_in(r@, x) by {
                let m = choose|m: int| 0 <= m < row@.len() && row@[m].0 == x;
                assert(r@[m] == x);
            }
        }
        r
    }
}

/// Whether the work queue already carries a node id.
fn queue_contains(q: &Vec<(u64, usize)>, x: u64) -> (r: bool)
    ensures
        r == qid_in(q@, x),
{
    let n = q.len();
    let mut i: usize = 0;
    while i < n
        invariant
            i <= n,
            n == q@.len(),
            forall|m: int| 0 <= m < i ==> q@[m].0 != x,
        decreases n - i,
    {
        if q[i].0 == x {
            return true;
        }
        i = i + 1;
    }
    false
}

/// Tag a plain id list with the `NodeId` wrapper.
pub(crate) fn to_node_vec(v: &Vec<u64>) -> (r: Vec<NodeId>)
    ensures
        r@.len() == v@.len(),
        forall|i: int| 0 <= i < r@.len() ==> #[trigger] r@[i] == NodeId(v@[i]),
{
    let mut r: Vec<NodeId> = Vec::new();
    let n = v.len();
    let mut i: usize = 0;
    while i < n
        invariant
            i <= n,
            n == v@.len(),
            r@.len() == i,
            forall|m: int| 0 <= m < i ==> #[trigger] r@[m] == NodeId(v@[m]),
        decreases n - i,
    {
        r.push(NodeId(v[i]));
        i = i + 1;
    }
    r
}

/// Tag a plain edge list with the `NodeId`/`EdgeWeight` wrappers.
pub(crate) fn to_edge_vec(v: &Vec<(u64, u64, i64)>) -> (r: Vec<(NodeId, NodeId, EdgeWeight)>)
    ensures
        r@.len() == v@.len(),
        forall|i: int| 0 <= i < r@.len()
            ==> #[trigger] r@[i] == (NodeId(v@[i].0), NodeId(v@[i].1), EdgeWeight(v@[i].2)),
{
    let mut r: Vec<(NodeId, NodeId, EdgeWeight)> = Vec::new();
    let n = v.len();
    let mut i: usize = 0;
    while i < n
        invariant
            i <= n,
            n == v@.len(),
            r@.len() == i,
            forall|m: int| 0 <= m < i
                ==> #[trigger] r@[m] == (NodeId(v@[m].0), NodeId(v@[m].1), EdgeWeight(v@[m].2)),
        decreases n - i,
    {
        r.push((NodeId(v[i].0), NodeId(v[i].1), EdgeWeight(v[i].2)));
        i = i + 1;
    }
    r
}

/// Intersection of two strictly ascending id lists: keeps order, keeps
/// exactly the common ids.
fn intersect_sorted(a: &Vec<u64>, b: &Vec<u64>) -> (r: Vec<u64>)
    requires
        forall|i: int, j: int| 0 <= i < j < a@.len() ==> a@[i] < a@[j],
    ensures
        forall|i: int, j: int| 0 <= i < j < r@.len() ==> r@[i] < r@[j],
        forall|x: u64| #[trigger] id_in(r@, x) <==> (id_in(a@, x) && id_in(b@, x)),
{
    let mut r: Vec<u64> = Vec::new();
    let n = a.len();
    let mut i: usize = 0;
    while i < n
        invariant
            i <= n,
            n == a@.len(),
            forall|p: int, q: int| 0 <= p < q < a@.len() ==> a@[p] < a@[q],
            forall|p: int, q: int| 0 <= p < q < r@.len() ==> r@[p] < r@[q],
            forall|p: int| 0 <= p < r@.len() ==> exists|m: int| 0 <= m < i && a@[m] == #[trigger] r@[p],
            forall|p: int| 0 <= p < r@.len() ==> id_in(b@, #[trigger] r@[p]),
            forall|m: int| 0 <= m < i && id_in(b@, #[trigger] a@[m]) ==> id_in(r@, a@[m]),
            forall|p: int| 0 <= p < r@.len() && i < a@.len() ==> #[trigger] r@[p] < a@[i as int],
        decreases n - i,
    {
        let ghost r_old = r@;
        let x = a[i];
        if contains_id_vec(b, x) {
            r.push(x);
        }
        proof {
            assert forall|m: int| 0 <= m <= i as int && id_in(b@, #[trigger] a@[m])
                implies id_in(r@, a@[m]) by {
                if m < i as int {
                    let p = choose|p: int| 0 <= p < r_old.len() && r_old[p] == a@[m];
                    assert(r@[p] == a@[m]);
                } else {
                    assert(a@[m] == x);
                    assert(r@[r@.len() - 1] == x);
                }
            }
            assert forall|p: int| 0 <= p < r@.len() && i as int + 1 < a@.len()
                implies #[trigger] r@[p] < a@[i as int + 1] by {
                if p < r_old.len() {
                    assert(r@[p] == r_old[p]);
                    assert(r_old[p] < a@[i as int]);
                } else {
                    assert(r@[p] == x);
                }
            }
            assert forall|p: int| 0 <= p < r@.len()
                implies exists|m: int| 0 <= m < i as int + 1 && a@[m] == #[trigger] r@[p] by {
                if p < r_old.len() {
                    let m = choose|m: int| 0 <= m < i as int && a@[m] == r_old[p];
                    assert(a@[m] == r@[p]);
                } else {
                    assert(a@[i as int] == r@[p]);
                }
            }
        }
        i = i + 1;
    }
    proof {
        assert forall|x: u64| #[trigger] id_in(r@, x) implies (id_in(a@, x) && id_in(b@, x)) by {
            let p = choose|p: int| 0 <= p < r@.len() && r@[p] == x;
            let m = choose|m: int| 0 <= m < i && a@[m] == r@[p];
            assert(a@[m] == x);
        }
        assert forall|x: u64| id_in(a@, x) && id_in(b@, x) implies id_in(r@, x) by {
            let m = choose|m: int| 0 <= m < a@.len() && a@[m] == x;
        }
    }
    r
}

/// Linear membership test on a plain id list.
pub(crate) fn contains_id_vec(v: &Vec<u64>, x: u64) -> (r: bool)
    ensures
        r == id_in(v@, x),
{
    let n = v.len();
    let mut i: usize = 0;
    while i < n
        invariant
            i <= n,
            n == v@.len(),
            forall|m: int| 0 <= m < i ==> v@[m] != x,
        decreases n - i,
    {
        if v[i] == x {
            return true;
        }
        i = i + 1;
    }
    false
}

/// The breadth-first work queue only grows, keeps its processed prefix
/// unchanged, and stays sane throughout the walk.
pub proof fn lemma_bfs_from_props(
    g: Graph,
    q: Seq<(u64, usize)>,
    qi: nat,
    es: Seq<(u64, u64, i64)>,
    depth: usize,
    filter: Option<i64>,
)
    requires
        g.wf(),
        queue_ok(g, q),
        qi <= q.len(),
        forall|i: int| 0 <= i < q.len() ==> (#[trigger] q[i]).1 <= depth,
    ensures
        ({
            let r = bfs_from(g, q, qi, es, depth, filter);
            &&& queue_ok(g, r.0)
            &&& r.0.len() >= q.len()
            &&& (forall|m: int| 0 <= m < q.len() ==> r.0[m] == q[m])
        }),
    decreases g.node_count_spec() + 1 - qi,
{
    lemma_queue_len(g, q);
    if qi < q.len() {
        let n = q[qi as int].0;
        let d = q[qi as int].1;
        if d >= depth {
            lemma_bfs_from_props(g, q, qi + 1, es, depth, filter);
        } else {
            g.lemma_neighbors_are_nodes(n);
            lemma_bfs_row_ok(g, n, d, g.neighbors_of(n), q, es, filter, depth);
            let r2 = bfs_row(n, d, g.neighbors_of(n), q, es, filter);
            lemma_bfs_from_props(g, r2.0, qi + 1, r2.1, depth, filter);
        }
    }
}

/// The shape of every breadth-first result: it starts at the start node,
/// visits only nodes of the graph, and visits each node at most once —
/// nodes are marked visited at enqueue time, so none is ever queued twice.
pub proof fn lemma_traverse_path_shape(g: Graph, start: u64, depth: usize, filter: Option<i64>)
    requires
        g.wf(),
        g.has_node(start),
    ensures
        ({
            let m = Graph::traverse_model(g, start, depth, filter);
            &&& m.path.len() >= 1
            &&& m.path[0] == start
            &&& (forall|i: int| 0 <= i < m.path.len() ==> g.has_node(#[trigger] m.path[i]))
            &&& (forall|i: int, j: int| 0 <= i < j < m.path.len() ==> m.path[i] != m.path[j])
        }),
{
    let q0 = Seq::<(u64, usize)>::empty().push((start, 0usize));
    let bounded = Graph::clamp_depth(depth);
    assert(queue_ok(g, q0));
    lemma_bfs_from_props(g, q0, 0, Seq::empty(), bounded, filter);
    let r = bfs_from(g, q0, 0, Seq::empty(), bounded, filter);
    let ids = queue_ids(r.0);
    assert(forall|i: int| 0 <= i < ids.len() ==> #[trigger] ids[i] == r.0[i].0);
    assert(r.0[0] == (start, 0usize));
}

/// A traversal asked for any depth past the fixed bound walks exactly as
/// deep as the bound: the depth cap is a hard structural guarantee, not a
/// suggestion.
pub proof fn lemma_traverse_depth_bound(g: Graph, start: u64, depth: usize, filter: Option<i64>)
    requires
        depth >= MAX_TRAVERSAL_DEPTH,
    ensures
        Graph::traverse_model(g, start, depth, filter)
            == Graph::traverse_model(g, start, MAX_TRAVERSAL_DEPTH, filter),
{
}

} // verus!
