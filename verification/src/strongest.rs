//! The strongest-path search: a Dijkstra variant where following an edge of
//! weight `w` costs `i64::MAX - max(w, 0)`, so that maximizing total weight
//! is minimizing total cost. Negative weights are clamped to zero for cost
//! purposes, keeping every cost non-negative.
//!
//! The executable search mirrors a spec-level recursion over the graph, so
//! the returned path is pinned down exactly — including the deterministic
//! tie-break: among equally distant candidates the smallest node id is
//! expanded first, matching iteration in sorted key order.

use vstd::prelude::*;
use crate::primitives::NodeId;
use crate::graph::Graph;
use crate::sorted::{as_map, find_idx, has_key, keys_sorted, key_idx, lemma_idx_unique, set_kv};
use crate::traversal::{contains_id_vec, to_node_vec};

verus! {

/// Saturating addition on signed 64-bit values.
pub open spec fn sat_add_i64(a: i64, b: i64) -> i64 {
    if a + b > i64::MAX {
        i64::MAX
    } else if a + b < i64::MIN {
        i64::MIN
    } else {
        (a + b) as i64
    }
}

/// The cost of following an edge of weight `w`: `i64::MAX` minus the weight
/// clamped to be non-negative.
pub open spec fn edge_cost(w: i64) -> i64 {
    (i64::MAX - (if w < 0 { 0int } else { w as int })) as i64
}

/// The set of ids that are nodes of `g`.
pub open spec fn node_key_set(g: Graph) -> Set<u64> {
    Set::new(|x: u64| g.has_node(x))
}

/// The node-id set is finite, with exactly one member per table row.
pub proof fn lemma_node_key_set(g: Graph)
    requires
        keys_sorted(g.nodes_view()),
    ensures
        node_key_set(g).finite(),
        node_key_set(g).len() == g.node_count_spec(),
{
    broadcast use vstd::seq_lib::group_seq_properties;

    let nk = g.nodes_view().map(|_i: int, p: (u64, u64)| p.0);
    assert(nk.no_duplicates()) by {
        assert(forall|i: int| 0 <= i < nk.len() ==> nk[i] == g.nodes_view()[i].0);
    }
    nk.unique_seq_to_set();
    assert(node_key_set(g) =~= nk.to_set()) by {
        assert forall|x: u64| node_key_set(g).contains(x) implies nk.to_set().contains(x) by {
            let m = choose|m: int| 0 <= m < g.nodes_view().len() && g.nodes_view()[m].0 == x;
            assert(nk[m] == x);
        }
        assert forall|x: u64| nk.to_set().contains(x) implies node_key_set(g).contains(x) by {
            let m = choose|m: int| 0 <= m < nk.len() && nk[m] == x;
            assert(g.nodes_view()[m].0 == x);
        }
    }
}

/// `c` is the node the search expands next: an unvisited entry of the
/// distance table whose `(distance, id)` pair is lexicographically least —
/// the deterministic tie-break of iteration in sorted key order.
pub open spec fn is_sel(distm: Map<u64, i64>, visited: Set<u64>, c: u64) -> bool {
    &&& distm.dom().contains(c)
    &&& !visited.contains(c)
    &&& forall|q: u64| distm.dom().contains(q) && !visited.contains(q)
        ==> (distm[c] < #[trigger] distm[q] || (distm[c] == distm[q] && c <= q))
}

/// At most one id satisfies `is_sel`.
pub proof fn lemma_sel_unique(distm: Map<u64, i64>, visited: Set<u64>, c1: u64, c2: u64)
    requires
        is_sel(distm, visited, c1),
        is_sel(distm, visited, c2),
    ensures
        c1 == c2,
{
    assert(distm[c1] < distm[c2] || (distm[c1] == distm[c2] && c1 <= c2));
    assert(distm[c2] < distm[c1] || (distm[c2] == distm[c1] && c2 <= c1));
}

/// Relaxing one adjacency row: for each unvisited target, if reaching it
/// through the expanded node is strictly cheaper than its current distance
/// (or it has none), record the new distance and predecessor.
pub open spec fn relax_row(
    cur: u64,
    cur_d: i64,
    row: Seq<(u64, i64)>,
    visited: Set<u64>,
    distm: Map<u64, i64>,
    prevm: Map<u64, u64>,
) -> (Map<u64, i64>, Map<u64, u64>)
    decreases row.len(),
{
    if row.len() == 0 {
        (distm, prevm)
    } else {
        let e = row.first();
        if visited.contains(e.0) {
            relax_row(cur, cur_d, row.drop_first(), visited, distm, prevm)
        } else {
            let nd = sat_add_i64(cur_d, edge_cost(e.1));
            if !distm.dom().contains(e.0) || nd < distm[e.0] {
                relax_row(cur, cur_d, row.drop_first(), visited, distm.insert(e.0, nd), prevm.insert(e.0, cur))
            } else {
                relax_row(cur, cur_d, row.drop_first(), visited, distm, prevm)
            }
        }
    }
}

/// Relaxation only ever adds row targets to the distance table.
pub proof fn lemma_relax_dom(
    g: Graph,
    cur: u64,
    cur_d: i64,
    row: Seq<(u64, i64)>,
    visited: Set<u64>,
    distm: Map<u64, i64>,
    prevm: Map<u64, u64>,
)
    requires
        distm.dom().subset_of(node_key_set(g)),
        forall|j: int| 0 <= j < row.len() ==> g.has_node((#[trigger] row[j]).0),
    ensures
        relax_row(cur, cur_d, row, visited, distm, prevm).0.dom().subset_of(node_key_set(g)),
    decreases row.len(),
{
    if row.len() > 0 {
        let e = row.first();
        if visited.contains(e.0) {
            lemma_relax_dom(g, cur, cur_d, row.drop_first(), visited, distm, prevm);
        } else {
            let nd = sat_add_i64(cur_d, edge_cost(e.1));
            if !distm.dom().contains(e.0) || nd < distm[e.0] {
                lemma_relax_dom(g, cur, cur_d, row.drop_first(), visited, distm.insert(e.0, nd), prevm.insert(e.0, cur));
            } else {
                lemma_relax_dom(g, cur, cur_d, row.drop_first(), visited, distm, prevm);
            }
        }
    }
}

/// The search loop: expand the least `(distance, id)` unvisited entry,
/// stop when it is the destination or when nothing expandable is left.
pub open spec fn dijkstra_loop(
    g: Graph,
    end: u64,
    distm: Map<u64, i64>,
    prevm: Map<u64, u64>,
    visited: Set<u64>,
) -> (Map<u64, i64>, Map<u64, u64>)
    decreases g.node_count_spec() + 1 - visited.len(),
        when g.wf() && visited.finite() && visited.subset_of(node_key_set(g))
            && distm.dom().subset_of(node_key_set(g))
        via dijkstra_loop_dec
{
    if exists|c: u64| is_sel(distm, visited, c) {
        let cur = choose|c: u64| is_sel(distm, visited, c);
        if cur == end {
            (distm, prevm)
        } else {
            let r = relax_row(cur, distm[cur], g.neighbors_of(cur), visited, distm, prevm);
            dijkstra_loop(g, end, r.0, r.1, visited.insert(cur))
        }
    } else {
        (distm, prevm)
    }
}

#[via_fn]
proof fn dijkstra_loop_dec(
    g: Graph,
    end: u64,
    distm: Map<u64, i64>,
    prevm: Map<u64, u64>,
    visited: Set<u64>,
) {
    lemma_node_key_set(g);
    vstd::set_lib::lemma_len_subset(visited, node_key_set(g));
    if exists|c: u64| is_sel(distm, visited, c) {
        let cur = choose|c: u64| is_sel(distm, visited, c);
        if cur != end {
            g.lemma_neighbors_are_nodes(cur);
            lemma_relax_dom(g, cur, distm[cur], g.neighbors_of(cur), visited, distm, prevm);
            vstd::set_lib::lemma_len_subset(visited.insert(cur), node_key_set(g));
        }
    }
}

/// Walking the predecessor table back from `cur` to `start`, with enough
/// fuel for any cycle-free walk; `None` when the chain breaks or the fuel
/// runs out (which a predecessor table produced by the search never does).
pub open spec fn walk_prev(prevm: Map<u64, u64>, start: u64, cur: u64, fuel: nat) -> Option<Seq<u64>>
    decreases fuel,
{
    if cur == start {
        Some(Seq::empty().push(start))
    } else if fuel == 0 {
        None
    } else if prevm.dom().contains(cur) {
        match walk_prev(prevm, start, prevm[cur], (fuel - 1) as nat) {
            Some(p) => Some(p.push(cur)),
            None => None,
        }
    } else {
        None
    }
}

/// A successful predecessor walk is a path from `start` to `cur`.
pub proof fn lemma_walk_prev_shape(prevm: Map<u64, u64>, start: u64, cur: u64, fuel: nat)
    requires
        walk_prev(prevm, start, cur, fuel) is Some,
    ensures
        ({
            let p = walk_prev(prevm, start, cur, fuel)->Some_0;
            p.len() >= 1 && p[0] == start && p.last() == cur
        }),
    decreases fuel,
{
    if cur != start && fuel > 0 && prevm.dom().contains(cur) {
        lemma_walk_prev_shape(prevm, start, prevm[cur], (fuel - 1) as nat);
    }
}

impl Graph {
    /// The exact outcome of the strongest-path search: `None` when either
    /// endpoint is missing or the destination was never reached, the
    /// trivial one-node path when the endpoints coincide, and otherwise the
    /// predecessor walk of the deterministic search.
    pub open spec fn strongest_path_model(g: Graph, start: u64, end: u64) -> Option<Seq<u64>> {
        if !g.has_node(start) || !g.has_node(end) {
            None
        } else if start == end {
            Some(Seq::empty().push(start))
        } else {
            let r = dijkstra_loop(g, end, Map::empty().insert(start, 0), Map::empty(), Set::empty());
            if r.1.dom().contains(end) {
                walk_prev(r.1, start, end, g.node_count_spec())
            } else {
                None
            }
        }
    }

    /// Find the path from `start` to `end` that maximizes total edge weight,
    /// by cost-minimizing search with deterministic smallest-id tie-break.
    pub fn strongest_path(&self, start: NodeId, end: NodeId) -> (r: Option<Vec<NodeId>>)
        requires
            self.wf(),
        ensures
            ({
                let m = Graph::strongest_path_model(*self, start.0, end.0);
                match r {
                    None => m is None,
                    Some(p) => m is Some && p@.map(|_i: int, n: NodeId| n.0) == m->Some_0,
                }
            }),
    {
        if !self.contains_node(start) || !self.contains_node(end) {
            return None;
        }
        if start.0 == end.0 {
            let mut p: Vec<NodeId> = Vec::new();
            p.push(NodeId(start.0));
            proof {
                assert(p@.map(|_i: int, n: NodeId| n.0) =~= Seq::<u64>::empty().push(start.0));
            }
            return Some(p);
        }

        let mut dist: Vec<(u64, i64)> = Vec::new();
        let mut prev: Vec<(u64, u64)> = Vec::new();
        let mut visited: Vec<u64> = Vec::new();
        set_kv(&mut dist, start.0, 0);
        let ghost dist0 = as_map(dist@);
        let ghost prev0 = as_map(prev@);
        proof {
            assert(as_map(prev@) =~= Map::<u64, u64>::empty());
            assert(dist0 =~= Map::<u64, i64>::empty().insert(start.0, 0));
            assert(visited@.to_set() =~= Set::<u64>::empty());
            assert(has_key(dist@, start.0));
        }

        loop
            invariant
                self.wf(),
                self.has_node(start.0),
                self.has_node(end.0),
                keys_sorted(dist@),
                keys_sorted(prev@),
                visited@.no_duplicates(),
                forall|i: int| 0 <= i < dist@.len() ==> self.has_node((#[trigger] dist@[i]).0),
                forall|i: int| 0 <= i < visited@.len() ==> self.has_node(#[trigger] visited@[i]),
                dijkstra_loop(*self, end.0, as_map(dist@), as_map(prev@), visited@.to_set())
                    == dijkstra_loop(*self, end.0, dist0, prev0, Set::empty()),
            ensures
                dijkstra_loop(*self, end.0, dist0, prev0, Set::empty())
                    == (as_map(dist@), as_map(prev@)),
            decreases self.node_count_spec() + 1 - visited@.len(),
        {
            proof {
                lemma_vec_set_subset(*self, visited@);
                lemma_vec_map_subset(*self, dist@);
                lemma_node_key_set(*self);
                vstd::set_lib::lemma_len_subset(visited@.to_set(), node_key_set(*self));
                visited@.unique_seq_to_set();
            }
            let sel = select_min_exec(&dist, &visited);
            match sel {
                None => {
                    proof {
                        assert(!(exists|c: u64| is_sel(as_map(dist@), visited@.to_set(), c)));
                        assert(dijkstra_loop(*self, end.0, as_map(dist@), as_map(prev@), visited@.to_set())
                            == (as_map(dist@), as_map(prev@)));
                    }
                    break;
                }
                Some(cur) => {
                    proof {
                        let c2 = choose|c: u64| is_sel(as_map(dist@), visited@.to_set(), c);
                        lemma_sel_unique(as_map(dist@), visited@.to_set(), cur, c2);
                    }
                    if cur == end.0 {
                        proof {
                            assert(dijkstra_loop(*self, end.0, as_map(dist@), as_map(prev@), visited@.to_set())
                                == (as_map(dist@), as_map(prev@)));
                        }
                        break;
                    }
                    let ghost dist_in = as_map(dist@);
                    let ghost prev_in = as_map(prev@);
                    let ghost vis_in = visited@.to_set();
                    let cur_i = match find_idx(&dist, cur) {
                        Some(i) => i,
                        None => {
                            proof {
                                assert(false);
                            }
                            0
                        }
                    };
                    let cur_d = dist[cur_i].1;
                    proof {
                        lemma_idx_unique(dist@, cur, cur_i as int);
                        assert(cur_d == dist_in[cur]);
                        self.lemma_neighbors_are_nodes(cur);
                    }
                    let row = self.row_of(cur);
                    let mut j: usize = 0;
                    proof {
                        assert(row@.skip(0) =~= row@);
                    }
                    while j < row.len()
                        invariant
                            self.wf(),
                            row@ == self.neighbors_of(cur),
                            forall|m: int| 0 <= m < row@.len() ==> self.has_node((#[trigger] row@[m]).0),
                            j <= row@.len(),
                            keys_sorted(dist@),
                            keys_sorted(prev@),
                            forall|i: int| 0 <= i < dist@.len() ==> self.has_node((#[trigger] dist@[i]).0),
                            relax_row(cur, cur_d, row@.skip(j as int), vis_in, as_map(dist@), as_map(prev@))
                                == relax_row(cur, cur_d, row@, vis_in, dist_in, prev_in),
                            vis_in == visited@.to_set(),
                            visited@.no_duplicates(),
                            forall|i: int| 0 <= i < visited@.len() ==> self.has_node(#[trigger] visited@[i]),
                        decreases row@.len() - j,
                    {
                        let t = row[j].0;
                        let w = row[j].1;
                        let ghost rest = row@.skip(j as int);
                        proof {
                            assert(rest.first() == row@[j as int]);
                            assert(rest.drop_first() =~= row@.skip(j as int + 1));
                        }
                        if !contains_id_vec(&visited, t) {
                            let clamped: i64 = if w < 0 { 0 } else { w };
                            let cost: i64 = i64::MAX - clamped;
                            let nd: i64 = if cur_d > i64::MAX - cost {
                                i64::MAX
                            } else {
                                cur_d + cost
                            };
                            proof {
                                assert(cost == edge_cost(w));
                                assert(nd == sat_add_i64(cur_d, cost));
                            }
                            let must_set = match find_idx(&dist, t) {
                                Some(di) => {
                                    proof {
                                        lemma_idx_unique(dist@, t, di as int);
                                    }
                                    nd < dist[di].1
                                }
                                None => true,
                            };
                            if must_set {
                                set_kv(&mut dist, t, nd);
                                set_kv(&mut prev, t, cur);
                            }
                        }
                        j = j + 1;
                    }
                    proof {
                        assert(row@.skip(row@.len() as int) =~= Seq::<(u64, i64)>::empty());
                        assert(relax_row(cur, cur_d, row@.skip(row@.len() as int), vis_in, as_map(dist@), as_map(prev@))
                            == (as_map(dist@), as_map(prev@)));
                    }
                    let ghost vis_old = visited@;
                    visited.push(cur);
                    proof {
                        assert(!vis_in.contains(cur));
                        assert forall|m: int| 0 <= m < vis_old.len() implies vis_old[m] != cur by {
                            if vis_old[m] == cur {
                                assert(vis_old.contains(cur));
                            }
                        }
                        assert(visited@.to_set() =~= vis_in.insert(cur)) by {
                            assert forall|x: u64| visited@.to_set().contains(x)
                                implies vis_in.insert(cur).contains(x) by {
                                let i = choose|i: int| 0 <= i < visited@.len() && visited@[i] == x;
                                if i < vis_old.len() {
                                    assert(vis_old.contains(x));
                                }
                            }
                            assert forall|x: u64| vis_in.insert(cur).contains(x)
                                implies visited@.to_set().contains(x) by {
                                if x == cur {
                                    assert(visited@[visited@.len() - 1] == cur);
                                    assert(visited@.contains(x));
                                } else {
                                    let i = choose|i: int| 0 <= i < vis_old.len() && vis_old[i] == x;
                                    assert(visited@[i] == x);
                                    assert(visited@.contains(x));
                                }
                            }
                        }
                        assert(visited@.no_duplicates()) by {
                            assert(forall|m: int| 0 <= m < visited@.len() - 1 ==> visited@[m] == vis_old[m]);
                        }
                        assert(dijkstra_loop(*self, end.0, dist_in, prev_in, vis_in)
                            == dijkstra_loop(*self, end.0, as_map(dist@), as_map(prev@), visited@.to_set()));
                    }
                }
            }
        }

        // Reconstruct the path by walking the predecessor table.
        let ghost prevm = as_map(prev@);
        match find_idx(&prev, end.0) {
            None => {
                proof {
                    assert(!prevm.dom().contains(end.0));
                }
                None
            }
            Some(_) => {
                let mut rev: Vec<u64> = Vec::new();
                let mut cur: u64 = end.0;
                let mut fuel: usize = self.node_count();
                proof {
                    assert(rev@.reverse() =~= Seq::<u64>::empty());
                    assert(walk_prev(prevm, start.0, end.0, self.node_count_spec())
                        == walk_step_join(prevm, start.0, cur, fuel as nat, rev@));
                }
                while cur != start.0
                    invariant
                        keys_sorted(prev@),
                        prevm == as_map(prev@),
                        walk_prev(prevm, start.0, end.0, self.node_count_spec())
                            == walk_step_join(prevm, start.0, cur, fuel as nat, rev@),
                        Graph::strongest_path_model(*self, start.0, end.0)
                            == walk_prev(prevm, start.0, end.0, self.node_count_spec()),
                    decreases fuel,
                {
                    if fuel == 0 {
                        return None;
                    }
                    rev.push(cur);
                    let ghost rev_old = rev@.drop_last();
                    match find_idx(&prev, cur) {
                        Some(pi) => {
                            proof {
                                lemma_idx_unique(prev@, cur, pi as int);
                            }
                            let nxt = prev[pi].1;
                            proof {
                                assert(prevm.dom().contains(cur));
                                assert(prevm[cur] == nxt);
                                lemma_walk_join_step(prevm, start.0, cur, fuel as nat, rev_old);
                            }
                            cur = nxt;
                        }
                        None => {
                            proof {
                                assert(!prevm.dom().contains(cur));
                            }
                            return None;
                        }
                    }
                    fuel = fuel - 1;
                }
                let mut path: Vec<u64> = Vec::new();
                path.push(start.0);
                let mut m: usize = rev.len();
                while m > 0
                    invariant
                        m <= rev@.len(),
                        path@ == Seq::empty().push(start.0) + rev@.skip(m as int).reverse(),
                    decreases m,
                {
                    m = m - 1;
                    path.push(rev[m]);
                    proof {
                        assert(rev@.skip(m as int) =~= rev@.skip(m as int + 1).insert(0, rev@[m as int]));
                        assert(path@ =~= Seq::empty().push(start.0) + rev@.skip(m as int).reverse());
                    }
                }
                proof {
                    assert(rev@.skip(0) =~= rev@);
                    assert(walk_step_join(prevm, start.0, start.0, fuel as nat, rev@)
                        == Some(Seq::empty().push(start.0) + rev@.reverse()));
                }
                let r = to_node_vec(&path);
                proof {
                    assert(r@.map(|_i: int, n: NodeId| n.0) =~= path@);
                }
                Some(r)
            }
        }
    }
}

/// Relaxation records predecessors only along real edges of the graph.
proof fn lemma_relax_prev_edges(
    g: Graph,
    cur: u64,
    cur_d: i64,
    row: Seq<(u64, i64)>,
    visited: Set<u64>,
    distm: Map<u64, i64>,
    prevm: Map<u64, u64>,
)
    requires
        forall|j: int| 0 <= j < row.len() ==> g.has_edge(cur, (#[trigger] row[j]).0),
        forall|k: u64| #[trigger] prevm.dom().contains(k) ==> g.has_edge(prevm[k], k),
    ensures
        ({
            let r = relax_row(cur, cur_d, row, visited, distm, prevm);
            forall|k: u64| #[trigger] r.1.dom().contains(k) ==> g.has_edge(r.1[k], k)
        }),
    decreases row.len(),
{
    if row.len() > 0 {
        let e = row.first();
        assert(forall|j: int| 0 <= j < row.drop_first().len()
            ==> #[trigger] row.drop_first()[j] == row[j + 1]);
        if visited.contains(e.0) {
            lemma_relax_prev_edges(g, cur, cur_d, row.drop_first(), visited, distm, prevm);
            assert(relax_row(cur, cur_d, row, visited, distm, prevm)
                == relax_row(cur, cur_d, row.drop_first(), visited, distm, prevm));
        } else {
            let nd = sat_add_i64(cur_d, edge_cost(e.1));
            if !distm.dom().contains(e.0) || nd < distm[e.0] {
                assert(g.has_edge(cur, e.0));
                assert forall|k: u64| #[trigger] prevm.insert(e.0, cur).dom().contains(k)
                    implies g.has_edge(prevm.insert(e.0, cur)[k], k) by {
                    if k != e.0 {
                        assert(prevm.dom().contains(k));
                    }
                }
                lemma_relax_prev_edges(g, cur, cur_d, row.drop_first(), visited,
                    distm.insert(e.0, nd), prevm.insert(e.0, cur));
                assert(relax_row(cur, cur_d, row, visited, distm, prevm)
                    == relax_row(cur, cur_d, row.drop_first(), visited,
                        distm.insert(e.0, nd), prevm.insert(e.0, cur)));
            } else {
                lemma_relax_prev_edges(g, cur, cur_d, row.drop_first(), visited, distm, prevm);
                assert(relax_row(cur, cur_d, row, visited, distm, prevm)
                    == relax_row(cur, cur_d, row.drop_first(), visited, distm, prevm));
            }
        }
    }
}

/// Throughout the search, every recorded predecessor is a real edge.
proof fn lemma_dijkstra_prev_edges(
    g: Graph,
    end: u64,
    distm: Map<u64, i64>,
    prevm: Map<u64, u64>,
    visited: Set<u64>,
)
    requires
        g.wf(),
        visited.finite(),
        visited.subset_of(node_key_set(g)),
        distm.dom().subset_of(node_key_set(g)),
        forall|k: u64| #[trigger] prevm.dom().contains(k) ==> g.has_edge(prevm[k], k),
    ensures
        ({
            let r = dijkstra_loop(g, end, distm, prevm, visited);
            forall|k: u64| #[trigger] r.1.dom().contains(k) ==> g.has_edge(r.1[k], k)
        }),
    decreases g.node_count_spec() + 1 - visited.len(),
{
    lemma_node_key_set(g);
    vstd::set_lib::lemma_len_subset(visited, node_key_set(g));
    if exists|c: u64| is_sel(distm, visited, c) {
        let cur = choose|c: u64| is_sel(distm, visited, c);
        if cur != end {
            g.lemma_neighbors_are_nodes(cur);
            let row = g.neighbors_of(cur);
            assert forall|j: int| 0 <= j < row.len()
                implies g.has_edge(cur, (#[trigger] row[j]).0) by {
                lemma_idx_unique(row, row[j].0, j);
            }
            lemma_relax_prev_edges(g, cur, distm[cur], row, visited, distm, prevm);
            lemma_relax_dom(g, cur, distm[cur], row, visited, distm, prevm);
            let r = relax_row(cur, distm[cur], row, visited, distm, prevm);
            vstd::set_lib::lemma_len_subset(visited.insert(cur), node_key_set(g));
            lemma_dijkstra_prev_edges(g, end, r.0, r.1, visited.insert(cur));
            assert(dijkstra_loop(g, end, distm, prevm, visited)
                == dijkstra_loop(g, end, r.0, r.1, visited.insert(cur)));
        }
    }
}

/// A successful walk over an edge-respecting predecessor table is a path
/// along existing edges.
proof fn lemma_walk_prev_valid(g: Graph, prevm: Map<u64, u64>, start: u64, cur: u64, fuel: nat)
    requires
        forall|k: u64| #[trigger] prevm.dom().contains(k) ==> g.has_edge(prevm[k], k),
        walk_prev(prevm, start, cur, fuel) is Some,
    ensures
        ({
            let p = walk_prev(prevm, start, cur, fuel)->Some_0;
            forall|i: int| 0 <= i < p.len() - 1 ==> g.has_edge(#[trigger] p[i], p[i + 1])
        }),
    decreases fuel,
{
    if cur != start && fuel > 0 && prevm.dom().contains(cur) {
        lemma_walk_prev_valid(g, prevm, start, prevm[cur], (fuel - 1) as nat);
        lemma_walk_prev_shape(prevm, start, prevm[cur], (fuel - 1) as nat);
        let p0 = walk_prev(prevm, start, prevm[cur], (fuel - 1) as nat)->Some_0;
        let p = walk_prev(prevm, start, cur, fuel)->Some_0;
        assert(p == p0.push(cur));
        assert forall|i: int| 0 <= i < p.len() - 1
            implies g.has_edge(#[trigger] p[i], p[i + 1]) by {
            if i < p0.len() - 1 {
                assert(p[i] == p0[i] && p[i + 1] == p0[i + 1]);
            } else {
                assert(p[i] == p0.last() && p[i + 1] == cur);
                assert(p0.last() == prevm[cur]);
            }
        }
    }
}

/// Path correctness: a found strongest path runs from start to end along
/// edges that all exist in the graph.
pub proof fn lemma_strongest_path_valid(g: Graph, start: u64, end: u64)
    requires
        g.wf(),
        Graph::strongest_path_model(g, start, end) is Some,
    ensures
        ({
            let p = Graph::strongest_path_model(g, start, end)->Some_0;
            &&& p.len() >= 1
            &&& p[0] == start
            &&& p.last() == end
            &&& (forall|i: int| 0 <= i < p.len() - 1 ==> g.has_edge(#[trigger] p[i], p[i + 1]))
        }),
{
    lemma_strongest_path_endpoints(g, start, end);
    if g.has_node(start) && g.has_node(end) && start != end {
        let distm0 = Map::<u64, i64>::empty().insert(start, 0);
        let prevm0 = Map::<u64, u64>::empty();
        assert(distm0.dom().subset_of(node_key_set(g))) by {
            assert forall|x: u64| distm0.dom().contains(x) implies node_key_set(g).contains(x) by {
                assert(x == start);
            }
        }
        lemma_dijkstra_prev_edges(g, end, distm0, prevm0, Set::empty());
        let r = dijkstra_loop(g, end, distm0, prevm0, Set::empty());
        if r.1.dom().contains(end) {
            lemma_walk_prev_valid(g, r.1, start, end, g.node_count_spec());
        }
    }
}

/// A found strongest path runs from the requested start to the requested
/// end and is never empty.
pub proof fn lemma_strongest_path_endpoints(g: Graph, start: u64, end: u64)
    requires
        Graph::strongest_path_model(g, start, end) is Some,
    ensures
        ({
            let p = Graph::strongest_path_model(g, start, end)->Some_0;
            p.len() >= 1 && p[0] == start && p.last() == end
        }),
{
    if g.has_node(start) && g.has_node(end) && start != end {
        let r = dijkstra_loop(g, end, Map::empty().insert(start, 0), Map::empty(), Set::empty());
        if r.1.dom().contains(end) {
            lemma_walk_prev_shape(r.1, start, end, g.node_count_spec());
        }
    }
}

/// The value of a predecessor walk that still has `rev` (in reverse order)
/// to append after reaching `cur`.
pub open spec fn walk_step_join(
    prevm: Map<u64, u64>,
    start: u64,
    cur: u64,
    fuel: nat,
    rev: Seq<u64>,
) -> Option<Seq<u64>> {
    match walk_prev(prevm, start, cur, fuel) {
        Some(p) => Some(p + rev.reverse()),
        None => None,
    }
}

/// One step of the predecessor walk, phrased over the joined form.
proof fn lemma_walk_join_step(prevm: Map<u64, u64>, start: u64, cur: u64, fuel: nat, rev: Seq<u64>)
    requires
        cur != start,
        fuel > 0,
        prevm.dom().contains(cur),
    ensures
        walk_step_join(prevm, start, cur, fuel, rev)
            == walk_step_join(prevm, start, prevm[cur], (fuel - 1) as nat, rev.push(cur)),
{
    assert(rev.push(cur).reverse() =~= Seq::empty().push(cur) + rev.reverse());
    match walk_prev(prevm, start, prevm[cur], (fuel - 1) as nat) {
        Some(p) => {
            assert(p.push(cur) + rev.reverse() =~= p + rev.push(cur).reverse());
        }
        None => {}
    }
}

/// Distinct node ids can never outnumber the node table.
pub proof fn lemma_ids_len(g: Graph, v: Seq<u64>)
    requires
        keys_sorted(g.nodes_view()),
        v.no_duplicates(),
        forall|i: int| 0 <= i < v.len() ==> g.has_node(#[trigger] v[i]),
    ensures
        v.len() <= g.node_count_spec(),
{
    v.unique_seq_to_set();
    lemma_vec_set_subset(g, v);
    lemma_node_key_set(g);
    vstd::set_lib::lemma_len_subset(v.to_set(), node_key_set(g));
}

/// All ids of a vector of graph nodes form a subset of the node-id set.
proof fn lemma_vec_set_subset(g: Graph, v: Seq<u64>)
    requires
        forall|i: int| 0 <= i < v.len() ==> g.has_node(#[trigger] v[i]),
    ensures
        v.to_set().subset_of(node_key_set(g)),
{
    broadcast use vstd::seq_lib::group_seq_properties;

    assert forall|x: u64| v.to_set().contains(x) implies node_key_set(g).contains(x) by {
        let i = choose|i: int| 0 <= i < v.len() && v[i] == x;
    }
}

/// The domain of a sorted distance table of graph nodes sits inside the
/// node-id set.
proof fn lemma_vec_map_subset(g: Graph, s: Seq<(u64, i64)>)
    requires
        forall|i: int| 0 <= i < s.len() ==> g.has_node((#[trigger] s[i]).0),
    ensures
        as_map(s).dom().subset_of(node_key_set(g)),
{
    assert forall|x: u64| as_map(s).dom().contains(x) implies node_key_set(g).contains(x) by {
        let i = choose|i: int| 0 <= i < s.len() && s[i].0 == x;
    }
}

/// Scan the distance table in sorted key order for the unvisited entry of
/// least `(distance, id)`; `None` when every entry is visited.
fn select_min_exec(dist: &Vec<(u64, i64)>, visited: &Vec<u64>) -> (r: Option<u64>)
    requires
        keys_sorted(dist@),
    ensures
        match r {
            Some(c) => is_sel(as_map(dist@), visited@.to_set(), c),
            None => !(exists|c: u64| is_sel(as_map(dist@), visited@.to_set(), c)),
        },
{
    broadcast use vstd::seq_lib::group_seq_properties;

    let n = dist.len();
    let mut best: Option<(u64, i64)> = None;
    let mut i: usize = 0;
    while i < n
        invariant
            i <= n,
            n == dist@.len(),
            keys_sorted(dist@),
            match best {
                Some(b) => {
                    &&& exists|m: int| 0 <= m < i && dist@[m] == (b.0, b.1)
                    &&& !visited@.to_set().contains(b.0)
                    &&& forall|m: int| 0 <= m < i && !visited@.to_set().contains((#[trigger] dist@[m]).0)
                        ==> (b.1 < dist@[m].1 || (b.1 == dist@[m].1 && b.0 <= dist@[m].0))
                },
                None => forall|m: int| 0 <= m < i ==> visited@.to_set().contains((#[trigger] dist@[m]).0),
            },
        decreases n - i,
    {
        let k = dist[i].0;
        let d = dist[i].1;
        if !contains_id_vec(visited, k) {
            let take = match best {
                None => true,
                Some(b) => d < b.1,
            };
            if take {
                best = Some((k, d));
            } else {
                proof {
                    let b = best->Some_0;
                    assert(b.1 <= d);
                    let m0 = choose|m: int| 0 <= m < i && dist@[m] == (b.0, b.1);
                    assert(dist@[m0].0 < dist@[i as int].0);
                }
            }
        }
        i = i + 1;
    }
    match best {
        Some(b) => {
            proof {
                let m0 = choose|m: int| 0 <= m < n && dist@[m] == (b.0, b.1);
                lemma_idx_unique(dist@, b.0, m0);
                assert(as_map(dist@).dom().contains(b.0));
                assert(as_map(dist@)[b.0] == b.1);
                assert forall|q: u64|
                    as_map(dist@).dom().contains(q) && !visited@.to_set().contains(q)
                        implies (as_map(dist@)[b.0] < #[trigger] as_map(dist@)[q]
                            || (as_map(dist@)[b.0] == as_map(dist@)[q] && b.0 <= q)) by {
                    let m = key_idx(dist@, q);
                    assert(0 <= m < dist@.len() && dist@[m].0 == q);
                    assert(as_map(dist@)[q] == dist@[m].1);
                }
            }
            Some(b.0)
        }
        None => {
            proof {
                assert forall|c: u64| !is_sel(as_map(dist@), visited@.to_set(), c) by {
                    if as_map(dist@).dom().contains(c) {
                        let m = key_idx(dist@, c);
                        assert(0 <= m < dist@.len() && dist@[m].0 == c);
                        assert(visited@.to_set().contains(c));
                    }
                }
            }
            None
        }
    }
}

} // verus!
