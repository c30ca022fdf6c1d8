//! The engine's cross-operation laws, proved once and for all: export
//! order is a function of graph content, entity insertion is idempotent,
//! repeated edge increments count exactly (saturating), and a canonical
//! export rebuilds an equivalent graph.

use vstd::prelude::*;
use crate::primitives::sat_inc_i64;
use crate::graph::{adj_total, flat_edges, row_edges, Graph};
use crate::export::{canon_edge_val, canon_has_edge, canon_next_floor, canon_nodes_map,
    CanonicalEdge, CanonicalGraph};
use crate::sorted::{as_map, has_key, key_idx, keys_sorted, lemma_as_map_snoc, lemma_idx_unique,
    lemma_sorted_canonical, val_of};

verus! {

/// Whether the triple `(f, t, w)` occurs in an edge list.
pub open spec fn edge3_in(ev: Seq<(u64, u64, i64)>, f: u64, t: u64, w: i64) -> bool {
    exists|i: int| 0 <= i < ev.len() && ev[i] == (f, t, w)
}

/// Two strictly sorted id lists with the same members are the same list.
proof fn lemma_sorted_ids_eq(a: Seq<u64>, b: Seq<u64>)
    requires
        forall|i: int, j: int| 0 <= i < j < a.len() ==> a[i] < a[j],
        forall|i: int, j: int| 0 <= i < j < b.len() ==> b[i] < b[j],
        forall|x: u64| crate::traversal::id_in(a, x) <==> crate::traversal::id_in(b, x),
    ensures
        a == b,
    decreases a.len(),
{
    if a.len() == 0 {
        if b.len() > 0 {
            assert(crate::traversal::id_in(b, b[0]));
        }
        assert(a =~= b);
    } else {
        assert(crate::traversal::id_in(a, a[0]));
        assert(crate::traversal::id_in(b, b[0]));
        let i = choose|i: int| 0 <= i < b.len() && b[i] == a[0];
        let j = choose|j: int| 0 <= j < a.len() && a[j] == b[0];
        assert(b[0] <= b[i]);
        assert(a[0] <= a[j]);
        assert(a[0] == b[0]);
        let da = a.drop_first();
        let db = b.drop_first();
        assert(forall|m: int| 0 <= m < da.len() ==> #[trigger] da[m] == a[m + 1]);
        assert(forall|m: int| 0 <= m < db.len() ==> #[trigger] db[m] == b[m + 1]);
        assert forall|x: u64| crate::traversal::id_in(da, x) <==> crate::traversal::id_in(db, x) by {
            if crate::traversal::id_in(da, x) {
                let m = choose|m: int| 0 <= m < da.len() && da[m] == x;
                assert(a[m + 1] == x);
                assert(crate::traversal::id_in(b, x));
                let w = choose|w: int| 0 <= w < b.len() && b[w] == x;
                assert(w > 0) by {
                    if w == 0 {
                        assert(a[0] < a[m + 1]);
                    }
                }
                assert(db[w - 1] == x);
            }
            if crate::traversal::id_in(db, x) {
                let m = choose|m: int| 0 <= m < db.len() && db[m] == x;
                assert(b[m + 1] == x);
                assert(crate::traversal::id_in(a, x));
                let w = choose|w: int| 0 <= w < a.len() && a[w] == x;
                assert(w > 0) by {
                    if w == 0 {
                        assert(b[0] < b[m + 1]);
                    }
                }
                assert(da[w - 1] == x);
            }
        }
        lemma_sorted_ids_eq(da, db);
        assert forall|m: int| 0 <= m < a.len() implies a[m] == b[m] by {
            if m > 0 {
                assert(da[m - 1] == db[m - 1]);
            }
        }
        assert(a =~= b);
    }
}

/// Adjacency structures whose rows pair up key for key and view for view
/// flatten to the same edge list and the same total.
proof fn lemma_flat_congruent(a1: Seq<(u64, Vec<(u64, i64)>)>, a2: Seq<(u64, Vec<(u64, i64)>)>)
    requires
        a1.len() == a2.len(),
        forall|i: int| 0 <= i < a1.len()
            ==> (#[trigger] a1[i]).0 == (#[trigger] a2[i]).0 && a1[i].1@ == a2[i].1@,
    ensures
        flat_edges(a1) == flat_edges(a2),
        adj_total(a1) == adj_total(a2),
    decreases a1.len(),
{
    if a1.len() > 0 {
        lemma_flat_congruent(a1.drop_last(), a2.drop_last());
        assert(a1.last().0 == a2.last().0 && a1.last().1@ == a2.last().1@);
        assert(row_edges(a1.last().0, a1.last().1@) =~= row_edges(a2.last().0, a2.last().1@));
        assert(flat_edges(a1) =~= flat_edges(a2));
    }
}

/// The flattened edge list holds exactly the graph's edges: membership of
/// `(f, t, w)` is exactly "the edge exists with that weight".
proof fn lemma_flat_char(s: Seq<(u64, Vec<(u64, i64)>)>)
    requires
        keys_sorted(s),
        forall|i: int| 0 <= i < s.len() ==> keys_sorted(#[trigger] s[i].1@),
    ensures
        forall|f: u64, t: u64, w: i64| #[trigger] edge3_in(flat_edges(s), f, t, w)
            <==> (has_key(s, f) && has_key(val_of(s, f)@, t) && val_of(val_of(s, f)@, t) == w),
    decreases s.len(),
{
    if s.len() == 0 {
        assert forall|f: u64, t: u64, w: i64| !(#[trigger] edge3_in(flat_edges(s), f, t, w)) by {
            if edge3_in(flat_edges(s), f, t, w) {
                let i = choose|i: int| 0 <= i < flat_edges(s).len() && flat_edges(s)[i] == (f, t, w);
            }
        }
        assert(forall|f: u64| !has_key(s, f));
    } else {
        let d = s.drop_last();
        let last = s.last();
        lemma_flat_char(d);
        let row = row_edges(last.0, last.1@);
        assert forall|f: u64, t: u64, w: i64| #[trigger] edge3_in(flat_edges(s), f, t, w)
            implies (has_key(s, f) && has_key(val_of(s, f)@, t) && val_of(val_of(s, f)@, t) == w) by {
            let i = choose|i: int| 0 <= i < flat_edges(s).len() && flat_edges(s)[i] == (f, t, w);
            if i < flat_edges(d).len() {
                assert(flat_edges(d)[i] == (f, t, w));
                assert(edge3_in(flat_edges(d), f, t, w));
                let m = key_idx(d, f);
                lemma_idx_unique(d, f, m);
                assert(s[m].0 == f);
                lemma_idx_unique(s, f, m);
                assert(val_of(s, f) == val_of(d, f));
            } else {
                let j = i - flat_edges(d).len();
                assert(row[j] == (f, t, w));
                assert(last.1@[j] == (t, w));
                assert(f == last.0);
                lemma_idx_unique(s, f, s.len() - 1);
                assert(val_of(s, f) == last.1);
                lemma_idx_unique(last.1@, t, j);
            }
        }
        assert forall|f: u64, t: u64, w: i64|
            (has_key(s, f) && has_key(val_of(s, f)@, t) && val_of(val_of(s, f)@, t) == w)
            implies #[trigger] edge3_in(flat_edges(s), f, t, w) by {
            let m = key_idx(s, f);
            lemma_idx_unique(s, f, m);
            if m < s.len() - 1 {
                assert(d[m].0 == f);
                lemma_idx_unique(d, f, m);
                assert(val_of(d, f) == val_of(s, f));
                assert(edge3_in(flat_edges(d), f, t, w));
                let i = choose|i: int| 0 <= i < flat_edges(d).len() && flat_edges(d)[i] == (f, t, w);
                assert(flat_edges(s)[i] == (f, t, w));
            } else {
                assert(val_of(s, f) == last.1);
                let j = key_idx(last.1@, t);
                lemma_idx_unique(last.1@, t, j);
                assert(row[j] == (f, t, w));
                assert(flat_edges(s)[flat_edges(d).len() + j] == (f, t, w));
            }
        }
    }
}

/// Export order is a function of graph content alone: two well-formed
/// graphs holding the same nodes and the same weighted edges list their
/// nodes identically and their edges identically, whatever the order of
/// the operations that built them.
pub proof fn lemma_export_deterministic(g1: Graph, g2: Graph)
    requires
        g1.wf(),
        g2.wf(),
        as_map(g1.nodes_view()) == as_map(g2.nodes_view()),
        forall|f: u64, t: u64| #[trigger] g1.has_edge(f, t) <==> #[trigger] g2.has_edge(f, t),
        forall|f: u64, t: u64| #[trigger] g1.has_edge(f, t)
            ==> g1.edge_val(f, t) == g2.edge_val(f, t),
    ensures
        g1.nodes_view() == g2.nodes_view(),
        g1.edges_view() == g2.edges_view(),
        g1.edge_total() == g2.edge_total(),
{
    // Node tables: same mapping, both sorted, hence the same list.
    assert forall|q: u64| has_key(g1.nodes_view(), q) <==> has_key(g2.nodes_view(), q) by {
        assert(as_map(g1.nodes_view()).dom().contains(q) == has_key(g1.nodes_view(), q));
        assert(as_map(g2.nodes_view()).dom().contains(q) == has_key(g2.nodes_view(), q));
    }
    assert forall|q: u64| has_key(g1.nodes_view(), q)
        implies #[trigger] val_of(g1.nodes_view(), q) == val_of(g2.nodes_view(), q) by {
        assert(as_map(g1.nodes_view())[q] == val_of(g1.nodes_view(), q));
        assert(as_map(g2.nodes_view())[q] == val_of(g2.nodes_view(), q));
    }
    lemma_sorted_canonical(g1.nodes_view(), g2.nodes_view());

    // Adjacency keys: present exactly for nodes with at least one edge.
    let a1 = g1.adj_raw();
    let a2 = g2.adj_raw();
    let k1 = a1.map(|_i: int, p: (u64, Vec<(u64, i64)>)| p.0);
    let k2 = a2.map(|_i: int, p: (u64, Vec<(u64, i64)>)| p.0);
    assert(forall|i: int| 0 <= i < k1.len() ==> #[trigger] k1[i] == a1[i].0);
    assert(forall|i: int| 0 <= i < k2.len() ==> #[trigger] k2[i] == a2[i].0);
    assert forall|x: u64| crate::traversal::id_in(k1, x) <==> crate::traversal::id_in(k2, x) by {
        if crate::traversal::id_in(k1, x) {
            let i = choose|i: int| 0 <= i < k1.len() && k1[i] == x;
            lemma_idx_unique(a1, x, i);
            assert(a1[i].1@.len() > 0);
            assert(g1.neighbors_of(x) == a1[i].1@);
            let t = a1[i].1@[0].0;
            lemma_idx_unique(a1[i].1@, t, 0);
            assert(g1.has_edge(x, t));
            assert(g2.has_edge(x, t));
            assert(has_key(a2, x)) by {
                if !has_key(a2, x) {
                    assert(g2.neighbors_of(x) =~= Seq::<(u64, i64)>::empty());
                }
            }
            let m = key_idx(a2, x);
            assert(k2[m] == x);
        }
        if crate::traversal::id_in(k2, x) {
            let i = choose|i: int| 0 <= i < k2.len() && k2[i] == x;
            lemma_idx_unique(a2, x, i);
            assert(a2[i].1@.len() > 0);
            assert(g2.neighbors_of(x) == a2[i].1@);
            let t = a2[i].1@[0].0;
            lemma_idx_unique(a2[i].1@, t, 0);
            assert(g2.has_edge(x, t));
            assert(g1.has_edge(x, t));
            assert(has_key(a1, x)) by {
                if !has_key(a1, x) {
                    assert(g1.neighbors_of(x) =~= Seq::<(u64, i64)>::empty());
                }
            }
            let m = key_idx(a1, x);
            assert(k1[m] == x);
        }
    }
    assert(k1.len() == a1.len() && k2.len() == a2.len());
    assert(forall|i: int, j: int| 0 <= i < j < k1.len() ==> k1[i] < k1[j]);
    assert(forall|i: int, j: int| 0 <= i < j < k2.len() ==> k2[i] < k2[j]);
    lemma_sorted_ids_eq(k1, k2);
    assert(a1.len() == a2.len());

    // Row for row: same key, and the same sorted (target, weight) list.
    assert forall|i: int| 0 <= i < a1.len()
        implies (#[trigger] a1[i]).0 == (#[trigger] a2[i]).0 && a1[i].1@ == a2[i].1@ by {
        assert(k1[i] == k2[i]);
        let f = a1[i].0;
        lemma_idx_unique(a1, f, i);
        lemma_idx_unique(a2, f, i);
        assert(g1.neighbors_of(f) == a1[i].1@);
        assert(g2.neighbors_of(f) == a2[i].1@);
        assert forall|t: u64| has_key(a1[i].1@, t)
            implies #[trigger] val_of(a1[i].1@, t) == val_of(a2[i].1@, t) by {
            assert(g1.has_edge(f, t));
            assert(g1.edge_val(f, t) == g2.edge_val(f, t));
        }
        assert forall|t: u64| has_key(a1[i].1@, t) <==> has_key(a2[i].1@, t) by {
            assert(has_key(a1[i].1@, t) == g1.has_edge(f, t));
            assert(has_key(a2[i].1@, t) == g2.has_edge(f, t));
        }
        lemma_sorted_canonical(a1[i].1@, a2[i].1@);
    }
    lemma_flat_congruent(a1, a2);
}

/// Idempotent entity insertion: inserting the same entity twice returns
/// the same node id both times, changes nothing the second time, and
/// grows the node table exactly once (while ids remain available).
pub proof fn lemma_insert_node_idempotent(
    g0: Graph,
    e: u64,
    g1: Graph,
    r1: u64,
    g2: Graph,
    r2: u64,
)
    requires
        g0.wf(),
        g0.next_id() != u64::MAX,
        Graph::step_insert_node(g0, e, g1, r1),
        Graph::step_insert_node(g1, e, g2, r2),
    ensures
        r2 == r1,
        g2 == g1,
        g1.node_count_spec() == g0.node_count_spec() + (if g0.has_entity(e) { 0int } else { 1int }),
        g2.node_count_spec() == g1.node_count_spec(),
{
    if g0.has_entity(e) {
        assert(g1 == g0);
    } else {
        assert(as_map(g1.index_view()).dom().contains(e));
        assert(g1.has_entity(e));
        assert(g1.id_of_entity(e) == as_map(g1.index_view())[e]);
        assert(g1.id_of_entity(e) == r1);
        assert(!g0.has_node(r1)) by {
            if g0.has_node(r1) {
                let i = key_idx(g0.nodes_view(), r1);
                assert(g0.nodes_view()[i].0 < g0.next_id());
            }
        }
    }
}

/// Edge overwrite: inserting an edge between existing nodes leaves
/// exactly the new weight on it, whatever was there before.
pub proof fn lemma_insert_edge_overwrites(pre: Graph, f: u64, t: u64, w: i64, post: Graph)
    requires
        pre.has_node(f),
        pre.has_node(t),
        Graph::step_insert_edge(pre, f, t, w, post),
    ensures
        post.has_edge(f, t),
        post.edge_val(f, t) == w,
        forall|x: u64, y: u64| x != f || y != t
            ==> (#[trigger] post.has_edge(x, y) <==> pre.has_edge(x, y)),
        forall|x: u64, y: u64| (x != f || y != t) && pre.has_edge(x, y)
            ==> #[trigger] post.edge_val(x, y) == pre.edge_val(x, y),
{
    assert(as_map(post.neighbors_of(f)).dom().contains(t));
    assert(as_map(post.neighbors_of(f))[t] == w);
    assert forall|x: u64, y: u64| x != f || y != t
        implies (#[trigger] post.has_edge(x, y) <==> pre.has_edge(x, y)) by {
        if x == f {
            assert(as_map(post.neighbors_of(f)).dom().contains(y)
                == as_map(pre.neighbors_of(f)).dom().contains(y));
        } else {
            assert(post.neighbors_of(x) == pre.neighbors_of(x));
        }
    }
    assert forall|x: u64, y: u64| (x != f || y != t) && pre.has_edge(x, y)
        implies #[trigger] post.edge_val(x, y) == pre.edge_val(x, y) by {
        if x == f {
            assert(as_map(post.neighbors_of(f))[y] == as_map(pre.neighbors_of(f))[y]);
            assert(as_map(pre.neighbors_of(f))[y] == pre.edge_val(f, y));
            assert(as_map(post.neighbors_of(f)).dom().contains(y));
            assert(as_map(post.neighbors_of(f))[y] == post.edge_val(f, y));
        } else {
            assert(post.neighbors_of(x) == pre.neighbors_of(x));
        }
    }
}

/// Counting by increments: starting from a fresh pair of existing nodes,
/// `k` increment steps leave weight exactly `k`, saturating at
/// `i64::MAX`.
pub proof fn lemma_increment_counts(gs: Seq<Graph>, f: u64, t: u64)
    requires
        gs.len() >= 2,
        gs[0].has_node(f),
        gs[0].has_node(t),
        !gs[0].has_edge(f, t),
        forall|i: int| 0 <= i < gs.len() - 1
            ==> Graph::step_increment_edge(gs[i], f, t, #[trigger] gs[i + 1]),
    ensures
        gs.last().has_edge(f, t),
        gs.last().edge_val(f, t)
            == (if gs.len() - 1 <= i64::MAX { gs.len() - 1 } else { i64::MAX as int }),
        gs.last().has_node(f),
        gs.last().has_node(t),
    decreases gs.len(),
{
    if gs.len() == 2 {
        assert(Graph::step_increment_edge(gs[0], f, t, gs[1]));
        assert(sat_inc_i64(0) == 1);
        assert(as_map(gs[1].neighbors_of(f)).dom().contains(t));
        assert(as_map(gs[1].neighbors_of(f))[t] == 1);
        assert(gs[1].nodes_view() == gs[0].nodes_view());
        assert(gs.last() == gs[1]);
    } else {
        let d = gs.drop_last();
        assert(forall|i: int| 0 <= i < d.len() ==> #[trigger] d[i] == gs[i]);
        assert forall|i: int| 0 <= i < d.len() - 1
            implies Graph::step_increment_edge(d[i], f, t, #[trigger] d[i + 1]) by {
            assert(Graph::step_increment_edge(gs[i], f, t, gs[i + 1]));
        }
        lemma_increment_counts(d, f, t);
        let n = gs.len();
        assert(Graph::step_increment_edge(gs[n - 2], f, t, gs[n - 2 + 1]));
        let p = gs[n - 2];
        let q = gs[n - 1];
        assert(gs[n - 2 + 1] == q);
        assert(p == d.last());
        assert(Graph::step_increment_edge(p, f, t, q));
        let old_w = p.edge_val(f, t);
        assert(as_map(q.neighbors_of(f)).dom().contains(t));
        assert(as_map(q.neighbors_of(f))[t] == sat_inc_i64(old_w));
        assert(q.nodes_view() == p.nodes_view());
        assert(gs.last() == q);
    }
}

/// The next-id floor of an id list stays within any strict bound on the
/// ids.
proof fn lemma_floor_bound(cn: Seq<crate::export::CanonicalNode>, b: u64)
    requires
        forall|i: int| 0 <= i < cn.len() ==> (#[trigger] cn[i]).id < b,
    ensures
        canon_next_floor(cn) <= b,
    decreases cn.len(),
{
    if cn.len() > 0 {
        lemma_floor_bound(cn.drop_last(), b);
    }
}

/// Folding a sorted node table rebuilds exactly its mapping.
proof fn lemma_fold_nodes(s: Seq<(u64, u64)>, cn: Seq<crate::export::CanonicalNode>)
    requires
        keys_sorted(s),
        cn.len() == s.len(),
        forall|i: int| 0 <= i < s.len()
            ==> (#[trigger] cn[i]).id == s[i].0 && cn[i].entity == s[i].1,
    ensures
        canon_nodes_map(cn) == as_map(s),
    decreases s.len(),
{
    if s.len() == 0 {
        assert forall|q: u64| !has_key(s, q) by {
            if has_key(s, q) {
                let i = key_idx(s, q);
            }
        }
        assert(canon_nodes_map(cn) =~= as_map(s));
    } else {
        assert(forall|i: int| 0 <= i < s.len() - 1 ==> #[trigger] s.drop_last()[i] == s[i]);
        lemma_fold_nodes(s.drop_last(), cn.drop_last());
        lemma_as_map_snoc(s);
        assert(cn.last().id == s.last().0 && cn.last().entity == s.last().1);
    }
}

/// The canonical edge fold, replayed over an export of a graph's own
/// edges, reproduces exactly the graph's edge relation.
proof fn lemma_canon_edges_char(g: Graph, nm: Map<u64, u64>, es: Seq<CanonicalEdge>, ev: Seq<(u64, u64, i64)>)
    requires
        es.len() == ev.len(),
        forall|i: int| 0 <= i < es.len()
            ==> (#[trigger] es[i]).from == (#[trigger] ev[i]).0 && es[i].to == ev[i].1
                && es[i].weight == ev[i].2,
        forall|i: int| 0 <= i < ev.len()
            ==> g.has_edge((#[trigger] ev[i]).0, ev[i].1) && g.edge_val(ev[i].0, ev[i].1) == ev[i].2
                && nm.dom().contains(ev[i].0) && nm.dom().contains(ev[i].1),
    ensures
        forall|f: u64, t: u64| #[trigger] canon_has_edge(nm, es, f, t)
            <==> (exists|i: int| 0 <= i < ev.len() && (#[trigger] ev[i]).0 == f && ev[i].1 == t),
        forall|f: u64, t: u64| #[trigger] canon_has_edge(nm, es, f, t)
            ==> canon_edge_val(nm, es, f, t) == g.edge_val(f, t),
    decreases es.len(),
{
    if es.len() > 0 {
        assert(forall|i: int| 0 <= i < es.len() - 1 ==> #[trigger] es.drop_last()[i] == es[i]);
        assert(forall|i: int| 0 <= i < ev.len() - 1 ==> #[trigger] ev.drop_last()[i] == ev[i]);
        lemma_canon_edges_char(g, nm, es.drop_last(), ev.drop_last());
        assert forall|f: u64, t: u64| #[trigger] canon_has_edge(nm, es, f, t)
            implies (exists|i: int| 0 <= i < ev.len() && (#[trigger] ev[i]).0 == f && ev[i].1 == t) by {
            if es.last().from == f && es.last().to == t && nm.dom().contains(f) && nm.dom().contains(t) {
                assert(ev[ev.len() - 1].0 == f && ev[ev.len() - 1].1 == t);
            } else {
                assert(canon_has_edge(nm, es.drop_last(), f, t));
                let i = choose|i: int|
                    0 <= i < ev.drop_last().len() && (#[trigger] ev.drop_last()[i]).0 == f
                        && ev.drop_last()[i].1 == t;
                assert(ev.drop_last()[i] == ev[i]);
                assert(ev[i].0 == f && ev[i].1 == t);
            }
        }
        assert forall|f: u64, t: u64|
            (exists|i: int| 0 <= i < ev.len() && (#[trigger] ev[i]).0 == f && ev[i].1 == t)
            implies #[trigger] canon_has_edge(nm, es, f, t) by {
            let i = choose|i: int| 0 <= i < ev.len() && (#[trigger] ev[i]).0 == f && ev[i].1 == t;
            if i < ev.len() - 1 {
                assert(ev.drop_last()[i].0 == f && ev.drop_last()[i].1 == t);
                assert(exists|m: int| 0 <= m < ev.drop_last().len()
                    && (#[trigger] ev.drop_last()[m]).0 == f && ev.drop_last()[m].1 == t);
                assert(canon_has_edge(nm, es.drop_last(), f, t));
            } else {
                assert(es.last().from == f && es.last().to == t);
                assert(nm.dom().contains(f) && nm.dom().contains(t));
            }
        }
        assert forall|f: u64, t: u64| #[trigger] canon_has_edge(nm, es, f, t)
            implies canon_edge_val(nm, es, f, t) == g.edge_val(f, t) by {
            if es.last().from == f && es.last().to == t && nm.dom().contains(f)
                && nm.dom().contains(t) {
                assert((#[trigger] ev[ev.len() - 1]).0 == f && ev[ev.len() - 1].1 == t);
                assert(g.edge_val(f, t) == ev[ev.len() - 1].2);
                assert(canon_edge_val(nm, es, f, t) == es.last().weight);
            } else {
                assert(canon_has_edge(nm, es.drop_last(), f, t));
                assert(canon_edge_val(nm, es.drop_last(), f, t) == g.edge_val(f, t));
            }
        }
    }
}

/// The round-trip law: exporting a graph canonically and rebuilding from
/// that export yields a graph with the same node table, the same edges
/// with the same weights in the same deterministic order, the same
/// counts, and the same next-id counter.
pub proof fn lemma_canonical_roundtrip(g: Graph, c: CanonicalGraph, h: Graph)
    requires
        g.wf(),
        h.wf(),
        // `c` is the canonical export of `g`:
        c.next_node_id == g.next_id(),
        c.nodes@.len() == g.nodes_view().len(),
        forall|i: int| 0 <= i < c.nodes@.len()
            ==> (#[trigger] c.nodes@[i]).id == g.nodes_view()[i].0
                && c.nodes@[i].entity == g.nodes_view()[i].1,
        c.edges@.len() == g.edges_view().len(),
        forall|i: int| 0 <= i < c.edges@.len()
            ==> (#[trigger] c.edges@[i]).from == g.edges_view()[i].0
                && c.edges@[i].to == g.edges_view()[i].1
                && c.edges@[i].weight == g.edges_view()[i].2,
        // `h` is the reconstruction from `c`:
        as_map(h.nodes_view()) == canon_nodes_map(c.nodes@),
        forall|f: u64, t: u64| #[trigger] h.has_edge(f, t)
            <==> canon_has_edge(canon_nodes_map(c.nodes@), c.edges@, f, t),
        forall|f: u64, t: u64| #[trigger] h.has_edge(f, t)
            ==> h.edge_val(f, t) == canon_edge_val(canon_nodes_map(c.nodes@), c.edges@, f, t),
        h.next_id() == (if c.next_node_id >= canon_next_floor(c.nodes@) {
            c.next_node_id
        } else {
            canon_next_floor(c.nodes@)
        }),
    ensures
        h.nodes_view() == g.nodes_view(),
        h.node_count_spec() == g.node_count_spec(),
        forall|f: u64, t: u64| #[trigger] h.has_edge(f, t) <==> #[trigger] g.has_edge(f, t),
        forall|f: u64, t: u64| #[trigger] g.has_edge(f, t) ==> h.edge_val(f, t) == g.edge_val(f, t),
        h.edges_view() == g.edges_view(),
        h.edge_total() == g.edge_total(),
        h.next_id() == g.next_id(),
{
    let nm = canon_nodes_map(c.nodes@);
    lemma_fold_nodes(g.nodes_view(), c.nodes@);
    assert(nm == as_map(g.nodes_view()));

    // The exported edge list is exactly the edge relation of `g`.
    lemma_flat_char(g.adj_raw());
    assert forall|i: int| 0 <= i < g.edges_view().len()
        implies g.has_edge((#[trigger] g.edges_view()[i]).0, g.edges_view()[i].1)
            && g.edge_val(g.edges_view()[i].0, g.edges_view()[i].1) == g.edges_view()[i].2
            && nm.dom().contains(g.edges_view()[i].0) && nm.dom().contains(g.edges_view()[i].1) by {
        let e = g.edges_view()[i];
        assert(edge3_in(g.edges_view(), e.0, e.1, e.2));
        assert(has_key(g.adj_raw(), e.0) && has_key(val_of(g.adj_raw(), e.0)@, e.1));
        assert(g.has_edge(e.0, e.1) && g.edge_val(e.0, e.1) == e.2);
        let m = key_idx(g.adj_raw(), e.0);
        assert(g.has_node(g.adj_raw()[m].0));
        let row = val_of(g.adj_raw(), e.0)@;
        let j = key_idx(row, e.1);
        assert(g.adj_raw()[m].1@[j].0 == e.1);
        assert(g.has_node(e.1));
        assert(nm.dom().contains(e.0) == has_key(g.nodes_view(), e.0));
        assert(nm.dom().contains(e.1) == has_key(g.nodes_view(), e.1));
    }
    lemma_canon_edges_char(g, nm, c.edges@, g.edges_view());

    // Edge relations coincide.
    assert forall|f: u64, t: u64| #[trigger] h.has_edge(f, t) <==> #[trigger] g.has_edge(f, t) by {
        if g.has_edge(f, t) {
            let m = key_idx(g.adj_raw(), f);
            lemma_idx_unique(g.adj_raw(), f, key_idx(g.adj_raw(), f));
            let row = g.neighbors_of(f);
            let j = key_idx(row, t);
            lemma_idx_unique(row, t, j);
            let w = row[j].1;
            assert(val_of(row, t) == w);
            assert(edge3_in(g.edges_view(), f, t, w));
            let i = choose|i: int| 0 <= i < g.edges_view().len() && g.edges_view()[i] == (f, t, w);
            assert(g.edges_view()[i].0 == f && g.edges_view()[i].1 == t);
            assert(canon_has_edge(nm, c.edges@, f, t));
        }
        if canon_has_edge(nm, c.edges@, f, t) {
            let i = choose|i: int|
                0 <= i < g.edges_view().len() && (#[trigger] g.edges_view()[i]).0 == f
                    && g.edges_view()[i].1 == t;
            assert(g.has_edge(f, t));
        }
    }
    assert forall|f: u64, t: u64| #[trigger] g.has_edge(f, t)
        implies h.edge_val(f, t) == g.edge_val(f, t) by {
        assert(h.has_edge(f, t));
        assert(canon_has_edge(nm, c.edges@, f, t));
        assert(canon_edge_val(nm, c.edges@, f, t) == g.edge_val(f, t));
    }

    // Same content, both well-formed: identical views.
    assert forall|f: u64, t: u64| #[trigger] g.has_edge(f, t)
        implies g.edge_val(f, t) == h.edge_val(f, t) by {}
    lemma_export_deterministic(h, g);

    // The counter: every exported id sits below it (or it is saturated),
    // so the rebuilt floor never exceeds it.
    if g.next_id() == u64::MAX {
    } else {
        assert forall|i: int| 0 <= i < c.nodes@.len()
            implies (#[trigger] c.nodes@[i]).id < g.next_id() by {
            assert(g.nodes_view()[i].0 < g.next_id());
        }
        lemma_floor_bound(c.nodes@, g.next_id());
    }
}

} // verus!
