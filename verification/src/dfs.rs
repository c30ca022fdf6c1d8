//! Depth-first traversal: pre-order visitation over the same sorted
//! adjacency rows as the breadth-first walk, with the same depth cap and
//! the same visited-at-first-sight semantics.
//!
//! The walk is modelled as a small-step interpreter over an explicit stack
//! of partially processed rows; the executable walker advances that
//! interpreter one step per iteration, so the produced artifact is exactly
//! the interpreter's outcome.

use vstd::prelude::*;
use crate::primitives::{Artifact, ArtifactModel, NodeId, MAX_TRAVERSAL_DEPTH};
use crate::graph::Graph;
use crate::traversal::{contains_id_vec, id_in, to_edge_vec, to_node_vec};
use crate::strongest::lemma_ids_len;

verus! {

/// A suspended row walk: source node, its depth, and the row left to scan.
pub type DfsFrame = (u64, usize, Seq<(u64, i64)>);

/// Total row material left on the stack.
pub open spec fn rows_total(st: Seq<DfsFrame>) -> nat
    decreases st.len(),
{
    if st.len() == 0 {
        0
    } else {
        rows_total(st.drop_last()) + st.last().2.len()
    }
}

/// Interpreter sanity: well-formed graph, distinct visited node ids, and
/// every id mentioned by a pending row an existing node.
pub open spec fn dfs_ok(g: Graph, st: Seq<DfsFrame>, vis: Seq<u64>) -> bool {
    &&& g.wf()
    &&& vis.no_duplicates()
    &&& (forall|i: int| 0 <= i < vis.len() ==> g.has_node(#[trigger] vis[i]))
    &&& (forall|i: int, j: int| 0 <= i < st.len() && 0 <= j < st[i].2.len()
        ==> g.has_node((#[trigger] st[i].2[j]).0))
    &&& (forall|i: int| 0 <= i < st.len() ==> (#[trigger] st[i]).2.len() <= g.edge_total())
}

/// The interpreter's termination measure.
pub open spec fn dfs_measure(g: Graph, st: Seq<DfsFrame>, vis: Seq<u64>) -> int {
    (g.node_count_spec() - vis.len()) * (2 * g.edge_total() + 2) + 2 * rows_total(st) + st.len()
}

/// Run the depth-first interpreter to completion: take the top frame,
/// record its next edge, visit an unseen target (descending into its row
/// when the cap allows), and drop exhausted frames. The visited order is
/// the pre-order path.
pub open spec fn dfs_run(
    g: Graph,
    maxd: usize,
    st: Seq<DfsFrame>,
    vis: Seq<u64>,
    es: Seq<(u64, u64, i64)>,
) -> (Seq<u64>, Seq<(u64, u64, i64)>)
    decreases dfs_measure(g, st, vis),
        when dfs_ok(g, st, vis)
        via dfs_run_dec
{
    if st.len() == 0 {
        (vis, es)
    } else {
        let f = st.last();
        if f.2.len() == 0 {
            dfs_run(g, maxd, st.drop_last(), vis, es)
        } else {
            let e = f.2.first();
            let st2 = st.drop_last().push((f.0, f.1, f.2.drop_first()));
            let es2 = es.push((f.0, e.0, e.1));
            if id_in(vis, e.0) {
                dfs_run(g, maxd, st2, vis, es2)
            } else {
                let vis2 = vis.push(e.0);
                if f.1 + 1 < maxd {
                    dfs_run(g, maxd, st2.push((e.0, (f.1 + 1) as usize, g.neighbors_of(e.0))), vis2, es2)
                } else {
                    dfs_run(g, maxd, st2, vis2, es2)
                }
            }
        }
    }
}

/// Any one adjacency row is no longer than the whole edge count.
pub proof fn lemma_row_le_total(g: Graph, c: u64)
    requires
        g.wf(),
    ensures
        g.neighbors_of(c).len() <= g.edge_total(),
{
    if crate::sorted::has_key(g.adj_raw(), c) {
        let i = crate::sorted::key_idx(g.adj_raw(), c);
        lemma_total_ge_elem(g.adj_raw(), i);
    }
}

/// The edge total dominates each single row's length.
proof fn lemma_total_ge_elem(s: Seq<(u64, Vec<(u64, i64)>)>, i: int)
    requires
        0 <= i < s.len(),
    ensures
        crate::graph::adj_total(s) >= s[i].1@.len(),
    decreases s.len(),
{
    if i < s.len() - 1 {
        lemma_total_ge_elem(s.drop_last(), i);
    }
}

#[via_fn]
proof fn dfs_run_dec(
    g: Graph,
    maxd: usize,
    st: Seq<DfsFrame>,
    vis: Seq<u64>,
    es: Seq<(u64, u64, i64)>,
) {
    let k = 2 * g.edge_total() + 2;
    lemma_ids_len(g, vis);
    if st.len() > 0 {
        let f = st.last();
        assert(rows_total(st.drop_last()) == rows_total(st) - f.2.len());
        if f.2.len() == 0 {
            assert(st.drop_last().push(f) =~= st);
        } else {
            let e = f.2.first();
            let st2 = st.drop_last().push((f.0, f.1, f.2.drop_first()));
            assert(st2.drop_last() =~= st.drop_last());
            assert(st2.last() == (f.0, f.1, f.2.drop_first()));
            assert(rows_total(st2) == rows_total(st) - 1);
            assert(st2.len() == st.len());
            if id_in(vis, e.0) {
            } else {
                let vis2 = vis.push(e.0);
                assert(vis2.no_duplicates()) by {
                    assert forall|m: int| 0 <= m < vis.len() implies vis[m] != e.0 by {
                        if vis[m] == e.0 {
                            assert(id_in(vis, e.0));
                        }
                    }
                }
                lemma_ids_len(g, vis2);
                assert(vis2.len() == vis.len() + 1);
                assert((g.node_count_spec() - vis2.len()) * k
                    == (g.node_count_spec() - vis.len()) * k - k) by (nonlinear_arith)
                    requires vis2.len() == vis.len() + 1, k == 2 * g.edge_total() + 2;
                if f.1 + 1 < maxd {
                    lemma_row_le_total(g, e.0);
                    let st3 = st2.push((e.0, (f.1 + 1) as usize, g.neighbors_of(e.0)));
                    assert(st3.drop_last() =~= st2);
                    assert(rows_total(st3) == rows_total(st2) + g.neighbors_of(e.0).len());
                }
            }
        }
    }
}

/// The interpreter only appends to the visited order, keeps its prefix,
/// and keeps it a duplicate-free list of graph nodes.
pub proof fn lemma_dfs_run_props(
    g: Graph,
    maxd: usize,
    st: Seq<DfsFrame>,
    vis: Seq<u64>,
    es: Seq<(u64, u64, i64)>,
)
    requires
        dfs_ok(g, st, vis),
    ensures
        ({
            let r = dfs_run(g, maxd, st, vis, es);
            &&& r.0.len() >= vis.len()
            &&& (forall|m: int| 0 <= m < vis.len() ==> r.0[m] == vis[m])
            &&& r.0.no_duplicates()
            &&& (forall|m: int| 0 <= m < r.0.len() ==> g.has_node(#[trigger] r.0[m]))
        }),
    decreases dfs_measure(g, st, vis),
{
    lemma_ids_len(g, vis);
    if st.len() > 0 {
        let f = st.last();
        assert(rows_total(st.drop_last()) == rows_total(st) - f.2.len());
        assert(forall|m: int| 0 <= m < st.len() - 1 ==> #[trigger] st.drop_last()[m] == st[m]);
        if f.2.len() == 0 {
            assert(dfs_ok(g, st.drop_last(), vis));
            lemma_dfs_run_props(g, maxd, st.drop_last(), vis, es);
            assert(dfs_run(g, maxd, st, vis, es) == dfs_run(g, maxd, st.drop_last(), vis, es));
        } else {
            let e = f.2.first();
            let st2 = st.drop_last().push((f.0, f.1, f.2.drop_first()));
            assert(st2.drop_last() =~= st.drop_last());
            assert(st2.last() == (f.0, f.1, f.2.drop_first()));
            assert(rows_total(st2) == rows_total(st) - 1);
            assert(forall|m: int| 0 <= m < st2.len() - 1 ==> #[trigger] st2[m] == st[m]);
            assert(forall|j: int| 0 <= j < f.2.drop_first().len()
                ==> #[trigger] f.2.drop_first()[j] == f.2[j + 1]);
            assert(dfs_ok(g, st2, vis)) by {
                assert forall|i: int, j: int| 0 <= i < st2.len() && 0 <= j < st2[i].2.len()
                    implies g.has_node((#[trigger] st2[i].2[j]).0) by {
                    if i < st2.len() - 1 {
                        assert(st2[i] == st[i]);
                        assert(g.has_node(st[i].2[j].0));
                    } else {
                        assert(st2[i].2[j] == f.2[j + 1]);
                        assert(g.has_node(st[st.len() - 1].2[j + 1].0));
                    }
                }
            }
            let es2 = es.push((f.0, e.0, e.1));
            if id_in(vis, e.0) {
                lemma_dfs_run_props(g, maxd, st2, vis, es2);
                assert(dfs_run(g, maxd, st, vis, es) == dfs_run(g, maxd, st2, vis, es2));
            } else {
                let vis2 = vis.push(e.0);
                assert(vis2.no_duplicates()) by {
                    assert forall|m: int| 0 <= m < vis.len() implies vis[m] != e.0 by {
                        if vis[m] == e.0 {
                            assert(id_in(vis, e.0));
                        }
                    }
                }
                assert(g.has_node(e.0)) by {
                    assert(g.has_node(st[st.len() - 1].2[0].0));
                }
                lemma_ids_len(g, vis2);
                assert((g.node_count_spec() - vis2.len()) * (2 * g.edge_total() + 2)
                    == (g.node_count_spec() - vis.len()) * (2 * g.edge_total() + 2)
                        - (2 * g.edge_total() + 2)) by (nonlinear_arith)
                    requires vis2.len() == vis.len() + 1;
                if f.1 + 1 < maxd {
                    lemma_row_le_total(g, e.0);
                    let st3 = st2.push((e.0, (f.1 + 1) as usize, g.neighbors_of(e.0)));
                    assert(st3.drop_last() =~= st2);
                    assert(rows_total(st3) == rows_total(st2) + g.neighbors_of(e.0).len());
                    g.lemma_neighbors_are_nodes(e.0);
                    assert(dfs_ok(g, st3, vis2)) by {
                        assert(forall|m: int| 0 <= m < st3.len() - 1 ==> #[trigger] st3[m] == st2[m]);
                        assert(st3[st3.len() - 1] == (e.0, (f.1 + 1) as usize, g.neighbors_of(e.0)));
                    }
                    lemma_dfs_run_props(g, maxd, st3, vis2, es2);
                    assert(dfs_run(g, maxd, st, vis, es) == dfs_run(g, maxd, st3, vis2, es2));
                    assert forall|m: int| 0 <= m < vis.len()
                        implies dfs_run(g, maxd, st, vis, es).0[m] == vis[m] by {
                        assert(dfs_run(g, maxd, st3, vis2, es2).0[m] == vis2[m]);
                    }
                } else {
                    lemma_dfs_run_props(g, maxd, st2, vis2, es2);
                    assert(dfs_run(g, maxd, st, vis, es) == dfs_run(g, maxd, st2, vis2, es2));
                    assert forall|m: int| 0 <= m < vis.len()
                        implies dfs_run(g, maxd, st, vis, es).0[m] == vis[m] by {
                        assert(dfs_run(g, maxd, st2, vis2, es2).0[m] == vis2[m]);
                    }
                }
            }
        }
    } else {
        assert(dfs_run(g, maxd, st, vis, es) == (vis, es));
    }
}

/// The shape of every depth-first result: it starts at the start node,
/// visits only nodes of the graph, and visits each node at most once —
/// the same visited-set discipline as the breadth-first walk.
pub proof fn lemma_dfs_path_shape(g: Graph, start: u64, depth: usize)
    requires
        g.wf(),
        g.has_node(start),
    ensures
        ({
            let m = Graph::dfs_model(g, start, depth);
            &&& m.path.len() >= 1
            &&& m.path[0] == start
            &&& (forall|i: int| 0 <= i < m.path.len() ==> g.has_node(#[trigger] m.path[i]))
            &&& m.path.no_duplicates()
        }),
{
    let maxd = Graph::clamp_depth(depth);
    let vis0 = Seq::<u64>::empty().push(start);
    let st0: Seq<DfsFrame> = if 0 < maxd {
        Seq::empty().push((start, 0usize, g.neighbors_of(start)))
    } else {
        Seq::empty()
    };
    g.lemma_neighbors_are_nodes(start);
    lemma_row_le_total(g, start);
    assert(vis0.no_duplicates());
    lemma_dfs_run_props(g, maxd, st0, vis0, Seq::empty());
    let r = dfs_run(g, maxd, st0, vis0, Seq::empty());
    assert(r.0[0] == vis0[0]);
    assert(vis0[0] == start);
}

/// The view of one executable stack frame: the unscanned suffix of its row.
pub open spec fn frame_view(f: (u64, usize, Vec<(u64, i64)>, usize)) -> DfsFrame {
    (f.0, f.1, f.2@.skip(f.3 as int))
}

/// The interpreter stack an executable stack stands for.
pub open spec fn frames_view(st: Seq<(u64, usize, Vec<(u64, i64)>, usize)>) -> Seq<DfsFrame> {
    st.map(|_i: int, f: (u64, usize, Vec<(u64, i64)>, usize)| frame_view(f))
}

impl Graph {
    /// The exact outcome of the depth-first walk: pre-order path and every
    /// examined edge, under the clamped depth cap.
    pub open spec fn dfs_model(g: Graph, start: u64, depth: usize) -> ArtifactModel {
        let maxd = Graph::clamp_depth(depth);
        let st0: Seq<DfsFrame> = if 0 < maxd {
            Seq::empty().push((start, 0usize, g.neighbors_of(start)))
        } else {
            Seq::empty()
        };
        let r = dfs_run(g, maxd, st0, Seq::empty().push(start), Seq::empty());
        ArtifactModel { path: r.0, subgraph: r.1 }
    }

    /// Depth-first traversal from `start`, depth capped at
    /// [`MAX_TRAVERSAL_DEPTH`]: `None` exactly when `start` does not exist,
    /// otherwise the pre-order walk over the sorted adjacency rows, with
    /// the same visited-set semantics as the breadth-first variant.
    pub fn traverse_dfs(&self, start: NodeId, depth: usize) -> (r: Option<Artifact>)
        requires
            self.wf(),
        ensures
            r is Some <==> self.has_node(start.0),
            r is Some ==> (r->Some_0)@.path == Graph::dfs_model(*self, start.0, depth).path
                && (r->Some_0)@.subgraph == Graph::dfs_model(*self, start.0, depth).subgraph,
    {
        if !self.contains_node(start) {
            return None;
        }
        let maxd = if depth > MAX_TRAVERSAL_DEPTH {
            MAX_TRAVERSAL_DEPTH
        } else {
            depth
        };
        let mut vis: Vec<u64> = Vec::new();
        let mut es: Vec<(u64, u64, i64)> = Vec::new();
        let mut stack: Vec<(u64, usize, Vec<(u64, i64)>, usize)> = Vec::new();
        vis.push(start.0);
        if 0 < maxd {
            let row = self.row_of(start.0);
            stack.push((start.0, 0, row, 0));
        }
        let ghost st0 = frames_view(stack@);
        let ghost vis0 = vis@;
        let ghost es0 = es@;
        proof {
            self.lemma_neighbors_are_nodes(start.0);
            lemma_row_le_total(*self, start.0);
            if 0 < maxd {
                assert(stack@[0].2@.skip(0) =~= stack@[0].2@);
                assert(frame_view(stack@[0]) == (start.0, 0usize, self.neighbors_of(start.0)));
                assert(st0 =~= Seq::<DfsFrame>::empty().push((start.0, 0usize, self.neighbors_of(start.0))));
            } else {
                assert(st0 =~= Seq::<DfsFrame>::empty());
            }
            assert(vis0 =~= Seq::<u64>::empty().push(start.0));
            assert(es0 =~= Seq::<(u64, u64, i64)>::empty());
        }
        while stack.len() > 0
            invariant
                self.wf(),
                dfs_ok(*self, frames_view(stack@), vis@),
                forall|i: int| 0 <= i < stack@.len()
                    ==> (#[trigger] stack@[i]).3 <= stack@[i].2@.len(),
                forall|i: int| 0 <= i < stack@.len() ==> (#[trigger] stack@[i]).1 < maxd,
                dfs_run(*self, maxd, frames_view(stack@), vis@, es@)
                    == dfs_run(*self, maxd, st0, vis0, es0),
            decreases dfs_measure(*self, frames_view(stack@), vis@),
        {
            let ghost stv_in = frames_view(stack@);
            let ghost vis_in = vis@;
            let ghost es_in = es@;
            proof {
                lemma_ids_len(*self, vis@);
            }
            let f = match stack.pop() {
                Some(f) => f,
                None => {
                    proof {
                        assert(false);
                    }
                    (0, 0, Vec::new(), 0)
                }
            };
            let (src, d, row, idx) = f;
            proof {
                assert(stv_in.last() == frame_view((src, d, row, idx)));
                assert(frames_view(stack@) =~= stv_in.drop_last());
            }
            if idx >= row.len() {
                proof {
                    assert(stv_in.last().2.len() == 0);
                    assert(dfs_run(*self, maxd, stv_in, vis_in, es_in)
                        == dfs_run(*self, maxd, frames_view(stack@), vis@, es@));
                    assert(rows_total(stv_in) == rows_total(stv_in.drop_last()) + stv_in.last().2.len());
                }
            } else {
                let t = row[idx].0;
                let w = row[idx].1;
                let ghost rest = row@.skip(idx as int);
                proof {
                    assert(rest.first() == row@[idx as int]);
                    assert(rest.drop_first() =~= row@.skip(idx as int + 1));
                }
                es.push((src, t, w));
                let fresh = !contains_id_vec(&vis, t);
                stack.push((src, d, row, idx + 1));
                let ghost st2 = frames_view(stack@);
                proof {
                    assert(st2 =~= stv_in.drop_last().push((src, d, rest.drop_first())));
                    assert(st2.drop_last() =~= stv_in.drop_last());
                    assert(st2.last() == (src, d, rest.drop_first()));
                    assert(rows_total(st2) == rows_total(stv_in.drop_last()) + rest.drop_first().len());
                    assert(stv_in.last() == (src, d, rest));
                    assert(rows_total(stv_in) == rows_total(stv_in.drop_last()) + rest.len());
                }
                if fresh {
                    vis.push(t);
                    proof {
                        assert(vis@.no_duplicates()) by {
                            assert(forall|m: int| 0 <= m < vis_in.len() ==> vis@[m] == vis_in[m]);
                            assert forall|m: int| 0 <= m < vis_in.len() implies vis_in[m] != t by {
                                if vis_in[m] == t {
                                    assert(id_in(vis_in, t));
                                }
                            }
                        }
                        lemma_ids_len(*self, vis@);
                        assert((self.node_count_spec() - vis@.len()) * (2 * self.edge_total() + 2)
                            == (self.node_count_spec() - vis_in.len()) * (2 * self.edge_total() + 2)
                                - (2 * self.edge_total() + 2)) by (nonlinear_arith)
                            requires vis@.len() == vis_in.len() + 1;
                    }
                    if d + 1 < maxd {
                        let crow = self.row_of(t);
                        proof {
                            self.lemma_neighbors_are_nodes(t);
                            lemma_row_le_total(*self, t);
                        }
                        stack.push((t, d + 1, crow, 0));
                        proof {
                            assert(crow@.skip(0) =~= crow@);
                            assert(frames_view(stack@) =~= st2.push((t, (d + 1) as usize, self.neighbors_of(t))));
                            assert(frames_view(stack@).drop_last() =~= st2);
                            assert(rows_total(frames_view(stack@))
                                == rows_total(st2) + self.neighbors_of(t).len());
                            assert(dfs_run(*self, maxd, stv_in, vis_in, es_in)
                                == dfs_run(*self, maxd, frames_view(stack@), vis@, es@));
                        }
                    } else {
                        proof {
                            assert(dfs_run(*self, maxd, stv_in, vis_in, es_in)
                                == dfs_run(*self, maxd, frames_view(stack@), vis@, es@));
                        }
                    }
                } else {
                    proof {
                        assert(id_in(vis_in, t));
                        assert(dfs_run(*self, maxd, stv_in, vis_in, es_in)
                            == dfs_run(*self, maxd, frames_view(stack@), vis@, es@));
                    }
                }
            }
        }
        proof {
            assert(frames_view(stack@) =~= Seq::<DfsFrame>::empty());
            assert(dfs_run(*self, maxd, frames_view(stack@), vis@, es@) == (vis@, es@));
        }
        let a = Artifact::with_subgraph(to_node_vec(&vis), to_edge_vec(&es));
        proof {
            assert(a@.path =~= vis@);
            assert(a@.subgraph =~= es@);
            assert(Graph::clamp_depth(depth) == maxd);
        }
        Some(a)
    }
}

} // verus!
