use crate::gtsp::{
    lemma_path_cost_bound, lemma_path_cost_join, path_cost, tour_weight, valid_tour, GtspProblem,
    Solution, MAX_ARC, MAX_VERTICES,
};
use crate::{tours_of, ImprovementHeuristic, Neighborhood};
use vstd::prelude::*;

verus! {

/// Re-selects the vertex visited in every cluster, keeping the cyclic order of the clusters,
/// so as to minimise the weight of the tour.
#[derive(Clone, Copy)]
pub struct ClusterOptimization;

/// The cluster at layer `k` of the cycle that visits the clusters `ord` in turn: layers
/// `0 .. ord.len()` are `ord`, and layer `ord.len()` returns to the first.
pub open spec fn layer(ord: Seq<usize>, k: int) -> int {
    if k < ord.len() {
        ord[k] as int
    } else {
        ord[0] as int
    }
}

/// Whether `idx` picks, at each layer `k`, the index of a vertex of that layer's cluster.
pub open spec fn is_layered(p: &GtspProblem, ord: Seq<usize>, idx: Seq<int>) -> bool {
    forall|k: int| 0 <= k < idx.len() ==> 0 <= #[trigger] idx[k] < p.cluster_seq()[layer(ord, k)].len()
}

/// The vertices that `idx` picks, layer by layer.
pub open spec fn layered_path(p: &GtspProblem, ord: Seq<usize>, idx: Seq<int>) -> Seq<usize> {
    Seq::new(idx.len(), |k: int| p.cluster_seq()[layer(ord, k)][idx[k]])
}

/// Whether `ord` lists clusters of `p`, none of them twice.
pub open spec fn is_order(p: &GtspProblem, ord: Seq<usize>) -> bool {
    &&& 1 <= ord.len() <= p.cluster_count()
    &&& forall|k: int| 0 <= k < ord.len() ==> #[trigger] ord[k] < p.cluster_count()
    &&& forall|k1: int, k2: int| 0 <= k1 < k2 < ord.len() ==> #[trigger] ord[k1] != #[trigger] ord[k2]
}

/// The vertex at index `b` of the cluster at layer `k`.
fn layer_vertex(problem: &GtspProblem, ord: &Vec<usize>, k: usize, b: usize) -> (r: usize)
    requires
        problem.wf(),
        is_order(problem, ord@),
        k <= ord.len(),
        b < problem.cluster_seq()[layer(ord@, k as int)].len(),
    ensures
        r == problem.cluster_seq()[layer(ord@, k as int)][b as int],
        r < problem.vertex_count(),
        problem.cluster_of(r as int) == layer(ord@, k as int),
{
    let c = if k < ord.len() { ord[k] } else { ord[0] };
    problem.cluster_vertex(c, b)
}

/// The number of vertices of the cluster at layer `k`.
fn layer_len(problem: &GtspProblem, ord: &Vec<usize>, k: usize) -> (r: usize)
    requires
        problem.wf(),
        is_order(problem, ord@),
        k <= ord.len(),
    ensures
        r == problem.cluster_seq()[layer(ord@, k as int)].len(),
        r > 0,
{
    let c = if k < ord.len() { ord[k] } else { ord[0] };
    problem.cluster_len(c)
}

/// The cost of the arc from index `a` of layer `i` to index `b` of layer `i + 1`.
pub open spec fn layer_arc(p: &GtspProblem, ord: Seq<usize>, i: int, a: int, b: int) -> int {
    p.arc(
        p.cluster_seq()[layer(ord, i)][a] as int,
        p.cluster_seq()[layer(ord, i + 1)][b] as int,
    )
}

/// One round of the dynamic programme: from the best known costs `cur` of reaching each vertex
/// of layer `i`, the best costs of reaching each vertex of layer `i + 1` through one more arc,
/// each with the index in layer `i` it is reached from.
fn relax(problem: &GtspProblem, ord: &Vec<usize>, i: usize, cur: &Vec<Option<i64>>) -> (r: (
    Vec<Option<i64>>,
    Vec<usize>,
))
    requires
        problem.wf(),
        is_order(problem, ord@),
        i < ord.len(),
        cur.len() == problem.cluster_seq()[layer(ord@, i as int)].len(),
        forall|a: int|
            0 <= a < cur.len() && (#[trigger] cur[a]) is Some ==> -((i + 1) * MAX_ARC) <= cur[a]->0
                <= (i + 1) * MAX_ARC,
    ensures
        r.0.len() == problem.cluster_seq()[layer(ord@, i + 1)].len(),
        r.1.len() == r.0.len(),
        forall|b: int|
            0 <= b < r.0.len() && (#[trigger] r.0[b]) is Some ==> {
                &&& r.1[b] < cur.len()
                &&& cur[r.1[b] as int] is Some
                &&& r.0[b]->0 == cur[r.1[b] as int]->0 + layer_arc(problem, ord@, i as int, r.1[b] as int, b)
            },
        forall|a: int, b: int|
            0 <= a < cur.len() && 0 <= b < r.0.len() && (#[trigger] cur[a]) is Some ==> {
                &&& (#[trigger] r.0[b]) is Some
                &&& r.0[b]->0 <= cur[a]->0 + layer_arc(problem, ord@, i as int, a, b)
            },
{
    let na = cur.len();
    let nb = layer_len(problem, ord, i + 1);
    let mut next: Vec<Option<i64>> = Vec::new();
    let mut parent: Vec<usize> = Vec::new();
    let mut b: usize = 0;
    while b < nb
        invariant
            b <= nb,
            next.len() == b,
            parent.len() == b,
            forall|x: int| 0 <= x < b ==> (#[trigger] next[x]) is None,
        decreases nb - b,
    {
        next.push(None);
        parent.push(0);
        b = b + 1;
    }
    let mut a: usize = 0;
    while a < na
        invariant
            problem.wf(),
            is_order(problem, ord@),
            i < ord.len(),
            ord.len() <= MAX_VERTICES,
            na == cur.len(),
            cur.len() == problem.cluster_seq()[layer(ord@, i as int)].len(),
            nb == problem.cluster_seq()[layer(ord@, i + 1)].len(),
            forall|x: int|
                0 <= x < cur.len() && (#[trigger] cur[x]) is Some ==> -((i + 1) * MAX_ARC) <= cur[x]->0
                    <= (i + 1) * MAX_ARC,
            a <= na,
            next.len() == nb,
            parent.len() == nb,
            forall|y: int|
                0 <= y < nb && (#[trigger] next[y]) is Some ==> {
                    &&& parent[y] < a
                    &&& cur[parent[y] as int] is Some
                    &&& next[y]->0 == cur[parent[y] as int]->0 + layer_arc(problem, ord@, i as int, parent[y] as int, y)
                },
            forall|x: int, y: int|
                0 <= x < a && 0 <= y < nb && (#[trigger] cur[x]) is Some ==> {
                    &&& (#[trigger] next[y]) is Some
                    &&& next[y]->0 <= cur[x]->0 + layer_arc(problem, ord@, i as int, x, y)
                },
        decreases na - a,
    {
        if let Some(a_dist) = cur[a] {
            let u = layer_vertex(problem, ord, i, a);
            let mut b: usize = 0;
            while b < nb
                invariant
                    problem.wf(),
                    is_order(problem, ord@),
                    i < ord.len(),
                    ord.len() <= MAX_VERTICES,
                    na == cur.len(),
                    a < na,
                    cur[a as int] == Some(a_dist),
                    -((i + 1) * MAX_ARC) <= a_dist <= (i + 1) * MAX_ARC,
                    u == problem.cluster_seq()[layer(ord@, i as int)][a as int],
                    u < problem.vertex_count(),
                    cur.len() == problem.cluster_seq()[layer(ord@, i as int)].len(),
                    nb == problem.cluster_seq()[layer(ord@, i + 1)].len(),
                    b <= nb,
                    next.len() == nb,
                    parent.len() == nb,
                    forall|y: int|
                        0 <= y < nb && (#[trigger] next[y]) is Some ==> {
                            &&& parent[y] <= a
                            &&& cur[parent[y] as int] is Some
                            &&& next[y]->0 == cur[parent[y] as int]->0 + layer_arc(problem, ord@, i as int, parent[y] as int, y)
                        },
                    forall|x: int, y: int|
                        0 <= x < a && 0 <= y < nb && (#[trigger] cur[x]) is Some ==> {
                            &&& (#[trigger] next[y]) is Some
                            &&& next[y]->0 <= cur[x]->0 + layer_arc(problem, ord@, i as int, x, y)
                        },
                    forall|y: int|
                        0 <= y < b ==> {
                            &&& (#[trigger] next[y]) is Some
                            &&& next[y]->0 <= a_dist + layer_arc(problem, ord@, i as int, a as int, y)
                        },
                decreases nb - b,
            {
                let v = layer_vertex(problem, ord, i + 1, b);
                let relaxed = a_dist + problem.dist(u, v);
                proof {
                    assert((i + 1) * MAX_ARC + MAX_ARC <= (MAX_VERTICES + 1) * MAX_ARC) by (nonlinear_arith)
                        requires
                            i < MAX_VERTICES,
                    ;
                }
                let better = match next[b] {
                    Some(d) => relaxed < d,
                    None => true,
                };
                if better {
                    next.set(b, Some(relaxed));
                    parent.set(b, a);
                }
                b = b + 1;
            }
        }
        a = a + 1;
    }
    (next, parent)
}

/// The layer indices of the best path found to index `b` of layer `i`, read back through the
/// parent rows `parents` (row `k` gives, for each index of layer `k`, the index of layer
/// `k - 1` it is reached from).
pub open spec fn recon(parents: Seq<Seq<usize>>, i: int, b: int) -> Seq<int>
    decreases i,
{
    if i <= 0 {
        seq![b]
    } else {
        recon(parents, i - 1, parents[i][b] as int).push(b)
    }
}

proof fn lemma_recon_shape(parents: Seq<Seq<usize>>, i: int, b: int)
    requires
        i >= 0,
    ensures
        recon(parents, i, b).len() == i + 1,
        recon(parents, i, b)[i] == b,
    decreases i,
{
    if i > 0 {
        lemma_recon_shape(parents, i - 1, parents[i][b] as int);
    }
}

/// Adding a parent row leaves the paths read back from earlier layers as they were.
proof fn lemma_recon_frame(parents: Seq<Seq<usize>>, row: Seq<usize>, i: int, b: int)
    requires
        0 <= i < parents.len(),
    ensures
        recon(parents.push(row), i, b) == recon(parents, i, b),
    decreases i,
{
    if i > 0 {
        assert(parents.push(row)[i] == parents[i]);
        lemma_recon_frame(parents, row, i - 1, parents[i][b] as int);
    }
}

/// Each index of a path read back is the parent of the next one.
proof fn lemma_recon_parent(parents: Seq<Seq<usize>>, n: int, b: int, i: int)
    requires
        1 <= i <= n,
    ensures
        recon(parents, n, b)[i - 1] == parents[i][recon(parents, n, b)[i] as int] as int,
    decreases n,
{
    let pb = parents[n][b] as int;
    lemma_recon_shape(parents, n - 1, pb);
    if i < n {
        lemma_recon_parent(parents, n - 1, pb, i);
    }
}

/// The state of the dynamic programme from index `a` of layer 0 after `i` rounds: `cur[b]` is
/// the cost of the cheapest layered path from `a` to index `b` of layer `i` (`None` where there
/// is none), and the parent rows read back such a path.
pub open spec fn dp_state(
    p: &GtspProblem,
    ord: Seq<usize>,
    a: int,
    i: int,
    cur: Seq<Option<i64>>,
    parents: Seq<Seq<usize>>,
) -> bool {
    &&& parents.len() == i + 1
    &&& forall|k: int| 1 <= k <= i ==> (#[trigger] parents[k]).len() == p.cluster_seq()[layer(ord, k)].len()
    &&& cur.len() == p.cluster_seq()[layer(ord, i)].len()
    &&& forall|b: int|
        0 <= b < cur.len() && (#[trigger] cur[b]) is Some ==> {
            &&& is_layered(p, ord, recon(parents, i, b))
            &&& recon(parents, i, b)[0] == a
            &&& path_cost(p, layered_path(p, ord, recon(parents, i, b))) == cur[b]->0
            &&& -((i + 1) * MAX_ARC) <= cur[b]->0 <= (i + 1) * MAX_ARC
        }
    &&& forall|idx: Seq<int>|
        idx.len() == i + 1 && #[trigger] is_layered(p, ord, idx) && idx[0] == a ==> {
            &&& cur[idx[i]] is Some
            &&& cur[idx[i]]->0 <= path_cost(p, layered_path(p, ord, idx))
        }
}

proof fn lemma_layered_in_range(p: &GtspProblem, ord: Seq<usize>, idx: Seq<int>)
    requires
        p.wf(),
        is_order(p, ord),
        is_layered(p, ord, idx),
        idx.len() <= ord.len() + 1,
    ensures
        crate::gtsp::in_range(p, layered_path(p, ord, idx)),
{
    let lp = layered_path(p, ord, idx);
    assert forall|k: int| 0 <= k < lp.len() implies #[trigger] lp[k] < p.vertex_count() by {
        assert(0 <= idx[k] < p.cluster_seq()[layer(ord, k)].len());
    }
}

/// A round of relaxation takes the state after `i` rounds to the state after `i + 1`.
proof fn lemma_dp_step(
    p: &GtspProblem,
    ord: Seq<usize>,
    a: int,
    i: int,
    cur: Seq<Option<i64>>,
    parents: Seq<Seq<usize>>,
    next: Seq<Option<i64>>,
    row: Seq<usize>,
)
    requires
        p.wf(),
        is_order(p, ord),
        0 <= i < ord.len(),
        dp_state(p, ord, a, i, cur, parents),
        next.len() == p.cluster_seq()[layer(ord, i + 1)].len(),
        row.len() == next.len(),
        forall|b: int|
            0 <= b < next.len() && (#[trigger] next[b]) is Some ==> {
                &&& row[b] < cur.len()
                &&& cur[row[b] as int] is Some
                &&& next[b]->0 == cur[row[b] as int]->0 + layer_arc(p, ord, i, row[b] as int, b)
            },
        forall|x: int, b: int|
            0 <= x < cur.len() && 0 <= b < next.len() && (#[trigger] cur[x]) is Some ==> {
                &&& (#[trigger] next[b]) is Some
                &&& next[b]->0 <= cur[x]->0 + layer_arc(p, ord, i, x, b)
            },
    ensures
        dp_state(p, ord, a, i + 1, next, parents.push(row)),
{
    let extended = parents.push(row);
    assert forall|k: int| 1 <= k <= i + 1 implies (#[trigger] extended[k]).len() == p.cluster_seq()[layer(ord, k)].len() by {
        if k <= i {
            assert(extended[k] == parents[k]);
        }
    }
    assert forall|b: int| 0 <= b < next.len() && (#[trigger] next[b]) is Some implies {
        &&& is_layered(p, ord, recon(extended, i + 1, b))
        &&& recon(extended, i + 1, b)[0] == a
        &&& path_cost(p, layered_path(p, ord, recon(extended, i + 1, b))) == next[b]->0
        &&& -((i + 2) * MAX_ARC) <= next[b]->0 <= (i + 2) * MAX_ARC
    } by {
        let pa = row[b] as int;
        assert(extended[i + 1] == row);
        lemma_recon_frame(parents, row, i, pa);
        let r0 = recon(parents, i, pa);
        lemma_recon_shape(parents, i, pa);
        let r1 = recon(extended, i + 1, b);
        assert(r1 == r0.push(b));
        assert(is_layered(p, ord, r1)) by {
            assert forall|k: int| 0 <= k < r1.len() implies 0 <= #[trigger] r1[k] < p.cluster_seq()[layer(ord, k)].len() by {
                if k < r0.len() {
                    assert(r1[k] == r0[k]);
                }
            }
        }
        let lp1 = layered_path(p, ord, r1);
        assert(lp1.drop_last() =~= layered_path(p, ord, r0));
        assert(r0[i] == pa);
        lemma_layered_in_range(p, ord, r1);
        lemma_path_cost_bound(p, lp1);
    }
    assert forall|idx: Seq<int>|
        idx.len() == i + 2 && #[trigger] is_layered(p, ord, idx) && idx[0] == a implies {
            &&& next[idx[i + 1]] is Some
            &&& next[idx[i + 1]]->0 <= path_cost(p, layered_path(p, ord, idx))
        } by {
        let idx0 = idx.drop_last();
        assert(is_layered(p, ord, idx0)) by {
            assert forall|k: int| 0 <= k < idx0.len() implies 0 <= #[trigger] idx0[k] < p.cluster_seq()[layer(ord, k)].len() by {
                assert(idx0[k] == idx[k]);
            }
        }
        assert(idx0[0] == a);
        assert(cur[idx0[i]] is Some);
        assert(idx0[i] == idx[i]);
        assert(0 <= idx[i] < cur.len());
        assert(0 <= idx[i + 1] < next.len());
        let lp = layered_path(p, ord, idx);
        assert(lp.drop_last() =~= layered_path(p, ord, idx0));
    }
}

/// The cheapest cycle that starts and ends at index `a` of the first cluster of `ord` and
/// visits the clusters of `ord` in turn: the vertices it visits in each cluster, and its weight.
fn cheapest_cycle(problem: &GtspProblem, ord: &Vec<usize>, a: usize) -> (r: (Vec<usize>, i64))
    requires
        problem.wf(),
        is_order(problem, ord@),
        a < problem.cluster_seq()[layer(ord@, 0)].len(),
    ensures
        r.0.len() == ord.len(),
        r.0@[0] == problem.cluster_seq()[layer(ord@, 0)][a as int],
        forall|k: int| 0 <= k < ord.len() ==> problem.cluster_seq()[ord[k] as int].contains(#[trigger] r.0@[k]),
        forall|k: int| 0 <= k < ord.len() ==> #[trigger] r.0@[k] < problem.vertex_count(),
        tour_weight(problem, r.0@) == r.1,
        forall|idx: Seq<int>|
            idx.len() == ord.len() + 1 && #[trigger] is_layered(problem, ord@, idx) && idx[0] == a
                && idx[ord.len() as int] == a ==> r.1 <= path_cost(problem, layered_path(problem, ord@, idx)),
{
    let m = ord.len();
    let n0 = layer_len(problem, ord, 0);
    let mut cur: Vec<Option<i64>> = Vec::new();
    let mut x: usize = 0;
    while x < n0
        invariant
            x <= n0,
            cur.len() == x,
            a < n0,
            forall|y: int| 0 <= y < x ==> (#[trigger] cur[y]) == (if y == a { Some(0i64) } else { None }),
        decreases n0 - x,
    {
        if x == a {
            cur.push(Some(0));
        } else {
            cur.push(None);
        }
        x = x + 1;
    }
    let mut parents: Vec<Vec<usize>> = Vec::new();
    parents.push(Vec::new());
    proof {
        let ps = crate::gtsp::vecs_view(parents@);
        assert(recon(ps, 0, a as int) == seq![a as int]);
        assert(layered_path(problem, ord@, seq![a as int]).len() == 1);
        assert forall|idx: Seq<int>|
            idx.len() == 1 && #[trigger] is_layered(problem, ord@, idx) && idx[0] == a implies {
                &&& cur@[idx[0]] is Some
                &&& cur@[idx[0]]->0 <= path_cost(problem, layered_path(problem, ord@, idx))
            } by {
        }
        assert forall|b: int| 0 <= b < cur@.len() && (#[trigger] cur@[b]) is Some implies {
            &&& is_layered(problem, ord@, recon(ps, 0, b))
            &&& recon(ps, 0, b)[0] == a
            &&& path_cost(problem, layered_path(problem, ord@, recon(ps, 0, b))) == cur@[b]->0
            &&& -((0 + 1) * MAX_ARC) <= cur@[b]->0 <= (0 + 1) * MAX_ARC
        } by {
            assert(b == a);
            assert(recon(ps, 0, b) == seq![b]);
        }
        assert(dp_state(problem, ord@, a as int, 0, cur@, ps));
    }
    let mut i: usize = 0;
    while i < m
        invariant
            problem.wf(),
            is_order(problem, ord@),
            m == ord.len(),
            i <= m,
            dp_state(problem, ord@, a as int, i as int, cur@, crate::gtsp::vecs_view(parents@)),
        decreases m - i,
    {
        let (next, row) = relax(problem, ord, i, &cur);
        proof {
            let ps = crate::gtsp::vecs_view(parents@);
            lemma_dp_step(problem, ord@, a as int, i as int, cur@, ps, next@, row@);
            assert(crate::gtsp::vecs_view(parents@.push(row)) =~= ps.push(row@));
        }
        parents.push(row);
        cur = next;
        i = i + 1;
    }
    let ghost ps = crate::gtsp::vecs_view(parents@);
    let ghost witness = Seq::new((m + 1) as nat, |k: int| if k == 0 || k == m { a as int } else { 0 });
    proof {
        assert(is_layered(problem, ord@, witness)) by {
            assert forall|k: int| 0 <= k < witness.len() implies 0 <= #[trigger] witness[k] < problem.cluster_seq()[layer(ord@, k)].len() by {
                assert(problem.cluster_seq()[layer(ord@, k)].len() > 0);
            }
        }
        assert(cur@[witness[m as int]] is Some);
    }
    let d = match cur[a] {
        Some(d) => d,
        None => 0,
    };
    let ghost path = recon(ps, m as int, a as int);
    proof {
        lemma_recon_shape(ps, m as int, a as int);
    }
    let mut rev: Vec<usize> = Vec::new();
    let mut b: usize = a;
    let mut i: usize = m;
    while i > 0
        invariant
            problem.wf(),
            is_order(problem, ord@),
            m == ord.len(),
            i <= m,
            ps == crate::gtsp::vecs_view(parents@),
            ps.len() == m + 1,
            forall|k: int| 1 <= k <= m ==> (#[trigger] ps[k]).len() == problem.cluster_seq()[layer(ord@, k)].len(),
            path == recon(ps, m as int, a as int),
            path.len() == m + 1,
            is_layered(problem, ord@, path),
            b == path[i as int],
            rev.len() == m - i,
            forall|j: int| 0 <= j < rev.len() ==> #[trigger] rev[j] == path[m - j],
        decreases i,
    {
        rev.push(b);
        proof {
            lemma_recon_parent(ps, m as int, a as int, i as int);
            assert(0 <= path[i as int] < problem.cluster_seq()[layer(ord@, i as int)].len());
        }
        b = parents[i][b];
        i = i - 1;
    }
    let mut tour: Vec<usize> = Vec::new();
    let mut k: usize = 0;
    while k < m
        invariant
            problem.wf(),
            is_order(problem, ord@),
            m == ord.len(),
            k <= m,
            path.len() == m + 1,
            is_layered(problem, ord@, path),
            path[0] == a,
            rev.len() == m,
            forall|j: int| 0 <= j < rev.len() ==> #[trigger] rev[j] == path[m - j],
            tour@ =~= layered_path(problem, ord@, path).take(k as int),
        decreases m - k,
    {
        let idx = if k == 0 { a } else { rev[m - k] };
        assert(idx == path[k as int]);
        assert(0 <= path[k as int] < problem.cluster_seq()[layer(ord@, k as int)].len());
        let v = layer_vertex(problem, ord, k, idx);
        tour.push(v);
        k = k + 1;
    }
    proof {
        let lp = layered_path(problem, ord@, path);
        assert(path[m as int] == a);
        assert(tour@.push(tour@[0]) =~= lp);
        assert forall|k: int| 0 <= k < ord.len() implies problem.cluster_seq()[ord[k] as int].contains(#[trigger] tour@[k]) by {
            assert(0 <= path[k] < problem.cluster_seq()[layer(ord@, k)].len());
            assert(tour@[k] == problem.cluster_seq()[layer(ord@, k)][path[k]]);
        }
        lemma_layered_in_range(problem, ord@, path);
        assert forall|k: int| 0 <= k < ord.len() implies #[trigger] tour@[k] < problem.vertex_count() by {
            assert(tour@[k] == lp[k]);
        }
    }
    (tour, d)
}

/// The position that lies `k` places after position `s` in a cyclic tour of `m` positions.
pub open spec fn rotated_index(m: int, s: int, k: int) -> int {
    if s + k < m {
        s + k
    } else {
        s + k - m
    }
}

/// `w` read cyclically from position `s`.
pub open spec fn rotation(w: Seq<usize>, s: int) -> Seq<usize> {
    Seq::new(w.len(), |k: int| w[rotated_index(w.len() as int, s, k)])
}

/// A tour weighs the same whichever position it is read from.
pub proof fn lemma_rotation_weight(p: &GtspProblem, w: Seq<usize>, s: int)
    requires
        0 <= s < w.len(),
    ensures
        path_cost(p, rotation(w, s).push(w[s])) == tour_weight(p, w),
{
    let m = w.len() as int;
    let c = w.push(w[0]);
    let rp = rotation(w, s).push(w[s]);
    lemma_path_cost_join(p, c.subrange(0, s + 1), c.subrange(s, m + 1));
    assert(c.subrange(0, s + 1) + c.subrange(s, m + 1).drop_first() =~= c);
    lemma_path_cost_join(p, c.subrange(s, m + 1), c.subrange(0, s + 1));
    assert(rp =~= c.subrange(s, m + 1) + c.subrange(0, s + 1).drop_first());
}

/// Whether `w` visits, at each position, a vertex of the cluster that `t` visits there.
pub open spec fn same_cluster_positions(p: &GtspProblem, t: Seq<usize>, w: Seq<usize>) -> bool {
    &&& w.len() == t.len()
    &&& forall|q: int|
        0 <= q < w.len() ==> #[trigger] w[q] < p.vertex_count() && p.cluster_of(w[q] as int) == p.cluster_of(
            t[q] as int,
        )
}

/// Whether `w` visits the clusters in the cyclic order of `t`, read from position `s` of `t`.
pub open spec fn follows_cluster_order(p: &GtspProblem, t: Seq<usize>, w: Seq<usize>, s: int) -> bool {
    &&& 0 <= s < t.len()
    &&& w.len() == t.len()
    &&& forall|k: int|
        0 <= k < w.len() ==> p.cluster_of(#[trigger] w[k] as int) == p.cluster_of(
            t[rotated_index(t.len() as int, s, k)] as int,
        )
}

/// The size of the cluster that `t` visits at position `q`.
pub open spec fn cluster_size_at(p: &GtspProblem, t: Seq<usize>, q: int) -> int {
    p.cluster_seq()[p.cluster_of(t[q] as int)].len() as int
}

/// Whether position `s` of `t` is the first that visits a smallest cluster.
pub open spec fn is_first_smallest(p: &GtspProblem, t: Seq<usize>, s: int) -> bool {
    &&& 0 <= s < t.len()
    &&& forall|q: int| 0 <= q < t.len() ==> #[trigger] cluster_size_at(p, t, q) >= cluster_size_at(p, t, s)
    &&& forall|q: int| 0 <= q < s ==> #[trigger] cluster_size_at(p, t, q) > cluster_size_at(p, t, s)
}

/// Whether `w` is a cheapest tour among those that visit the clusters in the cyclic order of
/// `t` read from position `s`, and that start at the `a`-th vertex of the cluster that `t`
/// visits at `s`.
pub open spec fn is_cheapest_through(p: &GtspProblem, t: Seq<usize>, s: int, a: int, w: Seq<usize>) -> bool {
    &&& follows_cluster_order(p, t, w, s)
    &&& w[0] == p.cluster_seq()[p.cluster_of(t[s] as int)][a]
    &&& forall|w2: Seq<usize>|
        #[trigger] follows_cluster_order(p, t, w2, s) && crate::gtsp::in_range(p, w2) && w2[0] == w[0]
            ==> tour_weight(p, w) <= tour_weight(p, w2)
}

/// A tour over the clusters `ord`, in turn, from the `a`-th vertex of the first, is a closed
/// layered path from `a`.
proof fn lemma_order_path_layered(p: &GtspProblem, ord: Seq<usize>, w: Seq<usize>, a: int) -> (idx: Seq<int>)
    requires
        p.wf(),
        is_order(p, ord),
        w.len() == ord.len(),
        forall|k: int| 0 <= k < w.len() ==> #[trigger] w[k] < p.vertex_count() && p.cluster_of(w[k] as int) == ord[k] as int,
        0 <= a < p.cluster_seq()[ord[0] as int].len(),
        w[0] == p.cluster_seq()[ord[0] as int][a],
    ensures
        idx.len() == ord.len() + 1,
        is_layered(p, ord, idx),
        idx[0] == a,
        idx[ord.len() as int] == a,
        path_cost(p, layered_path(p, ord, idx)) == tour_weight(p, w),
{
    let m = ord.len() as int;
    let pick = |k: int| choose|j: int| 0 <= j < p.cluster_seq()[ord[k] as int].len() && #[trigger] p.cluster_seq()[ord[k] as int][j] == w[k];
    let idx = Seq::new((m + 1) as nat, |k: int| if k == 0 || k == m { a } else { pick(k) });
    assert forall|k: int| 0 < k < m implies {
        &&& 0 <= #[trigger] pick(k) < p.cluster_seq()[ord[k] as int].len()
        &&& p.cluster_seq()[ord[k] as int][pick(k)] == w[k]
    } by {
        let vi = w[k] as int;
        assert(0 <= vi < p.vertex_count());
        assert(p.cluster_seq()[p.cluster_of(vi)].contains(vi as usize));
    }
    assert(is_layered(p, ord, idx)) by {
        assert forall|k: int| 0 <= k < idx.len() implies 0 <= #[trigger] idx[k] < p.cluster_seq()[layer(ord, k)].len() by {
            if 0 < k < m {
                assert(idx[k] == pick(k));
            }
        }
    }
    assert(layered_path(p, ord, idx) =~= w.push(w[0])) by {
        assert forall|k: int| 0 < k < m implies layered_path(p, ord, idx)[k] == w[k] by {
            assert(idx[k] == pick(k));
        }
    }
    idx
}

/// The clusters that `current` visits, read cyclically from the position of a smallest
/// cluster (the first such position), and that position.
fn cluster_order(problem: &GtspProblem, current: &Solution) -> (r: (Vec<usize>, usize))
    requires
        problem.wf(),
        current.valid(problem),
    ensures
        r.1 < current.tour_seq().len(),
        r.0.len() == current.tour_seq().len(),
        is_order(problem, r.0@),
        forall|k: int|
            0 <= k < r.0.len() ==> #[trigger] r.0@[k] as int == problem.cluster_of(
                current.tour_seq()[rotated_index(r.0.len() as int, r.1 as int, k)] as int,
            ),
        is_first_smallest(problem, current.tour_seq(), r.1 as int),
{
    let tour = current.tour();
    let ghost t = current.tour_seq();
    let m = tour.len();
    let mut order: Vec<usize> = Vec::new();
    let mut q: usize = 0;
    while q < m
        invariant
            problem.wf(),
            current.valid(problem),
            tour@ == t,
            t == current.tour_seq(),
            m == t.len(),
            q <= m,
            order.len() == q,
            forall|x: int| 0 <= x < q ==> (#[trigger] order[x]) as int == problem.cluster_of(t[x] as int)
                && order[x] < problem.cluster_count(),
        decreases m - q,
    {
        order.push(problem.cluster_index(tour[q]));
        q = q + 1;
    }
    let mut s: usize = 0;
    let mut s_len = problem.cluster_len(order[0]);
    let mut q: usize = 1;
    while q < m
        invariant
            problem.wf(),
            m == order.len(),
            m == t.len(),
            1 <= q <= m,
            s < q,
            forall|x: int| 0 <= x < m ==> (#[trigger] order[x]) as int == problem.cluster_of(t[x] as int)
                && order[x] < problem.cluster_count(),
            s_len == cluster_size_at(problem, t, s as int),
            forall|x: int| 0 <= x < q ==> #[trigger] cluster_size_at(problem, t, x) >= s_len,
            forall|x: int| 0 <= x < s ==> #[trigger] cluster_size_at(problem, t, x) > s_len,
        decreases m - q,
    {
        let len = problem.cluster_len(order[q]);
        if len < s_len {
            s = q;
            s_len = len;
        }
        q = q + 1;
    }
    let mut ord: Vec<usize> = Vec::new();
    let mut k: usize = 0;
    while k < m
        invariant
            m == order.len(),
            m <= MAX_VERTICES,
            s < m,
            k <= m,
            ord.len() == k,
            forall|x: int| 0 <= x < k ==> #[trigger] ord[x] == order[rotated_index(m as int, s as int, x)],
        decreases m - k,
    {
        let pos = if s + k < m { s + k } else { s + k - m };
        ord.push(order[pos]);
        k = k + 1;
    }
    proof {
        assert forall|k1: int, k2: int| 0 <= k1 < k2 < ord.len() implies #[trigger] ord[k1] != #[trigger] ord[k2] by {
            let (q1, q2) = (rotated_index(m as int, s as int, k1), rotated_index(m as int, s as int, k2));
            if q1 < q2 {
                assert(problem.cluster_of(t[q1] as int) != problem.cluster_of(t[q2] as int));
            } else {
                assert(problem.cluster_of(t[q2] as int) != problem.cluster_of(t[q1] as int));
            }
        }
        assert forall|k: int| 0 <= k < ord.len() implies #[trigger] ord[k] < problem.cluster_count() by {
            assert(order[rotated_index(m as int, s as int, k)] < problem.cluster_count());
        }
    }
    (ord, s)
}

/// The facts about a cheapest cycle for the clusters `ord` that make it a solution visiting
/// them in turn.
proof fn lemma_cycle_valid(p: &GtspProblem, ord: Seq<usize>, tour: Seq<usize>)
    requires
        p.wf(),
        is_order(p, ord),
        ord.len() == p.cluster_count(),
        tour.len() == ord.len(),
        forall|k: int| 0 <= k < ord.len() ==> p.cluster_seq()[ord[k] as int].contains(#[trigger] tour[k]),
        forall|k: int| 0 <= k < ord.len() ==> #[trigger] tour[k] < p.vertex_count(),
    ensures
        valid_tour(p, tour),
        forall|k: int| 0 <= k < tour.len() ==> p.cluster_of(#[trigger] tour[k] as int) == ord[k] as int,
{
    assert forall|k: int| 0 <= k < tour.len() implies p.cluster_of(#[trigger] tour[k] as int) == ord[k] as int by {
        assert(p.cluster_seq()[ord[k] as int].contains(tour[k]));
        let j = choose|j: int| 0 <= j < p.cluster_seq()[ord[k] as int].len() && p.cluster_seq()[ord[k] as int][j] == tour[k];
    }
    assert forall|a: int, b: int| 0 <= a < b < tour.len() implies p.cluster_of(#[trigger] tour[a] as int)
        != p.cluster_of(#[trigger] tour[b] as int) by {
        assert(p.cluster_of(tour[a] as int) == ord[a] as int);
        assert(p.cluster_of(tour[b] as int) == ord[b] as int);
    }
}

/// Every tour that visits, at each position, a vertex of the cluster that `t` visits there is
/// a closed layered path over the clusters of `t` read from position `s`.
proof fn lemma_assignment_is_layered(p: &GtspProblem, t: Seq<usize>, ord: Seq<usize>, s: int, w: Seq<usize>) -> (idx: Seq<int>)
    requires
        p.wf(),
        valid_tour(p, t),
        0 <= s < t.len(),
        ord.len() == t.len(),
        is_order(p, ord),
        forall|k: int| 0 <= k < ord.len() ==> #[trigger] ord[k] as int == p.cluster_of(t[rotated_index(ord.len() as int, s, k)] as int),
        same_cluster_positions(p, t, w),
    ensures
        idx.len() == ord.len() + 1,
        is_layered(p, ord, idx),
        idx[0] == idx[ord.len() as int],
        path_cost(p, layered_path(p, ord, idx)) == tour_weight(p, w),
{
    let m = ord.len() as int;
    let pick = |k: int| {
        let v = w[rotated_index(m, s, k)];
        choose|j: int| 0 <= j < p.cluster_seq()[ord[k] as int].len() && #[trigger] p.cluster_seq()[ord[k] as int][j] == v
    };
    let idx = Seq::new((m + 1) as nat, |k: int| if k < m { pick(k) } else { pick(0) });
    assert forall|k: int| 0 <= k < m implies {
        &&& 0 <= #[trigger] pick(k) < p.cluster_seq()[ord[k] as int].len()
        &&& p.cluster_seq()[ord[k] as int][pick(k)] == w[rotated_index(m, s, k)]
    } by {
        let q = rotated_index(m, s, k);
        let v = w[q];
        assert(v < p.vertex_count() && p.cluster_of(v as int) == p.cluster_of(t[q] as int));
        let vi = v as int;
        assert(0 <= vi < p.vertex_count());
        assert(p.cluster_seq()[p.cluster_of(vi)].contains(vi as usize));
    }
    assert(is_layered(p, ord, idx)) by {
        assert forall|k: int| 0 <= k < idx.len() implies 0 <= #[trigger] idx[k] < p.cluster_seq()[layer(ord, k)].len() by {
            if k < m {
                assert(idx[k] == pick(k));
            } else {
                assert(idx[k] == pick(0));
            }
        }
    }
    assert(layered_path(p, ord, idx) =~= rotation(w, s).push(w[s])) by {
        assert(pick(0) == idx[0]);
    }
    lemma_rotation_weight(p, w, s);
    idx
}

impl ClusterOptimization {
    /// What the cluster optimisation returns from `current`: a tour that visits the clusters
    /// in the cyclic order of `current`, and weighs no more than any tour that visits, at each
    /// position, a vertex of the cluster that `current` visits there.
    pub open spec fn is_optimal_reselection(problem: &GtspProblem, current: Seq<usize>, result: Seq<usize>) -> bool {
        &&& exists|s: int| #[trigger] follows_cluster_order(problem, current, result, s)
        &&& forall|w: Seq<usize>|
            #[trigger] same_cluster_positions(problem, current, w) ==> tour_weight(problem, result)
                <= tour_weight(problem, w)
    }
}

impl ImprovementHeuristic for ClusterOptimization {
    /// The result is optimal for the cyclic order of the clusters, and so weighs no more than
    /// `current`.
    open spec fn promises(&self, problem: &GtspProblem, current: Seq<usize>, result: Seq<usize>) -> bool {
        &&& ClusterOptimization::is_optimal_reselection(problem, current, result)
        &&& tour_weight(problem, result) <= tour_weight(problem, current)
    }

    fn improve(&mut self, instance: &GtspProblem, current: Solution) -> (r: Solution) {
        let ghost t = current.tour_seq();
        let (ord, s) = cluster_order(instance, &current);
        let m = ord.len();
        let n0 = layer_len(instance, &ord, 0);
        let (mut best_tour, mut best_weight) = cheapest_cycle(instance, &ord, 0);
        let mut a: usize = 1;
        while a < n0
            invariant
                instance.wf(),
                is_order(instance, ord@),
                m == ord.len(),
                n0 == instance.cluster_seq()[layer(ord@, 0)].len(),
                1 <= a <= n0,
                best_tour.len() == m,
                forall|k: int| 0 <= k < m ==> instance.cluster_seq()[ord[k] as int].contains(#[trigger] best_tour@[k]),
                forall|k: int| 0 <= k < m ==> #[trigger] best_tour@[k] < instance.vertex_count(),
                tour_weight(instance, best_tour@) == best_weight,
                forall|idx: Seq<int>|
                    idx.len() == m + 1 && #[trigger] is_layered(instance, ord@, idx) && 0 <= idx[0] < a
                        && idx[m as int] == idx[0] ==> best_weight <= path_cost(instance, layered_path(instance, ord@, idx)),
            decreases n0 - a,
        {
            let (tour, weight) = cheapest_cycle(instance, &ord, a);
            if weight < best_weight {
                best_tour = tour;
                best_weight = weight;
            }
            a = a + 1;
        }
        proof {
            lemma_cycle_valid(instance, ord@, best_tour@);
            assert(follows_cluster_order(instance, t, best_tour@, s as int));
            assert forall|w: Seq<usize>| #[trigger] same_cluster_positions(instance, t, w) implies tour_weight(instance, best_tour@)
                <= tour_weight(instance, w) by {
                let idx = lemma_assignment_is_layered(instance, t, ord@, s as int, w);
            }
            assert(same_cluster_positions(instance, t, t));
        }
        Solution::new(instance, best_tour)
    }
}

impl Neighborhood for ClusterOptimization {
    /// The candidates visit the clusters in the cyclic order of `current`.
    open spec fn is_neighbor(problem: &GtspProblem, current: Seq<usize>, candidate: Seq<usize>) -> bool {
        exists|s: int| #[trigger] follows_cluster_order(problem, current, candidate, s)
    }

    /// For each vertex of the first smallest cluster, in order, a cheapest tour that starts
    /// there and visits the clusters in the cyclic order of `current`.
    open spec fn covers(problem: &GtspProblem, current: Seq<usize>, found: Seq<Seq<usize>>) -> bool {
        exists|s: int|
            #[trigger] is_first_smallest(problem, current, s) && found.len() == cluster_size_at(problem, current, s)
                && forall|a: int| 0 <= a < found.len() ==> is_cheapest_through(problem, current, s, a, #[trigger] found[a])
    }

    /// For each vertex of a smallest cluster, the cheapest tour through it that visits the
    /// clusters in the cyclic order of `current`.
    fn neighbors(problem: &GtspProblem, current: &Solution) -> (r: Vec<Solution>) {
        let ghost t = current.tour_seq();
        let (ord, s) = cluster_order(problem, current);
        let n0 = layer_len(problem, &ord, 0);
        let mut solutions: Vec<Solution> = Vec::new();
        let mut a: usize = 0;
        while a < n0
            invariant
                problem.wf(),
                current.valid(problem),
                t == current.tour_seq(),
                is_order(problem, ord@),
                ord.len() == t.len(),
                s < t.len(),
                forall|k: int|
                    0 <= k < ord.len() ==> #[trigger] ord@[k] as int == problem.cluster_of(
                        t[rotated_index(ord.len() as int, s as int, k)] as int,
                    ),
                n0 == problem.cluster_seq()[layer(ord@, 0)].len(),
                a <= n0,
                is_first_smallest(problem, t, s as int),
                solutions.len() == a,
                forall|x: int|
                    0 <= x < solutions.len() ==> (#[trigger] solutions[x]).valid(problem)
                        && Self::is_neighbor(problem, t, solutions[x].tour_seq())
                        && is_cheapest_through(problem, t, s as int, x, solutions[x].tour_seq()),
            decreases n0 - a,
        {
            let (tour, weight) = cheapest_cycle(problem, &ord, a);
            proof {
                lemma_cycle_valid(problem, ord@, tour@);
                assert(follows_cluster_order(problem, t, tour@, s as int));
                assert(ord@[0] as int == problem.cluster_of(t[s as int] as int));
                assert forall|w2: Seq<usize>|
                    #[trigger] follows_cluster_order(problem, t, w2, s as int) && crate::gtsp::in_range(problem, w2) && w2[0] == tour@[0]
                        implies tour_weight(problem, tour@) <= tour_weight(problem, w2) by {
                    assert forall|k: int| 0 <= k < w2.len() implies #[trigger] w2[k] < problem.vertex_count()
                        && problem.cluster_of(w2[k] as int) == ord@[k] as int by {
                        assert(ord@[k] as int == problem.cluster_of(t[rotated_index(ord.len() as int, s as int, k)] as int));
                    }
                    let idx = lemma_order_path_layered(problem, ord@, w2, a as int);
                }
            }
            let sol = Solution::new(problem, tour);
            solutions.push(sol);
            a = a + 1;
        }
        proof {
            assert(n0 as int == cluster_size_at(problem, t, s as int));
            assert forall|x: int| 0 <= x < tours_of(solutions@).len() implies is_cheapest_through(problem, t, s as int, x, #[trigger] tours_of(solutions@)[x]) by {
                assert(tours_of(solutions@)[x] == solutions[x].tour_seq());
            }
        }
        solutions
    }
}

} // verus!
