pub mod cluster_optimization;
pub mod neighborhoods;
pub mod text;

pub use neighborhoods::{TwoOptMove, TwoOptNeighborhood};

use crate::random::choose_member;
use crate::Problem;
use rand::rngs::SmallRng;
use vstd::prelude::*;

verus! {

/// Largest number of vertices an instance may have, so that every tour weight fits an `i64`.
pub const MAX_VERTICES: usize = 1_000_000;

/// Largest absolute arc cost an instance may have, so that every tour weight fits an `i64`.
pub const MAX_ARC: i64 = 1_000_000_000_000;

/// A bound on the absolute weight of a tour: `MAX_VERTICES + 1` times `MAX_ARC`.
pub const MAX_WEIGHT: i64 = 1_000_001_000_000_000_000;

/// Why a set of inputs does not form an instance.
#[derive(Debug, Clone, Copy, PartialEq, Eq, Structural)]
pub enum InstanceError {
    /// The vertex count exceeds `MAX_VERTICES`.
    TooManyVertices,
    /// There are no clusters, or more clusters than vertices.
    ClusterCount,
    /// The cluster at this index has no vertex.
    EmptyCluster(usize),
    /// A cluster names a vertex that is not below the vertex count.
    VertexOutOfRange(usize),
    /// This vertex is listed twice.
    DuplicateVertex(usize),
    /// This vertex is in no cluster.
    UncoveredVertex(usize),
    /// The distance matrix is not square of side the vertex count.
    MatrixShape,
    /// An arc cost lies outside `-MAX_ARC..=MAX_ARC`.
    CostOutOfRange,
}

/// Whether `clusters` partitions `0..n` into non-empty clusters.
pub open spec fn is_partition(n: nat, clusters: Seq<Seq<usize>>) -> bool {
    &&& forall|c: int| 0 <= c < clusters.len() ==> #[trigger] clusters[c].len() > 0
    &&& forall|c: int, k: int|
        0 <= c < clusters.len() && 0 <= k < clusters[c].len() ==> #[trigger] clusters[c][k] < n
    &&& forall|c1: int, k1: int, c2: int, k2: int|
        0 <= c1 < clusters.len() && 0 <= k1 < clusters[c1].len() && 0 <= c2 < clusters.len() && 0
            <= k2 < clusters[c2].len() && #[trigger] clusters[c1][k1] == #[trigger] clusters[c2][k2]
            ==> c1 == c2 && k1 == k2
    &&& forall|v: int| 0 <= v < n ==> #[trigger] in_some_cluster(clusters, v)
}

/// Whether vertex `v` is listed in one of `clusters`.
pub open spec fn in_some_cluster(clusters: Seq<Seq<usize>>, v: int) -> bool {
    exists|c: int, k: int|
        0 <= c < clusters.len() && 0 <= k < clusters[c].len() && #[trigger] clusters[c][k] == v
}

/// Whether `dist` is an `n` by `n` matrix whose entries lie within `-MAX_ARC..=MAX_ARC`.
pub open spec fn is_cost_matrix(n: nat, dist: Seq<Seq<i64>>) -> bool {
    &&& dist.len() == n
    &&& forall|u: int| 0 <= u < n ==> #[trigger] dist[u].len() == n
    &&& forall|u: int, v: int|
        0 <= u < n && 0 <= v < n ==> -MAX_ARC <= #[trigger] dist[u][v] <= MAX_ARC
}

/// Whether these inputs form an instance.
pub open spec fn is_instance(n: nat, clusters: Seq<Seq<usize>>, dist: Seq<Seq<i64>>) -> bool {
    &&& n <= MAX_VERTICES
    &&& 1 <= clusters.len() <= n
    &&& is_partition(n, clusters)
    &&& is_cost_matrix(n, dist)
}

pub open spec fn vecs_view<T>(v: Seq<Vec<T>>) -> Seq<Seq<T>> {
    v.map_values(|row: Vec<T>| row@)
}

/// A GTSP instance: vertices `0..vertex_count`, a partition of them into clusters, and a
/// directed arc cost between every two vertices.
pub struct GtspProblem {
    number_of_vertices: usize,
    clusters: Vec<Vec<usize>>,
    cluster_of: Vec<usize>,
    is_symmetric: bool,
    is_triangle: bool,
    dist: Vec<Vec<i64>>,
}

impl GtspProblem {
    pub closed spec fn vertex_count(&self) -> nat {
        self.number_of_vertices as nat
    }

    /// The clusters, in their order.
    pub closed spec fn cluster_seq(&self) -> Seq<Seq<usize>> {
        vecs_view(self.clusters@)
    }

    /// The full cost matrix.
    pub closed spec fn cost_matrix(&self) -> Seq<Seq<i64>> {
        vecs_view(self.dist@)
    }

    /// The index of the cluster that holds vertex `v`.
    pub closed spec fn cluster_of(&self, v: int) -> int {
        self.cluster_of@[v] as int
    }

    pub closed spec fn symmetric_flag(&self) -> bool {
        self.is_symmetric
    }

    pub closed spec fn triangle_flag(&self) -> bool {
        self.is_triangle
    }

    pub open spec fn cluster_count(&self) -> nat {
        self.cluster_seq().len()
    }

    /// The cost of the arc from `u` to `v`.
    pub open spec fn arc(&self, u: int, v: int) -> int {
        self.cost_matrix()[u][v] as int
    }

    /// How the fields are laid out in memory.
    pub closed spec fn layout(&self) -> bool {
        &&& self.clusters@.len() == self.cluster_seq().len()
        &&& self.cluster_of@.len() == self.number_of_vertices
        &&& self.dist@.len() == self.number_of_vertices
        &&& forall|u: int| 0 <= u < self.number_of_vertices ==> #[trigger] self.dist@[u]@.len()
            == self.number_of_vertices
    }

    /// The instance's invariant: its parts form an instance, and `cluster_of` names, for each
    /// vertex, the cluster that holds it.
    pub open spec fn wf(&self) -> bool {
        &&& is_instance(self.vertex_count(), self.cluster_seq(), self.cost_matrix())
        &&& forall|c: int, k: int|
            0 <= c < self.cluster_count() && 0 <= k < self.cluster_seq()[c].len()
                ==> self.cluster_of(#[trigger] self.cluster_seq()[c][k] as int) == c
        &&& forall|v: int| 0 <= v < self.vertex_count() ==> 0 <= #[trigger] self.cluster_of(v) < self.cluster_count()
        &&& forall|v: int| 0 <= v < self.vertex_count() ==> #[trigger] self.cluster_seq()[self.cluster_of(v)].contains(v as usize)
        &&& self.layout()
    }

    /// Builds an instance from its parts, or says why they do not form one.
    pub fn new(
        number_of_vertices: usize,
        clusters: Vec<Vec<usize>>,
        is_symmetric: bool,
        is_triangle: bool,
        dist: Vec<Vec<i64>>,
    ) -> (r: Result<GtspProblem, InstanceError>)
        ensures
            r is Ok <==> is_instance(number_of_vertices as nat, vecs_view(clusters@), vecs_view(dist@)),
            r matches Ok(p) ==> {
                &&& p.wf()
                &&& p.vertex_count() == number_of_vertices
                &&& p.cluster_seq() == vecs_view(clusters@)
                &&& p.cost_matrix() == vecs_view(dist@)
                &&& p.symmetric_flag() == is_symmetric
                &&& p.triangle_flag() == is_triangle
            },
    {
        let n = number_of_vertices;
        if n > MAX_VERTICES {
            return Err(InstanceError::TooManyVertices);
        }
        if clusters.len() == 0 || clusters.len() > n {
            return Err(InstanceError::ClusterCount);
        }
        // the matrix
        if dist.len() != n {
            return Err(InstanceError::MatrixShape);
        }
        let mut u: usize = 0;
        while u < n
            invariant
                u <= n,
                dist@.len() == n,
                forall|x: int| 0 <= x < u ==> #[trigger] dist@[x]@.len() == n,
                forall|x: int, y: int|
                    0 <= x < u && 0 <= y < n ==> -MAX_ARC <= #[trigger] dist@[x]@[y] <= MAX_ARC,
            decreases n - u,
        {
            if dist[u].len() != n {
                proof {
                    assert(vecs_view(dist@)[u as int].len() != n);
                }
                return Err(InstanceError::MatrixShape);
            }
            let mut v: usize = 0;
            while v < n
                invariant
                    u < n,
                    v <= n,
                    dist@.len() == n,
                    dist@[u as int]@.len() == n,
                    forall|y: int| 0 <= y < v ==> -MAX_ARC <= #[trigger] dist@[u as int]@[y] <= MAX_ARC,
                decreases n - v,
            {
                let d = dist[u][v];
                if d < -MAX_ARC || d > MAX_ARC {
                    proof {
                        assert(vecs_view(dist@)[u as int][v as int] == d);
                    }
                    return Err(InstanceError::CostOutOfRange);
                }
                v = v + 1;
            }
            u = u + 1;
        }
        assert(is_cost_matrix(n as nat, vecs_view(dist@)));
        let ghost cs = vecs_view(clusters@);
        // the partition
        let mut cluster_of: Vec<usize> = Vec::new();
        let mut x: usize = 0;
        while x < n
            invariant
                x <= n,
                cluster_of@.len() == x,
                forall|y: int| 0 <= y < x ==> cluster_of@[y] == usize::MAX,
            decreases n - x,
        {
            cluster_of.push(usize::MAX);
            x = x + 1;
        }
        let mut c: usize = 0;
        while c < clusters.len()
            invariant
                cs == vecs_view(clusters@),
                n == number_of_vertices,
                c <= clusters.len(),
                clusters.len() <= n,
                cluster_of@.len() == n,
                forall|a: int| 0 <= a < c ==> #[trigger] cs[a].len() > 0,
                forall|a: int, k: int|
                    0 <= a < c && 0 <= k < cs[a].len() ==> #[trigger] cs[a][k] < n
                        && cluster_of@[cs[a][k] as int] == a,
                forall|v: int|
                    0 <= v < n && #[trigger] cluster_of@[v] != usize::MAX ==> cluster_of@[v] < c
                        && exists|k: int|
                        0 <= k < cs[cluster_of@[v] as int].len() && cs[cluster_of@[v] as int][k] == v,
                cs.len() == clusters.len(),
                forall|a1: int, k1: int, a2: int, k2: int|
                    0 <= a1 < c && 0 <= k1 < cs[a1].len() && 0 <= a2 < c && 0 <= k2 < cs[a2].len()
                        && #[trigger] cs[a1][k1] == #[trigger] cs[a2][k2] ==> a1 == a2 && k1 == k2,
            decreases clusters.len() - c,
        {
            if clusters[c].len() == 0 {
                proof {
                    assert(cs[c as int].len() == 0);
                }
                return Err(InstanceError::EmptyCluster(c));
            }
            let mut k: usize = 0;
            while k < clusters[c].len()
                invariant
                    cs == vecs_view(clusters@),
                    n == number_of_vertices,
                n == number_of_vertices,
                    c < clusters.len(),
                    clusters.len() <= n,
                    k <= cs[c as int].len(),
                    cluster_of@.len() == n,
                    forall|a: int, j: int|
                        0 <= a < c && 0 <= j < cs[a].len() ==> #[trigger] cs[a][j] < n
                            && cluster_of@[cs[a][j] as int] == a,
                    forall|j: int|
                        0 <= j < k ==> #[trigger] cs[c as int][j] < n && cluster_of@[cs[c as int][j] as int] == c,
                    forall|v: int|
                        0 <= v < n && #[trigger] cluster_of@[v] != usize::MAX ==> cluster_of@[v] <= c
                            && exists|j: int|
                            0 <= j < cs[cluster_of@[v] as int].len() && cs[cluster_of@[v] as int][j] == v
                                && (cluster_of@[v] == c ==> j < k),
                    cs.len() == clusters.len(),
                    forall|a1: int, k1: int, a2: int, k2: int|
                        0 <= a1 <= c && 0 <= k1 < cs[a1].len() && (a1 < c || k1 < k) && 0 <= a2 <= c
                            && 0 <= k2 < cs[a2].len() && (a2 < c || k2 < k)
                            && #[trigger] cs[a1][k1] == #[trigger] cs[a2][k2] ==> a1 == a2 && k1 == k2,
                decreases cs[c as int].len() - k,
            {
                let v = clusters[c][k];
                assert(v == cs[c as int][k as int]);
                if v >= n {
                    proof {
                        assert(!is_partition(n as nat, cs));
                    }
                    return Err(InstanceError::VertexOutOfRange(v));
                }
                if cluster_of[v] != usize::MAX {
                    proof {
                        let a = cluster_of@[v as int] as int;
                        let j = choose|j: int|
                            0 <= j < cs[a].len() && cs[a][j] == v && (a == c ==> j < k);
                        assert(cs[a][j] == cs[c as int][k as int]);
                        assert(!is_partition(n as nat, cs));
                    }
                    return Err(InstanceError::DuplicateVertex(v));
                }
                cluster_of.set(v, c);
                k = k + 1;
            }
            c = c + 1;
        }
        let mut v: usize = 0;
        while v < n
            invariant
                v <= n,
                cluster_of@.len() == n,
                forall|y: int| 0 <= y < v ==> #[trigger] cluster_of@[y] != usize::MAX,
                cs == vecs_view(clusters@),
                n == number_of_vertices,
                cs.len() == clusters.len(),
                1 <= clusters.len() <= n,
                forall|a: int| 0 <= a < cs.len() ==> #[trigger] cs[a].len() > 0,
                forall|a: int, k: int|
                    0 <= a < cs.len() && 0 <= k < cs[a].len() ==> #[trigger] cs[a][k] < n
                        && cluster_of@[cs[a][k] as int] == a,
                forall|y: int|
                    0 <= y < n && #[trigger] cluster_of@[y] != usize::MAX ==> cluster_of@[y] < cs.len()
                        && exists|k: int|
                        0 <= k < cs[cluster_of@[y] as int].len() && cs[cluster_of@[y] as int][k] == y,
                forall|a1: int, k1: int, a2: int, k2: int|
                    0 <= a1 < cs.len() && 0 <= k1 < cs[a1].len() && 0 <= a2 < cs.len() && 0 <= k2 < cs[a2].len()
                        && #[trigger] cs[a1][k1] == #[trigger] cs[a2][k2] ==> a1 == a2 && k1 == k2,
            decreases n - v,
        {
            if cluster_of[v] == usize::MAX {
                proof {
                    if in_some_cluster(cs, v as int) {
                        let (a, k) = choose|a: int, k: int| 0 <= a < cs.len() && 0 <= k < cs[a].len() && #[trigger] cs[a][k] == v;
                        assert(cluster_of@[cs[a][k] as int] == a);
                    }
                }
                return Err(InstanceError::UncoveredVertex(v));
            }
            v = v + 1;
        }
        let p = GtspProblem {
            number_of_vertices: n,
            clusters,
            cluster_of,
            is_symmetric,
            is_triangle,
            dist,
        };
        proof {
            assert forall|y: int| 0 <= y < n implies #[trigger] cs[p.cluster_of@[y] as int].contains(y as usize) by {
                let a = p.cluster_of@[y] as int;
                let k = choose|k: int| 0 <= k < cs[a].len() && cs[a][k] == y;
                assert(cs[a][k] == y);
            }
            assert forall|y: int| 0 <= y < n implies #[trigger] in_some_cluster(cs, y) by {
                let a = p.cluster_of@[y] as int;
                let k = choose|k: int| 0 <= k < cs[a].len() && cs[a][k] == y;
                assert(cs[a][k] == y);
            }
        }
        Ok(p)
    }
}

impl GtspProblem {
    pub fn number_of_vertices(&self) -> (r: usize)
        ensures
            r == self.vertex_count(),
    {
        self.number_of_vertices
    }

    pub fn is_symmetric(&self) -> (r: bool)
        ensures
            r == self.symmetric_flag(),
    {
        self.is_symmetric
    }

    pub fn has_triangle_inequality(&self) -> (r: bool)
        ensures
            r == self.triangle_flag(),
    {
        self.is_triangle
    }

    /// The cost of the arc from `u` to `v`.
    pub fn dist(&self, u: usize, v: usize) -> (r: i64)
        requires
            self.wf(),
            u < self.vertex_count(),
            v < self.vertex_count(),
        ensures
            r == self.arc(u as int, v as int),
            -MAX_ARC <= r <= MAX_ARC,
    {
        self.dist[u][v]
    }

    pub fn number_of_clusters(&self) -> (r: usize)
        requires
            self.wf(),
        ensures
            r == self.cluster_count(),
    {
        self.clusters.len()
    }

    /// The number of vertices in cluster `c`.
    pub fn cluster_len(&self, c: usize) -> (r: usize)
        requires
            self.wf(),
            c < self.cluster_count(),
        ensures
            r == self.cluster_seq()[c as int].len(),
    {
        self.clusters[c].len()
    }

    /// The `k`-th vertex of cluster `c`.
    pub fn cluster_vertex(&self, c: usize, k: usize) -> (r: usize)
        requires
            self.wf(),
            c < self.cluster_count(),
            k < self.cluster_seq()[c as int].len(),
        ensures
            r == self.cluster_seq()[c as int][k as int],
            r < self.vertex_count(),
            self.cluster_of(r as int) == c,
    {
        self.clusters[c][k]
    }

    /// The index of the cluster that holds vertex `v`.
    pub fn cluster_index(&self, v: usize) -> (r: usize)
        requires
            self.wf(),
            v < self.vertex_count(),
        ensures
            r == self.cluster_of(v as int),
            r < self.cluster_count(),
    {
        assert(0 <= self.cluster_of(v as int) < self.cluster_count());
        self.cluster_of[v]
    }
}

/// Whether `t` visits exactly one vertex of each cluster of `p`.
pub open spec fn valid_tour(p: &GtspProblem, t: Seq<usize>) -> bool {
    &&& t.len() == p.cluster_count()
    &&& forall|i: int| 0 <= i < t.len() ==> #[trigger] t[i] < p.vertex_count()
    &&& forall|i: int, j: int|
        0 <= i < j < t.len() ==> p.cluster_of(#[trigger] t[i] as int) != p.cluster_of(
            #[trigger] t[j] as int,
        )
}

/// The total cost of the arcs between consecutive vertices of the path `s`.
pub open spec fn path_cost(p: &GtspProblem, s: Seq<usize>) -> int
    decreases s.len(),
{
    if s.len() < 2 {
        0
    } else {
        path_cost(p, s.drop_last()) + p.arc(s[s.len() - 2] as int, s[s.len() - 1] as int)
    }
}

/// The weight of the cyclic tour `t`: its consecutive arcs and the arc from its last vertex
/// back to its first.
pub open spec fn tour_weight(p: &GtspProblem, t: Seq<usize>) -> int {
    path_cost(p, t.push(t[0]))
}

/// Whether every vertex of `s` is a vertex of `p`.
pub open spec fn in_range(p: &GtspProblem, s: Seq<usize>) -> bool {
    forall|i: int| 0 <= i < s.len() ==> #[trigger] s[i] < p.vertex_count()
}

/// A path of `len` vertices costs at most `len` times the largest arc cost, either way.
pub proof fn lemma_path_cost_bound(p: &GtspProblem, s: Seq<usize>)
    requires
        p.wf(),
        in_range(p, s),
    ensures
        -(s.len() * MAX_ARC) <= path_cost(p, s) <= s.len() * MAX_ARC,
    decreases s.len(),
{
    if s.len() >= 2 {
        lemma_path_cost_bound(p, s.drop_last());
        let u = s[s.len() - 2] as int;
        let v = s[s.len() - 1] as int;
        assert(p.cost_matrix()[u][v] == p.arc(u, v));
    }
}

/// The weight of a valid tour lies within `-MAX_WEIGHT..=MAX_WEIGHT`.
pub proof fn lemma_tour_weight_bound(p: &GtspProblem, t: Seq<usize>)
    requires
        p.wf(),
        valid_tour(p, t),
    ensures
        -MAX_WEIGHT <= tour_weight(p, t) <= MAX_WEIGHT,
{
    assert(in_range(p, t.push(t[0])));
    lemma_path_cost_bound(p, t.push(t[0]));
    assert((t.len() + 1) * MAX_ARC <= MAX_WEIGHT) by (nonlinear_arith)
        requires
            t.len() <= MAX_VERTICES,
    ;
}

/// A cyclic tour, one vertex per cluster, with its weight.
pub struct Solution {
    weight: i64,
    tour: Vec<usize>,
}

impl Solution {
    /// Every weight lies within `-MAX_WEIGHT..=MAX_WEIGHT`.
    #[verifier::type_invariant]
    spec fn weight_bounded(&self) -> bool {
        -MAX_WEIGHT <= self.weight <= MAX_WEIGHT
    }

    pub closed spec fn tour_seq(&self) -> Seq<usize> {
        self.tour@
    }

    pub closed spec fn weight_value(&self) -> int {
        self.weight as int
    }

    /// The invariant of a solution of `p`: it visits one vertex per cluster, and its weight is
    /// the weight of its tour.
    pub open spec fn valid(&self, p: &GtspProblem) -> bool {
        &&& valid_tour(p, self.tour_seq())
        &&& self.weight_value() == tour_weight(p, self.tour_seq())
    }

    /// The solution that visits `tour`, with its weight computed arc by arc.
    pub fn new(problem: &GtspProblem, tour: Vec<usize>) -> (r: Solution)
        requires
            problem.wf(),
            valid_tour(problem, tour@),
        ensures
            r.tour_seq() == tour@,
            r.valid(problem),
    {
        let n = tour.len();
        let mut weight: i64 = 0;
        let mut i: usize = 0;
        while i + 1 < n
            invariant
                problem.wf(),
                valid_tour(problem, tour@),
                n == tour.len(),
                1 <= n <= MAX_VERTICES,
                i < n,
                weight == path_cost(problem, tour@.take(i + 1)),
            decreases n - i,
        {
            proof {
                assert(tour@.take(i + 2).drop_last() =~= tour@.take(i + 1));
                lemma_path_cost_bound(problem, tour@.take(i + 2));
            }
            weight = weight + problem.dist(tour[i], tour[i + 1]);
            i = i + 1;
        }
        proof {
            assert(tour@.take(n as int) =~= tour@);
            assert(tour@.push(tour@[0]).drop_last() =~= tour@);
            lemma_path_cost_bound(problem, tour@.push(tour@[0]));
        }
        weight = weight + problem.dist(tour[n - 1], tour[0]);
        proof {
            assert(in_range(problem, tour@.push(tour@[0])));
            lemma_path_cost_bound(problem, tour@.push(tour@[0]));
            assert((n + 1) * MAX_ARC <= MAX_WEIGHT) by (nonlinear_arith)
                requires
                    n <= MAX_VERTICES,
            ;
        }
        Solution { weight, tour }
    }

    pub fn weight(&self) -> (r: i64)
        ensures
            r == self.weight_value(),
            -MAX_WEIGHT <= r <= MAX_WEIGHT,
    {
        proof {
            use_type_invariant(self);
        }
        self.weight
    }

    /// A copy of the tour.
    pub fn tour_vec(&self) -> (r: Vec<usize>)
        ensures
            r@ == self.tour_seq(),
    {
        let r = self.tour.clone();
        assert(r@ =~= self.tour@);
        r
    }

    pub fn tour(&self) -> (r: &[usize])
        ensures
            r@ == self.tour_seq(),
    {
        self.tour.as_slice()
    }
}

/// The vertices that `t` visits at the positions `pos`, each taken modulo the tour's length.
pub open spec fn at_positions(t: Seq<usize>, pos: Seq<usize>) -> Seq<usize> {
    pos.map_values(|q: usize| t[q as int % t.len() as int])
}

impl Solution {
    /// The cost of the path that visits the tour's vertices at `positions`, in that order, each
    /// position taken modulo the tour's length.
    pub fn forward_cost(&self, problem: &GtspProblem, positions: &Vec<usize>) -> (r: i64)
        requires
            problem.wf(),
            self.valid(problem),
            positions.len() <= self.tour_seq().len() + 1,
        ensures
            r == path_cost(problem, at_positions(self.tour_seq(), positions@)),
    {
        let n = self.tour.len();
        let ghost t = self.tour@;
        let ghost full = at_positions(t, positions@);
        proof {
            assert forall|i: int| 0 <= i < full.len() implies #[trigger] full[i] < problem.vertex_count() by {
                assert(0 <= (positions@[i] as int) % (n as int) < n);
            }
        }
        if positions.len() < 2 {
            return 0;
        }
        let mut cost: i64 = 0;
        let mut k: usize = 1;
        while k < positions.len()
            invariant
                problem.wf(),
                self.valid(problem),
                t == self.tour@,
                n == t.len(),
                1 <= n <= MAX_VERTICES,
                full == at_positions(t, positions@),
                in_range(problem, full),
                positions.len() <= n + 1,
                1 <= k <= positions.len(),
                cost == path_cost(problem, full.take(k as int)),
            decreases positions.len() - k,
        {
            let a = self.tour[positions[k - 1] % n];
            let b = self.tour[positions[k] % n];
            proof {
                assert(full.take(k + 1).drop_last() =~= full.take(k as int));
                assert(a == full[k - 1] && b == full[k as int]);
                lemma_path_cost_bound(problem, full.take(k + 1));
            }
            cost = cost + problem.dist(a, b);
            k = k + 1;
        }
        assert(full.take(k as int) =~= full);
        cost
    }
}

impl Clone for Solution {
    fn clone(&self) -> (r: Solution)
        ensures
            r.tour_seq() == self.tour_seq(),
            r.weight_value() == self.weight_value(),
    {
        proof {
            use_type_invariant(self);
        }
        let tour = self.tour.clone();
        assert(tour@ =~= self.tour@);
        Solution { weight: self.weight, tour }
    }
}

impl PartialEq for Solution {
    fn eq(&self, other: &Solution) -> (r: bool) {
        if self.weight != other.weight || self.tour.len() != other.tour.len() {
            return false;
        }
        let mut i: usize = 0;
        while i < self.tour.len()
            invariant
                self.tour@.len() == other.tour@.len(),
                i <= self.tour@.len(),
                self.weight == other.weight,
                forall|j: int| 0 <= j < i ==> self.tour@[j] == other.tour@[j],
            decreases self.tour@.len() - i,
        {
            if self.tour[i] != other.tour[i] {
                return false;
            }
            i = i + 1;
        }
        assert(self.tour@ =~= other.tour@);
        true
    }
}

impl vstd::std_specs::cmp::PartialEqSpecImpl for Solution {
    open spec fn obeys_eq_spec() -> bool {
        true
    }

    open spec fn eq_spec(&self, other: &Solution) -> bool {
        self.tour_seq() == other.tour_seq() && self.weight_value() == other.weight_value()
    }
}

impl GtspProblem {
    /// The solution that visits, in cluster order, the vertex `picks[c]` of each cluster `c`.
    pub fn initial_solution_from_picks(&self, picks: &Vec<usize>) -> (r: Solution)
        requires
            self.wf(),
            picks.len() == self.cluster_count(),
            forall|c: int| 0 <= c < picks.len() ==> self.cluster_seq()[c].contains(#[trigger] picks[c]),
        ensures
            r.valid(self),
            r.tour_seq() == picks@,
            forall|c: int| 0 <= c < self.cluster_count() ==> self.cluster_of(#[trigger] r.tour_seq()[c] as int) == c,
    {
        let ghost t = picks@;
        assert forall|i: int| 0 <= i < t.len() implies #[trigger] t[i] < self.vertex_count()
            && self.cluster_of(t[i] as int) == i by {
            assert(self.cluster_seq()[i].contains(picks[i]));
            let k = choose|k: int| 0 <= k < self.cluster_seq()[i].len() && self.cluster_seq()[i][k] == picks[i];
        }
        assert forall|i: int, j: int| 0 <= i < j < t.len() implies self.cluster_of(#[trigger] t[i] as int)
            != self.cluster_of(#[trigger] t[j] as int) by {
            assert(self.cluster_of(t[i] as int) == i);
            assert(self.cluster_of(t[j] as int) == j);
        }
        let tour = picks.clone();
        assert(tour@ =~= t);
        Solution::new(self, tour)
    }

    /// A solution that visits, in cluster order, a vertex of each cluster drawn uniformly at
    /// random.
    pub fn make_initial_solution(&self, rng: &mut SmallRng) -> (r: Solution)
        requires
            self.wf(),
        ensures
            r.valid(self),
            forall|c: int| 0 <= c < self.cluster_count() ==> self.cluster_of(#[trigger] r.tour_seq()[c] as int) == c,
    {
        let m = self.clusters.len();
        let mut picks: Vec<usize> = Vec::new();
        let mut c: usize = 0;
        while c < m
            invariant
                self.wf(),
                m == self.cluster_count(),
                c <= m,
                picks.len() == c,
                forall|a: int| 0 <= a < c ==> self.cluster_seq()[a].contains(#[trigger] picks[a]),
            decreases m - c,
        {
            assert(self.clusters@[c as int]@ == self.cluster_seq()[c as int]);
            assert(self.cluster_seq()[c as int].len() > 0);
            let v = match choose_member(self.clusters[c].as_slice(), rng) {
                Some(v) => v,
                None => {
                    proof {
                        assert(false);
                    }
                    0
                },
            };
            picks.push(v);
            c = c + 1;
        }
        self.initial_solution_from_picks(&picks)
    }
}

impl Problem for GtspProblem {
    type Solution = Solution;

    /// Higher is better: the score of a tour is its weight negated.
    open spec fn score_of(solution: &Solution) -> int {
        -solution.weight_value()
    }

    fn score(solution: &Solution) -> (r: i64) {
        let w = solution.weight();
        -w
    }
}

/// Joining two paths at a shared vertex adds their costs.
pub proof fn lemma_path_cost_join(p: &GtspProblem, a: Seq<usize>, b: Seq<usize>)
    requires
        a.len() >= 1,
        b.len() >= 1,
        a.last() == b[0],
    ensures
        path_cost(p, a + b.drop_first()) == path_cost(p, a) + path_cost(p, b),
    decreases b.len(),
{
    if b.len() == 1 {
        assert(a + b.drop_first() =~= a);
    } else {
        let b0 = b.drop_last();
        lemma_path_cost_join(p, a, b0);
        let joined = a + b.drop_first();
        assert(joined.drop_last() =~= a + b0.drop_first());
        assert(joined[joined.len() - 2] == b[b.len() - 2]);
        assert(joined[joined.len() - 1] == b[b.len() - 1]);
    }
}

/// Whether `t2` is `t` with its positions permuted by `f`.
pub open spec fn permutes(t: Seq<usize>, t2: Seq<usize>, f: spec_fn(int) -> int) -> bool {
    &&& t2.len() == t.len()
    &&& forall|q: int| 0 <= q < t.len() ==> 0 <= #[trigger] f(q) < t.len() && t2[q] == t[f(q)]
    &&& forall|q1: int, q2: int|
        0 <= q1 < t.len() && 0 <= q2 < t.len() && q1 != q2 ==> #[trigger] f(q1) != #[trigger] f(q2)
}

/// Reordering the vertices of a valid tour gives a valid tour.
pub proof fn lemma_permuted_tour_valid(
    p: &GtspProblem,
    t: Seq<usize>,
    t2: Seq<usize>,
    f: spec_fn(int) -> int,
)
    requires
        valid_tour(p, t),
        permutes(t, t2, f),
    ensures
        valid_tour(p, t2),
{
    assert forall|i: int| 0 <= i < t2.len() implies #[trigger] t2[i] < p.vertex_count() by {
        assert(t2[i] == t[f(i)]);
    }
    assert forall|i: int, j: int| 0 <= i < j < t2.len() implies p.cluster_of(#[trigger] t2[i] as int)
        != p.cluster_of(#[trigger] t2[j] as int) by {
        let (a, b) = (f(i), f(j));
        assert(a != b);
        if a < b {
            assert(p.cluster_of(t[a] as int) != p.cluster_of(t[b] as int));
        } else {
            assert(p.cluster_of(t[b] as int) != p.cluster_of(t[a] as int));
        }
    }
}

/// A valid tour visits each cluster at exactly one position: the cluster of its vertex there.
pub proof fn lemma_tour_covers_clusters(p: &GtspProblem, t: Seq<usize>, c: int)
    requires
        p.wf(),
        valid_tour(p, t),
        0 <= c < p.cluster_count(),
    ensures
        exists|q: int| 0 <= q < t.len() && p.cluster_of(#[trigger] t[q] as int) == c,
        forall|q1: int, q2: int|
            0 <= q1 < t.len() && 0 <= q2 < t.len() && p.cluster_of(#[trigger] t[q1] as int) == c
                && p.cluster_of(#[trigger] t[q2] as int) == c ==> q1 == q2,
{
    let m = p.cluster_count();
    let clusters_seen = Set::new(|x: int| exists|q: int| 0 <= q < t.len() && p.cluster_of(#[trigger] t[q] as int) == x);
    let f = |q: int| p.cluster_of(t[q] as int);
    let positions = Set::new(|q: int| 0 <= q < t.len());
    assert(positions =~= vstd::set_lib::set_int_range(0, m as int));
    vstd::set_lib::lemma_int_range(0, m as int);
    assert forall|x: int| clusters_seen.contains(x) implies #[trigger] positions.map(f).contains(x) by {
        let q = choose|q: int| 0 <= q < t.len() && p.cluster_of(#[trigger] t[q] as int) == x;
        assert(positions.contains(q) && f(q) == x);
    }
    assert forall|x: int| #[trigger] positions.map(f).contains(x) implies clusters_seen.contains(x) by {
        let q = choose|q: int| positions.contains(q) && f(q) == x;
        assert(p.cluster_of(t[q] as int) == x);
    }
    assert(clusters_seen =~= positions.map(f));
    assert forall|q1: int, q2: int| positions.contains(q1) && positions.contains(q2) && f(q1) == f(q2) implies q1 == q2 by {
        if q1 < q2 {
            assert(p.cluster_of(t[q1] as int) != p.cluster_of(t[q2] as int));
        } else if q2 < q1 {
            assert(p.cluster_of(t[q2] as int) != p.cluster_of(t[q1] as int));
        }
    }
    vstd::set_lib::lemma_map_size(positions, clusters_seen, f);
    let all = vstd::set_lib::set_int_range(0, m as int);
    assert(clusters_seen.subset_of(all)) by {
        assert forall|x: int| clusters_seen.contains(x) implies all.contains(x) by {
            let q = choose|q: int| 0 <= q < t.len() && p.cluster_of(#[trigger] t[q] as int) == x;
            assert(t[q] < p.vertex_count());
        }
    }
    vstd::set_lib::lemma_subset_equality(clusters_seen, all);
    assert(all.contains(c));
    assert forall|q1: int, q2: int|
        0 <= q1 < t.len() && 0 <= q2 < t.len() && p.cluster_of(#[trigger] t[q1] as int) == c
            && p.cluster_of(#[trigger] t[q2] as int) == c implies q1 == q2 by {
        if q1 < q2 {
            assert(p.cluster_of(t[q1] as int) != p.cluster_of(t[q2] as int));
        } else if q2 < q1 {
            assert(p.cluster_of(t[q2] as int) != p.cluster_of(t[q1] as int));
        }
    }
}

impl GtspProblem {
    /// Whether `tour` visits exactly one vertex of each cluster.
    pub fn is_tour(&self, tour: &[usize]) -> (r: bool)
        requires
            self.wf(),
        ensures
            r == valid_tour(self, tour@),
    {
        let m = self.clusters.len();
        if tour.len() != m {
            return false;
        }
        let mut seen: Vec<bool> = Vec::new();
        let mut c: usize = 0;
        while c < m
            invariant
                c <= m,
                seen.len() == c,
                forall|x: int| 0 <= x < c ==> !(#[trigger] seen[x]),
            decreases m - c,
        {
            seen.push(false);
            c = c + 1;
        }
        let mut q: usize = 0;
        while q < tour.len()
            invariant
                self.wf(),
                m == self.cluster_count(),
                tour.len() == m,
                seen.len() == m,
                q <= m,
                forall|i: int| 0 <= i < q ==> #[trigger] tour@[i] < self.vertex_count(),
                forall|i: int, j: int|
                    0 <= i < j < q ==> self.cluster_of(#[trigger] tour@[i] as int) != self.cluster_of(
                        #[trigger] tour@[j] as int,
                    ),
                forall|x: int|
                    0 <= x < m ==> (#[trigger] seen[x] <==> exists|i: int|
                        0 <= i < q && self.cluster_of(#[trigger] tour@[i] as int) == x),
            decreases m - q,
        {
            let v = tour[q];
            if v >= self.number_of_vertices {
                return false;
            }
            let c = self.cluster_index(v);
            if seen[c] {
                proof {
                    let i = choose|i: int| 0 <= i < q && self.cluster_of(#[trigger] tour@[i] as int) == c;
                    assert(self.cluster_of(tour@[i] as int) == self.cluster_of(tour@[q as int] as int));
                }
                return false;
            }
            seen.set(c, true);
            proof {
                assert forall|x: int| 0 <= x < m implies (#[trigger] seen[x] <==> exists|i: int|
                    0 <= i < q + 1 && self.cluster_of(#[trigger] tour@[i] as int) == x) by {
                    if x == c {
                        assert(self.cluster_of(tour@[q as int] as int) == x);
                    }
                }
            }
            q = q + 1;
        }
        true
    }
}

} // verus!
