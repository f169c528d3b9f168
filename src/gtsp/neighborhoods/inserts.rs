use crate::gtsp::{valid_tour, GtspProblem, Solution, MAX_VERTICES};
use crate::{tours_of, Neighborhood};
use vstd::prelude::*;

verus! {

/// `t` with the vertex at position `i` taken out and `v` put in at position `j`.
pub open spec fn inserted(t: Seq<usize>, i: int, j: int, v: usize) -> Seq<usize> {
    t.remove(i).insert(j, v)
}

/// Whether moving position `i` of a tour of `n` vertices to position `j` changes the cyclic
/// order: the positions differ and are not neighbours.
pub open spec fn is_relocation(n: int, i: int, j: int) -> bool {
    0 <= i < n && 0 <= j < n && i != j && i != (j + 1) % n && j != (i + 1) % n
}

proof fn lemma_inserted_valid(p: &GtspProblem, t: Seq<usize>, i: int, j: int, v: usize)
    requires
        p.wf(),
        valid_tour(p, t),
        0 <= i < t.len(),
        0 <= j < t.len(),
        v < p.vertex_count(),
        p.cluster_of(v as int) == p.cluster_of(t[i] as int),
    ensures
        valid_tour(p, inserted(t, i, j, v)),
{
    let t2 = inserted(t, i, j, v);
    let g = |q: int| {
        let r = if q < j { q } else { q - 1 };
        if r < i { r } else { r + 1 }
    };
    assert forall|q: int| 0 <= q < t2.len() implies (q == j ==> #[trigger] t2[q] == v) && (q != j ==> t2[q] == t[g(q)]
        && 0 <= g(q) < t.len() && g(q) != i) by {
    }
    assert forall|q: int| 0 <= q < t2.len() implies #[trigger] t2[q] < p.vertex_count() by {
        if q != j {
            assert(t2[q] == t[g(q)]);
        }
    }
    assert forall|a: int, b: int| 0 <= a < b < t2.len() implies p.cluster_of(#[trigger] t2[a] as int)
        != p.cluster_of(#[trigger] t2[b] as int) by {
        if a == j {
            assert(t2[b] == t[g(b)]);
            if g(b) < i {
                assert(p.cluster_of(t[g(b)] as int) != p.cluster_of(t[i] as int));
            } else {
                assert(p.cluster_of(t[i] as int) != p.cluster_of(t[g(b)] as int));
            }
        } else if b == j {
            assert(t2[a] == t[g(a)]);
            if g(a) < i {
                assert(p.cluster_of(t[g(a)] as int) != p.cluster_of(t[i] as int));
            } else {
                assert(p.cluster_of(t[i] as int) != p.cluster_of(t[g(a)] as int));
            }
        } else {
            assert(t2[a] == t[g(a)] && t2[b] == t[g(b)]);
            assert(g(a) < g(b));
            assert(p.cluster_of(t[g(a)] as int) != p.cluster_of(t[g(b)] as int));
        }
    }
}

/// The tour made of `t` by moving position `i` to position `j` and visiting there the `x`-th
/// vertex of the cluster that `t` visits at `i`.
pub open spec fn insert_target(p: &GtspProblem, t: Seq<usize>, i: int, j: int, x: int) -> Seq<usize> {
    inserted(t, i, j, p.cluster_seq()[p.cluster_of(t[i] as int)][x])
}

/// Whether `(i, j, x)` comes before `(a, b, y)` in the order the neighbourhood is generated in.
pub open spec fn before_triple(a: int, b: int, y: int, i: int, j: int, x: int) -> bool {
    a < i || (a == i && (b < j || (b == j && y < x)))
}

/// Whether `found` lists the tours `insert_target(p, t, i, j, x)` for the triples `trips`,
/// in the order of the triples, which strictly increases.
pub open spec fn is_insert_listing(p: &GtspProblem, t: Seq<usize>, found: Seq<Seq<usize>>, trips: Seq<(int, int, int)>) -> bool {
    &&& trips.len() == found.len()
    &&& forall|k: int|
        0 <= k < trips.len() ==> is_relocation(t.len() as int, (#[trigger] trips[k]).0, trips[k].1) && 0 <= trips[k].2
            < p.cluster_seq()[p.cluster_of(t[trips[k].0] as int)].len() && found[k] == insert_target(
            p,
            t,
            trips[k].0,
            trips[k].1,
            trips[k].2,
        )
    &&& forall|k: int|
        0 <= k < trips.len() - 1 ==> before_triple(
            (#[trigger] trips[k]).0,
            trips[k].1,
            trips[k].2,
            trips[k + 1].0,
            trips[k + 1].1,
            trips[k + 1].2,
        )
}

/// The neighbourhood that moves one position of the tour elsewhere, visiting there any vertex
/// of the same cluster.
#[derive(Clone, Copy)]
pub struct InsertsNeighborhood;

impl Neighborhood for InsertsNeighborhood {
    open spec fn is_neighbor(problem: &GtspProblem, current: Seq<usize>, candidate: Seq<usize>) -> bool {
        exists|i: int, j: int, k: int|
            is_relocation(current.len() as int, i, j) && 0 <= k < problem.cluster_seq()[problem.cluster_of(
                current[i] as int,
            )].len() && candidate == inserted(
                current,
                i,
                j,
                problem.cluster_seq()[problem.cluster_of(current[i] as int)][k],
            )
    }

    /// The tours found are exactly these tours.
    open spec fn covers(problem: &GtspProblem, current: Seq<usize>, found: Seq<Seq<usize>>) -> bool {
        &&& forall|i: int, j: int, x: int|
            is_relocation(current.len() as int, i, j) && 0 <= x < problem.cluster_seq()[problem.cluster_of(
                current[i] as int,
            )].len() ==> found.contains(#[trigger] insert_target(problem, current, i, j, x))
        &&& forall|y: int| 0 <= y < found.len() ==> Self::is_neighbor(problem, current, #[trigger] found[y])
        &&& exists|trips: Seq<(int, int, int)>| #[trigger] is_insert_listing(problem, current, found, trips)
    }

    fn neighbors(problem: &GtspProblem, current: &Solution) -> (r: Vec<Solution>) {
        let ghost t = current.tour_seq();
        let tour = current.tour();
        let n = tour.len();
        let mut solutions: Vec<Solution> = Vec::new();
        let ghost mut trips: Seq<(int, int, int)> = seq![];
        let mut i: usize = 0;
        while i < n
            invariant
                problem.wf(),
                current.valid(problem),
                tour@ == t,
                t == current.tour_seq(),
                n == t.len(),
                n <= MAX_VERTICES,
                i <= n,
                forall|x: int|
                    0 <= x < solutions.len() ==> (#[trigger] solutions[x]).valid(problem)
                        && Self::is_neighbor(problem, t, solutions[x].tour_seq()),
                forall|a: int, b: int, y: int|
                    is_relocation(n as int, a, b) && 0 <= y < problem.cluster_seq()[problem.cluster_of(t[a] as int)].len()
                        && before_triple(a, b, y, i as int, 0, 0) ==> tours_of(solutions@).contains(#[trigger] insert_target(problem, t, a, b, y)),
                is_insert_listing(problem, t, tours_of(solutions@), trips),
                forall|q: int| 0 <= q < trips.len() ==> before_triple((#[trigger] trips[q]).0, trips[q].1, trips[q].2, i as int, 0, 0),
            decreases n - i,
        {
            let c = problem.cluster_index(tour[i]);
            let size = problem.cluster_len(c);
            let mut j: usize = 0;
            while j < n
                invariant
                    problem.wf(),
                    current.valid(problem),
                    tour@ == t,
                    t == current.tour_seq(),
                    n == t.len(),
                    n <= MAX_VERTICES,
                    i < n,
                    c == problem.cluster_of(t[i as int] as int),
                    c < problem.cluster_count(),
                    size == problem.cluster_seq()[c as int].len(),
                    j <= n,
                    forall|x: int|
                        0 <= x < solutions.len() ==> (#[trigger] solutions[x]).valid(problem)
                            && Self::is_neighbor(problem, t, solutions[x].tour_seq()),
                forall|a: int, b: int, y: int|
                    is_relocation(n as int, a, b) && 0 <= y < problem.cluster_seq()[problem.cluster_of(t[a] as int)].len()
                        && before_triple(a, b, y, i as int, j as int, 0) ==> tours_of(solutions@).contains(#[trigger] insert_target(problem, t, a, b, y)),
                is_insert_listing(problem, t, tours_of(solutions@), trips),
                forall|q: int| 0 <= q < trips.len() ==> before_triple((#[trigger] trips[q]).0, trips[q].1, trips[q].2, i as int, j as int, 0),
                decreases n - j,
            {
                if !(i == j || i == (j + 1) % n || j == (i + 1) % n) {
                    let mut k: usize = 0;
                    while k < size
                        invariant
                            problem.wf(),
                            current.valid(problem),
                            tour@ == t,
                            t == current.tour_seq(),
                            n == t.len(),
                            is_relocation(n as int, i as int, j as int),
                            c == problem.cluster_of(t[i as int] as int),
                            c < problem.cluster_count(),
                            size == problem.cluster_seq()[c as int].len(),
                            k <= size,
                            j < n,
                            forall|x: int|
                                0 <= x < solutions.len() ==> (#[trigger] solutions[x]).valid(problem)
                                    && Self::is_neighbor(problem, t, solutions[x].tour_seq()),
                forall|a: int, b: int, y: int|
                    is_relocation(n as int, a, b) && 0 <= y < problem.cluster_seq()[problem.cluster_of(t[a] as int)].len()
                        && before_triple(a, b, y, i as int, j as int, k as int) ==> tours_of(solutions@).contains(#[trigger] insert_target(problem, t, a, b, y)),
                is_insert_listing(problem, t, tours_of(solutions@), trips),
                forall|q: int| 0 <= q < trips.len() ==> before_triple((#[trigger] trips[q]).0, trips[q].1, trips[q].2, i as int, j as int, k as int),
                        decreases size - k,
                    {
                        let chosen = problem.cluster_vertex(c, k);
                        let mut new_tour = current.tour_vec();
                        new_tour.remove(i);
                        new_tour.insert(j, chosen);
                        proof {
                            lemma_inserted_valid(problem, t, i as int, j as int, chosen);
                        }
                        let s = Solution::new(problem, new_tour);
                        proof {
                            assert(is_relocation(n as int, i as int, j as int) && 0 <= k < problem.cluster_seq()[problem.cluster_of(t[i as int] as int)].len()
                                && s.tour_seq() == inserted(t, i as int, j as int, problem.cluster_seq()[problem.cluster_of(t[i as int] as int)][k as int]));
                        }
                        let ghost before = tours_of(solutions@);
                        solutions.push(s);
                        proof {
                            assert(tours_of(solutions@) =~= before.push(insert_target(problem, t, i as int, j as int, k as int)));
                            let old_trips = trips;
                            trips = trips.push((i as int, j as int, k as int));
                            assert forall|q: int| 0 <= q < trips.len() implies before_triple((#[trigger] trips[q]).0, trips[q].1, trips[q].2, i as int, j as int, k + 1) by {
                                if q < old_trips.len() {
                                    assert(trips[q] == old_trips[q]);
                                }
                            }
                            assert forall|q: int| 0 <= q < trips.len() - 1 implies before_triple(
                                (#[trigger] trips[q]).0, trips[q].1, trips[q].2, trips[q + 1].0, trips[q + 1].1, trips[q + 1].2) by {
                                assert(trips[q] == old_trips[q]);
                                if q + 1 < old_trips.len() {
                                    assert(trips[q + 1] == old_trips[q + 1]);
                                }
                            }
                            assert forall|q: int| 0 <= q < trips.len() implies is_relocation(t.len() as int, (#[trigger] trips[q]).0, trips[q].1) && 0 <= trips[q].2
                                < problem.cluster_seq()[problem.cluster_of(t[trips[q].0] as int)].len() && tours_of(solutions@)[q] == insert_target(
                                problem, t, trips[q].0, trips[q].1, trips[q].2) by {
                                if q < old_trips.len() {
                                    assert(trips[q] == old_trips[q]);
                                    assert(tours_of(solutions@)[q] == before[q]);
                                }
                            }
                            assert(is_insert_listing(problem, t, tours_of(solutions@), trips));
                            assert forall|a: int, b: int, y: int|
                                is_relocation(n as int, a, b) && 0 <= y < problem.cluster_seq()[problem.cluster_of(t[a] as int)].len()
                                    && before_triple(a, b, y, i as int, j as int, k + 1) implies tours_of(solutions@).contains(
                                    #[trigger] insert_target(problem, t, a, b, y)) by {
                                if a == i && b == j && y == k {
                                    assert(tours_of(solutions@)[before.len() as int] == insert_target(problem, t, a, b, y));
                                } else {
                                    let q = choose|q: int| 0 <= q < before.len() && before[q] == insert_target(problem, t, a, b, y);
                                    assert(tours_of(solutions@)[q] == before[q]);
                                }
                            }
                        }
                        k = k + 1;
                    }
                }
                proof {
                    assert forall|a: int, b: int, y: int|
                        is_relocation(n as int, a, b) && 0 <= y < problem.cluster_seq()[problem.cluster_of(t[a] as int)].len()
                            && before_triple(a, b, y, i as int, j + 1, 0) implies tours_of(solutions@).contains(
                            #[trigger] insert_target(problem, t, a, b, y)) by {
                        if a == i && b == j {
                            assert(before_triple(a, b, y, i as int, j as int, size as int));
                        }
                    }
                }
                j = j + 1;
            }
            proof {
                assert forall|a: int, b: int, y: int|
                    is_relocation(n as int, a, b) && 0 <= y < problem.cluster_seq()[problem.cluster_of(t[a] as int)].len()
                        && before_triple(a, b, y, i + 1, 0, 0) implies tours_of(solutions@).contains(
                        #[trigger] insert_target(problem, t, a, b, y)) by {
                    if a == i {
                        assert(before_triple(a, b, y, i as int, n as int, 0));
                    }
                }
            }
            i = i + 1;
        }
        proof {
            assert forall|a: int, b: int, y: int|
                is_relocation(t.len() as int, a, b) && 0 <= y < problem.cluster_seq()[problem.cluster_of(t[a] as int)].len()
                    implies tours_of(solutions@).contains(#[trigger] insert_target(problem, t, a, b, y)) by {
                assert(before_triple(a, b, y, n as int, 0, 0));
            }
            assert forall|y: int| 0 <= y < tours_of(solutions@).len() implies Self::is_neighbor(problem, t, #[trigger] tours_of(solutions@)[y]) by {
                assert(tours_of(solutions@)[y] == solutions[y].tour_seq());
            }
        }
        solutions
    }
}

} // verus!
