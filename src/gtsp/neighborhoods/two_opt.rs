use crate::gtsp::{
    at_positions, in_range, lemma_path_cost_bound, lemma_path_cost_join, lemma_permuted_tour_valid,
    path_cost, tour_weight, valid_tour, GtspProblem, Solution, MAX_ARC, MAX_VERTICES, MAX_WEIGHT,
};
use crate::{Move, MoveNeighborhood};
use vstd::prelude::*;

verus! {

/// `t` with the segment of positions `i + 1 ..= h` reversed.
pub open spec fn two_opt_tour(t: Seq<usize>, i: int, h: int) -> Seq<usize> {
    Seq::new(t.len(), |q: int| if i < q <= h { t[i + h + 1 - q] } else { t[q] })
}

/// The positions `i ..= h + 1`: the path whose arcs a reversal of `i + 1 ..= h` removes.
pub open spec fn removed_positions(i: int, h: int) -> Seq<usize> {
    Seq::new((h - i + 2) as nat, |q: int| (i + q) as usize)
}

/// The positions `i, h, h - 1, ..., i + 1, h + 1`: the path whose arcs the reversal adds.
pub open spec fn added_positions(i: int, h: int) -> Seq<usize> {
    Seq::new(
        (h - i + 2) as nat,
        |q: int|
            if q == 0 {
                i as usize
            } else if q == h - i + 1 {
                (h + 1) as usize
            } else {
                (h + 1 - q) as usize
            },
    )
}

/// Cutting a path at positions `a <= b` splits its cost into the three pieces.
proof fn lemma_path_cost_split(p: &GtspProblem, c: Seq<usize>, a: int, b: int)
    requires
        0 <= a <= b < c.len(),
    ensures
        path_cost(p, c) == path_cost(p, c.subrange(0, a + 1)) + path_cost(p, c.subrange(a, b + 1))
            + path_cost(p, c.subrange(b, c.len() as int)),
{
    lemma_path_cost_join(p, c.subrange(0, a + 1), c.subrange(a, b + 1));
    assert(c.subrange(0, a + 1) + c.subrange(a, b + 1).drop_first() =~= c.subrange(0, b + 1));
    lemma_path_cost_join(p, c.subrange(0, b + 1), c.subrange(b, c.len() as int));
    assert(c.subrange(0, b + 1) + c.subrange(b, c.len() as int).drop_first() =~= c);
}

/// The weight that the reversal of positions `i + 1 ..= h` takes off a tour is the cost of the
/// path over `i ..= h + 1` before it minus the cost of the path `i, h, ..., i + 1, h + 1` after
/// it, whether or not the costs are symmetric.
pub proof fn lemma_two_opt_delta(p: &GtspProblem, t: Seq<usize>, i: int, h: int)
    requires
        0 <= i,
        i + 2 <= h < t.len(),
        t.len() <= MAX_VERTICES,
    ensures
        tour_weight(p, t) - tour_weight(p, two_opt_tour(t, i, h)) == path_cost(
            p,
            at_positions(t, removed_positions(i, h)),
        ) - path_cost(p, at_positions(t, added_positions(i, h))),
{
    let n = t.len() as int;
    let t2 = two_opt_tour(t, i, h);
    let c = t.push(t[0]);
    let c2 = t2.push(t2[0]);
    lemma_path_cost_split(p, c, i, h + 1);
    lemma_path_cost_split(p, c2, i, h + 1);
    assert(c2.subrange(0, i + 1) =~= c.subrange(0, i + 1));
    assert(c2.subrange(h + 1, n + 1) =~= c.subrange(h + 1, n + 1));
    assert forall|q: int| 0 <= q <= n implies #[trigger] c[q] == t[q % n] by {
        if q == n {
            assert(n % n == 0) by (nonlinear_arith)
                requires
                    n > 0,
            ;
        } else {
            assert(q % n == q) by (nonlinear_arith)
                requires
                    0 <= q < n,
            ;
        }
    }
    let rem = at_positions(t, removed_positions(i, h));
    let add = at_positions(t, added_positions(i, h));
    assert(rem =~= c.subrange(i, h + 2)) by {
        assert forall|q: int| 0 <= q < rem.len() implies rem[q] == c.subrange(i, h + 2)[q] by {
            assert(removed_positions(i, h)[q] as int == i + q);
            assert(c[i + q] == t[(i + q) % n]);
        }
    }
    assert(add =~= c2.subrange(i, h + 2)) by {
        assert forall|q: int| 0 <= q < add.len() implies add[q] == c2.subrange(i, h + 2)[q] by {
            if q == 0 {
                assert(added_positions(i, h)[q] as int == i);
                assert(c[i] == t[i % n]);
            } else if q == h - i + 1 {
                assert(added_positions(i, h)[q] as int == h + 1);
                assert(c[h + 1] == t[(h + 1) % n]);
            } else {
                assert(added_positions(i, h)[q] as int == h + 1 - q);
                assert(c[h + 1 - q] == t[(h + 1 - q) % n]);
            }
        }
    }
}

proof fn lemma_two_opt_valid(p: &GtspProblem, t: Seq<usize>, i: int, h: int)
    requires
        valid_tour(p, t),
        0 <= i,
        i + 2 <= h < t.len(),
    ensures
        valid_tour(p, two_opt_tour(t, i, h)),
{
    let f = |q: int| if i < q <= h { i + h + 1 - q } else { q };
    lemma_permuted_tour_valid(p, t, two_opt_tour(t, i, h), f);
}

/// Whether one of `moves` reverses positions `a + 1 ..= b`.
pub open spec fn has_reversal(moves: Seq<TwoOptMove>, a: int, b: int) -> bool {
    exists|k: int| 0 <= k < moves.len() && (#[trigger] moves[k]).start() == a && moves[k].end() == b
}

/// Whether `(a1, b1)` comes before `(a2, b2)` in lexicographic order.
pub open spec fn lex_before(a1: int, b1: int, a2: int, b2: int) -> bool {
    a1 < a2 || (a1 == a2 && b1 < b2)
}

/// Whether the segments of `moves` strictly increase in lexicographic order.
pub open spec fn is_increasing(moves: Seq<TwoOptMove>) -> bool {
    forall|k: int|
        0 <= k < moves.len() - 1 ==> lex_before(
            (#[trigger] moves[k]).start(),
            moves[k].end(),
            moves[k + 1].start(),
            moves[k + 1].end(),
        )
}

/// The neighbourhood that reverses a contiguous segment of the tour.
#[derive(Clone, Copy)]
pub struct TwoOptNeighborhood;

/// The reversal of the segment at positions `i + 1 ..= h`.
pub struct TwoOptMove {
    i: usize,
    h: usize,
}

impl TwoOptMove {
    pub closed spec fn start(&self) -> int {
        self.i as int
    }

    pub closed spec fn end(&self) -> int {
        self.h as int
    }
}

/// Whether reversing positions `i + 1 ..= h` is a 2-opt move of a tour of `n` vertices: the
/// segment has two vertices or more and is not the whole tour but its first vertex.
pub open spec fn is_two_opt(n: int, i: int, h: int) -> bool {
    0 <= i && i + 2 <= h < n && !(i == 0 && h + 1 == n)
}

impl Move for TwoOptMove {
    open spec fn applies_to(&self, problem: &GtspProblem, current: Seq<usize>) -> bool {
        is_two_opt(current.len() as int, self.start(), self.end())
    }

    open spec fn target(&self, current: Seq<usize>) -> Seq<usize> {
        two_opt_tour(current, self.start(), self.end())
    }

    fn score_increase(&self, problem: &GtspProblem, current: &Solution) -> (r: i64) {
        let (i, h) = (self.i, self.h);
        let ghost t = current.tour_seq();
        let mut removed: Vec<usize> = Vec::new();
        let mut q: usize = i;
        while q <= h + 1
            invariant
                i <= q <= h + 2,
                h < t.len() <= MAX_VERTICES,
                removed@ =~= removed_positions(i as int, h as int).take(q - i),
            decreases h + 2 - q,
        {
            removed.push(q);
            q = q + 1;
        }
        let mut added: Vec<usize> = Vec::new();
        added.push(i);
        let mut q: usize = h;
        while q > i
            invariant
                i <= q <= h,
                h < t.len() <= MAX_VERTICES,
                added@ =~= added_positions(i as int, h as int).take(h - q + 1),
            decreases q,
        {
            added.push(q);
            q = q - 1;
        }
        added.push(h + 1);
        proof {
            assert(removed@ =~= removed_positions(i as int, h as int));
            assert(added@ =~= added_positions(i as int, h as int));
            lemma_two_opt_delta(problem, t, i as int, h as int);
            lemma_two_opt_valid(problem, t, i as int, h as int);
            let t2 = two_opt_tour(t, i as int, h as int);
            assert(in_range(problem, t2.push(t2[0])));
            lemma_path_cost_bound(problem, t2.push(t2[0]));
            assert(in_range(problem, t.push(t[0])));
            lemma_path_cost_bound(problem, t.push(t[0]));
            assert((t.len() + 1) * MAX_ARC <= MAX_WEIGHT) by (nonlinear_arith)
                requires
                    t.len() <= MAX_VERTICES,
            ;
        }
        let removed_cost = current.forward_cost(problem, &removed);
        let added_cost = current.forward_cost(problem, &added);
        removed_cost - added_cost
    }

    fn is_improving(&self, problem: &GtspProblem, current: &Solution) -> (r: bool) {
        self.score_increase(problem, current) > 0
    }

    fn into_solution(&self, problem: &GtspProblem, current: &Solution) -> (r: Solution) {
        let (i, h) = (self.i, self.h);
        let ghost t = current.tour_seq();
        let tour = current.tour();
        assert(t.len() == problem.cluster_count());
        let n = tour.len();
        let mut new_tour: Vec<usize> = Vec::new();
        let mut q: usize = 0;
        while q < n
            invariant
                tour@ == t,
                n == t.len(),
                n <= MAX_VERTICES,
                is_two_opt(n as int, i as int, h as int),
                q <= n,
                new_tour@ =~= two_opt_tour(t, i as int, h as int).take(q as int),
            decreases n - q,
        {
            if i < q && q <= h {
                new_tour.push(tour[i + h + 1 - q]);
            } else {
                new_tour.push(tour[q]);
            }
            q = q + 1;
        }
        proof {
            assert(new_tour@ =~= two_opt_tour(t, i as int, h as int));
            lemma_two_opt_valid(problem, t, i as int, h as int);
        }
        Solution::new(problem, new_tour)
    }
}

impl MoveNeighborhood for TwoOptNeighborhood {
    type Move = TwoOptMove;

    open spec fn is_move_target(problem: &GtspProblem, current: Seq<usize>, candidate: Seq<usize>) -> bool {
        exists|i: int, h: int| is_two_opt(current.len() as int, i, h) && candidate == two_opt_tour(current, i, h)
    }

    /// The moves come in increasing order of `(i, h)`, each pair once, `n (n - 3) / 2` of them
    /// for a tour of `n >= 3` vertices and none for a shorter one.
    open spec fn is_listing(current: Seq<usize>, moves: Seq<TwoOptMove>) -> bool {
        &&& is_increasing(moves)
        &&& current.len() >= 3 ==> 2 * moves.len() == current.len() * (current.len() - 3)
        &&& current.len() < 3 ==> moves.len() == 0
    }

    fn moves(problem: &GtspProblem, current: &Solution) -> (r: Vec<TwoOptMove>) {
        let n = current.tour().len();
        let mut moves: Vec<TwoOptMove> = Vec::new();
        let mut i: usize = 0;
        while i + 1 < n
            invariant
                n == current.tour_seq().len(),
                n <= MAX_VERTICES,
                i <= n,
                forall|k: int|
                    0 <= k < moves.len() ==> is_two_opt(n as int, (#[trigger] moves[k]).start(), moves[k].end()),
                forall|a: int, b: int|
                    is_two_opt(n as int, a, b) && a < i ==> #[trigger] has_reversal(moves@, a, b),
                is_increasing(moves@),
                i == 0 || i + 1 <= n,
                forall|k: int| 0 <= k < moves.len() ==> (#[trigger] moves@[k]).start() < i,
                2 * moves.len() + (if i > 0 && n >= 3 { 2int } else { 0int }) == 2 * i * (n - 2) - i * (i - 1),
            decreases n - i,
        {
            let mut h: usize = i + 2;
            let ghost base = moves.len() as int;
            while h < n
                invariant
                    n == current.tour_seq().len(),
                    n <= MAX_VERTICES,
                    i + 1 < n,
                    i + 2 <= h,
                    forall|k: int|
                        0 <= k < moves.len() ==> is_two_opt(n as int, (#[trigger] moves[k]).start(), moves[k].end()),
                    forall|a: int, b: int|
                        is_two_opt(n as int, a, b) && (a < i || (a == i && b < h)) ==> #[trigger] has_reversal(moves@, a, b),
                    h <= n,
                    is_increasing(moves@),
                    forall|k: int| 0 <= k < moves.len() ==> lex_before((#[trigger] moves@[k]).start(), moves@[k].end(), i as int, h as int),
                    moves.len() == base + (h - i - 2) - (if i == 0 && h == n && n >= 3 { 1int } else { 0int }),
                decreases n - h,
            {
                let ghost before = moves@;
                if !(i == 0 && h + 1 == n) {
                    moves.push(TwoOptMove { i, h });
                }
                proof {
                    assert forall|k: int| 0 <= k < moves.len() implies lex_before((#[trigger] moves@[k]).start(), moves@[k].end(), i as int, h + 1) by {
                        if k < before.len() {
                            assert(moves@[k] == before[k]);
                        }
                    }
                    assert forall|k: int| 0 <= k < moves.len() - 1 implies lex_before(
                        (#[trigger] moves@[k]).start(), moves@[k].end(), moves@[k + 1].start(), moves@[k + 1].end()) by {
                        assert(moves@[k] == before[k]);
                        if k + 1 < before.len() {
                            assert(moves@[k + 1] == before[k + 1]);
                        }
                    }
                    assert forall|a: int, b: int|
                        is_two_opt(n as int, a, b) && (a < i || (a == i && b < h + 1)) implies #[trigger] has_reversal(moves@, a, b) by {
                        if a == i && b == h {
                            assert(moves@[moves.len() - 1].start() == a);
                        } else {
                            assert(has_reversal(before, a, b));
                            let k = choose|k: int| 0 <= k < before.len() && (#[trigger] before[k]).start() == a && before[k].end() == b;
                            assert(moves@[k] == before[k]);
                            assert(moves@[k].start() == a && moves@[k].end() == b);
                        }
                    }
                }
                h = h + 1;
            }
            proof {
                let ii = i as int;
                let nn = n as int;
                let len = moves.len() as int;
                assert(len == base + (nn - ii - 2) - (if ii == 0 && nn >= 3 { 1int } else { 0int }));
                assert(2 * base + (if ii > 0 && nn >= 3 { 2int } else { 0int }) == 2 * ii * (nn - 2) - ii * (ii - 1));
                assert(2 * ii * (nn - 2) - ii * (ii - 1) + 2 * (nn - ii - 2) == 2 * (ii + 1) * (nn - 2) - (ii + 1) * ii) by (nonlinear_arith);
                assert forall|k: int| 0 <= k < moves.len() implies (#[trigger] moves@[k]).start() < i + 1 by {
                    assert(lex_before(moves@[k].start(), moves@[k].end(), i as int, h as int));
                }
            }
            i = i + 1;
        }
        proof {
            let nn = n as int;
            if nn >= 2 {
                assert(i == n - 1);
                assert(2 * (nn - 1) * (nn - 2) - (nn - 1) * (nn - 2) == (nn - 1) * (nn - 2)) by (nonlinear_arith);
                assert((nn - 1) * (nn - 2) - 2 == nn * (nn - 3)) by (nonlinear_arith);
            }
        }
        proof {
            let t = current.tour_seq();
            assert forall|candidate: Seq<usize>| #[trigger] Self::is_move_target(problem, t, candidate) implies exists|k: int|
                0 <= k < moves.len() && (#[trigger] moves[k]).target(t) == candidate by {
                let (a, b) = choose|a: int, b: int| is_two_opt(t.len() as int, a, b) && candidate == two_opt_tour(t, a, b);
                assert(has_reversal(moves@, a, b));
                let k = choose|k: int| 0 <= k < moves.len() && (#[trigger] moves@[k]).start() == a && moves@[k].end() == b;
                assert(moves[k].target(t) == candidate);
            }
        }
        moves
    }
}

} // verus!
