use crate::gtsp::{lemma_permuted_tour_valid, tour_weight, valid_tour, GtspProblem, Solution};
use crate::{Move, MoveNeighborhood};
use vstd::prelude::*;

verus! {

/// `t` with the vertices at positions `i` and `j` exchanged.
pub open spec fn swapped(t: Seq<usize>, i: int, j: int) -> Seq<usize> {
    t.update(i, t[j]).update(j, t[i])
}

proof fn lemma_swapped_valid(p: &GtspProblem, t: Seq<usize>, i: int, j: int)
    requires
        valid_tour(p, t),
        0 <= i < t.len(),
        0 <= j < t.len(),
    ensures
        valid_tour(p, swapped(t, i, j)),
{
    let f = |q: int|
        if q == i {
            j
        } else if q == j {
            i
        } else {
            q
        };
    lemma_permuted_tour_valid(p, t, swapped(t, i, j), f);
}

/// Whether one of `moves` exchanges positions `a` and `b`.
pub open spec fn has_swap(moves: Seq<SwapMove>, a: int, b: int) -> bool {
    exists|k: int| 0 <= k < moves.len() && (#[trigger] moves[k]).first() == a && moves[k].second() == b
}

/// The neighbourhood that exchanges the vertices at two positions of the tour.
#[derive(Clone, Copy)]
pub struct SwapNeighborhood;

/// The exchange of the vertices at positions `i` and `j`, with the tour it makes.
pub struct SwapMove {
    i: usize,
    j: usize,
    new: Solution,
}

impl SwapMove {
    pub closed spec fn first(&self) -> int {
        self.i as int
    }

    pub closed spec fn second(&self) -> int {
        self.j as int
    }

    pub closed spec fn made(&self) -> Solution {
        self.new
    }

    /// The exchange of the vertices at positions `i` and `j` of `current`; the new tour's
    /// weight is computed in full.
    pub fn new(problem: &GtspProblem, current: &Solution, i: usize, j: usize) -> (r: SwapMove)
        requires
            problem.wf(),
            current.valid(problem),
            i < current.tour_seq().len(),
            j < current.tour_seq().len(),
        ensures
            r.first() == i,
            r.second() == j,
            r.applies_to(problem, current.tour_seq()),
    {
        let mut tour = current.tour_vec();
        let a = tour[i];
        let b = tour[j];
        tour.set(i, b);
        tour.set(j, a);
        proof {
            assert(tour@ =~= swapped(current.tour_seq(), i as int, j as int));
            lemma_swapped_valid(problem, current.tour_seq(), i as int, j as int);
        }
        SwapMove { i, j, new: Solution::new(problem, tour) }
    }
}

impl Move for SwapMove {
    open spec fn applies_to(&self, problem: &GtspProblem, current: Seq<usize>) -> bool {
        &&& 0 <= self.first() < current.len()
        &&& 0 <= self.second() < current.len()
        &&& self.made().valid(problem)
        &&& self.made().tour_seq() == swapped(current, self.first(), self.second())
    }

    open spec fn target(&self, current: Seq<usize>) -> Seq<usize> {
        swapped(current, self.first(), self.second())
    }

    fn score_increase(&self, problem: &GtspProblem, current: &Solution) -> (r: i64) {
        current.weight() - self.new.weight()
    }

    fn is_improving(&self, problem: &GtspProblem, current: &Solution) -> (r: bool) {
        self.score_increase(problem, current) > 0
    }

    fn into_solution(&self, problem: &GtspProblem, current: &Solution) -> (r: Solution) {
        self.new.clone()
    }
}

impl MoveNeighborhood for SwapNeighborhood {
    type Move = SwapMove;

    open spec fn is_move_target(problem: &GtspProblem, current: Seq<usize>, candidate: Seq<usize>) -> bool {
        exists|i: int, j: int| 0 <= i < j < current.len() && candidate == swapped(current, i, j)
    }

    /// No more is said of the order.
    open spec fn is_listing(current: Seq<usize>, moves: Seq<SwapMove>) -> bool {
        true
    }

    fn moves(problem: &GtspProblem, current: &Solution) -> (r: Vec<SwapMove>) {
        let n = current.tour().len();
        let mut moves: Vec<SwapMove> = Vec::new();
        let mut i: usize = 0;
        while i < n
            invariant
                problem.wf(),
                current.valid(problem),
                n == current.tour_seq().len(),
                i <= n,
                forall|k: int|
                    0 <= k < moves.len() ==> (#[trigger] moves[k]).applies_to(problem, current.tour_seq())
                        && 0 <= moves[k].first() < moves[k].second() < n,
                forall|a: int, b: int|
                    0 <= a < b < n && a < i ==> #[trigger] has_swap(moves@, a, b),
            decreases n - i,
        {
            let mut j: usize = i + 1;
            while j < n
                invariant
                    problem.wf(),
                    current.valid(problem),
                    n == current.tour_seq().len(),
                    i < n,
                    i + 1 <= j <= n,
                    forall|k: int|
                        0 <= k < moves.len() ==> (#[trigger] moves[k]).applies_to(problem, current.tour_seq())
                            && 0 <= moves[k].first() < moves[k].second() < n,
                    forall|a: int, b: int|
                        0 <= a < b < n && (a < i || (a == i && b < j)) ==> #[trigger] has_swap(moves@, a, b),
                decreases n - j,
            {
                let ghost before = moves@;
                moves.push(SwapMove::new(problem, current, i, j));
                proof {
                    assert forall|a: int, b: int|
                        0 <= a < b < n && (a < i || (a == i && b < j + 1)) implies #[trigger] has_swap(moves@, a, b) by {
                        if a == i && b == j {
                            assert(moves@[moves.len() - 1].first() == a);
                        } else {
                            assert(has_swap(before, a, b));
                            let k = choose|k: int| 0 <= k < before.len() && (#[trigger] before[k]).first() == a && before[k].second() == b;
                            assert(moves@[k] == before[k]);
                            assert(moves@[k].first() == a && moves@[k].second() == b);
                        }
                    }
                }
                j = j + 1;
            }
            i = i + 1;
        }
        proof {
            let t = current.tour_seq();
            assert forall|candidate: Seq<usize>| #[trigger] Self::is_move_target(problem, t, candidate) implies exists|k: int|
                0 <= k < moves.len() && (#[trigger] moves[k]).target(t) == candidate by {
                let (a, b) = choose|a: int, b: int| 0 <= a < b < t.len() && candidate == swapped(t, a, b);
                assert(has_swap(moves@, a, b));
                let k = choose|k: int| 0 <= k < moves.len() && (#[trigger] moves@[k]).first() == a && moves@[k].second() == b;
                assert(moves[k].target(t) == candidate);
            }
        }
        moves
    }
}

} // verus!
