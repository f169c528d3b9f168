use std::marker::PhantomData;

use crate::gtsp::{lemma_tour_weight_bound, tour_weight, GtspProblem, Solution, MAX_WEIGHT};
use crate::termination::{Termination, TerminationKind};
use crate::{ImprovementHeuristic, Move, MoveNeighborhood};
use vstd::prelude::*;

verus! {

/// Whether no move of `N` lowers the weight of `t`.
pub open spec fn is_local_optimum<N: MoveNeighborhood>(problem: &GtspProblem, t: Seq<usize>) -> bool {
    forall|candidate: Seq<usize>|
        #[trigger] N::is_move_target(problem, t, candidate) ==> tour_weight(problem, t) <= tour_weight(
            problem,
            candidate,
        )
}

/// Whether `b` is a move of `N` from `a` that lowers the weight, and lowers it the most.
pub open spec fn is_steepest_step<N: MoveNeighborhood>(problem: &GtspProblem, a: Seq<usize>, b: Seq<usize>) -> bool {
    &&& N::is_move_target(problem, a, b)
    &&& tour_weight(problem, b) < tour_weight(problem, a)
    &&& forall|c: Seq<usize>| #[trigger] N::is_move_target(problem, a, c) ==> tour_weight(problem, b) <= tour_weight(problem, c)
}

/// Whether `path` is a climb: each tour is a steepest improving move of `N` from the one
/// before.
pub open spec fn is_climb<N: MoveNeighborhood>(problem: &GtspProblem, path: Seq<Seq<usize>>) -> bool {
    &&& path.len() >= 1
    &&& forall|j: int| 0 <= j < path.len() - 1 ==> is_steepest_step::<N>(problem, #[trigger] path[j], path[j + 1])
}

/// Steepest-ascent hill climbing over the moves of `N`.
pub struct LocalSearch<N> {
    termination: Termination,
    _n: PhantomData<N>,
}

impl<N> LocalSearch<N> {
    pub closed spec fn policy(&self) -> Termination {
        self.termination
    }

    pub fn new(termination: Termination) -> (r: Self)
        ensures
            r.policy() == termination,
    {
        LocalSearch { termination, _n: PhantomData }
    }
}

impl<N> Clone for LocalSearch<N> {
    fn clone(&self) -> (r: Self)
        ensures
            r.policy() == self.policy(),
    {
        LocalSearch { termination: self.termination, _n: PhantomData }
    }
}

impl<N> Copy for LocalSearch<N> {
}

impl<N: MoveNeighborhood> ImprovementHeuristic for LocalSearch<N> {
    /// The weight never rises, and a local optimum is returned unchanged. Without a bound on
    /// the iterations, the search runs until it reaches a local optimum: every step lowers
    /// the weight, so the iteration counter cannot run out first.
    open spec fn promises(&self, problem: &GtspProblem, current: Seq<usize>, result: Seq<usize>) -> bool {
        &&& tour_weight(problem, result) <= tour_weight(problem, current)
        &&& is_local_optimum::<N>(problem, current) ==> result == current
        &&& self.policy().kind == TerminationKind::Never && self.policy().iterations + 2 * MAX_WEIGHT
            < u64::MAX ==> is_local_optimum::<N>(problem, result)
        &&& result == current || tour_weight(problem, result) < tour_weight(problem, current)
        &&& exists|path: Seq<Seq<usize>>|
            #[trigger] is_climb::<N>(problem, path) && path[0] == current && path.last() == result && (
            self.policy().kind is Timeout || (path.len() - 1 <= self.policy().budget() && (
            is_local_optimum::<N>(problem, result) || path.len() - 1 == self.policy().budget())))
    }

    fn improve(&mut self, instance: &GtspProblem, current: Solution) -> (r: Solution) {
        let ghost start = current.tour_seq();
        let ghost policy = self.termination;
        let start_weight = current.weight();
        let mut best = current;
        let mut settled = false;
        let ghost mut path: Seq<Seq<usize>> = seq![start];
        while !settled && !self.termination.should_terminate()
            invariant
                instance.wf(),
                best.valid(instance),
                tour_weight(instance, best.tour_seq()) <= tour_weight(instance, start),
                is_local_optimum::<N>(instance, start) ==> best.tour_seq() == start,
                settled ==> is_local_optimum::<N>(instance, best.tour_seq()),
                start_weight == tour_weight(instance, start),
                -MAX_WEIGHT <= start_weight <= MAX_WEIGHT,
                self.termination.kind == policy.kind,
                policy.iterations <= self.termination.iterations,
                self.termination.iterations - policy.iterations <= start_weight - tour_weight(instance, best.tour_seq()),
                is_climb::<N>(instance, path),
                path[0] == start,
                path.last() == best.tour_seq(),
                path.len() == 1 + self.termination.iterations - policy.iterations,
                best.tour_seq() == start || tour_weight(instance, best.tour_seq()) < tour_weight(instance, start),
                !(policy.kind is Timeout) ==> self.termination.iterations - policy.iterations <= policy.budget(),
            decreases u64::MAX - self.termination.iterations, if settled { 0int } else { 1int },
        {
            let moves = N::moves(instance, &best);
            if moves.len() == 0 {
                proof {
                    let t = best.tour_seq();
                    assert forall|candidate: Seq<usize>| #[trigger] N::is_move_target(instance, t, candidate) implies
                        tour_weight(instance, t) <= tour_weight(instance, candidate) by {
                    }
                }
                settled = true;
                continue;
            }
            let mut best_k: usize = 0;
            let mut best_increase = moves[0].score_increase(instance, &best);
            let mut k: usize = 1;
            while k < moves.len()
                invariant
                    instance.wf(),
                    best.valid(instance),
                    1 <= k <= moves.len(),
                    best_k < moves.len(),
                    forall|x: int|
                        0 <= x < moves.len() ==> (#[trigger] moves[x]).applies_to(instance, best.tour_seq())
                            && N::is_move_target(instance, best.tour_seq(), moves[x].target(best.tour_seq())),
                    best_increase == tour_weight(instance, best.tour_seq()) - tour_weight(
                        instance,
                        moves[best_k as int].target(best.tour_seq()),
                    ),
                    forall|x: int| 0 <= x < k ==> tour_weight(instance, best.tour_seq()) - tour_weight(
                        instance,
                        (#[trigger] moves[x]).target(best.tour_seq()),
                    ) <= best_increase,
                    forall|candidate: Seq<usize>|
                        #[trigger] N::is_move_target(instance, best.tour_seq(), candidate) ==> exists|x: int|
                            0 <= x < moves.len() && (#[trigger] moves[x]).target(best.tour_seq()) == candidate,
                decreases moves.len() - k,
            {
                let inc = moves[k].score_increase(instance, &best);
                if inc >= best_increase {
                    best_k = k;
                    best_increase = inc;
                }
                k = k + 1;
            }
            if best_increase <= 0 {
                proof {
                    let t = best.tour_seq();
                    assert forall|candidate: Seq<usize>| #[trigger] N::is_move_target(instance, t, candidate) implies
                        tour_weight(instance, t) <= tour_weight(instance, candidate) by {
                        let x = choose|x: int| 0 <= x < moves.len() && (#[trigger] moves[x]).target(t) == candidate;
                    }
                }
                settled = true;
                continue;
            }
            let next = moves[best_k].into_solution(instance, &best);
            proof {
                lemma_tour_weight_bound(instance, next.tour_seq());
                let t = best.tour_seq();
                assert forall|c: Seq<usize>| #[trigger] N::is_move_target(instance, t, c) implies
                    tour_weight(instance, next.tour_seq()) <= tour_weight(instance, c) by {
                    let x = choose|x: int| 0 <= x < moves.len() && (#[trigger] moves[x]).target(t) == c;
                }
                assert(is_steepest_step::<N>(instance, t, next.tour_seq()));
                let old_path = path;
                path = path.push(next.tour_seq());
                assert forall|j: int| 0 <= j < path.len() - 1 implies is_steepest_step::<N>(instance, #[trigger] path[j], path[j + 1]) by {
                    if j < old_path.len() - 1 {
                        assert(path[j] == old_path[j] && path[j + 1] == old_path[j + 1]);
                    }
                }
            }
            best = next;
            self.termination.iteration();
        }
        proof {
            lemma_tour_weight_bound(instance, best.tour_seq());
            if policy.kind == TerminationKind::Never && policy.iterations + 2 * MAX_WEIGHT < u64::MAX {
                assert(settled);
            }
            assert(is_climb::<N>(instance, path));
        }
        best
    }
}

} // verus!
