use crate::gtsp::{tour_weight, valid_tour, GtspProblem, Solution};
use crate::termination::Termination;
use crate::{tours_of, ImprovementHeuristic, Neighborhood, Problem};
use vstd::prelude::*;

verus! {

/// Round-robin over a list of improvements: one that fails to improve the solution is dropped
/// from the list.
#[derive(Clone)]
pub struct Cycle<H> {
    heuristics: Vec<H>,
    termination: Termination,
}

impl<H> Cycle<H> {
    pub closed spec fn heuristics_seq(&self) -> Seq<H> {
        self.heuristics@
    }

    pub closed spec fn policy(&self) -> Termination {
        self.termination
    }

    pub fn new(heuristics: Vec<H>, termination: Termination) -> (r: Self)
        ensures
            r.heuristics_seq() == heuristics@,
            r.policy() == termination,
    {
        Cycle { heuristics, termination }
    }
}

impl<H: ImprovementHeuristic> ImprovementHeuristic for Cycle<H> {
    /// The weight never rises, and a result is adopted only when it is strictly lighter. With
    /// an empty list, or a policy that has already stopped, `current` comes back unchanged;
    /// otherwise the first heuristic is tried on `current`, and the result weighs no more than
    /// what it found when that was lighter.
    open spec fn promises(&self, problem: &GtspProblem, current: Seq<usize>, result: Seq<usize>) -> bool {
        &&& tour_weight(problem, result) <= tour_weight(problem, current)
        &&& result == current || tour_weight(problem, result) < tour_weight(problem, current)
        &&& self.heuristics_seq().len() == 0 || (!(self.policy().kind is Timeout) && self.policy().terminated())
            ==> result == current
        &&& self.heuristics_seq().len() > 0 && !(self.policy().kind is Timeout) && !self.policy().terminated()
            ==> exists|first: Seq<usize>|
            valid_tour(problem, first) && #[trigger] self.heuristics_seq()[0].promises(problem, current, first) && (
            tour_weight(problem, first) < tour_weight(problem, current) ==> tour_weight(problem, result)
                <= tour_weight(problem, first))
    }

    fn improve(&mut self, instance: &GtspProblem, current: Solution) -> (r: Solution) {
        let ghost start = current.tour_seq();
        let ghost list = self.heuristics@;
        let ghost policy = self.termination;
        let ghost mut tried = false;
        let ghost mut first: Seq<usize> = start;
        let mut current = current;
        let mut i: usize = 0;
        while !self.termination.should_terminate() && self.heuristics.len() > 0
            invariant
                instance.wf(),
                current.valid(instance),
                tour_weight(instance, current.tour_seq()) <= tour_weight(instance, start),
                current.tour_seq() == start || tour_weight(instance, current.tour_seq()) < tour_weight(instance, start),
                !tried ==> self.heuristics@ == list && i == 0 && current.tour_seq() == start && self.termination == policy,
                tried ==> list.len() > 0 && (!(policy.kind is Timeout) ==> !policy.terminated()),
                tried ==> valid_tour(instance, first) && list[0].promises(instance, start, first) && (tour_weight(
                    instance,
                    first,
                ) < tour_weight(instance, start) ==> tour_weight(instance, current.tour_seq()) <= tour_weight(instance, first)),
            decreases u64::MAX - self.termination.iterations,
        {
            i = i % self.heuristics.len();
            let ghost before = current.tour_seq();
            let mut heuristic = self.heuristics.remove(i);
            let copy = current.clone();
            let next = heuristic.improve(instance, copy);
            proof {
                if !tried {
                    tried = true;
                    first = next.tour_seq();
                }
            }
            if GtspProblem::score(&next) > GtspProblem::score(&current) {
                current = next;
                self.heuristics.insert(i, heuristic);
                i = i + 1;
            }
            self.termination.iteration();
        }
        current
    }
}

/// One pass over a neighbourhood: the lightest neighbour, or the solution itself when it has
/// none.
#[derive(Clone, Copy)]
pub struct ExploreOnce<N>(pub N);

impl<N: Neighborhood> ImprovementHeuristic for ExploreOnce<N> {
    /// The result is a lightest of the neighbours of `current`, or `current` itself when it has
    /// none.
    open spec fn promises(&self, problem: &GtspProblem, current: Seq<usize>, result: Seq<usize>) -> bool {
        &&& result == current || N::is_neighbor(problem, current, result)
        &&& exists|found: Seq<Seq<usize>>|
            #[trigger] N::covers(problem, current, found) && (found.len() == 0 ==> result == current) && (found.len()
                > 0 ==> found.contains(result) && forall|x: int|
                0 <= x < found.len() ==> tour_weight(problem, result) <= tour_weight(problem, #[trigger] found[x]))
    }

    fn improve(&mut self, instance: &GtspProblem, current: Solution) -> (r: Solution) {
        let neighbors = N::neighbors(instance, &current);
        let ghost found = tours_of(neighbors@);
        if neighbors.len() == 0 {
            return current;
        }
        let mut best_k: usize = 0;
        let mut k: usize = 1;
        while k < neighbors.len()
            invariant
                1 <= k <= neighbors.len(),
                best_k < neighbors.len(),
                forall|x: int| 0 <= x < k ==> neighbors[best_k as int].weight_value() <= (#[trigger] neighbors[x]).weight_value(),
            decreases neighbors.len() - k,
        {
            if GtspProblem::score(&neighbors[k]) >= GtspProblem::score(&neighbors[best_k]) {
                best_k = k;
            }
            k = k + 1;
        }
        let r = neighbors[best_k].clone();
        proof {
            assert(found[best_k as int] == r.tour_seq());
            assert forall|x: int| 0 <= x < found.len() implies tour_weight(instance, r.tour_seq()) <= tour_weight(instance, #[trigger] found[x]) by {
                assert(found[x] == neighbors[x].tour_seq());
                assert(neighbors[x].valid(instance));
            }
        }
        r
    }
}

} // verus!
