use crate::gtsp::{valid_tour, GtspProblem, Solution};
use crate::ImprovementHeuristic;
use vstd::prelude::*;

verus! {

/// Two improvements applied one after the other.
#[derive(Clone, Copy)]
pub struct Chain<I1, I2> {
    i1: I1,
    i2: I2,
}

impl<I1, I2> Chain<I1, I2> {
    pub closed spec fn first(&self) -> I1 {
        self.i1
    }

    pub closed spec fn second(&self) -> I2 {
        self.i2
    }

    pub fn new(i1: I1, i2: I2) -> (r: Self)
        ensures
            r.first() == i1,
            r.second() == i2,
    {
        Chain { i1, i2 }
    }
}

impl<I1: ImprovementHeuristic, I2: ImprovementHeuristic> ImprovementHeuristic for Chain<I1, I2> {
    /// The second improvement's promise holds of the result, taken from a tour of which the
    /// first improvement's promise holds.
    open spec fn promises(&self, problem: &GtspProblem, current: Seq<usize>, result: Seq<usize>) -> bool {
        exists|middle: Seq<usize>|
            valid_tour(problem, middle) && #[trigger] self.first().promises(problem, current, middle)
                && self.second().promises(problem, middle, result)
    }

    fn improve(&mut self, instance: &GtspProblem, current: Solution) -> (r: Solution) {
        let ghost start = current.tour_seq();
        let ghost first = self.first();
        let ghost second = self.second();
        let middle = self.i1.improve(instance, current);
        let ghost middle_tour = middle.tour_seq();
        let r = self.i2.improve(instance, middle);
        assert(valid_tour(instance, middle_tour) && first.promises(instance, start, middle_tour)
            && second.promises(instance, middle_tour, r.tour_seq()));
        r
    }
}

} // verus!
