use vstd::prelude::*;

pub mod chain;
pub mod cycle_neighborhoods;
pub mod gtsp;
pub mod localsearch;
pub mod multistart;
pub mod random;
pub mod tabusearch;
pub mod termination;

use crate::gtsp::{tour_weight, valid_tour, GtspProblem, Solution};
use rand::rngs::SmallRng;

verus! {

/// An optimisation target whose solutions carry a score; a higher score is better.
pub trait Problem {
    type Solution;

    spec fn score_of(solution: &Self::Solution) -> int;

    fn score(solution: &Self::Solution) -> (r: i64)
        ensures
            r == Self::score_of(solution),
    ;
}

/// A generator of candidate solutions near a given one.
pub trait Neighborhood {
    /// Whether `candidate` is one of the tours that this neighbourhood offers from `current`.
    spec fn is_neighbor(problem: &GtspProblem, current: Seq<usize>, candidate: Seq<usize>) -> bool;

    /// Whether the tours `found` are all the candidates that this neighbourhood must offer
    /// from `current`.
    spec fn covers(problem: &GtspProblem, current: Seq<usize>, found: Seq<Seq<usize>>) -> bool;

    /// Candidate solutions near `current`.
    fn neighbors(problem: &GtspProblem, current: &Solution) -> (r: Vec<Solution>)
        requires
            problem.wf(),
            current.valid(problem),
        ensures
            forall|k: int|
                0 <= k < r.len() ==> (#[trigger] r[k]).valid(problem) && Self::is_neighbor(
                    problem,
                    current.tour_seq(),
                    r[k].tour_seq(),
                ),
            Self::covers(problem, current.tour_seq(), tours_of(r@)),
    ;
}

/// One candidate transformation of a solution, which knows what it would change in the score
/// before the new tour is built.
pub trait Move {
    /// Whether this move is one of the moves of the solution whose tour is `current`.
    spec fn applies_to(&self, problem: &GtspProblem, current: Seq<usize>) -> bool;

    /// The tour that this move makes of `current`.
    spec fn target(&self, current: Seq<usize>) -> Seq<usize>;

    /// The new score minus the current one: the current weight minus the new weight.
    fn score_increase(&self, problem: &GtspProblem, current: &Solution) -> (r: i64)
        requires
            problem.wf(),
            current.valid(problem),
            self.applies_to(problem, current.tour_seq()),
        ensures
            valid_tour(problem, self.target(current.tour_seq())),
            r == tour_weight(problem, current.tour_seq()) - tour_weight(
                problem,
                self.target(current.tour_seq()),
            ),
    ;

    /// Whether the move lowers the weight.
    fn is_improving(&self, problem: &GtspProblem, current: &Solution) -> (r: bool)
        requires
            problem.wf(),
            current.valid(problem),
            self.applies_to(problem, current.tour_seq()),
        ensures
            r == (tour_weight(problem, self.target(current.tour_seq())) < tour_weight(
                problem,
                current.tour_seq(),
            )),
    ;

    /// The solution that the move makes of `current`.
    fn into_solution(&self, problem: &GtspProblem, current: &Solution) -> (r: Solution)
        requires
            problem.wf(),
            current.valid(problem),
            self.applies_to(problem, current.tour_seq()),
        ensures
            r.valid(problem),
            r.tour_seq() == self.target(current.tour_seq()),
    ;
}

/// A generator of the moves that apply to a solution.
pub trait MoveNeighborhood {
    type Move: Move;

    /// Whether `candidate` is a tour that one of the moves makes of `current`.
    spec fn is_move_target(problem: &GtspProblem, current: Seq<usize>, candidate: Seq<usize>) -> bool;

    /// What the list `moves` of the moves of `current` is, beyond holding a move for each
    /// tour that `is_move_target` admits: their order and their number.
    spec fn is_listing(current: Seq<usize>, moves: Seq<Self::Move>) -> bool;

    /// The moves that apply to `current`: one for each tour that `is_move_target` admits.
    fn moves(problem: &GtspProblem, current: &Solution) -> (r: Vec<Self::Move>)
        requires
            problem.wf(),
            current.valid(problem),
        ensures
            forall|k: int|
                0 <= k < r.len() ==> (#[trigger] r[k]).applies_to(problem, current.tour_seq())
                    && Self::is_move_target(
                    problem,
                    current.tour_seq(),
                    r[k].target(current.tour_seq()),
                ),
            forall|candidate: Seq<usize>|
                #[trigger] Self::is_move_target(problem, current.tour_seq(), candidate) ==> exists|k: int|
                    0 <= k < r.len() && (#[trigger] r[k]).target(current.tour_seq()) == candidate,
            Self::is_listing(current.tour_seq(), r@),
    ;
}

/// The tours of the solutions `s`.
pub open spec fn tours_of(s: Seq<Solution>) -> Seq<Seq<usize>> {
    s.map_values(|x: Solution| x.tour_seq())
}

/// Every move neighbourhood offers, as candidate solutions, the tours its moves make.
impl<N: MoveNeighborhood> Neighborhood for N {
    open spec fn is_neighbor(problem: &GtspProblem, current: Seq<usize>, candidate: Seq<usize>) -> bool {
        N::is_move_target(problem, current, candidate)
    }

    /// The tours found are exactly those that the moves make.
    open spec fn covers(problem: &GtspProblem, current: Seq<usize>, found: Seq<Seq<usize>>) -> bool {
        &&& forall|candidate: Seq<usize>|
            #[trigger] N::is_move_target(problem, current, candidate) ==> found.contains(candidate)
        &&& forall|x: int| 0 <= x < found.len() ==> N::is_move_target(problem, current, #[trigger] found[x])
    }

    fn neighbors(problem: &GtspProblem, current: &Solution) -> (r: Vec<Solution>) {
        let moves = N::moves(problem, current);
        let mut solutions: Vec<Solution> = Vec::new();
        let mut k: usize = 0;
        while k < moves.len()
            invariant
                problem.wf(),
                current.valid(problem),
                k <= moves.len(),
                solutions.len() == k,
                forall|x: int|
                    0 <= x < moves.len() ==> (#[trigger] moves[x]).applies_to(problem, current.tour_seq())
                        && N::is_move_target(problem, current.tour_seq(), moves[x].target(current.tour_seq())),
                forall|x: int|
                    0 <= x < k ==> (#[trigger] solutions[x]).valid(problem) && N::is_move_target(
                        problem,
                        current.tour_seq(),
                        solutions[x].tour_seq(),
                    ),
                forall|x: int| 0 <= x < k ==> #[trigger] solutions[x].tour_seq() == moves[x].target(current.tour_seq()),
                forall|candidate: Seq<usize>|
                    #[trigger] N::is_move_target(problem, current.tour_seq(), candidate) ==> exists|x: int|
                        0 <= x < moves.len() && (#[trigger] moves[x]).target(current.tour_seq()) == candidate,
            decreases moves.len() - k,
        {
            let s = moves[k].into_solution(problem, current);
            solutions.push(s);
            k = k + 1;
        }
        proof {
            let t = current.tour_seq();
            assert forall|candidate: Seq<usize>| #[trigger] N::is_move_target(problem, t, candidate) implies tours_of(solutions@).contains(candidate) by {
                let x = choose|x: int| 0 <= x < moves.len() && (#[trigger] moves[x]).target(t) == candidate;
                assert(tours_of(solutions@)[x] == candidate);
            }
            assert forall|x: int| 0 <= x < tours_of(solutions@).len() implies N::is_move_target(problem, t, #[trigger] tours_of(solutions@)[x]) by {
                assert(tours_of(solutions@)[x] == solutions[x].tour_seq());
            }
        }
        solutions
    }
}

/// A transformation of a solution into another.
pub trait ImprovementHeuristic {
    /// What the heuristic, in the state it is called in, promises of the tour `result` that it
    /// makes of `current`, beyond the result being a solution.
    spec fn promises(&self, problem: &GtspProblem, current: Seq<usize>, result: Seq<usize>) -> bool;

    fn improve(&mut self, instance: &GtspProblem, current: Solution) -> (r: Solution)
        requires
            instance.wf(),
            current.valid(instance),
        ensures
            r.valid(instance),
            old(self).promises(instance, current.tour_seq(), r.tour_seq()),
    ;
}

/// A source of starting solutions.
pub trait InitialSolution {
    fn make_initial_solution(&mut self, instance: &GtspProblem, rng: &mut SmallRng) -> (r: Solution)
        requires
            instance.wf(),
        ensures
            r.valid(instance),
    ;
}

/// A complete search: from an instance and a source of randomness to a solution.
pub trait MetaHeuristic {
    /// What the search, in the state it is started in, promises of the tour it returns, beyond
    /// the result being a solution.
    spec fn promises(&self, problem: &GtspProblem, result: Seq<usize>) -> bool;

    fn run(self, instance: &GtspProblem, rng: &mut SmallRng) -> (r: Solution)
        requires
            instance.wf(),
        ensures
            r.valid(instance),
            self.promises(instance, r.tour_seq()),
    ;
}

/// Starting solutions that visit a uniformly random vertex of each cluster, in cluster order.
#[derive(Clone, Copy)]
pub struct RandomTour;

impl InitialSolution for RandomTour {
    fn make_initial_solution(&mut self, instance: &GtspProblem, rng: &mut SmallRng) -> (r: Solution) {
        instance.make_initial_solution(rng)
    }
}

/// The search that improves a starting solution.
#[derive(Clone, Copy)]
pub struct ImproveInitial<In, Im> {
    initial: In,
    improvement: Im,
}

impl<In, Im> ImproveInitial<In, Im> {
    pub closed spec fn improvement(&self) -> Im {
        self.improvement
    }

    pub fn new(initial: In, improvement: Im) -> (r: Self)
        ensures
            r.improvement() == improvement,
    {
        ImproveInitial { initial, improvement }
    }
}

impl<In: InitialSolution, Im: ImprovementHeuristic> MetaHeuristic for ImproveInitial<In, Im> {
    /// The result is what the improvement makes of some solution.
    open spec fn promises(&self, problem: &GtspProblem, result: Seq<usize>) -> bool {
        exists|start: Seq<usize>|
            valid_tour(problem, start) && #[trigger] self.improvement().promises(problem, start, result)
    }

    fn run(self, instance: &GtspProblem, rng: &mut SmallRng) -> (r: Solution) {
        let ghost promised = self.improvement();
        let ImproveInitial { mut initial, mut improvement } = self;
        let start = initial.make_initial_solution(instance, rng);
        let ghost start_tour = start.tour_seq();
        let r = improvement.improve(instance, start);
        assert(valid_tour(instance, start_tour) && promised.promises(instance, start_tour, r.tour_seq()));
        r
    }
}

} // verus!
