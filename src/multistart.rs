use crate::gtsp::{tour_weight, valid_tour, GtspProblem, Solution};
use crate::termination::{Termination, TerminationKind};
use crate::{MetaHeuristic, Problem};
use rand::rngs::SmallRng;
use vstd::prelude::*;

verus! {

/// The least weight among the tours of `runs`, which must not be empty.
pub open spec fn lightest_weight(problem: &GtspProblem, runs: Seq<Seq<usize>>) -> int
    decreases runs.len(),
{
    if runs.len() <= 1 {
        tour_weight(problem, runs[0])
    } else {
        let rest = lightest_weight(problem, runs.drop_last());
        let last = tour_weight(problem, runs.last());
        if last < rest {
            last
        } else {
            rest
        }
    }
}

/// The number of runs that a multistart makes under `termination`, where it bounds the
/// iterations: one, and then one per iteration left.
pub open spec fn run_count(termination: Termination) -> int {
    match termination.kind {
        TerminationKind::Iterations(n) => if termination.iterations < n {
            1 + n - termination.iterations
        } else {
            1
        },
        _ => 1,
    }
}

/// Fresh runs of a search, each from a new random start, until the policy stops them; at
/// least one run is made.
pub struct Multistart<M> {
    termination: Termination,
    factory: M,
}

impl<M> Multistart<M> {
    pub closed spec fn policy(&self) -> Termination {
        self.termination
    }

    pub closed spec fn factory(&self) -> M {
        self.factory
    }

    /// A multistart that runs a fresh copy of `factory` each time.
    pub fn new(termination: Termination, factory: M) -> (r: Self)
        ensures
            r.policy() == termination,
            r.factory() == factory,
    {
        Multistart { termination, factory }
    }
}

/// Whether `t` is the first of the tours of `runs` of least weight.
pub open spec fn is_first_lightest(problem: &GtspProblem, runs: Seq<Seq<usize>>, t: Seq<usize>) -> bool {
    exists|j: int|
        0 <= j < runs.len() && #[trigger] runs[j] == t && forall|i: int|
            0 <= i < j ==> tour_weight(problem, t) < tour_weight(problem, #[trigger] runs[i])
}

impl<M: MetaHeuristic + Copy> MetaHeuristic for Multistart<M> {
    /// The result is the first lightest tour among the results of the runs, each of which is a
    /// result of the factory; at least one run is made, and under an iteration bound the
    /// number of runs is `run_count`.
    open spec fn promises(&self, problem: &GtspProblem, result: Seq<usize>) -> bool {
        exists|runs: Seq<Seq<usize>>|
            #![trigger lightest_weight(problem, runs)]
            runs.len() >= 1 && (forall|k: int| 0 <= k < runs.len() ==> valid_tour(problem, #[trigger] runs[k]))
                && (forall|k: int| 0 <= k < runs.len() ==> self.factory().promises(problem, #[trigger] runs[k]))
                && is_first_lightest(problem, runs, result) && tour_weight(problem, result) == lightest_weight(problem, runs)
                && (self.policy().kind is Iterations ==> runs.len() == run_count(self.policy()))
    }

    fn run(self, instance: &GtspProblem, rng: &mut SmallRng) -> (r: Solution) {
        let Multistart { mut termination, factory } = self;
        let ghost policy = termination;
        let mut best = factory.run(instance, rng);
        let ghost mut runs: Seq<Seq<usize>> = seq![best.tour_seq()];
        let ghost mut best_j: int = 0;
        proof {
            assert(runs[0] == best.tour_seq());
        }
        while !termination.should_terminate()
            invariant
                instance.wf(),
                best.valid(instance),
                runs.len() >= 1,
                forall|k: int| 0 <= k < runs.len() ==> valid_tour(instance, #[trigger] runs[k]),
                runs.contains(best.tour_seq()),
                forall|k: int| 0 <= k < runs.len() ==> factory.promises(instance, #[trigger] runs[k]),
                0 <= best_j < runs.len(),
                runs[best_j] == best.tour_seq(),
                forall|i: int| 0 <= i < best_j ==> tour_weight(instance, best.tour_seq()) < tour_weight(instance, #[trigger] runs[i]),
                forall|i: int| 0 <= i < runs.len() ==> tour_weight(instance, best.tour_seq()) <= tour_weight(instance, #[trigger] runs[i]),
                tour_weight(instance, best.tour_seq()) == lightest_weight(instance, runs),
                termination.kind == policy.kind,
                policy.iterations <= termination.iterations,
                policy.kind is Iterations ==> runs.len() == 1 + termination.iterations - policy.iterations,
                policy.kind matches TerminationKind::Iterations(n) ==> (policy.iterations < n
                    ==> termination.iterations <= n),
                policy.kind matches TerminationKind::Iterations(n) ==> (policy.iterations >= n
                    ==> termination.iterations == policy.iterations),
            decreases u64::MAX - termination.iterations,
        {
            let next = factory.run(instance, rng);
            let ghost old_runs = runs;
            proof {
                runs = runs.push(next.tour_seq());
                assert(runs.drop_last() =~= old_runs);
            }
            if GtspProblem::score(&next) > GtspProblem::score(&best) {
                best = next;
                proof {
                    assert(runs[runs.len() - 1] == best.tour_seq());
                    best_j = runs.len() - 1;
                }
            } else {
                proof {
                    let j = choose|j: int| 0 <= j < old_runs.len() && old_runs[j] == best.tour_seq();
                    assert(runs[j] == best.tour_seq());
                }
            }
            termination.iteration();
        }
        proof {
            assert(self.policy() == policy);
            assert(runs.len() >= 1 && runs.contains(best.tour_seq()) && tour_weight(instance, best.tour_seq())
                == lightest_weight(instance, runs));
            assert(self.factory() == factory);
            assert(is_first_lightest(instance, runs, best.tour_seq()));
        }
        best
    }
}

/// Allowing more runs never gives a heavier best tour: over the same sequence of runs, the
/// lightest weight among the first `n2` is at most the lightest among the first `n1 <= n2`.
pub proof fn lemma_more_runs_no_heavier(problem: &GtspProblem, runs: Seq<Seq<usize>>, n1: int, n2: int)
    requires
        1 <= n1 <= n2 <= runs.len(),
    ensures
        lightest_weight(problem, runs.take(n2)) <= lightest_weight(problem, runs.take(n1)),
    decreases n2 - n1,
{
    if n1 < n2 {
        lemma_more_runs_no_heavier(problem, runs, n1, n2 - 1);
        assert(runs.take(n2).drop_last() =~= runs.take(n2 - 1));
    }
}

} // verus!
