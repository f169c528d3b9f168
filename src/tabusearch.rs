use std::collections::VecDeque;
use std::marker::PhantomData;

use crate::gtsp::{tour_weight, GtspProblem, Solution};
use crate::multistart::is_first_lightest;
use crate::termination::{Termination, TerminationKind};
use crate::{tours_of, ImprovementHeuristic, Neighborhood, Problem};
use vstd::prelude::*;

verus! {

/// Whether no tour of `walk` equals one of the `l` tours accepted just before it.
pub open spec fn no_recent_repeat(walk: Seq<Seq<usize>>, l: int) -> bool {
    forall|a: int, b: int|
        0 <= a < b < walk.len() && b - a <= l ==> #[trigger] walk[a] != #[trigger] walk[b]
}

/// Whether `walk` is a sequence of tours each of which is an `N`-neighbour of the one before,
/// and none of which repeats any of the `l` tours before it.
pub open spec fn is_tabu_walk<N: Neighborhood>(problem: &GtspProblem, walk: Seq<Seq<usize>>, l: int) -> bool {
    &&& walk.len() >= 1
    &&& forall|k: int|
        0 <= k < walk.len() - 1 ==> N::is_neighbor(problem, #[trigger] walk[k], walk[k + 1])
    &&& no_recent_repeat(walk, l)
}

/// Whether `t` weighs least among the tours of `walk`, and is one of them.
pub open spec fn is_lightest_of(problem: &GtspProblem, walk: Seq<Seq<usize>>, t: Seq<usize>) -> bool {
    &&& walk.contains(t)
    &&& forall|k: int| 0 <= k < walk.len() ==> tour_weight(problem, t) <= tour_weight(problem, #[trigger] walk[k])
}

/// The last `l` tours of `walk`, or all of them while it is shorter.
pub open spec fn recent(walk: Seq<Seq<usize>>, l: int) -> Seq<Seq<usize>> {
    let k = if walk.len() < l { walk.len() as int } else { l };
    walk.subrange(walk.len() - k, walk.len() as int)
}

/// Whether every neighbour of the last tour of `walk` is among its last `l` tours.
pub open spec fn is_stuck<N: Neighborhood>(problem: &GtspProblem, walk: Seq<Seq<usize>>, l: int) -> bool {
    exists|found: Seq<Seq<usize>>|
        #[trigger] N::covers(problem, walk.last(), found) && forall|x: int|
            0 <= x < found.len() ==> recent(walk, l).contains(#[trigger] found[x])
}

/// Whether step `k` of `walk` went to a lightest neighbour of `walk[k]` among those that
/// were not among the last `l` tours of the walk up to then.
pub open spec fn is_tabu_step<N: Neighborhood>(problem: &GtspProblem, walk: Seq<Seq<usize>>, k: int, l: int) -> bool {
    exists|found: Seq<Seq<usize>>|
        #[trigger] N::covers(problem, walk[k], found) && found.contains(walk[k + 1]) && !recent(
            walk.take(k + 1),
            l,
        ).contains(walk[k + 1]) && forall|x: int|
            0 <= x < found.len() && !recent(walk.take(k + 1), l).contains(found[x]) ==> tour_weight(
                problem,
                walk[k + 1],
            ) <= tour_weight(problem, #[trigger] found[x])
}

/// Extending a walk keeps the earlier steps as they were.
proof fn lemma_tabu_steps_extend<N: Neighborhood>(
    problem: &GtspProblem,
    walk: Seq<Seq<usize>>,
    next: Seq<usize>,
    l: int,
)
    requires
        walk.len() >= 1,
        forall|k: int| 0 <= k < walk.len() - 1 ==> #[trigger] is_tabu_step::<N>(problem, walk, k, l),
        is_tabu_step::<N>(problem, walk.push(next), walk.len() - 1, l),
    ensures
        forall|k: int| 0 <= k < walk.len() ==> #[trigger] is_tabu_step::<N>(problem, walk.push(next), k, l),
{
    let w2 = walk.push(next);
    assert forall|k: int| 0 <= k < walk.len() implies #[trigger] is_tabu_step::<N>(problem, w2, k, l) by {
        if k < walk.len() - 1 {
            assert(is_tabu_step::<N>(problem, walk, k, l));
            let found = choose|found: Seq<Seq<usize>>|
                #[trigger] N::covers(problem, walk[k], found) && found.contains(walk[k + 1]) && !recent(
                    walk.take(k + 1),
                    l,
                ).contains(walk[k + 1]) && forall|x: int|
                    0 <= x < found.len() && !recent(walk.take(k + 1), l).contains(found[x]) ==> tour_weight(
                        problem,
                        walk[k + 1],
                    ) <= tour_weight(problem, #[trigger] found[x]);
            assert(w2.take(k + 1) =~= walk.take(k + 1));
            assert(w2[k] == walk[k] && w2[k + 1] == walk[k + 1]);
            assert(N::covers(problem, w2[k], found));
        }
    }
}

/// Tabu search over the neighbourhood `N`, which remembers the last `L` solutions it accepted.
pub struct TabuSearch<N, const L: usize> {
    termination: Termination,
    _n: PhantomData<N>,
}

impl<N, const L: usize> TabuSearch<N, L> {
    pub closed spec fn policy(&self) -> Termination {
        self.termination
    }

    pub fn new(termination: Termination) -> (r: Self)
        ensures
            r.policy() == termination,
    {
        TabuSearch { termination, _n: PhantomData }
    }
}

impl<N, const L: usize> Clone for TabuSearch<N, L> {
    fn clone(&self) -> (r: Self)
        ensures
            r.policy() == self.policy(),
    {
        TabuSearch { termination: self.termination, _n: PhantomData }
    }
}

impl<N, const L: usize> Copy for TabuSearch<N, L> {
}

impl<N: Neighborhood, const L: usize> ImprovementHeuristic for TabuSearch<N, L> {
    /// The search walks from `current` through neighbours without repeating any of the last `L`
    /// tours, and returns the lightest tour it has seen.
    /// Each step goes to a lightest neighbour that is not remembered, lighter or not. The
    /// walk goes on until the policy stops it or every neighbour of its last tour is among the
    /// tours remembered, and the result is the first lightest tour of the walk.
    open spec fn promises(&self, problem: &GtspProblem, current: Seq<usize>, result: Seq<usize>) -> bool {
        &&& tour_weight(problem, result) <= tour_weight(problem, current)
        &&& exists|walk: Seq<Seq<usize>>|
            #![trigger is_tabu_walk::<N>(problem, walk, L as int)]
            is_tabu_walk::<N>(problem, walk, L as int) && walk[0] == current && is_lightest_of(
                problem,
                walk,
                result,
            ) && is_first_lightest(problem, walk, result) && (forall|k: int|
                0 <= k < walk.len() - 1 ==> #[trigger] is_tabu_step::<N>(problem, walk, k, L as int)) && (!(
            self.policy().kind is Timeout) ==> walk.len() <= 1 + self.policy().budget()) && (
            self.policy().kind is Timeout || is_stuck::<N>(problem, walk, L as int) || walk.len() == 1
                + self.policy().budget())
    }

    fn improve(&mut self, instance: &GtspProblem, current: Solution) -> (r: Solution) {
        let ghost start = current.tour_seq();
        let ghost mut walk: Seq<Seq<usize>> = seq![start];
        let mut best = current.clone();
        let mut tabu_list: VecDeque<Solution> = VecDeque::new();
        remember(&mut tabu_list, &current, L, Ghost(instance));
        let mut tail = current;
        let ghost policy = self.termination;
        let mut stuck = false;
        let ghost mut best_j: int = 0;
        proof {
            assert(tours_of(tabu_list@) =~= walk.subrange(walk.len() - tabu_list@.len(), walk.len() as int));
            assert(walk.contains(best.tour_seq())) by { assert(walk[0] == best.tour_seq()); }
            reveal(tabu_state);
        }
        while !stuck && !self.termination.should_terminate()
            invariant
                stuck ==> is_stuck::<N>(instance, walk, L as int),
                self.termination.kind == policy.kind,
                policy.iterations <= self.termination.iterations,
                walk.len() == 1 + self.termination.iterations - policy.iterations,
                policy.kind matches TerminationKind::Iterations(n) ==> (policy.iterations < n
                    ==> self.termination.iterations <= n),
                policy.kind matches TerminationKind::Iterations(n) ==> (policy.iterations >= n
                    ==> self.termination.iterations == policy.iterations),
                instance.wf(),
                tail.valid(instance),
                best.valid(instance),
                tabu_state::<N>(instance, walk, tours_of(tabu_list@), best.tour_seq(), L as int),
                walk.len() >= 1,
                walk[0] == start,
                tail.tour_seq() == walk.last(),
                tabu_list@.len() <= L,
                forall|x: int| 0 <= x < tabu_list@.len() ==> (#[trigger] tabu_list@[x]).valid(instance),
                forall|k: int| 0 <= k < walk.len() - 1 ==> #[trigger] is_tabu_step::<N>(instance, walk, k, L as int),
                !(policy.kind is Timeout) ==> self.termination.iterations - policy.iterations <= policy.budget(),
                0 <= best_j < walk.len(),
                walk[best_j] == best.tour_seq(),
                forall|i: int| 0 <= i < best_j ==> tour_weight(instance, best.tour_seq()) < tour_weight(instance, #[trigger] walk[i]),
            decreases u64::MAX - self.termination.iterations, if stuck { 0int } else { 1int },
        {
            let neighbors = N::neighbors(instance, &tail);
            let c = match pick_non_tabu(&neighbors, &tabu_list, Ghost(instance)) {
                Some(c) => c,
                None => {
                    proof {
                        reveal(tabu_state);
                        let found = tours_of(neighbors@);
                        assert(tours_of(tabu_list@) =~= recent(walk, L as int));
                        assert forall|x: int| 0 <= x < found.len() implies recent(walk, L as int).contains(#[trigger] found[x]) by {
                            assert(found[x] == neighbors[x].tour_seq());
                        }
                        assert(N::covers(instance, walk.last(), found));
                    }
                    stuck = true;
                    continue;
                },
            };
            let next = neighbors[c].clone();
            let ghost old_walk = walk;
            let ghost old_best = best.tour_seq();
            let ghost old_tabu = tours_of(tabu_list@);
            let ghost old_len = tabu_list@.len();
            proof {
                reveal(tabu_state);
                let found = tours_of(neighbors@);
                let w2 = walk.push(next.tour_seq());
                assert(w2.take(walk.len() as int) =~= walk);
                assert(tours_of(tabu_list@) =~= recent(walk, L as int));
                assert(found[c as int] == next.tour_seq());
                assert forall|x: int| 0 <= x < found.len() && !recent(w2.take(walk.len() as int), L as int).contains(found[x])
                    implies tour_weight(instance, w2[walk.len() - 1 + 1]) <= tour_weight(instance, #[trigger] found[x]) by {
                    assert(found[x] == neighbors[x].tour_seq());
                    assert(neighbors[x].valid(instance));
                }
                assert(N::covers(instance, w2[walk.len() - 1], found));
                assert(is_tabu_step::<N>(instance, w2, walk.len() - 1, L as int));
                lemma_tabu_steps_extend::<N>(instance, walk, next.tour_seq(), L as int);
            }
            if GtspProblem::score(&next) > GtspProblem::score(&best) {
                best = next.clone();
                proof {
                    best_j = old_walk.len() as int;
                }
            }
            remember(&mut tabu_list, &next, L, Ghost(instance));
            proof {
                lemma_tabu_step::<N>(instance, old_walk, old_tabu, tours_of(tabu_list@), next.tour_seq(), old_best, best.tour_seq(), L as int);
                walk = old_walk.push(next.tour_seq());
            }
            tail = next;
            self.termination.iteration();
        }
        proof {
            reveal(tabu_state);
            assert(is_first_lightest(instance, walk, best.tour_seq()));
        }
        best
    }
}

/// The state of a tabu search that has walked through `walk`: the tabu list holds the last
/// `l` tours of the walk (all of them while it is shorter), and `best` is its lightest tour.
#[verifier::opaque]
pub open spec fn tabu_state<N: Neighborhood>(
    problem: &GtspProblem,
    walk: Seq<Seq<usize>>,
    remembered: Seq<Seq<usize>>,
    best: Seq<usize>,
    l: int,
) -> bool {
    &&& is_tabu_walk::<N>(problem, walk, l)
    &&& is_lightest_of(problem, walk, best)
    &&& remembered.len() == if walk.len() < l { walk.len() as int } else { l }
    &&& remembered == walk.subrange(walk.len() - remembered.len(), walk.len() as int)
}

/// One step of the search keeps its state: the walk moves on to `next`, which is not
/// remembered, the tabu list takes it in, and `best` becomes `next` if that is lighter.
proof fn lemma_tabu_step<N: Neighborhood>(
    problem: &GtspProblem,
    walk: Seq<Seq<usize>>,
    remembered: Seq<Seq<usize>>,
    remembered2: Seq<Seq<usize>>,
    next: Seq<usize>,
    best: Seq<usize>,
    best2: Seq<usize>,
    l: int,
)
    requires
        tabu_state::<N>(problem, walk, remembered, best, l),
        !remembered.contains(next),
        N::is_neighbor(problem, walk.last(), next),
        l >= 0,
        remembered2 == if l == 0 {
            remembered
        } else if remembered.len() < l {
            remembered.push(next)
        } else {
            remembered.push(next).subrange(1, l + 1)
        },
        best2 == next || best2 == best,
        best2 == next ==> tour_weight(problem, next) <= tour_weight(problem, best),
        best2 == best ==> tour_weight(problem, best) <= tour_weight(problem, next),
    ensures
        tabu_state::<N>(problem, walk.push(next), remembered2, best2, l),
        remembered2.len() <= l,
{
    reveal(tabu_state);
    lemma_walk_extend::<N>(problem, walk, remembered, next, l);
    let w2 = walk.push(next);
    assert(w2.contains(best2)) by {
        if best2 == next {
            assert(w2[w2.len() - 1] == next);
        } else {
            let j = choose|j: int| 0 <= j < walk.len() && walk[j] == best;
            assert(w2[j] == best);
        }
    }
    assert forall|j: int| 0 <= j < w2.len() implies tour_weight(problem, best2) <= tour_weight(problem, #[trigger] w2[j]) by {
        if j < walk.len() {
            assert(walk[j] == w2[j]);
        }
    }
    assert(remembered2 =~= w2.subrange(w2.len() - remembered2.len(), w2.len() as int));
}

/// The walk stays a tabu walk when it is extended by a neighbour of its last tour that is not
/// among the tours it remembers.
proof fn lemma_walk_extend<N: Neighborhood>(
    problem: &GtspProblem,
    walk: Seq<Seq<usize>>,
    remembered: Seq<Seq<usize>>,
    next: Seq<usize>,
    l: int,
)
    requires
        is_tabu_walk::<N>(problem, walk, l),
        remembered.len() == if walk.len() < l { walk.len() as int } else { l },
        remembered == walk.subrange(walk.len() - remembered.len(), walk.len() as int),
        !remembered.contains(next),
        N::is_neighbor(problem, walk.last(), next),
    ensures
        is_tabu_walk::<N>(problem, walk.push(next), l),
{
    let w2 = walk.push(next);
    assert forall|a: int, b: int|
        0 <= a < b < w2.len() && b - a <= l implies #[trigger] w2[a] != #[trigger] w2[b] by {
        if b == w2.len() - 1 {
            let w = walk.len() - remembered.len();
            assert(remembered[a - w] == walk[a]);
        } else {
            assert(walk[a] != walk[b]);
        }
    }
    assert forall|k: int| 0 <= k < w2.len() - 1 implies N::is_neighbor(problem, #[trigger] w2[k], w2[k + 1]) by {
        if k < walk.len() - 1 {
            assert(N::is_neighbor(problem, walk[k], walk[k + 1]));
        }
    }
}

/// Appends a copy of `s` to the tabu list and drops its oldest entry once it holds more than
/// `capacity`; with no capacity the list stays empty.
fn remember(tabu_list: &mut VecDeque<Solution>, s: &Solution, capacity: usize, Ghost(problem): Ghost<&GtspProblem>)
    requires
        old(tabu_list)@.len() <= capacity,
        forall|x: int| 0 <= x < old(tabu_list)@.len() ==> (#[trigger] old(tabu_list)@[x]).valid(problem),
        s.valid(problem),
    ensures
        forall|x: int| 0 <= x < final(tabu_list)@.len() ==> (#[trigger] final(tabu_list)@[x]).valid(problem),
        tours_of(final(tabu_list)@) == if capacity == 0 {
            tours_of(old(tabu_list)@)
        } else if old(tabu_list)@.len() < capacity {
            tours_of(old(tabu_list)@).push(s.tour_seq())
        } else {
            tours_of(old(tabu_list)@).push(s.tour_seq()).subrange(1, capacity + 1)
        },
        final(tabu_list)@.len() == if capacity == 0 {
            old(tabu_list)@.len() as int
        } else if old(tabu_list)@.len() < capacity {
            old(tabu_list)@.len() + 1int
        } else {
            capacity as int
        },
{
    if capacity == 0 {
        return;
    }
    let ghost before = tabu_list@;
    let copy = s.clone();
    tabu_list.push_back(copy);
    assert(tours_of(tabu_list@) =~= tours_of(before).push(s.tour_seq())) by {
        assert(tabu_list@[before.len() as int] == copy);
    }
    if tabu_list.len() > capacity {
        let ghost pushed = tabu_list@;
        tabu_list.pop_front();
        assert(tours_of(tabu_list@) =~= tours_of(pushed).subrange(1, pushed.len() as int));
    }
}

/// The index of a lightest solution among `neighbors` that is not in the tabu list, the last
/// of them if several tie; `None` if every neighbour is in the list.
fn pick_non_tabu(neighbors: &Vec<Solution>, tabu_list: &VecDeque<Solution>, Ghost(problem): Ghost<&GtspProblem>) -> (r: Option<usize>)
    requires
        forall|x: int| 0 <= x < neighbors.len() ==> (#[trigger] neighbors[x]).valid(problem),
        forall|x: int| 0 <= x < tabu_list@.len() ==> (#[trigger] tabu_list@[x]).valid(problem),
    ensures
        r is None <==> forall|x: int| 0 <= x < neighbors.len() ==> tours_of(tabu_list@).contains(#[trigger] neighbors[x].tour_seq()),
        r matches Some(c) ==> {
            &&& c < neighbors.len()
            &&& !tours_of(tabu_list@).contains(neighbors[c as int].tour_seq())
            &&& forall|x: int| 0 <= x < neighbors.len() && !tours_of(tabu_list@).contains(#[trigger] neighbors[x].tour_seq())
                ==> neighbors[c as int].weight_value() <= neighbors[x].weight_value()
        },
{
    let mut chosen: Option<usize> = None;
    let mut k: usize = 0;
    while k < neighbors.len()
        invariant
            k <= neighbors.len(),
            forall|x: int| 0 <= x < neighbors.len() ==> (#[trigger] neighbors[x]).valid(problem),
            forall|x: int| 0 <= x < tabu_list@.len() ==> (#[trigger] tabu_list@[x]).valid(problem),
            chosen is None <==> forall|x: int| 0 <= x < k ==> tours_of(tabu_list@).contains(#[trigger] neighbors[x].tour_seq()),
            chosen matches Some(c) ==> {
                &&& c < k
                &&& !tours_of(tabu_list@).contains(neighbors[c as int].tour_seq())
                &&& forall|x: int| 0 <= x < k && !tours_of(tabu_list@).contains(#[trigger] neighbors[x].tour_seq())
                    ==> neighbors[c as int].weight_value() <= neighbors[x].weight_value()
            },
        decreases neighbors.len() - k,
    {
        let mut is_tabu = false;
        let mut x: usize = 0;
        while x < tabu_list.len()
            invariant
                x <= tabu_list@.len(),
                k < neighbors.len(),
                is_tabu <==> exists|y: int| 0 <= y < x && tabu_list@[y].tour_seq() == neighbors[k as int].tour_seq()
                    && tabu_list@[y].weight_value() == neighbors[k as int].weight_value(),
            decreases tabu_list@.len() - x,
        {
            if tabu_list[x] == neighbors[k] {
                is_tabu = true;
            }
            x = x + 1;
        }
        proof {
            let t = neighbors[k as int].tour_seq();
            if tours_of(tabu_list@).contains(t) {
                let y = choose|y: int| 0 <= y < tabu_list@.len() && tours_of(tabu_list@)[y] == t;
                assert(tabu_list@[y].tour_seq() == t);
                assert(tabu_list@[y].valid(problem));
            }
            if is_tabu {
                let y = choose|y: int| 0 <= y < x && tabu_list@[y].tour_seq() == t
                    && tabu_list@[y].weight_value() == neighbors[k as int].weight_value();
                assert(tours_of(tabu_list@)[y] == t);
            }
        }
        if !is_tabu {
            match chosen {
                Some(c) => {
                    if neighbors[k].weight() <= neighbors[c].weight() {
                        chosen = Some(k);
                    }
                },
                None => {
                    chosen = Some(k);
                },
            }
        }
        k = k + 1;
    }
    chosen
}

} // verus!
