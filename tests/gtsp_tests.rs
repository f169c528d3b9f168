use gtsp::chain::Chain;
use gtsp::cycle_neighborhoods::{Cycle, ExploreOnce};
use gtsp::gtsp::neighborhoods::{
    ClusterOptimization, InsertsNeighborhood, SwapMove, SwapNeighborhood, TwoOptNeighborhood,
};
use gtsp::gtsp::text::{ReadError, SolutionReadError};
use gtsp::gtsp::{GtspProblem, InstanceError, Solution, MAX_ARC, MAX_VERTICES};
use gtsp::localsearch::LocalSearch;
use gtsp::multistart::Multistart;
use gtsp::tabusearch::TabuSearch;
use gtsp::termination::{Termination, TerminationKind};
use gtsp::{
    ImproveInitial, ImprovementHeuristic, MetaHeuristic, Move, MoveNeighborhood, Neighborhood,
    Problem, RandomTour,
};
use rand::rngs::SmallRng;
use rand::SeedableRng;
use std::time::Duration;

fn small_instance() -> GtspProblem {
    // clusters {0}, {1, 2}, {3}; symmetric costs
    let d = vec![
        vec![0, 1, 5, 4],
        vec![1, 0, 2, 1],
        vec![5, 2, 0, 6],
        vec![4, 1, 6, 0],
    ];
    GtspProblem::new(4, vec![vec![0], vec![1, 2], vec![3]], true, true, d).unwrap()
}

fn asymmetric_instance() -> GtspProblem {
    let n = 9;
    let mut d = Vec::new();
    for u in 0..n {
        let mut row = Vec::new();
        for v in 0..n {
            row.push(((u * 7 + v * 13 + (u * v) % 5) % 20 + 1) as i64);
        }
        d.push(row);
    }
    let clusters = vec![vec![0, 4], vec![1, 5, 6], vec![2], vec![3, 7], vec![8]];
    GtspProblem::new(n, clusters, false, false, d).unwrap()
}

fn recomputed_weight(p: &GtspProblem, tour: &[usize]) -> i64 {
    let n = tour.len();
    (0..n).map(|i| p.dist(tour[i], tour[(i + 1) % n])).sum()
}

fn clusters_of(p: &GtspProblem, tour: &[usize]) -> Vec<usize> {
    tour.iter().map(|&v| p.cluster_index(v)).collect()
}

fn assert_valid(p: &GtspProblem, s: &Solution) {
    let mut seen = clusters_of(p, s.tour());
    seen.sort();
    let expected: Vec<usize> = (0..p.number_of_clusters()).collect();
    assert_eq!(seen, expected);
    assert_eq!(s.weight(), recomputed_weight(p, s.tour()));
}

#[test]
fn instance_accessors() {
    let p = small_instance();
    assert_eq!(p.number_of_vertices(), 4);
    assert_eq!(p.number_of_clusters(), 3);
    assert!(p.is_symmetric());
    assert!(p.has_triangle_inequality());
    assert_eq!(p.dist(2, 3), 6);
    assert_eq!(p.cluster_index(2), 1);
    assert_eq!(p.cluster_len(1), 2);
    assert_eq!(p.cluster_vertex(1, 1), 2);
}

#[test]
fn instance_errors() {
    let d2 = vec![vec![0, 1], vec![1, 0]];
    assert_eq!(
        GtspProblem::new(MAX_VERTICES + 1, vec![vec![0]], true, true, vec![]).err(),
        Some(InstanceError::TooManyVertices)
    );
    assert_eq!(
        GtspProblem::new(2, vec![], true, true, d2.clone()).err(),
        Some(InstanceError::ClusterCount)
    );
    assert_eq!(
        GtspProblem::new(2, vec![vec![0], vec![1], vec![]], true, true, d2.clone()).err(),
        Some(InstanceError::ClusterCount)
    );
    assert_eq!(
        GtspProblem::new(2, vec![vec![0, 1], vec![]], true, true, d2.clone()).err(),
        Some(InstanceError::EmptyCluster(1))
    );
    assert_eq!(
        GtspProblem::new(2, vec![vec![0], vec![2]], true, true, d2.clone()).err(),
        Some(InstanceError::VertexOutOfRange(2))
    );
    assert_eq!(
        GtspProblem::new(2, vec![vec![0], vec![0]], true, true, d2.clone()).err(),
        Some(InstanceError::DuplicateVertex(0))
    );
    assert_eq!(
        GtspProblem::new(2, vec![vec![1]], true, true, d2.clone()).err(),
        Some(InstanceError::UncoveredVertex(0))
    );
    assert_eq!(
        GtspProblem::new(2, vec![vec![0], vec![1]], true, true, vec![vec![0, 1]]).err(),
        Some(InstanceError::MatrixShape)
    );
    assert_eq!(
        GtspProblem::new(2, vec![vec![0], vec![1]], true, true, vec![vec![0, 1], vec![1]]).err(),
        Some(InstanceError::MatrixShape)
    );
    assert_eq!(
        GtspProblem::new(2, vec![vec![0], vec![1]], true, true, vec![vec![0, MAX_ARC + 1], vec![1, 0]])
            .err(),
        Some(InstanceError::CostOutOfRange)
    );
    assert!(GtspProblem::new(2, vec![vec![0], vec![1]], true, true, vec![vec![0, -MAX_ARC], vec![MAX_ARC, 0]]).is_ok());
}

#[test]
fn solution_weight_includes_wrap_around_arc() {
    let p = small_instance();
    let s = Solution::new(&p, vec![0, 2, 3]);
    assert_eq!(s.weight(), 5 + 6 + 4);
    assert_eq!(s.tour(), &[0, 2, 3]);
    assert_eq!(GtspProblem::score(&s), -15);
    let one = GtspProblem::new(1, vec![vec![0]], true, true, vec![vec![7]]).unwrap();
    assert_eq!(Solution::new(&one, vec![0]).weight(), 7);
}

#[test]
fn forward_cost_takes_positions_modulo_length() {
    let p = asymmetric_instance();
    let s = Solution::new(&p, vec![0, 1, 2, 3, 8]);
    assert_eq!(s.forward_cost(&p, &vec![3, 4, 5]), p.dist(3, 8) + p.dist(8, 0));
    assert_eq!(s.forward_cost(&p, &vec![2]), 0);
    assert_eq!(s.forward_cost(&p, &vec![0, 1, 2, 3, 4, 5]), s.weight());
}

#[test]
fn solution_equality_and_clone() {
    let p = small_instance();
    let a = Solution::new(&p, vec![0, 1, 3]);
    let b = a.clone();
    assert!(a == b);
    assert_eq!(b.tour(), &[0, 1, 3]);
    assert!(a != Solution::new(&p, vec![0, 3, 1]));
}

#[test]
fn initial_solution_visits_every_cluster_once() {
    let p = asymmetric_instance();
    let mut rng = SmallRng::seed_from_u64(7);
    for _ in 0..20 {
        let s = p.make_initial_solution(&mut rng);
        assert_eq!(s.tour().len(), 5);
        assert_eq!(clusters_of(&p, s.tour()), vec![0, 1, 2, 3, 4]);
        assert_valid(&p, &s);
    }
}

#[test]
fn initial_solution_from_picks_keeps_them() {
    let p = asymmetric_instance();
    let s = p.initial_solution_from_picks(&vec![4, 6, 2, 7, 8]);
    assert_eq!(s.tour(), &[4, 6, 2, 7, 8]);
    assert_valid(&p, &s);
}

#[test]
fn random_choices_vary_over_draws() {
    let p = asymmetric_instance();
    let mut rng = SmallRng::seed_from_u64(3);
    let mut second_members = std::collections::BTreeSet::new();
    for _ in 0..60 {
        let s = p.make_initial_solution(&mut rng);
        second_members.insert(s.tour()[1]);
    }
    assert_eq!(second_members.into_iter().collect::<Vec<_>>(), vec![1, 5, 6]);
}

#[test]
fn swap_moves_cover_all_pairs() {
    let p = asymmetric_instance();
    let s = Solution::new(&p, vec![0, 1, 2, 3, 8]);
    let moves = <SwapNeighborhood as MoveNeighborhood>::moves(&p, &s);
    assert_eq!(moves.len(), 10);
    for m in &moves {
        let new = m.into_solution(&p, &s);
        assert_valid(&p, &new);
        assert_eq!(m.score_increase(&p, &s), s.weight() - new.weight());
        assert_eq!(m.is_improving(&p, &s), new.weight() < s.weight());
    }
    let m = SwapMove::new(&p, &s, 0, 3);
    assert_eq!(m.into_solution(&p, &s).tour(), &[3, 1, 2, 0, 8]);
}

#[test]
fn two_opt_increase_matches_recomputation_asymmetric() {
    let p = asymmetric_instance();
    let s = Solution::new(&p, vec![4, 5, 2, 7, 8]);
    let moves = <TwoOptNeighborhood as MoveNeighborhood>::moves(&p, &s);
    // pairs (i, h) with h >= i + 2, excluding (0, n - 1)
    assert_eq!(moves.len(), 5);
    let mut tours = Vec::new();
    for m in &moves {
        let new = m.into_solution(&p, &s);
        assert_valid(&p, &new);
        let full = recomputed_weight(&p, new.tour());
        assert_eq!(m.score_increase(&p, &s), s.weight() - full);
        assert_eq!(GtspProblem::score(&new) - GtspProblem::score(&s), m.score_increase(&p, &s));
        tours.push(new.tour().to_vec());
    }
    assert!(tours.contains(&vec![4, 2, 5, 7, 8]));
    assert!(tours.contains(&vec![4, 5, 8, 7, 2]));
}

#[test]
fn two_opt_increase_matches_recomputation_symmetric() {
    let p = small_instance();
    let big = {
        let n = 6;
        let mut d = vec![vec![0i64; n]; n];
        for u in 0..n {
            for v in 0..n {
                d[u][v] = ((u as i64 - v as i64).abs() * 3 + ((u + v) % 4) as i64) as i64;
            }
        }
        GtspProblem::new(n, (0..n).map(|v| vec![v]).collect(), true, false, d).unwrap()
    };
    let s = Solution::new(&big, vec![0, 3, 1, 5, 2, 4]);
    for m in <TwoOptNeighborhood as MoveNeighborhood>::moves(&big, &s) {
        let new = m.into_solution(&big, &s);
        assert_eq!(m.score_increase(&big, &s), s.weight() - recomputed_weight(&big, new.tour()));
    }
    let s3 = Solution::new(&p, vec![0, 1, 3]);
    assert_eq!(<TwoOptNeighborhood as MoveNeighborhood>::moves(&p, &s3).len(), 0);
}

#[test]
fn neighborhood_bridge_materialises_moves() {
    let p = asymmetric_instance();
    let s = Solution::new(&p, vec![0, 1, 2, 3, 8]);
    let ns = <SwapNeighborhood as Neighborhood>::neighbors(&p, &s);
    assert_eq!(ns.len(), 10);
    for n in &ns {
        assert_valid(&p, n);
    }
}

#[test]
fn inserts_change_position_and_representative() {
    let p = asymmetric_instance();
    let s = Solution::new(&p, vec![0, 1, 2, 3, 8]);
    let ns = <InsertsNeighborhood as Neighborhood>::neighbors(&p, &s);
    // each position has 2 non-adjacent targets in a tour of 5; cluster sizes 2, 3, 1, 2, 1
    assert_eq!(ns.len(), 2 * (2 + 3 + 1 + 2 + 1));
    for n in &ns {
        assert_valid(&p, n);
    }
    assert!(ns.iter().any(|n| n.tour() == [1, 2, 4, 3, 8]));
}

fn brute_force_same_positions(p: &GtspProblem, t: &[usize]) -> i64 {
    let cl: Vec<usize> = clusters_of(p, t);
    let mut best = i64::MAX;
    let mut choice = vec![0usize; t.len()];
    loop {
        let tour: Vec<usize> = (0..t.len()).map(|q| p.cluster_vertex(cl[q], choice[q])).collect();
        best = best.min(recomputed_weight(p, &tour));
        let mut q = 0;
        loop {
            if q == t.len() {
                return best;
            }
            choice[q] += 1;
            if choice[q] < p.cluster_len(cl[q]) {
                break;
            }
            choice[q] = 0;
            q += 1;
        }
    }
}

#[test]
fn cluster_optimization_is_optimal_for_fixed_order() {
    let p = asymmetric_instance();
    for tour in [vec![0, 1, 2, 3, 8], vec![7, 2, 6, 8, 4], vec![8, 3, 5, 0, 2]] {
        let s = Solution::new(&p, tour.clone());
        let best = brute_force_same_positions(&p, &tour);
        let r = ClusterOptimization.improve(&p, s.clone());
        assert_valid(&p, &r);
        assert_eq!(r.weight(), best);
        assert!(r.weight() <= s.weight());
        // same cyclic order of clusters
        let cl = clusters_of(&p, &tour);
        let rc = clusters_of(&p, r.tour());
        let shift = (0..5).find(|&k| (0..5).all(|q| rc[q] == cl[(q + k) % 5]));
        assert!(shift.is_some());
        let ns = <ClusterOptimization as Neighborhood>::neighbors(&p, &s);
        // one candidate per vertex of a smallest cluster
        assert_eq!(ns.len(), 1);
        assert_eq!(ns[0].weight(), best);
    }
}

#[test]
fn cluster_optimization_tries_every_anchor() {
    let d = vec![
        vec![0, 9, 1, 9],
        vec![9, 0, 9, 1],
        vec![1, 9, 0, 9],
        vec![9, 1, 9, 0],
    ];
    let p = GtspProblem::new(4, vec![vec![0, 1], vec![2, 3]], true, true, d).unwrap();
    let s = Solution::new(&p, vec![0, 3]);
    assert_eq!(s.weight(), 18);
    let ns = <ClusterOptimization as Neighborhood>::neighbors(&p, &s);
    assert_eq!(ns.len(), 2);
    let r = ClusterOptimization.improve(&p, s);
    assert_eq!(r.weight(), 2);
}

#[test]
fn local_search_reaches_local_optimum_and_stays() {
    let p = asymmetric_instance();
    let s = Solution::new(&p, vec![0, 1, 2, 3, 8]);
    let r = LocalSearch::<TwoOptNeighborhood>::new(Termination::never()).improve(&p, s.clone());
    assert_valid(&p, &r);
    assert!(r.weight() <= s.weight());
    for m in <TwoOptNeighborhood as MoveNeighborhood>::moves(&p, &r) {
        assert!(!m.is_improving(&p, &r));
    }
    let again = LocalSearch::<TwoOptNeighborhood>::new(Termination::after_iterations(1)).improve(&p, r.clone());
    assert!(again == r);
}

#[test]
fn local_search_respects_iteration_budget() {
    let p = asymmetric_instance();
    let s = Solution::new(&p, vec![0, 1, 2, 3, 8]);
    let r = LocalSearch::<SwapNeighborhood>::new(Termination::after_iterations(0)).improve(&p, s.clone());
    assert!(r == s);
}

#[test]
fn three_cluster_scenario_reaches_minimal_tour() {
    let p = small_instance();
    let start = Solution::new(&p, vec![0, 2, 3]);
    assert_eq!(start.weight(), 15);
    let mut search = Chain::new(
        LocalSearch::<SwapNeighborhood>::new(Termination::never()),
        ClusterOptimization,
    );
    let r = search.improve(&p, start);
    assert_eq!(r.weight(), 6);
    assert!(r.tour().contains(&1));
}

#[test]
fn tabu_search_returns_best_seen() {
    let p = asymmetric_instance();
    let s = Solution::new(&p, vec![0, 1, 2, 3, 8]);
    let r = TabuSearch::<SwapNeighborhood, 3>::new(Termination::after_iterations(15)).improve(&p, s.clone());
    assert_valid(&p, &r);
    assert!(r.weight() <= s.weight());
    let local = LocalSearch::<SwapNeighborhood>::new(Termination::never()).improve(&p, s.clone());
    assert!(r.weight() <= local.weight());
    let no_memory = TabuSearch::<InsertsNeighborhood, 0>::new(Termination::after_iterations(5)).improve(&p, s.clone());
    assert_valid(&p, &no_memory);
    assert!(no_memory.weight() <= s.weight());
}

#[test]
fn tabu_search_with_zero_budget_returns_start() {
    let p = asymmetric_instance();
    let s = Solution::new(&p, vec![0, 1, 2, 3, 8]);
    let r = TabuSearch::<TwoOptNeighborhood, 4>::new(Termination::after_iterations(0)).improve(&p, s.clone());
    assert!(r == s);
}

#[test]
fn explore_once_picks_lightest_neighbour() {
    let p = asymmetric_instance();
    let s = Solution::new(&p, vec![0, 1, 2, 3, 8]);
    let r = ExploreOnce(SwapNeighborhood).improve(&p, s.clone());
    let best = <SwapNeighborhood as Neighborhood>::neighbors(&p, &s)
        .iter()
        .map(|n| n.weight())
        .min()
        .unwrap();
    assert_eq!(r.weight(), best);
    let one_cluster = GtspProblem::new(1, vec![vec![0]], true, true, vec![vec![0]]).unwrap();
    let single = Solution::new(&one_cluster, vec![0]);
    assert!(ExploreOnce(SwapNeighborhood).improve(&one_cluster, single.clone()) == single);
}

#[test]
fn cycle_never_worsens() {
    let p = asymmetric_instance();
    let s = Solution::new(&p, vec![0, 1, 2, 3, 8]);
    let mut cycle = Cycle::new(
        vec![ExploreOnce(InsertsNeighborhood), ExploreOnce(InsertsNeighborhood)],
        Termination::after_iterations(10),
    );
    let r = cycle.improve(&p, s.clone());
    assert_valid(&p, &r);
    assert!(r.weight() <= s.weight());
    let mut empty: Cycle<ExploreOnce<SwapNeighborhood>> = Cycle::new(vec![], Termination::never());
    assert!(empty.improve(&p, s.clone()) == s);
}

#[test]
fn improve_initial_runs_improvement_on_random_start() {
    let p = asymmetric_instance();
    let mut rng = SmallRng::seed_from_u64(11);
    let search = ImproveInitial::new(RandomTour, ClusterOptimization);
    let r = search.run(&p, &mut rng);
    assert_valid(&p, &r);
}

fn multistart_weight(n: usize) -> i64 {
    let p = asymmetric_instance();
    let mut rng = SmallRng::seed_from_u64(42);
    let factory = ImproveInitial::new(RandomTour, LocalSearch::<SwapNeighborhood>::new(Termination::never()));
    let r = Multistart::new(Termination::after_iterations(n), factory).run(&p, &mut rng);
    assert_valid(&p, &r);
    r.weight()
}

#[test]
fn multistart_improves_with_more_runs() {
    let weights: Vec<i64> = (0..8).map(multistart_weight).collect();
    for w in weights.windows(2) {
        assert!(w[1] <= w[0]);
    }
}

#[test]
fn termination_policies() {
    let mut t = Termination::after_iterations(2);
    assert!(!t.should_terminate());
    t.iteration();
    assert!(!t.should_terminate());
    t.iteration();
    assert!(t.should_terminate());
    assert_eq!(t.iterations, 2);
    let never = Termination::never();
    assert!(!never.should_terminate());
    assert!(matches!(never.kind, TerminationKind::Never));
    let expired = Termination::after_duration(Duration::from_millis(0));
    let waited = std::time::Instant::now();
    while waited.elapsed() < Duration::from_millis(5) {}
    assert!(expired.should_terminate());
    let later = Termination::after_duration(Duration::from_secs(3600));
    assert!(!later.should_terminate());
    let exhausted = Termination { kind: TerminationKind::Never, iterations: u64::MAX };
    assert!(exhausted.should_terminate());
}

const INSTANCE_TEXT: &str = "N: 4\nM: 3\nSymmetric: true\nTriangle: false\n1 1\n2 2 3\n1 4\n0 1 5 4\n1 0 2 1\n5 2 0 6\n4 1 6 0\n";

#[test]
fn read_instance_from_text() {
    let p = GtspProblem::read_from_text(INSTANCE_TEXT.as_bytes()).unwrap();
    assert_eq!(p.number_of_vertices(), 4);
    assert_eq!(p.number_of_clusters(), 3);
    assert!(p.is_symmetric());
    assert!(!p.has_triangle_inequality());
    assert_eq!(p.cluster_vertex(1, 1), 2);
    assert_eq!(p.dist(2, 3), 6);
    assert_eq!(Solution::new(&p, vec![0, 1, 3]).weight(), 6);
}

#[test]
fn read_instance_accepts_crlf_signs_and_extra_tokens() {
    let text = "N: +2\r\nM: 1\r\nSymmetric: false\r\nTriangle: true\r\n2  1\t2 9\r\n0 -3 7\r\n+4 0";
    let p = GtspProblem::read_from_text(text.as_bytes()).unwrap();
    assert_eq!(p.number_of_vertices(), 2);
    assert!(!p.is_symmetric());
    assert!(p.has_triangle_inequality());
    assert_eq!(p.dist(0, 1), -3);
    assert_eq!(p.dist(1, 0), 4);
}

#[test]
fn read_instance_rejects_malformed_text() {
    for text in [
        "",
        "N: 4\nM: 3\nSymmetric: true\n",
        "N:4\nM: 1\nSymmetric: true\nTriangle: true\n1 1\n0\n",
        "N: 1\nM: 1\nSymmetric: yes\nTriangle: true\n1 1\n0\n",
        "N: 1\nM: 1\nSymmetric: true\nTriangle: true\n1 0\n0\n",
        "N: 1\nM: 1\nSymmetric: true\nTriangle: true\n2 1\n0\n",
        "N: 1\nM: 1\nSymmetric: true\nTriangle: true\n1 1\n",
        "N: 2\nM: 1\nSymmetric: true\nTriangle: true\n2 1 2\n0 1\n1\n",
        "N: 1\nM: 1\nSymmetric: true\nTriangle: true\n1 1\n99999999999999999999\n",
        "N: 1 \nM: 1\nSymmetric: true\nTriangle: true\n1 1\n0\n",
    ] {
        assert_eq!(GtspProblem::read_from_text(text.as_bytes()).err(), Some(ReadError::Malformed), "{:?}", text);
    }
    let uncovered = "N: 2\nM: 1\nSymmetric: true\nTriangle: true\n1 1\n0 1\n1 0\n";
    assert_eq!(
        GtspProblem::read_from_text(uncovered.as_bytes()).err(),
        Some(ReadError::Invalid(InstanceError::UncoveredVertex(1)))
    );
}

#[test]
fn read_solution_from_text() {
    let p = GtspProblem::read_from_text(INSTANCE_TEXT.as_bytes()).unwrap();
    let s = Solution::read_from_text(&p, "3\n6\n1\n2\n4\n".as_bytes()).unwrap();
    assert_eq!(s.tour(), &[0, 1, 3]);
    assert_eq!(s.weight(), 6);
    assert_eq!(
        Solution::read_from_text(&p, "3\n7\n1\n2\n4\n".as_bytes()).err(),
        Some(SolutionReadError::WrongWeight)
    );
    assert_eq!(
        Solution::read_from_text(&p, "3\n6\n1\n2\n3\n".as_bytes()).err(),
        Some(SolutionReadError::InvalidTour)
    );
    assert_eq!(
        Solution::read_from_text(&p, "3\n6\n1\n2\n".as_bytes()).err(),
        Some(SolutionReadError::Malformed)
    );
    assert_eq!(
        Solution::read_from_text(&p, "3\nsix\n1\n2\n4\n".as_bytes()).err(),
        Some(SolutionReadError::Malformed)
    );
}

#[test]
fn tour_check_matches_cluster_rule() {
    let p = small_instance();
    assert!(p.is_tour(&[0, 1, 3]));
    assert!(p.is_tour(&[3, 2, 0]));
    assert!(!p.is_tour(&[0, 1, 2]));
    assert!(!p.is_tour(&[0, 1]));
    assert!(!p.is_tour(&[0, 1, 4]));
}

#[test]
fn two_opt_small_asymmetric_example() {
    let d = vec![
        vec![0, 1, 2, 3],
        vec![4, 0, 5, 6],
        vec![7, 8, 0, 9],
        vec![10, 11, 12, 0],
    ];
    let p = GtspProblem::new(4, vec![vec![0], vec![1], vec![2], vec![3]], false, false, d).unwrap();
    let s = Solution::new(&p, vec![0, 1, 2, 3]);
    let moves = <TwoOptNeighborhood as MoveNeighborhood>::moves(&p, &s);
    assert_eq!(moves.len(), 2);
    let tours: Vec<Vec<usize>> = moves.iter().map(|m| m.into_solution(&p, &s).tour().to_vec()).collect();
    assert_eq!(tours, vec![vec![0, 2, 1, 3], vec![0, 1, 3, 2]]);
    for m in &moves {
        assert_eq!(m.into_solution(&p, &s).weight(), 26);
        assert_eq!(m.score_increase(&p, &s), -1);
        assert!(!m.is_improving(&p, &s));
    }
}

#[test]
fn two_opt_move_count() {
    for n in 1..8usize {
        let d = vec![vec![1i64; n]; n];
        let p = GtspProblem::new(n, (0..n).map(|v| vec![v]).collect(), true, true, d).unwrap();
        let s = Solution::new(&p, (0..n).collect());
        let expected = if n >= 3 { n * (n - 3) / 2 } else { 0 };
        assert_eq!(<TwoOptNeighborhood as MoveNeighborhood>::moves(&p, &s).len(), expected);
    }
}

#[test]
fn multistart_with_no_iterations_makes_one_run() {
    let p = asymmetric_instance();
    let factory = ImproveInitial::new(RandomTour, ClusterOptimization);
    let mut rng = SmallRng::seed_from_u64(5);
    let once = factory.run(&p, &mut rng);
    let mut rng = SmallRng::seed_from_u64(5);
    let r = Multistart::new(Termination::after_iterations(0), factory).run(&p, &mut rng);
    assert!(r == once);
}

#[test]
fn cycle_with_spent_policy_returns_input() {
    let p = asymmetric_instance();
    let s = Solution::new(&p, vec![0, 1, 2, 3, 8]);
    let mut cycle = Cycle::new(vec![ExploreOnce(InsertsNeighborhood)], Termination::after_iterations(0));
    assert!(cycle.improve(&p, s.clone()) == s);
}

#[test]
fn local_search_single_step_takes_steepest_move() {
    let p = asymmetric_instance();
    let s = Solution::new(&p, vec![0, 1, 2, 3, 8]);
    let r = LocalSearch::<SwapNeighborhood>::new(Termination::after_iterations(1)).improve(&p, s.clone());
    let best = <SwapNeighborhood as Neighborhood>::neighbors(&p, &s).iter().map(|n| n.weight()).min().unwrap();
    if best < s.weight() {
        assert_eq!(r.weight(), best);
    } else {
        assert!(r == s);
    }
}
