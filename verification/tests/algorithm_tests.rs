use orienteering::algo::AlgoChain;
use orienteering::algo::OrienteeringAlgo;
use orienteering::algo::OrienteeringAlgoAdapter;
use orienteering::graph::Graph;
use orienteering::ri_algorithm::augment_path;
use orienteering::ri_algorithm::reorder;
use orienteering::ri_algorithm::RIAlgorithm;
use orienteering::ri_algorithm::to_reordered_positions;
use orienteering::s_algorithm::SAlgorithm;
use orienteering::sampling::desirability_weight;
use orienteering::solution::Solution;
use orienteering::szwarc_boryczka::SzwarcBoryczka;
use orienteering::szwarc_boryczka::SzwarcBoryczkaError;
use orienteering::RATE_SCALE;

fn square(costs: &[&[u32]]) -> Vec<Vec<u32>> {
    costs.iter().map(|row| row.to_vec()).collect()
}

/// The tight-budget scenario graph: path shape s(0) - v1(1) - v2(2) -
/// e(3), consecutive edges cost 10, cross edges cost 20, prizes
/// 0/100/100/0.
fn tight_graph() -> Graph {
    let prizes = vec![0, 100, 100, 0];
    let costs = square(&[
        &[0, 10, 20, 20],
        &[10, 0, 10, 20],
        &[20, 10, 0, 10],
        &[20, 20, 10, 0],
    ]);
    Graph::new(prizes, costs).unwrap()
}

/// Complete graph on `n` vertices with cost `|a-b| * 10` and prizes
/// `1..=n`.
fn line_graph(n: usize) -> Graph {
    let prizes: Vec<u32> = (1..=n as u32).collect();
    let costs: Vec<Vec<u32>> = (0..n)
        .map(|a| (0..n).map(|b| (a as i64 - b as i64).unsigned_abs() as u32 * 10).collect())
        .collect();
    Graph::new(prizes, costs).unwrap()
}

#[test]
fn to_reordered_positions_maps_swap_and_reverse() {
    assert_eq!(to_reordered_positions(1, 1, 3), (3, 3));
    assert_eq!(to_reordered_positions(3, 1, 3), (1, 1));
    assert_eq!(to_reordered_positions(2, 1, 3), (2, 2));
    assert_eq!(to_reordered_positions(2, 1, 4), (2, 3));
    assert_eq!(to_reordered_positions(0, 1, 3), (0, 0));
    assert_eq!(to_reordered_positions(5, 1, 3), (5, 5));
}

#[test]
fn desirability_weight_exact_values() {
    // ratio 2 at scale 1000, power 1
    assert_eq!(desirability_weight(2, 1, 1), 2000);
    // a zero prize can never be drawn with a positive power
    assert_eq!(desirability_weight(0, 5, 3), 0);
    // power zero makes every vertex equally desirable
    assert_eq!(desirability_weight(0, 5, 0), 1);
    assert_eq!(desirability_weight(7, 2, 0), 1);
    // small positive ratios round up to stay drawable
    assert_eq!(desirability_weight(1, 5000, 1), 1);
}

/// With `num_considered = 1` the construction heuristic is deterministic:
/// repeated runs return the identical path.
#[test]
fn s_algorithm_top_one_is_deterministic() {
    let g = line_graph(7);
    let algo = SAlgorithm::new(3, 1);
    let first = algo.build_path(&g, 0, 6, 200).unwrap();
    for _ in 0..20 {
        let again = algo.build_path(&g, 0, 6, 200).unwrap();
        assert_eq!(again.path, first.path);
        assert_eq!(again.score, first.score);
        assert_eq!(again.cost, first.cost);
    }
}

/// Tight-budget boundary: with budget 20 any returned solution is
/// feasible, and a solution collecting both prizes must cost exactly 20.
#[test]
fn s_algorithm_tight_budget_scenario() {
    let g = tight_graph();
    for k in [1usize, 2, 3] {
        let algo = SAlgorithm::new(2, k);
        for _ in 0..30 {
            let s = algo.build_path(&g, 0, 3, 20).unwrap();
            assert!(s.cost <= 20);
            assert_eq!(s.path.first(), Some(&0));
            assert_eq!(s.path.last(), Some(&3));
            if s.score == 200 {
                assert_eq!(s.cost, 20);
            }
        }
    }
}

/// Every solution any construction or search algorithm returns stays
/// within the budget.
#[test]
fn returned_solutions_never_violate_the_budget() {
    for n in [4usize, 5, 6] {
        let g = line_graph(n);
        for budget in [0u64, 15, 30, 55, 90, 1000] {
            let algo = SAlgorithm::new(1, 2);
            if let Some(s) = algo.build_path(&g, 0, n - 1, budget) {
                assert!(s.cost <= budget);
                let recomputed = Solution::evaluate(s.path.clone(), &g);
                assert_eq!(recomputed.cost, s.cost);
                assert_eq!(recomputed.score, s.score);
            }
            let search = SzwarcBoryczka::new(3, 900_000, 300_000, 20).unwrap();
            if let Some(s) = search.search(&g, 0, n - 1, budget) {
                assert!(s.cost <= budget);
            }
        }
    }
}

#[test]
fn harmony_search_parameters_are_validated() {
    assert!(SzwarcBoryczka::new(50, 970_000, 0, 1000).is_ok());
    assert_eq!(
        SzwarcBoryczka::new(0, 0, 0, 10).unwrap_err(),
        SzwarcBoryczkaError::ZeroHarmonyMemorySize
    );
    assert_eq!(
        SzwarcBoryczka::new(5, RATE_SCALE + 1, 0, 10).unwrap_err(),
        SzwarcBoryczkaError::InvalidPercentage { value: RATE_SCALE + 1, name: "hmcr" }
    );
    assert_eq!(
        SzwarcBoryczka::new(5, 500_000, RATE_SCALE + 7, 10).unwrap_err(),
        SzwarcBoryczkaError::InvalidPercentage { value: RATE_SCALE + 7, name: "par" }
    );
}

#[test]
fn harmony_search_finds_feasible_paths() {
    let g = line_graph(6);
    let search = SzwarcBoryczka::new(4, 950_000, 200_000, 40).unwrap();
    let s = search.search(&g, 0, 5, 140).unwrap();
    assert!(s.cost <= 140);
    assert_eq!(s.path.first(), Some(&0));
    assert_eq!(s.path.last(), Some(&5));
    let recomputed = Solution::evaluate(s.path.clone(), &g);
    assert_eq!(recomputed.score, s.score);
    assert_eq!(recomputed.cost, s.cost);
    // When even the direct closing edge exceeds the budget there is no path.
    assert!(search.search(&g, 0, 5, 49).is_none());
}

/// The improver never returns a lower score than its input and never
/// breaks the budget.
#[test]
fn improver_never_regresses() {
    let g = line_graph(6);
    // A deliberately poor ordering: detours back and forth.
    let poor = Solution::evaluate(vec![0, 3, 1, 4, 5], &g);
    let budget = 250;
    assert!(poor.cost <= budget);
    let improver = RIAlgorithm;
    let better = improver.improve(&g, poor.clone(), budget);
    assert!(better.score >= poor.score);
    assert!(better.cost <= budget);
    assert_eq!(better.path.first(), Some(&0));
    assert_eq!(better.path.last(), Some(&5));
    let recomputed = Solution::evaluate(better.path.clone(), &g);
    assert_eq!(recomputed.score, better.score);
    assert_eq!(recomputed.cost, better.cost);
}

/// The reordering operator alone lowers the cost of a crossing path.
#[test]
fn improver_straightens_a_crossing_path() {
    let g = line_graph(5);
    // 0 -> 3 -> 2 -> 1 -> 4 costs 30+10+10+30; the straight path costs 40.
    let poor = Solution::evaluate(vec![0, 3, 2, 1, 4], &g);
    assert_eq!(poor.cost, 80);
    let improver = RIAlgorithm;
    let better = improver.improve(&g, poor, 80);
    assert_eq!(better.cost, 40);
    assert_eq!(better.path, vec![0, 1, 2, 3, 4]);
}

#[test]
fn chain_applies_search_then_improvement() {
    let g = line_graph(6);
    let budget = 160;
    let mut chained: AlgoChain<SAlgorithm, RIAlgorithm> =
        SAlgorithm::new(1, 2).chain(RIAlgorithm);
    for _ in 0..10 {
        if let Some(s) = chained.generate_path(&g, 0, 5, budget) {
            assert!(s.cost <= budget);
            assert_eq!(s.path.first(), Some(&0));
            assert_eq!(s.path.last(), Some(&5));
        }
    }
}

#[test]
fn adapter_trait_matches_inherent_improvement() {
    let g = line_graph(5);
    let poor = Solution::evaluate(vec![0, 2, 1, 3, 4], &g);
    let budget = poor.cost;
    let mut improver = RIAlgorithm;
    let adapted = improver.adapt_path(&g, poor.clone(), budget);
    assert!(adapted.score >= poor.score);
    assert!(adapted.cost <= budget);
}

/// The construction heuristic reports "no feasible path" exactly when
/// even the direct closing edge exceeds the budget.
#[test]
fn s_algorithm_gives_up_only_when_nothing_fits() {
    let g = line_graph(6);
    let algo = SAlgorithm::new(1, 1);
    assert!(algo.build_path(&g, 0, 5, 49).is_none());
    assert!(algo.build_path(&g, 0, 5, 50).is_some());
}

/// The reordering pass never raises the cost and keeps the score; the
/// augmentation pass never lowers the score and keeps the budget.
#[test]
fn operators_respect_their_bounds() {
    let g = line_graph(6);
    let mut sol = Solution::evaluate(vec![0, 4, 2, 5], &g);
    let before = sol.clone();
    reorder(&mut sol, &g);
    assert!(sol.cost <= before.cost);
    assert_eq!(sol.score, before.score);
    let budget = 200;
    assert!(sol.cost <= budget);
    let mid = sol.clone();
    augment_path(&mut sol, &g, budget);
    assert!(sol.score >= mid.score);
    assert!(sol.cost <= budget);
}

/// Budget compliance on pseudo-random small complete graphs.
#[test]
fn budget_holds_on_generated_graphs() {
    let mut state: u64 = 0x243F6A8885A308D3;
    let mut next = move || {
        state = state.wrapping_mul(6364136223846793005).wrapping_add(1442695040888963407);
        (state >> 33) as u32
    };
    for _ in 0..8 {
        let n = 4 + (next() % 4) as usize;
        let prizes: Vec<u32> = (0..n).map(|_| 1 + next() % 50).collect();
        let mut costs = vec![vec![0u32; n]; n];
        for a in 0..n {
            for b in 0..a {
                let w = next() % 100;
                costs[a][b] = w;
                costs[b][a] = w;
            }
        }
        let g = Graph::new(prizes, costs).unwrap();
        for budget in [0u64, 10, 60, 200, 1000] {
            let algo = SAlgorithm::new(2, 2);
            if let Some(s) = algo.build_path(&g, 0, n - 1, budget) {
                assert!(s.cost <= budget);
                let r = Solution::evaluate(s.path.clone(), &g);
                assert_eq!((r.score, r.cost), (s.score, s.cost));
            }
            let search = SzwarcBoryczka::new(2, 800_000, 400_000, 12).unwrap();
            if let Some(s) = search.search(&g, 0, n - 1, budget) {
                assert!(s.cost <= budget);
            }
        }
    }
}

/// The passes make progress exactly when progress is possible, and the
/// augmentation tie at equal incremental cost goes to the higher prize.
#[test]
fn operators_progress_exactly_when_possible() {
    let g = line_graph(5);
    // A crossing path admits an improving reversal: the cost must drop.
    let mut crossing = Solution::evaluate(vec![0, 3, 2, 1, 4], &g);
    let before = crossing.cost;
    reorder(&mut crossing, &g);
    assert!(crossing.cost < before);
    // The straight path admits no improvement: it comes back unchanged.
    let mut straight = Solution::evaluate(vec![0, 1, 2, 3, 4], &g);
    reorder(&mut straight, &g);
    assert_eq!(straight.path, vec![0, 1, 2, 3, 4]);
    assert_eq!(straight.cost, 40);
    // All of 1, 2, 3 insert into [0, 4] at the same incremental cost 0;
    // the tie goes to vertex 3, which carries the highest prize.
    let mut short = Solution::evaluate(vec![0, 4], &g);
    augment_path(&mut short, &g, 200);
    assert_eq!(short.path, vec![0, 3, 4]);
    // Below the cheapest insertion total the pass is a no-op.
    let mut tight = Solution::evaluate(vec![0, 4], &g);
    augment_path(&mut tight, &g, 39);
    assert_eq!(tight.path, vec![0, 4]);
}
