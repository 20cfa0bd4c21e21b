use orienteering::graph::Graph;
use orienteering::harmony_memory::HarmonyMemory;
use orienteering::solution::Solution;

fn solution_with_score(score: u64) -> Solution {
    Solution { path: vec![0, 1], score, cost: 0 }
}

fn scores(hm: &HarmonyMemory) -> Vec<u64> {
    hm.iter().iter().map(|s| s.score).collect()
}

/// Capacity 2; inserting scores 5, then 3, then 8 gives [5], [3, 5],
/// then [5, 8] (8 evicts the minimum 3); a fourth insert with score 1 is
/// discarded.
#[test]
fn insert_keeps_capacity_and_order() {
    let mut hm = HarmonyMemory::new(2);
    hm.insert(solution_with_score(5));
    assert_eq!(scores(&hm), vec![5]);
    hm.insert(solution_with_score(3));
    assert_eq!(scores(&hm), vec![3, 5]);
    hm.insert(solution_with_score(8));
    assert_eq!(scores(&hm), vec![5, 8]);
    hm.insert(solution_with_score(1));
    assert_eq!(scores(&hm), vec![5, 8]);
}

/// The memory never exceeds its capacity and its order is always
/// non-decreasing by score, whatever is inserted.
#[test]
fn memory_is_bounded_and_sorted() {
    let mut hm = HarmonyMemory::new(4);
    let inserted = [9u64, 2, 7, 7, 1, 12, 3, 10, 8, 11, 4];
    for sc in inserted {
        hm.insert(solution_with_score(sc));
        let s = scores(&hm);
        assert!(s.len() <= 4);
        for w in s.windows(2) {
            assert!(w[0] <= w[1]);
        }
    }
    assert_eq!(scores(&hm), vec![9, 10, 11, 12]);
}

fn six_graph() -> Graph {
    // Complete graph on 6 vertices: cost |a - b| * 10, every prize 1..=6.
    let n = 6usize;
    let prizes: Vec<u32> = (1..=6).collect();
    let costs: Vec<Vec<u32>> = (0..n)
        .map(|a| (0..n).map(|b| (a as i64 - b as i64).unsigned_abs() as u32 * 10).collect())
        .collect();
    Graph::new(prizes, costs).unwrap()
}

/// The only stored path showing vertex 2 followed by an available vertex
/// offers follower 4, so `choose_next` must return 4 every time.
#[test]
fn choose_next_single_follower_is_deterministic() {
    let g = six_graph();
    let stored = Solution::evaluate(vec![0, 2, 4, 1], &g);
    let mut hm = HarmonyMemory::new(3);
    hm.insert(stored);
    let available = vec![4, 5];
    for _ in 0..25 {
        assert_eq!(hm.choose_next(2, &available, &g), 4);
    }
}

/// Without any stored follower the choice falls back to the available
/// vertices themselves.
#[test]
fn choose_next_falls_back_to_available() {
    let g = six_graph();
    let stored = Solution::evaluate(vec![0, 1], &g);
    let mut hm = HarmonyMemory::new(3);
    hm.insert(stored);
    let available = vec![3, 4];
    for _ in 0..25 {
        let c = hm.choose_next(2, &available, &g);
        assert!(c == 3 || c == 4);
    }
}

#[test]
fn generate_fills_memory_with_feasible_paths() {
    let g = six_graph();
    let budget = 120;
    let hm = HarmonyMemory::generate(&g, 5, 0, 5, budget).unwrap();
    let entries = hm.iter();
    assert_eq!(entries.len(), 5);
    for w in entries.windows(2) {
        assert!(w[0].score <= w[1].score);
    }
    for s in entries.iter() {
        assert!(s.cost <= budget);
        assert_eq!(s.path.first(), Some(&0));
        assert_eq!(s.path.last(), Some(&5));
        let recomputed = Solution::evaluate(s.path.clone(), &g);
        assert_eq!(recomputed.score, s.score);
        assert_eq!(recomputed.cost, s.cost);
    }
}

#[test]
fn generate_fails_when_direct_edge_exceeds_budget() {
    let g = six_graph();
    // 0 to 5 costs 50; a budget of 49 leaves no feasible path at all.
    assert!(HarmonyMemory::generate(&g, 5, 0, 5, 49).is_none());
}

#[test]
fn into_best_returns_the_maximum_score() {
    let g = six_graph();
    let hm = HarmonyMemory::generate(&g, 4, 0, 5, 200).unwrap();
    let best_score = hm.iter().iter().map(|s| s.score).max().unwrap();
    let best = hm.into_best().unwrap();
    assert_eq!(best.score, best_score);
}
