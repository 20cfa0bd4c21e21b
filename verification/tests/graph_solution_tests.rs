use orienteering::graph::Graph;
use orienteering::graph::GraphError;
use orienteering::solution::Solution;

fn square(costs: &[&[u32]]) -> Vec<Vec<u32>> {
    costs.iter().map(|row| row.to_vec()).collect()
}

/// A 4-vertex path-shaped complete graph: consecutive edges cost 10, all
/// cross edges cost 20.
fn path_graph() -> Graph {
    let prizes = vec![0, 100, 100, 0];
    let costs = square(&[
        &[0, 10, 20, 20],
        &[10, 0, 10, 20],
        &[20, 10, 0, 10],
        &[20, 20, 10, 0],
    ]);
    Graph::new(prizes, costs).unwrap()
}

#[test]
fn graph_new_accepts_symmetric_square() {
    let g = path_graph();
    assert_eq!(g.vertex_count(), 4);
    assert_eq!(g.prize_of(1), 100);
    assert_eq!(g.cost_between(0, 1), 10);
    assert_eq!(g.cost_between(1, 0), 10);
    assert_eq!(g.cost_between(0, 3), 20);
}

#[test]
fn graph_new_rejects_non_square() {
    let prizes = vec![1, 2];
    let costs = vec![vec![0, 1]];
    assert_eq!(Graph::new(prizes, costs).unwrap_err(), GraphError::NotSquare);
    let prizes = vec![1, 2];
    let costs = vec![vec![0, 1], vec![1, 0, 5]];
    assert_eq!(Graph::new(prizes, costs).unwrap_err(), GraphError::NotSquare);
}

#[test]
fn graph_new_rejects_asymmetry() {
    let prizes = vec![1, 2];
    let costs = vec![vec![0, 1], vec![2, 0]];
    assert_eq!(
        Graph::new(prizes, costs).unwrap_err(),
        GraphError::Asymmetric { a: 0, b: 1 }
    );
}

#[test]
fn graph_new_rejects_self_loop() {
    let prizes = vec![1, 2];
    let costs = vec![vec![3, 1], vec![1, 0]];
    assert_eq!(Graph::new(prizes, costs).unwrap_err(), GraphError::SelfLoop { v: 0 });
}

#[test]
fn graph_new_rejects_too_many_vertices() {
    let prizes = vec![0u32; 65537];
    let costs: Vec<Vec<u32>> = Vec::new();
    assert_eq!(Graph::new(prizes, costs).unwrap_err(), GraphError::TooLarge);
}

#[test]
fn evaluate_sums_prizes_and_edge_costs() {
    let g = path_graph();
    let s = Solution::evaluate(vec![0, 1, 2, 3], &g);
    assert_eq!(s.path, vec![0, 1, 2, 3]);
    assert_eq!(s.score, 200);
    assert_eq!(s.cost, 30);
    let t = Solution::evaluate(vec![0, 2, 3], &g);
    assert_eq!(t.score, 100);
    assert_eq!(t.cost, 30);
}

#[test]
fn evaluate_short_paths() {
    let g = path_graph();
    let s = Solution::evaluate(vec![2], &g);
    assert_eq!(s.score, 100);
    assert_eq!(s.cost, 0);
    let e = Solution::evaluate(vec![], &g);
    assert_eq!(e.score, 0);
    assert_eq!(e.cost, 0);
}
