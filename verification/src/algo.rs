use vstd::prelude::*;

use crate::graph::Graph;
use crate::ri_algorithm::RIAlgorithm;
use crate::s_algorithm::SAlgorithm;
use crate::s_algorithm::s_algorithm_spec;
use crate::solution::Solution;
use crate::szwarc_boryczka::SzwarcBoryczka;

verus! {

/// The common search contract: every heuristic produces an optional
/// solution, and whatever it returns respects the budget and connects the
/// requested endpoints.
pub trait OrienteeringAlgo: Sized {
    /// The inputs this heuristic is prepared to work on.
    spec fn accepts(&self, graph: &Graph, start: usize, end: usize, budget: u64) -> bool;

    /// Produces a path from `start` to `end` with cost at most `budget`,
    /// or nothing when this algorithm's method finds none: absence is a
    /// normal outcome, not an error. Randomized algorithms may return
    /// different solutions on repeated calls.
    fn generate_path(&mut self, graph: &Graph, start: usize, end: usize, budget: u64) -> (r:
        Option<Solution>)
        requires
            graph.wf(),
            start < graph.n(),
            end < graph.n(),
            start != end,
            self.accepts(graph, start, end, budget),
        ensures
            r matches Some(s) ==> s.valid(graph) && s.connects(start, end) && s.cost <= budget,
    ;

    /// Composes this heuristic with an improvement pass.
    fn chain<Ada: OrienteeringAlgoAdapter>(self, ada: Ada) -> (r: AlgoChain<Self, Ada>)
        ensures
            r.algo == self,
            r.ada == ada,
    {
        AlgoChain { algo: self, ada }
    }
}

/// The common improvement contract: never regress the score, never break
/// the budget, keep the endpoints, and keep every vertex of the input
/// path.
pub trait OrienteeringAlgoAdapter: Sized {
    fn adapt_path(&mut self, graph: &Graph, solution: Solution, budget: u64) -> (r: Solution)
        requires
            graph.wf(),
            solution.valid(graph),
            solution.cost <= budget,
        ensures
            r.valid(graph),
            r.cost <= budget,
            r.score >= solution.score,
            r.path@.len() >= solution.path@.len(),
            r.path@[0] == solution.path@[0],
            r.path@.last() == solution.path@.last(),
            forall|x: usize| solution.path@.contains(x) ==> r.path@.contains(x),
    ;
}

/// A search algorithm followed by an improvement pass: generates a
/// solution and, if one was found, adapts it.
pub struct AlgoChain<F: OrienteeringAlgo, S: OrienteeringAlgoAdapter> {
    pub algo: F,
    pub ada: S,
}

impl<F: OrienteeringAlgo, S: OrienteeringAlgoAdapter> OrienteeringAlgo for AlgoChain<F, S> {
    open spec fn accepts(&self, graph: &Graph, start: usize, end: usize, budget: u64) -> bool {
        self.algo.accepts(graph, start, end, budget)
    }

    fn generate_path(&mut self, graph: &Graph, start: usize, end: usize, budget: u64) -> (r:
        Option<Solution>) {
        match self.algo.generate_path(graph, start, end, budget) {
            Some(sol) => Some(self.ada.adapt_path(graph, sol, budget)),
            None => None,
        }
    }
}

impl OrienteeringAlgo for SAlgorithm {
    /// A positive greediness exponent needs prize-carrying interior
    /// vertices, so that the weighted draw always has a positive weight.
    open spec fn accepts(&self, graph: &Graph, start: usize, end: usize, budget: u64) -> bool {
        self.power() == 0 || forall|v: usize|
            v < graph.n() && v != start && v != end ==> graph.prize(v as int) >= 1
    }

    fn generate_path(&mut self, graph: &Graph, start: usize, end: usize, budget: u64) -> (r:
        Option<Solution>) {
        self.build_path(graph, start, end, budget)
    }
}

impl OrienteeringAlgo for SzwarcBoryczka {
    /// Needs a validated configuration and prize-carrying interior
    /// vertices, so that every weighted draw has a positive weight.
    open spec fn accepts(&self, graph: &Graph, start: usize, end: usize, budget: u64) -> bool {
        &&& self.wf()
        &&& forall|v: usize|
            v < graph.n() && v != start && v != end ==> graph.prize(v as int) >= 1
    }

    fn generate_path(&mut self, graph: &Graph, start: usize, end: usize, budget: u64) -> (r:
        Option<Solution>) {
        self.search(graph, start, end, budget)
    }
}

impl OrienteeringAlgoAdapter for RIAlgorithm {
    fn adapt_path(&mut self, graph: &Graph, solution: Solution, budget: u64) -> (r: Solution) {
        self.improve(graph, solution, budget)
    }
}

/// With a shortlist of one, the construction heuristic is deterministic:
/// any two results obtained for the same graph, endpoints and budget are
/// the same solution, because each equals `s_algorithm_spec`.
pub proof fn lemma_s_algorithm_deterministic(
    g: &Graph,
    power: u32,
    start: usize,
    end: usize,
    budget: u64,
    r1: Option<Solution>,
    r2: Option<Solution>,
)
    requires
        match r1 {
            Some(s) => s.valid(g) && Some(s.path@) == s_algorithm_spec(g, power, start, end, budget),
            None => s_algorithm_spec(g, power, start, end, budget) is None,
        },
        match r2 {
            Some(s) => s.valid(g) && Some(s.path@) == s_algorithm_spec(g, power, start, end, budget),
            None => s_algorithm_spec(g, power, start, end, budget) is None,
        },
    ensures
        match (r1, r2) {
            (Some(s1), Some(s2)) => s1.path@ == s2.path@ && s1.score == s2.score && s1.cost
                == s2.cost,
            (None, None) => true,
            _ => false,
        },
{
}

} // verus!
