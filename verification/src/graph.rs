use vstd::prelude::*;

verus! {

/// Largest vertex count a graph may have. Keeping the count bounded lets
/// every sum of vertex prizes or edge costs along a simple path fit in a
/// `u64` without further checks.
pub const MAX_VERTICES: usize = 65536;

/// Why a prize/cost table was rejected as a complete graph.
#[derive(Clone, Copy, Debug, PartialEq, Eq)]
pub enum GraphError {
    /// More vertices than `MAX_VERTICES`.
    TooLarge,
    /// The cost table is not an `n` by `n` matrix for `n` vertices.
    NotSquare,
    /// A vertex has a nonzero cost to itself.
    SelfLoop { v: usize },
    /// The costs of the two directions of an edge differ.
    Asymmetric { a: usize, b: usize },
}

/// A complete, undirected, weighted graph: vertex `v` carries the
/// non-negative prize `prizes[v]`, and the unordered pair `{a, b}` carries
/// the travel cost `costs[a][b] == costs[b][a]`. Built once, then read-only.
#[derive(Debug)]
pub struct Graph {
    prizes: Vec<u32>,
    costs: Vec<Vec<u32>>,
}

impl Graph {
    /// Number of vertices.
    pub closed spec fn n(&self) -> int {
        self.prizes@.len() as int
    }

    /// Prize of vertex `v`.
    pub closed spec fn prize(&self, v: int) -> u32 {
        self.prizes@[v]
    }

    /// Travel cost of the edge between `a` and `b`.
    pub closed spec fn cost(&self, a: int, b: int) -> u32 {
        self.costs@[a]@[b]
    }

    /// The cost table is a square `n` by `n` matrix.
    pub closed spec fn square(&self) -> bool {
        &&& self.costs@.len() == self.n()
        &&& forall|a: int| 0 <= a < self.n() ==> (#[trigger] self.costs@[a])@.len() == self.n()
    }

    /// The shape every algorithm relies on: a square symmetric cost table
    /// with a zero diagonal, over at most `MAX_VERTICES` vertices.
    pub open spec fn wf(&self) -> bool {
        &&& self.n() <= MAX_VERTICES
        &&& self.square()
        &&& forall|a: int, b: int|
            0 <= a < self.n() && 0 <= b < self.n() ==> #[trigger] self.cost(a, b) == self.cost(
                b,
                a,
            )
        &&& forall|a: int| 0 <= a < self.n() ==> #[trigger] self.cost(a, a) == 0
    }

    pub fn vertex_count(&self) -> (r: usize)
        ensures
            r == self.n(),
    {
        self.prizes.len()
    }

    pub fn prize_of(&self, v: usize) -> (r: u32)
        requires
            v < self.n(),
        ensures
            r == self.prize(v as int),
    {
        self.prizes[v]
    }

    pub fn cost_between(&self, a: usize, b: usize) -> (r: u32)
        requires
            self.wf(),
            a < self.n(),
            b < self.n(),
        ensures
            r == self.cost(a as int, b as int),
    {
        self.costs[a][b]
    }

    /// Validates completeness once, up front: the cost table must be square,
    /// symmetric and zero on the diagonal. Afterwards every edge lookup is
    /// known to succeed, so no search loop can stumble over a missing edge.
    pub fn new(prizes: Vec<u32>, costs: Vec<Vec<u32>>) -> (r: Result<Graph, GraphError>)
        ensures
            match r {
                Ok(g) => {
                    &&& g.wf()
                    &&& g.n() == prizes@.len()
                    &&& forall|v: int| 0 <= v < g.n() ==> #[trigger] g.prize(v) == prizes@[v]
                    &&& forall|a: int, b: int|
                        0 <= a < g.n() && 0 <= b < g.n() ==> #[trigger] g.cost(a, b)
                            == costs@[a]@[b]
                },
                Err(GraphError::TooLarge) => prizes@.len() > MAX_VERTICES,
                Err(GraphError::NotSquare) => {
                    &&& prizes@.len() <= MAX_VERTICES
                    &&& (costs@.len() != prizes@.len() || exists|a: int|
                        0 <= a < costs@.len() && (#[trigger] costs@[a])@.len() != prizes@.len())
                },
                Err(GraphError::SelfLoop { v }) => {
                    &&& 0 <= v < prizes@.len()
                    &&& costs@[v as int]@[v as int] != 0
                },
                Err(GraphError::Asymmetric { a, b }) => {
                    &&& 0 <= a < prizes@.len()
                    &&& 0 <= b < prizes@.len()
                    &&& costs@[a as int]@[b as int] != costs@[b as int]@[a as int]
                },
            },
    {
        let n = prizes.len();
        if n > MAX_VERTICES {
            return Err(GraphError::TooLarge);
        }
        if costs.len() != n {
            return Err(GraphError::NotSquare);
        }
        let mut a: usize = 0;
        while a < n
            invariant
                n == prizes@.len() <= MAX_VERTICES,
                costs@.len() == n,
                a <= n,
                forall|i: int| 0 <= i < a ==> (#[trigger] costs@[i])@.len() == n,
            decreases n - a,
        {
            if costs[a].len() != n {
                return Err(GraphError::NotSquare);
            }
            a += 1;
        }
        let mut a: usize = 0;
        while a < n
            invariant
                n == prizes@.len() <= MAX_VERTICES,
                costs@.len() == n,
                a <= n,
                forall|i: int| 0 <= i < n ==> (#[trigger] costs@[i])@.len() == n,
                forall|i: int| 0 <= i < a ==> #[trigger] costs@[i]@[i] == 0,
                forall|i: int, j: int|
                    0 <= i < a && 0 <= j < n ==> #[trigger] costs@[i]@[j] == costs@[j]@[i],
            decreases n - a,
        {
            if costs[a][a] != 0 {
                return Err(GraphError::SelfLoop { v: a });
            }
            let mut b: usize = 0;
            while b < n
                invariant
                    n == prizes@.len() <= MAX_VERTICES,
                    costs@.len() == n,
                    a < n,
                    b <= n,
                    forall|i: int| 0 <= i < n ==> (#[trigger] costs@[i])@.len() == n,
                    forall|j: int|
                        0 <= j < b ==> #[trigger] costs@[a as int]@[j] == costs@[j]@[a as int],
                decreases n - b,
            {
                if costs[a][b] != costs[b][a] {
                    return Err(GraphError::Asymmetric { a, b });
                }
                b += 1;
            }
            a += 1;
        }
        let g = Graph { prizes, costs };
        Ok(g)
    }
}

} // verus!
