use vstd::prelude::*;

use crate::graph::Graph;

verus! {

/// Every vertex of the path is a vertex of `g`.
pub open spec fn path_in_range(g: &Graph, p: Seq<usize>) -> bool {
    forall|i: int| 0 <= i < p.len() ==> (#[trigger] p[i]) < g.n()
}

/// Sum of the prizes of the vertices of `p`, in order.
pub open spec fn path_score(g: &Graph, p: Seq<usize>) -> int
    decreases p.len(),
{
    if p.len() == 0 {
        0
    } else {
        path_score(g, p.drop_last()) + g.prize(p.last() as int)
    }
}

/// Sum of the costs of the consecutive edges of `p`.
pub open spec fn path_cost(g: &Graph, p: Seq<usize>) -> int
    decreases p.len(),
{
    if p.len() <= 1 {
        0
    } else {
        path_cost(g, p.drop_last()) + g.cost(p[p.len() - 2] as int, p.last() as int)
    }
}

/// A path together with its derived aggregates. The invariant every
/// algorithm keeps is `valid`: `score` and `cost` always equal the values
/// recomputed from `path` against the graph.
#[derive(Debug, Clone, PartialEq)]
pub struct Solution {
    /// Ordered vertex sequence, without duplicates.
    pub path: Vec<usize>,
    /// Sum of the prizes of all vertices of `path`.
    pub score: u64,
    /// Sum of the costs of the consecutive edges of `path`.
    pub cost: u64,
}

impl Solution {
    /// The aggregates agree with the path, the path stays inside the graph
    /// and visits no vertex twice.
    pub open spec fn valid(&self, g: &Graph) -> bool {
        &&& path_in_range(g, self.path@)
        &&& self.path@.no_duplicates()
        &&& self.path@.len() >= 1
        &&& self.path@.len() <= g.n()
        &&& self.score == path_score(g, self.path@)
        &&& self.cost == path_cost(g, self.path@)
    }

    /// The path leads from `start` to `end`.
    pub open spec fn connects(&self, start: usize, end: usize) -> bool {
        &&& self.path@.len() >= 2
        &&& self.path@[0] == start
        &&& self.path@.last() == end
    }

    /// Evaluates a path against the graph: sums the vertex prizes and the
    /// consecutive edge costs. Completeness of `g` guarantees that every
    /// edge lookup succeeds.
    pub fn evaluate(path: Vec<usize>, graph: &Graph) -> (r: Solution)
        requires
            graph.wf(),
            path_in_range(graph, path@),
            path@.len() <= graph.n(),
        ensures
            r.path@ == path@,
            r.score == path_score(graph, path@),
            r.cost == path_cost(graph, path@),
    {
        let n = path.len();
        let mut score: u64 = 0;
        let mut cost: u64 = 0;
        let mut i: usize = 0;
        while i < n
            invariant
                graph.wf(),
                path_in_range(graph, path@),
                n == path@.len() <= graph.n() <= crate::graph::MAX_VERTICES,
                i <= n,
                score == path_score(graph, path@.take(i as int)),
                cost == path_cost(graph, path@.take(i as int)),
                score <= i * (u32::MAX as int),
                cost <= i * (u32::MAX as int),
            decreases n - i,
        {
            proof {
                assert(path@.take(i + 1).drop_last() =~= path@.take(i as int));
                assert(path@.take(i + 1).last() == path@[i as int]);
            }
            score = score + graph.prize_of(path[i]) as u64;
            if i > 0 {
                proof {
                    assert(path@.take(i + 1)[i - 1] == path@[i - 1]);
                }
                cost = cost + graph.cost_between(path[i - 1], path[i]) as u64;
            }
            i += 1;
        }
        proof {
            assert(path@.take(n as int) =~= path@);
        }
        Solution { path, score, cost }
    }
}

/// Linear scan for a vertex in a list.
pub fn vec_contains(v: &Vec<usize>, x: usize) -> (r: bool)
    ensures
        r == v@.contains(x),
{
    let n = v.len();
    let mut i: usize = 0;
    while i < n
        invariant
            n == v@.len(),
            i <= n,
            forall|k: int| 0 <= k < i ==> (#[trigger] v@[k]) != x,
        decreases n - i,
    {
        if v[i] == x {
            return true;
        }
        i += 1;
    }
    false
}

/// Scores add up over concatenation.
pub proof fn lemma_score_concat(g: &Graph, a: Seq<usize>, b: Seq<usize>)
    ensures
        path_score(g, a + b) == path_score(g, a) + path_score(g, b),
    decreases b.len(),
{
    if b.len() == 0 {
        assert(a + b =~= a);
    } else {
        lemma_score_concat(g, a, b.drop_last());
        assert((a + b).drop_last() =~= a + b.drop_last());
    }
}

/// Costs add up over concatenation, joined by the edge between the last
/// vertex of `a` and the first vertex of `b`.
pub proof fn lemma_cost_concat(g: &Graph, a: Seq<usize>, b: Seq<usize>)
    requires
        a.len() >= 1,
        b.len() >= 1,
    ensures
        path_cost(g, a + b) == path_cost(g, a) + g.cost(a.last() as int, b[0] as int)
            + path_cost(g, b),
    decreases b.len(),
{
    if b.len() == 1 {
        assert((a + b).drop_last() =~= a);
        assert((a + b).last() == b[0]);
        assert((a + b)[(a + b).len() - 2] == a.last());
    } else {
        lemma_cost_concat(g, a, b.drop_last());
        assert((a + b).drop_last() =~= a + b.drop_last());
        assert((a + b).last() == b.last());
        assert((a + b)[(a + b).len() - 2] == b[b.len() - 2]);
    }
}

/// A score is a sum of non-negative prizes.
pub proof fn lemma_score_nonneg(g: &Graph, p: Seq<usize>)
    ensures
        path_score(g, p) >= 0,
    decreases p.len(),
{
    if p.len() > 0 {
        lemma_score_nonneg(g, p.drop_last());
    }
}

/// A cost is a sum of non-negative edge costs.
pub proof fn lemma_cost_nonneg(g: &Graph, p: Seq<usize>)
    ensures
        path_cost(g, p) >= 0,
    decreases p.len(),
{
    if p.len() > 1 {
        lemma_cost_nonneg(g, p.drop_last());
    }
}

/// A path over at most `MAX_VERTICES` vertices has a score below `2^48`.
pub proof fn lemma_score_bound(g: &Graph, p: Seq<usize>)
    ensures
        path_score(g, p) <= p.len() * (u32::MAX as int),
    decreases p.len(),
{
    if p.len() > 0 {
        lemma_score_bound(g, p.drop_last());
    }
}

/// A path over at most `MAX_VERTICES` vertices has a cost below `2^48`.
pub proof fn lemma_cost_bound(g: &Graph, p: Seq<usize>)
    ensures
        path_cost(g, p) <= p.len() * (u32::MAX as int),
    decreases p.len(),
{
    if p.len() > 1 {
        lemma_cost_bound(g, p.drop_last());
    }
}

/// The score of a one-vertex path is that vertex's prize.
pub proof fn lemma_score_singleton(g: &Graph, v: usize)
    ensures
        path_score(g, seq![v]) == g.prize(v as int),
{
    assert(seq![v].len() == 1);
    assert(seq![v].last() == v);
    assert(seq![v].drop_last() =~= Seq::<usize>::empty());
    assert(path_score(g, Seq::<usize>::empty()) == 0);
}

/// Peeling the first vertex off a path splits its score.
pub proof fn lemma_score_front(g: &Graph, p: Seq<usize>)
    requires
        p.len() >= 1,
    ensures
        path_score(g, p) == g.prize(p[0] as int) + path_score(g, p.drop_first()),
{
    assert(p =~= seq![p[0]] + p.drop_first());
    lemma_score_concat(g, seq![p[0]], p.drop_first());
    lemma_score_singleton(g, p[0]);
}

/// The cost of a path is at least the cost of any one of its edges.
pub proof fn lemma_cost_edge(g: &Graph, p: Seq<usize>, i: int)
    requires
        0 <= i < p.len() - 1,
    ensures
        path_cost(g, p) >= g.cost(p[i] as int, p[i + 1] as int),
{
    let a = p.take(i + 1);
    let b = p.skip(i + 1);
    assert(p =~= a + b);
    lemma_cost_concat(g, a, b);
    lemma_cost_nonneg(g, a);
    lemma_cost_nonneg(g, b);
    assert(a.last() == p[i]);
    assert(b[0] == p[i + 1]);
}

/// A duplicate-free sequence of vertices below `n` has at most `n`
/// entries.
pub proof fn lemma_nodup_len_bound(p: Seq<usize>, n: int)
    requires
        p.no_duplicates(),
        forall|k: int| 0 <= k < p.len() ==> (#[trigger] p[k]) < n,
        n >= 0,
    ensures
        p.len() <= n,
    decreases n,
{
    if n == 0 {
        if p.len() > 0 {
            assert(p[0] < 0);
        }
    } else {
        let top = (n - 1) as usize;
        if p.contains(top) {
            let idx = choose|idx: int| 0 <= idx < p.len() && p[idx] == top;
            let q = p.remove(idx);
            assert forall|x: int, y: int| 0 <= x < y < q.len() implies q[x] != q[y] by {
                if y < idx {
                    assert(q[x] == p[x] && q[y] == p[y]);
                } else if x >= idx {
                    assert(q[x] == p[x + 1] && q[y] == p[y + 1]);
                } else {
                    assert(q[x] == p[x] && q[y] == p[y + 1]);
                }
            }
            assert forall|k: int| 0 <= k < q.len() implies (#[trigger] q[k]) < n - 1 by {
                if k < idx {
                    assert(q[k] == p[k] && p[k] != top);
                } else {
                    assert(q[k] == p[k + 1] && p[k + 1] != top);
                }
            }
            lemma_nodup_len_bound(q, n - 1);
        } else {
            assert forall|k: int| 0 <= k < p.len() implies (#[trigger] p[k]) < n - 1 by {
                if p[k] == top {
                    assert(p.contains(top));
                }
            }
            lemma_nodup_len_bound(p, n - 1);
        }
    }
}

/// The score of a path is at least the prize of any one of its vertices.
pub proof fn lemma_score_member(g: &Graph, p: Seq<usize>, i: int)
    requires
        0 <= i < p.len(),
    ensures
        path_score(g, p) >= g.prize(p[i] as int),
    decreases p.len(),
{
    lemma_score_nonneg(g, p.drop_last());
    if i < p.len() - 1 {
        lemma_score_member(g, p.drop_last(), i);
    }
}

} // verus!
