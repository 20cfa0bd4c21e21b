use vstd::prelude::*;

use crate::graph::Graph;
use crate::solution::Solution;
use crate::solution::path_cost;
use crate::solution::path_in_range;
use crate::solution::path_score;
use crate::solution::lemma_score_concat;
use crate::solution::lemma_cost_concat;
use crate::solution::lemma_score_singleton;
use crate::solution::lemma_score_front;
use crate::solution::lemma_cost_bound;
use crate::solution::lemma_cost_edge;
use crate::solution::lemma_nodup_len_bound;

verus! {

/// Number of rounds of the local-search pass.
pub const IMPROVEMENT_ROUNDS: usize = 10;

/// The path with the entries at `first` and `second` exchanged.
pub open spec fn swap_seq(p: Seq<usize>, f: int, s: int) -> Seq<usize> {
    p.update(f, p[s]).update(s, p[f])
}

/// The path with the whole sub-path between `first` and `second`,
/// inclusive, reversed.
pub open spec fn rev_seq(p: Seq<usize>, f: int, s: int) -> Seq<usize> {
    Seq::new(p.len(), |i: int| if f <= i <= s { p[s - (i - f)] } else { p[i] })
}

/// Maps a position of the original path to its positions in the two
/// alternative layouts: first the one where `first` and `second` are
/// swapped, then the one where in addition the vertices between them are
/// reversed.
pub fn to_reordered_positions(i: usize, first: usize, second: usize) -> (r: (usize, usize))
    requires
        first <= second,
    ensures
        r.0 == if i == first {
            second as int
        } else if i == second {
            first as int
        } else {
            i as int
        },
        r.1 == if first <= i <= second {
            second - (i - first)
        } else {
            i as int
        },
{
    if i == first {
        (second, second)
    } else if i == second {
        (first, first)
    } else if first < i && i < second {
        (i, second - (i - first))
    } else {
        (i, i)
    }
}

/// Builds the two alternative layouts of the path for one `(first,
/// second)` pair: the swap and the segment reversal.
fn reordered_candidates(path: &Vec<usize>, first: usize, second: usize) -> (r: (
    Vec<usize>,
    Vec<usize>,
))
    requires
        first <= second < path@.len(),
    ensures
        r.0@ == swap_seq(path@, first as int, second as int),
        r.1@ == rev_seq(path@, first as int, second as int),
{
    let n = path.len();
    let mut fwd: Vec<usize> = Vec::new();
    let mut bwd: Vec<usize> = Vec::new();
    let mut i: usize = 0;
    while i < n
        invariant
            first <= second < n,
            n == path@.len(),
            i <= n,
            fwd@.len() == i,
            bwd@.len() == i,
            forall|k: int|
                0 <= k < i ==> (#[trigger] fwd@[k]) == swap_seq(
                    path@,
                    first as int,
                    second as int,
                )[k],
            forall|k: int|
                0 <= k < i ==> (#[trigger] bwd@[k]) == rev_seq(
                    path@,
                    first as int,
                    second as int,
                )[k],
        decreases n - i,
    {
        let (a, b) = to_reordered_positions(i, first, second);
        fwd.push(path[a]);
        bwd.push(path[b]);
        i += 1;
    }
    proof {
        assert(fwd@ =~= swap_seq(path@, first as int, second as int));
        assert(bwd@ =~= rev_seq(path@, first as int, second as int));
    }
    (fwd, bwd)
}

/// Sums the consecutive edge costs of a path.
pub(crate) fn total_cost(graph: &Graph, path: &Vec<usize>) -> (r: u64)
    requires
        graph.wf(),
        path_in_range(graph, path@),
        path@.len() <= graph.n(),
    ensures
        r == path_cost(graph, path@),
{
    let n = path.len();
    let mut cost: u64 = 0;
    let mut i: usize = 1;
    if n == 0 {
        return 0;
    }
    proof {
        assert(path@.take(1).len() == 1);
    }
    while i < n
        invariant
            graph.wf(),
            path_in_range(graph, path@),
            1 <= n == path@.len() <= graph.n() <= crate::graph::MAX_VERTICES,
            1 <= i <= n,
            cost == path_cost(graph, path@.take(i as int)),
            cost <= i * (u32::MAX as int),
        decreases n - i,
    {
        proof {
            assert(path@.take(i + 1).drop_last() =~= path@.take(i as int));
            assert(path@.take(i + 1).last() == path@[i as int]);
            assert(path@.take(i + 1)[i - 1] == path@[i - 1]);
        }
        cost = cost + graph.cost_between(path[i - 1], path[i]) as u64;
        i += 1;
    }
    proof {
        assert(path@.take(n as int) =~= path@);
    }
    cost
}

/// Swapping two interior vertices leaves the collected score unchanged.
proof fn lemma_score_swap(g: &Graph, p: Seq<usize>, f: int, s: int)
    requires
        0 <= f < s < p.len(),
    ensures
        path_score(g, swap_seq(p, f, s)) == path_score(g, p),
{
    let a = p.take(f);
    let b = p.subrange(f + 1, s);
    let c = p.skip(s + 1);
    let q = swap_seq(p, f, s);
    assert(p =~= a + seq![p[f]] + b + seq![p[s]] + c);
    assert(q =~= a + seq![p[s]] + b + seq![p[f]] + c);
    lemma_score_five(g, a, p[f], b, p[s], c);
    lemma_score_five(g, a, p[s], b, p[f], c);
}

proof fn lemma_score_five(g: &Graph, a: Seq<usize>, x: usize, b: Seq<usize>, y: usize, c: Seq<
    usize,
>)
    ensures
        path_score(g, a + seq![x] + b + seq![y] + c) == path_score(g, a) + g.prize(x as int)
            + path_score(g, b) + g.prize(y as int) + path_score(g, c),
{
    lemma_score_concat(g, a, seq![x]);
    lemma_score_concat(g, a + seq![x], b);
    lemma_score_concat(g, a + seq![x] + b, seq![y]);
    lemma_score_concat(g, a + seq![x] + b + seq![y], c);
    lemma_score_singleton(g, x);
    lemma_score_singleton(g, y);
}

/// Reversing any sequence leaves its collected score unchanged.
proof fn lemma_score_reverse(g: &Graph, m: Seq<usize>)
    ensures
        path_score(g, m.reverse()) == path_score(g, m),
    decreases m.len(),
{
    if m.len() > 0 {
        lemma_score_reverse(g, m.drop_first());
        assert(m.reverse().drop_last() =~= m.drop_first().reverse());
        assert(m.reverse().last() == m[0]);
        lemma_score_front(g, m);
    }
}

/// Reversing an interior segment leaves the collected score unchanged.
proof fn lemma_score_rev_seq(g: &Graph, p: Seq<usize>, f: int, s: int)
    requires
        0 <= f < s < p.len(),
    ensures
        path_score(g, rev_seq(p, f, s)) == path_score(g, p),
{
    let a = p.take(f);
    let mid = p.subrange(f, s + 1);
    let c = p.skip(s + 1);
    assert(p =~= a + mid + c);
    assert(rev_seq(p, f, s) =~= a + mid.reverse() + c);
    lemma_score_concat(g, a, mid);
    lemma_score_concat(g, a + mid, c);
    lemma_score_concat(g, a, mid.reverse());
    lemma_score_concat(g, a + mid.reverse(), c);
    lemma_score_reverse(g, mid);
}

/// Both reordered layouts keep the vertex range, the absence of
/// duplicates, the length, and the two endpoints.
proof fn lemma_reorder_props(g: &Graph, p: Seq<usize>, f: int, s: int)
    requires
        1 <= f < s < p.len() - 1,
        path_in_range(g, p),
        p.no_duplicates(),
    ensures
        swap_seq(p, f, s).len() == p.len(),
        rev_seq(p, f, s).len() == p.len(),
        path_in_range(g, swap_seq(p, f, s)),
        path_in_range(g, rev_seq(p, f, s)),
        swap_seq(p, f, s).no_duplicates(),
        rev_seq(p, f, s).no_duplicates(),
        swap_seq(p, f, s)[0] == p[0],
        rev_seq(p, f, s)[0] == p[0],
        swap_seq(p, f, s).last() == p.last(),
        rev_seq(p, f, s).last() == p.last(),
{
    let q = swap_seq(p, f, s);
    let r = rev_seq(p, f, s);
    assert forall|x: int, y: int| 0 <= x < y < q.len() implies q[x] != q[y] by {
        let xi = if x == f {
            s
        } else if x == s {
            f
        } else {
            x
        };
        let yi = if y == f {
            s
        } else if y == s {
            f
        } else {
            y
        };
        assert(q[x] == p[xi] && q[y] == p[yi]);
        assert(xi != yi);
    }
    assert forall|x: int, y: int| 0 <= x < y < r.len() implies r[x] != r[y] by {
        let xi = if f <= x <= s {
            s - (x - f)
        } else {
            x
        };
        let yi = if f <= y <= s {
            s - (y - f)
        } else {
            y
        };
        assert(r[x] == p[xi] && r[y] == p[yi]);
        assert(xi != yi);
    }
}

/// Some pair of interior positions offers a strictly cheaper layout of
/// `p`: swapping the two, or reversing the segment between them, lowers
/// the total below `cost`.
pub open spec fn has_reorder_improvement(g: &Graph, p: Seq<usize>, cost: int) -> bool {
    exists|f: int, s: int|
        #![trigger swap_seq(p, f, s)]
        #![trigger rev_seq(p, f, s)]
        1 <= f < s < p.len() - 1 && (path_cost(g, swap_seq(p, f, s)) < cost || path_cost(
            g,
            rev_seq(p, f, s),
        ) < cost)
}

proof fn lemma_concat5_multiset(a: Seq<usize>, x: usize, b: Seq<usize>, y: usize, c: Seq<usize>)
    ensures
        (a + seq![x] + b + seq![y] + c).to_multiset() == a.to_multiset().add(
            seq![x].to_multiset(),
        ).add(b.to_multiset()).add(seq![y].to_multiset()).add(c.to_multiset()),
{
    vstd::seq_lib::lemma_multiset_commutative(a, seq![x]);
    vstd::seq_lib::lemma_multiset_commutative(a + seq![x], b);
    vstd::seq_lib::lemma_multiset_commutative(a + seq![x] + b, seq![y]);
    vstd::seq_lib::lemma_multiset_commutative(a + seq![x] + b + seq![y], c);
}

/// Both reordered layouts hold exactly the vertices of the input path.
proof fn lemma_reorder_multiset(g: &Graph, p: Seq<usize>, f: int, s: int)
    requires
        0 <= f < s < p.len(),
    ensures
        swap_seq(p, f, s).to_multiset() == p.to_multiset(),
        rev_seq(p, f, s).to_multiset() == p.to_multiset(),
{
    let a = p.take(f);
    let b = p.subrange(f + 1, s);
    let c = p.skip(s + 1);
    let q = swap_seq(p, f, s);
    assert(p =~= a + seq![p[f]] + b + seq![p[s]] + c);
    assert(q =~= a + seq![p[s]] + b + seq![p[f]] + c);
    lemma_concat5_multiset(a, p[f], b, p[s], c);
    lemma_concat5_multiset(a, p[s], b, p[f], c);
    assert(q.to_multiset() =~= p.to_multiset());
    let mid = p.subrange(f, s + 1);
    let r = rev_seq(p, f, s);
    assert(p =~= a + mid + c);
    assert(r =~= a + mid.reverse() + c);
    vstd::seq_lib::lemma_multiset_commutative(a, mid);
    vstd::seq_lib::lemma_multiset_commutative(a + mid, c);
    vstd::seq_lib::lemma_multiset_commutative(a, mid.reverse());
    vstd::seq_lib::lemma_multiset_commutative(a + mid.reverse(), c);
    mid.lemma_reverse_to_multiset();
    assert(r.to_multiset() =~= p.to_multiset());
}

/// One pass of pairwise reordering: for every pair of interior positions,
/// adopt the cheaper of the swapped and the reversed layout whenever it
/// strictly lowers the total cost (a tie between the two favouring the
/// swap). The result is a permutation of the input path, the cost drops
/// exactly when some pair offers an improvement of the input, and an
/// unimproved path comes back unchanged.
pub fn reorder(solution: &mut Solution, graph: &Graph)
    requires
        graph.wf(),
        old(solution).valid(graph),
    ensures
        final(solution).valid(graph),
        final(solution).cost <= old(solution).cost,
        final(solution).score == old(solution).score,
        final(solution).path@.len() == old(solution).path@.len(),
        final(solution).path@[0] == old(solution).path@[0],
        final(solution).path@.last() == old(solution).path@.last(),
        final(solution).path@.to_multiset() == old(solution).path@.to_multiset(),
        forall|x: usize|
            old(solution).path@.contains(x) ==> final(solution).path@.contains(x),
        final(solution).cost < old(solution).cost <==> has_reorder_improvement(
            graph,
            old(solution).path@,
            old(solution).cost as int,
        ),
        final(solution).cost == old(solution).cost ==> final(solution).path@ == old(
            solution,
        ).path@,
{
    let len = solution.path.len();
    let ghost p0 = old(solution).path@;
    let ghost c0 = old(solution).cost as int;
    let mut first: usize = 1;
    while first + 1 < len
        invariant
            graph.wf(),
            solution.valid(graph),
            len == solution.path@.len() == p0.len(),
            p0 == old(solution).path@,
            c0 == old(solution).cost as int,
            1 <= first <= len,
            solution.cost <= c0,
            solution.score == old(solution).score,
            solution.path@[0] == p0[0],
            solution.path@.last() == p0.last(),
            solution.path@.to_multiset() == p0.to_multiset(),
            solution.cost < c0 ==> has_reorder_improvement(graph, p0, c0),
            solution.cost == c0 ==> solution.path@ == p0,
            solution.cost == c0 ==> forall|f: int, s: int|
                #![trigger swap_seq(p0, f, s)]
                #![trigger rev_seq(p0, f, s)]
                1 <= f < s < len - 1 && f < first ==> path_cost(graph, swap_seq(p0, f, s)) >= c0
                    && path_cost(graph, rev_seq(p0, f, s)) >= c0,
        decreases len - first,
    {
        let mut second: usize = first + 1;
        while second + 1 < len
            invariant
                graph.wf(),
                solution.valid(graph),
                len == solution.path@.len() == p0.len(),
                p0 == old(solution).path@,
                c0 == old(solution).cost as int,
                1 <= first < second <= len,
                solution.cost <= c0,
                solution.score == old(solution).score,
                solution.path@[0] == p0[0],
                solution.path@.last() == p0.last(),
                solution.path@.to_multiset() == p0.to_multiset(),
                solution.cost < c0 ==> has_reorder_improvement(graph, p0, c0),
                solution.cost == c0 ==> solution.path@ == p0,
                solution.cost == c0 ==> forall|f: int, s: int|
                    #![trigger swap_seq(p0, f, s)]
                    #![trigger rev_seq(p0, f, s)]
                    1 <= f < s < len - 1 && f < first ==> path_cost(graph, swap_seq(p0, f, s))
                        >= c0 && path_cost(graph, rev_seq(p0, f, s)) >= c0,
                solution.cost == c0 ==> forall|s2: int|
                    #![trigger swap_seq(p0, first as int, s2)]
                    #![trigger rev_seq(p0, first as int, s2)]
                    first < s2 < len - 1 && s2 < second ==> path_cost(
                        graph,
                        swap_seq(p0, first as int, s2),
                    ) >= c0 && path_cost(graph, rev_seq(p0, first as int, s2)) >= c0,
            decreases len - second,
        {
            let (fwd, bwd) = reordered_candidates(&solution.path, first, second);
            proof {
                lemma_reorder_props(graph, solution.path@, first as int, second as int);
                lemma_reorder_multiset(graph, solution.path@, first as int, second as int);
            }
            let fc = total_cost(graph, &fwd);
            let bc = total_cost(graph, &bwd);
            let cur = solution.cost;
            if fc < cur && bc < cur {
                proof {
                    lemma_score_swap(graph, solution.path@, first as int, second as int);
                    lemma_score_rev_seq(graph, solution.path@, first as int, second as int);
                    if cur == c0 {
                        assert(path_cost(graph, swap_seq(p0, first as int, second as int)) < c0);
                    }
                }
                if fc <= bc {
                    solution.path = fwd;
                    solution.cost = fc;
                } else {
                    solution.path = bwd;
                    solution.cost = bc;
                }
            } else if fc < cur {
                proof {
                    lemma_score_swap(graph, solution.path@, first as int, second as int);
                    if cur == c0 {
                        assert(path_cost(graph, swap_seq(p0, first as int, second as int)) < c0);
                    }
                }
                solution.path = fwd;
                solution.cost = fc;
            } else if bc < cur {
                proof {
                    lemma_score_rev_seq(graph, solution.path@, first as int, second as int);
                    if cur == c0 {
                        assert(path_cost(graph, rev_seq(p0, first as int, second as int)) < c0);
                    }
                }
                solution.path = bwd;
                solution.cost = bc;
            } else {
                proof {
                    if solution.cost == c0 {
                        assert(fwd@ == swap_seq(p0, first as int, second as int));
                        assert(bwd@ == rev_seq(p0, first as int, second as int));
                        assert(path_cost(graph, swap_seq(p0, first as int, second as int)) >= c0);
                        assert(path_cost(graph, rev_seq(p0, first as int, second as int)) >= c0);
                    }
                }
            }
            second += 1;
        }
        proof {
            if solution.cost == c0 {
                assert forall|f: int, s: int|
                    #![trigger swap_seq(p0, f, s)]
                    #![trigger rev_seq(p0, f, s)]
                    1 <= f < s < len - 1 && f < first + 1 implies path_cost(
                    graph,
                    swap_seq(p0, f, s),
                ) >= c0 && path_cost(graph, rev_seq(p0, f, s)) >= c0 by {
                    if f == first {
                        assert(path_cost(graph, swap_seq(p0, first as int, s)) >= c0);
                        assert(path_cost(graph, rev_seq(p0, first as int, s)) >= c0);
                    }
                }
            }
        }
        first += 1;
    }
    proof {
        p0.to_multiset_ensures();
        solution.path@.to_multiset_ensures();
        assert forall|x: usize| p0.contains(x) implies solution.path@.contains(x) by {
            assert(p0.to_multiset().count(x) > 0);
            assert(solution.path@.to_multiset().count(x) > 0);
        }
        if solution.cost == c0 && has_reorder_improvement(graph, p0, c0) {
            let (f, s) = choose|f: int, s: int|
                #![trigger swap_seq(p0, f, s)]
                #![trigger rev_seq(p0, f, s)]
                1 <= f < s < p0.len() - 1 && (path_cost(graph, swap_seq(p0, f, s)) < c0
                    || path_cost(graph, rev_seq(p0, f, s)) < c0);
            if len >= 2 {
                assert(path_cost(graph, swap_seq(p0, f, s)) >= c0);
                assert(path_cost(graph, rev_seq(p0, f, s)) >= c0);
            }
        }
    }
}

/// Total cost of the path after inserting `v` between the adjacent
/// positions `i` and `i + 1`.
pub open spec fn insertion_total(g: &Graph, p: Seq<usize>, base: int, v: usize, i: int) -> int {
    base - g.cost(p[i] as int, p[i + 1] as int) + g.cost(p[i] as int, v as int) + g.cost(
        v as int,
        p[i + 1] as int,
    )
}

/// A vertex worth inserting: not yet on the path and carrying a prize.
pub open spec fn is_insert_candidate(g: &Graph, p: Seq<usize>, v: usize) -> bool {
    &&& v < g.n()
    &&& g.prize(v as int) > 0
    &&& !p.contains(v)
}

/// Some prize-carrying unvisited vertex has a budget-feasible insertion
/// into `p`.
pub open spec fn has_feasible_insertion(g: &Graph, p: Seq<usize>, cost: int, budget: u64) -> bool {
    exists|u: usize, j: int|
        is_insert_candidate(g, p, u) && 0 <= j < p.len() - 1 && #[trigger] insertion_total(
            g,
            p,
            cost,
            u,
            j,
        ) <= budget
}

/// One augmentation pass: among all prize-carrying vertices not on the
/// path, inserts the one with the cheapest feasible insertion (ties broken
/// toward the higher prize, then the earlier position) at its best
/// position; a no-op exactly when no insertion fits the budget.
pub fn augment_path(solution: &mut Solution, graph: &Graph, budget: u64)
    requires
        graph.wf(),
        old(solution).valid(graph),
        old(solution).cost <= budget,
    ensures
        final(solution).valid(graph),
        final(solution).cost <= budget,
        final(solution).score >= old(solution).score,
        final(solution).path@.len() >= old(solution).path@.len(),
        final(solution).path@[0] == old(solution).path@[0],
        final(solution).path@.last() == old(solution).path@.last(),
        forall|x: usize|
            old(solution).path@.contains(x) ==> final(solution).path@.contains(x),
        !has_feasible_insertion(graph, old(solution).path@, old(solution).cost as int, budget)
            ==> *final(solution) == *old(solution),
        has_feasible_insertion(graph, old(solution).path@, old(solution).cost as int, budget)
            ==> *final(solution) != *old(solution),
        *final(solution) != *old(solution) ==> final(solution).path@.len() == old(
            solution,
        ).path@.len() + 1,
        *final(solution) != *old(solution) ==> exists|v: usize, i: int|
            {
                &&& is_insert_candidate(graph, old(solution).path@, v)
                &&& 0 <= i < old(solution).path@.len() - 1
                &&& final(solution).path@ == old(solution).path@.insert(i + 1, v)
                &&& final(solution).cost == #[trigger] insertion_total(
                    graph,
                    old(solution).path@,
                    old(solution).cost as int,
                    v,
                    i,
                )
                &&& final(solution).cost <= budget
                &&& final(solution).score == old(solution).score + graph.prize(v as int)
                &&& forall|u: usize, j: int|
                    is_insert_candidate(graph, old(solution).path@, u) && 0 <= j < old(
                        solution,
                    ).path@.len() - 1 && insertion_total(
                        graph,
                        old(solution).path@,
                        old(solution).cost as int,
                        u,
                        j,
                    ) <= budget ==> insertion_total(
                        graph,
                        old(solution).path@,
                        old(solution).cost as int,
                        v,
                        i,
                    ) <= insertion_total(
                        graph,
                        old(solution).path@,
                        old(solution).cost as int,
                        u,
                        j,
                    )
                &&& forall|u: usize, j: int|
                    is_insert_candidate(graph, old(solution).path@, u) && 0 <= j < old(
                        solution,
                    ).path@.len() - 1 && insertion_total(
                        graph,
                        old(solution).path@,
                        old(solution).cost as int,
                        u,
                        j,
                    ) <= budget && insertion_total(
                        graph,
                        old(solution).path@,
                        old(solution).cost as int,
                        u,
                        j,
                    ) == insertion_total(
                        graph,
                        old(solution).path@,
                        old(solution).cost as int,
                        v,
                        i,
                    ) ==> graph.prize(v as int) >= graph.prize(u as int)
            },
{
    let n = graph.vertex_count();
    let plen = solution.path.len();
    let ghost p0 = solution.path@;
    let ghost base = solution.cost as int;
    let mut found = false;
    let mut bv: usize = 0;
    let mut bi: usize = 0;
    let mut bt: u64 = 0;
    let mut bp: u32 = 0;
    let mut v: usize = 0;
    while v < n
        invariant
            graph.wf(),
            solution.valid(graph),
            solution.path@ == p0,
            solution.cost == base,
            plen == p0.len(),
            n == graph.n(),
            solution.cost <= budget,
            v <= n,
            found ==> {
                &&& is_insert_candidate(graph, p0, bv)
                &&& bi < plen - 1
                &&& bt == insertion_total(graph, p0, base, bv, bi as int)
                &&& bt <= budget
                &&& bp == graph.prize(bv as int)
            },
            !found ==> forall|u: usize, j: int|
                u < v && is_insert_candidate(graph, p0, u) && 0 <= j < plen - 1 ==> insertion_total(
                    graph,
                    p0,
                    base,
                    u,
                    j,
                ) > budget,
            found ==> forall|u: usize, j: int|
                u < v && is_insert_candidate(graph, p0, u) && 0 <= j < plen - 1 && insertion_total(
                    graph,
                    p0,
                    base,
                    u,
                    j,
                ) <= budget ==> bt <= insertion_total(graph, p0, base, u, j),
            found ==> forall|u: usize, j: int|
                u < v && is_insert_candidate(graph, p0, u) && 0 <= j < plen - 1 && insertion_total(
                    graph,
                    p0,
                    base,
                    u,
                    j,
                ) <= budget && insertion_total(graph, p0, base, u, j) == bt ==> bp >= graph.prize(
                    u as int,
                ),
        decreases n - v,
    {
        if graph.prize_of(v) > 0 && !crate::solution::vec_contains(&solution.path, v) {
            let mut j: usize = 0;
            while j + 1 < plen
                invariant
                    graph.wf(),
                    solution.valid(graph),
                    solution.path@ == p0,
                    solution.cost == base,
                    plen == p0.len(),
                    n == graph.n(),
                    solution.cost <= budget,
                    v < n,
                    is_insert_candidate(graph, p0, v),
                    j <= plen,
                    plen >= 1 ==> j <= plen - 1,
                    found ==> {
                        &&& is_insert_candidate(graph, p0, bv)
                        &&& bi < plen - 1
                        &&& bt == insertion_total(graph, p0, base, bv, bi as int)
                        &&& bt <= budget
                        &&& bp == graph.prize(bv as int)
                    },
                    !found ==> forall|u: usize, jj: int|
                        u < v && is_insert_candidate(graph, p0, u) && 0 <= jj < plen - 1
                            ==> insertion_total(graph, p0, base, u, jj) > budget,
                    found ==> forall|u: usize, jj: int|
                        u < v && is_insert_candidate(graph, p0, u) && 0 <= jj < plen - 1
                            && insertion_total(graph, p0, base, u, jj) <= budget ==> bt
                            <= insertion_total(graph, p0, base, u, jj),
                    found ==> forall|u: usize, jj: int|
                        u < v && is_insert_candidate(graph, p0, u) && 0 <= jj < plen - 1
                            && insertion_total(graph, p0, base, u, jj) <= budget
                            && insertion_total(graph, p0, base, u, jj) == bt ==> bp
                            >= graph.prize(u as int),
                    !found ==> forall|jj: int|
                        0 <= jj < j ==> insertion_total(graph, p0, base, v, jj) > budget,
                    found ==> forall|jj: int|
                        0 <= jj < j && insertion_total(graph, p0, base, v, jj) <= budget ==> bt
                            <= insertion_total(graph, p0, base, v, jj),
                    found ==> forall|jj: int|
                        0 <= jj < j && insertion_total(graph, p0, base, v, jj) <= budget
                            && insertion_total(graph, p0, base, v, jj) == bt ==> bp
                            >= graph.prize(v as int),
                decreases plen - j,
            {
                let a = solution.path[j];
                let b = solution.path[j + 1];
                proof {
                    lemma_cost_edge(graph, p0, j as int);
                    lemma_cost_bound(graph, p0);
                    assert(p0.len() * (u32::MAX as int) <= 65536 * (u32::MAX as int))
                        by (nonlinear_arith)
                        requires
                            p0.len() <= 65536,
                    ;
                }
                let removed = graph.cost_between(a, b) as u64;
                let add1 = graph.cost_between(a, v) as u64;
                let add2 = graph.cost_between(v, b) as u64;
                let it = solution.cost - removed + add1 + add2;
                if it <= budget {
                    if !found || it < bt || (it == bt && graph.prize_of(v) > bp) {
                        found = true;
                        bv = v;
                        bi = j;
                        bt = it;
                        bp = graph.prize_of(v);
                    }
                }
                j += 1;
            }
        }
        v += 1;
    }
    if found {
        proof {
            assert(p0.push(bv).no_duplicates());
            assert(forall|k: int|
                0 <= k < p0.push(bv).len() ==> (#[trigger] p0.push(bv)[k]) < graph.n());
            lemma_nodup_len_bound(p0.push(bv), graph.n());
            crate::solution::lemma_score_bound(graph, p0);
            assert(p0.len() * (u32::MAX as int) <= 65536 * (u32::MAX as int)) by (nonlinear_arith)
                requires
                    p0.len() <= 65536,
            ;
        }
        solution.path.insert(bi + 1, bv);
        solution.score = solution.score + graph.prize_of(bv) as u64;
        solution.cost = bt;
        proof {
            let q = p0.insert(bi + 1, bv);
            let a = p0.take(bi + 1);
            let b = p0.skip(bi + 1);
            assert(q =~= a + seq![bv] + b);
            assert(p0 =~= a + b);
            assert(a.last() == p0[bi as int]);
            assert(b[0] == p0[bi + 1]);
            assert((a + seq![bv]).last() == bv);
            lemma_score_concat(graph, a, seq![bv]);
            lemma_score_concat(graph, a + seq![bv], b);
            lemma_score_concat(graph, a, b);
            lemma_score_singleton(graph, bv);
            lemma_cost_concat(graph, a, seq![bv]);
            lemma_cost_concat(graph, a + seq![bv], b);
            lemma_cost_concat(graph, a, b);
            assert(path_cost(graph, seq![bv]) == 0);
            assert(solution.path@ == q);
            assert forall|x: int, y: int| 0 <= x < y < q.len() implies q[x] != q[y] by {
                let xi = if x <= bi {
                    x
                } else {
                    x - 1
                };
                let yi = if y <= bi {
                    y
                } else {
                    y - 1
                };
                if x == bi + 1 {
                    assert(q[y] == p0[yi]);
                    assert(!p0.contains(bv));
                    assert(p0[yi] != bv) by {
                        if p0[yi] == bv {
                            assert(p0.contains(bv));
                        }
                    }
                } else if y == bi + 1 {
                    assert(q[x] == p0[xi]);
                    if p0[xi] == bv {
                        assert(p0.contains(bv));
                    }
                } else {
                    assert(q[x] == p0[xi] && q[y] == p0[yi]);
                }
            }
            assert(has_feasible_insertion(graph, p0, base, budget)) by {
                assert(insertion_total(graph, p0, base, bv, bi as int) <= budget);
            }
            assert(*solution != *old(solution)) by {
                if *solution == *old(solution) {
                    assert(solution.path@ == p0);
                }
            }
            assert forall|x: usize| p0.contains(x) implies solution.path@.contains(x) by {
                let k = choose|k: int| 0 <= k < p0.len() && p0[k] == x;
                if k <= bi {
                    assert(q[k] == p0[k]);
                } else {
                    assert(q[k + 1] == p0[k]);
                }
            }
        }
    } else {
        proof {
            if has_feasible_insertion(graph, p0, base, budget) {
                let (u, jj) = choose|u: usize, jj: int|
                    is_insert_candidate(graph, p0, u) && 0 <= jj < p0.len() - 1
                        && #[trigger] insertion_total(graph, p0, base, u, jj) <= budget;
                assert(u < n);
                assert(insertion_total(graph, p0, base, u, jj) > budget);
            }
        }
    }
}

/// The local-search improver: repeated segment reordering followed by
/// best-insertion augmentation, for a fixed number of rounds.
pub struct RIAlgorithm;

impl RIAlgorithm {
    /// Post-processes a solution with the fixed round count. The result
    /// never has a lower score than the input, stays within the budget,
    /// keeps the endpoints, and retains every vertex of the input path;
    /// and whenever the input path admits a cheaper reordering or a
    /// budget-feasible augmentation, the result is strictly better: it is
    /// cheaper, or longer by an inserted vertex.
    pub fn improve(&self, graph: &Graph, solution: Solution, budget: u64) -> (r: Solution)
        requires
            graph.wf(),
            solution.valid(graph),
            solution.cost <= budget,
        ensures
            r.valid(graph),
            r.cost <= budget,
            r.score >= solution.score,
            r.path@.len() >= solution.path@.len(),
            r.path@[0] == solution.path@[0],
            r.path@.last() == solution.path@.last(),
            forall|x: usize| solution.path@.contains(x) ==> r.path@.contains(x),
            (has_reorder_improvement(graph, solution.path@, solution.cost as int)
                || has_feasible_insertion(
                graph,
                solution.path@,
                solution.cost as int,
                budget,
            )) ==> (r.cost < solution.cost || r.path@.len() > solution.path@.len()),
    {
        let mut sol = solution;
        let ghost s0 = sol;
        let mut round: usize = 0;
        while round < IMPROVEMENT_ROUNDS
            invariant
                graph.wf(),
                sol.valid(graph),
                sol.cost <= budget,
                sol.score >= s0.score,
                sol.path@.len() >= s0.path@.len(),
                sol.path@[0] == s0.path@[0],
                sol.path@.last() == s0.path@.last(),
                forall|x: usize| s0.path@.contains(x) ==> sol.path@.contains(x),
                round <= IMPROVEMENT_ROUNDS,
                round == 0 ==> sol == s0,
                round >= 1 ==> (sol.cost < s0.cost || sol.path@.len() > s0.path@.len() || (
                sol.path@ == s0.path@ && sol.cost == s0.cost && !has_reorder_improvement(
                    graph,
                    s0.path@,
                    s0.cost as int,
                ) && !has_feasible_insertion(graph, s0.path@, s0.cost as int, budget))),
            decreases IMPROVEMENT_ROUNDS - round,
        {
            let ghost pre = sol;
            reorder(&mut sol, graph);
            let ghost mid = sol;
            augment_path(&mut sol, graph, budget);
            proof {
                assert forall|x: usize| s0.path@.contains(x) implies sol.path@.contains(x) by {
                    assert(pre.path@.contains(x));
                    assert(mid.path@.contains(x));
                }
                if !(sol.cost < s0.cost) && !(sol.path@.len() > s0.path@.len()) {
                    if pre.path@ == s0.path@ && pre.cost == s0.cost {
                        assert(!(mid.cost < pre.cost)) by {
                            if mid.cost < pre.cost {
                                assert(sol.path@.len() >= mid.path@.len());
                            }
                        }
                        assert(mid.path@ == s0.path@ && mid.cost == s0.cost);
                        assert(!has_reorder_improvement(graph, s0.path@, s0.cost as int));
                        assert(sol == mid) by {
                            if sol != mid {
                                assert(sol.path@.len() == mid.path@.len() + 1);
                            }
                        }
                        assert(!has_feasible_insertion(graph, s0.path@, s0.cost as int, budget));
                    }
                }
            }
            round += 1;
        }
        let Solution { path, score: _, cost: _ } = sol;
        Solution::evaluate(path, graph)
    }
}

} // verus!
