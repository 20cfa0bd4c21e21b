use vstd::prelude::*;

use crate::graph::Graph;
use crate::solution::Solution;
use crate::solution::path_cost;
use crate::solution::path_in_range;
use crate::solution::lemma_cost_bound;
use crate::solution::lemma_nodup_len_bound;
use crate::sampling::DESIR_CAP;
use crate::sampling::desir_weight;
use crate::sampling::desirability_weight;
use crate::sampling::lemma_weight_sum_bound;
use crate::sampling::weighted_choice;

verus! {

/// `v` may be visited next: not yet taken, not the end vertex, and the
/// path could still be closed to `end` within budget after stepping onto
/// it.
pub open spec fn is_candidate(
    g: &Graph,
    taken: Seq<bool>,
    current: usize,
    end: usize,
    budget: u64,
    cost: int,
    v: usize,
) -> bool {
    &&& v < g.n()
    &&& !taken[v as int]
    &&& v != end
    &&& cost + g.cost(current as int, v as int) + g.cost(v as int, end as int) <= budget
}

/// The candidates below `m`, in ascending vertex order.
pub open spec fn cand_seq(
    g: &Graph,
    taken: Seq<bool>,
    current: usize,
    end: usize,
    budget: u64,
    cost: int,
    m: int,
) -> Seq<usize>
    decreases m,
{
    if m <= 0 {
        Seq::empty()
    } else {
        let rest = cand_seq(g, taken, current, end, budget, cost, m - 1);
        if is_candidate(g, taken, current, end, budget, cost, (m - 1) as usize) {
            rest.push((m - 1) as usize)
        } else {
            rest
        }
    }
}

/// Desirability order: `a` is strictly more desirable than `b` from
/// `current`. With a zero greediness exponent all desirabilities are
/// equal; otherwise the prize-to-cost ratios are compared exactly, by
/// cross-multiplication.
pub open spec fn desir_gt(g: &Graph, current: usize, power: u32, a: usize, b: usize) -> bool {
    power > 0 && g.prize(a as int) * g.cost(current as int, b as int) > g.prize(b as int) * g.cost(
        current as int,
        a as int,
    )
}

/// The most desirable entry of the first `m` candidates; the earliest one
/// on a tie.
pub open spec fn best_upto(g: &Graph, current: usize, power: u32, c: Seq<usize>, m: int) -> usize
    decreases m,
{
    if m <= 1 {
        c[0]
    } else {
        let prev = best_upto(g, current, power, c, m - 1);
        if desir_gt(g, current, power, c[m - 1], prev) {
            c[m - 1]
        } else {
            prev
        }
    }
}

/// The most desirable of all candidates.
pub open spec fn best_of(g: &Graph, current: usize, power: u32, c: Seq<usize>) -> usize {
    best_upto(g, current, power, c, c.len() as int)
}

/// The path the construction heuristic builds when its shortlist holds a
/// single entry, from a given intermediate state: while candidates remain
/// it steps onto the most desirable one; once none remains it closes to
/// `end` if the closing edge still fits, and otherwise gives up.
pub open spec fn s1_from(
    g: &Graph,
    power: u32,
    taken: Seq<bool>,
    path: Seq<usize>,
    cost: int,
    current: usize,
    end: usize,
    budget: u64,
    fuel: nat,
) -> Option<Seq<usize>>
    decreases fuel,
{
    let cands = cand_seq(g, taken, current, end, budget, cost, g.n());
    if cands.len() == 0 {
        if cost + g.cost(current as int, end as int) <= budget {
            Some(path.push(end))
        } else {
            None
        }
    } else if fuel == 0 {
        None
    } else {
        let v = best_of(g, current, power, cands);
        s1_from(
            g,
            power,
            taken.update(v as int, true),
            path.push(v),
            cost + g.cost(current as int, v as int),
            v,
            end,
            budget,
            (fuel - 1) as nat,
        )
    }
}

/// The visited markers at the start: only `start` is taken.
pub open spec fn init_taken(n: int, start: usize) -> Seq<bool> {
    Seq::new(n as nat, |i: int| i == start)
}

/// The whole deterministic construction, from the start state.
pub open spec fn s_algorithm_spec(
    g: &Graph,
    power: u32,
    start: usize,
    end: usize,
    budget: u64,
) -> Option<Seq<usize>> {
    s1_from(
        g,
        power,
        init_taken(g.n(), start),
        seq![start],
        0,
        start,
        end,
        budget,
        (g.n() - 1) as nat,
    )
}

/// The greedy-randomized construction heuristic: repeatedly ranks the
/// affordable unvisited vertices by desirability, keeps the top
/// `num_considered`, and draws one with probability proportional to its
/// desirability.
#[derive(Clone, Copy, Debug)]
pub struct SAlgorithm {
    power_factor: u32,
    num_considered: usize,
}

impl SAlgorithm {
    /// The greediness exponent.
    pub closed spec fn power(&self) -> u32 {
        self.power_factor
    }

    /// The shortlist size.
    pub closed spec fn considered(&self) -> usize {
        self.num_considered
    }

    pub fn new(power_factor: u32, num_considered: usize) -> (r: Self)
        ensures
            r.power() == power_factor,
            r.considered() == num_considered,
    {
        Self { power_factor, num_considered }
    }
}

/// Compares two candidates by desirability, exactly as `desir_gt`.
fn desir_gt_exec(graph: &Graph, current: usize, power: u32, a: usize, b: usize) -> (r: bool)
    requires
        graph.wf(),
        current < graph.n(),
        a < graph.n(),
        b < graph.n(),
    ensures
        r == desir_gt(graph, current, power, a, b),
{
    if power == 0 {
        false
    } else {
        let pa = graph.prize_of(a) as u64;
        let pb = graph.prize_of(b) as u64;
        let ca = graph.cost_between(current, a) as u64;
        let cb = graph.cost_between(current, b) as u64;
        proof {
            assert(pa * cb <= (u32::MAX as int) * (u32::MAX as int) && pb * ca <= (u32::MAX as int)
                * (u32::MAX as int)) by (nonlinear_arith)
                requires
                    0 <= pa <= u32::MAX,
                    0 <= pb <= u32::MAX,
                    0 <= ca <= u32::MAX,
                    0 <= cb <= u32::MAX,
            ;
        }
        pa * cb > pb * ca
    }
}

/// Collects the candidates in ascending vertex order.
fn collect_candidates(
    graph: &Graph,
    taken: &Vec<bool>,
    current: usize,
    end: usize,
    budget: u64,
    cost: u64,
) -> (r: Vec<usize>)
    requires
        graph.wf(),
        taken@.len() == graph.n(),
        current < graph.n(),
        end < graph.n(),
        cost <= 281474976645120,
    ensures
        r@ == cand_seq(graph, taken@, current, end, budget, cost as int, graph.n()),
        r@.len() <= graph.n(),
        forall|k: int|
            0 <= k < r@.len() ==> is_candidate(
                graph,
                taken@,
                current,
                end,
                budget,
                cost as int,
                #[trigger] r@[k],
            ),
{
    let n = graph.vertex_count();
    let mut out: Vec<usize> = Vec::new();
    let mut v: usize = 0;
    while v < n
        invariant
            graph.wf(),
            taken@.len() == n == graph.n(),
            current < n,
            end < n,
            cost <= 281474976645120,
            v <= n,
            out@.len() <= v,
            out@ == cand_seq(graph, taken@, current, end, budget, cost as int, v as int),
            forall|k: int|
                0 <= k < out@.len() ==> is_candidate(
                    graph,
                    taken@,
                    current,
                    end,
                    budget,
                    cost as int,
                    #[trigger] out@[k],
                ),
        decreases n - v,
    {
        if !taken[v] && v != end {
            let c1 = graph.cost_between(current, v) as u64;
            let c2 = graph.cost_between(v, end) as u64;
            if cost + c1 + c2 <= budget {
                out.push(v);
            }
        }
        v += 1;
    }
    out
}

/// Moves the `k` most desirable candidates, in descending desirability,
/// into a shortlist. The head of a non-empty shortlist is exactly the
/// most desirable candidate, earliest on ties.
fn select_shortlist(graph: &Graph, current: usize, power: u32, cands: Vec<usize>, k: usize) -> (r:
    Vec<usize>)
    requires
        graph.wf(),
        current < graph.n(),
        forall|i: int| 0 <= i < cands@.len() ==> (#[trigger] cands@[i]) < graph.n(),
    ensures
        r@.len() == if k <= cands@.len() {
            k as int
        } else {
            cands@.len() as int
        },
        forall|i: int| 0 <= i < r@.len() ==> cands@.contains(#[trigger] r@[i]),
        k >= 1 && cands@.len() >= 1 ==> r@[0] == best_of(graph, current, power, cands@),
{
    let ghost orig = cands@;
    let mut rem = cands;
    let mut out: Vec<usize> = Vec::new();
    let total = rem.len();
    let take_n = if k <= total {
        k
    } else {
        total
    };
    let mut round: usize = 0;
    while round < take_n
        invariant
            graph.wf(),
            current < graph.n(),
            take_n <= total == orig.len(),
            round <= take_n,
            out@.len() == round,
            rem@.len() == total - round,
            forall|i: int| 0 <= i < rem@.len() ==> orig.contains(#[trigger] rem@[i]),
            forall|i: int| 0 <= i < out@.len() ==> orig.contains(#[trigger] out@[i]),
            forall|i: int| 0 <= i < rem@.len() ==> (#[trigger] rem@[i]) < graph.n(),
            round >= 1 && take_n >= 1 && orig.len() >= 1 ==> out@[0] == best_of(
                graph,
                current,
                power,
                orig,
            ),
            round == 0 ==> rem@ == orig,
        decreases take_n - round,
    {
        let mut bidx: usize = 0;
        let mut i: usize = 1;
        while i < rem.len()
            invariant
                graph.wf(),
                current < graph.n(),
                rem@.len() >= 1,
                forall|m: int| 0 <= m < rem@.len() ==> (#[trigger] rem@[m]) < graph.n(),
                bidx < i <= rem@.len() || (bidx == 0 && i <= rem@.len()),
                bidx < rem@.len(),
                rem@[bidx as int] == best_upto(graph, current, power, rem@, i as int),
                1 <= i,
            decreases rem@.len() - i,
        {
            if desir_gt_exec(graph, current, power, rem[i], rem[bidx]) {
                bidx = i;
            }
            i += 1;
        }
        let ghost rem0 = rem@;
        let picked = rem.remove(bidx);
        out.push(picked);
        proof {
            assert(orig.contains(picked)) by {
                if round == 0 {
                    assert(rem0[bidx as int] == picked);
                }
            }
            assert(forall|m: int|
                0 <= m < rem@.len() ==> rem@[m] == rem0[m] || rem@[m] == rem0[m + 1]);
        }
        round += 1;
    }
    out
}

impl SAlgorithm {
    /// Builds one path from `start` to `end` within `budget`. Gives up
    /// (with no partial path) exactly when no affordable vertex remains
    /// and even the direct closing edge exceeds the remaining budget.
    /// With a shortlist of one the construction is fully deterministic
    /// and follows `s_algorithm_spec`.
    pub fn build_path(&self, graph: &Graph, start: usize, end: usize, budget: u64) -> (r: Option<
        Solution,
    >)
        requires
            graph.wf(),
            start < graph.n(),
            end < graph.n(),
            start != end,
            self.power() == 0 || forall|v: usize|
                v < graph.n() && v != start && v != end ==> graph.prize(v as int) >= 1,
        ensures
            r matches Some(s) ==> s.valid(graph) && s.connects(start, end) && s.cost <= budget,
            r is None ==> graph.cost(start as int, end as int) > budget,
            self.considered() == 1 ==> match r {
                Some(s) => s_algorithm_spec(graph, self.power(), start, end, budget) == Some(
                    s.path@,
                ),
                None => s_algorithm_spec(graph, self.power(), start, end, budget) is None,
            },
    {
        let n = graph.vertex_count();
        let power = self.power_factor;
        let mut taken: Vec<bool> = vec![false; n];
        taken[start] = true;
        proof {
            assert(taken@ =~= init_taken(graph.n(), start));
        }
        let mut path: Vec<usize> = Vec::new();
        path.push(start);
        let mut cost: u64 = 0;
        let ghost target = s_algorithm_spec(graph, self.power(), start, end, budget);
        proof {
            assert(path@ =~= seq![start]);
        }
        loop
            invariant
                graph.wf(),
                n == graph.n() <= crate::graph::MAX_VERTICES,
                start < n,
                end < n,
                start != end,
                power == self.power(),
                target == s_algorithm_spec(graph, self.power(), start, end, budget),
                self.power() == 0 || forall|v: usize|
                    v < graph.n() && v != start && v != end ==> graph.prize(v as int) >= 1,
                taken@.len() == n,
                path@.len() >= 1,
                path@[0] == start,
                path_in_range(graph, path@),
                path@.no_duplicates(),
                forall|k: int| 0 <= k < path@.len() ==> (#[trigger] path@[k]) != end,
                forall|k: int| 0 <= k < path@.len() ==> taken@[(#[trigger] path@[k]) as int],
                forall|v: int| 0 <= v < n && taken@[v] ==> path@.contains(v as usize),
                cost == path_cost(graph, path@),
                path@.len() >= 2 ==> cost + graph.cost(path@.last() as int, end as int)
                    <= budget,
                self.considered() == 1 ==> s1_from(
                    graph,
                    power,
                    taken@,
                    path@,
                    cost as int,
                    path@.last(),
                    end,
                    budget,
                    (n - path@.len()) as nat,
                ) == target,
            decreases n - path@.len(),
        {
            let current = path[path.len() - 1];
            proof {
                lemma_nodup_len_bound(path@, n as int);
                lemma_cost_bound(graph, path@);
                assert(path@.len() * (u32::MAX as int) <= 65536 * (u32::MAX as int))
                    by (nonlinear_arith)
                    requires
                        path@.len() <= 65536,
                ;
            }
            let cands = collect_candidates(graph, &taken, current, end, budget, cost);
            let shortlist = select_shortlist(graph, current, power, cands, self.num_considered);
            if shortlist.len() == 0 {
                proof {
                    if self.considered() == 1 {
                        assert(cand_seq(
                            graph,
                            taken@,
                            current,
                            end,
                            budget,
                            cost as int,
                            graph.n(),
                        ).len() == 0);
                    }
                }
                let closing = graph.cost_between(current, end) as u64;
                if cost + closing <= budget {
                    let ghost pf = path@;
                    proof {
                        if self.considered() == 1 {
                            assert(s1_from(
                                graph,
                                power,
                                taken@,
                                pf,
                                cost as int,
                                pf.last(),
                                end,
                                budget,
                                (n - pf.len()) as nat,
                            ) == Some(pf.push(end)));
                        }
                    }
                    path.push(end);
                    proof {
                        assert(path@.drop_last() =~= pf);
                        assert(path@.no_duplicates());
                        lemma_nodup_len_bound(path@, n as int);
                    }
                    let s = Solution::evaluate(path, graph);
                    return Some(s);
                } else {
                    proof {
                        if path@.len() >= 2 {
                            assert(false);
                        }
                        assert(path@.last() == start);
                        if self.considered() == 1 {
                            assert(s1_from(
                                graph,
                                power,
                                taken@,
                                path@,
                                cost as int,
                                path@.last(),
                                end,
                                budget,
                                (n - path@.len()) as nat,
                            ) is None);
                        }
                    }
                    return None;
                }
            }
            proof {
                let ghost cs = cand_seq(graph, taken@, current, end, budget, cost as int, graph.n());
                assert forall|m: int| 0 <= m < shortlist@.len() implies (#[trigger] shortlist@[m])
                    != end && shortlist@[m] != start && shortlist@[m] < graph.n() by {
                    assert(cs.contains(shortlist@[m]));
                    let ii = choose|ii: int| 0 <= ii < cs.len() && cs[ii] == shortlist@[m];
                    assert(is_candidate(graph, taken@, current, end, budget, cost as int, cs[ii]));
                    assert(taken@[start as int]);
                }
            }
            let chosen: usize = if shortlist.len() == 1 {
                shortlist[0]
            } else {
                let mut weights: Vec<u64> = Vec::new();
                let mut wi: usize = 0;
                while wi < shortlist.len()
                    invariant
                        graph.wf(),
                        current < graph.n(),
                        forall|m: int|
                            0 <= m < shortlist@.len() ==> (#[trigger] shortlist@[m])
                                < graph.n(),
                        self.power() == 0 || forall|v: usize|
                            v < graph.n() && v != start && v != end ==> graph.prize(v as int)
                                >= 1,
                        power == self.power(),
                        start < graph.n(),
                        end < graph.n(),
                        forall|m: int|
                            0 <= m < shortlist@.len() ==> (#[trigger] shortlist@[m]) != end
                                && shortlist@[m] != start,
                        wi <= shortlist@.len() <= crate::graph::MAX_VERTICES,
                        weights@.len() == wi,
                        forall|m: int|
                            0 <= m < wi ==> (#[trigger] weights@[m]) == desir_weight(
                                graph.prize(shortlist@[m] as int),
                                graph.cost(current as int, shortlist@[m] as int),
                                power,
                            ),
                        forall|m: int| 0 <= m < wi ==> (#[trigger] weights@[m]) > 0,
                        forall|m: int| 0 <= m < wi ==> (#[trigger] weights@[m]) <= DESIR_CAP,
                    decreases shortlist@.len() - wi,
                {
                    let sv = shortlist[wi];
                    let w = desirability_weight(
                        graph.prize_of(sv),
                        graph.cost_between(current, sv),
                        power,
                    );
                    weights.push(w);
                    wi += 1;
                }
                proof {
                    lemma_weight_sum_bound(weights@, DESIR_CAP as int);
                    assert(weights@.len() * (DESIR_CAP as int) <= 65536 * (DESIR_CAP as int))
                        by (nonlinear_arith)
                        requires
                            weights@.len() <= 65536,
                    ;
                }
                let ci = weighted_choice(&weights);
                shortlist[ci]
            };
            let ghost cands_spec = cand_seq(graph, taken@, current, end, budget, cost as int, graph.n());
            proof {
                assert(cands_spec.contains(chosen));
                let ci = choose|ci: int| 0 <= ci < cands_spec.len() && cands_spec[ci] == chosen;
                assert(is_candidate(graph, taken@, current, end, budget, cost as int, chosen));
                assert(path@.push(chosen).no_duplicates()) by {
                    if path@.contains(chosen) {
                        let pk = choose|pk: int|
                            0 <= pk < path@.len() && path@[pk] == chosen;
                        assert(taken@[chosen as int]);
                    }
                }
                lemma_nodup_len_bound(path@.push(chosen), n as int);
            }
            let ghost taken0 = taken@;
            let ghost path0 = path@;
            let step = graph.cost_between(current, chosen) as u64;
            taken[chosen] = true;
            path.push(chosen);
            cost = cost + step;
            proof {
                assert(path@.drop_last() =~= path0);
                assert(taken@ =~= taken0.update(chosen as int, true));
                if self.considered() == 1 {
                    assert(chosen == best_of(graph, current, power, cands_spec));
                    assert(s1_from(
                        graph,
                        power,
                        taken0,
                        path0,
                        path_cost(graph, path0),
                        current,
                        end,
                        budget,
                        (n - path0.len()) as nat,
                    ) == s1_from(
                        graph,
                        power,
                        taken@,
                        path@,
                        cost as int,
                        chosen,
                        end,
                        budget,
                        (n - path@.len()) as nat,
                    ));
                }
            }
        }
    }
}

} // verus!
