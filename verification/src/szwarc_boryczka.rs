use vstd::prelude::*;

use crate::RATE_SCALE;
use crate::graph::Graph;
use crate::harmony_memory::HarmonyMemory;
use crate::harmony_memory::MAX_CAPACITY;
use crate::harmony_memory::followers;
use crate::harmony_memory::lemma_followers_positive;
use crate::sampling::uniform_below;
use crate::sampling::uniform_rate;
use crate::sampling::weighted_choice;
use crate::sampling::lemma_weight_sum_bound;
use crate::solution::Solution;
use crate::solution::path_cost;
use crate::solution::path_in_range;
use crate::solution::lemma_cost_bound;

verus! {

/// Why a harmony-search configuration was rejected.
#[derive(Clone, Copy, Debug, PartialEq, Eq)]
pub enum SzwarcBoryczkaError {
    /// A rate lies outside `0 ..= RATE_SCALE`; carries the offending value
    /// and the field's name.
    InvalidPercentage { value: u64, name: &'static str },
    /// The harmony memory must hold at least one solution.
    ZeroHarmonyMemorySize,
}

/// The harmony-search metaheuristic: iteratively improvises new paths,
/// biased by a bounded memory of past solutions, a pitch-adjustment rule,
/// or pure randomness.
#[derive(Debug)]
pub struct SzwarcBoryczka {
    /// The maximum amount of stored solutions in the harmony memory.
    harmony_memory_size: usize,
    /// Harmony Memory Consideration Rate, out of `RATE_SCALE`: how often
    /// the next vertex is taken from the memory rather than at random.
    hmcr: u64,
    /// Pitch Adjustment Rate, out of `RATE_SCALE`: how often a choice
    /// taken from the memory is perturbed by the rank-based rule.
    par: u64,
    /// The number of improvisation iterations.
    iterations: usize,
}

impl SzwarcBoryczka {
    pub closed spec fn size(&self) -> usize {
        self.harmony_memory_size
    }

    pub closed spec fn hmcr_rate(&self) -> u64 {
        self.hmcr
    }

    pub closed spec fn par_rate(&self) -> u64 {
        self.par
    }

    pub closed spec fn iteration_count(&self) -> usize {
        self.iterations
    }

    /// A configuration that passed validation.
    pub open spec fn wf(&self) -> bool {
        &&& 1 <= self.size() <= MAX_CAPACITY
        &&& self.hmcr_rate() <= RATE_SCALE
        &&& self.par_rate() <= RATE_SCALE
    }

    /// Validates the configuration eagerly: the memory capacity must be
    /// positive and both rates must lie in `0 ..= RATE_SCALE`. The error
    /// names the offending field and carries its value.
    pub fn new(harmony_memory_size: usize, hmcr: u64, par: u64, iterations: usize) -> (r: Result<
        Self,
        SzwarcBoryczkaError,
    >)
        requires
            harmony_memory_size <= MAX_CAPACITY,
        ensures
            r is Ok <==> (harmony_memory_size >= 1 && hmcr <= RATE_SCALE && par <= RATE_SCALE),
            match r {
                Ok(s) => {
                    &&& s.wf()
                    &&& s.size() == harmony_memory_size
                    &&& s.hmcr_rate() == hmcr
                    &&& s.par_rate() == par
                    &&& s.iteration_count() == iterations
                },
                Err(SzwarcBoryczkaError::ZeroHarmonyMemorySize) => harmony_memory_size == 0,
                Err(SzwarcBoryczkaError::InvalidPercentage { value, name }) => {
                    &&& harmony_memory_size >= 1
                    &&& (value == hmcr && hmcr > RATE_SCALE && name@ == "hmcr"@) || (value == par
                        && par > RATE_SCALE && hmcr <= RATE_SCALE && name@ == "par"@)
                },
            },
    {
        if harmony_memory_size == 0 {
            return Err(SzwarcBoryczkaError::ZeroHarmonyMemorySize);
        }
        if hmcr > RATE_SCALE {
            return Err(SzwarcBoryczkaError::InvalidPercentage { value: hmcr, name: "hmcr" });
        }
        if par > RATE_SCALE {
            return Err(SzwarcBoryczkaError::InvalidPercentage { value: par, name: "par" });
        }
        Ok(SzwarcBoryczka { harmony_memory_size, hmcr, par, iterations })
    }
}

/// Keeps only the vertices that could still be visited next and leave
/// enough budget for the closing edge to `end`.
pub(crate) fn filter_available_nodes(
    available: &mut Vec<usize>,
    graph: &Graph,
    remaining_budget: u64,
    current: usize,
    end: usize,
)
    requires
        graph.wf(),
        current < graph.n(),
        end < graph.n(),
        forall|k: int| 0 <= k < old(available)@.len() ==> (#[trigger] old(available)@[k]) < graph.n(),
        old(available)@.no_duplicates(),
    ensures
        final(available)@.len() <= old(available)@.len(),
        final(available)@.no_duplicates(),
        forall|v: usize|
            #[trigger] final(available)@.contains(v) <==> (old(available)@.contains(v)
                && graph.cost(current as int, v as int) + graph.cost(v as int, end as int)
                <= remaining_budget),
        forall|k: int|
            0 <= k < final(available)@.len() ==> old(available)@.contains(
                #[trigger] final(available)@[k],
            ),
{
    let n = available.len();
    let mut out: Vec<usize> = Vec::new();
    let mut i: usize = 0;
    while i < n
        invariant
            graph.wf(),
            current < graph.n(),
            end < graph.n(),
            n == available@.len(),
            forall|k: int| 0 <= k < available@.len() ==> (#[trigger] available@[k]) < graph.n(),
            available@.no_duplicates(),
            i <= n,
            out@.len() <= i,
            out@.no_duplicates(),
            forall|k: int|
                0 <= k < out@.len() ==> exists|m: int|
                    0 <= m < i && available@[m] == (#[trigger] out@[k]),
            forall|k: int|
                0 <= k < out@.len() ==> graph.cost(current as int, (#[trigger] out@[k]) as int)
                    + graph.cost(out@[k] as int, end as int) <= remaining_budget,
            forall|m: int|
                0 <= m < i && graph.cost(current as int, (#[trigger] available@[m]) as int)
                    + graph.cost(available@[m] as int, end as int) <= remaining_budget
                    ==> out@.contains(available@[m]),
        decreases n - i,
    {
        let v = available[i];
        let c1 = graph.cost_between(current, v) as u64;
        let c2 = graph.cost_between(v, end) as u64;
        if c1 + c2 <= remaining_budget {
            proof {
                if out@.contains(v) {
                    let k = choose|k: int| 0 <= k < out@.len() && out@[k] == v;
                    let m = choose|m: int| 0 <= m < i && available@[m] == v;
                    assert(available@[m] == available@[i as int]);
                }
            }
            let ghost out0 = out@;
            out.push(v);
            proof {
                assert forall|m: int|
                    0 <= m < i + 1 && graph.cost(
                        current as int,
                        (#[trigger] available@[m]) as int,
                    ) + graph.cost(available@[m] as int, end as int)
                        <= remaining_budget implies out@.contains(available@[m]) by {
                    if m < i {
                        let k = choose|k: int| 0 <= k < out0.len() && out0[k] == available@[m];
                        assert(out@[k] == available@[m]);
                    } else {
                        assert(out@.last() == v);
                    }
                }
            }
        }
        i += 1;
    }
    proof {
        assert forall|v: usize| #[trigger]
            out@.contains(v) implies (available@.contains(v) && graph.cost(
            current as int,
            v as int,
        ) + graph.cost(v as int, end as int) <= remaining_budget) by {
            let k = choose|k: int| 0 <= k < out@.len() && out@[k] == v;
            let m = choose|m: int| 0 <= m < n && available@[m] == out@[k];
            assert(available@.contains(v));
        }
        assert forall|v: usize|
            available@.contains(v) && graph.cost(current as int, v as int) + graph.cost(
                v as int,
                end as int,
            ) <= remaining_budget implies #[trigger] out@.contains(v) by {
            let m = choose|m: int| 0 <= m < available@.len() && available@[m] == v;
        }
    }
    *available = out;
}

/// Ranks the available vertices by descending distance from `current`:
/// entry `i` of the result is the index (into `available`) of the vertex
/// with the `i`-th largest edge cost from `current`.
fn rank_by_distance(graph: &Graph, current: usize, available: &Vec<usize>) -> (r: Vec<usize>)
    requires
        graph.wf(),
        current < graph.n(),
        forall|k: int| 0 <= k < available@.len() ==> (#[trigger] available@[k]) < graph.n(),
    ensures
        r@.len() == available@.len(),
        forall|i: int| 0 <= i < r@.len() ==> (#[trigger] r@[i]) < available@.len(),
{
    let alen = available.len();
    let mut idxs: Vec<usize> = Vec::new();
    let mut i: usize = 0;
    while i < alen
        invariant
            i <= alen,
            idxs@.len() == i,
            forall|k: int| 0 <= k < i ==> (#[trigger] idxs@[k]) < alen,
        decreases alen - i,
    {
        idxs.push(i);
        i += 1;
    }
    let mut i: usize = 1;
    while i < alen
        invariant
            graph.wf(),
            current < graph.n(),
            alen == available@.len(),
            forall|k: int| 0 <= k < available@.len() ==> (#[trigger] available@[k]) < graph.n(),
            idxs@.len() == alen,
            1 <= i,
            forall|k: int| 0 <= k < idxs@.len() ==> (#[trigger] idxs@[k]) < alen,
        decreases alen - i,
    {
        let mut j: usize = i;
        let mut done = false;
        while j > 0 && !done
            invariant
                graph.wf(),
                current < graph.n(),
                alen == available@.len(),
                forall|k: int|
                    0 <= k < available@.len() ==> (#[trigger] available@[k]) < graph.n(),
                idxs@.len() == alen,
                j < alen,
                forall|k: int| 0 <= k < idxs@.len() ==> (#[trigger] idxs@[k]) < alen,
            decreases j + (if done { 0int } else { 1 }),
        {
            let a = idxs[j - 1];
            let b = idxs[j];
            if (graph.cost_between(current, available[a]) as u64) < (graph.cost_between(
                current,
                available[b],
            ) as u64) {
                idxs[j - 1] = b;
                idxs[j] = a;
                j -= 1;
            } else {
                done = true;
            }
        }
        i += 1;
    }
    idxs
}

impl SzwarcBoryczka {
    /// Chooses the next vertex for the path being improvised: from the
    /// harmony memory (possibly pitch-adjusted by the rank-based rule)
    /// with probability `hmcr`, otherwise uniformly at random among the
    /// available vertices.
    fn choose_node(
        &self,
        available: &Vec<usize>,
        harmony_memory: &HarmonyMemory,
        new_harmony: &Vec<usize>,
        graph: &Graph,
    ) -> (r: usize)
        requires
            graph.wf(),
            self.wf(),
            harmony_memory.wf(),
            forall|j: int|
                0 <= j < harmony_memory.entries().len() ==> (
                #[trigger] harmony_memory.entries()[j]).valid(graph),
            new_harmony@.len() >= 1,
            new_harmony@.last() < graph.n(),
            1 <= available@.len() <= crate::graph::MAX_VERTICES,
            forall|k: int| 0 <= k < available@.len() ==> (#[trigger] available@[k]) < graph.n(),
            forall|k: int|
                0 <= k < available@.len() ==> graph.prize((#[trigger] available@[k]) as int) >= 1,
        ensures
            available@.contains(r),
    {
        let r = uniform_rate(RATE_SCALE);
        if r < self.hmcr {
            let current = new_harmony[new_harmony.len() - 1];
            let k = uniform_rate(RATE_SCALE);
            if k < self.par {
                if available.len() == 1 {
                    let chosen = available[0];
                    proof {
                        assert(available@.contains(chosen)) by {
                            assert(available@[0] == chosen);
                        }
                    }
                    return chosen;
                }
                let alen = available.len();
                let dr = rank_by_distance(graph, current, available);
                let mut weights: Vec<u64> = Vec::new();
                let mut i: usize = 0;
                while i < alen
                    invariant
                        alen == available@.len() <= crate::graph::MAX_VERTICES,
                        2 <= alen,
                        dr@.len() == alen,
                        forall|m: int| 0 <= m < dr@.len() ==> (#[trigger] dr@[m]) < alen,
                        i <= alen,
                        weights@.len() == i,
                        forall|m: int| 0 <= m < i ==> (#[trigger] weights@[m]) <= 5 * 65536,
                        i >= 1 ==> weights@[0] >= 4,
                    decreases alen - i,
                {
                    let w: u64 = 4 * ((alen - 1 - i) as u64) + (dr[i] as u64);
                    weights.push(w);
                    i += 1;
                }
                proof {
                    lemma_weight_sum_bound(weights@, 5 * 65536int);
                    assert(weights@.len() * (5 * 65536int) <= 65536 * (5 * 65536int))
                        by (nonlinear_arith)
                        requires
                            weights@.len() <= 65536,
                    ;
                }
                let c = weighted_choice(&weights);
                let chosen = available[c];
                proof {
                    assert(available@.contains(chosen)) by {
                        assert(available@[c as int] == chosen);
                    }
                }
                chosen
            } else {
                proof {
                    lemma_followers_positive(
                        harmony_memory.entries(),
                        current,
                        available@,
                        graph,
                    );
                    let fs = followers(harmony_memory.entries(), current, available@);
                    if fs.len() > 0 {
                        assert(fs[0].1 >= 1);
                    }
                    assert(graph.prize(available@[0] as int) >= 1);
                }
                harmony_memory.choose_next(current, available, graph)
            }
        } else {
            let c = uniform_below(available.len());
            let chosen = available[c];
            proof {
                assert(available@.contains(chosen)) by {
                    assert(available@[c as int] == chosen);
                }
            }
            chosen
        }
    }

    /// Runs the whole harmony search: seeds the memory with random
    /// feasible paths, improvises `iterations` new paths biased by the
    /// memory, inserts each back, and returns the best solution found.
    /// Succeeds exactly when the direct edge from `start` to `end` fits
    /// the budget.
    pub fn search(&self, graph: &Graph, start: usize, end: usize, budget: u64) -> (r: Option<
        Solution,
    >)
        requires
            graph.wf(),
            self.wf(),
            start < graph.n(),
            end < graph.n(),
            start != end,
            forall|v: usize|
                v < graph.n() && v != start && v != end ==> graph.prize(v as int) >= 1,
        ensures
            r is Some <==> graph.cost(start as int, end as int) <= budget,
            r matches Some(s) ==> s.valid(graph) && s.connects(start, end) && s.cost <= budget,
    {
        let generated = HarmonyMemory::generate(
            graph,
            self.harmony_memory_size,
            start,
            end,
            budget,
        );
        let mut harmony_memory = match generated {
            Some(h) => h,
            None => {
                return None;
            },
        };
        let n = graph.vertex_count();
        let mut iter: usize = 0;
        while iter < self.iterations
            invariant
                graph.wf(),
                self.wf(),
                n == graph.n() <= crate::graph::MAX_VERTICES,
                start < n,
                end < n,
                start != end,
                forall|v: usize|
                    v < graph.n() && v != start && v != end ==> graph.prize(v as int) >= 1,
                graph.cost(start as int, end as int) <= budget,
                harmony_memory.wf(),
                harmony_memory.entries().len() >= 1,
                harmony_memory.entries_ok(graph, start, end, budget),
                iter <= self.iteration_count(),
            decreases self.iteration_count() - iter,
        {
            let mut new_harmony: Vec<usize> = Vec::new();
            new_harmony.push(start);
            let mut current_cost: u64 = 0;
            let mut available: Vec<usize> = Vec::new();
            let mut v: usize = 0;
            while v < n
                invariant
                    graph.wf(),
                    n == graph.n(),
                    start < n,
                    end < n,
                    start != end,
                    v <= n,
                    forall|k: int|
                        0 <= k < available@.len() ==> {
                            &&& (#[trigger] available@[k]) < v
                            &&& available@[k] != start
                            &&& available@[k] != end
                        },
                    available@.no_duplicates(),
                    available@.len() == v - (if start < v { 1int } else { 0 }) - (if end < v {
                        1int
                    } else {
                        0
                    }),
                decreases n - v,
            {
                if v != start && v != end {
                    available.push(v);
                }
                v += 1;
            }
            filter_available_nodes(&mut available, graph, budget, start, end);
            proof {
                assert forall|k: int|
                    0 <= k < available@.len() implies 0 + graph.cost(
                        start as int,
                        (#[trigger] available@[k]) as int,
                    ) + graph.cost(available@[k] as int, end as int) <= budget by {
                    assert(available@.contains(available@[k]));
                }
            }
            while available.len() > 0
                invariant
                    graph.wf(),
                    self.wf(),
                    n == graph.n() <= crate::graph::MAX_VERTICES,
                    start < n,
                    end < n,
                    start != end,
                    forall|u: usize|
                        u < graph.n() && u != start && u != end ==> graph.prize(u as int) >= 1,
                    graph.cost(start as int, end as int) <= budget,
                    harmony_memory.wf(),
                    harmony_memory.entries().len() >= 1,
                    harmony_memory.entries_ok(graph, start, end, budget),
                    forall|k: int|
                        0 <= k < available@.len() ==> {
                            &&& (#[trigger] available@[k]) < n
                            &&& available@[k] != start
                            &&& available@[k] != end
                        },
                    available@.no_duplicates(),
                    new_harmony@.len() >= 1,
                    new_harmony@[0] == start,
                    path_in_range(graph, new_harmony@),
                    new_harmony@.no_duplicates(),
                    forall|k: int|
                        0 <= k < new_harmony@.len() ==> (#[trigger] new_harmony@[k]) != end,
                    forall|k: int|
                        0 <= k < available@.len() ==> !new_harmony@.contains(
                            #[trigger] available@[k],
                        ),
                    current_cost == path_cost(graph, new_harmony@),
                    current_cost + graph.cost(new_harmony@.last() as int, end as int) <= budget,
                    forall|k: int|
                        0 <= k < available@.len() ==> current_cost + graph.cost(
                            new_harmony@.last() as int,
                            (#[trigger] available@[k]) as int,
                        ) + graph.cost(available@[k] as int, end as int) <= budget,
                    new_harmony@.len() + available@.len() <= n - 1,
                decreases available@.len(),
            {
                let chosen = self.choose_node(&available, &harmony_memory, &new_harmony, graph);
                let mut idx: usize = 0;
                while idx < available.len() && available[idx] != chosen
                    invariant
                        available@.contains(chosen),
                        idx <= available@.len(),
                        forall|k: int| 0 <= k < idx ==> (#[trigger] available@[k]) != chosen,
                    decreases available@.len() - idx,
                {
                    idx += 1;
                }
                proof {
                    if idx == available@.len() {
                        let m = choose|m: int|
                            0 <= m < available@.len() && available@[m] == chosen;
                        assert(false);
                    }
                }
                let ghost avail0 = available@;
                available.remove(idx);
                let last = new_harmony[new_harmony.len() - 1];
                let w = graph.cost_between(last, chosen) as u64;
                let ghost p0 = new_harmony@;
                proof {
                    lemma_cost_bound(graph, new_harmony@);
                    assert(new_harmony@.len() * (u32::MAX as int) <= 65536 * (u32::MAX as int))
                        by (nonlinear_arith)
                        requires
                            new_harmony@.len() <= 65536,
                    ;
                }
                new_harmony.push(chosen);
                current_cost = current_cost + w;
                proof {
                    assert(new_harmony@.drop_last() =~= p0);
                    assert(forall|k: int|
                        0 <= k < available@.len() ==> (#[trigger] available@[k]) == avail0[k]
                            || available@[k] == avail0[k + 1]);
                }
                filter_available_nodes(&mut available, graph, budget - current_cost, chosen, end);
                proof {
                    assert forall|k: int|
                        0 <= k < available@.len() implies current_cost + graph.cost(
                            chosen as int,
                            (#[trigger] available@[k]) as int,
                        ) + graph.cost(available@[k] as int, end as int) <= budget by {
                        assert(available@.contains(available@[k]));
                    }
                }
            }
            let ghost pf = new_harmony@;
            proof {
                lemma_cost_bound(graph, new_harmony@);
            }
            new_harmony.push(end);
            proof {
                assert(new_harmony@.drop_last() =~= pf);
            }
            let sol = Solution::evaluate(new_harmony, graph);
            proof {
                crate::harmony_memory::lemma_ins_pos(harmony_memory.entries(), sol.score);
            }
            harmony_memory.insert(sol);
            iter += 1;
        }
        harmony_memory.into_best()
    }
}

} // verus!
