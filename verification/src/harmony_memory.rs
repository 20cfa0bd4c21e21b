use vstd::prelude::*;

use crate::graph::Graph;
use crate::solution::Solution;
use crate::solution::path_in_range;
use crate::solution::path_cost;

verus! {

/// Largest capacity a harmony memory may be configured with; keeps every
/// sum of stored scores within `u64`.
pub const MAX_CAPACITY: usize = 65536;

/// Ascending by score, the order the memory maintains.
pub open spec fn sorted_by_score(s: Seq<Solution>) -> bool {
    forall|i: int, j: int| 0 <= i <= j < s.len() ==> (#[trigger] s[i]).score <= (#[trigger] s[j]).score
}

/// First index of `s` whose score is strictly greater than `v`; `s.len()`
/// if there is none. This is where an insertion keeps the order.
pub open spec fn ins_pos(s: Seq<Solution>, v: u64) -> int
    decreases s.len(),
{
    if s.len() == 0 {
        0
    } else if s[0].score > v {
        0
    } else {
        1 + ins_pos(s.drop_first(), v)
    }
}

pub proof fn lemma_ins_pos(s: Seq<Solution>, v: u64)
    ensures
        0 <= ins_pos(s, v) <= s.len(),
        forall|k: int| 0 <= k < ins_pos(s, v) ==> (#[trigger] s[k]).score <= v,
        ins_pos(s, v) < s.len() ==> s[ins_pos(s, v)].score > v,
    decreases s.len(),
{
    if s.len() > 0 && !(s[0].score > v) {
        lemma_ins_pos(s.drop_first(), v);
        assert(forall|k: int|
            1 <= k < ins_pos(s, v) ==> (#[trigger] s[k]).score == s.drop_first()[k - 1].score);
    }
}

/// What `insert` does to the stored sequence: under capacity the solution
/// is placed at its sorted position; at capacity it replaces the current
/// minimum (index 0) if strictly better, shifting the entries before its
/// position down by one; otherwise it is discarded.
pub open spec fn insert_spec(s: Seq<Solution>, cap: int, x: Solution) -> Seq<Solution> {
    let pos = ins_pos(s, x.score);
    if s.len() < cap {
        s.take(pos) + seq![x] + s.skip(pos)
    } else if s.len() > 0 && s[0].score < x.score {
        s.subrange(1, pos) + seq![x] + s.skip(pos)
    } else {
        s
    }
}

/// A capacity-bounded pool of past solutions, kept sorted ascending by
/// score, used to bias the construction of new paths.
pub struct HarmonyMemory {
    harmonies: Vec<Solution>,
    harmony_memory_size: usize,
}

impl HarmonyMemory {
    /// The stored solutions, ascending by score.
    pub closed spec fn entries(&self) -> Seq<Solution> {
        self.harmonies@
    }

    /// The configured capacity.
    pub closed spec fn capacity(&self) -> int {
        self.harmony_memory_size as int
    }

    /// Size never exceeds the configured capacity and the order is always
    /// non-decreasing by score.
    pub open spec fn wf(&self) -> bool {
        &&& 1 <= self.capacity() <= MAX_CAPACITY
        &&& self.entries().len() <= self.capacity()
        &&& sorted_by_score(self.entries())
    }

    /// Every stored solution is a valid path of `g` from `start` to `end`
    /// within `budget`.
    pub open spec fn entries_ok(&self, g: &Graph, start: usize, end: usize, budget: u64) -> bool {
        forall|i: int|
            0 <= i < self.entries().len() ==> {
                &&& (#[trigger] self.entries()[i]).valid(g)
                &&& self.entries()[i].connects(start, end)
                &&& self.entries()[i].cost <= budget
            }
    }

    /// An empty memory of the given capacity.
    pub fn new(capacity: usize) -> (r: HarmonyMemory)
        requires
            1 <= capacity <= MAX_CAPACITY,
        ensures
            r.wf(),
            r.capacity() == capacity,
            r.entries() =~= Seq::<Solution>::empty(),
    {
        HarmonyMemory { harmonies: Vec::new(), harmony_memory_size: capacity }
    }

    /// The stored solutions, for read-only traversal.
    pub fn iter(&self) -> (r: &Vec<Solution>)
        ensures
            r@ == self.entries(),
    {
        &self.harmonies
    }

    /// Consumes the memory and hands out its best entry: the last one,
    /// since the order is ascending by score.
    pub fn into_best(self) -> (r: Option<Solution>)
        requires
            self.wf(),
        ensures
            match r {
                Some(s) => {
                    &&& self.entries().len() > 0
                    &&& s == self.entries().last()
                    &&& forall|i: int|
                        0 <= i < self.entries().len() ==> (#[trigger] self.entries()[i]).score
                            <= s.score
                },
                None => self.entries().len() == 0,
            },
    {
        let mut v = self.harmonies;
        v.pop()
    }

    /// Index at which `score` must be inserted to keep the order: the
    /// first index holding a strictly greater score.
    fn find_pos(&self, score: u64) -> (r: usize)
        ensures
            r == ins_pos(self.entries(), score),
    {
        let n = self.harmonies.len();
        let mut i: usize = 0;
        while i < n && self.harmonies[i].score <= score
            invariant
                n == self.entries().len(),
                i <= n,
                forall|k: int| 0 <= k < i ==> (#[trigger] self.entries()[k]).score <= score,
            decreases n - i,
        {
            i += 1;
        }
        proof {
            lemma_ins_pos(self.entries(), score);
            let pos = ins_pos(self.entries(), score);
            if i < pos {
                assert(self.entries()[i as int].score <= score);
            }
            if pos < i {
                assert(self.entries()[pos].score > score);
            }
        }
        i
    }

    /// Inserts a solution, preserving the ascending order, the capacity
    /// bound, and (if at capacity) evicting the current minimum exactly
    /// when the new score is strictly greater.
    pub fn insert(&mut self, solution: Solution)
        requires
            old(self).wf(),
        ensures
            final(self).wf(),
            final(self).capacity() == old(self).capacity(),
            final(self).entries() == insert_spec(
                old(self).entries(),
                old(self).capacity(),
                solution,
            ),
            forall|i: int|
                0 <= i < final(self).entries().len() ==> (#[trigger] final(self).entries()[i])
                    == solution || old(self).entries().contains(final(self).entries()[i]),
    {
        proof {
            lemma_ins_pos(old(self).entries(), solution.score);
        }
        let ghost s0 = self.entries();
        let pos = self.find_pos(solution.score);
        if self.harmonies.len() < self.harmony_memory_size {
            self.harmonies.insert(pos, solution);
            proof {
                assert(self.entries() =~= s0.take(pos as int) + seq![solution] + s0.skip(
                    pos as int,
                ));
                lemma_sorted_insert(s0, self.capacity(), solution);
            }
        } else if self.harmonies.len() > 0 && self.harmonies[0].score < solution.score {
            self.harmonies.remove(0);
            self.harmonies.insert(pos - 1, solution);
            proof {
                assert(self.entries() =~= s0.subrange(1, pos as int) + seq![solution] + s0.skip(
                    pos as int,
                ));
                lemma_sorted_insert(s0, self.capacity(), solution);
            }
        } else {
            proof {
                assert(self.entries() == insert_spec(s0, self.capacity(), solution));
            }
        }
    }

    /// Chooses the vertex to visit after `current`: a follower of
    /// `current` drawn from the stored solutions weighted by their scores,
    /// or, when no stored path continues `current` with an available
    /// vertex, an available vertex weighted by its prize-to-cost ratio.
    pub fn choose_next(&self, current: usize, available: &Vec<usize>, graph: &Graph) -> (r: usize)
        requires
            graph.wf(),
            self.wf(),
            forall|j: int|
                0 <= j < self.entries().len() ==> (#[trigger] self.entries()[j]).valid(graph),
            current < graph.n(),
            1 <= available@.len() <= crate::graph::MAX_VERTICES,
            forall|k: int| 0 <= k < available@.len() ==> (#[trigger] available@[k]) < graph.n(),
            followers(self.entries(), current, available@).len() > 0 ==> exists|i: int|
                0 <= i < followers(self.entries(), current, available@).len() && (
                #[trigger] followers(self.entries(), current, available@)[i]).1 > 0,
            followers(self.entries(), current, available@).len() == 0 ==> exists|k: int|
                0 <= k < available@.len() && graph.prize((#[trigger] available@[k]) as int) > 0,
        ensures
            available@.contains(r),
            followers(self.entries(), current, available@).len() > 0 ==> exists|i: int|
                0 <= i < followers(self.entries(), current, available@).len() && (
                #[trigger] followers(self.entries(), current, available@)[i]).0 == r && followers(
                    self.entries(),
                    current,
                    available@,
                )[i].1 > 0,
    {
        let hs_len = self.harmonies.len();
        let mut pairs: Vec<(usize, u64)> = Vec::new();
        let mut weights: Vec<u64> = Vec::new();
        let mut i: usize = 0;
        while i < hs_len
            invariant
                graph.wf(),
                hs_len == self.entries().len(),
                i <= hs_len,
                pairs@ == followers(self.entries().take(i as int), current, available@),
                weights@.len() == pairs@.len(),
                forall|m: int| 0 <= m < pairs@.len() ==> (#[trigger] weights@[m]) == pairs@[m].1,
            decreases hs_len - i,
        {
            let sol = &self.harmonies[i];
            let plen = sol.path.len();
            let mut j: usize = 0;
            while j < plen && sol.path[j] != current
                invariant
                    plen == sol.path@.len(),
                    j <= plen,
                    forall|k: int| 0 <= k < j ==> (#[trigger] sol.path@[k]) != current,
                decreases plen - j,
            {
                j += 1;
            }
            proof {
                lemma_first_pos(sol.path@, current);
                let fp = first_pos(sol.path@, current);
                if j < plen {
                    assert(sol.path@.contains(current)) by {
                        assert(sol.path@[j as int] == current);
                    }
                    if fp < j {
                        assert(sol.path@[fp] != current);
                    }
                    if j < fp {
                        assert(sol.path@[j as int] != current);
                    }
                    assert(fp == j);
                } else {
                    if sol.path@.contains(current) {
                        assert(sol.path@[fp] == current);
                    }
                    assert(first_pos(sol.path@, current) == -1);
                }
                assert(self.entries().take(i + 1).drop_last() =~= self.entries().take(i as int));
                assert(self.entries().take(i + 1).last() == self.entries()[i as int]);
            }
            if j < plen && j + 1 < plen {
                let f = sol.path[j + 1];
                if crate::solution::vec_contains(available, f) {
                    pairs.push((f, sol.score));
                    weights.push(sol.score);
                }
            }
            i += 1;
        }
        proof {
            assert(self.entries().take(hs_len as int) =~= self.entries());
        }
        let ghost fs = followers(self.entries(), current, available@);
        if pairs.len() > 0 {
            proof {
                lemma_followers_props(self.entries(), current, available@);
                assert forall|k: int| 0 <= k < weights@.len() implies (#[trigger] weights@[k])
                    <= 281474976645120int by {
                    let j = choose|j: int|
                        0 <= j < self.entries().len() && fs[k].1 == (
                        #[trigger] self.entries()[j]).score && self.entries()[j].path@.contains(
                            fs[k].0,
                        );
                    crate::solution::lemma_score_bound(graph, self.entries()[j].path@);
                    assert(self.entries()[j].path@.len() * (u32::MAX as int) <= 65536 * (
                    u32::MAX as int)) by (nonlinear_arith)
                        requires
                            self.entries()[j].path@.len() <= 65536,
                    ;
                }
                crate::sampling::lemma_weight_sum_bound(weights@, 281474976645120int);
                assert(weights@.len() * 281474976645120int <= 65536 * 281474976645120int)
                    by (nonlinear_arith)
                    requires
                        weights@.len() <= 65536,
                ;
                let iw = choose|i: int| 0 <= i < fs.len() && (#[trigger] fs[i]).1 > 0;
                assert(weights@[iw] == fs[iw].1);
            }
            let c = crate::sampling::weighted_choice(&weights);
            let chosen = pairs[c].0;
            proof {
                assert(fs[c as int].0 == chosen && fs[c as int].1 > 0);
            }
            chosen
        } else {
            let alen = available.len();
            let mut fallback: Vec<u64> = Vec::new();
            let mut k: usize = 0;
            while k < alen
                invariant
                    graph.wf(),
                    current < graph.n(),
                    alen == available@.len() <= crate::graph::MAX_VERTICES,
                    forall|m: int|
                        0 <= m < available@.len() ==> (#[trigger] available@[m]) < graph.n(),
                    k <= alen,
                    fallback@.len() == k,
                    forall|m: int|
                        0 <= m < k ==> ((#[trigger] fallback@[m]) > 0 <==> graph.prize(
                            available@[m] as int,
                        ) > 0),
                    forall|m: int|
                        0 <= m < k ==> (#[trigger] fallback@[m])
                            <= crate::sampling::DESIR_CAP,
                decreases alen - k,
            {
                let v = available[k];
                let w = crate::sampling::desirability_weight(
                    graph.prize_of(v),
                    graph.cost_between(current, v),
                    1,
                );
                fallback.push(w);
                k += 1;
            }
            proof {
                crate::sampling::lemma_weight_sum_bound(
                    fallback@,
                    crate::sampling::DESIR_CAP as int,
                );
                assert(fallback@.len() * (crate::sampling::DESIR_CAP as int) <= 65536 * (
                crate::sampling::DESIR_CAP as int)) by (nonlinear_arith)
                    requires
                        fallback@.len() <= 65536,
                ;
                assert(fs.len() == 0);
                let kw = choose|k: int|
                    0 <= k < available@.len() && graph.prize((#[trigger] available@[k]) as int)
                        > 0;
                assert(fallback@[kw] > 0);
            }
            let c = crate::sampling::weighted_choice(&fallback);
            let chosen = available[c];
            proof {
                assert(available@.contains(chosen)) by {
                    assert(available@[c as int] == chosen);
                }
            }
            chosen
        }
    }
}

/// First index of `v` in `p`, or `-1` if `v` does not occur.
pub open spec fn first_pos(p: Seq<usize>, v: usize) -> int
    decreases p.len(),
{
    if p.len() == 0 {
        -1
    } else if p[0] == v {
        0
    } else {
        let r = first_pos(p.drop_first(), v);
        if r < 0 {
            -1
        } else {
            1 + r
        }
    }
}

pub proof fn lemma_first_pos(p: Seq<usize>, v: usize)
    ensures
        p.contains(v) ==> {
            &&& 0 <= first_pos(p, v) < p.len()
            &&& p[first_pos(p, v)] == v
            &&& forall|k: int| 0 <= k < first_pos(p, v) ==> p[k] != v
        },
        !p.contains(v) ==> first_pos(p, v) == -1,
    decreases p.len(),
{
    if p.len() > 0 && p[0] != v {
        let q = p.drop_first();
        lemma_first_pos(q, v);
        if p.contains(v) {
            let i = choose|i: int| 0 <= i < p.len() && p[i] == v;
            assert(q[i - 1] == v);
            assert(q.contains(v));
            assert(forall|k: int| 1 <= k < first_pos(p, v) ==> p[k] == q[k - 1]);
        } else {
            if q.contains(v) {
                let j = choose|j: int| 0 <= j < q.len() && q[j] == v;
                assert(p[j + 1] == v);
            }
        }
    } else if p.len() > 0 {
        assert(p.contains(v)) by {
            assert(p[0] == v);
        }
    }
}

/// The vertex standing right after the first occurrence of `current` in
/// the path, if both exist.
pub open spec fn follower_in(p: Seq<usize>, current: usize) -> Option<usize> {
    let fp = first_pos(p, current);
    if fp >= 0 && fp + 1 < p.len() {
        Some(p[fp + 1])
    } else {
        None
    }
}

/// The weighted follower candidates a memory offers for `current`: for
/// each stored solution whose path shows `current` immediately followed by
/// a still-available vertex, that follower paired with the solution's
/// score. Repeats stay as separate entries.
pub open spec fn followers(hs: Seq<Solution>, current: usize, avail: Seq<usize>) -> Seq<
    (usize, u64),
>
    decreases hs.len(),
{
    if hs.len() == 0 {
        Seq::empty()
    } else {
        let rest = followers(hs.drop_last(), current, avail);
        match follower_in(hs.last().path@, current) {
            Some(f) => if avail.contains(f) {
                rest.push((f, hs.last().score))
            } else {
                rest
            },
            None => rest,
        }
    }
}

/// Each follower candidate is available, and its weight is the score of a
/// stored solution whose path holds the follower.
pub proof fn lemma_followers_props(hs: Seq<Solution>, current: usize, avail: Seq<usize>)
    ensures
        followers(hs, current, avail).len() <= hs.len(),
        forall|i: int|
            0 <= i < followers(hs, current, avail).len() ==> avail.contains(
                (#[trigger] followers(hs, current, avail)[i]).0,
            ),
        forall|i: int|
            0 <= i < followers(hs, current, avail).len() ==> exists|j: int|
                0 <= j < hs.len() && (#[trigger] followers(hs, current, avail)[i]).1 == (
                #[trigger] hs[j]).score && hs[j].path@.contains(
                    followers(hs, current, avail)[i].0,
                ),
    decreases hs.len(),
{
    if hs.len() > 0 {
        lemma_followers_props(hs.drop_last(), current, avail);
        let rest = followers(hs.drop_last(), current, avail);
        let fs = followers(hs, current, avail);
        assert(forall|j: int| 0 <= j < hs.len() - 1 ==> hs.drop_last()[j] == (#[trigger] hs[j]));
        match follower_in(hs.last().path@, current) {
            Some(f) => {
                if avail.contains(f) {
                    let p = hs.last().path@;
                    let fp = first_pos(p, current);
                    assert(p[fp + 1] == f);
                    assert(p.contains(f));
                    assert(fs[fs.len() - 1].1 == hs[hs.len() - 1].score);
                }
            },
            None => {},
        }
    }
}

/// With valid stored solutions and only prize-carrying available vertices,
/// every follower candidate has a positive weight.
pub proof fn lemma_followers_positive(
    hs: Seq<Solution>,
    current: usize,
    avail: Seq<usize>,
    g: &Graph,
)
    requires
        forall|j: int| 0 <= j < hs.len() ==> (#[trigger] hs[j]).valid(g),
        forall|k: int| 0 <= k < avail.len() ==> g.prize((#[trigger] avail[k]) as int) >= 1,
    ensures
        forall|i: int|
            0 <= i < followers(hs, current, avail).len() ==> (#[trigger] followers(
                hs,
                current,
                avail,
            )[i]).1 >= 1,
{
    lemma_followers_props(hs, current, avail);
    let fs = followers(hs, current, avail);
    assert forall|i: int| 0 <= i < fs.len() implies (#[trigger] fs[i]).1 >= 1 by {
        let j = choose|j: int|
            0 <= j < hs.len() && fs[i].1 == (#[trigger] hs[j]).score && hs[j].path@.contains(
                fs[i].0,
            );
        let p = hs[j].path@;
        let idx = choose|idx: int| 0 <= idx < p.len() && p[idx] == fs[i].0;
        crate::solution::lemma_score_member(g, p, idx);
        assert(avail.contains(fs[i].0));
        let k = choose|k: int| 0 <= k < avail.len() && avail[k] == fs[i].0;
        assert(g.prize(avail[k] as int) >= 1);
    }
}

/// Builds one uniformly-random feasible path: visits the vertices other
/// than `start` and `end` in random order, keeps each only if the path
/// could still be closed to `end` within budget afterwards, then closes to
/// `end`. Fails exactly when even the direct edge from `start` to `end`
/// exceeds the budget.
pub(crate) fn random_path(start: usize, end: usize, budget: u64, graph: &Graph) -> (r: Option<
    Solution,
>)
    requires
        graph.wf(),
        start < graph.n(),
        end < graph.n(),
        start != end,
    ensures
        r is Some <==> graph.cost(start as int, end as int) <= budget,
        r matches Some(s) ==> s.valid(graph) && s.connects(start, end) && s.cost <= budget,
{
    if graph.cost_between(start, end) as u64 > budget {
        return None;
    }
    let n = graph.vertex_count();
    let mut avail: Vec<usize> = Vec::new();
    let mut v: usize = 0;
    while v < n
        invariant
            n == graph.n(),
            v <= n,
            start < n,
            end < n,
            start != end,
            forall|k: int|
                0 <= k < avail@.len() ==> {
                    &&& (#[trigger] avail@[k]) < v
                    &&& avail@[k] != start
                    &&& avail@[k] != end
                },
            avail@.no_duplicates(),
            avail@.len() == v - (if start < v { 1int } else { 0 }) - (if end < v {
                1int
            } else {
                0
            }),
        decreases n - v,
    {
        if v != start && v != end {
            avail.push(v);
        }
        v += 1;
    }
    let mut path: Vec<usize> = Vec::new();
    path.push(start);
    let mut cost: u64 = 0;
    while avail.len() > 0
        invariant
            graph.wf(),
            n == graph.n() <= crate::graph::MAX_VERTICES,
            start < n,
            end < n,
            start != end,
            budget >= graph.cost(start as int, end as int),
            forall|k: int|
                0 <= k < avail@.len() ==> {
                    &&& (#[trigger] avail@[k]) < n
                    &&& avail@[k] != start
                    &&& avail@[k] != end
                },
            avail@.no_duplicates(),
            path@.len() >= 1,
            path@[0] == start,
            path_in_range(graph, path@),
            path@.no_duplicates(),
            forall|k: int| 0 <= k < path@.len() ==> (#[trigger] path@[k]) != end,
            forall|k: int| 0 <= k < avail@.len() ==> !path@.contains(#[trigger] avail@[k]),
            cost == path_cost(graph, path@),
            cost + graph.cost(path@.last() as int, end as int) <= budget,
            path@.len() + avail@.len() <= n - 1,
        decreases avail@.len(),
    {
        let choice = crate::sampling::uniform_below(avail.len());
        let ghost old_avail = avail@;
        let node = avail.swap_remove(choice);
        proof {
            assert(avail@ =~= old_avail.update(choice as int, old_avail.last()).drop_last());
        }
        let last = path[path.len() - 1];
        proof {
            crate::solution::lemma_cost_bound(graph, path@);
            assert(path@.len() * (u32::MAX as int) <= 65536 * (u32::MAX as int))
                by (nonlinear_arith)
                requires
                    path@.len() <= 65536,
            ;
        }
        let w_to = graph.cost_between(last, node) as u64;
        let w_end = graph.cost_between(node, end) as u64;
        if cost + w_to + w_end <= budget {
            let ghost p0 = path@;
            path.push(node);
            cost = cost + w_to;
            proof {
                assert(path@.drop_last() =~= p0);
            }
        }
    }
    let ghost pfin = path@;
    path.push(end);
    proof {
        assert(path@.drop_last() =~= pfin);
    }
    Some(Solution::evaluate(path, graph))
}

impl HarmonyMemory {
    /// Repeatedly samples uniformly-random feasible paths until the memory is
    /// full. Since a sample fails exactly when the direct closing edge exceeds
    /// the budget, the memory either fills completely or stays empty.
    pub fn generate(
    graph: &Graph,
    harmony_memory_size: usize,
    start: usize,
    end: usize,
    budget: u64,
) -> (r: Option<HarmonyMemory>)
    requires
        graph.wf(),
        start < graph.n(),
        end < graph.n(),
        start != end,
        1 <= harmony_memory_size <= MAX_CAPACITY,
    ensures
        r is Some <==> graph.cost(start as int, end as int) <= budget,
        r matches Some(hm) ==> {
            &&& hm.wf()
            &&& hm.capacity() == harmony_memory_size
            &&& hm.entries().len() == harmony_memory_size
            &&& hm.entries_ok(graph, start, end, budget)
        },
{
    if graph.cost_between(start, end) as u64 > budget {
        return None;
    }
    let mut hm = HarmonyMemory::new(harmony_memory_size);
    let mut count: usize = 0;
    while count < harmony_memory_size
        invariant
            graph.wf(),
            start < graph.n(),
            end < graph.n(),
            start != end,
            graph.cost(start as int, end as int) <= budget,
            1 <= harmony_memory_size <= MAX_CAPACITY,
            hm.wf(),
            hm.capacity() == harmony_memory_size,
            hm.entries().len() == count <= harmony_memory_size,
            hm.entries_ok(graph, start, end, budget),
        decreases harmony_memory_size - count,
    {
        let sampled = random_path(start, end, budget, graph);
        match sampled {
            Some(sol) => {
                proof {
                    lemma_ins_pos(hm.entries(), sol.score);
                }
                hm.insert(sol);
            },
            None => {
                proof {
                    assert(false);
                }
            },
        }
        count += 1;
    }
    Some(hm)
}
}

/// Inserting with `insert_spec` keeps the sequence sorted, its length
/// within `cap`, and introduces no entry besides `x`.
pub proof fn lemma_sorted_insert(s: Seq<Solution>, cap: int, x: Solution)
    requires
        sorted_by_score(s),
        s.len() <= cap,
        cap >= 1,
    ensures
        sorted_by_score(insert_spec(s, cap, x)),
        insert_spec(s, cap, x).len() <= cap,
        forall|i: int|
            0 <= i < insert_spec(s, cap, x).len() ==> (#[trigger] insert_spec(s, cap, x)[i]) == x
                || s.contains(insert_spec(s, cap, x)[i]),
{
    lemma_ins_pos(s, x.score);
    let pos = ins_pos(s, x.score);
    let r = insert_spec(s, cap, x);
    if s.len() < cap {
        assert forall|i: int, j: int| 0 <= i <= j < r.len() implies r[i].score <= r[j].score by {
            if i < pos && j >= pos {
                assert(s[i].score <= x.score);
            }
        }
        assert forall|i: int| 0 <= i < r.len() implies r[i] == x || s.contains(r[i]) by {
            if i < pos {
                assert(r[i] == s[i]);
            } else if i > pos {
                assert(r[i] == s[i - 1]);
            }
        }
    } else if s.len() > 0 && s[0].score < x.score {
        assert(pos >= 1);
        assert forall|i: int, j: int| 0 <= i <= j < r.len() implies r[i].score <= r[j].score by {
            if i < pos - 1 && j >= pos - 1 {
                assert(s[i + 1].score <= x.score);
            }
        }
        assert forall|i: int| 0 <= i < r.len() implies r[i] == x || s.contains(r[i]) by {
            if i < pos - 1 {
                assert(r[i] == s[i + 1]);
            } else if i > pos - 1 {
                assert(r[i] == s[i]);
            }
        }
    }
}

} // verus!
