use vstd::prelude::*;

use rand::distributions::Distribution;
use rand::distributions::WeightedIndex;
use rand::Rng;

verus! {

/// Fixed-point scale of a prize-to-cost ratio: a ratio of one is
/// represented as `DESIR_SCALE`.
pub const DESIR_SCALE: u64 = 1000;

/// Cap on a single desirability weight, so that any `MAX_VERTICES` of them
/// sum well below `u64::MAX`.
pub const DESIR_CAP: u64 = 0x8000_0000;

/// Sum of a list of sampling weights.
pub open spec fn weight_sum(s: Seq<u64>) -> int
    decreases s.len(),
{
    if s.len() == 0 {
        0
    } else {
        weight_sum(s.drop_last()) + s.last()
    }
}

/// A list of weights each at most `bound` sums to at most `len * bound`.
pub proof fn lemma_weight_sum_bound(s: Seq<u64>, bound: int)
    requires
        forall|i: int| 0 <= i < s.len() ==> (#[trigger] s[i]) <= bound,
    ensures
        weight_sum(s) <= s.len() * bound,
    decreases s.len(),
{
    if s.len() > 0 {
        lemma_weight_sum_bound(s.drop_last(), bound);
        assert((s.len() - 1) * bound + bound == s.len() * bound) by (nonlinear_arith);
    }
}

/// Relies on rand's `WeightedIndex::new` and its `sample` with
/// `thread_rng`: the drawn index is in range and has a positive weight (a
/// zero-weight index is never drawn), and `new` only fails on an empty,
/// all-zero or overflowing weight list, which the preconditions rule out.
#[verifier::external_body]
pub(crate) fn weighted_choice(weights: &Vec<u64>) -> (r: usize)
    requires
        weights@.len() > 0,
        exists|i: int| 0 <= i < weights@.len() && (#[trigger] weights@[i]) > 0,
        weight_sum(weights@) <= u64::MAX,
    ensures
        r < weights@.len(),
        weights@[r as int] > 0,
{
    let dist = WeightedIndex::new(weights.iter()).unwrap();
    dist.sample(&mut rand::thread_rng())
}

/// Relies on rand's `Rng::gen_range` with `thread_rng`: a uniformly random
/// value of the non-empty half-open range `0..n`.
#[verifier::external_body]
pub(crate) fn uniform_below(n: usize) -> (r: usize)
    requires
        n > 0,
    ensures
        r < n,
{
    rand::thread_rng().gen_range(0..n)
}

/// Relies on rand's `Rng::gen_range` with `thread_rng`: a uniformly random
/// value of the closed range `0..=hi`.
#[verifier::external_body]
pub(crate) fn uniform_rate(hi: u64) -> (r: u64)
    ensures
        r <= hi,
{
    rand::thread_rng().gen_range(0..=hi)
}

/// Scaled prize-to-cost ratio, clamped to `1..=DESIR_CAP` for a positive
/// prize and zero for a zero prize, so that a vertex is sampleable exactly
/// when it carries a prize.
pub open spec fn desir_base(prize: u32, cost: u32) -> u64 {
    if prize == 0 {
        0u64
    } else if cost == 0 {
        DESIR_CAP
    } else {
        let q = (prize * DESIR_SCALE) / (cost as int);
        if q < 1 {
            1u64
        } else if q > DESIR_CAP {
            DESIR_CAP
        } else {
            q as u64
        }
    }
}

/// `x` raised to the power `p`, saturating at `DESIR_CAP`.
pub open spec fn sat_pow(x: u64, p: nat) -> u64
    decreases p,
{
    if p == 0 {
        1u64
    } else {
        let r = x * sat_pow(x, (p - 1) as nat);
        if r > DESIR_CAP {
            DESIR_CAP
        } else {
            r as u64
        }
    }
}

pub proof fn lemma_sat_pow_range(x: u64, p: nat)
    requires
        x <= DESIR_CAP,
    ensures
        sat_pow(x, p) <= DESIR_CAP,
        x >= 1 ==> sat_pow(x, p) >= 1,
        p >= 1 && x == 0 ==> sat_pow(x, p) == 0,
    decreases p,
{
    if p > 0 {
        lemma_sat_pow_range(x, (p - 1) as nat);
        let y = sat_pow(x, (p - 1) as nat);
        if x >= 1 && y >= 1 {
            assert(x * y >= 1) by (nonlinear_arith)
                requires
                    x >= 1,
                    y >= 1,
            ;
        }
    }
}

/// The desirability of stepping onto a vertex: its prize-to-cost ratio
/// raised to the configured power, as a bounded sampling weight. It is
/// positive exactly when the power is zero or the prize is positive.
pub open spec fn desir_weight(prize: u32, cost: u32, power: u32) -> u64 {
    sat_pow(desir_base(prize, cost), power as nat)
}

/// Computes `desir_weight` executably.
pub fn desirability_weight(prize: u32, cost: u32, power: u32) -> (r: u64)
    ensures
        r == desir_weight(prize, cost, power),
        r <= DESIR_CAP,
        (r > 0 <==> (power == 0 || prize > 0)),
{
    let base: u64 = if prize == 0 {
        0u64
    } else if cost == 0 {
        DESIR_CAP
    } else {
        let q: u64 = (prize as u64 * DESIR_SCALE) / (cost as u64);
        if q < 1 {
            1u64
        } else if q > DESIR_CAP {
            DESIR_CAP
        } else {
            q
        }
    };
    assert(base == desir_base(prize, cost));
    let mut acc: u64 = 1;
    let mut i: u32 = 0;
    while i < power
        invariant
            base == desir_base(prize, cost),
            base <= DESIR_CAP,
            i <= power,
            acc == sat_pow(base, i as nat),
            acc <= DESIR_CAP,
        decreases power - i,
    {
        proof {
            assert(base * acc <= DESIR_CAP * DESIR_CAP) by (nonlinear_arith)
                requires
                    0 <= base <= DESIR_CAP,
                    0 <= acc <= DESIR_CAP,
            ;
        }
        let next: u64 = base * acc;
        acc = if next > DESIR_CAP {
            DESIR_CAP
        } else {
            next
        };
        i += 1;
        proof {
            assert(acc == sat_pow(base, i as nat));
        }
    }
    proof {
        lemma_sat_pow_range(base, power as nat);
    }
    acc
}

} // verus!
