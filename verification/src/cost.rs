use vstd::prelude::*;
use vstd::arithmetic::div_mod::lemma_div_is_ordered_by_denominator;

verus! {

/// Scale factor applied to the smoothed negative-log-likelihood style score.
pub const COST_SCALE: i64 = 1000;

/// Upper bound on every cost a model may hold.  Costs derived from
/// `calc_cost` on 32-bit counts always stay below it, and it leaves ample
/// headroom before `i64` overflow when costs are summed along a path.
pub const MAX_COST: i64 = 10_000_000_000_000;

/// Statistical cost of an event seen `n` times among `c` total tokens drawn
/// from a vocabulary of `v` kinds: a monotone-decreasing function of the
/// smoothed relative frequency, so more frequent events score lower.  The
/// unseen case (`n == 0`) gives the largest, still finite, value.
pub open spec fn spec_calc_cost(n: int, c: int, v: int) -> int {
    (COST_SCALE * (c + v + 1)) / (n + 1)
}

pub fn calc_cost(n: u32, c: u32, v: u32) -> (r: i64)
    ensures
        r == spec_calc_cost(n as int, c as int, v as int),
        0 <= r <= MAX_COST,
{
    let num: i64 = COST_SCALE * (c as i64 + v as i64 + 1);
    proof {
        lemma_div_is_ordered_by_denominator(num as int, 1, n as int + 1);
    }
    num / (n as i64 + 1)
}

/// More frequent events never cost more: the heart of the smoothing scheme.
pub proof fn lemma_calc_cost_monotone(n1: int, n2: int, c: int, v: int)
    requires
        0 <= n1 <= n2,
        0 <= c,
        0 <= v,
    ensures
        spec_calc_cost(n2, c, v) <= spec_calc_cost(n1, c, v),
{
    lemma_div_is_ordered_by_denominator(COST_SCALE * (c + v + 1), n1 + 1, n2 + 1);
}

} // verus!
