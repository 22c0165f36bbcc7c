//! The BOINC recent-average-credit decay.
//!
//! Credit decays with a seven-day half-life: an update after `diff`
//! seconds multiplies the running average by `2^(-diff / H)` and adds the
//! new work, weighted so that a steady contributor converges to their
//! daily rate.  The weight is computed in fixed point: full half-lives
//! are halvings, and the remaining fraction `f` of a half-life is handled
//! through the order-five alternating series for `exp(-f ln 2)`.

use crate::fixed::SCALE;
use vstd::arithmetic::div_mod::lemma_div_is_ordered;
use vstd::arithmetic::div_mod::lemma_div_multiples_vanish;
use vstd::arithmetic::div_mod::lemma_div_nonincreasing;
use vstd::arithmetic::div_mod::lemma_div_pos_is_pos;
use vstd::arithmetic::power2::lemma_pow2_pos;
use vstd::arithmetic::power2::lemma_pow2_strictly_increases;
use vstd::arithmetic::power2::lemma_pow2_unfold;
use vstd::arithmetic::power2::lemma2_to64;
use vstd::arithmetic::power2::pow2;
use vstd::prelude::*;

verus! {

/// Seconds per day.
pub const SECS_PER_DAY: u64 = 86400;

/// The credit half-life: seven days, in seconds.
pub const HALF_LIFE_SECS: u64 = 7 * 86400;

/// The credit half-life in fixed-point seconds.
pub const HALF_LIFE_SCALED: u64 = 60_480_000_000_000;

/// `ln 2` in fixed point, rounded down.
pub const LN2_SCALED: u64 = 69_314_718;

/// The small-interval threshold: when `1 - weight` is at most one
/// millionth, the quotient `(1 - weight) / diff_days` is replaced by its
/// zero-interval limit `ln 2 / H` (per second).
pub const SMALL_WEIGHT_CUTOFF: u64 = 100;

/// The fractional part of the elapsed interval, as `f * ln 2` in fixed
/// point, where `f` is the fraction of a half-life that remains after
/// whole half-lives are removed.
pub open spec fn weight_y(diff: u64) -> int {
    (diff as int % (HALF_LIFE_SCALED as int)) * (LN2_SCALED as int) / (HALF_LIFE_SCALED as int)
}

/// The number of whole half-lives in the elapsed interval.
pub open spec fn weight_halvings(diff: u64) -> int {
    diff as int / (HALF_LIFE_SCALED as int)
}

/// The order-five alternating series for `exp(-y)` in fixed point, for
/// `0 <= y < 1` (scaled).
pub open spec fn frac_weight(y: int) -> int {
    let t1 = y;
    let t2 = t1 * y / (2 * SCALE as int);
    let t3 = t2 * y / (3 * SCALE as int);
    let t4 = t3 * y / (4 * SCALE as int);
    let t5 = t4 * y / (5 * SCALE as int);
    SCALE - t1 + t2 - t3 + t4 - t5
}

/// The decay weight `2^(-diff / H)` in fixed point: `SCALE` means no
/// decay, `0` means the interval swallowed everything.
pub open spec fn weight_of(diff: u64) -> int {
    frac_weight(weight_y(diff)) / pow2(weight_halvings(diff) as nat) as int
}

pub proof fn lemma_y_bounds(diff: u64)
    ensures
        0 <= weight_y(diff) < LN2_SCALED,
        diff == 0 ==> weight_y(diff) == 0,
{
    let r = diff as int % (HALF_LIFE_SCALED as int);
    assert(0 <= r < HALF_LIFE_SCALED);
    lemma_div_pos_is_pos(r * LN2_SCALED, HALF_LIFE_SCALED as int);
    assert(r * LN2_SCALED <= (HALF_LIFE_SCALED - 1) * LN2_SCALED) by (nonlinear_arith)
        requires
            r <= HALF_LIFE_SCALED - 1,
            0 <= r,
    ;
    lemma_div_is_ordered(r * LN2_SCALED, (HALF_LIFE_SCALED - 1) * LN2_SCALED as int,
        HALF_LIFE_SCALED as int);
    assert((HALF_LIFE_SCALED - 1) * LN2_SCALED as int / (HALF_LIFE_SCALED as int) == LN2_SCALED
        - 1) by (nonlinear_arith);
}

/// Products of values below one scaled unit stay far below `u64::MAX`.
proof fn lemma_mul_small(a: int, b: int)
    requires
        0 <= a < SCALE,
        0 <= b < SCALE,
    ensures
        0 <= a * b < 10_000_000_000_000_000,
{
    assert(0 <= a * b < 10_000_000_000_000_000) by (nonlinear_arith)
        requires
            0 <= a < 100_000_000,
            0 <= b < 100_000_000,
    ;
}

/// Each series term is at most its predecessor and never negative.
proof fn lemma_term_step(t: int, y: int, k: int)
    requires
        0 <= t,
        0 <= y < SCALE,
        1 <= k <= 5,
    ensures
        0 <= t * y / (k * SCALE) <= t,
{
    lemma_div_pos_is_pos(t * y, k * SCALE);
    assert(t * y <= t * (k * SCALE)) by (nonlinear_arith)
        requires
            0 <= t,
            0 <= y,
            y < SCALE,
            1 <= k,
    ;
    lemma_div_is_ordered(t * y, t * (k * SCALE), k * SCALE);
    lemma_div_multiples_vanish(t, k * SCALE);
    assert(t * (k * SCALE) == (k * SCALE) * t) by (nonlinear_arith);
}

pub proof fn lemma_frac_weight_bounds(y: int)
    requires
        0 <= y < SCALE,
    ensures
        0 < frac_weight(y) <= SCALE,
        y == 0 ==> frac_weight(y) == SCALE,
{
    let t1 = y;
    let t2 = t1 * y / (2 * SCALE as int);
    let t3 = t2 * y / (3 * SCALE as int);
    let t4 = t3 * y / (4 * SCALE as int);
    let t5 = t4 * y / (5 * SCALE as int);
    lemma_term_step(t1, y, 2);
    lemma_term_step(t2, y, 3);
    lemma_term_step(t3, y, 4);
    lemma_term_step(t4, y, 5);
}

pub proof fn lemma_weight_bounds(diff: u64)
    ensures
        0 <= weight_of(diff) <= SCALE,
        diff == 0 ==> weight_of(diff) == SCALE,
        weight_of(diff) < SCALE ==> diff > 0,
{
    lemma_y_bounds(diff);
    lemma_frac_weight_bounds(weight_y(diff));
    let fw = frac_weight(weight_y(diff));
    let k = weight_halvings(diff);
    assert(k >= 0);
    lemma_pow2_pos(k as nat);
    lemma_div_pos_is_pos(fw, pow2(k as nat) as int);
    lemma_div_nonincreasing(fw, pow2(k as nat) as int);
    if diff == 0 {
        assert(k == 0);
        assert(pow2(0) == 1) by {
            lemma2_to64();
        }
        assert(weight_of(diff) == fw);
    }
}

/// `2^k` for a small exponent.
fn pow2_u64(k: u64) -> (p: u64)
    requires
        k <= 26,
    ensures
        p == pow2(k as nat),
{
    proof {
        lemma2_to64();
    }
    let mut p: u64 = 1;
    let mut i: u64 = 0;
    while i < k
        invariant
            0 <= i <= k <= 26,
            p == pow2(i as nat),
        decreases k - i,
    {
        proof {
            lemma2_to64();
            if (i as nat) < 26 {
                lemma_pow2_strictly_increases(i as nat, 26);
            }
            lemma_pow2_unfold((i + 1) as nat);
        }
        p = p * 2;
        i = i + 1;
    }
    p
}

/// The decay weight for an elapsed fixed-point interval.
pub fn decay_weight(diff: u64) -> (w: u64)
    ensures
        w == weight_of(diff),
{
    let k = diff / HALF_LIFE_SCALED;
    let r = diff % HALF_LIFE_SCALED;
    proof {
        lemma_y_bounds(diff);
    }
    let y = (((r as u128) * (LN2_SCALED as u128)) / (HALF_LIFE_SCALED as u128)) as u64;
    proof {
        assert(y == weight_y(diff));
        lemma_frac_weight_bounds(y as int);
        lemma_term_step(y as int, y as int, 2);
        lemma_mul_small(y as int, y as int);
    }
    let t1 = y;
    let t2 = t1 * y / (2 * SCALE);
    proof {
        lemma_term_step(t2 as int, y as int, 3);
        lemma_mul_small(t2 as int, y as int);
    }
    let t3 = t2 * y / (3 * SCALE);
    proof {
        lemma_term_step(t3 as int, y as int, 4);
        lemma_mul_small(t3 as int, y as int);
    }
    let t4 = t3 * y / (4 * SCALE);
    proof {
        lemma_term_step(t4 as int, y as int, 5);
        lemma_mul_small(t4 as int, y as int);
    }
    let t5 = t4 * y / (5 * SCALE);
    let fw = SCALE + t2 + t4 - t1 - t3 - t5;
    proof {
        assert(fw == frac_weight(y as int));
        lemma_pow2_pos(k as nat);
    }
    if k >= 27 {
        proof {
            lemma2_to64();
            if (k as nat) > 27 {
                lemma_pow2_strictly_increases(27, k as nat);
            }
            assert(fw < pow2(k as nat));
            assert(fw as int / pow2(k as nat) as int == 0) by {
                vstd::arithmetic::div_mod::lemma_basic_div(fw as int, pow2(k as nat) as int);
            }
        }
        0
    } else {
        let p = pow2_u64(k);
        fw / p
    }
}

/// The decayed running average: the old average multiplied by the
/// weight.
pub open spec fn decayed_part(e: u64, w: int) -> int {
    (e as int) * w / (SCALE as int)
}

/// The freshly earned contribution to the running average.  Over a
/// normal interval it is `(1 - w)` times the daily work rate; over a
/// vanishing interval that quotient is replaced by its limit
/// `work * ln 2 / 7` (one seven-day half-life of days).
pub open spec fn contribution(work: u64, diff: u64, w: int) -> int {
    if SCALE - w > SMALL_WEIGHT_CUTOFF {
        (SCALE - w) * (work as int) * (SECS_PER_DAY as int) / (diff as int)
    } else {
        (work as int) * (LN2_SCALED as int) / (7 * SCALE as int)
    }
}

/// The updated running average, saturating at the largest representable
/// value.
pub open spec fn new_expavg(e: u64, work: u64, diff: u64) -> u64 {
    let w = weight_of(diff);
    let v = decayed_part(e, w) + contribution(work, diff, w);
    if v > u64::MAX {
        u64::MAX
    } else {
        v as u64
    }
}

/// Applies one decay-and-accumulate step to a running average.
pub fn apply_decay(e: u64, work: u64, diff: u64) -> (r: u64)
    ensures
        r == new_expavg(e, work, diff),
{
    let w = decay_weight(diff);
    proof {
        lemma_weight_bounds(diff);
    }
    proof {
        assert((e as int) * (w as int) <= 0xFFFF_FFFF_FFFF_FFFF * 100_000_000) by (nonlinear_arith)
            requires
                0 <= e <= 0xFFFF_FFFF_FFFF_FFFF,
                0 <= w <= 100_000_000,
        ;
    }
    let decayed128 = ((e as u128) * (w as u128)) / (SCALE as u128);
    proof {
        assert((e as int) * (w as int) <= (e as int) * (SCALE as int)) by (nonlinear_arith)
            requires
                0 <= e,
                0 <= w <= SCALE,
        ;
        lemma_div_is_ordered((e as int) * (w as int), (e as int) * (SCALE as int), SCALE as int);
        lemma_div_multiples_vanish(e as int, SCALE as int);
        assert((e as int) * (SCALE as int) == (SCALE as int) * (e as int)) by (nonlinear_arith);
        lemma_div_pos_is_pos((e as int) * (w as int), SCALE as int);
        assert(decayed128 == decayed_part(e, w as int));
    }
    let fresh: u128 = if SCALE - w > SMALL_WEIGHT_CUTOFF {
        proof {
            assert(diff > 0);
            assert(((SCALE - w) as int) * (work as int) <= 100_000_000 * 0xFFFF_FFFF_FFFF_FFFF)
                by (nonlinear_arith)
                requires
                    0 <= (SCALE - w) as int <= 100_000_000,
                    0 <= work <= 0xFFFF_FFFF_FFFF_FFFF,
            ;
            assert(((SCALE - w) as int) * (work as int) * (SECS_PER_DAY as int) <= 100_000_000
                * 0xFFFF_FFFF_FFFF_FFFF * 86400) by (nonlinear_arith)
                requires
                    0 <= ((SCALE - w) as int) * (work as int) <= 100_000_000
                        * 0xFFFF_FFFF_FFFF_FFFF,
                    SECS_PER_DAY == 86400,
            ;
        }
        (((SCALE - w) as u128) * (work as u128) * (SECS_PER_DAY as u128)) / (diff as u128)
    } else {
        ((work as u128) * (LN2_SCALED as u128)) / ((7 * SCALE) as u128)
    };
    proof {
        if SCALE - w > SMALL_WEIGHT_CUTOFF {
            lemma_div_pos_is_pos(((SCALE - w) as int) * (work as int) * (SECS_PER_DAY as int),
                diff as int);
        } else {
            lemma_div_pos_is_pos((work as int) * (LN2_SCALED as int), 7 * SCALE);
        }
        assert(fresh == contribution(work, diff, w as int));
    }
    let total: u128 = decayed128 + fresh;
    if total > u64::MAX as u128 {
        u64::MAX
    } else {
        total as u64
    }
}

} // verus!
