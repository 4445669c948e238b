//! Saturating fixed-point sample arithmetic.
use vstd::prelude::*;
use crate::{PARAMETER_SMOOTHING_SAMPLES, SAMPLE_MAX, SAMPLE_UNIT};

verus! {

/// A sample value the engine may store: magnitude at most `SAMPLE_MAX`.
pub open spec fn in_range(x: int) -> bool {
    -(SAMPLE_MAX as int) <= x <= SAMPLE_MAX as int
}

/// Saturation: clamp to the representable sample range.
pub open spec fn sat(x: int) -> int {
    if x > SAMPLE_MAX as int {
        SAMPLE_MAX as int
    } else if x < -(SAMPLE_MAX as int) {
        -(SAMPLE_MAX as int)
    } else {
        x
    }
}

/// Integer division truncating toward zero, for positive divisors.
pub open spec fn div_trunc(a: int, b: int) -> int
    recommends
        b > 0,
{
    if a >= 0 {
        a / b
    } else {
        -((-a) / b)
    }
}

/// Fixed-point product: `a * b` scaled back down by `SAMPLE_UNIT`,
/// truncated toward zero and saturated.
pub open spec fn mul_unit(a: int, b: int) -> int {
    sat(div_trunc(a * b, SAMPLE_UNIT as int))
}

/// Normalized smoothing time: how many samples of the ramp have elapsed,
/// clamped to the ramp's length.
pub open spec fn clamp_time(e: int) -> int {
    if e < 0 {
        0
    } else if e > PARAMETER_SMOOTHING_SAMPLES as int {
        PARAMETER_SMOOTHING_SAMPLES as int
    } else {
        e
    }
}

/// The value of a linear ramp from `previous` to `target`, `e` samples
/// after the target was set: `previous + clamp(e) * (target - previous)
/// / PARAMETER_SMOOTHING_SAMPLES`, the quotient truncated toward zero.
pub open spec fn ramp_value(previous: int, target: int, e: int) -> int {
    previous + div_trunc(
        clamp_time(e) * (target - previous),
        PARAMETER_SMOOTHING_SAMPLES as int,
    )
}

/// A ramp stays between its endpoints, hence in range.
pub proof fn lemma_ramp_in_range(previous: int, target: int, e: int)
    requires
        in_range(previous),
        in_range(target),
    ensures
        in_range(ramp_value(previous, target, e)),
        previous <= target ==> previous <= ramp_value(previous, target, e) <= target,
        target <= previous ==> target <= ramp_value(previous, target, e) <= previous,
{
    let n = PARAMETER_SMOOTHING_SAMPLES as int;
    let ec = clamp_time(e);
    let d = target - previous;
    if d >= 0 {
        assert(0 <= ec * d <= n * d) by (nonlinear_arith)
            requires
                0 <= ec <= n,
                0 <= d,
        ;
        vstd::arithmetic::div_mod::lemma_div_pos_is_pos(ec * d, n);
        vstd::arithmetic::div_mod::lemma_div_is_ordered(ec * d, n * d, n);
        vstd::arithmetic::div_mod::lemma_div_multiples_vanish(d, n);
        assert(div_trunc(ec * d, n) == (ec * d) / n);
        assert((n * d) / n == d);
    } else {
        let m = -(ec * d);
        assert(0 <= m <= n * (-d)) by (nonlinear_arith)
            requires
                0 <= ec <= n,
                d < 0,
                m == -(ec * d),
        ;
        vstd::arithmetic::div_mod::lemma_div_pos_is_pos(m, n);
        vstd::arithmetic::div_mod::lemma_div_is_ordered(m, n * (-d), n);
        vstd::arithmetic::div_mod::lemma_div_multiples_vanish(-d, n);
        assert(div_trunc(ec * d, n) == -(m / n));
        assert((n * (-d)) / n == -d);
    }
}

/// One sample of the smoothing ramp.
pub fn ramp_sample(previous: i64, target: i64, e: i64) -> (r: i64)
    requires
        in_range(previous as int),
        in_range(target as int),
    ensures
        r == ramp_value(previous as int, target as int, e as int),
        in_range(r as int),
{
    proof {
        lemma_ramp_in_range(previous as int, target as int, e as int);
    }
    let ec: i64 = if e < 0 {
        0
    } else if e > PARAMETER_SMOOTHING_SAMPLES {
        PARAMETER_SMOOTHING_SAMPLES
    } else {
        e
    };
    let d: i64 = target - previous;
    let num: i64 = ec * d;
    proof {
        assert(ec * d <= PARAMETER_SMOOTHING_SAMPLES * (SAMPLE_MAX as int) * 2
            && ec * d >= -(PARAMETER_SMOOTHING_SAMPLES * (SAMPLE_MAX as int) * 2))
            by (nonlinear_arith)
            requires
                0 <= ec <= PARAMETER_SMOOTHING_SAMPLES,
                -(2 * SAMPLE_MAX as int) <= d <= 2 * SAMPLE_MAX as int,
        ;
    }
    let q: i64 = if num >= 0 {
        num / PARAMETER_SMOOTHING_SAMPLES
    } else {
        -((-num) / PARAMETER_SMOOTHING_SAMPLES)
    };
    previous + q
}

/// Saturating sample addition.
pub fn sat_add(a: i64, b: i64) -> (r: i64)
    requires
        in_range(a as int),
        in_range(b as int),
    ensures
        r == sat(a + b),
        in_range(r as int),
{
    let s: i64 = a + b;
    if s > SAMPLE_MAX {
        SAMPLE_MAX
    } else if s < -SAMPLE_MAX {
        -SAMPLE_MAX
    } else {
        s
    }
}

/// Saturating fixed-point multiplication.
pub fn sat_mul_unit(a: i64, b: i64) -> (r: i64)
    requires
        in_range(a as int),
        in_range(b as int),
    ensures
        r == mul_unit(a as int, b as int),
        in_range(r as int),
{
    proof {
        assert((a as int) * (b as int) <= (SAMPLE_MAX as int) * (SAMPLE_MAX as int)
            && (a as int) * (b as int) >= -((SAMPLE_MAX as int) * (SAMPLE_MAX as int)))
            by (nonlinear_arith)
            requires
                in_range(a as int),
                in_range(b as int),
        ;
    }
    let p: i64 = a * b;
    let q: i64 = if p >= 0 {
        p / SAMPLE_UNIT
    } else {
        -((-p) / SAMPLE_UNIT)
    };
    proof {
        assert(q == div_trunc(p as int, SAMPLE_UNIT as int));
    }
    if q > SAMPLE_MAX {
        SAMPLE_MAX
    } else if q < -SAMPLE_MAX {
        -SAMPLE_MAX
    } else {
        q
    }
}

} // verus!
