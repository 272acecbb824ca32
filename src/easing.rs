//! Easing curves on fixed-point time, and interpolation between positions.
use crate::vector::{Vec3, ONE};
use vstd::arithmetic::div_mod::{
    lemma_div_is_ordered, lemma_div_pos_is_pos, lemma_mod_add_multiples_vanish,
};
use vstd::prelude::*;

verus! {

/// `t` clamped to the unit interval `[0, ONE]`.
pub open spec fn clamp_unit(t: int) -> int {
    if t < 0 {
        0
    } else if t > ONE {
        ONE as int
    } else {
        t
    }
}

/// Cubic ease-out, `1 - (1 - t)^3` on the clamped input.
pub open spec fn ease_out_value(t: int) -> int {
    let d = ONE - clamp_unit(t);
    ONE - d * d * d / (ONE * ONE)
}

/// Rising half of the cubic S-curve, `4t^3`.
pub open spec fn ease_in_half(c: int) -> int {
    4 * (c * c * c) / (ONE * ONE)
}

/// Falling half of the cubic S-curve, `1 - (2 - 2t)^3 / 2`.
pub open spec fn ease_out_half(c: int) -> int {
    let d = 2 * ONE - 2 * c;
    ONE - d * d * d / (2 * ONE * ONE)
}

/// Cubic ease-in-ease-out on the clamped input.
pub open spec fn ease_in_out_value(t: int) -> int {
    let c = clamp_unit(t);
    if c < ONE / 2 {
        ease_in_half(c)
    } else {
        ease_out_half(c)
    }
}

/// Triangle wave of period `2 * period` that starts at `delay`: rises from 0 to `ONE`
/// over one period, then falls back.
pub open spec fn loop_phase(elapsed: int, delay: int, period: int) -> int {
    let e = (elapsed - delay) % (2 * period);
    if e >= period {
        (2 * period - e) * ONE / period
    } else {
        e * ONE / period
    }
}

/// The rational S-curve `t^2 / (2(t^2 - t) + 1)`.
pub open spec fn ratio_curve(t: int) -> int {
    let s = t * t / (ONE as int);
    s * ONE / (2 * (s - t) + ONE)
}

/// Periodic ping-pong blend: 0 before `delay`, then the S-curve of the triangle wave;
/// 0 throughout when the period is not positive.
pub open spec fn ease_loop_value(elapsed: int, delay: int, period: int) -> int {
    if period <= 0 || elapsed < delay {
        0
    } else {
        ratio_curve(loop_phase(elapsed, delay, period))
    }
}

proof fn lemma_cube_bounds(d: int, m: int)
    requires
        0 <= d <= m,
    ensures
        0 <= d * d <= m * m,
        0 <= d * d * d <= m * m * m,
{
    assert(0 <= d * d <= m * m) by (nonlinear_arith)
        requires
            0 <= d <= m,
    ;
    assert(0 <= d * d * d <= m * m * m) by (nonlinear_arith)
        requires
            0 <= d <= m,
            0 <= d * d <= m * m,
    ;
}

proof fn lemma_ratio_curve_bounds(t: int)
    requires
        0 <= t <= ONE,
    ensures
        0 <= t * t / (ONE as int) <= ONE,
        2 * (t * t / (ONE as int) - t) + ONE >= ONE / 2 - 2,
        t * t / (ONE as int) <= 2 * (t * t / (ONE as int) - t) + ONE,
        0 <= ratio_curve(t) <= ONE,
{
    let one = ONE as int;
    let s = t * t / one;
    assert(0 <= t * t <= one * one) by (nonlinear_arith)
        requires
            0 <= t <= one,
    ;
    lemma_div_is_ordered(t * t, one * one, one);
    lemma_div_pos_is_pos(t * t, one);
    assert(one * one / one == one);
    // s is within one of t^2 / ONE
    assert(s * one <= t * t < s * one + one) by {
        vstd::arithmetic::div_mod::lemma_fundamental_div_mod(t * t, one);
        vstd::arithmetic::div_mod::lemma_mod_bound(t * t, one);
        vstd::arithmetic::mul::lemma_mul_is_commutative(one, s);
    }
    assert(2 * (s - t) + one >= one / 2 - 2) by (nonlinear_arith)
        requires
            s * one + one > t * t,
            one == 1_000_000,
            0 <= t <= one,
    ;
    assert(s >= 2 * t - one) by (nonlinear_arith)
        requires
            s * one + one > t * t,
            one == 1_000_000,
            0 <= t <= one,
    ;
    let den = 2 * (s - t) + one;
    assert(0 <= s * one <= den * one) by (nonlinear_arith)
        requires
            0 <= s <= den,
            one > 0,
    ;
    lemma_div_is_ordered(s * one, den * one, den);
    lemma_div_pos_is_pos(s * one, den);
    assert(den * one / den == one) by {
        vstd::arithmetic::div_mod::lemma_div_multiples_vanish(one, den);
        vstd::arithmetic::mul::lemma_mul_is_commutative(one, den);
    }
}

/// Exec form of [`clamp_unit`].
pub fn clamp_unit_i128(t: i128) -> (r: i128)
    ensures
        r == clamp_unit(t as int),
{
    if t < 0 {
        0
    } else if t > ONE as i128 {
        ONE as i128
    } else {
        t
    }
}

/// Marker for the cubic ease-out curve.
#[derive(Clone, Copy, Debug, PartialEq, Eq, Structural)]
pub struct EaseOut;

impl EaseOut {
    /// `1 - (1 - t)^3` with `t` clamped to `[0, ONE]`.
    pub fn ease_out_cubic(number: i64) -> (r: i64)
        ensures
            r == ease_out_value(number as int),
            0 <= r <= ONE,
    {
        let c = clamp_unit_i128(number as i128);
        let one = ONE as i128;
        let d = one - c;
        proof {
            lemma_cube_bounds(d as int, one as int);
            lemma_div_is_ordered(d * d * d, one * one * one, one * one);
            lemma_div_pos_is_pos(d * d * d, one * one);
        }
        (one - d * d * d / (one * one)) as i64
    }
}

/// Marker for the cubic ease-in-ease-out curve.
#[derive(Clone, Copy, Debug, PartialEq, Eq, Structural)]
pub struct EaseInEaseOut;

impl EaseInEaseOut {
    /// `4t^3` below one half, `1 - (2 - 2t)^3 / 2` from one half on, `t` clamped to `[0, ONE]`.
    pub fn ease_in_ease_out_cubic(number: i64) -> (r: i64)
        ensures
            r == ease_in_out_value(number as int),
            0 <= r <= ONE,
    {
        let c = clamp_unit_i128(number as i128);
        let one = ONE as i128;
        if c < one / 2 {
            proof {
                lemma_cube_bounds(c as int, one / 2);
                assert(0 <= 4 * (c * c * c) <= one * one * one / 2);
                lemma_div_is_ordered(4 * (c * c * c), one * one * one / 2, one * one);
                lemma_div_pos_is_pos(4 * (c * c * c), one * one);
            }
            (4 * (c * c * c) / (one * one)) as i64
        } else {
            let d = 2 * one - 2 * c;
            proof {
                lemma_cube_bounds(d as int, one as int);
                lemma_div_is_ordered(d * d * d, one * one * one, 2 * one * one);
                lemma_div_pos_is_pos(d * d * d, 2 * one * one);
            }
            (one - d * d * d / (2 * one * one)) as i64
        }
    }
}

/// Marker for the periodic ping-pong curve.
#[derive(Clone, Copy, Debug, PartialEq, Eq, Structural)]
pub struct EaseInEaseOutLoop;

impl EaseInEaseOutLoop {
    /// The ping-pong blend at `dt`, starting at `delay`, with half-period `freq` (0 when
/// `freq` is not positive).
    pub fn ease_in_ease_out_loop(dt: i64, delay: i64, freq: i64) -> (r: i64)
        ensures
            r == ease_loop_value(dt as int, delay as int, freq as int),
            0 <= r <= ONE,
    {
        ease_in_ease_out_loop(dt, delay, freq)
    }
}

/// The ping-pong blend at `dt`, starting at `delay`, with half-period `freq` (0 when
/// `freq` is not positive).
pub fn ease_in_ease_out_loop(dt: i64, delay: i64, freq: i64) -> (r: i64)
    ensures
        r == ease_loop_value(dt as int, delay as int, freq as int),
        0 <= r <= ONE,
{
    if freq <= 0 || dt < delay {
        return 0;
    }
    let one = ONE as i128;
    let period = freq as i128;
    let e = (dt as i128 - delay as i128) % (2 * period);
    assert(0 <= e < 2 * period);
    let time: i128 = if e >= period {
        proof {
            assert(0 <= (2 * period - e) * one <= period * one) by (nonlinear_arith)
                requires
                    period <= e < 2 * period,
                    one > 0,
            ;
            lemma_div_is_ordered((2 * period - e) * one, period * one, period as int);
            lemma_div_pos_is_pos((2 * period - e) * one, period as int);
            vstd::arithmetic::div_mod::lemma_div_multiples_vanish(one as int, period as int);
            vstd::arithmetic::mul::lemma_mul_is_commutative(one as int, period as int);
        }
        (2 * period - e) * one / period
    } else {
        proof {
            assert(0 <= e * one <= period * one) by (nonlinear_arith)
                requires
                    0 <= e < period,
                    one > 0,
            ;
            lemma_div_is_ordered(e * one, period * one, period as int);
            lemma_div_pos_is_pos(e * one, period as int);
            vstd::arithmetic::div_mod::lemma_div_multiples_vanish(one as int, period as int);
            vstd::arithmetic::mul::lemma_mul_is_commutative(one as int, period as int);
        }
        e * one / period
    };
    assert(time == loop_phase(dt as int, delay as int, freq as int));
    proof {
        lemma_ratio_curve_bounds(time as int);
        assert(0 <= time * time <= one * one) by (nonlinear_arith)
            requires
                0 <= time <= one,
        ;
    }
    let sqr = time * time / one;
    let den = 2 * (sqr - time) + one;
    proof {
        assert(0 <= sqr * one <= one * one) by (nonlinear_arith)
            requires
                0 <= sqr <= one,
        ;
    }
    (sqr * one / den) as i64
}

/// The easing curve an animation follows.
#[derive(Clone, Copy, Debug, PartialEq, Eq, Structural)]
pub enum AnimationTransition {
    EaseOut(EaseOut),
    EaseInEaseOut(EaseInEaseOut),
    EaseInEaseOutLoop(EaseInEaseOutLoop),
}

impl AnimationTransition {
    /// The blend factor at time `t`. The loop curve runs with a period of `ONE` and is
    /// recentred by one half, so it swings around the midpoint.
    pub open spec fn blend(self, t: int, delay: int) -> int {
        match self {
            AnimationTransition::EaseOut(_) => ease_out_value(t),
            AnimationTransition::EaseInEaseOut(_) => ease_in_out_value(t),
            AnimationTransition::EaseInEaseOutLoop(_) => ease_loop_value(t, delay, ONE as int) - ONE
                / 2,
        }
    }

    /// `start + (end - start) * blend(t, delay)`.
    pub open spec fn spec_lerp(self, start: Vec3, end: Vec3, t: int, delay: int) -> Vec3 {
        start.plus(end.minus(start).times(self.blend(t, delay)))
    }

    /// Interpolates from `start` toward `end` at time `number` along this curve.
    pub fn lerp(&self, start: Vec3, end: Vec3, number: i64, delay: i64) -> (r: Vec3)
        ensures
            r == self.spec_lerp(start, end, number as int, delay as int),
    {
        let blend = match self {
            AnimationTransition::EaseInEaseOut(_) => EaseInEaseOut::ease_in_ease_out_cubic(number),
            AnimationTransition::EaseInEaseOutLoop(_) => {
                EaseInEaseOutLoop::ease_in_ease_out_loop(number, delay, ONE) - ONE / 2
            },
            AnimationTransition::EaseOut(_) => EaseOut::ease_out_cubic(number),
        };
        start.add(end.sub(start).scale(blend))
    }
}

/// Color at the low end of the height ramp.
pub open spec fn low_color() -> Vec3 {
    Vec3 { x: 800_000, y: 0, z: 600_000 }
}

/// Color at the high end of the height ramp.
pub open spec fn high_color() -> Vec3 {
    Vec3 { x: 900_000, y: 400_000, z: 702_000 }
}

/// The height ramp: `low + (high - low) * height`.
pub open spec fn height_color(height: int) -> Vec3 {
    low_color().plus(high_color().minus(low_color()).times(height))
}

/// Color of the height ramp at the fixed-point blend `height`.
pub fn get_height_color(height: i64) -> (r: Vec3)
    ensures
        r == height_color(height as int),
{
    let high = Vec3::new(900_000, 400_000, 702_000);
    let low = Vec3::new(800_000, 0, 600_000);
    low.add(high.sub(low).scale(height))
}

/// On the unit interval the cubic ease-out stays within `[0, ONE]`, never decreases,
/// and runs from 0 at 0 to `ONE` at `ONE`.
pub proof fn lemma_ease_out_cubic_shape(a: int, b: int)
    requires
        0 <= a <= b <= ONE,
    ensures
        0 <= ease_out_value(a) <= ease_out_value(b) <= ONE,
        ease_out_value(0) == 0,
        ease_out_value(ONE as int) == ONE,
{
    let one = ONE as int;
    let (da, db) = (one - a, one - b);
    lemma_cube_bounds(db, da);
    lemma_cube_bounds(da, one);
    lemma_div_is_ordered(db * db * db, da * da * da, one * one);
    lemma_div_is_ordered(da * da * da, one * one * one, one * one);
    lemma_div_pos_is_pos(db * db * db, one * one);
    assert(one * one * one / (one * one) == one) by (nonlinear_arith)
        requires
            one == 1_000_000,
    ;
    assert(0int * 0 * 0 / (one * one) == 0) by (nonlinear_arith)
        requires
            one == 1_000_000,
    ;
}

/// The two halves of the cubic ease-in-ease-out meet at one half: both give one half.
pub proof fn lemma_ease_in_out_meets_at_half()
    ensures
        ease_in_half(ONE / 2) == ONE / 2,
        ease_out_half(ONE / 2) == ONE / 2,
        ease_in_out_value(ONE / 2) == ONE / 2,
{
    let h = ONE / 2;
    assert(h == 500_000);
    assert(4 * (h * h * h) / (ONE * ONE) == 500_000) by (nonlinear_arith)
        requires
            h == 500_000,
    ;
    let d = 2 * ONE - 2 * h;
    assert(d * d * d / (2 * ONE * ONE) == 500_000) by (nonlinear_arith)
        requires
            d == 1_000_000,
    ;
}

proof fn lemma_cube_ratio(x: int, h: int, k: int)
    requires
        0 <= x <= h,
        h > 0,
        k > 0,
    ensures
        h - 3 * (h - x) <= (k * (x * x * x)) / (k * (h * h)) <= h,
{
    let a = k * (x * x * x);
    let b = k * (h * h);
    assert(b > 0) by (nonlinear_arith)
        requires
            h > 0,
            k > 0,
            b == k * (h * h),
    ;
    lemma_cube_bounds(x, h);
    assert(a <= b * h) by (nonlinear_arith)
        requires
            x * x * x <= h * h * h,
            k > 0,
            a == k * (x * x * x),
            b == k * (h * h),
    ;
    assert(0 <= a) by (nonlinear_arith)
        requires
            x * x * x >= 0,
            k > 0,
            a == k * (x * x * x),
    ;
    lemma_div_is_ordered(a, b * h, b);
    vstd::arithmetic::div_mod::lemma_div_multiples_vanish(h, b);
    let l = h - 3 * (h - x);
    if l > 0 {
        assert(h * h * h - x * x * x <= 3 * (h - x) * (h * h)) by (nonlinear_arith)
            requires
                0 <= x <= h,
        ;
        assert(b * l <= a) by (nonlinear_arith)
            requires
                h * h * h - x * x * x <= 3 * (h - x) * (h * h),
                l == h - 3 * (h - x),
                k > 0,
                a == k * (x * x * x),
                b == k * (h * h),
        ;
        lemma_div_is_ordered(b * l, a, b);
        vstd::arithmetic::div_mod::lemma_div_multiples_vanish(l, b);
    } else {
        lemma_div_pos_is_pos(a, b);
    }
}

/// Near one half the cubic ease-in-ease-out moves at most three times as far as its
/// input (plus one unit of rounding), so the two halves join without a jump.
pub proof fn lemma_ease_in_out_continuous_at_half(t: int)
    ensures
        ({
            let c = clamp_unit(t);
            let v = ease_in_out_value(t);
            let h = ONE / 2;
            &&& v - h <= 3 * (if c >= h { c - h } else { h - c }) + 1
            &&& h - v <= 3 * (if c >= h { c - h } else { h - c }) + 1
        }),
{
    let c = clamp_unit(t);
    let h: int = 500_000;
    if c < h {
        lemma_cube_ratio(c, h, 4);
        assert(ONE * ONE == 4 * (h * h));
    } else {
        let x = 2 * h - c;
        lemma_cube_ratio(x, h, 8);
        let d = 2 * ONE - 2 * c;
        assert(d * d * d == 8 * (x * x * x)) by (nonlinear_arith)
            requires
                d == 2 * x,
        ;
        assert(2 * ONE * ONE == 8 * (h * h));
    }
}

/// From `delay` on, the ping-pong blend repeats with period `2 * period`.
pub proof fn lemma_ease_loop_periodic(elapsed: int, delay: int, period: int)
    requires
        period > 0,
        elapsed >= delay,
    ensures
        ease_loop_value(elapsed + 2 * period, delay, period) == ease_loop_value(
            elapsed,
            delay,
            period,
        ),
{
    lemma_mod_add_multiples_vanish(elapsed - delay, 2 * period);
    assert(elapsed + 2 * period - delay == 2 * period + (elapsed - delay));
}

/// The ping-pong blend is 0 at `delay`, `ONE` one period later, and 0 again after two.
pub proof fn lemma_ease_loop_landmarks(delay: int, period: int)
    requires
        period > 0,
    ensures
        ease_loop_value(delay, delay, period) == 0,
        ease_loop_value(delay + period, delay, period) == ONE,
        ease_loop_value(delay + 2 * period, delay, period) == 0,
{
    let one = ONE as int;
    vstd::arithmetic::div_mod::lemma_small_mod(0, (2 * period) as nat);
    vstd::arithmetic::div_mod::lemma_small_mod(period as nat, (2 * period) as nat);
    vstd::arithmetic::div_mod::lemma_mod_self_0(2 * period);
    vstd::arithmetic::div_mod::lemma_div_multiples_vanish(one, period);
    vstd::arithmetic::mul::lemma_mul_is_commutative(one, period);
    assert(loop_phase(delay + period, delay, period) == one);
    assert(ratio_curve(0) == 0);
    assert(one * one / one == one) by (nonlinear_arith)
        requires
            one == 1_000_000,
    ;
    assert(one * one / (2 * (one - one) + one) == one);
}

/// Within each cycle the ping-pong blend is mirror-symmetric about its peak.
pub proof fn lemma_ease_loop_mirror(delay: int, period: int, x: int)
    requires
        period > 0,
        0 <= x <= period,
    ensures
        ease_loop_value(delay + period + x, delay, period) == ease_loop_value(
            delay + period - x,
            delay,
            period,
        ),
{
    if x < period {
        vstd::arithmetic::div_mod::lemma_small_mod((period + x) as nat, (2 * period) as nat);
    } else {
        vstd::arithmetic::div_mod::lemma_mod_self_0(2 * period);
    }
    vstd::arithmetic::div_mod::lemma_small_mod((period - x) as nat, (2 * period) as nat);
}

} // verus!
