//! The temperature schedule and the acceptance rule of the simulated
//! annealing loop, in the fixed-point arithmetic of `RATE_SCALE` millionths.
use crate::rng;
use crate::simulated_annealing_config::SimulatedAnnealingConfig;
use crate::RATE_SCALE;
use vstd::arithmetic::div_mod::lemma_div_is_ordered;
use vstd::arithmetic::div_mod::lemma_div_multiples_vanish;
use vstd::prelude::*;

verus! {

/// The inverse of Euler's number, in millionths.
pub const INVERSE_E: u64 = 367_879;

/// Arguments at least this large (fourteen units, in millionths) drive the
/// negative exponential below one millionth, the smallest representable
/// probability.
pub const EXP_NEG_UNDERFLOW: u64 = 14_000_000;

/// Scaling numerator and denominator by the same positive factor leaves a
/// quotient unchanged.
proof fn lemma_scaled_div(a: int, c: int, s: int)
    requires
        0 <= a,
        0 < c,
        0 < s,
    ensures
        (a * s) / (c * s) == a / c,
{
    let q = a / c;
    let rm = a % c;
    vstd::arithmetic::div_mod::lemma_fundamental_div_mod(a, c);
    assert(a * s == (c * s) * q + rm * s) by (nonlinear_arith)
        requires
            a == c * q + rm,
    ;
    assert(0 <= rm * s < c * s) by (nonlinear_arith)
        requires
            0 <= rm < c,
            0 < s,
    ;
    assert(c * s > 0) by (nonlinear_arith)
        requires
            0 < c,
            0 < s,
    ;
    vstd::arithmetic::div_mod::lemma_fundamental_div_mod_converse_div(a * s, c * s, q, rm * s);
}

/// One cooling step: the temperature is scaled by the cooling rate and
/// clamped from below by the minimal temperature. The result never increases
/// a temperature that sits at or above the floor, and never drops below the
/// floor: across a run the temperature is non-increasing and floor-clamped.
pub fn next_temperature(temperature: u64, config: &SimulatedAnnealingConfig) -> (r: u64)
    requires
        config.wf(),
    ensures
        config.minimal_temperature <= r,
        temperature >= config.minimal_temperature ==> r <= temperature,
        r as int == vstd::math::max(
            (temperature as int) * (config.cooling_rate as int) / (RATE_SCALE as int),
            config.minimal_temperature as int,
        ),
{
    proof {
        let t = temperature as int;
        let c = config.cooling_rate as int;
        let s = RATE_SCALE as int;
        assert(t * c <= t * s) by (nonlinear_arith)
            requires
                0 <= t,
                c <= s,
        ;
        lemma_div_is_ordered(t * c, t * s, s);
        lemma_div_multiples_vanish(t, s);
        assert(t * s == s * t) by (nonlinear_arith);
        assert(t * c / s <= t);
        assert(t * c >= 0) by (nonlinear_arith)
            requires
                0 <= t,
                0 <= c,
        ;
    }
    let cooled_wide: u128 = (temperature as u128) * (config.cooling_rate as u128) / (
    RATE_SCALE as u128);
    let cooled: u64 = cooled_wide as u64;
    if cooled < config.minimal_temperature {
        config.minimal_temperature
    } else {
        cooled
    }
}

/// A fixed-point negative exponential: approximately `exp(-x)` for `x` in
/// millionths, with the result in millionths. The result is a valid
/// probability, and exactly one at zero.
pub(crate) fn exp_neg_fixed(x: u64) -> (r: u64)
    ensures
        r <= RATE_SCALE,
        x == 0 ==> r == RATE_SCALE,
        0 < x ==> r < RATE_SCALE,
        x >= EXP_NEG_UNDERFLOW ==> r == 0,
{
    if x >= EXP_NEG_UNDERFLOW {
        return 0;
    }
    let whole = x / RATE_SCALE;
    let f = x % RATE_SCALE;
    proof {
        let fi = f as int;
        let s = RATE_SCALE as int;
        assert(fi < s);
        assert(fi * fi < s * s) by (nonlinear_arith)
            requires
                0 <= fi < s,
        ;
        assert(fi * fi / s < s) by (nonlinear_arith)
            requires
                0 < s,
                fi * fi < s * s,
        ;
        assert((fi * fi / s) * fi < s * s) by (nonlinear_arith)
            requires
                0 <= fi < s,
                0 <= fi * fi / s < s,
        ;
        assert((fi * fi / s) * (fi * fi / s) < s * s) by (nonlinear_arith)
            requires
                0 <= fi * fi / s < s,
        ;
    }
    // Four terms of the alternating series for the negative exponential of
    // the fractional part.
    let t2 = f * f / (2 * RATE_SCALE);
    let t3 = (f * f / RATE_SCALE) * f / (6 * RATE_SCALE);
    let t4 = ((f * f / RATE_SCALE) * (f * f / RATE_SCALE)) / (24 * RATE_SCALE);
    let positive = RATE_SCALE + t2 + t4;
    let negative = f + t3;
    let series = if positive > negative {
        positive - negative
    } else {
        0
    };
    let mut r = if series > RATE_SCALE {
        RATE_SCALE
    } else {
        series
    };
    proof {
        if x == 0 {
            assert(f == 0);
            assert(t2 == 0);
            assert(t3 == 0);
            assert(t4 == 0);
            assert(positive == RATE_SCALE);
            assert(negative == 0);
            assert(series == RATE_SCALE);
            assert(r == RATE_SCALE);
        }
        // A positive fractional part pulls the series strictly under one:
        // the two added terms stay strictly below the subtracted ones.
        if f > 0 {
            let fi = f as int;
            let s = RATE_SCALE as int;
            let g = fi * fi / s;
            assert(fi * fi <= fi * s) by (nonlinear_arith)
                requires
                    0 <= fi <= s,
            ;
            lemma_div_is_ordered(fi * fi, fi * s, 2 * s);
            lemma_scaled_div(fi, 2, s);
            assert(t2 as int == (fi * fi) / (2 * s));
            assert(t2 as int <= fi / 2);
            lemma_div_is_ordered(fi * fi, fi * s, s);
            lemma_div_multiples_vanish(fi, s);
            assert(fi * s == s * fi) by (nonlinear_arith);
            assert(g <= fi);
            assert(g * g <= fi * s) by (nonlinear_arith)
                requires
                    0 <= g <= fi,
                    fi <= s,
            ;
            lemma_div_is_ordered(g * g, fi * s, 24 * s);
            lemma_scaled_div(fi, 24, s);
            assert(t4 as int == (g * g) / (24 * s));
            assert(t4 as int <= fi / 24);
            vstd::arithmetic::div_mod::lemma_fundamental_div_mod(fi, 2);
            vstd::arithmetic::div_mod::lemma_fundamental_div_mod(fi, 24);
            assert((t2 as int) + (t4 as int) < fi);
            assert(r < RATE_SCALE);
        }
        // With no fractional part, a positive argument has at least one
        // whole unit, so the loop below runs.
        if f == 0 && x > 0 {
            vstd::arithmetic::div_mod::lemma_fundamental_div_mod(x as int, RATE_SCALE as int);
            assert(whole >= 1);
        }
    }
    // Multiply in the inverse of Euler's number once per whole unit.
    let mut k: u64 = 0;
    while k < whole
        invariant
            r <= RATE_SCALE,
            whole == x / RATE_SCALE,
            x == 0 ==> r == RATE_SCALE,
            0 < x ==> (r < RATE_SCALE || k < whole),
        decreases whole - k,
    {
        proof {
            assert(r * INVERSE_E <= RATE_SCALE * RATE_SCALE) by (nonlinear_arith)
                requires
                    0 <= r <= RATE_SCALE,
                    0 <= INVERSE_E <= RATE_SCALE,
            ;
            lemma_div_is_ordered((r * INVERSE_E) as int, (RATE_SCALE * RATE_SCALE) as int,
                RATE_SCALE as int);
            lemma_div_multiples_vanish(RATE_SCALE as int, RATE_SCALE as int);
            assert(RATE_SCALE as int * RATE_SCALE as int == RATE_SCALE as int * (
            RATE_SCALE as int)) by (nonlinear_arith);
            assert((r * INVERSE_E) as int / (RATE_SCALE as int) < RATE_SCALE as int) by {
                assert(r * INVERSE_E <= RATE_SCALE * INVERSE_E) by (nonlinear_arith)
                    requires
                        0 <= r <= RATE_SCALE,
                        0 <= INVERSE_E,
                ;
                lemma_div_is_ordered((r * INVERSE_E) as int, (RATE_SCALE * INVERSE_E) as int,
                    RATE_SCALE as int);
                lemma_div_multiples_vanish(INVERSE_E as int, RATE_SCALE as int);
                assert(RATE_SCALE as int * INVERSE_E as int == (RATE_SCALE * INVERSE_E) as int);
            }
        }
        r = r * INVERSE_E / RATE_SCALE;
        k += 1;
    }
    r
}

/// Decide whether a worsening neighbor is accepted: with a positive
/// temperature, accept with probability approximately the negative
/// exponential of `delta` over the temperature (the Metropolis criterion);
/// at temperature zero a worsening neighbor is never accepted.
pub(crate) fn metropolis_accept(
    delta: i128,
    temperature: u64,
    rng: &mut rand::rngs::StdRng,
) -> (r: bool)
    requires
        0 < delta <= u64::MAX as i128,
    ensures
        temperature == 0 ==> !r,
        temperature > 0 && (delta as int) * (RATE_SCALE as int) * (RATE_SCALE as int) / (
        temperature as int) >= EXP_NEG_UNDERFLOW as int ==> !r,
{
    if temperature == 0 {
        return false;
    }
    proof {
        let d = delta as int;
        let s = RATE_SCALE as int;
        assert(d * s * s <= (u64::MAX as int) * s * s) by (nonlinear_arith)
            requires
                0 < d <= u64::MAX as int,
                0 < s,
        ;
        assert(d * s * s > 0) by (nonlinear_arith)
            requires
                0 < d,
                0 < s,
        ;
        assert(d * s * s / (temperature as int) >= 0) by (nonlinear_arith)
            requires
                d * s * s > 0,
                temperature as int > 0,
        ;
    }
    let scaled: i128 = delta * (RATE_SCALE as i128) * (RATE_SCALE as i128) / (temperature as i128);
    if scaled >= EXP_NEG_UNDERFLOW as i128 {
        // The acceptance probability is below one millionth: round it to
        // never, as the exponential itself would.
        return false;
    }
    let probability = exp_neg_fixed(scaled as u64);
    rng::draw_ratio(rng, probability as u32, RATE_SCALE as u32)
}

} // verus!
