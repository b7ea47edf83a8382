//! Fixed-point arithmetic on micro-unit intensities.
//!
//! A value `v: u64` stands for the real number `v / SCALE`. The helpers here
//! are the arithmetic kernel of the pipeline: saturating multiplication, the
//! exponential blend used by the temporal smoothers, a base-2 logarithm
//! (exact mirror specification, one binary digit of the fraction per squaring
//! step) and a base-2 exponential used to place logarithmically spaced band
//! edges.

use vstd::prelude::*;
use vstd::arithmetic::div_mod::{lemma_div_is_ordered, lemma_div_multiples_vanish};
use vstd::arithmetic::mul::{lemma_mul_inequality, lemma_mul_upper_bound};
use vstd::arithmetic::power2::{
    lemma2_to64, lemma2_to64_rest, lemma_pow2_adds, lemma_pow2_pos, lemma_pow2_strictly_increases, pow2,
};
use crate::SCALE;

verus! {

/// `a * b` in micro-units, saturating at `u64::MAX`.
pub open spec fn spec_mul_scaled(a: u64, b: u64) -> u64 {
    if a * b / (SCALE as int) > u64::MAX {
        u64::MAX
    } else {
        (a * b / (SCALE as int)) as u64
    }
}

/// Saturating fixed-point multiplication: `(a * b) / SCALE`, capped at `u64::MAX`.
pub fn mul_scaled(a: u64, b: u64) -> (r: u64)
    ensures
        r == spec_mul_scaled(a, b),
{
    proof {
        lemma_mul_upper_bound(a as int, u64::MAX as int, b as int, u64::MAX as int);
    }
    let p: u128 = (a as u128) * (b as u128) / (SCALE as u128);
    if p > u64::MAX as u128 {
        u64::MAX
    } else {
        p as u64
    }
}

/// Multiplying by a factor of at most one never grows a value.
pub proof fn lemma_mul_scaled_le(a: u64, b: u64)
    requires
        b <= SCALE,
    ensures
        spec_mul_scaled(a, b) <= a,
{
    lemma_mul_inequality(b as int, SCALE as int, a as int);
    assert(a as int * b as int == b as int * a as int) by (nonlinear_arith);
    assert(a as int * SCALE as int == SCALE as int * a as int) by (nonlinear_arith);
    lemma_div_is_ordered(a as int * b as int, a as int * SCALE as int, SCALE as int);
    lemma_div_multiples_vanish(a as int, SCALE as int);
}

/// One exponential-smoothing step: keep a fraction `f` of `prev` and take the
/// complementary fraction of `cur`. `f` is in micro-units, at most `SCALE`.
pub open spec fn spec_blend(prev: u64, cur: u64, f: u64) -> u64
    recommends
        f <= SCALE,
{
    ((prev * f + cur * (SCALE - f)) / (SCALE as int)) as u64
}

/// The blend of two values never exceeds the larger of them.
pub proof fn lemma_blend_bound(prev: u64, cur: u64, f: u64)
    requires
        f <= SCALE,
    ensures
        prev >= cur ==> spec_blend(prev, cur, f) <= prev,
        cur >= prev ==> spec_blend(prev, cur, f) <= cur,
{
    let m: int = if prev >= cur { prev as int } else { cur as int };
    lemma_mul_inequality(prev as int, m, f as int);
    lemma_mul_inequality(cur as int, m, (SCALE - f) as int);
    assert(prev * f + cur * (SCALE - f) <= m * f + m * (SCALE - f));
    assert(m * f + m * (SCALE - f) == m * (SCALE as int)) by (nonlinear_arith);
    lemma_div_is_ordered(prev * f + cur * (SCALE - f), m * (SCALE as int), SCALE as int);
    lemma_div_multiples_vanish(m, SCALE as int);
}

/// Exponential blend, exact to the micro-unit: `(prev*f + cur*(SCALE-f)) / SCALE`.
pub fn blend(prev: u64, cur: u64, f: u64) -> (r: u64)
    requires
        f <= SCALE,
    ensures
        r == spec_blend(prev, cur, f),
        prev >= cur ==> r <= prev,
        cur >= prev ==> r <= cur,
{
    proof {
        lemma_mul_upper_bound(prev as int, u64::MAX as int, f as int, SCALE as int);
        lemma_mul_upper_bound(cur as int, u64::MAX as int, (SCALE - f) as int, SCALE as int);
        lemma_blend_bound(prev, cur, f);
    }
    let p: u128 = (prev as u128) * (f as u128) + (cur as u128) * ((SCALE - f) as u128);
    (p / (SCALE as u128)) as u64
}

/// Number of halvings that bring `m` below `2 * SCALE`: the whole part of
/// `log2(m / SCALE)` for `m >= SCALE`.
pub open spec fn lg2_int(m: u64) -> nat
    decreases m,
{
    if m >= 2 * SCALE {
        (1 + lg2_int((m as int / 2) as u64)) as nat
    } else {
        0
    }
}

/// What is left of `m` once halved below `2 * SCALE`: the mantissa in
/// `[SCALE, 2 * SCALE)` for `m >= SCALE`.
pub open spec fn lg2_mantissa(m: u64) -> u64
    decreases m,
{
    if m >= 2 * SCALE {
        lg2_mantissa((m as int / 2) as u64)
    } else {
        m
    }
}

/// One digit-extraction step on a mantissa in `[SCALE, 2 * SCALE)`: square it
/// (in micro-units) and halve if the square reached 2.
pub open spec fn frac_step_m(m: u64) -> u64 {
    let m2 = (m * m / (SCALE as int)) as u64;
    if m2 >= 2 * SCALE {
        (m2 as int / 2) as u64
    } else {
        m2
    }
}

/// The binary digit produced by one digit-extraction step.
pub open spec fn frac_step_bit(m: u64) -> u64 {
    if (m * m / (SCALE as int)) as u64 >= 2 * SCALE {
        1
    } else {
        0
    }
}

/// The mantissa after `n` digit-extraction steps.
pub open spec fn frac_m(m: u64, n: nat) -> u64
    decreases n,
{
    if n == 0 {
        m
    } else {
        frac_step_m(frac_m(m, (n - 1) as nat))
    }
}

/// The first `n` binary digits of `log2(m / SCALE)` as an `n`-bit integer.
pub open spec fn frac_bits(m: u64, n: nat) -> u64
    decreases n,
{
    if n == 0 {
        0
    } else {
        (2 * frac_bits(m, (n - 1) as nat) + frac_step_bit(frac_m(m, (n - 1) as nat))) as u64
    }
}

/// `log2(v / SCALE)` in micro-units for `v >= SCALE`: whole part plus 20
/// binary digits of the fraction.
pub open spec fn spec_lg2(v: u64) -> u64 {
    (lg2_int(v) * SCALE + frac_bits(lg2_mantissa(v), 20) * SCALE / 1048576) as u64
}

/// Fixed-point base-2 logarithm of `v / SCALE`, in micro-units.
pub fn lg2(v: u64) -> (r: u64)
    requires
        v >= SCALE,
    ensures
        r == spec_lg2(v),
        r <= 64 * SCALE,
        (SCALE as int) * pow2(lg2_int(v)) <= v as int,
        (r as int) < lg2_int(v) * SCALE + SCALE,
{
    let mut m: u64 = v;
    let mut k: u64 = 0;
    proof {
        lemma2_to64();
    }
    while m >= 2 * SCALE
        invariant
            SCALE <= m <= v,
            lg2_int(v) == k + lg2_int(m),
            lg2_mantissa(v) == lg2_mantissa(m),
            v as int >= m as int * pow2(k as nat),
            k <= 63,
        decreases m,
    {
        proof {
            // If k were 63, v would exceed u64::MAX: SCALE * pow2(64) > u64::MAX.
            lemma_pow2_adds(k as nat, 1);
            lemma2_to64();
            assert((m as int / 2) * 2 <= m as int);
            lemma_mul_inequality((m as int / 2) * 2, m as int, pow2(k as nat) as int);
            assert((m as int / 2) * 2 * pow2(k as nat) == (m as int / 2) * (2 * pow2(k as nat)))
                by (nonlinear_arith);
            if k == 63 {
                assert(m as int * pow2(63) >= 2 * SCALE * pow2(63)) by {
                    lemma_mul_inequality(2 * SCALE as int, m as int, pow2(63) as int);
                };
            }
        }
        m = m / 2;
        k = k + 1;
    }
    let ghost man = m;
    let mut frac: u64 = 0;
    let mut i: u64 = 0;
    while i < 20
        invariant
            SCALE <= m < 2 * SCALE,
            i <= 20,
            m == frac_m(man, i as nat),
            frac == frac_bits(man, i as nat),
            frac < pow2(i as nat),
            k <= 63,
            k == lg2_int(v),
            man == lg2_mantissa(v),
            v as int >= man as int * pow2(k as nat),
            SCALE <= man,
        decreases 20 - i,
    {
        proof {
            lemma_pow2_adds(i as nat, 1);
            lemma2_to64();
            assert(m * m < 2 * SCALE * (2 * SCALE)) by (nonlinear_arith)
                requires m < 2 * SCALE;
            assert(m * m >= SCALE * SCALE) by (nonlinear_arith)
                requires m >= SCALE;
            lemma_div_multiples_vanish(SCALE as int, SCALE as int);
            assert(SCALE * SCALE == (SCALE as int) * (SCALE as int)) by (nonlinear_arith);
            lemma_div_is_ordered(SCALE * SCALE, m * m, SCALE as int);
            lemma_div_is_ordered(m * m, 2 * SCALE * (2 * SCALE), SCALE as int);
            lemma_div_multiples_vanish(4 * SCALE as int, SCALE as int);
            assert(2 * SCALE * (2 * SCALE) == (SCALE as int) * (4 * SCALE as int)) by (nonlinear_arith);
        }
        let m2: u64 = m * m / SCALE;
        if m2 >= 2 * SCALE {
            m = m2 / 2;
            frac = 2 * frac + 1;
        } else {
            m = m2;
            frac = 2 * frac;
        }
        i = i + 1;
    }
    proof {
        lemma2_to64();
        assert(lg2_int(m) == 0);
        assert(lg2_mantissa(m) == m);
        lemma_mul_inequality(SCALE as int, man as int, pow2(k as nat) as int);
        lemma_mul_inequality(frac as int, 1048575, SCALE as int);
        lemma_div_is_ordered(frac * SCALE, 1048575 * (SCALE as int), 1048576);
    }
    k * SCALE + frac * SCALE / 1048576
}

/// The micro-unit constant `2^(1 / 2^(i+1)) * SCALE`, rounded to nearest.
pub open spec fn exp_const(i: nat) -> u64 {
    if i == 0 { 1414214 }
    else if i == 1 { 1189207 }
    else if i == 2 { 1090508 }
    else if i == 3 { 1044274 }
    else if i == 4 { 1021897 }
    else if i == 5 { 1010889 }
    else if i == 6 { 1005430 }
    else if i == 7 { 1002711 }
    else if i == 8 { 1001355 }
    else if i == 9 { 1000677 }
    else if i == 10 { 1000339 }
    else if i == 11 { 1000169 }
    else if i == 12 { 1000085 }
    else if i == 13 { 1000042 }
    else if i == 14 { 1000021 }
    else if i == 15 { 1000011 }
    else if i == 16 { 1000005 }
    else if i == 17 { 1000003 }
    else if i == 18 { 1000001 }
    else { 1000001 }
}

fn exp_const_at(i: u64) -> (c: u64)
    requires
        i < 20,
    ensures
        c == exp_const(i as nat),
        SCALE < c <= 1414214,
{
    if i == 0 { 1414214 }
    else if i == 1 { 1189207 }
    else if i == 2 { 1090508 }
    else if i == 3 { 1044274 }
    else if i == 4 { 1021897 }
    else if i == 5 { 1010889 }
    else if i == 6 { 1005430 }
    else if i == 7 { 1002711 }
    else if i == 8 { 1001355 }
    else if i == 9 { 1000677 }
    else if i == 10 { 1000339 }
    else if i == 11 { 1000169 }
    else if i == 12 { 1000085 }
    else if i == 13 { 1000042 }
    else if i == 14 { 1000021 }
    else if i == 15 { 1000011 }
    else if i == 16 { 1000005 }
    else if i == 17 { 1000003 }
    else { 1000001 }
}

/// The Q20 binary fraction state after `i` doubling steps: each step
/// shifts out the leading bit of the fractional exponent.
pub open spec fn exp_t_state(t0: u64, i: nat) -> u64
    decreases i,
{
    if i == 0 {
        t0
    } else {
        let tp = exp_t_state(t0, (i - 1) as nat);
        if 2 * tp >= 1048576 {
            (2 * tp - 1048576) as u64
        } else {
            (2 * tp) as u64
        }
    }
}

/// The accumulated fractional power after `i` steps: each set bit of the
/// fractional exponent contributes one constant factor, with a defensive
/// cap at 2 that the true product never reaches.
pub open spec fn exp_acc_state(t0: u64, i: nat) -> u64
    decreases i,
{
    if i == 0 {
        SCALE
    } else {
        let ap = exp_acc_state(t0, (i - 1) as nat);
        let tp = exp_t_state(t0, (i - 1) as nat);
        if 2 * tp >= 1048576 {
            let raw = ap * exp_const((i - 1) as nat) / (SCALE as int);
            if raw > 2 * SCALE {
                (2 * SCALE) as u64
            } else {
                raw as u64
            }
        } else {
            ap
        }
    }
}

/// `2^(e / SCALE) * SCALE`, as the fixed-point kernel computes it: whole
/// part by a power of two, fractional part by 20 binary digits.
pub open spec fn spec_exp2(e: u64) -> u64 {
    let t0 = ((e as int % (SCALE as int)) * 1048576 / (SCALE as int)) as u64;
    (exp_acc_state(t0, 20) * pow2((e as int / (SCALE as int)) as nat)) as u64
}

/// Fixed-point base-2 exponential: `2^(e / SCALE) * SCALE`, exact to its
/// mirror specification. The fractional part is a 20-digit binary
/// expansion, each digit contributing one constant factor from
/// `exp_const`; the defensive cap at `2 * SCALE` is never reached in
/// practice but keeps the bounds immediate.
pub fn exp2_scaled(e: u64) -> (r: u64)
    requires
        e <= 40 * SCALE,
    ensures
        r == spec_exp2(e),
        SCALE <= r,
        r as int <= 2 * SCALE * pow2((e / SCALE) as nat),
{
    let k: u64 = e / SCALE;
    let rem: u64 = e % SCALE;
    // Q20 binary fraction of the fractional part.
    let mut t: u64 = rem * 1048576 / SCALE;
    let ghost t0 = t;
    let mut acc: u64 = SCALE;
    let mut i: u64 = 0;
    while i < 20
        invariant
            SCALE <= acc <= 2 * SCALE,
            t < 1048576,
            i <= 20,
            t == exp_t_state(t0, i as nat),
            acc == exp_acc_state(t0, i as nat),
        decreases 20 - i,
    {
        t = t * 2;
        if t >= 1048576 {
            t = t - 1048576;
            let c = exp_const_at(i);
            proof {
                lemma_mul_upper_bound(acc as int, 2 * SCALE as int, c as int, 1414214);
                lemma_mul_inequality(SCALE as int, acc as int, c as int);
                lemma_mul_inequality(SCALE as int, c as int, SCALE as int);
                lemma_div_is_ordered(SCALE * SCALE, acc * c, SCALE as int);
                lemma_div_multiples_vanish(SCALE as int, SCALE as int);
                assert(SCALE * SCALE == (SCALE as int) * (SCALE as int)) by (nonlinear_arith);
                assert(acc as int * c as int == c as int * acc as int) by (nonlinear_arith);
            }
            let raw: u64 = acc * c / SCALE;
            acc = if raw > 2 * SCALE { 2 * SCALE } else { raw };
        }
        i = i + 1;
    }
    // Multiply by 2^k.
    let mut p: u64 = 1;
    let mut j: u64 = 0;
    proof {
        lemma2_to64();
    }
    while j < k
        invariant
            j <= k <= 40,
            p == pow2(j as nat),
        decreases k - j,
    {
        proof {
            lemma_pow2_adds(j as nat, 1);
            lemma2_to64();
            if j + 1 < 64 {
                lemma_pow2_strictly_increases((j + 1) as nat, 64);
            }
        }
        p = p * 2;
        j = j + 1;
    }
    proof {
        lemma2_to64();
        lemma2_to64_rest();
        lemma_pow2_pos(k as nat);
        if k < 40 {
            lemma_pow2_strictly_increases(k as nat, 40);
        }
        assert(2 * (SCALE as int) * 0x10000000000 <= u64::MAX as int) by (nonlinear_arith);
        lemma_mul_upper_bound(acc as int, 2 * SCALE as int, p as int, pow2(k as nat) as int);
        lemma_mul_upper_bound(acc as int, 2 * SCALE as int, p as int, pow2(40) as int);
        lemma_mul_inequality(1, p as int, acc as int);
        assert(acc as int * p as int == p as int * acc as int) by (nonlinear_arith);
        assert(t0 == ((e as int % (SCALE as int)) * 1048576 / (SCALE as int)) as u64);
    }
    acc * p
}

} // verus!
