//! Arithmetic on binary32 bit patterns, each operation proved to give the
//! correctly rounded result.
use vstd::prelude::*;
use vstd::arithmetic::power2::lemma2_to64;
use vstd::arithmetic::power2::lemma_pow2_adds;
use vstd::arithmetic::power2::lemma_pow2_pos;
use vstd::arithmetic::power2::lemma_pow2_strictly_increases;
use vstd::arithmetic::power2::lemma_pow2_unfold;
use vstd::arithmetic::power2::pow2;
use crate::binary32::INFINITY;
use crate::binary32::NAN;
use crate::binary32::ONE;
use crate::binary32::compose;
use crate::binary32::decompose;
use crate::binary32::is_finite;
use crate::binary32::is_infinite;
use crate::binary32::is_nan;
use crate::binary32::is_negative;
use crate::binary32::lemma_magnitude_parts;
use crate::binary32::lemma_units_aligned;
use crate::binary32::lemma_units_increase;
use crate::binary32::magnitude;
use crate::binary32::power_of_two;
use crate::binary32::sign_and_magnitude;
use crate::binary32::significand;
use crate::binary32::unit_exponent;
use crate::binary32::units;
use crate::binary32::value;
use crate::binary32::with_sign;
use crate::binary32::within_unit;
use crate::rounding::lemma_half_of_rounded;
use crate::rounding::lemma_round_bounded;
use crate::rounding::lemma_round_exact;
use crate::rounding::lemma_round_magnitude_is;
use crate::rounding::lemma_round_parts;
use crate::rounding::lemma_round_scaling;
use crate::rounding::lemma_round_shift_range;
use crate::rounding::round_divided;
use crate::rounding::round_magnitude;
use crate::rounding::round_scaled;
use crate::rounding::round_shift;

verus! {

/// Half of a number: NaN for a NaN, an infinity unchanged, and otherwise the
/// exact half rounded to the nearest number, a tie going to even.
pub open spec fn half_of(a: u32) -> u32 {
    if is_nan(a) {
        NAN
    } else if is_infinite(a) {
        a
    } else {
        with_sign(is_negative(a), round_magnitude(units(magnitude(a)), 1))
    }
}

/// Divides a number by two.
pub fn halve(a: u32) -> (h: u32)
    ensures
        h == half_of(a),
{
    let (negative, m) = sign_and_magnitude(a);
    if m > INFINITY {
        return NAN;
    }
    if m == INFINITY {
        return a;
    }
    if m >= 0x100_0000 {
        proof {
            let k = unit_exponent(m as nat);
            lemma_magnitude_parts(m as nat);
            lemma_pow2_pos(k);
            lemma_round_magnitude_is(units(m as nat), 1, k, significand(m as nat), 0);
        }
        compose(negative, m - 0x80_0000)
    } else {
        let q: u32 = m / 2;
        let r: u32 = m % 2;
        let up: bool = r == 1 && q % 2 == 1;
        proof {
            lemma2_to64();
            assert(units(m as nat) == m) by (nonlinear_arith)
                requires
                    units(m as nat) == significand(m as nat) * pow2(0),
                    significand(m as nat) == m,
                    pow2(0) == 1,
            ;
            lemma_round_magnitude_is(m as nat, 1, 1, q as nat, r as nat);
        }
        let step: u32 = if up { 1 } else { 0 };
        compose(negative, q + step)
    }
}

/// The sum of two numbers: NaN where an operand is a NaN or the operands are
/// infinities of opposite sign, an infinite operand otherwise where there is
/// one, and for two finite numbers the exact sum rounded to the nearest
/// number, a tie going to even. An exact zero is negative only where both
/// operands are negative.
pub open spec fn sum_of(a: u32, b: u32) -> u32 {
    if is_nan(a) || is_nan(b) {
        NAN
    } else if is_infinite(a) {
        if is_infinite(b) && is_negative(a) != is_negative(b) {
            NAN
        } else {
            a
        }
    } else if is_infinite(b) {
        b
    } else {
        let v = value(a) + value(b);
        if v > 0 {
            with_sign(false, round_magnitude(v as nat, 0))
        } else if v < 0 {
            with_sign(true, round_magnitude((-v) as nat, 0))
        } else {
            with_sign(is_negative(a) && is_negative(b), 0)
        }
    }
}

/// The exact sum or difference of two finite magnitudes, in units of 2^-149.
pub open spec fn combined_units(big: nat, small: nat, same_sign: bool) -> int {
    if same_sign {
        units(big) as int + units(small) as int
    } else {
        units(big) as int - units(small) as int
    }
}

/// Adding or subtracting a number whose unit exponent is lower by 26 or more
/// does not change the rounded result.
pub proof fn lemma_far_sum(big: nat, small: nat)
    requires
        big < 0x7f80_0000,
        0 < small,
        unit_exponent(big) >= unit_exponent(small) + 26,
    ensures
        0 < units(small) < units(big),
        round_magnitude(units(big) + units(small), 0) == big,
        round_magnitude((units(big) - units(small)) as nat, 0) == big,
{
    let d = unit_exponent(big);
    let us = unit_exponent(small);
    let sb = significand(big) as int;
    let ss = significand(small) as int;
    let p = pow2(d) as int;
    let pu = pow2(us) as int;
    let delta = units(small) as int;
    lemma_magnitude_parts(big);
    lemma_magnitude_parts(small);
    lemma2_to64();
    lemma_pow2_pos(us);
    lemma_pow2_pos(d);
    lemma_pow2_adds((d - us) as nat, us);
    if d - us > 26 {
        lemma_pow2_strictly_increases(26, (d - us) as nat);
    }
    let gap = pow2((d - us) as nat) as int;
    assert(0 < delta && 4 * delta < p) by (nonlinear_arith)
        requires
            delta == ss * pu,
            0 < ss < 0x100_0000,
            pu > 0,
            p == gap * pu,
            gap >= 0x400_0000,
    ;
    assert(units(big) == sb * p);
    assert(sb * p >= p) by (nonlinear_arith)
        requires
            sb >= 1,
            p > 0,
    ;
    lemma_round_magnitude_is(units(big) + units(small), 0, d, sb as nat, delta as nat);
    if sb > 0x80_0000 {
        assert(sb * p - delta == (sb - 1) * p + (p - delta)) by (nonlinear_arith);
        assert((sb - 1) * p >= 0) by (nonlinear_arith)
            requires
                sb >= 1,
                p > 0,
        ;
        lemma_round_magnitude_is(
            (units(big) - units(small)) as nat,
            0,
            d,
            (sb - 1) as nat,
            (p - delta) as nat,
        );
    } else {
        lemma_pow2_unfold(d);
        let h = pow2((d - 1) as nat) as int;
        assert(sb * p - delta == 0xff_ffff * h + (h - delta)) by (nonlinear_arith)
            requires
                sb == 0x80_0000,
                p == 2 * h,
        ;
        assert(0xff_ffff * h >= 0) by (nonlinear_arith)
            requires
                h > 0,
        ;
        lemma_round_magnitude_is(
            (units(big) - units(small)) as nat,
            0,
            (d - 1) as nat,
            0xff_ffff,
            (h - delta) as nat,
        );
    }
}

/// Rounds the sum (or, for opposite signs, the difference) of two finite
/// magnitudes of which the first is not the smaller, and tells whether the
/// exact result is zero.
fn combine(big: u32, small: u32, same_sign: bool) -> (out: (u32, bool))
    requires
        small <= big < 0x7f80_0000,
    ensures
        0 <= combined_units(big as nat, small as nat, same_sign),
        out.0 == round_magnitude(combined_units(big as nat, small as nat, same_sign) as nat, 0),
        out.1 == (combined_units(big as nat, small as nat, same_sign) == 0),
{
    let (sb, ub) = decompose(big);
    let (ss, us) = decompose(small);
    proof {
        lemma_magnitude_parts(big as nat);
        lemma_magnitude_parts(small as nat);
        lemma_units_aligned(big as nat, small as nat);
        lemma_pow2_pos(us as nat);
        lemma_pow2_pos(ub as nat);
    }
    let d: u32 = ub - us;
    let ghost pu = pow2(us as nat) as int;
    let ghost pd = pow2(d as nat) as int;
    if small == 0 {
        proof {
            lemma_round_exact(big as nat);
            assert(units(small as nat) == 0) by (nonlinear_arith)
                requires
                    units(small as nat) == 0 * pu,
            ;
            assert(units(big as nat) == 0 <==> sb == 0) by (nonlinear_arith)
                requires
                    units(big as nat) == sb * pow2(ub as nat),
                    pow2(ub as nat) > 0,
            ;
        }
        return (big, big == 0);
    }
    if d >= 30 {
        proof {
            lemma_far_sum(big as nat, small as nat);
        }
        return (big, false);
    }
    let scale: u64 = power_of_two(d);
    proof {
        lemma2_to64();
        if d < 29 {
            lemma_pow2_strictly_increases(d as nat, 29);
        }
        assert(sb * pd < 0x20_0000_0000_0000) by (nonlinear_arith)
            requires
                0 <= sb < 0x100_0000,
                0 < pd <= 0x2000_0000,
        ;
        if d == 0 {
            assert(sb * pd == sb) by (nonlinear_arith)
                requires
                    pd == 1,
            ;
        } else {
            lemma_pow2_unfold(d as nat);
            assert(sb * pd >= 0x100_0000) by (nonlinear_arith)
                requires
                    sb >= 0x80_0000,
                    pd >= 2,
            ;
        }
        assert((sb * pd + ss) * pu == sb * pd * pu + ss * pu) by (nonlinear_arith);
        assert((sb * pd - ss) * pu == sb * pd * pu - ss * pu) by (nonlinear_arith);
    }
    let wide: u64 = (sb as u64) * scale;
    let t: u64 = if same_sign { wide + ss as u64 } else { wide - ss as u64 };
    proof {
        let n = combined_units(big as nat, small as nat, same_sign);
        assert(n == t * pu);
        assert(n == 0 <==> t == 0) by (nonlinear_arith)
            requires
                n == t * pu,
                pu > 0,
        ;
        assert(n >= 0) by (nonlinear_arith)
            requires
                n == t * pu,
                pu > 0,
                t >= 0,
        ;
    }
    (round_scaled(t, us), t == 0)
}

/// Adds two numbers.
pub fn sum(a: u32, b: u32) -> (c: u32)
    ensures
        c == sum_of(a, b),
{
    let (na, ma) = sign_and_magnitude(a);
    let (nb, mb) = sign_and_magnitude(b);
    if ma > INFINITY || mb > INFINITY {
        return NAN;
    }
    if ma == INFINITY {
        if mb == INFINITY && na != nb {
            return NAN;
        }
        return a;
    }
    if mb == INFINITY {
        return b;
    }
    let a_leads: bool = ma >= mb;
    let big: u32 = if a_leads { ma } else { mb };
    let small: u32 = if a_leads { mb } else { ma };
    let big_negative: bool = if a_leads { na } else { nb };
    let (mag, zero) = combine(big, small, na == nb);
    proof {
        let n = combined_units(big as nat, small as nat, na == nb);
        assert(value(a) + value(b) == if big_negative { -n } else { n });
        lemma_round_bounded(n as nat, 0);
    }
    if zero {
        compose(na && nb, 0)
    } else {
        compose(big_negative, mag)
    }
}

/// The arithmetic mean of two numbers as binary32 arithmetic gives it: the
/// rounded sum, halved.
pub open spec fn mean_of(l: u32, r: u32) -> u32 {
    half_of(sum_of(l, r))
}

/// The arithmetic mean of two numbers.
pub fn mean(l: u32, r: u32) -> (m: u32)
    ensures
        m == mean_of(l, r),
{
    halve(sum(l, r))
}

/// The sum, and with it the mean, does not depend on the order of the two
/// numbers.
pub proof fn lemma_sum_commutes(a: u32, b: u32)
    ensures
        sum_of(a, b) == sum_of(b, a),
        mean_of(a, b) == mean_of(b, a),
{
    if is_infinite(a) && is_infinite(b) && is_negative(a) == is_negative(b) {
        assert(a == b);
    }
}

/// The exact mean of two finite numbers, rounded once to the nearest number,
/// a tie going to even. An exact zero is negative only where both numbers
/// are negative.
pub open spec fn rounded_mean_of(l: u32, r: u32) -> u32 {
    let v = value(l) + value(r);
    if v > 0 {
        with_sign(false, round_magnitude(v as nat, 1))
    } else if v < 0 {
        with_sign(true, round_magnitude((-v) as nat, 1))
    } else {
        with_sign(is_negative(l) && is_negative(r), 0)
    }
}

/// Where the sum of two finite numbers does not overflow, their mean as
/// binary32 arithmetic gives it is the exact mean rounded once.
pub proof fn lemma_mean_is_rounded_mean(l: u32, r: u32)
    requires
        is_finite(l),
        is_finite(r),
        is_finite(sum_of(l, r)),
    ensures
        mean_of(l, r) == rounded_mean_of(l, r),
{
    let v = value(l) + value(r);
    lemma2_to64();
    if v == 0 {
        assert(units(0) == 0) by (nonlinear_arith)
            requires
                units(0) == 0 * pow2(0),
        ;
        lemma_round_magnitude_is(0, 1, 1, 0, 0);
    } else {
        let n: nat = if v > 0 { v as nat } else { (-v) as nat };
        lemma_round_bounded(n, 0);
        lemma_round_bounded(n, 1);
        lemma_half_of_rounded(n);
    }
}

/// Two numbers between -1.0 and 1.0 have a finite sum, so that their mean is
/// the exact mean rounded once.
pub proof fn lemma_mean_within_unit(l: u32, r: u32)
    requires
        within_unit(l),
        within_unit(r),
    ensures
        is_finite(sum_of(l, r)),
        mean_of(l, r) == rounded_mean_of(l, r),
{
    let v = value(l) + value(r);
    let one = units(ONE as nat);
    lemma2_to64();
    vstd::arithmetic::power2::lemma2_to64_rest();
    lemma_magnitude_parts(ONE as nat);
    lemma_pow2_adds(1, 126);
    lemma_pow2_adds(24, 127);
    let n: nat = if v > 0 { v as nat } else { (-v) as nat };
    if n > 0 {
        assert(one == 0x80_0000 * pow2(126));
        assert(n <= 0x80_0000 * pow2(127)) by (nonlinear_arith)
            requires
                n <= 2 * one,
                one == 0x80_0000 * pow2(126),
                pow2(127) == 2 * pow2(126),
        ;
        if n < 0x80_0000 * pow2(127) {
            let k = round_shift(n, 0);
            lemma_round_shift_range(n, 0);
            lemma_round_parts(n, 0);
            if k > 127 {
                lemma_pow2_strictly_increases(127 + 23, 23 + k);
                lemma_pow2_adds(23, 127);
            }
            assert(round_magnitude(n, 0) <= 127 * 0x80_0000 + 0x100_0000);
        } else {
            lemma_pow2_pos(127);
            lemma_round_magnitude_is(n, 0, 127, 0x80_0000, 0);
        }
    }
    lemma_mean_is_rounded_mean(l, r);
}

/// The product of two numbers: NaN where an operand is a NaN or where zero
/// meets infinity, infinity where an operand is infinite, and for two finite
/// numbers the exact product rounded to the nearest number, a tie going to
/// even. The result is negative where exactly one operand is.
pub open spec fn product_of(a: u32, b: u32) -> u32 {
    if is_nan(a) || is_nan(b) {
        NAN
    } else if is_infinite(a) || is_infinite(b) {
        if magnitude(a) == 0 || magnitude(b) == 0 {
            NAN
        } else {
            with_sign(is_negative(a) != is_negative(b), 0x7f80_0000)
        }
    } else {
        with_sign(
            is_negative(a) != is_negative(b),
            round_magnitude(units(magnitude(a)) * units(magnitude(b)), 149),
        )
    }
}

/// Multiplies two numbers.
pub fn product(a: u32, b: u32) -> (c: u32)
    ensures
        c == product_of(a, b),
{
    let (na, ma) = sign_and_magnitude(a);
    let (nb, mb) = sign_and_magnitude(b);
    if ma > INFINITY || mb > INFINITY {
        return NAN;
    }
    let negative: bool = na != nb;
    if ma == INFINITY || mb == INFINITY {
        if ma == 0 || mb == 0 {
            return NAN;
        }
        return compose(negative, INFINITY);
    }
    let (sa, ua) = decompose(ma);
    let (sb, ub) = decompose(mb);
    let ghost pa = pow2(ua as nat) as int;
    let ghost pb = pow2(ub as nat) as int;
    proof {
        assert(0 <= sa * sb < 0x1_0000_0000_0000) by (nonlinear_arith)
            requires
                0 <= sa < 0x100_0000,
                0 <= sb < 0x100_0000,
        ;
        lemma_pow2_adds(ua as nat, ub as nat);
        assert((sa * pa) * (sb * pb) == (sa * sb) * (pa * pb)) by (nonlinear_arith);
    }
    let t: u64 = (sa as u64) * (sb as u64);
    let u: u32 = ua + ub;
    let ghost n = units(ma as nat) * units(mb as nat);
    assert(n == t as nat * pow2(u as nat));
    let mag: u32;
    if u >= 149 {
        proof {
            let rest = (u - 149) as nat;
            lemma_pow2_adds(rest, 149);
            let pr = pow2(rest) as int;
            let pc = pow2(149) as int;
            assert(t * (pr * pc) == (t * pr) * pc) by (nonlinear_arith);
            lemma_round_scaling(t as nat * pow2(rest), 0, 149);
        }
        mag = round_scaled(t, u - 149);
    } else {
        proof {
            lemma_round_scaling(t as nat, (149 - u) as nat, u as nat);
        }
        mag = round_divided(t, 149 - u);
    }
    proof {
        lemma_round_bounded(n, 149);
    }
    compose(negative, mag)
}

/// Multiplying a finite number by 1.0 gives the number.
pub proof fn lemma_product_with_one(a: u32)
    requires
        is_finite(a),
    ensures
        product_of(a, ONE) == a,
{
    let m = magnitude(a);
    lemma2_to64();
    vstd::arithmetic::power2::lemma2_to64_rest();
    lemma_magnitude_parts(ONE as nat);
    lemma_pow2_adds(23, 126);
    assert(units(ONE as nat) == pow2(149));
    lemma_round_scaling(units(m), 0, 149);
    lemma_round_exact(m);
}

/// The number limited to the range from -1.0 to 1.0: a NaN stays as it is,
/// what lies beyond a bound becomes that bound, all else is unchanged.
pub open spec fn clamped(a: u32) -> u32 {
    if is_nan(a) {
        a
    } else if magnitude(a) > ONE {
        with_sign(is_negative(a), ONE as nat)
    } else {
        a
    }
}

/// Every number that is no NaN is within the unit range once clamped, and a
/// number within the unit range is left as it is.
pub proof fn lemma_clamped_within_unit(a: u32)
    ensures
        !is_nan(a) ==> within_unit(clamped(a)),
        within_unit(a) ==> clamped(a) == a,
        is_nan(clamped(a)) == is_nan(a),
{
    let m = magnitude(a);
    if m < ONE {
        lemma_units_increase(m, ONE as nat);
    }
    if ONE < m && m < 0x7f80_0000 {
        lemma_units_increase(ONE as nat, m);
    }
    if !is_nan(a) && m > ONE {
        let c = with_sign(is_negative(a), ONE as nat);
        assert(magnitude(c) == ONE);
        assert(is_negative(c) == is_negative(a));
    }
}

/// Limits a number to the range from -1.0 to 1.0.
pub fn clamp_unit(a: u32) -> (c: u32)
    ensures
        c == clamped(a),
        !is_nan(a) ==> within_unit(c),
{
    proof {
        lemma_clamped_within_unit(a);
    }
    let (negative, m) = sign_and_magnitude(a);
    if ONE < m && m <= INFINITY {
        compose(negative, ONE)
    } else {
        a
    }
}

} // verus!
