//! IEEE 754 binary32 numbers as bit patterns, and their values as integers.
//!
//! Every finite binary32 number is a whole multiple of 2^-149. The model
//! measures values in that unit, so that exact sums and products are plain
//! integers and rounding is integer division.
use vstd::prelude::*;
use vstd::arithmetic::div_mod::lemma_fundamental_div_mod;
use vstd::arithmetic::power2::lemma2_to64;
use vstd::arithmetic::power2::lemma_pow2_adds;
use vstd::arithmetic::power2::lemma_pow2_pos;
use vstd::arithmetic::power2::lemma_pow2_strictly_increases;
use vstd::arithmetic::power2::lemma_pow2_unfold;
use vstd::arithmetic::power2::pow2;

verus! {

/// The bit that holds the sign.
pub const SIGN_BIT: u32 = 0x8000_0000;

/// The magnitude bits of infinity; every larger magnitude is a NaN.
pub const INFINITY: u32 = 0x7f80_0000;

/// The quiet NaN that arithmetic in this library produces.
pub const NAN: u32 = 0x7fc0_0000;

/// The pattern of `1.0`.
pub const ONE: u32 = 0x3f80_0000;

/// The pattern of `-1.0`.
pub const NEG_ONE: u32 = 0xbf80_0000;

/// The pattern without its sign bit.
pub open spec fn magnitude(b: u32) -> nat {
    (b % 0x8000_0000) as nat
}

/// The sign bit is set.
pub open spec fn is_negative(b: u32) -> bool {
    b >= 0x8000_0000
}

/// The pattern is a NaN.
pub open spec fn is_nan(b: u32) -> bool {
    magnitude(b) > 0x7f80_0000
}

/// The pattern is plus or minus infinity.
pub open spec fn is_infinite(b: u32) -> bool {
    magnitude(b) == 0x7f80_0000
}

/// The pattern is a number: neither a NaN nor an infinity.
pub open spec fn is_finite(b: u32) -> bool {
    magnitude(b) < 0x7f80_0000
}

/// The significand of a magnitude, with the hidden bit where there is one.
pub open spec fn significand(m: nat) -> nat {
    if m < 0x80_0000 {
        m
    } else {
        0x80_0000 + m % 0x80_0000
    }
}

/// The power of two by which the significand is scaled, in units of 2^-149.
pub open spec fn unit_exponent(m: nat) -> nat {
    if m < 0x100_0000 {
        0
    } else {
        (m / 0x80_0000 - 1) as nat
    }
}

/// The value of a finite magnitude in units of 2^-149.
pub open spec fn units(m: nat) -> nat {
    significand(m) * pow2(unit_exponent(m))
}

/// The value of a finite pattern in units of 2^-149.
pub open spec fn value(b: u32) -> int {
    if is_negative(b) {
        -(units(magnitude(b)) as int)
    } else {
        units(magnitude(b)) as int
    }
}

/// The pattern with the given sign and magnitude.
pub open spec fn with_sign(negative: bool, m: nat) -> u32 {
    if negative {
        (0x8000_0000 + m) as u32
    } else {
        m as u32
    }
}

/// The number lies between -1.0 and 1.0, both included.
pub open spec fn within_unit(a: u32) -> bool {
    is_finite(a) && -(units(ONE as nat) as int) <= value(a) <= units(ONE as nat)
}

/// A magnitude is its unit exponent in the high bits plus its significand.
pub proof fn lemma_magnitude_parts(m: nat)
    ensures
        m == unit_exponent(m) * 0x80_0000 + significand(m),
        significand(m) < 0x100_0000,
        unit_exponent(m) > 0 ==> significand(m) >= 0x80_0000,
        m < 0x8000_0000 ==> unit_exponent(m) <= 254,
{
    lemma_fundamental_div_mod(m as int, 0x80_0000);
}

/// Of two finite magnitudes, the one with the larger pattern is the larger
/// number.
pub proof fn lemma_units_increase(x: nat, y: nat)
    requires
        x < y,
    ensures
        units(x) < units(y),
{
    let ux = unit_exponent(x);
    let uy = unit_exponent(y);
    let sx = significand(x) as int;
    let sy = significand(y) as int;
    let px = pow2(ux) as int;
    let py = pow2(uy) as int;
    lemma_magnitude_parts(x);
    lemma_magnitude_parts(y);
    lemma_pow2_pos(ux);
    lemma_pow2_pos(uy);
    assert(ux <= uy);
    if ux == uy {
        assert(sx * px < sy * px) by (nonlinear_arith)
            requires
                sx < sy,
                px > 0,
        ;
    } else {
        lemma_pow2_unfold((ux + 1) as nat);
        if ux + 1 < uy {
            lemma_pow2_strictly_increases((ux + 1) as nat, uy);
        }
        assert(sx * px < sy * py) by (nonlinear_arith)
            requires
                0 <= sx < 0x100_0000,
                sy >= 0x80_0000,
                px > 0,
                py >= 2 * px,
        ;
    }
}

/// A number with the larger unit exponent, written in the unit of the other.
pub proof fn lemma_units_aligned(big: nat, small: nat)
    requires
        unit_exponent(small) <= unit_exponent(big),
    ensures
        units(big) == significand(big) * pow2((unit_exponent(big) - unit_exponent(small)) as nat)
            * pow2(unit_exponent(small)),
{
    let d = (unit_exponent(big) - unit_exponent(small)) as nat;
    lemma_pow2_adds(d, unit_exponent(small));
    let s = significand(big) as int;
    let x = pow2(d) as int;
    let y = pow2(unit_exponent(small)) as int;
    assert(s * (x * y) == s * x * y) by (nonlinear_arith);
}

/// Splits a pattern into its sign and its magnitude.
pub fn sign_and_magnitude(a: u32) -> (parts: (bool, u32))
    ensures
        parts.0 == is_negative(a),
        parts.1 == magnitude(a),
        parts.1 < 0x8000_0000,
        a == with_sign(parts.0, parts.1 as nat),
{
    (a >= SIGN_BIT, a % 0x8000_0000)
}

/// Puts a sign on a magnitude.
pub fn compose(negative: bool, m: u32) -> (a: u32)
    requires
        m < 0x8000_0000,
    ensures
        a == with_sign(negative, m as nat),
        is_negative(a) == negative,
        magnitude(a) == m,
{
    if negative {
        m + SIGN_BIT
    } else {
        m
    }
}

/// Splits a magnitude into significand and unit exponent.
pub fn decompose(m: u32) -> (parts: (u32, u32))
    ensures
        parts.0 == significand(m as nat),
        parts.1 == unit_exponent(m as nat),
        parts.0 < 0x100_0000,
        m < 0x8000_0000 ==> parts.1 <= 254,
{
    proof {
        lemma_magnitude_parts(m as nat);
    }
    if m < 0x80_0000 {
        (m, 0)
    } else if m < 0x100_0000 {
        (0x80_0000 + m % 0x80_0000, 0)
    } else {
        (0x80_0000 + m % 0x80_0000, m / 0x80_0000 - 1)
    }
}

/// The power of two with exponent `k`.
pub fn power_of_two(k: u32) -> (p: u64)
    requires
        k < 64,
    ensures
        p == pow2(k as nat),
{
    let mut p: u64 = 1;
    let mut i: u32 = 0;
    proof {
        lemma2_to64();
    }
    while i < k
        invariant
            i <= k < 64,
            p == pow2(i as nat),
        decreases k - i,
    {
        proof {
            lemma_pow2_unfold((i + 1) as nat);
            lemma2_to64();
            if i + 1 < 63 {
                lemma_pow2_strictly_increases((i + 1) as nat, 63);
            }
            vstd::arithmetic::power2::lemma2_to64_rest();
        }
        p = p * 2;
        i = i + 1;
    }
    p
}

} // verus!
