//! Rounding to the nearest binary32 number, a tie going to the even
//! significand.
use vstd::prelude::*;
use vstd::arithmetic::div_mod::lemma_fundamental_div_mod;
use vstd::arithmetic::div_mod::lemma_fundamental_div_mod_converse;
use vstd::arithmetic::power2::lemma2_to64;
use vstd::arithmetic::power2::lemma_pow2_adds;
use vstd::arithmetic::power2::lemma_pow2_pos;
use vstd::arithmetic::power2::lemma_pow2_strictly_increases;
use vstd::arithmetic::power2::lemma_pow2_unfold;
use vstd::arithmetic::power2::pow2;
use crate::binary32::INFINITY;
use crate::binary32::lemma_magnitude_parts;
use crate::binary32::power_of_two;
use crate::binary32::significand;
use crate::binary32::unit_exponent;
use crate::binary32::units;

verus! {

/// The number of low bits that rounding `n / 2^s` units drops: the least
/// `k >= s` with `n < 2^(24 + k)`.
pub open spec fn round_shift(n: nat, s: nat) -> nat
    decreases n,
{
    if n == 0 || n < pow2(24 + s) {
        s
    } else {
        round_shift(n / 2, s) + 1
    }
}

/// Rounding goes up: the dropped part `r` of `2^k` is more than half, or is
/// exactly half while the kept part `q` is odd.
pub open spec fn rounds_up(q: nat, r: nat, k: nat) -> bool {
    2 * r > pow2(k) || (2 * r == pow2(k) && q % 2 == 1)
}

/// The magnitude for the kept part `q`, scaled by `2^e` units, after the
/// rounding step `up`; infinity where that is beyond the largest number.
pub open spec fn pack(e: nat, q: nat, up: bool) -> nat {
    let raw = e * 0x80_0000 + q + if up { 1nat } else { 0nat };
    if raw >= 0x7f80_0000 {
        0x7f80_0000
    } else {
        raw
    }
}

/// The magnitude nearest to `n / 2^s` units, a tie going to the even
/// significand, and infinity standing for what is beyond the largest number.
pub open spec fn round_magnitude(n: nat, s: nat) -> nat {
    let k = round_shift(n, s);
    let q = n / pow2(k);
    let r = n % pow2(k);
    pack((k - s) as nat, q, rounds_up(q, r, k))
}

/// `round_shift` is the `k` that puts `n` in the range of 24 kept bits.
pub proof fn lemma_round_shift_is(n: nat, s: nat, k: nat)
    requires
        k >= s,
        n < pow2(24 + k),
        k > s ==> n >= pow2(23 + k),
    ensures
        round_shift(n, s) == k,
    decreases k - s,
{
    if k > s {
        lemma_pow2_unfold(24 + k);
        lemma_pow2_unfold(23 + k);
        if 23 + k > 24 + s {
            lemma_pow2_strictly_increases(24 + s, 23 + k);
        }
        assert(n >= pow2(24 + s));
        assert(pow2(24 + k) == 2 * pow2((23 + k) as nat));
        assert(pow2(23 + k) == 2 * pow2((22 + k) as nat));
        assert((24 + (k - 1)) as nat == 23 + k);
        assert((23 + (k - 1)) as nat == 22 + k);
        lemma_round_shift_is(n / 2, s, (k - 1) as nat);
    }
}

/// What `round_shift` returns puts `n` in the range of 24 kept bits.
pub proof fn lemma_round_shift_range(n: nat, s: nat)
    ensures
        round_shift(n, s) >= s,
        n < pow2(24 + round_shift(n, s)),
        round_shift(n, s) > s ==> n >= pow2(23 + round_shift(n, s)),
    decreases n,
{
    lemma_pow2_pos(24 + s);
    if !(n == 0 || n < pow2(24 + s)) {
        let k = round_shift(n / 2, s);
        lemma_round_shift_range(n / 2, s);
        lemma_pow2_unfold(24 + k + 1);
        lemma_pow2_unfold(23 + k + 1);
        lemma_pow2_unfold(24 + s);
        assert((24 + k + 1 - 1) as nat == 24 + k);
        assert((23 + k + 1 - 1) as nat == 23 + k);
        assert((24 + s - 1) as nat == 23 + s);
    }
}

/// The kept part `q` and the dropped part `r` of a rounding: the kept part
/// has at most 24 bits, and exactly 24 where more than `s` bits are dropped.
pub proof fn lemma_round_parts(n: nat, s: nat)
    ensures
        round_shift(n, s) >= s,
        n == (n / pow2(round_shift(n, s))) * pow2(round_shift(n, s)) + n % pow2(round_shift(n, s)),
        n % pow2(round_shift(n, s)) < pow2(round_shift(n, s)),
        n / pow2(round_shift(n, s)) < 0x100_0000,
        round_shift(n, s) > s ==> n / pow2(round_shift(n, s)) >= 0x80_0000,
{
    let k = round_shift(n, s);
    let pk = pow2(k) as int;
    let q = (n / pow2(k)) as int;
    let r = (n % pow2(k)) as int;
    lemma_round_shift_range(n, s);
    lemma_pow2_pos(k);
    lemma_pow2_adds(24, k);
    lemma_pow2_adds(23, k);
    lemma2_to64();
    lemma_fundamental_div_mod(n as int, pk);
    assert(pk * q == q * pk) by (nonlinear_arith);
    assert(q < 0x100_0000) by (nonlinear_arith)
        requires
            n == pk * q + r,
            r >= 0,
            pk > 0,
            n < 0x100_0000 * pk,
    ;
    if k > s {
        assert(q >= 0x80_0000) by (nonlinear_arith)
            requires
                n == pk * q + r,
                r < pk,
                pk > 0,
                n >= 0x80_0000 * pk,
        ;
    }
}

/// Rounding written out for a value split as `n == q * 2^k + r`.
pub proof fn lemma_round_magnitude_is(n: nat, s: nat, k: nat, q: nat, r: nat)
    requires
        k >= s,
        n == q * pow2(k) + r,
        r < pow2(k),
        q < 0x100_0000,
        k > s ==> q >= 0x80_0000,
    ensures
        round_magnitude(n, s) == pack((k - s) as nat, q, rounds_up(q, r, k)),
{
    lemma2_to64();
    lemma_pow2_pos(k);
    lemma_pow2_adds(24, k);
    lemma_pow2_adds(23, k);
    assert(n < pow2(24 + k)) by (nonlinear_arith)
        requires
            n == q * pow2(k) + r,
            r < pow2(k),
            q < 0x100_0000,
            pow2(24 + k) == 0x100_0000 * pow2(k),
    ;
    if k > s {
        assert(n >= pow2(23 + k)) by (nonlinear_arith)
            requires
                n == q * pow2(k) + r,
                q >= 0x80_0000,
                pow2(23 + k) == 0x80_0000 * pow2(k),
        ;
    }
    lemma_round_shift_is(n, s, k);
    lemma_fundamental_div_mod_converse(n as int, pow2(k) as int, q as int, r as int);
}

/// A rounded magnitude is a number or infinity, never a NaN.
pub proof fn lemma_round_bounded(n: nat, s: nat)
    ensures
        round_magnitude(n, s) <= 0x7f80_0000,
{
}

/// A number that binary32 holds rounds to itself.
pub proof fn lemma_round_exact(m: nat)
    requires
        m < 0x7f80_0000,
    ensures
        round_magnitude(units(m), 0) == m,
{
    let k = unit_exponent(m);
    lemma_magnitude_parts(m);
    lemma_pow2_pos(k);
    lemma_round_magnitude_is(units(m), 0, k, significand(m), 0);
}

/// Whether rounding goes up does not depend on the unit in which the kept
/// and the dropped part are measured.
pub proof fn lemma_rounds_up_scales(q: nat, r: nat, j: nat, e: nat)
    ensures
        rounds_up(q, r * pow2(e), j + e) == rounds_up(q, r, j),
{
    lemma_pow2_adds(j, e);
    lemma_pow2_pos(e);
    let pe = pow2(e) as int;
    let pj = pow2(j) as int;
    let ri = r as int;
    assert(2 * (ri * pe) > pj * pe <==> 2 * ri > pj) by (nonlinear_arith)
        requires
            pe > 0,
    ;
    assert(2 * (ri * pe) == pj * pe <==> 2 * ri == pj) by (nonlinear_arith)
        requires
            pe > 0,
    ;
}

/// Rounding depends on the ratio alone: a common power of two in the value
/// and in its divisor changes nothing.
pub proof fn lemma_round_scaling(n: nat, s: nat, c: nat)
    ensures
        round_magnitude(n * pow2(c), s + c) == round_magnitude(n, s),
{
    let k = round_shift(n, s);
    let pk = pow2(k) as int;
    let pc = pow2(c) as int;
    let q = (n / pow2(k)) as int;
    let r = (n % pow2(k)) as int;
    lemma_round_parts(n, s);
    lemma_pow2_pos(k);
    lemma_pow2_pos(c);
    lemma_pow2_adds(k, c);
    assert((q * pk + r) * pc == q * (pk * pc) + r * pc) by (nonlinear_arith);
    assert(0 <= r * pc < pk * pc) by (nonlinear_arith)
        requires
            0 <= r < pk,
            pc > 0,
    ;
    lemma_round_magnitude_is(n * pow2(c), s + c, k + c, q as nat, (r * pc) as nat);
    lemma_rounds_up_scales(q as nat, r as nat, k, c);
}

/// The value of a packed magnitude that is a number: the kept part, after
/// the rounding step, at the scale it was packed with.
pub proof fn lemma_units_of_packed(e: nat, q: nat, up: bool)
    requires
        q < 0x100_0000,
        e > 0 ==> q >= 0x80_0000,
        pack(e, q, up) < 0x7f80_0000,
    ensures
        units(pack(e, q, up)) == (q + if up { 1nat } else { 0nat }) * pow2(e),
{
    let step: nat = if up { 1 } else { 0 };
    let kept = q + step;
    let m = pack(e, q, up);
    lemma_magnitude_parts(m);
    lemma2_to64();
    if kept < 0x100_0000 {
        if e == 0 {
            assert(unit_exponent(m) == 0 && significand(m) == kept);
        } else {
            assert(unit_exponent(m) == e && significand(m) == kept);
        }
    } else {
        assert(unit_exponent(m) == e + 1 && significand(m) == 0x80_0000);
        lemma_pow2_unfold(e + 1);
        let pe = pow2(e) as int;
        assert(0x80_0000 * (2 * pe) == 0x100_0000 * pe) by (nonlinear_arith);
    }
}

/// How far apart two values are.
pub open spec fn distance(a: nat, b: nat) -> nat {
    if a >= b {
        (a - b) as nat
    } else {
        (b - a) as nat
    }
}

/// No number is nearer to `n / 2^s` units than the one that rounding gives.
pub proof fn lemma_round_is_nearest(n: nat, s: nat, x: nat)
    requires
        round_magnitude(n, s) < 0x7f80_0000,
        x < 0x7f80_0000,
    ensures
        distance(units(round_magnitude(n, s)) * pow2(s), n) <= distance(units(x) * pow2(s), n),
{
    let k = round_shift(n, s);
    let e = (k - s) as nat;
    let pk = pow2(k) as int;
    let ps = pow2(s) as int;
    let pe = pow2(e) as int;
    let q = (n / pow2(k)) as int;
    let r = (n % pow2(k)) as int;
    let up = rounds_up(q as nat, r as nat, k);
    let step: int = if up { 1 } else { 0 };
    lemma_round_parts(n, s);
    lemma_pow2_pos(k);
    lemma_pow2_pos(s);
    lemma_pow2_pos(e);
    lemma_pow2_adds(e, s);
    lemma_units_of_packed(e, q as nat, up);
    let chosen = units(round_magnitude(n, s)) * pow2(s);
    assert(chosen == (q + step) * pk) by (nonlinear_arith)
        requires
            chosen == ((q + step) * pe) * ps,
            pk == pe * ps,
    ;
    assert((q + step) * pk == q * pk + step * pk) by (nonlinear_arith);
    assert(distance(chosen, n) <= r && distance(chosen, n) <= pk - r);
    // every number lies at or below the kept part, or at or above the next
    let ux = unit_exponent(x);
    let sx = significand(x) as int;
    let px = pow2(ux) as int;
    let other = units(x) * pow2(s);
    lemma_magnitude_parts(x);
    lemma_pow2_pos(ux);
    lemma_pow2_adds(ux, s);
    lemma_pow2_pos(ux + s);
    let pxs = pow2(ux + s) as int;
    assert(other == sx * pxs) by (nonlinear_arith)
        requires
            other == (sx * px) * ps,
            pxs == px * ps,
    ;
    if ux + s >= k {
        let g = pow2((ux + s - k) as nat) as int;
        lemma_pow2_adds((ux + s - k) as nat, k);
        lemma_pow2_pos((ux + s - k) as nat);
        let c = sx * g;
        assert(other == c * pk) by (nonlinear_arith)
            requires
                other == sx * pxs,
                pxs == g * pk,
                c == sx * g,
        ;
        if c <= q {
            assert(c * pk <= q * pk) by (nonlinear_arith)
                requires
                    c <= q,
                    pk > 0,
            ;
        } else {
            assert(c * pk >= q * pk + pk) by (nonlinear_arith)
                requires
                    c >= q + 1,
                    pk > 0,
            ;
        }
    } else {
        lemma_pow2_unfold(k);
        if ux + s < k - 1 {
            lemma_pow2_strictly_increases(ux + s, (k - 1) as nat);
        }
        assert(other <= q * pk) by (nonlinear_arith)
            requires
                other == sx * pxs,
                0 <= sx < 0x100_0000,
                0 < pxs,
                2 * pxs <= pk,
                q >= 0x80_0000,
        ;
    }
}

/// Halving what was rounded to a number gives what rounding the exact half
/// gives.
pub proof fn lemma_half_of_rounded(n: nat)
    requires
        round_magnitude(n, 0) < 0x7f80_0000,
    ensures
        round_magnitude(units(round_magnitude(n, 0)), 1) == round_magnitude(n, 1),
{
    let k = round_shift(n, 0);
    let pk = pow2(k) as int;
    let q = (n / pow2(k)) as int;
    let r = (n % pow2(k)) as int;
    let up = rounds_up(q as nat, r as nat, k);
    let m = round_magnitude(n, 0);
    lemma_round_parts(n, 0);
    lemma_pow2_pos(k);
    lemma2_to64();
    if k == 0 {
        assert(pk == 1);
        assert(q == n && r == 0) by (nonlinear_arith)
            requires
                n == q * pk + r,
                0 <= r < pk,
                pk == 1,
        ;
        assert(!up);
        assert(m == pack(0, n, false));
        assert(m == n);
        assert(units(n) == n) by (nonlinear_arith)
            requires
                units(n) == significand(n) * pow2(0),
                significand(n) == n,
                pow2(0) == 1,
        ;
    } else {
        let step: int = if up { 1 } else { 0 };
        let kept = q + step;
        assert(m == k * 0x80_0000 + kept);
        lemma_magnitude_parts(m);
        lemma_round_magnitude_is(n, 1, k, q as nat, r as nat);
        if kept < 0x100_0000 {
            assert(unit_exponent(m) == k);
            assert(significand(m) == kept);
            lemma_round_magnitude_is(units(m), 1, k, kept as nat, 0);
        } else {
            assert(unit_exponent(m) == k + 1);
            assert(significand(m) == 0x80_0000);
            lemma_pow2_pos(k + 1);
            lemma_round_magnitude_is(units(m), 1, k + 1, 0x80_0000, 0);
        }
    }
}

/// The magnitude bits for a kept part `q` at unit exponent `e`.
fn pack_bits(e: u32, q: u64, up: bool) -> (m: u32)
    requires
        e <= 0x10_0000,
        q < 0x100_0000,
    ensures
        m == pack(e as nat, q as nat, up),
{
    let step: u64 = if up { 1 } else { 0 };
    let raw: u64 = (e as u64) * 0x80_0000 + q + step;
    if raw >= 0x7f80_0000 {
        INFINITY
    } else {
        raw as u32
    }
}

/// Rounds `t * 2^u` units to a magnitude.
pub fn round_scaled(t: u64, u: u32) -> (m: u32)
    requires
        t < 0x4000_0000_0000_0000,
        u <= 0xffff,
    ensures
        m == round_magnitude(t as nat * pow2(u as nat), 0),
{
    if t == 0 {
        proof {
            lemma_pow2_pos(0);
            assert(t as nat * pow2(u as nat) == 0) by (nonlinear_arith)
                requires
                    t == 0,
            ;
            lemma_round_magnitude_is(0, 0, 0, 0, 0);
        }
        return 0;
    }
    let mut q: u64 = t;
    let mut e: u32 = u;
    while q < 0x80_0000 && e > 0
        invariant
            0 < q < 0x4000_0000_0000_0000,
            e <= u,
            q as nat * pow2(e as nat) == t as nat * pow2(u as nat),
        decreases e,
    {
        proof {
            lemma_pow2_unfold(e as nat);
            let qi = q as int;
            let pe = pow2((e - 1) as nat) as int;
            assert((qi * 2) * pe == qi * (2 * pe)) by (nonlinear_arith);
        }
        q = q * 2;
        e = e - 1;
    }
    let ghost n = t as nat * pow2(u as nat);
    if q < 0x100_0000 {
        proof {
            lemma_pow2_pos(e as nat);
            lemma_round_magnitude_is(n, 0, e as nat, q as nat, 0);
        }
        return pack_bits(e, q, false);
    }
    let mut j: u32 = 0;
    let mut p: u64 = 1;
    proof {
        lemma2_to64();
    }
    while q / p >= 0x100_0000
        invariant
            p == pow2(j as nat),
            0 < p <= 0x40_0000_0000,
            j <= 38,
            q >= 0x80_0000 * p,
            q < 0x4000_0000_0000_0000,
        decreases 64 - j,
    {
        proof {
            lemma_pow2_unfold((j + 1) as nat);
            lemma_fundamental_div_mod(q as int, p as int);
            let qd = (q / p) as int;
            let pi = p as int;
            assert(q >= 0x100_0000 * pi) by (nonlinear_arith)
                requires
                    q == pi * qd + (q % p) as int,
                    qd >= 0x100_0000,
                    (q % p) as int >= 0,
                    pi > 0,
            ;
            vstd::arithmetic::power2::lemma2_to64_rest();
            assert(j < 38);
            if j + 1 < 38 {
                lemma_pow2_strictly_increases((j + 1) as nat, 38);
            }
        }
        p = p * 2;
        j = j + 1;
    }
    let kept: u64 = q / p;
    let r: u64 = q % p;
    let up: bool = 2 * r > p || (2 * r == p && kept % 2 == 1);
    proof {
        let pe = pow2(e as nat);
        lemma_pow2_pos(e as nat);
        lemma_pow2_adds(j as nat, e as nat);
        lemma_fundamental_div_mod(q as int, p as int);
        let ki = kept as int;
        let ri = r as int;
        let pi = p as int;
        let pei = pe as int;
        assert(ki >= 0x80_0000) by (nonlinear_arith)
            requires
                q == pi * ki + ri,
                q >= 0x80_0000 * pi,
                ri < pi,
                pi > 0,
        ;
        assert((pi * ki + ri) * pei == ki * (pi * pei) + ri * pei) by (nonlinear_arith);
        assert(ri * pei < pi * pei) by (nonlinear_arith)
            requires
                ri < pi,
                pei > 0,
        ;
        assert(ri * pei >= 0) by (nonlinear_arith)
            requires
                ri >= 0,
                pei > 0,
        ;
        lemma_round_magnitude_is(n, 0, (j + e) as nat, kept as nat, (r as nat) * pe);
        lemma_rounds_up_scales(kept as nat, r as nat, j as nat, e as nat);
    }
    pack_bits(e + j, kept, up)
}

/// Rounds `t / 2^s` units to a magnitude.
pub fn round_divided(t: u64, s: u32) -> (m: u32)
    requires
        t < 0x1_0000_0000_0000,
        s <= 0xffff,
    ensures
        m == round_magnitude(t as nat, s as nat),
{
    proof {
        lemma2_to64();
        vstd::arithmetic::power2::lemma2_to64_rest();
    }
    if s >= 50 {
        proof {
            if s > 50 {
                lemma_pow2_strictly_increases(50, s as nat);
            }
            lemma_round_magnitude_is(t as nat, s as nat, s as nat, 0, t as nat);
        }
        return 0;
    }
    let mut k: u32 = s;
    let mut p: u64 = power_of_two(s);
    while t / p >= 0x100_0000
        invariant
            s <= k <= 50,
            p == pow2(k as nat),
            0 < p <= 0x4_0000_0000_0000,
            t < 0x1_0000_0000_0000,
            k > s ==> t >= 0x80_0000 * p,
        decreases 64 - k,
    {
        proof {
            lemma_pow2_unfold((k + 1) as nat);
            lemma_fundamental_div_mod(t as int, p as int);
            let qd = (t / p) as int;
            let pi = p as int;
            assert(t >= 0x100_0000 * pi) by (nonlinear_arith)
                requires
                    t == pi * qd + (t % p) as int,
                    qd >= 0x100_0000,
                    (t % p) as int >= 0,
                    pi > 0,
            ;
            lemma2_to64();
            vstd::arithmetic::power2::lemma2_to64_rest();
            if k > 24 {
                lemma_pow2_strictly_increases(24, k as nat);
            }
            assert(k < 24);
            if k + 1 < 50 {
                lemma_pow2_strictly_increases((k + 1) as nat, 50);
            }
        }
        p = p * 2;
        k = k + 1;
    }
    let kept: u64 = t / p;
    let r: u64 = t % p;
    let up: bool = 2 * r > p || (2 * r == p && kept % 2 == 1);
    proof {
        lemma_fundamental_div_mod(t as int, p as int);
        let ki = kept as int;
        let ri = r as int;
        let pi = p as int;
        if k > s {
            assert(ki >= 0x80_0000) by (nonlinear_arith)
                requires
                    t == pi * ki + ri,
                    t >= 0x80_0000 * pi,
                    ri < pi,
                    pi > 0,
            ;
        }
        assert(pi * ki == ki * pi) by (nonlinear_arith);
        lemma_round_magnitude_is(t as nat, s as nat, k as nat, kept as nat, r as nat);
    }
    pack_bits(k - s, kept, up)
}

} // verus!
