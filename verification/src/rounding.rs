//! Rounding to the nearest binary32 number, ties to the even significand.
//!
//! Magnitudes are in units of 2^-149 as in [`crate::binary32`]. A number to
//! be rounded is given in half units (2^-150), so that the exact half of a
//! magnitude is an integer too.

use crate::binary32::excess_bits;
use crate::binary32::is_canonical;
use crate::binary32::lemma_canonical_parts;
use crate::binary32::lemma_excess_bits_unique;
use vstd::arithmetic::div_mod::lemma_fundamental_div_mod_converse;
use vstd::arithmetic::power2::lemma2_to64;
use vstd::arithmetic::power2::lemma_pow2_adds;
use vstd::arithmetic::power2::lemma_pow2_pos;
use vstd::arithmetic::power2::lemma_pow2_unfold;
use vstd::arithmetic::power2::pow2;
use vstd::prelude::*;

verus! {

/// The integer nearest to `n / d`; of two that are equally near, the even one.
pub open spec fn nearest_even(n: nat, d: nat) -> nat {
    let q = n / d;
    let r = n % d;
    if 2 * r < d || (2 * r == d && q % 2 == 0) {
        q
    } else {
        q + 1
    }
}

/// The representable magnitude nearest to `h / 2`, ties to even: around
/// `h / 2` the representable magnitudes are the multiples of
/// `2^excess_bits(h / 2)`.
pub open spec fn round_half(h: nat) -> nat {
    let step = pow2(excess_bits(h / 2));
    nearest_even(h, 2 * step) * step
}

/// Multiplying by a positive number keeps order and equality.
proof fn lemma_scaled_order(a: int, b: int, p: int)
    by (nonlinear_arith)
    requires
        p > 0,
    ensures
        a < b <==> a * p < b * p,
        a == b <==> a * p == b * p,
        a <= b <==> a * p <= b * p,
{
}

/// `round_half` at a known scale, quotient and remainder.
pub proof fn lemma_round_half_at(h: nat, k: nat, q: nat, r: nat)
    requires
        excess_bits(h / 2) == k,
        h == q * (2 * pow2(k)) + r,
        r < 2 * pow2(k),
    ensures
        round_half(h) == (if r < pow2(k) || (r == pow2(k) && q % 2 == 0) {
            q
        } else {
            (q + 1) as nat
        }) * pow2(k),
{
    let step = pow2(k);
    lemma_pow2_pos(k);
    lemma_fundamental_div_mod_converse(h as int, 2 * step as int, q as int, r as int);
}

/// A representable magnitude rounds to itself.
pub proof fn lemma_round_exact(man: nat, e: nat)
    requires
        is_canonical(man, e),
    ensures
        round_half(2 * (man * pow2(e))) == man * pow2(e),
{
    let p = pow2(e);
    lemma_pow2_pos(e);
    lemma_canonical_parts(man, e);
    assert(2 * (man * p) == man * (2 * p) + 0) by (nonlinear_arith);
    lemma_round_half_at(2 * (man * p), e, man, 0);
}

/// What rounding gives for `x * 2^e`, where `x = q * 2^k + rem` has `k > 0`
/// bits too many.
proof fn lemma_round_scaled(x: nat, e: nat, q: nat, k: nat, rem: nat)
    requires
        x == q * pow2(k) + rem,
        rem < pow2(k),
        0x80_0000 <= q < 0x100_0000,
        k > 0,
    ensures
        excess_bits(x * pow2(e)) == e + k,
        round_half(2 * (x * pow2(e))) == (if 2 * rem < pow2(k) || (2 * rem == pow2(k) && q % 2
            == 0) {
            q
        } else {
            (q + 1) as nat
        }) * pow2(e + k),
{
    let d = pow2(k);
    let p = pow2(e);
    let s = pow2(e + k);
    lemma_pow2_pos(e);
    lemma_pow2_pos(k);
    lemma_pow2_adds(e, k);
    assert(s == p * d);
    assert(x * p == q * s + rem * p) by (nonlinear_arith)
        requires
            x == q * d + rem,
            s == p * d,
    ;
    assert(rem * p < s) by (nonlinear_arith)
        requires
            rem < d,
            s == p * d,
            p > 0,
    ;
    assert(0x80_0000 * s <= q * s < 0x100_0000 * s && q * s + s <= 0x100_0000 * s)
        by (nonlinear_arith)
        requires
            0x80_0000 <= q < 0x100_0000,
            s > 0,
    ;
    lemma_excess_bits_unique(x * p, e + k);
    assert(2 * (x * p) == q * (2 * s) + 2 * (rem * p)) by (nonlinear_arith)
        requires
            x * p == q * s + rem * p,
    ;
    lemma_round_half_at(2 * (x * p), e + k, q, 2 * (rem * p));
    lemma_scaled_order(2 * rem as int, d as int, p as int);
    assert((2 * rem) * p == 2 * (rem * p) && d * p == s) by (nonlinear_arith)
        requires
            s == p * d,
    ;
}

/// Rounds the magnitude `x * 2^e` to the nearest representable one and
/// returns its significand and scale.
pub fn round_to_nearest(x: u64, e: u32) -> (r: (u32, u32))
    requires
        x < 0x200_0000_0000_0000,
        e <= 252,
        x * pow2(e as nat) < 0x100_0000 * pow2(252),
    ensures
        is_canonical(r.0 as nat, r.1 as nat),
        r.0 as nat * pow2(r.1 as nat) == round_half(2 * (x as nat * pow2(e as nat))),
{
    if x < 0x100_0000 {
        // Held exactly. Bring the significand up to the hidden bit where the scale allows.
        let mut man: u32 = x as u32;
        let mut scale: u32 = e;
        while 0 < man && man < 0x80_0000 && scale > 0
            invariant
                man < 0x100_0000,
                scale <= e <= 252,
                man as nat * pow2(scale as nat) == x as nat * pow2(e as nat),
            decreases scale,
        {
            proof {
                lemma_pow2_unfold(scale as nat);
                let p = pow2((scale - 1) as nat);
                assert((2 * man) * p == man * (2 * p)) by (nonlinear_arith);
            }
            man = 2 * man;
            scale = scale - 1;
        }
        if man == 0 {
            proof {
                assert(0 * pow2(scale as nat) == 0 && 0 * pow2(0) == 0) by (nonlinear_arith);
            }
            scale = 0;
        }
        proof {
            lemma_round_exact(man as nat, scale as nat);
        }
        (man, scale)
    } else {
        let mut q: u64 = x;
        let mut d: u64 = 1;
        let mut k: u32 = 0;
        let mut rem: u64 = 0;
        proof {
            lemma2_to64();
        }
        while q >= 0x100_0000
            invariant
                x < 0x200_0000_0000_0000,
                x == q * d + rem,
                rem < d,
                d == pow2(k as nat),
                k <= 33,
                q >= 0x80_0000,
                k == 0 ==> q >= 0x100_0000,
            decreases q,
        {
            proof {
                assert(d * 0x100_0000 <= x) by (nonlinear_arith)
                    requires
                        x == q * d + rem,
                        q >= 0x100_0000,
                        d >= 0,
                        rem >= 0,
                ;
                lemma_pow2_unfold((k + 1) as nat);
                if k >= 33 {
                    crate::binary32::lemma_pow2_monotone(33, k as nat);
                    lemma_pow2_unfold(33);
                    lemma2_to64();
                }
                assert(q * d + rem == (q / 2) * (2 * d) + (rem + (q % 2) * d)) by (nonlinear_arith);
                assert((q % 2) * d == if q % 2 == 0 {
                    0
                } else {
                    d as int
                }) by (nonlinear_arith);
            }
            if q % 2 == 1 {
                rem = rem + d;
            }
            q = q / 2;
            d = 2 * d;
            k = k + 1;
        }
        let up: bool = 2 * rem > d || (2 * rem == d && q % 2 == 1);
        proof {
            lemma_round_scaled(x as nat, e as nat, q as nat, k as nat, rem as nat);
            // the scale stays in the format's range
            let s = pow2((e + k) as nat);
            lemma_pow2_pos((e + k) as nat);
            lemma_pow2_adds(e as nat, k as nat);
            assert(0x80_0000 * s <= x * pow2(e as nat)) by (nonlinear_arith)
                requires
                    x == q * d + rem,
                    q >= 0x80_0000,
                    s == pow2(e as nat) * d,
                    rem >= 0,
            ;
            lemma_pow2_unfold(253);
            assert(0x100_0000 * pow2(252) == 0x80_0000 * pow2(253)) by (nonlinear_arith)
                requires
                    pow2(253) == 2 * pow2(252),
            ;
            lemma_scaled_order(s as int, pow2(253) as int, 0x80_0000);
            assert(s * 0x80_0000 == 0x80_0000 * s && pow2(253) * 0x80_0000 == 0x80_0000 * pow2(253))
                by (nonlinear_arith);
            if e + k >= 253 {
                crate::binary32::lemma_pow2_monotone(253, (e + k) as nat);
            }
            assert(e + k <= 252);
        }
        if up && q + 1 == 0x100_0000 {
            proof {
                lemma_pow2_unfold((e + k + 1) as nat);
                let s = pow2((e + k) as nat);
                assert(0x80_0000 * (2 * s) == 0x100_0000 * s) by (nonlinear_arith);
            }
            (0x80_0000, e + k + 1)
        } else if up {
            ((q + 1) as u32, e + k)
        } else {
            (q as u32, e + k)
        }
    }
}

/// Halves a representable magnitude, rounding where the half falls between
/// two subnormal numbers, and returns significand and scale.
pub fn halve(man: u32, e: u32) -> (r: (u32, u32))
    requires
        is_canonical(man as nat, e as nat),
    ensures
        is_canonical(r.0 as nat, r.1 as nat),
        r.1 <= 252,
        r.0 as nat * pow2(r.1 as nat) == round_half(man as nat * pow2(e as nat)),
{
    if e > 0 {
        proof {
            let p = pow2((e - 1) as nat);
            lemma_pow2_unfold(e as nat);
            lemma_pow2_pos((e - 1) as nat);
            lemma_canonical_parts(man as nat, (e - 1) as nat);
            assert(man * (2 * p) == 2 * (man * p) && man * (2 * p) == man * (2 * p) + 0)
                by (nonlinear_arith);
            assert((2 * (man * p)) / 2 == man * p);
            lemma_round_half_at(man as nat * pow2(e as nat), (e - 1) as nat, man as nat, 0);
        }
        (man, e - 1)
    } else {
        let q: u32 = man / 2;
        let up: bool = man % 2 == 1 && q % 2 == 1;
        proof {
            lemma2_to64();
            assert(man * pow2(0) == man) by (nonlinear_arith)
                requires
                    pow2(0) == 1,
            ;
            assert(q * (2 * pow2(0)) == 2 * q) by (nonlinear_arith)
                requires
                    pow2(0) == 1,
            ;
            lemma_round_half_at(man as nat, 0, q as nat, (man % 2) as nat);
            assert(q * pow2(0) == q && (q + 1) * pow2(0) == q + 1) by (nonlinear_arith)
                requires
                    pow2(0) == 1,
            ;
        }
        if up {
            (q + 1, 0)
        } else {
            (q, 0)
        }
    }
}

/// The quotient of `h` by `d` lies where the multiples of `d` around `h` say.
proof fn lemma_quotient_between(h: int, d: int, lo: int, hi: int)
    by (nonlinear_arith)
    requires
        d > 0,
        lo * d <= h < hi * d,
    ensures
        lo <= h / d < hi,
        h == (h / d) * d + h % d,
        0 <= h % d < d,
{
    vstd::arithmetic::div_mod::lemma_fundamental_div_mod(h, d);
    vstd::arithmetic::div_mod::lemma_mod_bound(h, d);
}

/// How `round_half(h)` comes about: the scale `k` around `h / 2`, and the
/// quotient `q` and remainder `rem` of `h` by `2 * 2^k`. The result is `q`
/// or `q + 1` times `2^k`, and `q + 1` only where something remains.
pub proof fn lemma_round_half_cases(h: nat) -> (r: (nat, nat, nat))
    ensures
        r.0 == excess_bits(h / 2),
        h == r.1 * (2 * pow2(r.0)) + r.2,
        r.2 < 2 * pow2(r.0),
        r.1 < 0x100_0000,
        r.0 > 0 ==> r.1 >= 0x80_0000,
        round_half(h) == r.1 * pow2(r.0) || (r.2 > 0 && round_half(h) == (r.1 + 1) * pow2(r.0)),
{
    let k = excess_bits(h / 2);
    let step = pow2(k);
    lemma_pow2_pos(k);
    crate::binary32::lemma_excess_bits_range(h / 2);
    let x = h / 2;
    if k == 0 {
        lemma2_to64();
        assert(0 * (2 * step) <= h < 0x100_0000 * (2 * step));
        lemma_quotient_between(h as int, 2 * step as int, 0, 0x100_0000);
    } else {
        assert(0x80_0000 * (2 * step) <= h < 0x100_0000 * (2 * step)) by (nonlinear_arith)
            requires
                0x80_0000 * step <= x < 0x100_0000 * step,
                2 * x <= h <= 2 * x + 1,
        ;
        lemma_quotient_between(h as int, 2 * step as int, 0x80_0000, 0x100_0000);
    }
    let q = h / (2 * step);
    let rem = h % (2 * step);
    lemma_round_half_at(h, k, q, rem);
    (k, q, rem)
}

/// The significand and scale of a rounded magnitude.
pub proof fn lemma_round_half_parts(h: nat) -> (r: (nat, nat))
    requires
        h < 2 * (0x100_0000 * pow2(252)),
    ensures
        is_canonical(r.0, r.1),
        r.0 * pow2(r.1) == round_half(h),
{
    let (k, q, rem) = lemma_round_half_cases(h);
    let step = pow2(k);
    lemma_pow2_pos(k);
    if k > 252 {
        crate::binary32::lemma_pow2_monotone(253, k);
        lemma_pow2_unfold(253);
        assert(h >= 2 * (0x100_0000 * pow2(252))) by (nonlinear_arith)
            requires
                h == q * (2 * step) + rem,
                q >= 0x80_0000,
                step >= 2 * pow2(252),
        ;
    }
    let up = round_half(h) != q * step;
    if up && q + 1 == 0x100_0000 {
        lemma_pow2_unfold(k + 1);
        assert(0x80_0000 * (2 * step) == 0x100_0000 * step) by (nonlinear_arith);
        (0x80_0000, k + 1)
    } else if up {
        ((q + 1) as nat, k)
    } else {
        (q, k)
    }
}

/// Rounding does not step over a representable magnitude: a number on one
/// side of `man * 2^e` rounds to that side, or to `man * 2^e` itself.
pub proof fn lemma_round_half_bounded(h: nat, man: nat, e: nat)
    requires
        is_canonical(man, e),
    ensures
        h <= 2 * (man * pow2(e)) ==> round_half(h) <= man * pow2(e),
        h >= 2 * (man * pow2(e)) ==> round_half(h) >= man * pow2(e),
{
    let (k, q, rem) = lemma_round_half_cases(h);
    let step = pow2(k);
    let y = man * pow2(e);
    lemma_pow2_pos(k);
    lemma_pow2_pos(e);
    if e >= k {
        // `y` is a multiple of the step
        let t = man * pow2((e - k) as nat);
        lemma_pow2_adds((e - k) as nat, k);
        assert(y == t * step) by (nonlinear_arith)
            requires
                y == man * pow2(e),
                t == man * pow2((e - k) as nat),
                pow2(e) == pow2((e - k) as nat) * step,
        ;
        if h <= 2 * y {
            assert(q <= t && (rem > 0 ==> q + 1 <= t)) by (nonlinear_arith)
                requires
                    h == q * (2 * step) + rem,
                    h <= 2 * (t * step),
                    step > 0,
                    rem >= 0,
            ;
            assert(q * step <= t * step && (q + 1 <= t ==> (q + 1) * step <= t * step))
                by (nonlinear_arith)
                requires
                    q <= t,
                    step > 0,
            ;
        }
        if h >= 2 * y {
            assert(t <= q) by (nonlinear_arith)
                requires
                    h == q * (2 * step) + rem,
                    h >= 2 * (t * step),
                    rem < 2 * step,
                    step > 0,
            ;
            assert(t * step <= q * step <= (q + 1) * step) by (nonlinear_arith)
                requires
                    t <= q,
                    step > 0,
            ;
        }
    } else {
        // `y` lies below everything of scale `k`
        lemma_pow2_unfold(k);
        crate::binary32::lemma_pow2_monotone(e, (k - 1) as nat);
        assert(y < 0x80_0000 * step) by (nonlinear_arith)
            requires
                y == man * pow2(e),
                man < 0x100_0000,
                0 < pow2(e) <= pow2((k - 1) as nat),
                step == 2 * pow2((k - 1) as nat),
        ;
        assert(0x80_0000 * step <= q * step <= (q + 1) * step && 2 * (q * step) <= h)
            by (nonlinear_arith)
            requires
                q >= 0x80_0000,
                step > 0,
                h == q * (2 * step) + rem,
                rem >= 0,
        ;
    }
}

} // verus!
