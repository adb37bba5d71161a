//! The midpoint of two binary32 numbers as binary32 arithmetic gives it:
//! the sum, rounded, then halved, rounded again where it must be.

use crate::binary32::from_parts;
use crate::binary32::is_canonical;
use crate::binary32::is_finite;
use crate::binary32::is_negative;
use crate::binary32::is_summable;
use crate::binary32::lemma_excess_bits_unique;
use crate::binary32::lemma_finite_is_canonical;
use crate::binary32::lemma_from_parts_canonical;
use crate::binary32::lemma_pow2_monotone;
use crate::binary32::magnitude;
use crate::binary32::pack;
use crate::binary32::scale;
use crate::binary32::significand;
use crate::binary32::unpack;
use crate::binary32::value;
use crate::rounding::halve;
use crate::rounding::lemma_round_half_at;
use crate::rounding::lemma_round_half_bounded;
use crate::rounding::round_half;
use crate::rounding::round_to_nearest;
use vstd::arithmetic::power2::lemma2_to64;
use vstd::arithmetic::power2::lemma_pow2_adds;
use vstd::arithmetic::power2::lemma_pow2_pos;
use vstd::arithmetic::power2::lemma_pow2_unfold;
use vstd::arithmetic::power2::pow2;
use vstd::bits::lemma_u64_shl_is_mul;
use vstd::prelude::*;

verus! {

/// A magnitude with its sign.
pub open spec fn signed(negative: bool, mag: nat) -> int {
    if negative {
        -(mag as int)
    } else {
        mag as int
    }
}

/// The distance of `v` from 0.
pub open spec fn distance(v: int) -> nat {
    if v < 0 {
        (-v) as nat
    } else {
        v as nat
    }
}

/// The sign of a sum: that of the exact sum, and where that is 0, negative
/// only if both terms are.
pub open spec fn sum_sign(n1: bool, n2: bool, sum: int) -> bool {
    if sum == 0 {
        n1 && n2
    } else {
        sum < 0
    }
}

/// The magnitude of the rounded sum `a + b`.
pub open spec fn sum_magnitude(a: u32, b: u32) -> nat {
    round_half(2 * distance(value(a) + value(b)))
}

/// The magnitude of `(a + b) / 2`, each operation rounded.
pub open spec fn midpoint_magnitude(a: u32, b: u32) -> nat {
    round_half(sum_magnitude(a, b))
}

/// The pattern of `(a + b) / 2`, each operation rounded to nearest, ties to even.
#[verifier::opaque]
pub open spec fn midpoint_of(a: u32, b: u32) -> u32 {
    from_parts(
        sum_sign(is_negative(a), is_negative(b), value(a) + value(b)),
        midpoint_magnitude(a, b),
    )
}

/// A term under a quarter of the last place of `man * 2^e` is lost in rounding,
/// whether it is added or taken away.
pub proof fn lemma_round_absorbs(man: nat, e: nat, v: nat)
    requires
        0x80_0000 <= man < 0x100_0000,
        e >= 2,
        4 * v < pow2(e),
    ensures
        round_half(2 * (man * pow2(e) + v)) == man * pow2(e),
        round_half(2 * ((man * pow2(e) - v) as nat)) == man * pow2(e),
        v <= man * pow2(e),
{
    let p = pow2(e);
    let a = man * p;
    lemma_pow2_pos(e);
    assert(0x80_0000 * p <= a && a + p <= 0x100_0000 * p && a - p == (man - 1) * p)
        by (nonlinear_arith)
        requires
            0x80_0000 <= man < 0x100_0000,
            a == man * p,
            p > 0,
    ;
    // added
    lemma_excess_bits_unique(a + v, e);
    assert(2 * (a + v) == man * (2 * p) + 2 * v) by (nonlinear_arith)
        requires
            a == man * p,
    ;
    lemma_round_half_at(2 * (a + v), e, man, 2 * v);
    // taken away
    if v > 0 {
        let x = (a - v) as nat;
        if man > 0x80_0000 {
            assert(0x80_0000 * p <= (man - 1) * p) by (nonlinear_arith)
                requires
                    0x80_0000 < man,
                    p > 0,
            ;
            lemma_excess_bits_unique(x, e);
            assert(2 * x == (man - 1) * (2 * p) + (2 * p - 2 * v)) by (nonlinear_arith)
                requires
                    x == a - v,
                    a - p == (man - 1) * p,
            ;
            lemma_round_half_at(2 * x, e, (man - 1) as nat, (2 * p - 2 * v) as nat);
        } else {
            let h = pow2((e - 1) as nat);
            lemma_pow2_unfold(e);
            lemma_pow2_pos((e - 1) as nat);
            assert(p == 2 * h);
            assert(a == 0x100_0000 * h && 0x80_0000 * h <= a - h && a - h == 0xff_ffff * h)
                by (nonlinear_arith)
                requires
                    a == man * p,
                    man == 0x80_0000,
                    p == 2 * h,
                    h > 0,
            ;
            lemma_excess_bits_unique(x, (e - 1) as nat);
            assert(2 * x == 0xff_ffff * (2 * h) + (2 * h - 2 * v)) by (nonlinear_arith)
                requires
                    x == a - v,
                    a - h == 0xff_ffff * h,
            ;
            lemma_round_half_at(2 * x, (e - 1) as nat, 0xff_ffff, (2 * h - 2 * v) as nat);
        }
    }
}

/// Adds two numbers given by sign, significand and scale, the one of the
/// larger scale first, and rounds the sum.
pub fn add_parts(n1: bool, m1: u32, e1: u32, n2: bool, m2: u32, e2: u32) -> (r: (bool, u32, u32))
    requires
        is_canonical(m1 as nat, e1 as nat),
        is_canonical(m2 as nat, e2 as nat),
        e2 <= e1 <= 251,
    ensures
        is_canonical(r.1 as nat, r.2 as nat),
        ({
            let sum = signed(n1, m1 as nat * pow2(e1 as nat)) + signed(
                n2,
                m2 as nat * pow2(e2 as nat),
            );
            &&& r.0 == sum_sign(n1, n2, sum)
            &&& r.1 as nat * pow2(r.2 as nat) == round_half(2 * distance(sum))
        }),
{
    let gap: u32 = e1 - e2;
    let ghost p1 = pow2(e1 as nat);
    let ghost p2 = pow2(e2 as nat);
    let ghost pg = pow2(gap as nat);
    let ghost v1 = m1 as nat * p1;
    let ghost v2 = m2 as nat * p2;
    proof {
        lemma_pow2_pos(e1 as nat);
        lemma_pow2_pos(e2 as nat);
        lemma_pow2_pos(gap as nat);
        lemma_pow2_adds(gap as nat, e2 as nat);
        assert(p1 == pg * p2);
        assert(v2 < 0x100_0000 * p2) by (nonlinear_arith)
            requires
                v2 == m2 * p2,
                m2 < 0x100_0000,
                p2 > 0,
        ;
    }
    if gap > 32 {
        proof {
            lemma_pow2_monotone(26, gap as nat);
            lemma2_to64();
            assert(4 * v2 < p1) by (nonlinear_arith)
                requires
                    v2 < 0x100_0000 * p2,
                    p1 == pg * p2,
                    pg >= 0x400_0000,
                    p2 > 0,
            ;
            lemma_round_absorbs(m1 as nat, e1 as nat, v2);
            crate::rounding::lemma_round_exact(m1 as nat, e1 as nat);
            assert(v1 >= 0x80_0000 * p1 > 0) by (nonlinear_arith)
                requires
                    v1 == m1 * p1,
                    m1 >= 0x80_0000,
                    p1 > 0,
            ;
        }
        (n1, m1, e1)
    } else {
        proof {
            lemma_pow2_monotone(gap as nat, 32);
            lemma2_to64();
            assert(m1 * pg < 0x100_0000_0000_0000) by (nonlinear_arith)
                requires
                    m1 < 0x100_0000,
                    pg <= 0x1_0000_0000,
            ;
            lemma_u64_shl_is_mul(m1 as u64, gap as u64);
        }
        let big: u64 = (m1 as u64) << (gap as u64);
        let small: u64 = m2 as u64;
        proof {
            assert(big * p2 == v1) by (nonlinear_arith)
                requires
                    big == m1 * pg,
                    p1 == pg * p2,
                    v1 == m1 * p1,
            ;
            assert(small * p2 == v2);
            assert((big + small) * p2 == v1 + v2 && (big - small) * p2 == v1 - v2 && (small - big)
                * p2 == v2 - v1) by (nonlinear_arith)
                requires
                    big * p2 == v1,
                    small * p2 == v2,
            ;
            // the sum stays in the format's range
            lemma_pow2_monotone(e1 as nat, 251);
            lemma_pow2_monotone(e2 as nat, 251);
            lemma_pow2_unfold(252);
            assert(v1 + v2 < 0x100_0000 * pow2(252)) by (nonlinear_arith)
                requires
                    v1 == m1 * p1,
                    v2 == m2 * p2,
                    m1 < 0x100_0000,
                    m2 < 0x100_0000,
                    0 < p1 <= pow2(251),
                    0 < p2 <= pow2(251),
                    pow2(252) == 2 * pow2(251),
            ;
        }
        let negative: bool;
        let x: u64;
        if n1 == n2 {
            x = big + small;
            negative = n1;
        } else if big > small {
            x = big - small;
            negative = n1;
        } else if big < small {
            x = small - big;
            negative = n2;
        } else {
            x = 0;
            negative = false;
        }
        proof {
            let sum = signed(n1, v1) + signed(n2, v2);
            assert(x * p2 == distance(sum));
            assert(x == 0 <==> x * p2 == 0) by (nonlinear_arith)
                requires
                    p2 > 0,
                    x >= 0,
            ;
        }
        let r = round_to_nearest(x, e2);
        (negative, r.0, r.1)
    }
}

/// `(a + b) / 2` in binary32 arithmetic: the sum is rounded to nearest,
/// ties to even, and so is its half. Both terms must be under 2^126 in
/// magnitude, so that the sum is finite.
pub fn midpoint(a: u32, b: u32) -> (m: u32)
    requires
        is_summable(a),
        is_summable(b),
    ensures
        m == midpoint_of(a, b),
        is_finite(m),
        is_negative(m) == sum_sign(is_negative(a), is_negative(b), value(a) + value(b)),
        magnitude(m) == midpoint_magnitude(a, b),
{
    proof {
        lemma_finite_is_canonical(a);
        lemma_finite_is_canonical(b);
    }
    let pa = unpack(a);
    let pb = unpack(b);
    let sum = if pa.2 >= pb.2 {
        add_parts(pa.0, pa.1, pa.2, pb.0, pb.1, pb.2)
    } else {
        add_parts(pb.0, pb.1, pb.2, pa.0, pa.1, pa.2)
    };
    let half = halve(sum.1, sum.2);
    proof {
        reveal(midpoint_of);
        lemma_from_parts_canonical(sum.0, half.0 as nat, half.1 as nat);
    }
    pack(sum.0, half.0, half.1)
}

/// The significand of twice a magnitude.
spec fn doubled_significand(bits: u32) -> nat {
    if significand(bits) >= 0x80_0000 {
        significand(bits)
    } else {
        2 * significand(bits)
    }
}

/// The scale of twice a magnitude.
spec fn doubled_scale(bits: u32) -> nat {
    if significand(bits) >= 0x80_0000 {
        scale(bits) + 1
    } else {
        0
    }
}

/// Twice the magnitude of a pattern under 2^126 is representable.
proof fn lemma_double_is_canonical(bits: u32)
    requires
        is_summable(bits),
    ensures
        is_canonical(significand(bits), scale(bits)),
        is_canonical(doubled_significand(bits), doubled_scale(bits)),
        2 * magnitude(bits) == doubled_significand(bits) * pow2(doubled_scale(bits)),
        magnitude(bits) < 0x100_0000 * pow2(251),
{
    lemma_finite_is_canonical(bits);
    let man = significand(bits);
    let e = scale(bits);
    let p = pow2(e);
    lemma_pow2_unfold(e + 1);
    lemma_pow2_monotone(e, 251);
    lemma2_to64();
    assert(2 * (man * p) == man * (2 * p)) by (nonlinear_arith);
    assert(man * p < 0x100_0000 * pow2(251)) by (nonlinear_arith)
        requires
            man < 0x100_0000,
            0 < p <= pow2(251),
    ;
    if man < 0x80_0000 {
        assert(2 * (man * 1) == (2 * man) * 1) by (nonlinear_arith);
    }
}

/// The midpoint lies between its two ends, as a number, and is no larger in
/// magnitude than the larger of them.
pub proof fn lemma_midpoint_between(a: u32, b: u32)
    requires
        is_summable(a),
        is_summable(b),
        value(a) <= value(b),
    ensures
        is_finite(midpoint_of(a, b)),
        is_negative(midpoint_of(a, b)) == sum_sign(
            is_negative(a),
            is_negative(b),
            value(a) + value(b),
        ),
        magnitude(midpoint_of(a, b)) == midpoint_magnitude(a, b),
        value(a) <= value(midpoint_of(a, b)) <= value(b),
        magnitude(midpoint_of(a, b)) <= magnitude(a) || magnitude(midpoint_of(a, b))
            <= magnitude(b),
{
    reveal(midpoint_of);
    let sum = value(a) + value(b);
    let rounded = sum_magnitude(a, b);
    let mid = midpoint_magnitude(a, b);
    lemma_double_is_canonical(a);
    lemma_double_is_canonical(b);
    // the rounded sum against twice each end, then its half against each end
    lemma_round_half_bounded(2 * distance(sum), doubled_significand(a), doubled_scale(a));
    lemma_round_half_bounded(2 * distance(sum), doubled_significand(b), doubled_scale(b));
    lemma_round_half_bounded(rounded, significand(a), scale(a));
    lemma_round_half_bounded(rounded, significand(b), scale(b));
    if sum == 0 {
        crate::rounding::lemma_round_exact(0, 0);
        assert(0 * pow2(0) == 0) by (nonlinear_arith);
        assert(mid == 0);
    }
    lemma_pow2_unfold(252);
    let (man, e) = crate::rounding::lemma_round_half_parts(rounded);
    lemma_from_parts_canonical(
        sum_sign(is_negative(a), is_negative(b), sum),
        man,
        e,
    );
}

} // verus!
