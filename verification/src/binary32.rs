//! The IEEE 754 binary32 format, read from its bit pattern.
//!
//! A pattern has a sign bit, an 8-bit exponent field and a 23-bit fraction
//! field. Every finite pattern is a whole multiple of 2^-149, the smallest
//! positive number of the format; this module measures magnitudes in that
//! unit, so that the value of a pattern is an integer.

use vstd::arithmetic::mul::lemma_mul_inequality;
use vstd::arithmetic::mul::lemma_mul_strict_inequality;
use vstd::arithmetic::power2::lemma_pow2_pos;
use vstd::arithmetic::power2::lemma_pow2_strictly_increases;
use vstd::arithmetic::power2::lemma_pow2_unfold;
use vstd::arithmetic::power2::pow2;
use vstd::prelude::*;

verus! {

/// The sign bit.
pub const SIGN_BIT: u32 = 0x8000_0000;

/// The weight of the bit that a normal number's significand leads with: 2^23.
pub const HIDDEN_BIT: u32 = 0x0080_0000;

/// The pattern of positive infinity; above it, without the sign, lie the NaNs.
pub const INFINITY: u32 = 0x7f80_0000;

/// The first magnitude pattern whose exponent field is over 252: patterns
/// below it are under 2^126 in magnitude, so that the sum of two of them is finite.
pub const SUM_LIMIT: u32 = 0x7e80_0000;

/// The sign bit is set. This holds of the negative zero too.
pub open spec fn is_negative(bits: u32) -> bool {
    bits >= SIGN_BIT
}

/// The pattern without its sign bit.
pub open spec fn abs_bits(bits: u32) -> u32 {
    if bits >= SIGN_BIT {
        (bits - SIGN_BIT) as u32
    } else {
        bits
    }
}

/// Neither an infinity nor a NaN.
pub open spec fn is_finite(bits: u32) -> bool {
    abs_bits(bits) < INFINITY
}

/// Finite and under 2^126 in magnitude.
pub open spec fn is_summable(bits: u32) -> bool {
    abs_bits(bits) < SUM_LIMIT
}

/// The 8 bits below the sign bit: 0 for zeros and subnormal numbers, 255
/// for infinities and NaNs.
pub open spec fn exponent_field(bits: u32) -> nat {
    (abs_bits(bits) / HIDDEN_BIT) as nat
}

/// The low 23 bits.
pub open spec fn fraction_field(bits: u32) -> nat {
    (abs_bits(bits) % HIDDEN_BIT) as nat
}

/// The significand as an integer below 2^24: the fraction field, led by the
/// hidden bit unless the number is subnormal.
pub open spec fn significand(bits: u32) -> nat {
    if exponent_field(bits) == 0 {
        fraction_field(bits)
    } else {
        fraction_field(bits) + HIDDEN_BIT as nat
    }
}

/// The power of two that the significand is multiplied by, in units of 2^-149.
pub open spec fn scale(bits: u32) -> nat {
    if exponent_field(bits) == 0 {
        0
    } else {
        (exponent_field(bits) - 1) as nat
    }
}

/// The magnitude of a finite pattern in units of 2^-149.
pub open spec fn magnitude(bits: u32) -> nat {
    significand(bits) * pow2(scale(bits))
}

/// The value of a finite pattern in units of 2^-149. Both zeros have value 0.
pub open spec fn value(bits: u32) -> int {
    if is_negative(bits) {
        -(magnitude(bits) as int)
    } else {
        magnitude(bits) as int
    }
}

/// A significand and a scale as a finite pattern holds them: the significand
/// leads with the hidden bit unless the scale is 0.
pub open spec fn is_canonical(man: nat, e: nat) -> bool {
    &&& man < 0x100_0000
    &&& e <= 253
    &&& (e == 0 || man >= 0x80_0000)
}

/// How many low bits `x` has beyond 24: the scale of the representable
/// numbers around magnitude `x`.
pub open spec fn excess_bits(x: nat) -> nat
    decreases x,
{
    if x < 0x100_0000 {
        0
    } else {
        1 + excess_bits(x / 2)
    }
}

/// The finite pattern with the given sign and magnitude, for a magnitude
/// that the format holds exactly. With `e` excess bits the significand is
/// `man = mag / 2^e`. A normal number has the exponent field `e + 1` and
/// the fraction `man - 2^23`, a subnormal one the field 0 and the fraction
/// `man`: either way the fields together read `e * 2^23 + man`.
pub open spec fn from_parts(negative: bool, mag: nat) -> u32 {
    let e = excess_bits(mag);
    let man = mag / pow2(e);
    let abs = e * HIDDEN_BIT + man;
    if negative {
        (abs + SIGN_BIT) as u32
    } else {
        abs as u32
    }
}

/// `excess_bits(x)` is the one `k` with `x` in the range of scale `k`.
pub proof fn lemma_excess_bits_unique(x: nat, k: nat)
    requires
        k == 0 ==> x < 0x100_0000,
        k > 0 ==> 0x80_0000 * pow2(k) <= x < 0x100_0000 * pow2(k),
    ensures
        excess_bits(x) == k,
    decreases k,
{
    if k > 0 {
        lemma_pow2_unfold(k);
        lemma_pow2_pos((k - 1) as nat);
        let p = pow2((k - 1) as nat);
        assert(pow2(k) == 2 * p);
        assert(0x80_0000 * (2 * p) == 0x100_0000 * p) by (nonlinear_arith);
        assert(0x100_0000 * (2 * p) == 2 * (0x100_0000 * p)) by (nonlinear_arith);
        assert(0x100_0000 * p >= 0x100_0000) by (nonlinear_arith)
            requires
                p >= 1,
        ;
        assert(x >= 0x100_0000);
        if k - 1 > 0 {
            assert(0x80_0000 * (2 * p) == 2 * (0x80_0000 * p)) by (nonlinear_arith);
        } else {
            assert(p == 1) by {
                vstd::arithmetic::power2::lemma2_to64();
            }
        }
        lemma_excess_bits_unique(x / 2, (k - 1) as nat);
    }
}

/// The range that `x` lies in, by its `excess_bits`.
pub proof fn lemma_excess_bits_range(x: nat)
    ensures
        excess_bits(x) == 0 ==> x < 0x100_0000,
        excess_bits(x) > 0 ==> 0x80_0000 * pow2(excess_bits(x)) <= x < 0x100_0000 * pow2(
            excess_bits(x),
        ),
    decreases x,
{
    if x >= 0x100_0000 {
        let k = excess_bits(x / 2);
        lemma_excess_bits_range(x / 2);
        lemma_pow2_unfold(k + 1);
        let p = pow2(k);
        assert(pow2(k + 1) == 2 * p);
        assert(0x80_0000 * (2 * p) == 2 * (0x80_0000 * p)) by (nonlinear_arith);
        assert(0x100_0000 * (2 * p) == 2 * (0x100_0000 * p)) by (nonlinear_arith);
        if k == 0 {
            assert(pow2(0) == 1) by {
                vstd::arithmetic::power2::lemma2_to64();
            }
        }
    }
}

/// The magnitude `man * 2^e` of a canonical pair has `e` excess bits and
/// gives back `man` when divided by `2^e`.
pub proof fn lemma_canonical_parts(man: nat, e: nat)
    requires
        is_canonical(man, e),
    ensures
        excess_bits(man * pow2(e)) == e,
        (man * pow2(e)) / pow2(e) == man,
{
    let p = pow2(e);
    lemma_pow2_pos(e);
    if e > 0 {
        lemma_mul_inequality(0x80_0000, man as int, p as int);
        lemma_mul_strict_inequality(man as int, 0x100_0000, p as int);
    } else {
        assert(pow2(0) == 1) by {
            vstd::arithmetic::power2::lemma2_to64();
        }
    }
    lemma_excess_bits_unique(man * p, e);
    vstd::arithmetic::div_mod::lemma_div_multiples_vanish(man as int, p as int);
}

/// Powers of two grow with the exponent.
pub proof fn lemma_pow2_monotone(a: nat, b: nat)
    requires
        a <= b,
    ensures
        1 <= pow2(a) <= pow2(b),
{
    lemma_pow2_pos(a);
    if a < b {
        lemma_pow2_strictly_increases(a, b);
    }
}

/// The significand and scale of a finite pattern are canonical.
pub proof fn lemma_finite_is_canonical(bits: u32)
    requires
        is_finite(bits),
    ensures
        is_canonical(significand(bits), scale(bits)),
        abs_bits(bits) == scale(bits) * HIDDEN_BIT + significand(bits),
        is_summable(bits) <==> scale(bits) <= 251,
{
}

/// A finite pattern is made of its sign and its magnitude.
pub proof fn lemma_from_parts_of_pattern(bits: u32)
    requires
        is_finite(bits),
    ensures
        from_parts(is_negative(bits), magnitude(bits)) == bits,
{
    lemma_finite_is_canonical(bits);
    lemma_canonical_parts(significand(bits), scale(bits));
}

/// Sign and magnitude determine a finite pattern.
pub proof fn lemma_pattern_is_determined(a: u32, b: u32)
    requires
        is_finite(a),
        is_finite(b),
        is_negative(a) == is_negative(b),
        magnitude(a) == magnitude(b),
    ensures
        a == b,
{
    lemma_from_parts_of_pattern(a);
    lemma_from_parts_of_pattern(b);
}

/// The pattern made of a sign and a canonical pair holds exactly these.
pub proof fn lemma_from_parts_canonical(negative: bool, man: nat, e: nat)
    requires
        is_canonical(man, e),
    ensures
        ({
            let bits = from_parts(negative, man * pow2(e));
            &&& is_finite(bits)
            &&& is_negative(bits) == negative
            &&& significand(bits) == man
            &&& scale(bits) == e
            &&& magnitude(bits) == man * pow2(e)
            &&& abs_bits(bits) == e * HIDDEN_BIT + man
        }),
{
    lemma_canonical_parts(man, e);
    let abs = e * HIDDEN_BIT + man;
    assert(abs < INFINITY);
    let bits = from_parts(negative, man * pow2(e));
    assert(abs_bits(bits) == abs);
    if e == 0 {
        if man >= 0x80_0000 {
            assert(abs / (HIDDEN_BIT as int) == 1);
        }
    } else {
        assert(abs == (e + 1) * HIDDEN_BIT + (man - HIDDEN_BIT));
        assert(abs / (HIDDEN_BIT as int) == e + 1);
        assert(abs % (HIDDEN_BIT as int) == man - HIDDEN_BIT);
    }
}

/// Among finite patterns a larger magnitude pattern is a larger magnitude.
pub proof fn lemma_magnitude_strictly_ordered(a: u32, b: u32)
    requires
        is_finite(a),
        is_finite(b),
        abs_bits(a) < abs_bits(b),
    ensures
        magnitude(a) < magnitude(b),
{
    let pa = pow2(scale(a));
    let pb = pow2(scale(b));
    lemma_pow2_pos(scale(a));
    lemma_pow2_pos(scale(b));
    if exponent_field(a) == exponent_field(b) {
        lemma_mul_strict_inequality(significand(a) as int, significand(b) as int, pa as int);
    } else {
        assert(exponent_field(a) < exponent_field(b));
        lemma_mul_inequality(0x80_0000, significand(b) as int, pb as int);
        if exponent_field(a) == 0 {
            assert(pa == 1) by {
                vstd::arithmetic::power2::lemma2_to64();
            }
            assert(0x80_0000 * pb >= 0x80_0000) by (nonlinear_arith)
                requires
                    pb >= 1,
            ;
        } else {
            lemma_mul_strict_inequality(significand(a) as int, 0x100_0000, pa as int);
            lemma_pow2_unfold(scale(a) + 1);
            lemma_pow2_monotone(scale(a) + 1, scale(b));
            assert(0x100_0000 * pa == 0x80_0000 * (2 * pa)) by (nonlinear_arith);
            lemma_mul_inequality(2 * pa as int, pb as int, 0x80_0000);
            assert((2 * pa) * 0x80_0000 == 0x80_0000 * (2 * pa) && pb * 0x80_0000 == 0x80_0000
                * pb) by (nonlinear_arith);
        }
    }
}

/// Among finite patterns magnitudes are ordered as their patterns are.
pub proof fn lemma_magnitude_order(a: u32, b: u32)
    requires
        is_finite(a),
        is_finite(b),
    ensures
        abs_bits(a) <= abs_bits(b) <==> magnitude(a) <= magnitude(b),
        abs_bits(a) == abs_bits(b) <==> magnitude(a) == magnitude(b),
{
    if abs_bits(a) < abs_bits(b) {
        lemma_magnitude_strictly_ordered(a, b);
    } else if abs_bits(b) < abs_bits(a) {
        lemma_magnitude_strictly_ordered(b, a);
    }
}

/// Only the two zeros have magnitude 0.
pub proof fn lemma_magnitude_zero(bits: u32)
    requires
        is_finite(bits),
    ensures
        magnitude(bits) == 0 <==> abs_bits(bits) == 0,
{
    lemma_magnitude_order(bits, 0);
    assert(magnitude(0) == 0) by {
        assert(significand(0) == 0);
        assert(0 * pow2(scale(0)) == 0) by (nonlinear_arith);
    }
}

/// Whether `bits` is neither an infinity nor a NaN.
pub fn finite(bits: u32) -> (r: bool)
    ensures
        r == is_finite(bits),
{
    let abs: u32 = if bits >= SIGN_BIT {
        bits - SIGN_BIT
    } else {
        bits
    };
    abs < INFINITY
}

/// The sign, the significand and the scale of a finite pattern.
pub fn unpack(bits: u32) -> (parts: (bool, u32, u32))
    requires
        is_finite(bits),
    ensures
        parts.0 == is_negative(bits),
        parts.1 == significand(bits),
        parts.2 == scale(bits),
        is_canonical(parts.1 as nat, parts.2 as nat),
{
    let negative: bool = bits >= SIGN_BIT;
    let abs: u32 = if negative {
        bits - SIGN_BIT
    } else {
        bits
    };
    let field: u32 = abs / HIDDEN_BIT;
    let fraction: u32 = abs % HIDDEN_BIT;
    if field == 0 {
        (negative, fraction, 0)
    } else {
        (negative, fraction + HIDDEN_BIT, field - 1)
    }
}

/// The finite pattern with the given sign, significand and scale.
pub fn pack(negative: bool, man: u32, e: u32) -> (bits: u32)
    requires
        is_canonical(man as nat, e as nat),
    ensures
        bits == from_parts(negative, man as nat * pow2(e as nat)),
        is_finite(bits),
        is_negative(bits) == negative,
        significand(bits) == man,
        scale(bits) == e,
{
    proof {
        lemma_from_parts_canonical(negative, man as nat, e as nat);
    }
    let abs: u32 = e * HIDDEN_BIT + man;
    if negative {
        abs + SIGN_BIT
    } else {
        abs
    }
}

/// Whether `a <= b` as numbers. The two zeros are equal.
pub fn less_or_equal(a: u32, b: u32) -> (r: bool)
    requires
        is_finite(a),
        is_finite(b),
    ensures
        r == (value(a) <= value(b)),
{
    proof {
        lemma_magnitude_order(a, b);
        lemma_magnitude_zero(a);
        lemma_magnitude_zero(b);
    }
    if a >= SIGN_BIT {
        if b >= SIGN_BIT {
            b - SIGN_BIT <= a - SIGN_BIT
        } else {
            true
        }
    } else {
        if b >= SIGN_BIT {
            a == 0 && b == SIGN_BIT
        } else {
            a <= b
        }
    }
}

} // verus!
