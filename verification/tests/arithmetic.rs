use geohash_rs::binary32::{finite, less_or_equal, pack, unpack};
use geohash_rs::midpoint::{add_parts, midpoint};
use geohash_rs::rounding::{halve, round_to_nearest};

/// A small generator of 32-bit patterns (xorshift).
struct Patterns(u32);

impl Patterns {
    fn next(&mut self) -> u32 {
        let mut x = self.0;
        x ^= x << 13;
        x ^= x >> 17;
        x ^= x << 5;
        self.0 = x;
        x
    }
}

fn summable(bits: u32) -> bool {
    (bits & 0x7fff_ffff) < 0x7e80_0000
}

fn native_midpoint(a: u32, b: u32) -> u32 {
    ((f32::from_bits(a) + f32::from_bits(b)) / 2.0).to_bits()
}

#[test]
fn finite_tells_numbers_from_the_rest() {
    assert!(finite(0));
    assert!(finite(0x8000_0000));
    assert!(finite(1.5f32.to_bits()));
    assert!(finite(f32::MAX.to_bits()));
    assert!(finite(f32::MIN.to_bits()));
    assert!(finite(f32::MIN_POSITIVE.to_bits()));
    assert!(finite(1));
    assert!(!finite(f32::INFINITY.to_bits()));
    assert!(!finite(f32::NEG_INFINITY.to_bits()));
    assert!(!finite(f32::NAN.to_bits()));
    assert!(!finite(0x7f80_0001));
    assert!(!finite(0xffff_ffff));
}

#[test]
fn finite_agrees_with_the_machine() {
    let mut gen = Patterns(0x1234_5678);
    for _ in 0..20000 {
        let bits = gen.next();
        assert_eq!(finite(bits), f32::from_bits(bits).is_finite());
    }
}

#[test]
fn unpack_gives_sign_significand_and_scale() {
    assert_eq!(unpack(0), (false, 0, 0));
    assert_eq!(unpack(0x8000_0000), (true, 0, 0));
    assert_eq!(unpack(1), (false, 1, 0));
    assert_eq!(unpack(0x007f_ffff), (false, 0x7f_ffff, 0));
    assert_eq!(unpack(0x0080_0000), (false, 0x80_0000, 0));
    assert_eq!(unpack(0x0100_0000), (false, 0x80_0000, 1));
    // 1.0 = 2^23 * 2^-23: scale 126 in units of 2^-149
    assert_eq!(unpack(1.0f32.to_bits()), (false, 0x80_0000, 126));
    assert_eq!(unpack((-90.0f32).to_bits()), (true, 0xb4_0000, 132));
    assert_eq!(unpack(180.0f32.to_bits()), (false, 0xb4_0000, 133));
    assert_eq!(unpack(f32::MAX.to_bits()), (false, 0xff_ffff, 253));
}

#[test]
fn pack_inverts_unpack() {
    let mut gen = Patterns(0x9e37_79b9);
    let mut seen = 0;
    while seen < 20000 {
        let bits = gen.next();
        if !finite(bits) {
            continue;
        }
        seen += 1;
        let (negative, man, e) = unpack(bits);
        assert_eq!(pack(negative, man, e), bits);
        let value = (man as f64) * 2f64.powi(e as i32 - 149);
        let value = if negative { -value } else { value };
        assert_eq!(value, f32::from_bits(bits) as f64);
    }
}

#[test]
fn less_or_equal_agrees_with_the_machine() {
    let mut gen = Patterns(0x0bad_cafe);
    let mut seen = 0;
    while seen < 20000 {
        let a = gen.next();
        let b = if seen % 3 == 0 { a ^ (gen.next() & 0x8000_00ff) } else { gen.next() };
        if !finite(a) || !finite(b) {
            continue;
        }
        seen += 1;
        assert_eq!(less_or_equal(a, b), f32::from_bits(a) <= f32::from_bits(b));
    }
}

#[test]
fn less_or_equal_treats_the_zeros_as_equal() {
    let pz = 0.0f32.to_bits();
    let nz = (-0.0f32).to_bits();
    assert!(less_or_equal(pz, nz));
    assert!(less_or_equal(nz, pz));
    assert!(less_or_equal(nz, nz));
    assert!(less_or_equal(nz, 1));
    assert!(!less_or_equal(pz, 0x8000_0001));
    assert!(less_or_equal(0x8000_0001, nz));
    assert!(less_or_equal((-3.0f32).to_bits(), (-2.0f32).to_bits()));
    assert!(!less_or_equal((-2.0f32).to_bits(), (-3.0f32).to_bits()));
    assert!(less_or_equal(2.0f32.to_bits(), 2.0f32.to_bits()));
}

#[test]
fn round_to_nearest_keeps_what_fits() {
    assert_eq!(round_to_nearest(0, 0), (0, 0));
    assert_eq!(round_to_nearest(0, 17), (0, 0));
    assert_eq!(round_to_nearest(1, 0), (1, 0));
    assert_eq!(round_to_nearest(1, 3), (8, 0));
    assert_eq!(round_to_nearest(1, 23), (0x80_0000, 0));
    assert_eq!(round_to_nearest(1, 24), (0x80_0000, 1));
    assert_eq!(round_to_nearest(0xff_ffff, 5), (0xff_ffff, 5));
    assert_eq!(round_to_nearest(3, 100), (0xc0_0000, 78));
}

#[test]
fn round_to_nearest_rounds_ties_to_even() {
    // 2^24 + 1 lies midway between 2^24 and 2^24 + 2: the even significand wins
    assert_eq!(round_to_nearest(0x100_0001, 0), (0x80_0000, 1));
    // 2^24 + 3 lies midway between 2^24 + 2 and 2^24 + 4
    assert_eq!(round_to_nearest(0x100_0003, 0), (0x80_0002, 1));
    // below and above the tie
    assert_eq!(round_to_nearest(0x200_0001, 0), (0x80_0000, 2));
    assert_eq!(round_to_nearest(0x200_0002, 0), (0x80_0000, 2));
    assert_eq!(round_to_nearest(0x200_0003, 0), (0x80_0001, 2));
    assert_eq!(round_to_nearest(0x200_0006, 0), (0x80_0002, 2));
    // a carry out of the significand
    assert_eq!(round_to_nearest(0x1ff_ffff, 0), (0x80_0000, 2));
    assert_eq!(round_to_nearest(0x1ff_ffff, 7), (0x80_0000, 9));
}

#[test]
fn round_to_nearest_agrees_with_the_machine() {
    let mut gen = Patterns(0x5151_5151);
    for _ in 0..20000 {
        let x = (((gen.next() as u64) << 32) | gen.next() as u64) >> (7 + gen.next() % 57);
        let e = gen.next() % 150;
        let (man, scale) = round_to_nearest(x, e);
        // x is below 2^57 and converts to binary32 in one rounding
        let expected = (x as f32) * 2f32.powi(e as i32 - 100);
        let got = (man as f32) * 2f32.powi(scale as i32 - 100);
        assert_eq!(got.to_bits(), expected.to_bits());
        assert!(man < 0x100_0000);
        assert!(scale == 0 || man >= 0x80_0000);
    }
}

#[test]
fn halve_is_exact_above_the_subnormals() {
    assert_eq!(halve(0x80_0000, 5), (0x80_0000, 4));
    assert_eq!(halve(0xff_ffff, 1), (0xff_ffff, 0));
    assert_eq!(halve(0xb4_0000, 133), (0xb4_0000, 132));
}

#[test]
fn halve_rounds_ties_to_even_at_the_bottom() {
    assert_eq!(halve(0, 0), (0, 0));
    assert_eq!(halve(1, 0), (0, 0));
    assert_eq!(halve(2, 0), (1, 0));
    assert_eq!(halve(3, 0), (2, 0));
    assert_eq!(halve(4, 0), (2, 0));
    assert_eq!(halve(5, 0), (2, 0));
    assert_eq!(halve(7, 0), (4, 0));
    assert_eq!(halve(0xff_ffff, 0), (0x80_0000, 0));
    assert_eq!(halve(0xff_fffd, 0), (0x7f_fffe, 0));
}

#[test]
fn add_parts_adds_and_subtracts() {
    // 3 + 5 = 8 at scale 0
    assert_eq!(add_parts(false, 3, 0, false, 5, 0), (false, 8, 0));
    // 3 - 5 = -2
    assert_eq!(add_parts(false, 3, 0, true, 5, 0), (true, 2, 0));
    // -3 + 5 = 2
    assert_eq!(add_parts(true, 3, 0, false, 5, 0), (false, 2, 0));
    // x - x = +0, -0 + -0 = -0
    assert_eq!(add_parts(false, 0xb4_0000, 133, true, 0xb4_0000, 133), (false, 0, 0));
    assert_eq!(add_parts(true, 0xb4_0000, 133, false, 0xb4_0000, 133), (false, 0, 0));
    assert_eq!(add_parts(true, 0, 0, true, 0, 0), (true, 0, 0));
    assert_eq!(add_parts(false, 0, 0, true, 0, 0), (false, 0, 0));
    // a term far below the last place is absorbed
    assert_eq!(add_parts(false, 0x80_0000, 100, false, 0xff_ffff, 10), (false, 0x80_0000, 100));
    assert_eq!(add_parts(false, 0x80_0000, 100, true, 0xff_ffff, 10), (false, 0x80_0000, 100));
    assert_eq!(add_parts(true, 0xc0_0000, 40, false, 1, 0), (true, 0xc0_0000, 40));
}

#[test]
fn midpoint_of_the_first_bisections() {
    let m = |a: f32, b: f32| f32::from_bits(midpoint(a.to_bits(), b.to_bits()));
    assert_eq!(m(-180.0, 180.0).to_bits(), 0.0f32.to_bits());
    assert_eq!(m(-90.0, 90.0).to_bits(), 0.0f32.to_bits());
    assert_eq!(m(0.0, 180.0), 90.0);
    assert_eq!(m(-180.0, 0.0), -90.0);
    assert_eq!(m(90.0, 180.0), 135.0);
    assert_eq!(m(112.5, 135.0), 123.75);
    assert_eq!(m(0.0, 0.0).to_bits(), 0.0f32.to_bits());
    assert_eq!(m(-0.0, -0.0).to_bits(), (-0.0f32).to_bits());
    assert_eq!(m(-0.0, 0.0).to_bits(), 0.0f32.to_bits());
    assert_eq!(m(1.0, 1.0), 1.0);
}

#[test]
fn midpoint_among_the_subnormals() {
    for a in 0u32..40 {
        for b in 0u32..40 {
            for (sa, sb) in [(0u32, 0u32), (0x8000_0000, 0), (0, 0x8000_0000), (0x8000_0000, 0x8000_0000)] {
                let (x, y) = (a | sa, b | sb);
                assert_eq!(midpoint(x, y), native_midpoint(x, y), "{:#x} {:#x}", x, y);
                let (x, y) = (x + 0x7f_fff0, y + 0x7f_fff0);
                assert_eq!(midpoint(x, y), native_midpoint(x, y), "{:#x} {:#x}", x, y);
            }
        }
    }
}

#[test]
fn midpoint_agrees_with_the_machine_on_any_patterns() {
    let mut gen = Patterns(0x2545_f491);
    let mut seen = 0;
    while seen < 200000 {
        let a = gen.next();
        let b = gen.next();
        if !summable(a) || !summable(b) {
            continue;
        }
        seen += 1;
        assert_eq!(midpoint(a, b), native_midpoint(a, b), "{:#x} {:#x}", a, b);
    }
}

#[test]
fn midpoint_agrees_with_the_machine_on_close_scales() {
    let mut gen = Patterns(0x1f2e_3d4c);
    let mut seen = 0;
    while seen < 300000 {
        let a = gen.next();
        // an exponent field within 40 of that of `a`, any sign, any fraction
        let field = ((a >> 23) & 0xff) as i64 + (gen.next() % 81) as i64 - 40;
        if !(0..=252).contains(&field) {
            continue;
        }
        let b = (gen.next() & 0x807f_ffff) | ((field as u32) << 23);
        if !summable(a) || !summable(b) {
            continue;
        }
        seen += 1;
        assert_eq!(midpoint(a, b), native_midpoint(a, b), "{:#x} {:#x}", a, b);
        assert_eq!(midpoint(b, a), native_midpoint(a, b), "{:#x} {:#x}", a, b);
    }
}

#[test]
fn midpoint_agrees_with_the_machine_near_ties() {
    let mut gen = Patterns(0x7777_0001);
    let mut seen = 0;
    while seen < 100000 {
        // significands with few set bits, so that halves and ties are common
        let fa = (1u32 << (gen.next() % 23)) | (1u32 << (gen.next() % 23));
        let fb = (1u32 << (gen.next() % 23)).wrapping_sub(gen.next() % 2);
        let ea = gen.next() % 60;
        let eb = gen.next() % 60;
        let a = (gen.next() & 0x8000_0000) | (ea << 23) | (fa & 0x7f_ffff);
        let b = (gen.next() & 0x8000_0000) | (eb << 23) | (fb & 0x7f_ffff);
        seen += 1;
        assert_eq!(midpoint(a, b), native_midpoint(a, b), "{:#x} {:#x}", a, b);
    }
}

#[test]
fn midpoint_lies_between_its_ends() {
    let mut gen = Patterns(0x0101_0101);
    let mut seen = 0;
    while seen < 50000 {
        let a = gen.next();
        let b = gen.next();
        if !summable(a) || !summable(b) {
            continue;
        }
        seen += 1;
        let (lo, hi) = if less_or_equal(a, b) { (a, b) } else { (b, a) };
        let m = midpoint(lo, hi);
        assert!(less_or_equal(lo, m) && less_or_equal(m, hi));
    }
}
