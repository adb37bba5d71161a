//! The base-32 alphabet of geohashes: 32 symbols for the 5-bit values 0..=31.

use crate::error::GeohashError;
use vstd::prelude::*;

verus! {

/// The symbols in the order of the values they stand for. The letters
/// `a`, `i`, `l` and `o` are left out.
pub const BASE32_ENCODING: [char; 32] = [
    '0', '1', '2', '3', '4', '5', '6', '7', '8', '9', 'b', 'c', 'd', 'e', 'f', 'g', 'h', 'j', 'k',
    'm', 'n', 'p', 'q', 'r', 's', 't', 'u', 'v', 'w', 'x', 'y', 'z',
];

/// The alphabet as a sequence: the symbol for value `v` stands at index `v`.
pub open spec fn alphabet() -> Seq<char> {
    BASE32_ENCODING@
}

/// The value that `c` stands for, if `c` is a symbol of the alphabet.
pub open spec fn symbol_value(c: char) -> Option<u8> {
    if alphabet().contains(c) {
        Some(alphabet().index_of(c) as u8)
    } else {
        None
    }
}

/// The code point of the symbol for `v`, in closed form: the alphabet is
/// made of five runs of consecutive characters.
spec fn code_point(v: int) -> int {
    if v < 10 {
        48 + v
    } else if v < 17 {
        88 + v
    } else if v < 19 {
        89 + v
    } else if v < 21 {
        90 + v
    } else {
        91 + v
    }
}

proof fn lemma_code_points()
    ensures
        alphabet().len() == 32,
        forall|v: int| 0 <= v < 32 ==> (#[trigger] alphabet()[v]) as int == code_point(v),
{
    assert forall|v: int| 0 <= v < 32 implies (#[trigger] alphabet()[v]) as int == code_point(
        v,
    ) by {
        let a = BASE32_ENCODING;
        assert(a[0] == '0' && a[1] == '1' && a[2] == '2' && a[3] == '3' && a[4] == '4' && a[5]
            == '5' && a[6] == '6' && a[7] == '7');
        assert(a[8] == '8' && a[9] == '9' && a[10] == 'b' && a[11] == 'c' && a[12] == 'd' && a[13]
            == 'e' && a[14] == 'f' && a[15] == 'g');
        assert(a[16] == 'h' && a[17] == 'j' && a[18] == 'k' && a[19] == 'm' && a[20] == 'n'
            && a[21] == 'p' && a[22] == 'q' && a[23] == 'r');
        assert(a[24] == 's' && a[25] == 't' && a[26] == 'u' && a[27] == 'v' && a[28] == 'w'
            && a[29] == 'x' && a[30] == 'y' && a[31] == 'z');
    }
}

/// No symbol occurs twice in the alphabet.
pub proof fn lemma_alphabet_distinct()
    ensures
        alphabet().len() == 32,
        forall|i: int, j: int|
            0 <= i < 32 && 0 <= j < 32 && i != j ==> #[trigger] alphabet()[i]
                != #[trigger] alphabet()[j],
{
    lemma_code_points();
    assert forall|i: int, j: int|
        0 <= i < 32 && 0 <= j < 32 && i != j implies #[trigger] alphabet()[i]
        != #[trigger] alphabet()[j] by {
        assert(code_point(i) != code_point(j));
    }
}

/// Decoding undoes encoding: the symbol for `v` stands for `v` and for nothing else.
pub proof fn lemma_symbol_value_of_symbol(v: u8)
    requires
        v < 32,
    ensures
        symbol_value(alphabet()[v as int]) == Some(v),
{
    lemma_alphabet_distinct();
    let c = alphabet()[v as int];
    assert(alphabet().contains(c));
    let i = alphabet().index_of(c);
    assert(0 <= i < 32 && alphabet()[i] == c);
    assert(i == v);
}

/// The symbol for the 5-bit value `i`.
pub fn encode_b32(i: &u8) -> (c: char)
    requires
        *i < 32,
    ensures
        c == alphabet()[*i as int],
        symbol_value(c) == Some(*i),
{
    proof {
        lemma_symbol_value_of_symbol(*i);
    }
    BASE32_ENCODING[*i as usize]
}

/// The 5-bit value that the symbol `c` stands for. The match is exact:
/// upper-case letters, white space and the four letters that the alphabet
/// leaves out are rejected.
pub fn decode_b32(c: &char) -> (r: Result<u8, GeohashError>)
    ensures
        r == match symbol_value(*c) {
            Some(v) => Ok::<u8, GeohashError>(v),
            None => Err(GeohashError::InvalidCharacter),
        },
        r matches Ok(v) ==> v < 32 && alphabet()[v as int] == *c,
        r is Err <==> !alphabet().contains(*c),
{
    let mut i: u8 = 0;
    while i < 32
        invariant
            i <= 32,
            forall|j: int| 0 <= j < i ==> alphabet()[j] != *c,
        decreases 32 - i,
    {
        if BASE32_ENCODING[i as usize] == *c {
            proof {
                lemma_symbol_value_of_symbol(i);
            }
            return Ok(i);
        }
        i = i + 1;
    }
    proof {
        lemma_code_points();
    }
    Err(GeohashError::InvalidCharacter)
}

/// The weight of bit `i` of a 5-bit value.
pub open spec fn weight(i: u8) -> u8 {
    if i == 0 {
        1
    } else if i == 1 {
        2
    } else if i == 2 {
        4
    } else if i == 3 {
        8
    } else {
        16
    }
}

/// Whether bit `i` of `v` is set, bit 4 being the first of a 5-bit value.
pub open spec fn bit_at(v: u8, i: u8) -> bool {
    (v / weight(i)) % 2 == 1
}

/// What a bit adds to a value at position `i`.
pub open spec fn bit_weight(set: bool, i: u8) -> u8 {
    if set {
        weight(i)
    } else {
        0
    }
}

/// The 5-bit value made of five bits, the first bit weighing most.
pub open spec fn join_bits(b4: bool, b3: bool, b2: bool, b1: bool, b0: bool) -> u8 {
    (bit_weight(b4, 4) + bit_weight(b3, 3) + bit_weight(b2, 2) + bit_weight(b1, 1) + bit_weight(
        b0,
        0,
    )) as u8
}

/// A value joined from five bits is below 32 and holds these bits.
pub proof fn lemma_join_bits(b4: bool, b3: bool, b2: bool, b1: bool, b0: bool)
    ensures
        join_bits(b4, b3, b2, b1, b0) < 32,
        bit_at(join_bits(b4, b3, b2, b1, b0), 4) == b4,
        bit_at(join_bits(b4, b3, b2, b1, b0), 3) == b3,
        bit_at(join_bits(b4, b3, b2, b1, b0), 2) == b2,
        bit_at(join_bits(b4, b3, b2, b1, b0), 1) == b1,
        bit_at(join_bits(b4, b3, b2, b1, b0), 0) == b0,
{
}

/// The mask that selects bit `i`.
pub fn bit_mask(i: u8) -> (m: u8)
    requires
        i < 5,
    ensures
        m == weight(i),
{
    assert(1u8 << i == if i == 0 {
        1u8
    } else if i == 1 {
        2u8
    } else if i == 2 {
        4u8
    } else if i == 3 {
        8u8
    } else {
        16u8
    }) by (bit_vector)
        requires
            i < 5,
    ;
    1u8 << i
}

/// Whether bit `i` of `v` is set.
pub fn test_bit(v: u8, i: u8) -> (set: bool)
    requires
        i < 5,
    ensures
        set == bit_at(v, i),
{
    let m: u8 = bit_mask(i);
    assert((0 < (v & m)) == ((v / m) % 2 == 1)) by (bit_vector)
        requires
            m == 1 || m == 2 || m == 4 || m == 8 || m == 16,
    ;
    0 < (v & m)
}

} // verus!
