//! From a point on the globe to its geohash.

use crate::base32::alphabet;
use crate::base32::bit_mask;
use crate::base32::bit_weight;
use crate::base32::encode_b32;
use crate::base32::join_bits;
use crate::base32::lemma_join_bits;
use crate::binary32::finite;
use crate::binary32::is_finite;
use crate::binary32::less_or_equal;
use crate::binary32::value;
use crate::bound::Bound;
use crate::bound::BoundQueue;
use crate::bound::MAX_LATITUDE;
use crate::bound::MAX_LONGITUDE;
use crate::bound::MIN_LATITUDE;
use crate::bound::MIN_LONGITUDE;
use crate::bound::lemma_half_narrows;
use crate::bound::lemma_limits;
use crate::error::GeohashError;
use vstd::prelude::*;

verus! {

/// `String::push` of std appends one character to the string: afterwards
/// the string holds what it held, followed by `c`.
pub assume_specification[ String::push ](s: &mut String, c: char)
    ensures
        final(s)@ == old(s)@.push(c),
;

/// A coordinate and the bound that has been drawn around it so far.
#[derive(Debug, Clone, Copy, PartialEq, Eq)]
pub struct CoordInfo {
    pub bound: Bound,
    pub coord: u32,
}

impl CoordInfo {
    /// The bound is well formed and holds the coordinate.
    pub open spec fn wf(self) -> bool {
        &&& self.bound.wf()
        &&& is_finite(self.coord)
        &&& self.bound.contains(self.coord)
    }

    /// Whether the coordinate lies in the upper half of its bound. A
    /// coordinate on the middle counts as above it.
    pub open spec fn takes_upper(self) -> bool {
        value(self.bound.middle()) <= value(self.coord)
    }

    /// The bound halved toward the coordinate.
    pub open spec fn step(self) -> CoordInfo {
        CoordInfo { bound: self.bound.half(self.takes_upper()), coord: self.coord }
    }
}

/// The two coordinates of a point with their bounds, and which of them is
/// halved next.
#[derive(Debug, Clone, Copy, PartialEq, Eq)]
pub struct CoordQueue {
    pub longitude: CoordInfo,
    pub latitude: CoordInfo,
    pub longitude_next: bool,
}

impl CoordQueue {
    pub open spec fn wf(self) -> bool {
        self.longitude.wf() && self.latitude.wf()
    }

    /// The point with the whole globe around it, longitude to be halved first.
    pub open spec fn start(latitude: u32, longitude: u32) -> CoordQueue {
        CoordQueue {
            longitude: CoordInfo {
                bound: Bound { low: MIN_LONGITUDE, high: MAX_LONGITUDE },
                coord: longitude,
            },
            latitude: CoordInfo {
                bound: Bound { low: MIN_LATITUDE, high: MAX_LATITUDE },
                coord: latitude,
            },
            longitude_next: true,
        }
    }

    /// The bounds alone.
    pub open spec fn bounds(self) -> BoundQueue {
        BoundQueue {
            longitude: self.longitude.bound,
            latitude: self.latitude.bound,
            longitude_next: self.longitude_next,
        }
    }

    /// The coordinate to be halved next.
    pub open spec fn head(self) -> CoordInfo {
        if self.longitude_next {
            self.longitude
        } else {
            self.latitude
        }
    }

    /// The bit that the next bisection gives.
    pub open spec fn next_bit(self) -> bool {
        self.head().takes_upper()
    }

    /// One bisection: the head is halved toward its coordinate and goes to the back.
    pub open spec fn step(self) -> CoordQueue {
        if self.longitude_next {
            CoordQueue {
                longitude: self.longitude.step(),
                latitude: self.latitude,
                longitude_next: false,
            }
        } else {
            CoordQueue {
                longitude: self.longitude,
                latitude: self.latitude.step(),
                longitude_next: true,
            }
        }
    }

    /// The queue after the five bisections of one symbol.
    #[verifier::opaque]
    pub open spec fn after_symbol(self) -> CoordQueue {
        self.step().step().step().step().step()
    }

    /// The value of the next symbol: the bits of the next five bisections,
    /// the first bit weighing most.
    #[verifier::opaque]
    pub open spec fn chunk(self) -> u8 {
        join_bits(
            self.next_bit(),
            self.step().next_bit(),
            self.step().step().next_bit(),
            self.step().step().step().next_bit(),
            self.step().step().step().step().next_bit(),
        )
    }

    /// The queue after `n` symbols.
    pub open spec fn skip(self, n: nat) -> CoordQueue
        decreases n,
    {
        if n == 0 {
            self
        } else {
            self.skip((n - 1) as nat).after_symbol()
        }
    }
}

/// A latitude in -90..=90 and a longitude in -180..=180, ends included; a
/// NaN or an infinity is neither.
pub open spec fn valid_coordinates(latitude: u32, longitude: u32) -> bool {
    &&& is_finite(latitude)
    &&& is_finite(longitude)
    &&& value(MIN_LATITUDE) <= value(latitude) <= value(MAX_LATITUDE)
    &&& value(MIN_LONGITUDE) <= value(longitude) <= value(MAX_LONGITUDE)
}

/// The symbol at index `i` of the geohash of a point.
pub open spec fn symbol_at(latitude: u32, longitude: u32, i: nat) -> char {
    alphabet()[CoordQueue::start(latitude, longitude).skip(i).chunk() as int]
}

/// The geohash of `len` symbols of a point.
pub open spec fn geohash_of(latitude: u32, longitude: u32, len: nat) -> Seq<char> {
    Seq::new(len, |i: int| symbol_at(latitude, longitude, i as nat))
}

/// What encoding gives: the geohash of a point of the globe, or the
/// rejection of coordinates outside it.
pub open spec fn encode_spec(latitude: u32, longitude: u32, len: nat) -> Result<
    Seq<char>,
    GeohashError,
> {
    if valid_coordinates(latitude, longitude) {
        Ok(geohash_of(latitude, longitude, len))
    } else {
        Err(GeohashError::OutOfRange)
    }
}

/// A bisection keeps the queue well formed: each bound still holds its
/// coordinate, and lies within what it was.
pub proof fn lemma_coord_step(q: CoordQueue)
    requires
        q.wf(),
    ensures
        q.step().wf(),
        q.step().bounds() == q.bounds().step(q.next_bit()),
        q.step().bounds().within(q.bounds()),
        q.step().longitude.coord == q.longitude.coord,
        q.step().latitude.coord == q.latitude.coord,
        q.step().longitude_next == !q.longitude_next,
{
    lemma_half_narrows(q.head().bound, q.next_bit());
}

/// The five bisections of a symbol keep the queue well formed.
pub proof fn lemma_coord_after_symbol(q: CoordQueue)
    requires
        q.wf(),
    ensures
        q.after_symbol().wf(),
        q.after_symbol().bounds().within(q.bounds()),
        q.after_symbol().longitude.coord == q.longitude.coord,
        q.after_symbol().latitude.coord == q.latitude.coord,
        q.after_symbol().longitude_next == !q.longitude_next,
        q.chunk() < 32,
{
    reveal(CoordQueue::after_symbol);
    reveal(CoordQueue::chunk);
    let q1 = q.step();
    let q2 = q1.step();
    let q3 = q2.step();
    let q4 = q3.step();
    lemma_coord_step(q);
    lemma_coord_step(q1);
    lemma_coord_step(q2);
    lemma_coord_step(q3);
    lemma_coord_step(q4);
    lemma_join_bits(q.next_bit(), q1.next_bit(), q2.next_bit(), q3.next_bit(), q4.next_bit());
}

/// Halves the head of the queue toward its coordinate and returns the bit
/// of weight `2^i`: set where the coordinate is at or above the middle.
pub fn cal_bit(coord_queue: &mut CoordQueue, i: u8) -> (bit: u8)
    requires
        old(coord_queue).wf(),
        i < 5,
    ensures
        *final(coord_queue) == old(coord_queue).step(),
        final(coord_queue).wf(),
        bit == bit_weight(old(coord_queue).next_bit(), i),
{
    proof {
        lemma_coord_step(*coord_queue);
    }
    if coord_queue.longitude_next {
        let mid: u32 = coord_queue.longitude.bound.mid();
        coord_queue.longitude_next = false;
        if less_or_equal(mid, coord_queue.longitude.coord) {
            coord_queue.longitude.bound.low = mid;
            bit_mask(i)
        } else {
            coord_queue.longitude.bound.high = mid;
            0
        }
    } else {
        let mid: u32 = coord_queue.latitude.bound.mid();
        coord_queue.longitude_next = true;
        if less_or_equal(mid, coord_queue.latitude.coord) {
            coord_queue.latitude.bound.low = mid;
            bit_mask(i)
        } else {
            coord_queue.latitude.bound.high = mid;
            0
        }
    }
}

/// The value of the next symbol: five bisections, the first giving the bit
/// of most weight.
pub fn get_geo_bit(coord_queue: &mut CoordQueue) -> (v: u8)
    requires
        old(coord_queue).wf(),
    ensures
        *final(coord_queue) == old(coord_queue).after_symbol(),
        final(coord_queue).wf(),
        v == old(coord_queue).chunk(),
        v < 32,
{
    proof {
        reveal(CoordQueue::after_symbol);
        reveal(CoordQueue::chunk);
        lemma_coord_after_symbol(*coord_queue);
    }
    let b4: u8 = cal_bit(coord_queue, 4);
    let b3: u8 = cal_bit(coord_queue, 3);
    let b2: u8 = cal_bit(coord_queue, 2);
    let b1: u8 = cal_bit(coord_queue, 1);
    let b0: u8 = cal_bit(coord_queue, 0);
    assert(b4 | b3 | b2 | b1 | b0 == b4 + b3 + b2 + b1 + b0) by (bit_vector)
        requires
            b4 == 0 || b4 == 16,
            b3 == 0 || b3 == 8,
            b2 == 0 || b2 == 4,
            b1 == 0 || b1 == 2,
            b0 == 0 || b0 == 1,
    ;
    b4 | b3 | b2 | b1 | b0
}

/// Whether the coordinates name a point of the globe.
pub fn check_coordinates(latitude: u32, longitude: u32) -> (ok: bool)
    ensures
        ok == valid_coordinates(latitude, longitude),
{
    finite(latitude) && finite(longitude) && less_or_equal(MIN_LATITUDE, latitude) && less_or_equal(
        latitude,
        MAX_LATITUDE,
    ) && less_or_equal(MIN_LONGITUDE, longitude) && less_or_equal(longitude, MAX_LONGITUDE)
}

/// Encodes a point as a geohash of `length_geohash` symbols. Latitude and
/// longitude are binary32 patterns. Each symbol holds five bits; each bit
/// halves the bound of longitude or of latitude in turn, longitude first,
/// and is set where the coordinate lies at or above the middle. Coordinates
/// outside the globe are rejected before any bisection.
pub fn encode(latitude: u32, longitude: u32, length_geohash: u32) -> (r: Result<
    String,
    GeohashError,
>)
    ensures
        match r {
            Ok(s) => encode_spec(latitude, longitude, length_geohash as nat) == Ok::<
                Seq<char>,
                GeohashError,
            >(s@),
            Err(e) => encode_spec(latitude, longitude, length_geohash as nat) == Err::<
                Seq<char>,
                GeohashError,
            >(e),
        },
        r is Ok <==> valid_coordinates(latitude, longitude),
        r matches Ok(s) ==> s@.len() == length_geohash && forall|i: int|
            0 <= i < s@.len() ==> alphabet().contains(#[trigger] s@[i]),
{
    if !check_coordinates(latitude, longitude) {
        return Err(GeohashError::OutOfRange);
    }
    let mut coord_queue = CoordQueue {
        longitude: CoordInfo {
            bound: Bound { low: MIN_LONGITUDE, high: MAX_LONGITUDE },
            coord: longitude,
        },
        latitude: CoordInfo {
            bound: Bound { low: MIN_LATITUDE, high: MAX_LATITUDE },
            coord: latitude,
        },
        longitude_next: true,
    };
    let mut geohash_string = String::new();
    let mut n: u32 = 0;
    proof {
        lemma_limits();
    }
    while n < length_geohash
        invariant
            n <= length_geohash,
            coord_queue.wf(),
            coord_queue == CoordQueue::start(latitude, longitude).skip(n as nat),
            geohash_string@ == geohash_of(latitude, longitude, n as nat),
            forall|i: int|
                0 <= i < geohash_string@.len() ==> alphabet().contains(
                    #[trigger] geohash_string@[i],
                ),
        decreases length_geohash - n,
    {
        let a: u8 = get_geo_bit(&mut coord_queue);
        let c: char = encode_b32(&a);
        geohash_string.push(c);
        n = n + 1;
        proof {
            assert(alphabet().contains(c));
            assert(geohash_string@ =~= geohash_of(latitude, longitude, n as nat));
        }
    }
    Ok(geohash_string)
}

} // verus!
