//! From a geohash to the box it names.

use crate::base32::bit_at;
use crate::base32::decode_b32;
use crate::base32::symbol_value;
use crate::base32::test_bit;
use crate::bound::BoundQueue;
use crate::bound::lemma_step_narrows;
use crate::error::GeohashError;
use vstd::prelude::*;

verus! {

/// The bounds of a decoded box. Each pair holds the patterns of the lower
/// and of the upper end, in this order.
#[derive(Debug, Clone, Copy, PartialEq, Eq)]
pub struct GPSBoundInfo {
    pub latitude: [u32; 2],
    pub longitude: [u32; 2],
}

impl GPSBoundInfo {
    /// The box holds exactly the two bounds of `q`.
    pub open spec fn holds(self, q: BoundQueue) -> bool {
        &&& self.latitude[0] == q.latitude.low
        &&& self.latitude[1] == q.latitude.high
        &&& self.longitude[0] == q.longitude.low
        &&& self.longitude[1] == q.longitude.high
    }
}

/// The queue after the five bits of `v`, first bit first.
#[verifier::opaque]
pub open spec fn apply_symbol(q: BoundQueue, v: u8) -> BoundQueue {
    q.step(bit_at(v, 4)).step(bit_at(v, 3)).step(bit_at(v, 2)).step(bit_at(v, 1)).step(
        bit_at(v, 0),
    )
}

/// The queue after the bits of all of `values`, in order.
pub open spec fn apply_symbols(q: BoundQueue, values: Seq<u8>) -> BoundQueue
    decreases values.len(),
{
    if values.len() == 0 {
        q
    } else {
        apply_symbol(apply_symbols(q, values.drop_last()), values.last())
    }
}

/// Every character of `s` is a symbol of the alphabet.
pub open spec fn is_geohash(s: Seq<char>) -> bool {
    forall|i: int| 0 <= i < s.len() ==> (#[trigger] symbol_value(s[i])) is Some
}

/// The values that the symbols of `s` stand for.
pub open spec fn symbol_values(s: Seq<char>) -> Seq<u8> {
    Seq::new(s.len(), |i: int| symbol_value(s[i])->0)
}

/// What decoding `s` gives: the globe narrowed by the bits of every symbol,
/// or the rejection of a string that holds a character outside the alphabet.
pub open spec fn decode_spec(s: Seq<char>) -> Result<BoundQueue, GeohashError> {
    if is_geohash(s) {
        Ok(apply_symbols(BoundQueue::globe(), symbol_values(s)))
    } else {
        Err(GeohashError::InvalidCharacter)
    }
}

/// The bits of a symbol keep a queue well formed and within what it was.
pub proof fn lemma_apply_symbol_narrows(q: BoundQueue, v: u8)
    requires
        q.wf(),
    ensures
        apply_symbol(q, v).wf(),
        apply_symbol(q, v).within(q),
        apply_symbol(q, v).longitude_next == !q.longitude_next,
{
    reveal(apply_symbol);
    let q1 = q.step(bit_at(v, 4));
    let q2 = q1.step(bit_at(v, 3));
    let q3 = q2.step(bit_at(v, 2));
    let q4 = q3.step(bit_at(v, 1));
    lemma_step_narrows(q, bit_at(v, 4));
    lemma_step_narrows(q1, bit_at(v, 3));
    lemma_step_narrows(q2, bit_at(v, 2));
    lemma_step_narrows(q3, bit_at(v, 1));
    lemma_step_narrows(q4, bit_at(v, 0));
}

/// Bit `i` of `bit_5` halves the head of the queue: a set bit keeps the
/// upper half, a clear bit the lower half.
pub fn cal_bound(bit_5: &u8, i: &u8, bound_queue: &mut BoundQueue)
    requires
        old(bound_queue).wf(),
        *i < 5,
    ensures
        *final(bound_queue) == old(bound_queue).step(bit_at(*bit_5, *i)),
        final(bound_queue).wf(),
        final(bound_queue).within(*old(bound_queue)),
{
    let upper: bool = test_bit(*bit_5, *i);
    bound_queue.bisect(upper);
}

/// The five bits of `bit_5` halve the bounds in turn, bit 4 first.
pub fn cal_coord_bound(bit_5: &u8, bound_queue: &mut BoundQueue)
    requires
        old(bound_queue).wf(),
    ensures
        *final(bound_queue) == apply_symbol(*old(bound_queue), *bit_5),
        final(bound_queue).wf(),
        final(bound_queue).within(*old(bound_queue)),
{
    proof {
        reveal(apply_symbol);
    }
    cal_bound(bit_5, &4, bound_queue);
    cal_bound(bit_5, &3, bound_queue);
    cal_bound(bit_5, &2, bound_queue);
    cal_bound(bit_5, &1, bound_queue);
    cal_bound(bit_5, &0, bound_queue);
}

/// The values of the symbols of `geohash`, or the rejection of its first
/// character outside the alphabet.
pub fn decode_symbols(geohash: &str) -> (r: Result<Vec<u8>, GeohashError>)
    ensures
        match r {
            Ok(values) => is_geohash(geohash@) && values@ == symbol_values(geohash@),
            Err(e) => e == GeohashError::InvalidCharacter && !is_geohash(geohash@),
        },
{
    let mut geo_bits: Vec<u8> = Vec::new();
    for ch in it: geohash.chars()
        invariant
            it.seq() == geohash@,
            geo_bits@.len() == it.index(),
            forall|j: int|
                0 <= j < it.index() ==> (#[trigger] symbol_value(geohash@[j])) == Some(
                    geo_bits@[j],
                ),
    {
        match decode_b32(&ch) {
            Ok(v) => {
                geo_bits.push(v);
            },
            Err(e) => {
                assert(symbol_value(geohash@[it.index()]) is None);
                return Err(e);
            },
        }
    }
    assert(geo_bits@ =~= symbol_values(geohash@));
    Ok(geo_bits)
}

/// Narrows the globe by the bits of every value, in order.
pub fn narrow_globe(values: &Vec<u8>) -> (q: BoundQueue)
    ensures
        q == apply_symbols(BoundQueue::globe(), values@),
        q.wf(),
        q.within(BoundQueue::globe()),
{
    let mut queue = BoundQueue::new();
    let mut n: usize = 0;
    while n < values.len()
        invariant
            n <= values.len(),
            queue == apply_symbols(BoundQueue::globe(), values@.take(n as int)),
            queue.wf(),
            queue.within(BoundQueue::globe()),
        decreases values.len() - n,
    {
        proof {
            assert(values@.take(n + 1).drop_last() =~= values@.take(n as int));
        }
        cal_coord_bound(&values[n], &mut queue);
        n = n + 1;
    }
    proof {
        assert(values@.take(n as int) =~= values@);
    }
    queue
}

/// Decodes a geohash into the box it names: the bounds of latitude and of
/// longitude that are left when the bits of every symbol have halved the
/// globe, longitude first. Each bound has its ends in order and lies on the
/// globe. The empty string names the whole globe. A string with a character
/// outside the alphabet is rejected.
pub fn decode(geohash: String) -> (r: Result<GPSBoundInfo, GeohashError>)
    ensures
        match r {
            Ok(info) => decode_spec(geohash@) is Ok && info.holds(decode_spec(geohash@)->Ok_0),
            Err(e) => decode_spec(geohash@) == Err::<BoundQueue, GeohashError>(e),
        },
        r is Ok <==> is_geohash(geohash@),
        r is Ok ==> decode_spec(geohash@)->Ok_0.wf() && decode_spec(geohash@)->Ok_0.within(
            BoundQueue::globe(),
        ),
{
    let geo_bits = match decode_symbols(geohash.as_str()) {
        Ok(values) => values,
        Err(e) => {
            return Err(e);
        },
    };
    let queue = narrow_globe(&geo_bits);
    Ok(
        GPSBoundInfo {
            latitude: [queue.latitude.low, queue.latitude.high],
            longitude: [queue.longitude.low, queue.longitude.high],
        },
    )
}

} // verus!
