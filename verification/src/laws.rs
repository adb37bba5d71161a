//! What holds of encoding and decoding together.

use crate::base32::lemma_join_bits;
use crate::base32::lemma_symbol_value_of_symbol;
use crate::base32::symbol_value;
use crate::bound::BoundQueue;
use crate::bound::lemma_limits;
use crate::decoder::apply_symbol;
use crate::decoder::apply_symbols;
use crate::decoder::decode_spec;
use crate::decoder::is_geohash;
use crate::decoder::symbol_values;
use crate::encoder::CoordQueue;
use crate::encoder::encode_spec;
use crate::encoder::geohash_of;
use crate::encoder::lemma_coord_after_symbol;
use crate::encoder::lemma_coord_step;
use crate::encoder::valid_coordinates;
use vstd::prelude::*;

verus! {

/// However many symbols have been produced, the encoder's queue is well
/// formed: each bound lies on the globe and holds its coordinate. Longitude
/// leads every other symbol, the first among them.
pub proof fn lemma_encoder_covers(latitude: u32, longitude: u32, n: nat)
    requires
        valid_coordinates(latitude, longitude),
    ensures
        CoordQueue::start(latitude, longitude).skip(n).wf(),
        CoordQueue::start(latitude, longitude).skip(n).longitude_next == (n % 2 == 0),
        CoordQueue::start(latitude, longitude).skip(n).latitude.coord == latitude,
        CoordQueue::start(latitude, longitude).skip(n).longitude.coord == longitude,
        CoordQueue::start(latitude, longitude).skip(n).bounds().within(BoundQueue::globe()),
    decreases n,
{
    lemma_limits();
    if n > 0 {
        lemma_encoder_covers(latitude, longitude, (n - 1) as nat);
        lemma_coord_after_symbol(CoordQueue::start(latitude, longitude).skip((n - 1) as nat));
    }
}

/// The bits of the symbol that the encoder produces lead the decoder
/// through the encoder's own five bisections.
pub proof fn lemma_symbol_retraces(q: CoordQueue)
    requires
        q.wf(),
    ensures
        apply_symbol(q.bounds(), q.chunk()) == q.after_symbol().bounds(),
{
    reveal(CoordQueue::after_symbol);
    reveal(CoordQueue::chunk);
    reveal(apply_symbol);
    let q1 = q.step();
    let q2 = q1.step();
    let q3 = q2.step();
    let q4 = q3.step();
    lemma_coord_step(q);
    lemma_coord_step(q1);
    lemma_coord_step(q2);
    lemma_coord_step(q3);
    lemma_coord_step(q4);
    lemma_join_bits(q.next_bit(), q1.next_bit(), q2.next_bit(), q3.next_bit(), q4.next_bit());
}

/// Decoding a geohash that the encoder made retraces the encoder's
/// bisections: it ends with the encoder's bounds.
pub proof fn lemma_decode_retraces(latitude: u32, longitude: u32, n: nat)
    requires
        valid_coordinates(latitude, longitude),
    ensures
        is_geohash(geohash_of(latitude, longitude, n)),
        apply_symbols(BoundQueue::globe(), symbol_values(geohash_of(latitude, longitude, n)))
            == CoordQueue::start(latitude, longitude).skip(n).bounds(),
    decreases n,
{
    let start = CoordQueue::start(latitude, longitude);
    let s = geohash_of(latitude, longitude, n);
    assert forall|i: int| 0 <= i < s.len() implies (#[trigger] symbol_value(s[i])) == Some(
        start.skip(i as nat).chunk(),
    ) by {
        lemma_encoder_covers(latitude, longitude, i as nat);
        lemma_coord_after_symbol(start.skip(i as nat));
        lemma_symbol_value_of_symbol(start.skip(i as nat).chunk());
    }
    if n > 0 {
        let m = (n - 1) as nat;
        lemma_decode_retraces(latitude, longitude, m);
        lemma_encoder_covers(latitude, longitude, m);
        lemma_symbol_retraces(start.skip(m));
        assert(symbol_values(s).drop_last() =~= symbol_values(geohash_of(latitude, longitude, m)));
        assert(symbol_values(s).last() == start.skip(m).chunk());
    }
}

/// Round trip: the box that decoding gives for the geohash of a point, of
/// whatever length, holds the point; its bounds are in order and on the globe.
pub proof fn lemma_round_trip(latitude: u32, longitude: u32, len: nat)
    requires
        valid_coordinates(latitude, longitude),
    ensures
        encode_spec(latitude, longitude, len) is Ok,
        decode_spec(encode_spec(latitude, longitude, len)->Ok_0) is Ok,
        ({
            let q = decode_spec(encode_spec(latitude, longitude, len)->Ok_0)->Ok_0;
            &&& q.wf()
            &&& q.latitude.contains(latitude)
            &&& q.longitude.contains(longitude)
            &&& q.within(BoundQueue::globe())
        }),
{
    lemma_decode_retraces(latitude, longitude, len);
    lemma_encoder_covers(latitude, longitude, len);
}

/// Whatever the symbols, decoding narrows: the bounds stay in order and
/// within what they were, and the turn changes hands with every symbol.
pub proof fn lemma_decode_narrows(q: BoundQueue, values: Seq<u8>)
    requires
        q.wf(),
    ensures
        apply_symbols(q, values).wf(),
        apply_symbols(q, values).within(q),
        apply_symbols(q, values).longitude_next == (q.longitude_next == (values.len() % 2 == 0)),
    decreases values.len(),
{
    if values.len() > 0 {
        lemma_decode_narrows(q, values.drop_last());
        crate::decoder::lemma_apply_symbol_narrows(
            apply_symbols(q, values.drop_last()),
            values.last(),
        );
    }
}

/// The encoder's bounds after `m` symbols lie within those after `n <= m`.
proof fn lemma_encoder_narrows(latitude: u32, longitude: u32, n: nat, m: nat)
    requires
        valid_coordinates(latitude, longitude),
        n <= m,
    ensures
        CoordQueue::start(latitude, longitude).skip(m).bounds().within(
            CoordQueue::start(latitude, longitude).skip(n).bounds(),
        ),
    decreases m - n,
{
    if n < m {
        lemma_encoder_narrows(latitude, longitude, n, (m - 1) as nat);
        lemma_encoder_covers(latitude, longitude, (m - 1) as nat);
        lemma_coord_after_symbol(CoordQueue::start(latitude, longitude).skip((m - 1) as nat));
    }
}

/// A longer geohash of a point names a box within that of a shorter one.
pub proof fn lemma_longer_is_finer(latitude: u32, longitude: u32, n: nat, m: nat)
    requires
        valid_coordinates(latitude, longitude),
        n <= m,
    ensures
        decode_spec(geohash_of(latitude, longitude, n)) is Ok,
        decode_spec(geohash_of(latitude, longitude, m)) is Ok,
        decode_spec(geohash_of(latitude, longitude, m))->Ok_0.within(
            decode_spec(geohash_of(latitude, longitude, n))->Ok_0,
        ),
{
    lemma_decode_retraces(latitude, longitude, n);
    lemma_decode_retraces(latitude, longitude, m);
    lemma_encoder_narrows(latitude, longitude, n, m);
}

} // verus!
