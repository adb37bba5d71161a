//! Coordinate bounds and their bisection, shared by the encoder and the decoder.
//!
//! A bound is a closed interval of binary32 numbers. Encoding and decoding
//! both start from the whole globe and halve the longitude bound and the
//! latitude bound in turn, longitude first.

use crate::binary32::abs_bits;
use crate::binary32::is_finite;
use crate::binary32::lemma_magnitude_order;
use crate::binary32::magnitude;
use crate::binary32::value;
use crate::midpoint::lemma_midpoint_between;
use crate::midpoint::midpoint;
use crate::midpoint::midpoint_of;
use vstd::arithmetic::power2::lemma2_to64;
use vstd::arithmetic::power2::lemma_pow2_adds;
use vstd::arithmetic::power2::pow2;
use vstd::prelude::*;

verus! {

/// The pattern of -90.
pub const MIN_LATITUDE: u32 = 0xc2b4_0000;

/// The pattern of 90.
pub const MAX_LATITUDE: u32 = 0x42b4_0000;

/// The pattern of -180.
pub const MIN_LONGITUDE: u32 = 0xc334_0000;

/// The pattern of 180.
pub const MAX_LONGITUDE: u32 = 0x4334_0000;

/// Index of the lower end where a bound is given as a pair.
pub const LEFT: usize = 0;

/// Index of the upper end where a bound is given as a pair.
pub const RIGHT: usize = 1;

/// A whole number of degrees in the unit of [`value`], 2^-149.
pub open spec fn degrees(n: int) -> int {
    n * pow2(149)
}

/// The four limits are what their names say.
pub proof fn lemma_limits()
    ensures
        value(MIN_LATITUDE) == degrees(-90),
        value(MAX_LATITUDE) == degrees(90),
        value(MIN_LONGITUDE) == degrees(-180),
        value(MAX_LONGITUDE) == degrees(180),
{
    lemma2_to64();
    lemma_pow2_adds(17, 132);
    lemma_pow2_adds(16, 133);
    let p = pow2(132);
    let q = pow2(133);
    assert(0xb4_0000 * p == 90 * (0x2_0000 * p) && (-90) * (0x2_0000 * p) == -(0xb4_0000 * p))
        by (nonlinear_arith);
    assert(0xb4_0000 * q == 180 * (0x1_0000 * q) && (-180) * (0x1_0000 * q) == -(0xb4_0000 * q))
        by (nonlinear_arith);
    assert(magnitude(MAX_LATITUDE) == 0xb4_0000 * p);
    assert(magnitude(MIN_LATITUDE) == 0xb4_0000 * p);
    assert(magnitude(MAX_LONGITUDE) == 0xb4_0000 * q);
    assert(magnitude(MIN_LONGITUDE) == 0xb4_0000 * q);
}

/// A closed interval of binary32 numbers, each end held as its pattern.
#[derive(Debug, Clone, Copy, PartialEq, Eq)]
pub struct Bound {
    pub low: u32,
    pub high: u32,
}

impl Bound {
    /// The ends are numbers of the globe (at most 180 in magnitude) and in order.
    pub open spec fn wf(self) -> bool {
        &&& abs_bits(self.low) <= MAX_LONGITUDE
        &&& abs_bits(self.high) <= MAX_LONGITUDE
        &&& value(self.low) <= value(self.high)
    }

    /// `coord` lies in the interval, ends included.
    pub open spec fn contains(self, coord: u32) -> bool {
        value(self.low) <= value(coord) <= value(self.high)
    }

    /// The interval lies in `outer`.
    pub open spec fn within(self, outer: Bound) -> bool {
        value(outer.low) <= value(self.low) && value(self.high) <= value(outer.high)
    }

    /// The point at which the interval is cut: `(low + high) / 2` in binary32 arithmetic.
    pub open spec fn middle(self) -> u32 {
        midpoint_of(self.low, self.high)
    }

    /// The half above the middle, or the half below it.
    pub open spec fn half(self, upper: bool) -> Bound {
        if upper {
            Bound { low: self.middle(), high: self.high }
        } else {
            Bound { low: self.low, high: self.middle() }
        }
    }

    /// The point at which the interval is cut.
    pub fn mid(&self) -> (m: u32)
        requires
            self.wf(),
        ensures
            m == self.middle(),
            is_finite(m),
            self.contains(m),
    {
        proof {
            lemma_half_narrows(*self, true);
        }
        midpoint(self.low, self.high)
    }

    /// Keeps the half above the middle, or the half below it.
    pub fn narrow(&mut self, upper: bool)
        requires
            old(self).wf(),
        ensures
            *final(self) == old(self).half(upper),
            final(self).wf(),
            final(self).within(*old(self)),
    {
        proof {
            lemma_half_narrows(*self, upper);
        }
        let m: u32 = midpoint(self.low, self.high);
        if upper {
            self.low = m;
        } else {
            self.high = m;
        }
    }
}

/// Halving never widens: either half of a well-formed bound is well formed
/// and lies within the bound, because the middle lies between the ends.
pub proof fn lemma_half_narrows(b: Bound, upper: bool)
    requires
        b.wf(),
    ensures
        is_finite(b.middle()),
        b.contains(b.middle()),
        b.half(upper).wf(),
        b.half(upper).within(b),
{
    lemma_midpoint_between(b.low, b.high);
    lemma_magnitude_order(b.middle(), b.low);
    lemma_magnitude_order(b.middle(), b.high);
}

/// The two bounds of a box on the globe, and which of them is halved next.
#[derive(Debug, Clone, Copy, PartialEq, Eq)]
pub struct BoundQueue {
    pub longitude: Bound,
    pub latitude: Bound,
    pub longitude_next: bool,
}

impl BoundQueue {
    pub open spec fn wf(self) -> bool {
        self.longitude.wf() && self.latitude.wf()
    }

    /// The whole globe, longitude to be halved first.
    pub open spec fn globe() -> BoundQueue {
        BoundQueue {
            longitude: Bound { low: MIN_LONGITUDE, high: MAX_LONGITUDE },
            latitude: Bound { low: MIN_LATITUDE, high: MAX_LATITUDE },
            longitude_next: true,
        }
    }

    /// The bound to be halved next.
    pub open spec fn head(self) -> Bound {
        if self.longitude_next {
            self.longitude
        } else {
            self.latitude
        }
    }

    /// One bisection: the head keeps one of its halves and goes to the back.
    pub open spec fn step(self, upper: bool) -> BoundQueue {
        if self.longitude_next {
            BoundQueue {
                longitude: self.longitude.half(upper),
                latitude: self.latitude,
                longitude_next: false,
            }
        } else {
            BoundQueue {
                longitude: self.longitude,
                latitude: self.latitude.half(upper),
                longitude_next: true,
            }
        }
    }

    /// Both bounds lie within those of `outer`.
    pub open spec fn within(self, outer: BoundQueue) -> bool {
        self.longitude.within(outer.longitude) && self.latitude.within(outer.latitude)
    }

    /// The whole globe, longitude to be halved first.
    pub fn new() -> (q: BoundQueue)
        ensures
            q == BoundQueue::globe(),
            q.wf(),
    {
        proof {
            lemma_limits();
        }
        BoundQueue {
            longitude: Bound { low: MIN_LONGITUDE, high: MAX_LONGITUDE },
            latitude: Bound { low: MIN_LATITUDE, high: MAX_LATITUDE },
            longitude_next: true,
        }
    }

    /// The point at which the head will be cut.
    pub fn head_mid(&self) -> (m: u32)
        requires
            self.wf(),
        ensures
            m == self.head().middle(),
            is_finite(m),
    {
        if self.longitude_next {
            self.longitude.mid()
        } else {
            self.latitude.mid()
        }
    }

    /// One bisection.
    pub fn bisect(&mut self, upper: bool)
        requires
            old(self).wf(),
        ensures
            *final(self) == old(self).step(upper),
            final(self).wf(),
            final(self).within(*old(self)),
    {
        if self.longitude_next {
            self.longitude.narrow(upper);
            self.longitude_next = false;
        } else {
            self.latitude.narrow(upper);
            self.longitude_next = true;
        }
    }
}

/// A step keeps the queue well formed and within what it was.
pub proof fn lemma_step_narrows(q: BoundQueue, upper: bool)
    requires
        q.wf(),
    ensures
        q.step(upper).wf(),
        q.step(upper).within(q),
        q.step(upper).longitude_next == !q.longitude_next,
{
    lemma_half_narrows(q.head(), upper);
}

} // verus!
