//! A vessel of fixed length with per-segment damage state, kept as a bit set.

use vstd::prelude::*;

verus! {

/// Outcome of resolving one attack against a ship or a grid cell.
#[derive(Clone, Copy, Debug, PartialEq, Eq, Structural)]
pub enum DamageResult {
    Miss,
    Hit,
    Destroyed,
}

/// Caller-bug error: a segment index at or beyond the ship's length.
#[derive(Clone, Copy, Debug, PartialEq, Eq, Structural)]
pub enum ShipError {
    SegmentOutOfBounds,
}

/// A fleet unit: `size` segments, the low `size` bits of `damaged` record
/// which segments have been hit.
#[derive(Clone, Copy, Debug)]
pub struct Ship {
    size: u8,
    damaged: u8,
}

/// True iff bit `i` of `b` is set.
pub closed spec fn nth_bit(b: u8, i: u8) -> bool {
    (b >> i) & 1 == 1
}

impl Ship {
    /// Number of segments.
    pub closed spec fn length(&self) -> nat {
        self.size as nat
    }

    /// True iff segment `i` exists and has been damaged.
    pub closed spec fn seg_damaged(&self, i: int) -> bool {
        0 <= i < self.length() && nth_bit(self.damaged, i as u8)
    }

    /// No bit beyond the ship's length is set in the damage byte.
    pub closed spec fn no_stray_bits(&self) -> bool {
        forall|j: u8| self.size <= j < 8 ==> !nth_bit(self.damaged, j)
    }

    /// The length fits the one-byte damage set and no bit beyond it is set.
    pub open spec fn wf(&self) -> bool {
        &&& 1 <= self.length() <= 8
        &&& self.no_stray_bits()
    }

    /// Every segment is damaged.
    pub open spec fn dead(&self) -> bool {
        forall|i: int| 0 <= i < self.length() ==> self.seg_damaged(i)
    }

    /// A fresh ship of `size` segments, none damaged.
    pub fn new(size: u8) -> (r: Ship)
        requires
            1 <= size <= 8,
        ensures
            r.wf(),
            r.length() == size,
            forall|i: int| !r.seg_damaged(i),
    {
        proof {
            assert(forall|j: u8| !nth_bit(0u8, j)) by (bit_vector);
        }
        Ship { size, damaged: 0 }
    }

    /// The ship's own length, if it fits in `size` cells.
    pub fn get_fit_len(&self, size: usize) -> (r: Option<usize>)
        ensures
            r == (if self.length() <= size {
                Some(self.length() as usize)
            } else {
                None::<usize>
            }),
    {
        let ship_size = self.size as usize;
        if ship_size <= size {
            Some(ship_size)
        } else {
            None
        }
    }

    /// True iff every segment is damaged.
    pub fn is_dead(&self) -> (r: bool)
        requires
            self.wf(),
        ensures
            r == self.dead(),
    {
        let mut i: u8 = 0;
        while i < self.size
            invariant
                self.wf(),
                0 <= i <= self.size,
                forall|k: int| 0 <= k < i ==> self.seg_damaged(k),
            decreases self.size - i,
        {
            let mask: u8 = 1u8 << i;
            proof {
                let d = self.damaged;
                assert((d & (1u8 << i) == 1u8 << i) == nth_bit(d, i))
                    by (bit_vector)
                    requires
                        i < 8,
                ;
            }
            if self.damaged & mask != mask {
                assert(!self.seg_damaged(i as int));
                return false;
            }
            i = i + 1;
        }
        true
    }

    /// True iff segment `segment` has been damaged.
    pub fn segment_damaged(&self, segment: u8) -> (r: bool)
        requires
            self.wf(),
            segment < self.length(),
        ensures
            r == self.seg_damaged(segment as int),
    {
        let mask: u8 = 1u8 << segment;
        proof {
            let d = self.damaged;
            assert((d & (1u8 << segment) == 1u8 << segment) == nth_bit(d, segment))
                by (bit_vector)
                requires
                    segment < 8,
            ;
        }
        self.damaged & mask == mask
    }

    /// Resolve a hit on `segment`: out-of-bounds indices error and change
    /// nothing; an already-damaged segment yields `Miss` and changes nothing;
    /// otherwise the segment is marked and the result says whether the ship
    /// is now destroyed.
    pub fn damage(&mut self, segment: u8) -> (r: Result<DamageResult, ShipError>)
        requires
            old(self).wf(),
        ensures
            final(self).wf(),
            final(self).length() == old(self).length(),
            r is Err <==> segment >= old(self).length(),
            segment >= old(self).length() ==> r == Err::<DamageResult, ShipError>(
                ShipError::SegmentOutOfBounds,
            ) && *final(self) == *old(self),
            segment < old(self).length() && old(self).seg_damaged(segment as int) ==> r == Ok::<
                DamageResult,
                ShipError,
            >(DamageResult::Miss) && *final(self) == *old(self),
            segment < old(self).length() && !old(self).seg_damaged(segment as int)
                ==> final(self).seg_damaged(segment as int) && r == Ok::<DamageResult, ShipError>(
                if final(self).dead() {
                    DamageResult::Destroyed
                } else {
                    DamageResult::Hit
                },
            ),
            forall|i: int|
                i != segment ==> final(self).seg_damaged(i) == old(self).seg_damaged(i),
    {
        if segment >= self.size {
            return Err(ShipError::SegmentOutOfBounds);
        }

        let mask: u8 = 1u8 << segment;
        proof {
            let d = self.damaged;
            assert((d & (1u8 << segment) == 1u8 << segment) == nth_bit(d, segment))
                by (bit_vector)
                requires
                    segment < 8,
            ;
        }

        if self.damaged & mask == mask {
            return Ok(DamageResult::Miss);
        }

        let ghost prev = *self;
        self.damaged = self.damaged | mask;
        proof {
            let d = prev.damaged;
            let nd = self.damaged;
            assert(nth_bit(nd, segment) && forall|j: u8|
                j != segment ==> #[trigger] nth_bit(nd, j) == nth_bit(d, j))
                by (bit_vector)
                requires
                    segment < 8,
                    nd == d | (1u8 << segment),
            ;
        }

        if self.is_dead() {
            Ok(DamageResult::Destroyed)
        } else {
            Ok(DamageResult::Hit)
        }
    }
}

} // verus!
