//! Triples of neighbouring chunks of a slice: a left chunk, the middle chunk
//! after it, and the right chunk after that, moving two chunks at a time.
use vstd::prelude::*;

use super::{advance, clamp_range, next_middle, range_view, Range};

verus! {

/// Walks over a slice of `len` items in chunks of `step`.  The chunk that
/// starts at `middle` (an odd multiple of `step`) is produced with its left
/// and right neighbours; the right one, like the middle one, may be cut short
/// or empty at the end of the slice.
pub struct OverlappingChunksIterator {
    len: usize,
    step: usize,
    middle: usize,
}

impl OverlappingChunksIterator {
    pub closed spec fn len(&self) -> nat {
        self.len as nat
    }

    pub closed spec fn step(&self) -> nat {
        self.step as nat
    }

    /// Where the next middle chunk starts; at `len` or past it, nothing is
    /// left.
    pub closed spec fn position(&self) -> nat {
        self.middle as nat
    }

    pub closed spec fn wf(&self) -> bool {
        &&& self.middle <= self.len
        &&& self.middle < self.len ==> self.middle >= self.step
    }

    /// The chunks of a slice, the first middle chunk starting at `step`.
    pub fn from_slice<T>(slice: &[T], step: usize) -> (it: OverlappingChunksIterator)
        ensures
            it.wf(),
            it.len() == slice@.len(),
            it.step() == step,
            it.position() == (if step == 0 || step >= slice@.len() {
                slice@.len() as int
            } else {
                step as int
            }),
    {
        let len = slice.len();
        let middle = if step == 0 || step >= len {
            len
        } else {
            step
        };
        OverlappingChunksIterator { len, step, middle }
    }

    /// The next triple `(left, middle, right)` of ranges, if a middle chunk
    /// is left.
    pub fn next(&mut self) -> (r: Option<(Range, Range, Range)>)
        requires
            old(self).wf(),
        ensures
            final(self).wf(),
            final(self).len() == old(self).len(),
            final(self).step() == old(self).step(),
            ({
                let m = old(self).position() as int;
                let s = old(self).step() as int;
                let len = old(self).len() as int;
                if m >= len || s == 0 {
                    &&& r is None
                    &&& final(self).position() == old(self).position()
                } else {
                    &&& r is Some
                    &&& range_view(r->Some_0.0) == (m - s, m)
                    &&& range_view(r->Some_0.1) == clamp_range(m, m + s, len)
                    &&& range_view(r->Some_0.2) == clamp_range(m + s, m + 2 * s, len)
                    &&& final(self).position() == next_middle(len, s, m)
                }
            }),
    {
        if self.step == 0 || self.middle >= self.len {
            return None;
        }
        let m = self.middle;
        let s = self.step;
        let middle_end = advance(m, s, self.len);
        let right_end = advance(middle_end, s, self.len);
        self.middle = advance(middle_end, s, self.len);
        Some(((m - s, m), (m, middle_end), (middle_end, right_end)))
    }
}

} // verus!
