//! Five neighbouring chunks of a slice around a middle one.
use vstd::prelude::*;

use super::{advance, clamp_range, next_middle, range_view, Range};

verus! {

/// The chunks around a middle chunk: the left and right neighbours, and the
/// chunks one further step away on each side (`prev_left`, `next_right`),
/// which are empty where the slice ends.
pub struct DoubleOverlappingChunks {
    pub prev_left: Range,
    pub left: Range,
    pub middle: Range,
    pub right: Range,
    pub next_right: Range,
}

/// Walks over a slice of `len` items in chunks of `step`, the middle chunks
/// starting at the odd multiples of `step`.
pub struct DoubleOverlappingChunksIterator {
    len: usize,
    step: usize,
    middle: usize,
}

/// The chunks around the middle chunk that starts at `m`.
pub open spec fn double_chunks_at(len: int, s: int, m: int) -> (
    (int, int),
    (int, int),
    (int, int),
    (int, int),
    (int, int),
) {
    (
        if m >= 3 * s {
            (m - 3 * s, m - 2 * s)
        } else {
            (0, 0)
        },
        (m - s, m),
        clamp_range(m, m + s, len),
        clamp_range(m + s, m + 2 * s, len),
        clamp_range(m + 3 * s, m + 4 * s, len),
    )
}

impl DoubleOverlappingChunksIterator {
    pub closed spec fn len(&self) -> nat {
        self.len as nat
    }

    pub closed spec fn step(&self) -> nat {
        self.step as nat
    }

    /// Where the next middle chunk starts; at `len`, nothing is left.
    pub closed spec fn position(&self) -> nat {
        self.middle as nat
    }

    pub closed spec fn wf(&self) -> bool {
        &&& self.middle <= self.len
        &&& self.middle < self.len ==> self.middle >= self.step
    }

    /// The chunks of a slice, the first middle chunk starting at `step`.
    pub fn from_slice<T>(slice: &[T], step: usize) -> (it: DoubleOverlappingChunksIterator)
        ensures
            it.wf(),
            it.len() == slice@.len(),
            it.step() == step,
            it.position() == (if step == 0 || step >= slice@.len() {
                slice@.len() as int
            } else {
                step as int
            }),
    {
        let len = slice.len();
        let middle = if step == 0 || step >= len {
            len
        } else {
            step
        };
        DoubleOverlappingChunksIterator { len, step, middle }
    }

    /// The chunks around the next middle chunk, if one is left.
    pub fn next(&mut self) -> (r: Option<DoubleOverlappingChunks>)
        requires
            old(self).wf(),
        ensures
            final(self).wf(),
            final(self).len() == old(self).len(),
            final(self).step() == old(self).step(),
            ({
                let m = old(self).position() as int;
                let s = old(self).step() as int;
                let len = old(self).len() as int;
                if m >= len || s == 0 {
                    &&& r is None
                    &&& final(self).position() == old(self).position()
                } else {
                    let c = r->Some_0;
                    let e = double_chunks_at(len, s, m);
                    &&& r is Some
                    &&& range_view(c.prev_left) == e.0
                    &&& range_view(c.left) == e.1
                    &&& range_view(c.middle) == e.2
                    &&& range_view(c.right) == e.3
                    &&& range_view(c.next_right) == e.4
                    &&& final(self).position() == next_middle(len, s, m)
                }
            }),
    {
        if self.step == 0 || self.middle >= self.len {
            return None;
        }
        let m = self.middle;
        let s = self.step;
        let middle_end = advance(m, s, self.len);
        let right_end = advance(middle_end, s, self.len);
        let next_middle = advance(middle_end, s, self.len);
        let next_right_start = advance(next_middle, s, self.len);
        let next_right_end = advance(next_right_start, s, self.len);
        let prev_left = if (m - s) / 2 >= s {
            (m - 3 * s, m - 2 * s)
        } else {
            (0, 0)
        };
        self.middle = next_middle;
        Some(
            DoubleOverlappingChunks {
                prev_left,
                left: (m - s, m),
                middle: (m, middle_end),
                right: (middle_end, right_end),
                next_right: (next_right_start, next_right_end),
            },
        )
    }
}

} // verus!
