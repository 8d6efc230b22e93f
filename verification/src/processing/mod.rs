//! Ways of walking over a slice or an image in pieces.
use vstd::prelude::*;

pub mod double_overlapping_chunks_iterator;
pub mod image;
pub mod overlapping_chunks_iterator;
pub mod variable_chunks_iterator;

pub use self::double_overlapping_chunks_iterator::{
    DoubleOverlappingChunks, DoubleOverlappingChunksIterator,
};
pub use self::overlapping_chunks_iterator::OverlappingChunksIterator;
pub use self::variable_chunks_iterator::VariableChunksIterator;

verus! {

/// A range of positions, start included, end excluded.
pub type Range = (usize, usize);

/// The range `[a, b)` cut at `len`; empty, at `len`, when `a` is past it.
pub open spec fn clamp_range(a: int, b: int, len: int) -> (int, int) {
    if a >= len {
        (len, len)
    } else if b > len {
        (a, len)
    } else {
        (a, b)
    }
}

pub open spec fn range_view(r: Range) -> (int, int) {
    (r.0 as int, r.1 as int)
}

/// Where the next middle chunk of an overlapping walk starts after the one at
/// `m`: two steps further, or the end.
pub open spec fn next_middle(len: int, s: int, m: int) -> int {
    if m + 2 * s >= len {
        len
    } else {
        m + 2 * s
    }
}

/// The starts of the middle chunks that the calls of `next` of an
/// overlapping walk give, from the position `m` on, until they give nothing.
pub open spec fn middles_from(len: int, s: int, m: int) -> Seq<int>
    decreases len - m,
{
    if s <= 0 || m >= len {
        Seq::empty()
    } else {
        seq![m] + middles_from(len, s, next_middle(len, s, m))
    }
}

/// `a` steps of `s` stay below `len` exactly when `a` is below the number of
/// chunks of `s` in `len`.
proof fn lemma_below_chunks(a: int, s: int, len: int)
    requires
        a >= 0,
        s >= 1,
        len >= 0,
    ensures
        a * s < len <==> a < (len + s - 1) / s,
{
    let c = (len + s - 1) / s;
    vstd::arithmetic::div_mod::lemma_fundamental_div_mod(len + s - 1, s);
    let r = (len + s - 1) % s;
    assert(0 <= r < s) by {
        vstd::arithmetic::div_mod::lemma_mod_pos_bound(len + s - 1, s);
    }
    if a < c {
        assert(a * s < len) by (nonlinear_arith)
            requires
                a <= c - 1,
                s >= 1,
                len + s - 1 == s * c + r,
                0 <= r < s,
        ;
    } else {
        assert(a * s >= len) by (nonlinear_arith)
            requires
                a >= c,
                s >= 1,
                len + s - 1 == s * c + r,
                0 <= r < s,
        ;
    }
}

/// The walk from the middle chunk at `(2j + 1) * s`: the middles at the odd
/// multiples of the step from there on below `len`.
proof fn lemma_middles_from(len: int, s: int, j: int)
    requires
        s >= 1,
        j >= 0,
        len >= 0,
    ensures
        middles_from(len, s, (2 * j + 1) * s).len() == (if ((len + s - 1) / s) / 2 > j {
            ((len + s - 1) / s) / 2 - j
        } else {
            0
        }),
        forall|i: int|
            0 <= i < middles_from(len, s, (2 * j + 1) * s).len() ==> #[trigger] middles_from(len, s, (2 * j + 1) * s)[i]
                == (2 * (j + i) + 1) * s,
    decreases len - (2 * j + 1) * s,
{
    let c = (len + s - 1) / s;
    let m = (2 * j + 1) * s;
    lemma_below_chunks(2 * j + 1, s, len);
    if m < len {
        lemma_below_chunks(2 * j + 3, s, len);
        assert(m + 2 * s == (2 * (j + 1) + 1) * s) by (nonlinear_arith)
            requires
                m == (2 * j + 1) * s,
        ;
        let rest = middles_from(len, s, next_middle(len, s, m));
        if m + 2 * s >= len {
            assert(rest.len() == 0);
        } else {
            assert(len - (2 * (j + 1) + 1) * s < len - m);
            lemma_middles_from(len, s, j + 1);
            assert forall|i: int| 0 <= i < rest.len() implies #[trigger] rest[i] == (2 * (j + 1 + i) + 1) * s by {
            }
        }
        let all = middles_from(len, s, m);
        assert(all == seq![m] + rest);
        assert forall|i: int| 0 <= i < all.len() implies #[trigger] all[i] == (2 * (j + i) + 1) * s by {
            if i > 0 {
                assert(all[i] == rest[i - 1]);
                assert(j + 1 + (i - 1) == j + i);
            }
        }
    }
}

/// The whole walk of the calls of `next` of the overlapping and the double
/// overlapping chunk iterators over a slice of `len` items in chunks of `s`
/// (`0 < s < len`): starting where `from_slice` starts, the middle chunks
/// start at the odd multiples of `s` below `len`, `ceil(len / s) / 2` of
/// them; the calls that follow give nothing.
pub proof fn lemma_middles_walk(len: int, s: int)
    requires
        1 <= s < len,
    ensures
        middles_from(len, s, s).len() == ((len + s - 1) / s) / 2,
        forall|k: int| 0 <= k < middles_from(len, s, s).len() ==> #[trigger] middles_from(len, s, s)[k] == (2 * k + 1) * s,
{
    lemma_middles_from(len, s, 0);
    assert((2 * 0 + 1) * s == s) by (nonlinear_arith);
    lemma_below_chunks(1, s, len);
}

/// `pos + amount`, or `len` when that goes past `len`.
pub fn advance(pos: usize, amount: usize, len: usize) -> (r: usize)
    requires
        pos <= len,
    ensures
        r == (if len <= pos + amount { len as int } else { pos + amount }),
{
    if len - pos > amount {
        pos + amount
    } else {
        len
    }
}

} // verus!
