//! Where a sample of the image is coded: the level of its position and the
//! block of that level whose chunk holds it.
use vstd::prelude::*;
use vstd::arithmetic::div_mod::{lemma_fundamental_div_mod, lemma_fundamental_div_mod_converse};
use vstd::arithmetic::power2::pow2;

use super::layout::{block_count, chunk_position, chunks_along, lemma_chunks_cover, top_step, top_step_from};

verus! {

/// The block of a level whose chunk holds column `x`, row `y` of channel
/// `ch`: chunks of `bs` by `bs` samples, in order.
pub proof fn lemma_chunk_of(w: int, h: int, n: int, bs: int, ch: int, x: int, y: int) -> (k: int)
    requires
        w >= 1,
        h >= 1,
        bs >= 1,
        0 <= ch < n,
        0 <= x < w,
        0 <= y < h,
    ensures
        0 <= k < block_count(w, h, n, bs),
        chunk_position(w, h, bs, k) == ((x / bs) * bs, (y / bs) * bs, ch),
{
    let bx = chunks_along(w, bs);
    let by = chunks_along(h, bs);
    let per = bx * by;
    lemma_chunks_cover(w, bs, x / bs);
    lemma_chunks_cover(h, bs, y / bs);
    lemma_fundamental_div_mod(x, bs);
    lemma_fundamental_div_mod(y, bs);
    let qx = x / bs;
    let qy = y / bs;
    assert(qx >= 0 && qy >= 0) by {
        vstd::arithmetic::div_mod::lemma_div_pos_is_pos(x, bs);
        vstd::arithmetic::div_mod::lemma_div_pos_is_pos(y, bs);
    }
    assert(qx * bs <= x) by (nonlinear_arith)
        requires
            x == bs * qx + x % bs,
            x % bs >= 0,
    ;
    assert(qy * bs <= y) by (nonlinear_arith)
        requires
            y == bs * qy + y % bs,
            y % bs >= 0,
    ;
    assert(qx < bx);
    assert(qy < by);
    let r = qy * bx + qx;
    assert(0 <= r < per) by (nonlinear_arith)
        requires
            0 <= qx < bx,
            0 <= qy < by,
            r == qy * bx + qx,
            per == bx * by,
    ;
    let k = ch * per + r;
    assert(0 <= k < n * per) by (nonlinear_arith)
        requires
            0 <= r < per,
            0 <= ch < n,
            k == ch * per + r,
    ;
    assert(block_count(w, h, n, bs) == per * n);
    vstd::arithmetic::mul::lemma_mul_is_commutative(per, n);
    lemma_fundamental_div_mod_converse(k, per, ch, r);
    vstd::arithmetic::mul::lemma_mul_is_commutative(ch, per);
    lemma_fundamental_div_mod_converse(r, bx, qy, qx);
    vstd::arithmetic::mul::lemma_mul_is_commutative(qy, bx);
    k
}

/// Whether chunk `k` of the walk over the chunks of `bs` by `bs` samples
/// holds column `x`, row `y` of channel `ch`.
pub open spec fn chunk_holds(w: int, h: int, bs: int, k: int, ch: int, x: int, y: int) -> bool {
    let (px, py, c) = chunk_position(w, h, bs, k);
    &&& c == ch
    &&& px <= x < px + bs
    &&& py <= y < py + bs
}

/// The chunk of the walk that holds column `x`, row `y` of channel `ch`.
pub open spec fn chunk_of(w: int, h: int, bs: int, ch: int, x: int, y: int) -> int {
    let bx = chunks_along(w, bs);
    ch * (bx * chunks_along(h, bs)) + (y / bs) * bx + x / bs
}

/// The chunks of the walk over an image tile it: each sample of each
/// channel lies in one chunk of the walk and in no other.
pub proof fn lemma_chunks_tile(w: int, h: int, n: int, bs: int, ch: int, x: int, y: int, k: int)
    requires
        w >= 1,
        h >= 1,
        bs >= 1,
        0 <= ch < n,
        0 <= x < w,
        0 <= y < h,
        0 <= k < block_count(w, h, n, bs),
    ensures
        exists|j: int| 0 <= j < block_count(w, h, n, bs) && chunk_holds(w, h, bs, j, ch, x, y),
        chunk_holds(w, h, bs, k, ch, x, y) <==> k == chunk_of(w, h, bs, ch, x, y),
{
    let j = lemma_chunk_of(w, h, n, bs, ch, x, y);
    lemma_fundamental_div_mod(x, bs);
    lemma_fundamental_div_mod(y, bs);
    vstd::arithmetic::div_mod::lemma_mod_pos_bound(x, bs);
    vstd::arithmetic::div_mod::lemma_mod_pos_bound(y, bs);
    assert((x / bs) * bs <= x < (x / bs) * bs + bs) by (nonlinear_arith)
        requires
            x == bs * (x / bs) + x % bs,
            0 <= x % bs < bs,
    ;
    assert((y / bs) * bs <= y < (y / bs) * bs + bs) by (nonlinear_arith)
        requires
            y == bs * (y / bs) + y % bs,
            0 <= y % bs < bs,
    ;
    assert(chunk_holds(w, h, bs, j, ch, x, y));
    let bx = chunks_along(w, bs);
    let per = bx * chunks_along(h, bs);
    lemma_chunks_cover(w, bs, 0);
    lemma_chunks_cover(h, bs, 0);
    assert(per >= 1) by (nonlinear_arith)
        requires
            bx >= 1,
            chunks_along(h, bs) >= 1,
            per == bx * chunks_along(h, bs),
    ;
    let kj = chunk_of(w, h, bs, ch, x, y);
    assert(j == kj) by {
        let rj = j % per;
        lemma_fundamental_div_mod(j, per);
        vstd::arithmetic::div_mod::lemma_mod_pos_bound(j, per);
        lemma_fundamental_div_mod(rj, bx);
        vstd::arithmetic::div_mod::lemma_mod_pos_bound(rj, bx);
        let aj = rj % bx;
        let bj = rj / bx;
        assert(aj * bs == (x / bs) * bs);
        assert(bj * bs == (y / bs) * bs);
        assert(aj == x / bs) by (nonlinear_arith)
            requires
                aj * bs == (x / bs) * bs,
                bs >= 1,
        ;
        assert(bj == y / bs) by (nonlinear_arith)
            requires
                bj * bs == (y / bs) * bs,
                bs >= 1,
        ;
        assert(j == kj) by (nonlinear_arith)
            requires
                j == per * (j / per) + rj,
                rj == bx * bj + aj,
                j / per == ch,
                aj == x / bs,
                bj == y / bs,
                kj == ch * per + (y / bs) * bx + x / bs,
        ;
    }
    if chunk_holds(w, h, bs, k, ch, x, y) {
        let r = k % per;
        lemma_fundamental_div_mod(k, per);
        vstd::arithmetic::div_mod::lemma_mod_pos_bound(k, per);
        lemma_fundamental_div_mod(r, bx);
        vstd::arithmetic::div_mod::lemma_mod_pos_bound(r, bx);
        let a = r % bx;
        let b = r / bx;
        assert(b >= 0) by {
            vstd::arithmetic::div_mod::lemma_div_pos_is_pos(r, bx);
        }
        assert(a * bs <= x < a * bs + bs);
        assert(b * bs <= y < b * bs + bs);
        lemma_fundamental_div_mod_converse(x, bs, a, x - a * bs);
        lemma_fundamental_div_mod_converse(y, bs, b, y - b * bs);
        assert(k / per == ch);
        assert(k == kj) by (nonlinear_arith)
            requires
                k == per * (k / per) + r,
                r == bx * b + a,
                k / per == ch,
                a == x / bs,
                b == y / bs,
                kj == ch * per + (y / bs) * bx + x / bs,
        ;
    }
}

/// Multiples of `a * 2^b` with `b >= 1` are multiples of `2 * a`.
pub proof fn lemma_multiple_of_twice(q: int, a: int, b: nat)
    requires
        a >= 1,
        b >= 1,
    ensures
        (q * (a * pow2(b))) % (2 * a) == 0,
{
    vstd::arithmetic::power2::lemma_pow2_unfold(b);
    let p = pow2((b - 1) as nat) as int;
    assert(q * (a * pow2(b)) == (q * p) * (2 * a)) by (nonlinear_arith)
        requires
            pow2(b) == 2 * p,
    ;
    vstd::arithmetic::div_mod::lemma_mod_multiples_basic(q * p, 2 * a);
}


/// The coarsest step of an image is a power of two whose double reaches both
/// sides; it exceeds 1 only when it stays below one of them.
pub proof fn lemma_top(w: int, h: int) -> (e: nat)
    requires
        1 <= w <= 0x3fff_ffff,
        1 <= h <= 0x3fff_ffff,
    ensures
        top_step(w, h) == pow2(e),
        e < 30,
        2 * pow2(e) >= w,
        2 * pow2(e) >= h,
        e == 0 || pow2(e) < w || pow2(e) < h,
{
    vstd::arithmetic::power2::lemma2_to64();
    lemma_top_from(0, w, h)
}

proof fn lemma_top_from(i: nat, w: int, h: int) -> (e: nat)
    requires
        1 <= w <= 0x3fff_ffff,
        1 <= h <= 0x3fff_ffff,
        i < 30,
        i == 0 || pow2(i) < w || pow2(i) < h,
    ensures
        top_step_from(pow2(i) as int, w, h) == pow2(e),
        i <= e < 30,
        2 * pow2(e) >= w,
        2 * pow2(e) >= h,
        e == 0 || pow2(e) < w || pow2(e) < h,
    decreases 30 - i,
{
    vstd::arithmetic::power2::lemma_pow2_pos(i);
    vstd::arithmetic::power2::lemma_pow2_unfold(i + 1);
    let s = pow2(i) as int;
    if 2 * s < w || 2 * s < h {
        vstd::arithmetic::power2::lemma2_to64();
        if i + 1 >= 30 {
            vstd::arithmetic::power2::lemma_pow2_strictly_increases(30, i + 1);
            assert(false);
        }
        lemma_top_from(i + 1, w, h)
    } else {
        i
    }
}

/// A multiple of `t` is, modulo `2t`, either 0 or `t`.
pub proof fn lemma_half_mod(x: int, t: int)
    requires
        t >= 1,
        x >= 0,
        x % t == 0,
    ensures
        x % (2 * t) == 0 || x % (2 * t) == t,
        x % (2 * t) == 0 ==> x % t == 0,
{
    lemma_fundamental_div_mod(x, t);
    let q = x / t;
    lemma_fundamental_div_mod(q, 2);
    let r = q % 2;
    assert(x == (2 * t) * (q / 2) + t * r) by (nonlinear_arith)
        requires
            x == t * q,
            q == 2 * (q / 2) + r,
    ;
    assert(0 <= t * r < 2 * t) by (nonlinear_arith)
        requires
            0 <= r < 2,
            t >= 1,
    ;
    lemma_fundamental_div_mod_converse(x, 2 * t, q / 2, t * r);
    assert(r == 0 || r == 1);
    assert(t * r == 0 || t * r == t) by (nonlinear_arith)
        requires
            r == 0 || r == 1,
    ;
}

/// The level of a position other than the origin: the largest power of two
/// (up to the coarsest step) that divides both coordinates, where one of
/// them is an odd multiple of it.
pub proof fn lemma_position_level(x: int, y: int, i0: nat, e: nat) -> (i: nat)
    requires
        0 <= x < 2 * pow2(e),
        0 <= y < 2 * pow2(e),
        x != 0 || y != 0,
        i0 <= e,
        x % (pow2(i0) as int) == 0,
        y % (pow2(i0) as int) == 0,
    ensures
        i0 <= i <= e,
        x % (pow2(i) as int) == 0,
        y % (pow2(i) as int) == 0,
        x % (2 * pow2(i) as int) == pow2(i) || y % (2 * pow2(i) as int) == pow2(i),
    decreases e - i0,
{
    let t = pow2(i0) as int;
    vstd::arithmetic::power2::lemma_pow2_pos(i0);
    vstd::arithmetic::power2::lemma_pow2_unfold(i0 + 1);
    lemma_half_mod(x, t);
    lemma_half_mod(y, t);
    if x % (2 * t) == 0 && y % (2 * t) == 0 {
        if i0 == e {
            lemma_fundamental_div_mod(x, 2 * t);
            lemma_fundamental_div_mod(y, 2 * t);
            assert(x == 0) by (nonlinear_arith)
                requires
                    x == (2 * t) * (x / (2 * t)),
                    0 <= x < 2 * t,
                    t >= 1,
            ;
            assert(y == 0) by (nonlinear_arith)
                requires
                    y == (2 * t) * (y / (2 * t)),
                    0 <= y < 2 * t,
                    t >= 1,
            ;
            assert(false);
            i0
        } else {
            assert(pow2(i0 + 1) == 2 * t);
            lemma_position_level(x, y, i0 + 1, e)
        }
    } else {
        i0
    }
}

} // verus!
