//! Where the blocks of a level lie: the wavelet steps of an image, and the
//! chunks of `bs` by `bs` samples that the blocks of a level code.
use vstd::prelude::*;

use crate::encode::block::block_chunk_ok;
use crate::processing::image::{min_int, next_position, ImageChunkMut};
use vstd::arithmetic::power2::pow2;

verus! {

/// The coarsest wavelet step of a `w` by `h` image, from step `s` on: the
/// step doubles while twice the step is below one of the sides.
pub open spec fn top_step_from(s: int, w: int, h: int) -> int
    decreases (if s < w + h { w + h - s } else { 0 }),
{
    if s >= 1 && w >= 0 && h >= 0 && (2 * s < w || 2 * s < h) {
        top_step_from(2 * s, w, h)
    } else {
        s
    }
}

/// The coarsest wavelet step of a `w` by `h` image.
pub open spec fn top_step(w: int, h: int) -> int {
    top_step_from(1, w, h)
}

/// The number of chunks of `bs` samples along a side of `len` samples.
pub open spec fn chunks_along(len: int, bs: int) -> int {
    (len + bs - 1) / bs
}

/// The number of blocks of a level with chunks of `bs` by `bs` samples.
pub open spec fn block_count(w: int, h: int, n: int, bs: int) -> int {
    chunks_along(w, bs) * chunks_along(h, bs) * n
}

/// Where chunk `k` starts: column, row and channel.  The chunks go channel
/// after channel, in each channel row of chunks after row of chunks, each row
/// from left to right.
pub open spec fn chunk_position(w: int, h: int, bs: int, k: int) -> (int, int, int) {
    let bx = chunks_along(w, bs);
    let per_channel = bx * chunks_along(h, bs);
    let r = k % per_channel;
    ((r % bx) * bs, (r / bx) * bs, k / per_channel)
}

/// Chunk `k` of the level with chunks of `bs` by `bs` samples and wavelet
/// step `step`, in planar samples of `data_len` samples.
pub open spec fn level_chunk(w: int, h: int, bs: int, step: int, data_len: int, k: int) -> ImageChunkMut {
    let (x, y, ch) = chunk_position(w, h, bs, k);
    ImageChunkMut {
        data_len: data_len as usize,
        image_width: w as usize,
        channel_size: (w * h) as usize,
        channel_start: (ch * (w * h)) as usize,
        x_range: (x as usize, min_int(x + bs, w) as usize),
        y_range: (y as usize, min_int(y + bs, h) as usize),
        channel: ch as usize,
        step: step as usize,
    }
}

/// `m` chunks of `bs` cover `len` samples exactly when `m` reaches the
/// number of chunks along the side.
pub proof fn lemma_chunks_cover(len: int, bs: int, m: int)
    requires
        len >= 0,
        bs >= 1,
        m >= 0,
    ensures
        m * bs >= len <==> m >= chunks_along(len, bs),
        chunks_along(len, bs) >= 0,
        len >= 1 ==> chunks_along(len, bs) >= 1,
        chunks_along(len, bs) <= len,
{
    let q = chunks_along(len, bs);
    let r = (len + bs - 1) % bs;
    vstd::arithmetic::div_mod::lemma_fundamental_div_mod(len + bs - 1, bs);
    assert(len + bs - 1 == bs * q + r);
    assert(0 <= r < bs);
    assert(q >= 0) by (nonlinear_arith)
        requires
            len + bs - 1 == bs * q + r,
            0 <= r < bs,
            len >= 0,
            bs >= 1,
    ;
    if m >= q {
        assert(m * bs >= q * bs) by (nonlinear_arith)
            requires
                m >= q,
                bs >= 1,
        ;
    } else {
        assert(m * bs <= q * bs - bs) by (nonlinear_arith)
            requires
                m <= q - 1,
                bs >= 1,
        ;
    }
    if len >= 1 {
        assert(q >= 1) by (nonlinear_arith)
            requires
                len + bs - 1 == bs * q + r,
                r < bs,
                len >= 1,
                bs >= 1,
        ;
    }
    assert(q <= len) by (nonlinear_arith)
        requires
            len + bs - 1 == bs * q + r,
            0 <= r,
            bs >= 1,
            len >= 0,
    ;
}

/// The first chunk starts at the top left of channel 0.
pub proof fn lemma_first_position(w: int, h: int, bs: int)
    requires
        w >= 1,
        h >= 1,
        bs >= 1,
    ensures
        chunk_position(w, h, bs, 0) == (0int, 0int, 0int),
{
    lemma_chunks_cover(w, bs, 0);
    lemma_chunks_cover(h, bs, 0);
    let bx = chunks_along(w, bs);
    let per_channel = bx * chunks_along(h, bs);
    assert(per_channel >= 1) by (nonlinear_arith)
        requires
            bx >= 1,
            chunks_along(h, bs) >= 1,
            per_channel == bx * chunks_along(h, bs),
    ;
    vstd::arithmetic::div_mod::lemma_fundamental_div_mod_converse(0, per_channel, 0, 0);
    vstd::arithmetic::div_mod::lemma_fundamental_div_mod_converse(0, bx, 0, 0);
}

/// The walk over the chunks steps from chunk `k` to chunk `k + 1`.
pub proof fn lemma_next_position(w: int, h: int, bs: int, k: int)
    requires
        w >= 1,
        h >= 1,
        bs >= 1,
        k >= 0,
    ensures
        ({
            let (x, y, ch) = chunk_position(w, h, bs, k);
            next_position(x, y, ch, bs, w, h) == chunk_position(w, h, bs, k + 1)
        }),
        chunk_position(w, h, bs, k).0 < w,
        chunk_position(w, h, bs, k).1 < h,
        chunk_position(w, h, bs, k).0 >= 0,
        chunk_position(w, h, bs, k).1 >= 0,
{
    let bx = chunks_along(w, bs);
    let by = chunks_along(h, bs);
    lemma_chunks_cover(w, bs, 0);
    lemma_chunks_cover(h, bs, 0);
    let p = bx * by;
    assert(p >= 1) by (nonlinear_arith)
        requires
            bx >= 1,
            by >= 1,
            p == bx * by,
    ;
    let ch = k / p;
    let r = k % p;
    vstd::arithmetic::div_mod::lemma_fundamental_div_mod(k, p);
    let yi = r / bx;
    let xi = r % bx;
    vstd::arithmetic::div_mod::lemma_fundamental_div_mod(r, bx);
    assert(0 <= yi < by) by (nonlinear_arith)
        requires
            r == bx * yi + xi,
            0 <= r < p,
            p == bx * by,
            0 <= xi < bx,
    ;
    lemma_chunks_cover(w, bs, xi + 1);
    lemma_chunks_cover(w, bs, xi);
    lemma_chunks_cover(h, bs, yi + 1);
    lemma_chunks_cover(h, bs, yi);
    assert((xi + 1) * bs == xi * bs + bs && (yi + 1) * bs == yi * bs + bs) by (nonlinear_arith);
    assert(xi * bs >= 0 && yi * bs >= 0) by (nonlinear_arith)
        requires
            xi >= 0,
            yi >= 0,
            bs >= 1,
    ;
    if xi + 1 < bx {
        let r1 = bx * yi + (xi + 1);
        assert(bx * yi + bx <= bx * by) by (nonlinear_arith)
            requires
                yi + 1 <= by,
                bx >= 1,
        ;
        vstd::arithmetic::div_mod::lemma_fundamental_div_mod_converse(k + 1, p, ch, r1);
        vstd::arithmetic::div_mod::lemma_fundamental_div_mod_converse(r1, bx, yi, xi + 1);
    } else if yi + 1 < by {
        let r1 = bx * (yi + 1);
        assert(bx * (yi + 1) <= bx * (by - 1)) by (nonlinear_arith)
            requires
                yi + 1 <= by - 1,
                bx >= 1,
        ;
        assert(bx * (by - 1) == p - bx) by (nonlinear_arith)
            requires
                p == bx * by,
        ;
        assert(r1 == r + 1) by (nonlinear_arith)
            requires
                r1 == bx * (yi + 1),
                r == bx * yi + xi,
                xi + 1 == bx,
        ;
        vstd::arithmetic::div_mod::lemma_fundamental_div_mod_converse(k + 1, p, ch, r1);
        vstd::arithmetic::div_mod::lemma_fundamental_div_mod_converse(r1, bx, yi + 1, 0);
    } else {
        assert(r + 1 == p) by (nonlinear_arith)
            requires
                r == bx * yi + xi,
                xi + 1 == bx,
                yi + 1 == by,
                p == bx * by,
        ;
        assert(k + 1 == p * (ch + 1) + 0) by (nonlinear_arith)
            requires
                k == p * ch + r,
                r + 1 == p,
        ;
        vstd::arithmetic::div_mod::lemma_fundamental_div_mod_converse(k + 1, p, ch + 1, 0);
        vstd::arithmetic::div_mod::lemma_small_mod(0, bx as nat);
        vstd::arithmetic::div_mod::lemma_basic_div(0, bx);
    }
}

/// The chunks before the block count lie in the channels of the level, and
/// the chunks from the block count on start past them.
pub proof fn lemma_position_channel(w: int, h: int, n: int, bs: int, k: int)
    requires
        w >= 1,
        h >= 1,
        bs >= 1,
        n >= 0,
        0 <= k,
    ensures
        k < block_count(w, h, n, bs) ==> chunk_position(w, h, bs, k).2 < n,
        k >= block_count(w, h, n, bs) ==> chunk_position(w, h, bs, k).2 >= n,
        k == block_count(w, h, n, bs) ==> chunk_position(w, h, bs, k).2 == n,
        chunk_position(w, h, bs, k).2 >= 0,
{
    let bx = chunks_along(w, bs);
    let by = chunks_along(h, bs);
    lemma_chunks_cover(w, bs, 0);
    lemma_chunks_cover(h, bs, 0);
    let p = bx * by;
    assert(p >= 1) by (nonlinear_arith)
        requires
            bx >= 1,
            by >= 1,
            p == bx * by,
    ;
    assert(block_count(w, h, n, bs) == p * n);
    vstd::arithmetic::div_mod::lemma_fundamental_div_mod(k, p);
    let ch = k / p;
    if k < p * n {
        assert(ch < n) by (nonlinear_arith)
            requires
                k == p * ch + k % p,
                k % p >= 0,
                k < p * n,
                p >= 1,
        ;
    } else {
        assert(ch >= n) by (nonlinear_arith)
            requires
                k == p * ch + k % p,
                k % p < p,
                k >= p * n,
                p >= 1,
        ;
    }
    if k == p * n {
        vstd::arithmetic::div_mod::lemma_fundamental_div_mod_converse(k, p, n, 0);
    }
    assert(ch >= 0) by (nonlinear_arith)
        requires
            k == p * ch + k % p,
            k % p < p,
            k >= 0,
            p >= 1,
    ;
}

/// The chunks of a level are chunks the block coders accept, when the image
/// has fewer than `2^30` samples on a side and its blocks, cut to the image,
/// fewer than `2^31` samples, and the step is a power of two below `2^30`.
pub proof fn lemma_level_chunk_ok(w: int, h: int, n: int, bs: int, step: int, e: nat, data_len: int, k: int)
    requires
        1 <= w <= 0x3fff_ffff,
        1 <= h <= 0x3fff_ffff,
        min_int(w, bs) * min_int(h, bs) < 0x8000_0000,
        bs >= 1,
        e < 30,
        step == pow2(e),
        n >= 1,
        n * (w * h) <= data_len <= usize::MAX,
        0 <= k < block_count(w, h, n, bs),
    ensures
        block_chunk_ok(level_chunk(w, h, bs, step, data_len, k)),
        level_chunk(w, h, bs, step, data_len, k).channel < n,
        level_chunk(w, h, bs, step, data_len, k).channel == chunk_position(w, h, bs, k).2,
{
    let (x, y, ch) = chunk_position(w, h, bs, k);
    lemma_next_position(w, h, bs, k);
    lemma_position_channel(w, h, n, bs, k);
    let c = level_chunk(w, h, bs, step, data_len, k);
    vstd::arithmetic::power2::lemma_pow2_pos(e);
    vstd::arithmetic::power2::lemma_pow2_strictly_increases(e, 30);
    vstd::arithmetic::power2::lemma2_to64();
    assert(w * h >= 1) by (nonlinear_arith)
        requires
            w >= 1,
            h >= 1,
    ;
    assert((ch + 1) * (w * h) <= n * (w * h)) by (nonlinear_arith)
        requires
            ch + 1 <= n,
            w * h >= 1,
    ;
    assert(ch * (w * h) >= 0) by (nonlinear_arith)
        requires
            ch >= 0,
            w * h >= 1,
    ;
    let x1 = min_int(x + bs, w);
    let y1 = min_int(y + bs, h);
    assert(y1 * w <= w * h) by (nonlinear_arith)
        requires
            y1 <= h,
            w >= 1,
    ;
    assert(ch * (w * h) <= (ch + 1) * (w * h)) by (nonlinear_arith)
        requires
            w * h >= 1,
    ;
    assert((x1 - x) * (y1 - y) <= min_int(w, bs) * min_int(h, bs)) by (nonlinear_arith)
        requires
            0 <= x1 - x <= min_int(w, bs),
            0 <= y1 - y <= min_int(h, bs),
    ;
    assert(n <= n * (w * h)) by (nonlinear_arith)
        requires
            n >= 1,
            w * h >= 1,
    ;
    assert(c.channel == ch);
    assert(c.step == pow2(e));
    assert(c.x_range == (x as usize, x1 as usize));
    assert(c.y_range == (y as usize, y1 as usize));
    assert(c.image_width == w);
    assert(w * h <= n * (w * h)) by (nonlinear_arith)
        requires
            n >= 1,
            w * h >= 1,
    ;
    assert(c.channel_size == w * h);
    assert(c.channel_start == ch * (w * h));
    assert(c.data_len == data_len);
    assert(crate::encode::context::context_chunk_ok(c));
    assert(c.y_range.1 * c.image_width <= c.channel_size);
    assert(c.channel_start + c.channel_size <= c.data_len) by (nonlinear_arith)
        requires
            c.channel_start == ch * (w * h),
            c.channel_size == w * h,
            (ch + 1) * (w * h) <= n * (w * h),
            n * (w * h) <= data_len,
            c.data_len == data_len,
    ;
    assert((c.x_range.1 - c.x_range.0) * (c.y_range.1 - c.y_range.0) < 0x8000_0000);
    assert(exists|kk: nat| kk < 30 && c.step == pow2(kk));
}

/// The chunk bound grows with the sides and with the block side.
pub proof fn lemma_chunk_area_mono(w: int, h: int, bs: int, w2: int, h2: int, bs2: int)
    requires
        0 <= w <= w2,
        0 <= h <= h2,
        0 <= bs <= bs2,
    ensures
        min_int(w, bs) * min_int(h, bs) <= min_int(w2, bs2) * min_int(h2, bs2),
{
    let a = min_int(w, bs);
    let b = min_int(h, bs);
    let a2 = min_int(w2, bs2);
    let b2 = min_int(h2, bs2);
    assert(a * b <= a2 * b2) by (nonlinear_arith)
        requires
            0 <= a <= a2,
            0 <= b <= b2,
    ;
}

/// A power of two that fits in `usize` leaves room for a side of an image
/// beside it.
pub proof fn lemma_pow2_room(m: nat)
    requires
        pow2(m) <= usize::MAX,
    ensures
        pow2(m) + 0x4000_0000 <= usize::MAX,
{
    vstd::arithmetic::power2::lemma2_to64();
    vstd::arithmetic::power2::lemma2_to64_rest();
    assert(usize::MAX == 0xffff_ffff || usize::MAX == 0xffff_ffff_ffff_ffff);
    if usize::MAX == 0xffff_ffff {
        if m > 32 {
            vstd::arithmetic::power2::lemma_pow2_strictly_increases(32, m);
        }
        if m < 31 {
            vstd::arithmetic::power2::lemma_pow2_strictly_increases(m, 31);
        }
    } else {
        if m > 64 {
            vstd::arithmetic::power2::lemma_pow2_strictly_increases(64, m);
        }
        if m < 63 {
            vstd::arithmetic::power2::lemma_pow2_strictly_increases(m, 63);
        }
    }
}

} // verus!
