//! Coding the coefficients of one chunk of an image for one step of the
//! wavelet: optionally its top-left (DC) coefficient, then the coefficients
//! whose position has `step` as its lowest set bit in a row or a column, row
//! by row, with runs of zeros coded as their lengths.
use vstd::prelude::*;
use vstd::arithmetic::power2::pow2;

use super::context::{
    ancestor, context_chunk_ok, context_of, context_readable, context_sums, context_terms, get_context,
    square,
};
use super::golomb::{
    interleave, interleaved_decode_spec, signed_code_bits, signed_decode_spec,
    unsigned_code_bits, unsigned_decode_spec, wrap32,
};
use super::{
    choice_bits, choice_decode, code_choice, encode_s, get_run_coder, get_run_coder_fast, get_s,
    run_coder_fast_spec, run_coder_spec,
};
use crate::bits::{BitsReader, BitsWriter};
use crate::encode::golomb::{
    interleaved_code, interleaved_decode, signed_code, signed_decode, unsigned_code,
    unsigned_decode,
};
use crate::header::Encoder;
use crate::lifting::wrap16;
use crate::processing::image::ImageChunkMut;

verus! {

/// The chunks a block coder works on: inside their channel, which lies inside
/// the data, with coordinates that fit in 30 bits, fewer than `2^31` samples
/// (a run of zeros is counted on 32 bits) and a power of two below `2^30` as
/// step (twice the step is added to coordinates on 32 bits).
pub open spec fn block_chunk_ok(c: ImageChunkMut) -> bool {
    &&& context_chunk_ok(c)
    &&& c.x_range.1 <= c.image_width
    &&& c.y_range.1 * c.image_width <= c.channel_size
    &&& c.channel_start + c.channel_size <= c.data_len
    &&& (c.x_range.1 - c.x_range.0) * (c.y_range.1 - c.y_range.0) < 0x8000_0000
    &&& exists|k: nat| k < 30 && c.step == pow2(k)
}

pub open spec fn size_x(c: ImageChunkMut) -> int {
    c.x_range.1 - c.x_range.0
}

pub open spec fn size_y(c: ImageChunkMut) -> int {
    c.y_range.1 - c.y_range.0
}

/// The index of the coefficient at relative column `x`, row `y`.
pub open spec fn sample_index(c: ImageChunkMut, x: int, y: int) -> int {
    c.index_of(c.y_range.0 + y, c.x_range.0 + x)
}

/// The step between coded columns of relative row `y`, and the first one.
pub open spec fn row_step(c: ImageChunkMut, y: int) -> int {
    if (y as i32 & c.step as i32) != 0 {
        c.step as int
    } else {
        2 * c.step
    }
}

/// Whether the start of the coding can weigh `q` by the step on 32 bits: it
/// does so for the turbo coder only, with `q` nonzero and a step below 2048.
pub open spec fn start_fits(scheme: Encoder, q: i32, step: int) -> bool {
    scheme == Encoder::Turbo && q != 0 && step < 2048 ==> i32::MIN <= q * step <= i32::MAX
}

/// The run coder the coding starts with.
pub open spec fn initial_run_coder(scheme: Encoder, q: i32, step: int) -> i32 {
    if scheme == Encoder::Turbo && (q == 0 || (step < 2048 && q * step < 2048)) {
        1
    } else {
        0
    }
}

/// Only the turbo coder starts a chunk coding runs of zeros (run coder 1),
/// and it does so when the quality is 0, or when the step is below 2048 and
/// the quality times the step is below 2048; every other coding starts with
/// runs off (0).
pub proof fn lemma_initial_run_coder(scheme: Encoder, q: i32, step: int)
    ensures
        scheme != Encoder::Turbo ==> initial_run_coder(scheme, q, step) == 0,
        scheme == Encoder::Turbo && q == 0 ==> initial_run_coder(scheme, q, step) == 1,
        scheme == Encoder::Turbo && step < 2048 && q * step < 2048 ==> initial_run_coder(scheme, q, step) == 1,
        scheme == Encoder::Turbo && q != 0 && (step >= 2048 || q * step >= 2048) ==> initial_run_coder(
            scheme,
            q,
            step,
        ) == 0,
{
}

/// The state of the encoder: context, length of the current run of zeros,
/// run coder, and the bits written so far.
pub struct EncState {
    pub context: (u32, u32),
    pub run: int,
    pub run_coder: i32,
    pub bits: Seq<bool>,
}

/// The decayed moments of the fast scheme after the coefficient `s`.
pub open spec fn fast_context(context: (u32, u32), s: i32) -> (u32, u32) {
    let t = if s < 0 { -s } else { s as int };
    let tc = if t < 4096 { t } else { 4096 };
    (
        wrap32(wrap32(context.0 * 15 + 7) as int / 16 + t),
        wrap32(wrap32(context.1 * 15 + 7) as int / 16 + tc * tc),
    )
}

/// What the encoder does with the coefficient at relative column `x`, row
/// `y`.
pub open spec fn enc_step(
    c: ImageChunkMut,
    data: Seq<i16>,
    scheme: Encoder,
    q: i32,
    is_chroma: bool,
    st: EncState,
    x: int,
    y: int,
) -> EncState {
    let s = data[sample_index(c, x, y)] as i32;
    if st.run_coder != 0 && s == 0 {
        EncState { run: st.run + 1, ..st }
    } else if scheme == Encoder::Turbo {
        enc_turbo(st, s)
    } else {
        enc_coded(c, data, scheme, q, is_chroma, st, s, x, y)
    }
}

/// The turbo scheme: a fixed code, after the length of the run that ends.
pub open spec fn enc_turbo(st: EncState, s: i32) -> EncState {
    if st.run_coder != 0 {
        let s1 = if s < 0 { (s + 1) as i32 } else { s };
        EncState {
            run: 0,
            bits: st.bits + unsigned_code_bits(st.run as u32, 1) + unsigned_code_bits(
                interleave(s1),
                1,
            ),
            ..st
        }
    } else {
        EncState { bits: st.bits + unsigned_code_bits(interleave(s), 1), ..st }
    }
}

/// The other schemes: the length of the run that ends, then the coefficient
/// with the code its context chooses; the context and the run coder move on.
pub open spec fn enc_coded(
    c: ImageChunkMut,
    data: Seq<i16>,
    scheme: Encoder,
    q: i32,
    is_chroma: bool,
    st: EncState,
    s: i32,
    x: int,
    y: int,
) -> EncState {
    let bits1 = if st.run_coder != 0 {
        st.bits + unsigned_code_bits(st.run as u32, st.run_coder as nat)
    } else {
        st.bits
    };
    let run1 = if st.run_coder != 0 { 0 } else { st.run };
    let s1 = if st.run_coder != 0 && s < 0 { (s + 1) as i32 } else { s };
    let ctx = if scheme == Encoder::Contextual {
        context_of(context_sums(c, data, context_terms(c, x as i32, y as i32)))
    } else {
        st.context
    };
    let sum_sq = wrap32(ctx.0 * ctx.0);
    let bits2 = bits1 + choice_bits(code_choice(sum_sq, ctx.1, is_chroma), s1);
    if scheme == Encoder::Fast {
        let ctx2 = fast_context(ctx, s1);
        EncState {
            context: ctx2,
            run: run1,
            run_coder: run_coder_fast_spec(ctx2, s1, st.run_coder),
            bits: bits2,
        }
    } else {
        EncState {
            context: ctx,
            run: run1,
            run_coder: run_coder_spec(ctx, s1, q, st.run_coder, sum_sq),
            bits: bits2,
        }
    }
}

/// The encoder over relative row `y` from column `x` on.
pub open spec fn enc_row(
    c: ImageChunkMut,
    data: Seq<i16>,
    scheme: Encoder,
    q: i32,
    is_chroma: bool,
    st: EncState,
    x: int,
    y: int,
) -> EncState
    decreases (if x < size_x(c) { size_x(c) - x } else { 0 }),
{
    if x < 0 || x >= size_x(c) || c.step == 0 {
        st
    } else {
        enc_row(
            c,
            data,
            scheme,
            q,
            is_chroma,
            enc_step(c, data, scheme, q, is_chroma, st, x, y),
            x + row_step(c, y),
            y,
        )
    }
}

/// The encoder over the rows from relative row `y` on.
pub open spec fn enc_rows(
    c: ImageChunkMut,
    data: Seq<i16>,
    scheme: Encoder,
    q: i32,
    is_chroma: bool,
    st: EncState,
    y: int,
) -> EncState
    decreases (if y < size_y(c) { size_y(c) - y } else { 0 }),
{
    if y < 0 || y >= size_y(c) || c.step == 0 {
        st
    } else {
        enc_rows(
            c,
            data,
            scheme,
            q,
            is_chroma,
            enc_row(c, data, scheme, q, is_chroma, st, row_step(c, y) - c.step, y),
            y + c.step,
        )
    }
}

/// All the bits that coding the chunk writes.
pub open spec fn encode_bits(
    c: ImageChunkMut,
    data: Seq<i16>,
    scheme: Encoder,
    q: i32,
    has_dc: bool,
    is_chroma: bool,
) -> Seq<bool> {
    let dc = if has_dc && size_x(c) > 0 && size_y(c) > 0 {
        signed_code_bits(data[sample_index(c, 0, 0)] as i32, 4)
    } else {
        Seq::empty()
    };
    let st0 = EncState {
        context: (0, 0),
        run: 0,
        run_coder: initial_run_coder(scheme, q, c.step as int),
        bits: dc,
    };
    let st = enc_rows(c, data, scheme, q, is_chroma, st0, 0);
    st.bits + if st.run != 0 {
        unsigned_code_bits(st.run as u32, st.run_coder as nat)
    } else {
        Seq::empty()
    }
}

// ---------------------------------------------------------------------------
// The samples a chunk reads.

/// Bits of coordinates when the step is a power of two: a set `s` bit means
/// the coordinate is at least `s`, and the ancestor stays within `s` above
/// the coordinate, reaching above it only when the coordinate is at least
/// `s`.
pub(crate) proof fn lemma_step_bits(v: i32, k: u32)
    requires
        0 <= v < 0x4000_0000,
        k < 30,
    ensures
        (v & (1i32 << k)) != 0 ==> v >= (1i32 << k),
        0 <= (v & !(((1i32 << k) * 2) as i32)) + (v & (1i32 << k)) <= v + (1i32 << k),
        (v & !(((1i32 << k) * 2) as i32)) + (v & (1i32 << k)) > v ==> (v & !(((1i32 << k) * 2) as i32))
            + (v & (1i32 << k)) == v + (1i32 << k) && v >= (1i32 << k),
{
    assert((v & (1i32 << k)) != 0 ==> v >= (1i32 << k)) by (bit_vector)
        requires
            0 <= v < 0x4000_0000,
            k < 30,
    ;
    assert(0 <= (v & !(((1i32 << k) * 2) as i32)) + (v & (1i32 << k)) <= v + (1i32 << k)) by (bit_vector)
        requires
            0 <= v < 0x4000_0000,
            k < 30,
    ;
    assert((v & !(((1i32 << k) * 2) as i32)) + (v & (1i32 << k)) > v ==> (v & !(((1i32 << k) * 2) as i32))
        + (v & (1i32 << k)) == v + (1i32 << k) && v >= (1i32 << k)) by (bit_vector)
        requires
            0 <= v < 0x4000_0000,
            k < 30,
    ;
}

/// The step of a chunk the block coders work on is at most `2^29`, so that
/// twice the step, added to a coordinate, stays on 32 bits.
pub(crate) proof fn lemma_step_bound(c: ImageChunkMut)
    requires
        block_chunk_ok(c),
    ensures
        c.step <= 0x2000_0000,
{
    let k = choose|k: nat| k < 30 && c.step == pow2(k);
    if k < 29 {
        vstd::arithmetic::power2::lemma_pow2_strictly_increases(k, 29);
    }
    vstd::arithmetic::power2::lemma2_to64();
}

/// A power of two below 2^30 as a shift.
pub(crate) proof fn lemma_pow2_shift(k: nat)
    requires
        k < 30,
    ensures
        (1i32 << (k as u32)) as int == pow2(k),
{
    let ku = k as u32;
    vstd::bits::lemma_u32_pow2_no_overflow(k);
    vstd::arithmetic::power2::lemma_pow2_strictly_increases(k, 30);
    vstd::arithmetic::power2::lemma2_to64();
    vstd::bits::lemma_u32_shl_is_mul(1, ku);
    assert((1i32 << ku) as int == (1u32 << ku) as int) by (bit_vector)
        requires
            ku < 30,
    ;
}

/// A sample of the chunk may be read.
pub(crate) proof fn lemma_owned_readable(c: ImageChunkMut, row: int, col: int)
    requires
        block_chunk_ok(c),
        c.y_range.0 <= row < c.y_range.1,
        c.x_range.0 <= col < c.x_range.1,
    ensures
        c.owned_spec(row as usize, col as usize),
        c.readable(row as usize, col as usize),
        0 <= c.index_of(row, col) < c.data_len,
{
    assert(row * c.image_width + col < c.y_range.1 * c.image_width) by (nonlinear_arith)
        requires
            0 <= row < c.y_range.1,
            0 <= col < c.image_width,
    ;
    assert(0 <= row * c.image_width) by (nonlinear_arith)
        requires
            0 <= row,
            0 <= c.image_width,
    ;
}

/// The context of a coefficient of the chunk reads only samples of the chunk.
pub(crate) proof fn lemma_context_readable(c: ImageChunkMut, x: int, y: int)
    requires
        block_chunk_ok(c),
        0 <= x < size_x(c),
        0 <= y < size_y(c),
    ensures
        context_readable(c, x as i32, y as i32),
        forall|j: int|
            0 <= j < context_terms(c, x as i32, y as i32).len() ==> c.y_range.0 <= (
            #[trigger] context_terms(c, x as i32, y as i32)[j]).0 < c.y_range.1 && c.x_range.0
                <= context_terms(c, x as i32, y as i32)[j].1 < c.x_range.1,
{
    let k = choose|k: nat| k < 30 && c.step == pow2(k);
    lemma_pow2_shift(k);
    let s = c.step as i32;
    assert(s == 1i32 << (k as u32));
    lemma_step_bits(x as i32, k as u32);
    lemma_step_bits(y as i32, k as u32);
    let ts = context_terms(c, x as i32, y as i32);
    let x0 = c.x_range.0 as int;
    let y0 = c.y_range.0 as int;
    let xi = x as i32;
    let yi = y as i32;
    let sx = size_x(c);
    let sy = size_y(c);
    assert(sx as i32 == (c.x_range.1 - c.x_range.0) as i32);
    let ax = ancestor(xi, s, (c.x_range.1 - c.x_range.0) as i32);
    let ay = ancestor(yi, s, (c.y_range.1 - c.y_range.0) as i32);
    assert(0 <= ax < sx);
    assert(0 <= ay < sy);
    assert forall|j: int| 0 <= j < ts.len() implies y0 <= (#[trigger] ts[j]).0 < c.y_range.1 && x0
        <= ts[j].1 < c.x_range.1 by {
        if (yi & s) != 0 {
            assert(y >= s);
        }
        if (xi & s) != 0 {
            assert(x >= s);
        }
        assert(0 <= (xi | s) <= xi + s) by (bit_vector)
            requires
                0 <= xi < 0x4000_0000,
                0 <= s < 0x4000_0000,
        ;
    }
    assert forall|j: int| 0 <= j < ts.len() implies {
        let t = #[trigger] ts[j];
        &&& 0 <= t.0 <= usize::MAX
        &&& 0 <= t.1 <= usize::MAX
        &&& c.readable(t.0 as usize, t.1 as usize)
    } by {
        let t = ts[j];
        lemma_owned_readable(c, t.0, t.1);
    }
}

// ---------------------------------------------------------------------------
// Encoding.

proof fn lemma_row_bound(y: int, sy: int, sx: int, step: int)
    requires
        0 <= y < sy,
        0 <= sx,
        step >= 1,
    ensures
        y * sx + sx <= sy * sx,
        y * sx + sx <= (y + step) * sx,
        0 <= y * sx,
{
    assert(y * sx + sx <= sy * sx) by (nonlinear_arith)
        requires
            0 <= y < sy,
            0 <= sx,
    ;
    assert(y * sx + sx <= (y + step) * sx) by (nonlinear_arith)
        requires
            step >= 1,
            0 <= sx,
    ;
    assert(0 <= y * sx) by (nonlinear_arith)
        requires
            0 <= y,
            0 <= sx,
    ;
}

/// The decayed moments of the fast scheme.
fn decay(c: u32, add: u32) -> (r: u32)
    ensures
        r == wrap32(wrap32(c * 15 + 7) as int / 16 + add),
{
    let m = super::threshold(15, c, 7);
    proof {
        vstd::bits::lemma_u32_shr_is_div(m, 4);
        vstd::arithmetic::power2::lemma2_to64();
    }
    (m >> 4).wrapping_add(add)
}

/// The run coder the coding starts with.
fn initial_run_coder_exec(scheme: Encoder, q: i32, step: i32) -> (r: i32)
    requires
        start_fits(scheme, q, step as int),
        1 <= step,
    ensures
        r == initial_run_coder(scheme, q, step as int),
        0 <= r <= 1,
{
    if scheme == Encoder::Turbo {
        if q == 0 {
            return 1;
        }
        if step < 2048 {
            if q * step < 2048 {
                return 1;
            }
        }
    }
    0
}

fn encode_turbo<W: BitsWriter>(
    stream: &mut W,
    s: i32,
    run: &mut i32,
    run_coder: &mut i32,
    Ghost(st): Ghost<EncState>,
    Ghost(base): Ghost<Seq<bool>>,
)
    requires
        old(stream).writer_wf(),
        old(stream).written() == base + st.bits,
        st.run == *old(run),
        st.run_coder == *old(run_coder),
        0 <= *old(run_coder) <= 4,
        0 <= *old(run),
        -32768 <= s <= 32767,
    ensures
        ({
            let next = enc_turbo(st, s);
            &&& final(stream).writer_wf()
            &&& final(stream).written() == base + next.bits
            &&& next.run == *final(run)
            &&& next.run_coder == *final(run_coder)
            &&& next.context == st.context
            &&& 0 <= *final(run) <= *old(run)
        }),
{
    if *run_coder != 0 {
        let _ = unsigned_code(*run as u32, stream, 1);
        *run = 0;
        let _ = interleaved_code(if s < 0 {
            s + 1
        } else {
            s
        }, stream, 1);
    } else {
        let _ = interleaved_code(s, stream, 1);
    }
    proof {
        assert(stream.written() =~= base + enc_turbo(st, s).bits);
    }
}

#[verifier::rlimit(30)]
fn encode_coded<W: BitsWriter>(
    image: &ImageChunkMut,
    data: &[i16],
    stream: &mut W,
    scheme: Encoder,
    q: i32,
    is_chroma: bool,
    x: i32,
    y: i32,
    s: i32,
    context: &mut (u32, u32),
    run: &mut i32,
    run_coder: &mut i32,
    Ghost(st): Ghost<EncState>,
    Ghost(base): Ghost<Seq<bool>>,
)
    requires
        block_chunk_ok(*image),
        data@.len() == image.data_len,
        old(stream).writer_wf(),
        old(stream).written() == base + st.bits,
        st.context == *old(context),
        st.run == *old(run),
        st.run_coder == *old(run_coder),
        0 <= *old(run_coder) <= 4,
        0 <= *old(run),
        -32768 <= s <= 32767,
        0 <= x < size_x(*image),
        0 <= y < size_y(*image),
        scheme != Encoder::Turbo,
    ensures
        ({
            let next = enc_coded(*image, data@, scheme, q, is_chroma, st, s, x as int, y as int);
            &&& final(stream).writer_wf()
            &&& final(stream).written() == base + next.bits
            &&& next.context == *final(context)
            &&& next.run == *final(run)
            &&& next.run_coder == *final(run_coder)
            &&& 0 <= *final(run_coder) <= 4
            &&& 0 <= *final(run) <= *old(run)
        }),
{
    let ghost s0 = s;
    let mut s = s;
    if *run_coder != 0 {
        let _ = unsigned_code(*run as u32, stream, *run_coder);
        *run = 0;
        if s < 0 {
            s = s + 1;
        }
    }
    if scheme == Encoder::Contextual {
        proof {
            lemma_context_readable(*image, x as int, y as int);
        }
        *context = get_context(image, data, x, y);
    }
    let sum_sq = square(context.0);
    let _ = encode_s(stream, s, sum_sq, *context, is_chroma);
    if scheme == Encoder::Fast {
        let t: u32 = if s < 0 {
            (-s) as u32
        } else {
            s as u32
        };
        let tc: u32 = if t < 4096 {
            t
        } else {
            4096
        };
        assert(tc * tc <= 4096 * 4096) by (nonlinear_arith)
            requires
                tc <= 4096,
        ;
        let sq = square(tc);
        *context = (decay(context.0, t), decay(context.1, sq));
        *run_coder = get_run_coder_fast(*context, s, *run_coder);
    } else {
        *run_coder = get_run_coder(*context, s, q, *run_coder, sum_sq);
    }
    proof {
        let next = enc_coded(*image, data@, scheme, q, is_chroma, st, s0, x as int, y as int);
        assert(stream.written() =~= base + next.bits);
    }
}

/// Codes the coefficient at relative column `x`, row `y`.
fn encode_one<W: BitsWriter>(
    image: &ImageChunkMut,
    data: &[i16],
    stream: &mut W,
    scheme: Encoder,
    q: i32,
    is_chroma: bool,
    x: i32,
    y: i32,
    context: &mut (u32, u32),
    run: &mut i32,
    run_coder: &mut i32,
    Ghost(st): Ghost<EncState>,
    Ghost(base): Ghost<Seq<bool>>,
)
    requires
        block_chunk_ok(*image),
        data@.len() == image.data_len,
        old(stream).writer_wf(),
        old(stream).written() == base + st.bits,
        st.context == *old(context),
        st.run == *old(run),
        st.run_coder == *old(run_coder),
        0 <= *old(run_coder) <= 4,
        0 <= *old(run) < 0x7fff_ffff,
        0 <= x < size_x(*image),
        0 <= y < size_y(*image),
    ensures
        ({
            let next = enc_step(*image, data@, scheme, q, is_chroma, st, x as int, y as int);
            &&& final(stream).writer_wf()
            &&& final(stream).written() == base + next.bits
            &&& next.context == *final(context)
            &&& next.run == *final(run)
            &&& next.run_coder == *final(run_coder)
            &&& 0 <= *final(run_coder) <= 4
            &&& 0 <= *final(run) <= *old(run) + 1
        }),
{
    proof {
        lemma_owned_readable(*image, image.y_range.0 + y, image.x_range.0 + x);
    }
    let y0 = image.y_range.0;
    let x0 = image.x_range.0;
    let s = image.get(data, y0 + y as usize, x0 + x as usize) as i32;
    if *run_coder != 0 && s == 0 {
        *run = *run + 1;
    } else if scheme == Encoder::Turbo {
        encode_turbo(stream, s, run, run_coder, Ghost(st), Ghost(base));
    } else {
        encode_coded(image, data, stream, scheme, q, is_chroma, x, y, s, context, run, run_coder, Ghost(st), Ghost(base));
    }
    proof {
        let next = enc_step(*image, data@, scheme, q, is_chroma, st, x as int, y as int);
        assert(stream.written() =~= base + next.bits);
    }
}

/// Writes the coefficients of the chunk of `data` for the chunk's step:
/// the DC coefficient first when `has_dc`, then the coefficients in coding
/// order, each with the code its context chooses (or, in the turbo scheme,
/// with a fixed code), runs of zeros as their lengths once a run coder is on.
pub fn encode<W: BitsWriter>(
    image: &ImageChunkMut,
    data: &[i16],
    stream: &mut W,
    scheme: Encoder,
    q: i32,
    has_dc: bool,
    is_chroma: bool,
) -> (r: Result<(), std::io::Error>)
    requires
        block_chunk_ok(*image),
        data@.len() == image.data_len,
        old(stream).writer_wf(),
        start_fits(scheme, q, image.step as int),
    ensures
        r is Ok,
        final(stream).writer_wf(),
        final(stream).written() == old(stream).written() + encode_bits(
            *image,
            data@,
            scheme,
            q,
            has_dc,
            is_chroma,
        ),
{
    let ghost c = *image;
    let ghost d = data@;
    let ghost base = stream.written();
    proof {
        lemma_step_bound(*image);
    }
    let step = image.step as i32;
    let x0 = image.x_range.0;
    let y0 = image.y_range.0;
    let sizex = (image.x_range.1 - image.x_range.0) as i32;
    let sizey = (image.y_range.1 - image.y_range.0) as i32;
    if has_dc && sizex > 0 && sizey > 0 {
        proof {
            lemma_owned_readable(c, y0 as int, x0 as int);
        }
        let v = image.get(data, y0, x0);
        let _ = signed_code(v as i32, stream, 4);
    }
    let mut context: (u32, u32) = (0, 0);
    let mut run: i32 = 0;
    let run_coder_start = initial_run_coder_exec(scheme, q, step);
    let mut run_coder: i32 = run_coder_start;
    let ghost st0 = EncState { context: (0, 0), run: 0, run_coder, bits: stream.written().subrange(base.len() as int, stream.written().len() as int) };
    proof {
        assert(stream.written() == base + st0.bits);
        assert(st0.bits == (if has_dc && size_x(c) > 0 && size_y(c) > 0 {
            signed_code_bits(d[sample_index(c, 0, 0)] as i32, 4)
        } else {
            Seq::<bool>::empty()
        }));
    }
    let ghost mut st = st0;
    let mut y: i32 = 0;
    while y < sizey
        invariant
            c == *image,
            d == data@,
            block_chunk_ok(c),
            d.len() == c.data_len,
            step == c.step,
            step <= 0x2000_0000,
            x0 == c.x_range.0,
            y0 == c.y_range.0,
            sizex == size_x(c),
            sizey == size_y(c),
            stream.writer_wf(),
            stream.written() == base + st.bits,
            st.context == context,
            st.run == run,
            st.run_coder == run_coder,
            0 <= run_coder <= 4,
            0 <= y < sizey + step,
            0 <= run <= y * sizex,
            enc_rows(c, d, scheme, q, is_chroma, st, y as int) == enc_rows(c, d, scheme, q, is_chroma, st0, 0),
        decreases sizey + step - y,
    {
        let x_step = if (y & step) != 0 {
            step
        } else {
            step * 2
        };
        let ghost st_row = st;
        let mut x: i32 = x_step - step;
        proof {
            lemma_row_bound(y as int, sizey as int, sizex as int, step as int);
        }
        while x < sizex
            invariant
                c == *image,
                d == data@,
                block_chunk_ok(c),
                d.len() == c.data_len,
                step == c.step,
                step <= 0x2000_0000,
                x0 == c.x_range.0,
                y0 == c.y_range.0,
                sizex == size_x(c),
                sizey == size_y(c),
                    0 <= y < sizey,
                x_step == row_step(c, y as int),
                stream.writer_wf(),
                stream.written() == base + st.bits,
                st.context == context,
                st.run == run,
                st.run_coder == run_coder,
                0 <= run_coder <= 4,
                0 <= x <= sizex + 2 * step,
                0 <= run <= y * sizex + (if x < sizex { x as int } else { sizex as int }),
                y * sizex + sizex <= sizey * sizex,
                enc_row(c, d, scheme, q, is_chroma, st, x as int, y as int) == enc_row(c, d, scheme, q, is_chroma, st_row, x_step - step, y as int),
            decreases sizex + 2 * step - x,
        {
            let ghost next = enc_step(c, d, scheme, q, is_chroma, st, x as int, y as int);
            proof {
                vstd::arithmetic::mul::lemma_mul_is_commutative(sizey as int, sizex as int);
            }
            encode_one(image, data, stream, scheme, q, is_chroma, x, y, &mut context, &mut run, &mut run_coder, Ghost(st), Ghost(base));
            proof {
                st = next;
                assert(stream.written() =~= base + st.bits);
            }
            x = x + x_step;
        }
        proof {
            lemma_row_bound(y as int, sizey as int, sizex as int, step as int);
        }
        y = y + step;
    }
    if run != 0 {
        let _ = unsigned_code(run as u32, stream, run_coder);
    }
    proof {
        assert(stream.written() =~= base + encode_bits(c, d, scheme, q, has_dc, is_chroma));
    }
    Ok(())
}

// ---------------------------------------------------------------------------
// Decoding.

/// The state of the decoder: context, run of zeros still to place (`-1`
/// when none was read), run coder, position in the bits, and the samples.
pub struct DecState {
    pub context: (u32, u32),
    pub run: int,
    pub run_coder: i32,
    pub pos: int,
    pub data: Seq<i16>,
}

/// Places the coefficient `s` decoded at relative column `x`, row `y`: right
/// after a run it cannot be zero, so non-positive values are one less.
pub open spec fn dec_place(st: DecState, c: ImageChunkMut, s: int, run0: int, x: int, y: int) -> DecState {
    let s1 = if run0 == 0 && s <= 0 { s - 1 } else { s };
    DecState { run: -1, data: st.data.update(sample_index(c, x, y), wrap16(s1)), ..st }
}

/// Decoding the coefficient at relative column `x`, row `y`, once the run
/// that covers it, if any, is known.
pub open spec fn dec_after_run(
    c: ImageChunkMut,
    bits: Seq<bool>,
    scheme: Encoder,
    q: i32,
    is_chroma: bool,
    st: DecState,
    run0: int,
    x: int,
    y: int,
) -> Option<DecState> {
    if run0 > 0 {
        Some(DecState { run: run0 - 1, data: st.data.update(sample_index(c, x, y), 0), ..st })
    } else if scheme == Encoder::Turbo {
        match interleaved_decode_spec(bits, st.pos, 1) {
            None => None,
            Some((v, n)) => Some(dec_place(DecState { pos: st.pos + n, ..st }, c, v as int, run0, x, y)),
        }
    } else {
        let ctx = if scheme == Encoder::Contextual {
            context_of(context_sums(c, st.data, context_terms(c, x as i32, y as i32)))
        } else {
            st.context
        };
        let sum_sq = wrap32(ctx.0 * ctx.0);
        match choice_decode(code_choice(sum_sq, ctx.1, is_chroma), bits, st.pos) {
            None => None,
            Some((v, n)) => {
                let (ctx2, rc2) = if scheme == Encoder::Fast {
                    let ctx2 = fast_context(ctx, v);
                    (ctx2, run_coder_fast_spec(ctx2, v, st.run_coder))
                } else {
                    (ctx, run_coder_spec(ctx, v, q, st.run_coder, sum_sq))
                };
                Some(
                    dec_place(
                        DecState { context: ctx2, run_coder: rc2, pos: st.pos + n, ..st },
                        c,
                        v as int,
                        run0,
                        x,
                        y,
                    ),
                )
            },
        }
    }
}

/// What the decoder does at relative column `x`, row `y`: when runs are
/// coded and none is pending, it first reads the length of the next run.
#[verifier::opaque]
pub open spec fn dec_step(
    c: ImageChunkMut,
    bits: Seq<bool>,
    scheme: Encoder,
    q: i32,
    is_chroma: bool,
    st: DecState,
    x: int,
    y: int,
) -> Option<DecState> {
    if st.run_coder != 0 && st.run == -1 {
        match unsigned_decode_spec(bits, st.pos, st.run_coder as nat) {
            None => None,
            Some((v, n)) => dec_after_run(
                c,
                bits,
                scheme,
                q,
                is_chroma,
                DecState { pos: st.pos + n, ..st },
                (v as i32) as int,
                x,
                y,
            ),
        }
    } else {
        dec_after_run(c, bits, scheme, q, is_chroma, st, st.run, x, y)
    }
}

/// The decoder over relative row `y` from column `x` on.
pub open spec fn dec_row(
    c: ImageChunkMut,
    bits: Seq<bool>,
    scheme: Encoder,
    q: i32,
    is_chroma: bool,
    st: Option<DecState>,
    x: int,
    y: int,
) -> Option<DecState>
    decreases (if x < size_x(c) { size_x(c) - x } else { 0 }),
{
    match st {
        None => None,
        Some(s) => if x < 0 || x >= size_x(c) || c.step == 0 {
            st
        } else {
            dec_row(
                c,
                bits,
                scheme,
                q,
                is_chroma,
                dec_step(c, bits, scheme, q, is_chroma, s, x, y),
                x + row_step(c, y),
                y,
            )
        },
    }
}

/// The decoder over the rows from relative row `y` on.
pub open spec fn dec_rows(
    c: ImageChunkMut,
    bits: Seq<bool>,
    scheme: Encoder,
    q: i32,
    is_chroma: bool,
    st: Option<DecState>,
    y: int,
) -> Option<DecState>
    decreases (if y < size_y(c) { size_y(c) - y } else { 0 }),
{
    if y < 0 || y >= size_y(c) || c.step == 0 {
        st
    } else {
        dec_rows(
            c,
            bits,
            scheme,
            q,
            is_chroma,
            dec_row(c, bits, scheme, q, is_chroma, st, row_step(c, y) - c.step, y),
            y + c.step,
        )
    }
}

/// Decoding a chunk from position `pos` of `bits` into `data`: the final
/// state, or `None` when the bits run out.
pub open spec fn decode_spec(
    c: ImageChunkMut,
    bits: Seq<bool>,
    pos: int,
    data: Seq<i16>,
    scheme: Encoder,
    q: i32,
    has_dc: bool,
    is_chroma: bool,
) -> Option<DecState> {
    let st0 = DecState {
        context: (0, 0),
        run: -1,
        run_coder: initial_run_coder(scheme, q, c.step as int),
        pos,
        data,
    };
    let start = if has_dc && size_x(c) > 0 && size_y(c) > 0 {
        match signed_decode_spec(bits, pos, 4) {
            None => None,
            Some((v, n)) => Some(
                DecState { pos: pos + n, data: data.update(sample_index(c, 0, 0), wrap16(v as int)), ..st0 },
            ),
        }
    } else {
        Some(st0)
    };
    dec_rows(c, bits, scheme, q, is_chroma, start, 0)
}

/// `v` reduced to 16 bits.
fn wrap_wide(v: i64) -> (r: i16)
    requires
        -0x1_0000_0000 <= v < 0x1_0000_0000,
    ensures
        r == wrap16(v as int),
{
    let shifted = (v + 0x1_0000_0000i64) as u64;
    let m = (shifted % 65536) as i32;
    proof {
        assert((shifted as int) % 65536 == (v as int) % 65536) by {
            assert(shifted as int == v as int + 65536 * 65536);
            vstd::arithmetic::div_mod::lemma_fundamental_div_mod(v as int, 65536);
            vstd::arithmetic::div_mod::lemma_fundamental_div_mod_converse(
                shifted as int,
                65536,
                (v as int) / 65536 + 65536,
                (v as int) % 65536,
            );
        }
    }
    crate::lifting::wrap_i16(m)
}

/// Stores a decoded coefficient.
fn place<R: BitsReader>(
    image: &ImageChunkMut,
    data: &mut [i16],
    s: i32,
    run0: i32,
    x: i32,
    y: i32,
    run: &mut i32,
)
    requires
        block_chunk_ok(*image),
        old(data)@.len() == image.data_len,
        0 <= x < size_x(*image),
        0 <= y < size_y(*image),
    ensures
        final(data)@ == old(data)@.update(
            sample_index(*image, x as int, y as int),
            wrap16(if run0 == 0 && s <= 0 { s - 1 } else { s as int }),
        ),
        final(data)@.len() == old(data)@.len(),
        *final(run) == -1,
{
    proof {
        lemma_owned_readable(*image, image.y_range.0 + y, image.x_range.0 + x);
    }
    let s1: i64 = if run0 == 0 && s <= 0 {
        s as i64 - 1
    } else {
        s as i64
    };
    let v = wrap_wide(s1);
    let i = image.channel_start + (image.y_range.0 + y as usize) * image.image_width + (
    image.x_range.0 + x as usize);
    data[i] = v;
    *run = -1;
}

/// Decodes the coefficient at relative column `x`, row `y` once the run that
/// covers it is known, with the context-chosen codes.
fn decode_coded<R: BitsReader>(
    image: &ImageChunkMut,
    data: &mut [i16],
    stream: &mut R,
    scheme: Encoder,
    q: i32,
    is_chroma: bool,
    x: i32,
    y: i32,
    run0: i32,
    context: &mut (u32, u32),
    run: &mut i32,
    run_coder: &mut i32,
    Ghost(st): Ghost<DecState>,
) -> (r: Result<(), std::io::Error>)
    requires
        block_chunk_ok(*image),
        old(data)@.len() == image.data_len,
        old(stream).reader_wf(),
        st.context == *old(context),
        st.run_coder == *old(run_coder),
        st.pos == old(stream).position(),
        st.data == old(data)@,
        0 <= *old(run_coder) <= 4,
        0 <= x < size_x(*image),
        0 <= y < size_y(*image),
        run0 <= 0,
        scheme != Encoder::Turbo,
    ensures
        final(data)@.len() == old(data)@.len(),
        match dec_after_run(*image, old(stream).data(), scheme, q, is_chroma, st, run0 as int, x as int, y as int) {
            None => r is Err,
            Some(n) => {
                &&& r is Ok
                &&& final(stream).reader_wf()
                &&& final(stream).data() == old(stream).data()
                &&& final(stream).position() == n.pos
                &&& final(data)@ == n.data
                &&& n.context == *final(context)
                &&& n.run == *final(run)
                &&& n.run_coder == *final(run_coder)
                &&& 0 <= *final(run_coder) <= 4
            },
        },
{
    if scheme == Encoder::Contextual {
        proof {
            lemma_context_readable(*image, x as int, y as int);
        }
        *context = get_context(image, data, x, y);
    }
    let sum_sq = square(context.0);
    let ghost ctx = *context;
    let ghost ch = choice_decode(code_choice(sum_sq, ctx.1, is_chroma), old(stream).data(), st.pos);
    assert(ctx == (if scheme == Encoder::Contextual {
        context_of(context_sums(*image, st.data, context_terms(*image, x as i32, y as i32)))
    } else {
        st.context
    }));
    let s = match get_s(stream, sum_sq, *context, is_chroma) {
        Ok(v) => v,
        Err(e) => {
            assert(ch is None);
            return Err(e);
        },
    };
    assert(ch == Some((s, (stream.position() - st.pos) as nat)));
    if scheme == Encoder::Fast {
        let t: u32 = if s < 0 {
            (-(s as i64)) as u32
        } else {
            s as u32
        };
        let tc: u32 = if t < 4096 {
            t
        } else {
            4096
        };
        assert(tc * tc <= 4096 * 4096) by (nonlinear_arith)
            requires
                tc <= 4096,
        ;
        let sq = square(tc);
        *context = (decay(context.0, t), decay(context.1, sq));
        *run_coder = get_run_coder_fast(*context, s, *run_coder);
    } else {
        *run_coder = get_run_coder(*context, s, q, *run_coder, sum_sq);
    }
    place::<R>(image, data, s, run0, x, y, run);
    Ok(())
}

/// Decodes the coefficient at relative column `x`, row `y`.
fn decode_one<R: BitsReader>(
    image: &ImageChunkMut,
    data: &mut [i16],
    stream: &mut R,
    scheme: Encoder,
    q: i32,
    is_chroma: bool,
    x: i32,
    y: i32,
    context: &mut (u32, u32),
    run: &mut i32,
    run_coder: &mut i32,
    Ghost(st): Ghost<DecState>,
) -> (r: Result<(), std::io::Error>)
    requires
        block_chunk_ok(*image),
        old(data)@.len() == image.data_len,
        old(stream).reader_wf(),
        st.context == *old(context),
        st.run == *old(run),
        st.run_coder == *old(run_coder),
        st.pos == old(stream).position(),
        st.data == old(data)@,
        0 <= *old(run_coder) <= 4,
        0 <= x < size_x(*image),
        0 <= y < size_y(*image),
    ensures
        final(data)@.len() == old(data)@.len(),
        match dec_step(*image, old(stream).data(), scheme, q, is_chroma, st, x as int, y as int) {
            None => r is Err,
            Some(n) => {
                &&& r is Ok
                &&& final(stream).reader_wf()
                &&& final(stream).data() == old(stream).data()
                &&& final(stream).position() == n.pos
                &&& final(data)@ == n.data
                &&& n.context == *final(context)
                &&& n.run == *final(run)
                &&& n.run_coder == *final(run_coder)
                &&& 0 <= *final(run_coder) <= 4
            },
        },
{
    reveal(dec_step);
    let ghost bits = stream.data();
    let ghost mut st1 = st;
    let mut run0 = *run;
    if *run_coder != 0 && *run == -1 {
        match unsigned_decode(stream, *run_coder) {
            Ok(v) => {
                run0 = v as i32;
                proof {
                    st1 = DecState { pos: stream.position(), ..st };
                }
            },
            Err(e) => {
                return Err(e);
            },
        }
    }
    let ghost st2 = st1;
    if run0 > 0 {
        proof {
            lemma_owned_readable(*image, image.y_range.0 + y, image.x_range.0 + x);
        }
        let i = image.channel_start + (image.y_range.0 + y as usize) * image.image_width + (
        image.x_range.0 + x as usize);
        data[i] = 0;
        *run = run0 - 1;
        Ok(())
    } else if scheme == Encoder::Turbo {
        let s = match interleaved_decode(stream, 1) {
            Ok(v) => v,
            Err(e) => {
                return Err(e);
            },
        };
        place::<R>(image, data, s, run0, x, y, run);
        Ok(())
    } else {
        decode_coded(image, data, stream, scheme, q, is_chroma, x, y, run0, context, run, run_coder, Ghost(st2))
    }
}

proof fn lemma_dec_rows_none(
    c: ImageChunkMut,
    bits: Seq<bool>,
    scheme: Encoder,
    q: i32,
    is_chroma: bool,
    y: int,
)
    ensures
        dec_rows(c, bits, scheme, q, is_chroma, None, y) is None,
    decreases (if y < size_y(c) { size_y(c) - y } else { 0 }),
{
    if !(y < 0 || y >= size_y(c) || c.step == 0) {
        lemma_dec_rows_none(c, bits, scheme, q, is_chroma, y + c.step);
    }
}

/// Reads the coefficients of the chunk for the chunk's step into `data`,
/// as `encode` writes them; fails when the bits run out.
pub fn decode<R: BitsReader>(
    image: &ImageChunkMut,
    data: &mut [i16],
    stream: &mut R,
    scheme: Encoder,
    q: i32,
    has_dc: bool,
    is_chroma: bool,
) -> (r: Result<(), std::io::Error>)
    requires
        block_chunk_ok(*image),
        old(data)@.len() == image.data_len,
        old(stream).reader_wf(),
        start_fits(scheme, q, image.step as int),
    ensures
        final(data)@.len() == old(data)@.len(),
        match decode_spec(
            *image,
            old(stream).data(),
            old(stream).position(),
            old(data)@,
            scheme,
            q,
            has_dc,
            is_chroma,
        ) {
            None => r is Err,
            Some(n) => {
                &&& r is Ok
                &&& final(stream).reader_wf()
                &&& final(stream).data() == old(stream).data()
                &&& final(stream).position() == n.pos
                &&& final(data)@ == n.data
            },
        },
{
    let ghost c = *image;
    let ghost bits = stream.data();
    let ghost pos0 = stream.position();
    let ghost data0 = data@;
    proof {
        lemma_step_bound(*image);
    }
    let step = image.step as i32;
    let sizex = (image.x_range.1 - image.x_range.0) as i32;
    let sizey = (image.y_range.1 - image.y_range.0) as i32;
    let run_coder_start = initial_run_coder_exec(scheme, q, step);
    let ghost st0 = DecState {
        context: (0, 0),
        run: -1,
        run_coder: run_coder_start,
        pos: pos0,
        data: data0,
    };
    if has_dc && sizex > 0 && sizey > 0 {
        let v = match signed_decode(stream, 4) {
            Ok(v) => v,
            Err(e) => {
                proof {
                    lemma_dec_rows_none(c, bits, scheme, q, is_chroma, 0);
                }
                return Err(e);
            },
        };
        proof {
            lemma_owned_readable(c, image.y_range.0 as int, image.x_range.0 as int);
        }
        let i = image.channel_start + image.y_range.0 * image.image_width + image.x_range.0;
        data[i] = wrap_wide(v as i64);
    }
    let mut context: (u32, u32) = (0, 0);
    let mut run: i32 = -1;
    let mut run_coder: i32 = run_coder_start;
    let ghost start = DecState { context, run: -1, run_coder, pos: stream.position(), data: data@ };
    proof {
        let sp = if has_dc && size_x(c) > 0 && size_y(c) > 0 {
            match signed_decode_spec(bits, pos0, 4) {
                None => None,
                Some((v, n)) => Some(
                    DecState { pos: pos0 + n, data: data0.update(sample_index(c, 0, 0), wrap16(v as int)), ..st0 },
                ),
            }
        } else {
            Some(st0)
        };
        assert(sp == Some(start));
    }
    let ghost mut st = start;
    let mut y: i32 = 0;
    while y < sizey
        invariant
            c == *image,
            block_chunk_ok(c),
            data@.len() == c.data_len,
            step == c.step,
            step <= 0x2000_0000,
            sizex == size_x(c),
            sizey == size_y(c),
            stream.reader_wf(),
            stream.data() == bits,
            st.pos == stream.position(),
            st.data == data@,
            st.context == context,
            st.run == run,
            st.run_coder == run_coder,
            0 <= run_coder <= 4,
            data0.len() == c.data_len,
            data0 == old(data)@,
            bits == old(stream).data(),
            pos0 == old(stream).position(),
            0 <= y < sizey + step,
            dec_rows(c, bits, scheme, q, is_chroma, Some(st), y as int) == decode_spec(c, bits, pos0, data0, scheme, q, has_dc, is_chroma),
        decreases sizey + step - y,
    {
        let x_step = if (y & step) != 0 {
            step
        } else {
            step * 2
        };
        let ghost st_row = st;
        let mut x: i32 = x_step - step;
        while x < sizex
            invariant
                c == *image,
                block_chunk_ok(c),
                data@.len() == c.data_len,
                step == c.step,
                step <= 0x2000_0000,
                sizex == size_x(c),
                sizey == size_y(c),
                0 <= y < sizey,
                x_step == row_step(c, y as int),
                stream.reader_wf(),
                stream.data() == bits,
                st.pos == stream.position(),
                st.data == data@,
                st.context == context,
                st.run == run,
                st.run_coder == run_coder,
                0 <= run_coder <= 4,
                data0.len() == c.data_len,
                data0 == old(data)@,
                bits == old(stream).data(),
                pos0 == old(stream).position(),
                dec_rows(c, bits, scheme, q, is_chroma, Some(st_row), y as int) == decode_spec(c, bits, pos0, data0, scheme, q, has_dc, is_chroma),
                0 <= x <= sizex + 2 * step,
                dec_row(c, bits, scheme, q, is_chroma, Some(st), x as int, y as int) == dec_row(c, bits, scheme, q, is_chroma, Some(st_row), x_step - step, y as int),
            decreases sizex + 2 * step - x,
        {
            let ghost next = dec_step(c, bits, scheme, q, is_chroma, st, x as int, y as int);
            match decode_one(image, data, stream, scheme, q, is_chroma, x, y, &mut context, &mut run, &mut run_coder, Ghost(st)) {
                Ok(()) => {},
                Err(e) => {
                    proof {
                        assert(next is None);
                        assert(dec_row(c, bits, scheme, q, is_chroma, None, x + x_step, y as int) is None);
                        assert(dec_row(c, bits, scheme, q, is_chroma, Some(st_row), x_step - step, y as int) is None);
                        lemma_dec_rows_none(c, bits, scheme, q, is_chroma, y + step);
                    }
                    return Err(e);
                },
            }
            proof {
                st = next->Some_0;
            }
            x = x + x_step;
        }
        y = y + step;
    }
    Ok(())
}

} // verus!
