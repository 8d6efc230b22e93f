//! The coded stream of an image: for each wavelet step, from the coarsest
//! down to 1, a table of the sizes of the level's blocks (in 32-bit words,
//! each as four little-endian bytes) followed by the blocks, each block the
//! coded coefficients of one chunk of one channel padded to whole words.
use vstd::prelude::*;
use vstd::arithmetic::power2::pow2;

use crate::bits::{lemma_padded_words, padded_words, stream_bits, BitsIOReader, BitsIOWriter, BitsReader, BitsWriter};
use crate::byte_order::{le_bytes, le_read_u32, le_u32_bytes, le_value, lemma_le_bytes_len};
use crate::encode::block::{decode, decode_spec, encode, encode_bits};
use crate::errors::{write_zero_error, CompressError, DecompressError};
use crate::header::{chroma_quality_of, downsampled, lemma_downsampled_le, Header};
use crate::processing::image::{min_int, Image};

use super::layout::{
    block_count, chunk_position, chunks_along, lemma_chunks_cover, lemma_first_position,
    lemma_chunk_area_mono, lemma_level_chunk_ok, lemma_next_position, lemma_position_channel,
    lemma_pow2_room, level_chunk, top_step, top_step_from,
};
use super::plane_quality;

verus! {

/// Why the coding of the levels stops.
pub enum CompressFailure {
    /// The buffer has no room for a table of block sizes, or for a byte per block.
    BufferTooSmall,
    /// A block does not fit in its share of the buffer.
    BlockTooLarge,
}

/// The number of channels of an image: its channels in all its layers.
pub open spec fn channel_count(h: Header) -> int {
    h.layers * h.channels
}

/// The side of the chunks of the level of wavelet step `step`.
pub open spec fn block_side(h: Header, step: int) -> int {
    step * pow2(h.block_size as nat)
}

/// The most samples a chunk of the image can hold: a block of the coarsest
/// level, cut to the image.
pub open spec fn largest_chunk(h: Header) -> int {
    let b = block_side(h, top_step(h.width as int, h.height as int));
    min_int(h.width as int, b) * min_int(h.height as int, b)
}

/// The headers whose images the block coders can code: non-empty images of
/// fewer than `2^30` samples on a side, whose chunks hold fewer than `2^31`
/// samples.
pub open spec fn image_codable(h: Header) -> bool {
    &&& 1 <= h.width <= 0x3fff_ffff
    &&& 1 <= h.height <= 0x3fff_ffff
    &&& largest_chunk(h) < 0x8000_0000
    &&& h.layers >= 1
    &&& h.channels >= 1
    &&& h.chroma_scale >= 1
    &&& h.block_size < usize::BITS
}

/// The chunk that block `k` of the level of step `step` codes.
pub open spec fn block_chunk(h: Header, data_len: int, step: int, k: int) -> crate::processing::image::ImageChunkMut {
    level_chunk(h.width as int, h.height as int, block_side(h, step), step, data_len, k)
}

/// The bits of block `k` of the level of step `step`: its chunk coded with
/// the quality of its channel, with the DC coefficient at the first level in
/// the first chunk of each channel.
pub open spec fn block_bits(
    aux: Seq<i16>,
    h: Header,
    is_chroma: Seq<bool>,
    step: int,
    has_dc: bool,
    k: int,
) -> Seq<bool> {
    let c = block_chunk(h, aux.len() as int, step, k);
    let chroma = is_chroma[c.channel as int];
    encode_bits(
        c,
        aux,
        h.encoder,
        plane_quality(h, chroma),
        has_dc && c.x_range.0 == 0 && c.y_range.0 == 0,
        chroma,
    )
}

/// The bytes of block `k`: its bits padded to whole words.
pub open spec fn block_bytes(
    aux: Seq<i16>,
    h: Header,
    is_chroma: Seq<bool>,
    step: int,
    has_dc: bool,
    k: int,
) -> Seq<u8> {
    padded_words(block_bits(aux, h, is_chroma, step, has_dc, k))
}

/// The size table of the first `k` blocks: the number of words of each.
pub open spec fn size_table(
    aux: Seq<i16>,
    h: Header,
    is_chroma: Seq<bool>,
    step: int,
    has_dc: bool,
    k: int,
) -> Seq<u8>
    decreases k,
{
    if k <= 0 {
        Seq::empty()
    } else {
        size_table(aux, h, is_chroma, step, has_dc, k - 1) + le_bytes(
            (block_bytes(aux, h, is_chroma, step, has_dc, k - 1).len() / 4) as nat,
            4,
        )
    }
}

/// The first `k` blocks, one after the other.
pub open spec fn blocks_upto(
    aux: Seq<i16>,
    h: Header,
    is_chroma: Seq<bool>,
    step: int,
    has_dc: bool,
    k: int,
) -> Seq<u8>
    decreases k,
{
    if k <= 0 {
        Seq::empty()
    } else {
        blocks_upto(aux, h, is_chroma, step, has_dc, k - 1) + block_bytes(
            aux,
            h,
            is_chroma,
            step,
            has_dc,
            k - 1,
        )
    }
}

/// The level of step `step` coded into `room` bytes of buffer.  After the
/// size table, the room left is shared equally between the blocks; a block
/// that does not fit in its share (or in 32 bits of size) stops the coding.
#[verifier::opaque]
pub open spec fn compress_level(
    aux: Seq<i16>,
    h: Header,
    is_chroma: Seq<bool>,
    step: int,
    has_dc: bool,
    room: int,
) -> Result<Seq<u8>, CompressFailure> {
    let bc = block_count(h.width as int, h.height as int, channel_count(h), block_side(h, step));
    let table = 4 * bc;
    if room < table {
        Err(CompressFailure::BufferTooSmall)
    } else {
        let share = (room - table) / bc;
        if share == 0 {
            Err(CompressFailure::BufferTooSmall)
        } else if exists|k: int|
            0 <= k < bc && #[trigger] block_bytes(aux, h, is_chroma, step, has_dc, k).len() > min_int(
                share,
                u32::MAX as int,
            ) {
            Err(CompressFailure::BlockTooLarge)
        } else {
            Ok(
                size_table(aux, h, is_chroma, step, has_dc, bc) + blocks_upto(
                    aux,
                    h,
                    is_chroma,
                    step,
                    has_dc,
                    bc,
                ),
            )
        }
    }
}

/// The levels from step `step` down to 1 coded into `room` bytes.
pub open spec fn compress_levels(
    aux: Seq<i16>,
    h: Header,
    is_chroma: Seq<bool>,
    step: int,
    has_dc: bool,
    room: int,
) -> Result<Seq<u8>, CompressFailure>
    decreases step,
{
    if step < 1 {
        Ok(Seq::empty())
    } else {
        match compress_level(aux, h, is_chroma, step, has_dc, room) {
            Err(e) => Err(e),
            Ok(b) => match compress_levels(aux, h, is_chroma, step / 2, false, room - b.len()) {
                Err(e) => Err(e),
                Ok(rest) => Ok(b + rest),
            },
        }
    }
}

/// The bytes of the levels from step `step` down that code before the first
/// level that fails (all of them, where none fails).
pub open spec fn levels_coded(
    aux: Seq<i16>,
    h: Header,
    is_chroma: Seq<bool>,
    step: int,
    has_dc: bool,
    room: int,
) -> Seq<u8>
    decreases step,
{
    if step < 1 {
        Seq::empty()
    } else {
        match compress_level(aux, h, is_chroma, step, has_dc, room) {
            Err(_) => Seq::empty(),
            Ok(b) => b + levels_coded(aux, h, is_chroma, step / 2, false, room - b.len()),
        }
    }
}

/// `done` followed by what `rest` gives, if it gives bytes.
pub open spec fn after(done: Seq<u8>, rest: Result<Seq<u8>, CompressFailure>) -> Result<Seq<u8>, CompressFailure> {
    match rest {
        Ok(b) => Ok(done + b),
        Err(e) => Err(e),
    }
}

/// The size table and the blocks take their lengths.
proof fn lemma_level_lengths(aux: Seq<i16>, h: Header, is_chroma: Seq<bool>, step: int, has_dc: bool, k: int)
    requires
        k >= 0,
    ensures
        size_table(aux, h, is_chroma, step, has_dc, k).len() == 4 * k,
    decreases k,
{
    if k > 0 {
        lemma_level_lengths(aux, h, is_chroma, step, has_dc, k - 1);
        lemma_le_bytes_len((block_bytes(aux, h, is_chroma, step, has_dc, k - 1).len() / 4) as nat, 4);
    }
}

/// Writes `bytes` into `buffer` from `at`.
fn put_bytes(buffer: &mut [u8], at: usize, bytes: &[u8])
    requires
        at + bytes.len() <= old(buffer).len(),
    ensures
        final(buffer)@ == old(buffer)@.subrange(0, at as int) + bytes@ + old(buffer)@.subrange(
            at + bytes@.len(),
            old(buffer)@.len() as int,
        ),
{
    let mut i: usize = 0;
    while i < bytes.len()
        invariant
            i <= bytes@.len(),
            at + bytes.len() <= old(buffer).len(),
            buffer.len() == old(buffer).len(),
            buffer@ == old(buffer)@.subrange(0, at as int) + bytes@.subrange(0, i as int) + old(
                buffer,
            )@.subrange(at + i, old(buffer)@.len() as int),
        decreases bytes@.len() - i,
    {
        buffer[at + i] = bytes[i];
        i = i + 1;
        assert(buffer@ =~= old(buffer)@.subrange(0, at as int) + bytes@.subrange(0, i as int) + old(
            buffer,
        )@.subrange(at + i, old(buffer)@.len() as int));
    }
    assert(bytes@.subrange(0, bytes@.len() as int) =~= bytes@);
}

/// The coarsest wavelet step of the image and its exponent.
fn find_top_step(width: u32, height: u32) -> (r: (usize, Ghost<nat>))
    requires
        1 <= width <= 0x3fff_ffff,
        1 <= height <= 0x3fff_ffff,
    ensures
        r.0 == top_step(width as int, height as int),
        r.0 == pow2(r.1@),
        r.1@ < 30,
{
    let mut step: usize = 1;
    let ghost mut e: nat = 0;
    proof {
        vstd::arithmetic::power2::lemma2_to64();
    }
    while (step as u64) * 2 < width as u64 || (step as u64) * 2 < height as u64
        invariant
            1 <= width <= 0x3fff_ffff,
            1 <= height <= 0x3fff_ffff,
            step == pow2(e),
            e < 30,
            1 <= step,
            step <= 0x2000_0000,
            top_step_from(step as int, width as int, height as int) == top_step(width as int, height as int),
        decreases 0x4000_0000 - step,
    {
        proof {
            vstd::arithmetic::power2::lemma_pow2_adds(e, 1);
            vstd::arithmetic::power2::lemma2_to64();
            if e + 1 >= 30 {
                vstd::arithmetic::power2::lemma_pow2_strictly_increases(30, (e + 1) as nat);
                assert(false);
            }
        }
        step = step * 2;
        proof {
            e = e + 1;
        }
    }
    (step, Ghost(e))
}

/// The chroma quality is at least 1 and at most the quality (or 1).
pub proof fn lemma_chroma_quality_bound(h: Header)
    requires
        h.chroma_scale >= 1,
    ensures
        1 <= chroma_quality_of(h) <= 0xffff,
{
    let s = h.chroma_scale as int;
    let q = h.quality as int;
    let x = q + s / 2;
    vstd::arithmetic::div_mod::lemma_fundamental_div_mod(x, s);
    let d = x / s;
    let m = x % s;
    assert(s / 2 <= s - 1);
    if d > q && q >= 1 {
        assert(s * d >= s * q + s) by (nonlinear_arith)
            requires
                d >= q + 1,
                s >= 1,
        ;
        assert(s * q >= q) by (nonlinear_arith)
            requires
                q >= 1,
                s >= 1,
        ;
    }
    if q == 0 && d >= 1 {
        assert(s * d >= s) by (nonlinear_arith)
            requires
                d >= 1,
                s >= 1,
        ;
    }
}

/// `ceil(len / bs)`, computed without overflow.
fn chunks_along_exec(len: usize, bs: usize) -> (r: usize)
    requires
        len >= 1,
        bs >= 1,
    ensures
        r == chunks_along(len as int, bs as int),
        1 <= r <= len,
{
    let q = (len - 1) / bs;
    proof {
        vstd::arithmetic::div_mod::lemma_fundamental_div_mod((len - 1) as int, bs as int);
        let r0 = (len - 1) as int % (bs as int);
        assert(len + bs - 1 == bs * (q + 1) + r0) by (nonlinear_arith)
            requires
                len - 1 == bs * q + r0,
        ;
        vstd::arithmetic::div_mod::lemma_fundamental_div_mod_converse(len + bs - 1, bs as int, q + 1, r0);
        lemma_chunks_cover(len as int, bs as int, 0);
    }
    q + 1
}

/// Codes block `k` of the level of step `step`, whose chunk is `chunk`.
fn code_block(
    aux: &[i16],
    header: &Header,
    is_chroma: &[bool],
    chunk: &crate::processing::image::ImageChunkMut,
    Ghost(step): Ghost<int>,
    Ghost(k): Ghost<int>,
    has_dc: bool,
    chroma_quality: i32,
) -> (bytes: Vec<u8>)
    requires
        *chunk == block_chunk(*header, aux@.len() as int, step, k),
        crate::encode::block::block_chunk_ok(*chunk),
        chunk.data_len == aux@.len(),
        chunk.channel < is_chroma@.len(),
        chroma_quality == chroma_quality_of(*header),
        1 <= chroma_quality <= 0xffff,
    ensures
        bytes@ == block_bytes(aux@, *header, is_chroma@, step, has_dc, k),
        bytes@.len() % 4 == 0,
{
    let chroma = is_chroma[chunk.channel];
    let quality = if chroma {
        chroma_quality
    } else {
        header.quality as i32
    };
    let first = has_dc && chunk.x_range.0 == 0 && chunk.y_range.0 == 0;
    let mut writer = BitsIOWriter::new();
    proof {
        if chunk.step < 2048 {
            assert(0 <= quality * chunk.step <= 0xffff * 2048) by (nonlinear_arith)
                requires
                    0 <= quality <= 0xffff,
                    1 <= chunk.step < 2048,
            ;
        }
    }
    let _ = encode(chunk, aux, &mut writer, header.encoder, quality, first, chroma);
    let _ = writer.flush_write_word();
    proof {
        writer.lemma_bytes_hold_words();
    }
    let bytes = writer.into_bytes();
    proof {
        lemma_padded_words(bytes@, block_bits(aux@, *header, is_chroma@, step, has_dc, k));
    }
    bytes
}

/// Stores the size of a block in the size table and the block after the
/// blocks before it.
fn store_block(
    buffer: &mut [u8],
    entry_at: usize,
    tail: usize,
    bytes: &Vec<u8>,
    Ghost(table_start): Ghost<int>,
    Ghost(blocks_start): Ghost<int>,
)
    requires
        0 <= table_start <= entry_at,
        entry_at + 4 <= blocks_start <= tail,
        tail + bytes@.len() <= old(buffer)@.len(),
        bytes@.len() <= u32::MAX,
    ensures
        final(buffer)@.len() == old(buffer)@.len(),
        final(buffer)@.subrange(0, entry_at as int) == old(buffer)@.subrange(0, entry_at as int),
        final(buffer)@.subrange(table_start, entry_at + 4) == old(buffer)@.subrange(table_start, entry_at as int)
            + le_bytes((bytes@.len() / 4) as nat, 4),
        final(buffer)@.subrange(blocks_start, tail + bytes@.len()) == old(buffer)@.subrange(blocks_start, tail as int)
            + bytes@,
        final(buffer)@.subrange(tail + bytes@.len(), old(buffer)@.len() as int) == old(buffer)@.subrange(
            tail + bytes@.len(),
            old(buffer)@.len() as int,
        ),
{
    let entry = le_u32_bytes((bytes.len() / 4) as u32);
    proof {
        lemma_le_bytes_len((bytes@.len() / 4) as nat, 4);
    }
    let ghost b0 = buffer@;
    put_bytes(buffer, entry_at, &entry);
    let ghost b1 = buffer@;
    put_bytes(buffer, tail, bytes.as_slice());
    assert(buffer@.subrange(0, entry_at as int) =~= b0.subrange(0, entry_at as int));
    assert(buffer@.subrange(table_start, entry_at + 4) =~= b0.subrange(table_start, entry_at as int) + entry@);
    assert(buffer@.subrange(blocks_start, tail + bytes@.len()) =~= b0.subrange(blocks_start, tail as int) + bytes@);
    assert(buffer@.subrange(tail + bytes@.len(), b0.len() as int) =~= b0.subrange(tail + bytes@.len(), b0.len() as int));
}

/// Codes the level of step `step` into `buffer` from `start`: the size table,
/// then the blocks.  Returns where the level ends.
fn compress_level_exec(
    aux: &[i16],
    header: &Header,
    is_chroma: &[bool],
    buffer: &mut [u8],
    start: usize,
    step: usize,
    Ghost(e): Ghost<nat>,
    has_dc: bool,
) -> (r: Result<usize, CompressError>)
    requires
        image_codable(*header),
        channel_count(*header) * (header.width * header.height) <= aux@.len(),
        is_chroma@.len() >= channel_count(*header),
        step == pow2(e),
        e < 30,
        step <= top_step(header.width as int, header.height as int),
        block_side(*header, step as int) <= usize::MAX,
        start <= old(buffer)@.len(),
    ensures
        final(buffer)@.len() == old(buffer)@.len(),
        final(buffer)@.subrange(0, start as int) == old(buffer)@.subrange(0, start as int),
        match compress_level(aux@, *header, is_chroma@, step as int, has_dc, old(buffer)@.len() - start) {
            Ok(b) => r matches Ok(end) && end == start + b.len() && end <= final(buffer)@.len()
                && final(buffer)@.subrange(start as int, end as int) == b
                && final(buffer)@.subrange(end as int, old(buffer)@.len() as int) == old(buffer)@.subrange(
                end as int,
                old(buffer)@.len() as int,
            ),
            Err(CompressFailure::BufferTooSmall) => r matches Err(CompressError::Overflow) && final(buffer)@
                == old(buffer)@,
            Err(CompressFailure::BlockTooLarge) => r matches Err(CompressError::IOErr(_)),
        },
{
    let ghost hd = *header;
    let ghost a = aux@;
    let ghost ic = is_chroma@;
    let ghost b0 = buffer@;
    reveal(compress_level);
    let w = header.width as usize;
    let hgt = header.height as usize;
    let alen = aux.len();
    proof {
        assert(header.layers * header.channels <= 0xffff * 0xffff) by (nonlinear_arith)
            requires
                header.layers <= 0xffff,
                header.channels <= 0xffff,
        ;
    }
    let n = header.layers as usize * header.channels as usize;
    let chroma_quality = header.get_chroma_quality();
    proof {
        lemma_chroma_quality_bound(hd);
        vstd::arithmetic::power2::lemma_pow2_pos(header.block_size as nat);
        vstd::bits::lemma_usize_pow2_no_overflow(header.block_size as nat);
        vstd::bits::lemma_usize_shl_is_mul(1, header.block_size as usize);
        vstd::arithmetic::power2::lemma_pow2_pos(e);
        assert(step * pow2(header.block_size as nat) >= 1) by (nonlinear_arith)
            requires
                step >= 1,
                pow2(header.block_size as nat) >= 1,
        ;
        vstd::arithmetic::power2::lemma_pow2_adds(e, header.block_size as nat);
        lemma_pow2_room(e + header.block_size as nat);
        assert(n == channel_count(hd));
        assert(n >= 1) by (nonlinear_arith)
            requires
                n == header.layers * header.channels,
                header.layers >= 1,
                header.channels >= 1,
        ;
        assert(w * hgt >= 1) by (nonlinear_arith)
            requires
                w >= 1,
                hgt >= 1,
        ;
        assert(n <= n * (w * hgt)) by (nonlinear_arith)
            requires
                n >= 1,
                w * hgt >= 1,
        ;
        assert(n * w * hgt == n * (w * hgt)) by (nonlinear_arith);
        assert(a.len() == alen);
    }
    let scale: usize = 1usize << (header.block_size as usize);
    let bs = step * scale;
    proof {
        let top = top_step(hd.width as int, hd.height as int);
        assert(bs <= top * pow2(header.block_size as nat)) by (nonlinear_arith)
            requires
                bs == step * pow2(header.block_size as nat),
                step <= top,
                pow2(header.block_size as nat) >= 1,
        ;
        lemma_chunk_area_mono(w as int, hgt as int, bs as int, w as int, hgt as int, block_side(hd, top));
    }
    let bx = chunks_along_exec(w, bs);
    let by = chunks_along_exec(hgt, bs);
    proof {
        assert(bx * by <= w * hgt) by (nonlinear_arith)
            requires
                1 <= bx <= w,
                1 <= by <= hgt,
        ;
        assert(bx * by * n <= n * (w * hgt)) by (nonlinear_arith)
            requires
                bx * by <= w * hgt,
                n >= 1,
        ;
        assert(bx * by * n >= 1) by (nonlinear_arith)
            requires
                bx >= 1,
                by >= 1,
                n >= 1,
        ;
        assert(n * (w * hgt) <= alen);
        assert(bx * by <= bx * by * n) by (nonlinear_arith)
            requires
                bx * by >= 0,
                n >= 1,
        ;
    }
    let bc = bx * by * n;
    proof {
        assert(bs == block_side(hd, step as int));
        assert(bc == block_count(w as int, hgt as int, n as int, bs as int));
        assert(bc == block_count(hd.width as int, hd.height as int, channel_count(hd), block_side(hd, step as int)));
    }
    let blen = buffer.len();
    let table = match bc.checked_mul(4) {
        None => {
            assert(compress_level(a, hd, ic, step as int, has_dc, b0.len() - start) == Err::<Seq<u8>, CompressFailure>(CompressFailure::BufferTooSmall));
            return Err(CompressError::Overflow);
        },
        Some(t) => t,
    };
    let room = buffer.len() - start;
    if room < table {
        assert(compress_level(a, hd, ic, step as int, has_dc, b0.len() - start) == Err::<Seq<u8>, CompressFailure>(CompressFailure::BufferTooSmall));
        return Err(CompressError::Overflow);
    }
    let share = (room - table) / bc;
    if share == 0 {
        assert(compress_level(a, hd, ic, step as int, has_dc, b0.len() - start) == Err::<Seq<u8>, CompressFailure>(CompressFailure::BufferTooSmall));
        return Err(CompressError::Overflow);
    }
    let cap: usize = if share < 0xffff_ffff {
        share
    } else {
        0xffff_ffff
    };
    let blocks_start = start + table;
    let mut tail = blocks_start;
    let mut it = Image::from_slice(aux, (w, hgt), n).into_chunks_mut(bs, step);
    proof {
        lemma_first_position(w as int, hgt as int, bs as int);
        vstd::arithmetic::div_mod::lemma_fundamental_div_mod((room - table) as int, bc as int);
    }
    let mut k: usize = 0;
    while k < bc
        invariant
            hd == *header,
            a == aux@,
            ic == is_chroma@,
            image_codable(hd),
            channel_count(hd) * (hd.width * hd.height) <= a.len(),
            a.len() <= usize::MAX,
            ic.len() >= channel_count(hd),
            n == channel_count(hd),
            w == hd.width,
            hgt == hd.height,
            step == pow2(e),
            e < 30,
            bs == block_side(hd, step as int),
            bs >= 1,
            bs + 0x4000_0000 <= usize::MAX,
            min_int(w as int, bs as int) * min_int(hgt as int, bs as int) < 0x8000_0000,
            bc == block_count(w as int, hgt as int, n as int, bs as int),
            bc >= 1,
            k <= bc,
            chroma_quality == chroma_quality_of(hd),
            1 <= chroma_quality <= 0xffff,
            table == 4 * bc,
            room == b0.len() - start,
            table <= room,
            share == (room - table) as int / (bc as int),
            share >= 1,
            start + table + bc * share <= b0.len(),
            blocks_start == start + table,
            cap == min_int(share as int, u32::MAX as int),
            buffer@.len() == b0.len(),
            buffer.len() == b0.len(),
            b0 == old(buffer)@,
            it.wf(),
            it.data_len() == a.len(),
            it.dims() == (w, hgt, n, bs, step),
            it.position() == chunk_position(w as int, hgt as int, bs as int, k as int),
            tail == blocks_start + blocks_upto(a, hd, ic, step as int, has_dc, k as int).len(),
            tail - blocks_start <= k * share,
            buffer@.subrange(0, start as int) == b0.subrange(0, start as int),
            buffer@.subrange(start as int, start + 4 * k) == size_table(a, hd, ic, step as int, has_dc, k as int),
            buffer@.subrange(blocks_start as int, tail as int) == blocks_upto(a, hd, ic, step as int, has_dc, k as int),
            buffer@.subrange(tail as int, b0.len() as int) == b0.subrange(tail as int, b0.len() as int),
            forall|j: int| 0 <= j < k ==> #[trigger] block_bytes(a, hd, ic, step as int, has_dc, j).len() <= cap,
        decreases bc - k,
    {
        proof {
            lemma_next_position(w as int, hgt as int, bs as int, k as int);
            lemma_position_channel(w as int, hgt as int, n as int, bs as int, k as int);
            lemma_level_chunk_ok(w as int, hgt as int, n as int, bs as int, step as int, e, a.len() as int, k as int);
        }
        let chunk = match it.next() {
            Some(c) => c,
            None => {
                proof {
                    assert(false);
                }
                return Err(CompressError::Overflow);
            },
        };
        assert(chunk == block_chunk(hd, a.len() as int, step as int, k as int));
        let bytes = code_block(aux, header, is_chroma, &chunk, Ghost(step as int), Ghost(k as int), has_dc, chroma_quality);
        if bytes.len() > cap {
            proof {
                reveal(compress_level);
                assert(block_bytes(a, hd, ic, step as int, has_dc, k as int).len() > min_int(share as int, u32::MAX as int));
                assert(compress_level(a, hd, ic, step as int, has_dc, b0.len() - start) == Err::<Seq<u8>, CompressFailure>(CompressFailure::BlockTooLarge));
            }
            return Err(CompressError::IOErr(write_zero_error()));
        }
        proof {
            assert((k + 1) * share == k * share + share) by (nonlinear_arith);
            assert((k + 1) * share <= bc * share) by (nonlinear_arith)
                requires
                    k + 1 <= bc,
                    share >= 0,
            ;
            lemma_level_lengths(a, hd, ic, step as int, has_dc, k as int);
        }
        let ghost before = buffer@;
        store_block(buffer, start + 4 * k, tail, &bytes, Ghost(start as int), Ghost(blocks_start as int));
        proof {
            assert(buffer@.subrange(tail + bytes@.len(), b0.len() as int) =~= b0.subrange(tail + bytes@.len(), b0.len() as int)) by {
                assert(before.subrange(tail + bytes@.len(), b0.len() as int) =~= before.subrange(tail as int, b0.len() as int).subrange(bytes@.len() as int, b0.len() - tail));
                assert(b0.subrange(tail + bytes@.len(), b0.len() as int) =~= b0.subrange(tail as int, b0.len() as int).subrange(bytes@.len() as int, b0.len() - tail));
            }
            assert(size_table(a, hd, ic, step as int, has_dc, k + 1) == size_table(a, hd, ic, step as int, has_dc, k as int) + le_bytes((bytes@.len() / 4) as nat, 4));
            assert(buffer@.subrange(0, start as int) =~= buffer@.subrange(0, start + 4 * k).subrange(0, start as int));
        }
        tail = tail + bytes.len();
        k = k + 1;
    }
    proof {
        lemma_level_lengths(a, hd, ic, step as int, has_dc, bc as int);
        let b = size_table(a, hd, ic, step as int, has_dc, bc as int) + blocks_upto(a, hd, ic, step as int, has_dc, bc as int);
        assert(!(exists|j: int|
            0 <= j < bc && #[trigger] block_bytes(a, hd, ic, step as int, has_dc, j).len() > min_int(
                share as int,
                u32::MAX as int,
            )));
        assert(buffer@.subrange(start as int, tail as int) =~= b);
    }
    Ok(tail)
}

/// Codes the planar samples `aux_data` of the image of `header` into
/// `buffer`, level after level from the coarsest wavelet step down to 1, and
/// returns the number of bytes written.  Fails with `Overflow` when the
/// chunks of the coarsest level do not fit in `usize` or the buffer has no
/// room for a size table (or for a byte per block), and with an I/O error
/// when a block does not fit in its share of the buffer.  On a failure the
/// levels coded before the failing one stay in front of the buffer; on an
/// `Overflow` nothing after them has been written.
pub fn compress_image_data(
    aux_data: &[i16],
    header: &Header,
    buffer: &mut [u8],
    is_chroma: &[bool],
) -> (r: Result<usize, CompressError>)
    requires
        image_codable(*header),
        channel_count(*header) * (header.width * header.height) <= aux_data@.len(),
        is_chroma@.len() >= channel_count(*header),
    ensures
        final(buffer)@.len() == old(buffer)@.len(),
        ({
            let top = top_step(header.width as int, header.height as int);
            let len = old(buffer)@.len() as int;
            let done = levels_coded(aux_data@, *header, is_chroma@, top, true, len);
            if block_side(*header, top) > usize::MAX {
                r matches Err(CompressError::Overflow) && final(buffer)@ == old(buffer)@
            } else {
                &&& match compress_levels(aux_data@, *header, is_chroma@, top, true, len) {
                    Ok(b) => r matches Ok(n) && n == b.len() && n <= len && final(buffer)@.subrange(0, n as int) == b,
                    Err(CompressFailure::BufferTooSmall) => r matches Err(CompressError::Overflow),
                    Err(CompressFailure::BlockTooLarge) => r matches Err(CompressError::IOErr(_)),
                }
                &&& r is Err ==> done.len() <= len && final(buffer)@.subrange(0, done.len() as int) == done
                &&& r matches Err(CompressError::Overflow) ==> final(buffer)@.subrange(done.len() as int, len)
                    == old(buffer)@.subrange(done.len() as int, len)
            }
        }),
{
    let ghost hd = *header;
    let ghost a = aux_data@;
    let ghost ic = is_chroma@;
    let ghost len = buffer@.len() as int;
    let (top, Ghost(e0)) = find_top_step(header.width, header.height);
    proof {
        vstd::bits::lemma_usize_pow2_no_overflow(header.block_size as nat);
        vstd::bits::lemma_usize_shl_is_mul(1, header.block_size as usize);
    }
    let scale: usize = 1usize << (header.block_size as usize);
    if top.checked_mul(scale).is_none() {
        return Err(CompressError::Overflow);
    }
    let ghost total = compress_levels(a, hd, ic, top as int, true, len);
    let ghost coded = levels_coded(a, hd, ic, top as int, true, len);
    let ghost b_orig = buffer@;
    let mut step = top;
    let ghost mut e = e0;
    let mut has_dc = true;
    let mut compressed: usize = 0;
    proof {
        assert(buffer@.subrange(0, 0) =~= Seq::<u8>::empty());
        assert(after(Seq::<u8>::empty(), total) == total);
        assert(coded =~= buffer@.subrange(0, 0) + coded);
        assert(buffer@.subrange(0, len) =~= b_orig.subrange(0, len));
    }
    while step >= 1
        invariant
            hd == *header,
            a == aux_data@,
            ic == is_chroma@,
            image_codable(hd),
            channel_count(hd) * (hd.width * hd.height) <= a.len(),
            ic.len() >= channel_count(hd),
            top * pow2(hd.block_size as nat) <= usize::MAX,
            top == top_step(hd.width as int, hd.height as int),
            step <= top,
            step >= 1 ==> step == pow2(e) && e < 30,
            compressed <= buffer@.len(),
            buffer@.len() == len,
            len == old(buffer)@.len(),
            total == compress_levels(a, hd, ic, top as int, true, len),
            total == after(
                buffer@.subrange(0, compressed as int),
                compress_levels(a, hd, ic, step as int, has_dc, len - compressed),
            ),
            b_orig == old(buffer)@,
            coded == levels_coded(a, hd, ic, top as int, true, len),
            coded == buffer@.subrange(0, compressed as int) + levels_coded(a, hd, ic, step as int, has_dc, len - compressed),
            buffer@.subrange(compressed as int, len) == b_orig.subrange(compressed as int, len),
        decreases step,
    {
        proof {
            assert(block_side(hd, step as int) <= block_side(hd, top as int)) by (nonlinear_arith)
                requires
                    step <= top,
                    pow2(hd.block_size as nat) >= 0,
            ;
        }
        let ghost done = buffer@.subrange(0, compressed as int);
        let ghost level = compress_level(a, hd, ic, step as int, has_dc, len - compressed);
        let ghost pre = buffer@;
        match compress_level_exec(aux_data, header, is_chroma, buffer, compressed, step, Ghost(e), has_dc) {
            Err(err) => {
                proof {
                    assert(level is Err);
                    assert(levels_coded(a, hd, ic, step as int, has_dc, len - compressed) =~= Seq::<u8>::empty());
                    assert(coded =~= done);
                }
                return Err(err);
            },
            Ok(end) => {
                proof {
                    let b = level->Ok_0;
                    assert(coded =~= buffer@.subrange(0, end as int) + levels_coded(a, hd, ic, step as int / 2, false, len - end)) by {
                        assert(buffer@.subrange(0, end as int) =~= done + b) by {
                            assert(buffer@.subrange(0, compressed as int) =~= buffer@.subrange(0, end as int).subrange(0, compressed as int));
                            assert(buffer@.subrange(compressed as int, end as int) =~= buffer@.subrange(0, end as int).subrange(compressed as int, end as int));
                        }
                    }
                    assert(buffer@.subrange(end as int, len) =~= b_orig.subrange(end as int, len)) by {
                        assert(pre.subrange(end as int, len) =~= pre.subrange(compressed as int, len).subrange(end - compressed, len - compressed));
                        assert(b_orig.subrange(end as int, len) =~= b_orig.subrange(compressed as int, len).subrange(end - compressed, len - compressed));
                    }
                    assert(buffer@.subrange(0, end as int) =~= done + b) by {
                        assert(buffer@.subrange(0, compressed as int) =~= buffer@.subrange(0, end as int).subrange(0, compressed as int));
                        assert(buffer@.subrange(compressed as int, end as int) =~= buffer@.subrange(0, end as int).subrange(compressed as int, end as int));
                    }
                    assert(len - end == len - compressed - b.len());
                    let x = compress_levels(a, hd, ic, step as int / 2, false, len - end);
                    assert(compress_levels(a, hd, ic, step as int, has_dc, len - compressed) == after(b, x));
                    match x {
                        Ok(rest) => {
                            assert(done + (b + rest) =~= (done + b) + rest);
                        },
                        Err(_) => {},
                    }
                    assert(after(done, after(b, x)) == after(done + b, x));
                }
                compressed = end;
            },
        }
        has_dc = false;
        proof {
            if step > 1 {
                vstd::arithmetic::power2::lemma2_to64();
                assert(e > 0);
                vstd::arithmetic::power2::lemma_pow2_unfold(e);
                e = (e - 1) as nat;
            }
        }
        step = step / 2;
    }
    Ok(compressed)
}

// ---------------------------------------------------------------------------
// Decompression.

/// The block sizes, in bytes, that the size table at `pos` gives `bc` blocks.
pub open spec fn table_sizes(buffer: Seq<u8>, pos: int, bc: int) -> Seq<int> {
    Seq::new(bc as nat, |k: int| 4 * le_value(buffer.subrange(pos + 4 * k, pos + 4 * k + 4)) as int)
}

/// The sum of the sizes.
pub open spec fn sum_sizes(s: Seq<int>) -> int
    decreases s.len(),
{
    if s.len() == 0 {
        0
    } else {
        sum_sizes(s.drop_last()) + s.last()
    }
}

/// Decoding the bytes of one block into `aux`: the new samples, or `None`
/// when the bits run out.
pub open spec fn decode_block(
    aux: Seq<i16>,
    h: Header,
    is_chroma: Seq<bool>,
    c: crate::processing::image::ImageChunkMut,
    bytes: Seq<u8>,
    has_dc: bool,
) -> Option<Seq<i16>> {
    let chroma = is_chroma[c.channel as int];
    match decode_spec(
        c,
        stream_bits(bytes),
        0,
        aux,
        h.encoder,
        plane_quality(h, chroma),
        has_dc && c.x_range.0 == 0 && c.y_range.0 == 0,
        chroma,
    ) {
        None => None,
        Some(st) => Some(st.data),
    }
}

/// Decoding the blocks of a level from block `k`, which starts at `p` in the
/// bytes of the blocks: the chunks of the downsampled image (`dw` by `dh`,
/// step `step_ds`) are taken in order with the blocks, up to `limit` of them
/// and as long as bytes are left.  A block cut short by the end of the bytes
/// is skipped, and so is every block in a test.  `None` when a block fails to
/// decode.
pub open spec fn decode_blocks_from(
    aux: Seq<i16>,
    h: Header,
    is_chroma: Seq<bool>,
    blocks: Seq<u8>,
    sizes: Seq<int>,
    dw: int,
    dh: int,
    step_ds: int,
    has_dc: bool,
    test: bool,
    limit: int,
    k: int,
    p: int,
) -> Option<Seq<i16>>
    decreases limit - k,
{
    if k < 0 || k >= limit || p >= blocks.len() {
        Some(aux)
    } else {
        let size = sizes[k];
        let e = if p + size >= blocks.len() {
            blocks.len() as int
        } else {
            p + size
        };
        let c = level_chunk(dw, dh, block_side(h, step_ds), step_ds, aux.len() as int, k);
        let next = if test || e - p < size {
            Some(aux)
        } else {
            decode_block(aux, h, is_chroma, c, blocks.subrange(p, e), has_dc)
        };
        match next {
            None => None,
            Some(a2) => decode_blocks_from(
                a2,
                h,
                is_chroma,
                blocks,
                sizes,
                dw,
                dh,
                step_ds,
                has_dc,
                test,
                limit,
                k + 1,
                e,
            ),
        }
    }
}

/// Decodes the blocks of a level into `aux`, as `decode_blocks_from` from
/// the first block; returns whether every decoded block decoded.
#[verifier::rlimit(60)]
fn decode_blocks_exec(
    aux: &mut [i16],
    header: &Header,
    is_chroma: &[bool],
    blocks: &[u8],
    sizes: &Vec<u64>,
    Ghost(ss): Ghost<Seq<int>>,
    dw: usize,
    dh: usize,
    step_ds: usize,
    Ghost(e): Ghost<nat>,
    has_dc: bool,
    test: bool,
) -> (ok: bool)
    requires
        image_codable(*header),
        1 <= dw <= 0x3fff_ffff,
        1 <= dh <= 0x3fff_ffff,
        min_int(dw as int, block_side(*header, step_ds as int)) * min_int(dh as int, block_side(*header, step_ds as int))
            < 0x8000_0000,
        step_ds == pow2(e),
        e < 30,
        block_side(*header, step_ds as int) <= usize::MAX,
        channel_count(*header) * (dw * dh) <= old(aux)@.len(),
        is_chroma@.len() >= channel_count(*header),
        ss.len() == sizes@.len(),
        forall|k: int| 0 <= k < ss.len() ==> #[trigger] ss[k] == sizes@[k],
    ensures
        final(aux)@.len() == old(aux)@.len(),
        match decode_blocks_from(
            old(aux)@,
            *header,
            is_chroma@,
            blocks@,
            ss,
            dw as int,
            dh as int,
            step_ds as int,
            has_dc,
            test,
            min_int(
                ss.len() as int,
                block_count(dw as int, dh as int, channel_count(*header), block_side(*header, step_ds as int)),
            ),
            0,
            0,
        ) {
            None => !ok,
            Some(a) => ok && final(aux)@ == a,
        },
        test ==> final(aux)@ == old(aux)@,
{
    let ghost hd = *header;
    let ghost ic = is_chroma@;
    let ghost bl = blocks@;
    let ghost alen = aux@.len();
    proof {
        assert(header.layers * header.channels <= 0xffff * 0xffff) by (nonlinear_arith)
            requires
                header.layers <= 0xffff,
                header.channels <= 0xffff,
        ;
    }
    let n = header.layers as usize * header.channels as usize;
    let chroma_quality = header.get_chroma_quality();
    proof {
        lemma_chroma_quality_bound(hd);
        vstd::bits::lemma_usize_pow2_no_overflow(header.block_size as nat);
        vstd::bits::lemma_usize_shl_is_mul(1, header.block_size as usize);
        vstd::arithmetic::power2::lemma_pow2_pos(header.block_size as nat);
        vstd::arithmetic::power2::lemma_pow2_pos(e);
        assert(step_ds * pow2(header.block_size as nat) >= 1) by (nonlinear_arith)
            requires
                step_ds >= 1,
                pow2(header.block_size as nat) >= 1,
        ;
        vstd::arithmetic::power2::lemma_pow2_adds(e, header.block_size as nat);
        lemma_pow2_room(e + header.block_size as nat);
        assert(n >= 1) by (nonlinear_arith)
            requires
                n == header.layers * header.channels,
                header.layers >= 1,
                header.channels >= 1,
        ;
        assert(n * dw * dh == n * (dw * dh)) by (nonlinear_arith);
        assert(aux@.len() == aux.len());
        lemma_first_position(dw as int, dh as int, (step_ds * pow2(header.block_size as nat)) as int);
    }
    let scale: usize = 1usize << (header.block_size as usize);
    let bs = step_ds * scale;
    let ghost limit = min_int(
        ss.len() as int,
        block_count(dw as int, dh as int, n as int, bs as int),
    );
    let ghost target = decode_blocks_from(aux@, hd, ic, bl, ss, dw as int, dh as int, step_ds as int, has_dc, test, limit, 0, 0);
    let mut it = Image::from_slice(aux, (dw, dh), n).into_chunks_mut(bs, step_ds);
    let blen = blocks.len();
    let mut k: usize = 0;
    let mut p: usize = 0;
    while k < sizes.len() && p < blen
        invariant
            hd == *header,
            ic == is_chroma@,
            bl == blocks@,
            blen == bl.len(),
            image_codable(hd),
            1 <= dw <= 0x3fff_ffff,
            1 <= dh <= 0x3fff_ffff,
            min_int(dw as int, bs as int) * min_int(dh as int, bs as int) < 0x8000_0000,
            step_ds == pow2(e),
            e < 30,
            n == channel_count(hd),
            n >= 1,
            bs == block_side(hd, step_ds as int),
            bs >= 1,
            bs + 0x4000_0000 <= usize::MAX,
            n * (dw * dh) <= alen,
            alen <= usize::MAX,
            aux@.len() == alen,
            old(aux)@.len() == alen,
            ic.len() >= n,
            ss.len() == sizes@.len(),
            forall|j: int| 0 <= j < ss.len() ==> #[trigger] ss[j] == sizes@[j],
            chroma_quality == chroma_quality_of(hd),
            1 <= chroma_quality <= 0xffff,
            limit == min_int(ss.len() as int, block_count(dw as int, dh as int, n as int, bs as int)),
            k <= ss.len(),
            p <= blen,
            it.wf(),
            it.data_len() == alen,
            it.dims() == (dw, dh, n, bs, step_ds),
            it.position() == chunk_position(dw as int, dh as int, bs as int, k as int),
            target == decode_blocks_from(aux@, hd, ic, bl, ss, dw as int, dh as int, step_ds as int, has_dc, test, limit, k as int, p as int),
            target == decode_blocks_from(old(aux)@, hd, ic, bl, ss, dw as int, dh as int, step_ds as int, has_dc, test, limit, 0, 0),
            test ==> aux@ == old(aux)@,
        decreases ss.len() - k,
    {
        proof {
            lemma_next_position(dw as int, dh as int, bs as int, k as int);
            lemma_position_channel(dw as int, dh as int, n as int, bs as int, k as int);
        }
        let chunk = match it.next() {
            Some(c) => c,
            None => {
                return true;
            },
        };
        proof {
            lemma_level_chunk_ok(dw as int, dh as int, n as int, bs as int, step_ds as int, e, alen as int, k as int);
        }
        assert(chunk == level_chunk(dw as int, dh as int, bs as int, step_ds as int, alen as int, k as int));
        let size = sizes[k];
        let avail = (blen - p) as u64;
        let end = if size >= avail {
            blen
        } else {
            p + size as usize
        };
        if !test && (end - p) as u64 >= size {
            let (_, rest) = blocks.split_at(p);
            let (blk, _) = rest.split_at(end - p);
            assert(blk@ == bl.subrange(p as int, end as int));
            let mut reader = BitsIOReader::new(blk);
            let chroma = is_chroma[chunk.channel];
            let quality = if chroma {
                chroma_quality
            } else {
                header.quality as i32
            };
            let first = has_dc && chunk.x_range.0 == 0 && chunk.y_range.0 == 0;
            proof {
                if chunk.step < 2048 {
                    assert(0 <= quality * chunk.step <= 0xffff * 2048) by (nonlinear_arith)
                        requires
                            0 <= quality <= 0xffff,
                            1 <= chunk.step < 2048,
                    ;
                }
            }
            match decode(&chunk, aux, &mut reader, header.encoder, quality, first, chroma) {
                Err(_) => {
                    return false;
                },
                Ok(()) => {},
            }
        }
        p = end;
        k = k + 1;
    }
    true
}

/// What decoding one level comes to.
pub enum LevelOutcome {
    /// A block failed to decode.
    Fail,
    /// The size table is not all there: decoding stops.
    Stop,
    /// The samples after the level, where the next level starts, the guess
    /// at the number of bytes needed for the next level, and whether the
    /// blocks of this level were cut short.
    Go(Seq<i16>, int, int, bool),
}

/// Decoding the level of step `step` from position `pos` of `buffer`, at
/// `d` halvings of the image.
#[verifier::opaque]
pub open spec fn decompress_level(
    aux: Seq<i16>,
    h: Header,
    is_chroma: Seq<bool>,
    buffer: Seq<u8>,
    d: nat,
    test: bool,
    step: int,
    has_dc: bool,
    pos: int,
) -> LevelOutcome {
    let bc = block_count(h.width as int, h.height as int, channel_count(h), block_side(h, step));
    let table = 4 * bc;
    if pos > buffer.len() {
        LevelOutcome::Fail
    } else if buffer.len() - pos <= table {
        LevelOutcome::Stop
    } else {
        let sizes = table_sizes(buffer, pos, bc);
        let sum = sum_sizes(sizes);
        let step_ds = step / (pow2(d) as int);
        let guess = pos + table + sum + if step_ds > 1 {
            4 * table
        } else {
            0
        };
        let blocks = buffer.subrange(pos + table, buffer.len() as int);
        let dw = downsampled(h.width as nat, d) as int;
        let dh = downsampled(h.height as nat, d) as int;
        let limit = min_int(bc, block_count(dw, dh, channel_count(h), block_side(h, step_ds)));
        match decode_blocks_from(aux, h, is_chroma, blocks, sizes, dw, dh, step_ds, has_dc, test, limit, 0, 0) {
            None => LevelOutcome::Fail,
            Some(a2) => LevelOutcome::Go(a2, pos + table + sum, guess, blocks.len() < sum),
        }
    }
}

/// Decoding the levels from step `step` on, while the step of the
/// downsampled image is at least 1: the samples and the number of bytes the
/// decoder asks for (0 when nothing was cut short), or `None` on a failure.
pub open spec fn decompress_levels(
    aux: Seq<i16>,
    h: Header,
    is_chroma: Seq<bool>,
    buffer: Seq<u8>,
    d: nat,
    test: bool,
    step: int,
    has_dc: bool,
    pos: int,
    guess: int,
    truncated: bool,
) -> Option<(Seq<i16>, int)>
    decreases step,
{
    if step < 1 || step / (pow2(d) as int) < 1 {
        Some((aux, if truncated { guess } else { 0 }))
    } else {
        match decompress_level(aux, h, is_chroma, buffer, d, test, step, has_dc, pos) {
            LevelOutcome::Fail => None,
            LevelOutcome::Stop => Some((aux, guess)),
            LevelOutcome::Go(a2, p2, g2, t2) => decompress_levels(
                a2,
                h,
                is_chroma,
                buffer,
                d,
                test,
                step / 2,
                false,
                p2,
                g2,
                t2,
            ),
        }
    }
}

/// What the decoding of a level returns to the loop over the levels.
enum LevelStep {
    Fail,
    Stop,
    Go(Option<usize>, usize, bool),
}

/// The size table of a level, read from `pos`: the sizes in bytes and their sum.
fn read_sizes(buffer: &[u8], pos: usize, bc: usize) -> (r: (Vec<u64>, u128))
    requires
        pos + 4 * bc <= buffer@.len(),
        bc <= usize::MAX / 4,
    ensures
        r.0@.len() == bc,
        forall|k: int| 0 <= k < bc ==> #[trigger] r.0@[k] == table_sizes(buffer@, pos as int, bc as int)[k],
        r.1 == sum_sizes(table_sizes(buffer@, pos as int, bc as int)),
        r.1 <= bc * 0x4_0000_0000,
{
    let ghost ss = table_sizes(buffer@, pos as int, bc as int);
    let mut sizes: Vec<u64> = Vec::new();
    let mut sum: u128 = 0;
    let mut k: usize = 0;
    while k < bc
        invariant
            k <= bc,
            bc <= usize::MAX / 4,
            pos + 4 * bc <= buffer@.len(),
            buffer@.len() == buffer.len(),
            ss == table_sizes(buffer@, pos as int, bc as int),
            sizes@.len() == k,
            forall|j: int| 0 <= j < k ==> #[trigger] sizes@[j] == ss[j],
            sum == sum_sizes(ss.subrange(0, k as int)),
            sum <= k * 0x4_0000_0000,
        decreases bc - k,
    {
        let (_, rest) = buffer.split_at(pos + 4 * k);
        let v = le_read_u32(rest);
        proof {
            assert(rest@.subrange(0, 4) =~= buffer@.subrange(pos + 4 * k, pos + 4 * k + 4));
            assert(ss.subrange(0, k + 1).drop_last() =~= ss.subrange(0, k as int));
        }
        sizes.push(v as u64 * 4);
        sum = sum + v as u128 * 4;
        k = k + 1;
    }
    assert(ss.subrange(0, bc as int) =~= ss);
    (sizes, sum)
}

/// Decodes the level of step `step` from `pos`.
fn decompress_level_exec(
    aux: &mut [i16],
    header: &Header,
    buffer: &[u8],
    is_chroma: &[bool],
    downsampling: usize,
    test: bool,
    step: usize,
    Ghost(e): Ghost<nat>,
    has_dc: bool,
    pos: usize,
) -> (r: LevelStep)
    requires
        image_codable(*header),
        downsampling < usize::BITS,
        channel_count(*header) * (header.width * header.height) <= usize::MAX,
        channel_count(*header) * (downsampled(header.width as nat, downsampling as nat) * downsampled(
            header.height as nat,
            downsampling as nat,
        )) <= old(aux)@.len(),
        is_chroma@.len() >= channel_count(*header),
        step == pow2(e),
        e < 30,
        step >= pow2(downsampling as nat),
        step <= top_step(header.width as int, header.height as int),
        block_side(*header, step as int) <= usize::MAX,
        pos <= buffer@.len(),
    ensures
        final(aux)@.len() == old(aux)@.len(),
        match decompress_level(
            old(aux)@,
            *header,
            is_chroma@,
            buffer@,
            downsampling as nat,
            test,
            step as int,
            has_dc,
            pos as int,
        ) {
            LevelOutcome::Fail => r is Fail,
            LevelOutcome::Stop => r is Stop && final(aux)@ == old(aux)@,
            LevelOutcome::Go(a2, p2, g2, t2) => r matches LevelStep::Go(next, g, t) && final(aux)@ == a2
                && g == min_int(g2, usize::MAX as int) && t == t2 && match next {
                Some(q) => q == p2 && p2 <= buffer@.len(),
                None => p2 > buffer@.len(),
            },
        },
        test ==> final(aux)@ == old(aux)@,
{
    let ghost hd = *header;
    let ghost d = downsampling as nat;
    reveal(decompress_level);
    let w = header.width as usize;
    let hgt = header.height as usize;
    proof {
        assert(header.layers * header.channels <= 0xffff * 0xffff) by (nonlinear_arith)
            requires
                header.layers <= 0xffff,
                header.channels <= 0xffff,
        ;
    }
    let n = header.layers as usize * header.channels as usize;
    proof {
        vstd::bits::lemma_usize_pow2_no_overflow(header.block_size as nat);
        vstd::bits::lemma_usize_shl_is_mul(1, header.block_size as usize);
        vstd::arithmetic::power2::lemma_pow2_pos(header.block_size as nat);
        vstd::arithmetic::power2::lemma_pow2_pos(e);
        assert(step * pow2(header.block_size as nat) >= 1) by (nonlinear_arith)
            requires
                step >= 1,
                pow2(header.block_size as nat) >= 1,
        ;
        assert(n == channel_count(hd));
        assert(n >= 1) by (nonlinear_arith)
            requires
                n == header.layers * header.channels,
                header.layers >= 1,
                header.channels >= 1,
        ;
        assert(w * hgt >= 1) by (nonlinear_arith)
            requires
                w >= 1,
                hgt >= 1,
        ;
    }
    let scale: usize = 1usize << (header.block_size as usize);
    let bs = step * scale;
    let bx = chunks_along_exec(w, bs);
    let by = chunks_along_exec(hgt, bs);
    proof {
        assert(bx * by <= w * hgt) by (nonlinear_arith)
            requires
                1 <= bx <= w,
                1 <= by <= hgt,
        ;
        assert(bx * by * n <= n * (w * hgt)) by (nonlinear_arith)
            requires
                bx * by <= w * hgt,
                n >= 1,
        ;
        assert(n * (w * hgt) <= usize::MAX);
        assert(bx * by <= bx * by * n) by (nonlinear_arith)
            requires
                bx * by >= 0,
                n >= 1,
        ;
    }
    let bc = bx * by * n;
    proof {
        assert(bs == block_side(hd, step as int));
        assert(bc == block_count(hd.width as int, hd.height as int, channel_count(hd), block_side(hd, step as int)));
    }
    let blen = buffer.len();
    let table = match bc.checked_mul(4) {
        None => {
            return LevelStep::Stop;
        },
        Some(t) => t,
    };
    if blen - pos <= table {
        return LevelStep::Stop;
    }
    let (sizes, sum) = read_sizes(buffer, pos, bc);
    let ghost ss = table_sizes(buffer@, pos as int, bc as int);
    proof {
        vstd::bits::lemma_usize_shr_is_div(step, downsampling);
        vstd::arithmetic::power2::lemma_pow2_pos(d);
        if d > e {
            vstd::arithmetic::power2::lemma_pow2_strictly_increases(e, d);
        }
        vstd::arithmetic::power2::lemma_pow2_adds((e - d) as nat, d);
        vstd::arithmetic::div_mod::lemma_fundamental_div_mod_converse(
            step as int,
            pow2(d) as int,
            pow2((e - d) as nat) as int,
            0,
        );
        vstd::arithmetic::power2::lemma_pow2_pos((e - d) as nat);
        assert(sum <= bc * 0x4_0000_0000);
        assert(bc * 0x4_0000_0000 <= 0x4000_0000_0000_0000 * 0x4_0000_0000) by (nonlinear_arith)
            requires
                bc <= 0x4000_0000_0000_0000,
        ;
    }
    let step_ds = step >> downsampling;
    let ghost e_ds: nat = (e - d) as nat;
    let extra: u128 = if step_ds > 1 {
        4 * table as u128
    } else {
        0
    };
    let guess: u128 = pos as u128 + table as u128 + sum + extra;
    let g: usize = if guess > usize::MAX as u128 {
        usize::MAX
    } else {
        guess as usize
    };
    let (_, blocks) = buffer.split_at(pos + table);
    let dw = header.get_downsampled_width(downsampling);
    let dh = header.get_downsampled_height(downsampling);
    proof {
        lemma_downsampled_le(header.width as nat, d);
        lemma_downsampled_le(header.height as nat, d);
        vstd::arithmetic::mul::lemma_mul_upper_bound(dw as int, w as int, dh as int, hgt as int);
        assert(step_ds as int * pow2(header.block_size as nat) <= step as int * pow2(header.block_size as nat)) by (nonlinear_arith)
            requires
                step_ds <= step,
                pow2(header.block_size as nat) >= 1,
        ;
        if e_ds >= 30 {
            vstd::arithmetic::power2::lemma_pow2_strictly_increases(e_ds, e);
        }
        assert(e_ds <= e);
        let top = top_step(hd.width as int, hd.height as int);
        assert(step_ds as int * pow2(header.block_size as nat) <= top * pow2(header.block_size as nat)) by (nonlinear_arith)
            requires
                step_ds <= step,
                step <= top,
                pow2(header.block_size as nat) >= 1,
        ;
        lemma_chunk_area_mono(
            dw as int,
            dh as int,
            block_side(hd, step_ds as int),
            hd.width as int,
            hd.height as int,
            block_side(hd, top),
        );
    }
    let ok = decode_blocks_exec(aux, header, is_chroma, blocks, &sizes, Ghost(ss), dw, dh, step_ds, Ghost(e_ds), has_dc, test);
    if !ok {
        return LevelStep::Fail;
    }
    let truncated = (blocks.len() as u128) < sum;
    let end: u128 = pos as u128 + table as u128 + sum;
    let next = if end > blen as u128 {
        None
    } else {
        Some(end as usize)
    };
    LevelStep::Go(next, g, truncated)
}

/// Decodes the levels of `buffer` into the planar samples `aux_data` of the
/// image of `header` downsampled `downsampling` times (levels whose step the
/// downsampling takes below 1 are not read; in a test nothing is decoded).
/// Returns 0 when nothing was cut short, else a guess at the number of bytes
/// needed to decode the next level; fails with `Underflow` when a block
/// fails to decode, the levels run past the end of the buffer, or the chunks
/// of the coarsest level do not fit in `usize`.
pub fn decompress_image_data(
    aux_data: &mut [i16],
    header: &Header,
    buffer: &[u8],
    downsampling: usize,
    test: bool,
    is_chroma: &[bool],
) -> (r: Result<usize, DecompressError>)
    requires
        image_codable(*header),
        downsampling < usize::BITS,
        channel_count(*header) * (header.width * header.height) <= usize::MAX,
        channel_count(*header) * (downsampled(header.width as nat, downsampling as nat) * downsampled(
            header.height as nat,
            downsampling as nat,
        )) <= old(aux_data)@.len(),
        is_chroma@.len() >= channel_count(*header),
    ensures
        final(aux_data)@.len() == old(aux_data)@.len(),
        ({
            let top = top_step(header.width as int, header.height as int);
            if block_side(*header, top) > usize::MAX {
                r matches Err(DecompressError::Underflow)
            } else {
                match decompress_levels(
                    old(aux_data)@,
                    *header,
                    is_chroma@,
                    buffer@,
                    downsampling as nat,
                    test,
                    top,
                    true,
                    0,
                    buffer@.len() as int + 1024,
                    false,
                ) {
                    None => r matches Err(DecompressError::Underflow),
                    Some((a, v)) => r matches Ok(x) && x == min_int(v, usize::MAX as int) && final(aux_data)@ == a,
                }
            }
        }),
        test ==> final(aux_data)@ == old(aux_data)@,
{
    let ghost hd = *header;
    let ghost ic = is_chroma@;
    let ghost buf = buffer@;
    let ghost d = downsampling as nat;
    let (top, Ghost(e0)) = find_top_step(header.width, header.height);
    proof {
        vstd::bits::lemma_usize_pow2_no_overflow(header.block_size as nat);
        vstd::bits::lemma_usize_shl_is_mul(1, header.block_size as usize);
    }
    let scale: usize = 1usize << (header.block_size as usize);
    if top.checked_mul(scale).is_none() {
        return Err(DecompressError::Underflow);
    }
    let blen = buffer.len();
    let ghost target = decompress_levels(aux_data@, hd, ic, buf, d, test, top as int, true, 0, blen + 1024, false);
    let mut step = top;
    let ghost mut e = e0;
    let mut has_dc = true;
    let mut pos: usize = 0;
    let mut overrun = false;
    let mut guess: usize = if blen > usize::MAX - 1024 {
        usize::MAX
    } else {
        blen + 1024
    };
    let ghost mut gpos: int = 0;
    let ghost mut gguess: int = blen + 1024;
    let mut truncated = false;
    proof {
        vstd::bits::lemma_usize_shr_is_div(step, downsampling);
    }
    while (step >> downsampling) >= 1
        invariant
            hd == *header,
            ic == is_chroma@,
            buf == buffer@,
            blen == buf.len(),
            d == downsampling,
            downsampling < usize::BITS,
            image_codable(hd),
            channel_count(hd) * (hd.width * hd.height) <= usize::MAX,
            channel_count(hd) * (downsampled(hd.width as nat, d) * downsampled(hd.height as nat, d))
                <= aux_data@.len(),
            aux_data@.len() == old(aux_data)@.len(),
            ic.len() >= channel_count(hd),
            top * pow2(hd.block_size as nat) <= usize::MAX,
            top == top_step(hd.width as int, hd.height as int),
            step <= top,
            step >= 1 ==> step == pow2(e) && e < 30,
            !overrun ==> gpos == pos && pos <= blen,
            overrun ==> gpos > blen,
            guess == min_int(gguess, usize::MAX as int),
            target == decompress_levels(old(aux_data)@, hd, ic, buf, d, test, top as int, true, 0, blen + 1024, false),
            target == decompress_levels(aux_data@, hd, ic, buf, d, test, step as int, has_dc, gpos, gguess, truncated),
            test ==> aux_data@ == old(aux_data)@,
        decreases step,
    {
        proof {
            vstd::bits::lemma_usize_shr_is_div(step, downsampling);
            vstd::arithmetic::power2::lemma_pow2_pos(d);
            vstd::arithmetic::div_mod::lemma_fundamental_div_mod(step as int, pow2(d) as int);
            assert(step >= pow2(d)) by (nonlinear_arith)
                requires
                    step == pow2(d) * (step as int / (pow2(d) as int)) + step as int % (pow2(d) as int),
                    step as int / (pow2(d) as int) >= 1,
                    step as int % (pow2(d) as int) >= 0,
                    pow2(d) > 0,
            ;
            assert(block_side(hd, step as int) <= block_side(hd, top as int)) by (nonlinear_arith)
                requires
                    step <= top,
                    pow2(hd.block_size as nat) >= 0,
            ;
        }
        if overrun {
            proof {
                reveal(decompress_level);
            }
            return Err(DecompressError::Underflow);
        }
        let ghost a_before = aux_data@;
        match decompress_level_exec(aux_data, header, buffer, is_chroma, downsampling, test, step, Ghost(e), has_dc, pos) {
            LevelStep::Fail => {
                return Err(DecompressError::Underflow);
            },
            LevelStep::Stop => {
                return Ok(guess);
            },
            LevelStep::Go(next, g, t) => {
                proof {
                    let lv = decompress_level(a_before, hd, ic, buf, d, test, step as int, has_dc, pos as int);
                    gpos = lv->Go_1;
                    gguess = lv->Go_2;
                }
                match next {
                    Some(q) => {
                        pos = q;
                    },
                    None => {
                        overrun = true;
                    },
                }
                guess = g;
                truncated = t;
            },
        }
        has_dc = false;
        proof {
            if step > 1 {
                vstd::arithmetic::power2::lemma2_to64();
                assert(e > 0);
                vstd::arithmetic::power2::lemma_pow2_unfold(e);
                e = (e - 1) as nat;
            }
        }
        step = step / 2;
        proof {
            vstd::bits::lemma_usize_shr_is_div(step, downsampling);
        }
    }
    proof {
        vstd::bits::lemma_usize_shr_is_div(step, downsampling);
    }
    if truncated {
        Ok(guess)
    } else {
        Ok(0)
    }
}

} // verus!
