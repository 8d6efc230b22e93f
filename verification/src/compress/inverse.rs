//! Decoding a level reads back the blocks that coding the level wrote.
use vstd::prelude::*;
use vstd::arithmetic::power2::pow2;

use crate::bits::{lemma_stream_of_padded, padded_words, stream_bits};
use crate::byte_order::{le_bytes, le_value, lemma_le_bytes_len, lemma_le_roundtrip, lemma_pow256_values};
use crate::encode::block::{block_chunk_ok, encode_bits};
use crate::encode::lossless::{
    context_reads, coded_index, lemma_block_decodes, lemma_coded_bits_nonempty, lemma_on_step_visited,
    lemma_step_bit_mod, lies_at, on_step,
};
use crate::encode::block::{sample_index, size_x, size_y};
use super::coverage::{
    lemma_chunk_of, lemma_half_mod, lemma_multiple_of_twice, lemma_position_level, lemma_top,
};
use crate::encode::lossless::lemma_read_not_coded;
use super::layout::chunk_position;
use crate::header::{downsampled, Header};
use crate::processing::image::{min_int, ImageChunkMut};

use super::image_data::{
    block_bits, block_bytes, block_chunk, block_side, blocks_upto, channel_count, compress_level,
    compress_levels, decompress_levels,
    decode_block, decode_blocks_from, decompress_level, image_codable, size_table, sum_sizes,
    table_sizes, LevelOutcome,
};
use super::layout::{block_count, lemma_level_chunk_ok, level_chunk, top_step};
use super::{full_quality, lemma_image_lossless, lifted_image, plane, unlifted_image, plane_quality};

verus! {

/// Whether the top-left coefficient of the chunk is coded with it.
pub open spec fn block_has_dc(c: ImageChunkMut, has_dc: bool) -> bool {
    has_dc && c.x_range.0 == 0 && c.y_range.0 == 0
}

/// The number of blocks of the level of step `step`.
pub open spec fn level_blocks(h: Header, step: int) -> int {
    block_count(h.width as int, h.height as int, channel_count(h), block_side(h, step))
}

/// Whether one of the first `kmax` blocks of the level codes the sample at
/// index `m`.
pub open spec fn level_codes(len: int, h: Header, step: int, has_dc: bool, kmax: int, m: int) -> bool {
    exists|k: int|
        0 <= k < kmax && #[trigger] coded_index(
            block_chunk(h, len, step, k),
            block_has_dc(block_chunk(h, len, step, k), has_dc),
            m,
        )
}

/// The samples after decoding the first `kmax` blocks of the level of
/// `aux` into `a0`: what the blocks code comes from `aux`, the rest stays.
pub open spec fn level_result(
    aux: Seq<i16>,
    a0: Seq<i16>,
    h: Header,
    step: int,
    has_dc: bool,
    kmax: int,
) -> Seq<i16> {
    Seq::new(
        aux.len(),
        |m: int|
            if level_codes(aux.len() as int, h, step, has_dc, kmax, m) {
                aux[m]
            } else {
                a0[m]
            },
    )
}

/// The samples the blocks of the level read but do not code are right in
/// `a0`.
pub open spec fn level_reads_agree(aux: Seq<i16>, a0: Seq<i16>, h: Header, step: int, has_dc: bool) -> bool {
    forall|k: int, m: int|
        0 <= k < level_blocks(h, step) && 0 <= m < aux.len() && context_reads(
            block_chunk(h, aux.len() as int, step, k),
            m,
        ) && !#[trigger] coded_index(
            block_chunk(h, aux.len() as int, step, k),
            block_has_dc(block_chunk(h, aux.len() as int, step, k), has_dc),
            m,
        ) ==> a0[m] == aux[m]
}

// ---------------------------------------------------------------------------
// The layout of a coded level.

proof fn lemma_size_table_at(
    aux: Seq<i16>,
    h: Header,
    is_chroma: Seq<bool>,
    step: int,
    has_dc: bool,
    bc: int,
    k: int,
)
    requires
        0 <= k < bc,
    ensures
        size_table(aux, h, is_chroma, step, has_dc, bc).len() == 4 * bc,
        size_table(aux, h, is_chroma, step, has_dc, bc).subrange(4 * k, 4 * k + 4) == le_bytes(
            (block_bytes(aux, h, is_chroma, step, has_dc, k).len() / 4) as nat,
            4,
        ),
    decreases bc,
{
    let t = size_table(aux, h, is_chroma, step, has_dc, bc);
    let prev = size_table(aux, h, is_chroma, step, has_dc, bc - 1);
    let last = le_bytes((block_bytes(aux, h, is_chroma, step, has_dc, bc - 1).len() / 4) as nat, 4);
    lemma_le_bytes_len((block_bytes(aux, h, is_chroma, step, has_dc, bc - 1).len() / 4) as nat, 4);
    if k < bc - 1 {
        lemma_size_table_at(aux, h, is_chroma, step, has_dc, bc - 1, k);
        assert(t.subrange(4 * k, 4 * k + 4) =~= prev.subrange(4 * k, 4 * k + 4));
    } else {
        if bc - 1 > 0 {
            lemma_size_table_at(aux, h, is_chroma, step, has_dc, bc - 1, 0);
        } else {
            assert(prev.len() == 0);
        }
        assert(t.subrange(4 * k, 4 * k + 4) =~= last);
    }
}

proof fn lemma_blocks_prefix(
    aux: Seq<i16>,
    h: Header,
    is_chroma: Seq<bool>,
    step: int,
    has_dc: bool,
    bc: int,
    k: int,
)
    requires
        0 <= k <= bc,
    ensures
        blocks_upto(aux, h, is_chroma, step, has_dc, k).len() <= blocks_upto(aux, h, is_chroma, step, has_dc, bc).len(),
        blocks_upto(aux, h, is_chroma, step, has_dc, bc).subrange(
            0,
            blocks_upto(aux, h, is_chroma, step, has_dc, k).len() as int,
        ) == blocks_upto(aux, h, is_chroma, step, has_dc, k),
    decreases bc - k,
{
    if k < bc {
        lemma_blocks_prefix(aux, h, is_chroma, step, has_dc, bc, k + 1);
        let a = blocks_upto(aux, h, is_chroma, step, has_dc, k);
        let b = blocks_upto(aux, h, is_chroma, step, has_dc, k + 1);
        let all = blocks_upto(aux, h, is_chroma, step, has_dc, bc);
        assert(all.subrange(0, a.len() as int) =~= b.subrange(0, a.len() as int));
    } else {
        let all = blocks_upto(aux, h, is_chroma, step, has_dc, bc);
        assert(all.subrange(0, all.len() as int) =~= all);
    }
}

/// The bytes of a block are whole words, at least one when the block codes
/// a sample.
proof fn lemma_block_bytes(aux: Seq<i16>, h: Header, is_chroma: Seq<bool>, step: int, has_dc: bool, k: int)
    ensures
        block_bytes(aux, h, is_chroma, step, has_dc, k).len() % 4 == 0,
        stream_bits(block_bytes(aux, h, is_chroma, step, has_dc, k)).len() >= block_bits(
            aux,
            h,
            is_chroma,
            step,
            has_dc,
            k,
        ).len(),
        stream_bits(block_bytes(aux, h, is_chroma, step, has_dc, k)).subrange(
            0,
            block_bits(aux, h, is_chroma, step, has_dc, k).len() as int,
        ) == block_bits(aux, h, is_chroma, step, has_dc, k),
        block_bits(aux, h, is_chroma, step, has_dc, k).len() >= 1 ==> block_bytes(
            aux,
            h,
            is_chroma,
            step,
            has_dc,
            k,
        ).len() >= 4,
{
    let bits = block_bits(aux, h, is_chroma, step, has_dc, k);
    lemma_stream_of_padded(bits);
    let s = stream_bits(padded_words(bits));
    assert(s.subrange(0, bits.len() as int) =~= bits);
}


/// The size table of a coded level gives each block's length.
proof fn lemma_table_entry(
    aux: Seq<i16>,
    h: Header,
    is_chroma: Seq<bool>,
    step: int,
    has_dc: bool,
    buffer: Seq<u8>,
    pos: int,
    bc: int,
    k: int,
)
    requires
        0 <= pos,
        pos + 4 * bc <= buffer.len(),
        buffer.subrange(pos, pos + 4 * bc) == size_table(aux, h, is_chroma, step, has_dc, bc),
        0 <= k < bc,
        block_bytes(aux, h, is_chroma, step, has_dc, k).len() <= u32::MAX,
    ensures
        4 * le_value(buffer.subrange(pos + 4 * k, pos + 4 * k + 4)) as int == block_bytes(
            aux,
            h,
            is_chroma,
            step,
            has_dc,
            k,
        ).len(),
{
    lemma_size_table_at(aux, h, is_chroma, step, has_dc, bc, k);
    let len = block_bytes(aux, h, is_chroma, step, has_dc, k).len();
    lemma_block_bytes(aux, h, is_chroma, step, has_dc, k);
    assert(buffer.subrange(pos + 4 * k, pos + 4 * k + 4) =~= size_table(
        aux,
        h,
        is_chroma,
        step,
        has_dc,
        bc,
    ).subrange(4 * k, 4 * k + 4));
    lemma_pow256_values();
    lemma_le_roundtrip((len / 4) as nat, 4);
}

/// The sizes of the first `k` blocks add up to the bytes of those blocks.
proof fn lemma_table_sum(
    aux: Seq<i16>,
    h: Header,
    is_chroma: Seq<bool>,
    step: int,
    has_dc: bool,
    buffer: Seq<u8>,
    pos: int,
    bc: int,
    k: int,
)
    requires
        0 <= pos,
        pos + 4 * bc <= buffer.len(),
        buffer.subrange(pos, pos + 4 * bc) == size_table(aux, h, is_chroma, step, has_dc, bc),
        0 <= k <= bc,
        forall|j: int| 0 <= j < bc ==> #[trigger] block_bytes(aux, h, is_chroma, step, has_dc, j).len() <= u32::MAX,
    ensures
        sum_sizes(table_sizes(buffer, pos, k)) == blocks_upto(aux, h, is_chroma, step, has_dc, k).len(),
    decreases k,
{
    if k > 0 {
        lemma_table_sum(aux, h, is_chroma, step, has_dc, buffer, pos, bc, k - 1);
        assert(table_sizes(buffer, pos, k).drop_last() =~= table_sizes(buffer, pos, k - 1));
        lemma_table_entry(aux, h, is_chroma, step, has_dc, buffer, pos, bc, k - 1);
    } else {
        assert(table_sizes(buffer, pos, k) =~= Seq::<int>::empty());
    }
}


/// The headers, steps and sample counts a level is coded with.
pub open spec fn level_ok(len: int, h: Header, step: int, e: nat) -> bool {
    &&& image_codable(h)
    &&& step == pow2(e)
    &&& e < 30
    &&& step <= top_step(h.width as int, h.height as int)
    &&& channel_count(h) * (h.width * h.height) <= len <= usize::MAX
}

/// The coded bytes of a level lie at `pos` of `buffer`.
pub open spec fn level_lies(
    aux: Seq<i16>,
    h: Header,
    is_chroma: Seq<bool>,
    step: int,
    has_dc: bool,
    buffer: Seq<u8>,
    pos: int,
) -> bool {
    let bc = level_blocks(h, step);
    let blocks = blocks_upto(aux, h, is_chroma, step, has_dc, bc);
    &&& 0 <= pos
    &&& pos + 4 * bc + blocks.len() <= buffer.len()
    &&& buffer.subrange(pos, pos + 4 * bc) == size_table(aux, h, is_chroma, step, has_dc, bc)
    &&& buffer.subrange(pos + 4 * bc, pos + 4 * bc + blocks.len()) == blocks
    &&& forall|j: int| 0 <= j < bc ==> #[trigger] block_bytes(aux, h, is_chroma, step, has_dc, j).len() <= u32::MAX
}

/// Block `k` of a level lies after the blocks before it.
proof fn lemma_block_at(
    aux: Seq<i16>,
    h: Header,
    is_chroma: Seq<bool>,
    step: int,
    has_dc: bool,
    buffer: Seq<u8>,
    pos: int,
    k: int,
)
    requires
        level_lies(aux, h, is_chroma, step, has_dc, buffer, pos),
        0 <= k < level_blocks(h, step),
    ensures
        ({
            let bc = level_blocks(h, step);
            let blocks = buffer.subrange(pos + 4 * bc, buffer.len() as int);
            let p = blocks_upto(aux, h, is_chroma, step, has_dc, k).len() as int;
            let bb = block_bytes(aux, h, is_chroma, step, has_dc, k);
            &&& p + bb.len() <= blocks_upto(aux, h, is_chroma, step, has_dc, bc).len()
            &&& blocks.subrange(p, p + bb.len()) == bb
        }),
{
    let bc = level_blocks(h, step);
    let blocks = buffer.subrange(pos + 4 * bc, buffer.len() as int);
    let all = blocks_upto(aux, h, is_chroma, step, has_dc, bc);
    let p = blocks_upto(aux, h, is_chroma, step, has_dc, k).len() as int;
    let bb = block_bytes(aux, h, is_chroma, step, has_dc, k);
    lemma_blocks_prefix(aux, h, is_chroma, step, has_dc, bc, k + 1);
    let upto1 = blocks_upto(aux, h, is_chroma, step, has_dc, k + 1);
    assert(blocks.subrange(0, all.len() as int) =~= all);
    assert(blocks.subrange(p, p + bb.len()) =~= upto1.subrange(p, p + bb.len()));
    assert(upto1.subrange(p, p + bb.len()) =~= bb);
}

/// The chunks of a level are chunks the block coder takes.
proof fn lemma_level_chunk(h: Header, len: int, step: int, e: nat, k: int)
    requires
        level_ok(len, h, step, e),
        0 <= k < level_blocks(h, step),
    ensures
        block_chunk_ok(block_chunk(h, len, step, k)),
        block_chunk(h, len, step, k).data_len == len,
{
    assert(channel_count(h) >= 1) by (nonlinear_arith)
        requires
            h.layers >= 1,
            h.channels >= 1,
            channel_count(h) == h.layers * h.channels,
    ;
    assert(block_side(h, step) >= 1) by {
        vstd::arithmetic::power2::lemma_pow2_pos(h.block_size as nat);
        vstd::arithmetic::power2::lemma_pow2_pos(e);
        assert(block_side(h, step) == step * pow2(h.block_size as nat));
        vstd::arithmetic::mul::lemma_mul_increases(pow2(h.block_size as nat) as int, step);
    }
    let top = top_step(h.width as int, h.height as int);
    assert(block_side(h, step) <= block_side(h, top)) by (nonlinear_arith)
        requires
            block_side(h, step) == step * pow2(h.block_size as nat),
            block_side(h, top) == top * pow2(h.block_size as nat),
            step <= top,
            pow2(h.block_size as nat) >= 0,
    ;
    crate::compress::layout::lemma_chunk_area_mono(
        h.width as int,
        h.height as int,
        block_side(h, step),
        h.width as int,
        h.height as int,
        block_side(h, top),
    );
    lemma_level_chunk_ok(
        h.width as int,
        h.height as int,
        channel_count(h),
        block_side(h, step),
        step,
        e,
        len,
        k,
    );
}

/// Blocks after the end of the bytes code nothing.
proof fn lemma_empty_blocks(
    aux: Seq<i16>,
    h: Header,
    is_chroma: Seq<bool>,
    step: int,
    e: nat,
    has_dc: bool,
    k: int,
    m: int,
)
    requires
        level_ok(aux.len() as int, h, step, e),
        0 <= k <= level_blocks(h, step),
        blocks_upto(aux, h, is_chroma, step, has_dc, k).len() >= blocks_upto(
            aux,
            h,
            is_chroma,
            step,
            has_dc,
            level_blocks(h, step),
        ).len(),
    ensures
        level_codes(aux.len() as int, h, step, has_dc, level_blocks(h, step), m) == level_codes(
            aux.len() as int,
            h,
            step,
            has_dc,
            k,
            m,
        ),
{
    let bc = level_blocks(h, step);
    let len = aux.len() as int;
    if level_codes(len, h, step, has_dc, bc, m) && !level_codes(len, h, step, has_dc, k, m) {
        let j = choose|j: int|
            0 <= j < bc && #[trigger] coded_index(
                block_chunk(h, len, step, j),
                block_has_dc(block_chunk(h, len, step, j), has_dc),
                m,
            );
        assert(j >= k);
        let c = block_chunk(h, len, step, j);
        lemma_level_chunk(h, len, step, e, j);
        lemma_coded_bits_nonempty(
            c,
            aux,
            h.encoder,
            plane_quality(h, is_chroma[c.channel as int]),
            block_has_dc(c, has_dc),
            is_chroma[c.channel as int],
            m,
        );
        lemma_block_bytes(aux, h, is_chroma, step, has_dc, j);
        lemma_blocks_prefix(aux, h, is_chroma, step, has_dc, j, k);
        lemma_blocks_prefix(aux, h, is_chroma, step, has_dc, bc, j + 1);
    }
}


/// Decoding one block of a level writes what it codes.
#[verifier::rlimit(40)]
proof fn lemma_one_block(
    aux: Seq<i16>,
    a0: Seq<i16>,
    h: Header,
    is_chroma: Seq<bool>,
    step: int,
    e: nat,
    has_dc: bool,
    buffer: Seq<u8>,
    pos: int,
    k: int,
)
    requires
        level_ok(aux.len() as int, h, step, e),
        level_lies(aux, h, is_chroma, step, has_dc, buffer, pos),
        a0.len() == aux.len(),
        level_reads_agree(aux, a0, h, step, has_dc),
        0 <= k < level_blocks(h, step),
    ensures
        decode_block(
            level_result(aux, a0, h, step, has_dc, k),
            h,
            is_chroma,
            block_chunk(h, aux.len() as int, step, k),
            block_bytes(aux, h, is_chroma, step, has_dc, k),
            has_dc,
        ) == Some(level_result(aux, a0, h, step, has_dc, k + 1)),
{
    let len = aux.len() as int;
    let c = block_chunk(h, len, step, k);
    let cur = level_result(aux, a0, h, step, has_dc, k);
    let chroma = is_chroma[c.channel as int];
    let q = plane_quality(h, chroma);
    let dc = block_has_dc(c, has_dc);
    let bb = block_bytes(aux, h, is_chroma, step, has_dc, k);
    lemma_level_chunk(h, len, step, e, k);
    lemma_block_bytes(aux, h, is_chroma, step, has_dc, k);
    let bits = block_bits(aux, h, is_chroma, step, has_dc, k);
    assert(lies_at(stream_bits(bb), 0, bits));
    assert forall|m: int|
        0 <= m < aux.len() && context_reads(c, m) && !coded_index(c, dc, m) implies #[trigger] cur[m]
        == aux[m] by {
        assert(!coded_index(
            block_chunk(h, len, step, k),
            block_has_dc(block_chunk(h, len, step, k), has_dc),
            m,
        ));
    }
    lemma_block_decodes(c, aux, cur, h.encoder, q, dc, chroma, stream_bits(bb), 0);
    let st = crate::encode::block::decode_spec(c, stream_bits(bb), 0, cur, h.encoder, q, dc, chroma).unwrap();
    let next = level_result(aux, a0, h, step, has_dc, k + 1);
    assert forall|m: int| 0 <= m < aux.len() implies st.data[m] == next[m] by {
        if coded_index(c, dc, m) {
            assert(level_codes(len, h, step, has_dc, k + 1, m));
        } else {
            if level_codes(len, h, step, has_dc, k + 1, m) {
                let j = choose|j: int|
                    0 <= j < k + 1 && #[trigger] coded_index(
                        block_chunk(h, len, step, j),
                        block_has_dc(block_chunk(h, len, step, j), has_dc),
                        m,
                    );
                assert(j != k);
                assert(level_codes(len, h, step, has_dc, k, m));
            }
            if level_codes(len, h, step, has_dc, k, m) {
                let j = choose|j: int|
                    0 <= j < k && #[trigger] coded_index(
                        block_chunk(h, len, step, j),
                        block_has_dc(block_chunk(h, len, step, j), has_dc),
                        m,
                    );
                assert(0 <= j < k + 1);
            }
        }
    }
    assert(st.data =~= next);
}

/// Decoding the blocks of a level from block `k` on writes what they code.
proof fn lemma_blocks_from(
    aux: Seq<i16>,
    a0: Seq<i16>,
    h: Header,
    is_chroma: Seq<bool>,
    step: int,
    e: nat,
    has_dc: bool,
    buffer: Seq<u8>,
    pos: int,
    k: int,
)
    requires
        level_ok(aux.len() as int, h, step, e),
        level_lies(aux, h, is_chroma, step, has_dc, buffer, pos),
        a0.len() == aux.len(),
        level_reads_agree(aux, a0, h, step, has_dc),
        0 <= k <= level_blocks(h, step),
    ensures
        decode_blocks_from(
            level_result(aux, a0, h, step, has_dc, k),
            h,
            is_chroma,
            buffer.subrange(pos + 4 * level_blocks(h, step), buffer.len() as int),
            table_sizes(buffer, pos, level_blocks(h, step)),
            h.width as int,
            h.height as int,
            step,
            has_dc,
            false,
            level_blocks(h, step),
            k,
            blocks_upto(aux, h, is_chroma, step, has_dc, k).len() as int,
        ) == Some(level_result(aux, a0, h, step, has_dc, level_blocks(h, step))),
    decreases level_blocks(h, step) - k,
{
    let bc = level_blocks(h, step);
    let len = aux.len() as int;
    let blocks = buffer.subrange(pos + 4 * bc, buffer.len() as int);
    let sizes = table_sizes(buffer, pos, bc);
    let cur = level_result(aux, a0, h, step, has_dc, k);
    let p = blocks_upto(aux, h, is_chroma, step, has_dc, k).len() as int;
    lemma_blocks_prefix(aux, h, is_chroma, step, has_dc, bc, k);
    if k == bc {
    } else if p >= blocks.len() {
        assert forall|m: int| 0 <= m < len implies cur[m] == level_result(aux, a0, h, step, has_dc, bc)[m] by {
            lemma_empty_blocks(aux, h, is_chroma, step, e, has_dc, k, m);
        }
        assert(cur =~= level_result(aux, a0, h, step, has_dc, bc));
    } else {
        lemma_table_entry(aux, h, is_chroma, step, has_dc, buffer, pos, bc, k);
        lemma_block_at(aux, h, is_chroma, step, has_dc, buffer, pos, k);
        let bb = block_bytes(aux, h, is_chroma, step, has_dc, k);
        assert(sizes[k] == bb.len());
        assert(blocks.subrange(p, p + bb.len()) == bb);
        assert(block_chunk(h, len, step, k) == level_chunk(
            h.width as int,
            h.height as int,
            block_side(h, step),
            step,
            cur.len() as int,
            k,
        ));
        lemma_one_block(aux, a0, h, is_chroma, step, e, has_dc, buffer, pos, k);
        lemma_blocks_from(aux, a0, h, is_chroma, step, e, has_dc, buffer, pos, k + 1);
    }
}


/// Without downsampling, the decoder sees the image as it is.
proof fn lemma_no_downsampling(h: Header, step: int)
    ensures
        downsampled(h.width as nat, 0) == h.width,
        downsampled(h.height as nat, 0) == h.height,
        step / (pow2(0) as int) == step,
{
    vstd::arithmetic::power2::lemma2_to64();
    assert(pow2(0) == 1);
}

/// A level has no negative number of blocks.
proof fn lemma_level_chunk_sizes(h: Header, step: int, e: nat)
    requires
        image_codable(h),
        step == pow2(e),
    ensures
        level_blocks(h, step) >= 0,
{
    let bs = block_side(h, step);
    vstd::arithmetic::power2::lemma_pow2_pos(h.block_size as nat);
    vstd::arithmetic::power2::lemma_pow2_pos(e);
    assert(bs >= 1) by {
        vstd::arithmetic::mul::lemma_mul_increases(pow2(h.block_size as nat) as int, step);
    }
    let bx = (h.width + bs - 1) / bs;
    let by = (h.height + bs - 1) / bs;
    assert(bx >= 0 && by >= 0) by {
        vstd::arithmetic::div_mod::lemma_div_pos_is_pos(h.width + bs - 1, bs);
        vstd::arithmetic::div_mod::lemma_div_pos_is_pos(h.height + bs - 1, bs);
    }
    assert(channel_count(h) >= 1) by (nonlinear_arith)
        requires
            h.layers >= 1,
            h.channels >= 1,
            channel_count(h) == h.layers * h.channels,
    ;
    assert(bx * by * channel_count(h) >= 0) by (nonlinear_arith)
        requires
            bx >= 0,
            by >= 0,
            channel_count(h) >= 1,
    ;
}

/// Decoding a level reads back the blocks that coding the level wrote: every
/// sample a block of the level codes comes back, the others stay as they
/// were, and decoding goes on right after the level. The samples the blocks
/// read without coding them must already be right, as the coarser levels
/// put them, and the stream must go on past the level's size table.
pub proof fn lemma_level_roundtrip(
    aux: Seq<i16>,
    a0: Seq<i16>,
    h: Header,
    is_chroma: Seq<bool>,
    step: int,
    e: nat,
    has_dc: bool,
    room: int,
    buffer: Seq<u8>,
    pos: int,
)
    requires
        level_ok(aux.len() as int, h, step, e),
        a0.len() == aux.len(),
        level_reads_agree(aux, a0, h, step, has_dc),
        compress_level(aux, h, is_chroma, step, has_dc, room) is Ok,
        0 <= pos,
        pos + compress_level(aux, h, is_chroma, step, has_dc, room)->Ok_0.len() <= buffer.len(),
        buffer.subrange(pos, pos + compress_level(aux, h, is_chroma, step, has_dc, room)->Ok_0.len())
            == compress_level(aux, h, is_chroma, step, has_dc, room)->Ok_0,
        pos + 4 * level_blocks(h, step) < buffer.len(),
    ensures
        decompress_level(a0, h, is_chroma, buffer, 0, false, step, has_dc, pos) matches LevelOutcome::Go(
            a2,
            p2,
            g,
            t,
        ) && a2 == level_result(aux, a0, h, step, has_dc, level_blocks(h, step)) && p2 == pos
            + compress_level(aux, h, is_chroma, step, has_dc, room)->Ok_0.len() && !t,
{
    reveal(compress_level);
    reveal(decompress_level);
    let bc = level_blocks(h, step);
    let len = aux.len() as int;
    let table = size_table(aux, h, is_chroma, step, has_dc, bc);
    let blocks = blocks_upto(aux, h, is_chroma, step, has_dc, bc);
    let bytes = compress_level(aux, h, is_chroma, step, has_dc, room)->Ok_0;
    assert(bytes == table + blocks);
    lemma_level_chunk_sizes(h, step, e);
    if bc > 0 {
        lemma_size_table_at(aux, h, is_chroma, step, has_dc, bc, 0);
    } else {
        assert(table.len() == 0);
    }
    assert(table.len() == 4 * bc);
    assert(buffer.subrange(pos, pos + 4 * bc) =~= bytes.subrange(0, 4 * bc));
    assert(buffer.subrange(pos + 4 * bc, pos + 4 * bc + blocks.len()) =~= bytes.subrange(
        4 * bc,
        bytes.len() as int,
    ));
    assert(bytes.subrange(0, 4 * bc) =~= table);
    assert(bytes.subrange(4 * bc, bytes.len() as int) =~= blocks);
    assert forall|j: int| 0 <= j < bc implies #[trigger] block_bytes(aux, h, is_chroma, step, has_dc, j).len()
        <= u32::MAX by {
        assert(block_bytes(aux, h, is_chroma, step, has_dc, j).len() <= min_int(
            (room - 4 * bc) / bc,
            u32::MAX as int,
        ));
    }
    assert(level_lies(aux, h, is_chroma, step, has_dc, buffer, pos));
    lemma_table_sum(aux, h, is_chroma, step, has_dc, buffer, pos, bc, bc);
    lemma_no_downsampling(h, step);
    assert(level_result(aux, a0, h, step, has_dc, 0) =~= a0);
    lemma_blocks_from(aux, a0, h, is_chroma, step, e, has_dc, buffer, pos, 0);
    assert(blocks_upto(aux, h, is_chroma, step, has_dc, 0).len() == 0);
}


// ---------------------------------------------------------------------------
// Which level codes a sample.

/// A sample whose coordinates are multiples of the level's step, one of them
/// an odd multiple, is coded by the block of the level that holds it.
#[verifier::rlimit(60)]
pub proof fn lemma_coded_at_level(
    h: Header,
    len: int,
    e: nat,
    has_dc: bool,
    ch: int,
    x: int,
    y: int,
)
    requires
        level_ok(len, h, pow2(e) as int, e),
        h.block_size >= 1,
        0 <= ch < channel_count(h),
        0 <= x < h.width,
        0 <= y < h.height,
        x % (pow2(e) as int) == 0,
        y % (pow2(e) as int) == 0,
        x % (2 * pow2(e) as int) == pow2(e) || y % (2 * pow2(e) as int) == pow2(e),
    ensures
        level_codes(
            len,
            h,
            pow2(e) as int,
            has_dc,
            level_blocks(h, pow2(e) as int),
            ch * (h.width * h.height) + y * h.width + x,
        ),
{
    let t = pow2(e) as int;
    let w = h.width as int;
    let hh = h.height as int;
    let bsz = h.block_size as nat;
    let bs = block_side(h, t);
    vstd::arithmetic::power2::lemma_pow2_pos(e);
    vstd::arithmetic::power2::lemma_pow2_pos(bsz);
    assert(bs == t * pow2(bsz));
    assert(bs >= 1) by {
        vstd::arithmetic::mul::lemma_mul_increases(pow2(bsz) as int, t);
    }
    let k = lemma_chunk_of(w, hh, channel_count(h), bs, ch, x, y);
    lemma_level_chunk(h, len, t, e, k);
    let c = block_chunk(h, len, t, k);
    let qx = x / bs;
    let qy = y / bs;
    let x0 = qx * bs;
    let y0 = qy * bs;
    assert(chunk_position(w, hh, bs, k) == (x0, y0, ch));
    vstd::arithmetic::div_mod::lemma_fundamental_div_mod(x, bs);
    vstd::arithmetic::div_mod::lemma_fundamental_div_mod(y, bs);
    assert(x0 <= x < x0 + bs) by (nonlinear_arith)
        requires
            x == bs * qx + x % bs,
            0 <= x % bs < bs,
            x0 == qx * bs,
    ;
    assert(y0 <= y < y0 + bs) by (nonlinear_arith)
        requires
            y == bs * qy + y % bs,
            0 <= y % bs < bs,
            y0 == qy * bs,
    ;
    lemma_multiple_of_twice(qx, t, bsz);
    lemma_multiple_of_twice(qy, t, bsz);
    assert(x0 % t == 0 && y0 % t == 0) by {
        assert(x0 == (qx * pow2(bsz)) * t) by (nonlinear_arith)
            requires
                x0 == qx * (t * pow2(bsz)),
        ;
        assert(y0 == (qy * pow2(bsz)) * t) by (nonlinear_arith)
            requires
                y0 == qy * (t * pow2(bsz)),
        ;
        vstd::arithmetic::div_mod::lemma_mod_multiples_basic(qx * pow2(bsz), t);
        vstd::arithmetic::div_mod::lemma_mod_multiples_basic(qy * pow2(bsz), t);
    }
    let rx = x - x0;
    let ry = y - y0;
    assert(c.x_range.0 == x0 && c.y_range.0 == y0);
    assert(0 <= rx < size_x(c) && 0 <= ry < size_y(c));
    assert(rx % t == 0 && ry % t == 0) by {
        vstd::arithmetic::div_mod::lemma_mod_sub_multiples_vanish(x, t);
        lemma_sub_multiple(x, x0, t);
        lemma_sub_multiple(y, y0, t);
    }
    lemma_sub_multiple(x, x0, 2 * t);
    lemma_sub_multiple(y, y0, 2 * t);
    vstd::arithmetic::power2::lemma_pow2_strictly_increases(e, 30);
    vstd::arithmetic::power2::lemma2_to64();
    assert(c.step as int == t);
    assert(0 <= ch * (w * hh) <= len) by (nonlinear_arith)
        requires
            0 <= ch < channel_count(h),
            channel_count(h) * (w * hh) <= len,
            w * hh >= 0,
    ;
    assert(c.channel_start as int == ch * (w * hh));
    assert(rx < 0x4000_0000 && ry < 0x4000_0000);
    lemma_step_bit_mod(rx, c);
    lemma_step_bit_mod(ry, c);
    assert(on_step(c, rx, ry));
    let j = lemma_on_step_visited(c, rx, ry);
    assert(sample_index(c, rx, ry) == ch * (w * hh) + y * w + x);
    assert(coded_index(c, block_has_dc(c, has_dc), ch * (w * hh) + y * w + x));
}

/// `a - b` modulo `m` is `a` modulo `m` when `b` is a multiple of `m`.
proof fn lemma_sub_multiple(a: int, b: int, m: int)
    requires
        m >= 1,
        b % m == 0,
    ensures
        (a - b) % m == a % m,
{
    vstd::arithmetic::div_mod::lemma_fundamental_div_mod(b, m);
    vstd::arithmetic::div_mod::lemma_mod_multiples_vanish(-(b / m), a, m);
    assert(a - b == m * (-(b / m)) + a) by (nonlinear_arith)
        requires
            b == m * (b / m) + b % m,
            b % m == 0,
    ;
}

/// The top-left sample of each channel is coded by the first level.
pub proof fn lemma_dc_coded(h: Header, len: int, e: nat, ch: int)
    requires
        level_ok(len, h, pow2(e) as int, e),
        h.block_size >= 1,
        0 <= ch < channel_count(h),
    ensures
        level_codes(len, h, pow2(e) as int, true, level_blocks(h, pow2(e) as int), ch * (h.width * h.height)),
{
    let t = pow2(e) as int;
    let w = h.width as int;
    let hh = h.height as int;
    let bsz = h.block_size as nat;
    let bs = block_side(h, t);
    vstd::arithmetic::power2::lemma_pow2_pos(e);
    vstd::arithmetic::power2::lemma_pow2_pos(bsz);
    assert(bs >= 1) by {
        vstd::arithmetic::mul::lemma_mul_increases(pow2(bsz) as int, t);
    }
    let k = lemma_chunk_of(w, hh, channel_count(h), bs, ch, 0, 0);
    lemma_level_chunk(h, len, t, e, k);
    let c = block_chunk(h, len, t, k);
    assert(0int / bs == 0);
    assert((0int / bs) * bs == 0) by (nonlinear_arith)
        requires
            0int / bs == 0,
    ;
    assert(chunk_position(w, hh, bs, k) == (0int, 0int, ch));
    assert(0 <= ch * (w * hh) <= len) by (nonlinear_arith)
        requires
            0 <= ch < channel_count(h),
            channel_count(h) * (w * hh) <= len,
            w * hh >= 0,
    ;
    assert(c.channel_start as int == ch * (w * hh));
    assert(c.x_range.0 == 0 && c.y_range.0 == 0);
    assert(size_x(c) > 0 && size_y(c) > 0);
    assert(c.y_range.0 as int * c.image_width as int == 0) by (nonlinear_arith)
        requires
            c.y_range.0 == 0,
    ;
    assert(sample_index(c, 0, 0) == ch * (w * hh));
    assert(coded_index(c, block_has_dc(c, true), ch * (w * hh)));
}


/// Whether one of the levels from step `step` down to the levels above step
/// `s` codes the sample at index `m`; `has_dc` for the first of them.
pub open spec fn codes_between(len: int, h: Header, step: int, has_dc: bool, s: int, m: int) -> bool
    decreases (if step > 0 { step } else { 0 }),
{
    if step < 1 || step <= s {
        false
    } else {
        level_codes(len, h, step, has_dc, level_blocks(h, step), m) || codes_between(
            len,
            h,
            step / 2,
            false,
            s,
            m,
        )
    }
}

/// A level between the coarsest and the levels above `s` that codes `m`
/// makes `m` coded between them.
proof fn lemma_in_between(len: int, h: Header, e: nat, d: bool, i: nat, s: int, m: int)
    requires
        i <= e,
        pow2(i) > s,
        i == e ==> level_codes(len, h, pow2(e) as int, d, level_blocks(h, pow2(e) as int), m),
        i < e ==> level_codes(len, h, pow2(i) as int, false, level_blocks(h, pow2(i) as int), m),
    ensures
        codes_between(len, h, pow2(e) as int, d, s, m),
    decreases e,
{
    vstd::arithmetic::power2::lemma_pow2_pos(e);
    if i < e {
        vstd::arithmetic::power2::lemma_pow2_strictly_increases(i, e);
        vstd::arithmetic::power2::lemma_pow2_unfold(e);
        assert(pow2(e) as int / 2 == pow2((e - 1) as nat));
        lemma_in_between(len, h, (e - 1) as nat, false, i, s, m);
    }
}

/// What a block reads without coding it, a coarser level coded: the
/// coarsest level its top-left sample, the others the rest.
#[verifier::rlimit(60)]
pub proof fn lemma_reads_coarser(h: Header, len: int, e: nat, i: nat, k: int, m: int)
    requires
        level_ok(len, h, pow2(e) as int, e),
        h.block_size >= 1,
        top_step(h.width as int, h.height as int) == pow2(e),
        2 * pow2(e) >= h.width,
        2 * pow2(e) >= h.height,
        i <= e,
        0 <= k < level_blocks(h, pow2(i) as int),
        context_reads(block_chunk(h, len, pow2(i) as int, k), m),
        !coded_index(
            block_chunk(h, len, pow2(i) as int, k),
            block_has_dc(block_chunk(h, len, pow2(i) as int, k), i == e),
            m,
        ),
    ensures
        codes_between(len, h, pow2(e) as int, true, pow2(i) as int, m),
{
    let t = pow2(i) as int;
    let w = h.width as int;
    let hh = h.height as int;
    let bsz = h.block_size as nat;
    let bs = block_side(h, t);
    vstd::arithmetic::power2::lemma_pow2_pos(i);
    vstd::arithmetic::power2::lemma_pow2_pos(bsz);
    vstd::arithmetic::power2::lemma_pow2_strictly_increases(i, 30);
    vstd::arithmetic::power2::lemma2_to64();
    if i < e {
        vstd::arithmetic::power2::lemma_pow2_strictly_increases(i, e);
    }
    assert(level_ok(len, h, t, i));
    lemma_level_chunk(h, len, t, i, k);
    let c = block_chunk(h, len, t, k);
    let dcf = block_has_dc(c, i == e);
    let a = lemma_read_not_coded(c, dcf, m);
    let (ax, ay) = a;
    let (x0, y0, ch) = chunk_position(w, hh, bs, k);
    super::layout::lemma_next_position(w, hh, bs, k);
    super::layout::lemma_position_channel(w, hh, channel_count(h), bs, k);
    assert(w * hh >= 1) by (nonlinear_arith)
        requires
            w >= 1,
            hh >= 1,
    ;
    assert(channel_count(h) <= len) by (nonlinear_arith)
        requires
            channel_count(h) * (w * hh) <= len,
            w * hh >= 1,
            channel_count(h) >= 0,
    ;
    assert(0 <= ch < channel_count(h));
    assert(c.x_range.0 == x0 && c.y_range.0 == y0 && c.channel == ch);
    assert(c.step as int == t);
    let x = x0 + ax;
    let y = y0 + ay;
    assert(0 <= x < w && 0 <= y < hh);
    vstd::arithmetic::div_mod::lemma_fundamental_div_mod(k, bs);
    let bx = super::layout::chunks_along(w, bs);
    let per = bx * super::layout::chunks_along(hh, bs);
    let r = k % per;
    lemma_multiple_of_twice(r % bx, t, bsz);
    lemma_multiple_of_twice(r / bx, t, bsz);
    assert(x0 % (2 * t) == 0 && y0 % (2 * t) == 0);
    assert(x % (2 * t) == 0 && y % (2 * t) == 0) by {
        lemma_sub_multiple(x, x0, 2 * t);
        lemma_sub_multiple(y, y0, 2 * t);
    }
    assert(0 <= ch * (w * hh) <= len) by (nonlinear_arith)
        requires
            0 <= ch < channel_count(h),
            channel_count(h) * (w * hh) <= len,
            w * hh >= 0,
    ;
    assert(c.channel_start as int == ch * (w * hh));
    assert(m == ch * (w * hh) + y * w + x);
    vstd::arithmetic::power2::lemma_pow2_unfold(i + 1);
    if x == 0 && y == 0 {
        assert(x0 == 0 && y0 == 0 && ax == 0 && ay == 0);
        if i == e {
            assert(coded_index(c, dcf, m));
        }
        lemma_dc_coded(h, len, e, ch);
        assert(ch * (w * hh) + y * w + x == ch * (w * hh)) by (nonlinear_arith)
            requires
                x == 0,
                y == 0,
        ;
        lemma_in_between(len, h, e, true, e, t, m);
    } else {
        if i == e {
            vstd::arithmetic::div_mod::lemma_fundamental_div_mod(x, 2 * t);
            vstd::arithmetic::div_mod::lemma_fundamental_div_mod(y, 2 * t);
            assert(x == 0) by (nonlinear_arith)
                requires
                    x == (2 * t) * (x / (2 * t)),
                    0 <= x < 2 * t,
                    t >= 1,
            ;
            assert(y == 0) by (nonlinear_arith)
                requires
                    y == (2 * t) * (y / (2 * t)),
                    0 <= y < 2 * t,
                    t >= 1,
            ;
        }
        assert(pow2(i + 1) == 2 * t);
        let i2 = lemma_position_level(x, y, i + 1, e);
        lemma_coded_at_level(h, len, i2, i2 == e, ch, x, y);
        vstd::arithmetic::power2::lemma_pow2_strictly_increases(i, i2);
        lemma_in_between(len, h, e, true, i2, t, m);
    }
}


/// Every sample of the channels is coded by some level.
pub proof fn lemma_covered(h: Header, len: int, e: nat, m: int)
    requires
        level_ok(len, h, pow2(e) as int, e),
        h.block_size >= 1,
        2 * pow2(e) >= h.width,
        2 * pow2(e) >= h.height,
        0 <= m < channel_count(h) * (h.width * h.height),
    ensures
        codes_between(len, h, pow2(e) as int, true, 0, m),
{
    let w = h.width as int;
    let hh = h.height as int;
    let cs = w * hh;
    assert(cs >= 1) by (nonlinear_arith)
        requires
            w >= 1,
            hh >= 1,
            cs == w * hh,
    ;
    vstd::arithmetic::div_mod::lemma_fundamental_div_mod(m, cs);
    let ch = m / cs;
    let rem = m % cs;
    vstd::arithmetic::div_mod::lemma_fundamental_div_mod(rem, w);
    let y = rem / w;
    let x = rem % w;
    assert(0 <= ch < channel_count(h)) by (nonlinear_arith)
        requires
            m == cs * ch + rem,
            0 <= rem < cs,
            0 <= m < channel_count(h) * cs,
            cs >= 1,
    ;
    assert(0 <= y < hh) by (nonlinear_arith)
        requires
            rem == w * y + x,
            0 <= x < w,
            0 <= rem < w * hh,
            w >= 1,
    ;
    assert(m == ch * cs + y * w + x) by (nonlinear_arith)
        requires
            m == cs * ch + rem,
            rem == w * y + x,
    ;
    vstd::arithmetic::power2::lemma_pow2_pos(e);
    vstd::arithmetic::power2::lemma2_to64();
    if x == 0 && y == 0 {
        lemma_dc_coded(h, len, e, ch);
        lemma_in_between(len, h, e, true, e, 0, m);
    } else {
        assert(pow2(0) == 1);
        assert(x % 1 == 0 && y % 1 == 0);
        assert(x % (pow2(0) as int) == 0 && y % (pow2(0) as int) == 0);
        let i = lemma_position_level(x, y, 0, e);
        vstd::arithmetic::power2::lemma_pow2_pos(i);
        vstd::arithmetic::power2::lemma_pow2_strictly_increases(i, 30);
        lemma_coded_at_level(h, len, i, i == e, ch, x, y);
        lemma_in_between(len, h, e, true, i, 0, m);
    }
}

/// Every level codes some sample: the first level at least the top-left
/// sample, the others a sample on their step.
proof fn lemma_level_codes_some(h: Header, len: int, e: nat, i: nat) -> (m: int)
    requires
        level_ok(len, h, pow2(e) as int, e),
        h.block_size >= 1,
        e == 0 || pow2(e) < h.width || pow2(e) < h.height,
        i <= e,
    ensures
        level_codes(len, h, pow2(i) as int, i == e, level_blocks(h, pow2(i) as int), m),
{
    let t = pow2(i) as int;
    vstd::arithmetic::power2::lemma_pow2_pos(i);
    vstd::arithmetic::power2::lemma_pow2_strictly_increases(i, 30);
    vstd::arithmetic::power2::lemma2_to64();
    if i < e {
        vstd::arithmetic::power2::lemma_pow2_strictly_increases(i, e);
    }
    vstd::arithmetic::div_mod::lemma_mod_self_0(t);
    vstd::arithmetic::div_mod::lemma_small_mod(0, t as nat);
    vstd::arithmetic::div_mod::lemma_small_mod(t as nat, (2 * t) as nat);
    vstd::arithmetic::div_mod::lemma_small_mod(0, (2 * t) as nat);
    assert(channel_count(h) >= 1) by (nonlinear_arith)
        requires
            h.layers >= 1,
            h.channels >= 1,
            channel_count(h) == h.layers * h.channels,
    ;
    if t < h.width {
        lemma_coded_at_level(h, len, i, i == e, 0, t, 0);
        0 * (h.width * h.height) + 0 * h.width + t
    } else if t < h.height {
        lemma_coded_at_level(h, len, i, i == e, 0, 0, t);
        0 * (h.width * h.height) + t * h.width + 0
    } else {
        assert(i == e && e == 0);
        assert(channel_count(h) >= 1) by (nonlinear_arith)
            requires
                h.layers >= 1,
                h.channels >= 1,
                channel_count(h) == h.layers * h.channels,
        ;
        lemma_dc_coded(h, len, e, 0);
        0 * (h.width * h.height)
    }
}

/// Going one level finer adds that level's samples.
proof fn lemma_between_split(len: int, h: Header, e: nat, d: bool, i: nat, m: int)
    requires
        i <= e,
    ensures
        codes_between(len, h, pow2(e) as int, d, pow2(i) as int / 2, m) == (codes_between(
            len,
            h,
            pow2(e) as int,
            d,
            pow2(i) as int,
            m,
        ) || level_codes(
            len,
            h,
            pow2(i) as int,
            if i == e {
                d
            } else {
                false
            },
            level_blocks(h, pow2(i) as int),
            m,
        )),
    decreases e,
{
    vstd::arithmetic::power2::lemma_pow2_pos(e);
    vstd::arithmetic::power2::lemma_pow2_pos(i);
    let t = pow2(e) as int;
    if i == e {
        if e >= 1 {
            vstd::arithmetic::power2::lemma_pow2_unfold(e);
            vstd::arithmetic::power2::lemma_pow2_pos((e - 1) as nat);
        } else {
            vstd::arithmetic::power2::lemma2_to64();
        }
        assert(!codes_between(len, h, t / 2, false, t / 2, m));
    } else {
        vstd::arithmetic::power2::lemma_pow2_strictly_increases(i, e);
        vstd::arithmetic::power2::lemma_pow2_unfold(e);
        assert(t / 2 == pow2((e - 1) as nat));
        lemma_between_split(len, h, (e - 1) as nat, false, i, m);
    }
}


/// A level that codes a sample has block bytes past its size table.
proof fn lemma_level_has_bytes(
    aux: Seq<i16>,
    h: Header,
    is_chroma: Seq<bool>,
    e: nat,
    has_dc: bool,
    m: int,
)
    requires
        level_ok(aux.len() as int, h, pow2(e) as int, e),
        level_codes(aux.len() as int, h, pow2(e) as int, has_dc, level_blocks(h, pow2(e) as int), m),
    ensures
        blocks_upto(aux, h, is_chroma, pow2(e) as int, has_dc, level_blocks(h, pow2(e) as int)).len() >= 4,
{
    let t = pow2(e) as int;
    let len = aux.len() as int;
    let bc = level_blocks(h, t);
    let k = choose|k: int|
        0 <= k < bc && #[trigger] coded_index(
            block_chunk(h, len, t, k),
            block_has_dc(block_chunk(h, len, t, k), has_dc),
            m,
        );
    let c = block_chunk(h, len, t, k);
    lemma_level_chunk(h, len, t, e, k);
    lemma_coded_bits_nonempty(
        c,
        aux,
        h.encoder,
        plane_quality(h, is_chroma[c.channel as int]),
        block_has_dc(c, has_dc),
        is_chroma[c.channel as int],
        m,
    );
    lemma_block_bytes(aux, h, is_chroma, t, has_dc, k);
    lemma_blocks_prefix(aux, h, is_chroma, t, has_dc, bc, k + 1);
}

/// The samples after the levels from the coarsest down to the levels above
/// `s` were decoded into `a0`: what they code comes from `aux`.
pub open spec fn levels_result(aux: Seq<i16>, a0: Seq<i16>, h: Header, top: int, s: int) -> Seq<i16> {
    Seq::new(
        aux.len(),
        |m: int|
            if codes_between(aux.len() as int, h, top, true, s, m) {
                aux[m]
            } else {
                a0[m]
            },
    )
}

/// Decoding the levels from step `2^i` on reads back what coding them
/// wrote.
#[verifier::rlimit(100)]
#[verifier::spinoff_prover]
proof fn lemma_levels_from(
    aux: Seq<i16>,
    a0: Seq<i16>,
    h: Header,
    is_chroma: Seq<bool>,
    e: nat,
    i: int,
    room: int,
    buffer: Seq<u8>,
    pos: int,
    guess: int,
)
    requires
        level_ok(aux.len() as int, h, pow2(e) as int, e),
        h.block_size >= 1,
        top_step(h.width as int, h.height as int) == pow2(e),
        2 * pow2(e) >= h.width,
        2 * pow2(e) >= h.height,
        e == 0 || pow2(e) < h.width || pow2(e) < h.height,
        a0.len() == aux.len(),
        -1 <= i <= e,
        compress_levels(aux, h, is_chroma, if i >= 0 { pow2(i as nat) as int } else { 0 }, i == e, room) is Ok,
        0 <= pos,
        pos + compress_levels(
            aux,
            h,
            is_chroma,
            if i >= 0 { pow2(i as nat) as int } else { 0 },
            i == e,
            room,
        )->Ok_0.len() <= buffer.len(),
        buffer.subrange(
            pos,
            pos + compress_levels(
                aux,
                h,
                is_chroma,
                if i >= 0 { pow2(i as nat) as int } else { 0 },
                i == e,
                room,
            )->Ok_0.len(),
        ) == compress_levels(aux, h, is_chroma, if i >= 0 { pow2(i as nat) as int } else { 0 }, i == e, room)->Ok_0,
    ensures
        decompress_levels(
            levels_result(aux, a0, h, pow2(e) as int, if i >= 0 { pow2(i as nat) as int } else { 0 }),
            h,
            is_chroma,
            buffer,
            0,
            false,
            if i >= 0 { pow2(i as nat) as int } else { 0 },
            i == e,
            pos,
            guess,
            false,
        ) == Some((levels_result(aux, a0, h, pow2(e) as int, 0), 0int)),
    decreases i + 1,
{
    let len = aux.len() as int;
    let top = pow2(e) as int;
    vstd::arithmetic::power2::lemma2_to64();
    if i < 0 {
    } else {
        let iu = i as nat;
        let step = pow2(iu) as int;
        let has_dc = i == e;
        let a = levels_result(aux, a0, h, top, step);
        vstd::arithmetic::power2::lemma_pow2_pos(iu);
        vstd::arithmetic::power2::lemma_pow2_strictly_increases(iu, 30);
        if iu < e {
            vstd::arithmetic::power2::lemma_pow2_strictly_increases(iu, e);
        }
        assert(level_ok(len, h, step, iu));
        let b = compress_level(aux, h, is_chroma, step, has_dc, room)->Ok_0;
        let rest = compress_levels(aux, h, is_chroma, step / 2, false, room - b.len())->Ok_0;
        assert(compress_levels(aux, h, is_chroma, step, has_dc, room)->Ok_0 == b + rest);
        assert(buffer.subrange(pos, pos + b.len()) =~= (b + rest).subrange(0, b.len() as int));
        assert((b + rest).subrange(0, b.len() as int) =~= b);
        // The level reads only what the coarser levels wrote.
        assert forall|k: int, m: int|
            0 <= k < level_blocks(h, step) && 0 <= m < aux.len() && context_reads(
                block_chunk(h, aux.len() as int, step, k),
                m,
            ) && !#[trigger] coded_index(
                block_chunk(h, aux.len() as int, step, k),
                block_has_dc(block_chunk(h, aux.len() as int, step, k), has_dc),
                m,
            ) implies a[m] == aux[m] by {
            lemma_reads_coarser(h, len, e, iu, k, m);
        }
        // The level has bytes past its size table.
        let m0 = lemma_level_codes_some(h, len, e, iu);
        lemma_level_has_bytes(aux, h, is_chroma, iu, has_dc, m0);
        reveal(compress_level);
        lemma_level_chunk_sizes(h, step, iu);
        if level_blocks(h, step) > 0 {
            lemma_size_table_at(aux, h, is_chroma, step, has_dc, level_blocks(h, step), 0);
        }
        lemma_level_roundtrip(aux, a, h, is_chroma, step, iu, has_dc, room, buffer, pos);
        let a2 = level_result(aux, a, h, step, has_dc, level_blocks(h, step));
        // After the level, the levels down to this one are done.
        assert forall|m: int| 0 <= m < len implies a2[m] == levels_result(aux, a0, h, top, step / 2)[m] by {
            lemma_between_split(len, h, e, true, iu, m);
        }
        assert(a2 =~= levels_result(aux, a0, h, top, step / 2));
        lemma_no_downsampling(h, step);
        let next_i = i - 1;
        if iu >= 1 {
            vstd::arithmetic::power2::lemma_pow2_unfold(iu);
            assert(step / 2 == pow2((iu - 1) as nat));
        } else {
            assert(step / 2 == 0);
        }
        let g2 = match decompress_level(a, h, is_chroma, buffer, 0, false, step, has_dc, pos) {
            LevelOutcome::Go(_, _, g, _) => g,
            _ => 0,
        };
        let whole = buffer.subrange(pos, pos + b.len() + rest.len());
        assert(buffer.subrange(pos + b.len(), pos + b.len() + rest.len()) =~= whole.subrange(
            b.len() as int,
            (b.len() + rest.len()) as int,
        ));
        assert((b + rest).subrange(b.len() as int, (b.len() + rest.len()) as int) =~= rest);
        lemma_levels_from(aux, a0, h, is_chroma, e, next_i, room - b.len(), buffer, pos + b.len(), g2);
    }
}


/// The levels code only samples of the channels.
proof fn lemma_between_in_channels(len: int, h: Header, e: nat, step: int, d: bool, s: int, m: int)
    requires
        level_ok(len, h, pow2(e) as int, e),
        h.block_size >= 1,
        step == 0 || exists|i: nat| i <= e && step == pow2(i),
        codes_between(len, h, step, d, s, m),
    ensures
        0 <= m < channel_count(h) * (h.width * h.height),
    decreases (if step > 0 { step } else { 0 }),
{
    let i = choose|i: nat| i <= e && step == pow2(i);
    vstd::arithmetic::power2::lemma_pow2_pos(i);
    vstd::arithmetic::power2::lemma_pow2_strictly_increases(i, 30);
    vstd::arithmetic::power2::lemma2_to64();
    if level_codes(len, h, step, d, level_blocks(h, step), m) {
        let k = choose|k: int|
            0 <= k < level_blocks(h, step) && #[trigger] coded_index(
                block_chunk(h, len, step, k),
                block_has_dc(block_chunk(h, len, step, k), d),
                m,
            );
        assert(level_ok(len, h, step, i));
        lemma_level_chunk(h, len, step, i, k);
        let c = block_chunk(h, len, step, k);
        let w = h.width as int;
        let hh = h.height as int;
        let bs = block_side(h, step);
        super::layout::lemma_next_position(w, hh, bs, k);
        super::layout::lemma_position_channel(w, hh, channel_count(h), bs, k);
        let ch = chunk_position(w, hh, bs, k).2;
        assert(w * hh >= 1) by (nonlinear_arith)
            requires
                w >= 1,
                hh >= 1,
        ;
        assert(0 <= ch * (w * hh) <= len) by (nonlinear_arith)
            requires
                0 <= ch < channel_count(h),
                channel_count(h) * (w * hh) <= len,
                w * hh >= 0,
        ;
        assert(channel_count(h) <= len) by (nonlinear_arith)
            requires
                channel_count(h) * (w * hh) <= len,
                w * hh >= 1,
                channel_count(h) >= 0,
        ;
        assert(c.channel_start as int == ch * (w * hh));
        let (x, y) = if codes_dc_at(c, block_has_dc(c, d), m) {
            (0int, 0int)
        } else {
            let j = choose|j: int|
                0 <= j < crate::encode::lossless::pass_positions(c, 0).len() && sample_index(
                    c,
                    (#[trigger] crate::encode::lossless::pass_positions(c, 0)[j]).0,
                    crate::encode::lossless::pass_positions(c, 0)[j].1,
                ) == m;
            crate::encode::lossless::lemma_pass_positions(c, 0);
            crate::encode::lossless::pass_positions(c, 0)[j]
        };
        assert(0 <= x < size_x(c) && 0 <= y < size_y(c));
        assert(m == sample_index(c, x, y));
        let row = c.y_range.0 + y;
        let col = c.x_range.0 + x;
        assert(0 <= row < hh && 0 <= col < w);
        assert(0 <= ch * (w * hh) + row * w + col < (ch + 1) * (w * hh)) by (nonlinear_arith)
            requires
                0 <= row < hh,
                0 <= col < w,
                ch >= 0,
        ;
        assert((ch + 1) * (w * hh) <= channel_count(h) * (w * hh)) by (nonlinear_arith)
            requires
                ch + 1 <= channel_count(h),
                w * hh >= 0,
        ;
    } else {
        if i >= 1 {
            vstd::arithmetic::power2::lemma_pow2_unfold(i);
            assert(step / 2 == pow2((i - 1) as nat));
        }
        lemma_between_in_channels(len, h, e, step / 2, false, s, m);
    }
}

/// Whether `m` is the top-left sample a chunk codes.
pub open spec fn codes_dc_at(c: ImageChunkMut, has_dc: bool, m: int) -> bool {
    has_dc && size_x(c) > 0 && size_y(c) > 0 && m == sample_index(c, 0, 0)
}

/// Decoding the coded levels of an image gives back every sample of its
/// channels: whatever the samples held before, the decoder writes each
/// sample that coding the levels coded, and those are all the samples of
/// the channels; the samples after the channels stay, and the decoder asks
/// for no more bytes.
pub proof fn lemma_levels_roundtrip(
    aux: Seq<i16>,
    a0: Seq<i16>,
    h: Header,
    is_chroma: Seq<bool>,
    room: int,
    buffer: Seq<u8>,
    guess: int,
)
    requires
        image_codable(h),
        h.block_size >= 1,
        channel_count(h) * (h.width * h.height) <= aux.len() <= usize::MAX,
        a0.len() == aux.len(),
        compress_levels(aux, h, is_chroma, top_step(h.width as int, h.height as int), true, room) is Ok,
        compress_levels(aux, h, is_chroma, top_step(h.width as int, h.height as int), true, room)->Ok_0.len()
            <= buffer.len(),
        buffer.subrange(
            0,
            compress_levels(aux, h, is_chroma, top_step(h.width as int, h.height as int), true, room)->Ok_0.len()
                as int,
        ) == compress_levels(aux, h, is_chroma, top_step(h.width as int, h.height as int), true, room)->Ok_0,
    ensures
        decompress_levels(
            a0,
            h,
            is_chroma,
            buffer,
            0,
            false,
            top_step(h.width as int, h.height as int),
            true,
            0,
            guess,
            false,
        ) matches Some((r, v)) && v == 0 && r.len() == aux.len() && (forall|m: int|
            0 <= m < channel_count(h) * (h.width * h.height) ==> #[trigger] r[m] == aux[m]) && (forall|m: int|
            channel_count(h) * (h.width * h.height) <= m < aux.len() ==> #[trigger] r[m] == a0[m]),
{
    let e = lemma_top(h.width as int, h.height as int);
    let top = pow2(e) as int;
    let len = aux.len() as int;
    vstd::arithmetic::power2::lemma_pow2_pos(e);
    assert(levels_result(aux, a0, h, top, top) =~= a0);
    lemma_levels_from(aux, a0, h, is_chroma, e, e as int, room, buffer, 0, guess);
    let r = levels_result(aux, a0, h, top, 0);
    assert forall|m: int| 0 <= m < channel_count(h) * (h.width * h.height) implies #[trigger] r[m] == aux[m] by {
        lemma_covered(h, len, e, m);
    }
    assert forall|m: int| channel_count(h) * (h.width * h.height) <= m < aux.len() implies #[trigger] r[m] == a0[m] by {
        if codes_between(len, h, top, true, 0, m) {
            lemma_between_in_channels(len, h, e, top, true, 0, m);
        }
    }
}


/// At full quality, decompressing what `compress_aux_data` coded gives the
/// planar samples back: the levels decode to the lifted samples, and
/// dequantizing and unlifting them undoes the lifting and quantizing.
pub proof fn lemma_aux_lossless(
    aux: Seq<i16>,
    a0: Seq<i16>,
    h: Header,
    is_chroma: Seq<bool>,
    room: int,
    data: Seq<u8>,
    guess: int,
)
    requires
        image_codable(h),
        h.block_size >= 1,
        is_chroma.len() == channel_count(h),
        forall|c: int| 0 <= c < is_chroma.len() ==> full_quality(h, #[trigger] is_chroma[c]),
        channel_count(h) * (h.width * h.height) <= aux.len() <= usize::MAX,
        a0.len() == aux.len(),
        compress_levels(
            lifted_image(aux, h, is_chroma),
            h,
            is_chroma,
            top_step(h.width as int, h.height as int),
            true,
            room,
        ) is Ok,
        compress_levels(
            lifted_image(aux, h, is_chroma),
            h,
            is_chroma,
            top_step(h.width as int, h.height as int),
            true,
            room,
        )->Ok_0.len() <= data.len(),
        data.subrange(
            0,
            compress_levels(
                lifted_image(aux, h, is_chroma),
                h,
                is_chroma,
                top_step(h.width as int, h.height as int),
                true,
                room,
            )->Ok_0.len() as int,
        ) == compress_levels(
            lifted_image(aux, h, is_chroma),
            h,
            is_chroma,
            top_step(h.width as int, h.height as int),
            true,
            room,
        )->Ok_0,
    ensures
        decompress_levels(
            a0,
            h,
            is_chroma,
            data,
            0,
            false,
            top_step(h.width as int, h.height as int),
            true,
            0,
            guess,
            false,
        ) matches Some((r, v)) && v == 0 && r.len() == aux.len() && forall|m: int|
            0 <= m < channel_count(h) * (h.width * h.height) ==> #[trigger] unlifted_image(r, h, is_chroma, 0)[m]
                == aux[m],
{
    let l = lifted_image(aux, h, is_chroma);
    let w = h.width as int;
    let cs = h.width * h.height;
    let n = channel_count(h);
    assert(l.len() == aux.len());
    lemma_levels_roundtrip(l, a0, h, is_chroma, room, data, guess);
    lemma_image_lossless(aux, h, is_chroma);
    let r = decompress_levels(a0, h, is_chroma, data, 0, false, top_step(w, h.height as int), true, 0, guess, false)->Some_0.0;
    lemma_no_downsampling(h, 1);
    assert(cs >= 1) by (nonlinear_arith)
        requires
            h.width >= 1,
            h.height >= 1,
            cs == h.width * h.height,
    ;
    assert forall|m: int| 0 <= m < n * cs implies #[trigger] unlifted_image(r, h, is_chroma, 0)[m] == aux[m] by {
        let c = m / cs;
        vstd::arithmetic::div_mod::lemma_fundamental_div_mod(m, cs);
        assert(0 <= c < n) by (nonlinear_arith)
            requires
                0 <= m < n * cs,
                m == cs * c + m % cs,
                0 <= m % cs < cs,
                cs >= 1,
        ;
        assert(c * cs + cs <= n * cs) by (nonlinear_arith)
            requires
                c < n,
                cs >= 0,
        ;
        assert(0 <= c * cs) by (nonlinear_arith)
            requires
                c >= 0,
                cs >= 0,
        ;
        assert(plane(r, cs, c) =~= plane(l, cs, c));
        assert(unlifted_image(r, h, is_chroma, 0)[m] == unlifted_image(l, h, is_chroma, 0)[m]);
    }
}

} // verus!
