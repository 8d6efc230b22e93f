//! GFWX, a fast lossy and lossless image codec: a reversible wavelet
//! transform, scalar quantization and adaptive Golomb-Rice coding of the
//! coefficients, block by block, with an optional linear transform between
//! the channels of the image.
use vstd::prelude::*;

pub mod bits;
pub mod byte_order;
pub mod color_transform;
pub mod compress;
pub mod config;
pub mod encode;
pub mod errors;
pub mod header;
pub mod lifting;
pub mod processing;
pub mod quant;
pub mod roundtrip;

pub use crate::color_transform::{
    interleaved_to_planar, planar_to_interleaved, ChannelTransform, ChannelTransformBuilder,
    ColorTransformProgram,
};
pub use crate::compress::{compress_aux_data, decompress_aux_data};
pub use crate::errors::{CompressError, DecompressError};
pub use crate::header::builder::HeaderBuilder;
pub use crate::header::{
    Encoder, Filter, Header, Intent, Quantization, BLOCK_DEFAULT, BLOCK_MAX, QUALITY_MAX,
};

use crate::bits::{lemma_padded_words, padded_words, stream_bits, word_padding};
use crate::color_transform::program::{
    chroma_flags, codable, lemma_chroma_flags_len, lemma_parse_program_end, mark_chroma,
    padded_bytes, parse_program, program_bits, ProgramParse,
};
use crate::color_transform::transform::{
    runnable, source_index, to_u8, transform_ok, transform_spec, undo_transforms, Layout,
};
use crate::compress::image_data::{
    block_side, channel_count, compress_levels, decompress_levels, image_codable,
    CompressFailure,
};
use crate::compress::layout::top_step;
use crate::compress::{dequantize_ok, lifted_image, unlifted_image};
use crate::errors::write_zero_error;
use crate::header::{
    boost_of, downsampled, encodable, header_bytes, sizes_consistent, sizes_fit,
};
use crate::processing::image::min_int;
use vstd::arithmetic::power2::pow2;

verus! {

/// The header and the color transform program that start a coded image.
pub open spec fn service_bytes(h: Header, ts: Seq<crate::color_transform::program::TransformSpec>) -> Seq<u8> {
    header_bytes(h) + padded_words(program_bits(ts))
}

/// Writes `bytes` at the start of `buffer`.
fn put_front(buffer: &mut [u8], bytes: &Vec<u8>)
    requires
        bytes.len() <= old(buffer).len(),
    ensures
        final(buffer)@.len() == old(buffer)@.len(),
        final(buffer)@.subrange(0, bytes@.len() as int) == bytes@,
{
    let mut i: usize = 0;
    while i < bytes.len()
        invariant
            i <= bytes@.len(),
            bytes.len() <= buffer.len(),
            buffer@.len() == old(buffer)@.len(),
            buffer@.subrange(0, i as int) == bytes@.subrange(0, i as int),
        decreases bytes@.len() - i,
    {
        buffer[i] = bytes[i];
        i = i + 1;
        assert(buffer@.subrange(0, i as int) =~= bytes@.subrange(0, i as int));
    }
    assert(bytes@.subrange(0, bytes@.len() as int) =~= bytes@);
}

/// Compresses an interleaved 8-bit image of `header`'s shape into `buffer`:
/// the header, the color transform program, then the image transformed by
/// the program, lifted, quantized and coded.  Returns the number of bytes
/// written.  A buffer too small for the header and the program gets as many
/// of their bytes as it holds, and an I/O error is returned.
pub fn compress_simple(
    image: &[u8],
    header: &Header,
    color_transform: &ColorTransformProgram,
    buffer: &mut [u8],
) -> (r: Result<usize, CompressError>)
    requires
        encodable(*header),
        sizes_consistent(*header),
        image_codable(*header),
        header.width * header.height <= usize::MAX / 4,
        codable(color_transform.transforms(), (header.channels * header.layers) as nat),
        transform_ok(color_transform.transforms(), *header, image@.len(), header.image_size as nat, true),
    ensures
        final(buffer)@.len() == old(buffer)@.len(),
        ({
            let n = (header.channels * header.layers) as nat;
            let ts = color_transform.transforms();
            let service = service_bytes(*header, ts);
            if service.len() > old(buffer)@.len() {
                r matches Err(CompressError::IOErr(_)) && final(buffer)@ == service.subrange(0, old(buffer)@.len() as int)
            } else {
                let planar = transform_spec(
                    Seq::new(header.image_size as nat, |i: int| 0i16),
                    image@,
                    Layout { interleaved: true, channels: header.channels as int, cs: header.width * header.height },
                    ts,
                    n,
                    boost_of(*header),
                );
                let is_chroma = chroma_flags(ts, n);
                let aux = lifted_image(planar, *header, is_chroma);
                let top = top_step(header.width as int, header.height as int);
                if block_side(*header, top) > usize::MAX {
                    r matches Err(CompressError::Overflow)
                } else {
                    match compress_levels(aux, *header, is_chroma, top, true, old(buffer)@.len() - service.len()) {
                        Ok(b) => r matches Ok(m) && m == service.len() + b.len() && final(buffer)@.subrange(0, m as int)
                            == service + b,
                        Err(CompressFailure::BufferTooSmall) => r matches Err(CompressError::Overflow),
                        Err(CompressFailure::BlockTooLarge) => r matches Err(CompressError::IOErr(_)),
                    }
                }
            }
        }),
{
    let ghost ts = color_transform.transforms();
    let ghost n = (header.channels * header.layers) as nat;
    let mut head: Vec<u8> = Vec::new();
    let _ = header.encode(&mut head);
    let ghost after_header = head@;
    proof {
        assert(header.channels * header.layers <= 0xffff * 0xffff) by (nonlinear_arith)
            requires
                header.channels <= 0xffff,
                header.layers <= 0xffff,
        ;
    }
    let channels = header.channels as usize * header.layers as usize;
    let is_chroma = match color_transform.encode(channels, &mut head) {
        Ok(v) => v,
        Err(e) => {
            return Err(CompressError::IOErr(e));
        },
    };
    proof {
        let new_bytes = head@.subrange(after_header.len() as int, head@.len() as int);
        lemma_padded_words(new_bytes, program_bits(ts));
        assert(head@.subrange(0, after_header.len() as int) == after_header);
        assert(head@ =~= head@.subrange(0, after_header.len() as int) + new_bytes);
        assert(head@ == service_bytes(*header, ts));
        lemma_chroma_flags_len(ts, n);
    }
    if head.len() > buffer.len() {
        let mut i: usize = 0;
        while i < buffer.len()
            invariant
                buffer.len() <= head@.len(),
                i <= buffer@.len(),
                buffer@.len() == old(buffer)@.len(),
                forall|j: int| 0 <= j < i ==> buffer@[j] == head@[j],
            decreases buffer@.len() - i,
        {
            buffer[i] = head[i];
            i = i + 1;
        }
        assert(buffer@ =~= head@.subrange(0, buffer@.len() as int));
        return Err(CompressError::IOErr(write_zero_error()));
    }
    let service_len = head.len();
    put_front(buffer, &head);
    let mut aux: Vec<i16> = vec![0i16; header.get_image_size()];
    proof {
        assert(aux@ =~= Seq::new(header.image_size as nat, |i: int| 0i16));
    }
    color_transform.transform_and_to_planar(image, header, aux.as_mut_slice());
    let ghost planar = aux@;
    let ghost b_front = buffer@.subrange(0, service_len as int);
    proof {
        assert(channel_count(*header) == header.channels * header.layers) by (nonlinear_arith);
        assert(channel_count(*header) * (header.width * header.height) == header.image_size) by (nonlinear_arith)
            requires
                header.image_size == header.width * header.height * header.channels * header.layers,
                channel_count(*header) == header.channels * header.layers,
        ;
    }
    let (front, rest) = buffer.split_at_mut(service_len);
    let res = compress_aux_data(aux.as_mut_slice(), header, is_chroma.as_slice(), rest);
    proof {
        assert(front@ == b_front);
    }
    match res {
        Ok(size) => {
            proof {
                assert(buffer@.subrange(0, (service_len + size) as int) =~= b_front + buffer@.subrange(
                    service_len as int,
                    service_len + size,
                ));
                assert(buffer@.subrange(service_len as int, service_len + size) =~= rest@.subrange(0, size as int));
            }
            Ok(service_len + size)
        },
        Err(e) => Err(e),
    }
}

/// Decompresses `data` (a color transform program followed by the coded
/// image of `header`, downsampled `downsampling` times) into an interleaved
/// 8-bit image in `buffer`: the image is decoded, dequantized and unlifted
/// (unless this is a test), the program is undone, and every sample is
/// unboosted and clamped to a byte.  Returns what the decoding of the levels
/// returns: 0, or the number of bytes needed for more.
pub fn decompress_simple(
    data: &[u8],
    header: &Header,
    downsampling: usize,
    test: bool,
    buffer: &mut [u8],
) -> (r: Result<usize, DecompressError>)
    requires
        image_codable(*header),
        header.width * header.height <= usize::MAX / 4,
        sizes_fit(header.width as nat, header.height as nat, header.channels as nat, header.layers as nat),
        downsampling < usize::BITS,
        old(buffer)@.len() >= downsampled(header.width as nat, downsampling as nat) * downsampled(
            header.height as nat,
            downsampling as nat,
        ) * header.channels * header.layers,
        !test ==> dequantize_ok(*header, false, downsampling as nat),
        !test ==> dequantize_ok(*header, true, downsampling as nat),
    ensures
        ({
            let n = (header.layers * header.channels) as nat;
            let dcs = downsampled(header.width as nat, downsampling as nat) * downsampled(
                header.height as nat,
                downsampling as nat,
            );
            let size = (dcs * header.channels * header.layers) as nat;
            match parse_program(stream_bits(data@), 0, n) {
                ProgramParse::Truncated => r matches Err(DecompressError::IOErr(_)),
                ProgramParse::Malformed => r matches Err(DecompressError::Malformed),
                ProgramParse::Done(ts, p) => {
                    let rest = data@.subrange(padded_bytes(p), data@.len() as int);
                    let is_chroma = mark_chroma(Seq::new(n, |i: int| false), ts);
                    let top = top_step(header.width as int, header.height as int);
                    if block_side(*header, top) > usize::MAX {
                        r matches Err(DecompressError::Underflow)
                    } else {
                        match decompress_levels(
                            Seq::new(size, |i: int| 0i16),
                            *header,
                            is_chroma,
                            rest,
                            downsampling as nat,
                            test,
                            top,
                            true,
                            0,
                            rest.len() as int + 1024,
                            false,
                        ) {
                            None => r matches Err(DecompressError::Underflow),
                            Some((a, v)) => {
                                let planar = if test {
                                    a
                                } else {
                                    unlifted_image(a, *header, is_chroma, downsampling as nat)
                                };
                                if !runnable(ts, n, dcs, size) {
                                    r matches Err(DecompressError::Malformed)
                                } else {
                                    let out = undo_transforms(planar, dcs as int, ts);
                                    &&& r matches Ok(x) && x == min_int(v, usize::MAX as int)
                                    &&& final(buffer)@.len() == old(buffer)@.len()
                                    &&& forall|c: int, i: int|
                                        0 <= c < n && 0 <= i < dcs ==> #[trigger] final(buffer)@[source_index(
                                            Layout { interleaved: true, channels: header.channels as int, cs: dcs as int },
                                            c,
                                            i,
                                        )] == to_u8(out[c * dcs + i], boost_of(*header))
                                    &&& forall|j: int|
                                        n * dcs <= j < old(buffer)@.len() ==> #[trigger] final(buffer)@[j] == old(buffer)@[j]
                                }
                            },
                        }
                    }
                },
            }
        }),
{
    let ghost n = (header.layers * header.channels) as nat;
    proof {
        assert(header.layers * header.channels <= 0xffff * 0xffff) by (nonlinear_arith)
            requires
                header.channels <= 0xffff,
                header.layers <= 0xffff,
        ;
    }
    let channels = header.layers as usize * header.channels as usize;
    let mut is_chroma: Vec<bool> = vec![false; channels];
    proof {
        assert(is_chroma@ =~= Seq::new(n, |i: int| false));
    }
    let (program, used) = match ColorTransformProgram::decode(data, is_chroma.as_mut_slice()) {
        Ok(v) => v,
        Err(e) => {
            return Err(e);
        },
    };
    proof {
        lemma_parse_program_end(stream_bits(data@), 0, n);
        let p = match parse_program(stream_bits(data@), 0, n) {
            ProgramParse::Done(_, p) => p,
            _ => 0,
        };
        assert(p <= 32 * (data@.len() / 4));
        assert(padded_bytes(p) <= data@.len());
    }
    let (_, rest) = data.split_at(used);
    let size = header.get_downsampled_image_size(downsampling);
    let mut aux: Vec<i16> = vec![0i16; size];
    let dcs = header.get_downsampled_channel_size(downsampling);
    proof {
        assert(aux@ =~= Seq::new(size as nat, |i: int| 0i16));
        assert(channel_count(*header) == n);
        assert(size == n * dcs) by (nonlinear_arith)
            requires
                size == dcs * header.channels * header.layers,
                n == header.layers * header.channels,
        ;
        assert(channel_count(*header) * (header.width * header.height) <= usize::MAX) by (nonlinear_arith)
            requires
                header.width * header.height * header.channels * header.layers <= usize::MAX,
                channel_count(*header) == header.layers * header.channels,
        ;
    }
    let next_point_of_interest = match decompress_aux_data(rest, header, is_chroma.as_slice(), downsampling, test, aux.as_mut_slice()) {
        Ok(v) => v,
        Err(e) => {
            return Err(e);
        },
    };
    if !program.is_runnable(channels, dcs, aux.len()) {
        return Err(DecompressError::Malformed);
    }
    proof {
        assert(header.channels * header.layers == n) by (nonlinear_arith)
            requires
                n == header.layers * header.channels,
        ;
    }
    program.detransform_and_to_interleaved(aux.as_mut_slice(), header, dcs, buffer);
    Ok(next_point_of_interest)
}

} // verus!
