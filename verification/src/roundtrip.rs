//! What the codec promises end to end: at full quality, decompressing what
//! `compress_simple` wrote gives the image back.
use vstd::prelude::*;

use crate::bits::{lemma_stream_of_padded, lemma_stream_prefix, padded_words, stream_bits, word_padding};
use crate::color_transform::inverse::{lemma_transform_roundtrip, sample, undoable};
use crate::color_transform::program::{
    chroma_flags, codable, lemma_chroma_flags_len, lemma_marks_match_flags, lemma_program_roundtrip,
    mark_chroma, padded_bytes, parse_program, program_bits, ProgramParse, TransformSpec,
};
use crate::color_transform::transform::{
    runnable, source_index, to_u8, transform_ok, transform_spec, undo_transforms, Layout,
};
use crate::compress::full_quality;
use crate::compress::image_data::{channel_count, compress_levels, decompress_levels, image_codable};
use crate::compress::inverse::lemma_aux_lossless;
use crate::compress::layout::top_step;
use crate::compress::{lifted_image, unlifted_image};
use crate::header::{boost_of, downsampled, encodable, sizes_consistent, Header};

verus! {

/// The samples `transform_and_to_planar` makes of an interleaved image.
pub open spec fn planar_of(h: Header, image: Seq<u8>, ts: Seq<TransformSpec>) -> Seq<i16> {
    transform_spec(
        Seq::new(h.image_size as nat, |i: int| 0i16),
        image,
        Layout { interleaved: true, channels: h.channels as int, cs: h.width * h.height },
        ts,
        (h.channels * h.layers) as nat,
        boost_of(h),
    )
}

/// At full quality, decompressing what `compress_simple` wrote after the
/// header gives the image back: the program is read back, the levels
/// decode to the lifted samples, and undoing everything the compressor did
/// gives every 8-bit sample. This holds when no channel is the destination of
/// two transforms and no transform reads its own destination, and every
/// channel, chroma or not, is coded at full quality.
#[verifier::rlimit(60)]
pub proof fn lemma_simple_lossless(
    h: Header,
    image: Seq<u8>,
    ts: Seq<TransformSpec>,
    room: int,
    data: Seq<u8>,
    guess: int,
)
    requires
        encodable(h),
        sizes_consistent(h),
        image_codable(h),
        codable(ts, (h.channels * h.layers) as nat),
        transform_ok(ts, h, image.len(), h.image_size as nat, true),
        undoable(ts),
        forall|c: int|
            0 <= c < h.channels * h.layers ==> full_quality(
                h,
                #[trigger] chroma_flags(ts, (h.channels * h.layers) as nat)[c],
            ),
        compress_levels(
            lifted_image(planar_of(h, image, ts), h, chroma_flags(ts, (h.channels * h.layers) as nat)),
            h,
            chroma_flags(ts, (h.channels * h.layers) as nat),
            top_step(h.width as int, h.height as int),
            true,
            room,
        ) is Ok,
        ({
            let b = compress_levels(
                lifted_image(planar_of(h, image, ts), h, chroma_flags(ts, (h.channels * h.layers) as nat)),
                h,
                chroma_flags(ts, (h.channels * h.layers) as nat),
                top_step(h.width as int, h.height as int),
                true,
                room,
            )->Ok_0;
            let pw = padded_words(program_bits(ts));
            &&& pw.len() + b.len() <= data.len()
            &&& data.subrange(0, (pw.len() + b.len()) as int) == pw + b
        }),
    ensures
        ({
            let n = (h.layers * h.channels) as nat;
            let dcs = downsampled(h.width as nat, 0) * downsampled(h.height as nat, 0);
            let size = (dcs * h.channels * h.layers) as nat;
            let l = Layout { interleaved: true, channels: h.channels as int, cs: dcs as int };
            parse_program(stream_bits(data), 0, n) matches ProgramParse::Done(ts2, p) && ts2 == ts && {
                let rest = data.subrange(padded_bytes(p), data.len() as int);
                let is_chroma = mark_chroma(Seq::new(n, |i: int| false), ts);
                decompress_levels(
                    Seq::new(size, |i: int| 0i16),
                    h,
                    is_chroma,
                    rest,
                    0,
                    false,
                    top_step(h.width as int, h.height as int),
                    true,
                    0,
                    guess,
                    false,
                ) matches Some((a, v)) && v == 0 && runnable(ts, n, dcs, size) && forall|c: int, i: int|
                    0 <= c < n && 0 <= i < dcs ==> to_u8(
                        #[trigger] undo_transforms(unlifted_image(a, h, is_chroma, 0), dcs as int, ts)[c
                            * dcs + i],
                        boost_of(h),
                    ) == image[source_index(l, c, i)]
            }
        }),
{
    let n = (h.channels * h.layers) as nat;
    assert(h.layers * h.channels == h.channels * h.layers) by (nonlinear_arith);
    let w = h.width as int;
    let hh = h.height as int;
    let cs = w * hh;
    let l = Layout { interleaved: true, channels: h.channels as int, cs };
    let pb = program_bits(ts);
    let pw = padded_words(pb);
    let is_chroma = chroma_flags(ts, n);
    let planar = planar_of(h, image, ts);
    let b = compress_levels(lifted_image(planar, h, is_chroma), h, is_chroma, top_step(w, hh), true, room)->Ok_0;
    // The program comes back.
    lemma_stream_of_padded(pb);
    lemma_stream_prefix(data, (pw.len() / 4) as nat);
    assert(data.subrange(0, pw.len() as int) =~= pw) by {
        assert(data.subrange(0, pw.len() as int) =~= data.subrange(0, (pw.len() + b.len()) as int).subrange(
            0,
            pw.len() as int,
        ));
        assert((pw + b).subrange(0, pw.len() as int) =~= pw);
    }
    let sd = stream_bits(data);
    let tail = sd.subrange(pb.len() as int, sd.len() as int);
    assert(sd.subrange(0, pb.len() as int) =~= pb) by {
        assert(stream_bits(pw).subrange(0, pb.len() as int) =~= pb);
    }
    assert(sd =~= pb + tail);
    lemma_program_roundtrip(ts, n, tail);
    // The levels lie right after the program.
    let p = pb.len() as int;
    assert(pw.len() == padded_bytes(p)) by {
        assert(stream_bits(pw).len() == 32 * (pw.len() / 4));
        assert(p + word_padding(p as nat) == 32 * (pw.len() / 4));
        assert(pw.len() % 4 == 0);
    }
    let rest = data.subrange(pw.len() as int, data.len() as int);
    assert(rest.subrange(0, b.len() as int) =~= b) by {
        assert(rest.subrange(0, b.len() as int) =~= data.subrange(0, (pw.len() + b.len()) as int).subrange(
            pw.len() as int,
            (pw.len() + b.len()) as int,
        ));
        assert((pw + b).subrange(pw.len() as int, (pw.len() + b.len()) as int) =~= b);
    }
    // The decoder's chroma flags are the coder's.
    assert forall|k: int| 0 <= k < ts.len() implies (#[trigger] ts[k]).dest < n by {
        assert(ts[k] == ts[k]);
    }
    lemma_marks_match_flags(ts, n);
    lemma_chroma_flags_len(ts, n);
    // The lifted samples come back and undo the lifting.
    assert(channel_count(h) == n) by (nonlinear_arith)
        requires
            channel_count(h) == h.layers * h.channels,
            n == h.channels * h.layers,
    ;
    let z0 = Seq::new(h.image_size as nat, |i: int| 0i16);
    lemma_transform_roundtrip(z0, image, l, ts, n, boost_of(h));
    assert(planar.len() == h.image_size);
    assert(h.image_size == n * cs) by (nonlinear_arith)
        requires
            h.image_size == h.width * h.height * h.channels * h.layers,
            n == h.channels * h.layers,
            cs == h.width * h.height,
    ;
    vstd::arithmetic::power2::lemma2_to64();
    assert(downsampled(h.width as nat, 0) == h.width);
    assert(downsampled(h.height as nat, 0) == h.height);
    let dcs = downsampled(h.width as nat, 0) * downsampled(h.height as nat, 0);
    let size = (dcs * h.channels * h.layers) as nat;
    assert(size == h.image_size) by (nonlinear_arith)
        requires
            dcs == h.width * h.height,
            size == dcs * h.channels * h.layers,
            h.image_size == h.width * h.height * h.channels * h.layers,
    ;
    let zeros = Seq::new(size, |i: int| 0i16);
    lemma_aux_lossless(planar, zeros, h, is_chroma, room, rest, guess);
    let a = decompress_levels(zeros, h, is_chroma, rest, 0, false, top_step(w, hh), true, 0, guess, false)->Some_0.0;
    let u = unlifted_image(a, h, is_chroma, 0);
    assert(u =~= planar);
    // Undoing the program gives the image.
    assert forall|c: int, i: int| 0 <= c < n && 0 <= i < dcs implies to_u8(
        #[trigger] undo_transforms(u, dcs as int, ts)[c * dcs + i],
        boost_of(h),
    ) == image[source_index(l, c, i)] by {
        assert(undo_transforms(u, dcs as int, ts)[c * dcs + i] == sample(
            undo_transforms(transform_spec(z0, image, l, ts, n, boost_of(h)), l.cs, ts),
            l.cs,
            c,
            i,
        ));
    }
}

} // verus!
