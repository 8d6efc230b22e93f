//! Compression of the planar 16-bit samples of an image: every channel is
//! lifted by the wavelet transform and quantized, then coded block by block,
//! from the coarsest wavelet step down to the finest.
use vstd::prelude::*;
use vstd::arithmetic::power2::pow2;

use crate::header::{boost_of, chroma_quality_of, downsampled, lemma_downsampled_le, Filter, Header};
use crate::lifting::{lemma_transform_len, lemma_unlift_lift, lift_spec, plane_ok, unlift_spec};
use crate::lifting::cubic::{lift_cubic, unlift_cubic};
use crate::lifting::linear::{lift_linear, unlift_linear};
use crate::quant::{dequantize, lemma_full_quality_is_identity, lemma_scale_from_len, quality_ok, quantize, scale_from};

pub mod coverage;
pub mod image_data;
pub mod inverse;
pub mod layout;

pub use self::image_data::{compress_image_data, decompress_image_data};
use self::image_data::{
    block_side, channel_count, compress_levels, decompress_levels, image_codable, CompressFailure,
};
use self::layout::top_step;
use crate::errors::{CompressError, DecompressError};
use crate::processing::image::min_int;

verus! {

/// The quality a channel is coded with.
pub open spec fn plane_quality(h: Header, is_chroma: bool) -> i32 {
    if is_chroma {
        chroma_quality_of(h)
    } else {
        h.quality as i32
    }
}

/// `quality` shifted left by `d` bits on 32 bits, read as a signed number.
pub open spec fn shifted_quality(quality: int, d: nat) -> int {
    let m = (quality * pow2(d)) % 0x1_0000_0000;
    if m >= 0x8000_0000 {
        m - 0x1_0000_0000
    } else {
        m
    }
}

/// Whether the dequantization of a plane of the image downsampled `d` times
/// stays on 32 bits: the shift of the quality by `d` is below 32 bits, and
/// the shifted quality is one that the dequantization takes.
pub open spec fn dequantize_ok(h: Header, is_chroma: bool, d: nat) -> bool {
    &&& d < 32
    &&& quality_ok(
        shifted_quality(plane_quality(h, is_chroma) as int, d),
        0,
        max_quality_of(h),
        downsampled(h.width as nat, d) as int,
        downsampled(h.height as nat, d) as int,
    )
}

/// The largest quality of the quantizer: full quality, boosted.
pub open spec fn max_quality_of(h: Header) -> int {
    1024 * boost_of(h)
}

/// Whether the header's filter is the cubic one.
pub open spec fn is_cubic(h: Header) -> bool {
    h.filter == Filter::Cubic
}

/// Channel `c` of planar samples of `cs` samples per channel.
pub open spec fn plane(aux: Seq<i16>, cs: int, c: int) -> Seq<i16> {
    aux.subrange(c * cs, c * cs + cs)
}

/// A plane `w` samples wide after the forward transform and quantization.
pub open spec fn lifted_plane(p: Seq<i16>, h: Header, w: int, is_chroma: bool) -> Seq<i16> {
    scale_from(
        lift_spec(p, w, is_cubic(h)),
        w,
        p.len() as int / w,
        1,
        plane_quality(h, is_chroma) as int,
        0,
        max_quality_of(h),
        false,
    )
}

/// A plane `w` samples wide after dequantization (at the quality of a plane
/// downsampled `d` times) and the inverse transform.
pub open spec fn unlifted_plane(p: Seq<i16>, h: Header, w: int, is_chroma: bool, d: nat) -> Seq<i16> {
    unlift_spec(
        scale_from(
            p,
            w,
            p.len() as int / w,
            1,
            shifted_quality(plane_quality(h, is_chroma) as int, d),
            0,
            max_quality_of(h),
            true,
        ),
        w,
        is_cubic(h),
    )
}

/// Planar samples after every one of the first `n` channels went through `f`;
/// the samples after them are kept.
pub open spec fn planes_mapped(
    aux: Seq<i16>,
    cs: int,
    n: int,
    f: spec_fn(int, Seq<i16>) -> Seq<i16>,
) -> Seq<i16> {
    Seq::new(
        aux.len(),
        |j: int|
            if j < n * cs {
                f(j / cs, plane(aux, cs, j / cs))[j % cs]
            } else {
                aux[j]
            },
    )
}

/// The samples `start..start + len` of `aux`.
fn copy_out(aux: &[i16], start: usize, len: usize) -> (r: Vec<i16>)
    requires
        start + len <= aux.len(),
    ensures
        r@ == aux@.subrange(start as int, start + len),
{
    let mut r: Vec<i16> = Vec::with_capacity(len);
    let mut i: usize = 0;
    while i < len
        invariant
            i <= len,
            start + len <= aux.len(),
            r@ == aux@.subrange(start as int, start + i),
        decreases len - i,
    {
        r.push(aux[start + i]);
        i = i + 1;
        assert(r@ =~= aux@.subrange(start as int, start + i));
    }
    r
}

/// Writes `v` over the samples of `aux` from `start`.
fn copy_in(aux: &mut [i16], start: usize, v: &Vec<i16>)
    requires
        start + v.len() <= old(aux).len(),
    ensures
        final(aux)@.len() == old(aux)@.len(),
        forall|j: int|
            0 <= j < final(aux)@.len() ==> #[trigger] final(aux)@[j] == if start <= j < start + v@.len() {
                v@[j - start]
            } else {
                old(aux)@[j]
            },
{
    let mut i: usize = 0;
    while i < v.len()
        invariant
            i <= v@.len(),
            start + v.len() <= old(aux).len(),
            aux@.len() == old(aux)@.len(),
            forall|j: int|
                0 <= j < aux@.len() ==> #[trigger] aux@[j] == if start <= j < start + i {
                    v@[j - start]
                } else {
                    old(aux)@[j]
                },
        decreases v@.len() - i,
    {
        aux[start + i] = v[i];
        i = i + 1;
    }
}

/// The planes `0..n` of `aux` after `n_done` of them were replaced.
proof fn lemma_plane_index(cs: int, c: int, i: int)
    requires
        cs > 0,
        c >= 0,
        0 <= i < cs,
    ensures
        (c * cs + i) / cs == c,
        (c * cs + i) % cs == i,
{
    vstd::arithmetic::div_mod::lemma_fundamental_div_mod_converse(c * cs + i, cs, c, i);
}

/// Lifts and quantizes each channel of the planar samples `aux_data`, one
/// channel per entry of `is_chroma`: the header's filter, then the quality of
/// the channel (the chroma quality for chroma channels) against full quality
/// boosted.  The samples after those channels are kept.
pub fn lift_and_quantize(aux_data: &mut [i16], header: &Header, is_chroma: &[bool])
    requires
        header.width >= 1,
        header.height >= 1,
        header.chroma_scale >= 1,
        is_chroma@.len() * (header.width * header.height) <= old(aux_data)@.len(),
        header.width * header.height <= usize::MAX / 4,
    ensures
        final(aux_data)@ == planes_mapped(
            old(aux_data)@,
            header.width * header.height,
            is_chroma@.len() as int,
            |c: int, p: Seq<i16>| lifted_plane(p, *header, header.width as int, is_chroma@[c]),
        ),
{
    let width = header.width as usize;
    let cs = width * header.height as usize;
    let chroma_quality = header.get_chroma_quality();
    let boost = header.get_boost();
    let max_quality: i32 = 1024 * boost as i32;
    proof {
        let q = header.quality as int + header.chroma_scale as int / 2;
        assert(q / (header.chroma_scale as int) <= q) by (nonlinear_arith)
            requires
                q >= 0,
                header.chroma_scale >= 1,
        ;
    }
    let ghost a0 = aux_data@;
    let ghost n = is_chroma@.len() as int;
    let ghost f = |c: int, p: Seq<i16>| lifted_plane(p, *header, header.width as int, is_chroma@[c]);
    proof {
        assert(cs >= 1) by (nonlinear_arith)
            requires
                cs == width * header.height,
                width >= 1,
                header.height >= 1,
        ;
    }
    let mut c: usize = 0;
    while c < is_chroma.len()
        invariant
            c <= is_chroma@.len(),
            n == is_chroma@.len(),
            width == header.width,
            cs == header.width * header.height,
            cs >= 1,
            cs <= usize::MAX / 4,
            n * cs <= a0.len(),
            aux_data@.len() == a0.len(),
            a0.len() == aux_data.len(),
            chroma_quality == chroma_quality_of(*header),
            1 <= chroma_quality <= 0x2_0000,
            max_quality == max_quality_of(*header),
            max_quality == 1024 || max_quality == 8192,
            f == (|c: int, p: Seq<i16>| lifted_plane(p, *header, header.width as int, is_chroma@[c])),
            forall|j: int|
                0 <= j < a0.len() ==> #[trigger] aux_data@[j] == if j < c * cs {
                    f(j / (cs as int), plane(a0, cs as int, j / (cs as int)))[j % (cs as int)]
                } else {
                    a0[j]
                },
        decreases is_chroma@.len() - c,
    {
        proof {
            assert(c * cs + cs <= n * cs) by (nonlinear_arith)
                requires
                    c < n,
                    cs >= 0,
            ;
        }
        let start = c * cs;
        let mut p = copy_out(aux_data, start, cs);
        proof {
            assert(p@ == plane(a0, cs as int, c as int)) by {
                assert forall|i: int| 0 <= i < cs implies p@[i] == plane(a0, cs as int, c as int)[i] by {
                    assert(aux_data@[start + i] == a0[start + i]);
                }
            }
            assert(p@.len() as int % (width as int) == 0 && p@.len() >= width) by {
                vstd::arithmetic::div_mod::lemma_mod_multiples_basic(header.height as int, width as int);
                assert(cs == header.height * width) by (nonlinear_arith)
                    requires
                        cs == width * header.height,
                ;
                assert(cs >= width) by (nonlinear_arith)
                    requires
                        cs == width * header.height,
                        header.height >= 1,
                ;
            }
        }
        match header.filter {
            Filter::Linear => lift_linear(p.as_mut_slice(), width),
            Filter::Cubic => lift_cubic(p.as_mut_slice(), width),
        }
        proof {
            lemma_transform_len(plane(a0, cs as int, c as int), width as int, is_cubic(*header));
        }
        let quality = if is_chroma[c] {
            chroma_quality
        } else {
            header.quality as i32
        };
        quantize(p.as_mut_slice(), width, quality, 0, max_quality);
        proof {
            let lifted = lift_spec(plane(a0, cs as int, c as int), width as int, is_cubic(*header));
            lemma_scale_from_len(lifted, width as int, lifted.len() as int / (width as int), 1,
                quality as int, 0, max_quality as int, false);
        }
        let ghost before = aux_data@;
        copy_in(aux_data, start, &p);
        proof {
            assert(p@ == f(c as int, plane(a0, cs as int, c as int)));
            assert forall|j: int| 0 <= j < a0.len() implies #[trigger] aux_data@[j] == if j < (c + 1) * cs {
                f(j / (cs as int), plane(a0, cs as int, j / (cs as int)))[j % (cs as int)]
            } else {
                a0[j]
            } by {
                assert((c + 1) * cs == c * cs + cs) by (nonlinear_arith);
                if start <= j < start + cs {
                    lemma_plane_index(cs as int, c as int, j - start);
                    assert(aux_data@[j] == p@[j - start]);
                } else {
                    assert(aux_data@[j] == before[j]);
                }
            }
        }
        c = c + 1;
    }
    proof {
        assert(aux_data@ =~= planes_mapped(a0, cs as int, n, f));
    }
}

/// `quality` shifted left by `d` bits on 32 bits.
fn quality_shifted(quality: i32, d: usize) -> (r: i32)
    requires
        0 <= quality <= 0x4_0000,
        d < 32,
    ensures
        r == shifted_quality(quality as int, d as nat),
{
    proof {
        vstd::arithmetic::power2::lemma2_to64();
        if d < 31 {
            vstd::arithmetic::power2::lemma_pow2_strictly_increases(d as nat, 31);
        }
        assert(quality * pow2(d as nat) <= 0x4_0000 * 0x8000_0000) by (nonlinear_arith)
            requires
                0 <= quality <= 0x4_0000,
                0 <= pow2(d as nat) <= 0x8000_0000,
        ;
        assert(quality * pow2(d as nat) >= 0) by (nonlinear_arith)
            requires
                0 <= quality,
                0 <= pow2(d as nat),
        ;
        vstd::bits::lemma_u64_shl_is_mul(quality as u64, d as u64);
    }
    let p: u64 = (quality as u64) << (d as u64);
    let m: u64 = p % 0x1_0000_0000;
    if m >= 0x8000_0000 {
        (m as i64 - 0x1_0000_0000i64) as i32
    } else {
        m as i32
    }
}

/// Dequantizes and unlifts each channel of the planar samples `aux_data`,
/// one channel per entry of `is_chroma`, each channel being the image
/// downsampled `downsampling` times: the quality of the channel, scaled up by
/// `2^downsampling`, against full quality boosted, then the inverse of the
/// header's filter.  The samples after those channels are kept.
pub fn unlift_and_dequantize(aux_data: &mut [i16], header: &Header, is_chroma: &[bool], downsampling: usize)
    requires
        header.width >= 1,
        header.height >= 1,
        header.chroma_scale >= 1,
        downsampling < usize::BITS,
        header.width * header.height <= usize::MAX / 4,
        is_chroma@.len() * (downsampled(header.width as nat, downsampling as nat) * downsampled(
            header.height as nat,
            downsampling as nat,
        )) <= old(aux_data)@.len(),
        dequantize_ok(*header, false, downsampling as nat),
        dequantize_ok(*header, true, downsampling as nat),
    ensures
        final(aux_data)@ == planes_mapped(
            old(aux_data)@,
            (downsampled(header.width as nat, downsampling as nat) * downsampled(
                header.height as nat,
                downsampling as nat,
            )) as int,
            is_chroma@.len() as int,
            |c: int, p: Seq<i16>|
                unlifted_plane(
                    p,
                    *header,
                    downsampled(header.width as nat, downsampling as nat) as int,
                    is_chroma@[c],
                    downsampling as nat,
                ),
        ),
{
    let width = header.get_downsampled_width(downsampling);
    let height = header.get_downsampled_height(downsampling);
    proof {
        lemma_downsampled_le(header.width as nat, downsampling as nat);
        lemma_downsampled_le(header.height as nat, downsampling as nat);
        vstd::arithmetic::mul::lemma_mul_upper_bound(
            width as int,
            header.width as int,
            height as int,
            header.height as int,
        );
        assert(width * height >= 1) by (nonlinear_arith)
            requires
                width >= 1,
                height >= 1,
        ;
    }
    let cs = width * height;
    let chroma_quality = header.get_chroma_quality();
    let boost = header.get_boost();
    let max_quality: i32 = 1024 * boost as i32;
    proof {
        let q = header.quality as int + header.chroma_scale as int / 2;
        assert(q / (header.chroma_scale as int) <= q) by (nonlinear_arith)
            requires
                q >= 0,
                header.chroma_scale >= 1,
        ;
    }
    let ghost a0 = aux_data@;
    let ghost n = is_chroma@.len() as int;
    let ghost d = downsampling as nat;
    let ghost f = |c: int, p: Seq<i16>| unlifted_plane(p, *header, width as int, is_chroma@[c], d);
    let mut c: usize = 0;
    while c < is_chroma.len()
        invariant
            c <= is_chroma@.len(),
            n == is_chroma@.len(),
            d == downsampling,
            width == downsampled(header.width as nat, d),
            height == downsampled(header.height as nat, d),
            cs == width * height,
            width >= 1,
            height >= 1,
            cs >= 1,
            cs <= usize::MAX / 4,
            n * cs <= a0.len(),
            aux_data@.len() == a0.len(),
            a0.len() == aux_data.len(),
            chroma_quality == chroma_quality_of(*header),
            1 <= chroma_quality <= 0x2_0000,
            max_quality == max_quality_of(*header),
            max_quality == 1024 || max_quality == 8192,
            dequantize_ok(*header, false, d),
            dequantize_ok(*header, true, d),
            f == (|c: int, p: Seq<i16>| unlifted_plane(p, *header, width as int, is_chroma@[c], d)),
            forall|j: int|
                0 <= j < a0.len() ==> #[trigger] aux_data@[j] == if j < c * cs {
                    f(j / (cs as int), plane(a0, cs as int, j / (cs as int)))[j % (cs as int)]
                } else {
                    a0[j]
                },
        decreases is_chroma@.len() - c,
    {
        proof {
            assert(c * cs + cs <= n * cs) by (nonlinear_arith)
                requires
                    c < n,
                    cs >= 0,
            ;
        }
        let start = c * cs;
        let mut p = copy_out(aux_data, start, cs);
        proof {
            assert(p@ == plane(a0, cs as int, c as int)) by {
                assert forall|i: int| 0 <= i < cs implies p@[i] == plane(a0, cs as int, c as int)[i] by {
                    assert(aux_data@[start + i] == a0[start + i]);
                }
            }
            assert(p@.len() as int % (width as int) == 0 && p@.len() >= width) by {
                vstd::arithmetic::div_mod::lemma_mod_multiples_basic(height as int, width as int);
                assert(cs == height * width) by (nonlinear_arith)
                    requires
                        cs == width * height,
                ;
                assert(cs >= width) by (nonlinear_arith)
                    requires
                        cs == width * height,
                        height >= 1,
                ;
            }
        }
        let quality = if is_chroma[c] {
            chroma_quality
        } else {
            if header.quality == 0 {
                0
            } else {
                header.quality as i32
            }
        };
        let q = if quality == 0 {
            0
        } else {
            quality_shifted(quality, downsampling)
        };
        proof {
            if is_chroma@[c as int] {
                assert(quality == plane_quality(*header, true));
            } else {
                assert(quality == plane_quality(*header, false));
            }
            if quality == 0 {
                assert(0 * pow2(d) == 0);
            }
            assert(q == shifted_quality(plane_quality(*header, is_chroma@[c as int]) as int, d));
            assert(p@.len() as int / (width as int) == height as int) by {
                vstd::arithmetic::div_mod::lemma_div_multiples_vanish(height as int, width as int);
                assert(cs == width * height);
                assert(width * height == height * width) by (nonlinear_arith);
            }
        }
        dequantize(p.as_mut_slice(), width, q, 0, max_quality);
        proof {
            lemma_scale_from_len(plane(a0, cs as int, c as int), width as int, cs as int / (width as int), 1,
                q as int, 0, max_quality as int, true);
        }
        match header.filter {
            Filter::Linear => unlift_linear(p.as_mut_slice(), width),
            Filter::Cubic => unlift_cubic(p.as_mut_slice(), width),
        }
        proof {
            let scaled = scale_from(plane(a0, cs as int, c as int), width as int, cs as int / (width as int), 1,
                q as int, 0, max_quality as int, true);
            lemma_transform_len(scaled, width as int, is_cubic(*header));
        }
        let ghost before = aux_data@;
        copy_in(aux_data, start, &p);
        proof {
            assert(p@ == f(c as int, plane(a0, cs as int, c as int)));
            assert forall|j: int| 0 <= j < a0.len() implies #[trigger] aux_data@[j] == if j < (c + 1) * cs {
                f(j / (cs as int), plane(a0, cs as int, j / (cs as int)))[j % (cs as int)]
            } else {
                a0[j]
            } by {
                assert((c + 1) * cs == c * cs + cs) by (nonlinear_arith);
                if start <= j < start + cs {
                    lemma_plane_index(cs as int, c as int, j - start);
                    assert(aux_data@[j] == p@[j - start]);
                } else {
                    assert(aux_data@[j] == before[j]);
                }
            }
        }
        c = c + 1;
    }
    proof {
        assert(aux_data@ =~= planes_mapped(a0, cs as int, n, f));
    }
}

/// The planar samples of an image after every channel was lifted and
/// quantized.
pub open spec fn lifted_image(aux: Seq<i16>, h: Header, is_chroma: Seq<bool>) -> Seq<i16> {
    planes_mapped(
        aux,
        h.width * h.height,
        is_chroma.len() as int,
        |c: int, p: Seq<i16>| lifted_plane(p, h, h.width as int, is_chroma[c]),
    )
}

/// The planar samples of an image downsampled `d` times after every channel
/// was dequantized and unlifted.
pub open spec fn unlifted_image(aux: Seq<i16>, h: Header, is_chroma: Seq<bool>, d: nat) -> Seq<i16> {
    planes_mapped(
        aux,
        (downsampled(h.width as nat, d) * downsampled(h.height as nat, d)) as int,
        is_chroma.len() as int,
        |c: int, p: Seq<i16>| unlifted_plane(p, h, downsampled(h.width as nat, d) as int, is_chroma[c], d),
    )
}

/// A channel coded at full quality: its quality reaches the largest quality
/// of the quantizer, so quantization leaves its coefficients alone.
pub open spec fn full_quality(h: Header, is_chroma: bool) -> bool {
    plane_quality(h, is_chroma) >= max_quality_of(h)
}

/// At full quality, dequantizing and unlifting a plane undoes lifting and
/// quantizing it.
pub proof fn lemma_plane_lossless(p: Seq<i16>, h: Header, w: int, is_chroma: bool)
    requires
        w > 0,
        p.len() >= w,
        p.len() as int % w == 0,
        full_quality(h, is_chroma),
    ensures
        unlifted_plane(lifted_plane(p, h, w, is_chroma), h, w, is_chroma, 0) == p,
{
    let q = plane_quality(h, is_chroma) as int;
    let m = max_quality_of(h);
    let lifted = lift_spec(p, w, is_cubic(h));
    lemma_unlift_lift(p, w, is_cubic(h));
    lemma_full_quality_is_identity(lifted, w, q, 0, m, false);
    assert(pow2(0) == 1) by {
        vstd::arithmetic::power2::lemma2_to64();
    }
    assert(plane_quality(h, is_chroma) * pow2(0) == q);
    lemma_full_quality_is_identity(lifted, w, q, 0, m, true);
}

/// At full quality, `decompress_aux_data`'s dequantizing and unlifting of
/// every channel undoes `compress_aux_data`'s lifting and quantizing: the
/// planar samples come back.
pub proof fn lemma_image_lossless(aux: Seq<i16>, h: Header, is_chroma: Seq<bool>)
    requires
        h.width >= 1,
        h.height >= 1,
        is_chroma.len() * (h.width * h.height) <= aux.len(),
        forall|c: int| 0 <= c < is_chroma.len() ==> full_quality(h, #[trigger] is_chroma[c]),
    ensures
        unlifted_image(lifted_image(aux, h, is_chroma), h, is_chroma, 0) == aux,
{
    let w = h.width as int;
    let cs = h.width * h.height;
    let n = is_chroma.len() as int;
    assert(pow2(0) == 1) by {
        vstd::arithmetic::power2::lemma2_to64();
    }
    assert(downsampled(h.width as nat, 0) == h.width);
    assert(downsampled(h.height as nat, 0) == h.height);
    assert(cs >= w) by (nonlinear_arith)
        requires
            cs == w * h.height,
            w >= 1,
            h.height >= 1,
    ;
    let x = lifted_image(aux, h, is_chroma);
    let y = unlifted_image(x, h, is_chroma, 0);
    assert forall|j: int| 0 <= j < aux.len() implies y[j] == aux[j] by {
        if j < n * cs {
            let c = j / cs;
            let i = j % cs;
            vstd::arithmetic::div_mod::lemma_fundamental_div_mod(j, cs);
            assert(0 <= c < n) by (nonlinear_arith)
                requires
                    0 <= j < n * cs,
                    c == j / cs,
                    cs >= 1,
            ;
            lemma_plane_index(cs, c, i);
            assert(c * cs + cs <= n * cs) by (nonlinear_arith)
                requires
                    c < n,
                    cs >= 0,
            ;
            assert(0 <= c * cs) by (nonlinear_arith)
                requires
                    c >= 0,
                    cs >= 0,
            ;
            let pa = plane(aux, cs, c);
            assert(pa.len() == cs);
            assert(pa.len() as int % w == 0) by {
                vstd::arithmetic::div_mod::lemma_mod_multiples_basic(h.height as int, w);
                vstd::arithmetic::mul::lemma_mul_is_commutative(h.height as int, w);
            }
            assert(c * cs + cs <= n * cs) by (nonlinear_arith)
                requires
                    c < n,
                    cs >= 0,
            ;
            let lp = lifted_plane(pa, h, w, is_chroma[c]);
            lemma_transform_len(pa, w, is_cubic(h));
            lemma_scale_from_len(lift_spec(pa, w, is_cubic(h)), w, pa.len() as int / w, 1, plane_quality(h, is_chroma[c]) as int, 0, max_quality_of(h), false);
            assert(plane(x, cs, c) =~= lp) by {
                assert forall|t: int| 0 <= t < cs implies plane(x, cs, c)[t] == lp[t] by {
                    lemma_plane_index(cs, c, t);
                    assert(c * cs + t < n * cs) by (nonlinear_arith)
                        requires
                            c < n,
                            0 <= t < cs,
                    ;
                }
            }
            lemma_plane_lossless(pa, h, w, is_chroma[c]);
        }
    }
    assert(y =~= aux);
}

/// Lifts and quantizes the planar samples `aux_data` of the image of
/// `header` (one channel per entry of `is_chroma`), then codes them into
/// `buffer`; returns the number of bytes written.
pub fn compress_aux_data(
    aux_data: &mut [i16],
    header: &Header,
    is_chroma: &[bool],
    buffer: &mut [u8],
) -> (r: Result<usize, CompressError>)
    requires
        image_codable(*header),
        header.width * header.height <= usize::MAX / 4,
        channel_count(*header) * (header.width * header.height) <= old(aux_data)@.len(),
        is_chroma@.len() * (header.width * header.height) <= old(aux_data)@.len(),
        is_chroma@.len() >= channel_count(*header),
    ensures
        final(aux_data)@ == lifted_image(old(aux_data)@, *header, is_chroma@),
        final(buffer)@.len() == old(buffer)@.len(),
        ({
            let top = top_step(header.width as int, header.height as int);
            if block_side(*header, top) > usize::MAX {
                r matches Err(CompressError::Overflow)
            } else {
                match compress_levels(final(aux_data)@, *header, is_chroma@, top, true, old(buffer)@.len() as int) {
                    Ok(b) => r matches Ok(n) && n == b.len() && n <= old(buffer)@.len() && final(buffer)@.subrange(0, n as int) == b,
                    Err(CompressFailure::BufferTooSmall) => r matches Err(CompressError::Overflow),
                    Err(CompressFailure::BlockTooLarge) => r matches Err(CompressError::IOErr(_)),
                }
            }
        }),
{
    lift_and_quantize(aux_data, header, is_chroma);
    compress_image_data(aux_data, header, buffer, is_chroma)
}

/// Decodes `data` into the planar samples `aux_data` of the image of
/// `header` downsampled `downsampling` times, then (unless this is a test)
/// dequantizes and unlifts every channel; returns what
/// `decompress_image_data` returns.
pub fn decompress_aux_data(
    data: &[u8],
    header: &Header,
    is_chroma: &[bool],
    downsampling: usize,
    test: bool,
    aux_data: &mut [i16],
) -> (r: Result<usize, DecompressError>)
    requires
        image_codable(*header),
        downsampling < usize::BITS,
        header.width * header.height <= usize::MAX / 4,
        channel_count(*header) * (header.width * header.height) <= usize::MAX,
        channel_count(*header) * (downsampled(header.width as nat, downsampling as nat) * downsampled(
            header.height as nat,
            downsampling as nat,
        )) <= old(aux_data)@.len(),
        is_chroma@.len() * (downsampled(header.width as nat, downsampling as nat) * downsampled(
            header.height as nat,
            downsampling as nat,
        )) <= old(aux_data)@.len(),
        is_chroma@.len() >= channel_count(*header),
        !test ==> dequantize_ok(*header, false, downsampling as nat),
        !test ==> dequantize_ok(*header, true, downsampling as nat),
    ensures
        final(aux_data)@.len() == old(aux_data)@.len(),
        ({
            let top = top_step(header.width as int, header.height as int);
            if block_side(*header, top) > usize::MAX {
                r matches Err(DecompressError::Underflow)
            } else {
                match decompress_levels(
                    old(aux_data)@,
                    *header,
                    is_chroma@,
                    data@,
                    downsampling as nat,
                    test,
                    top,
                    true,
                    0,
                    data@.len() as int + 1024,
                    false,
                ) {
                    None => r matches Err(DecompressError::Underflow),
                    Some((a, v)) => r matches Ok(x) && x == min_int(v, usize::MAX as int) && final(aux_data)@
                        == if test {
                        a
                    } else {
                        unlifted_image(a, *header, is_chroma@, downsampling as nat)
                    },
                }
            }
        }),
{
    let next_point_of_interest = match decompress_image_data(aux_data, header, data, downsampling, test, is_chroma) {
        Ok(v) => v,
        Err(e) => {
            return Err(e);
        },
    };
    if !test {
        unlift_and_dequantize(aux_data, header, is_chroma, downsampling);
    }
    Ok(next_point_of_interest)
}

} // verus!
