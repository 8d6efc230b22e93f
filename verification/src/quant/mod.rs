//! Scalar quantization of the wavelet coefficients of a plane.
//!
//! At level `skip` (1, 2, 4, ...) the coefficients on rows that are multiples
//! of `skip` are scaled: on rows that are odd multiples every multiple of
//! `skip`, on the other rows the odd multiples.  The quality doubles from one
//! level to the next, and the work stops at the first level whose quality
//! reaches the maximum.
use vstd::prelude::*;

use crate::lifting::{done, lemma_coords, lemma_index_bound, lemma_index_in_plane, lemma_mod_gap,
    lemma_odd_shift, plane_ok, tdiv, wrap16, div_trunc, wrap_i16};

verus! {

/// Whether level `skip` scales the coefficient at row `y`, column `x`.
pub open spec fn level_selected(skip: int, y: int, x: int) -> bool {
    &&& y % skip == 0
    &&& if y % (2 * skip) == skip {
        x % skip == 0
    } else {
        x % (2 * skip) == skip
    }
}

/// A coefficient scaled down by `q / max_quality`.
pub open spec fn quantized(v: i16, q: int, max_quality: int) -> i16 {
    tdiv(v * q, max_quality) as i16
}

/// A coefficient scaled back up by `max_quality / q`, rounding half away from
/// zero, and wrapped to 16 bits.
pub open spec fn dequantized(v: i16, q: int, max_quality: int) -> i16 {
    if v < 0 {
        wrap16(tdiv(v * max_quality - max_quality / 2, q))
    } else if v > 0 {
        wrap16(tdiv(v * max_quality + max_quality / 2, q))
    } else {
        0
    }
}

pub open spec fn scaled(v: i16, q: int, max_quality: int, up: bool) -> i16 {
    if up {
        dequantized(v, q, max_quality)
    } else {
        quantized(v, q, max_quality)
    }
}

/// One level of scaling.
pub open spec fn scale_level(
    img: Seq<i16>,
    w: int,
    skip: int,
    q: int,
    max_quality: int,
    up: bool,
) -> Seq<i16> {
    Seq::new(
        img.len(),
        |i: int|
            if level_selected(skip, i / w, i % w) {
                scaled(img[i], q, max_quality, up)
            } else {
                img[i]
            },
    )
}

/// The quality used at a level.
pub open spec fn level_quality(quality: int, min_quality: int) -> int {
    let m = if min_quality > 1 { min_quality } else { 1 };
    if m > quality {
        m
    } else {
        quality
    }
}

/// The levels from `skip` up, `quality` being the quality of level `skip`.
pub open spec fn scale_from(
    img: Seq<i16>,
    w: int,
    h: int,
    skip: int,
    quality: int,
    min_quality: int,
    max_quality: int,
    up: bool,
) -> Seq<i16>
    decreases (if skip < w + h { w + h - skip } else { 0 }),
{
    if skip >= 1 && skip < h && skip < w {
        let q = level_quality(quality, min_quality);
        if q >= max_quality {
            img
        } else {
            scale_from(
                scale_level(img, w, skip, q, max_quality, up),
                w,
                h,
                2 * skip,
                if max_quality < 2 * quality { max_quality } else { 2 * quality },
                min_quality,
                max_quality,
                up,
            )
        }
    } else {
        img
    }
}

/// Whether a negative quality stays within 32 bits as it doubles once per
/// level of a plane of `w` by `h` samples, from level `skip` up.
pub open spec fn doublings_fit(quality: int, w: int, h: int, skip: int) -> bool
    decreases (if skip < w + h { w + h - skip } else { 0 }),
{
    if skip >= 1 && skip < h && skip < w {
        i32::MIN <= 2 * quality && doublings_fit(2 * quality, w, h, 2 * skip)
    } else {
        true
    }
}

/// The arguments the scaling accepts on a plane of `w` by `h` samples: when
/// the first level is scaled at all, a maximum quality small enough for the
/// products of 16-bit samples on 32 bits, and a negative quality whose
/// doublings stay on 32 bits.  When the quality of the first level already
/// reaches the maximum, anything goes: nothing is scaled.
pub open spec fn quality_ok(quality: int, min_quality: int, max_quality: int, w: int, h: int) -> bool {
    level_quality(quality, min_quality) < max_quality ==> {
        &&& max_quality <= 65535
        &&& quality < 0 ==> doublings_fit(quality, w, h, 1)
    }
}

/// Scales one coefficient.
fn scale_value(v: i16, q: i32, max_quality: i32, up: bool) -> (r: i16)
    requires
        1 <= q < max_quality <= 65535,
    ensures
        r == scaled(v, q as int, max_quality as int, up),
{
    let x = v as i32;
    proof {
        assert(-32768 * 65535 <= x * max_quality <= 32767 * 65535) by (nonlinear_arith)
            requires
                -32768 <= x <= 32767,
                1 <= max_quality <= 65535,
        ;
    }
    if up {
        if x < 0 {
            let t = div_trunc(x * max_quality - max_quality / 2, q);
            proof {
                crate::lifting::lemma_tdiv_bound((x * max_quality - max_quality / 2) as int, q as int);
            }
            wrap_big(t)
        } else if x > 0 {
            let t = div_trunc(x * max_quality + max_quality / 2, q);
            proof {
                crate::lifting::lemma_tdiv_bound((x * max_quality + max_quality / 2) as int, q as int);
            }
            wrap_big(t)
        } else {
            0
        }
    } else {
        proof {
            assert(-32768 * 65535 <= x * q <= 32767 * 65535) by (nonlinear_arith)
                requires
                    -32768 <= x <= 32767,
                    1 <= q <= 65535,
            ;
            lemma_quantized_fits(v, q as int, max_quality as int);
        }
        div_trunc(x * q, max_quality) as i16
    }
}

/// Any 32-bit number reduced to 16 bits.
fn wrap_big(t: i32) -> (r: i16)
    ensures
        r == wrap16(t as int),
{
    let shifted = (t as i64 + 0x1_0000_0000i64) as u64;
    let m = (shifted % 65536) as i32;
    proof {
        assert((shifted as int) % 65536 == (t as int) % 65536) by {
            assert(shifted as int == t as int + 65536 * 65536);
            vstd::arithmetic::div_mod::lemma_fundamental_div_mod(t as int, 65536);
            vstd::arithmetic::div_mod::lemma_fundamental_div_mod_converse(
                shifted as int,
                65536,
                (t as int) / 65536 + 65536,
                (t as int) % 65536,
            );
        }
    }
    wrap_i16(m)
}

proof fn lemma_quantized_fits(v: i16, q: int, max_quality: int)
    requires
        1 <= q < max_quality,
    ensures
        -32768 <= tdiv(v * q, max_quality) <= 32767,
{
    let a = if v < 0 { -(v * q) } else { v * q };
    assert(0 <= a <= 32768 * q) by (nonlinear_arith)
        requires
            -32768 <= v <= 32767,
            q >= 1,
            a == (if v < 0 { -(v * q) } else { v * q }),
    ;
    assert(a / max_quality <= 32767) by (nonlinear_arith)
        requires
            0 <= a <= 32768 * q,
            1 <= q < max_quality,
    ;
    if v >= 0 {
        assert(v * q <= 32767 * q) by (nonlinear_arith)
            requires
                v <= 32767,
                q >= 1,
        ;
        assert((v * q) / max_quality <= 32767) by (nonlinear_arith)
            requires
                0 <= v * q <= 32767 * q,
                1 <= q < max_quality,
        ;
    }
}

/// One level of scaling carried out on the coefficients before row `yy`,
/// column `x`.
pub open spec fn scale_partial(
    img: Seq<i16>,
    w: int,
    skip: int,
    q: int,
    max_quality: int,
    up: bool,
    yy: int,
    x: int,
) -> Seq<i16> {
    Seq::new(
        img.len(),
        |i: int|
            if level_selected(skip, i / w, i % w) && done(i, w, yy, x) {
                scaled(img[i], q, max_quality, up)
            } else {
                img[i]
            },
    )
}

proof fn lemma_scale_step(
    img: Seq<i16>,
    cur: Seq<i16>,
    w: int,
    h: int,
    skip: int,
    q: int,
    max_quality: int,
    up: bool,
    yy: int,
    x: int,
    t: int,
)
    requires
        w > 0,
        h > 0,
        img.len() == w * h,
        skip >= 1,
        0 <= yy < h,
        0 <= x < w,
        level_selected(skip, yy, x),
        t == (if yy % (2 * skip) == skip { skip } else { 2 * skip }),
        cur == scale_partial(img, w, skip, q, max_quality, up, yy, x).update(
            yy * w + x,
            scaled(img[yy * w + x], q, max_quality, up),
        ),
    ensures
        cur == scale_partial(img, w, skip, q, max_quality, up, yy, x + t),
{
    let p = scale_partial(img, w, skip, q, max_quality, up, yy, x + t);
    lemma_coords(w, yy, x);
    lemma_index_bound(w, h, yy, x);
    assert forall|j: int| 0 <= j < img.len() implies cur[j] == p[j] by {
        lemma_index_in_plane(w, h, j);
        if j != yy * w + x && j / w == yy && x < j % w < x + t {
            lemma_mod_gap(x, t, j % w - x);
        }
    }
    assert(cur =~= p);
}

proof fn lemma_scale_row(
    img: Seq<i16>,
    w: int,
    h: int,
    skip: int,
    q: int,
    max_quality: int,
    up: bool,
    yy: int,
    x: int,
)
    requires
        w > 0,
        h > 0,
        img.len() == w * h,
        skip >= 1,
        0 <= yy,
        yy % skip == 0,
        x >= w,
    ensures
        scale_partial(img, w, skip, q, max_quality, up, yy, x) == scale_partial(
            img,
            w,
            skip,
            q,
            max_quality,
            up,
            yy + skip,
            0,
        ),
{
    let p1 = scale_partial(img, w, skip, q, max_quality, up, yy, x);
    let p2 = scale_partial(img, w, skip, q, max_quality, up, yy + skip, 0);
    assert forall|j: int| 0 <= j < img.len() implies p1[j] == p2[j] by {
        lemma_index_in_plane(w, h, j);
        if yy < j / w < yy + skip {
            lemma_mod_gap(yy, skip, j / w - yy);
        }
    }
    assert(p1 =~= p2);
}

proof fn lemma_scale_row_start(
    img: Seq<i16>,
    w: int,
    h: int,
    skip: int,
    q: int,
    max_quality: int,
    up: bool,
    yy: int,
    x: int,
)
    requires
        w > 0,
        h > 0,
        img.len() == w * h,
        skip >= 1,
        x == (if yy % (2 * skip) == skip { 0 } else { skip }),
    ensures
        scale_partial(img, w, skip, q, max_quality, up, yy, 0) == scale_partial(
            img,
            w,
            skip,
            q,
            max_quality,
            up,
            yy,
            x,
        ),
{
    let p1 = scale_partial(img, w, skip, q, max_quality, up, yy, 0);
    let p2 = scale_partial(img, w, skip, q, max_quality, up, yy, x);
    assert forall|j: int| 0 <= j < img.len() implies p1[j] == p2[j] by {
        lemma_index_in_plane(w, h, j);
        if j % w < x {
            vstd::arithmetic::div_mod::lemma_small_mod((j % w) as nat, (2 * skip) as nat);
        }
    }
    assert(p1 =~= p2);
}

/// Carries out one level of scaling.
fn scale_level_exec(
    img: &mut [i16],
    w: usize,
    h: usize,
    skip: usize,
    q: i32,
    max_quality: i32,
    up: bool,
)
    requires
        plane_ok(old(img)@.len() as int, w as int),
        old(img)@.len() == w * h,
        1 <= skip < w,
        skip < h,
        1 <= q < max_quality <= 65535,
    ensures
        final(img)@ == scale_level(old(img)@, w as int, skip as int, q as int, max_quality as int, up),
{
    let ghost old_img = img@;
    let ghost wi = w as int;
    let ghost hi = h as int;
    let ghost sk = skip as int;
    proof {
        assert(h <= w * h) by (nonlinear_arith)
            requires
                w >= 1,
        ;
        vstd::arithmetic::div_mod::lemma_small_mod(0, skip as nat);
        vstd::arithmetic::div_mod::lemma_small_mod(0, (2 * skip) as nat);
    }
    let mut y: usize = 0;
    let mut odd_row = false;
    while y < h
        invariant
            old_img == old(img)@,
            wi == w,
            hi == h,
            sk == skip,
            plane_ok(old_img.len() as int, wi),
            old_img.len() == w * h,
            h <= old_img.len(),
            1 <= skip < w,
            skip < h,
            1 <= q < max_quality <= 65535,
            y <= h + skip,
            y % skip == 0,
            (y as int) % (2 * sk) == 0 || (y as int) % (2 * sk) == sk,
            odd_row == ((y as int) % (2 * sk) == sk),
            img@ == scale_partial(old_img, wi, sk, q as int, max_quality as int, up, y as int, 0),
        decreases h + skip - y,
    {
        let (x0, xstep) = if odd_row {
            (0usize, skip)
        } else {
            (skip, 2 * skip)
        };
        proof {
            lemma_scale_row_start(old_img, wi, hi, sk, q as int, max_quality as int, up, y as int, x0 as int);
            vstd::arithmetic::div_mod::lemma_small_mod(0, skip as nat);
            vstd::arithmetic::div_mod::lemma_small_mod(skip as nat, (2 * skip) as nat);
        }
        let mut x = x0;
        while x < w
            invariant
                old_img == old(img)@,
                wi == w,
                hi == h,
                sk == skip,
                plane_ok(old_img.len() as int, wi),
                old_img.len() == w * h,
                1 <= skip < w,
                1 <= q < max_quality <= 65535,
                y < h,
                y % skip == 0,
                odd_row == ((y as int) % (2 * sk) == sk),
                xstep == (if odd_row { sk } else { 2 * sk }),
                x <= w + 2 * skip,
                odd_row ==> x % skip == 0,
                !odd_row ==> (x as int) % (2 * sk) == sk,
                img@ == scale_partial(old_img, wi, sk, q as int, max_quality as int, up, y as int, x as int),
            decreases w + 2 * skip - x,
        {
            proof {
                lemma_index_bound(wi, hi, y as int, x as int);
                lemma_coords(wi, y as int, x as int);
            }
            let i = y * w + x;
            let v = scale_value(img[i], q, max_quality, up);
            let ghost before = img@;
            img[i] = v;
            proof {
                assert(img@ == before.update(i as int, v));
                lemma_scale_step(old_img, img@, wi, hi, sk, q as int, max_quality as int, up, y as int, x as int, xstep as int);
                vstd::arithmetic::div_mod::lemma_mod_add_multiples_vanish(x as int, xstep as int);
                if odd_row {
                    vstd::arithmetic::div_mod::lemma_mod_add_multiples_vanish(x as int, sk);
                }
            }
            x = x + xstep;
        }
        proof {
            lemma_scale_row(old_img, wi, hi, sk, q as int, max_quality as int, up, y as int, x as int);
            lemma_odd_shift(y as int, sk, 1);
            vstd::arithmetic::div_mod::lemma_mod_add_multiples_vanish(y as int, sk);
        }
        y = y + skip;
        odd_row = !odd_row;
    }
    proof {
        let p = scale_level(old_img, wi, sk, q as int, max_quality as int, up);
        let cur = scale_partial(old_img, wi, sk, q as int, max_quality as int, up, y as int, 0);
        assert forall|j: int| 0 <= j < old_img.len() implies cur[j] == p[j] by {
            lemma_index_in_plane(wi, hi, j);
        }
        assert(cur =~= p);
    }
}

/// The levels of scaling, from the finest up, until the quality reaches the
/// maximum.
fn scale(image: &mut [i16], width: usize, quality: i32, min_quality: i32, max_quality: i32, up: bool)
    requires
        plane_ok(old(image)@.len() as int, width as int),
        quality_ok(
            quality as int,
            min_quality as int,
            max_quality as int,
            width as int,
            old(image)@.len() as int / (width as int),
        ),
    ensures
        final(image)@ == scale_from(
            old(image)@,
            width as int,
            old(image)@.len() as int / (width as int),
            1,
            quality as int,
            min_quality as int,
            max_quality as int,
            up,
        ),
{
    let ghost old_img = image@;
    let w = width;
    let h = image.len() / w;
    proof {
        vstd::arithmetic::div_mod::lemma_fundamental_div_mod(old_img.len() as int, w as int);
        assert(1 <= h <= old_img.len()) by (nonlinear_arith)
            requires
                old_img.len() == w * h,
                w >= 1,
                old_img.len() >= w,
        ;
    }
    let ghost quality0 = quality;
    let mut quality = quality;
    let mut skip: usize = 1;
    let floor: i32 = if min_quality > 1 {
        min_quality
    } else {
        1
    };
    loop
        invariant
            plane_ok(old_img.len() as int, w as int),
            image@.len() == old_img.len(),
            old_img.len() == w * h,
            h == old_img.len() as int / (w as int),
            1 <= h <= old_img.len(),
            1 <= skip <= 2 * old_img.len(),
            level_quality(quality as int, min_quality as int) < max_quality ==> max_quality <= 65535,
            quality < 0 && floor < max_quality ==> doublings_fit(quality as int, w as int, h as int, skip as int),
            floor == (if min_quality > 1 { min_quality as int } else { 1 }),
            scale_from(image@, w as int, h as int, skip as int, quality as int, min_quality as int, max_quality as int, up)
                == scale_from(old_img, w as int, h as int, 1, quality0 as int, min_quality as int, max_quality as int, up),
        ensures
            image@ == scale_from(old_img, w as int, h as int, 1, quality0 as int, min_quality as int, max_quality as int, up),
        decreases 2 * old_img.len() + 1 - skip,
    {
        if !(skip < h && skip < w) {
            break;
        }
        let q = if floor > quality {
            floor
        } else {
            quality
        };
        if q >= max_quality {
            break;
        }
        scale_level_exec(image, w, h, skip, q, max_quality, up);
        skip = skip * 2;
        quality = if max_quality < 2 * quality {
            max_quality
        } else {
            2 * quality
        };
    }
}

/// Quantizes the wavelet coefficients of a plane of `width` samples per
/// row: level by level, coefficients are multiplied by `q / max_quality`
/// (rounding towards zero), `q` being the quality of the level, at least
/// `min_quality` and 1; the quality doubles from level to level, and the work
/// stops once it reaches `max_quality`.
pub fn quantize(image: &mut [i16], width: usize, quality: i32, min_quality: i32, max_quality: i32)
    requires
        plane_ok(old(image)@.len() as int, width as int),
        quality_ok(
            quality as int,
            min_quality as int,
            max_quality as int,
            width as int,
            old(image)@.len() as int / (width as int),
        ),
    ensures
        final(image)@ == scale_from(
            old(image)@,
            width as int,
            old(image)@.len() as int / (width as int),
            1,
            quality as int,
            min_quality as int,
            max_quality as int,
            false,
        ),
{
    scale(image, width, quality, min_quality, max_quality, false);
}

/// Undoes the quantization as far as it can: the same levels, each
/// coefficient multiplied by `max_quality / q` with rounding half away from
/// zero, wrapped to 16 bits.
pub fn dequantize(image: &mut [i16], width: usize, quality: i32, min_quality: i32, max_quality: i32)
    requires
        plane_ok(old(image)@.len() as int, width as int),
        quality_ok(
            quality as int,
            min_quality as int,
            max_quality as int,
            width as int,
            old(image)@.len() as int / (width as int),
        ),
    ensures
        final(image)@ == scale_from(
            old(image)@,
            width as int,
            old(image)@.len() as int / (width as int),
            1,
            quality as int,
            min_quality as int,
            max_quality as int,
            true,
        ),
{
    scale(image, width, quality, min_quality, max_quality, true);
}

/// Scaling keeps the size of the plane.
pub proof fn lemma_scale_from_len(
    img: Seq<i16>,
    w: int,
    h: int,
    skip: int,
    quality: int,
    min_quality: int,
    max_quality: int,
    up: bool,
)
    ensures
        scale_from(img, w, h, skip, quality, min_quality, max_quality, up).len() == img.len(),
    decreases (if skip < w + h { w + h - skip } else { 0 }),
{
    if skip >= 1 && skip < h && skip < w {
        let q = level_quality(quality, min_quality);
        if q < max_quality {
            lemma_scale_from_len(
                scale_level(img, w, skip, q, max_quality, up),
                w,
                h,
                2 * skip,
                if max_quality < 2 * quality { max_quality } else { 2 * quality },
                min_quality,
                max_quality,
                up,
            );
        }
    }
}

/// At full quality the scaling changes nothing: when the quality of the first
/// level already reaches the maximum, quantization and dequantization leave
/// the plane as it is.
pub proof fn lemma_full_quality_is_identity(
    img: Seq<i16>,
    w: int,
    quality: int,
    min_quality: int,
    max_quality: int,
    up: bool,
)
    requires
        w > 0,
        level_quality(quality, min_quality) >= max_quality,
    ensures
        scale_from(img, w, img.len() as int / w, 1, quality, min_quality, max_quality, up) == img,
{
}

} // verus!
