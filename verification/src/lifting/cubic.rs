//! The cubic filter: samples are predicted from four neighbours.
use vstd::prelude::*;

use super::{
    lift, lift_spec, unlift, unlift_spec,
    div_trunc, lemma_tdiv_bound, lift_delta, neighbour, neighbour_at, plane_ok, tdiv,
    wrap16,
};

verus! {

/// The middle one of three numbers.
pub open spec fn median_spec(a: int, b: int, c: int) -> int {
    let lo = if a < b { a } else { b };
    let hi = if a < b { b } else { a };
    let m = if hi < c { hi } else { c };
    if lo < m {
        m
    } else {
        lo
    }
}

/// `num / denom` rounded to the nearest integer, halves away from zero.
pub open spec fn round_fraction_spec(num: int, denom: int) -> int {
    if num < 0 {
        tdiv(num - denom / 2, denom)
    } else {
        tdiv(num + denom / 2, denom)
    }
}

/// The cubic prediction of the sample between `c1` and `c2`, kept between
/// them.
pub open spec fn cubic_spec(c0: i16, c1: i16, c2: i16, c3: i16) -> int {
    let num = -c0 + 9 * (c1 + c2) - c3;
    median_spec(round_fraction_spec(num, 16), c1 as int, c2 as int)
}

fn median(a: i32, b: i32, c: i32) -> (m: i32)
    ensures
        m == median_spec(a as int, b as int, c as int),
{
    let mut a = a;
    let mut b = b;
    let mut c = c;
    let ghost (a0, b0, c0) = (a, b, c);
    if a > b {
        std::mem::swap(&mut a, &mut b);
    }
    if b > c {
        std::mem::swap(&mut b, &mut c);
    }
    if a > b {
        std::mem::swap(&mut a, &mut b);
    }
    b
}

fn round_fraction(num: i32, denom: i32) -> (r: i32)
    requires
        0 < denom < 0x1000_0000,
        -0x1000_0000 < num < 0x1000_0000,
    ensures
        r == round_fraction_spec(num as int, denom as int),
{
    if num < 0 {
        div_trunc(num - denom / 2, denom)
    } else {
        div_trunc(num + denom / 2, denom)
    }
}

/// The cubic prediction from four consecutive samples of a line: the rounded
/// value of the cubic through them at the middle, clamped between the two
/// middle samples.
pub fn cubic(c0: i16, c1: i16, c2: i16, c3: i16) -> (r: i32)
    ensures
        r == cubic_spec(c0, c1, c2, c3),
        c1 <= c2 ==> c1 <= r <= c2,
        c2 <= c1 ==> c2 <= r <= c1,
{
    let c0 = c0 as i32;
    let c1 = c1 as i32;
    let c2 = c2 as i32;
    let c3 = c3 as i32;
    let num = -c0 + 9 * (c1 + c2) - c3;
    median(round_fraction(num, 16), c1, c2)
}

/// What a cubic pass adds to the selected sample at row `r`, column `c`.
pub(crate) fn cubic_delta(
    img: &[i16],
    w: usize,
    h: usize,
    vertical: bool,
    s: usize,
    r: usize,
    c: usize,
    d: i32,
) -> (v: i32)
    requires
        plane_ok(img@.len() as int, w as int),
        img@.len() == w * h,
        1 <= s,
        s < w || s < h,
        r < h,
        c < w,
        d == -2 || d == -1 || d == 1 || d == 2,
    ensures
        v == lift_delta(img@, w as int, h as int, vertical, s as int, r as int, c as int, d as int, true),
        -32768 <= v <= 32768,
{
    let c1 = match neighbour_at(img, w, h, vertical, s, r, c, -1) {
        Some(v) => v,
        None => 0,
    };
    let c0 = match neighbour_at(img, w, h, vertical, s, r, c, -3) {
        Some(v) => v,
        None => c1,
    };
    let c2 = match neighbour_at(img, w, h, vertical, s, r, c, 1) {
        Some(v) => v,
        None => c1,
    };
    let c3 = match neighbour_at(img, w, h, vertical, s, r, c, 3) {
        Some(v) => v,
        None => c2,
    };
    let p = cubic(c0, c1, c2, c3);
    proof {
        lemma_tdiv_bound(p as int, d as int);
    }
    div_trunc(p, d)
}

/// The forward transform of a plane of `width` samples per row with the
/// cubic filter.
pub fn lift_cubic(image: &mut [i16], width: usize)
    requires
        plane_ok(old(image)@.len() as int, width as int),
    ensures
        final(image)@ == lift_spec(old(image)@, width as int, true),
{
    lift(image, width, true);
}

/// The inverse transform of a plane of `width` samples per row with the
/// cubic filter.
pub fn unlift_cubic(image: &mut [i16], width: usize)
    requires
        plane_ok(old(image)@.len() as int, width as int),
    ensures
        final(image)@ == unlift_spec(old(image)@, width as int, true),
{
    unlift(image, width, true);
}

} // verus!
