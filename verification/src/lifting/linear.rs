//! The linear filter: samples are predicted from their two neighbours.
use vstd::prelude::*;

use super::{
    lift, lift_spec, unlift, unlift_spec,
    div_trunc, lemma_tdiv_bound, lift_delta, neighbour_at, plane_ok, wrap16, wrap_i16,
};

verus! {

/// What a linear pass adds to the selected sample at row `r`, column `c`.
pub(crate) fn linear_delta(
    img: &[i16],
    w: usize,
    h: usize,
    vertical: bool,
    s: usize,
    r: usize,
    c: usize,
    d: i32,
) -> (v: i32)
    requires
        plane_ok(img@.len() as int, w as int),
        img@.len() == w * h,
        1 <= s,
        s < w || s < h,
        r < h,
        c < w,
        d == -4 || d == -2 || d == 2 || d == 4,
    ensures
        v == lift_delta(img@, w as int, h as int, vertical, s as int, r as int, c as int, d as int, false),
        -32768 <= v <= 32768,
{
    let c1 = match neighbour_at(img, w, h, vertical, s, r, c, -1) {
        Some(v) => v,
        None => 0,
    };
    let right = neighbour_at(img, w, h, vertical, s, r, c, 1);
    if vertical {
        let c2 = match right {
            Some(v) => v,
            None => c1,
        };
        let sum = wrap_i16(c1 as i32 + c2 as i32);
        proof {
            lemma_tdiv_bound(sum as int, d as int);
        }
        div_trunc(sum as i32, d)
    } else {
        match right {
            Some(c2) => {
                let sum = wrap_i16(c1 as i32 + c2 as i32);
                proof {
                    lemma_tdiv_bound(sum as int, d as int);
                }
                div_trunc(sum as i32, d)
            },
            None => {
                let half = div_trunc(d, 2);
                assert(half == d / 2);
                proof {
                    lemma_tdiv_bound(c1 as int, half as int);
                }
                div_trunc(c1 as i32, half)
            },
        }
    }
}

/// The forward transform of a plane of `width` samples per row with the
/// linear filter.
pub fn lift_linear(image: &mut [i16], width: usize)
    requires
        plane_ok(old(image)@.len() as int, width as int),
    ensures
        final(image)@ == lift_spec(old(image)@, width as int, false),
{
    lift(image, width, false);
}

/// The inverse transform of a plane of `width` samples per row with the
/// linear filter.
pub fn unlift_linear(image: &mut [i16], width: usize)
    requires
        plane_ok(old(image)@.len() as int, width as int),
    ensures
        final(image)@ == unlift_spec(old(image)@, width as int, false),
{
    unlift(image, width, false);
}

} // verus!
