//! Reversible wavelet lifting of a 2D plane of 16-bit samples.
//!
//! A plane of `h` rows and `w` columns is stored row after row in a slice.
//! One level of the transform with step `s` predicts the samples at odd
//! multiples of `s` from their even neighbours and then updates the even ones
//! from the new odd ones, first along the rows and then along the columns.
//! Sample arithmetic wraps at 16 bits, so every pass is undone exactly by the
//! same pass with the opposite divider.
use vstd::prelude::*;

pub mod cubic;
pub mod linear;




pub use self::cubic::{cubic, lift_cubic, unlift_cubic};
pub use self::linear::{lift_linear, unlift_linear};
use self::cubic::{cubic_delta, cubic_spec};
use self::linear::linear_delta;


verus! {

/// `v` reduced to 16 bits, read as a signed number.
pub open spec fn wrap16(v: int) -> i16 {
    let m = v % 65536;
    if m >= 32768 {
        (m - 65536) as i16
    } else {
        m as i16
    }
}

/// Division that rounds towards zero, as Rust's `/` does.
pub open spec fn tdiv(a: int, b: int) -> int {
    let q = (if a < 0 { -a } else { a }) / (if b < 0 { -b } else { b });
    if (a < 0) != (b < 0) {
        -q
    } else {
        q
    }
}

/// The value of the sample `k` steps of `s` away from `(r, c)` along the axis
/// of the pass, if it lies inside the plane.
pub open spec fn neighbour(
    img: Seq<i16>,
    w: int,
    h: int,
    vertical: bool,
    s: int,
    r: int,
    c: int,
    k: int,
) -> Option<i16> {
    if vertical {
        if 0 <= r + k * s < h {
            Some(img[(r + k * s) * w + c])
        } else {
            None
        }
    } else {
        if 0 <= c + k * s < w {
            Some(img[r * w + c + k * s])
        } else {
            None
        }
    }
}

pub open spec fn or_else(v: Option<i16>, d: i16) -> i16 {
    match v {
        Some(x) => x,
        None => d,
    }
}

/// Whether the pass with step `s` changes the sample at row `r`, column `c`:
/// along the axis it sits at an odd multiple of `s` (or, for the update pass,
/// at an even multiple from `2s` on), and across the axis at a multiple of `s`.
pub open spec fn selected(vertical: bool, s: int, odd: bool, r: int, c: int) -> bool {
    let along = if vertical { r } else { c };
    let across = if vertical { c } else { r };
    &&& across % s == 0
    &&& if odd {
        along % (2 * s) == s
    } else {
        along % (2 * s) == 0 && along >= 2 * s
    }
}

/// What a pass adds to a selected sample, before wrapping: a prediction from
/// the neighbours along the axis divided by `d` (rounding towards zero).
pub open spec fn lift_delta(
    img: Seq<i16>,
    w: int,
    h: int,
    vertical: bool,
    s: int,
    r: int,
    c: int,
    d: int,
    cubic: bool,
) -> int {
    let c1 = or_else(neighbour(img, w, h, vertical, s, r, c, -1), 0);
    if cubic {
        let c0 = or_else(neighbour(img, w, h, vertical, s, r, c, -3), c1);
        let c2 = or_else(neighbour(img, w, h, vertical, s, r, c, 1), c1);
        let c3 = or_else(neighbour(img, w, h, vertical, s, r, c, 3), c2);
        tdiv(cubic_spec(c0, c1, c2, c3), d)
    } else if vertical {
        let c2 = or_else(neighbour(img, w, h, vertical, s, r, c, 1), c1);
        tdiv(wrap16(c1 + c2) as int, d)
    } else {
        match neighbour(img, w, h, vertical, s, r, c, 1) {
            Some(c2) => tdiv(wrap16(c1 + c2) as int, d),
            None => tdiv(c1 as int, d / 2),
        }
    }
}

/// One lifting pass over the whole plane.
pub open spec fn pass(
    img: Seq<i16>,
    w: int,
    h: int,
    vertical: bool,
    s: int,
    odd: bool,
    d: int,
    cubic: bool,
) -> Seq<i16> {
    Seq::new(
        img.len(),
        |i: int|
            if selected(vertical, s, odd, i / w, i % w) {
                wrap16(img[i] + lift_delta(img, w, h, vertical, s, i / w, i % w, d, cubic))
            } else {
                img[i]
            },
    )
}

/// The dividers of the predict and the update pass of a filter.
pub open spec fn predict_divider(cubic: bool) -> int {
    if cubic {
        -1
    } else {
        -2
    }
}

pub open spec fn update_divider(cubic: bool) -> int {
    if cubic {
        2
    } else {
        4
    }
}

/// The passes of one level of the transform: predict and update along the
/// rows (when `s < w`), then along the columns (when `s < h`).
pub open spec fn lift_level(img: Seq<i16>, w: int, h: int, s: int, cubic: bool) -> Seq<i16> {
    let p = predict_divider(cubic);
    let u = update_divider(cubic);
    let a = if s < w {
        pass(pass(img, w, h, false, s, true, p, cubic), w, h, false, s, false, u, cubic)
    } else {
        img
    };
    if s < h {
        pass(pass(a, w, h, true, s, true, p, cubic), w, h, true, s, false, u, cubic)
    } else {
        a
    }
}

/// The passes that undo one level, in the reverse order.
pub open spec fn unlift_level(img: Seq<i16>, w: int, h: int, s: int, cubic: bool) -> Seq<i16> {
    let p = predict_divider(cubic);
    let u = update_divider(cubic);
    let a = if s < h {
        pass(pass(img, w, h, true, s, false, -u, cubic), w, h, true, s, true, -p, cubic)
    } else {
        img
    };
    if s < w {
        pass(pass(a, w, h, false, s, false, -u, cubic), w, h, false, s, true, -p, cubic)
    } else {
        a
    }
}

pub open spec fn level_active(w: int, h: int, s: int) -> bool {
    w >= 0 && h >= 0 && s >= 1 && (s < w || s < h)
}

/// The transform from level `s` up: levels `s`, `2s`, `4s`, ... while the
/// step is smaller than one of the sides.
pub open spec fn lift_from(img: Seq<i16>, w: int, h: int, s: int, cubic: bool) -> Seq<i16>
    decreases (if s < w + h { w + h - s } else { 0 }),
{
    if level_active(w, h, s) {
        lift_from(lift_level(img, w, h, s, cubic), w, h, 2 * s, cubic)
    } else {
        img
    }
}

/// Undoing the levels from `s` up: the largest level first, level `s` last.
pub open spec fn unlift_from(img: Seq<i16>, w: int, h: int, s: int, cubic: bool) -> Seq<i16>
    decreases (if s < w + h { w + h - s } else { 0 }),
{
    if level_active(w, h, s) {
        unlift_level(unlift_from(img, w, h, 2 * s, cubic), w, h, s, cubic)
    } else {
        img
    }
}

/// The whole forward transform of a plane `w` samples wide.
pub open spec fn lift_spec(img: Seq<i16>, w: int, cubic: bool) -> Seq<i16> {
    lift_from(img, w, img.len() as int / w, 1, cubic)
}

/// The whole inverse transform of a plane `w` samples wide.
pub open spec fn unlift_spec(img: Seq<i16>, w: int, cubic: bool) -> Seq<i16> {
    unlift_from(img, w, img.len() as int / w, 1, cubic)
}

/// A plane the transform accepts: at least one row of `w > 0` samples, and a
/// size that leaves room for index arithmetic.
pub open spec fn plane_ok(len: int, w: int) -> bool {
    &&& w > 0
    &&& len >= w
    &&& len % w == 0
    &&& len <= usize::MAX / 4
}

// ---------------------------------------------------------------------------
// Arithmetic facts.

pub proof fn lemma_wrap16_id(x: i16)
    ensures
        wrap16(x as int) == x,
{
}

pub proof fn lemma_wrap16_cancel(x: i16, d: int)
    ensures
        wrap16(wrap16(x + d) - d) == x,
{
    let y = wrap16(x + d);
    assert((y - d) % 65536 == (x as int) % 65536) by {
        vstd::arithmetic::div_mod::lemma_fundamental_div_mod(x + d, 65536);
        vstd::arithmetic::div_mod::lemma_fundamental_div_mod(y - d, 65536);
        vstd::arithmetic::div_mod::lemma_fundamental_div_mod(x as int, 65536);
    }
}

/// A quotient is no larger than the dividend.
pub proof fn lemma_tdiv_bound(a: int, b: int)
    requires
        b != 0,
    ensures
        -(if a < 0 { -a } else { a }) <= tdiv(a, b) <= (if a < 0 { -a } else { a }),
{
    let ua = if a < 0 { -a } else { a };
    let ub = if b < 0 { -b } else { b };
    assert(0 <= ua / ub <= ua) by (nonlinear_arith)
        requires
            ua >= 0,
            ub >= 1,
    ;
}

pub proof fn lemma_tdiv_neg(a: int, b: int)
    requires
        b != 0,
    ensures
        tdiv(a, -b) == -tdiv(a, b),
{
}

/// In a row of the pass, a position between two selected ones is not selected.
pub proof fn lemma_mod_gap(x: int, m: int, t: int)
    requires
        m > 0,
        0 < t < m,
        x >= 0,
    ensures
        (x + t) % m != x % m,
{
    vstd::arithmetic::div_mod::lemma_fundamental_div_mod(x, m);
    vstd::arithmetic::div_mod::lemma_fundamental_div_mod(x + t, m);
    vstd::arithmetic::div_mod::lemma_mod_pos_bound(x, m);
    vstd::arithmetic::div_mod::lemma_mod_pos_bound(x + t, m);
    if (x + t) % m == x % m {
        let q1 = (x + t) / m;
        let q0 = x / m;
        assert(m * q1 - m * q0 == t);
        assert(false) by (nonlinear_arith)
            requires
                m * q1 - m * q0 == t,
                0 < t < m,
        ;
    }
}

/// Moving an odd number of steps `s` from a multiple of `s` flips whether the
/// position is an odd multiple.
pub proof fn lemma_odd_shift(a: int, s: int, k: int)
    requires
        s >= 1,
        a % (2 * s) == 0 || a % (2 * s) == s,
        k % 2 == 1 || k % 2 == -1,
    ensures
        (a % (2 * s) == 0) ==> (a + k * s) % (2 * s) == s,
        (a % (2 * s) == s) ==> (a + k * s) % (2 * s) == 0,
{
    let m = 2 * s;
    let q = a / m;
    let rr = a % m;
    vstd::arithmetic::div_mod::lemma_fundamental_div_mod(a, m);
    let j = (k - 1) / 2;
    assert(k == 2 * j + 1);
    assert(k * s == m * j + s) by (nonlinear_arith)
        requires
            k == 2 * j + 1,
            m == 2 * s,
    ;
    if rr == 0 {
        assert(a + k * s == m * (q + j) + s) by (nonlinear_arith)
            requires
                a == m * q + rr,
                rr == 0,
                k * s == m * j + s,
        ;
        vstd::arithmetic::div_mod::lemma_fundamental_div_mod_converse(a + k * s, m, q + j, s);
    } else {
        assert(a + k * s == m * (q + j + 1) + 0) by (nonlinear_arith)
            requires
                a == m * q + rr,
                rr == s,
                k * s == m * j + s,
                m == 2 * s,
        ;
        vstd::arithmetic::div_mod::lemma_fundamental_div_mod_converse(a + k * s, m, q + j + 1, 0);
    }
}

/// The coordinates of the index `r * w + c`.
pub proof fn lemma_coords(w: int, r: int, c: int)
    requires
        w > 0,
        0 <= c < w,
    ensures
        (r * w + c) / w == r,
        (r * w + c) % w == c,
{
    vstd::arithmetic::mul::lemma_mul_is_commutative(r, w);
    vstd::arithmetic::div_mod::lemma_fundamental_div_mod_converse(r * w + c, w, r, c);
}

/// A selected sample lies inside the plane, and so does its index.
pub proof fn lemma_index_in_plane(w: int, h: int, i: int)
    requires
        w > 0,
        0 <= i < w * h,
    ensures
        0 <= i / w < h,
        0 <= i % w < w,
        i == (i / w) * w + i % w,
{
    vstd::arithmetic::div_mod::lemma_fundamental_div_mod(i, w);
    vstd::arithmetic::div_mod::lemma_mod_pos_bound(i, w);
    vstd::arithmetic::mul::lemma_mul_is_commutative(w, i / w);
    if i / w >= h {
        vstd::arithmetic::mul::lemma_mul_inequality(h, i / w, w);
        vstd::arithmetic::mul::lemma_mul_is_commutative(h, w);
    }
    if i / w < 0 {
        vstd::arithmetic::mul::lemma_mul_strict_inequality(i / w, 0, w);
    }
}

/// The neighbours that a pass reads are samples it does not select: a plane
/// that agrees with `img` outside the selection has the same neighbours.
proof fn lemma_neighbour_agree(
    img: Seq<i16>,
    p: Seq<i16>,
    w: int,
    h: int,
    vertical: bool,
    s: int,
    odd: bool,
    r: int,
    c: int,
    k: int,
)
    requires
        w > 0,
        h > 0,
        img.len() == w * h,
        p.len() == img.len(),
        forall|i: int|
            0 <= i < img.len() && !selected(vertical, s, odd, i / w, i % w) ==> p[i] == img[i],
        s >= 1,
        0 <= r < h,
        0 <= c < w,
        selected(vertical, s, odd, r, c),
        k == -3 || k == -1 || k == 1 || k == 3,
    ensures
        neighbour(p, w, h, vertical, s, r, c, k) == neighbour(img, w, h, vertical, s, r, c, k),
{
    if vertical {
        if 0 <= r + k * s < h {
            let i = (r + k * s) * w + c;
            lemma_coords(w, r + k * s, c);
            vstd::arithmetic::mul::lemma_mul_inequality(r + k * s, h - 1, w);
            assert((h - 1) * w + w == w * h) by (nonlinear_arith);
            vstd::arithmetic::mul::lemma_mul_nonnegative(r + k * s, w);
            lemma_odd_shift(r, s, k);
            assert(!selected(vertical, s, odd, r + k * s, c));
            assert(p[i] == img[i]);
        }
    } else {
        if 0 <= c + k * s < w {
            let i = r * w + (c + k * s);
            lemma_coords(w, r, c + k * s);
            vstd::arithmetic::mul::lemma_mul_inequality(r, h - 1, w);
            assert((h - 1) * w + w == w * h) by (nonlinear_arith);
            vstd::arithmetic::mul::lemma_mul_nonnegative(r, w);
            lemma_odd_shift(c, s, k);
            assert(!selected(vertical, s, odd, r, c + k * s));
            assert(p[i] == img[i]);
            assert(r * w + c + k * s == i);
        }
    }
}

/// A plane that agrees with `img` outside the selection of a pass gives the
/// same deltas at the selected samples.
proof fn lemma_delta_agree(
    img: Seq<i16>,
    p: Seq<i16>,
    w: int,
    h: int,
    vertical: bool,
    s: int,
    odd: bool,
    r: int,
    c: int,
    d: int,
    cubic: bool,
)
    requires
        w > 0,
        h > 0,
        img.len() == w * h,
        p.len() == img.len(),
        forall|i: int|
            0 <= i < img.len() && !selected(vertical, s, odd, i / w, i % w) ==> p[i] == img[i],
        s >= 1,
        0 <= r < h,
        0 <= c < w,
        selected(vertical, s, odd, r, c),
    ensures
        lift_delta(p, w, h, vertical, s, r, c, d, cubic) == lift_delta(
            img,
            w,
            h,
            vertical,
            s,
            r,
            c,
            d,
            cubic,
        ),
{
    lemma_neighbour_agree(img, p, w, h, vertical, s, odd, r, c, -3);
    lemma_neighbour_agree(img, p, w, h, vertical, s, odd, r, c, -1);
    lemma_neighbour_agree(img, p, w, h, vertical, s, odd, r, c, 1);
    lemma_neighbour_agree(img, p, w, h, vertical, s, odd, r, c, 3);
}

/// What a pass adds with divider `-d` is the opposite of what it adds with
/// `d`.
proof fn lemma_delta_neg(
    img: Seq<i16>,
    w: int,
    h: int,
    vertical: bool,
    s: int,
    r: int,
    c: int,
    d: int,
    cubic: bool,
)
    requires
        d != 0,
        cubic || d % 2 == 0,
    ensures
        lift_delta(img, w, h, vertical, s, r, c, -d, cubic) == -lift_delta(
            img,
            w,
            h,
            vertical,
            s,
            r,
            c,
            d,
            cubic,
        ),
{
    if !cubic && !vertical {
        assert((-d) / 2 == -(d / 2));
    }
}

/// A pass with divider `-d` undoes the pass with divider `d`.
pub proof fn lemma_pass_inverse(
    img: Seq<i16>,
    w: int,
    h: int,
    vertical: bool,
    s: int,
    odd: bool,
    d: int,
    cubic: bool,
)
    requires
        w > 0,
        h > 0,
        img.len() == w * h,
        s >= 1,
        d != 0,
        cubic || d % 2 == 0,
    ensures
        pass(pass(img, w, h, vertical, s, odd, d, cubic), w, h, vertical, s, odd, -d, cubic)
            == img,
{
    let p1 = pass(img, w, h, vertical, s, odd, d, cubic);
    let p2 = pass(p1, w, h, vertical, s, odd, -d, cubic);
    assert forall|i: int| 0 <= i < img.len() implies p2[i] == img[i] by {
        let r = i / w;
        let c = i % w;
        lemma_index_in_plane(w, h, i);
        if selected(vertical, s, odd, r, c) {
            lemma_delta_agree(img, p1, w, h, vertical, s, odd, r, c, -d, cubic);
            lemma_delta_neg(img, w, h, vertical, s, r, c, d, cubic);
            lemma_wrap16_cancel(img[i], lift_delta(img, w, h, vertical, s, r, c, d, cubic));
        }
    }
    assert(p2 =~= img);
}

/// Undoing a level restores what the level was applied to.
pub proof fn lemma_level_inverse(img: Seq<i16>, w: int, h: int, s: int, cubic: bool)
    requires
        w > 0,
        h > 0,
        img.len() == w * h,
        s >= 1,
    ensures
        unlift_level(lift_level(img, w, h, s, cubic), w, h, s, cubic) == img,
        lift_level(img, w, h, s, cubic).len() == img.len(),
{
    let p = predict_divider(cubic);
    let u = update_divider(cubic);
    let a0 = pass(img, w, h, false, s, true, p, cubic);
    let a = if s < w {
        pass(a0, w, h, false, s, false, u, cubic)
    } else {
        img
    };
    let b0 = pass(a, w, h, true, s, true, p, cubic);
    let b = if s < h {
        pass(b0, w, h, true, s, false, u, cubic)
    } else {
        a
    };
    assert(b == lift_level(img, w, h, s, cubic));
    if s < h {
        lemma_pass_inverse(b0, w, h, true, s, false, u, cubic);
        lemma_pass_inverse(a, w, h, true, s, true, p, cubic);
    }
    if s < w {
        lemma_pass_inverse(a0, w, h, false, s, false, u, cubic);
        lemma_pass_inverse(img, w, h, false, s, true, p, cubic);
    }
}

/// Undoing the levels from `s` up restores what they were applied to.
proof fn lemma_unlift_from_lift_from(img: Seq<i16>, w: int, h: int, s: int, cubic: bool)
    requires
        w > 0,
        h > 0,
        img.len() == w * h,
        s >= 1,
    ensures
        unlift_from(lift_from(img, w, h, s, cubic), w, h, s, cubic) == img,
        lift_from(img, w, h, s, cubic).len() == img.len(),
    decreases (if s < w + h { w + h - s } else { 0 }),
{
    if level_active(w, h, s) {
        let l = lift_level(img, w, h, s, cubic);
        lemma_level_inverse(img, w, h, s, cubic);
        lemma_unlift_from_lift_from(l, w, h, 2 * s, cubic);
    }
}

/// The inverse transform undoes the forward transform, for both filters and
/// every plane: compression at full quality loses nothing in this step.
pub proof fn lemma_unlift_lift(img: Seq<i16>, w: int, cubic: bool)
    requires
        w > 0,
        img.len() >= w,
        img.len() as int % w == 0,
    ensures
        unlift_spec(lift_spec(img, w, cubic), w, cubic) == img,
        lift_spec(img, w, cubic).len() == img.len(),
{
    let h = img.len() as int / w;
    vstd::arithmetic::div_mod::lemma_fundamental_div_mod(img.len() as int, w);
    vstd::arithmetic::div_mod::lemma_div_pos_is_pos(img.len() as int, w);
    lemma_unlift_from_lift_from(img, w, h, 1, cubic);
}

// ---------------------------------------------------------------------------
// Executable parts.

/// `v` reduced to 16 bits.
pub fn wrap_i16(v: i32) -> (r: i16)
    requires
        -98304 <= v < 98304,
    ensures
        r == wrap16(v as int),
{
    if v > 32767 {
        (v - 65536) as i16
    } else if v < -32768 {
        (v + 65536) as i16
    } else {
        v as i16
    }
}

/// `a / b` rounded towards zero.
pub fn div_trunc(a: i32, b: i32) -> (q: i32)
    requires
        b != 0,
        a > i32::MIN,
        b > i32::MIN,
    ensures
        q == tdiv(a as int, b as int),
{
    let ua = if a < 0 {
        -a
    } else {
        a
    };
    let ub = if b < 0 {
        -b
    } else {
        b
    };
    let q = ua / ub;
    if (a < 0) != (b < 0) {
        -q
    } else {
        q
    }
}

/// The index of row `r`, column `c`, which lies inside the plane.
pub proof fn lemma_index_bound(w: int, h: int, r: int, c: int)
    requires
        w > 0,
        0 <= r < h,
        0 <= c < w,
    ensures
        0 <= r * w + c < w * h,
        r * w <= (h - 1) * w,
{
    vstd::arithmetic::mul::lemma_mul_inequality(r, h - 1, w);
    vstd::arithmetic::mul::lemma_mul_nonnegative(r, w);
    assert((h - 1) * w + w == w * h) by (nonlinear_arith);
}

/// Reads the neighbour `k` steps of `s` away along the axis of a pass.
fn neighbour_at(
    img: &[i16],
    w: usize,
    h: usize,
    vertical: bool,
    s: usize,
    r: usize,
    c: usize,
    k: i32,
) -> (v: Option<i16>)
    requires
        plane_ok(img@.len() as int, w as int),
        img@.len() == w * h,
        1 <= s,
        s < w || s < h,
        r < h,
        c < w,
        k == -3 || k == -1 || k == 1 || k == 3,
    ensures
        v == neighbour(img@, w as int, h as int, vertical, s as int, r as int, c as int, k as int),
{
    proof {
        lemma_index_bound(w as int, h as int, r as int, c as int);
        assert(h <= w * h) by (nonlinear_arith)
            requires
                w >= 1,
        ;
    }
    let m: usize = if k < 0 {
        (-k) as usize
    } else {
        k as usize
    };
    assert(m * s <= 3 * s) by (nonlinear_arith)
        requires
            m <= 3,
    ;
    assert(k * s == (if k < 0 { -(m * s) } else { m * s })) by (nonlinear_arith)
        requires
            m == (if k < 0 { -k } else { k as int }),
    ;
    if vertical {
        let rk: usize = if k < 0 {
            if r < m * s {
                return None;
            }
            r - m * s
        } else {
            if r + m * s >= h {
                return None;
            }
            r + m * s
        };
        proof {
            lemma_index_bound(w as int, h as int, rk as int, c as int);
            assert(rk as int == r + k * s) by (nonlinear_arith)
                requires
                    k < 0 ==> rk == r - m * s,
                    k >= 0 ==> rk == r + m * s,
                    m == (if k < 0 { -k } else { k as int }),
            ;
        }
        Some(img[rk * w + c])
    } else {
        let ck: usize = if k < 0 {
            if c < m * s {
                return None;
            }
            c - m * s
        } else {
            if c + m * s >= w {
                return None;
            }
            c + m * s
        };
        proof {
            lemma_index_bound(w as int, h as int, r as int, ck as int);
            assert(ck as int == c + k * s) by (nonlinear_arith)
                requires
                    k < 0 ==> ck == c - m * s,
                    k >= 0 ==> ck == c + m * s,
                    m == (if k < 0 { -k } else { k as int }),
            ;
        }
        Some(img[r * w + ck])
    }
}

/// The rows and the columns that a pass visits.
pub open spec fn along_ok(s: int, odd: bool, a: int) -> bool {
    if odd {
        a % (2 * s) == s
    } else {
        a % (2 * s) == 0 && a >= 2 * s
    }
}

pub open spec fn row_ok(vertical: bool, s: int, odd: bool, r: int) -> bool {
    if vertical {
        along_ok(s, odd, r)
    } else {
        r % s == 0
    }
}

pub open spec fn col_ok(vertical: bool, s: int, odd: bool, c: int) -> bool {
    if vertical {
        c % s == 0
    } else {
        along_ok(s, odd, c)
    }
}

/// Whether index `i` comes before row `rr`, column `x` in row-major order.
pub open spec fn done(i: int, w: int, rr: int, x: int) -> bool {
    i / w < rr || (i / w == rr && i % w < x)
}

/// A pass carried out on the samples before row `rr`, column `x`.
pub open spec fn partial(
    img: Seq<i16>,
    w: int,
    h: int,
    vertical: bool,
    s: int,
    odd: bool,
    d: int,
    cubic: bool,
    rr: int,
    x: int,
) -> Seq<i16> {
    Seq::new(
        img.len(),
        |i: int|
            if selected(vertical, s, odd, i / w, i % w) && done(i, w, rr, x) {
                pass(img, w, h, vertical, s, odd, d, cubic)[i]
            } else {
                img[i]
            },
    )
}

/// Rows (or columns) strictly between two visited ones are not visited.
proof fn lemma_pattern_gap(s: int, odd: bool, vertical: bool, a: int, t: int, is_row: bool)
    requires
        s >= 1,
        a >= 0,
        is_row ==> row_ok(vertical, s, odd, a),
        !is_row ==> col_ok(vertical, s, odd, a),
        0 < t < (if vertical == is_row { 2 * s } else { s }),
    ensures
        is_row ==> !row_ok(vertical, s, odd, a + t),
        !is_row ==> !col_ok(vertical, s, odd, a + t),
{
    if vertical == is_row {
        lemma_mod_gap(a, 2 * s, t);
    } else {
        lemma_mod_gap(a, s, t);
    }
}

/// Visiting the sample at row `rr`, column `x` and moving `t` columns on.
proof fn lemma_partial_step(
    img: Seq<i16>,
    cur: Seq<i16>,
    w: int,
    h: int,
    vertical: bool,
    s: int,
    odd: bool,
    d: int,
    cubic: bool,
    rr: int,
    x: int,
    t: int,
)
    requires
        w > 0,
        h > 0,
        img.len() == w * h,
        s >= 1,
        0 <= rr < h,
        0 <= x < w,
        row_ok(vertical, s, odd, rr),
        col_ok(vertical, s, odd, x),
        t == (if vertical { s } else { 2 * s }),
        cur == partial(img, w, h, vertical, s, odd, d, cubic, rr, x).update(
            rr * w + x,
            pass(img, w, h, vertical, s, odd, d, cubic)[rr * w + x],
        ),
    ensures
        cur == partial(img, w, h, vertical, s, odd, d, cubic, rr, x + t),
{
    let p = partial(img, w, h, vertical, s, odd, d, cubic, rr, x + t);
    lemma_coords(w, rr, x);
    lemma_index_bound(w, h, rr, x);
    assert forall|j: int| 0 <= j < img.len() implies cur[j] == p[j] by {
        lemma_index_in_plane(w, h, j);
        if j != rr * w + x && j / w == rr && x < j % w < x + t {
            lemma_pattern_gap(s, odd, vertical, x, j % w - x, false);
        }
        if j == rr * w + x {
        } else {
        }
    }
    assert(cur =~= p);
}

/// Finishing row `rr` and moving on to the next visited row.
proof fn lemma_partial_row(
    img: Seq<i16>,
    w: int,
    h: int,
    vertical: bool,
    s: int,
    odd: bool,
    d: int,
    cubic: bool,
    rr: int,
    x: int,
    t: int,
)
    requires
        w > 0,
        h > 0,
        img.len() == w * h,
        s >= 1,
        0 <= rr,
        x >= w,
        row_ok(vertical, s, odd, rr),
        t == (if vertical { 2 * s } else { s }),
    ensures
        partial(img, w, h, vertical, s, odd, d, cubic, rr, x) == partial(
            img,
            w,
            h,
            vertical,
            s,
            odd,
            d,
            cubic,
            rr + t,
            0,
        ),
{
    let p1 = partial(img, w, h, vertical, s, odd, d, cubic, rr, x);
    let p2 = partial(img, w, h, vertical, s, odd, d, cubic, rr + t, 0);
    assert forall|j: int| 0 <= j < img.len() implies p1[j] == p2[j] by {
        lemma_index_in_plane(w, h, j);
        if rr < j / w < rr + t {
            lemma_pattern_gap(s, odd, vertical, rr, j / w - rr, true);
        }
    }
    assert(p1 =~= p2);
}

/// Starting a visited row at its first visited column.
proof fn lemma_partial_row_start(
    img: Seq<i16>,
    w: int,
    h: int,
    vertical: bool,
    s: int,
    odd: bool,
    d: int,
    cubic: bool,
    rr: int,
    x: int,
)
    requires
        w > 0,
        h > 0,
        img.len() == w * h,
        s >= 1,
        x == (if vertical { 0 } else { if odd { s } else { 2 * s } }),
    ensures
        partial(img, w, h, vertical, s, odd, d, cubic, rr, 0) == partial(
            img,
            w,
            h,
            vertical,
            s,
            odd,
            d,
            cubic,
            rr,
            x,
        ),
{
    let p1 = partial(img, w, h, vertical, s, odd, d, cubic, rr, 0);
    let p2 = partial(img, w, h, vertical, s, odd, d, cubic, rr, x);
    assert forall|j: int| 0 <= j < img.len() implies p1[j] == p2[j] by {
        lemma_index_in_plane(w, h, j);
        if j % w < x {
            vstd::arithmetic::div_mod::lemma_small_mod((j % w) as nat, (2 * s) as nat);
        }
    }
    assert(p1 =~= p2);
}

/// Carries out one pass.
fn run_pass(
    img: &mut [i16],
    w: usize,
    h: usize,
    vertical: bool,
    s: usize,
    odd: bool,
    d: i32,
    cubic: bool,
)
    requires
        plane_ok(old(img)@.len() as int, w as int),
        old(img)@.len() == w * h,
        1 <= s,
        vertical ==> s < h,
        !vertical ==> s < w,
        cubic ==> (d == -2 || d == -1 || d == 1 || d == 2),
        !cubic ==> (d == -4 || d == -2 || d == 2 || d == 4),
    ensures
        final(img)@ == pass(old(img)@, w as int, h as int, vertical, s as int, odd, d as int, cubic),
{
    let ghost old_img = img@;
    let ghost wi = w as int;
    let ghost hi = h as int;
    proof {
        assert(h <= w * h && h >= 1) by (nonlinear_arith)
            requires
                w >= 1,
                w * h >= w,
        ;
    }
    let first = if odd {
        s
    } else {
        2 * s
    };
    let (r0, rstep, c0, cstep) = if vertical {
        (first, 2 * s, 0usize, s)
    } else {
        (0usize, s, first, 2 * s)
    };
    proof {
        assert(row_ok(vertical, s as int, odd, r0 as int)) by {
            vstd::arithmetic::div_mod::lemma_small_mod(s as nat, (2 * s) as nat);
            vstd::arithmetic::div_mod::lemma_mod_self_0((2 * s) as int);
            vstd::arithmetic::div_mod::lemma_small_mod(0, s as nat);
        }
        assert(col_ok(vertical, s as int, odd, c0 as int)) by {
            vstd::arithmetic::div_mod::lemma_small_mod(s as nat, (2 * s) as nat);
            vstd::arithmetic::div_mod::lemma_mod_self_0((2 * s) as int);
            vstd::arithmetic::div_mod::lemma_small_mod(0, s as nat);
        }
        let p0 = partial(old_img, wi, hi, vertical, s as int, odd, d as int, cubic, r0 as int, 0);
        assert forall|j: int| 0 <= j < old_img.len() implies p0[j] == old_img[j] by {
            lemma_index_in_plane(wi, hi, j);
            if j / wi < r0 {
                vstd::arithmetic::div_mod::lemma_small_mod((j / wi) as nat, (2 * s) as nat);
            }
        }
        assert(p0 =~= old_img);
    }
    let mut r = r0;
    while r < h
        invariant
            old_img == old(img)@,
            wi == w,
            hi == h,
            plane_ok(old_img.len() as int, wi),
            old_img.len() == w * h,
            1 <= s,
            h <= old_img.len(),
            vertical ==> s < h,
            !vertical ==> s < w,
            cubic ==> (d == -2 || d == -1 || d == 1 || d == 2),
            !cubic ==> (d == -4 || d == -2 || d == 2 || d == 4),
            rstep == (if vertical { 2 * s } else { s as int }),
            cstep == (if vertical { s as int } else { 2 * s }),
            col_ok(vertical, s as int, odd, c0 as int),
            c0 == (if vertical { 0 } else { if odd { s as int } else { 2 * s } }),
            r <= old_img.len() + 2 * s,
            row_ok(vertical, s as int, odd, r as int),
            img@ == partial(old_img, wi, hi, vertical, s as int, odd, d as int, cubic, r as int, 0),
        decreases old_img.len() + 2 * s - r,
    {
        proof {
            lemma_partial_row_start(old_img, wi, hi, vertical, s as int, odd, d as int, cubic, r as int, c0 as int);
        }
        let mut c = c0;
        while c < w
            invariant
                old_img == old(img)@,
                wi == w,
                hi == h,
                plane_ok(old_img.len() as int, wi),
                old_img.len() == w * h,
                1 <= s,
                h <= old_img.len(),
                vertical ==> s < h,
                !vertical ==> s < w,
                cubic ==> (d == -2 || d == -1 || d == 1 || d == 2),
                !cubic ==> (d == -4 || d == -2 || d == 2 || d == 4),
                cstep == (if vertical { s as int } else { 2 * s }),
                r < h,
                c <= w + 2 * s,
                row_ok(vertical, s as int, odd, r as int),
                col_ok(vertical, s as int, odd, c as int),
                img@ == partial(old_img, wi, hi, vertical, s as int, odd, d as int, cubic, r as int, c as int),
            decreases w + 2 * s - c,
        {
            proof {
                lemma_index_bound(wi, hi, r as int, c as int);
                lemma_coords(wi, r as int, c as int);
                let cur = img@;
                assert forall|j: int|
                    0 <= j < old_img.len() && !selected(vertical, s as int, odd, j / wi, j % wi)
                    implies cur[j] == old_img[j] by {}
                lemma_delta_agree(old_img, cur, wi, hi, vertical, s as int, odd, r as int, c as int, d as int, cubic);
            }
            let i = r * w + c;
            let delta = if cubic {
                cubic_delta(img, w, h, vertical, s, r, c, d)
            } else {
                linear_delta(img, w, h, vertical, s, r, c, d)
            };
            let v = wrap_i16(img[i] as i32 + delta);
            let ghost before = img@;
            img[i] = v;
            proof {
                assert(img@ == before.update(i as int, v));
                lemma_partial_step(old_img, img@, wi, hi, vertical, s as int, odd, d as int, cubic, r as int, c as int, cstep as int);
            }
            proof {
                vstd::arithmetic::div_mod::lemma_mod_add_multiples_vanish(c as int, cstep as int);
            }
            c = c + cstep;
        }
        proof {
            lemma_partial_row(old_img, wi, hi, vertical, s as int, odd, d as int, cubic, r as int, c as int, rstep as int);
        }
        proof {
            vstd::arithmetic::div_mod::lemma_mod_add_multiples_vanish(r as int, rstep as int);
        }
        r = r + rstep;
    }
    proof {
        let p = pass(old_img, wi, hi, vertical, s as int, odd, d as int, cubic);
        let q = partial(old_img, wi, hi, vertical, s as int, odd, d as int, cubic, r as int, 0);
        assert forall|j: int| 0 <= j < old_img.len() implies q[j] == p[j] by {
            lemma_index_in_plane(wi, hi, j);
        }
        assert(q =~= p);
    }
}

/// Carries out one level of the forward transform.
fn lift_level_exec(img: &mut [i16], w: usize, h: usize, s: usize, cubic: bool)
    requires
        plane_ok(old(img)@.len() as int, w as int),
        old(img)@.len() == w * h,
        1 <= s,
    ensures
        final(img)@ == lift_level(old(img)@, w as int, h as int, s as int, cubic),
{
    let p: i32 = if cubic {
        -1
    } else {
        -2
    };
    let u: i32 = if cubic {
        2
    } else {
        4
    };
    if s < w {
        run_pass(img, w, h, false, s, true, p, cubic);
        run_pass(img, w, h, false, s, false, u, cubic);
    }
    if s < h {
        run_pass(img, w, h, true, s, true, p, cubic);
        run_pass(img, w, h, true, s, false, u, cubic);
    }
}

/// Undoes one level of the transform.
fn unlift_level_exec(img: &mut [i16], w: usize, h: usize, s: usize, cubic: bool)
    requires
        plane_ok(old(img)@.len() as int, w as int),
        old(img)@.len() == w * h,
        1 <= s,
    ensures
        final(img)@ == unlift_level(old(img)@, w as int, h as int, s as int, cubic),
{
    let p: i32 = if cubic {
        1
    } else {
        2
    };
    let u: i32 = if cubic {
        -2
    } else {
        -4
    };
    if s < h {
        run_pass(img, w, h, true, s, false, u, cubic);
        run_pass(img, w, h, true, s, true, p, cubic);
    }
    if s < w {
        run_pass(img, w, h, false, s, false, u, cubic);
        run_pass(img, w, h, false, s, true, p, cubic);
    }
}

proof fn lemma_plane_height(len: int, w: int)
    requires
        plane_ok(len, w),
    ensures
        len == w * (len / w),
        1 <= len / w <= len,
{
    vstd::arithmetic::div_mod::lemma_fundamental_div_mod(len, w);
    let h = len / w;
    assert(1 <= h <= len) by (nonlinear_arith)
        requires
            len == w * h,
            w >= 1,
            len >= w,
    ;
}

/// Undoing one more level.
proof fn lemma_unlift_step(img: Seq<i16>, w: int, h: int, s: int, cubic: bool)
    requires
        w > 0,
        h > 0,
        s >= 1,
    ensures
        unlift_level(unlift_from(img, w, h, 2 * s, cubic), w, h, s, cubic) == unlift_from(
            img,
            w,
            h,
            s,
            cubic,
        ),
{
    if !level_active(w, h, s) {
        assert(!level_active(w, h, 2 * s));
    }
}

/// The forward transform of a plane `w` samples wide, with the linear or the
/// cubic filter.
pub(crate) fn lift(img: &mut [i16], w: usize, cubic: bool)
    requires
        plane_ok(old(img)@.len() as int, w as int),
    ensures
        final(img)@ == lift_spec(old(img)@, w as int, cubic),
{
    let ghost old_img = img@;
    let h = img.len() / w;
    proof {
        lemma_plane_height(img@.len() as int, w as int);
    }
    let mut step: usize = 1;
    while step < h || step < w
        invariant
            plane_ok(old_img.len() as int, w as int),
            img@.len() == old_img.len(),
            old_img.len() == w * h,
            h <= old_img.len(),
            1 <= step <= 2 * old_img.len(),
            lift_from(img@, w as int, h as int, step as int, cubic) == lift_from(
                old_img,
                w as int,
                h as int,
                1,
                cubic,
            ),
        decreases 2 * old_img.len() + 1 - step,
    {
        lift_level_exec(img, w, h, step, cubic);
        proof {
            lemma_level_inverse(img@, w as int, h as int, step as int, cubic);
        }
        step = step * 2;
    }
    proof {
        lemma_level_inverse(img@, w as int, h as int, 1, cubic);
    }
}

/// The inverse transform of a plane `w` samples wide.
pub(crate) fn unlift(img: &mut [i16], w: usize, cubic: bool)
    requires
        plane_ok(old(img)@.len() as int, w as int),
    ensures
        final(img)@ == unlift_spec(old(img)@, w as int, cubic),
{
    let ghost old_img = img@;
    let h = img.len() / w;
    proof {
        lemma_plane_height(img@.len() as int, w as int);
    }
    let mut step: usize = 1;
    let ghost mut k: nat = 0;
    proof {
        vstd::arithmetic::power2::lemma2_to64();
    }
    while 2 * step < h || 2 * step < w
        invariant
            old_img.len() == w * h,
            h <= old_img.len(),
            1 <= h,
            plane_ok(old_img.len() as int, w as int),
            1 <= step <= old_img.len(),
            step == vstd::arithmetic::power2::pow2(k),
        decreases w + h - step,
    {
        step = step * 2;
        proof {
            vstd::arithmetic::power2::lemma_pow2_unfold(k + 1);
            k = k + 1;
        }
    }
    proof {
        assert(unlift_from(old_img, w as int, h as int, 2 * step, cubic) == old_img);
    }
    loop
        invariant_except_break
            img@ == unlift_from(old_img, w as int, h as int, 2 * step, cubic),
        invariant
            old_img.len() == w * h,
            h <= old_img.len(),
            plane_ok(old_img.len() as int, w as int),
            img@.len() == old_img.len(),
            1 <= h,
            h == old_img.len() as int / (w as int),
            1 <= step <= old_img.len(),
            step == vstd::arithmetic::power2::pow2(k),
        ensures
            img@ == unlift_from(old_img, w as int, h as int, 1, cubic),
        decreases step,
    {
        proof {
            lemma_unlift_from_len(old_img, w as int, h as int, 2 * step, cubic);
        }
        unlift_level_exec(img, w, h, step, cubic);
        proof {
            lemma_unlift_step(old_img, w as int, h as int, step as int, cubic);
        }
        if step == 1 {
            break;
        }
        proof {
            vstd::arithmetic::power2::lemma2_to64();
            assert(k > 0);
            vstd::arithmetic::power2::lemma_pow2_unfold(k);
            k = (k - 1) as nat;
        }
        step = step / 2;
    }
}

/// Each level of either transform keeps the size of the plane.
proof fn lemma_from_len_any(img: Seq<i16>, w: int, h: int, s: int, cubic: bool)
    ensures
        lift_from(img, w, h, s, cubic).len() == img.len(),
        unlift_from(img, w, h, s, cubic).len() == img.len(),
    decreases (if s < w + h { w + h - s } else { 0 }),
{
    if level_active(w, h, s) {
        lemma_from_len_any(lift_level(img, w, h, s, cubic), w, h, 2 * s, cubic);
        lemma_from_len_any(img, w, h, 2 * s, cubic);
    }
}

/// The forward and the inverse transform keep the size of the plane.
pub proof fn lemma_transform_len(img: Seq<i16>, w: int, cubic: bool)
    ensures
        lift_spec(img, w, cubic).len() == img.len(),
        unlift_spec(img, w, cubic).len() == img.len(),
{
    lemma_from_len_any(img, w, img.len() as int / w, 1, cubic);
}

/// The inverse transform keeps the size of the plane.
proof fn lemma_unlift_from_len(img: Seq<i16>, w: int, h: int, s: int, cubic: bool)
    requires
        w > 0,
        h > 0,
        img.len() == w * h,
        s >= 1,
    ensures
        unlift_from(img, w, h, s, cubic).len() == img.len(),
    decreases (if s < w + h { w + h - s } else { 0 }),
{
    if level_active(w, h, s) {
        lemma_unlift_from_len(img, w, h, 2 * s, cubic);
    }
}

/// Any 32-bit number reduced to 16 bits.
pub fn wrap_i32(t: i32) -> (r: i16)
    ensures
        r == wrap16(t as int),
{
    let shifted = (t as i64 + 0x1_0000_0000i64) as u64;
    let m = (shifted % 65536) as i32;
    proof {
        assert((shifted as int) % 65536 == (t as int) % 65536) by {
            assert(shifted as int == t as int + 65536 * 65536);
            vstd::arithmetic::div_mod::lemma_fundamental_div_mod(t as int, 65536);
            vstd::arithmetic::div_mod::lemma_fundamental_div_mod_converse(
                shifted as int,
                65536,
                (t as int) / 65536 + 65536,
                (t as int) % 65536,
            );
        }
    }
    wrap_i16(m)
}

/// Any 64-bit number reduced to 16 bits.
pub fn wrap_i64(v: i64) -> (r: i16)
    ensures
        r == wrap16(v as int),
{
    if v >= 0 {
        let m = (v % 65536) as i32;
        wrap_i16(m)
    } else {
        let u = -(v + 1);
        let m = 65535 - (u % 65536) as i32;
        proof {
            let ui = u as int;
            vstd::arithmetic::div_mod::lemma_fundamental_div_mod(ui, 65536);
            let q = ui / 65536;
            assert(v as int == 65536 * (-q - 1) + (65535 - ui % 65536));
            vstd::arithmetic::div_mod::lemma_fundamental_div_mod_converse(
                v as int,
                65536,
                -q - 1,
                65535 - ui % 65536,
            );
        }
        wrap_i16(m)
    }
}

} // verus!
