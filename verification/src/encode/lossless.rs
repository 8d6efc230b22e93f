//! What coding a chunk guarantees: decoding the bits that `encode` writes
//! gives back every coefficient it coded.
//!
//! The coder visits the coefficients of a step in a fixed order; here that
//! order is spelled out as a sequence of positions, the encoder and the
//! decoder are folds over it, and the two folds are run side by side.
use vstd::prelude::*;

use vstd::arithmetic::power2::pow2;

use super::context::{ancestor, context_sums, context_terms};
use super::golomb::{
    interleave, interleaved_decode_spec, lemma_interleaved_code_decodes, lemma_signed_code_at,
    lemma_unsigned_code_len,
    lemma_unsigned_code_decodes, lemma_unsigned_decode_shift, signed_code_bits, signed_decode_spec,
    unsigned_code_bits, unsigned_decode_spec,
};
use super::{choice_bits, choice_decode, code_choice};
use super::context::context_of;
use super::golomb::wrap32;
use crate::lifting::{lemma_wrap16_id, wrap16};
use super::block::{
    block_chunk_ok, decode_spec, dec_after_run, dec_place, dec_row, dec_rows, dec_step, enc_coded, enc_row,
    enc_rows, enc_step, enc_turbo, encode_bits, initial_run_coder, lemma_context_readable,
    lemma_pow2_shift, row_step, sample_index, size_x, size_y, DecState, EncState,
};
use crate::header::Encoder;
use crate::processing::image::ImageChunkMut;

verus! {

/// The positions the coder visits on relative row `y`, from column `x` on.
pub open spec fn row_positions(c: ImageChunkMut, x: int, y: int) -> Seq<(int, int)>
    decreases (if x < size_x(c) { size_x(c) - x } else { 0 }),
{
    if x < 0 || x >= size_x(c) || c.step == 0 {
        Seq::empty()
    } else {
        seq![(x, y)] + row_positions(c, x + row_step(c, y), y)
    }
}

/// The positions the coder visits from relative row `y` on, row by row.
pub open spec fn pass_positions(c: ImageChunkMut, y: int) -> Seq<(int, int)>
    decreases (if y < size_y(c) { size_y(c) - y } else { 0 }),
{
    if y < 0 || y >= size_y(c) || c.step == 0 {
        Seq::empty()
    } else {
        row_positions(c, row_step(c, y) - c.step, y) + pass_positions(c, y + c.step)
    }
}

/// The encoder run over a sequence of positions.
pub open spec fn enc_fold(
    c: ImageChunkMut,
    data: Seq<i16>,
    scheme: Encoder,
    q: i32,
    is_chroma: bool,
    st: EncState,
    ps: Seq<(int, int)>,
) -> EncState
    decreases ps.len(),
{
    if ps.len() == 0 {
        st
    } else {
        enc_fold(
            c,
            data,
            scheme,
            q,
            is_chroma,
            enc_step(c, data, scheme, q, is_chroma, st, ps[0].0, ps[0].1),
            ps.drop_first(),
        )
    }
}

/// The decoder run over a sequence of positions.
pub open spec fn dec_fold(
    c: ImageChunkMut,
    bits: Seq<bool>,
    scheme: Encoder,
    q: i32,
    is_chroma: bool,
    st: Option<DecState>,
    ps: Seq<(int, int)>,
) -> Option<DecState>
    decreases ps.len(),
{
    match st {
        None => None,
        Some(s) => if ps.len() == 0 {
            st
        } else {
            dec_fold(
                c,
                bits,
                scheme,
                q,
                is_chroma,
                dec_step(c, bits, scheme, q, is_chroma, s, ps[0].0, ps[0].1),
                ps.drop_first(),
            )
        },
    }
}

proof fn lemma_enc_fold_concat(
    c: ImageChunkMut,
    data: Seq<i16>,
    scheme: Encoder,
    q: i32,
    is_chroma: bool,
    st: EncState,
    a: Seq<(int, int)>,
    b: Seq<(int, int)>,
)
    ensures
        enc_fold(c, data, scheme, q, is_chroma, st, a + b) == enc_fold(
            c,
            data,
            scheme,
            q,
            is_chroma,
            enc_fold(c, data, scheme, q, is_chroma, st, a),
            b,
        ),
    decreases a.len(),
{
    if a.len() == 0 {
        assert(a + b =~= b);
    } else {
        assert((a + b)[0] == a[0]);
        assert((a + b).drop_first() =~= a.drop_first() + b);
        lemma_enc_fold_concat(
            c,
            data,
            scheme,
            q,
            is_chroma,
            enc_step(c, data, scheme, q, is_chroma, st, a[0].0, a[0].1),
            a.drop_first(),
            b,
        );
    }
}

proof fn lemma_dec_fold_concat(
    c: ImageChunkMut,
    bits: Seq<bool>,
    scheme: Encoder,
    q: i32,
    is_chroma: bool,
    st: Option<DecState>,
    a: Seq<(int, int)>,
    b: Seq<(int, int)>,
)
    ensures
        dec_fold(c, bits, scheme, q, is_chroma, st, a + b) == dec_fold(
            c,
            bits,
            scheme,
            q,
            is_chroma,
            dec_fold(c, bits, scheme, q, is_chroma, st, a),
            b,
        ),
    decreases a.len(),
{
    match st {
        None => {},
        Some(s) => {
            if a.len() == 0 {
                assert(a + b =~= b);
            } else {
                assert((a + b)[0] == a[0]);
                assert((a + b).drop_first() =~= a.drop_first() + b);
                lemma_dec_fold_concat(
                    c,
                    bits,
                    scheme,
                    q,
                    is_chroma,
                    dec_step(c, bits, scheme, q, is_chroma, s, a[0].0, a[0].1),
                    a.drop_first(),
                    b,
                );
            }
        },
    }
}

proof fn lemma_enc_row_fold(
    c: ImageChunkMut,
    data: Seq<i16>,
    scheme: Encoder,
    q: i32,
    is_chroma: bool,
    st: EncState,
    x: int,
    y: int,
)
    ensures
        enc_row(c, data, scheme, q, is_chroma, st, x, y) == enc_fold(
            c,
            data,
            scheme,
            q,
            is_chroma,
            st,
            row_positions(c, x, y),
        ),
    decreases (if x < size_x(c) { size_x(c) - x } else { 0 }),
{
    if !(x < 0 || x >= size_x(c) || c.step == 0) {
        let next = enc_step(c, data, scheme, q, is_chroma, st, x, y);
        lemma_enc_row_fold(c, data, scheme, q, is_chroma, next, x + row_step(c, y), y);
        let ps = row_positions(c, x, y);
        assert(ps[0] == (x, y));
        assert(ps.drop_first() =~= row_positions(c, x + row_step(c, y), y));
    }
}

proof fn lemma_dec_row_fold(
    c: ImageChunkMut,
    bits: Seq<bool>,
    scheme: Encoder,
    q: i32,
    is_chroma: bool,
    st: Option<DecState>,
    x: int,
    y: int,
)
    ensures
        dec_row(c, bits, scheme, q, is_chroma, st, x, y) == dec_fold(
            c,
            bits,
            scheme,
            q,
            is_chroma,
            st,
            row_positions(c, x, y),
        ),
    decreases (if x < size_x(c) { size_x(c) - x } else { 0 }),
{
    match st {
        None => {},
        Some(s) => {
            if !(x < 0 || x >= size_x(c) || c.step == 0) {
                let next = dec_step(c, bits, scheme, q, is_chroma, s, x, y);
                lemma_dec_row_fold(c, bits, scheme, q, is_chroma, next, x + row_step(c, y), y);
                let ps = row_positions(c, x, y);
                assert(ps[0] == (x, y));
                assert(ps.drop_first() =~= row_positions(c, x + row_step(c, y), y));
            }
        },
    }
}

/// The encoder over the rows is the encoder over the pass positions.
pub proof fn lemma_enc_rows_fold(
    c: ImageChunkMut,
    data: Seq<i16>,
    scheme: Encoder,
    q: i32,
    is_chroma: bool,
    st: EncState,
    y: int,
)
    ensures
        enc_rows(c, data, scheme, q, is_chroma, st, y) == enc_fold(
            c,
            data,
            scheme,
            q,
            is_chroma,
            st,
            pass_positions(c, y),
        ),
    decreases (if y < size_y(c) { size_y(c) - y } else { 0 }),
{
    if !(y < 0 || y >= size_y(c) || c.step == 0) {
        let x = row_step(c, y) - c.step;
        let mid = enc_row(c, data, scheme, q, is_chroma, st, x, y);
        lemma_enc_row_fold(c, data, scheme, q, is_chroma, st, x, y);
        lemma_enc_rows_fold(c, data, scheme, q, is_chroma, mid, y + c.step);
        lemma_enc_fold_concat(
            c,
            data,
            scheme,
            q,
            is_chroma,
            st,
            row_positions(c, x, y),
            pass_positions(c, y + c.step),
        );
    }
}

/// The decoder over the rows is the decoder over the pass positions.
pub proof fn lemma_dec_rows_fold(
    c: ImageChunkMut,
    bits: Seq<bool>,
    scheme: Encoder,
    q: i32,
    is_chroma: bool,
    st: Option<DecState>,
    y: int,
)
    ensures
        dec_rows(c, bits, scheme, q, is_chroma, st, y) == dec_fold(
            c,
            bits,
            scheme,
            q,
            is_chroma,
            st,
            pass_positions(c, y),
        ),
    decreases (if y < size_y(c) { size_y(c) - y } else { 0 }),
{
    if !(y < 0 || y >= size_y(c) || c.step == 0) {
        let x = row_step(c, y) - c.step;
        let mid = dec_row(c, bits, scheme, q, is_chroma, st, x, y);
        lemma_dec_row_fold(c, bits, scheme, q, is_chroma, st, x, y);
        lemma_dec_rows_fold(c, bits, scheme, q, is_chroma, mid, y + c.step);
        lemma_dec_fold_concat(
            c,
            bits,
            scheme,
            q,
            is_chroma,
            st,
            row_positions(c, x, y),
            pass_positions(c, y + c.step),
        );
    }
}


// ---------------------------------------------------------------------------
// The order of the positions.

/// Whether the step's bit is set in the row or the column of a relative
/// position: the positions coded at this step have it.
pub open spec fn on_step(c: ImageChunkMut, x: int, y: int) -> bool {
    (y as i32 & c.step as i32) != 0 || (x as i32 & c.step as i32) != 0
}

/// `a` comes before `b` in the coder's order: on an earlier row, or on the
/// same row in an earlier column.
pub open spec fn before(a: (int, int), b: (int, int)) -> bool {
    a.1 < b.1 || (a.1 == b.1 && a.0 < b.0)
}

/// The positions come in the coder's order.
pub open spec fn in_order(ps: Seq<(int, int)>) -> bool {
    forall|a: int, b: int| 0 <= a < b < ps.len() ==> before(#[trigger] ps[a], #[trigger] ps[b])
}

/// The step as a shift of one.
proof fn lemma_step_shift(c: ImageChunkMut) -> (k: u32)
    requires
        block_chunk_ok(c),
    ensures
        k < 30,
        c.step as i32 == 1i32 << k,
        c.step == pow2(k as nat),
{
    let kn = choose|kn: nat| kn < 30 && c.step == pow2(kn);
    lemma_pow2_shift(kn);
    kn as u32
}

/// Moving two steps along keeps the step's bit.
proof fn lemma_two_steps_keep_bit(x: i32, k: u32)
    requires
        0 <= x < 0x4000_0000,
        k < 30,
    ensures
        ((x + (1i32 << k) * 2) as i32 & (1i32 << k)) == (x & (1i32 << k)),
{
    assert(((x + (1i32 << k) * 2) as i32 & (1i32 << k)) == (x & (1i32 << k))) by (bit_vector)
        requires
            0 <= x < 0x4000_0000,
            k < 30,
    ;
}

proof fn lemma_row_positions(c: ImageChunkMut, x: int, y: int)
    requires
        block_chunk_ok(c),
        0 <= x,
        0 <= y < size_y(c),
        on_step(c, x, y),
    ensures
        row_positions(c, x, y).len() <= (if x < size_x(c) { size_x(c) - x } else { 0 }),
        forall|j: int|
            0 <= j < row_positions(c, x, y).len() ==> {
                let p = #[trigger] row_positions(c, x, y)[j];
                &&& p.1 == y
                &&& x <= p.0 < size_x(c)
                &&& on_step(c, p.0, p.1)
            },
        in_order(row_positions(c, x, y)),
    decreases (if x < size_x(c) { size_x(c) - x } else { 0 }),
{
    if !(x < 0 || x >= size_x(c) || c.step == 0) {
        let k = lemma_step_shift(c);
        let nx = x + row_step(c, y);
        if (y as i32 & c.step as i32) == 0 {
            lemma_two_steps_keep_bit(x as i32, k);
            assert(nx as i32 == (x as i32 + (1i32 << k) * 2) as i32);
        }
        lemma_row_positions(c, nx, y);
        let rp = row_positions(c, x, y);
        let rest = row_positions(c, nx, y);
        assert(rp =~= seq![(x, y)] + rest);
        assert forall|j: int| 0 <= j < rp.len() implies {
            let p = #[trigger] rp[j];
            &&& p.1 == y
            &&& x <= p.0 < size_x(c)
            &&& on_step(c, p.0, p.1)
        } by {
            if j > 0 {
                assert(rp[j] == rest[j - 1]);
            }
        }
        assert forall|a: int, b: int| 0 <= a < b < rp.len() implies before(#[trigger] rp[a], #[trigger] rp[b]) by {
            assert(rp[b] == rest[b - 1]);
            if a > 0 {
                assert(rp[a] == rest[a - 1]);
            }
        }
    }
}

/// The positions of a pass lie in the chunk, have the step's bit, and come
/// in order; there are at most as many as samples in the rows.
pub proof fn lemma_pass_positions(c: ImageChunkMut, y: int)
    requires
        block_chunk_ok(c),
        0 <= y,
    ensures
        pass_positions(c, y).len() <= (if y < size_y(c) { (size_y(c) - y) * size_x(c) } else { 0 }),
        forall|j: int|
            0 <= j < pass_positions(c, y).len() ==> {
                let p = #[trigger] pass_positions(c, y)[j];
                &&& y <= p.1 < size_y(c)
                &&& 0 <= p.0 < size_x(c)
                &&& on_step(c, p.0, p.1)
            },
        in_order(pass_positions(c, y)),
    decreases (if y < size_y(c) { size_y(c) - y } else { 0 }),
{
    if !(y < 0 || y >= size_y(c) || c.step == 0) {
        let k = lemma_step_shift(c);
        let s = c.step as int;
        let x = row_step(c, y) - s;
        if (y as i32 & c.step as i32) == 0 {
            assert(((1i32 << k) & (1i32 << k)) != 0) by (bit_vector)
                requires
                    k < 30,
            ;
            assert(x == s);
        }
        lemma_row_positions(c, x, y);
        lemma_pass_positions(c, y + s);
        let rp = row_positions(c, x, y);
        let rest = pass_positions(c, y + s);
        let all = pass_positions(c, y);
        assert(all =~= rp + rest);
        let sx = size_x(c);
        let sy = size_y(c);
        assert(rp.len() + rest.len() <= (sy - y) * sx) by (nonlinear_arith)
            requires
                rp.len() <= sx,
                rest.len() <= (if y + s < sy { (sy - (y + s)) * sx } else { 0 }),
                s >= 1,
                y < sy,
                sx >= 0,
        ;
        assert forall|j: int| 0 <= j < all.len() implies {
            let p = #[trigger] all[j];
            &&& y <= p.1 < size_y(c)
            &&& 0 <= p.0 < size_x(c)
            &&& on_step(c, p.0, p.1)
        } by {
            if j < rp.len() {
                assert(all[j] == rp[j]);
            } else {
                assert(all[j] == rest[j - rp.len()]);
            }
        }
        assert forall|a: int, b: int| 0 <= a < b < all.len() implies before(#[trigger] all[a], #[trigger] all[b]) by {
            if b < rp.len() {
                assert(all[a] == rp[a] && all[b] == rp[b]);
            } else if a >= rp.len() {
                assert(all[a] == rest[a - rp.len()] && all[b] == rest[b - rp.len()]);
            } else {
                assert(all[a] == rp[a] && all[b] == rest[b - rp.len()]);
            }
        }
    }
}


// ---------------------------------------------------------------------------
// What the context reads.

/// The ancestor of a coordinate does not have the step's bit.
proof fn lemma_ancestor_off_step(v: i32, k: u32, size: i32)
    requires
        0 <= v < size,
        size < 0x4000_0000,
        k < 30,
    ensures
        (ancestor(v, 1i32 << k, size) as i32 & (1i32 << k)) == 0,
{
    let s = 1i32 << k;
    let p = (v & !((s * 2) as i32)) + (v & s);
    crate::encode::block::lemma_step_bits(v, k);
    assert({
        &&& ((v & !(((1i32 << k) * 2) as i32)) + (v & (1i32 << k))) as i32 & (1i32 << k) == 0
        &&& (v & !(((1i32 << k) * 2) as i32)) + (v & (1i32 << k)) >= (1i32 << k) * 2 ==> (((v & !(((1i32
            << k) * 2) as i32)) + (v & (1i32 << k))) - (1i32 << k) * 2) as i32 & (1i32 << k) == 0
    }) by (bit_vector)
        requires
            0 <= v < 0x4000_0000,
            k < 30,
    ;
}

/// The samples the context of a position reads: its ancestor, which is not
/// coded at this step, and samples that come before the position.
pub proof fn lemma_terms_before(c: ImageChunkMut, x: int, y: int)
    requires
        block_chunk_ok(c),
        0 <= x < size_x(c),
        0 <= y < size_y(c),
    ensures
        forall|j: int|
            0 <= j < context_terms(c, x as i32, y as i32).len() ==> {
                let t = #[trigger] context_terms(c, x as i32, y as i32)[j];
                let rel = (t.1 - c.x_range.0, t.0 - c.y_range.0);
                &&& 0 <= rel.0 < size_x(c)
                &&& 0 <= rel.1 < size_y(c)
                &&& if j == 0 {
                    !on_step(c, rel.0, rel.1)
                } else {
                    before(rel, (x, y))
                }
            },
{
    lemma_context_readable(c, x, y);
    let k = lemma_step_shift(c);
    let xi = x as i32;
    let yi = y as i32;
    let skip = c.step as i32;
    let sizex = (c.x_range.1 - c.x_range.0) as i32;
    let sizey = (c.y_range.1 - c.y_range.0) as i32;
    let x0 = c.x_range.0 as int;
    let y0 = c.y_range.0 as int;
    let sv = skip as int;
    let ts = context_terms(c, xi, yi);
    let ancestor_term = seq![(y0 + ancestor(yi, skip, sizey), x0 + ancestor(xi, skip, sizex), 2int)];
    let siblings = if (yi & skip) != 0 && (xi | skip) < sizex {
        seq![(y0 + yi - sv, x0 + (xi | skip), 2int)] + if (xi & skip) != 0 {
            seq![(y0 + yi, x0 + xi - sv, 2int)]
        } else {
            Seq::empty()
        }
    } else {
        Seq::empty()
    };
    let near = ts.subrange(1 + siblings.len() as int, ts.len() as int);
    assert(ts =~= ancestor_term + siblings + near);
    lemma_ancestor_off_step(xi, k, sizex);
    lemma_ancestor_off_step(yi, k, sizey);
    assert forall|j: int| 1 <= j < ts.len() implies before(
        ((#[trigger] ts[j]).1 - x0, ts[j].0 - y0),
        (x, y),
    ) by {
        if j <= siblings.len() {
            assert(ts[j] == siblings[j - 1]);
        } else {
            assert(ts[j] == near[j - 1 - siblings.len()]);
        }
    }
}


// ---------------------------------------------------------------------------
// Reading codes where they lie.

/// `x` lies at position `p` of `s`.
pub open spec fn lies_at(s: Seq<bool>, p: int, x: Seq<bool>) -> bool {
    &&& 0 <= p
    &&& p + x.len() <= s.len()
    &&& s.subrange(p, p + x.len()) == x
}

proof fn lemma_lies_split(s: Seq<bool>, p: int, a: Seq<bool>, b: Seq<bool>)
    requires
        lies_at(s, p, a + b),
    ensures
        lies_at(s, p, a),
        lies_at(s, p + a.len(), b),
{
    let whole = s.subrange(p, p + a.len() + b.len());
    assert(s.subrange(p, p + a.len()) =~= whole.subrange(0, a.len() as int));
    assert((a + b).subrange(0, a.len() as int) =~= a);
    assert(s.subrange(p + a.len(), p + a.len() + b.len()) =~= whole.subrange(
        a.len() as int,
        (a.len() + b.len()) as int,
    ));
    assert((a + b).subrange(a.len() as int, (a.len() + b.len()) as int) =~= b);
}

/// What follows a code that lies at `p`.
proof fn lemma_lies_rest(s: Seq<bool>, p: int, x: Seq<bool>)
    requires
        lies_at(s, p, x),
    ensures
        s.subrange(p, s.len() as int) =~= x + s.subrange(p + x.len(), s.len() as int),
{
    assert forall|k: int| 0 <= k < x.len() implies s.subrange(p, s.len() as int)[k] == x[k] by {
        assert(s.subrange(p, p + x.len())[k] == s[p + k]);
    }
}

proof fn lemma_unsigned_at(s: Seq<bool>, p: int, x: u32, pot: nat)
    requires
        pot <= 24,
        lies_at(s, p, unsigned_code_bits(x, pot)),
    ensures
        unsigned_decode_spec(s, p, pot) == Some((x, unsigned_code_bits(x, pot).len())),
{
    let code = unsigned_code_bits(x, pot);
    lemma_lies_rest(s, p, code);
    lemma_unsigned_decode_shift(s, p, pot);
    lemma_unsigned_code_decodes(x, pot, s.subrange(p + code.len(), s.len() as int));
}

proof fn lemma_interleaved_at(s: Seq<bool>, p: int, x: i32, pot: nat)
    requires
        pot <= 24,
        -0x3fff_ffff <= x <= 0x3fff_ffff,
        lies_at(s, p, unsigned_code_bits(interleave(x), pot)),
    ensures
        interleaved_decode_spec(s, p, pot) == Some((x, unsigned_code_bits(interleave(x), pot).len())),
{
    let code = unsigned_code_bits(interleave(x), pot);
    let rest = s.subrange(p + code.len(), s.len() as int);
    lemma_lies_rest(s, p, code);
    lemma_unsigned_decode_shift(s, p, pot);
    lemma_interleaved_code_decodes(x, pot, rest);
    lemma_unsigned_decode_shift(code + rest, 0, pot);
    assert((code + rest).subrange(0, (code + rest).len() as int) =~= code + rest);
}

/// Decoding a coefficient coded as chosen where its bits lie.
proof fn lemma_choice_at(s: Seq<bool>, p: int, choice: (bool, int), x: i32)
    requires
        0 <= choice.1 <= 4,
        -0x8000 <= x <= 0x8000,
        lies_at(s, p, choice_bits(choice, x)),
    ensures
        choice_decode(choice, s, p) == Some((x, choice_bits(choice, x).len())),
{
    reveal(choice_bits);
    reveal(choice_decode);
    if choice.0 {
        lemma_signed_code_at(s, p, x, choice.1 as nat);
    } else {
        lemma_interleaved_at(s, p, x, choice.1 as nat);
    }
}


// ---------------------------------------------------------------------------
// The encoder along the positions.

/// What a chunk is coded with.
pub struct Coding {
    pub c: ImageChunkMut,
    pub data: Seq<i16>,
    pub scheme: Encoder,
    pub q: i32,
    pub has_dc: bool,
    pub is_chroma: bool,
}

/// The positions coded at the chunk's step.
pub open spec fn positions(k: Coding) -> Seq<(int, int)> {
    pass_positions(k.c, 0)
}

/// The index of the `j`-th coded position.
pub open spec fn index_at(k: Coding, j: int) -> int {
    sample_index(k.c, positions(k)[j].0, positions(k)[j].1)
}

/// The coefficient at the `j`-th coded position.
pub open spec fn value_at(k: Coding, j: int) -> i32 {
    k.data[index_at(k, j)] as i32
}

/// How many zero coefficients follow, from the `i`-th coded position on.
pub open spec fn zeros_ahead(k: Coding, i: int) -> int
    decreases positions(k).len() - i,
{
    if i < 0 || i >= positions(k).len() || value_at(k, i) != 0 {
        0
    } else {
        1 + zeros_ahead(k, i + 1)
    }
}

/// Whether the top-left coefficient is coded first.
pub open spec fn codes_dc(k: Coding) -> bool {
    k.has_dc && size_x(k.c) > 0 && size_y(k.c) > 0
}

/// The bits of the top-left coefficient, if coded.
pub open spec fn dc_bits(k: Coding) -> Seq<bool> {
    if codes_dc(k) {
        signed_code_bits(k.data[sample_index(k.c, 0, 0)] as i32, 4)
    } else {
        Seq::empty()
    }
}

/// The state the encoder starts the pass with.
pub open spec fn enc_start(k: Coding) -> EncState {
    EncState {
        context: (0, 0),
        run: 0,
        run_coder: initial_run_coder(k.scheme, k.q, k.c.step as int),
        bits: dc_bits(k),
    }
}

/// The encoder after the first `i` coded positions.
pub open spec fn enc_at(k: Coding, i: int) -> EncState {
    enc_fold(k.c, k.data, k.scheme, k.q, k.is_chroma, enc_start(k), positions(k).take(i))
}

/// All the bits of the chunk.
pub open spec fn coded_bits(k: Coding) -> Seq<bool> {
    encode_bits(k.c, k.data, k.scheme, k.q, k.has_dc, k.is_chroma)
}

/// What the encoder writes after the positions: the run still pending.
pub open spec fn final_run_bits(st: EncState) -> Seq<bool> {
    if st.run != 0 {
        unsigned_code_bits(st.run as u32, st.run_coder as nat)
    } else {
        Seq::empty()
    }
}

proof fn lemma_coded_bits(k: Coding)
    ensures
        coded_bits(k) == enc_at(k, positions(k).len() as int).bits + final_run_bits(
            enc_at(k, positions(k).len() as int),
        ),
{
    let ps = positions(k);
    assert(ps.take(ps.len() as int) =~= ps);
    lemma_enc_rows_fold(k.c, k.data, k.scheme, k.q, k.is_chroma, enc_start(k), 0);
}

proof fn lemma_enc_next(k: Coding, i: int)
    requires
        0 <= i < positions(k).len(),
    ensures
        enc_at(k, i + 1) == enc_step(
            k.c,
            k.data,
            k.scheme,
            k.q,
            k.is_chroma,
            enc_at(k, i),
            positions(k)[i].0,
            positions(k)[i].1,
        ),
{
    let ps = positions(k);
    assert(ps.take(i + 1) =~= ps.take(i) + seq![ps[i]]);
    lemma_enc_fold_concat(k.c, k.data, k.scheme, k.q, k.is_chroma, enc_start(k), ps.take(i), seq![ps[i]]);
    let e = enc_at(k, i);
    let one = seq![ps[i]];
    assert(one[0] == ps[i]);
    assert(one.drop_first() =~= Seq::<(int, int)>::empty());
    let e1 = enc_step(k.c, k.data, k.scheme, k.q, k.is_chroma, e, ps[i].0, ps[i].1);
    assert(enc_fold(k.c, k.data, k.scheme, k.q, k.is_chroma, e1, one.drop_first()) == e1);
    assert(enc_fold(k.c, k.data, k.scheme, k.q, k.is_chroma, e, one) == e1);
}

/// Each step of the encoder only appends bits.
proof fn lemma_enc_step_extends(
    c: ImageChunkMut,
    data: Seq<i16>,
    scheme: Encoder,
    q: i32,
    is_chroma: bool,
    st: EncState,
    x: int,
    y: int,
)
    ensures
        enc_step(c, data, scheme, q, is_chroma, st, x, y).bits.len() >= st.bits.len(),
        enc_step(c, data, scheme, q, is_chroma, st, x, y).bits.subrange(0, st.bits.len() as int)
            == st.bits,
{
    let s = data[sample_index(c, x, y)] as i32;
    let b = enc_step(c, data, scheme, q, is_chroma, st, x, y).bits;
    if st.run_coder != 0 && s == 0 {
        assert(b.subrange(0, st.bits.len() as int) =~= st.bits);
    } else {
        assert(b.subrange(0, st.bits.len() as int) =~= st.bits);
    }
}

/// The bits so far are a prefix of all the bits of the chunk.
proof fn lemma_enc_prefix(k: Coding, i: int)
    requires
        0 <= i <= positions(k).len(),
    ensures
        enc_at(k, i).bits.len() <= coded_bits(k).len(),
        coded_bits(k).subrange(0, enc_at(k, i).bits.len() as int) == enc_at(k, i).bits,
    decreases positions(k).len() - i,
{
    let n = positions(k).len() as int;
    if i == n {
        lemma_coded_bits(k);
        let e = enc_at(k, n);
        assert(coded_bits(k).subrange(0, e.bits.len() as int) =~= e.bits);
    } else {
        lemma_enc_prefix(k, i + 1);
        lemma_enc_next(k, i);
        let ps = positions(k);
        lemma_enc_step_extends(k.c, k.data, k.scheme, k.q, k.is_chroma, enc_at(k, i), ps[i].0, ps[i].1);
        let a = enc_at(k, i).bits;
        let b = enc_at(k, i + 1).bits;
        let w = coded_bits(k);
        assert(w.subrange(0, a.len() as int) =~= b.subrange(0, a.len() as int));
    }
}

/// Zero coefficients while runs are coded only lengthen the run.
proof fn lemma_enc_zeros(k: Coding, i: int, j: int)
    requires
        0 <= i <= j <= i + zeros_ahead(k, i),
        j <= positions(k).len(),
        enc_at(k, i).run_coder != 0,
    ensures
        enc_at(k, j) == (EncState { run: enc_at(k, i).run + (j - i), ..enc_at(k, i) }),
    decreases j - i,
{
    if j > i {
        lemma_enc_zeros(k, i, j - 1);
        lemma_zeros_ahead_zero(k, i, j - 1);
        lemma_enc_next(k, j - 1);
    } else {
        assert(enc_at(k, j) == (EncState { run: enc_at(k, i).run + (j - i), ..enc_at(k, i) }));
    }
}

/// Inside the zeros ahead, the coefficients are zero.
proof fn lemma_zeros_ahead_zero(k: Coding, i: int, j: int)
    requires
        0 <= i <= j < i + zeros_ahead(k, i),
    ensures
        value_at(k, j) == 0,
        j < positions(k).len(),
        zeros_ahead(k, j) == zeros_ahead(k, i) - (j - i),
    decreases j - i,
{
    if j > i {
        lemma_zeros_ahead_zero(k, i + 1, j);
    }
}

proof fn lemma_zeros_ahead_bound(k: Coding, i: int)
    requires
        0 <= i <= positions(k).len(),
    ensures
        0 <= zeros_ahead(k, i) <= positions(k).len() - i,
        i + zeros_ahead(k, i) < positions(k).len() ==> value_at(k, i + zeros_ahead(k, i)) != 0,
    decreases positions(k).len() - i,
{
    if i < positions(k).len() && value_at(k, i) == 0 {
        lemma_zeros_ahead_bound(k, i + 1);
    }
}


/// The run coder stays between 0 and 4, and fixed in the turbo scheme; runs
/// are only counted while it is set, and never outnumber the positions.
proof fn lemma_enc_rc(k: Coding, i: int)
    requires
        0 <= i <= positions(k).len(),
    ensures
        0 <= enc_at(k, i).run_coder <= 4,
        k.scheme == Encoder::Turbo ==> enc_at(k, i).run_coder == enc_start(k).run_coder,
        enc_at(k, i).run_coder == 0 ==> enc_at(k, i).run == 0,
        0 <= enc_at(k, i).run <= i,
    decreases i,
{
    if i == 0 {
        assert(positions(k).take(0) =~= Seq::<(int, int)>::empty());
    } else {
        lemma_enc_rc(k, i - 1);
        lemma_enc_next(k, i - 1);
    }
}

proof fn lemma_lies_prefix(s: Seq<bool>, p: int, w: Seq<bool>, m: int)
    requires
        lies_at(s, p, w),
        0 <= m <= w.len(),
    ensures
        lies_at(s, p, w.subrange(0, m)),
{
    assert(s.subrange(p, p + m) =~= s.subrange(p, p + w.len()).subrange(0, m));
}

/// The bits so far lie where the chunk's bits start.
proof fn lemma_enc_lies(k: Coding, s: Seq<bool>, p0: int, i: int)
    requires
        0 <= i <= positions(k).len(),
        lies_at(s, p0, coded_bits(k)),
    ensures
        lies_at(s, p0, enc_at(k, i).bits),
{
    lemma_enc_prefix(k, i);
    lemma_lies_prefix(s, p0, coded_bits(k), enc_at(k, i).bits.len() as int);
}

/// The length of a run is written where the run starts: after the zeros of
/// the run, in front of the coefficient that ends it, or at the end.
proof fn lemma_run_code_lies(k: Coding, s: Seq<bool>, p0: int, i: int)
    requires
        0 <= i <= positions(k).len(),
        lies_at(s, p0, coded_bits(k)),
        enc_at(k, i).run_coder != 0,
        enc_at(k, i).run + zeros_ahead(k, i) > 0,
    ensures
        lies_at(
            s,
            p0 + enc_at(k, i).bits.len(),
            unsigned_code_bits(
                (enc_at(k, i).run + zeros_ahead(k, i)) as u32,
                enc_at(k, i).run_coder as nat,
            ),
        ),
{
    let n = positions(k).len() as int;
    let e = enc_at(k, i);
    let z = zeros_ahead(k, i);
    let j = i + z;
    let code = unsigned_code_bits((e.run + z) as u32, e.run_coder as nat);
    lemma_zeros_ahead_bound(k, i);
    lemma_enc_zeros(k, i, j);
    lemma_enc_rc(k, i);
    if j < n {
        lemma_enc_next(k, j);
        lemma_enc_lies(k, s, p0, j + 1);
        let ps = positions(k);
        let ej = enc_at(k, j);
        let b = enc_at(k, j + 1).bits;
        assert(value_at(k, j) != 0);
        if k.scheme == Encoder::Turbo {
            assert(initial_run_coder(k.scheme, k.q, k.c.step as int) == 1);
        }
        assert(b.subrange(0, (e.bits + code).len() as int) =~= e.bits + code);
        lemma_lies_prefix(s, p0, b, (e.bits + code).len() as int);
    } else {
        lemma_coded_bits(k);
        assert(coded_bits(k) =~= e.bits + code);
    }
    lemma_lies_split(s, p0, e.bits, code);
}

// ---------------------------------------------------------------------------
// The decoder along the positions.

/// The state the decoder starts the pass with, after the top-left
/// coefficient.
pub open spec fn dec_start(k: Coding, bits: Seq<bool>, p0: int, data0: Seq<i16>) -> Option<DecState> {
    let st0 = DecState {
        context: (0, 0),
        run: -1,
        run_coder: initial_run_coder(k.scheme, k.q, k.c.step as int),
        pos: p0,
        data: data0,
    };
    if codes_dc(k) {
        match signed_decode_spec(bits, p0, 4) {
            None => None,
            Some((v, n)) => Some(
                DecState {
                    pos: p0 + n,
                    data: data0.update(sample_index(k.c, 0, 0), crate::lifting::wrap16(v as int)),
                    ..st0
                },
            ),
        }
    } else {
        Some(st0)
    }
}

/// The decoder after the first `i` coded positions.
pub open spec fn dec_at(k: Coding, bits: Seq<bool>, p0: int, data0: Seq<i16>, i: int) -> Option<DecState> {
    dec_fold(k.c, bits, k.scheme, k.q, k.is_chroma, dec_start(k, bits, p0, data0), positions(k).take(i))
}

proof fn lemma_dec_next(k: Coding, bits: Seq<bool>, p0: int, data0: Seq<i16>, i: int)
    requires
        0 <= i < positions(k).len(),
    ensures
        dec_at(k, bits, p0, data0, i + 1) == match dec_at(k, bits, p0, data0, i) {
            None => None,
            Some(d) => dec_step(
                k.c,
                bits,
                k.scheme,
                k.q,
                k.is_chroma,
                d,
                positions(k)[i].0,
                positions(k)[i].1,
            ),
        },
{
    let ps = positions(k);
    let one = seq![ps[i]];
    assert(ps.take(i + 1) =~= ps.take(i) + one);
    lemma_dec_fold_concat(
        k.c,
        bits,
        k.scheme,
        k.q,
        k.is_chroma,
        dec_start(k, bits, p0, data0),
        ps.take(i),
        one,
    );
    assert(one[0] == ps[i]);
    assert(one.drop_first() =~= Seq::<(int, int)>::empty());
    match dec_at(k, bits, p0, data0, i) {
        None => {},
        Some(d) => {
            let d1 = dec_step(k.c, bits, k.scheme, k.q, k.is_chroma, d, ps[i].0, ps[i].1);
            match d1 {
                None => {},
                Some(x) => {
                    assert(dec_fold(k.c, bits, k.scheme, k.q, k.is_chroma, d1, one.drop_first()) == d1);
                },
            }
            assert(dec_fold(k.c, bits, k.scheme, k.q, k.is_chroma, Some(d), one) == d1);
        },
    }
}

/// Whether a later coded position has index `m`.
pub open spec fn later_index(k: Coding, i: int, m: int) -> bool {
    exists|j: int| i <= j < positions(k).len() && index_at(k, j) == m
}

/// Whether the index `m` was written by the time `i` positions are decoded:
/// one of the first `i` positions, or the top-left coefficient when it is
/// coded.
pub open spec fn done_index(k: Coding, i: int, m: int) -> bool {
    ||| exists|j: int| 0 <= j < i && index_at(k, j) == m
    ||| codes_dc(k) && m == sample_index(k.c, 0, 0)
}

/// Whether the context of some coded position reads the sample at index
/// `m`.
pub open spec fn context_reads(c: ImageChunkMut, m: int) -> bool {
    exists|i: int, jt: int|
        0 <= i < pass_positions(c, 0).len() && 0 <= jt < context_terms(
            c,
            pass_positions(c, 0)[i].0 as i32,
            pass_positions(c, 0)[i].1 as i32,
        ).len() && m == c.index_of(
            #[trigger] context_terms(c, pass_positions(c, 0)[i].0 as i32, pass_positions(c, 0)[i].1 as i32)[jt].0,
            context_terms(c, pass_positions(c, 0)[i].0 as i32, pass_positions(c, 0)[i].1 as i32)[jt].1,
        )
}

/// The samples the contexts read, other than those the chunk codes, are
/// already right in `data0`.
pub open spec fn reads_agree(k: Coding, data0: Seq<i16>) -> bool {
    &&& data0.len() == k.data.len()
    &&& forall|m: int|
        0 <= m < k.data.len() && context_reads(k.c, m) && !coded_index(k.c, k.has_dc, m)
            ==> #[trigger] data0[m] == k.data[m]
}

/// The decoder keeps up with the encoder after `i` positions: same context
/// and run coder, reading where the encoder's bits end (or past the length
/// of the run it is in), with the coefficients written so far right and the
/// others as they were in `data0`.
pub open spec fn in_step(k: Coding, data0: Seq<i16>, p0: int, i: int, e: EncState, d: DecState) -> bool {
    &&& d.context == e.context
    &&& d.run_coder == e.run_coder
    &&& if e.run == 0 {
        &&& d.run == -1
        &&& d.pos == p0 + e.bits.len()
    } else {
        &&& d.run == zeros_ahead(k, i)
        &&& d.pos == p0 + e.bits.len() + unsigned_code_bits(
            (e.run + zeros_ahead(k, i)) as u32,
            e.run_coder as nat,
        ).len()
    }
    &&& d.data.len() == k.data.len()
    &&& forall|m: int|
        0 <= m < k.data.len() ==> #[trigger] d.data[m] == if done_index(k, i, m) {
            k.data[m]
        } else {
            data0[m]
        }
}

// ---------------------------------------------------------------------------
// The context the decoder sees.

/// Distinct positions of the chunk have distinct indices.
proof fn lemma_index_injective(c: ImageChunkMut, a: (int, int), b: (int, int))
    requires
        block_chunk_ok(c),
        0 <= a.0 < size_x(c),
        0 <= a.1 < size_y(c),
        0 <= b.0 < size_x(c),
        0 <= b.1 < size_y(c),
        sample_index(c, a.0, a.1) == sample_index(c, b.0, b.1),
    ensures
        a == b,
{
    let w = c.image_width as int;
    let ra = c.y_range.0 + a.1;
    let rb = c.y_range.0 + b.1;
    let ca = c.x_range.0 + a.0;
    let cb = c.x_range.0 + b.0;
    assert(ra == rb && ca == cb) by (nonlinear_arith)
        requires
            ra * w + ca == rb * w + cb,
            0 <= ca < w,
            0 <= cb < w,
            0 <= ra,
            0 <= rb,
    {
        if ra < rb {
            assert(ra * w + w <= rb * w);
        } else if rb < ra {
            assert(rb * w + w <= ra * w);
        }
    }
}

proof fn lemma_sums_agree(c: ImageChunkMut, d1: Seq<i16>, d2: Seq<i16>, terms: Seq<(int, int, int)>)
    requires
        forall|j: int|
            0 <= j < terms.len() ==> d1[c.index_of((#[trigger] terms[j]).0, terms[j].1)] == d2[c.index_of(
                terms[j].0,
                terms[j].1,
            )],
    ensures
        context_sums(c, d1, terms) == context_sums(c, d2, terms),
    decreases terms.len(),
{
    if terms.len() > 0 {
        let rest = terms.drop_last();
        assert forall|j: int| 0 <= j < rest.len() implies d1[c.index_of((#[trigger] rest[j]).0, rest[j].1)]
            == d2[c.index_of(rest[j].0, rest[j].1)] by {
            assert(rest[j] == terms[j]);
        }
        lemma_sums_agree(c, d1, d2, rest);
        assert(terms.last() == terms[terms.len() - 1]);
    }
}

/// The decoder computes the same context as the encoder: the context reads
/// no sample of a later position, and the samples it reads that the chunk
/// does not code are right already.
proof fn lemma_context_agrees(k: Coding, data0: Seq<i16>, i: int, dd: Seq<i16>)
    requires
        block_chunk_ok(k.c),
        k.data.len() == k.c.data_len,
        reads_agree(k, data0),
        dd.len() == k.data.len(),
        0 <= i < positions(k).len(),
        forall|m: int|
            0 <= m < k.data.len() ==> #[trigger] dd[m] == if done_index(k, i, m) {
                k.data[m]
            } else {
                data0[m]
            },
    ensures
        context_sums(k.c, dd, context_terms(k.c, positions(k)[i].0 as i32, positions(k)[i].1 as i32))
            == context_sums(
            k.c,
            k.data,
            context_terms(k.c, positions(k)[i].0 as i32, positions(k)[i].1 as i32),
        ),
{
    let ps = positions(k);
    let c = k.c;
    let (x, y) = ps[i];
    lemma_pass_positions(c, 0);
    lemma_terms_before(c, x, y);
    let terms = context_terms(c, x as i32, y as i32);
    assert forall|jt: int| 0 <= jt < terms.len() implies dd[c.index_of((#[trigger] terms[jt]).0, terms[jt].1)]
        == k.data[c.index_of(terms[jt].0, terms[jt].1)] by {
        let t = terms[jt];
        let rel = (t.1 - c.x_range.0, t.0 - c.y_range.0);
        let m = c.index_of(t.0, t.1);
        assert(m == sample_index(c, rel.0, rel.1));
        crate::encode::block::lemma_owned_readable(c, t.0, t.1);
        if !done_index(k, i, m) {
            if exists|j: int|
                0 <= j < pass_positions(c, 0).len() && sample_index(
                    c,
                    (#[trigger] pass_positions(c, 0)[j]).0,
                    pass_positions(c, 0)[j].1,
                ) == m {
                let j = choose|j: int|
                    0 <= j < pass_positions(c, 0).len() && sample_index(
                        c,
                        (#[trigger] pass_positions(c, 0)[j]).0,
                        pass_positions(c, 0)[j].1,
                    ) == m;
                assert(index_at(k, j) == m);
                assert(j >= i);
                lemma_index_injective(c, rel, ps[j]);
                if j > i {
                    assert(before(ps[i], ps[j]));
                }
            }
            assert(!coded_index(c, k.has_dc, m));
            assert(context_reads(c, m)) by {
                assert(terms[jt] == context_terms(c, ps[i].0 as i32, ps[i].1 as i32)[jt]);
            }
        }
    }
    lemma_sums_agree(c, dd, k.data, terms);
}

// ---------------------------------------------------------------------------
// One position.

proof fn lemma_choice_range(sum_sq: u32, c1: u32, is_chroma: bool)
    ensures
        0 <= code_choice(sum_sq, c1, is_chroma).1 <= 4,
{
    reveal(code_choice);
}

/// The bits the encoder writes before the coefficient at a position: the
/// length of the run that ends there, when runs are coded.
pub open spec fn run_part(e: EncState) -> Seq<bool> {
    if e.run_coder != 0 {
        unsigned_code_bits(e.run as u32, e.run_coder as nat)
    } else {
        Seq::empty()
    }
}

/// Placing the right coefficient at position `i` makes it written.
proof fn lemma_place_agrees(k: Coding, data0: Seq<i16>, i: int, dd: Seq<i16>)
    requires
        0 <= i < positions(k).len(),
        0 <= index_at(k, i) < k.data.len(),
        dd.len() == k.data.len(),
        forall|m: int|
            0 <= m < k.data.len() ==> #[trigger] dd[m] == if done_index(k, i, m) {
                k.data[m]
            } else {
                data0[m]
            },
    ensures
        forall|m: int|
            0 <= m < k.data.len() ==> #[trigger] dd.update(index_at(k, i), k.data[index_at(k, i)])[m]
                == if done_index(k, i + 1, m) {
                k.data[m]
            } else {
                data0[m]
            },
{
    let idx = index_at(k, i);
    assert forall|m: int| 0 <= m < k.data.len() implies #[trigger] dd.update(idx, k.data[idx])[m] == if done_index(
        k,
        i + 1,
        m,
    ) {
        k.data[m]
    } else {
        data0[m]
    } by {
        if m == idx {
            assert(done_index(k, i + 1, m)) by {
                assert(0 <= i < i + 1 && index_at(k, i) == m);
            }
        } else {
            if done_index(k, i + 1, m) && !done_index(k, i, m) {
                let j = choose|j: int| 0 <= j < i + 1 && index_at(k, j) == m;
                assert(j != i);
                assert(0 <= j < i && index_at(k, j) == m);
            }
            if done_index(k, i, m) && !codes_dc(k) {
                let j = choose|j: int| 0 <= j < i && index_at(k, j) == m;
                assert(0 <= j < i + 1 && index_at(k, j) == m);
            }
        }
    }
}

/// After the length of the run, the decoder reads the coefficient as the
/// encoder wrote it and agrees with the encoder again.
#[verifier::rlimit(40)]
proof fn lemma_value_step(
    k: Coding,
    data0: Seq<i16>,
    bits: Seq<bool>,
    p0: int,
    i: int,
    d2: DecState,
    run0: int,
)
    requires
        block_chunk_ok(k.c),
        k.data.len() == k.c.data_len,
        reads_agree(k, data0),
        0 <= i < positions(k).len(),
        enc_at(k, i).run_coder == 0 || value_at(k, i) != 0,
        run0 == (if enc_at(k, i).run_coder != 0 { 0int } else { -1int }),
        d2.context == enc_at(k, i).context,
        d2.run_coder == enc_at(k, i).run_coder,
        d2.pos == p0 + enc_at(k, i).bits.len() + run_part(enc_at(k, i)).len(),
        d2.data.len() == k.data.len(),
        forall|m: int|
            0 <= m < k.data.len() ==> #[trigger] d2.data[m] == if done_index(k, i, m) {
                k.data[m]
            } else {
                data0[m]
            },
        lies_at(bits, p0, enc_at(k, i + 1).bits),
    ensures
        dec_after_run(
            k.c,
            bits,
            k.scheme,
            k.q,
            k.is_chroma,
            d2,
            run0,
            positions(k)[i].0,
            positions(k)[i].1,
        ) matches Some(d3) && in_step(k, data0, p0, i + 1, enc_at(k, i + 1), d3),
{
    let ps = positions(k);
    let (x, y) = ps[i];
    let e = enc_at(k, i);
    let e1 = enc_at(k, i + 1);
    let sv = value_at(k, i);
    let idx = index_at(k, i);
    lemma_enc_next(k, i);
    lemma_enc_rc(k, i);
    lemma_enc_rc(k, i + 1);
    lemma_pass_positions(k.c, 0);
    crate::encode::block::lemma_owned_readable(k.c, k.c.y_range.0 + y, k.c.x_range.0 + x);
    assert(0 <= idx < k.data.len());
    let s1: i32 = if e.run_coder != 0 && sv < 0 { (sv + 1) as i32 } else { sv };
    assert(-0x8000 <= sv < 0x8000);
    let rp = run_part(e);
    let q0 = p0 + e.bits.len() + rp.len();
    if k.scheme == Encoder::Turbo {
        let vb = unsigned_code_bits(interleave(s1), 1);
        if e.run_coder != 0 {
            assert(initial_run_coder(k.scheme, k.q, k.c.step as int) == 1);
        }
        assert(e1.bits =~= e.bits + rp + vb);
        lemma_lies_split(bits, p0, e.bits + rp, vb);
        lemma_interleaved_at(bits, q0, s1, 1);
    } else {
        let ctx = if k.scheme == Encoder::Contextual {
            context_of(context_sums(k.c, k.data, context_terms(k.c, x as i32, y as i32)))
        } else {
            e.context
        };
        if k.scheme == Encoder::Contextual {
            lemma_context_agrees(k, data0, i, d2.data);
        }
        let sum_sq = wrap32(ctx.0 * ctx.0);
        let choice = code_choice(sum_sq, ctx.1, k.is_chroma);
        lemma_choice_range(sum_sq, ctx.1, k.is_chroma);
        let vb = choice_bits(choice, s1);
        assert(e1.bits =~= e.bits + rp + vb);
        lemma_lies_split(bits, p0, e.bits + rp, vb);
        lemma_choice_at(bits, q0, choice, s1);
    }
    let d3 = dec_after_run(k.c, bits, k.scheme, k.q, k.is_chroma, d2, run0, x, y).unwrap();
    lemma_wrap16_id(k.data[idx]);
    assert(d3.data == d2.data.update(idx, k.data[idx]));
    lemma_place_agrees(k, data0, i, d2.data);
}

/// The decoder keeps up with the encoder over one more position.
#[verifier::rlimit(60)]
proof fn lemma_step(k: Coding, data0: Seq<i16>, bits: Seq<bool>, p0: int, i: int, d: DecState)
    requires
        block_chunk_ok(k.c),
        k.data.len() == k.c.data_len,
        reads_agree(k, data0),
        0 <= i < positions(k).len(),
        positions(k).len() < 0x8000_0000,
        in_step(k, data0, p0, i, enc_at(k, i), d),
        lies_at(bits, p0, coded_bits(k)),
    ensures
        dec_step(
            k.c,
            bits,
            k.scheme,
            k.q,
            k.is_chroma,
            d,
            positions(k)[i].0,
            positions(k)[i].1,
        ) matches Some(d1) && in_step(k, data0, p0, i + 1, enc_at(k, i + 1), d1),
{
    reveal(dec_step);
    let ps = positions(k);
    let (x, y) = ps[i];
    let e = enc_at(k, i);
    let e1 = enc_at(k, i + 1);
    let sv = value_at(k, i);
    let idx = index_at(k, i);
    lemma_enc_rc(k, i);
    lemma_enc_next(k, i);
    lemma_enc_lies(k, bits, p0, i + 1);
    lemma_zeros_ahead_bound(k, i);
    lemma_zeros_ahead_bound(k, i + 1);
    lemma_pass_positions(k.c, 0);
    crate::encode::block::lemma_owned_readable(k.c, k.c.y_range.0 + y, k.c.x_range.0 + x);
    let za = zeros_ahead(k, i);
    if e.run_coder != 0 && sv == 0 {
        assert(za == 1 + zeros_ahead(k, i + 1));
        assert(k.data[idx] == 0i16);
        lemma_place_agrees(k, data0, i, d.data);
        if e.run == 0 {
            lemma_run_code_lies(k, bits, p0, i);
            lemma_unsigned_at(bits, d.pos, za as u32, e.run_coder as nat);
            assert(((za as u32) as i32) as int == za);
        }
    } else {
        lemma_enc_rc(k, i + 1);
        if e.run_coder != 0 {
            assert(za == 0);
            if e.run == 0 {
                let rp = run_part(e);
                assert(rp == unsigned_code_bits(0u32, e.run_coder as nat));
                let rest = e1.bits.subrange((e.bits.len() + rp.len()) as int, e1.bits.len() as int);
                assert(e1.bits.len() >= e.bits.len() + rp.len());
                assert(e1.bits =~= e.bits + rp + rest);
                lemma_lies_split(bits, p0, e.bits + rp, rest);
                lemma_lies_split(bits, p0, e.bits, rp);
                lemma_unsigned_at(bits, d.pos, 0u32, e.run_coder as nat);
                let d2 = DecState { pos: d.pos + rp.len(), ..d };
                lemma_value_step(k, data0, bits, p0, i, d2, 0);
            } else {
                lemma_value_step(k, data0, bits, p0, i, d, 0);
            }
        } else {
            lemma_value_step(k, data0, bits, p0, i, d, -1);
        }
    }
}

// ---------------------------------------------------------------------------
// The whole chunk.

/// Whether coding the chunk at its step writes the coefficient at index `m`:
/// one of the step's positions, or the top-left one when it is coded.
pub open spec fn coded_index(c: ImageChunkMut, has_dc: bool, m: int) -> bool {
    ||| exists|j: int|
        0 <= j < pass_positions(c, 0).len() && sample_index(
            c,
            (#[trigger] pass_positions(c, 0)[j]).0,
            pass_positions(c, 0)[j].1,
        ) == m
    ||| has_dc && size_x(c) > 0 && size_y(c) > 0 && m == sample_index(c, 0, 0)
}

/// The decoder starts in step with the encoder.
proof fn lemma_start(k: Coding, bits: Seq<bool>, p0: int, data0: Seq<i16>)
    requires
        block_chunk_ok(k.c),
        k.data.len() == k.c.data_len,
        data0.len() == k.data.len(),
        lies_at(bits, p0, coded_bits(k)),
    ensures
        dec_at(k, bits, p0, data0, 0) matches Some(d) && in_step(k, data0, p0, 0, enc_at(k, 0), d),
{
    let ps = positions(k);
    assert(ps.take(0) =~= Seq::<(int, int)>::empty());
    assert(enc_at(k, 0) == enc_start(k));
    lemma_enc_lies(k, bits, p0, 0);
    let dc = sample_index(k.c, 0, 0);
    if codes_dc(k) {
        crate::encode::block::lemma_owned_readable(k.c, k.c.y_range.0 as int, k.c.x_range.0 as int);
        lemma_signed_code_at(bits, p0, k.data[dc] as i32, 4);
        lemma_wrap16_id(k.data[dc]);
    }
    let d = dec_at(k, bits, p0, data0, 0).unwrap();
    assert forall|m: int| 0 <= m < k.data.len() implies #[trigger] d.data[m] == if done_index(k, 0, m) {
        k.data[m]
    } else {
        data0[m]
    } by {
        if done_index(k, 0, m) && !(codes_dc(k) && m == dc) {
            let j = choose|j: int| 0 <= j < 0 && index_at(k, j) == m;
        }
    }
}

proof fn lemma_steps(k: Coding, bits: Seq<bool>, p0: int, data0: Seq<i16>, i: int)
    requires
        block_chunk_ok(k.c),
        k.data.len() == k.c.data_len,
        reads_agree(k, data0),
        lies_at(bits, p0, coded_bits(k)),
        positions(k).len() < 0x8000_0000,
        0 <= i <= positions(k).len(),
    ensures
        dec_at(k, bits, p0, data0, i) matches Some(d) && in_step(k, data0, p0, i, enc_at(k, i), d),
    decreases i,
{
    if i == 0 {
        lemma_start(k, bits, p0, data0);
    } else {
        lemma_steps(k, bits, p0, data0, i - 1);
        lemma_dec_next(k, bits, p0, data0, i - 1);
        lemma_step(k, data0, bits, p0, i - 1, dec_at(k, bits, p0, data0, i - 1).unwrap());
    }
}

/// Decoding what coding a chunk wrote writes back exactly the coefficients
/// the chunk codes: wherever the coded bits lie in a stream, the decoder
/// reads exactly them, every coefficient coded at the chunk's step (and the
/// top-left one when it is coded) comes back, and the other samples stay as
/// they were. The samples the contexts read that the chunk does not code
/// must already be right, as the coarser steps put them.
pub proof fn lemma_block_decodes(
    c: ImageChunkMut,
    data: Seq<i16>,
    data0: Seq<i16>,
    scheme: Encoder,
    q: i32,
    has_dc: bool,
    is_chroma: bool,
    bits: Seq<bool>,
    p0: int,
)
    requires
        block_chunk_ok(c),
        data.len() == c.data_len,
        data0.len() == data.len(),
        forall|m: int|
            0 <= m < data.len() && context_reads(c, m) && !coded_index(c, has_dc, m) ==> #[trigger] data0[m]
                == data[m],
        lies_at(bits, p0, encode_bits(c, data, scheme, q, has_dc, is_chroma)),
    ensures
        decode_spec(c, bits, p0, data0, scheme, q, has_dc, is_chroma) matches Some(st)
            && st.pos == p0 + encode_bits(c, data, scheme, q, has_dc, is_chroma).len()
            && st.data.len() == data.len()
            && forall|m: int|
            0 <= m < data.len() ==> #[trigger] st.data[m] == if coded_index(c, has_dc, m) {
                data[m]
            } else {
                data0[m]
            },
{
    let k = Coding { c, data, scheme, q, has_dc, is_chroma };
    let ps = positions(k);
    let n = ps.len() as int;
    lemma_pass_positions(c, 0);
    assert(size_y(c) * size_x(c) < 0x8000_0000) by (nonlinear_arith)
        requires
            size_x(c) * size_y(c) < 0x8000_0000,
    ;
    lemma_steps(k, bits, p0, data0, n);
    assert(ps.take(n) =~= ps);
    lemma_dec_rows_fold(c, bits, scheme, q, is_chroma, dec_start(k, bits, p0, data0), 0);
    let d = dec_at(k, bits, p0, data0, n).unwrap();
    let e = enc_at(k, n);
    lemma_coded_bits(k);
    lemma_zeros_ahead_bound(k, n);
    assert forall|m: int| 0 <= m < data.len() implies #[trigger] d.data[m] == if coded_index(c, has_dc, m) {
        data[m]
    } else {
        data0[m]
    } by {
        if coded_index(c, has_dc, m) && !(codes_dc(k) && m == sample_index(c, 0, 0)) {
            let j = choose|j: int|
                0 <= j < pass_positions(c, 0).len() && sample_index(
                    c,
                    (#[trigger] pass_positions(c, 0)[j]).0,
                    pass_positions(c, 0)[j].1,
                ) == m;
            assert(0 <= j < n && index_at(k, j) == m);
        }
        if done_index(k, n, m) && !(codes_dc(k) && m == sample_index(c, 0, 0)) {
            let j = choose|j: int| 0 <= j < n && index_at(k, j) == m;
            assert(sample_index(c, ps[j].0, ps[j].1) == m);
        }
    }
}

/// Decoding what coding a chunk wrote gives the chunk's coefficients back,
/// when the samples it does not code are right already: wherever the coded
/// bits lie in a stream, the decoder reads exactly them.
pub proof fn lemma_block_roundtrip(
    c: ImageChunkMut,
    data: Seq<i16>,
    data0: Seq<i16>,
    scheme: Encoder,
    q: i32,
    has_dc: bool,
    is_chroma: bool,
    bits: Seq<bool>,
    p0: int,
)
    requires
        block_chunk_ok(c),
        data.len() == c.data_len,
        data0.len() == data.len(),
        forall|m: int| 0 <= m < data.len() && !coded_index(c, has_dc, m) ==> #[trigger] data0[m] == data[m],
        lies_at(bits, p0, encode_bits(c, data, scheme, q, has_dc, is_chroma)),
    ensures
        decode_spec(c, bits, p0, data0, scheme, q, has_dc, is_chroma) matches Some(st) && st.data == data
            && st.pos == p0 + encode_bits(c, data, scheme, q, has_dc, is_chroma).len(),
{
    lemma_block_decodes(c, data, data0, scheme, q, has_dc, is_chroma, bits, p0);
    let st = decode_spec(c, bits, p0, data0, scheme, q, has_dc, is_chroma).unwrap();
    assert(st.data =~= data);
}


/// A step after which no run is pending wrote a coefficient: at least one
/// bit.
#[verifier::rlimit(40)]
proof fn lemma_step_writes(k: Coding, i: int)
    requires
        0 <= i < positions(k).len(),
        enc_at(k, i + 1).run == 0,
    ensures
        enc_at(k, i + 1).bits.len() >= enc_at(k, i).bits.len() + 1,
{
    let ps = positions(k);
    let e = enc_at(k, i);
    lemma_enc_rc(k, i);
    lemma_enc_next(k, i);
    let (x, y) = ps[i];
    let sv = value_at(k, i);
    let s1: i32 = if e.run_coder != 0 && sv < 0 { (sv + 1) as i32 } else { sv };
    if k.scheme == Encoder::Turbo {
        lemma_unsigned_code_len(interleave(s1), 1);
    } else {
        let ctx = if k.scheme == Encoder::Contextual {
            context_of(context_sums(k.c, k.data, context_terms(k.c, x as i32, y as i32)))
        } else {
            e.context
        };
        let sum_sq = wrap32(ctx.0 * ctx.0);
        let choice = code_choice(sum_sq, ctx.1, k.is_chroma);
        lemma_choice_range(sum_sq, ctx.1, k.is_chroma);
        reveal(choice_bits);
        if choice.0 {
            lemma_unsigned_code_len(crate::encode::golomb::abs_i32(s1), choice.1 as nat);
        } else {
            lemma_unsigned_code_len(interleave(s1), choice.1 as nat);
        }
    }
}

/// A chunk that codes a coefficient writes at least one bit.
pub proof fn lemma_coded_bits_nonempty(
    c: ImageChunkMut,
    data: Seq<i16>,
    scheme: Encoder,
    q: i32,
    has_dc: bool,
    is_chroma: bool,
    m: int,
)
    requires
        block_chunk_ok(c),
        data.len() == c.data_len,
        coded_index(c, has_dc, m),
    ensures
        encode_bits(c, data, scheme, q, has_dc, is_chroma).len() >= 1,
{
    let k = Coding { c, data, scheme, q, has_dc, is_chroma };
    let ps = positions(k);
    let n = ps.len() as int;
    lemma_enc_prefix(k, 0);
    assert(positions(k).take(0) =~= Seq::<(int, int)>::empty());
    if codes_dc(k) {
        lemma_unsigned_code_len(crate::encode::golomb::abs_i32(data[sample_index(c, 0, 0)] as i32), 4);
        assert(enc_at(k, 0).bits == dc_bits(k));
    } else {
        let j = choose|j: int|
            0 <= j < pass_positions(c, 0).len() && sample_index(
                c,
                (#[trigger] pass_positions(c, 0)[j]).0,
                pass_positions(c, 0)[j].1,
            ) == m;
        assert(n >= 1);
        lemma_coded_bits(k);
        lemma_enc_prefix(k, n);
        let e1 = enc_at(k, n);
        lemma_enc_rc(k, n);
        if e1.run != 0 {
            lemma_unsigned_code_len(e1.run as u32, e1.run_coder as nat);
        } else {
            lemma_step_writes(k, n - 1);
        }
    }
}


// ---------------------------------------------------------------------------
// Which samples a chunk codes, and which it reads without coding.

/// `x + c * s` is a multiple of `s` when `x` is.
proof fn lemma_multiple_step(x: int, s: int, c: int)
    requires
        s > 0,
        x % s == 0,
    ensures
        (x + c * s) % s == 0,
        (x - c * s) % s == 0,
{
    vstd::arithmetic::div_mod::lemma_mod_multiples_vanish(c, x, s);
    vstd::arithmetic::div_mod::lemma_mod_multiples_vanish(-c, x, s);
    vstd::arithmetic::mul::lemma_mul_is_commutative(s, c);
    vstd::arithmetic::mul::lemma_mul_is_commutative(s, -c);
    vstd::arithmetic::mul::lemma_mul_unary_negation(s, c);
}

/// The positions of a row from a multiple of the step are multiples of it.
proof fn lemma_row_multiples(c: ImageChunkMut, x: int, y: int)
    requires
        block_chunk_ok(c),
        0 <= x,
        x % (c.step as int) == 0,
    ensures
        forall|j: int|
            0 <= j < row_positions(c, x, y).len() ==> (#[trigger] row_positions(c, x, y)[j]).0 % (
            c.step as int) == 0 && row_positions(c, x, y)[j].1 == y,
    decreases (if x < size_x(c) { size_x(c) - x } else { 0 }),
{
    if !(x < 0 || x >= size_x(c) || c.step == 0) {
        let s = c.step as int;
        let nx = x + row_step(c, y);
        if (y as i32 & c.step as i32) != 0 {
            lemma_multiple_step(x, s, 1);
        } else {
            lemma_multiple_step(x, s, 2);
        }
        lemma_row_multiples(c, nx, y);
        let rp = row_positions(c, x, y);
        let rest = row_positions(c, nx, y);
        assert(rp =~= seq![(x, y)] + rest);
        assert forall|j: int| 0 <= j < rp.len() implies (#[trigger] rp[j]).0 % s == 0 && rp[j].1 == y by {
            if j > 0 {
                assert(rp[j] == rest[j - 1]);
            }
        }
    }
}

/// The positions of a pass are multiples of the step.
pub proof fn lemma_pass_multiples(c: ImageChunkMut, y: int)
    requires
        block_chunk_ok(c),
        0 <= y,
        y % (c.step as int) == 0,
    ensures
        forall|j: int|
            0 <= j < pass_positions(c, y).len() ==> (#[trigger] pass_positions(c, y)[j]).0 % (
            c.step as int) == 0 && pass_positions(c, y)[j].1 % (c.step as int) == 0,
    decreases (if y < size_y(c) { size_y(c) - y } else { 0 }),
{
    if !(y < 0 || y >= size_y(c) || c.step == 0) {
        let s = c.step as int;
        let x = row_step(c, y) - s;
        assert(x % s == 0) by {
            if (y as i32 & c.step as i32) != 0 {
                assert(x == 0);
                vstd::arithmetic::div_mod::lemma_small_mod(0, s as nat);
            } else {
                assert(x == s);
                vstd::arithmetic::div_mod::lemma_mod_self_0(s);
            }
        }
        lemma_row_multiples(c, x, y);
        lemma_multiple_step(y, s, 1);
        lemma_pass_multiples(c, y + s);
        let rp = row_positions(c, x, y);
        let rest = pass_positions(c, y + s);
        let all = pass_positions(c, y);
        assert(all =~= rp + rest);
        assert forall|j: int| 0 <= j < all.len() implies (#[trigger] all[j]).0 % s == 0 && all[j].1 % s
            == 0 by {
            if j < rp.len() {
                assert(all[j] == rp[j]);
            } else {
                assert(all[j] == rest[j - rp.len()]);
            }
        }
    }
}

/// A position of a row pattern from `x` is visited.
proof fn lemma_row_complete(c: ImageChunkMut, x: int, y: int, x2: int) -> (j: int)
    requires
        block_chunk_ok(c),
        0 <= x <= x2 < size_x(c),
        (x2 - x) % row_step(c, y) == 0,
    ensures
        0 <= j < row_positions(c, x, y).len(),
        row_positions(c, x, y)[j] == (x2, y),
    decreases (if x < size_x(c) { size_x(c) - x } else { 0 }),
{
    let rs = row_step(c, y);
    let rp = row_positions(c, x, y);
    let rest = row_positions(c, x + rs, y);
    assert(rp =~= seq![(x, y)] + rest);
    if x2 == x {
        0
    } else {
        vstd::arithmetic::div_mod::lemma_fundamental_div_mod(x2 - x, rs);
        let q = (x2 - x) / rs;
        assert(q >= 1) by (nonlinear_arith)
            requires
                x2 - x == rs * q,
                x2 - x > 0,
                rs > 0,
        ;
        assert(x2 - x - rs >= 0) by (nonlinear_arith)
            requires
                x2 - x == rs * q,
                q >= 1,
                rs > 0,
        ;
        lemma_multiple_step(x2 - x, rs, 1);
        let j = lemma_row_complete(c, x + rs, y, x2);
        assert(rp[j + 1] == rest[j]);
        j + 1
    }
}

/// A position of the pass pattern from row `y` is visited.
proof fn lemma_pass_complete(c: ImageChunkMut, y: int, x2: int, y2: int) -> (j: int)
    requires
        block_chunk_ok(c),
        0 <= y <= y2 < size_y(c),
        (y2 - y) % (c.step as int) == 0,
        row_step(c, y2) - c.step <= x2 < size_x(c),
        (x2 - (row_step(c, y2) - c.step)) % row_step(c, y2) == 0,
    ensures
        0 <= j < pass_positions(c, y).len(),
        pass_positions(c, y)[j] == (x2, y2),
    decreases (if y < size_y(c) { size_y(c) - y } else { 0 }),
{
    let s = c.step as int;
    let x = row_step(c, y) - s;
    let rp = row_positions(c, x, y);
    let rest = pass_positions(c, y + s);
    let all = pass_positions(c, y);
    assert(all =~= rp + rest);
    if y2 == y {
        let j = lemma_row_complete(c, x, y, x2);
        assert(all[j] == rp[j]);
        j
    } else {
        vstd::arithmetic::div_mod::lemma_fundamental_div_mod(y2 - y, s);
        let q = (y2 - y) / s;
        assert(q >= 1) by (nonlinear_arith)
            requires
                y2 - y == s * q,
                y2 - y > 0,
                s > 0,
        ;
        assert(y2 - y - s >= 0) by (nonlinear_arith)
            requires
                y2 - y == s * q,
                q >= 1,
                s > 0,
        ;
        lemma_multiple_step(y2 - y, s, 1);
        let j = lemma_pass_complete(c, y + s, x2, y2);
        assert(all[rp.len() + j] == rest[j]);
        rp.len() + j
    }
}

/// The step's bit of a multiple of the step tells whether it is an odd
/// multiple.
#[verifier::rlimit(100)]
pub proof fn lemma_step_bit_mod(v: int, c: ImageChunkMut)
    requires
        block_chunk_ok(c),
        0 <= v < 0x4000_0000,
        v % (c.step as int) == 0,
    ensures
        (v as i32 & c.step as i32) != 0 ==> v % (2 * c.step as int) == c.step as int,
        (v as i32 & c.step as i32) == 0 ==> v % (2 * c.step as int) == 0,
{
    let k = lemma_step_shift(c);
    let y = v as i32;
    vstd::arithmetic::power2::lemma_pow2_strictly_increases(k as nat, 30);
    vstd::arithmetic::power2::lemma2_to64();
    assert(y % (1i32 << k) == 0);
    assert((y & (1i32 << k)) != 0 && y % (1i32 << k) == 0 ==> y % (((1i32 << k) * 2) as i32) == (1i32 << k))
        by (bit_vector)
        requires
            0 <= y < 0x4000_0000,
            k < 30,
    ;
    assert((y & (1i32 << k)) == 0 && y % (1i32 << k) == 0 ==> y % (((1i32 << k) * 2) as i32) == 0)
        by (bit_vector)
        requires
            0 <= y < 0x4000_0000,
            k < 30,
    ;
}

/// Every multiple of the step in the chunk with the step's bit is visited.
pub proof fn lemma_on_step_visited(c: ImageChunkMut, x: int, y: int) -> (j: int)
    requires
        block_chunk_ok(c),
        0 <= x < size_x(c),
        0 <= y < size_y(c),
        x % (c.step as int) == 0,
        y % (c.step as int) == 0,
        on_step(c, x, y),
    ensures
        0 <= j < pass_positions(c, 0).len(),
        pass_positions(c, 0)[j] == (x, y),
{
    let s = c.step as int;
    lemma_step_bit_mod(y, c);
    lemma_step_bit_mod(x, c);
    if (y as i32 & c.step as i32) != 0 {
        assert(row_step(c, y) == s);
    } else {
        assert(row_step(c, y) == 2 * s);
        assert((x as i32 & c.step as i32) != 0);
        assert(x % (2 * s) == s);
        vstd::arithmetic::div_mod::lemma_fundamental_div_mod(x, 2 * s);
        assert(x >= s) by (nonlinear_arith)
            requires
                x == (2 * s) * (x / (2 * s)) + s,
                x >= 0,
                s > 0,
        ;
        vstd::arithmetic::div_mod::lemma_mod_multiples_vanish(-1, x, 2 * s);
        assert((x - s) % (2 * s) == 0) by {
            assert(x - s == (2 * s) * (x / (2 * s)));
            vstd::arithmetic::div_mod::lemma_mod_multiples_basic(x / (2 * s), 2 * s);
            vstd::arithmetic::mul::lemma_mul_is_commutative(x / (2 * s), 2 * s);
        }
    }
    lemma_pass_complete(c, 0, x, y)
}


/// Bits of the step that moving by two or four steps keeps.
proof fn lemma_shift_keeps_bit(v: i32, k: u32)
    requires
        0 <= v < 0x4000_0000,
        k < 30,
    ensures
        v >= (1i32 << k) * 2 ==> ((v - (1i32 << k) * 2) as i32 & (1i32 << k)) == (v & (1i32 << k)),
        v >= (1i32 << k) * 4 ==> ((v - (1i32 << k) * 4) as i32 & (1i32 << k)) == (v & (1i32 << k)),
        ((v + (1i32 << k) * 2) as i32 & (1i32 << k)) == (v & (1i32 << k)),
        ((v + (1i32 << k) * 4) as i32 & (1i32 << k)) == (v & (1i32 << k)),
        ((v | (1i32 << k)) & (1i32 << k)) != 0,
        v % (1i32 << k) == 0 ==> (v | (1i32 << k)) % (1i32 << k) == 0,
        (v & (1i32 << k)) != 0 ==> ((v - (1i32 << k)) as i32 & (1i32 << k)) == 0,
{
    assert({
        &&& v >= (1i32 << k) * 2 ==> ((v - (1i32 << k) * 2) as i32 & (1i32 << k)) == (v & (1i32 << k))
        &&& v >= (1i32 << k) * 4 ==> ((v - (1i32 << k) * 4) as i32 & (1i32 << k)) == (v & (1i32 << k))
        &&& ((v + (1i32 << k) * 2) as i32 & (1i32 << k)) == (v & (1i32 << k))
        &&& ((v + (1i32 << k) * 4) as i32 & (1i32 << k)) == (v & (1i32 << k))
        &&& ((v | (1i32 << k)) & (1i32 << k)) != 0
        &&& (v & (1i32 << k)) != 0 ==> ((v - (1i32 << k)) as i32 & (1i32 << k)) == 0
    }) by (bit_vector)
        requires
            0 <= v < 0x4000_0000,
            k < 30,
    ;
    assert(v % (1i32 << k) == 0 ==> (v | (1i32 << k)) % (1i32 << k) == 0) by (bit_vector)
        requires
            0 <= v < 0x4000_0000,
            k < 30,
    ;
}

/// The ancestor of a multiple of the step is a multiple of twice the step.
proof fn lemma_ancestor_even(v: i32, k: u32, size: i32)
    requires
        0 <= v < size,
        size < 0x4000_0000,
        k < 30,
        v % (1i32 << k) == 0,
    ensures
        ancestor(v, 1i32 << k, size) % (2 * (1i32 << k) as int) == 0,
{
    let s = 1i32 << k;
    let p = (v & !((s * 2) as i32)) + (v & s);
    crate::encode::block::lemma_step_bits(v, k);
    assert({
        &&& v % (1i32 << k) == 0 ==> (((v & !(((1i32 << k) * 2) as i32)) + (v & (1i32 << k))) as i32) % (((
        1i32 << k) * 2) as i32) == 0
        &&& (1i32 << k) >= 1
        &&& (1i32 << k) <= 0x2000_0000
    }) by (bit_vector)
        requires
            0 <= v < 0x4000_0000,
            k < 30,
    ;
    assert(p as i32 == p);
    assert(((s * 2) as i32) as int == 2 * (s as int));
    if p >= size {
        lemma_multiple_step(p, 2 * (s as int), 1);
    }
}


/// What the context of a visited position reads: besides its ancestor, whose
/// coordinates are multiples of twice the step, only multiples of the step
/// with the step's bit.
#[verifier::rlimit(60)]
proof fn lemma_terms_shape(c: ImageChunkMut, x: int, y: int)
    requires
        block_chunk_ok(c),
        0 <= x < size_x(c),
        0 <= y < size_y(c),
        x % (c.step as int) == 0,
        y % (c.step as int) == 0,
        on_step(c, x, y),
    ensures
        ({
            let t = context_terms(c, x as i32, y as i32)[0];
            &&& (t.1 - c.x_range.0) % (2 * c.step as int) == 0
            &&& (t.0 - c.y_range.0) % (2 * c.step as int) == 0
        }),
        forall|jt: int|
            1 <= jt < context_terms(c, x as i32, y as i32).len() ==> {
                let t = #[trigger] context_terms(c, x as i32, y as i32)[jt];
                &&& (t.1 - c.x_range.0) % (c.step as int) == 0
                &&& (t.0 - c.y_range.0) % (c.step as int) == 0
                &&& on_step(c, t.1 - c.x_range.0, t.0 - c.y_range.0)
            },
{
    let k = lemma_step_shift(c);
    let xi = x as i32;
    let yi = y as i32;
    let skip = c.step as i32;
    let sv = skip as int;
    let sizex = (c.x_range.1 - c.x_range.0) as i32;
    let sizey = (c.y_range.1 - c.y_range.0) as i32;
    let x0 = c.x_range.0 as int;
    let y0 = c.y_range.0 as int;
    lemma_terms_before(c, x, y);
    lemma_ancestor_even(xi, k, sizex);
    lemma_ancestor_even(yi, k, sizey);
    lemma_shift_keeps_bit(xi, k);
    lemma_shift_keeps_bit(yi, k);
    assert(sv >= 1);
    lemma_multiple_step(x, sv, 1);
    lemma_multiple_step(x, sv, 2);
    lemma_multiple_step(x, sv, 4);
    lemma_multiple_step(y, sv, 1);
    lemma_multiple_step(y, sv, 2);
    lemma_multiple_step(y, sv, 4);
    let ts = context_terms(c, xi, yi);
    let ancestor_term = seq![(y0 + ancestor(yi, skip, sizey), x0 + ancestor(xi, skip, sizex), 2int)];
    let siblings = if (yi & skip) != 0 && (xi | skip) < sizex {
        seq![(y0 + yi - sv, x0 + (xi | skip), 2int)] + if (xi & skip) != 0 {
            seq![(y0 + yi, x0 + xi - sv, 2int)]
        } else {
            Seq::empty()
        }
    } else {
        Seq::empty()
    };
    let near = ts.subrange(1 + siblings.len() as int, ts.len() as int);
    assert(ts =~= ancestor_term + siblings + near);
    assert forall|jt: int| 1 <= jt < ts.len() implies {
        let t = #[trigger] ts[jt];
        &&& (t.1 - x0) % sv == 0
        &&& (t.0 - y0) % sv == 0
        &&& on_step(c, t.1 - x0, t.0 - y0)
    } by {
        if jt <= siblings.len() {
            assert(ts[jt] == siblings[jt - 1]);
        } else {
            assert(ts[jt] == near[jt - 1 - siblings.len()]);
        }
    }
}


/// A sample a chunk reads without coding it is the ancestor of a coded
/// position: its coordinates in the chunk are multiples of twice the step.
pub proof fn lemma_read_not_coded(c: ImageChunkMut, has_dc: bool, m: int) -> (a: (int, int))
    requires
        block_chunk_ok(c),
        context_reads(c, m),
        !coded_index(c, has_dc, m),
    ensures
        0 <= a.0 < size_x(c),
        0 <= a.1 < size_y(c),
        a.0 % (2 * c.step as int) == 0,
        a.1 % (2 * c.step as int) == 0,
        m == sample_index(c, a.0, a.1),
{
    let ps = pass_positions(c, 0);
    let (i, jt) = choose|i: int, jt: int|
        0 <= i < ps.len() && 0 <= jt < context_terms(c, ps[i].0 as i32, ps[i].1 as i32).len() && m
            == c.index_of(
            #[trigger] context_terms(c, ps[i].0 as i32, ps[i].1 as i32)[jt].0,
            context_terms(c, ps[i].0 as i32, ps[i].1 as i32)[jt].1,
        );
    lemma_pass_positions(c, 0);
    vstd::arithmetic::div_mod::lemma_small_mod(0, c.step as nat);
    lemma_pass_multiples(c, 0);
    let (x, y) = ps[i];
    lemma_terms_before(c, x, y);
    lemma_terms_shape(c, x, y);
    let t = context_terms(c, x as i32, y as i32)[jt];
    let rel = (t.1 - c.x_range.0, t.0 - c.y_range.0);
    assert(m == sample_index(c, rel.0, rel.1));
    if jt >= 1 {
        let j = lemma_on_step_visited(c, rel.0, rel.1);
        assert(coded_index(c, has_dc, m));
    }
    rel
}

} // verus!
