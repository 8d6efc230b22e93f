//! Entropy coding of wavelet coefficients.
use vstd::prelude::*;

pub mod block;
pub mod context;
pub mod golomb;
pub mod lossless;

pub use self::block::{decode, encode};
pub use self::context::{add_context, get_context, square};
pub use self::golomb::{
    interleaved_code, interleaved_decode, signed_code, signed_decode, unsigned_code,
    unsigned_decode,
};

use self::golomb::{
    interleave, interleaved_decode_spec, signed_code_bits, signed_decode_spec,
    unsigned_code_bits, wrap32,
};
use crate::bits::{BitsReader, BitsWriter};

verus! {

/// How a coefficient is coded in a given context: with the signed code or
/// the interleaved code, and the exponent.  The thresholds grow with the
/// second moment `c1` of the context; sums wrap at 32 bits.
#[verifier::opaque]
pub open spec fn code_choice(sum_sq: u32, c1: u32, is_chroma: bool) -> (bool, int) {
    let c = c1 as int;
    if sum_sq < wrap32(2 * c + if is_chroma { 250int } else { 100int }) {
        (false, 0)
    } else if sum_sq < wrap32(2 * c + 950) {
        (false, 1)
    } else if sum_sq < wrap32(3 * c + 3000) {
        if sum_sq < wrap32(5 * c + 400) {
            (true, 1)
        } else {
            (false, 2)
        }
    } else if sum_sq < wrap32(3 * c + 12000) {
        if sum_sq < wrap32(5 * c + 3000) {
            (true, 2)
        } else {
            (false, 3)
        }
    } else if sum_sq < wrap32(4 * c + 44000) {
        if sum_sq < wrap32(6 * c + 12000) {
            (true, 3)
        } else {
            (false, 4)
        }
    } else {
        (true, 4)
    }
}

/// The code choice in a context whose second moment `c1` keeps the
/// thresholds within 32 bits: the interleaved code with exponent 0 below
/// `2 * c1 + 100` (`+ 250` for chroma), exponent 1 below `2 * c1 + 950`; below
/// `3 * c1 + 3000` the signed code with exponent 1 under `5 * c1 + 400`, else
/// the interleaved with 2; below `3 * c1 + 12000` the signed with 2 under
/// `5 * c1 + 3000`, else the interleaved with 3; below `4 * c1 + 44000` the
/// signed with 3 under `6 * c1 + 12000`, else the interleaved with 4; beyond,
/// the signed code with exponent 4.
pub proof fn lemma_code_choice(sum_sq: u32, c1: u32, is_chroma: bool)
    requires
        c1 < 0x1000_0000,
    ensures
        ({
            let c = c1 as int;
            let v = sum_sq as int;
            let base: int = if is_chroma { 250 } else { 100 };
            let r = code_choice(sum_sq, c1, is_chroma);
            &&& v < 2 * c + base ==> r == (false, 0int)
            &&& 2 * c + base <= v < 2 * c + 950 ==> r == (false, 1int)
            &&& 2 * c + base <= v && 2 * c + 950 <= v < 3 * c + 3000 && v < 5 * c + 400 ==> r == (true, 1int)
            &&& 2 * c + base <= v && 2 * c + 950 <= v < 3 * c + 3000 && v >= 5 * c + 400 ==> r == (false, 2int)
            &&& 2 * c + base <= v && 3 * c + 3000 <= v < 3 * c + 12000 && v < 5 * c + 3000 ==> r == (true, 2int)
            &&& 2 * c + base <= v && 3 * c + 3000 <= v < 3 * c + 12000 && v >= 5 * c + 3000 ==> r == (false, 3int)
            &&& 2 * c + base <= v && 3 * c + 12000 <= v < 4 * c + 44000 && v < 6 * c + 12000 ==> r == (true, 3int)
            &&& 2 * c + base <= v && 3 * c + 12000 <= v < 4 * c + 44000 && v >= 6 * c + 12000 ==> r == (false, 4int)
            &&& 2 * c + base <= v && 4 * c + 44000 <= v ==> r == (true, 4int)
        }),
{
    reveal(code_choice);
    let c = c1 as int;
    assert(wrap32(2 * c + 100) == 2 * c + 100);
    assert(wrap32(2 * c + 250) == 2 * c + 250);
    assert(wrap32(2 * c + 950) == 2 * c + 950);
    assert(wrap32(3 * c + 3000) == 3 * c + 3000);
    assert(wrap32(5 * c + 400) == 5 * c + 400);
    assert(wrap32(3 * c + 12000) == 3 * c + 12000);
    assert(wrap32(5 * c + 3000) == 5 * c + 3000);
    assert(wrap32(4 * c + 44000) == 4 * c + 44000);
    assert(wrap32(6 * c + 12000) == 6 * c + 12000);
}

/// The bits of `s` coded as chosen.
#[verifier::opaque]
pub open spec fn choice_bits(choice: (bool, int), s: i32) -> Seq<bool> {
    if choice.0 {
        signed_code_bits(s, choice.1 as nat)
    } else {
        unsigned_code_bits(interleave(s), choice.1 as nat)
    }
}

/// Decoding `s` as chosen.
#[verifier::opaque]
pub open spec fn choice_decode(choice: (bool, int), d: Seq<bool>, p: int) -> Option<(i32, nat)> {
    if choice.0 {
        signed_decode_spec(d, p, choice.1 as nat)
    } else {
        interleaved_decode_spec(d, p, choice.1 as nat)
    }
}

/// `a + b` modulo 2^32, as the coder computes its thresholds.
fn add_wrapping(a: u32, b: u32) -> (r: u32)
    ensures
        r == wrap32(a + b),
{
    a.wrapping_add(b)
}

/// `k * a` modulo 2^32.
fn mul_wrapping(k: u32, a: u32) -> (r: u32)
    ensures
        r == wrap32(k * a),
{
    k.wrapping_mul(a)
}

proof fn lemma_wrap32_mul_add(k: int, c: int, a: int)
    ensures
        wrap32(wrap32(k * c) + a) == wrap32(k * c + a),
{
    vstd::arithmetic::div_mod::lemma_fundamental_div_mod(k * c, 0x1_0000_0000);
    vstd::arithmetic::div_mod::lemma_mod_add_multiples_vanish(
        (k * c) % 0x1_0000_0000 + a,
        0x1_0000_0000,
    );
    let q = (k * c) / 0x1_0000_0000;
    vstd::arithmetic::div_mod::lemma_mod_multiples_vanish(q, (k * c) % 0x1_0000_0000 + a, 0x1_0000_0000);
}

/// `k * c + a` modulo 2^32.
fn threshold(k: u32, c: u32, a: u32) -> (r: u32)
    ensures
        r == wrap32(k * c + a),
{
    let m = mul_wrapping(k, c);
    proof {
        lemma_wrap32_mul_add(k as int, c as int, a as int);
    }
    add_wrapping(m, a)
}

/// Chooses the code of a coefficient from its context.
fn choose_code(sum_sq: u32, context: (u32, u32), is_chroma: bool) -> (r: (bool, i32))
    ensures
        (r.0, r.1 as int) == code_choice(sum_sq, context.1, is_chroma),
        0 <= r.1 <= 4,
{
    reveal(code_choice);
    let c = context.1;
    let base = if is_chroma {
        250
    } else {
        100
    };
    if sum_sq < threshold(2, c, base) {
        (false, 0)
    } else if sum_sq < threshold(2, c, 950) {
        (false, 1)
    } else if sum_sq < threshold(3, c, 3000) {
        if sum_sq < threshold(5, c, 400) {
            (true, 1)
        } else {
            (false, 2)
        }
    } else if sum_sq < threshold(3, c, 12000) {
        if sum_sq < threshold(5, c, 3000) {
            (true, 2)
        } else {
            (false, 3)
        }
    } else if sum_sq < threshold(4, c, 44000) {
        if sum_sq < threshold(6, c, 12000) {
            (true, 3)
        } else {
            (false, 4)
        }
    } else {
        (true, 4)
    }
}

/// Writes a coefficient with the code its context chooses.
pub fn encode_s<W: BitsWriter>(
    stream: &mut W,
    s: i32,
    sum_sq: u32,
    context: (u32, u32),
    is_chroma: bool,
) -> (r: Result<(), std::io::Error>)
    requires
        old(stream).writer_wf(),
        -0x3fff_ffff <= s <= 0x3fff_ffff,
    ensures
        r is Ok,
        final(stream).writer_wf(),
        final(stream).written() == old(stream).written() + choice_bits(
            code_choice(sum_sq, context.1, is_chroma),
            s,
        ),
{
    reveal(choice_bits);
    let (signed, pot) = choose_code(sum_sq, context, is_chroma);
    if signed {
        signed_code(s, stream, pot)
    } else {
        interleaved_code(s, stream, pot)
    }
}

/// Reads a coefficient with the code its context chooses.
pub fn get_s<R: BitsReader>(
    stream: &mut R,
    sum_sq: u32,
    context: (u32, u32),
    is_chroma: bool,
) -> (r: Result<i32, std::io::Error>)
    requires
        old(stream).reader_wf(),
    ensures
        match choice_decode(
            code_choice(sum_sq, context.1, is_chroma),
            old(stream).data(),
            old(stream).position(),
        ) {
            None => r is Err,
            Some((v, c)) => {
                &&& r == Ok::<i32, std::io::Error>(v)
                &&& final(stream).reader_wf()
                &&& final(stream).data() == old(stream).data()
                &&& final(stream).position() == old(stream).position() + c
            },
        },
{
    reveal(choice_decode);
    let (signed, pot) = choose_code(sum_sq, context, is_chroma);
    if signed {
        signed_decode(stream, pot)
    } else {
        interleaved_decode(stream, pot)
    }
}

/// The next run coder of the fast scheme: chosen from the decayed first
/// moment when the coefficient is zero exactly when runs are being coded,
/// kept otherwise.
pub open spec fn run_coder_fast_spec(context: (u32, u32), s: i32, run_coder: i32) -> i32 {
    if (s == 0) == (run_coder == 0) {
        if context.0 < 1 {
            4
        } else if context.0 < 2 {
            3
        } else if context.0 < 4 {
            2
        } else if context.0 < 8 {
            1
        } else {
            0
        }
    } else {
        run_coder
    }
}

/// The next run coder of the other schemes.
pub open spec fn run_coder_spec(
    context: (u32, u32),
    s: i32,
    q: i32,
    run_coder: i32,
    sum_sq: u32,
) -> i32 {
    if (s == 0) == (run_coder == 0) {
        if q == 1024 {
            if context.0 < 2 {
                1
            } else {
                0
            }
        } else if context.0 < 4 && context.1 < 2 {
            4
        } else if context.0 < 8 && context.1 < 4 {
            3
        } else if wrap32(2 * sum_sq) < wrap32(3 * context.1 + 48) {
            2
        } else if wrap32(2 * sum_sq) < wrap32(5 * context.1 + 32) {
            1
        } else {
            0
        }
    } else {
        run_coder
    }
}

/// The run coder changes only when the coefficient switches between zero
/// and nonzero against what the coder expects: a zero coefficient while runs
/// are coded (or a nonzero one while they are not) keeps it, in every scheme.
pub proof fn lemma_run_coder_kept(context: (u32, u32), s: i32, q: i32, run_coder: i32, sum_sq: u32)
    requires
        (s == 0) != (run_coder == 0),
    ensures
        run_coder_spec(context, s, q, run_coder, sum_sq) == run_coder,
        run_coder_fast_spec(context, s, run_coder) == run_coder,
{
}

/// At full quality (`q == 1024`, lossless coding) the contextual and fast
/// coders' run coder, when it is chosen anew, codes runs of zeros with the
/// Golomb parameter 1 in a quiet context (first moment below 2) and stops
/// coding runs (0) otherwise; it never takes another value.
pub proof fn lemma_run_coder_lossless(context: (u32, u32), s: i32, run_coder: i32, sum_sq: u32)
    requires
        (s == 0) == (run_coder == 0),
    ensures
        run_coder_spec(context, s, 1024, run_coder, sum_sq) == 1 <==> context.0 < 2,
        run_coder_spec(context, s, 1024, run_coder, sum_sq) == 0 <==> context.0 >= 2,
{
}

/// Below full quality, a run coder chosen anew takes the Golomb parameters
/// 4 down to 0 as the context grows: 4 when the first moment is below 4 and
/// the second below 2, else 3 when they are below 8 and 4, else 2, 1 or 0 as
/// twice the square of the first moment (on 32 bits) stays below
/// `3 * c1 + 48`, below `5 * c1 + 32`, or reaches it.
pub proof fn lemma_run_coder_lossy(context: (u32, u32), s: i32, q: i32, run_coder: i32, sum_sq: u32)
    requires
        (s == 0) == (run_coder == 0),
        q != 1024,
        sum_sq < 0x8000_0000,
        context.1 < 0x1000_0000,
    ensures
        0 <= run_coder_spec(context, s, q, run_coder, sum_sq) <= 4,
        context.0 < 4 && context.1 < 2 ==> run_coder_spec(context, s, q, run_coder, sum_sq) == 4,
        !(context.0 < 4 && context.1 < 2) && context.0 < 8 && context.1 < 4 ==> run_coder_spec(
            context,
            s,
            q,
            run_coder,
            sum_sq,
        ) == 3,
        !(context.0 < 8 && context.1 < 4) ==> (run_coder_spec(context, s, q, run_coder, sum_sq) == 2
            <==> 2 * sum_sq < 3 * context.1 + 48),
        !(context.0 < 8 && context.1 < 4) ==> (run_coder_spec(context, s, q, run_coder, sum_sq) == 1
            <==> 3 * context.1 + 48 <= 2 * sum_sq < 5 * context.1 + 32),
        !(context.0 < 8 && context.1 < 4) ==> (run_coder_spec(context, s, q, run_coder, sum_sq) == 0
            <==> 2 * sum_sq >= 3 * context.1 + 48 && 2 * sum_sq >= 5 * context.1 + 32),
{
    assert(wrap32(2 * sum_sq) == 2 * sum_sq);
    assert(wrap32(3 * context.1 + 48) == 3 * context.1 + 48);
    assert(wrap32(5 * context.1 + 32) == 5 * context.1 + 32);
}

/// The fast coder's run coder, when it is chosen anew, is the Golomb
/// parameter 4, 3, 2, 1 or 0 as the decayed first moment is below 1, 2, 4, 8
/// or not.
pub proof fn lemma_run_coder_fast(context: (u32, u32), s: i32, run_coder: i32)
    requires
        (s == 0) == (run_coder == 0),
    ensures
        context.0 == 0 ==> run_coder_fast_spec(context, s, run_coder) == 4,
        context.0 == 1 ==> run_coder_fast_spec(context, s, run_coder) == 3,
        2 <= context.0 < 4 ==> run_coder_fast_spec(context, s, run_coder) == 2,
        4 <= context.0 < 8 ==> run_coder_fast_spec(context, s, run_coder) == 1,
        context.0 >= 8 ==> run_coder_fast_spec(context, s, run_coder) == 0,
{
}

pub fn get_run_coder_fast(context: (u32, u32), s: i32, run_coder: i32) -> (r: i32)
    ensures
        r == run_coder_fast_spec(context, s, run_coder),
{
    if (s == 0) == (run_coder == 0) {
        if context.0 < 1 {
            4
        } else if context.0 < 2 {
            3
        } else if context.0 < 4 {
            2
        } else if context.0 < 8 {
            1
        } else {
            0
        }
    } else {
        run_coder
    }
}

pub fn get_run_coder(context: (u32, u32), s: i32, q: i32, run_coder: i32, sum_sq: u32) -> (r: i32)
    ensures
        r == run_coder_spec(context, s, q, run_coder, sum_sq),
{
    if (s == 0) == (run_coder == 0) {
        if q == 1024 {
            if context.0 < 2 {
                1
            } else {
                0
            }
        } else if context.0 < 4 && context.1 < 2 {
            4
        } else if context.0 < 8 && context.1 < 4 {
            3
        } else if mul_wrapping(2, sum_sq) < threshold(3, context.1, 48) {
            2
        } else if mul_wrapping(2, sum_sq) < threshold(5, context.1, 32) {
            1
        } else {
            0
        }
    } else {
        run_coder
    }
}

} // verus!
