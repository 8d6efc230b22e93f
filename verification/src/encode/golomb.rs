//! Limited-length power-of-two Golomb-Rice codes, and their signed variants.
use vstd::prelude::*;
use vstd::arithmetic::power2::pow2;

use crate::bits::{
    lemma_scan_zeros,
    bits_of, bits_value, lemma_bits_of_zero, lemma_bits_value_append, lemma_bits_value_bound,
    lemma_bits_value_ext, lemma_bits_value_of, scan_zeros, zeros, BitsReader, BitsWriter,
};

verus! {

/// The exponent used after an escape while encoding.
pub open spec fn next_pot(pot: nat) -> nat {
    if pot < 20 {
        pot + 4
    } else {
        24
    }
}

/// The bits of the Golomb-Rice code of `x` with exponent `pot`: while
/// `x / 2^pot >= 12`, twelve zeros and the code of `x - 12 * 2^pot` with the
/// next exponent; else `x / 2^pot` zeros, a one, and the low `pot` bits of `x`.
pub open spec fn unsigned_code_bits(x: u32, pot: nat) -> Seq<bool>
    decreases x,
{
    if pot < 32 && pow2(pot) > 0 && 12 * pow2(pot) <= x {
        zeros(12) + unsigned_code_bits((x - 12 * pow2(pot)) as u32, next_pot(pot))
    } else {
        zeros(x as nat / pow2(pot)) + seq![true] + bits_of(x, pot)
    }
}

/// The exponent used after an escape while decoding.
pub open spec fn next_decode_pot(pot: nat) -> nat {
    if pot + 4 < 108 {
        pot + 4
    } else {
        108
    }
}

pub open spec fn min24(pot: nat) -> nat {
    if pot < 24 {
        pot
    } else {
        24
    }
}

/// `(a + b) mod 2^32`.
pub open spec fn wrap32(v: int) -> u32 {
    (v % 0x1_0000_0000) as u32
}

/// Decoding a Golomb-Rice code from position `p` of `s`: the value and the
/// number of bits it takes, or `None` when the bits run out.
pub open spec fn unsigned_decode_spec(s: Seq<bool>, p: int, pot: nat) -> Option<(u32, nat)>
    decreases 108 - pot,
{
    match scan_zeros(s, p, 0, 12) {
        None => None,
        Some((x, c)) => {
            let pp = min24(pot);
            if pot < 108 && x == 12 {
                match unsigned_decode_spec(s, p + c, next_decode_pot(pot)) {
                    None => None,
                    Some((v, c2)) => Some((wrap32((12 * pow2(pp) + v) as int), c + c2)),
                }
            } else if pp != 0 {
                if p + c + pp <= s.len() {
                    Some((wrap32((x * pow2(pp) + bits_value(s, p + c, pp)) as int), c + pp))
                } else {
                    None
                }
            } else {
                Some((x as u32, c))
            }
        },
    }
}

/// The interleaved form of a signed number: `-2x` for `x <= 0`, `2x - 1` else.
pub open spec fn interleave(x: i32) -> u32 {
    if x <= 0 {
        (-2 * x) as u32
    } else {
        (2 * x - 1) as u32
    }
}

/// The signed number of an interleaved form (read as an `i32`).
pub open spec fn deinterleave(u: u32) -> i32 {
    let x = u as i32;
    if x % 2 != 0 {
        ((x + 1) / 2) as i32
    } else {
        (-(x / 2)) as i32
    }
}

pub open spec fn abs_i32(x: i32) -> u32 {
    if x < 0 {
        (-x) as u32
    } else {
        x as u32
    }
}

/// The bits of the signed code of `x`: the code of `|x|`, then a sign bit
/// unless `x` is zero.
pub open spec fn signed_code_bits(x: i32, pot: nat) -> Seq<bool> {
    unsigned_code_bits(abs_i32(x), pot) + if x != 0 {
        seq![x > 0]
    } else {
        Seq::empty()
    }
}

pub open spec fn interleaved_decode_spec(s: Seq<bool>, p: int, pot: nat) -> Option<(i32, nat)> {
    match unsigned_decode_spec(s, p, pot) {
        None => None,
        Some((u, c)) => Some((deinterleave(u), c)),
    }
}

pub open spec fn signed_decode_spec(s: Seq<bool>, p: int, pot: nat) -> Option<(i32, nat)> {
    match unsigned_decode_spec(s, p, pot) {
        None => None,
        Some((u, c)) => {
            let x = u as i32;
            if x == 0 {
                Some((0, c))
            } else if p + c + 1 <= s.len() {
                Some((
                    if s[p + c] {
                        x
                    } else {
                        (-x) as i32
                    },
                    c + 1,
                ))
            } else {
                None
            }
        },
    }
}

/// The bits that `(1 << pot) | (x mod 2^pot)` takes in `y + 1 + pot` bits.
proof fn lemma_code_word_bits(x: u32, pot: u32, y: u32)
    requires
        pot < 32,
        y + 1 + pot <= 32,
    ensures
        bits_of((1u32 << pot) | (x & !(!0u32 << pot)), (y + 1 + pot) as nat) =~= zeros(y as nat)
            + seq![true] + bits_of(x, pot as nat),
{
    let v = (1u32 << pot) | (x & !(!0u32 << pot));
    let n = (y + 1 + pot) as nat;
    assert forall|k: int| 0 <= k < n implies bits_of(v, n)[k] == (zeros(y as nat) + seq![true]
        + bits_of(x, pot as nat))[k] by {
        let j = (n - 1 - k) as u32;
        assert(((v >> j) & 1u32 == 1u32) == (if j < pot {
            (x >> j) & 1u32 == 1u32
        } else {
            j == pot
        })) by (bit_vector)
            requires
                pot < 32,
                j < 32,
                v == (1u32 << pot) | (x & !(!0u32 << pot)),
        ;
        if k < y {
        } else if k == y {
        } else {
            assert(j == pot - 1 - (k - y - 1));
        }
    }
}

/// `x / 2^pot` as a shift.
proof fn lemma_shr_pot(x: u32, pot: u32)
    requires
        pot < 32,
    ensures
        x >> pot == x as nat / pow2(pot as nat),
        pow2(pot as nat) > 0,
        (x >> pot) >= 12 <==> 12 * pow2(pot as nat) <= x,
{
    if 12 * pow2(pot as nat) <= x {
        vstd::arithmetic::power2::lemma_pow2_pos(pot as nat);
        vstd::arithmetic::div_mod::lemma_div_is_ordered((12 * pow2(pot as nat)) as int, x as int, pow2(pot as nat) as int);
        vstd::arithmetic::div_mod::lemma_div_multiples_vanish(12, pow2(pot as nat) as int);
        vstd::arithmetic::mul::lemma_mul_is_commutative(12, pow2(pot as nat) as int);
    }
    vstd::bits::lemma_u32_shr_is_div(x, pot);
    vstd::arithmetic::power2::lemma_pow2_pos(pot as nat);
    if (x >> pot) >= 12 {
        vstd::arithmetic::div_mod::lemma_fundamental_div_mod(x as int, pow2(pot as nat) as int);
        vstd::arithmetic::mul::lemma_mul_inequality(12, (x >> pot) as int, pow2(pot as nat) as int);
        vstd::arithmetic::mul::lemma_mul_is_commutative(pow2(pot as nat) as int, (x >> pot) as int);
        vstd::arithmetic::div_mod::lemma_mod_pos_bound(x as int, pow2(pot as nat) as int);
    }
}

/// Writes the Golomb-Rice code of `x` with exponent `pot`.
pub fn unsigned_code<W: BitsWriter>(x: u32, stream: &mut W, pot: i32) -> (r: Result<(), std::io::Error>)
    requires
        old(stream).writer_wf(),
        0 <= pot < 32,
    ensures
        final(stream).writer_wf(),
        r is Ok,
        final(stream).written() == old(stream).written() + unsigned_code_bits(x, pot as nat),
    decreases x,
{
    let potu = pot as u32;
    let y = x >> potu;
    proof {
        lemma_shr_pot(x, potu);
    }
    if y >= 12 {
        proof {
            lemma_bits_of_zero(12);
        }
        assert(0u32 >> 12u32 == 0) by (bit_vector);
        let r0 = stream.put_bits(0, 12);
        let new_pot = if pot < 20 {
            pot + 4
        } else {
            24
        };
        proof {
            vstd::bits::lemma_u32_shl_is_mul(12, potu);
        }
        let r = unsigned_code(x - (12u32 << potu), stream, new_pot);
        proof {
            assert(final(stream).written() =~= old(stream).written() + unsigned_code_bits(
                x,
                pot as nat,
            ));
        }
        r
    } else {
        let total = y + 1 + potu;
        let v = (1u32 << potu) | (x & !(!0u32 << potu));
        assert(v >> (potu + 1) as u32 == 0 || potu == 31) by (bit_vector)
            requires
                potu < 32,
                v == (1u32 << potu) | (x & !(!0u32 << potu)),
        ;
        if total <= 32 {
            proof {
                lemma_code_word_bits(x, potu, y);
                assert(total < 32 ==> v >> total == 0) by (bit_vector)
                    requires
                        total <= 32,
                        total >= potu + 1,
                        v >> (potu + 1) as u32 == 0 || potu == 31,
                ;
            }
            stream.put_bits(v, total)
        } else {
            let extra = total - 32;
            proof {
                lemma_bits_of_zero(extra as nat);
                assert(extra < 32 ==> 0u32 >> extra == 0) by (bit_vector);
                lemma_code_word_bits(x, potu, (31 - potu) as u32);
            }
            let r0 = stream.put_bits(0, extra);
            let r = stream.put_bits(v, 32);
            proof {
                assert(zeros(extra as nat) + zeros((31 - potu) as nat) =~= zeros(y as nat));
                assert(final(stream).written() =~= old(stream).written() + unsigned_code_bits(
                    x,
                    pot as nat,
                ));
            }
            r
        }
    }
}

/// Reads a Golomb-Rice code with exponent `pot`.
pub fn unsigned_decode<R: BitsReader>(stream: &mut R, pot: i32) -> (r: Result<u32, std::io::Error>)
    requires
        old(stream).reader_wf(),
        pot >= 0,
    ensures
        match unsigned_decode_spec(old(stream).data(), old(stream).position(), pot as nat) {
            None => r is Err,
            Some((v, c)) => {
                &&& r == Ok::<u32, std::io::Error>(v)
                &&& final(stream).reader_wf()
                &&& final(stream).data() == old(stream).data()
                &&& final(stream).position() == old(stream).position() + c
            },
        },
    decreases 108 - pot,
{
    let ghost s = stream.data();
    let ghost p = stream.position();
    let x = match stream.get_zeros(12) {
        Ok(v) => v,
        Err(e) => {
            return Err(e);
        },
    };
    let ghost c = (stream.position() - p) as nat;
    proof {
        crate::bits::lemma_scan_zeros(s, p, 0, 12);
        assert(scan_zeros(s, p, 0, 12) == Some((x as nat, c)));
    }
    let pp = if pot < 24 {
        pot
    } else {
        24
    };
    proof {
        vstd::bits::lemma_u32_pow2_no_overflow(pp as nat);
        vstd::arithmetic::power2::lemma2_to64();
    }
    if pot < 108 && x == 12 {
        let new_pot = if pot + 4 < 108 {
            pot + 4
        } else {
            108
        };
        let v = match unsigned_decode(stream, new_pot) {
            Ok(v) => v,
            Err(e) => {
                return Err(e);
            },
        };
        proof {
            assert(12 * pow2(pp as nat) <= 12 * pow2(24)) by {
                if pp < 24 {
                    vstd::arithmetic::power2::lemma_pow2_strictly_increases(pp as nat, 24);
                }
            }
            vstd::bits::lemma_u32_shl_is_mul(12, pp as u32);
            let a = (12u32 << pp as u32);
            assert(wrap32((a + v) as int) == (if a + v > u32::MAX { a + v - 0x1_0000_0000 } else { a + v }));
        }
        Ok((12u32 << pp as u32).wrapping_add(v))
    } else if pp != 0 {
        let b = match stream.get_bits(pp as u32) {
            Ok(v) => v,
            Err(e) => {
                return Err(e);
            },
        };
        proof {
            assert(x * pow2(pp as nat) <= 12 * pow2(24)) by {
                if pp < 24 {
                    vstd::arithmetic::power2::lemma_pow2_strictly_increases(pp as nat, 24);
                }
                vstd::arithmetic::mul::lemma_mul_inequality(x as int, 12, pow2(pp as nat) as int);
                vstd::arithmetic::mul::lemma_mul_inequality(pow2(pp as nat) as int, pow2(24) as int, 12);
            }
            vstd::bits::lemma_u32_shl_is_mul(x, pp as u32);
            let a = (x << pp as u32);
            assert(wrap32((a + b) as int) == (if a + b > u32::MAX { a + b - 0x1_0000_0000 } else { a + b }));
        }
        Ok((x << pp as u32).wrapping_add(b))
    } else {
        Ok(x)
    }
}

/// Writes the interleaved code of `x`.
pub fn interleaved_code<W: BitsWriter>(x: i32, stream: &mut W, pot: i32) -> (r: Result<(), std::io::Error>)
    requires
        old(stream).writer_wf(),
        0 <= pot < 32,
        -0x3fff_ffff <= x <= 0x3fff_ffff,
    ensures
        final(stream).writer_wf(),
        r is Ok,
        final(stream).written() == old(stream).written() + unsigned_code_bits(interleave(x), pot as nat),
{
    let u = if x <= 0 {
        -(2 * x)
    } else {
        2 * x - 1
    } as u32;
    unsigned_code(u, stream, pot)
}

/// Reads an interleaved code.
pub fn interleaved_decode<R: BitsReader>(stream: &mut R, pot: i32) -> (r: Result<i32, std::io::Error>)
    requires
        old(stream).reader_wf(),
        pot >= 0,
    ensures
        match interleaved_decode_spec(old(stream).data(), old(stream).position(), pot as nat) {
            None => r is Err,
            Some((v, c)) => {
                &&& r == Ok::<i32, std::io::Error>(v)
                &&& final(stream).reader_wf()
                &&& final(stream).data() == old(stream).data()
                &&& final(stream).position() == old(stream).position() + c
            },
        },
{
    let u = match unsigned_decode(stream, pot) {
        Ok(v) => v,
        Err(e) => {
            return Err(e);
        },
    };
    let x = u as i32;
    if (x & 1) != 0 {
        assert((x & 1) != 0 <==> x % 2 != 0) by (bit_vector);
        Ok(((x as i64 + 1) / 2) as i32)
    } else {
        assert((x & 1) != 0 <==> x % 2 != 0) by (bit_vector);
        Ok((-(x as i64) / 2) as i32)
    }
}

/// Writes the signed code of `x`: the code of its magnitude and, unless it is
/// zero, a sign bit.
pub fn signed_code<W: BitsWriter>(x: i32, stream: &mut W, pot: i32) -> (r: Result<(), std::io::Error>)
    requires
        old(stream).writer_wf(),
        0 <= pot < 32,
        x != i32::MIN,
    ensures
        final(stream).writer_wf(),
        r is Ok,
        final(stream).written() == old(stream).written() + signed_code_bits(x, pot as nat),
{
    let magnitude = if x < 0 {
        -x
    } else {
        x
    } as u32;
    let r0 = unsigned_code(magnitude, stream, pot);
    if x != 0 {
        assert((1u32 >> 1u32) == 0 && (0u32 >> 1u32) == 0) by (bit_vector);
        let r = stream.put_bits(if x > 0 {
            1
        } else {
            0
        }, 1);
        proof {
            assert(bits_of(if x > 0 { 1u32 } else { 0u32 }, 1) =~= seq![x > 0]) by {
                assert((1u32 >> 0u32) & 1u32 == 1u32 && (0u32 >> 0u32) & 1u32 == 0u32) by (bit_vector);
            }
            assert(final(stream).written() =~= old(stream).written() + signed_code_bits(x, pot as nat));
        }
        r
    } else {
        assert(final(stream).written() =~= old(stream).written() + signed_code_bits(x, pot as nat));
        r0
    }
}

/// Reads a signed code.
pub fn signed_decode<R: BitsReader>(stream: &mut R, pot: i32) -> (r: Result<i32, std::io::Error>)
    requires
        old(stream).reader_wf(),
        pot >= 0,
    ensures
        match signed_decode_spec(old(stream).data(), old(stream).position(), pot as nat) {
            None => r is Err,
            Some((v, c)) => {
                &&& r == Ok::<i32, std::io::Error>(v)
                &&& final(stream).reader_wf()
                &&& final(stream).data() == old(stream).data()
                &&& final(stream).position() == old(stream).position() + c
            },
        },
{
    let ghost s = stream.data();
    let ghost p = stream.position();
    let u = match unsigned_decode(stream, pot) {
        Ok(v) => v,
        Err(e) => {
            return Err(e);
        },
    };
    let x = u as i32;
    if x == 0 {
        return Ok(0);
    }
    let ghost q = stream.position();
    let b = match stream.get_bits(1) {
        Ok(v) => v,
        Err(e) => {
            return Err(e);
        },
    };
    proof {
        reveal_with_fuel(bits_value, 2);
        assert(bits_value(s, q, 1) == (if s[q] { 1nat } else { 0nat }));
    }
    if b != 0 {
        Ok(x)
    } else {
        Ok((-(x as i64)) as i32)
    }
}

// ---------------------------------------------------------------------------
// Decoding what was encoded.

/// Every escape of the code of `x` with exponent `e` is read by a decoder whose
/// exponent (`d` at the start) is still below 108, where decoders stop
/// escaping.
pub open spec fn decodable_depth(x: u32, e: nat, d: nat) -> bool
    decreases x,
{
    if e < 32 && pow2(e) > 0 && 12 * pow2(e) <= x {
        d < 108 && decodable_depth((x - 12 * pow2(e)) as u32, next_pot(e), next_decode_pot(d))
    } else {
        true
    }
}

/// A scan over `y` zeros followed by a one (or by nothing, when `y` is the
/// maximum) counts the `y` zeros.
proof fn lemma_scan_prefix(s: Seq<bool>, p: int, x: nat, y: nat, max: nat)
    requires
        0 <= p,
        x <= y <= max,
        x < max,
        p + y <= s.len(),
        forall|k: int| p <= k < p + y ==> !s[k],
        y < max ==> p + y < s.len() && s[p + y],
    ensures
        scan_zeros(s, p, x, max) == if y < max {
            Some((y, y + 1))
        } else {
            Some((max, max))
        },
    decreases y - x,
{
    if x < y {
        assert(!s[p + x]);
        if x + 1 == max {
        } else {
            lemma_scan_prefix(s, p, x + 1, y, max);
        }
    }
}

/// The value of the low `n` bits of `x`.
pub proof fn lemma_bits_value_low(x: u32, n: nat)
    requires
        n < 32,
    ensures
        bits_value(bits_of(x, n), 0, n) == x as nat % pow2(n),
{
    let nn = n as u32;
    crate::bits::lemma_bits_split(x, 32, n);
    lemma_bits_value_of(x, 32);
    let hi = x >> nn;
    assert(hi >> (32 - nn) as u32 == 0) by (bit_vector)
        requires
            nn < 32,
            hi == x >> nn,
    ;
    lemma_bits_value_of(hi, (32 - n) as nat);
    let full = bits_of(x, 32);
    let top = bits_of(hi, (32 - n) as nat);
    let low = bits_of(x, n);
    assert(full =~= top + low);
    lemma_bits_value_append(full, 0, (32 - n) as nat, n);
    assert(full.subrange(0, 32 - n) =~= top.subrange(0, 32 - n));
    lemma_bits_value_ext(full, 0, top, 0, (32 - n) as nat);
    assert(full.subrange(32 - n, 32) =~= low.subrange(0, n as int));
    lemma_bits_value_ext(full, (32 - n) as int, low, 0, n);
    let lv = bits_value(low, 0, n);
    assert(x as nat == (hi as nat) * pow2(n) + lv);
    lemma_bits_value_bound(low, 0, n);
    vstd::arithmetic::power2::lemma_pow2_pos(n);
    vstd::arithmetic::div_mod::lemma_fundamental_div_mod_converse(
        x as int,
        pow2(n) as int,
        hi as int,
        lv as int,
    );
}

/// The length of a code, and its first bit pattern.
pub proof fn lemma_unsigned_code_len(x: u32, e: nat)
    requires
        e < 32,
    ensures
        unsigned_code_bits(x, e).len() >= 1,
    decreases x,
{
    vstd::arithmetic::power2::lemma_pow2_pos(e);
    if 12 * pow2(e) <= x {
        lemma_unsigned_code_len((x - 12 * pow2(e)) as u32, next_pot(e));
    }
}

/// Decoding from a position where the code of `x` starts gives `x` back and
/// consumes exactly the code.
pub proof fn lemma_unsigned_roundtrip(s: Seq<bool>, p: int, x: u32, e: nat, d: nat)
    requires
        0 <= p,
        e == min24(d),
        decodable_depth(x, e, d),
        p + unsigned_code_bits(x, e).len() <= s.len(),
        s.subrange(p, p + unsigned_code_bits(x, e).len()) == unsigned_code_bits(x, e),
    ensures
        unsigned_decode_spec(s, p, d) == Some((x, unsigned_code_bits(x, e).len())),
    decreases x,
{
    let code = unsigned_code_bits(x, e);
    let l = code.len();
    vstd::arithmetic::power2::lemma_pow2_pos(e);
    assert forall|k: int| 0 <= k < l implies s[p + k] == code[k] by {
        assert(s.subrange(p, p + l)[k] == s[p + k]);
    }
    if 12 * pow2(e) <= x {
        let x2 = (x - 12 * pow2(e)) as u32;
        let rest = unsigned_code_bits(x2, next_pot(e));
        assert(code == zeros(12) + rest);
        assert forall|k: int| p <= k < p + 12 implies !s[k] by {
            assert(s[p + (k - p)] == code[k - p]);
        }
        lemma_scan_prefix(s, p, 0, 12, 12);
        assert(s.subrange(p + 12, p + 12 + rest.len()) =~= rest) by {
            assert forall|k: int| 0 <= k < rest.len() implies s.subrange(p + 12, p + 12 + rest.len())[k] == rest[k] by {
                assert(code[12 + k] == rest[k]);
            }
        }
        assert(min24(next_decode_pot(d)) == next_pot(e));
        lemma_unsigned_roundtrip(s, p + 12, x2, next_pot(e), next_decode_pot(d));
        vstd::arithmetic::power2::lemma2_to64();
        if e < 24 {
            vstd::arithmetic::power2::lemma_pow2_strictly_increases(e, 24);
        }
        assert(12 * pow2(e) + x2 == x);
        assert(wrap32((12 * pow2(min24(d)) + x2) as int) == x);
        assert(scan_zeros(s, p, 0, 12) == Some((12nat, 12nat)));
        assert(code.len() == 12 + rest.len());
        assert(unsigned_decode_spec(s, p + 12, next_decode_pot(d)) == Some((x2, rest.len())));
        assert(d < 108);
    } else {
        let y = x as nat / pow2(e);
        assert(y < 12) by {
            vstd::arithmetic::div_mod::lemma_fundamental_div_mod(x as int, pow2(e) as int);
            vstd::arithmetic::div_mod::lemma_mod_pos_bound(x as int, pow2(e) as int);
            if y >= 12 {
                vstd::arithmetic::mul::lemma_mul_inequality(12, y as int, pow2(e) as int);
                vstd::arithmetic::mul::lemma_mul_is_commutative(12, pow2(e) as int);
                vstd::arithmetic::mul::lemma_mul_is_commutative(y as int, pow2(e) as int);
            }
        }
        assert(code == zeros(y) + seq![true] + bits_of(x, e));
        assert(code[y as int]);
        assert forall|k: int| p <= k < p + y implies !s[k] by {
            assert(s[p + (k - p)] == code[k - p]);
        }
        assert(s[p + y] == code[y as int]);
        lemma_scan_prefix(s, p, 0, y, 12);
        let low = bits_of(x, e);
        assert(s.subrange(p + y + 1, p + y + 1 + e) =~= low.subrange(0, e as int)) by {
            assert forall|k: int| 0 <= k < e implies s.subrange(p + y + 1, p + y + 1 + e)[k] == low[k] by {
                assert(code[y + 1 + k] == low[k]);
            }
        }
        if e != 0 {
            lemma_bits_value_ext(s, p + y + 1, low, 0, e);
            lemma_bits_value_low(x, e);
            vstd::arithmetic::div_mod::lemma_fundamental_div_mod(x as int, pow2(e) as int);
            vstd::arithmetic::mul::lemma_mul_is_commutative(y as int, pow2(e) as int);
            assert(p + (y + 1) + e <= s.len());
            assert(y * pow2(e) + bits_value(s, p + y + 1, e) == x);
            assert(wrap32((y * pow2(e) + bits_value(s, p + y + 1, e)) as int) == x);
        } else {
            vstd::arithmetic::power2::lemma2_to64();
            assert(pow2(e) == 1);
            assert(x as nat / 1 == x);
            assert(y == x);
        }
        assert(scan_zeros(s, p, 0, 12) == Some((y, y + 1)));
        assert(code.len() == y + 1 + e);
    }
}

/// The number of times the code escapes at the largest exponent.
proof fn lemma_depth_at_24(x: u32, d: nat)
    requires
        24 <= d <= 108,
        d + 4 * (x as nat / (12 * pow2(24))) < 112,
    ensures
        decodable_depth(x, 24, d),
    decreases x,
{
    vstd::arithmetic::power2::lemma2_to64();
    let c = 12 * pow2(24);
    if 12 * pow2(24) <= x {
        let x2 = (x - c) as u32;
        assert(x2 as nat / c == x as nat / c - 1) by {
            vstd::arithmetic::div_mod::lemma_div_minus_one(x as int, c as int);
        }
        assert(x as nat / c >= 1) by {
            vstd::arithmetic::div_mod::lemma_div_is_ordered(c as int, x as int, c as int);
            vstd::arithmetic::div_mod::lemma_div_by_self(c as int);
        }
        lemma_depth_at_24(x2, next_decode_pot(d));
    }
}

/// Every number of 32 bits can be decoded from any starting exponent up to 24
/// (and a little beyond).
pub proof fn lemma_decodable_depth(x: u32, d: nat)
    requires
        d <= 27,
    ensures
        decodable_depth(x, min24(d), d),
    decreases x,
{
    vstd::arithmetic::power2::lemma2_to64();
    let e = min24(d);
    if d >= 24 {
        let c: int = 12 * pow2(24) as int;
        assert(c == 201326592);
        assert(x as nat / (12 * pow2(24)) <= 21) by {
            vstd::arithmetic::div_mod::lemma_div_is_ordered(x as int, 22 * c - 1, c);
            assert((22 * c - 1) / c == 21) by {
                vstd::arithmetic::div_mod::lemma_fundamental_div_mod_converse(
                    22 * c - 1, c, 21, c - 1);
            }
        }
        lemma_depth_at_24(x, d);
    } else {
        vstd::arithmetic::power2::lemma_pow2_pos(e);
        if 12 * pow2(e) <= x {
            lemma_decodable_depth((x - 12 * pow2(e)) as u32, d + 4);
        }
    }
}

/// Decoding the Golomb-Rice code of any `x`, written with an exponent up to 24,
/// gives `x` back and stops right after the code, whatever follows it.
pub proof fn lemma_unsigned_code_decodes(x: u32, pot: nat, rest: Seq<bool>)
    requires
        pot <= 24,
    ensures
        unsigned_decode_spec(unsigned_code_bits(x, pot) + rest, 0, pot) == Some(
            (x, unsigned_code_bits(x, pot).len()),
        ),
{
    let code = unsigned_code_bits(x, pot);
    lemma_decodable_depth(x, pot);
    assert((code + rest).subrange(0, code.len() as int) =~= code);
    lemma_unsigned_roundtrip(code + rest, 0, x, pot, pot);
}

/// Decoding the interleaved code of `x` gives `x` back.
pub proof fn lemma_interleaved_code_decodes(x: i32, pot: nat, rest: Seq<bool>)
    requires
        pot <= 24,
        -0x3fff_ffff <= x <= 0x3fff_ffff,
    ensures
        interleaved_decode_spec(unsigned_code_bits(interleave(x), pot) + rest, 0, pot) == Some(
            (x, unsigned_code_bits(interleave(x), pot).len()),
        ),
{
    lemma_unsigned_code_decodes(interleave(x), pot, rest);
    let u = interleave(x);
    assert((u as i32) as int == u as int);
}

/// Decoding the signed code of `x` gives `x` back.
pub proof fn lemma_signed_code_decodes(x: i32, pot: nat, rest: Seq<bool>)
    requires
        pot <= 24,
        x != i32::MIN,
    ensures
        signed_decode_spec(signed_code_bits(x, pot) + rest, 0, pot) == Some(
            (x, signed_code_bits(x, pot).len()),
        ),
{
    let u = abs_i32(x);
    let code = unsigned_code_bits(u, pot);
    let tail = if x != 0 {
        seq![x > 0]
    } else {
        Seq::<bool>::empty()
    };
    assert(signed_code_bits(x, pot) + rest =~= code + (tail + rest));
    lemma_unsigned_code_decodes(u, pot, tail + rest);
    assert((u as i32) as int == u as int);
    if x != 0 {
        assert((code + (tail + rest))[code.len() as int] == (x > 0));
    }
}

/// Decoding at a position where the signed code of `x` lies gives `x` back
/// and consumes exactly the code.
pub proof fn lemma_signed_code_at(s: Seq<bool>, p: int, x: i32, pot: nat)
    requires
        0 <= p,
        pot <= 24,
        x != i32::MIN,
        p + signed_code_bits(x, pot).len() <= s.len(),
        s.subrange(p, p + signed_code_bits(x, pot).len()) == signed_code_bits(x, pot),
    ensures
        signed_decode_spec(s, p, pot) == Some((x, signed_code_bits(x, pot).len())),
{
    let code = signed_code_bits(x, pot);
    let rest = s.subrange(p + code.len(), s.len() as int);
    let t = s.subrange(p, s.len() as int);
    assert(t =~= code + rest) by {
        assert forall|k: int| 0 <= k < code.len() implies t[k] == code[k] by {
            assert(s.subrange(p, p + code.len())[k] == s[p + k]);
        }
    }
    lemma_signed_code_decodes(x, pot, rest);
    lemma_signed_decode_shift(s, p, pot);
}

/// Decoding from position `p` of `s` is decoding from the start of what
/// follows `p`.
pub proof fn lemma_signed_decode_shift(s: Seq<bool>, p: int, pot: nat)
    requires
        0 <= p <= s.len(),
    ensures
        signed_decode_spec(s, p, pot) == signed_decode_spec(s.subrange(p, s.len() as int), 0, pot),
{
    lemma_unsigned_decode_shift(s, p, pot);
    let t = s.subrange(p, s.len() as int);
    match unsigned_decode_spec(s, p, pot) {
        None => {},
        Some((u, c)) => {
            if p + c + 1 <= s.len() {
                assert(t[c as int] == s[p + c]);
            }
        },
    }
}

/// Unsigned decoding from position `p` of `s` is decoding from the start of
/// what follows `p`.
pub proof fn lemma_unsigned_decode_shift(s: Seq<bool>, p: int, pot: nat)
    requires
        0 <= p <= s.len(),
    ensures
        unsigned_decode_spec(s, p, pot) == unsigned_decode_spec(s.subrange(p, s.len() as int), 0, pot),
    decreases 108 - pot,
{
    let t = s.subrange(p, s.len() as int);
    lemma_scan_zeros_shift(s, p, 0, 12);
    match scan_zeros(s, p, 0, 12) {
        None => {},
        Some((x, c)) => {
            lemma_scan_zeros(s, p, 0, 12);
            let pp = min24(pot);
            if pot < 108 && x == 12 {
                lemma_unsigned_decode_shift(s, p + c, next_decode_pot(pot));
                lemma_unsigned_decode_shift(t, c as int, next_decode_pot(pot));
                assert(t.subrange(c as int, t.len() as int) =~= s.subrange(p + c, s.len() as int));
            } else if pp != 0 && p + c + pp <= s.len() {
                assert(t.subrange(c as int, (c + pp) as int) =~= s.subrange(p + c, p + c + pp));
                lemma_bits_value_ext(s, p + c, t, c as int, pp);
            }
        },
    }
}

/// Scanning for zeros from `p` is scanning from the start of what follows.
proof fn lemma_scan_zeros_shift(s: Seq<bool>, p: int, x: nat, max: nat)
    requires
        0 <= p <= s.len(),
    ensures
        scan_zeros(s, p, x, max) == scan_zeros(s.subrange(p, s.len() as int), 0, x, max),
    decreases max - x,
{
    let t = s.subrange(p, s.len() as int);
    if x < max && p + x < s.len() {
        assert(t[x as int] == s[p + x]);
        lemma_scan_zeros_shift(s, p, x + 1, max);
    }
}

/// A code takes at least one bit, all within the stream.
pub proof fn lemma_unsigned_decode_consumes(s: Seq<bool>, p: int, pot: nat)
    requires
        p >= 0,
    ensures
        unsigned_decode_spec(s, p, pot) matches Some((v, c)) ==> 1 <= c && p + c <= s.len(),
    decreases 108 - pot,
{
    crate::bits::lemma_scan_zeros(s, p, 0, 12);
    match scan_zeros(s, p, 0, 12) {
        None => {},
        Some((x, c)) => {
            if pot < 108 && x == 12 {
                lemma_unsigned_decode_consumes(s, p + c, next_decode_pot(pot));
            }
        },
    }
}

/// A signed code takes at least one bit, all within the stream.
pub proof fn lemma_signed_decode_consumes(s: Seq<bool>, p: int, pot: nat)
    requires
        p >= 0,
    ensures
        signed_decode_spec(s, p, pot) matches Some((v, c)) ==> 1 <= c && p + c <= s.len(),
{
    lemma_unsigned_decode_consumes(s, p, pot);
}

} // verus!
