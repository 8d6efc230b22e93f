//! Bit streams: 32-bit words filled from the most significant bit down, each
//! word stored as four little-endian bytes.
use vstd::prelude::*;
use vstd::arithmetic::power2::pow2;

use crate::byte_order::{le_bytes, le_read_u32, le_u32_bytes, le_value};
use crate::errors::unexpected_eof_error;

verus! {

/// Bit `j` of `v`, counted from the least significant bit.
pub open spec fn bit(v: u32, j: int) -> bool {
    ((v >> (j as u32)) & 1u32) == 1u32
}

/// The low `n` bits of `v`, most significant first.
pub open spec fn bits_of(v: u32, n: nat) -> Seq<bool> {
    Seq::new(n, |k: int| bit(v, n - 1 - k))
}

/// The 32-bit word stored in bytes `4k..4k+4`.
pub open spec fn word_at(bytes: Seq<u8>, k: int) -> u32 {
    le_value(bytes.subrange(4 * k, 4 * k + 4)) as u32
}

/// The bits of the complete words of `bytes`, in stream order.
pub open spec fn stream_bits(bytes: Seq<u8>) -> Seq<bool> {
    Seq::new(32 * (bytes.len() / 4), |i: int| bit(word_at(bytes, i / 32), 31 - i % 32))
}

/// The number written in big-endian order by the `n` bits of `s` from `p`.
pub open spec fn bits_value(s: Seq<bool>, p: int, n: nat) -> nat
    decreases n,
{
    if n == 0 {
        0
    } else {
        2 * bits_value(s, p, (n - 1) as nat) + if s[p + n - 1] {
            1nat
        } else {
            0nat
        }
    }
}

/// `n` zero bits.
pub open spec fn zeros(n: nat) -> Seq<bool> {
    Seq::new(n, |k: int| false)
}

/// Scanning from `p + x` for a set bit, with `x` zeros already seen: the number
/// of zeros counted and the number of bits consumed, or `None` when the
/// stream ends first.  At most `max` zeros are counted; a set bit is consumed.
pub open spec fn scan_zeros(s: Seq<bool>, p: int, x: nat, max: nat) -> Option<(nat, nat)>
    decreases max - x,
{
    if x >= max || p + x < 0 {
        None
    } else if p + x >= s.len() {
        None
    } else if s[p + x] {
        Some((x, x + 1))
    } else if x + 1 == max {
        Some((max, max))
    } else {
        scan_zeros(s, p, x + 1, max)
    }
}

/// What a scan for zeros counts and consumes.
pub proof fn lemma_scan_zeros(s: Seq<bool>, p: int, x: nat, max: nat)
    ensures
        scan_zeros(s, p, x, max) matches Some((z, c)) ==> {
            &&& x <= z <= max
            &&& (c == z + 1 && z < max) || (c == max && z == max)
            &&& p + c <= s.len()
            &&& p >= 0 || p + x >= 0
        },
    decreases max - x,
{
    if x < max && p + x >= 0 && p + x < s.len() && !s[p + x] && x + 1 != max {
        lemma_scan_zeros(s, p, x + 1, max);
    }
}

// ---------------------------------------------------------------------------
// Facts about single bits.

proof fn lemma_bit_shl_or(c: u32, x: u32, b: u32, j: u32)
    requires
        b < 32,
        j < 32,
        x >> b == 0,
    ensures
        j < b ==> (((c << b) | x) >> j) & 1 == (x >> j) & 1,
        j >= b ==> (((c << b) | x) >> j) & 1 == (c >> (j - b) as u32) & 1,
{
    assert(j < b ==> (((c << b) | x) >> j) & 1 == (x >> j) & 1) by (bit_vector)
        requires
            b < 32,
            j < 32,
            x >> b == 0,
    ;
    assert(j >= b ==> (((c << b) | x) >> j) & 1 == (c >> (j - b) as u32) & 1) by (bit_vector)
        requires
            b < 32,
            j < 32,
            x >> b == 0,
    ;
}

proof fn lemma_bit_shr(x: u32, m: u32, j: u32)
    requires
        m < 32,
        j + m < 32,
    ensures
        ((x >> m) >> j) & 1 == (x >> (j + m) as u32) & 1,
{
    assert(((x >> m) >> j) & 1 == (x >> (j + m) as u32) & 1) by (bit_vector)
        requires
            m < 32,
            j + m < 32,
    ;
}

proof fn lemma_bit_zero(j: u32)
    requires
        j < 32,
    ensures
        (0u32 >> j) & 1 == 0,
{
    assert((0u32 >> j) & 1 == 0) by (bit_vector);
}

/// Bits above `b` of a number below `2^b` are clear.
proof fn lemma_bit_high_clear(x: u32, b: u32, j: u32)
    requires
        b <= j < 32,
        x >> b == 0,
    ensures
        (x >> j) & 1 == 0,
{
    assert((x >> j) & 1 == 0) by (bit_vector)
        requires
            b <= j < 32,
            x >> b == 0,
    ;
}

/// `x < 2^b` as a shift.
pub proof fn lemma_lt_pow2_shr(x: u32, b: u32)
    requires
        b < 32,
        x < pow2(b as nat),
    ensures
        x >> b == 0,
{
    vstd::bits::lemma_u32_shr_is_div(x, b);
    vstd::arithmetic::power2::lemma_pow2_pos(b as nat);
    vstd::arithmetic::div_mod::lemma_basic_div(x as int, pow2(b as nat) as int);
}

// ---------------------------------------------------------------------------
// Facts about bit sequences.

/// Appending `b` bits of `x` below the `i` bits kept in `c`.
pub proof fn lemma_bits_concat(c: u32, i: nat, x: u32, b: nat)
    requires
        i + b < 32,
        x >> (b as u32) == 0,
    ensures
        bits_of((c << (b as u32)) | x, i + b) =~= bits_of(c, i) + bits_of(x, b),
{
    let v = (c << (b as u32)) | x;
    assert forall|k: int| 0 <= k < i + b implies bits_of(v, i + b)[k] == (bits_of(c, i) + bits_of(
        x,
        b,
    ))[k] by {
        let j = (i + b - 1 - k) as u32;
        lemma_bit_shl_or(c, x, b as u32, j);
        if k < i {
            assert(j - b == i - 1 - k);
        } else {
            assert(j == b - 1 - (k - i));
        }
    }
}

/// The `n` bits of `x` are the top `n - m` of them followed by the low `m`.
pub proof fn lemma_bits_split(x: u32, n: nat, m: nat)
    requires
        m <= n <= 32,
        m < 32,
    ensures
        bits_of(x, n) =~= bits_of(x >> (m as u32), (n - m) as nat) + bits_of(x, m),
{
    assert forall|k: int| 0 <= k < n implies bits_of(x, n)[k] == (bits_of(
        x >> (m as u32),
        (n - m) as nat,
    ) + bits_of(x, m))[k] by {
        if k < n - m {
            let j = (n - m - 1 - k) as u32;
            lemma_bit_shr(x, m as u32, j);
            assert(j + m == n - 1 - k);
        }
    }
}

/// The 32 bits of a word that holds the low `i` bits of `c` above the top
/// `32 - i` bits of `y`.
pub proof fn lemma_bits_word(c: u32, i: nat, y: u32)
    requires
        1 <= i < 32,
        y >> ((32 - i) as u32) == 0,
    ensures
        bits_of((c << ((32 - i) as u32)) | y, 32) =~= bits_of(c, i) + bits_of(y, (32 - i) as nat),
{
    let b = (32 - i) as u32;
    let v = (c << b) | y;
    assert forall|k: int| 0 <= k < 32 implies bits_of(v, 32)[k] == (bits_of(c, i) + bits_of(
        y,
        (32 - i) as nat,
    ))[k] by {
        let j = (31 - k) as u32;
        lemma_bit_shl_or(c, y, b, j);
    }
}

/// The bits of zero are zeros.
pub proof fn lemma_bits_of_zero(n: nat)
    requires
        n <= 32,
    ensures
        bits_of(0, n) =~= zeros(n),
{
    assert forall|k: int| 0 <= k < n implies !bits_of(0, n)[k] by {
        lemma_bit_zero((n - 1 - k) as u32);
    }
}

proof fn lemma_word_of_le_bytes(out: Seq<u8>, w: u32)
    requires
        out.len() % 4 == 0,
    ensures
        word_at(out + le_bytes(w as nat, 4), (out.len() / 4) as int) == w,
        forall|k: int|
            0 <= k < out.len() / 4 ==> #[trigger] word_at(out + le_bytes(w as nat, 4), k)
                == word_at(out, k),
{
    let s = out + le_bytes(w as nat, 4);
    crate::byte_order::lemma_le_bytes_len(w as nat, 4);
    crate::byte_order::lemma_pow256_values();
    crate::byte_order::lemma_le_roundtrip(w as nat, 4);
    let n = (out.len() / 4) as int;
    assert(s.subrange(4 * n, 4 * n + 4) =~= le_bytes(w as nat, 4));
    assert forall|k: int| 0 <= k < out.len() / 4 implies #[trigger] word_at(s, k) == word_at(
        out,
        k,
    ) by {
        assert(s.subrange(4 * k, 4 * k + 4) =~= out.subrange(4 * k, 4 * k + 4));
    }
}

/// Writing one word after whole words appends its 32 bits to the stream.
pub proof fn lemma_stream_push_word(out: Seq<u8>, w: u32)
    requires
        out.len() % 4 == 0,
    ensures
        stream_bits(out + le_bytes(w as nat, 4)) =~= stream_bits(out) + bits_of(w, 32),
{
    let s = out + le_bytes(w as nat, 4);
    crate::byte_order::lemma_le_bytes_len(w as nat, 4);
    lemma_word_of_le_bytes(out, w);
    let n = (out.len() / 4) as int;
    assert(s.len() / 4 == n + 1);
    assert forall|i: int| 0 <= i < 32 * (n + 1) implies stream_bits(s)[i] == (stream_bits(out)
        + bits_of(w, 32))[i] by {
        if i < 32 * n {
            assert(i / 32 < n);
        } else {
            assert(i / 32 == n);
            assert(i % 32 == i - 32 * n);
        }
    }
}

/// A prefix of whole words keeps the bits of those words.
pub proof fn lemma_stream_prefix(bytes: Seq<u8>, n: nat)
    requires
        4 * n <= bytes.len(),
    ensures
        stream_bits(bytes.subrange(0, 4 * n as int)) =~= stream_bits(bytes).subrange(0, 32 * n as int),
{
    let b = bytes.subrange(0, 4 * n as int);
    assert(b.len() / 4 == n);
    assert forall|i: int| 0 <= i < 32 * n implies stream_bits(b)[i] == stream_bits(bytes)[i] by {
        let k = i / 32;
        assert(k < n);
        assert(b.subrange(4 * k, 4 * k + 4) =~= bytes.subrange(4 * k, 4 * k + 4));
    }
}

/// The value of `n` bits depends on those bits only.
pub proof fn lemma_bits_value_ext(s1: Seq<bool>, p1: int, s2: Seq<bool>, p2: int, n: nat)
    requires
        0 <= p1,
        p1 + n <= s1.len(),
        0 <= p2,
        p2 + n <= s2.len(),
        s1.subrange(p1, p1 + n) == s2.subrange(p2, p2 + n),
    ensures
        bits_value(s1, p1, n) == bits_value(s2, p2, n),
    decreases n,
{
    if n > 0 {
        assert(s1.subrange(p1, p1 + n - 1) =~= s1.subrange(p1, p1 + n).subrange(0, n - 1));
        assert(s2.subrange(p2, p2 + n - 1) =~= s2.subrange(p2, p2 + n).subrange(0, n - 1));
        lemma_bits_value_ext(s1, p1, s2, p2, (n - 1) as nat);
        assert(s1[p1 + n - 1] == s1.subrange(p1, p1 + n)[n - 1]);
        assert(s2[p2 + n - 1] == s2.subrange(p2, p2 + n)[n - 1]);
    }
}

/// The value of the `n` bits of a number below `2^n` is the number.
pub proof fn lemma_bits_value_of(x: u32, n: nat)
    requires
        n <= 32,
        n < 32 ==> x >> (n as u32) == 0,
    ensures
        bits_value(bits_of(x, n), 0, n) == x,
    decreases n,
{
    if n == 0 {
        assert(x >> 0u32 == x) by (bit_vector);
    } else {
        let m = (n - 1) as nat;
        let y = x >> 1u32;
        let nn = n as u32;
        let mm = m as u32;
        assert(y >> mm == 0) by (bit_vector)
            requires
                nn <= 32,
                mm == nn - 1,
                nn < 32 ==> x >> nn == 0,
                y == x >> 1u32,
        ;
        lemma_bits_value_of(y, m);
        assert forall|k: int| 0 <= k < m implies bits_of(y, m)[k] == bits_of(x, n)[k] by {
            lemma_bit_shr(x, 1, (m - 1 - k) as u32);
        }
        assert(bits_of(y, m).subrange(0, m as int) =~= bits_of(x, n).subrange(0, m as int));
        lemma_bits_value_ext(bits_of(y, m), 0, bits_of(x, n), 0, m);
        assert(x == 2 * y + (x & 1u32) && (x & 1u32 == 1u32 || x & 1u32 == 0u32) && (x >> 0u32)
            == x) by (bit_vector)
            requires
                y == x >> 1u32,
        ;
    }
}

/// The bytes of the whole 32-bit words of `bits`, word after word, each word
/// least significant byte first.
pub open spec fn pack_words(bits: Seq<bool>) -> Seq<u8>
    decreases bits.len(),
{
    if bits.len() < 32 {
        Seq::empty()
    } else {
        le_bytes(bits_value(bits, 0, 32), 4) + pack_words(bits.subrange(32, bits.len() as int))
    }
}

/// The number of zero bits that complete `n` bits to whole words.
pub open spec fn word_padding(n: nat) -> nat {
    ((32 - n % 32) % 32) as nat
}

/// The bytes of `bits` completed with zeros to whole words.
pub open spec fn padded_words(bits: Seq<bool>) -> Seq<u8> {
    pack_words(bits + zeros(word_padding(bits.len())))
}

/// Bytes of whole words are the packed words of their bits.
pub proof fn lemma_pack_stream(bytes: Seq<u8>)
    requires
        bytes.len() % 4 == 0,
    ensures
        pack_words(stream_bits(bytes)) == bytes,
    decreases bytes.len(),
{
    let s = stream_bits(bytes);
    if bytes.len() == 0 {
        assert(s.len() == 0);
        assert(bytes =~= Seq::<u8>::empty());
    } else {
        let rest = bytes.subrange(4, bytes.len() as int);
        let head = bytes.subrange(0, 4);
        let w = word_at(bytes, 0);
        assert(s.subrange(32, s.len() as int) =~= stream_bits(rest)) by {
            assert forall|i: int| 0 <= i < s.len() - 32 implies s.subrange(32, s.len() as int)[i]
                == stream_bits(rest)[i] by {
                let m = i / 32;
                assert((32 + i) / 32 == m + 1);
                assert((32 + i) % 32 == i % 32);
                assert(bytes.subrange(4 * (m + 1), 4 * (m + 1) + 4) =~= rest.subrange(4 * m, 4 * m + 4));
            }
        }
        assert(s.subrange(0, 32) =~= bits_of(w, 32)) by {
            assert forall|j: int| 0 <= j < 32 implies s.subrange(0, 32)[j] == bits_of(w, 32)[j] by {
                lemma_stream_bit(bytes, 0, j);
            }
        }
        assert(bits_of(w, 32).subrange(0, 32) =~= bits_of(w, 32));
        lemma_bits_value_ext(s, 0, bits_of(w, 32), 0, 32);
        lemma_bits_value_of(w, 32);
        crate::byte_order::lemma_le_value_bound(head);
        crate::byte_order::lemma_pow256_values();
        crate::byte_order::lemma_le_bytes_of_value(head);
        assert(bytes.subrange(0, 4) == head);
        lemma_pack_stream(rest);
        assert(bytes =~= head + rest);
    }
}

/// Bytes whose stream is `bits` completed to whole words are the padded words
/// of `bits`.
pub proof fn lemma_padded_words(bytes: Seq<u8>, bits: Seq<bool>)
    requires
        bytes.len() % 4 == 0,
        stream_bits(bytes) == bits + zeros(word_padding(bits.len())),
    ensures
        bytes == padded_words(bits),
        bytes.len() == 4 * ((bits.len() + 31) / 32),
{
    lemma_pack_stream(bytes);
}

/// Writing the value of `n` bits back as bits gives them back.
pub proof fn lemma_bits_of_value(s: Seq<bool>, p: int, n: nat)
    requires
        n <= 32,
        0 <= p,
        p + n <= s.len(),
    ensures
        bits_of(bits_value(s, p, n) as u32, n) == s.subrange(p, p + n),
    decreases n,
{
    if n == 0 {
        assert(bits_of(bits_value(s, p, n) as u32, n) =~= s.subrange(p, p + n));
    } else {
        let m = (n - 1) as nat;
        lemma_bits_of_value(s, p, m);
        lemma_bits_value_bound(s, p, m);
        lemma_bits_value_bound(s, p, n);
        vstd::arithmetic::power2::lemma_pow2_strictly_increases(m, 32);
        vstd::arithmetic::power2::lemma2_to64();
        let v = bits_value(s, p, m) as u32;
        let b: u32 = if s[p + m] { 1 } else { 0 };
        let x = bits_value(s, p, n) as u32;
        assert(v < 0x8000_0000) by {
            if m < 31 {
                vstd::arithmetic::power2::lemma_pow2_strictly_increases(m, 31);
            }
        }
        assert(x == 2 * v + b);
        assert forall|k: int| 0 <= k < n implies bits_of(x, n)[k] == s.subrange(p, p + n)[k] by {
            if k == n - 1 {
                assert(((2 * v + b) as u32 >> 0u32) & 1u32 == b) by (bit_vector)
                    requires
                        v < 0x8000_0000,
                        b <= 1,
                ;
            } else {
                let j = (n - 2 - k) as u32;
                assert(((2 * v + b) as u32 >> (j + 1) as u32) & 1u32 == (v >> j) & 1u32) by (bit_vector)
                    requires
                        v < 0x8000_0000,
                        b <= 1,
                        j < 31,
                ;
                assert(bits_of(v, m)[k] == s.subrange(p, p + m)[k]);
            }
        }
        assert(bits_of(x, n) =~= s.subrange(p, p + n));
    }
}

/// Packing whole words and reading them back as a stream gives the bits.
pub proof fn lemma_stream_of_pack(b: Seq<bool>)
    requires
        b.len() % 32 == 0,
    ensures
        pack_words(b).len() % 4 == 0,
        stream_bits(pack_words(b)) == b,
    decreases b.len(),
{
    if b.len() == 0 {
        assert(stream_bits(pack_words(b)) =~= b);
    } else {
        let rest = b.subrange(32, b.len() as int);
        lemma_stream_of_pack(rest);
        let v = bits_value(b, 0, 32);
        lemma_bits_value_bound(b, 0, 32);
        vstd::arithmetic::power2::lemma2_to64();
        let w = v as u32;
        crate::byte_order::lemma_le_bytes_len(v, 4);
        let head = le_bytes(v, 4);
        assert(pack_words(b) == head + pack_words(rest));
        lemma_stream_push_word(Seq::<u8>::empty(), w);
        assert(Seq::<u8>::empty() + head =~= head);
        assert(stream_bits(Seq::<u8>::empty()) =~= Seq::<bool>::empty());
        lemma_bits_of_value(b, 0, 32);
        assert(stream_bits(head) =~= b.subrange(0, 32));
        lemma_stream_concat(head, pack_words(rest));
        assert(b =~= b.subrange(0, 32) + rest);
    }
}

/// The stream of two whole-word byte sequences one after the other.
pub proof fn lemma_stream_concat(a: Seq<u8>, c: Seq<u8>)
    requires
        a.len() % 4 == 0,
        c.len() % 4 == 0,
    ensures
        stream_bits(a + c) == stream_bits(a) + stream_bits(c),
{
    let s = a + c;
    let na = (a.len() / 4) as int;
    assert forall|i: int| 0 <= i < stream_bits(s).len() implies stream_bits(s)[i] == (stream_bits(a)
        + stream_bits(c))[i] by {
        let k = i / 32;
        let j = i % 32;
        if k < na {
            assert(s.subrange(4 * k, 4 * k + 4) =~= a.subrange(4 * k, 4 * k + 4));
        } else {
            assert(s.subrange(4 * k, 4 * k + 4) =~= c.subrange(4 * (k - na), 4 * (k - na) + 4));
            assert((i - 32 * na) / 32 == k - na);
            assert((i - 32 * na) % 32 == j);
        }
    }
    assert(stream_bits(s) =~= stream_bits(a) + stream_bits(c));
}

/// The stream of the padded words of `bits` starts with `bits`.
pub proof fn lemma_stream_of_padded(bits: Seq<bool>)
    ensures
        padded_words(bits).len() % 4 == 0,
        stream_bits(padded_words(bits)) == bits + zeros(word_padding(bits.len())),
{
    let full = bits + zeros(word_padding(bits.len()));
    assert(full.len() % 32 == 0);
    lemma_stream_of_pack(full);
}

/// The value of `n` bits is below `2^n`.
pub proof fn lemma_bits_value_bound(s: Seq<bool>, p: int, n: nat)
    ensures
        bits_value(s, p, n) < pow2(n),
    decreases n,
{
    if n == 0 {
        vstd::arithmetic::power2::lemma2_to64();
    } else {
        lemma_bits_value_bound(s, p, (n - 1) as nat);
        vstd::arithmetic::power2::lemma_pow2_unfold(n);
    }
}

/// The value of the bits of a concatenation, split at a boundary.
pub proof fn lemma_bits_value_append(s: Seq<bool>, p: int, a: nat, b: nat)
    ensures
        bits_value(s, p, a + b) == bits_value(s, p, a) * pow2(b) + bits_value(s, p + a, b),
    decreases b,
{
    if b == 0 {
        vstd::arithmetic::power2::lemma2_to64();
    } else {
        lemma_bits_value_append(s, p, a, (b - 1) as nat);
        vstd::arithmetic::power2::lemma_pow2_unfold(b);
        assert(bits_value(s, p, a + b) == 2 * bits_value(s, p, (a + b - 1) as nat) + (if s[p + a
            + b - 1] {
            1nat
        } else {
            0nat
        }));
        assert(bits_value(s, p + a, b) == 2 * bits_value(s, p + a, (b - 1) as nat) + (if s[p + a
            + b - 1] {
            1nat
        } else {
            0nat
        }));
        vstd::arithmetic::mul::lemma_mul_is_associative(
            bits_value(s, p, a) as int,
            pow2((b - 1) as nat) as int,
            2,
        );
    }
}

/// The top `n` bits of a word, as a number.
pub proof fn lemma_shr_bits_value(x: u32, n: nat)
    requires
        1 <= n <= 32,
    ensures
        x >> ((32 - n) as u32) == bits_value(bits_of(x, 32), 0, n),
{
    let nn = n as u32;
    let y = x >> ((32 - n) as u32);
    assert(nn < 32 ==> y >> nn == 0) by (bit_vector)
        requires
            1 <= nn <= 32,
            y == x >> (32 - nn) as u32,
    ;
    lemma_bits_value_of(y, n);
    assert forall|k: int| 0 <= k < n implies bits_of(y, n)[k] == bits_of(x, 32)[k] by {
        lemma_bit_shr(x, (32 - n) as u32, (n - 1 - k) as u32);
    }
    assert(bits_of(y, n).subrange(0, n as int) =~= bits_of(x, 32).subrange(0, n as int));
    lemma_bits_value_ext(bits_of(y, n), 0, bits_of(x, 32), 0, n);
}

/// The bits of a word shifted left by `i`.
pub proof fn lemma_bits_shl(c: u32, i: u32)
    requires
        i < 32,
    ensures
        forall|k: int| 0 <= k < 32 - i ==> #[trigger] bits_of(c << i, 32)[k] == bits_of(c, 32)[k + i],
{
    assert forall|k: int| 0 <= k < 32 - i implies #[trigger] bits_of(c << i, 32)[k] == bits_of(
        c,
        32,
    )[k + i] by {
        let j = (31 - k) as u32;
        let ii = i;
        assert(0u32 >> ii == 0) by (bit_vector);
        lemma_bit_shl_or(c, 0, ii, j);
        assert((c << ii) | 0u32 == c << ii) by (bit_vector);
    }
}

/// The bits of the word that joins the tail of `c` from bit `i` with the head
/// of `n`.
pub proof fn lemma_bits_join(c: u32, n: u32, i: u32)
    requires
        1 <= i < 32,
    ensures
        forall|k: int|
            0 <= k < 32 - i ==> #[trigger] bits_of((c << i) | (n >> (32 - i) as u32), 32)[k]
                == bits_of(c, 32)[k + i],
        forall|k: int|
            32 - i <= k < 32 ==> #[trigger] bits_of((c << i) | (n >> (32 - i) as u32), 32)[k]
                == bits_of(n, 32)[k - (32 - i)],
{
    let y = n >> (32 - i) as u32;
    let ii = i;
    assert(y >> ii == 0) by (bit_vector)
        requires
            1 <= ii < 32,
            y == n >> (32 - ii) as u32,
    ;
    let v = (c << i) | y;
    assert forall|k: int| 0 <= k < 32 - i implies #[trigger] bits_of(v, 32)[k] == bits_of(c, 32)[k
        + i] by {
        lemma_bit_shl_or(c, y, i, (31 - k) as u32);
    }
    assert forall|k: int| 32 - i <= k < 32 implies #[trigger] bits_of(v, 32)[k] == bits_of(n, 32)[k
        - (32 - i)] by {
        lemma_bit_shl_or(c, y, i, (31 - k) as u32);
        lemma_bit_shr(n, (32 - i) as u32, (31 - k) as u32);
    }
}

/// Whether bit `31 - n` of `b` is set, read as the top bit of `b << n` or as
/// the low bit of `b >> (31 - n)`.
proof fn lemma_top_bit(b: u32, n: u32)
    requires
        n < 32,
    ensures
        (((b << n) & (1u32 << 31u32)) != 0) == (((b >> (31 - n) as u32) & 1u32) == 1u32),
        ((b & 1u32) != 0) == (((b >> 0u32) & 1u32) == 1u32),
{
    assert((((b << n) & (1u32 << 31u32)) != 0) == (((b >> (31 - n) as u32) & 1u32) == 1u32))
        by (bit_vector)
        requires
            n < 32,
    ;
    assert(((b & 1u32) != 0) == (((b >> 0u32) & 1u32) == 1u32)) by (bit_vector);
}

/// The bits of the stream at word `k`, position `j`.
proof fn lemma_stream_bit(bytes: Seq<u8>, k: int, j: int)
    requires
        0 <= k < bytes.len() / 4,
        0 <= j < 32,
    ensures
        stream_bits(bytes)[32 * k + j] == bits_of(word_at(bytes, k), 32)[j],
{
    assert((32 * k + j) / 32 == k);
    assert((32 * k + j) % 32 == j);
}

// ---------------------------------------------------------------------------
// Writing.

/// A sink of bits.
pub trait BitsWriter {
    spec fn writer_wf(&self) -> bool;

    /// All the bits written so far, in order.
    spec fn written(&self) -> Seq<bool>;

    /// Appends the low `bits` bits of `x`, most significant first.
    fn put_bits(&mut self, x: u32, bits: u32) -> (r: Result<(), std::io::Error>)
        requires
            old(self).writer_wf(),
            bits <= 32,
            bits < 32 ==> x >> bits == 0,
        ensures
            final(self).writer_wf(),
            r is Ok,
            final(self).written() == old(self).written() + bits_of(x, bits as nat),
    ;

    /// Pads the bits written with zeros up to a whole word.
    fn flush_write_word(&mut self) -> (r: Result<(), std::io::Error>)
        requires
            old(self).writer_wf(),
        ensures
            final(self).writer_wf(),
            r is Ok,
            final(self).written() == old(self).written() + zeros(
                ((32 - old(self).written().len() % 32) % 32) as nat,
            ),
            final(self).written().len() % 32 == 0,
    ;
}

/// A source of bits.
pub trait BitsReader {
    spec fn reader_wf(&self) -> bool;

    /// All the bits that can be read.
    spec fn data(&self) -> Seq<bool>;

    /// The number of bits read so far.
    spec fn position(&self) -> int;

    /// Reads the next `bits` bits as a big-endian number; fails when fewer are
    /// left.
    fn get_bits(&mut self, bits: u32) -> (r: Result<u32, std::io::Error>)
        requires
            old(self).reader_wf(),
            1 <= bits <= 32,
        ensures
            r is Ok <==> old(self).position() + bits <= old(self).data().len(),
            r is Ok ==> {
                &&& final(self).reader_wf()
                &&& final(self).data() == old(self).data()
                &&& final(self).position() == old(self).position() + bits
                &&& r->Ok_0 == bits_value(old(self).data(), old(self).position(), bits as nat)
            },
    ;

    /// Counts zero bits up to the next set bit, which is consumed too, or up to
    /// `max_zeros` zeros; fails when the bits run out first.
    /// Counts zero bits up to the next set bit, which is consumed too, or up to
    /// `max_zeros` zeros; fails when the bits run out first.
    fn get_zeros(&mut self, max_zeros: u32) -> (r: Result<u32, std::io::Error>)
        requires
            old(self).reader_wf(),
            max_zeros >= 1,
        ensures
            match scan_zeros(old(self).data(), old(self).position(), 0, max_zeros as nat) {
                None => r is Err,
                Some((z, c)) => {
                    &&& r == Ok::<u32, std::io::Error>(z as u32)
                    &&& final(self).reader_wf()
                    &&& final(self).data() == old(self).data()
                    &&& final(self).position() == old(self).position() + c
                },
            },
    ;

    /// Skips the rest of the current word.
    fn flush_read_word(&mut self)
        requires
            old(self).reader_wf(),
        ensures
            final(self).reader_wf(),
            final(self).data() == old(self).data(),
            final(self).position() == if old(self).position() % 32 == 0 {
                old(self).position()
            } else {
                old(self).position() - old(self).position() % 32 + 32
            },
    ;
}

/// Writes bits into a growing byte vector, a 32-bit word at a time.
pub struct BitsIOWriter {
    write_stream: Vec<u8>,
    write_cache: u32,
    index_bits: u32,
}

impl BitsIOWriter {
    pub fn new() -> (w: BitsIOWriter)
        ensures
            w.writer_wf(),
            w.written() == Seq::<bool>::empty(),
            w.bytes() == Seq::<u8>::empty(),
    {
        let w = BitsIOWriter { write_stream: Vec::new(), write_cache: 0, index_bits: 0 };
        assert(stream_bits(w.write_stream@) =~= Seq::<bool>::empty());
        assert(w.written() =~= Seq::<bool>::empty());
        w
    }

    /// The bytes of the complete words written so far.
    pub closed spec fn bytes(&self) -> Seq<u8> {
        self.write_stream@
    }

    pub proof fn lemma_bytes_hold_words(&self)
        requires
            self.writer_wf(),
        ensures
            self.bytes().len() % 4 == 0,
            self.written().len() % 32 == 0 ==> stream_bits(self.bytes()) == self.written(),
            self.written().len() == 32 * (self.bytes().len() / 4) + self.written().len() % 32,
    {
        assert(self.written().len() % 32 == 0 ==> self.index_bits == 0);
        assert(self.written().len() % 32 == 0 ==> bits_of(self.write_cache, 0) =~= Seq::<bool>::empty());
    }

    /// The bytes of the complete words written so far.
    pub fn into_bytes(self) -> (r: Vec<u8>)
        ensures
            r@ == self.bytes(),
    {
        self.write_stream
    }

    /// Appends the four bytes of a complete word.
    fn push_word(&mut self, word: u32)
        requires
            old(self).write_stream@.len() % 4 == 0,
        ensures
            final(self).write_stream@ == old(self).write_stream@ + le_bytes(word as nat, 4),
            final(self).write_stream@.len() == old(self).write_stream@.len() + 4,
            final(self).write_cache == old(self).write_cache,
            final(self).index_bits == old(self).index_bits,
    {
        let b = le_u32_bytes(word);
        proof {
            crate::byte_order::lemma_le_bytes_len(word as nat, 4);
        }
        self.write_stream.push(b[0]);
        self.write_stream.push(b[1]);
        self.write_stream.push(b[2]);
        self.write_stream.push(b[3]);
        assert(self.write_stream@ =~= old(self).write_stream@ + b@);
    }
}

impl BitsWriter for BitsIOWriter {
    closed spec fn writer_wf(&self) -> bool {
        &&& self.index_bits < 32
        &&& self.write_stream@.len() % 4 == 0
    }

    closed spec fn written(&self) -> Seq<bool> {
        stream_bits(self.write_stream@) + bits_of(self.write_cache, self.index_bits as nat)
    }

    fn put_bits(&mut self, x: u32, bits: u32) -> (r: Result<(), std::io::Error>) {
        let c = self.write_cache;
        let i = self.index_bits;
        let ghost out = self.write_stream@;
        let mut new_bits = self.index_bits + bits;
        if new_bits < 32 {
            self.write_cache = (self.write_cache << bits) | x;
            proof {
                lemma_bits_concat(c, i as nat, x, bits as nat);
            }
        } else {
            new_bits = new_bits - 32;
            let word = if self.index_bits == 0 {
                x
            } else {
                (self.write_cache << (bits - new_bits)) | (x >> new_bits)
            };
            self.push_word(word);
            self.write_cache = x;
            proof {
                lemma_stream_push_word(out, word);
                lemma_bits_split(x, bits as nat, new_bits as nat);
                if i == 0 {
                    assert(bits == 32 && new_bits == 0);
                    assert(x >> 0u32 == x) by (bit_vector);
                    assert(bits_of(c, 0) =~= Seq::<bool>::empty());
                    assert(bits_of(x, 0) =~= Seq::<bool>::empty());
                } else {
                    let y = x >> new_bits;
                    assert(y >> (32 - i) as u32 == 0) by (bit_vector)
                        requires
                            1 <= i < 32,
                            bits <= 32,
                            new_bits == i + bits - 32,
                            bits < 32 ==> x >> bits == 0,
                            y == x >> new_bits,
                    ;
                    assert(bits - new_bits == 32 - i);
                    lemma_bits_word(c, i as nat, y);
                }
            }
        }
        self.index_bits = new_bits;
        proof {
            assert(self.written() =~= old(self).written() + bits_of(x, bits as nat));
        }
        Ok(())
    }

    fn flush_write_word(&mut self) -> (r: Result<(), std::io::Error>) {
        let index_bits = self.index_bits;
        let pad = (32 - index_bits) % 32;
        proof {
            assert(old(self).written().len() % 32 == index_bits) by {
                assert(old(self).written().len() == 32 * (old(self).write_stream@.len() / 4)
                    + index_bits);
            }
            lemma_bits_of_zero(pad as nat);
            assert(pad < 32 ==> 0u32 >> pad == 0) by (bit_vector);
        }
        let r = self.put_bits(0, pad);
        proof {
            assert(self.written().len() == old(self).written().len() + pad);
        }
        r
    }
}

/// Reads bits from a byte slice, a 32-bit word at a time.
pub struct BitsIOReader<'a> {
    read_stream: &'a [u8],
    consumed: usize,
    read_cache: u32,
    index_bits: u32,
    cache_filled: bool,
}

impl<'a> BitsIOReader<'a> {
    pub fn new(stream: &'a [u8]) -> (r: BitsIOReader<'a>)
        ensures
            r.reader_wf(),
            r.data() == stream_bits(stream@),
            r.position() == 0,
            r.source() == stream@,
    {
        BitsIOReader {
            read_cache: 0xffff_ffff,
            read_stream: stream,
            consumed: 0,
            index_bits: 0,
            cache_filled: false,
        }
    }

    /// The bytes that the reader reads from.
    pub closed spec fn source(&self) -> Seq<u8> {
        self.read_stream@
    }

    pub proof fn lemma_source_bits(&self)
        ensures
            self.data() == stream_bits(self.source()),
    {
    }

    /// The number of bytes taken from the slice so far: the words that were
    /// started, four bytes each.
    pub fn bytes_consumed(&self) -> (r: usize)
        requires
            self.reader_wf(),
        ensures
            r as int == 4 * ((self.position() + 31) / 32),
            r <= self.source().len(),
    {
        self.consumed
    }

    fn next_u32(&mut self) -> (r: Result<u32, std::io::Error>)
        requires
            old(self).consumed % 4 == 0,
            old(self).consumed <= old(self).read_stream@.len(),
        ensures
            final(self).read_stream == old(self).read_stream,
            final(self).index_bits == old(self).index_bits,
            final(self).read_cache == old(self).read_cache,
            r is Ok <==> old(self).consumed + 4 <= old(self).read_stream@.len(),
            r is Err ==> final(self).consumed == old(self).consumed,
            r is Ok ==> {
                &&& final(self).consumed == old(self).consumed + 4
                &&& final(self).cache_filled
                &&& r->Ok_0 == word_at(old(self).read_stream@, (old(self).consumed / 4) as int)
            },
    {
        if self.read_stream.len() - self.consumed >= 4 {
            let (_, rest) = self.read_stream.split_at(self.consumed);
            let n = le_read_u32(rest);
            proof {
                assert(rest@.subrange(0, 4) =~= self.read_stream@.subrange(
                    4 * (self.consumed / 4),
                    4 * (self.consumed / 4) + 4,
                ));
            }
            self.consumed = self.consumed + 4;
            self.cache_filled = true;
            Ok(n)
        } else {
            self.cache_filled = false;
            Err(unexpected_eof_error())
        }
    }
}

impl<'a> BitsReader for BitsIOReader<'a> {
    closed spec fn reader_wf(&self) -> bool {
        &&& self.consumed % 4 == 0
        &&& self.consumed <= self.read_stream@.len()
        &&& self.index_bits < 32
        &&& self.cache_filled ==> {
            &&& self.consumed >= 4
            &&& self.index_bits >= 1
            &&& self.read_cache == word_at(self.read_stream@, self.consumed / 4 - 1)
        }
        &&& !self.cache_filled ==> self.index_bits == 0
    }

    closed spec fn data(&self) -> Seq<bool> {
        stream_bits(self.read_stream@)
    }

    closed spec fn position(&self) -> int {
        if self.cache_filled {
            32 * (self.consumed / 4 - 1) + self.index_bits
        } else {
            32 * (self.consumed / 4)
        }
    }

    fn get_bits(&mut self, bits: u32) -> (r: Result<u32, std::io::Error>) {
        let ghost d = self.data();
        let ghost p = self.position();
        assert(d.len() == 32 * (self.read_stream@.len() / 4));
        let mut new_bits = self.index_bits + bits;
        if !self.cache_filled {
            match self.next_u32() {
                Ok(v) => {
                    self.read_cache = v;
                },
                Err(e) => {
                    assert(self.consumed / 4 == self.read_stream@.len() / 4);
                    return Err(e);
                },
            }
        }
        let ghost k = (self.consumed / 4 - 1) as int;
        let w = self.read_cache;
        let idx = self.index_bits;
        assert(p == 32 * k + idx);
        assert(self.consumed / 4 <= self.read_stream@.len() / 4);
        let mut x = self.read_cache << self.index_bits;
        proof {
            lemma_bits_shl(w, idx);
        }
        if new_bits >= 32 {
            if new_bits != 32 {
                let prev_index_bits = self.index_bits;
                match self.next_u32() {
                    Ok(v) => {
                        self.read_cache = v;
                    },
                    Err(e) => {
                        assert(self.consumed / 4 == self.read_stream@.len() / 4);
                        return Err(e);
                    },
                }
                assert(self.consumed / 4 <= self.read_stream@.len() / 4);
                x = x | (self.read_cache >> (32 - prev_index_bits));
                proof {
                    let n = self.read_cache;
                    lemma_bits_join(w, n, idx);
                    assert forall|j: int| 0 <= j < bits implies #[trigger] d.subrange(
                        p,
                        p + bits,
                    )[j] == bits_of(x, 32).subrange(0, bits as int)[j] by {
                        if j < 32 - idx {
                            lemma_stream_bit(self.read_stream@, k, idx + j);
                        } else {
                            lemma_stream_bit(self.read_stream@, k + 1, j - (32 - idx));
                        }
                    }
                }
            } else {
                self.cache_filled = false;
                proof {
                    assert forall|j: int| 0 <= j < bits implies #[trigger] d.subrange(
                        p,
                        p + bits,
                    )[j] == bits_of(x, 32).subrange(0, bits as int)[j] by {
                        lemma_stream_bit(self.read_stream@, k, idx + j);
                    }
                }
            }
            new_bits = new_bits - 32;
        } else {
            proof {
                assert forall|j: int| 0 <= j < bits implies #[trigger] d.subrange(p, p + bits)[j]
                    == bits_of(x, 32).subrange(0, bits as int)[j] by {
                    lemma_stream_bit(self.read_stream@, k, idx + j);
                }
            }
        }
        self.index_bits = new_bits;
        proof {
            assert(d.subrange(p, p + bits) =~= bits_of(x, 32).subrange(0, bits as int));
            lemma_bits_value_ext(d, p, bits_of(x, 32), 0, bits as nat);
            lemma_shr_bits_value(x, bits as nat);
        }
        Ok(x >> (32 - bits))
    }

    fn get_zeros(&mut self, max_zeros: u32) -> (r: Result<u32, std::io::Error>) {
        let ghost d = self.data();
        let ghost p0 = self.position();
        assert(d.len() == 32 * (self.read_stream@.len() / 4));
        let mut new_bits = self.index_bits;
        if !self.cache_filled {
            match self.next_u32() {
                Ok(v) => {
                    self.read_cache = v;
                },
                Err(e) => {
                    assert(self.consumed / 4 == self.read_stream@.len() / 4);
                    assert(scan_zeros(d, p0, 0, max_zeros as nat) is None);
                    return Err(e);
                },
            }
        }
        let mut b = self.read_cache;
        let mut x: u32 = 0;
        loop
            invariant
                self.read_stream@ == old(self).read_stream@,
                d == self.data(),
                d == old(self).data(),
                p0 == old(self).position(),
                d.len() == 32 * (self.read_stream@.len() / 4),
                self.consumed % 4 == 0,
                4 <= self.consumed <= self.read_stream@.len(),
                self.cache_filled,
                b == self.read_cache,
                b == word_at(self.read_stream@, self.consumed / 4 - 1),
                new_bits < 32,
                p0 + x == 32 * (self.consumed / 4 - 1) + new_bits,
                x < max_zeros,
                scan_zeros(d, p0, 0, max_zeros as nat) == scan_zeros(d, p0, x as nat, max_zeros as nat),
            decreases max_zeros - x,
        {
            let ghost k = (self.consumed / 4 - 1) as int;
            let ghost x0 = x;
            proof {
                assert(self.consumed / 4 <= self.read_stream@.len() / 4);
                lemma_stream_bit(self.read_stream@, k, new_bits as int);
                lemma_top_bit(b, new_bits);
                assert(p0 + x0 < d.len());
            }
            if new_bits == 31 {
                let lsb_set = (b & 1u32) != 0;
                assert(lsb_set == d[p0 + x0]);
                if !lsb_set {
                    x = x + 1;
                }
                if lsb_set || x == max_zeros {
                    self.index_bits = 0;
                    self.cache_filled = false;
                    assert(scan_zeros(d, p0, x0 as nat, max_zeros as nat) == Some(
                        (x as nat, (x0 + 1) as nat),
                    ));
                    assert(self.position() == p0 + x0 + 1);
                    return Ok(x);
                }
                assert(scan_zeros(d, p0, x0 as nat, max_zeros as nat) == scan_zeros(d, p0, x as nat, max_zeros as nat));
                match self.next_u32() {
                    Ok(v) => {
                        self.read_cache = v;
                    },
                    Err(e) => {
                        assert(self.consumed / 4 == self.read_stream@.len() / 4);
                        assert(scan_zeros(d, p0, x as nat, max_zeros as nat) is None);
                        return Err(e);
                    },
                }
                b = self.read_cache;
                new_bits = 0;
                continue ;
            }
            let msb_set = ((b << new_bits) & (1u32 << 31u32)) != 0;
            assert(msb_set == d[p0 + x0]);
            if !msb_set {
                x = x + 1;
            }
            if msb_set || x == max_zeros {
                self.index_bits = new_bits + 1;
                assert(scan_zeros(d, p0, x0 as nat, max_zeros as nat) == Some(
                    (x as nat, (x0 + 1) as nat),
                ));
                assert(self.position() == p0 + x0 + 1);
                return Ok(x);
            }
            assert(scan_zeros(d, p0, x0 as nat, max_zeros as nat) == scan_zeros(d, p0, x as nat, max_zeros as nat));
            new_bits = new_bits + 1;
        }
    }

    fn flush_read_word(&mut self) {
        self.cache_filled = false;
        self.index_bits = 0;
    }
}

} // verus!
