//! Little-endian integer framing, done by the `byteorder` crate.
use vstd::prelude::*;
use byteorder::ByteOrder;
use byteorder::LittleEndian;

verus! {

/// The `k` little-endian bytes of `n` (the low `k` bytes, least significant first).
pub open spec fn le_bytes(n: nat, k: nat) -> Seq<u8>
    decreases k,
{
    if k == 0 {
        Seq::empty()
    } else {
        seq![(n % 256) as u8] + le_bytes(n / 256, (k - 1) as nat)
    }
}

/// The number whose little-endian bytes are `s`.
pub open spec fn le_value(s: Seq<u8>) -> nat
    decreases s.len(),
{
    if s.len() == 0 {
        0
    } else {
        s[0] as nat + 256 * le_value(s.drop_first())
    }
}

pub proof fn lemma_le_bytes_len(n: nat, k: nat)
    ensures
        le_bytes(n, k).len() == k,
    decreases k,
{
    if k > 0 {
        lemma_le_bytes_len(n / 256, (k - 1) as nat);
    }
}

/// The powers of 256 up to the fourth.
pub proof fn lemma_pow256_values()
    ensures
        vstd::arithmetic::power::pow(256, 0) == 1,
        vstd::arithmetic::power::pow(256, 1) == 256,
        vstd::arithmetic::power::pow(256, 2) == 0x1_0000,
        vstd::arithmetic::power::pow(256, 3) == 0x100_0000,
        vstd::arithmetic::power::pow(256, 4) == 0x1_0000_0000,
{
    reveal_with_fuel(vstd::arithmetic::power::pow, 5);
}

/// Reading back the bytes of a number that fits gives the number.
pub proof fn lemma_le_roundtrip(n: nat, k: nat)
    requires
        n < vstd::arithmetic::power::pow(256, k),
    ensures
        le_value(le_bytes(n, k)) == n,
    decreases k,
{
    lemma_le_bytes_len(n, k);
    if k == 0 {
        vstd::arithmetic::power::lemma_pow0(256);
    } else {
        vstd::arithmetic::power::lemma_pow_adds(256, 1, (k - 1) as nat);
        vstd::arithmetic::power::lemma_pow1(256);
        let p = vstd::arithmetic::power::pow(256, (k - 1) as nat);
        assert(n / 256 < p) by (nonlinear_arith)
            requires
                n < 256 * p,
        ;
        lemma_le_roundtrip(n / 256, (k - 1) as nat);
        let s = le_bytes(n, k);
        assert(s.drop_first() =~= le_bytes(n / 256, (k - 1) as nat));
        vstd::arithmetic::div_mod::lemma_fundamental_div_mod(n as int, 256);
    }
}

/// The value read from bytes is below 256 to the number of bytes.
pub proof fn lemma_le_value_bound(s: Seq<u8>)
    ensures
        le_value(s) < vstd::arithmetic::power::pow(256, s.len()),
    decreases s.len(),
{
    if s.len() == 0 {
        vstd::arithmetic::power::lemma_pow0(256);
    } else {
        lemma_le_value_bound(s.drop_first());
        vstd::arithmetic::power::lemma_pow_adds(256, 1, (s.len() - 1) as nat);
        vstd::arithmetic::power::lemma_pow1(256);
        let p = vstd::arithmetic::power::pow(256, (s.len() - 1) as nat);
        assert(s[0] as nat + 256 * le_value(s.drop_first()) < 256 * p) by (nonlinear_arith)
            requires
                s[0] < 256,
                le_value(s.drop_first()) < p,
        ;
    }
}

/// Bytes made of a number's bytes read back as that number.
pub proof fn lemma_le_bytes_of_value(s: Seq<u8>)
    ensures
        le_bytes(le_value(s), s.len()) =~= s,
    decreases s.len(),
{
    if s.len() > 0 {
        lemma_le_bytes_of_value(s.drop_first());
        let v = le_value(s);
        assert(v % 256 == s[0] as nat && v / 256 == le_value(s.drop_first())) by {
            vstd::arithmetic::div_mod::lemma_fundamental_div_mod_converse(
                v as int, 256, le_value(s.drop_first()) as int, s[0] as int);
        }
        assert(le_bytes(v, s.len()) =~= seq![s[0]] + s.drop_first());
    }
}

/// `ByteOrder::write_u32` of `byteorder`'s `LittleEndian`: the four bytes of `n`,
/// least significant first.
#[verifier::external_body]
pub fn le_u32_bytes(n: u32) -> (b: [u8; 4])
    ensures
        b@ == le_bytes(n as nat, 4),
{
    let mut b = [0u8; 4];
    LittleEndian::write_u32(&mut b, n);
    b
}

/// `ByteOrder::write_u24` of `byteorder`'s `LittleEndian`: the three bytes of `n`,
/// least significant first.  It panics when `n` does not fit in 24 bits.
#[verifier::external_body]
pub fn le_u24_bytes(n: u32) -> (b: [u8; 3])
    requires
        n < 0x100_0000,
    ensures
        b@ == le_bytes(n as nat, 3),
{
    let mut b = [0u8; 3];
    LittleEndian::write_u24(&mut b, n);
    b
}

/// `ByteOrder::write_u16` of `byteorder`'s `LittleEndian`: the two bytes of `n`,
/// least significant first.
#[verifier::external_body]
pub fn le_u16_bytes(n: u16) -> (b: [u8; 2])
    ensures
        b@ == le_bytes(n as nat, 2),
{
    let mut b = [0u8; 2];
    LittleEndian::write_u16(&mut b, n);
    b
}

/// `ByteOrder::read_u32` of `byteorder`'s `LittleEndian`: the number whose
/// little-endian bytes are the first four of `buf` (it panics on fewer).
#[verifier::external_body]
pub fn le_read_u32(buf: &[u8]) -> (n: u32)
    requires
        buf@.len() >= 4,
    ensures
        n as nat == le_value(buf@.subrange(0, 4)),
{
    LittleEndian::read_u32(buf)
}

/// `ByteOrder::read_u24` of `byteorder`'s `LittleEndian`: the number whose
/// little-endian bytes are the first three of `buf` (it panics on fewer).
#[verifier::external_body]
pub fn le_read_u24(buf: &[u8]) -> (n: u32)
    requires
        buf@.len() >= 3,
    ensures
        n as nat == le_value(buf@.subrange(0, 3)),
{
    LittleEndian::read_u24(buf)
}

/// `ByteOrder::read_u16` of `byteorder`'s `LittleEndian`: the number whose
/// little-endian bytes are the first two of `buf` (it panics on fewer).
#[verifier::external_body]
pub fn le_read_u16(buf: &[u8]) -> (n: u16)
    requires
        buf@.len() >= 2,
    ensures
        n as nat == le_value(buf@.subrange(0, 2)),
{
    LittleEndian::read_u16(buf)
}

} // verus!
