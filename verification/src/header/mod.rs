//! The GFWX image header: its fields, its 32-byte encoding and the sizes it implies.
use vstd::prelude::*;
use vstd::arithmetic::power2::pow2;

use crate::byte_order::{
    lemma_le_bytes_len, lemma_le_roundtrip, lemma_pow256_values, le_bytes, le_read_u16, le_read_u24, le_read_u32, le_u16_bytes, le_u24_bytes, le_u32_bytes,
    le_value,
};
use crate::errors::{unexpected_eof_error, HeaderDecodeErr};

pub mod builder;

verus! {

/// The error that decoding or building a header reports.
pub type HeaderErr = HeaderDecodeErr;

pub const QUALITY_MAX: u16 = 1024;

pub const BLOCK_DEFAULT: u8 = 7;

pub const BLOCK_MAX: u8 = 30;

/// "GFWX" read as a little-endian 32-bit number.
pub const MAGIC: u32 = 0x5857_4647;

/// Number of bytes of an encoded header.
pub const HEADER_SIZE: usize = 32;

#[derive(Clone, Copy, Debug, PartialEq, Eq, Structural)]
pub enum Filter {
    Linear,
    Cubic,
}

#[derive(Clone, Copy, Debug, PartialEq, Eq, Structural)]
pub enum Quantization {
    Scalar,
}

#[derive(Clone, Copy, Debug, PartialEq, Eq, Structural)]
pub enum Encoder {
    Turbo,
    Fast,
    Contextual,
}

#[derive(Clone, Copy, Debug, PartialEq, Eq, Structural)]
pub enum Intent {
    Generic,
    RGB,
    RGBA,
    BGR,
    BGRA,
    YUV444,
}

pub open spec fn filter_code(f: Filter) -> u8 {
    match f {
        Filter::Linear => 0,
        Filter::Cubic => 1,
    }
}

pub open spec fn filter_of_code(v: u8) -> Option<Filter> {
    if v == 0 {
        Some(Filter::Linear)
    } else if v == 1 {
        Some(Filter::Cubic)
    } else {
        None
    }
}

pub open spec fn quantization_code(q: Quantization) -> u8 {
    0
}

pub open spec fn quantization_of_code(v: u8) -> Option<Quantization> {
    if v == 0 {
        Some(Quantization::Scalar)
    } else {
        None
    }
}

pub open spec fn encoder_code(e: Encoder) -> u8 {
    match e {
        Encoder::Turbo => 0,
        Encoder::Fast => 1,
        Encoder::Contextual => 2,
    }
}

pub open spec fn encoder_of_code(v: u8) -> Option<Encoder> {
    if v == 0 {
        Some(Encoder::Turbo)
    } else if v == 1 {
        Some(Encoder::Fast)
    } else if v == 2 {
        Some(Encoder::Contextual)
    } else {
        None
    }
}

pub open spec fn intent_code(i: Intent) -> u8 {
    match i {
        Intent::Generic => 0,
        Intent::RGB => 7,
        Intent::RGBA => 8,
        Intent::BGR => 10,
        Intent::BGRA => 11,
        Intent::YUV444 => 12,
    }
}

pub open spec fn intent_of_code(v: u8) -> Option<Intent> {
    if v == 0 {
        Some(Intent::Generic)
    } else if v == 7 {
        Some(Intent::RGB)
    } else if v == 8 {
        Some(Intent::RGBA)
    } else if v == 10 {
        Some(Intent::BGR)
    } else if v == 11 {
        Some(Intent::BGRA)
    } else if v == 12 {
        Some(Intent::YUV444)
    } else {
        None
    }
}

impl Filter {
    pub fn to_u8(&self) -> (r: u8)
        ensures
            r == filter_code(*self),
    {
        match self {
            Filter::Linear => 0,
            Filter::Cubic => 1,
        }
    }

    pub fn from_u8(v: u8) -> (r: Option<Filter>)
        ensures
            r == filter_of_code(v),
    {
        if v == 0 {
            Some(Filter::Linear)
        } else if v == 1 {
            Some(Filter::Cubic)
        } else {
            None
        }
    }
}

impl Quantization {
    pub fn to_u8(&self) -> (r: u8)
        ensures
            r == quantization_code(*self),
    {
        0
    }

    pub fn from_u8(v: u8) -> (r: Option<Quantization>)
        ensures
            r == quantization_of_code(v),
    {
        if v == 0 {
            Some(Quantization::Scalar)
        } else {
            None
        }
    }
}

impl Encoder {
    pub fn to_u8(&self) -> (r: u8)
        ensures
            r == encoder_code(*self),
    {
        match self {
            Encoder::Turbo => 0,
            Encoder::Fast => 1,
            Encoder::Contextual => 2,
        }
    }

    pub fn from_u8(v: u8) -> (r: Option<Encoder>)
        ensures
            r == encoder_of_code(v),
    {
        if v == 0 {
            Some(Encoder::Turbo)
        } else if v == 1 {
            Some(Encoder::Fast)
        } else if v == 2 {
            Some(Encoder::Contextual)
        } else {
            None
        }
    }
}

impl Intent {
    pub fn to_u8(&self) -> (r: u8)
        ensures
            r == intent_code(*self),
    {
        match self {
            Intent::Generic => 0,
            Intent::RGB => 7,
            Intent::RGBA => 8,
            Intent::BGR => 10,
            Intent::BGRA => 11,
            Intent::YUV444 => 12,
        }
    }

    pub fn from_u8(v: u8) -> (r: Option<Intent>)
        ensures
            r == intent_of_code(v),
    {
        if v == 0 {
            Some(Intent::Generic)
        } else if v == 7 {
            Some(Intent::RGB)
        } else if v == 8 {
            Some(Intent::RGBA)
        } else if v == 10 {
            Some(Intent::BGR)
        } else if v == 11 {
            Some(Intent::BGRA)
        } else if v == 12 {
            Some(Intent::YUV444)
        } else {
            None
        }
    }
}

#[derive(Clone, Copy, Debug, PartialEq, Eq, Structural)]
pub struct Header {
    pub version: u32,
    pub width: u32,
    pub height: u32,
    pub layers: u16,
    pub channels: u16,
    pub bit_depth: u8,
    pub is_signed: bool,
    pub quality: u16,
    pub chroma_scale: u8,
    pub block_size: u8,
    pub filter: Filter,
    pub quantization: Quantization,
    pub encoder: Encoder,
    pub intent: Intent,
    pub metadata_size: u32,
    pub channel_size: usize,
    pub image_size: usize,
}

/// The packed 24-bit field of an encoded header: block size, chroma scale,
/// quality and signedness.
pub open spec fn packed_field(h: Header) -> u32 {
    ((h.block_size - 2) as u32) | (((h.chroma_scale - 1) as u32) << 5u32) | (((h.quality
        - 1) as u32) << 13u32) | ((if h.is_signed {
        1u32
    } else {
        0u32
    }) << 23u32)
}

/// The 32 bytes that encode a header.
pub open spec fn header_bytes(h: Header) -> Seq<u8> {
    le_bytes(MAGIC as nat, 4) + le_bytes(h.version as nat, 4) + le_bytes(h.width as nat, 4)
        + le_bytes(h.height as nat, 4) + le_bytes((h.channels - 1) as nat, 2) + le_bytes(
        (h.layers - 1) as nat,
        2,
    ) + le_bytes(packed_field(h) as nat, 3) + seq![
        (h.bit_depth - 1) as u8,
        intent_code(h.intent),
        encoder_code(h.encoder),
        quantization_code(h.quantization),
        filter_code(h.filter),
    ] + le_bytes((h.metadata_size / 4) as nat, 4)
}

/// The fields of a header can be encoded without a panic.
pub open spec fn encodable(h: Header) -> bool {
    &&& h.channels >= 1
    &&& h.layers >= 1
    &&& h.bit_depth >= 1
    &&& h.block_size >= 2
    &&& h.chroma_scale >= 1
    &&& 1 <= h.quality <= 2048
}

/// The little-endian number in bytes `a..b` of `d`.
pub open spec fn field(d: Seq<u8>, a: int, b: int) -> nat {
    le_value(d.subrange(a, b))
}

pub open spec fn has_magic(d: Seq<u8>) -> bool {
    d.len() >= 4 && field(d, 0, 4) == MAGIC
}

/// Bytes 20..23 of an encoded header.
pub open spec fn packed_of(d: Seq<u8>) -> nat {
    field(d, 20, 23)
}

/// The enumerations stored in bytes 24..28 are all known values.
pub open spec fn enums_valid(d: Seq<u8>) -> bool {
    &&& intent_of_code(d[24]) is Some
    &&& encoder_of_code(d[25]) is Some
    &&& quantization_of_code(d[26]) is Some
    &&& filter_of_code(d[27]) is Some
}

/// Decoding these bytes would overflow one of the stored "minus one" fields, or
/// the metadata size: decoding panics there.
pub open spec fn decode_overflows(d: Seq<u8>) -> bool {
    has_magic(d) && (
    (d.len() >= 18 && field(d, 16, 18) == 0xffff)
    || (d.len() >= 20 && field(d, 18, 20) == 0xffff)
    || (d.len() >= 23 && (packed_of(d) / 32) % 256 == 255)
    || (d.len() >= 24 && d[23] == 255)
    || (d.len() >= 32 && enums_valid(d) && field(d, 28, 32) >= 0x4000_0000))
}

/// The header that 32 (or more) bytes describe, before its sizes are checked.
pub open spec fn decoded_header(d: Seq<u8>) -> Header {
    let tmp = packed_of(d);
    let width = field(d, 8, 12) as u32;
    let height = field(d, 12, 16) as u32;
    let channels = (field(d, 16, 18) + 1) as u16;
    let layers = (field(d, 18, 20) + 1) as u16;
    Header {
        version: field(d, 4, 8) as u32,
        width,
        height,
        layers,
        channels,
        bit_depth: (d[23] + 1) as u8,
        is_signed: tmp / 0x80_0000 == 1,
        quality: ((tmp / 0x2000) % 1024 + 1) as u16,
        chroma_scale: ((tmp / 32) % 256 + 1) as u8,
        block_size: (tmp % 32 + 2) as u8,
        filter: filter_of_code(d[27]).unwrap(),
        quantization: quantization_of_code(d[26]).unwrap(),
        encoder: encoder_of_code(d[25]).unwrap(),
        intent: intent_of_code(d[24]).unwrap(),
        metadata_size: (field(d, 28, 32) * 4) as u32,
        channel_size: (width * height) as usize,
        image_size: (width * height * channels * layers) as usize,
    }
}

/// The sizes of an image with these dimensions fit in `usize`.
pub open spec fn sizes_fit(width: nat, height: nat, channels: nat, layers: nat) -> bool {
    &&& width * height <= usize::MAX
    &&& width * height * channels * layers <= usize::MAX
}

/// The sizes stored in a header are those of its dimensions.
pub open spec fn sizes_consistent(h: Header) -> bool {
    &&& sizes_fit(h.width as nat, h.height as nat, h.channels as nat, h.layers as nat)
    &&& h.channel_size == h.width * h.height
    &&& h.image_size == h.width * h.height * h.channels * h.layers
}

/// Reading stops for want of bytes before a complete header is read.
pub open spec fn decode_truncated(d: Seq<u8>) -> bool {
    d.len() < 4 || (has_magic(d) && (d.len() < 25 || (intent_of_code(d[24]) is Some && (d.len()
        < 26 || (encoder_of_code(d[25]) is Some && (d.len() < 27 || (quantization_of_code(d[26]) is Some
        && (d.len() < 28 || (filter_of_code(d[27]) is Some && d.len() < 32)))))))))
}

/// A complete header is read, but one of its enumerations is unknown or its
/// sizes do not fit.
pub open spec fn decode_wrong_value(d: Seq<u8>) -> bool {
    &&& has_magic(d)
    &&& !decode_truncated(d)
    &&& !(enums_valid(d) && sizes_fit(
        field(d, 8, 12),
        field(d, 12, 16),
        field(d, 16, 18) + 1,
        field(d, 18, 20) + 1,
    ))
}

/// The bytes hold a header that decodes.
pub open spec fn decodes(d: Seq<u8>) -> bool {
    &&& has_magic(d)
    &&& d.len() >= 32
    &&& enums_valid(d)
    &&& sizes_fit(field(d, 8, 12), field(d, 12, 16), field(d, 16, 18) + 1, field(d, 18, 20) + 1)
}

/// Ceiling of `w / 2^d`: the length of a side after `d` halvings.
pub open spec fn downsampled(w: nat, d: nat) -> nat {
    (w + pow2(d) - 1) as nat / pow2(d)
}

pub open spec fn boost_of(h: Header) -> i16 {
    if h.quality == QUALITY_MAX {
        1
    } else {
        8
    }
}

pub open spec fn chroma_quality_of(h: Header) -> i32 {
    let q = (h.quality as int + h.chroma_scale as int / 2) / h.chroma_scale as int;
    if q < 1 {
        1
    } else {
        q as i32
    }
}

/// The number of bytes of a decompressed image, or `None` when the pixel count
/// squared exceeds `usize::MAX - 1`.
pub open spec fn decompress_buffer_size(h: Header, d: nat) -> Option<usize> {
    let p1 = downsampled(h.width as nat, d) * downsampled(h.height as nat, d);
    let p2 = h.channels * h.layers * ((h.bit_depth + 7) / 8);
    if p1 * p1 > usize::MAX - 1 {
        None
    } else if p1 * p2 > usize::MAX {
        Some(usize::MAX)
    } else {
        Some((p1 * p2) as usize)
    }
}

fn push_all(buff: &mut Vec<u8>, bytes: &[u8])
    ensures
        final(buff)@ == old(buff)@ + bytes@,
{
    let mut i: usize = 0;
    while i < bytes.len()
        invariant
            0 <= i <= bytes@.len(),
            buff@ == old(buff)@ + bytes@.subrange(0, i as int),
        decreases bytes@.len() - i,
    {
        buff.push(bytes[i]);
        i = i + 1;
        assert(bytes@.subrange(0, i as int) =~= bytes@.subrange(0, i - 1) + seq![bytes@[i - 1]]);
    }
    assert(bytes@.subrange(0, bytes@.len() as int) =~= bytes@);
}

impl Header {
    /// Reads a header from the first 32 bytes of `encoded`.
    pub fn decode(encoded: &[u8]) -> (r: Result<Header, HeaderDecodeErr>)
        requires
            !decode_overflows(encoded@),
        ensures
            r is Ok <==> decodes(encoded@),
            r matches Ok(h) ==> h == decoded_header(encoded@) && sizes_consistent(h),
            r matches Err(HeaderDecodeErr::IOErr(_)) <==> decode_truncated(encoded@),
            r matches Err(HeaderDecodeErr::WrongMagic) <==> encoded@.len() >= 4 && !has_magic(
                encoded@,
            ),
            r matches Err(HeaderDecodeErr::WrongValue(_)) <==> decode_wrong_value(encoded@),
    {
        let ghost d = encoded@;
        if encoded.len() < 4 {
            return Err(HeaderDecodeErr::IOErr(unexpected_eof_error()));
        }
        let magic = le_read_u32(encoded);
        assert(encoded@.subrange(0, 4) =~= d.subrange(0, 4));
        if magic != MAGIC {
            return Err(HeaderDecodeErr::WrongMagic);
        }
        if encoded.len() < 25 {
            return Err(HeaderDecodeErr::IOErr(unexpected_eof_error()));
        }
        let version = le_read_u32(slice_from(encoded, 4));
        let width = le_read_u32(slice_from(encoded, 8));
        let height = le_read_u32(slice_from(encoded, 12));
        let channels_m1 = le_read_u16(slice_from(encoded, 16));
        let layers_m1 = le_read_u16(slice_from(encoded, 18));
        let tmp = le_read_u24(slice_from(encoded, 20));
        proof {
            assert(d.subrange(4, d.len() as int).subrange(0, 4) =~= d.subrange(4, 8));
            assert(d.subrange(8, d.len() as int).subrange(0, 4) =~= d.subrange(8, 12));
            assert(d.subrange(12, d.len() as int).subrange(0, 4) =~= d.subrange(12, 16));
            assert(d.subrange(16, d.len() as int).subrange(0, 2) =~= d.subrange(16, 18));
            assert(d.subrange(18, d.len() as int).subrange(0, 2) =~= d.subrange(18, 20));
            assert(d.subrange(20, d.len() as int).subrange(0, 3) =~= d.subrange(20, 23));
            crate::byte_order::lemma_le_value_bound(d.subrange(20, 23));
            vstd::arithmetic::power::lemma_pow_adds(256, 1, 2);
            vstd::arithmetic::power::lemma_pow_adds(256, 1, 1);
            vstd::arithmetic::power::lemma_pow1(256);
        }
        let channels = channels_m1 + 1;
        let layers = layers_m1 + 1;
        let block_size = (tmp % 32) as u8 + 2;
        let chroma_scale = ((tmp / 32) % 256) as u8 + 1;
        let quality = ((tmp / 0x2000) % 1024) as u16 + 1;
        let is_signed = tmp / 0x80_0000 == 1;
        let bit_depth = encoded[23] + 1;
        let intent = match Intent::from_u8(encoded[24]) {
            Some(v) => v,
            None => {
                return Err(HeaderDecodeErr::WrongValue(String::from_str("Unknown intent")));
            },
        };
        if encoded.len() < 26 {
            return Err(HeaderDecodeErr::IOErr(unexpected_eof_error()));
        }
        let encoder = match Encoder::from_u8(encoded[25]) {
            Some(v) => v,
            None => {
                return Err(HeaderDecodeErr::WrongValue(String::from_str("Unknown encoder")));
            },
        };
        if encoded.len() < 27 {
            return Err(HeaderDecodeErr::IOErr(unexpected_eof_error()));
        }
        let quantization = match Quantization::from_u8(encoded[26]) {
            Some(v) => v,
            None => {
                return Err(HeaderDecodeErr::WrongValue(String::from_str("Unknown quantization")));
            },
        };
        if encoded.len() < 28 {
            return Err(HeaderDecodeErr::IOErr(unexpected_eof_error()));
        }
        let filter = match Filter::from_u8(encoded[27]) {
            Some(v) => v,
            None => {
                return Err(HeaderDecodeErr::WrongValue(String::from_str("Unknown filter")));
            },
        };
        if encoded.len() < 32 {
            return Err(HeaderDecodeErr::IOErr(unexpected_eof_error()));
        }
        let metadata_words = le_read_u32(slice_from(encoded, 28));
        assert(d.subrange(28, d.len() as int).subrange(0, 4) =~= d.subrange(28, 32));
        let metadata_size = metadata_words * 4;
        let sizes = image_sizes(width, height, channels, layers);
        match sizes {
            None => Err(HeaderDecodeErr::WrongValue(String::from_str("Image size overflow"))),
            Some((channel_size, image_size)) => Ok(
                Header {
                    version,
                    width,
                    height,
                    layers,
                    channels,
                    bit_depth,
                    is_signed,
                    quality,
                    chroma_scale,
                    block_size,
                    filter,
                    quantization,
                    encoder,
                    intent,
                    metadata_size,
                    channel_size,
                    image_size,
                },
            ),
        }
    }

    /// Appends the 32-byte encoding of the header to `buff`.
    pub fn encode(&self, buff: &mut Vec<u8>) -> (r: Result<(), std::io::Error>)
        requires
            encodable(*self),
        ensures
            r is Ok,
            final(buff)@ == old(buff)@ + header_bytes(*self),
    {
        let tmp: u32 = (self.block_size - 2) as u32 | (((self.chroma_scale - 1) as u32) << 5u32)
            | (((self.quality - 1) as u32) << 13u32) | ((if self.is_signed {
            1u32
        } else {
            0u32
        }) << 23u32);
        proof {
            let a = (self.block_size - 2) as u32;
            let b = (self.chroma_scale - 1) as u32;
            let c = (self.quality - 1) as u32;
            let s = (if self.is_signed {
                1u32
            } else {
                0u32
            });
            assert(a < 256 && b < 256 && c < 2048 && s < 2 ==> a | (b << 5u32) | (c << 13u32) | (s
                << 23u32) < 0x100_0000) by (bit_vector);
        }
        let ghost start = buff@;
        push_all(buff, &le_u32_bytes(MAGIC));
        push_all(buff, &le_u32_bytes(self.version));
        push_all(buff, &le_u32_bytes(self.width));
        push_all(buff, &le_u32_bytes(self.height));
        push_all(buff, &le_u16_bytes(self.channels - 1));
        push_all(buff, &le_u16_bytes(self.layers - 1));
        push_all(buff, &le_u24_bytes(tmp));
        let tail = [
            self.bit_depth - 1,
            self.intent.to_u8(),
            self.encoder.to_u8(),
            self.quantization.to_u8(),
            self.filter.to_u8(),
        ];
        push_all(buff, &tail);
        push_all(buff, &le_u32_bytes(self.metadata_size / 4));
        assert(tail@ =~= seq![
            (self.bit_depth - 1) as u8,
            intent_code(self.intent),
            encoder_code(self.encoder),
            quantization_code(self.quantization),
            filter_code(self.filter),
        ]);
        assert(buff@ =~= start + header_bytes(*self));
        Ok(())
    }

    /// Whether decoding `encoded` would overflow one of its stored "minus
    /// one" fields or its metadata size, the inputs on which `decode` panics.
    pub fn would_overflow(encoded: &[u8]) -> (r: bool)
        ensures
            r == decode_overflows(encoded@),
    {
        let len = encoded.len();
        if len < 4 {
            return false;
        }
        let magic = le_read_u32(encoded);
        if magic != MAGIC {
            return false;
        }
        if len >= 18 {
            let v = le_read_u16(slice_from(encoded, 16));
            assert(encoded@.subrange(16, len as int).subrange(0, 2) =~= encoded@.subrange(16, 18));
            if v == 0xffff {
                return true;
            }
        }
        if len >= 20 {
            let v = le_read_u16(slice_from(encoded, 18));
            assert(encoded@.subrange(18, len as int).subrange(0, 2) =~= encoded@.subrange(18, 20));
            if v == 0xffff {
                return true;
            }
        }
        if len >= 23 {
            let v = le_read_u24(slice_from(encoded, 20));
            assert(encoded@.subrange(20, len as int).subrange(0, 3) =~= encoded@.subrange(20, 23));
            if (v / 32) % 256 == 255 {
                return true;
            }
        }
        if len >= 24 && encoded[23] == 255 {
            return true;
        }
        if len >= 32 && Intent::from_u8(encoded[24]).is_some() && Encoder::from_u8(encoded[25]).is_some()
            && Quantization::from_u8(encoded[26]).is_some() && Filter::from_u8(encoded[27]).is_some() {
            let v = le_read_u32(slice_from(encoded, 28));
            assert(encoded@.subrange(28, len as int).subrange(0, 4) =~= encoded@.subrange(28, 32));
            if v >= 0x4000_0000 {
                return true;
            }
        }
        false
    }

    /// The number of bytes that a decompressed image of this header takes, or
    /// `None` when it cannot be computed.
    pub fn get_decompress_buffer_size(&self, downsampling: usize) -> (r: Option<usize>)
        requires
            downsampling < usize::BITS,
            self.bit_depth <= 248,
        ensures
            r == decompress_buffer_size(*self, downsampling as nat),
    {
        let w = self.get_downsampled_width(downsampling) as u128;
        let h = self.get_downsampled_height(downsampling) as u128;
        proof {
            lemma_downsampled_le(self.width as nat, downsampling as nat);
            lemma_downsampled_le(self.height as nat, downsampling as nat);
        }
        assert(w * h <= 0xffff_ffff * 0xffff_ffff) by (nonlinear_arith)
            requires
                w <= 0xffff_ffff,
                h <= 0xffff_ffff,
        ;
        let part1: u128 = w * h;
        assert((self.channels as u128) * (self.layers as u128) <= 0xffff * 0xffff) by (nonlinear_arith)
            requires
                self.channels <= 0xffff,
                self.layers <= 0xffff,
        ;
        let cl: u128 = self.channels as u128 * self.layers as u128;
        let bytes: u128 = ((self.bit_depth + 7) / 8) as u128;
        assert(cl * bytes <= 0xffff * 0xffff * 32) by (nonlinear_arith)
            requires
                cl <= 0xffff * 0xffff,
                bytes <= 32,
        ;
        let part2: u128 = cl * bytes;
        assert(part1 * part1 <= 0x1_0000_0000_0000_0000_0000_0000_0000_0000 - 1) by (nonlinear_arith)
            requires
                part1 <= 0xffff_ffff * 0xffff_ffff,
        ;
        assert(part1 * part2 <= 0x1_0000_0000_0000_0000_0000_0000_0000_0000 - 1) by (nonlinear_arith)
            requires
                part1 <= 0xffff_ffff * 0xffff_ffff,
                part2 <= 0xffff * 0xffff * 32,
        ;
        if part1 * part1 > (usize::MAX - 1) as u128 {
            None
        } else if part1 * part2 > usize::MAX as u128 {
            Some(usize::MAX)
        } else {
            Some((part1 * part2) as usize)
        }
    }

    pub fn get_boost(&self) -> (r: i16)
        ensures
            r == boost_of(*self),
    {
        if self.quality == QUALITY_MAX {
            1
        } else {
            8
        }
    }

    /// The quality used for chroma channels: the quality divided by the chroma
    /// scale, rounded to nearest, and at least 1.
    pub fn get_chroma_quality(&self) -> (r: i32)
        requires
            self.chroma_scale > 0,
        ensures
            r == chroma_quality_of(*self),
    {
        let q = (self.quality as i32 + self.chroma_scale as i32 / 2) / self.chroma_scale as i32;
        if q < 1 {
            1
        } else {
            q
        }
    }

    pub fn get_downsampled_width(&self, downsampling: usize) -> (r: usize)
        requires
            downsampling < usize::BITS,
        ensures
            r == downsampled(self.width as nat, downsampling as nat),
    {
        downsample(self.width, downsampling)
    }

    pub fn get_downsampled_height(&self, downsampling: usize) -> (r: usize)
        requires
            downsampling < usize::BITS,
        ensures
            r == downsampled(self.height as nat, downsampling as nat),
    {
        downsample(self.height, downsampling)
    }

    /// The number of samples of one channel after `downsampling` halvings.
    pub fn get_downsampled_channel_size(&self, downsampling: usize) -> (r: usize)
        requires
            downsampling < usize::BITS,
            self.width * self.height <= usize::MAX,
        ensures
            r == downsampled(self.width as nat, downsampling as nat) * downsampled(
                self.height as nat,
                downsampling as nat,
            ),
    {
        let w = self.get_downsampled_width(downsampling);
        let h = self.get_downsampled_height(downsampling);
        proof {
            lemma_downsampled_le(self.width as nat, downsampling as nat);
            lemma_downsampled_le(self.height as nat, downsampling as nat);
            vstd::arithmetic::mul::lemma_mul_upper_bound(
                w as int,
                self.width as int,
                h as int,
                self.height as int,
            );
        }
        w * h
    }

    /// The number of samples of the whole image after `downsampling`
    /// halvings, all channels and layers.
    pub fn get_downsampled_image_size(&self, downsampling: usize) -> (r: usize)
        requires
            downsampling < usize::BITS,
            sizes_fit(self.width as nat, self.height as nat, self.channels as nat, self.layers as nat),
        ensures
            r == downsampled(self.width as nat, downsampling as nat) * downsampled(
                self.height as nat,
                downsampling as nat,
            ) * self.channels * self.layers,
    {
        let cs = self.get_downsampled_channel_size(downsampling);
        proof {
            lemma_downsampled_le(self.width as nat, downsampling as nat);
            lemma_downsampled_le(self.height as nat, downsampling as nat);
            vstd::arithmetic::mul::lemma_mul_upper_bound(
                downsampled(self.width as nat, downsampling as nat) as int,
                self.width as int,
                downsampled(self.height as nat, downsampling as nat) as int,
                self.height as int,
            );
            let wh = self.width * self.height;
            assert(self.channels * self.layers <= 0xffff * 0xffff) by (nonlinear_arith)
                requires
                    self.channels <= 0xffff,
                    self.layers <= 0xffff,
            ;
            let cl = self.channels * self.layers;
            assert(cs * cl <= wh * cl) by (nonlinear_arith)
                requires
                    cs <= wh,
                    0 <= cs,
                    0 <= cl,
            ;
            assert(wh * cl == wh * self.channels * self.layers) by (nonlinear_arith)
                requires
                    cl == self.channels * self.layers,
            ;
            assert(cs * cl == cs * self.channels * self.layers) by (nonlinear_arith)
                requires
                    cl == self.channels * self.layers,
            ;
        }
        cs * (self.channels as usize * self.layers as usize)
    }

    /// The number of samples of the whole image, all channels and layers.
    pub fn get_image_size(&self) -> (r: usize)
        ensures
            r == self.image_size,
    {
        self.image_size
    }
}

/// `&s[start..]`.
fn slice_from(s: &[u8], start: usize) -> (r: &[u8])
    requires
        start <= s@.len(),
    ensures
        r@ == s@.subrange(start as int, s@.len() as int),
{
    let (_, r) = s.split_at(start);
    r
}

/// The channel size and image size of the given dimensions, when they fit.
pub fn image_sizes(width: u32, height: u32, channels: u16, layers: u16) -> (r: Option<
    (usize, usize),
>)
    ensures
        r is Some <==> sizes_fit(width as nat, height as nat, channels as nat, layers as nat),
        r matches Some((c, i)) ==> c == width * height && i == width * height * channels
            * layers,
{
    let w = width as u128;
    let h = height as u128;
    assert(w * h <= 0xffff_ffff * 0xffff_ffff) by (nonlinear_arith)
        requires
            w <= 0xffff_ffff,
            h <= 0xffff_ffff,
    ;
    let c = w * h;
    assert(c * channels as u128 <= 0xffff_ffff * 0xffff_ffff * 0xffff) by (nonlinear_arith)
        requires
            c <= 0xffff_ffff * 0xffff_ffff,
            channels <= 0xffff,
    ;
    let lc = c * channels as u128;
    assert(lc * layers as u128 <= 0xffff_ffff * 0xffff_ffff * 0xffff * 0xffff) by (nonlinear_arith)
        requires
            lc <= 0xffff_ffff * 0xffff_ffff * 0xffff,
            layers <= 0xffff,
    ;
    let total = lc * layers as u128;
    if total > usize::MAX as u128 || c > usize::MAX as u128 {
        None
    } else {
        Some((c as usize, total as usize))
    }
}

/// `ceil(w / 2^d)`, computed as `(w + 2^d - 1) >> d`.
fn downsample(w: u32, d: usize) -> (r: usize)
    requires
        d < usize::BITS,
    ensures
        r == downsampled(w as nat, d as nat),
{
    if d >= 32 {
        proof {
            lemma_downsample_large(w as nat, d as nat);
        }
        if w == 0 {
            0
        } else {
            1
        }
    } else {
        let p: u64 = 1u64 << d as u64;
        proof {
            vstd::bits::lemma_u64_pow2_no_overflow(d as nat);
            vstd::bits::lemma_u64_shl_is_mul(1, d as u64);
            vstd::arithmetic::power2::lemma_pow2_strictly_increases(d as nat, 32);
            vstd::arithmetic::power2::lemma2_to64();
            vstd::arithmetic::power2::lemma2_to64_rest();
        }
        let s: u64 = w as u64 + p - 1;
        let r = s >> d as u64;
        proof {
            vstd::bits::lemma_u64_shr_is_div(s, d as u64);
            vstd::arithmetic::div_mod::lemma_div_is_ordered(s as int, 0x1_ffff_ffff, pow2(d as nat) as int);
            vstd::arithmetic::power2::lemma_pow2_pos(d as nat);
            vstd::arithmetic::div_mod::lemma_div_nonincreasing(s as int, pow2(d as nat) as int);
            if d > 0 {
                vstd::arithmetic::power2::lemma_pow2_strictly_increases(0, d as nat);
                vstd::arithmetic::div_mod::lemma_div_is_ordered_by_denominator(
                    0x1_ffff_ffff, 2, pow2(d as nat) as int);
            }
        }
        r as usize
    }
}

proof fn lemma_downsample_large(w: nat, d: nat)
    requires
        w < 0x1_0000_0000,
        d >= 32,
    ensures
        downsampled(w, d) == if w == 0 { 0nat } else { 1nat },
{
    if d > 32 {
        vstd::arithmetic::power2::lemma_pow2_strictly_increases(32, d);
    }
    vstd::arithmetic::power2::lemma2_to64();
    vstd::arithmetic::power2::lemma2_to64_rest();
    vstd::arithmetic::power2::lemma_pow2_pos(d);
    let p = pow2(d);
    if w == 0 {
        vstd::arithmetic::div_mod::lemma_basic_div((p - 1) as int, p as int);
    } else {
        vstd::arithmetic::div_mod::lemma_fundamental_div_mod_converse(
            (w + p - 1) as int, p as int, 1, (w - 1) as int);
    }
}

/// A side never grows by downsampling.
pub proof fn lemma_downsampled_le(w: nat, d: nat)
    ensures
        downsampled(w, d) <= w,
        w > 0 ==> downsampled(w, d) >= 1,
{
    let p = pow2(d);
    vstd::arithmetic::power2::lemma_pow2_pos(d);
    if w == 0 {
        vstd::arithmetic::div_mod::lemma_basic_div((p - 1) as int, p as int);
    } else {
        assert((w + p - 1) as nat / p <= w) by {
            assert(w + p - 1 <= w * p) by (nonlinear_arith)
                requires
                    w >= 1,
                    p >= 1,
            ;
            vstd::arithmetic::div_mod::lemma_div_is_ordered((w + p - 1) as int, (w * p) as int, p as int);
            vstd::arithmetic::div_mod::lemma_div_by_multiple(w as int, p as int);
        }
        vstd::arithmetic::div_mod::lemma_div_is_ordered(p as int, (w + p - 1) as int, p as int);
        vstd::arithmetic::div_mod::lemma_div_by_self(p as int);
    }
}

/// The bytes of an encoded header: the magic "GFWX", then at bytes 24 to 27
/// the GFWX codes of the intent (generic 0, RGB 7, RGBA 8, BGR 10, BGRA 11,
/// YUV444 12), the encoder (turbo 0, fast 1, contextual 2), the quantization
/// (scalar 0) and the filter (linear 0, cubic 1).
pub proof fn lemma_header_codes(h: Header)
    ensures
        header_bytes(h).len() == 32,
        header_bytes(h)[0] == 71 && header_bytes(h)[1] == 70 && header_bytes(h)[2] == 87 && header_bytes(h)[3] == 88,
        header_bytes(h)[24] == 0 <==> h.intent == Intent::Generic,
        header_bytes(h)[24] == 7 <==> h.intent == Intent::RGB,
        header_bytes(h)[24] == 8 <==> h.intent == Intent::RGBA,
        header_bytes(h)[24] == 10 <==> h.intent == Intent::BGR,
        header_bytes(h)[24] == 11 <==> h.intent == Intent::BGRA,
        header_bytes(h)[24] == 12 <==> h.intent == Intent::YUV444,
        header_bytes(h)[25] == 0 <==> h.encoder == Encoder::Turbo,
        header_bytes(h)[25] == 1 <==> h.encoder == Encoder::Fast,
        header_bytes(h)[25] == 2 <==> h.encoder == Encoder::Contextual,
        header_bytes(h)[26] == 0,
        header_bytes(h)[27] == 0 <==> h.filter == Filter::Linear,
        header_bytes(h)[27] == 1 <==> h.filter == Filter::Cubic,
{
    lemma_pow256_values();
    let t = packed_field(h);
    lemma_le_bytes_len(MAGIC as nat, 4);
    lemma_le_bytes_len(h.version as nat, 4);
    lemma_le_bytes_len(h.width as nat, 4);
    lemma_le_bytes_len(h.height as nat, 4);
    lemma_le_bytes_len((h.channels - 1) as nat, 2);
    lemma_le_bytes_len((h.layers - 1) as nat, 2);
    lemma_le_bytes_len(t as nat, 3);
    lemma_le_bytes_len((h.metadata_size / 4) as nat, 4);
    let p0 = le_bytes(MAGIC as nat, 4);
    let rest = le_bytes(h.version as nat, 4) + le_bytes(h.width as nat, 4) + le_bytes(h.height as nat, 4)
        + le_bytes((h.channels - 1) as nat, 2) + le_bytes((h.layers - 1) as nat, 2) + le_bytes(t as nat, 3);
    let p7 = seq![
        (h.bit_depth - 1) as u8,
        intent_code(h.intent),
        encoder_code(h.encoder),
        quantization_code(h.quantization),
        filter_code(h.filter),
    ];
    let p8 = le_bytes((h.metadata_size / 4) as nat, 4);
    let b = header_bytes(h);
    assert(b == p0 + rest + p7 + p8);
    assert(b[24] == p7[1]);
    assert(b[25] == p7[2]);
    assert(b[26] == p7[3]);
    assert(b[27] == p7[4]);
    assert(b[0] == p0[0] && b[1] == p0[1] && b[2] == p0[2] && b[3] == p0[3]);
    lemma_magic_bytes();
}

/// The fields of an encoded header, little-endian: version at bytes 4..8,
/// width 8..12, height 12..16, channels minus one 16..18, layers minus one
/// 18..20; at 20..23 the block size minus 2 in bits 0..5, the chroma scale
/// minus one in bits 5..13, the quality minus one in bits 13..23 and the
/// signedness in bit 23; the bit depth minus one at byte 23; the metadata
/// size in words at 28..32.
pub proof fn lemma_header_layout(h: Header)
    requires
        encodable(h),
        h.block_size - 2 < 32,
        h.quality - 1 < 1024,
    ensures
        field(header_bytes(h), 4, 8) == h.version,
        field(header_bytes(h), 8, 12) == h.width,
        field(header_bytes(h), 12, 16) == h.height,
        field(header_bytes(h), 16, 18) == h.channels - 1,
        field(header_bytes(h), 18, 20) == h.layers - 1,
        field(header_bytes(h), 20, 23) == (h.block_size - 2) + 32 * (h.chroma_scale - 1) + 8192 * (h.quality - 1)
            + 0x80_0000 * (if h.is_signed { 1int } else { 0int }),
        header_bytes(h)[23] == h.bit_depth - 1,
        field(header_bytes(h), 28, 32) == h.metadata_size / 4,
{
    lemma_pow256_values();
    let t = packed_field(h);
    let a = (h.block_size - 2) as u32;
    let b = (h.chroma_scale - 1) as u32;
    let c = (h.quality - 1) as u32;
    let sg = (if h.is_signed {
        1u32
    } else {
        0u32
    });
    assert(t == a | (b << 5u32) | (c << 13u32) | (sg << 23u32));
    assert(a < 32 && b < 256 && c < 1024 && sg < 2 ==> a | (b << 5u32) | (c << 13u32) | (sg << 23u32) == a + 32 * b
        + 8192 * c + 0x80_0000 * sg) by (bit_vector);
    let p0 = le_bytes(MAGIC as nat, 4);
    let p1 = le_bytes(h.version as nat, 4);
    let p2 = le_bytes(h.width as nat, 4);
    let p3 = le_bytes(h.height as nat, 4);
    let p4 = le_bytes((h.channels - 1) as nat, 2);
    let p5 = le_bytes((h.layers - 1) as nat, 2);
    let p6 = le_bytes(t as nat, 3);
    let p7 = seq![
        (h.bit_depth - 1) as u8,
        intent_code(h.intent),
        encoder_code(h.encoder),
        quantization_code(h.quantization),
        filter_code(h.filter),
    ];
    let p8 = le_bytes((h.metadata_size / 4) as nat, 4);
    lemma_le_bytes_len(MAGIC as nat, 4);
    lemma_le_bytes_len(h.version as nat, 4);
    lemma_le_bytes_len(h.width as nat, 4);
    lemma_le_bytes_len(h.height as nat, 4);
    lemma_le_bytes_len((h.channels - 1) as nat, 2);
    lemma_le_bytes_len((h.layers - 1) as nat, 2);
    lemma_le_bytes_len(t as nat, 3);
    lemma_le_bytes_len((h.metadata_size / 4) as nat, 4);
    let d = header_bytes(h);
    assert(d == p0 + p1 + p2 + p3 + p4 + p5 + p6 + p7 + p8);
    assert(d.subrange(4, 8) =~= p1);
    assert(d.subrange(8, 12) =~= p2);
    assert(d.subrange(12, 16) =~= p3);
    assert(d.subrange(16, 18) =~= p4);
    assert(d.subrange(18, 20) =~= p5);
    assert(d.subrange(20, 23) =~= p6);
    assert(d[23] == p7[0]);
    assert(d.subrange(28, 32) =~= p8);
    lemma_le_roundtrip(h.version as nat, 4);
    lemma_le_roundtrip(h.width as nat, 4);
    lemma_le_roundtrip(h.height as nat, 4);
    lemma_le_roundtrip((h.channels - 1) as nat, 2);
    lemma_le_roundtrip((h.layers - 1) as nat, 2);
    assert(t < 0x100_0000) by (bit_vector)
        requires
            t == a | (b << 5u32) | (c << 13u32) | (sg << 23u32),
            a < 32,
            b < 256,
            c < 1024,
            sg < 2,
    ;
    lemma_le_roundtrip(t as nat, 3);
    lemma_le_roundtrip((h.metadata_size / 4) as nat, 4);
}

/// The boost of the samples is 1 at full quality (1024) and 8 below; the
/// chroma quality is the quality divided by the chroma scale, rounded to the
/// nearest with halves up, and at least 1.
pub proof fn lemma_quality_derived(h: Header)
    requires
        h.chroma_scale >= 1,
    ensures
        h.quality == 1024 ==> boost_of(h) == 1,
        h.quality != 1024 ==> boost_of(h) == 8,
        chroma_quality_of(h) >= 1,
        chroma_quality_of(h) > 1 ==> chroma_quality_of(h) * h.chroma_scale <= h.quality + h.chroma_scale / 2
            < (chroma_quality_of(h) + 1) * h.chroma_scale,
        2 * h.quality < h.chroma_scale ==> chroma_quality_of(h) == 1,
{
    let cs = h.chroma_scale as int;
    let n = h.quality as int + cs / 2;
    let q = n / cs;
    vstd::arithmetic::div_mod::lemma_fundamental_div_mod(n, cs);
    vstd::arithmetic::div_mod::lemma_mod_pos_bound(n, cs);
    assert(q * cs <= n < (q + 1) * cs) by (nonlinear_arith)
        requires
            n == cs * q + n % cs,
            0 <= n % cs < cs,
    ;
    if 2 * h.quality < h.chroma_scale {
        assert(n < cs);
        vstd::arithmetic::div_mod::lemma_basic_div(n, cs);
    }
}

/// The magic number's bytes spell "GFWX".
proof fn lemma_magic_bytes()
    ensures
        le_bytes(MAGIC as nat, 4) == seq![71u8, 70u8, 87u8, 88u8],
{
    reveal_with_fuel(le_bytes, 5);
    let n: nat = 0x5857_4647;
    assert(n % 256 == 71 && n / 256 == 0x58_5746);
    assert(0x58_5746nat % 256 == 70 && 0x58_5746nat / 256 == 0x5857);
    assert(0x5857nat % 256 == 87 && 0x5857nat / 256 == 0x58);
    assert(0x58nat % 256 == 88 && 0x58nat / 256 == 0);
    assert(le_bytes(n, 4) =~= seq![71u8, 70u8, 87u8, 88u8]);
}

/// Decoding reads the GFWX codes at bytes 24 to 27: the intent from byte 24
/// (0 generic, 7 RGB, 8 RGBA, 10 BGR, 11 BGRA, 12 YUV444), the encoder from
/// byte 25 (0 turbo, 1 fast, 2 contextual), the filter from byte 27 (0
/// linear, 1 cubic); any other value is not a valid header.
pub proof fn lemma_decoded_codes(d: Seq<u8>)
    requires
        d.len() >= 32,
    ensures
        d[24] == 0 ==> decoded_header(d).intent == Intent::Generic,
        d[24] == 7 ==> decoded_header(d).intent == Intent::RGB,
        d[24] == 8 ==> decoded_header(d).intent == Intent::RGBA,
        d[24] == 10 ==> decoded_header(d).intent == Intent::BGR,
        d[24] == 11 ==> decoded_header(d).intent == Intent::BGRA,
        d[24] == 12 ==> decoded_header(d).intent == Intent::YUV444,
        !(d[24] == 0 || d[24] == 7 || d[24] == 8 || d[24] == 10 || d[24] == 11 || d[24] == 12) ==> !enums_valid(d),
        d[25] == 0 ==> decoded_header(d).encoder == Encoder::Turbo,
        d[25] == 1 ==> decoded_header(d).encoder == Encoder::Fast,
        d[25] == 2 ==> decoded_header(d).encoder == Encoder::Contextual,
        d[25] > 2 ==> !enums_valid(d),
        d[26] != 0 ==> !enums_valid(d),
        d[27] == 0 ==> decoded_header(d).filter == Filter::Linear,
        d[27] == 1 ==> decoded_header(d).filter == Filter::Cubic,
        d[27] > 1 ==> !enums_valid(d),
{
}

/// Decoding the encoding of a header gives the header back, for every header
/// whose fields fit the encoding and whose stored sizes are those of its
/// dimensions.
pub proof fn lemma_header_roundtrip(h: Header)
    requires
        encodable(h),
        h.block_size - 2 < 32,
        h.quality - 1 < 1024,
        h.metadata_size % 4 == 0,
        sizes_consistent(h),
    ensures
        decodes(header_bytes(h)),
        !decode_overflows(header_bytes(h)),
        decoded_header(header_bytes(h)) == h,
{
    lemma_pow256_values();
    let t = packed_field(h);
    let a = (h.block_size - 2) as u32;
    let b = (h.chroma_scale - 1) as u32;
    let c = (h.quality - 1) as u32;
    let sg = (if h.is_signed {
        1u32
    } else {
        0u32
    });
    assert(t == a | (b << 5u32) | (c << 13u32) | (sg << 23u32));
    assert(a < 32 && b < 256 && c < 1024 && sg < 2 ==> {
        let t = a | (b << 5u32) | (c << 13u32) | (sg << 23u32);
        &&& t < 0x100_0000
        &&& t % 32 == a
        &&& (t / 32) % 256 == b
        &&& (t / 8192) % 1024 == c
        &&& t / 0x80_0000 == sg
    }) by (bit_vector);
    let p0 = le_bytes(MAGIC as nat, 4);
    let p1 = le_bytes(h.version as nat, 4);
    let p2 = le_bytes(h.width as nat, 4);
    let p3 = le_bytes(h.height as nat, 4);
    let p4 = le_bytes((h.channels - 1) as nat, 2);
    let p5 = le_bytes((h.layers - 1) as nat, 2);
    let p6 = le_bytes(t as nat, 3);
    let p7 = seq![
        (h.bit_depth - 1) as u8,
        intent_code(h.intent),
        encoder_code(h.encoder),
        quantization_code(h.quantization),
        filter_code(h.filter),
    ];
    let p8 = le_bytes((h.metadata_size / 4) as nat, 4);
    lemma_le_bytes_len(MAGIC as nat, 4);
    lemma_le_bytes_len(h.version as nat, 4);
    lemma_le_bytes_len(h.width as nat, 4);
    lemma_le_bytes_len(h.height as nat, 4);
    lemma_le_bytes_len((h.channels - 1) as nat, 2);
    lemma_le_bytes_len((h.layers - 1) as nat, 2);
    lemma_le_bytes_len(t as nat, 3);
    lemma_le_bytes_len((h.metadata_size / 4) as nat, 4);
    let d = header_bytes(h);
    assert(d == p0 + p1 + p2 + p3 + p4 + p5 + p6 + p7 + p8);
    assert(d.len() == 32);
    assert(d.subrange(0, 4) =~= p0);
    assert(d.subrange(4, 8) =~= p1);
    assert(d.subrange(8, 12) =~= p2);
    assert(d.subrange(12, 16) =~= p3);
    assert(d.subrange(16, 18) =~= p4);
    assert(d.subrange(18, 20) =~= p5);
    assert(d.subrange(20, 23) =~= p6);
    assert(d.subrange(28, 32) =~= p8);
    assert(d[23] == p7[0] && d[24] == p7[1] && d[25] == p7[2] && d[26] == p7[3] && d[27] == p7[4]);
    lemma_le_roundtrip(MAGIC as nat, 4);
    lemma_le_roundtrip(h.version as nat, 4);
    lemma_le_roundtrip(h.width as nat, 4);
    lemma_le_roundtrip(h.height as nat, 4);
    lemma_le_roundtrip((h.channels - 1) as nat, 2);
    lemma_le_roundtrip((h.layers - 1) as nat, 2);
    lemma_le_roundtrip(t as nat, 3);
    lemma_le_roundtrip((h.metadata_size / 4) as nat, 4);
    assert(intent_of_code(intent_code(h.intent)) == Some(h.intent));
    assert(encoder_of_code(encoder_code(h.encoder)) == Some(h.encoder));
    assert(quantization_of_code(quantization_code(h.quantization)) == Some(h.quantization));
    assert(filter_of_code(filter_code(h.filter)) == Some(h.filter));
    assert(decoded_header(d) =~= h);
}

} // verus!
