//! Building a header from the values a user chooses, with their ranges checked.
use vstd::prelude::*;

use super::{image_sizes, sizes_fit, Encoder, Filter, Header, HeaderErr, Intent, Quantization};
use crate::errors::HeaderDecodeErr;

verus! {

pub struct HeaderBuilder {
    pub width: u32,
    pub height: u32,
    pub layers: u16,
    pub channels: u16,
    pub quality: u16,
    pub chroma_scale: u8,
    pub block_size: u8,
    pub filter: Filter,
    pub encoder: Encoder,
    pub intent: Intent,
    pub metadata_size: u32,
}

/// Every chosen value lies in its range and the image sizes fit.
pub open spec fn builder_valid(b: HeaderBuilder) -> bool {
    &&& 0 < b.width < 0x4000_0000
    &&& 0 < b.height < 0x4000_0000
    &&& 0 < b.quality < 1025
    &&& 0 < b.block_size < 31
    &&& sizes_fit(b.width as nat, b.height as nat, b.channels as nat, b.layers as nat)
}

/// The header that a valid builder produces.
pub open spec fn built_header(b: HeaderBuilder) -> Header {
    Header {
        version: 1,
        width: b.width,
        height: b.height,
        layers: b.layers,
        channels: b.channels,
        bit_depth: 8,
        is_signed: false,
        quality: b.quality,
        chroma_scale: b.chroma_scale,
        block_size: b.block_size,
        filter: b.filter,
        quantization: Quantization::Scalar,
        encoder: b.encoder,
        intent: b.intent,
        metadata_size: b.metadata_size,
        channel_size: (b.width * b.height) as usize,
        image_size: (b.width * b.height * b.channels * b.layers) as usize,
    }
}

impl HeaderBuilder {
    pub fn build(self) -> (r: Result<Header, HeaderErr>)
        ensures
            r is Ok <==> builder_valid(self),
            r matches Ok(h) ==> h == built_header(self),
            r matches Err(e) ==> e is WrongValue,
    {
        let width = match check_range(self.width as u64, 0, 0x4000_0000, "Width must be in range (0..1073741824)") {
            Ok(v) => v as u32,
            Err(e) => {
                return Err(e);
            },
        };
        let height = match check_range(self.height as u64, 0, 0x4000_0000, "Height must be in range (0..1073741824)") {
            Ok(v) => v as u32,
            Err(e) => {
                return Err(e);
            },
        };
        let quality = match check_range(self.quality as u64, 0, 1025, "Quality must be in range (0..1025)") {
            Ok(v) => v as u16,
            Err(e) => {
                return Err(e);
            },
        };
        let block_size = match check_range(self.block_size as u64, 0, 31, "Block size must be in range (0..31)") {
            Ok(v) => v as u8,
            Err(e) => {
                return Err(e);
            },
        };
        let (channel_size, image_size) = match image_sizes(
            width,
            height,
            self.channels,
            self.layers,
        ) {
            Some(sizes) => sizes,
            None => {
                return Err(
                    HeaderDecodeErr::WrongValue(
                        String::from_str("Image size must fit in the address space"),
                    ),
                );
            },
        };
        Ok(
            Header {
                version: 1,
                width,
                height,
                layers: self.layers,
                channels: self.channels,
                bit_depth: 8,
                is_signed: false,
                quality,
                chroma_scale: self.chroma_scale,
                block_size,
                filter: self.filter,
                quantization: Quantization::Scalar,
                encoder: self.encoder,
                intent: self.intent,
                metadata_size: self.metadata_size,
                channel_size,
                image_size,
            },
        )
    }
}

/// `value` when it lies strictly between `min` and `max`, else a `WrongValue`
/// error carrying `message`.
fn check_range(value: u64, min: u64, max: u64, message: &str) -> (r: Result<u64, HeaderErr>)
    ensures
        r is Ok <==> min < value < max,
        r matches Ok(v) ==> v == value,
        r matches Err(e) ==> e is WrongValue,
{
    if min < value && value < max {
        Ok(value)
    } else {
        Err(HeaderDecodeErr::WrongValue(message.to_string()))
    }
}

} // verus!
