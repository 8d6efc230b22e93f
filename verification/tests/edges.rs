use gfwx::color_transform::{ChannelTransformBuilder, ColorTransformProgram};
use gfwx::compress::{compress_image_data, decompress_image_data};
use gfwx::errors::{CompressError, DecompressError};
use gfwx::header;
use gfwx::quant::quantize;

fn small_header(quality: u16, encoder: header::Encoder) -> header::Header {
    let width = 12;
    let height = 8;
    let layers = 1;
    let channels = 3;
    header::Header {
        version: 1,
        width,
        height,
        layers,
        channels,
        bit_depth: 8,
        is_signed: false,
        quality,
        chroma_scale: 8,
        block_size: 7,
        filter: header::Filter::Linear,
        quantization: header::Quantization::Scalar,
        encoder,
        intent: header::Intent::RGB,
        metadata_size: 0,
        channel_size: width as usize * height as usize,
        image_size: width as usize * height as usize * layers as usize * channels as usize,
    }
}

#[test]
fn test_compress_image_data_no_room_for_table_leaves_buffer() {
    // The first level has 3 blocks, so its size table takes 12 bytes.
    let header = small_header(1024, header::Encoder::Contextual);
    let aux = vec![5i16; 288];
    let mut buffer = vec![0xabu8; 11];
    let r = compress_image_data(&aux, &header, &mut buffer, &[false; 3]);
    assert!(matches!(r, Err(CompressError::Overflow)));
    assert_eq!(buffer, vec![0xabu8; 11]);
}

#[test]
fn test_compress_image_data_keeps_completed_levels_on_failure() {
    let header = small_header(1024, header::Encoder::Contextual);
    let aux = vec![0i16; 288];
    let mut whole = vec![0u8; 4096];
    compress_image_data(&aux, &header, &mut whole, &[false; 3]).unwrap();
    // The first level: its size table of 3 entries (in words), then its blocks.
    let words: usize = (0..3)
        .map(|i| u32::from_le_bytes([whole[4 * i], whole[4 * i + 1], whole[4 * i + 2], whole[4 * i + 3]]) as usize)
        .sum();
    let first_level = 12 + 4 * words;
    // Room for the first level and 4 bytes: the second level's size table
    // (3 entries again) does not fit.
    let mut short = vec![0x5au8; first_level + 4];
    let r = compress_image_data(&aux, &header, &mut short, &[false; 3]);
    assert!(matches!(r, Err(CompressError::Overflow)));
    assert_eq!(short[..first_level], whole[..first_level]);
    assert_eq!(short[first_level..], [0x5au8; 4]);
}

#[test]
fn test_decompress_image_data_test_mode_keeps_samples_on_error() {
    // Three size-table entries claim 64 bytes each, more than the buffer
    // holds: the next level starts past the end of the buffer.
    let header = small_header(1024, header::Encoder::Contextual);
    let buffer = vec![16u8, 0, 0, 0, 16, 0, 0, 0, 16, 0, 0, 0, 1, 2, 3, 4];
    let mut aux = vec![7i16; 288];
    let r = decompress_image_data(&mut aux, &header, &buffer, 0, true, &[false; 3]);
    assert!(matches!(r, Err(DecompressError::Underflow)));
    assert_eq!(aux, vec![7i16; 288]);
}

#[test]
fn test_color_transform_decode_malformed_keeps_earlier_flags() {
    // The second transform of this program writes channel 2, out of range
    // for two channels; the first one marked channel 0 as chroma.
    let buffer = vec![183, 119, 85, 151, 246, 114, 119, 85, 0, 128, 50, 233];
    let mut is_chroma = vec![false; 2];
    let r = ColorTransformProgram::decode(&buffer, &mut is_chroma);
    assert!(matches!(r, Err(DecompressError::Malformed)));
    assert_eq!(is_chroma, vec![true, false]);
}

#[test]
fn test_quantize_negative_quality_uses_quality_one() {
    let mut image = vec![2048i16; 16];
    quantize(&mut image, 4, -5, 0, 1024);
    let mut expected = vec![2i16; 16];
    expected[0] = 2048;
    assert_eq!(image, expected);
}

#[test]
fn test_quantize_at_maximum_changes_nothing() {
    let mut image: Vec<i16> = (0..16).map(|v| v * 100 - 700).collect();
    let before = image.clone();
    quantize(&mut image, 4, 70000, 0, 70000);
    assert_eq!(image, before);
    quantize(&mut image, 4, i32::MIN, 2000, 1000);
    assert_eq!(image, before);
}

fn minus_one_program() -> ColorTransformProgram {
    let mut program = ColorTransformProgram::new();
    program.add_channel_transform(
        ChannelTransformBuilder::with_dest_channel(0)
            .add_channel_factor(1, 1)
            .set_denominator(-1)
            .build(),
    );
    program
}

fn tiny_header(quality: u16) -> header::Header {
    header::Header {
        version: 1,
        width: 2,
        height: 1,
        layers: 1,
        channels: 3,
        bit_depth: 8,
        is_signed: false,
        quality,
        chroma_scale: 8,
        block_size: header::BLOCK_DEFAULT,
        filter: header::Filter::Linear,
        quantization: header::Quantization::Scalar,
        encoder: header::Encoder::Turbo,
        intent: header::Intent::RGB,
        metadata_size: 0,
        channel_size: 2,
        image_size: 6,
    }
}

#[test]
fn test_transform_denominator_minus_one() {
    let header = tiny_header(512);
    let b = header.get_boost();
    let image: Vec<u8> = vec![10, 20, 30, 40, 50, 60];
    let program = minus_one_program();

    let mut interleaved_result = vec![0i16; 6];
    program.transform_and_to_planar(&image, &header, &mut interleaved_result);

    // Channel 0 becomes (boosted channel 1) / -1 + boosted channel 0.
    let expected = vec![-10 * b, -10 * b, 20 * b, 50 * b, 30 * b, 60 * b];
    assert_eq!(interleaved_result, expected);

    let planar: Vec<u8> = vec![10, 40, 20, 50, 30, 60];
    let mut planar_result = vec![0i16; 6];
    program.transform(&planar, &header, &mut planar_result);
    assert_eq!(planar_result, interleaved_result);

    let mut restored = vec![0u8; 6];
    program.detransform_and_to_interleaved(&mut interleaved_result, &header, 2, &mut restored);
    assert_eq!(restored, image);
}

#[test]
fn test_io_errors_convert() {
    let e: CompressError = std::io::Error::from(std::io::ErrorKind::WriteZero).into();
    assert!(matches!(e, CompressError::IOErr(_)));
    let e: DecompressError = std::io::Error::from(std::io::ErrorKind::UnexpectedEof).into();
    assert!(matches!(e, DecompressError::IOErr(_)));
    let e: gfwx::errors::HeaderDecodeErr = std::io::Error::from(std::io::ErrorKind::UnexpectedEof).into();
    assert!(matches!(e, gfwx::errors::HeaderDecodeErr::IOErr(_)));
}
