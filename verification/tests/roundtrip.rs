use gfwx::bits::{BitsIOReader, BitsIOWriter, BitsWriter};
use gfwx::color_transform::{
    interleaved_to_planar, planar_to_interleaved, ChannelTransformBuilder, ColorTransformProgram,
};
use gfwx::compress::{lift_and_quantize, unlift_and_dequantize};
use gfwx::{compress_simple, decompress_simple, HeaderBuilder};
use gfwx::encode::{decode, encode};
use gfwx::header::Encoder;
use gfwx::processing::image::Image;

fn sample_image() -> Vec<i16> {
    vec![
        1, 2, 3, 4, 5, 6, 7, 8, 9, 0, 2, 3, 4, 5, 6, 7, 8, 9, 0, 1, 3, 4, 5, 6, 7, 8, 9, 0, 1, 2,
        4, 5, 6, 7, 8, 9, 0, 1, 2, 3, 5, -6, 7, 8, 9, 0, 1, 2, 3, 4, 6, 7, 8, 9, 0, 0, 0, 0, 0, 0,
        7, 8, 9, 0, 1, 2, 3, 4, 5, 6, 8, 9, 0, -1, 2, 3, 4, 5, 6, 7,
    ]
}

/// Whether coding the whole 10x8 image at step 1 writes the sample at
/// (`x`, `y`): odd rows entirely, odd columns of even rows, and the top-left
/// sample when the first coefficient is coded.
fn coded_at_step_one(x: usize, y: usize, has_dc: bool) -> bool {
    y % 2 == 1 || x % 2 == 1 || (has_dc && x == 0 && y == 0)
}

/// Encodes the image, then decodes the bits into a copy whose coded samples
/// were spoiled, and returns the copy.
fn roundtrip(scheme: Encoder, q: i32, has_dc: bool, is_chroma: bool) -> Vec<i16> {
    let image = sample_image();
    let bytes = {
        let mut chunks = Image::from_slice(&image, (10, 8), 1).into_chunks_mut(10, 1);
        let mut stream = BitsIOWriter::new();
        encode(&chunks.next().unwrap(), &image, &mut stream, scheme, q, has_dc, is_chroma).unwrap();
        stream.flush_write_word().unwrap();
        stream.into_bytes()
    };
    let mut output = image.clone();
    for y in 0..8 {
        for x in 0..10 {
            if coded_at_step_one(x, y, has_dc) {
                output[y * 10 + x] = -77;
            }
        }
    }
    {
        let mut chunks = Image::from_slice(&output, (10, 8), 1).into_chunks_mut(10, 1);
        let chunk = chunks.next().unwrap();
        let mut stream = BitsIOReader::new(&bytes);
        decode(&chunk, &mut output, &mut stream, scheme, q, has_dc, is_chroma).unwrap();
    }
    output
}

#[test]
fn test_block_roundtrip_turbo() {
    assert_eq!(roundtrip(Encoder::Turbo, 0, false, false), sample_image());
    assert_eq!(roundtrip(Encoder::Turbo, 12, true, true), sample_image());
}

#[test]
fn test_block_roundtrip_fast() {
    assert_eq!(roundtrip(Encoder::Fast, 0, true, false), sample_image());
    assert_eq!(roundtrip(Encoder::Fast, 1024, false, true), sample_image());
}

#[test]
fn test_block_roundtrip_contextual() {
    assert_eq!(roundtrip(Encoder::Contextual, 0, true, true), sample_image());
    assert_eq!(roundtrip(Encoder::Contextual, 1024, false, false), sample_image());
}

#[test]
fn test_planar_roundtrip() {
    let image: Vec<u8> = vec![0, 255, 17, 128, 3, 200, 99, 1, 254];
    for boost in [1i16, 8, 128] {
        let mut planar = vec![0i16; image.len()];
        interleaved_to_planar(&image, 3, boost, &mut planar, &[]);
        let mut back = vec![0u8; image.len()];
        planar_to_interleaved(&planar, 3, boost, &mut back, &[]);
        assert_eq!(back, image);
    }
}

fn rgb_header(quality: u16) -> gfwx::header::Header {
    gfwx::header::Header {
        version: 1,
        width: 3,
        height: 2,
        layers: 1,
        channels: 3,
        bit_depth: 8,
        is_signed: false,
        quality,
        chroma_scale: 8,
        block_size: gfwx::header::BLOCK_DEFAULT,
        filter: gfwx::header::Filter::Linear,
        quantization: gfwx::header::Quantization::Scalar,
        encoder: gfwx::header::Encoder::Turbo,
        intent: gfwx::header::Intent::RGB,
        metadata_size: 0,
        channel_size: 3 * 2,
        image_size: 3 * 2 * 3,
    }
}

#[test]
fn test_transform_roundtrip() {
    let image: Vec<u8> = vec![0, 255, 17, 128, 3, 200, 99, 1, 254, 40, 41, 42, 7, 250, 9, 130, 131, 2];
    let programs = [
        ColorTransformProgram::new(),
        ColorTransformProgram::rgb_to_yuv(),
        ColorTransformProgram::rgb_to_a710(),
        ColorTransformProgram::bgr_to_a710(),
        ColorTransformProgram::yuv444_to_yuv444(),
    ];
    for quality in [gfwx::header::QUALITY_MAX, 512] {
        let header = rgb_header(quality);
        for program in programs.iter() {
            let mut aux = vec![0i16; image.len()];
            program.transform(&image, &header, &mut aux);
            let mut back = vec![0u8; image.len()];
            program.detransform(&mut aux, &header, 6, &mut back);
            assert_eq!(back, image);
        }
    }
}

#[test]
fn test_program_roundtrip() {
    let mut program = ColorTransformProgram::new();
    program
        .add_channel_transform(
            ChannelTransformBuilder::with_dest_channel(3)
                .add_channel_factor(0, -5)
                .add_channel_factor(2, 300)
                .set_denominator(7)
                .set_chroma()
                .build(),
        )
        .add_channel_transform(ChannelTransformBuilder::with_dest_channel(1).build());
    let mut buffer: Vec<u8> = vec![];
    let flags = program.encode(4, &mut buffer).unwrap();
    assert_eq!(flags, vec![false, false, false, true]);
    buffer.extend_from_slice(&[9, 9, 9, 9]);
    let mut is_chroma = vec![false; 4];
    let (decoded, _) = ColorTransformProgram::decode(&buffer, &mut is_chroma).unwrap();
    assert_eq!(decoded, program);
    assert_eq!(is_chroma, vec![false, false, false, true]);
}

#[test]
fn test_lossless_lift() {
    for filter in [gfwx::header::Filter::Linear, gfwx::header::Filter::Cubic] {
        let mut header = rgb_header(gfwx::header::QUALITY_MAX);
        header.width = 12;
        header.height = 8;
        header.channels = 2;
        header.filter = filter;
        header.channel_size = 96;
        header.image_size = 192;
        let original: Vec<i16> = (0..192).map(|i| ((i * 37) % 255) as i16 - 100).collect();
        let mut aux = original.clone();
        let is_chroma = [false, false];
        lift_and_quantize(&mut aux, &header, &is_chroma);
        unlift_and_dequantize(&mut aux, &header, &is_chroma, 0);
        assert_eq!(aux, original);
    }
}

#[test]
fn test_lossless_simple() {
    let builder = HeaderBuilder {
        width: 13,
        height: 9,
        layers: 1,
        channels: 3,
        quality: gfwx::QUALITY_MAX,
        chroma_scale: 1,
        block_size: gfwx::BLOCK_DEFAULT,
        filter: gfwx::Filter::Cubic,
        encoder: Encoder::Contextual,
        intent: gfwx::Intent::RGB,
        metadata_size: 0,
    };
    let header = builder.build().unwrap();
    let image: Vec<u8> = (0..header.get_image_size()).map(|i| ((i * 29 + i / 7) % 256) as u8).collect();
    let mut buffer = vec![0u8; image.len() * 4];
    let size = compress_simple(
        &image,
        &header,
        &gfwx::ColorTransformProgram::rgb_to_yuv(),
        &mut buffer,
    )
    .unwrap();
    let mut header_bytes: Vec<u8> = vec![];
    header.encode(&mut header_bytes).unwrap();
    let mut output = vec![0u8; image.len()];
    decompress_simple(&buffer[header_bytes.len()..size], &header, 0, false, &mut output).unwrap();
    assert_eq!(output, image);
}

#[test]
fn test_block_roundtrip_large_quality() {
    // A quality far above the 16-bit range, as long as quality times step
    // stays on 32 bits for the turbo coder.
    assert_eq!(roundtrip(Encoder::Contextual, 1 << 24, true, false), sample_image());
    assert_eq!(roundtrip(Encoder::Turbo, 1 << 20, true, false), sample_image());
    assert_eq!(roundtrip(Encoder::Turbo, -(1 << 20), false, true), sample_image());
}
