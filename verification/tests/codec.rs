//! End-to-end codec behaviour: encode/decode round trips under every
//! quantization level, the concrete reference scenarios, determinism, and the
//! pyramid shape the decoder enforces.

use hgi::{
    traverse_base, traverse_level, Crossed, Decoder, Encoder, Grid, InterpolationType, Linear,
    Metadata, QuantizationLevel,
};

fn test_image(width: u32, height: u32) -> Grid {
    let mut img = Grid::new(width, height);
    for y in 0u32..height {
        for x in 0u32..width {
            img.set((x, y), (x * y) as u8);
        }
    }
    img
}

fn test_metadata(level: QuantizationLevel, width: u32, height: u32, levels: usize) -> Metadata {
    Metadata {
        quantization_level: level,
        interpolation: InterpolationType::Crossed,
        width,
        height,
        scale_level: levels,
    }
}

fn expect_error(quantization_level: QuantizationLevel) {
    let levels: usize = 3;
    let (width, height) = (8u32, 8u32);
    let imgbuf = test_image(width, height);

    let quantizator = Linear::from(quantization_level);
    let interpolator = Crossed;
    let encoder = Encoder::new(interpolator, quantizator, levels);
    let grid = encoder.encode(&imgbuf);

    let metadata = test_metadata(quantization_level, width, height, levels);
    let decoder = Decoder::new(Crossed);
    let image = decoder.decode(&metadata, &grid).unwrap();

    let expected_error = quantization_level.max_error();
    for y in 0u32..height {
        for x in 0u32..width {
            let before = imgbuf.get(x, y) as i32;
            let after = image.get(x, y) as i32;
            let diff = (before - after).abs() as usize;
            assert!(diff <= expected_error as usize);
        }
    }
}

#[test]
fn lossless_compression() {
    expect_error(QuantizationLevel::Lossless);
}

#[test]
fn low_compression() {
    expect_error(QuantizationLevel::Low);
}

#[test]
fn medium_compression() {
    expect_error(QuantizationLevel::Medium);
}

#[test]
fn high_compression() {
    expect_error(QuantizationLevel::High);
}

#[test]
fn lossless_reproduces_every_byte() {
    let levels: usize = 3;
    let (width, height) = (8u32, 8u32);
    let imgbuf = test_image(width, height);
    let encoder = Encoder::new(Crossed, Linear::from(QuantizationLevel::Lossless), levels);
    let grid = encoder.encode(&imgbuf);
    let metadata = test_metadata(QuantizationLevel::Lossless, width, height, levels);
    let decoder = Decoder::new(Crossed);
    let image = decoder.decode(&metadata, &grid).unwrap();
    for y in 0u32..height {
        for x in 0u32..width {
            assert_eq!(image.get(x, y), imgbuf.get(x, y));
        }
    }
}

#[test]
fn encode_is_deterministic() {
    let levels: usize = 3;
    let imgbuf = test_image(8, 8);
    let encoder = Encoder::new(Crossed, Linear::from(QuantizationLevel::Medium), levels);
    let first = encoder.encode(&imgbuf);
    let encoder_again = Encoder::new(Crossed, Linear::from(QuantizationLevel::Medium), levels);
    let second = encoder_again.encode(&imgbuf);
    assert_eq!(first, second);
}

#[test]
fn pyramid_levels_match_traversal_counts() {
    let levels: usize = 3;
    let (width, height) = (8u32, 8u32);
    let imgbuf = test_image(width, height);
    let encoder = Encoder::new(Crossed, Linear::from(QuantizationLevel::Lossless), levels);
    let grid = encoder.encode(&imgbuf);
    assert_eq!(grid.len(), levels + 1);
    assert_eq!(grid[0].len(), traverse_base(levels, width, height).len());
    for level in 0usize..levels {
        assert_eq!(
            grid[level + 1].len(),
            traverse_level(level, levels, width, height).len()
        );
    }
    assert_eq!(grid[0].len(), 1);
    assert_eq!(grid[1].len(), 3);
    assert_eq!(grid[2].len(), 12);
    assert_eq!(grid[3].len(), 48);
}

#[test]
fn decode_rejects_missing_level() {
    let levels: usize = 3;
    let imgbuf = test_image(8, 8);
    let encoder = Encoder::new(Crossed, Linear::from(QuantizationLevel::Lossless), levels);
    let mut grid = encoder.encode(&imgbuf);
    grid.pop();
    let metadata = test_metadata(QuantizationLevel::Lossless, 8, 8, levels);
    let decoder = Decoder::new(Crossed);
    let res = decoder.decode(&metadata, &grid);
    assert_eq!(res.unwrap_err(), hgi::CodecError::ContractViolation);
}

#[test]
fn decode_rejects_short_level() {
    let levels: usize = 3;
    let imgbuf = test_image(8, 8);
    let encoder = Encoder::new(Crossed, Linear::from(QuantizationLevel::Lossless), levels);
    let mut grid = encoder.encode(&imgbuf);
    grid[2].pop();
    let metadata = test_metadata(QuantizationLevel::Lossless, 8, 8, levels);
    let decoder = Decoder::new(Crossed);
    let res = decoder.decode(&metadata, &grid);
    assert_eq!(res.unwrap_err(), hgi::CodecError::ContractViolation);
}

#[test]
fn decode_rejects_empty_image_metadata() {
    let levels: usize = 3;
    let imgbuf = test_image(8, 8);
    let encoder = Encoder::new(Crossed, Linear::from(QuantizationLevel::Lossless), levels);
    let grid = encoder.encode(&imgbuf);
    let metadata = test_metadata(QuantizationLevel::Lossless, 0, 8, levels);
    let decoder = Decoder::new(Crossed);
    let res = decoder.decode(&metadata, &grid);
    assert_eq!(res.unwrap_err(), hgi::CodecError::ContractViolation);
}

#[test]
fn larger_image_round_trips_losslessly() {
    let levels: usize = 4;
    let (width, height) = (21u32, 13u32);
    let mut imgbuf = Grid::new(width, height);
    for y in 0u32..height {
        for x in 0u32..width {
            imgbuf.set((x, y), (x * 7 + y * 31) as u8);
        }
    }
    let encoder = Encoder::new(Crossed, Linear::from(QuantizationLevel::Lossless), levels);
    let grid = encoder.encode(&imgbuf);
    let metadata = test_metadata(QuantizationLevel::Lossless, width, height, levels);
    let decoder = Decoder::new(Crossed);
    let image = decoder.decode(&metadata, &grid).unwrap();
    for y in 0u32..height {
        for x in 0u32..width {
            assert_eq!(image.get(x, y), imgbuf.get(x, y));
        }
    }
}

#[test]
fn deepest_pyramid_round_trips_losslessly() {
    // The deepest depth the 32-bit coordinate space admits: every level
    // coarser than the image contributes nothing, and the codec still
    // reconstructs exactly.
    let levels: usize = 31;
    let (width, height) = (8u32, 8u32);
    let imgbuf = test_image(width, height);
    let encoder = Encoder::new(Crossed, Linear::from(QuantizationLevel::Lossless), levels);
    let grid = encoder.encode(&imgbuf);
    assert_eq!(grid.len(), levels + 1);
    let metadata = test_metadata(QuantizationLevel::Lossless, width, height, levels);
    let decoder = Decoder::new(Crossed);
    let image = decoder.decode(&metadata, &grid).unwrap();
    for y in 0u32..height {
        for x in 0u32..width {
            assert_eq!(image.get(x, y), imgbuf.get(x, y));
        }
    }
}
