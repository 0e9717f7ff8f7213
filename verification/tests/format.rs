//! The archive wire format, the traversal order, and the leaf components:
//! quantizer tables, the corner-cross predictor, and the pixel buffer.

use hgi::{
    traverse_base, traverse_level, Archive, CodecError, Crossed, CrossedValues, Encoder, Grid,
    InterpolationType, Interpolator, LeftTop, Linear, Metadata, NoOp, QuantizationLevel,
    Quantizator,
};

fn test_image(width: u32, height: u32) -> Grid {
    let mut img = Grid::new(width, height);
    for y in 0u32..height {
        for x in 0u32..width {
            img.set((x, y), (x * y) as u8);
        }
    }
    img
}

fn test_archive() -> Archive {
    let levels: usize = 3;
    let imgbuf = test_image(8, 8);
    let interpolator = Crossed;
    let quantizator = Linear::from(QuantizationLevel::Lossless);
    let encoder = Encoder::new(interpolator, quantizator, levels);
    let grid = encoder.encode(&imgbuf);
    let metadata = Metadata {
        quantization_level: QuantizationLevel::Lossless,
        interpolation: InterpolationType::Crossed,
        width: 8,
        height: 8,
        scale_level: levels,
    };
    Archive { metadata, grid }
}

#[test]
fn serde() {
    let archive = test_archive();
    let buffer = archive.serialize_to_bytes();
    let res = Archive::deserialize_from_bytes(&buffer);
    assert!(res.is_ok());
    assert_eq!(res.unwrap(), archive);
}

#[test]
fn magic_mismatch_is_format_error() {
    let archive = test_archive();
    let mut buffer = archive.serialize_to_bytes();
    buffer[0] = buffer[0].wrapping_add(1);
    let res = Archive::deserialize_from_bytes(&buffer);
    assert_eq!(res.unwrap_err(), CodecError::FormatError);
}

#[test]
fn garbage_with_wrong_magic_is_format_error() {
    let buffer: Vec<u8> = vec![0x00, 0x11, 0x22, 0x33, 0x44, 0x55, 0x66, 0x77];
    let res = Archive::deserialize_from_bytes(&buffer);
    assert_eq!(res.unwrap_err(), CodecError::FormatError);
}

#[test]
fn truncated_archive_is_serialization_error() {
    let archive = test_archive();
    let buffer = archive.serialize_to_bytes();
    let short: Vec<u8> = buffer[0..10].to_vec();
    let res = Archive::deserialize_from_bytes(&short);
    assert_eq!(res.unwrap_err(), CodecError::SerializationError);
    let tiny: Vec<u8> = buffer[0..3].to_vec();
    let res = Archive::deserialize_from_bytes(&tiny);
    assert_eq!(res.unwrap_err(), CodecError::SerializationError);
}

#[test]
fn corrupt_payload_is_serialization_error() {
    let archive = test_archive();
    let mut buffer = archive.serialize_to_bytes();
    // An impossible enum tag in the metadata.
    buffer[4] = 0xFF;
    let res = Archive::deserialize_from_bytes(&buffer);
    assert_eq!(res.unwrap_err(), CodecError::SerializationError);
}

#[test]
fn magic_bytes_are_little_endian() {
    let archive = test_archive();
    let buffer = archive.serialize_to_bytes();
    assert_eq!(buffer[0], 0x55);
    assert_eq!(buffer[1], 0xA5);
    assert_eq!(buffer[2], 0xAD);
    assert_eq!(buffer[3], 0xBA);
}

#[test]
fn traversal_order_small_grid() {
    // 4x4 image with two refinement levels.
    let base = traverse_base(2, 4, 4);
    assert_eq!(base, vec![(0, 0)]);
    let first = traverse_level(0, 2, 4, 4);
    assert_eq!(first, vec![(2, 0), (0, 2), (2, 2)]);
    let second = traverse_level(1, 2, 4, 4);
    assert_eq!(
        second,
        vec![
            (1, 0),
            (3, 0),
            (0, 1),
            (1, 1),
            (2, 1),
            (3, 1),
            (1, 2),
            (3, 2),
            (0, 3),
            (1, 3),
            (2, 3),
            (3, 3),
        ]
    );
}

#[test]
fn traversal_covers_grid_exactly_once() {
    let (width, height, levels) = (8u32, 8u32, 3usize);
    let mut seen = vec![0u32; (width * height) as usize];
    for c in traverse_base(levels, width, height) {
        seen[(c.1 * width + c.0) as usize] += 1;
    }
    for level in 0usize..levels {
        for c in traverse_level(level, levels, width, height) {
            seen[(c.1 * width + c.0) as usize] += 1;
        }
    }
    for count in seen {
        assert_eq!(count, 1);
    }
}

#[test]
fn linear_table_values() {
    let medium = Linear::from(QuantizationLevel::Medium);
    assert_eq!(medium.error(), 20);
    // Multiples of 41, the quantization bucket width for an error bound of 20.
    assert_eq!(medium.quantize(0), 0);
    assert_eq!(medium.quantize(20), 0);
    assert_eq!(medium.quantize(21), 41);
    assert_eq!(medium.quantize(41), 41);
    assert_eq!(medium.quantize(255), 246);
    let lossless = Linear::from(QuantizationLevel::Lossless);
    assert_eq!(lossless.error(), 0);
    for v in 0u32..256 {
        assert_eq!(lossless.quantize(v as u8), v as u8);
    }
}

#[test]
fn noop_quantizer_is_identity() {
    let q = NoOp::from(QuantizationLevel::High);
    assert_eq!(q.error(), 0);
    for v in 0u32..256 {
        assert_eq!(q.quantize(v as u8), v as u8);
    }
}

#[test]
fn max_error_values() {
    assert_eq!(QuantizationLevel::Lossless.max_error(), 0);
    assert_eq!(QuantizationLevel::Low.max_error(), 10);
    assert_eq!(QuantizationLevel::Medium.max_error(), 20);
    assert_eq!(QuantizationLevel::High.max_error(), 30);
}

#[test]
fn crossed_prediction_rounds_half_up() {
    let values = CrossedValues { left_top: 10, right_top: 20, left_bot: 30, right_bot: 40 };
    // left 20, right 30, top 15, bot 35; (20 + 30 + 15 + 35 + 1) / 4 = 25.
    assert_eq!(values.prediction(), 25);
    let flat = CrossedValues { left_top: 7, right_top: 7, left_bot: 7, right_bot: 7 };
    assert_eq!(flat.prediction(), 7);
    let extremes = CrossedValues { left_top: 255, right_top: 255, left_bot: 255, right_bot: 255 };
    assert_eq!(extremes.prediction(), 255);
}

#[test]
fn grid_stores_and_returns_pixels() {
    let mut grid = Grid::new(3, 2);
    assert_eq!(grid.width(), 3);
    assert_eq!(grid.height(), 2);
    assert_eq!(grid.get(2, 1), 0);
    grid.set((2, 1), 99);
    grid.set((0, 0), 17);
    assert_eq!(grid.get(2, 1), 99);
    assert_eq!(grid.get(0, 0), 17);
    assert_eq!(grid.get(1, 0), 0);
}

#[test]
fn lefttop_repeats_coarser_corner() {
    let mut surface = Grid::new(4, 4);
    surface.set((0, 0), 42);
    surface.set((2, 2), 7);
    // One refinement level deep: the enclosing coarser cell starts at (0, 0).
    assert_eq!(LeftTop.interpolate(1, 1, (1, 1), &surface), 42);
    // A point aligned to the coarser grid is its own corner.
    assert_eq!(LeftTop.interpolate(1, 1, (2, 2), &surface), 7);
}

#[test]
fn crossed_averages_cell_corners() {
    let mut surface = Grid::new(4, 4);
    surface.set((0, 0), 10);
    surface.set((0, 2), 20);
    surface.set((2, 0), 30);
    surface.set((2, 2), 40);
    // The cell around (1, 1) spans (0, 0) to (2, 2); its corner-cross
    // average is 25, as in the prediction test.
    assert_eq!(Crossed.interpolate(1, 1, (1, 1), &surface), 25);
    // At the right edge the out-of-range corners read as zero: the cell
    // corners are (2, 0)=30, (2, 2)=40, (4, 0)=0 and (4, 2)=0, so
    // left=(30+0+1)/2=15, right=(0+40+1)/2=20, top=(40+30+1)/2=35, bot=0,
    // and (15+20+35+0+1)/4 = 17.
    assert_eq!(Crossed.interpolate(1, 1, (3, 1), &surface), 17);
}

#[test]
fn linear_outputs_are_bucket_multiples() {
    for level in [
        QuantizationLevel::Lossless,
        QuantizationLevel::Low,
        QuantizationLevel::Medium,
        QuantizationLevel::High,
    ] {
        let q = Linear::from(level);
        let scale = 2 * (q.error() as u32) + 1;
        for v in 0u32..256 {
            assert_eq!((q.quantize(v as u8) as u32) % scale, 0);
        }
    }
}

#[test]
fn linear_quantization_is_idempotent() {
    for level in [
        QuantizationLevel::Lossless,
        QuantizationLevel::Low,
        QuantizationLevel::Medium,
        QuantizationLevel::High,
    ] {
        let q = Linear::from(level);
        for v in 0u32..256 {
            let once = q.quantize(v as u8);
            assert_eq!(q.quantize(once), once);
        }
    }
}
