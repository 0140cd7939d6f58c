//! Flat images: lines and tiles, one part and several.

use openexr::b44::{build_log_table, LogTable};
use openexr::dwa_tables::{compute_luts, PerceptualTables};
use openexr::error::ExrError;
use openexr::flat::{decode_scanline_chunk, parse_exr, ChunkRead};
use openexr::flat_encode::{
    encode_exr_scanline, encode_exr_scanline_rgba_float, encode_exr_scanline_rgba_float_with,
};
use openexr::flat_levels::parse_exr_tiled_multilevel;
use openexr::flat_multi::parse_exr_multipart;
use openexr::flat_multi_tiled::{parse_exr_multipart_tiled, parse_exr_multipart_tiled_multilevel};
use openexr::flat_image::ExrPlane;
use openexr::half::{f32_to_half, half_to_f32};
use openexr::header::{encode_header, VersionField};
use openexr::pack::zlib_deflate;
use openexr::pxr24::pxr24_f32_to_code24;
use openexr::types::{
    Attribute, AttributeValue, Box2i, Channel, Compression, LineOrder, PixelType, TileDesc,
};

fn log_table() -> LogTable {
    let logs: Vec<u16> = (1u16..=0x7bff)
        .map(|x| f32_to_half((8.0 * f32::from_bits(half_to_f32(x)).ln()).to_bits()))
        .collect();
    build_log_table(&logs)
}

fn flat_tables() -> PerceptualTables {
    compute_luts(&[0; 0x7bff], &[0; 0x7bff])
}

/// Read a chunk that gives its planes.
fn read_planes(
    c: Compression,
    data: &[u8],
    channels: &[Channel],
    shape: (u32, u32, usize),
) -> Result<Vec<ExrPlane>, ExrError> {
    let (width, y0, n) = shape;
    let (log, tables) = (log_table(), flat_tables());
    match decode_scanline_chunk(c, data, channels, width, y0, n, &log, &tables)? {
        ChunkRead::Planes(planes) => Ok(planes),
        _ => panic!("the chunk was handed back"),
    }
}

fn channel(name: &str, pixel_type: PixelType, step: i32) -> Channel {
    Channel {
        name: name.to_string(),
        pixel_type,
        p_linear: false,
        x_sampling: step,
        y_sampling: step,
    }
}

fn attribute(name: &str, value: AttributeValue) -> Attribute {
    Attribute {
        name: name.to_string(),
        value,
    }
}

fn attributes(channels: &[Channel], w: i32, h: i32, compression: Compression) -> Vec<Attribute> {
    let window = Box2i {
        x_min: 0,
        y_min: 0,
        x_max: w - 1,
        y_max: h - 1,
    };
    vec![
        attribute("channels", AttributeValue::Channels(channels.to_vec())),
        attribute("compression", AttributeValue::Compression(compression)),
        attribute("dataWindow", AttributeValue::Box2i(window)),
        attribute("displayWindow", AttributeValue::Box2i(window)),
        attribute("lineOrder", AttributeValue::LineOrder(LineOrder::IncreasingY)),
        attribute("pixelAspectRatio", AttributeValue::Float(1.0f32.to_bits())),
        attribute("screenWindowCenter", AttributeValue::V2f(0, 0)),
        attribute("screenWindowWidth", AttributeValue::Float(1.0f32.to_bits())),
    ]
}

fn ramp(n: usize) -> Vec<u32> {
    (0..n).map(|i| (i as f32 * 0.25).to_bits()).collect()
}

// ----------------------------------------------------------------------
// Lines
// ----------------------------------------------------------------------
#[test]
fn lines_are_read_back() {
    let log = log_table();
    let (w, h) = (13u32, 21u32);
    let channels = vec![
        channel("A", PixelType::Half, 1),
        channel("B", PixelType::Float, 1),
        channel("C", PixelType::Uint, 1),
        channel("D", PixelType::Half, 2),
    ];
    let full = ramp(13 * 21);
    let whole: Vec<u32> = (0..13 * 21).map(|i| (i as f32).to_bits()).collect();
    let part = ramp(7 * 11);
    for compression in [
        Compression::Uncompressed,
        Compression::Rle,
        Compression::Zips,
        Compression::Zip,
    ] {
        let planes: Vec<&[u32]> = vec![&full, &full, &whole, &part];
        let attrs = attributes(&channels, w as i32, h as i32, compression);
        let bytes =
            encode_exr_scanline(w, h, &channels, &planes, compression, attrs.clone()).unwrap();
        let img = parse_exr(&bytes, &log).unwrap();
        assert_eq!((img.width(), img.height()), (w, h));
        assert_eq!(img.compression, compression);
        assert_eq!(img.channels, channels);
        assert_eq!(img.attributes, attrs);
        for (plane, want) in img.planes.iter().zip(&planes) {
            assert_eq!(plane.samples, want.to_vec(), "{:?} {}", compression, plane.name);
        }
    }
}

#[test]
fn short_samples_keep_their_upper_bits() {
    let log = log_table();
    let channels = vec![channel("Y", PixelType::Float, 1)];
    let exact: Vec<u32> = ramp(40);
    let rough: Vec<u32> = (0..40).map(|i| (1.0f32 + i as f32 / 3.0).to_bits()).collect();
    for (plane, is_exact) in [(exact, true), (rough, false)] {
        let attrs = attributes(&channels, 8, 5, Compression::Pxr24);
        let bytes =
            encode_exr_scanline(8, 5, &channels, &[&plane], Compression::Pxr24, attrs).unwrap();
        let img = parse_exr(&bytes, &log).unwrap();
        for (got, want) in img.planes[0].samples.iter().zip(&plane) {
            assert_eq!(got % 256, 0);
            assert!(got.abs_diff(*want) <= 128);
            assert!(!is_exact || got == want);
        }
    }
}

#[test]
fn infinities_keep_their_sign_in_24_bits() {
    let log = log_table();
    let channels = vec![channel("Y", PixelType::Float, 1)];
    let plane = vec![f32::NEG_INFINITY.to_bits(), f32::INFINITY.to_bits(), 0xff80_0001, 0xc000_0000];
    let attrs = attributes(&channels, 4, 1, Compression::Pxr24);
    let bytes = encode_exr_scanline(4, 1, &channels, &[&plane], Compression::Pxr24, attrs).unwrap();
    let img = parse_exr(&bytes, &log).unwrap();
    assert_eq!(img.planes[0].samples, vec![0xff80_0000, 0x7f80_0000, 0xff80_0100, 0xc000_0000]);
    assert_eq!(pxr24_f32_to_code24(0xff80_0000), 0xff_8000);
}

#[test]
fn integers_are_stored_rounded_to_the_nearest() {
    let channels = vec![channel("Z", PixelType::Uint, 1)];
    let plane = vec![8388609.0f32.to_bits()];
    let bytes =
        encode_exr_scanline(1, 1, &channels, &[&plane], Compression::Uncompressed, vec![]).unwrap();
    assert_eq!(bytes[bytes.len() - 4..], [0x01, 0x00, 0x80, 0x00]);
}

#[test]
fn what_cannot_be_written_is_refused() {
    let channels = vec![channel("Y", PixelType::Half, 1)];
    let plane = ramp(16);
    let attrs = || attributes(&channels, 4, 4, Compression::Piz);
    let refused = |chs: &[Channel], plane: &[u32], c: Compression| {
        encode_exr_scanline(4, 4, chs, &[plane], c, attrs()).unwrap_err()
    };
    assert!(matches!(
        refused(&channels, &plane, Compression::Piz),
        ExrError::Unsupported(_)
    ));
    assert!(matches!(
        refused(&channels, &plane[..15], Compression::Zip),
        ExrError::InvalidData(_)
    ));
    let wrong = vec![channel("Y", PixelType::Half, 0)];
    assert!(matches!(
        refused(&wrong, &plane, Compression::Zip),
        ExrError::InvalidData(_)
    ));
}

#[test]
fn pixels_of_four_numbers_are_read_back() {
    let log = log_table();
    let samples: Vec<u32> = (0..4 * 6)
        .map(|i| (i as f32 * 1.75 - 3.0).to_bits())
        .collect();
    let bytes = encode_exr_scanline_rgba_float(3, 2, &samples).unwrap();
    let packed = encode_exr_scanline_rgba_float_with(3, 2, &samples, Compression::Zip).unwrap();
    for data in [&bytes, &packed] {
        let img = parse_exr(data, &log).unwrap();
        let names: Vec<&str> = img.planes.iter().map(|p| p.name.as_str()).collect();
        assert_eq!(names, ["A", "B", "G", "R"]);
        for i in 0..6 {
            for (plane, k) in [(3, 0), (2, 1), (1, 2), (0, 3)] {
                assert_eq!(img.planes[plane].samples[i], samples[4 * i + k]);
            }
        }
    }
    assert!(encode_exr_scanline_rgba_float(3, 2, &samples[1..]).is_err());
}

#[test]
fn files_of_lines_that_are_cut_short_are_refused() {
    let log = log_table();
    let bytes = encode_exr_scanline_rgba_float(3, 2, &[0x3f80_0000; 24]).unwrap();
    for end in 0..bytes.len() {
        assert!(parse_exr(&bytes[..end], &log).is_err(), "{end}");
    }
}

#[test]
fn single_chunks_are_placed_below_blank_lines() {
    let channels = vec![channel("Y", PixelType::Half, 1)];
    let row: Vec<u8> = [0x3c00u16, 0x3800, 0x4000]
        .iter()
        .flat_map(|v| v.to_le_bytes())
        .collect();
    let planes = read_planes(Compression::Uncompressed, &row, &channels, (3, 2, 1)).unwrap();
    assert_eq!(planes.len(), 1);
    assert_eq!(planes[0].name, "Y");
    let want: Vec<u32> = [0.0f32, 0.0, 0.0, 0.0, 0.0, 0.0, 1.0, 0.5, 2.0]
        .iter()
        .map(|v| v.to_bits())
        .collect();
    assert_eq!(planes[0].samples, want);
    let refused = |c: Compression, data: &[u8], chs: &[Channel]| {
        read_planes(c, data, chs, (3, 2, 1)).unwrap_err()
    };
    for c in [Compression::Dwaa, Compression::Dwab] {
        let planes = read_planes(c, &row, &channels, (3, 2, 1)).unwrap();
        assert_eq!(planes[0].samples, want);
        assert!(matches!(refused(c, &row[1..], &channels), ExrError::InvalidData(_)));
    }
    assert!(matches!(
        refused(Compression::Uncompressed, &row[1..], &channels),
        ExrError::InvalidData(_)
    ));
    let wrong = vec![channel("Y", PixelType::Half, -1)];
    assert!(matches!(
        refused(Compression::Uncompressed, &row, &wrong),
        ExrError::InvalidData(_)
    ));
}

#[test]
fn packed_wavelets_are_handed_back() {
    let (log, tables) = (log_table(), flat_tables());
    let channels = vec![channel("Y", PixelType::Half, 1)];
    let read = decode_scanline_chunk(Compression::Piz, &[1], &channels, 3, 2, 1, &log, &tables);
    assert!(matches!(read, Ok(ChunkRead::Piz)));
    let wrong = vec![channel("Y", PixelType::Half, 0)];
    let read = decode_scanline_chunk(Compression::Piz, &[1], &wrong, 3, 2, 1, &log, &tables);
    assert!(matches!(read, Err(ExrError::InvalidData(_))));
}

#[test]
fn chunks_of_blocks_are_read() {
    let channels = vec![channel("Y", PixelType::Half, 1)];
    let data = [0xbc, 0x00, 0xfc];
    let planes = read_planes(Compression::B44a, &data, &channels, (4, 0, 4)).unwrap();
    assert_eq!(planes[0].samples, vec![1.0f32.to_bits(); 16]);
}

#[test]
fn chunks_of_short_samples_are_read() {
    let channels = vec![channel("Y", PixelType::Float, 1)];
    // Two samples of 1.0: the first is 0x3f8000 in 24 bits, the second is no
    // different.
    let data = [0x3fu8, 0, 0x80, 0, 0, 0];
    let planes = read_planes(Compression::Pxr24, &data, &channels, (2, 0, 1)).unwrap();
    assert_eq!(planes[0].samples, vec![1.0f32.to_bits(); 2]);
    let packed = zlib_deflate(&data).unwrap();
    let planes = read_planes(Compression::Pxr24, &packed, &channels, (2, 0, 1)).unwrap();
    assert_eq!(planes[0].samples, vec![1.0f32.to_bits(); 2]);
}

// ----------------------------------------------------------------------
// Tiles
// ----------------------------------------------------------------------
struct Tile {
    x: i32,
    y: i32,
    level: (i32, i32),
    samples: Vec<u16>,
}

fn tile_bytes(t: &Tile) -> Vec<u8> {
    let mut out = Vec::new();
    for v in [t.x, t.y, t.level.0, t.level.1, 2 * t.samples.len() as i32] {
        out.extend_from_slice(&v.to_le_bytes());
    }
    for v in &t.samples {
        out.extend_from_slice(&v.to_le_bytes());
    }
    out
}

/// A file with one part, in tiles of two by two.
fn tiled_file(w: i32, h: i32, level_mode: u8, tiles: &[Tile]) -> Vec<u8> {
    let channels = vec![channel("Y", PixelType::Half, 1)];
    let mut attrs = attributes(&channels, w, h, Compression::Uncompressed);
    attrs.push(attribute(
        "tiles",
        AttributeValue::TileDesc(TileDesc {
            x_size: 2,
            y_size: 2,
            level_mode,
            round_mode: 0,
        }),
    ));
    let mut out = encode_header(VersionField::from_u32(0x202), &attrs);
    let mut at = out.len() as u64 + 8 * tiles.len() as u64;
    let bodies: Vec<Vec<u8>> = tiles.iter().map(tile_bytes).collect();
    for b in &bodies {
        out.extend_from_slice(&at.to_le_bytes());
        at += b.len() as u64;
    }
    for b in &bodies {
        out.extend_from_slice(b);
    }
    out
}

fn half_plane(codes: &[u16]) -> Vec<u32> {
    codes.iter().map(|&c| half_to_f32(c)).collect()
}

fn full_tiles() -> Vec<Tile> {
    vec![
        Tile {
            x: 1,
            y: 0,
            level: (0, 0),
            samples: vec![0x4000, 0x4200],
        },
        Tile {
            x: 0,
            y: 0,
            level: (0, 0),
            samples: vec![0x3c00, 0x3800, 0x3400, 0x3000],
        },
    ]
}

#[test]
fn tiles_are_put_in_their_places() {
    let log = log_table();
    let bytes = tiled_file(3, 2, 0, &full_tiles());
    let img = parse_exr(&bytes, &log).unwrap();
    let want = half_plane(&[0x3c00, 0x3800, 0x4000, 0x3400, 0x3000, 0x4200]);
    assert_eq!(img.planes[0].samples, want);
    let mut outside = full_tiles();
    outside[0].x = 2;
    assert!(parse_exr(&tiled_file(3, 2, 0, &outside), &log).is_err());
    let mut short = full_tiles();
    short[0].samples.pop();
    assert!(parse_exr(&tiled_file(3, 2, 0, &short), &log).is_err());
}

#[test]
fn levels_are_read_apart() {
    let log = log_table();
    let mut tiles = full_tiles();
    tiles.push(Tile {
        x: 0,
        y: 0,
        level: (1, 1),
        samples: vec![0x4400],
    });
    let bytes = tiled_file(3, 2, 1, &tiles);
    let img = parse_exr_tiled_multilevel(&bytes, &log).unwrap();
    assert_eq!((img.tile_x, img.tile_y, img.level_mode), (2, 2, 1));
    assert_eq!(img.levels.len(), 2);
    assert_eq!((img.levels[0].width, img.levels[0].height), (3, 2));
    assert_eq!((img.levels[1].width, img.levels[1].height), (1, 1));
    let want = half_plane(&[0x3c00, 0x3800, 0x4000, 0x3400, 0x3000, 0x4200]);
    assert_eq!(img.levels[0].planes[0].samples, want);
    assert_eq!(img.levels[1].planes[0].samples, half_plane(&[0x4400]));
    let full = parse_exr(&bytes, &log).unwrap();
    assert_eq!(full.planes[0].samples, want);
    let mut wrong = tiles;
    wrong[2].level = (7, 7);
    assert!(parse_exr_tiled_multilevel(&tiled_file(3, 2, 1, &wrong), &log).is_err());
}

// ----------------------------------------------------------------------
// Several parts
// ----------------------------------------------------------------------
/// A file with several parts. Each has its attributes and its chunks without
/// the number of the part.
fn parts_file(parts: &[(Vec<Attribute>, Vec<Vec<u8>>)]) -> Vec<u8> {
    let mut out = encode_header(VersionField::from_u32(0x1002), &[]);
    out.pop();
    for (attrs, chunks) in parts {
        let mut attrs = attrs.clone();
        attrs.push(attribute("chunkCount", AttributeValue::Int(chunks.len() as i32)));
        out.extend_from_slice(&encode_header(VersionField::from_u32(0x1002), &attrs)[8..]);
    }
    out.push(0);
    let count: usize = parts.iter().map(|p| p.1.len()).sum();
    let mut at = out.len() as u64 + 8 * count as u64;
    for (_, chunks) in parts {
        for c in chunks {
            out.extend_from_slice(&at.to_le_bytes());
            at += 4 + c.len() as u64;
        }
    }
    for (i, (_, chunks)) in parts.iter().enumerate() {
        for c in chunks {
            out.extend_from_slice(&(i as i32).to_le_bytes());
            out.extend_from_slice(c);
        }
    }
    out
}

fn line_chunk(y: i32, codes: &[u16]) -> Vec<u8> {
    let mut out = Vec::new();
    out.extend_from_slice(&y.to_le_bytes());
    out.extend_from_slice(&(2 * codes.len() as i32).to_le_bytes());
    for c in codes {
        out.extend_from_slice(&c.to_le_bytes());
    }
    out
}

fn part_attributes(name: &str, kind: &str, w: i32, h: i32) -> Vec<Attribute> {
    let channels = vec![channel("Y", PixelType::Half, 1)];
    let mut attrs = attributes(&channels, w, h, Compression::Uncompressed);
    attrs.push(attribute("name", AttributeValue::String(name.to_string())));
    attrs.push(attribute("type", AttributeValue::String(kind.to_string())));
    attrs
}

#[test]
fn parts_of_lines_are_read_apart() {
    let log = log_table();
    let left = part_attributes("left", "scanlineimage", 2, 2);
    let right = part_attributes("right", "scanlineimage", 1, 1);
    let bytes = parts_file(&[
        (
            left.clone(),
            vec![line_chunk(1, &[3, 4]), line_chunk(0, &[1, 2])],
        ),
        (right, vec![line_chunk(0, &[0x3c00])]),
    ]);
    let parts = parse_exr_multipart(&bytes, &log).unwrap();
    assert_eq!(parts.len(), 2);
    assert_eq!(parts[0].planes[0].samples, half_plane(&[1, 2, 3, 4]));
    assert_eq!(parts[1].planes[0].samples, half_plane(&[0x3c00]));
    let mut blank = bytes.clone();
    let chunks: usize = bytes.len() - 2 * 16 - 14;
    for b in &mut blank[chunks - 24..chunks] {
        *b = 0;
    }
    assert_ne!(blank, bytes);
    assert_eq!(parse_exr_multipart(&blank, &log).unwrap(), parts);
    assert!(parse_exr_multipart(&bytes[..bytes.len() - 1], &log).is_err());
    assert!(parse_exr_multipart_tiled(&bytes, &log).is_err());
    let wrong = parts_file(&[(left, vec![line_chunk(2, &[3, 4])])]);
    assert!(parse_exr_multipart(&wrong, &log).is_err());
}

fn tiled_part(name: &str, level_mode: u8) -> Vec<Attribute> {
    let mut attrs = part_attributes(name, "tiledimage", 3, 2);
    attrs.push(attribute(
        "tiles",
        AttributeValue::TileDesc(TileDesc {
            x_size: 2,
            y_size: 2,
            level_mode,
            round_mode: 0,
        }),
    ));
    attrs
}

#[test]
fn parts_of_tiles_are_read_apart() {
    let log = log_table();
    let chunks: Vec<Vec<u8>> = full_tiles().iter().map(tile_bytes).collect();
    let bytes = parts_file(&[
        (tiled_part("a", 0), chunks.clone()),
        (tiled_part("b", 0), chunks.clone()),
    ]);
    let want = half_plane(&[0x3c00, 0x3800, 0x4000, 0x3400, 0x3000, 0x4200]);
    let parts = parse_exr_multipart_tiled(&bytes, &log).unwrap();
    assert_eq!(parts.len(), 2);
    for p in &parts {
        assert_eq!(p.planes[0].samples, want);
    }
    assert!(parse_exr_multipart_tiled(&bytes[..bytes.len() - 1], &log).is_err());
}

#[test]
fn parts_of_levels_are_read_apart() {
    let log = log_table();
    let mut tiles = full_tiles();
    tiles.push(Tile {
        x: 0,
        y: 0,
        level: (1, 1),
        samples: vec![0x4400],
    });
    let chunks: Vec<Vec<u8>> = tiles.iter().map(tile_bytes).collect();
    let bytes = parts_file(&[(tiled_part("a", 1), chunks)]);
    let parts = parse_exr_multipart_tiled_multilevel(&bytes, &log).unwrap();
    assert_eq!(parts.len(), 1);
    assert_eq!(parts[0].levels.len(), 2);
    assert_eq!(parts[0].levels[1].planes[0].samples, half_plane(&[0x4400]));
}
