//! Chunks that the transform coder stored.

use openexr::b44::{build_log_table, LogTable};
use openexr::dwa::{join_pieces, read_dwa_chunk, DwaChunk, DwaPieces};
use openexr::dwa_rules::{
    build_lossy_sets, classify_wire, default_rules, legacy_rules, parse_rule_block, DwaScheme,
    LossySet,
};
use openexr::dwa_streams::HEADER_BYTES;
use openexr::dwa_tables::{
    compute_luts, zigzag_raster, zigzag_scan, PerceptualTables, DCT_A, DCT_B, DCT_C, DCT_D, DCT_E,
    DCT_F, DCT_G,
};
use openexr::dwa_write::{split_chunk, store_chunk};
use openexr::error::ExrError;
use openexr::flat::{decode_scanline_chunk, finish_lossy_chunk, ChunkRead};
use openexr::flat_image::ExrPlane;
use openexr::half::{f32_to_half, half_to_f32};
use openexr::types::{Channel, Compression, PixelType};

// ----------------------------------------------------------------------
// The arithmetic between samples and coefficients
// ----------------------------------------------------------------------
fn wide(h: u16) -> f32 {
    f32::from_bits(half_to_f32(h))
}

fn narrow(v: f32) -> u16 {
    f32_to_half(v.to_bits())
}

fn tables() -> PerceptualTables {
    let curve = |f: fn(f64) -> f64| -> Vec<u16> {
        (1u16..=0x7bff)
            .map(|x| narrow(f(f64::from(wide(x))) as f32))
            .collect()
    };
    let nonlinear = curve(|mag| {
        if mag <= 1.0 {
            mag.powf(1.0 / 2.2)
        } else {
            mag.ln() / 2.2 + 1.0
        }
    });
    let linear = curve(|mag| {
        if mag <= 1.0 {
            mag.powf(2.2)
        } else {
            9.025_013_291_56_f64.powf(mag - 1.0)
        }
    });
    compute_luts(&nonlinear, &linear)
}

const QUANT_Y: [u16; 64] = [
    16, 11, 10, 16, 24, 40, 51, 61, 12, 12, 14, 19, 26, 58, 60, 55, 14, 13, 16, 24, 40, 57, 69, 56,
    14, 17, 22, 29, 51, 87, 80, 62, 18, 22, 37, 56, 68, 109, 103, 77, 24, 35, 55, 64, 81, 104, 113,
    92, 49, 64, 78, 87, 103, 121, 120, 101, 72, 92, 95, 98, 112, 100, 103, 99,
];

const QUANT_CBCR: [u16; 64] = [
    17, 18, 24, 47, 99, 99, 99, 99, 18, 21, 26, 66, 99, 99, 99, 99, 24, 26, 56, 99, 99, 99, 99, 99,
    47, 66, 99, 99, 99, 99, 99, 99, 99, 99, 99, 99, 99, 99, 99, 99, 99, 99, 99, 99, 99, 99, 99, 99,
    99, 99, 99, 99, 99, 99, 99, 99, 99, 99, 99, 99, 99, 99, 99, 99,
];

const DEFAULT_DWA_LEVEL: f32 = 45.0;

fn factors() -> [f32; 7] {
    [DCT_A, DCT_B, DCT_C, DCT_D, DCT_E, DCT_F, DCT_G].map(f32::from_bits)
}

fn idct8(v: &mut [f32; 64], base: usize, s: usize) {
    let [a, b, c, d, e, f, g] = factors();
    let x: Vec<f32> = (0..8).map(|i| v[base + i * s]).collect();
    let s0 = a * (x[0] + x[4]);
    let s1 = a * (x[0] - x[4]);
    let r0 = c * x[2] + f * x[6];
    let r1 = f * x[2] - c * x[6];
    let (g0, g3, g1, g2) = (s0 + r0, s0 - r0, s1 + r1, s1 - r1);
    let o0 = b * x[1] + d * x[3] + e * x[5] + g * x[7];
    let o1 = d * x[1] - g * x[3] - b * x[5] - e * x[7];
    let o2 = e * x[1] - b * x[3] + g * x[5] + d * x[7];
    let o3 = g * x[1] - e * x[3] + d * x[5] - b * x[7];
    v[base] = g0 + o0;
    v[base + 7 * s] = g0 - o0;
    v[base + s] = g1 + o1;
    v[base + 6 * s] = g1 - o1;
    v[base + 2 * s] = g2 + o2;
    v[base + 5 * s] = g2 - o2;
    v[base + 3 * s] = g3 + o3;
    v[base + 4 * s] = g3 - o3;
}

fn fdct8(v: &mut [f32; 64], base: usize, s: usize) {
    let [a, b, c, d, e, f, g] = factors();
    let x: Vec<f32> = (0..8).map(|i| v[base + i * s]).collect();
    let (t0, t1, t2, t3) = (x[0] + x[7], x[1] + x[6], x[2] + x[5], x[3] + x[4]);
    let (u0, u1, u2, u3) = (x[0] - x[7], x[1] - x[6], x[2] - x[5], x[3] - x[4]);
    let (s0, s1, r0, r1) = (t0 + t3, t1 + t2, t0 - t3, t1 - t2);
    v[base] = a * (s0 + s1);
    v[base + 4 * s] = a * (s0 - s1);
    v[base + 2 * s] = c * r0 + f * r1;
    v[base + 6 * s] = f * r0 - c * r1;
    v[base + s] = b * u0 + d * u1 + e * u2 + g * u3;
    v[base + 3 * s] = d * u0 - g * u1 - b * u2 - e * u3;
    v[base + 5 * s] = e * u0 - b * u1 + g * u2 + d * u3;
    v[base + 7 * s] = g * u0 - e * u1 + d * u2 - b * u3;
}

fn numbers(unit: &[u32]) -> [f32; 64] {
    let mut block = [0.0f32; 64];
    for (b, &v) in block.iter_mut().zip(unit) {
        *b = f32::from_bits(v);
    }
    block
}

fn samples_of(unit: &[u32]) -> [f32; 64] {
    let mut block = numbers(unit);
    for row in 0..8 {
        idct8(&mut block, row * 8, 1);
    }
    for col in 0..8 {
        idct8(&mut block, col, 8);
    }
    block
}

fn quantize(c: f32, tol: f32) -> u16 {
    if c.abs() <= tol {
        return 0;
    }
    let base = narrow(c);
    let mut best = base;
    for k in 1..=10u16 {
        let cand = base & !((1u16 << k) - 1);
        if (wide(cand) - c).abs() <= tol {
            best = cand;
        } else {
            break;
        }
    }
    best
}

fn codes_of(mut block: [f32; 64], first: bool) -> Vec<u16> {
    for row in 0..8 {
        fdct8(&mut block, row * 8, 1);
    }
    for col in 0..8 {
        fdct8(&mut block, col, 8);
    }
    let error = DEFAULT_DWA_LEVEL / 100_000.0;
    (0..64)
        .map(|i| {
            let tol = if first {
                error * QUANT_Y[i] as f32 / 10.0
            } else {
                error * QUANT_CBCR[i] as f32 / 17.0
            };
            quantize(block[i], tol)
        })
        .collect()
}

fn bits(block: [f32; 64]) -> Vec<u32> {
    block.iter().map(|v| v.to_bits()).collect()
}

struct ChunkShape<'a> {
    sorted_channels: &'a [Channel],
    width: u32,
    block_y0: u32,
    lines_in_block: u32,
}

fn dwa_compress(raw: &[u8], shape: &ChunkShape) -> Result<Vec<u8>, ExrError> {
    let (chs, w, y0, n) = (
        shape.sorted_channels,
        shape.width,
        shape.block_y0,
        shape.lines_in_block,
    );
    let pieces = split_chunk(raw, chs, w, y0, n, &tables());
    let mut codes: Vec<Vec<Vec<u16>>> = Vec::new();
    for (set, units) in pieces.sets.iter().zip(&pieces.units) {
        let count = set.component_count();
        let mut list = Vec::new();
        for group in units.chunks(count) {
            let mut blocks: Vec<[f32; 64]> = group.iter().map(|u| numbers(u)).collect();
            if count == 3 {
                for i in 0..64 {
                    let (r, g, b) = (blocks[0][i], blocks[1][i], blocks[2][i]);
                    blocks[0][i] = 0.2126 * r + 0.7152 * g + 0.0722 * b;
                    blocks[1][i] = -0.1146 * r - 0.3854 * g + 0.5 * b;
                    blocks[2][i] = 0.5 * r - 0.4542 * g - 0.0458 * b;
                }
            }
            for (k, block) in blocks.into_iter().enumerate() {
                list.push(codes_of(block, k == 0));
            }
        }
        codes.push(list);
    }
    store_chunk(&pieces, &codes, chs, w, y0, n)
}

/// Turn the coefficients of a chunk into samples.
fn restore(pieces: &mut DwaPieces) {
    for (set, units) in pieces.sets.iter().zip(pieces.units.iter_mut()) {
        let count = set.component_count();
        for group in units.chunks_mut(count) {
            let mut blocks: Vec<[f32; 64]> = group.iter().map(|u| samples_of(u)).collect();
            if count == 3 {
                for i in 0..64 {
                    let (y, c1, c2) = (blocks[0][i], blocks[1][i], blocks[2][i]);
                    blocks[0][i] = y + 1.5747 * c2;
                    blocks[1][i] = y - 0.1873 * c1 - 0.4682 * c2;
                    blocks[2][i] = y + 1.8556 * c1;
                }
            }
            for (unit, block) in group.iter_mut().zip(blocks) {
                *unit = bits(block);
            }
        }
    }
}

fn decode_dwa_payload(payload: &[u8], shape: &ChunkShape) -> Result<Vec<u8>, ExrError> {
    let (chs, w, y0, n) = (
        shape.sorted_channels,
        shape.width,
        shape.block_y0,
        shape.lines_in_block,
    );
    let mut pieces = match read_dwa_chunk(payload, chs, w, y0, n)? {
        DwaChunk::Raw(data) => return Ok(data),
        DwaChunk::Coded(pieces) => pieces,
    };
    restore(&mut pieces);
    Ok(join_pieces(&pieces, chs, w, y0, n, &tables()))
}

// ----------------------------------------------------------------------
// Tests
// ----------------------------------------------------------------------
fn ch(name: &str, pt: PixelType) -> Channel {
    Channel {
        name: name.to_string(),
        pixel_type: pt,
        p_linear: false,
        x_sampling: 1,
        y_sampling: 1,
    }
}

#[test]
fn lut_guards_and_anchors() {
    let t = tables();
    assert_eq!(t.to_nonlinear(0), 0);
    assert_eq!(t.to_linear(0), 0);
    for code in [0x7C00u16, 0x7C01, 0x7FFF, 0xFC00, 0xFFFF] {
        assert_eq!(t.to_nonlinear(code), 0, "code {code:#06x}");
        assert_eq!(t.to_linear(code), 0, "code {code:#06x}");
    }
    assert_eq!(t.to_nonlinear(0x3C00), 0x3C00);
    assert_eq!(t.to_linear(0x3C00), 0x3C00);
    assert_eq!(t.to_nonlinear(0x3800), 0x39D7);
    assert_eq!(t.to_linear(0x3800), 0x32F7);
    assert_eq!(t.to_nonlinear(0x4000), 0x3D43);
    assert_eq!(t.to_linear(0x4000), 0x4883);
    assert_eq!(t.to_nonlinear(0x0001), 0x1043);
    assert_eq!(t.to_linear(0x0001), 0x0000);
    assert_eq!(t.to_nonlinear(0x8001), 0x9043);
    assert_eq!(t.to_linear(0x8000 | 0x3800), 0x8000 | 0x32F7);
}

#[test]
fn fixed_entries_of_the_curves() {
    let t = tables();
    assert_eq!(t.to_linear(0x24f8), 0x099c);
    assert_eq!(t.to_linear(0xa4f8), 0x899c);
    assert_eq!(t.to_nonlinear(0x1919), 0x2c32);
    assert_eq!(t.to_nonlinear(0x422c), 0x3e0c);
    assert_eq!(t.to_nonlinear(0x9919), 0xac32);
    assert_eq!(t.to_nonlinear(0xc22c), 0xbe0c);
}

#[test]
fn dct_constants_match_staged_bits() {
    assert_eq!(DCT_A, 0x3eb5_04fb);
    assert_eq!(DCT_B, 0x3efb_14bf);
    assert_eq!(DCT_C, 0x3eec_8360);
    assert_eq!(DCT_D, 0x3ed4_db36);
    assert_eq!(DCT_E, 0x3e8e_39e5);
    assert_eq!(DCT_F, 0x3e43_ef33);
    assert_eq!(DCT_G, 0x3dc7_c60b);
}

#[test]
fn zigzag_is_a_permutation() {
    let order: Vec<usize> = (0..64).map(zigzag_raster).collect();
    let mut seen = [false; 64];
    for &r in order.iter() {
        assert!(!seen[r]);
        seen[r] = true;
    }
    assert!(seen.iter().all(|&s| s));
    assert_eq!(&order[..8], &[0, 1, 8, 16, 9, 2, 3, 10]);
    for k in 0..64 {
        assert_eq!(zigzag_scan(order[k]), k);
    }
}

#[test]
fn coefficients_stand_along_the_diagonals() {
    let place = |k: usize| (zigzag_raster(k) / 8, zigzag_raster(k) % 8);
    for k in 0..63 {
        let ((row, col), (next_row, next_col)) = (place(k), place(k + 1));
        if row + col == next_row + next_col {
            assert_eq!(next_row > row, (row + col) % 2 == 1, "{k}");
        } else {
            assert_eq!(row + col + 1, next_row + next_col, "{k}");
        }
    }
}

#[test]
fn classification_and_sets() {
    let channels = vec![
        ch("A", PixelType::Half),
        ch("B", PixelType::Half),
        ch("G", PixelType::Half),
        ch("R", PixelType::Half),
        ch("Z", PixelType::Float),
    ];
    let rules = default_rules();
    let classes: Vec<(DwaScheme, i8)> =
        channels.iter().map(|c| classify_wire(c, &rules)).collect();
    assert_eq!(classes[0], (DwaScheme::Rle, -1));
    assert_eq!(classes[1], (DwaScheme::LossyDct, 2));
    assert_eq!(classes[2], (DwaScheme::LossyDct, 1));
    assert_eq!(classes[3], (DwaScheme::LossyDct, 0));
    assert_eq!(classes[4], (DwaScheme::Verbatim, -1));
    let sets = build_lossy_sets(&channels, &classes);
    assert_eq!(sets.len(), 1);
    match &sets[0] {
        LossySet::Triple(r, g, b) => assert_eq!([*r, *g, *b], [3, 2, 1]),
        _ => panic!("expected a triple"),
    }
}

#[test]
fn legacy_rules_match_lowercase_names() {
    let rules = legacy_rules();
    let c = ch("green", PixelType::Half);
    assert_eq!(classify_wire(&c, &rules), (DwaScheme::LossyDct, 1));
    let c = ch("layer.RED", PixelType::Float);
    assert_eq!(classify_wire(&c, &rules), (DwaScheme::LossyDct, 0));
    let c = ch("A", PixelType::Half);
    assert_eq!(classify_wire(&c, &rules), (DwaScheme::Rle, -1));
}

#[test]
fn rule_block_roundtrip() {
    let channels = vec![
        ch("A", PixelType::Half),
        ch("B", PixelType::Half),
        ch("G", PixelType::Half),
        ch("R", PixelType::Half),
    ];
    let shape = ChunkShape {
        sorted_channels: &channels,
        width: 16,
        block_y0: 0,
        lines_in_block: 8,
    };
    let raw = vec![0u8; 16 * 8 * 2 * 4];
    let payload = dwa_compress(&raw, &shape).unwrap();
    let (rules, _) = parse_rule_block(&payload[HEADER_BYTES..]).unwrap();
    assert_eq!(rules.len(), 4);
    assert_eq!(rules[0].suffix, "R");
    assert_eq!(rules[0].csc_slot, 0);
    assert_eq!(rules[3].suffix, "A");
    assert_eq!(rules[3].scheme, DwaScheme::Rle);
}

#[test]
fn suffixes_that_are_not_text_are_mended() {
    // A block of eight bytes with one rule, whose suffix is a broken letter.
    let block = [8u8, 0, b'Q', 0xff, b'R', 0, 0b0000_0100, 1];
    let (rules, used) = parse_rule_block(&block).unwrap();
    assert_eq!(used, 8);
    assert_eq!(rules.len(), 1);
    assert_eq!(rules[0].suffix, "Q\u{fffd}R");
    assert_eq!(rules[0].scheme, DwaScheme::LossyDct);
}

fn roundtrip_close(
    channels: &[Channel],
    width: u32,
    lines: usize,
    raw: &[u8],
    tol: f32,
) -> Vec<u8> {
    let shape = ChunkShape {
        sorted_channels: channels,
        width,
        block_y0: 0,
        lines_in_block: lines as u32,
    };
    let payload = dwa_compress(raw, &shape).unwrap();
    assert_ne!(payload.len(), raw.len(), "ambiguous with raw fallback");
    let back = decode_dwa_payload(&payload, &shape).unwrap();
    assert_eq!(back.len(), raw.len());
    let mut rp = 0usize;
    for _line in 0..lines {
        for ch in channels {
            let nx = width as usize;
            match ch.pixel_type {
                PixelType::Half => {
                    for x in 0..nx {
                        let a = wide(u16::from_le_bytes([raw[rp + 2 * x], raw[rp + 2 * x + 1]]));
                        let b = wide(u16::from_le_bytes([back[rp + 2 * x], back[rp + 2 * x + 1]]));
                        assert!(
                            (a - b).abs() <= tol * a.abs().max(1.0),
                            "channel {} x {x}: {a} vs {b}",
                            ch.name
                        );
                    }
                    rp += nx * 2;
                }
                _ => {
                    rp += nx * ch.pixel_type.bytes_per_sample();
                }
            }
        }
    }
    back
}

#[test]
fn lossy_singleton_roundtrip_within_tolerance() {
    let channels = vec![ch("Y", PixelType::Half)];
    let (w, h) = (24usize, 16usize);
    let mut raw = Vec::with_capacity(w * h * 2);
    for i in 0..w * h {
        let v = 0.25 + ((i % 40) as f32) * 0.01;
        raw.extend_from_slice(&narrow(v).to_le_bytes());
    }
    roundtrip_close(&channels, w as u32, h, &raw, 0.02);
}

#[test]
fn rgb_triple_and_rle_alpha_roundtrip() {
    let channels = vec![
        ch("A", PixelType::Half),
        ch("B", PixelType::Half),
        ch("G", PixelType::Half),
        ch("R", PixelType::Half),
    ];
    let (w, h) = (16usize, 16usize);
    let mut raw = Vec::new();
    for row in 0..h {
        for c in 0..4 {
            for x in 0..w {
                let v = match c {
                    0 => (row * w + x) as f32 / (w * h) as f32,
                    1 => 0.75,
                    2 => 0.5 + 0.2 * (x as f32 / w as f32),
                    _ => 0.25,
                };
                raw.extend_from_slice(&narrow(v).to_le_bytes());
            }
        }
    }
    let back = roundtrip_close(&channels, w as u32, h, &raw, 0.05);
    for row in 0..h {
        let row_span = w * 2 * 4;
        let a0 = row * row_span;
        assert_eq!(
            &back[a0..a0 + w * 2],
            &raw[a0..a0 + w * 2],
            "A channel row {row} not lossless"
        );
    }
}

#[test]
fn verbatim_channels_are_lossless() {
    let channels = vec![ch("P", PixelType::Float), ch("Q", PixelType::Uint)];
    let (w, h) = (20usize, 12usize);
    let mut raw = Vec::new();
    for i in 0..w * h * 2 {
        raw.extend_from_slice(&((i * 2654435761) as u32).to_le_bytes());
    }
    let shape = ChunkShape {
        sorted_channels: &channels,
        width: w as u32,
        block_y0: 0,
        lines_in_block: h as u32,
    };
    let payload = dwa_compress(&raw, &shape).unwrap();
    let back = decode_dwa_payload(&payload, &shape).unwrap();
    assert_eq!(back, raw, "verbatim channels must be byte-exact");
}

fn log_table() -> LogTable {
    build_log_table(&[0; 0x7bff])
}

fn read_chunk(c: Compression, payload: &[u8], shape: &ChunkShape) -> Result<ChunkRead, ExrError> {
    decode_scanline_chunk(
        c,
        payload,
        shape.sorted_channels,
        shape.width,
        shape.block_y0,
        shape.lines_in_block as usize,
        &log_table(),
        &tables(),
    )
}

fn planes_of(read: ChunkRead) -> Vec<ExrPlane> {
    match read {
        ChunkRead::Planes(planes) => planes,
        _ => panic!("the chunk was handed back"),
    }
}

#[test]
fn chunks_without_lossy_channels_give_their_planes() {
    let channels = vec![ch("A", PixelType::Half), ch("Q", PixelType::Uint)];
    let (w, h) = (8u32, 4u32);
    let mut raw = Vec::new();
    for _ in 0..h {
        raw.extend((0..w).flat_map(|_| 0x3c00u16.to_le_bytes()));
        raw.extend((0..w).flat_map(|x| (x + 2).to_le_bytes()));
    }
    let shape = ChunkShape {
        sorted_channels: &channels,
        width: w,
        block_y0: 1,
        lines_in_block: h,
    };
    let payload = dwa_compress(&raw, &shape).unwrap();
    assert_ne!(payload.len(), raw.len());
    let planes = planes_of(read_chunk(Compression::Dwaa, &payload, &shape).unwrap());
    assert_eq!(planes[0].samples[..8], [0; 8]);
    assert_eq!(planes[0].samples[8..], [1.0f32.to_bits(); 32]);
    assert_eq!(planes[1].samples[8], 2.0f32.to_bits());
    assert_eq!(planes[1].samples[39], 9.0f32.to_bits());
    let cut = &payload[..payload.len() - 1];
    assert!(matches!(
        read_chunk(Compression::Dwab, cut, &shape),
        Err(ExrError::InvalidData(_))
    ));
}

#[test]
fn chunks_with_lossy_channels_are_finished_by_the_caller() {
    let channels = vec![ch("Y", PixelType::Half)];
    let raw: Vec<u8> = (0..8 * 8).flat_map(|_| narrow(0.5).to_le_bytes()).collect();
    let shape = ChunkShape {
        sorted_channels: &channels,
        width: 8,
        block_y0: 0,
        lines_in_block: 8,
    };
    let payload = dwa_compress(&raw, &shape).unwrap();
    let mut pieces = match read_chunk(Compression::Dwab, &payload, &shape).unwrap() {
        ChunkRead::Lossy(pieces) => pieces,
        _ => panic!("the chunk has a lossy channel"),
    };
    restore(&mut pieces);
    let got = finish_lossy_chunk(&pieces, &channels, 8, 0, 8, &log_table(), &tables()).unwrap();
    let lines = decode_dwa_payload(&payload, &shape).unwrap();
    let want = planes_of(read_chunk(Compression::Uncompressed, &lines, &shape).unwrap());
    assert_eq!(got, want);
    assert!((f32::from_bits(got[0].samples[0]) - 0.5).abs() < 0.02);
}

#[test]
fn rejects_bad_version_and_hostile_sizes() {
    let channels = vec![ch("Y", PixelType::Half)];
    let shape = ChunkShape {
        sorted_channels: &channels,
        width: 8,
        block_y0: 0,
        lines_in_block: 8,
    };
    let mut p = vec![0u8; 88];
    p[0] = 3;
    assert!(decode_dwa_payload(&p, &shape).is_err());
    let mut p = vec![0u8; 88];
    p[0] = 0;
    p[72..80].copy_from_slice(&5u64.to_le_bytes());
    assert!(decode_dwa_payload(&p, &shape).is_err());
    let mut p = vec![0u8; 88];
    p[16..24].copy_from_slice(&1000u64.to_le_bytes());
    assert!(decode_dwa_payload(&p, &shape).is_err());
}

#[test]
fn coefficients_are_read_back_exactly() {
    let channels = vec![ch("A", PixelType::Half), ch("Y", PixelType::Float)];
    let (w, y0, n) = (11u32, 3u32, 9u32);
    let mut raw = Vec::new();
    for i in 0..n * w {
        raw.extend_from_slice(&narrow(i as f32).to_le_bytes());
    }
    for i in 0..n * w {
        raw.extend_from_slice(&(i as f32 * 0.5).to_le_bytes());
    }
    let mut lines = Vec::new();
    for row in 0..n as usize {
        let (a, b) = (row * 22, 198 + row * 44);
        lines.extend_from_slice(&raw[a..a + 22]);
        lines.extend_from_slice(&raw[b..b + 44]);
    }
    let pieces = split_chunk(&lines, &channels, w, y0, n, &tables());
    assert_eq!(pieces.classes, vec![(DwaScheme::Rle, -1), (DwaScheme::LossyDct, -1)]);
    assert_eq!(pieces.sets, vec![LossySet::Single(1)]);
    assert_eq!(pieces.units.len(), 1);
    assert_eq!(pieces.units[0].len(), 4);
    let codes: Vec<Vec<Vec<u16>>> = vec![(0..4u16)
        .map(|t| (0..64u16).map(|i| if i % 5 == 0 { t * 100 + i } else { 0 }).collect())
        .collect()];
    let payload = store_chunk(&pieces, &codes, &channels, w, y0, n).unwrap();
    match read_dwa_chunk(&payload, &channels, w, y0, n).unwrap() {
        DwaChunk::Coded(back) => {
            assert_eq!(back.classes, pieces.classes);
            assert_eq!(back.rle, pieces.rle);
            assert_eq!(back.verbatim, pieces.verbatim);
            for t in 0..4 {
                for i in 0..64 {
                    assert_eq!(back.units[0][t][i], half_to_f32(codes[0][t][i]));
                }
            }
        }
        DwaChunk::Raw(_) => panic!("expected a coded chunk"),
    }
}

#[test]
fn a_chunk_as_long_as_its_lines_holds_them() {
    let channels = vec![ch("Y", PixelType::Half)];
    let raw: Vec<u8> = (0..128u8).collect();
    match read_dwa_chunk(&raw, &channels, 8, 0, 8).unwrap() {
        DwaChunk::Raw(data) => assert_eq!(data, raw),
        DwaChunk::Coded(_) => panic!("expected the lines"),
    }
}
