//! Blocks of sixteen halves.

use openexr::b44::{build_log_table, decode_b44_chunk, unpack14, unpack3, LogTable};
use openexr::half::{f32_to_half, half_to_f32};
use openexr::types::{Channel, PixelType};

fn log_table() -> LogTable {
    let logs: Vec<u16> = (1u16..=0x7bff)
        .map(|x| f32_to_half((8.0 * f32::from_bits(half_to_f32(x)).ln()).to_bits()))
        .collect();
    build_log_table(&logs)
}

fn channel(name: &str, pixel_type: PixelType, p_linear: bool) -> Channel {
    Channel {
        name: name.to_string(),
        pixel_type,
        p_linear,
        x_sampling: 1,
        y_sampling: 1,
    }
}

#[test]
fn log_table_sentinels() {
    let log = log_table();
    assert_eq!(log.code(0x8000), 0xfc00, "log[-0.0] should map to -inf half");
    assert_eq!(
        log.code(0x8001),
        0x0000,
        "log[smallest negative] should clamp to 0"
    );
    assert_eq!(log.code(0x0000), 0xfc00, "log[+0.0] should map to -inf half");
    assert_eq!(log.code(0x7c00), 0x0000, "log[+inf] should clamp to 0");
    assert_eq!(log.code(0xfc00), 0x0000, "log[-inf] should clamp to 0");
    assert_eq!(log.code(0x7e00), 0x0000, "log[NaN] should clamp to 0");
}

#[test]
fn log_table_holds_the_curve() {
    let log = log_table();
    assert_eq!(log.code(0x3c00), 0x0000);
    assert_eq!(log.code(0x4000), f32_to_half((8.0 * 2f32.ln()).to_bits()));
}

#[test]
fn flat_block_replicates() {
    let blk = [0xbcu8, 0x00, 0xfc];
    let s = unpack3(&blk);
    assert_eq!(s.len(), 16);
    for v in s {
        assert_eq!(v, 0x3c00, "flat block should recover HALF 1.0");
    }
}

fn constant_block(t0: u16) -> [u8; 14] {
    let mut b = [0u8; 14];
    b[0] = (t0 >> 8) as u8;
    b[1] = (t0 & 0xff) as u8;
    let r = [0x20u32; 15];
    let shift = 0u32;
    b[2] = ((shift << 2) | (r[0] >> 4)) as u8;
    b[3] = ((r[0] << 4) | (r[1] >> 2)) as u8;
    b[4] = ((r[1] << 6) | r[2]) as u8;
    b[5] = ((r[3] << 2) | (r[4] >> 4)) as u8;
    b[6] = ((r[4] << 4) | (r[5] >> 2)) as u8;
    b[7] = ((r[5] << 6) | r[6]) as u8;
    b[8] = ((r[7] << 2) | (r[8] >> 4)) as u8;
    b[9] = ((r[8] << 4) | (r[9] >> 2)) as u8;
    b[10] = ((r[9] << 6) | r[10]) as u8;
    b[11] = ((r[11] << 2) | (r[12] >> 4)) as u8;
    b[12] = ((r[12] << 4) | (r[13] >> 2)) as u8;
    b[13] = ((r[13] << 6) | r[14]) as u8;
    b
}

#[test]
fn constant_14byte_block_roundtrips_value() {
    let t0: u16 = 0xb800;
    let s = unpack14(&constant_block(t0));
    assert_eq!(s.len(), 16);
    for v in s {
        assert_eq!(v, 0x3800, "constant block should recover HALF 0.5");
    }
}

#[test]
fn a_step_down_the_first_column_lifts_the_rows_below() {
    let mut b = constant_block(0xb800);
    b[2] = 33 >> 4;
    b[3] = ((33u32 << 4) as u8) | (0x20 >> 2);
    let s = unpack14(&b);
    assert_eq!(s[..4], [0x3800; 4]);
    assert_eq!(s[4..], [0x3801; 12]);
}

#[test]
fn planes_are_cut_at_their_edges() {
    let log = log_table();
    let channels = [channel("Y", PixelType::Half, false)];
    let mut payload = Vec::new();
    payload.extend_from_slice(&constant_block(0xb800));
    payload.extend_from_slice(&[0xbc, 0x00, 0xfc]);
    let planes = decode_b44_chunk(&payload, &channels, 5, 0, 3, &log).unwrap();
    assert_eq!(planes.len(), 1);
    assert_eq!(planes[0].len(), 15);
    for y in 0..3 {
        for x in 0..5 {
            let want = if x < 4 { 0.5f32 } else { 1.0 };
            assert_eq!(f32::from_bits(planes[0][y * 5 + x]), want);
        }
    }
}

#[test]
fn linear_channels_go_through_the_log_curve() {
    let log = log_table();
    let channels = [channel("Y", PixelType::Half, true)];
    let payload = [0xbcu8, 0x00, 0xfc];
    let planes = decode_b44_chunk(&payload, &channels, 4, 0, 4, &log).unwrap();
    for &v in &planes[0] {
        assert_eq!(f32::from_bits(v), 0.0);
    }
}

#[test]
fn other_channels_are_stored_as_they_are() {
    let log = log_table();
    let channels = [
        channel("A", PixelType::Float, false),
        channel("B", PixelType::Uint, false),
    ];
    let mut payload = Vec::new();
    payload.extend_from_slice(&2.5f32.to_le_bytes());
    payload.extend_from_slice(&7u32.to_le_bytes());
    let planes = decode_b44_chunk(&payload, &channels, 1, 0, 1, &log).unwrap();
    assert_eq!(planes[0], vec![2.5f32.to_bits()]);
    assert_eq!(f32::from_bits(planes[1][0]), 7.0);
}

#[test]
fn blocks_that_are_cut_short_are_refused() {
    let log = log_table();
    let channels = [channel("Y", PixelType::Half, false)];
    assert!(decode_b44_chunk(&constant_block(0xb800)[..13], &channels, 4, 0, 4, &log).is_err());
    assert!(decode_b44_chunk(&[0xbc, 0x00], &channels, 4, 0, 4, &log).is_err());
}
