//! Deep images: what is written is read back, and what cannot be is refused.

use openexr::deep::{encode_exr_deep_scanline, parse_exr_deep_scanline, DeepScanlineInput};
use openexr::deep_mipmap::{
    encode_exr_deep_tiled_mipmap, parse_exr_deep_tiled_mipmap, DeepMipmapTiledImage,
    DeepMipmapTiledInput, DeepMipmapTiledLevelInput,
};
use openexr::deep_multi::{
    encode_exr_multipart_deep_scanline, parse_exr_deep_multipart, MultipartDeepScanlinePart,
};
use openexr::deep_tiled::{encode_exr_deep_tiled, parse_exr_deep_tiled, DeepTiledInput};
use openexr::deep_tiled_multi::{
    encode_exr_multipart_deep_tiled, parse_exr_multipart_deep_tiled, DeepTiledPart,
    MultipartDeepTiledPart,
};
use openexr::header::{parse_multipart_headers, parse_single_header};
use openexr::mipmap::{mipmap_level_count, mipmap_level_dim};
use openexr::types::{Channel, Compression, PixelType, EXR_MAGIC};

fn mk_channels_rgba_half() -> Vec<Channel> {
    ["A", "B", "G", "R"]
        .iter()
        .map(|n| Channel {
            name: n.to_string(),
            pixel_type: PixelType::Half,
            p_linear: false,
            x_sampling: 1,
            y_sampling: 1,
        })
        .collect()
}

fn mk_channels_rgba_float() -> Vec<Channel> {
    ["A", "B", "G", "R"]
        .iter()
        .map(|n| Channel {
            name: n.to_string(),
            pixel_type: PixelType::Float,
            p_linear: false,
            x_sampling: 1,
            y_sampling: 1,
        })
        .collect()
}

fn synthetic_deep(w: u32, h: u32) -> (Vec<u32>, [Vec<u32>; 4]) {
    let pixels = (w * h) as usize;
    let mut spp = Vec::with_capacity(pixels);
    for i in 0..pixels {
        spp.push((i as u32) % 4);
    }
    let total: usize = spp.iter().sum::<u32>() as usize;
    let mut a = Vec::with_capacity(total);
    let mut b = Vec::with_capacity(total);
    let mut g = Vec::with_capacity(total);
    let mut r = Vec::with_capacity(total);
    let mut s = 0usize;
    for &n in &spp {
        for k in 0..n as usize {
            let t = (s + k) as f32;
            r.push((t * 0.125).fract().to_bits());
            g.push((t * 0.25).fract().to_bits());
            b.push((t * 0.5).fract().to_bits());
            a.push(if k == 0 { 1.0f32 } else { 0.5f32 }.to_bits());
        }
        s += n as usize;
    }
    (spp, [a, b, g, r])
}

#[test]
fn deep_scanline_roundtrip_none() {
    let (spp, planes) = synthetic_deep(8, 4);
    let input = DeepScanlineInput {
        width: 8,
        height: 4,
        channels: mk_channels_rgba_half(),
        samples_per_pixel: &spp,
        channel_samples: vec![&planes[0], &planes[1], &planes[2], &planes[3]],
        compression: Compression::Uncompressed,
    };
    let bytes = encode_exr_deep_scanline(&input).unwrap();
    let img = parse_exr_deep_scanline(&bytes).unwrap();
    assert_eq!(img.samples_per_pixel, spp);
    for (got, want) in img.channel_samples.iter().zip(planes.iter()) {
        assert_eq!(got, want);
    }
}

#[test]
fn deep_scanline_roundtrip_zips() {
    let (spp, planes) = synthetic_deep(16, 6);
    let input = DeepScanlineInput {
        width: 16,
        height: 6,
        channels: mk_channels_rgba_half(),
        samples_per_pixel: &spp,
        channel_samples: vec![&planes[0], &planes[1], &planes[2], &planes[3]],
        compression: Compression::Zips,
    };
    let bytes = encode_exr_deep_scanline(&input).unwrap();
    let img = parse_exr_deep_scanline(&bytes).unwrap();
    assert_eq!(img.samples_per_pixel, spp);
    for (got, want) in img.channel_samples.iter().zip(planes.iter()) {
        assert_eq!(got, want);
    }
}

#[test]
fn deep_scanline_roundtrip_zips_multiline() {
    let (spp, planes) = synthetic_deep(12, 20);
    let input = DeepScanlineInput {
        width: 12,
        height: 20,
        channels: mk_channels_rgba_half(),
        samples_per_pixel: &spp,
        channel_samples: vec![&planes[0], &planes[1], &planes[2], &planes[3]],
        compression: Compression::Zips,
    };
    let bytes = encode_exr_deep_scanline(&input).unwrap();
    let img = parse_exr_deep_scanline(&bytes).unwrap();
    assert_eq!(img.width(), 12);
    assert_eq!(img.height(), 20);
    assert_eq!(img.samples_per_pixel, spp);
    for (got, want) in img.channel_samples.iter().zip(planes.iter()) {
        assert_eq!(got, want);
    }
}

#[test]
fn deep_scanline_rejects_zip_compression() {
    let (spp, planes) = synthetic_deep(8, 4);
    let input = DeepScanlineInput {
        width: 8,
        height: 4,
        channels: mk_channels_rgba_half(),
        samples_per_pixel: &spp,
        channel_samples: vec![&planes[0], &planes[1], &planes[2], &planes[3]],
        compression: Compression::Zip,
    };
    let r = encode_exr_deep_scanline(&input);
    assert!(r.is_err(), "deep encoder must reject ZIP compression");
}

#[test]
fn deep_scanline_roundtrip_rle() {
    let (spp, planes) = synthetic_deep(10, 3);
    let input = DeepScanlineInput {
        width: 10,
        height: 3,
        channels: mk_channels_rgba_half(),
        samples_per_pixel: &spp,
        channel_samples: vec![&planes[0], &planes[1], &planes[2], &planes[3]],
        compression: Compression::Rle,
    };
    let bytes = encode_exr_deep_scanline(&input).unwrap();
    let img = parse_exr_deep_scanline(&bytes).unwrap();
    assert_eq!(img.samples_per_pixel, spp);
    for (got, want) in img.channel_samples.iter().zip(planes.iter()) {
        assert_eq!(got, want);
    }
}

#[test]
fn deep_scanline_rejects_flat_file() {
    let mut bytes = Vec::new();
    bytes.extend_from_slice(&EXR_MAGIC.to_le_bytes());
    bytes.extend_from_slice(&2u32.to_le_bytes());
    bytes.push(0);
    let r = parse_exr_deep_scanline(&bytes);
    assert!(r.is_err());
}

#[test]
fn deep_scanline_rejects_piz() {
    let (spp, planes) = synthetic_deep(2, 2);
    let input = DeepScanlineInput {
        width: 2,
        height: 2,
        channels: mk_channels_rgba_half(),
        samples_per_pixel: &spp,
        channel_samples: vec![&planes[0], &planes[1], &planes[2], &planes[3]],
        compression: Compression::Piz,
    };
    let r = encode_exr_deep_scanline(&input);
    assert!(r.is_err());
}

#[test]
fn deep_scanline_all_zero_samples() {
    let w = 4u32;
    let h = 2u32;
    let spp = vec![0u32; (w * h) as usize];
    let empty: Vec<u32> = Vec::new();
    let input = DeepScanlineInput {
        width: w,
        height: h,
        channels: mk_channels_rgba_float(),
        samples_per_pixel: &spp,
        channel_samples: vec![&empty, &empty, &empty, &empty],
        compression: Compression::Zips,
    };
    let bytes = encode_exr_deep_scanline(&input).unwrap();
    let img = parse_exr_deep_scanline(&bytes).unwrap();
    assert_eq!(img.samples_per_pixel, spp);
    for got in &img.channel_samples {
        assert!(got.is_empty());
    }
    assert_eq!(img.total_samples(), 0);
}

#[test]
fn deep_multipart_two_parts_roundtrip_zips_none() {
    let (spp_a, planes_a) = synthetic_deep(8, 4);
    let (spp_b, planes_b) = synthetic_deep(8, 4);
    let parts = vec![
        MultipartDeepScanlinePart {
            name: "partA".to_string(),
            width: 8,
            height: 4,
            channels: mk_channels_rgba_float(),
            samples_per_pixel: &spp_a,
            channel_samples: vec![&planes_a[0], &planes_a[1], &planes_a[2], &planes_a[3]],
            compression: Compression::Zips,
        },
        MultipartDeepScanlinePart {
            name: "partB".to_string(),
            width: 8,
            height: 4,
            channels: mk_channels_rgba_float(),
            samples_per_pixel: &spp_b,
            channel_samples: vec![&planes_b[0], &planes_b[1], &planes_b[2], &planes_b[3]],
            compression: Compression::Uncompressed,
        },
    ];
    let bytes = encode_exr_multipart_deep_scanline(&parts).unwrap();
    let got = parse_exr_deep_multipart(&bytes).unwrap();
    assert_eq!(got.len(), 2);
    assert_eq!(got[0].name, "partA");
    assert_eq!(got[0].compression, Compression::Zips);
    assert_eq!(got[0].samples_per_pixel, spp_a);
    for (c, w) in got[0].channel_samples.iter().zip(planes_a.iter()) {
        assert_eq!(c, w);
    }
    assert_eq!(got[1].name, "partB");
    assert_eq!(got[1].compression, Compression::Uncompressed);
    assert_eq!(got[1].samples_per_pixel, spp_b);
    for (c, w) in got[1].channel_samples.iter().zip(planes_b.iter()) {
        assert_eq!(c, w);
    }
}

#[test]
fn deep_multipart_three_parts_roundtrip_mixed_compression() {
    let (spp_a, planes_a) = synthetic_deep(6, 3);
    let (spp_b, planes_b) = synthetic_deep(6, 3);
    let (spp_c, planes_c) = synthetic_deep(6, 3);
    let parts = vec![
        MultipartDeepScanlinePart {
            name: "alpha".to_string(),
            width: 6,
            height: 3,
            channels: mk_channels_rgba_float(),
            samples_per_pixel: &spp_a,
            channel_samples: vec![&planes_a[0], &planes_a[1], &planes_a[2], &planes_a[3]],
            compression: Compression::Zips,
        },
        MultipartDeepScanlinePart {
            name: "beta".to_string(),
            width: 6,
            height: 3,
            channels: mk_channels_rgba_float(),
            samples_per_pixel: &spp_b,
            channel_samples: vec![&planes_b[0], &planes_b[1], &planes_b[2], &planes_b[3]],
            compression: Compression::Uncompressed,
        },
        MultipartDeepScanlinePart {
            name: "gamma".to_string(),
            width: 6,
            height: 3,
            channels: mk_channels_rgba_float(),
            samples_per_pixel: &spp_c,
            channel_samples: vec![&planes_c[0], &planes_c[1], &planes_c[2], &planes_c[3]],
            compression: Compression::Rle,
        },
    ];
    let bytes = encode_exr_multipart_deep_scanline(&parts).unwrap();
    let got = parse_exr_deep_multipart(&bytes).unwrap();
    assert_eq!(got.len(), 3);
    let expected_names = ["alpha", "beta", "gamma"];
    let expected_compressions = [Compression::Zips, Compression::Uncompressed, Compression::Rle];
    let expected_spp = [&spp_a, &spp_b, &spp_c];
    let expected_planes = [&planes_a, &planes_b, &planes_c];
    for (i, g) in got.iter().enumerate() {
        assert_eq!(g.name, expected_names[i]);
        assert_eq!(g.compression, expected_compressions[i]);
        assert_eq!(g.samples_per_pixel, **expected_spp[i]);
        for (gc, wc) in g.channel_samples.iter().zip(expected_planes[i].iter()) {
            assert_eq!(gc, wc, "{} channel mismatch", expected_names[i]);
        }
    }
}

#[test]
fn deep_multipart_multi_chunk_zips_roundtrip() {
    let (spp_a, planes_a) = synthetic_deep(10, 12);
    let (spp_b, planes_b) = synthetic_deep(10, 12);
    let parts = vec![
        MultipartDeepScanlinePart {
            name: "foo".to_string(),
            width: 10,
            height: 12,
            channels: mk_channels_rgba_float(),
            samples_per_pixel: &spp_a,
            channel_samples: vec![&planes_a[0], &planes_a[1], &planes_a[2], &planes_a[3]],
            compression: Compression::Zips,
        },
        MultipartDeepScanlinePart {
            name: "bar".to_string(),
            width: 10,
            height: 12,
            channels: mk_channels_rgba_float(),
            samples_per_pixel: &spp_b,
            channel_samples: vec![&planes_b[0], &planes_b[1], &planes_b[2], &planes_b[3]],
            compression: Compression::Zips,
        },
    ];
    let bytes = encode_exr_multipart_deep_scanline(&parts).unwrap();
    let got = parse_exr_deep_multipart(&bytes).unwrap();
    assert_eq!(got.len(), 2);
    assert_eq!(got[0].samples_per_pixel, spp_a);
    assert_eq!(got[1].samples_per_pixel, spp_b);
    for (g, want) in got[0].channel_samples.iter().zip(planes_a.iter()) {
        assert_eq!(g, want);
    }
    for (g, want) in got[1].channel_samples.iter().zip(planes_b.iter()) {
        assert_eq!(g, want);
    }
}

#[test]
fn deep_multipart_rejects_empty_parts() {
    let r = encode_exr_multipart_deep_scanline(&[]);
    assert!(r.is_err(), "must reject zero-part input");
}

#[test]
fn deep_multipart_rejects_duplicate_names() {
    let (spp, planes) = synthetic_deep(4, 2);
    let parts = vec![
        MultipartDeepScanlinePart {
            name: "dup".to_string(),
            width: 4,
            height: 2,
            channels: mk_channels_rgba_float(),
            samples_per_pixel: &spp,
            channel_samples: vec![&planes[0], &planes[1], &planes[2], &planes[3]],
            compression: Compression::Uncompressed,
        },
        MultipartDeepScanlinePart {
            name: "dup".to_string(),
            width: 4,
            height: 2,
            channels: mk_channels_rgba_float(),
            samples_per_pixel: &spp,
            channel_samples: vec![&planes[0], &planes[1], &planes[2], &planes[3]],
            compression: Compression::Uncompressed,
        },
    ];
    let r = encode_exr_multipart_deep_scanline(&parts);
    assert!(r.is_err(), "must reject duplicate part names");
}

#[test]
fn deep_multipart_rejects_zip_compression() {
    let (spp, planes) = synthetic_deep(4, 2);
    let parts = vec![MultipartDeepScanlinePart {
        name: "x".to_string(),
        width: 4,
        height: 2,
        channels: mk_channels_rgba_float(),
        samples_per_pixel: &spp,
        channel_samples: vec![&planes[0], &planes[1], &planes[2], &planes[3]],
        compression: Compression::Zip,
    }];
    let r = encode_exr_multipart_deep_scanline(&parts);
    assert!(
        r.is_err(),
        "must reject ZIP compression on multipart deep"
    );
}

#[test]
fn deep_multipart_all_zero_samples() {
    let spp = vec![0u32; 8];
    let empty: Vec<u32> = Vec::new();
    let parts = vec![MultipartDeepScanlinePart {
        name: "z".to_string(),
        width: 4,
        height: 2,
        channels: mk_channels_rgba_float(),
        samples_per_pixel: &spp,
        channel_samples: vec![&empty, &empty, &empty, &empty],
        compression: Compression::Zips,
    }];
    let bytes = encode_exr_multipart_deep_scanline(&parts).unwrap();
    let got = parse_exr_deep_multipart(&bytes).unwrap();
    assert_eq!(got.len(), 1);
    assert_eq!(got[0].samples_per_pixel, spp);
    for c in &got[0].channel_samples {
        assert!(c.is_empty());
    }
}

#[test]
fn deep_tiled_roundtrip_none_8x8_in_16x16() {
    let (spp, planes) = synthetic_deep(16, 16);
    let input = DeepTiledInput {
        width: 16,
        height: 16,
        tile_x: 8,
        tile_y: 8,
        channels: mk_channels_rgba_float(),
        samples_per_pixel: &spp,
        channel_samples: vec![&planes[0], &planes[1], &planes[2], &planes[3]],
        compression: Compression::Uncompressed,
    };
    let bytes = encode_exr_deep_tiled(&input).unwrap();
    let img = parse_exr_deep_tiled(&bytes).unwrap();
    assert_eq!(img.width(), 16);
    assert_eq!(img.height(), 16);
    assert_eq!(img.tile_x, 8);
    assert_eq!(img.tile_y, 8);
    assert_eq!(img.samples_per_pixel, spp);
    for (got, want) in img.channel_samples.iter().zip(planes.iter()) {
        assert_eq!(got, want);
    }
}

#[test]
fn deep_tiled_roundtrip_zips_8x4_in_24x12() {
    let (spp, planes) = synthetic_deep(24, 12);
    let input = DeepTiledInput {
        width: 24,
        height: 12,
        tile_x: 8,
        tile_y: 4,
        channels: mk_channels_rgba_float(),
        samples_per_pixel: &spp,
        channel_samples: vec![&planes[0], &planes[1], &planes[2], &planes[3]],
        compression: Compression::Zips,
    };
    let bytes = encode_exr_deep_tiled(&input).unwrap();
    let img = parse_exr_deep_tiled(&bytes).unwrap();
    assert_eq!(img.samples_per_pixel, spp);
    for (got, want) in img.channel_samples.iter().zip(planes.iter()) {
        assert_eq!(got, want);
    }
}

#[test]
fn deep_tiled_roundtrip_rle_edge_tiles_13x9_in_4x4() {
    let (spp, planes) = synthetic_deep(13, 9);
    let input = DeepTiledInput {
        width: 13,
        height: 9,
        tile_x: 4,
        tile_y: 4,
        channels: mk_channels_rgba_float(),
        samples_per_pixel: &spp,
        channel_samples: vec![&planes[0], &planes[1], &planes[2], &planes[3]],
        compression: Compression::Rle,
    };
    let bytes = encode_exr_deep_tiled(&input).unwrap();
    let img = parse_exr_deep_tiled(&bytes).unwrap();
    assert_eq!(img.width(), 13);
    assert_eq!(img.height(), 9);
    assert_eq!(img.samples_per_pixel, spp);
    for (got, want) in img.channel_samples.iter().zip(planes.iter()) {
        assert_eq!(got, want);
    }
}

#[test]
fn deep_tiled_rejects_zip_compression() {
    let (spp, planes) = synthetic_deep(4, 4);
    let input = DeepTiledInput {
        width: 4,
        height: 4,
        tile_x: 4,
        tile_y: 4,
        channels: mk_channels_rgba_float(),
        samples_per_pixel: &spp,
        channel_samples: vec![&planes[0], &planes[1], &planes[2], &planes[3]],
        compression: Compression::Zip,
    };
    let r = encode_exr_deep_tiled(&input);
    assert!(r.is_err(), "deep tiled encoder must reject ZIP compression");
}

#[test]
fn deep_tiled_rejects_zero_tile_size() {
    let spp = vec![0u32; 16];
    let empty: Vec<u32> = Vec::new();
    let input = DeepTiledInput {
        width: 4,
        height: 4,
        tile_x: 0,
        tile_y: 4,
        channels: mk_channels_rgba_float(),
        samples_per_pixel: &spp,
        channel_samples: vec![&empty, &empty, &empty, &empty],
        compression: Compression::Uncompressed,
    };
    assert!(encode_exr_deep_tiled(&input).is_err());
}

#[test]
fn deep_tiled_rejects_subsampled_channels() {
    let chs = vec![Channel {
        name: "Y".to_string(),
        pixel_type: PixelType::Float,
        p_linear: false,
        x_sampling: 2,
        y_sampling: 2,
    }];
    let spp = vec![0u32; 16];
    let empty: Vec<u32> = Vec::new();
    let input = DeepTiledInput {
        width: 4,
        height: 4,
        tile_x: 4,
        tile_y: 4,
        channels: chs,
        samples_per_pixel: &spp,
        channel_samples: vec![&empty],
        compression: Compression::Uncompressed,
    };
    assert!(encode_exr_deep_tiled(&input).is_err());
}

#[test]
fn deep_tiled_all_zero_samples_8x8_in_4x4() {
    let w = 8u32;
    let h = 8u32;
    let spp = vec![0u32; (w * h) as usize];
    let empty: Vec<u32> = Vec::new();
    let input = DeepTiledInput {
        width: w,
        height: h,
        tile_x: 4,
        tile_y: 4,
        channels: mk_channels_rgba_float(),
        samples_per_pixel: &spp,
        channel_samples: vec![&empty, &empty, &empty, &empty],
        compression: Compression::Zips,
    };
    let bytes = encode_exr_deep_tiled(&input).unwrap();
    let img = parse_exr_deep_tiled(&bytes).unwrap();
    assert_eq!(img.samples_per_pixel, spp);
    for c in &img.channel_samples {
        assert!(c.is_empty());
    }
    let v = u32::from_le_bytes(bytes[4..8].try_into().unwrap());
    assert_eq!(v & 0x800, 0x800, "non_image bit must be set");
    assert_eq!(v & 0x200, 0, "single_tile bit must NOT be set");
    assert_eq!(v & 0x1000, 0, "multipart bit must NOT be set");
}

#[test]
fn deep_tiled_parse_rejects_flat_file() {
    let mut bytes = Vec::new();
    bytes.extend_from_slice(&EXR_MAGIC.to_le_bytes());
    bytes.extend_from_slice(&(2u32 | 0x200).to_le_bytes());
    bytes.push(0);
    let r = parse_exr_deep_tiled(&bytes);
    assert!(r.is_err());
}

#[test]
fn deep_tiled_parse_rejects_scanline_deep() {
    let (spp, planes) = synthetic_deep(8, 4);
    let input = DeepScanlineInput {
        width: 8,
        height: 4,
        channels: mk_channels_rgba_float(),
        samples_per_pixel: &spp,
        channel_samples: vec![&planes[0], &planes[1], &planes[2], &planes[3]],
        compression: Compression::Uncompressed,
    };
    let bytes = encode_exr_deep_scanline(&input).unwrap();
    let r = parse_exr_deep_tiled(&bytes);
    assert!(r.is_err());
}

fn assert_mp_deep_tiled_part_roundtrip(
    part: &DeepTiledPart,
    spp: &[u32],
    planes: &[Vec<u32>; 4],
) {
    assert_eq!(part.samples_per_pixel, spp);
    for (ch_idx, plane) in planes.iter().enumerate() {
        let got = &part.channel_samples[ch_idx];
        assert_eq!(
            got.len(),
            plane.len(),
            "channel {ch_idx} sample-count mismatch"
        );
        for (i, (g, e)) in got.iter().zip(plane.iter()).enumerate() {
            assert_eq!(
                g, e,
                "channel {ch_idx} sample {i} mismatch: got {g} expected {e}"
            );
        }
    }
}

#[test]
fn mp_deep_tiled_two_parts_zips_roundtrip() {
    let (w, h, tx, ty) = (8u32, 6u32, 4u32, 3u32);
    let (spp0, planes0) = synthetic_deep(w, h);
    let (spp1, planes1) = synthetic_deep(w, h);
    let channels = mk_channels_rgba_float();
    let parts = vec![
        MultipartDeepTiledPart {
            name: "left".to_string(),
            width: w,
            height: h,
            tile_x: tx,
            tile_y: ty,
            channels: channels.clone(),
            samples_per_pixel: &spp0,
            channel_samples: vec![&planes0[0], &planes0[1], &planes0[2], &planes0[3]],
            compression: Compression::Zips,
        },
        MultipartDeepTiledPart {
            name: "right".to_string(),
            width: w,
            height: h,
            tile_x: tx,
            tile_y: ty,
            channels: channels.clone(),
            samples_per_pixel: &spp1,
            channel_samples: vec![&planes1[0], &planes1[1], &planes1[2], &planes1[3]],
            compression: Compression::Zips,
        },
    ];
    let bytes = encode_exr_multipart_deep_tiled(&parts).unwrap();
    let v = u32::from_le_bytes(bytes[4..8].try_into().unwrap());
    assert_eq!(v & 0x1000, 0x1000, "multipart bit must be set");
    assert_eq!(v & 0x800, 0x800, "non_image bit must be set");
    assert_eq!(v & 0x200, 0, "single_tile bit must NOT be set");

    let read = parse_exr_multipart_deep_tiled(&bytes).unwrap();
    assert_eq!(read.len(), 2);
    assert_eq!(read[0].name, "left");
    assert_eq!(read[1].name, "right");
    assert_eq!(read[0].tile_x, tx);
    assert_eq!(read[0].tile_y, ty);
    assert_mp_deep_tiled_part_roundtrip(&read[0], &spp0, &planes0);
    assert_mp_deep_tiled_part_roundtrip(&read[1], &spp1, &planes1);
}

#[test]
fn mp_deep_tiled_three_parts_mixed_compression_roundtrip() {
    let (w, h, tx, ty) = (12u32, 8u32, 4u32, 4u32);
    let (spp0, planes0) = synthetic_deep(w, h);
    let (spp1, planes1) = synthetic_deep(w, h);
    let (spp2, planes2) = synthetic_deep(w, h);
    let channels = mk_channels_rgba_float();
    let parts = vec![
        MultipartDeepTiledPart {
            name: "alpha".to_string(),
            width: w,
            height: h,
            tile_x: tx,
            tile_y: ty,
            channels: channels.clone(),
            samples_per_pixel: &spp0,
            channel_samples: vec![&planes0[0], &planes0[1], &planes0[2], &planes0[3]],
            compression: Compression::Uncompressed,
        },
        MultipartDeepTiledPart {
            name: "beta".to_string(),
            width: w,
            height: h,
            tile_x: tx,
            tile_y: ty,
            channels: channels.clone(),
            samples_per_pixel: &spp1,
            channel_samples: vec![&planes1[0], &planes1[1], &planes1[2], &planes1[3]],
            compression: Compression::Rle,
        },
        MultipartDeepTiledPart {
            name: "gamma".to_string(),
            width: w,
            height: h,
            tile_x: tx,
            tile_y: ty,
            channels: channels.clone(),
            samples_per_pixel: &spp2,
            channel_samples: vec![&planes2[0], &planes2[1], &planes2[2], &planes2[3]],
            compression: Compression::Zips,
        },
    ];
    let bytes = encode_exr_multipart_deep_tiled(&parts).unwrap();
    let read = parse_exr_multipart_deep_tiled(&bytes).unwrap();
    assert_eq!(read.len(), 3);
    assert_eq!(read[0].compression, Compression::Uncompressed);
    assert_eq!(read[1].compression, Compression::Rle);
    assert_eq!(read[2].compression, Compression::Zips);
    assert_mp_deep_tiled_part_roundtrip(&read[0], &spp0, &planes0);
    assert_mp_deep_tiled_part_roundtrip(&read[1], &spp1, &planes1);
    assert_mp_deep_tiled_part_roundtrip(&read[2], &spp2, &planes2);
}

#[test]
fn mp_deep_tiled_edge_tiles_roundtrip() {
    let (w, h, tx, ty) = (13u32, 9u32, 4u32, 3u32);
    let (spp0, planes0) = synthetic_deep(w, h);
    let (spp1, planes1) = synthetic_deep(w, h);
    let channels = mk_channels_rgba_float();
    let parts = vec![
        MultipartDeepTiledPart {
            name: "edge0".to_string(),
            width: w,
            height: h,
            tile_x: tx,
            tile_y: ty,
            channels: channels.clone(),
            samples_per_pixel: &spp0,
            channel_samples: vec![&planes0[0], &planes0[1], &planes0[2], &planes0[3]],
            compression: Compression::Zips,
        },
        MultipartDeepTiledPart {
            name: "edge1".to_string(),
            width: w,
            height: h,
            tile_x: tx,
            tile_y: ty,
            channels,
            samples_per_pixel: &spp1,
            channel_samples: vec![&planes1[0], &planes1[1], &planes1[2], &planes1[3]],
            compression: Compression::Rle,
        },
    ];
    let bytes = encode_exr_multipart_deep_tiled(&parts).unwrap();
    let read = parse_exr_multipart_deep_tiled(&bytes).unwrap();
    assert_eq!(read.len(), 2);
    assert_mp_deep_tiled_part_roundtrip(&read[0], &spp0, &planes0);
    assert_mp_deep_tiled_part_roundtrip(&read[1], &spp1, &planes1);
}

#[test]
fn mp_deep_tiled_rejects_empty_parts() {
    let r = encode_exr_multipart_deep_tiled(&[]);
    assert!(r.is_err());
}

#[test]
fn mp_deep_tiled_rejects_duplicate_names() {
    let (spp, planes) = synthetic_deep(4, 4);
    let channels = mk_channels_rgba_float();
    let parts = vec![
        MultipartDeepTiledPart {
            name: "dupe".to_string(),
            width: 4,
            height: 4,
            tile_x: 2,
            tile_y: 2,
            channels: channels.clone(),
            samples_per_pixel: &spp,
            channel_samples: vec![&planes[0], &planes[1], &planes[2], &planes[3]],
            compression: Compression::Zips,
        },
        MultipartDeepTiledPart {
            name: "dupe".to_string(),
            width: 4,
            height: 4,
            tile_x: 2,
            tile_y: 2,
            channels,
            samples_per_pixel: &spp,
            channel_samples: vec![&planes[0], &planes[1], &planes[2], &planes[3]],
            compression: Compression::Zips,
        },
    ];
    assert!(encode_exr_multipart_deep_tiled(&parts).is_err());
}

#[test]
fn mp_deep_tiled_rejects_deep_zip() {
    let (spp, planes) = synthetic_deep(4, 4);
    let parts = vec![MultipartDeepTiledPart {
        name: "zip".to_string(),
        width: 4,
        height: 4,
        tile_x: 2,
        tile_y: 2,
        channels: mk_channels_rgba_float(),
        samples_per_pixel: &spp,
        channel_samples: vec![&planes[0], &planes[1], &planes[2], &planes[3]],
        compression: Compression::Zip,
    }];
    assert!(encode_exr_multipart_deep_tiled(&parts).is_err());
}

#[test]
fn mp_deep_tiled_rejects_single_part_file() {
    let (spp, planes) = synthetic_deep(8, 4);
    let input = DeepTiledInput {
        width: 8,
        height: 4,
        tile_x: 4,
        tile_y: 2,
        channels: mk_channels_rgba_float(),
        samples_per_pixel: &spp,
        channel_samples: vec![&planes[0], &planes[1], &planes[2], &planes[3]],
        compression: Compression::Zips,
    };
    let bytes = encode_exr_deep_tiled(&input).unwrap();
    assert!(parse_exr_multipart_deep_tiled(&bytes).is_err());
}

#[test]
fn mp_deep_tiled_rejects_deep_scanline_multipart() {
    let (spp, planes) = synthetic_deep(6, 4);
    let scan_parts = vec![MultipartDeepScanlinePart {
        name: "scan".to_string(),
        width: 6,
        height: 4,
        channels: mk_channels_rgba_float(),
        samples_per_pixel: &spp,
        channel_samples: vec![&planes[0], &planes[1], &planes[2], &planes[3]],
        compression: Compression::Zips,
    }];
    let bytes = encode_exr_multipart_deep_scanline(&scan_parts).unwrap();
    assert!(parse_exr_multipart_deep_tiled(&bytes).is_err());
}

#[test]
fn mp_deep_tiled_all_zero_samples_roundtrip() {
    let (w, h, tx, ty) = (6u32, 6u32, 3u32, 3u32);
    let zero_spp: Vec<u32> = vec![0; (w * h) as usize];
    let empty: Vec<u32> = Vec::new();
    let (spp1, planes1) = synthetic_deep(w, h);
    let channels = mk_channels_rgba_float();
    let parts = vec![
        MultipartDeepTiledPart {
            name: "zero".to_string(),
            width: w,
            height: h,
            tile_x: tx,
            tile_y: ty,
            channels: channels.clone(),
            samples_per_pixel: &zero_spp,
            channel_samples: vec![&empty, &empty, &empty, &empty],
            compression: Compression::Zips,
        },
        MultipartDeepTiledPart {
            name: "nonzero".to_string(),
            width: w,
            height: h,
            tile_x: tx,
            tile_y: ty,
            channels,
            samples_per_pixel: &spp1,
            channel_samples: vec![&planes1[0], &planes1[1], &planes1[2], &planes1[3]],
            compression: Compression::Rle,
        },
    ];
    let bytes = encode_exr_multipart_deep_tiled(&parts).unwrap();
    let read = parse_exr_multipart_deep_tiled(&bytes).unwrap();
    assert_eq!(read.len(), 2);
    assert_eq!(read[0].samples_per_pixel, zero_spp);
    for c in &read[0].channel_samples {
        assert!(c.is_empty());
    }
    assert_mp_deep_tiled_part_roundtrip(&read[1], &spp1, &planes1);
}

fn synthetic_deep_mipmap(w0: u32, h0: u32) -> Vec<(Vec<u32>, [Vec<u32>; 4])> {
    let n_levels = mipmap_level_count(w0.max(h0), false);
    let mut out = Vec::with_capacity(n_levels as usize);
    for l in 0..n_levels {
        let lw = mipmap_level_dim(w0, l, false);
        let lh = mipmap_level_dim(h0, l, false);
        out.push(synthetic_deep(lw, lh));
    }
    out
}

fn build_deep_mipmap<'a>(
    w0: u32,
    h0: u32,
    levels: &'a [(Vec<u32>, [Vec<u32>; 4])],
    tile_x: u32,
    tile_y: u32,
    compression: Compression,
) -> DeepMipmapTiledInput<'a> {
    let mut pyramid: Vec<DeepMipmapTiledLevelInput<'a>> = Vec::with_capacity(levels.len());
    for (l, (spp, planes)) in levels.iter().enumerate() {
        let lw = mipmap_level_dim(w0, l as u32, false);
        let lh = mipmap_level_dim(h0, l as u32, false);
        pyramid.push(DeepMipmapTiledLevelInput {
            width: lw,
            height: lh,
            samples_per_pixel: spp,
            channel_samples: vec![&planes[0], &planes[1], &planes[2], &planes[3]],
        });
    }
    DeepMipmapTiledInput {
        tile_x,
        tile_y,
        channels: mk_channels_rgba_float(),
        pyramid,
        compression,
    }
}

fn assert_deep_mipmap_roundtrip(
    img: &DeepMipmapTiledImage,
    levels: &[(Vec<u32>, [Vec<u32>; 4])],
) {
    assert_eq!(img.level_count(), levels.len());
    for (l, (spp, planes)) in levels.iter().enumerate() {
        let lvl = &img.levels[l];
        assert_eq!(&lvl.samples_per_pixel, spp, "level {l} spp mismatch");
        for (ch_idx, plane) in planes.iter().enumerate() {
            assert_eq!(
                &lvl.channel_samples[ch_idx], plane,
                "level {l} ch {ch_idx} sample mismatch"
            );
        }
    }
}

#[test]
fn deep_mipmap_tiled_roundtrip_none_16x16_tile_8() {
    let (w0, h0) = (16u32, 16u32);
    let pyramid = synthetic_deep_mipmap(w0, h0);
    let input = build_deep_mipmap(w0, h0, &pyramid, 8, 8, Compression::Uncompressed);
    let bytes = encode_exr_deep_tiled_mipmap(&input).unwrap();
    let img = parse_exr_deep_tiled_mipmap(&bytes).unwrap();
    assert_eq!(img.width(), w0);
    assert_eq!(img.height(), h0);
    assert_eq!(img.tile_x, 8);
    assert_eq!(img.tile_y, 8);
    assert_deep_mipmap_roundtrip(&img, &pyramid);
}

#[test]
fn deep_mipmap_tiled_roundtrip_zips_24x16_tile_8x4() {
    let (w0, h0) = (24u32, 16u32);
    let pyramid = synthetic_deep_mipmap(w0, h0);
    let input = build_deep_mipmap(w0, h0, &pyramid, 8, 4, Compression::Zips);
    let bytes = encode_exr_deep_tiled_mipmap(&input).unwrap();
    let img = parse_exr_deep_tiled_mipmap(&bytes).unwrap();
    assert_deep_mipmap_roundtrip(&img, &pyramid);
}

#[test]
fn deep_mipmap_tiled_roundtrip_rle_edge_tiles_13x9_tile_4() {
    let (w0, h0) = (13u32, 9u32);
    let pyramid = synthetic_deep_mipmap(w0, h0);
    let input = build_deep_mipmap(w0, h0, &pyramid, 4, 4, Compression::Rle);
    let bytes = encode_exr_deep_tiled_mipmap(&input).unwrap();
    let img = parse_exr_deep_tiled_mipmap(&bytes).unwrap();
    assert_deep_mipmap_roundtrip(&img, &pyramid);
}

#[test]
fn deep_mipmap_tiled_rejects_zip_compression() {
    let (w0, h0) = (8u32, 8u32);
    let pyramid = synthetic_deep_mipmap(w0, h0);
    let input = build_deep_mipmap(w0, h0, &pyramid, 4, 4, Compression::Zip);
    assert!(encode_exr_deep_tiled_mipmap(&input).is_err());
}

#[test]
fn deep_mipmap_tiled_rejects_wrong_pyramid_length() {
    let (w0, h0) = (16u32, 16u32);
    let mut pyramid = synthetic_deep_mipmap(w0, h0);
    pyramid.truncate(3);
    let input = build_deep_mipmap(w0, h0, &pyramid, 8, 8, Compression::Zips);
    let r = encode_exr_deep_tiled_mipmap(&input);
    assert!(
        r.is_err(),
        "must reject pyramid with wrong number of levels"
    );
}

#[test]
fn deep_mipmap_tiled_rejects_subsampled_channels() {
    let (w0, h0) = (8u32, 8u32);
    let pyramid = synthetic_deep_mipmap(w0, h0);
    let mut input = build_deep_mipmap(w0, h0, &pyramid, 4, 4, Compression::Zips);
    input.channels = vec![Channel {
        name: "Y".to_string(),
        pixel_type: PixelType::Float,
        p_linear: false,
        x_sampling: 2,
        y_sampling: 2,
    }];
    assert!(encode_exr_deep_tiled_mipmap(&input).is_err());
}

#[test]
fn deep_mipmap_tiled_rejects_zero_tile_size() {
    let (w0, h0) = (8u32, 8u32);
    let pyramid = synthetic_deep_mipmap(w0, h0);
    let input = build_deep_mipmap(w0, h0, &pyramid, 0, 4, Compression::Zips);
    assert!(encode_exr_deep_tiled_mipmap(&input).is_err());
}

#[test]
fn deep_mipmap_tiled_rejects_empty_pyramid() {
    let input = DeepMipmapTiledInput {
        tile_x: 4,
        tile_y: 4,
        channels: mk_channels_rgba_float(),
        pyramid: Vec::new(),
        compression: Compression::Zips,
    };
    assert!(encode_exr_deep_tiled_mipmap(&input).is_err());
}

#[test]
fn parse_exr_deep_tiled_redirects_mipmap_to_new_entry() {
    let (w0, h0) = (8u32, 8u32);
    let pyramid = synthetic_deep_mipmap(w0, h0);
    let input = build_deep_mipmap(w0, h0, &pyramid, 4, 4, Compression::Zips);
    let bytes = encode_exr_deep_tiled_mipmap(&input).unwrap();
    let err = parse_exr_deep_tiled(&bytes).unwrap_err();
    let msg = err.message();
    assert!(
        msg.contains("parse_exr_deep_tiled_mipmap"),
        "expected pointer to parse_exr_deep_tiled_mipmap, got: {msg}"
    );
}

#[test]
fn parse_exr_deep_tiled_mipmap_rejects_one_level_file() {
    let (spp, planes) = synthetic_deep(8, 8);
    let one_level = DeepTiledInput {
        width: 8,
        height: 8,
        tile_x: 4,
        tile_y: 4,
        channels: mk_channels_rgba_float(),
        samples_per_pixel: &spp,
        channel_samples: vec![&planes[0], &planes[1], &planes[2], &planes[3]],
        compression: Compression::Zips,
    };
    let bytes = encode_exr_deep_tiled(&one_level).unwrap();
    let err = parse_exr_deep_tiled_mipmap(&bytes).unwrap_err();
    let msg = err.message();
    assert!(
        msg.contains("mode=0x00") || msg.contains("ONE_LEVEL"),
        "expected ONE_LEVEL rejection, got: {msg}"
    );
}

#[test]
fn deep_mipmap_tiled_non_power_of_two_16x12_tile_4() {
    let (w0, h0) = (16u32, 12u32);
    let pyramid = synthetic_deep_mipmap(w0, h0);
    let input = build_deep_mipmap(w0, h0, &pyramid, 4, 4, Compression::Zips);
    let bytes = encode_exr_deep_tiled_mipmap(&input).unwrap();
    let img = parse_exr_deep_tiled_mipmap(&bytes).unwrap();
    assert_eq!(img.level_count() as u32, std::cmp::max(w0, h0).ilog2() + 1);
    assert_deep_mipmap_roundtrip(&img, &pyramid);
}

#[test]
fn deep_mipmap_tiled_version_field_bits() {
    let (w0, h0) = (8u32, 8u32);
    let pyramid = synthetic_deep_mipmap(w0, h0);
    let input = build_deep_mipmap(w0, h0, &pyramid, 4, 4, Compression::Uncompressed);
    let bytes = encode_exr_deep_tiled_mipmap(&input).unwrap();
    let version = u32::from_le_bytes(bytes[4..8].try_into().unwrap());
    let bits = version & 0xFFFFFF00;
    assert_eq!(
        bits & 0x800,
        0x800,
        "non_image bit must be set for single-part deep tiled"
    );
    assert_eq!(
        bits & 0x1000,
        0,
        "multipart bit must NOT be set for single-part deep tiled"
    );
    assert_eq!(
        bits & 0x200,
        0,
        "single_tile bit must NOT be set for deep tiled \
         (type='deeptile' + tiles attribute carry the signal)"
    );
}

/// A copy of a file with one more `chunkCount` before its first one.
fn with_chunk_count(bytes: &[u8], count: i32) -> Vec<u8> {
    let key = b"chunkCount\0int\0";
    let at = (0..bytes.len() - key.len())
        .find(|&i| &bytes[i..i + key.len()] == key)
        .unwrap();
    let mut out = bytes[..at].to_vec();
    out.extend_from_slice(key);
    out.extend_from_slice(&4i32.to_le_bytes());
    out.extend_from_slice(&count.to_le_bytes());
    out.extend_from_slice(&bytes[at..]);
    out
}

#[test]
fn negative_chunk_counts_of_a_part_are_passed_over() {
    let (spp, planes) = synthetic_deep(6, 4);
    let parts = vec![MultipartDeepScanlinePart {
        name: "lines".to_string(),
        width: 6,
        height: 4,
        channels: mk_channels_rgba_float(),
        samples_per_pixel: &spp,
        channel_samples: vec![&planes[0], &planes[1], &planes[2], &planes[3]],
        compression: Compression::Rle,
    }];
    let bytes = encode_exr_multipart_deep_scanline(&parts).unwrap();
    let read = parse_exr_deep_multipart(&with_chunk_count(&bytes, -1)).unwrap();
    assert_eq!(read[0].samples_per_pixel, spp);
    assert_eq!(read[0].channel_samples[3], planes[3]);
    assert!(parse_exr_deep_multipart(&with_chunk_count(&bytes, 5)).is_err());
}

#[test]
fn a_single_part_goes_by_its_first_chunk_count() {
    let (spp, planes) = synthetic_deep(6, 4);
    let input = DeepScanlineInput {
        width: 6,
        height: 4,
        channels: mk_channels_rgba_float(),
        samples_per_pixel: &spp,
        channel_samples: vec![&planes[0], &planes[1], &planes[2], &planes[3]],
        compression: Compression::Uncompressed,
    };
    let bytes = encode_exr_deep_scanline(&input).unwrap();
    assert!(parse_exr_deep_scanline(&bytes).is_ok());
    assert!(parse_exr_deep_scanline(&with_chunk_count(&bytes, -1)).is_err());
}

/// A copy of a file with `n` entries of the offset table at `at` set to zero.
fn without_table(bytes: &[u8], at: usize, n: usize) -> Vec<u8> {
    let mut out = bytes.to_vec();
    for b in &mut out[at..at + 8 * n] {
        *b = 0;
    }
    assert_ne!(out, bytes);
    out
}

/// The position behind the header of a deep file with one part.
fn header_end(bytes: &[u8]) -> usize {
    parse_single_header(bytes, true).unwrap().end_offset
}

#[test]
fn tables_of_zeros_do_not_matter_to_levels() {
    let pyramid = synthetic_deep_mipmap(13, 9);
    let input = build_deep_mipmap(13, 9, &pyramid, 4, 4, Compression::Rle);
    let bytes = encode_exr_deep_tiled_mipmap(&input).unwrap();
    let chunks: u32 = (0..mipmap_level_count(13, false))
        .map(|l| {
            mipmap_level_dim(13, l, false).div_ceil(4) * mipmap_level_dim(9, l, false).div_ceil(4)
        })
        .sum();
    let blank = without_table(&bytes, header_end(&bytes), chunks as usize);
    assert_eq!(
        parse_exr_deep_tiled_mipmap(&blank).unwrap(),
        parse_exr_deep_tiled_mipmap(&bytes).unwrap()
    );
}

#[test]
fn tables_of_zeros_do_not_matter_to_tiles() {
    let (spp, planes) = synthetic_deep(8, 4);
    let input = DeepTiledInput {
        width: 8,
        height: 4,
        tile_x: 4,
        tile_y: 2,
        channels: mk_channels_rgba_float(),
        samples_per_pixel: &spp,
        channel_samples: vec![&planes[0], &planes[1], &planes[2], &planes[3]],
        compression: Compression::Zips,
    };
    let bytes = encode_exr_deep_tiled(&input).unwrap();
    let blank = without_table(&bytes, header_end(&bytes), 4);
    let img = parse_exr_deep_tiled(&blank).unwrap();
    assert_eq!(img, parse_exr_deep_tiled(&bytes).unwrap());
    assert_eq!(img.samples_per_pixel, spp);
}

#[test]
fn tables_of_zeros_do_not_matter_to_parts() {
    let (spp, planes) = synthetic_deep(6, 4);
    let lines = vec![MultipartDeepScanlinePart {
        name: "lines".to_string(),
        width: 6,
        height: 4,
        channels: mk_channels_rgba_float(),
        samples_per_pixel: &spp,
        channel_samples: vec![&planes[0], &planes[1], &planes[2], &planes[3]],
        compression: Compression::Rle,
    }];
    let bytes = encode_exr_multipart_deep_scanline(&lines).unwrap();
    let end = parse_multipart_headers(&bytes).unwrap()[0].end_offset;
    assert_eq!(
        parse_exr_deep_multipart(&without_table(&bytes, end, 4)).unwrap(),
        parse_exr_deep_multipart(&bytes).unwrap()
    );
    let tiles = vec![MultipartDeepTiledPart {
        name: "tiles".to_string(),
        width: 6,
        height: 4,
        tile_x: 3,
        tile_y: 4,
        channels: mk_channels_rgba_float(),
        samples_per_pixel: &spp,
        channel_samples: vec![&planes[0], &planes[1], &planes[2], &planes[3]],
        compression: Compression::Rle,
    }];
    let bytes = encode_exr_multipart_deep_tiled(&tiles).unwrap();
    let end = parse_multipart_headers(&bytes).unwrap()[0].end_offset;
    assert_eq!(
        parse_exr_multipart_deep_tiled(&without_table(&bytes, end, 2)).unwrap(),
        parse_exr_multipart_deep_tiled(&bytes).unwrap()
    );
}

#[test]
fn lines_in_any_order_give_samples_in_the_order_of_the_pixels() {
    let (spp, planes) = synthetic_deep(6, 4);
    let input = DeepScanlineInput {
        width: 6,
        height: 4,
        channels: mk_channels_rgba_float(),
        samples_per_pixel: &spp,
        channel_samples: vec![&planes[0], &planes[1], &planes[2], &planes[3]],
        compression: Compression::Uncompressed,
    };
    let bytes = encode_exr_deep_scanline(&input).unwrap();
    let at = header_end(&bytes);
    let mut turned = bytes.clone();
    for i in 0..4 {
        turned[at + 8 * i..at + 8 * i + 8]
            .copy_from_slice(&bytes[at + 8 * (3 - i)..at + 8 * (3 - i) + 8]);
    }
    assert_ne!(turned, bytes);
    let img = parse_exr_deep_scanline(&turned).unwrap();
    assert_eq!(img, parse_exr_deep_scanline(&bytes).unwrap());
    assert_eq!(img.channel_samples[2], planes[2]);
}

/// The pixels of the rows of 6 pixels with the given numbers; no number stands
/// for a row without samples.
fn rows_of_six(spp: &[u32], plane: &[u32], rows: &[Option<usize>]) -> (Vec<u32>, Vec<u32>) {
    let (mut counts, mut samples) = (Vec::new(), Vec::new());
    for row in rows {
        match row {
            Some(y) => {
                let total = |end: usize| spp[..end].iter().sum::<u32>() as usize;
                counts.extend_from_slice(&spp[6 * y..6 * y + 6]);
                samples.extend_from_slice(&plane[total(6 * y)..total(6 * y + 6)]);
            }
            None => counts.extend_from_slice(&[0; 6]),
        }
    }
    (counts, samples)
}

#[test]
fn of_lines_that_stand_twice_the_last_counts() {
    let (spp, planes) = synthetic_deep(6, 4);
    let input = DeepScanlineInput {
        width: 6,
        height: 4,
        channels: mk_channels_rgba_float(),
        samples_per_pixel: &spp,
        channel_samples: vec![&planes[0], &planes[1], &planes[2], &planes[3]],
        compression: Compression::Uncompressed,
    };
    let bytes = encode_exr_deep_scanline(&input).unwrap();
    let at = header_end(&bytes);
    // The second entry points at the first line.
    let mut twice = bytes.clone();
    twice[at + 8..at + 16].copy_from_slice(&bytes[at..at + 8]);
    let img = parse_exr_deep_scanline(&twice).unwrap();
    let want = rows_of_six(&spp, &planes[2], &[Some(0), None, Some(2), Some(3)]);
    assert_eq!((img.samples_per_pixel, img.channel_samples[2].clone()), want);
    // The second chunk says that it is the first line.
    let mut moved = bytes.clone();
    let mut entry = [0u8; 8];
    entry.copy_from_slice(&bytes[at + 8..at + 16]);
    let chunk = u64::from_le_bytes(entry) as usize;
    moved[chunk..chunk + 4].copy_from_slice(&0i32.to_le_bytes());
    let img = parse_exr_deep_scanline(&moved).unwrap();
    let want = rows_of_six(&spp, &planes[1], &[Some(1), None, Some(2), Some(3)]);
    assert_eq!((img.samples_per_pixel, img.channel_samples[1].clone()), want);
}

#[test]
fn of_lines_of_a_part_that_stand_twice_the_last_counts() {
    let (spp, planes) = synthetic_deep(6, 4);
    let parts = vec![MultipartDeepScanlinePart {
        name: "a".to_string(),
        width: 6,
        height: 4,
        channels: mk_channels_rgba_float(),
        samples_per_pixel: &spp,
        channel_samples: vec![&planes[0], &planes[1], &planes[2], &planes[3]],
        compression: Compression::Zips,
    }];
    let mut bytes = encode_exr_multipart_deep_scanline(&parts).unwrap();
    let at = parse_multipart_headers(&bytes).unwrap()[0].end_offset;
    let mut entry = [0u8; 8];
    entry.copy_from_slice(&bytes[at + 24..at + 32]);
    let chunk = u64::from_le_bytes(entry) as usize;
    bytes[chunk + 4..chunk + 8].copy_from_slice(&0i32.to_le_bytes());
    let part = parse_exr_deep_multipart(&bytes).unwrap().remove(0);
    let want = rows_of_six(&spp, &planes[3], &[Some(3), Some(1), Some(2), None]);
    assert_eq!((part.samples_per_pixel, part.channel_samples[3].clone()), want);
}
