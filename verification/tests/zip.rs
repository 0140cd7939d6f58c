//! The byte transforms in front of the packers, the packers, and sampled
//! lines.

use openexr::flat_block::{native_chunk_size, subsampled_dim};
use openexr::pack::{compress_buffer, decompress_buffer, zlib_deflate, zlib_inflate};
use openexr::rle::{rle_compress, rle_decompress};
use openexr::types::{Channel, Compression, PixelType};
use openexr::zip::{
    apply_zip_interleave, apply_zip_predictor, apply_zip_uninterleave, apply_zip_unpredictor,
};

#[test]
fn predictor_roundtrip() {
    let original: Vec<u8> = (0..255).step_by(7).collect();
    let mut buf = original.clone();
    apply_zip_predictor(&mut buf);
    apply_zip_unpredictor(&mut buf);
    assert_eq!(buf, original);
}

#[test]
fn interleave_roundtrip_even() {
    let src: Vec<u8> = (0..16).collect();
    let mut mid = vec![0u8; 16];
    apply_zip_interleave(&src, &mut mid);
    let mut back = vec![0u8; 16];
    apply_zip_uninterleave(&mid, &mut back);
    assert_eq!(src, back);
}

#[test]
fn interleave_roundtrip_odd() {
    let src: Vec<u8> = (0..15).collect();
    let mut mid = vec![0u8; 15];
    apply_zip_interleave(&src, &mut mid);
    let mut back = vec![0u8; 15];
    apply_zip_uninterleave(&mid, &mut back);
    assert_eq!(src, back);
}

#[test]
fn subsampled_dim_basics() {
    assert_eq!(subsampled_dim(10, 1), 10);
    assert_eq!(subsampled_dim(10, 2), 5);
    assert_eq!(subsampled_dim(11, 2), 6);
    assert_eq!(subsampled_dim(0, 4), 0);
}

#[test]
fn transforms_have_their_values() {
    let mut mid = vec![0u8; 5];
    apply_zip_interleave(&[1, 2, 3, 4, 5], &mut mid);
    assert_eq!(mid, vec![1, 3, 5, 2, 4]);
    let mut back = vec![0u8; 5];
    apply_zip_uninterleave(&mid, &mut back);
    assert_eq!(back, vec![1, 2, 3, 4, 5]);
    let mut buf = vec![10u8, 12, 11, 255];
    apply_zip_predictor(&mut buf);
    assert_eq!(buf, vec![10, 130, 127, 116]);
    apply_zip_unpredictor(&mut buf);
    assert_eq!(buf, vec![10, 12, 11, 255]);
}

#[test]
fn runs_have_their_packets() {
    assert_eq!(rle_compress(&[7, 7, 7, 7]), vec![3, 7]);
    assert_eq!(rle_compress(&[1, 2, 3]), vec![253, 1, 2, 3]);
    assert_eq!(rle_decompress(&[3, 7, 254, 1, 2], 6).unwrap(), vec![7, 7, 7, 7, 1, 2]);
    assert!(rle_decompress(&[3, 7], 5).is_err());
    assert!(rle_decompress(&[3], 4).is_err());
    assert!(rle_decompress(&[250, 1], 6).is_err());
}

#[test]
fn zlib_streams_inflate_to_what_was_deflated() {
    let data: Vec<u8> = (0..2000u32).map(|i| (i / 50) as u8).collect();
    let packed = zlib_deflate(&data).unwrap();
    assert!(packed.len() < data.len());
    assert_ne!(packed, data);
    assert_eq!(zlib_inflate(&packed, 2000).unwrap(), data);
    assert_eq!(zlib_inflate(&packed, 2001).unwrap(), data);
    assert!(zlib_inflate(&packed, 1999).is_err());
    assert!(zlib_inflate(&data, 2000).is_err());
    assert!(zlib_inflate(&packed[..packed.len() / 2], 2000).is_err());
}

#[test]
fn blocks_are_stored_the_shorter_way() {
    let flat = vec![9u8; 500];
    let noise: Vec<u8> = (0..64u32).map(|i| (i.wrapping_mul(2654435761) >> 13) as u8).collect();
    for c in [Compression::Uncompressed, Compression::Rle, Compression::Zips, Compression::Zip] {
        let a = compress_buffer(&flat, c).unwrap();
        assert_eq!(a.len() < flat.len(), c != Compression::Uncompressed);
        assert_eq!(decompress_buffer(&a, 500, c).unwrap(), flat);
        let b = compress_buffer(&noise, c).unwrap();
        assert!(b.len() <= noise.len());
        assert_eq!(decompress_buffer(&b, 64, c).unwrap(), noise);
    }
    assert!(decompress_buffer(&flat, 501, Compression::Uncompressed).is_err());
}

#[test]
fn chunks_have_the_rows_of_their_channels() {
    let channel = |x: i32, y: i32, pixel_type: PixelType| Channel {
        name: "c".to_string(),
        pixel_type,
        p_linear: false,
        x_sampling: x,
        y_sampling: y,
    };
    let full = channel(1, 1, PixelType::Half);
    let half = channel(2, 2, PixelType::Float);
    assert_eq!(native_chunk_size(&[full.clone()], 10, 0, 4), 80);
    assert_eq!(native_chunk_size(&[half.clone()], 11, 0, 4), 2 * 6 * 4);
    assert_eq!(native_chunk_size(&[half.clone()], 11, 1, 2), 6 * 4);
    assert_eq!(native_chunk_size(&[full, half], 10, 1, 1), 20);
}
