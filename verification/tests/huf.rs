//! Huffman-coded lists of codes.

use openexr::huf::{huf_compress, huf_decompress};
use openexr::tree::build_code_lengths;

fn roundtrip(values: &[u16]) {
    let payload = huf_compress(values).unwrap();
    let back = huf_decompress(&payload, values.len()).unwrap();
    assert_eq!(back, values, "round-trip mismatch");
}

#[test]
fn single_value_stream() {
    roundtrip(&[7]);
    roundtrip(&[0]);
    roundtrip(&[65535]);
}

#[test]
fn constant_run_uses_escape() {
    let vals = vec![42u16; 1000];
    let payload = huf_compress(&vals).unwrap();
    assert!(
        payload.len() < 60,
        "run coding ineffective: {} bytes",
        payload.len()
    );
    let back = huf_decompress(&payload, vals.len()).unwrap();
    assert_eq!(back, vals);
}

#[test]
fn mixed_values() {
    let vals: Vec<u16> = (0..5000u32)
        .map(|i| ((i * 7 + (i / 13) * 3) % 300) as u16)
        .collect();
    roundtrip(&vals);
}

#[test]
fn sparse_extreme_alphabet() {
    let mut vals = vec![0u16; 100];
    vals.extend(std::iter::repeat(65535u16).take(100));
    vals.extend((0..50).map(|i| (i * 1000) as u16));
    roundtrip(&vals);
}

#[test]
fn runs_at_saturation_boundary() {
    for n in [255usize, 256, 257, 512, 513] {
        let vals = vec![9u16; n];
        roundtrip(&vals);
    }
}

#[test]
fn escape_value_collision() {
    let mut vals: Vec<u16> = (65000..=65535).collect();
    vals.extend(std::iter::repeat(65535u16).take(300));
    roundtrip(&vals);
}

#[test]
fn rejects_truncated_header() {
    assert!(huf_decompress(&[0u8; 10], 5).is_err());
}

#[test]
fn rejects_over_subscribed_code_lengths() {
    let im = 0usize;
    let i_m = 2usize;
    // Three lengths of one bit each, six bits a length.
    let table = [0b0000_0100u8, 0b0001_0000, 0b0100_0000];
    let mut payload = Vec::new();
    payload.extend_from_slice(&(im as u32).to_le_bytes());
    payload.extend_from_slice(&(i_m as u32).to_le_bytes());
    payload.extend_from_slice(&(table.len() as u32).to_le_bytes());
    payload.extend_from_slice(&8u32.to_le_bytes());
    payload.extend_from_slice(&0u32.to_le_bytes());
    payload.extend_from_slice(&table);
    payload.push(0);
    let err = huf_decompress(&payload, 4).unwrap_err();
    assert!(err.message().contains("over-subscribe"));
}

#[test]
fn huge_symbol_count_does_not_over_reserve() {
    let vals: Vec<u16> = (0..100).collect();
    let payload = huf_compress(&vals).unwrap();
    assert!(huf_decompress(&payload, 4 << 30).is_err());
}

#[test]
fn rejects_bad_symbol_range() {
    let mut p = vec![0u8; 24];
    p[0..4].copy_from_slice(&70000u32.to_le_bytes());
    assert!(huf_decompress(&p, 5).is_err());
}

#[test]
fn rejects_truncated_data() {
    let vals: Vec<u16> = (0..100).collect();
    let payload = huf_compress(&vals).unwrap();
    let cut = payload.len() - (payload.len() - 20) / 4;
    assert!(huf_decompress(&payload[..cut], vals.len()).is_err());
}

#[test]
fn hostile_zero_run_past_im() {
    let mut p = Vec::new();
    p.extend_from_slice(&0u32.to_le_bytes());
    p.extend_from_slice(&1u32.to_le_bytes());
    p.extend_from_slice(&2u32.to_le_bytes());
    p.extend_from_slice(&0u32.to_le_bytes());
    p.extend_from_slice(&0u32.to_le_bytes());
    p.push(0b1111_1111);
    p.push(0b1111_1100);
    assert!(huf_decompress(&p, 5).is_err());
}

#[test]
fn no_values_need_no_payload() {
    assert_eq!(huf_decompress(&[], 0).unwrap(), Vec::<u16>::new());
}

#[test]
fn frequencies_that_make_too_deep_a_tree_are_halved_rounding_up() {
    let mut freqs: Vec<u128> = vec![1, 1];
    while freqs.len() < 62 {
        freqs.push(freqs[freqs.len() - 1] + freqs[freqs.len() - 2]);
    }
    let lens = build_code_lengths(freqs);
    let mut want: Vec<u8> = vec![31, 31];
    for l in (2..=31u8).rev() {
        want.push(l);
        want.push(l);
    }
    assert_eq!(lens, want);
}

#[test]
fn code_lengths_take_the_fewest_bits() {
    let lens = build_code_lengths(vec![5, 9, 12, 13, 16, 45]);
    assert_eq!(lens, [4, 4, 3, 3, 3, 1]);
    // All codes of four symbols that fit into the code space.
    for freqs in [[1u128, 1, 1, 1], [1, 2, 4, 8], [3, 1, 7, 2], [9, 9, 1, 1]] {
        let got = build_code_lengths(freqs.to_vec());
        let bits = |lens: &[u8]| -> u128 {
            freqs.iter().zip(lens).map(|(f, l)| f * u128::from(*l)).sum()
        };
        assert_eq!(got.iter().map(|l| 64 >> l).sum::<u32>(), 64);
        for k in 0..6 * 6 * 6 * 6 {
            let lens = [k % 6 + 1, k / 6 % 6 + 1, k / 36 % 6 + 1, k / 216 + 1].map(|l| l as u8);
            if lens.iter().map(|l| 64 >> l).sum::<u32>() <= 64 {
                assert!(bits(&got) <= bits(&lens), "{freqs:?} {lens:?}");
            }
        }
    }
    // One symbol takes a bit.
    assert_eq!(build_code_lengths(vec![0, 7, 0]), [0, 1, 0]);
}
