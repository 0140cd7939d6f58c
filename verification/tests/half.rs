//! Binary16 and binary32 numbers.

use openexr::half::{f32_to_half, f32_to_uint, half_to_f32, uint_to_f32};

fn wide(h: u16) -> f32 {
    f32::from_bits(half_to_f32(h))
}

fn narrow(f: f32) -> u16 {
    f32_to_half(f.to_bits())
}

fn f32_to_half_reference(f: f32) -> u16 {
    let bits = f.to_bits();
    let sign = ((bits >> 31) & 0x1) as u16;
    let exp_f32 = ((bits >> 23) & 0xFF) as i32;
    let frac_f32 = bits & 0x007F_FFFF;
    if exp_f32 == 0xFF {
        if frac_f32 != 0 {
            let mut m = (frac_f32 >> 13) as u16 & 0x3FF;
            if m == 0 {
                m = 1;
            }
            return (sign << 15) | (0x1F << 10) | m;
        }
        return (sign << 15) | (0x1F << 10);
    }
    let unbiased = exp_f32 - 127;
    if unbiased > 15 {
        return (sign << 15) | (0x1F << 10);
    }
    if unbiased >= -14 {
        let exp_h = (unbiased + 15) as u16;
        let mant = round_to_nearest_even(frac_f32, 13) as u16;
        if mant == 0x400 {
            let exp_h2 = exp_h + 1;
            if exp_h2 >= 0x1F {
                return (sign << 15) | (0x1F << 10);
            }
            return (sign << 15) | (exp_h2 << 10);
        }
        return (sign << 15) | (exp_h << 10) | mant;
    }
    if unbiased < -24 {
        return sign << 15;
    }
    let mant_with_implicit = frac_f32 | 0x0080_0000;
    let shift = (13 + (-14 - unbiased)) as u32;
    let mant = round_to_nearest_even(mant_with_implicit, shift) as u16;
    if mant == 0x400 {
        return (sign << 15) | (1 << 10);
    }
    (sign << 15) | mant
}

fn round_to_nearest_even(value: u32, shift: u32) -> u32 {
    if shift == 0 {
        return value;
    }
    let half = 1u32 << (shift - 1);
    let mask = (1u32 << shift) - 1;
    let dropped = value & mask;
    let kept = value >> shift;
    if dropped > half {
        kept + 1
    } else if dropped < half {
        kept
    } else {
        kept + (kept & 1)
    }
}

#[test]
fn fast_f32_to_half_matches_the_reference() {
    let mut bits = 0u32;
    loop {
        assert_eq!(
            f32_to_half(bits),
            f32_to_half_reference(f32::from_bits(bits)),
            "{bits:#010x}"
        );
        bits = bits.wrapping_add(256);
        if bits == 0 {
            break;
        }
    }
    let dense = [
        0x3380_0000u32,
        0x3300_0000,
        0x3880_0000,
        0x387f_ffff,
        0x477f_e000,
        0x477f_f000,
        0x4780_0000,
        0x3f80_0000,
        0x7f7f_ffff,
        0x7f80_0000,
        0x7f80_0001,
        0x7fc0_0000,
    ];
    for &base in &dense {
        for d in 0..0x4000u32 {
            for b in [
                base.wrapping_add(d),
                base.wrapping_sub(d),
                base.wrapping_add(d) | 0x8000_0000,
            ] {
                assert_eq!(
                    f32_to_half(b),
                    f32_to_half_reference(f32::from_bits(b)),
                    "{b:#010x}"
                );
            }
        }
    }
}

#[test]
fn roundtrip_zero() {
    assert_eq!(wide(0x0000), 0.0);
    assert!(wide(0x8000).is_sign_negative());
    assert_eq!(narrow(0.0), 0x0000);
    assert_eq!(narrow(-0.0), 0x8000);
}

#[test]
fn roundtrip_one() {
    assert_eq!(wide(0x3C00), 1.0);
    assert_eq!(narrow(1.0), 0x3C00);
}

#[test]
fn roundtrip_neg_one() {
    assert_eq!(wide(0xBC00), -1.0);
    assert_eq!(narrow(-1.0), 0xBC00);
}

#[test]
fn roundtrip_inf() {
    assert!(wide(0x7C00).is_infinite() && wide(0x7C00).is_sign_positive());
    assert!(wide(0xFC00).is_infinite() && wide(0xFC00).is_sign_negative());
    assert_eq!(narrow(f32::INFINITY), 0x7C00);
    assert_eq!(narrow(f32::NEG_INFINITY), 0xFC00);
}

#[test]
fn roundtrip_nan() {
    assert!(wide(0x7E00).is_nan());
    let h = narrow(f32::NAN);
    let exp = (h >> 10) & 0x1F;
    let frac = h & 0x3FF;
    assert_eq!(exp, 0x1F);
    assert_ne!(frac, 0);
}

#[test]
fn smallest_subnormal() {
    let v = wide(0x0001);
    assert!((v - 2f32.powi(-24)).abs() < 1e-30);
    assert_eq!(narrow(2f32.powi(-24)), 0x0001);
}

#[test]
fn largest_normal() {
    assert_eq!(wide(0x7BFF), 65504.0);
    assert_eq!(narrow(65504.0), 0x7BFF);
}

#[test]
fn overflow_to_inf() {
    assert_eq!(narrow(70000.0), 0x7C00);
}

#[test]
fn underflow_to_zero() {
    assert_eq!(narrow(1e-30), 0x0000);
}

#[test]
fn roundtrip_all_finite_halves() {
    for h in 0u16..=0xFFFF {
        let exp = (h >> 10) & 0x1F;
        let frac = h & 0x3FF;
        if exp == 0x1F && frac != 0 {
            let f = wide(h);
            assert!(f.is_nan());
            continue;
        }
        let f = wide(h);
        let h2 = narrow(f);
        assert_eq!(h, h2, "h={h:#06x} -> f={f} -> {h2:#06x}");
    }
}

#[test]
fn halves_that_are_not_numbers_keep_their_bits() {
    for h in [0x7c01u16, 0x7e00, 0x7fff, 0xfc01, 0xffff] {
        assert_eq!(f32_to_half(half_to_f32(h)), h);
    }
}

#[test]
fn integers_go_through_binary32_as_the_hardware_has_it() {
    for n in [0u32, 1, 2, 3, 0x7f_ffff, 0x80_0000, 0xff_ffff, 0x100_0001, 0xffff_ffff] {
        assert_eq!(f32::from_bits(uint_to_f32(n)), n as f32, "{n}");
    }
    for f in [
        0.0f32,
        0.499_999_97,
        0.5,
        0.9,
        1.0,
        2.5,
        65504.0,
        8388607.0,
        8388609.0,
        -1.0,
        4294967040.0,
        5e9,
        f32::INFINITY,
        f32::NAN,
    ] {
        assert_eq!(f32_to_uint(f.to_bits()), (f as f64 + 0.5) as u32, "{f}");
    }
}

#[test]
fn integers_up_to_two_to_the_24th_are_kept() {
    for n in [0u32, 1, 0x7f_ffff, 0x80_0000, 0x80_0001, 0xff_ffff, 0x100_0000] {
        assert_eq!(f32_to_uint(uint_to_f32(n)), n);
    }
    assert_eq!(f32_to_uint(8388609.0f32.to_bits()), 8388609);
    assert_eq!(f32_to_uint(0x3eff_ffff), 0);
    assert_eq!(f32_to_uint(0.5f32.to_bits()), 1);
    assert_eq!(f32_to_uint(2.5f32.to_bits()), 3);
}
