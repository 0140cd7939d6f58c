//! Sampled channels: from samples to pixels, and from pixels to samples.

use openexr::error::ExrError;
use openexr::resample::{bilinear_plan, check_full, check_sampled, tent_taps, Between, Tap};

fn close(a: f32, b: f32, tol: f32) -> bool {
    (a - b).abs() <= tol
}

fn upsample_bilinear(
    sub: &[f32],
    width: u32,
    height: u32,
    sx: u32,
    sy: u32,
) -> Result<Vec<f32>, ExrError> {
    let (pw, ph) = check_sampled(sub.len(), width, height, sx, sy)?;
    if sx == 1 && sy == 1 {
        return Ok(sub.to_vec());
    }
    let rows: Vec<Vec<f32>> = (0..ph as usize)
        .map(|j| {
            let src = &sub[j * pw as usize..(j + 1) * pw as usize];
            bilinear_plan(width, sx)
                .iter()
                .map(|b| {
                    let t = b.offset as f32 / sx as f32;
                    src[b.low as usize] + (src[b.high as usize] - src[b.low as usize]) * t
                })
                .collect()
        })
        .collect();
    let mut out = Vec::new();
    for b in bilinear_plan(height, sy) {
        let t = b.offset as f32 / sy as f32;
        let (r0, r1) = (&rows[b.low as usize], &rows[b.high as usize]);
        for x in 0..width as usize {
            out.push(r0[x] + (r1[x] - r0[x]) * t);
        }
    }
    Ok(out)
}

fn downsample_tent(
    full: &[f32],
    width: u32,
    height: u32,
    sx: u32,
    sy: u32,
) -> Result<Vec<f32>, ExrError> {
    check_full(full.len(), width, height)?;
    if sx == 1 && sy == 1 {
        return Ok(full.to_vec());
    }
    let (pw, ph) = (width.div_ceil(sx), height.div_ceil(sy));
    let rows: Vec<Vec<f32>> = (0..height as usize)
        .map(|y| {
            let src = &full[y * width as usize..(y + 1) * width as usize];
            (0..pw)
                .map(|j| {
                    let (mut acc, mut wsum) = (0.0f64, 0.0f64);
                    for t in tent_taps(j, sx, width) {
                        acc += f64::from(src[t.position as usize]) * f64::from(t.weight);
                        wsum += f64::from(t.weight);
                    }
                    (acc / wsum) as f32
                })
                .collect()
        })
        .collect();
    let mut out = Vec::new();
    for j in 0..ph {
        let mut acc = vec![0.0f64; pw as usize];
        let mut wsum = 0.0f64;
        for t in tent_taps(j, sy, height) {
            for (a, &v) in acc.iter_mut().zip(&rows[t.position as usize]) {
                *a += f64::from(v) * f64::from(t.weight);
            }
            wsum += f64::from(t.weight);
        }
        out.extend(acc.iter().map(|&a| (a / wsum) as f32));
    }
    Ok(out)
}

#[test]
fn tent_then_bilinear_reproduces_a_linear_ramp_in_the_interior() {
    let (w, h) = (16u32, 12u32);
    let full: Vec<f32> = (0..h)
        .flat_map(|y| (0..w).map(move |x| 0.25 * x as f32 - 0.125 * y as f32 + 3.0))
        .collect();
    let sub = downsample_tent(&full, w, h, 2, 2).unwrap();
    assert_eq!(sub.len(), 8 * 6);
    assert!(close(sub[8 + 1], full[2 * 16 + 2], 1e-6));
    assert!(close(sub[3 * 8 + 5], full[6 * 16 + 10], 1e-6));
    let back = upsample_bilinear(&sub, w, h, 2, 2).unwrap();
    for y in 2..(h as usize - 2) {
        for x in 2..(w as usize - 2) {
            let i = y * w as usize + x;
            assert!(
                close(back[i], full[i], 1e-5),
                "px({x},{y}) {} vs {}",
                back[i],
                full[i]
            );
        }
    }
}

#[test]
fn upsample_handles_odd_extents_and_unit_sampling() {
    let sub = [1.0f32, 2.0, 3.0, 4.0, 5.0, 6.0];
    let up = upsample_bilinear(&sub, 5, 3, 2, 2).unwrap();
    assert_eq!(up.len(), 15);
    assert_eq!(up[0], 1.0);
    assert_eq!(up[1], 1.5);
    assert_eq!(up[4], 3.0);
    assert_eq!(up[5], 2.5);
    assert_eq!(up[14], 6.0);
    assert_eq!(upsample_bilinear(&sub, 3, 2, 1, 1).unwrap(), sub.to_vec());
    assert!(upsample_bilinear(&sub, 5, 3, 3, 3).is_err());
    assert!(downsample_tent(&sub, 5, 3, 2, 2).is_err());
}

#[test]
fn pixels_lie_between_their_samples() {
    let at = |low: u32, high: u32, offset: u32| Between { low, high, offset };
    assert_eq!(
        bilinear_plan(5, 2),
        vec![at(0, 1, 0), at(0, 1, 1), at(1, 2, 0), at(1, 2, 1), at(2, 2, 0)]
    );
    assert_eq!(bilinear_plan(2, 0), vec![at(0, 1, 0), at(1, 1, 0)]);
    assert_eq!(bilinear_plan(0, 3), vec![]);
}

#[test]
fn pixels_count_by_their_distance() {
    let tap = |position: u32, weight: u32| Tap { position, weight };
    assert_eq!(
        tent_taps(1, 3, 9),
        vec![tap(1, 1), tap(2, 2), tap(3, 3), tap(4, 2), tap(5, 1)]
    );
    assert_eq!(tent_taps(0, 3, 9), vec![tap(0, 3), tap(1, 2), tap(2, 1)]);
    assert_eq!(tent_taps(2, 3, 7), vec![tap(4, 1), tap(5, 2), tap(6, 3)]);
    assert_eq!(tent_taps(3, 0, 9), vec![tap(3, 1)]);
}

#[test]
fn planes_of_another_size_are_refused() {
    assert!(check_full(12, 4, 3).is_ok());
    assert!(matches!(check_full(11, 4, 3), Err(ExrError::InvalidData(_))));
    assert_eq!(check_sampled(6, 5, 3, 2, 2).unwrap(), (3, 2));
    assert_eq!(check_sampled(15, 5, 3, 0, 1).unwrap(), (5, 3));
    assert!(matches!(check_sampled(15, 5, 3, 2, 2), Err(ExrError::InvalidData(_))));
}
