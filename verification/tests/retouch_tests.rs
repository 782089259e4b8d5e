use std::sync::atomic::AtomicBool;

use xuan::retouch::{edge_matte, inpaint, sample_sources, FillError, MatteError};

const WIDTH: u32 = 16;

fn spot_image() -> Vec<u8> {
    let mut image = Vec::new();
    for y in 0..16u32 {
        for x in 0..16u32 {
            if (6..10).contains(&x) && (6..10).contains(&y) {
                image.extend_from_slice(&[255, 0, 0, 255]);
            } else {
                image.extend_from_slice(&[80, 120, 160, 255]);
            }
        }
    }
    image
}

fn rectangle_mask(width: u32, height: u32, from: u32, to: u32) -> Vec<u8> {
    let mut mask = Vec::new();
    for y in 0..height {
        for x in 0..width {
            mask.push(if (from..to).contains(&x) && (from..to).contains(&y) { 255 } else { 0 });
        }
    }
    mask
}

/// Patch distance of the kind the editor uses: squared color error over the
/// known, opaque 5x5 neighborhood, plus a small penalty for distance.
fn score(
    image: &[u8],
    mask: &[u8],
    width: u32,
    height: u32,
    output: &[u8],
    unknown: &[bool],
    x: u32,
    y: u32,
    source: (u32, u32),
) -> f32 {
    let index = |x: u32, y: u32| (y * width + x) as usize;
    let (sx, sy) = source;
    if mask[index(sx, sy)] != 0 || image[4 * index(sx, sy) + 3] < 128 {
        return f32::MAX;
    }
    let mut error = 0.0;
    let mut count = 0;
    for oy in -2..=2i32 {
        for ox in -2..=2i32 {
            let tx = x as i32 + ox;
            let ty = y as i32 + oy;
            let px = sx as i32 + ox;
            let py = sy as i32 + oy;
            if tx < 0 || ty < 0 || px < 0 || py < 0 || tx >= width as i32 || ty >= height as i32 || px >= width as i32 || py >= height as i32 {
                continue;
            }
            let t = index(tx as u32, ty as u32);
            let p = index(px as u32, py as u32);
            if unknown[t] || mask[p] != 0 {
                continue;
            }
            if output[4 * t + 3] < 128 || image[4 * p + 3] < 128 {
                continue;
            }
            for c in 0..3 {
                error += (output[4 * t + c] as f32 - image[4 * p + c] as f32).powi(2);
            }
            count += 1;
        }
    }
    if count == 0 {
        1e8
    } else {
        error / count as f32 + ((sx as f32 - x as f32).abs() + (sy as f32 - y as f32).abs()) * 0.005
    }
}

fn best<'a>(image: &'a [u8], mask: &'a [u8], width: u32, height: u32) -> impl Fn(&[u8], &[bool], u32, u32, &[(u32, u32)]) -> usize + 'a {
    move |output, unknown, x, y, candidates| {
        let mut chosen = 0;
        let mut lowest = f32::INFINITY;
        for (i, c) in candidates.iter().enumerate() {
            let s = score(image, mask, width, height, output, unknown, x, y, *c);
            if s < lowest {
                lowest = s;
                chosen = i;
            }
        }
        chosen
    }
}

#[test]
fn fill_removes_a_spot_without_changing_unselected_pixels() {
    let image = spot_image();
    let mask = rectangle_mask(16, 16, 6, 10);
    let fill = inpaint(&image, &mask, WIDTH, 16, &AtomicBool::new(false), best(&image, &mask, WIDTH, 16)).unwrap();
    assert!(fill.pixels.chunks(4).all(|p| p == [80, 120, 160, 255]));
    assert!(fill.remaining.iter().all(|r| !r));
    let everything = vec![255u8; 256];
    assert!(inpaint(&image, &everything, WIDTH, 16, &AtomicBool::new(false), best(&image, &everything, WIDTH, 16)).is_err());
}

#[test]
fn fill_reports_each_refusal() {
    let image = spot_image();
    let mask = rectangle_mask(16, 16, 6, 10);
    let anything = |_: &[u8], _: &[bool], _: u32, _: u32, _: &[(u32, u32)]| 0usize;
    assert_eq!(inpaint(&image, &mask[..255], WIDTH, 16, &AtomicBool::new(false), anything).err(), Some(FillError::DimensionMismatch));
    let everything = vec![255u8; 256];
    assert_eq!(inpaint(&image, &everything, WIDTH, 16, &AtomicBool::new(false), anything).err(), Some(FillError::NoSources));
    assert_eq!(inpaint(&image, &vec![0u8; 256], WIDTH, 16, &AtomicBool::new(false), anything).err(), Some(FillError::NoBoundary));
    assert_eq!(inpaint(&image, &mask, WIDTH, 16, &AtomicBool::new(true), anything).err(), Some(FillError::Cancelled));
    assert_eq!(FillError::NoSources.message(), "Leave some opaque, unselected pixels to sample for Content-Aware Fill");
}

#[test]
fn fill_copies_image_pixels_and_leaves_the_rest() {
    let mut image = Vec::new();
    for i in 0..9u8 {
        image.extend_from_slice(&[i, 2 * i, 3 * i, 255]);
    }
    let mut mask = vec![0u8; 9];
    mask[4] = 9;
    let fill = inpaint(&image, &mask, 3, 3, &AtomicBool::new(false), |_: &[u8], _: &[bool], _: u32, _: u32, _: &[(u32, u32)]| 0usize).unwrap();
    for i in 0..9 {
        if i != 4 {
            assert_eq!(&fill.pixels[4 * i..4 * i + 4], &image[4 * i..4 * i + 4]);
        }
    }
    let filled = &fill.pixels[16..20];
    assert!(image.chunks(4).enumerate().any(|(i, p)| i != 4 && p == filled));
    assert_eq!(fill.remaining, vec![false; 9]);
}

#[test]
fn sources_are_sampled_from_unselected_opaque_pixels_in_row_order() {
    let mut image = vec![0u8; 4 * 6];
    for i in 0..6 {
        image[4 * i + 3] = if i == 2 { 100 } else { 255 };
    }
    let mut mask = vec![0u8; 6];
    mask[0] = 1;
    let (sources, state) = sample_sources(&image, &mask, 3, 2);
    assert_eq!(sources, vec![(1, 0), (0, 1), (1, 1), (2, 1)]);
    assert_eq!(state, 0x7d41_397b);
}

#[test]
fn edge_matte_clears_the_background_and_keeps_the_subject() {
    let mut image = Vec::new();
    for y in 0..20u32 {
        for x in 0..20u32 {
            if (5..15).contains(&x) && (5..15).contains(&y) {
                image.extend_from_slice(&[50, 80, 130, 255]);
            } else {
                image.extend_from_slice(&[255; 4]);
            }
        }
    }
    let matte = edge_matte(&image, 20, 20, 20, &AtomicBool::new(false)).unwrap();
    assert_eq!(matte.len(), 400);
    assert_eq!(matte[0], 0);
    assert_eq!(matte[10 * 20 + 10], 255);
    for y in 0..20usize {
        for x in 0..20usize {
            let inside = (5..15).contains(&x) && (5..15).contains(&y);
            assert_eq!(matte[y * 20 + x], if inside { 255 } else { 0 });
        }
    }
    assert_eq!(edge_matte(&image, 20, 20, 20, &AtomicBool::new(true)), Err(MatteError::Cancelled));
}

#[test]
fn edge_matte_follows_gradual_changes_from_each_edge_seed() {
    // One row whose colors drift by 10 per pixel: each pixel is within the
    // tolerance of its neighbor but the seed is carried along, so growth
    // stops once the drift from the edge color exceeds the tolerance.
    let mut image = Vec::new();
    for x in 0..7u8 {
        image.extend_from_slice(&[10 * x, 0, 0, 255]);
    }
    let matte = edge_matte(&image, 7, 1, 15, &AtomicBool::new(false)).unwrap();
    assert_eq!(matte, vec![0; 7]);
    let mut tall = Vec::new();
    for _y in 0..3u8 {
        for x in 0..7u8 {
            tall.extend_from_slice(&[if x == 3 { 200 } else { 10 * x }, 0, 0, if x == 3 { 255 } else { 0 }]);
        }
    }
    let matte = edge_matte(&tall, 7, 3, 5, &AtomicBool::new(false)).unwrap();
    assert_eq!(matte[7 + 3], 0);
    let mut solid = Vec::new();
    for y in 0..5u8 {
        for x in 0..5u8 {
            let inner = (1..4).contains(&x) && (1..4).contains(&y);
            solid.extend_from_slice(&[if inner { 200 } else { 0 }, 0, 0, 255]);
        }
    }
    let matte = edge_matte(&solid, 5, 5, 10, &AtomicBool::new(false)).unwrap();
    assert_eq!(matte.iter().filter(|v| **v == 255).count(), 9);
    assert_eq!(edge_matte(&[], 0, 0, 10, &AtomicBool::new(false)), Ok(vec![]));
}

#[test]
fn fill_never_copies_selected_or_transparent_pixels() {
    // Row: opaque blue, unselected but transparent red, then two selected pixels.
    let image = vec![0, 0, 200, 255, 200, 0, 0, 10, 9, 9, 9, 255, 7, 7, 7, 255];
    let mask = vec![0, 0, 255, 255];
    // Always take the first candidate offered.
    let first = |_: &[u8], _: &[bool], _: u32, _: u32, _: &[(u32, u32)]| 0usize;
    let fill = inpaint(&image, &mask, 4, 1, &AtomicBool::new(false), first).unwrap();
    assert!(fill.remaining.iter().all(|r| !r));
    assert_eq!(&fill.pixels[8..12], &[0, 0, 200, 255]);
    assert_eq!(&fill.pixels[12..16], &[0, 0, 200, 255]);
    assert_eq!(&fill.pixels[0..8], &image[0..8]);
    // An index past the candidates falls back to the first source.
    let beyond = |_: &[u8], _: &[bool], _: u32, _: u32, c: &[(u32, u32)]| c.len();
    let fill = inpaint(&image, &mask, 4, 1, &AtomicBool::new(false), beyond).unwrap();
    assert_eq!(&fill.pixels[8..16], &[0, 0, 200, 255, 0, 0, 200, 255]);
}

#[test]
fn background_islands_not_joined_to_the_edge_stay() {
    // 7x7: white border, a dark ring, and a white island in the middle.
    let mut image = Vec::new();
    for y in 0..7u32 {
        for x in 0..7u32 {
            let ring = (1..6).contains(&x) && (1..6).contains(&y) && !((2..5).contains(&x) && (2..5).contains(&y));
            if ring {
                image.extend_from_slice(&[20, 20, 20, 255]);
            } else {
                image.extend_from_slice(&[250, 250, 250, 255]);
            }
        }
    }
    let matte = edge_matte(&image, 7, 7, 10, &AtomicBool::new(false)).unwrap();
    assert_eq!(matte[0], 0);
    assert_eq!(matte[7 + 1], 255);
    assert_eq!(matte[3 * 7 + 3], 255);
    assert_eq!(matte[2 * 7 + 2], 255);
}

#[test]
fn fill_copies_the_candidate_that_pick_chose() {
    // Row: opaque blue, a selected pixel, opaque green.
    let image = vec![0, 0, 200, 255, 9, 9, 9, 255, 0, 200, 0, 255];
    let mask = vec![0, 255, 0];
    // The neighbors come first among the candidates: left, then right.
    let left = |_: &[u8], _: &[bool], _: u32, _: u32, _: &[(u32, u32)]| 0usize;
    let right = |_: &[u8], _: &[bool], _: u32, _: u32, _: &[(u32, u32)]| 1usize;
    let fill = inpaint(&image, &mask, 3, 1, &AtomicBool::new(false), left).unwrap();
    assert_eq!(&fill.pixels[4..8], &[0, 0, 200, 255]);
    let fill = inpaint(&image, &mask, 3, 1, &AtomicBool::new(false), right).unwrap();
    assert_eq!(&fill.pixels[4..8], &[0, 200, 0, 255]);
    // The candidates offered are the two neighbors and twenty drawn sources.
    let count = |_: &[u8], _: &[bool], _: u32, _: u32, c: &[(u32, u32)]| {
        assert_eq!(c.len(), 22);
        assert_eq!(c[0], (0, 0));
        assert_eq!(c[1], (2, 0));
        0usize
    };
    assert!(inpaint(&image, &mask, 3, 1, &AtomicBool::new(false), count).is_ok());
}
