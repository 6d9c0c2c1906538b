use cv_timeline::model::Color;
use cv_timeline::raster::{blend_pixel, fill_mask, mix_channel, Raster};

/// Premultiplied "over": the colour as it is plus the destination scaled by
/// what the colour lets through.
fn float_mix(s: u8, d: u8, a: u8) -> u8 {
    let af = a as f32 / 255.0;
    (s as f32 + d as f32 * (1.0 - af)).round() as u8
}

#[test]
fn integer_mix_equals_float_compositing_everywhere() {
    for a in 1..=254u8 {
        for s in 0..=255u8 {
            for d in 0..=255u8 {
                assert_eq!(mix_channel(s, d, a), float_mix(s, d, a), "s={s} d={d} a={a}");
            }
        }
    }
}

#[test]
fn mix_exact_values() {
    // Half-transparent red over black keeps its premultiplied red.
    assert_eq!(mix_channel(100, 0, 128), 100);
    assert_eq!(mix_channel(0, 255, 1), 254);
    assert_eq!(mix_channel(40, 100, 51), 120);
    // Not premultiplied input saturates.
    assert_eq!(mix_channel(255, 255, 128), 255);
}

fn image(w: u32, h: u32, px: [u8; 4]) -> Raster {
    let mut data = Vec::new();
    for _ in 0..w * h {
        data.extend_from_slice(&px);
    }
    Raster::from_raw(w, h, data).unwrap()
}

fn pixels(r: Raster) -> Vec<u8> {
    r.into_raw()
}

#[test]
fn from_raw_needs_enough_bytes() {
    assert!(Raster::from_raw(2, 2, vec![0; 15]).is_none());
    assert!(Raster::from_raw(2, 2, vec![0; 16]).is_some());
    let r = Raster::from_raw(3, 1, vec![0; 12]).unwrap();
    assert_eq!(r.dimensions(), (3, 1));
}

#[test]
fn blending_transparent_opaque_and_translucent() {
    let mut r = image(3, 1, [10, 20, 30, 255]);
    blend_pixel(&mut r, 0, 0, Color { r: 200, g: 200, b: 200, a: 0 });
    blend_pixel(&mut r, 1, 0, Color { r: 1, g: 2, b: 3, a: 255 });
    blend_pixel(&mut r, 2, 0, Color { r: 128, g: 128, b: 128, a: 128 });
    assert_eq!(pixels(r), vec![10, 20, 30, 255, 1, 2, 3, 255, 133, 138, 143, 255]);
}

#[test]
fn fill_mask_paints_covered_pixels_inside_the_image_only() {
    let mut r = image(3, 3, [0, 0, 0, 255]);
    // A 2x2 box at (-1, 1) with mask [1 1 / 0 1]: columns -1 and 0.
    fill_mask(&mut r, -1, 1, 2, 2, &vec![true, true, false, true], Color { r: 9, g: 9, b: 9, a: 255 });
    let p = pixels(r);
    let at = |x: usize, y: usize| p[4 * (y * 3 + x)];
    assert_eq!(at(0, 1), 9);
    assert_eq!(at(0, 2), 9);
    assert_eq!(at(1, 1), 0);
    assert_eq!(at(0, 0), 0);
    assert_eq!(at(2, 2), 0);
}

#[test]
fn fill_mask_with_empty_box_changes_nothing() {
    let mut r = image(2, 2, [5, 5, 5, 255]);
    fill_mask(&mut r, 0, 0, 0, 2, &vec![], Color { r: 0, g: 0, b: 0, a: 255 });
    assert_eq!(pixels(r), vec![5; 16].chunks(4).flat_map(|c| [c[0], c[1], c[2], 255]).collect::<Vec<_>>());
}
