use cv_timeline::icon::{ico_bytes, icon_frames, Grid};
use cv_timeline::model::Color;

const BG: Color = Color { r: 30, g: 33, b: 40, a: 255 };
const CLEAR: Color = Color { r: 0, g: 0, b: 0, a: 0 };

#[test]
fn fill_rect_clips_to_the_grid() {
    let mut g = Grid::new();
    g.fill_rect(14, -1, 4, 2, BG);
    let set: Vec<usize> = (0..256).filter(|&i| g.pixels[i] == BG).collect();
    assert_eq!(set, vec![14, 15]);
}

#[test]
fn rounded_square_chamfers_three_cells_per_corner() {
    let mut g = Grid::new();
    g.rounded_square(BG);
    let clear: Vec<usize> = (0..256).filter(|&i| g.pixels[i] == CLEAR).collect();
    assert_eq!(clear, vec![0, 1, 14, 15, 16, 31, 224, 239, 240, 241, 254, 255]);
}

#[test]
fn icon_has_axis_and_bars() {
    let g = Grid::icon();
    assert_eq!(g.pixels[2 * 16 + 7], Color { r: 205, g: 209, b: 218, a: 255 });
    assert_eq!(g.pixels[3 * 16 + 9], Color { r: 66, g: 133, b: 244, a: 255 });
    assert_eq!(g.pixels[7 * 16 + 2], Color { r: 52, g: 199, b: 89, a: 255 });
    assert_eq!(g.pixels[13 * 16 + 14], Color { r: 255, g: 149, b: 0, a: 255 });
    assert_eq!(g.pixels[0], CLEAR);
    assert_eq!(g.pixels[16 + 1], BG);
}

#[test]
fn upscaled_icon_repeats_each_cell() {
    let g = Grid::icon();
    let r = g.to_raster();
    assert_eq!(r.dimensions(), (256, 256));
    let data = r.into_raw();
    let px = |x: usize, y: usize| &data[4 * (y * 256 + x)..4 * (y * 256 + x) + 4];
    assert_eq!(px(7 * 16 + 3, 2 * 16 + 15), &[205, 209, 218, 255]);
    assert_eq!(px(0, 0), &[0, 0, 0, 0]);
}

#[test]
fn ico_layout_is_header_directory_then_data() {
    let frames = vec![(16u32, vec![1u8, 2, 3]), (256u32, vec![9u8; 5])];
    let bytes = ico_bytes(&frames);
    assert_eq!(&bytes[0..6], &[0, 0, 1, 0, 2, 0]);
    assert_eq!(&bytes[6..22], &[16, 16, 0, 0, 1, 0, 32, 0, 3, 0, 0, 0, 38, 0, 0, 0]);
    assert_eq!(&bytes[22..38], &[0, 0, 0, 0, 1, 0, 32, 0, 5, 0, 0, 0, 41, 0, 0, 0]);
    assert_eq!(&bytes[38..41], &[1, 2, 3]);
    assert_eq!(&bytes[41..46], &[9; 5]);
    assert_eq!(bytes.len(), 46);
}

#[test]
fn icon_frames_are_pngs_of_the_requested_sizes() {
    let master = Grid::icon().to_raster();
    let frames = icon_frames(&master, &vec![16, 32]).unwrap();
    assert_eq!(frames.len(), 2);
    for (size, png) in &frames {
        let img = image::load_from_memory(png).unwrap();
        assert_eq!(img.width(), *size);
        assert_eq!(img.height(), *size);
    }
    let small = image::load_from_memory(&frames[0].1).unwrap().to_rgba8();
    // Nearest-neighbour downsampling keeps one pixel per 16x16 cell.
    assert_eq!(small.get_pixel(7, 2).0, [205, 209, 218, 255]);
}
