use vstd::prelude::*;
use crate::model::Color;
use crate::raster::{
    Raster, raster_new, put_raster_pixel, raster_resize_nearest, raster_encode_png, raster_pixels,
    raster_size, in_image, png_encoding, nearest_resized,
};

verus! {

/// Cells per side of the icon's pixel-art grid.
pub const GRID: i32 = 16;

/// Image pixels per grid cell, per side.
pub const SCALE: u32 = 16;

/// Side, in pixels, of the full-size icon.
pub const ICON_SIZE: u32 = 256;

pub open spec fn transparent() -> Color {
    Color { r: 0, g: 0, b: 0, a: 0 }
}

pub open spec fn backdrop() -> Color {
    Color { r: 30, g: 33, b: 40, a: 255 }
}

pub open spec fn axis_color() -> Color {
    Color { r: 205, g: 209, b: 218, a: 255 }
}

pub open spec fn blue() -> Color {
    Color { r: 66, g: 133, b: 244, a: 255 }
}

pub open spec fn green() -> Color {
    Color { r: 52, g: 199, b: 89, a: 255 }
}

pub open spec fn orange() -> Color {
    Color { r: 255, g: 149, b: 0, a: 255 }
}

/// Cell `i` of the row-major grid lies in the `w` x `h` rectangle of cells
/// at `(x, y)`.
pub open spec fn rect_covers(i: int, x: int, y: int, w: int, h: int) -> bool {
    x <= i % 16 < x + w && y <= i / 16 < y + h
}

/// The cells after the rectangle at `(x, y)` is painted `c`; cells of the
/// rectangle outside the grid are dropped.
pub open spec fn filled_rect(cells: Seq<Color>, x: int, y: int, w: int, h: int, c: Color) -> Seq<Color> {
    Seq::new(cells.len(), |i: int| if rect_covers(i, x, y, w, h) { c } else { cells[i] })
}

/// Cell `(x, y)` of the grid is a corner cell or next to one along an edge
/// (within distance 1 of a corner, counting steps along rows and columns).
pub open spec fn corner_clipped(x: int, y: int) -> bool {
    ||| x + y <= 1
    ||| (15 - x) + y <= 1
    ||| x + (15 - y) <= 1
    ||| (15 - x) + (15 - y) <= 1
}

/// The cells after a square backdrop of colour `c` with chamfered corners
/// is painted over them.
pub open spec fn rounded_square(cells: Seq<Color>, c: Color) -> Seq<Color> {
    Seq::new(cells.len(), |i: int| if corner_clipped(i % 16, i / 16) { cells[i] } else { c })
}

/// The icon: the chamfered backdrop, the vertical axis, and three bars
/// alternating left and right of it.
pub open spec fn icon_cells() -> Seq<Color> {
    let s = rounded_square(Seq::new(256, |i: int| transparent()), backdrop());
    let s = filled_rect(s, 7, 2, 2, 12, axis_color());
    let s = filled_rect(s, 9, 3, 5, 3, blue());
    let s = filled_rect(s, 2, 7, 5, 3, green());
    filled_rect(s, 9, 11, 6, 3, orange())
}

/// A 16 x 16 grid of colour cells, row-major.
pub struct Grid {
    pub pixels: Vec<Color>,
}

proof fn lemma_cell(x: int, y: int)
    requires
        0 <= x < 16,
        0 <= y < 16,
    ensures
        (y * 16 + x) % 16 == x,
        (y * 16 + x) / 16 == y,
        0 <= y * 16 + x < 256,
{
    assert((y * 16 + x) % 16 == x && (y * 16 + x) / 16 == y) by (nonlinear_arith)
        requires
            0 <= x < 16,
            0 <= y < 16,
    ;
}

impl Grid {
    /// A fully transparent grid.
    pub fn new() -> (g: Grid)
        ensures
            g.pixels@ == Seq::new(256, |i: int| transparent()),
    {
        let mut pixels: Vec<Color> = Vec::new();
        let mut i: usize = 0;
        while i < 256
            invariant
                i <= 256,
                pixels@ == Seq::new(i as nat, |k: int| transparent()),
            decreases 256 - i,
        {
            pixels.push(Color { r: 0, g: 0, b: 0, a: 0 });
            i = i + 1;
        }
        Grid { pixels }
    }

    /// Paints the `w` x `h` rectangle of cells at `(x, y)` with `color`,
    /// leaving out the part that falls outside the grid.
    pub fn fill_rect(&mut self, x: i32, y: i32, w: i32, h: i32, color: Color)
        requires
            old(self).pixels@.len() == 256,
            i32::MIN <= x + w <= i32::MAX,
            i32::MIN <= y + h <= i32::MAX,
        ensures
            final(self).pixels@ == filled_rect(old(self).pixels@, x as int, y as int, w as int, h as int, color),
    {
        let ghost orig = self.pixels@;
        let mut gy: i32 = y;
        while gy < y + h
            invariant
                self.pixels@.len() == 256,
                orig.len() == 256,
                i32::MIN <= x + w <= i32::MAX,
                i32::MIN <= y + h <= i32::MAX,
                y <= gy,
                gy <= y + h || gy == y,
                forall|i: int|
                    0 <= i < 256 ==> #[trigger] self.pixels@[i] == if rect_covers(
                        i,
                        x as int,
                        y as int,
                        w as int,
                        gy - y,
                    ) {
                        color
                    } else {
                        orig[i]
                    },
            decreases y + h - gy,
        {
            let mut gx: i32 = x;
            while gx < x + w
                invariant
                    self.pixels@.len() == 256,
                    orig.len() == 256,
                    i32::MIN <= x + w <= i32::MAX,
                    i32::MIN <= y + h <= i32::MAX,
                    y <= gy < y + h,
                    x <= gx,
                    gx <= x + w || gx == x,
                    forall|i: int|
                        0 <= i < 256 ==> #[trigger] self.pixels@[i] == if rect_covers(
                            i,
                            x as int,
                            y as int,
                            w as int,
                            gy - y,
                        ) || (i / 16 == gy && x <= i % 16 < gx) {
                            color
                        } else {
                            orig[i]
                        },
                decreases x + w - gx,
            {
                if !(gx < 0 || gy < 0 || gx >= GRID || gy >= GRID) {
                    proof {
                        lemma_cell(gx as int, gy as int);
                    }
                    let idx = (gy * GRID + gx) as usize;
                    self.pixels.set(idx, color);
                }
                gx = gx + 1;
            }
            assert forall|i: int| 0 <= i < 256 implies #[trigger] self.pixels@[i] == if rect_covers(
                i,
                x as int,
                y as int,
                w as int,
                gy + 1 - y,
            ) {
                color
            } else {
                orig[i]
            } by {
                assert(rect_covers(i, x as int, y as int, w as int, gy + 1 - y) == (rect_covers(
                    i,
                    x as int,
                    y as int,
                    w as int,
                    gy - y,
                ) || (i / 16 == gy && x <= i % 16 < gx)));
            }
            gy = gy + 1;
        }
        assert forall|i: int| 0 <= i < 256 implies #[trigger] self.pixels@[i] == filled_rect(
            orig,
            x as int,
            y as int,
            w as int,
            h as int,
            color,
        )[i] by {
            assert(rect_covers(i, x as int, y as int, w as int, h as int) == rect_covers(
                i,
                x as int,
                y as int,
                w as int,
                gy - y,
            ));
        }
        assert(self.pixels@ =~= filled_rect(orig, x as int, y as int, w as int, h as int, color));
    }

    /// Paints a square backdrop of `color` over the whole grid except its
    /// four chamfered corners (each corner cell and its two neighbours along
    /// the edges).
    pub fn rounded_square(&mut self, color: Color)
        requires
            old(self).pixels@.len() == 256,
        ensures
            final(self).pixels@ == rounded_square(old(self).pixels@, color),
    {
        let ghost orig = self.pixels@;
        let mut y: i32 = 0;
        while y < GRID
            invariant
                self.pixels@.len() == 256,
                orig.len() == 256,
                0 <= y <= 16,
                forall|i: int|
                    0 <= i < 256 ==> #[trigger] self.pixels@[i] == if i / 16 < y && !corner_clipped(
                        i % 16,
                        i / 16,
                    ) {
                        color
                    } else {
                        orig[i]
                    },
            decreases 16 - y,
        {
            let mut x: i32 = 0;
            while x < GRID
                invariant
                    self.pixels@.len() == 256,
                    orig.len() == 256,
                    0 <= y < 16,
                    0 <= x <= 16,
                    forall|i: int|
                        0 <= i < 256 ==> #[trigger] self.pixels@[i] == if (i / 16 < y || (i / 16 == y
                            && i % 16 < x)) && !corner_clipped(i % 16, i / 16) {
                            color
                        } else {
                            orig[i]
                        },
                decreases 16 - x,
            {
                let clipped = x + y <= 1 || (15 - x) + y <= 1 || x + (15 - y) <= 1 || (15 - x) + (15
                    - y) <= 1;
                proof {
                    lemma_cell(x as int, y as int);
                }
                if !clipped {
                    self.pixels.set((y * GRID + x) as usize, color);
                }
                x = x + 1;
            }
            y = y + 1;
        }
        assert(self.pixels@ =~= rounded_square(orig, color));
    }

    /// The icon's grid: a chamfered dark backdrop, the vertical axis, and
    /// bars alternating left and right off it, like timeline entries.
    pub fn icon() -> (g: Grid)
        ensures
            g.pixels@ == icon_cells(),
    {
        let mut grid = Grid::new();
        grid.rounded_square(Color { r: 30, g: 33, b: 40, a: 255 });
        grid.fill_rect(7, 2, 2, 12, Color { r: 205, g: 209, b: 218, a: 255 });
        grid.fill_rect(9, 3, 5, 3, Color { r: 66, g: 133, b: 244, a: 255 });
        grid.fill_rect(2, 7, 5, 3, Color { r: 52, g: 199, b: 89, a: 255 });
        grid.fill_rect(9, 11, 6, 3, Color { r: 255, g: 149, b: 0, a: 255 });
        grid
    }

    /// The grid drawn as a 256 x 256 image, each cell a 16 x 16 block of
    /// pixels.
    pub fn to_raster(&self) -> (r: Raster)
        requires
            self.pixels@.len() == 256,
        ensures
            raster_size(r) == (ICON_SIZE, ICON_SIZE),
            forall|p: (u32, u32)|
                in_image((ICON_SIZE, ICON_SIZE), p) ==> #[trigger] raster_pixels(r)[p]
                    == self.pixels@[(p.1 / 16) * 16 + p.0 / 16].channels(),
    {
        let mut image = raster_new(ICON_SIZE, ICON_SIZE);
        let mut y: u32 = 0;
        while y < ICON_SIZE
            invariant
                self.pixels@.len() == 256,
                raster_size(image) == (ICON_SIZE, ICON_SIZE),
                y <= 256,
                forall|p: (u32, u32)|
                    in_image((ICON_SIZE, ICON_SIZE), p) && p.1 < y ==> #[trigger] raster_pixels(image)[p]
                        == self.pixels@[(p.1 / 16) * 16 + p.0 / 16].channels(),
            decreases 256 - y,
        {
            let mut x: u32 = 0;
            while x < ICON_SIZE
                invariant
                    self.pixels@.len() == 256,
                    raster_size(image) == (ICON_SIZE, ICON_SIZE),
                    y < 256,
                    x <= 256,
                    forall|p: (u32, u32)|
                        in_image((ICON_SIZE, ICON_SIZE), p) && (p.1 < y || (p.1 == y && p.0 < x))
                            ==> #[trigger] raster_pixels(image)[p] == self.pixels@[(p.1 / 16) * 16 + p.0
                            / 16].channels(),
                decreases 256 - x,
            {
                proof {
                    lemma_cell((x / SCALE) as int, (y / SCALE) as int);
                }
                let c = self.pixels[((y / SCALE) * 16 + x / SCALE) as usize];
                put_raster_pixel(&mut image, x, y, c);
                x = x + 1;
            }
            y = y + 1;
        }
        image
    }
}

/// `v` as two little-endian bytes.
pub open spec fn le16(v: int) -> Seq<u8> {
    seq![(v % 256) as u8, ((v / 256) % 256) as u8]
}

/// `v` as four little-endian bytes.
pub open spec fn le32(v: int) -> Seq<u8> {
    seq![(v % 256) as u8, ((v / 256) % 256) as u8, ((v / 65536) % 256) as u8, ((v / 16777216) % 256) as u8]
}

/// The width or height byte of an icon directory entry: 0 stands for 256
/// (and larger).
pub open spec fn dim_byte(size: u32) -> u8 {
    if size >= 256 {
        0
    } else {
        size as u8
    }
}

/// The total length of the first `k` frames' PNG data.
pub open spec fn data_len(frames: Seq<(u32, Vec<u8>)>, k: int) -> int
    decreases k,
{
    if k <= 0 {
        0
    } else {
        data_len(frames, k - 1) + frames[k - 1].1@.len()
    }
}

/// Where frame `k`'s PNG data starts in the file: after the 6-byte header,
/// one 16-byte directory entry per frame, and the earlier frames' data.
pub open spec fn frame_offset(frames: Seq<(u32, Vec<u8>)>, k: int) -> int {
    6 + 16 * frames.len() + data_len(frames, k)
}

/// The directory entry of frame `k`: width and height, no palette, one
/// colour plane, 32 bits per pixel, the PNG data's length and its offset.
pub open spec fn dir_entry(frames: Seq<(u32, Vec<u8>)>, k: int) -> Seq<u8> {
    seq![dim_byte(frames[k].0), dim_byte(frames[k].0), 0u8, 0u8] + le16(1) + le16(32) + le32(
        frames[k].1@.len() as int,
    ) + le32(frame_offset(frames, k))
}

/// The first `k` directory entries.
pub open spec fn dir_entries(frames: Seq<(u32, Vec<u8>)>, k: int) -> Seq<u8>
    decreases k,
{
    if k <= 0 {
        seq![]
    } else {
        dir_entries(frames, k - 1) + dir_entry(frames, k - 1)
    }
}

/// The first `k` frames' PNG data, back to back.
pub open spec fn frame_data(frames: Seq<(u32, Vec<u8>)>, k: int) -> Seq<u8>
    decreases k,
{
    if k <= 0 {
        seq![]
    } else {
        frame_data(frames, k - 1) + frames[k - 1].1@
    }
}

/// A Windows `.ico` file holding each frame as a PNG image: the header
/// (reserved 0, type 1 for an icon, the number of frames as 16 bits), the
/// directory, and the frames' data.
pub open spec fn ico_file(frames: Seq<(u32, Vec<u8>)>) -> Seq<u8> {
    le16(0) + le16(1) + le16((frames.len() % 65536) as int) + dir_entries(frames, frames.len() as int)
        + frame_data(frames, frames.len() as int)
}

fn push_le16(out: &mut Vec<u8>, v: u32)
    requires
        v < 65536,
    ensures
        final(out)@ == old(out)@ + le16(v as int),
{
    out.push((v % 256) as u8);
    out.push(((v / 256) % 256) as u8);
    assert(final(out)@ =~= old(out)@ + le16(v as int));
}

fn push_le32(out: &mut Vec<u8>, v: u32)
    ensures
        final(out)@ == old(out)@ + le32(v as int),
{
    out.push((v % 256) as u8);
    out.push(((v / 256) % 256) as u8);
    out.push(((v / 65536) % 256) as u8);
    out.push(((v / 16777216) % 256) as u8);
    assert(final(out)@ =~= old(out)@ + le32(v as int));
}

proof fn lemma_data_len_monotone(frames: Seq<(u32, Vec<u8>)>, j: int, k: int)
    requires
        0 <= j <= k <= frames.len(),
    ensures
        data_len(frames, j) <= data_len(frames, k),
    decreases k - j,
{
    if j < k {
        lemma_data_len_monotone(frames, j, k - 1);
    }
}

/// The bytes of a `.ico` file holding the given (size, PNG data) frames.
pub fn ico_bytes(frames: &Vec<(u32, Vec<u8>)>) -> (out: Vec<u8>)
    requires
        frame_offset(frames@, frames@.len() as int) <= u32::MAX,
    ensures
        out@ == ico_file(frames@),
        forall|k: int|
            0 <= k < frames@.len() ==> {
                let s = (#[trigger] frames@[k]).0;
                &&& s < 256 ==> out@[6 + 16 * k] as int == s && out@[7 + 16 * k] as int == s
                &&& s >= 256 ==> out@[6 + 16 * k] == 0 && out@[7 + 16 * k] == 0
            },
{
    proof {
        assert forall|k: int| 0 <= k < frames@.len() implies {
            let s = (#[trigger] frames@[k]).0;
            let f = ico_file(frames@);
            &&& s < 256 ==> f[6 + 16 * k] as int == s && f[7 + 16 * k] as int == s
            &&& s >= 256 ==> f[6 + 16 * k] == 0 && f[7 + 16 * k] == 0
        } by {
            ico_header_and_entries(frames@, k);
        }
    }
    let n = frames.len();
    proof {
        lemma_data_len_monotone(frames@, 0, n as int);
    }
    let mut out: Vec<u8> = Vec::new();
    push_le16(&mut out, 0);
    push_le16(&mut out, 1);
    push_le16(&mut out, (n % 65536) as u32);
    let mut offset: u32 = (6 + 16 * n) as u32;
    let mut k: usize = 0;
    while k < n
        invariant
            n == frames@.len(),
            k <= n,
            frame_offset(frames@, n as int) <= u32::MAX,
            offset == frame_offset(frames@, k as int),
            out@ == le16(0) + le16(1) + le16((n % 65536) as int) + dir_entries(frames@, k as int),
        decreases n - k,
    {
        proof {
            lemma_data_len_monotone(frames@, k + 1, n as int);
        }
        let size = frames[k].0;
        let len = frames[k].1.len();
        let dim: u8 = if size >= 256 { 0 } else { size as u8 };
        let ghost before = out@;
        out.push(dim);
        out.push(dim);
        out.push(0);
        out.push(0);
        push_le16(&mut out, 1);
        push_le16(&mut out, 32);
        push_le32(&mut out, len as u32);
        push_le32(&mut out, offset);
        assert(out@ =~= before + dir_entry(frames@, k as int));
        offset = offset + len as u32;
        k = k + 1;
    }
    let mut k: usize = 0;
    while k < n
        invariant
            n == frames@.len(),
            k <= n,
            out@ == le16(0) + le16(1) + le16((n % 65536) as int) + dir_entries(frames@, n as int) + frame_data(
                frames@,
                k as int,
            ),
        decreases n - k,
    {
        let data = &frames[k].1;
        let m = data.len();
        let mut j: usize = 0;
        let ghost before = out@;
        while j < m
            invariant
                m == data@.len(),
                j <= m,
                out@ == before + data@.subrange(0, j as int),
            decreases m - j,
        {
            out.push(data[j]);
            j = j + 1;
            assert(out@ =~= before + data@.subrange(0, j as int));
        }
        assert(data@.subrange(0, m as int) =~= data@);
        k = k + 1;
    }
    out
}

/// The `.ico` frames of `master` at each of `sizes`: the image resampled
/// to a square of that side by nearest neighbour and encoded as PNG, or
/// `None` when encoding a frame fails, which it does not for frames of at
/// least one pixel (all that the precondition admits).
pub fn icon_frames(master: &Raster, sizes: &Vec<u32>) -> (r: Option<Vec<(u32, Vec<u8>)>>)
    requires
        forall|k: int|
            0 <= k < sizes@.len() ==> #[trigger] sizes@[k] > 0 && 4 * sizes@[k] * sizes@[k] <= usize::MAX,
    ensures
        r is Some,
        r matches Some(frames) ==> {
            &&& frames@.len() == sizes@.len()
            &&& forall|k: int|
                0 <= k < sizes@.len() ==> (#[trigger] frames@[k]).0 == sizes@[k] && frames@[k].1@
                    == png_encoding(
                    nearest_resized(
                        raster_pixels(*master),
                        raster_size(*master),
                        (sizes@[k], sizes@[k]),
                    ),
                    (sizes@[k], sizes@[k]),
                )
        },
{
    let mut frames: Vec<(u32, Vec<u8>)> = Vec::new();
    let mut k: usize = 0;
    while k < sizes.len()
        invariant
            k <= sizes@.len(),
            forall|j: int|
                0 <= j < sizes@.len() ==> #[trigger] sizes@[j] > 0 && 4 * sizes@[j] * sizes@[j] <= usize::MAX,
            frames@.len() == k,
            forall|j: int|
                0 <= j < k ==> (#[trigger] frames@[j]).0 == sizes@[j] && frames@[j].1@ == png_encoding(
                    nearest_resized(
                        raster_pixels(*master),
                        raster_size(*master),
                        (sizes@[j], sizes@[j]),
                    ),
                    (sizes@[j], sizes@[j]),
                ),
        decreases sizes@.len() - k,
    {
        let size = sizes[k];
        let resized = raster_resize_nearest(master, size, size);
        match raster_encode_png(&resized) {
            Some(png) => {
                frames.push((size, png));
            },
            None => {
                return None;
            },
        }
        k = k + 1;
    }
    Some(frames)
}

proof fn lemma_dir_entries(frames: Seq<(u32, Vec<u8>)>, k: int, m: int)
    requires
        0 <= k < m <= frames.len(),
    ensures
        dir_entries(frames, m).len() == 16 * m,
        dir_entries(frames, m).subrange(16 * k, 16 * k + 16) == dir_entry(frames, k),
    decreases m,
{
    lemma_dir_entries_len(frames, m - 1);
    if k < m - 1 {
        lemma_dir_entries(frames, k, m - 1);
        assert(dir_entries(frames, m).subrange(16 * k, 16 * k + 16) =~= dir_entries(
            frames,
            m - 1,
        ).subrange(16 * k, 16 * k + 16));
    } else {
        assert(dir_entries(frames, m).subrange(16 * k, 16 * k + 16) =~= dir_entry(frames, k));
    }
}

proof fn lemma_dir_entries_len(frames: Seq<(u32, Vec<u8>)>, m: int)
    requires
        0 <= m <= frames.len(),
    ensures
        dir_entries(frames, m).len() == 16 * m,
    decreases m,
{
    if m > 0 {
        lemma_dir_entries_len(frames, m - 1);
    }
}

proof fn lemma_frame_data(frames: Seq<(u32, Vec<u8>)>, k: int, m: int)
    requires
        0 <= k < m <= frames.len(),
    ensures
        frame_data(frames, m).subrange(data_len(frames, k), data_len(frames, k + 1)) == frames[k].1@,
    decreases m,
{
    lemma_frame_data_len(frames, m - 1);
    lemma_frame_data_len(frames, k);
    if k < m - 1 {
        lemma_frame_data(frames, k, m - 1);
        lemma_data_len_monotone(frames, k + 1, m - 1);
        assert(frame_data(frames, m).subrange(data_len(frames, k), data_len(frames, k + 1)) =~= frame_data(
            frames,
            m - 1,
        ).subrange(data_len(frames, k), data_len(frames, k + 1)));
    } else {
        assert(frame_data(frames, m).subrange(data_len(frames, k), data_len(frames, k + 1))
            =~= frames[k].1@);
    }
}

proof fn lemma_frame_data_len(frames: Seq<(u32, Vec<u8>)>, m: int)
    requires
        0 <= m <= frames.len(),
    ensures
        frame_data(frames, m).len() == data_len(frames, m),
    decreases m,
{
    if m > 0 {
        lemma_frame_data_len(frames, m - 1);
    }
}

proof fn lemma_subrange_right(a: Seq<u8>, b: Seq<u8>, lo: int, hi: int)
    requires
        a.len() <= lo <= hi <= a.len() + b.len(),
    ensures
        (a + b).subrange(lo, hi) == b.subrange(lo - a.len(), hi - a.len()),
{
    assert((a + b).subrange(lo, hi) =~= b.subrange(lo - a.len(), hi - a.len()));
}

proof fn lemma_subrange_left(a: Seq<u8>, b: Seq<u8>, lo: int, hi: int)
    requires
        0 <= lo <= hi <= a.len(),
    ensures
        (a + b).subrange(lo, hi) == a.subrange(lo, hi),
{
    assert((a + b).subrange(lo, hi) =~= a.subrange(lo, hi));
}

/// In a `.ico` file, directory entry `k` follows the 6-byte header and the
/// `k` entries before it, and frame `k`'s PNG data lies in the file exactly
/// at the offset and with the length that its entry gives.
pub proof fn ico_entries_point_at_frames(frames: Seq<(u32, Vec<u8>)>, k: int)
    requires
        0 <= k < frames.len(),
    ensures
        ico_file(frames).subrange(6 + 16 * k, 6 + 16 * k + 16) == dir_entry(frames, k),
        ico_file(frames).subrange(
            frame_offset(frames, k),
            frame_offset(frames, k) + frames[k].1@.len(),
        ) == frames[k].1@,
{
    let n = frames.len() as int;
    let head = le16(0) + le16(1) + le16((frames.len() % 65536) as int);
    let dir = dir_entries(frames, n);
    let data = frame_data(frames, n);
    lemma_dir_entries(frames, k, n);
    lemma_frame_data(frames, k, n);
    lemma_frame_data_len(frames, n);
    lemma_data_len_monotone(frames, k + 1, n);
    lemma_data_len_monotone(frames, 0, k);
    lemma_layout(head, dir, data, k, n, dir_entry(frames, k), data_len(frames, k), frames[k].1@);
}

proof fn lemma_layout(
    head: Seq<u8>,
    dir: Seq<u8>,
    data: Seq<u8>,
    k: int,
    n: int,
    entry: Seq<u8>,
    start: int,
    piece: Seq<u8>,
)
    requires
        head.len() == 6,
        0 <= k < n,
        dir.len() == 16 * n,
        dir.subrange(16 * k, 16 * k + 16) == entry,
        0 <= start,
        start + piece.len() <= data.len(),
        data.subrange(start, start + piece.len()) == piece,
    ensures
        (head + dir + data).subrange(6 + 16 * k, 6 + 16 * k + 16) == entry,
        (head + dir + data).subrange(6 + 16 * n + start, 6 + 16 * n + start + piece.len()) == piece,
{
    lemma_subrange_left(head + dir, data, 6 + 16 * k, 6 + 16 * k + 16);
    lemma_subrange_right(head, dir, 6 + 16 * k, 6 + 16 * k + 16);
    lemma_subrange_right(head + dir, data, 6 + 16 * n + start, 6 + 16 * n + start + piece.len());
}

/// The number that four little-endian bytes stand for.
pub open spec fn read_le32(bytes: Seq<u8>, at: int) -> int {
    bytes[at] as int + 256 * (bytes[at + 1] as int) + 65536 * (bytes[at + 2] as int) + 16777216 * (
    bytes[at + 3] as int)
}

proof fn lemma_le32(v: int)
    requires
        0 <= v < 0x1_0000_0000,
    ensures
        read_le32(le32(v), 0) == v,
{
    let b0 = v % 256;
    let b1 = (v / 256) % 256;
    let b2 = (v / 65536) % 256;
    let b3 = (v / 16777216) % 256;
    assert(le32(v)[0] as int == b0 && le32(v)[1] as int == b1 && le32(v)[2] as int == b2 && le32(
        v,
    )[3] as int == b3);
    assert(b0 + 256 * b1 + 65536 * b2 + 16777216 * b3 == v) by (nonlinear_arith)
        requires
            0 <= v < 0x1_0000_0000,
            b0 == v % 256,
            b1 == (v / 256) % 256,
            b2 == (v / 65536) % 256,
            b3 == (v / 16777216) % 256,
    ;
}

proof fn lemma_ico_header(frames: Seq<(u32, Vec<u8>)>)
    ensures
        ({
            let f = ico_file(frames);
            &&& f.len() >= 6
            &&& f[0] == 0 && f[1] == 0 && f[2] == 1 && f[3] == 0
            &&& f[4] as int + 256 * (f[5] as int) == frames.len() % 65536
        }),
{
    let n = frames.len() as int;
    let f = ico_file(frames);
    let head = le16(0) + le16(1) + le16((frames.len() % 65536) as int);
    let rest = dir_entries(frames, n) + frame_data(frames, n);
    assert(head.len() == 6);
    assert(f =~= head + rest);
    assert forall|i: int| 0 <= i < 6 implies f[i] == #[trigger] head[i] by {}
    let c = frames.len() % 65536;
    assert(head[4] as int == c % 256 && head[5] as int == (c / 256) % 256);
    assert(c % 256 + 256 * ((c / 256) % 256) == c) by (nonlinear_arith)
        requires
            0 <= c < 65536,
    ;
}

proof fn lemma_dir_entry_bytes(frames: Seq<(u32, Vec<u8>)>, k: int)
    requires
        0 <= k < frames.len(),
        frames[k].1@.len() < 0x1_0000_0000,
        0 <= frame_offset(frames, k) < 0x1_0000_0000,
    ensures
        ({
            let entry = dir_entry(frames, k);
            let s = frames[k].0;
            &&& entry.len() == 16
            &&& s < 256 ==> entry[0] as int == s && entry[1] as int == s
            &&& s >= 256 ==> entry[0] == 0 && entry[1] == 0
            &&& entry[2] == 0 && entry[3] == 0
            &&& entry[4] == 1 && entry[5] == 0
            &&& entry[6] == 32 && entry[7] == 0
            &&& read_le32(entry, 8) == frames[k].1@.len()
            &&& read_le32(entry, 12) == frame_offset(frames, k)
        }),
{
    let entry = dir_entry(frames, k);
    let len = frames[k].1@.len() as int;
    let off = frame_offset(frames, k);
    lemma_le32(len);
    lemma_le32(off);
    assert(entry.subrange(8, 12) =~= le32(len));
    assert(entry.subrange(12, 16) =~= le32(off));
    assert(entry[8] == le32(len)[0] && entry[9] == le32(len)[1] && entry[10] == le32(len)[2]
        && entry[11] == le32(len)[3]);
    assert(entry[12] == le32(off)[0] && entry[13] == le32(off)[1] && entry[14] == le32(off)[2]
        && entry[15] == le32(off)[3]);
}

proof fn lemma_bytes_of_window(f: Seq<u8>, e: int, entry: Seq<u8>)
    requires
        0 <= e,
        e + 16 <= f.len(),
        entry.len() == 16,
        f.subrange(e, e + 16) == entry,
    ensures
        forall|i: int| 0 <= i < 16 ==> f[e + i] == #[trigger] entry[i],
        read_le32(f, e + 8) == read_le32(entry, 8),
        read_le32(f, e + 12) == read_le32(entry, 12),
{
    assert forall|i: int| 0 <= i < 16 implies f[e + i] == #[trigger] entry[i] by {
        assert(f.subrange(e, e + 16)[i] == f[e + i]);
    }
    assert(f[e + 8] == entry[8] && f[e + 9] == entry[9] && f[e + 10] == entry[10] && f[e + 11]
        == entry[11]);
    assert(f[e + 12] == entry[12] && f[e + 13] == entry[13] && f[e + 14] == entry[14] && f[e + 15]
        == entry[15]);
}

/// The header of a `.ico` file (reserved 0, type 1, the number of frames as
/// 16 little-endian bits) and each directory entry: the frame's width and
/// height bytes, which are its size when below 256 and 0 (standing for 256)
/// otherwise, no palette, one colour plane, 32 bits per pixel, the length
/// of its PNG data, and an offset at which exactly that data lies in the
/// file.
pub proof fn ico_header_and_entries(frames: Seq<(u32, Vec<u8>)>, k: int)
    requires
        0 <= k < frames.len(),
        frame_offset(frames, frames.len() as int) <= u32::MAX,
    ensures
        ({
            let f = ico_file(frames);
            let e = 6 + 16 * k;
            let s = frames[k].0;
            let len = frames[k].1@.len() as int;
            let o = read_le32(f, e + 12);
            &&& f[0] == 0 && f[1] == 0 && f[2] == 1 && f[3] == 0
            &&& f[4] as int + 256 * (f[5] as int) == frames.len() % 65536
            &&& s < 256 ==> f[e] as int == s && f[e + 1] as int == s
            &&& s >= 256 ==> f[e] == 0 && f[e + 1] == 0
            &&& f[e + 2] == 0 && f[e + 3] == 0
            &&& f[e + 4] == 1 && f[e + 5] == 0
            &&& f[e + 6] == 32 && f[e + 7] == 0
            &&& read_le32(f, e + 8) == len
            &&& 0 <= o && o + len <= f.len()
            &&& f.subrange(o, o + len) == frames[k].1@
        }),
{
    let n = frames.len() as int;
    let f = ico_file(frames);
    let e = 6 + 16 * k;
    lemma_ico_header(frames);
    ico_entries_point_at_frames(frames, k);
    lemma_data_len_monotone(frames, k + 1, n);
    lemma_data_len_monotone(frames, 0, k);
    lemma_dir_entries_len(frames, n);
    lemma_frame_data_len(frames, n);
    let len = frames[k].1@.len() as int;
    let off = frame_offset(frames, k);
    assert(f.len() == 6 + 16 * n + data_len(frames, n)) by {
        assert(le16(0).len() == 2);
    }
    assert(off + len <= frame_offset(frames, n));
    lemma_dir_entry_bytes(frames, k);
    lemma_bytes_of_window(f, e, dir_entry(frames, k));
}

} // verus!
