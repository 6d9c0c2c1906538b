use vstd::prelude::*;
use image::{ImageBuffer, Rgba, RgbaImage};
use crate::model::Color;

verus! {

/// An RGBA image of the `image` crate, held whole in a private field and
/// read and written only through the functions below.
#[verifier::external_body]
pub struct Raster {
    image: RgbaImage,
}

/// The pixels of the image by `(x, y)`, as (red, green, blue, alpha).
pub uninterp spec fn raster_pixels(raster: Raster) -> Map<(u32, u32), (u8, u8, u8, u8)>;

/// The width and height of the image.
pub uninterp spec fn raster_size(raster: Raster) -> (u32, u32);

/// Whether `p` lies inside an image of the given size.
pub open spec fn in_image(size: (u32, u32), p: (u32, u32)) -> bool {
    p.0 < size.0 && p.1 < size.1
}

/// The pixel at `(x, y)` of a row-major RGBA byte buffer of the given width.
pub open spec fn raw_pixel(data: Seq<u8>, width: u32, x: u32, y: u32) -> (u8, u8, u8, u8) {
    let i = 4 * (y * width + x);
    (data[i], data[i + 1], data[i + 2], data[i + 3])
}

/// `ImageBuffer::from_raw`: an image over a row-major RGBA byte buffer, when
/// the buffer holds at least `4 * width * height` bytes.
#[verifier::external_body]
fn raster_from_raw(width: u32, height: u32, data: Vec<u8>) -> (r: Option<Raster>)
    ensures
        r is Some <==> 4 * width * height <= data@.len(),
        r matches Some(img) ==> raster_size(img) == (width, height) && forall|p: (u32, u32)|
            in_image((width, height), p) ==> #[trigger] raster_pixels(img)[p] == raw_pixel(
                data@,
                width,
                p.0,
                p.1,
            ),
{
    match ImageBuffer::from_raw(width, height, data) {
        Some(image) => Some(Raster { image }),
        None => None,
    }
}

/// `ImageBuffer::into_raw`: the byte buffer under the image.
#[verifier::external_body]
fn raster_into_raw(raster: Raster) -> (data: Vec<u8>)
    ensures
        4 * raster_size(raster).0 * raster_size(raster).1 <= data@.len(),
        forall|p: (u32, u32)|
            in_image(raster_size(raster), p) ==> raw_pixel(data@, raster_size(raster).0, p.0, p.1)
                == #[trigger] raster_pixels(raster)[p],
{
    raster.image.into_raw()
}

/// `ImageBuffer::dimensions`: the width and height of the image.
#[verifier::external_body]
pub(crate) fn raster_dimensions(raster: &Raster) -> (d: (u32, u32))
    ensures
        d == raster_size(*raster),
{
    raster.image.dimensions()
}

/// `ImageBuffer::get_pixel`: the pixel at `(x, y)`, which must lie inside
/// the image (the call panics otherwise).
#[verifier::external_body]
pub(crate) fn raster_pixel(raster: &Raster, x: u32, y: u32) -> (c: Color)
    requires
        in_image(raster_size(*raster), (x, y)),
    ensures
        c.channels() == raster_pixels(*raster)[(x, y)],
{
    let p = raster.image.get_pixel(x, y);
    Color { r: p[0], g: p[1], b: p[2], a: p[3] }
}

/// `ImageBuffer::put_pixel`: replaces the pixel at `(x, y)`, which must lie
/// inside the image (the call panics otherwise), and nothing else.
#[verifier::external_body]
pub(crate) fn put_raster_pixel(raster: &mut Raster, x: u32, y: u32, c: Color)
    requires
        in_image(raster_size(*old(raster)), (x, y)),
    ensures
        raster_size(*final(raster)) == raster_size(*old(raster)),
        raster_pixels(*final(raster)) == raster_pixels(*old(raster)).insert((x, y), c.channels()),
{
    raster.image.put_pixel(x, y, Rgba([c.r, c.g, c.b, c.a]));
}

/// `ImageBuffer::new`: a fully transparent black image of the given size.
/// The call panics when `4 * width * height` overflows `usize`, which the
/// precondition rules out; like any allocation it can still fail for want
/// of memory.
#[verifier::external_body]
pub(crate) fn raster_new(width: u32, height: u32) -> (r: Raster)
    requires
        4 * width * height <= usize::MAX,
    ensures
        raster_size(r) == (width, height),
        forall|p: (u32, u32)|
            in_image((width, height), p) ==> #[trigger] raster_pixels(r)[p] == (0u8, 0u8, 0u8, 0u8),
{
    Raster { image: ImageBuffer::new(width, height) }
}

/// The pixels of `pixels` (an image of size `size`) resampled to
/// `new_size` with nearest-neighbour sampling, as the `image` crate's
/// `imageops::resize` computes them.
pub uninterp spec fn nearest_resized(
    pixels: Map<(u32, u32), (u8, u8, u8, u8)>,
    size: (u32, u32),
    new_size: (u32, u32),
) -> Map<(u32, u32), (u8, u8, u8, u8)>;

/// `imageops::resize` with `FilterType::Nearest`: an image of the new size
/// (a copy when the size is unchanged) whose pixels are named by
/// `nearest_resized`.
#[verifier::external_body]
pub(crate) fn raster_resize_nearest(raster: &Raster, width: u32, height: u32) -> (r: Raster)
    requires
        width > 0,
        height > 0,
        4 * width * height <= usize::MAX,
    ensures
        raster_size(r) == (width, height),
        raster_pixels(r) == nearest_resized(
            raster_pixels(*raster),
            raster_size(*raster),
            (width, height),
        ),
        raster_size(*raster) == (width, height) ==> forall|p: (u32, u32)|
            in_image((width, height), p) ==> #[trigger] raster_pixels(r)[p] == raster_pixels(
                *raster,
            )[p],
{
    Raster { image: image::imageops::resize(&raster.image, width, height, image::imageops::FilterType::Nearest) }
}

/// The PNG file that the `image` crate's encoder writes for an RGBA image
/// with the given pixels and size.
pub uninterp spec fn png_encoding(
    pixels: Map<(u32, u32), (u8, u8, u8, u8)>,
    size: (u32, u32),
) -> Seq<u8>;

/// `ImageBuffer::write_to` with `ImageFormat::Png` into memory: the PNG
/// bytes (named by `png_encoding`), or `None` when the encoder reports an
/// error. The encoder reports one for an image of zero width or height;
/// for an RGBA image of at least one pixel written into memory its other
/// error paths are I/O errors of the writer, which a `Vec` never gives, so
/// such an image is encoded.
#[verifier::external_body]
pub(crate) fn raster_encode_png(raster: &Raster) -> (r: Option<Vec<u8>>)
    ensures
        r matches Some(bytes) ==> bytes@ == png_encoding(raster_pixels(*raster), raster_size(*raster)),
        raster_size(*raster).0 > 0 && raster_size(*raster).1 > 0 ==> r is Some,
{
    let mut bytes: Vec<u8> = Vec::new();
    match raster.image.write_to(&mut std::io::Cursor::new(&mut bytes), image::ImageFormat::Png) {
        Ok(()) => Some(bytes),
        Err(_) => None,
    }
}

impl Raster {
    /// The image over a row-major RGBA byte buffer of `width * height`
    /// pixels, or `None` when the buffer is too short.
    pub fn from_raw(width: u32, height: u32, data: Vec<u8>) -> (r: Option<Raster>)
        ensures
            r is Some <==> 4 * width * height <= data@.len(),
            r matches Some(img) ==> raster_size(img) == (width, height) && forall|p: (u32, u32)|
                in_image((width, height), p) ==> #[trigger] raster_pixels(img)[p] == raw_pixel(
                    data@,
                    width,
                    p.0,
                    p.1,
                ),
    {
        raster_from_raw(width, height, data)
    }

    /// The row-major RGBA byte buffer under the image.
    pub fn into_raw(self) -> (data: Vec<u8>)
        ensures
            4 * raster_size(self).0 * raster_size(self).1 <= data@.len(),
            forall|p: (u32, u32)|
                in_image(raster_size(self), p) ==> raw_pixel(data@, raster_size(self).0, p.0, p.1)
                    == #[trigger] raster_pixels(self)[p],
    {
        raster_into_raw(self)
    }

    /// The width and height of the image.
    pub fn dimensions(&self) -> (d: (u32, u32))
        ensures
            d == raster_size(*self),
    {
        raster_dimensions(self)
    }
}

/// The channel `s` of a colour with opacity `a`, whose channels are
/// premultiplied by alpha, composited over the channel `d`:
/// `s + d * (1 - a/255)` rounded to the nearest integer (the exact value is
/// never halfway between two integers, as 255 is odd), at most 255.
pub open spec fn mix(s: u8, d: u8, a: u8) -> int {
    let rounded = (2 * (255 * s + d * (255 - a)) + 255) / 510;
    if rounded > 255 {
        255
    } else {
        rounded
    }
}

/// The pixel `dst` after painting `c` over it: unchanged when `c` is fully
/// transparent, replaced when it is opaque, and otherwise alpha-composited
/// into an opaque pixel.
pub open spec fn blended(dst: (u8, u8, u8, u8), c: Color) -> (u8, u8, u8, u8) {
    if c.a == 0 {
        dst
    } else if c.a == 255 {
        c.channels()
    } else {
        (mix(c.r, dst.0, c.a) as u8, mix(c.g, dst.1, c.a) as u8, mix(c.b, dst.2, c.a) as u8, 255u8)
    }
}

/// Painting a fully transparent colour leaves a pixel as it was, an opaque
/// colour replaces it, and a translucent one composites each channel by
/// `mix` into an opaque pixel.
pub proof fn blended_law(dst: (u8, u8, u8, u8), c: Color)
    ensures
        c.a == 0 ==> blended(dst, c) == dst,
        c.a == 255 ==> blended(dst, c) == (c.r, c.g, c.b, c.a),
        0 < c.a < 255 ==> {
            let b = blended(dst, c);
            &&& b.3 == 255
            &&& b.0 as int == mix(c.r, dst.0, c.a)
            &&& b.1 as int == mix(c.g, dst.1, c.a)
            &&& b.2 as int == mix(c.b, dst.2, c.a)
        },
{
    mix_is_nearest(c.r, dst.0, c.a);
    mix_is_nearest(c.g, dst.1, c.a);
    mix_is_nearest(c.b, dst.2, c.a);
}

/// Compositing picks the nearest integer to the exact blend whenever that
/// is a channel value, never darkens the colour painted, and painting over
/// black leaves the (premultiplied) colour as it is.
pub proof fn mix_is_nearest(s: u8, d: u8, a: u8)
    ensures
        ({
            let n = 255 * s + d * (255 - a);
            n <= 255 * 255 ==> -255 < 2 * (255 * mix(s, d, a) - n) <= 255
        }),
        s <= mix(s, d, a) <= 255,
        mix(s, 0, a) == s,
{
    let n: int = 255 * s + d * (255 - a);
    let r: int = (2 * n + 255) / 510;
    assert(510 * r <= 2 * n + 255 < 510 * r + 510) by (nonlinear_arith)
        requires
            r == (2 * n + 255) / 510,
            n >= 0,
    ;
    assert(0 <= d * (255 - a)) by (nonlinear_arith)
        requires
            0 <= d,
            0 <= a <= 255,
    ;
    assert((2 * (255 * s + 0 * (255 - a)) + 255) / 510 == s) by (nonlinear_arith)
        requires
            0 <= s <= 255,
    ;
}

/// One channel composited: `mix(s, d, a)`.
pub fn mix_channel(s: u8, d: u8, a: u8) -> (r: u8)
    ensures
        r == mix(s, d, a),
{
    let s32 = s as u32;
    let d32 = d as u32;
    let a32 = a as u32;
    assert(d32 * (255 - a32) <= 255 * 255) by (nonlinear_arith)
        requires
            d32 <= 255,
            a32 <= 255,
    ;
    let n = 255 * s32 + d32 * (255 - a32);
    let rounded = (2 * n + 255) / 510;
    if rounded > 255 {
        255
    } else {
        rounded as u8
    }
}

/// Paints `color` onto pixel `(x, y)`, compositing over the existing pixel
/// when `color` is translucent.
pub fn blend_pixel(image: &mut Raster, x: u32, y: u32, color: Color)
    requires
        in_image(raster_size(*old(image)), (x, y)),
    ensures
        raster_size(*final(image)) == raster_size(*old(image)),
        raster_pixels(*final(image)) == if color.a == 0 {
            raster_pixels(*old(image))
        } else {
            raster_pixels(*old(image)).insert(
                (x, y),
                blended(raster_pixels(*old(image))[(x, y)], color),
            )
        },
{
    let a = color.a;
    if a == 0 {
        return;
    }
    if a == 255 {
        put_raster_pixel(image, x, y, color);
        return;
    }
    let dst = raster_pixel(image, x, y);
    let out = Color {
        r: mix_channel(color.r, dst.r, a),
        g: mix_channel(color.g, dst.g, a),
        b: mix_channel(color.b, dst.b, a),
        a: 255,
    };
    put_raster_pixel(image, x, y, out);
}

/// Whether the mask of a `w`-wide box at `(x0, y0)` covers image pixel `p`:
/// `p` lies in the box and the mask entry of its offset in the box, in
/// row-major order, is set.
pub open spec fn mask_covers(
    p: (u32, u32),
    x0: i32,
    y0: i32,
    w: i32,
    h: i32,
    mask: Seq<bool>,
) -> bool {
    &&& x0 <= p.0 < x0 + w
    &&& y0 <= p.1 < y0 + h
    &&& mask[(p.1 - y0) * w + (p.0 - x0)]
}

/// Pixel `p` is covered and comes before offset `(cols, rows)` of the box in
/// row-major order.
pub open spec fn covered_before(
    p: (u32, u32),
    x0: i32,
    y0: i32,
    w: i32,
    h: i32,
    mask: Seq<bool>,
    rows: int,
    cols: int,
) -> bool {
    &&& mask_covers(p, x0, y0, w, h, mask)
    &&& (p.1 - y0 < rows || (p.1 - y0 == rows && p.0 - x0 < cols))
}

proof fn lemma_mask_index(dx: int, dy: int, w: int, h: int)
    requires
        0 <= dx < w,
        0 <= dy < h,
    ensures
        0 <= dy * w + dx < w * h,
{
    assert(dy * w + dx < w * h) by (nonlinear_arith)
        requires
            0 <= dx < w,
            0 <= dy < h,
    ;
    assert(0 <= dy * w) by (nonlinear_arith)
        requires
            0 <= dy,
            0 <= w,
    ;
}

/// A mask covers exactly the pixels of its box whose row-major mask entry
/// is set.
pub proof fn mask_covers_law(p: (u32, u32), x0: i32, y0: i32, w: i32, h: i32, mask: Seq<bool>)
    ensures
        mask_covers(p, x0, y0, w, h, mask) == (x0 <= p.0 < x0 + w && y0 <= p.1 < y0 + h && mask[(p.1
            - y0) * w + (p.0 - x0)]),
{
}

/// Paints `color` (see `blend_pixel`) onto every pixel of the `w` x `h` box
/// at `(x0, y0)` that lies inside the image and whose entry in the row-major
/// `mask` is set; each such pixel is painted once.
pub fn fill_mask(image: &mut Raster, x0: i32, y0: i32, w: i32, h: i32, mask: &Vec<bool>, color: Color)
    requires
        w > 0 && h > 0 ==> mask@.len() == w * h,
        w > 0 ==> x0 + w - 1 <= i32::MAX,
        h > 0 ==> y0 + h - 1 <= i32::MAX,
    ensures
        raster_size(*final(image)) == raster_size(*old(image)),
        forall|p: (u32, u32)|
            #[trigger] raster_pixels(*final(image))[p] == if in_image(raster_size(*old(image)), p)
                && mask_covers(p, x0, y0, w, h, mask@) {
                blended(raster_pixels(*old(image))[p], color)
            } else {
                raster_pixels(*old(image))[p]
            },
        forall|p: (u32, u32)|
            #![trigger raster_pixels(*final(image))[p]]
            p.0 < raster_size(*old(image)).0 && p.1 < raster_size(*old(image)).1 && x0 <= p.0 < x0 + w
                && y0 <= p.1 < y0 + h && mask@[(p.1 - y0) * w + (p.0 - x0)] ==> raster_pixels(
                *final(image),
            )[p] == blended(raster_pixels(*old(image))[p], color),
        forall|p: (u32, u32)|
            #![trigger raster_pixels(*final(image))[p]]
            raster_pixels(*final(image))[p] != raster_pixels(*old(image))[p] ==> {
                &&& p.0 < raster_size(*old(image)).0 && p.1 < raster_size(*old(image)).1
                &&& x0 <= p.0 < x0 + w && y0 <= p.1 < y0 + h
                &&& mask@[(p.1 - y0) * w + (p.0 - x0)]
            },
{
    let ghost orig = raster_pixels(*image);
    let ghost size = raster_size(*image);
    let (img_w, img_h) = image.dimensions();
    let mask_len = mask.len();
    let mut dy: i32 = 0;
    while dy < h
        invariant
            raster_size(*image) == size,
            size == (img_w, img_h),
            mask_len == mask@.len(),
            w > 0 && h > 0 ==> mask@.len() == w * h,
            w > 0 ==> x0 + w - 1 <= i32::MAX,
            h > 0 ==> y0 + h - 1 <= i32::MAX,
            0 <= dy,
            dy <= h || h <= 0,
            forall|p: (u32, u32)|
                #[trigger] raster_pixels(*image)[p] == if in_image(size, p) && covered_before(
                    p,
                    x0,
                    y0,
                    w,
                    h,
                    mask@,
                    dy as int,
                    0,
                ) {
                    blended(orig[p], color)
                } else {
                    orig[p]
                },
        decreases h - dy,
    {
        let py = y0 + dy;
        if py >= 0 && (py as u32) < img_h {
            let mut dx: i32 = 0;
            while dx < w
                invariant
                    raster_size(*image) == size,
                    size == (img_w, img_h),
                    mask_len == mask@.len(),
                    0 <= dy < h,
                    mask@.len() == w * h || w <= 0,
                    w > 0 ==> x0 + w - 1 <= i32::MAX,
                    py == y0 + dy,
                    0 <= py < img_h,
                    0 <= dx,
                    dx <= w || w <= 0,
                    forall|p: (u32, u32)|
                        #[trigger] raster_pixels(*image)[p] == if in_image(size, p) && covered_before(
                            p,
                            x0,
                            y0,
                            w,
                            h,
                            mask@,
                            dy as int,
                            dx as int,
                        ) {
                            blended(orig[p], color)
                        } else {
                            orig[p]
                        },
                decreases w - dx,
            {
                let px = x0 + dx;
                if px >= 0 && (px as u32) < img_w {
                    proof {
                        lemma_mask_index(dx as int, dy as int, w as int, h as int);
                        assert(mask@.len() == w * h);
                    }
                    let idx = (dy as usize) * (w as usize) + (dx as usize);
                    if mask[idx] {
                        let ghost before_pixels = raster_pixels(*image);
                        let ghost q = (px as u32, py as u32);
                        blend_pixel(image, px as u32, py as u32, color);
                        assert(mask_covers(q, x0, y0, w, h, mask@));
                        assert forall|p: (u32, u32)|
                            #[trigger] raster_pixels(*image)[p] == if in_image(size, p) && covered_before(
                                p,
                                x0,
                                y0,
                                w,
                                h,
                                mask@,
                                dy as int,
                                dx + 1,
                            ) {
                                blended(orig[p], color)
                            } else {
                                orig[p]
                            } by {
                            if p != q {
                                assert(before_pixels[p] == raster_pixels(*image)[p]);
                            }
                        }
                    } else {
                        assert forall|p: (u32, u32)|
                            #[trigger] raster_pixels(*image)[p] == if in_image(size, p) && covered_before(
                                p,
                                x0,
                                y0,
                                w,
                                h,
                                mask@,
                                dy as int,
                                dx + 1,
                            ) {
                                blended(orig[p], color)
                            } else {
                                orig[p]
                            } by {
                            if p.0 == px && p.1 == py {
                                assert(!mask_covers(p, x0, y0, w, h, mask@));
                            }
                        }
                    }
                } else {
                    assert forall|p: (u32, u32)|
                        #[trigger] raster_pixels(*image)[p] == if in_image(size, p) && covered_before(
                            p,
                            x0,
                            y0,
                            w,
                            h,
                            mask@,
                            dy as int,
                            dx + 1,
                        ) {
                            blended(orig[p], color)
                        } else {
                            orig[p]
                        } by {
                        if p.0 == px && p.1 == py {
                            assert(!in_image(size, p));
                        }
                    }
                }
                dx = dx + 1;
            }
            assert forall|p: (u32, u32)|
                #[trigger] raster_pixels(*image)[p] == if in_image(size, p) && covered_before(
                    p,
                    x0,
                    y0,
                    w,
                    h,
                    mask@,
                    dy + 1,
                    0,
                ) {
                    blended(orig[p], color)
                } else {
                    orig[p]
                } by {
                if p.1 - y0 == dy && mask_covers(p, x0, y0, w, h, mask@) {
                    assert(covered_before(p, x0, y0, w, h, mask@, dy as int, dx as int));
                }
            }
        } else {
            assert forall|p: (u32, u32)|
                #[trigger] raster_pixels(*image)[p] == if in_image(size, p) && covered_before(
                    p,
                    x0,
                    y0,
                    w,
                    h,
                    mask@,
                    dy + 1,
                    0,
                ) {
                    blended(orig[p], color)
                } else {
                    orig[p]
                } by {
                if p.1 - y0 == dy {
                    assert(!in_image(size, p));
                }
            }
        }
        dy = dy + 1;
    }
    assert forall|p: (u32, u32)|
        #[trigger] raster_pixels(*image)[p] == if in_image(size, p) && mask_covers(p, x0, y0, w, h, mask@) {
            blended(orig[p], color)
        } else {
            orig[p]
        } by {
        if mask_covers(p, x0, y0, w, h, mask@) {
            assert(covered_before(p, x0, y0, w, h, mask@, dy as int, 0));
        }
    }
}

} // verus!
