//! Marking the cells of a route on an image.

use vstd::prelude::*;

verus! {

/// An image of three bytes per pixel: red, green, blue, row by row. It holds an
/// `image::RgbImage`, whose own definition the verifier cannot take in.
#[verifier::external_body]
pub struct Canvas {
    image: image::RgbImage,
}

/// Width and height of a canvas, in pixels.
pub uninterp spec fn canvas_extent(canvas: Canvas) -> (int, int);

/// The bytes a canvas holds.
pub uninterp spec fn canvas_bytes(canvas: Canvas) -> Seq<u8>;

/// Calls `ImageBuffer::from_raw`, which takes the bytes as the image's buffer if
/// they are enough for three bytes per pixel, and refuses them otherwise.
#[verifier::external_body]
fn canvas_from_raw(width: u32, height: u32, bytes: Vec<u8>) -> (made: Option<Canvas>)
    ensures
        made is Some <==> 3 * width * height <= bytes@.len(),
        made matches Some(canvas) ==> canvas_extent(canvas) == (width as int, height as int)
            && canvas_bytes(canvas) == bytes@,
{
    match image::RgbImage::from_raw(width, height, bytes) {
        Some(image) => Some(Canvas { image }),
        None => None,
    }
}

/// Calls `ImageBuffer::into_raw`, which hands the buffer back.
#[verifier::external_body]
fn canvas_into_raw(canvas: Canvas) -> (bytes: Vec<u8>)
    ensures
        bytes@ == canvas_bytes(canvas),
{
    canvas.image.into_raw()
}

/// Calls `ImageBuffer::width`. An image buffer always holds at least three bytes
/// for each of its pixels.
#[verifier::external_body]
fn canvas_width(canvas: &Canvas) -> (w: u32)
    ensures
        w == canvas_extent(*canvas).0,
        3 * w * canvas_extent(*canvas).1 <= canvas_bytes(*canvas).len(),
{
    canvas.image.width()
}

/// Calls `ImageBuffer::height`.
#[verifier::external_body]
fn canvas_height(canvas: &Canvas) -> (h: u32)
    ensures
        h == canvas_extent(*canvas).1,
{
    canvas.image.height()
}

/// Calls `ImageBuffer::put_pixel`, which overwrites the three bytes of the pixel
/// at column `x` and row `y` and nothing else. It panics outside the image, which
/// the precondition excludes.
#[verifier::external_body]
fn canvas_put(canvas: &mut Canvas, x: u32, y: u32, color: (u8, u8, u8))
    requires
        x < canvas_extent(*old(canvas)).0,
        y < canvas_extent(*old(canvas)).1,
    ensures
        canvas_extent(*final(canvas)) == canvas_extent(*old(canvas)),
        canvas_bytes(*final(canvas)) == canvas_bytes(*old(canvas)).update(
            (y * canvas_extent(*old(canvas)).0 + x) * 3,
            color.0,
        ).update((y * canvas_extent(*old(canvas)).0 + x) * 3 + 1, color.1).update(
            (y * canvas_extent(*old(canvas)).0 + x) * 3 + 2,
            color.2,
        ),
{
    canvas.image.put_pixel(x, y, image::Rgb([color.0, color.1, color.2]));
}

/// The pixel at column `x` and row `y` lies on the disc of radius `r` around
/// column `cx` and row `cy`.
pub open spec fn in_disc(cx: int, cy: int, r: int, x: int, y: int) -> bool {
    (x - cx) * (x - cx) + (y - cy) * (y - cy) <= r * r
}

/// The byte at `i` belongs to a pixel of the image that lies on the disc.
pub open spec fn on_disc(extent: (int, int), cx: int, cy: int, r: int, i: int) -> bool {
    0 <= i < 3 * extent.0 * extent.1 && in_disc(cx, cy, r, (i / 3) % extent.0, (i / 3) / extent.0)
}

/// Red, green or blue of a colour, by number.
pub open spec fn channel(color: (u8, u8, u8), k: int) -> u8 {
    if k == 0 {
        color.0
    } else if k == 1 {
        color.1
    } else {
        color.2
    }
}

/// The bytes of an image after the disc has been painted on it in one colour.
pub open spec fn painted(
    bytes: Seq<u8>,
    extent: (int, int),
    cx: int,
    cy: int,
    r: int,
    color: (u8, u8, u8),
) -> Seq<u8> {
    Seq::new(
        bytes.len(),
        |i: int|
            if on_disc(extent, cx, cy, r, i) {
                channel(color, i % 3)
            } else {
                bytes[i]
            },
    )
}

/// The pixel of the byte at `i` has been passed by a walk that goes row by row
/// through the square around the centre and stands at the offset `(dx, dy)`.
spec fn passed(extent: (int, int), cx: int, cy: int, r: int, dy: int, dx: int, i: int) -> bool {
    let x = (i / 3) % extent.0 - cx;
    let y = (i / 3) / extent.0 - cy;
    -r <= x <= r && -r <= y <= r && (y < dy || (y == dy && x < dx))
}

/// The bytes of an image on which the part of the disc that the walk has passed
/// is painted.
spec fn partly(
    bytes: Seq<u8>,
    extent: (int, int),
    cx: int,
    cy: int,
    r: int,
    color: (u8, u8, u8),
    dy: int,
    dx: int,
) -> Seq<u8> {
    Seq::new(
        bytes.len(),
        |i: int|
            if on_disc(extent, cx, cy, r, i) && passed(extent, cx, cy, r, dy, dx, i) {
                channel(color, i % 3)
            } else {
                bytes[i]
            },
    )
}

/// A pixel on the disc is no further than the radius from the centre, along a row
/// and along a column.
proof fn lemma_disc_in_square(cx: int, cy: int, r: int, x: int, y: int)
    requires
        0 <= r,
        in_disc(cx, cy, r, x, y),
    ensures
        -r <= x - cx <= r,
        -r <= y - cy <= r,
{
    let a = x - cx;
    let b = y - cy;
    assert(a * a + b * b <= r * r ==> -r <= a <= r && -r <= b <= r) by (nonlinear_arith)
        requires
            0 <= r,
    ;
}

/// The column and row of a byte determine its pixel.
proof fn lemma_pixel_of(w: int, i: int, x: int, y: int)
    requires
        0 < w,
        0 <= x < w,
        0 <= i,
    ensures
        ((i / 3) % w == x && (i / 3) / w == y) <==> i / 3 == y * w + x,
{
    let p = i / 3;
    vstd::arithmetic::div_mod::lemma_fundamental_div_mod(p, w);
    assert(w * (p / w) == (p / w) * w) by (nonlinear_arith);
    if p == y * w + x {
        vstd::arithmetic::div_mod::lemma_fundamental_div_mod_converse(p, w, y, x);
    }
}

impl Canvas {
    /// The canvas of the given extent over `bytes`, three for each pixel, row by
    /// row; `None` where the bytes are too few.
    pub fn open(width: u32, height: u32, bytes: Vec<u8>) -> (made: Option<Canvas>)
        ensures
            made is Some <==> 3 * width * height <= bytes@.len(),
            made matches Some(canvas) ==> canvas_extent(canvas) == (width as int, height as int)
                && canvas_bytes(canvas) == bytes@,
    {
        canvas_from_raw(width, height, bytes)
    }

    /// The bytes of the canvas.
    pub fn close(self) -> (bytes: Vec<u8>)
        ensures
            bytes@ == canvas_bytes(self),
    {
        canvas_into_raw(self)
    }

    /// Number of columns.
    pub fn width(&self) -> (w: u32)
        ensures
            w == canvas_extent(*self).0,
    {
        canvas_width(self)
    }

    /// Number of rows.
    pub fn height(&self) -> (h: u32)
        ensures
            h == canvas_extent(*self).1,
    {
        canvas_height(self)
    }
}

/// Paints the disc of radius `radius` around the pixel at column `center_x` and row
/// `center_y` in `color`, as far as it lies inside the canvas.
pub fn draw_circle(canvas: &mut Canvas, center_x: u32, center_y: u32, radius: u32, color: (u8, u8, u8))
    ensures
        canvas_extent(*final(canvas)) == canvas_extent(*old(canvas)),
        canvas_bytes(*final(canvas)) == painted(
            canvas_bytes(*old(canvas)),
            canvas_extent(*old(canvas)),
            center_x as int,
            center_y as int,
            radius as int,
            color,
        ),
{
    let width = canvas_width(canvas);
    let height = canvas_height(canvas);
    let ghost extent = canvas_extent(*canvas);
    let ghost base = canvas_bytes(*canvas);
    let ghost cx = center_x as int;
    let ghost cy = center_y as int;
    let ghost r = radius as int;
    let reach: i64 = radius as i64;
    let mut dy: i64 = -reach;
    proof {
        assert(partly(base, extent, cx, cy, r, color, -r, -r) =~= base);
    }
    while dy <= reach
        invariant
            reach == r,
            r == radius,
            cx == center_x,
            cy == center_y,
            extent == (width as int, height as int),
            3 * extent.0 * extent.1 <= base.len(),
            -reach <= dy <= reach + 1,
            canvas_extent(*canvas) == extent,
            canvas_bytes(*canvas) == partly(base, extent, cx, cy, r, color, dy as int, -r),
        decreases reach + 1 - dy,
    {
        let mut dx: i64 = -reach;
        while dx <= reach
            invariant
                reach == r,
                r == radius,
                cx == center_x,
                cy == center_y,
                extent == (width as int, height as int),
                3 * extent.0 * extent.1 <= base.len(),
                -reach <= dy <= reach,
                -reach <= dx <= reach + 1,
                canvas_extent(*canvas) == extent,
                canvas_bytes(*canvas) == partly(base, extent, cx, cy, r, color, dy as int, dx as int),
            decreases reach + 1 - dx,
        {
            assert(dx * dx <= 0x1_0000_0000 * 0x1_0000_0000 && dy * dy <= 0x1_0000_0000 * 0x1_0000_0000
                && r * r <= 0x1_0000_0000 * 0x1_0000_0000 && 0 <= dx * dx && 0 <= dy * dy) by (nonlinear_arith)
                requires
                    -0x1_0000_0000 <= dx <= 0x1_0000_0000,
                    -0x1_0000_0000 <= dy <= 0x1_0000_0000,
                    0 <= r <= 0x1_0000_0000,
            ;
            let far: i128 = (dx as i128) * (dx as i128) + (dy as i128) * (dy as i128);
            let x: i64 = center_x as i64 + dx;
            let y: i64 = center_y as i64 + dy;
            let ghost before = canvas_bytes(*canvas);
            if far <= (reach as i128) * (reach as i128) && x >= 0 && x < width as i64 && y >= 0 && y
                < height as i64 {
                canvas_put(canvas, x as u32, y as u32, color);
                proof {
                    let w = extent.0;
                    let p = y * w + x;
                    assert(0 <= p < w * extent.1 && 0 <= y * w) by (nonlinear_arith)
                        requires
                            0 <= x < w,
                            0 <= y < extent.1,
                            p == y * w + x,
                    ;
                    assert(3 * extent.0 * extent.1 == 3 * (w * extent.1)) by (nonlinear_arith)
                        requires
                            w == extent.0,
                    ;
                    let after = partly(base, extent, cx, cy, r, color, dy as int, dx + 1);
                    assert forall|i: int| 0 <= i < base.len() implies canvas_bytes(*canvas)[i] == after[i] by {
                        lemma_pixel_of(w, i, x as int, y as int);
                        if i / 3 == p {
                            assert(in_disc(cx, cy, r, x as int, y as int));
                        }
                    }
                    assert(canvas_bytes(*canvas) =~= after);
                }
            } else {
                proof {
                    let w = extent.0;
                    let after = partly(base, extent, cx, cy, r, color, dy as int, dx + 1);
                    assert forall|i: int| 0 <= i < base.len() implies before[i] == after[i] by {
                        if on_disc(extent, cx, cy, r, i) && (i / 3) % w - cx == dx && (i / 3) / w - cy
                            == dy {
                            assert(w > 0) by (nonlinear_arith)
                                requires
                                    0 <= i < 3 * w * extent.1,
                                    0 <= w,
                            ;
                            assert(extent.1 > 0) by (nonlinear_arith)
                                requires
                                    0 <= i < 3 * w * extent.1,
                                    0 <= extent.1,
                            ;
                            vstd::arithmetic::div_mod::lemma_mod_bound(i / 3, w);
                            assert(3 * w * extent.1 == 3 * (w * extent.1)) by (nonlinear_arith);
                            assert(i / 3 < w * extent.1);
                            vstd::arithmetic::div_mod::lemma_multiply_divide_lt(i / 3, w, extent.1);
                            assert(false);
                        }
                    }
                    assert(before =~= after);
                }
            }
            dx += 1;
        }
        proof {
            assert(partly(base, extent, cx, cy, r, color, dy + 1, -r) =~= partly(
                base,
                extent,
                cx,
                cy,
                r,
                color,
                dy as int,
                r + 1,
            ));
        }
        dy += 1;
    }
    proof {
        let done = partly(base, extent, cx, cy, r, color, r + 1, -r);
        let whole = painted(base, extent, cx, cy, r, color);
        assert forall|i: int| 0 <= i < base.len() implies done[i] == whole[i] by {
            if on_disc(extent, cx, cy, r, i) {
                lemma_disc_in_square(cx, cy, r, (i / 3) % extent.0, (i / 3) / extent.0);
            }
        }
        assert(done =~= whole);
    }
}

} // verus!
