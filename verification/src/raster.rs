//! Row-major 8-bit raster images and the drawing used by the debug overlays:
//! grayscale to colour, clipped pixel writes, filled discs and Bresenham
//! lines.

use vstd::prelude::*;

verus! {

/// An 8-bit grayscale image stored row by row.
#[derive(Debug, Clone)]
pub struct GrayImage {
    pub width: u32,
    pub height: u32,
    pub pixels: Vec<u8>,
}

/// An 8-bit RGB image stored row by row.
#[derive(Debug, Clone)]
pub struct RgbImage {
    pub width: u32,
    pub height: u32,
    pub pixels: Vec<[u8; 3]>,
}

/// Row-major index of `(x, y)` in an image `width` pixels wide.
pub open spec fn raster_index(width: int, x: int, y: int) -> int {
    y * width + x
}

/// `(x, y)` lies inside a `width` x `height` image.
pub open spec fn inside(width: int, height: int, x: int, y: int) -> bool {
    0 <= x < width && 0 <= y < height
}

impl GrayImage {
    /// One byte per pixel, and coordinates that fit in `i32`.
    pub open spec fn wf(&self) -> bool {
        &&& self.pixels@.len() == self.width * self.height
        &&& self.width <= i32::MAX
        &&& self.height <= i32::MAX
    }

    /// The gray value at `(x, y)`.
    pub open spec fn at(&self, x: int, y: int) -> u8 {
        self.pixels@[raster_index(self.width as int, x, y)]
    }

    /// A black image of the given size.
    pub fn new(width: u32, height: u32) -> (img: GrayImage)
        requires
            width <= i32::MAX,
            height <= i32::MAX,
            width * height <= usize::MAX,
        ensures
            img.wf(),
            img.width == width,
            img.height == height,
            forall|i: int| 0 <= i < img.pixels@.len() ==> #[trigger] img.pixels@[i] == 0,
    {
        let n: usize = (width as usize) * (height as usize);
        let mut pixels: Vec<u8> = Vec::new();
        while pixels.len() < n
            invariant
                n == width * height,
                pixels@.len() <= n,
                forall|i: int| 0 <= i < pixels@.len() ==> #[trigger] pixels@[i] == 0,
            decreases n - pixels@.len(),
        {
            pixels.push(0);
        }
        GrayImage { width, height, pixels }
    }

    /// The gray value at `(x, y)`.
    pub fn get_pixel(&self, x: u32, y: u32) -> (v: u8)
        requires
            self.wf(),
            x < self.width,
            y < self.height,
        ensures
            v == self.at(x as int, y as int),
    {
        let i = offset_of(self.width, self.height, self.pixels.len(), x, y);
        self.pixels[i]
    }

    /// Sets the gray value at `(x, y)`.
    pub fn put_pixel(&mut self, x: u32, y: u32, v: u8)
        requires
            old(self).wf(),
            x < old(self).width,
            y < old(self).height,
        ensures
            final(self).wf(),
            final(self).width == old(self).width,
            final(self).height == old(self).height,
            final(self).pixels@ == old(self).pixels@.update(
                raster_index(old(self).width as int, x as int, y as int),
                v,
            ),
    {
        let i = offset_of(self.width, self.height, self.pixels.len(), x, y);
        self.pixels.set(i, v);
    }
}

impl RgbImage {
    /// Three bytes per pixel, and coordinates that fit in `i32`.
    pub open spec fn wf(&self) -> bool {
        &&& self.pixels@.len() == self.width * self.height
        &&& self.width <= i32::MAX
        &&& self.height <= i32::MAX
    }

    /// The colour at `(x, y)`.
    pub open spec fn at(&self, x: int, y: int) -> [u8; 3] {
        self.pixels@[raster_index(self.width as int, x, y)]
    }

    /// The colour at `(x, y)`.
    pub fn get_pixel(&self, x: u32, y: u32) -> (c: [u8; 3])
        requires
            self.wf(),
            x < self.width,
            y < self.height,
        ensures
            c == self.at(x as int, y as int),
    {
        let i = offset_of(self.width, self.height, self.pixels.len(), x, y);
        self.pixels[i]
    }
}

/// Offset of the in-image pixel `(x, y)` in a buffer of `len` pixels.
fn offset_of(width: u32, height: u32, len: usize, x: u32, y: u32) -> (i: usize)
    requires
        len == width * height,
        x < width,
        y < height,
    ensures
        i == raster_index(width as int, x as int, y as int),
        i < len,
{
    proof {
        lemma_raster_index(width as int, height as int, x as int, y as int);
    }
    (y as usize) * (width as usize) + (x as usize)
}

pub(crate) proof fn lemma_raster_index(width: int, height: int, x: int, y: int)
    requires
        inside(width, height, x, y),
    ensures
        0 <= raster_index(width, x, y) < width * height,
        0 <= y * width <= raster_index(width, x, y),
{
    assert(0 <= y * width + x < width * height) by (nonlinear_arith)
        requires
            0 <= x < width,
            0 <= y < height,
    ;
    assert(0 <= y * width) by (nonlinear_arith)
        requires
            0 <= y,
            0 <= width,
    ;
}

proof fn lemma_raster_index_injective(width: int, height: int, x1: int, y1: int, x2: int, y2: int)
    requires
        inside(width, height, x1, y1),
        inside(width, height, x2, y2),
        raster_index(width, x1, y1) == raster_index(width, x2, y2),
    ensures
        x1 == x2,
        y1 == y2,
{
    assert(y1 == y2) by (nonlinear_arith)
        requires
            0 <= x1 < width,
            0 <= x2 < width,
            y1 * width + x1 == y2 * width + x2,
    {
        if y1 < y2 {
            assert(y2 * width >= (y1 + 1) * width);
        } else if y1 > y2 {
            assert(y1 * width >= (y2 + 1) * width);
        }
    }
}

/// The colour copy of a grayscale image: each pixel becomes `[v, v, v]`.
pub fn gray_to_rgb(image: &GrayImage) -> (rgb: RgbImage)
    requires
        image.wf(),
    ensures
        rgb.wf(),
        rgb.width == image.width,
        rgb.height == image.height,
        forall|i: int|
            0 <= i < rgb.pixels@.len() ==> #[trigger] rgb.pixels@[i] == [
                image.pixels@[i],
                image.pixels@[i],
                image.pixels@[i],
            ],
{
    let mut pixels: Vec<[u8; 3]> = Vec::new();
    let mut i: usize = 0;
    while i < image.pixels.len()
        invariant
            i <= image.pixels@.len(),
            pixels@.len() == i,
            forall|j: int|
                0 <= j < i ==> #[trigger] pixels@[j] == [
                    image.pixels@[j],
                    image.pixels@[j],
                    image.pixels@[j],
                ],
        decreases image.pixels@.len() - i,
    {
        let v = image.pixels[i];
        pixels.push([v, v, v]);
        i = i + 1;
    }
    RgbImage { width: image.width, height: image.height, pixels }
}

/// Paints `(x, y)` with `color` when it lies inside the image and leaves the
/// image unchanged otherwise.
pub fn put_pixel_safe(image: &mut RgbImage, x: i32, y: i32, color: [u8; 3])
    requires
        old(image).wf(),
    ensures
        final(image).wf(),
        final(image).width == old(image).width,
        final(image).height == old(image).height,
        final(image).pixels@ == (if inside(old(image).width as int, old(image).height as int, x as int, y as int) {
            old(image).pixels@.update(raster_index(old(image).width as int, x as int, y as int), color)
        } else {
            old(image).pixels@
        }),
{
    if x < 0 || y < 0 || x >= image.width as i32 || y >= image.height as i32 {
        return;
    }
    let i = offset_of(image.width, image.height, image.pixels.len(), x as u32, y as u32);
    image.pixels.set(i, color);
}

/// Pixel `(x, y)` belongs to the disc of radius `radius` around `(cx, cy)`.
pub open spec fn in_disc(cx: int, cy: int, radius: int, x: int, y: int) -> bool {
    &&& -radius <= x - cx <= radius
    &&& -radius <= y - cy <= radius
    &&& (x - cx) * (x - cx) + (y - cy) * (y - cy) <= radius * radius
}

/// Paints every pixel of the filled disc of radius `radius` around
/// `(cx, cy)` that lies inside the image; a negative radius paints nothing.
pub fn draw_circle(image: &mut RgbImage, cx: i32, cy: i32, radius: i32, color: [u8; 3])
    requires
        old(image).wf(),
        radius <= 32767,
        radius >= 0 ==> i32::MIN + radius <= cx <= i32::MAX - radius,
        radius >= 0 ==> i32::MIN + radius <= cy <= i32::MAX - radius,
    ensures
        final(image).wf(),
        final(image).width == old(image).width,
        final(image).height == old(image).height,
        forall|x: int, y: int|
            #![trigger final(image).at(x, y)]
            inside(old(image).width as int, old(image).height as int, x, y) ==> final(image).at(x, y)
                == (if in_disc(cx as int, cy as int, radius as int, x, y) {
                color
            } else {
                old(image).at(x, y)
            }),
{
    let ghost w = image.width as int;
    let ghost h = image.height as int;
    let ghost start = image.pixels@;
    if radius < 0 {
        return;
    }
    let mut dy: i32 = -radius;
    while dy <= radius
        invariant
            image.wf(),
            image.width == w,
            image.height == h,
            start.len() == w * h,
            0 <= radius <= 32767,
            -radius <= dy <= radius + 1,
            i32::MIN + radius <= cx <= i32::MAX - radius,
            i32::MIN + radius <= cy <= i32::MAX - radius,
            forall|x: int, y: int|
                #![trigger image.at(x, y)]
                inside(w, h, x, y) ==> image.at(x, y) == (if in_disc(cx as int, cy as int, radius as int, x, y)
                    && y - cy < dy {
                    color
                } else {
                    start[raster_index(w, x, y)]
                }),
        decreases radius + 1 - dy,
    {
        let mut dx: i32 = -radius;
        while dx <= radius
            invariant
                image.wf(),
                image.width == w,
                image.height == h,
                start.len() == w * h,
                0 <= radius <= 32767,
                -radius <= dy <= radius,
                -radius <= dx <= radius + 1,
                i32::MIN + radius <= cx <= i32::MAX - radius,
                i32::MIN + radius <= cy <= i32::MAX - radius,
                forall|x: int, y: int|
                    #![trigger image.at(x, y)]
                    inside(w, h, x, y) ==> image.at(x, y) == (if in_disc(cx as int, cy as int, radius as int, x, y)
                        && (y - cy < dy || (y - cy == dy && x - cx < dx)) {
                        color
                    } else {
                        start[raster_index(w, x, y)]
                    }),
            decreases radius + 1 - dx,
        {
            proof {
                assert(0 <= dx * dx <= 32767 * 32767) by (nonlinear_arith)
                    requires
                        -32767 <= dx <= 32767,
                ;
                assert(0 <= dy * dy <= 32767 * 32767) by (nonlinear_arith)
                    requires
                        -32767 <= dy <= 32767,
                ;
                assert(0 <= radius * radius <= 32767 * 32767) by (nonlinear_arith)
                    requires
                        0 <= radius <= 32767,
                ;
            }
            if dx * dx + dy * dy <= radius * radius {
                let ghost before = *image;
                let px = cx + dx;
                let py = cy + dy;
                put_pixel_safe(image, px, py, color);
                proof {
                    assert forall|x: int, y: int|
                        #![trigger image.at(x, y)]
                        inside(w, h, x, y) implies image.at(x, y) == (if in_disc(cx as int, cy as int, radius as int, x, y)
                            && (y - cy < dy || (y - cy == dy && x - cx < dx + 1)) {
                            color
                        } else {
                            start[raster_index(w, x, y)]
                        }) by {
                        lemma_raster_index(w, h, x, y);
                        assert(before.at(x, y) == before.pixels@[raster_index(w, x, y)]);
                        if inside(w, h, px as int, py as int) {
                            lemma_raster_index(w, h, px as int, py as int);
                            if raster_index(w, x, y) == raster_index(w, px as int, py as int) {
                                lemma_raster_index_injective(w, h, x, y, px as int, py as int);
                            }
                        }
                    }
                }
            } else {
                proof {
                    assert forall|x: int, y: int|
                        #![trigger image.at(x, y)]
                        inside(w, h, x, y) implies image.at(x, y) == (if in_disc(cx as int, cy as int, radius as int, x, y)
                            && (y - cy < dy || (y - cy == dy && x - cx < dx + 1)) {
                            color
                        } else {
                            start[raster_index(w, x, y)]
                        }) by {
                        if y - cy == dy && x - cx == dx {
                            assert(!in_disc(cx as int, cy as int, radius as int, x, y));
                        }
                    }
                }
            }
            dx = dx + 1;
        }
        dy = dy + 1;
    }
}

// ---------------------------------------------------------------------------
// Lines
// ---------------------------------------------------------------------------

/// Absolute value.
pub open spec fn abs_int(v: int) -> int {
    if v < 0 {
        -v
    } else {
        v
    }
}

/// `v` lies between `a` and `b`, inclusive.
pub open spec fn between(a: int, v: int, b: int) -> bool {
    (a <= v <= b) || (b <= v <= a)
}

/// `b` equals `a` or is one unit closer to `target`.
pub open spec fn toward(a: int, b: int, target: int) -> bool {
    b == a || (a < target && b == a + 1) || (a > target && b == a - 1)
}

/// Pixel `k` of `pts` is an 8-neighbour of pixel `k - 1`, one step closer to
/// `(x1, y1)` along each axis it moves on.
pub open spec fn step_from(pts: Seq<(int, int)>, k: int, x1: int, y1: int) -> bool {
    &&& pts[k - 1] != pts[k]
    &&& toward(pts[k - 1].0, pts[k].0, x1)
    &&& toward(pts[k - 1].1, pts[k].1, y1)
}

/// `p` lies within the bounding box of the segment and at most
/// `|x1 - x0| + |y1 - y0|` off it in cross product, that is, within about
/// one pixel of the ideal line.
pub open spec fn near_segment(x0: int, y0: int, x1: int, y1: int, p: (int, int)) -> bool {
    &&& between(x0, p.0, x1)
    &&& between(y0, p.1, y1)
    &&& abs_int((p.0 - x0) * (y1 - y0) - (p.1 - y0) * (x1 - x0)) <= abs_int(x1 - x0) + abs_int(
        y1 - y0,
    )
}

/// `pts` walks from `(x0, y0)` to `(x1, y1)` through 8-neighbours, always
/// closing in on the end point and staying next to the ideal segment.
pub open spec fn line_path(x0: int, y0: int, x1: int, y1: int, pts: Seq<(int, int)>) -> bool {
    &&& pts.len() > 0
    &&& pts[0] == (x0, y0)
    &&& pts.last() == (x1, y1)
    &&& forall|k: int| 0 < k < pts.len() ==> #[trigger] step_from(pts, k, x1, y1)
    &&& forall|k: int| 0 <= k < pts.len() ==> #[trigger] near_segment(x0, y0, x1, y1, pts[k])
}

/// The image equals `before` repainted with `color` on the in-image pixels
/// of `pts`.
pub open spec fn painted_along(after: RgbImage, before: RgbImage, pts: Seq<(int, int)>, color: [u8; 3]) -> bool {
    forall|x: int, y: int|
        #![trigger after.at(x, y)]
        inside(before.width as int, before.height as int, x, y) ==> after.at(x, y) == (if pts.contains(
            (x, y),
        ) {
            color
        } else {
            before.at(x, y)
        })
}

/// State `(x, y, err)` of Bresenham's walk from `(x0, y0)` toward
/// `(x1, y1)` after `k` steps: each step moves along x when twice the error
/// is at least `-|y1 - y0|`, along y when it is at most `|x1 - x0|`, and
/// corrects the error accordingly.
pub open spec fn bresenham_state(x0: int, y0: int, x1: int, y1: int, k: nat) -> (int, int, int)
    decreases k,
{
    let dx = abs_int(x1 - x0);
    let dy = -abs_int(y1 - y0);
    if k == 0 {
        (x0, y0, dx + dy)
    } else {
        let (x, y, err) = bresenham_state(x0, y0, x1, y1, (k - 1) as nat);
        let sx: int = if x0 < x1 { 1 } else { -1 };
        let sy: int = if y0 < y1 { 1 } else { -1 };
        let e2 = 2 * err;
        let (nx, err1) = if e2 >= dy { (x + sx, err + dy) } else { (x, err) };
        let (ny, err2) = if e2 <= dx { (y + sy, err1 + dx) } else { (y, err1) };
        (nx, ny, err2)
    }
}

/// Pixel `k` of Bresenham's walk from `(x0, y0)` toward `(x1, y1)`.
pub open spec fn bresenham_point(x0: int, y0: int, x1: int, y1: int, k: nat) -> (int, int) {
    let (x, y, _) = bresenham_state(x0, y0, x1, y1, k);
    (x, y)
}

/// `pts` is Bresenham's walk from `(x0, y0)` up to its first arrival at
/// `(x1, y1)`.
pub open spec fn bresenham_walk(x0: int, y0: int, x1: int, y1: int, pts: Seq<(int, int)>) -> bool {
    &&& pts.len() > 0
    &&& pts.last() == (x1, y1)
    &&& forall|k: int| 0 <= k < pts.len() ==> #[trigger] pts[k] == bresenham_point(x0, y0, x1, y1, k as nat)
    &&& forall|k: int| 0 <= k < pts.len() - 1 ==> #[trigger] pts[k] != (x1, y1)
}

/// Bresenham's error term pins the position: with `i` and `j` steps taken
/// along x and y, `err == dx * (1 + j) + dy * (1 + i)`, and it stays in
/// `[2 * dy, 2 * dx]`; from this the pixel is near the ideal segment.
proof fn lemma_error_near(x0: int, y0: int, x1: int, y1: int, x: int, y: int, dx: int, dy: int, err: int)
    requires
        dx == abs_int(x1 - x0),
        dy == -abs_int(y1 - y0),
        between(x0, x, x1),
        between(y0, y, y1),
        err == dx * (1 + abs_int(y - y0)) + dy * (1 + abs_int(x - x0)),
        2 * dy <= err <= 2 * dx,
    ensures
        near_segment(x0, y0, x1, y1, (x, y)),
{
    let i = abs_int(x - x0);
    let j = abs_int(y - y0);
    let cross = (x - x0) * (y1 - y0) - (y - y0) * (x1 - x0);
    assert(abs_int(cross) == abs_int(i * dy + j * dx)) by (nonlinear_arith)
        requires
            dx == abs_int(x1 - x0),
            dy == -abs_int(y1 - y0),
            i == abs_int(x - x0),
            j == abs_int(y - y0),
            between(x0, x, x1),
            between(y0, y, y1),
            cross == (x - x0) * (y1 - y0) - (y - y0) * (x1 - x0),
    {
        if x1 >= x0 {
            assert(x - x0 == i && x1 - x0 == dx);
        } else {
            assert(x - x0 == -i && x1 - x0 == -dx);
        }
        if y1 >= y0 {
            assert(y - y0 == j && y1 - y0 == -dy);
        } else {
            assert(y - y0 == -j && y1 - y0 == dy);
        }
    }
    assert(i * dy + j * dx == err - dx - dy) by (nonlinear_arith)
        requires
            err == dx * (1 + j) + dy * (1 + i),
    ;
}

/// At the last column the error term forbids another x step unless the
/// line is done.
proof fn lemma_no_step_past_x(dx: int, dy: int, j: int, err: int)
    requires
        dx >= 0,
        dy < 0,
        0 <= j < -dy,
        err == dx * (1 + j) + dy * (1 + dx),
    ensures
        2 * err < dy,
{
    assert(2 * err < dy) by (nonlinear_arith)
        requires
            dx >= 0,
            dy < 0,
            0 <= j < -dy,
            err == dx * (1 + j) + dy * (1 + dx),
    {
        assert(dx * (1 + j) <= dx * (-dy));
    }
}

/// At the last row the error term forbids another y step unless the line
/// is done.
proof fn lemma_no_step_past_y(dx: int, dy: int, i: int, err: int)
    requires
        dx > 0,
        dy <= 0,
        0 <= i < dx,
        err == dx * (1 - dy) + dy * (1 + i),
    ensures
        2 * err > dx,
{
    assert(2 * err > dx) by (nonlinear_arith)
        requires
            dx > 0,
            dy <= 0,
            0 <= i < dx,
            err == dx * (1 - dy) + dy * (1 + i),
    {
        assert(dy * (1 + i) >= dy * dx);
    }
}

/// Draws the segment from `(x0, y0)` to `(x1, y1)` with Bresenham's
/// algorithm, painting the pixels of the path that lie inside the image.
pub fn draw_line(image: &mut RgbImage, x0: i32, y0: i32, x1: i32, y1: i32, color: [u8; 3])
    requires
        old(image).wf(),
        abs_int(x1 - x0) <= 0x2aaa_aaaa,
        abs_int(y1 - y0) <= 0x2aaa_aaaa,
    ensures
        final(image).wf(),
        final(image).width == old(image).width,
        final(image).height == old(image).height,
        exists|pts: Seq<(int, int)>|
            #[trigger] line_path(x0 as int, y0 as int, x1 as int, y1 as int, pts) && bresenham_walk(
                x0 as int,
                y0 as int,
                x1 as int,
                y1 as int,
                pts,
            ) && painted_along(*final(image), *old(image), pts, color),
{
    let ghost start = *image;
    let ghost (fx0, fy0, fx1, fy1) = (x0 as int, y0 as int, x1 as int, y1 as int);
    let mut x: i32 = x0;
    let mut y: i32 = y0;
    let dx: i32 = if x1 >= x0 {
        x1 - x0
    } else {
        x0 - x1
    };
    let sx: i32 = if x0 < x1 {
        1
    } else {
        -1
    };
    let dy: i32 = if y1 >= y0 {
        y0 - y1
    } else {
        y1 - y0
    };
    let sy: i32 = if y0 < y1 {
        1
    } else {
        -1
    };
    let mut err: i32 = dx + dy;
    let ghost mut pts: Seq<(int, int)> = Seq::empty();
    assert(abs_int(y - fy0) == 0 && abs_int(x - fx0) == 0);
    assert(err == dx * (1 + abs_int(y - fy0)) + dy * (1 + abs_int(x - fx0)));
    loop
        invariant_except_break
            image.wf(),
            image.width == start.width,
            image.height == start.height,
            fx0 == x0 && fy0 == y0 && fx1 == x1 && fy1 == y1,
            dx == abs_int(fx1 - fx0),
            dy == -abs_int(fy1 - fy0),
            dx <= 0x2aaa_aaaa,
            dy >= -0x2aaa_aaaa,
            sx == (if x0 < x1 { 1int } else { -1 }),
            sy == (if y0 < y1 { 1int } else { -1 }),
            between(fx0, x as int, fx1),
            between(fy0, y as int, fy1),
            err == dx * (1 + abs_int(y - fy0)) + dy * (1 + abs_int(x - fx0)),
            2 * dy <= err <= 2 * dx,
            3 * dy <= 2 * err <= 3 * dx,
            pts.len() == 0 ==> (x as int, y as int) == (fx0, fy0),
            pts.len() > 0 ==> pts[0] == (fx0, fy0),
            forall|k: int| 0 < k < pts.len() ==> #[trigger] step_from(pts, k, fx1, fy1),
            pts.len() > 0 ==> step_from(pts.push((x as int, y as int)), pts.len() as int, fx1, fy1),
            forall|k: int| 0 <= k < pts.len() ==> #[trigger] near_segment(fx0, fy0, fx1, fy1, pts[k]),
            painted_along(*image, start, pts, color),
            (x as int, y as int, err as int) == bresenham_state(fx0, fy0, fx1, fy1, pts.len()),
            forall|k: int| 0 <= k < pts.len() ==> #[trigger] pts[k] == bresenham_point(fx0, fy0, fx1, fy1, k as nat),
            forall|k: int| 0 <= k < pts.len() ==> #[trigger] pts[k] != (fx1, fy1),
        ensures
            image.wf(),
            image.width == start.width,
            image.height == start.height,
            line_path(fx0, fy0, fx1, fy1, pts),
            bresenham_walk(fx0, fy0, fx1, fy1, pts),
            painted_along(*image, start, pts, color),
        decreases (dx - abs_int(x - fx0)) + (-dy - abs_int(y - fy0)),
    {
        let ghost before = *image;
        put_pixel_safe(image, x, y, color);
        proof {
            let p = (x as int, y as int);
            lemma_error_near(fx0, fy0, fx1, fy1, x as int, y as int, dx as int, dy as int, err as int);
            let old_pts = pts;
            pts = pts.push(p);
            assert forall|k: int| 0 < k < pts.len() implies #[trigger] step_from(pts, k, fx1, fy1) by {
                if k < old_pts.len() {
                    assert(step_from(old_pts, k, fx1, fy1));
                    assert(pts[k - 1] == old_pts[k - 1] && pts[k] == old_pts[k]);
                }
            }
            assert forall|k: int| 0 <= k < pts.len() implies #[trigger] near_segment(fx0, fy0, fx1, fy1, pts[k]) by {
                if k < old_pts.len() {
                    assert(pts[k] == old_pts[k]);
                }
            }
            assert forall|qx: int, qy: int|
                #![trigger image.at(qx, qy)]
                inside(start.width as int, start.height as int, qx, qy) implies image.at(qx, qy) == (if pts.contains(
                    (qx, qy),
                ) {
                    color
                } else {
                    start.at(qx, qy)
                }) by {
                let w = start.width as int;
                let h = start.height as int;
                lemma_raster_index(w, h, qx, qy);
                assert(before.at(qx, qy) == before.pixels@[raster_index(w, qx, qy)]);
                if (qx, qy) == p {
                    assert(pts[pts.len() - 1] == p);
                } else {
                    if inside(w, h, p.0, p.1) {
                        lemma_raster_index(w, h, p.0, p.1);
                        if raster_index(w, qx, qy) == raster_index(w, p.0, p.1) {
                            lemma_raster_index_injective(w, h, qx, qy, p.0, p.1);
                        }
                    }
                    if pts.contains((qx, qy)) {
                        let k = choose|k: int| 0 <= k < pts.len() && pts[k] == (qx, qy);
                        assert(old_pts.contains((qx, qy))) by {
                            assert(k < old_pts.len());
                            assert(old_pts[k] == (qx, qy));
                        }
                    } else {
                        assert forall|k: int| 0 <= k < old_pts.len() implies old_pts[k] != (qx, qy) by {
                            assert(pts[k] == old_pts[k]);
                        }
                    }
                }
            }
        }
        if x == x1 && y == y1 {
            proof {
                assert(pts.last() == (fx1, fy1));
                assert(pts[0] == (fx0, fy0));
            }
            break;
        }
        let ghost (ox, oy, oerr) = (x as int, y as int, err as int);
        let e2 = 2 * err;
        if e2 >= dy {
            if x == x1 {
                proof {
                    if dy < 0 {
                        lemma_no_step_past_x(dx as int, dy as int, abs_int(oy - fy0), oerr);
                    }
                }
                break;
            }
            proof {
                let i = abs_int(x - fx0);
                let j = abs_int(y - fy0);
                assert(abs_int(x + sx - fx0) == i + 1);
                assert(dx * (1 + j) + dy * (1 + (i + 1)) == dx * (1 + j) + dy * (1 + i) + dy)
                    by (nonlinear_arith);
            }
            err = err + dy;
            x = x + sx;
        }
        if e2 <= dx {
            if y == y1 {
                proof {
                    assert(oy == fy1);
                    assert(ox != fx1);
                    assert(abs_int(ox - fx0) < dx);
                    if dx > 0 {
                        lemma_no_step_past_y(dx as int, dy as int, abs_int(ox - fx0), oerr);
                    }
                }
                break;
            }
            proof {
                let i = abs_int(x - fx0);
                let j = abs_int(y - fy0);
                assert(abs_int(y + sy - fy0) == j + 1);
                assert(dx * (1 + (j + 1)) + dy * (1 + i) == dx * (1 + j) + dy * (1 + i) + dx)
                    by (nonlinear_arith);
            }
            err = err + dx;
            y = y + sy;
        }
    }
    proof {
        assert(line_path(fx0, fy0, fx1, fy1, pts));
    }
}

} // verus!
