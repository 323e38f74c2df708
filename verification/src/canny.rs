use vstd::prelude::*;

use crate::color::{ImageRgb, Position};
use crate::isqrt::{isqrt_u128, sqrt_floor};

verus! {

/// A grayscale image: one byte per pixel, row-major.
pub struct GrayImage {
    pub width: u32,
    pub height: u32,
    pub data: Vec<u8>,
}

impl GrayImage {
    pub open spec fn wf(self) -> bool {
        &&& 0 < self.width <= 0x8000
        &&& 0 < self.height <= 0x8000
        &&& self.data.len() == self.width * self.height
    }

    pub open spec fn spec_at(self, x: int, y: int) -> u8 {
        self.data[y * self.width + x]
    }

    pub fn new(width: u32, height: u32) -> (r: GrayImage)
        requires
            0 < width <= 0x8000,
            0 < height <= 0x8000,
        ensures
            r.wf(),
            r.width == width,
            r.height == height,
            forall|x: int, y: int|
                0 <= x < width && 0 <= y < height ==> r.spec_at(x, y) == 0u8,
    {
        proof {
            assert((width as int) * (height as int) <= 0x4000_0000) by (nonlinear_arith)
                requires
                    0 < width <= 0x8000,
                    0 < height <= 0x8000,
            ;
        }
        let n = (width as usize) * (height as usize);
        let mut data: Vec<u8> = Vec::new();
        let mut i: usize = 0;
        while i < n
            invariant
                i <= n,
                data.len() == i,
                forall|j: int| 0 <= j < i ==> data[j] == 0u8,
            decreases n - i,
        {
            data.push(0);
            i = i + 1;
        }
        let img = GrayImage { width, height, data };
        proof {
            assert forall|x: int, y: int|
                0 <= x < width && 0 <= y < height implies img.spec_at(x, y) == 0u8 by {
                lemma_gray_index(img, x, y);
            }
        }
        img
    }

    pub fn get_pixel(&self, x: u32, y: u32) -> (r: u8)
        requires
            self.wf(),
            x < self.width,
            y < self.height,
        ensures
            r == self.spec_at(x as int, y as int),
    {
        proof {
            lemma_gray_index(*self, x as int, y as int);
        }
        self.data[(y as usize) * (self.width as usize) + (x as usize)]
    }

    pub fn put_pixel(&mut self, x: u32, y: u32, v: u8) -> (r: ())
        requires
            old(self).wf(),
            x < old(self).width,
            y < old(self).height,
        ensures
            final(self).wf(),
            final(self).width == old(self).width,
            final(self).height == old(self).height,
            final(self).spec_at(x as int, y as int) == v,
            forall|a: int, b: int|
                0 <= a < final(self).width && 0 <= b < final(self).height && !(a == x && b == y)
                    ==> final(self).spec_at(a, b) == old(self).spec_at(a, b),
    {
        proof {
            lemma_gray_index(*self, x as int, y as int);
        }
        let idx = (y as usize) * (self.width as usize) + (x as usize);
        self.data.set(idx, v);
        proof {
            assert forall|a: int, b: int|
                0 <= a < self.width && 0 <= b < self.height && !(a == x && b == y) implies self
                .spec_at(a, b) == old(self).spec_at(a, b) by {
                lemma_gray_index(*self, a, b);
                lemma_gray_distinct(*self, a, b, x as int, y as int);
            }
        }
    }
}

proof fn lemma_gray_index(img: GrayImage, x: int, y: int)
    requires
        0 < img.width,
        0 < img.height,
        img.data.len() == img.width * img.height,
        0 <= x < img.width,
        0 <= y < img.height,
    ensures
        0 <= y * img.width + x < img.data.len(),
{
    let w = img.width as int;
    let h = img.height as int;
    assert(0 <= y * w + x < w * h) by (nonlinear_arith)
        requires
            0 <= x < w,
            0 <= y < h,
    ;
}

/// Different pixel coordinates land on different byte offsets.
proof fn lemma_gray_distinct(img: GrayImage, a: int, b: int, x: int, y: int)
    requires
        0 < img.width,
        0 <= a < img.width,
        0 <= x < img.width,
        0 <= b,
        0 <= y,
        !(a == x && b == y),
    ensures
        b * img.width + a != y * img.width + x,
{
    let w = img.width as int;
    assert(b * w + a != y * w + x) by (nonlinear_arith)
        requires
            0 <= a < w,
            0 <= x < w,
            0 <= b,
            0 <= y,
            !(a == x && b == y),
    ;
}

/// The gradient magnitude at an interior pixel: the integer square
/// root of gx^2 + gy^2, saturated to a byte, with the central
/// differences gx, gy of the 4-neighborhood.
pub open spec fn spec_gradient_mag(img: GrayImage, x: int, y: int) -> int {
    let gx = img.spec_at(x + 1, y) - img.spec_at(x - 1, y);
    let gy = img.spec_at(x, y + 1) - img.spec_at(x, y - 1);
    let m = sqrt_floor((gx * gx + gy * gy) as nat) as int;
    if m > 255 {
        255int
    } else {
        m
    }
}

/// Computes the gradient-magnitude image over the interior (the
/// one-pixel border stays zero). The companion gradient-direction
/// image needs `atan2` and is computed outside the verified core.
pub fn gradient_magnitude(image: &GrayImage) -> (r: GrayImage)
    requires
        image.wf(),
    ensures
        r.wf(),
        r.width == image.width,
        r.height == image.height,
        forall|x: int, y: int|
            1 <= x < image.width - 1 && 1 <= y < image.height - 1 ==> r.spec_at(x, y)
                == spec_gradient_mag(*image, x, y),
        forall|x: int, y: int|
            0 <= x < image.width && 0 <= y < image.height && !(1 <= x < image.width - 1 && 1 <= y
                < image.height - 1) ==> r.spec_at(x, y) == 0u8,
{
    let width = image.width;
    let height = image.height;
    let mut out = GrayImage::new(width, height);
    if width < 3 || height < 3 {
        return out;
    }
    let mut y: u32 = 1;
    while y < height - 1
        invariant
            image.wf(),
            out.wf(),
            out.width == width,
            out.height == height,
            width == image.width,
            height == image.height,
            3 <= width,
            3 <= height,
            1 <= y <= height - 1,
            forall|a: int, b: int|
                1 <= a < width - 1 && 1 <= b < y ==> out.spec_at(a, b) == spec_gradient_mag(
                    *image,
                    a,
                    b,
                ),
            forall|a: int, b: int|
                0 <= a < width && 0 <= b < height && !(1 <= a < width - 1 && 1 <= b < height - 1)
                    ==> out.spec_at(a, b) == 0u8,
        decreases height - y,
    {
        let mut x: u32 = 1;
        while x < width - 1
            invariant
                image.wf(),
                out.wf(),
                out.width == width,
                out.height == height,
                width == image.width,
                height == image.height,
                3 <= width,
                3 <= height,
                1 <= y < height - 1,
                1 <= x <= width - 1,
                forall|a: int, b: int|
                    1 <= a < width - 1 && 1 <= b < y ==> out.spec_at(a, b) == spec_gradient_mag(
                        *image,
                        a,
                        b,
                    ),
                forall|a: int|
                    1 <= a < x ==> out.spec_at(a, y as int) == spec_gradient_mag(
                        *image,
                        a,
                        y as int,
                    ),
                forall|a: int, b: int|
                    0 <= a < width && 0 <= b < height && !(1 <= a < width - 1 && 1 <= b < height
                        - 1) ==> out.spec_at(a, b) == 0u8,
            decreases width - x,
        {
            let gx = (image.get_pixel(x + 1, y) as i64) - (image.get_pixel(x - 1, y) as i64);
            let gy = (image.get_pixel(x, y + 1) as i64) - (image.get_pixel(x, y - 1) as i64);
            proof {
                crate::vec3::lemma_mul_bound(gx as int, gx as int, 255);
                crate::vec3::lemma_mul_bound(gy as int, gy as int, 255);
                assert(gx * gx >= 0 && gy * gy >= 0) by (nonlinear_arith);
            }
            let sq = (gx * gx + gy * gy) as u128;
            let m = isqrt_u128(sq);
            let v: u8 = if m > 255 {
                255
            } else {
                m as u8
            };
            out.put_pixel(x, y, v);
            x = x + 1;
        }
        y = y + 1;
    }
    out
}

/// One pixel of non-maximum suppression: zero the magnitude where a
/// neighbor along the quantized gradient direction is stronger.
pub open spec fn spec_nms_pixel(mag: GrayImage, dir: GrayImage, x: int, y: int) -> u8 {
    let m = mag.spec_at(x, y);
    let d = dir.spec_at(x, y);
    if (d <= 22 || 157 <= d <= 180) && (m < mag.spec_at(x - 1, y) || m < mag.spec_at(x + 1, y)) {
        0u8
    } else if 23 <= d <= 67 && (m < mag.spec_at(x - 1, y + 1) || m < mag.spec_at(x + 1, y - 1)) {
        0u8
    } else if 68 <= d <= 112 && (m < mag.spec_at(x, y + 1) || m < mag.spec_at(x, y - 1)) {
        0u8
    } else if 113 <= d <= 156 && (m < mag.spec_at(x - 1, y - 1) || m < mag.spec_at(x + 1, y + 1)) {
        0u8
    } else {
        m
    }
}

/// Thins edges: keeps an interior pixel's gradient magnitude only
/// where it is the local maximum along its gradient direction.
pub fn non_max_suppression(gradient_magnitude: &GrayImage, gradient_direction: &GrayImage) -> (r:
    GrayImage)
    requires
        gradient_magnitude.wf(),
        gradient_direction.wf(),
        gradient_magnitude.width == gradient_direction.width,
        gradient_magnitude.height == gradient_direction.height,
    ensures
        r.wf(),
        r.width == gradient_magnitude.width,
        r.height == gradient_magnitude.height,
        forall|x: int, y: int|
            1 <= x < r.width - 1 && 1 <= y < r.height - 1 ==> r.spec_at(x, y) == spec_nms_pixel(
                *gradient_magnitude,
                *gradient_direction,
                x,
                y,
            ),
        forall|x: int, y: int|
            0 <= x < r.width && 0 <= y < r.height && !(1 <= x < r.width - 1 && 1 <= y < r.height
                - 1) ==> r.spec_at(x, y) == 0u8,
{
    let width = gradient_magnitude.width;
    let height = gradient_magnitude.height;
    let mut out = GrayImage::new(width, height);
    if width < 3 || height < 3 {
        return out;
    }
    let mut y: u32 = 1;
    while y < height - 1
        invariant
            gradient_magnitude.wf(),
            gradient_direction.wf(),
            gradient_magnitude.width == gradient_direction.width,
            gradient_magnitude.height == gradient_direction.height,
            out.wf(),
            out.width == width,
            out.height == height,
            width == gradient_magnitude.width,
            height == gradient_magnitude.height,
            3 <= width,
            3 <= height,
            1 <= y <= height - 1,
            forall|a: int, b: int|
                1 <= a < width - 1 && 1 <= b < y ==> out.spec_at(a, b) == spec_nms_pixel(
                    *gradient_magnitude,
                    *gradient_direction,
                    a,
                    b,
                ),
            forall|a: int, b: int|
                0 <= a < width && 0 <= b < height && !(1 <= a < width - 1 && 1 <= b < height - 1)
                    ==> out.spec_at(a, b) == 0u8,
        decreases height - y,
    {
        let mut x: u32 = 1;
        while x < width - 1
            invariant
                gradient_magnitude.wf(),
                gradient_direction.wf(),
                gradient_magnitude.width == gradient_direction.width,
                gradient_magnitude.height == gradient_direction.height,
                out.wf(),
                out.width == width,
                out.height == height,
                width == gradient_magnitude.width,
                height == gradient_magnitude.height,
                3 <= width,
                3 <= height,
                1 <= y < height - 1,
                1 <= x <= width - 1,
                forall|a: int, b: int|
                    1 <= a < width - 1 && 1 <= b < y ==> out.spec_at(a, b) == spec_nms_pixel(
                        *gradient_magnitude,
                        *gradient_direction,
                        a,
                        b,
                    ),
                forall|a: int|
                    1 <= a < x ==> out.spec_at(a, y as int) == spec_nms_pixel(
                        *gradient_magnitude,
                        *gradient_direction,
                        a,
                        y as int,
                    ),
                forall|a: int, b: int|
                    0 <= a < width && 0 <= b < height && !(1 <= a < width - 1 && 1 <= b < height
                        - 1) ==> out.spec_at(a, b) == 0u8,
            decreases width - x,
        {
            let magnitude = gradient_magnitude.get_pixel(x, y);
            let direction = gradient_direction.get_pixel(x, y);
            let mut pixel_value = magnitude;
            if direction <= 22 || (157 <= direction && direction <= 180) {
                if magnitude < gradient_magnitude.get_pixel(x - 1, y) || magnitude
                    < gradient_magnitude.get_pixel(x + 1, y) {
                    pixel_value = 0;
                }
            } else if 23 <= direction && direction <= 67 {
                if magnitude < gradient_magnitude.get_pixel(x - 1, y + 1) || magnitude
                    < gradient_magnitude.get_pixel(x + 1, y - 1) {
                    pixel_value = 0;
                }
            } else if 68 <= direction && direction <= 112 {
                if magnitude < gradient_magnitude.get_pixel(x, y + 1) || magnitude
                    < gradient_magnitude.get_pixel(x, y - 1) {
                    pixel_value = 0;
                }
            } else if 113 <= direction && direction <= 156 {
                if magnitude < gradient_magnitude.get_pixel(x - 1, y - 1) || magnitude
                    < gradient_magnitude.get_pixel(x + 1, y + 1) {
                    pixel_value = 0;
                }
            }
            out.put_pixel(x, y, pixel_value);
            x = x + 1;
        }
        y = y + 1;
    }
    out
}

/// One pixel of the double threshold: strong edges become 0, weak
/// ones 255, and in-between pixels survive (as 0) only beside a
/// strong neighbor, else 128.
pub open spec fn spec_threshold_pixel(img: GrayImage, lo: u8, hi: u8, x: int, y: int) -> u8 {
    let p = img.spec_at(x, y);
    if p >= hi {
        0u8
    } else if p < lo {
        255u8
    } else {
        if img.spec_at(x - 1, y - 1) >= hi || img.spec_at(x, y - 1) >= hi || img.spec_at(
            x + 1,
            y - 1,
        ) >= hi || img.spec_at(x - 1, y) >= hi || img.spec_at(x + 1, y) >= hi || img.spec_at(
            x - 1,
            y + 1,
        ) >= hi || img.spec_at(x, y + 1) >= hi || img.spec_at(x + 1, y + 1) >= hi {
            0u8
        } else {
            128u8
        }
    }
}

/// Classifies every pixel by the two thresholds. A border pixel must
/// already be decided by the thresholds alone (below the low one or
/// at least the high one): an in-between border pixel would need
/// neighbors outside the image, where the float pipeline fails hard.
pub fn double_threshold(image: &GrayImage, low_threshold: u8, high_threshold: u8) -> (r: GrayImage)
    requires
        image.wf(),
        forall|x: int, y: int|
            0 <= x < image.width && 0 <= y < image.height && !(1 <= x < image.width - 1 && 1 <= y
                < image.height - 1) ==> (image.spec_at(x, y) < low_threshold || image.spec_at(
                x,
                y,
            ) >= high_threshold),
    ensures
        r.wf(),
        r.width == image.width,
        r.height == image.height,
        forall|x: int, y: int|
            0 <= x < r.width && 0 <= y < r.height ==> r.spec_at(x, y) == spec_threshold_pixel(
                *image,
                low_threshold,
                high_threshold,
                x,
                y,
            ),
{
    let width = image.width;
    let height = image.height;
    let mut out = GrayImage::new(width, height);
    let mut y: u32 = 0;
    while y < height
        invariant
            image.wf(),
            out.wf(),
            out.width == width,
            out.height == height,
            width == image.width,
            height == image.height,
            y <= height,
            forall|a: int, b: int|
                0 <= a < width && 0 <= b < height && !(1 <= a < width - 1 && 1 <= b < height - 1)
                    ==> (image.spec_at(a, b) < low_threshold || image.spec_at(a, b)
                    >= high_threshold),
            forall|a: int, b: int|
                0 <= a < width && 0 <= b < y ==> out.spec_at(a, b) == spec_threshold_pixel(
                    *image,
                    low_threshold,
                    high_threshold,
                    a,
                    b,
                ),
        decreases height - y,
    {
        let mut x: u32 = 0;
        while x < width
            invariant
                image.wf(),
                out.wf(),
                out.width == width,
                out.height == height,
                width == image.width,
                height == image.height,
                y < height,
                x <= width,
                forall|a: int, b: int|
                    0 <= a < width && 0 <= b < height && !(1 <= a < width - 1 && 1 <= b < height
                        - 1) ==> (image.spec_at(a, b) < low_threshold || image.spec_at(a, b)
                        >= high_threshold),
                forall|a: int, b: int|
                    0 <= a < width && 0 <= b < y ==> out.spec_at(a, b) == spec_threshold_pixel(
                        *image,
                        low_threshold,
                        high_threshold,
                        a,
                        b,
                    ),
                forall|a: int|
                    0 <= a < x ==> out.spec_at(a, y as int) == spec_threshold_pixel(
                        *image,
                        low_threshold,
                        high_threshold,
                        a,
                        y as int,
                    ),
            decreases width - x,
        {
            let p = image.get_pixel(x, y);
            let v: u8 = if p >= high_threshold {
                0
            } else if p < low_threshold {
                255
            } else {
                // An in-between pixel is interior (the requires rules
                // out an in-between border pixel), so its eight
                // neighbors exist.
                proof {
                    assert(1 <= x < width - 1 && 1 <= y < height - 1);
                }
                if image.get_pixel(x - 1, y - 1) >= high_threshold || image.get_pixel(x, y - 1)
                    >= high_threshold || image.get_pixel(x + 1, y - 1) >= high_threshold
                    || image.get_pixel(x - 1, y) >= high_threshold || image.get_pixel(x + 1, y)
                    >= high_threshold || image.get_pixel(x - 1, y + 1) >= high_threshold
                    || image.get_pixel(x, y + 1) >= high_threshold || image.get_pixel(x + 1, y + 1)
                    >= high_threshold {
                    0
                } else {
                    128
                }
            };
            out.put_pixel(x, y, v);
            x = x + 1;
        }
        y = y + 1;
    }
    out
}

/// What each pixel of the edge overlay holds: the gray edge value on
/// an edge (edge map not 255), the source pixel elsewhere.
pub open spec fn spec_edge_pixel_ok(
    out: ImageRgb,
    image: ImageRgb,
    edge: GrayImage,
    x: int,
    y: int,
) -> bool {
    let e = edge.spec_at(x, y);
    let px = Position { x: x as u32, y: y as u32 };
    if e != 255 {
        out.spec_channel(px, 0) == e && out.spec_channel(px, 1) == e && out.spec_channel(px, 2)
            == e
    } else {
        out.spec_channel(px, 0) == image.spec_channel(px, 0) && out.spec_channel(px, 1)
            == image.spec_channel(px, 1) && out.spec_channel(px, 2) == image.spec_channel(px, 2)
    }
}

/// Overlays detected edges on a color image: wherever the edge map is
/// not 255, the pixel becomes the gray edge value; elsewhere the
/// source pixel shows through.
pub fn write_edge(image: &ImageRgb, edge: &GrayImage) -> (r: ImageRgb)
    requires
        image.wf(),
        edge.wf(),
        image.width == edge.width,
        image.height == edge.height,
    ensures
        r.wf(),
        r.width == image.width,
        r.height == image.height,
        forall|x: int, y: int|
            0 <= x < r.width && 0 <= y < r.height ==> spec_edge_pixel_ok(r, *image, *edge, x, y),
{
    let width = image.width;
    let height = image.height;
    let mut out = crate::color::ImageRgb::new(width, height);
    let mut i: u32 = 0;
    while i < width
        invariant
            image.wf(),
            edge.wf(),
            out.wf(),
            out.width == width,
            out.height == height,
            width == image.width,
            height == image.height,
            width == edge.width,
            height == edge.height,
            i <= width,
            forall|a: int, b: int|
                0 <= a < i && 0 <= b < height ==> spec_edge_pixel_ok(out, *image, *edge, a, b),
        decreases width - i,
    {
        let mut j: u32 = 0;
        while j < height
            invariant
                image.wf(),
                edge.wf(),
                out.wf(),
                out.width == width,
                out.height == height,
                width == image.width,
                height == image.height,
                width == edge.width,
                height == edge.height,
                i < width,
                j <= height,
                forall|a: int, b: int|
                    0 <= a < i && 0 <= b < height ==> spec_edge_pixel_ok(out, *image, *edge, a, b),
                forall|b: int|
                    0 <= b < j ==> spec_edge_pixel_ok(out, *image, *edge, i as int, b),
            decreases height - j,
        {
            let ghost before = out;
            let e = edge.get_pixel(i, j);
            let px = crate::color::read_color(image, Position { x: i, y: j });
            let rgb = if e != 255 {
                crate::vec3::Vec3 { x: e as i64, y: e as i64, z: e as i64 }
            } else {
                px
            };
            put_rgb(&mut out, i, j, rgb);
            proof {
                assert forall|a: int, b: int|
                    (0 <= a < i && 0 <= b < height) || (a == i && 0 <= b < j) implies
                    spec_edge_pixel_ok(out, *image, *edge, a, b) by {
                    lemma_rgb_pixel_frame(before, out, a, b, i as int, j as int);
                    assert(spec_edge_pixel_ok(before, *image, *edge, a, b));
                }
                assert(spec_edge_pixel_ok(out, *image, *edge, i as int, j as int));
            }
            j = j + 1;
        }
        i = i + 1;
    }
    out
}

/// A pixel write that leaves every byte of a different pixel alone
/// leaves that pixel's channels alone.
proof fn lemma_rgb_pixel_frame(before: ImageRgb, after: ImageRgb, a: int, b: int, x: int, y: int)
    requires
        before.wf(),
        after.wf(),
        after.width == before.width,
        after.height == before.height,
        after.data.len() == before.data.len(),
        0 <= a < before.width,
        0 <= b < before.height,
        0 <= x < before.width,
        0 <= y < before.height,
        !(a == x && b == y),
        forall|k: int|
            0 <= k < after.data.len() && !(after.spec_index(Position { x: x as u32, y: y as u32 })
                <= k < after.spec_index(Position { x: x as u32, y: y as u32 }) + 3)
                ==> after.data[k] == before.data[k],
    ensures
        forall|c: int|
            0 <= c < 3 ==> #[trigger] after.spec_channel(Position { x: a as u32, y: b as u32 }, c)
                == before.spec_channel(Position { x: a as u32, y: b as u32 }, c),
{
    let w = before.width as int;
    let pa = b * w + a;
    let pxy = y * w + x;
    assert(pa != pxy) by (nonlinear_arith)
        requires
            0 <= a < w,
            0 <= x < w,
            0 <= b,
            0 <= y,
            !(a == x && b == y),
            pa == b * w + a,
            pxy == y * w + x,
    ;
    assert(0 <= 3 * pa && 3 * pa + 2 < before.data.len()) by {
        let h = before.height as int;
        assert(3 * (b * w + a) + 2 < 3 * (w * h) && 0 <= 3 * (b * w + a)) by (nonlinear_arith)
            requires
                0 <= a < w,
                0 <= b < h,
        ;
        assert(3 * (w * h) == 3 * w * h) by (nonlinear_arith);
    }
    assert forall|c: int|
        0 <= c < 3 implies #[trigger] after.spec_channel(Position { x: a as u32, y: b as u32 }, c)
        == before.spec_channel(Position { x: a as u32, y: b as u32 }, c) by {
        assert(3 * pa + c < 3 * pxy || 3 * pa + c >= 3 * pxy + 3) by (nonlinear_arith)
            requires
                pa != pxy,
                0 <= c < 3,
        ;
    }
}

/// Writes raw byte channels into an RGB pixel, exactly, leaving the
/// other pixels alone.
fn put_rgb(img: &mut ImageRgb, x: u32, y: u32, rgb: crate::vec3::Color) -> (r: ())
    requires
        old(img).wf(),
        x < old(img).width,
        y < old(img).height,
        0 <= rgb.x <= 255,
        0 <= rgb.y <= 255,
        0 <= rgb.z <= 255,
    ensures
        final(img).wf(),
        final(img).width == old(img).width,
        final(img).height == old(img).height,
        final(img).data.len() == old(img).data.len(),
        final(img).spec_channel(Position { x, y }, 0) == rgb.x as u8,
        final(img).spec_channel(Position { x, y }, 1) == rgb.y as u8,
        final(img).spec_channel(Position { x, y }, 2) == rgb.z as u8,
        forall|k: int|
            0 <= k < final(img).data.len() && !(final(img).spec_index(Position { x, y }) <= k
                < final(img).spec_index(Position { x, y }) + 3) ==> final(img).data[k] == old(
                img,
            ).data[k],
{
    proof {
        let w = img.width as int;
        let h = img.height as int;
        assert(3 * ((y as int) * w + (x as int)) + 2 < 3 * (w * h)) by (nonlinear_arith)
            requires
                0 <= (x as int) < w,
                0 <= (y as int) < h,
        ;
        assert(3 * (w * h) == 3 * w * h) by (nonlinear_arith);
        assert(0 <= 3 * ((y as int) * w + (x as int))) by (nonlinear_arith)
            requires
                0 <= (x as int),
                0 <= (y as int),
                w > 0,
        ;
    }
    let idx = 3 * ((y as usize) * (img.width as usize) + (x as usize));
    img.data.set(idx, rgb.x as u8);
    img.data.set(idx + 1, rgb.y as u8);
    img.data.set(idx + 2, rgb.z as u8);
}

} // verus!
