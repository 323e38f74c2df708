use vstd::prelude::*;

use crate::isqrt::{isqrt_u128, sqrt_floor};
use crate::vec3::Color;

verus! {

/// A pixel coordinate in an image.
#[derive(Clone, Copy, Debug, PartialEq, Eq, Structural)]
pub struct Position {
    pub x: u32,
    pub y: u32,
}

impl Position {
    pub fn pos(y: u32, x: u32) -> (r: Position)
        ensures
            r.x == x,
            r.y == y,
    {
        Position { x, y }
    }
}

/// An RGB image held as plain bytes, three per pixel, row-major.
pub struct ImageRgb {
    pub width: u32,
    pub height: u32,
    pub data: Vec<u8>,
}

impl ImageRgb {
    pub open spec fn wf(self) -> bool {
        &&& 0 < self.width <= 0x8000
        &&& 0 < self.height <= 0x8000
        &&& self.data.len() == 3 * self.width * self.height
    }

    /// Byte offset of the red channel of the pixel.
    pub open spec fn spec_index(self, px: Position) -> int {
        3 * (px.y * self.width + px.x)
    }

    pub open spec fn spec_channel(self, px: Position, c: int) -> u8 {
        self.data[self.spec_index(px) + c]
    }

    pub fn new(width: u32, height: u32) -> (r: ImageRgb)
        requires
            0 < width <= 0x8000,
            0 < height <= 0x8000,
        ensures
            r.wf(),
            r.width == width,
            r.height == height,
            forall|i: int| 0 <= i < r.data.len() ==> r.data[i] == 0u8,
    {
        proof {
            assert(3 * (width as int) * (height as int) <= 0xc000_0000) by (nonlinear_arith)
                requires
                    0 < width <= 0x8000,
                    0 < height <= 0x8000,
            ;
        }
        let n = 3 * (width as usize) * (height as usize);
        let mut data: Vec<u8> = Vec::new();
        let mut i: usize = 0;
        while i < n
            invariant
                i <= n,
                data.len() == i,
                forall|j: int| 0 <= j < i ==> data[j] == 0u8,
            decreases n - i,
        {
            data.push(0);
            i = i + 1;
        }
        ImageRgb { width, height, data }
    }
}

/// Reads the pixel back as a color whose channels hold the raw byte
/// values 0..=255.
pub fn read_color(img: &ImageRgb, pos: Position) -> (r: Color)
    requires
        img.wf(),
        pos.x < img.width,
        pos.y < img.height,
    ensures
        r.x == img.spec_channel(pos, 0),
        r.y == img.spec_channel(pos, 1),
        r.z == img.spec_channel(pos, 2),
{
    proof {
        lemma_index_in_bounds(*img, pos);
    }
    let idx = 3 * ((pos.y as usize) * (img.width as usize) + (pos.x as usize));
    let r = img.data[idx];
    let g = img.data[idx + 1];
    let b = img.data[idx + 2];
    Color { x: r as i64, y: g as i64, z: b as i64 }
}

proof fn lemma_index_in_bounds(img: ImageRgb, pos: Position)
    requires
        img.wf(),
        pos.x < img.width,
        pos.y < img.height,
    ensures
        0 <= img.spec_index(pos),
        img.spec_index(pos) + 2 < img.data.len(),
{
    let w = img.width as int;
    let h = img.height as int;
    let x = pos.x as int;
    let y = pos.y as int;
    assert(3 * (y * w + x) + 2 < 3 * (w * h)) by (nonlinear_arith)
        requires
            0 <= x < w,
            0 <= y < h,
    ;
    assert(3 * (w * h) == 3 * w * h) by (nonlinear_arith);
    assert(0 <= 3 * (y * w + x)) by (nonlinear_arith)
        requires
            0 <= x,
            0 <= y,
            w > 0,
    ;
}

/// The byte a radiance channel maps to: average over the samples,
/// gamma-correct with a square root, clamp just below one, and
/// quantize to 0..=255. Channels hold Q16 fixed point (65536 is 1.0).
pub open spec fn spec_tone_map(c: int, samples: int) -> int {
    let avg = c * 65536 / samples;
    let g = sqrt_floor(avg as nat) as int;
    let clamped = if g > 65470 {
        65470int
    } else {
        g
    };
    clamped / 256
}

/// Averages the accumulated Q16 radiance over the sample count,
/// applies gamma-2 correction and writes the quantized pixel.
pub fn write_color(img: &mut ImageRgb, pos: Position, rgb: Color, samples_per_pixel: i32) -> (r:
    ())
    requires
        old(img).wf(),
        pos.x < old(img).width,
        pos.y < old(img).height,
        samples_per_pixel > 0,
        rgb.x >= 0,
        rgb.y >= 0,
        rgb.z >= 0,
    ensures
        final(img).wf(),
        final(img).width == old(img).width,
        final(img).height == old(img).height,
        final(img).data.len() == old(img).data.len(),
        final(img).spec_channel(pos, 0) == spec_tone_map(rgb.x as int, samples_per_pixel as int),
        final(img).spec_channel(pos, 1) == spec_tone_map(rgb.y as int, samples_per_pixel as int),
        final(img).spec_channel(pos, 2) == spec_tone_map(rgb.z as int, samples_per_pixel as int),
        forall|i: int|
            0 <= i < final(img).data.len() && !(final(img).spec_index(pos) <= i
                && i < final(img).spec_index(pos) + 3) ==> final(img).data[i] == old(img).data[i],
{
    proof {
        lemma_index_in_bounds(*img, pos);
    }
    let r = tone_map_channel(rgb.x, samples_per_pixel);
    let g = tone_map_channel(rgb.y, samples_per_pixel);
    let b = tone_map_channel(rgb.z, samples_per_pixel);
    let idx = 3 * ((pos.y as usize) * (img.width as usize) + (pos.x as usize));
    img.data.set(idx, r);
    img.data.set(idx + 1, g);
    img.data.set(idx + 2, b);
}

fn tone_map_channel(c: i64, samples: i32) -> (r: u8)
    requires
        c >= 0,
        samples > 0,
    ensures
        r == spec_tone_map(c as int, samples as int),
{
    let avg: u128 = (c as u128) * 65536 / (samples as u128);
    proof {
        let prod = (c as int) * 65536;
        assert(prod < 0x4000_0000_0000_0000_0000_0000_0000_0000) by (nonlinear_arith)
            requires
                0 <= c <= 0x7fff_ffff_ffff_ffff,
                prod == (c as int) * 65536,
        ;
        assert(avg as int <= prod) by (nonlinear_arith)
            requires
                avg as int == prod / (samples as int),
                samples >= 1,
                prod >= 0,
        ;
    }
    let s = isqrt_u128(avg);
    let clamped: u128 = if s > 65470 {
        65470
    } else {
        s
    };
    (clamped / 256) as u8
}

} // verus!
