use vstd::prelude::*;

use crate::color::{read_color, ImageRgb, Position};
use crate::frac::Frac;
use crate::vec3::Color;

verus! {

/// The images a scene's textures may refer to, owned in one table so
/// texture values stay small and copyable.
pub struct ImageTable {
    pub images: Vec<ImageRgb>,
}

impl ImageTable {
    pub open spec fn wf(self) -> bool {
        forall|i: int| 0 <= i < self.images.len() ==> self.images[i].wf()
    }

    pub fn new() -> (r: ImageTable)
        ensures
            r.wf(),
            r.images.len() == 0,
    {
        ImageTable { images: Vec::new() }
    }

    pub fn add(&mut self, img: ImageRgb) -> (r: u32)
        requires
            old(self).wf(),
            img.wf(),
            old(self).images.len() < 0x1000_0000,
        ensures
            final(self).wf(),
            final(self).images@ == old(self).images@.push(img),
            final(self).images.len() == old(self).images.len() + 1,
            r == old(self).images.len(),
    {
        let r = self.images.len() as u32;
        self.images.push(img);
        r
    }
}

/// A texture of one constant color (Q16 channels).
#[derive(Clone, Copy, Debug)]
pub struct SolidColor {
    pub color_value: Color,
}

impl SolidColor {
    pub fn new(c: Color) -> (r: SolidColor)
        ensures
            r.color_value == c,
    {
        SolidColor { color_value: c }
    }
}

/// A texture sampled from an image in the table (nearest pixel).
#[derive(Clone, Copy, Debug)]
pub struct ImageTexture {
    pub id: u32,
}

impl ImageTexture {
    pub fn new(id: u32) -> (r: ImageTexture)
        ensures
            r.id == id,
    {
        ImageTexture { id }
    }
}

/// A spatially varying color source.
#[derive(Clone, Copy, Debug)]
pub enum Texture {
    Solid(SolidColor),
    Image(ImageTexture),
}

impl Texture {
    /// Valid against the table, with channels within `[0, bound]`.
    pub open spec fn wf(self, tab: ImageTable, bound: int) -> bool {
        match self {
            Texture::Solid(s) => {
                &&& 0 <= s.color_value.x <= bound
                &&& 0 <= s.color_value.y <= bound
                &&& 0 <= s.color_value.z <= bound
            },
            Texture::Image(im) => im.id < tab.images.len() && 65536 <= bound,
        }
    }

    /// The color this texture yields at surface coordinate `(u, v)`.
    pub open spec fn spec_value(self, u: Frac, v: Frac, tab: ImageTable) -> Color {
        match self {
            Texture::Solid(s) => s.color_value,
            Texture::Image(im) => {
                let img = tab.images[im.id as int];
                let iu = clamp01_num(u);
                let iv = clamp01_num(v);
                let x = pick_pixel(iu.0, iu.1, img.width as int);
                let y = pick_pixel(iv.1 - iv.0, iv.1, img.height as int);
                let base = 3 * (y * img.width + x);
                Color {
                    x: (img.data[base] * 65536 / 255) as i64,
                    y: (img.data[base + 1] * 65536 / 255) as i64,
                    z: (img.data[base + 2] * 65536 / 255) as i64,
                }
            },
        }
    }

    pub fn value(&self, u: Frac, v: Frac, tab: &ImageTable) -> (r: Color)
        requires
            u.wf(),
            v.wf(),
            tab.wf(),
            self.wf(*tab, 0x1_0000_0000),
        ensures
            r == self.spec_value(u, v, *tab),
    {
        match self {
            Texture::Solid(s) => s.color_value,
            Texture::Image(im) => {
                let img = &tab.images[im.id as usize];
                let (un, ud) = clamp01(u);
                let (vn, vd) = clamp01(v);
                let x = pixel_of(un, ud, img.width);
                let y = pixel_of(vd - vn, vd, img.height);
                let px = read_color(img, Position { x, y });
                proof {
                    assert(3 * ((y as int) * (img.width as int) + (x as int)) == img.spec_index(
                        Position { x, y },
                    ));
                }
                Color {
                    x: ((px.x as u64) * 65536 / 255) as i64,
                    y: ((px.y as u64) * 65536 / 255) as i64,
                    z: ((px.z as u64) * 65536 / 255) as i64,
                }
            },
        }
    }
}

/// `u` clamped into [0, 1], as numerator and denominator.
pub open spec fn clamp01_num(u: Frac) -> (int, int) {
    if u.num < 0 {
        (0int, u.den as int)
    } else if u.num > u.den {
        (u.den as int, u.den as int)
    } else {
        (u.num as int, u.den as int)
    }
}

fn clamp01(u: Frac) -> (r: (i64, i64))
    requires
        u.wf(),
    ensures
        (r.0 as int, r.1 as int) == clamp01_num(u),
        0 <= r.0 <= r.1,
        r.1 > 0,
{
    if u.num < 0 {
        (0, u.den)
    } else if u.num > u.den {
        (u.den, u.den)
    } else {
        (u.num, u.den)
    }
}

/// The pixel column (or row) a clamped coordinate falls in:
/// `floor(frac * extent)`, pulled back to the last pixel at the far
/// edge.
pub open spec fn pick_pixel(num: int, den: int, extent: int) -> int {
    let i = num * extent / den;
    if i >= extent {
        extent - 1
    } else {
        i
    }
}

fn pixel_of(num: i64, den: i64, extent: u32) -> (r: u32)
    requires
        0 <= num <= den,
        den > 0,
        0 < extent <= 0x8000,
    ensures
        r == pick_pixel(num as int, den as int, extent as int),
        r < extent,
{
    proof {
        crate::frac::lemma_i64_mul_fits(num as int, extent as int);
        let q = (num as int) * (extent as int) / (den as int);
        assert(0 <= q <= extent) by (nonlinear_arith)
            requires
                q == (num as int) * (extent as int) / (den as int),
                0 <= num <= den,
                den > 0,
                extent > 0,
        ;
    }
    let i = (num as i128) * (extent as i128) / (den as i128);
    if i >= extent as i128 {
        extent - 1
    } else {
        i as u32
    }
}

} // verus!
