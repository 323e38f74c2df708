use vstd::prelude::*;

use crate::frac::Frac;
use crate::vec3::{Point3, Vec3};

verus! {

/// A parametric ray `orig + t * dir`, with a time stamp for
/// motion-blur sampling. The parametric distance `t` ranges over exact
/// rationals; `spec_at_num` gives the coordinate of the ray's point at
/// `t = tn / td`, scaled by the (positive) denominator `td`.
#[derive(Clone, Copy, Debug)]
pub struct Ray {
    pub orig: Point3,
    pub dir: Vec3,
    pub tm: i64,
}

impl Ray {
    /// Origins may wander anywhere in the coordinate range; direction
    /// components are kept a little smaller so that the quadratic of
    /// the sphere intersection stays within i64 fractions.
    pub open spec fn wf(self) -> bool {
        &&& self.orig.in_range(0x4000_0000)
        &&& self.dir.in_range(0x1000_0000)
    }

    /// `td` times the `a`-axis coordinate of the ray's point at
    /// parameter `tn / td`.
    pub open spec fn spec_at_num(self, a: int, tn: int, td: int) -> int {
        self.orig.spec_axis(a) * td + tn * self.dir.spec_axis(a)
    }

    pub fn new(origin: Point3, direction: Vec3, time: i64) -> (r: Ray)
        ensures
            r.orig == origin,
            r.dir == direction,
            r.tm == time,
    {
        Ray { orig: origin, dir: direction, tm: time }
    }

    pub fn origin(&self) -> (r: Point3)
        ensures
            r == self.orig,
    {
        self.orig
    }

    pub fn direction(&self) -> (r: Vec3)
        ensures
            r == self.dir,
    {
        self.dir
    }

    pub fn time(&self) -> (r: i64)
        ensures
            r == self.tm,
    {
        self.tm
    }

    /// The ray with the same origin and the reversed direction.
    pub fn reversed(&self) -> (r: Ray)
        requires
            self.wf(),
        ensures
            r.orig == self.orig,
            r.dir.x == -self.dir.x,
            r.dir.y == -self.dir.y,
            r.dir.z == -self.dir.z,
            r.tm == self.tm,
            r.wf(),
    {
        Ray { orig: self.orig, dir: self.dir.neg(), tm: self.tm }
    }

    /// The point reached at parameter `t`, as numerators over the
    /// common denominator `t.den` (wide integers, since the products
    /// outgrow i64).
    pub fn at(&self, t: Frac) -> (r: (i128, i128, i128))
        requires
            self.wf(),
            t.wf(),
        ensures
            r.0 == self.spec_at_num(0, t.num as int, t.den as int),
            r.1 == self.spec_at_num(1, t.num as int, t.den as int),
            r.2 == self.spec_at_num(2, t.num as int, t.den as int),
    {
        proof {
            crate::frac::lemma_i64_mul_fits(self.orig.x as int, t.den as int);
            crate::frac::lemma_i64_mul_fits(self.orig.y as int, t.den as int);
            crate::frac::lemma_i64_mul_fits(self.orig.z as int, t.den as int);
            crate::frac::lemma_i64_mul_fits(t.num as int, self.dir.x as int);
            crate::frac::lemma_i64_mul_fits(t.num as int, self.dir.y as int);
            crate::frac::lemma_i64_mul_fits(t.num as int, self.dir.z as int);
            crate::vec3::lemma_mul_bound2(self.orig.x as int, t.den as int, 0x4000_0000, 0x7fff_ffff_ffff_ffff);
            crate::vec3::lemma_mul_bound2(self.orig.y as int, t.den as int, 0x4000_0000, 0x7fff_ffff_ffff_ffff);
            crate::vec3::lemma_mul_bound2(self.orig.z as int, t.den as int, 0x4000_0000, 0x7fff_ffff_ffff_ffff);
            crate::vec3::lemma_mul_bound2(t.num as int, self.dir.x as int, 0x8000_0000_0000_0000, 0x4000_0000);
            crate::vec3::lemma_mul_bound2(t.num as int, self.dir.y as int, 0x8000_0000_0000_0000, 0x4000_0000);
            crate::vec3::lemma_mul_bound2(t.num as int, self.dir.z as int, 0x8000_0000_0000_0000, 0x4000_0000);
        }
        let x = (self.orig.x as i128) * (t.den as i128) + (t.num as i128) * (self.dir.x as i128);
        let y = (self.orig.y as i128) * (t.den as i128) + (t.num as i128) * (self.dir.y as i128);
        let z = (self.orig.z as i128) * (t.den as i128) + (t.num as i128) * (self.dir.z as i128);
        (x, y, z)
    }
}

} // verus!
