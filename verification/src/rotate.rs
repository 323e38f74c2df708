use vstd::prelude::*;

use crate::frac::Frac;
use crate::hittable::{reduce3, reduce3_spec, HitRecord, Hittable};
use crate::material::spec_div_tz;
use crate::ray::Ray;
use crate::vec3::Vec3;

verus! {

/// A value clamped into `[-bound, bound]`.
pub open spec fn spec_clamp_to(v: int, bound: int) -> i64 {
    if v < -bound {
        (-bound) as i64
    } else if v > bound {
        bound as i64
    } else {
        v as i64
    }
}

/// One planar rotation step in Q16: the pair
/// `((c*x - s*z)/65536, (s*x + c*z)/65536)`, truncated and clamped
/// into the given coordinate bound. The inverse rotation is the same
/// map with the sine negated.
pub open spec fn spec_rot_pair(c: int, s: int, x: int, z: int, bound: int) -> (i64, i64) {
    (
        spec_clamp_to(spec_div_tz(c * x - s * z, 65536), bound),
        spec_clamp_to(spec_div_tz(s * x + c * z, 65536), bound),
    )
}

fn rot_pair(c: i64, s: i64, x: i64, z: i64, bound: i64) -> (r: (i64, i64))
    requires
        -65536 <= c <= 65536,
        -65536 <= s <= 65536,
        -0x4000_0000 <= x <= 0x4000_0000,
        -0x4000_0000 <= z <= 0x4000_0000,
        0 < bound <= 0x4000_0000,
    ensures
        (r.0, r.1) == spec_rot_pair(c as int, s as int, x as int, z as int, bound as int),
        -bound <= r.0 <= bound,
        -bound <= r.1 <= bound,
{
    proof {
        crate::vec3::lemma_mul_bound2(c as int, x as int, 65536, 0x4000_0000);
        crate::vec3::lemma_mul_bound2(s as int, z as int, 65536, 0x4000_0000);
        crate::vec3::lemma_mul_bound2(s as int, x as int, 65536, 0x4000_0000);
        crate::vec3::lemma_mul_bound2(c as int, z as int, 65536, 0x4000_0000);
    }
    let a = div_tz_rot((c as i128) * (x as i128) - (s as i128) * (z as i128));
    let b = div_tz_rot((s as i128) * (x as i128) + (c as i128) * (z as i128));
    let ca = if a < -(bound as i128) {
        -bound
    } else if a > bound as i128 {
        bound
    } else {
        a as i64
    };
    let cb = if b < -(bound as i128) {
        -bound
    } else if b > bound as i128 {
        bound
    } else {
        b as i64
    };
    (ca, cb)
}

/// Truncating division by the Q16 unit.
fn div_tz_rot(n: i128) -> (r: i128)
    requires
        -0x1_0000_0000_0000_0000_0000_0000_0000 <= n <= 0x1_0000_0000_0000_0000_0000_0000_0000,
    ensures
        r == spec_div_tz(n as int, 65536),
        n >= 0 ==> 0 <= r <= n,
        n < 0 ==> n <= r <= 0,
{
    proof {
        if n >= 0 {
            assert(0 <= (n as int) / 65536 <= n) by (nonlinear_arith)
                requires
                    n >= 0,
            ;
        } else {
            assert(0 <= (-(n as int)) / 65536 <= -n) by (nonlinear_arith)
                requires
                    n < 0,
            ;
        }
    }
    if n >= 0 {
        ((n as u128) / 65536) as i128
    } else {
        -((((-n) as u128) / 65536) as i128)
    }
}

/// A wrapper that rotates the wrapped primitive about the y axis, by
/// an angle given as its Q16 sine and cosine (the trigonometric
/// evaluation of the angle stays outside the exact model). Incoming
/// rays are rotated into the object's frame, the hit normal is
/// rotated back.
pub struct RotateY {
    pub ptr: Box<Hittable>,
    pub sin_q16: i64,
    pub cos_q16: i64,
}

impl RotateY {
    /// A valid wrapper carries a genuine rotation: the Q16 sine and
    /// cosine lie on the unit circle up to the quantization of the
    /// two roundings (two Q16 ulps).
    pub open spec fn wf(self) -> bool {
        &&& self.ptr.wf()
        &&& -65536 <= self.sin_q16 <= 65536
        &&& -65536 <= self.cos_q16 <= 65536
        &&& -131072 <= self.sin_q16 * self.sin_q16 + self.cos_q16 * self.cos_q16 - 65536 * 65536
            <= 131072
    }

    pub fn new(ptr: Hittable, sin_q16: i64, cos_q16: i64) -> (r: RotateY)
        requires
            -65536 <= sin_q16 <= 65536,
            -65536 <= cos_q16 <= 65536,
            -131072 <= sin_q16 * sin_q16 + cos_q16 * cos_q16 - 65536 * 65536 <= 131072,
            ptr.wf(),
        ensures
            r.ptr == ptr,
            r.sin_q16 == sin_q16,
            r.cos_q16 == cos_q16,
            r.wf(),
    {
        RotateY { ptr: Box::new(ptr), sin_q16, cos_q16 }
    }

    /// Rays this wrapper accepts: the turned coordinates provably
    /// stay inside the traceable ranges (the sum of the two absolute
    /// planar components bounds any rotation of them), so the range
    /// clamp in the coordinate map never engages and no geometry is
    /// silently distorted.
    pub open spec fn ray_in_range(self, r: Ray) -> bool {
        &&& crate::hittable::abs_i(r.orig.x as int) + crate::hittable::abs_i(r.orig.z as int)
            <= 0x3000_0000
        &&& crate::hittable::abs_i(r.dir.x as int) + crate::hittable::abs_i(r.dir.z as int)
            <= 0x1000_0000
    }

    /// The traversal: the ray turns by the inverse rotation, the
    /// wrapped primitive answers, and the stored normal turns back,
    /// rescaled into the stored range by shared halvings.
    pub open spec fn spec_hit(self, r: Ray, t_min: Frac, t_max: Frac) -> Option<HitRecord> {
        let c = self.cos_q16 as int;
        let s = self.sin_q16 as int;
        let ro = spec_rot_pair(c, s, r.orig.x as int, r.orig.z as int, 0x3000_0000);
        let rd = spec_rot_pair(c, s, r.dir.x as int, r.dir.z as int, 0x1000_0000);
        let moved = Ray {
            orig: Vec3 { x: ro.0, y: r.orig.y, z: ro.1 },
            dir: Vec3 { x: rd.0, y: r.dir.y, z: rd.1 },
            tm: r.tm,
        };
        match self.ptr.spec_hit(moved, t_min, t_max) {
            Option::None => Option::None,
            Option::Some(rec0) => {
                let n = rec0.normal;
                let nb = reduce3_spec(
                    c * n.x + s * n.z,
                    65536 * n.y,
                    (-s) * n.x + c * n.z,
                );
                let world_n = Vec3 { x: nb.0 as i64, y: nb.1 as i64, z: nb.2 as i64 };
                let fa = HitRecord::spec_face(moved, world_n);
                Option::Some(HitRecord { normal: fa.1, front_face: fa.0, ..rec0 })
            },
        }
    }

    pub fn hit(&self, r: &Ray, t_min: Frac, t_max: Frac) -> (res: Option<HitRecord>)
        requires
            self.wf(),
            r.orig.in_range(0x3000_0000),
            r.dir.in_range(0x1000_0000),
            self.ray_in_range(*r),
            t_min.wf(),
            t_max.wf(),
        ensures
            res == self.spec_hit(*r, t_min, t_max),
    {
        proof {
            lemma_rot_pair_tight(
                self.cos_q16 as int,
                self.sin_q16 as int,
                r.orig.x as int,
                r.orig.z as int,
                0x3000_0000,
            );
            lemma_rot_pair_tight(
                self.cos_q16 as int,
                self.sin_q16 as int,
                r.dir.x as int,
                r.dir.z as int,
                0x1000_0000,
            );
        }
        let c = self.cos_q16;
        let s = self.sin_q16;
        let ro = rot_pair(c, s, r.orig.x, r.orig.z, 0x3000_0000);
        let rd = rot_pair(c, s, r.dir.x, r.dir.z, 0x1000_0000);
        let moved = Ray {
            orig: Vec3 { x: ro.0, y: r.orig.y, z: ro.1 },
            dir: Vec3 { x: rd.0, y: r.dir.y, z: rd.1 },
            tm: r.tm,
        };
        match self.ptr.hit(&moved, t_min, t_max) {
            Option::None => None,
            Option::Some(rec0) => {
                proof {
                    crate::hittable::lemma_hit_props(*self.ptr, moved, t_min, t_max, 0x1000_0000);
                    crate::vec3::lemma_mul_bound2(c as int, rec0.normal.x as int, 65536, 1024);
                    crate::vec3::lemma_mul_bound2(s as int, rec0.normal.z as int, 65536, 1024);
                    crate::vec3::lemma_mul_bound2(s as int, rec0.normal.x as int, 65536, 1024);
                    crate::vec3::lemma_mul_bound2(c as int, rec0.normal.z as int, 65536, 1024);
                }
                let nx = (c as i128) * (rec0.normal.x as i128) + (s as i128) * (
                rec0.normal.z as i128);
                let ny = 65536 * (rec0.normal.y as i128);
                let nz = (c as i128) * (rec0.normal.z as i128) - (s as i128) * (
                rec0.normal.x as i128);
                proof {
                    assert((-(s as int)) * (rec0.normal.x as int) == -((s as int) * (
                    rec0.normal.x as int))) by (nonlinear_arith);
                }
                let world_n = reduce3(nx, ny, nz);
                let mut rec = rec0;
                rec.set_face_normal(&moved, world_n);
                Some(rec)
            },
        }
    }

    /// The box the rotated primitive lands in: the four (x, z) corner
    /// pairs of the inner box carried through the inverse coordinate
    /// map, re-boxed by componentwise extremes, y carried over.
    pub open spec fn spec_box(self, inner: crate::aabb::Aabb) -> crate::aabb::Aabb {
        let c = self.cos_q16 as int;
        let s = self.sin_q16 as int;
        let p00 = spec_rot_pair(c, -s, inner.min.x as int, inner.min.z as int, 0x4000_0000);
        let p01 = spec_rot_pair(c, -s, inner.min.x as int, inner.max.z as int, 0x4000_0000);
        let p10 = spec_rot_pair(c, -s, inner.max.x as int, inner.min.z as int, 0x4000_0000);
        let p11 = spec_rot_pair(c, -s, inner.max.x as int, inner.max.z as int, 0x4000_0000);
        crate::aabb::Aabb {
            min: Vec3 {
                x: spec_min4(p00.0, p01.0, p10.0, p11.0),
                y: inner.min.y,
                z: spec_min4(p00.1, p01.1, p10.1, p11.1),
            },
            max: Vec3 {
                x: spec_max4(p00.0, p01.0, p10.0, p11.0),
                y: inner.max.y,
                z: spec_max4(p00.1, p01.1, p10.1, p11.1),
            },
        }
    }

    /// The result holds every rotated corner pair of the inner box.
    pub open spec fn spec_box_holds_corners(
        self,
        inner: crate::aabb::Aabb,
        res: crate::aabb::Aabb,
    ) -> bool {
        let c = self.cos_q16 as int;
        let s = self.sin_q16 as int;
        forall|x: i64, z: i64|
            #![trigger spec_rot_pair(c, -s, x as int, z as int, 0x4000_0000)]
            ((x == inner.min.x || x == inner.max.x) && (z == inner.min.z || z == inner.max.z))
                ==> {
                let p = spec_rot_pair(c, -s, x as int, z as int, 0x4000_0000);
                res.min.x <= p.0 <= res.max.x && res.min.z <= p.1 <= res.max.z
            }
    }

    /// The box of the wrapped primitive, carried through the rotation
    /// corner by corner and re-boxed (clamped into the coordinate
    /// range at the edge of the model).
    pub fn bounding_box(&self, time0: i64, time1: i64) -> (res: crate::aabb::Aabb)
        requires
            self.wf(),
        ensures
            res == self.spec_box(self.ptr.spec_bbox()),
            self.spec_box_holds_corners(self.ptr.spec_bbox(), res),
            res.min.y == self.ptr.spec_bbox().min.y,
            res.max.y == self.ptr.spec_bbox().max.y,
            res.wf(),
    {
        let inner = self.ptr.bounding_box(time0, time1);
        let c = self.cos_q16;
        let s = self.sin_q16;
        // The world-frame image of each box corner (x, z) pair; the
        // inverse map of the ray rotation, so the sine enters
        // negated.
        let p00 = rot_pair(c, -s, inner.min.x, inner.min.z, 0x4000_0000);
        let p01 = rot_pair(c, -s, inner.min.x, inner.max.z, 0x4000_0000);
        let p10 = rot_pair(c, -s, inner.max.x, inner.min.z, 0x4000_0000);
        let p11 = rot_pair(c, -s, inner.max.x, inner.max.z, 0x4000_0000);
        let min_x = min4(p00.0, p01.0, p10.0, p11.0);
        let max_x = max4(p00.0, p01.0, p10.0, p11.0);
        let min_z = min4(p00.1, p01.1, p10.1, p11.1);
        let max_z = max4(p00.1, p01.1, p10.1, p11.1);
        crate::aabb::Aabb {
            min: Vec3 { x: min_x, y: inner.min.y, z: min_z },
            max: Vec3 { x: max_x, y: inner.max.y, z: max_z },
        }
    }
}

pub open spec fn spec_min4(a: i64, b: i64, c: i64, d: i64) -> i64 {
    let m1 = if a <= b {
        a
    } else {
        b
    };
    let m2 = if c <= d {
        c
    } else {
        d
    };
    if m1 <= m2 {
        m1
    } else {
        m2
    }
}

pub open spec fn spec_max4(a: i64, b: i64, c: i64, d: i64) -> i64 {
    let m1 = if a >= b {
        a
    } else {
        b
    };
    let m2 = if c >= d {
        c
    } else {
        d
    };
    if m1 >= m2 {
        m1
    } else {
        m2
    }
}

fn min4(a: i64, b: i64, c: i64, d: i64) -> (r: i64)
    ensures
        r == spec_min4(a, b, c, d),
        r <= a && r <= b && r <= c && r <= d,
        r == a || r == b || r == c || r == d,
{
    let m1 = if a <= b {
        a
    } else {
        b
    };
    let m2 = if c <= d {
        c
    } else {
        d
    };
    if m1 <= m2 {
        m1
    } else {
        m2
    }
}

fn max4(a: i64, b: i64, c: i64, d: i64) -> (r: i64)
    ensures
        r == spec_max4(a, b, c, d),
        r >= a && r >= b && r >= c && r >= d,
        r == a || r == b || r == c || r == d,
{
    let m1 = if a >= b {
        a
    } else {
        b
    };
    let m2 = if c >= d {
        c
    } else {
        d
    };
    if m1 >= m2 {
        m1
    } else {
        m2
    }
}

/// Where the planar components' absolute sum stays within the bound,
/// the rotation map's clamp is the identity: the turned value is the
/// plain truncated rotation.
pub proof fn lemma_rot_pair_tight(c: int, s: int, x: int, z: int, bound: int)
    requires
        -65536 <= c <= 65536,
        -65536 <= s <= 65536,
        crate::hittable::abs_i(x) + crate::hittable::abs_i(z) <= bound,
        0 < bound <= 0x4000_0000,
    ensures
        spec_rot_pair(c, s, x, z, bound).0 as int == spec_div_tz(c * x - s * z, 65536),
        spec_rot_pair(c, s, x, z, bound).1 as int == spec_div_tz(s * x + c * z, 65536),
{
    let ax = crate::hittable::abs_i(x);
    let az = crate::hittable::abs_i(z);
    assert(-(65536 * (ax + az)) <= c * x - s * z <= 65536 * (ax + az) && -(65536 * (ax + az)) <= s
        * x + c * z <= 65536 * (ax + az)) by (nonlinear_arith)
        requires
            -65536 <= c <= 65536,
            -65536 <= s <= 65536,
            ax == crate::hittable::abs_i(x),
            az == crate::hittable::abs_i(z),
            (x >= 0 ==> ax == x) && (x < 0 ==> ax == -x),
            (z >= 0 ==> az == z) && (z < 0 ==> az == -z),
    ;
    assert(65536 * (ax + az) <= 65536 * bound) by (nonlinear_arith)
        requires
            ax + az <= bound,
    ;
    crate::material::lemma_div_tz_shrink(c * x - s * z, 65536, bound);
    crate::material::lemma_div_tz_shrink(s * x + c * z, 65536, bound);
}

} // verus!
