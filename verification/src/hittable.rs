use vstd::prelude::*;

use crate::aabb::{entry_frac, Aabb};
use crate::frac::{lemma_pair_lt_le_trans, pair_le, Frac};
use crate::isqrt::{isqrt_u128, sqrt_floor};
use crate::material::Material;
use crate::ray::Ray;
use crate::vec3::{dot, Point3, Vec3};

verus! {

/// What a successful intersection reports: the parametric distance,
/// the surface coordinates, the oriented unit-scale normal, which side
/// was struck, and the material of the surface.
#[derive(Clone, Copy, Debug)]
pub struct HitRecord {
    pub t: Frac,
    pub u: Frac,
    pub v: Frac,
    pub normal: Vec3,
    pub front_face: bool,
    pub mat: Material,
}

impl HitRecord {
    pub open spec fn wf(self) -> bool {
        &&& self.t.wf()
        &&& self.u.wf()
        &&& self.v.wf()
        &&& self.normal.in_range(1024)
    }

    /// How the oriented normal and the side flag come from the ray
    /// direction and the outward geometric normal.
    pub open spec fn spec_face(r: Ray, outward: Vec3) -> (bool, Vec3) {
        if r.dir.spec_dot(outward) < 0 {
            (true, outward)
        } else {
            (false, outward.spec_neg())
        }
    }

    /// Orients the stored normal against the incoming ray and records
    /// which face was struck.
    pub fn set_face_normal(&mut self, r: &Ray, outward_normal: Vec3) -> (res: ())
        requires
            r.wf(),
            outward_normal.in_range(1024),
        ensures
            (final(self).front_face, final(self).normal) == Self::spec_face(*r, outward_normal),
            final(self).t == old(self).t,
            final(self).u == old(self).u,
            final(self).v == old(self).v,
            final(self).mat == old(self).mat,
            final(self).normal.in_range(1024),
    {
        let d = dot(r.direction(), outward_normal);
        self.front_face = d < 0;
        self.normal = if d < 0 {
            outward_normal
        } else {
            outward_normal.neg()
        };
    }
}

/// An axis-aligned rectangle in the plane `z == k`.
#[derive(Clone, Copy, Debug)]
pub struct XYRect {
    pub mp: Material,
    pub x0: i64,
    pub x1: i64,
    pub y0: i64,
    pub y1: i64,
    pub k: i64,
}

/// An axis-aligned rectangle in the plane `y == k`.
#[derive(Clone, Copy, Debug)]
pub struct XZRect {
    pub mp: Material,
    pub x0: i64,
    pub x1: i64,
    pub z0: i64,
    pub z1: i64,
    pub k: i64,
}

/// An axis-aligned rectangle in the plane `x == k`.
#[derive(Clone, Copy, Debug)]
pub struct YZRect {
    pub mp: Material,
    pub y0: i64,
    pub y1: i64,
    pub z0: i64,
    pub z1: i64,
    pub k: i64,
}

/// The bound kept on shape coordinates (2^29), leaving room for a
/// translation offset within every arithmetic bound of the hit math.
pub open spec fn content_ok(c: int) -> bool {
    -0x2000_0000 <= c <= 0x2000_0000
}

impl XYRect {
    pub open spec fn wf(self) -> bool {
        &&& content_ok(self.x0 as int) && content_ok(self.x1 as int)
        &&& content_ok(self.y0 as int) && content_ok(self.y1 as int)
        &&& content_ok(self.k as int)
        &&& self.x0 < self.x1
        &&& self.y0 < self.y1
    }

    pub fn new(x0: i64, x1: i64, y0: i64, y1: i64, k: i64, mp: Material) -> (r: XYRect)
        requires
            content_ok(x0 as int) && content_ok(x1 as int),
            content_ok(y0 as int) && content_ok(y1 as int),
            content_ok(k as int),
            x0 < x1,
            y0 < y1,
        ensures
            r == (XYRect { mp, x0, x1, y0, y1, k }),
            r.wf(),
    {
        XYRect { mp, x0, x1, y0, y1, k }
    }

    pub open spec fn spec_bbox(self) -> Aabb {
        Aabb {
            min: Vec3 { x: self.x0, y: self.y0, z: self.k },
            max: Vec3 { x: self.x1, y: self.y1, z: self.k },
        }
    }

    /// The one parameter at which the ray crosses the rectangle's
    /// plane, or rejection: outside the window, outside the extent, or
    /// parallel to the plane.
    pub open spec fn spec_hit(self, r: Ray, t_min: Frac, t_max: Frac) -> Option<HitRecord> {
        let d = r.dir.z;
        if d == 0 {
            None
        } else {
            let tf = entry_frac(self.k, self.k, r.orig.z, d);
            if !(t_min.spec_lt(tf) && tf.spec_lt(t_max)) {
                None
            } else {
                let xn = r.orig.x * tf.den + tf.num * r.dir.x;
                let yn = r.orig.y * tf.den + tf.num * r.dir.y;
                if xn < self.x0 * tf.den || xn > self.x1 * tf.den || yn < self.y0 * tf.den || yn
                    > self.y1 * tf.den {
                    None
                } else {
                    let fa = HitRecord::spec_face(r, Vec3 { x: 0i64, y: 0i64, z: 1i64 });
                    Some(
                        HitRecord {
                            t: tf,
                            u: Frac {
                                num: (xn - self.x0 * tf.den) as i64,
                                den: ((self.x1 - self.x0) * tf.den) as i64,
                            },
                            v: Frac {
                                num: (yn - self.y0 * tf.den) as i64,
                                den: ((self.y1 - self.y0) * tf.den) as i64,
                            },
                            normal: fa.1,
                            front_face: fa.0,
                            mat: self.mp,
                        },
                    )
                }
            }
        }
    }

    pub fn hit(&self, r: &Ray, t_min: Frac, t_max: Frac) -> (res: Option<HitRecord>)
        requires
            self.wf(),
            r.wf(),
            t_min.wf(),
            t_max.wf(),
        ensures
            res == self.spec_hit(*r, t_min, t_max),
    {
        let d = r.dir.z;
        if d == 0 {
            return None;
        }
        let (tn, td) = if d > 0 {
            (self.k - r.orig.z, d)
        } else {
            (r.orig.z - self.k, -d)
        };
        let tf = Frac::new(tn, td);
        if !(t_min.lt(&tf) && tf.lt(&t_max)) {
            return None;
        }
        proof {
            rect_products_fit(r.orig.x as int, r.orig.y as int, tf.num as int, tf.den as int,
                r.dir.x as int, r.dir.y as int);
            crate::vec3::lemma_mul_bound2(self.x0 as int, tf.den as int, 0x2000_0000, 0x1000_0000);
            crate::vec3::lemma_mul_bound2(self.x1 as int, tf.den as int, 0x2000_0000, 0x1000_0000);
            crate::vec3::lemma_mul_bound2(self.y0 as int, tf.den as int, 0x2000_0000, 0x1000_0000);
            crate::vec3::lemma_mul_bound2(self.y1 as int, tf.den as int, 0x2000_0000, 0x1000_0000);
            crate::vec3::lemma_mul_bound2(
                (self.x1 - self.x0) as int,
                tf.den as int,
                0x4000_0000,
                0x1000_0000,
            );
            crate::vec3::lemma_mul_bound2(
                (self.y1 - self.y0) as int,
                tf.den as int,
                0x4000_0000,
                0x1000_0000,
            );
            assert((self.x1 - self.x0) * tf.den > 0) by (nonlinear_arith)
                requires
                    self.x1 > self.x0,
                    tf.den > 0,
            ;
            assert((self.y1 - self.y0) * tf.den > 0) by (nonlinear_arith)
                requires
                    self.y1 > self.y0,
                    tf.den > 0,
            ;
        }
        let xn = (r.orig.x as i128) * (tf.den as i128) + (tf.num as i128) * (r.dir.x as i128);
        let yn = (r.orig.y as i128) * (tf.den as i128) + (tf.num as i128) * (r.dir.y as i128);
        let x0d = (self.x0 as i128) * (tf.den as i128);
        let x1d = (self.x1 as i128) * (tf.den as i128);
        let y0d = (self.y0 as i128) * (tf.den as i128);
        let y1d = (self.y1 as i128) * (tf.den as i128);
        if xn < x0d || xn > x1d || yn < y0d || yn > y1d {
            return None;
        }
        let u = Frac::new((xn - x0d) as i64, ((self.x1 - self.x0) as i128 * (tf.den as i128)) as i64);
        let v = Frac::new((yn - y0d) as i64, ((self.y1 - self.y0) as i128 * (tf.den as i128)) as i64);
        let mut rec = HitRecord {
            t: tf,
            u,
            v,
            normal: Vec3 { x: 0, y: 0, z: 1 },
            front_face: true,
            mat: self.mp,
        };
        rec.set_face_normal(r, Vec3 { x: 0, y: 0, z: 1 });
        Some(rec)
    }
}

impl XZRect {
    pub open spec fn wf(self) -> bool {
        &&& content_ok(self.x0 as int) && content_ok(self.x1 as int)
        &&& content_ok(self.z0 as int) && content_ok(self.z1 as int)
        &&& content_ok(self.k as int)
        &&& self.x0 < self.x1
        &&& self.z0 < self.z1
    }

    pub fn new(x0: i64, x1: i64, z0: i64, z1: i64, k: i64, mp: Material) -> (r: XZRect)
        requires
            content_ok(x0 as int) && content_ok(x1 as int),
            content_ok(z0 as int) && content_ok(z1 as int),
            content_ok(k as int),
            x0 < x1,
            z0 < z1,
        ensures
            r == (XZRect { mp, x0, x1, z0, z1, k }),
            r.wf(),
    {
        XZRect { mp, x0, x1, z0, z1, k }
    }

    pub open spec fn spec_bbox(self) -> Aabb {
        Aabb {
            min: Vec3 { x: self.x0, y: self.k, z: self.z0 },
            max: Vec3 { x: self.x1, y: self.k, z: self.z1 },
        }
    }

    /// The one parameter at which the ray crosses the rectangle's
    /// plane, or rejection, as for `XYRect`.
    pub open spec fn spec_hit(self, r: Ray, t_min: Frac, t_max: Frac) -> Option<HitRecord> {
        let d = r.dir.y;
        if d == 0 {
            None
        } else {
            let tf = entry_frac(self.k, self.k, r.orig.y, d);
            if !(t_min.spec_lt(tf) && tf.spec_lt(t_max)) {
                None
            } else {
                let xn = r.orig.x * tf.den + tf.num * r.dir.x;
                let zn = r.orig.z * tf.den + tf.num * r.dir.z;
                if xn < self.x0 * tf.den || xn > self.x1 * tf.den || zn < self.z0 * tf.den || zn
                    > self.z1 * tf.den {
                    None
                } else {
                    let fa = HitRecord::spec_face(r, Vec3 { x: 0i64, y: 1i64, z: 0i64 });
                    Some(
                        HitRecord {
                            t: tf,
                            u: Frac {
                                num: (xn - self.x0 * tf.den) as i64,
                                den: ((self.x1 - self.x0) * tf.den) as i64,
                            },
                            v: Frac {
                                num: (zn - self.z0 * tf.den) as i64,
                                den: ((self.z1 - self.z0) * tf.den) as i64,
                            },
                            normal: fa.1,
                            front_face: fa.0,
                            mat: self.mp,
                        },
                    )
                }
            }
        }
    }

    pub fn hit(&self, r: &Ray, t_min: Frac, t_max: Frac) -> (res: Option<HitRecord>)
        requires
            self.wf(),
            r.wf(),
            t_min.wf(),
            t_max.wf(),
        ensures
            res == self.spec_hit(*r, t_min, t_max),
    {
        let d = r.dir.y;
        if d == 0 {
            return None;
        }
        let (tn, td) = if d > 0 {
            (self.k - r.orig.y, d)
        } else {
            (r.orig.y - self.k, -d)
        };
        let tf = Frac::new(tn, td);
        if !(t_min.lt(&tf) && tf.lt(&t_max)) {
            return None;
        }
        proof {
            rect_products_fit(r.orig.x as int, r.orig.z as int, tf.num as int, tf.den as int,
                r.dir.x as int, r.dir.z as int);
            crate::vec3::lemma_mul_bound2(self.x0 as int, tf.den as int, 0x2000_0000, 0x1000_0000);
            crate::vec3::lemma_mul_bound2(self.x1 as int, tf.den as int, 0x2000_0000, 0x1000_0000);
            crate::vec3::lemma_mul_bound2(self.z0 as int, tf.den as int, 0x2000_0000, 0x1000_0000);
            crate::vec3::lemma_mul_bound2(self.z1 as int, tf.den as int, 0x2000_0000, 0x1000_0000);
            crate::vec3::lemma_mul_bound2(
                (self.x1 - self.x0) as int,
                tf.den as int,
                0x4000_0000,
                0x1000_0000,
            );
            crate::vec3::lemma_mul_bound2(
                (self.z1 - self.z0) as int,
                tf.den as int,
                0x4000_0000,
                0x1000_0000,
            );
            assert((self.x1 - self.x0) * tf.den > 0) by (nonlinear_arith)
                requires
                    self.x1 > self.x0,
                    tf.den > 0,
            ;
            assert((self.z1 - self.z0) * tf.den > 0) by (nonlinear_arith)
                requires
                    self.z1 > self.z0,
                    tf.den > 0,
            ;
        }
        let xn = (r.orig.x as i128) * (tf.den as i128) + (tf.num as i128) * (r.dir.x as i128);
        let zn = (r.orig.z as i128) * (tf.den as i128) + (tf.num as i128) * (r.dir.z as i128);
        let x0d = (self.x0 as i128) * (tf.den as i128);
        let x1d = (self.x1 as i128) * (tf.den as i128);
        let z0d = (self.z0 as i128) * (tf.den as i128);
        let z1d = (self.z1 as i128) * (tf.den as i128);
        if xn < x0d || xn > x1d || zn < z0d || zn > z1d {
            return None;
        }
        let u = Frac::new((xn - x0d) as i64, ((self.x1 - self.x0) as i128 * (tf.den as i128)) as i64);
        let v = Frac::new((zn - z0d) as i64, ((self.z1 - self.z0) as i128 * (tf.den as i128)) as i64);
        let mut rec = HitRecord {
            t: tf,
            u,
            v,
            normal: Vec3 { x: 0, y: 1, z: 0 },
            front_face: true,
            mat: self.mp,
        };
        rec.set_face_normal(r, Vec3 { x: 0, y: 1, z: 0 });
        Some(rec)
    }
}

impl YZRect {
    pub open spec fn wf(self) -> bool {
        &&& content_ok(self.y0 as int) && content_ok(self.y1 as int)
        &&& content_ok(self.z0 as int) && content_ok(self.z1 as int)
        &&& content_ok(self.k as int)
        &&& self.y0 < self.y1
        &&& self.z0 < self.z1
    }

    pub fn new(y0: i64, y1: i64, z0: i64, z1: i64, k: i64, mp: Material) -> (r: YZRect)
        requires
            content_ok(y0 as int) && content_ok(y1 as int),
            content_ok(z0 as int) && content_ok(z1 as int),
            content_ok(k as int),
            y0 < y1,
            z0 < z1,
        ensures
            r == (YZRect { mp, y0, y1, z0, z1, k }),
            r.wf(),
    {
        YZRect { mp, y0, y1, z0, z1, k }
    }

    pub open spec fn spec_bbox(self) -> Aabb {
        Aabb {
            min: Vec3 { x: self.k, y: self.y0, z: self.z0 },
            max: Vec3 { x: self.k, y: self.y1, z: self.z1 },
        }
    }

    /// The one parameter at which the ray crosses the rectangle's
    /// plane, or rejection, as for `XYRect`.
    pub open spec fn spec_hit(self, r: Ray, t_min: Frac, t_max: Frac) -> Option<HitRecord> {
        let d = r.dir.x;
        if d == 0 {
            None
        } else {
            let tf = entry_frac(self.k, self.k, r.orig.x, d);
            if !(t_min.spec_lt(tf) && tf.spec_lt(t_max)) {
                None
            } else {
                let yn = r.orig.y * tf.den + tf.num * r.dir.y;
                let zn = r.orig.z * tf.den + tf.num * r.dir.z;
                if yn < self.y0 * tf.den || yn > self.y1 * tf.den || zn < self.z0 * tf.den || zn
                    > self.z1 * tf.den {
                    None
                } else {
                    let fa = HitRecord::spec_face(r, Vec3 { x: 1i64, y: 0i64, z: 0i64 });
                    Some(
                        HitRecord {
                            t: tf,
                            u: Frac {
                                num: (yn - self.y0 * tf.den) as i64,
                                den: ((self.y1 - self.y0) * tf.den) as i64,
                            },
                            v: Frac {
                                num: (zn - self.z0 * tf.den) as i64,
                                den: ((self.z1 - self.z0) * tf.den) as i64,
                            },
                            normal: fa.1,
                            front_face: fa.0,
                            mat: self.mp,
                        },
                    )
                }
            }
        }
    }

    pub fn hit(&self, r: &Ray, t_min: Frac, t_max: Frac) -> (res: Option<HitRecord>)
        requires
            self.wf(),
            r.wf(),
            t_min.wf(),
            t_max.wf(),
        ensures
            res == self.spec_hit(*r, t_min, t_max),
    {
        let d = r.dir.x;
        if d == 0 {
            return None;
        }
        let (tn, td) = if d > 0 {
            (self.k - r.orig.x, d)
        } else {
            (r.orig.x - self.k, -d)
        };
        let tf = Frac::new(tn, td);
        if !(t_min.lt(&tf) && tf.lt(&t_max)) {
            return None;
        }
        proof {
            rect_products_fit(r.orig.y as int, r.orig.z as int, tf.num as int, tf.den as int,
                r.dir.y as int, r.dir.z as int);
            crate::vec3::lemma_mul_bound2(self.y0 as int, tf.den as int, 0x2000_0000, 0x1000_0000);
            crate::vec3::lemma_mul_bound2(self.y1 as int, tf.den as int, 0x2000_0000, 0x1000_0000);
            crate::vec3::lemma_mul_bound2(self.z0 as int, tf.den as int, 0x2000_0000, 0x1000_0000);
            crate::vec3::lemma_mul_bound2(self.z1 as int, tf.den as int, 0x2000_0000, 0x1000_0000);
            crate::vec3::lemma_mul_bound2(
                (self.y1 - self.y0) as int,
                tf.den as int,
                0x4000_0000,
                0x1000_0000,
            );
            crate::vec3::lemma_mul_bound2(
                (self.z1 - self.z0) as int,
                tf.den as int,
                0x4000_0000,
                0x1000_0000,
            );
            assert((self.y1 - self.y0) * tf.den > 0) by (nonlinear_arith)
                requires
                    self.y1 > self.y0,
                    tf.den > 0,
            ;
            assert((self.z1 - self.z0) * tf.den > 0) by (nonlinear_arith)
                requires
                    self.z1 > self.z0,
                    tf.den > 0,
            ;
        }
        let yn = (r.orig.y as i128) * (tf.den as i128) + (tf.num as i128) * (r.dir.y as i128);
        let zn = (r.orig.z as i128) * (tf.den as i128) + (tf.num as i128) * (r.dir.z as i128);
        let y0d = (self.y0 as i128) * (tf.den as i128);
        let y1d = (self.y1 as i128) * (tf.den as i128);
        let z0d = (self.z0 as i128) * (tf.den as i128);
        let z1d = (self.z1 as i128) * (tf.den as i128);
        if yn < y0d || yn > y1d || zn < z0d || zn > z1d {
            return None;
        }
        let u = Frac::new((yn - y0d) as i64, ((self.y1 - self.y0) as i128 * (tf.den as i128)) as i64);
        let v = Frac::new((zn - z0d) as i64, ((self.z1 - self.z0) as i128 * (tf.den as i128)) as i64);
        let mut rec = HitRecord {
            t: tf,
            u,
            v,
            normal: Vec3 { x: 1, y: 0, z: 0 },
            front_face: true,
            mat: self.mp,
        };
        rec.set_face_normal(r, Vec3 { x: 1, y: 0, z: 0 });
        Some(rec)
    }
}

/// A sphere given by center and radius.
#[derive(Clone, Copy, Debug)]
pub struct Sphere {
    pub center: Point3,
    pub radius: i64,
    pub mat_ptr: Material,
}

pub open spec fn abs_i(x: int) -> int {
    if x >= 0 {
        x
    } else {
        -x
    }
}

/// Halving toward zero, the step used to bring a wide normal vector
/// into the stored range.
pub open spec fn half_to_zero(x: int) -> int {
    if x >= 0 {
        x / 2
    } else {
        -((-x) / 2)
    }
}

/// Scales the (possibly very wide) exact normal numerators down by a
/// common power of two until every component fits in [-1024, 1024].
/// The direction is kept to within the truncation of each halving.
pub open spec fn reduce3_spec(x: int, y: int, z: int) -> (int, int, int)
    decreases abs_i(x) + abs_i(y) + abs_i(z),
{
    if -1024 <= x <= 1024 && -1024 <= y <= 1024 && -1024 <= z <= 1024 {
        (x, y, z)
    } else {
        reduce3_spec(half_to_zero(x), half_to_zero(y), half_to_zero(z))
    }
}

fn half_i128(x: i128) -> (r: i128)
    requires
        -0x1_0000_0000_0000_0000_0000_0000_0000 <= x <= 0x1_0000_0000_0000_0000_0000_0000_0000,
    ensures
        r == half_to_zero(x as int),
        abs_i(r as int) <= abs_i(x as int),
        abs_i(x as int) > 1024 ==> abs_i(r as int) < abs_i(x as int),
{
    if x >= 0 {
        ((x as u128) / 2) as i128
    } else {
        -((((-x) as u128) / 2) as i128)
    }
}

/// Brings the three components into the stored normal range by
/// halvings toward zero.
pub(crate) fn reduce3(x: i128, y: i128, z: i128) -> (r: Vec3)
    requires
        -0x1_0000_0000_0000_0000_0000_0000_0000 <= x <= 0x1_0000_0000_0000_0000_0000_0000_0000,
        -0x1_0000_0000_0000_0000_0000_0000_0000 <= y <= 0x1_0000_0000_0000_0000_0000_0000_0000,
        -0x1_0000_0000_0000_0000_0000_0000_0000 <= z <= 0x1_0000_0000_0000_0000_0000_0000_0000,
    ensures
        (r.x as int, r.y as int, r.z as int) == reduce3_spec(x as int, y as int, z as int),
        r.in_range(1024),
    decreases abs_i(x as int) + abs_i(y as int) + abs_i(z as int),
{
    if -1024 <= x && x <= 1024 && -1024 <= y && y <= 1024 && -1024 <= z && z <= 1024 {
        Vec3 { x: x as i64, y: y as i64, z: z as i64 }
    } else {
        let hx = half_i128(x);
        let hy = half_i128(y);
        let hz = half_i128(z);
        reduce3(hx, hy, hz)
    }
}

impl Sphere {
    pub open spec fn wf(self) -> bool {
        &&& self.center.in_range(0x1000_0000)
        &&& 0 < self.radius <= 0x1000_0000
    }

    pub fn new(center: Point3, radius: i64, mat_ptr: Material) -> (r: Sphere)
        requires
            center.in_range(0x1000_0000),
            0 < radius <= 0x1000_0000,
        ensures
            r == (Sphere { center, radius, mat_ptr }),
            r.wf(),
    {
        Sphere { center, radius, mat_ptr }
    }

    pub open spec fn spec_bbox(self) -> Aabb {
        Aabb {
            min: Vec3 {
                x: (self.center.x - self.radius) as i64,
                y: (self.center.y - self.radius) as i64,
                z: (self.center.z - self.radius) as i64,
            },
            max: Vec3 {
                x: (self.center.x + self.radius) as i64,
                y: (self.center.y + self.radius) as i64,
                z: (self.center.z + self.radius) as i64,
            },
        }
    }

    /// The quadratic `a t^2 + 2 hb t + cc = 0` whose roots are the
    /// ray's crossings of the sphere.
    pub open spec fn qa(self, r: Ray) -> int {
        r.dir.spec_len_sq()
    }

    pub open spec fn qhb(self, r: Ray) -> int {
        (r.orig.x - self.center.x) * r.dir.x + (r.orig.y - self.center.y) * r.dir.y + (r.orig.z
            - self.center.z) * r.dir.z
    }

    pub open spec fn qcc(self, r: Ray) -> int {
        (r.orig.x - self.center.x) * (r.orig.x - self.center.x) + (r.orig.y - self.center.y) * (
        r.orig.y - self.center.y) + (r.orig.z - self.center.z) * (r.orig.z - self.center.z)
            - self.radius * self.radius
    }

    pub open spec fn qdisc(self, r: Ray) -> int {
        self.qhb(r) * self.qhb(r) - self.qa(r) * self.qcc(r)
    }

    /// The record built at an accepted root: the normal is the exact
    /// hit-point-minus-center, scaled into range; the surface
    /// coordinates come from the fixed-point spherical angle map of
    /// that normal (exact on the axes, within a quarter percent of a
    /// turn elsewhere).
    pub open spec fn spec_record(self, r: Ray, t: Frac) -> HitRecord {
        let den = t.den as int;
        let ex = (r.orig.x - self.center.x) * den + t.num * r.dir.x;
        let ey = (r.orig.y - self.center.y) * den + t.num * r.dir.y;
        let ez = (r.orig.z - self.center.z) * den + t.num * r.dir.z;
        let n = reduce3_spec(ex, ey, ez);
        let outward = Vec3 { x: n.0 as i64, y: n.1 as i64, z: n.2 as i64 };
        let fa = HitRecord::spec_face(r, outward);
        let uv = spec_sphere_uv(outward);
        HitRecord {
            t,
            u: uv.0,
            v: uv.1,
            normal: fa.1,
            front_face: fa.0,
            mat: self.mat_ptr,
        }
    }

    /// The surface coordinates at an outward normal: the classical
    /// spherical chart (`u` from the azimuth of `(-z, x)` plus half a
    /// turn, `v` from the polar angle of `-y`), in Q16 turns.
    pub fn get_sphere_uv(&self, p: Vec3) -> (r: (Frac, Frac))
        requires
            p.in_range(1024),
        ensures
            r == spec_sphere_uv(p),
            r.0.wf(),
            r.1.wf(),
    {
        sphere_uv(p)
    }

    /// Solve the quadratic with the integer square root of the
    /// discriminant (the root the float code finds, rounded toward
    /// its far side); try the near root, then the far one.
    pub open spec fn spec_hit(self, r: Ray, t_min: Frac, t_max: Frac) -> Option<HitRecord> {
        let a = self.qa(r);
        let hb = self.qhb(r);
        let disc = self.qdisc(r);
        if a == 0 {
            None
        } else if disc < 0 {
            None
        } else {
            let s = sqrt_floor(disc as nat) as int;
            let t1 = Frac { num: (-hb - s) as i64, den: a as i64 };
            let t2 = Frac { num: (-hb + s) as i64, den: a as i64 };
            if t_min.spec_lt(t1) && t1.spec_lt(t_max) {
                Some(self.spec_record(r, t1))
            } else if t_min.spec_lt(t2) && t2.spec_lt(t_max) {
                Some(self.spec_record(r, t2))
            } else {
                None
            }
        }
    }

    pub fn hit(&self, r: &Ray, t_min: Frac, t_max: Frac) -> (res: Option<HitRecord>)
        requires
            self.wf(),
            r.wf(),
            t_min.wf(),
            t_max.wf(),
        ensures
            res == self.spec_hit(*r, t_min, t_max),
    {
        proof {
            sphere_products_fit(
                r.orig.x as int,
                r.orig.y as int,
                r.orig.z as int,
                self.center.x as int,
                self.center.y as int,
                self.center.z as int,
                r.dir.x as int,
                r.dir.y as int,
                r.dir.z as int,
                self.radius as int,
            );
        }
        let ocx = (r.orig.x as i128) - (self.center.x as i128);
        let ocy = (r.orig.y as i128) - (self.center.y as i128);
        let ocz = (r.orig.z as i128) - (self.center.z as i128);
        let dx = r.dir.x as i128;
        let dy = r.dir.y as i128;
        let dz = r.dir.z as i128;
        let a = dx * dx + dy * dy + dz * dz;
        let hb = ocx * dx + ocy * dy + ocz * dz;
        let cc = ocx * ocx + ocy * ocy + ocz * ocz - (self.radius as i128) * (self.radius as i128);
        let disc = hb * hb - a * cc;
        if a == 0 {
            return None;
        }
        if disc < 0 {
            return None;
        }
        proof {
            sphere_root_fits(self.qhb(*r), self.qdisc(*r));
        }
        let s = isqrt_u128(disc as u128) as i128;
        let t1 = Frac::new((-hb - s) as i64, a as i64);
        if t_min.lt(&t1) && t1.lt(&t_max) {
            return Some(self.make_record(r, t1));
        }
        let t2 = Frac::new((-hb + s) as i64, a as i64);
        if t_min.lt(&t2) && t2.lt(&t_max) {
            return Some(self.make_record(r, t2));
        }
        None
    }

    fn make_record(&self, r: &Ray, t: Frac) -> (res: HitRecord)
        requires
            self.wf(),
            r.wf(),
            t.wf(),
            -0x4000_0000_0000_0000 <= t.num <= 0x4000_0000_0000_0000,
            t.den <= 0x1000_0000_0000_0000,
        ensures
            res == self.spec_record(*r, t),
    {
        proof {
            crate::vec3::lemma_mul_bound2(
                (r.orig.x - self.center.x) as int,
                t.den as int,
                0x6000_0000,
                0x1000_0000_0000_0000,
            );
            crate::vec3::lemma_mul_bound2(
                (r.orig.y - self.center.y) as int,
                t.den as int,
                0x6000_0000,
                0x1000_0000_0000_0000,
            );
            crate::vec3::lemma_mul_bound2(
                (r.orig.z - self.center.z) as int,
                t.den as int,
                0x6000_0000,
                0x1000_0000_0000_0000,
            );
            crate::vec3::lemma_mul_bound2(
                t.num as int,
                r.dir.x as int,
                0x4000_0000_0000_0000,
                0x1000_0000,
            );
            crate::vec3::lemma_mul_bound2(
                t.num as int,
                r.dir.y as int,
                0x4000_0000_0000_0000,
                0x1000_0000,
            );
            crate::vec3::lemma_mul_bound2(
                t.num as int,
                r.dir.z as int,
                0x4000_0000_0000_0000,
                0x1000_0000,
            );
        }
        let den = t.den as i128;
        let ex = ((r.orig.x as i128) - (self.center.x as i128)) * den + (t.num as i128) * (
        r.dir.x as i128);
        let ey = ((r.orig.y as i128) - (self.center.y as i128)) * den + (t.num as i128) * (
        r.dir.y as i128);
        let ez = ((r.orig.z as i128) - (self.center.z as i128)) * den + (t.num as i128) * (
        r.dir.z as i128);
        let outward = reduce3(ex, ey, ez);
        let uv = sphere_uv(outward);
        let mut rec = HitRecord {
            t,
            u: uv.0,
            v: uv.1,
            normal: outward,
            front_face: true,
            mat: self.mat_ptr,
        };
        rec.set_face_normal(r, outward);
        rec
    }
}

/// The spherical surface coordinates of an outward normal `p`:
/// `u` is the azimuth of `(x, -z)` shifted by half a turn, `v` is the
/// polar angle of `-y` over the normal's length, both in Q16 turns
/// via the fixed-point angle map. A zero normal maps to the origin of
/// the chart.
pub open spec fn spec_sphere_uv(p: Vec3) -> (Frac, Frac) {
    let n2 = p.spec_len_sq();
    if n2 == 0 {
        (Frac { num: 0, den: 65536 }, Frac { num: 0, den: 65536 })
    } else {
        let nlen = sqrt_floor(n2 as nat) as int;
        let c0 = crate::material::spec_div_tz((-p.y) * 65536, nlen);
        let c = if c0 > 65536 {
            65536int
        } else if c0 < -65536 {
            (-65536) as int
        } else {
            c0
        };
        let sn = sqrt_floor((65536 * 65536 - c * c) as nat) as int;
        let v0 = 2 * crate::angle::spec_atan2_turns(sn, c);
        let v = if v0 > 65536 {
            65536int
        } else {
            v0
        };
        let u = (crate::angle::spec_atan2_turns(-(p.z as int), p.x as int) + 32768) % 65536;
        (Frac { num: u as i64, den: 65536 }, Frac { num: v as i64, den: 65536 })
    }
}

/// Executable form of the spherical chart.
pub fn sphere_uv(p: Vec3) -> (r: (Frac, Frac))
    requires
        p.in_range(1024),
    ensures
        r == spec_sphere_uv(p),
        r.0.wf(),
        r.1.wf(),
{
    proof {
        crate::vec3::lemma_mul_bound(p.x as int, p.x as int, 1024);
        crate::vec3::lemma_mul_bound(p.y as int, p.y as int, 1024);
        crate::vec3::lemma_mul_bound(p.z as int, p.z as int, 1024);
        assert((p.x as int) * (p.x as int) >= 0 && (p.y as int) * (p.y as int) >= 0 && (
        p.z as int) * (p.z as int) >= 0) by (nonlinear_arith);
    }
    let n2 = (p.x as i128) * (p.x as i128) + (p.y as i128) * (p.y as i128) + (p.z as i128) * (
    p.z as i128);
    if n2 == 0 {
        return (Frac::new(0, 65536), Frac::new(0, 65536));
    }
    let nlen = isqrt_u128(n2 as u128) as i128;
    proof {
        assert((n2 as u128) as int == n2 as int);
        assert(sqrt_floor((n2 as u128) as nat) == sqrt_floor(n2 as nat));
        assert(nlen >= 1) by (nonlinear_arith)
            requires
                n2 >= 1,
                (n2 as int) < ((nlen as int) + 1) * ((nlen as int) + 1),
                nlen >= 0,
        ;
    }
    let c0 = div_tz_uv((-(p.y as i128)) * 65536, nlen);
    let c: i64 = if c0 > 65536 {
        65536
    } else if c0 < -65536 {
        -65536
    } else {
        c0 as i64
    };
    proof {
        assert(0 <= 65536 * 65536 - (c as int) * (c as int)) by (nonlinear_arith)
            requires
                -65536 <= c <= 65536,
        ;
        assert((c as int) * (c as int) >= 0) by (nonlinear_arith);
    }
    let cc = (65536 * 65536) - (c as i128) * (c as i128);
    let sn = isqrt_u128(cc as u128) as i128;
    proof {
        assert((cc as u128) as int == cc as int);
        assert(sqrt_floor((cc as u128) as nat) == sqrt_floor(cc as nat));
        assert(sn <= 65536) by (nonlinear_arith)
            requires
                (sn as int) * (sn as int) <= cc as int,
                cc <= 65536 * 65536,
                sn >= 0,
        ;
    }
    let v0 = 2 * crate::angle::atan2_turns(sn as i64, c);
    let v: i64 = if v0 > 65536 {
        65536
    } else {
        v0
    };
    let ua = crate::angle::atan2_turns(-p.z, p.x);
    let u = (((ua + 32768) as u64) % 65536) as i64;
    (Frac::new(u, 65536), Frac::new(v, 65536))
}

fn div_tz_uv(n: i128, d: i128) -> (r: i128)
    requires
        d > 0,
        -0x1_0000_0000_0000_0000_0000_0000_0000 <= n <= 0x1_0000_0000_0000_0000_0000_0000_0000,
    ensures
        r == crate::material::spec_div_tz(n as int, d as int),
        n >= 0 ==> 0 <= r <= n,
        n < 0 ==> n <= r <= 0,
{
    proof {
        if n >= 0 {
            assert(0 <= (n as int) / (d as int) <= n) by (nonlinear_arith)
                requires
                    n >= 0,
                    d > 0,
            ;
        } else {
            assert(0 <= (-(n as int)) / (d as int) <= -n) by (nonlinear_arith)
                requires
                    n < 0,
                    d > 0,
            ;
        }
    }
    if n >= 0 {
        ((n as u128) / (d as u128)) as i128
    } else {
        -((((-n) as u128) / (d as u128)) as i128)
    }
}

/// Bounds on the sphere quadratic's coefficients: everything fits
/// comfortably in i128, and the discriminant within the square-root
/// routine's domain.
proof fn sphere_products_fit(
    ox: int,
    oy: int,
    oz: int,
    cx: int,
    cy: int,
    cz: int,
    dx: int,
    dy: int,
    dz: int,
    rad: int,
)
    requires
        -0x4000_0000 <= ox <= 0x4000_0000,
        -0x4000_0000 <= oy <= 0x4000_0000,
        -0x4000_0000 <= oz <= 0x4000_0000,
        -0x2000_0000 <= cx <= 0x2000_0000,
        -0x2000_0000 <= cy <= 0x2000_0000,
        -0x2000_0000 <= cz <= 0x2000_0000,
        -0x1000_0000 <= dx <= 0x1000_0000,
        -0x1000_0000 <= dy <= 0x1000_0000,
        -0x1000_0000 <= dz <= 0x1000_0000,
        0 < rad <= 0x2000_0000,
    ensures
        abs_i((ox - cx) * dx) <= 0x600_0000_0000_0000,
        abs_i((oy - cy) * dy) <= 0x600_0000_0000_0000,
        abs_i((oz - cz) * dz) <= 0x600_0000_0000_0000,
        0 <= dx * dx <= 0x100_0000_0000_0000,
        0 <= dy * dy <= 0x100_0000_0000_0000,
        0 <= dz * dz <= 0x100_0000_0000_0000,
        0 <= (ox - cx) * (ox - cx) <= 0x2400_0000_0000_0000,
        0 <= (oy - cy) * (oy - cy) <= 0x2400_0000_0000_0000,
        0 <= (oz - cz) * (oz - cz) <= 0x2400_0000_0000_0000,
        0 <= rad * rad <= 0x400_0000_0000_0000,
        abs_i(
            ((ox - cx) * dx + (oy - cy) * dy + (oz - cz) * dz) * ((ox - cx) * dx + (oy - cy) * dy
                + (oz - cz) * dz),
        ) <= 0x200_0000_0000_0000_0000_0000_0000_0000,
        abs_i(
            (dx * dx + dy * dy + dz * dz) * ((ox - cx) * (ox - cx) + (oy - cy) * (oy - cy) + (oz
                - cz) * (oz - cz) - rad * rad),
        ) <= 0x200_0000_0000_0000_0000_0000_0000_0000,
{
    crate::vec3::lemma_mul_bound2(ox - cx, dx, 0x6000_0000, 0x1000_0000);
    crate::vec3::lemma_mul_bound2(oy - cy, dy, 0x6000_0000, 0x1000_0000);
    crate::vec3::lemma_mul_bound2(oz - cz, dz, 0x6000_0000, 0x1000_0000);
    lemma_sq_bound(dx, 0x1000_0000);
    lemma_sq_bound(dy, 0x1000_0000);
    lemma_sq_bound(dz, 0x1000_0000);
    lemma_sq_bound(ox - cx, 0x6000_0000);
    lemma_sq_bound(oy - cy, 0x6000_0000);
    lemma_sq_bound(oz - cz, 0x6000_0000);
    lemma_sq_bound(rad, 0x2000_0000);
    let hb = (ox - cx) * dx + (oy - cy) * dy + (oz - cz) * dz;
    let a = dx * dx + dy * dy + dz * dz;
    let cc = (ox - cx) * (ox - cx) + (oy - cy) * (oy - cy) + (oz - cz) * (oz - cz) - rad * rad;
    crate::vec3::lemma_mul_bound2(hb, hb, 0x1200_0000_0000_0000, 0x1200_0000_0000_0000);
    crate::vec3::lemma_mul_bound2(a, cc, 0x300_0000_0000_0000, 0x6c00_0000_0000_0000);
}

/// A square is nonnegative and bounded by the square of the bound.
proof fn lemma_sq_bound(x: int, b: int)
    requires
        -b <= x <= b,
        b >= 0,
    ensures
        0 <= x * x <= b * b,
{
    assert(0 <= x * x <= b * b) by (nonlinear_arith)
        requires
            -b <= x <= b,
            b >= 0,
    ;
}

/// The accepted root's numerator fits an i64 fraction.
proof fn sphere_root_fits(hb: int, disc: int)
    requires
        abs_i(hb) <= 0x1200_0000_0000_0000,
        0 <= disc <= 0x400_0000_0000_0000_0000_0000_0000_0000,
    ensures
        0 <= sqrt_floor(disc as nat) <= 0x2000_0000_0000_0000,
        abs_i(-hb - sqrt_floor(disc as nat)) <= 0x4000_0000_0000_0000,
        abs_i(-hb + sqrt_floor(disc as nat)) <= 0x4000_0000_0000_0000,
{
    crate::isqrt::lemma_sqrt_floor_bounds(disc as nat);
    let s = sqrt_floor(disc as nat) as int;
    assert(s * s <= disc);
    if s > 0x2000_0000_0000_0000 {
        assert(s * s > 0x400_0000_0000_0000_0000_0000_0000_0000) by (nonlinear_arith)
            requires
                s > 0x2000_0000_0000_0000,
        ;
    }
}

/// Combines a hit found so far with the next candidate: the nearer
/// parametric distance wins, and on a tie the later candidate (the
/// tie-break the chained queries of the aggregate produce).
pub open spec fn chain2(acc: Option<HitRecord>, nxt: Option<HitRecord>) -> Option<HitRecord> {
    match nxt {
        Option::None => acc,
        Option::Some(n) => match acc {
            Option::None => Option::Some(n),
            Option::Some(a) => if n.t.spec_le(a.t) {
                Option::Some(n)
            } else {
                Option::Some(a)
            },
        },
    }
}

/// Executable form of `chain2`.
pub fn chain2_exec(acc: Option<HitRecord>, nxt: Option<HitRecord>) -> (r: Option<HitRecord>)
    requires
        acc matches Option::Some(a) ==> a.t.wf(),
        nxt matches Option::Some(n) ==> n.t.wf(),
    ensures
        r == chain2(acc, nxt),
{
    match nxt {
        Option::None => acc,
        Option::Some(n) => match acc {
            Option::None => Option::Some(n),
            Option::Some(a) => if n.t.le(&a.t) {
                Option::Some(n)
            } else {
                Option::Some(a)
            },
        },
    }
}

/// A box composed of six axis-aligned rectangle faces.
#[derive(Clone, Copy, Debug)]
pub struct Cube {
    pub cube_min: Point3,
    pub cube_max: Point3,
    pub side_xy1: XYRect,
    pub side_xy0: XYRect,
    pub side_xz1: XZRect,
    pub side_xz0: XZRect,
    pub side_yz1: YZRect,
    pub side_yz0: YZRect,
}

impl Cube {
    /// The six faces are exactly the rectangles spanned by the two
    /// corners, all sharing one material.
    pub open spec fn wf(self) -> bool {
        let p0 = self.cube_min;
        let p1 = self.cube_max;
        &&& content_ok(p0.x as int) && content_ok(p0.y as int) && content_ok(p0.z as int)
        &&& content_ok(p1.x as int) && content_ok(p1.y as int) && content_ok(p1.z as int)
        &&& p0.x < p1.x && p0.y < p1.y && p0.z < p1.z
        &&& self.side_xy1 == (XYRect {
            mp: self.side_xy1.mp,
            x0: p0.x,
            x1: p1.x,
            y0: p0.y,
            y1: p1.y,
            k: p1.z,
        })
        &&& self.side_xy0 == (XYRect {
            mp: self.side_xy0.mp,
            x0: p0.x,
            x1: p1.x,
            y0: p0.y,
            y1: p1.y,
            k: p0.z,
        })
        &&& self.side_xz1 == (XZRect {
            mp: self.side_xz1.mp,
            x0: p0.x,
            x1: p1.x,
            z0: p0.z,
            z1: p1.z,
            k: p1.y,
        })
        &&& self.side_xz0 == (XZRect {
            mp: self.side_xz0.mp,
            x0: p0.x,
            x1: p1.x,
            z0: p0.z,
            z1: p1.z,
            k: p0.y,
        })
        &&& self.side_yz1 == (YZRect {
            mp: self.side_yz1.mp,
            y0: p0.y,
            y1: p1.y,
            z0: p0.z,
            z1: p1.z,
            k: p1.x,
        })
        &&& self.side_yz0 == (YZRect {
            mp: self.side_yz0.mp,
            y0: p0.y,
            y1: p1.y,
            z0: p0.z,
            z1: p1.z,
            k: p0.x,
        })
    }

    pub fn new(p0: Point3, p1: Point3, ptr: Material) -> (r: Cube)
        requires
            content_ok(p0.x as int) && content_ok(p0.y as int) && content_ok(p0.z as int),
            content_ok(p1.x as int) && content_ok(p1.y as int) && content_ok(p1.z as int),
            p0.x < p1.x,
            p0.y < p1.y,
            p0.z < p1.z,
        ensures
            r.wf(),
            r.cube_min == p0,
            r.cube_max == p1,
            r.side_xy1.mp == ptr && r.side_xy0.mp == ptr && r.side_xz1.mp == ptr
                && r.side_xz0.mp == ptr && r.side_yz1.mp == ptr && r.side_yz0.mp == ptr,
    {
        Cube {
            cube_min: p0,
            cube_max: p1,
            side_xy1: XYRect::new(p0.x, p1.x, p0.y, p1.y, p1.z, ptr),
            side_xy0: XYRect::new(p0.x, p1.x, p0.y, p1.y, p0.z, ptr),
            side_xz1: XZRect::new(p0.x, p1.x, p0.z, p1.z, p1.y, ptr),
            side_xz0: XZRect::new(p0.x, p1.x, p0.z, p1.z, p0.y, ptr),
            side_yz1: YZRect::new(p0.y, p1.y, p0.z, p1.z, p1.x, ptr),
            side_yz0: YZRect::new(p0.y, p1.y, p0.z, p1.z, p0.x, ptr),
        }
    }

    pub open spec fn spec_bbox(self) -> Aabb {
        Aabb { min: self.cube_min, max: self.cube_max }
    }

    /// The nearest hit over the six faces.
    pub open spec fn spec_hit(self, r: Ray, t_min: Frac, t_max: Frac) -> Option<HitRecord> {
        let h1 = self.side_xy1.spec_hit(r, t_min, t_max);
        let h2 = chain2(h1, self.side_xy0.spec_hit(r, t_min, t_max));
        let h3 = chain2(h2, self.side_xz1.spec_hit(r, t_min, t_max));
        let h4 = chain2(h3, self.side_xz0.spec_hit(r, t_min, t_max));
        let h5 = chain2(h4, self.side_yz1.spec_hit(r, t_min, t_max));
        chain2(h5, self.side_yz0.spec_hit(r, t_min, t_max))
    }

    pub fn hit(&self, r: &Ray, t_min: Frac, t_max: Frac) -> (res: Option<HitRecord>)
        requires
            self.wf(),
            r.wf(),
            t_min.wf(),
            t_max.wf(),
        ensures
            res == self.spec_hit(*r, t_min, t_max),
    {
        proof {
            lemma_xy_hit_wf(self.side_xy1, *r, t_min, t_max);
            lemma_xy_hit_wf(self.side_xy0, *r, t_min, t_max);
            lemma_xz_hit_wf(self.side_xz1, *r, t_min, t_max);
            lemma_xz_hit_wf(self.side_xz0, *r, t_min, t_max);
            lemma_yz_hit_wf(self.side_yz1, *r, t_min, t_max);
            lemma_yz_hit_wf(self.side_yz0, *r, t_min, t_max);
        }
        let h = self.side_xy1.hit(r, t_min, t_max);
        let h = chain2_exec(h, self.side_xy0.hit(r, t_min, t_max));
        let h = chain2_exec(h, self.side_xz1.hit(r, t_min, t_max));
        let h = chain2_exec(h, self.side_xz0.hit(r, t_min, t_max));
        let h = chain2_exec(h, self.side_yz1.hit(r, t_min, t_max));
        chain2_exec(h, self.side_yz0.hit(r, t_min, t_max))
    }
}

/// A rectangle's hit record is well-formed and lies in the window.
proof fn lemma_xy_hit_wf(rect: XYRect, r: Ray, t_min: Frac, t_max: Frac)
    requires
        rect.wf(),
        r.wf(),
        t_min.wf(),
        t_max.wf(),
    ensures
        rect.spec_hit(r, t_min, t_max) matches Option::Some(h) ==> h.wf() && t_min.spec_le(h.t)
            && h.t.spec_le(t_max),
{
    let d = r.dir.z;
    if d != 0 {
        let tf = entry_frac(rect.k, rect.k, r.orig.z, d);
        if t_min.spec_le(tf) && tf.spec_le(t_max) {
            crate::vec3::lemma_mul_bound2(
                (rect.x1 - rect.x0) as int,
                tf.den as int,
                0x4000_0000,
                0x1000_0000,
            );
            crate::vec3::lemma_mul_bound2(
                (rect.y1 - rect.y0) as int,
                tf.den as int,
                0x4000_0000,
                0x1000_0000,
            );
            assert((rect.x1 - rect.x0) * tf.den > 0) by (nonlinear_arith)
                requires
                    rect.x1 > rect.x0,
                    tf.den > 0,
            ;
            assert((rect.y1 - rect.y0) * tf.den > 0) by (nonlinear_arith)
                requires
                    rect.y1 > rect.y0,
                    tf.den > 0,
            ;
        }
    }
}

proof fn lemma_xz_hit_wf(rect: XZRect, r: Ray, t_min: Frac, t_max: Frac)
    requires
        rect.wf(),
        r.wf(),
        t_min.wf(),
        t_max.wf(),
    ensures
        rect.spec_hit(r, t_min, t_max) matches Option::Some(h) ==> h.wf() && t_min.spec_le(h.t)
            && h.t.spec_le(t_max),
{
    let d = r.dir.y;
    if d != 0 {
        let tf = entry_frac(rect.k, rect.k, r.orig.y, d);
        if t_min.spec_le(tf) && tf.spec_le(t_max) {
            crate::vec3::lemma_mul_bound2(
                (rect.x1 - rect.x0) as int,
                tf.den as int,
                0x4000_0000,
                0x1000_0000,
            );
            crate::vec3::lemma_mul_bound2(
                (rect.z1 - rect.z0) as int,
                tf.den as int,
                0x4000_0000,
                0x1000_0000,
            );
            assert((rect.x1 - rect.x0) * tf.den > 0) by (nonlinear_arith)
                requires
                    rect.x1 > rect.x0,
                    tf.den > 0,
            ;
            assert((rect.z1 - rect.z0) * tf.den > 0) by (nonlinear_arith)
                requires
                    rect.z1 > rect.z0,
                    tf.den > 0,
            ;
        }
    }
}

proof fn lemma_yz_hit_wf(rect: YZRect, r: Ray, t_min: Frac, t_max: Frac)
    requires
        rect.wf(),
        r.wf(),
        t_min.wf(),
        t_max.wf(),
    ensures
        rect.spec_hit(r, t_min, t_max) matches Option::Some(h) ==> h.wf() && t_min.spec_le(h.t)
            && h.t.spec_le(t_max),
{
    let d = r.dir.x;
    if d != 0 {
        let tf = entry_frac(rect.k, rect.k, r.orig.x, d);
        if t_min.spec_le(tf) && tf.spec_le(t_max) {
            crate::vec3::lemma_mul_bound2(
                (rect.y1 - rect.y0) as int,
                tf.den as int,
                0x4000_0000,
                0x1000_0000,
            );
            crate::vec3::lemma_mul_bound2(
                (rect.z1 - rect.z0) as int,
                tf.den as int,
                0x4000_0000,
                0x1000_0000,
            );
            assert((rect.y1 - rect.y0) * tf.den > 0) by (nonlinear_arith)
                requires
                    rect.y1 > rect.y0,
                    tf.den > 0,
            ;
            assert((rect.z1 - rect.z0) * tf.den > 0) by (nonlinear_arith)
                requires
                    rect.z1 > rect.z0,
                    tf.den > 0,
            ;
        }
    }
}

/// A wrapper that shifts the wrapped primitive by a fixed offset (by
/// shifting incoming rays the opposite way).
#[derive(Debug)]
pub struct Translate {
    pub ptr: Box<Hittable>,
    pub offset: Vec3,
}

impl Translate {
    pub fn new(ptr: Hittable, offset: Vec3) -> (r: Translate)
        ensures
            r.ptr == ptr,
            r.offset == offset,
    {
        Translate { ptr: Box::new(ptr), offset }
    }
}

/// A wrapper that flips which side counts as the front face, used to
/// turn a one-sided light around.
#[derive(Debug)]
pub struct FlipFace {
    pub ptr: Box<Hittable>,
}

impl FlipFace {
    pub fn new(ptr: Hittable) -> (r: FlipFace)
        ensures
            r.ptr == ptr,
    {
        FlipFace { ptr: Box::new(ptr) }
    }
}

/// Any intersectable primitive, as a closed sum of the shape and
/// wrapper kinds.
#[derive(Debug)]
pub enum Hittable {
    Sphere(Sphere),
    XY(XYRect),
    XZ(XZRect),
    YZ(YZRect),
    Cube(Cube),
    Translate(Translate),
    Flip(FlipFace),
}

/// The larger of the absolute values of the offset's components.
pub open spec fn max_off(v: Vec3) -> int {
    let ax = abs_i(v.x as int);
    let ay = abs_i(v.y as int);
    let az = abs_i(v.z as int);
    if ax >= ay && ax >= az {
        ax
    } else if ay >= az {
        ay
    } else {
        az
    }
}

impl Hittable {
    /// Well-formedness with a budget for nested translation offsets:
    /// every chain of offsets on a path into the tree stays within
    /// `slack`, so shifted rays and boxes never leave the coordinate
    /// range the arithmetic bounds assume.
    pub open spec fn wf_off(self, slack: int) -> bool
        decreases self,
    {
        match self {
            Hittable::Sphere(s) => s.wf(),
            Hittable::XY(s) => s.wf(),
            Hittable::XZ(s) => s.wf(),
            Hittable::YZ(s) => s.wf(),
            Hittable::Cube(s) => s.wf(),
            Hittable::Translate(t) => max_off(t.offset) <= slack && t.ptr.wf_off(
                slack - max_off(t.offset),
            ),
            Hittable::Flip(f) => f.ptr.wf_off(slack),
        }
    }

    pub open spec fn wf(self) -> bool {
        self.wf_off(0x1000_0000)
    }

    /// The box enclosing the primitive.
    pub open spec fn spec_bbox(self) -> Aabb
        decreases self,
    {
        match self {
            Hittable::Sphere(s) => s.spec_bbox(),
            Hittable::XY(s) => s.spec_bbox(),
            Hittable::XZ(s) => s.spec_bbox(),
            Hittable::YZ(s) => s.spec_bbox(),
            Hittable::Cube(s) => s.spec_bbox(),
            Hittable::Translate(t) => {
                let b = t.ptr.spec_bbox();
                Aabb {
                    min: Vec3 {
                        x: (b.min.x + t.offset.x) as i64,
                        y: (b.min.y + t.offset.y) as i64,
                        z: (b.min.z + t.offset.z) as i64,
                    },
                    max: Vec3 {
                        x: (b.max.x + t.offset.x) as i64,
                        y: (b.max.y + t.offset.y) as i64,
                        z: (b.max.z + t.offset.z) as i64,
                    },
                }
            },
            Hittable::Flip(f) => f.ptr.spec_bbox(),
        }
    }

    /// The nearest intersection within the closed window
    /// `[t_min, t_max]`, deterministic for every primitive kind.
    pub open spec fn spec_hit(self, r: Ray, t_min: Frac, t_max: Frac) -> Option<HitRecord>
        decreases self,
    {
        match self {
            Hittable::Sphere(s) => s.spec_hit(r, t_min, t_max),
            Hittable::XY(s) => s.spec_hit(r, t_min, t_max),
            Hittable::XZ(s) => s.spec_hit(r, t_min, t_max),
            Hittable::YZ(s) => s.spec_hit(r, t_min, t_max),
            Hittable::Cube(s) => s.spec_hit(r, t_min, t_max),
            Hittable::Translate(t) => {
                let moved = Ray {
                    orig: Vec3 {
                        x: (r.orig.x - t.offset.x) as i64,
                        y: (r.orig.y - t.offset.y) as i64,
                        z: (r.orig.z - t.offset.z) as i64,
                    },
                    dir: r.dir,
                    tm: r.tm,
                };
                match t.ptr.spec_hit(moved, t_min, t_max) {
                    Option::None => Option::None,
                    Option::Some(rec0) => {
                        let fa = HitRecord::spec_face(moved, rec0.normal);
                        Option::Some(HitRecord { normal: fa.1, front_face: fa.0, ..rec0 })
                    },
                }
            },
            Hittable::Flip(f) => match f.ptr.spec_hit(r, t_min, t_max) {
                Option::None => Option::None,
                Option::Some(rec0) => Option::Some(
                    HitRecord { front_face: !rec0.front_face, ..rec0 },
                ),
            },
        }
    }

    /// Entry point used by aggregates; the ray origin leaves headroom
    /// for the whole translation budget.
    pub fn hit(&self, r: &Ray, t_min: Frac, t_max: Frac) -> (res: Option<HitRecord>)
        requires
            self.wf(),
            r.orig.in_range(0x3000_0000),
            r.dir.in_range(0x1000_0000),
            t_min.wf(),
            t_max.wf(),
        ensures
            res == self.spec_hit(*r, t_min, t_max),
    {
        self.hit_rec(r, t_min, t_max, Ghost(0x1000_0000int))
    }

    fn hit_rec(&self, r: &Ray, t_min: Frac, t_max: Frac, slack: Ghost<int>) -> (res: Option<
        HitRecord,
    >)
        requires
            0 <= slack@ <= 0x1000_0000,
            self.wf_off(slack@),
            r.orig.in_range(0x4000_0000 - slack@),
            r.dir.in_range(0x1000_0000),
            t_min.wf(),
            t_max.wf(),
        ensures
            res == self.spec_hit(*r, t_min, t_max),
        decreases *self,
    {
        match self {
            Hittable::Sphere(s) => s.hit(r, t_min, t_max),
            Hittable::XY(s) => s.hit(r, t_min, t_max),
            Hittable::XZ(s) => s.hit(r, t_min, t_max),
            Hittable::YZ(s) => s.hit(r, t_min, t_max),
            Hittable::Cube(s) => s.hit(r, t_min, t_max),
            Hittable::Translate(t) => {
                let moved = Ray {
                    orig: Vec3 {
                        x: r.orig.x - t.offset.x,
                        y: r.orig.y - t.offset.y,
                        z: r.orig.z - t.offset.z,
                    },
                    dir: r.dir,
                    tm: r.tm,
                };
                proof {
                    lemma_hit_props(*t.ptr, moved, t_min, t_max, slack@ - max_off(t.offset));
                }
                match t.ptr.hit_rec(&moved, t_min, t_max, Ghost(slack@ - max_off(t.offset))) {
                    Option::None => Option::None,
                    Option::Some(rec0) => {
                        let mut rec = rec0;
                        rec.set_face_normal(&moved, rec0.normal);
                        Option::Some(rec)
                    },
                }
            },
            Hittable::Flip(f) => match f.ptr.hit_rec(r, t_min, t_max, slack) {
                Option::None => Option::None,
                Option::Some(rec0) => {
                    let mut rec = rec0;
                    rec.front_face = !rec0.front_face;
                    Option::Some(rec)
                },
            },
        }
    }
}

/// The scaled-down normal keeps every component in range.
proof fn lemma_reduce3_range(x: int, y: int, z: int)
    ensures
        -1024 <= reduce3_spec(x, y, z).0 <= 1024,
        -1024 <= reduce3_spec(x, y, z).1 <= 1024,
        -1024 <= reduce3_spec(x, y, z).2 <= 1024,
    decreases abs_i(x) + abs_i(y) + abs_i(z),
{
    if -1024 <= x <= 1024 && -1024 <= y <= 1024 && -1024 <= z <= 1024 {
    } else {
        lemma_reduce3_range(half_to_zero(x), half_to_zero(y), half_to_zero(z));
    }
}

/// A sphere's hit record is well-formed and lies in the window.
proof fn lemma_sphere_hit_wf(s: Sphere, r: Ray, t_min: Frac, t_max: Frac)
    requires
        s.wf(),
        r.wf(),
        t_min.wf(),
        t_max.wf(),
    ensures
        s.spec_hit(r, t_min, t_max) matches Option::Some(rec) ==> rec.wf() && t_min.spec_le(rec.t)
            && rec.t.spec_le(t_max),
{
    let a = s.qa(r);
    let disc = s.qdisc(r);
    if a != 0 && disc >= 0 {
        sphere_products_fit(
            r.orig.x as int,
            r.orig.y as int,
            r.orig.z as int,
            s.center.x as int,
            s.center.y as int,
            s.center.z as int,
            r.dir.x as int,
            r.dir.y as int,
            r.dir.z as int,
            s.radius as int,
        );
        sphere_root_fits(s.qhb(r), disc);
        let sq = sqrt_floor(disc as nat) as int;
        let t1 = Frac { num: (-s.qhb(r) - sq) as i64, den: a as i64 };
        let t2 = Frac { num: (-s.qhb(r) + sq) as i64, den: a as i64 };
        assert(a > 0);
        lemma_record_wf(s, r, t1);
        lemma_record_wf(s, r, t2);
    }
}

/// The record a sphere builds at an accepted root is well-formed.
proof fn lemma_record_wf(s: Sphere, r: Ray, t: Frac)
    requires
        t.wf(),
    ensures
        s.spec_record(r, t).wf(),
        s.spec_record(r, t).t == t,
{
    let den = t.den as int;
    let ex = (r.orig.x - s.center.x) * den + t.num * r.dir.x;
    let ey = (r.orig.y - s.center.y) * den + t.num * r.dir.y;
    let ez = (r.orig.z - s.center.z) * den + t.num * r.dir.z;
    lemma_reduce3_range(ex, ey, ez);
}

impl Hittable {
    /// A structurally equal copy (the enum is not `Copy` because the
    /// wrappers box their contents); lets a builder work on a
    /// snapshot without consuming the caller's collection.
    pub fn duplicate(&self) -> (r: Hittable)
        ensures
            r == *self,
        decreases *self,
    {
        match self {
            Hittable::Sphere(s) => Hittable::Sphere(*s),
            Hittable::XY(s) => Hittable::XY(*s),
            Hittable::XZ(s) => Hittable::XZ(*s),
            Hittable::YZ(s) => Hittable::YZ(*s),
            Hittable::Cube(s) => Hittable::Cube(*s),
            Hittable::Translate(t) => Hittable::Translate(
                Translate { ptr: Box::new(t.ptr.duplicate()), offset: t.offset },
            ),
            Hittable::Flip(f) => Hittable::Flip(FlipFace { ptr: Box::new(f.ptr.duplicate()) }),
        }
    }
}

/// A primitive's bounding box is well-formed, and its corners stay
/// within the coordinate range even after the translation offsets the
/// budget `slack` allows.
pub proof fn lemma_bbox_range(h: Hittable, slack: int)
    requires
        0 <= slack <= 0x1000_0000,
        h.wf_off(slack),
    ensures
        h.spec_bbox().min.in_range(0x2000_0000 + slack),
        h.spec_bbox().max.in_range(0x2000_0000 + slack),
        h.spec_bbox().min.x <= h.spec_bbox().max.x,
        h.spec_bbox().min.y <= h.spec_bbox().max.y,
        h.spec_bbox().min.z <= h.spec_bbox().max.z,
        h.spec_bbox().wf(),
    decreases h,
{
    match h {
        Hittable::Sphere(s) => {},
        Hittable::XY(s) => {},
        Hittable::XZ(s) => {},
        Hittable::YZ(s) => {},
        Hittable::Cube(s) => {},
        Hittable::Translate(t) => {
            lemma_bbox_range(*t.ptr, slack - max_off(t.offset));
        },
        Hittable::Flip(f) => {
            lemma_bbox_range(*f.ptr, slack);
        },
    }
}

impl Hittable {
    /// The enclosing box; the time window is accepted for interface
    /// parity but no primitive here moves over time.
    pub fn bounding_box(&self, time0: i64, time1: i64) -> (res: Aabb)
        requires
            self.wf(),
        ensures
            res == self.spec_bbox(),
            res.wf(),
    {
        proof {
            lemma_bbox_range(*self, 0x1000_0000);
        }
        self.bounding_box_rec(Ghost(0x1000_0000int))
    }

    fn bounding_box_rec(&self, slack: Ghost<int>) -> (res: Aabb)
        requires
            0 <= slack@ <= 0x1000_0000,
            self.wf_off(slack@),
        ensures
            res == self.spec_bbox(),
        decreases *self,
    {
        match self {
            Hittable::Sphere(s) => Aabb {
                min: Vec3 {
                    x: s.center.x - s.radius,
                    y: s.center.y - s.radius,
                    z: s.center.z - s.radius,
                },
                max: Vec3 {
                    x: s.center.x + s.radius,
                    y: s.center.y + s.radius,
                    z: s.center.z + s.radius,
                },
            },
            Hittable::XY(s) => Aabb {
                min: Vec3 { x: s.x0, y: s.y0, z: s.k },
                max: Vec3 { x: s.x1, y: s.y1, z: s.k },
            },
            Hittable::XZ(s) => Aabb {
                min: Vec3 { x: s.x0, y: s.k, z: s.z0 },
                max: Vec3 { x: s.x1, y: s.k, z: s.z1 },
            },
            Hittable::YZ(s) => Aabb {
                min: Vec3 { x: s.k, y: s.y0, z: s.z0 },
                max: Vec3 { x: s.k, y: s.y1, z: s.z1 },
            },
            Hittable::Cube(s) => Aabb { min: s.cube_min, max: s.cube_max },
            Hittable::Translate(t) => {
                proof {
                    lemma_bbox_range(*t.ptr, slack@ - max_off(t.offset));
                }
                let b = t.ptr.bounding_box_rec(Ghost(slack@ - max_off(t.offset)));
                Aabb {
                    min: Vec3 {
                        x: b.min.x + t.offset.x,
                        y: b.min.y + t.offset.y,
                        z: b.min.z + t.offset.z,
                    },
                    max: Vec3 {
                        x: b.max.x + t.offset.x,
                        y: b.max.y + t.offset.y,
                        z: b.max.z + t.offset.z,
                    },
                }
            },
            Hittable::Flip(f) => f.ptr.bounding_box_rec(slack),
        }
    }
}

/// A primitive's hit record is well-formed and lies in the query
/// window. `slack` is the translation budget still unspent, as in
/// `wf_off`.
pub proof fn lemma_hit_props(h: Hittable, r: Ray, t_min: Frac, t_max: Frac, slack: int)
    requires
        0 <= slack <= 0x1000_0000,
        h.wf_off(slack),
        r.orig.in_range(0x4000_0000 - slack),
        r.dir.in_range(0x1000_0000),
        t_min.wf(),
        t_max.wf(),
    ensures
        h.spec_hit(r, t_min, t_max) matches Option::Some(rec) ==> rec.wf() && t_min.spec_le(rec.t)
            && rec.t.spec_le(t_max),
    decreases h,
{
    match h {
        Hittable::Sphere(s) => {
            lemma_sphere_hit_wf(s, r, t_min, t_max);
        },
        Hittable::XY(s) => {
            lemma_xy_hit_wf(s, r, t_min, t_max);
        },
        Hittable::XZ(s) => {
            lemma_xz_hit_wf(s, r, t_min, t_max);
        },
        Hittable::YZ(s) => {
            lemma_yz_hit_wf(s, r, t_min, t_max);
        },
        Hittable::Cube(s) => {
            lemma_xy_hit_wf(s.side_xy1, r, t_min, t_max);
            lemma_xy_hit_wf(s.side_xy0, r, t_min, t_max);
            lemma_xz_hit_wf(s.side_xz1, r, t_min, t_max);
            lemma_xz_hit_wf(s.side_xz0, r, t_min, t_max);
            lemma_yz_hit_wf(s.side_yz1, r, t_min, t_max);
            lemma_yz_hit_wf(s.side_yz0, r, t_min, t_max);
        },
        Hittable::Translate(t) => {
            let moved = Ray {
                orig: Vec3 {
                    x: (r.orig.x - t.offset.x) as i64,
                    y: (r.orig.y - t.offset.y) as i64,
                    z: (r.orig.z - t.offset.z) as i64,
                },
                dir: r.dir,
                tm: r.tm,
            };
            lemma_hit_props(*t.ptr, moved, t_min, t_max, slack - max_off(t.offset));
        },
        Hittable::Flip(f) => {
            lemma_hit_props(*f.ptr, r, t_min, t_max, slack);
        },
    }
}

/// At an accepted root the ray's point lies on or inside the sphere,
/// so each coordinate stays between the walls of the sphere's box.
#[verifier::rlimit(4)]
#[verifier::spinoff_prover]
proof fn lemma_sphere_point_in_box(s: Sphere, r: Ray, n: int, m: int)
    requires
        s.wf(),
        r.wf(),
        m == s.qa(r),
        m > 0,
        s.qdisc(r) >= 0,
        ({
            let sq = sqrt_floor(s.qdisc(r) as nat) as int;
            n == -s.qhb(r) - sq || n == -s.qhb(r) + sq
        }),
    ensures
        forall|a: int| 0 <= a < 3 ==> s.spec_bbox().axis_ok_at(r, a, n, m),
{
    let ocx = r.orig.x - s.center.x;
    let ocy = r.orig.y - s.center.y;
    let ocz = r.orig.z - s.center.z;
    let dx = r.dir.x as int;
    let dy = r.dir.y as int;
    let dz = r.dir.z as int;
    let rad = s.radius as int;
    let hb = s.qhb(r);
    let cc = s.qcc(r);
    let disc = s.qdisc(r);
    let sq = sqrt_floor(disc as nat) as int;
    crate::isqrt::lemma_sqrt_floor_bounds(disc as nat);
    let ex = ocx * m + n * dx;
    let ey = ocy * m + n * dy;
    let ez = ocz * m + n * dz;
    let oc2 = ocx * ocx + ocy * ocy + ocz * ocz;
    let p2m = m * m;
    let ux = ocx * m;
    let vx = n * dx;
    assert(ex * ex == ux * ux + 2 * (ux * vx) + vx * vx) by (nonlinear_arith)
        requires
            ex == ux + vx,
    ;
    assert(ux * ux == (ocx * ocx) * p2m) by (nonlinear_arith)
        requires
            ux == ocx * m,
            p2m == m * m,
    ;
    assert(ux * vx == (ocx * dx) * (m * n)) by (nonlinear_arith)
        requires
            ux == ocx * m,
            vx == n * dx,
    ;
    assert(vx * vx == (dx * dx) * (n * n)) by (nonlinear_arith)
        requires
            vx == n * dx,
    ;
    assert(ex * ex == (ocx * ocx) * p2m + 2 * ((ocx * dx) * (m * n)) + (dx * dx) * (n * n));
    let uy = ocy * m;
    let vy = n * dy;
    assert(ey * ey == uy * uy + 2 * (uy * vy) + vy * vy) by (nonlinear_arith)
        requires
            ey == uy + vy,
    ;
    assert(uy * uy == (ocy * ocy) * p2m) by (nonlinear_arith)
        requires
            uy == ocy * m,
            p2m == m * m,
    ;
    assert(uy * vy == (ocy * dy) * (m * n)) by (nonlinear_arith)
        requires
            uy == ocy * m,
            vy == n * dy,
    ;
    assert(vy * vy == (dy * dy) * (n * n)) by (nonlinear_arith)
        requires
            vy == n * dy,
    ;
    assert(ey * ey == (ocy * ocy) * p2m + 2 * ((ocy * dy) * (m * n)) + (dy * dy) * (n * n));
    let uz = ocz * m;
    let vz = n * dz;
    assert(ez * ez == uz * uz + 2 * (uz * vz) + vz * vz) by (nonlinear_arith)
        requires
            ez == uz + vz,
    ;
    assert(uz * uz == (ocz * ocz) * p2m) by (nonlinear_arith)
        requires
            uz == ocz * m,
            p2m == m * m,
    ;
    assert(uz * vz == (ocz * dz) * (m * n)) by (nonlinear_arith)
        requires
            uz == ocz * m,
            vz == n * dz,
    ;
    assert(vz * vz == (dz * dz) * (n * n)) by (nonlinear_arith)
        requires
            vz == n * dz,
    ;
    assert(ez * ez == (ocz * ocz) * p2m + 2 * ((ocz * dz) * (m * n)) + (dz * dz) * (n * n));
    let sum = ex * ex + ey * ey + ez * ez;
    assert(oc2 * p2m == (ocx * ocx) * p2m + (ocy * ocy) * p2m + (ocz * ocz) * p2m)
        by (nonlinear_arith)
        requires
            oc2 == ocx * ocx + ocy * ocy + ocz * ocz,
    ;
    assert(hb * (m * n) == (ocx * dx) * (m * n) + (ocy * dy) * (m * n) + (ocz * dz) * (m * n))
        by (nonlinear_arith)
        requires
            hb == ocx * dx + ocy * dy + ocz * dz,
    ;
    assert(m * (n * n) == (dx * dx) * (n * n) + (dy * dy) * (n * n) + (dz * dz) * (n * n))
        by (nonlinear_arith)
        requires
            m == dx * dx + dy * dy + dz * dz,
    ;
    assert(sum == oc2 * p2m + 2 * (hb * (m * n)) + m * (n * n));
    assert(n * n + 2 * (hb * n) == sq * sq - hb * hb) by (nonlinear_arith)
        requires
            n == -hb - sq || n == -hb + sq,
    ;
    assert(cc * p2m == oc2 * p2m - (rad * rad) * p2m) by (nonlinear_arith)
        requires
            cc == oc2 - rad * rad,
    ;
    assert(sum - (rad * rad) * p2m == cc * p2m + 2 * (hb * (m * n)) + m * (n * n));
    assert(cc * p2m == m * (m * cc)) by (nonlinear_arith)
        requires
            p2m == m * m,
    ;
    assert(2 * (hb * (m * n)) == m * (2 * (hb * n))) by (nonlinear_arith);
    assert(m * (2 * (hb * n)) + m * (n * n) == m * (sq * sq - hb * hb)) by (nonlinear_arith)
        requires
            n * n + 2 * (hb * n) == sq * sq - hb * hb,
    ;
    assert(m * (m * cc) + m * (sq * sq - hb * hb) == m * ((sq * sq) - disc)) by (nonlinear_arith)
        requires
            disc == hb * hb - m * cc,
    ;
    assert(sum - (rad * rad) * p2m == m * ((sq * sq) - disc));
    assert(m * ((sq * sq) - disc) <= 0) by (nonlinear_arith)
        requires
            m > 0,
            sq * sq <= disc,
    ;
    assert(sum <= (rad * rad) * p2m);
    assert forall|a: int| 0 <= a < 3 implies s.spec_bbox().axis_ok_at(r, a, n, m) by {
        let e = if a == 0 {
            ex
        } else if a == 1 {
            ey
        } else {
            ez
        };
        let c = s.center.spec_axis(a);
        assert(ex * ex >= 0 && ey * ey >= 0 && ez * ez >= 0) by (nonlinear_arith);
        assert(e * e <= sum);
        assert(-(rad * m) <= e <= rad * m) by (nonlinear_arith)
            requires
                e * e <= (rad * rad) * (m * m),
                rad > 0,
                m > 0,
        ;
        assert((rad * rad) * p2m == (rad * rad) * (m * m));
        assert(r.spec_at_num(a, n, m) == e + c * m) by (nonlinear_arith)
            requires
                e == (r.orig.spec_axis(a) - c) * m + n * r.dir.spec_axis(a),
                r.spec_at_num(a, n, m) == r.orig.spec_axis(a) * m + n * r.dir.spec_axis(a),
        ;
        assert((c - rad) * m == c * m - rad * m && (c + rad) * m == c * m + rad * m)
            by (nonlinear_arith);
        assert(s.spec_bbox().min.spec_axis(a) == c - rad);
        assert(s.spec_bbox().max.spec_axis(a) == c + rad);
    }
}

/// A hit reported by any primitive lies inside that primitive's own
/// bounding box: the box is a true superset of the shape at every
/// accepted parameter.
pub proof fn lemma_hit_in_bbox(h: Hittable, r: Ray, t_min: Frac, t_max: Frac, slack: int)
    requires
        0 <= slack <= 0x1000_0000,
        h.wf_off(slack),
        r.orig.in_range(0x4000_0000 - slack),
        r.dir.in_range(0x1000_0000),
        t_min.wf(),
        t_max.wf(),
    ensures
        h.spec_hit(r, t_min, t_max) matches Option::Some(rec) ==> forall|a: int|
            0 <= a < 3 ==> h.spec_bbox().axis_ok_at(r, a, rec.t.num as int, rec.t.den as int),
    decreases h,
{
    let res = h.spec_hit(r, t_min, t_max);
    if res is Some {
        let rec = res.unwrap();
        match h {
            Hittable::Sphere(s) => {
                sphere_products_fit(
                    r.orig.x as int,
                    r.orig.y as int,
                    r.orig.z as int,
                    s.center.x as int,
                    s.center.y as int,
                    s.center.z as int,
                    r.dir.x as int,
                    r.dir.y as int,
                    r.dir.z as int,
                    s.radius as int,
                );
                sphere_root_fits(s.qhb(r), s.qdisc(r));
                lemma_sphere_point_in_box(s, r, rec.t.num as int, rec.t.den as int);
                assert(forall|a: int| 0 <= a < 3 ==> h.spec_bbox().axis_ok_at(r, a, rec.t.num as int, rec.t.den as int));
            },
            Hittable::XY(s) => {
                lemma_xy_in_box(s, r, t_min, t_max);
                assert(forall|a: int| 0 <= a < 3 ==> h.spec_bbox().axis_ok_at(r, a, rec.t.num as int, rec.t.den as int));
            },
            Hittable::XZ(s) => {
                lemma_xz_in_box(s, r, t_min, t_max);
                assert(forall|a: int| 0 <= a < 3 ==> h.spec_bbox().axis_ok_at(r, a, rec.t.num as int, rec.t.den as int));
            },
            Hittable::YZ(s) => {
                lemma_yz_in_box(s, r, t_min, t_max);
                assert(forall|a: int| 0 <= a < 3 ==> h.spec_bbox().axis_ok_at(r, a, rec.t.num as int, rec.t.den as int));
            },
            Hittable::Cube(c) => {
                lemma_xy_in_box(c.side_xy1, r, t_min, t_max);
                lemma_xy_in_box(c.side_xy0, r, t_min, t_max);
                lemma_xz_in_box(c.side_xz1, r, t_min, t_max);
                lemma_xz_in_box(c.side_xz0, r, t_min, t_max);
                lemma_yz_in_box(c.side_yz1, r, t_min, t_max);
                lemma_yz_in_box(c.side_yz0, r, t_min, t_max);
                lemma_hit_props(h, r, t_min, t_max, slack);
                let cb = h.spec_bbox();
                let tn = rec.t.num as int;
                let td = rec.t.den as int;
                let h1 = c.side_xy1.spec_hit(r, t_min, t_max);
                let h2 = c.side_xy0.spec_hit(r, t_min, t_max);
                let h3 = c.side_xz1.spec_hit(r, t_min, t_max);
                let h4 = c.side_xz0.spec_hit(r, t_min, t_max);
                let h5 = c.side_yz1.spec_hit(r, t_min, t_max);
                let h6 = c.side_yz0.spec_hit(r, t_min, t_max);
                assert(cb.encloses(c.side_xy1.spec_bbox()));
                assert(cb.encloses(c.side_xy0.spec_bbox()));
                assert(cb.encloses(c.side_xz1.spec_bbox()));
                assert(cb.encloses(c.side_xz0.spec_bbox()));
                assert(cb.encloses(c.side_yz1.spec_bbox()));
                assert(cb.encloses(c.side_yz0.spec_bbox()));
                assert((h1 is Some && rec == h1.unwrap()) || (h2 is Some && rec == h2.unwrap()) || (
                h3 is Some && rec == h3.unwrap()) || (h4 is Some && rec == h4.unwrap()) || (
                h5 is Some && rec == h5.unwrap()) || (h6 is Some && rec == h6.unwrap()));
                assert forall|a: int| 0 <= a < 3 implies cb.axis_ok_at(r, a, tn, td) by {
                    if h1 is Some && rec == h1.unwrap() {
                        crate::aabb::lemma_axis_ok_mono(cb, c.side_xy1.spec_bbox(), r, a, tn, td);
                    } else if h2 is Some && rec == h2.unwrap() {
                        crate::aabb::lemma_axis_ok_mono(cb, c.side_xy0.spec_bbox(), r, a, tn, td);
                    } else if h3 is Some && rec == h3.unwrap() {
                        crate::aabb::lemma_axis_ok_mono(cb, c.side_xz1.spec_bbox(), r, a, tn, td);
                    } else if h4 is Some && rec == h4.unwrap() {
                        crate::aabb::lemma_axis_ok_mono(cb, c.side_xz0.spec_bbox(), r, a, tn, td);
                    } else if h5 is Some && rec == h5.unwrap() {
                        crate::aabb::lemma_axis_ok_mono(cb, c.side_yz1.spec_bbox(), r, a, tn, td);
                    } else {
                        crate::aabb::lemma_axis_ok_mono(cb, c.side_yz0.spec_bbox(), r, a, tn, td);
                    }
                }
                assert(forall|a: int| 0 <= a < 3 ==> h.spec_bbox().axis_ok_at(r, a, rec.t.num as int, rec.t.den as int));
            },
            Hittable::Translate(t) => {
                let moved = Ray {
                    orig: Vec3 {
                        x: (r.orig.x - t.offset.x) as i64,
                        y: (r.orig.y - t.offset.y) as i64,
                        z: (r.orig.z - t.offset.z) as i64,
                    },
                    dir: r.dir,
                    tm: r.tm,
                };
                lemma_hit_in_bbox(*t.ptr, moved, t_min, t_max, slack - max_off(t.offset));
                lemma_bbox_range(*t.ptr, slack - max_off(t.offset));
                let inner = t.ptr.spec_bbox();
                let tn = rec.t.num as int;
                let td = rec.t.den as int;
                assert forall|a: int|
                    0 <= a < 3 implies h.spec_bbox().axis_ok_at(r, a, tn, td) by {
                    let off = t.offset.spec_axis(a);
                    assert(inner.axis_ok_at(moved, a, tn, td));
                    assert(moved.orig.spec_axis(a) == r.orig.spec_axis(a) - off);
                    assert((inner.min.spec_axis(a) + off) * td == inner.min.spec_axis(a) * td + off
                        * td) by (nonlinear_arith);
                    assert((inner.max.spec_axis(a) + off) * td == inner.max.spec_axis(a) * td + off
                        * td) by (nonlinear_arith);
                    assert((r.orig.spec_axis(a) - off) * td == r.orig.spec_axis(a) * td - off * td)
                        by (nonlinear_arith);
                    assert(h.spec_bbox().min.spec_axis(a) == inner.min.spec_axis(a) + off);
                    assert(h.spec_bbox().max.spec_axis(a) == inner.max.spec_axis(a) + off);
                }
                assert forall|a: int| 0 <= a < 3 implies h.spec_bbox().axis_ok_at(r, a, rec.t.num as int, rec.t.den as int) by {
                    assert(h.spec_bbox().axis_ok_at(r, a, tn, td));
                }
            },
            Hittable::Flip(f) => {
                lemma_hit_in_bbox(*f.ptr, r, t_min, t_max, slack);
                assert(f.ptr.spec_hit(r, t_min, t_max) is Some);
                let rec0 = f.ptr.spec_hit(r, t_min, t_max).unwrap();
                assert forall|a: int|
                    0 <= a < 3 implies h.spec_bbox().axis_ok_at(
                    r,
                    a,
                    rec.t.num as int,
                    rec.t.den as int,
                ) by {
                    assert(f.ptr.spec_bbox().axis_ok_at(r, a, rec0.t.num as int, rec0.t.den as int));
                }
            },
        }
    }
}

/// At a parameter before the exit crossing of an axis, a point that
/// started strictly inside that axis's slab is still between its
/// walls: it moves away from one wall and has not yet reached the
/// other.
proof fn lemma_inside_extent(min_a: i64, max_a: i64, o: i64, d: i64, tf: Frac)
    requires
        tf.wf(),
        tf.num > 0,
        min_a < o < max_a,
        d != 0,
        content_ok(min_a as int),
        content_ok(max_a as int),
        -0x4000_0000 <= o <= 0x4000_0000,
        -0x1000_0000 <= d <= 0x1000_0000,
        tf.spec_le(crate::aabb::exit_frac(min_a, max_a, o, d)),
    ensures
        min_a * tf.den <= o * tf.den + tf.num * d,
        o * tf.den + tf.num * d <= max_a * tf.den,
{
    let ex = crate::aabb::exit_frac(min_a, max_a, o, d);
    if d > 0 {
        assert(tf.num * d > 0) by (nonlinear_arith)
            requires
                tf.num > 0,
                d > 0,
        ;
        assert(min_a * tf.den < o * tf.den) by (nonlinear_arith)
            requires
                min_a < o,
                tf.den > 0,
        ;
        // tf <= ex gives tf.num * d <= (max_a - o) * tf.den.
        assert((max_a - o) * tf.den == max_a * tf.den - o * tf.den) by (nonlinear_arith);
    } else {
        assert(tf.num * d < 0) by (nonlinear_arith)
            requires
                tf.num > 0,
                d < 0,
        ;
        assert(o * tf.den < max_a * tf.den) by (nonlinear_arith)
            requires
                o < max_a,
                tf.den > 0,
        ;
        // tf <= ex gives tf.num * (-d) <= (o - min_a) * tf.den.
        assert((o - min_a) * tf.den == o * tf.den - min_a * tf.den) by (nonlinear_arith);
        assert(((-d) as i64) as int == -(d as int));
        assert((tf.num as int) * (-(d as int)) == -((tf.num as int) * (d as int)))
            by (nonlinear_arith);
    }
}

/// A rectangle face whose plane is the first wall the ray reaches,
/// with the origin strictly inside the face's extent, is hit: the
/// crossing lies in the window and inside the extent.
proof fn lemma_xy_inside_some(face: XYRect, r: Ray, t_min: Frac, t_max: Frac)
    requires
        face.wf(),
        r.wf(),
        t_min.wf(),
        t_max.wf(),
        r.dir.x != 0,
        r.dir.y != 0,
        r.dir.z != 0,
        face.x0 < r.orig.x < face.x1,
        face.y0 < r.orig.y < face.y1,
        entry_frac(face.k, face.k, r.orig.z, r.dir.z).num > 0,
        t_min.spec_lt(Frac { num: 0, den: 1 }),
        entry_frac(face.k, face.k, r.orig.z, r.dir.z).spec_lt(t_max),
        entry_frac(face.k, face.k, r.orig.z, r.dir.z).spec_le(
            crate::aabb::exit_frac(face.x0, face.x1, r.orig.x, r.dir.x),
        ),
        entry_frac(face.k, face.k, r.orig.z, r.dir.z).spec_le(
            crate::aabb::exit_frac(face.y0, face.y1, r.orig.y, r.dir.y),
        ),
    ensures
        face.spec_hit(r, t_min, t_max) is Some,
{
    let tf = entry_frac(face.k, face.k, r.orig.z, r.dir.z);
    lemma_pair_lt_le_trans(
        t_min.num as int,
        t_min.den as int,
        0,
        1,
        tf.num as int,
        tf.den as int,
    );
    lemma_inside_extent(face.x0, face.x1, r.orig.x, r.dir.x, tf);
    lemma_inside_extent(face.y0, face.y1, r.orig.y, r.dir.y, tf);
}

proof fn lemma_xz_inside_some(face: XZRect, r: Ray, t_min: Frac, t_max: Frac)
    requires
        face.wf(),
        r.wf(),
        t_min.wf(),
        t_max.wf(),
        r.dir.x != 0,
        r.dir.y != 0,
        r.dir.z != 0,
        face.x0 < r.orig.x < face.x1,
        face.z0 < r.orig.z < face.z1,
        entry_frac(face.k, face.k, r.orig.y, r.dir.y).num > 0,
        t_min.spec_lt(Frac { num: 0, den: 1 }),
        entry_frac(face.k, face.k, r.orig.y, r.dir.y).spec_lt(t_max),
        entry_frac(face.k, face.k, r.orig.y, r.dir.y).spec_le(
            crate::aabb::exit_frac(face.x0, face.x1, r.orig.x, r.dir.x),
        ),
        entry_frac(face.k, face.k, r.orig.y, r.dir.y).spec_le(
            crate::aabb::exit_frac(face.z0, face.z1, r.orig.z, r.dir.z),
        ),
    ensures
        face.spec_hit(r, t_min, t_max) is Some,
{
    let tf = entry_frac(face.k, face.k, r.orig.y, r.dir.y);
    lemma_pair_lt_le_trans(
        t_min.num as int,
        t_min.den as int,
        0,
        1,
        tf.num as int,
        tf.den as int,
    );
    lemma_inside_extent(face.x0, face.x1, r.orig.x, r.dir.x, tf);
    lemma_inside_extent(face.z0, face.z1, r.orig.z, r.dir.z, tf);
}

proof fn lemma_yz_inside_some(face: YZRect, r: Ray, t_min: Frac, t_max: Frac)
    requires
        face.wf(),
        r.wf(),
        t_min.wf(),
        t_max.wf(),
        r.dir.x != 0,
        r.dir.y != 0,
        r.dir.z != 0,
        face.y0 < r.orig.y < face.y1,
        face.z0 < r.orig.z < face.z1,
        entry_frac(face.k, face.k, r.orig.x, r.dir.x).num > 0,
        t_min.spec_lt(Frac { num: 0, den: 1 }),
        entry_frac(face.k, face.k, r.orig.x, r.dir.x).spec_lt(t_max),
        entry_frac(face.k, face.k, r.orig.x, r.dir.x).spec_le(
            crate::aabb::exit_frac(face.y0, face.y1, r.orig.y, r.dir.y),
        ),
        entry_frac(face.k, face.k, r.orig.x, r.dir.x).spec_le(
            crate::aabb::exit_frac(face.z0, face.z1, r.orig.z, r.dir.z),
        ),
    ensures
        face.spec_hit(r, t_min, t_max) is Some,
{
    let tf = entry_frac(face.k, face.k, r.orig.x, r.dir.x);
    lemma_pair_lt_le_trans(
        t_min.num as int,
        t_min.den as int,
        0,
        1,
        tf.num as int,
        tf.den as int,
    );
    lemma_inside_extent(face.y0, face.y1, r.orig.y, r.dir.y, tf);
    lemma_inside_extent(face.z0, face.z1, r.orig.z, r.dir.z, tf);
}

/// A ray starting strictly inside a box, crossing every axis, leaves
/// it: the box reports a hit within any window that spans the
/// crossings. Applied to the reversed ray it gives the
/// boundary-found-in-both-directions law on the box primitive.
pub proof fn lemma_cube_inside_hit(c: Cube, r: Ray, t_min: Frac, t_max: Frac)
    requires
        c.wf(),
        r.wf(),
        t_min.wf(),
        t_max.wf(),
        c.cube_min.x < r.orig.x < c.cube_max.x,
        c.cube_min.y < r.orig.y < c.cube_max.y,
        c.cube_min.z < r.orig.z < c.cube_max.z,
        r.dir.x != 0,
        r.dir.y != 0,
        r.dir.z != 0,
        t_min.spec_lt(Frac { num: 0, den: 1 }),
        crate::aabb::exit_frac(c.cube_min.x, c.cube_max.x, r.orig.x, r.dir.x).spec_lt(t_max),
        crate::aabb::exit_frac(c.cube_min.y, c.cube_max.y, r.orig.y, r.dir.y).spec_lt(t_max),
        crate::aabb::exit_frac(c.cube_min.z, c.cube_max.z, r.orig.z, r.dir.z).spec_lt(t_max),
    ensures
        Hittable::Cube(c).spec_hit(r, t_min, t_max) is Some,
{
    let ex = crate::aabb::exit_frac(c.cube_min.x, c.cube_max.x, r.orig.x, r.dir.x);
    let ey = crate::aabb::exit_frac(c.cube_min.y, c.cube_max.y, r.orig.y, r.dir.y);
    let ez = crate::aabb::exit_frac(c.cube_min.z, c.cube_max.z, r.orig.z, r.dir.z);
    assert(ex.num > 0 && ey.num > 0 && ez.num > 0);
    crate::frac::lemma_le_total(ez, ex);
    crate::frac::lemma_le_total(ez, ey);
    crate::frac::lemma_le_total(ey, ex);
    crate::frac::lemma_le_refl(ex);
    crate::frac::lemma_le_refl(ey);
    crate::frac::lemma_le_refl(ez);
    if ez.spec_le(ex) && ez.spec_le(ey) {
        let face = if r.dir.z > 0 {
            c.side_xy1
        } else {
            c.side_xy0
        };
        assert(entry_frac(face.k, face.k, r.orig.z, r.dir.z) == ez);
        lemma_xy_inside_some(face, r, t_min, t_max);
    } else if ey.spec_le(ez) && ey.spec_le(ex) {
        let face = if r.dir.y > 0 {
            c.side_xz1
        } else {
            c.side_xz0
        };
        assert(entry_frac(face.k, face.k, r.orig.y, r.dir.y) == ey);
        lemma_xz_inside_some(face, r, t_min, t_max);
    } else {
        // Neither z nor y attains the minimum, so x does: on any
        // other assumption one of the earlier branches would have
        // fired (the order is total).
        assert(ex.spec_le(ey)) by {
            if !ex.spec_le(ey) {
                // ey < ex; y not minimal forces ez < ey, making z
                // minimal - contradiction.
                assert(ey.spec_lt(ex));
                if ez.spec_le(ey) {
                    crate::frac::lemma_le_trans(ez, ey, ex);
                    assert(false);
                } else {
                    assert(ey.spec_le(ez));
                    assert(false);
                }
            }
        }
        assert(ex.spec_le(ez)) by {
            if !ex.spec_le(ez) {
                assert(ez.spec_lt(ex));
                if ez.spec_le(ey) {
                    assert(ez.spec_le(ex));
                    assert(false);
                } else {
                    assert(ey.spec_lt(ez));
                    crate::frac::lemma_le_trans(ey, ez, ex);
                    assert(false);
                }
            }
        }
        let face = if r.dir.x > 0 {
            c.side_yz1
        } else {
            c.side_yz0
        };
        assert(entry_frac(face.k, face.k, r.orig.x, r.dir.x) == ex);
        lemma_yz_inside_some(face, r, t_min, t_max);
    }
    let h1 = c.side_xy1.spec_hit(r, t_min, t_max);
    let h2 = c.side_xy0.spec_hit(r, t_min, t_max);
    let h3 = c.side_xz1.spec_hit(r, t_min, t_max);
    let h4 = c.side_xz0.spec_hit(r, t_min, t_max);
    let h5 = c.side_yz1.spec_hit(r, t_min, t_max);
    let h6 = c.side_yz0.spec_hit(r, t_min, t_max);
    assert(h1 is Some || h2 is Some || h3 is Some || h4 is Some || h5 is Some || h6 is Some);
    assert(chain2(h1, h2) is Some || h3 is Some || h4 is Some || h5 is Some || h6 is Some);
    assert(chain2(chain2(h1, h2), h3) is Some || h4 is Some || h5 is Some || h6 is Some);
    assert(chain2(chain2(chain2(h1, h2), h3), h4) is Some || h5 is Some || h6 is Some);
    assert(chain2(chain2(chain2(chain2(h1, h2), h3), h4), h5) is Some || h6 is Some);
    assert(chain2(chain2(chain2(chain2(chain2(h1, h2), h3), h4), h5), h6) is Some);
}

/// The boundary is found in both directions: from a point strictly
/// inside the box, the forward ray and its reversal each leave
/// through a wall within any window spanning their crossings (the
/// ray-reversal law of the box test, carried onto the box primitive).
pub proof fn lemma_cube_hit_both_directions(c: Cube, r: Ray, rev: Ray, t_min: Frac, t_max: Frac)
    requires
        c.wf(),
        r.wf(),
        t_min.wf(),
        t_max.wf(),
        rev.orig == r.orig,
        rev.dir.x == -r.dir.x,
        rev.dir.y == -r.dir.y,
        rev.dir.z == -r.dir.z,
        rev.tm == r.tm,
        c.cube_min.x < r.orig.x < c.cube_max.x,
        c.cube_min.y < r.orig.y < c.cube_max.y,
        c.cube_min.z < r.orig.z < c.cube_max.z,
        r.dir.x != 0,
        r.dir.y != 0,
        r.dir.z != 0,
        t_min.spec_lt(Frac { num: 0, den: 1 }),
        crate::aabb::exit_frac(c.cube_min.x, c.cube_max.x, r.orig.x, r.dir.x).spec_lt(t_max),
        crate::aabb::exit_frac(c.cube_min.y, c.cube_max.y, r.orig.y, r.dir.y).spec_lt(t_max),
        crate::aabb::exit_frac(c.cube_min.z, c.cube_max.z, r.orig.z, r.dir.z).spec_lt(t_max),
        crate::aabb::exit_frac(c.cube_min.x, c.cube_max.x, r.orig.x, rev.dir.x).spec_lt(t_max),
        crate::aabb::exit_frac(c.cube_min.y, c.cube_max.y, r.orig.y, rev.dir.y).spec_lt(t_max),
        crate::aabb::exit_frac(c.cube_min.z, c.cube_max.z, r.orig.z, rev.dir.z).spec_lt(t_max),
    ensures
        Hittable::Cube(c).spec_hit(r, t_min, t_max) is Some,
        Hittable::Cube(c).spec_hit(rev, t_min, t_max) is Some,
{
    lemma_cube_inside_hit(c, r, t_min, t_max);
    assert(rev.wf());
    lemma_cube_inside_hit(c, rev, t_min, t_max);
}

/// A ray that the precomputed bounding box does not meet within the
/// window cannot hit the primitive there: the box truly contains the
/// shape at every accepted parameter.
pub proof fn lemma_miss_box_no_hit(h: Hittable, r: Ray, t_min: Frac, t_max: Frac)
    requires
        h.wf(),
        r.orig.in_range(0x3000_0000),
        r.dir.in_range(0x1000_0000),
        t_min.wf(),
        t_max.wf(),
        !h.spec_bbox().hit_sem(r, t_min, t_max),
    ensures
        h.spec_hit(r, t_min, t_max) is None,
{
    if h.spec_hit(r, t_min, t_max) is Some {
        let rec = h.spec_hit(r, t_min, t_max).unwrap();
        lemma_hit_props(h, r, t_min, t_max, 0x1000_0000);
        lemma_hit_in_bbox(h, r, t_min, t_max, 0x1000_0000);
        let tn = rec.t.num as int;
        let td = rec.t.den as int;
        assert(h.spec_bbox().axis_ok_at(r, 0, tn, td));
        assert(h.spec_bbox().axis_ok_at(r, 1, tn, td));
        assert(h.spec_bbox().axis_ok_at(r, 2, tn, td));
        assert(td > 0);
        assert(pair_le(t_min.num as int, t_min.den as int, tn, td));
        assert(pair_le(tn, td, t_max.num as int, t_max.den as int));
        assert(h.spec_bbox().hit_sem(r, t_min, t_max));
        assert(false);
    }
}

/// A rectangle's hit point lies on its plane and within its extent,
/// hence within its (flat) bounding box.
proof fn lemma_xy_in_box(rect: XYRect, r: Ray, t_min: Frac, t_max: Frac)
    requires
        rect.wf(),
        r.wf(),
        t_min.wf(),
        t_max.wf(),
    ensures
        rect.spec_hit(r, t_min, t_max) matches Option::Some(rec) ==> forall|a: int|
            0 <= a < 3 ==> rect.spec_bbox().axis_ok_at(r, a, rec.t.num as int, rec.t.den as int),
{
    let d = r.dir.z;
    let res = rect.spec_hit(r, t_min, t_max);
    if res is Some {
        let rec = res.unwrap();
        let tf = entry_frac(rect.k, rect.k, r.orig.z, d);
        let tn = tf.num as int;
        let td = tf.den as int;
        let o = r.orig.z as int;
        let k = rect.k as int;
        if d > 0 {
            assert(o * d + (k - o) * d == k * d) by (nonlinear_arith);
        } else {
            assert(o * (-d) + (o - k) * d == k * (-d)) by (nonlinear_arith);
        }
        assert(r.spec_at_num(2, tn, td) == k * td);
        assert forall|a: int|
            0 <= a < 3 implies rect.spec_bbox().axis_ok_at(r, a, rec.t.num as int, rec.t.den as int) by {
        }
    }
}

proof fn lemma_xz_in_box(rect: XZRect, r: Ray, t_min: Frac, t_max: Frac)
    requires
        rect.wf(),
        r.wf(),
        t_min.wf(),
        t_max.wf(),
    ensures
        rect.spec_hit(r, t_min, t_max) matches Option::Some(rec) ==> forall|a: int|
            0 <= a < 3 ==> rect.spec_bbox().axis_ok_at(r, a, rec.t.num as int, rec.t.den as int),
{
    let d = r.dir.y;
    let res = rect.spec_hit(r, t_min, t_max);
    if res is Some {
        let rec = res.unwrap();
        let tf = entry_frac(rect.k, rect.k, r.orig.y, d);
        let tn = tf.num as int;
        let td = tf.den as int;
        let o = r.orig.y as int;
        let k = rect.k as int;
        if d > 0 {
            assert(o * d + (k - o) * d == k * d) by (nonlinear_arith);
        } else {
            assert(o * (-d) + (o - k) * d == k * (-d)) by (nonlinear_arith);
        }
        assert(r.spec_at_num(1, tn, td) == k * td);
        assert forall|a: int|
            0 <= a < 3 implies rect.spec_bbox().axis_ok_at(r, a, rec.t.num as int, rec.t.den as int) by {
        }
    }
}

proof fn lemma_yz_in_box(rect: YZRect, r: Ray, t_min: Frac, t_max: Frac)
    requires
        rect.wf(),
        r.wf(),
        t_min.wf(),
        t_max.wf(),
    ensures
        rect.spec_hit(r, t_min, t_max) matches Option::Some(rec) ==> forall|a: int|
            0 <= a < 3 ==> rect.spec_bbox().axis_ok_at(r, a, rec.t.num as int, rec.t.den as int),
{
    let d = r.dir.x;
    let res = rect.spec_hit(r, t_min, t_max);
    if res is Some {
        let rec = res.unwrap();
        let tf = entry_frac(rect.k, rect.k, r.orig.x, d);
        let tn = tf.num as int;
        let td = tf.den as int;
        let o = r.orig.x as int;
        let k = rect.k as int;
        if d > 0 {
            assert(o * d + (k - o) * d == k * d) by (nonlinear_arith);
        } else {
            assert(o * (-d) + (o - k) * d == k * (-d)) by (nonlinear_arith);
        }
        assert(r.spec_at_num(0, tn, td) == k * td);
        assert forall|a: int|
            0 <= a < 3 implies rect.spec_bbox().axis_ok_at(r, a, rec.t.num as int, rec.t.den as int) by {
        }
    }
}

/// The products in a rectangle's extent test stay well inside both
/// i128 (for the arithmetic) and i64 (for the resulting fraction).
proof fn rect_products_fit(ox: int, oy: int, tn: int, td: int, dx: int, dy: int)
    requires
        -0x4000_0000 <= ox <= 0x4000_0000,
        -0x4000_0000 <= oy <= 0x4000_0000,
        -0x6000_0000 <= tn <= 0x6000_0000,
        0 < td <= 0x1000_0000,
        -0x1000_0000 <= dx <= 0x1000_0000,
        -0x1000_0000 <= dy <= 0x1000_0000,
    ensures
        -0x1000_0000_0000_0000 <= ox * td <= 0x1000_0000_0000_0000,
        -0x1000_0000_0000_0000 <= oy * td <= 0x1000_0000_0000_0000,
        -0x600_0000_0000_0000 <= tn * dx <= 0x600_0000_0000_0000,
        -0x600_0000_0000_0000 <= tn * dy <= 0x600_0000_0000_0000,
{
    crate::vec3::lemma_mul_bound2(ox, td, 0x4000_0000, 0x1000_0000);
    crate::vec3::lemma_mul_bound2(oy, td, 0x4000_0000, 0x1000_0000);
    crate::vec3::lemma_mul_bound2(tn, dx, 0x6000_0000, 0x1000_0000);
    crate::vec3::lemma_mul_bound2(tn, dy, 0x6000_0000, 0x1000_0000);
}

} // verus!
