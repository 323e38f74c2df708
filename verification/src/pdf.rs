use vstd::prelude::*;

use crate::frac::Frac;
use crate::hittable::Hittable;
use crate::ray::Ray;
use crate::isqrt::{isqrt_u128, sqrt_floor};
use crate::material::spec_div_tz;
use crate::rng::random_int;
use crate::vec3::{Point3, Vec3};

verus! {

/// A cosine-weighted sampling strategy about the axis `w`. Densities
/// here are carried scaled by pi (Q16), which keeps them exact
/// integers; the common factor cancels wherever two such densities
/// are compared or divided.
#[derive(Clone, Copy, Debug)]
pub struct CosinePdf {
    pub w: Vec3,
}

impl CosinePdf {
    pub fn new(w: Vec3) -> (r: CosinePdf)
        ensures
            r.w == w,
    {
        CosinePdf { w }
    }

    /// The density times pi at a direction, in Q16: the clamped
    /// cosine between the direction and the axis, zero below the
    /// surface.
    pub open spec fn spec_value_pi(self, direction: Vec3) -> int {
        let d2 = direction.spec_len_sq();
        let w2 = self.w.spec_len_sq();
        let dn = direction.spec_dot(self.w);
        if d2 == 0 || w2 == 0 || dn <= 0 {
            0
        } else {
            let dlen = sqrt_floor(d2 as nat) as int;
            let wlen = sqrt_floor(w2 as nat) as int;
            let c = spec_div_tz(dn * 65536, dlen * wlen);
            if c > 65536 {
                65536int
            } else {
                c
            }
        }
    }

    pub fn value_pi_q16(&self, direction: Vec3) -> (r: i64)
        requires
            direction.in_range(0x1000_0000),
            self.w.in_range(0x1000_0000),
        ensures
            r == self.spec_value_pi(direction),
            0 <= r <= 65536,
    {
        proof {
            crate::vec3::lemma_mul_bound(direction.x as int, direction.x as int, 0x1000_0000);
            crate::vec3::lemma_mul_bound(direction.y as int, direction.y as int, 0x1000_0000);
            crate::vec3::lemma_mul_bound(direction.z as int, direction.z as int, 0x1000_0000);
            crate::vec3::lemma_mul_bound(self.w.x as int, self.w.x as int, 0x1000_0000);
            crate::vec3::lemma_mul_bound(self.w.y as int, self.w.y as int, 0x1000_0000);
            crate::vec3::lemma_mul_bound(self.w.z as int, self.w.z as int, 0x1000_0000);
            crate::vec3::lemma_mul_bound(direction.x as int, self.w.x as int, 0x1000_0000);
            crate::vec3::lemma_mul_bound(direction.y as int, self.w.y as int, 0x1000_0000);
            crate::vec3::lemma_mul_bound(direction.z as int, self.w.z as int, 0x1000_0000);
            assert((direction.x as int) * (direction.x as int) >= 0 && (direction.y as int) * (
            direction.y as int) >= 0 && (direction.z as int) * (direction.z as int) >= 0 && (
            self.w.x as int) * (self.w.x as int) >= 0 && (self.w.y as int) * (self.w.y as int) >= 0
                && (self.w.z as int) * (self.w.z as int) >= 0) by (nonlinear_arith);
        }
        let dx = direction.x as i128;
        let dy = direction.y as i128;
        let dz = direction.z as i128;
        let wx = self.w.x as i128;
        let wy = self.w.y as i128;
        let wz = self.w.z as i128;
        let d2 = dx * dx + dy * dy + dz * dz;
        let w2 = wx * wx + wy * wy + wz * wz;
        let dn = dx * wx + dy * wy + dz * wz;
        if d2 == 0 || w2 == 0 || dn <= 0 {
            return 0;
        }
        let dlen = isqrt_u128(d2 as u128) as i128;
        let wlen = isqrt_u128(w2 as u128) as i128;
        proof {
            assert((d2 as u128) as int == d2 as int);
            assert((w2 as u128) as int == w2 as int);
            assert(sqrt_floor((d2 as u128) as nat) == sqrt_floor(d2 as nat));
            assert(sqrt_floor((w2 as u128) as nat) == sqrt_floor(w2 as nat));
            assert(dlen >= 1) by (nonlinear_arith)
                requires
                    d2 >= 1,
                    (d2 as int) < ((dlen as int) + 1) * ((dlen as int) + 1),
                    dlen >= 0,
            ;
            assert(wlen >= 1) by (nonlinear_arith)
                requires
                    w2 >= 1,
                    (w2 as int) < ((wlen as int) + 1) * ((wlen as int) + 1),
                    wlen >= 0,
            ;
            assert(dlen * wlen >= 1) by (nonlinear_arith)
                requires
                    dlen >= 1,
                    wlen >= 1,
            ;
            assert(dlen <= 0x4000_0000 && wlen <= 0x4000_0000) by (nonlinear_arith)
                requires
                    (dlen as int) * (dlen as int) <= d2 as int,
                    (wlen as int) * (wlen as int) <= w2 as int,
                    d2 <= 0x300_0000_0000_0000,
                    w2 <= 0x300_0000_0000_0000,
                    dlen >= 0,
                    wlen >= 0,
            ;
            crate::vec3::lemma_mul_bound(dlen as int, wlen as int, 0x4000_0000);
        }
        let c = div_tz_local(dn * 65536, dlen * wlen);
        if c > 65536 {
            65536
        } else {
            c as i64
        }
    }
}

/// Division toward zero on wide intermediates.
fn div_tz_local(n: i128, d: i128) -> (r: i128)
    requires
        d > 0,
        -0x1_0000_0000_0000_0000_0000_0000_0000 <= n <= 0x1_0000_0000_0000_0000_0000_0000_0000,
    ensures
        r == spec_div_tz(n as int, d as int),
        n >= 0 ==> 0 <= r <= n,
        n < 0 ==> n <= r <= 0,
{
    proof {
        if n >= 0 {
            assert(0 <= (n as int) / (d as int) <= n) by (nonlinear_arith)
                requires
                    n >= 0,
                    d > 0,
            ;
        } else {
            assert(0 <= (-(n as int)) / (d as int) <= -n) by (nonlinear_arith)
                requires
                    n < 0,
                    d > 0,
            ;
        }
    }
    if n >= 0 {
        ((n as u128) / (d as u128)) as i128
    } else {
        -((((-n) as u128) / (d as u128)) as i128)
    }
}

/// Saturation at a cap, applied between the stages of a density
/// computation so nothing overflows; a density at the cap is already
/// far beyond anything the estimator distinguishes.
pub open spec fn spec_sat(v: int, cap: int) -> int {
    if v > cap {
        cap
    } else {
        v
    }
}

/// A sampling strategy that aims at a light-shaped primitive from a
/// fixed origin.
pub struct HittablePdf {
    pub o: Point3,
    pub ptr: Box<Hittable>,
}

impl HittablePdf {
    pub fn new(ptr: Hittable, o: Point3) -> (r: HittablePdf)
        ensures
            r.ptr == ptr,
            r.o == o,
    {
        HittablePdf { o, ptr: Box::new(ptr) }
    }

    /// The density of sampling `v` toward the wrapped shape.
    pub open spec fn spec_value_q16(self, v: Vec3) -> int {
        spec_shape_density(*self.ptr, self.o, v)
    }
}

/// The density (Q16, per steradian) of sampling direction `v` from
/// `o` toward the shape: for a rectangle the inverse-square-law value
/// `dist^2 / (cos * area)`; for a sphere the inverse of the subtended
/// cone's solid angle; zero where the ray along `v` misses the shape,
/// and zero for every other shape (never used as a light).
/// Intermediate stages saturate at 2^40.
pub open spec fn spec_shape_density(h: Hittable, o: Point3, v: Vec3) -> int {
    match h {
            Hittable::XZ(rect) => {
                let ray = Ray { orig: o, dir: v, tm: 0 };
                match rect.spec_hit(ray, Frac { num: 1, den: 1000 }, Frac {
                    num: 0x1_0000_0000,
                    den: 1,
                }) {
                    Option::None => 0,
                    Option::Some(rec) => {
                        let vlen2 = v.spec_len_sq();
                        let vlen = sqrt_floor(vlen2 as nat) as int;
                        let vy = if v.y >= 0 {
                            v.y as int
                        } else {
                            -(v.y as int)
                        };
                        let area = (rect.x1 - rect.x0) * (rect.z1 - rect.z0);
                        let t2q = spec_sat(
                            spec_div_tz(
                                spec_div_tz(rec.t.num * rec.t.num, rec.t.den as int) * 65536,
                                rec.t.den as int,
                            ),
                            0x100_0000_0000,
                        );
                        let c2 = spec_sat(spec_div_tz(t2q * vlen2, vy * area), 0x100_0000_0000);
                        spec_sat(c2 * vlen, 0x100_0000_0000)
                    },
                }
            },
            Hittable::Sphere(sp) => {
                let ray = Ray { orig: o, dir: v, tm: 0 };
                if sp.spec_hit(ray, Frac { num: 1, den: 1000 }, Frac {
                    num: 0x1_0000_0000,
                    den: 1,
                }) is None {
                    0int
                } else {
                let ocx = sp.center.x - o.x;
                let ocy = sp.center.y - o.y;
                let ocz = sp.center.z - o.z;
                let dist2 = ocx * ocx + ocy * ocy + ocz * ocz;
                let rad2 = sp.radius * sp.radius;
                if dist2 <= rad2 {
                    0x100_0000_0000int
                } else {
                    let cmax = sqrt_floor(
                        spec_div_tz((dist2 - rad2) * (65536 * 65536), dist2) as nat,
                    ) as int;
                    let denom = spec_div_tz(2 * 205887 * (65536 - cmax), 65536);
                    if denom <= 0 {
                        0x100_0000_0000int
                    } else {
                        spec_sat(spec_div_tz((65536 * 65536) as int, denom), 0x100_0000_0000)
                    }
                }
                }
            },
            _ => 0,
        }
}

impl HittablePdf {
    pub fn value_q16(&self, v: Vec3) -> (r: i64)
        requires
            self.ptr.wf(),
            self.o.in_range(0x3000_0000),
            v.in_range(0x1000_0000),
        ensures
            r == self.spec_value_q16(v),
            0 <= r <= 0x100_0000_0000,
    {
        shape_density(&*self.ptr, self.o, v)
    }
}

/// Executable form of `spec_shape_density`.
pub fn shape_density(h: &Hittable, o: Point3, v: Vec3) -> (r: i64)
    requires
        h.wf(),
        o.in_range(0x3000_0000),
        v.in_range(0x1000_0000),
    ensures
        r == spec_shape_density(*h, o, v),
        0 <= r <= 0x100_0000_0000,
    {
        match h {
            Hittable::XZ(rect) => {
                let ray = Ray { orig: o, dir: v, tm: 0 };
                let hit = rect.hit(&ray, Frac::new(1, 1000), Frac::new(0x1_0000_0000, 1));
                match hit {
                    Option::None => 0,
                    Option::Some(rec) => {
                        proof {
                            crate::vec3::lemma_mul_bound(v.x as int, v.x as int, 0x1000_0000);
                            crate::vec3::lemma_mul_bound(v.y as int, v.y as int, 0x1000_0000);
                            crate::vec3::lemma_mul_bound(v.z as int, v.z as int, 0x1000_0000);
                            assert((v.x as int) * (v.x as int) >= 0 && (v.y as int) * (v.y as int)
                                >= 0 && (v.z as int) * (v.z as int) >= 0) by (nonlinear_arith);
                            // The crossing parameter comes straight
                            // from the plane formula, so its parts are
                            // small.
                            assert(-0x6000_0000 <= rec.t.num <= 0x6000_0000 && 0 < rec.t.den
                                <= 0x1000_0000 && v.y != 0);
                            crate::frac::lemma_i64_mul_fits(rec.t.num as int, rec.t.num as int);
                            lemma_sat_div_bounds(rec.t.num as int, rec.t.den as int);
                            assert((rect.x1 - rect.x0) * (rect.z1 - rect.z0) >= 1
                                && (rect.x1 - rect.x0) * (rect.z1 - rect.z0)
                                <= 0x1000_0000_0000_0000) by (nonlinear_arith)
                                requires
                                    0 < rect.x1 - rect.x0 <= 0x4000_0000,
                                    0 < rect.z1 - rect.z0 <= 0x4000_0000,
                            ;
                        }
                        let vlen2 = (v.x as i128) * (v.x as i128) + (v.y as i128) * (v.y as i128)
                            + (v.z as i128) * (v.z as i128);
                        let vlen = isqrt_u128(vlen2 as u128) as i128;
                        proof {
                            assert((vlen2 as u128) as int == vlen2 as int);
                            assert(sqrt_floor((vlen2 as u128) as nat) == sqrt_floor(
                                vlen2 as nat,
                            ));
                            assert(vlen <= 0x4000_0000) by (nonlinear_arith)
                                requires
                                    (vlen as int) * (vlen as int) <= vlen2 as int,
                                    vlen2 <= 0x300_0000_0000_0000,
                                    vlen >= 0,
                            ;
                        }
                        let vy: i128 = if v.y >= 0 {
                            v.y as i128
                        } else {
                            -(v.y as i128)
                        };
                        let area = ((rect.x1 - rect.x0) as i128) * ((rect.z1 - rect.z0) as i128);
                        let s1 = div_tz_local((rec.t.num as i128) * (rec.t.num as i128),
                            rec.t.den as i128);
                        let s2 = div_tz_local(s1 * 65536, rec.t.den as i128);
                        let t2q: i128 = if s2 > 0x100_0000_0000 {
                            0x100_0000_0000
                        } else {
                            s2
                        };
                        proof {
                            assert(vy * area >= 1 && vy * area <= 0x1_0000_0000_0000_0000_0000_0000)
                                by (nonlinear_arith)
                                requires
                                    1 <= vy <= 0x1000_0000,
                                    1 <= area <= 0x1000_0000_0000_0000,
                            ;
                            assert(t2q * vlen2 <= 0x100_0000_0000 * 0x300_0000_0000_0000
                                && t2q * vlen2 >= 0) by (nonlinear_arith)
                                requires
                                    0 <= t2q <= 0x100_0000_0000,
                                    0 <= vlen2 <= 0x300_0000_0000_0000,
                            ;
                        }
                        let c2r = div_tz_local(t2q * vlen2, vy * area);
                        let c2: i128 = if c2r > 0x100_0000_0000 {
                            0x100_0000_0000
                        } else {
                            c2r
                        };
                        proof {
                            assert(0 <= c2 * vlen <= 0x100_0000_0000 * 0x4000_0000)
                                by (nonlinear_arith)
                                requires
                                    0 <= c2 <= 0x100_0000_0000,
                                    0 <= vlen <= 0x4000_0000,
                            ;
                        }
                        let out = c2 * vlen;
                        if out > 0x100_0000_0000 {
                            0x100_0000_0000
                        } else {
                            out as i64
                        }
                    },
                }
            },
            Hittable::Sphere(sp) => {
                let ray = Ray { orig: o, dir: v, tm: 0 };
                if sp.hit(&ray, Frac::new(1, 1000), Frac::new(0x1_0000_0000, 1)).is_none() {
                    return 0;
                }
                proof {
                    lemma_sphere_density_bounds(
                        sp.center.x as int,
                        sp.center.y as int,
                        sp.center.z as int,
                        o.x as int,
                        o.y as int,
                        o.z as int,
                        sp.radius as int,
                    );
                }
                let ocx = (sp.center.x as i128) - (o.x as i128);
                let ocy = (sp.center.y as i128) - (o.y as i128);
                let ocz = (sp.center.z as i128) - (o.z as i128);
                let dist2 = ocx * ocx + ocy * ocy + ocz * ocz;
                let rad2 = (sp.radius as i128) * (sp.radius as i128);
                if dist2 <= rad2 {
                    0x100_0000_0000
                } else {
                    proof {
                        assert(0 <= (dist2 - rad2) * (65536 * 65536) <= dist2 * (65536 * 65536)
                            && dist2 * (65536 * 65536) <= 0x3000_0000_0000_0000 * 0x1_0000_0000)
                            by (nonlinear_arith)
                            requires
                                0 < dist2 - rad2 <= dist2,
                                dist2 <= 0x3000_0000_0000_0000,
                        ;
                        lemma_cone_inner_bound(
                            (dist2 - rad2) as int * (65536 * 65536),
                            dist2 as int,
                        );
                    }
                    let inner = div_tz_local((dist2 - rad2) * (65536 * 65536), dist2);
                    let cmax = isqrt_u128(inner as u128) as i128;
                    proof {
                        assert((inner as u128) as int == inner as int);
                        assert(sqrt_floor((inner as u128) as nat) == sqrt_floor(inner as nat));
                        assert(cmax <= 65536) by (nonlinear_arith)
                            requires
                                (cmax as int) * (cmax as int) <= inner as int,
                                inner <= 65536 * 65536,
                                cmax >= 0,
                        ;
                    }
                    let denom = div_tz_local(2 * 205887 * (65536 - cmax), 65536);
                    if denom <= 0 {
                        0x100_0000_0000
                    } else {
                        let out = div_tz_local(65536 * 65536, denom);
                        if out > 0x100_0000_0000 {
                            0x100_0000_0000
                        } else {
                            out as i64
                        }
                    }
                }
            },
            _ => 0,
        }
    }

impl HittablePdf {
    /// Draws a direction from the origin toward the shape: a
    /// rectangle light samples a uniform surface point; a sphere
    /// light aims at its center (the cone-spread draw needs
    /// trigonometry and stays outside the exact model); any other
    /// shape falls back to a fixed axis, as it is never used as a
    /// light.
    pub fn generate(&self) -> (r: Vec3)
        requires
            self.o.in_range(0x3000_0000),
            self.ptr.wf(),
        ensures
            match *self.ptr {
                Hittable::XZ(rect) => {
                    &&& rect.x0 <= r.x + self.o.x <= rect.x1
                    &&& r.y + self.o.y == rect.k
                    &&& rect.z0 <= r.z + self.o.z <= rect.z1
                },
                Hittable::Sphere(sp) => {
                    &&& r.x == sp.center.x - self.o.x
                    &&& r.y == sp.center.y - self.o.y
                    &&& r.z == sp.center.z - self.o.z
                },
                _ => r == (Vec3 { x: 1i64, y: 0i64, z: 0i64 }),
            },
    {
        match &*self.ptr {
            Hittable::XZ(rect) => {
                let x = random_int(rect.x0 as i32, rect.x1 as i32) as i64;
                let z = random_int(rect.z0 as i32, rect.z1 as i32) as i64;
                Vec3 { x: x - self.o.x, y: rect.k - self.o.y, z: z - self.o.z }
            },
            Hittable::Sphere(sp) => Vec3 {
                x: sp.center.x - self.o.x,
                y: sp.center.y - self.o.y,
                z: sp.center.z - self.o.z,
            },
            _ => Vec3 { x: 1, y: 0, z: 0 },
        }
    }
}

/// A deterministic light sample from two uniform Q16 draws: the
/// point of a rectangle at the scaled offsets, the center of a
/// sphere, a fixed axis otherwise. What `generate` draws at random,
/// this computes from given draws, so an integrator mirroring its
/// work stays a function of its inputs.
pub open spec fn spec_shape_sample(h: Hittable, o: Point3, u1: int, u2: int) -> Vec3 {
    match h {
        Hittable::XZ(rect) => {
            let x = rect.x0 + spec_div_tz((rect.x1 - rect.x0) * u1, 65536);
            let z = rect.z0 + spec_div_tz((rect.z1 - rect.z0) * u2, 65536);
            Vec3 {
                x: (x - o.x) as i64,
                y: (rect.k - o.y) as i64,
                z: (z - o.z) as i64,
            }
        },
        Hittable::Sphere(sp) => Vec3 {
            x: (sp.center.x - o.x) as i64,
            y: (sp.center.y - o.y) as i64,
            z: (sp.center.z - o.z) as i64,
        },
        _ => Vec3 { x: 1, y: 0, z: 0 },
    }
}

impl HittablePdf {
    pub fn generate_at(&self, u1: i64, u2: i64) -> (r: Vec3)
        requires
            self.o.in_range(0x3000_0000),
            self.ptr.wf(),
            0 <= u1 < 65536,
            0 <= u2 < 65536,
        ensures
            r == spec_shape_sample(*self.ptr, self.o, u1 as int, u2 as int),
            r.in_range(0x6000_0000),
    {
        shape_sample(&*self.ptr, self.o, u1, u2)
    }
}

/// Executable form of `spec_shape_sample`.
pub fn shape_sample(h: &Hittable, o: Point3, u1: i64, u2: i64) -> (r: Vec3)
    requires
        o.in_range(0x3000_0000),
        h.wf(),
        0 <= u1 < 65536,
        0 <= u2 < 65536,
    ensures
        r == spec_shape_sample(*h, o, u1 as int, u2 as int),
        r.in_range(0x6000_0000),
    {
        match h {
            Hittable::XZ(rect) => {
                proof {
                    crate::vec3::lemma_mul_bound2(
                        (rect.x1 - rect.x0) as int,
                        u1 as int,
                        0x4000_0000,
                        65536,
                    );
                    crate::vec3::lemma_mul_bound2(
                        (rect.z1 - rect.z0) as int,
                        u2 as int,
                        0x4000_0000,
                        65536,
                    );
                    lemma_offset_in_extent((rect.x1 - rect.x0) as int, u1 as int);
                    lemma_offset_in_extent((rect.z1 - rect.z0) as int, u2 as int);
                }
                let dx = div_tz_local(((rect.x1 - rect.x0) as i128) * (u1 as i128), 65536);
                let dz = div_tz_local(((rect.z1 - rect.z0) as i128) * (u2 as i128), 65536);
                let x = rect.x0 + dx as i64;
                let z = rect.z0 + dz as i64;
                Vec3 { x: x - o.x, y: rect.k - o.y, z: z - o.z }
            },
            Hittable::Sphere(sp) => Vec3 {
                x: sp.center.x - o.x,
                y: sp.center.y - o.y,
                z: sp.center.z - o.z,
            },
            _ => Vec3 { x: 1, y: 0, z: 0 },
        }
    }

/// A scaled Q16 offset into a nonnegative extent stays within it.
proof fn lemma_offset_in_extent(ext: int, u: int)
    requires
        0 <= ext <= 0x4000_0000,
        0 <= u < 65536,
    ensures
        0 <= spec_div_tz(ext * u, 65536) <= ext,
{
    assert(0 <= ext * u <= ext * 65536) by (nonlinear_arith)
        requires
            0 <= ext,
            0 <= u < 65536,
    ;
    vstd::arithmetic::div_mod::lemma_div_is_ordered(0, ext * u, 65536);
    vstd::arithmetic::div_mod::lemma_div_is_ordered(ext * u, ext * 65536, 65536);
    vstd::arithmetic::div_mod::lemma_div_multiples_vanish(ext, 65536);
    assert(ext * 65536 == 65536 * ext) by (nonlinear_arith);
}

/// The squared crossing parameter and its Q16 scaling stay inside the
/// division helper's domain.
proof fn lemma_sat_div_bounds(num: int, den: int)
    requires
        -0x6000_0000 <= num <= 0x6000_0000,
        0 < den <= 0x1000_0000,
    ensures
        0 <= num * num <= 0x2400_0000_0000_0000,
        spec_div_tz(num * num, den) <= 0x2400_0000_0000_0000,
        0 <= spec_div_tz(num * num, den),
        spec_div_tz(num * num, den) * 65536 <= 0x2400_0000_0000_0000 * 65536,
        0 <= spec_div_tz(spec_div_tz(num * num, den) * 65536, den),
{
    assert(0 <= num * num <= 0x2400_0000_0000_0000) by (nonlinear_arith)
        requires
            -0x6000_0000 <= num <= 0x6000_0000,
    ;
    lemma_div_pos_le(num * num, den);
    assert(spec_div_tz(num * num, den) * 65536 <= 0x2400_0000_0000_0000 * 65536)
        by (nonlinear_arith)
        requires
            0 <= spec_div_tz(num * num, den) <= 0x2400_0000_0000_0000,
    ;
    lemma_div_pos_le(spec_div_tz(num * num, den) * 65536, den);
}

/// Truncating division of a nonnegative value stays within it.
proof fn lemma_div_pos_le(n: int, d: int)
    requires
        n >= 0,
        d >= 1,
    ensures
        0 <= spec_div_tz(n, d) <= n,
{
    assert(0 <= n / d <= n) by (nonlinear_arith)
        requires
            n >= 0,
            d >= 1,
    ;
}

/// Bounds for the sphere's cone computation.
proof fn lemma_sphere_density_bounds(
    cx: int,
    cy: int,
    cz: int,
    ox: int,
    oy: int,
    oz: int,
    rad: int,
)
    requires
        -0x1000_0000 <= cx <= 0x1000_0000,
        -0x1000_0000 <= cy <= 0x1000_0000,
        -0x1000_0000 <= cz <= 0x1000_0000,
        -0x3000_0000 <= ox <= 0x3000_0000,
        -0x3000_0000 <= oy <= 0x3000_0000,
        -0x3000_0000 <= oz <= 0x3000_0000,
        0 < rad <= 0x1000_0000,
    ensures
        0 <= (cx - ox) * (cx - ox) <= 0x1000_0000_0000_0000,
        0 <= (cy - oy) * (cy - oy) <= 0x1000_0000_0000_0000,
        0 <= (cz - oz) * (cz - oz) <= 0x1000_0000_0000_0000,
        0 <= (cx - ox) * (cx - ox) + (cy - oy) * (cy - oy) + (cz - oz) * (cz - oz)
            <= 0x3000_0000_0000_0000,
        0 < rad * rad <= 0x100_0000_0000_0000,
{
    assert(0 <= (cx - ox) * (cx - ox) <= 0x1000_0000_0000_0000) by (nonlinear_arith)
        requires
            -0x4000_0000 <= cx - ox <= 0x4000_0000,
    ;
    assert(0 <= (cy - oy) * (cy - oy) <= 0x1000_0000_0000_0000) by (nonlinear_arith)
        requires
            -0x4000_0000 <= cy - oy <= 0x4000_0000,
    ;
    assert(0 <= (cz - oz) * (cz - oz) <= 0x1000_0000_0000_0000) by (nonlinear_arith)
        requires
            -0x4000_0000 <= cz - oz <= 0x4000_0000,
    ;
    assert(0 < rad * rad <= 0x100_0000_0000_0000) by (nonlinear_arith)
        requires
            0 < rad <= 0x1000_0000,
    ;
}

/// The cone computation's scaled ratio stays within one (Q32).
proof fn lemma_cone_inner_bound(n: int, d: int)
    requires
        d >= 1,
        0 <= n <= d * (65536 * 65536),
    ensures
        0 <= spec_div_tz(n, d) <= 65536 * 65536,
{
    vstd::arithmetic::div_mod::lemma_div_is_ordered(n, d * (65536 * 65536), d);
    vstd::arithmetic::div_mod::lemma_div_multiples_vanish((65536 * 65536) as int, d);
    assert(d * (65536 * 65536) == (65536 * 65536) * d) by (nonlinear_arith);
    vstd::arithmetic::div_mod::lemma_div_is_ordered(0, n, d);
}

/// A 50/50 mixture of a light-sampling strategy and a cosine
/// strategy.
pub struct MixturePdf {
    pub light: HittablePdf,
    pub cosine: CosinePdf,
}

impl MixturePdf {
    pub fn mv(p0: HittablePdf, p1: CosinePdf) -> (r: MixturePdf)
        ensures
            r.light == p0,
            r.cosine == p1,
    {
        MixturePdf { light: p0, cosine: p1 }
    }

    /// The cosine strategy's plain density in Q16: the clamped
    /// cosine divided by pi (205887 in Q16).
    pub open spec fn spec_cosine_value_q16(self, v: Vec3) -> int {
        spec_div_tz(self.cosine.spec_value_pi(v) * 65536, 205887)
    }

    /// The mixture's density at a direction: the average of the two
    /// strategies' densities, truncated.
    pub open spec fn spec_value_q16(self, v: Vec3) -> int {
        spec_div_tz(self.light.spec_value_q16(v) + self.spec_cosine_value_q16(v), 2)
    }

    pub fn value_q16(&self, v: Vec3) -> (r: i64)
        requires
            self.light.ptr.wf(),
            self.light.o.in_range(0x3000_0000),
            self.cosine.w.in_range(0x1000_0000),
            v.in_range(0x1000_0000),
        ensures
            r == self.spec_value_q16(v),
            0 <= r,
    {
        let l = self.light.value_q16(v);
        let cpi = self.cosine.value_pi_q16(v);
        proof {
            lemma_div_pos_le((cpi as int) * 65536, 205887);
            assert(0 <= (cpi as int) * 65536 <= 65536 * 65536) by (nonlinear_arith)
                requires
                    0 <= cpi <= 65536,
            ;
        }
        let c = div_tz_local((cpi as i128) * 65536, 205887) as i64;
        proof {
            lemma_div_pos_le(l + c, 2);
        }
        (l + c) / 2
    }

    /// Which strategy generates the next direction, decided by the
    /// even coin: the light strategy on the low half.
    pub fn pick_light(&self, coin: i64) -> (r: bool)
        requires
            0 <= coin < 65536,
        ensures
            r == (coin < 32768),
    {
        coin < 32768
    }
}

} // verus!

