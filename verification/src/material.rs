use vstd::prelude::*;

use crate::frac::Frac;
use crate::isqrt::{isqrt_u128, sqrt_floor};
use crate::hittable::HitRecord;
use crate::ray::Ray;
use crate::texture::{ImageTable, SolidColor, Texture};
use crate::vec3::{dot, reflect, spec_reflect, Color, Vec3};

verus! {

/// The specular follow-up ray and its attenuation.
#[derive(Clone, Copy, Debug)]
pub struct ScatterRecord {
    pub specular_ray: Ray,
    pub attenuation: Color,
}

/// What a surface does with an incoming ray: absorbs it, sends one
/// specular ray, or scatters diffusely with a cosine-weighted
/// distribution about the stored normal.
#[derive(Clone, Copy, Debug)]
pub enum ScatterResult {
    Absorbed,
    Specular(ScatterRecord),
    Diffuse { attenuation: Color, normal: Vec3 },
}

/// A diffuse surface: attenuates by its albedo and scatters with a
/// cosine-weighted distribution about the surface normal.
#[derive(Clone, Copy, Debug)]
pub struct Lambertian {
    pub albedo: Texture,
}

impl Lambertian {
    pub fn new(a: Color) -> (r: Lambertian)
        ensures
            r.albedo == Texture::Solid(SolidColor { color_value: a }),
    {
        Lambertian { albedo: Texture::Solid(SolidColor { color_value: a }) }
    }

    pub fn mv(a: Texture) -> (r: Lambertian)
        ensures
            r.albedo == a,
    {
        Lambertian { albedo: a }
    }
}

/// A specular mirror, with a fuzz radius (Q16) that perturbs the
/// reflected direction.
#[derive(Clone, Copy, Debug)]
pub struct Metal {
    pub albedo: Color,
    pub fuzz: i64,
}

impl Metal {
    /// Clamps the fuzz radius at one, as Q16. The lower bound is a
    /// machine limit: a fuzz magnitude beyond one unit would overflow
    /// the perturbation arithmetic of the scatter.
    pub fn new(a: Color, f: i64) -> (r: Metal)
        requires
            f >= -65536,
        ensures
            r.albedo == a,
            r.fuzz == if f < 65536 { f } else { 65536i64 },
    {
        Metal { albedo: a, fuzz: if f < 65536 { f } else { 65536 } }
    }
}

/// A clear refracting surface with the given index of refraction.
#[derive(Clone, Copy, Debug)]
pub struct Dielectric {
    pub ir: Frac,
}

impl Dielectric {
    pub fn new(index_of_refraction: Frac) -> (r: Dielectric)
        requires
            index_of_refraction.wf(),
            index_of_refraction.num > 0,
        ensures
            r.ir == index_of_refraction,
    {
        Dielectric { ir: index_of_refraction }
    }
}

/// An emitting surface: contributes light, scatters nothing.
#[derive(Clone, Copy, Debug)]
pub struct DiffuseLight {
    pub emit: Texture,
}

impl DiffuseLight {
    pub fn new(c: Color) -> (r: DiffuseLight)
        ensures
            r.emit == Texture::Solid(SolidColor { color_value: c }),
    {
        DiffuseLight { emit: Texture::Solid(SolidColor { color_value: c }) }
    }
}

/// The phase function of a constant-density medium: scatters
/// uniformly in all directions.
#[derive(Clone, Copy, Debug)]
pub struct Isotropic {
    pub albedo: Texture,
}

impl Isotropic {
    pub fn new(c: Color) -> (r: Isotropic)
        ensures
            r.albedo == Texture::Solid(SolidColor { color_value: c }),
    {
        Isotropic { albedo: Texture::Solid(SolidColor { color_value: c }) }
    }

    pub fn mv(a: Texture) -> (r: Isotropic)
        ensures
            r.albedo == a,
    {
        Isotropic { albedo: a }
    }
}

/// A material that absorbs everything and emits nothing; the
/// placeholder paired with light geometry used only for sampling.
#[derive(Clone, Copy, Debug)]
pub struct Empty {}

impl Empty {
    pub fn new() -> (r: Empty) {
        Empty {  }
    }
}

/// The scattering behavior of a surface.
#[derive(Clone, Copy, Debug)]
pub enum Material {
    Lambertian(Lambertian),
    Metal(Metal),
    Dielectric(Dielectric),
    DiffuseLight(DiffuseLight),
    Isotropic(Isotropic),
    Empty(Empty),
}

impl Material {
    /// Valid against the image table: albedo channels stay within
    /// [0, 1] in Q16 (so attenuation never amplifies), emission is
    /// nonnegative and bounded.
    pub open spec fn wf(self, tab: ImageTable) -> bool {
        match self {
            Material::Lambertian(m) => m.albedo.wf(tab, 65536),
            Material::Metal(m) => {
                &&& 0 <= m.albedo.x <= 65536
                &&& 0 <= m.albedo.y <= 65536
                &&& 0 <= m.albedo.z <= 65536
                &&& -65536 <= m.fuzz <= 65536
            },
            Material::Dielectric(m) => m.ir.wf() && 0 < m.ir.num <= 0x100 && m.ir.den <= 0x100,
            Material::DiffuseLight(m) => m.emit.wf(tab, 0x1_0000_0000),
            Material::Isotropic(m) => m.albedo.wf(tab, 65536),
            Material::Empty(_) => true,
        }
    }

    /// The light this surface adds at a hit: only an emitter on its
    /// front face contributes.
    pub fn emitted(&self, r_in: &Ray, rec: &HitRecord, u: Frac, v: Frac, tab: &ImageTable) -> (r:
        Color)
        requires
            u.wf(),
            v.wf(),
            tab.wf(),
            self.wf(*tab),
        ensures
            r == self.spec_emitted(*rec, u, v, *tab),
    {
        match self {
            Material::DiffuseLight(m) => {
                if rec.front_face {
                    m.emit.value(u, v, tab)
                } else {
                    Color { x: 0, y: 0, z: 0 }
                }
            },
            _ => Color { x: 0, y: 0, z: 0 },
        }
    }

    pub open spec fn spec_emitted(self, rec: HitRecord, u: Frac, v: Frac, tab: ImageTable) -> Color {
        match self {
            Material::DiffuseLight(m) => if rec.front_face {
                m.emit.spec_value(u, v, tab)
            } else {
                Color { x: 0, y: 0, z: 0 }
            },
            _ => Color { x: 0, y: 0, z: 0 },
        }
    }

    /// Scatters the incoming ray at the hit `rec` whose hit point is
    /// `p`. `rnd` supplies the random draws the stochastic materials
    /// consume; given those, the outcome is exact.
    pub fn scatter(&self, r_in: &Ray, rec: &HitRecord, p: Vec3, tab: &ImageTable, rnd: &ScatterRand)
        -> (res: ScatterResult)
        requires
            r_in.wf(),
            rec.wf(),
            rec.normal.in_range(1024),
            p.in_range(0x3000_0000),
            tab.wf(),
            self.wf(*tab),
            rnd.wf(),
        ensures
            res == self.spec_scatter(*r_in, *rec, p, *tab, *rnd),
            res matches ScatterResult::Specular(sr) ==> sr.specular_ray.dir.in_range(0x1000_0000)
                && sr.specular_ray.orig == p,
    {
        match self {
            Material::Lambertian(m) => ScatterResult::Diffuse {
                attenuation: m.albedo.value(rec.u, rec.v, tab),
                normal: rec.normal,
            },
            Material::Metal(m) => {
                let rdir = reflect(r_in.direction(), rec.normal);
                let rs = reduce_dir(rdir.x as i128, rdir.y as i128, rdir.z as i128);
                let dir = add_fuzz(rs, m.fuzz, rnd.perturb);
                ScatterResult::Specular(
                    ScatterRecord {
                        specular_ray: Ray { orig: p, dir, tm: 0 },
                        attenuation: m.albedo,
                    },
                )
            },
            Material::Dielectric(m) => {
                let dir = dielectric_dir(m.ir, r_in.direction(), rec.normal, rec.front_face, rnd.coin);
                ScatterResult::Specular(
                    ScatterRecord {
                        specular_ray: Ray { orig: p, dir, tm: r_in.time() },
                        attenuation: Color { x: 65536, y: 65536, z: 65536 },
                    },
                )
            },
            Material::DiffuseLight(_) => ScatterResult::Absorbed,
            Material::Isotropic(m) => ScatterResult::Specular(
                ScatterRecord {
                    specular_ray: Ray { orig: p, dir: rnd.iso_dir, tm: 0 },
                    attenuation: m.albedo.value(rec.u, rec.v, tab),
                },
            ),
            Material::Empty(_) => ScatterResult::Absorbed,
        }
    }

    pub open spec fn spec_scatter(
        self,
        r_in: Ray,
        rec: HitRecord,
        p: Vec3,
        tab: ImageTable,
        rnd: ScatterRand,
    ) -> ScatterResult {
        match self {
            Material::Lambertian(m) => ScatterResult::Diffuse {
                attenuation: m.albedo.spec_value(rec.u, rec.v, tab),
                normal: rec.normal,
            },
            Material::Metal(m) => {
                let rf = spec_reflect(r_in.dir, rec.normal);
                let rs = reduce_dir_spec(rf.0, rf.1, rf.2);
                let dir = add_fuzz_spec(rs, m.fuzz as int, rnd.perturb);
                ScatterResult::Specular(
                    ScatterRecord {
                        specular_ray: Ray { orig: p, dir, tm: 0 },
                        attenuation: m.albedo,
                    },
                )
            },
            Material::Dielectric(m) => ScatterResult::Specular(
                ScatterRecord {
                    specular_ray: Ray {
                        orig: p,
                        dir: spec_dielectric_dir(
                            m.ir,
                            r_in.dir,
                            rec.normal,
                            rec.front_face,
                            rnd.coin as int,
                        ),
                        tm: r_in.tm,
                    },
                    attenuation: Color { x: 65536, y: 65536, z: 65536 },
                },
            ),
            Material::DiffuseLight(_) => ScatterResult::Absorbed,
            Material::Isotropic(m) => ScatterResult::Specular(
                ScatterRecord {
                    specular_ray: Ray { orig: p, dir: rnd.iso_dir, tm: 0 },
                    attenuation: m.albedo.spec_value(rec.u, rec.v, tab),
                },
            ),
            Material::Empty(_) => ScatterResult::Absorbed,
        }
    }
}

/// The random draws one scatter may consume: a point of the unit ball
/// for metal fuzz, a unit direction for isotropic scattering, and a
/// uniform Q16 coin for the dielectric's reflect-or-refract choice.
#[derive(Clone, Copy, Debug)]
pub struct ScatterRand {
    pub perturb: Vec3,
    pub iso_dir: Vec3,
    pub coin: i64,
    pub light_u: i64,
    pub light_v: i64,
}

impl ScatterRand {
    pub open spec fn wf(self) -> bool {
        &&& self.perturb.in_range(65536)
        &&& self.iso_dir.in_range(0x1000_0000)
        &&& 0 <= self.coin < 65536
        &&& 0 <= self.light_u < 65536
        &&& 0 <= self.light_v < 65536
    }
}

/// Division truncating toward zero (what the scaled direction math
/// uses on possibly negative numerators).
pub open spec fn spec_div_tz(n: int, d: int) -> int {
    if n >= 0 {
        n / d
    } else {
        -((-n) / d)
    }
}

fn div_tz(n: i128, d: i128) -> (r: i128)
    requires
        d > 0,
        -0x1_0000_0000_0000_0000_0000_0000_0000 <= n <= 0x1_0000_0000_0000_0000_0000_0000_0000,
    ensures
        r == spec_div_tz(n as int, d as int),
        n >= 0 ==> 0 <= r <= n,
        n < 0 ==> n <= r <= 0,
{
    proof {
        if n >= 0 {
            assert(0 <= (n as int) / (d as int) <= n) by (nonlinear_arith)
                requires
                    n >= 0,
                    d > 0,
            ;
        } else {
            assert(0 <= (-(n as int)) / (d as int) <= -n) by (nonlinear_arith)
                requires
                    n < 0,
                    d > 0,
            ;
        }
    }
    if n >= 0 {
        ((n as u128) / (d as u128)) as i128
    } else {
        -((((-n) as u128) / (d as u128)) as i128)
    }
}

/// Halves the reflected direction toward zero until it fits the ray
/// direction range, keeping its orientation.
pub open spec fn reduce_dir_spec(x: int, y: int, z: int) -> Vec3
    decreases crate::hittable::abs_i(x) + crate::hittable::abs_i(y) + crate::hittable::abs_i(z),
{
    if -0x400_0000 <= x <= 0x400_0000 && -0x400_0000 <= y <= 0x400_0000 && -0x400_0000 <= z
        <= 0x400_0000 {
        Vec3 { x: x as i64, y: y as i64, z: z as i64 }
    } else {
        reduce_dir_spec(
            crate::hittable::half_to_zero(x),
            crate::hittable::half_to_zero(y),
            crate::hittable::half_to_zero(z),
        )
    }
}

pub(crate) fn reduce_dir(x: i128, y: i128, z: i128) -> (r: Vec3)
    requires
        -0x1_0000_0000_0000_0000_0000_0000_0000 <= x <= 0x1_0000_0000_0000_0000_0000_0000_0000,
        -0x1_0000_0000_0000_0000_0000_0000_0000 <= y <= 0x1_0000_0000_0000_0000_0000_0000_0000,
        -0x1_0000_0000_0000_0000_0000_0000_0000 <= z <= 0x1_0000_0000_0000_0000_0000_0000_0000,
    ensures
        r == reduce_dir_spec(x as int, y as int, z as int),
        r.in_range(0x400_0000),
    decreases
            crate::hittable::abs_i(x as int) + crate::hittable::abs_i(y as int)
                + crate::hittable::abs_i(z as int),
{
    if -0x400_0000 <= x && x <= 0x400_0000 && -0x400_0000 <= y && y <= 0x400_0000 && -0x400_0000
        <= z && z <= 0x400_0000 {
        Vec3 { x: x as i64, y: y as i64, z: z as i64 }
    } else {
        let hx = half_i128_pub(x);
        let hy = half_i128_pub(y);
        let hz = half_i128_pub(z);
        reduce_dir(hx, hy, hz)
    }
}

fn half_i128_pub(x: i128) -> (r: i128)
    requires
        -0x1_0000_0000_0000_0000_0000_0000_0000 <= x <= 0x1_0000_0000_0000_0000_0000_0000_0000,
    ensures
        r == crate::hittable::half_to_zero(x as int),
        crate::hittable::abs_i(r as int) <= crate::hittable::abs_i(x as int),
        crate::hittable::abs_i(x as int) > 1024 ==> crate::hittable::abs_i(r as int)
            < crate::hittable::abs_i(x as int),
{
    if x >= 0 {
        ((x as u128) / 2) as i128
    } else {
        -((((-x) as u128) / 2) as i128)
    }
}

/// The largest component magnitude, the scale the fuzz ball uses.
pub open spec fn max_comp(v: Vec3) -> int {
    crate::hittable::abs_i(
        if crate::hittable::abs_i(v.x as int) >= crate::hittable::abs_i(v.y as int)
            && crate::hittable::abs_i(v.x as int) >= crate::hittable::abs_i(v.z as int) {
            v.x as int
        } else if crate::hittable::abs_i(v.y as int) >= crate::hittable::abs_i(v.z as int) {
            v.y as int
        } else {
            v.z as int
        },
    )
}

/// The fuzzed direction: the reduced mirror direction plus the unit
/// ball sample scaled by the fuzz radius and the direction's own
/// magnitude (its largest component).
pub open spec fn add_fuzz_spec(rs: Vec3, fuzz: int, perturb: Vec3) -> Vec3 {
    let mc = max_comp(rs);
    Vec3 {
        x: (rs.x + spec_div_tz(spec_div_tz(perturb.x * fuzz, 65536) * mc, 65536)) as i64,
        y: (rs.y + spec_div_tz(spec_div_tz(perturb.y * fuzz, 65536) * mc, 65536)) as i64,
        z: (rs.z + spec_div_tz(spec_div_tz(perturb.z * fuzz, 65536) * mc, 65536)) as i64,
    }
}

fn add_fuzz(rs: Vec3, fuzz: i64, perturb: Vec3) -> (r: Vec3)
    requires
        rs.in_range(0x400_0000),
        -65536 <= fuzz <= 65536,
        perturb.in_range(65536),
    ensures
        r == add_fuzz_spec(rs, fuzz as int, perturb),
        r.in_range(0x1000_0000),
{
    let ax = if rs.x >= 0 {
        rs.x
    } else {
        -rs.x
    };
    let ay = if rs.y >= 0 {
        rs.y
    } else {
        -rs.y
    };
    let az = if rs.z >= 0 {
        rs.z
    } else {
        -rs.z
    };
    let mc = if ax >= ay && ax >= az {
        ax
    } else if ay >= az {
        ay
    } else {
        az
    };
    proof {
        crate::vec3::lemma_mul_bound2(perturb.x as int, fuzz as int, 65536, 65536);
        crate::vec3::lemma_mul_bound2(perturb.y as int, fuzz as int, 65536, 65536);
        crate::vec3::lemma_mul_bound2(perturb.z as int, fuzz as int, 65536, 65536);
        lemma_div_tz_shrink((perturb.x as int) * (fuzz as int), 65536, 65536);
        lemma_div_tz_shrink((perturb.y as int) * (fuzz as int), 65536, 65536);
        lemma_div_tz_shrink((perturb.z as int) * (fuzz as int), 65536, 65536);
        crate::vec3::lemma_mul_bound2(
            spec_div_tz((perturb.x as int) * (fuzz as int), 65536),
            mc as int,
            0x1_0000,
            0x400_0000,
        );
        crate::vec3::lemma_mul_bound2(
            spec_div_tz((perturb.y as int) * (fuzz as int), 65536),
            mc as int,
            0x1_0000,
            0x400_0000,
        );
        crate::vec3::lemma_mul_bound2(
            spec_div_tz((perturb.z as int) * (fuzz as int), 65536),
            mc as int,
            0x1_0000,
            0x400_0000,
        );
    }
    let fx = div_tz(div_tz((perturb.x as i128) * (fuzz as i128), 65536) * (mc as i128), 65536);
    let fy = div_tz(div_tz((perturb.y as i128) * (fuzz as i128), 65536) * (mc as i128), 65536);
    let fz = div_tz(div_tz((perturb.z as i128) * (fuzz as i128), 65536) * (mc as i128), 65536);
    proof {
        lemma_div_tz_shrink(
            spec_div_tz((perturb.x as int) * (fuzz as int), 65536) * (mc as int),
            65536,
            0x400_0000,
        );
        lemma_div_tz_shrink(
            spec_div_tz((perturb.y as int) * (fuzz as int), 65536) * (mc as int),
            65536,
            0x400_0000,
        );
        lemma_div_tz_shrink(
            spec_div_tz((perturb.z as int) * (fuzz as int), 65536) * (mc as int),
            65536,
            0x400_0000,
        );
    }
    Vec3 { x: rs.x + fx as i64, y: rs.y + fy as i64, z: rs.z + fz as i64 }
}

/// The dielectric's outgoing direction: exact Snell refraction in
/// scaled integers, with total internal reflection decided exactly
/// and Schlick's reflectance compared against the uniform coin. A
/// degenerate direction or normal passes the ray through unchanged.
pub open spec fn spec_dielectric_dir(ir: Frac, d: Vec3, n: Vec3, front: bool, coin: int) -> Vec3 {
    let rn = if front {
        ir.den as int
    } else {
        ir.num as int
    };
    let rd = if front {
        ir.num as int
    } else {
        ir.den as int
    };
    let d2 = d.spec_len_sq();
    let n2 = n.spec_len_sq();
    let dn = d.spec_dot(n);
    if d2 == 0 || n2 == 0 {
        d
    } else {
        let sin2num = d2 * n2 - dn * dn;
        let cannot_refract = rn * rn * sin2num > rd * rd * (d2 * n2);
        let dlen = sqrt_floor(d2 as nat) as int;
        let nlen = sqrt_floor(n2 as nat) as int;
        let cq0 = spec_div_tz((-dn) * 65536, dlen * nlen);
        let cq = if cq0 < 0 {
            0int
        } else if cq0 > 65536 {
            65536int
        } else {
            cq0
        };
        let r0 = spec_div_tz((rd - rn) * (rd - rn) * 65536, (rd + rn) * (rd + rn));
        let x = 65536 - cq;
        let x5 = spec_div_tz(
            spec_div_tz(spec_div_tz(x * x, 65536) * spec_div_tz(x * x, 65536), 65536) * x,
            65536,
        );
        let refl = r0 + spec_div_tz((65536 - r0) * x5, 65536);
        if cannot_refract || refl > coin {
            let rf = spec_reflect(d, n);
            reduce_dir_spec(rf.0, rf.1, rf.2)
        } else {
            let ux = spec_div_tz(d.x * 65536, dlen);
            let uy = spec_div_tz(d.y * 65536, dlen);
            let uz = spec_div_tz(d.z * 65536, dlen);
            let nx = spec_div_tz(n.x * 65536, nlen);
            let ny = spec_div_tz(n.y * 65536, nlen);
            let nz = spec_div_tz(n.z * 65536, nlen);
            let px = spec_div_tz(rn * (ux + spec_div_tz(cq * nx, 65536)), rd);
            let py = spec_div_tz(rn * (uy + spec_div_tz(cq * ny, 65536)), rd);
            let pz = spec_div_tz(rn * (uz + spec_div_tz(cq * nz, 65536)), rd);
            let plen2 = px * px + py * py + pz * pz;
            let par = if plen2 <= 65536 * 65536 {
                sqrt_floor((65536 * 65536 - plen2) as nat) as int
            } else {
                0int
            };
            Vec3 {
                x: (px - spec_div_tz(par * nx, 65536)) as i64,
                y: (py - spec_div_tz(par * ny, 65536)) as i64,
                z: (pz - spec_div_tz(par * nz, 65536)) as i64,
            }
        }
    }
}

#[verifier::rlimit(100)]
#[verifier::spinoff_prover]
fn dielectric_dir(ir: Frac, d: Vec3, n: Vec3, front: bool, coin: i64) -> (r: Vec3)
    requires
        ir.wf(),
        0 < ir.num <= 0x100,
        ir.den <= 0x100,
        d.in_range(0x1000_0000),
        n.in_range(1024),
        0 <= coin < 65536,
    ensures
        r == spec_dielectric_dir(ir, d, n, front, coin as int),
        r.in_range(0x1000_0000),
{
    let (rn, rd) = if front {
        (ir.den as i128, ir.num as i128)
    } else {
        (ir.num as i128, ir.den as i128)
    };
    proof {
        dielectric_bounds(
            d.x as int,
            d.y as int,
            d.z as int,
            n.x as int,
            n.y as int,
            n.z as int,
            rn as int,
            rd as int,
        );
    }
    let dx = d.x as i128;
    let dy = d.y as i128;
    let dz = d.z as i128;
    let nx0 = n.x as i128;
    let ny0 = n.y as i128;
    let nz0 = n.z as i128;
    proof {
        lemma_sq_bound2(d.x as int, 0x1000_0000);
        lemma_sq_bound2(d.y as int, 0x1000_0000);
        lemma_sq_bound2(d.z as int, 0x1000_0000);
        lemma_sq_bound2(n.x as int, 1024);
        lemma_sq_bound2(n.y as int, 1024);
        lemma_sq_bound2(n.z as int, 1024);
        crate::vec3::lemma_mul_bound2(d.x as int, n.x as int, 0x1000_0000, 1024);
        crate::vec3::lemma_mul_bound2(d.y as int, n.y as int, 0x1000_0000, 1024);
        crate::vec3::lemma_mul_bound2(d.z as int, n.z as int, 0x1000_0000, 1024);
    }
    let d2 = dx * dx + dy * dy + dz * dz;
    let n2 = nx0 * nx0 + ny0 * ny0 + nz0 * nz0;
    let dn = dx * nx0 + dy * ny0 + dz * nz0;
    if d2 == 0 || n2 == 0 {
        return d;
    }
    let sin2num = d2 * n2 - dn * dn;
    proof {
        lemma_sq_bound2(rn as int, 0x100);
        lemma_sq_bound2(rd as int, 0x100);
    }
    let cannot_refract = rn * rn * sin2num > rd * rd * (d2 * n2);
    let dlen = isqrt_u128(d2 as u128) as i128;
    let nlen = isqrt_u128(n2 as u128) as i128;
    proof {
        assert((d2 as u128) as int == d2 as int);
        assert((n2 as u128) as int == n2 as int);
        assert(dlen as int == sqrt_floor((d2 as u128) as nat) && (dlen as int) * (dlen as int)
            <= d2 as int && (d2 as int) < ((dlen as int) + 1) * ((dlen as int) + 1));
        assert(nlen as int == sqrt_floor((n2 as u128) as nat) && (nlen as int) * (nlen as int)
            <= n2 as int && (n2 as int) < ((nlen as int) + 1) * ((nlen as int) + 1));
        assert(sqrt_floor((d2 as u128) as nat) == sqrt_floor(d2 as nat));
        assert(sqrt_floor((n2 as u128) as nat) == sqrt_floor(n2 as nat));
        assert(dlen >= 1) by (nonlinear_arith)
            requires
                d2 >= 1,
                (d2 as int) < ((dlen as int) + 1) * ((dlen as int) + 1),
                dlen >= 0,
        ;
        assert(nlen >= 1) by (nonlinear_arith)
            requires
                n2 >= 1,
                (n2 as int) < ((nlen as int) + 1) * ((nlen as int) + 1),
                nlen >= 0,
        ;
        assert(dlen * nlen >= 1) by (nonlinear_arith)
            requires
                dlen >= 1,
                nlen >= 1,
        ;
        assert(dlen <= 0x4000_0000 && nlen <= 0x8000) by (nonlinear_arith)
            requires
                (dlen as int) * (dlen as int) <= d2 as int,
                (nlen as int) * (nlen as int) <= n2 as int,
                d2 <= 0x300_0000_0000_0000,
                n2 <= 0x30_0000,
                dlen >= 0,
                nlen >= 0,
        ;
        assert(dlen * nlen <= 0x2_0000_0000_0000) by (nonlinear_arith)
            requires
                0 <= dlen <= 0x4000_0000,
                0 <= nlen <= 0x8000,
        ;
    }
    let cq0 = div_tz((-dn) * 65536, dlen * nlen);
    let cq = if cq0 < 0 {
        0
    } else if cq0 > 65536 {
        65536
    } else {
        cq0
    };
    proof {
        assert((rd + rn) * (rd + rn) > 0) by (nonlinear_arith)
            requires
                rd + rn > 0,
        ;
        assert(0 <= (rd - rn) * (rd - rn) * 65536 <= 0x4_0000_0000_0000) by (nonlinear_arith)
            requires
                -0x100 <= rd - rn <= 0x200,
        ;
        lemma_sq_bound2((rd as int) + (rn as int), 0x200);
        assert((rd - rn) * (rd - rn) * 65536 <= 65536 * ((rd + rn) * (rd + rn)))
            by (nonlinear_arith)
            requires
                rd > 0,
                rn > 0,
        ;
        lemma_div_tz_shrink(
            ((rd - rn) * (rd - rn) * 65536) as int,
            ((rd + rn) * (rd + rn)) as int,
            65536,
        );
    }
    let r0 = div_tz((rd - rn) * (rd - rn) * 65536, (rd + rn) * (rd + rn));
    let x = 65536 - cq;
    proof {
        lemma_sq_bound2(x as int, 65536);
        lemma_div_tz_shrink((x as int) * (x as int), 65536, 65536);
    }
    let x2 = div_tz(x * x, 65536);
    proof {
        lemma_sq_bound2(x2 as int, 65536);
        lemma_div_tz_shrink((x2 as int) * (x2 as int), 65536, 65536);
    }
    let x4 = div_tz(x2 * x2, 65536);
    proof {
        crate::vec3::lemma_mul_bound2(x4 as int, x as int, 65536, 65536);
        lemma_div_tz_shrink((x4 as int) * (x as int), 65536, 65536);
    }
    let x5 = div_tz(x4 * x, 65536);
    proof {
        crate::vec3::lemma_mul_bound2(65536 - (r0 as int), x5 as int, 65536, 65536);
        lemma_div_tz_shrink((65536 - (r0 as int)) * (x5 as int), 65536, 65536);
    }
    let refl = r0 + div_tz((65536 - r0) * x5, 65536);
    if cannot_refract || refl > coin as i128 {
        let rf = reflect(d, n);
        reduce_dir(rf.x as i128, rf.y as i128, rf.z as i128)
    } else {
        proof {
            assert(dx * dx >= 0 && dy * dy >= 0 && dz * dz >= 0) by (nonlinear_arith);
            assert(nx0 * nx0 >= 0 && ny0 * ny0 >= 0 && nz0 * nz0 >= 0) by (nonlinear_arith);
            lemma_unit_comp(dx as int, d2 as int, dlen as int);
            lemma_unit_comp(dy as int, d2 as int, dlen as int);
            lemma_unit_comp(dz as int, d2 as int, dlen as int);
            lemma_unit_comp(nx0 as int, n2 as int, nlen as int);
            lemma_unit_comp(ny0 as int, n2 as int, nlen as int);
            lemma_unit_comp(nz0 as int, n2 as int, nlen as int);
        }
        let ux = div_tz(dx * 65536, dlen);
        let uy = div_tz(dy * 65536, dlen);
        let uz = div_tz(dz * 65536, dlen);
        let nx = div_tz(nx0 * 65536, nlen);
        let ny = div_tz(ny0 * 65536, nlen);
        let nz = div_tz(nz0 * 65536, nlen);
        proof {
            crate::vec3::lemma_mul_bound2(cq as int, nx as int, 65536, 0x1_0000);
            crate::vec3::lemma_mul_bound2(cq as int, ny as int, 65536, 0x1_0000);
            crate::vec3::lemma_mul_bound2(cq as int, nz as int, 65536, 0x1_0000);
            lemma_div_tz_bound(cq as int * nx as int, 65536, 0x1_0000_0000);
            lemma_div_tz_bound(cq as int * ny as int, 65536, 0x1_0000_0000);
            lemma_div_tz_bound(cq as int * nz as int, 65536, 0x1_0000_0000);
            lemma_div_tz_shrink(cq as int * nx as int, 65536, 0x1_0000);
            lemma_div_tz_shrink(cq as int * ny as int, 65536, 0x1_0000);
            lemma_div_tz_shrink(cq as int * nz as int, 65536, 0x1_0000);
            crate::vec3::lemma_mul_bound2(
                rn as int,
                ux as int + spec_div_tz(cq as int * nx as int, 65536),
                0x100,
                0x2_0000,
            );
            crate::vec3::lemma_mul_bound2(
                rn as int,
                uy as int + spec_div_tz(cq as int * ny as int, 65536),
                0x100,
                0x2_0000,
            );
            crate::vec3::lemma_mul_bound2(
                rn as int,
                uz as int + spec_div_tz(cq as int * nz as int, 65536),
                0x100,
                0x2_0000,
            );
        }
        let px = div_tz(rn * (ux + div_tz(cq * nx, 65536)), rd);
        let py = div_tz(rn * (uy + div_tz(cq * ny, 65536)), rd);
        let pz = div_tz(rn * (uz + div_tz(cq * nz, 65536)), rd);
        proof {
            refract_bounds(
                ux as int,
                uy as int,
                uz as int,
                nx as int,
                ny as int,
                nz as int,
                cq as int,
                rn as int,
                rd as int,
                px as int,
                py as int,
                pz as int,
            );
        }
        proof {
            lemma_sq_bound2(px as int, 0x400_0000);
            lemma_sq_bound2(py as int, 0x400_0000);
            lemma_sq_bound2(pz as int, 0x400_0000);
        }
        let plen2 = px * px + py * py + pz * pz;
        let par = if plen2 <= 65536 * 65536 {
            isqrt_u128((65536 * 65536 - plen2) as u128) as i128
        } else {
            0
        };
        proof {
            if plen2 <= 65536 * 65536 {
                crate::isqrt::lemma_sqrt_floor_bounds((65536 * 65536 - plen2) as nat);
                assert(par * par <= 65536 * 65536);
                assert(par <= 65536) by (nonlinear_arith)
                    requires
                        par * par <= 65536 * 65536,
                        par >= 0,
                ;
            }
        }
        proof {
            crate::vec3::lemma_mul_bound2(par as int, nx as int, 0x1_0000, 0x1_0000);
            crate::vec3::lemma_mul_bound2(par as int, ny as int, 0x1_0000, 0x1_0000);
            crate::vec3::lemma_mul_bound2(par as int, nz as int, 0x1_0000, 0x1_0000);
            lemma_div_tz_shrink(par as int * nx as int, 65536, 0x1_0000);
            lemma_div_tz_shrink(par as int * ny as int, 65536, 0x1_0000);
            lemma_div_tz_shrink(par as int * nz as int, 65536, 0x1_0000);
        }
        Vec3 {
            x: (px - div_tz(par * nx, 65536)) as i64,
            y: (py - div_tz(par * ny, 65536)) as i64,
            z: (pz - div_tz(par * nz, 65536)) as i64,
        }
    }
}

/// Coefficient bounds for the dielectric arithmetic.
proof fn dielectric_bounds(
    dx: int,
    dy: int,
    dz: int,
    nx: int,
    ny: int,
    nz: int,
    rn: int,
    rd: int,
)
    requires
        -0x1000_0000 <= dx <= 0x1000_0000,
        -0x1000_0000 <= dy <= 0x1000_0000,
        -0x1000_0000 <= dz <= 0x1000_0000,
        -1024 <= nx <= 1024,
        -1024 <= ny <= 1024,
        -1024 <= nz <= 1024,
        0 < rn <= 0x100,
        0 < rd <= 0x100,
    ensures
        0 <= dx * dx + dy * dy + dz * dz <= 0x300_0000_0000_0000,
        0 <= nx * nx + ny * ny + nz * nz <= 0x30_0000,
        ({
            let dn = dx * nx + dy * ny + dz * nz;
            let d2 = dx * dx + dy * dy + dz * dz;
            let n2 = nx * nx + ny * ny + nz * nz;
            &&& -0x100_0000_0000 <= dn <= 0x100_0000_0000
            &&& 0 <= dn * dn <= 0x1_0000_0000_0000_0000_0000
            &&& 0 <= d2 * n2 <= 0x1_0000_0000_0000_0000_0000
            &&& crate::hittable::abs_i(rn * rn * (d2 * n2 - dn * dn))
                <= 0x4_0000_0000_0000_0000_0000_0000
            &&& crate::hittable::abs_i(rd * rd * (d2 * n2)) <= 0x4_0000_0000_0000_0000_0000_0000
        }),
{
    lemma_sq_bound2(dx, 0x1000_0000);
    lemma_sq_bound2(dy, 0x1000_0000);
    lemma_sq_bound2(dz, 0x1000_0000);
    lemma_sq_bound2(nx, 1024);
    lemma_sq_bound2(ny, 1024);
    lemma_sq_bound2(nz, 1024);
    crate::vec3::lemma_mul_bound2(dx, nx, 0x1000_0000, 1024);
    crate::vec3::lemma_mul_bound2(dy, ny, 0x1000_0000, 1024);
    crate::vec3::lemma_mul_bound2(dz, nz, 0x1000_0000, 1024);
    let dn = dx * nx + dy * ny + dz * nz;
    let d2 = dx * dx + dy * dy + dz * dz;
    let n2 = nx * nx + ny * ny + nz * nz;
    lemma_sq_bound2(dn, 0x100_0000_0000);
    crate::vec3::lemma_mul_bound2(d2, n2, 0x300_0000_0000_0000, 0x30_0000);
    assert(d2 * n2 >= 0) by (nonlinear_arith)
        requires
            d2 >= 0,
            n2 >= 0,
    ;
    lemma_sq_bound2(rn, 0x100);
    lemma_sq_bound2(rd, 0x100);
    crate::vec3::lemma_mul_bound2(
        rn * rn,
        d2 * n2 - dn * dn,
        0x1_0000,
        0x2_0000_0000_0000_0000_0000,
    );
    crate::vec3::lemma_mul_bound2(rd * rd, d2 * n2, 0x1_0000, 0x2_0000_0000_0000_0000_0000);
}

proof fn lemma_sq_bound2(x: int, b: int)
    requires
        -b <= x <= b,
        b >= 0,
    ensures
        0 <= x * x <= b * b,
{
    assert(0 <= x * x <= b * b) by (nonlinear_arith)
        requires
            -b <= x <= b,
            b >= 0,
    ;
}

/// A normalized component: any coordinate of a vector, scaled by
/// 65536 and divided by the vector's integer length, stays within
/// one unit (Q16).
proof fn lemma_unit_comp(c: int, s2: int, slen: int)
    requires
        c * c <= s2,
        s2 >= 1,
        slen == sqrt_floor(s2 as nat),
    ensures
        crate::hittable::abs_i(spec_div_tz(c * 65536, slen)) <= 65536,
        slen >= 1,
{
    crate::isqrt::lemma_sqrt_floor_bounds(s2 as nat);
    assert(slen >= 1) by (nonlinear_arith)
        requires
            s2 >= 1,
            s2 < (slen + 1) * (slen + 1),
            slen >= 0,
    ;
    let a = crate::hittable::abs_i(c);
    assert(a * a == c * c) by (nonlinear_arith)
        requires
            a == c || a == -c,
    ;
    assert(a <= slen) by (nonlinear_arith)
        requires
            a * a <= s2,
            s2 < (slen + 1) * (slen + 1),
            a >= 0,
            slen >= 0,
    ;
    vstd::arithmetic::div_mod::lemma_div_multiples_vanish(65536, slen);
    assert((slen * 65536) / slen == 65536);
    if c >= 0 {
        vstd::arithmetic::div_mod::lemma_div_is_ordered(c * 65536, slen * 65536, slen);
        assert(c * 65536 <= slen * 65536) by (nonlinear_arith)
            requires
                c <= slen,
                c >= 0,
        ;
        assert(c * 65536 >= 0) by (nonlinear_arith)
            requires
                c >= 0,
        ;
        vstd::arithmetic::div_mod::lemma_div_is_ordered(0, c * 65536, slen);
    } else {
        vstd::arithmetic::div_mod::lemma_div_is_ordered((-c) * 65536, slen * 65536, slen);
        assert((-c) * 65536 <= slen * 65536) by (nonlinear_arith)
            requires
                -c <= slen,
        ;
        assert((-c) * 65536 >= 0) by (nonlinear_arith)
            requires
                c < 0,
        ;
        vstd::arithmetic::div_mod::lemma_div_is_ordered(0, (-c) * 65536, slen);
    }
}

/// Bounds for the refracted components.
proof fn refract_bounds(
    ux: int,
    uy: int,
    uz: int,
    nx: int,
    ny: int,
    nz: int,
    cq: int,
    rn: int,
    rd: int,
    px: int,
    py: int,
    pz: int,
)
    requires
        crate::hittable::abs_i(ux) <= 0x1_0000,
        crate::hittable::abs_i(uy) <= 0x1_0000,
        crate::hittable::abs_i(uz) <= 0x1_0000,
        crate::hittable::abs_i(nx) <= 0x1_0000,
        crate::hittable::abs_i(ny) <= 0x1_0000,
        crate::hittable::abs_i(nz) <= 0x1_0000,
        0 <= cq <= 65536,
        0 < rn <= 0x100,
        0 < rd <= 0x100,
        px == spec_div_tz(rn * (ux + spec_div_tz(cq * nx, 65536)), rd),
        py == spec_div_tz(rn * (uy + spec_div_tz(cq * ny, 65536)), rd),
        pz == spec_div_tz(rn * (uz + spec_div_tz(cq * nz, 65536)), rd),
    ensures
        crate::hittable::abs_i(px) <= 0x400_0000,
        crate::hittable::abs_i(py) <= 0x400_0000,
        crate::hittable::abs_i(pz) <= 0x400_0000,
        0 <= px * px + py * py + pz * pz <= 0x30_0000_0000_0000,
{
    crate::vec3::lemma_mul_bound2(cq, nx, 65536, 0x1_0000);
    crate::vec3::lemma_mul_bound2(cq, ny, 65536, 0x1_0000);
    crate::vec3::lemma_mul_bound2(cq, nz, 65536, 0x1_0000);
    lemma_div_tz_bound(cq * nx, 65536, 0x1_0000_0000);
    lemma_div_tz_bound(cq * ny, 65536, 0x1_0000_0000);
    lemma_div_tz_bound(cq * nz, 65536, 0x1_0000_0000);
    lemma_div_tz_shrink(cq * nx, 65536, 0x1_0000);
    lemma_div_tz_shrink(cq * ny, 65536, 0x1_0000);
    lemma_div_tz_shrink(cq * nz, 65536, 0x1_0000);
    crate::vec3::lemma_mul_bound2(rn, ux + spec_div_tz(cq * nx, 65536), 0x100, 0x2_0000);
    crate::vec3::lemma_mul_bound2(rn, uy + spec_div_tz(cq * ny, 65536), 0x100, 0x2_0000);
    crate::vec3::lemma_mul_bound2(rn, uz + spec_div_tz(cq * nz, 65536), 0x100, 0x2_0000);
    lemma_div_tz_bound(rn * (ux + spec_div_tz(cq * nx, 65536)), rd, 0x200_0000);
    lemma_div_tz_bound(rn * (uy + spec_div_tz(cq * ny, 65536)), rd, 0x200_0000);
    lemma_div_tz_bound(rn * (uz + spec_div_tz(cq * nz, 65536)), rd, 0x200_0000);
    lemma_sq_bound2(px, 0x400_0000);
    lemma_sq_bound2(py, 0x400_0000);
    lemma_sq_bound2(pz, 0x400_0000);
}

/// Dividing by `d` brings a value below `b` whenever the numerator
/// is below `b * d`.
pub(crate) proof fn lemma_div_tz_shrink(n: int, d: int, b: int)
    requires
        d >= 1,
        b >= 0,
        -(b * d) <= n <= b * d,
    ensures
        -b <= spec_div_tz(n, d) <= b,
{
    if n >= 0 {
        vstd::arithmetic::div_mod::lemma_div_is_ordered(n, b * d, d);
        vstd::arithmetic::div_mod::lemma_div_multiples_vanish(b, d);
        assert(b * d == d * b) by (nonlinear_arith);
        vstd::arithmetic::div_mod::lemma_div_is_ordered(0, n, d);
    } else {
        vstd::arithmetic::div_mod::lemma_div_is_ordered(-n, b * d, d);
        vstd::arithmetic::div_mod::lemma_div_multiples_vanish(b, d);
        assert(b * d == d * b) by (nonlinear_arith);
        vstd::arithmetic::div_mod::lemma_div_is_ordered(0, -n, d);
    }
}

/// Truncating division shrinks magnitudes.
proof fn lemma_div_tz_bound(n: int, d: int, b: int)
    requires
        d >= 1,
        -b <= n <= b,
        b >= 0,
    ensures
        -b <= spec_div_tz(n, d) <= b,
        crate::hittable::abs_i(spec_div_tz(n, d)) <= crate::hittable::abs_i(n),
{
    if n >= 0 {
        assert(0 <= n / d <= n) by (nonlinear_arith)
            requires
                n >= 0,
                d >= 1,
        ;
    } else {
        assert(0 <= (-n) / d <= -n) by (nonlinear_arith)
            requires
                n < 0,
                d >= 1,
        ;
    }
}

/// The mirror bounce at exactly normal incidence: with fuzz zero and
/// the incoming direction a negative multiple of the normal (and no
/// range reduction needed), the scattered ray goes straight back
/// along the reversed incoming direction, scaled by the squared
/// normal length.
pub proof fn lemma_metal_normal_incidence(v: Vec3, n: Vec3, k: int, perturb: Vec3)
    requires
        k > 0,
        n.spec_len_sq() > 0,
        v.x == -k * n.x,
        v.y == -k * n.y,
        v.z == -k * n.z,
        -0x400_0000 <= n.spec_len_sq() * -v.x <= 0x400_0000,
        -0x400_0000 <= n.spec_len_sq() * -v.y <= 0x400_0000,
        -0x400_0000 <= n.spec_len_sq() * -v.z <= 0x400_0000,
    ensures
        ({
            let rf = spec_reflect(v, n);
            let rs = reduce_dir_spec(rf.0, rf.1, rf.2);
            let dir = add_fuzz_spec(rs, 0, perturb);
            &&& dir.x == n.spec_len_sq() * -v.x
            &&& dir.y == n.spec_len_sq() * -v.y
            &&& dir.z == n.spec_len_sq() * -v.z
        }),
{
    crate::vec3::lemma_reflect_normal_incidence(v, n, k);
    let rf = spec_reflect(v, n);
    let rs = reduce_dir_spec(rf.0, rf.1, rf.2);
    assert(rs == (Vec3 { x: rf.0 as i64, y: rf.1 as i64, z: rf.2 as i64 }));
    let mc = max_comp(rs);
    vstd::arithmetic::div_mod::lemma_div_basics(65536);
    assert(perturb.x as int * 0 == 0 && perturb.y as int * 0 == 0 && perturb.z as int * 0 == 0)
        by (nonlinear_arith);
    assert(spec_div_tz(0, 65536) == 0);
    assert(0 * mc == 0) by (nonlinear_arith);
    assert(spec_div_tz(spec_div_tz(perturb.x as int * 0, 65536) * mc, 65536) == 0);
    assert(spec_div_tz(spec_div_tz(perturb.y as int * 0, 65536) * mc, 65536) == 0);
    assert(spec_div_tz(spec_div_tz(perturb.z as int * 0, 65536) * mc, 65536) == 0);
}

} // verus!
