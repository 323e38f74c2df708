use vstd::prelude::*;

use crate::frac::Frac;
use crate::hittable_list::{list_hit, HittableList};
use crate::material::{Material, ScatterRand, ScatterResult};
use crate::pdf::CosinePdf;
use crate::ray::Ray;
use crate::texture::ImageTable;
use crate::vec3::{Color, Vec3};

verus! {

/// The ceiling kept on radiance channels (Q16): high enough for any
/// light, low enough that sums over a path never overflow.
pub open spec fn radiance_cap() -> int {
    0x1_0000_0000_0000
}

/// A channel value in range.
pub open spec fn channel_ok(c: int) -> bool {
    0 <= c <= radiance_cap()
}

pub open spec fn color_ok(c: Color) -> bool {
    channel_ok(c.x as int) && channel_ok(c.y as int) && channel_ok(c.z as int)
}

/// A channel clamped into `[0, cap]`.
pub open spec fn spec_clamp_channel(c: int, cap: int) -> int {
    if c < 0 {
        0
    } else if c > cap {
        cap
    } else {
        c
    }
}

pub open spec fn spec_clamp_color(c: Color) -> Color {
    Color {
        x: spec_clamp_channel(c.x as int, radiance_cap()) as i64,
        y: spec_clamp_channel(c.y as int, radiance_cap()) as i64,
        z: spec_clamp_channel(c.z as int, radiance_cap()) as i64,
    }
}

pub open spec fn spec_clamp_albedo(c: Color) -> Color {
    Color {
        x: spec_clamp_channel(c.x as int, 65536) as i64,
        y: spec_clamp_channel(c.y as int, 65536) as i64,
        z: spec_clamp_channel(c.z as int, 65536) as i64,
    }
}

pub open spec fn spec_attenuate(a: Color, b: Color) -> Color {
    Color {
        x: (a.x * b.x / 65536) as i64,
        y: (a.y * b.y / 65536) as i64,
        z: (a.z * b.z / 65536) as i64,
    }
}

pub open spec fn spec_add_clamped(a: Color, b: Color) -> Color {
    Color {
        x: (if a.x + b.x <= radiance_cap() {
            a.x + b.x as int
        } else {
            radiance_cap()
        }) as i64,
        y: (if a.y + b.y <= radiance_cap() {
            a.y + b.y as int
        } else {
            radiance_cap()
        }) as i64,
        z: (if a.z + b.z <= radiance_cap() {
            a.z + b.z as int
        } else {
            radiance_cap()
        }) as i64,
    }
}

/// Componentwise Q16 product: attenuating a radiance by a reflectance
/// in [0, 1] never brightens any channel.
pub fn attenuate(a: Color, b: Color) -> (r: Color)
    requires
        0 <= a.x <= 65536,
        0 <= a.y <= 65536,
        0 <= a.z <= 65536,
        color_ok(b),
    ensures
        r == spec_attenuate(a, b),
        r.x == a.x * b.x / 65536,
        r.y == a.y * b.y / 65536,
        r.z == a.z * b.z / 65536,
        color_ok(r),
        r.x <= b.x && r.y <= b.y && r.z <= b.z,
{
    proof {
        lemma_attenuate_channel(a.x as int, b.x as int);
        lemma_attenuate_channel(a.y as int, b.y as int);
        lemma_attenuate_channel(a.z as int, b.z as int);
    }
    Color {
        x: ((a.x as i128) * (b.x as i128) / 65536) as i64,
        y: ((a.y as i128) * (b.y as i128) / 65536) as i64,
        z: ((a.z as i128) * (b.z as i128) / 65536) as i64,
    }
}

/// Energy does not grow across a bounce: a Q16 reflectance at most
/// one maps a radiance channel to at most itself.
pub proof fn lemma_attenuate_channel(a: int, b: int)
    requires
        0 <= a <= 65536,
        0 <= b,
    ensures
        0 <= a * b / 65536 <= b,
        a == 65536 ==> a * b / 65536 == b,
{
    assert(0 <= a * b <= 65536 * b) by (nonlinear_arith)
        requires
            0 <= a <= 65536,
            0 <= b,
    ;
    vstd::arithmetic::div_mod::lemma_div_is_ordered(0, a * b, 65536);
    vstd::arithmetic::div_mod::lemma_div_is_ordered(a * b, 65536 * b, 65536);
    vstd::arithmetic::div_mod::lemma_div_multiples_vanish(b, 65536);
    if a == 65536 {
        assert(a * b == 65536 * b) by (nonlinear_arith)
            requires
                a == 65536,
        ;
    }
}

/// Componentwise sum, clamped at the radiance ceiling.
pub fn add_clamped(a: Color, b: Color) -> (r: Color)
    requires
        color_ok(a),
        color_ok(b),
    ensures
        r == spec_add_clamped(a, b),
        color_ok(r),
        r.x as int == if a.x + b.x <= radiance_cap() { a.x + b.x as int } else { radiance_cap() },
        r.y as int == if a.y + b.y <= radiance_cap() { a.y + b.y as int } else { radiance_cap() },
        r.z as int == if a.z + b.z <= radiance_cap() { a.z + b.z as int } else { radiance_cap() },
        a.x == 0 && a.y == 0 && a.z == 0 ==> r == b,
{
    let x = if a.x + b.x <= 0x1_0000_0000_0000 {
        a.x + b.x
    } else {
        0x1_0000_0000_0000
    };
    let y = if a.y + b.y <= 0x1_0000_0000_0000 {
        a.y + b.y
    } else {
        0x1_0000_0000_0000
    };
    let z = if a.z + b.z <= 0x1_0000_0000_0000 {
        a.z + b.z
    } else {
        0x1_0000_0000_0000
    };
    Color { x, y, z }
}

/// The random draws for one whole path: one scatter's worth per
/// bounce, plus a sampled scatter direction for diffuse bounces. When
/// the stream runs dry the integrator falls back to deterministic
/// choices (a zero perturbation and the surface normal).
pub struct PathSampler {
    pub rands: Vec<ScatterRand>,
    pub dirs: Vec<Vec3>,
    pub at: usize,
}

/// The scatter draw the sampler yields at position `at`: the stored
/// one, or the deterministic fallback when the stream is exhausted.
pub open spec fn spec_rand_at(rands: Seq<ScatterRand>, at: int, normal: Vec3) -> ScatterRand {
    if 0 <= at < rands.len() {
        rands[at]
    } else {
        ScatterRand { perturb: Vec3 { x: 0, y: 0, z: 0 }, iso_dir: normal, coin: 0, light_u: 0, light_v: 0 }
    }
}

/// The diffuse direction at position `at`: the stored one unless it
/// is missing or zero, in which case the surface normal.
pub open spec fn spec_dir_at(dirs: Seq<Vec3>, at: int, normal: Vec3) -> Vec3 {
    if 0 <= at < dirs.len() && !(dirs[at].x == 0 && dirs[at].y == 0 && dirs[at].z == 0) {
        dirs[at]
    } else {
        normal
    }
}

/// The next stream position (saturating at the index type's end).
pub open spec fn spec_next_at(at: int) -> int {
    if at < usize::MAX - 1 {
        at + 1
    } else {
        at
    }
}

impl PathSampler {
    pub open spec fn wf(self) -> bool {
        &&& forall|i: int| 0 <= i < self.rands.len() ==> (#[trigger] self.rands[i]).wf()
        &&& forall|i: int| 0 <= i < self.dirs.len() ==> (#[trigger] self.dirs[i]).in_range(
            0x1000_0000,
        )
    }

    pub fn new(rands: Vec<ScatterRand>, dirs: Vec<Vec3>) -> (r: PathSampler)
        requires
            forall|i: int| 0 <= i < rands.len() ==> (#[trigger] rands[i]).wf(),
            forall|i: int| 0 <= i < dirs.len() ==> (#[trigger] dirs[i]).in_range(0x1000_0000),
        ensures
            r.wf(),
            r.rands == rands,
            r.dirs == dirs,
            r.at == 0,
    {
        PathSampler { rands, dirs, at: 0 }
    }

    fn next(&mut self, normal: Vec3) -> (r: (ScatterRand, Vec3))
        requires
            old(self).wf(),
            normal.in_range(1024),
        ensures
            final(self).wf(),
            r.0.wf(),
            r.1.in_range(0x1000_0000),
            r.0 == spec_rand_at(old(self).rands@, old(self).at as int, normal),
            r.1 == spec_dir_at(old(self).dirs@, old(self).at as int, normal),
            final(self).rands == old(self).rands,
            final(self).dirs == old(self).dirs,
            final(self).at == spec_next_at(old(self).at as int),
    {
        let i = self.at;
        self.at = if self.at < usize::MAX - 1 {
            self.at + 1
        } else {
            self.at
        };
        let rand = if i < self.rands.len() {
            self.rands[i]
        } else {
            ScatterRand { perturb: Vec3 { x: 0, y: 0, z: 0 }, iso_dir: normal, coin: 0, light_u: 0, light_v: 0 }
        };
        let dir = if i < self.dirs.len() && !(self.dirs[i].x == 0 && self.dirs[i].y == 0
            && self.dirs[i].z == 0) {
            self.dirs[i]
        } else {
            normal
        };
        (rand, dir)
    }
}

/// The summed density of the light set at a direction, each step
/// saturated at the radiance ceiling.
pub open spec fn spec_lights_sum(s: Seq<crate::hittable::Hittable>, o: Vec3, v: Vec3) -> int
    decreases s.len(),
{
    if s.len() == 0 {
        0
    } else {
        crate::pdf::spec_sat(
            spec_lights_sum(s.drop_last(), o, v) + crate::pdf::spec_shape_density(
                s.last(),
                o,
                v,
            ),
            0x1_0000_0000_0000,
        )
    }
}

/// The light set's density: the uniform average over its members.
pub open spec fn spec_lights_value(s: Seq<crate::hittable::Hittable>, o: Vec3, v: Vec3) -> int {
    if s.len() == 0 {
        0
    } else {
        crate::material::spec_div_tz(spec_lights_sum(s, o, v), s.len() as int)
    }
}

fn lights_value_q16(lights: &HittableList, o: Vec3, v: Vec3) -> (r: i64)
    requires
        lights.wf(),
        o.in_range(0x3000_0000),
        v.in_range(0x1000_0000),
    ensures
        r == spec_lights_value(lights.objects@, o, v),
        0 <= r <= 0x1_0000_0000_0000,
{
    let ghost s = lights.objects@;
    if lights.objects.len() == 0 {
        return 0;
    }
    let mut acc: i64 = 0;
    let mut i: usize = 0;
    proof {
        assert(s.take(0) =~= Seq::<crate::hittable::Hittable>::empty());
    }
    while i < lights.objects.len()
        invariant
            lights.wf(),
            o.in_range(0x3000_0000),
            v.in_range(0x1000_0000),
            s == lights.objects@,
            i <= s.len(),
            acc == spec_lights_sum(s.take(i as int), o, v),
            0 <= acc <= 0x1_0000_0000_0000,
        decreases s.len() - i,
    {
        let d = crate::pdf::shape_density(&lights.objects[i], o, v);
        proof {
            assert(s.take(i + 1).drop_last() =~= s.take(i as int));
            assert(s.take(i + 1).last() == s[i as int]);
        }
        let t = acc + d;
        acc = if t > 0x1_0000_0000_0000 {
            0x1_0000_0000_0000
        } else {
            t
        };
        i = i + 1;
    }
    proof {
        assert(s.take(s.len() as int) =~= s);
        assert(0 <= (acc as int) / (lights.objects.len() as int) <= acc) by (nonlinear_arith)
            requires
                acc >= 0,
                lights.objects.len() >= 1,
        ;
    }
    ((acc as u64) / (lights.objects.len() as u64)) as i64
}

/// The direction a light-sampling step takes, from given uniform
/// draws: the member picked by scaling `pick` (the strategy coin's
/// remaining bits, independent of the surface draws) over the count,
/// sampled at the surface draws, brought into the traceable range.
pub open spec fn spec_lights_dir(
    s: Seq<crate::hittable::Hittable>,
    o: Vec3,
    pick: int,
    u1: int,
    u2: int,
) -> Vec3 {
    if s.len() == 0 {
        Vec3 { x: 1, y: 0, z: 0 }
    } else {
        let idx = pick * (s.len() as int) / 32768;
        let sm = crate::pdf::spec_shape_sample(s[idx], o, u1, u2);
        crate::material::reduce_dir_spec(sm.x as int, sm.y as int, sm.z as int)
    }
}

fn lights_sample(lights: &HittableList, o: Vec3, pick: i64, u1: i64, u2: i64) -> (r: Vec3)
    requires
        lights.wf(),
        lights.objects.len() > 0,
        o.in_range(0x3000_0000),
        0 <= pick < 32768,
        0 <= u1 < 65536,
        0 <= u2 < 65536,
    ensures
        r == spec_lights_dir(lights.objects@, o, pick as int, u1 as int, u2 as int),
        r.in_range(0x1000_0000),
{
    proof {
        lemma_pick_index(pick as int, lights.objects.len() as int);
    }
    let idx = (((pick as u128) * (lights.objects.len() as u128)) / 32768) as usize;
    let sm = crate::pdf::shape_sample(&lights.objects[idx], o, u1, u2);
    crate::material::reduce_dir(sm.x as i128, sm.y as i128, sm.z as i128)
}

/// Scaling a sub-32768 draw over the member count lands on a valid
/// index.
proof fn lemma_pick_index(pick: int, len: int)
    requires
        0 <= pick < 32768,
        len >= 1,
    ensures
        0 <= pick * len / 32768 < len,
{
    assert(0 <= pick * len <= 32767 * len) by (nonlinear_arith)
        requires
            0 <= pick < 32768,
            len >= 1,
    ;
    vstd::arithmetic::div_mod::lemma_div_is_ordered(0, pick * len, 32768);
    vstd::arithmetic::div_mod::lemma_div_is_ordered(pick * len, 32767 * len, 32768);
    vstd::arithmetic::div_mod::lemma_multiply_divide_lt(32767 * len, len, 32768);
    assert(32767 * len < len * 32768) by (nonlinear_arith)
        requires
            len >= 1,
    ;
}

/// A radiance scaled by a Q16 estimator weight, channel-capped.
pub open spec fn spec_scale_weight(c: Color, w: int) -> Color {
    Color {
        x: spec_clamp_channel(crate::material::spec_div_tz(c.x * w, 65536), radiance_cap()) as i64,
        y: spec_clamp_channel(crate::material::spec_div_tz(c.y * w, 65536), radiance_cap()) as i64,
        z: spec_clamp_channel(crate::material::spec_div_tz(c.z * w, 65536), radiance_cap()) as i64,
    }
}

fn scale_weight(c: Color, w: i64) -> (r: Color)
    requires
        color_ok(c),
        0 <= w <= 0x1000_0000,
    ensures
        r == spec_scale_weight(c, w as int),
        color_ok(r),
        w == 65536 ==> r == c,
{
    proof {
        lemma_scale_weight_channel(c.x as int, w as int);
        lemma_scale_weight_channel(c.y as int, w as int);
        lemma_scale_weight_channel(c.z as int, w as int);
    }
    let x = ((c.x as i128) * (w as i128)) / 65536;
    let y = ((c.y as i128) * (w as i128)) / 65536;
    let z = ((c.z as i128) * (w as i128)) / 65536;
    Color {
        x: if x > 0x1_0000_0000_0000 {
            0x1_0000_0000_0000
        } else {
            x as i64
        },
        y: if y > 0x1_0000_0000_0000 {
            0x1_0000_0000_0000
        } else {
            y as i64
        },
        z: if z > 0x1_0000_0000_0000 {
            0x1_0000_0000_0000
        } else {
            z as i64
        },
    }
}

/// The scaled channel is nonnegative, and the unit weight is exact.
proof fn lemma_scale_weight_channel(c: int, w: int)
    requires
        0 <= c <= radiance_cap(),
        0 <= w <= 0x1000_0000,
    ensures
        0 <= c * w,
        c * w <= 0x1_0000_0000_0000 * 0x1000_0000,
        0 <= c * w / 65536,
        crate::material::spec_div_tz(c * w, 65536) == c * w / 65536,
        w == 65536 ==> c * w / 65536 == c,
{
    assert(0 <= c * w <= 0x1_0000_0000_0000 * 0x1000_0000) by (nonlinear_arith)
        requires
            0 <= c <= 0x1_0000_0000_0000,
            0 <= w <= 0x1000_0000,
    ;
    vstd::arithmetic::div_mod::lemma_div_is_ordered(0, c * w, 65536);
    if w == 65536 {
        vstd::arithmetic::div_mod::lemma_div_multiples_vanish(c, 65536);
        assert(c * 65536 == 65536 * c) by (nonlinear_arith);
    }
}

/// One radiance estimate, as a mathematical function of the scene,
/// the ray and the sampler's stored draws: exactly what `ray_color`
/// computes, bounce by bounce. The second component is the stream
/// position after the path.
pub open spec fn spec_ray_color(
    r: Ray,
    background: Color,
    objs: Seq<crate::hittable::Hittable>,
    lights: Seq<crate::hittable::Hittable>,
    tab: ImageTable,
    t_min: Frac,
    t_max: Frac,
    depth: nat,
    rands: Seq<ScatterRand>,
    dirs: Seq<Vec3>,
    at: int,
) -> (Color, int)
    decreases depth,
{
    if depth == 0 {
        (Color { x: 0i64, y: 0i64, z: 0i64 }, at)
    } else {
        match list_hit(objs, r, t_min, t_max) {
            Option::None => (background, at),
            Option::Some(rec) => {
                let p = spec_hit_point(r, rec.t);
                let emitted = spec_clamp_color(rec.mat.spec_emitted(rec, rec.u, rec.v, tab));
                let rand = spec_rand_at(rands, at, rec.normal);
                let sdir = spec_dir_at(dirs, at, rec.normal);
                let at1 = spec_next_at(at);
                match rec.mat.spec_scatter(r, rec, p, tab, rand) {
                    ScatterResult::Absorbed => (emitted, at1),
                    ScatterResult::Specular(sr) => {
                        let inner = spec_ray_color(
                            spec_clamp_ray(sr.specular_ray),
                            background,
                            objs,
                            lights,
                            tab,
                            t_min,
                            t_max,
                            (depth - 1) as nat,
                            rands,
                            dirs,
                            at1,
                        );
                        (
                            spec_add_clamped(
                                emitted,
                                spec_attenuate(spec_clamp_albedo(sr.attenuation), inner.0),
                            ),
                            inner.1,
                        )
                    },
                    ScatterResult::Diffuse { attenuation, normal } => {
                        // One-sample importance sampling: half the
                        // draws aim at the registered lights, half
                        // follow the cosine strategy, and the sample
                        // is weighted by the scattering density over
                        // the mixture density. A zero mixture or a
                        // below-surface direction contributes nothing
                        // beyond the emission.
                        let use_light = lights.len() > 0 && rand.coin < 32768;
                        let dir = if use_light {
                            spec_lights_dir(
                                lights,
                                p,
                                rand.coin as int,
                                rand.light_u as int,
                                rand.light_v as int,
                            )
                        } else {
                            sdir
                        };
                        let cos_pi = (CosinePdf { w: normal }).spec_value_pi(dir);
                        let cos_plain = crate::material::spec_div_tz(cos_pi * 65536, 205887);
                        let mix = if lights.len() > 0 {
                            crate::material::spec_div_tz(
                                spec_lights_value(lights, p, dir) + cos_plain,
                                2,
                            )
                        } else {
                            cos_plain
                        };
                        if mix <= 0 || cos_plain <= 0 {
                            (emitted, at1)
                        } else {
                            let w0 = crate::material::spec_div_tz(cos_plain * 65536, mix);
                            let w = if w0 > 0x1000_0000 {
                                0x1000_0000int
                            } else {
                                w0
                            };
                            let inner = spec_ray_color(
                                Ray { orig: p, dir, tm: r.tm },
                                background,
                                objs,
                                lights,
                                tab,
                                t_min,
                                t_max,
                                (depth - 1) as nat,
                                rands,
                                dirs,
                                at1,
                            );
                            (
                                spec_add_clamped(
                                    emitted,
                                    spec_attenuate(
                                        spec_clamp_albedo(attenuation),
                                        spec_scale_weight(inner.0, w),
                                    ),
                                ),
                                inner.1,
                            )
                        }
                    },
                }
            },
        }
    }
}

/// One radiance estimate along a ray: emitted light plus the
/// attenuated radiance of the scattered continuation, cut off at the
/// depth bound. Diffuse bounces use one-sample multiple importance
/// sampling: an even coin picks between aiming at the registered
/// lights and the cosine strategy, and the contribution carries the
/// weight scattering density / mixture density, zero-guarded. With no
/// registered lights the weight cancels to exactly one and the
/// estimator reduces to plain attenuation of the cosine-sampled
/// bounce.
pub fn ray_color(
    r: &Ray,
    background: Color,
    world: &HittableList,
    lights: &HittableList,
    tab: &ImageTable,
    t_min: Frac,
    t_max: Frac,
    depth: u32,
    sampler: &mut PathSampler,
) -> (res: Color)
    requires
        r.orig.in_range(0x3000_0000),
        r.dir.in_range(0x1000_0000),
        world.wf(),
        lights.wf(),
        forall|i: int|
            0 <= i < world.objects.len() ==> mats_wf(#[trigger] world.objects[i], *tab),
        tab.wf(),
        t_min.wf(),
        t_max.wf(),
        color_ok(background),
        old(sampler).wf(),
    ensures
        final(sampler).wf(),
        final(sampler).rands == old(sampler).rands,
        final(sampler).dirs == old(sampler).dirs,
        color_ok(res),
        ({
            let full = spec_ray_color(
                *r,
                background,
                world.objects@,
                lights.objects@,
                *tab,
                t_min,
                t_max,
                depth as nat,
                old(sampler).rands@,
                old(sampler).dirs@,
                old(sampler).at as int,
            );
            res == full.0 && final(sampler).at as int == full.1
        }),
        depth == 0 ==> res == (Color { x: 0i64, y: 0i64, z: 0i64 }),
        depth > 0 && list_hit(world.objects@, *r, t_min, t_max) is None ==> res == background,
    decreases depth,
{
    if depth == 0 {
        return Color { x: 0, y: 0, z: 0 };
    }
    let hit = world.hit(r, t_min, t_max);
    match hit {
        Option::None => background,
        Option::Some(rec) => {
            proof {
                lemma_hit_material_wf(world.objects@, *r, t_min, t_max, *tab);
                crate::hittable_list::lemma_list_hit_member(world.objects@, *r, t_min, t_max);
                lemma_record_props(world.objects@, *r, t_min, t_max);
            }
            let p = hit_point(r, rec.t);
            let emitted = clamp_color(rec.mat.emitted(r, &rec, rec.u, rec.v, tab));
            let (rand, sdir) = sampler.next(rec.normal);
            match rec.mat.scatter(r, &rec, p, tab, &rand) {
                ScatterResult::Absorbed => emitted,
                ScatterResult::Specular(sr) => {
                    let next = clamp_ray(&sr.specular_ray);
                    let inner = ray_color(
                        &next,
                        background,
                        world,
                        lights,
                        tab,
                        t_min,
                        t_max,
                        depth - 1,
                        sampler,
                    );
                    add_clamped(emitted, attenuate(clamp_albedo(sr.attenuation), inner))
                },
                ScatterResult::Diffuse { attenuation, normal } => {
                    let use_light = lights.objects.len() > 0 && rand.coin < 32768;
                    let dir = if use_light {
                        lights_sample(lights, p, rand.coin, rand.light_u, rand.light_v)
                    } else {
                        sdir
                    };
                    let cos_pi = CosinePdf::new(normal).value_pi_q16(dir);
                    let cos_plain = div_tz_i128((cos_pi as i128) * 65536, 205887) as i64;
                    let mix = if lights.objects.len() > 0 {
                        let lv = lights_value_q16(lights, p, dir);
                        div_tz_i128((lv as i128) + (cos_plain as i128), 2) as i64
                    } else {
                        cos_plain
                    };
                    if mix <= 0 || cos_plain <= 0 {
                        emitted
                    } else {
                        let w0 = div_tz_i128((cos_plain as i128) * 65536, mix as i128);
                        let w: i64 = if w0 > 0x1000_0000 {
                            0x1000_0000
                        } else {
                            w0 as i64
                        };
                        let next = Ray { orig: p, dir, tm: r.time() };
                        let inner = ray_color(
                            &next,
                            background,
                            world,
                            lights,
                            tab,
                            t_min,
                            t_max,
                            depth - 1,
                            sampler,
                        );
                        add_clamped(
                            emitted,
                            attenuate(clamp_albedo(attenuation), scale_weight(inner, w)),
                        )
                    }
                },
            }
        },
    }
}

/// Every material reachable in the primitive is valid against the
/// image table.
pub open spec fn mats_wf(h: crate::hittable::Hittable, tab: ImageTable) -> bool
    decreases h,
{
    match h {
        crate::hittable::Hittable::Sphere(s) => s.mat_ptr.wf(tab),
        crate::hittable::Hittable::XY(s) => s.mp.wf(tab),
        crate::hittable::Hittable::XZ(s) => s.mp.wf(tab),
        crate::hittable::Hittable::YZ(s) => s.mp.wf(tab),
        crate::hittable::Hittable::Cube(c) => c.side_xy1.mp.wf(tab) && c.side_xy0.mp.wf(tab)
            && c.side_xz1.mp.wf(tab) && c.side_xz0.mp.wf(tab) && c.side_yz1.mp.wf(tab)
            && c.side_yz0.mp.wf(tab),
        crate::hittable::Hittable::Translate(t) => mats_wf(*t.ptr, tab),
        crate::hittable::Hittable::Flip(f) => mats_wf(*f.ptr, tab),
    }
}

/// A hit record carries one of the primitive's materials.
proof fn lemma_prim_mat_wf(
    h: crate::hittable::Hittable,
    r: Ray,
    t_min: Frac,
    t_max: Frac,
    tab: ImageTable,
)
    requires
        mats_wf(h, tab),
    ensures
        h.spec_hit(r, t_min, t_max) matches Option::Some(rec) ==> rec.mat.wf(tab),
    decreases h,
{
    match h {
        crate::hittable::Hittable::Translate(t) => {
            let moved = Ray {
                orig: Vec3 {
                    x: (r.orig.x - t.offset.x) as i64,
                    y: (r.orig.y - t.offset.y) as i64,
                    z: (r.orig.z - t.offset.z) as i64,
                },
                dir: r.dir,
                tm: r.tm,
            };
            lemma_prim_mat_wf(*t.ptr, moved, t_min, t_max, tab);
        },
        crate::hittable::Hittable::Flip(f) => {
            lemma_prim_mat_wf(*f.ptr, r, t_min, t_max, tab);
        },
        _ => {},
    }
}

/// The aggregate's record carries a material of one of its members.
proof fn lemma_hit_material_wf(
    s: Seq<crate::hittable::Hittable>,
    r: Ray,
    t_min: Frac,
    t_max: Frac,
    tab: ImageTable,
)
    requires
        forall|i: int| 0 <= i < s.len() ==> mats_wf(#[trigger] s[i], tab),
    ensures
        list_hit(s, r, t_min, t_max) matches Option::Some(rec) ==> rec.mat.wf(tab),
{
    if list_hit(s, r, t_min, t_max) is Some {
        crate::hittable_list::lemma_list_hit_member(s, r, t_min, t_max);
        let j = choose|j: int|
            0 <= j < s.len() && s[j].spec_hit(r, t_min, t_max) == list_hit(s, r, t_min, t_max);
        lemma_prim_mat_wf(s[j], r, t_min, t_max, tab);
    }
}

/// Records from the aggregate are well-formed.
proof fn lemma_record_props(s: Seq<crate::hittable::Hittable>, r: Ray, t_min: Frac, t_max: Frac)
    requires
        forall|i: int| 0 <= i < s.len() ==> (#[trigger] s[i]).wf(),
        r.orig.in_range(0x3000_0000),
        r.dir.in_range(0x1000_0000),
        t_min.wf(),
        t_max.wf(),
    ensures
        list_hit(s, r, t_min, t_max) matches Option::Some(rec) ==> rec.wf(),
{
    if list_hit(s, r, t_min, t_max) is Some {
        crate::hittable_list::lemma_list_hit_member(s, r, t_min, t_max);
        let j = choose|j: int|
            0 <= j < s.len() && s[j].spec_hit(r, t_min, t_max) == list_hit(s, r, t_min, t_max);
        crate::hittable::lemma_hit_props(s[j], r, t_min, t_max, 0x1000_0000);
    }
}

/// The ray's point at the hit parameter, rounded toward zero and
/// clamped into the scene's coordinate range.
/// The ray's point at the hit parameter: each coordinate is the
/// truncated quotient of the exact numerator by the denominator,
/// clamped into the traceable range.
pub open spec fn spec_hit_point(r: Ray, t: Frac) -> Vec3 {
    Vec3 {
        x: spec_clamp_coord(
            crate::material::spec_div_tz(r.spec_at_num(0, t.num as int, t.den as int), t.den as int),
        ),
        y: spec_clamp_coord(
            crate::material::spec_div_tz(r.spec_at_num(1, t.num as int, t.den as int), t.den as int),
        ),
        z: spec_clamp_coord(
            crate::material::spec_div_tz(r.spec_at_num(2, t.num as int, t.den as int), t.den as int),
        ),
    }
}

pub fn hit_point(r: &Ray, t: Frac) -> (p: Vec3)
    requires
        r.orig.in_range(0x3000_0000),
        r.dir.in_range(0x1000_0000),
        t.wf(),
    ensures
        p == spec_hit_point(*r, t),
        p.in_range(0x3000_0000),
{
    proof {
        crate::vec3::lemma_mul_bound2(r.orig.x as int, t.den as int, 0x4000_0000, 0x7fff_ffff_ffff_ffff);
        crate::vec3::lemma_mul_bound2(r.orig.y as int, t.den as int, 0x4000_0000, 0x7fff_ffff_ffff_ffff);
        crate::vec3::lemma_mul_bound2(r.orig.z as int, t.den as int, 0x4000_0000, 0x7fff_ffff_ffff_ffff);
        crate::vec3::lemma_mul_bound2(t.num as int, r.dir.x as int, 0x8000_0000_0000_0000, 0x1000_0000);
        crate::vec3::lemma_mul_bound2(t.num as int, r.dir.y as int, 0x8000_0000_0000_0000, 0x1000_0000);
        crate::vec3::lemma_mul_bound2(t.num as int, r.dir.z as int, 0x8000_0000_0000_0000, 0x1000_0000);
    }
    let (nx, ny, nz) = r.at(t);
    let px = clamp_coord(div_tz_i128(nx, t.den as i128));
    let py = clamp_coord(div_tz_i128(ny, t.den as i128));
    let pz = clamp_coord(div_tz_i128(nz, t.den as i128));
    Vec3 { x: px, y: py, z: pz }
}

fn div_tz_i128(n: i128, d: i128) -> (r: i128)
    requires
        d > 0,
        -0x1_0000_0000_0000_0000_0000_0000_0000 <= n <= 0x1_0000_0000_0000_0000_0000_0000_0000,
    ensures
        r == crate::material::spec_div_tz(n as int, d as int),
        n >= 0 ==> 0 <= r <= n,
        n < 0 ==> n <= r <= 0,
{
    proof {
        if n >= 0 {
            assert(0 <= (n as int) / (d as int) <= n) by (nonlinear_arith)
                requires
                    n >= 0,
                    d > 0,
            ;
        } else {
            assert(0 <= (-(n as int)) / (d as int) <= -n) by (nonlinear_arith)
                requires
                    n < 0,
                    d > 0,
            ;
        }
    }
    if n >= 0 {
        ((n as u128) / (d as u128)) as i128
    } else {
        -((((-n) as u128) / (d as u128)) as i128)
    }
}

/// A coordinate clamped into the traceable origin range.
pub open spec fn spec_clamp_coord(v: int) -> i64 {
    if v < -0x3000_0000 {
        (-0x3000_0000) as i64
    } else if v > 0x3000_0000 {
        0x3000_0000 as i64
    } else {
        v as i64
    }
}

fn clamp_coord(v: i128) -> (r: i64)
    ensures
        r == spec_clamp_coord(v as int),
        -0x3000_0000 <= r <= 0x3000_0000,
        -0x3000_0000 <= v <= 0x3000_0000 ==> r as i128 == v,
{
    if v < -0x3000_0000 {
        -0x3000_0000
    } else if v > 0x3000_0000 {
        0x3000_0000
    } else {
        v as i64
    }
}

fn clamp_color(c: Color) -> (r: Color)
    ensures
        r == spec_clamp_color(c),
        color_ok(r),
        color_ok(c) ==> r == c,
{
    Color {
        x: if c.x < 0 {
            0
        } else if c.x > 0x1_0000_0000_0000 {
            0x1_0000_0000_0000
        } else {
            c.x
        },
        y: if c.y < 0 {
            0
        } else if c.y > 0x1_0000_0000_0000 {
            0x1_0000_0000_0000
        } else {
            c.y
        },
        z: if c.z < 0 {
            0
        } else if c.z > 0x1_0000_0000_0000 {
            0x1_0000_0000_0000
        } else {
            c.z
        },
    }
}

fn clamp_albedo(c: Color) -> (r: Color)
    ensures
        r == spec_clamp_albedo(c),
        0 <= r.x <= 65536,
        0 <= r.y <= 65536,
        0 <= r.z <= 65536,
        0 <= c.x <= 65536 && 0 <= c.y <= 65536 && 0 <= c.z <= 65536 ==> r == c,
{
    Color {
        x: if c.x < 0 {
            0
        } else if c.x > 65536 {
            65536
        } else {
            c.x
        },
        y: if c.y < 0 {
            0
        } else if c.y > 65536 {
            65536
        } else {
            c.y
        },
        z: if c.z < 0 {
            0
        } else if c.z > 65536 {
            65536
        } else {
            c.z
        },
    }
}

/// The ray handed back by a scatter, its origin clamped into range so
/// the recursion's preconditions hold structurally.
/// The scattered ray with its origin clamped into the traceable
/// range.
pub open spec fn spec_clamp_ray(r: Ray) -> Ray {
    Ray {
        orig: Vec3 {
            x: spec_clamp_coord(r.orig.x as int),
            y: spec_clamp_coord(r.orig.y as int),
            z: spec_clamp_coord(r.orig.z as int),
        },
        dir: r.dir,
        tm: r.tm,
    }
}

fn clamp_ray(r: &Ray) -> (res: Ray)
    requires
        r.dir.in_range(0x1000_0000),
    ensures
        res == spec_clamp_ray(*r),
        res.orig.in_range(0x3000_0000),
        res.dir.in_range(0x1000_0000),
        r.orig.in_range(0x3000_0000) ==> res == *r,
{
    Ray {
        orig: Vec3 {
            x: clamp_coord(r.orig.x as i128),
            y: clamp_coord(r.orig.y as i128),
            z: clamp_coord(r.orig.z as i128),
        },
        dir: r.dir,
        tm: r.tm,
    }
}

} // verus!
