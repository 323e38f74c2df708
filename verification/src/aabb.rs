use vstd::prelude::*;

use crate::frac::{lemma_pair_le_trans, pair_le, pair_lt, Frac};
use crate::ray::Ray;
use crate::vec3::{Point3, Vec3};

verus! {

/// An axis-aligned bounding box given by its two corners. Degenerate
/// (zero-thickness) boxes are legal; the exact slab test below treats
/// its parametric window as closed, so a flat box needs no epsilon
/// padding to be found.
#[derive(Clone, Copy, Debug)]
pub struct Aabb {
    pub min: Point3,
    pub max: Point3,
}

impl Aabb {
    pub open spec fn wf(self) -> bool {
        &&& self.min.coord_ok()
        &&& self.max.coord_ok()
        &&& self.min.x <= self.max.x
        &&& self.min.y <= self.max.y
        &&& self.min.z <= self.max.z
    }

    pub fn new(min: Point3, max: Point3) -> (r: Aabb)
        requires
            min.coord_ok(),
            max.coord_ok(),
            min.x <= max.x,
            min.y <= max.y,
            min.z <= max.z,
        ensures
            r.min == min,
            r.max == max,
            r.wf(),
    {
        Aabb { min, max }
    }

    pub fn min(&self) -> (r: Point3)
        ensures
            r == self.min,
    {
        self.min
    }

    pub fn max(&self) -> (r: Point3)
        ensures
            r == self.max,
    {
        self.max
    }

    /// The point of `r` at parameter `tn/td` lies between the box
    /// walls on axis `a` (everything scaled by the positive `td`).
    pub open spec fn axis_ok_at(self, r: Ray, a: int, tn: int, td: int) -> bool {
        &&& self.min.spec_axis(a) * td <= r.spec_at_num(a, tn, td)
        &&& r.spec_at_num(a, tn, td) <= self.max.spec_axis(a) * td
    }

    /// What it means for a ray to meet the box within the parametric
    /// window `[tmin, tmax]`: some rational parameter `tn/td` inside
    /// the window puts the ray's point between the walls on all three
    /// axes. `hit` below decides exactly this.
    pub open spec fn hit_sem(self, r: Ray, tmin: Frac, tmax: Frac) -> bool {
        exists|tn: int, td: int|
            td > 0 && pair_le(tmin.num as int, tmin.den as int, tn, td) && pair_le(
                tn,
                td,
                tmax.num as int,
                tmax.den as int,
            ) && self.axis_ok_at(r, 0, tn, td) && self.axis_ok_at(r, 1, tn, td)
                && self.axis_ok_at(r, 2, tn, td)
    }

    /// Whether every point of `inner` lies within `self`.
    pub open spec fn encloses(self, inner: Aabb) -> bool {
        &&& self.min.x <= inner.min.x
        &&& self.min.y <= inner.min.y
        &&& self.min.z <= inner.min.z
        &&& inner.max.x <= self.max.x
        &&& inner.max.y <= self.max.y
        &&& inner.max.z <= self.max.z
    }

    /// The slab test: on each axis, intersect the running parametric
    /// window with the interval between the entry and exit distances;
    /// the ray meets the box exactly when the window stays nonempty.
    pub fn hit(&self, r: &Ray, t_min: Frac, t_max: Frac) -> (res: bool)
        requires
            self.wf(),
            r.wf(),
            t_min.wf(),
            t_max.wf(),
        ensures
            res == self.hit_sem(*r, t_min, t_max),
    {
        let o = slab_axis(self.min.x, self.max.x, r.orig.x, r.dir.x, t_min, t_max);
        let (lo1, hi1) = match o {
            None => {
                proof {
                    lemma_flat_axis_reject(*self, *r, 0, t_min, t_max);
                }
                return false;
            },
            Some(p) => p,
        };
        let o = slab_axis(self.min.y, self.max.y, r.orig.y, r.dir.y, lo1, hi1);
        let (lo2, hi2) = match o {
            None => {
                proof {
                    lemma_flat_axis_reject(*self, *r, 1, t_min, t_max);
                }
                return false;
            },
            Some(p) => p,
        };
        let o = slab_axis(self.min.z, self.max.z, r.orig.z, r.dir.z, lo2, hi2);
        let (lo3, hi3) = match o {
            None => {
                proof {
                    lemma_flat_axis_reject(*self, *r, 2, t_min, t_max);
                }
                return false;
            },
            Some(p) => p,
        };
        let res = lo3.le(&hi3);
        proof {
            lemma_slab_exact(
                *self,
                *r,
                t_min,
                t_max,
                lo1,
                hi1,
                lo2,
                hi2,
                lo3,
                hi3,
                res,
            );
        }
        res
    }
}

/// The entry distance of the ray into the slab of axis walls `min_c`
/// and `max_c` (origin coordinate `o`, direction coordinate `d != 0`),
/// normalized so the denominator is positive.
pub open spec fn entry_frac(min_c: i64, max_c: i64, o: i64, d: i64) -> Frac {
    if d > 0 {
        Frac { num: (min_c - o) as i64, den: d }
    } else {
        Frac { num: (o - max_c) as i64, den: (-d) as i64 }
    }
}

/// The exit distance out of the same slab.
pub open spec fn exit_frac(min_c: i64, max_c: i64, o: i64, d: i64) -> Frac {
    if d > 0 {
        Frac { num: (max_c - o) as i64, den: d }
    } else {
        Frac { num: (o - min_c) as i64, den: (-d) as i64 }
    }
}

/// One axis of the slab test. `None` rejects (only for a ray parallel
/// to the slab, outside its walls); otherwise the window `[lo, hi]`
/// shrinks by the entry/exit interval of this axis.
fn slab_axis(min_c: i64, max_c: i64, o: i64, d: i64, lo: Frac, hi: Frac) -> (res: Option<
    (Frac, Frac),
>)
    requires
        lo.wf(),
        hi.wf(),
        -0x4000_0000 <= min_c <= 0x4000_0000,
        -0x4000_0000 <= max_c <= 0x4000_0000,
        -0x4000_0000 <= o <= 0x4000_0000,
        -0x4000_0000 <= d <= 0x4000_0000,
    ensures
        match res {
            None => d == 0 && !(min_c <= o && o <= max_c),
            Some(p) => {
                &&& p.0.wf()
                &&& p.1.wf()
                &&& (d == 0 ==> min_c <= o && o <= max_c && p.0 == lo && p.1 == hi)
                &&& (d != 0 ==> {
                    let ef = entry_frac(min_c, max_c, o, d);
                    let xf = exit_frac(min_c, max_c, o, d);
                    &&& (p.0 == lo || p.0 == ef)
                    &&& lo.spec_le(p.0)
                    &&& ef.spec_le(p.0)
                    &&& (p.1 == hi || p.1 == xf)
                    &&& p.1.spec_le(hi)
                    &&& p.1.spec_le(xf)
                })
            },
        },
{
    if d == 0 {
        if o < min_c || o > max_c {
            None
        } else {
            Some((lo, hi))
        }
    } else {
        let (en, ed, xn, xd) = if d > 0 {
            (min_c - o, d, max_c - o, d)
        } else {
            (o - max_c, -d, o - min_c, -d)
        };
        let ef = Frac::new(en, ed);
        let xf = Frac::new(xn, xd);
        Some((lo.fmax(ef), hi.fmin(xf)))
    }
}

/// A ray parallel to one slab and outside its walls meets the box at
/// no parameter at all.
proof fn lemma_flat_axis_reject(b: Aabb, r: Ray, a: int, tmin: Frac, tmax: Frac)
    requires
        b.wf(),
        r.wf(),
        0 <= a < 3,
        r.dir.spec_axis(a) == 0,
        !(b.min.spec_axis(a) <= r.orig.spec_axis(a) && r.orig.spec_axis(a) <= b.max.spec_axis(a)),
    ensures
        !b.hit_sem(r, tmin, tmax),
{
    assert forall|tn: int, td: int| td > 0 implies !b.axis_ok_at(r, a, tn, td) by {
        let m = b.min.spec_axis(a);
        let x = b.max.spec_axis(a);
        let oc = r.orig.spec_axis(a);
        assert(r.spec_at_num(a, tn, td) == oc * td);
        if m > oc {
            assert(m * td > oc * td) by (nonlinear_arith)
                requires
                    m > oc,
                    td > 0,
            ;
        } else {
            assert(x < oc);
            assert(x * td < oc * td) by (nonlinear_arith)
                requires
                    x < oc,
                    td > 0,
            ;
        }
    }
}

/// On an axis the ray crosses (`d != 0`), being between the walls at
/// parameter `tn/td` is the same as lying between the entry and exit
/// distances.
proof fn lemma_axis_char(min_c: i64, max_c: i64, o: i64, d: i64, tn: int, td: int)
    requires
        td > 0,
        d != 0,
        -0x4000_0000 <= min_c <= 0x4000_0000,
        -0x4000_0000 <= max_c <= 0x4000_0000,
        -0x4000_0000 <= o <= 0x4000_0000,
        -0x4000_0000 <= d <= 0x4000_0000,
    ensures
        ({
            let ef = entry_frac(min_c, max_c, o, d);
            let xf = exit_frac(min_c, max_c, o, d);
            (pair_le(ef.num as int, ef.den as int, tn, td) && pair_le(
                tn,
                td,
                xf.num as int,
                xf.den as int,
            )) == (min_c * td <= o * td + tn * d && o * td + tn * d <= max_c * td)
        }),
{
    if d > 0 {
        assert((min_c - o) * td == min_c * td - o * td) by (nonlinear_arith);
        assert((max_c - o) * td == max_c * td - o * td) by (nonlinear_arith);
    } else {
        assert((o - max_c) * td == o * td - max_c * td) by (nonlinear_arith);
        assert((o - min_c) * td == o * td - min_c * td) by (nonlinear_arith);
        assert(tn * (-d) == -(tn * d)) by (nonlinear_arith);
    }
}

/// The slab test just computed decides `hit_sem` exactly.
#[verifier::spinoff_prover]
proof fn lemma_slab_exact(
    b: Aabb,
    r: Ray,
    tmin: Frac,
    tmax: Frac,
    lo1: Frac,
    hi1: Frac,
    lo2: Frac,
    hi2: Frac,
    lo3: Frac,
    hi3: Frac,
    res: bool,
)
    requires
        b.wf(),
        r.wf(),
        tmin.wf(),
        tmax.wf(),
        lo1.wf(),
        hi1.wf(),
        lo2.wf(),
        hi2.wf(),
        lo3.wf(),
        hi3.wf(),
        axis_stage_ok(b.min.x, b.max.x, r.orig.x, r.dir.x, tmin, tmax, lo1, hi1),
        axis_stage_ok(b.min.y, b.max.y, r.orig.y, r.dir.y, lo1, hi1, lo2, hi2),
        axis_stage_ok(b.min.z, b.max.z, r.orig.z, r.dir.z, lo2, hi2, lo3, hi3),
        res == lo3.spec_le(hi3),
    ensures
        res == b.hit_sem(r, tmin, tmax),
{
    let dx = r.dir.x;
    let dy = r.dir.y;
    let dz = r.dir.z;
    if res {
        let tn = lo3.num as int;
        let td = lo3.den as int;
        // The window only ever shrinks, so lo3 is inside [tmin, tmax]
        // and inside every axis interval.
        lemma_pair_le_trans(
            lo3.num as int,
            lo3.den as int,
            hi3.num as int,
            hi3.den as int,
            hi2.num as int,
            hi2.den as int,
        );
        lemma_pair_le_trans(
            lo3.num as int,
            lo3.den as int,
            hi2.num as int,
            hi2.den as int,
            hi1.num as int,
            hi1.den as int,
        );
        lemma_pair_le_trans(
            lo3.num as int,
            lo3.den as int,
            hi1.num as int,
            hi1.den as int,
            tmax.num as int,
            tmax.den as int,
        );
        lemma_pair_le_trans(
            tmin.num as int,
            tmin.den as int,
            lo1.num as int,
            lo1.den as int,
            lo2.num as int,
            lo2.den as int,
        );
        lemma_pair_le_trans(
            tmin.num as int,
            tmin.den as int,
            lo2.num as int,
            lo2.den as int,
            lo3.num as int,
            lo3.den as int,
        );
        assert(pair_le(tmin.num as int, tmin.den as int, tn, td));
        assert(pair_le(tn, td, tmax.num as int, tmax.den as int));
        // Axis x.
        if dx == 0 {
            lemma_flat_axis_inside(b, r, 0, tn, td);
        } else {
            let ef = entry_frac(b.min.x, b.max.x, r.orig.x, dx);
            let xf = exit_frac(b.min.x, b.max.x, r.orig.x, dx);
            lemma_pair_le_trans(
                ef.num as int,
                ef.den as int,
                lo1.num as int,
                lo1.den as int,
                lo2.num as int,
                lo2.den as int,
            );
            lemma_pair_le_trans(
                ef.num as int,
                ef.den as int,
                lo2.num as int,
                lo2.den as int,
                lo3.num as int,
                lo3.den as int,
            );
            lemma_pair_le_trans(
                lo3.num as int,
                lo3.den as int,
                hi3.num as int,
                hi3.den as int,
                hi2.num as int,
                hi2.den as int,
            );
            lemma_pair_le_trans(
                lo3.num as int,
                lo3.den as int,
                hi2.num as int,
                hi2.den as int,
                hi1.num as int,
                hi1.den as int,
            );
            lemma_pair_le_trans(
                lo3.num as int,
                lo3.den as int,
                hi1.num as int,
                hi1.den as int,
                xf.num as int,
                xf.den as int,
            );
            lemma_axis_char(b.min.x, b.max.x, r.orig.x, dx, tn, td);
        }
        // Axis y.
        if dy == 0 {
            lemma_flat_axis_inside(b, r, 1, tn, td);
        } else {
            let ef = entry_frac(b.min.y, b.max.y, r.orig.y, dy);
            let xf = exit_frac(b.min.y, b.max.y, r.orig.y, dy);
            lemma_pair_le_trans(
                ef.num as int,
                ef.den as int,
                lo2.num as int,
                lo2.den as int,
                lo3.num as int,
                lo3.den as int,
            );
            lemma_pair_le_trans(
                lo3.num as int,
                lo3.den as int,
                hi3.num as int,
                hi3.den as int,
                hi2.num as int,
                hi2.den as int,
            );
            lemma_pair_le_trans(
                lo3.num as int,
                lo3.den as int,
                hi2.num as int,
                hi2.den as int,
                xf.num as int,
                xf.den as int,
            );
            lemma_axis_char(b.min.y, b.max.y, r.orig.y, dy, tn, td);
        }
        // Axis z.
        if dz == 0 {
            lemma_flat_axis_inside(b, r, 2, tn, td);
        } else {
            let ef = entry_frac(b.min.z, b.max.z, r.orig.z, dz);
            let xf = exit_frac(b.min.z, b.max.z, r.orig.z, dz);
            lemma_pair_le_trans(
                lo3.num as int,
                lo3.den as int,
                hi3.num as int,
                hi3.den as int,
                xf.num as int,
                xf.den as int,
            );
            lemma_axis_char(b.min.z, b.max.z, r.orig.z, dz, tn, td);
        }
        assert(b.axis_ok_at(r, 0, tn, td));
        assert(b.axis_ok_at(r, 1, tn, td));
        assert(b.axis_ok_at(r, 2, tn, td));
    } else {
        // The window came out empty: any parameter in [tmin, tmax]
        // that passes all three axes would have to sit both at or
        // above lo3 and at or below hi3, yet hi3 < lo3.
        assert(pair_lt(hi3.num as int, hi3.den as int, lo3.num as int, lo3.den as int));
        assert forall|tn: int, td: int|
            td > 0 && pair_le(tmin.num as int, tmin.den as int, tn, td) && pair_le(
                tn,
                td,
                tmax.num as int,
                tmax.den as int,
            ) implies !(b.axis_ok_at(r, 0, tn, td) && b.axis_ok_at(r, 1, tn, td) && b.axis_ok_at(
            r,
            2,
            tn,
            td,
        )) by {
            if b.axis_ok_at(r, 0, tn, td) && b.axis_ok_at(r, 1, tn, td) && b.axis_ok_at(
                r,
                2,
                tn,
                td,
            ) {
                // lo3 is one of tmin or an entry distance, and the
                // parameter is at or above each of those.
                if dx != 0 {
                    lemma_axis_char(b.min.x, b.max.x, r.orig.x, dx, tn, td);
                }
                if dy != 0 {
                    lemma_axis_char(b.min.y, b.max.y, r.orig.y, dy, tn, td);
                }
                if dz != 0 {
                    lemma_axis_char(b.min.z, b.max.z, r.orig.z, dz, tn, td);
                }
                assert(pair_le(lo3.num as int, lo3.den as int, tn, td));
                assert(pair_le(tn, td, hi3.num as int, hi3.den as int));
                lemma_pair_le_trans(
                    lo3.num as int,
                    lo3.den as int,
                    tn,
                    td,
                    hi3.num as int,
                    hi3.den as int,
                );
                assert(false);
            }
        }
    }
}

/// What `slab_axis` guarantees of one stage, shared by the proof above.
pub open spec fn axis_stage_ok(
    min_c: i64,
    max_c: i64,
    o: i64,
    d: i64,
    lo: Frac,
    hi: Frac,
    nlo: Frac,
    nhi: Frac,
) -> bool {
    &&& (d == 0 ==> min_c <= o && o <= max_c && nlo == lo && nhi == hi)
    &&& (d != 0 ==> {
        let ef = entry_frac(min_c, max_c, o, d);
        let xf = exit_frac(min_c, max_c, o, d);
        &&& (nlo == lo || nlo == ef)
        &&& lo.spec_le(nlo)
        &&& ef.spec_le(nlo)
        &&& (nhi == hi || nhi == xf)
        &&& nhi.spec_le(hi)
        &&& nhi.spec_le(xf)
    })
}

/// A ray parallel to a slab and between its walls satisfies that axis
/// at every parameter.
proof fn lemma_flat_axis_inside(b: Aabb, r: Ray, a: int, tn: int, td: int)
    requires
        b.wf(),
        r.wf(),
        0 <= a < 3,
        td > 0,
        r.dir.spec_axis(a) == 0,
        b.min.spec_axis(a) <= r.orig.spec_axis(a),
        r.orig.spec_axis(a) <= b.max.spec_axis(a),
    ensures
        b.axis_ok_at(r, a, tn, td),
{
    let m = b.min.spec_axis(a);
    let x = b.max.spec_axis(a);
    let oc = r.orig.spec_axis(a);
    assert(r.spec_at_num(a, tn, td) == oc * td);
    assert(m * td <= oc * td && oc * td <= x * td) by (nonlinear_arith)
        requires
            m <= oc <= x,
            td > 0,
    ;
}

/// The smallest box holding both boxes, at the specification level.
pub open spec fn spec_surround(a: Aabb, b: Aabb) -> Aabb {
    Aabb {
        min: Vec3 {
            x: if a.min.x <= b.min.x { a.min.x } else { b.min.x },
            y: if a.min.y <= b.min.y { a.min.y } else { b.min.y },
            z: if a.min.z <= b.min.z { a.min.z } else { b.min.z },
        },
        max: Vec3 {
            x: if a.max.x >= b.max.x { a.max.x } else { b.max.x },
            y: if a.max.y >= b.max.y { a.max.y } else { b.max.y },
            z: if a.max.z >= b.max.z { a.max.z } else { b.max.z },
        },
    }
}

/// The smallest box holding both boxes: component-wise minimum of the
/// low corners and maximum of the high corners.
pub fn surrounding_box(a: &Aabb, b: &Aabb) -> (r: Aabb)
    requires
        a.wf(),
        b.wf(),
    ensures
        r == spec_surround(*a, *b),
        r.wf(),
        r.min.x == if a.min.x <= b.min.x { a.min.x } else { b.min.x },
        r.min.y == if a.min.y <= b.min.y { a.min.y } else { b.min.y },
        r.min.z == if a.min.z <= b.min.z { a.min.z } else { b.min.z },
        r.max.x == if a.max.x >= b.max.x { a.max.x } else { b.max.x },
        r.max.y == if a.max.y >= b.max.y { a.max.y } else { b.max.y },
        r.max.z == if a.max.z >= b.max.z { a.max.z } else { b.max.z },
        r.encloses(*a),
        r.encloses(*b),
{
    let min = Vec3 {
        x: if a.min.x <= b.min.x { a.min.x } else { b.min.x },
        y: if a.min.y <= b.min.y { a.min.y } else { b.min.y },
        z: if a.min.z <= b.min.z { a.min.z } else { b.min.z },
    };
    let max = Vec3 {
        x: if a.max.x >= b.max.x { a.max.x } else { b.max.x },
        y: if a.max.y >= b.max.y { a.max.y } else { b.max.y },
        z: if a.max.z >= b.max.z { a.max.z } else { b.max.z },
    };
    Aabb { min, max }
}

/// A point between the walls of an inner box is between the walls of
/// any box enclosing it.
pub proof fn lemma_axis_ok_mono(outer: Aabb, inner: Aabb, r: Ray, a: int, tn: int, td: int)
    requires
        td > 0,
        0 <= a < 3,
        outer.encloses(inner),
        inner.axis_ok_at(r, a, tn, td),
    ensures
        outer.axis_ok_at(r, a, tn, td),
{
    let om = outer.min.spec_axis(a);
    let im = inner.min.spec_axis(a);
    let ix = inner.max.spec_axis(a);
    let ox = outer.max.spec_axis(a);
    assert(om <= im && ix <= ox);
    assert(om * td <= im * td && ix * td <= ox * td) by (nonlinear_arith)
        requires
            om <= im,
            ix <= ox,
            td > 0,
    ;
}

/// The surrounding box encloses both of its arguments.
pub proof fn lemma_surround_encloses(a: Aabb, b: Aabb)
    ensures
        spec_surround(a, b).encloses(a),
        spec_surround(a, b).encloses(b),
{
}

/// Enclosure is transitive.
pub proof fn lemma_encloses_trans(a: Aabb, b: Aabb, c: Aabb)
    requires
        a.encloses(b),
        b.encloses(c),
    ensures
        a.encloses(c),
{
}

/// A bigger box is met by every ray that meets a box inside it: the
/// witness parameter carries over unchanged.
pub proof fn lemma_hit_sem_monotone(outer: Aabb, inner: Aabb, r: Ray, tmin: Frac, tmax: Frac)
    requires
        outer.encloses(inner),
        inner.hit_sem(r, tmin, tmax),
    ensures
        outer.hit_sem(r, tmin, tmax),
{
    let (tn, td) = choose|tn: int, td: int|
        td > 0 && pair_le(tmin.num as int, tmin.den as int, tn, td) && pair_le(
            tn,
            td,
            tmax.num as int,
            tmax.den as int,
        ) && inner.axis_ok_at(r, 0, tn, td) && inner.axis_ok_at(r, 1, tn, td) && inner.axis_ok_at(
            r,
            2,
            tn,
            td,
        );
    assert forall|a: int| 0 <= a < 3 implies outer.axis_ok_at(r, a, tn, td) by {
        let om = outer.min.spec_axis(a);
        let im = inner.min.spec_axis(a);
        let ox = outer.max.spec_axis(a);
        let ix = inner.max.spec_axis(a);
        assert(om <= im && ix <= ox);
        assert(inner.axis_ok_at(r, a, tn, td));
        assert(om * td <= im * td && ix * td <= ox * td) by (nonlinear_arith)
            requires
                om <= im,
                ix <= ox,
                td > 0,
        ;
    }
    assert(outer.axis_ok_at(r, 0, tn, td) && outer.axis_ok_at(r, 1, tn, td) && outer.axis_ok_at(
        r,
        2,
        tn,
        td,
    ));
}

/// Reversing a ray mirrors the parametric window: the box is met on
/// `[tmin, tmax]` exactly when the reversed ray meets it on
/// `[-tmax, -tmin]`. For a window spanning the box (say `tmin < 0 <
/// tmax` for a ray starting inside), both directions find the box.
pub proof fn lemma_hit_sem_reversed(b: Aabb, r: Ray, rev: Ray, tmin: Frac, tmax: Frac)
    requires
        b.wf(),
        r.wf(),
        tmin.wf(),
        tmax.wf(),
        rev.orig == r.orig,
        rev.dir.x == -r.dir.x,
        rev.dir.y == -r.dir.y,
        rev.dir.z == -r.dir.z,
        tmin.num > i64::MIN,
        tmax.num > i64::MIN,
    ensures
        b.hit_sem(r, tmin, tmax) == b.hit_sem(
            rev,
            (Frac { num: (-tmax.num) as i64, den: tmax.den }),
            (Frac { num: (-tmin.num) as i64, den: tmin.den }),
        ),
{
    let ntmin = Frac { num: (-tmax.num) as i64, den: tmax.den };
    let ntmax = Frac { num: (-tmin.num) as i64, den: tmin.den };
    if b.hit_sem(r, tmin, tmax) {
        let (tn, td) = choose|tn: int, td: int|
            td > 0 && pair_le(tmin.num as int, tmin.den as int, tn, td) && pair_le(
                tn,
                td,
                tmax.num as int,
                tmax.den as int,
            ) && b.axis_ok_at(r, 0, tn, td) && b.axis_ok_at(r, 1, tn, td) && b.axis_ok_at(
                r,
                2,
                tn,
                td,
            );
        lemma_reverse_witness(b, r, rev, tmin, tmax, tn, td);
    }
    if b.hit_sem(rev, ntmin, ntmax) {
        let (tn, td) = choose|tn: int, td: int|
            td > 0 && pair_le(ntmin.num as int, ntmin.den as int, tn, td) && pair_le(
                tn,
                td,
                ntmax.num as int,
                ntmax.den as int,
            ) && b.axis_ok_at(rev, 0, tn, td) && b.axis_ok_at(rev, 1, tn, td) && b.axis_ok_at(
                rev,
                2,
                tn,
                td,
            );
        lemma_reverse_witness(b, rev, r, ntmin, ntmax, tn, td);
        assert(r.dir.x == -rev.dir.x && r.dir.y == -rev.dir.y && r.dir.z == -rev.dir.z);
        assert(b.hit_sem(r, tmin, tmax));
    }
}

/// Carries one witness parameter across ray reversal: `t` for the
/// forward ray becomes `-t` for the reversed one.
proof fn lemma_reverse_witness(b: Aabb, r: Ray, rev: Ray, tmin: Frac, tmax: Frac, tn: int, td: int)
    requires
        tmin.num > i64::MIN,
        tmax.num > i64::MIN,
        rev.orig == r.orig,
        rev.dir.x == -r.dir.x,
        rev.dir.y == -r.dir.y,
        rev.dir.z == -r.dir.z,
        td > 0,
        pair_le(tmin.num as int, tmin.den as int, tn, td),
        pair_le(tn, td, tmax.num as int, tmax.den as int),
        b.axis_ok_at(r, 0, tn, td),
        b.axis_ok_at(r, 1, tn, td),
        b.axis_ok_at(r, 2, tn, td),
    ensures
        b.hit_sem(
            rev,
            (Frac { num: (-tmax.num) as i64, den: tmax.den }),
            (Frac { num: (-tmin.num) as i64, den: tmin.den }),
        ),
{
    let ntmin = Frac { num: (-tmax.num) as i64, den: tmax.den };
    let ntmax = Frac { num: (-tmin.num) as i64, den: tmin.den };
    assert forall|a: int| 0 <= a < 3 implies rev.spec_at_num(a, -tn, td) == r.spec_at_num(
        a,
        tn,
        td,
    ) by {
        assert((-tn) * (-r.dir.spec_axis(a)) == tn * r.dir.spec_axis(a)) by (nonlinear_arith);
        assert(rev.dir.spec_axis(a) == -r.dir.spec_axis(a));
    }
    assert(b.axis_ok_at(rev, 0, -tn, td) && b.axis_ok_at(rev, 1, -tn, td) && b.axis_ok_at(
        rev,
        2,
        -tn,
        td,
    ));
    assert((-tmax.num) * td <= (-tn) * tmax.den && (-tn) * tmin.den <= (-tmin.num) * td)
        by (nonlinear_arith)
        requires
            tn * tmax.den <= tmax.num * td,
            tmin.num * td <= tn * tmin.den,
    ;
    assert(pair_le(ntmin.num as int, ntmin.den as int, -tn, td));
    assert(pair_le(-tn, td, ntmax.num as int, ntmax.den as int));
}

} // verus!
