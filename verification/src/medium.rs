use vstd::prelude::*;

use crate::frac::{lemma_le_trans, lemma_le_total, Frac};
use crate::hittable::{lemma_hit_props, HitRecord, Hittable};
use crate::material::{lemma_div_tz_shrink, spec_div_tz, Material};
use crate::ray::Ray;
use crate::vec3::Vec3;

verus! {

/// A parameter value in Q16: the truncated quotient of the scaled
/// numerator by the denominator.
pub open spec fn q16_of(t: Frac) -> int {
    spec_div_tz(t.num * 65536, t.den as int)
}

/// A volume of constant density bounded by a wrapped primitive. The
/// exponential free-path draw (a logarithm of a uniform, divided by
/// the density and the ray speed) is transcendental and is handed in
/// as a plain Q16 length in parameter units; given that draw, the
/// decision and the produced record are exact.
pub struct ConstantMedium {
    pub boundary: Box<Hittable>,
    pub phase_function: Material,
}

impl ConstantMedium {
    pub open spec fn wf(self) -> bool {
        self.boundary.wf()
    }

    pub fn new(boundary: Hittable, phase_function: Material) -> (r: ConstantMedium)
        requires
            boundary.wf(),
        ensures
            r.boundary == boundary,
            r.phase_function == phase_function,
            r.wf(),
    {
        ConstantMedium { boundary: Box::new(boundary), phase_function }
    }

    /// Where the medium scatters the ray: the boundary is crossed
    /// twice (the second query starts strictly after the first hit),
    /// the crossing span is clamped to the query window and to the
    /// ray's forward side, and the ray scatters inside exactly when
    /// the free path fits in the span. The scattered record's normal
    /// and face are fixed arbitrarily, as the phase function ignores
    /// them.
    pub open spec fn spec_hit(self, r: Ray, t_min: Frac, t_max: Frac, free_path_q16: i64) -> Option<
        HitRecord,
    > {
        let neg = Frac { num: (-0x1_0000_0000) as i64, den: 1 };
        let big = Frac { num: 0x1_0000_0000, den: 1 };
        match self.boundary.spec_hit(r, neg, big) {
            Option::None => Option::None,
            Option::Some(rec1) => match self.boundary.spec_hit(r, rec1.t, big) {
                Option::None => Option::None,
                Option::Some(rec2) => {
                    let t1a = if rec1.t.spec_lt(t_min) {
                        t_min
                    } else {
                        rec1.t
                    };
                    let t2a = if t_max.spec_lt(rec2.t) {
                        t_max
                    } else {
                        rec2.t
                    };
                    if !t1a.spec_lt(t2a) {
                        Option::None
                    } else {
                        let zero = Frac { num: 0, den: 1 };
                        let t1b = if t1a.spec_lt(zero) {
                            zero
                        } else {
                            t1a
                        };
                        if t2a.spec_lt(zero) {
                            Option::None
                        } else {
                        let q1 = q16_of(t1b);
                        let q2 = q16_of(t2a);
                        if free_path_q16 > q2 - q1 {
                            Option::None
                        } else {
                            Option::Some(
                                HitRecord {
                                    t: Frac { num: (q1 + free_path_q16) as i64, den: 65536 },
                                    u: Frac { num: 0, den: 1 },
                                    v: Frac { num: 0, den: 1 },
                                    normal: Vec3 { x: 1, y: 0, z: 0 },
                                    front_face: true,
                                    mat: self.phase_function,
                                },
                            )
                        }
                        }
                    }
                },
            },
        }
    }

    pub fn hit(&self, r: &Ray, t_min: Frac, t_max: Frac, free_path_q16: i64) -> (res: Option<
        HitRecord,
    >)
        requires
            self.wf(),
            r.orig.in_range(0x3000_0000),
            r.dir.in_range(0x1000_0000),
            t_min.wf(),
            t_max.wf(),
            0 <= free_path_q16 <= 0x1_0000_0000_0000,
        ensures
            res == self.spec_hit(*r, t_min, t_max, free_path_q16),
    {
        let neg = Frac::new(-0x1_0000_0000, 1);
        let big = Frac::new(0x1_0000_0000, 1);
        let first = self.boundary.hit(r, neg, big);
        let rec1 = match first {
            Option::None => {
                return None;
            },
            Option::Some(rec1) => rec1,
        };
        proof {
            lemma_hit_props(*self.boundary, *r, neg, big, 0x1000_0000);
        }
        let second = self.boundary.hit(r, rec1.t, big);
        let rec2 = match second {
            Option::None => {
                return None;
            },
            Option::Some(rec2) => rec2,
        };
        proof {
            lemma_hit_props(*self.boundary, *r, rec1.t, big, 0x1000_0000);
        }
        let t1a = if rec1.t.lt(&t_min) {
            t_min
        } else {
            rec1.t
        };
        let t2a = if t_max.lt(&rec2.t) {
            t_max
        } else {
            rec2.t
        };
        if !t1a.lt(&t2a) {
            return None;
        }
        let zero = Frac::new(0, 1);
        let t1b = if t1a.lt(&zero) {
            zero
        } else {
            t1a
        };
        if t2a.lt(&zero) {
            return None;
        }
        proof {
            // The span endpoints lie in [0, 2^32] as values, whatever
            // their representations, so their Q16 forms fit.
            if t_max.spec_lt(rec2.t) {
                lemma_le_trans(t2a, rec2.t, big);
            }
            assert(t2a.spec_le(big));
            lemma_le_total(t2a, zero);
            assert(zero.spec_le(t2a));
            lemma_le_trans(t1b, t2a, big);
            assert(t1b.spec_le(big));
            assert(zero.spec_le(t1b));
            lemma_q16_in_range(t1b);
            lemma_q16_in_range(t2a);
        }
        let q1 = q16_exec(t1b);
        let q2 = q16_exec(t2a);
        if free_path_q16 > q2 - q1 {
            return None;
        }
        Some(
            HitRecord {
                t: Frac { num: q1 + free_path_q16, den: 65536 },
                u: Frac { num: 0, den: 1 },
                v: Frac { num: 0, den: 1 },
                normal: Vec3 { x: 1, y: 0, z: 0 },
                front_face: true,
                mat: self.phase_function,
            },
        )
    }
}

/// A nonnegative parameter at most 2^32 keeps its Q16 form within
/// 2^48, whatever the fraction's representation.
proof fn lemma_q16_in_range(t: Frac)
    requires
        t.wf(),
        (Frac { num: 0, den: 1 }).spec_le(t),
        t.spec_le(Frac { num: 0x1_0000_0000, den: 1 }),
    ensures
        0 <= q16_of(t) <= 0x1_0000_0000_0000,
{
    assert(0 <= t.num && t.num <= 0x1_0000_0000 * t.den);
    assert(0 <= t.num * 65536 && t.num * 65536 <= 0x1_0000_0000_0000 * t.den)
        by (nonlinear_arith)
        requires
            0 <= t.num,
            t.num <= 0x1_0000_0000 * t.den,
            t.den > 0,
    ;
    lemma_div_tz_shrink(t.num * 65536, t.den as int, 0x1_0000_0000_0000);
    assert(q16_of(t) >= 0) by {
        assert(spec_div_tz(t.num * 65536, t.den as int) >= 0) by (nonlinear_arith)
            requires
                t.num * 65536 >= 0,
                t.den > 0,
        ;
    }
}

/// Executable Q16 form of a parameter.
fn q16_exec(t: Frac) -> (r: i64)
    requires
        t.wf(),
        0 <= q16_of(t) <= 0x1_0000_0000_0000,
    ensures
        r == q16_of(t),
{
    proof {
        crate::frac::lemma_i64_mul_fits(t.num as int, 65536);
    }
    let n = (t.num as i128) * 65536;
    let r = if n >= 0 {
        ((n as u128) / (t.den as u128)) as i128
    } else {
        -((((-n) as u128) / (t.den as u128)) as i128)
    };
    proof {
        if n >= 0 {
            assert(0 <= (n as int) / (t.den as int) <= n) by (nonlinear_arith)
                requires
                    n >= 0,
                    t.den > 0,
            ;
        } else {
            assert(0 <= (-(n as int)) / (t.den as int) <= -n) by (nonlinear_arith)
                requires
                    n < 0,
                    t.den > 0,
            ;
        }
    }
    r as i64
}

} // verus!
