use vstd::prelude::*;

verus! {

/// An exact rational value `num / den`, used for parametric distances
/// along a ray. The denominator is kept strictly positive, so comparing
/// two values never has to reason about a sign flip.
#[derive(Clone, Copy, Debug)]
pub struct Frac {
    pub num: i64,
    pub den: i64,
}

impl Frac {
    pub open spec fn wf(self) -> bool {
        self.den > 0
    }

    /// `self <= other` as rationals: num_a / den_a <= num_b / den_b
    /// with both denominators positive.
    pub open spec fn spec_le(self, other: Frac) -> bool {
        self.num * other.den <= other.num * self.den
    }

    pub open spec fn spec_lt(self, other: Frac) -> bool {
        self.num * other.den < other.num * self.den
    }

    /// Value equality: 1/2 equals 2/4.
    pub open spec fn spec_eq(self, other: Frac) -> bool {
        self.num * other.den == other.num * self.den
    }

    pub fn new(num: i64, den: i64) -> (r: Frac)
        requires
            den > 0,
        ensures
            r.wf(),
            r.num == num,
            r.den == den,
    {
        Frac { num, den }
    }

    pub fn from_int(n: i64) -> (r: Frac)
        ensures
            r.wf(),
            r.num == n,
            r.den == 1,
    {
        Frac { num: n, den: 1 }
    }

    pub fn le(&self, other: &Frac) -> (r: bool)
        requires
            self.wf(),
            other.wf(),
        ensures
            r == self.spec_le(*other),
    {
        proof {
            lemma_i64_mul_fits(self.num as int, other.den as int);
            lemma_i64_mul_fits(other.num as int, self.den as int);
        }
        (self.num as i128) * (other.den as i128) <= (other.num as i128) * (self.den as i128)
    }

    pub fn lt(&self, other: &Frac) -> (r: bool)
        requires
            self.wf(),
            other.wf(),
        ensures
            r == self.spec_lt(*other),
    {
        proof {
            lemma_i64_mul_fits(self.num as int, other.den as int);
            lemma_i64_mul_fits(other.num as int, self.den as int);
        }
        (self.num as i128) * (other.den as i128) < (other.num as i128) * (self.den as i128)
    }

    /// The larger of the two values; on equal values the right one.
    pub fn fmax(self, other: Frac) -> (r: Frac)
        requires
            self.wf(),
            other.wf(),
        ensures
            r.wf(),
            r == if self.spec_le(other) { other } else { self },
            self.spec_le(r),
            other.spec_le(r),
    {
        proof {
            lemma_le_total(self, other);
            lemma_le_refl(self);
            lemma_le_refl(other);
        }
        if self.le(&other) {
            other
        } else {
            self
        }
    }

    /// The smaller of the two values; on equal values the right one.
    pub fn fmin(self, other: Frac) -> (r: Frac)
        requires
            self.wf(),
            other.wf(),
        ensures
            r.wf(),
            r == if other.spec_le(self) { other } else { self },
            r.spec_le(self),
            r.spec_le(other),
    {
        proof {
            lemma_le_total(other, self);
            lemma_le_refl(self);
            lemma_le_refl(other);
        }
        if other.le(&self) {
            other
        } else {
            self
        }
    }

    /// The negated value, for arguing about a reversed ray.
    pub fn neg(self) -> (r: Frac)
        requires
            self.wf(),
            self.num > i64::MIN,
        ensures
            r.wf(),
            r.num == -self.num,
            r.den == self.den,
    {
        Frac { num: -self.num, den: self.den }
    }
}

/// `an/ad <= bn/bd` for positive denominators, stated over plain
/// integers so that it can speak of ghost rationals wider than i64.
pub open spec fn pair_le(an: int, ad: int, bn: int, bd: int) -> bool {
    an * bd <= bn * ad
}

pub open spec fn pair_lt(an: int, ad: int, bn: int, bd: int) -> bool {
    an * bd < bn * ad
}

pub proof fn lemma_pair_lt_le_trans(an: int, ad: int, bn: int, bd: int, cn: int, cd: int)
    requires
        ad > 0,
        bd > 0,
        cd > 0,
        pair_lt(an, ad, bn, bd),
        pair_le(bn, bd, cn, cd),
    ensures
        pair_lt(an, ad, cn, cd),
{
    assert(an * cd < cn * ad) by (nonlinear_arith)
        requires
            ad > 0,
            bd > 0,
            cd > 0,
            an * bd < bn * ad,
            bn * cd <= cn * bd,
    ;
}

pub proof fn lemma_pair_le_trans(an: int, ad: int, bn: int, bd: int, cn: int, cd: int)
    requires
        ad > 0,
        bd > 0,
        cd > 0,
        pair_le(an, ad, bn, bd),
        pair_le(bn, bd, cn, cd),
    ensures
        pair_le(an, ad, cn, cd),
{
    assert(an * cd <= cn * ad) by (nonlinear_arith)
        requires
            ad > 0,
            bd > 0,
            cd > 0,
            an * bd <= bn * ad,
            bn * cd <= cn * bd,
    ;
}

/// The product of two i64 values stays well inside the i128 range.
pub proof fn lemma_i64_mul_fits(a: int, b: int)
    requires
        i64::MIN <= a <= i64::MAX,
        i64::MIN <= b <= i64::MAX,
    ensures
        i128::MIN <= a * b <= i128::MAX,
{
    assert(i128::MIN <= a * b <= i128::MAX) by (nonlinear_arith)
        requires
            -0x8000_0000_0000_0000 <= a <= 0x7fff_ffff_ffff_ffff,
            -0x8000_0000_0000_0000 <= b <= 0x7fff_ffff_ffff_ffff,
    ;
}

pub proof fn lemma_le_refl(a: Frac)
    ensures
        a.spec_le(a),
{
}

/// Rational `<=` is total: where `a <= b` fails, `b < a` holds.
pub proof fn lemma_le_total(a: Frac, b: Frac)
    ensures
        a.spec_le(b) || b.spec_lt(a),
{
}

pub proof fn lemma_le_trans(a: Frac, b: Frac, c: Frac)
    requires
        a.wf(),
        b.wf(),
        c.wf(),
        a.spec_le(b),
        b.spec_le(c),
    ensures
        a.spec_le(c),
{
    assert(a.num * c.den <= c.num * a.den) by (nonlinear_arith)
        requires
            a.den > 0,
            b.den > 0,
            c.den > 0,
            a.num * b.den <= b.num * a.den,
            b.num * c.den <= c.num * b.den,
    ;
}

} // verus!
