use vstd::prelude::*;

verus! {

/// A 3-component vector over exact integer coordinates. It serves as a
/// point, a direction, or an RGB color (color channels are held in Q16
/// fixed point: 65536 stands for 1.0).
#[derive(Clone, Copy, Debug, PartialEq, Eq, Structural)]
pub struct Vec3 {
    pub x: i64,
    pub y: i64,
    pub z: i64,
}

pub type Point3 = Vec3;

pub type Color = Vec3;

impl Vec3 {
    /// Every component within `[-b, b]`.
    pub open spec fn in_range(self, b: int) -> bool {
        &&& -b <= self.x <= b
        &&& -b <= self.y <= b
        &&& -b <= self.z <= b
    }

    /// The bound kept on scene coordinates (2^30): wide enough for any
    /// scene, small enough that dot products and cross products of such
    /// vectors stay inside i64.
    pub open spec fn coord_ok(self) -> bool {
        self.in_range(0x4000_0000)
    }

    pub fn new(x: i64, y: i64, z: i64) -> (r: Vec3)
        ensures
            r == (Vec3 { x, y, z }),
    {
        Vec3 { x, y, z }
    }

    pub fn zero() -> (r: Vec3)
        ensures
            r == (Vec3 { x: 0i64, y: 0i64, z: 0i64 }),
    {
        Vec3 { x: 0, y: 0, z: 0 }
    }

    pub fn x(&self) -> (r: i64)
        ensures
            r == self.x,
    {
        self.x
    }

    pub fn y(&self) -> (r: i64)
        ensures
            r == self.y,
    {
        self.y
    }

    pub fn z(&self) -> (r: i64)
        ensures
            r == self.z,
    {
        self.z
    }

    /// Component by axis index: 0 is x, 1 is y, 2 is z.
    pub open spec fn spec_axis(self, a: int) -> int {
        if a == 0 {
            self.x as int
        } else if a == 1 {
            self.y as int
        } else {
            self.z as int
        }
    }

    pub fn axis(&self, a: usize) -> (r: i64)
        requires
            a < 3,
        ensures
            r == self.spec_axis(a as int),
    {
        if a == 0 {
            self.x
        } else if a == 1 {
            self.y
        } else {
            self.z
        }
    }

    pub open spec fn spec_dot(self, o: Vec3) -> int {
        self.x * o.x + self.y * o.y + self.z * o.z
    }

    pub open spec fn spec_len_sq(self) -> int {
        self.spec_dot(self)
    }

    pub fn length_squared(&self) -> (r: i64)
        requires
            self.coord_ok(),
        ensures
            r == self.spec_len_sq(),
    {
        proof {
            lemma_mul_bound(self.x as int, self.x as int, 0x4000_0000);
            lemma_mul_bound(self.y as int, self.y as int, 0x4000_0000);
            lemma_mul_bound(self.z as int, self.z as int, 0x4000_0000);
        }
        self.x * self.x + self.y * self.y + self.z * self.z
    }

    /// In the exact integer model a vector is degenerate only when it
    /// is exactly zero.
    pub fn near_zero(&self) -> (r: bool)
        ensures
            r == (self.x == 0 && self.y == 0 && self.z == 0),
    {
        self.x == 0 && self.y == 0 && self.z == 0
    }

    pub fn add(self, o: Vec3) -> (r: Vec3)
        requires
            self.in_range(0x3fff_ffff_ffff_ffff),
            o.in_range(0x3fff_ffff_ffff_ffff),
        ensures
            r.x == self.x + o.x,
            r.y == self.y + o.y,
            r.z == self.z + o.z,
    {
        Vec3 { x: self.x + o.x, y: self.y + o.y, z: self.z + o.z }
    }

    pub fn sub(self, o: Vec3) -> (r: Vec3)
        requires
            self.in_range(0x3fff_ffff_ffff_ffff),
            o.in_range(0x3fff_ffff_ffff_ffff),
        ensures
            r.x == self.x - o.x,
            r.y == self.y - o.y,
            r.z == self.z - o.z,
    {
        Vec3 { x: self.x - o.x, y: self.y - o.y, z: self.z - o.z }
    }

    pub open spec fn spec_neg(self) -> Vec3 {
        Vec3 { x: (-self.x) as i64, y: (-self.y) as i64, z: (-self.z) as i64 }
    }

    pub fn neg(self) -> (r: Vec3)
        requires
            self.in_range(0x7fff_ffff_ffff_fffe),
        ensures
            r.x == -self.x,
            r.y == -self.y,
            r.z == -self.z,
            r == self.spec_neg(),
    {
        Vec3 { x: -self.x, y: -self.y, z: -self.z }
    }

    /// Multiplication by an integer scalar.
    pub fn scale(self, t: i64) -> (r: Vec3)
        requires
            self.in_range(0x4000_0000),
            -0x4000_0000 <= t <= 0x4000_0000,
        ensures
            r.x == self.x * t,
            r.y == self.y * t,
            r.z == self.z * t,
    {
        proof {
            lemma_mul_bound(self.x as int, t as int, 0x4000_0000);
            lemma_mul_bound(self.y as int, t as int, 0x4000_0000);
            lemma_mul_bound(self.z as int, t as int, 0x4000_0000);
        }
        Vec3 { x: self.x * t, y: self.y * t, z: self.z * t }
    }
}

/// |a| <= b and |c| <= b give |a*c| <= b*b.
pub proof fn lemma_mul_bound(a: int, c: int, b: int)
    requires
        -b <= a <= b,
        -b <= c <= b,
        b >= 0,
    ensures
        -(b * b) <= a * c <= b * b,
{
    assert(-(b * b) <= a * c <= b * b) by (nonlinear_arith)
        requires
            -b <= a <= b,
            -b <= c <= b,
            b >= 0,
    ;
}

/// |a| <= ba and |c| <= bc give |a*c| <= ba*bc.
pub proof fn lemma_mul_bound2(a: int, c: int, ba: int, bc: int)
    requires
        -ba <= a <= ba,
        -bc <= c <= bc,
        ba >= 0,
        bc >= 0,
    ensures
        -(ba * bc) <= a * c <= ba * bc,
{
    assert(-(ba * bc) <= a * c <= ba * bc) by (nonlinear_arith)
        requires
            -ba <= a <= ba,
            -bc <= c <= bc,
            ba >= 0,
            bc >= 0,
    ;
}

/// The dot product of two vectors bounded by `b` lies within 3*b*b.
pub proof fn lemma_dot_fits(u: Vec3, v: Vec3, b: int)
    requires
        u.in_range(b),
        v.in_range(b),
        b >= 0,
    ensures
        -3 * (b * b) <= u.spec_dot(v) <= 3 * (b * b),
{
    lemma_mul_bound(u.x as int, v.x as int, b);
    lemma_mul_bound(u.y as int, v.y as int, b);
    lemma_mul_bound(u.z as int, v.z as int, b);
}

pub fn dot(lhs: Vec3, rhs: Vec3) -> (r: i64)
    requires
        lhs.coord_ok(),
        rhs.coord_ok(),
    ensures
        r == lhs.spec_dot(rhs),
{
    proof {
        lemma_mul_bound(lhs.x as int, rhs.x as int, 0x4000_0000);
        lemma_mul_bound(lhs.y as int, rhs.y as int, 0x4000_0000);
        lemma_mul_bound(lhs.z as int, rhs.z as int, 0x4000_0000);
    }
    lhs.x * rhs.x + lhs.y * rhs.y + lhs.z * rhs.z
}

pub open spec fn spec_cross(lhs: Vec3, rhs: Vec3) -> (int, int, int) {
    (
        lhs.y * rhs.z - lhs.z * rhs.y,
        lhs.z * rhs.x - lhs.x * rhs.z,
        lhs.x * rhs.y - lhs.y * rhs.x,
    )
}

pub fn cross(lhs: Vec3, rhs: Vec3) -> (r: Vec3)
    requires
        lhs.coord_ok(),
        rhs.coord_ok(),
    ensures
        (r.x as int, r.y as int, r.z as int) == spec_cross(lhs, rhs),
{
    proof {
        lemma_mul_bound(lhs.x as int, rhs.x as int, 0x4000_0000);
        lemma_mul_bound(lhs.x as int, rhs.y as int, 0x4000_0000);
        lemma_mul_bound(lhs.x as int, rhs.z as int, 0x4000_0000);
        lemma_mul_bound(lhs.y as int, rhs.x as int, 0x4000_0000);
        lemma_mul_bound(lhs.y as int, rhs.y as int, 0x4000_0000);
        lemma_mul_bound(lhs.y as int, rhs.z as int, 0x4000_0000);
        lemma_mul_bound(lhs.z as int, rhs.x as int, 0x4000_0000);
        lemma_mul_bound(lhs.z as int, rhs.y as int, 0x4000_0000);
        lemma_mul_bound(lhs.z as int, rhs.z as int, 0x4000_0000);
    }
    Vec3 {
        x: lhs.y * rhs.z - lhs.z * rhs.y,
        y: lhs.z * rhs.x - lhs.x * rhs.z,
        z: lhs.x * rhs.y - lhs.y * rhs.x,
    }
}

/// The mirror image of `v` about the plane with normal `n`, scaled by
/// `n . n` so that it is exact over integers:
/// `reflect(v, n) = (n.n) v - 2 (v.n) n`.
/// For a unit normal (`n.n == 1`, e.g. an axis direction) this is the
/// usual `v - 2 (v.n) n`.
pub open spec fn spec_reflect(v: Vec3, n: Vec3) -> (int, int, int) {
    let nn = n.spec_len_sq();
    let vn = v.spec_dot(n);
    (nn * v.x - 2 * vn * n.x, nn * v.y - 2 * vn * n.y, nn * v.z - 2 * vn * n.z)
}

pub fn reflect(v: Vec3, n: Vec3) -> (r: Vec3)
    requires
        v.coord_ok(),
        n.in_range(1024),
    ensures
        (r.x as int, r.y as int, r.z as int) == spec_reflect(v, n),
{
    proof {
        lemma_mul_bound(n.x as int, n.x as int, 1024);
        lemma_mul_bound(n.y as int, n.y as int, 1024);
        lemma_mul_bound(n.z as int, n.z as int, 1024);
        lemma_mul_bound2(v.x as int, n.x as int, 0x4000_0000, 1024);
        lemma_mul_bound2(v.y as int, n.y as int, 0x4000_0000, 1024);
        lemma_mul_bound2(v.z as int, n.z as int, 0x4000_0000, 1024);
        let nn = n.spec_len_sq();
        let vn = v.spec_dot(n);
        lemma_mul_bound2(nn, v.x as int, 0x30_0000, 0x4000_0000);
        lemma_mul_bound2(nn, v.y as int, 0x30_0000, 0x4000_0000);
        lemma_mul_bound2(nn, v.z as int, 0x30_0000, 0x4000_0000);
        lemma_mul_bound2(2 * vn, n.x as int, 0x600_0000_0000, 1024);
        lemma_mul_bound2(2 * vn, n.y as int, 0x600_0000_0000, 1024);
        lemma_mul_bound2(2 * vn, n.z as int, 0x600_0000_0000, 1024);
    }
    let nn = n.x * n.x + n.y * n.y + n.z * n.z;
    let vn = v.x * n.x + v.y * n.y + v.z * n.z;
    Vec3 {
        x: nn * v.x - 2 * vn * n.x,
        y: nn * v.y - 2 * vn * n.y,
        z: nn * v.z - 2 * vn * n.z,
    }
}

/// The specular round trip: a ray that meets the mirror at exactly
/// normal incidence (its direction is a negative multiple of the
/// normal) reflects into a positive multiple of the reversed incoming
/// direction, i.e. straight back where it came from.
pub proof fn lemma_reflect_normal_incidence(v: Vec3, n: Vec3, k: int)
    requires
        k > 0,
        n.spec_len_sq() > 0,
        v.x == -k * n.x,
        v.y == -k * n.y,
        v.z == -k * n.z,
    ensures
        spec_reflect(v, n).0 == n.spec_len_sq() * -v.x,
        spec_reflect(v, n).1 == n.spec_len_sq() * -v.y,
        spec_reflect(v, n).2 == n.spec_len_sq() * -v.z,
{
    let nn = n.spec_len_sq();
    let vn = v.spec_dot(n);
    assert(vn == -k * nn) by (nonlinear_arith)
        requires
            v.x == -k * n.x,
            v.y == -k * n.y,
            v.z == -k * n.z,
            vn == v.x * n.x + v.y * n.y + v.z * n.z,
            nn == n.x * n.x + n.y * n.y + n.z * n.z,
    ;
    assert(nn * v.x - 2 * vn * n.x == nn * -v.x) by (nonlinear_arith)
        requires
            vn == -k * nn,
            v.x == -k * n.x,
    ;
    assert(nn * v.y - 2 * vn * n.y == nn * -v.y) by (nonlinear_arith)
        requires
            vn == -k * nn,
            v.y == -k * n.y,
    ;
    assert(nn * v.z - 2 * vn * n.z == nn * -v.z) by (nonlinear_arith)
        requires
            vn == -k * nn,
            v.z == -k * n.z,
    ;
}

} // verus!
