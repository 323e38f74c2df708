use vstd::prelude::*;

verus! {

/// The integer square root, `floor(sqrt(n))`, defined by digit
/// recursion so that it is total over the naturals.
pub open spec fn sqrt_floor(n: nat) -> nat
    decreases n,
{
    if n == 0 {
        0
    } else {
        let r = 2 * sqrt_floor((n / 4) as nat);
        if (r + 1) * (r + 1) <= n {
            r + 1
        } else {
            r
        }
    }
}

/// `sqrt_floor` is exactly the root bracketed by consecutive squares.
pub proof fn lemma_sqrt_floor_bounds(n: nat)
    ensures
        sqrt_floor(n) * sqrt_floor(n) <= n,
        n < (sqrt_floor(n) + 1) * (sqrt_floor(n) + 1),
    decreases n,
{
    if n == 0 {
        let s0 = sqrt_floor(n);
        assert(s0 == 0);
        assert(n < (s0 + 1) * (s0 + 1)) by (nonlinear_arith)
            requires
                s0 == 0,
                n == 0,
        ;
    } else {
        let m = (n / 4) as nat;
        lemma_sqrt_floor_bounds(m);
        let s = sqrt_floor(m);
        let r = 2 * s;
        vstd::arithmetic::div_mod::lemma_fundamental_div_mod(n as int, 4);
        vstd::arithmetic::div_mod::lemma_mod_bound(n as int, 4);
        assert(4 * m <= n < 4 * (m + 1));
        assert(r * r <= n) by (nonlinear_arith)
            requires
                s * s <= m,
                r == 2 * s,
                4 * m <= n,
        ;
        assert(n < (r + 2) * (r + 2)) by (nonlinear_arith)
            requires
                m < (s + 1) * (s + 1),
                r == 2 * s,
                n < 4 * (m + 1),
        ;
        if (r + 1) * (r + 1) <= n {
            assert(sqrt_floor(n) == r + 1);
        } else {
            assert(sqrt_floor(n) == r);
        }
    }
}

/// Any value bracketed by consecutive squares is the square root.
pub proof fn lemma_sqrt_floor_unique(n: nat, s: nat)
    requires
        s * s <= n,
        n < (s + 1) * (s + 1),
    ensures
        s == sqrt_floor(n),
{
    lemma_sqrt_floor_bounds(n);
    let t = sqrt_floor(n);
    if s < t {
        assert((s + 1) * (s + 1) <= t * t) by (nonlinear_arith)
            requires
                s + 1 <= t,
        ;
    }
    if t < s {
        assert((t + 1) * (t + 1) <= s * s) by (nonlinear_arith)
            requires
                t + 1 <= s,
        ;
    }
}

/// Integer square root by bisection.
pub fn isqrt_u128(n: u128) -> (r: u128)
    requires
        n < 0x4000_0000_0000_0000_0000_0000_0000_0000u128,
    ensures
        r == sqrt_floor(n as nat),
        r * r <= n,
        n < (r + 1) * (r + 1),
        r < 0x1_0000_0000_0000_0000u128,
{
    let mut lo: u128 = 0;
    let mut hi: u128 = 0x1_0000_0000_0000_0000u128;
    proof {
        assert(hi * hi > n) by (nonlinear_arith)
            requires
                hi == 0x1_0000_0000_0000_0000u128,
                n < 0x4000_0000_0000_0000_0000_0000_0000_0000u128,
        ;
    }
    // Invariant: lo*lo <= n < hi*hi.
    while lo + 1 < hi
        invariant
            lo < hi,
            hi <= 0x1_0000_0000_0000_0000u128,
            lo * lo <= n,
            n < hi * hi,
        decreases hi - lo,
    {
        let mid = lo + (hi - lo) / 2;
        proof {
            assert(mid * mid <= 0xffff_ffff_ffff_ffff_ffff_ffff_ffff_ffffu128) by (nonlinear_arith)
                requires
                    mid < 0x1_0000_0000_0000_0000u128,
            ;
        }
        if mid * mid <= n {
            lo = mid;
        } else {
            hi = mid;
        }
    }
    proof {
        lemma_sqrt_floor_unique(n as nat, lo as nat);
    }
    lo
}

} // verus!
