use vstd::prelude::*;

use crate::material::spec_div_tz;

verus! {

/// First-octant inverse tangent in Q16 turns: for a slope `t` in
/// [0, 1] (Q16), the angle is approximated by the linear term `t/8`
/// plus a quadratic correction, exact at both octant ends (0 and an
/// eighth of a turn). The largest deviation from the true arc is
/// about a quarter of a percent of a turn, mid-octant.
pub open spec fn spec_atan_octant(t: int) -> int {
    spec_div_tz(t, 8) + spec_div_tz(2848 * spec_div_tz(t * (65536 - t), 65536), 65536)
}

fn atan_octant(t: i64) -> (r: i64)
    requires
        0 <= t <= 65536,
    ensures
        r == spec_atan_octant(t as int),
        0 <= r <= 8960,
{
    proof {
        lemma_atan_octant_bounds(t as int);
    }
    let lin = ((t as u64) / 8) as i64;
    let q = (((t as u64) * ((65536 - t) as u64)) / 65536) as i64;
    let corr = (((2848 * q) as u64) / 65536) as i64;
    lin + corr
}

proof fn lemma_atan_octant_bounds(t: int)
    requires
        0 <= t <= 65536,
    ensures
        0 <= spec_div_tz(t, 8) <= 8192,
        0 <= t * (65536 - t) <= 0x4000_0000,
        0 <= spec_div_tz(t * (65536 - t), 65536) <= 16384,
        0 <= 2848 * spec_div_tz(t * (65536 - t), 65536) <= 2848 * 16384,
        0 <= spec_div_tz(2848 * spec_div_tz(t * (65536 - t), 65536), 65536) <= 712,
{
    vstd::arithmetic::div_mod::lemma_div_is_ordered(0, t, 8);
    vstd::arithmetic::div_mod::lemma_div_is_ordered(t, 65536, 8);
    assert(0 <= t * (65536 - t) <= 0x4000_0000) by (nonlinear_arith)
        requires
            0 <= t <= 65536,
    ;
    vstd::arithmetic::div_mod::lemma_div_is_ordered(0, t * (65536 - t), 65536);
    vstd::arithmetic::div_mod::lemma_div_is_ordered(t * (65536 - t), 0x4000_0000, 65536);
    let q = spec_div_tz(t * (65536 - t), 65536);
    assert(0 <= 2848 * q <= 2848 * 16384) by (nonlinear_arith)
        requires
            0 <= q <= 16384,
    ;
    vstd::arithmetic::div_mod::lemma_div_is_ordered(0, 2848 * q, 65536);
    vstd::arithmetic::div_mod::lemma_div_is_ordered(2848 * q, (2848 * 16384) as int, 65536);
}

/// The planar angle of `(x, y)` in Q16 turns, counterclockwise from
/// the positive x axis, in [0, 65536): octant reduction around the
/// first-octant approximation. Exact on the axes and diagonals.
pub open spec fn spec_atan2_turns(y: int, x: int) -> int {
    if x == 0 && y == 0 {
        0
    } else {
        let ax = if x >= 0 {
            x
        } else {
            -x
        };
        let ay = if y >= 0 {
            y
        } else {
            -y
        };
        let base = if ax >= ay {
            spec_atan_octant(spec_div_tz(ay * 65536, ax))
        } else {
            16384 - spec_atan_octant(spec_div_tz(ax * 65536, ay))
        };
        let q = if x >= 0 && y >= 0 {
            base
        } else if x < 0 && y >= 0 {
            32768 - base
        } else if x < 0 {
            32768 + base
        } else {
            65536 - base
        };
        if q >= 65536 {
            q - 65536
        } else {
            q
        }
    }
}

pub fn atan2_turns(y: i64, x: i64) -> (r: i64)
    requires
        -0x4000_0000 <= y <= 0x4000_0000,
        -0x4000_0000 <= x <= 0x4000_0000,
    ensures
        r == spec_atan2_turns(y as int, x as int),
        0 <= r < 65536,
{
    if x == 0 && y == 0 {
        return 0;
    }
    let ax = if x >= 0 {
        x
    } else {
        -x
    };
    let ay = if y >= 0 {
        y
    } else {
        -y
    };
    let base = if ax >= ay {
        proof {
            lemma_slope_in_unit(ay as int, ax as int);
        }
        atan_octant((((ay as i128) * 65536 / (ax as i128))) as i64)
    } else {
        proof {
            lemma_slope_in_unit(ax as int, ay as int);
        }
        16384 - atan_octant((((ax as i128) * 65536 / (ay as i128))) as i64)
    };
    let q = if x >= 0 && y >= 0 {
        base
    } else if x < 0 && y >= 0 {
        32768 - base
    } else if x < 0 {
        32768 + base
    } else {
        65536 - base
    };
    if q >= 65536 {
        q - 65536
    } else {
        q
    }
}

/// The smaller magnitude over the larger lies in the Q16 unit range.
proof fn lemma_slope_in_unit(small: int, large: int)
    requires
        0 <= small <= large,
        large >= 1,
    ensures
        0 <= small * 65536 <= large * 65536,
        0 <= spec_div_tz(small * 65536, large) <= 65536,
{
    assert(0 <= small * 65536 <= large * 65536) by (nonlinear_arith)
        requires
            0 <= small <= large,
    ;
    vstd::arithmetic::div_mod::lemma_div_is_ordered(0, small * 65536, large);
    vstd::arithmetic::div_mod::lemma_div_is_ordered(small * 65536, large * 65536, large);
    vstd::arithmetic::div_mod::lemma_div_multiples_vanish(65536, large);
    assert(large * 65536 == large * 65536);
}

} // verus!
