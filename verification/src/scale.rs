//! Comparing whole-number distances with the geometric scale `2^level`.
//!
//! Levels are signed. Distances are whole numbers, so for a negative level,
//! where `0 < 2^level < 1`, only the distance zero lies below the scale.
use vstd::arithmetic::power2::{
    lemma2_to64, lemma_pow2_pos, lemma_pow2_strictly_increases, lemma_pow2_unfold, pow2,
};
use vstd::bits::{lemma_u64_pow2_no_overflow, lemma_u64_shl_is_mul};
use vstd::prelude::*;

verus! {

/// The lowest level a stored point can have.
pub const MIN_LEVEL: i32 = -1;

/// The highest level a stored point can have: every `u64` distance is within `2^64`.
pub const MAX_LEVEL: i32 = 64;

/// `d <= 2^level`.
pub open spec fn within_scale(d: nat, level: int) -> bool {
    if level < 0 {
        d == 0
    } else {
        d <= pow2(level as nat)
    }
}

/// `d < 2^level`.
pub open spec fn below_scale(d: nat, level: int) -> bool {
    if level < 0 {
        d == 0
    } else {
        d < pow2(level as nat)
    }
}

/// `d < 2^level + slack`.
pub open spec fn below_scale_plus(d: nat, level: int, slack: nat) -> bool {
    if level < 0 {
        d <= slack
    } else {
        d < pow2(level as nat) + slack
    }
}

/// The least level `l >= 0` with `d <= 2^l`: the level to which a root must
/// be raised to cover a point at distance `d`.
pub open spec fn cover_level(d: nat) -> int
    decreases d,
{
    if d <= 1 {
        0
    } else {
        1 + cover_level((d + 1) / 2)
    }
}

/// A larger scale admits whatever a smaller one does.
pub proof fn lemma_within_scale_monotonic(d: nat, lo: int, hi: int)
    requires
        lo <= hi,
        within_scale(d, lo),
    ensures
        within_scale(d, hi),
{
    if 0 <= lo < hi {
        lemma_pow2_strictly_increases(lo as nat, hi as nat);
    }
}

/// A larger scale admits whatever a smaller one does.
pub proof fn lemma_below_scale_monotonic(d: nat, lo: int, hi: int)
    requires
        lo <= hi,
        below_scale(d, lo),
    ensures
        below_scale(d, hi),
{
    if 0 <= lo < hi {
        lemma_pow2_strictly_increases(lo as nat, hi as nat);
    }
    if lo < 0 <= hi {
        lemma_pow2_pos(hi as nat);
    }
}

/// `d <= 2^level` implies `d < 2^(level + 1)`.
pub proof fn lemma_within_implies_below_next(d: nat, level: int)
    requires
        within_scale(d, level),
    ensures
        below_scale(d, level + 1),
{
    if level >= 0 {
        lemma_pow2_strictly_increases(level as nat, (level + 1) as nat);
    } else if level == -1 {
        lemma_pow2_pos(0);
    }
}

/// Two steps of at most `2^level` make one of at most `2^(level + 1)`.
pub proof fn lemma_within_scale_sum(a: nat, b: nat, level: int)
    requires
        within_scale(a, level),
        within_scale(b, level),
    ensures
        within_scale(a + b, level + 1),
{
    if level >= 0 {
        lemma_pow2_unfold((level + 1) as nat);
    }
}

/// A step below `2^level` and one of at most `2^level` stay below `2^(level + 1)`.
pub proof fn lemma_below_scale_sum(a: nat, b: nat, level: int)
    requires
        below_scale(a, level),
        within_scale(b, level),
    ensures
        below_scale(a + b, level + 1),
{
    if level >= 0 {
        lemma_pow2_unfold((level + 1) as nat);
    } else if level == -1 {
        lemma_pow2_pos(0);
    }
}

/// A step below `2^level + slack` and one of at most `2^level` stay below
/// `2^(level + 1) + slack`.
pub proof fn lemma_below_scale_plus_sum(a: nat, b: nat, level: int, slack: nat)
    requires
        below_scale_plus(a, level, slack),
        within_scale(b, level),
    ensures
        below_scale_plus(a + b, level + 1, slack),
{
    if level >= 0 {
        lemma_pow2_unfold((level + 1) as nat);
    } else if level == -1 {
        lemma_pow2_pos(0);
    }
}

/// The bound `2^level + slack` grows with the level and with the slack.
pub proof fn lemma_below_scale_plus_monotonic(d: nat, lo: int, hi: int, small: nat, large: nat)
    requires
        lo <= hi,
        small <= large,
        below_scale_plus(d, lo, small),
    ensures
        below_scale_plus(d, hi, large),
{
    if 0 <= lo < hi {
        lemma_pow2_strictly_increases(lo as nat, hi as nat);
    }
    if lo < 0 <= hi {
        lemma_pow2_pos(hi as nat);
    }
}

/// A positive distance is within no scale below `2^0`.
pub proof fn lemma_positive_within_level(d: nat, level: int)
    requires
        d > 0,
        within_scale(d, level),
    ensures
        level >= 0,
{
}

/// A positive distance is below no scale up to `2^0`.
pub proof fn lemma_positive_below_level(d: nat, level: int)
    requires
        d > 0,
        below_scale(d, level),
    ensures
        level >= 1,
{
    if level == 0 {
        lemma2_to64();
    }
}

/// Every `u64` is within `2^level` once `level >= 64`.
pub proof fn lemma_u64_within_top(d: u64, level: int)
    requires
        level >= 64,
    ensures
        below_scale(d as nat, level),
        within_scale(d as nat, level),
{
    lemma2_to64();
    if level > 64 {
        lemma_pow2_strictly_increases(64, level as nat);
    }
}

/// `2^level` as a machine integer, for `0 <= level < 64`.
fn scale_of(level: i32) -> (s: u64)
    requires
        0 <= level < 64,
    ensures
        s == pow2(level as nat),
{
    proof {
        lemma_u64_pow2_no_overflow(level as nat);
        lemma_u64_shl_is_mul(1, level as u64);
    }
    1u64 << (level as u64)
}

/// Decides `d <= 2^level`.
pub fn is_within_scale(d: u64, level: i32) -> (b: bool)
    ensures
        b == within_scale(d as nat, level as int),
{
    if level < 0 {
        d == 0
    } else if level >= 64 {
        proof {
            lemma_u64_within_top(d, level as int);
        }
        true
    } else {
        d <= scale_of(level)
    }
}

/// Decides `d < 2^level`.
pub fn is_below_scale(d: u64, level: i32) -> (b: bool)
    ensures
        b == below_scale(d as nat, level as int),
{
    if level < 0 {
        d == 0
    } else if level >= 64 {
        proof {
            lemma_u64_within_top(d, level as int);
        }
        true
    } else {
        d < scale_of(level)
    }
}

/// Decides `d < 2^level + slack`.
pub fn is_below_scale_plus(d: u64, level: i32, slack: u64) -> (b: bool)
    ensures
        b == below_scale_plus(d as nat, level as int, slack as nat),
{
    if d <= slack {
        proof {
            if level >= 0 {
                lemma_pow2_pos(level as nat);
            }
        }
        true
    } else if level < 0 {
        false
    } else if level >= 64 {
        proof {
            lemma_u64_within_top(d, level as int);
        }
        true
    } else {
        d - slack < scale_of(level)
    }
}

proof fn lemma_cover_level_bounds(d: nat)
    ensures
        cover_level(d) >= 0,
        within_scale(d, cover_level(d)),
        cover_level(d) > 0 ==> !within_scale(d, cover_level(d) - 1),
    decreases d,
{
    lemma2_to64();
    if d > 1 {
        let h: nat = (d + 1) / 2;
        lemma_cover_level_bounds(h);
        let l = cover_level(h);
        lemma_pow2_unfold((l + 1) as nat);
        if l > 0 {
            lemma_pow2_unfold(l as nat);
        }
    }
}

/// `cover_level(d)` is the least level at or above zero whose scale covers `d`.
pub proof fn lemma_cover_level_least(d: nat, level: int)
    requires
        level >= 0,
        within_scale(d, level),
    ensures
        0 <= cover_level(d) <= level,
        within_scale(d, cover_level(d)),
{
    lemma_cover_level_bounds(d);
    let c = cover_level(d);
    if c > level {
        lemma_within_scale_monotonic(d, level, c - 1);
    }
}

/// The level to which a root must be raised to cover a point at distance `d`.
pub fn cover_level_of(d: u64) -> (level: i32)
    ensures
        level == cover_level(d as nat),
        0 <= level <= MAX_LEVEL,
        within_scale(d as nat, level as int),
{
    let mut level: i32 = 0;
    while level < 64 && scale_of(level) < d
        invariant
            0 <= level <= 64,
            forall|l: int| 0 <= l < level ==> !within_scale(d as nat, l),
        decreases 64 - level,
    {
        level = level + 1;
    }
    proof {
        if level == 64 {
            lemma_u64_within_top(d, 64);
        }
        lemma_cover_level_least(d as nat, level as int);
        lemma_cover_level_bounds(d as nat);
    }
    level
}

} // verus!
