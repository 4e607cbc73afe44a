//! The top layer of a new node, from a uniformly random draw.

use vstd::prelude::*;
use vstd::arithmetic::power2::{lemma2_to64, lemma_pow2_unfold, pow2};

verus! {

/// The highest layer that any node can be given.
pub const MAX_LEVEL: usize = 64;

/// The logarithm of `room` to the base `base`, rounded down; zero where the
/// base is below two or `room` is below the base.
pub open spec fn floor_log(room: int, base: int) -> nat
    decreases room,
{
    if base >= 2 && room >= base {
        proof {
            assert(room / base < room) by (nonlinear_arith)
                requires
                    base >= 2,
                    room >= base,
            ;
        }
        1 + floor_log(room / base, base)
    } else {
        0
    }
}

/// The top layer of a node whose uniform 64-bit draw is `draw`.
///
/// With `u = (draw + 1) / 2^64`, uniform in `(0, 1]`, this is the largest
/// `l` with `u * base^l <= 1`, the rounded-down value of `-ln(u) / ln(base)`:
/// layer `l` or above is reached with probability `base^-l`.
pub open spec fn level_of(draw: u64, base: u64) -> nat {
    floor_log(0x1_0000_0000_0000_0000int / (draw + 1), base as int)
}

/// The logarithm of a number below `2^k`, to a base of two or more, rounded
/// down, is below `k`.
pub proof fn lemma_floor_log_bound(room: int, base: int, k: nat)
    requires
        k >= 1,
        room < pow2(k),
    ensures
        floor_log(room, base) <= k - 1,
    decreases k,
{
    if base >= 2 && room >= base {
        lemma2_to64();
        if k > 1 {
            lemma_pow2_unfold(k);
            assert(room / base < pow2((k - 1) as nat)) by (nonlinear_arith)
                requires
                    base >= 2,
                    room >= base,
                    room < 2 * pow2((k - 1) as nat),
            ;
            if k == 2 {
                assert(room / base < base) by (nonlinear_arith)
                    requires
                        base >= 2,
                        room >= base,
                        room / base < 2,
                ;
            }
            lemma_floor_log_bound(room / base, base, (k - 1) as nat);
        }
    }
}

/// No draw gives a layer above `MAX_LEVEL`.
pub proof fn lemma_level_bound(draw: u64, base: u64)
    ensures
        level_of(draw, base) <= MAX_LEVEL,
{
    lemma2_to64();
    lemma_pow2_unfold(65);
    let room: int = 0x1_0000_0000_0000_0000int / (draw + 1);
    assert(room <= 0x1_0000_0000_0000_0000) by (nonlinear_arith)
        requires
            room == 0x1_0000_0000_0000_0000int / (draw + 1),
            draw >= 0,
    ;
    lemma_floor_log_bound(room, base as int, 65);
}

/// The top layer of a node whose uniform 64-bit draw is `draw`.
pub fn level_from_draw(draw: u64, base: u64) -> (level: usize)
    ensures
        level == level_of(draw, base),
        level <= MAX_LEVEL,
{
    let start: u128 = 0x1_0000_0000_0000_0000 / (draw as u128 + 1);
    let mut room: u128 = start;
    let mut level: usize = 0;
    proof {
        lemma_level_bound(draw, base);
    }
    if base < 2 {
        return 0;
    }
    while room >= base as u128
        invariant
            base >= 2,
            level + floor_log(room as int, base as int) == level_of(draw, base),
            level_of(draw, base) <= MAX_LEVEL,
        decreases room,
    {
        assert(room / (base as u128) < room) by (nonlinear_arith)
            requires
                base >= 2,
                room >= base,
        ;
        room = room / (base as u128);
        level = level + 1;
    }
    level
}

} // verus!
