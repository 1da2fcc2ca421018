//! The triangle rule: when three harmonic degrees can couple.

use vstd::prelude::*;

verus! {

/// Three degrees couple when each is at most the sum of the other two and
/// their total is even.
pub open spec fn couples(l1: int, l2: int, l3: int) -> bool {
    &&& l1 + l2 >= l3
    &&& l1 + l3 >= l2
    &&& l2 + l3 >= l1
    &&& (l1 + l2 + l3) % 2 == 0
}

/// Distance between two degrees.
pub open spec fn gap(a: int, b: int) -> int {
    if a >= b {
        a - b
    } else {
        b - a
    }
}

/// Decides the triangle rule for the degrees `(l1, l2, l3)`.
pub fn admissible(l1: u16, l2: u16, l3: u16) -> (ok: bool)
    ensures
        ok == couples(l1 as int, l2 as int, l3 as int),
{
    let a: u32 = l1 as u32;
    let b: u32 = l2 as u32;
    let c: u32 = l3 as u32;
    a + b >= c && a + c >= b && b + c >= a && (a + b + c) % 2 == 0
}

/// The three pairwise bounds say the same as the usual two-sided bound on
/// the third degree: `|l1 - l2| <= l3 <= l1 + l2`.
pub proof fn lemma_couples_iff_third_leg_bounded(l1: int, l2: int, l3: int)
    ensures
        couples(l1, l2, l3) <==> (gap(l1, l2) <= l3 <= l1 + l2 && (l1 + l2 + l3) % 2 == 0),
{
}

/// The rule does not depend on the order in which the degrees are given:
/// it survives a rotation and a swap, hence every permutation.
pub proof fn lemma_couples_symmetric(l1: int, l2: int, l3: int)
    ensures
        couples(l1, l2, l3) == couples(l2, l3, l1),
        couples(l1, l2, l3) == couples(l2, l1, l3),
{
}

/// Degrees that couple are bounded by half their total, so none of them
/// is negative as soon as they couple.
pub proof fn lemma_couples_nonnegative(l1: int, l2: int, l3: int)
    requires
        couples(l1, l2, l3),
    ensures
        l1 >= 0,
        l2 >= 0,
        l3 >= 0,
{
}

} // verus!
