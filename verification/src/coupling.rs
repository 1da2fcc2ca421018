//! Selection rules of the coupling coefficient of three harmonic modes.

use vstd::prelude::*;
use crate::triangle::{admissible, couples};

verus! {

/// An order `m` belongs to a degree `l` when `|m| <= l`.
pub open spec fn order_fits(l: int, m: int) -> bool {
    -l <= m <= l
}

/// The rules under which the coefficient of the columns `(l1, m1)`,
/// `(l2, m2)`, `(l3, m3)` may differ from zero: the degrees couple, the
/// orders cancel, and each order belongs to its degree.
pub open spec fn selected(l1: int, l2: int, l3: int, m1: int, m2: int, m3: int) -> bool {
    &&& couples(l1, l2, l3)
    &&& m1 + m2 + m3 == 0
    &&& order_fits(l1, m1)
    &&& order_fits(l2, m2)
    &&& order_fits(l3, m3)
}

/// Decides the selection rules. Where this returns `false` the coupling
/// coefficient is zero, and nothing has to be evaluated.
pub fn selection_rules(l1: u16, l2: u16, l3: u16, m1: i32, m2: i32, m3: i32) -> (ok: bool)
    ensures
        ok == selected(l1 as int, l2 as int, l3 as int, m1 as int, m2 as int, m3 as int),
{
    if !admissible(l1, l2, l3) {
        return false;
    }
    let total: i64 = m1 as i64 + m2 as i64 + m3 as i64;
    if total != 0 {
        return false;
    }
    fits(l1, m1) && fits(l2, m2) && fits(l3, m3)
}

/// Decides whether the order `m` belongs to the degree `l`.
pub fn fits(l: u16, m: i32) -> (ok: bool)
    ensures
        ok == order_fits(l as int, m as int),
{
    let bound: i32 = l as i32;
    -bound <= m && m <= bound
}

/// The rules are blind to the order of the columns: they survive a
/// rotation and a swap of two columns, hence every permutation.
pub proof fn lemma_selected_under_permutation(
    l1: int,
    l2: int,
    l3: int,
    m1: int,
    m2: int,
    m3: int,
)
    ensures
        selected(l1, l2, l3, m1, m2, m3) == selected(l2, l3, l1, m2, m3, m1),
        selected(l1, l2, l3, m1, m2, m3) == selected(l2, l1, l3, m2, m1, m3),
{
}

/// The rules are blind to a reversal of all three orders.
pub proof fn lemma_selected_under_reversal(l1: int, l2: int, l3: int, m1: int, m2: int, m3: int)
    ensures
        selected(l1, l2, l3, m1, m2, m3) == selected(l1, l2, l3, -m1, -m2, -m3),
{
}

/// Once the first two orders are chosen the third is forced, and it is
/// admitted exactly when the second lies in a window set by the first.
pub proof fn lemma_selected_window(l1: int, l2: int, l3: int, m1: int, m2: int)
    ensures
        selected(l1, l2, l3, m1, m2, -m1 - m2) <==> {
            &&& couples(l1, l2, l3)
            &&& order_fits(l1, m1)
            &&& -l2 <= m2 <= l2
            &&& -l3 - m1 <= m2 <= l3 - m1
        },
{
}

} // verus!
