//! Position of a harmonic mode in a flat coefficient buffer.
//!
//! A buffer holds the coefficients by increasing degree and, within a
//! degree, by increasing order: degree `l` fills the `2 l + 1` places that
//! follow those of the degrees below it.

use vstd::prelude::*;

verus! {

/// A mode is a degree `l >= 0` with an order `m` of `-l ..= l`.
pub open spec fn valid_mode(l: int, m: int) -> bool {
    0 <= l && -l <= m <= l
}

/// Place of the mode `(l, m)` in the buffer.
pub open spec fn offset_of(l: int, m: int) -> int {
    l * l + (m + l)
}

/// Number of modes of the degrees `0 ..= l_max`: the length a buffer needs
/// to hold them all.
pub open spec fn mode_count(l_max: int) -> int {
    (l_max + 1) * (l_max + 1)
}

/// Number of modes of the degrees below `l`, counted degree by degree.
pub open spec fn modes_below(l: nat) -> nat
    decreases l,
{
    if l == 0 {
        0
    } else {
        modes_below((l - 1) as nat) + (2 * (l - 1) + 1) as nat
    }
}

/// What a buffer holds for the mode `(l, m)`: nothing where the order
/// lies outside the degree or the buffer ends before the mode's place.
pub open spec fn sample_at<T>(buffer: Seq<T>, l: int, m: int) -> Option<T> {
    if valid_mode(l, m) && offset_of(l, m) < buffer.len() {
        Some(buffer[offset_of(l, m)])
    } else {
        None
    }
}

/// Computes the place of the mode `(l, m)`.
pub fn offset(l: u16, m: i32) -> (idx: usize)
    requires
        valid_mode(l as int, m as int),
    ensures
        idx == offset_of(l as int, m as int),
{
    let degree: u64 = l as u64;
    assert(degree * degree <= 65535 * 65535) by (nonlinear_arith)
        requires
            degree <= 65535,
    ;
    let shifted: u64 = (m as i64 + l as i64) as u64;
    let place: u64 = degree * degree + shifted;
    place as usize
}

/// Reads the coefficient of the mode `(l, m)`. A buffer too short to hold
/// the mode, or an order outside the degree, gives `None`, which stands
/// for a vanishing amplitude.
pub fn get<T: Copy>(buffer: &[T], l: u16, m: i32) -> (sample: Option<T>)
    ensures
        sample == sample_at(buffer@, l as int, m as int),
{
    let bound: i32 = l as i32;
    if m < -bound || m > bound {
        return None;
    }
    let idx: usize = offset(l, m);
    if idx < buffer.len() {
        Some(buffer[idx])
    } else {
        None
    }
}

/// The places of the degrees `0 ..= l_max` stay below `mode_count(l_max)`.
pub proof fn lemma_offset_in_range(l_max: int, l: int, m: int)
    requires
        valid_mode(l, m),
        l <= l_max,
    ensures
        0 <= offset_of(l, m) < mode_count(l_max),
{
    assert(l * l + 2 * l + 1 == (l + 1) * (l + 1)) by (nonlinear_arith);
    assert((l + 1) * (l + 1) <= (l_max + 1) * (l_max + 1)) by (nonlinear_arith)
        requires
            0 <= l <= l_max,
    ;
    assert(l * l >= 0) by (nonlinear_arith);
}

/// The places of a degree lie in `l * l ..= l * l + 2 * l`, below those of
/// the next degree.
pub proof fn lemma_offset_band(l: int, m: int)
    requires
        valid_mode(l, m),
    ensures
        l * l <= offset_of(l, m) < (l + 1) * (l + 1),
{
    assert(l * l + 2 * l + 1 == (l + 1) * (l + 1)) by (nonlinear_arith);
}

/// Two modes never share a place.
pub proof fn lemma_offset_injective(l: int, m: int, k: int, n: int)
    requires
        valid_mode(l, m),
        valid_mode(k, n),
        offset_of(l, m) == offset_of(k, n),
    ensures
        l == k,
        m == n,
{
    lemma_offset_band(l, m);
    lemma_offset_band(k, n);
    if l < k {
        assert((l + 1) * (l + 1) <= k * k) by (nonlinear_arith)
            requires
                0 <= l,
                l + 1 <= k,
        ;
    }
    if k < l {
        assert((k + 1) * (k + 1) <= l * l) by (nonlinear_arith)
            requires
                0 <= k,
                k + 1 <= l,
        ;
    }
}

/// Every place below `mode_count(l_max)` belongs to a mode of a degree of
/// `0 ..= l_max`: with the two laws above, the modes of those degrees fill
/// the places `0 .. mode_count(l_max)` one to one.
pub proof fn lemma_offset_covers(l_max: int, place: int) -> (mode: (int, int))
    requires
        0 <= l_max,
        0 <= place < mode_count(l_max),
    ensures
        valid_mode(mode.0, mode.1),
        mode.0 <= l_max,
        offset_of(mode.0, mode.1) == place,
    decreases l_max,
{
    if place >= l_max * l_max {
        assert(mode_count(l_max) == l_max * l_max + 2 * l_max + 1) by (nonlinear_arith);
        (l_max, place - l_max * l_max - l_max)
    } else {
        assert(l_max > 0) by (nonlinear_arith)
            requires
                0 <= l_max,
                0 <= place < l_max * l_max,
        ;
        lemma_offset_covers(l_max - 1, place)
    }
}

/// Counting the modes of the lower degrees one degree at a time gives the
/// same place as the closed form.
pub proof fn lemma_offset_is_cumulative(l: nat, m: int)
    ensures
        modes_below(l) == l * l,
        offset_of(l as int, m) == modes_below(l) + (m + l),
    decreases l,
{
    let below: int = l - 1;
    if l > 0 {
        lemma_offset_is_cumulative(below as nat, m);
        assert(below * below + 2 * below + 1 == (below + 1) * (below + 1)) by (nonlinear_arith);
    } else {
        assert(l * l == 0) by (nonlinear_arith)
            requires
                l == 0,
        ;
    }
}

/// A buffer long enough for the degrees `0 ..= l_max` holds every mode of
/// those degrees.
pub proof fn lemma_complete_buffer_holds(len: int, l_max: int, l: int, m: int)
    requires
        len >= mode_count(l_max),
        valid_mode(l, m),
        l <= l_max,
    ensures
        0 <= offset_of(l, m) < len,
{
    lemma_offset_in_range(l_max, l, m);
}

} // verus!
