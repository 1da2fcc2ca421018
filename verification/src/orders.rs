//! The order triples over which the bispectrum sum of one degree triple
//! runs.
//!
//! The sum has one term for every order triple that passes the selection
//! rules. This module fixes which triples those are and the sequence in
//! which they are visited, and hands them out one at a time.

use vstd::prelude::*;
use crate::coupling::selected;
use crate::triangle::{admissible, couples};

verus! {

/// The orders of one term of the sum.
#[derive(Clone, Copy, Debug, PartialEq, Eq, Structural)]
pub struct OrderTriple {
    pub m1: i32,
    pub m2: i32,
    pub m3: i32,
}

impl View for OrderTriple {
    type V = (int, int, int);

    open spec fn view(&self) -> (int, int, int) {
        (self.m1 as int, self.m2 as int, self.m3 as int)
    }
}

/// Smallest second order that leaves room for a third, given the first.
pub open spec fn window_low(l2: int, l3: int, m1: int) -> int {
    if -l2 >= -l3 - m1 {
        -l2
    } else {
        -l3 - m1
    }
}

/// Largest second order that leaves room for a third, given the first.
pub open spec fn window_high(l2: int, l3: int, m1: int) -> int {
    if l2 <= l3 - m1 {
        l2
    } else {
        l3 - m1
    }
}

/// The triples of first order `m1` whose second order is at least `from`,
/// by increasing second order.
pub open spec fn row_from(l2: int, l3: int, m1: int, from: int) -> Seq<(int, int, int)> {
    let low = window_low(l2, l3, m1);
    let start = if from >= low {
        from
    } else {
        low
    };
    let high = window_high(l2, l3, m1);
    if start <= high {
        Seq::new((high - start + 1) as nat, |j: int| (m1, start + j, -m1 - start - j))
    } else {
        Seq::empty()
    }
}

/// The rows of the first orders `m1, m1 + 1, .., l1`, one after another.
pub open spec fn rows_from(l1: int, l2: int, l3: int, m1: int) -> Seq<(int, int, int)>
    decreases l1 - m1 + 1,
{
    if m1 > l1 {
        Seq::empty()
    } else {
        row_from(l2, l3, m1, -l2) + rows_from(l1, l2, l3, m1 + 1)
    }
}

/// The terms of the sum for the degrees `(l1, l2, l3)`, in the sequence of
/// the sum: by increasing first order, then by increasing second order.
/// Degrees that do not couple have no term.
pub open spec fn selected_orders(l1: int, l2: int, l3: int) -> Seq<(int, int, int)> {
    if couples(l1, l2, l3) {
        rows_from(l1, l2, l3, -l1)
    } else {
        Seq::empty()
    }
}

/// Strict order of the sum: first order before second order.
pub open spec fn precedes(a: (int, int, int), b: (int, int, int)) -> bool {
    a.0 < b.0 || (a.0 == b.0 && a.1 < b.1)
}

/// What a row holds: the triples of its first order whose second order
/// lies in the window, from `from` on.
pub proof fn lemma_row_from_contains(l2: int, l3: int, m1: int, from: int, t: (int, int, int))
    ensures
        row_from(l2, l3, m1, from).contains(t) <==> {
            &&& t.0 == m1
            &&& from <= t.1
            &&& window_low(l2, l3, m1) <= t.1 <= window_high(l2, l3, m1)
            &&& t.2 == -t.0 - t.1
        },
{
    let row = row_from(l2, l3, m1, from);
    let low = window_low(l2, l3, m1);
    let start = if from >= low {
        from
    } else {
        low
    };
    if from <= t.1 && low <= t.1 <= window_high(l2, l3, m1) && t.0 == m1 && t.2 == -t.0 - t.1 {
        assert(row[t.1 - start] == t);
    }
}

/// What a run of rows holds.
pub proof fn lemma_rows_from_contains(l1: int, l2: int, l3: int, m1: int, t: (int, int, int))
    ensures
        rows_from(l1, l2, l3, m1).contains(t) <==> {
            &&& m1 <= t.0 <= l1
            &&& window_low(l2, l3, t.0) <= t.1 <= window_high(l2, l3, t.0)
            &&& t.2 == -t.0 - t.1
        },
    decreases l1 - m1 + 1,
{
    if m1 <= l1 {
        let head = row_from(l2, l3, m1, -l2);
        let tail = rows_from(l1, l2, l3, m1 + 1);
        lemma_row_from_contains(l2, l3, m1, -l2, t);
        lemma_rows_from_contains(l1, l2, l3, m1 + 1, t);
        lemma_concat_contains(head, tail, t);
    }
}

/// An element of a concatenation is an element of one of its halves.
proof fn lemma_concat_contains<A>(a: Seq<A>, b: Seq<A>, x: A)
    ensures
        (a + b).contains(x) <==> (a.contains(x) || b.contains(x)),
{
    if a.contains(x) {
        let i = choose|i: int| 0 <= i < a.len() && a[i] == x;
        assert((a + b)[i] == x);
    }
    if b.contains(x) {
        let i = choose|i: int| 0 <= i < b.len() && b[i] == x;
        assert((a + b)[a.len() + i] == x);
    }
    if (a + b).contains(x) {
        let i = choose|i: int| 0 <= i < (a + b).len() && (a + b)[i] == x;
        if i < a.len() {
            assert(a[i] == x);
        } else {
            assert(b[i - a.len()] == x);
        }
    }
}

/// The terms of the sum are exactly the order triples that pass the
/// selection rules.
pub proof fn lemma_selected_orders_are_the_selected(l1: int, l2: int, l3: int, t: (int, int, int))
    ensures
        selected_orders(l1, l2, l3).contains(t) <==> selected(l1, l2, l3, t.0, t.1, t.2),
{
    if couples(l1, l2, l3) {
        lemma_rows_from_contains(l1, l2, l3, -l1, t);
    }
}

/// Within a run of rows every triple precedes the ones after it.
pub proof fn lemma_rows_from_increasing(l1: int, l2: int, l3: int, m1: int, i: int, j: int)
    requires
        0 <= i < j < rows_from(l1, l2, l3, m1).len(),
    ensures
        precedes(rows_from(l1, l2, l3, m1)[i], rows_from(l1, l2, l3, m1)[j]),
    decreases l1 - m1 + 1,
{
    let head = row_from(l2, l3, m1, -l2);
    let tail = rows_from(l1, l2, l3, m1 + 1);
    if j < head.len() {
    } else if i < head.len() {
        let later = tail[j - head.len()];
        assert(tail.contains(later));
        lemma_rows_from_contains(l1, l2, l3, m1 + 1, later);
    } else {
        lemma_rows_from_increasing(l1, l2, l3, m1 + 1, i - head.len(), j - head.len());
    }
}

/// The terms come by increasing first order, then by increasing second
/// order; in particular none occurs twice.
pub proof fn lemma_selected_orders_increasing(l1: int, l2: int, l3: int, i: int, j: int)
    requires
        0 <= i < j < selected_orders(l1, l2, l3).len(),
    ensures
        precedes(selected_orders(l1, l2, l3)[i], selected_orders(l1, l2, l3)[j]),
{
    lemma_rows_from_increasing(l1, l2, l3, -l1, i, j);
}

/// Degrees that do not couple contribute no term, whatever the amplitudes.
pub proof fn lemma_no_term_without_coupling(l1: int, l2: int, l3: int)
    requires
        !couples(l1, l2, l3),
    ensures
        selected_orders(l1, l2, l3).len() == 0,
{
}

/// Number of order pairs `(m1, m2)` of the first two degrees.
pub open spec fn order_pairs(l1: int, l2: int) -> int {
    (2 * l1 + 1) * (2 * l2 + 1)
}

/// A run of rows has at most `2 l2 + 1` triples for each of its first
/// orders.
pub proof fn lemma_rows_from_count(l1: int, l2: int, l3: int, m1: int)
    requires
        0 <= l2,
        m1 <= l1 + 1,
    ensures
        rows_from(l1, l2, l3, m1).len() <= (l1 - m1 + 1) * (2 * l2 + 1),
    decreases l1 - m1 + 1,
{
    if m1 <= l1 {
        lemma_rows_from_count(l1, l2, l3, m1 + 1);
        assert((l1 - m1) * (2 * l2 + 1) + (2 * l2 + 1) == (l1 - m1 + 1) * (2 * l2 + 1))
            by (nonlinear_arith);
    } else {
        assert((l1 - m1 + 1) * (2 * l2 + 1) == 0) by (nonlinear_arith)
            requires
                l1 - m1 + 1 == 0,
        ;
    }
}

/// No degree triple has more terms than the first two degrees have order
/// pairs.
pub proof fn lemma_selected_orders_count(l1: int, l2: int, l3: int)
    requires
        0 <= l1,
        0 <= l2,
    ensures
        selected_orders(l1, l2, l3).len() <= order_pairs(l1, l2),
{
    if couples(l1, l2, l3) {
        lemma_rows_from_count(l1, l2, l3, -l1);
    } else {
        assert(0 <= (2 * l1 + 1) * (2 * l2 + 1)) by (nonlinear_arith)
            requires
                0 <= l1,
                0 <= l2,
        ;
    }
}

/// Hands out the terms of one degree triple, one at a time.
pub struct OrderCursor {
    l1: u16,
    l2: u16,
    l3: u16,
    m1: i32,
    m2: i32,
}

impl OrderCursor {
    #[verifier::type_invariant]
    spec fn in_range(self) -> bool {
        &&& -(self.l1 as int) <= self.m1 <= self.l1 + 1
        &&& -(self.l2 as int) <= self.m2 <= self.l2 + 1
    }

    /// The degrees whose terms are handed out.
    pub closed spec fn degrees(self) -> (int, int, int) {
        (self.l1 as int, self.l2 as int, self.l3 as int)
    }

    /// The terms not handed out yet, next one first.
    pub closed spec fn remaining(self) -> Seq<(int, int, int)> {
        if self.m1 > self.l1 {
            Seq::empty()
        } else {
            row_from(self.l2 as int, self.l3 as int, self.m1 as int, self.m2 as int) + rows_from(
                self.l1 as int,
                self.l2 as int,
                self.l3 as int,
                self.m1 + 1,
            )
        }
    }

    /// A cursor before the first term of the degrees `(l1, l2, l3)`.
    pub fn new(l1: u16, l2: u16, l3: u16) -> (cursor: OrderCursor)
        ensures
            cursor.degrees() == (l1 as int, l2 as int, l3 as int),
            cursor.remaining() == selected_orders(l1 as int, l2 as int, l3 as int),
    {
        let first: i32 = if admissible(l1, l2, l3) {
            -(l1 as i32)
        } else {
            l1 as i32 + 1
        };
        OrderCursor { l1, l2, l3, m1: first, m2: -(l2 as i32) }
    }

    /// Hands out the next term, or `None` once all are out.
    pub fn next(&mut self) -> (item: Option<OrderTriple>)
        ensures
            final(self).degrees() == old(self).degrees(),
            match item {
                Some(t) => {
                    &&& old(self).remaining().len() > 0
                    &&& t@ == old(self).remaining()[0]
                    &&& final(self).remaining() == old(self).remaining().skip(1)
                },
                None => {
                    &&& old(self).remaining().len() == 0
                    &&& final(self).remaining().len() == 0
                },
            },
    {
        proof {
            use_type_invariant(&*self);
        }
        let top: i32 = self.l1 as i32;
        let width: i32 = self.l2 as i32;
        let reach: i32 = self.l3 as i32;
        while self.m1 <= top
            invariant
                top == self.l1,
                width == self.l2,
                reach == self.l3,
                -top <= self.m1 <= top + 1,
                -width <= self.m2 <= width + 1,
                self.degrees() == old(self).degrees(),
                self.remaining() == old(self).remaining(),
            decreases top - self.m1 + 1,
        {
            let low: i32 = if -width >= -reach - self.m1 {
                -width
            } else {
                -reach - self.m1
            };
            let high: i32 = if width <= reach - self.m1 {
                width
            } else {
                reach - self.m1
            };
            let start: i32 = if self.m2 >= low {
                self.m2
            } else {
                low
            };
            if start <= high {
                let t = OrderTriple { m1: self.m1, m2: start, m3: -self.m1 - start };
                proof {
                    let row = row_from(width as int, reach as int, self.m1 as int, self.m2 as int);
                    let rest = rows_from(top as int, width as int, reach as int, self.m1 + 1);
                    let shorter = row_from(width as int, reach as int, self.m1 as int, start + 1);
                    assert(row[0] == t@);
                    assert(shorter =~= row.skip(1));
                    assert((row + rest).skip(1) =~= row.skip(1) + rest);
                }
                self.m2 = start + 1;
                return Some(t);
            }
            proof {
                let row = row_from(width as int, reach as int, self.m1 as int, self.m2 as int);
                let rest = rows_from(top as int, width as int, reach as int, self.m1 + 1);
                assert(row + rest =~= rest);
            }
            self.m2 = -width;
            self.m1 = self.m1 + 1;
        }
        None
    }
}

} // verus!
