//! The bispectrum sum of one degree triple.
//!
//! The sum runs over the order triples that pass the selection rules, in
//! a fixed sequence, and reads three amplitudes from the coefficient
//! buffer for each. What is done with them (the weight of a term, the
//! arithmetic) belongs to the caller, who passes it in as a step from one
//! running value to the next.

use vstd::prelude::*;
use crate::mode_index::{get, sample_at};
use crate::coupling::selected;
use crate::orders::{
    lemma_selected_orders_are_the_selected, selected_orders, OrderCursor, OrderTriple,
};
use crate::triangle::couples;

verus! {

/// One term of the sum: its orders, and the amplitude the buffer holds
/// for each of its three modes (`None` where it holds none).
#[derive(Debug)]
pub struct Term<T> {
    pub orders: OrderTriple,
    pub first: Option<T>,
    pub second: Option<T>,
    pub third: Option<T>,
}

/// The term of the orders `t` over `buffer`.
pub open spec fn term_of<T>(buffer: Seq<T>, l1: int, l2: int, l3: int, t: (int, int, int)) -> Term<
    T,
> {
    Term {
        orders: OrderTriple { m1: t.0 as i32, m2: t.1 as i32, m3: t.2 as i32 },
        first: sample_at(buffer, l1, t.0),
        second: sample_at(buffer, l2, t.1),
        third: sample_at(buffer, l3, t.2),
    }
}

/// The terms of the sum for the degrees `(l1, l2, l3)` over `buffer`, in
/// the sequence of the sum.
pub open spec fn selected_terms<T>(buffer: Seq<T>, l1: int, l2: int, l3: int) -> Seq<Term<T>> {
    Seq::new(
        selected_orders(l1, l2, l3).len(),
        |i: int| term_of(buffer, l1, l2, l3, selected_orders(l1, l2, l3)[i]),
    )
}

/// Every term of the sum passes the selection rules, so a step is only
/// ever asked for a coefficient that may differ from zero.
pub proof fn lemma_terms_are_selected<T>(buffer: Seq<T>, l1: int, l2: int, l3: int, i: int)
    requires
        0 <= i < selected_terms(buffer, l1, l2, l3).len(),
    ensures
        selected_terms(buffer, l1, l2, l3)[i] == term_of(
            buffer,
            l1,
            l2,
            l3,
            selected_orders(l1, l2, l3)[i],
        ),
        selected(
            l1,
            l2,
            l3,
            selected_orders(l1, l2, l3)[i].0,
            selected_orders(l1, l2, l3)[i].1,
            selected_orders(l1, l2, l3)[i].2,
        ),
{
    let t = selected_orders(l1, l2, l3)[i];
    assert(selected_orders(l1, l2, l3).contains(t));
    lemma_selected_orders_are_the_selected(l1, l2, l3, t);
}

/// `trace` records a run of `step` over `terms`: it starts anywhere, and
/// each term takes the running value one place further.
pub open spec fn reduces<T, A, F: Fn(A, Term<T>) -> A>(
    step: F,
    terms: Seq<Term<T>>,
    trace: Seq<A>,
) -> bool {
    &&& trace.len() == terms.len() + 1
    &&& forall|i: int|
        0 <= i < terms.len() ==> step.ensures((trace[i], #[trigger] terms[i]), trace[i + 1])
}

/// `step` gives one value for one running value and term.
pub open spec fn single_valued<T, A, F: Fn(A, Term<T>) -> A>(step: F) -> bool {
    forall|acc: A, term: Term<T>, a: A, b: A|
        step.ensures((acc, term), a) && step.ensures((acc, term), b) ==> a == b
}

/// Two runs over the same terms from the same start agree up to any place.
proof fn lemma_runs_agree<T, A, F: Fn(A, Term<T>) -> A>(
    step: F,
    terms: Seq<Term<T>>,
    first: Seq<A>,
    second: Seq<A>,
    upto: int,
)
    requires
        single_valued(step),
        reduces(step, terms, first),
        reduces(step, terms, second),
        first.first() == second.first(),
        0 <= upto <= terms.len(),
    ensures
        first[upto] == second[upto],
    decreases upto,
{
    if upto > 0 {
        lemma_runs_agree(step, terms, first, second, upto - 1);
        let term = terms[upto - 1];
        assert(step.ensures((first[upto - 1], term), first[upto - 1 + 1]));
        assert(step.ensures((second[upto - 1], term), second[upto - 1 + 1]));
    }
}

/// A run is fixed by its start and its terms, as long as `step` gives one
/// value for one running value and term: evaluating twice gives the same.
pub proof fn lemma_run_unique<T, A, F: Fn(A, Term<T>) -> A>(
    step: F,
    terms: Seq<Term<T>>,
    first: Seq<A>,
    second: Seq<A>,
)
    requires
        single_valued(step),
        reduces(step, terms, first),
        reduces(step, terms, second),
        first.first() == second.first(),
    ensures
        first =~= second,
        first.last() == second.last(),
{
    assert forall|i: int| 0 <= i < first.len() implies first[i] == second[i] by {
        lemma_runs_agree(step, terms, first, second, i);
    }
}

/// Runs `step` over the terms of the degrees `(l1, l2, l3)`, starting from
/// `init`, and returns the last running value. Degrees that do not couple
/// have no term, so `init` comes back whatever the buffer holds.
pub fn evaluate<T: Copy, A, F: Fn(A, Term<T>) -> A>(
    buffer: &[T],
    l1: u16,
    l2: u16,
    l3: u16,
    init: A,
    step: F,
) -> (total: A)
    requires
        forall|acc: A, i: int|
            0 <= i < selected_terms(buffer@, l1 as int, l2 as int, l3 as int).len()
                ==> #[trigger] step.requires(
                (acc, selected_terms(buffer@, l1 as int, l2 as int, l3 as int)[i]),
            ),
    ensures
        !couples(l1 as int, l2 as int, l3 as int) ==> total == init,
        exists|trace: Seq<A>|
            {
                &&& #[trigger] reduces(
                    step,
                    selected_terms(buffer@, l1 as int, l2 as int, l3 as int),
                    trace,
                )
                &&& trace.first() == init
                &&& trace.last() == total
            },
{
    let ghost terms = selected_terms(buffer@, l1 as int, l2 as int, l3 as int);
    let ghost all = selected_orders(l1 as int, l2 as int, l3 as int);
    let ghost mut trace: Seq<A> = seq![init];
    let ghost mut done: int = 0;
    let mut cursor = OrderCursor::new(l1, l2, l3);
    let mut acc = init;
    loop
        invariant
            terms == selected_terms(buffer@, l1 as int, l2 as int, l3 as int),
            all == selected_orders(l1 as int, l2 as int, l3 as int),
            cursor.degrees() == (l1 as int, l2 as int, l3 as int),
            0 <= done <= all.len(),
            cursor.remaining() == all.skip(done),
            trace.len() == done + 1,
            trace.first() == init,
            trace.last() == acc,
            forall|i: int| 0 <= i < done ==> step.ensures((trace[i], #[trigger] terms[i]), trace[i + 1]),
            forall|a: A, i: int| 0 <= i < terms.len() ==> #[trigger] step.requires((a, terms[i])),
        ensures
            done == all.len(),
            trace.len() == done + 1,
            trace.first() == init,
            trace.last() == acc,
            forall|i: int| 0 <= i < done ==> step.ensures((trace[i], #[trigger] terms[i]), trace[i + 1]),
        decreases all.len() - done,
    {
        match cursor.next() {
            None => {
                break ;
            },
            Some(orders) => {
                let term = Term {
                    orders,
                    first: get(buffer, l1, orders.m1),
                    second: get(buffer, l2, orders.m2),
                    third: get(buffer, l3, orders.m3),
                };
                assert(term == terms[done]);
                let next = step(acc, term);
                proof {
                    trace = trace.push(next);
                    done = done + 1;
                    assert(all.skip(done - 1).skip(1) =~= all.skip(done));
                }
                acc = next;
            },
        }
    }
    proof {
        assert(reduces(step, terms, trace));
    }
    acc
}

/// The integer under the root of the normalisation, `(2 l1 + 1)(2 l2 + 1)(2 l3 + 1)`.
pub open spec fn multiplicity(l1: int, l2: int, l3: int) -> int {
    (2 * l1 + 1) * (2 * l2 + 1) * (2 * l3 + 1)
}

/// Computes the multiplicity of the degrees `(l1, l2, l3)`.
pub fn normalization_weight(l1: u16, l2: u16, l3: u16) -> (weight: u64)
    ensures
        weight == multiplicity(l1 as int, l2 as int, l3 as int),
{
    let a: u64 = 2 * (l1 as u64) + 1;
    let b: u64 = 2 * (l2 as u64) + 1;
    let c: u64 = 2 * (l3 as u64) + 1;
    assert(a * b <= 131071 * 131071) by (nonlinear_arith)
        requires
            a <= 131071,
            b <= 131071,
    ;
    let ab: u64 = a * b;
    assert(ab * c <= 17179607041 * 131071) by (nonlinear_arith)
        requires
            ab <= 17179607041,
            c <= 131071,
    ;
    ab * c
}

} // verus!
