//! One result per degree triple, in the sequence of the triples.

use vstd::prelude::*;

verus! {

/// `results` answers `configs`: it has one entry for each configuration,
/// and the entry at a place is what `estimate` gives for the configuration
/// at that place.
pub open spec fn answers<R, F: Fn(u16, u16, u16) -> R>(
    estimate: F,
    configs: Seq<(u16, u16, u16)>,
    results: Seq<R>,
) -> bool {
    &&& results.len() == configs.len()
    &&& forall|i: int|
        0 <= i < configs.len() ==> estimate.ensures(configs[i], #[trigger] results[i])
}

/// `estimate` gives one value for one configuration.
pub open spec fn single_valued<R, F: Fn(u16, u16, u16) -> R>(estimate: F) -> bool {
    forall|config: (u16, u16, u16), a: R, b: R|
        estimate.ensures(config, a) && estimate.ensures(config, b) ==> a == b
}

/// Applies `estimate` to each configuration and returns the results in
/// the sequence of the configurations: none is dropped, none is moved.
pub fn evaluate_all<R, F: Fn(u16, u16, u16) -> R>(configs: &[(u16, u16, u16)], estimate: F) -> (results:
    Vec<R>)
    requires
        forall|i: int| 0 <= i < configs@.len() ==> estimate.requires(#[trigger] configs@[i]),
    ensures
        answers(estimate, configs@, results@),
{
    let mut results: Vec<R> = Vec::new();
    let mut done: usize = 0;
    while done < configs.len()
        invariant
            done <= configs@.len(),
            forall|i: int| 0 <= i < configs@.len() ==> estimate.requires(#[trigger] configs@[i]),
            answers(estimate, configs@.take(done as int), results@),
        decreases configs@.len() - done,
    {
        let (l1, l2, l3) = configs[done];
        let value = estimate(l1, l2, l3);
        results.push(value);
        done = done + 1;
    }
    assert(configs@.take(done as int) =~= configs@);
    results
}

/// Results follow their configurations. Take any selection `order` of
/// places of `configs` (a permutation, for one) and the configurations
/// read in that order: what answers them is `results` read in that same
/// order, as long as `estimate` gives one value for one configuration.
pub proof fn lemma_results_follow_configs<R, F: Fn(u16, u16, u16) -> R>(
    estimate: F,
    configs: Seq<(u16, u16, u16)>,
    results: Seq<R>,
    order: Seq<int>,
    reordered: Seq<R>,
)
    requires
        single_valued(estimate),
        answers(estimate, configs, results),
        forall|k: int| 0 <= k < order.len() ==> 0 <= #[trigger] order[k] < configs.len(),
        answers(estimate, Seq::new(order.len(), |k: int| configs[order[k]]), reordered),
    ensures
        reordered =~= Seq::new(order.len(), |k: int| results[order[k]]),
{
    let moved = Seq::new(order.len(), |k: int| configs[order[k]]);
    assert forall|k: int| 0 <= k < order.len() implies reordered[k] == results[order[k]] by {
        let from = order[k];
        assert(estimate.ensures(moved[k], reordered[k]));
        assert(estimate.ensures(configs[from], results[from]));
    }
}

/// Two answers to the same configurations are equal, as long as
/// `estimate` gives one value for one configuration.
pub proof fn lemma_answers_unique<R, F: Fn(u16, u16, u16) -> R>(
    estimate: F,
    configs: Seq<(u16, u16, u16)>,
    first: Seq<R>,
    second: Seq<R>,
)
    requires
        single_valued(estimate),
        answers(estimate, configs, first),
        answers(estimate, configs, second),
    ensures
        first =~= second,
{
    assert forall|i: int| 0 <= i < configs.len() implies first[i] == second[i] by {
        assert(estimate.ensures(configs[i], first[i]));
        assert(estimate.ensures(configs[i], second[i]));
    }
}

} // verus!
