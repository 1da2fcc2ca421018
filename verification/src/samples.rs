//! What the vector statistics ask of their inputs before any arithmetic.

use vstd::prelude::*;

verus! {

/// Why a statistic cannot be computed.
#[derive(Clone, Copy, Debug, PartialEq, Eq, Structural)]
pub enum StatsError {
    /// The input holds no sample.
    InvalidInput,
}

/// Moments are defined for at least one sample: returns the number of
/// samples, or `InvalidInput` for an empty input.
pub fn sample_count<T>(samples: &[T]) -> (count: Result<usize, StatsError>)
    ensures
        samples@.len() > 0 ==> count == Ok::<usize, StatsError>(samples@.len() as usize),
        samples@.len() == 0 ==> count == Err::<usize, StatsError>(StatsError::InvalidInput),
{
    let n: usize = samples.len();
    if n == 0 {
        Err(StatsError::InvalidInput)
    } else {
        Ok(n)
    }
}

/// A ratio of norms is formed only where both inputs hold a sample; where
/// this returns `false` the ratio is zero.
pub fn ratio_defined<T>(high: &[T], low: &[T]) -> (ok: bool)
    ensures
        ok == (high@.len() > 0 && low@.len() > 0),
{
    high.len() > 0 && low.len() > 0
}

} // verus!
