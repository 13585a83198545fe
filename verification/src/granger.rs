//! Granger causality F-test: the degrees of freedom of the test and the
//! series lengths on which it runs.
//!
//! The test fits a restricted VAR(`lag`) model (the effect series alone) and
//! an unrestricted one (effect and cause) on the `n - lag` observations of
//! an effect series of length `n`, and compares their residual sums of
//! squares with `lag` and `n - lag - 2 * lag - 1` degrees of freedom.
use vstd::prelude::*;

verus! {

/// Granger causality test.
pub struct GrangerTest;

/// The series lengths on which the test runs: at least `2 * lag + 1`
/// observations remain after the first `lag` values of the effect series,
/// and the cause series is at least as long as the effect series.
pub open spec fn test_accepts(cause_len: nat, effect_len: nat, lag: nat) -> bool {
    &&& 3 * lag + 1 <= effect_len
    &&& cause_len >= effect_len
}

/// The test runs exactly when its counts are defined and the unrestricted
/// fit reads only values present: the number of observations
/// `n_obs = effect_len - lag` is not negative, the denominator degrees of
/// freedom `n_obs - 2 * lag - 1` are not negative, and the cause series is
/// as long as the effect series. This holds for every lag order.
pub proof fn test_accepts_when_counts_are_defined(cause_len: nat, effect_len: nat, lag: nat)
    ensures
        test_accepts(cause_len, effect_len, lag) <==> (lag <= effect_len && effect_len - lag - 2
            * lag - 1 >= 0 && cause_len >= effect_len),
{
}

impl GrangerTest {
    /// Degrees of freedom `(lag, n_obs - 2 * lag - 1)` of the F-test, with
    /// `n_obs = effect_len - lag`, or `None` for lengths on which the test
    /// cannot run.
    pub fn degrees_of_freedom(cause_len: usize, effect_len: usize, lag: usize) -> (r: Option<
        (usize, usize),
    >)
        ensures
            r is Some <==> test_accepts(cause_len as nat, effect_len as nat, lag as nat),
            r is Some <==> (lag <= effect_len && effect_len - lag >= 2 * lag + 1 && cause_len
                >= effect_len),
            r matches Some((num, denom)) ==> num == lag && denom == (effect_len - lag) - 2 * lag
                - 1,
    {
        if effect_len == 0 || lag > (effect_len - 1) / 3 || cause_len < effect_len {
            None
        } else {
            let n_obs = effect_len - lag;
            Some((lag, n_obs - 2 * lag - 1))
        }
    }
}

} // verus!
