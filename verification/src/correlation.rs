//! Autocorrelation and cross-correlation: the pairs of values that enter
//! the correlation at a lag.
//!
//! At lag `k`, the correlation of two series sums the products of
//! `x[i]` and `y[i + k]` over `i < n - k`, where `n` is the length of the
//! shorter series (of the series itself for an autocorrelation); at a lag
//! `k >= n` there is no pair and the correlation is 0.
use vstd::prelude::*;

verus! {

/// Autocorrelation function computation.
pub struct Autocorrelation;

/// Length over which two series are compared.
pub open spec fn common_length(x_len: nat, y_len: nat) -> nat {
    if x_len <= y_len {
        x_len
    } else {
        y_len
    }
}

/// The common length is the length of the shorter series, whichever of
/// the two it is: it is no longer than either, equals one of them, and does
/// not depend on the order of the series. The lagged pairs `(x[i], y[i + k])`
/// counted at lag `k` (`common_length - k` of them) end inside both series.
pub proof fn common_length_is_shorter_length(x_len: nat, y_len: nat, k: nat)
    ensures
        common_length(x_len, y_len) <= x_len,
        common_length(x_len, y_len) <= y_len,
        common_length(x_len, y_len) == x_len || common_length(x_len, y_len) == y_len,
        common_length(x_len, y_len) == common_length(y_len, x_len),
        k < common_length(x_len, y_len) <==> (k < x_len && k < y_len),
        k < common_length(x_len, y_len) ==> (common_length(x_len, y_len) - k) + k <= x_len
            && (common_length(x_len, y_len) - k) + k <= y_len,
{
}

impl Autocorrelation {
    /// Number of lagged pairs `(x[i], y[i + k])` at lag `k`:
    /// `common_length - k`, or `None` when `k` is not below the common
    /// length (the correlation is then 0).
    pub fn overlap(x_len: usize, y_len: usize, k: usize) -> (r: Option<usize>)
        ensures
            r is Some <==> k < common_length(x_len as nat, y_len as nat),
            r matches Some(p) ==> p == common_length(x_len as nat, y_len as nat) - k,
            r is Some <==> (k < x_len && k < y_len),
            r matches Some(p) ==> p + k <= x_len && p + k <= y_len && (p + k == x_len || p + k
                == y_len),
    {
        let n = if x_len <= y_len {
            x_len
        } else {
            y_len
        };
        if k >= n {
            None
        } else {
            Some(n - k)
        }
    }
}

} // verus!
