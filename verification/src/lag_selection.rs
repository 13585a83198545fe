//! Lag order selection by an information criterion.
//!
//! The criterion is evaluated for the lags `1..=max_lag` in turn; a lag
//! replaces the current choice only when its value is strictly below the
//! value of the current choice, the first comparison being against +infinity.
//! The values themselves are floating point and compared by the caller: this
//! module receives the outcome of each comparison and makes the choice.
use vstd::prelude::*;

verus! {

/// Lag order selection via information criteria.
pub struct LagSelection;

/// Candidate (0-based position in `1..=max_lag`) held after the first `k`
/// candidates were scanned, or `None` while no candidate was below
/// +infinity. `below_infinity[i]` is "value `i` < +infinity" and
/// `less[i][j]` is "value `i` < value `j`".
pub open spec fn running_best(below_infinity: Seq<bool>, less: Seq<Seq<bool>>, k: nat) -> Option<
    nat,
>
    decreases k,
{
    if k == 0 {
        None
    } else {
        let i = (k - 1) as nat;
        match running_best(below_infinity, less, i) {
            None => if below_infinity[i as int] {
                Some(i)
            } else {
                None
            },
            Some(j) => if less[i as int][j as int] {
                Some(i)
            } else {
                Some(j)
            },
        }
    }
}

/// The lag that the scan returns: the lag of the candidate held at the end,
/// or lag 1 when no candidate was below +infinity.
pub open spec fn selected_lag(below_infinity: Seq<bool>, less: Seq<Seq<bool>>) -> nat {
    match running_best(below_infinity, less, below_infinity.len()) {
        None => 1,
        Some(j) => j + 1,
    }
}

/// The comparison outcomes form a square table over the candidates.
pub open spec fn is_square(below_infinity: Seq<bool>, less: Seq<Seq<bool>>) -> bool {
    &&& less.len() == below_infinity.len()
    &&& forall|i: int| 0 <= i < less.len() ==> #[trigger] less[i].len() == below_infinity.len()
}

/// Comparing with `<` values that are neither NaN nor +infinity is a strict
/// weak order, and a value below one that is under +infinity is itself under
/// +infinity. These are the properties of the comparison table that the
/// choice relies on.
pub open spec fn is_comparison_of_values(below_infinity: Seq<bool>, less: Seq<Seq<bool>>) -> bool {
    let m = below_infinity.len() as int;
    let ok = |i: int| 0 <= i < m && below_infinity[i];
    &&& forall|i: int| #[trigger] ok(i) ==> !less[i][i]
    &&& forall|i: int, j: int, k: int|
        #![trigger less[i][j], less[j][k]]
        ok(i) && ok(j) && ok(k) && less[i][j] && less[j][k] ==> less[i][k]
    &&& forall|i: int, j: int, k: int|
        #![trigger less[i][k], less[j][k]]
        #![trigger less[k][i], less[k][j]]
        ok(i) && ok(j) && ok(k) && !less[i][j] && !less[j][i] ==> less[i][k] == less[j][k]
            && less[k][i] == less[k][j]
    &&& forall|i: int, j: int|
        0 <= i < m && 0 <= j < m && #[trigger] less[i][j] && below_infinity[j]
            ==> below_infinity[i]
}

/// The choice after `k` candidates is the first of the lowest candidates
/// below +infinity among them.
proof fn lemma_running_best_is_first_minimum(
    below_infinity: Seq<bool>,
    less: Seq<Seq<bool>>,
    k: nat,
)
    requires
        is_square(below_infinity, less),
        is_comparison_of_values(below_infinity, less),
        k <= below_infinity.len(),
    ensures
        running_best(below_infinity, less, k) is None <==> (forall|j: int|
            0 <= j < k ==> !below_infinity[j]),
        running_best(below_infinity, less, k) matches Some(r) ==> {
            &&& r < k
            &&& below_infinity[r as int]
            &&& forall|j: int| 0 <= j < k && below_infinity[j] ==> !#[trigger] less[j][r as int]
            &&& forall|j: int| 0 <= j < r && below_infinity[j] ==> #[trigger] less[r as int][j]
        },
    decreases k,
{
    if k > 0 {
        let i = (k - 1) as int;
        lemma_running_best_is_first_minimum(below_infinity, less, (k - 1) as nat);
        let ok = |x: int| 0 <= x < below_infinity.len() && below_infinity[x];
        match running_best(below_infinity, less, (k - 1) as nat) {
            None => {
                if below_infinity[i] {
                    assert(ok(i));
                    assert(!less[i][i]);
                }
            },
            Some(r) => {
                let r = r as int;
                assert(ok(r));
                if less[i][r] {
                    assert(below_infinity[i]);
                    assert(ok(i));
                    assert forall|j: int| 0 <= j < k && below_infinity[j] implies !#[trigger] less[
                        j
                    ][i] by {
                        assert(ok(j));
                        if j == i {
                        } else if less[j][i] {
                            assert(less[j][r]);
                        }
                    }
                    assert forall|j: int| 0 <= j < i && below_infinity[j] implies #[trigger] less[
                        i
                    ][j] by {
                        assert(ok(j));
                        assert(!less[j][r]);
                        if j == r {
                        } else if less[r][j] {
                        } else {
                            assert(less[i][r] == less[i][j]);
                        }
                    }
                } else {
                    assert forall|j: int| 0 <= j < k && below_infinity[j] implies !#[trigger] less[
                        j
                    ][r] by {
                        if j < i {
                        }
                    }
                }
            },
        }
    }
}

/// The selected lag is the first lag whose criterion value is lowest among
/// the values below +infinity, or lag 1 when there is none: no candidate
/// below +infinity has a lower value, and every earlier one has a strictly
/// higher value.
pub proof fn selected_lag_is_first_minimum(below_infinity: Seq<bool>, less: Seq<Seq<bool>>)
    requires
        is_square(below_infinity, less),
        is_comparison_of_values(below_infinity, less),
    ensures
        (forall|j: int| 0 <= j < below_infinity.len() ==> !below_infinity[j]) ==> selected_lag(
            below_infinity,
            less,
        ) == 1,
        (exists|j: int| 0 <= j < below_infinity.len() && below_infinity[j]) ==> {
            let r = selected_lag(below_infinity, less) - 1;
            &&& 0 <= r < below_infinity.len()
            &&& below_infinity[r]
            &&& forall|j: int|
                0 <= j < below_infinity.len() && below_infinity[j] ==> !#[trigger] less[j][r]
            &&& forall|j: int| 0 <= j < r && below_infinity[j] ==> #[trigger] less[r][j]
        },
{
    lemma_running_best_is_first_minimum(below_infinity, less, below_infinity.len());
}

impl LagSelection {
    /// Chooses a lag from the comparisons of the criterion values of the lags
    /// `1..=max_lag`, where `max_lag == below_infinity.len()`:
    /// `below_infinity[i]` tells whether the value of lag `i + 1` is below
    /// +infinity, and `less[i][j]` whether the value of lag `i + 1` is below
    /// that of lag `j + 1`.
    pub fn select(below_infinity: &Vec<bool>, less: &Vec<Vec<bool>>) -> (r: usize)
        requires
            is_square(below_infinity@, less@.map_values(|row: Vec<bool>| row@)),
            below_infinity.len() < usize::MAX,
        ensures
            r == selected_lag(below_infinity@, less@.map_values(|row: Vec<bool>| row@)),
            1 <= r,
            r <= below_infinity.len() || r == 1,
    {
        let ghost table = less@.map_values(|row: Vec<bool>| row@);
        let m = below_infinity.len();
        let mut best: Option<usize> = None;
        let mut i: usize = 0;
        while i < m
            invariant
                m == below_infinity.len(),
                m < usize::MAX,
                table == less@.map_values(|row: Vec<bool>| row@),
                is_square(below_infinity@, table),
                i <= m,
                best == (match running_best(below_infinity@, table, i as nat) {
                    None => None,
                    Some(j) => Some(j as usize),
                }),
                running_best(below_infinity@, table, i as nat) matches Some(j) ==> j < i,
            decreases m - i,
        {
            assert(table[i as int] == less@[i as int]@);
            match best {
                None => {
                    if below_infinity[i] {
                        best = Some(i);
                    }
                },
                Some(j) => {
                    assert(table[i as int][j as int] == less@[i as int]@[j as int]);
                    if less[i][j] {
                        best = Some(i);
                    }
                },
            }
            i = i + 1;
        }
        match best {
            None => 1,
            Some(j) => j + 1,
        }
    }
}

} // verus!
