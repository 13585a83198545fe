//! Impulse responses of a VAR model.
//!
//! After a unit shock, the response at each later step combines, through the
//! coefficient matrices, the responses of the `min(lag, steps so far)` most
//! recent steps. This module propagates the shock step by step, gathering
//! those responses and the coefficients in the column layout of
//! [`crate::layout`]; the weighted sum of one equation is formed by a
//! function that the caller supplies.
use vstd::prelude::*;
use crate::layout::{lemma_block_before, lemma_next_block, slot_of};
use crate::var_model::{table_view, VARModel, VARModelView};

verus! {

/// Impulse response function from a VAR model.
pub struct ImpulseResponse<'a, T> {
    model: &'a VARModel<T>,
}

impl<'a, T> View for ImpulseResponse<'a, T> {
    type V = VARModelView<T>;

    closed spec fn view(&self) -> VARModelView<T> {
        self.model@
    }
}

/// Number of lags that contribute to the next step when `n_responses`
/// steps are known: a lag `l + 1` contributes only when `l` is below both
/// the lag order and the number of known steps.
pub open spec fn contributing_lags(lag: nat, n_responses: nat) -> nat {
    if lag <= n_responses {
        lag
    } else {
        n_responses
    }
}

/// Names a lag index, to instantiate statements over all lag indices.
pub open spec fn lag_index(l: nat) -> nat {
    l
}

/// The lags that contribute to the next step are exactly those below both
/// the lag order and the number of known steps: lag `l + 1` contributes if
/// and only if `l < lag` and `l < n_responses`. So the count is the smaller
/// of the two, and every lag the model has contributes once enough steps
/// are known.
pub proof fn contributing_lags_are_those_available(lag: nat, n_responses: nat)
    ensures
        forall|l: nat|
            #![trigger lag_index(l)]
            l < contributing_lags(lag, n_responses) <==> (l < lag && l < n_responses),
        contributing_lags(lag, n_responses) <= lag,
        contributing_lags(lag, n_responses) <= n_responses,
        contributing_lags(lag, n_responses) == lag || contributing_lags(lag, n_responses)
            == n_responses,
        n_responses >= lag ==> contributing_lags(lag, n_responses) == lag,
        n_responses <= lag ==> contributing_lags(lag, n_responses) == n_responses,
{
}

/// `x` holds the regressors of the step that follows the known steps
/// `responses` (oldest first): the response of variable `v` at lag `l + 1`,
/// `responses[len - 1 - l][v]`, in slot `slot_of(n_vars, l, v)`, for every
/// contributing lag.
pub open spec fn are_step_regressors<T>(m: VARModelView<T>, responses: Seq<Seq<T>>, x: Seq<T>) -> bool {
    let d = contributing_lags(m.lag, responses.len());
    &&& x.len() == d * m.n_vars
    &&& forall|l: nat, v: nat|
        l < d && v < m.n_vars ==> #[trigger] x[slot_of(m.n_vars, l, v) as int]
            == responses[responses.len() - 1 - l][v as int]
}

/// From one step to the next, every regressor moves one lag further back:
/// once the step `next` is appended to the known steps `earlier`, the value
/// at lag 1 is `next` itself, and the value at lag `l + 2` is the one that
/// was at lag `l + 1` before.
pub proof fn step_regressors_shift_by_one_lag<T>(
    m: VARModelView<T>,
    earlier: Seq<Seq<T>>,
    next: Seq<T>,
    before: Seq<T>,
    after: Seq<T>,
)
    requires
        are_step_regressors(m, earlier, before),
        are_step_regressors(m, earlier.push(next), after),
    ensures
        m.lag > 0 ==> forall|v: nat| v < m.n_vars ==> #[trigger] after[slot_of(m.n_vars, 0, v) as int] == next[v as int],
        forall|l: nat, v: nat|
            l + 1 < contributing_lags(m.lag, earlier.len() + 1) && v < m.n_vars
                ==> #[trigger] after[slot_of(m.n_vars, l + 1, v) as int] == before[slot_of(
                m.n_vars,
                l,
                v,
            ) as int],
{
    let pushed = earlier.push(next);
    assert forall|v: nat| m.lag > 0 && v < m.n_vars implies #[trigger] after[slot_of(m.n_vars, 0, v) as int] == next[v as int] by {
        assert(after[slot_of(m.n_vars, 0, v) as int] == pushed[pushed.len() - 1 - 0][v as int]);
    }
    assert forall|l: nat, v: nat|
        l + 1 < contributing_lags(m.lag, earlier.len() + 1) && v < m.n_vars implies #[trigger] after[slot_of(
        m.n_vars,
        l + 1,
        v,
    ) as int] == before[slot_of(m.n_vars, l, v) as int] by {
        assert(after[slot_of(m.n_vars, l + 1, v) as int] == pushed[pushed.len() - 1 - (l + 1)][v as int]);
        assert(before[slot_of(m.n_vars, l, v) as int] == earlier[earlier.len() - 1 - l][v as int]);
    }
}

/// The response to a unit shock in variable `shock_var`: `one` there and
/// `zero` elsewhere.
pub open spec fn unit_shock<T>(n_vars: nat, shock_var: nat, zero: T, one: T) -> Seq<T> {
    Seq::new(n_vars, |i: int| if i == shock_var { one } else { zero })
}

/// `value` is what `combine` returned on the coefficients of equation
/// `var` for the lags that contribute after the known steps `earlier`, and
/// on the regressors gathered from `earlier`.
pub open spec fn is_combined_value<T, F: Fn(&Vec<T>, &Vec<T>) -> T>(
    m: VARModelView<T>,
    combine: F,
    earlier: Seq<Seq<T>>,
    var: nat,
    value: T,
) -> bool {
    exists|w: Vec<T>, x: Vec<T>|
        {
            &&& m.is_weight_row(var, contributing_lags(m.lag, earlier.len()), w@)
            &&& are_step_regressors(m, earlier, x@)
            &&& #[trigger] call_ensures(combine, (&w, &x), value)
        }
}

/// `next` is the step that follows `earlier`: one combined value per
/// variable.
pub open spec fn is_next_step<T, F: Fn(&Vec<T>, &Vec<T>) -> T>(
    m: VARModelView<T>,
    combine: F,
    earlier: Seq<Seq<T>>,
    next: Seq<T>,
) -> bool {
    &&& next.len() == m.n_vars
    &&& forall|var: int|
        0 <= var < m.n_vars ==> #[trigger] is_combined_value(
            m,
            combine,
            earlier,
            var as nat,
            next[var],
        )
}

/// Each step of a propagation gives variable `var` what `combine` returned
/// on the coefficients of equation `var` itself, lag by lag over the lags
/// that contribute after the known steps, and on the values of those steps,
/// the most recent first.
pub proof fn next_step_combines_own_equation<T, F: Fn(&Vec<T>, &Vec<T>) -> T>(
    m: VARModelView<T>,
    combine: F,
    earlier: Seq<Seq<T>>,
    next: Seq<T>,
    var: int,
)
    requires
        is_next_step(m, combine, earlier, next),
        0 <= var < m.n_vars,
    ensures
        next.len() == m.n_vars,
        exists|w: Vec<T>, x: Vec<T>|
            {
                &&& w@.len() == contributing_lags(m.lag, earlier.len()) * m.n_vars
                &&& forall|l: nat, v: nat|
                    l < contributing_lags(m.lag, earlier.len()) && v < m.n_vars
                        ==> #[trigger] w@[slot_of(m.n_vars, l, v) as int]
                        == m.coefficients[l as int][var][v as int]
                &&& x@.len() == contributing_lags(m.lag, earlier.len()) * m.n_vars
                &&& forall|l: nat, v: nat|
                    l < contributing_lags(m.lag, earlier.len()) && v < m.n_vars
                        ==> #[trigger] x@[slot_of(m.n_vars, l, v) as int]
                        == earlier[earlier.len() - 1 - l][v as int]
                &&& #[trigger] call_ensures(combine, (&w, &x), next[var])
            },
{
    assert(is_combined_value(m, combine, earlier, var as nat, next[var]));
}

/// Coefficients stored for the lags below `depth` are stored for fewer lags.
proof fn lemma_covers_fewer_lags<T>(m: VARModelView<T>, var: nat, depth: nat, fewer: nat)
    requires
        m.covers(var, depth),
        fewer <= depth,
    ensures
        m.covers(var, fewer),
{
}

impl<'a, T: Copy> ImpulseResponse<'a, T> {
    /// Create a new impulse response analyzer.
    pub fn new(model: &'a VARModel<T>) -> (r: Self)
        ensures
            r@ == model@,
    {
        ImpulseResponse { model }
    }

    /// The model whose responses are traced.
    pub fn model(&self) -> (m: &'a VARModel<T>)
        ensures
            m@ == self@,
    {
        self.model
    }

    /// Number of lags that contribute to the next step when `n_responses`
    /// steps are known.
    pub fn contributing_lags(&self, n_responses: usize) -> (d: usize)
        ensures
            d == contributing_lags(self@.lag, n_responses as nat),
            d <= self@.lag && d <= n_responses && (d == self@.lag || d == n_responses),
    {
        let lag = self.model.lag();
        if lag <= n_responses {
            lag
        } else {
            n_responses
        }
    }

    /// Regressors of the next step from the known steps `responses`
    /// (oldest first): the response of variable `v` at lag `l + 1`, that is
    /// `responses[len - 1 - l][v]`, in slot `slot_of(n_vars, l, v)`, for
    /// every contributing lag.
    pub fn regressors(&self, responses: &Vec<Vec<T>>) -> (x: Vec<T>)
        requires
            forall|i: int|
                0 <= i < responses@.len() ==> #[trigger] responses@[i]@.len() >= self@.n_vars,
        ensures
            are_step_regressors(self@, table_view(responses@), x@),
    {
        let n = self.model.n_vars();
        let len = responses.len();
        let depth = self.contributing_lags(len);
        let mut x: Vec<T> = Vec::new();
        let mut l: usize = 0;
        while l < depth
            invariant
                n == self@.n_vars,
                len == responses@.len(),
                depth == contributing_lags(self@.lag, len as nat),
                depth <= len,
                forall|i: int|
                    0 <= i < responses@.len() ==> #[trigger] responses@[i]@.len() >= n,
                l <= depth,
                x@.len() == l * n,
                forall|l2: nat, v2: nat|
                    l2 < l && v2 < n ==> #[trigger] x@[slot_of(n as nat, l2, v2) as int]
                        == responses@[len - 1 - l2]@[v2 as int],
            decreases depth - l,
        {
            let row = &responses[len - 1 - l];
            let mut v: usize = 0;
            while v < n
                invariant
                    n == self@.n_vars,
                    len == responses@.len(),
                    depth <= len,
                    l < depth,
                    *row == responses@[len - 1 - l],
                    row@.len() >= n,
                    v <= n,
                    x@.len() == l * n + v,
                    forall|l2: nat, v2: nat|
                        l2 < l && v2 < n ==> #[trigger] x@[slot_of(n as nat, l2, v2) as int]
                            == responses@[len - 1 - l2]@[v2 as int],
                    forall|v2: nat|
                        v2 < v ==> #[trigger] x@[slot_of(n as nat, l as nat, v2) as int]
                            == responses@[len - 1 - l]@[v2 as int],
                decreases n - v,
            {
                let e = row[v];
                let ghost old_x = x@;
                x.push(e);
                assert forall|l2: nat, v2: nat| l2 < l && v2 < n implies #[trigger] x@[slot_of(
                    n as nat,
                    l2,
                    v2,
                ) as int] == responses@[len - 1 - l2]@[v2 as int] by {
                    lemma_block_before(n as nat, l2, v2, l as nat);
                    assert(old_x[slot_of(n as nat, l2, v2) as int]
                        == responses@[len - 1 - l2]@[v2 as int]);
                }
                v = v + 1;
            }
            proof {
                lemma_next_block(n as nat, l as nat);
            }
            l = l + 1;
        }
        proof {
            let r = table_view(responses@);
            assert forall|l: nat, v: nat|
                l < depth && v < n implies #[trigger] x@[slot_of(n as nat, l, v) as int]
                == r[r.len() - 1 - l][v as int] by {
                assert(r[len - 1 - l] == responses@[len - 1 - l]@);
            }
        }
        x
    }

    /// Responses of all variables to a unit shock (`one`) in `shock_var`
    /// for `horizon` steps: the first step is the shock;
    /// each later step applies, through `combine`, the coefficients of every
    /// equation for the contributing lags to the most recent steps. `None`
    /// when the model lacks a coefficient that a step needs.
    pub fn propagate<F: Fn(&Vec<T>, &Vec<T>) -> T>(
        &self,
        shock_var: usize,
        horizon: usize,
        zero: T,
        one: T,
        combine: F,
    ) -> (r: Option<Vec<Vec<T>>>)
        requires
            shock_var < self@.n_vars,
            forall|w: &Vec<T>, x: &Vec<T>| #[trigger] combine.requires((w, x)),
        ensures
            r is Some <==> (horizon <= 1 || forall|var: nat|
                var < self@.n_vars ==> #[trigger] self@.covers(
                    var,
                    contributing_lags(self@.lag, (horizon - 1) as nat),
                )),
            r matches Some(rs) ==> {
                &&& rs@.len() == horizon
                &&& horizon > 0 ==> rs@[0]@ == unit_shock(self@.n_vars, shock_var as nat, zero, one)
                &&& horizon > 0 ==> rs@[0]@.len() == self@.n_vars && rs@[0]@[shock_var as int]
                    == one && forall|i: int|
                    0 <= i < self@.n_vars && i != shock_var ==> #[trigger] rs@[0]@[i] == zero
                &&& forall|h: int|
                    1 <= h < rs@.len() ==> is_next_step(
                        self@,
                        combine,
                        table_view(rs@.take(h)),
                        #[trigger] rs@[h]@,
                    )
            },
    {
        let n = self.model.n_vars();
        if horizon == 0 {
            return Some(Vec::new());
        }
        if horizon > 1 {
            let max_depth = self.contributing_lags(horizon - 1);
            let mut var: usize = 0;
            while var < n
                invariant
                    n == self@.n_vars,
                    horizon > 1,
                    max_depth == contributing_lags(self@.lag, (horizon - 1) as nat),
                    var <= n,
                    forall|k: nat| k < var ==> #[trigger] self@.covers(k, max_depth as nat),
                decreases n - var,
            {
                if self.model.equation_weights(var, max_depth).is_none() {
                    return None;
                }
                var = var + 1;
            }
        }
        let ghost m = self@;
        let mut shock: Vec<T> = Vec::new();
        let mut i: usize = 0;
        while i < n
            invariant
                i <= n,
                shock@ =~= unit_shock(i as nat, shock_var as nat, zero, one),
            decreases n - i,
        {
            if i == shock_var {
                shock.push(one);
            } else {
                shock.push(zero);
            }
            i = i + 1;
        }
        let mut responses: Vec<Vec<T>> = Vec::new();
        responses.push(shock);
        let mut step: usize = 1;
        while step < horizon
            invariant
                m == self@,
                n == m.n_vars,
                1 <= step,
                step < horizon ==> horizon > 1,
                horizon > 1 ==> forall|var: nat|
                    var < n ==> #[trigger] m.covers(
                        var,
                        contributing_lags(m.lag, (horizon - 1) as nat),
                    ),
                step <= horizon,
                responses@.len() == step,
                forall|h: int| 0 <= h < responses@.len() ==> #[trigger] responses@[h]@.len() == n,
                responses@[0]@ == unit_shock(n as nat, shock_var as nat, zero, one),
                forall|w: &Vec<T>, x: &Vec<T>| #[trigger] combine.requires((w, x)),
                forall|h: int|
                    1 <= h < responses@.len() ==> is_next_step(
                        m,
                        combine,
                        table_view(responses@.take(h)),
                        #[trigger] responses@[h]@,
                    ),
            decreases horizon - step,
        {
            let depth = self.contributing_lags(step);
            let x = self.regressors(&responses);
            let ghost earlier = table_view(responses@);
            let mut next: Vec<T> = Vec::new();
            let mut var: usize = 0;
            while var < n
                invariant
                    m == self@,
                    n == m.n_vars,
                    step < horizon,
                    forall|var: nat|
                        var < n ==> #[trigger] m.covers(
                            var,
                            contributing_lags(m.lag, (horizon - 1) as nat),
                        ),
                    depth == contributing_lags(m.lag, step as nat),
                    earlier.len() == step,
                    are_step_regressors(m, earlier, x@),
                    forall|w: &Vec<T>, x: &Vec<T>| #[trigger] combine.requires((w, x)),
                    var <= n,
                    next@.len() == var,
                    forall|k: int|
                        0 <= k < var ==> #[trigger] is_combined_value(
                            m,
                            combine,
                            earlier,
                            k as nat,
                            next@[k],
                        ),
                decreases n - var,
            {
                proof {
                    lemma_covers_fewer_lags(
                        m,
                        var as nat,
                        contributing_lags(m.lag, (horizon - 1) as nat),
                        depth as nat,
                    );
                }
                let w = match self.model.equation_weights(var, depth) {
                    Some(w) => w,
                    None => {
                        proof {
                            assert(false);
                        }
                        Vec::new()
                    },
                };
                let value = combine(&w, &x);
                let ghost old_next = next@;
                next.push(value);
                assert(call_ensures(combine, (&w, &x), value));
                assert(is_combined_value(m, combine, earlier, var as nat, value));
                assert forall|k: int| 0 <= k < var + 1 implies #[trigger] is_combined_value(
                    m,
                    combine,
                    earlier,
                    k as nat,
                    next@[k],
                ) by {
                    if k < var {
                        assert(next@[k] == old_next[k]);
                    }
                }
                var = var + 1;
            }
            let ghost old_responses = responses@;
            assert(is_next_step(m, combine, earlier, next@));
            responses.push(next);
            assert forall|h: int|
                1 <= h < responses@.len() implies is_next_step(
                m,
                combine,
                table_view(responses@.take(h)),
                #[trigger] responses@[h]@,
            ) by {
                assert(responses@.take(h) =~= old_responses.take(h));
                if h == step {
                    assert(old_responses.take(h) =~= old_responses);
                }
            }
            step = step + 1;
        }
        proof {
            let first = responses@[0]@;
            assert(first == unit_shock(n as nat, shock_var as nat, zero, one));
            assert(first.len() == n);
            assert(first[shock_var as int] == one);
            assert forall|i: int| 0 <= i < n && i != shock_var implies #[trigger] first[i]
                == zero by {
                assert(first[i] == unit_shock(n as nat, shock_var as nat, zero, one)[i]);
            }
        }
        Some(responses)
    }
}

} // verus!
