//! Vector autoregression models: storage of fitted equations and the
//! gathering of regressors from the series.
//!
//! The model is generic in the value type: the numeric work (least squares,
//! sums of products) is done by the caller, which hands in and reads back
//! plain values in the layout of [`crate::layout`].
use vstd::prelude::*;
use crate::layout::{
    column_count, column_layout_is_bijection, column_of, lemma_block_before,
    lemma_count_commutes, lemma_next_block, lemma_slot_below_depth, slot_of,
};

verus! {

/// A vector autoregression (VAR) model.
///
/// Y(t) = c + Σ A_k Y(t-k) + ε, where A_k are coefficient matrices:
/// `coefficients[k][i][j]` is the effect of variable `j` at lag `k + 1` on
/// variable `i`.
#[derive(Clone, Debug)]
pub struct VARModel<T> {
    n_vars: usize,
    lag: usize,
    coefficients: Vec<Vec<Vec<T>>>,
    intercepts: Vec<T>,
    rss: Vec<T>,
    n_obs: usize,
}

/// Mathematical content of a [`VARModel`].
pub struct VARModelView<T> {
    pub n_vars: nat,
    pub lag: nat,
    pub coefficients: Seq<Seq<Seq<T>>>,
    pub intercepts: Seq<T>,
    pub rss: Seq<T>,
    pub n_obs: nat,
}

/// A table of series (or of rows) as nested sequences.
pub open spec fn table_view<T>(data: Seq<Vec<T>>) -> Seq<Seq<T>> {
    data.map_values(|s: Vec<T>| s@)
}

/// A three-level table as nested sequences.
pub open spec fn cube_view<T>(data: Seq<Vec<Vec<T>>>) -> Seq<Seq<Seq<T>>> {
    data.map_values(|m: Vec<Vec<T>>| table_view(m@))
}

impl<T> View for VARModel<T> {
    type V = VARModelView<T>;

    closed spec fn view(&self) -> VARModelView<T> {
        VARModelView {
            n_vars: self.n_vars as nat,
            lag: self.lag as nat,
            coefficients: cube_view(self.coefficients@),
            intercepts: self.intercepts@,
            rss: self.rss@,
            n_obs: self.n_obs as nat,
        }
    }
}

impl<T> VARModelView<T> {
    /// The coefficients of equation `var` for the lags below `depth` are all
    /// stored: every entry `coefficients[l][var][v]` with `l < depth` and
    /// `v < n_vars` exists.
    pub open spec fn covers(self, var: nat, depth: nat) -> bool {
        &&& depth <= self.coefficients.len()
        &&& forall|l: int|
            0 <= l < depth ==> var < #[trigger] self.coefficients[l].len()
                && self.coefficients[l][var as int].len() >= self.n_vars
    }

    /// The model stores the fitted equations `betas`: equation `var` has the
    /// intercept `betas[var][0]` and, for variable `v` at lag `l + 1`, the
    /// coefficient `betas[var][column_of(n_vars, l, v)]`; the coefficient
    /// tensor has exactly `lag` matrices of `n_vars` by `n_vars`.
    pub open spec fn stores_equations(self, betas: Seq<Seq<T>>) -> bool {
        &&& betas.len() == self.n_vars
        &&& self.intercepts.len() == self.n_vars
        &&& self.coefficients.len() == self.lag
        &&& forall|l: int|
            0 <= l < self.lag ==> (#[trigger] self.coefficients[l]).len() == self.n_vars
                && forall|var: int|
                0 <= var < self.n_vars ==> (#[trigger] self.coefficients[l][var]).len()
                    == self.n_vars
        &&& forall|var: int|
            0 <= var < self.n_vars ==> #[trigger] self.intercepts[var] == betas[var][0]
        &&& forall|l: nat, var: nat, v: nat|
            l < self.lag && var < self.n_vars && v < self.n_vars
                ==> #[trigger] self.coefficients[l as int][var as int][v as int]
                == betas[var as int][column_of(self.n_vars, l, v) as int]
    }

    /// `w` lists the coefficients of equation `var` for the lags below
    /// `depth`, variable `v` at lag `l + 1` in slot `slot_of(n_vars, l, v)`.
    pub open spec fn is_weight_row(self, var: nat, depth: nat, w: Seq<T>) -> bool {
        &&& w.len() == depth * self.n_vars
        &&& forall|l: nat, v: nat|
            l < depth && v < self.n_vars ==> #[trigger] w[slot_of(self.n_vars, l, v) as int]
                == self.coefficients[l as int][var as int][v as int]
    }
}

/// The lagged values that a one-step forecast reads are present:
/// `past[v][l]` for every variable `v` and lag index `l < lag`.
pub open spec fn past_covers<T>(past: Seq<Seq<T>>, n_vars: nat, lag: nat) -> bool {
    lag == 0 || (past.len() >= n_vars && forall|v: int|
        0 <= v < n_vars ==> #[trigger] past[v].len() >= lag)
}

/// Row `v` of `table` holds an entry at position `i`.
pub open spec fn has_entry<T>(table: Seq<Seq<T>>, v: int, i: int) -> bool {
    0 <= v < table.len() && 0 <= i < table[v].len()
}

/// Equation `var` of the model holds the coefficient of variable `v` at lag
/// `l + 1`.
pub open spec fn has_coefficient<T>(m: VARModelView<T>, l: int, var: int, v: int) -> bool {
    &&& 0 <= l < m.coefficients.len()
    &&& 0 <= var < m.coefficients[l].len()
    &&& 0 <= v < m.coefficients[l][var].len()
}

/// The coefficients of an equation are available for the lags below
/// `depth` exactly when every coefficient that a weighted sum over those
/// lags reads, `coefficients[l][var][v]` for `l < depth` and `v < n_vars`,
/// is stored (for a model of at least one variable).
pub proof fn covers_when_reads_present<T>(m: VARModelView<T>, var: nat, depth: nat)
    requires
        m.n_vars > 0,
    ensures
        m.covers(var, depth) <==> (forall|l: int, v: int|
            0 <= l < depth && 0 <= v < m.n_vars ==> #[trigger] has_coefficient(
                m,
                l,
                var as int,
                v,
            )),
{
    if forall|l: int, v: int|
        0 <= l < depth && 0 <= v < m.n_vars ==> #[trigger] has_coefficient(m, l, var as int, v) {
        if depth > 0 {
            assert(has_coefficient(m, depth - 1, var as int, 0));
        }
        assert forall|l: int| 0 <= l < depth implies var < #[trigger] m.coefficients[l].len()
            && m.coefficients[l][var as int].len() >= m.n_vars by {
            assert(has_coefficient(m, l, var as int, m.n_vars - 1));
        }
        assert(depth <= m.coefficients.len());
        assert(m.covers(var, depth));
    }
    if m.covers(var, depth) {
        assert forall|l: int, v: int|
            0 <= l < depth && 0 <= v < m.n_vars implies #[trigger] has_coefficient(
            m,
            l,
            var as int,
            v,
        ) by {
            assert(var < m.coefficients[l].len());
        }
    }
}

/// A forecast can be made exactly when every value it reads is present:
/// `past[v][l]` for each variable `v < n_vars` and lag index `l < lag`,
/// whatever the lag order and the number of variables.
pub proof fn past_covers_when_reads_present<T>(past: Seq<Seq<T>>, n_vars: nat, lag: nat)
    ensures
        past_covers(past, n_vars, lag) <==> (forall|l: int, v: int|
            0 <= l < lag && 0 <= v < n_vars ==> #[trigger] has_entry(past, v, l)),
{
    if lag > 0 && (forall|l: int, v: int|
        0 <= l < lag && 0 <= v < n_vars ==> #[trigger] has_entry(past, v, l)) {
        if n_vars > 0 {
            assert(has_entry(past, n_vars - 1, 0));
        }
        assert forall|v: int| 0 <= v < n_vars implies #[trigger] past[v].len() >= lag by {
            assert(has_entry(past, v, lag - 1));
        }
    }
}

/// A fit accepts exactly the tables of series on which every value it
/// reads is present and its column count fits in a `usize`: there is a
/// first series, of length `T >= lag`, and for every time `t` in `lag..T`
/// every series holds a value at `t` (the response and, at the earlier
/// times, the regressors read). In particular every non-empty table of
/// series of one common length `T >= lag` is accepted, whatever the number
/// of series, when `1 + n_vars * lag` fits in a `usize`.
pub proof fn fit_accepts_when_reads_present<T>(data: Seq<Seq<T>>, lag: nat)
    ensures
        fit_accepts(data, lag) <==> (data.len() >= 1 && lag <= data[0].len() && (forall|
            t: int,
            v: int,
        | lag <= t < data[0].len() && 0 <= v < data.len() ==> #[trigger] has_entry(data, v, t))
            && 1 + data.len() * lag <= usize::MAX),
        (data.len() >= 1 && lag <= data[0].len() && (forall|v: int|
            0 <= v < data.len() ==> #[trigger] data[v].len() == data[0].len()) && 1 + data.len()
            * lag <= usize::MAX) ==> fit_accepts(data, lag),
{
    lemma_count_commutes(data.len(), lag);
    if data.len() >= 1 && lag <= data[0].len() && data[0].len() > lag && (forall|t: int, v: int|
        lag <= t < data[0].len() && 0 <= v < data.len() ==> #[trigger] has_entry(data, v, t)) {
        assert forall|v: int| 0 <= v < data.len() implies #[trigger] data[v].len()
            >= data[0].len() by {
            assert(has_entry(data, v, data[0].len() - 1));
        }
    }
}

/// The series on which fitting a VAR(`lag`) model works: at least one
/// series, the first of length `T >= lag`, and, where there is anything to
/// fit (`T > lag`), every series at least as long as the first; the number
/// of columns `1 + n_vars * lag` fits in a `usize`.
pub open spec fn fit_accepts<T>(data: Seq<Seq<T>>, lag: nat) -> bool {
    &&& data.len() >= 1
    &&& lag <= data[0].len()
    &&& data[0].len() > lag ==> forall|v: int|
        0 <= v < data.len() ==> #[trigger] data[v].len() >= data[0].len()
    &&& column_count(data.len(), lag) <= usize::MAX
}

/// `x` is the design matrix of a VAR(`lag`) fit on `data`: one row per
/// observation `t_idx` (time `t_idx + lag`), holding `intercept` in column 0
/// and variable `v` at time `t_idx + lag - l - 1` in the column of lag
/// `l + 1`.
pub open spec fn is_design_matrix<T>(data: Seq<Seq<T>>, lag: nat, intercept: T, x: Seq<Seq<T>>) -> bool {
    &&& x.len() == data[0].len() - lag
    &&& forall|t_idx: int|
        0 <= t_idx < x.len() ==> (#[trigger] x[t_idx]).len() == column_count(data.len(), lag)
            && x[t_idx][0] == intercept
    &&& forall|t_idx: int, l: nat, v: nat|
        0 <= t_idx < x.len() && l < lag && v < data.len() ==> #[trigger] x[t_idx][column_of(
            data.len(),
            l,
            v,
        ) as int] == data[v as int][t_idx + lag - l - 1]
}

/// `y` is the response of equation `var` in a VAR(`lag`) fit on `data`:
/// variable `var` at the times `lag..T`.
pub open spec fn is_response<T>(data: Seq<Seq<T>>, var: nat, lag: nat, y: Seq<T>) -> bool {
    &&& y.len() == data[0].len() - lag
    &&& forall|i: int| 0 <= i < y.len() ==> #[trigger] y[i] == data[var as int][i + lag]
}

/// The regressors of a VAR design are earlier responses: the value of
/// variable `var` at lag `l + 1` in the row of observation `t_idx + l + 1`
/// is the response of equation `var` at observation `t_idx`.
pub proof fn design_lags_are_earlier_responses<T>(
    data: Seq<Seq<T>>,
    lag: nat,
    intercept: T,
    x: Seq<Seq<T>>,
    var: nat,
    y: Seq<T>,
)
    requires
        is_design_matrix(data, lag, intercept, x),
        is_response(data, var, lag, y),
        var < data.len(),
    ensures
        forall|t_idx: int, l: nat|
            0 <= t_idx && t_idx + l + 1 < x.len() && l < lag ==> #[trigger] x[t_idx + l
                + 1][column_of(data.len(), l, var) as int] == y[t_idx],
{
    assert forall|t_idx: int, l: nat|
        0 <= t_idx && t_idx + l + 1 < x.len() && l < lag implies #[trigger] x[t_idx + l
        + 1][column_of(data.len(), l, var) as int] == y[t_idx] by {
        assert(x[t_idx + l + 1][column_of(data.len(), l, var) as int] == data[var as int][(
        t_idx + l + 1) + lag - l - 1]);
        assert(y[t_idx] == data[var as int][t_idx + lag]);
    }
}

impl<T: Copy> VARModel<T> {
    /// Creates a model from given coefficients and intercepts, with `n_obs`
    /// 0 and every residual sum of squares equal to `zero`.
    pub fn new(
        n_vars: usize,
        lag: usize,
        coefficients: Vec<Vec<Vec<T>>>,
        intercepts: Vec<T>,
        zero: T,
    ) -> (m: Self)
        ensures
            m@.n_vars == n_vars,
            m@.lag == lag,
            m@.coefficients == cube_view(coefficients@),
            m@.intercepts == intercepts@,
            m@.rss == Seq::new(n_vars as nat, |i: int| zero),
            m@.n_obs == 0,
    {
        let mut rss: Vec<T> = Vec::new();
        let mut i: usize = 0;
        while i < n_vars
            invariant
                i <= n_vars,
                rss@ == Seq::new(i as nat, |k: int| zero),
            decreases n_vars - i,
        {
            rss.push(zero);
            i = i + 1;
            assert(rss@ =~= Seq::new(i as nat, |k: int| zero));
        }
        VARModel { n_vars, lag, coefficients, intercepts, rss, n_obs: 0 }
    }

    /// Number of variables.
    pub fn n_vars(&self) -> (r: usize)
        ensures
            r == self@.n_vars,
    {
        self.n_vars
    }

    /// Lag order.
    pub fn lag(&self) -> (r: usize)
        ensures
            r == self@.lag,
    {
        self.lag
    }

    /// Number of observations used in fitting.
    pub fn n_obs(&self) -> (r: usize)
        ensures
            r == self@.n_obs,
    {
        self.n_obs
    }

    /// Residual sum of squares for equation `var` (a model holds one per
    /// equation, see [`VARModel::new`] and [`VARModel::from_equations`]).
    pub fn rss(&self, var: usize) -> (r: T)
        requires
            var < self@.rss.len(),
        ensures
            r == self@.rss[var as int],
    {
        self.rss[var]
    }

    /// Whether a VAR(`lag`) model can be fitted on `data` (see
    /// [`fit_accepts`]).
    pub fn accepts(data: &[Vec<T>], lag: usize) -> (r: bool)
        ensures
            r == fit_accepts(table_view(data@), lag as nat),
            r <==> (data@.len() >= 1 && lag <= data@[0]@.len() && (forall|t: int, v: int|
                lag <= t < data@[0]@.len() && 0 <= v < data@.len() ==> #[trigger] has_entry(
                    table_view(data@),
                    v,
                    t,
                )) && 1 + data@.len() * lag <= usize::MAX),
    {
        let ghost d = table_view(data@);
        proof {
            fit_accepts_when_reads_present(d, lag as nat);
            if data@.len() >= 1 {
                assert(d[0] == data@[0]@);
            }
        }
        let n = data.len();
        if n == 0 {
            return false;
        }
        assert(d[0] == data@[0]@);
        let total = data[0].len();
        if lag > total {
            return false;
        }
        if lag > 0 && n > (usize::MAX - 1) / lag {
            assert(n * lag > usize::MAX - 1) by (nonlinear_arith)
                requires
                    lag > 0,
                    n as int > (usize::MAX - 1) as int / (lag as int),
            ;
            return false;
        }
        assert(n * lag <= usize::MAX - 1) by (nonlinear_arith)
            requires
                lag == 0 || n as int <= (usize::MAX - 1) as int / (lag as int),
        ;
        if total > lag {
            let mut v: usize = 0;
            while v < n
                invariant
                    d == table_view(data@),
                    n == data@.len(),
                    total == d[0].len(),
                    total > lag,
                    v <= n,
                    forall|k: int| 0 <= k < v ==> #[trigger] d[k].len() >= total,
                decreases n - v,
            {
                assert(d[v as int] == data@[v as int]@);
                if data[v].len() < total {
                    proof {
                        fit_accepts_when_reads_present(d, lag as nat);
                        assert(d[0] == data@[0]@);
                    }
                    return false;
                }
                v = v + 1;
            }
        }
        true
    }

    /// Row `t - lag` of the regression design: `intercept` in column 0, and
    /// variable `v` at time `t - l - 1` in the column of lag `l + 1`.
    fn design_row(data: &[Vec<T>], t: usize, lag: usize, intercept: T) -> (row: Vec<T>)
        requires
            fit_accepts(table_view(data@), lag as nat),
            lag <= t < data@[0].len(),
        ensures
            row@.len() == column_count(data@.len(), lag as nat),
            row@[0] == intercept,
            forall|l: nat, v: nat|
                l < lag && v < data@.len() ==> row@[column_of(data@.len(), l, v) as int]
                    == #[trigger] data@[v as int]@[t - l - 1],
    {
        let ghost d = table_view(data@);
        let n = data.len();
        assert(forall|v: int| 0 <= v < n ==> d[v] == #[trigger] data@[v]@);
        let mut row: Vec<T> = Vec::new();
        row.push(intercept);
        let mut l: usize = 0;
        while l < lag
            invariant
                n == data@.len(),
                d == table_view(data@),
                fit_accepts(d, lag as nat),
                lag <= t < data@[0].len(),
                l <= lag,
                row@.len() == 1 + l * n,
                row@[0] == intercept,
                forall|l2: nat, v2: nat|
                    l2 < l && v2 < n ==> row@[column_of(n as nat, l2, v2) as int]
                        == #[trigger] data@[v2 as int]@[t - l2 - 1],
            decreases lag - l,
        {
            let mut v: usize = 0;
            while v < n
                invariant
                    n == data@.len(),
                    d == table_view(data@),
                    fit_accepts(d, lag as nat),
                    lag <= t < data@[0].len(),
                    l < lag,
                    v <= n,
                    row@.len() == 1 + l * n + v,
                    row@[0] == intercept,
                    forall|l2: nat, v2: nat|
                        l2 < l && v2 < n ==> row@[column_of(n as nat, l2, v2) as int]
                            == #[trigger] data@[v2 as int]@[t - l2 - 1],
                    forall|v2: nat|
                        v2 < v ==> row@[column_of(n as nat, l as nat, v2) as int]
                            == #[trigger] data@[v2 as int]@[t - l - 1],
                decreases n - v,
            {
                assert(d[v as int] == data@[v as int]@);
                assert(d[v as int].len() >= d[0].len());
                let x = data[v][t - l - 1];
                let ghost old_row = row@;
                row.push(x);
                assert forall|l2: nat, v2: nat| l2 < l && v2 < n implies row@[column_of(
                    n as nat,
                    l2,
                    v2,
                ) as int] == #[trigger] data@[v2 as int]@[t - l2 - 1] by {
                    lemma_block_before(n as nat, l2, v2, l as nat);
                    assert(old_row[column_of(n as nat, l2, v2) as int] == data@[v2 as int]@[t
                        - l2 - 1]);
                }
                v = v + 1;
            }
            proof {
                lemma_next_block(n as nat, l as nat);
            }
            l = l + 1;
        }
        proof {
            lemma_count_commutes(n as nat, lag as nat);
        }
        row
    }

    /// Design matrix of the least-squares fit of a VAR(`lag`) model: one row
    /// per observation `t_idx` (time `t_idx + lag`), holding `intercept` in
    /// column 0 and variable `v` at time `t_idx + lag - l - 1` in the column
    /// of lag `l + 1`. Every equation is fitted on this same matrix.
    pub fn design_matrix(data: &[Vec<T>], lag: usize, intercept: T) -> (x: Vec<Vec<T>>)
        requires
            fit_accepts(table_view(data@), lag as nat),
        ensures
            is_design_matrix(table_view(data@), lag as nat, intercept, table_view(x@)),
    {
        let total = data[0].len();
        let mut x: Vec<Vec<T>> = Vec::new();
        let mut t: usize = lag;
        while t < total
            invariant
                fit_accepts(table_view(data@), lag as nat),
                total == data@[0].len(),
                lag <= t <= total,
                x@.len() == t - lag,
                forall|t_idx: int|
                    0 <= t_idx < x@.len() ==> (#[trigger] x@[t_idx])@.len() == column_count(
                        data@.len(),
                        lag as nat,
                    ) && x@[t_idx]@[0] == intercept,
                forall|t_idx: int, l: nat, v: nat|
                    0 <= t_idx < x@.len() && l < lag && v < data@.len() ==> #[trigger] x@[t_idx]@[column_of(
                        data@.len(),
                        l,
                        v,
                    ) as int] == data@[v as int]@[t_idx + lag - l - 1],
            decreases total - t,
        {
            assert(table_view(data@)[0] == data@[0]@);
            let row = Self::design_row(data, t, lag, intercept);
            x.push(row);
            t = t + 1;
        }
        proof {
            let d = table_view(data@);
            let xs = table_view(x@);
            assert(d[0] == data@[0]@);
            assert forall|t_idx: int, l: nat, v: nat|
                0 <= t_idx < xs.len() && l < lag && v < d.len() implies #[trigger] xs[t_idx][column_of(
                d.len(),
                l,
                v,
            ) as int] == d[v as int][t_idx + lag - l - 1] by {
                assert(xs[t_idx] == x@[t_idx]@);
                assert(d[v as int] == data@[v as int]@);
                assert(x@[t_idx]@[column_of(data@.len(), l, v) as int] == data@[v as int]@[t_idx
                    + lag - l - 1]);
            }
            assert forall|t_idx: int| 0 <= t_idx < xs.len() implies (#[trigger] xs[t_idx]).len()
                == column_count(d.len(), lag as nat) && xs[t_idx][0] == intercept by {
                assert(xs[t_idx] == x@[t_idx]@);
            }
        }
        x
    }

    /// Response vector of equation `var` in the fit of a VAR(`lag`) model:
    /// variable `var` at the times `lag..T`.
    pub fn response(data: &[Vec<T>], var: usize, lag: usize) -> (y: Vec<T>)
        requires
            fit_accepts(table_view(data@), lag as nat),
            var < data@.len(),
        ensures
            is_response(table_view(data@), var as nat, lag as nat, y@),
    {
        let ghost d = table_view(data@);
        assert(d[0] == data@[0]@ && d[var as int] == data@[var as int]@);
        let total = data[0].len();
        let mut y: Vec<T> = Vec::new();
        let mut t: usize = lag;
        while t < total
            invariant
                d == table_view(data@),
                d[0] == data@[0]@,
                d[var as int] == data@[var as int]@,
                fit_accepts(d, lag as nat),
                var < data@.len(),
                total == data@[0].len(),
                lag <= t <= total,
                y@.len() == t - lag,
                forall|i: int| 0 <= i < y@.len() ==> #[trigger] y@[i] == data@[var as int]@[i + lag],
            decreases total - t,
        {
            y.push(data[var][t]);
            t = t + 1;
        }
        y
    }

    /// Coefficient matrix of lag `l + 1`: entry `[var][v]` is
    /// `betas[var][column_of(n_vars, l, v)]`.
    fn lag_matrix(betas: &Vec<Vec<T>>, n_vars: usize, lag: usize, l: usize) -> (a: Vec<Vec<T>>)
        requires
            betas@.len() == n_vars,
            column_count(n_vars as nat, lag as nat) <= usize::MAX,
            forall|var: int|
                0 <= var < n_vars ==> #[trigger] betas@[var]@.len() >= column_count(
                    n_vars as nat,
                    lag as nat,
                ),
            l < lag,
        ensures
            a@.len() == n_vars,
            forall|var: int| 0 <= var < n_vars ==> (#[trigger] a@[var])@.len() == n_vars,
            forall|var: nat, v: nat|
                var < n_vars && v < n_vars ==> #[trigger] a@[var as int]@[v as int]
                    == betas@[var as int]@[column_of(n_vars as nat, l as nat, v) as int],
    {
        proof {
            lemma_count_commutes(n_vars as nat, lag as nat);
        }
        let mut a: Vec<Vec<T>> = Vec::new();
        let mut var: usize = 0;
        while var < n_vars
            invariant
                betas@.len() == n_vars,
                column_count(n_vars as nat, lag as nat) <= usize::MAX,
                n_vars * lag == lag * n_vars,
                forall|var: int|
                    0 <= var < n_vars ==> #[trigger] betas@[var]@.len() >= column_count(
                        n_vars as nat,
                        lag as nat,
                    ),
                l < lag,
                var <= n_vars,
                a@.len() == var,
                forall|w: int| 0 <= w < var ==> (#[trigger] a@[w])@.len() == n_vars,
                forall|w: nat, v: nat|
                    w < var && v < n_vars ==> #[trigger] a@[w as int]@[v as int]
                        == betas@[w as int]@[column_of(n_vars as nat, l as nat, v) as int],
            decreases n_vars - var,
        {
            let mut row: Vec<T> = Vec::new();
            let mut v: usize = 0;
            while v < n_vars
                invariant
                    betas@.len() == n_vars,
                    column_count(n_vars as nat, lag as nat) <= usize::MAX,
                    n_vars * lag == lag * n_vars,
                    var < n_vars,
                    betas@[var as int]@.len() >= column_count(n_vars as nat, lag as nat),
                    l < lag,
                    v <= n_vars,
                    row@.len() == v,
                    forall|v2: nat|
                        v2 < v ==> #[trigger] row@[v2 as int] == betas@[var as int]@[column_of(
                            n_vars as nat,
                            l as nat,
                            v2,
                        ) as int],
                decreases n_vars - v,
            {
                proof {
                    lemma_slot_below_depth(n_vars as nat, l as nat, v as nat, lag as nat);
                }
                let c = 1 + l * n_vars + v;
                row.push(betas[var][c]);
                v = v + 1;
            }
            a.push(row);
            var = var + 1;
        }
        a
    }

    /// Stores the equations fitted for a VAR(`lag`) model on `n_vars`
    /// series: `betas[var]` holds the least-squares solution of equation
    /// `var` in the column layout, `rss[var]` its residual sum of squares,
    /// and `n_obs` the number of observations used.
    pub fn from_equations(
        n_vars: usize,
        lag: usize,
        betas: &Vec<Vec<T>>,
        rss: Vec<T>,
        n_obs: usize,
    ) -> (m: Self)
        requires
            betas@.len() == n_vars,
            rss@.len() == n_vars,
            column_count(n_vars as nat, lag as nat) <= usize::MAX,
            forall|var: int|
                0 <= var < n_vars ==> #[trigger] betas@[var]@.len() >= column_count(
                    n_vars as nat,
                    lag as nat,
                ),
        ensures
            m@.n_vars == n_vars,
            m@.lag == lag,
            m@.n_obs == n_obs,
            m@.rss == rss@,
            m@.stores_equations(table_view(betas@)),
    {
        let mut intercepts: Vec<T> = Vec::new();
        let mut var: usize = 0;
        while var < n_vars
            invariant
                betas@.len() == n_vars,
                forall|var: int|
                    0 <= var < n_vars ==> #[trigger] betas@[var]@.len() >= column_count(
                        n_vars as nat,
                        lag as nat,
                    ),
                var <= n_vars,
                intercepts@.len() == var,
                forall|w: int| 0 <= w < var ==> #[trigger] intercepts@[w] == betas@[w]@[0],
            decreases n_vars - var,
        {
            intercepts.push(betas[var][0]);
            var = var + 1;
        }
        let mut coefficients: Vec<Vec<Vec<T>>> = Vec::new();
        let mut l: usize = 0;
        while l < lag
            invariant
                betas@.len() == n_vars,
                column_count(n_vars as nat, lag as nat) <= usize::MAX,
                forall|var: int|
                    0 <= var < n_vars ==> #[trigger] betas@[var]@.len() >= column_count(
                        n_vars as nat,
                        lag as nat,
                    ),
                l <= lag,
                coefficients@.len() == l,
                forall|k: int|
                    0 <= k < l ==> (#[trigger] coefficients@[k])@.len() == n_vars && forall|
                        var: int,
                    |
                        0 <= var < n_vars ==> (#[trigger] coefficients@[k]@[var])@.len() == n_vars,
                forall|k: nat, var: nat, v: nat|
                    k < l && var < n_vars && v < n_vars
                        ==> #[trigger] coefficients@[k as int]@[var as int]@[v as int]
                        == betas@[var as int]@[column_of(n_vars as nat, k, v) as int],
            decreases lag - l,
        {
            let a = Self::lag_matrix(betas, n_vars, lag, l);
            coefficients.push(a);
            l = l + 1;
        }
        let m = VARModel { n_vars, lag, coefficients, intercepts, rss, n_obs };
        proof {
            let mv = m@;
            let b = table_view(betas@);
            assert(mv.coefficients == cube_view(coefficients@));
            assert forall|l: int| 0 <= l < lag implies (#[trigger] mv.coefficients[l]).len()
                == n_vars && forall|var: int|
                0 <= var < n_vars ==> (#[trigger] mv.coefficients[l][var]).len() == n_vars by {
                assert(mv.coefficients[l] == table_view(coefficients@[l]@));
                assert forall|var: int| 0 <= var < n_vars implies (
                #[trigger] mv.coefficients[l][var]).len() == n_vars by {
                    assert(mv.coefficients[l][var] == coefficients@[l]@[var]@);
                }
            }
            assert forall|var: int| 0 <= var < n_vars implies #[trigger] mv.intercepts[var]
                == b[var][0] by {
                assert(b[var] == betas@[var]@);
            }
            assert forall|k: nat, var: nat, v: nat|
                k < lag && var < n_vars && v < n_vars
                    implies #[trigger] mv.coefficients[k as int][var as int][v as int]
                == b[var as int][column_of(mv.n_vars, k, v) as int] by {
                assert(mv.coefficients[k as int] == table_view(coefficients@[k as int]@));
                assert(mv.coefficients[k as int][var as int]
                    == coefficients@[k as int]@[var as int]@);
                assert(b[var as int] == betas@[var as int]@);
                assert(coefficients@[k as int]@[var as int]@[v as int]
                    == betas@[var as int]@[column_of(n_vars as nat, k, v) as int]);
            }
        }
        m
    }

    /// Intercept of equation `var`, or `None` when the model holds no
    /// intercept for it.
    pub fn intercept(&self, var: usize) -> (r: Option<T>)
        ensures
            r is Some <==> var < self@.intercepts.len(),
            r matches Some(c) ==> c == self@.intercepts[var as int],
    {
        if var < self.intercepts.len() {
            Some(self.intercepts[var])
        } else {
            None
        }
    }

    /// Coefficients of equation `var` for the lags below `depth`, variable
    /// `v` at lag `l + 1` in slot `slot_of(n_vars, l, v)`; `None` when the
    /// model does not hold all of them.
    pub fn equation_weights(&self, var: usize, depth: usize) -> (r: Option<Vec<T>>)
        ensures
            r is Some <==> self@.covers(var as nat, depth as nat),
            r matches Some(w) ==> self@.is_weight_row(var as nat, depth as nat, w@),
            self@.n_vars > 0 ==> (r is Some <==> (forall|l: int, v: int|
                0 <= l < depth && 0 <= v < self@.n_vars ==> #[trigger] has_coefficient(
                    self@,
                    l,
                    var as int,
                    v,
                ))),
    {
        let ghost mv = self@;
        proof {
            if mv.n_vars > 0 {
                covers_when_reads_present(mv, var as nat, depth as nat);
            }
        }
        let n = self.n_vars;
        if depth > self.coefficients.len() {
            return None;
        }
        let mut l: usize = 0;
        while l < depth
            invariant
                mv == self@,
                n == mv.n_vars,
                depth <= self.coefficients@.len(),
                l <= depth,
                forall|k: int|
                    0 <= k < l ==> var < #[trigger] mv.coefficients[k].len()
                        && mv.coefficients[k][var as int].len() >= n,
            decreases depth - l,
        {
            assert(mv.coefficients[l as int] == table_view(self.coefficients@[l as int]@));
            if var >= self.coefficients[l].len() {
                proof {
                    if mv.n_vars > 0 {
                        covers_when_reads_present(mv, var as nat, depth as nat);
                    }
                }
                return None;
            }
            assert(mv.coefficients[l as int][var as int] == self.coefficients@[l as int]@[var as int]@);
            if self.coefficients[l][var].len() < n {
                proof {
                    if mv.n_vars > 0 {
                        covers_when_reads_present(mv, var as nat, depth as nat);
                    }
                }
                return None;
            }
            l = l + 1;
        }
        assert(mv.coefficients.len() == self.coefficients@.len());
        assert(mv.covers(var as nat, depth as nat));
        let mut w: Vec<T> = Vec::new();
        let mut l: usize = 0;
        while l < depth
            invariant
                mv == self@,
                n == mv.n_vars,
                mv.covers(var as nat, depth as nat),
                depth <= self.coefficients@.len(),
                l <= depth,
                w@.len() == l * n,
                forall|l2: nat, v2: nat|
                    l2 < l && v2 < n ==> #[trigger] w@[slot_of(n as nat, l2, v2) as int]
                        == mv.coefficients[l2 as int][var as int][v2 as int],
            decreases depth - l,
        {
            assert(mv.coefficients[l as int] == table_view(self.coefficients@[l as int]@));
            assert(mv.coefficients[l as int][var as int] == self.coefficients@[l as int]@[var as int]@);
            let mut v: usize = 0;
            while v < n
                invariant
                    mv == self@,
                    n == mv.n_vars,
                    mv.covers(var as nat, depth as nat),
                    mv.coefficients[l as int][var as int] == self.coefficients@[l as int]@[var as int]@,
                    depth <= self.coefficients@.len(),
                    l < depth,
                    v <= n,
                    w@.len() == l * n + v,
                    forall|l2: nat, v2: nat|
                        l2 < l && v2 < n ==> #[trigger] w@[slot_of(n as nat, l2, v2) as int]
                            == mv.coefficients[l2 as int][var as int][v2 as int],
                    forall|v2: nat|
                        v2 < v ==> #[trigger] w@[slot_of(n as nat, l as nat, v2) as int]
                            == mv.coefficients[l as int][var as int][v2 as int],
                decreases n - v,
            {
                assert(var < mv.coefficients[l as int].len());
                let x = self.coefficients[l][var][v];
                let ghost old_w = w@;
                w.push(x);
                assert forall|l2: nat, v2: nat| l2 < l && v2 < n implies #[trigger] w@[slot_of(
                    n as nat,
                    l2,
                    v2,
                ) as int] == mv.coefficients[l2 as int][var as int][v2 as int] by {
                    lemma_block_before(n as nat, l2, v2, l as nat);
                    assert(old_w[slot_of(n as nat, l2, v2) as int]
                        == mv.coefficients[l2 as int][var as int][v2 as int]);
                }
                v = v + 1;
            }
            proof {
                lemma_next_block(n as nat, l as nat);
            }
            l = l + 1;
        }
        Some(w)
    }

    /// Regressors of a one-step forecast from `past[v][l]`, the value of
    /// variable `v` at lag `l + 1` (`l == 0` the most recent): variable `v`
    /// at lag `l + 1` in slot `slot_of(n_vars, l, v)`. `None` when `past`
    /// lacks one of these values.
    pub fn forecast_regressors(&self, past: &[Vec<T>]) -> (r: Option<Vec<T>>)
        ensures
            r is Some <==> past_covers(table_view(past@), self@.n_vars, self@.lag),
            r is Some <==> (forall|l: int, v: int|
                0 <= l < self@.lag && 0 <= v < self@.n_vars ==> #[trigger] has_entry(
                    table_view(past@),
                    v,
                    l,
                )),
            r matches Some(x) ==> {
                &&& x@.len() == self@.lag * self@.n_vars
                &&& forall|l: nat, v: nat|
                    l < self@.lag && v < self@.n_vars ==> #[trigger] x@[slot_of(
                        self@.n_vars,
                        l,
                        v,
                    ) as int] == past@[v as int]@[l as int]
            },
    {
        let ghost p = table_view(past@);
        proof {
            past_covers_when_reads_present(p, self@.n_vars, self@.lag);
        }
        let n = self.n_vars;
        let lag = self.lag;
        if lag > 0 {
            if past.len() < n {
                return None;
            }
            let mut v: usize = 0;
            while v < n
                invariant
                    p == table_view(past@),
                    n == self@.n_vars,
                    lag == self@.lag,
                    n <= past@.len(),
                    v <= n,
                    lag > 0,
                    forall|k: int| 0 <= k < v ==> #[trigger] p[k].len() >= lag,
                decreases n - v,
            {
                assert(p[v as int] == past@[v as int]@);
                if past[v].len() < lag {
                    proof {
                        past_covers_when_reads_present(p, self@.n_vars, self@.lag);
                    }
                    return None;
                }
                v = v + 1;
            }
        }
        assert(past_covers(p, n as nat, lag as nat));
        let mut x: Vec<T> = Vec::new();
        let mut l: usize = 0;
        while l < lag
            invariant
                p == table_view(past@),
                past_covers(p, n as nat, lag as nat),
                l <= lag,
                x@.len() == l * n,
                forall|l2: nat, v2: nat|
                    l2 < l && v2 < n ==> #[trigger] x@[slot_of(n as nat, l2, v2) as int]
                        == past@[v2 as int]@[l2 as int],
            decreases lag - l,
        {
            let mut v: usize = 0;
            while v < n
                invariant
                    p == table_view(past@),
                    past_covers(p, n as nat, lag as nat),
                    l < lag,
                    v <= n,
                    x@.len() == l * n + v,
                    forall|l2: nat, v2: nat|
                        l2 < l && v2 < n ==> #[trigger] x@[slot_of(n as nat, l2, v2) as int]
                            == past@[v2 as int]@[l2 as int],
                    forall|v2: nat|
                        v2 < v ==> #[trigger] x@[slot_of(n as nat, l as nat, v2) as int]
                            == past@[v2 as int]@[l as int],
                decreases n - v,
            {
                assert(p[v as int] == past@[v as int]@);
                let e = past[v][l];
                let ghost old_x = x@;
                x.push(e);
                assert forall|l2: nat, v2: nat| l2 < l && v2 < n implies #[trigger] x@[slot_of(
                    n as nat,
                    l2,
                    v2,
                ) as int] == past@[v2 as int]@[l2 as int] by {
                    lemma_block_before(n as nat, l2, v2, l as nat);
                    assert(old_x[slot_of(n as nat, l2, v2) as int] == past@[v2 as int]@[l2 as int]);
                }
                v = v + 1;
            }
            proof {
                lemma_next_block(n as nat, l as nat);
            }
            l = l + 1;
        }
        Some(x)
    }
}

/// Reading back a stored equation gives what was stored: when a model
/// stores the fitted equations `betas` (each of `column_count` entries), the
/// coefficients of equation `var` over all lags, read in slot order, are
/// exactly the entries of `betas[var]` after the intercept, and the
/// intercept is `betas[var][0]`.
pub proof fn stored_equation_reads_back<T>(
    m: VARModelView<T>,
    betas: Seq<Seq<T>>,
    var: nat,
    w: Seq<T>,
)
    requires
        m.stores_equations(betas),
        forall|k: int|
            0 <= k < betas.len() ==> #[trigger] betas[k].len() == column_count(m.n_vars, m.lag),
        var < m.n_vars,
        m.is_weight_row(var, m.lag, w),
    ensures
        m.covers(var, m.lag),
        w == betas[var as int].subrange(1, column_count(m.n_vars, m.lag) as int),
        m.intercepts[var as int] == betas[var as int][0],
{
    let n = m.n_vars;
    let lag = m.lag;
    column_layout_is_bijection(n, lag);
    lemma_count_commutes(n, lag);
    let b = betas[var as int];
    let tail = b.subrange(1, column_count(n, lag) as int);
    assert forall|s: int| 0 <= s < w.len() implies w[s] == tail[s] by {
        let c = (s + 1) as nat;
        assert(1 <= c < column_count(n, lag));
        let l = crate::layout::lag_of_column(n, c);
        let v = crate::layout::var_of_column(n, c);
        assert(l < lag && v < n && column_of(n, l, v) == c);
        assert(slot_of(n, l, v) == s);
        assert(w[slot_of(n, l, v) as int] == m.coefficients[l as int][var as int][v as int]);
    }
    assert(w =~= tail);
}

} // verus!
