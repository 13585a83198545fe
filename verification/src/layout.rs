//! Column layout of one VAR(p) regression equation.
//!
//! Column 0 holds the intercept; the regressor "variable `v` at lag `l + 1`"
//! (with `0 <= l < lag`, `0 <= v < n_vars`) stands in column `1 + l * n_vars + v`.
use vstd::prelude::*;

verus! {

/// Number of columns of one equation: the intercept and one column for each
/// (lag, variable) pair.
pub open spec fn column_count(n_vars: nat, lag: nat) -> nat {
    1 + n_vars * lag
}

/// Position of variable `v` at lag `l + 1` among the regressors that follow
/// the intercept (lag-major, then variable).
pub open spec fn slot_of(n_vars: nat, l: nat, v: nat) -> nat {
    l * n_vars + v
}

/// Column holding variable `v` at lag `l + 1`.
pub open spec fn column_of(n_vars: nat, l: nat, v: nat) -> nat {
    1 + slot_of(n_vars, l, v)
}

/// Lag index (0-based) of the regressor in column `c >= 1`.
pub open spec fn lag_of_column(n_vars: nat, c: nat) -> nat {
    ((c - 1) as nat) / n_vars
}

/// Variable of the regressor in column `c >= 1`.
pub open spec fn var_of_column(n_vars: nat, c: nat) -> nat {
    ((c - 1) as nat) % n_vars
}

/// An earlier lag block ends before a later one starts.
pub proof fn lemma_block_before(n_vars: nat, l1: nat, v1: nat, l2: nat)
    requires
        l1 < l2,
        v1 < n_vars,
    ensures
        l1 * n_vars + v1 < l2 * n_vars,
{
    assert(l1 * n_vars + v1 < l2 * n_vars) by (nonlinear_arith)
        requires
            l1 < l2,
            v1 < n_vars,
    ;
}

/// Appending one lag block of `n_vars` slots.
pub proof fn lemma_next_block(n_vars: nat, l: nat)
    ensures
        (l + 1) * n_vars == l * n_vars + n_vars,
{
    assert((l + 1) * n_vars == l * n_vars + n_vars) by (nonlinear_arith);
}

/// A block below `depth` lies inside the first `depth` blocks.
pub proof fn lemma_slot_below_depth(n_vars: nat, l: nat, v: nat, depth: nat)
    requires
        l < depth,
        v < n_vars,
    ensures
        slot_of(n_vars, l, v) < depth * n_vars,
        l * n_vars <= slot_of(n_vars, l, v),
{
    lemma_block_before(n_vars, l, v, depth);
}

/// Multiplication by the number of variables commutes with the lag count.
pub proof fn lemma_count_commutes(n_vars: nat, lag: nat)
    ensures
        n_vars * lag == lag * n_vars,
{
    assert(n_vars * lag == lag * n_vars) by (nonlinear_arith);
}

/// The layout is a bijection between the (lag, variable) pairs and the
/// columns after the intercept: each pair lands in a column in range, no
/// two pairs share a column, and every such column is the column of the pair
/// (`lag_of_column`, `var_of_column`), which reads the pair back.
pub proof fn column_layout_is_bijection(n_vars: nat, lag: nat)
    ensures
        forall|l: nat, v: nat|
            l < lag && v < n_vars ==> 1 <= #[trigger] column_of(n_vars, l, v) < column_count(
                n_vars,
                lag,
            ),
        forall|l1: nat, v1: nat, l2: nat, v2: nat|
            l1 < lag && v1 < n_vars && l2 < lag && v2 < n_vars && #[trigger] column_of(
                n_vars,
                l1,
                v1,
            ) == #[trigger] column_of(n_vars, l2, v2) ==> l1 == l2 && v1 == v2,
        forall|c: nat|
            1 <= c < column_count(n_vars, lag) ==> {
                &&& #[trigger] lag_of_column(n_vars, c) < lag
                &&& var_of_column(n_vars, c) < n_vars
                &&& column_of(n_vars, lag_of_column(n_vars, c), var_of_column(n_vars, c)) == c
            },
        forall|l: nat, v: nat|
            l < lag && v < n_vars ==> lag_of_column(n_vars, #[trigger] column_of(n_vars, l, v))
                == l && var_of_column(n_vars, column_of(n_vars, l, v)) == v,
{
    lemma_count_commutes(n_vars, lag);
    assert forall|l: nat, v: nat| l < lag && v < n_vars implies 1 <= #[trigger] column_of(
        n_vars,
        l,
        v,
    ) < column_count(n_vars, lag) by {
        lemma_block_before(n_vars, l, v, lag);
    }
    assert forall|l1: nat, v1: nat, l2: nat, v2: nat|
        l1 < lag && v1 < n_vars && l2 < lag && v2 < n_vars && #[trigger] column_of(
            n_vars,
            l1,
            v1,
        ) == #[trigger] column_of(n_vars, l2, v2) implies l1 == l2 && v1 == v2 by {
        if l1 < l2 {
            lemma_block_before(n_vars, l1, v1, l2);
        } else if l2 < l1 {
            lemma_block_before(n_vars, l2, v2, l1);
        }
    }
    assert forall|c: nat| 1 <= c < column_count(n_vars, lag) implies {
        &&& #[trigger] lag_of_column(n_vars, c) < lag
        &&& var_of_column(n_vars, c) < n_vars
        &&& column_of(n_vars, lag_of_column(n_vars, c), var_of_column(n_vars, c)) == c
    } by {
        let k = (c - 1) as nat;
        let l = k / n_vars;
        let v = k % n_vars;
        assert(n_vars > 0) by (nonlinear_arith)
            requires
                1 <= c < 1 + lag * n_vars,
        ;
        assert(k == l * n_vars + v && v < n_vars) by (nonlinear_arith)
            requires
                n_vars > 0,
                l == k / n_vars,
                v == k % n_vars,
        ;
        assert(l < lag) by (nonlinear_arith)
            requires
                k == l * n_vars + v,
                k < lag * n_vars,
                n_vars > 0,
        ;
    }
    assert forall|l: nat, v: nat| l < lag && v < n_vars implies lag_of_column(
        n_vars,
        #[trigger] column_of(n_vars, l, v),
    ) == l && var_of_column(n_vars, column_of(n_vars, l, v)) == v by {
        let k = l * n_vars + v;
        assert(k / n_vars == l && k % n_vars == v) by (nonlinear_arith)
            requires
                k == l * n_vars + v,
                v < n_vars,
        ;
    }
}

/// Columns are laid out lag-major: the first regressor column holds
/// variable 0 at lag 1, the variables of one lag stand in adjacent columns
/// in order, and the block of lag `l + 2` starts right after the last
/// variable of lag `l + 1`; the last column holds the last variable at the
/// highest lag.
pub proof fn columns_are_lag_major(n_vars: nat, lag: nat)
    ensures
        n_vars > 0 && lag > 0 ==> column_of(n_vars, 0, 0) == 1,
        forall|l: nat, v: nat|
            v + 1 < n_vars ==> #[trigger] column_of(n_vars, l, v + 1) == column_of(n_vars, l, v)
                + 1,
        forall|l: nat|
            n_vars > 0 ==> #[trigger] column_of(n_vars, l + 1, 0) == column_of(
                n_vars,
                l,
                (n_vars - 1) as nat,
            ) + 1,
        n_vars > 0 && lag > 0 ==> column_of(n_vars, (lag - 1) as nat, (n_vars - 1) as nat) + 1
            == column_count(n_vars, lag),
{
    assert forall|l: nat| n_vars > 0 implies #[trigger] column_of(n_vars, l + 1, 0) == column_of(
        n_vars,
        l,
        (n_vars - 1) as nat,
    ) + 1 by {
        lemma_next_block(n_vars, l);
    }
    if n_vars > 0 && lag > 0 {
        lemma_next_block(n_vars, (lag - 1) as nat);
        lemma_count_commutes(n_vars, lag);
    }
}

/// Number of columns of one equation of a VAR(`lag`) model on `n_vars`
/// series: `1 + n_vars * lag`.
pub fn n_columns(n_vars: usize, lag: usize) -> (r: usize)
    requires
        column_count(n_vars as nat, lag as nat) <= usize::MAX,
    ensures
        r == column_count(n_vars as nat, lag as nat),
{
    1 + n_vars * lag
}

} // verus!
