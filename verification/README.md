# granger_causality

Granger causality testing with vector autoregression (VAR), lag selection via
AIC/BIC, autocorrelation functions and impulse response analysis.

- `src/` is the verified library (Verus). It is generic in the value type and
  holds the structure of the analysis: the column layout of a VAR(p)
  equation and its bijection with (lag, variable) pairs (`layout`), the
  design matrix, responses and lagged regressors gathered from the series,
  and the storage and read-back of fitted equations (`var_model`,
  `impulse`), the series lengths accepted by the Granger F-test and its
  degrees of freedom (`granger`), the lagged pairs of a correlation
  (`correlation`), and the choice of a lag from the comparisons of
  information criteria, proved to be the first lowest value (`lag_selection`).
- `app/` adds the floating-point arithmetic on `f64` series (least squares,
  residual sums, criteria, correlations, the F statistic, shock propagation)
  as extension traits on the library's types.
- `tests/` runs the library on concrete values.
