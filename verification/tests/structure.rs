use granger_causality::layout::n_columns;
use granger_causality::{Autocorrelation, GrangerTest, ImpulseResponse, LagSelection, VARModel};

fn two_series() -> Vec<Vec<i64>> {
    vec![vec![1, 2, 3, 4], vec![10, 20, 30, 40]]
}

#[test]
fn column_count_of_layout() {
    assert_eq!(n_columns(2, 3), 7);
    assert_eq!(n_columns(1, 0), 1);
    assert_eq!(n_columns(0, 5), 1);
}

#[test]
fn design_matrix_gathers_lagged_values() {
    let data = two_series();
    assert!(VARModel::<i64>::accepts(&data, 2));
    let x = VARModel::design_matrix(&data, 2, 100);
    assert_eq!(x, vec![vec![100, 2, 20, 1, 10], vec![100, 3, 30, 2, 20]]);
}

#[test]
fn design_matrix_without_observations() {
    let data = two_series();
    let x = VARModel::design_matrix(&data, 4, 100);
    assert!(x.is_empty());
    let y = VARModel::response(&data, 0, 4);
    assert!(y.is_empty());
}

#[test]
fn design_matrix_lag_zero_is_intercept_only() {
    let data = two_series();
    let x = VARModel::design_matrix(&data, 0, 7);
    assert_eq!(x, vec![vec![7], vec![7], vec![7], vec![7]]);
}

#[test]
fn response_is_series_after_lag() {
    let data = two_series();
    assert_eq!(VARModel::response(&data, 1, 2), vec![30, 40]);
    assert_eq!(VARModel::response(&data, 0, 1), vec![2, 3, 4]);
}

#[test]
fn accepts_checks_lengths() {
    let data = two_series();
    assert!(VARModel::<i64>::accepts(&data, 0));
    assert!(VARModel::<i64>::accepts(&data, 4));
    assert!(!VARModel::<i64>::accepts(&data, 5));
    let empty: Vec<Vec<i64>> = vec![];
    assert!(!VARModel::<i64>::accepts(&empty, 0));
    let ragged = vec![vec![1i64, 2, 3], vec![1]];
    assert!(!VARModel::<i64>::accepts(&ragged, 1));
    // nothing to fit: the shorter series is never read
    assert!(VARModel::<i64>::accepts(&ragged, 3));
    let huge = vec![vec![0i64; 1], vec![0i64; 1]];
    assert!(!VARModel::<i64>::accepts(&huge, usize::MAX));
}

#[test]
fn new_model_has_zero_rss() {
    let m = VARModel::new(2, 1, vec![vec![vec![1, 2], vec![3, 4]]], vec![5, 6], 0i64);
    assert_eq!(m.n_vars(), 2);
    assert_eq!(m.lag(), 1);
    assert_eq!(m.n_obs(), 0);
    assert_eq!(m.rss(0), 0);
    assert_eq!(m.rss(1), 0);
    assert_eq!(m.intercept(1), Some(6));
    assert_eq!(m.intercept(2), None);
    assert_eq!(m.equation_weights(1, 1), Some(vec![3, 4]));
}

#[test]
fn new_model_with_missing_coefficients() {
    let m = VARModel::new(2, 2, vec![vec![vec![1, 2], vec![3]]], vec![], 0i64);
    assert_eq!(m.equation_weights(0, 1), Some(vec![1, 2]));
    assert_eq!(m.equation_weights(1, 1), None);
    assert_eq!(m.equation_weights(0, 2), None);
    assert_eq!(m.equation_weights(0, 0), Some(vec![]));
    assert_eq!(m.intercept(0), None);
}

#[test]
fn fitted_equations_read_back() {
    // two variables, lag 2: five columns per equation
    let betas = vec![vec![1, 2, 3, 4, 5], vec![6, 7, 8, 9, 10]];
    let m = VARModel::from_equations(2, 2, &betas, vec![11, 12], 9);
    assert_eq!(m.n_obs(), 9);
    assert_eq!(m.rss(0), 11);
    assert_eq!(m.rss(1), 12);
    assert_eq!(m.intercept(0), Some(1));
    assert_eq!(m.intercept(1), Some(6));
    assert_eq!(m.equation_weights(0, 2), Some(vec![2, 3, 4, 5]));
    assert_eq!(m.equation_weights(1, 2), Some(vec![7, 8, 9, 10]));
    assert_eq!(m.equation_weights(1, 1), Some(vec![7, 8]));
}

#[test]
fn forecast_regressors_most_recent_first() {
    let betas = vec![vec![0, 1, 2, 3, 4], vec![0, 5, 6, 7, 8]];
    let m = VARModel::from_equations(2, 2, &betas, vec![0, 0], 0);
    let past = vec![vec![99, 98], vec![198, 196]];
    assert_eq!(m.forecast_regressors(&past), Some(vec![99, 198, 98, 196]));
    let short = vec![vec![99, 98], vec![198]];
    assert_eq!(m.forecast_regressors(&short), None);
    let one = vec![vec![99, 98]];
    assert_eq!(m.forecast_regressors(&one), None);
}

#[test]
fn forecast_regressors_lag_zero() {
    let m = VARModel::from_equations(1, 0, &vec![vec![3]], vec![0], 0);
    let none: Vec<Vec<i64>> = vec![];
    assert_eq!(m.forecast_regressors(&none), Some(vec![]));
}

#[test]
fn impulse_regressors_use_recent_steps() {
    let betas = vec![vec![0, 1, 2, 3, 4], vec![0, 5, 6, 7, 8]];
    let m = VARModel::from_equations(2, 2, &betas, vec![0, 0], 0);
    let ir = ImpulseResponse::new(&m);
    let responses = vec![vec![1, 0], vec![2, 3], vec![4, 5]];
    assert_eq!(ir.contributing_lags(3), 2);
    assert_eq!(ir.contributing_lags(1), 1);
    assert_eq!(ir.regressors(&responses), vec![4, 5, 2, 3]);
    assert_eq!(ir.regressors(&vec![vec![1, 0]]), vec![1, 0]);
    assert_eq!(ir.model().n_vars(), 2);
}

fn table(values: &[f64]) -> (Vec<bool>, Vec<Vec<bool>>) {
    let below = values.iter().map(|v| *v < f64::INFINITY).collect();
    let less = values
        .iter()
        .map(|a| values.iter().map(|b| a < b).collect())
        .collect();
    (below, less)
}

#[test]
fn selects_first_lowest_lag() {
    let (below, less) = table(&[3.0, 1.0, 1.0, 2.0]);
    assert_eq!(LagSelection::select(&below, &less), 2);
    let (below, less) = table(&[-1.0, 0.5, 2.0]);
    assert_eq!(LagSelection::select(&below, &less), 1);
    let (below, less) = table(&[5.0, 4.0, 3.0, 2.0, 1.0]);
    assert_eq!(LagSelection::select(&below, &less), 5);
}

#[test]
fn selection_skips_nan_and_infinity() {
    let (below, less) = table(&[f64::NAN, f64::INFINITY, 7.0, f64::NAN]);
    assert_eq!(LagSelection::select(&below, &less), 3);
    let (below, less) = table(&[f64::NAN, f64::INFINITY]);
    assert_eq!(LagSelection::select(&below, &less), 1);
    let (below, less) = table(&[f64::NEG_INFINITY, -5.0]);
    assert_eq!(LagSelection::select(&below, &less), 1);
}

#[test]
fn selection_without_candidates() {
    assert_eq!(LagSelection::select(&vec![], &vec![]), 1);
}

#[test]
fn granger_degrees_of_freedom() {
    assert_eq!(GrangerTest::degrees_of_freedom(100, 100, 2), Some((2, 93)));
    assert_eq!(GrangerTest::degrees_of_freedom(200, 200, 3), Some((3, 190)));
    assert_eq!(GrangerTest::degrees_of_freedom(100, 100, 33), Some((33, 0)));
    assert_eq!(GrangerTest::degrees_of_freedom(100, 100, 34), None);
    assert_eq!(GrangerTest::degrees_of_freedom(99, 100, 2), None);
    assert_eq!(GrangerTest::degrees_of_freedom(0, 0, 0), None);
    assert_eq!(GrangerTest::degrees_of_freedom(1, 1, 0), Some((0, 0)));
}

#[test]
fn correlation_overlap() {
    assert_eq!(Autocorrelation::overlap(5, 5, 0), Some(5));
    assert_eq!(Autocorrelation::overlap(5, 5, 3), Some(2));
    assert_eq!(Autocorrelation::overlap(5, 3, 2), Some(1));
    assert_eq!(Autocorrelation::overlap(5, 3, 3), None);
    assert_eq!(Autocorrelation::overlap(0, 0, 0), None);
}

#[test]
fn design_lags_are_earlier_responses_example() {
    let data = vec![vec![1i64, 2, 3, 4, 5], vec![10, 20, 30, 40, 50]];
    let lag = 2;
    let x = VARModel::design_matrix(&data, lag, 0);
    for var in 0..2 {
        let y = VARModel::response(&data, var, lag);
        for l in 0..lag {
            for t_idx in 0..x.len() {
                if t_idx + l + 1 < x.len() {
                    assert_eq!(x[t_idx + l + 1][1 + l * 2 + var], y[t_idx]);
                }
            }
        }
    }
}

#[test]
fn layout_columns_are_distinct() {
    // distinct values in every (lag, variable) position land in distinct columns
    let data = vec![vec![1i64, 2, 3, 4], vec![5, 6, 7, 8], vec![9, 10, 11, 12]];
    let x = VARModel::design_matrix(&data, 3, 0);
    assert_eq!(x, vec![vec![0, 3, 7, 11, 2, 6, 10, 1, 5, 9]]);
    assert_eq!(x[0].len(), n_columns(3, 3));
}

fn dot(w: &Vec<i64>, x: &Vec<i64>) -> i64 {
    let mut acc = 0;
    for s in 0..x.len() {
        acc += w[s] * x[s];
    }
    acc
}

#[test]
fn propagate_single_variable() {
    // y(t) = 2 y(t-1)
    let m = VARModel::from_equations(1, 1, &vec![vec![0, 2]], vec![0], 0);
    let ir = ImpulseResponse::new(&m);
    let rs = ir.propagate(0, 4, 0i64, 1i64, dot).unwrap();
    assert_eq!(rs, vec![vec![1], vec![2], vec![4], vec![8]]);
}

#[test]
fn propagate_returns_horizon_steps() {
    let m = VARModel::from_equations(2, 1, &vec![vec![0, 1, 2], vec![0, 3, 4]], vec![0, 0], 0);
    let ir = ImpulseResponse::new(&m);
    assert_eq!(ir.propagate(1, 0, 0i64, 1i64, dot), Some(vec![]));
    assert_eq!(ir.propagate(1, 1, 0i64, 1i64, dot), Some(vec![vec![0, 1]]));
    // [1*0 + 2*1, 3*0 + 4*1]
    assert_eq!(ir.propagate(1, 2, 0i64, 1i64, dot), Some(vec![vec![0, 1], vec![2, 4]]));
    assert_eq!(ir.propagate(1, 5, 0i64, 1i64, dot).unwrap().len(), 5);
}

#[test]
fn propagate_two_lags() {
    // lag 2, two variables; equation var: c + a1 . y(t-1) + a2 . y(t-2)
    let betas = vec![vec![9, 1, 0, 1, 1], vec![9, 0, 1, 0, 2]];
    let m = VARModel::from_equations(2, 2, &betas, vec![0, 0], 0);
    let ir = ImpulseResponse::new(&m);
    let rs = ir.propagate(0, 4, 0i64, 1i64, dot).unwrap();
    // step 1 uses only lag 1: [1*1+0*0, 0*1+1*0] = [1, 0]
    // step 2: lag 1 from [1,0], lag 2 from [1,0]: [1 + 1, 0 + 0] = [2, 0]
    // step 3: lag 1 from [2,0], lag 2 from [1,0]: [2 + 1, 0 + 0] = [3, 0]
    assert_eq!(rs, vec![vec![1, 0], vec![1, 0], vec![2, 0], vec![3, 0]]);
}

#[test]
fn propagate_missing_coefficients() {
    // declared lag 2 but only one coefficient matrix
    let m = VARModel::new(1, 2, vec![vec![vec![3]]], vec![0], 0i64);
    let ir = ImpulseResponse::new(&m);
    // two steps need lag 1 only
    assert_eq!(ir.propagate(0, 2, 0i64, 1i64, dot), Some(vec![vec![1], vec![3]]));
    // a third step needs lag 2
    assert_eq!(ir.propagate(0, 3, 0i64, 1i64, dot), None);
}
