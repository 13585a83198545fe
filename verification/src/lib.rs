//! Granger causality analysis built on vector autoregression (VAR).
//!
//! This crate holds the verified structure of the analysis: how a VAR(p)
//! regression lays out its columns, how design rows, responses and lagged
//! regressors are gathered from the series, how fitted equations are stored
//! and read back, how a unit shock propagates through the equations,
//! which series lengths a Granger F-test accepts and with how
//! many degrees of freedom, which pairs enter a correlation at a lag, and
//! how a lag order is selected from the comparisons of information criteria.
//! The floating-point arithmetic on these values is done by the caller.
pub mod correlation;
pub mod granger;
pub mod impulse;
pub mod lag_selection;
pub mod layout;
pub mod var_model;

pub use correlation::Autocorrelation;
pub use granger::GrangerTest;
pub use impulse::ImpulseResponse;
pub use lag_selection::LagSelection;
pub use var_model::VARModel;
