//! Forecasting for terminals: which command comes next, whether the workflow has
//! just changed, and what a command will use.
//!
//! | Module | Purpose |
//! |--------|---------|
//! | [`command_predictor`] | The most likely next commands, with confidence |
//! | [`workflow_anomaly`] | Shifts in the command pattern, by two distances |
//! | [`resource_predictor`] | Memory, CPU time and duration, by moving averages |
//!
//! What a command predictor knows is described by [`model`], and what holds of it
//! whatever was recorded is proved in [`laws`] and [`prediction_laws`];
//! [`resource_laws`] does so for resource predictors. The numbers that forecasts
//! are computed in are the caller's choice: see [`number`]. What holds where equal
//! operands give equal results is proved in [`repeat_laws`], and what holds where
//! nothing is rounded stands beside the formulas: see [`exact`].

pub mod anomaly_laws;
pub mod average;
pub mod chain;
pub mod command_predictor;
pub mod decimal;
pub mod distance;
pub mod exact;
pub mod laws;
pub mod model;
pub mod names;
pub mod number;
pub mod prediction;
pub mod prediction_laws;
pub mod ranking;
pub mod repeat_laws;
pub mod resource_laws;
pub mod resource_predictor;
pub mod smoothing;
pub mod text_laws;
pub mod trend;
pub mod workflow_anomaly;

pub use chain::{ChainNumber, MAX_STATES};
pub use command_predictor::{CommandPredictor, GhostCompleter, Snapshot};
pub use number::Number;
pub use prediction::{Prediction, PredictionResult};
pub use resource_predictor::{
    ResourceAvailability, ResourceObservation, ResourcePrediction, ResourcePredictor, ResourceStats,
};
pub use workflow_anomaly::{AnomalyRecord, DistanceRecord, Severity, WorkflowAnomaly};
