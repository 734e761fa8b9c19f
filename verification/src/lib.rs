//! Gradient-descent linear regression over fixed-point scalars.
//!
//! The crate fits a linear model to a dataset by batch gradient descent and
//! reports per-epoch loss together with mean-squared-error and R² metrics.
//! All numeric work happens on [`fixed::Fixed`], a bounded fixed-point scalar,
//! so that every arithmetic step has an exact, machine-checked meaning.

pub mod error;
pub mod fixed;
pub mod metrics;
pub mod normalize;
pub mod pipeline;
pub mod seqs;
pub mod train;

pub use error::RegressionError;
pub use fixed::Fixed;
pub use metrics::{calculate_mse, calculate_r_squared, evaluate, EvaluationMetrics, Ratio};
pub use normalize::{calculate_mean, calculate_std_dev, normalize_features, NormalizationStats};
pub use pipeline::{run, TrainingResult};
pub use train::{predict, train, Parameters};
