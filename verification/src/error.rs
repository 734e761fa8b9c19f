//! Error taxonomy of the trainer.
//!
//! Every failure the library can report is a value of [`RegressionError`];
//! no function of the crate panics.

use vstd::prelude::*;

verus! {

/// A recoverable failure reported by normalization, training, or evaluation.
#[derive(Debug, Clone, Copy, PartialEq, Eq, Structural)]
pub enum RegressionError {
    /// Predictions and targets handed to metric computation differ in length.
    ShapeMismatchError,
    /// A feature column has zero variance; the payload is the column index.
    DegenerateFeatureError(usize),
    /// A zero-row dataset was supplied to training or evaluation.
    EmptyDatasetError,
    /// An intermediate value left the representable fixed-point range.
    NumericOverflowError,
}

} // verus!
