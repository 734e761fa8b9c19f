use linreg::{run, Fixed, RegressionError};

fn fx(v: f64) -> Fixed {
    Fixed::from_raw((v * 1e6).round() as i128).unwrap()
}

fn tof(x: Fixed) -> f64 {
    x.raw() as f64 / 1e6
}

fn matrix(vals: &[&[f64]]) -> Vec<Vec<Fixed>> {
    vals.iter().map(|row| row.iter().map(|&v| fx(v)).collect()).collect()
}

fn vector(vals: &[f64]) -> Vec<Fixed> {
    vals.iter().map(|&v| fx(v)).collect()
}

#[test]
fn full_run_converges_on_noise_free_line() {
    let features = matrix(&[&[1.0], &[2.0], &[3.0], &[4.0]]);
    let target = vector(&[2.0, 4.0, 6.0, 8.0]);
    let result = run(&features, &target, fx(0.1), 200).unwrap();
    assert_eq!(result.loss_history.len(), 200);
    for (p, t) in result.predictions.iter().zip(result.target.iter()) {
        assert!((tof(*p) - tof(*t)).abs() < 1e-4);
    }
    let mse = result.mse.num as f64 / result.mse.den as f64;
    let r2 = result.r2.num as f64 / result.r2.den as f64;
    assert!(mse < 1e-8, "mse {}", mse);
    assert!(r2 > 1.0 - 1e-9, "r2 {}", r2);
}

#[test]
fn run_returns_normalized_features_and_stats() {
    let features = matrix(&[&[1.0], &[2.0], &[3.0], &[4.0]]);
    let target = vector(&[2.0, 4.0, 6.0, 8.0]);
    let result = run(&features, &target, fx(0.1), 10).unwrap();
    assert_eq!(result.features.len(), 4);
    assert_eq!(result.stats.means[0].raw(), 2_500_000);
    assert_eq!(result.stats.stds[0].raw(), 1_118_033);
    let col: Vec<f64> = result.features.iter().map(|row| tof(row[0])).collect();
    let mean: f64 = col.iter().sum::<f64>() / col.len() as f64;
    assert!(mean.abs() < 1e-4);
}

#[test]
fn mismatched_feature_and_target_lengths_fail() {
    let features = matrix(&[&[1.0], &[2.0]]);
    let target = vector(&[1.0, 2.0, 3.0]);
    let err = run(&features, &target, fx(0.1), 10).unwrap_err();
    assert_eq!(err, RegressionError::ShapeMismatchError);
}

#[test]
fn empty_dataset_fails() {
    let features: Vec<Vec<Fixed>> = Vec::new();
    let target: Vec<Fixed> = Vec::new();
    let err = run(&features, &target, fx(0.1), 10).unwrap_err();
    assert_eq!(err, RegressionError::EmptyDatasetError);
}

#[test]
fn degenerate_feature_fails_before_training() {
    let features = matrix(&[&[3.0], &[3.0], &[3.0]]);
    let target = vector(&[1.0, 2.0, 3.0]);
    let err = run(&features, &target, fx(0.1), 10).unwrap_err();
    assert_eq!(err, RegressionError::DegenerateFeatureError(0));
}

#[test]
fn run_is_deterministic() {
    let features = matrix(&[&[1.0], &[2.0], &[3.0], &[4.0]]);
    let target = vector(&[2.0, 4.0, 6.0, 8.0]);
    let a = run(&features, &target, fx(0.1), 60).unwrap();
    let b = run(&features, &target, fx(0.1), 60).unwrap();
    assert_eq!(a.predictions, b.predictions);
    assert_eq!(a.loss_history, b.loss_history);
    assert_eq!(a.parameters.weights, b.parameters.weights);
    assert_eq!(a.parameters.bias, b.parameters.bias);
    assert_eq!(a.mse, b.mse);
    assert_eq!(a.r2, b.r2);
}
