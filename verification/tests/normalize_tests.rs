use linreg::{calculate_mean, calculate_std_dev, normalize_features, Fixed, RegressionError};

fn fx(v: f64) -> Fixed {
    Fixed::from_raw((v * 1e6).round() as i128).unwrap()
}

fn tof(x: Fixed) -> f64 {
    x.raw() as f64 / 1e6
}

fn matrix(vals: &[&[f64]]) -> Vec<Vec<Fixed>> {
    vals.iter().map(|row| row.iter().map(|&v| fx(v)).collect()).collect()
}

#[test]
fn mean_of_single_column() {
    let features = matrix(&[&[1.0], &[2.0], &[3.0], &[4.0]]);
    let means = calculate_mean(&features);
    assert_eq!(means.len(), 1);
    assert_eq!(means[0].raw(), 2_500_000);
}

#[test]
fn mean_of_two_columns() {
    let features = matrix(&[&[1.0, 10.0], &[3.0, 20.0]]);
    let means = calculate_mean(&features);
    assert_eq!(means.len(), 2);
    assert_eq!(means[0].raw(), 2_000_000);
    assert_eq!(means[1].raw(), 15_000_000);
}

#[test]
fn mean_of_empty_matrix_is_empty() {
    let features: Vec<Vec<Fixed>> = Vec::new();
    let means = calculate_mean(&features);
    assert!(means.is_empty());
}

#[test]
fn std_dev_exact_value() {
    // Population variance of [1,2,3,4] is 1.25; its fixed-point square
    // root truncates to 1.118033.
    let features = matrix(&[&[1.0], &[2.0], &[3.0], &[4.0]]);
    let means = calculate_mean(&features);
    let stds = calculate_std_dev(&features, &means).unwrap();
    assert_eq!(stds.len(), 1);
    assert_eq!(stds[0].raw(), 1_118_033);
}

#[test]
fn std_dev_of_empty_matrix_is_empty() {
    let features: Vec<Vec<Fixed>> = Vec::new();
    let means = calculate_mean(&features);
    let stds = calculate_std_dev(&features, &means).unwrap();
    assert!(stds.is_empty());
}

#[test]
fn normalized_columns_have_mean_zero_and_std_one() {
    let features = matrix(&[&[1.0, 4.0], &[2.0, 8.0], &[3.0, 12.0], &[4.0, 20.0]]);
    let (norm, _stats) = normalize_features(&features).unwrap();
    for c in 0..2 {
        let col: Vec<f64> = norm.iter().map(|row| tof(row[c])).collect();
        let mean: f64 = col.iter().sum::<f64>() / col.len() as f64;
        let var: f64 = col.iter().map(|z| (z - mean) * (z - mean)).sum::<f64>()
            / col.len() as f64;
        assert!(mean.abs() < 1e-4, "column {} mean {}", c, mean);
        assert!((var.sqrt() - 1.0).abs() < 1e-3, "column {} std {}", c, var.sqrt());
    }
}

#[test]
fn normalized_values_exact() {
    let features = matrix(&[&[1.0], &[2.0], &[3.0], &[4.0]]);
    let (norm, stats) = normalize_features(&features).unwrap();
    assert_eq!(stats.means[0].raw(), 2_500_000);
    assert_eq!(stats.stds[0].raw(), 1_118_033);
    let raws: Vec<i128> = norm.iter().map(|row| row[0].raw()).collect();
    assert_eq!(raws, vec![-1_341_641, -447_213, 447_213, 1_341_641]);
}

#[test]
fn empty_input_returns_empty_outputs() {
    let features: Vec<Vec<Fixed>> = Vec::new();
    let (norm, stats) = normalize_features(&features).unwrap();
    assert!(norm.is_empty());
    assert!(stats.means.is_empty());
    assert!(stats.stds.is_empty());
}

#[test]
fn degenerate_column_is_reported_with_its_index() {
    let features = matrix(&[&[1.0, 5.0], &[2.0, 5.0], &[3.0, 5.0]]);
    let err = normalize_features(&features).unwrap_err();
    assert_eq!(err, RegressionError::DegenerateFeatureError(1));
}

#[test]
fn first_degenerate_column_wins() {
    let features = matrix(&[&[7.0, 5.0], &[7.0, 6.0]]);
    let err = normalize_features(&features).unwrap_err();
    assert_eq!(err, RegressionError::DegenerateFeatureError(0));
}
