use linreg::{calculate_mse, calculate_r_squared, evaluate, Fixed, Ratio, RegressionError};

fn fx(v: f64) -> Fixed {
    Fixed::from_raw((v * 1e6).round() as i128).unwrap()
}

fn vector(vals: &[f64]) -> Vec<Fixed> {
    vals.iter().map(|&v| fx(v)).collect()
}

fn ratio_value(r: Ratio) -> f64 {
    r.num as f64 / r.den as f64
}

#[test]
fn perfect_predictions_give_zero_mse_and_unit_r_squared() {
    let predictions = vector(&[1.0, 2.0, 3.0]);
    let targets = vector(&[1.0, 2.0, 3.0]);
    let mse = calculate_mse(&predictions, &targets).unwrap();
    assert_eq!(mse.num, 0);
    assert!(mse.den > 0);
    let r2 = calculate_r_squared(&predictions, &targets).unwrap();
    assert_eq!(r2.num, r2.den);
    assert_eq!(ratio_value(r2), 1.0);
}

#[test]
fn r_squared_below_one_when_any_prediction_differs() {
    // Even a difference of one fixed-point unit keeps R² off 1 exactly.
    let predictions = vec![fx(1.0), fx(2.0), Fixed::from_raw(3_000_001).unwrap()];
    let targets = vector(&[1.0, 2.0, 3.0]);
    let r2 = calculate_r_squared(&predictions, &targets).unwrap();
    assert!(r2.num != r2.den);
    let mse = calculate_mse(&predictions, &targets).unwrap();
    assert!(mse.num > 0);
}

#[test]
fn constant_targets_perfectly_matched_score_one() {
    let targets = vector(&[5.0, 5.0, 5.0]);
    let predictions = vector(&[5.0, 5.0, 5.0]);
    let r2 = calculate_r_squared(&predictions, &targets).unwrap();
    assert_eq!(r2, Ratio { num: 1, den: 1 });
}

#[test]
fn constant_targets_with_other_predictions_score_zero() {
    let targets = vector(&[5.0, 5.0, 5.0]);
    let predictions = vector(&[4.0, 5.0, 6.0]);
    let r2 = calculate_r_squared(&predictions, &targets).unwrap();
    assert_eq!(r2, Ratio { num: 0, den: 1 });
    assert_eq!(ratio_value(r2), 0.0);
}

#[test]
fn mismatched_lengths_fail_with_shape_mismatch() {
    let predictions = vector(&[1.0, 2.0]);
    let targets = vector(&[1.0, 2.0, 3.0]);
    assert_eq!(
        calculate_mse(&predictions, &targets).unwrap_err(),
        RegressionError::ShapeMismatchError
    );
    assert_eq!(
        calculate_r_squared(&predictions, &targets).unwrap_err(),
        RegressionError::ShapeMismatchError
    );
    assert_eq!(
        evaluate(&predictions, &targets).unwrap_err(),
        RegressionError::ShapeMismatchError
    );
}

#[test]
fn empty_inputs_fail_with_empty_dataset() {
    let predictions: Vec<Fixed> = Vec::new();
    let targets: Vec<Fixed> = Vec::new();
    assert_eq!(
        evaluate(&predictions, &targets).unwrap_err(),
        RegressionError::EmptyDatasetError
    );
}

#[test]
fn mse_exact_value() {
    // Residuals 1 and 2: MSE = (1 + 4) / 2 = 2.5.
    let predictions = vector(&[2.0, 4.0]);
    let targets = vector(&[1.0, 2.0]);
    let mse = calculate_mse(&predictions, &targets).unwrap();
    assert_eq!(ratio_value(mse), 2.5);
}

#[test]
fn r_squared_exact_value() {
    // targets [1,2,3]: SST = 2; predictions [1,2,4]: SSR = 1; R² = 0.5.
    let predictions = vector(&[1.0, 2.0, 4.0]);
    let targets = vector(&[1.0, 2.0, 3.0]);
    let r2 = calculate_r_squared(&predictions, &targets).unwrap();
    assert_eq!(ratio_value(r2), 0.5);
}

#[test]
fn r_squared_negative_when_worse_than_mean() {
    // Predicting far off a varying target makes SSR exceed SST.
    let predictions = vector(&[10.0, -10.0, 10.0]);
    let targets = vector(&[1.0, 2.0, 3.0]);
    let r2 = calculate_r_squared(&predictions, &targets).unwrap();
    assert!(ratio_value(r2) < 0.0);
}

#[test]
fn evaluate_bundles_both_metrics() {
    let predictions = vector(&[1.0, 2.0, 4.0]);
    let targets = vector(&[1.0, 2.0, 3.0]);
    let metrics = evaluate(&predictions, &targets).unwrap();
    assert_eq!(metrics.mse, calculate_mse(&predictions, &targets).unwrap());
    assert_eq!(metrics.r2, calculate_r_squared(&predictions, &targets).unwrap());
}
