use linreg::{normalize_features, predict, train, Fixed, RegressionError};

fn fx(v: f64) -> Fixed {
    Fixed::from_raw((v * 1e6).round() as i128).unwrap()
}

fn tof(x: Fixed) -> f64 {
    x.raw() as f64 / 1e6
}

fn matrix(vals: &[&[f64]]) -> Vec<Vec<Fixed>> {
    vals.iter().map(|row| row.iter().map(|&v| fx(v)).collect()).collect()
}

fn vector(vals: &[f64]) -> Vec<Fixed> {
    vals.iter().map(|&v| fx(v)).collect()
}

fn line_dataset() -> (Vec<Vec<Fixed>>, Vec<Fixed>) {
    let features = matrix(&[&[1.0], &[2.0], &[3.0], &[4.0]]);
    let target = vector(&[2.0, 4.0, 6.0, 8.0]);
    let (norm, _stats) = normalize_features(&features).unwrap();
    (norm, target)
}

#[test]
fn loss_history_length_equals_epoch_count() {
    let (x, y) = line_dataset();
    let (_params, losses) = train(&x, &y, fx(0.1), 7).unwrap();
    assert_eq!(losses.len(), 7);
}

#[test]
fn zero_epochs_give_empty_loss_history_and_zero_parameters() {
    let (x, y) = line_dataset();
    let (params, losses) = train(&x, &y, fx(0.1), 0).unwrap();
    assert!(losses.is_empty());
    assert_eq!(params.bias.raw(), 0);
    assert_eq!(params.weights.len(), 1);
    assert_eq!(params.weights[0].raw(), 0);
}

#[test]
fn empty_dataset_is_rejected() {
    let x: Vec<Vec<Fixed>> = Vec::new();
    let y: Vec<Fixed> = Vec::new();
    let err = train(&x, &y, fx(0.1), 5).unwrap_err();
    assert_eq!(err, RegressionError::EmptyDatasetError);
}

#[test]
fn loss_is_non_increasing_and_converges_to_zero() {
    // A noise-free line with a small learning rate: each epoch of batch
    // gradient descent reduces the half mean squared error.
    let (x, y) = line_dataset();
    let (_params, losses) = train(&x, &y, fx(0.1), 200).unwrap();
    for i in 0..losses.len() - 1 {
        assert!(
            losses[i + 1].raw() <= losses[i].raw(),
            "loss rose at epoch {}: {} -> {}",
            i,
            losses[i].raw(),
            losses[i + 1].raw()
        );
    }
    assert!(tof(losses[199]) < 1e-6);
}

#[test]
fn training_is_deterministic() {
    let (x, y) = line_dataset();
    let (p1, l1) = train(&x, &y, fx(0.1), 50).unwrap();
    let (p2, l2) = train(&x, &y, fx(0.1), 50).unwrap();
    assert_eq!(p1.weights, p2.weights);
    assert_eq!(p1.bias, p2.bias);
    assert_eq!(l1, l2);
}

#[test]
fn trained_model_fits_noise_free_line() {
    let (x, y) = line_dataset();
    let (params, _losses) = train(&x, &y, fx(0.1), 200).unwrap();
    let preds = predict(&x, &params).unwrap();
    for (p, t) in preds.iter().zip(y.iter()) {
        assert!((tof(*p) - tof(*t)).abs() < 1e-4, "{} vs {}", tof(*p), tof(*t));
    }
}

#[test]
fn predict_with_zero_parameters_gives_zero() {
    let (x, y) = line_dataset();
    let (params, _losses) = train(&x, &y, fx(0.1), 0).unwrap();
    let preds = predict(&x, &params).unwrap();
    assert_eq!(preds.len(), y.len());
    for p in preds.iter() {
        assert_eq!(p.raw(), 0);
    }
}

#[test]
fn two_feature_training_converges() {
    // target = x0 + 2 * x1, noise-free.
    let features = matrix(&[&[1.0, 1.0], &[2.0, 3.0], &[3.0, 2.0], &[4.0, 5.0], &[5.0, 4.0]]);
    let target = vector(&[3.0, 8.0, 7.0, 14.0, 13.0]);
    let (norm, _stats) = normalize_features(&features).unwrap();
    let (params, _losses) = train(&norm, &target, fx(0.1), 400).unwrap();
    let preds = predict(&norm, &params).unwrap();
    for (p, t) in preds.iter().zip(target.iter()) {
        assert!((tof(*p) - tof(*t)).abs() < 1e-2, "{} vs {}", tof(*p), tof(*t));
    }
}
