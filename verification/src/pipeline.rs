//! The training pipeline: normalize, train, predict, evaluate.
//!
//! [`run`] wires the components together and packages everything a caller
//! needs into one [`TrainingResult`].  The whole pipeline is pinned by
//! [`run_post`]: the result — including which error is reported on which
//! input — is a function of the dataset, the learning rate and the epoch
//! count alone, which makes training runs deterministic.

use crate::error::RegressionError;
use crate::fixed::Fixed;
use crate::metrics::{evaluate, sp_mse, sp_r2, EvaluationMetrics, Ratio};
use crate::normalize::{
    all_norm_fit, all_stds_fit, first_degenerate_from, normalize_features, sp_col_mean, sp_col_std,
    sp_normalized, NormalizationStats, N_MAX,
};
use crate::seqs::{is_rect, mat_raws, raws, width};
use crate::train::{predict, sp_preds_from, sp_run, train, Parameters};
use vstd::prelude::*;

verus! {

/// Everything one training run produces.  Wall-clock timing is a concern
/// of the calling layer and is not part of this value.
#[derive(Debug, Clone)]
pub struct TrainingResult {
    /// The z-score-normalized feature matrix the model was trained on.
    pub features: Vec<Vec<Fixed>>,
    /// The target vector as supplied, un-normalized.
    pub target: Vec<Fixed>,
    /// Predictions of the final model on the normalized features.
    pub predictions: Vec<Fixed>,
    /// Per-epoch half mean squared error, in epoch order.
    pub loss_history: Vec<Fixed>,
    /// Mean squared error of the predictions against the targets.
    pub mse: Ratio,
    /// Coefficient of determination of the predictions against the targets.
    pub r2: Ratio,
    /// The trained weights and bias.
    pub parameters: Parameters,
    /// Per-column mean and standard deviation used for normalization.
    pub stats: NormalizationStats,
}

/// What [`run`] returns for a given dataset, learning rate and epoch
/// count: each error with the exact inputs on which it comes, and for the
/// successful case every field of the result.
pub open spec fn run_post(
    m: Seq<Seq<int>>,
    t: Seq<int>,
    lr: int,
    epochs: nat,
    result: Result<TrainingResult, RegressionError>,
) -> bool {
    let n = m.len();
    let w = width(m);
    let fd = first_degenerate_from(m, 0);
    let nm = sp_normalized(m);
    if n != t.len() {
        result == Err::<TrainingResult, RegressionError>(RegressionError::ShapeMismatchError)
    } else if n == 0 {
        result == Err::<TrainingResult, RegressionError>(RegressionError::EmptyDatasetError)
    } else if n > N_MAX || !all_stds_fit(m) {
        result == Err::<TrainingResult, RegressionError>(RegressionError::NumericOverflowError)
    } else if fd < w {
        result == Err::<TrainingResult, RegressionError>(
            RegressionError::DegenerateFeatureError(fd as usize),
        )
    } else if !all_norm_fit(m) {
        result == Err::<TrainingResult, RegressionError>(RegressionError::NumericOverflowError)
    } else {
        match sp_run(nm, t, lr, epochs) {
            None => result == Err::<TrainingResult, RegressionError>(
                RegressionError::NumericOverflowError,
            ),
            Some(st) => match sp_preds_from(nm, st.0, st.1, 0, Seq::empty()) {
                None => result == Err::<TrainingResult, RegressionError>(
                    RegressionError::NumericOverflowError,
                ),
                Some(ps) => match result {
                    Err(_) => false,
                    Ok(res) => {
                        &&& mat_raws(res.features@) == nm
                        &&& raws(res.target@) == t
                        &&& raws(res.predictions@) == ps
                        &&& raws(res.loss_history@) == st.2
                        &&& res.loss_history@.len() == epochs
                        &&& raws(res.parameters.weights@) == st.0
                        &&& res.parameters.bias@ == st.1
                        &&& res.stats.means@.len() == w
                        &&& res.stats.stds@.len() == w
                        &&& (forall|c: int|
                            0 <= c < w ==> #[trigger] raws(res.stats.means@)[c] == sp_col_mean(
                                m,
                                c,
                            ))
                        &&& (forall|c: int|
                            0 <= c < w ==> #[trigger] raws(res.stats.stds@)[c] == sp_col_std(m, c))
                        &&& (res.mse.num as int, res.mse.den as int) == sp_mse(ps, t)
                        &&& (res.r2.num as int, res.r2.den as int) == sp_r2(ps, t)
                        &&& res.mse.den > 0
                        &&& res.r2.den > 0
                    },
                },
            },
        }
    }
}

/// The pipeline is deterministic: any two results that [`run`]'s contract
/// admits for the same dataset, learning rate and epoch count carry the
/// same error, or the same normalized features, predictions, loss history,
/// parameters and metrics.
pub proof fn lemma_run_deterministic(
    m: Seq<Seq<int>>,
    t: Seq<int>,
    lr: int,
    epochs: nat,
    r1: Result<TrainingResult, RegressionError>,
    r2: Result<TrainingResult, RegressionError>,
)
    requires
        run_post(m, t, lr, epochs, r1),
        run_post(m, t, lr, epochs, r2),
    ensures
        r1 is Ok <==> r2 is Ok,
        r1 is Err ==> r1 == r2,
        r1 matches Ok(a) ==> r2 matches Ok(b) ==> {
            &&& mat_raws(a.features@) == mat_raws(b.features@)
            &&& raws(a.target@) == raws(b.target@)
            &&& raws(a.predictions@) == raws(b.predictions@)
            &&& raws(a.loss_history@) == raws(b.loss_history@)
            &&& raws(a.parameters.weights@) == raws(b.parameters.weights@)
            &&& a.parameters.bias@ == b.parameters.bias@
            &&& a.mse == b.mse
            &&& a.r2 == b.r2
        },
{
}

/// Copies a vector of scalars.
fn copy_vec(v: &Vec<Fixed>) -> (r: Vec<Fixed>)
    ensures
        r@ == v@,
{
    let mut out: Vec<Fixed> = Vec::new();
    let n = v.len();
    for i in 0..n
        invariant
            n == v@.len(),
            out@ == v@.take(i as int),
    {
        let ghost pre = out@;
        out.push(v[i]);
        proof {
            assert(out@ =~= v@.take(i + 1));
        }
    }
    proof {
        assert(v@.take(n as int) =~= v@);
    }
    out
}

/// Runs the whole pipeline: normalizes the features, trains for `epochs`
/// epochs at `learning_rate`, recomputes predictions with the final
/// parameters, scores them against the supplied targets, and packages the
/// results.
pub fn run(
    features: &Vec<Vec<Fixed>>,
    target: &Vec<Fixed>,
    learning_rate: Fixed,
    epochs: usize,
) -> (result: Result<TrainingResult, RegressionError>)
    requires
        is_rect(mat_raws(features@)),
        learning_rate@ > 0,
    ensures
        run_post(mat_raws(features@), raws(target@), learning_rate@, epochs as nat, result),
{
    let ghost m = mat_raws(features@);
    let ghost t = raws(target@);
    let n = features.len();
    if target.len() != n {
        return Err(RegressionError::ShapeMismatchError);
    }
    if n == 0 {
        return Err(RegressionError::EmptyDatasetError);
    }
    proof {
        crate::normalize::lemma_first_degenerate_range(m, 0);
    }
    let (norm, stats) = match normalize_features(features) {
        Ok(p) => p,
        Err(e) => {
            return Err(e);
        },
    };
    let ghost nm = sp_normalized(m);
    proof {
        assert(nm.len() == n);
        assert(width(nm) == width(m)) by {
            assert(nm[0].len() == width(m));
        }
        assert(is_rect(nm)) by {
            assert forall|i: int| 0 <= i < nm.len() implies (#[trigger] nm[i]).len() == width(
                nm,
            ) by {
                assert(nm[i].len() == width(m));
            }
        }
    }
    let (params, losses) = match train(&norm, target, learning_rate, epochs) {
        Ok(r) => r,
        Err(e) => {
            return Err(e);
        },
    };
    let preds = match predict(&norm, &params) {
        Ok(p) => p,
        Err(e) => {
            return Err(e);
        },
    };
    let mt = match evaluate(&preds, target) {
        Ok(mt) => mt,
        Err(e) => {
            proof {
                assert(false);
            }
            return Err(e);
        },
    };
    let target_copy = copy_vec(target);
    Ok(
        TrainingResult {
            features: norm,
            target: target_copy,
            predictions: preds,
            loss_history: losses,
            mse: mt.mse,
            r2: mt.r2,
            parameters: params,
            stats,
        },
    )
}

} // verus!
