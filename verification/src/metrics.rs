//! Evaluation metrics: mean squared error and R².
//!
//! Both metrics are exact rationals over the raw values of the inputs, so
//! the boundary cases — a perfect fit, constant targets — are decided
//! exactly rather than within a floating-point tolerance.  A length
//! mismatch is reported as `ShapeMismatchError`, an empty input as
//! `EmptyDatasetError`, and a dataset too large for exact sums of squares
//! as `NumericOverflowError`.

use crate::error::RegressionError;
use crate::fixed::{fits, iabs, lemma_sq_bound, lemma_tdiv_bound, lemma_tdiv_exact, tdiv_i128,
    Fixed, FX_BOUND, SCALE};
use crate::normalize::{sp_mean, sp_sq_devs, N_MAX};
use crate::seqs::{
    all_fit, lemma_sum_constant, lemma_sum_nonneg_zero_iff, lemma_sum_take_step, lemma_sum_within,
    raws, sq_bounded, sum_int, sum_raws,
};
use vstd::prelude::*;

verus! {

/// An exact rational value `num / den` with a positive denominator.
#[derive(Debug, Clone, Copy, PartialEq, Eq, Structural)]
pub struct Ratio {
    pub num: i128,
    pub den: i128,
}

/// The two scores of a (predictions, targets) pair.
#[derive(Debug, Clone, Copy, PartialEq, Eq, Structural)]
pub struct EvaluationMetrics {
    pub mse: Ratio,
    pub r2: Ratio,
}

/// Squared elementwise differences of two sequences of raw values.
pub open spec fn sp_sq_diffs(p: Seq<int>, t: Seq<int>) -> Seq<int>
    recommends
        p.len() == t.len(),
{
    Seq::new(p.len(), |i: int| (p[i] - t[i]) * (p[i] - t[i]))
}

/// Sum of squared residuals, in squared raw units.
pub open spec fn sp_ssr(p: Seq<int>, t: Seq<int>) -> int {
    sum_int(sp_sq_diffs(p, t))
}

/// Total sum of squares of the targets around their truncated mean, in
/// squared raw units.
pub open spec fn sp_sst(t: Seq<int>) -> int {
    sum_int(sp_sq_devs(t, sp_mean(t)))
}

/// Numerator and denominator of the mean squared error
/// `sum((p - t)^2) / n`, expressed over raw values.
pub open spec fn sp_mse(p: Seq<int>, t: Seq<int>) -> (int, int) {
    (sp_ssr(p, t), t.len() * (SCALE as int) * (SCALE as int))
}

/// Numerator and denominator of R².  When the targets vary this is
/// `1 - SSR/SST`; for constant targets the convention is `1` on a perfect
/// fit and `0` otherwise.
pub open spec fn sp_r2(p: Seq<int>, t: Seq<int>) -> (int, int) {
    let ssr = sp_ssr(p, t);
    let sst = sp_sst(t);
    if sst != 0 {
        (sst - ssr, sst)
    } else if ssr == 0 {
        (1, 1)
    } else {
        (0, 1)
    }
}

/// The sum of squared residuals is non-negative, and zero exactly when the
/// predictions equal the targets elementwise.
pub proof fn lemma_ssr_zero_iff(p: Seq<int>, t: Seq<int>)
    requires
        p.len() == t.len(),
    ensures
        sp_ssr(p, t) >= 0,
        sp_ssr(p, t) == 0 <==> p =~= t,
{
    let d = sp_sq_diffs(p, t);
    assert forall|i: int| 0 <= i < d.len() implies #[trigger] d[i] >= 0 by {
        assert((p[i] - t[i]) * (p[i] - t[i]) >= 0) by (nonlinear_arith);
    }
    lemma_sum_nonneg_zero_iff(d);
    if sp_ssr(p, t) == 0 {
        assert forall|i: int| 0 <= i < p.len() implies p[i] == t[i] by {
            assert(d[i] == 0);
            assert((p[i] - t[i]) == 0) by (nonlinear_arith)
                requires
                    (p[i] - t[i]) * (p[i] - t[i]) == 0,
            ;
        }
    }
    if p =~= t {
        assert forall|i: int| 0 <= i < d.len() implies #[trigger] d[i] == 0 by {
            assert(p[i] == t[i]);
            assert((p[i] - t[i]) * (p[i] - t[i]) == 0) by (nonlinear_arith)
                requires
                    p[i] - t[i] == 0,
            ;
        }
    }
}

/// The total sum of squares is non-negative, and zero exactly when every
/// target equals the first.
pub proof fn lemma_sst_zero_iff_constant(t: Seq<int>)
    requires
        t.len() > 0,
    ensures
        sp_sst(t) >= 0,
        sp_sst(t) == 0 <==> (forall|i: int| 0 <= i < t.len() ==> #[trigger] t[i] == t[0]),
{
    let m = sp_mean(t);
    let d = sp_sq_devs(t, m);
    assert forall|i: int| 0 <= i < d.len() implies #[trigger] d[i] >= 0 by {
        assert((t[i] - m) * (t[i] - m) >= 0) by (nonlinear_arith);
    }
    lemma_sum_nonneg_zero_iff(d);
    if sp_sst(t) == 0 {
        assert forall|i: int| 0 <= i < t.len() implies #[trigger] t[i] == t[0] by {
            assert(d[i] == 0);
            assert(t[i] == m) by (nonlinear_arith)
                requires
                    (t[i] - m) * (t[i] - m) == 0,
            ;
            assert(d[0] == 0);
            assert(t[0] == m) by (nonlinear_arith)
                requires
                    (t[0] - m) * (t[0] - m) == 0,
            ;
        }
    }
    if forall|i: int| 0 <= i < t.len() ==> #[trigger] t[i] == t[0] {
        lemma_sum_constant(t, t[0]);
        lemma_tdiv_exact(t[0], t.len() as int);
        assert(t[0] * (t.len() as int) == t.len() * t[0]) by (nonlinear_arith);
        assert(m == t[0]);
        assert forall|i: int| 0 <= i < d.len() implies #[trigger] d[i] == 0 by {
            assert(t[i] - m == 0);
            assert((t[i] - m) * (t[i] - m) == 0) by (nonlinear_arith)
                requires
                    t[i] - m == 0,
            ;
        }
        lemma_sum_constant(d, 0);
    }
}

/// R² equals one exactly when the predictions equal the targets
/// elementwise.
pub proof fn lemma_r_squared_one_iff_equal(p: Seq<int>, t: Seq<int>)
    requires
        p.len() == t.len(),
        t.len() > 0,
    ensures
        sp_r2(p, t).0 == sp_r2(p, t).1 <==> p =~= t,
{
    lemma_ssr_zero_iff(p, t);
    lemma_sst_zero_iff_constant(t);
}

/// Against constant targets, R² is one when the predictions all equal that
/// constant and zero otherwise.
pub proof fn lemma_r_squared_constant_targets(p: Seq<int>, t: Seq<int>)
    requires
        p.len() == t.len(),
        t.len() > 0,
        forall|i: int| 0 <= i < t.len() ==> #[trigger] t[i] == t[0],
    ensures
        p =~= t ==> sp_r2(p, t) == (1int, 1int),
        !(p =~= t) ==> sp_r2(p, t) == (0int, 1int),
{
    lemma_ssr_zero_iff(p, t);
    lemma_sst_zero_iff_constant(t);
}

/// Exec sum of squared elementwise differences.
fn sum_sq_diffs(p: &Vec<Fixed>, t: &Vec<Fixed>) -> (s: i128)
    requires
        p@.len() == t@.len(),
        p@.len() <= N_MAX,
    ensures
        s as int == sp_ssr(raws(p@), raws(t@)),
        0 <= s <= 0x40000000000000000000000000000000,
{
    let ghost ds = sp_sq_diffs(raws(p@), raws(t@));
    let n = p.len();
    let mut acc: i128 = 0;
    proof {
        assert(ds.take(0) =~= Seq::<int>::empty());
    }
    for i in 0..n
        invariant
            n == p@.len() == t@.len(),
            n <= N_MAX,
            ds == sp_sq_diffs(raws(p@), raws(t@)),
            acc as int == sum_int(ds.take(i as int)),
            acc >= 0,
            sq_bounded(ds.take(i as int)),
    {
        let x = p[i];
        let y = t[i];
        proof {
            use_type_invariant(&x);
            use_type_invariant(&y);
            assert(raws(p@)[i as int] == x@);
            assert(raws(t@)[i as int] == y@);
        }
        let d: i128 = x.raw() - y.raw();
        proof {
            lemma_sq_bound(d as int, 9_007_199_254_740_992int);
            assert(9_007_199_254_740_992int * 9_007_199_254_740_992int
                == 0x400000000000000000000000000int);
            assert(ds[i as int] == d as int * d as int);
            lemma_sum_take_step(ds, i as int);
            assert(sq_bounded(ds.take(i + 1))) by {
                assert forall|j: int| 0 <= j < i + 1 implies 0 <= #[trigger] ds.take(i + 1)[j]
                    <= 0x400000000000000000000000000int by {
                    if j < i {
                        assert(ds.take(i + 1)[j] == ds.take(i as int)[j]);
                        assert(0 <= ds.take(i as int)[j] <= 0x400000000000000000000000000int);
                    }
                }
            }
            assert forall|j: int| 0 <= j < ds.take(i + 1).len() implies iabs(
                #[trigger] ds.take(i + 1)[j],
            ) <= 0x400000000000000000000000000int by {
                assert(0 <= ds.take(i + 1)[j] <= 0x400000000000000000000000000int);
            }
            lemma_sum_within(ds.take(i + 1), 0x400000000000000000000000000int, N_MAX as int);
            assert((N_MAX as int) * 0x400000000000000000000000000int
                == 0x40000000000000000000000000000000int);
        }
        acc = acc + d * d;
    }
    proof {
        assert(ds.take(n as int) =~= ds);
        lemma_sum_within(ds, 0x400000000000000000000000000int, N_MAX as int);
    }
    acc
}

/// Exec sum of squared deviations of a vector from a raw center `m0`.
fn sum_sq_devs_around(t: &Vec<Fixed>, m0: i128) -> (s: i128)
    requires
        t@.len() <= N_MAX,
        iabs(m0 as int) <= FX_BOUND as int,
    ensures
        s as int == sum_int(sp_sq_devs(raws(t@), m0 as int)),
        0 <= s <= 0x40000000000000000000000000000000,
{
    let ghost ds = sp_sq_devs(raws(t@), m0 as int);
    let n = t.len();
    let mut acc: i128 = 0;
    proof {
        assert(ds.take(0) =~= Seq::<int>::empty());
    }
    for i in 0..n
        invariant
            n == t@.len(),
            n <= N_MAX,
            iabs(m0 as int) <= FX_BOUND as int,
            ds == sp_sq_devs(raws(t@), m0 as int),
            acc as int == sum_int(ds.take(i as int)),
            acc >= 0,
            sq_bounded(ds.take(i as int)),
    {
        let y = t[i];
        proof {
            use_type_invariant(&y);
            assert(raws(t@)[i as int] == y@);
        }
        let d: i128 = y.raw() - m0;
        proof {
            lemma_sq_bound(d as int, 9_007_199_254_740_992int);
            assert(9_007_199_254_740_992int * 9_007_199_254_740_992int
                == 0x400000000000000000000000000int);
            assert(ds[i as int] == d as int * d as int);
            lemma_sum_take_step(ds, i as int);
            assert(sq_bounded(ds.take(i + 1))) by {
                assert forall|j: int| 0 <= j < i + 1 implies 0 <= #[trigger] ds.take(i + 1)[j]
                    <= 0x400000000000000000000000000int by {
                    if j < i {
                        assert(ds.take(i + 1)[j] == ds.take(i as int)[j]);
                        assert(0 <= ds.take(i as int)[j] <= 0x400000000000000000000000000int);
                    }
                }
            }
            assert forall|j: int| 0 <= j < ds.take(i + 1).len() implies iabs(
                #[trigger] ds.take(i + 1)[j],
            ) <= 0x400000000000000000000000000int by {
                assert(0 <= ds.take(i + 1)[j] <= 0x400000000000000000000000000int);
            }
            lemma_sum_within(ds.take(i + 1), 0x400000000000000000000000000int, N_MAX as int);
            assert((N_MAX as int) * 0x400000000000000000000000000int
                == 0x40000000000000000000000000000000int);
        }
        acc = acc + d * d;
    }
    proof {
        assert(ds.take(n as int) =~= ds);
        lemma_sum_within(ds, 0x400000000000000000000000000int, N_MAX as int);
    }
    acc
}

/// Mean squared error of predictions against targets, as an exact rational
/// in value units.
pub fn calculate_mse(predictions: &Vec<Fixed>, targets: &Vec<Fixed>) -> (result: Result<
    Ratio,
    RegressionError,
>)
    ensures
        ({
            let p = raws(predictions@);
            let t = raws(targets@);
            &&& (result is Ok <==> (p.len() == t.len() && 0 < t.len() <= N_MAX))
            &&& (result matches Ok(r) ==> {
                &&& (r.num as int, r.den as int) == sp_mse(p, t)
                &&& r.den > 0
                &&& (r.num == 0 <==> p =~= t)
            })
            &&& (p.len() != t.len() ==> result == Err::<Ratio, RegressionError>(
                RegressionError::ShapeMismatchError,
            ))
            &&& (p.len() == t.len() && t.len() == 0 ==> result == Err::<Ratio, RegressionError>(
                RegressionError::EmptyDatasetError,
            ))
            &&& (p.len() == t.len() && t.len() > N_MAX ==> result == Err::<Ratio, RegressionError>(
                RegressionError::NumericOverflowError,
            ))
        }),
{
    let n = targets.len();
    if predictions.len() != n {
        return Err(RegressionError::ShapeMismatchError);
    }
    if n == 0 {
        return Err(RegressionError::EmptyDatasetError);
    }
    if n > N_MAX {
        return Err(RegressionError::NumericOverflowError);
    }
    let ssr = sum_sq_diffs(predictions, targets);
    let den: i128 = (n as i128) * (SCALE * SCALE);
    proof {
        lemma_ssr_zero_iff(raws(predictions@), raws(targets@));
        assert((n as int) * ((SCALE * SCALE) as int) == (n as int) * (SCALE as int) * (
        SCALE as int)) by (nonlinear_arith);
    }
    Ok(Ratio { num: ssr, den })
}

/// R² (coefficient of determination) of predictions against targets, as an
/// exact rational.  Equals one exactly on a perfect fit; for constant
/// targets the convention is one on a perfect fit and zero otherwise.
pub fn calculate_r_squared(predictions: &Vec<Fixed>, targets: &Vec<Fixed>) -> (result: Result<
    Ratio,
    RegressionError,
>)
    ensures
        ({
            let p = raws(predictions@);
            let t = raws(targets@);
            &&& (result is Ok <==> (p.len() == t.len() && 0 < t.len() <= N_MAX))
            &&& (result matches Ok(r) ==> {
                &&& (r.num as int, r.den as int) == sp_r2(p, t)
                &&& r.den > 0
                &&& (r.num == r.den <==> p =~= t)
            })
            &&& (p.len() != t.len() ==> result == Err::<Ratio, RegressionError>(
                RegressionError::ShapeMismatchError,
            ))
            &&& (p.len() == t.len() && t.len() == 0 ==> result == Err::<Ratio, RegressionError>(
                RegressionError::EmptyDatasetError,
            ))
            &&& (p.len() == t.len() && t.len() > N_MAX ==> result == Err::<Ratio, RegressionError>(
                RegressionError::NumericOverflowError,
            ))
        }),
{
    let n = targets.len();
    if predictions.len() != n {
        return Err(RegressionError::ShapeMismatchError);
    }
    if n == 0 {
        return Err(RegressionError::EmptyDatasetError);
    }
    if n > N_MAX {
        return Err(RegressionError::NumericOverflowError);
    }
    let ghost p = raws(predictions@);
    let ghost t = raws(targets@);
    let total = sum_raws(targets);
    proof {
        assert forall|j: int| 0 <= j < t.len() implies iabs(#[trigger] t[j]) <= FX_BOUND as int by {
            assert(fits(t[j]));
        }
        lemma_sum_within(t, FX_BOUND as int, n as int);
        assert((n as int) * (FX_BOUND as int) == (FX_BOUND as int) * (n as int))
            by (nonlinear_arith);
        lemma_tdiv_bound(total as int, n as int, FX_BOUND as int);
    }
    let m0: i128 = tdiv_i128(total, n as i128);
    let sst = sum_sq_devs_around(targets, m0);
    let ssr = sum_sq_diffs(predictions, targets);
    proof {
        assert(m0 as int == sp_mean(t));
        assert(sst as int == sp_sst(t));
        lemma_ssr_zero_iff(p, t);
    }
    if sst != 0 {
        Ok(Ratio { num: sst - ssr, den: sst })
    } else {
        if ssr == 0 {
            Ok(Ratio { num: 1, den: 1 })
        } else {
            Ok(Ratio { num: 0, den: 1 })
        }
    }
}

/// Both evaluation metrics of a (predictions, targets) pair.
pub fn evaluate(predictions: &Vec<Fixed>, targets: &Vec<Fixed>) -> (result: Result<
    EvaluationMetrics,
    RegressionError,
>)
    ensures
        ({
            let p = raws(predictions@);
            let t = raws(targets@);
            &&& (result is Ok <==> (p.len() == t.len() && 0 < t.len() <= N_MAX))
            &&& (result matches Ok(mt) ==> {
                &&& (mt.mse.num as int, mt.mse.den as int) == sp_mse(p, t)
                &&& (mt.r2.num as int, mt.r2.den as int) == sp_r2(p, t)
                &&& mt.mse.den > 0
                &&& mt.r2.den > 0
                &&& (mt.mse.num == 0 <==> p =~= t)
                &&& (mt.r2.num == mt.r2.den <==> p =~= t)
            })
            &&& (p.len() != t.len() ==> result == Err::<EvaluationMetrics, RegressionError>(
                RegressionError::ShapeMismatchError,
            ))
            &&& (p.len() == t.len() && t.len() == 0 ==> result == Err::<
                EvaluationMetrics,
                RegressionError,
            >(RegressionError::EmptyDatasetError))
            &&& (p.len() == t.len() && t.len() > N_MAX ==> result == Err::<
                EvaluationMetrics,
                RegressionError,
            >(RegressionError::NumericOverflowError))
        }),
{
    let mse = match calculate_mse(predictions, targets) {
        Ok(r) => r,
        Err(e) => {
            return Err(e);
        },
    };
    let r2 = match calculate_r_squared(predictions, targets) {
        Ok(r) => r,
        Err(e) => {
            return Err(e);
        },
    };
    Ok(EvaluationMetrics { mse, r2 })
}

} // verus!
