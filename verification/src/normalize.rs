//! Z-score feature normalization.
//!
//! For each feature column the module computes the truncated mean and the
//! population standard deviation (divisor `N`), then transforms every entry
//! to `(x - mean) / std`.  A zero-variance column cannot be normalized; the
//! chosen policy is to report it as [`RegressionError::DegenerateFeatureError`]
//! with the column index rather than substituting an epsilon, so a caller
//! always learns which column was constant.

use crate::error::RegressionError;
use crate::fixed::{
    fits, iabs, isqrt_i128, lemma_sq_bound, lemma_tdiv_bound, sp_isqrt, tdiv, tdiv_i128, Fixed,
    FX_BOUND, SCALE,
};
use crate::seqs::{
    all_fit, colseq, is_rect, lemma_sum_take_step, lemma_sum_within, mat_raws, raws, sq_bounded,
    sum_int, width,
};
use vstd::prelude::*;

verus! {

/// Largest number of rows a dataset may have; keeps every sum of squared
/// deviations inside `i128`.
pub const N_MAX: usize = 1_048_576;

/// Per-feature mean and standard deviation, derived once from the training
/// features.
#[derive(Debug, Clone)]
pub struct NormalizationStats {
    pub means: Vec<Fixed>,
    pub stds: Vec<Fixed>,
}

/// Truncated mean of a sequence of raw values.
pub open spec fn sp_mean(s: Seq<int>) -> int
    recommends
        s.len() > 0,
{
    tdiv(sum_int(s), s.len() as int)
}

/// Squared deviations of a sequence of raw values from `m`.
pub open spec fn sp_sq_devs(s: Seq<int>, m: int) -> Seq<int> {
    s.map_values(|x: int| (x - m) * (x - m))
}

/// Truncated population variance (divisor `N`) of raw values around `m`,
/// in squared raw units.
pub open spec fn sp_var(s: Seq<int>, m: int) -> int
    recommends
        s.len() > 0,
{
    tdiv(sum_int(sp_sq_devs(s, m)), s.len() as int)
}

/// Population standard deviation of raw values around `m`, in raw units.
pub open spec fn sp_std(s: Seq<int>, m: int) -> int
    recommends
        s.len() > 0,
{
    sp_isqrt(sp_var(s, m))
}

/// Mean of column `c` of a matrix of raw values.
pub open spec fn sp_col_mean(m: Seq<Seq<int>>, c: int) -> int {
    sp_mean(colseq(m, c))
}

/// Standard deviation of column `c` of a matrix of raw values.
pub open spec fn sp_col_std(m: Seq<Seq<int>>, c: int) -> int {
    sp_std(colseq(m, c), sp_col_mean(m, c))
}

/// Z-score of raw value `x` under mean `m` and standard deviation `s`, in
/// raw units.
pub open spec fn sp_norm_entry(x: int, m: int, s: int) -> int
    recommends
        s != 0,
{
    tdiv((x - m) * (SCALE as int), s)
}

/// The fully normalized matrix of raw values.
pub open spec fn sp_normalized(m: Seq<Seq<int>>) -> Seq<Seq<int>> {
    Seq::new(
        m.len(),
        |r: int|
            Seq::new(
                width(m) as nat,
                |c: int| sp_norm_entry(m[r][c], sp_col_mean(m, c), sp_col_std(m, c)),
            ),
    )
}

/// Whether the standard deviation of every column is representable.
pub open spec fn all_stds_fit(m: Seq<Seq<int>>) -> bool {
    forall|c: int| 0 <= c < width(m) ==> fits(#[trigger] sp_col_std(m, c))
}

/// Whether every normalized entry is representable.
pub open spec fn all_norm_fit(m: Seq<Seq<int>>) -> bool {
    forall|r: int, c: int|
        0 <= r < m.len() && 0 <= c < width(m) ==> fits(#[trigger] sp_normalized(m)[r][c])
}

/// Index of the first zero-variance column at or after `c`, or the column
/// count when none is.
pub open spec fn first_degenerate_from(m: Seq<Seq<int>>, c: int) -> int
    decreases width(m) - c,
{
    if c < 0 || c >= width(m) {
        width(m)
    } else if sp_col_std(m, c) == 0 {
        c
    } else {
        first_degenerate_from(m, c + 1)
    }
}

/// A column normalized against mean `m` and standard deviation `sd`.
pub open spec fn sp_norm_col(s: Seq<int>, m: int, sd: int) -> Seq<int> {
    s.map_values(|x: int| sp_norm_entry(x, m, sd))
}

/// A column shifted by `m` and scaled up by `SCALE`: the exact numerators
/// of the z-score divisions.
spec fn sp_shift_scale(s: Seq<int>, m: int) -> Seq<int> {
    s.map_values(|x: int| (x - m) * (SCALE as int))
}

/// The exact numerators of a column sum to `(sum - n * m) * SCALE`.
proof fn lemma_sum_shift_scale(s: Seq<int>, m: int)
    ensures
        sum_int(sp_shift_scale(s, m)) == (sum_int(s) - s.len() * m) * (SCALE as int),
    decreases s.len(),
{
    if s.len() == 0 {
        assert(0int * m == 0) by (nonlinear_arith);
        assert((sum_int(s) - s.len() * m) * (SCALE as int) == 0) by (nonlinear_arith)
            requires
                sum_int(s) - s.len() * m == 0,
        ;
    } else {
        lemma_sum_shift_scale(s.drop_last(), m);
        assert(sp_shift_scale(s, m).drop_last() =~= sp_shift_scale(s.drop_last(), m));
        assert(sp_shift_scale(s, m).last() == (s.last() - m) * (SCALE as int));
        assert((sum_int(s.drop_last()) - (s.len() - 1) * m) * (SCALE as int) + (s.last() - m) * (
        SCALE as int) == (sum_int(s.drop_last()) + s.last() - s.len() * m) * (SCALE as int))
            by (nonlinear_arith);
    }
}

/// Dividing each exact numerator by `sd` loses less than `sd` per row: the
/// scaled sum of z-scores stays within `n * (sd - 1)` of the exact sum.
proof fn lemma_sum_norm_remainder(s: Seq<int>, m: int, sd: int)
    requires
        sd > 0,
    ensures
        iabs(sd * sum_int(sp_norm_col(s, m, sd)) - sum_int(sp_shift_scale(s, m))) <= s.len() * (sd
            - 1),
    decreases s.len(),
{
    if s.len() == 0 {
        assert(0int * (sd - 1) == 0) by (nonlinear_arith);
    } else {
        lemma_sum_norm_remainder(s.drop_last(), m, sd);
        assert(sp_norm_col(s, m, sd).drop_last() =~= sp_norm_col(s.drop_last(), m, sd));
        assert(sp_shift_scale(s, m).drop_last() =~= sp_shift_scale(s.drop_last(), m));
        let w = (s.last() - m) * (SCALE as int);
        let z = sp_norm_entry(s.last(), m, sd);
        assert(sp_norm_col(s, m, sd).last() == z);
        assert(sp_shift_scale(s, m).last() == w);
        crate::fixed::lemma_tdiv_remainder(w, sd);
        assert(iabs(z * sd - w) <= sd - 1);
        let za = sum_int(sp_norm_col(s.drop_last(), m, sd));
        let wa = sum_int(sp_shift_scale(s.drop_last(), m));
        assert(sd * (za + z) - (wa + w) == (sd * za - wa) + (z * sd - w)) by (nonlinear_arith);
        assert((s.len() - 1) * (sd - 1) + (sd - 1) == s.len() * (sd - 1)) by (nonlinear_arith);
    }
}

/// Normalized columns have mean near zero: against any positive standard
/// deviation `sd`, the z-scores of a column sum to at most
/// `n * (sd + SCALE) / sd` raw units in magnitude, so the mean of the
/// normalized values is at most `1/sd + 1/SCALE` in value terms.
pub proof fn lemma_normalized_column_mean_bound(s: Seq<int>, sd: int)
    requires
        s.len() > 0,
        sd > 0,
    ensures
        iabs(sd * sum_int(sp_norm_col(s, sp_mean(s), sd))) <= s.len() * (sd + SCALE as int),
{
    let n = s.len() as int;
    let m = sp_mean(s);
    crate::fixed::lemma_tdiv_remainder(sum_int(s), n);
    assert(iabs(m * n - sum_int(s)) <= n - 1);
    lemma_sum_shift_scale(s, m);
    let sumb = sum_int(sp_shift_scale(s, m));
    assert(iabs(sum_int(s) - n * m) <= n - 1) by {
        assert(m * n == n * m) by (nonlinear_arith);
    }
    assert(iabs(sumb) <= (n - 1) * (SCALE as int)) by (nonlinear_arith)
        requires
            sumb == (sum_int(s) - n * m) * (SCALE as int),
            iabs(sum_int(s) - n * m) <= n - 1,
            n >= 1,
            SCALE as int > 0,
    ;
    lemma_sum_norm_remainder(s, m, sd);
    let suma = sum_int(sp_norm_col(s, m, sd));
    assert(iabs(sd * suma) <= n * (sd - 1) + (n - 1) * (SCALE as int));
    assert(n * (sd - 1) + (n - 1) * (SCALE as int) <= n * (sd + SCALE as int))
        by (nonlinear_arith)
        requires
            n >= 1,
            SCALE as int > 0,
    ;
}

/// The columns of the fully normalized matrix are exactly the columns of
/// the input normalized against their own mean and standard deviation, so
/// each has mean near zero whenever its standard deviation is positive.
pub proof fn lemma_normalized_matrix_column_mean(m: Seq<Seq<int>>, c: int)
    requires
        is_rect(m),
        m.len() > 0,
        0 <= c < width(m),
        sp_col_std(m, c) > 0,
    ensures
        iabs(sp_col_std(m, c) * sum_int(colseq(sp_normalized(m), c))) <= m.len() * (sp_col_std(
            m,
            c,
        ) + SCALE as int),
{
    assert(colseq(sp_normalized(m), c) =~= sp_norm_col(
        colseq(m, c),
        sp_col_mean(m, c),
        sp_col_std(m, c),
    ));
    assert(sp_mean(colseq(m, c)) == sp_col_mean(m, c));
    lemma_normalized_column_mean_bound(colseq(m, c), sp_col_std(m, c));
}

/// The first zero-variance column at or after `c` lies between `c` and the
/// column count.
pub proof fn lemma_first_degenerate_range(m: Seq<Seq<int>>, c: int)
    requires
        0 <= c <= width(m),
    ensures
        c <= first_degenerate_from(m, c) <= width(m),
    decreases width(m) - c,
{
    if c < width(m) && sp_col_std(m, c) != 0 {
        lemma_first_degenerate_range(m, c + 1);
    }
}

/// Exec sum of column `c`, learning along the way that every entry of the
/// column is in range.
fn col_sum(features: &Vec<Vec<Fixed>>, c: usize) -> (s: i128)
    requires
        is_rect(mat_raws(features@)),
        (c as int) < width(mat_raws(features@)),
    ensures
        s as int == sum_int(colseq(mat_raws(features@), c as int)),
        all_fit(colseq(mat_raws(features@), c as int)),
{
    let ghost m = mat_raws(features@);
    let ghost col = colseq(m, c as int);
    let n = features.len();
    let mut acc: i128 = 0;
    proof {
        assert(col.take(0) =~= Seq::<int>::empty());
    }
    for r in 0..n
        invariant
            n == features.len(),
            m == mat_raws(features@),
            col == colseq(m, c as int),
            is_rect(m),
            (c as int) < width(m),
            acc as int == sum_int(col.take(r as int)),
            all_fit(col.take(r as int)),
    {
        let row = &features[r];
        proof {
            assert(m[r as int] == raws(features@[r as int]@));
            assert(m[r as int].len() == width(m));
        }
        let x = row[c];
        proof {
            use_type_invariant(&x);
            assert(col[r as int] == x@);
            lemma_sum_take_step(col, r as int);
            assert(all_fit(col.take(r + 1))) by {
                assert forall|j: int| 0 <= j < r + 1 implies fits(#[trigger] col.take(r + 1)[j]) by {
                    if j < r {
                        assert(fits(col.take(r as int)[j]));
                    }
                }
            }
            assert forall|j: int| 0 <= j < col.take(r + 1).len() implies iabs(#[trigger] col.take(
                r + 1,
            )[j]) <= FX_BOUND as int by {
                assert(fits(col.take(r + 1)[j]));
            }
            lemma_sum_within(col.take(r + 1), FX_BOUND as int, 0x1_0000_0000_0000_0000);
            assert(0x1_0000_0000_0000_0000int * (FX_BOUND as int) < i128::MAX as int);
        }
        acc = acc + x.raw();
    }
    proof {
        assert(col.take(n as int) =~= col);
    }
    acc
}

/// Exec sum of squared deviations of column `c` from `m0`.
fn col_sum_sq(features: &Vec<Vec<Fixed>>, c: usize, m0: Fixed) -> (s: i128)
    requires
        is_rect(mat_raws(features@)),
        (c as int) < width(mat_raws(features@)),
        features@.len() <= N_MAX,
    ensures
        s as int == sum_int(sp_sq_devs(colseq(mat_raws(features@), c as int), m0@)),
        s >= 0,
{
    let ghost m = mat_raws(features@);
    let ghost col = colseq(m, c as int);
    let ghost devs = sp_sq_devs(col, m0@);
    let n = features.len();
    let mut acc: i128 = 0;
    proof {
        use_type_invariant(&m0);
        assert(devs.take(0) =~= Seq::<int>::empty());
    }
    for r in 0..n
        invariant
            n == features.len(),
            m == mat_raws(features@),
            col == colseq(m, c as int),
            devs == sp_sq_devs(col, m0@),
            is_rect(m),
            (c as int) < width(m),
            n <= N_MAX,
            fits(m0@),
            acc as int == sum_int(devs.take(r as int)),
            acc >= 0,
            sq_bounded(devs.take(r as int)),
    {
        let row = &features[r];
        proof {
            assert(m[r as int] == raws(features@[r as int]@));
            assert(m[r as int].len() == width(m));
        }
        let x = row[c];
        proof {
            use_type_invariant(&x);
            assert(col[r as int] == x@);
        }
        let d: i128 = x.raw() - m0.raw();
        proof {
            lemma_sq_bound(d as int, 9_007_199_254_740_992int);
            assert(9_007_199_254_740_992int * 9_007_199_254_740_992int
                == 0x400000000000000000000000000int);
            assert(devs[r as int] == d as int * d as int);
            lemma_sum_take_step(devs, r as int);
            assert(sq_bounded(devs.take(r + 1))) by {
                assert forall|j: int| 0 <= j < r + 1 implies 0 <= #[trigger] devs.take(r + 1)[j]
                    <= 0x400000000000000000000000000int by {
                    if j < r {
                        assert(devs.take(r + 1)[j] == devs.take(r as int)[j]);
                        assert(0 <= devs.take(r as int)[j] <= 0x400000000000000000000000000int);
                    }
                }
            }
            assert forall|j: int| 0 <= j < devs.take(r + 1).len() implies iabs(
                #[trigger] devs.take(r + 1)[j],
            ) <= 0x400000000000000000000000000int by {
                assert(0 <= devs.take(r + 1)[j] <= 0x400000000000000000000000000int);
            }
            lemma_sum_within(devs.take(r + 1), 0x400000000000000000000000000int, N_MAX as int);
            assert((N_MAX as int) * 0x400000000000000000000000000int < i128::MAX as int);
        }
        acc = acc + d * d;
    }
    proof {
        assert(devs.take(n as int) =~= devs);
    }
    acc
}

/// Per-column truncated mean of a feature matrix; an empty matrix yields an
/// empty vector.
pub fn calculate_mean(features: &Vec<Vec<Fixed>>) -> (means: Vec<Fixed>)
    requires
        is_rect(mat_raws(features@)),
    ensures
        means@.len() == width(mat_raws(features@)),
        forall|c: int|
            0 <= c < width(mat_raws(features@)) ==> #[trigger] raws(means@)[c] == sp_col_mean(
                mat_raws(features@),
                c,
            ),
{
    let ghost m = mat_raws(features@);
    let n = features.len();
    let cols: usize = if n == 0 {
        0
    } else {
        features[0].len()
    };
    proof {
        if n > 0 {
            assert(m[0] == raws(features@[0]@));
        }
        assert(cols as int == width(m));
    }
    let mut means: Vec<Fixed> = Vec::new();
    for c in 0..cols
        invariant
            n == features.len(),
            m == mat_raws(features@),
            is_rect(m),
            cols as int == width(m),
            n > 0 || cols == 0,
            means@.len() == c,
            forall|j: int| 0 <= j < c ==> #[trigger] raws(means@)[j] == sp_col_mean(m, j),
    {
        let s: i128 = col_sum(features, c);
        let ghost col = colseq(m, c as int);
        proof {
            assert forall|j: int| 0 <= j < col.len() implies iabs(#[trigger] col[j])
                <= FX_BOUND as int by {
                assert(fits(col[j]));
            }
            lemma_sum_within(col, FX_BOUND as int, n as int);
            assert((n as int) * (FX_BOUND as int) == (FX_BOUND as int) * (n as int))
                by (nonlinear_arith);
            lemma_tdiv_bound(s as int, n as int, FX_BOUND as int);
        }
        let mr: i128 = tdiv_i128(s, n as i128);
        let mf = Fixed::from_raw_in_range(mr);
        let ghost pre = means@;
        means.push(mf);
        proof {
            assert forall|j: int| 0 <= j < c + 1 implies #[trigger] raws(means@)[j] == sp_col_mean(
                m,
                j,
            ) by {
                if j < c {
                    assert(means@[j] == pre[j]);
                    assert(raws(pre)[j] == sp_col_mean(m, j));
                }
            }
        }
    }
    means
}

/// Per-column population standard deviation around the supplied means; an
/// empty matrix yields an empty vector, and a deviation that leaves the
/// representable range reports `NumericOverflowError`.
pub fn calculate_std_dev(features: &Vec<Vec<Fixed>>, means: &Vec<Fixed>) -> (result: Result<
    Vec<Fixed>,
    RegressionError,
>)
    requires
        is_rect(mat_raws(features@)),
        means@.len() == width(mat_raws(features@)),
    ensures
        ({
            let m = mat_raws(features@);
            let w = width(m);
            &&& (result is Ok <==> (m.len() == 0 || (m.len() <= N_MAX && (forall|c: int|
                0 <= c < w ==> fits(#[trigger] sp_std(colseq(m, c), raws(means@)[c]))))))
            &&& (result matches Ok(stds) ==> {
                &&& stds@.len() == w
                &&& forall|c: int|
                    0 <= c < w ==> #[trigger] raws(stds@)[c] == sp_std(
                        colseq(m, c),
                        raws(means@)[c],
                    )
            })
            &&& (result is Err ==> result == Err::<Vec<Fixed>, RegressionError>(
                RegressionError::NumericOverflowError,
            ))
        }),
{
    let ghost m = mat_raws(features@);
    let n = features.len();
    if n == 0 {
        return Ok(Vec::new());
    }
    if n > N_MAX {
        return Err(RegressionError::NumericOverflowError);
    }
    let cols: usize = features[0].len();
    proof {
        assert(m[0] == raws(features@[0]@));
        assert(cols as int == width(m));
    }
    let mut stds: Vec<Fixed> = Vec::new();
    for c in 0..cols
        invariant
            n == features.len(),
            m == mat_raws(features@),
            is_rect(m),
            cols as int == width(m),
            0 < n <= N_MAX,
            means@.len() == width(m),
            stds@.len() == c,
            forall|j: int|
                0 <= j < c ==> #[trigger] raws(stds@)[j] == sp_std(colseq(m, j), raws(means@)[j]),
            forall|j: int| 0 <= j < c ==> fits(#[trigger] sp_std(colseq(m, j), raws(means@)[j])),
    {
        let m0 = means[c];
        proof {
            assert(raws(means@)[c as int] == m0@);
        }
        let ssq: i128 = col_sum_sq(features, c, m0);
        let vr: i128 = tdiv_i128(ssq, n as i128);
        proof {
            assert(vr >= 0);
        }
        let sr: i128 = isqrt_i128(vr);
        if sr > FX_BOUND {
            proof {
                assert(!fits(sp_std(colseq(m, c as int), raws(means@)[c as int])));
            }
            return Err(RegressionError::NumericOverflowError);
        }
        let ghost pre = stds@;
        stds.push(Fixed::from_raw_in_range(sr));
        proof {
            assert forall|j: int| 0 <= j < c + 1 implies #[trigger] raws(stds@)[j] == sp_std(
                colseq(m, j),
                raws(means@)[j],
            ) by {
                if j < c {
                    assert(stds@[j] == pre[j]);
                    assert(raws(pre)[j] == sp_std(colseq(m, j), raws(means@)[j]));
                }
            }
        }
    }
    Ok(stds)
}

/// Z-score-normalizes a feature matrix and returns the per-column statistics
/// alongside it.
///
/// An empty matrix yields empty outputs.  A zero-variance column is
/// reported as `DegenerateFeatureError` naming the first such column; a
/// dataset with more than [`N_MAX`] rows, a standard deviation or a
/// normalized entry outside the representable range is reported as
/// `NumericOverflowError`.
#[verifier::loop_isolation(false)]
pub fn normalize_features(features: &Vec<Vec<Fixed>>) -> (result: Result<
    (Vec<Vec<Fixed>>, NormalizationStats),
    RegressionError,
>)
    requires
        is_rect(mat_raws(features@)),
    ensures
        ({
            let m = mat_raws(features@);
            let w = width(m);
            let fd = first_degenerate_from(m, 0);
            &&& (result is Ok <==> (m.len() == 0 || (m.len() <= N_MAX && all_stds_fit(m) && fd
                == w && all_norm_fit(m))))
            &&& (result matches Ok(p) ==> {
                &&& p.0@.len() == m.len()
                &&& mat_raws(p.0@) == sp_normalized(m)
                &&& p.1.means@.len() == w
                &&& p.1.stds@.len() == w
                &&& (forall|c: int|
                    0 <= c < w ==> #[trigger] raws(p.1.means@)[c] == sp_col_mean(m, c))
                &&& (forall|c: int| 0 <= c < w ==> #[trigger] raws(p.1.stds@)[c] == sp_col_std(m, c))
            })
            &&& ((m.len() > 0 && (m.len() > N_MAX || !all_stds_fit(m))) ==> result == Err::<
                (Vec<Vec<Fixed>>, NormalizationStats),
                RegressionError,
            >(RegressionError::NumericOverflowError))
            &&& ((m.len() > 0 && m.len() <= N_MAX && all_stds_fit(m) && fd < w) ==> result == Err::<
                (Vec<Vec<Fixed>>, NormalizationStats),
                RegressionError,
            >(RegressionError::DegenerateFeatureError(fd as usize)))
            &&& ((m.len() > 0 && m.len() <= N_MAX && all_stds_fit(m) && fd == w && !all_norm_fit(m))
                ==> result == Err::<(Vec<Vec<Fixed>>, NormalizationStats), RegressionError>(
                RegressionError::NumericOverflowError,
            ))
        }),
{
    let ghost m = mat_raws(features@);
    let n = features.len();
    if n == 0 {
        let stats = NormalizationStats { means: Vec::new(), stds: Vec::new() };
        return Ok((Vec::new(), stats));
    }
    if n > N_MAX {
        return Err(RegressionError::NumericOverflowError);
    }
    let cols: usize = features[0].len();
    proof {
        assert(m[0] == raws(features@[0]@));
        assert(cols as int == width(m));
    }
    let means = calculate_mean(features);
    let stds = match calculate_std_dev(features, &means) {
        Ok(s) => s,
        Err(e) => {
            proof {
                let c0 = choose|c: int|
                    0 <= c < width(m) && !fits(sp_std(colseq(m, c), raws(means@)[c]));
                assert(raws(means@)[c0] == sp_col_mean(m, c0));
                assert(!fits(sp_col_std(m, c0)));
                assert(!all_stds_fit(m));
            }
            return Err(e);
        },
    };
    proof {
        assert forall|c: int| 0 <= c < width(m) implies fits(#[trigger] sp_col_std(m, c)) by {
            assert(raws(stds@)[c] == sp_std(colseq(m, c), raws(means@)[c]));
        }
    }
    for c in 0..cols
        invariant
            forall|j: int| 0 <= j < c ==> #[trigger] sp_col_std(m, j) != 0,
            first_degenerate_from(m, 0) == first_degenerate_from(m, c as int),
    {
        let sc = stds[c];
        proof {
            assert(raws(stds@)[c as int] == sc@);
        }
        if sc.raw() == 0 {
            proof {
                assert(sp_col_std(m, c as int) == 0);
                assert(first_degenerate_from(m, c as int) == c as int);
            }
            return Err(RegressionError::DegenerateFeatureError(c));
        }
        proof {
            assert(sp_col_std(m, c as int) != 0);
            assert(first_degenerate_from(m, c as int) == first_degenerate_from(m, c + 1));
        }
    }
    proof {
        assert(first_degenerate_from(m, cols as int) == width(m));
        assert(first_degenerate_from(m, 0) == width(m));
    }
    let mut out: Vec<Vec<Fixed>> = Vec::new();
    for r in 0..n
        invariant
            out@.len() == r,
            forall|i: int| 0 <= i < r ==> #[trigger] mat_raws(out@)[i] == sp_normalized(m)[i],
            forall|i: int, j: int|
                0 <= i < r && 0 <= j < cols ==> fits(#[trigger] sp_normalized(m)[i][j]),
    {
        let row = &features[r];
        proof {
            assert(m[r as int] == raws(features@[r as int]@));
            assert(m[r as int].len() == width(m));
        }
        let mut rowv: Vec<Fixed> = Vec::new();
        for c in 0..cols
            invariant
                r < n,
                m[r as int].len() == width(m),
                rowv@.len() == c,
                forall|j: int|
                    0 <= j < c ==> #[trigger] raws(rowv@)[j] == sp_normalized(m)[r as int][j],
                forall|j: int| 0 <= j < c ==> fits(#[trigger] sp_normalized(m)[r as int][j]),
        {
            let x = row[c];
            let mc = means[c];
            let sc = stds[c];
            proof {
                use_type_invariant(&x);
                use_type_invariant(&mc);
                use_type_invariant(&sc);
                assert(m[r as int][c as int] == x@);
                assert(raws(means@)[c as int] == mc@);
                assert(raws(stds@)[c as int] == sc@);
                assert(sp_col_std(m, c as int) != 0);
            }
            let d: i128 = x.raw() - mc.raw();
            let num: i128 = d * SCALE;
            let z: i128 = tdiv_i128(num, sc.raw());
            proof {
                assert(sp_normalized(m)[r as int][c as int] == sp_norm_entry(
                    m[r as int][c as int],
                    sp_col_mean(m, c as int),
                    sp_col_std(m, c as int),
                ));
                assert(z as int == sp_normalized(m)[r as int][c as int]);
            }
            if z < -FX_BOUND || z > FX_BOUND {
                proof {
                    assert(!fits(sp_normalized(m)[r as int][c as int]));
                    assert(!all_norm_fit(m));
                }
                return Err(RegressionError::NumericOverflowError);
            }
            let ghost pre = rowv@;
            rowv.push(Fixed::from_raw_in_range(z));
            proof {
                assert forall|j: int| 0 <= j < c + 1 implies #[trigger] raws(rowv@)[j]
                    == sp_normalized(m)[r as int][j] by {
                    if j < c {
                        assert(rowv@[j] == pre[j]);
                        assert(raws(pre)[j] == sp_normalized(m)[r as int][j]);
                    }
                }
            }
        }
        let ghost preout = out@;
        out.push(rowv);
        proof {
            assert(raws(rowv@) =~= sp_normalized(m)[r as int]);
            assert forall|i: int| 0 <= i < r + 1 implies #[trigger] mat_raws(out@)[i]
                == sp_normalized(m)[i] by {
                if i < r {
                    assert(out@[i] == preout[i]);
                    assert(mat_raws(preout)[i] == sp_normalized(m)[i]);
                }
            }
        }
    }
    proof {
        assert(mat_raws(out@) =~~= sp_normalized(m));
        assert(all_norm_fit(m));
    }
    let stats = NormalizationStats { means, stds };
    Ok((out, stats))
}

} // verus!
