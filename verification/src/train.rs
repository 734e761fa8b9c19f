//! Batch gradient-descent training of a linear model.
//!
//! Weights and bias start at zero and are updated once per epoch from the
//! full dataset's average gradient; the half mean squared error of each
//! epoch is recorded in order.  The whole run is pinned to the
//! specification function [`sp_run`]: training is total and deterministic,
//! and an intermediate value leaving the representable fixed-point range is
//! reported as `NumericOverflowError` exactly when [`sp_run`] has no value.

use crate::error::RegressionError;
use crate::fixed::{
    fits, iabs, lemma_tdiv_bound, opt_view, sp_add, sp_mul, sp_sub, tdiv, tdiv_i128, Fixed,
    FX_BOUND,
};
use crate::seqs::{is_rect, mat_raws, raws, sum_int, sum_raws, width};
use vstd::prelude::*;

verus! {

/// The trained model: one weight per feature plus a bias.
#[derive(Debug, Clone)]
pub struct Parameters {
    pub weights: Vec<Fixed>,
    pub bias: Fixed,
}

/// Prediction of one row from column `k` on, with accumulator `acc`:
/// `acc + sum_c(w[c] * row[c])`, each step range-checked.
pub open spec fn sp_row_pred_from(row: Seq<int>, w: Seq<int>, k: int, acc: int) -> Option<int>
    recommends
        row.len() == w.len(),
    decreases row.len() - k,
{
    if k < 0 || k >= row.len() {
        Some(acc)
    } else {
        match sp_mul(w[k], row[k]) {
            None => None,
            Some(p) => match sp_add(acc, p) {
                None => None,
                Some(a) => sp_row_pred_from(row, w, k + 1, a),
            },
        }
    }
}

/// Predictions of the rows from `k` on, appended to `acc`.
pub open spec fn sp_preds_from(
    x: Seq<Seq<int>>,
    w: Seq<int>,
    b: int,
    k: int,
    acc: Seq<int>,
) -> Option<Seq<int>>
    decreases x.len() - k,
{
    if k < 0 || k >= x.len() {
        Some(acc)
    } else {
        match sp_row_pred_from(x[k], w, 0, b) {
            None => None,
            Some(p) => sp_preds_from(x, w, b, k + 1, acc.push(p)),
        }
    }
}

/// Residuals `p[i] - y[i]` from `k` on, appended to `acc`.
pub open spec fn sp_errs_from(p: Seq<int>, y: Seq<int>, k: int, acc: Seq<int>) -> Option<Seq<int>>
    recommends
        p.len() == y.len(),
    decreases p.len() - k,
{
    if k < 0 || k >= p.len() {
        Some(acc)
    } else {
        match sp_sub(p[k], y[k]) {
            None => None,
            Some(e) => sp_errs_from(p, y, k + 1, acc.push(e)),
        }
    }
}

/// Range-checked sum of `es[i] * x[i][c]` from row `k` on.
pub open spec fn sp_col_prod_sum_from(
    x: Seq<Seq<int>>,
    es: Seq<int>,
    c: int,
    k: int,
    acc: int,
) -> Option<int>
    recommends
        es.len() == x.len(),
    decreases x.len() - k,
{
    if k < 0 || k >= x.len() {
        Some(acc)
    } else {
        match sp_mul(es[k], x[k][c]) {
            None => None,
            Some(p) => sp_col_prod_sum_from(x, es, c, k + 1, acc + p),
        }
    }
}

/// Range-checked sum of squared residuals in fixed-point units, from `k` on.
pub open spec fn sp_sq_sum_from(es: Seq<int>, k: int, acc: int) -> Option<int>
    decreases es.len() - k,
{
    if k < 0 || k >= es.len() {
        Some(acc)
    } else {
        match sp_mul(es[k], es[k]) {
            None => None,
            Some(p) => sp_sq_sum_from(es, k + 1, acc + p),
        }
    }
}

/// The updated weight of column `c`: `w_c - lr * mean(es[i] * x[i][c])`.
pub open spec fn sp_new_weight(
    x: Seq<Seq<int>>,
    es: Seq<int>,
    w_c: int,
    lr: int,
    c: int,
) -> Option<int> {
    match sp_col_prod_sum_from(x, es, c, 0, 0) {
        None => None,
        Some(s) => {
            let g = tdiv(s, x.len() as int);
            match sp_mul(lr, g) {
                None => None,
                Some(st) => sp_sub(w_c, st),
            }
        },
    }
}

/// The updated weights of the columns from `c` on, appended to `acc`.
pub open spec fn sp_new_weights_from(
    x: Seq<Seq<int>>,
    es: Seq<int>,
    w: Seq<int>,
    lr: int,
    c: int,
    acc: Seq<int>,
) -> Option<Seq<int>>
    decreases w.len() - c,
{
    if c < 0 || c >= w.len() {
        Some(acc)
    } else {
        match sp_new_weight(x, es, w[c], lr, c) {
            None => None,
            Some(v) => sp_new_weights_from(x, es, w, lr, c + 1, acc.push(v)),
        }
    }
}

/// The updated bias: `b - lr * mean(es)`.
pub open spec fn sp_new_bias(es: Seq<int>, b: int, lr: int, n: int) -> Option<int>
    recommends
        n > 0,
{
    let db = tdiv(sum_int(es), n);
    match sp_mul(lr, db) {
        None => None,
        Some(st) => sp_sub(b, st),
    }
}

/// The loss recorded for an epoch: half the mean squared residual.
pub open spec fn sp_loss(es: Seq<int>, n: int) -> Option<int>
    recommends
        n > 0,
{
    match sp_sq_sum_from(es, 0, 0) {
        None => None,
        Some(s) => Some(tdiv(s, 2 * n)),
    }
}

/// One epoch: predictions, residuals, then the updated weights, bias and
/// the recorded loss.
pub open spec fn sp_epoch(x: Seq<Seq<int>>, y: Seq<int>, w: Seq<int>, b: int, lr: int) -> Option<
    (Seq<int>, int, int),
>
    recommends
        x.len() == y.len(),
        x.len() > 0,
{
    match sp_preds_from(x, w, b, 0, Seq::empty()) {
        None => None,
        Some(ps) => match sp_errs_from(ps, y, 0, Seq::empty()) {
            None => None,
            Some(es) => match sp_new_weights_from(x, es, w, lr, 0, Seq::empty()) {
                None => None,
                Some(nw) => match sp_new_bias(es, b, lr, x.len() as int) {
                    None => None,
                    Some(nb) => match sp_loss(es, x.len() as int) {
                        None => None,
                        Some(l) => Some((nw, nb, l)),
                    },
                },
            },
        },
    }
}

/// The weight vector before the first epoch: one zero per column.
pub open spec fn sp_zero_weights(d: nat) -> Seq<int> {
    Seq::new(d, |i: int| 0int)
}

/// The state after `e` epochs of training from zero-initialized parameters:
/// final weights, final bias, and the per-epoch losses in order.
pub open spec fn sp_run(x: Seq<Seq<int>>, y: Seq<int>, lr: int, e: nat) -> Option<
    (Seq<int>, int, Seq<int>),
>
    recommends
        x.len() == y.len(),
        x.len() > 0,
    decreases e,
{
    if e == 0 {
        Some((sp_zero_weights(width(x) as nat), 0, Seq::empty()))
    } else {
        match sp_run(x, y, lr, (e - 1) as nat) {
            None => None,
            Some(st) => match sp_epoch(x, y, st.0, st.1, lr) {
                None => None,
                Some(ep) => Some((ep.0, ep.1, st.2.push(ep.2))),
            },
        }
    }
}

/// A run that fails after `e1` epochs also fails for any larger epoch
/// count.
pub proof fn lemma_sp_run_none_mono(x: Seq<Seq<int>>, y: Seq<int>, lr: int, e1: nat, e2: nat)
    requires
        sp_run(x, y, lr, e1) is None,
        e1 <= e2,
    ensures
        sp_run(x, y, lr, e2) is None,
    decreases e2 - e1,
{
    if e1 < e2 {
        lemma_sp_run_none_mono(x, y, lr, e1, (e2 - 1) as nat);
    }
}

/// Training is deterministic: the result of a run is a function of the
/// dataset, the learning rate and the epoch count alone, so any two results
/// of the same run coincide.
pub proof fn lemma_train_deterministic(
    x: Seq<Seq<int>>,
    y: Seq<int>,
    lr: int,
    e: nat,
    w1: Seq<int>,
    b1: int,
    l1: Seq<int>,
    w2: Seq<int>,
    b2: int,
    l2: Seq<int>,
)
    requires
        sp_run(x, y, lr, e) == Some((w1, b1, l1)),
        sp_run(x, y, lr, e) == Some((w2, b2, l2)),
    ensures
        w1 == w2,
        b1 == b2,
        l1 == l2,
{
}

/// Exec prediction of one row: `b + sum_c(w[c] * row[c])`.
#[verifier::loop_isolation(false)]
fn row_pred(row: &Vec<Fixed>, w: &Vec<Fixed>, b: Fixed) -> (r: Option<Fixed>)
    requires
        row@.len() == w@.len(),
    ensures
        opt_view(r) == sp_row_pred_from(raws(row@), raws(w@), 0, b@),
{
    let ghost rs = raws(row@);
    let ghost ws = raws(w@);
    let n = row.len();
    let mut acc = b;
    for k in 0..n
        invariant
            n == row@.len() == w@.len(),
            rs == raws(row@),
            ws == raws(w@),
            sp_row_pred_from(rs, ws, 0, b@) == sp_row_pred_from(rs, ws, k as int, acc@),
    {
        proof {
            assert(ws[k as int] == w@[k as int]@);
            assert(rs[k as int] == row@[k as int]@);
        }
        let p = match w[k].checked_mul(row[k]) {
            Some(p) => p,
            None => {
                return None;
            },
        };
        acc = match acc.checked_add(p) {
            Some(a) => a,
            None => {
                return None;
            },
        };
    }
    Some(acc)
}

/// Exec predictions of every row under the given weights and bias.
#[verifier::loop_isolation(false)]
fn compute_preds(x: &Vec<Vec<Fixed>>, w: &Vec<Fixed>, b: Fixed) -> (r: Option<Vec<Fixed>>)
    requires
        is_rect(mat_raws(x@)),
        w@.len() == width(mat_raws(x@)),
    ensures
        ({
            let full = sp_preds_from(mat_raws(x@), raws(w@), b@, 0, Seq::empty());
            &&& (r is Some <==> full is Some)
            &&& (r matches Some(v) ==> {
                &&& Some(raws(v@)) == full
                &&& v@.len() == x@.len()
            })
        }),
{
    let ghost m = mat_raws(x@);
    let ghost ws = raws(w@);
    let n = x.len();
    let mut out: Vec<Fixed> = Vec::new();
    proof {
        assert(raws(out@) =~= Seq::<int>::empty());
    }
    for k in 0..n
        invariant
            n == x@.len(),
            m == mat_raws(x@),
            ws == raws(w@),
            is_rect(m),
            w@.len() == width(m),
            out@.len() == k,
            sp_preds_from(m, ws, b@, 0, Seq::empty()) == sp_preds_from(m, ws, b@, k as int, raws(out@)),
    {
        let row = &x[k];
        proof {
            assert(m[k as int] == raws(x@[k as int]@));
            assert(m[k as int].len() == width(m));
        }
        let p = match row_pred(row, w, b) {
            Some(p) => p,
            None => {
                return None;
            },
        };
        let ghost pre = raws(out@);
        out.push(p);
        proof {
            assert(raws(out@) =~= pre.push(p@));
        }
    }
    Some(out)
}

/// Exec residuals `preds[i] - y[i]`.
#[verifier::loop_isolation(false)]
fn compute_errs(preds: &Vec<Fixed>, y: &Vec<Fixed>) -> (r: Option<Vec<Fixed>>)
    requires
        preds@.len() == y@.len(),
    ensures
        ({
            let full = sp_errs_from(raws(preds@), raws(y@), 0, Seq::empty());
            &&& (r is Some <==> full is Some)
            &&& (r matches Some(v) ==> {
                &&& Some(raws(v@)) == full
                &&& v@.len() == preds@.len()
            })
        }),
{
    let ghost ps = raws(preds@);
    let ghost ys = raws(y@);
    let n = preds.len();
    let mut out: Vec<Fixed> = Vec::new();
    proof {
        assert(raws(out@) =~= Seq::<int>::empty());
    }
    for k in 0..n
        invariant
            n == preds@.len() == y@.len(),
            ps == raws(preds@),
            ys == raws(y@),
            out@.len() == k,
            sp_errs_from(ps, ys, 0, Seq::empty()) == sp_errs_from(ps, ys, k as int, raws(out@)),
    {
        proof {
            assert(ps[k as int] == preds@[k as int]@);
            assert(ys[k as int] == y@[k as int]@);
        }
        let e = match preds[k].checked_sub(y[k]) {
            Some(e) => e,
            None => {
                return None;
            },
        };
        let ghost pre = raws(out@);
        out.push(e);
        proof {
            assert(raws(out@) =~= pre.push(e@));
        }
    }
    Some(out)
}

/// Exec range-checked sum of `es[i] * x[i][c]` over all rows.
#[verifier::loop_isolation(false)]
fn col_prod_sum(x: &Vec<Vec<Fixed>>, es: &Vec<Fixed>, c: usize) -> (r: Option<i128>)
    requires
        is_rect(mat_raws(x@)),
        (c as int) < width(mat_raws(x@)),
        es@.len() == x@.len(),
    ensures
        ({
            let full = sp_col_prod_sum_from(mat_raws(x@), raws(es@), c as int, 0, 0);
            &&& (r is Some <==> full is Some)
            &&& (r matches Some(s) ==> Some(s as int) == full)
        }),
{
    let ghost m = mat_raws(x@);
    let ghost e = raws(es@);
    let n = x.len();
    let mut acc: i128 = 0;
    for k in 0..n
        invariant
            n == x@.len() == es@.len(),
            m == mat_raws(x@),
            e == raws(es@),
            is_rect(m),
            (c as int) < width(m),
            sp_col_prod_sum_from(m, e, c as int, 0, 0) == sp_col_prod_sum_from(
                m,
                e,
                c as int,
                k as int,
                acc as int,
            ),
            iabs(acc as int) <= (k as int) * (FX_BOUND as int),
    {
        let row = &x[k];
        proof {
            assert(m[k as int] == raws(x@[k as int]@));
            assert(m[k as int].len() == width(m));
            assert(e[k as int] == es@[k as int]@);
            assert(m[k as int][c as int] == row@[c as int]@);
        }
        let p = match es[k].checked_mul(row[c]) {
            Some(p) => p,
            None => {
                return None;
            },
        };
        proof {
            use_type_invariant(&p);
            assert((k as int) * (FX_BOUND as int) + (FX_BOUND as int) == ((k as int) + 1) * (
            FX_BOUND as int)) by (nonlinear_arith);
            assert(((k as int) + 1) * (FX_BOUND as int) <= 0x1_0000_0000_0000_0000int * (
            FX_BOUND as int)) by (nonlinear_arith)
                requires
                    (k as int) + 1 <= 0x1_0000_0000_0000_0000int,
            ;
            assert(0x1_0000_0000_0000_0000int * (FX_BOUND as int) < i128::MAX as int);
        }
        acc = acc + p.raw();
    }
    Some(acc)
}

/// Exec range-checked sum of squared residuals, in fixed-point units.
#[verifier::loop_isolation(false)]
fn sq_sum(es: &Vec<Fixed>) -> (r: Option<i128>)
    ensures
        ({
            let full = sp_sq_sum_from(raws(es@), 0, 0);
            &&& (r is Some <==> full is Some)
            &&& (r matches Some(s) ==> Some(s as int) == full && s >= 0)
        }),
{
    let ghost e = raws(es@);
    let n = es.len();
    let mut acc: i128 = 0;
    for k in 0..n
        invariant
            n == es@.len(),
            e == raws(es@),
            sp_sq_sum_from(e, 0, 0) == sp_sq_sum_from(e, k as int, acc as int),
            0 <= acc as int <= (k as int) * (FX_BOUND as int),
    {
        proof {
            assert(e[k as int] == es@[k as int]@);
        }
        let x = es[k];
        let p = match x.checked_mul(x) {
            Some(p) => p,
            None => {
                return None;
            },
        };
        proof {
            use_type_invariant(&p);
            assert(p@ >= 0) by {
                assert(x@ * x@ >= 0) by (nonlinear_arith);
                crate::fixed::lemma_tdiv_nonneg(x@ * x@, crate::fixed::SCALE as int);
            }
            assert((k as int) * (FX_BOUND as int) + (FX_BOUND as int) == ((k as int) + 1) * (
            FX_BOUND as int)) by (nonlinear_arith);
            assert(((k as int) + 1) * (FX_BOUND as int) <= 0x1_0000_0000_0000_0000int * (
            FX_BOUND as int)) by (nonlinear_arith)
                requires
                    (k as int) + 1 <= 0x1_0000_0000_0000_0000int,
            ;
            assert(0x1_0000_0000_0000_0000int * (FX_BOUND as int) < i128::MAX as int);
        }
        acc = acc + p.raw();
    }
    Some(acc)
}

/// Exec single epoch: returns the new weights, new bias and the epoch's
/// loss, or reports that some intermediate value left the representable
/// range.
#[verifier::loop_isolation(false)]
fn run_epoch(x: &Vec<Vec<Fixed>>, y: &Vec<Fixed>, w: &Vec<Fixed>, b: Fixed, lr: Fixed) -> (r:
    Result<(Vec<Fixed>, Fixed, Fixed), RegressionError>)
    requires
        is_rect(mat_raws(x@)),
        x@.len() == y@.len(),
        x@.len() > 0,
        w@.len() == width(mat_raws(x@)),
    ensures
        ({
            let full = sp_epoch(mat_raws(x@), raws(y@), raws(w@), b@, lr@);
            &&& (r is Ok <==> full is Some)
            &&& (r matches Ok(t) ==> {
                &&& Some((raws(t.0@), t.1@, t.2@)) == full
                &&& t.0@.len() == w@.len()
            })
            &&& (r is Err ==> r == Err::<(Vec<Fixed>, Fixed, Fixed), RegressionError>(
                RegressionError::NumericOverflowError,
            ))
        }),
{
    let ghost m = mat_raws(x@);
    let ghost ys = raws(y@);
    let ghost ws = raws(w@);
    let n = x.len();
    let preds = match compute_preds(x, w, b) {
        Some(p) => p,
        None => {
            return Err(RegressionError::NumericOverflowError);
        },
    };
    let errs = match compute_errs(&preds, y) {
        Some(e) => e,
        None => {
            return Err(RegressionError::NumericOverflowError);
        },
    };
    let ghost es = raws(errs@);
    let cols = w.len();
    let mut nw: Vec<Fixed> = Vec::new();
    proof {
        assert(raws(nw@) =~= Seq::<int>::empty());
    }
    for c in 0..cols
        invariant
            n == x@.len() == y@.len() == errs@.len(),
            cols == w@.len(),
            m == mat_raws(x@),
            ys == raws(y@),
            ws == raws(w@),
            es == raws(errs@),
            is_rect(m),
            w@.len() == width(m),
            n > 0,
            nw@.len() == c,
            sp_new_weights_from(m, es, ws, lr@, 0, Seq::empty()) == sp_new_weights_from(
                m,
                es,
                ws,
                lr@,
                c as int,
                raws(nw@),
            ),
    {
        proof {
            assert(ws[c as int] == w@[c as int]@);
        }
        let s = match col_prod_sum(x, &errs, c) {
            Some(s) => s,
            None => {
                return Err(RegressionError::NumericOverflowError);
            },
        };
        proof {
            lemma_col_prod_sum_bound(m, es, c as int, 0, 0);
            assert((n as int) * (FX_BOUND as int) == (FX_BOUND as int) * (n as int))
                by (nonlinear_arith);
            lemma_tdiv_bound(s as int, n as int, FX_BOUND as int);
        }
        let g: i128 = tdiv_i128(s, n as i128);
        let gf = Fixed::from_raw_in_range(g);
        let st = match lr.checked_mul(gf) {
            Some(st) => st,
            None => {
                return Err(RegressionError::NumericOverflowError);
            },
        };
        let v = match w[c].checked_sub(st) {
            Some(v) => v,
            None => {
                return Err(RegressionError::NumericOverflowError);
            },
        };
        let ghost pre = raws(nw@);
        nw.push(v);
        proof {
            assert(raws(nw@) =~= pre.push(v@));
        }
    }
    let se: i128 = sum_raws(&errs);
    proof {
        assert forall|j: int| 0 <= j < es.len() implies iabs(#[trigger] es[j])
            <= FX_BOUND as int by {
            assert(fits(es[j]));
        }
        crate::seqs::lemma_sum_within(es, FX_BOUND as int, n as int);
        assert((n as int) * (FX_BOUND as int) == (FX_BOUND as int) * (n as int))
            by (nonlinear_arith);
        lemma_tdiv_bound(se as int, n as int, FX_BOUND as int);
    }
    let db: i128 = tdiv_i128(se, n as i128);
    let dbf = Fixed::from_raw_in_range(db);
    let bst = match lr.checked_mul(dbf) {
        Some(st) => st,
        None => {
            return Err(RegressionError::NumericOverflowError);
        },
    };
    let nb = match b.checked_sub(bst) {
        Some(v) => v,
        None => {
            return Err(RegressionError::NumericOverflowError);
        },
    };
    let sq = match sq_sum(&errs) {
        Some(s) => s,
        None => {
            return Err(RegressionError::NumericOverflowError);
        },
    };
    proof {
        lemma_sq_sum_bound(es, 0, 0);
        assert(iabs(sq as int) <= (n as int) * (FX_BOUND as int));
        assert((n as int) * (FX_BOUND as int) <= (FX_BOUND as int) * (2 * (n as int)))
            by (nonlinear_arith)
            requires
                n as int > 0,
        ;
        lemma_tdiv_bound(sq as int, 2 * (n as int), FX_BOUND as int);
    }
    let l: i128 = tdiv_i128(sq, 2 * (n as i128));
    let lf = Fixed::from_raw_in_range(l);
    Ok((nw, nb, lf))
}

/// A range-checked product sum stays within `len * FX_BOUND` of its
/// starting accumulator.
proof fn lemma_col_prod_sum_bound(x: Seq<Seq<int>>, es: Seq<int>, c: int, k: int, acc: int)
    requires
        0 <= k <= x.len(),
        sp_col_prod_sum_from(x, es, c, k, acc) is Some,
    ensures
        iabs(sp_col_prod_sum_from(x, es, c, k, acc).unwrap() - acc) <= (x.len() - k) * (
        FX_BOUND as int),
    decreases x.len() - k,
{
    if k < x.len() {
        let p = sp_mul(es[k], x[k][c]).unwrap();
        lemma_col_prod_sum_bound(x, es, c, k + 1, acc + p);
        assert((x.len() - k - 1) * (FX_BOUND as int) + (FX_BOUND as int) == (x.len() - k) * (
        FX_BOUND as int)) by (nonlinear_arith);
    }
}

/// A range-checked square sum stays within `len * FX_BOUND` of its
/// starting accumulator.
proof fn lemma_sq_sum_bound(es: Seq<int>, k: int, acc: int)
    requires
        0 <= k <= es.len(),
        sp_sq_sum_from(es, k, acc) is Some,
    ensures
        iabs(sp_sq_sum_from(es, k, acc).unwrap() - acc) <= (es.len() - k) * (FX_BOUND as int),
    decreases es.len() - k,
{
    if k < es.len() {
        let p = sp_mul(es[k], es[k]).unwrap();
        lemma_sq_sum_bound(es, k + 1, acc + p);
        assert((es.len() - k - 1) * (FX_BOUND as int) + (FX_BOUND as int) == (es.len() - k) * (
        FX_BOUND as int)) by (nonlinear_arith);
    }
}

/// Predictions of every row of a feature matrix under trained parameters.
///
/// Fails with `NumericOverflowError` exactly when some prediction leaves
/// the representable range.
pub fn predict(x: &Vec<Vec<Fixed>>, params: &Parameters) -> (result: Result<
    Vec<Fixed>,
    RegressionError,
>)
    requires
        is_rect(mat_raws(x@)),
        params.weights@.len() == width(mat_raws(x@)),
    ensures
        ({
            let full = sp_preds_from(
                mat_raws(x@),
                raws(params.weights@),
                params.bias@,
                0,
                Seq::empty(),
            );
            &&& (result is Ok <==> full is Some)
            &&& (result matches Ok(v) ==> Some(raws(v@)) == full && v@.len() == x@.len())
            &&& (result is Err ==> result == Err::<Vec<Fixed>, RegressionError>(
                RegressionError::NumericOverflowError,
            ))
        }),
{
    match compute_preds(x, &params.weights, params.bias) {
        Some(v) => Ok(v),
        None => Err(RegressionError::NumericOverflowError),
    }
}

/// Trains a linear model by batch gradient descent for exactly `epochs`
/// epochs, starting from zero weights and bias, and returns the final
/// parameters together with the per-epoch loss history.
///
/// An empty dataset is rejected as `EmptyDatasetError`; an intermediate
/// value leaving the representable range is reported as
/// `NumericOverflowError`, exactly when [`sp_run`] has no value.
#[verifier::loop_isolation(false)]
pub fn train(x: &Vec<Vec<Fixed>>, y: &Vec<Fixed>, learning_rate: Fixed, epochs: usize) -> (result:
    Result<(Parameters, Vec<Fixed>), RegressionError>)
    requires
        is_rect(mat_raws(x@)),
        x@.len() == y@.len(),
        learning_rate@ > 0,
    ensures
        ({
            let m = mat_raws(x@);
            let t = raws(y@);
            &&& (result is Ok <==> (m.len() > 0 && sp_run(m, t, learning_rate@, epochs as nat)
                is Some))
            &&& (result matches Ok(pl) ==> {
                &&& sp_run(m, t, learning_rate@, epochs as nat) == Some(
                    (raws(pl.0.weights@), pl.0.bias@, raws(pl.1@)),
                )
                &&& pl.1@.len() == epochs
                &&& pl.0.weights@.len() == width(m)
            })
            &&& (m.len() == 0 ==> result == Err::<(Parameters, Vec<Fixed>), RegressionError>(
                RegressionError::EmptyDatasetError,
            ))
            &&& ((m.len() > 0 && sp_run(m, t, learning_rate@, epochs as nat) is None) ==> result
                == Err::<(Parameters, Vec<Fixed>), RegressionError>(
                RegressionError::NumericOverflowError,
            ))
        }),
{
    let ghost m = mat_raws(x@);
    let ghost t = raws(y@);
    let n = x.len();
    if n == 0 {
        return Err(RegressionError::EmptyDatasetError);
    }
    let cols: usize = x[0].len();
    proof {
        assert(m[0] == raws(x@[0]@));
        assert(cols as int == width(m));
    }
    let mut w: Vec<Fixed> = Vec::new();
    for c in 0..cols
        invariant
            w@.len() == c,
            forall|j: int| 0 <= j < c ==> #[trigger] raws(w@)[j] == 0,
    {
        let ghost pre = w@;
        w.push(Fixed::zero());
        proof {
            assert forall|j: int| 0 <= j < c + 1 implies #[trigger] raws(w@)[j] == 0 by {
                if j < c {
                    assert(w@[j] == pre[j]);
                    assert(raws(pre)[j] == 0);
                }
            }
        }
    }
    proof {
        assert(raws(w@) =~= sp_zero_weights(width(m) as nat));
    }
    let mut b = Fixed::zero();
    let mut losses: Vec<Fixed> = Vec::new();
    proof {
        assert(raws(losses@) =~= Seq::<int>::empty());
    }
    for e in 0..epochs
        invariant
            n == x@.len() == y@.len(),
            m == mat_raws(x@),
            t == raws(y@),
            is_rect(m),
            n > 0,
            cols as int == width(m),
            w@.len() == cols,
            losses@.len() == e,
            sp_run(m, t, learning_rate@, e as nat) == Some((raws(w@), b@, raws(losses@))),
    {
        let (nw, nb, l) = match run_epoch(x, y, &w, b, learning_rate) {
            Ok(r) => r,
            Err(_) => {
                proof {
                    assert(sp_run(m, t, learning_rate@, (e + 1) as nat) is None);
                    lemma_sp_run_none_mono(m, t, learning_rate@, (e + 1) as nat, epochs as nat);
                }
                return Err(RegressionError::NumericOverflowError);
            },
        };
        let ghost prelosses = raws(losses@);
        w = nw;
        b = nb;
        losses.push(l);
        proof {
            assert(raws(losses@) =~= prelosses.push(l@));
            assert(sp_run(m, t, learning_rate@, (e + 1) as nat) == Some(
                (raws(w@), b@, raws(losses@)),
            ));
        }
    }
    let params = Parameters { weights: w, bias: b };
    Ok((params, losses))
}

} // verus!
