//! Sequence views and summation.
//!
//! The contracts of this crate speak about matrices and vectors of
//! [`Fixed`] scalars through their raw integer values.  This module defines
//! those views ([`raws`], [`mat_raws`], [`colseq`]), the summation function
//! [`sum_int`] they are folded with, and the lemmas that bound such sums so
//! that machine arithmetic over them provably cannot overflow.

use crate::fixed::{fits, iabs, Fixed, FX_BOUND};
use vstd::prelude::*;

verus! {

/// The raw integer values of a sequence of scalars.
pub open spec fn raws(s: Seq<Fixed>) -> Seq<int> {
    s.map_values(|f: Fixed| f@)
}

/// The raw integer values of a matrix of scalars, row by row.
pub open spec fn mat_raws(m: Seq<Vec<Fixed>>) -> Seq<Seq<int>> {
    m.map_values(|row: Vec<Fixed>| raws(row@))
}

/// Number of columns of a matrix, read from its first row.
pub open spec fn width(m: Seq<Seq<int>>) -> int {
    if m.len() == 0 {
        0
    } else {
        m[0].len() as int
    }
}

/// Whether every row of the matrix has the same length.
pub open spec fn is_rect(m: Seq<Seq<int>>) -> bool {
    forall|i: int| 0 <= i < m.len() ==> (#[trigger] m[i]).len() == width(m)
}

/// Column `c` of a matrix, as a sequence of raw values.
pub open spec fn colseq(m: Seq<Seq<int>>, c: int) -> Seq<int> {
    Seq::new(m.len(), |i: int| m[i][c])
}

/// Whether every raw value of the sequence is in the representable range.
pub open spec fn all_fit(s: Seq<int>) -> bool {
    forall|i: int| 0 <= i < s.len() ==> fits(#[trigger] s[i])
}

/// Whether every element of a sequence of squared terms lies in
/// `[0, 2^106]`, the range that squares of differences of in-range raw
/// values occupy.
pub open spec fn sq_bounded(s: Seq<int>) -> bool {
    forall|j: int| 0 <= j < s.len() ==> 0 <= #[trigger] s[j] <= 0x400000000000000000000000000int
}

/// Sum of a sequence of integers.
pub open spec fn sum_int(s: Seq<int>) -> int
    decreases s.len(),
{
    if s.len() == 0 {
        0
    } else {
        sum_int(s.drop_last()) + s.last()
    }
}

/// Extending a prefix by one element adds that element to its sum.
pub proof fn lemma_sum_take_step(s: Seq<int>, i: int)
    requires
        0 <= i < s.len(),
    ensures
        sum_int(s.take(i + 1)) == sum_int(s.take(i)) + s[i],
{
    assert(s.take(i + 1).drop_last() =~= s.take(i));
    assert(s.take(i + 1).last() == s[i]);
}

/// A sequence of elements bounded by `b` in magnitude sums to at most
/// `len * b` in magnitude.
pub proof fn lemma_sum_bound(s: Seq<int>, b: int)
    requires
        b >= 0,
        forall|i: int| 0 <= i < s.len() ==> iabs(#[trigger] s[i]) <= b,
    ensures
        iabs(sum_int(s)) <= s.len() * b,
    decreases s.len(),
{
    if s.len() == 0 {
    } else {
        lemma_sum_bound(s.drop_last(), b);
        assert(iabs(s.last()) <= b);
        assert((s.len() - 1) * b + b == s.len() * b) by (nonlinear_arith);
    }
}

/// A sum of at most `n` in-range elements, with `n * b` inside `i128`,
/// stays inside `i128`.
pub proof fn lemma_sum_within(s: Seq<int>, b: int, n: int)
    requires
        b >= 0,
        0 <= s.len() <= n,
        forall|i: int| 0 <= i < s.len() ==> iabs(#[trigger] s[i]) <= b,
    ensures
        iabs(sum_int(s)) <= n * b,
{
    lemma_sum_bound(s, b);
    assert(s.len() * b <= n * b) by (nonlinear_arith)
        requires
            s.len() <= n,
            b >= 0,
    ;
}

/// A sum of non-negative elements is non-negative, and zero exactly when
/// every element is zero.
pub proof fn lemma_sum_nonneg_zero_iff(s: Seq<int>)
    requires
        forall|i: int| 0 <= i < s.len() ==> #[trigger] s[i] >= 0,
    ensures
        sum_int(s) >= 0,
        sum_int(s) == 0 <==> (forall|i: int| 0 <= i < s.len() ==> #[trigger] s[i] == 0),
    decreases s.len(),
{
    if s.len() == 0 {
    } else {
        lemma_sum_nonneg_zero_iff(s.drop_last());
        assert(s.last() >= 0);
        if sum_int(s) == 0 {
            assert(forall|i: int| 0 <= i < s.len() - 1 ==> #[trigger] s.drop_last()[i] == 0);
            assert forall|i: int| 0 <= i < s.len() implies #[trigger] s[i] == 0 by {
                if i < s.len() - 1 {
                    assert(s.drop_last()[i] == 0);
                }
            }
        }
        if forall|i: int| 0 <= i < s.len() ==> #[trigger] s[i] == 0 {
            assert(forall|i: int| 0 <= i < s.drop_last().len() ==> #[trigger] s.drop_last()[i]
                == 0);
        }
    }
}

/// If every element of a sequence of scalars equals a constant, the sum is
/// the constant times the length.
pub proof fn lemma_sum_constant(s: Seq<int>, c: int)
    requires
        forall|i: int| 0 <= i < s.len() ==> #[trigger] s[i] == c,
    ensures
        sum_int(s) == s.len() * c,
    decreases s.len(),
{
    if s.len() == 0 {
    } else {
        lemma_sum_constant(s.drop_last(), c);
        assert((s.len() - 1) * c + c == s.len() * c) by (nonlinear_arith);
    }
}

/// Exec sum of the raw values of a vector of scalars; the bounded range of
/// every scalar keeps the accumulator inside `i128`.
pub fn sum_raws(v: &Vec<Fixed>) -> (s: i128)
    ensures
        s as int == sum_int(raws(v@)),
        all_fit(raws(v@)),
{
    let ghost rs = raws(v@);
    let mut acc: i128 = 0;
    let n = v.len();
    proof {
        assert(rs.take(0) =~= Seq::<int>::empty());
    }
    for i in 0..n
        invariant
            n == v.len(),
            rs == raws(v@),
            acc as int == sum_int(rs.take(i as int)),
            all_fit(rs.take(i as int)),
    {
        let x = v[i];
        proof {
            use_type_invariant(&x);
            assert(rs[i as int] == x@);
            lemma_sum_take_step(rs, i as int);
            assert(all_fit(rs.take(i + 1))) by {
                assert forall|j: int| 0 <= j < i + 1 implies fits(#[trigger] rs.take(i + 1)[j]) by {
                    if j < i {
                        assert(fits(rs.take(i as int)[j]));
                    }
                }
            }
            assert forall|j: int| 0 <= j < rs.take(i + 1).len() implies iabs(#[trigger] rs.take(
                i + 1,
            )[j]) <= FX_BOUND as int by {
                assert(fits(rs.take(i + 1)[j]));
            }
            lemma_sum_within(rs.take(i + 1), FX_BOUND as int, 0x1_0000_0000_0000_0000);
            assert(0x1_0000_0000_0000_0000int * (FX_BOUND as int) < i128::MAX as int);
        }
        acc = acc + x.raw();
    }
    proof {
        assert(rs.take(n as int) =~= rs);
    }
    acc
}

} // verus!
