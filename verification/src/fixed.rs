//! Bounded fixed-point scalars.
//!
//! A [`Fixed`] holds a numeric value as an integer count of `1 / SCALE`
//! units.  Every value is kept inside `[-FX_BOUND, FX_BOUND]` by a type
//! invariant, so sums and products over whole datasets provably stay inside
//! `i128`.  Arithmetic truncates toward zero, exactly as the specification
//! functions [`sp_add`], [`sp_sub`], [`sp_mul`] and [`sp_div`] state; an
//! operation whose result would leave the representable range reports `None`
//! instead of wrapping or panicking.

use vstd::arithmetic::div_mod::{
    lemma_div_is_ordered, lemma_div_multiples_vanish, lemma_div_nonincreasing,
    lemma_div_pos_is_pos, lemma_fundamental_div_mod, lemma_mod_bound,
};
use vstd::prelude::*;

verus! {

/// Number of raw units per 1.0 of value.
pub const SCALE: i128 = 1_000_000;

/// Largest raw magnitude a [`Fixed`] may hold (2^52 raw units).
pub const FX_BOUND: i128 = 4_503_599_627_370_496;

/// Magnitude of an integer.
pub open spec fn iabs(x: int) -> int {
    if x < 0 {
        -x
    } else {
        x
    }
}

/// Division truncating toward zero, the rounding used by all fixed-point
/// arithmetic in this crate.
pub open spec fn tdiv(n: int, d: int) -> int
    recommends
        d != 0,
{
    if (n < 0) == (d < 0) {
        iabs(n) / iabs(d)
    } else {
        -(iabs(n) / iabs(d))
    }
}

/// Whether a raw value lies in the representable fixed-point range.
pub open spec fn fits(x: int) -> bool {
    -(FX_BOUND as int) <= x <= FX_BOUND as int
}

/// Raw result of adding two raw values, `None` when out of range.
pub open spec fn sp_add(a: int, b: int) -> Option<int> {
    if fits(a + b) {
        Some(a + b)
    } else {
        None
    }
}

/// Raw result of subtracting two raw values, `None` when out of range.
pub open spec fn sp_sub(a: int, b: int) -> Option<int> {
    if fits(a - b) {
        Some(a - b)
    } else {
        None
    }
}

/// Raw result of the fixed-point product, `None` when out of range.
pub open spec fn sp_mul(a: int, b: int) -> Option<int> {
    let r = tdiv(a * b, SCALE as int);
    if fits(r) {
        Some(r)
    } else {
        None
    }
}

/// Raw result of the fixed-point quotient, `None` on division by zero or
/// when out of range.
pub open spec fn sp_div(a: int, b: int) -> Option<int> {
    if b == 0 {
        None
    } else {
        let r = tdiv(a * (SCALE as int), b);
        if fits(r) {
            Some(r)
        } else {
            None
        }
    }
}

/// Integer square root by unary recursion; the reference meaning of
/// [`Fixed`]'s square-root support.
pub open spec fn sp_isqrt(n: int) -> int
    decreases n,
{
    if n <= 0 {
        0
    } else {
        let r = sp_isqrt(n - 1);
        if (r + 1) * (r + 1) <= n {
            r + 1
        } else {
            r
        }
    }
}

/// The raw values of an optional fixed-point scalar.
pub open spec fn opt_view(o: Option<Fixed>) -> Option<int> {
    match o {
        Some(f) => Some(f@),
        None => None,
    }
}

/// A bounded fixed-point scalar: `raw / SCALE` is the value represented.
#[derive(Debug, Clone, Copy, PartialEq, Eq, Structural)]
pub struct Fixed {
    raw: i128,
}

impl View for Fixed {
    type V = int;

    closed spec fn view(&self) -> int {
        self.raw as int
    }
}

impl Fixed {
    /// Every scalar of this type stays inside the representable range.
    #[verifier::type_invariant]
    pub open spec fn bounded(self) -> bool {
        fits(self@)
    }

    /// The zero scalar.
    pub fn zero() -> (r: Fixed)
        ensures
            r@ == 0,
    {
        Fixed { raw: 0 }
    }

    /// Builds a scalar from a raw unit count already proved to be in range.
    pub fn from_raw_in_range(raw: i128) -> (f: Fixed)
        requires
            fits(raw as int),
        ensures
            f@ == raw as int,
    {
        Fixed { raw }
    }

    /// Builds a scalar from a raw unit count; `None` when out of range.
    pub fn from_raw(raw: i128) -> (r: Option<Fixed>)
        ensures
            r is Some <==> fits(raw as int),
            r matches Some(f) ==> f@ == raw as int,
    {
        if -FX_BOUND <= raw && raw <= FX_BOUND {
            Some(Fixed { raw })
        } else {
            None
        }
    }

    /// Builds a scalar holding the integer value `v`; `None` when out of range.
    pub fn from_int(v: i64) -> (r: Option<Fixed>)
        ensures
            r is Some <==> fits(v * SCALE as int),
            r matches Some(f) ==> f@ == v * SCALE as int,
    {
        let wide: i128 = (v as i128) * SCALE;
        Fixed::from_raw(wide)
    }

    /// The raw unit count of this scalar.
    pub fn raw(self) -> (r: i128)
        ensures
            r as int == self@,
    {
        self.raw
    }

    /// Truncating fixed-point addition.
    pub fn checked_add(self, other: Fixed) -> (r: Option<Fixed>)
        ensures
            opt_view(r) == sp_add(self@, other@),
    {
        proof {
            use_type_invariant(&self);
            use_type_invariant(&other);
        }
        let s: i128 = self.raw + other.raw;
        Fixed::from_raw(s)
    }

    /// Truncating fixed-point subtraction.
    pub fn checked_sub(self, other: Fixed) -> (r: Option<Fixed>)
        ensures
            opt_view(r) == sp_sub(self@, other@),
    {
        proof {
            use_type_invariant(&self);
            use_type_invariant(&other);
        }
        let s: i128 = self.raw - other.raw;
        Fixed::from_raw(s)
    }

    /// Truncating fixed-point multiplication.
    pub fn checked_mul(self, other: Fixed) -> (r: Option<Fixed>)
        ensures
            opt_view(r) == sp_mul(self@, other@),
    {
        proof {
            use_type_invariant(&self);
            use_type_invariant(&other);
            lemma_mul_fits_i128(self@, other@);
        }
        let p: i128 = self.raw * other.raw;
        let q: i128 = tdiv_i128(p, SCALE);
        Fixed::from_raw(q)
    }

    /// Truncating fixed-point division; `None` on a zero divisor.
    pub fn checked_div(self, other: Fixed) -> (r: Option<Fixed>)
        ensures
            opt_view(r) == sp_div(self@, other@),
    {
        proof {
            use_type_invariant(&self);
            use_type_invariant(&other);
        }
        if other.raw == 0 {
            None
        } else {
            let scaled: i128 = self.raw * SCALE;
            let q: i128 = tdiv_i128(scaled, other.raw);
            Fixed::from_raw(q)
        }
    }
}

/// The product of two in-range raw values stays strictly inside `i128`.
proof fn lemma_mul_fits_i128(a: int, b: int)
    requires
        fits(a),
        fits(b),
    ensures
        i128::MIN < a * b < i128::MAX,
{
    let bnd = FX_BOUND as int;
    assert(-(bnd * bnd) <= a * b <= bnd * bnd) by (nonlinear_arith)
        requires
            -bnd <= a <= bnd,
            -bnd <= b <= bnd,
    ;
    assert((FX_BOUND as int) * (FX_BOUND as int) == 20282409603651670423947251286016int);
}

/// The square of an integer bounded by `b` in magnitude is non-negative and
/// at most `b * b`.
pub proof fn lemma_sq_bound(d: int, b: int)
    requires
        iabs(d) <= b,
    ensures
        0 <= d * d <= b * b,
{
    assert(0 <= d * d <= b * b) by (nonlinear_arith)
        requires
            -b <= d <= b,
    ;
}

/// Exec division truncating toward zero, the machine twin of [`tdiv`].
pub fn tdiv_i128(n: i128, d: i128) -> (q: i128)
    requires
        d != 0,
        n > i128::MIN,
        d > i128::MIN,
    ensures
        q as int == tdiv(n as int, d as int),
{
    proof {
        lemma_tdiv_magnitude(n as int, d as int);
    }
    match n.checked_div(d) {
        Some(q) => q,
        None => {
            proof {
                assert(false);
            }
            0
        },
    }
}

/// A non-negative dividend and positive divisor give a non-negative
/// quotient.
pub proof fn lemma_tdiv_nonneg(n: int, d: int)
    requires
        n >= 0,
        d > 0,
    ensures
        tdiv(n, d) >= 0,
{
    lemma_div_pos_is_pos(iabs(n), iabs(d));
}

/// Truncating division never grows the magnitude of the dividend.
pub proof fn lemma_tdiv_magnitude(n: int, d: int)
    requires
        d != 0,
    ensures
        iabs(tdiv(n, d)) <= iabs(n),
{
    lemma_div_nonincreasing(iabs(n), iabs(d));
    lemma_div_pos_is_pos(iabs(n), iabs(d));
}

/// A dividend no larger than `m * d` in magnitude has a quotient no larger
/// than `m` in magnitude.
pub proof fn lemma_tdiv_bound(n: int, d: int, m: int)
    requires
        d > 0,
        m >= 0,
        iabs(n) <= m * d,
    ensures
        iabs(tdiv(n, d)) <= m,
{
    lemma_div_is_ordered(iabs(n), m * d, d);
    lemma_div_multiples_vanish(m, d);
    lemma_div_pos_is_pos(iabs(n), d);
    assert(m * d == d * m) by (nonlinear_arith);
    assert(iabs(n) / d <= (d * m) / d);
    assert(iabs(tdiv(n, d)) == iabs(n) / d);
}

/// Truncating division loses less than one divisor: the quotient times the
/// divisor stays within `d - 1` of the dividend.
pub proof fn lemma_tdiv_remainder(a: int, d: int)
    requires
        d > 0,
    ensures
        iabs(tdiv(a, d) * d - a) <= d - 1,
{
    if a >= 0 {
        lemma_fundamental_div_mod(a, d);
        lemma_mod_bound(a, d);
        assert(tdiv(a, d) == a / d);
        assert(d * (a / d) == (a / d) * d) by (nonlinear_arith);
        assert((a / d) * d - a == -(a % d));
    } else {
        lemma_fundamental_div_mod(-a, d);
        lemma_mod_bound(-a, d);
        assert(tdiv(a, d) == -((-a) / d));
        assert(d * ((-a) / d) == ((-a) / d) * d) by (nonlinear_arith);
        assert((-((-a) / d)) * d == -(((-a) / d) * d)) by (nonlinear_arith);
        assert(tdiv(a, d) * d - a == (-a) % d);
    }
}

/// Truncating division is exact on multiples of the divisor.
pub proof fn lemma_tdiv_exact(c: int, d: int)
    requires
        d > 0,
    ensures
        tdiv(c * d, d) == c,
{
    if c >= 0 {
        assert(c * d >= 0) by (nonlinear_arith)
            requires
                c >= 0,
                d > 0,
        ;
        lemma_div_multiples_vanish(c, d);
        assert(c * d == d * c) by (nonlinear_arith);
        assert(iabs(c * d) == c * d && iabs(d) == d);
        assert(tdiv(c * d, d) == (d * c) / d);
    } else {
        assert(c * d < 0 && -(c * d) == (-c) * d) by (nonlinear_arith)
            requires
                c < 0,
                d > 0,
        ;
        lemma_div_multiples_vanish(-c, d);
        assert((-c) * d == d * (-c)) by (nonlinear_arith);
        assert(iabs(c * d) == (-c) * d && iabs(d) == d);
        assert(tdiv(c * d, d) == -((d * (-c)) / d));
    }
}

/// [`sp_isqrt`] is the integer square root: its square does not exceed the
/// argument and the next square exceeds it.
pub proof fn lemma_sp_isqrt_bounds(n: int)
    requires
        n >= 0,
    ensures
        0 <= sp_isqrt(n),
        sp_isqrt(n) * sp_isqrt(n) <= n,
        (sp_isqrt(n) + 1) * (sp_isqrt(n) + 1) > n,
    decreases n,
{
    if n == 0 {
        assert(sp_isqrt(0) == 0);
    } else {
        lemma_sp_isqrt_bounds(n - 1);
        let r = sp_isqrt(n - 1);
        if (r + 1) * (r + 1) <= n {
            assert((r + 2) * (r + 2) > (r + 1) * (r + 1)) by (nonlinear_arith)
                requires
                    r >= 0,
            ;
            assert(n - 1 < (r + 1) * (r + 1));
        }
    }
}

/// Any integer whose square brackets `n` as the integer square root does is
/// [`sp_isqrt`] of `n`.
pub proof fn lemma_isqrt_unique(n: int, r: int)
    requires
        n >= 0,
        r >= 0,
        r * r <= n,
        (r + 1) * (r + 1) > n,
    ensures
        r == sp_isqrt(n),
{
    lemma_sp_isqrt_bounds(n);
    let s = sp_isqrt(n);
    if r < s {
        assert((r + 1) * (r + 1) <= s * s) by (nonlinear_arith)
            requires
                0 <= r,
                r < s,
        ;
    }
    if s < r {
        assert((s + 1) * (s + 1) <= r * r) by (nonlinear_arith)
            requires
                0 <= s,
                s < r,
        ;
    }
}

/// Exec integer square root by binary search, the machine twin of
/// [`sp_isqrt`].
pub fn isqrt_i128(n: i128) -> (r: i128)
    requires
        n >= 0,
    ensures
        r as int == sp_isqrt(n as int),
        0 <= r,
        r * r <= n < (r + 1) * (r + 1),
{
    if n == 0 {
        proof {
            assert(sp_isqrt(0) == 0);
        }
        return 0;
    }
    let mut lo: i128 = 0;
    let mut hi: i128 = if n < 13_043_817_825_332_782_212 {
        n + 1
    } else {
        13_043_817_825_332_782_213
    };
    proof {
        assert((13_043_817_825_332_782_213 as int) * (13_043_817_825_332_782_213 as int)
            > i128::MAX as int);
        if n < 13_043_817_825_332_782_212 {
            assert((n as int + 1) * (n as int + 1) > n as int) by (nonlinear_arith)
                requires
                    n as int >= 1,
            ;
        }
    }
    while lo + 1 < hi
        invariant
            0 <= lo < hi,
            hi <= 13_043_817_825_332_782_213,
            lo as int * lo as int <= n as int,
            hi as int * hi as int > n as int,
            n >= 1,
        decreases hi - lo,
    {
        let mid: i128 = lo + (hi - lo) / 2;
        proof {
            assert(lo < mid < hi);
            assert(mid as int * mid as int <= 13_043_817_825_332_782_212int
                * 13_043_817_825_332_782_212int) by (nonlinear_arith)
                requires
                    0 <= mid as int <= 13_043_817_825_332_782_212int,
            ;
            assert(13_043_817_825_332_782_212int * 13_043_817_825_332_782_212int
                < i128::MAX as int);
        }
        if mid * mid <= n {
            lo = mid;
        } else {
            hi = mid;
        }
    }
    proof {
        assert(hi == lo + 1);
        lemma_isqrt_unique(n as int, lo as int);
    }
    lo
}

} // verus!
