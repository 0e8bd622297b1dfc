//! Normalization math: L2 normalization and dot product over fixed-point
//! vectors.
//!
//! A coordinate is an `i32` counting micro-units, so `SCALE` (one million)
//! stands for the value one. Normalizing scales a vector so that its
//! Euclidean magnitude becomes one, that is `SCALE` micro-units: each
//! component of the result is the old component times `SCALE`, divided by the
//! magnitude and rounded to the nearest micro-unit (half away from zero).
//! The magnitude is computed in micro-units as the integer square root of
//! `sum_sq(v) * SCALE * SCALE`.

use crate::errors::VecError;
use vstd::arithmetic::div_mod::{lemma_div_is_ordered, lemma_fundamental_div_mod};
use vstd::arithmetic::mul::{lemma_mul_inequality, lemma_mul_upper_bound};
use vstd::prelude::*;

verus! {

/// The number of micro-units in the value one.
pub const SCALE: i32 = 1000000;

/// `SCALE * SCALE`: the score of two identical unit vectors.
pub const SCALE_SQ: i64 = 1000000000000;

/// The largest vector length the arithmetic below accepts without overflowing
/// its 128-bit intermediates.
pub const MAX_DIM: usize = 16777216;

/// The integer views of a sequence of fixed-point components.
pub open spec fn ints(s: Seq<i32>) -> Seq<int> {
    s.map_values(|x: i32| x as int)
}

/// The sum of the squares of the components.
pub open spec fn sum_sq(s: Seq<int>) -> int
    decreases s.len(),
{
    if s.len() == 0 {
        0
    } else {
        sum_sq(s.drop_last()) + s.last() * s.last()
    }
}

/// The dot product of two equally long sequences.
pub open spec fn dot(a: Seq<int>, b: Seq<int>) -> int
    recommends
        a.len() == b.len(),
    decreases a.len(),
{
    if a.len() == 0 || b.len() == 0 {
        0
    } else {
        dot(a.drop_last(), b.drop_last()) + a.last() * b.last()
    }
}

/// The integer square root: the largest `r` with `r * r <= n`.
pub open spec fn sqrt_floor(n: nat) -> nat
    decreases n,
{
    if n == 0 {
        0
    } else {
        let r = sqrt_floor((n - 1) as nat);
        if (r + 1) * (r + 1) <= n {
            r + 1
        } else {
            r
        }
    }
}

/// Division of `a` by positive `m`, rounded to the nearest integer, halves
/// away from zero.
pub open spec fn round_div(a: int, m: int) -> int
    recommends
        m > 0,
{
    if a >= 0 {
        (2 * a + m) / (2 * m)
    } else {
        -((2 * (-a) + m) / (2 * m))
    }
}

/// The magnitude of `s` in micro-units: the integer square root of
/// `sum_sq(s) * SCALE * SCALE`.
pub open spec fn norm_scale(s: Seq<int>) -> int {
    sqrt_floor((sum_sq(s) * SCALE_SQ) as nat) as int
}

/// What normalization returns: each component scaled by `SCALE` over the
/// micro-unit magnitude, rounded to the nearest micro-unit.
pub open spec fn norm_spec(s: Seq<int>) -> Seq<int> {
    Seq::new(s.len(), |i: int| round_div(s[i] * SCALE_SQ, norm_scale(s)))
}

/// A square is never negative.
pub proof fn lemma_square_nonneg(x: int)
    ensures
        x * x >= 0,
{
    assert(x * x >= 0) by (nonlinear_arith);
}

/// Squaring is monotonic on the non-negative numbers.
pub proof fn lemma_square_mono(a: int, b: int)
    requires
        0 <= a <= b,
    ensures
        a * a <= b * b,
{
    assert(a * a <= b * b) by (nonlinear_arith)
        requires
            0 <= a <= b,
    ;
}

/// Squaring is strictly monotonic on the non-negative numbers.
pub proof fn lemma_square_strict_mono(a: int, b: int)
    requires
        0 <= a < b,
    ensures
        a * a < b * b,
{
    assert(a * a < b * b) by (nonlinear_arith)
        requires
            0 <= a < b,
    ;
}

/// Negation does not change the square.
pub proof fn lemma_square_neg(x: int)
    ensures
        (-x) * (-x) == x * x,
{
    assert((-x) * (-x) == x * x) by (nonlinear_arith);
}

/// The sum of squares is never negative.
pub proof fn lemma_sum_sq_nonneg(s: Seq<int>)
    ensures
        sum_sq(s) >= 0,
    decreases s.len(),
{
    if s.len() > 0 {
        lemma_sum_sq_nonneg(s.drop_last());
        lemma_square_nonneg(s.last());
    }
}

/// Extending a prefix by one component adds that component's square.
pub proof fn lemma_sum_sq_prefix(s: Seq<int>, i: int)
    requires
        0 <= i < s.len(),
    ensures
        sum_sq(s.take(i + 1)) == sum_sq(s.take(i)) + s[i] * s[i],
{
    assert(s.take(i + 1).drop_last() =~= s.take(i));
    assert(s.take(i + 1).last() == s[i]);
}

/// Every component's square is at most the sum of squares.
pub proof fn lemma_square_le_sum_sq(s: Seq<int>, i: int)
    requires
        0 <= i < s.len(),
    ensures
        s[i] * s[i] <= sum_sq(s),
    decreases s.len(),
{
    if i == s.len() - 1 {
        lemma_sum_sq_nonneg(s.drop_last());
    } else {
        lemma_square_le_sum_sq(s.drop_last(), i);
        lemma_square_nonneg(s.last());
        assert(s.drop_last()[i] == s[i]);
    }
}

/// The defining bounds of the integer square root.
pub proof fn lemma_sqrt_floor_bounds(n: nat)
    ensures
        sqrt_floor(n) * sqrt_floor(n) <= n,
        n < (sqrt_floor(n) + 1) * (sqrt_floor(n) + 1),
    decreases n,
{
    if n == 0 {
        assert(sqrt_floor(n) == 0);
        assert(sqrt_floor(n) * sqrt_floor(n) <= n);
        assert(n < (sqrt_floor(n) + 1) * (sqrt_floor(n) + 1)) by (nonlinear_arith)
            requires
                n == 0,
                sqrt_floor(n) == 0,
        ;
    } else {
        lemma_sqrt_floor_bounds((n - 1) as nat);
        let r = sqrt_floor((n - 1) as nat);
        lemma_square_nonneg(r as int);
        lemma_square_nonneg(r as int + 1);
        lemma_square_nonneg(r as int + 2);
        assert(r * r <= n - 1);
        assert(n - 1 < (r + 1) * (r + 1));
        if (r + 1) * (r + 1) <= n {
            assert(sqrt_floor(n) == r + 1);
            assert(sqrt_floor(n) * sqrt_floor(n) <= n) by (nonlinear_arith)
                requires
                    sqrt_floor(n) == r + 1,
                    (r + 1) * (r + 1) <= n,
            ;
            assert(n < (sqrt_floor(n) + 1) * (sqrt_floor(n) + 1)) by (nonlinear_arith)
                requires
                    sqrt_floor(n) == r + 1,
                    n - 1 < (r + 1) * (r + 1),
            ;
        } else {
            assert(sqrt_floor(n) == r);
            assert(sqrt_floor(n) * sqrt_floor(n) <= n) by (nonlinear_arith)
                requires
                    sqrt_floor(n) == r,
                    r * r <= n - 1,
            ;
            assert(n < (sqrt_floor(n) + 1) * (sqrt_floor(n) + 1)) by (nonlinear_arith)
                requires
                    sqrt_floor(n) == r,
                    !((r + 1) * (r + 1) <= n),
            ;
        }
    }
}

/// Any `r` whose square is at most `n` is at most the integer square root.
pub proof fn lemma_sqrt_floor_at_least(n: nat, r: nat)
    requires
        r * r <= n,
    ensures
        sqrt_floor(n) >= r,
{
    lemma_sqrt_floor_bounds(n);
    lemma_square_nonneg(r as int);
    let s = sqrt_floor(n);
    if s < r {
        lemma_square_mono(s as int + 1, r as int);
    }
}

/// The integer square root of `n`, found by binary search.
pub fn isqrt(n: u128) -> (r: u128)
    requires
        (n as int) < 0x40000000000000000000000000000000,
    ensures
        r as nat == sqrt_floor(n as nat),
        (r as int) * (r as int) <= n as int,
        (n as int) < ((r as int) + 1) * ((r as int) + 1),
        r < 0x8000000000000000,
{
    let mut lo: u128 = 0;
    let mut hi: u128 = 0x8000000000000000;
    proof {
        assert((0x8000000000000000 as int) * (0x8000000000000000 as int)
            == 0x40000000000000000000000000000000) by (nonlinear_arith);
    }
    while lo + 1 < hi
        invariant
            lo < hi,
            hi <= 0x8000000000000000,
            (lo as int) * (lo as int) <= n as int,
            (n as int) < (hi as int) * (hi as int),
        decreases hi - lo,
    {
        let mid = lo + (hi - lo) / 2;
        proof {
            lemma_square_mono(mid as int, 0x8000000000000000);
            assert((0x8000000000000000 as int) * (0x8000000000000000 as int)
                == 0x40000000000000000000000000000000) by (nonlinear_arith);
        }
        if mid * mid <= n {
            lo = mid;
        } else {
            hi = mid;
        }
    }
    proof {
        lemma_sqrt_floor_bounds(n as nat);
        lemma_sqrt_floor_at_least(n as nat, lo as nat);
        let s = sqrt_floor(n as nat) as int;
        if s > lo as int {
            lemma_square_mono(lo as int + 1, s);
        }
    }
    lo
}

/// Division rounded to the nearest integer, for non-negative numerators.
fn round_div_exec(a: u128, m: u128) -> (r: u128)
    requires
        1 <= m < 0x8000000000000000,
        2 * (a as int) + (m as int) <= u128::MAX as int,
    ensures
        r as int == round_div(a as int, m as int),
{
    (2 * a + m) / (2 * m)
}

/// `(2m) * k + m` divided by `2m` is `k`, for positive `m` and non-negative `k`.
proof fn lemma_div_multiples_vanish_with_remainder(k: int, m: int)
    requires
        m >= 1,
        k >= 0,
    ensures
        ((2 * m) * k + m) / (2 * m) == k,
{
    lemma_fundamental_div_mod((2 * m) * k + m, 2 * m);
    let q = ((2 * m) * k + m) / (2 * m);
    let r = ((2 * m) * k + m) % (2 * m);
    assert(q == k) by (nonlinear_arith)
        requires
            m >= 1,
            (2 * m) * k + m == (2 * m) * q + r,
            0 <= r < 2 * m,
    ;
}

/// The rounded quotient of `a` by `m` is at most `k` when `a <= m * k`.
proof fn lemma_round_div_le(a: int, m: int, k: int)
    requires
        m >= 1,
        k >= 0,
        0 <= a,
        a <= m * k,
    ensures
        0 <= round_div(a, m) <= k,
{
    assert(2 * a + m <= (2 * m) * k + m) by (nonlinear_arith)
        requires
            a <= m * k,
    ;
    lemma_div_is_ordered(2 * a + m, (2 * m) * k + m, 2 * m);
    lemma_div_multiples_vanish_with_remainder(k, m);
    assert(0 <= (2 * a + m) / (2 * m)) by (nonlinear_arith)
        requires
            m >= 1,
            a >= 0,
    ;
}

/// L2 normalization: scales the vector so its magnitude becomes one.
///
/// Fails with `EmptyVector` on a vector of length zero and with `ZeroVector`
/// on one whose magnitude is exactly zero; otherwise returns exactly
/// [`norm_spec`] of the input.
pub fn l2_norm(vector: &Vec<i32>) -> (r: Result<Vec<i32>, VecError>)
    requires
        vector@.len() <= MAX_DIM,
    ensures
        match r {
            Result::Err(e) => (vector@.len() == 0 && e == VecError::EmptyVector) || (vector@.len()
                > 0 && sum_sq(ints(vector@)) == 0 && e == VecError::ZeroVector),
            Result::Ok(u) => vector@.len() > 0 && sum_sq(ints(vector@)) != 0 && ints(u@)
                == norm_spec(ints(vector@)),
        },
{
    if vector.len() == 0 {
        return Err(VecError::EmptyVector);
    }
    let ghost s = ints(vector@);
    let n = vector.len();
    let mut ssq: u128 = 0;
    let mut i: usize = 0;
    while i < n
        invariant
            0 <= i <= n,
            n == vector@.len() <= MAX_DIM,
            s == ints(vector@),
            ssq as int == sum_sq(s.take(i as int)),
            ssq as int <= (i as int) * 0x4000000000000000,
        decreases n - i,
    {
        let x = vector[i] as i64;
        proof {
            lemma_sum_sq_prefix(s, i as int);
            assert(s[i as int] == vector@[i as int] as int);
            assert((x as int) * (x as int) <= 0x4000000000000000) by (nonlinear_arith)
                requires
                    -0x80000000 <= x as int <= 0x7fffffff,
            ;
            lemma_square_nonneg(x as int);
            lemma_mul_inequality(i as int, MAX_DIM as int, 0x4000000000000000);
            assert((i as int + 1) * 0x4000000000000000 == (i as int) * 0x4000000000000000
                + 0x4000000000000000);
        }
        let sq = (x * x) as u128;
        ssq = ssq + sq;
        i = i + 1;
    }
    proof {
        assert(s.take(n as int) =~= s);
    }
    if ssq == 0 {
        return Err(VecError::ZeroVector);
    }
    proof {
        // The 128-bit product sum_sq * SCALE_SQ cannot overflow.
        assert((MAX_DIM as int) * 0x4000000000000000 == 0x4000000000000000000000);
        lemma_mul_upper_bound(
            ssq as int,
            0x4000000000000000000000,
            SCALE_SQ as int,
            SCALE_SQ as int,
        );
        assert(0x4000000000000000000000 * (SCALE_SQ as int) < 0x40000000000000000000000000000000)
            by (nonlinear_arith);
    }
    let m = isqrt(ssq * (SCALE_SQ as u128));
    proof {
        // The magnitude is at least SCALE, because sum_sq >= 1.
        assert((SCALE as int) * (SCALE as int) == SCALE_SQ as int) by (nonlinear_arith);
        lemma_mul_inequality(1, ssq as int, SCALE_SQ as int);
        lemma_sqrt_floor_at_least(((ssq as int) * (SCALE_SQ as int)) as nat, SCALE as nat);
    }
    let mut out: Vec<i32> = Vec::new();
    let mut i: usize = 0;
    while i < n
        invariant
            0 <= i <= n,
            n == vector@.len() <= MAX_DIM,
            s == ints(vector@),
            ssq as int == sum_sq(s),
            ssq >= 1,
            m as int == norm_scale(s),
            m >= SCALE as int,
            m < 0x8000000000000000,
            out@.len() == i as int,
            forall|j: int| 0 <= j < i as int ==> out@[j] as int == norm_spec(s)[j],
        decreases n - i,
    {
        let x = vector[i];
        let neg = x < 0;
        let mag: u128 = if neg {
            (-(x as i64)) as u128
        } else {
            x as u128
        };
        proof {
            assert(s[i as int] == x as int);
            // The magnitude dominates the component: mag * SCALE <= m.
            lemma_square_le_sum_sq(s, i as int);
            if neg {
                lemma_square_neg(x as int);
            }
            assert((mag as int) * (mag as int) == s[i as int] * s[i as int]);
            assert(((mag as int) * (SCALE as int)) * ((mag as int) * (SCALE as int)) == ((mag
                as int) * (mag as int)) * (SCALE_SQ as int)) by (nonlinear_arith)
                requires
                    SCALE_SQ as int == (SCALE as int) * (SCALE as int),
            ;
            lemma_mul_inequality(s[i as int] * s[i as int], sum_sq(s), SCALE_SQ as int);
            lemma_sqrt_floor_at_least(
                ((ssq as int) * (SCALE_SQ as int)) as nat,
                ((mag as int) * (SCALE as int)) as nat,
            );
            // mag * SCALE_SQ == (mag * SCALE) * SCALE <= m * SCALE.
            assert((mag as int) * (SCALE_SQ as int) == ((mag as int) * (SCALE as int)) * (SCALE
                as int)) by (nonlinear_arith)
                requires
                    SCALE_SQ as int == (SCALE as int) * (SCALE as int),
            ;
            lemma_mul_inequality((mag as int) * (SCALE as int), m as int, SCALE as int);
            assert((m as int) * (SCALE as int) == (SCALE as int) * (m as int))
                by (nonlinear_arith);
            lemma_round_div_le((mag as int) * (SCALE_SQ as int), m as int, SCALE as int);
            // No overflow in round_div_exec's argument.
            lemma_mul_upper_bound(mag as int, 0x80000000, SCALE_SQ as int, SCALE_SQ as int);
        }
        let q = round_div_exec(mag * (SCALE_SQ as u128), m);
        let val: i32 = if neg {
            -(q as i32)
        } else {
            q as i32
        };
        proof {
            assert(val as int == round_div(s[i as int] * SCALE_SQ as int, m as int)) by {
                if neg {
                    assert((mag as int) * (SCALE_SQ as int) == -(s[i as int] * (SCALE_SQ as int)))
                        by (nonlinear_arith)
                        requires
                            mag as int == -(s[i as int]),
                    ;
                } else {
                    assert((mag as int) * (SCALE_SQ as int) == s[i as int] * (SCALE_SQ as int));
                }
            }
        }
        out.push(val);
        i = i + 1;
    }
    proof {
        assert(ints(out@) =~= norm_spec(s));
    }
    Ok(out)
}

/// Dot product: the sum of the elementwise products.
///
/// Fails with `DimensionMismatch` exactly when the lengths differ; otherwise
/// returns exactly `dot` of the two integer sequences.
pub fn dot_product(left: &Vec<i32>, right: &Vec<i32>) -> (r: Result<i128, VecError>)
    ensures
        match r {
            Result::Err(e) => left@.len() != right@.len() && e == VecError::DimensionMismatch,
            Result::Ok(p) => left@.len() == right@.len() && p as int == dot(
                ints(left@),
                ints(right@),
            ),
        },
{
    if left.len() != right.len() {
        return Err(VecError::DimensionMismatch);
    }
    let n = left.len();
    let ghost a = ints(left@);
    let ghost b = ints(right@);
    let mut acc: i128 = 0;
    let mut i: usize = 0;
    while i < n
        invariant
            0 <= i <= n,
            n == left@.len(),
            n == right@.len(),
            a == ints(left@),
            b == ints(right@),
            acc as int == dot(a.take(i as int), b.take(i as int)),
            -((i as int) * 0x4000000000000000) <= acc as int <= (i as int) * 0x4000000000000000,
        decreases n - i,
    {
        let xl = left[i] as i64;
        let xr = right[i] as i64;
        proof {
            lemma_dot_prefix(a, b, i as int);
            assert(a[i as int] == left@[i as int] as int);
            assert(b[i as int] == right@[i as int] as int);
            assert(-0x4000000000000000 <= (xl as int) * (xr as int) <= 0x4000000000000000)
                by (nonlinear_arith)
                requires
                    -0x80000000 <= xl as int <= 0x7fffffff,
                    -0x80000000 <= xr as int <= 0x7fffffff,
            ;
            assert((i as int + 1) * 0x4000000000000000 == (i as int) * 0x4000000000000000
                + 0x4000000000000000);
            lemma_mul_inequality(i as int + 1, 0x10000000000000000, 0x4000000000000000);
        }
        let p = xl * xr;
        acc = acc + (p as i128);
        i = i + 1;
    }
    proof {
        assert(a.take(n as int) =~= a);
        assert(b.take(n as int) =~= b);
    }
    Ok(acc)
}

/// The absolute value.
pub open spec fn abs_val(x: int) -> int {
    if x >= 0 {
        x
    } else {
        -x
    }
}

/// The sum of the absolute values of the components.
pub open spec fn abs_sum(s: Seq<int>) -> int
    decreases s.len(),
{
    if s.len() == 0 {
        0
    } else {
        abs_sum(s.drop_last()) + abs_val(s.last())
    }
}

/// The sum of absolute values is never negative.
pub proof fn lemma_abs_sum_nonneg(s: Seq<int>)
    ensures
        abs_sum(s) >= 0,
    decreases s.len(),
{
    if s.len() > 0 {
        lemma_abs_sum_nonneg(s.drop_last());
    }
}

/// The Cauchy-Schwarz inequality against the all-ones vector: the square of
/// the sum of absolute values is at most the length times the sum of
/// squares.
pub proof fn lemma_cauchy_schwarz(s: Seq<int>)
    ensures
        abs_sum(s) * abs_sum(s) <= s.len() * sum_sq(s),
    decreases s.len(),
{
    if s.len() == 0 {
    } else {
        let d = s.drop_last();
        lemma_cauchy_schwarz(d);
        lemma_abs_sum_nonneg(d);
        lemma_sum_sq_nonneg(d);
        let a = abs_sum(d);
        let q = sum_sq(d);
        let k = d.len() as int;
        let m = abs_val(s.last());
        assert(m * m == s.last() * s.last()) by (nonlinear_arith)
            requires
                m == s.last() || m == -s.last(),
        ;
        if k == 0 {
            assert(a == 0 && q == 0);
            assert((a + m) * (a + m) <= (k + 1) * (q + m * m)) by (nonlinear_arith)
                requires
                    a == 0,
                    q == 0,
                    k == 0,
            ;
        } else {
            // (a - k*m)^2 >= 0 gives 2*k*a*m <= a^2 + k^2*m^2 <= k*q + k^2*m^2,
            // and dividing by k >= 1 gives 2*a*m <= q + k*m^2.
            assert(2 * a * m <= q + k * (m * m)) by (nonlinear_arith)
                requires
                    k >= 1,
                    a >= 0,
                    m >= 0,
                    q >= 0,
                    a * a <= k * q,
            ;
            assert((a + m) * (a + m) <= (k + 1) * (q + m * m)) by (nonlinear_arith)
                requires
                    a >= 0,
                    m >= 0,
                    q >= 0,
                    k >= 0,
                    a * a <= k * q,
                    2 * a * m <= q + k * (m * m),
            ;
        }
    }
}

/// How far a rounded quotient can sit from the true ratio, squared: with
/// `q = round_div(a, m)`, the value `m * q` is within `m / 2` of `a`, so
/// `4 m^2 q^2` is within `4 |a| m + m^2` of `4 a^2`.
pub proof fn lemma_round_div_err(a: int, m: int)
    requires
        m >= 1,
    ensures
        4 * (m * m) * (round_div(a, m) * round_div(a, m)) <= 4 * (a * a) + 4 * abs_val(a) * m + m
            * m,
        4 * (m * m) * (round_div(a, m) * round_div(a, m)) >= 4 * (a * a) - 4 * abs_val(a) * m,
{
    if a >= 0 {
        lemma_round_div_err_nonneg(a, m);
    } else {
        lemma_round_div_err_nonneg(-a, m);
        let q = round_div(a, m);
        let p = round_div(-a, m);
        assert(q == -p);
        assert(q * q == p * p) by (nonlinear_arith)
            requires
                q == -p,
        ;
        assert(a * a == (-a) * (-a)) by (nonlinear_arith);
    }
}

/// The non-negative case of [`lemma_round_div_err`].
proof fn lemma_round_div_err_nonneg(a: int, m: int)
    requires
        m >= 1,
        a >= 0,
    ensures
        4 * (m * m) * (round_div(a, m) * round_div(a, m)) <= 4 * (a * a) + 4 * a * m + m * m,
        4 * (m * m) * (round_div(a, m) * round_div(a, m)) >= 4 * (a * a) - 4 * a * m,
{
    let q = round_div(a, m);
    lemma_fundamental_div_mod(2 * a + m, 2 * m);
    let rr = (2 * a + m) % (2 * m);
    // 2a + m = 2m q + rr with 0 <= rr < 2m, so |2a - 2mq| <= m.
    let d = 2 * a - 2 * m * q;
    assert(d == rr - m && 0 <= rr < 2 * m) by (nonlinear_arith)
        requires
            m >= 1,
            2 * a + m == (2 * m) * q + rr,
            0 <= rr < 2 * m,
            d == 2 * a - 2 * m * q,
    ;
    assert(d * d <= m * m) by (nonlinear_arith)
        requires
            -m <= d < m,
    ;
    // 4 m^2 q^2 = (2a - d)^2 = 4a^2 - 4ad + d^2, and |4ad| <= 4am.
    assert(4 * (m * m) * (q * q) == 4 * (a * a) - 4 * a * d + d * d) by (nonlinear_arith)
        requires
            d == 2 * a - 2 * m * q,
    ;
    assert(-(4 * a * m) <= 4 * a * d <= 4 * a * m) by (nonlinear_arith)
        requires
            a >= 0,
            -m <= d <= m,
    ;
    assert(d * d >= 0) by (nonlinear_arith);
}

/// Extending both prefixes by one component adds that product.
pub proof fn lemma_dot_prefix(a: Seq<int>, b: Seq<int>, i: int)
    requires
        a.len() == b.len(),
        0 <= i < a.len(),
    ensures
        dot(a.take(i + 1), b.take(i + 1)) == dot(a.take(i), b.take(i)) + a[i] * b[i],
{
    assert(a.take(i + 1).drop_last() =~= a.take(i));
    assert(b.take(i + 1).drop_last() =~= b.take(i));
}

} // verus!
