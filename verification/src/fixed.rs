//! Decimal fixed-point scalars: an `i64` counts thousandths, so `1000`
//! stands for one. Multiplication and division truncate toward zero, as
//! the corresponding hardware operations do; the spec functions here give
//! those roundings exactly, and every executable operation is proved equal
//! to its spec function.
use vstd::prelude::*;
use vstd::arithmetic::div_mod::{lemma_div_is_ordered, lemma_div_nonincreasing, lemma_div_pos_is_pos};
use vstd::arithmetic::mul::{lemma_mul_inequality, lemma_mul_upper_bound};

verus! {

/// The fixed-point unit: the raw value that stands for one.
pub const ONE: i64 = 1000;

/// Magnitude bound accepted by `mul_fx` (2^36 raw units).
pub const MUL_BOUND: i64 = 68_719_476_736;

/// Magnitude bound accepted by `div_fx` (2^52 raw units).
pub const DIV_BOUND: i64 = 4_503_599_627_370_496;

/// Magnitude bound accepted by `sqrt_fx` (2^61 raw units).
pub const SQRT_BOUND: i64 = 2_305_843_009_213_693_952;

pub open spec fn abs_i(a: int) -> int {
    if a < 0 {
        -a
    } else {
        a
    }
}

/// Division truncating toward zero, as Rust's `/` on machine integers.
pub open spec fn tdiv(a: int, b: int) -> int {
    if (a < 0) == (b < 0) {
        abs_i(a) / abs_i(b)
    } else {
        -(abs_i(a) / abs_i(b))
    }
}

/// Fixed-point product: `a * b` rescaled by the unit.
pub open spec fn mul_fx_s(a: int, b: int) -> int {
    tdiv(a * b, 1000)
}

/// Fixed-point quotient: `a / b` rescaled by the unit.
pub open spec fn div_fx_s(a: int, b: int) -> int {
    tdiv(a * 1000, b)
}

/// The integer square root: the greatest `r` with `r * r <= n`.
pub open spec fn isqrt_s(n: int) -> int
    decreases n,
{
    if n < 1 {
        0
    } else {
        let p = isqrt_s(n - 1);
        if (p + 1) * (p + 1) <= n {
            p + 1
        } else {
            p
        }
    }
}

/// Fixed-point square root of a nonnegative scalar.
pub open spec fn sqrt_fx_s(x: int) -> int {
    isqrt_s(x * 1000)
}

pub proof fn lemma_isqrt_props(n: int)
    requires
        n >= 0,
    ensures
        isqrt_s(n) >= 0,
        isqrt_s(n) * isqrt_s(n) <= n,
        n < (isqrt_s(n) + 1) * (isqrt_s(n) + 1),
    decreases n,
{
    if n < 1 {
        assert(isqrt_s(n) == 0);
    } else {
        lemma_isqrt_props(n - 1);
        let p = isqrt_s(n - 1);
        if (p + 1) * (p + 1) <= n {
            assert(n < (p + 2) * (p + 2)) by {
                assert((p + 1) * (p + 1) >= n) by {
                    assert(n - 1 < (p + 1) * (p + 1));
                }
                assert((p + 2) * (p + 2) > (p + 1) * (p + 1)) by (nonlinear_arith)
                    requires p >= 0;
            }
        }
    }
}

pub proof fn lemma_isqrt_unique(n: int, r: int)
    requires
        n >= 0,
        r >= 0,
        r * r <= n,
        n < (r + 1) * (r + 1),
    ensures
        r == isqrt_s(n),
{
    let s = isqrt_s(n);
    lemma_isqrt_props(n);
    if r < s {
        lemma_mul_inequality(r + 1, s, r + 1);
        lemma_mul_inequality(r + 1, s, s);
        assert((r + 1) * (r + 1) <= s * s);
        assert(false);
    }
    if s < r {
        lemma_mul_inequality(s + 1, r, s + 1);
        lemma_mul_inequality(s + 1, r, r);
        assert((s + 1) * (s + 1) <= r * r);
        assert(false);
    }
}

/// Truncating division on wide integers; both the sign handling and the
/// magnitude are exact.
pub(crate) fn tdiv128(a: i128, b: i128) -> (q: i128)
    requires
        b != 0,
        a != i128::MIN,
        b != i128::MIN,
    ensures
        q as int == tdiv(a as int, b as int),
{
    let neg: bool = (a < 0) != (b < 0);
    let ua: u128 = if a < 0 { (-a) as u128 } else { a as u128 };
    let ub: u128 = if b < 0 { (-b) as u128 } else { b as u128 };
    assert(ua as int == abs_i(a as int));
    assert(ub as int == abs_i(b as int));
    let uq: u128 = ua / ub;
    proof {
        lemma_div_nonincreasing(ua as int, ub as int);
        lemma_div_pos_is_pos(ua as int, ub as int);
    }
    if neg {
        -(uq as i128)
    } else {
        uq as i128
    }
}

/// Fixed-point multiplication, exact per `mul_fx_s`.
pub fn mul_fx(a: i64, b: i64) -> (r: i64)
    requires
        -MUL_BOUND <= a <= MUL_BOUND,
        -MUL_BOUND <= b <= MUL_BOUND,
    ensures
        r as int == mul_fx_s(a as int, b as int),
        abs_i(r as int) == abs_i(a as int * b as int) / 1000,
        abs_i(r as int) <= abs_i(a as int) * abs_i(b as int),
{
    proof {
        assert(
            -0x1000000000000000000int <= (a as int) * (b as int) <= 0x1000000000000000000int
        ) by (nonlinear_arith)
            requires
                -MUL_BOUND <= a <= MUL_BOUND,
                -MUL_BOUND <= b <= MUL_BOUND,
        ;
    }
    let p: i128 = (a as i128) * (b as i128);
    proof {
        lemma_mul_upper_bound(abs_i(a as int), MUL_BOUND as int, abs_i(b as int), MUL_BOUND as int);
        lemma_abs_mul(a as int, b as int);
        lemma_div_is_ordered(abs_i(p as int), MUL_BOUND as int * MUL_BOUND as int, 1000);
        lemma_div_nonincreasing(abs_i(p as int), 1000);
    }
    let q: i128 = tdiv128(p, 1000);
    q as i64
}

/// Fixed-point division, exact per `div_fx_s`.
pub fn div_fx(a: i64, b: i64) -> (r: i64)
    requires
        b != 0,
        -DIV_BOUND <= a <= DIV_BOUND,
    ensures
        r as int == div_fx_s(a as int, b as int),
        abs_i(r as int) == abs_i(a as int) * 1000 / abs_i(b as int),
        abs_i(r as int) <= abs_i(a as int) * 1000,
{
    let p: i128 = (a as i128) * 1000;
    proof {
        lemma_abs_mul(a as int, 1000);
        lemma_div_nonincreasing(abs_i(p as int), abs_i(b as int));
        lemma_div_pos_is_pos(abs_i(p as int), abs_i(b as int));
    }
    let q: i128 = tdiv128(p, b as i128);
    q as i64
}

/// The integer square root by bisection.
fn isqrt(n: u128) -> (r: u128)
    requires
        n < 0x1000000000000000000u128,
    ensures
        r as int == isqrt_s(n as int),
        r * r <= n,
        n < (r + 1) * (r + 1),
{
    let mut lo: u128 = 0;
    let mut hi: u128 = 0x1000000000;
    proof {
        assert(0x1000000000 * 0x1000000000 == 0x1000000000000000000int) by (nonlinear_arith);
    }
    while lo + 1 < hi
        invariant
            lo < hi,
            hi <= 0x1000000000,
            lo * lo <= n,
            (n as int) < (hi as int) * (hi as int),
        decreases hi - lo,
    {
        let mid: u128 = lo + (hi - lo) / 2;
        assert(lo < mid < hi);
        proof {
            assert((mid as int) * (mid as int) <= 0x1000000000000000000int) by (nonlinear_arith)
                requires
                    0 <= mid <= 0x1000000000u128,
            ;
        }
        if mid * mid <= n {
            lo = mid;
        } else {
            hi = mid;
        }
    }
    proof {
        assert((n as int) < ((lo + 1) as int) * ((lo + 1) as int));
        lemma_isqrt_unique(n as int, lo as int);
    }
    lo
}

/// Fixed-point square root, exact per `sqrt_fx_s`.
pub fn sqrt_fx(x: i64) -> (r: i64)
    requires
        0 <= x <= SQRT_BOUND,
    ensures
        r as int == sqrt_fx_s(x as int),
        0 <= r,
        r * r <= x * 1000,
        x * 1000 < (r + 1) * (r + 1),
{
    let n: u128 = (x as u128) * 1000;
    proof {
        assert(n < 0x1000000000000000000u128) by {
            assert(SQRT_BOUND as int * 1000 < 0x1000000000000000000) by (nonlinear_arith);
            lemma_mul_inequality(x as int, SQRT_BOUND as int, 1000);
        }
        lemma_isqrt_props(n as int);
        assert(isqrt_s(n as int) * isqrt_s(n as int) <= n as int);
        lemma_isqrt_fits(n as int);
    }
    let r: u128 = isqrt(n);
    r as i64
}

proof fn lemma_isqrt_fits(n: int)
    requires
        0 <= n < 0x1000000000000000000,
    ensures
        isqrt_s(n) < 0x1000000000,
{
    lemma_isqrt_props(n);
    let r = isqrt_s(n);
    if r >= 0x1000000000 {
        lemma_mul_inequality(0x1000000000, r, 0x1000000000);
        lemma_mul_inequality(0x1000000000, r, r);
        assert(0x1000000000 * 0x1000000000 == 0x1000000000000000000int) by (nonlinear_arith);
        assert(false);
    }
}

pub proof fn lemma_abs_mul(a: int, b: int)
    ensures
        abs_i(a * b) == abs_i(a) * abs_i(b),
{
    assert(abs_i(a * b) == abs_i(a) * abs_i(b)) by (nonlinear_arith);
}


/// Plain truncating division on machine scalars.
pub fn idiv(a: i64, b: i64) -> (r: i64)
    requires
        b > 0,
        a != i64::MIN,
    ensures
        r as int == tdiv(a as int, b as int),
{
    proof {
        lemma_div_nonincreasing(abs_i(a as int), b as int);
        lemma_div_pos_is_pos(abs_i(a as int), b as int);
    }
    let q = tdiv128(a as i128, b as i128);
    q as i64
}


/// Scaling by the unit is exact.
pub proof fn lemma_mul_unit(a: int)
    ensures
        mul_fx_s(a, 1000) == a,
{
    lemma_abs_mul(a, 1000);
    assert(abs_i(a) * 1000 == 1000 * abs_i(a)) by (nonlinear_arith);
    vstd::arithmetic::div_mod::lemma_div_multiples_vanish(abs_i(a), 1000);
    if a >= 0 {
        assert(a * 1000 >= 0) by (nonlinear_arith)
            requires
                a >= 0,
        ;
    } else {
        assert(a * 1000 < 0) by (nonlinear_arith)
            requires
                a < 0,
        ;
    }
}

/// Scaling by zero is exactly zero.
pub proof fn lemma_mul_zero(a: int)
    ensures
        mul_fx_s(a, 0) == 0,
{
    assert(a * 0 == 0) by (nonlinear_arith);
}

/// Truncating division is monotone in its numerator for a positive divisor.
pub proof fn lemma_tdiv_mono(a1: int, a2: int, b: int)
    requires
        a1 <= a2,
        b > 0,
    ensures
        tdiv(a1, b) <= tdiv(a2, b),
{
    if a1 >= 0 {
        lemma_div_is_ordered(a1, a2, b);
    } else if a2 < 0 {
        lemma_div_is_ordered(-a2, -a1, b);
    } else {
        lemma_div_pos_is_pos(-a1, b);
        lemma_div_pos_is_pos(a2, b);
    }
}

/// A product bound usable at call sites of `mul_fx`.
pub proof fn lemma_mul_fx_bound(a: int, b: int, ba: int, bb: int)
    requires
        abs_i(a) <= ba,
        abs_i(b) <= bb,
        0 <= ba,
        0 <= bb,
    ensures
        abs_i(mul_fx_s(a, b)) <= ba * bb / 1000,
        abs_i(mul_fx_s(a, b)) <= ba * bb,
{
    lemma_abs_mul(a, b);
    lemma_mul_upper_bound(abs_i(a), ba, abs_i(b), bb);
    lemma_div_is_ordered(abs_i(a * b), ba * bb, 1000);
    lemma_div_nonincreasing(ba * bb, 1000);
    assert(abs_i(tdiv(a * b, 1000)) == abs_i(a * b) / 1000);
}

/// A quotient bound usable at call sites of `div_fx`.
pub proof fn lemma_div_fx_bound(a: int, b: int, ba: int, bb: int)
    requires
        abs_i(a) <= ba,
        abs_i(b) >= bb,
        0 <= ba,
        1 <= bb,
        b != 0,
    ensures
        abs_i(div_fx_s(a, b)) <= ba * 1000 / bb,
{
    lemma_abs_mul(a, 1000);
    assert(abs_i(tdiv(a * 1000, b)) == abs_i(a * 1000) / abs_i(b));
    lemma_div_is_ordered_by_denominator_wrap(abs_i(a) * 1000, bb, abs_i(b));
    lemma_mul_inequality(abs_i(a), ba, 1000);
    lemma_div_is_ordered(abs_i(a) * 1000, ba * 1000, bb);
}

proof fn lemma_div_is_ordered_by_denominator_wrap(x: int, y: int, z: int)
    requires
        0 <= x,
        1 <= y <= z,
    ensures
        x / y >= x / z,
{
    vstd::arithmetic::div_mod::lemma_div_is_ordered_by_denominator(x, y, z);
}

} // verus!
