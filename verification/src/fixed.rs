//! Integer arithmetic under the fixed-point scalars: division that rounds
//! toward zero and the integer square root.
use vstd::prelude::*;

verus! {

/// The magnitude of an integer.
pub open spec fn abs_int(a: int) -> int {
    if a < 0 { -a } else { a }
}

/// The quotient of `a` by `b` rounded toward zero.
pub open spec fn tdiv(a: int, b: int) -> int
    recommends
        b != 0,
{
    if (a < 0) == (b < 0) {
        abs_int(a) / abs_int(b)
    } else {
        -(abs_int(a) / abs_int(b))
    }
}

/// A product is bounded by the product of the bounds.
pub proof fn lemma_product_bound(a: int, b: int, ba: int, bb: int)
    by (nonlinear_arith)
    requires
        -ba <= a <= ba,
        -bb <= b <= bb,
    ensures
        -(ba * bb) <= a * b <= ba * bb,
{
}

/// `r` is the integer square root of `n`: the largest integer whose square
/// does not exceed `n`.
pub open spec fn is_floor_sqrt(n: int, r: int) -> bool {
    0 <= r && r * r <= n < (r + 1) * (r + 1)
}

/// The integer square root of `n`, for `n >= 0`.
pub open spec fn floor_sqrt(n: int) -> int {
    choose|r: int| is_floor_sqrt(n, r)
}

/// A number has at most one integer square root.
pub proof fn lemma_floor_sqrt_unique(n: int, r1: int, r2: int)
    requires
        is_floor_sqrt(n, r1),
        is_floor_sqrt(n, r2),
    ensures
        r1 == r2,
{
    if r1 < r2 {
        assert((r1 + 1) * (r1 + 1) <= r2 * r2) by (nonlinear_arith)
            requires
                0 <= r1,
                r1 + 1 <= r2,
        ;
    } else if r2 < r1 {
        assert((r2 + 1) * (r2 + 1) <= r1 * r1) by (nonlinear_arith)
            requires
                0 <= r2,
                r2 + 1 <= r1,
        ;
    }
}

/// Every number from zero up has an integer square root.
pub proof fn lemma_floor_sqrt_exists(n: int)
    requires
        n >= 0,
    ensures
        is_floor_sqrt(n, floor_sqrt(n)),
    decreases n,
{
    if n == 0 {
        assert(is_floor_sqrt(0, 0));
    } else {
        lemma_floor_sqrt_exists(n - 1);
        let r = floor_sqrt(n - 1);
        if n < (r + 1) * (r + 1) {
            assert(is_floor_sqrt(n, r));
        } else {
            assert(is_floor_sqrt(n, r + 1)) by (nonlinear_arith)
                requires
                    0 <= r,
                    n - 1 < (r + 1) * (r + 1),
                    n >= (r + 1) * (r + 1),
            ;
        }
    }
}

/// Whoever exhibits the integer square root of `n` knows `floor_sqrt(n)`.
pub proof fn lemma_floor_sqrt_is(n: int, r: int)
    requires
        is_floor_sqrt(n, r),
    ensures
        floor_sqrt(n) == r,
{
    lemma_floor_sqrt_unique(n, r, floor_sqrt(n));
}

/// Rounding toward zero commutes with negation of the dividend.
pub proof fn lemma_tdiv_neg(a: int, b: int)
    requires
        b != 0,
    ensures
        tdiv(-a, b) == -tdiv(a, b),
{
    if a == 0 {
        assert(0int / abs_int(b) == 0) by (nonlinear_arith)
            requires
                abs_int(b) > 0,
        ;
    }
}

/// The quotient is no larger in magnitude than the dividend, and has its
/// sign or is zero.
pub proof fn lemma_tdiv_bound(a: int, b: int)
    requires
        b != 0,
    ensures
        abs_int(tdiv(a, b)) <= abs_int(a),
        abs_int(tdiv(a, b)) == abs_int(a) / abs_int(b),
        abs_int(tdiv(a, b)) * abs_int(b) <= abs_int(a),
{
    let n = abs_int(a);
    let d = abs_int(b);
    assert(0 <= n / d <= n && (n / d) * d <= n) by (nonlinear_arith)
        requires
            n >= 0,
            d > 0,
    ;
}

/// A dividend within `m` times the divisor gives a quotient within `m`.
pub proof fn lemma_tdiv_le(a: int, b: int, m: int)
    requires
        b != 0,
        abs_int(a) <= m * abs_int(b),
    ensures
        abs_int(tdiv(a, b)) <= m,
{
    let n = abs_int(a);
    let d = abs_int(b);
    assert(n / d <= m) by (nonlinear_arith)
        requires
            0 <= n <= m * d,
            d > 0,
    ;
}

/// Rounding toward zero moves the quotient by less than one: the product of
/// quotient and divisor differs from the dividend by less than the divisor.
pub proof fn lemma_tdiv_remainder(a: int, b: int)
    requires
        b > 0,
    ensures
        abs_int(a - b * tdiv(a, b)) < b,
        a >= 0 ==> 0 <= a - b * tdiv(a, b),
        a <= 0 ==> a - b * tdiv(a, b) <= 0,
{
    let n = abs_int(a);
    assert(0 <= n - b * (n / b) < b) by (nonlinear_arith)
        requires
            n >= 0,
            b > 0,
    ;
    if a < 0 {
        assert(b * (-(n / b)) == -(b * (n / b))) by (nonlinear_arith);
    }
}

/// A multiple of the divisor is divided without rounding.
pub proof fn lemma_tdiv_multiple(q: int, b: int)
    requires
        b > 0,
    ensures
        tdiv(b * q, b) == q,
{
    let n = abs_int(q);
    assert((b * n) / b == n) by (nonlinear_arith)
        requires
            b > 0,
            n >= 0,
    ;
    assert(b * n >= 0) by (nonlinear_arith)
        requires
            b > 0,
            n >= 0,
    ;
    if q < 0 {
        assert(b * q == -(b * n)) by (nonlinear_arith)
            requires
                n == -q,
        ;
        if n > 0 {
            assert(b * n > 0) by (nonlinear_arith)
                requires
                    b > 0,
                    n > 0,
            ;
        }
    }
}

/// Division rounding toward zero.
pub fn div_trunc(a: i128, b: i128) -> (r: i128)
    requires
        b != 0,
        a > i128::MIN,
        b > i128::MIN,
    ensures
        r == tdiv(a as int, b as int),
{
    let na: i128 = if a < 0 { -a } else { a };
    let nb: i128 = if b < 0 { -b } else { b };
    let q: i128 = na / nb;
    assert(0 <= q <= na) by (nonlinear_arith)
        requires
            q == na as int / nb as int,
            na >= 0,
            nb > 0,
    ;
    if (a < 0) != (b < 0) { -q } else { q }
}

/// The integer square root.
pub fn isqrt(n: u128) -> (r: u64)
    ensures
        is_floor_sqrt(n as int, r as int),
        r == floor_sqrt(n as int),
{
    let mut lo: u128 = 0;
    let mut hi: u128 = 0x1_0000_0000_0000_0000;
    assert(n < hi * hi) by (nonlinear_arith)
        requires
            hi == 0x1_0000_0000_0000_0000,
            n <= u128::MAX,
    ;
    while hi - lo > 1
        invariant
            lo < hi <= 0x1_0000_0000_0000_0000,
            lo * lo <= n < hi * hi,
        decreases hi - lo,
    {
        let mid: u128 = lo + (hi - lo) / 2;
        assert(mid * mid < 0x1_0000_0000_0000_0000 * 0x1_0000_0000_0000_0000) by (nonlinear_arith)
            requires
                0 <= mid < 0x1_0000_0000_0000_0000,
        ;
        if mid * mid <= n {
            lo = mid;
        } else {
            hi = mid;
        }
    }
    proof {
        lemma_floor_sqrt_is(n as int, lo as int);
    }
    lo as u64
}

} // verus!
