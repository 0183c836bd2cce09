//! Fixed-point scalars.
//!
//! Every physical quantity of the simulation (a coordinate, a velocity
//! component, a mass, a radius, a time step) is a signed integer that counts
//! multiples of `1 / SCALE` of its unit. Stored quantities stay within
//! `-LIMIT ..= LIMIT`; arithmetic is carried out in wider integers and the
//! result is brought back into that range by saturation.

use vstd::prelude::*;

verus! {

/// The raw value that stands for one unit.
pub const SCALE: i64 = 65536;

/// The largest magnitude a stored quantity may have (16384 units).
pub const LIMIT: i64 = 1_073_741_824;

/// Whether `v` is within the range of stored quantities.
pub open spec fn in_range(v: int) -> bool {
    -LIMIT <= v <= LIMIT
}

/// `v` saturated to the range of stored quantities.
pub open spec fn clamp(v: int) -> int {
    if v < -LIMIT {
        -(LIMIT as int)
    } else if v > LIMIT {
        LIMIT as int
    } else {
        v
    }
}

/// The quotient `n / d` rounded toward zero, for a positive divisor.
pub open spec fn div_toward_zero(n: int, d: int) -> int {
    if n >= 0 {
        n / d
    } else {
        -((-n) / d)
    }
}

/// The quotient `n / d` rounded away from zero, for a positive divisor.
pub open spec fn div_away_from_zero(n: int, d: int) -> int {
    if n >= 0 {
        (n + d - 1) / d
    } else {
        -((-n + d - 1) / d)
    }
}

/// Whether `r` is the integer square root of `n`, rounded down.
pub open spec fn is_sqrt_floor(n: int, r: int) -> bool {
    0 <= r && r * r <= n < (r + 1) * (r + 1)
}

/// The integer square root of `n`, rounded down.
pub open spec fn sqrt_floor(n: int) -> int {
    choose|r: int| is_sqrt_floor(n, r)
}

/// A product is bounded by the product of the bounds of its factors.
pub proof fn lemma_product_bound(a: int, b: int, a_max: int, b_max: int)
    by (nonlinear_arith)
    requires
        -a_max <= a <= a_max,
        -b_max <= b <= b_max,
    ensures
        -(a_max * b_max) <= a * b <= a_max * b_max,
{
}

/// At most one integer is the rounded-down square root of `n`.
pub proof fn lemma_sqrt_floor_unique(n: int, r: int)
    requires
        is_sqrt_floor(n, r),
    ensures
        sqrt_floor(n) == r,
{
    let s = sqrt_floor(n);
    assert(is_sqrt_floor(n, s));
    assert(s == r) by (nonlinear_arith)
        requires
            0 <= r,
            0 <= s,
            r * r <= n < (r + 1) * (r + 1),
            s * s <= n < (s + 1) * (s + 1),
    ;
}

/// Every natural number has a rounded-down square root.
pub proof fn lemma_sqrt_floor_exists(n: int)
    requires
        n >= 0,
    ensures
        is_sqrt_floor(n, sqrt_floor(n)),
    decreases n,
{
    if n == 0 {
        assert(is_sqrt_floor(0, 0));
    } else {
        lemma_sqrt_floor_exists(n - 1);
        let r = sqrt_floor(n - 1);
        if n < (r + 1) * (r + 1) {
            assert(is_sqrt_floor(n, r));
        } else {
            assert(is_sqrt_floor(n, r + 1)) by (nonlinear_arith)
                requires
                    0 <= r,
                    r * r <= n - 1,
                    n - 1 < (r + 1) * (r + 1),
                    n >= (r + 1) * (r + 1),
            ;
        }
    }
}

/// Rounding toward zero is odd: negating the dividend negates the quotient.
pub proof fn lemma_div_toward_zero_odd(n: int, d: int)
    requires
        d > 0,
    ensures
        div_toward_zero(-n, d) == -div_toward_zero(n, d),
{
    if n == 0 {
        assert(0int / d == 0) by (nonlinear_arith)
            requires
                d > 0,
        ;
    }
}

/// Rounding away from zero is odd: negating the dividend negates the quotient.
pub proof fn lemma_div_away_from_zero_odd(n: int, d: int)
    requires
        d > 0,
    ensures
        div_away_from_zero(-n, d) == -div_away_from_zero(n, d),
{
    if n == 0 {
        assert((0int + d - 1) / d == 0) by (nonlinear_arith)
            requires
                d > 0,
        ;
    }
}

/// What rounding toward zero leaves over: the remainder is smaller than the
/// divisor and has the sign of the dividend.
pub proof fn lemma_div_toward_zero_remainder(n: int, d: int)
    requires
        d > 0,
    ensures
        n >= 0 ==> 0 <= n - div_toward_zero(n, d) * d < d,
        n <= 0 ==> -d < n - div_toward_zero(n, d) * d <= 0,
{
    if n >= 0 {
        assert(0 <= n - (n / d) * d < d) by (nonlinear_arith)
            requires
                d > 0,
        ;
    } else {
        let m = -n;
        assert(0 <= m - (m / d) * d < d) by (nonlinear_arith)
            requires
                d > 0,
        ;
        assert((-(m / d)) * d == -((m / d) * d)) by (nonlinear_arith);
    }
}

/// What rounding away from zero adds: the quotient times the divisor reaches
/// the dividend in magnitude and overshoots it by less than the divisor.
pub proof fn lemma_div_away_from_zero_covers(n: int, d: int)
    requires
        d > 0,
    ensures
        n >= 0 ==> n <= div_away_from_zero(n, d) * d < n + d,
        n <= 0 ==> n - d < div_away_from_zero(n, d) * d <= n,
{
    if n >= 0 {
        let m = n + d - 1;
        assert(0 <= m - (m / d) * d < d) by (nonlinear_arith)
            requires
                d > 0,
        ;
        if n == 0 {
            assert((d - 1) / d == 0) by (nonlinear_arith)
                requires
                    d > 0,
            ;
        }
    } else {
        let m = -n + d - 1;
        assert(0 <= m - (m / d) * d < d) by (nonlinear_arith)
            requires
                d > 0,
        ;
        assert((-(m / d)) * d == -((m / d) * d)) by (nonlinear_arith);
    }
}

/// Saturates a wide intermediate result to the range of stored quantities.
pub fn saturate(v: i128) -> (r: i64)
    ensures
        r == clamp(v as int),
        in_range(r as int),
{
    if v < -(LIMIT as i128) {
        -LIMIT
    } else if v > LIMIT as i128 {
        LIMIT
    } else {
        v as i64
    }
}

/// Divides by a positive divisor, rounding toward zero.
pub fn divide_toward_zero(n: i128, d: i128) -> (q: i128)
    requires
        d > 0,
    ensures
        q == div_toward_zero(n as int, d as int),
{
    n / d
}

/// Divides by a positive divisor, rounding away from zero.
pub fn divide_away_from_zero(n: i128, d: i128) -> (q: i128)
    requires
        d > 0,
        -i128::MAX <= n - d,
        n + d <= i128::MAX,
    ensures
        q == div_away_from_zero(n as int, d as int),
{
    if n >= 0 {
        (n + d - 1) / d
    } else {
        -((-n + d - 1) / d)
    }
}

/// Computes the integer square root of `n`, rounded down.
pub fn isqrt(n: u128) -> (r: u128)
    ensures
        r == sqrt_floor(n as int),
        is_sqrt_floor(n as int, r as int),
{
    let mut low: u128 = 0;
    let mut high: u128 = 0x1_0000_0000_0000_0000;
    assert(0x1_0000_0000_0000_0000int * 0x1_0000_0000_0000_0000int > n) by (nonlinear_arith)
        requires
            n <= u128::MAX,
    ;
    while high - low > 1
        invariant
            low < high <= 0x1_0000_0000_0000_0000,
            low * low <= n,
            n < high * high,
        decreases high - low,
    {
        let middle: u128 = low + (high - low) / 2;
        assert(middle * middle <= 0xFFFF_FFFF_FFFF_FFFFint * 0xFFFF_FFFF_FFFF_FFFFint)
            by (nonlinear_arith)
            requires
                0 <= middle <= 0xFFFF_FFFF_FFFF_FFFF,
        ;
        if middle * middle <= n {
            low = middle;
        } else {
            high = middle;
        }
    }
    proof {
        assert(high == low + 1);
        lemma_sqrt_floor_unique(n as int, low as int);
    }
    low
}

} // verus!
