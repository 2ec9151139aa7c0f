//! Fixed-point numeric foundations: the parametric scale, coordinate
//! limits, Euclidean (floor) division helpers and an exact integer
//! square root.

use vstd::prelude::*;
use vstd::arithmetic::div_mod::{
    lemma_div_multiples_vanish, lemma_fundamental_div_mod,
    lemma_div_is_ordered,
    lemma_div_pos_is_pos, lemma_div_nonincreasing,
};

verus! {

/// One whole unit of the parametric scale: a parameter `t` in
/// `[0, T_ONE]` stands for the real parameter `t / T_ONE` in `[0, 1]`.
pub const T_ONE: i64 = 65536;

/// `T_ONE` squared, the scale of quadratic Bernstein weights.
pub const T2: i128 = 4294967296;

/// `T_ONE` cubed, the scale of cubic Bernstein weights.
pub const T3: i128 = 281474976710656;

/// Largest coordinate magnitude a well-formed path may hold.
pub const COORD_LIMIT: i64 = 2147483648;

/// Largest coordinate magnitude (and offset distance) accepted by the
/// offsetting and outlining operations; their results then stay within
/// `COORD_LIMIT` and form well-formed paths again.
pub const GEOM_LIMIT: i64 = 1073741824;

/// Floor of the real square root of `n`: the unique `r >= 0` with
/// `r * r <= n < (r + 1) * (r + 1)` (see `lemma_sqrt_floor`).
pub open spec fn sqrt_floor(n: nat) -> nat
    decreases n,
{
    if n < 1 {
        0
    } else {
        let h = 2 * sqrt_floor(n / 4);
        if (h + 1) * (h + 1) <= n {
            h + 1
        } else {
            h
        }
    }
}

/// The defining bracket of `sqrt_floor`.
pub proof fn lemma_sqrt_floor(n: nat)
    ensures
        sqrt_floor(n) * sqrt_floor(n) <= n,
        n < (sqrt_floor(n) + 1) * (sqrt_floor(n) + 1),
    decreases n,
{
    if n < 1 {
        assert(sqrt_floor(n) == 0);
        assert((0nat + 1) * (0nat + 1) == 1) by (nonlinear_arith);
        assert(n < (sqrt_floor(n) + 1) * (sqrt_floor(n) + 1));
    } else {
        let m = n / 4;
        lemma_sqrt_floor(m);
        let r = sqrt_floor(m);
        lemma_fundamental_div_mod(n as int, 4);
        assert(n == 4 * m + n % 4);
        assert(n % 4 < 4);
        // 4 * (r * r) <= 4 * m <= n
        assert((2 * r) * (2 * r) == 4 * (r * r)) by (nonlinear_arith);
        assert(4 * (r * r) <= 4 * m) by (nonlinear_arith)
            requires r * r <= m;
        // n < 4 * (r + 1) * (r + 1)
        assert(4 * ((r + 1) * (r + 1)) == (2 * r + 2) * (2 * r + 2)) by (nonlinear_arith);
        assert(4 * m + 3 < 4 * ((r + 1) * (r + 1))) by (nonlinear_arith)
            requires m < (r + 1) * (r + 1);
        let h = 2 * r;
        assert(h * h <= n);
        assert(n < (h + 2) * (h + 2));
        if (h + 1) * (h + 1) <= n {
            assert(sqrt_floor(n) == h + 1);
            assert((h + 1 + 1) * (h + 1 + 1) == (h + 2) * (h + 2)) by (nonlinear_arith);
            assert(n < (sqrt_floor(n) + 1) * (sqrt_floor(n) + 1));
        } else {
            assert(sqrt_floor(n) == h);
            assert(n < (h + 1) * (h + 1));
            assert(n < (sqrt_floor(n) + 1) * (sqrt_floor(n) + 1));
        }
    }
}

/// `sqrt_floor` is the only value inside its bracket.
pub proof fn lemma_sqrt_floor_unique(n: nat, r: nat)
    requires
        r * r <= n,
        n < (r + 1) * (r + 1),
    ensures
        r == sqrt_floor(n),
{
    lemma_sqrt_floor(n);
    let s = sqrt_floor(n);
    if r < s {
        assert((r + 1) * (r + 1) <= s * s) by (nonlinear_arith)
            requires r + 1 <= s;
        assert(false);
    }
    if s < r {
        assert((s + 1) * (s + 1) <= r * r) by (nonlinear_arith)
            requires s + 1 <= r;
        assert(false);
    }
}

/// Exact integer square root of a `u128`, by bounded binary search.
pub fn isqrt_u128(n: u128) -> (r: u64)
    requires
        n < 0x10000000000000000000000000000,
    ensures
        r == sqrt_floor(n as nat),
        r * r <= n < (r + 1) * (r + 1),
{
    let mut lo: u64 = 0;
    let mut hi: u64 = 0x100000000000000;
    proof {
        assert((0x100000000000000int) * (0x100000000000000int)
            == 0x10000000000000000000000000000int) by (nonlinear_arith);
    }
    while lo + 1 < hi
        invariant
            lo < hi,
            hi <= 0x100000000000000,
            (lo as int) * (lo as int) <= n as int,
            (n as int) < (hi as int) * (hi as int),
        decreases hi - lo,
    {
        let mid: u64 = lo + (hi - lo) / 2;
        assert(lo < mid < hi);
        proof {
            assert((mid as int) * (mid as int) < 0x100000000000000000000000000000000int)
                by (nonlinear_arith)
                requires 0 <= (mid as int), (mid as int) < 0x100000000000000int;
        }
        let sq: u128 = (mid as u128) * (mid as u128);
        if sq <= n {
            lo = mid;
        } else {
            hi = mid;
        }
    }
    proof {
        assert(hi == lo + 1);
        lemma_sqrt_floor_unique(n as nat, lo as nat);
    }
    lo
}

/// Magnitude bound of a product from magnitude bounds of its factors.
pub proof fn lemma_mul_range(a: int, b: int, am: int, bm: int)
    requires
        -am <= a <= am,
        -bm <= b <= bm,
        0 <= am,
        0 <= bm,
    ensures
        -(am * bm) <= a * b <= am * bm,
{
    assert(-(am * bm) <= a * b <= am * bm) by (nonlinear_arith)
        requires -am <= a <= am, -bm <= b <= bm, 0 <= am, 0 <= bm;
}

/// Magnitude bound of a floor quotient from a magnitude bound of the
/// numerator stated as a multiple of the divisor.
pub proof fn lemma_div_range(num: int, d: int, bound: int)
    requires
        d > 0,
        0 <= bound,
        -(d * bound) <= num <= d * bound,
    ensures
        -bound <= num / d <= bound,
{
    lemma_div_multiples_vanish(bound, d);
    lemma_div_multiples_vanish(-bound, d);
    assert(d * (-bound) == -(d * bound)) by (nonlinear_arith);
    lemma_div_is_ordered(num, d * bound, d);
    lemma_div_is_ordered(d * (-bound), num, d);
}

/// Euclidean (floor) division of an `i128` by a positive divisor;
/// matches the `/` of specifications, which rounds toward minus
/// infinity for a positive divisor.
pub fn div_floor_i128(a: i128, b: i128) -> (q: i128)
    requires
        b > 0,
        a > i128::MIN,
    ensures
        q == a as int / b as int,
{
    proof {
        let qq = a as int / b as int;
        if a >= 0 {
            lemma_div_pos_is_pos(a as int, b as int);
            lemma_div_nonincreasing(a as int, b as int);
            assert(0 <= qq <= a);
        } else {
            lemma_fundamental_div_mod(a as int, b as int);
            let rr = a as int % b as int;
            assert(a == b * qq + rr);
            if qq > 0 {
                assert(b * qq + rr > 0) by (nonlinear_arith)
                    requires b > 0, qq > 0, rr >= 0;
                assert(false);
            }
            // qq <= 0 and a == b * qq + rr with 0 <= rr < b gives qq >= a
            assert(qq >= b * qq) by (nonlinear_arith)
                requires b > 0, qq <= 0;
            if qq < 0 {
                assert(qq >= b * qq + rr) by (nonlinear_arith)
                    requires qq <= -1, b >= 1, 0 <= rr, rr < b;
            }
            assert(a <= qq <= 0);
        }
    }
    match a.checked_div_euclid(b) {
        Some(q) => q,
        None => 0,  // unreachable: the quotient always fits
    }
}

/// Euclidean (floor) division of an `i64` by a positive divisor.
pub fn div_floor_i64(a: i64, b: i64) -> (q: i64)
    requires
        b > 0,
        a > i64::MIN,
    ensures
        q == a as int / b as int,
{
    let q = div_floor_i128(a as i128, b as i128);
    proof {
        if a >= 0 {
            lemma_div_pos_is_pos(a as int, b as int);
            lemma_div_nonincreasing(a as int, b as int);
        } else {
            lemma_fundamental_div_mod(a as int, b as int);
            let qq = a as int / b as int;
            let rr = a as int % b as int;
            assert(a == b * qq + rr);
            if qq > 0 {
                assert(b * qq + rr > 0) by (nonlinear_arith)
                    requires b > 0, qq > 0, rr >= 0;
                assert(false);
            }
            if qq < 0 {
                assert(qq >= b * qq + rr) by (nonlinear_arith)
                    requires qq <= -1, b >= 1, 0 <= rr, rr < b;
            }
            assert(a <= qq <= 0);
        }
    }
    q as i64
}

/// Euclidean remainder of a non-negative value against a positive
/// divisor, derived from `div_floor_i64`.
pub fn mod_floor_i64(a: i64, b: i64) -> (r: i64)
    requires
        b > 0,
        a >= 0,
    ensures
        r == a as int % b as int,
{
    let q = div_floor_i64(a, b);
    proof {
        lemma_fundamental_div_mod(a as int, b as int);
        lemma_div_pos_is_pos(a as int, b as int);
        assert(0 <= (a as int % b as int) && (a as int % b as int) < b);
        assert(b * q <= a) by (nonlinear_arith)
            requires b > 0, q >= 0, (a as int) == b * q + a as int % b as int,
                a as int % b as int >= 0;
        assert(b * q >= 0) by (nonlinear_arith)
            requires b > 0, q >= 0;
    }
    a - b * q
}

} // verus!
