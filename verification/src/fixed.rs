//! Fixed-point scale, representable ranges and integer roots.

use vstd::prelude::*;

verus! {

/// Number of fractional bits of every fixed-point quantity.
pub const FRAC_BITS: u32 = 20;

/// The fixed-point representation of 1.
pub const UNIT: i64 = 1_048_576;

/// Largest magnitude of a position coordinate.
pub const POS_MAX: i64 = 4_294_967_296;

/// Largest magnitude of a velocity coordinate.
pub const SPEED_MAX: i64 = 16_777_216;

/// Largest mass of a body, and of a whole store.
pub const MASS_MAX: i64 = 4_294_967_296;

/// Largest time span.
pub const TIME_MAX: i64 = 4_294_967_296;

/// The gravitational constant is `1 / G_DEN`.
pub const G_DEN: i64 = 20;

/// The error of every operation whose exact result is not representable.
#[derive(Clone, Copy, Debug, PartialEq, Eq, Structural)]
pub struct OutOfRange;

/// Quotient rounded toward zero, for a positive divisor.
pub open spec fn trunc_div(a: int, b: int) -> int {
    if a >= 0 {
        a / b
    } else {
        -((-a) / b)
    }
}

/// `r` is the integer part of the square root of `x`.
pub open spec fn is_sqrt_floor(x: int, r: int) -> bool {
    0 <= r && r * r <= x < (r + 1) * (r + 1)
}

/// The integer part of the square root of `x`, for `x >= 0`.
pub open spec fn sqrt_floor(x: int) -> int {
    choose|r: int| is_sqrt_floor(x, r)
}

/// The least integer whose square is at least `x`, for `x >= 0`.
pub open spec fn sqrt_ceil(x: int) -> int {
    let r = sqrt_floor(x);
    if r * r == x {
        r
    } else {
        r + 1
    }
}

/// `r` is the integer part of the cube root of `x`.
pub open spec fn is_cbrt_floor(x: int, r: int) -> bool {
    0 <= r && r * r * r <= x < (r + 1) * (r + 1) * (r + 1)
}

/// The integer part of the cube root of `x`, for `x >= 0`.
pub open spec fn cbrt_floor(x: int) -> int {
    choose|r: int| is_cbrt_floor(x, r)
}

/// Squares of natural numbers grow with the numbers.
pub proof fn lemma_square_monotonic(a: int, b: int)
    by (nonlinear_arith)
    requires
        0 <= a <= b,
    ensures
        a * a <= b * b,
{
}

/// Cubes of natural numbers grow with the numbers.
pub proof fn lemma_cube_monotonic(a: int, b: int)
    by (nonlinear_arith)
    requires
        0 <= a <= b,
    ensures
        a * a * a <= b * b * b,
{
    assert(a * a <= b * b);
}

/// The integer square root is unique.
pub proof fn lemma_sqrt_floor_unique(x: int, r: int)
    requires
        is_sqrt_floor(x, r),
    ensures
        sqrt_floor(x) == r,
{
    let c = sqrt_floor(x);
    assert(is_sqrt_floor(x, c));
    if c < r {
        lemma_square_monotonic(c + 1, r);
    } else if r < c {
        lemma_square_monotonic(r + 1, c);
    }
}

/// The integer cube root is unique.
pub proof fn lemma_cbrt_floor_unique(x: int, r: int)
    requires
        is_cbrt_floor(x, r),
    ensures
        cbrt_floor(x) == r,
{
    let c = cbrt_floor(x);
    assert(is_cbrt_floor(x, c));
    if c < r {
        lemma_cube_monotonic(c + 1, r);
    } else if r < c {
        lemma_cube_monotonic(r + 1, c);
    }
}

/// Every natural number has an integer square root.
pub proof fn lemma_sqrt_exists(x: int)
    requires
        x >= 0,
    ensures
        is_sqrt_floor(x, sqrt_floor(x)),
    decreases x,
{
    if x == 0 {
        assert(is_sqrt_floor(0, 0));
    } else {
        lemma_sqrt_exists(x - 1);
        let r = sqrt_floor(x - 1);
        if (r + 1) * (r + 1) <= x {
            assert((r + 2) * (r + 2) > (r + 1) * (r + 1)) by (nonlinear_arith)
                requires
                    r >= 0,
            ;
            assert(is_sqrt_floor(x, r + 1));
        } else {
            assert(is_sqrt_floor(x, r));
        }
    }
}

/// The rounded-up square root is the least natural number whose square covers `x`.
pub proof fn lemma_sqrt_ceil_covers(x: int)
    requires
        x >= 0,
    ensures
        sqrt_ceil(x) >= 0,
        sqrt_ceil(x) * sqrt_ceil(x) >= x,
{
    lemma_sqrt_exists(x);
}

/// Integer part of the square root of a number of 64 bits, by bisection in
/// machine words.
fn isqrt_narrow(x: u64) -> (r: u64)
    ensures
        is_sqrt_floor(x as int, r as int),
{
    let mut lo: u64 = 0;
    let mut hi: u64 = 0x1_0000_0000;
    assert(0x1_0000_0000int * 0x1_0000_0000int > x) by (nonlinear_arith)
        requires
            x <= u64::MAX,
    ;
    while hi - lo > 1
        invariant
            lo < hi <= 0x1_0000_0000,
            lo * lo <= x < hi * hi,
        decreases hi - lo,
    {
        let mid: u64 = lo + (hi - lo) / 2;
        assert(mid * mid <= 0xffff_ffffint * 0xffff_ffffint) by {
            lemma_square_monotonic(mid as int, 0xffff_ffffint);
        }
        if mid * mid <= x {
            lo = mid;
        } else {
            hi = mid;
        }
    }
    lo
}

/// Integer part of the square root.
pub fn isqrt(x: u128) -> (r: u128)
    ensures
        r == sqrt_floor(x as int),
        is_sqrt_floor(x as int, r as int),
{
    if x <= 0xffff_ffff_ffff_ffff {
        let r: u64 = isqrt_narrow(x as u64);
        proof {
            lemma_sqrt_floor_unique(x as int, r as int);
        }
        return r as u128;
    }
    let mut lo: u128 = 0x1_0000_0000;
    let mut hi: u128 = 0x1_0000_0000_0000_0000;
    assert(0x1_0000_0000_0000_0000int * 0x1_0000_0000_0000_0000int > x) by (nonlinear_arith)
        requires
            x <= u128::MAX,
    ;
    assert(0x1_0000_0000int * 0x1_0000_0000int <= x) by (nonlinear_arith)
        requires
            x > 0xffff_ffff_ffff_ffff,
    ;
    while hi - lo > 1
        invariant
            lo < hi <= 0x1_0000_0000_0000_0000,
            lo * lo <= x < hi * hi,
        decreases hi - lo,
    {
        let mid: u128 = lo + (hi - lo) / 2;
        assert(mid * mid <= 0xffff_ffff_ffff_ffffint * 0xffff_ffff_ffff_ffffint) by {
            lemma_square_monotonic(mid as int, 0xffff_ffff_ffff_ffffint);
        }
        if mid * mid <= x {
            lo = mid;
        } else {
            hi = mid;
        }
    }
    proof {
        lemma_sqrt_floor_unique(x as int, lo as int);
    }
    lo
}

/// Least integer whose square is at least `x`.
pub fn isqrt_ceil(x: u128) -> (r: u128)
    ensures
        r == sqrt_ceil(x as int),
        r <= 0x1_0000_0000_0000_0000,
{
    let r: u128 = isqrt(x);
    assert(r < 0x1_0000_0000_0000_0000) by {
        if r >= 0x1_0000_0000_0000_0000 {
            lemma_square_monotonic(0x1_0000_0000_0000_0000int, r as int);
        }
    }
    assert(r * r <= x);
    if r * r == x {
        r
    } else {
        r + 1
    }
}

/// Integer part of the cube root.
pub fn icbrt(x: u128) -> (r: u128)
    requires
        x < 0x1_0000_0000_0000_0000_0000_0000,
    ensures
        r == cbrt_floor(x as int),
        is_cbrt_floor(x as int, r as int),
        r < 0x1_0000_0000,
{
    let mut lo: u128 = 0;
    let mut hi: u128 = 0x1_0000_0000;
    assert(0x1_0000_0000int * 0x1_0000_0000int * 0x1_0000_0000int
        == 0x1_0000_0000_0000_0000_0000_0000int) by (nonlinear_arith);
    while hi - lo > 1
        invariant
            lo < hi <= 0x1_0000_0000,
            lo * lo * lo <= x < hi * hi * hi,
        decreases hi - lo,
    {
        let mid: u128 = lo + (hi - lo) / 2;
        assert(mid * mid <= 0x1_0000_0000int * 0x1_0000_0000int) by {
            lemma_square_monotonic(mid as int, 0x1_0000_0000int);
        }
        assert(mid * mid * mid <= 0x1_0000_0000int * 0x1_0000_0000int * 0x1_0000_0000int) by {
            lemma_cube_monotonic(mid as int, 0x1_0000_0000int);
        }
        assert(0x1_0000_0000int * 0x1_0000_0000int == 0x1_0000_0000_0000_0000int)
            by (nonlinear_arith);
        if mid * mid * mid <= x {
            lo = mid;
        } else {
            hi = mid;
        }
    }
    proof {
        lemma_cbrt_floor_unique(x as int, lo as int);
    }
    lo
}

/// Quotient rounded toward negative infinity.
pub fn floor_div(a: i128, b: i128) -> (q: i128)
    requires
        b > 0,
        a > i128::MIN,
    ensures
        q == a as int / b as int,
{
    if a >= 0 {
        a / b
    } else {
        let n: i128 = -a;
        let q: i128 = n / b;
        let m: i128 = n % b;
        proof {
            lemma_floor_of_negative(n as int, b as int);
        }
        if m == 0 {
            -q
        } else {
            -q - 1
        }
    }
}

/// How the floor of `-n / b` follows from the quotient and remainder of `n / b`.
pub proof fn lemma_floor_of_negative(n: int, b: int)
    requires
        n >= 0,
        b > 0,
    ensures
        (-n) / b == if n % b == 0 {
            -(n / b)
        } else {
            -(n / b) - 1
        },
{
    let q = n / b;
    let m = n % b;
    assert(n == b * q + m && 0 <= m < b) by {
        vstd::arithmetic::div_mod::lemma_fundamental_div_mod(n, b);
        vstd::arithmetic::div_mod::lemma_mod_bound(n, b);
    }
    if m == 0 {
        assert(-n == b * (-q)) by (nonlinear_arith)
            requires
                n == b * q,
        ;
        vstd::arithmetic::div_mod::lemma_fundamental_div_mod_converse(-n, b, -q, 0);
    } else {
        assert(-n == b * (-q - 1) + (b - m)) by (nonlinear_arith)
            requires
                n == b * q + m,
        ;
        vstd::arithmetic::div_mod::lemma_fundamental_div_mod_converse(-n, b, -q - 1, b - m);
    }
}

/// A quotient rounded toward zero stays between integer bounds of the exact quotient.
pub proof fn lemma_trunc_div_between(n: int, d: int, lo: int, hi: int)
    requires
        d > 0,
        d * lo <= n <= d * hi,
    ensures
        lo <= trunc_div(n, d) <= hi,
{
    if n >= 0 {
        vstd::arithmetic::div_mod::lemma_div_pos_is_pos(n, d);
        vstd::arithmetic::div_mod::lemma_div_is_ordered(n, d * hi, d);
        vstd::arithmetic::div_mod::lemma_div_multiples_vanish(hi, d);
        if lo > 0 {
            vstd::arithmetic::div_mod::lemma_div_is_ordered(d * lo, n, d);
            vstd::arithmetic::div_mod::lemma_div_multiples_vanish(lo, d);
        }
    } else {
        vstd::arithmetic::div_mod::lemma_div_pos_is_pos(-n, d);
        assert(d * (-lo) == -(d * lo) && d * (-hi) == -(d * hi)) by (nonlinear_arith);
        vstd::arithmetic::div_mod::lemma_div_is_ordered(-n, d * (-lo), d);
        vstd::arithmetic::div_mod::lemma_div_multiples_vanish(-lo, d);
        if hi < 0 {
            vstd::arithmetic::div_mod::lemma_div_is_ordered(d * (-hi), -n, d);
            vstd::arithmetic::div_mod::lemma_div_multiples_vanish(-hi, d);
        }
    }
}

/// Rounding a quotient toward zero loses less than one divisor, on the side of zero.
pub proof fn lemma_trunc_div_error(n: int, d: int)
    requires
        d > 0,
    ensures
        n >= 0 ==> 0 <= n - d * trunc_div(n, d) < d,
        n <= 0 ==> 0 <= d * trunc_div(n, d) - n < d,
{
    if n >= 0 {
        vstd::arithmetic::div_mod::lemma_fundamental_div_mod(n, d);
        vstd::arithmetic::div_mod::lemma_mod_bound(n, d);
    } else {
        vstd::arithmetic::div_mod::lemma_fundamental_div_mod(-n, d);
        vstd::arithmetic::div_mod::lemma_mod_bound(-n, d);
        assert(d * (-((-n) / d)) == -(d * ((-n) / d))) by (nonlinear_arith);
    }
}

} // verus!
