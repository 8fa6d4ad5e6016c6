//! Fixed-point scalar arithmetic.
//!
//! Every quantity of the simulation is a signed 64-bit integer holding a
//! real number scaled by `SCALE`: the value one is stored as `SCALE`.
//! Products and quotients of such quantities truncate toward zero, exactly
//! as the spec functions here state, so the whole force model is a pure
//! function of its integer inputs.

use vstd::prelude::*;
use vstd::arithmetic::div_mod::lemma_fundamental_div_mod;

verus! {

/// The fixed-point scale: one whole unit.
pub const SCALE: i64 = 1000;

/// Largest magnitude allowed for a coordinate handed to the vector
/// operations that square their inputs; keeps `x*x + y*y` inside `i64`.
pub const COORD_LIMIT: i64 = 1_000_000_000;

/// Truncated (toward zero) division, the semantics of `/` on machine integers.
pub open spec fn tdiv(a: int, b: int) -> int {
    if a >= 0 {
        a / b
    } else {
        -((-a) / b)
    }
}

/// Fixed-point product: `a * b` scaled back down by `SCALE`.
pub open spec fn fp_mul(a: int, b: int) -> int {
    tdiv(a * b, SCALE as int)
}

/// Absolute value of a mathematical integer.
pub open spec fn abs(a: int) -> int {
    if a >= 0 {
        a
    } else {
        -a
    }
}

/// `r` is the integer square root of `n`.
pub open spec fn is_sqrt(n: int, r: int) -> bool {
    &&& 0 <= r
    &&& r * r <= n
    &&& n < (r + 1) * (r + 1)
}

/// The integer square root, the unique `r` with `r*r <= n < (r+1)*(r+1)`.
pub open spec fn sqrt_i(n: int) -> int {
    choose|r: int| is_sqrt(n, r)
}

/// The magnitude of a truncated quotient is bounded by the quotient of
/// the magnitudes.
pub proof fn lemma_tdiv_abs(a: int, b: int)
    by (nonlinear_arith)
    requires
        b > 0,
    ensures
        abs(tdiv(a, b)) == abs(a) / b,
        abs(tdiv(a, b)) <= abs(a),
        a >= 0 ==> tdiv(a, b) >= 0,
        a <= 0 ==> tdiv(a, b) <= 0,
{
}

/// Bound on a product from bounds on its factors.
pub proof fn lemma_mul_abs_bound(a: int, b: int, ca: int, cb: int)
    by (nonlinear_arith)
    requires
        abs(a) <= ca,
        abs(b) <= cb,
    ensures
        abs(a * b) <= ca * cb,
        a * b <= ca * cb,
        -(ca * cb) <= a * b,
{
}

/// Bound on a fixed-point product from bounds on its factors.
pub proof fn lemma_fp_mul_bound(a: int, b: int, ca: int, cb: int)
    requires
        abs(a) <= ca,
        abs(b) <= cb,
    ensures
        abs(fp_mul(a, b)) <= ca * cb / (SCALE as int),
{
    lemma_mul_abs_bound(a, b, ca, cb);
    lemma_tdiv_abs(a * b, SCALE as int);
    assert(abs(a * b) / (SCALE as int) <= ca * cb / (SCALE as int)) by (nonlinear_arith)
        requires
            abs(a * b) <= ca * cb,
        ;
}

/// The integer square root is unique.
pub proof fn lemma_sqrt_unique(n: int, r: int)
    by (nonlinear_arith)
    requires
        is_sqrt(n, r),
    ensures
        sqrt_i(n) == r,
{
    assert forall|r2: int| is_sqrt(n, r2) implies r2 == r by {
        if r2 < r {
            assert((r2 + 1) * (r2 + 1) <= r * r);
        }
        if r2 > r {
            assert((r + 1) * (r + 1) <= r2 * r2);
        }
    }
    assert(is_sqrt(n, sqrt_i(n)));
}

/// Every non-negative integer has a square root.
pub proof fn lemma_sqrt_exists(n: nat)
    ensures
        is_sqrt(n as int, sqrt_i(n as int)),
    decreases n,
{
    if n == 0 {
        assert(is_sqrt(0, 0));
        lemma_sqrt_unique(0, 0);
    } else {
        lemma_sqrt_exists((n - 1) as nat);
        let r = sqrt_i(n - 1);
        if n < (r + 1) * (r + 1) {
            assert(is_sqrt(n as int, r));
            lemma_sqrt_unique(n as int, r);
        } else {
            assert(r * r <= n - 1);
            assert(n == (r + 1) * (r + 1));
            assert((r + 1) * (r + 1) < (r + 2) * (r + 2)) by (nonlinear_arith)
                requires
                    r >= 0,
                ;
            assert(is_sqrt(n as int, r + 1));
            lemma_sqrt_unique(n as int, r + 1);
        }
    }
}

/// The square root is monotone.
pub proof fn lemma_sqrt_monotone(a: nat, b: nat)
    requires
        a <= b,
    ensures
        sqrt_i(a as int) <= sqrt_i(b as int),
{
    lemma_sqrt_exists(a);
    lemma_sqrt_exists(b);
    let ra = sqrt_i(a as int);
    let rb = sqrt_i(b as int);
    if ra > rb {
        assert((rb + 1) * (rb + 1) <= ra * ra) by (nonlinear_arith)
            requires
                0 <= rb,
                rb + 1 <= ra,
            ;
    }
}

/// Integer square root by bisection.
pub fn isqrt(n: u64) -> (r: u64)
    ensures
        is_sqrt(n as int, r as int),
        r == sqrt_i(n as int),
        r < 4294967296,
{
    let mut lo: u64 = 0;
    let mut hi: u64 = 4294967296;
    assert((hi as int) * (hi as int) > n as int) by (nonlinear_arith)
        requires
            hi == 4294967296,
            n <= u64::MAX,
        ;
    while hi - lo > 1
        invariant
            lo < hi <= 4294967296,
            (lo as int) * (lo as int) <= n as int,
            (n as int) < (hi as int) * (hi as int),
        decreases hi - lo,
    {
        let mid: u64 = lo + (hi - lo) / 2;
        assert((mid as int) * (mid as int) <= 0x1_0000_0000_0000_0000_0000 as int) by (nonlinear_arith)
            requires
                mid <= 4294967296,
            ;
        let msq: u128 = (mid as u128) * (mid as u128);
        if msq <= n as u128 {
            lo = mid;
        } else {
            hi = mid;
        }
    }
    proof {
        lemma_sqrt_unique(n as int, lo as int);
    }
    lo
}

/// Floor division: rounds toward negative infinity, as the spec-level `/` does.
pub fn fdiv(a: i64, b: i64) -> (r: i64)
    requires
        1 <= b,
        -0x4000_0000_0000_0000 <= a <= 0x4000_0000_0000_0000,
        b <= 0x4000_0000_0000_0000,
    ensures
        r == a as int / b as int,
{
    if a >= 0 {
        a / b
    } else {
        let q = ((-a) + (b - 1)) / b;
        assert(-(q as int) == a as int / b as int) by (nonlinear_arith)
            requires
                a < 0,
                b >= 1,
                q == ((-a) + (b - 1)) as int / b as int,
        ;
        -q
    }
}

/// Euclidean remainder by repeated correction, as the spec-level `%` has it.
pub fn emod(a: i64, n: i64) -> (r: i64)
    requires
        1 <= n <= 0x4000_0000_0000_0000,
        -0x4000_0000_0000_0000 <= a <= 0x4000_0000_0000_0000,
    ensures
        r == a as int % n as int,
        0 <= r < n,
{
    let q = fdiv(a, n);
    proof {
        lemma_fundamental_div_mod(a as int, n as int);
        lemma_mod_range(a as int, n as int);
        lemma_mul_abs_bound(q as int, n as int, abs(q as int), abs(n as int));
        lemma_tdiv_abs(a as int, n as int);
    }
    let p: i64 = a - q * n;
    p
}

/// The Euclidean remainder lies in `[0, n)`.
pub proof fn lemma_mod_range(a: int, n: int)
    by (nonlinear_arith)
    requires
        n > 0,
    ensures
        0 <= a % n < n,
        abs(a / n) <= abs(a),
{
}

/// Fixed-point multiplication; the product is formed in 128 bits, so the
/// only demand is that the rescaled result fit back into 64.
pub fn mul_fp(a: i64, b: i64) -> (r: i64)
    requires
        abs(fp_mul(a as int, b as int)) <= i64::MAX as int,
    ensures
        r == fp_mul(a as int, b as int),
{
    let p: i128 = (a as i128) * (b as i128);
    let q: i128 = p / (SCALE as i128);
    proof {
        lemma_tdiv_abs(p as int, SCALE as int);
    }
    q as i64
}

/// `floor(e^n * SCALE)` for whole exponents `n` in `[0, 10]`.
pub open spec fn exp_int_spec(n: int) -> int {
    if n <= 0 {
        1000
    } else if n == 1 {
        2718
    } else if n == 2 {
        7389
    } else if n == 3 {
        20085
    } else if n == 4 {
        54598
    } else if n == 5 {
        148413
    } else if n == 6 {
        403428
    } else if n == 7 {
        1096633
    } else if n == 8 {
        2980957
    } else if n == 9 {
        8103083
    } else {
        22026465
    }
}

/// Cubic polynomial approximation of `e^r` on a fractional argument.
pub open spec fn exp_poly_spec(r: int) -> int {
    1000 + r + tdiv(r * r, 2000) + tdiv(tdiv(r * r, 1000) * r, 6000)
}

/// The value computed by `exp_fp`: table entry for the whole part of the
/// exponent, polynomial for the fractional part.
pub open spec fn exp_fp_spec(x: int) -> int {
    tdiv(exp_int_spec(x / 1000) * exp_poly_spec(x % 1000), 1000)
}

/// Fixed-point approximation of `e^x` for `x` in `[0, 10]` (fixed point).
/// The result is at least one, so it can guard a denominator.
pub fn exp_fp(x: i64) -> (r: i64)
    requires
        0 <= x <= 10 * SCALE,
    ensures
        r == exp_fp_spec(x as int),
        SCALE <= r <= 100_000_000,
{
    let n: i64 = x / 1000;
    let fr: i64 = x % 1000;
    let e_int: i64 = if n <= 0 {
        1000
    } else if n == 1 {
        2718
    } else if n == 2 {
        7389
    } else if n == 3 {
        20085
    } else if n == 4 {
        54598
    } else if n == 5 {
        148413
    } else if n == 6 {
        403428
    } else if n == 7 {
        1096633
    } else if n == 8 {
        2980957
    } else if n == 9 {
        8103083
    } else {
        22026465
    };
    assert(0 <= fr < 1000);
    proof {
        lemma_mul_abs_bound(fr as int, fr as int, 1000, 1000);
    }
    let r2: i64 = fr * fr;
    proof {
        lemma_mul_abs_bound(r2 as int / 1000, fr as int, 1000, 1000);
    }
    let poly: i64 = 1000 + fr + r2 / 2000 + (r2 / 1000) * fr / 6000;
    assert(poly == exp_poly_spec(fr as int));
    assert(1000 <= poly <= 2800);
    proof {
        lemma_mul_abs_bound(e_int as int, poly as int, 22026465, 2800);
        assert(e_int as int * poly as int >= 1000 * 1000) by (nonlinear_arith)
            requires
                e_int >= 1000,
                poly >= 1000,
            ;
        lemma_tdiv_abs(e_int as int * poly as int, 1000);
    }
    let prod: i64 = e_int * poly;
    let r = prod / 1000;
    assert(r >= SCALE);
    r
}

/// Clamp a value into `[-c, c]`.
pub fn clamp_i64(x: i64, c: i64) -> (r: i64)
    requires
        c >= 0,
    ensures
        r == clamp_spec(x as int, c as int),
        abs(r as int) <= c,
{
    if x > c {
        c
    } else if x < -c {
        -c
    } else {
        x
    }
}

/// The value of `clamp_i64`.
pub open spec fn clamp_spec(x: int, c: int) -> int {
    if x > c {
        c
    } else if x < -c {
        -c
    } else {
        x
    }
}

} // verus!
