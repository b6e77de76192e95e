//! Saturating fixed-point scalar arithmetic shared by the whole simulation.
//!
//! Every quantity is a signed 64-bit count of millionths: positions in
//! millionths of a world unit, accelerations in millionths of a world unit per
//! second squared. Radii are unsigned 32-bit counts of millionths of a world
//! unit and time steps are unsigned 32-bit counts of microseconds. Wide
//! intermediate results are exact; a result that leaves the 64-bit range
//! sticks to the nearest end of it, and quotients round toward zero.

use vstd::prelude::*;

verus! {

/// Raw steps in one world unit, and microseconds in one second.
pub const SCALE: i64 = 1_000_000;

/// Fine steps in one raw step. Distances between centres are measured in
/// fine steps, so that the direction from one centre to another is known
/// far more closely than to a whole raw step.
pub const FINE: i64 = 1_073_741_824;

/// The nearest value to `v` that a 64-bit signed scalar can hold.
pub open spec fn saturate(v: int) -> i64 {
    if v < i64::MIN as int {
        i64::MIN
    } else if v > i64::MAX as int {
        i64::MAX
    } else {
        v as i64
    }
}

/// The quotient of `num` by a positive `den`, rounded toward zero.
pub open spec fn div_toward_zero(num: int, den: int) -> int
    recommends
        den > 0,
{
    if num >= 0 {
        num / den
    } else {
        -((-num) / den)
    }
}

/// Whether `r` is the integer part of the square root of `n`.
pub open spec fn is_floor_sqrt(n: int, r: int) -> bool {
    0 <= r && r * r <= n && n < (r + 1) * (r + 1)
}

/// The integer part of the square root of a non-negative `n`.
pub open spec fn floor_sqrt(n: int) -> int {
    choose|r: int| is_floor_sqrt(n, r)
}

/// Whether `r` is the square root of `n` rounded up to a whole number.
pub open spec fn is_ceil_sqrt(n: int, r: int) -> bool {
    0 <= r && n <= r * r && (r == 0 || (r - 1) * (r - 1) < n)
}

/// The square root of a non-negative `n`, rounded up to a whole number.
pub open spec fn ceil_sqrt(n: int) -> int {
    let r = floor_sqrt(n);
    if r * r == n {
        r
    } else {
        r + 1
    }
}

/// Distance travelled from rest under a constant acceleration `acc` over `dt`
/// microseconds, without the customary factor one half: `acc * dt * dt` in
/// world units, rounded toward zero.
pub open spec fn displacement(acc: int, dt: int) -> int {
    div_toward_zero(acc * dt * dt, SCALE as int * SCALE as int)
}

/// Squaring is strictly monotone on the non-negative integers.
pub proof fn lemma_square_strictly_monotone(a: int, b: int)
    requires
        0 <= a < b,
    ensures
        a * a < b * b,
{
    assert(a * a < b * b) by (nonlinear_arith)
        requires
            0 <= a < b,
    ;
}

/// A number has at most one integer square root: whatever passes
/// `is_floor_sqrt` is `floor_sqrt`.
pub proof fn lemma_floor_sqrt_unique(n: int, r: int)
    requires
        is_floor_sqrt(n, r),
    ensures
        floor_sqrt(n) == r,
{
    let c = floor_sqrt(n);
    assert(is_floor_sqrt(n, c));
    if c < r {
        if c + 1 < r {
            lemma_square_strictly_monotone(c + 1, r);
        }
    } else if r < c {
        if r + 1 < c {
            lemma_square_strictly_monotone(r + 1, c);
        }
    }
}

/// A non-negative number has at most one rounded-up square root: whatever
/// passes `is_ceil_sqrt` is `ceil_sqrt`.
pub proof fn lemma_ceil_sqrt_unique(n: int, r: int)
    requires
        n >= 0,
        is_ceil_sqrt(n, r),
    ensures
        ceil_sqrt(n) == r,
{
    if r * r == n {
        lemma_square_strictly_monotone(r, r + 1);
        lemma_floor_sqrt_unique(n, r);
    } else {
        assert(r >= 1) by (nonlinear_arith)
            requires
                r >= 0,
                r * r != n,
                n >= 0,
                n <= r * r,
        ;
        assert(((r - 1) + 1) * ((r - 1) + 1) == r * r) by (nonlinear_arith);
        lemma_floor_sqrt_unique(n, r - 1);
    }
}

/// Every non-negative number has a rounded-up square root.
pub proof fn lemma_ceil_sqrt_exists(n: int)
    requires
        n >= 0,
    ensures
        is_ceil_sqrt(n, ceil_sqrt(n)),
    decreases n,
{
    if n == 0 {
        lemma_ceil_sqrt_unique(0, 0);
    } else {
        lemma_ceil_sqrt_exists(n - 1);
        let r = ceil_sqrt(n - 1);
        if n <= r * r {
            lemma_ceil_sqrt_unique(n, r);
        } else {
            assert(((r + 1) - 1) * ((r + 1) - 1) == r * r) by (nonlinear_arith);
            assert(n <= (r + 1) * (r + 1)) by (nonlinear_arith)
                requires
                    n - 1 <= r * r,
                    r >= 0,
            ;
            lemma_ceil_sqrt_unique(n, r + 1);
        }
    }
}

/// Narrows a wide intermediate result to a scalar, sticking at the ends of
/// the 64-bit range.
pub fn saturate_i128(v: i128) -> (r: i64)
    ensures
        r == saturate(v as int),
{
    if v < i64::MIN as i128 {
        i64::MIN
    } else if v > i64::MAX as i128 {
        i64::MAX
    } else {
        v as i64
    }
}

/// Divides by a positive number and rounds toward zero.
pub fn divide_toward_zero(num: i128, den: i128) -> (q: i128)
    requires
        den > 0,
        num > i128::MIN,
    ensures
        q as int == div_toward_zero(num as int, den as int),
{
    if num >= 0 {
        num / den
    } else {
        let magnitude: i128 = -num;
        let q: i128 = magnitude / den;
        -q
    }
}

/// A quotient rounded toward zero is no larger in magnitude than the exact
/// quotient: scaled back up it lies between zero and the dividend.
pub proof fn lemma_div_toward_zero_bounds(num: int, den: int)
    requires
        den > 0,
    ensures
        num >= 0 ==> 0 <= div_toward_zero(num, den) * den <= num,
        num <= 0 ==> num <= div_toward_zero(num, den) * den <= 0,
        num - den < div_toward_zero(num, den) * den < num + den,
{
    if num >= 0 {
        assert(0 <= (num / den) * den <= num && num - den < (num / den) * den) by (nonlinear_arith)
            requires
                num >= 0,
                den > 0,
        ;
    } else {
        let m = -num;
        assert(0 <= (m / den) * den <= m && m - den < (m / den) * den) by (nonlinear_arith)
            requires
                m >= 0,
                den > 0,
        ;
        assert((-(m / den)) * den == -((m / den) * den)) by (nonlinear_arith);
    }
}

/// Rounding toward zero treats both signs alike: the quotient of the
/// negated dividend is the negated quotient.
pub proof fn lemma_div_toward_zero_odd(num: int, den: int)
    requires
        den > 0,
    ensures
        div_toward_zero(-num, den) == -div_toward_zero(num, den),
{
    if num == 0 {
        assert(0int / den == 0) by (nonlinear_arith)
            requires
                den > 0,
        ;
    }
}

/// Integer square root by bisection: the largest `r` whose square does not
/// exceed `n`.
pub fn isqrt(n: u128) -> (r: u64)
    ensures
        is_floor_sqrt(n as int, r as int),
        r as int == floor_sqrt(n as int),
{
    let mut lo: u128 = 0;
    let mut hi: u128 = 0x1_0000_0000_0000_0000;
    assert(0x1_0000_0000_0000_0000int * 0x1_0000_0000_0000_0000int > u128::MAX as int) by (nonlinear_arith);
    while hi - lo > 1
        invariant
            lo < hi <= 0x1_0000_0000_0000_0000,
            lo * lo <= n,
            n < hi * hi,
        decreases hi - lo,
    {
        let mid: u128 = lo + (hi - lo) / 2;
        assert(mid * mid <= 0xffff_ffff_ffff_ffffint * 0xffff_ffff_ffff_ffffint) by (nonlinear_arith)
            requires
                0 <= mid <= 0xffff_ffff_ffff_ffff,
        ;
        assert(0xffff_ffff_ffff_ffffint * 0xffff_ffff_ffff_ffffint <= u128::MAX as int) by (nonlinear_arith);
        if mid * mid <= n {
            lo = mid;
        } else {
            hi = mid;
        }
    }
    proof {
        lemma_floor_sqrt_unique(n as int, lo as int);
    }
    lo as u64
}

/// Integer square root rounded up: the smallest `r` whose square is no less
/// than `n`.
pub fn isqrt_ceil(n: u128) -> (r: u128)
    ensures
        is_ceil_sqrt(n as int, r as int),
        r as int == ceil_sqrt(n as int),
        r <= 0x1_0000_0000_0000_0000,
{
    let low: u128 = isqrt(n) as u128;
    assert(low * low <= n);
    if low * low == n {
        assert(is_ceil_sqrt(n as int, low as int)) by {
            if low > 0 {
                lemma_square_strictly_monotone(low - 1, low as int);
            }
        }
        low
    } else {
        assert(((low + 1) - 1) * ((low + 1) - 1) == low * low) by (nonlinear_arith);
        low + 1
    }
}

/// The displacement `acc * dt * dt` in raw steps, rounded toward zero.
pub fn displacement_of(acc: i64, dt: u32) -> (d: i128)
    ensures
        d as int == displacement(acc as int, dt as int),
        -0x100_0000_0000_0000_0000_0000 <= d <= 0x100_0000_0000_0000_0000_0000,
{
    assert(0 <= dt as int * dt as int <= 0xffff_fffe_0000_0001) by (nonlinear_arith)
        requires
            0 <= dt as int <= 0xffff_ffff,
    ;
    let span: i128 = dt as i128 * dt as i128;
    assert(-0x8000_0000_0000_0000int * 0xffff_fffe_0000_0001int <= acc as int * span as int
        <= 0x8000_0000_0000_0000int * 0xffff_fffe_0000_0001int) by (nonlinear_arith)
        requires
            -0x8000_0000_0000_0000 <= acc as int <= 0x8000_0000_0000_0000,
            0 <= span as int <= 0xffff_fffe_0000_0001,
    ;
    assert(acc as int * dt as int * dt as int == acc as int * span as int) by (nonlinear_arith)
        requires
            span as int == dt as int * dt as int,
    ;
    let product: i128 = acc as i128 * span;
    let unit: i128 = 1_000_000_000_000;
    let d: i128 = divide_toward_zero(product, unit);
    proof {
        lemma_div_toward_zero_bounds(product as int, unit as int);
    }
    d
}

} // verus!
