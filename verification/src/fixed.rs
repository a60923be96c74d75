//! Fixed-point arithmetic helpers shared by the color conversions.
//!
//! A scalar is stored as an `i64` holding the value times 65536, so
//! 1.0 is `SCALE`.  Division is Euclidean (the remainder is never
//! negative), and the integer roots come with exact bracketing
//! contracts: `nroot(n, k, hi)` returns the largest `r` with
//! `r^k <= n`.

use vstd::arithmetic::div_mod::lemma_div_is_ordered;
use vstd::arithmetic::div_mod::lemma_fundamental_div_mod_converse;
use vstd::arithmetic::div_mod::lemma_div_nonincreasing;
use vstd::arithmetic::div_mod::lemma_div_of0;
use vstd::arithmetic::div_mod::lemma_div_pos_is_pos;
use vstd::arithmetic::div_mod::lemma_fundamental_div_mod;
use vstd::arithmetic::div_mod::lemma_div_multiples_vanish;
use vstd::arithmetic::div_mod::lemma_mod_division_less_than_divisor;
use vstd::arithmetic::power::lemma0_pow;
use vstd::arithmetic::power::lemma_pow0;
use vstd::arithmetic::power::lemma_pow1;
use vstd::arithmetic::power::lemma_pow_adds;
use vstd::arithmetic::power::lemma_pow_positive;
use vstd::arithmetic::power::pow;
use vstd::prelude::*;

verus! {

/// Number of fixed-point units in 1.0.
pub const SCALE: i64 = 65536;

/// Clamp a fixed-point scalar to the unit interval [0, 1].
pub open spec fn clamp_unit_spec(x: int) -> int {
    if x < 0 {
        0
    } else if x > 65536 {
        65536
    } else {
        x
    }
}

/// Clamp a fixed-point scalar to the unit interval [0, 1].
pub fn clamp_unit(x: i64) -> (r: i64)
    ensures
        r as int == clamp_unit_spec(x as int),
{
    if x < 0 {
        0
    } else if x > SCALE {
        SCALE
    } else {
        x
    }
}

/// For a positive divisor, the Euclidean quotient lies between the
/// dividend and zero.
pub proof fn lemma_quotient_bounds(x: int, d: int)
    requires
        1 <= d,
    ensures
        x >= 0 ==> 0 <= x / d <= x,
        x < 0 ==> x <= x / d <= 0,
{
    if x >= 0 {
        lemma_div_pos_is_pos(x, d);
        lemma_div_nonincreasing(x, d);
    } else {
        lemma_div_is_ordered(x, 0, d);
        lemma_div_of0(d);
        lemma_fundamental_div_mod(x, d);
        lemma_mod_division_less_than_divisor(x, d);
        let q = x / d;
        let r = x % d;
        assert(x <= q) by (nonlinear_arith)
            requires
                x == d * q + r,
                0 <= r < d,
                x < 0,
                1 <= d,
        {
        }
    }
}

/// Euclidean division of a fixed-point scalar by a positive divisor.
pub fn ediv(x: i64, d: i64) -> (r: i64)
    requires
        1 <= d,
    ensures
        r as int == x as int / d as int,
{
    proof {
        lemma_quotient_bounds(x as int, d as int);
    }
    x.checked_div_euclid(d).unwrap()
}

/// Euclidean remainder of a fixed-point scalar by a positive divisor;
/// the result always lies in [0, d).
pub fn emod(x: i64, d: i64) -> (r: i64)
    requires
        1 <= d,
    ensures
        r as int == x as int % d as int,
        0 <= r < d,
{
    proof {
        lemma_mod_division_less_than_divisor(x as int, d as int);
    }
    x.checked_rem_euclid(d).unwrap()
}

/// Magnitude of a scalar.
pub open spec fn abs_spec(x: int) -> int {
    if x < 0 {
        -x
    } else {
        x
    }
}

/// Magnitude of a scalar.
pub fn abs_fixed(x: i64) -> (r: i64)
    requires
        i64::MIN < x,
    ensures
        r as int == abs_spec(x as int),
{
    if x < 0 {
        -x
    } else {
        x
    }
}

/// A dividend bracketed by multiples of the divisor brackets the
/// quotient: `d*lo <= x < d*(hi+1)` gives `lo <= x/d <= hi`.
pub proof fn lemma_div_range(x: int, d: int, lo: int, hi: int)
    requires
        1 <= d,
        d * lo <= x,
        x < d * (hi + 1),
    ensures
        lo <= x / d <= hi,
{
    lemma_div_is_ordered(d * lo, x, d);
    lemma_div_multiples_vanish(lo, d);
    assert(d * (hi + 1) == d * hi + d) by (nonlinear_arith);
    lemma_div_is_ordered(x, d * hi + (d - 1), d);
    lemma_fundamental_div_mod_converse(d * hi + (d - 1), d, hi, d - 1);
}

/// The integer k-th root: the unique `r >= 0` with `r^k <= n < (r+1)^k`.
pub open spec fn iroot(n: int, k: nat) -> int {
    choose|r: int| 0 <= r && #[trigger] pow(r, k) <= n && n < pow(r + 1, k)
}

/// Raising to a power is monotone in a nonnegative base.
pub proof fn lemma_pow_base_mono(b1: int, b2: int, k: nat)
    requires
        0 <= b1 <= b2,
    ensures
        pow(b1, k) <= pow(b2, k),
    decreases k,
{
    if k == 0 {
        lemma_pow0(b1);
        lemma_pow0(b2);
    } else {
        lemma_pow_base_mono(b1, b2, (k - 1) as nat);
        lemma_pow_adds(b1, 1, (k - 1) as nat);
        lemma_pow1(b1);
        lemma_pow_adds(b2, 1, (k - 1) as nat);
        lemma_pow1(b2);
        if b1 == 0 {
            lemma0_pow(k);
            if b2 == 0 {
                lemma0_pow(k);
            } else {
                lemma_pow_positive(b2, k);
            }
        } else {
            lemma_pow_positive(b1, (k - 1) as nat);
            assert(b1 * pow(b1, (k - 1) as nat) <= b2 * pow(b2, (k - 1) as nat))
                by (nonlinear_arith)
                requires
                    1 <= b1 <= b2,
                    0 < pow(b1, (k - 1) as nat) <= pow(b2, (k - 1) as nat),
            {
            }
        }
    }
}

/// The bracketing `r^k <= n < (r+1)^k` pins down the k-th root.
pub proof fn lemma_iroot_is(n: int, k: nat, r: int)
    requires
        1 <= k,
        0 <= r,
        pow(r, k) <= n,
        n < pow(r + 1, k),
    ensures
        iroot(n, k) == r,
{
    assert(0 <= r && pow(r, k) <= n && n < pow(r + 1, k));
    let rr = iroot(n, k);
    assert(0 <= rr && pow(rr, k) <= n && n < pow(rr + 1, k)) by {
        assert(exists|x: int| 0 <= x && #[trigger] pow(x, k) <= n && n < pow(x + 1, k));
    }
    if rr < r {
        lemma_pow_base_mono(rr + 1, r, k);
    } else if rr > r {
        lemma_pow_base_mono(r + 1, rr, k);
    }
}

/// Small literal powers written out as products.
pub proof fn lemma_pow_small(b: int)
    ensures
        pow(b, 1) == b,
        pow(b, 2) == b * b,
        pow(b, 3) == b * b * b,
        pow(b, 4) == b * b * b * b,
        pow(b, 5) == b * b * b * b * b,
{
    lemma_pow1(b);
    lemma_pow_adds(b, 1, 1);
    lemma_pow_adds(b, 2, 1);
    lemma_pow_adds(b, 3, 1);
    lemma_pow_adds(b, 4, 1);
}

/// Cube a fixed-point scalar: `x*x*x / SCALE^2`, rounding down.
pub fn cube_s(x: i64) -> (r: i64)
    requires
        -4194304 <= x <= 4194304,
    ensures
        r as int == (x as int * x as int * x as int) / 4294967296,
        -17179869184 <= r <= 17179869184,
{
    let xx = x as i128;
    proof {
        assert(0 <= xx * xx <= 17592186044416) by (nonlinear_arith)
            requires
                -4194304 <= xx <= 4194304,
        {
        }
    }
    let x2 = xx * xx;
    proof {
        assert(-73786976294838206464 <= x2 * xx <= 73786976294838206464)
            by (nonlinear_arith)
            requires
                -4194304 <= xx <= 4194304,
                0 <= x2 <= 17592186044416,
                x2 == xx * xx,
        {
        }
    }
    let num = x2 * xx;
    proof {
        lemma_quotient_bounds(num as int, 4294967296);
        lemma_div_is_ordered(num as int, 73786976294838206464, 4294967296);
        lemma_div_is_ordered(-73786976294838206464, num as int, 4294967296);
    }
    num.checked_div_euclid(4294967296).unwrap() as i64
}

/// Whether `y^k <= n`, computed without overflow by dividing instead
/// of multiplying.
fn pow_le(y: u128, k: u32, n: u128) -> (r: bool)
    requires
        1 <= k,
    ensures
        r == (pow(y as int, k as nat) <= n as int),
{
    if y == 0 {
        proof {
            lemma0_pow(k as nat);
        }
        return true;
    }
    let mut acc: u128 = 1;
    let mut i: u32 = 0;
    proof {
        lemma_pow0(y as int);
    }
    if n == 0 {
        proof {
            lemma_pow_positive(y as int, k as nat);
        }
        return false;
    }
    while i < k
        invariant
            1 <= y,
            1 <= n,
            i <= k,
            acc as int == pow(y as int, i as nat),
            acc as int <= n as int,
        decreases k - i,
    {
        let q = n / y;
        proof {
            lemma_fundamental_div_mod(n as int, y as int);
            lemma_mod_division_less_than_divisor(n as int, y as int);
        }
        if acc > q {
            proof {
                // acc * y > n, and pow(y, k) >= acc * y.
                assert(acc as int * y as int > n as int) by (nonlinear_arith)
                    requires
                        acc as int > q as int,
                        n as int == y as int * q as int + n as int % y as int,
                        0 <= (n as int % y as int),
                        (n as int % y as int) < y as int,
                        1 <= y,
                {
                }
                lemma_pow_adds(y as int, i as nat, (k - i) as nat);
                lemma_pow_positive(y as int, (k - i) as nat);
                assert(pow(y as int, (k - i) as nat) >= y as int) by {
                    lemma_pow_adds(y as int, 1, (k - i - 1) as nat);
                    lemma_pow1(y as int);
                    lemma_pow_positive(y as int, (k - i - 1) as nat);
                    assert(y as int * pow(y as int, (k - i - 1) as nat) >= y as int)
                        by (nonlinear_arith)
                        requires
                            1 <= y as int,
                            1 <= pow(y as int, (k - i - 1) as nat),
                    {
                    }
                }
                assert(pow(y as int, k as nat) > n as int) by (nonlinear_arith)
                    requires
                        pow(y as int, k as nat) == pow(y as int, i as nat) * pow(
                            y as int,
                            (k - i) as nat,
                        ),
                        pow(y as int, i as nat) == acc as int,
                        pow(y as int, (k - i) as nat) >= y as int,
                        acc as int * y as int > n as int,
                        1 <= acc,
                        1 <= y,
                {
                }
            }
            return false;
        }
        proof {
            assert(acc as int * y as int <= n as int) by (nonlinear_arith)
                requires
                    acc as int <= q as int,
                    n as int == y as int * q as int + n as int % y as int,
                    0 <= (n as int % y as int),
                    1 <= y,
            {
            }
            lemma_pow_adds(y as int, i as nat, 1);
            lemma_pow1(y as int);
        }
        acc = acc * y;
        i = i + 1;
    }
    true
}

/// Largest integer `r` with `r^k <= n`, found by binary search below
/// the caller-supplied strict upper bound `hi`.
pub fn nroot(n: u128, k: u32, hi: u128) -> (r: u128)
    requires
        1 <= k,
        1 <= hi,
        pow(hi as int, k as nat) > n as int,
    ensures
        pow(r as int, k as nat) <= n as int,
        pow(r as int + 1, k as nat) > n as int,
        r < hi,
        r as int == iroot(n as int, k as nat),
{
    let mut lo: u128 = 0;
    let mut top: u128 = hi;
    proof {
        lemma0_pow(k as nat);
    }
    while lo + 1 < top
        invariant
            1 <= k,
            lo < top,
            top <= hi,
            pow(lo as int, k as nat) <= n as int,
            pow(top as int, k as nat) > n as int,
        decreases top - lo,
    {
        let mid = lo + (top - lo) / 2;
        assert(lo < mid < top);
        if pow_le(mid, k, n) {
            lo = mid;
        } else {
            top = mid;
        }
    }
    proof {
        lemma_iroot_is(n as int, k as nat, lo as int);
    }
    lo
}

} // verus!
