//! Fixed-point numerics and the closed-form TWAMM solver.
//!
//! All values are unsigned 128-bit integers scaled by `10^precision`
//! (default precision 18). Every operation is pure and deterministic; any
//! overflow, underflow or division by zero is reported as an explicit
//! failure instead of wrapping or truncating silently.

use crate::errors::TwammError;
use vstd::arithmetic::div_mod::lemma_fundamental_div_mod;
use vstd::prelude::*;

verus! {

/// Decimal places assumed when no explicit precision is given.
pub const DEFAULT_PRECISION: u32 = 18;

/// The largest precision whose scale factor `10^precision` fits in 128 bits.
pub const MAX_PRECISION: u32 = 38;

/// `10^e`, the scale factor of a fixed-point value with `e` decimal places.
pub open spec fn spec_pow10(e: nat) -> nat
    decreases e,
{
    if e == 0 {
        1
    } else {
        10 * spec_pow10((e - 1) as nat)
    }
}

pub proof fn lemma_pow10_pos(e: nat)
    ensures
        spec_pow10(e) >= 1,
    decreases e,
{
    if e > 0 {
        lemma_pow10_pos((e - 1) as nat);
    }
}

pub proof fn lemma_pow10_increases(a: nat, b: nat)
    requires
        a <= b,
    ensures
        spec_pow10(a) <= spec_pow10(b),
    decreases b,
{
    if a < b {
        lemma_pow10_increases(a, (b - 1) as nat);
        lemma_pow10_pos((b - 1) as nat);
    }
}

/// The mathematical integer square root: the largest `r` with `r * r <= n`.
pub open spec fn spec_sqrt(n: nat) -> nat
    decreases n,
{
    if n < 2 {
        n
    } else {
        let s = 2 * spec_sqrt(n / 4);
        if (s + 1) * (s + 1) <= n {
            (s + 1) as nat
        } else {
            s
        }
    }
}

pub proof fn lemma_sqrt_bounds(n: nat)
    ensures
        spec_sqrt(n) * spec_sqrt(n) <= n,
        n < (spec_sqrt(n) + 1) * (spec_sqrt(n) + 1),
    decreases n,
{
    if n < 2 {
        assert(n * n <= n && n < (n + 1) * (n + 1)) by (nonlinear_arith)
            requires
                n <= 1,
        ;
    } else {
        let r = spec_sqrt(n / 4);
        lemma_sqrt_bounds(n / 4);
        let s = 2 * r;
        assert(spec_sqrt(n) == if (s + 1) * (s + 1) <= n {
            (s + 1) as nat
        } else {
            s
        });
        lemma_fundamental_div_mod(n as int, 4);
        assert(4 * (r * r) <= n && n < 4 * ((r + 1) * (r + 1))) by (nonlinear_arith)
            requires
                r * r <= n / 4,
                n / 4 < (r + 1) * (r + 1),
                n == 4 * (n / 4) + n % 4,
                0 <= n % 4 < 4,
        ;
        assert(s * s <= n) by (nonlinear_arith)
            requires
                s == 2 * r,
                4 * (r * r) <= n,
        ;
        assert(n < (s + 2) * (s + 2)) by (nonlinear_arith)
            requires
                s == 2 * r,
                n < 4 * ((r + 1) * (r + 1)),
        ;
    }
}

pub proof fn lemma_sqrt_unique(n: nat, a: nat, b: nat)
    requires
        a * a <= n,
        n < (a + 1) * (a + 1),
        b * b <= n,
        n < (b + 1) * (b + 1),
    ensures
        a == b,
{
    if a < b {
        assert((a + 1) * (a + 1) <= b * b) by (nonlinear_arith)
            requires
                a + 1 <= b,
        ;
    }
    if b < a {
        assert((b + 1) * (b + 1) <= a * a) by (nonlinear_arith)
            requires
                b + 1 <= a,
        ;
    }
}

/// One Newton step `(x/z + z) / 2` never lands below the integer square
/// root of `x`, for any positive starting point `z`.
proof fn lemma_newton_step(x: nat, z: nat)
    requires
        1 <= z,
    ensures
        x < ((x / z + z) / 2 + 1) * ((x / z + z) / 2 + 1),
{
    let u = x / z;
    let m = (u + z) / 2;
    lemma_fundamental_div_mod(x as int, z as int);
    assert(z * u <= x && x < z * (u + 1)) by (nonlinear_arith)
        requires
            x == z * (x / z) + x % z,
            0 <= x % z < z,
            u == x / z,
    ;
    lemma_fundamental_div_mod((u + z) as int, 2);
    assert(2 * (m + 1) >= u + z + 1);
    assert(4 * ((m + 1) * (m + 1)) >= (u + z + 1) * (u + z + 1)) by (nonlinear_arith)
        requires
            2 * (m + 1) >= u + z + 1,
    ;
    assert((u + z + 1) * (u + z + 1) >= 4 * (z * (u + 1))) by (nonlinear_arith);
    assert(4 * (z * (u + 1)) > 4 * x);
    assert(x < (m + 1) * (m + 1)) by (nonlinear_arith)
        requires
            4 * ((m + 1) * (m + 1)) > 4 * x,
    ;
}

/// A fixed-point number: an integer `value` scaled by `10^precision`.
#[derive(Clone, Debug)]
pub struct FixedPoint {
    pub value: u128,
    pub precision: u32,
}

impl FixedPoint {
    pub fn new(value: u128, precision: u32) -> (r: Self)
        ensures
            r.value == value,
            r.precision == precision,
    {
        Self { value, precision }
    }

    /// Scales a plain integer into a fixed-point value with the default
    /// 18 decimal places.
    pub fn from_integer(value: u128) -> (r: Self)
        requires
            value * spec_pow10(DEFAULT_PRECISION as nat) <= u128::MAX,
        ensures
            r.value == value * spec_pow10(DEFAULT_PRECISION as nat),
            r.precision == DEFAULT_PRECISION,
    {
        let one = scale_factor(DEFAULT_PRECISION);
        Self { value: value * one, precision: DEFAULT_PRECISION }
    }

    /// Truncates the fixed-point value back to a plain integer.
    pub fn to_integer(&self) -> (r: u128)
        requires
            self.precision <= MAX_PRECISION,
        ensures
            r == self.value as nat / spec_pow10(self.precision as nat),
    {
        let one = scale_factor(self.precision);
        proof {
            lemma_pow10_pos(self.precision as nat);
        }
        self.value / one
    }
}

/// Computes the scale factor `10^precision`.
pub fn scale_factor(precision: u32) -> (r: u128)
    requires
        precision <= MAX_PRECISION,
    ensures
        r == spec_pow10(precision as nat),
{
    let mut r: u128 = 1;
    let mut j: u32 = 0;
    while j < precision
        invariant
            j <= precision <= MAX_PRECISION,
            r == spec_pow10(j as nat),
        decreases precision - j,
    {
        proof {
            lemma_pow10_increases((j + 1) as nat, 38);
            lemma_pow10_38_fits();
            assert(spec_pow10((j + 1) as nat) == 10 * r);
        }
        r = r * 10;
        j = j + 1;
    }
    r
}

proof fn lemma_pow10_38_fits()
    ensures
        spec_pow10(38) == 100_000_000_000_000_000_000_000_000_000_000_000_000u128,
{
    reveal_with_fuel(spec_pow10, 40);
}

/// `2^e`, the weight of bit `e`.
pub open spec fn spec_pow2(e: nat) -> nat
    decreases e,
{
    if e == 0 {
        1
    } else {
        2 * spec_pow2((e - 1) as nat)
    }
}

proof fn lemma_pow2_pos(e: nat)
    ensures
        spec_pow2(e) >= 1,
    decreases e,
{
    if e > 0 {
        lemma_pow2_pos((e - 1) as nat);
    }
}

#[verifier::rlimit(100)]
proof fn lemma_pow2_127_fits()
    ensures
        spec_pow2(127) == 0x8000_0000_0000_0000_0000_0000_0000_0000u128,
{
    reveal_with_fuel(spec_pow2, 129);
    assert(spec_pow2(32) == 0x1_0000_0000u128);
    assert(spec_pow2(64) == 0x1_0000_0000_0000_0000u128);
    assert(spec_pow2(96) == 0x1_0000_0000_0000_0000_0000_0000u128);
}

/// When `x` holds at least `y` copies of `d`, the quotient reaches `y`.
proof fn lemma_div_at_least(x: int, d: int, y: int)
    requires
        1 <= d,
        0 <= y,
        d * y <= x,
    ensures
        x / d >= y,
{
    vstd::arithmetic::div_mod::lemma_div_is_ordered(d * y, x, d);
    vstd::arithmetic::div_mod::lemma_div_multiples_vanish(y, d);
}

/// `floor(a * b / d)` computed through a 256-bit-wide intermediate
/// product, one bit of `b` at a time; it fails exactly when the quotient
/// itself does not fit in 128 bits.
pub fn mul_div(a: u128, b: u128, d: u128) -> (r: Result<u128, TwammError>)
    requires
        1 <= d,
    ensures
        r matches Ok(v) ==> v == (a * b) / (d as int),
        r is Err <==> (a * b) / (d as int) > u128::MAX,
        r is Err ==> r == Err::<u128, TwammError>(TwammError::MathOverflow),
{
    proof {
        vstd::arithmetic::mul::lemma_mul_nonnegative(a as int, b as int);
    }
    let a_div = a / d;
    let a_rem = a % d;
    let mut q: u128 = 0;
    let mut rem: u128 = 0;
    let mut bpow: u128 = 0x8000_0000_0000_0000_0000_0000_0000_0000u128;
    let mut k: usize = 0;
    proof {
        lemma_pow2_127_fits();
        lemma_pow2_pos(127);
        assert(spec_pow2(128) == 2 * spec_pow2(127));
        vstd::arithmetic::div_mod::lemma_basic_div(b as int, spec_pow2(128) as int);
        assert((b as int) / (spec_pow2(128) as int) == 0);
        assert((128 - k) as nat == 128);
        assert(q * d + rem == a * ((b as int) / (spec_pow2((128 - k) as nat) as int)));
    }
    while k < 128
        invariant
            1 <= d,
            a_div == a / d,
            a_rem == a % d,
            k <= 128,
            rem < d,
            q * d + rem == a * ((b as int) / (spec_pow2((128 - k) as nat) as int)),
            k < 128 ==> bpow == spec_pow2((127 - k) as nat),
        decreases 128 - k,
    {
        let ghost p = (b as int) / (spec_pow2((128 - k) as nat) as int);
        let ghost pp = (b as int) / (spec_pow2((127 - k) as nat) as int);
        proof {
            lemma_pow2_pos((127 - k) as nat);
        }
        let bit = (b / bpow) % 2;
        proof {
            assert(spec_pow2((128 - k) as nat) == 2 * spec_pow2((127 - k) as nat));
            vstd::arithmetic::div_mod::lemma_div_denominator(
                b as int,
                spec_pow2((127 - k) as nat) as int,
                2,
            );
            assert(p == pp / 2);
            lemma_fundamental_div_mod(pp, 2);
            assert(pp == 2 * p + (pp % 2));
            assert(bit == pp % 2);
            assert(0 <= pp);
            assert(0 <= p);
            // The quotient of the wider prefix never shrinks, and is itself
            // at most the full quotient.
            vstd::arithmetic::div_mod::lemma_div_is_ordered_by_denominator(
                b as int,
                spec_pow2((127 - k) as nat) as int,
                spec_pow2((128 - k) as nat) as int,
            );
            assert(pp <= b) by {
                vstd::arithmetic::div_mod::lemma_div_is_ordered_by_denominator(
                    b as int,
                    1,
                    spec_pow2((127 - k) as nat) as int,
                );
            }
            assert(a * pp <= a * b) by (nonlinear_arith)
                requires
                    0 <= a,
                    pp <= b,
            ;
            assert(a * pp == 2 * (a * p) + bit * a) by (nonlinear_arith)
                requires
                    pp == 2 * p + bit,
            ;
            lemma_fundamental_div_mod(a as int, d as int);
        }
        // Double the running quotient and remainder.
        let q1 = match q.checked_mul(2) {
            Some(v) => v,
            None => {
                proof {
                    assert(d * (2 * q) <= a * pp) by (nonlinear_arith)
                        requires
                            a * pp == 2 * (a * p) + bit * a,
                            q * d + rem == a * p,
                            0 <= rem,
                            0 <= bit,
                            0 <= a,
                    ;
                    lemma_div_at_least(a * pp, d as int, 2 * q);
                    vstd::arithmetic::div_mod::lemma_div_is_ordered(a * pp, a * b, d as int);
                }
                return Err(TwammError::MathOverflow);
            },
        };
        let rem1: u128;
        let q2: u128;
        if rem >= d - rem {
            rem1 = rem - (d - rem);
            q2 = match q1.checked_add(1) {
                Some(v) => v,
                None => {
                    proof {
                        assert(d * (q1 + 1) <= a * pp) by (nonlinear_arith)
                            requires
                                a * pp == 2 * (a * p) + bit * a,
                                q * d + rem == a * p,
                                q1 == 2 * q,
                                2 * rem >= d,
                                0 <= bit,
                                0 <= a,
                        ;
                        lemma_div_at_least(a * pp, d as int, q1 + 1);
                        vstd::arithmetic::div_mod::lemma_div_is_ordered(a * pp, a * b, d as int);
                    }
                    return Err(TwammError::MathOverflow);
                },
            };
        } else {
            rem1 = rem + rem;
            q2 = q1;
        }
        proof {
            assert(q2 * d + rem1 == 2 * (a * p)) by (nonlinear_arith)
                requires
                    q * d + rem == a * p,
                    (q2 == 2 * q + 1 && rem1 == 2 * rem - d) || (q2 == 2 * q && rem1 == 2 * rem),
            ;
        }
        // Fold in `a` when this bit of `b` is set.
        let q4: u128;
        let rem4: u128;
        if bit == 1 {
            let q3 = match q2.checked_add(a_div) {
                Some(v) => v,
                None => {
                    proof {
                        assert(d * (q2 + a / d) <= a * pp) by (nonlinear_arith)
                            requires
                                a * pp == 2 * (a * p) + 1 * a,
                                2 * (a * p) == q2 * d + rem1,
                                a == d * (a / d) + a % d,
                                0 <= rem1,
                                0 <= a % d,
                        ;
                        lemma_div_at_least(a * pp, d as int, q2 + a / d);
                        vstd::arithmetic::div_mod::lemma_div_is_ordered(a * pp, a * b, d as int);
                    }
                    return Err(TwammError::MathOverflow);
                },
            };
            if rem1 >= d - a_rem {
                rem4 = rem1 - (d - a_rem);
                q4 = match q3.checked_add(1) {
                    Some(v) => v,
                    None => {
                        proof {
                            assert(d * (q3 + 1) <= a * pp) by (nonlinear_arith)
                                requires
                                    a * pp == 2 * (a * p) + 1 * a,
                                    2 * (a * p) == q2 * d + rem1,
                                    a == d * (a / d) + a % d,
                                    q3 == q2 + a / d,
                                    rem1 + a % d >= d,
                            ;
                            lemma_div_at_least(a * pp, d as int, q3 + 1);
                            vstd::arithmetic::div_mod::lemma_div_is_ordered(
                                a * pp,
                                a * b,
                                d as int,
                            );
                        }
                        return Err(TwammError::MathOverflow);
                    },
                };
            } else {
                rem4 = rem1 + a_rem;
                q4 = q3;
            }
            proof {
                assert(q4 * d + rem4 == a * pp) by (nonlinear_arith)
                    requires
                        a * pp == 2 * (a * p) + 1 * a,
                        2 * (a * p) == q2 * d + rem1,
                        a == d * (a / d) + a % d,
                        (q4 == q2 + a / d + 1 && rem4 == rem1 + a % d - d) || (q4 == q2 + a / d
                            && rem4 == rem1 + a % d),
                ;
            }
        } else {
            q4 = q2;
            rem4 = rem1;
            proof {
                assert(q4 * d + rem4 == a * pp);
            }
        }
        q = q4;
        rem = rem4;
        proof {
            if k < 127 {
                lemma_pow2_pos((126 - k) as nat);
                assert(spec_pow2((127 - k) as nat) == 2 * spec_pow2((126 - k) as nat));
            }
        }
        bpow = bpow / 2;
        k = k + 1;
    }
    proof {
        assert(spec_pow2(0) == 1);
        assert((b as int) / 1int == b);
        vstd::arithmetic::div_mod::lemma_fundamental_div_mod_converse(
            a * b,
            d as int,
            q as int,
            rem as int,
        );
    }
    Ok(q)
}

/// The integer square root of the 256-bit-wide product `a * b`, found by
/// bisection; the root of a product of two 128-bit words always fits in
/// 128 bits.
pub fn sqrt_wide(a: u128, b: u128) -> (r: u128)
    ensures
        r * r <= a * b,
        a * b < (r + 1) * (r + 1),
        r == spec_sqrt((a * b) as nat),
{
    proof {
        vstd::arithmetic::mul::lemma_mul_nonnegative(a as int, b as int);
        lemma_sqrt_bounds((a * b) as nat);
    }
    if a == 0 || b == 0 {
        return 0;
    }
    let mut lo: u128 = 1;
    let mut hi: u128 = u128::MAX;
    proof {
        assert(1 <= a * b && a * b < (u128::MAX + 1) * (u128::MAX + 1)) by (nonlinear_arith)
            requires
                1 <= a,
                1 <= b,
                a <= u128::MAX,
                b <= u128::MAX,
        ;
    }
    while lo < hi
        invariant
            1 <= lo <= hi,
            lo * lo <= a * b,
            a * b < (hi + 1) * (hi + 1),
        decreases hi - lo,
    {
        let mid = lo + (hi - lo + 1) / 2;
        let ge = match mul_div(a, b, mid) {
            Ok(v) => v >= mid,
            Err(_) => true,
        };
        proof {
            lemma_fundamental_div_mod(a * b, mid as int);
            if ge {
                assert(mid * mid <= a * b) by (nonlinear_arith)
                    requires
                        a * b == mid * ((a * b) / (mid as int)) + (a * b) % (mid as int),
                        0 <= (a * b) % (mid as int),
                        (a * b) / (mid as int) >= mid,
                        1 <= mid,
                ;
            } else {
                assert(a * b < mid * mid) by (nonlinear_arith)
                    requires
                        a * b == mid * ((a * b) / (mid as int)) + (a * b) % (mid as int),
                        (a * b) % (mid as int) < mid,
                        (a * b) / (mid as int) < mid,
                        1 <= mid,
                ;
            }
        }
        if ge {
            lo = mid;
        } else {
            hi = mid - 1;
        }
    }
    proof {
        lemma_sqrt_unique((a * b) as nat, lo as nat, spec_sqrt((a * b) as nat));
    }
    lo
}

/// One step of the truncated Taylor series for `e^x`, tracking the partial
/// sum and the current term with its factorial already divided out
/// (`term_i == x^i / (i! · one^(i-1))`, truncated at every step), so the
/// intermediates stay near the magnitude of the result itself; the
/// product `term · x` goes through a 256-bit-wide intermediate. Any step
/// whose quotient leaves 128 bits yields the error.
pub open spec fn spec_exp_series(
    x: u128,
    one: u128,
    result: u128,
    term: u128,
    i: int,
) -> Result<u128, TwammError>
    decreases 21 - i,
{
    if i > 20 {
        Ok(result)
    } else {
        let u = (term * x) / (one as int);
        if u > u128::MAX {
            Err(TwammError::MathOverflow)
        } else {
            let tv = u / i;
            if tv == 0 {
                Ok(result)
            } else if result + tv > u128::MAX {
                Err(TwammError::MathOverflow)
            } else {
                spec_exp_series(x, one, (result + tv) as u128, tv as u128, i + 1)
            }
        }
    }
}

/// The exponential `e^x` in fixed point with scale `one`: the divergence
/// guard, then twenty checked Taylor terms starting from `e^0 == 1`.
pub open spec fn spec_exp_taylor(x: u128, one: u128) -> Result<u128, TwammError> {
    if x >= 50 * one {
        Err(TwammError::MathOverflow)
    } else {
        spec_exp_series(x, one, one, one, 1)
    }
}

/// One round of exponentiation by squaring in fixed point with scale `one`,
/// with the same checked steps and the half-range guard the evaluation uses.
pub open spec fn spec_power_iter(
    base_power: u128,
    exponent: u128,
    result: u128,
    one: u128,
) -> Result<u128, TwammError>
    decreases exponent,
{
    if exponent == 0 {
        Ok(result)
    } else {
        let r2 = if exponent % 2 == 1 {
            (result * base_power) / (one as int)
        } else {
            result as int
        };
        if r2 > u128::MAX {
            Err(TwammError::MathOverflow)
        } else {
            let bp2 = (base_power * base_power) / (one as int);
            if bp2 > u128::MAX {
                Err(TwammError::MathOverflow)
            } else if r2 > u128::MAX / 2 {
                Err(TwammError::MathOverflow)
            } else {
                spec_power_iter(bp2 as u128, exponent / 2, r2 as u128, one)
            }
        }
    }
}

/// Fixed-point exponentiation `base^exponent` with scale `one`.
pub open spec fn spec_power(base: u128, exponent: u128, one: u128) -> Result<u128, TwammError> {
    if exponent == 0 {
        Ok(one)
    } else {
        spec_power_iter(base, exponent, one, one)
    }
}

/// Compound growth `principal * (1 + rate)^time` in fixed point.
pub open spec fn spec_compound_interest(
    principal: u128,
    rate: u128,
    time: u128,
    one: u128,
) -> Result<u128, TwammError> {
    if one + rate > u128::MAX {
        Err(TwammError::MathOverflow)
    } else {
        match spec_power((one + rate) as u128, time, one) {
            Err(e) => Err(e),
            Ok(multiplier) => if (principal * multiplier) / (one as int) > u128::MAX {
                Err(TwammError::MathOverflow)
            } else {
                Ok(((principal * multiplier) / (one as int)) as u128)
            },
        }
    }
}

/// One Newton round for the natural logarithm:
/// `y <- y + 2 (x - e^y) / (x + e^y)`, with the convergence test on
/// millionths of a scale unit, repeated at most `n` more times.
pub open spec fn spec_ln_iter(x: u128, one: u128, y: u128, n: int) -> Result<u128, TwammError>
    decreases n,
{
    if n <= 0 {
        Ok(y)
    } else {
        match spec_exp_taylor(y, one) {
            Err(e) => Err(e),
            Ok(exp_y) => if x < exp_y {
                Err(TwammError::MathOverflow)
            } else if x + exp_y > u128::MAX {
                Err(TwammError::MathOverflow)
            } else {
                let denominator = (x + exp_y) as u128;
                if denominator == 0 {
                    Ok(y)
                } else if ((x - exp_y) * (2 * one)) / (denominator as int) > u128::MAX {
                    Err(TwammError::MathOverflow)
                } else {
                    let delta = ((x - exp_y) * (2 * one)) / (denominator as int);
                    if y + delta > u128::MAX {
                        Err(TwammError::MathOverflow)
                    } else {
                        let new_y = (y + delta) as u128;
                        let eps = one / 1000000;
                        if y > new_y && y - new_y < eps {
                            Ok(y)
                        } else if new_y > y && new_y - y < eps {
                            Ok(y)
                        } else {
                            spec_ln_iter(x, one, new_y, n - 1)
                        }
                    }
                }
            },
        }
    }
}

/// The natural logarithm `ln(x)` in fixed point with scale `one`:
/// undefined at zero, zero at one, otherwise fifty Newton rounds from the
/// secant starting guess.
pub open spec fn spec_ln_newton(x: u128, one: u128) -> Result<u128, TwammError> {
    if x == 0 {
        Err(TwammError::InvalidInput)
    } else if x == one {
        Ok(0u128)
    } else {
        let diff = if x > one {
            (x - one) as u128
        } else {
            (one - x) as u128
        };
        if (diff * one) / (x as int) > u128::MAX {
            Err(TwammError::MathOverflow)
        } else {
            spec_ln_iter(x, one, ((diff * one) / (x as int)) as u128, 50)
        }
    }
}

/// Orients the updated reserve pair: the growing "in" reserve was token 0
/// exactly when `is_x_to_y` holds. The shrinking side is `k / new_in`.
pub open spec fn spec_oriented_reserves(k: int, new_in: u128, is_x_to_y: bool) -> Result<
    (u128, u128),
    TwammError,
> {
    let new_out = (k / (new_in as int)) as u128;
    if is_x_to_y {
        Ok((new_in, new_out))
    } else {
        Ok((new_out, new_in))
    }
}

/// The unidirectional closed form: with `k = reserve_in * reserve_out` and
/// `total = sell_rate * time_blocks`, the inflow uses the linear
/// approximation `total * reserve_in / (reserve_in + sqrt(k))` while the
/// decay ratio `total / sqrt(k)` is below one scale unit, and a fixed
/// 80%-efficiency fallback otherwise; the outflow side keeps `k / new_in`.
/// This two-branch structure is a documented approximation of the exact
/// continuous-execution solution, kept deliberately.
pub open spec fn spec_unidirectional_state(
    reserve_in: u128,
    reserve_out: u128,
    sell_rate: u128,
    time_blocks: u128,
    one: u128,
    is_x_to_y: bool,
) -> Result<(u128, u128), TwammError> {
    let k = reserve_in * reserve_out;
    let total = sell_rate * time_blocks;
    if total > u128::MAX {
        Err(TwammError::MathOverflow)
    } else if k == 0 {
        Err(TwammError::InsufficientLiquidity)
    } else {
        let sk = spec_sqrt(k as nat) as int;
        if (total * one) / sk > u128::MAX {
            Err(TwammError::MathOverflow)
        } else if (total * one) / sk < one {
            if reserve_in + sk > u128::MAX {
                Err(TwammError::MathOverflow)
            } else if reserve_in + (total * reserve_in) / (reserve_in + sk) > u128::MAX {
                Err(TwammError::MathOverflow)
            } else {
                spec_oriented_reserves(
                    k,
                    (reserve_in + (total * reserve_in) / (reserve_in + sk)) as u128,
                    is_x_to_y,
                )
            }
        } else {
            let t8 = total * 8;
            if t8 > u128::MAX {
                Err(TwammError::MathOverflow)
            } else if reserve_in + t8 / 10 > u128::MAX {
                Err(TwammError::MathOverflow)
            } else {
                spec_oriented_reserves(k, (reserve_in + t8 / 10) as u128, is_x_to_y)
            }
        }
    }
}

/// The bidirectional closed form: value one side's sell volume in the other
/// token at the spot price, subtract, and run the unidirectional form on
/// whichever side has positive net volume; value-equal flows leave the
/// reserves unchanged.
pub open spec fn spec_bidirectional_state(
    initial_x: u128,
    initial_y: u128,
    sell_rate_x: u128,
    sell_rate_y: u128,
    time_blocks: u128,
    one: u128,
) -> Result<(u128, u128), TwammError> {
    let total_sell_x = sell_rate_x * time_blocks;
    if total_sell_x > u128::MAX {
        Err(TwammError::MathOverflow)
    } else {
        let total_sell_y = sell_rate_y * time_blocks;
        if total_sell_y > u128::MAX {
            Err(TwammError::MathOverflow)
        } else if initial_x == 0 {
            Err(TwammError::DivisionByZero)
        } else if (initial_y * one) / (initial_x as int) > u128::MAX {
            Err(TwammError::MathOverflow)
        } else {
            let price_x_in_y = (initial_y * one) / (initial_x as int);
            if (total_sell_x * price_x_in_y) / (one as int) > u128::MAX {
                Err(TwammError::MathOverflow)
            } else {
                let sell_x_value_in_y = (total_sell_x * price_x_in_y) / (one as int);
                if sell_x_value_in_y > total_sell_y {
                    if price_x_in_y == 0 {
                        Err(TwammError::DivisionByZero)
                    } else if (total_sell_y * one) / price_x_in_y > u128::MAX {
                        Err(TwammError::MathOverflow)
                    } else if total_sell_x < (total_sell_y * one) / price_x_in_y {
                        Err(TwammError::MathOverflow)
                    } else {
                        let net_sell_x = total_sell_x - (total_sell_y * one) / price_x_in_y;
                        spec_unidirectional_state(
                            initial_x,
                            initial_y,
                            (net_sell_x / (time_blocks as int)) as u128,
                            time_blocks,
                            one,
                            true,
                        )
                    }
                } else if total_sell_y > sell_x_value_in_y {
                    let net_sell_y = total_sell_y - sell_x_value_in_y;
                    spec_unidirectional_state(
                        initial_y,
                        initial_x,
                        (net_sell_y / (time_blocks as int)) as u128,
                        time_blocks,
                        one,
                        false,
                    )
                } else {
                    Ok((initial_x, initial_y))
                }
            }
        }
    }
}

/// The virtual AMM state after `time_blocks` of continuous trading:
/// no trading leaves the reserves unchanged, exactly one nonzero rate uses
/// the unidirectional form, and two nonzero rates are netted first.
pub open spec fn spec_virtual_amm_state(
    initial_x: u128,
    initial_y: u128,
    sell_rate_x: u128,
    sell_rate_y: u128,
    time_blocks: u128,
    one: u128,
) -> Result<(u128, u128), TwammError> {
    if sell_rate_x == 0 && sell_rate_y == 0 {
        Ok((initial_x, initial_y))
    } else if sell_rate_x > 0 && sell_rate_y == 0 {
        spec_unidirectional_state(initial_x, initial_y, sell_rate_x, time_blocks, one, true)
    } else if sell_rate_y > 0 && sell_rate_x == 0 {
        spec_unidirectional_state(initial_y, initial_x, sell_rate_y, time_blocks, one, false)
    } else {
        spec_bidirectional_state(initial_x, initial_y, sell_rate_x, sell_rate_y, time_blocks, one)
    }
}

/// Σ prices[i] * weights[i], over equal-length sequences.
pub open spec fn spec_weighted_sum(prices: Seq<u128>, weights: Seq<u128>) -> int
    decreases prices.len(),
{
    if prices.len() == 0 || weights.len() == 0 {
        0
    } else {
        prices[0] * weights[0] + spec_weighted_sum(prices.drop_first(), weights.drop_first())
    }
}

/// Σ weights[i].
pub open spec fn spec_seq_sum(weights: Seq<u128>) -> int
    decreases weights.len(),
{
    if weights.len() == 0 {
        0
    } else {
        weights[0] + spec_seq_sum(weights.drop_first())
    }
}

/// The time-weighted average price: Σ p·w / Σ w, rejecting mismatched or
/// empty inputs, 128-bit overflow of either sum, and an all-zero weight.
pub open spec fn spec_twap(prices: Seq<u128>, weights: Seq<u128>) -> Result<u128, TwammError> {
    if prices.len() != weights.len() || prices.len() == 0 {
        Err(TwammError::InvalidInput)
    } else if spec_weighted_sum(prices, weights) > u128::MAX || spec_seq_sum(weights) > u128::MAX {
        Err(TwammError::MathOverflow)
    } else if spec_seq_sum(weights) == 0 {
        Err(TwammError::DivisionByZero)
    } else {
        Ok((spec_weighted_sum(prices, weights) / spec_seq_sum(weights)) as u128)
    }
}

/// Price impact of a single trade of `trade_size` against the constant
/// product, in basis points: the shortfall of the actual output below the
/// no-slippage linear estimate, as a fraction of the estimate times
/// 10000; zero (never negative) when the output reaches the estimate.
pub open spec fn spec_price_impact(
    trade_size: u128,
    reserve_in: u128,
    reserve_out: u128,
) -> Result<u128, TwammError> {
    if reserve_in == 0 || reserve_out == 0 {
        Err(TwammError::InvalidReserves)
    } else if reserve_in + trade_size > u128::MAX {
        Err(TwammError::MathOverflow)
    } else {
        let new_reserve_in = reserve_in + trade_size;
        let amount_out = reserve_out - (reserve_in * reserve_out) / new_reserve_in;
        if (trade_size * reserve_out) / (reserve_in as int) > u128::MAX {
            Err(TwammError::MathOverflow)
        } else {
            let expected_out = (trade_size * reserve_out) / (reserve_in as int);
            if expected_out <= amount_out {
                Ok(0u128)
            } else {
                Ok((((expected_out - amount_out) * 10000) / expected_out) as u128)
            }
        }
    }
}

/// The static validity conditions on a TWAMM window: nonzero reserves, a
/// time horizon in (0, 100000] blocks, per-block sell rates of at most
/// 0.1% of the respective reserve, and total sell volumes strictly below
/// the reserves.
pub open spec fn spec_validate_constraints(
    reserve_x: u128,
    reserve_y: u128,
    sell_rate_x: u128,
    sell_rate_y: u128,
    time_blocks: u128,
) -> Result<(), TwammError> {
    if reserve_x == 0 || reserve_y == 0 {
        Err(TwammError::InvalidReserves)
    } else if time_blocks == 0 || time_blocks > 100000 {
        Err(TwammError::InvalidInput)
    } else if sell_rate_x > reserve_x / 1000 || sell_rate_y > reserve_y / 1000 {
        Err(TwammError::InvalidInput)
    } else if sell_rate_x * time_blocks > u128::MAX {
        Err(TwammError::MathOverflow)
    } else if sell_rate_y * time_blocks > u128::MAX {
        Err(TwammError::MathOverflow)
    } else if sell_rate_x * time_blocks >= reserve_x || sell_rate_y * time_blocks >= reserve_y {
        Err(TwammError::InsufficientLiquidity)
    } else {
        Ok(())
    }
}

/// One bisection round of the optimal-rate search over [low, high], keeping
/// the largest rate found whose impact meets the target.
pub open spec fn spec_optimal_search(
    low: u128,
    high: u128,
    optimal: u128,
    target: u128,
    reserve_in: u128,
    reserve_out: u128,
    n: int,
) -> Result<u128, TwammError>
    decreases n,
{
    if n <= 0 {
        Ok(optimal)
    } else if low + high > u128::MAX {
        Err(TwammError::MathOverflow)
    } else {
        let mid = (((low + high) as u128) / 2) as u128;
        match spec_price_impact(mid, reserve_in, reserve_out) {
            Err(e) => Err(e),
            Ok(mid_impact) => if mid_impact <= target {
                if mid + 1 > u128::MAX {
                    Err(TwammError::MathOverflow)
                } else if high <= mid + 1 {
                    Ok(mid)
                } else {
                    spec_optimal_search(
                        (mid + 1) as u128,
                        high,
                        mid,
                        target,
                        reserve_in,
                        reserve_out,
                        n - 1,
                    )
                }
            } else {
                if (mid - 1) as u128 <= low {
                    Ok(optimal)
                } else {
                    spec_optimal_search(
                        low,
                        (mid - 1) as u128,
                        optimal,
                        target,
                        reserve_in,
                        reserve_out,
                        n - 1,
                    )
                }
            },
        }
    }
}

/// The optimal execution rate: the uniform rate `total / time` when its
/// impact already meets the target, otherwise up to fifty bisection rounds
/// below it, falling back to the idle rate zero when no probed rate meets
/// the target. A successful result always meets the target.
pub open spec fn spec_optimal_rate(
    total_amount: u128,
    available_time: u128,
    reserve_in: u128,
    reserve_out: u128,
    target_impact_bps: u128,
) -> Result<u128, TwammError> {
    if available_time == 0 {
        Err(TwammError::InvalidInput)
    } else {
        let uniform_rate = (total_amount / available_time) as u128;
        match spec_price_impact(uniform_rate, reserve_in, reserve_out) {
            Err(e) => Err(e),
            Ok(impact) => if impact <= target_impact_bps {
                Ok(uniform_rate)
            } else {
                spec_optimal_search(
                    1,
                    uniform_rate,
                    0,
                    target_impact_bps,
                    reserve_in,
                    reserve_out,
                    50,
                )
            },
        }
    }
}

/// The execution quality score: an amount-ratio component worth up to 50
/// points plus an impact-penalty component worth up to 50 points, saturating
/// at zero once the impact passes 5%; the sum stays within [0, 100].
pub open spec fn spec_execution_quality(
    expected_amount: u128,
    actual_amount: u128,
    price_impact_bps: u128,
) -> u128 {
    let scaled = if actual_amount * 50 > u128::MAX {
        u128::MAX as int
    } else {
        actual_amount * 50
    };
    let amount_ratio = if expected_amount > 0 {
        if scaled / (expected_amount as int) > 50 {
            50
        } else {
            scaled / (expected_amount as int)
        }
    } else {
        50
    };
    let impact_score = if price_impact_bps > 500 {
        let penalty = (price_impact_bps - 500) / 100;
        if penalty > 50 {
            0
        } else {
            50 - penalty
        }
    } else {
        50
    };
    (amount_ratio + impact_score) as u128
}

/// Linear execution progress `elapsed / total` in fixed point, capped at
/// one scale unit once the window has fully elapsed.
pub open spec fn spec_time_decay_factor(
    elapsed_time: u128,
    total_time: u128,
    one: u128,
) -> Result<u128, TwammError> {
    if total_time == 0 {
        Err(TwammError::InvalidInput)
    } else if elapsed_time >= total_time {
        Ok(one)
    } else if elapsed_time * one > u128::MAX {
        Err(TwammError::MathOverflow)
    } else {
        Ok(((elapsed_time * one) / (total_time as int)) as u128)
    }
}

/// Gas estimate for one operation: a base cost per operation kind plus a
/// saturating complexity surcharge.
pub open spec fn spec_gas_cost(operation_type: u8, complexity_factor: u128) -> u128 {
    let base_gas: u128 = if operation_type == 0 {
        80000
    } else if operation_type == 1 {
        150000
    } else if operation_type == 2 {
        50000
    } else {
        100000
    };
    let complexity_gas: u128 = if complexity_factor * 1000 > u128::MAX {
        u128::MAX
    } else {
        (complexity_factor * 1000) as u128
    };
    if base_gas + complexity_gas > u128::MAX {
        u128::MAX
    } else {
        (base_gas + complexity_gas) as u128
    }
}

/// Protection score against extraction by reordering: up to 50 points for
/// how widely execution is spread over time, and up to 50 for the amount of
/// randomness, saturating at full scale.
pub open spec fn spec_mev_protection_score(
    time_distribution: u128,
    randomness_factor: u128,
    one: u128,
) -> u128 {
    let time_score: int = if time_distribution > 100 {
        50
    } else {
        (time_distribution * 50) / 100
    };
    let scaled = if randomness_factor * 50 > u128::MAX {
        u128::MAX as int
    } else {
        randomness_factor * 50
    };
    let randomness_score: int = if randomness_factor > one {
        50
    } else {
        scaled / (one as int)
    };
    (time_score + randomness_score) as u128
}

/// A whole catch-up window in one step: the updated reserves from the
/// virtual AMM state at the default precision, plus the amount of each
/// token the pool received (the decrease of that reserve, zero for the
/// growing side).
pub open spec fn spec_closed_form(
    sell_rate_0: u128,
    sell_rate_1: u128,
    blocks: u128,
    reserve_0: u128,
    reserve_1: u128,
) -> Result<(u128, u128, u128, u128), TwammError> {
    if reserve_0 == 0 || reserve_1 == 0 {
        Err(TwammError::InvalidReserves)
    } else {
        match spec_virtual_amm_state(
            reserve_0,
            reserve_1,
            sell_rate_0,
            sell_rate_1,
            blocks,
            spec_pow10(DEFAULT_PRECISION as nat) as u128,
        ) {
            Err(e) => Err(e),
            Ok(p) => Ok(
                (
                    p.0,
                    p.1,
                    if p.0 < reserve_0 {
                        (reserve_0 - p.0) as u128
                    } else {
                        0
                    },
                    if p.1 < reserve_1 {
                        (reserve_1 - p.1) as u128
                    } else {
                        0
                    },
                ),
            ),
        }
    }
}

/// The output bought by dripping `sell_amount` over `duration_blocks`
/// blocks: the decrease of the outgoing reserve under the unidirectional
/// closed form at the default precision.
pub open spec fn spec_unidirectional_twamm(
    sell_amount: u128,
    duration_blocks: u128,
    reserve_in: u128,
    reserve_out: u128,
) -> Result<u128, TwammError> {
    if duration_blocks == 0 {
        Err(TwammError::InvalidInput)
    } else {
        match spec_unidirectional_state(
            reserve_in,
            reserve_out,
            (sell_amount / duration_blocks) as u128,
            duration_blocks,
            spec_pow10(DEFAULT_PRECISION as nat) as u128,
            true,
        ) {
            Err(e) => Err(e),
            Ok(p) => Ok(
                if p.1 < reserve_out {
                    (reserve_out - p.1) as u128
                } else {
                    0
                },
            ),
        }
    }
}

/// Stateless namespace for the TWAMM numerical routines.
pub struct TWAMMath;

impl TWAMMath {
    /// Integer square root by Newton iteration; `sqrt(0) == 0`.
    pub fn sqrt(x: u128) -> (r: u128)
        ensures
            r == spec_sqrt(x as nat),
            r * r <= x,
            x < (r + 1) * (r + 1),
    {
        proof {
            lemma_sqrt_bounds(x as nat);
        }
        if x == 0 {
            return 0;
        }
        if x == 1 {
            return 1;
        }
        let mut z = x;
        let mut y = x / 2 + (if x % 2 == 1 { 1u128 } else { 0u128 });
        proof {
            lemma_fundamental_div_mod(x as int, 2);
            assert((y + 1) * (y + 1) > x) by (nonlinear_arith)
                requires
                    x >= 2,
                    y >= x / 2,
                    x == 2 * (x / 2) + x % 2,
                    0 <= x % 2 < 2,
            ;
            assert((z + 1) * (z + 1) > x) by (nonlinear_arith)
                requires
                    z == x,
                    x >= 2,
            ;
        }
        while y < z
            invariant
                2 <= x,
                1 <= z,
                1 <= y,
                (y + 1) * (y + 1) > x,
                (z + 1) * (z + 1) > x,
                y >= z ==> z * z <= x,
            decreases z,
        {
            z = y;
            let q = x / z;
            y = q / 2 + z / 2 + (q % 2 + z % 2) / 2;
            proof {
                lemma_fundamental_div_mod(q as int, 2);
                lemma_fundamental_div_mod(z as int, 2);
                lemma_fundamental_div_mod((q + z) as int, 2);
                assert(y == (q + z) / 2);
                if z >= 2 {
                    assert(z / 2 >= 1);
                } else {
                    assert(z == 1);
                    assert(q as int == (x as int) / 1int);
                    assert(q == x);
                    assert(q / 2 >= 1);
                }
                assert(1 <= y);
                lemma_newton_step(x as nat, z as nat);
                if y >= z {
                    assert(q + z >= 2 * z);
                    lemma_fundamental_div_mod(x as int, z as int);
                    assert(z * z <= x) by (nonlinear_arith)
                        requires
                            x == z * (x / z) + x % z,
                            0 <= x % z,
                            q == x / z,
                            q >= z,
                            z >= 1,
                    ;
                }
            }
        }
        proof {
            lemma_sqrt_unique(x as nat, z as nat, spec_sqrt(x as nat));
        }
        z
    }

    /// Exponential `e^x` by a truncated Taylor series of twenty terms.
    /// Fails once `x` reaches fifty scale units (divergence guard) or a
    /// checked step overflows.
    pub fn exp_taylor(x: u128, precision: u32) -> (r: Result<u128, TwammError>)
        requires
            precision <= MAX_PRECISION,
        ensures
            r == spec_exp_taylor(x, spec_pow10(precision as nat) as u128),
    {
        let one = scale_factor(precision);
        proof {
            lemma_pow10_pos(precision as nat);
        }
        match one.checked_mul(50) {
            Some(guard) => if x >= guard {
                return Err(TwammError::MathOverflow);
            },
            None => {
                proof {
                    assert(x < 50 * one);
                }
            },
        }
        let mut result = one;
        let mut term = one;
        let mut i: u128 = 1;
        while i <= 20
            invariant
                1 <= one,
                one == spec_pow10(precision as nat),
                1 <= i <= 21,
                spec_exp_taylor(x, one) == spec_exp_series(x, one, result, term, i as int),
            decreases 21 - i,
        {
            let u = match mul_div(term, x, one) {
                Ok(v) => v,
                Err(_) => {
                    return Err(TwammError::MathOverflow);
                },
            };
            let tv = u / i;
            if tv == 0 {
                return Ok(result);
            }
            result = match result.checked_add(tv) {
                Some(v) => v,
                None => {
                    return Err(TwammError::MathOverflow);
                },
            };
            term = tv;
            i = i + 1;
        }
        Ok(result)
    }

    /// Fast fixed-point exponentiation by squaring; `base^0 == 1` at the
    /// given scale. Fails once an intermediate result would pass half the
    /// 128-bit range.
    pub fn power(base: u128, exp: u128, precision: u32) -> (r: Result<u128, TwammError>)
        requires
            precision <= MAX_PRECISION,
        ensures
            r == spec_power(base, exp, spec_pow10(precision as nat) as u128),
    {
        let one = scale_factor(precision);
        proof {
            lemma_pow10_pos(precision as nat);
        }
        if exp == 0 {
            return Ok(one);
        }
        let mut result = one;
        let mut base_power = base;
        let mut exponent = exp;
        while exponent > 0
            invariant
                1 <= one,
                one == spec_pow10(precision as nat),
                spec_power(base, exp, one) == spec_power_iter(base_power, exponent, result, one),
            decreases exponent,
        {
            if exponent % 2 == 1 {
                result = match mul_div(result, base_power, one) {
                    Ok(v) => v,
                    Err(_) => {
                        return Err(TwammError::MathOverflow);
                    },
                };
            }
            base_power = match mul_div(base_power, base_power, one) {
                Ok(v) => v,
                Err(_) => {
                    return Err(TwammError::MathOverflow);
                },
            };
            exponent = exponent / 2;
            if result > u128::MAX / 2 {
                return Err(TwammError::MathOverflow);
            }
        }
        Ok(result)
    }

    /// Compound growth `principal * (1 + rate)^time`, all in fixed point
    /// with the given precision.
    pub fn compound_interest(
        principal: u128,
        rate: u128,
        time: u128,
        precision: u32,
    ) -> (r: Result<u128, TwammError>)
        requires
            precision <= MAX_PRECISION,
        ensures
            r == spec_compound_interest(principal, rate, time, spec_pow10(precision as nat) as u128),
    {
        let one = scale_factor(precision);
        proof {
            lemma_pow10_pos(precision as nat);
        }
        let rate_plus_one = match one.checked_add(rate) {
            Some(v) => v,
            None => {
                return Err(TwammError::MathOverflow);
            },
        };
        let multiplier = match Self::power(rate_plus_one, time, precision) {
            Ok(v) => v,
            Err(e) => {
                return Err(e);
            },
        };
        proof {
            lemma_pow10_pos(precision as nat);
        }
        match mul_div(principal, multiplier, one) {
            Ok(v) => Ok(v),
            Err(_) => Err(TwammError::MathOverflow),
        }
    }

    /// Natural logarithm by Newton iteration on the Taylor exponential:
    /// at most fifty rounds, stopping within a millionth of a scale unit.
    /// Undefined (`InvalidInput`) at zero.
    pub fn ln_newton(x: u128, precision: u32) -> (r: Result<u128, TwammError>)
        requires
            precision <= MAX_PRECISION,
        ensures
            r == spec_ln_newton(x, spec_pow10(precision as nat) as u128),
    {
        let one = scale_factor(precision);
        proof {
            lemma_pow10_pos(precision as nat);
        }
        if x == 0 {
            return Err(TwammError::InvalidInput);
        }
        if x == one {
            return Ok(0);
        }
        let diff = if x > one {
            x - one
        } else {
            one - x
        };
        let mut y = match mul_div(diff, one, x) {
            Ok(v) => v,
            Err(_) => {
                return Err(TwammError::MathOverflow);
            },
        };
        proof {
            lemma_pow10_increases(precision as nat, 38);
            lemma_pow10_38_fits();
        }
        let two_one = 2 * one;
        let mut n: u64 = 50;
        while n > 0
            invariant
                1 <= one,
                precision <= MAX_PRECISION,
                one == spec_pow10(precision as nat),
                two_one == 2 * one,
                n <= 50,
                spec_ln_newton(x, one) == spec_ln_iter(x, one, y, n as int),
            decreases n,
        {
            let exp_y = match Self::exp_taylor(y, precision) {
                Ok(v) => v,
                Err(e) => {
                    return Err(e);
                },
            };
            if x < exp_y {
                return Err(TwammError::MathOverflow);
            }
            let denominator = match x.checked_add(exp_y) {
                Some(v) => v,
                None => {
                    return Err(TwammError::MathOverflow);
                },
            };
            if denominator == 0 {
                return Ok(y);
            }
            let delta = match mul_div(x - exp_y, two_one, denominator) {
                Ok(v) => v,
                Err(_) => {
                    return Err(TwammError::MathOverflow);
                },
            };
            let new_y = match y.checked_add(delta) {
                Some(v) => v,
                None => {
                    return Err(TwammError::MathOverflow);
                },
            };
            let eps = one / 1000000;
            if y > new_y && y - new_y < eps {
                return Ok(y);
            }
            if new_y > y && new_y - y < eps {
                return Ok(y);
            }
            y = new_y;
            n = n - 1;
        }
        Ok(y)
    }

    /// The TWAMM virtual AMM state after `time_blocks` of continuous
    /// trading at the given per-block sell rates.
    ///
    /// With both rates zero the reserves come back unchanged; a successful
    /// update never increases the constant product.
    pub fn calculate_virtual_amm_state(
        initial_x: u128,
        initial_y: u128,
        sell_rate_x: u128,
        sell_rate_y: u128,
        time_blocks: u128,
        precision: u32,
    ) -> (r: Result<(u128, u128), TwammError>)
        requires
            precision <= MAX_PRECISION,
        ensures
            r == spec_virtual_amm_state(
                initial_x,
                initial_y,
                sell_rate_x,
                sell_rate_y,
                time_blocks,
                spec_pow10(precision as nat) as u128,
            ),
            sell_rate_x == 0 && sell_rate_y == 0 ==> r == Ok::<_, TwammError>(
                (initial_x, initial_y),
            ),
            r matches Ok(p) ==> p.0 * p.1 <= initial_x * initial_y,
    {
        if sell_rate_x == 0 && sell_rate_y == 0 {
            return Ok((initial_x, initial_y));
        }
        if sell_rate_x > 0 && sell_rate_y == 0 {
            return Self::calculate_unidirectional_state(
                initial_x,
                initial_y,
                sell_rate_x,
                time_blocks,
                precision,
                true,
            );
        }
        if sell_rate_y > 0 && sell_rate_x == 0 {
            return Self::calculate_unidirectional_state(
                initial_y,
                initial_x,
                sell_rate_y,
                time_blocks,
                precision,
                false,
            );
        }
        Self::calculate_bidirectional_state(
            initial_x,
            initial_y,
            sell_rate_x,
            sell_rate_y,
            time_blocks,
            precision,
        )
    }

    /// The unidirectional closed form (see `spec_unidirectional_state`).
    /// A successful update moves the incoming reserve up, the outgoing
    /// reserve down, and never increases the constant product.
    pub fn calculate_unidirectional_state(
        reserve_in: u128,
        reserve_out: u128,
        sell_rate: u128,
        time_blocks: u128,
        precision: u32,
        is_x_to_y: bool,
    ) -> (r: Result<(u128, u128), TwammError>)
        requires
            precision <= MAX_PRECISION,
        ensures
            r == spec_unidirectional_state(
                reserve_in,
                reserve_out,
                sell_rate,
                time_blocks,
                spec_pow10(precision as nat) as u128,
                is_x_to_y,
            ),
            r matches Ok(p) ==> p.0 * p.1 <= reserve_in * reserve_out,
            is_x_to_y ==> (r matches Ok(p) ==> reserve_in <= p.0 && p.1 <= reserve_out),
            !is_x_to_y ==> (r matches Ok(p) ==> reserve_in <= p.1 && p.0 <= reserve_out),
    {
        let ghost k = (reserve_in as int) * (reserve_out as int);
        let one = scale_factor(precision);
        let total_sell_amount = match sell_rate.checked_mul(time_blocks) {
            Some(v) => v,
            None => {
                return Err(TwammError::MathOverflow);
            },
        };
        let sqrt_k = sqrt_wide(reserve_in, reserve_out);
        if sqrt_k == 0 {
            proof {
                assert(k == 0) by (nonlinear_arith)
                    requires
                        spec_sqrt(k as nat) == 0,
                        spec_sqrt(k as nat) * spec_sqrt(k as nat) <= k,
                        k < (spec_sqrt(k as nat) + 1) * (spec_sqrt(k as nat) + 1),
                        0 <= k,
                ;
            }
            return Err(TwammError::InsufficientLiquidity);
        }
        proof {
            assert(k >= 1) by (nonlinear_arith)
                requires
                    sqrt_k >= 1,
                    sqrt_k * sqrt_k <= k,
            ;
            assert(reserve_in >= 1 && reserve_out >= 1) by (nonlinear_arith)
                requires
                    k == reserve_in * reserve_out,
                    k >= 1,
            ;
            lemma_pow10_pos(precision as nat);
        }
        let decay_factor = match mul_div(total_sell_amount, one, sqrt_k) {
            Ok(v) => v,
            Err(_) => {
                return Err(TwammError::MathOverflow);
            },
        };
        let new_reserve_in: u128;
        if decay_factor < one {
            let den = match reserve_in.checked_add(sqrt_k) {
                Some(v) => v,
                None => {
                    return Err(TwammError::MathOverflow);
                },
            };
            proof {
                vstd::arithmetic::div_mod::lemma_div_is_ordered_by_denominator(
                    (total_sell_amount as int) * (reserve_in as int),
                    reserve_in as int,
                    den as int,
                );
                vstd::arithmetic::div_mod::lemma_div_multiples_vanish(
                    total_sell_amount as int,
                    reserve_in as int,
                );
                assert((total_sell_amount as int) * (reserve_in as int) == (reserve_in as int)
                    * (total_sell_amount as int)) by (nonlinear_arith);
            }
            let add = match mul_div(total_sell_amount, reserve_in, den) {
                Ok(v) => v,
                Err(e) => {
                    return Err(e);
                },
            };
            new_reserve_in = match reserve_in.checked_add(add) {
                Some(v) => v,
                None => {
                    return Err(TwammError::MathOverflow);
                },
            };
        } else {
            let t8 = match total_sell_amount.checked_mul(8) {
                Some(v) => v,
                None => {
                    return Err(TwammError::MathOverflow);
                },
            };
            new_reserve_in = match reserve_in.checked_add(t8 / 10) {
                Some(v) => v,
                None => {
                    return Err(TwammError::MathOverflow);
                },
            };
        }
        proof {
            vstd::arithmetic::div_mod::lemma_div_is_ordered_by_denominator(
                k,
                reserve_in as int,
                new_reserve_in as int,
            );
            vstd::arithmetic::div_mod::lemma_div_multiples_vanish(
                reserve_out as int,
                reserve_in as int,
            );
            assert(k / (new_reserve_in as int) <= reserve_out);
        }
        let new_reserve_out = match mul_div(reserve_in, reserve_out, new_reserve_in) {
            Ok(v) => v,
            Err(e) => {
                return Err(e);
            },
        };
        proof {
            lemma_fundamental_div_mod(k, new_reserve_in as int);
            assert(new_reserve_in * new_reserve_out <= k) by (nonlinear_arith)
                requires
                    new_reserve_in >= 1,
                    k == (new_reserve_in as int) * (k / (new_reserve_in as int)) + k % (
                    new_reserve_in as int),
                    0 <= k % (new_reserve_in as int),
                    new_reserve_out == k / (new_reserve_in as int),
            ;
            assert(new_reserve_out <= reserve_out);
            assert(new_reserve_in * new_reserve_out <= reserve_in * reserve_out);
            assert(new_reserve_out * new_reserve_in <= reserve_in * reserve_out) by (nonlinear_arith)
                requires
                    new_reserve_in * new_reserve_out <= reserve_in * reserve_out,
            ;
        }
        if is_x_to_y {
            Ok((new_reserve_in, new_reserve_out))
        } else {
            Ok((new_reserve_out, new_reserve_in))
        }
    }

    /// The bidirectional closed form (see `spec_bidirectional_state`).
    /// A successful update never increases the constant product.
    pub fn calculate_bidirectional_state(
        initial_x: u128,
        initial_y: u128,
        sell_rate_x: u128,
        sell_rate_y: u128,
        time_blocks: u128,
        precision: u32,
    ) -> (r: Result<(u128, u128), TwammError>)
        requires
            precision <= MAX_PRECISION,
        ensures
            r == spec_bidirectional_state(
                initial_x,
                initial_y,
                sell_rate_x,
                sell_rate_y,
                time_blocks,
                spec_pow10(precision as nat) as u128,
            ),
            r matches Ok(p) ==> p.0 * p.1 <= initial_x * initial_y,
    {
        let one = scale_factor(precision);
        let total_sell_x = match sell_rate_x.checked_mul(time_blocks) {
            Some(v) => v,
            None => {
                return Err(TwammError::MathOverflow);
            },
        };
        let total_sell_y = match sell_rate_y.checked_mul(time_blocks) {
            Some(v) => v,
            None => {
                return Err(TwammError::MathOverflow);
            },
        };
        if initial_x == 0 {
            return Err(TwammError::DivisionByZero);
        }
        proof {
            lemma_pow10_pos(precision as nat);
        }
        let price_x_in_y = match mul_div(initial_y, one, initial_x) {
            Ok(v) => v,
            Err(_) => {
                return Err(TwammError::MathOverflow);
            },
        };
        let sell_x_value_in_y = match mul_div(total_sell_x, price_x_in_y, one) {
            Ok(v) => v,
            Err(_) => {
                return Err(TwammError::MathOverflow);
            },
        };
        if sell_x_value_in_y > total_sell_y {
            proof {
                assert(time_blocks > 0) by (nonlinear_arith)
                    requires
                        total_sell_x == sell_rate_x * time_blocks,
                        ((total_sell_x as int) * (price_x_in_y as int)) / (one as int)
                            > total_sell_y,
                        total_sell_y >= 0,
                        one >= 1,
                ;
            }
            if price_x_in_y == 0 {
                return Err(TwammError::DivisionByZero);
            }
            let back = match mul_div(total_sell_y, one, price_x_in_y) {
                Ok(v) => v,
                Err(_) => {
                    return Err(TwammError::MathOverflow);
                },
            };
            let net_sell_x = match total_sell_x.checked_sub(back) {
                Some(v) => v,
                None => {
                    return Err(TwammError::MathOverflow);
                },
            };
            Self::calculate_unidirectional_state(
                initial_x,
                initial_y,
                net_sell_x / time_blocks,
                time_blocks,
                precision,
                true,
            )
        } else if total_sell_y > sell_x_value_in_y {
            proof {
                assert(time_blocks > 0) by (nonlinear_arith)
                    requires
                        total_sell_y == sell_rate_y * time_blocks,
                        total_sell_y > 0,
                ;
            }
            let net_sell_y = total_sell_y - sell_x_value_in_y;
            Self::calculate_unidirectional_state(
                initial_y,
                initial_x,
                net_sell_y / time_blocks,
                time_blocks,
                precision,
                false,
            )
        } else {
            Ok((initial_x, initial_y))
        }
    }

    /// The time-weighted average of `prices` under `time_weights`.
    pub fn calculate_twap(
        prices: Vec<u128>,
        time_weights: Vec<u128>,
        precision: u32,
    ) -> (r: Result<u128, TwammError>)
        requires
            precision <= MAX_PRECISION,
        ensures
            r == spec_twap(prices@, time_weights@),
    {
        if prices.len() != time_weights.len() || prices.len() == 0 {
            return Err(TwammError::InvalidInput);
        }
        let ghost ps = prices@;
        let ghost ws = time_weights@;
        proof {
            assert(ps.subrange(0, ps.len() as int) =~= ps);
            assert(ws.subrange(0, ws.len() as int) =~= ws);
        }
        let mut weighted_sum: u128 = 0;
        let mut total_weight: u128 = 0;
        let mut i: usize = 0;
        while i < prices.len()
            invariant
                prices@ == ps,
                time_weights@ == ws,
                ps.len() == ws.len(),
                0 < ps.len(),
                i <= ps.len(),
                weighted_sum + spec_weighted_sum(ps.subrange(i as int, ps.len() as int), ws.subrange(i as int, ws.len() as int)) == spec_weighted_sum(ps, ws),
                total_weight + spec_seq_sum(ws.subrange(i as int, ws.len() as int)) == spec_seq_sum(ws),
            decreases ps.len() - i,
        {
            proof {
                lemma_weighted_sum_nonneg(
                    ps.subrange(i as int + 1, ps.len() as int),
                    ws.subrange(i as int + 1, ws.len() as int),
                );
                lemma_seq_sum_nonneg(ws.subrange(i as int + 1, ws.len() as int));
                assert(ps.subrange(i as int, ps.len() as int).drop_first() == ps.subrange(
                    i as int + 1,
                    ps.len() as int,
                ));
                assert(ws.subrange(i as int, ws.len() as int).drop_first() == ws.subrange(
                    i as int + 1,
                    ws.len() as int,
                ));
            }
            let pw = match prices[i].checked_mul(time_weights[i]) {
                Some(v) => v,
                None => {
                    return Err(TwammError::MathOverflow);
                },
            };
            weighted_sum = match weighted_sum.checked_add(pw) {
                Some(v) => v,
                None => {
                    return Err(TwammError::MathOverflow);
                },
            };
            total_weight = match total_weight.checked_add(time_weights[i]) {
                Some(v) => v,
                None => {
                    return Err(TwammError::MathOverflow);
                },
            };
            i = i + 1;
        }
        proof {
            assert(ps.subrange(ps.len() as int, ps.len() as int).len() == 0);
            assert(ws.subrange(ws.len() as int, ws.len() as int).len() == 0);
        }
        if total_weight == 0 {
            return Err(TwammError::DivisionByZero);
        }
        Ok(weighted_sum / total_weight)
    }

    /// Price impact, in basis points, of trading `trade_size` at once
    /// against the constant product: the shortfall of the actual output
    /// below the no-slippage linear estimate, relative to that estimate.
    pub fn calculate_price_impact(
        trade_size: u128,
        reserve_in: u128,
        reserve_out: u128,
        precision: u32,
    ) -> (r: Result<u128, TwammError>)
        ensures
            r == spec_price_impact(trade_size, reserve_in, reserve_out),
            r matches Ok(v) ==> v <= 10000,
    {
        let _ = precision;
        if reserve_in == 0 || reserve_out == 0 {
            return Err(TwammError::InvalidReserves);
        }
        let new_reserve_in = match reserve_in.checked_add(trade_size) {
            Some(v) => v,
            None => {
                return Err(TwammError::MathOverflow);
            },
        };
        proof {
            vstd::arithmetic::div_mod::lemma_div_is_ordered_by_denominator(
                (reserve_in as int) * (reserve_out as int),
                reserve_in as int,
                new_reserve_in as int,
            );
            vstd::arithmetic::div_mod::lemma_div_multiples_vanish(
                reserve_out as int,
                reserve_in as int,
            );
        }
        let new_reserve_out = match mul_div(reserve_in, reserve_out, new_reserve_in) {
            Ok(v) => v,
            Err(e) => {
                return Err(e);
            },
        };
        let amount_out = reserve_out - new_reserve_out;
        let expected_out = match mul_div(trade_size, reserve_out, reserve_in) {
            Ok(v) => v,
            Err(e) => {
                return Err(e);
            },
        };
        if expected_out <= amount_out {
            return Ok(0);
        }
        proof {
            vstd::arithmetic::div_mod::lemma_div_is_ordered(
                ((expected_out - amount_out) as int) * 10000,
                (expected_out as int) * 10000,
                expected_out as int,
            );
            vstd::arithmetic::div_mod::lemma_div_multiples_vanish(10000, expected_out as int);
            assert((expected_out as int) * 10000 == (expected_out as int) * 10000);
            assert(((expected_out - amount_out) as int) * 10000 <= (expected_out as int) * 10000)
                by (nonlinear_arith)
                requires
                    amount_out >= 0,
                    expected_out >= amount_out,
            ;
        }
        match mul_div(expected_out - amount_out, 10000, expected_out) {
            Ok(v) => Ok(v),
            Err(e) => Err(e),
        }
    }

    /// Checks the static TWAMM constraints, reporting the first violation.
    pub fn validate_twamm_constraints(
        reserve_x: u128,
        reserve_y: u128,
        sell_rate_x: u128,
        sell_rate_y: u128,
        time_blocks: u128,
    ) -> (r: Result<(), TwammError>)
        ensures
            r == spec_validate_constraints(reserve_x, reserve_y, sell_rate_x, sell_rate_y, time_blocks),
    {
        if reserve_x == 0 || reserve_y == 0 {
            return Err(TwammError::InvalidReserves);
        }
        if time_blocks == 0 || time_blocks > 100000 {
            return Err(TwammError::InvalidInput);
        }
        let max_sell_rate_x = reserve_x / 1000;
        let max_sell_rate_y = reserve_y / 1000;
        if sell_rate_x > max_sell_rate_x || sell_rate_y > max_sell_rate_y {
            return Err(TwammError::InvalidInput);
        }
        let total_sell_x = match sell_rate_x.checked_mul(time_blocks) {
            Some(v) => v,
            None => {
                return Err(TwammError::MathOverflow);
            },
        };
        let total_sell_y = match sell_rate_y.checked_mul(time_blocks) {
            Some(v) => v,
            None => {
                return Err(TwammError::MathOverflow);
            },
        };
        if total_sell_x >= reserve_x || total_sell_y >= reserve_y {
            return Err(TwammError::InsufficientLiquidity);
        }
        Ok(())
    }

    /// An execution rate whose price impact stays within
    /// `target_impact_bps`: the uniform rate when it already qualifies,
    /// otherwise the best rate a fifty-round bisection below it finds,
    /// falling back to the idle rate zero when no probed rate qualifies.
    /// A successful result never exceeds the uniform rate and always
    /// meets the target.
    pub fn calculate_optimal_rate(
        total_amount: u128,
        available_time: u128,
        reserve_in: u128,
        reserve_out: u128,
        target_impact_bps: u128,
        precision: u32,
    ) -> (r: Result<u128, TwammError>)
        ensures
            r == spec_optimal_rate(
                total_amount,
                available_time,
                reserve_in,
                reserve_out,
                target_impact_bps,
            ),
            r matches Ok(v) ==> available_time > 0 && v <= total_amount / available_time,
            r matches Ok(v) ==> (spec_price_impact(v, reserve_in, reserve_out) matches Ok(imp)
                && imp <= target_impact_bps),
    {
        if available_time == 0 {
            return Err(TwammError::InvalidInput);
        }
        let uniform_rate = total_amount / available_time;
        let impact = match Self::calculate_price_impact(
            uniform_rate,
            reserve_in,
            reserve_out,
            precision,
        ) {
            Ok(v) => v,
            Err(e) => {
                return Err(e);
            },
        };
        if impact <= target_impact_bps {
            return Ok(uniform_rate);
        }
        proof {
            if uniform_rate == 0 {
                vstd::arithmetic::div_mod::lemma_div_multiples_vanish(
                    reserve_out as int,
                    reserve_in as int,
                );
                assert(spec_price_impact(0, reserve_in, reserve_out) == Ok::<u128, TwammError>(
                    0u128,
                ));
                assert(false);
            }
            vstd::arithmetic::div_mod::lemma_div_multiples_vanish(
                reserve_out as int,
                reserve_in as int,
            );
            assert(spec_price_impact(0, reserve_in, reserve_out) == Ok::<u128, TwammError>(0u128));
        }
        let mut low: u128 = 1;
        let mut high = uniform_rate;
        let mut optimal_rate: u128 = 0;
        let mut n: u64 = 50;
        while n > 0
            invariant
                1 <= low <= high,
                high <= total_amount / available_time,
                available_time > 0,
                n <= 50,
                spec_price_impact(0, reserve_in, reserve_out) == Ok::<u128, TwammError>(0u128),
                optimal_rate == 0 || (optimal_rate <= total_amount / available_time && (
                spec_price_impact(optimal_rate, reserve_in, reserve_out) matches Ok(imp) && imp
                    <= target_impact_bps)),
                spec_optimal_rate(
                    total_amount,
                    available_time,
                    reserve_in,
                    reserve_out,
                    target_impact_bps,
                ) == spec_optimal_search(
                    low,
                    high,
                    optimal_rate,
                    target_impact_bps,
                    reserve_in,
                    reserve_out,
                    n as int,
                ),
            decreases n,
        {
            let sum = match low.checked_add(high) {
                Some(v) => v,
                None => {
                    return Err(TwammError::MathOverflow);
                },
            };
            let mid = sum / 2;
            let mid_impact = match Self::calculate_price_impact(
                mid,
                reserve_in,
                reserve_out,
                precision,
            ) {
                Ok(v) => v,
                Err(e) => {
                    return Err(e);
                },
            };
            if mid_impact <= target_impact_bps {
                optimal_rate = mid;
                low = match mid.checked_add(1) {
                    Some(v) => v,
                    None => {
                        return Err(TwammError::MathOverflow);
                    },
                };
            } else {
                proof {
                    assert(mid >= 1);
                }
                high = mid - 1;
            }
            if high <= low {
                return Ok(optimal_rate);
            }
            n = n - 1;
        }
        Ok(optimal_rate)
    }

    /// Execution quality on a 0–100 scale: up to 50 points for the ratio of
    /// actual to expected output, and up to 50 points shrinking as the
    /// price impact passes 5%. Saturating by design: out-of-range inputs
    /// clamp instead of failing.
    pub fn calculate_execution_quality(
        expected_amount: u128,
        actual_amount: u128,
        price_impact_bps: u128,
        precision: u32,
    ) -> (r: u128)
        ensures
            r == spec_execution_quality(expected_amount, actual_amount, price_impact_bps),
            r <= 100,
    {
        let scaled = match actual_amount.checked_mul(50) {
            Some(v) => v,
            None => u128::MAX,
        };
        let amount_ratio = if expected_amount > 0 {
            let q = scaled / expected_amount;
            if q > 50 {
                50
            } else {
                q
            }
        } else {
            50
        };
        let impact_score = if price_impact_bps > 500 {
            let penalty = (price_impact_bps - 500) / 100;
            if penalty > 50 {
                0
            } else {
                50 - penalty
            }
        } else {
            50
        };
        let _ = precision;
        amount_ratio + impact_score
    }

    /// Linear execution progress `elapsed / total` in fixed point, capped
    /// at one scale unit.
    pub fn calculate_time_decay_factor(
        elapsed_time: u128,
        total_time: u128,
        precision: u32,
    ) -> (r: Result<u128, TwammError>)
        requires
            precision <= MAX_PRECISION,
        ensures
            r == spec_time_decay_factor(elapsed_time, total_time, spec_pow10(precision as nat) as u128),
    {
        if total_time == 0 {
            return Err(TwammError::InvalidInput);
        }
        let one = scale_factor(precision);
        if elapsed_time >= total_time {
            return Ok(one);
        }
        let p = match elapsed_time.checked_mul(one) {
            Some(v) => v,
            None => {
                return Err(TwammError::MathOverflow);
            },
        };
        Ok(p / total_time)
    }

    /// Gas estimate for one operation kind (0 = submit, 1 = execute,
    /// 2 = cancel) plus a complexity surcharge. Saturating by design.
    pub fn estimate_gas_cost(operation_type: u8, complexity_factor: u128) -> (r: u128)
        ensures
            r == spec_gas_cost(operation_type, complexity_factor),
    {
        let base_gas: u128 = match operation_type {
            0 => 80000,
            1 => 150000,
            2 => 50000,
            _ => 100000,
        };
        let complexity_gas = match complexity_factor.checked_mul(1000) {
            Some(v) => v,
            None => u128::MAX,
        };
        match base_gas.checked_add(complexity_gas) {
            Some(v) => v,
            None => u128::MAX,
        }
    }

    /// Protection score against extraction by reordering, on a 0–100
    /// scale. Saturating by design.
    pub fn calculate_mev_protection_score(
        time_distribution: u128,
        randomness_factor: u128,
        precision: u32,
    ) -> (r: u128)
        requires
            precision <= MAX_PRECISION,
        ensures
            r == spec_mev_protection_score(
                time_distribution,
                randomness_factor,
                spec_pow10(precision as nat) as u128,
            ),
            r <= 100,
    {
        let one = scale_factor(precision);
        proof {
            lemma_pow10_pos(precision as nat);
        }
        let time_score: u128 = if time_distribution > 100 {
            50
        } else {
            (time_distribution * 50) / 100
        };
        let scaled = match randomness_factor.checked_mul(50) {
            Some(v) => v,
            None => u128::MAX,
        };
        let randomness_score: u128 = if randomness_factor > one {
            50
        } else {
            scaled / one
        };
        proof {
            if time_distribution <= 100 {
                vstd::arithmetic::div_mod::lemma_div_is_ordered(
                    (time_distribution * 50) as int,
                    5000,
                    100,
                );
            }
            assert(time_score <= 50);
            if randomness_factor <= one {
                if randomness_factor * 50 <= u128::MAX {
                    assert(scaled <= one * 50) by (nonlinear_arith)
                        requires
                            scaled == randomness_factor * 50,
                            randomness_factor <= one,
                    ;
                    vstd::arithmetic::div_mod::lemma_div_is_ordered(
                        scaled as int,
                        (one as int) * 50,
                        one as int,
                    );
                    vstd::arithmetic::div_mod::lemma_div_multiples_vanish(50, one as int);
                    assert(randomness_score <= 50);
                } else {
                    assert(scaled == u128::MAX);
                    let m = u128::MAX as int;
                    assert(50 * (one as int) > m) by (nonlinear_arith)
                        requires
                            randomness_factor * 50 > m,
                            randomness_factor <= one,
                    ;
                    lemma_fundamental_div_mod(m, one as int);
                    assert(m / (one as int) <= 50) by (nonlinear_arith)
                        requires
                            m == (one as int) * (m / (one as int)) + m % (one as int),
                            0 <= m % (one as int),
                            m % (one as int) < one,
                            50 * (one as int) > m,
                            1 <= one,
                            0 <= m / (one as int),
                    ;
                    assert(randomness_score <= 50);
                }
            }
            assert(randomness_score <= 50);
        }
        time_score + randomness_score
    }

    /// One whole catch-up window: the virtual AMM state at the default
    /// precision plus the received amount per token (the decrease of that
    /// reserve). A successful update never increases the constant product.
    pub fn execute_virtual_orders_closed_form(
        sell_rate_0: u128,
        sell_rate_1: u128,
        blocks: u128,
        reserve_0: u128,
        reserve_1: u128,
    ) -> (r: Result<(u128, u128, u128, u128), TwammError>)
        ensures
            r == spec_closed_form(sell_rate_0, sell_rate_1, blocks, reserve_0, reserve_1),
            r matches Ok(p) ==> p.0 * p.1 <= reserve_0 * reserve_1,
            r matches Ok(p) ==> p.2 <= reserve_0 && p.3 <= reserve_1,
    {
        if reserve_0 == 0 || reserve_1 == 0 {
            return Err(TwammError::InvalidReserves);
        }
        let (new_reserve_0, new_reserve_1) = match Self::calculate_virtual_amm_state(
            reserve_0,
            reserve_1,
            sell_rate_0,
            sell_rate_1,
            blocks,
            DEFAULT_PRECISION,
        ) {
            Ok(p) => p,
            Err(e) => {
                return Err(e);
            },
        };
        let amount_0_received = if new_reserve_0 < reserve_0 {
            reserve_0 - new_reserve_0
        } else {
            0
        };
        let amount_1_received = if new_reserve_1 < reserve_1 {
            reserve_1 - new_reserve_1
        } else {
            0
        };
        Ok((new_reserve_0, new_reserve_1, amount_0_received, amount_1_received))
    }

    /// The output bought by dripping `sell_amount` over `duration_blocks`
    /// against reserves `(reserve_in, reserve_out)`, at the default
    /// precision.
    pub fn calculate_unidirectional_twamm(
        sell_amount: u128,
        duration_blocks: u128,
        reserve_in: u128,
        reserve_out: u128,
    ) -> (r: Result<u128, TwammError>)
        ensures
            r == spec_unidirectional_twamm(sell_amount, duration_blocks, reserve_in, reserve_out),
            r matches Ok(v) ==> v <= reserve_out,
    {
        if duration_blocks == 0 {
            return Err(TwammError::InvalidInput);
        }
        let rate = sell_amount / duration_blocks;
        let (_, new_reserve_out) = match Self::calculate_unidirectional_state(
            reserve_in,
            reserve_out,
            rate,
            duration_blocks,
            DEFAULT_PRECISION,
            true,
        ) {
            Ok(p) => p,
            Err(e) => {
                return Err(e);
            },
        };
        if new_reserve_out < reserve_out {
            Ok(reserve_out - new_reserve_out)
        } else {
            Ok(0)
        }
    }
}

proof fn lemma_weighted_sum_nonneg(prices: Seq<u128>, weights: Seq<u128>)
    ensures
        spec_weighted_sum(prices, weights) >= 0,
    decreases prices.len(),
{
    if prices.len() > 0 && weights.len() > 0 {
        lemma_weighted_sum_nonneg(prices.drop_first(), weights.drop_first());
        assert(prices[0] * weights[0] >= 0) by (nonlinear_arith);
    }
}

proof fn lemma_seq_sum_nonneg(weights: Seq<u128>)
    ensures
        spec_seq_sum(weights) >= 0,
    decreases weights.len(),
{
    if weights.len() > 0 {
        lemma_seq_sum_nonneg(weights.drop_first());
    }
}

} // verus!
