//! IEEE-754 binary64 numbers, read from their bit patterns.
//!
//! A pattern has a sign bit, an 11-bit exponent field and a 52-bit fraction
//! field. A finite number is `significand * 2^scale`, negated where the sign
//! bit is set.

use vstd::arithmetic::div_mod::{
    lemma_basic_div, lemma_div_denominator, lemma_div_multiples_vanish, lemma_fundamental_div_mod,
    lemma_fundamental_div_mod_converse, lemma_mod_bound, lemma_small_mod,
};
use vstd::arithmetic::power2::{
    lemma2_to64, lemma2_to64_rest, lemma_pow2_adds, lemma_pow2_pos, lemma_pow2_strictly_increases,
    lemma_pow2_unfold, pow2,
};
use vstd::bits::{lemma_u64_shl_is_mul, lemma_u64_shr_is_div};
use vstd::prelude::*;

verus! {

/// Two to the power 52: the weight of the implicit leading bit.
pub const HIDDEN_BIT: u64 = 0x10_0000_0000_0000;

/// Two to the power 63: the sign bit.
pub const SIGN_BIT: u64 = 0x8000_0000_0000_0000;

/// The exponent field of infinities and NaNs.
pub const EXPONENT_MAX: u64 = 0x7ff;

/// Whether the sign bit is set.
pub open spec fn is_negative(bits: u64) -> bool {
    bits >= SIGN_BIT
}

/// The exponent field.
pub open spec fn exponent(bits: u64) -> int {
    (bits / HIDDEN_BIT) as int % 0x800
}

/// The fraction field.
pub open spec fn fraction(bits: u64) -> int {
    (bits % HIDDEN_BIT) as int
}

/// Whether the pattern is a NaN.
pub open spec fn is_nan(bits: u64) -> bool {
    exponent(bits) == EXPONENT_MAX && fraction(bits) != 0
}

/// Whether the pattern is an infinity.
pub open spec fn is_infinite(bits: u64) -> bool {
    exponent(bits) == EXPONENT_MAX && fraction(bits) == 0
}

/// Whether the pattern is a number: neither an infinity nor a NaN.
pub open spec fn is_finite(bits: u64) -> bool {
    exponent(bits) != EXPONENT_MAX
}

/// Whether the pattern is one of the two zeros.
pub open spec fn is_zero(bits: u64) -> bool {
    exponent(bits) == 0 && fraction(bits) == 0
}

/// The significand of a finite number: the fraction, with the implicit
/// leading bit unless the number is subnormal.
pub open spec fn significand(bits: u64) -> int {
    if exponent(bits) == 0 {
        fraction(bits)
    } else {
        fraction(bits) + HIDDEN_BIT
    }
}

/// The power of two that scales the significand of a finite number.
pub open spec fn scale(bits: u64) -> int {
    if exponent(bits) == 0 {
        -1074
    } else {
        exponent(bits) - 1075
    }
}

/// Whether the pattern is a finite number without a fractional part.
pub open spec fn is_integral(bits: u64) -> bool {
    is_finite(bits) && (scale(bits) >= 0 || significand(bits) % (pow2((-scale(bits)) as nat) as int)
        == 0)
}

/// Whether the number is zero, of either sign.
pub fn zero(bits: u64) -> (b: bool)
    ensures
        b == is_zero(bits),
{
    bits % SIGN_BIT == 0
}

/// Whether the number is finite and has no fractional part.
pub fn integral(bits: u64) -> (b: bool)
    ensures
        b == is_integral(bits),
{
    let e: u64 = (bits / HIDDEN_BIT) % 0x800;
    let f: u64 = bits % HIDDEN_BIT;
    if e == EXPONENT_MAX {
        false
    } else if e >= 1075 {
        true
    } else if e == 0 {
        proof {
            lemma2_to64_rest();
            lemma_pow2_strictly_increases(52, 1074);
            assert(pow2(52) == HIDDEN_BIT);
            assert(0int % (pow2(1074) as int) == 0);
            if f != 0 {
                lemma_small_mod(f as nat, pow2(1074));
            }
            assert(is_integral(bits) == (f == 0));
        }
        f == 0
    } else if e < 1023 {
        proof {
            lemma2_to64_rest();
            let k = (1075 - e) as nat;
            if k > 53 {
                lemma_pow2_strictly_increases(53, k);
            }
            lemma_small_mod((f + HIDDEN_BIT) as nat, pow2(k));
            assert(!is_integral(bits));
        }
        false
    } else {
        let k: u64 = 1075 - e;
        proof {
            lemma2_to64();
            lemma2_to64_rest();
            lemma_pow2_strictly_increases(k as nat, 53);
            lemma_u64_shl_is_mul(1, k);
            assert((1u64 << k) == pow2(k as nat));
            assert(is_integral(bits) == ((f + HIDDEN_BIT) % (1u64 << k) as int == 0));
        }
        (f + HIDDEN_BIT) % (1u64 << k) == 0
    }
}

/// The whole part of the magnitude of a finite number.
pub open spec fn whole(bits: u64) -> int {
    if scale(bits) >= 0 {
        significand(bits) * pow2(scale(bits) as nat)
    } else {
        significand(bits) / (pow2((-scale(bits)) as nat) as int)
    }
}

/// A finite number without its fractional part: rounded toward zero.
pub open spec fn truncated(bits: u64) -> int {
    if is_negative(bits) {
        -whole(bits)
    } else {
        whole(bits)
    }
}

/// The 64-bit signed integer that the number becomes: a finite number is
/// truncated toward zero and held to the range of the type, an infinity is
/// the end of the range on its side, a NaN is zero.
pub open spec fn as_i64(bits: u64) -> i64 {
    if is_nan(bits) {
        0
    } else if is_infinite(bits) {
        if is_negative(bits) {
            i64::MIN
        } else {
            i64::MAX
        }
    } else if truncated(bits) < i64::MIN {
        i64::MIN
    } else if truncated(bits) > i64::MAX {
        i64::MAX
    } else {
        truncated(bits) as i64
    }
}

/// The number as a 64-bit signed integer: truncated toward zero, saturating.
pub fn truncate(bits: u64) -> (r: i64)
    ensures
        r == as_i64(bits),
{
    let negative = bits >= SIGN_BIT;
    let e: u64 = (bits / HIDDEN_BIT) % 0x800;
    let f: u64 = bits % HIDDEN_BIT;
    proof {
        lemma2_to64();
        lemma2_to64_rest();
    }
    if e == EXPONENT_MAX && f != 0 {
        0
    } else if e < 1023 {
        proof {
            let k = (-scale(bits)) as nat;
            if k > 53 {
                lemma_pow2_strictly_increases(53, k);
            }
            lemma_basic_div(significand(bits), pow2(k) as int);
        }
        0
    } else if e >= 1086 {
        proof {
            if e != EXPONENT_MAX {
                let s = scale(bits) as nat;
                if s > 11 {
                    lemma_pow2_strictly_increases(11, s);
                }
                let p = pow2(s) as int;
                let m = significand(bits);
                assert(m * p >= 0x8000_0000_0000_0000) by (nonlinear_arith)
                    requires
                        m >= 0x10_0000_0000_0000,
                        p >= 0x800,
                ;
            }
        }
        if negative {
            i64::MIN
        } else {
            i64::MAX
        }
    } else {
        let m: u64 = f + HIDDEN_BIT;
        let magnitude: u64 = if e >= 1075 {
            let s: u64 = e - 1075;
            proof {
                if s < 10 {
                    lemma_pow2_strictly_increases(s as nat, 10);
                }
                let p = pow2(s as nat) as int;
                assert(m * p < 0x8000_0000_0000_0000) by (nonlinear_arith)
                    requires
                        0 <= m < 0x20_0000_0000_0000,
                        0 <= p <= 0x400,
                ;
                lemma_u64_shl_is_mul(m, s);
            }
            m << s
        } else {
            let k: u64 = 1075 - e;
            proof {
                lemma_u64_shr_is_div(m, k);
                lemma_pow2_pos(k as nat);
            }
            m >> k
        };
        assert(magnitude == whole(bits));
        if negative {
            -(magnitude as i64)
        } else {
            magnitude as i64
        }
    }
}

/// The position of the leading bit of a positive number: the `e` with
/// `2^e <= n < 2^(e + 1)`.
pub open spec fn log2(n: nat) -> nat
    decreases n,
{
    if n < 2 {
        0
    } else {
        1 + log2(n / 2)
    }
}

/// `n / 2^k` rounded to the nearest integer, a tie going to the even one.
pub open spec fn round_half_even(n: nat, k: nat) -> nat {
    let unit = pow2(k);
    let q = n / unit;
    let r = n % unit;
    if 2 * r > unit || (2 * r == unit && q % 2 == 1) {
        q + 1
    } else {
        q
    }
}

/// The pattern with this sign, exponent field and fraction field.
pub open spec fn pack(negative: bool, exponent: int, fraction: int) -> u64 {
    ((if negative {
        SIGN_BIT as int
    } else {
        0
    }) + exponent * HIDDEN_BIT + fraction) as u64
}

/// The binary64 number nearest to an integer, a tie going to the one with
/// the even significand. A number of at most 53 bits is kept exactly.
pub open spec fn nearest(x: int) -> u64 {
    if x == 0 {
        0
    } else {
        let n = (if x < 0 {
            -x
        } else {
            x
        }) as nat;
        let e = log2(n);
        if e <= 52 {
            pack(x < 0, (e + 1023) as int, n * pow2((52 - e) as nat) - HIDDEN_BIT)
        } else {
            let m = round_half_even(n, (e - 52) as nat);
            if m == 2 * HIDDEN_BIT {
                pack(x < 0, (e + 1024) as int, 0)
            } else {
                pack(x < 0, (e + 1023) as int, m - HIDDEN_BIT)
            }
        }
    }
}

/// A quotient times its divisor is at most the dividend, and the next multiple is above it.
proof fn lemma_quotient_bounds(n: int, d: int)
    requires
        0 <= n,
        0 < d,
    ensures
        d * (n / d) <= n < d * (n / d) + d,
{
    lemma_fundamental_div_mod(n, d);
    lemma_mod_bound(n, d);
}

/// The position of the leading bit of a positive number.
fn leading_bit(n: u64) -> (e: u64)
    requires
        n >= 1,
    ensures
        e == log2(n as nat),
        e <= 63,
        pow2(e as nat) <= n < 2 * pow2(e as nat),
{
    let mut e: u64 = 0;
    let mut top: u64 = n;
    proof {
        lemma2_to64();
    }
    while top >= 2
        invariant
            1 <= top,
            e <= 63,
            top == n as int / (pow2(e as nat) as int),
            log2(n as nat) == e + log2(top as nat),
        decreases top,
    {
        proof {
            let d = pow2(e as nat) as int;
            lemma_pow2_pos(e as nat);
            lemma_pow2_unfold((e + 1) as nat);
            lemma_div_denominator(n as int, d, 2);
            lemma_quotient_bounds(n as int, d);
            assert(2 * d <= n) by (nonlinear_arith)
                requires
                    d * (n as int / d) <= n,
                    n as int / d >= 2,
                    d > 0,
            ;
            if e + 1 > 63 {
                lemma2_to64();
                if e + 1 > 64 {
                    lemma_pow2_strictly_increases(64, (e + 1) as nat);
                }
            }
        }
        top = top / 2;
        e = e + 1;
    }
    proof {
        lemma_pow2_pos(e as nat);
        lemma_quotient_bounds(n as int, pow2(e as nat) as int);
    }
    e
}

/// The binary64 number nearest to an integer.
pub fn from_i64(i: i64) -> (bits: u64)
    ensures
        bits == nearest(i as int),
{
    if i == 0 {
        return 0;
    }
    let negative = i < 0;
    let n: u64 = if negative {
        (-(i + 1)) as u64 + 1
    } else {
        i as u64
    };
    let e = leading_bit(n);
    let sign: u64 = if negative {
        SIGN_BIT
    } else {
        0
    };
    proof {
        lemma2_to64();
        lemma2_to64_rest();
        if e == 63 {
            assert(n == 0x8000_0000_0000_0000);
        }
    }
    if e <= 52 {
        let s: u64 = 52 - e;
        proof {
            let p = pow2(s as nat) as int;
            let low = pow2(e as nat) as int;
            lemma_pow2_adds(e as nat, s as nat);
            lemma_pow2_pos(s as nat);
            assert(0x10_0000_0000_0000 <= n * p < 0x20_0000_0000_0000) by (nonlinear_arith)
                requires
                    low <= n < 2 * low,
                    low * p == 0x10_0000_0000_0000,
                    p > 0,
            ;
            lemma_u64_shl_is_mul(n, s);
        }
        let m: u64 = n << s;
        sign + (e + 1023) * HIDDEN_BIT + (m - HIDDEN_BIT)
    } else {
        let k: u64 = e - 52;
        proof {
            lemma_u64_shl_is_mul(1, k);
            lemma_pow2_unfold(k as nat);
            lemma_pow2_pos((k - 1) as nat);
            lemma_pow2_adds(52, k as nat);
            if k < 11 {
                lemma_pow2_strictly_increases(k as nat, 11);
            }
        }
        let unit: u64 = 1u64 << k;
        let q: u64 = n / unit;
        let r: u64 = n % unit;
        let half: u64 = unit / 2;
        proof {
            lemma_quotient_bounds(n as int, unit as int);
            assert(0x10_0000_0000_0000 <= q < 0x20_0000_0000_0000) by (nonlinear_arith)
                requires
                    unit * q <= n < unit * q + unit,
                    0x10_0000_0000_0000 * unit <= n < 2 * (0x10_0000_0000_0000 * unit),
                    unit > 0,
            ;
        }
        let m: u64 = if r > half || (r == half && q % 2 == 1) {
            q + 1
        } else {
            q
        };
        assert(m == round_half_even(n as nat, k as nat));
        if m == 2 * HIDDEN_BIT {
            sign + (e + 1024) * HIDDEN_BIT
        } else {
            sign + (e + 1023) * HIDDEN_BIT + (m - HIDDEN_BIT)
        }
    }
}

/// The leading bit of a positive number is where the number lies between
/// two powers of two.
pub proof fn lemma_log2_bounds(n: nat)
    requires
        n >= 1,
    ensures
        pow2(log2(n)) <= n < 2 * pow2(log2(n)),
    decreases n,
{
    lemma2_to64();
    if n >= 2 {
        lemma_log2_bounds(n / 2);
        lemma_pow2_unfold(log2(n));
        lemma_quotient_bounds(n as int, 2);
    }
}

/// A pattern packed from its three fields has those fields.
pub proof fn lemma_unpack(negative: bool, e: int, f: int)
    requires
        0 <= e < 0x800,
        0 <= f < HIDDEN_BIT,
    ensures
        is_negative(pack(negative, e, f)) == negative,
        exponent(pack(negative, e, f)) == e,
        fraction(pack(negative, e, f)) == f,
{
    let sign: int = if negative {
        0x800
    } else {
        0
    };
    let bits = pack(negative, e, f);
    assert(bits == (sign + e) * HIDDEN_BIT + f);
    lemma_fundamental_div_mod_converse(bits as int, HIDDEN_BIT as int, sign + e, f);
    lemma_fundamental_div_mod_converse(
        sign + e,
        0x800,
        if negative {
            1
        } else {
            0
        },
        e,
    );
}

/// An integer of at most 53 bits is a float: the float nearest to it is the
/// integer itself, and comes back as that integer.
pub proof fn lemma_small_integers_exact(x: int)
    requires
        -0x20_0000_0000_0000 <= x <= 0x20_0000_0000_0000,
    ensures
        is_finite(nearest(x)),
        is_integral(nearest(x)),
        truncated(nearest(x)) == x,
        as_i64(nearest(x)) == x,
{
    lemma2_to64();
    lemma2_to64_rest();
    let bits = nearest(x);
    if x == 0 {
        lemma_unpack(false, 0, 0);
        lemma_pow2_pos(1074);
        lemma_basic_div(0, pow2(1074) as int);
        assert(0int % (pow2(1074) as int) == 0);
    } else {
        let n = (if x < 0 {
            -x
        } else {
            x
        }) as nat;
        let e = log2(n);
        lemma_log2_bounds(n);
        if e > 53 {
            lemma_pow2_strictly_increases(53, e);
        }
        if e <= 52 {
            let s = (52 - e) as nat;
            let p = pow2(s) as int;
            let low = pow2(e) as int;
            lemma_pow2_adds(e, s);
            lemma_pow2_pos(s);
            assert(0x10_0000_0000_0000 <= n * p < 0x20_0000_0000_0000) by (nonlinear_arith)
                requires
                    low <= n < 2 * low,
                    low * p == 0x10_0000_0000_0000,
                    p > 0,
            ;
            lemma_unpack(x < 0, (e + 1023) as int, n * p - HIDDEN_BIT);
            assert(significand(bits) == n * p);
            assert(scale(bits) == e - 52);
            if e == 52 {
                assert(p == 1);
                assert(n * p == n) by (nonlinear_arith)
                    requires
                        p == 1,
                ;
            } else {
                assert((-scale(bits)) as nat == s);
                lemma_div_multiples_vanish(n as int, p);
                vstd::arithmetic::div_mod::lemma_mod_multiples_basic(n as int, p);
                assert((n * p) / p == n && (n * p) % p == 0) by {
                    assert(n * p == p * n) by (nonlinear_arith);
                }
            }
            assert(whole(bits) == n);
        } else {
            assert(n == 0x20_0000_0000_0000);
            assert(round_half_even(n, 1) == 0x10_0000_0000_0000);
            lemma_unpack(x < 0, 1076, 0);
            assert(whole(bits) == n);
        }
    }
}

/// The float nearest to an integer is off by at most half of its last
/// place: it is finite, has the integer's sign, and twice the distance from
/// its magnitude to the integer's is at most the weight of the last bit of
/// its significand. Both magnitudes are taken `2^52` times, which keeps them
/// whole.
pub proof fn lemma_nearest_is_near(x: int)
    requires
        x != 0,
        -0x1_0000_0000_0000_0000 < x < 0x1_0000_0000_0000_0000,
    ensures
        is_finite(nearest(x)),
        is_negative(nearest(x)) == (x < 0),
        scale(nearest(x)) >= -52,
        ({
            let bits = nearest(x);
            let n = if x < 0 {
                -x
            } else {
                x
            };
            let unit = pow2((scale(bits) + 52) as nat) as int;
            let value = significand(bits) * unit;
            let exact = n * 0x10_0000_0000_0000;
            -unit <= 2 * (value - exact) <= unit
        }),
{
    lemma2_to64();
    lemma2_to64_rest();
    let bits = nearest(x);
    let n = (if x < 0 {
        -x
    } else {
        x
    }) as nat;
    let e = log2(n);
    lemma_log2_bounds(n);
    if e > 64 {
        lemma_pow2_strictly_increases(64, e);
    }
    assert(e <= 63);
    let low = pow2(e) as int;
    if e <= 52 {
        let s = (52 - e) as nat;
        let p = pow2(s) as int;
        lemma_pow2_adds(e, s);
        lemma_pow2_pos(s);
        lemma_pow2_pos(e);
        assert(0x10_0000_0000_0000 <= n * p < 0x20_0000_0000_0000) by (nonlinear_arith)
            requires
                low <= n < 2 * low,
                low * p == 0x10_0000_0000_0000,
                p > 0,
        ;
        lemma_unpack(x < 0, (e + 1023) as int, n * p - HIDDEN_BIT);
        assert(significand(bits) == n * p);
        assert(scale(bits) + 52 == e);
        assert((n * p) * low == n * 0x10_0000_0000_0000) by (nonlinear_arith)
            requires
                low * p == 0x10_0000_0000_0000,
        ;
    } else {
        let k = (e - 52) as nat;
        let unit = pow2(k) as int;
        let q = n as int / unit;
        let r = n as int % unit;
        let m = round_half_even(n, k) as int;
        lemma_pow2_pos(k);
        lemma_pow2_adds(52, k);
        lemma_pow2_adds(52, k + 1);
        lemma_pow2_unfold(k + 1);
        lemma_fundamental_div_mod(n as int, unit);
        lemma_mod_bound(n as int, unit);
        assert(0x10_0000_0000_0000 <= q < 0x20_0000_0000_0000) by (nonlinear_arith)
            requires
                n == unit * q + r,
                0 <= r < unit,
                0x10_0000_0000_0000 * unit <= n < 2 * (0x10_0000_0000_0000 * unit),
                unit > 0,
        ;
        let high = pow2(52 + k) as int;
        assert(high == 0x10_0000_0000_0000 * unit);
        if m == 2 * HIDDEN_BIT {
            lemma_unpack(x < 0, (e + 1024) as int, 0);
            assert(scale(bits) + 52 == k + 1 + 52);
            let big = pow2(52 + k + 1) as int;
            assert(big == 2 * high);
            assert(-big <= 2 * (HIDDEN_BIT * big - n * 0x10_0000_0000_0000) <= big)
                by (nonlinear_arith)
                requires
                    n == unit * q + r,
                    q + 1 == 0x20_0000_0000_0000,
                    0 <= r < unit,
                    2 * r >= unit,
                    big == 2 * (0x10_0000_0000_0000 * unit),
                    unit > 0,
            ;
        } else {
            lemma_unpack(x < 0, (e + 1023) as int, m - HIDDEN_BIT);
            assert(significand(bits) == m);
            assert(scale(bits) + 52 == k + 52);
            assert(-high <= 2 * (m * high - n * 0x10_0000_0000_0000) <= high) by (nonlinear_arith)
                requires
                    n == unit * q + r,
                    0 <= r < unit,
                    (m == q && 2 * r <= unit) || (m == q + 1 && 2 * r >= unit),
                    high == 0x10_0000_0000_0000 * unit,
                    unit > 0,
            ;
        }
    }
}

/// What a reading comes to where a number is wanted in any case: the number
/// read, or positive zero where none was.
pub fn float_or_zero(parsed: Option<u64>) -> (bits: u64)
    ensures
        bits == match parsed {
            Some(read) => read,
            None => 0,
        },
{
    match parsed {
        Some(read) => read,
        None => 0,
    }
}

} // verus!
