//! Reading a text as a decimal integer.
//!
//! A text is an integer where it holds an optional sign and one or more
//! decimal digits, with nothing but white space before and after them. The
//! digits are added up by an outside reader, which is more lenient than
//! that: [`numeral`] says how it reads. It is called only on a text that has
//! been found to be an integer within its reach.

use crate::text::chars_of;
use vstd::prelude::*;

verus! {

/// Whether a character is white space, as Unicode defines it.
pub open spec fn is_whitespace(c: char) -> bool {
    let u = c as u32;
    ||| 0x09 <= u <= 0x0d
    ||| u == 0x20
    ||| u == 0x85
    ||| u == 0xa0
    ||| u == 0x1680
    ||| 0x2000 <= u <= 0x200a
    ||| u == 0x2028
    ||| u == 0x2029
    ||| u == 0x202f
    ||| u == 0x205f
    ||| u == 0x3000
}

/// What a character counts as a digit in radix ten or sixteen, if anything.
pub open spec fn digit_value(c: char, radix: int) -> Option<int> {
    let u = c as u32 as int;
    if 0x30 <= u <= 0x39 {
        Some(u - 0x30)
    } else if radix == 16 && 0x61 <= u <= 0x66 {
        Some(u - 0x61 + 10)
    } else if radix == 16 && 0x41 <= u <= 0x46 {
        Some(u - 0x41 + 10)
    } else {
        None
    }
}

/// How many white-space characters a text begins with.
pub open spec fn leading_whitespace(s: Seq<char>) -> nat
    decreases s.len(),
{
    if s.len() > 0 && is_whitespace(s[0]) {
        1 + leading_whitespace(s.drop_first())
    } else {
        0
    }
}

/// How many digits a text begins with.
pub open spec fn leading_digits(s: Seq<char>, radix: int) -> nat
    decreases s.len(),
{
    if s.len() > 0 && digit_value(s[0], radix) is Some {
        1 + leading_digits(s.drop_first(), radix)
    } else {
        0
    }
}

/// The number that a run of digits denotes.
pub open spec fn digits_value(s: Seq<char>, radix: int) -> nat
    decreases s.len(),
{
    if s.len() == 0 {
        0
    } else {
        (digits_value(s.drop_last(), radix) * radix + digit_value(s.last(), radix).unwrap()) as nat
    }
}

/// An integer as it is written: a sign and a magnitude of any size.
pub struct Numeral {
    pub negative: bool,
    pub magnitude: nat,
}

impl Numeral {
    /// The integer that is written.
    pub open spec fn value(self) -> int {
        if self.negative {
            -(self.magnitude as int)
        } else {
            self.magnitude as int
        }
    }
}

/// The integer that the outside reader finds at the start of a text, if it
/// finds one: after any white space, an optional sign, then either `0x` or
/// `0X` and at least one hexadecimal digit, or at least one decimal digit.
/// What follows the digits is passed over.
pub open spec fn numeral(s: Seq<char>) -> Option<Numeral> {
    let t = s.skip(leading_whitespace(s) as int);
    let signed = t.len() > 0 && (t[0] == '+' || t[0] == '-');
    let body = if signed {
        t.skip(1)
    } else {
        t
    };
    let hex = body.len() >= 2 && body[0] == '0' && (body[1] == 'x' || body[1] == 'X');
    let radix: int = if hex {
        16
    } else {
        10
    };
    let rest = if hex {
        body.skip(2)
    } else {
        body
    };
    let count = leading_digits(rest, radix);
    if count == 0 {
        None
    } else {
        Some(
            Numeral {
                negative: signed && t[0] == '-',
                magnitude: digits_value(rest.take(count as int), radix),
            },
        )
    }
}

/// What the outside reader returns for a text whose integer, if it begins
/// with one, has a magnitude within the largest 64-bit signed integer.
pub open spec fn leading_i64(s: Seq<char>) -> Option<i64> {
    match numeral(s) {
        Some(l) => if l.magnitude <= i64::MAX {
            Some(l.value() as i64)
        } else {
            None
        },
        None => None,
    }
}

/// The 64-bit signed integer that a text is the decimal form of: after any
/// white space, an optional sign and one or more decimal digits, followed by
/// nothing but white space. None where the text has another shape, or where
/// the integer is out of the range of the type.
pub open spec fn decimal_i64(s: Seq<char>) -> Option<i64> {
    let t = s.skip(leading_whitespace(s) as int);
    let signed = t.len() > 0 && (t[0] == '+' || t[0] == '-');
    let body = if signed {
        t.skip(1)
    } else {
        t
    };
    let count = leading_digits(body, 10);
    let tail = body.skip(count as int);
    let magnitude = digits_value(body.take(count as int), 10) as int;
    let value = if signed && t[0] == '-' {
        -magnitude
    } else {
        magnitude
    };
    if count > 0 && leading_whitespace(tail) == tail.len() && i64::MIN <= value <= i64::MAX {
        Some(value as i64)
    } else {
        None
    }
}

/// Calls `num_parse::parse_int::<i64>`. It passes over leading white space,
/// takes an optional sign, an optional `0x` or `0X`, and the digits that
/// follow, and returns their number with that sign, or nothing where there is
/// no digit. It adds the digits up with checked arithmetic and panics on
/// overflow: the magnitude must fit.
#[verifier::external_body]
fn parse_int(text: &str) -> (r: Option<i64>)
    requires
        numeral(text@) matches Some(l) ==> l.magnitude <= i64::MAX,
    ensures
        r == leading_i64(text@),
{
    num_parse::parse_int::<i64>(text)
}

/// Whether a character is white space.
fn whitespace(c: char) -> (b: bool)
    ensures
        b == is_whitespace(c),
{
    let u: u32 = c as u32;
    (0x09 <= u && u <= 0x0d) || u == 0x20 || u == 0x85 || u == 0xa0 || u == 0x1680 || (0x2000 <= u
        && u <= 0x200a) || u == 0x2028 || u == 0x2029 || u == 0x202f || u == 0x205f || u == 0x3000
}

/// What a character counts as a decimal digit, if anything.
fn digit(c: char) -> (d: Option<u64>)
    ensures
        d matches Some(v) ==> digit_value(c, 10) == Some(v as int) && v < 10,
        d is None ==> digit_value(c, 10) is None,
{
    let u: u64 = c as u32 as u64;
    if 0x30 <= u && u <= 0x39 {
        Some(u - 0x30)
    } else {
        None
    }
}

/// The magnitude of the least 64-bit signed integer.
const LEAST_MAGNITUDE: u64 = 0x8000_0000_0000_0000;

/// The 64-bit signed integer that a text is the decimal form of, if it is one.
///
/// The shape and the range are found here. The number itself is the outside
/// reader's, but for the least integer, whose magnitude is beyond its reach.
pub fn parse_i64(text: &str) -> (r: Option<i64>)
    ensures
        r == decimal_i64(text@),
{
    let s = chars_of(text);
    let n = s.len();
    let mut i: usize = 0;
    assert(s@.skip(0) =~= s@);
    while i < n && whitespace(s[i])
        invariant
            i <= n,
            n == s@.len(),
            leading_whitespace(s@) == i + leading_whitespace(s@.skip(i as int)),
        decreases n - i,
    {
        assert(s@.skip(i as int).drop_first() =~= s@.skip(i + 1));
        i += 1;
    }
    assert(leading_whitespace(s@) == i);
    let ghost t = s@.skip(i as int);
    let negative = i < n && s[i] == '-';
    let mut j: usize = i;
    if j < n && (s[j] == '+' || s[j] == '-') {
        j += 1;
    }
    let ghost body = s@.skip(j as int);
    assert(body =~= if t.len() > 0 && (t[0] == '+' || t[0] == '-') {
        t.skip(1)
    } else {
        t
    });
    let start = j;
    let mut acc: u64 = 0;
    let mut overflow = false;
    assert(body.skip(0) =~= body);
    loop
        invariant
            start <= j <= n,
            n == s@.len(),
            body == s@.skip(start as int),
            leading_digits(body, 10) == (j - start) + leading_digits(body.skip(j - start), 10),
            acc <= LEAST_MAGNITUDE,
            !overflow ==> acc == digits_value(body.take(j - start), 10),
            overflow ==> digits_value(body.take(j - start), 10) > LEAST_MAGNITUDE,
        ensures
            start <= j <= n,
            leading_digits(body, 10) == j - start,
            acc <= LEAST_MAGNITUDE,
            !overflow ==> acc == digits_value(body.take(j - start), 10),
            overflow ==> digits_value(body.take(j - start), 10) > LEAST_MAGNITUDE,
        decreases n - j,
    {
        if j >= n {
            break;
        }
        let d = match digit(s[j]) {
            Some(d) => d,
            None => {
                break;
            },
        };
        proof {
            let k = j - start;
            assert(body.skip(k)[0] == s@[j as int]);
            assert(body.skip(k).drop_first() =~= body.skip(k + 1));
            assert(body.take(k + 1).drop_last() =~= body.take(k));
            assert(body.take(k + 1).last() == s@[j as int]);
            let before = digits_value(body.take(k), 10);
            assert(before * 10 + d >= before) by (nonlinear_arith)
                requires
                    d >= 0,
                    before >= 0,
            ;
        }
        if !overflow {
            let next: u128 = acc as u128 * 10 + d as u128;
            if next > LEAST_MAGNITUDE as u128 {
                overflow = true;
            } else {
                acc = next as u64;
            }
        }
        j += 1;
    }
    let ghost tail = body.skip(j - start);
    assert(tail =~= s@.skip(j as int));
    let mut k: usize = j;
    assert(tail.skip(0) =~= tail);
    while k < n && whitespace(s[k])
        invariant
            j <= k <= n,
            n == s@.len(),
            tail == s@.skip(j as int),
            leading_whitespace(tail) == (k - j) + leading_whitespace(tail.skip(k - j)),
        decreases n - k,
    {
        assert(tail.skip(k - j)[0] == s@[k as int]);
        assert(tail.skip(k - j).drop_first() =~= tail.skip(k - j + 1));
        k += 1;
    }
    assert(leading_whitespace(tail) == k - j);
    if j == start || k < n {
        None
    } else if overflow {
        None
    } else if acc == LEAST_MAGNITUDE {
        if negative {
            Some(i64::MIN)
        } else {
            None
        }
    } else {
        proof {
            if body.len() >= 2 && body[0] == '0' && (body[1] == 'x' || body[1] == 'X') {
                assert(body.drop_first()[0] == body[1]);
                assert(leading_digits(body.drop_first(), 10) == 0);
                assert(tail[0] == body[1]);
                assert(leading_whitespace(tail) == 0);
            }
            assert(numeral(s@) == Some(Numeral { negative, magnitude: acc as nat }));
        }
        parse_int(text)
    }
}

/// What a reading comes to where a number is wanted in any case: the number
/// read, or zero where none was.
pub fn int_or_zero(parsed: Option<i64>) -> (i: i64)
    ensures
        i == match parsed {
            Some(value) => value,
            None => 0,
        },
{
    match parsed {
        Some(value) => value,
        None => 0,
    }
}

} // verus!
