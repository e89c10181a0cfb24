//! What holds of the coercions beyond what each states of itself.

use crate::binary64::{is_zero, lemma_small_integers_exact, nearest};
use crate::integer::{
    decimal_i64, digit_value, digits_value, is_whitespace, leading_digits, leading_whitespace,
};
use crate::render::{decimal, digit_char, digits, lemma_unquoted_quoted, plain, quoted, unquoted};
use crate::value::{CoercionError, FloatCoercionView, ValueView};
use vstd::prelude::*;

verus! {

/// The number that a run of decimal digits denotes. None where the text is
/// empty or holds anything but digits.
pub open spec fn read_digits(t: Seq<char>) -> Option<nat> {
    if t.len() > 0 && leading_digits(t, 10) == t.len() {
        Some(digits_value(t, 10))
    } else {
        None
    }
}

/// The integer that a decimal form denotes: digits, after a minus sign or not.
pub open spec fn read_decimal(t: Seq<char>) -> Option<int> {
    if t.len() > 0 && t[0] == '-' {
        match read_digits(t.drop_first()) {
            Some(n) => Some(-(n as int)),
            None => None,
        }
    } else {
        match read_digits(t) {
            Some(n) => Some(n as int),
            None => None,
        }
    }
}

/// The value that a literal denotes, for the literals of the absent value,
/// of truth values, of integers and of texts.
pub open spec fn read(t: Seq<char>) -> Option<ValueView> {
    if t == seq!['N', 'o', 'n', 'e'] {
        Some(ValueView::Null)
    } else if t == seq!['T', 'r', 'u', 'e'] {
        Some(ValueView::Bool(true))
    } else if t == seq!['F', 'a', 'l', 's', 'e'] {
        Some(ValueView::Bool(false))
    } else if unquoted(t) is Some {
        Some(ValueView::String(unquoted(t).unwrap()))
    } else {
        match read_decimal(t) {
            Some(i) => if i64::MIN <= i <= i64::MAX {
                Some(ValueView::Int(i as i64))
            } else {
                None
            },
            None => None,
        }
    }
}

/// A run of digits with one more digit after it is a run of digits.
proof fn lemma_leading_digits_push(s: Seq<char>, c: char)
    requires
        leading_digits(s, 10) == s.len(),
        digit_value(c, 10) is Some,
    ensures
        leading_digits(s.push(c), 10) == s.len() + 1,
    decreases s.len(),
{
    if s.len() == 0 {
        assert(s.push(c).drop_first() =~= Seq::<char>::empty());
        assert(leading_digits(Seq::<char>::empty(), 10) == 0);
    } else {
        assert(s.push(c).drop_first() =~= s.drop_first().push(c));
        lemma_leading_digits_push(s.drop_first(), c);
    }
}

/// The digits of a number are digits, and denote the number.
pub proof fn lemma_read_digits(n: nat)
    ensures
        read_digits(digits(n)) == Some(n),
    decreases n,
{
    let last = digit_char((n % 10) as int);
    assert(digit_value(last, 10) == Some((n % 10) as int));
    if n < 10 {
        lemma_leading_digits_push(Seq::empty(), last);
        assert(Seq::<char>::empty().push(last) =~= seq![last]);
        assert(seq![last].drop_last() =~= Seq::<char>::empty());
        assert(digits_value(Seq::<char>::empty(), 10) == 0);
    } else {
        lemma_read_digits(n / 10);
        lemma_leading_digits_push(digits(n / 10), last);
        assert(digits(n).drop_last() =~= digits(n / 10));
    }
}

/// The decimal form of an integer denotes the integer.
pub proof fn lemma_read_decimal(i: int)
    ensures
        read_decimal(decimal(i)) == Some(i),
{
    if i < 0 {
        lemma_read_digits((-i) as nat);
        assert(decimal(i).drop_first() =~= digits((-i) as nat));
    } else {
        lemma_read_digits(i as nat);
    }
}

/// A literal reads back as the value it was made from: the literal form of
/// the absent value, of a truth value, of an integer or of a text denotes
/// that value. So does the literal form of what it denotes: making the
/// literal of a literal's value changes nothing.
pub proof fn lemma_literal_round_trip(v: ValueView)
    requires
        v is Null || v is Bool || v is Int || v is String,
    ensures
        v.repr() == plain(v.literal()),
        read(v.literal()) == Some(v),
        read(v.literal()).unwrap().literal() == v.literal(),
{
    let t = v.literal();
    match v {
        ValueView::Int(i) => {
            lemma_read_decimal(i as int);
            if i < 0 {
                assert(t[0] == '-');
            } else {
                lemma_read_digits(i as nat);
                assert(digit_value(t[0], 10) is Some);
            }
        },
        ValueView::String(s) => {
            lemma_unquoted_quoted(s);
            assert(t[0] == '"');
        },
        _ => {
            assert(t[0] == 'N' || t[0] == 'T' || t[0] == 'F');
            assert(unquoted(t) is None);
        },
    }
}

/// An integer written out and read again is the integer: the text of an
/// integer's literal form, taken as a value, coerces to that integer.
pub proof fn lemma_integer_text_round_trip(i: i64)
    ensures
        ValueView::Int(i).literal() == decimal(i as int),
        decimal_i64(decimal(i as int)) == Some(i),
        ValueView::String(decimal(i as int)).to_i64() == Ok::<i64, CoercionError>(i),
{
    let t = decimal(i as int);
    let n = (if i < 0 {
        -i
    } else {
        i as int
    }) as nat;
    let body = digits(n);
    lemma_read_digits(n);
    assert(digit_value(body[0], 10) is Some);
    assert(!is_whitespace(t[0]));
    assert(leading_whitespace(t) == 0);
    assert(t.skip(0) =~= t);
    if i < 0 {
        assert(t.skip(1) =~= body);
    }
    assert(body.take(body.len() as int) =~= body);
    assert(body.skip(body.len() as int) =~= Seq::<char>::empty());
    assert(leading_whitespace(Seq::<char>::empty()) == 0);
}

/// An integer of at most 53 bits loses nothing as a float: the float it
/// coerces to coerces back to the integer.
pub proof fn lemma_integer_float_round_trip(i: i64)
    requires
        -0x20_0000_0000_0000 <= i <= 0x20_0000_0000_0000,
    ensures
        ValueView::Int(i).to_f64() == Ok::<FloatCoercionView, CoercionError>(
            FloatCoercionView::Bits(nearest(i as int)),
        ),
        ValueView::Float(nearest(i as int)).to_i64() == Ok::<i64, CoercionError>(i),
{
    lemma_small_integers_exact(i as int);
}

/// Exactly these are false: the absent value, the truth value false, the
/// integer zero, a float zero of either sign, and the empty text, list and
/// dictionary.
pub proof fn lemma_falsy(v: ValueView)
    ensures
        !v.truthy() <==> {
            ||| v == ValueView::Null
            ||| v == ValueView::Bool(false)
            ||| v == ValueView::Int(0)
            ||| (v matches ValueView::Float(bits) && is_zero(bits))
            ||| v == ValueView::String(Seq::empty())
            ||| v == ValueView::List(Seq::empty())
            ||| v == ValueView::Dict(Seq::empty())
        },
{
    match v {
        ValueView::String(s) => {
            assert(s.len() == 0 ==> s =~= Seq::empty());
        },
        ValueView::List(items) => {
            assert(items.len() == 0 ==> items =~= Seq::empty());
        },
        ValueView::Dict(entries) => {
            assert(entries.len() == 0 ==> entries =~= Seq::empty());
        },
        _ => {},
    }
}

} // verus!
