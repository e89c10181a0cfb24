//! Renderings: text in which a floating-point number is left as a place for
//! its decimal form, to be written out by whoever prints the rendering.

use vstd::prelude::*;

verus! {

/// One unit of a rendering. The type of a character is a parameter; the
/// renderings of values are over `char`.
// With a field of type `char` itself, Verus does not see that a character
// taken out of a `Seq<char>` makes a well-typed piece.
#[derive(Debug, PartialEq, Eq)]
pub enum Piece<C> {
    /// A character of the text.
    Char(C),
    /// The plain decimal form of the binary64 number with this bit pattern.
    Decimal(u64),
}

/// A text as a rendering: each character is a piece.
pub open spec fn plain(text: Seq<char>) -> Seq<Piece<char>> {
    text.map_values(|c: char| Piece::Char(c))
}

/// The character of a decimal digit.
pub open spec fn digit_char(d: int) -> char {
    if d == 0 {
        '0'
    } else if d == 1 {
        '1'
    } else if d == 2 {
        '2'
    } else if d == 3 {
        '3'
    } else if d == 4 {
        '4'
    } else if d == 5 {
        '5'
    } else if d == 6 {
        '6'
    } else if d == 7 {
        '7'
    } else if d == 8 {
        '8'
    } else {
        '9'
    }
}

/// The decimal digits of a natural number, without leading zeros.
pub open spec fn digits(n: nat) -> Seq<char>
    decreases n,
{
    if n < 10 {
        seq![digit_char(n as int)]
    } else {
        digits(n / 10).push(digit_char((n % 10) as int))
    }
}

/// The decimal form of an integer: its digits, after a minus sign where it is negative.
pub open spec fn decimal(i: int) -> Seq<char> {
    if i < 0 {
        seq!['-'] + digits((-i) as nat)
    } else {
        digits(i as nat)
    }
}

/// What stands for a character inside a quoted text.
pub open spec fn escape(c: char) -> Seq<char> {
    if c == '\\' {
        seq!['\\', '\\']
    } else if c == '"' {
        seq!['\\', '"']
    } else if c == '\n' {
        seq!['\\', 'n']
    } else if c == '\r' {
        seq!['\\', 'r']
    } else if c == '\t' {
        seq!['\\', 't']
    } else {
        seq![c]
    }
}

/// A text with each character escaped.
pub open spec fn escaped(s: Seq<char>) -> Seq<char>
    decreases s.len(),
{
    if s.len() == 0 {
        Seq::empty()
    } else {
        escape(s[0]) + escaped(s.drop_first())
    }
}

/// A text as a literal: escaped, between double quotes.
pub open spec fn quoted(s: Seq<char>) -> Seq<char> {
    seq!['"'] + escaped(s) + seq!['"']
}

/// The character that stands after a backslash for `c`.
pub open spec fn unescape(c: char) -> char {
    if c == 'n' {
        '\n'
    } else if c == 'r' {
        '\r'
    } else if c == 't' {
        '\t'
    } else {
        c
    }
}

/// An escaped text read back: a backslash and the character after it give
/// one character, any other character gives itself.
pub open spec fn unescaped(t: Seq<char>) -> Seq<char>
    decreases t.len(),
{
    if t.len() == 0 {
        Seq::empty()
    } else if t[0] == '\\' && t.len() >= 2 {
        seq![unescape(t[1])] + unescaped(t.skip(2))
    } else {
        seq![t[0]] + unescaped(t.skip(1))
    }
}

/// A literal read back: the text between its double quotes, unescaped. None
/// where the quotes are missing.
pub open spec fn unquoted(t: Seq<char>) -> Option<Seq<char>> {
    if t.len() >= 2 && t.first() == '"' && t.last() == '"' {
        Some(unescaped(t.subrange(1, t.len() - 1)))
    } else {
        None
    }
}

/// Escaping is reversible: an escaped text, read back, is the text.
pub proof fn lemma_unescaped_escaped(s: Seq<char>)
    ensures
        unescaped(escaped(s)) == s,
    decreases s.len(),
{
    if s.len() > 0 {
        let c = s[0];
        let rest = escaped(s.drop_first());
        let whole = escape(c) + rest;
        lemma_unescaped_escaped(s.drop_first());
        if escape(c).len() == 2 {
            assert(whole.skip(2) =~= rest);
            assert(whole[0] == '\\');
            assert(unescape(whole[1]) == c);
        } else {
            assert(whole.skip(1) =~= rest);
            assert(whole[0] == c);
        }
        assert(seq![c] + s.drop_first() =~= s);
    }
}

/// Quoting is reversible: a quoted text, read back, is the text.
pub proof fn lemma_unquoted_quoted(s: Seq<char>)
    ensures
        unquoted(quoted(s)) == Some(s),
{
    lemma_unescaped_escaped(s);
    assert(quoted(s).subrange(1, quoted(s).len() - 1) =~= escaped(s));
}

/// Escaping goes through a concatenation.
pub proof fn lemma_escaped_concat(a: Seq<char>, b: Seq<char>)
    ensures
        escaped(a + b) == escaped(a) + escaped(b),
    decreases a.len(),
{
    if a.len() == 0 {
        assert(a + b =~= b);
    } else {
        lemma_escaped_concat(a.drop_first(), b);
        assert((a + b).drop_first() =~= a.drop_first() + b);
    }
}

/// Appends a character.
pub fn push_char(out: &mut Vec<Piece<char>>, c: char)
    ensures
        final(out)@ == old(out)@ + plain(seq![c]),
{
    out.push(Piece::Char(c));
}

/// Appends a text as it stands.
pub fn push_text(out: &mut Vec<Piece<char>>, text: &str)
    ensures
        final(out)@ == old(out)@ + plain(text@),
{
    let ghost before = out@;
    for c in it: text.chars()
        invariant
            it.seq() == text@,
            out@ == before + plain(text@.take(it.index())),
    {
        out.push(Piece::Char(c));
    }
}

/// Appends the digits of a natural number.
fn push_digits(out: &mut Vec<Piece<char>>, n: u64)
    ensures
        final(out)@ == old(out)@ + plain(digits(n as nat)),
    decreases n,
{
    if n >= 10 {
        push_digits(out, n / 10);
    }
    let d: u64 = n % 10;
    let c = if d == 0 {
        '0'
    } else if d == 1 {
        '1'
    } else if d == 2 {
        '2'
    } else if d == 3 {
        '3'
    } else if d == 4 {
        '4'
    } else if d == 5 {
        '5'
    } else if d == 6 {
        '6'
    } else if d == 7 {
        '7'
    } else if d == 8 {
        '8'
    } else {
        '9'
    };
    out.push(Piece::Char(c));
}

/// Appends the decimal form of an integer.
pub fn push_int(out: &mut Vec<Piece<char>>, i: i64)
    ensures
        final(out)@ == old(out)@ + plain(decimal(i as int)),
{
    if i < 0 {
        out.push(Piece::Char('-'));
        let magnitude: u64 = (-(i + 1)) as u64 + 1;
        push_digits(out, magnitude);
    } else {
        push_digits(out, i as u64);
    }
}

/// Appends a text as a literal: escaped, between double quotes.
pub fn push_quoted(out: &mut Vec<Piece<char>>, text: &str)
    ensures
        final(out)@ == old(out)@ + plain(quoted(text@)),
{
    let ghost before = out@;
    out.push(Piece::Char('"'));
    for c in it: text.chars()
        invariant
            it.seq() == text@,
            out@ == before + plain(seq!['"'] + escaped(text@.take(it.index()))),
    {
        proof {
            let done = text@.take(it.index());
            lemma_escaped_concat(done, seq![c]);
            assert(text@.take(it.index() + 1) =~= done + seq![c]);
            assert(escaped(seq![c]) =~= escape(c)) by {
                assert(seq![c].drop_first() =~= Seq::<char>::empty());
                assert(escaped(Seq::<char>::empty()) =~= Seq::<char>::empty());
            }
        }
        if c == '\\' {
            out.push(Piece::Char('\\'));
            out.push(Piece::Char('\\'));
        } else if c == '"' {
            out.push(Piece::Char('\\'));
            out.push(Piece::Char('"'));
        } else if c == '\n' {
            out.push(Piece::Char('\\'));
            out.push(Piece::Char('n'));
        } else if c == '\r' {
            out.push(Piece::Char('\\'));
            out.push(Piece::Char('r'));
        } else if c == '\t' {
            out.push(Piece::Char('\\'));
            out.push(Piece::Char('t'));
        } else {
            out.push(Piece::Char(c));
        }
    }
    assert(text@.take(text@.len() as int) =~= text@);
    out.push(Piece::Char('"'));
}

} // verus!


