//! The value type and its mathematical model.

use crate::binary64::{as_i64, from_i64, integral, is_integral, is_zero, nearest, truncate, zero};
use crate::integer::{decimal_i64, int_or_zero, parse_i64};
use crate::render::{decimal, plain, push_char, push_int, push_quoted, push_text, quoted, Piece};
use vstd::prelude::*;

verus! {

/// A runtime value.
///
/// A `Float` holds the bit pattern of an IEEE-754 binary64 number. A `Dict`
/// holds its entries in insertion order; that no key occurs twice is for
/// whoever builds the value to see to, and no coercion depends on it.
#[derive(Debug)]
pub enum Value {
    Null,
    Bool(bool),
    Int(i64),
    Float(u64),
    String(String),
    List(Vec<Value>),
    Dict(Vec<(Value, Value)>),
}

/// What a [`Value`] stands for: the same tree, with texts and collections as
/// sequences.
pub enum ValueView {
    Null,
    Bool(bool),
    Int(i64),
    Float(u64),
    String(Seq<char>),
    List(Seq<ValueView>),
    Dict(Seq<(ValueView, ValueView)>),
}

/// Why a coercion gave no result.
#[derive(Debug, Clone, Copy, PartialEq, Eq)]
pub enum CoercionError {
    /// The value is a collection, which is no number.
    NotCoercible,
}

/// Where the float of a value is to be had.
#[derive(Debug, PartialEq, Eq)]
pub enum FloatCoercion {
    /// It is the binary64 number with this bit pattern.
    Bits(u64),
    /// It is what this text denotes as a decimal floating-point literal, and
    /// zero where the text is no such literal.
    Parse(String),
}

/// What a [`FloatCoercion`] stands for.
pub enum FloatCoercionView {
    Bits(u64),
    Parse(Seq<char>),
}

impl View for FloatCoercion {
    type V = FloatCoercionView;

    open spec fn view(&self) -> FloatCoercionView {
        match self {
            FloatCoercion::Bits(bits) => FloatCoercionView::Bits(*bits),
            FloatCoercion::Parse(text) => FloatCoercionView::Parse(text@),
        }
    }
}

impl View for Value {
    type V = ValueView;

    open spec fn view(&self) -> ValueView {
        value_view(*self)
    }
}

/// The model of one value.
pub open spec fn value_view(v: Value) -> ValueView
    decreases v, 0nat,
{
    match v {
        Value::Null => ValueView::Null,
        Value::Bool(b) => ValueView::Bool(b),
        Value::Int(i) => ValueView::Int(i),
        Value::Float(bits) => ValueView::Float(bits),
        Value::String(s) => ValueView::String(s@),
        Value::List(items) => ValueView::List(items_view(items, items@.len())),
        Value::Dict(entries) => ValueView::Dict(entries_view(entries, entries@.len())),
    }
}

/// The models of the first `n` items, in order.
pub open spec fn items_view(items: Vec<Value>, n: nat) -> Seq<ValueView>
    decreases items, n,
{
    if 0 < n <= items@.len() {
        items_view(items, (n - 1) as nat).push(value_view(items@[n - 1]))
    } else {
        Seq::empty()
    }
}

/// The models of the first `n` entries, in order.
pub open spec fn entries_view(entries: Vec<(Value, Value)>, n: nat) -> Seq<(ValueView, ValueView)>
    decreases entries, n,
{
    if 0 < n <= entries@.len() {
        entries_view(entries, (n - 1) as nat).push(
            (value_view(entries@[n - 1].0), value_view(entries@[n - 1].1)),
        )
    } else {
        Seq::empty()
    }
}

/// A list's model has one item for each item of the list: its model.
pub proof fn lemma_items_view(items: Vec<Value>, n: nat)
    requires
        n <= items@.len(),
    ensures
        items_view(items, n).len() == n,
        forall|i: int| 0 <= i < n ==> #[trigger] items_view(items, n)[i] == items@[i]@,
    decreases n,
{
    if n > 0 {
        lemma_items_view(items, (n - 1) as nat);
    }
}

/// A dictionary's model has one entry for each entry: the models of its key and value.
pub proof fn lemma_entries_view(entries: Vec<(Value, Value)>, n: nat)
    requires
        n <= entries@.len(),
    ensures
        entries_view(entries, n).len() == n,
        forall|i: int|
            0 <= i < n ==> #[trigger] entries_view(entries, n)[i] == (
                entries@[i].0@,
                entries@[i].1@,
            ),
    decreases n,
{
    if n > 0 {
        lemma_entries_view(entries, (n - 1) as nat);
    }
}

impl ValueView {
    /// Whether no dictionary in the value holds a key twice.
    pub open spec fn well_formed(self) -> bool
        decreases self,
    {
        match self {
            ValueView::List(items) => forall|i: int|
                0 <= i < items.len() ==> (#[trigger] items[i]).well_formed(),
            ValueView::Dict(entries) => {
                &&& forall|i: int|
                    0 <= i < entries.len() ==> (#[trigger] entries[i]).0.well_formed()
                        && entries[i].1.well_formed()
                &&& forall|i: int, j: int|
                    0 <= i < j < entries.len() ==> (#[trigger] entries[i]).0 != (
                    #[trigger] entries[j]).0
            },
            _ => true,
        }
    }

    /// Whether the value counts as true.
    pub open spec fn truthy(self) -> bool {
        match self {
            ValueView::Null => false,
            ValueView::Bool(b) => b,
            ValueView::Int(i) => i != 0,
            ValueView::Float(bits) => !is_zero(bits),
            ValueView::String(s) => s.len() > 0,
            ValueView::List(items) => items.len() > 0,
            ValueView::Dict(entries) => entries.len() > 0,
        }
    }
}

impl ValueView {
    /// The value as a 64-bit signed integer: the absent value is zero, a
    /// truth value one or zero, a float is truncated toward zero into the
    /// range, a text is the integer it is the decimal form of, or zero where
    /// it is none. A collection is no number.
    pub open spec fn to_i64(self) -> Result<i64, CoercionError> {
        match self {
            ValueView::Null => Ok(0),
            ValueView::Bool(b) => Ok(
                if b {
                    1
                } else {
                    0
                },
            ),
            ValueView::Int(i) => Ok(i),
            ValueView::Float(bits) => Ok(as_i64(bits)),
            ValueView::String(s) => Ok(
                match decimal_i64(s) {
                    Some(i) => i,
                    None => 0,
                },
            ),
            ValueView::List(_) => Err(CoercionError::NotCoercible),
            ValueView::Dict(_) => Err(CoercionError::NotCoercible),
        }
    }

    /// The value as a float: the absent value is zero, a truth value one or
    /// zero, an integer the nearest float, a float itself. The float of a
    /// text is left to be parsed. A collection is no number.
    pub open spec fn to_f64(self) -> Result<FloatCoercionView, CoercionError> {
        match self {
            ValueView::Null => Ok(FloatCoercionView::Bits(nearest(0))),
            ValueView::Bool(b) => Ok(
                FloatCoercionView::Bits(
                    if b {
                        nearest(1)
                    } else {
                        nearest(0)
                    },
                ),
            ),
            ValueView::Int(i) => Ok(FloatCoercionView::Bits(nearest(i as int))),
            ValueView::Float(bits) => Ok(FloatCoercionView::Bits(bits)),
            ValueView::String(s) => Ok(FloatCoercionView::Parse(s)),
            ValueView::List(_) => Err(CoercionError::NotCoercible),
            ValueView::Dict(_) => Err(CoercionError::NotCoercible),
        }
    }

    /// The informal textual form: a text as it stands, a float in its decimal
    /// form, anything else in its literal form.
    pub open spec fn to_string(self) -> Seq<Piece<char>> {
        match self {
            ValueView::String(s) => plain(s),
            ValueView::Float(bits) => seq![Piece::Decimal(bits)],
            _ => self.repr(),
        }
    }

    /// The literal of a value that is neither a float nor a collection:
    /// `None`, `True` or `False`, an integer's decimal form, a text's quoted
    /// form.
    pub open spec fn literal(self) -> Seq<char> {
        match self {
            ValueView::Null => seq!['N', 'o', 'n', 'e'],
            ValueView::Bool(b) => if b {
                seq!['T', 'r', 'u', 'e']
            } else {
                seq!['F', 'a', 'l', 's', 'e']
            },
            ValueView::Int(i) => decimal(i as int),
            ValueView::String(s) => quoted(s),
            _ => Seq::empty(),
        }
    }

    /// The canonical literal form.
    ///
    /// A float is its decimal form, followed by `.0` where it has no
    /// fractional part. A list is its items between square brackets, a
    /// dictionary its entries, each a key, `: ` and a value, between braces;
    /// items and entries stand in their order, with `, ` between them.
    /// Any other value is its literal.
    pub open spec fn repr(self) -> Seq<Piece<char>>
        decreases self, 0nat,
    {
        match self {
            ValueView::Float(bits) => float_repr(bits),
            ValueView::List(items) => plain(seq!['['])
                + joined_items(items, items.len()) + plain(seq![']']),
            ValueView::Dict(entries) => plain(seq!['{'])
                + joined_entries(entries, entries.len()) + plain(seq!['}']),
            _ => plain(self.literal()),
        }
    }
}

/// The literal form of a float: its decimal form, and `.0` after it where
/// the number has no fractional part.
pub open spec fn float_repr(bits: u64) -> Seq<Piece<char>> {
    if is_integral(bits) {
        seq![Piece::Decimal(bits)] + plain(seq!['.', '0'])
    } else {
        seq![Piece::Decimal(bits)]
    }
}

/// The literal forms of the first `n` items, with `, ` between them.
pub open spec fn joined_items(items: Seq<ValueView>, n: nat) -> Seq<Piece<char>>
    decreases items, n,
{
    if n == 0 || n > items.len() {
        Seq::empty()
    } else if n == 1 {
        items[0].repr()
    } else {
        joined_items(items, (n - 1) as nat) + plain(seq![',', ' ']) + items[n - 1].repr()
    }
}

/// The literal forms of the first `n` entries, with `, ` between them.
pub open spec fn joined_entries(entries: Seq<(ValueView, ValueView)>, n: nat) -> Seq<Piece<char>>
    decreases entries, n,
{
    if n == 0 || n > entries.len() {
        Seq::empty()
    } else if n == 1 {
        entry_repr(entries[0])
    } else {
        joined_entries(entries, (n - 1) as nat) + plain(seq![',', ' ']) + entry_repr(
            entries[n - 1],
        )
    }
}

/// The literal form of an entry: the key, `: `, the value.
pub open spec fn entry_repr(entry: (ValueView, ValueView)) -> Seq<Piece<char>>
    decreases entry, 0nat,
{
    entry.0.repr() + plain(seq![':', ' ']) + entry.1.repr()
}

impl Value {
    /// How the model of a collection follows its items.
    pub proof fn lemma_view(self)
        ensures
            self matches Value::List(items) ==> self@ matches ValueView::List(l) && l.len()
                == items@.len() && forall|i: int| 0 <= i < l.len() ==> #[trigger] l[i] == items@[i]@,
            self matches Value::Dict(entries) ==> self@ matches ValueView::Dict(d) && d.len()
                == entries@.len() && forall|i: int|
                0 <= i < d.len() ==> #[trigger] d[i] == (entries@[i].0@, entries@[i].1@),
    {
        match self {
            Value::List(items) => lemma_items_view(items, items@.len()),
            Value::Dict(entries) => lemma_entries_view(entries, entries@.len()),
            _ => {},
        }
    }

    /// Truthiness: everything is true but the absent value, `false`, zero, and what is empty.
    pub fn to_bool(&self) -> (b: bool)
        ensures
            b == self@.truthy(),
    {
        proof {
            self.lemma_view();
        }
        match self {
            Value::Null => false,
            Value::Bool(b) => *b,
            Value::Int(i) => *i != 0,
            Value::Float(bits) => !zero(*bits),
            Value::String(s) => !s.as_str().is_empty(),
            Value::List(items) => items.len() != 0,
            Value::Dict(entries) => entries.len() != 0,
        }
    }

    /// The value as a 64-bit signed integer.
    pub fn to_i64(&self) -> (r: Result<i64, CoercionError>)
        ensures
            r == self@.to_i64(),
    {
        match self {
            Value::Null => Ok(0),
            Value::Bool(b) => Ok(
                if *b {
                    1
                } else {
                    0
                },
            ),
            Value::Int(i) => Ok(*i),
            Value::Float(bits) => Ok(truncate(*bits)),
            Value::String(s) => Ok(int_or_zero(parse_i64(s.as_str()))),
            Value::List(_) => Err(CoercionError::NotCoercible),
            Value::Dict(_) => Err(CoercionError::NotCoercible),
        }
    }

    /// The value as a float, or the text whose float is to be parsed.
    pub fn to_f64(&self) -> (r: Result<FloatCoercion, CoercionError>)
        ensures
            r matches Ok(c) ==> self@.to_f64() == Ok::<FloatCoercionView, CoercionError>(c@),
            r matches Err(e) ==> self@.to_f64() == Err::<FloatCoercionView, CoercionError>(e),
    {
        match self {
            Value::Null => Ok(FloatCoercion::Bits(from_i64(0))),
            Value::Bool(b) => Ok(
                FloatCoercion::Bits(
                    if *b {
                        from_i64(1)
                    } else {
                        from_i64(0)
                    },
                ),
            ),
            Value::Int(i) => Ok(FloatCoercion::Bits(from_i64(*i))),
            Value::Float(bits) => Ok(FloatCoercion::Bits(*bits)),
            Value::String(s) => Ok(FloatCoercion::Parse(s.clone())),
            Value::List(_) => Err(CoercionError::NotCoercible),
            Value::Dict(_) => Err(CoercionError::NotCoercible),
        }
    }

    /// The informal textual form of the value.
    pub fn to_string(&self) -> (out: Vec<Piece<char>>)
        ensures
            out@ == self@.to_string(),
    {
        let mut out: Vec<Piece<char>> = Vec::new();
        match self {
            Value::String(s) => push_text(&mut out, s.as_str()),
            Value::Float(bits) => out.push(Piece::Decimal(*bits)),
            _ => self.write_repr(&mut out),
        }
        out
    }

    /// The canonical literal form of the value.
    pub fn repr(&self) -> (out: Vec<Piece<char>>)
        ensures
            out@ == self@.repr(),
    {
        let mut out: Vec<Piece<char>> = Vec::new();
        self.write_repr(&mut out);
        out
    }

    /// Appends the canonical literal form of the value.
    pub fn write_repr(&self, out: &mut Vec<Piece<char>>)
        ensures
            final(out)@ == old(out)@ + self@.repr(),
        decreases self,
    {
        let ghost before = out@;
        proof {
            self.lemma_view();
        }
        match self {
            Value::Null => {
                proof {
                    reveal_strlit("None");
                }
                assert("None"@ =~= seq!['N', 'o', 'n', 'e']);
                push_text(out, "None");
            },
            Value::Bool(b) => {
                if *b {
                    proof {
                        reveal_strlit("True");
                    }
                    assert("True"@ =~= seq!['T', 'r', 'u', 'e']);
                    push_text(out, "True");
                } else {
                    proof {
                        reveal_strlit("False");
                    }
                    assert("False"@ =~= seq!['F', 'a', 'l', 's', 'e']);
                    push_text(out, "False");
                }
            },
            Value::Int(i) => push_int(out, *i),
            Value::Float(bits) => {
                out.push(Piece::Decimal(*bits));
                if integral(*bits) {
                    push_char(out, '.');
                    push_char(out, '0');
                    assert(plain(seq!['.']) + plain(seq!['0']) =~= plain(seq!['.', '0']));
                }
            },
            Value::String(s) => push_quoted(out, s.as_str()),
            Value::List(items) => {
                let ghost models = self@->List_0;
                push_char(out, '[');
                let mut i: usize = 0;
                while i < items.len()
                    invariant
                        i <= items.len(),
                        models.len() == items.len(),
                        forall|k: int| 0 <= k < models.len() ==> #[trigger] models[k] == items@[k]@,
                        *self == Value::List(*items),
                        out@ == before + plain(seq!['[']) + joined_items(models, i as nat),
                    decreases items.len() - i,
                {
                    if i > 0 {
                        push_char(out, ',');
                        push_char(out, ' ');
                        assert(plain(seq![',']) + plain(seq![' ']) =~= plain(seq![',', ' ']));
                    }
                    assert(self->List_0 == *items && decreases_to!(*self => self->List_0));
                    assert(decreases_to!(*items => items@[i as int]));
                    items[i].write_repr(out);
                    i += 1;
                }
                push_char(out, ']');
            },
            Value::Dict(entries) => {
                let ghost models = self@->Dict_0;
                push_char(out, '{');
                let mut i: usize = 0;
                while i < entries.len()
                    invariant
                        i <= entries.len(),
                        models.len() == entries.len(),
                        forall|k: int|
                            0 <= k < models.len() ==> #[trigger] models[k] == (
                                entries@[k].0@,
                                entries@[k].1@,
                            ),
                        *self == Value::Dict(*entries),
                        out@ == before + plain(seq!['{']) + joined_entries(models, i as nat),
                    decreases entries.len() - i,
                {
                    let ghost head = out@;
                    if i > 0 {
                        push_char(out, ',');
                        push_char(out, ' ');
                        assert(plain(seq![',']) + plain(seq![' ']) =~= plain(seq![',', ' ']));
                    }
                    let ghost start = out@;
                    assert(self->Dict_0 == *entries && decreases_to!(*self => self->Dict_0));
                    assert(decreases_to!(*entries => entries@[i as int]));
                    assert(decreases_to!(entries@[i as int] => entries@[i as int].0));
                    assert(decreases_to!(entries@[i as int] => entries@[i as int].1));
                    entries[i].0.write_repr(out);
                    push_char(out, ':');
                    push_char(out, ' ');
                    assert(plain(seq![':']) + plain(seq![' ']) =~= plain(seq![':', ' ']));
                    entries[i].1.write_repr(out);
                    assert(out@ =~= start + entry_repr(models[i as int]));
                    i += 1;
                }
                push_char(out, '}');
            },
        }
    }
}

} // verus!
