use logics::binary64::float_or_zero;
use logics::{CoercionError, FloatCoercion, Piece, Value};

fn float(f: f64) -> Value {
    Value::Float(f.to_bits())
}

fn text(pieces: Vec<Piece<char>>) -> String {
    let mut s = String::new();
    for piece in pieces {
        match piece {
            Piece::Char(c) => s.push(c),
            Piece::Decimal(bits) => s.push_str(&format!("{}", f64::from_bits(bits))),
        }
    }
    s
}

fn to_f64(v: &Value) -> f64 {
    match v.to_f64() {
        Ok(FloatCoercion::Bits(bits)) => f64::from_bits(bits),
        Ok(FloatCoercion::Parse(t)) => {
            f64::from_bits(float_or_zero(t.parse::<f64>().ok().map(f64::to_bits)))
        }
        Err(e) => panic!("{:?}", e),
    }
}

fn to_i64(v: &Value) -> i64 {
    match v.to_i64() {
        Ok(i) => i,
        Err(e) => panic!("{:?}", e),
    }
}

#[test]
fn test_none() {
    let none = Value::Null;
    assert_eq!(none.to_bool(), false);
    assert_eq!(to_i64(&none), 0i64);
    assert_eq!(to_f64(&none), 0f64);
    assert_eq!(text(none.to_string()), "None");
    assert_eq!(text(none.repr()), "None");
}

#[test]
fn test_bool() {
    // True
    let t = Value::Bool(true);

    assert_eq!(t.to_bool(), true);
    assert_eq!(to_i64(&t), 1i64);
    assert_eq!(to_f64(&t), 1f64);
    assert_eq!(text(t.to_string()), "True");
    assert_eq!(text(t.repr()), "True");

    // False
    let f = Value::Bool(false);

    assert_eq!(f.to_bool(), false);
    assert_eq!(to_i64(&f), 0i64);
    assert_eq!(to_f64(&f), 0f64);
    assert_eq!(text(f.to_string()), "False");
    assert_eq!(text(f.repr()), "False");

    let i = Value::Int(42);
    assert_eq!(to_i64(&i), 42i64);
    assert_eq!(to_f64(&i), 42f64);

    let f = float(3.1415);
    assert_eq!(to_i64(&f), 3i64);
    assert_eq!(to_f64(&f), 3.1415f64);
}

#[test]
fn test_int() {
    let i = Value::Int(42);
    assert_eq!(i.to_bool(), true);
    assert_eq!(to_i64(&i), 42i64);
    assert_eq!(to_f64(&i), 42f64);
    assert_eq!(text(i.to_string()), "42");
    assert_eq!(text(i.repr()), "42");

    let i = Value::Int(0);
    assert_eq!(i.to_bool(), false);
    assert_eq!(to_i64(&i), 0i64);
    assert_eq!(to_f64(&i), 0f64);
    assert_eq!(text(i.to_string()), "0");
    assert_eq!(text(i.repr()), "0");
}

#[test]
fn test_float() {
    let f = float(3.1415);
    assert_eq!(f.to_bool(), true);
    assert_eq!(to_i64(&f), 3i64);
    assert_eq!(to_f64(&f), 3.1415f64);
    assert_eq!(text(f.to_string()), "3.1415");
    assert_eq!(text(f.repr()), "3.1415");

    let f = float(1337f64);
    assert_eq!(f.to_bool(), true);
    assert_eq!(to_i64(&f), 1337i64);
    assert_eq!(to_f64(&f), 1337f64);
    assert_eq!(text(f.to_string()), "1337");
    assert_eq!(text(f.repr()), "1337.0");
}

#[test]
fn test_string() {
    let s = Value::String("Hello".to_string());
    assert_eq!(s.to_bool(), true);
    assert_eq!(to_i64(&s), 0i64);
    assert_eq!(to_f64(&s), 0f64);
    assert_eq!(text(s.to_string()), "Hello");
    assert_eq!(text(s.repr()), "\"Hello\"");

    let s = Value::String("".to_string());
    assert_eq!(s.to_bool(), false);
    assert_eq!(to_i64(&s), 0i64);
    assert_eq!(to_f64(&s), 0f64);
    assert_eq!(text(s.to_string()), "");
    assert_eq!(text(s.repr()), "\"\"");

    let s = Value::String("42".to_string());
    assert_eq!(s.to_bool(), true);
    assert_eq!(to_i64(&s), 42i64);
    assert_eq!(to_f64(&s), 42f64);
    assert_eq!(text(s.to_string()), "42");
    assert_eq!(text(s.repr()), "\"42\"");

    let s = Value::String("3.1415".to_string());
    assert_eq!(s.to_bool(), true);
    assert_eq!(to_i64(&s), 0i64);
    assert_eq!(to_f64(&s), 3.1415f64);
    assert_eq!(text(s.to_string()), "3.1415");
    assert_eq!(text(s.repr()), "\"3.1415\"");
}

#[test]
fn int_renders_the_same_both_ways() {
    let i = Value::Int(42);
    assert_eq!(text(i.to_string()), "42");
    assert_eq!(text(i.repr()), "42");
    assert_eq!(
        i.repr(),
        vec![Piece::Char('4'), Piece::Char('2')]
    );
}

#[test]
fn int_extremes_render_in_full() {
    assert_eq!(text(Value::Int(i64::MIN).repr()), "-9223372036854775808");
    assert_eq!(text(Value::Int(i64::MAX).repr()), "9223372036854775807");
    assert_eq!(text(Value::Int(-1).repr()), "-1");
    assert_eq!(text(Value::Int(-1000).repr()), "-1000");
    assert_eq!(text(Value::Int(10).repr()), "10");
    assert_eq!(text(Value::Int(907).to_string()), "907");
}

#[test]
fn float_literal_shows_that_it_is_a_float() {
    let f = float(1337.0);
    assert_eq!(text(f.to_string()), "1337");
    assert_eq!(text(f.repr()), "1337.0");
    assert_eq!(
        f.repr(),
        vec![Piece::Decimal(1337f64.to_bits()), Piece::Char('.'), Piece::Char('0')]
    );
    assert_eq!(f.to_string(), vec![Piece::Decimal(1337f64.to_bits())]);
}

#[test]
fn float_with_a_fraction_has_no_suffix() {
    let f = float(3.1415);
    assert_eq!(text(f.repr()), "3.1415");
    assert_eq!(f.repr(), vec![Piece::Decimal(3.1415f64.to_bits())]);
    assert_eq!(text(float(-0.5).repr()), "-0.5");
    assert_eq!(text(float(1e300).repr()), format!("{}.0", 1e300f64));
    assert_eq!(text(float(f64::INFINITY).repr()), "inf");
    assert_eq!(text(float(f64::NEG_INFINITY).repr()), "-inf");
    assert_eq!(text(float(f64::NAN).repr()), "NaN");
    assert_eq!(text(float(0.0).repr()), "0.0");
    assert_eq!(text(float(-2.0).repr()), "-2.0");
}

#[test]
fn text_literal_is_quoted() {
    let s = Value::String("Hello".to_string());
    assert_eq!(text(s.repr()), "\"Hello\"");
    assert_eq!(Value::String("".to_string()).to_bool(), false);
}

#[test]
fn text_literal_escapes_five_characters() {
    let s = Value::String("a\"b\\c\nd\re\tf".to_string());
    assert_eq!(text(s.repr()), "\"a\\\"b\\\\c\\nd\\re\\tf\"");
    assert_eq!(text(s.to_string()), "a\"b\\c\nd\re\tf");
    let s = Value::String("\\".to_string());
    assert_eq!(text(s.repr()), "\"\\\\\"");
}

#[test]
fn text_literal_passes_other_characters_through() {
    let s = Value::String("héllo ✓ \u{0}\u{7f}'".to_string());
    assert_eq!(text(s.repr()), "\"héllo ✓ \u{0}\u{7f}'\"");
}

#[test]
fn text_becomes_the_integer_it_denotes() {
    assert_eq!(Value::String("42".to_string()).to_i64(), Ok(42));
    assert_eq!(Value::String("not a number".to_string()).to_i64(), Ok(0));
    assert_eq!(Value::String("-17".to_string()).to_i64(), Ok(-17));
    assert_eq!(Value::String("+17".to_string()).to_i64(), Ok(17));
    assert_eq!(Value::String("  -17\n".to_string()).to_i64(), Ok(-17));
    assert_eq!(Value::String("".to_string()).to_i64(), Ok(0));
}

#[test]
fn text_with_anything_but_an_integer_becomes_zero() {
    assert_eq!(Value::String("3.1415".to_string()).to_i64(), Ok(0));
    assert_eq!(Value::String("  -17 apples".to_string()).to_i64(), Ok(0));
    assert_eq!(Value::String("0x10".to_string()).to_i64(), Ok(0));
    assert_eq!(Value::String("1,000".to_string()).to_i64(), Ok(0));
    assert_eq!(Value::String("- 1".to_string()).to_i64(), Ok(0));
    assert_eq!(Value::String("1 2".to_string()).to_i64(), Ok(0));
    assert_eq!(Value::String("1e3".to_string()).to_i64(), Ok(0));
}

#[test]
fn text_with_an_integer_out_of_range_becomes_zero() {
    assert_eq!(
        Value::String("9223372036854775807".to_string()).to_i64(),
        Ok(i64::MAX)
    );
    assert_eq!(
        Value::String("-9223372036854775808".to_string()).to_i64(),
        Ok(i64::MIN)
    );
    assert_eq!(Value::String("9223372036854775808".to_string()).to_i64(), Ok(0));
    assert_eq!(Value::String("-9223372036854775809".to_string()).to_i64(), Ok(0));
    assert_eq!(
        Value::String("123456789012345678901234567890".to_string()).to_i64(),
        Ok(0)
    );
}

#[test]
fn text_becomes_the_float_it_denotes() {
    assert_eq!(to_f64(&Value::String("3.1415".to_string())), 3.1415);
    assert_eq!(to_f64(&Value::String("-1e3".to_string())), -1000.0);
    assert_eq!(to_f64(&Value::String("Hello".to_string())), 0.0);
    assert_eq!(
        Value::String("2.5".to_string()).to_f64(),
        Ok(FloatCoercion::Parse("2.5".to_string()))
    );
}

#[test]
fn collections_are_no_numbers() {
    let list = Value::List(vec![Value::Int(1)]);
    let dict = Value::Dict(vec![(Value::Int(1), Value::Int(2))]);
    assert_eq!(list.to_i64(), Err(CoercionError::NotCoercible));
    assert_eq!(dict.to_i64(), Err(CoercionError::NotCoercible));
    assert_eq!(list.to_f64(), Err(CoercionError::NotCoercible));
    assert_eq!(dict.to_f64(), Err(CoercionError::NotCoercible));
    assert_eq!(Value::List(vec![]).to_i64(), Err(CoercionError::NotCoercible));
    assert_eq!(Value::Dict(vec![]).to_f64(), Err(CoercionError::NotCoercible));
}

#[test]
fn list_literal() {
    assert_eq!(text(Value::List(vec![]).repr()), "[]");
    let l = Value::List(vec![Value::Int(1), Value::String("a".to_string())]);
    assert_eq!(text(l.repr()), "[1, \"a\"]");
    assert_eq!(text(l.to_string()), "[1, \"a\"]");
    assert_eq!(text(Value::List(vec![Value::Null]).repr()), "[None]");
}

#[test]
fn list_literal_nests() {
    let l = Value::List(vec![
        Value::List(vec![]),
        Value::List(vec![float(1.0), float(2.5), Value::Bool(true)]),
        Value::Dict(vec![(Value::Int(1), Value::List(vec![Value::Null]))]),
    ]);
    assert_eq!(text(l.repr()), "[[], [1.0, 2.5, True], {1: [None]}]");
}

#[test]
fn dict_literal_keeps_insertion_order() {
    assert_eq!(text(Value::Dict(vec![]).repr()), "{}");
    let d = Value::Dict(vec![
        (Value::String("b".to_string()), Value::Int(1)),
        (Value::String("a".to_string()), Value::Int(2)),
        (Value::Int(0), float(0.5)),
    ]);
    assert_eq!(text(d.repr()), "{\"b\": 1, \"a\": 2, 0: 0.5}");
    assert_eq!(text(d.to_string()), "{\"b\": 1, \"a\": 2, 0: 0.5}");
}

#[test]
fn exactly_the_empty_and_the_zero_are_false() {
    assert_eq!(Value::Null.to_bool(), false);
    assert_eq!(Value::Bool(false).to_bool(), false);
    assert_eq!(Value::Int(0).to_bool(), false);
    assert_eq!(float(0.0).to_bool(), false);
    assert_eq!(float(-0.0).to_bool(), false);
    assert_eq!(Value::String(String::new()).to_bool(), false);
    assert_eq!(Value::List(vec![]).to_bool(), false);
    assert_eq!(Value::Dict(vec![]).to_bool(), false);

    assert_eq!(Value::Bool(true).to_bool(), true);
    assert_eq!(Value::Int(-1).to_bool(), true);
    assert_eq!(float(f64::NAN).to_bool(), true);
    assert_eq!(float(f64::MIN_POSITIVE).to_bool(), true);
    assert_eq!(float(5e-324).to_bool(), true);
    assert_eq!(float(f64::INFINITY).to_bool(), true);
    assert_eq!(Value::String(" ".to_string()).to_bool(), true);
    assert_eq!(Value::String("0".to_string()).to_bool(), true);
    assert_eq!(Value::List(vec![Value::Null]).to_bool(), true);
    assert_eq!(Value::Dict(vec![(Value::Null, Value::Null)]).to_bool(), true);
}

#[test]
fn float_becomes_an_integer_by_truncation() {
    assert_eq!(float(3.99).to_i64(), Ok(3));
    assert_eq!(float(-3.99).to_i64(), Ok(-3));
    assert_eq!(float(0.999).to_i64(), Ok(0));
    assert_eq!(float(-0.0).to_i64(), Ok(0));
    assert_eq!(float(1e300).to_i64(), Ok(i64::MAX));
    assert_eq!(float(-1e300).to_i64(), Ok(i64::MIN));
    assert_eq!(float(f64::INFINITY).to_i64(), Ok(i64::MAX));
    assert_eq!(float(f64::NEG_INFINITY).to_i64(), Ok(i64::MIN));
    assert_eq!(float(f64::NAN).to_i64(), Ok(0));
}

#[test]
fn integer_becomes_the_nearest_float() {
    assert_eq!(to_f64(&Value::Int(-7)), -7.0);
    assert_eq!(to_f64(&Value::Int(i64::MAX)), 9223372036854775807i64 as f64);
    assert_eq!(to_f64(&Value::Int(i64::MIN)), -9223372036854775808.0);
    assert_eq!(to_f64(&Value::Int(9007199254740993)), 9007199254740992.0);
    assert_eq!(
        Value::Int(1).to_f64(),
        Ok(FloatCoercion::Bits(0x3ff0_0000_0000_0000))
    );
    assert_eq!(Value::Bool(true).to_f64(), Ok(FloatCoercion::Bits(1f64.to_bits())));
    assert_eq!(Value::Null.to_f64(), Ok(FloatCoercion::Bits(0)));
    assert_eq!(float(2.5).to_f64(), Ok(FloatCoercion::Bits(2.5f64.to_bits())));
}

fn unquote(literal: &str) -> Option<String> {
    let chars: Vec<char> = literal.chars().collect();
    if chars.len() < 2 || chars[0] != '"' || chars[chars.len() - 1] != '"' {
        return None;
    }
    let inner = &chars[1..chars.len() - 1];
    let mut out = String::new();
    let mut i = 0;
    while i < inner.len() {
        if inner[i] == '\\' && i + 1 < inner.len() {
            out.push(match inner[i + 1] {
                'n' => '\n',
                'r' => '\r',
                't' => '\t',
                c => c,
            });
            i += 2;
        } else {
            out.push(inner[i]);
            i += 1;
        }
    }
    Some(out)
}

#[test]
fn text_literal_reads_back_as_the_text() {
    for s in [
        "",
        "Hello",
        "\"",
        "\\",
        "\\n",
        "\\\\",
        "a\"b\\c\nd\re\tf",
        "\n\r\t",
        "\\\"",
        "tab\\t and \t",
        "héllo ✓",
        "ends with backslash\\",
        "\"quoted\"",
    ] {
        let literal = text(Value::String(s.to_string()).repr());
        assert_eq!(unquote(&literal), Some(s.to_string()), "{:?}", s);
        assert!(!literal[1..literal.len() - 1].contains('\n'));
        assert!(!literal[1..literal.len() - 1].contains('\r'));
        assert!(!literal[1..literal.len() - 1].contains('\t'));
    }
}

#[test]
fn integer_literal_reads_back_as_the_integer() {
    for i in [
        0,
        1,
        -1,
        9,
        10,
        -10,
        42,
        1000,
        i64::MAX,
        i64::MIN,
        i64::MIN + 1,
        -9007199254740993,
    ] {
        let literal = text(Value::Int(i).repr());
        assert_eq!(literal, format!("{}", i));
        assert_eq!(literal.parse::<i64>(), Ok(i));
        assert_eq!(Value::String(literal).to_i64(), Ok(i));
    }
}

#[test]
fn keyword_literals_are_capitalised() {
    assert_eq!(text(Value::Null.repr()), "None");
    assert_eq!(text(Value::Bool(true).repr()), "True");
    assert_eq!(text(Value::Bool(false).repr()), "False");
    assert_eq!(
        Value::Null.repr(),
        vec![Piece::Char('N'), Piece::Char('o'), Piece::Char('n'), Piece::Char('e')]
    );
}

#[test]
fn small_integer_survives_the_float_and_back() {
    for i in [0i64, 1, -1, 42, -1337, 1 << 53, -(1 << 53), (1 << 53) - 1] {
        let bits = match Value::Int(i).to_f64() {
            Ok(FloatCoercion::Bits(bits)) => bits,
            other => panic!("{:?}", other),
        };
        assert_eq!(Value::Float(bits).to_i64(), Ok(i));
    }
}

#[test]
fn write_repr_appends() {
    let mut out = vec![Piece::Char('>'), Piece::Decimal(7)];
    Value::List(vec![Value::Int(5)]).write_repr(&mut out);
    assert_eq!(
        out,
        vec![
            Piece::Char('>'),
            Piece::Decimal(7),
            Piece::Char('['),
            Piece::Char('5'),
            Piece::Char(']')
        ]
    );
}
