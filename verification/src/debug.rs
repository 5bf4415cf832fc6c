//! Decimal and diagnostic renderings of numbers and values.
use vstd::prelude::*;
use crate::value::{Value, FieldMap};

verus! {

/// The character of a decimal digit.
pub open spec fn digit_char(d: int) -> char {
    if d == 0 {
        '0'
    } else if d == 1 {
        '1'
    } else if d == 2 {
        '2'
    } else if d == 3 {
        '3'
    } else if d == 4 {
        '4'
    } else if d == 5 {
        '5'
    } else if d == 6 {
        '6'
    } else if d == 7 {
        '7'
    } else if d == 8 {
        '8'
    } else {
        '9'
    }
}

/// Decimal digits of a natural number, most significant first.
pub open spec fn nat_decimal(n: nat) -> Seq<char>
    decreases n,
{
    if n < 10 {
        seq![digit_char(n as int)]
    } else {
        nat_decimal(n / 10).push(digit_char((n % 10) as int))
    }
}

/// Decimal rendering of an integer, with a leading minus sign when negative.
pub open spec fn int_decimal(i: int) -> Seq<char> {
    if i < 0 {
        seq!['-'] + nat_decimal((-i) as nat)
    } else {
        nat_decimal(i as nat)
    }
}

/// The `{:?}` rendering of a string slice: quoted, with escapes.
pub uninterp spec fn str_debug_text(s: Seq<char>) -> Seq<char>;

/// `<str as Debug>::fmt`: the quoted, escaped rendering of `s`.
#[verifier::external_body]
pub(crate) fn str_debug(s: &str) -> (r: String)
    ensures
        r@ == str_debug_text(s@),
{
    format!("{:?}", s)
}

/// Diagnostic rendering of a value: `Null`, `Bool(true)`, `Int(5)`,
/// `Float(<bit pattern>)`, `String("x")`, `Array([..])`, `Object({"k": ..})`.
pub open spec fn debug_text(v: Value) -> Seq<char>
    decreases v,
{
    match v {
        Value::Null => "Null"@,
        Value::Bool(b) => if b {
            "Bool(true)"@
        } else {
            "Bool(false)"@
        },
        Value::Int(i) => "Int("@ + int_decimal(i as int) + ")"@,
        Value::Float(bits) => "Float("@ + nat_decimal(bits as nat) + ")"@,
        Value::String(s) => "String("@ + str_debug_text(s@) + ")"@,
        Value::Array(a) => {
            proof {
                assert(decreases_to!(v => a));
            }
            "Array(["@ + items_debug(a@) + "])"@
        },
        Value::Object(m) => {
            proof {
                assert(decreases_to!(v => m.entries));
            }
            "Object({"@ + entries_debug(m.entries@) + "})"@
        },
    }
}

/// Renderings of values separated by `, `.
pub open spec fn items_debug(s: Seq<Value>) -> Seq<char>
    decreases s,
{
    if s.len() == 0 {
        Seq::empty()
    } else {
        proof {
            assert(decreases_to!(s => s[s.len() - 1]));
            assert(decreases_to!(s => s.drop_last()));
        }
        if s.len() == 1 {
            debug_text(s[0])
        } else {
            items_debug(s.drop_last()) + ", "@ + debug_text(s[s.len() - 1])
        }
    }
}

/// Renderings of `"key": value` pairs separated by `, `.
pub open spec fn entries_debug(s: Seq<(String, Value)>) -> Seq<char>
    decreases s,
{
    if s.len() == 0 {
        Seq::empty()
    } else {
        proof {
            assert(decreases_to!(s => s[s.len() - 1]));
            assert(decreases_to!(s => s.drop_last()));
        }
        let e = s[s.len() - 1];
        let one = str_debug_text(e.0@) + ": "@ + debug_text(e.1);
        if s.len() == 1 {
            one
        } else {
            entries_debug(s.drop_last()) + ", "@ + one
        }
    }
}

fn digit_str(d: u64) -> (r: &'static str)
    requires
        d < 10,
    ensures
        r@ == seq![digit_char(d as int)],
{
    proof {
        reveal_strlit("0");
        reveal_strlit("1");
        reveal_strlit("2");
        reveal_strlit("3");
        reveal_strlit("4");
        reveal_strlit("5");
        reveal_strlit("6");
        reveal_strlit("7");
        reveal_strlit("8");
        reveal_strlit("9");
    }
    let r = if d == 0 {
        "0"
    } else if d == 1 {
        "1"
    } else if d == 2 {
        "2"
    } else if d == 3 {
        "3"
    } else if d == 4 {
        "4"
    } else if d == 5 {
        "5"
    } else if d == 6 {
        "6"
    } else if d == 7 {
        "7"
    } else if d == 8 {
        "8"
    } else {
        "9"
    };
    assert(r@ =~= seq![digit_char(d as int)]);
    r
}

/// Decimal rendering of an unsigned integer.
pub fn u64_to_decimal(n: u64) -> (r: String)
    ensures
        r@ == nat_decimal(n as nat),
    decreases n,
{
    if n < 10 {
        String::from_str(digit_str(n))
    } else {
        let mut s = u64_to_decimal(n / 10);
        s.append(digit_str(n % 10));
        s
    }
}

/// Decimal rendering of a `usize`.
pub fn usize_to_decimal(n: usize) -> (r: String)
    ensures
        r@ == nat_decimal(n as nat),
{
    u64_to_decimal(n as u64)
}

/// Decimal rendering of a signed integer.
pub fn i64_to_decimal(i: i64) -> (r: String)
    ensures
        r@ == int_decimal(i as int),
{
    if i < 0 {
        let mag: u64 = (-(i as i128)) as u64;
        let mut s = String::from_str("-");
        let digits = u64_to_decimal(mag);
        s.append(digits.as_str());
        proof {
            reveal_strlit("-");
            assert(s@ =~= seq!['-'] + nat_decimal((-i) as nat));
        }
        s
    } else {
        u64_to_decimal(i as u64)
    }
}

/// Diagnostic rendering of a value, computed.
#[verifier::loop_isolation(false)]
pub fn value_debug(v: &Value) -> (r: String)
    ensures
        r@ == debug_text(*v),
    decreases v,
{
    match v {
        Value::Null => String::from_str("Null"),
        Value::Bool(b) => if *b {
            String::from_str("Bool(true)")
        } else {
            String::from_str("Bool(false)")
        },
        Value::Int(i) => {
            let mut s = String::from_str("Int(");
            let d = i64_to_decimal(*i);
            s.append(d.as_str());
            s.append(")");
            s
        },
        Value::Float(bits) => {
            let mut s = String::from_str("Float(");
            let d = u64_to_decimal(*bits);
            s.append(d.as_str());
            s.append(")");
            s
        },
        Value::String(x) => {
            let mut s = String::from_str("String(");
            let d = str_debug(x.as_str());
            s.append(d.as_str());
            s.append(")");
            s
        },
        Value::Array(a) => {
            let mut s = String::from_str("Array([");
            let mut i: usize = 0;
            while i < a.len()
                invariant
                    i <= a@.len(),
                    *v == Value::Array(*a),
                    s@ == "Array(["@ + items_debug(a@.subrange(0, i as int)),
                decreases a@.len() - i,
            {
                proof {
                    assert(decreases_to!(v => a));
                    assert(decreases_to!(a => a@));
                    assert(decreases_to!(a@ => a@[i as int]));
                    assert(decreases_to!(v => a@[i as int]));
                    assert(a@.subrange(0, i + 1).drop_last() =~= a@.subrange(0, i as int));
                }
                if i > 0 {
                    s.append(", ");
                }
                let d = value_debug(&a[i]);
                s.append(d.as_str());
                proof {
                    if i == 0 {
                        assert(s@ =~= "Array(["@ + items_debug(a@.subrange(0, 1)));
                    } else {
                        assert(s@ =~= "Array(["@ + items_debug(a@.subrange(0, i + 1)));
                    }
                }
                i = i + 1;
            }
            s.append("])");
            proof {
                assert(a@.subrange(0, a@.len() as int) =~= a@);
            }
            s
        },
        Value::Object(m) => {
            let mut s = String::from_str("Object({");
            let mut i: usize = 0;
            while i < m.entries.len()
                invariant
                    i <= m.entries@.len(),
                    *v == Value::Object(*m),
                    s@ == "Object({"@ + entries_debug(m.entries@.subrange(0, i as int)),
                decreases m.entries@.len() - i,
            {
                proof {
                    assert(decreases_to!(v => m));
                    assert(decreases_to!(m => m.entries));
                    assert(decreases_to!(m.entries => m.entries@));
                    assert(decreases_to!(m.entries@ => m.entries@[i as int]));
                    assert(decreases_to!(m.entries@[i as int] => m.entries@[i as int].1));
                    assert(decreases_to!(v => m.entries@[i as int].1));
                    assert(m.entries@.subrange(0, i + 1).drop_last() =~= m.entries@.subrange(0, i as int));
                }
                if i > 0 {
                    s.append(", ");
                }
                let k = str_debug(m.entries[i].0.as_str());
                s.append(k.as_str());
                s.append(": ");
                let d = value_debug(&m.entries[i].1);
                s.append(d.as_str());
                proof {
                    if i == 0 {
                        assert(s@ =~= "Object({"@ + entries_debug(m.entries@.subrange(0, 1)));
                    } else {
                        assert(s@ =~= "Object({"@ + entries_debug(m.entries@.subrange(0, i + 1)));
                    }
                }
                i = i + 1;
            }
            s.append("})");
            proof {
                assert(m.entries@.subrange(0, m.entries@.len() as int) =~= m.entries@);
            }
            s
        },
    }
}

} // verus!
