//! Writing encoded values back as dex-txt `.value` literals.
//!
//! Names that a value refers to by index, and the decimal form of float values, come
//! from the caller: the first through a lookup that may know the index or not, the
//! second through a renderer of the raw bits.

use vstd::prelude::*;

use crate::dex::encoded_value::{model, models, EncodedValue, ValueModel};
use crate::dex::literal::{escape_string_literal, spec_escape};
use crate::text::{decimal, push_char, push_number, push_str};

verus! {

/// Which pool an index of a literal names.
#[derive(Clone, Copy, Debug, PartialEq, Eq)]
pub enum NameKind {
    String,
    Type,
    Field,
    Method,
}

/// The raw bits of a float value.
#[derive(Clone, Copy, Debug, PartialEq, Eq)]
pub enum FloatBits {
    Single(u32),
    Double(u64),
}

/// `x` in decimal, with a leading `-` when negative.
pub open spec fn signed_decimal(x: int) -> Seq<char> {
    if x < 0 {
        seq!['-'] + decimal((-x) as nat)
    } else {
        decimal(x as nat)
    }
}

/// `parts` one after the other, separated by `", "`.
pub open spec fn comma_joined(parts: Seq<Seq<char>>) -> Seq<char>
    decreases parts.len(),
{
    if parts.len() == 0 {
        Seq::empty()
    } else if parts.len() == 1 {
        parts[0]
    } else {
        comma_joined(parts.drop_last()) + ", "@ + parts.last()
    }
}

/// The text of index `i` of pool `kind` as `name` gives it, or `fallback` followed by
/// `@` and the index when `name` does not know it; known names go through `wrap`.
pub open spec fn named<N: Fn(NameKind, u32) -> Option<String>>(
    name: N,
    kind: NameKind,
    i: u32,
    prefix: Seq<char>,
    fallback: Seq<char>,
    out: Seq<char>,
) -> bool {
    exists|o: Option<String>|
        call_ensures(name, (kind, i), o) && out == match o {
            Some(s) => prefix + s@,
            None => fallback + "@"@ + decimal(i as nat),
        }
}

/// Whether `out` is the `.value` literal of `m`, with names from `name` and float
/// digits from `float_text`:
/// `null`, `true`/`false`, integers in decimal (`L` after a long), floats with `f` or
/// `d` after them, strings quoted and escaped (an unknown string is empty), types,
/// fields and methods by name or as `kind@index`, enums as `.enum name`, method types
/// as `.method_type name`, method handles as `method_handle@index`, arrays as
/// `{a, b}`, annotations as `<annotation>`.
pub open spec fn literal_text<N: Fn(NameKind, u32) -> Option<String>, F: Fn(FloatBits) -> String>(
    m: ValueModel,
    name: N,
    float_text: F,
    out: Seq<char>,
) -> bool
    decreases m,
{
    match m {
        ValueModel::Null => out == "null"@,
        ValueModel::Boolean(b) => out == (if b {
            "true"@
        } else {
            "false"@
        }),
        ValueModel::Byte(x) => out == signed_decimal(x as int),
        ValueModel::Short(x) => out == signed_decimal(x as int),
        ValueModel::Char(x) => out == decimal(x as nat),
        ValueModel::Int(x) => out == signed_decimal(x as int),
        ValueModel::Long(x) => out == signed_decimal(x as int) + "L"@,
        ValueModel::Float(b) => exists|t: String| call_ensures(float_text, (FloatBits::Single(b),), t) && out == t@ + "f"@,
        ValueModel::Double(b) => exists|t: String|
            call_ensures(float_text, (FloatBits::Double(b),), t) && out == t@ + "d"@,
        ValueModel::String(i) => exists|o: Option<String>|
            call_ensures(name, (NameKind::String, i), o) && out == "\""@ + spec_escape(
                match o {
                    Some(s) => s@,
                    None => Seq::empty(),
                },
            ) + "\""@,
        ValueModel::Type(i) => named(name, NameKind::Type, i, ""@, "type"@, out),
        ValueModel::Field(i) => named(name, NameKind::Field, i, ""@, "field"@, out),
        ValueModel::Enum(i) => named(name, NameKind::Field, i, ".enum "@, "enum"@, out),
        ValueModel::Method(i) => named(name, NameKind::Method, i, ""@, "method"@, out),
        ValueModel::MethodType(i) => named(name, NameKind::Type, i, ".method_type "@, "method_type"@, out),
        ValueModel::MethodHandle(i) => out == "method_handle@"@ + decimal(i as nat),
        ValueModel::Array(xs) => exists|parts: Seq<Seq<char>>|
            {
                &&& parts.len() == xs.len()
                &&& forall|k: int| 0 <= k < xs.len() ==> literal_text(xs[k], name, float_text, #[trigger] parts[k])
                &&& out == "{"@ + comma_joined(parts) + "}"@
            },
        ValueModel::Annotation(_, _) => out == "<annotation>"@,
    }
}

/// Append `x` in decimal, with a leading `-` when negative.
fn push_signed(s: &mut String, x: i64)
    ensures
        final(s)@ == old(s)@ + signed_decimal(x as int),
{
    if x < 0 {
        push_char(s, '-');
        let m: u64 = (-(x as i128)) as u64;
        push_number(s, m, 10);
    } else {
        push_number(s, x as u64, 10);
    }
}

/// Append the name of `i` in pool `kind` after `prefix`, or `fallback@i`.
fn push_named<N: Fn(NameKind, u32) -> Option<String>>(
    s: &mut String,
    name: &N,
    kind: NameKind,
    i: u32,
    prefix: &str,
    fallback: &str,
)
    requires
        forall|k: NameKind, j: u32| name.requires((k, j)),
    ensures
        exists|t: Seq<char>| final(s)@ == old(s)@ + t && named(*name, kind, i, prefix@, fallback@, t),
{
    let o = name(kind, i);
    let ghost start = s@;
    match o {
        Some(n) => {
            push_str(s, prefix);
            push_str(s, n.as_str());
            assert(s@ == start + (prefix@ + n@));
        },
        None => {
            push_str(s, fallback);
            push_char(s, '@');
            push_number(s, i as u64, 10);
            assert(s@ =~= start + (fallback@ + "@"@ + decimal(i as nat))) by {
                reveal_strlit("@");
            }
        },
    }
}

/// The dex-txt `.value` literal of `v`, with the names it refers to from `name` and the
/// decimal form of its float values from `float_text`.
#[verifier::spinoff_prover]
pub fn format_value_literal_full<N: Fn(NameKind, u32) -> Option<String>, F: Fn(FloatBits) -> String>(
    v: &EncodedValue,
    name: &N,
    float_text: &F,
) -> (r: String)
    requires
        forall|k: NameKind, j: u32| name.requires((k, j)),
        forall|b: FloatBits| float_text.requires((b,)),
    ensures
        literal_text(model(*v), *name, *float_text, r@),
    decreases *v, 0int,
{
    let mut s = String::new();
    let ghost e = s@;
    match v {
        EncodedValue::Null => {
            push_str(&mut s, "null");
            assert(s@ =~= "null"@);
        },
        EncodedValue::Boolean(b) => {
            if *b {
                push_str(&mut s, "true");
                assert(s@ =~= "true"@);
            } else {
                push_str(&mut s, "false");
                assert(s@ =~= "false"@);
            }
        },
        EncodedValue::Byte(x) => {
            push_signed(&mut s, *x as i64);
            assert(s@ =~= signed_decimal(*x as int));
        },
        EncodedValue::Short(x) => {
            push_signed(&mut s, *x as i64);
            assert(s@ =~= signed_decimal(*x as int));
        },
        EncodedValue::Char(x) => {
            push_number(&mut s, *x as u64, 10);
            assert(s@ =~= decimal(*x as nat));
        },
        EncodedValue::Int(x) => {
            push_signed(&mut s, *x as i64);
            assert(s@ =~= signed_decimal(*x as int));
        },
        EncodedValue::Long(x) => {
            push_signed(&mut s, *x);
            push_char(&mut s, 'L');
            proof {
                reveal_strlit("L");
            }
            assert(s@ =~= signed_decimal(*x as int) + "L"@);
        },
        EncodedValue::Float(b) => {
            let t = float_text(FloatBits::Single(*b));
            push_str(&mut s, t.as_str());
            push_char(&mut s, 'f');
            proof {
                reveal_strlit("f");
            }
            assert(s@ =~= t@ + "f"@);
        },
        EncodedValue::Double(b) => {
            let t = float_text(FloatBits::Double(*b));
            push_str(&mut s, t.as_str());
            push_char(&mut s, 'd');
            proof {
                reveal_strlit("d");
            }
            assert(s@ =~= t@ + "d"@);
        },
        EncodedValue::String(i) => {
            let o = name(NameKind::String, *i);
            let text = match &o {
                Some(n) => escape_string_literal(n.as_str()),
                None => escape_string_literal(""),
            };
            proof {
                reveal_strlit("");
            }
            push_char(&mut s, '"');
            push_str(&mut s, text.as_str());
            push_char(&mut s, '"');
            proof {
                reveal_strlit("\"");
            }
            assert(s@ =~= "\""@ + spec_escape(
                match o {
                    Some(n) => n@,
                    None => Seq::empty(),
                },
            ) + "\""@);
        },
        EncodedValue::Type(i) => {
            push_named(&mut s, name, NameKind::Type, *i, "", "type");
            proof { lemma_after_empty(e, s@); }
        },
        EncodedValue::Field(i) => {
            push_named(&mut s, name, NameKind::Field, *i, "", "field");
            proof { lemma_after_empty(e, s@); }
        },
        EncodedValue::Enum(i) => {
            push_named(&mut s, name, NameKind::Field, *i, ".enum ", "enum");
            proof { lemma_after_empty(e, s@); }
        },
        EncodedValue::Method(i) => {
            push_named(&mut s, name, NameKind::Method, *i, "", "method");
            proof { lemma_after_empty(e, s@); }
        },
        EncodedValue::MethodType(i) => {
            push_named(&mut s, name, NameKind::Type, *i, ".method_type ", "method_type");
            proof { lemma_after_empty(e, s@); }
        },
        EncodedValue::MethodHandle(i) => {
            push_str(&mut s, "method_handle@");
            push_number(&mut s, *i as u64, 10);
            assert(s@ =~= "method_handle@"@ + decimal(*i as nat));
        },
        EncodedValue::Array(xs) => {
            s = format_array(xs.as_slice(), name, float_text);
        },
        EncodedValue::Annotation(_) => {
            push_str(&mut s, "<annotation>");
            assert(s@ =~= "<annotation>"@);
        },
    }
    s
}

/// Text appended to an empty string is that text.
proof fn lemma_after_empty(e: Seq<char>, s: Seq<char>)
    requires
        e.len() == 0,
    ensures
        forall|t: Seq<char>| s == e + t ==> s == t,
{
    assert forall|t: Seq<char>| s == e + t implies s == t by {
        assert(e + t =~= t);
    }
}

/// `{a, b, ...}` for the values `values`.
fn format_array<N: Fn(NameKind, u32) -> Option<String>, F: Fn(FloatBits) -> String>(
    values: &[EncodedValue],
    name: &N,
    float_text: &F,
) -> (r: String)
    requires
        forall|k: NameKind, j: u32| name.requires((k, j)),
        forall|b: FloatBits| float_text.requires((b,)),
    ensures
        exists|parts: Seq<Seq<char>>|
            {
                &&& parts.len() == values@.len()
                &&& forall|k: int|
                    0 <= k < values@.len() ==> literal_text(models(values@)[k], *name, *float_text, #[trigger] parts[k])
                &&& r@ == "{"@ + comma_joined(parts) + "}"@
            },
    decreases values@, 0int,
{
    let mut s = String::new();
    push_char(&mut s, '{');
    let ghost mut parts: Seq<Seq<char>> = Seq::empty();
    proof {
        reveal_strlit("{");
        assert(s@ =~= "{"@ + comma_joined(parts));
    }
    let mut i: usize = 0;
    while i < values.len()
        invariant
            i <= values@.len(),
            parts.len() == i,
            forall|k: int| 0 <= k < i ==> literal_text(models(values@)[k], *name, *float_text, #[trigger] parts[k]),
            s@ == "{"@ + comma_joined(parts),
            forall|k: NameKind, j: u32| name.requires((k, j)),
            forall|b: FloatBits| float_text.requires((b,)),
        decreases values@.len() - i,
    {
        if i > 0 {
            push_str(&mut s, ", ");
        }
        let part = format_value_literal_full(&values[i], name, float_text);
        push_str(&mut s, part.as_str());
        proof {
            reveal_strlit("{");
            let ghost np = parts.push(part@);
            assert(np.drop_last() =~= parts);
            if i > 0 {
                assert(comma_joined(np) == comma_joined(parts) + ", "@ + part@);
            } else {
                assert(comma_joined(np) == part@);
            }
            assert(models(values@)[i as int] == model(values@[i as int]));
            parts = np;
        }
        i = i + 1;
    }
    push_char(&mut s, '}');
    proof {
        reveal_strlit("{");
        reveal_strlit("}");
        assert(s@ =~= "{"@ + comma_joined(parts) + "}"@);
    }
    s
}

} // verus!
