use dex_parser::dex::encoded_value::{
    decode_encoded_annotation, decode_encoded_array, decode_encoded_value, encode_encoded_annotation,
    encode_encoded_array, encode_encoded_value, escape_string_literal, unescape_string_content,
    unquote_string_literal, EncodedAnnotation, EncodedValue,
};
use dex_parser::dex::literal::{is_type_descriptor, split_array_elems};
use dex_parser::dex::value_literal::{parse_value_literal, ValueLiteral};
use dex_parser::dex::value_format::{format_value_literal_full, FloatBits, NameKind};
use dex_parser::error::DexError;

fn same(a: &EncodedValue, b: &EncodedValue) -> bool {
    format!("{a:?}") == format!("{b:?}")
}

#[test]
fn roundtrip_int_string_null_bool() {
    for v in [
        EncodedValue::Int(42),
        EncodedValue::Int(-1),
        EncodedValue::String(3),
        EncodedValue::Null,
        EncodedValue::Boolean(true),
        EncodedValue::Boolean(false),
        EncodedValue::Long(99),
        EncodedValue::Array(vec![EncodedValue::Int(1), EncodedValue::Int(2)]),
    ] {
        let bytes = encode_encoded_value(&v);
        let (decoded, end) = decode_encoded_value(&bytes, 0).unwrap();
        assert_eq!(end, bytes.len());
        assert!(same(&decoded, &v));
    }
}

#[test]
fn encode_uses_fewest_bytes() {
    assert_eq!(encode_encoded_value(&EncodedValue::Int(42)), vec![0x04, 42]);
    assert_eq!(encode_encoded_value(&EncodedValue::Int(-1)), vec![0x04, 0xff]);
    assert_eq!(encode_encoded_value(&EncodedValue::Int(0x100)), vec![0x24, 0x00, 0x01]);
    assert_eq!(encode_encoded_value(&EncodedValue::Null), vec![0x1e]);
    assert_eq!(encode_encoded_value(&EncodedValue::Boolean(true)), vec![0x3f]);
    assert_eq!(encode_encoded_value(&EncodedValue::String(3)), vec![0x17, 3]);
    assert_eq!(encode_encoded_value(&EncodedValue::Char(0x1234)), vec![0x23, 0x34, 0x12]);
}

#[test]
fn roundtrip_every_kind() {
    let values = vec![
        EncodedValue::Byte(-5),
        EncodedValue::Short(-300),
        EncodedValue::Char(65535),
        EncodedValue::Int(i32::MIN),
        EncodedValue::Long(i64::MAX),
        EncodedValue::Float(0x3f80_0000),
        EncodedValue::Double(0x4000_0000_0000_0000),
        EncodedValue::MethodType(1),
        EncodedValue::MethodHandle(2),
        EncodedValue::Type(70000),
        EncodedValue::Field(4),
        EncodedValue::Method(5),
        EncodedValue::Enum(6),
        EncodedValue::Annotation(EncodedAnnotation { type_idx: 7, elements: vec![(8, EncodedValue::Int(9))] }),
    ];
    let bytes = encode_encoded_array(&values);
    let (decoded, end) = decode_encoded_array(&bytes, 0).unwrap();
    assert_eq!(end, bytes.len());
    assert_eq!(decoded.len(), values.len());
    for (a, b) in decoded.iter().zip(values.iter()) {
        assert!(same(a, b));
    }
}

#[test]
fn annotation_roundtrip() {
    let a = EncodedAnnotation { type_idx: 300, elements: vec![(1, EncodedValue::Null), (2, EncodedValue::Int(3))] };
    let bytes = encode_encoded_annotation(&a);
    let (d, end) = decode_encoded_annotation(&bytes, 0).unwrap();
    assert_eq!(end, bytes.len());
    assert_eq!(d.type_idx, 300);
    assert_eq!(d.elements.len(), 2);
    assert!(same(&d.elements[1].1, &EncodedValue::Int(3)));
}

#[test]
fn decode_errors() {
    assert!(matches!(decode_encoded_value(&[], 0), Err(DexError::Truncated(_))));
    // int with four payload bytes but only two present
    assert!(matches!(decode_encoded_value(&[0x64, 1, 2], 0), Err(DexError::Truncated(_))));
    // value_type 0x05 is not defined
    assert!(matches!(decode_encoded_value(&[0x05], 0), Err(DexError::Parse(_))));
}

#[test]
fn escape_string_examples() {
    assert_eq!(escape_string_literal("a\"b\\c"), "a\\\"b\\\\c");
    assert_eq!(escape_string_literal("x\ny\tz\r"), "x\\ny\\tz\\r");
    assert_eq!(escape_string_literal("\u{0b}\u{85}\u{2028}\u{2029}"), "\\u000b\\u0085\\u2028\\u2029");
    assert_eq!(escape_string_literal("plain é"), "plain é");
}

#[test]
fn escape_then_unquote_roundtrip() {
    let text = "a\nb\t\"c\r\u{000b}d\u{85}\u{2028}\u{2029}e";
    let lit = format!("\"{}\"", escape_string_literal(text));
    assert!(!lit.contains('\n'));
    assert!(!lit.chars().any(|c| matches!(c, '\u{85}' | '\u{2028}' | '\u{2029}')));
    assert_eq!(unquote_string_literal(&lit).unwrap(), text);
    assert_eq!(unquote_string_literal(&format!("{lit}  \t")).unwrap(), text);
}

#[test]
fn unescape_examples() {
    assert_eq!(unescape_string_content("a\\x41\\u00e9\\q").unwrap(), "aAéq");
    assert_eq!(unescape_string_content("tail\\").unwrap(), "tail\\");
    assert_eq!(unescape_string_content("\\x+f").unwrap(), "\u{f}");
    assert!(matches!(unescape_string_content("\\x4"), Err(DexError::Parse(_))));
    assert!(matches!(unescape_string_content("\\xzz"), Err(DexError::Parse(_))));
    assert!(matches!(unescape_string_content("\\ud800"), Err(DexError::Parse(_))));
}

#[test]
fn unquote_errors() {
    assert!(matches!(unquote_string_literal("abc"), Err(DexError::Parse(_))));
    assert!(matches!(unquote_string_literal("\"abc"), Err(DexError::Parse(_))));
    assert!(matches!(unquote_string_literal("\"abc\" x"), Err(DexError::Parse(_))));
    assert_eq!(unquote_string_literal("\"a\\\"b\"").unwrap(), "a\"b");
    assert_eq!(unquote_string_literal("\"\\u0022\"").unwrap(), "\"");
}

#[test]
fn split_array_elements() {
    assert_eq!(
        split_array_elems(" 1, \"a,b\\\",c\" , {2, 3},, x "),
        vec!["1".to_string(), "\"a,b\\\",c\"".to_string(), "{2, 3}".to_string(), "x".to_string()]
    );
    assert!(split_array_elems("  ").is_empty());
    assert_eq!(split_array_elems("{1,{2}},3"), vec!["{1,{2}}".to_string(), "3".to_string()]);
}

#[test]
fn type_descriptors() {
    assert!(is_type_descriptor("I"));
    assert!(is_type_descriptor("[Ljava/lang/String;"));
    assert!(is_type_descriptor("Lfoo/Bar;"));
    assert!(!is_type_descriptor("Lfoo"));
    assert!(!is_type_descriptor("II"));
    assert!(!is_type_descriptor(""));
}

#[test]
fn array_string_with_embedded_quotes_roundtrip() {
    // Binary Kotlin metadata often contains 0x22 bytes, emitted as \".
    let s = "a\"b,c";
    let lit = format!("{{\"{}\"}}", escape_string_literal(s));
    let v = parse_value_literal(&lit).unwrap();
    match v {
        ValueLiteral::Array(xs) => {
            assert_eq!(xs.len(), 1);
            match &xs[0] {
                ValueLiteral::String(got) => assert_eq!(got, s),
                other => panic!("not a string: {other:?}"),
            }
        }
        other => panic!("not an array: {other:?}"),
    }
}

#[test]
fn string_escape_roundtrip_newlines_and_quotes() {
    let original = "a\nb\t\"c\r\u{000b}d\u{85}\u{2028}\u{2029}e";
    let lit = format!("\"{}\"", escape_string_literal(original));
    assert!(!lit.contains('\n'));
    assert!(!lit.chars().any(|c| matches!(c, '\u{85}' | '\u{2028}' | '\u{2029}')));
    match parse_value_literal(&lit).unwrap() {
        ValueLiteral::String(interned) => assert_eq!(interned, original),
        other => panic!("not a string: {other:?}"),
    }
}

#[test]
fn value_literal_forms() {
    let show = |s: &str| format!("{:?}", parse_value_literal(s));
    assert_eq!(show(" null "), "Ok(Null)");
    assert_eq!(show("true"), "Ok(Boolean(true))");
    assert_eq!(show("false"), "Ok(Boolean(false))");
    assert_eq!(show("Ljava/lang/String;"), "Ok(Type(\"Ljava/lang/String;\"))");
    assert_eq!(show("[I"), "Ok(Type(\"[I\"))");
    assert_eq!(show("-5L"), "Ok(Long(-5))");
    assert_eq!(show("9223372036854775807L"), "Ok(Long(9223372036854775807))");
    assert_eq!(show("1.5f"), "Ok(Float(\"1.5\"))");
    assert_eq!(show("-infF"), "Ok(Float(\"-inf\"))");
    assert_eq!(show("NaNd"), "Ok(Double(\"NaN\"))");
    assert_eq!(show("2.0e-3d"), "Ok(Double(\"2.0e-3\"))");
    assert_eq!(show(".5d"), "Ok(Double(\".5\"))");
    assert_eq!(show("method@7"), "Ok(Method(7))");
    assert_eq!(show("field@0"), "Ok(Field(0))");
    assert_eq!(show("enum@3"), "Ok(Enum(3))");
    assert_eq!(show("type@4"), "Ok(TypeIdx(4))");
    assert_eq!(show("method_type@5"), "Ok(MethodType(5))");
    assert_eq!(show("method_handle@6"), "Ok(MethodHandle(6))");
    assert_eq!(show("0x1f"), "Ok(Int(31))");
    assert_eq!(show("0x-10"), "Ok(Int(-16))");
    assert_eq!(show("-2147483648"), "Ok(Int(-2147483648))");
    assert_eq!(show("+42"), "Ok(Int(42))");
    assert_eq!(show("{1, 2}"), "Ok(Array([Int(1), Int(2)]))");
    assert_eq!(show("{}"), "Ok(Array([]))");
    // out of range or not a form
    assert!(matches!(parse_value_literal("2147483648"), Err(DexError::Parse(ref m)) if m == "unsupported .value literal: 2147483648"));
    assert!(matches!(parse_value_literal(" 1.5.f "), Err(DexError::Parse(ref m)) if m == "unsupported .value literal: 1.5.f"));
    assert!(matches!(parse_value_literal("method@-1"), Err(DexError::Parse(ref m)) if m == "unsupported .value literal: method@-1"));
    assert!(matches!(parse_value_literal("\"abc"), Err(DexError::Parse(_))));
    assert!(matches!(parse_value_literal("{1, x}"), Err(DexError::Parse(ref m)) if m == "unsupported .value literal: x"));
    // every float text the grammar accepts is one that std reads
    for t in ["1.5", "-inf", "NaN", "2.0e-3", ".5", "1.", "+Infinity", "1e10"] {
        assert!(t.parse::<f32>().is_ok());
        assert!(format!("{:?}", parse_value_literal(&format!("{t}f"))).starts_with("Ok(Float"));
    }
}

#[test]
fn value_literal_formatting() {
    let name = |kind: NameKind, i: u32| match (kind, i) {
        (NameKind::String, 0) => Some("a\nb\"c".to_string()),
        (NameKind::Type, 1) => Some("Ljava/lang/String;".to_string()),
        (NameKind::Field, 2) => Some("LFoo;->X:LFoo;".to_string()),
        (NameKind::Method, 5) => Some("LFoo;->run()V".to_string()),
        _ => None,
    };
    let float_text = |b: FloatBits| match b {
        FloatBits::Single(x) => f32::from_bits(x).to_string(),
        FloatBits::Double(x) => f64::from_bits(x).to_string(),
    };
    let f = |v: &EncodedValue| format_value_literal_full(v, &name, &float_text);
    assert_eq!(f(&EncodedValue::Null), "null");
    assert_eq!(f(&EncodedValue::Boolean(false)), "false");
    assert_eq!(f(&EncodedValue::Byte(-128)), "-128");
    assert_eq!(f(&EncodedValue::Short(300)), "300");
    assert_eq!(f(&EncodedValue::Char(65)), "65");
    assert_eq!(f(&EncodedValue::Int(i32::MIN)), "-2147483648");
    assert_eq!(f(&EncodedValue::Long(i64::MIN)), "-9223372036854775808L");
    assert_eq!(f(&EncodedValue::Float(1.5f32.to_bits())), "1.5f");
    assert_eq!(f(&EncodedValue::Double(2.0f64.to_bits())), "2d");
    assert_eq!(f(&EncodedValue::String(0)), "\"a\\nb\\\"c\"");
    assert_eq!(f(&EncodedValue::String(9)), "\"\"");
    assert_eq!(f(&EncodedValue::Type(1)), "Ljava/lang/String;");
    assert_eq!(f(&EncodedValue::Type(3)), "type@3");
    assert_eq!(f(&EncodedValue::Field(2)), "LFoo;->X:LFoo;");
    assert_eq!(f(&EncodedValue::Field(7)), "field@7");
    assert_eq!(f(&EncodedValue::Enum(2)), ".enum LFoo;->X:LFoo;");
    assert_eq!(f(&EncodedValue::Enum(8)), "enum@8");
    assert_eq!(f(&EncodedValue::Method(5)), "LFoo;->run()V");
    assert_eq!(f(&EncodedValue::Method(6)), "method@6");
    assert_eq!(f(&EncodedValue::MethodType(1)), ".method_type Ljava/lang/String;");
    assert_eq!(f(&EncodedValue::MethodType(4)), "method_type@4");
    assert_eq!(f(&EncodedValue::MethodHandle(4)), "method_handle@4");
    assert_eq!(f(&EncodedValue::Array(vec![])), "{}");
    assert_eq!(
        f(&EncodedValue::Array(vec![EncodedValue::Int(1), EncodedValue::Boolean(true), EncodedValue::Array(vec![EncodedValue::Null])])),
        "{1, true, {null}}"
    );
    assert_eq!(f(&EncodedValue::Annotation(EncodedAnnotation { type_idx: 0, elements: vec![] })), "<annotation>");
}
