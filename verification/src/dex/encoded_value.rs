//! DEX `encoded_value` / `encoded_array` / `encoded_annotation` decode + encode.

use vstd::prelude::*;

pub use crate::dex::literal::{escape_string_literal, unescape_string_content, unquote_string_literal};
use crate::error::{parse_error, truncated, DexError, Result};
use crate::leb128::{
    lemma_read_leb_consumed, lemma_uleb_encode_len, read_uleb128, spec_read_uleb128, suffix, uleb128_roundtrip,
    uleb_encode, write_uleb128,
};

verus! {

/// DEX encoded_value kinds (value_type nibble). `Float` and `Double` hold the
/// IEEE-754 bit patterns of the value as stored in the file.
#[derive(Debug)]
pub enum EncodedValue {
    Byte(i8),
    Short(i16),
    Char(u16),
    Int(i32),
    Long(i64),
    Float(u32),
    Double(u64),
    MethodType(u32),
    MethodHandle(u32),
    String(u32),
    Type(u32),
    Field(u32),
    Method(u32),
    Enum(u32),
    Array(Vec<EncodedValue>),
    Annotation(EncodedAnnotation),
    Null,
    Boolean(bool),
}

/// An `encoded_annotation`: type index and `(name_idx, value)` elements.
#[derive(Debug)]
pub struct EncodedAnnotation {
    pub type_idx: u32,
    pub elements: Vec<(u32, EncodedValue)>,
}

/// Mathematical form of an [`EncodedValue`] (sequences in place of vectors).
pub ghost enum ValueModel {
    Byte(i8),
    Short(i16),
    Char(u16),
    Int(i32),
    Long(i64),
    Float(u32),
    Double(u64),
    MethodType(u32),
    MethodHandle(u32),
    String(u32),
    Type(u32),
    Field(u32),
    Method(u32),
    Enum(u32),
    Array(Seq<ValueModel>),
    Annotation(u32, Seq<(u32, ValueModel)>),
    Null,
    Boolean(bool),
}

/// The model of a value.
pub open spec fn model(v: EncodedValue) -> ValueModel
    decreases v,
{
    match v {
        EncodedValue::Byte(x) => ValueModel::Byte(x),
        EncodedValue::Short(x) => ValueModel::Short(x),
        EncodedValue::Char(x) => ValueModel::Char(x),
        EncodedValue::Int(x) => ValueModel::Int(x),
        EncodedValue::Long(x) => ValueModel::Long(x),
        EncodedValue::Float(x) => ValueModel::Float(x),
        EncodedValue::Double(x) => ValueModel::Double(x),
        EncodedValue::MethodType(x) => ValueModel::MethodType(x),
        EncodedValue::MethodHandle(x) => ValueModel::MethodHandle(x),
        EncodedValue::String(x) => ValueModel::String(x),
        EncodedValue::Type(x) => ValueModel::Type(x),
        EncodedValue::Field(x) => ValueModel::Field(x),
        EncodedValue::Method(x) => ValueModel::Method(x),
        EncodedValue::Enum(x) => ValueModel::Enum(x),
        EncodedValue::Array(xs) => ValueModel::Array(models(xs@)),
        EncodedValue::Annotation(a) => ValueModel::Annotation(a.type_idx, element_models(a.elements@)),
        EncodedValue::Null => ValueModel::Null,
        EncodedValue::Boolean(b) => ValueModel::Boolean(b),
    }
}

/// Models of a sequence of values.
pub open spec fn models(vs: Seq<EncodedValue>) -> Seq<ValueModel>
    decreases vs,
{
    Seq::new(
        vs.len(),
        |i: int|
            if 0 <= i < vs.len() {
                model(vs[i])
            } else {
                ValueModel::Null
            },
    )
}

/// Models of annotation elements.
pub open spec fn element_models(es: Seq<(u32, EncodedValue)>) -> Seq<(u32, ValueModel)>
    decreases es,
{
    Seq::new(
        es.len(),
        |i: int|
            if 0 <= i < es.len() {
                (es[i].0, model(es[i].1))
            } else {
                (0u32, ValueModel::Null)
            },
    )
}

/// Model of an annotation: `(type_idx, elements)`.
pub open spec fn annotation_model(a: EncodedAnnotation) -> (u32, Seq<(u32, ValueModel)>) {
    (a.type_idx, element_models(a.elements@))
}

/// Why decoding failed.
pub ghost enum DecodeFault {
    /// The bytes end too early, or a payload is wider than its type allows.
    Truncated,
    /// A value_type that the format does not define.
    UnknownType,
}

/// The error that `fault` stands for.
pub open spec fn fault_error(e: DexError, fault: DecodeFault) -> bool {
    match fault {
        DecodeFault::Truncated => e is Truncated,
        DecodeFault::UnknownType => e is Parse,
    }
}

/// 256 to the power `n`.
pub open spec fn p256(n: nat) -> nat
    decreases n,
{
    if n == 0 {
        1
    } else {
        256 * p256((n - 1) as nat)
    }
}

/// Little-endian unsigned value of `s`.
pub open spec fn le_value(s: Seq<u8>) -> nat
    decreases s.len(),
{
    if s.len() == 0 {
        0
    } else {
        (s[0] + 256 * le_value(s.drop_first())) as nat
    }
}

/// Little-endian two's-complement value of `s` (sign taken from its last byte).
pub open spec fn signed_value(s: Seq<u8>) -> int {
    if s.len() > 0 && s[s.len() - 1] >= 128 {
        le_value(s) - p256(s.len())
    } else {
        le_value(s) as int
    }
}

/// The `arg + 1` payload bytes at `pos`, if that is at most `max` and within `data`.
pub open spec fn spec_payload(data: Seq<u8>, pos: int, arg: int, max: int) -> Option<Seq<u8>> {
    let n = arg + 1;
    if n > max || pos + n > data.len() {
        None
    } else {
        Some(data.subrange(pos, pos + n))
    }
}

/// Decode one encoded_value at `pos`: the value and the position after it.
pub open spec fn spec_decode_value(data: Seq<u8>, pos: int) -> core::result::Result<(ValueModel, int), DecodeFault>
    decreases data.len() - pos, 0int,
{
    if pos < 0 || pos >= data.len() {
        Err(DecodeFault::Truncated)
    } else {
        let header = data[pos];
        let vt = header % 32;
        let arg = (header / 32) as int;
        let p = pos + 1;
        let end = p + arg + 1;
        if vt == 0x00 {
            match spec_payload(data, p, arg, 1) {
                Some(b) => Ok((ValueModel::Byte(signed_value(b) as i8), end)),
                None => Err(DecodeFault::Truncated),
            }
        } else if vt == 0x02 {
            match spec_payload(data, p, arg, 2) {
                Some(b) => Ok((ValueModel::Short(signed_value(b) as i16), end)),
                None => Err(DecodeFault::Truncated),
            }
        } else if vt == 0x03 {
            match spec_payload(data, p, arg, 2) {
                Some(b) => Ok((ValueModel::Char(le_value(b) as u16), end)),
                None => Err(DecodeFault::Truncated),
            }
        } else if vt == 0x04 {
            match spec_payload(data, p, arg, 4) {
                Some(b) => Ok((ValueModel::Int(signed_value(b) as i32), end)),
                None => Err(DecodeFault::Truncated),
            }
        } else if vt == 0x06 {
            match spec_payload(data, p, arg, 8) {
                Some(b) => Ok((ValueModel::Long(signed_value(b) as i64), end)),
                None => Err(DecodeFault::Truncated),
            }
        } else if vt == 0x10 {
            match spec_payload(data, p, arg, 4) {
                Some(b) => Ok((ValueModel::Float(le_value(b) as u32), end)),
                None => Err(DecodeFault::Truncated),
            }
        } else if vt == 0x11 {
            match spec_payload(data, p, arg, 8) {
                Some(b) => Ok((ValueModel::Double(le_value(b) as u64), end)),
                None => Err(DecodeFault::Truncated),
            }
        } else if 0x15 <= vt <= 0x1b {
            match spec_payload(data, p, arg, 4) {
                Some(b) => {
                    let idx = le_value(b) as u32;
                    Ok(
                        (
                            if vt == 0x15 {
                                ValueModel::MethodType(idx)
                            } else if vt == 0x16 {
                                ValueModel::MethodHandle(idx)
                            } else if vt == 0x17 {
                                ValueModel::String(idx)
                            } else if vt == 0x18 {
                                ValueModel::Type(idx)
                            } else if vt == 0x19 {
                                ValueModel::Field(idx)
                            } else if vt == 0x1a {
                                ValueModel::Method(idx)
                            } else {
                                ValueModel::Enum(idx)
                            },
                            end,
                        ),
                    )
                },
                None => Err(DecodeFault::Truncated),
            }
        } else if vt == 0x1c {
            match spec_decode_array(data, p) {
                Ok((xs, e)) => Ok((ValueModel::Array(xs), e)),
                Err(f) => Err(f),
            }
        } else if vt == 0x1d {
            match spec_decode_annotation(data, p) {
                Ok((a, e)) => Ok((ValueModel::Annotation(a.0, a.1), e)),
                Err(f) => Err(f),
            }
        } else if vt == 0x1e {
            Ok((ValueModel::Null, p))
        } else if vt == 0x1f {
            Ok((ValueModel::Boolean(arg != 0), p))
        } else {
            Err(DecodeFault::UnknownType)
        }
    }
}

/// An `encoded_array` at `pos`: uleb128 size, then that many values.
pub open spec fn spec_decode_array(data: Seq<u8>, pos: int) -> core::result::Result<(Seq<ValueModel>, int), DecodeFault>
    decreases data.len() - pos, 0int,
{
    if pos < 0 {
        Err(DecodeFault::Truncated)
    } else {
        match spec_read_uleb128(data, pos) {
            Some((size, n)) => {
                proof {
                    lemma_read_leb_consumed(data, pos);
                }
                spec_decode_values(data, pos + n, size as nat)
            },
            None => Err(DecodeFault::Truncated),
        }
    }
}

/// `count` consecutive values from `pos`.
pub open spec fn spec_decode_values(data: Seq<u8>, pos: int, count: nat) -> core::result::Result<(Seq<ValueModel>, int), DecodeFault>
    decreases data.len() - pos, count + 1,
{
    if count == 0 {
        Ok((Seq::empty(), pos))
    } else if pos < 0 || pos > data.len() {
        Err(DecodeFault::Truncated)
    } else {
        match spec_decode_value(data, pos) {
            Ok((v, next)) => if next <= pos || next > data.len() {
                Err(DecodeFault::Truncated)
            } else {
                match spec_decode_values(data, next, (count - 1) as nat) {
                    Ok((rest, e)) => Ok((seq![v] + rest, e)),
                    Err(f) => Err(f),
                }
            },
            Err(f) => Err(f),
        }
    }
}

/// An `encoded_annotation` at `pos`: uleb128 type_idx, uleb128 size, then `(name_idx, value)` pairs.
pub open spec fn spec_decode_annotation(data: Seq<u8>, pos: int) -> core::result::Result<((u32, Seq<(u32, ValueModel)>), int), DecodeFault>
    decreases data.len() - pos, 0int,
{
    if pos < 0 {
        Err(DecodeFault::Truncated)
    } else {
        match spec_read_uleb128(data, pos) {
            Some((type_idx, n1)) => match spec_read_uleb128(data, pos + n1) {
                Some((size, n2)) => {
                    proof {
                        lemma_read_leb_consumed(data, pos);
                        lemma_read_leb_consumed(data, pos + n1);
                    }
                    match spec_decode_elements(data, pos + n1 + n2, size as nat) {
                        Ok((es, e)) => Ok(((type_idx, es), e)),
                        Err(f) => Err(f),
                    }
                },
                None => Err(DecodeFault::Truncated),
            },
            None => Err(DecodeFault::Truncated),
        }
    }
}

/// `count` consecutive `(uleb128 name_idx, value)` pairs from `pos`.
pub open spec fn spec_decode_elements(data: Seq<u8>, pos: int, count: nat) -> core::result::Result<(Seq<(u32, ValueModel)>, int), DecodeFault>
    decreases data.len() - pos, count + 1,
{
    if count == 0 {
        Ok((Seq::empty(), pos))
    } else if pos < 0 {
        Err(DecodeFault::Truncated)
    } else {
        match spec_read_uleb128(data, pos) {
            Some((name, n)) => {
                proof {
                    lemma_read_leb_consumed(data, pos);
                }
                match spec_decode_value(data, pos + n) {
                    Ok((v, next)) => if next <= pos || next > data.len() {
                        Err(DecodeFault::Truncated)
                    } else {
                        match spec_decode_elements(data, next, (count - 1) as nat) {
                            Ok((rest, e)) => Ok((seq![(name, v)] + rest, e)),
                            Err(f) => Err(f),
                        }
                    },
                    Err(f) => Err(f),
                }
            },
            None => Err(DecodeFault::Truncated),
        }
    }
}

proof fn lemma_le_value_push(s: Seq<u8>, b: u8)
    ensures
        le_value(s.push(b)) == le_value(s) + b * p256(s.len()),
    decreases s.len(),
{
    if s.len() == 0 {
        assert(s.push(b).drop_first() =~= Seq::<u8>::empty());
        assert(le_value(Seq::<u8>::empty()) == 0);
        assert(s.push(b)[0] == b);
        assert(p256(0) == 1);
    } else {
        assert(s.push(b).drop_first() =~= s.drop_first().push(b));
        lemma_le_value_push(s.drop_first(), b);
        assert(s.push(b)[0] == s[0]);
        assert(le_value(s.push(b)) == s[0] + 256 * le_value(s.drop_first().push(b)));
        assert(p256(s.len()) == 256 * p256((s.len() - 1) as nat));
        assert(256 * (b * p256((s.len() - 1) as nat)) == b * (256 * p256((s.len() - 1) as nat)))
            by (nonlinear_arith);
    }
}

proof fn lemma_le_value_bound(s: Seq<u8>)
    ensures
        le_value(s) < p256(s.len()),
    decreases s.len(),
{
    if s.len() > 0 {
        lemma_le_value_bound(s.drop_first());
    }
}

pub proof fn lemma_p256_values()
    ensures
        p256(0) == 1,
        p256(1) == 0x100,
        p256(2) == 0x1_0000,
        p256(3) == 0x100_0000,
        p256(4) == 0x1_0000_0000,
        p256(5) == 0x100_0000_0000,
        p256(6) == 0x1_0000_0000_0000,
        p256(7) == 0x100_0000_0000_0000,
        p256(8) == 0x1_0000_0000_0000_0000,
{
    reveal_with_fuel(p256, 9);
}

/// Little-endian unsigned value of the `arg + 1` payload bytes at `pos` (`arg + 1 <= max <= 8`).
fn read_unsigned(data: &[u8], pos: usize, value_arg: usize, max: usize) -> (r: Result<(u64, usize)>)
    requires
        max <= 8,
        value_arg < 8,
    ensures
        match r {
            Ok((v, np)) => spec_payload(data@, pos as int, value_arg as int, max as int) matches Some(
                b,
            ) && v == le_value(b) && np == pos + value_arg + 1,
            Err(e) => e is Truncated && spec_payload(
                data@,
                pos as int,
                value_arg as int,
                max as int,
            ) is None,
        },
{
    let n = value_arg + 1;
    if n > max || pos > data.len() || data.len() - pos < n {
        return Err(truncated("encoded unsigned"));
    }
    let ghost b = data@.subrange(pos as int, pos + n);
    let mut acc: u64 = 0;
    let mut k: usize = 0;
    proof {
        lemma_p256_values();
    }
    while k < n
        invariant
            k <= n <= 8,
            pos + n <= data@.len() <= usize::MAX,
            b == data@.subrange(pos as int, pos + n),
            acc == le_value(b.take(k as int)),
        decreases n - k,
    {
        proof {
            lemma_le_value_bound(b.take(k as int));
            lemma_le_value_push(b.take(k as int), b[k as int]);
            assert(b.take(k + 1) =~= b.take(k as int).push(b[k as int]));
            lemma_p256_values();
            assert(p256(k as nat) <= 0x100_0000_0000_0000) by {
                if k == 0 {} else if k == 1 {} else if k == 2 {} else if k == 3 {} else if k == 4 {} else if k == 5 {} else if k == 6 {} else {}
            }
            assert(data@[pos + k] * p256(k as nat) <= 255 * 0x100_0000_0000_0000) by (nonlinear_arith)
                requires
                    data@[pos + k] <= 255,
                    p256(k as nat) <= 0x100_0000_0000_0000,
            ;
        }
        acc = acc + (data[pos + k] as u64) * pow256_exec(k);
        k += 1;
    }
    assert(b.take(n as int) =~= b);
    Ok((acc, pos + n))
}

fn pow256_exec(k: usize) -> (r: u64)
    requires
        k < 8,
    ensures
        r == p256(k as nat),
{
    proof {
        lemma_p256_values();
    }
    if k == 0 {
        1
    } else if k == 1 {
        0x100
    } else if k == 2 {
        0x1_0000
    } else if k == 3 {
        0x100_0000
    } else if k == 4 {
        0x1_0000_0000
    } else if k == 5 {
        0x100_0000_0000
    } else if k == 6 {
        0x1_0000_0000_0000
    } else {
        0x100_0000_0000_0000
    }
}

/// Sign-extended little-endian value of the `arg + 1` payload bytes at `pos`.
fn read_signed(data: &[u8], pos: usize, value_arg: usize, max: usize) -> (r: Result<(i64, usize)>)
    requires
        max <= 8,
        value_arg < 8,
    ensures
        match r {
            Ok((v, np)) => spec_payload(data@, pos as int, value_arg as int, max as int) matches Some(
                b,
            ) && v == signed_value(b) && np == pos + value_arg + 1,
            Err(e) => e is Truncated && spec_payload(
                data@,
                pos as int,
                value_arg as int,
                max as int,
            ) is None,
        },
{
    let (u, np) = match read_unsigned(data, pos, value_arg, max) {
        Ok(x) => x,
        Err(e) => return Err(e),
    };
    let n = value_arg + 1;
    let ghost b = data@.subrange(pos as int, pos + n);
    proof {
        lemma_p256_values();
        lemma_le_value_bound(b);
    }
    let top = data[pos + n - 1];
    if top >= 128 {
        if n == 8 {
            assert(u >= 0x8000_0000_0000_0000) by {
                assert(b.drop_last().push(b.last()) =~= b);
                lemma_le_value_push(b.drop_last(), b.last());
                assert(b.last() * p256(7) >= 128 * 0x100_0000_0000_0000) by (nonlinear_arith)
                    requires
                        b.last() >= 128,
                        p256(7) == 0x100_0000_0000_0000,
                ;
            }
            let v: i64 = ((u - 0x8000_0000_0000_0000) as i64) + i64::MIN;
            Ok((v, np))
        } else {
            let v: i64 = (u as i64) - (pow256_exec(n) as i64);
            Ok((v, np))
        }
    } else {
        if n == 8 {
            assert(u < 0x8000_0000_0000_0000) by {
                assert(b.drop_last().push(b.last()) =~= b);
                lemma_le_value_push(b.drop_last(), b.last());
                lemma_le_value_bound(b.drop_last());
                assert(b.last() * p256(7) <= 127 * 0x100_0000_0000_0000) by (nonlinear_arith)
                    requires
                        b.last() <= 127,
                        p256(7) == 0x100_0000_0000_0000,
                ;
            }
        }
        Ok((u as i64, np))
    }
}

/// Decode one encoded_value; returns (value, next offset).
pub fn decode_encoded_value(data: &[u8], pos: usize) -> (r: Result<(EncodedValue, usize)>)
    ensures
        match r {
            Ok((v, np)) => spec_decode_value(data@, pos as int) == Ok::<_, DecodeFault>(
                (model(v), np as int),
            ) && pos < np <= data@.len(),
            Err(e) => spec_decode_value(data@, pos as int) matches Err(f) && fault_error(e, f),
        },
    decreases data@.len() - pos, 0int,
{
    if pos >= data.len() {
        return Err(truncated("encoded_value"));
    }
    let header = data[pos];
    let p = pos + 1;
    let value_type = header % 32;
    let value_arg = (header / 32) as usize;
    if value_type == 0x00 {
        let (v, np) = match read_signed(data, p, value_arg, 1) {
            Ok(x) => x,
            Err(e) => return Err(e),
        };
        Ok((EncodedValue::Byte(v as i8), np))
    } else if value_type == 0x02 {
        let (v, np) = match read_signed(data, p, value_arg, 2) {
            Ok(x) => x,
            Err(e) => return Err(e),
        };
        Ok((EncodedValue::Short(v as i16), np))
    } else if value_type == 0x03 {
        let (v, np) = match read_unsigned(data, p, value_arg, 2) {
            Ok(x) => x,
            Err(e) => return Err(e),
        };
        Ok((EncodedValue::Char(v as u16), np))
    } else if value_type == 0x04 {
        let (v, np) = match read_signed(data, p, value_arg, 4) {
            Ok(x) => x,
            Err(e) => return Err(e),
        };
        Ok((EncodedValue::Int(v as i32), np))
    } else if value_type == 0x06 {
        let (v, np) = match read_signed(data, p, value_arg, 8) {
            Ok(x) => x,
            Err(e) => return Err(e),
        };
        Ok((EncodedValue::Long(v), np))
    } else if value_type == 0x10 {
        let (bits, np) = match read_unsigned(data, p, value_arg, 4) {
            Ok(x) => x,
            Err(e) => return Err(e),
        };
        Ok((EncodedValue::Float(bits as u32), np))
    } else if value_type == 0x11 {
        let (bits, np) = match read_unsigned(data, p, value_arg, 8) {
            Ok(x) => x,
            Err(e) => return Err(e),
        };
        Ok((EncodedValue::Double(bits), np))
    } else if 0x15 <= value_type && value_type <= 0x1b {
        let (idx, np) = match read_unsigned(data, p, value_arg, 4) {
            Ok(x) => x,
            Err(e) => return Err(e),
        };
        let idx = idx as u32;
        let v = if value_type == 0x15 {
            EncodedValue::MethodType(idx)
        } else if value_type == 0x16 {
            EncodedValue::MethodHandle(idx)
        } else if value_type == 0x17 {
            EncodedValue::String(idx)
        } else if value_type == 0x18 {
            EncodedValue::Type(idx)
        } else if value_type == 0x19 {
            EncodedValue::Field(idx)
        } else if value_type == 0x1a {
            EncodedValue::Method(idx)
        } else {
            EncodedValue::Enum(idx)
        };
        Ok((v, np))
    } else if value_type == 0x1c {
        let (arr, np) = match decode_encoded_array(data, p) {
            Ok(x) => x,
            Err(e) => return Err(e),
        };
        let v = EncodedValue::Array(arr);
        assert(model(v) == ValueModel::Array(models(arr@)));
        Ok((v, np))
    } else if value_type == 0x1d {
        let (ann, np) = match decode_encoded_annotation(data, p) {
            Ok(x) => x,
            Err(e) => return Err(e),
        };
        let v = EncodedValue::Annotation(ann);
        assert(model(v) == ValueModel::Annotation(ann.type_idx, element_models(ann.elements@)));
        Ok((v, np))
    } else if value_type == 0x1e {
        Ok((EncodedValue::Null, p))
    } else if value_type == 0x1f {
        Ok((EncodedValue::Boolean(value_arg != 0), p))
    } else {
        Err(parse_error("unknown encoded_value type"))
    }
}

/// Decode an `encoded_array` at `pos`; returns (values, next offset).
pub fn decode_encoded_array(data: &[u8], pos: usize) -> (r: Result<(Vec<EncodedValue>, usize)>)
    ensures
        match r {
            Ok((vs, np)) => spec_decode_array(data@, pos as int) == Ok::<_, DecodeFault>(
                (models(vs@), np as int),
            ) && pos < np <= data@.len(),
            Err(e) => spec_decode_array(data@, pos as int) matches Err(f) && fault_error(e, f),
        },
    decreases data@.len() - pos, 0int,
{
    proof {
        lemma_read_leb_consumed(data@, pos as int);
    }
    let _dlen = data.len();
    let (size, n) = match read_uleb128(data, pos) {
        Some(x) => x,
        None => return Err(truncated("encoded_array size")),
    };
    let mut p = pos + n;
    let ghost start = p as int;
    let ghost total = spec_decode_values(data@, start, size as nat);
    let mut out: Vec<EncodedValue> = Vec::new();
    let mut k: u32 = 0;
    proof {
        match total {
            Ok((rest, e)) => {
                assert(models(out@) + rest =~= rest);
            },
            Err(_) => {},
        }
    }
    while k < size
        invariant
            k <= size,
            pos < start <= p <= data@.len() <= usize::MAX,
            total == spec_decode_values(data@, start, size as nat),
            spec_decode_array(data@, pos as int) == total,
            total == match spec_decode_values(data@, p as int, (size - k) as nat) {
                Ok((rest, e)) => Ok::<_, DecodeFault>((models(out@) + rest, e)),
                Err(f) => Err(f),
            },
        decreases size - k,
    {
        let (v, np) = match decode_encoded_value(data, p) {
            Ok(x) => x,
            Err(e) => return Err(e),
        };
        let ghost before = out@;
        out.push(v);
        p = np;
        k += 1;
        proof {
            assert(models(out@) =~= models(before).push(model(v)));
            match spec_decode_values(data@, p as int, (size - k) as nat) {
                Ok((rest, e)) => {
                    assert(models(before) + (seq![model(v)] + rest) =~= models(out@) + rest);
                },
                Err(_) => {},
            }
        }
    }
    assert(models(out@) + Seq::<ValueModel>::empty() =~= models(out@));
    Ok((out, p))
}

/// Decode an `encoded_annotation` at `pos`; returns (annotation, next offset).
pub fn decode_encoded_annotation(data: &[u8], pos: usize) -> (r: Result<(EncodedAnnotation, usize)>)
    ensures
        match r {
            Ok((a, np)) => spec_decode_annotation(data@, pos as int) == Ok::<_, DecodeFault>(
                (annotation_model(a), np as int),
            ) && pos < np <= data@.len(),
            Err(e) => spec_decode_annotation(data@, pos as int) matches Err(f) && fault_error(e, f),
        },
    decreases data@.len() - pos, 0int,
{
    proof {
        lemma_read_leb_consumed(data@, pos as int);
    }
    let _dlen = data.len();
    let (type_idx, n) = match read_uleb128(data, pos) {
        Some(x) => x,
        None => return Err(truncated("annotation type")),
    };
    proof {
        lemma_read_leb_consumed(data@, (pos + n) as int);
    }
    let (size, n2) = match read_uleb128(data, pos + n) {
        Some(x) => x,
        None => return Err(truncated("annotation size")),
    };
    let mut p = pos + n + n2;
    let ghost start = p as int;
    let ghost total = spec_decode_elements(data@, start, size as nat);
    let mut elements: Vec<(u32, EncodedValue)> = Vec::new();
    let mut k: u32 = 0;
    proof {
        match total {
            Ok((rest, e)) => {
                assert(element_models(elements@) + rest =~= rest);
            },
            Err(_) => {},
        }
    }
    while k < size
        invariant
            k <= size,
            pos < start <= p <= data@.len() <= usize::MAX,
            total == spec_decode_elements(data@, start, size as nat),
            spec_decode_annotation(data@, pos as int) == match total {
                Ok((es, e)) => Ok::<_, DecodeFault>(((type_idx, es), e)),
                Err(f) => Err(f),
            },
            total == match spec_decode_elements(data@, p as int, (size - k) as nat) {
                Ok((rest, e)) => Ok::<_, DecodeFault>((element_models(elements@) + rest, e)),
                Err(f) => Err(f),
            },
        decreases size - k,
    {
        proof {
            lemma_read_leb_consumed(data@, p as int);
        }
        let (name_idx, nn) = match read_uleb128(data, p) {
            Some(x) => x,
            None => return Err(truncated("annotation name")),
        };
        let (val, np) = match decode_encoded_value(data, p + nn) {
            Ok(x) => x,
            Err(e) => return Err(e),
        };
        let ghost before = elements@;
        elements.push((name_idx, val));
        p = np;
        k += 1;
        proof {
            assert(element_models(elements@) =~= element_models(before).push((name_idx, model(val))));
            match spec_decode_elements(data@, p as int, (size - k) as nat) {
                Ok((rest, e)) => {
                    assert(element_models(before) + (seq![(name_idx, model(val))] + rest)
                        =~= element_models(elements@) + rest);
                },
                Err(_) => {},
            }
        }
    }
    assert(element_models(elements@) + Seq::<(u32, ValueModel)>::empty() =~= element_models(elements@));
    Ok((EncodedAnnotation { type_idx, elements }, p))
}

/// The `n` little-endian bytes of `v` modulo `256^n` (two's complement for negative `v`).
pub open spec fn le_bytes(v: int, n: nat) -> Seq<u8>
    decreases n,
{
    if n == 0 {
        Seq::empty()
    } else {
        seq![(v % 256) as u8] + le_bytes(v / 256, (n - 1) as nat)
    }
}

/// Whether `v` is representable as an `n`-byte two's-complement number.
pub open spec fn fits_signed(v: int, n: nat) -> bool {
    -(p256(n) / 2) <= v < p256(n) / 2
}

/// Fewest bytes (at least one, at most `max`) that hold `v` as a signed number.
pub open spec fn signed_width(v: int, n: nat, max: nat) -> nat
    decreases max - n,
{
    if n >= max || fits_signed(v, n) {
        n
    } else {
        signed_width(v, n + 1, max)
    }
}

/// Fewest bytes (at least one, at most `max`) that hold `v` as an unsigned number.
pub open spec fn unsigned_width(v: int, n: nat, max: nat) -> nat
    decreases max - n,
{
    if n >= max || v < p256(n) {
        n
    } else {
        unsigned_width(v, n + 1, max)
    }
}

/// Header byte `value_type | (width - 1) << 5` followed by the value in its fewest signed bytes.
pub open spec fn enc_integral(vt: u8, v: int, max: nat) -> Seq<u8> {
    let n = signed_width(v, 1, max);
    seq![(vt + 32 * (n - 1)) as u8] + le_bytes(v, n)
}

/// Header byte `value_type | (width - 1) << 5` followed by the value in its fewest unsigned bytes.
pub open spec fn enc_unsigned(vt: u8, v: int, max: nat) -> Seq<u8> {
    let n = unsigned_width(v, 1, max);
    seq![(vt + 32 * (n - 1)) as u8] + le_bytes(v, n)
}

/// The bytes `encode_encoded_value` emits for a value.
pub open spec fn spec_encode_value(m: ValueModel) -> Seq<u8>
    decreases m,
{
    match m {
        ValueModel::Byte(x) => enc_integral(0x00, x as int, 1),
        ValueModel::Short(x) => enc_integral(0x02, x as int, 2),
        ValueModel::Char(x) => enc_unsigned(0x03, x as int, 2),
        ValueModel::Int(x) => enc_integral(0x04, x as int, 4),
        ValueModel::Long(x) => enc_integral(0x06, x as int, 8),
        ValueModel::Float(x) => enc_unsigned(0x10, x as int, 4),
        ValueModel::Double(x) => enc_unsigned(0x11, x as int, 8),
        ValueModel::MethodType(i) => enc_unsigned(0x15, i as int, 4),
        ValueModel::MethodHandle(i) => enc_unsigned(0x16, i as int, 4),
        ValueModel::String(i) => enc_unsigned(0x17, i as int, 4),
        ValueModel::Type(i) => enc_unsigned(0x18, i as int, 4),
        ValueModel::Field(i) => enc_unsigned(0x19, i as int, 4),
        ValueModel::Method(i) => enc_unsigned(0x1a, i as int, 4),
        ValueModel::Enum(i) => enc_unsigned(0x1b, i as int, 4),
        ValueModel::Array(xs) => seq![0x1cu8] + uleb_encode(xs.len() % 0x1_0000_0000) + spec_encode_seq(xs),
        ValueModel::Annotation(t, es) => seq![0x1du8] + uleb_encode(t as nat) + uleb_encode(
            es.len() % 0x1_0000_0000,
        ) + spec_encode_elements(es),
        ValueModel::Null => seq![0x1eu8],
        ValueModel::Boolean(b) => seq![
            if b {
                0x3fu8
            } else {
                0x1fu8
            },
        ],
    }
}

/// Concatenated encodings of `xs`.
pub open spec fn spec_encode_seq(xs: Seq<ValueModel>) -> Seq<u8>
    decreases xs,
{
    if xs.len() == 0 {
        Seq::empty()
    } else {
        spec_encode_value(xs[0]) + spec_encode_seq(xs.drop_first())
    }
}

/// `encoded_annotation` bytes: uleb128 type, uleb128 size, then name/value pairs.
pub open spec fn spec_encode_annotation(t: u32, es: Seq<(u32, ValueModel)>) -> Seq<u8> {
    uleb_encode(t as nat) + uleb_encode(es.len() % 0x1_0000_0000) + spec_encode_elements(es)
}

/// Concatenated `(uleb128 name, value)` encodings.
pub open spec fn spec_encode_elements(es: Seq<(u32, ValueModel)>) -> Seq<u8>
    decreases es,
{
    if es.len() == 0 {
        Seq::empty()
    } else {
        uleb_encode(es[0].0 as nat) + spec_encode_value(es[0].1) + spec_encode_elements(es.drop_first())
    }
}

fn append_bytes(out: &mut Vec<u8>, bytes: Vec<u8>)
    ensures
        final(out)@ == old(out)@ + bytes@,
{
    let mut b = bytes;
    out.append(&mut b);
}

/// Append the `n` little-endian bytes of `v` (two's complement).
fn push_le_bytes(out: &mut Vec<u8>, v: i64, n: usize)
    requires
        n <= 8,
    ensures
        final(out)@ == old(out)@ + le_bytes(v as int, n as nat),
{
    let mut x: i64 = v;
    let mut k: usize = 0;
    let ghost start = old(out)@;
    while k < n
        invariant
            k <= n,
            start + le_bytes(v as int, n as nat) == out@ + le_bytes(x as int, (n - k) as nat),
        decreases n - k,
    {
        let q: i64 = if x >= 0 {
            x / 256
        } else {
            -((-(x + 1)) / 256) - 1
        };
        assert(q == x / 256);
        let low: i64 = x - q * 256;
        assert(low == x % 256);
        let ghost before = out@;
        out.push(low as u8);
        assert(before + le_bytes(x as int, (n - k) as nat) =~= out@ + le_bytes(q as int, (n - k - 1) as nat));
        x = q;
        k += 1;
    }
    assert(out@ + le_bytes(x as int, 0) =~= out@);
}

fn encode_integral(value_type: u8, value: i64, max_bytes: usize) -> (out: Vec<u8>)
    requires
        value_type < 32,
        1 <= max_bytes <= 8,
    ensures
        out@ == enc_integral(value_type, value as int, max_bytes as nat),
{
    proof {
        lemma_p256_values();
    }
    let mut n: usize = 1;
    loop
        invariant
            1 <= n <= max_bytes <= 8,
            signed_width(value as int, 1, max_bytes as nat) == signed_width(value as int, n as nat, max_bytes as nat),
        ensures
            1 <= n <= max_bytes,
            signed_width(value as int, 1, max_bytes as nat) == n,
        decreases max_bytes - n,
    {
        if n >= max_bytes {
            break;
        }
        let half: i64 = (pow256_exec(n) / 2) as i64;
        if -half <= value && value < half {
            break;
        }
        n += 1;
    }
    let mut out: Vec<u8> = Vec::new();
    out.push(value_type + 32 * ((n - 1) as u8));
    push_le_bytes(&mut out, value, n);
    out
}

fn encode_unsigned(value_type: u8, value: u64, max_bytes: usize) -> (out: Vec<u8>)
    requires
        value_type < 32,
        1 <= max_bytes <= 8,
        value < p256(max_bytes as nat),
    ensures
        out@ == enc_unsigned(value_type, value as int, max_bytes as nat),
{
    proof {
        lemma_p256_values();
    }
    let mut n: usize = 1;
    loop
        invariant
            1 <= n <= max_bytes <= 8,
            unsigned_width(value as int, 1, max_bytes as nat) == unsigned_width(value as int, n as nat, max_bytes as nat),
        ensures
            1 <= n <= max_bytes,
            unsigned_width(value as int, 1, max_bytes as nat) == n,
            n == max_bytes || value < p256(n as nat),
        decreases max_bytes - n,
    {
        if n >= max_bytes {
            break;
        }
        if value < pow256_exec(n) {
            break;
        }
        n += 1;
    }
    let mut out: Vec<u8> = Vec::new();
    out.push(value_type + 32 * ((n - 1) as u8));
    let sv: i64 = if n == 8 {
        assert(max_bytes == 8);
        if value >= 0x8000_0000_0000_0000 {
            ((value - 0x8000_0000_0000_0000) as i64) + i64::MIN
        } else {
            value as i64
        }
    } else {
        assert(value < p256(n as nat));
        value as i64
    };
    proof {
        lemma_le_bytes_mod(value as int, sv as int, n as nat);
    }
    push_le_bytes(&mut out, sv, n);
    out
}

/// Values congruent modulo `256^n` have the same `n` low bytes.
proof fn lemma_le_bytes_mod(a: int, b: int, n: nat)
    requires
        n <= 8,
        n == 8 ==> (a == b || a == b + p256(8)),
        n < 8 ==> a == b,
    ensures
        le_bytes(a, n) == le_bytes(b, n),
{
    if n == 8 && a != b {
        lemma_le_bytes_shift(b, 8);
    }
}

proof fn lemma_le_bytes_shift(b: int, n: nat)
    ensures
        le_bytes(b + p256(n), n) == le_bytes(b, n),
    decreases n,
{
    if n > 0 {
        assert(p256(n) == 256 * p256((n - 1) as nat));
        assert((b + p256(n)) % 256 == b % 256) by {
            assert(b + p256(n) == b + 256 * p256((n - 1) as nat));
        }
        assert((b + p256(n)) / 256 == b / 256 + p256((n - 1) as nat)) by {
            assert(b + p256(n) == b + 256 * p256((n - 1) as nat));
        }
        lemma_le_bytes_shift(b / 256, (n - 1) as nat);
    }
}

/// Encode one encoded_value to bytes.
pub fn encode_encoded_value(v: &EncodedValue) -> (out: Vec<u8>)
    ensures
        out@ == spec_encode_value(model(*v)),
    decreases *v, 0int,
{
    proof {
        lemma_p256_values();
    }
    match v {
        EncodedValue::Byte(x) => encode_integral(0x00, *x as i64, 1),
        EncodedValue::Short(x) => encode_integral(0x02, *x as i64, 2),
        EncodedValue::Char(x) => encode_unsigned(0x03, *x as u64, 2),
        EncodedValue::Int(x) => encode_integral(0x04, *x as i64, 4),
        EncodedValue::Long(x) => encode_integral(0x06, *x, 8),
        EncodedValue::Float(x) => encode_unsigned(0x10, *x as u64, 4),
        EncodedValue::Double(x) => encode_unsigned(0x11, *x, 8),
        EncodedValue::MethodType(i) => encode_unsigned(0x15, *i as u64, 4),
        EncodedValue::MethodHandle(i) => encode_unsigned(0x16, *i as u64, 4),
        EncodedValue::String(i) => encode_unsigned(0x17, *i as u64, 4),
        EncodedValue::Type(i) => encode_unsigned(0x18, *i as u64, 4),
        EncodedValue::Field(i) => encode_unsigned(0x19, *i as u64, 4),
        EncodedValue::Method(i) => encode_unsigned(0x1a, *i as u64, 4),
        EncodedValue::Enum(i) => encode_unsigned(0x1b, *i as u64, 4),
        EncodedValue::Array(arr) => {
            let mut out: Vec<u8> = Vec::new();
            out.push(0x1c);
            let body = encode_encoded_array(arr.as_slice());
            append_bytes(&mut out, body);
            assert(out@ =~= seq![0x1cu8] + uleb_encode(arr@.len() % 0x1_0000_0000) + spec_encode_seq(models(arr@)));
            out
        },
        EncodedValue::Annotation(a) => {
            let mut out: Vec<u8> = Vec::new();
            out.push(0x1d);
            let body = encode_encoded_annotation(a);
            append_bytes(&mut out, body);
            out
        },
        EncodedValue::Null => {
            let mut out: Vec<u8> = Vec::new();
            out.push(0x1e);
            out
        },
        EncodedValue::Boolean(b) => {
            let mut out: Vec<u8> = Vec::new();
            out.push(
                0x1f | if *b {
                    1 << 5
                } else {
                    0
                },
            );
            assert((0x1fu8 | (1u8 << 5u8)) == 0x3fu8) by (bit_vector);
            assert((0x1fu8 | 0u8) == 0x1fu8) by (bit_vector);
            out
        },
    }
}

/// Encode an `encoded_array`: uleb128 size, then each value.
pub fn encode_encoded_array(values: &[EncodedValue]) -> (out: Vec<u8>)
    ensures
        out@ == uleb_encode(values@.len() % 0x1_0000_0000) + spec_encode_seq(models(values@)),
    decreases values@, 0int,
{
    let len32 = (values.len() as u64 % 0x1_0000_0000) as u32;
    let mut out = write_uleb128(len32);
    let ghost head = out@;
    let mut i: usize = 0;
    assert(models(values@).skip(0) =~= models(values@));
    while i < values.len()
        invariant
            i <= values@.len(),
            head + spec_encode_seq(models(values@)) == out@ + spec_encode_seq(models(values@).skip(i as int)),
        decreases values@.len() - i,
    {
        let ghost before = out@;
        let ghost ms = models(values@).skip(i as int);
        let e = encode_encoded_value(&values[i]);
        append_bytes(&mut out, e);
        proof {
            assert(ms[0] == model(values@[i as int]));
            assert(ms.drop_first() =~= models(values@).skip(i + 1));
            assert(spec_encode_seq(ms) == spec_encode_value(ms[0]) + spec_encode_seq(ms.drop_first()));
            assert(before + spec_encode_seq(ms) =~= out@ + spec_encode_seq(models(values@).skip(i + 1)));
        }
        i += 1;
    }
    assert(models(values@).skip(i as int) =~= Seq::<ValueModel>::empty());
    assert(out@ + Seq::<u8>::empty() =~= out@);
    assert(models(values@).skip(0) =~= models(values@));
    out
}

/// Encode an `encoded_annotation`: uleb128 type_idx, uleb128 size, name/value pairs.
pub fn encode_encoded_annotation(a: &EncodedAnnotation) -> (out: Vec<u8>)
    ensures
        out@ == spec_encode_annotation(a.type_idx, element_models(a.elements@)),
    decreases *a, 0int,
{
    let mut out = write_uleb128(a.type_idx);
    let len32 = (a.elements.len() as u64 % 0x1_0000_0000) as u32;
    let size = write_uleb128(len32);
    append_bytes(&mut out, size);
    let ghost head = out@;
    let ghost es = element_models(a.elements@);
    let mut i: usize = 0;
    assert(es.skip(0) =~= es);
    while i < a.elements.len()
        invariant
            i <= a.elements@.len(),
            es == element_models(a.elements@),
            head + spec_encode_elements(es) == out@ + spec_encode_elements(es.skip(i as int)),
        decreases a.elements@.len() - i,
    {
        let ghost before = out@;
        let ghost ms = es.skip(i as int);
        let name = write_uleb128(a.elements[i].0);
        append_bytes(&mut out, name);
        let e = encode_encoded_value(&a.elements[i].1);
        append_bytes(&mut out, e);
        proof {
            assert(ms[0] == (a.elements@[i as int].0, model(a.elements@[i as int].1)));
            assert(ms.drop_first() =~= es.skip(i + 1));
            assert(before + spec_encode_elements(ms) =~= out@ + spec_encode_elements(es.skip(i + 1)));
        }
        i += 1;
    }
    assert(es.skip(i as int) =~= Seq::<(u32, ValueModel)>::empty());
    assert(out@ + Seq::<u8>::empty() =~= out@);
    assert(es.skip(0) =~= es);
    out
}

/// Whether every array and annotation inside `m` has fewer than 2^32 entries
/// (the most a uleb128 size can state).
pub open spec fn counts_fit(m: ValueModel) -> bool
    decreases m,
{
    match m {
        ValueModel::Array(xs) => xs.len() < 0x1_0000_0000 && forall|i: int|
            0 <= i < xs.len() ==> counts_fit(#[trigger] xs[i]),
        ValueModel::Annotation(_, es) => es.len() < 0x1_0000_0000 && forall|i: int|
            0 <= i < es.len() ==> counts_fit(#[trigger] es[i].1),
        _ => true,
    }
}

/// `floor(v / 256^n)`.
pub open spec fn high_part(v: int, n: nat) -> int
    decreases n,
{
    if n == 0 {
        v
    } else {
        high_part(v / 256, (n - 1) as nat)
    }
}

proof fn lemma_le_bytes_value(v: int, n: nat)
    ensures
        le_bytes(v, n).len() == n,
        le_value(le_bytes(v, n)) == v - p256(n) * high_part(v, n),
    decreases n,
{
    if n == 0 {
        assert(le_value(le_bytes(v, 0)) == 0);
        assert(p256(0) == 1);
        assert(high_part(v, 0) == v);
    } else {
        lemma_le_bytes_value(v / 256, (n - 1) as nat);
        let s = le_bytes(v, n);
        assert(s.drop_first() =~= le_bytes(v / 256, (n - 1) as nat));
        assert(s[0] == v % 256);
        assert(le_value(s) == s[0] + 256 * le_value(s.drop_first()));
        assert(v == 256 * (v / 256) + v % 256);
        assert(high_part(v, n) == high_part(v / 256, (n - 1) as nat));
        let h = high_part(v / 256, (n - 1) as nat);
        let pp = p256((n - 1) as nat);
        assert(p256(n) == 256 * pp);
        let l1 = le_value(s.drop_first());
        assert(le_value(s) == v - p256(n) * h) by (nonlinear_arith)
            requires
                le_value(s) == v % 256 + 256 * l1,
                l1 == v / 256 - pp * h,
                v == 256 * (v / 256) + v % 256,
                p256(n) == 256 * pp,
        ;
    }
}

proof fn lemma_le_value_top(s: Seq<u8>)
    requires
        s.len() >= 1,
    ensures
        (s[s.len() - 1] >= 128) == (le_value(s) >= 128 * p256((s.len() - 1) as nat)),
        p256(s.len()) == 256 * p256((s.len() - 1) as nat),
{
    let n = s.len();
    assert(s.drop_last().push(s.last()) =~= s);
    lemma_le_value_push(s.drop_last(), s.last());
    lemma_le_value_bound(s.drop_last());
    let pp = p256((n - 1) as nat);
    let t = s.last();
    if t >= 128 {
        assert(t * pp >= 128 * pp) by (nonlinear_arith)
            requires
                t >= 128,
                pp >= 0,
        ;
    } else {
        assert(t * pp <= 127 * pp) by (nonlinear_arith)
            requires
                t <= 127,
                pp >= 0,
        ;
    }
}

proof fn lemma_p256_pos(n: nat)
    ensures
        p256(n) >= 1,
    decreases n,
{
    if n > 0 {
        lemma_p256_pos((n - 1) as nat);
    }
}

/// The `n` two's-complement bytes of a value that fits read back as that value,
/// both signed and (for non-negative values) unsigned.
proof fn lemma_le_bytes_roundtrip(v: int, n: nat)
    requires
        n >= 1,
    ensures
        fits_signed(v, n) ==> signed_value(le_bytes(v, n)) == v,
        0 <= v < p256(n) ==> le_value(le_bytes(v, n)) == v,
{
    lemma_le_bytes_value(v, n);
    lemma_le_value_bound(le_bytes(v, n));
    lemma_le_value_top(le_bytes(v, n));
    lemma_p256_pos(n);
    let p = p256(n);
    let h = high_part(v, n);
    let le = le_value(le_bytes(v, n));
    assert(0 <= le < p);
    if 0 <= v < p {
        assert(h == 0) by (nonlinear_arith)
            requires
                le == v - p * h,
                0 <= le < p,
                0 <= v < p,
                p >= 1,
        ;
    }
    if fits_signed(v, n) && v < 0 {
        assert(h == -1) by (nonlinear_arith)
            requires
                le == v - p * h,
                0 <= le < p,
                -(p / 2) <= v < 0,
                p >= 1,
        ;
    }
}

proof fn lemma_signed_width(v: int, n: nat, max: nat)
    requires
        1 <= n <= max,
        fits_signed(v, max),
    ensures
        n <= signed_width(v, n, max) <= max,
        fits_signed(v, signed_width(v, n, max)),
    decreases max - n,
{
    if !(n >= max || fits_signed(v, n)) {
        lemma_signed_width(v, n + 1, max);
    }
}

proof fn lemma_unsigned_width(v: int, n: nat, max: nat)
    requires
        1 <= n <= max,
        0 <= v < p256(max),
    ensures
        n <= unsigned_width(v, n, max) <= max,
        v < p256(unsigned_width(v, n, max)),
    decreases max - n,
{
    if !(n >= max || v < p256(n)) {
        lemma_unsigned_width(v, n + 1, max);
    }
}

/// Payload bytes of `data` at `pos` that match `bytes`.
proof fn lemma_integral_rt(data: Seq<u8>, pos: int, vt: u8, v: int, max: nat)
    requires
        vt < 32,
        1 <= max <= 8,
        fits_signed(v, max),
        0 <= pos,
        pos + enc_integral(vt, v, max).len() <= data.len(),
        data.subrange(pos, pos + enc_integral(vt, v, max).len()) == enc_integral(vt, v, max),
    ensures
        ({
            let n = signed_width(v, 1, max);
            &&& enc_integral(vt, v, max).len() == n + 1
            &&& data[pos] % 32 == vt
            &&& (data[pos] / 32) as int == n - 1
            &&& spec_payload(data, pos + 1, n - 1, max as int) == Some(le_bytes(v, n))
            &&& signed_value(le_bytes(v, n)) == v
        }),
{
    let n = signed_width(v, 1, max);
    lemma_signed_width(v, 1, max);
    lemma_le_bytes_value(v, n);
    lemma_le_bytes_roundtrip(v, n);
    let e = enc_integral(vt, v, max);
    assert(e[0] == data[pos]);
    assert(data.subrange(pos + 1, pos + 1 + n) =~= e.subrange(1, n + 1 as int));
    assert(e.subrange(1, n + 1 as int) =~= le_bytes(v, n));
}

proof fn lemma_unsigned_rt(data: Seq<u8>, pos: int, vt: u8, v: int, max: nat)
    requires
        vt < 32,
        1 <= max <= 8,
        0 <= v < p256(max),
        0 <= pos,
        pos + enc_unsigned(vt, v, max).len() <= data.len(),
        data.subrange(pos, pos + enc_unsigned(vt, v, max).len()) == enc_unsigned(vt, v, max),
    ensures
        ({
            let n = unsigned_width(v, 1, max);
            &&& enc_unsigned(vt, v, max).len() == n + 1
            &&& data[pos] % 32 == vt
            &&& (data[pos] / 32) as int == n - 1
            &&& spec_payload(data, pos + 1, n - 1, max as int) == Some(le_bytes(v, n))
            &&& le_value(le_bytes(v, n)) == v
        }),
{
    let n = unsigned_width(v, 1, max);
    lemma_unsigned_width(v, 1, max);
    lemma_le_bytes_value(v, n);
    lemma_le_bytes_roundtrip(v, n);
    let e = enc_unsigned(vt, v, max);
    assert(e[0] == data[pos]);
    assert(data.subrange(pos + 1, pos + 1 + n) =~= e.subrange(1, n + 1 as int));
    assert(e.subrange(1, n + 1 as int) =~= le_bytes(v, n));
}

proof fn lemma_subrange_within(data: Seq<u8>, pos: int, w: Seq<u8>, a: int, b: int)
    requires
        0 <= pos,
        pos + w.len() <= data.len(),
        data.subrange(pos, pos + w.len()) == w,
        0 <= a <= b <= w.len(),
    ensures
        data.subrange(pos + a, pos + b) == w.subrange(a, b),
{
    assert forall|k: int| 0 <= k < b - a implies data.subrange(pos + a, pos + b)[k] == w.subrange(a, b)[k] by {
        assert(data.subrange(pos, pos + w.len())[a + k] == data[pos + a + k]);
    }
    assert(data.subrange(pos + a, pos + b) =~= w.subrange(a, b));
}

proof fn lemma_uleb_at(data: Seq<u8>, pos: int, v: u32)
    requires
        0 <= pos,
        pos + uleb_encode(v as nat).len() <= data.len(),
        data.subrange(pos, pos + uleb_encode(v as nat).len()) == uleb_encode(v as nat),
    ensures
        spec_read_uleb128(data, pos) == Some((v, uleb_encode(v as nat).len() as usize)),
        1 <= uleb_encode(v as nat).len() <= 5,
{
    lemma_uleb_encode_len(v as nat);
    let e = uleb_encode(v as nat);
    let rest = data.subrange(pos + e.len(), data.len() as int);
    assert(suffix(data, pos) =~= e + rest);
    uleb128_roundtrip(v, rest);
    assert(suffix(e + rest, 0) =~= e + rest);
}

/// Decoding the bytes that encoding produced gives the value back, and consumes exactly
/// those bytes, wherever they stand in `data`.
pub proof fn lemma_value_roundtrip(m: ValueModel, data: Seq<u8>, pos: int)
    requires
        counts_fit(m),
        0 <= pos,
        pos + spec_encode_value(m).len() <= data.len(),
        data.subrange(pos, pos + spec_encode_value(m).len()) == spec_encode_value(m),
    ensures
        spec_decode_value(data, pos) == Ok::<_, DecodeFault>((m, pos + spec_encode_value(m).len())),
    decreases m, 2int,
{
    match m {
        ValueModel::Array(xs) => {
            lemma_array_roundtrip(m, data, pos);
        },
        ValueModel::Annotation(t, es) => {
            lemma_annotation_roundtrip(m, data, pos);
        },
        _ => {
            lemma_scalar_roundtrip(m, data, pos);
        },
    }
}

#[verifier::rlimit(40)]
proof fn lemma_scalar_roundtrip(m: ValueModel, data: Seq<u8>, pos: int)
    requires
        !(m is Array),
        !(m is Annotation),
        0 <= pos,
        pos + spec_encode_value(m).len() <= data.len(),
        data.subrange(pos, pos + spec_encode_value(m).len()) == spec_encode_value(m),
    ensures
        spec_decode_value(data, pos) == Ok::<_, DecodeFault>((m, pos + spec_encode_value(m).len())),
{
    let e = spec_encode_value(m);
    lemma_p256_values();
    lemma_encode_nonempty(m);
    assert(data.subrange(pos, pos + e.len())[0] == data[pos]);
    assert(data[pos] == e[0]);
    match m {
        ValueModel::Byte(x) => {
            lemma_integral_rt(data, pos, 0x00, x as int, 1);
        },
        ValueModel::Short(x) => {
            lemma_integral_rt(data, pos, 0x02, x as int, 2);
        },
        ValueModel::Char(x) => {
            lemma_unsigned_rt(data, pos, 0x03, x as int, 2);
        },
        ValueModel::Int(x) => {
            lemma_integral_rt(data, pos, 0x04, x as int, 4);
        },
        ValueModel::Long(x) => {
            lemma_integral_rt(data, pos, 0x06, x as int, 8);
        },
        ValueModel::Float(x) => {
            lemma_unsigned_rt(data, pos, 0x10, x as int, 4);
        },
        ValueModel::Double(x) => {
            lemma_unsigned_rt(data, pos, 0x11, x as int, 8);
        },
        ValueModel::MethodType(i) => {
            lemma_unsigned_rt(data, pos, 0x15, i as int, 4);
        },
        ValueModel::MethodHandle(i) => {
            lemma_unsigned_rt(data, pos, 0x16, i as int, 4);
        },
        ValueModel::String(i) => {
            lemma_unsigned_rt(data, pos, 0x17, i as int, 4);
        },
        ValueModel::Type(i) => {
            lemma_unsigned_rt(data, pos, 0x18, i as int, 4);
        },
        ValueModel::Field(i) => {
            lemma_unsigned_rt(data, pos, 0x19, i as int, 4);
        },
        ValueModel::Method(i) => {
            lemma_unsigned_rt(data, pos, 0x1a, i as int, 4);
        },
        ValueModel::Enum(i) => {
            lemma_unsigned_rt(data, pos, 0x1b, i as int, 4);
        },
        _ => {},
    }
}

proof fn lemma_array_roundtrip(m: ValueModel, data: Seq<u8>, pos: int)
    requires
        m is Array,
        counts_fit(m),
        0 <= pos,
        pos + spec_encode_value(m).len() <= data.len(),
        data.subrange(pos, pos + spec_encode_value(m).len()) == spec_encode_value(m),
    ensures
        spec_decode_value(data, pos) == Ok::<_, DecodeFault>((m, pos + spec_encode_value(m).len())),
    decreases m, 1int,
{
    let xs = m->Array_0;
    let e = spec_encode_value(m);
    let u = uleb_encode(xs.len());
    let body = spec_encode_seq(xs);
    assert(e =~= seq![0x1cu8] + u + body);
    assert(data.subrange(pos, pos + e.len())[0] == data[pos]);
    assert(data[pos] == 0x1c);
    lemma_subrange_within(data, pos, e, 1, 1int + u.len());
    assert(e.subrange(1, 1int + u.len()) =~= u);
    lemma_uleb_at(data, pos + 1, xs.len() as u32);
    lemma_subrange_within(data, pos, e, 1int + u.len(), e.len() as int);
    assert(e.subrange(1int + u.len(), e.len() as int) =~= body);
    lemma_values_roundtrip(xs, data, pos + 1 + u.len());
    assert(spec_decode_array(data, pos + 1) == Ok::<_, DecodeFault>((xs, pos + e.len())));
}

proof fn lemma_annotation_roundtrip(m: ValueModel, data: Seq<u8>, pos: int)
    requires
        m is Annotation,
        counts_fit(m),
        0 <= pos,
        pos + spec_encode_value(m).len() <= data.len(),
        data.subrange(pos, pos + spec_encode_value(m).len()) == spec_encode_value(m),
    ensures
        spec_decode_value(data, pos) == Ok::<_, DecodeFault>((m, pos + spec_encode_value(m).len())),
    decreases m, 1int,
{
    let t = m->Annotation_0;
    let es = m->Annotation_1;
    let e = spec_encode_value(m);
    let body = spec_encode_annotation(t, es);
    assert(e =~= seq![0x1du8] + body);
    assert(data.subrange(pos, pos + e.len())[0] == data[pos]);
    assert(data[pos] == 0x1d);
    lemma_subrange_within(data, pos, e, 1, e.len() as int);
    assert(e.subrange(1, e.len() as int) =~= body);
    lemma_encoded_annotation_roundtrip(t, es, data, pos + 1);
}

/// Decoding the bytes of an `encoded_annotation` gives the type index and elements back,
/// and stops right after them, wherever they stand in `data`.
pub proof fn lemma_encoded_annotation_roundtrip(t: u32, es: Seq<(u32, ValueModel)>, data: Seq<u8>, pos: int)
    requires
        counts_fit(ValueModel::Annotation(t, es)),
        0 <= pos,
        pos + spec_encode_annotation(t, es).len() <= data.len(),
        data.subrange(pos, pos + spec_encode_annotation(t, es).len()) == spec_encode_annotation(t, es),
    ensures
        spec_decode_annotation(data, pos) == Ok::<_, DecodeFault>(
            ((t, es), pos + spec_encode_annotation(t, es).len()),
        ),
    decreases ValueModel::Annotation(t, es), 0int,
{
    let e = spec_encode_annotation(t, es);
    let ut = uleb_encode(t as nat);
    let us = uleb_encode(es.len());
    let body = spec_encode_elements(es);
    assert(e =~= ut + us + body);
    lemma_subrange_within(data, pos, e, 0, ut.len() as int);
    assert(e.subrange(0, ut.len() as int) =~= ut);
    lemma_uleb_at(data, pos, t);
    lemma_subrange_within(data, pos, e, ut.len() as int, (ut.len() + us.len()) as int);
    assert(e.subrange(ut.len() as int, (ut.len() + us.len()) as int) =~= us);
    lemma_uleb_at(data, pos + ut.len(), es.len() as u32);
    lemma_subrange_within(data, pos, e, (ut.len() + us.len()) as int, e.len() as int);
    assert(e.subrange((ut.len() + us.len()) as int, e.len() as int) =~= body);
    lemma_elements_roundtrip(es, data, pos + ut.len() + us.len());
}

proof fn lemma_values_roundtrip(xs: Seq<ValueModel>, data: Seq<u8>, pos: int)
    requires
        forall|i: int| 0 <= i < xs.len() ==> counts_fit(#[trigger] xs[i]),
        0 <= pos,
        pos + spec_encode_seq(xs).len() <= data.len(),
        data.subrange(pos, pos + spec_encode_seq(xs).len()) == spec_encode_seq(xs),
    ensures
        spec_decode_values(data, pos, xs.len()) == Ok::<_, DecodeFault>(
            (xs, pos + spec_encode_seq(xs).len()),
        ),
    decreases xs, 0int,
{
    if xs.len() > 0 {
        let e0 = spec_encode_value(xs[0]);
        let rest = spec_encode_seq(xs.drop_first());
        let whole = data.subrange(pos, pos + spec_encode_seq(xs).len());
        assert(spec_encode_seq(xs) == e0 + rest);
        assert(whole == e0 + rest);
        assert(data.subrange(pos, pos + e0.len()) =~= e0) by {
            assert forall|k: int| 0 <= k < e0.len() implies data.subrange(pos, pos + e0.len())[k] == e0[k] by {
                assert(whole[k] == data[pos + k]);
            }
        }
        assert(data.subrange(pos + e0.len(), pos + e0.len() + rest.len()) =~= rest) by {
            assert forall|k: int| 0 <= k < rest.len() implies data.subrange(pos + e0.len(), pos + e0.len() + rest.len())[k] == rest[k] by {
                assert(whole[e0.len() + k] == data[pos + e0.len() + k]);
            }
        }
        lemma_value_roundtrip(xs[0], data, pos);
        lemma_encode_nonempty(xs[0]);
        assert forall|i: int| 0 <= i < xs.drop_first().len() implies counts_fit(
            #[trigger] xs.drop_first()[i],
        ) by {
            assert(xs.drop_first()[i] == xs[i + 1]);
        }
        lemma_values_roundtrip(xs.drop_first(), data, pos + e0.len());
        assert(seq![xs[0]] + xs.drop_first() =~= xs);
        assert(spec_decode_value(data, pos) == Ok::<_, DecodeFault>((xs[0], pos + e0.len())));
        assert(spec_decode_values(data, pos + e0.len(), (xs.len() - 1) as nat) == Ok::<_, DecodeFault>(
            (xs.drop_first(), pos + e0.len() + rest.len()),
        ));
    } else {
        assert(xs =~= Seq::<ValueModel>::empty());
    }
}

proof fn lemma_elements_roundtrip(es: Seq<(u32, ValueModel)>, data: Seq<u8>, pos: int)
    requires
        forall|i: int| 0 <= i < es.len() ==> counts_fit(#[trigger] es[i].1),
        0 <= pos,
        pos + spec_encode_elements(es).len() <= data.len(),
        data.subrange(pos, pos + spec_encode_elements(es).len()) == spec_encode_elements(es),
    ensures
        spec_decode_elements(data, pos, es.len()) == Ok::<_, DecodeFault>(
            (es, pos + spec_encode_elements(es).len()),
        ),
    decreases es, 0int,
{
    if es.len() > 0 {
        let un = uleb_encode(es[0].0 as nat);
        let e0 = spec_encode_value(es[0].1);
        let rest = spec_encode_elements(es.drop_first());
        let whole = data.subrange(pos, pos + spec_encode_elements(es).len());
        assert(spec_encode_elements(es) == un + e0 + rest);
        assert(whole == un + e0 + rest);
        assert(data.subrange(pos, pos + un.len()) =~= un) by {
            assert forall|k: int| 0 <= k < un.len() implies data.subrange(pos, pos + un.len())[k] == un[k] by {
                assert(whole[k] == data[pos + k]);
            }
        }
        lemma_uleb_at(data, pos, es[0].0);
        assert(data.subrange(pos + un.len(), pos + un.len() + e0.len()) =~= e0) by {
            assert forall|k: int| 0 <= k < e0.len() implies data.subrange(pos + un.len(), pos + un.len() + e0.len())[k] == e0[k] by {
                assert(whole[un.len() + k] == data[pos + un.len() + k]);
            }
        }
        lemma_value_roundtrip(es[0].1, data, pos + un.len());
        assert(data.subrange(pos + un.len() + e0.len(), pos + un.len() + e0.len() + rest.len())
            =~= rest) by {
            assert forall|k: int| 0 <= k < rest.len() implies data.subrange(pos + un.len() + e0.len(), pos + un.len() + e0.len() + rest.len())[k] == rest[k] by {
                assert(whole[un.len() + e0.len() + k] == data[pos + un.len() + e0.len() + k]);
            }
        }
        assert forall|i: int| 0 <= i < es.drop_first().len() implies counts_fit(
            #[trigger] es.drop_first()[i].1,
        ) by {
            assert(es.drop_first()[i] == es[i + 1]);
        }
        lemma_encode_nonempty(es[0].1);
        lemma_elements_roundtrip(es.drop_first(), data, pos + un.len() + e0.len());
        assert(seq![es[0]] + es.drop_first() =~= es);
        assert(seq![(es[0].0, es[0].1)] + es.drop_first() =~= es);
        assert(spec_read_uleb128(data, pos) == Some((es[0].0, un.len() as usize)));
        assert(spec_decode_value(data, pos + un.len()) == Ok::<_, DecodeFault>((es[0].1, pos + un.len() + e0.len())));
        assert(spec_decode_elements(data, pos + un.len() + e0.len(), (es.len() - 1) as nat) == Ok::<_, DecodeFault>(
            (es.drop_first(), pos + un.len() + e0.len() + rest.len()),
        ));
    } else {
        assert(es =~= Seq::<(u32, ValueModel)>::empty());
    }
}

proof fn lemma_encode_nonempty(m: ValueModel)
    ensures
        spec_encode_value(m).len() >= 1,
{
}

/// Encoding a value and decoding the bytes gives the same value back, and the decoder
/// stops exactly at the end of the encoding, whatever follows it.
pub proof fn encoded_value_roundtrip(v: EncodedValue, rest: Seq<u8>)
    requires
        counts_fit(model(v)),
    ensures
        spec_decode_value(spec_encode_value(model(v)) + rest, 0) == Ok::<_, DecodeFault>(
            (model(v), spec_encode_value(model(v)).len() as int),
        ),
{
    let e = spec_encode_value(model(v));
    assert((e + rest).subrange(0, e.len() as int) =~= e);
    lemma_value_roundtrip(model(v), e + rest, 0);
}


proof fn lemma_width_bounds(v: int, n: nat, max: nat)
    requires
        1 <= n <= max,
    ensures
        n <= signed_width(v, n, max) <= max,
        n <= unsigned_width(v, n, max) <= max,
    decreases max - n,
{
    if n < max {
        lemma_width_bounds(v, n + 1, max);
    }
}

/// The low five bits of an encoded value's first byte (its `value_type`) name the kind
/// of value it decodes to, as the DEX format numbers them: byte 0x00, short 0x02, char
/// 0x03, int 0x04, long 0x06, float 0x10, double 0x11, method type 0x15, method handle
/// 0x16, string 0x17, type 0x18, field 0x19, method 0x1a, enum 0x1b, array 0x1c,
/// annotation 0x1d, null 0x1e, boolean 0x1f.
pub proof fn value_type_names_the_variant(data: Seq<u8>, pos: int)
    ensures
        spec_decode_value(data, pos) matches Ok((m, _)) ==> {
            let vt = data[pos] % 32;
            &&& (m is Byte <==> vt == 0x00)
            &&& (m is Short <==> vt == 0x02)
            &&& (m is Char <==> vt == 0x03)
            &&& (m is Int <==> vt == 0x04)
            &&& (m is Long <==> vt == 0x06)
            &&& (m is Float <==> vt == 0x10)
            &&& (m is Double <==> vt == 0x11)
            &&& (m is MethodType <==> vt == 0x15)
            &&& (m is MethodHandle <==> vt == 0x16)
            &&& (m is String <==> vt == 0x17)
            &&& (m is Type <==> vt == 0x18)
            &&& (m is Field <==> vt == 0x19)
            &&& (m is Method <==> vt == 0x1a)
            &&& (m is Enum <==> vt == 0x1b)
            &&& (m is Array <==> vt == 0x1c)
            &&& (m is Annotation <==> vt == 0x1d)
            &&& (m is Null <==> vt == 0x1e)
            &&& (m is Boolean <==> vt == 0x1f)
        },
{
}

/// The first byte of every encoding carries, in its low five bits, the `value_type` that
/// the DEX format gives the kind of value encoded (the numbers above).
pub proof fn encodings_carry_their_value_type(m: ValueModel)
    ensures
        spec_encode_value(m).len() >= 1,
        m is Byte ==> spec_encode_value(m)[0] % 32 == 0x00,
        m is Short ==> spec_encode_value(m)[0] % 32 == 0x02,
        m is Char ==> spec_encode_value(m)[0] % 32 == 0x03,
        m is Int ==> spec_encode_value(m)[0] % 32 == 0x04,
        m is Long ==> spec_encode_value(m)[0] % 32 == 0x06,
        m is Float ==> spec_encode_value(m)[0] % 32 == 0x10,
        m is Double ==> spec_encode_value(m)[0] % 32 == 0x11,
        m is MethodType ==> spec_encode_value(m)[0] % 32 == 0x15,
        m is MethodHandle ==> spec_encode_value(m)[0] % 32 == 0x16,
        m is String ==> spec_encode_value(m)[0] % 32 == 0x17,
        m is Type ==> spec_encode_value(m)[0] % 32 == 0x18,
        m is Field ==> spec_encode_value(m)[0] % 32 == 0x19,
        m is Method ==> spec_encode_value(m)[0] % 32 == 0x1a,
        m is Enum ==> spec_encode_value(m)[0] % 32 == 0x1b,
        m is Array ==> spec_encode_value(m)[0] % 32 == 0x1c,
        m is Annotation ==> spec_encode_value(m)[0] % 32 == 0x1d,
        m is Null ==> spec_encode_value(m)[0] % 32 == 0x1e,
        m is Boolean ==> spec_encode_value(m)[0] % 32 == 0x1f,
{
    match m {
        ValueModel::Byte(x) => lemma_width_bounds(x as int, 1, 1),
        ValueModel::Short(x) => lemma_width_bounds(x as int, 1, 2),
        ValueModel::Char(x) => lemma_width_bounds(x as int, 1, 2),
        ValueModel::Int(x) => lemma_width_bounds(x as int, 1, 4),
        ValueModel::Long(x) => lemma_width_bounds(x as int, 1, 8),
        ValueModel::Float(x) => lemma_width_bounds(x as int, 1, 4),
        ValueModel::Double(x) => lemma_width_bounds(x as int, 1, 8),
        ValueModel::MethodType(i) => lemma_width_bounds(i as int, 1, 4),
        ValueModel::MethodHandle(i) => lemma_width_bounds(i as int, 1, 4),
        ValueModel::String(i) => lemma_width_bounds(i as int, 1, 4),
        ValueModel::Type(i) => lemma_width_bounds(i as int, 1, 4),
        ValueModel::Field(i) => lemma_width_bounds(i as int, 1, 4),
        ValueModel::Method(i) => lemma_width_bounds(i as int, 1, 4),
        ValueModel::Enum(i) => lemma_width_bounds(i as int, 1, 4),
        _ => {},
    }
}


/// The pool index a reference value carries (0 for other values).
pub open spec fn ref_index(m: ValueModel) -> u32 {
    match m {
        ValueModel::MethodType(i) => i,
        ValueModel::MethodHandle(i) => i,
        ValueModel::String(i) => i,
        ValueModel::Type(i) => i,
        ValueModel::Field(i) => i,
        ValueModel::Method(i) => i,
        ValueModel::Enum(i) => i,
        _ => 0,
    }
}

/// Whether `m` is a reference to a pool entry (method type, method handle, string, type,
/// field, method or enum).
pub open spec fn is_reference(m: ValueModel) -> bool {
    m is MethodType || m is MethodHandle || m is String || m is Type || m is Field || m is Method || m is Enum
}

/// A reference value with `n` payload bytes (its header's upper three bits are `n - 1`)
/// reads its pool index little-endian from those bytes, and ends right after them.
pub proof fn reference_payloads_read_little_endian(vt: u8, n: nat, b: Seq<u8>, rest: Seq<u8>)
    requires
        0x15 <= vt <= 0x1b,
        1 <= n <= 4,
        b.len() == n,
    ensures
        spec_decode_value(seq![(vt + 32 * (n - 1)) as u8] + b + rest, 0) matches Ok((m, end)) && end == n + 1
            && is_reference(m) && ref_index(m) == b[0] + (if n > 1 {
            256 * b[1]
        } else {
            0
        }) + (if n > 2 {
            0x1_0000 * b[2]
        } else {
            0
        }) + (if n > 3 {
            0x100_0000 * b[3]
        } else {
            0
        }),
{
    let d = seq![(vt + 32 * (n - 1)) as u8] + b + rest;
    assert(d[0] == (vt + 32 * (n - 1)) as u8);
    assert((d[0] % 32) == vt && d[0] / 32 == n - 1);
    assert(d.subrange(1, 1 + n as int) =~= b);
    reveal_with_fuel(le_value, 5);
    assert(b.drop_first().drop_first().drop_first().drop_first().len() == 0 || n < 4);
    if n == 1 {
        assert(b.drop_first() =~= Seq::<u8>::empty());
    } else if n == 2 {
        assert(b.drop_first().drop_first() =~= Seq::<u8>::empty());
        assert(b.drop_first()[0] == b[1]);
    } else if n == 3 {
        assert(b.drop_first().drop_first().drop_first() =~= Seq::<u8>::empty());
        assert(b.drop_first()[0] == b[1]);
        assert(b.drop_first().drop_first()[0] == b[2]);
    } else {
        assert(b.drop_first().drop_first().drop_first().drop_first() =~= Seq::<u8>::empty());
        assert(b.drop_first()[0] == b[1]);
        assert(b.drop_first().drop_first()[0] == b[2]);
        assert(b.drop_first().drop_first().drop_first()[0] == b[3]);
    }
}

proof fn lemma_le_bytes_digits(v: int, n: nat)
    requires
        0 <= v,
    ensures
        le_bytes(v, n).len() == n,
        n >= 1 ==> le_bytes(v, n)[0] == v % 256,
        n >= 2 ==> le_bytes(v, n)[1] == (v / 256) % 256,
        n >= 3 ==> le_bytes(v, n)[2] == (v / 0x1_0000) % 256,
        n >= 4 ==> le_bytes(v, n)[3] == (v / 0x100_0000) % 256,
    decreases n,
{
    if n > 0 {
        lemma_le_bytes_digits(v / 256, (n - 1) as nat);
        assert((v / 256) / 256 == v / 0x1_0000) by (nonlinear_arith)
            requires
                v >= 0,
        ;
        assert((v / 256) / 0x1_0000 == v / 0x100_0000) by (nonlinear_arith)
            requires
                v >= 0,
        ;
    }
}

/// A reference value is written with as few payload bytes as hold its index (one below
/// 0x100, two below 0x1_0000, three below 0x100_0000, else four), that count less one in
/// the header's upper three bits, and the index in little-endian order.
pub proof fn reference_encodings_are_minimal_little_endian(m: ValueModel)
    requires
        is_reference(m),
    ensures
        ({
            let i = ref_index(m) as int;
            let n: int = if i < 0x100 {
                1
            } else if i < 0x1_0000 {
                2
            } else if i < 0x100_0000 {
                3
            } else {
                4
            };
            let e = spec_encode_value(m);
            &&& e.len() == n + 1
            &&& e[0] / 32 == n - 1
            &&& e[1] == i % 256
            &&& n >= 2 ==> e[2] == (i / 256) % 256
            &&& n >= 3 ==> e[3] == (i / 0x1_0000) % 256
            &&& n >= 4 ==> e[4] == (i / 0x100_0000) % 256
        }),
{
    let i = ref_index(m) as int;
    lemma_p256_values();
    let w = unsigned_width(i, 1, 4);
    assert(w == if i < 0x100 {
        1int
    } else if i < 0x1_0000 {
        2int
    } else if i < 0x100_0000 {
        3int
    } else {
        4int
    }) by {
        reveal_with_fuel(unsigned_width, 5);
    }
    lemma_le_bytes_digits(i, w);
    encodings_carry_their_value_type(m);
}

} // verus!
