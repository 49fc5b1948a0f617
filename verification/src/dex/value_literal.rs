//! dex-txt `.value` literals read into values: strings and types as text, integers as
//! integers, float and double literals as text that the float grammar accepts.

use vstd::prelude::*;

use crate::dex::literal::{spec_is_type_descriptor, spec_split_array_elems, spec_unquote, trim, trim_end, trim_start, split_from, push_token};
use crate::dex::literal::{is_type_descriptor, split_array_elems, trimmed, unquote_string_literal};
use crate::error::{parse_error, DexError, Result};
use crate::text::{chars_of, push_char, push_str, same_text};

verus! {

/// A dex-txt `.value` literal read into a value. String and type payloads are text (the
/// caller interns them); float and double literals keep their text, which the float
/// grammar of [`is_float_text`] accepts.
#[derive(Debug)]
pub enum ValueLiteral {
    Null,
    Boolean(bool),
    String(String),
    Type(String),
    Long(i64),
    Float(String),
    Double(String),
    Array(Vec<ValueLiteral>),
    Method(u32),
    Field(u32),
    Enum(u32),
    TypeIdx(u32),
    MethodType(u32),
    MethodHandle(u32),
    Int(i32),
}

/// Mathematical form of a [`ValueLiteral`].
pub ghost enum LiteralModel {
    Null,
    Boolean(bool),
    String(Seq<char>),
    Type(Seq<char>),
    Long(i64),
    Float(Seq<char>),
    Double(Seq<char>),
    Array(Seq<LiteralModel>),
    Method(u32),
    Field(u32),
    Enum(u32),
    TypeIdx(u32),
    MethodType(u32),
    MethodHandle(u32),
    Int(i32),
}

/// Why a literal is refused.
pub ghost enum LiteralError {
    /// A string literal that does not unquote.
    BadString,
    /// Array content longer than `i64::MAX` characters.
    TooLong,
    /// A literal of no supported form (the trimmed text).
    Unsupported(Seq<char>),
}

/// The model of a literal.
pub open spec fn literal_model(v: ValueLiteral) -> LiteralModel
    decreases v,
{
    match v {
        ValueLiteral::Null => LiteralModel::Null,
        ValueLiteral::Boolean(b) => LiteralModel::Boolean(b),
        ValueLiteral::String(s) => LiteralModel::String(s@),
        ValueLiteral::Type(s) => LiteralModel::Type(s@),
        ValueLiteral::Long(x) => LiteralModel::Long(x),
        ValueLiteral::Float(s) => LiteralModel::Float(s@),
        ValueLiteral::Double(s) => LiteralModel::Double(s@),
        ValueLiteral::Array(xs) => LiteralModel::Array(literal_models(xs@)),
        ValueLiteral::Method(i) => LiteralModel::Method(i),
        ValueLiteral::Field(i) => LiteralModel::Field(i),
        ValueLiteral::Enum(i) => LiteralModel::Enum(i),
        ValueLiteral::TypeIdx(i) => LiteralModel::TypeIdx(i),
        ValueLiteral::MethodType(i) => LiteralModel::MethodType(i),
        ValueLiteral::MethodHandle(i) => LiteralModel::MethodHandle(i),
        ValueLiteral::Int(x) => LiteralModel::Int(x),
    }
}

/// Models of a sequence of literals.
pub open spec fn literal_models(vs: Seq<ValueLiteral>) -> Seq<LiteralModel>
    decreases vs,
{
    Seq::new(
        vs.len(),
        |i: int|
            if 0 <= i < vs.len() {
                literal_model(vs[i])
            } else {
                LiteralModel::Null
            },
    )
}

/// The value of digit `c` in `radix` (10 or 16).
pub open spec fn digit_value(c: char, radix: nat) -> Option<nat> {
    if '0' <= c <= '9' {
        Some((c as nat - 48) as nat)
    } else if radix == 16 && 'a' <= c <= 'f' {
        Some((c as nat - 87) as nat)
    } else if radix == 16 && 'A' <= c <= 'F' {
        Some((c as nat - 55) as nat)
    } else {
        None
    }
}

/// The number that the digits `s` spell in `radix`; `None` when one is not a digit.
pub open spec fn digits_value(s: Seq<char>, radix: nat) -> Option<nat>
    decreases s.len(),
{
    if s.len() == 0 {
        Some(0)
    } else {
        match (digits_value(s.drop_last(), radix), digit_value(s.last(), radix)) {
            (Some(a), Some(d)) => Some(a * radix + d),
            _ => None,
        }
    }
}

/// Integer text as `std`'s `from_str_radix` reads it: an optional `+` (or `-` when
/// `signed`), then one or more digits of `radix`.
pub open spec fn spec_parse_int(s: Seq<char>, radix: nat, signed: bool) -> Option<int> {
    if s.len() == 0 {
        None
    } else {
        let neg = signed && s[0] == '-';
        let body = if s[0] == '+' || neg {
            s.skip(1)
        } else {
            s
        };
        if body.len() == 0 {
            None
        } else {
            match digits_value(body, radix) {
                Some(v) => Some(if neg { -v } else { v as int }),
                None => None,
            }
        }
    }
}

/// The integer `s` spells, when it lies in `lo..=hi`.
pub open spec fn int_in(s: Seq<char>, radix: nat, signed: bool, lo: int, hi: int) -> Option<int> {
    match spec_parse_int(s, radix, signed) {
        Some(v) => if lo <= v <= hi {
            Some(v)
        } else {
            None
        },
        None => None,
    }
}

/// The first index at or after `i` that holds no decimal digit.
pub open spec fn digits_end(s: Seq<char>, i: int) -> int
    decreases s.len() - i,
{
    if 0 <= i < s.len() && '0' <= s[i] <= '9' {
        digits_end(s, i + 1)
    } else {
        i
    }
}

/// `s` is the word `lo` with each letter in lower or upper case (`up`).
pub open spec fn same_word(s: Seq<char>, lo: Seq<char>, up: Seq<char>) -> bool {
    &&& s.len() == lo.len()
    &&& lo.len() == up.len()
    &&& forall|i: int| 0 <= i < s.len() ==> s[i] == lo[i] || s[i] == up[i]
}

/// From `i` on, `s` is empty or an exponent: `e` or `E`, an optional sign, digits.
pub open spec fn exp_ok(s: Seq<char>, i: int) -> bool {
    i == s.len() || (0 <= i < s.len() && (s[i] == 'e' || s[i] == 'E') && {
        let j = if i + 1 < s.len() && (s[i + 1] == '+' || s[i + 1] == '-') {
            i + 2
        } else {
            i + 1
        };
        digits_end(s, j) > j && digits_end(s, j) == s.len()
    })
}

/// `s` is a decimal number: digits, optionally a point and digits (at least one digit
/// in all), then an optional exponent.
pub open spec fn decimal_ok(s: Seq<char>) -> bool {
    let i1 = digits_end(s, 0);
    if i1 < s.len() && s[i1] == '.' {
        let i2 = digits_end(s, i1 + 1);
        (i1 > 0 || i2 > i1 + 1) && exp_ok(s, i2)
    } else {
        i1 > 0 && exp_ok(s, i1)
    }
}

/// Text that `std`'s float parsing accepts: an optional sign, then `inf`, `infinity` or
/// `nan` in any case, or a decimal number.
pub open spec fn is_float_text(s: Seq<char>) -> bool {
    let b = if s.len() > 0 && (s[0] == '+' || s[0] == '-') {
        s.skip(1)
    } else {
        s
    };
    same_word(b, seq!['i', 'n', 'f'], seq!['I', 'N', 'F']) || same_word(
        b,
        seq!['i', 'n', 'f', 'i', 'n', 'i', 't', 'y'],
        seq!['I', 'N', 'F', 'I', 'N', 'I', 'T', 'Y'],
    ) || same_word(b, seq!['n', 'a', 'n'], seq!['N', 'A', 'N']) || decimal_ok(b)
}

/// `s` without its last character when that is `c1` or `c2`.
pub open spec fn strip_last(s: Seq<char>, c1: char, c2: char) -> Option<Seq<char>> {
    if s.len() > 0 && (s.last() == c1 || s.last() == c2) {
        Some(s.drop_last())
    } else {
        None
    }
}

/// `s` starts with `p`.
pub open spec fn has_prefix(s: Seq<char>, p: Seq<char>) -> bool {
    p.len() <= s.len() && s.subrange(0, p.len() as int) == p
}

/// The index after `p` in `s`, read as a `u32`, when `s` starts with `p`.
pub open spec fn index_after(s: Seq<char>, p: Seq<char>) -> Option<u32> {
    if has_prefix(s, p) {
        match int_in(s.skip(p.len() as int), 10, false, 0, 0xffff_ffff) {
            Some(v) => Some(v as u32),
            None => None,
        }
    } else {
        None
    }
}

/// The `.value` literal `lit0` (white space around it ignored) read as `parse_value_literal`
/// reads it, the forms tried in this order: `null`, `true`, `false`, a string literal, a
/// type descriptor, a long (`L`/`l` suffix), a float (`f`/`F` suffix), a double (`d`/`D`
/// suffix), an array in braces, `method@`, `field@`, `enum@`, `type@`, `method_type@`,
/// `method_handle@` with an index, a hexadecimal int after `0x`/`0X`, a decimal int.
pub open spec fn spec_value_literal(lit0: Seq<char>) -> core::result::Result<LiteralModel, LiteralError>
    decreases lit0.len(), 1int, 0int,
{
    let lit = trim(lit0);
    let n = lit.len();
    if word_literal(lit) is Some {
        Ok(word_literal(lit)->0)
    } else if n > 0 && lit[0] == '"' {
        match spec_unquote(lit) {
            Some(t) => Ok(LiteralModel::String(t)),
            None => Err(LiteralError::BadString),
        }
    } else if suffix_literal(lit) is Some {
        Ok(suffix_literal(lit)->0)
    } else if n >= 2 && lit[0] == '{' && lit[n - 1] == '}' {
        let inner = lit.subrange(1, n - 1);
        if inner.len() > 0x7fff_ffff_ffff_ffff {
            Err(LiteralError::TooLong)
        } else {
            match spec_literals(spec_split_array_elems(inner), lit0.len()) {
                Ok(ms) => Ok(LiteralModel::Array(ms)),
                Err(e) => Err(e),
            }
        }
    } else if index_literal(lit) is Some {
        Ok(index_literal(lit)->0)
    } else {
        Err(LiteralError::Unsupported(lit))
    }
}

/// `null`, `true` or `false`.
pub open spec fn word_literal(lit: Seq<char>) -> Option<LiteralModel> {
    if lit == seq!['n', 'u', 'l', 'l'] {
        Some(LiteralModel::Null)
    } else if lit == seq!['t', 'r', 'u', 'e'] {
        Some(LiteralModel::Boolean(true))
    } else if lit == seq!['f', 'a', 'l', 's', 'e'] {
        Some(LiteralModel::Boolean(false))
    } else {
        None
    }
}

/// A type descriptor, or a long, float or double by its suffix.
pub open spec fn suffix_literal(lit: Seq<char>) -> Option<LiteralModel> {
    if spec_is_type_descriptor(lit) {
        Some(LiteralModel::Type(lit))
    } else if strip_last(lit, 'L', 'l') is Some && int_in(
        lit.drop_last(),
        10,
        true,
        -0x8000_0000_0000_0000,
        0x7fff_ffff_ffff_ffff,
    ) is Some {
        Some(
            LiteralModel::Long(
                int_in(lit.drop_last(), 10, true, -0x8000_0000_0000_0000, 0x7fff_ffff_ffff_ffff)->0 as i64,
            ),
        )
    } else if strip_last(lit, 'f', 'F') is Some && is_float_text(lit.drop_last()) {
        Some(LiteralModel::Float(lit.drop_last()))
    } else if strip_last(lit, 'd', 'D') is Some && is_float_text(lit.drop_last()) {
        Some(LiteralModel::Double(lit.drop_last()))
    } else {
        None
    }
}

/// A reference by index (`method@`, `field@`, `enum@`, `type@`, `method_type@`,
/// `method_handle@`), a hexadecimal int after `0x`/`0X`, or a decimal int.
pub open spec fn index_literal(lit: Seq<char>) -> Option<LiteralModel> {
    if index_after(lit, seq!['m', 'e', 't', 'h', 'o', 'd', '@']) is Some {
        Some(LiteralModel::Method(index_after(lit, seq!['m', 'e', 't', 'h', 'o', 'd', '@'])->0))
    } else if index_after(lit, seq!['f', 'i', 'e', 'l', 'd', '@']) is Some {
        Some(LiteralModel::Field(index_after(lit, seq!['f', 'i', 'e', 'l', 'd', '@'])->0))
    } else if index_after(lit, seq!['e', 'n', 'u', 'm', '@']) is Some {
        Some(LiteralModel::Enum(index_after(lit, seq!['e', 'n', 'u', 'm', '@'])->0))
    } else if index_after(lit, seq!['t', 'y', 'p', 'e', '@']) is Some {
        Some(LiteralModel::TypeIdx(index_after(lit, seq!['t', 'y', 'p', 'e', '@'])->0))
    } else if index_after(lit, method_type_at()) is Some {
        Some(LiteralModel::MethodType(index_after(lit, method_type_at())->0))
    } else if index_after(lit, method_handle_at()) is Some {
        Some(LiteralModel::MethodHandle(index_after(lit, method_handle_at())->0))
    } else if (has_prefix(lit, seq!['0', 'x']) || has_prefix(lit, seq!['0', 'X'])) && int_in(
        lit.skip(2),
        16,
        true,
        -0x8000_0000,
        0x7fff_ffff,
    ) is Some {
        Some(LiteralModel::Int(int_in(lit.skip(2), 16, true, -0x8000_0000, 0x7fff_ffff)->0 as i32))
    } else if int_in(lit, 10, true, -0x8000_0000, 0x7fff_ffff) is Some {
        Some(LiteralModel::Int(int_in(lit, 10, true, -0x8000_0000, 0x7fff_ffff)->0 as i32))
    } else {
        None
    }
}

/// `method_type@`.
pub open spec fn method_type_at() -> Seq<char> {
    seq!['m', 'e', 't', 'h', 'o', 'd', '_', 't', 'y', 'p', 'e', '@']
}

/// `method_handle@`.
pub open spec fn method_handle_at() -> Seq<char> {
    seq!['m', 'e', 't', 'h', 'o', 'd', '_', 'h', 'a', 'n', 'd', 'l', 'e', '@']
}

/// Each of the element texts `elems` read in turn (each shorter than `bound`); the first
/// refusal ends it.
pub open spec fn spec_literals(elems: Seq<Seq<char>>, bound: nat) -> core::result::Result<Seq<LiteralModel>, LiteralError>
    decreases bound, 0int, elems.len(),
{
    if elems.len() == 0 {
        Ok(Seq::empty())
    } else {
        match spec_literals(elems.drop_last(), bound) {
            Ok(ms) => if elems.last().len() < bound {
                match spec_value_literal(elems.last()) {
                    Ok(m) => Ok(ms.push(m)),
                    Err(e) => Err(e),
                }
            } else {
                Err(LiteralError::TooLong)
            },
            Err(e) => Err(e),
        }
    }
}

/// Trimming never lengthens text.
proof fn lemma_trim_len(s: Seq<char>)
    ensures
        trim(s).len() <= s.len(),
{
    lemma_trim_start_len(s);
    lemma_trim_end_len(trim_start(s));
}

proof fn lemma_trim_start_len(s: Seq<char>)
    ensures
        trim_start(s).len() <= s.len(),
    decreases s.len(),
{
    if s.len() > 0 {
        lemma_trim_start_len(s.drop_first());
    }
}

proof fn lemma_trim_end_len(s: Seq<char>)
    ensures
        trim_end(s).len() <= s.len(),
    decreases s.len(),
{
    if s.len() > 0 {
        lemma_trim_end_len(s.drop_last());
    }
}

/// Every token of `ts` has at most `m` characters.
pub open spec fn tokens_short(ts: Seq<Seq<char>>, m: int) -> bool {
    forall|k: int| 0 <= k < ts.len() ==> (#[trigger] ts[k]).len() <= m
}

/// `out` with a trimmed piece of `s` added keeps its tokens no longer than `s`.
proof fn lemma_push_token_short(s: Seq<char>, out: Seq<Seq<char>>, a: int, b: int)
    requires
        0 <= a <= b <= s.len(),
        tokens_short(out, s.len() as int),
    ensures
        tokens_short(push_token(out, s.subrange(a, b)), s.len() as int),
{
    lemma_trim_len(s.subrange(a, b));
    let out2 = push_token(out, s.subrange(a, b));
    assert forall|k: int| 0 <= k < out2.len() implies (#[trigger] out2[k]).len() <= s.len() by {
        if k < out.len() {
            assert(out2[k] == out[k]);
        }
    }
}

/// Every token of a split is no longer than the text split.
proof fn lemma_split_from_len(
    s: Seq<char>,
    i: int,
    start: int,
    depth: int,
    in_str: bool,
    escape: bool,
    out: Seq<Seq<char>>,
)
    requires
        0 <= start <= s.len(),
        start <= i || i >= s.len(),
        tokens_short(out, s.len() as int),
    ensures
        tokens_short(split_from(s, i, start, depth, in_str, escape, out), s.len() as int),
    decreases s.len() - i,
{
    if i < 0 || i >= s.len() {
        lemma_push_token_short(s, out, start, s.len() as int);
    } else if in_str {
        if escape {
            lemma_split_from_len(s, i + 1, start, depth, true, false, out);
        } else if s[i] == '\\' {
            lemma_split_from_len(s, i + 1, start, depth, true, true, out);
        } else if s[i] == '"' {
            lemma_split_from_len(s, i + 1, start, depth, false, false, out);
        } else {
            lemma_split_from_len(s, i + 1, start, depth, true, false, out);
        }
    } else if s[i] == '"' {
        lemma_split_from_len(s, i + 1, start, depth, true, false, out);
    } else if s[i] == '{' {
        lemma_split_from_len(s, i + 1, start, depth + 1, false, false, out);
    } else if s[i] == '}' {
        lemma_split_from_len(s, i + 1, start, depth - 1, false, false, out);
    } else if s[i] == ',' && depth == 0 {
        lemma_push_token_short(s, out, start, i);
        lemma_split_from_len(s, i + 1, i + 1, depth, false, false, push_token(out, s.subrange(start, i)));
    } else {
        lemma_split_from_len(s, i + 1, start, depth, false, false, out);
    }
}

/// Once reading the elements has failed, reading more of them fails the same way.
proof fn lemma_literals_err_stays(elems: Seq<Seq<char>>, bound: nat, j: int, k: int)
    requires
        0 <= j <= k <= elems.len(),
        spec_literals(elems.take(j), bound) is Err,
    ensures
        spec_literals(elems.take(k), bound) == spec_literals(elems.take(j), bound),
    decreases k - j,
{
    if k > j {
        lemma_literals_err_stays(elems, bound, j, k - 1);
        assert(elems.take(k).drop_last() =~= elems.take(k - 1));
    }
}

/// When all digits of `s` read, those of each prefix do, and their values grow.
proof fn lemma_digits_prefix(s: Seq<char>, radix: nat, j: int)
    requires
        digits_value(s, radix) is Some,
        0 <= j <= s.len(),
    ensures
        digits_value(s.take(j), radix) is Some,
    decreases s.len(),
{
    if j < s.len() {
        assert(s.drop_last().take(j) =~= s.take(j));
        lemma_digits_prefix(s.drop_last(), radix, j);
    } else {
        assert(s.take(j) =~= s);
    }
}

/// `v[a..b]` as a new vector.
fn slice_chars(v: &Vec<char>, a: usize, b: usize) -> (r: Vec<char>)
    requires
        a <= b <= v@.len(),
    ensures
        r@ == v@.subrange(a as int, b as int),
{
    let mut out: Vec<char> = Vec::new();
    let mut k = a;
    while k < b
        invariant
            a <= k <= b <= v@.len(),
            out@ == v@.subrange(a as int, k as int),
        decreases b - k,
    {
        out.push(v[k]);
        assert(out@ =~= v@.subrange(a as int, k + 1));
        k = k + 1;
    }
    out
}

/// `v[a..b]` as a string.
fn text_of(v: &Vec<char>, a: usize, b: usize) -> (r: String)
    requires
        a <= b <= v@.len(),
    ensures
        r@ == v@.subrange(a as int, b as int),
{
    let mut out = String::new();
    let mut k = a;
    while k < b
        invariant
            a <= k <= b <= v@.len(),
            out@ == v@.subrange(a as int, k as int),
        decreases b - k,
    {
        push_char(&mut out, v[k]);
        assert(out@ =~= v@.subrange(a as int, k + 1));
        k = k + 1;
    }
    out
}

/// Whether `v` starts with the characters of `p`.
fn starts_with_text(v: &Vec<char>, p: &str) -> (r: bool)
    ensures
        r == has_prefix(v@, p@),
{
    let w = chars_of(p);
    if w.len() > v.len() {
        return false;
    }
    let mut k: usize = 0;
    while k < w.len()
        invariant
            k <= w@.len() <= v@.len(),
            w@ == p@,
            forall|j: int| 0 <= j < k ==> v@[j] == w@[j],
        decreases w@.len() - k,
    {
        if v[k] != w[k] {
            assert(v@.subrange(0, w@.len() as int)[k as int] != w@[k as int]);
            return false;
        }
        k = k + 1;
    }
    assert(v@.subrange(0, w@.len() as int) =~= w@);
    true
}

/// The value of digit `c` in `radix`.
fn digit_of(c: char, radix: u32) -> (r: Option<u32>)
    requires
        radix == 10 || radix == 16,
    ensures
        match digit_value(c, radix as nat) {
            Some(d) => r == Some(d as u32),
            None => r is None,
        },
{
    if '0' <= c && c <= '9' {
        Some(c as u32 - 48)
    } else if radix == 16 && 'a' <= c && c <= 'f' {
        Some(c as u32 - 87)
    } else if radix == 16 && 'A' <= c && c <= 'F' {
        Some(c as u32 - 55)
    } else {
        None
    }
}

/// The integer the text `s` spells in `radix` (an optional sign, then digits), when it
/// lies in `lo..=hi`.
#[verifier::spinoff_prover]
#[verifier::rlimit(80)]
fn parse_int(s: &Vec<char>, radix: u32, signed: bool, lo: i128, hi: i128) -> (r: Option<i128>)
    requires
        radix == 10 || radix == 16,
        -0x1_0000_0000_0000_0000 <= lo,
        hi <= 0x1_0000_0000_0000_0000,
    ensures
        match int_in(s@, radix as nat, signed, lo as int, hi as int) {
            Some(x) => r == Some(x as i128),
            None => r is None,
        },
{
    let n = s.len();
    if n == 0 {
        return None;
    }
    let neg = signed && s[0] == '-';
    let start: usize = if s[0] == '+' || neg {
        1
    } else {
        0
    };
    let ghost body = if s[0] == '+' || neg {
        s@.skip(1)
    } else {
        s@
    };
    assert(body =~= s@.subrange(start as int, n as int));
    if start == n {
        return None;
    }
    let mut acc: u128 = 0;
    let mut big = false;
    let mut k = start;
    assert(s@.subrange(start as int, start as int) =~= Seq::<char>::empty());
    while k < n
        invariant
            start <= k <= n == s@.len(),
            n > 0,
            neg == (signed && s@[0] == '-'),
            body == (if s@[0] == '+' || neg {
                s@.skip(1)
            } else {
                s@
            }),
            body == s@.subrange(start as int, n as int),
            radix == 10 || radix == 16,
            digits_value(s@.subrange(start as int, k as int), radix as nat) is Some,
            big ==> digits_value(s@.subrange(start as int, k as int), radix as nat)->0 > 0x2_0000_0000_0000_0000,
            !big ==> digits_value(s@.subrange(start as int, k as int), radix as nat)->0 == acc,
            acc <= 0x2_0000_0000_0000_0000,
        decreases n - k,
    {
        let ghost pre = s@.subrange(start as int, k as int);
        let ghost nxt = s@.subrange(start as int, k + 1);
        assert(nxt.drop_last() =~= pre);
        assert(nxt.last() == s@[k as int]);
        let d = match digit_of(s[k], radix) {
            Some(d) => d,
            None => {
                proof {
                    assert(digits_value(nxt, radix as nat) is None);
                    assert(body.take(k + 1 - start) =~= nxt);
                    if digits_value(body, radix as nat) is Some {
                        lemma_digits_prefix(body, radix as nat, k + 1 - start);
                    }
                }
                return None;
            },
        };
        let ghost val = digits_value(pre, radix as nat)->0;
        assert(val * (radix as nat) >= val) by (nonlinear_arith)
            requires
                radix >= 1,
        ;
        if !big {
            assert(acc * (radix as u128) + (d as u128) <= 0x2_0000_0000_0000_0000 * 16 + 16) by (nonlinear_arith)
                requires
                    acc <= 0x2_0000_0000_0000_0000,
                    radix <= 16,
                    d <= 16,
            ;
            let na = acc * (radix as u128) + (d as u128);
            if na > 0x2_0000_0000_0000_0000 {
                big = true;
            } else {
                acc = na;
            }
        }
        k = k + 1;
    }
    assert(s@.subrange(start as int, k as int) =~= body);
    if big {
        return None;
    }
    let val = acc as i128;
    let x = if neg {
        -val
    } else {
        val
    };
    if lo <= x && x <= hi {
        Some(x)
    } else {
        None
    }
}

/// The first index at or after `i` of `s` that holds no decimal digit.
fn digits_end_exec(s: &Vec<char>, i: usize) -> (r: usize)
    requires
        i <= s@.len(),
    ensures
        r == digits_end(s@, i as int),
        i <= r <= s@.len(),
{
    let mut k = i;
    while k < s.len() && '0' <= s[k] && s[k] <= '9'
        invariant
            i <= k <= s@.len(),
            digits_end(s@, i as int) == digits_end(s@, k as int),
        decreases s@.len() - k,
    {
        k = k + 1;
    }
    k
}

/// Whether `s` is the word `lo`, each letter in lower or upper case (`up`).
fn same_word_exec(s: &Vec<char>, lo: &str, up: &str) -> (r: bool)
    ensures
        r == same_word(s@, lo@, up@),
{
    let l = chars_of(lo);
    let u = chars_of(up);
    if s.len() != l.len() || l.len() != u.len() {
        return false;
    }
    let mut k: usize = 0;
    while k < s.len()
        invariant
            k <= s@.len() == l@.len() == u@.len(),
            l@ == lo@,
            u@ == up@,
            forall|j: int| 0 <= j < k ==> s@[j] == l@[j] || s@[j] == u@[j],
        decreases s@.len() - k,
    {
        if s[k] != l[k] && s[k] != u[k] {
            return false;
        }
        k = k + 1;
    }
    true
}

/// Whether from `i` on, `s` is empty or an exponent.
fn exp_ok_exec(s: &Vec<char>, i: usize) -> (r: bool)
    requires
        i <= s@.len(),
    ensures
        r == exp_ok(s@, i as int),
{
    let n = s.len();
    if i == n {
        return true;
    }
    if s[i] != 'e' && s[i] != 'E' {
        return false;
    }
    let j = if i + 1 < n && (s[i + 1] == '+' || s[i + 1] == '-') {
        i + 2
    } else {
        i + 1
    };
    let e = digits_end_exec(s, j);
    e > j && e == n
}

/// Whether `s` is a decimal number.
fn decimal_ok_exec(s: &Vec<char>) -> (r: bool)
    ensures
        r == decimal_ok(s@),
{
    let n = s.len();
    let i1 = digits_end_exec(s, 0);
    if i1 < n && s[i1] == '.' {
        let i2 = digits_end_exec(s, i1 + 1);
        (i1 > 0 || i2 > i1 + 1) && exp_ok_exec(s, i2)
    } else {
        i1 > 0 && exp_ok_exec(s, i1)
    }
}

/// Whether `std`'s float parsing accepts `s`.
pub fn float_text(s: &Vec<char>) -> (r: bool)
    ensures
        r == is_float_text(s@),
{
    let n = s.len();
    let b = if n > 0 && (s[0] == '+' || s[0] == '-') {
        slice_chars(s, 1, n)
    } else {
        slice_chars(s, 0, n)
    };
    assert(s@.subrange(0, n as int) =~= s@);
    proof {
        reveal_strlit("inf");
        reveal_strlit("INF");
        reveal_strlit("infinity");
        reveal_strlit("INFINITY");
        reveal_strlit("nan");
        reveal_strlit("NAN");
    }
    same_word_exec(&b, "inf", "INF") || same_word_exec(&b, "infinity", "INFINITY") || same_word_exec(&b, "nan", "NAN")
        || decimal_ok_exec(&b)
}

/// Whether `v` is the text of `w`.
fn is_text(v: &Vec<char>, t: &String, w: &str) -> (r: bool)
    requires
        t@ == v@,
    ensures
        r == (v@ == w@),
{
    same_text(t.as_str(), w)
}

/// What `parse_value_literal` gives back when reading the literal gives `spec`.
pub open spec fn literal_result(spec: core::result::Result<LiteralModel, LiteralError>, r: Result<ValueLiteral>) -> bool {
    match spec {
        Ok(m) => r matches Ok(v) && literal_model(v) == m,
        Err(LiteralError::BadString) => r matches Err(e) && e is Parse,
        Err(LiteralError::TooLong) => r matches Err(DexError::Parse(m)) && m@ == "array literal too long"@,
        Err(LiteralError::Unsupported(t)) => r matches Err(DexError::Parse(m)) && m@ == "unsupported .value literal: "@ + t,
    }
}

/// `null`, `true` or `false`.
fn word_value(v: &Vec<char>, t: &String) -> (r: Option<ValueLiteral>)
    requires
        t@ == v@,
    ensures
        match word_literal(v@) {
            Some(m) => r matches Some(x) && literal_model(x) == m,
            None => r is None,
        },
{
    proof {
        reveal_strlit("null");
        reveal_strlit("true");
        reveal_strlit("false");
    }
    assert("null"@ =~= seq!['n', 'u', 'l', 'l']);
    assert("true"@ =~= seq!['t', 'r', 'u', 'e']);
    assert("false"@ =~= seq!['f', 'a', 'l', 's', 'e']);
    if is_text(v, t, "null") {
        Some(ValueLiteral::Null)
    } else if is_text(v, t, "true") {
        Some(ValueLiteral::Boolean(true))
    } else if is_text(v, t, "false") {
        Some(ValueLiteral::Boolean(false))
    } else {
        None
    }
}

/// A type descriptor, or a long, float or double by its suffix.
fn suffix_value(v: &Vec<char>, t: &String) -> (r: Option<ValueLiteral>)
    requires
        t@ == v@,
    ensures
        match suffix_literal(v@) {
            Some(m) => r matches Some(x) && literal_model(x) == m,
            None => r is None,
        },
{
    let n = v.len();
    assert(v@.subrange(0, n as int) =~= v@);
    if is_type_descriptor(t.as_str()) {
        return Some(ValueLiteral::Type(text_of(v, 0, n)));
    }
    if n > 0 && (v[n - 1] == 'L' || v[n - 1] == 'l') {
        let body = slice_chars(v, 0, n - 1);
        assert(body@ =~= v@.drop_last());
        match parse_int(&body, 10, true, -0x8000_0000_0000_0000, 0x7fff_ffff_ffff_ffff) {
            Some(x) => {
                return Some(ValueLiteral::Long(x as i64));
            },
            None => {},
        }
    }
    if n > 0 && (v[n - 1] == 'f' || v[n - 1] == 'F') {
        let body = slice_chars(v, 0, n - 1);
        assert(body@ =~= v@.drop_last());
        if float_text(&body) {
            return Some(ValueLiteral::Float(text_of(v, 0, n - 1)));
        }
    }
    if n > 0 && (v[n - 1] == 'd' || v[n - 1] == 'D') {
        let body = slice_chars(v, 0, n - 1);
        assert(body@ =~= v@.drop_last());
        if float_text(&body) {
            return Some(ValueLiteral::Double(text_of(v, 0, n - 1)));
        }
    }
    None
}

/// The index after `p` (of `plen` characters) in `v`, when `v` starts with `p`.
fn index_value(v: &Vec<char>, p: &str, plen: usize) -> (r: Option<u32>)
    requires
        p@.len() == plen,
    ensures
        r == index_after(v@, p@),
{
    if !starts_with_text(v, p) {
        return None;
    }
    let body = slice_chars(v, plen, v.len());
    assert(body@ =~= v@.skip(plen as int));
    match parse_int(&body, 10, false, 0, 0xffff_ffff) {
        Some(x) => Some(x as u32),
        None => None,
    }
}

/// A reference by index, a hexadecimal int or a decimal int.
fn index_form(v: &Vec<char>) -> (r: Option<ValueLiteral>)
    ensures
        match index_literal(v@) {
            Some(m) => r matches Some(x) && literal_model(x) == m,
            None => r is None,
        },
{
    proof {
        reveal_strlit("method@");
        reveal_strlit("field@");
        reveal_strlit("enum@");
        reveal_strlit("type@");
        reveal_strlit("method_type@");
        reveal_strlit("method_handle@");
        reveal_strlit("0x");
        reveal_strlit("0X");
    }
    assert("method@"@ =~= seq!['m', 'e', 't', 'h', 'o', 'd', '@']);
    assert("field@"@ =~= seq!['f', 'i', 'e', 'l', 'd', '@']);
    assert("enum@"@ =~= seq!['e', 'n', 'u', 'm', '@']);
    assert("type@"@ =~= seq!['t', 'y', 'p', 'e', '@']);
    assert("method_type@"@ =~= method_type_at());
    assert("method_handle@"@ =~= method_handle_at());
    assert("0x"@ =~= seq!['0', 'x']);
    assert("0X"@ =~= seq!['0', 'X']);
    match index_value(v, "method@", 7) {
        Some(x) => {
            return Some(ValueLiteral::Method(x));
        },
        None => {},
    }
    match index_value(v, "field@", 6) {
        Some(x) => {
            return Some(ValueLiteral::Field(x));
        },
        None => {},
    }
    match index_value(v, "enum@", 5) {
        Some(x) => {
            return Some(ValueLiteral::Enum(x));
        },
        None => {},
    }
    match index_value(v, "type@", 5) {
        Some(x) => {
            return Some(ValueLiteral::TypeIdx(x));
        },
        None => {},
    }
    match index_value(v, "method_type@", 12) {
        Some(x) => {
            return Some(ValueLiteral::MethodType(x));
        },
        None => {},
    }
    match index_value(v, "method_handle@", 14) {
        Some(x) => {
            return Some(ValueLiteral::MethodHandle(x));
        },
        None => {},
    }
    if starts_with_text(v, "0x") || starts_with_text(v, "0X") {
        let body = slice_chars(v, 2, v.len());
        assert(body@ =~= v@.skip(2));
        match parse_int(&body, 16, true, -0x8000_0000, 0x7fff_ffff) {
            Some(x) => {
                return Some(ValueLiteral::Int(x as i32));
            },
            None => {},
        }
    }
    match parse_int(v, 10, true, -0x8000_0000, 0x7fff_ffff) {
        Some(x) => Some(ValueLiteral::Int(x as i32)),
        None => None,
    }
}

/// Parse a dex-txt `.value` literal (white space around it ignored) as
/// [`spec_value_literal`] reads it.
pub fn parse_value_literal(lit: &str) -> (r: Result<ValueLiteral>)
    ensures
        literal_result(spec_value_literal(lit@), r),
    decreases lit@.len(),
{
    let all = chars_of(lit);
    let (t, _) = trimmed(&all, 0, all.len());
    assert(all@.subrange(0, all@.len() as int) =~= lit@);
    let v = chars_of(t.as_str());
    let n = v.len();
    proof {
        lemma_trim_len(lit@);
    }
    match word_value(&v, &t) {
        Some(x) => {
            return Ok(x);
        },
        None => {},
    }
    if n > 0 && v[0] == '"' {
        return match unquote_string_literal(t.as_str()) {
            Ok(s) => Ok(ValueLiteral::String(s)),
            Err(e) => Err(e),
        };
    }
    match suffix_value(&v, &t) {
        Some(x) => {
            return Ok(x);
        },
        None => {},
    }
    if n >= 2 && v[0] == '{' && v[n - 1] == '}' {
        return parse_array(lit, &v);
    }
    match index_form(&v) {
        Some(x) => {
            return Ok(x);
        },
        None => {},
    }
    let mut m = "unsupported .value literal: ".to_string();
    push_str(&mut m, t.as_str());
    Err(DexError::Parse(m))
}

/// The array literal `v` (the trimmed `lit`, in braces), each element read in turn.
fn parse_array(lit: &str, v: &Vec<char>) -> (r: Result<ValueLiteral>)
    requires
        v@ == trim(lit@),
        v@.len() >= 2,
        v@[0] == '{',
        v@[v@.len() - 1] == '}',
    ensures
        ({
            let n = v@.len();
            let inner = v@.subrange(1, n - 1);
            if inner.len() > 0x7fff_ffff_ffff_ffff {
                r matches Err(DexError::Parse(m)) && m@ == "array literal too long"@
            } else {
                match spec_literals(spec_split_array_elems(inner), lit@.len()) {
                    Ok(ms) => r matches Ok(x) && literal_model(x) == LiteralModel::Array(ms),
                    Err(e) => literal_result(Err(e), r),
                }
            }
        }),
    decreases lit@.len(), 0int,
{
    proof {
        lemma_trim_len(lit@);
    }
    let n = v.len();
    if (n - 2) as u64 > 0x7fff_ffff_ffff_ffff {
        return Err(parse_error("array literal too long"));
    }
    let inner = text_of(v, 1, n - 1);
    let parts = split_array_elems(inner.as_str());
    let ghost elems = spec_split_array_elems(inner@);
    proof {
        lemma_split_from_len(inner@, 0, 0, 0, false, false, Seq::empty());
        assert(tokens_short(elems, inner@.len() as int));
        assert(elems.take(0) =~= Seq::<Seq<char>>::empty());
    }
    let mut out: Vec<ValueLiteral> = Vec::new();
    let mut k: usize = 0;
    assert(literal_models(out@) =~= Seq::<LiteralModel>::empty());
    while k < parts.len()
        invariant
            k <= parts@.len() == elems.len(),
            inner@ == v@.subrange(1, v@.len() - 1),
            inner@.len() <= 0x7fff_ffff_ffff_ffff,
            v@.len() >= 2,
            elems == spec_split_array_elems(inner@),
            inner@.len() + 2 <= lit@.len(),
            forall|i: int| 0 <= i < parts@.len() ==> (#[trigger] parts@[i])@ == elems[i],
            forall|i: int| 0 <= i < elems.len() ==> (#[trigger] elems[i]).len() <= inner@.len(),
            spec_literals(elems.take(k as int), lit@.len()) == Ok::<Seq<LiteralModel>, LiteralError>(literal_models(out@)),
        decreases parts@.len() - k,
    {
        let ghost e = elems[k as int];
        assert(elems.take(k + 1).drop_last() =~= elems.take(k as int));
        assert(elems.take(k + 1).last() == e);
        assert(parts@[k as int]@ == e);
        match parse_value_literal(parts[k].as_str()) {
            Ok(x) => {
                let ghost before = out@;
                let ghost xm = literal_model(x);
                out.push(x);
                assert(literal_models(out@) =~= literal_models(before).push(xm));
            },
            Err(err) => {
                proof {
                    assert(e.len() < lit@.len());
                    assert(spec_value_literal(e) is Err);
                    assert(spec_literals(elems.take(k + 1), lit@.len()) is Err && spec_literals(elems.take(k + 1), lit@.len())->Err_0 == spec_value_literal(e)->Err_0);
                    lemma_literals_err_stays(elems, lit@.len(), k + 1, elems.len() as int);
                    assert(elems.take(elems.len() as int) =~= elems);
                    assert(spec_literals(elems, lit@.len()) is Err && spec_literals(elems, lit@.len())->Err_0 == spec_value_literal(e)->Err_0);
                    assert(literal_result(spec_value_literal(e), Err::<ValueLiteral, DexError>(err)));
                    assert(literal_result(Err(spec_literals(elems, lit@.len())->Err_0), Err::<ValueLiteral, DexError>(err)));
                    assert(inner@ == v@.subrange(1, v@.len() - 1));
                }
                return Err(err);
            },
        }
        k = k + 1;
    }
    assert(elems.take(k as int) =~= elems);
    Ok(ValueLiteral::Array(out))
}

} // verus!
