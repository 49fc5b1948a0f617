//! string_ids and string_data_item (MUTF-8).

use vstd::prelude::*;
use vstd::std_specs::iter::IteratorSpec;
use vstd::utf8::is_scalar;

use crate::dex::header::DexHeader;
use crate::error::{truncated, DexError, Result};
use crate::leb128::{read_u32, read_uleb128, spec_read_uleb128, u32_at, lemma_read_leb_consumed};
use crate::text::{char_from_u32, push_char};

verus! {

broadcast use vstd::utf8::char_is_scalar, vstd::utf8::char_u32_cast, vstd::string::group_string_axioms;

/// Index of the first NUL byte at or after `e`, or the length when there is none.
pub open spec fn find_nul(data: Seq<u8>, e: int) -> int
    decreases data.len() - e,
{
    if e >= data.len() || e < 0 {
        data.len() as int
    } else if data[e] == 0 {
        e
    } else {
        find_nul(data, e + 1)
    }
}

/// MUTF-8 payload of the `string_data_item` at `offset`: the bytes after its uleb128
/// length, up to (not including) the first NUL.
pub open spec fn spec_string_payload(data: Seq<u8>, offset: int) -> Option<Seq<u8>> {
    if offset >= data.len() {
        None
    } else {
        match spec_read_uleb128(data, offset) {
            Some((_, n)) => Some(data.subrange(offset + n, find_nul(data, offset + n))),
            None => None,
        }
    }
}

proof fn lemma_find_nul(data: Seq<u8>, e: int)
    requires
        0 <= e <= data.len(),
    ensures
        e <= find_nul(data, e) <= data.len(),
        find_nul(data, e) < data.len() ==> data[find_nul(data, e)] == 0,
        forall|k: int| e <= k < find_nul(data, e) ==> data[k] != 0,
    decreases data.len() - e,
{
    if e < data.len() && data[e] != 0 {
        lemma_find_nul(data, e + 1);
    }
}

/// First NUL at or after `start` (or `data.len()`).
pub fn scan_to_nul(data: &[u8], start: usize) -> (end: usize)
    requires
        start <= data@.len(),
    ensures
        end == find_nul(data@, start as int),
        start <= end <= data@.len(),
{
    let mut end = start;
    while end < data.len() && data[end] != 0
        invariant
            start <= end <= data@.len(),
            find_nul(data@, start as int) == find_nul(data@, end as int),
        decreases data@.len() - end,
    {
        end += 1;
    }
    proof {
        lemma_find_nul(data@, end as int);
        lemma_find_nul(data@, start as int);
    }
    end
}

/// Read the MUTF-8 payload of the `string_data_item` at `offset`.
pub fn string_payload(data: &[u8], offset: usize) -> (r: Option<&[u8]>)
    ensures
        match r {
            Some(b) => spec_string_payload(data@, offset as int) == Some(b@),
            None => spec_string_payload(data@, offset as int) is None,
        },
{
    if offset >= data.len() {
        return None;
    }
    proof {
        lemma_read_leb_consumed(data@, offset as int);
    }
    let (_utf16, n) = match read_uleb128(data, offset) {
        Some(p) => p,
        None => return None,
    };
    let start = offset + n;
    let end = scan_to_nul(data, start);
    Some(&data[start..end])
}

/// The MUTF-8 encoding of one code point (two 3-byte halves for the supplementary planes).
pub open spec fn mutf8_unit3(v: int) -> Seq<u8> {
    seq![(0xe0 + v / 4096) as u8, (0x80 + (v / 64) % 64) as u8, (0x80 + v % 64) as u8]
}

pub open spec fn mutf8_char(cp: u32) -> Seq<u8> {
    if cp != 0 && cp <= 0x7f {
        seq![cp as u8]
    } else if cp <= 0x7ff {
        seq![(0xc0 + cp / 64) as u8, (0x80 + cp % 64) as u8]
    } else if cp <= 0xffff {
        mutf8_unit3(cp as int)
    } else {
        let cp2 = cp - 0x10000;
        mutf8_unit3(0xd800 + cp2 / 1024) + mutf8_unit3(0xdc00 + cp2 % 1024)
    }
}

/// MUTF-8 encoding of a character sequence.
pub open spec fn spec_encode_mutf8(s: Seq<char>) -> Seq<u8>
    decreases s.len(),
{
    if s.len() == 0 {
        Seq::empty()
    } else {
        spec_encode_mutf8(s.drop_last()) + mutf8_char(s.last() as u32)
    }
}

/// Character for a decoded code point; invalid ones (surrogates) become U+FFFD.
pub open spec fn scalar_or_replacement(c: u32) -> char {
    if is_scalar(c) {
        c as char
    } else {
        '\u{fffd}'
    }
}

/// The value of the three-byte sequence at `i` of `b`.
pub open spec fn unit3_value(b: Seq<u8>, i: int) -> u32 {
    ((b[i] % 16) * 4096 + (b[i + 1] % 64) * 64 + b[i + 2] % 64) as u32
}

/// `b` starts with a high surrogate in three bytes followed by a low surrogate in three
/// bytes.
pub open spec fn surrogate_pair_at(b: Seq<u8>) -> bool {
    &&& b.len() >= 6
    &&& 0xe0 <= b[0] < 0xf0
    &&& 0xd800 <= unit3_value(b, 0) < 0xdc00
    &&& 0xe0 <= b[3] < 0xf0
    &&& 0xdc00 <= unit3_value(b, 3) < 0xe000
}

/// The code point that the surrogate pair `hi`, `lo` stands for.
pub open spec fn pair_value(hi: u32, lo: u32) -> u32 {
    (0x10000 + (hi - 0xd800) * 1024 + (lo - 0xdc00)) as u32
}

/// The first character of the MUTF-8 bytes `b` (not empty) and how many bytes it takes:
/// one byte below 0x80, two after a lead byte 0xC0-0xDF, three after one of 0xE0-0xEF
/// (six for a surrogate pair, which becomes the one character it stands for); other
/// invalid code points become U+FFFD. `None` for a truncated sequence or another lead
/// byte.
pub open spec fn decode_step(b: Seq<u8>) -> Option<(char, int)> {
    let b0 = b[0];
    if b0 < 0x80 {
        Some((b0 as char, 1))
    } else if 0xc0 <= b0 < 0xe0 {
        if b.len() < 2 {
            None
        } else {
            Some((scalar_or_replacement(((b0 % 32) * 64 + b[1] % 64) as u32), 2))
        }
    } else if 0xe0 <= b0 < 0xf0 {
        if b.len() < 3 {
            None
        } else if surrogate_pair_at(b) {
            Some((scalar_or_replacement(pair_value(unit3_value(b, 0), unit3_value(b, 3))), 6))
        } else {
            Some((scalar_or_replacement(unit3_value(b, 0)), 3))
        }
    } else {
        None
    }
}

/// MUTF-8 decoding, character by character by [`decode_step`]; `None` when a step fails.
pub open spec fn spec_decode_mutf8(b: Seq<u8>) -> Option<Seq<char>>
    decreases b.len(),
{
    if b.len() == 0 {
        Some(Seq::empty())
    } else {
        match decode_step(b) {
            Some((ch, n)) => if 0 < n <= b.len() {
                match spec_decode_mutf8(b.skip(n)) {
                    Some(rest) => Some(seq![ch] + rest),
                    None => None,
                }
            } else {
                None
            },
            None => None,
        }
    }
}

/// The message for the first step of the decoding of `b` that fails: `truncated MUTF-8`
/// when a sequence is cut off, else `invalid MUTF-8`.
pub open spec fn mutf8_error(b: Seq<u8>) -> Seq<char>
    decreases b.len(),
{
    if b.len() == 0 {
        Seq::empty()
    } else {
        match decode_step(b) {
            Some((_, n)) => if 0 < n <= b.len() {
                mutf8_error(b.skip(n))
            } else {
                Seq::empty()
            },
            None => if 0xc0 <= b[0] < 0xf0 {
                "truncated MUTF-8"@
            } else {
                "invalid MUTF-8"@
            },
        }
    }
}

fn push_unit3(out: &mut Vec<u8>, v: u32)
    requires
        v <= 0xffff,
    ensures
        final(out)@ == old(out)@ + mutf8_unit3(v as int),
{
    out.push((0xe0 + v / 4096) as u8);
    out.push((0x80 + (v / 64) % 64) as u8);
    out.push((0x80 + v % 64) as u8);
    assert(out@ =~= old(out)@ + mutf8_unit3(v as int));
}

/// Encode a `&str` to MUTF-8 bytes (no trailing NUL).
pub fn encode_mutf8(s: &str) -> (out: Vec<u8>)
    ensures
        out@ == spec_encode_mutf8(s@),
{
    let mut out: Vec<u8> = Vec::new();
    let ghost chars = s@;
    let mut it = s.chars();
    let ghost mut k: int = 0;
    proof {
        assert(chars.take(0) =~= Seq::<char>::empty());
    }
    loop
        invariant
            0 <= k <= chars.len(),
            chars == s@,
            it.obeys_prophetic_iter_laws(),
            it.remaining() == chars.skip(k),
            out@ == spec_encode_mutf8(chars.take(k)),
        decreases chars.len() - k,
    {
        let ghost old_it = it;
        let next = it.next();
        proof {
            assert(old_it.remaining() == chars.skip(k));
        }
        match next {
            None => {
                assert(chars.skip(k).len() == 0);
                assert(chars.take(k) =~= chars);
                return out;
            },
            Some(ch) => {
                let ghost prefix = chars.take(k);
                assert(chars.take(k + 1) =~= prefix.push(ch));
                assert(chars.take(k + 1).drop_last() =~= prefix);
                let cp = ch as u32;
                proof {
                    vstd::utf8::char_is_scalar(ch);
                }
                if cp != 0 && cp <= 0x7f {
                    out.push(cp as u8);
                } else if cp <= 0x7ff {
                    out.push((0xc0 + cp / 64) as u8);
                    out.push((0x80 + cp % 64) as u8);
                } else if cp <= 0xffff {
                    push_unit3(&mut out, cp);
                } else {
                    let cp2 = cp - 0x10000;
                    push_unit3(&mut out, 0xd800 + cp2 / 1024);
                    push_unit3(&mut out, 0xdc00 + cp2 % 1024);
                }
                assert(out@ =~= spec_encode_mutf8(chars.take(k + 1)));
                proof {
                    k = k + 1;
                }
                assert(chars.skip(k - 1).drop_first() =~= chars.skip(k));
            },
        }
    }
}

/// The first character of `bytes[i..]` and how many bytes it takes.
fn decode_one(bytes: &[u8], i: usize) -> (r: core::result::Result<(char, usize), String>)
    requires
        i < bytes@.len(),
    ensures
        match decode_step(bytes@.skip(i as int)) {
            Some((ch, n)) => r matches Ok((c, k)) && c == ch && k == n,
            None => r matches Err(m) && m@ == mutf8_error(bytes@.skip(i as int)),
        },
{
    let ghost tail = bytes@.skip(i as int);
    proof {
        reveal_strlit("truncated MUTF-8");
        reveal_strlit("invalid MUTF-8");
    }
    let b = bytes[i];
    if b < 0x80 {
        Ok((b as char, 1))
    } else if 0xc0 <= b && b < 0xe0 {
        if bytes.len() - i < 2 {
            return Err("truncated MUTF-8".to_string());
        }
        let c = ((b % 32) as u32) * 64 + (bytes[i + 1] % 64) as u32;
        let ch = match char_from_u32(c) {
            Some(x) => x,
            None => '\u{fffd}',
        };
        Ok((ch, 2))
    } else if 0xe0 <= b && b < 0xf0 {
        if bytes.len() - i < 3 {
            return Err("truncated MUTF-8".to_string());
        }
        let c = ((b % 16) as u32) * 4096 + ((bytes[i + 1] % 64) as u32) * 64 + (bytes[i + 2] % 64) as u32;
        assert(c == unit3_value(tail, 0));
        let mut pair: Option<u32> = None;
        if 0xd800 <= c && c < 0xdc00 && bytes.len() - i >= 6 && 0xe0 <= bytes[i + 3] && bytes[i + 3] < 0xf0 {
            let c2 = ((bytes[i + 3] % 16) as u32) * 4096 + ((bytes[i + 4] % 64) as u32) * 64 + (bytes[i + 5] % 64) as u32;
            assert(c2 == unit3_value(tail, 3));
            if 0xdc00 <= c2 && c2 < 0xe000 {
                pair = Some(0x10000 + (c - 0xd800) * 1024 + (c2 - 0xdc00));
            }
        }
        assert(pair is Some <==> surrogate_pair_at(tail));
        match pair {
            Some(v) => {
                assert(v == pair_value(unit3_value(tail, 0), unit3_value(tail, 3)));
                let ch = match char_from_u32(v) {
                    Some(x) => x,
                    None => '\u{fffd}',
                };
                Ok((ch, 6))
            },
            None => {
                let ch = match char_from_u32(c) {
                    Some(x) => x,
                    None => '\u{fffd}',
                };
                Ok((ch, 3))
            },
        }
    } else {
        Err("invalid MUTF-8".to_string())
    }
}

/// Decode MUTF-8 to a `String`. Handles 1/2/3 byte sequences and surrogate pairs;
/// other invalid code points (such as lone surrogates) become U+FFFD.
pub fn decode_mutf8(bytes: &[u8]) -> (r: core::result::Result<String, String>)
    ensures
        match r {
            Ok(s) => spec_decode_mutf8(bytes@) == Some(s@),
            Err(m) => spec_decode_mutf8(bytes@) is None && m@ == mutf8_error(bytes@),
        },
{
    let mut out = String::new();
    let mut i: usize = 0;
    proof {
        assert(bytes@.skip(0) =~= bytes@);
        match spec_decode_mutf8(bytes@) {
            Some(rest) => {
                assert(out@ + rest =~= rest);
            },
            None => {},
        }
    }
    while i < bytes.len()
        invariant
            i <= bytes@.len(),
            spec_decode_mutf8(bytes@) == match spec_decode_mutf8(bytes@.skip(i as int)) {
                Some(rest) => Some(out@ + rest),
                None => None,
            },
            mutf8_error(bytes@) == mutf8_error(bytes@.skip(i as int)),
        decreases bytes@.len() - i,
    {
        let ghost tail = bytes@.skip(i as int);
        let (ch, advance) = decode_one(bytes, i)?;
        assert(tail.skip(advance as int) =~= bytes@.skip(i + advance));
        let ghost before = out@;
        push_char(&mut out, ch);
        i += advance;
        proof {
            match spec_decode_mutf8(bytes@.skip(i as int)) {
                Some(rest) => {
                    assert(before + (seq![ch] + rest) =~= out@ + rest);
                },
                None => {},
            }
        }
    }
    assert(bytes@.skip(i as int) =~= Seq::<u8>::empty());
    assert(out@ + Seq::<char>::empty() =~= out@);
    Ok(out)
}

proof fn lemma_encode_front(s: Seq<char>)
    requires
        s.len() > 0,
    ensures
        spec_encode_mutf8(s) == mutf8_char(s[0] as u32) + spec_encode_mutf8(s.skip(1)),
    decreases s.len(),
{
    if s.len() == 1 {
        assert(s.drop_last() =~= Seq::<char>::empty());
        assert(s.skip(1) =~= Seq::<char>::empty());
        assert(spec_encode_mutf8(s.drop_last()) =~= Seq::<u8>::empty());
        assert(s.last() == s[0]);
        assert(spec_encode_mutf8(s) =~= Seq::<u8>::empty() + mutf8_char(s[0] as u32));
    } else {
        lemma_encode_front(s.drop_last());
        assert(s.drop_last().skip(1) =~= s.skip(1).drop_last());
        assert(s.skip(1).last() == s.last());
        assert(spec_encode_mutf8(s.skip(1)) == spec_encode_mutf8(s.skip(1).drop_last())
            + mutf8_char(s.skip(1).last() as u32));
    }
}

/// The three bytes of `v` start with a lead byte 0xE0-0xEF and read back as `v`.
proof fn lemma_unit3(v: int)
    requires
        0 <= v <= 0xffff,
    ensures
        0xe0 <= mutf8_unit3(v)[0] < 0xf0,
        unit3_value(mutf8_unit3(v), 0) == v,
{
    let u = mutf8_unit3(v);
    assert(0 <= v / 4096 < 16) by (nonlinear_arith)
        requires
            0 <= v <= 0xffff,
    ;
    assert(u[0] == 0xe0 + v / 4096);
    assert(u[1] == 0x80 + (v / 64) % 64);
    assert(u[2] == 0x80 + v % 64);
    assert((0xe0 + v / 4096) % 16 == v / 4096);
    assert((0x80 + (v / 64) % 64) % 64 == (v / 64) % 64);
    assert((0x80 + v % 64) % 64 == v % 64);
    assert((v / 4096) * 4096 + ((v / 64) % 64) * 64 + v % 64 == v) by (nonlinear_arith)
        requires
            0 <= v,
    ;
}

/// The first step of decoding the bytes of `ch`, then `rest`, gives `ch` and their length.
proof fn lemma_step_char(ch: char, rest: Seq<u8>)
    ensures
        decode_step(mutf8_char(ch as u32) + rest) == Some((ch, mutf8_char(ch as u32).len() as int)),
        mutf8_char(ch as u32).len() > 0,
{
    let cp = ch as u32;
    vstd::utf8::char_is_scalar(ch);
    vstd::utf8::char_u32_cast(ch, cp);
    if cp != 0 && cp <= 0x7f {
        lemma_step_one(ch, rest);
    } else if cp <= 0x7ff {
        lemma_step_two(ch, rest);
    } else if cp <= 0xffff {
        lemma_step_three(ch, rest);
    } else {
        lemma_step_pair(ch, rest);
    }
}

proof fn lemma_step_one(ch: char, rest: Seq<u8>)
    requires
        (ch as u32) != 0 && (ch as u32) <= 0x7f,
    ensures
        decode_step(mutf8_char(ch as u32) + rest) == Some((ch, 1int)),
        mutf8_char(ch as u32).len() == 1,
{
    let cp = ch as u32;
    vstd::utf8::char_u32_cast(ch, cp);
    let b = mutf8_char(cp) + rest;
    assert(b[0] == cp as u8);
    assert((cp as u8) as char == ch);
}

proof fn lemma_step_two(ch: char, rest: Seq<u8>)
    requires
        (ch as u32) == 0 || (0x7f < (ch as u32) <= 0x7ff),
    ensures
        decode_step(mutf8_char(ch as u32) + rest) == Some((ch, 2int)),
        mutf8_char(ch as u32).len() == 2,
{
    let cp = ch as u32;
    vstd::utf8::char_is_scalar(ch);
    vstd::utf8::char_u32_cast(ch, cp);
    let b = mutf8_char(cp) + rest;
    assert(b[0] == (0xc0 + cp / 64) as u8);
    assert(b[1] == (0x80 + cp % 64) as u8);
    assert(((b[0] % 32) * 64 + b[1] % 64) as u32 == cp);
}

proof fn lemma_step_three(ch: char, rest: Seq<u8>)
    requires
        0x7ff < (ch as u32) <= 0xffff,
    ensures
        decode_step(mutf8_char(ch as u32) + rest) == Some((ch, 3int)),
        mutf8_char(ch as u32).len() == 3,
{
    let cp = ch as u32;
    vstd::utf8::char_is_scalar(ch);
    vstd::utf8::char_u32_cast(ch, cp);
    let b = mutf8_char(cp) + rest;
    lemma_unit3(cp as int);
    let u = mutf8_unit3(cp as int);
    assert(b.subrange(0, 3) =~= u);
    assert(b[0] == u[0] && b[1] == u[1] && b[2] == u[2]);
    assert(unit3_value(b, 0) == unit3_value(u, 0));
    assert(!surrogate_pair_at(b));
}

proof fn lemma_step_pair(ch: char, rest: Seq<u8>)
    requires
        0xffff < (ch as u32),
    ensures
        decode_step(mutf8_char(ch as u32) + rest) == Some((ch, 6int)),
        mutf8_char(ch as u32).len() == 6,
{
    let cp = ch as u32;
    vstd::utf8::char_is_scalar(ch);
    vstd::utf8::char_u32_cast(ch, cp);
    let b = mutf8_char(cp) + rest;
    let cp2 = cp - 0x10000;
    let hi = 0xd800 + cp2 / 1024;
    let lo = 0xdc00 + cp2 % 1024;
    assert(0xd800 <= hi < 0xdc00 && 0xdc00 <= lo < 0xe000) by (nonlinear_arith)
        requires
            0 <= cp2 < 0x100000,
            hi == 0xd800 + cp2 / 1024,
            lo == 0xdc00 + cp2 % 1024,
    ;
    lemma_unit3(hi as int);
    lemma_unit3(lo as int);
    let u1 = mutf8_unit3(hi as int);
    let u2 = mutf8_unit3(lo as int);
    assert(mutf8_char(cp) == u1 + u2);
    assert(b[0] == u1[0] && b[1] == u1[1] && b[2] == u1[2]);
    assert(b[3] == u2[0] && b[4] == u2[1] && b[5] == u2[2]);
    assert(unit3_value(b, 0) == unit3_value(u1, 0));
    assert(unit3_value(b, 3) == unit3_value(u2, 0));
    assert(0x10000 + (hi - 0xd800) * 1024 + (lo - 0xdc00) == cp) by (nonlinear_arith)
        requires
            cp2 == cp - 0x10000,
            0 <= cp2,
            hi == 0xd800 + cp2 / 1024,
            lo == 0xdc00 + cp2 % 1024,
    ;
    assert(pair_value(hi as u32, lo as u32) == cp);
    assert(surrogate_pair_at(b));
}

/// The bytes of one character, then `rest`, decode to the character, then `rest` decoded.
proof fn lemma_decode_char(ch: char, rest: Seq<u8>)
    ensures
        spec_decode_mutf8(mutf8_char(ch as u32) + rest) == match spec_decode_mutf8(rest) {
            Some(r) => Some(seq![ch] + r),
            None => None,
        },
{
    let e = mutf8_char(ch as u32);
    let b = e + rest;
    lemma_step_char(ch, rest);
    assert(b.skip(e.len() as int) =~= rest);
}

/// MUTF-8 decoding undoes MUTF-8 encoding for every string (NUL included, which travels
/// as the two bytes `C0 80`, and characters above U+FFFF, which travel as surrogate
/// pairs).
pub proof fn mutf8_roundtrip(s: Seq<char>)
    ensures
        spec_decode_mutf8(spec_encode_mutf8(s)) == Some(s),
    decreases s.len(),
{
    if s.len() == 0 {
        assert(spec_encode_mutf8(s) =~= Seq::<u8>::empty());
    } else {
        lemma_encode_front(s);
        mutf8_roundtrip(s.skip(1));
        lemma_decode_char(s[0], spec_encode_mutf8(s.skip(1)));
        assert(seq![s[0]] + s.skip(1) =~= s);
    }
}

/// Offsets of the `string_data_item`s, one per `string_ids` entry.
#[derive(Clone, Debug)]
pub struct DexStrings {
    /// For each string_id index, offset into file to string_data.
    offsets: Vec<u32>,
}

impl DexStrings {
    /// The `string_data_off` of every string id.
    pub closed spec fn offsets(&self) -> Seq<u32> {
        self.offsets@
    }

    /// Read the `string_ids` table described by `header`.
    pub fn parse(data: &[u8], header: &DexHeader) -> (r: Result<Self>)
        ensures
            match r {
                Ok(s) => (header.string_ids_size == 0 || header.string_ids_off + 4
                    * header.string_ids_size <= data@.len()) && s.offsets().len()
                    == header.string_ids_size && forall|i: int|
                    0 <= i < header.string_ids_size ==> s.offsets()[i] == u32_at(
                        data@,
                        header.string_ids_off + 4 * i,
                    ),
                Err(e) => e is Truncated && header.string_ids_size != 0 && header.string_ids_off
                    + 4 * header.string_ids_size > data@.len(),
            },
    {
        let n = header.string_ids_size as usize;
        let off = header.string_ids_off as usize;
        if n == 0 {
            return Ok(Self { offsets: Vec::new() });
        }
        if data.len() < off || (data.len() - off) / 4 < n {
            return Err(truncated("string_ids"));
        }
        let mut offsets: Vec<u32> = Vec::new();
        let mut i: usize = 0;
        while i < n
            invariant
                i <= n,
                n == header.string_ids_size,
                off == header.string_ids_off,
                off + 4 * n <= data@.len() <= usize::MAX,
                offsets@.len() == i,
                forall|k: int| 0 <= k < i ==> offsets@[k] == u32_at(data@, off + 4 * k),
            decreases n - i,
        {
            let o = match read_u32(data, off + i * 4) {
                Some(v) => v,
                None => 0,
            };
            offsets.push(o);
            i += 1;
        }
        Ok(Self { offsets })
    }

    /// String at index `idx`: its `string_data_item` (uleb128 utf16_size, MUTF-8 bytes up
    /// to NUL) decoded.
    pub fn get(&self, data: &[u8], idx: u32) -> (r: Result<String>)
        ensures
            match r {
                Ok(s) => idx < self.offsets().len() && exists|b: Seq<u8>|
                    spec_string_payload(data@, self.offsets()[idx as int] as int) == Some(b)
                        && spec_decode_mutf8(b) == Some(s@),
                Err(DexError::Truncated(_)) => idx >= self.offsets().len() || spec_string_payload(
                    data@,
                    self.offsets()[idx as int] as int,
                ) is None,
                Err(DexError::Parse(m)) => idx < self.offsets().len() && exists|b: Seq<u8>|
                    spec_string_payload(data@, self.offsets()[idx as int] as int) == Some(b)
                        && spec_decode_mutf8(b) is None && m@ == mutf8_error(b),
                Err(_) => false,
            },
    {
        let i = idx as usize;
        if i >= self.offsets.len() {
            return Err(truncated("string index"));
        }
        let offset = self.offsets[i] as usize;
        if offset >= data.len() {
            return Err(truncated("string_data_off"));
        }
        let bytes = match string_payload(data, offset) {
            Some(b) => b,
            None => return Err(truncated("utf16_size")),
        };
        match decode_mutf8(bytes) {
            Ok(s) => Ok(s),
            Err(m) => Err(DexError::Parse(m)),
        }
    }
}

} // verus!
