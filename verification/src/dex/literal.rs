//! dex-txt string literals: escaping, unescaping and unquoting.

use vstd::prelude::*;
use vstd::utf8::is_scalar;

use crate::error::{parse_error, DexError, Result};
use crate::text::{char_from_u32, chars_of, digit_char, is_white_space, is_whitespace, push_char};

verus! {

/// Four lowercase hex digits of `v` (below 0x10000).
pub open spec fn hex4(v: nat) -> Seq<char> {
    seq![digit_char((v / 4096) % 16), digit_char((v / 256) % 16), digit_char((v / 16) % 16), digit_char(v % 16)]
}

/// Whether `c` is written as `\uXXXX`: ASCII and C1 controls (other than the ones with
/// a short escape) and the Unicode line and paragraph separators.
pub open spec fn needs_unicode_escape(c: char) -> bool {
    (c as u32) < 0x20 || (0x7f <= (c as u32) <= 0x9f) || c == '\u{2028}' || c == '\u{2029}'
}

/// How one character is written inside a literal.
pub open spec fn escape_char(c: char) -> Seq<char> {
    if c == '\\' {
        seq!['\\', '\\']
    } else if c == '"' {
        seq!['\\', '"']
    } else if c == '\n' {
        seq!['\\', 'n']
    } else if c == '\r' {
        seq!['\\', 'r']
    } else if c == '\t' {
        seq!['\\', 't']
    } else if needs_unicode_escape(c) {
        seq!['\\', 'u'] + hex4((c as u32) as nat)
    } else {
        seq![c]
    }
}

/// The escaped form of `s`, character by character.
pub open spec fn spec_escape(s: Seq<char>) -> Seq<char>
    decreases s.len(),
{
    if s.len() == 0 {
        Seq::empty()
    } else {
        escape_char(s[0]) + spec_escape(s.drop_first())
    }
}

fn hex_digit(d: u32) -> (r: char)
    requires
        d < 16,
    ensures
        r == digit_char(d as nat),
{
    let code: u32 = if d < 10 {
        d + 48
    } else {
        d - 10 + 97
    };
    proof {
        assert(is_scalar(code));
    }
    match char_from_u32(code) {
        Some(c) => c,
        None => '0',
    }
}

/// Escape a string for use inside a dex-txt `"..."` literal.
pub fn escape_string_literal(s: &str) -> (r: String)
    ensures
        r@ == spec_escape(s@),
{
    let v = chars_of(s);
    let mut out = String::new();
    let mut i: usize = 0;
    assert(v@.skip(0) =~= v@);
    assert(out@ =~= Seq::<char>::empty());
    while i < v.len()
        invariant
            i <= v@.len(),
            v@ == s@,
            spec_escape(s@) == out@ + spec_escape(v@.skip(i as int)),
        decreases v@.len() - i,
    {
        let c = v[i];
        let ghost before = out@;
        if c == '\\' {
            push_char(&mut out, '\\');
            push_char(&mut out, '\\');
        } else if c == '"' {
            push_char(&mut out, '\\');
            push_char(&mut out, '"');
        } else if c == '\n' {
            push_char(&mut out, '\\');
            push_char(&mut out, 'n');
        } else if c == '\r' {
            push_char(&mut out, '\\');
            push_char(&mut out, 'r');
        } else if c == '\t' {
            push_char(&mut out, '\\');
            push_char(&mut out, 't');
        } else if (c as u32) < 0x20 || (0x7f <= (c as u32) && (c as u32) <= 0x9f) || c == '\u{2028}' || c
            == '\u{2029}' {
            let x = c as u32;
            push_char(&mut out, '\\');
            push_char(&mut out, 'u');
            push_char(&mut out, hex_digit((x / 4096) % 16));
            push_char(&mut out, hex_digit((x / 256) % 16));
            push_char(&mut out, hex_digit((x / 16) % 16));
            push_char(&mut out, hex_digit(x % 16));
            proof {
                assert(hex4((c as u32) as nat) =~= seq![
                    digit_char(((x / 4096) % 16) as nat),
                    digit_char(((x / 256) % 16) as nat),
                    digit_char(((x / 16) % 16) as nat),
                    digit_char((x % 16) as nat),
                ]);
            }
        } else {
            push_char(&mut out, c);
        }
        proof {
            assert(v@.skip(i as int)[0] == c);
            assert(v@.skip(i as int).drop_first() =~= v@.skip(i + 1));
            if c == '\\' || c == '"' || c == '\n' || c == '\r' || c == '\t' {
                assert(out@ =~= before + escape_char(c));
            } else if needs_unicode_escape(c) {
                assert(out@ =~= before + escape_char(c));
            } else {
                assert(out@ =~= before + escape_char(c));
            }
        }
        i = i + 1;
    }
    assert(v@.skip(i as int) =~= Seq::<char>::empty());
    assert(out@ + Seq::<char>::empty() =~= out@);
    out
}

pub open spec fn is_hex_digit(c: char) -> bool {
    ('0' <= c <= '9') || ('a' <= c <= 'f') || ('A' <= c <= 'F')
}

pub open spec fn hex_digit_value(c: char) -> nat {
    if '0' <= c <= '9' {
        (c as nat - 48) as nat
    } else if 'a' <= c <= 'f' {
        (c as nat - 87) as nat
    } else {
        (c as nat - 55) as nat
    }
}

/// The number that the hex digits `s` spell.
pub open spec fn hex_value(s: Seq<char>) -> nat
    decreases s.len(),
{
    if s.len() == 0 {
        0
    } else {
        hex_value(s.drop_last()) * 16 + hex_digit_value(s.last())
    }
}

/// `h` without a leading `+`.
pub open spec fn unsigned_body(h: Seq<char>) -> Seq<char> {
    if h.len() > 0 && h[0] == '+' {
        h.drop_first()
    } else {
        h
    }
}

pub open spec fn all_hex(b: Seq<char>) -> bool {
    forall|i: int| 0 <= i < b.len() ==> is_hex_digit(#[trigger] b[i])
}

/// Radix-16 parsing of short text (an optional `+`, then one or more hex digits).
pub open spec fn parse_hex_text(h: Seq<char>) -> Option<nat> {
    let b = unsigned_body(h);
    if b.len() == 0 || !all_hex(b) {
        None
    } else {
        Some(hex_value(b))
    }
}

/// Unescaping of literal content: `None` where an escape is malformed.
pub open spec fn spec_unescape(s: Seq<char>) -> Option<Seq<char>>
    decreases s.len(),
{
    if s.len() == 0 {
        Some(Seq::empty())
    } else if s[0] != '\\' {
        match spec_unescape(s.drop_first()) {
            Some(rest) => Some(seq![s[0]] + rest),
            None => None,
        }
    } else if s.len() == 1 {
        Some(seq!['\\'])
    } else {
        let n = s[1];
        if n == 'x' {
            if s.len() < 4 {
                None
            } else {
                match parse_hex_text(s.subrange(2, 4)) {
                    None => None,
                    Some(code) => match spec_unescape(s.skip(4)) {
                        Some(rest) => Some(seq![(code as u32) as char] + rest),
                        None => None,
                    },
                }
            }
        } else if n == 'u' {
            if s.len() < 6 {
                None
            } else {
                match parse_hex_text(s.subrange(2, 6)) {
                    None => None,
                    Some(code) => if !is_scalar(code as u32) {
                        None
                    } else {
                        match spec_unescape(s.skip(6)) {
                            Some(rest) => Some(seq![(code as u32) as char] + rest),
                            None => None,
                        }
                    },
                }
            }
        } else {
            let c = if n == '\\' {
                '\\'
            } else if n == '"' {
                '"'
            } else if n == 'n' {
                '\n'
            } else if n == 'r' {
                '\r'
            } else if n == 't' {
                '\t'
            } else {
                n
            };
            match spec_unescape(s.skip(2)) {
                Some(rest) => Some(seq![c] + rest),
                None => None,
            }
        }
    }
}

/// Radix-16 value of `v[a..b]` (at most four characters), as `from_str_radix` reads it.
fn parse_hex_chars(v: &Vec<char>, a: usize, b: usize) -> (r: Option<u32>)
    requires
        a <= b <= v@.len(),
        b - a <= 4,
    ensures
        match r {
            Some(x) => parse_hex_text(v@.subrange(a as int, b as int)) == Some(x as nat),
            None => parse_hex_text(v@.subrange(a as int, b as int)) is None,
        },
{
    let ghost h = v@.subrange(a as int, b as int);
    let mut p = a;
    if p < b && v[p] == '+' {
        p = p + 1;
    }
    let ghost body = v@.subrange(p as int, b as int);
    proof {
        if h.len() > 0 && h[0] == '+' {
            assert(body =~= h.drop_first());
        } else {
            assert(body =~= h);
        }
    }
    if p == b {
        return None;
    }
    let mut val: u32 = 0;
    let mut k = p;
    assert(v@.subrange(p as int, p as int) =~= Seq::<char>::empty());
    while k < b
        invariant
            p <= k <= b <= v@.len(),
            b - p <= 4,
            body == v@.subrange(p as int, b as int),
            body == unsigned_body(h),
            h == v@.subrange(a as int, b as int),
            forall|i: int| p <= i < k ==> is_hex_digit(#[trigger] v@[i]),
            val == hex_value(v@.subrange(p as int, k as int)),
            val < pow16(k - p),
        decreases b - k,
    {
        let c = v[k];
        let d: u32 = if '0' <= c && c <= '9' {
            c as u32 - 48
        } else if 'a' <= c && c <= 'f' {
            c as u32 - 87
        } else if 'A' <= c && c <= 'F' {
            c as u32 - 55
        } else {
            proof {
                assert(body[k - p] == c);
                assert(!is_hex_digit(body[k - p]));
            }
            return None;
        };
        proof {
            assert(v@.subrange(p as int, k + 1).drop_last() =~= v@.subrange(p as int, k as int));
            assert(v@.subrange(p as int, k + 1).last() == c);
            assert(pow16(k + 1 - p) == 16 * pow16(k - p));
            assert(pow16(4) == 65536) by {
                reveal_with_fuel(pow16, 5);
            }
            lemma_pow16_mono((k + 1 - p) as nat, 4);
        }
        val = val * 16 + d;
        k = k + 1;
    }
    proof {
        assert forall|i: int| 0 <= i < body.len() implies is_hex_digit(#[trigger] body[i]) by {
            assert(body[i] == v@[p + i]);
        }
    }
    Some(val)
}

/// `16^n`.
pub open spec fn pow16(n: int) -> nat
    decreases n,
{
    if n <= 0 {
        1
    } else {
        16 * pow16(n - 1)
    }
}

proof fn lemma_pow16_mono(a: nat, b: nat)
    requires
        a <= b,
    ensures
        pow16(a as int) <= pow16(b as int),
    decreases b,
{
    if a < b {
        lemma_pow16_mono(a, (b - 1) as nat);
    }
}

/// Unescape dex-txt string content (no surrounding quotes).
pub fn unescape_string_content(s: &str) -> (r: Result<String>)
    ensures
        match r {
            Ok(t) => spec_unescape(s@) == Some(t@),
            Err(e) => spec_unescape(s@) is None && e is Parse,
        },
{
    let v = chars_of(s);
    let mut out = String::new();
    let mut i: usize = 0;
    assert(v@.skip(0) =~= v@);
    assert(out@ =~= Seq::<char>::empty());
    while i < v.len()
        invariant
            i <= v@.len(),
            v@ == s@,
            spec_unescape(s@) == match spec_unescape(v@.skip(i as int)) {
                Some(rest) => Some(out@ + rest),
                None => None::<Seq<char>>,
            },
        decreases v@.len() - i,
    {
        let ghost t = v@.skip(i as int);
        let ghost before = out@;
        let c = v[i];
        assert(t[0] == c);
        if c != '\\' {
            push_char(&mut out, c);
            proof {
                assert(t.drop_first() =~= v@.skip(i + 1));
                match spec_unescape(v@.skip(i + 1)) {
                    Some(rest) => {
                        assert(before + (seq![c] + rest) =~= out@ + rest);
                    },
                    None => {},
                }
            }
            i = i + 1;
            continue;
        }
        if i + 1 >= v.len() {
            push_char(&mut out, '\\');
            proof {
                assert(t.len() == 1);
                assert(v@.skip(i + 1) =~= Seq::<char>::empty());
                assert(before + seq!['\\'] =~= out@ + Seq::<char>::empty());
            }
            i = i + 1;
            continue;
        }
        let n = v[i + 1];
        assert(t[1] == n);
        if n == 'x' {
            if v.len() - i < 4 {
                return Err(parse_error("bad \\x escape"));
            }
            assert(t.subrange(2, 4) =~= v@.subrange(i + 2, i + 4));
            let code = match parse_hex_chars(&v, i + 2, i + 4) {
                Some(x) => x,
                None => return Err(parse_error("bad \\x escape")),
            };
            proof {
                lemma_hex_small(v@.subrange(i + 2, i + 4));
            }
            let ch = char_from_u32(code);
            let cc = match ch {
                Some(x) => x,
                None => '\0',
            };
            proof {
                assert(is_scalar(code));
            }
            push_char(&mut out, cc);
            proof {
                assert(t.skip(4) =~= v@.skip(i + 4));
                match spec_unescape(v@.skip(i + 4)) {
                    Some(rest) => {
                        assert(before + (seq![cc] + rest) =~= out@ + rest);
                    },
                    None => {},
                }
            }
            i = i + 4;
        } else if n == 'u' {
            if v.len() - i < 6 {
                return Err(parse_error("bad \\u escape"));
            }
            assert(t.subrange(2, 6) =~= v@.subrange(i + 2, i + 6));
            let code = match parse_hex_chars(&v, i + 2, i + 6) {
                Some(x) => x,
                None => return Err(parse_error("bad \\u escape")),
            };
            let cc = match char_from_u32(code) {
                Some(x) => x,
                None => return Err(parse_error("invalid unicode escape")),
            };
            push_char(&mut out, cc);
            proof {
                assert(t.skip(6) =~= v@.skip(i + 6));
                match spec_unescape(v@.skip(i + 6)) {
                    Some(rest) => {
                        assert(before + (seq![cc] + rest) =~= out@ + rest);
                    },
                    None => {},
                }
            }
            i = i + 6;
        } else {
            let cc = if n == '\\' {
                '\\'
            } else if n == '"' {
                '"'
            } else if n == 'n' {
                '\n'
            } else if n == 'r' {
                '\r'
            } else if n == 't' {
                '\t'
            } else {
                n
            };
            push_char(&mut out, cc);
            proof {
                assert(t.skip(2) =~= v@.skip(i + 2));
                match spec_unescape(v@.skip(i + 2)) {
                    Some(rest) => {
                        assert(before + (seq![cc] + rest) =~= out@ + rest);
                    },
                    None => {},
                }
            }
            i = i + 2;
        }
    }
    assert(v@.skip(i as int) =~= Seq::<char>::empty());
    assert(out@ + Seq::<char>::empty() =~= out@);
    Ok(out)
}

/// The body of a quoted literal, scanned from `i`: characters are copied into `inner`
/// until an unescaped `"`; an escape is copied with the character after the backslash
/// and, for `\u` and `\x`, up to four or two more. The body and the position of the
/// closing quote, or `None` when none follows.
pub open spec fn spec_scan_quoted(s: Seq<char>, i: int, inner: Seq<char>) -> Option<(Seq<char>, int)>
    decreases s.len() - i,
{
    if i < 0 || i >= s.len() {
        None
    } else if s[i] == '"' {
        Some((inner, i))
    } else if s[i] == '\\' {
        if i + 1 >= s.len() {
            None
        } else {
            let n = s[i + 1];
            let want: int = if n == 'u' {
                4
            } else if n == 'x' {
                2
            } else {
                0
            };
            let got: int = if s.len() - (i + 2) < want {
                s.len() - (i + 2)
            } else {
                want
            };
            spec_scan_quoted(s, i + 2 + got, inner + seq!['\\', n] + s.subrange(i + 2, i + 2 + got))
        }
    } else {
        spec_scan_quoted(s, i + 1, inner.push(s[i]))
    }
}

pub open spec fn all_white(s: Seq<char>) -> bool {
    forall|i: int| 0 <= i < s.len() ==> is_white_space(#[trigger] s[i])
}

/// Unquoting of a `"..."` literal: `None` when it does not start with `"`, has no
/// closing quote, has anything but white space after it, or holds a bad escape.
pub open spec fn spec_unquote(lit: Seq<char>) -> Option<Seq<char>> {
    if lit.len() == 0 || lit[0] != '"' {
        None
    } else {
        match spec_scan_quoted(lit.drop_first(), 0, Seq::empty()) {
            None => None,
            Some((inner, q)) => if all_white(lit.drop_first().skip(q + 1)) {
                spec_unescape(inner)
            } else {
                None
            },
        }
    }
}

/// Whether `v[a..]` is all white space.
fn white_from(v: &Vec<char>, a: usize) -> (r: bool)
    requires
        a <= v@.len(),
    ensures
        r == all_white(v@.skip(a as int)),
{
    let mut k = a;
    while k < v.len()
        invariant
            a <= k <= v@.len(),
            forall|j: int| a <= j < k ==> is_white_space(v@[j]),
        decreases v@.len() - k,
    {
        if !is_whitespace(v[k]) {
            assert(v@.skip(a as int)[k - a] == v@[k as int]);
            return false;
        }
        k = k + 1;
    }
    assert forall|i: int| 0 <= i < v@.skip(a as int).len() implies is_white_space(#[trigger] v@.skip(a as int)[i]) by {
        assert(v@.skip(a as int)[i] == v@[a + i]);
    }
    true
}

/// Unquote a dex-txt `"..."` string literal, applying `\\` / `\"` / `\n` / `\uXXXX` escapes.
pub fn unquote_string_literal(lit: &str) -> (r: Result<String>)
    ensures
        match r {
            Ok(t) => spec_unquote(lit@) == Some(t@),
            Err(e) => spec_unquote(lit@) is None && e is Parse,
        },
{
    let v = chars_of(lit);
    if v.len() == 0 || v[0] != '"' {
        return Err(parse_error("expected string literal"));
    }
    let ghost s = v@.drop_first();
    let mut inner = String::new();
    let mut i: usize = 1;
    assert(inner@ =~= Seq::<char>::empty());
    while i < v.len()
        invariant
            1 <= i,
            v@ == lit@,
            v@.len() >= 1,
            v@[0] == '"',
            v@.len() <= usize::MAX,
            s == v@.drop_first(),
            i <= v@.len() + 0,
            spec_scan_quoted(s, 0, Seq::empty()) == spec_scan_quoted(s, i - 1, inner@),
        decreases v@.len() - i,
    {
        let c = v[i];
        assert(s[i - 1] == c);
        if c == '"' {
            if white_from(&v, i + 1) {
                proof {
                    assert(s.skip(i as int) =~= v@.skip(i + 1));
                }
                return unescape_string_content(inner.as_str());
            }
            proof {
                assert(s.skip(i as int) =~= v@.skip(i + 1));
            }
            return Err(parse_error("trailing junk in string literal"));
        }
        if c == '\\' {
            let ghost old_inner = inner@;
            push_char(&mut inner, '\\');
            if i + 1 < v.len() {
                let n = v[i + 1];
                assert(s[i as int] == n);
                push_char(&mut inner, n);
                let want: usize = if n == 'u' {
                    4
                } else if n == 'x' {
                    2
                } else {
                    0
                };
                let avail = v.len() - (i + 2);
                let got = if avail < want {
                    avail
                } else {
                    want
                };
                let ghost before = inner@;
                let mut k: usize = 0;
                while k < got
                    invariant
                        k <= got,
                        i + 2 + got <= v@.len() <= usize::MAX,
                        inner@ == before + v@.subrange(i + 2, i + 2 + k),
                    decreases got - k,
                {
                    push_char(&mut inner, v[i + 2 + k]);
                    assert(v@.subrange(i + 2, i + 2 + k + 1) =~= v@.subrange(i + 2, i + 2 + k).push(v@[i + 2 + k]));
                    k = k + 1;
                }
                proof {
                    assert(s.subrange(i + 1, i + 1 + got) =~= v@.subrange(i + 2, i + 2 + got));
                    assert(inner@ =~= old_inner + seq!['\\', n] + s.subrange(i + 1, i + 1 + got));
                }
                i = i + 2 + got;
            } else {
                return Err(parse_error("unterminated string literal"));
            }
        } else {
            push_char(&mut inner, c);
            i = i + 1;
        }
    }
    Err(parse_error("unterminated string literal"))
}

/// Whether `s` is a DEX type descriptor: a primitive letter, an array (`[...`) or a
/// class (`L...;`).
pub open spec fn spec_is_type_descriptor(s: Seq<char>) -> bool {
    (s.len() == 1 && (s[0] == 'Z' || s[0] == 'B' || s[0] == 'S' || s[0] == 'C' || s[0] == 'I' || s[0] == 'J'
        || s[0] == 'F' || s[0] == 'D' || s[0] == 'V')) || (s.len() > 0 && s[0] == '[') || (s.len() > 0
        && s[0] == 'L' && s[s.len() - 1] == ';')
}

/// Whether `s` is a DEX type descriptor (`I`, `[I`, `Ljava/lang/String;`, ...).
pub fn is_type_descriptor(s: &str) -> (r: bool)
    ensures
        r == spec_is_type_descriptor(s@),
{
    let v = chars_of(s);
    let n = v.len();
    if n == 0 {
        return false;
    }
    let c = v[0];
    (n == 1 && (c == 'Z' || c == 'B' || c == 'S' || c == 'C' || c == 'I' || c == 'J' || c == 'F' || c == 'D'
        || c == 'V')) || c == '[' || (c == 'L' && v[n - 1] == ';')
}

/// `s` without leading white space.
pub open spec fn trim_start(s: Seq<char>) -> Seq<char>
    decreases s.len(),
{
    if s.len() > 0 && is_white_space(s[0]) {
        trim_start(s.drop_first())
    } else {
        s
    }
}

/// `s` without trailing white space.
pub open spec fn trim_end(s: Seq<char>) -> Seq<char>
    decreases s.len(),
{
    if s.len() > 0 && is_white_space(s.last()) {
        trim_end(s.drop_last())
    } else {
        s
    }
}

/// `s` without leading or trailing white space.
pub open spec fn trim(s: Seq<char>) -> Seq<char> {
    trim_end(trim_start(s))
}

/// `out` with the trimmed `tok` added when it is not empty.
pub open spec fn push_token(out: Seq<Seq<char>>, tok: Seq<char>) -> Seq<Seq<char>> {
    if trim(tok).len() > 0 {
        out.push(trim(tok))
    } else {
        out
    }
}

/// Splitting array literal content at the commas that stand outside strings and
/// nested braces, scanned from `i` in state (`start`, `depth`, `in_str`, `escape`).
pub open spec fn split_from(
    s: Seq<char>,
    i: int,
    start: int,
    depth: int,
    in_str: bool,
    escape: bool,
    out: Seq<Seq<char>>,
) -> Seq<Seq<char>>
    decreases s.len() - i,
{
    if i < 0 || i >= s.len() {
        push_token(out, s.subrange(start, s.len() as int))
    } else if in_str {
        if escape {
            split_from(s, i + 1, start, depth, true, false, out)
        } else if s[i] == '\\' {
            split_from(s, i + 1, start, depth, true, true, out)
        } else if s[i] == '"' {
            split_from(s, i + 1, start, depth, false, false, out)
        } else {
            split_from(s, i + 1, start, depth, true, false, out)
        }
    } else if s[i] == '"' {
        split_from(s, i + 1, start, depth, true, false, out)
    } else if s[i] == '{' {
        split_from(s, i + 1, start, depth + 1, false, false, out)
    } else if s[i] == '}' {
        split_from(s, i + 1, start, depth - 1, false, false, out)
    } else if s[i] == ',' && depth == 0 {
        split_from(s, i + 1, i + 1, depth, false, false, push_token(out, s.subrange(start, i)))
    } else {
        split_from(s, i + 1, start, depth, false, false, out)
    }
}

/// The elements of array literal content, in order.
pub open spec fn spec_split_array_elems(s: Seq<char>) -> Seq<Seq<char>> {
    split_from(s, 0, 0, 0, false, false, Seq::empty())
}

/// The characters `v[a..b]` without leading or trailing white space.
pub(crate) fn trimmed(v: &Vec<char>, a: usize, b: usize) -> (r: (String, bool))
    requires
        a <= b <= v@.len(),
    ensures
        r.0@ == trim(v@.subrange(a as int, b as int)),
        r.1 == (r.0@.len() > 0),
{
    let mut x = a;
    while x < b && is_whitespace(v[x])
        invariant
            a <= x <= b <= v@.len(),
            trim_start(v@.subrange(x as int, b as int)) == trim_start(v@.subrange(a as int, b as int)),
        decreases b - x,
    {
        assert(v@.subrange(x as int, b as int).drop_first() =~= v@.subrange(x + 1, b as int));
        x = x + 1;
    }
    let mut y = b;
    while y > x && is_whitespace(v[y - 1])
        invariant
            x <= y <= b <= v@.len(),
            trim_end(v@.subrange(x as int, y as int)) == trim_end(v@.subrange(x as int, b as int)),
        decreases y,
    {
        assert(v@.subrange(x as int, y as int).drop_last() =~= v@.subrange(x as int, y - 1));
        y = y - 1;
    }
    let mut out = String::new();
    let mut k = x;
    assert(out@ =~= v@.subrange(x as int, x as int));
    while k < y
        invariant
            x <= k <= y <= v@.len(),
            out@ == v@.subrange(x as int, k as int),
        decreases y - k,
    {
        push_char(&mut out, v[k]);
        assert(v@.subrange(x as int, k + 1) =~= v@.subrange(x as int, k as int).push(v@[k as int]));
        k = k + 1;
    }
    (out, y > x)
}

/// Split the content of an array literal (without its braces) at the commas that stand
/// outside strings and nested braces; each element is trimmed and empty ones dropped.
pub fn split_array_elems(s: &str) -> (r: Vec<String>)
    requires
        s@.len() <= i64::MAX,
    ensures
        r@.len() == spec_split_array_elems(s@).len(),
        forall|i: int| 0 <= i < r@.len() ==> (#[trigger] r@[i])@ == spec_split_array_elems(s@)[i],
{
    let v = chars_of(s);
    let mut out: Vec<String> = Vec::new();
    let ghost mut outs: Seq<Seq<char>> = Seq::empty();
    let mut start: usize = 0;
    let mut depth: i64 = 0;
    let mut in_str = false;
    let mut escape = false;
    let mut i: usize = 0;
    while i < v.len()
        invariant
            v@ == s@,
            v@.len() <= i64::MAX,
            start <= i <= v@.len(),
            -(i as int) <= depth <= i,
            !in_str ==> !escape,
            out@.len() == outs.len(),
            forall|k: int| 0 <= k < out@.len() ==> (#[trigger] out@[k])@ == outs[k],
            spec_split_array_elems(s@) == split_from(v@, i as int, start as int, depth as int, in_str, escape, outs),
        decreases v@.len() - i,
    {
        let c = v[i];
        if in_str {
            if escape {
                escape = false;
            } else if c == '\\' {
                escape = true;
            } else if c == '"' {
                in_str = false;
            }
        } else if c == '"' {
            in_str = true;
        } else if c == '{' {
            depth = depth + 1;
        } else if c == '}' {
            depth = depth - 1;
        } else if c == ',' && depth == 0 {
            let (tok, nonempty) = trimmed(&v, start, i);
            if nonempty {
                proof {
                    outs = outs.push(tok@);
                }
                out.push(tok);
            } else {
                proof {
                    assert(tok@.len() == 0);
                }
            }
            start = i + 1;
        }
        i = i + 1;
    }
    let (tok, nonempty) = trimmed(&v, start, v.len());
    if nonempty {
        proof {
            outs = outs.push(tok@);
        }
        out.push(tok);
    }
    out
}

proof fn lemma_digit_char(d: nat)
    requires
        d < 16,
    ensures
        is_hex_digit(digit_char(d)),
        hex_digit_value(digit_char(d)) == d,
        digit_char(d) != '+',
{
}

proof fn lemma_hex4(v: nat)
    requires
        v < 0x10000,
    ensures
        hex4(v).len() == 4,
        all_hex(hex4(v)),
        unsigned_body(hex4(v)) == hex4(v),
        parse_hex_text(hex4(v)) == Some(v),
{
    let h = hex4(v);
    let d0 = (v / 4096) % 16;
    let d1 = (v / 256) % 16;
    let d2 = (v / 16) % 16;
    let d3 = v % 16;
    lemma_digit_char(d0);
    lemma_digit_char(d1);
    lemma_digit_char(d2);
    lemma_digit_char(d3);
    assert(all_hex(h));
    reveal_with_fuel(hex_value, 5);
    assert(h.drop_last() =~= seq![digit_char(d0), digit_char(d1), digit_char(d2)]);
    assert(h.drop_last().drop_last() =~= seq![digit_char(d0), digit_char(d1)]);
    assert(h.drop_last().drop_last().drop_last() =~= seq![digit_char(d0)]);
    assert(h.drop_last().drop_last().drop_last().drop_last() =~= Seq::<char>::empty());
    assert(hex_value(h) == ((d0 * 16 + d1) * 16 + d2) * 16 + d3);
    assert(((d0 * 16 + d1) * 16 + d2) * 16 + d3 == v) by (nonlinear_arith)
        requires
            v < 0x10000,
            d0 == (v / 4096) % 16,
            d1 == (v / 256) % 16,
            d2 == (v / 16) % 16,
            d3 == v % 16,
    ;
}

/// What every escaped character avoids: controls, line breaks and the separators.
pub open spec fn single_line_char(c: char) -> bool {
    !needs_unicode_escape(c) && c != '\n' && c != '\r' && c != '\t'
}

/// An escaped string holds no control character, no line break and no Unicode
/// line or paragraph separator: a literal always stays on one line.
pub proof fn escape_is_single_line(s: Seq<char>)
    ensures
        forall|i: int| 0 <= i < spec_escape(s).len() ==> single_line_char(#[trigger] spec_escape(s)[i]),
    decreases s.len(),
{
    if s.len() > 0 {
        escape_is_single_line(s.drop_first());
        let c = s[0];
        let e = escape_char(c);
        let r = spec_escape(s.drop_first());
        if needs_unicode_escape(c) && !(c == '\\' || c == '"' || c == '\n' || c == '\r' || c == '\t') {
            lemma_hex4((c as u32) as nat);
            assert forall|k: int| 0 <= k < 4 implies single_line_char(#[trigger] hex4((c as u32) as nat)[k]) by {
                assert(is_hex_digit(hex4((c as u32) as nat)[k]));
            }
        }
        assert forall|i: int| 0 <= i < spec_escape(s).len() implies single_line_char(#[trigger] spec_escape(s)[i]) by {
            if i < e.len() {
                assert(spec_escape(s)[i] == e[i]);
                if needs_unicode_escape(c) && !(c == '\\' || c == '"' || c == '\n' || c == '\r' || c == '\t') && i >= 2 {
                    assert(e[i] == hex4((c as u32) as nat)[i - 2]);
                }
            } else {
                assert(spec_escape(s)[i] == r[i - e.len()]);
            }
        }
    }
}

/// `r` with `c` in front, when there is an `r`.
pub open spec fn cons_opt(c: char, r: Option<Seq<char>>) -> Option<Seq<char>> {
    match r {
        Some(x) => Some(seq![c] + x),
        None => None,
    }
}

proof fn lemma_unescape_plain(c: char, x: Seq<char>)
    requires
        c != '\\',
    ensures
        spec_unescape(seq![c] + x) == cons_opt(c, spec_unescape(x)),
{
    let q = seq![c] + x;
    assert(q[0] == c);
    assert(q.drop_first() =~= x);
}

proof fn lemma_unescape_pair(n: char, x: Seq<char>)
    requires
        n == '\\' || n == '"' || n == 'n' || n == 'r' || n == 't',
    ensures
        spec_unescape(seq!['\\', n] + x) == cons_opt(
            if n == 'n' {
                '\n'
            } else if n == 'r' {
                '\r'
            } else if n == 't' {
                '\t'
            } else {
                n
            },
            spec_unescape(x),
        ),
{
    let q = seq!['\\', n] + x;
    assert(q[0] == '\\');
    assert(q[1] == n);
    assert(q.skip(2) =~= x);
}

proof fn lemma_unescape_unicode(c: char, x: Seq<char>)
    requires
        (c as u32) < 0x10000,
    ensures
        spec_unescape(seq!['\\', 'u'] + hex4((c as u32) as nat) + x) == cons_opt(c, spec_unescape(x)),
{
    let v = (c as u32) as nat;
    let q = seq!['\\', 'u'] + hex4(v) + x;
    lemma_hex4(v);
    assert(q[0] == '\\');
    assert(q[1] == 'u');
    assert(q.subrange(2, 6) =~= hex4(v));
    assert(q.skip(6) =~= x);
    vstd::utf8::char_is_scalar(c);
    vstd::utf8::char_u32_cast(c, c as u32);
    assert((v as u32) == c as u32);
}

proof fn lemma_unescape_escape(s: Seq<char>, t: Seq<char>)
    ensures
        spec_unescape(spec_escape(s) + t) == match spec_unescape(t) {
            Some(r) => Some(s + r),
            None => None::<Seq<char>>,
        },
    decreases s.len(),
{
    if s.len() == 0 {
        assert(spec_escape(s) + t =~= t);
        match spec_unescape(t) {
            Some(r) => {
                assert(s + r =~= r);
            },
            None => {},
        }
    } else {
        let c = s[0];
        let rest = s.drop_first();
        let x = spec_escape(rest) + t;
        lemma_unescape_escape(rest, t);
        let e = escape_char(c);
        assert(spec_escape(s) + t =~= e + x);
        if c == '\\' {
            lemma_unescape_pair('\\', x);
        } else if c == '"' {
            lemma_unescape_pair('"', x);
        } else if c == '\n' {
            lemma_unescape_pair('n', x);
        } else if c == '\r' {
            lemma_unescape_pair('r', x);
        } else if c == '\t' {
            lemma_unescape_pair('t', x);
        } else if needs_unicode_escape(c) {
            lemma_unescape_unicode(c, x);
            assert(e + x =~= seq!['\\', 'u'] + hex4((c as u32) as nat) + x);
        } else {
            lemma_unescape_plain(c, x);
        }
        match spec_unescape(t) {
            Some(r) => {
                assert(seq![c] + (rest + r) =~= s + r);
            },
            None => {},
        }
    }
}

proof fn lemma_scan_escaped(a: Seq<char>, s: Seq<char>, rest: Seq<char>, inner: Seq<char>)
    ensures
        spec_scan_quoted(a + spec_escape(s) + seq!['"'] + rest, a.len() as int, inner) == Some(
            (inner + spec_escape(s), (a.len() + spec_escape(s).len()) as int),
        ),
    decreases s.len(),
{
    let q = a + spec_escape(s) + seq!['"'] + rest;
    let i = a.len() as int;
    if s.len() == 0 {
        assert(q[i] == '"');
        assert(inner + spec_escape(s) =~= inner);
    } else {
        let c = s[0];
        let e = escape_char(c);
        let tail = s.drop_first();
        let a2 = a + e;
        assert(q =~= a2 + spec_escape(tail) + seq!['"'] + rest);
        lemma_scan_escaped(a2, tail, rest, inner + e);
        assert(inner + e + spec_escape(tail) =~= inner + spec_escape(s));
        assert(q[i] == e[0]);
        if c == '\\' || c == '"' || c == '\n' || c == '\r' || c == '\t' {
            assert(q[i + 1] == e[1]);
            assert(q.subrange(i + 2, i + 2) =~= Seq::<char>::empty());
            assert(inner + seq!['\\', e[1]] + q.subrange(i + 2, i + 2) =~= inner + e);
        } else if needs_unicode_escape(c) {
            let v = (c as u32) as nat;
            lemma_hex4(v);
            assert(q[i + 1] == 'u');
            assert(q.subrange(i + 2, i + 6) =~= hex4(v));
            assert(inner + seq!['\\', 'u'] + q.subrange(i + 2, i + 6) =~= inner + e);
        } else {
            assert(inner.push(c) =~= inner + e);
        }
    }
}

/// Escaping a string, quoting it and unquoting the literal (with any white space after
/// the closing quote) gives the string back; so does unescaping the escaped text.
pub proof fn escape_unquote_roundtrip(s: Seq<char>, ws: Seq<char>)
    requires
        all_white(ws),
    ensures
        spec_unescape(spec_escape(s)) == Some(s),
        spec_unquote(seq!['"'] + spec_escape(s) + seq!['"'] + ws) == Some(s),
{
    lemma_unescape_escape(s, Seq::empty());
    assert(spec_escape(s) + Seq::<char>::empty() =~= spec_escape(s));
    assert(s + Seq::<char>::empty() =~= s);
    let lit = seq!['"'] + spec_escape(s) + seq!['"'] + ws;
    let body = lit.drop_first();
    assert(body =~= Seq::<char>::empty() + spec_escape(s) + seq!['"'] + ws);
    lemma_scan_escaped(Seq::empty(), s, ws, Seq::empty());
    assert(Seq::<char>::empty() + spec_escape(s) =~= spec_escape(s));
    assert(body.skip(spec_escape(s).len() + 1int) =~= ws);
}

proof fn lemma_hex_small(s: Seq<char>)
    requires
        s.len() == 2,
    ensures
        parse_hex_text(s) matches Some(v) ==> v < 256,
{
    let b = unsigned_body(s);
    reveal_with_fuel(hex_value, 3);
    if parse_hex_text(s) is Some {
        assert(is_hex_digit(b[0]));
        assert(hex_digit_value(b[0]) <= 15);
        if b.len() == 2 {
            assert(is_hex_digit(b[1]));
            assert(hex_digit_value(b[1]) <= 15);
            assert(b.drop_last().drop_last() =~= Seq::<char>::empty());
            assert(b.drop_last().last() == b[0]);
            assert(hex_value(b.drop_last()) == hex_digit_value(b[0]));
            assert(hex_value(b) == hex_value(b.drop_last()) * 16 + hex_digit_value(b[1]));
        } else {
            assert(b.drop_last() =~= Seq::<char>::empty());
            assert(hex_value(b) == hex_digit_value(b[0]));
        }
    }
}

} // verus!
