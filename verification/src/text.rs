//! Character and string primitives from std that the parsers build on, and the
//! number rendering used in error messages.

use vstd::prelude::*;
use vstd::std_specs::iter::IteratorSpec;
use vstd::string::StringExecFns;
use vstd::utf8::is_scalar;

verus! {

/// Calls `char::from_u32`, which gives `Some` exactly for Unicode scalar values
/// (at most 0x10FFFF and outside the surrogate range 0xD800..=0xDFFF).
#[verifier::external_body]
pub(crate) fn char_from_u32(c: u32) -> (r: Option<char>)
    ensures
        r == if is_scalar(c) {
            Some(c as char)
        } else {
            None::<char>
        },
{
    char::from_u32(c)
}

/// Calls `String::push`, which appends one character.
#[verifier::external_body]
pub(crate) fn push_char(s: &mut String, c: char)
    ensures
        final(s)@ == old(s)@.push(c),
{
    s.push(c)
}

/// Append the characters of `t` to `s`.
pub(crate) fn push_str(s: &mut String, t: &str)
    ensures
        final(s)@ == old(s)@ + t@,
{
    s.append(t)
}

/// The digit for `d` (below 16): `0`-`9`, then `a`-`f`.
pub open spec fn digit_char(d: nat) -> char {
    if d < 10 {
        (d + 48) as char
    } else {
        (d - 10 + 97) as char
    }
}

/// Digits of `n` in base `b` (2..=16), most significant first, no leading zeros
/// ("0" for zero).
pub open spec fn radix(n: nat, b: nat) -> Seq<char>
    decreases n,
{
    if b < 2 || n < b {
        seq![digit_char(n % 16)]
    } else {
        proof {
            assert(n / b < n) by (nonlinear_arith)
                requires
                    b >= 2,
                    n >= b,
            ;
        }
        radix(n / b, b).push(digit_char(n % b))
    }
}

/// Decimal digits of `n`.
pub open spec fn decimal(n: nat) -> Seq<char> {
    radix(n, 10)
}

/// Lowercase hexadecimal digits of `n`.
pub open spec fn hex(n: nat) -> Seq<char> {
    radix(n, 16)
}

/// Append the digits of `n` in base `b` (10 or 16) to `s`.
pub fn push_number(s: &mut String, n: u64, b: u64)
    requires
        b == 10 || b == 16,
    ensures
        final(s)@ == old(s)@ + radix(n as nat, b as nat),
{
    let mut digits: Vec<char> = Vec::new();
    let mut m: u64 = n;
    loop
        invariant_except_break
            m <= n,
            b == 10 || b == 16,
            radix(n as nat, b as nat) == radix(m as nat, b as nat) + digits@.reverse(),
        ensures
            radix(n as nat, b as nat) == digits@.reverse(),
        decreases m,
    {
        let d: u64 = m % b;
        let code: u32 = if d < 10 {
            (d + 48) as u32
        } else {
            (d - 10 + 97) as u32
        };
        let c = char_from_u32(code);
        let ch = match c {
            Some(ch) => ch,
            None => '0',
        };
        proof {
            assert(is_scalar(code)) by {
                assert(code <= 102);
            }
            assert(ch == digit_char(d as nat));
        }
        let ghost old_digits = digits@;
        digits.push(ch);
        if m < b {
            proof {
                assert(radix(m as nat, b as nat) == seq![digit_char((m % 16) as nat)]);
                assert(m % 16 == m % b);
                assert(digits@.reverse() =~= seq![ch] + old_digits.reverse());
                assert(radix(n as nat, b as nat) =~= digits@.reverse());
            }
            break;
        }
        proof {
            assert(radix(m as nat, b as nat) == radix((m / b) as nat, b as nat).push(digit_char((m % b) as nat)));
            assert(digits@.reverse() =~= seq![ch] + old_digits.reverse());
            assert(radix(n as nat, b as nat) =~= radix((m / b) as nat, b as nat) + digits@.reverse());
        }
        m = m / b;
    }
    let ghost start = s@;
    let mut i = digits.len();
    while i > 0
        invariant
            i <= digits@.len(),
            s@ == start + digits@.reverse().subrange(0, digits@.len() - i),
        decreases i,
    {
        i = i - 1;
        push_char(s, digits[i]);
        proof {
            assert(digits@.reverse()[digits@.len() - 1 - i] == digits@[i as int]);
            assert(s@ =~= start + digits@.reverse().subrange(0, digits@.len() - i));
        }
    }
    proof {
        assert(digits@.reverse().subrange(0, digits@.len() as int) =~= digits@.reverse());
    }
}

/// `prefix` followed by the decimal digits of `n`.
pub fn with_number(prefix: &str, n: u64) -> (s: String)
    ensures
        s@ == prefix@ + decimal(n as nat),
{
    let mut out = String::new();
    push_str(&mut out, prefix);
    push_number(&mut out, n, 10);
    out
}


/// The characters of `s`, in order.
pub fn chars_of(s: &str) -> (r: Vec<char>)
    ensures
        r@ == s@,
{
    let mut out: Vec<char> = Vec::new();
    let ghost chars = s@;
    let mut it = s.chars();
    let ghost mut k: int = 0;
    loop
        invariant
            0 <= k <= chars.len(),
            chars == s@,
            it.obeys_prophetic_iter_laws(),
            it.remaining() == chars.skip(k),
            out@ == chars.take(k),
        decreases chars.len() - k,
    {
        let ghost old_it = it;
        let next = it.next();
        proof {
            assert(old_it.remaining() == chars.skip(k));
        }
        match next {
            None => {
                assert(chars.skip(k).len() == 0);
                assert(chars.take(k) =~= chars);
                return out;
            },
            Some(ch) => {
                out.push(ch);
                assert(chars.take(k + 1) =~= chars.take(k).push(ch));
                proof {
                    k = k + 1;
                }
                assert(chars.skip(k - 1).drop_first() =~= chars.skip(k));
            },
        }
    }
}

/// Whether `a` and `b` hold the same characters.
pub fn same_text(a: &str, b: &str) -> (r: bool)
    ensures
        r == (a@ == b@),
{
    let x = chars_of(a);
    let y = chars_of(b);
    if x.len() != y.len() {
        return false;
    }
    let mut i: usize = 0;
    while i < x.len()
        invariant
            x@.len() == y@.len(),
            x@ == a@,
            y@ == b@,
            i <= x@.len(),
            forall|k: int| 0 <= k < i ==> x@[k] == y@[k],
        decreases x@.len() - i,
    {
        if x[i] != y[i] {
            proof {
                assert(a@[i as int] != b@[i as int]);
            }
            return false;
        }
        i = i + 1;
    }
    proof {
        assert(x@ =~= y@);
    }
    true
}

/// The Unicode `White_Space` characters.
pub open spec fn is_white_space(c: char) -> bool {
    let v = c as u32;
    (0x09 <= v <= 0x0d) || v == 0x20 || v == 0x85 || v == 0xa0 || v == 0x1680 || (0x2000 <= v
        <= 0x200a) || v == 0x2028 || v == 0x2029 || v == 0x202f || v == 0x205f || v == 0x3000
}

/// Whether `c` has the Unicode `White_Space` property (what `char::is_whitespace` tells).
pub(crate) fn is_whitespace(c: char) -> (r: bool)
    ensures
        r == is_white_space(c),
{
    let v = c as u32;
    (0x09 <= v && v <= 0x0d) || v == 0x20 || v == 0x85 || v == 0xa0 || v == 0x1680 || (0x2000 <= v && v <= 0x200a)
        || v == 0x2028 || v == 0x2029 || v == 0x202f || v == 0x205f || v == 0x3000
}

} // verus!
