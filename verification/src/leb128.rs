//! LEB128 (Little-Endian Base 128) encoding for DEX: uleb128, sleb128 and
//! uleb128p1, plus little-endian fixed-width reads and writes.

use vstd::prelude::*;

verus! {

/// 128 to the power `k`.
pub open spec fn p128(k: nat) -> nat
    decreases k,
{
    if k == 0 {
        1
    } else {
        128 * p128((k - 1) as nat)
    }
}

/// The number that the 7-bit groups of `s` spell, least significant group first
/// (the high bit of every byte is ignored).
pub open spec fn uleb_sum(s: Seq<u8>) -> nat
    decreases s.len(),
{
    if s.len() == 0 {
        0
    } else {
        (s[0] % 128) as nat + 128 * uleb_sum(s.drop_first())
    }
}

/// Length of the LEB128 item at the start of `s`, scanning from position `j`:
/// the first byte at or after `j` without the continuation bit ends it, and an
/// item may not be longer than five bytes.
pub open spec fn leb_len_from(s: Seq<u8>, j: nat) -> Option<nat>
    decreases 5 - j,
{
    if j >= 5 || j >= s.len() {
        None
    } else if s[j as int] < 128 {
        Some(j + 1)
    } else {
        leb_len_from(s, j + 1)
    }
}

/// The bytes of `data` from `offset` on (empty when `offset` is past the end).
pub open spec fn suffix(data: Seq<u8>, offset: int) -> Seq<u8> {
    if 0 <= offset <= data.len() {
        data.subrange(offset, data.len() as int)
    } else {
        Seq::empty()
    }
}

/// Two's-complement reading of the low 32 bits of `x`.
pub open spec fn wrap_i32(x: int) -> int {
    let m = x % 0x1_0000_0000;
    if m >= 0x8000_0000 {
        m - 0x1_0000_0000
    } else {
        m
    }
}

/// What `read_uleb128(data, offset)` gives back.
pub open spec fn spec_read_uleb128(data: Seq<u8>, offset: int) -> Option<(u32, usize)> {
    let s = suffix(data, offset);
    match leb_len_from(s, 0) {
        Some(n) => Some(((uleb_sum(s.take(n as int)) % 0x1_0000_0000) as u32, n as usize)),
        None => None,
    }
}

/// Signed value of a complete sleb128 item `s` (its last byte has no continuation bit):
/// sign-extended from bit `7 * len` when that is below 32, else the low 32 bits.
pub open spec fn sleb_value(s: Seq<u8>) -> int {
    let n = s.len();
    if 7 * n < 32 && s[n - 1] % 128 >= 64 {
        uleb_sum(s) - p128(n)
    } else {
        wrap_i32(uleb_sum(s) as int)
    }
}

/// What `read_sleb128(data, offset)` gives back.
pub open spec fn spec_read_sleb128(data: Seq<u8>, offset: int) -> Option<(i32, usize)> {
    let s = suffix(data, offset);
    match leb_len_from(s, 0) {
        Some(n) => Some((sleb_value(s.take(n as int)) as i32, n as usize)),
        None => None,
    }
}

/// What `read_uleb128p1(data, offset)` gives back: the stored value minus one.
pub open spec fn spec_read_uleb128p1(data: Seq<u8>, offset: int) -> Option<(i32, usize)> {
    match spec_read_uleb128(data, offset) {
        Some((v, n)) => Some((wrap_i32(v - 1) as i32, n)),
        None => None,
    }
}

/// Canonical unsigned LEB128 encoding of `v`.
pub open spec fn uleb_encode(v: nat) -> Seq<u8>
    decreases v,
{
    if v < 128 {
        seq![v as u8]
    } else {
        seq![(v % 128 + 128) as u8] + uleb_encode(v / 128)
    }
}

/// Whether the signed encoding of `v` ends after the group `v % 128`.
pub open spec fn sleb_done(v: int) -> bool {
    (v / 128 == 0 && v % 128 < 64) || (v / 128 == -1 && v % 128 >= 64)
}

pub open spec fn abs(v: int) -> nat {
    if v < 0 {
        (-v) as nat
    } else {
        v as nat
    }
}

/// Canonical signed LEB128 encoding of `v`.
pub open spec fn sleb_encode(v: int) -> Seq<u8>
    decreases abs(v),
{
    if sleb_done(v) {
        seq![(v % 128) as u8]
    } else {
        seq![(v % 128 + 128) as u8] + sleb_encode(v / 128)
    }
}

/// Little-endian value of two bytes.
pub open spec fn le16(b0: u8, b1: u8) -> int {
    b0 + 256 * b1
}

/// Little-endian value of four bytes.
pub open spec fn le32(b0: u8, b1: u8, b2: u8, b3: u8) -> int {
    b0 + 256 * b1 + 65536 * b2 + 16777216 * b3
}

/// Little-endian `u16` at `off` of `s`.
pub open spec fn u16_at(s: Seq<u8>, off: int) -> u16 {
    le16(s[off], s[off + 1]) as u16
}

/// Little-endian `u32` at `off` of `s`.
pub open spec fn u32_at(s: Seq<u8>, off: int) -> u32 {
    le32(s[off], s[off + 1], s[off + 2], s[off + 3]) as u32
}

/// The four little-endian bytes of `v`.
pub open spec fn u32_le_bytes(v: u32) -> Seq<u8> {
    seq![(v % 256) as u8, ((v / 256) % 256) as u8, ((v / 65536) % 256) as u8, (v / 16777216) as u8]
}

/// What `read_u16(data, offset)` gives back.
pub open spec fn spec_read_u16(data: Seq<u8>, offset: int) -> Option<u16> {
    if 0 <= offset && offset + 2 <= data.len() {
        Some(u16_at(data, offset))
    } else {
        None
    }
}

/// What `read_u32(data, offset)` gives back.
pub open spec fn spec_read_u32(data: Seq<u8>, offset: int) -> Option<u32> {
    if 0 <= offset && offset + 4 <= data.len() {
        Some(u32_at(data, offset))
    } else {
        None
    }
}

proof fn lemma_uleb_sum_push(s: Seq<u8>, b: u8)
    ensures
        uleb_sum(s.push(b)) == uleb_sum(s) + (b % 128) as nat * p128(s.len()),
    decreases s.len(),
{
    if s.len() == 0 {
        assert(s.push(b).drop_first() =~= Seq::<u8>::empty());
        assert(uleb_sum(Seq::<u8>::empty()) == 0);
    } else {
        assert(s.push(b).drop_first() =~= s.drop_first().push(b));
        lemma_uleb_sum_push(s.drop_first(), b);
        assert(p128(s.len()) == 128 * p128((s.len() - 1) as nat));
        assert(128 * ((b % 128) as nat * p128((s.len() - 1) as nat)) == (b % 128) as nat * (128
            * p128((s.len() - 1) as nat))) by (nonlinear_arith);
    }
}

proof fn lemma_p128_values()
    ensures
        p128(0) == 1,
        p128(1) == 128,
        p128(2) == 16384,
        p128(3) == 2097152,
        p128(4) == 268435456,
        p128(5) == 34359738368,
{
    reveal_with_fuel(p128, 6);
}

proof fn lemma_p128_pos(k: nat)
    ensures
        p128(k) >= 1,
    decreases k,
{
    if k > 0 {
        lemma_p128_pos((k - 1) as nat);
    }
}

proof fn lemma_uleb_sum_bound(s: Seq<u8>)
    ensures
        uleb_sum(s) < p128(s.len()),
    decreases s.len(),
{
    if s.len() > 0 {
        lemma_uleb_sum_bound(s.drop_first());
    }
}

proof fn lemma_leb_len_bounds(s: Seq<u8>, j: nat)
    ensures
        leb_len_from(s, j) matches Some(k) ==> j < k <= 5 && k <= s.len(),
    decreases 5 - j,
{
    if j < 5 && j < s.len() && s[j as int] >= 128 {
        lemma_leb_len_bounds(s, j + 1);
    }
}

/// A successful LEB128 read consumes between one and five bytes, all inside `data`.
pub proof fn lemma_read_leb_consumed(data: Seq<u8>, offset: int)
    ensures
        spec_read_uleb128(data, offset) matches Some((_, n)) ==> 1 <= n <= 5 && 0 <= offset
            && offset + n <= data.len(),
        spec_read_sleb128(data, offset) matches Some((_, n)) ==> 1 <= n <= 5 && 0 <= offset
            && offset + n <= data.len(),
        spec_read_uleb128p1(data, offset) matches Some((_, n)) ==> 1 <= n <= 5 && 0 <= offset
            && offset + n <= data.len(),
{
    lemma_leb_len_bounds(suffix(data, offset), 0);
}

proof fn lemma_leb_len_found(s: Seq<u8>, j: nat, k: nat)
    requires
        j <= k < 5,
        k < s.len(),
        forall|m: int| j <= m < k ==> s[m] >= 128,
        s[k as int] < 128,
    ensures
        leb_len_from(s, j) == Some(k + 1),
    decreases k - j,
{
    if j < k {
        lemma_leb_len_found(s, j + 1, k);
    }
}

proof fn lemma_leb_len_none(s: Seq<u8>, j: nat, e: nat)
    requires
        j <= e,
        e == 5 || e == s.len(),
        e <= s.len(),
        forall|m: int| j <= m < e ==> s[m] >= 128,
    ensures
        leb_len_from(s, j) == None::<nat>,
    decreases e - j,
{
    if j < e {
        lemma_leb_len_none(s, j + 1, e);
    }
}

/// Read unsigned LEB128 at `offset`; returns `(value, bytes consumed)`.
///
/// At most five bytes are read; bits that do not fit in 32 are dropped.
pub fn read_uleb128(data: &[u8], offset: usize) -> (r: Option<(u32, usize)>)
    ensures
        r == spec_read_uleb128(data@, offset as int),
        r matches Some((_, n)) ==> 1 <= n <= 5 && offset + n <= data@.len(),
{
    let ghost s = suffix(data@, offset as int);
    proof {
        lemma_read_leb_consumed(data@, offset as int);
    }
    if offset >= data.len() {
        proof {
            lemma_leb_len_none(s, 0, 0);
        }
        return None;
    }
    let end = if data.len() - offset > 5 {
        offset + 5
    } else {
        data.len()
    };
    let mut result: u64 = 0;
    let mut mult: u64 = 1;
    let mut i = offset;
    while i < end
        invariant
            offset <= i <= end <= data.len(),
            end - offset <= 5,
            end - offset == 5 || end == data.len(),
            s == data@.subrange(offset as int, data@.len() as int),
            mult == p128((i - offset) as nat),
            result == uleb_sum(data@.subrange(offset as int, i as int)),
            forall|m: int| offset <= m < i ==> data@[m] >= 128,
        decreases end - i,
    {
        let b = data[i];
        proof {
            lemma_uleb_sum_bound(data@.subrange(offset as int, i as int));
            assert(data@.subrange(offset as int, i + 1) =~= data@.subrange(
                offset as int,
                i as int,
            ).push(b));
            lemma_uleb_sum_push(data@.subrange(offset as int, i as int), b);
            lemma_p128_values();
            assert(mult <= 268435456);
            assert(b & 0x7f == b % 128) by (bit_vector);
            assert((b & 0x80 == 0) == (b < 128)) by (bit_vector);
            assert((b % 128) as int * mult <= 127 * 268435456) by (nonlinear_arith)
                requires
                    mult <= 268435456,
            ;
        }
        result = result + (b & 0x7f) as u64 * mult;
        i += 1;
        if b & 0x80 == 0 {
            proof {
                lemma_leb_len_found(s, 0, (i - 1 - offset) as nat);
                assert(s.take((i - offset) as int) =~= data@.subrange(offset as int, i as int));
            }
            return Some(((result % 0x1_0000_0000) as u32, i - offset));
        }
        mult = mult * 128;
    }
    proof {
        lemma_leb_len_none(s, 0, (end - offset) as nat);
    }
    None
}

/// Read signed LEB128 at `offset`; returns `(value, bytes consumed)`.
pub fn read_sleb128(data: &[u8], offset: usize) -> (r: Option<(i32, usize)>)
    ensures
        r == spec_read_sleb128(data@, offset as int),
        r matches Some((_, n)) ==> 1 <= n <= 5 && offset + n <= data@.len(),
{
    let ghost s = suffix(data@, offset as int);
    proof {
        lemma_read_leb_consumed(data@, offset as int);
    }
    if offset >= data.len() {
        proof {
            lemma_leb_len_none(s, 0, 0);
        }
        return None;
    }
    let end = if data.len() - offset > 5 {
        offset + 5
    } else {
        data.len()
    };
    let mut result: i64 = 0;
    let mut mult: i64 = 1;
    let mut i = offset;
    while i < end
        invariant
            offset <= i <= end <= data.len(),
            end - offset <= 5,
            end - offset == 5 || end == data.len(),
            s == data@.subrange(offset as int, data@.len() as int),
            mult == p128((i - offset) as nat),
            result == uleb_sum(data@.subrange(offset as int, i as int)),
            forall|m: int| offset <= m < i ==> data@[m] >= 128,
        decreases end - i,
    {
        let b = data[i];
        let ghost before = data@.subrange(offset as int, i as int);
        proof {
            lemma_uleb_sum_bound(before);
            assert(data@.subrange(offset as int, i + 1) =~= before.push(b));
            lemma_uleb_sum_push(before, b);
            lemma_p128_values();
            assert(mult <= 268435456);
            assert(b & 0x7f == b % 128) by (bit_vector);
            assert((b & 0x80 == 0) == (b < 128)) by (bit_vector);
            assert(b < 128 ==> (((b & 0x40) != 0) == (b >= 64))) by (bit_vector);
            assert((b % 128) as int * mult <= 127 * 268435456) by (nonlinear_arith)
                requires
                    mult <= 268435456,
            ;
        }
        result = result + (b & 0x7f) as i64 * mult;
        i += 1;
        if b & 0x80 == 0 {
            let n = i - offset;
            let ghost item = data@.subrange(offset as int, i as int);
            proof {
                lemma_leb_len_found(s, 0, (n - 1) as nat);
                assert(s.take(n as int) =~= item);
                assert(item.len() == n);
                assert(item[n - 1] == b);
                lemma_uleb_sum_bound(item);
            }
            let v: i32 = if n < 5 {
                if b & 0x40 != 0 {
                    (result - mult * 128) as i32
                } else {
                    result as i32
                }
            } else {
                let m = result % 0x1_0000_0000;
                if m >= 0x8000_0000 {
                    (m - 0x1_0000_0000) as i32
                } else {
                    m as i32
                }
            };
            return Some((v, n));
        }
        mult = mult * 128;
    }
    proof {
        lemma_leb_len_none(s, 0, (end - offset) as nat);
    }
    None
}

/// uleb128p1: the value stored is (encoded - 1), so 0 reads as -1 and 1 as 0.
pub fn read_uleb128p1(data: &[u8], offset: usize) -> (r: Option<(i32, usize)>)
    ensures
        r == spec_read_uleb128p1(data@, offset as int),
        r matches Some((_, n)) ==> 1 <= n <= 5 && offset + n <= data@.len(),
{
    proof {
        lemma_read_leb_consumed(data@, offset as int);
    }
    match read_uleb128(data, offset) {
        Some((v, n)) => {
            let w: i32 = if v == 0 {
                -1
            } else if v - 1 >= 0x8000_0000 {
                ((v - 1) as i64 - 0x1_0000_0000) as i32
            } else {
                (v - 1) as i32
            };
            Some((w, n))
        },
        None => None,
    }
}

pub proof fn lemma_uleb_encode_len(v: nat)
    ensures
        uleb_encode(v).len() >= 1,
        v < 0x1_0000_0000 ==> uleb_encode(v).len() <= 5,
        v < p128(4) ==> uleb_encode(v).len() <= 4,
        v < p128(3) ==> uleb_encode(v).len() <= 3,
        v < p128(2) ==> uleb_encode(v).len() <= 2,
        v < p128(1) ==> uleb_encode(v).len() <= 1,
    decreases v,
{
    lemma_p128_values();
    if v >= 128 {
        lemma_uleb_encode_len(v / 128);
    }
}

/// Encode unsigned LEB128.
pub fn write_uleb128(value: u32) -> (out: Vec<u8>)
    ensures
        out@ == uleb_encode(value as nat),
        1 <= out@.len() <= 5,
{
    let mut out: Vec<u8> = Vec::new();
    let mut v = value;
    proof {
        lemma_uleb_encode_len(value as nat);
    }
    loop
        invariant
            out@ + uleb_encode(v as nat) == uleb_encode(value as nat),
            1 <= uleb_encode(value as nat).len() <= 5,
        decreases v,
    {
        let mut byte = (v % 128) as u8;
        let rest = v / 128;
        if rest != 0 {
            byte = byte + 0x80;
        }
        let ghost old_out = out@;
        out.push(byte);
        if rest == 0 {
            assert(out@ =~= old_out + uleb_encode(v as nat));
            return out;
        }
        assert(old_out + uleb_encode(v as nat) =~= out@ + uleb_encode(rest as nat));
        v = rest;
    }
}

/// Largest magnitude measure: a negative value's encoding continues with `v / 128`.
proof fn lemma_sleb_step(v: int)
    ensures
        !sleb_done(v) ==> abs(v / 128) < abs(v),
        v / 128 * 128 + v % 128 == v,
        0 <= v % 128 < 128,
{
}

/// Encode signed LEB128.
pub fn write_sleb128(value: i32) -> (out: Vec<u8>)
    ensures
        out@ == sleb_encode(value as int),
{
    let mut out: Vec<u8> = Vec::new();
    let mut v: i64 = value as i64;
    loop
        invariant
            out@ + sleb_encode(v as int) == sleb_encode(value as int),
            -0x8000_0000 <= v < 0x8000_0000,
        decreases abs(v as int),
    {
        proof {
            lemma_sleb_step(v as int);
        }
        let q: i64 = if v >= 0 {
            v / 128
        } else {
            -((-(v + 1)) / 128) - 1
        };
        assert(q == v / 128);
        let low: i64 = v - q * 128;
        assert(low == v % 128);
        let done = (q == 0 && low < 64) || (q == -1 && low >= 64);
        let ghost old_out = out@;
        if done {
            out.push(low as u8);
            assert(out@ =~= old_out + sleb_encode(v as int));
            return out;
        }
        out.push((low + 128) as u8);
        assert(old_out + sleb_encode(v as int) =~= out@ + sleb_encode(q as int));
        v = q;
    }
}

/// Encode uleb128p1: stores `(value + 1)` as uleb128, so `-1` becomes `0`.
pub fn write_uleb128p1(value: i32) -> (out: Vec<u8>)
    ensures
        out@ == uleb_encode(((value as int + 1) % 0x1_0000_0000) as nat),
{
    let stored: u32 = if value == -1 {
        0
    } else if value < 0 {
        (value as i64 + 0x1_0000_0001) as u32
    } else {
        value as u32 + 1
    };
    write_uleb128(stored)
}

/// Write `value` little-endian into `data[offset..offset + 4]`.
pub fn write_u32(data: &mut [u8], offset: usize, value: u32)
    requires
        offset + 4 <= old(data)@.len(),
    ensures
        final(data)@ == old(data)@.subrange(0, offset as int) + u32_le_bytes(value) + old(
            data,
        )@.subrange(offset + 4, old(data)@.len() as int),
{
    data[offset] = (value % 256) as u8;
    data[offset + 1] = ((value / 256) % 256) as u8;
    data[offset + 2] = ((value / 65536) % 256) as u8;
    data[offset + 3] = (value / 16777216) as u8;
    assert(data@ =~= old(data)@.subrange(0, offset as int) + u32_le_bytes(value) + old(
        data,
    )@.subrange(offset + 4, old(data)@.len() as int));
}

/// Read a little-endian `u16` at `offset`.
pub fn read_u16(data: &[u8], offset: usize) -> (r: Option<u16>)
    ensures
        r == spec_read_u16(data@, offset as int),
{
    if offset > data.len() || data.len() - offset < 2 {
        return None;
    }
    Some((data[offset] as u16) + (data[offset + 1] as u16) * 256)
}

/// Read a little-endian `u32` at `offset`.
pub fn read_u32(data: &[u8], offset: usize) -> (r: Option<u32>)
    ensures
        r == spec_read_u32(data@, offset as int),
{
    if offset > data.len() || data.len() - offset < 4 {
        return None;
    }
    Some(
        (data[offset] as u32) + (data[offset + 1] as u32) * 256 + (data[offset + 2] as u32) * 65536
            + (data[offset + 3] as u32) * 16777216,
    )
}


/// Shape of a canonical unsigned encoding: every byte but the last carries the
/// continuation bit, and the groups spell `v`.
proof fn lemma_uleb_encode_shape(v: nat)
    ensures
        uleb_encode(v).len() >= 1,
        forall|j: int| 0 <= j < uleb_encode(v).len() - 1 ==> uleb_encode(v)[j] >= 128,
        uleb_encode(v)[uleb_encode(v).len() - 1] < 128,
        uleb_sum(uleb_encode(v)) == v,
    decreases v,
{
    if v >= 128 {
        lemma_uleb_encode_shape(v / 128);
        let e = uleb_encode(v);
        let t = uleb_encode(v / 128);
        assert(e.drop_first() =~= t);
        assert forall|j: int| 0 <= j < e.len() - 1 implies e[j] >= 128 by {
            if j > 0 {
                assert(e[j] == t[j - 1]);
            }
        }
        assert(e[0] == (v % 128 + 128) as u8);
        assert(uleb_sum(e) == (e[0] % 128) as nat + 128 * uleb_sum(t));
    } else {
        let e = uleb_encode(v);
        assert(e.drop_first() =~= Seq::<u8>::empty());
        assert(uleb_sum(e) == (e[0] % 128) as nat + 128 * uleb_sum(Seq::<u8>::empty()));
    }
}

/// Reading back what `write_uleb128` wrote gives the value and the number of
/// bytes written, whatever follows the encoding.
pub proof fn uleb128_roundtrip(v: u32, rest: Seq<u8>)
    ensures
        spec_read_uleb128(uleb_encode(v as nat) + rest, 0) == Some(
            (v, uleb_encode(v as nat).len() as usize),
        ),
{
    let e = uleb_encode(v as nat);
    let d = e + rest;
    lemma_uleb_encode_shape(v as nat);
    lemma_uleb_encode_len(v as nat);
    assert(suffix(d, 0) =~= d);
    lemma_leb_len_found(d, 0, (e.len() - 1) as nat);
    assert(d.take(e.len() as int) =~= e);
}

/// Magnitude bound that keeps a signed encoding within `k + 1` bytes.
proof fn lemma_sleb_encode_len(v: int, k: nat)
    requires
        -64 * p128(k) <= v < 64 * p128(k),
    ensures
        sleb_encode(v).len() <= k + 1,
        sleb_encode(v).len() >= 1,
    decreases k,
{
    lemma_sleb_step(v);
    if !sleb_done(v) {
        if k == 0 {
            assert(p128(0) == 1);
            assert(false);
        } else {
            assert(p128(k) == 128 * p128((k - 1) as nat));
            lemma_sleb_encode_len(v / 128, (k - 1) as nat);
        }
    }
}

/// Shape of a canonical signed encoding: continuation bits on all but the last
/// byte, and the groups spell `v` plus `128^len` when `v` is negative.
proof fn lemma_sleb_encode_shape(v: int)
    ensures
        sleb_encode(v).len() >= 1,
        forall|j: int| 0 <= j < sleb_encode(v).len() - 1 ==> sleb_encode(v)[j] >= 128,
        sleb_encode(v)[sleb_encode(v).len() - 1] < 128,
        (sleb_encode(v)[sleb_encode(v).len() - 1] >= 64) == (v < 0),
        uleb_sum(sleb_encode(v)) == if v < 0 {
            v + p128(sleb_encode(v).len())
        } else {
            v
        },
    decreases abs(v),
{
    lemma_sleb_step(v);
    let e = sleb_encode(v);
    if sleb_done(v) {
        assert(e.drop_first() =~= Seq::<u8>::empty());
        assert(p128(1) == 128 * p128(0));
        assert(e[0] == (v % 128) as u8);
        assert(uleb_sum(e) == (e[0] % 128) as nat + 128 * uleb_sum(Seq::<u8>::empty()));
    } else {
        let t = sleb_encode(v / 128);
        lemma_sleb_encode_shape(v / 128);
        assert(e.drop_first() =~= t);
        assert forall|j: int| 0 <= j < e.len() - 1 implies e[j] >= 128 by {
            if j > 0 {
                assert(e[j] == t[j - 1]);
            }
        }
        assert(p128(e.len()) == 128 * p128(t.len()));
        assert(e[0] == (v % 128 + 128) as u8);
        assert(uleb_sum(e) == (e[0] % 128) as nat + 128 * uleb_sum(t));
    }
}

/// Reading back what `write_sleb128` wrote gives the value and the number of
/// bytes written, whatever follows the encoding.
pub proof fn sleb128_roundtrip(v: i32, rest: Seq<u8>)
    ensures
        spec_read_sleb128(sleb_encode(v as int) + rest, 0) == Some(
            (v, sleb_encode(v as int).len() as usize),
        ),
{
    let e = sleb_encode(v as int);
    let d = e + rest;
    lemma_p128_values();
    lemma_sleb_encode_len(v as int, 4);
    lemma_sleb_encode_shape(v as int);
    assert(suffix(d, 0) =~= d);
    lemma_leb_len_found(d, 0, (e.len() - 1) as nat);
    assert(d.take(e.len() as int) =~= e);
    let n = e.len();
    if v < 0 {
        if 7 * n >= 32 {
            assert(n == 5);
            assert(sleb_value(e) == wrap_i32(v + 34359738368));
        }
    }
}

/// Reading back what `write_uleb128p1` wrote gives the signed value that was written.
pub proof fn uleb128p1_roundtrip(v: i32, rest: Seq<u8>)
    ensures
        spec_read_uleb128p1(uleb_encode(((v as int + 1) % 0x1_0000_0000) as nat) + rest, 0)
            == Some((v, uleb_encode(((v as int + 1) % 0x1_0000_0000) as nat).len() as usize)),
{
    let stored = ((v as int + 1) % 0x1_0000_0000) as u32;
    uleb128_roundtrip(stored, rest);
}

/// `read_u32` gives back what `write_u32` stored at the same offset.
pub proof fn u32_write_read(data: Seq<u8>, offset: int, value: u32)
    requires
        0 <= offset,
        offset + 4 <= data.len(),
    ensures
        spec_read_u32(
            data.subrange(0, offset) + u32_le_bytes(value) + data.subrange(offset + 4, data.len() as int),
            offset,
        ) == Some(value),
{
}


/// A read at `j` of the bytes after a prefix `p` gives what the same read gives at `j`
/// of those bytes alone: LEB128 items depend only on what follows them.
pub proof fn lemma_reads_shift(p: Seq<u8>, r: Seq<u8>)
    ensures
        forall|j: int|
            p.len() <= j ==> #[trigger] spec_read_uleb128(p + r, j) == spec_read_uleb128(r, j - p.len()),
        forall|j: int|
            p.len() <= j ==> #[trigger] spec_read_sleb128(p + r, j) == spec_read_sleb128(r, j - p.len()),
        forall|j: int|
            p.len() <= j ==> #[trigger] spec_read_uleb128p1(p + r, j) == spec_read_uleb128p1(r, j - p.len()),
{
    assert forall|j: int| p.len() <= j implies #[trigger] suffix(p + r, j) == suffix(r, j - p.len()) by {
        if j <= (p + r).len() {
            assert(suffix(p + r, j) =~= suffix(r, j - p.len()));
        }
    }
    assert forall|j: int| p.len() <= j implies #[trigger] spec_read_uleb128p1(p + r, j) == spec_read_uleb128p1(
        r,
        j - p.len(),
    ) by {
        assert(suffix(p + r, j) == suffix(r, j - p.len()));
    }
}

/// The uleb128 encoding of `v` placed after `p` reads back as `v` and its length,
/// whatever follows it.
pub proof fn lemma_uleb_read_at(p: Seq<u8>, v: u32, r: Seq<u8>)
    ensures
        spec_read_uleb128(p + uleb_encode(v as nat) + r, p.len() as int) == Some(
            (v, uleb_encode(v as nat).len() as usize),
        ),
        spec_read_uleb128p1(p + uleb_encode(v as nat) + r, p.len() as int) == Some(
            (wrap_i32(v - 1) as i32, uleb_encode(v as nat).len() as usize),
        ),
        1 <= uleb_encode(v as nat).len() <= 5,
{
    lemma_uleb_encode_len(v as nat);
    let e = uleb_encode(v as nat);
    assert(p + e + r =~= p + (e + r));
    lemma_reads_shift(p, e + r);
    uleb128_roundtrip(v, r);
    assert(spec_read_uleb128(p + (e + r), p.len() as int) == spec_read_uleb128(e + r, 0));
    assert(spec_read_uleb128p1(p + (e + r), p.len() as int) == spec_read_uleb128p1(e + r, 0));
}


/// The sleb128 encoding of `v` reads back as `v` and its length (at most five bytes),
/// whatever follows it.
pub proof fn lemma_sleb_read_at(v: i32, r: Seq<u8>)
    ensures
        spec_read_sleb128(sleb_encode(v as int) + r, 0) == Some((v, sleb_encode(v as int).len() as usize)),
        1 <= sleb_encode(v as int).len() <= 5,
{
    sleb128_roundtrip(v, r);
    lemma_p128_values();
    lemma_sleb_encode_len(v as int, 4);
}

} // verus!
