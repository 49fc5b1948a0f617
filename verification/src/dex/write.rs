//! DEX write helpers: patch/replace code_item insns and fix header checksum/signature.

use vstd::prelude::*;

use crate::dex::class_data::{spec_class_data, spec_fields, ClassData, EncodedMethod};
use crate::dex::code_item::{code_item_at, code_item_fits, CodeItem};
use crate::dex::header::{class_def_at, class_def_pos, has_dex_magic, header_at, ClassDef, DexHeader, HEADER_SIZE};
use crate::dex::NO_INDEX;
use crate::error::{parse_error, truncated, DexError, Result};
use crate::leb128::{
    lemma_read_leb_consumed, lemma_uleb_encode_len, read_sleb128, read_u32, read_uleb128,
    spec_read_sleb128, spec_read_u32, spec_read_uleb128, u32_le_bytes, uleb_encode, write_u32,
    write_uleb128,
};
use crate::text::{push_str, with_number};

verus! {

/// `s` with the four bytes at `pos` replaced by the little-endian `v`.
pub open spec fn set_u32(s: Seq<u8>, pos: int, v: u32) -> Seq<u8> {
    s.subrange(0, pos) + u32_le_bytes(v) + s.subrange(pos + 4, s.len() as int)
}

/// `s` with `s[a..b]` replaced by `x`.
pub open spec fn splice(s: Seq<u8>, a: int, b: int, x: Seq<u8>) -> Seq<u8> {
    s.subrange(0, a) + x + s.subrange(b, s.len() as int)
}

/// Alignment padding (bytes) after an instruction array of `insns` units.
pub open spec fn spec_padding(tries: u16, insns: u32) -> int {
    if tries > 0 && insns % 2 == 1 {
        2
    } else {
        0
    }
}

/// End of `count` (uleb128, uleb128) pairs from `p`.
pub open spec fn spec_pairs_end(data: Seq<u8>, p: int, count: nat) -> Option<int>
    decreases count,
{
    if count == 0 {
        Some(p)
    } else {
        match spec_read_uleb128(data, p) {
            Some((_, n1)) => match spec_read_uleb128(data, p + n1) {
                Some((_, n2)) => spec_pairs_end(data, p + n1 + n2, (count - 1) as nat),
                None => None,
            },
            None => None,
        }
    }
}

/// Byte size of the `encoded_catch_handler` at `off`, as the size walk reads it: a
/// non-positive count is followed by one uleb128; a positive count by that many
/// (type, address) pairs and one more uleb128.
pub open spec fn spec_handler_size(data: Seq<u8>, off: int) -> Option<int> {
    match spec_read_sleb128(data, off) {
        None => None,
        Some((size, n)) => {
            let p = off + n;
            if size <= 0 {
                match spec_read_uleb128(data, p) {
                    Some((_, n2)) => Some(n + n2),
                    None => None,
                }
            } else {
                match spec_pairs_end(data, p, size as nat) {
                    Some(p2) => match spec_read_uleb128(data, p2) {
                        Some((_, n3)) => Some(p2 + n3 - off),
                        None => None,
                    },
                    None => None,
                }
            }
        },
    }
}

/// End of `count` consecutive handlers from `pos`.
pub open spec fn spec_handlers_end(data: Seq<u8>, pos: int, count: nat) -> Option<int>
    decreases count,
{
    if count == 0 {
        Some(pos)
    } else {
        match spec_handler_size(data, pos) {
            Some(k) => spec_handlers_end(data, pos + k, (count - 1) as nat),
            None => None,
        }
    }
}

/// Byte size of the `encoded_catch_handler_list` at `off`.
pub open spec fn spec_handler_list_size(data: Seq<u8>, off: int) -> Option<int> {
    match spec_read_uleb128(data, off) {
        Some((size, n)) => match spec_handlers_end(data, off + n, size as nat) {
            Some(e) => Some(e - off),
            None => None,
        },
        None => None,
    }
}

/// Where the `try_item`s of the code_item `c` start.
pub open spec fn tries_start(c: CodeItem) -> int {
    c.insns_off + 2 * c.insns_size + spec_padding(c.tries_size, c.insns_size)
}

/// Byte size of the whole code_item at `code_off` (header, insns, padding, tries, handlers).
pub open spec fn spec_code_item_size(data: Seq<u8>, code_off: u32) -> Option<int> {
    if !code_item_fits(data, code_off as int) {
        None
    } else {
        let c = code_item_at(data, code_off);
        let end = tries_start(c) + 8 * c.tries_size;
        if c.tries_size > 0 {
            match spec_handler_list_size(data, end) {
                Some(k) => Some(end + k - code_off),
                None => None,
            }
        } else {
            Some(end - code_off)
        }
    }
}

fn uleb_len(data: &[u8], pos: usize, what: &str) -> (r: Result<usize>)
    ensures
        match r {
            Ok(n) => spec_read_uleb128(data@, pos as int) matches Some((_, m)) && m == n && 1 <= n
                <= 5 && pos + n <= data@.len(),
            Err(e) => spec_read_uleb128(data@, pos as int) is None && e is Truncated,
        },
        data@.len() <= usize::MAX,
{
    let _len = data.len();
    proof {
        lemma_read_leb_consumed(data@, pos as int);
    }
    match read_uleb128(data, pos) {
        Some((_, n)) => Ok(n),
        None => Err(truncated(what)),
    }
}

fn insns_padding(tries_size: u16, insns_size: u32) -> (r: usize)
    ensures
        r == spec_padding(tries_size, insns_size),
{
    if tries_size > 0 && insns_size % 2 == 1 {
        2
    } else {
        0
    }
}

fn encoded_catch_handler_size(data: &[u8], off: usize) -> (r: Result<usize>)
    ensures
        match r {
            Ok(k) => spec_handler_size(data@, off as int) == Some(k as int) && off + k <= data@.len(),
            Err(e) => spec_handler_size(data@, off as int) is None && e is Truncated,
        },
{
    let len = data.len();
    proof {
        lemma_read_leb_consumed(data@, off as int);
    }
    let (size, n) = match read_sleb128(data, off) {
        Some(p) => p,
        None => return Err(truncated("catch handler size")),
    };
    let mut pos = off + n;
    if size <= 0 {
        let n2 = uleb_len(data, pos, "catch-all addr")?;
        pos = pos + n2;
    } else {
        let count = size as u32;
        let mut k: u32 = 0;
        while k < count
            invariant
                len == data@.len(),
                off <= pos <= len,
                k <= count,
                count == size,
                spec_read_sleb128(data@, off as int) == Some((size, n)),
                spec_pairs_end(data@, off + n, size as nat) == spec_pairs_end(
                    data@,
                    pos as int,
                    (count - k) as nat,
                ),
            decreases count - k,
        {
            let n1 = uleb_len(data, pos, "handler type")?;
            let n2 = uleb_len(data, pos + n1, "handler addr")?;
            pos = pos + n1 + n2;
            k = k + 1;
        }
        let n3 = uleb_len(data, pos, "catch-all addr")?;
        pos = pos + n3;
    }
    Ok(pos - off)
}

fn encoded_catch_handler_list_size(data: &[u8], off: usize) -> (r: Result<usize>)
    ensures
        match r {
            Ok(k) => spec_handler_list_size(data@, off as int) == Some(k as int) && off + k <= data@.len(),
            Err(e) => spec_handler_list_size(data@, off as int) is None && e is Truncated,
        },
{
    let len = data.len();
    proof {
        lemma_read_leb_consumed(data@, off as int);
    }
    let (size, n) = match read_uleb128(data, off) {
        Some(p) => p,
        None => return Err(truncated("handlers size")),
    };
    let mut pos = off + n;
    let mut k: u32 = 0;
    while k < size
        invariant
            len == data@.len(),
            off <= pos <= len,
            k <= size,
            spec_read_uleb128(data@, off as int) == Some((size, n)),
            spec_handlers_end(data@, off + n, size as nat) == spec_handlers_end(
                data@,
                pos as int,
                (size - k) as nat,
            ),
        decreases size - k,
    {
        let h = encoded_catch_handler_size(data, pos)?;
        pos = pos + h;
        k = k + 1;
    }
    Ok(pos - off)
}

fn code_item_byte_size(data: &[u8], code_off: u32) -> (r: Result<usize>)
    ensures
        match r {
            Ok(k) => spec_code_item_size(data@, code_off) == Some(k as int) && code_off + k <= data@.len()
                && tries_start(code_item_at(data@, code_off)) + 8 * code_item_at(data@, code_off).tries_size
                <= code_off + k,
            Err(e) => spec_code_item_size(data@, code_off) is None && e is Truncated,
        },
{
    let code = CodeItem::parse(data, code_off)?;
    let len = data.len();
    let off = code_off as usize;
    let end: u64 = code.insns_off as u64 + code.insns_size as u64 * 2 + insns_padding(
        code.tries_size,
        code.insns_size,
    ) as u64 + code.tries_size as u64 * 8;
    if code.tries_size == 0 {
        return Ok(end as usize - off);
    }
    if end > len as u64 {
        return Err(truncated("handlers size"));
    }
    let k = encoded_catch_handler_list_size(data, end as usize)?;
    Ok(end as usize + k - off)
}


/// Where an offset field points after `delta` bytes were inserted (or removed, when
/// negative) at `from`: offsets at or after `from` move (modulo 2^32); 0 and `NO_INDEX`
/// stay.
pub open spec fn adj(off: u32, from: int, delta: int) -> u32 {
    if off == 0 || off == NO_INDEX {
        off
    } else if off >= from {
        ((off + delta) % 0x1_0000_0000) as u32
    } else {
        off
    }
}

/// Move the offset stored at `pos`.
pub open spec fn adj_at(s: Seq<u8>, pos: int, from: int, delta: int) -> Option<Seq<u8>> {
    match spec_read_u32(s, pos) {
        Some(v) => Some(set_u32(s, pos, adj(v, from, delta))),
        None => None,
    }
}

/// Move the offset stored at `pos` unless it is 0.
pub open spec fn adj_at_nonzero(s: Seq<u8>, pos: int, from: int, delta: int) -> Option<Seq<u8>> {
    match spec_read_u32(s, pos) {
        Some(v) => Some(
            if v != 0 {
                set_u32(s, pos, adj(v, from, delta))
            } else {
                s
            },
        ),
        None => None,
    }
}

/// Move the offset stored at `pos` unless it is 0 or `NO_INDEX`.
pub open spec fn adj_at_offset(s: Seq<u8>, pos: int, from: int, delta: int) -> Option<Seq<u8>> {
    match spec_read_u32(s, pos) {
        Some(v) => Some(
            if v != 0 && v != NO_INDEX {
                set_u32(s, pos, adj(v, from, delta))
            } else {
                s
            },
        ),
        None => None,
    }
}

/// The header fields that hold offsets (and the data size, when the data section starts
/// at or before `from`), moved.
pub open spec fn header_writes(s: Seq<u8>, h: DexHeader, from: int, delta: int) -> Seq<u8> {
    let s1 = set_u32(s, 32, adj(h.file_size, from, delta));
    let s2 = if h.data_off <= from {
        set_u32(s1, 104, adj(h.data_size, from, delta))
    } else {
        s1
    };
    let s3 = set_u32(s2, 52, adj(h.map_off, from, delta));
    set_u32(s3, 48, adj(h.link_off, from, delta))
}

/// Move the `string_data_off` of the string_ids entries `i..n`.
pub open spec fn fold_strings(s: Seq<u8>, h: DexHeader, from: int, delta: int, i: nat) -> Option<Seq<u8>>
    decreases h.string_ids_size - i,
{
    if i >= h.string_ids_size {
        Some(s)
    } else {
        match adj_at(s, h.string_ids_off + 4 * i, from, delta) {
            Some(s1) => fold_strings(s1, h, from, delta, i + 1),
            None => None,
        }
    }
}

/// Move the non-zero `parameters_off` of the proto_ids entries `i..n`.
pub open spec fn fold_protos(s: Seq<u8>, h: DexHeader, from: int, delta: int, i: nat) -> Option<Seq<u8>>
    decreases h.proto_ids_size - i,
{
    if i >= h.proto_ids_size {
        Some(s)
    } else {
        match adj_at_nonzero(s, h.proto_ids_off + 12 * i + 8, from, delta) {
            Some(s1) => fold_protos(s1, h, from, delta, i + 1),
            None => None,
        }
    }
}

/// Rewrite the uleb128 at `off` to `value`; it must keep its length.
pub open spec fn patch_uleb(s: Seq<u8>, off: int, value: u32) -> Option<Seq<u8>> {
    match spec_read_uleb128(s, off) {
        Some((_, n)) => if uleb_encode(value as nat).len() != n {
            None
        } else {
            Some(splice(s, off, off + n, uleb_encode(value as nat)))
        },
        None => None,
    }
}

/// Move the non-zero `code_off` of `count` encoded_methods from `p`; the bytes and where
/// the entries end.
pub open spec fn patch_methods(s: Seq<u8>, p: int, count: nat, from: int, delta: int) -> Option<(Seq<u8>, int)>
    decreases count,
{
    if count == 0 {
        Some((s, p))
    } else {
        match spec_read_uleb128(s, p) {
            Some((_, n1)) => match spec_read_uleb128(s, p + n1) {
                Some((_, n2)) => match spec_read_uleb128(s, p + n1 + n2) {
                    Some((co, n3)) => {
                        let s2 = if co != 0 {
                            patch_uleb(s, p + n1 + n2, adj(co, from, delta))
                        } else {
                            Some(s)
                        };
                        match s2 {
                            Some(s3) => patch_methods(s3, p + n1 + n2 + n3, (count - 1) as nat, from, delta),
                            None => None,
                        }
                    },
                    None => None,
                },
                None => None,
            },
            None => None,
        }
    }
}

/// Move the code offsets of the class data at `cdo`: those of the direct methods, then
/// those of the virtual methods that follow them.
#[verifier::opaque]
pub open spec fn adjust_class_data(s: Seq<u8>, cdo: u32, from: int, delta: int) -> Option<Seq<u8>> {
    let off = cdo as int;
    if off >= s.len() {
        None
    } else {
        match spec_read_uleb128(s, off) {
            Some((sf, n1)) => match spec_read_uleb128(s, off + n1) {
                Some((inf, n2)) => match spec_read_uleb128(s, off + n1 + n2) {
                    Some((dm, n3)) => match spec_read_uleb128(s, off + n1 + n2 + n3) {
                        Some((vm, n4)) => {
                            let p = off + n1 + n2 + n3 + n4;
                            match spec_fields(s, p, sf as nat, 0) {
                                Some((_, p1)) => match spec_fields(s, p1, inf as nat, 0) {
                                    Some((_, p2)) => match patch_methods(s, p2, dm as nat, from, delta) {
                                        Some((s1, p3)) => match patch_methods(s1, p3, vm as nat, from, delta) {
                                            Some((s2, _)) => Some(s2),
                                            None => None,
                                        },
                                        None => None,
                                    },
                                    None => None,
                                },
                                None => None,
                            }
                        },
                        None => None,
                    },
                    None => None,
                },
                None => None,
            },
            None => None,
        }
    }
}

/// Move the offsets of `class_defs[i]`, then the code offsets of its class data.
pub open spec fn class_step(s: Seq<u8>, h: DexHeader, i: nat, from: int, delta: int) -> Option<Seq<u8>> {
    let base = h.class_defs_off + 32 * i;
    match adj_at_offset(s, base + 12, from, delta) {
        None => None,
        Some(s1) => match adj_at_offset(s1, base + 20, from, delta) {
            None => None,
            Some(s2) => match adj_at_offset(s2, base + 24, from, delta) {
                None => None,
                Some(s3) => match adj_at_offset(s3, base + 28, from, delta) {
                    None => None,
                    Some(s4) => if !(i < h.class_defs_size && base + 32 <= s4.len()) {
                        None
                    } else {
                        let cdo = class_def_at(s4, base).class_data_off;
                        if cdo != 0 {
                            adjust_class_data(s4, cdo, from, delta)
                        } else {
                            Some(s4)
                        }
                    },
                },
            },
        },
    }
}

/// Class steps `i..n`.
pub open spec fn fold_classes(s: Seq<u8>, h: DexHeader, from: int, delta: int, i: nat) -> Option<Seq<u8>>
    decreases h.class_defs_size - i,
{
    if i >= h.class_defs_size {
        Some(s)
    } else {
        match class_step(s, h, i, from, delta) {
            Some(s1) => fold_classes(s1, h, from, delta, i + 1),
            None => None,
        }
    }
}

/// Move the non-zero `debug_info_off` of the code items of methods `ms[j..]` (skipping
/// methods without code and code items whose field lies past the data).
pub open spec fn debug_methods(s: Seq<u8>, ms: Seq<EncodedMethod>, j: nat, from: int, delta: int) -> Seq<u8>
    decreases ms.len() - j,
{
    if j >= ms.len() {
        s
    } else {
        let co = ms[j as int].code_off;
        let pos = co + 8;
        let s1 = if co == 0 || pos + 4 > s.len() {
            s
        } else {
            match spec_read_u32(s, pos) {
                Some(v) => if v != 0 {
                    set_u32(s, pos, adj(v, from, delta))
                } else {
                    s
                },
                None => s,
            }
        };
        debug_methods(s1, ms, j + 1, from, delta)
    }
}

/// The debug-offset step of class `i`.
pub open spec fn debug_step(s: Seq<u8>, h: DexHeader, i: nat, from: int, delta: int) -> Option<Seq<u8>> {
    let base = h.class_defs_off + 32 * i;
    if !(i < h.class_defs_size && base + 32 <= s.len()) {
        None
    } else {
        let cdo = class_def_at(s, base).class_data_off;
        if cdo == 0 {
            Some(s)
        } else {
            match spec_class_data(s, cdo as int) {
                None => None,
                Some(m) => Some(debug_methods(s, m.2 + m.3, 0, from, delta)),
            }
        }
    }
}

/// Debug steps `i..n`.
pub open spec fn fold_debug(s: Seq<u8>, h: DexHeader, from: int, delta: int, i: nat) -> Option<Seq<u8>>
    decreases h.class_defs_size - i,
{
    if i >= h.class_defs_size {
        Some(s)
    } else {
        match debug_step(s, h, i, from, delta) {
            Some(s1) => fold_debug(s1, h, from, delta, i + 1),
            None => None,
        }
    }
}

/// Move the offsets of map items `i..size` of the map at `off`.
pub open spec fn fold_map(s: Seq<u8>, off: int, size: nat, from: int, delta: int, i: nat) -> Option<Seq<u8>>
    decreases size - i,
{
    if i >= size {
        Some(s)
    } else {
        match adj_at(s, off + 4 + 12 * i + 8, from, delta) {
            Some(s1) => fold_map(s1, off, size, from, delta, i + 1),
            None => None,
        }
    }
}

/// Move every map item offset of the map at `map_off`.
pub open spec fn map_pass(s: Seq<u8>, map_off: u32, from: int, delta: int) -> Option<Seq<u8>> {
    let off = map_off as int;
    if off + 4 > s.len() {
        None
    } else {
        fold_map(s, off, crate::leb128::u32_at(s, off) as nat, from, delta, 0)
    }
}

/// The table passes of [`spec_adjust`] after the header writes: string_ids, proto_ids,
/// class_defs and their class data, debug info offsets, then the map, read where it
/// stands once the bytes have moved.
#[verifier::opaque]
pub open spec fn rest_passes(s1: Seq<u8>, h: DexHeader, from: int, delta: int) -> Option<Seq<u8>> {
    match fold_strings(s1, h, from, delta, 0) {
        None => None,
        Some(s2) => match fold_protos(s2, h, from, delta, 0) {
            None => None,
            Some(s3) => match fold_classes(s3, h, from, delta, 0) {
                None => None,
                Some(s4) => match fold_debug(s4, h, from, delta, 0) {
                    None => None,
                    Some(s5) => if h.map_off != 0 {
                        map_pass(s5, adj(h.map_off, from, delta), from, delta)
                    } else {
                        Some(s5)
                    },
                },
            },
        },
    }
}

/// The image after moving every offset field at or after `from` by `delta`; nothing
/// when a part cannot be read or a uleb128 code offset would change length.
#[verifier::opaque]
pub open spec fn spec_adjust(s: Seq<u8>, from: int, delta: int) -> Option<Seq<u8>> {
    if delta == 0 {
        Some(s)
    } else if !(s.len() >= HEADER_SIZE && has_dex_magic(s)) {
        None
    } else {
        let h = header_at(s);
        rest_passes(header_writes(s, h, from, delta), h, from, delta)
    }
}


fn adjust_off(off: u32, from: usize, delta: i64) -> (r: u32)
    ensures
        r == adj(off, from as int, delta as int),
{
    if off == 0 || off == NO_INDEX {
        return off;
    }
    if (off as usize) < from {
        return off;
    }
    let m: u128 = 0x1_0000_0000;
    if delta >= 0 {
        let x: u128 = off as u128 + delta as u128;
        (x % m) as u32
    } else {
        let neg: u128 = (0i128 - delta as i128) as u128;
        if neg <= off as u128 {
            ((off as u128 - neg) % m) as u32
        } else {
            let y: u128 = neg - off as u128;
            let r = y % m;
            proof {
                assert((off + delta) % 0x1_0000_0000 == if r == 0 {
                    0
                } else {
                    0x1_0000_0000 - r
                }) by (nonlinear_arith)
                    requires
                        y == -(off + delta),
                        r == y % 0x1_0000_0000,
                        y > 0,
                ;
            }
            if r == 0 {
                0
            } else {
                (m - r) as u32
            }
        }
    }
}

fn read_at(dex: &[u8], pos: u64, what: &str) -> (r: Result<u32>)
    ensures
        match r {
            Ok(v) => spec_read_u32(dex@, pos as int) == Some(v) && pos + 4 <= dex@.len(),
            Err(e) => spec_read_u32(dex@, pos as int) is None && e is Truncated,
        },
        dex@.len() <= usize::MAX,
{
    let len = dex.len() as u64;
    if pos > len || len - pos < 4 {
        return Err(truncated(what));
    }
    match read_u32(dex, pos as usize) {
        Some(v) => Ok(v),
        None => Err(truncated(what)),
    }
}

fn adjust_strings(dex: &mut [u8], h: &DexHeader, from: usize, delta: i64) -> (r: Result<()>)
    ensures
        final(dex)@.len() == old(dex)@.len(),
        match fold_strings(old(dex)@, *h, from as int, delta as int, 0) {
            Some(s) => r is Ok && final(dex)@ == s,
            None => r is Err,
        },
{
    let mut i: u32 = 0;
    while i < h.string_ids_size
        invariant
            dex@.len() == old(dex)@.len(),
            fold_strings(old(dex)@, *h, from as int, delta as int, 0) == fold_strings(dex@, *h, from as int, delta as int, i as nat),
        decreases h.string_ids_size - i,
    {
        let pos: u64 = h.string_ids_off as u64 + i as u64 * 4;
        let ghost before = dex@;
        let v = match read_at(dex, pos, "string_id") {
            Ok(v) => v,
            Err(e) => {
                proof {
                    assert(adj_at(before, h.string_ids_off + 4 * i, from as int, delta as int) is None);
                    assert(fold_strings(before, *h, from as int, delta as int, i as nat) is None);
                }
                return Err(e);
            },
        };
        write_u32(dex, pos as usize, adjust_off(v, from, delta));
        proof {
            assert(adj_at(before, h.string_ids_off + 4 * i, from as int, delta as int) == Some(dex@));
            assert(fold_strings(before, *h, from as int, delta as int, i as nat) == fold_strings(dex@, *h, from as int, delta as int, (i + 1) as nat));
        }
        i = i + 1;
    }
    Ok(())
}

fn adjust_protos(dex: &mut [u8], h: &DexHeader, from: usize, delta: i64) -> (r: Result<()>)
    ensures
        final(dex)@.len() == old(dex)@.len(),
        match fold_protos(old(dex)@, *h, from as int, delta as int, 0) {
            Some(s) => r is Ok && final(dex)@ == s,
            None => r is Err,
        },
{
    let mut i: u32 = 0;
    while i < h.proto_ids_size
        invariant
            dex@.len() == old(dex)@.len(),
            fold_protos(old(dex)@, *h, from as int, delta as int, 0) == fold_protos(dex@, *h, from as int, delta as int, i as nat),
        decreases h.proto_ids_size - i,
    {
        let pos: u64 = h.proto_ids_off as u64 + i as u64 * 12 + 8;
        let ghost before = dex@;
        let v = match read_at(dex, pos, "proto parameters_off") {
            Ok(v) => v,
            Err(e) => {
                proof {
                    assert(adj_at_nonzero(before, h.proto_ids_off + 12 * i + 8, from as int, delta as int) is None);
                    assert(fold_protos(before, *h, from as int, delta as int, i as nat) is None);
                }
                return Err(e);
            },
        };
        if v != 0 {
            write_u32(dex, pos as usize, adjust_off(v, from, delta));
        }
        proof {
            assert(adj_at_nonzero(before, h.proto_ids_off + 12 * i + 8, from as int, delta as int) == Some(dex@));
            assert(fold_protos(before, *h, from as int, delta as int, i as nat) == fold_protos(dex@, *h, from as int, delta as int, (i + 1) as nat));
        }
        i = i + 1;
    }
    Ok(())
}

fn adjust_offset_field(dex: &mut [u8], pos: u64, from: usize, delta: i64) -> (r: Result<()>)
    ensures
        final(dex)@.len() == old(dex)@.len(),
        match adj_at_offset(old(dex)@, pos as int, from as int, delta as int) {
            Some(s) => r is Ok && final(dex)@ == s,
            None => r is Err && final(dex)@ == old(dex)@,
        },
{
    let v = read_at(dex, pos, "class_def offset")?;
    if v != 0 && v != NO_INDEX {
        write_u32(dex, pos as usize, adjust_off(v, from, delta));
    }
    Ok(())
}

fn skip_fields(dex: &[u8], off: usize, count: u32) -> (r: Result<usize>)
    ensures
        match r {
            Ok(e) => spec_fields(dex@, off as int, count as nat, 0) matches Some((_, e2)) && e2 == e,
            Err(e) => spec_fields(dex@, off as int, count as nat, 0) is None && e is Truncated,
        },
{
    let mut p = off;
    let mut prev: u32 = 0;
    let ghost mut acc: Seq<crate::dex::class_data::EncodedField> = Seq::empty();
    let mut i: u32 = 0;
    while i < count
        invariant
            i <= count,
            spec_fields(dex@, off as int, count as nat, 0) == match spec_fields(
                dex@,
                p as int,
                (count - i) as nat,
                prev,
            ) {
                Some((rest, e)) => Some((acc + rest, e)),
                None => None,
            },
        decreases count - i,
    {
        proof {
            lemma_read_leb_consumed(dex@, p as int);
        }
        let _len = dex.len();
        let (diff, n1) = match read_uleb128(dex, p) {
            Some(x) => x,
            None => return Err(truncated("field_idx")),
        };
        proof {
            lemma_read_leb_consumed(dex@, p + n1);
        }
        let (flags, n2) = match read_uleb128(dex, p + n1) {
            Some(x) => x,
            None => return Err(truncated("field access")),
        };
        let idx = prev.wrapping_add(diff);
        proof {
            let item = crate::dex::class_data::EncodedField { field_idx: idx, access_flags: flags };
            assert(idx == crate::dex::class_data::next_idx(prev, diff));
            match spec_fields(dex@, (p + n1 + n2) as int, (count - i - 1) as nat, idx) {
                Some((rest, e)) => {
                    assert(acc + (seq![item] + rest) =~= acc.push(item) + rest);
                },
                None => {},
            }
            acc = acc.push(item);
        }
        p = p + n1 + n2;
        prev = idx;
        i = i + 1;
    }
    Ok(p)
}

fn patch_uleb128_in_place(dex: &mut [u8], off: usize, value: u32) -> (r: Result<()>)
    ensures
        final(dex)@.len() == old(dex)@.len(),
        match patch_uleb(old(dex)@, off as int, value) {
            Some(s) => r is Ok && final(dex)@ == s,
            None => r is Err && final(dex)@ == old(dex)@,
        },
{
    let new_bytes = write_uleb128(value);
    let _len = dex.len();
    proof {
        lemma_read_leb_consumed(dex@, off as int);
    }
    let old_len = match read_uleb128(dex, off) {
        Some((_, n)) => n,
        None => return Err(truncated("uleb128")),
    };
    if new_bytes.len() != old_len {
        let mut msg = String::new();
        push_str(&mut msg, "code_off uleb128 size changed at 0x");
        crate::text::push_number(&mut msg, off as u64, 16);
        push_str(&mut msg, " (old ");
        crate::text::push_number(&mut msg, old_len as u64, 10);
        push_str(&mut msg, " bytes, new ");
        crate::text::push_number(&mut msg, new_bytes.len() as u64, 10);
        push_str(&mut msg, " bytes); cannot resize class_data yet");
        return Err(DexError::Parse(msg));
    }
    let ghost s0 = dex@;
    let mut k: usize = 0;
    while k < old_len
        invariant
            k <= old_len,
            new_bytes@.len() == old_len,
            off + old_len <= s0.len(),
            s0.len() <= usize::MAX,
            dex@.len() == s0.len(),
            forall|t: int| 0 <= t < dex@.len() ==> dex@[t] == if off <= t < off + k {
                new_bytes@[t - off]
            } else {
                s0[t]
            },
        decreases old_len - k,
    {
        dex[off + k] = new_bytes[k];
        k = k + 1;
    }
    proof {
        assert(dex@ =~= splice(s0, off as int, off + old_len, new_bytes@));
    }
    Ok(())
}


fn patch_method_code_offs(dex: &mut [u8], off: usize, count: u32, from: usize, delta: i64) -> (r: Result<usize>)
    ensures
        final(dex)@.len() == old(dex)@.len(),
        match patch_methods(old(dex)@, off as int, count as nat, from as int, delta as int) {
            Some((s, e)) => r matches Ok(x) && x == e && final(dex)@ == s,
            None => r is Err,
        },
{
    let mut p = off;
    let mut i: u32 = 0;
    while i < count
        invariant
            i <= count,
            dex@.len() == old(dex)@.len(),
            patch_methods(old(dex)@, off as int, count as nat, from as int, delta as int) == patch_methods(
                dex@,
                p as int,
                (count - i) as nat,
                from as int,
                delta as int,
            ),
        decreases count - i,
    {
        let _len = dex.len();
        proof {
            lemma_read_leb_consumed(dex@, p as int);
        }
        let n1 = match read_uleb128(dex, p) {
            Some((_, n)) => n,
            None => return Err(truncated("method_idx")),
        };
        proof {
            lemma_read_leb_consumed(dex@, p + n1);
        }
        let n2 = match read_uleb128(dex, p + n1) {
            Some((_, n)) => n,
            None => return Err(truncated("method access")),
        };
        proof {
            lemma_read_leb_consumed(dex@, p + n1 + n2);
        }
        let (code_off, n3) = match read_uleb128(dex, p + n1 + n2) {
            Some(x) => x,
            None => return Err(truncated("code_off")),
        };
        if code_off != 0 {
            let new_off = adjust_off(code_off, from, delta);
            patch_uleb128_in_place(dex, p + n1 + n2, new_off)?;
        }
        p = p + n1 + n2 + n3;
        i = i + 1;
    }
    Ok(p)
}

fn adjust_class_data_code_offs(dex: &mut [u8], class_data_off: u32, from: usize, delta: i64) -> (r: Result<()>)
    ensures
        final(dex)@.len() == old(dex)@.len(),
        match adjust_class_data(old(dex)@, class_data_off, from as int, delta as int) {
            Some(s) => r is Ok && final(dex)@ == s,
            None => r is Err,
        },
{
    proof {
        reveal(adjust_class_data);
    }
    let mut off = class_data_off as usize;
    if off >= dex.len() {
        return Err(truncated("class_data_off"));
    }
    proof {
        lemma_read_leb_consumed(dex@, off as int);
    }
    let (static_fields_size, n) = match read_uleb128(dex, off) {
        Some(x) => x,
        None => return Err(truncated("static_fields_size")),
    };
    off = off + n;
    proof {
        lemma_read_leb_consumed(dex@, off as int);
    }
    let (instance_fields_size, n) = match read_uleb128(dex, off) {
        Some(x) => x,
        None => return Err(truncated("instance_fields_size")),
    };
    off = off + n;
    proof {
        lemma_read_leb_consumed(dex@, off as int);
    }
    let (direct_methods_size, n) = match read_uleb128(dex, off) {
        Some(x) => x,
        None => return Err(truncated("direct_methods_size")),
    };
    off = off + n;
    proof {
        lemma_read_leb_consumed(dex@, off as int);
    }
    let (virtual_methods_size, n) = match read_uleb128(dex, off) {
        Some(x) => x,
        None => return Err(truncated("virtual_methods_size")),
    };
    off = off + n;
    off = skip_fields(dex, off, static_fields_size)?;
    off = skip_fields(dex, off, instance_fields_size)?;
    let p = patch_method_code_offs(dex, off, direct_methods_size, from, delta)?;
    patch_method_code_offs(dex, p, virtual_methods_size, from, delta)?;
    Ok(())
}

#[verifier::spinoff_prover]
#[verifier::rlimit(40)]
fn class_step_exec(dex: &mut [u8], h: &DexHeader, i: u32, from: usize, delta: i64) -> (r: Result<()>)
    ensures
        final(dex)@.len() == old(dex)@.len(),
        match class_step(old(dex)@, *h, i as nat, from as int, delta as int) {
            Some(s) => r is Ok && final(dex)@ == s,
            None => r is Err,
        },
{
    let base: u64 = h.class_defs_off as u64 + i as u64 * 32;
    let ghost s0 = dex@;
    adjust_offset_field(dex, base + 12, from, delta)?;
    let ghost s1 = dex@;
    adjust_offset_field(dex, base + 20, from, delta)?;
    let ghost s2 = dex@;
    adjust_offset_field(dex, base + 24, from, delta)?;
    let ghost s3 = dex@;
    adjust_offset_field(dex, base + 28, from, delta)?;
    let ghost s4 = dex@;
    proof {
        assert(adj_at_offset(s0, base + 12, from as int, delta as int) == Some(s1));
        assert(adj_at_offset(s1, base + 20, from as int, delta as int) == Some(s2));
        assert(adj_at_offset(s2, base + 24, from as int, delta as int) == Some(s3));
        assert(adj_at_offset(s3, base + 28, from as int, delta as int) == Some(s4));
    }
    let class_def = ClassDef::parse(dex, h, i)?;
    proof {
        assert(class_def.class_data_off == class_def_at(s4, base as int).class_data_off);
    }
    if class_def.class_data_off != 0 {
        adjust_class_data_code_offs(dex, class_def.class_data_off, from, delta)?;
    }
    Ok(())
}

fn adjust_classes(dex: &mut [u8], h: &DexHeader, from: usize, delta: i64) -> (r: Result<()>)
    ensures
        final(dex)@.len() == old(dex)@.len(),
        match fold_classes(old(dex)@, *h, from as int, delta as int, 0) {
            Some(s) => r is Ok && final(dex)@ == s,
            None => r is Err,
        },
{
    let mut i: u32 = 0;
    while i < h.class_defs_size
        invariant
            dex@.len() == old(dex)@.len(),
            fold_classes(old(dex)@, *h, from as int, delta as int, 0) == fold_classes(dex@, *h, from as int, delta as int, i as nat),
        decreases h.class_defs_size - i,
    {
        let ghost before = dex@;
        class_step_exec(dex, h, i, from, delta)?;
        i = i + 1;
    }
    Ok(())
}

fn adjust_debug_one(dex: &mut [u8], code_off: u32, from: usize, delta: i64) -> (r: Result<()>)
    ensures
        final(dex)@.len() == old(dex)@.len(),
        r is Ok,
        final(dex)@ == ({
            let s = old(dex)@;
            let pos = code_off + 8;
            if code_off == 0 || pos + 4 > s.len() {
                s
            } else {
                match spec_read_u32(s, pos) {
                    Some(v) => if v != 0 {
                        set_u32(s, pos, adj(v, from as int, delta as int))
                    } else {
                        s
                    },
                    None => s,
                }
            }
        }),
{
    if code_off == 0 {
        return Ok(());
    }
    let pos: u64 = code_off as u64 + 8;
    let len = dex.len() as u64;
    if pos + 4 > len {
        return Ok(());
    }
    let debug_off = read_at(dex, pos, "debug_info_off")?;
    if debug_off != 0 {
        write_u32(dex, pos as usize, adjust_off(debug_off, from, delta));
    }
    Ok(())
}

fn adjust_debug_list(dex: &mut [u8], ms: &Vec<EncodedMethod>, Ghost(all): Ghost<Seq<EncodedMethod>>, Ghost(shift): Ghost<nat>, from: usize, delta: i64)
    requires
        shift + ms@.len() <= all.len(),
        forall|k: int| 0 <= k < ms@.len() ==> all[shift + k] == ms@[k],
    ensures
        final(dex)@.len() == old(dex)@.len(),
        debug_methods(old(dex)@, all, shift, from as int, delta as int) == debug_methods(
            final(dex)@,
            all,
            shift + ms@.len(),
            from as int,
            delta as int,
        ),
{
    let mut k: usize = 0;
    while k < ms.len()
        invariant
            k <= ms@.len(),
            shift + ms@.len() <= all.len(),
            forall|t: int| 0 <= t < ms@.len() ==> all[shift + t] == ms@[t],
            dex@.len() == old(dex)@.len(),
            debug_methods(old(dex)@, all, shift, from as int, delta as int) == debug_methods(
                dex@,
                all,
                (shift + k) as nat,
                from as int,
                delta as int,
            ),
        decreases ms@.len() - k,
    {
        let ghost before = dex@;
        let _ = adjust_debug_one(dex, ms[k].code_off, from, delta);
        proof {
            assert(all[shift + k] == ms@[k as int]);
        }
        k = k + 1;
    }
}

fn adjust_debug_info_offs(dex: &mut [u8], h: &DexHeader, from: usize, delta: i64) -> (r: Result<()>)
    ensures
        final(dex)@.len() == old(dex)@.len(),
        match fold_debug(old(dex)@, *h, from as int, delta as int, 0) {
            Some(s) => r is Ok && final(dex)@ == s,
            None => r is Err,
        },
{
    let mut i: u32 = 0;
    while i < h.class_defs_size
        invariant
            dex@.len() == old(dex)@.len(),
            fold_debug(old(dex)@, *h, from as int, delta as int, 0) == fold_debug(dex@, *h, from as int, delta as int, i as nat),
        decreases h.class_defs_size - i,
    {
        let ghost before = dex@;
        let class_def = ClassDef::parse(dex, h, i)?;
        if class_def.class_data_off != 0 {
            let class_data = ClassData::parse(dex, &class_def)?;
            match class_data {
                Some(cd) => {
                    let ghost all = cd.direct_methods@ + cd.virtual_methods@;
                    adjust_debug_list(dex, &cd.direct_methods, Ghost(all), Ghost(0), from, delta);
                    adjust_debug_list(dex, &cd.virtual_methods, Ghost(all), Ghost(cd.direct_methods@.len()), from, delta);
                    proof {
                        assert(debug_methods(dex@, all, all.len(), from as int, delta as int) == dex@);
                        assert(debug_step(before, *h, i as nat, from as int, delta as int) == Some(dex@));
                    }
                },
                None => {},
            }
        }
        i = i + 1;
    }
    Ok(())
}

fn adjust_map_list(dex: &mut [u8], map_off: u32, from: usize, delta: i64) -> (r: Result<()>)
    ensures
        final(dex)@.len() == old(dex)@.len(),
        match map_pass(old(dex)@, map_off, from as int, delta as int) {
            Some(s) => r is Ok && final(dex)@ == s,
            None => r is Err,
        },
{
    let off = map_off as u64;
    let len = dex.len() as u64;
    if off + 4 > len {
        return Err(truncated("map_list"));
    }
    let size = read_at(dex, off, "map_list size")?;
    let ghost s0 = dex@;
    let mut i: u32 = 0;
    while i < size
        invariant
            dex@.len() == old(dex)@.len(),
            s0 == old(dex)@,
            off <= 0xffff_ffff,
            off == map_off,
            off + 4 <= s0.len(),
            size == crate::leb128::u32_at(s0, off as int),
            fold_map(s0, off as int, size as nat, from as int, delta as int, 0) == fold_map(
                dex@,
                off as int,
                size as nat,
                from as int,
                delta as int,
                i as nat,
            ),
        decreases size - i,
    {
        let pos: u64 = off + 4 + i as u64 * 12 + 8;
        let ghost before = dex@;
        let item_off = match read_at(dex, pos, "map_item offset") {
            Ok(v) => v,
            Err(e) => {
                proof {
                    assert(adj_at(before, off + 4 + 12 * i + 8, from as int, delta as int) is None);
                    assert(fold_map(before, off as int, size as nat, from as int, delta as int, i as nat) is None);
                    assert(fold_map(s0, off as int, size as nat, from as int, delta as int, 0) is None);
                    assert(map_pass(s0, map_off, from as int, delta as int) is None);
                }
                return Err(e);
            },
        };
        write_u32(dex, pos as usize, adjust_off(item_off, from, delta));
        proof {
            assert(adj_at(before, off + 4 + 12 * i + 8, from as int, delta as int) == Some(dex@));
        }
        i = i + 1;
    }
    Ok(())
}

/// Move every offset field at or after `from` by `delta` bytes, after that many bytes
/// were inserted (or, when negative, removed) at `from`.
fn adjust_file_offsets(dex: &mut [u8], from: usize, delta: i64) -> (r: Result<()>)
    ensures
        final(dex)@.len() == old(dex)@.len(),
        match spec_adjust(old(dex)@, from as int, delta as int) {
            Some(s) => r is Ok && final(dex)@ == s,
            None => r is Err,
        },
{
    proof {
        reveal(spec_adjust);
    }
    if delta == 0 {
        return Ok(());
    }
    let header = DexHeader::parse(dex)?;
    write_header_fields(dex, &header, from, delta);
    adjust_tables(dex, &header, from, delta)
}

fn write_header_fields(dex: &mut [u8], header: &DexHeader, from: usize, delta: i64)
    requires
        old(dex)@.len() >= HEADER_SIZE,
    ensures
        final(dex)@ == header_writes(old(dex)@, *header, from as int, delta as int),
{
    let ghost h = *header;
    write_u32(dex, 32, adjust_off(header.file_size, from, delta));
    let ghost s1 = dex@;
    if (header.data_off as usize) <= from {
        write_u32(dex, 104, adjust_off(header.data_size, from, delta));
    }
    let ghost s2 = dex@;
    write_u32(dex, 52, adjust_off(header.map_off, from, delta));
    write_u32(dex, 48, adjust_off(header.link_off, from, delta));
}

fn adjust_tables(dex: &mut [u8], header: &DexHeader, from: usize, delta: i64) -> (r: Result<()>)
    ensures
        final(dex)@.len() == old(dex)@.len(),
        match rest_passes(old(dex)@, *header, from as int, delta as int) {
            Some(s) => r is Ok && final(dex)@ == s,
            None => r is Err,
        },
{
    proof {
        reveal(rest_passes);
    }
    adjust_strings(dex, header, from, delta)?;
    adjust_protos(dex, header, from, delta)?;
    adjust_classes(dex, header, from, delta)?;
    adjust_debug_info_offs(dex, header, from, delta)?;
    if header.map_off != 0 {
        adjust_map_list(dex, adjust_off(header.map_off, from, delta), from, delta)?;
    }
    Ok(())
}


/// The message of a size mismatch in [`patch_code_insns`].
pub open spec fn mismatch_message(code_off: u32, expected: nat, got: nat) -> Seq<char> {
    "instruction size mismatch at code_off 0x"@ + crate::text::hex(code_off as nat) + ": expected "@
        + crate::text::decimal(expected) + " bytes, got "@ + crate::text::decimal(got)
        + " (use replace_code_insns for variable-size edits)"@
}

fn copy_into(dex: &mut [u8], start: usize, src: &[u8])
    requires
        start + src@.len() <= old(dex)@.len(),
    ensures
        final(dex)@ == splice(old(dex)@, start as int, start + src@.len(), src@),
{
    let ghost s0 = dex@;
    let _len = dex.len();
    let mut k: usize = 0;
    while k < src.len()
        invariant
            k <= src@.len(),
            start + src@.len() <= s0.len(),
            s0.len() <= usize::MAX,
            dex@.len() == s0.len(),
            forall|t: int| 0 <= t < dex@.len() ==> dex@[t] == if start <= t < start + k {
                src@[t - start]
            } else {
                s0[t]
            },
        decreases src@.len() - k,
    {
        dex[start + k] = src[k];
        k = k + 1;
    }
    proof {
        assert(dex@ =~= splice(s0, start as int, start + src@.len(), src@));
    }
}

/// Patch the instruction array of a `code_item` in-place (same byte length only).
pub fn patch_code_insns(dex: &mut [u8], code_off: u32, new_insns: &[u8]) -> (r: Result<()>)
    ensures
        !code_item_fits(old(dex)@, code_off as int) ==> (r matches Err(e) && e is Truncated)
            && final(dex)@ == old(dex)@,
        code_item_fits(old(dex)@, code_off as int) && new_insns@.len() != 2 * code_item_at(
            old(dex)@,
            code_off,
        ).insns_size ==> (r matches Err(DexError::Parse(m)) && m@ == mismatch_message(
            code_off,
            (2 * code_item_at(old(dex)@, code_off).insns_size) as nat,
            new_insns@.len(),
        )) && final(dex)@ == old(dex)@,
        code_item_fits(old(dex)@, code_off as int) && new_insns@.len() == 2 * code_item_at(
            old(dex)@,
            code_off,
        ).insns_size ==> r is Ok && final(dex)@ == splice(
            old(dex)@,
            code_off + 16,
            code_off + 16 + new_insns@.len(),
            new_insns@,
        ),
{
    let _len = dex.len();
    let code = CodeItem::parse(dex, code_off)?;
    let old_len = (code.insns_size as usize) * 2;
    if new_insns.len() != old_len {
        let mut msg = String::new();
        push_str(&mut msg, "instruction size mismatch at code_off 0x");
        crate::text::push_number(&mut msg, code_off as u64, 16);
        push_str(&mut msg, ": expected ");
        crate::text::push_number(&mut msg, old_len as u64, 10);
        push_str(&mut msg, " bytes, got ");
        crate::text::push_number(&mut msg, new_insns.len() as u64, 10);
        push_str(&mut msg, " (use replace_code_insns for variable-size edits)");
        return Err(DexError::Parse(msg));
    }
    copy_into(dex, code.insns_off, new_insns);
    Ok(())
}

/// The code_item that replaces the one at `code_off` (of `total_old` bytes): the same
/// header with the new unit count, the new instructions, padding when the new count is
/// odd and there are tries, then the old tries and handlers.
pub open spec fn replaced_item(data: Seq<u8>, code_off: u32, new_insns: Seq<u8>, total_old: int) -> Seq<u8> {
    let c = code_item_at(data, code_off);
    let off = code_off as int;
    let new_size = (new_insns.len() / 2) as u32;
    let pad = if spec_padding(c.tries_size, new_size) > 0 {
        seq![0u8, 0u8]
    } else {
        Seq::empty()
    };
    let tail = if c.tries_size > 0 {
        data.subrange(tries_start(c), off + total_old)
    } else {
        Seq::empty()
    };
    data.subrange(off, off + 12) + u32_le_bytes(new_size) + new_insns + pad + tail
}

/// The message for an odd instruction length.
pub open spec fn odd_message(n: nat) -> Seq<char> {
    "instruction bytes must be an even length, got "@ + crate::text::decimal(n)
}

fn push_slice(out: &mut Vec<u8>, src: &[u8])
    ensures
        final(out)@ == old(out)@ + src@,
{
    let mut k: usize = 0;
    while k < src.len()
        invariant
            k <= src@.len(),
            out@ == old(out)@ + src@.subrange(0, k as int),
        decreases src@.len() - k,
    {
        out.push(src[k]);
        k = k + 1;
        proof {
            assert(out@ =~= old(out)@ + src@.subrange(0, k as int));
        }
    }
    proof {
        assert(src@.subrange(0, src@.len() as int) =~= src@);
    }
}

fn build_replaced_item(data: &[u8], code: &CodeItem, code_off: u32, new_insns: &[u8], total_old: usize) -> (r: Vec<u8>)
    requires
        code_item_fits(data@, code_off as int),
        *code == code_item_at(data@, code_off),
        spec_code_item_size(data@, code_off) == Some(total_old as int),
        code_off + total_old <= data@.len(),
        tries_start(*code) + 8 * code.tries_size <= code_off + total_old,
        data@.len() + new_insns@.len() + 2 <= 0x7fff_ffff_ffff_ffff,
    ensures
        r@ == replaced_item(data@, code_off, new_insns@, total_old as int),
        r@.len() <= total_old + new_insns@.len() + 2,
{
    let _len = data.len();
    let off = code_off as usize;
    let old_insns_bytes = (code.insns_size as usize) * 2;
    let new_insns_size = (new_insns.len() / 2) as u32;
    let new_padding = insns_padding(code.tries_size, new_insns_size);
    let old_padding = insns_padding(code.tries_size, code.insns_size);
    let mut new_item: Vec<u8> = Vec::new();
    push_slice(&mut new_item, vstd::slice::slice_subrange(data, off, off + 12));
    new_item.push((new_insns_size % 256) as u8);
    new_item.push(((new_insns_size / 256) % 256) as u8);
    new_item.push(((new_insns_size / 65536) % 256) as u8);
    new_item.push((new_insns_size / 16777216) as u8);
    push_slice(&mut new_item, new_insns);
    if new_padding > 0 {
        new_item.push(0);
        new_item.push(0);
    }
    if code.tries_size > 0 {
        let tries_start_old = code.insns_off + old_insns_bytes + old_padding;
        push_slice(&mut new_item, vstd::slice::slice_subrange(data, tries_start_old, off + total_old));
    }
    proof {
        assert(new_item@ =~= replaced_item(data@, code_off, new_insns@, total_old as int));
    }
    new_item
}

fn spliced(data: &[u8], a: usize, b: usize, x: &[u8]) -> (r: Vec<u8>)
    requires
        a <= b <= data@.len(),
    ensures
        r@ == splice(data@, a as int, b as int, x@),
{
    let len = data.len();
    let mut out: Vec<u8> = Vec::new();
    push_slice(&mut out, vstd::slice::slice_subrange(data, 0, a));
    push_slice(&mut out, x);
    push_slice(&mut out, vstd::slice::slice_subrange(data, b, len));
    proof {
        assert(out@ =~= splice(data@, a as int, b as int, x@));
    }
    out
}

/// Replace the instruction array of a `code_item`, resizing the DEX when needed: the
/// item is rebuilt around the new instructions and every offset field past it is moved
/// by the change in size.
pub fn replace_code_insns(dex: &mut Vec<u8>, code_off: u32, new_insns: &[u8]) -> (r: Result<()>)
    requires
        old(dex)@.len() + new_insns@.len() + 2 <= 0x7fff_ffff_ffff_ffff,
    ensures
        new_insns@.len() % 2 != 0 ==> (r matches Err(DexError::Parse(m)) && m@ == odd_message(
            new_insns@.len(),
        )) && final(dex)@ == old(dex)@,
        new_insns@.len() % 2 == 0 && !code_item_fits(old(dex)@, code_off as int) ==> (r matches Err(
            e,
        ) && e is Truncated) && final(dex)@ == old(dex)@,
        new_insns@.len() % 2 == 0 && code_item_fits(old(dex)@, code_off as int) && new_insns@.len()
            == 2 * code_item_at(old(dex)@, code_off).insns_size ==> r is Ok && final(dex)@ == splice(
            old(dex)@,
            code_off + 16,
            code_off + 16 + new_insns@.len(),
            new_insns@,
        ),
        new_insns@.len() % 2 == 0 && code_item_fits(old(dex)@, code_off as int) && new_insns@.len()
            != 2 * code_item_at(old(dex)@, code_off).insns_size ==> match spec_code_item_size(
            old(dex)@,
            code_off,
        ) {
            None => (r matches Err(e) && e is Truncated) && final(dex)@ == old(dex)@,
            Some(total) => {
                let item = replaced_item(old(dex)@, code_off, new_insns@, total);
                let spliced = splice(old(dex)@, code_off as int, code_off + total, item);
                match spec_adjust(spliced, code_off + total, item.len() - total) {
                    Some(s) => r is Ok && final(dex)@ == s,
                    None => r is Err && final(dex)@.len() == spliced.len(),
                }
            },
        },
{
    if new_insns.len() % 2 != 0 {
        let mut msg = String::new();
        push_str(&mut msg, "instruction bytes must be an even length, got ");
        crate::text::push_number(&mut msg, new_insns.len() as u64, 10);
        return Err(DexError::Parse(msg));
    }
    let _len = dex.len();
    let code = CodeItem::parse(dex.as_slice(), code_off)?;
    let old_insns_bytes = (code.insns_size as usize) * 2;
    if new_insns.len() == old_insns_bytes {
        let ghost s0 = dex@;
        let r = patch_code_insns(dex.as_mut_slice(), code_off, new_insns);
        return r;
    }
    let total_old = code_item_byte_size(dex.as_slice(), code_off)?;
    let new_item = build_replaced_item(dex.as_slice(), &code, code_off, new_insns, total_old);
    let off = code_off as usize;
    let from = off + total_old;
    let delta: i64 = new_item.len() as i64 - total_old as i64;
    let out = spliced(dex.as_slice(), off, from, new_item.as_slice());
    *dex = out;
    if delta != 0 {
        adjust_file_offsets(dex.as_mut_slice(), from, delta)?;
    } else {
        proof {
            assert(spec_adjust(dex@, from as int, 0) == Some(dex@)) by {
                reveal(spec_adjust);
            }
        }
    }
    Ok(())
}

/// Calls `sha1::Sha1::digest` (through the `Digest` trait): the 20-byte SHA-1 of `data`.
#[verifier::external_body]
fn sha1_digest(data: &[u8]) -> (r: Vec<u8>)
    ensures
        r@.len() == 20,
        r@ == sha1_of(data@),
{
    <sha1::Sha1 as sha1::Digest>::digest(data).to_vec()
}

/// The SHA-1 digest of a byte string.
pub uninterp spec fn sha1_of(data: Seq<u8>) -> Seq<u8>;

/// Adler-32 state `(a, b)` after the first `k` bytes of `s`.
pub open spec fn adler_state(s: Seq<u8>, k: nat) -> (nat, nat)
    decreases k,
{
    if k == 0 {
        (1, 0)
    } else {
        let (a, b) = adler_state(s, (k - 1) as nat);
        let a2 = ((a + s[k - 1]) % 65521) as nat;
        (a2, ((b + a2) % 65521) as nat)
    }
}

/// Adler-32 of `s`: `b * 2^16 + a`.
pub open spec fn spec_adler32(s: Seq<u8>) -> u32 {
    let (a, b) = adler_state(s, s.len());
    (b * 65536 + a) as u32
}

fn adler32(data: &[u8]) -> (r: u32)
    ensures
        r == spec_adler32(data@),
{
    let mut a: u32 = 1;
    let mut b: u32 = 0;
    let mut i: usize = 0;
    while i < data.len()
        invariant
            i <= data@.len(),
            (a as nat, b as nat) == adler_state(data@, i as nat),
            a < 65521,
            b < 65521,
        decreases data@.len() - i,
    {
        a = (a + data[i] as u32) % 65521;
        b = (b + a) % 65521;
        i = i + 1;
    }
    proof {
        assert((b << 16) | a == b * 65536 + a) by (bit_vector)
            requires
                a < 65536,
                b < 65536,
        ;
    }
    (b << 16) | a
}

/// The header checksum field after [`fix_checksums`]: Adler-32 of everything from byte 12.
pub open spec fn checksum_of(data: Seq<u8>) -> u32 {
    spec_adler32(data.subrange(12, data.len() as int))
}

/// The image `d` with its signature, then its checksum, filled in: the SHA-1 of
/// everything from byte 32 goes to bytes 12..32, then the Adler-32 of everything from
/// byte 12 (the new signature included) goes to bytes 8..12.
pub open spec fn resigned(d: Seq<u8>) -> Seq<u8> {
    let s1 = splice(d, 12, 32, sha1_of(d.subrange(32, d.len() as int)));
    set_u32(s1, 8, checksum_of(s1))
}

/// The checksum covers everything from byte 12 and the signature everything from
/// byte 32, as stored.
pub open spec fn is_signed(d: Seq<u8>) -> bool {
    &&& d.len() >= 0x70
    &&& crate::leb128::u32_at(d, 8) == checksum_of(d)
    &&& d.subrange(12, 32) == sha1_of(d.subrange(32, d.len() as int))
}

/// Recompute DEX header signature (SHA-1) and checksum (Adler32): the signature first,
/// so that the checksum covers the final bytes.
pub fn fix_checksums(dex: &mut [u8]) -> (r: Result<()>)
    ensures
        old(dex)@.len() < 0x70 ==> (r matches Err(DexError::Truncated(m)) && m@
            == "dex too short for header"@) && final(dex)@ == old(dex)@,
        old(dex)@.len() >= 0x70 ==> r is Ok && final(dex)@.len() == old(dex)@.len() && final(dex)@ == resigned(
            old(dex)@,
        ) && is_signed(final(dex)@) && sha1_of(old(dex)@.subrange(32, old(dex)@.len() as int)).len() == 20,
{
    if dex.len() < 0x70 {
        return Err(truncated("dex too short for header"));
    }
    let len = dex.len();
    let signature = sha1_digest(vstd::slice::slice_subrange(dex, 32, len));
    copy_into(dex, 12, signature.as_slice());
    let checksum = adler32(vstd::slice::slice_subrange(dex, 12, len));
    write_u32(dex, 8, checksum);
    proof {
        resigning_signs(old(dex)@);
    }
    Ok(())
}

/// Filling in the checksum and signature of a signed image leaves it unchanged.
pub proof fn signed_image_is_fixed(d: Seq<u8>)
    requires
        is_signed(d),
    ensures
        resigned(d) == d,
{
    let s1 = splice(d, 12, 32, sha1_of(d.subrange(32, d.len() as int)));
    assert(s1 =~= d);
    crate::leb128::u32_write_read(d, 8, checksum_of(d));
    lemma_le_bytes_u32_unique(d, 8);
    assert(resigned(d) =~= d);
}

/// Filling in checksum and signature twice gives what filling them in once gives.
pub proof fn resigning_twice_changes_nothing(d: Seq<u8>)
    requires
        d.len() >= 0x70,
        sha1_of(d.subrange(32, d.len() as int)).len() == 20,
    ensures
        resigned(resigned(d)) == resigned(d),
{
    resigning_signs(d);
    signed_image_is_fixed(resigned(d));
}

/// The four bytes at `off` are the little-endian bytes of the word read there.
proof fn lemma_le_bytes_u32_unique(d: Seq<u8>, off: int)
    requires
        0 <= off,
        off + 4 <= d.len(),
    ensures
        d.subrange(off, off + 4) == crate::leb128::u32_le_bytes(crate::leb128::u32_at(d, off)),
{
    let v = crate::leb128::u32_at(d, off);
    let b0 = d[off];
    let b1 = d[off + 1];
    let b2 = d[off + 2];
    let b3 = d[off + 3];
    assert(v == b0 + 256 * b1 + 65536 * b2 + 16777216 * b3);
    assert(crate::leb128::u32_le_bytes(v) =~= seq![b0, b1, b2, b3]) by {
        assert((v % 256) as u8 == b0) by (nonlinear_arith)
            requires
                v == b0 + 256 * b1 + 65536 * b2 + 16777216 * b3,
                b0 < 256,
        ;
        assert(((v / 256) % 256) as u8 == b1) by (nonlinear_arith)
            requires
                v == b0 + 256 * b1 + 65536 * b2 + 16777216 * b3,
                b0 < 256,
                b1 < 256,
        ;
        assert(((v / 65536) % 256) as u8 == b2) by (nonlinear_arith)
            requires
                v == b0 + 256 * b1 + 65536 * b2 + 16777216 * b3,
                b0 < 256,
                b1 < 256,
                b2 < 256,
        ;
        assert((v / 16777216) as u8 == b3) by (nonlinear_arith)
            requires
                v == b0 + 256 * b1 + 65536 * b2 + 16777216 * b3,
                b0 < 256,
                b1 < 256,
                b2 < 256,
                b3 < 256,
        ;
    }
    assert(d.subrange(off, off + 4) =~= seq![b0, b1, b2, b3]);
}

/// Filling in signature and checksum yields a signed image of the same length, which
/// differs from `d` in bytes 8..32 only.
pub proof fn resigning_signs(d: Seq<u8>)
    requires
        d.len() >= 0x70,
        sha1_of(d.subrange(32, d.len() as int)).len() == 20,
    ensures
        is_signed(resigned(d)),
        resigned(d).len() == d.len(),
        forall|i: int| 0 <= i < d.len() && !(8 <= i < 32) ==> #[trigger] resigned(d)[i] == d[i],
{
    let sig = sha1_of(d.subrange(32, d.len() as int));
    let s1 = splice(d, 12, 32, sig);
    let d1 = resigned(d);
    assert(d1.subrange(12, d1.len() as int) =~= s1.subrange(12, s1.len() as int));
    assert(checksum_of(d1) == checksum_of(s1));
    crate::leb128::u32_write_read(s1, 8, checksum_of(s1));
    assert(d1.subrange(32, d1.len() as int) =~= d.subrange(32, d.len() as int));
    assert(d1.subrange(12, 32) =~= sig);
}

/// After a same-size patch, the code_item at `code_off` keeps its header and holds the
/// new instructions.
pub proof fn patch_then_parse(data: Seq<u8>, code_off: u32, new_insns: Seq<u8>)
    requires
        code_item_fits(data, code_off as int),
        new_insns.len() == 2 * code_item_at(data, code_off).insns_size,
    ensures
        ({
            let s = splice(data, code_off + 16, code_off + 16 + new_insns.len(), new_insns);
            &&& code_item_fits(s, code_off as int)
            &&& code_item_at(s, code_off) == code_item_at(data, code_off)
            &&& s.subrange(code_off + 16, code_off + 16 + new_insns.len()) == new_insns
        }),
{
    let s = splice(data, code_off + 16, code_off + 16 + new_insns.len(), new_insns);
    let off = code_off as int;
    assert forall|k: int| off <= k < off + 16 implies #[trigger] s[k] == data[k] by {}
    assert(s.subrange(off + 16, off + 16 + new_insns.len()) =~= new_insns);
}

/// A variable-size replace puts, before any offset is moved, a code_item at `code_off`
/// whose unit count is that of the new instructions and whose instruction array is them.
pub proof fn replace_then_parse(data: Seq<u8>, code_off: u32, new_insns: Seq<u8>, total: int)
    requires
        code_item_fits(data, code_off as int),
        spec_code_item_size(data, code_off) == Some(total),
        code_off + total <= data.len(),
        tries_start(code_item_at(data, code_off)) + 8 * code_item_at(data, code_off).tries_size
            <= code_off + total,
        new_insns.len() % 2 == 0,
        new_insns.len() / 2 <= u32::MAX,
    ensures
        ({
            let s = splice(data, code_off as int, code_off + total, replaced_item(data, code_off, new_insns, total));
            &&& code_item_fits(s, code_off as int)
            &&& code_item_at(s, code_off).insns_size == new_insns.len() / 2
            &&& s.subrange(code_off + 16, code_off + 16 + new_insns.len()) == new_insns
        }),
{
    let off = code_off as int;
    let item = replaced_item(data, code_off, new_insns, total);
    let s = splice(data, off, off + total, item);
    let n = (new_insns.len() / 2) as u32;
    assert(item.len() >= 16 + new_insns.len());
    assert forall|k: int| off <= k < off + item.len() implies #[trigger] s[k] == item[k - off] by {}
    assert(s[off + 12] == u32_le_bytes(n)[0]);
    assert(s[off + 13] == u32_le_bytes(n)[1]);
    assert(s[off + 14] == u32_le_bytes(n)[2]);
    assert(s[off + 15] == u32_le_bytes(n)[3]);
    assert(crate::leb128::u32_at(s, off + 12) == n) by {
        lemma_le_bytes_u32(n);
    }
    assert(s.subrange(off + 16, off + 16 + new_insns.len()) =~= new_insns);
}

proof fn lemma_le_bytes_u32(v: u32)
    ensures
        crate::leb128::le32(
            u32_le_bytes(v)[0],
            u32_le_bytes(v)[1],
            u32_le_bytes(v)[2],
            u32_le_bytes(v)[3],
        ) == v,
{
}


/// `a` and `b` have the same length and the same bytes at the positions in `[lo, hi)`.
pub open spec fn same_within(a: Seq<u8>, b: Seq<u8>, lo: int, hi: int) -> bool {
    &&& a.len() == b.len()
    &&& forall|q: int| lo <= q < hi && 0 <= q < a.len() ==> #[trigger] a[q] == b[q]
}

proof fn lemma_same_within_trans(a: Seq<u8>, b: Seq<u8>, c: Seq<u8>, lo: int, hi: int)
    requires
        same_within(a, b, lo, hi),
        same_within(b, c, lo, hi),
    ensures
        same_within(a, c, lo, hi),
{
    assert forall|q: int| lo <= q < hi && 0 <= q < a.len() implies #[trigger] a[q] == c[q] by {
        assert(a[q] == b[q]);
    }
}

proof fn lemma_set_u32_frame(s: Seq<u8>, pos: int, v: u32, lo: int, hi: int)
    requires
        0 <= pos,
        pos + 4 <= s.len(),
        pos + 4 <= lo || hi <= pos,
    ensures
        same_within(s, set_u32(s, pos, v), lo, hi),
{
    let t = set_u32(s, pos, v);
    assert(t.len() == s.len());
    assert forall|q: int| lo <= q < hi && 0 <= q < s.len() implies #[trigger] s[q] == t[q] by {
        if q < pos {
            assert(t[q] == s.subrange(0, pos)[q]);
        } else {
            assert(q >= pos + 4);
            assert(t[q] == s.subrange(pos + 4, s.len() as int)[q - pos - 4]);
        }
    }
}

proof fn lemma_fold_protos_frame(s: Seq<u8>, h: DexHeader, from: int, delta: int, i: nat, lo: int, hi: int)
    requires
        fold_protos(s, h, from, delta, i) is Some,
        h.proto_ids_off + 12 * h.proto_ids_size <= lo || hi <= h.proto_ids_off,
    ensures
        same_within(s, fold_protos(s, h, from, delta, i)->0, lo, hi),
    decreases h.proto_ids_size - i,
{
    if i < h.proto_ids_size {
        let pos = h.proto_ids_off + 12 * i + 8;
        let s1 = adj_at_nonzero(s, pos, from, delta)->0;
        let v = spec_read_u32(s, pos)->0;
        if v != 0 {
            lemma_set_u32_frame(s, pos, adj(v, from, delta), lo, hi);
        }
        lemma_fold_protos_frame(s1, h, from, delta, i + 1, lo, hi);
        lemma_same_within_trans(s, s1, fold_protos(s, h, from, delta, i)->0, lo, hi);
    }
}

proof fn lemma_fold_map_frame(s: Seq<u8>, off: int, size: nat, from: int, delta: int, i: nat, lo: int, hi: int)
    requires
        fold_map(s, off, size, from, delta, i) is Some,
        hi <= off,
    ensures
        same_within(s, fold_map(s, off, size, from, delta, i)->0, lo, hi),
    decreases size - i,
{
    if i < size {
        let pos = off + 4 + 12 * i + 8;
        let s1 = adj_at(s, pos, from, delta)->0;
        lemma_set_u32_frame(s, pos, adj(spec_read_u32(s, pos)->0, from, delta), lo, hi);
        lemma_fold_map_frame(s1, off, size, from, delta, i + 1, lo, hi);
        lemma_same_within_trans(s, s1, fold_map(s, off, size, from, delta, i)->0, lo, hi);
    }
}

/// Entry `k` of the `string_ids` table of header `h` in `s`.
pub open spec fn string_entry(s: Seq<u8>, h: DexHeader, k: int) -> u32 {
    crate::leb128::u32_at(s, h.string_ids_off + 4 * k)
}

proof fn lemma_u32_at_same(a: Seq<u8>, b: Seq<u8>, pos: int, lo: int, hi: int)
    requires
        same_within(a, b, lo, hi),
        lo <= pos,
        pos + 4 <= hi,
        0 <= pos,
        pos + 4 <= a.len(),
    ensures
        crate::leb128::u32_at(a, pos) == crate::leb128::u32_at(b, pos),
{
    assert(a[pos] == b[pos]);
    assert(a[pos + 1] == b[pos + 1]);
    assert(a[pos + 2] == b[pos + 2]);
    assert(a[pos + 3] == b[pos + 3]);
}

proof fn lemma_header_writes_frame(s: Seq<u8>, h: DexHeader, from: int, delta: int, lo: int, hi: int)
    requires
        s.len() >= HEADER_SIZE,
        HEADER_SIZE <= lo,
    ensures
        same_within(s, header_writes(s, h, from, delta), lo, hi),
{
    let a1 = set_u32(s, 32, adj(h.file_size, from, delta));
    lemma_set_u32_frame(s, 32, adj(h.file_size, from, delta), lo, hi);
    let a2 = if h.data_off <= from {
        set_u32(a1, 104, adj(h.data_size, from, delta))
    } else {
        a1
    };
    if h.data_off <= from {
        lemma_set_u32_frame(a1, 104, adj(h.data_size, from, delta), lo, hi);
    }
    lemma_same_within_trans(s, a1, a2, lo, hi);
    let a3 = set_u32(a2, 52, adj(h.map_off, from, delta));
    lemma_set_u32_frame(a2, 52, adj(h.map_off, from, delta), lo, hi);
    lemma_same_within_trans(s, a2, a3, lo, hi);
    lemma_set_u32_frame(a3, 48, adj(h.link_off, from, delta), lo, hi);
    lemma_same_within_trans(s, a3, header_writes(s, h, from, delta), lo, hi);
}

#[verifier::spinoff_prover]
#[verifier::rlimit(40)]
proof fn lemma_fold_strings_moves(s: Seq<u8>, h: DexHeader, from: int, delta: int, i: nat)
    requires
        fold_strings(s, h, from, delta, i) is Some,
    ensures
        fold_strings(s, h, from, delta, i)->0.len() == s.len(),
        forall|k: int|
            i <= k < h.string_ids_size ==> #[trigger] string_entry(fold_strings(s, h, from, delta, i)->0, h, k)
                == adj(string_entry(s, h, k), from, delta),
        same_within(s, fold_strings(s, h, from, delta, i)->0, 0, h.string_ids_off + 4 * i),
    decreases h.string_ids_size - i,
{
    if i < h.string_ids_size {
        let so = h.string_ids_off as int;
        let pos = so + 4 * i;
        let v = spec_read_u32(s, pos)->0;
        let s1 = set_u32(s, pos, adj(v, from, delta));
        let t = fold_strings(s, h, from, delta, i)->0;
        assert(fold_strings(s, h, from, delta, i) == fold_strings(s1, h, from, delta, i + 1));
        lemma_fold_strings_moves(s1, h, from, delta, i + 1);
        assert forall|k: int| i + 1 <= k < h.string_ids_size implies #[trigger] string_entry(s1, h, k)
            == string_entry(s, h, k) by {
            lemma_fold_strings_reads(s, h, from, delta, i, k);
            lemma_set_u32_frame(s, pos, adj(v, from, delta), so + 4 * k, so + 4 * k + 4);
            lemma_u32_at_same(s, s1, so + 4 * k, so + 4 * k, so + 4 * k + 4);
        }
        crate::leb128::u32_write_read(s, pos, adj(v, from, delta));
        lemma_u32_at_same(s1, t, pos, 0, pos + 4);
        lemma_set_u32_frame(s, pos, adj(v, from, delta), 0, pos);
        assert(same_within(s1, t, 0, pos));
        lemma_same_within_trans(s, s1, t, 0, pos);
    }
}

/// After `delta` bytes were inserted (or removed) at `from`, moving the file offsets
/// moves every string: the `string_data_off` of each `string_ids` entry that pointed at or
/// past `from` (other than 0 and `NO_INDEX`) is increased by `delta` (modulo 2^32), and
/// every other entry keeps its value, so each string reads from where its bytes now
/// are. This holds of images whose string table lies past the header, apart from the
/// prototype table and before the map list, and that define no classes (whose class
/// data could otherwise be placed over the string table).
#[verifier::spinoff_prover]
#[verifier::rlimit(60)]
pub proof fn string_offsets_move_with_their_data(s: Seq<u8>, from: int, delta: int, k: int)
    requires
        delta != 0,
        spec_adjust(s, from, delta) is Some,
        0 <= k < header_at(s).string_ids_size,
        HEADER_SIZE <= header_at(s).string_ids_off,
        header_at(s).class_defs_size == 0,
        header_at(s).proto_ids_off + 12 * header_at(s).proto_ids_size <= header_at(s).string_ids_off
            || header_at(s).string_ids_off + 4 * header_at(s).string_ids_size <= header_at(s).proto_ids_off,
        header_at(s).map_off == 0 || header_at(s).string_ids_off + 4 * header_at(s).string_ids_size <= adj(
            header_at(s).map_off,
            from,
            delta,
        ),
    ensures
        ({
            let so = header_at(s).string_ids_off as int;
            let v = crate::leb128::u32_at(s, so + 4 * k);
            let t = spec_adjust(s, from, delta)->0;
            crate::leb128::u32_at(t, so + 4 * k) == if v == 0 || v == 0xffff_ffff || v < from {
                v
            } else {
                ((v + delta) % 0x1_0000_0000) as u32
            }
        }),
{
    let h = header_at(s);
    let so = h.string_ids_off as int;
    let lo = so;
    let hi = so + 4 * h.string_ids_size;
    assert(s.len() >= HEADER_SIZE && has_dex_magic(s)) by {
        reveal(spec_adjust);
    }
    let s1 = header_writes(s, h, from, delta);
    assert(spec_adjust(s, from, delta) == rest_passes(s1, h, from, delta)) by {
        reveal(spec_adjust);
    }
    lemma_header_writes_frame(s, h, from, delta, lo, hi);
    let t = spec_adjust(s, from, delta)->0;
    assert(fold_strings(s1, h, from, delta, 0) is Some) by {
        reveal(rest_passes);
    }
    let s2 = fold_strings(s1, h, from, delta, 0)->0;
    lemma_fold_strings_moves(s1, h, from, delta, 0);
    assert(string_entry(s2, h, k) == adj(string_entry(s1, h, k), from, delta));
    assert(fold_protos(s2, h, from, delta, 0) is Some) by {
        reveal(rest_passes);
    }
    let s3 = fold_protos(s2, h, from, delta, 0)->0;
    lemma_fold_protos_frame(s2, h, from, delta, 0, lo, hi);
    assert(fold_classes(s3, h, from, delta, 0) == Some(s3));
    assert(fold_debug(s3, h, from, delta, 0) == Some(s3));
    if h.map_off != 0 {
        let m = adj(h.map_off, from, delta);
        assert(t == map_pass(s3, m, from, delta)->0 && map_pass(s3, m, from, delta) is Some) by {
            reveal(rest_passes);
        }
        assert(m as int + 4 <= s3.len());
        lemma_fold_map_frame(s3, m as int, crate::leb128::u32_at(s3, m as int) as nat, from, delta, 0, lo, hi);
    } else {
        assert(t == s3) by {
            reveal(rest_passes);
        }
    }
    assert(same_within(s3, t, lo, hi));
    lemma_same_within_trans(s2, s3, t, lo, hi);
    assert(s1.len() >= so + 4 * k + 4) by {
        assert(spec_read_u32(s1, so + 4 * k) is Some) by {
            reveal(rest_passes);
            lemma_fold_strings_reads(s1, h, from, delta, 0, k);
        }
    }
    lemma_u32_at_same(s, s1, so + 4 * k, lo, hi);
    lemma_u32_at_same(s2, t, so + 4 * k, lo, hi);
}

proof fn lemma_fold_strings_reads(s: Seq<u8>, h: DexHeader, from: int, delta: int, i: nat, k: int)
    requires
        fold_strings(s, h, from, delta, i) is Some,
        i <= k < h.string_ids_size,
    ensures
        spec_read_u32(s, h.string_ids_off + 4 * k) is Some,
    decreases h.string_ids_size - i,
{
    let pos = h.string_ids_off + 4 * i;
    if k > i {
        let s1 = adj_at(s, pos, from, delta)->0;
        lemma_fold_strings_reads(s1, h, from, delta, i + 1, k);
    }
}

proof fn lemma_fold_strings_frame(s: Seq<u8>, h: DexHeader, from: int, delta: int, i: nat, lo: int, hi: int)
    requires
        fold_strings(s, h, from, delta, i) is Some,
        h.string_ids_off + 4 * h.string_ids_size <= lo || hi <= h.string_ids_off,
    ensures
        same_within(s, fold_strings(s, h, from, delta, i)->0, lo, hi),
    decreases h.string_ids_size - i,
{
    if i < h.string_ids_size {
        let pos = h.string_ids_off + 4 * i;
        let s1 = adj_at(s, pos, from, delta)->0;
        lemma_set_u32_frame(s, pos, adj(spec_read_u32(s, pos)->0, from, delta), lo, hi);
        lemma_fold_strings_frame(s1, h, from, delta, i + 1, lo, hi);
        lemma_same_within_trans(s, s1, fold_strings(s, h, from, delta, i)->0, lo, hi);
    }
}

/// The `parameters_off` of entry `j` of the `proto_ids` table of header `h` in `s`.
pub open spec fn proto_params_entry(s: Seq<u8>, h: DexHeader, j: int) -> u32 {
    crate::leb128::u32_at(s, h.proto_ids_off + 12 * j + 8)
}

proof fn lemma_fold_protos_reads(s: Seq<u8>, h: DexHeader, from: int, delta: int, i: nat, j: int)
    requires
        fold_protos(s, h, from, delta, i) is Some,
        i <= j < h.proto_ids_size,
    ensures
        spec_read_u32(s, h.proto_ids_off + 12 * j + 8) is Some,
    decreases h.proto_ids_size - i,
{
    let pos = h.proto_ids_off + 12 * i + 8;
    if j > i {
        let s1 = adj_at_nonzero(s, pos, from, delta)->0;
        lemma_fold_protos_reads(s1, h, from, delta, i + 1, j);
    }
}

#[verifier::spinoff_prover]
#[verifier::rlimit(40)]
proof fn lemma_fold_protos_moves(s: Seq<u8>, h: DexHeader, from: int, delta: int, i: nat)
    requires
        fold_protos(s, h, from, delta, i) is Some,
    ensures
        fold_protos(s, h, from, delta, i)->0.len() == s.len(),
        forall|j: int|
            i <= j < h.proto_ids_size ==> #[trigger] proto_params_entry(fold_protos(s, h, from, delta, i)->0, h, j)
                == adj(proto_params_entry(s, h, j), from, delta),
        same_within(s, fold_protos(s, h, from, delta, i)->0, 0, h.proto_ids_off + 12 * i + 8),
    decreases h.proto_ids_size - i,
{
    if i < h.proto_ids_size {
        let po = h.proto_ids_off as int;
        let pos = po + 12 * i + 8;
        let v = spec_read_u32(s, pos)->0;
        let s1 = if v != 0 {
            set_u32(s, pos, adj(v, from, delta))
        } else {
            s
        };
        let t = fold_protos(s, h, from, delta, i)->0;
        assert(fold_protos(s, h, from, delta, i) == fold_protos(s1, h, from, delta, i + 1));
        lemma_fold_protos_moves(s1, h, from, delta, i + 1);
        assert forall|j: int| i + 1 <= j < h.proto_ids_size implies #[trigger] proto_params_entry(s1, h, j)
            == proto_params_entry(s, h, j) by {
            if v != 0 {
                lemma_fold_protos_reads(s, h, from, delta, i, j);
                lemma_set_u32_frame(s, pos, adj(v, from, delta), po + 12 * j + 8, po + 12 * j + 12);
                lemma_u32_at_same(s, s1, po + 12 * j + 8, po + 12 * j + 8, po + 12 * j + 12);
            }
        }
        if v != 0 {
            crate::leb128::u32_write_read(s, pos, adj(v, from, delta));
            lemma_set_u32_frame(s, pos, adj(v, from, delta), 0, pos);
        }
        assert(proto_params_entry(s1, h, i as int) == adj(v, from, delta));
        lemma_u32_at_same(s1, t, pos, 0, pos + 4);
        assert(same_within(s1, t, 0, pos));
        lemma_same_within_trans(s, s1, t, 0, pos);
    }
}

/// After `delta` bytes were inserted (or removed) at `from`, moving the file offsets
/// moves the parameter list of every prototype: the `parameters_off` of each `proto_ids`
/// entry that pointed at or past `from` (other than 0 and `NO_INDEX`) is increased by
/// `delta` (modulo 2^32), and every other entry keeps its value. This holds of images
/// whose prototype table lies past the header, apart from the string table and before
/// the map list, and that define no classes.
#[verifier::spinoff_prover]
#[verifier::rlimit(60)]
pub proof fn proto_parameter_offsets_move_with_their_data(s: Seq<u8>, from: int, delta: int, j: int)
    requires
        delta != 0,
        spec_adjust(s, from, delta) is Some,
        0 <= j < header_at(s).proto_ids_size,
        HEADER_SIZE <= header_at(s).proto_ids_off,
        header_at(s).class_defs_size == 0,
        header_at(s).proto_ids_off + 12 * header_at(s).proto_ids_size <= header_at(s).string_ids_off
            || header_at(s).string_ids_off + 4 * header_at(s).string_ids_size <= header_at(s).proto_ids_off,
        header_at(s).map_off == 0 || header_at(s).proto_ids_off + 12 * header_at(s).proto_ids_size <= adj(
            header_at(s).map_off,
            from,
            delta,
        ),
    ensures
        ({
            let pos = header_at(s).proto_ids_off + 12 * j + 8;
            let v = crate::leb128::u32_at(s, pos);
            let t = spec_adjust(s, from, delta)->0;
            crate::leb128::u32_at(t, pos) == if v == 0 || v == 0xffff_ffff || v < from {
                v
            } else {
                ((v + delta) % 0x1_0000_0000) as u32
            }
        }),
{
    let h = header_at(s);
    let po = h.proto_ids_off as int;
    let lo = po;
    let hi = po + 12 * h.proto_ids_size;
    let pos = po + 12 * j + 8;
    assert(s.len() >= HEADER_SIZE && has_dex_magic(s)) by {
        reveal(spec_adjust);
    }
    let s1 = header_writes(s, h, from, delta);
    assert(spec_adjust(s, from, delta) == rest_passes(s1, h, from, delta)) by {
        reveal(spec_adjust);
    }
    lemma_header_writes_frame(s, h, from, delta, lo, hi);
    let t = spec_adjust(s, from, delta)->0;
    assert(fold_strings(s1, h, from, delta, 0) is Some) by {
        reveal(rest_passes);
    }
    let s2 = fold_strings(s1, h, from, delta, 0)->0;
    lemma_fold_strings_frame(s1, h, from, delta, 0, lo, hi);
    lemma_same_within_trans(s, s1, s2, lo, hi);
    assert(fold_protos(s2, h, from, delta, 0) is Some) by {
        reveal(rest_passes);
    }
    let s3 = fold_protos(s2, h, from, delta, 0)->0;
    lemma_fold_protos_moves(s2, h, from, delta, 0);
    assert(proto_params_entry(s3, h, j) == adj(proto_params_entry(s2, h, j), from, delta));
    assert(fold_classes(s3, h, from, delta, 0) == Some(s3));
    assert(fold_debug(s3, h, from, delta, 0) == Some(s3));
    if h.map_off != 0 {
        let m = adj(h.map_off, from, delta);
        assert(t == map_pass(s3, m, from, delta)->0 && map_pass(s3, m, from, delta) is Some) by {
            reveal(rest_passes);
        }
        lemma_fold_map_frame(s3, m as int, crate::leb128::u32_at(s3, m as int) as nat, from, delta, 0, lo, hi);
    } else {
        assert(t == s3) by {
            reveal(rest_passes);
        }
    }
    lemma_fold_protos_reads(s2, h, from, delta, 0, j);
    lemma_u32_at_same(s, s2, pos, lo, hi);
    lemma_u32_at_same(s3, t, pos, lo, hi);
}


proof fn lemma_fold_map_reads(s: Seq<u8>, off: int, size: nat, from: int, delta: int, i: nat, j: int)
    requires
        fold_map(s, off, size, from, delta, i) is Some,
        i <= j < size,
    ensures
        spec_read_u32(s, off + 12 * j + 12) is Some,
    decreases size - i,
{
    if j > i {
        let s1 = adj_at(s, off + 4 + 12 * i + 8, from, delta)->0;
        lemma_fold_map_reads(s1, off, size, from, delta, i + 1, j);
    }
}

#[verifier::spinoff_prover]
#[verifier::rlimit(40)]
proof fn lemma_fold_map_moves(s: Seq<u8>, off: int, size: nat, from: int, delta: int, i: nat)
    requires
        fold_map(s, off, size, from, delta, i) is Some,
    ensures
        fold_map(s, off, size, from, delta, i)->0.len() == s.len(),
        forall|j: int|
            i <= j < size ==> #[trigger] crate::leb128::u32_at(fold_map(s, off, size, from, delta, i)->0, off + 12 * j + 12)
                == adj(crate::leb128::u32_at(s, off + 12 * j + 12), from, delta),
        same_within(s, fold_map(s, off, size, from, delta, i)->0, 0, off + 12 * i + 12),
    decreases size - i,
{
    if i < size {
        let pos = off + 4 + 12 * i + 8;
        let v = spec_read_u32(s, pos)->0;
        let s1 = set_u32(s, pos, adj(v, from, delta));
        let t = fold_map(s, off, size, from, delta, i)->0;
        assert(fold_map(s, off, size, from, delta, i) == fold_map(s1, off, size, from, delta, i + 1));
        lemma_fold_map_moves(s1, off, size, from, delta, i + 1);
        assert forall|j: int| i + 1 <= j < size implies #[trigger] crate::leb128::u32_at(s1, off + 12 * j + 12)
            == crate::leb128::u32_at(s, off + 12 * j + 12) by {
            lemma_fold_map_reads(s, off, size, from, delta, i, j);
            lemma_set_u32_frame(s, pos, adj(v, from, delta), off + 12 * j + 12, off + 12 * j + 16);
            lemma_u32_at_same(s, s1, off + 12 * j + 12, off + 12 * j + 12, off + 12 * j + 16);
        }
        crate::leb128::u32_write_read(s, pos, adj(v, from, delta));
        lemma_set_u32_frame(s, pos, adj(v, from, delta), 0, pos);
        lemma_u32_at_same(s1, t, pos, 0, pos + 4);
        assert(same_within(s1, t, 0, pos));
        lemma_same_within_trans(s, s1, t, 0, pos);
    }
}

/// After `delta` bytes were inserted (or removed) at `from`, moving the file offsets
/// moves every item the map list locates: the map, read where its moved offset `m`
/// points, has the offset of each of its items that pointed at or past `from` (other
/// than 0 and `NO_INDEX`) increased by `delta` (modulo 2^32), and every other item
/// offset unchanged. This holds of images whose map lies past the header and apart from
/// the string and prototype tables, and that define no classes.
#[verifier::spinoff_prover]
#[verifier::rlimit(60)]
pub proof fn map_item_offsets_move_with_their_data(s: Seq<u8>, from: int, delta: int, i: int)
    requires
        delta != 0,
        spec_adjust(s, from, delta) is Some,
        header_at(s).map_off != 0,
        header_at(s).class_defs_size == 0,
        ({
            let m = adj(header_at(s).map_off, from, delta) as int;
            let end = m + 4 + 12 * crate::leb128::u32_at(s, m);
            &&& HEADER_SIZE <= m
            &&& 0 <= i < crate::leb128::u32_at(s, m)
            &&& (end <= header_at(s).string_ids_off || header_at(s).string_ids_off + 4 * header_at(s).string_ids_size
                <= m)
            &&& (end <= header_at(s).proto_ids_off || header_at(s).proto_ids_off + 12 * header_at(s).proto_ids_size
                <= m)
        }),
    ensures
        ({
            let pos = adj(header_at(s).map_off, from, delta) + 12 * i + 12;
            let v = crate::leb128::u32_at(s, pos);
            let t = spec_adjust(s, from, delta)->0;
            crate::leb128::u32_at(t, pos) == if v == 0 || v == 0xffff_ffff || v < from {
                v
            } else {
                ((v + delta) % 0x1_0000_0000) as u32
            }
        }),
{
    let h = header_at(s);
    let m = adj(h.map_off, from, delta) as int;
    let size = crate::leb128::u32_at(s, m);
    let lo = m;
    let hi = m + 4 + 12 * size;
    let pos = m + 12 * i + 12;
    assert(s.len() >= HEADER_SIZE && has_dex_magic(s)) by {
        reveal(spec_adjust);
    }
    let s1 = header_writes(s, h, from, delta);
    assert(spec_adjust(s, from, delta) == rest_passes(s1, h, from, delta)) by {
        reveal(spec_adjust);
    }
    lemma_header_writes_frame(s, h, from, delta, lo, hi);
    let t = spec_adjust(s, from, delta)->0;
    assert(fold_strings(s1, h, from, delta, 0) is Some) by {
        reveal(rest_passes);
    }
    let s2 = fold_strings(s1, h, from, delta, 0)->0;
    lemma_fold_strings_frame(s1, h, from, delta, 0, lo, hi);
    lemma_same_within_trans(s, s1, s2, lo, hi);
    assert(fold_protos(s2, h, from, delta, 0) is Some) by {
        reveal(rest_passes);
    }
    let s3 = fold_protos(s2, h, from, delta, 0)->0;
    lemma_fold_protos_frame(s2, h, from, delta, 0, lo, hi);
    lemma_same_within_trans(s, s2, s3, lo, hi);
    assert(fold_classes(s3, h, from, delta, 0) == Some(s3));
    assert(fold_debug(s3, h, from, delta, 0) == Some(s3));
    assert(t == map_pass(s3, m as u32, from, delta)->0 && map_pass(s3, m as u32, from, delta) is Some) by {
        reveal(rest_passes);
    }
    assert(m + 4 <= s3.len());
    lemma_u32_at_same(s, s3, m, lo, hi);
    let sz = crate::leb128::u32_at(s3, m) as nat;
    assert(t == fold_map(s3, m, sz, from, delta, 0)->0);
    lemma_fold_map_moves(s3, m, sz, from, delta, 0);
    lemma_fold_map_reads(s3, m, sz, from, delta, 0, i);
    lemma_u32_at_same(s, s3, pos, lo, hi);
}

} // verus!
