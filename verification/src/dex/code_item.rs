//! code_item: registers_size, ins_size, outs_size, tries_size, debug_info_off,
//! insns_size, insns[], padding?, tries?, handlers?

use vstd::prelude::*;

use crate::error::{truncated, DexError, Result};
use crate::leb128::{
    lemma_read_leb_consumed, lemma_sleb_read_at, lemma_uleb_read_at,
    read_sleb128, read_u16, read_u32, read_uleb128, sleb_encode, spec_read_sleb128, spec_read_u16, spec_read_u32,
    spec_read_uleb128, u16_at, u32_at, uleb_encode,
};

verus! {

/// Header of one `code_item`, with the position of its instruction array.
#[derive(Clone, Debug)]
pub struct CodeItem {
    pub registers_size: u16,
    pub ins_size: u16,
    pub outs_size: u16,
    pub tries_size: u16,
    pub debug_info_off: u32,
    /// Size in 16-bit code units (bytes = insns_size * 2).
    pub insns_size: u32,
    /// Offset into file where insns array starts (after code_item header).
    pub insns_off: usize,
    pub code_off: u32,
}

/// One `try_item` with its decoded catch handlers.
#[derive(Clone, Debug)]
pub struct TryItem {
    pub start_unit: u32,
    pub insn_count: u16,
    /// `(Some(type_idx), addr)` or `(None, addr)` for catch-all.
    pub handlers: Vec<(Option<u32>, u32)>,
}

/// Whether the 16-byte header and the instruction array at `off` lie within `data`.
pub open spec fn code_item_fits(data: Seq<u8>, off: int) -> bool {
    &&& off + 16 <= data.len()
    &&& off + 16 + 2 * u32_at(data, off + 12) <= data.len()
}

/// The header fields that `CodeItem::parse(data, code_off)` reads.
pub open spec fn code_item_at(data: Seq<u8>, code_off: u32) -> CodeItem {
    let off = code_off as int;
    CodeItem {
        registers_size: u16_at(data, off),
        ins_size: u16_at(data, off + 2),
        outs_size: u16_at(data, off + 4),
        tries_size: u16_at(data, off + 6),
        debug_info_off: u32_at(data, off + 8),
        insns_size: u32_at(data, off + 12),
        insns_off: (off + 16) as usize,
        code_off,
    }
}

/// `count` typed handlers `(type_idx, addr)` read from `pos`; gives them and the position after.
pub open spec fn spec_typed_handlers(data: Seq<u8>, pos: int, count: nat) -> Option<
    (Seq<(Option<u32>, u32)>, int),
>
    decreases count,
{
    if count == 0 {
        Some((Seq::empty(), pos))
    } else {
        match spec_read_uleb128(data, pos) {
            Some((ty, n1)) => match spec_read_uleb128(data, pos + n1) {
                Some((addr, n2)) => match spec_typed_handlers(data, pos + n1 + n2, (count - 1) as nat) {
                    Some((rest, end)) => Some((seq![(Some(ty), addr)] + rest, end)),
                    None => None,
                },
                None => None,
            },
            None => None,
        }
    }
}

/// Magnitude of a handler-list size.
pub open spec fn size_magnitude(size: i32) -> nat {
    if size < 0 {
        (-(size as int)) as nat
    } else {
        size as nat
    }
}

/// An `encoded_catch_handler` at `pos`: sleb128 size, `|size|` typed handlers, then a
/// catch-all address when `size <= 0`.
pub open spec fn spec_catch_handler(data: Seq<u8>, pos: int) -> Option<Seq<(Option<u32>, u32)>> {
    match spec_read_sleb128(data, pos) {
        Some((size, n)) => match spec_typed_handlers(data, pos + n, size_magnitude(size)) {
            Some((hs, p)) => if size <= 0 {
                match spec_read_uleb128(data, p) {
                    Some((addr, _)) => Some(hs.push((None, addr))),
                    None => None,
                }
            } else {
                Some(hs)
            },
            None => None,
        },
        None => None,
    }
}

/// The bytes of the typed handler pairs `ps`: each type index, then its address, as uleb128.
pub open spec fn typed_pairs_bytes(ps: Seq<(u32, u32)>) -> Seq<u8>
    decreases ps.len(),
{
    if ps.len() == 0 {
        Seq::empty()
    } else {
        uleb_encode(ps[0].0 as nat) + uleb_encode(ps[0].1 as nat) + typed_pairs_bytes(ps.drop_first())
    }
}

/// The handlers the pairs `ps` stand for: a catch of type `t` at address `a` for each.
pub open spec fn typed_handlers(ps: Seq<(u32, u32)>) -> Seq<(Option<u32>, u32)> {
    Seq::new(ps.len(), |k: int| (Some(ps[k].0), ps[k].1))
}

proof fn lemma_typed_pairs_read(p: Seq<u8>, ps: Seq<(u32, u32)>, r: Seq<u8>)
    ensures
        spec_typed_handlers(p + typed_pairs_bytes(ps) + r, p.len() as int, ps.len()) == Some(
            (typed_handlers(ps), p.len() + typed_pairs_bytes(ps).len() as int),
        ),
    decreases ps.len(),
{
    if ps.len() == 0 {
        assert(typed_handlers(ps) =~= Seq::<(Option<u32>, u32)>::empty());
        assert(typed_pairs_bytes(ps) =~= Seq::<u8>::empty());
    } else {
        let e1 = uleb_encode(ps[0].0 as nat);
        let e2 = uleb_encode(ps[0].1 as nat);
        let tail = typed_pairs_bytes(ps.drop_first());
        let d = p + typed_pairs_bytes(ps) + r;
        assert(d =~= p + e1 + (e2 + tail + r));
        lemma_uleb_read_at(p, ps[0].0, e2 + tail + r);
        assert(d =~= (p + e1) + e2 + (tail + r));
        lemma_uleb_read_at(p + e1, ps[0].1, tail + r);
        assert(d =~= (p + e1 + e2) + tail + r);
        lemma_typed_pairs_read(p + e1 + e2, ps.drop_first(), r);
        assert(typed_handlers(ps) =~= seq![(Some(ps[0].0), ps[0].1)] + typed_handlers(ps.drop_first()));
    }
}

/// An `encoded_catch_handler` whose size is `-k` (`k` >= 0, so also size 0) holds `k`
/// typed handlers and then a catch-all address: it decodes to the typed handlers in
/// order followed by exactly one `(None, addr)`.
pub proof fn nonpositive_size_ends_with_catch_all(ps: Seq<(u32, u32)>, addr: u32, rest: Seq<u8>)
    requires
        ps.len() <= 0x7fff_ffff,
    ensures
        spec_catch_handler(
            sleb_encode(-(ps.len() as int)) + typed_pairs_bytes(ps) + uleb_encode(addr as nat) + rest,
            0,
        ) == Some(typed_handlers(ps).push((None, addr))),
{
    let v: i32 = (-(ps.len() as int)) as i32;
    let es = sleb_encode(v as int);
    let tp = typed_pairs_bytes(ps);
    let ea = uleb_encode(addr as nat);
    let d = es + tp + ea + rest;
    assert(d =~= es + (tp + ea + rest));
    lemma_sleb_read_at(v, tp + ea + rest);
    assert(size_magnitude(v) == ps.len());
    assert(d =~= es + tp + (ea + rest));
    lemma_typed_pairs_read(es, ps, ea + rest);
    assert(d =~= (es + tp) + ea + rest);
    lemma_uleb_read_at(es + tp, addr, rest);
}

/// An `encoded_catch_handler` with a positive size `k` holds just `k` typed handlers:
/// no catch-all follows them.
pub proof fn positive_size_has_no_catch_all(ps: Seq<(u32, u32)>, rest: Seq<u8>)
    requires
        1 <= ps.len() <= 0x7fff_ffff,
    ensures
        spec_catch_handler(sleb_encode(ps.len() as int) + typed_pairs_bytes(ps) + rest, 0) == Some(
            typed_handlers(ps),
        ),
{
    let v: i32 = ps.len() as i32;
    let es = sleb_encode(v as int);
    let tp = typed_pairs_bytes(ps);
    let d = es + tp + rest;
    assert(d =~= es + (tp + rest));
    lemma_sleb_read_at(v, tp + rest);
    assert(size_magnitude(v) == ps.len());
    lemma_typed_pairs_read(es, ps, rest);
}

/// Where the `try_item` array of `c` starts (after insns and the alignment padding).
pub open spec fn spec_tries_pos(c: CodeItem) -> int {
    c.insns_off + 2 * c.insns_size + if c.insns_size % 2 == 1 {
        2int
    } else {
        0int
    }
}

/// The `i`-th `try_item` of `c`: `(start_addr, insn_count, handlers)`.
pub open spec fn spec_try_item(c: CodeItem, data: Seq<u8>, i: int) -> Option<
    (u32, u16, Seq<(Option<u32>, u32)>),
> {
    let base = spec_tries_pos(c) + 8 * i;
    let handlers_base = spec_tries_pos(c) + 8 * c.tries_size;
    match (spec_read_u32(data, base), spec_read_u16(data, base + 4), spec_read_u16(data, base + 6)) {
        (Some(start), Some(count), Some(hoff)) => match spec_catch_handler(
            data,
            handlers_base + hoff,
        ) {
            Some(hs) => Some((start, count, hs)),
            None => None,
        },
        _ => None,
    }
}

/// Whether every `try_item` of `c` (and its handler) can be read from `data`.
pub open spec fn tries_readable(c: CodeItem, data: Seq<u8>) -> bool {
    forall|i: int| 0 <= i < c.tries_size ==> spec_try_item(c, data, i) is Some
}

/// Whether `t` is the decoded form `v` of a try item.
pub open spec fn try_matches(t: TryItem, v: (u32, u16, Seq<(Option<u32>, u32)>)) -> bool {
    t.start_unit == v.0 && t.insn_count == v.1 && t.handlers@ == v.2
}

impl CodeItem {
    /// Offsets derived from this header stay far from the top of `usize`.
    pub open spec fn offsets_in_range(&self) -> bool {
        self.insns_off + 2 * self.insns_size + 8 * self.tries_size + 0x2_0000 < usize::MAX
    }

    /// Parse the code_item at the given file offset.
    pub fn parse(data: &[u8], code_off: u32) -> (r: Result<Self>)
        ensures
            match r {
                Ok(c) => code_item_fits(data@, code_off as int) && c == code_item_at(
                    data@,
                    code_off,
                ),
                Err(e) => e is Truncated && !code_item_fits(data@, code_off as int),
            },
    {
        let off = code_off as usize;
        if data.len() < 16 || data.len() - 16 < off {
            return Err(truncated("code_item header"));
        }
        let registers_size = match read_u16(data, off) {
            Some(v) => v,
            None => return Err(truncated("registers_size")),
        };
        let ins_size = match read_u16(data, off + 2) {
            Some(v) => v,
            None => return Err(truncated("ins_size")),
        };
        let outs_size = match read_u16(data, off + 4) {
            Some(v) => v,
            None => return Err(truncated("outs_size")),
        };
        let tries_size = match read_u16(data, off + 6) {
            Some(v) => v,
            None => return Err(truncated("tries_size")),
        };
        let debug_info_off = match read_u32(data, off + 8) {
            Some(v) => v,
            None => return Err(truncated("debug_info_off")),
        };
        let insns_size = match read_u32(data, off + 12) {
            Some(v) => v,
            None => return Err(truncated("insns_size")),
        };
        let insns_off = off + 16;
        if (data.len() - insns_off) / 2 < insns_size as usize {
            return Err(truncated("code_item insns"));
        }
        Ok(
            Self {
                registers_size,
                ins_size,
                outs_size,
                tries_size,
                debug_info_off,
                insns_size,
                insns_off,
                code_off,
            },
        )
    }

    /// Byte slice of instructions for this code_item (insns array only), cut at the end of `data`.
    pub fn insns_slice<'a>(&self, data: &'a [u8]) -> (r: &'a [u8])
        requires
            self.insns_off <= data@.len(),
        ensures
            r@ == data@.subrange(
                self.insns_off as int,
                if self.insns_off + 2 * self.insns_size <= data@.len() {
                    self.insns_off + 2 * self.insns_size
                } else {
                    data@.len() as int
                },
            ),
    {
        let end = if (data.len() - self.insns_off) / 2 >= self.insns_size as usize {
            self.insns_off + (self.insns_size as usize) * 2
        } else {
            data.len()
        };
        &data[self.insns_off..end]
    }

    /// Size of insns in 16-bit units.
    pub fn insns_size_units(&self) -> (r: usize)
        ensures
            r == self.insns_size,
    {
        self.insns_size as usize
    }

    /// Parse the try_items and their handlers for this code_item.
    pub fn tries(&self, data: &[u8]) -> (r: Result<Vec<TryItem>>)
        requires
            self.offsets_in_range(),
        ensures
            match r {
                Ok(v) => tries_readable(*self, data@) && v@.len() == self.tries_size && forall|
                    i: int,
                | 0 <= i < v@.len() ==> try_matches(v@[i], spec_try_item(*self, data@, i)->0),
                Err(e) => e is Truncated && !tries_readable(*self, data@),
            },
    {
        if self.tries_size == 0 {
            return Ok(Vec::new());
        }
        let insns_bytes = (self.insns_size as usize) * 2;
        let mut pos = self.insns_off + insns_bytes;
        if self.insns_size % 2 == 1 {
            pos += 2;
        }
        let tries_pos = pos;
        let handlers_base = pos + self.tries_size as usize * 8;
        assert(tries_pos == spec_tries_pos(*self));
        let mut out: Vec<TryItem> = Vec::new();
        let n = self.tries_size as usize;
        let mut i: usize = 0;
        while i < n
            invariant
                0 <= i <= n,
                n == self.tries_size,
                n > 0,
                self.offsets_in_range(),
                tries_pos == spec_tries_pos(*self),
                handlers_base == tries_pos + 8 * self.tries_size,
                out@.len() == i,
                forall|k: int| 0 <= k < i ==> spec_try_item(*self, data@, k) is Some,
                forall|k: int|
                    0 <= k < i ==> try_matches(out@[k], spec_try_item(*self, data@, k)->0),
            decreases n - i,
        {
            let base = tries_pos + i * 8;
            let r0 = read_u32(data, base);
            let r1 = read_u16(data, base + 4);
            let r2 = read_u16(data, base + 6);
            if r0.is_none() || r1.is_none() || r2.is_none() {
                assert(spec_try_item(*self, data@, i as int) is None);
                return Err(truncated("try item"));
            }
            let start_unit = r0.unwrap();
            let insn_count = r1.unwrap();
            let handler_off = r2.unwrap() as usize;
            let handlers = match read_catch_handler(data, handlers_base + handler_off) {
                Some(h) => h,
                None => {
                    assert(spec_try_item(*self, data@, i as int) is None);
                    return Err(truncated("catch handler"));
                },
            };
            out.push(TryItem { start_unit, insn_count, handlers });
            i += 1;
        }
        Ok(out)
    }
}

/// Decode one `encoded_catch_handler` at `hpos`.
fn read_catch_handler(data: &[u8], hpos0: usize) -> (r: Option<Vec<(Option<u32>, u32)>>)
    requires
        hpos0 + 8 < usize::MAX,
    ensures
        match r {
            Some(v) => spec_catch_handler(data@, hpos0 as int) == Some(v@),
            None => spec_catch_handler(data@, hpos0 as int) is None,
        },
{
    let mut hpos = hpos0;
    proof {
        lemma_read_leb_consumed(data@, hpos as int);
    }
    let (size, n) = match read_sleb128(data, hpos) {
        Some(p) => p,
        None => return None,
    };
    let dlen = data.len();
    hpos += n;
    let mut handlers: Vec<(Option<u32>, u32)> = Vec::new();
    let typed: u32 = if size < 0 {
        if size == i32::MIN {
            0x8000_0000
        } else {
            (-size) as u32
        }
    } else {
        size as u32
    };
    assert(typed == size_magnitude(size));
    let ghost total = spec_typed_handlers(data@, hpos as int, typed as nat);
    let mut k: u32 = 0;
    while k < typed
        invariant
            k <= typed,
            hpos <= data@.len() <= usize::MAX,
            typed == size_magnitude(size),
            spec_read_sleb128(data@, hpos0 as int) == Some((size, n)),
            total == spec_typed_handlers(data@, hpos0 + n, size_magnitude(size)),
            total == match spec_typed_handlers(data@, hpos as int, (typed - k) as nat) {
                Some((rest, e)) => Some((handlers@ + rest, e)),
                None => None,
            },
        decreases typed - k,
    {
        proof {
            lemma_read_leb_consumed(data@, hpos as int);
        }
        let (ty, n1) = match read_uleb128(data, hpos) {
            Some(p) => p,
            None => {
                assert(spec_typed_handlers(data@, hpos as int, (typed - k) as nat) is None);
                return None;
            },
        };
        proof {
            lemma_read_leb_consumed(data@, (hpos + n1) as int);
        }
        let (addr, n2) = match read_uleb128(data, hpos + n1) {
            Some(p) => p,
            None => {
                assert(spec_typed_handlers(data@, hpos as int, (typed - k) as nat) is None);
                return None;
            },
        };
        hpos += n1;
        let ghost before = handlers@;
        hpos += n2;
        handlers.push((Some(ty), addr));
        k += 1;
        proof {
            match spec_typed_handlers(data@, hpos as int, (typed - k) as nat) {
                Some((rest, e)) => {
                    assert(before + (seq![(Some(ty), addr)] + rest) =~= handlers@ + rest);
                },
                None => {},
            }
        }
    }
    assert(spec_typed_handlers(data@, hpos as int, 0) == Some((Seq::<(Option<u32>, u32)>::empty(), hpos as int)));
    assert(handlers@ + Seq::<(Option<u32>, u32)>::empty() =~= handlers@);
    if size <= 0 {
        let (addr, _) = match read_uleb128(data, hpos) {
            Some(p) => p,
            None => return None,
        };
        handlers.push((None, addr));
    }
    Some(handlers)
}

} // verus!
