//! Instruction file offset → method_ids via 16-byte buckets.
//!
//! Instruction widths come from a table of the Dalvik format lengths (in bytes) indexed
//! by opcode, which the caller supplies; a width of 0 counts as one code unit.

use std::collections::HashMap;

use vstd::prelude::*;

use crate::dex::class_data::{spec_class_data, ClassData, EncodedMethod};
use crate::dex::header::ClassDef;
use crate::dex::raw::RawDex;
use crate::error::Result;
use crate::leb128::{read_u16, read_u32, spec_read_u32, u16_at, u32_at};

verus! {

broadcast use vstd::std_specs::hash::group_hash_axioms;

/// Length in bytes of the instruction or payload at `off`, by the first code unit:
/// switch and array payloads carry their own size; any other instruction takes the
/// width its opcode has in `widths` (one code unit when that is 0). Nothing when the
/// data runs out or a payload's size does not fit in 32 bits.
pub open spec fn spec_insn_len(data: Seq<u8>, widths: Seq<u32>, off: int) -> Option<u32> {
    if off < 0 || off + 2 > data.len() {
        None
    } else {
        let unit0 = u16_at(data, off);
        if unit0 == 0x0100 {
            if off + 4 > data.len() {
                None
            } else {
                Some(((u16_at(data, off + 2) * 2 + 4) * 2) as u32)
            }
        } else if unit0 == 0x0200 {
            if off + 4 > data.len() {
                None
            } else {
                Some(((u16_at(data, off + 2) * 4 + 2) * 2) as u32)
            }
        } else if unit0 == 0x0300 {
            if off + 8 > data.len() {
                None
            } else {
                let units = (u32_at(data, off + 4) * u16_at(data, off + 2) + 1) / 2;
                let bytes = (units + 4) * 2;
                if bytes > u32::MAX {
                    None
                } else {
                    Some(bytes as u32)
                }
            }
        } else {
            let w = widths[data[off] as int];
            Some(
                if w == 0 {
                    2u32
                } else {
                    w
                },
            )
        }
    }
}

/// One step of the instruction walk of a method whose code ends at `end`.
pub open spec fn spec_step(data: Seq<u8>, widths: Seq<u32>, p: int, end: int) -> Option<int> {
    if p >= end {
        None
    } else {
        match spec_insn_len(data, widths, p) {
            None => None,
            Some(l) => if l == 0 || p + l > end {
                None
            } else {
                Some(p + l)
            },
        }
    }
}

/// Where the walk from `start` stands after `n` steps.
pub open spec fn chain(data: Seq<u8>, widths: Seq<u32>, start: int, end: int, n: nat) -> Option<int>
    decreases n,
{
    if n == 0 {
        Some(start)
    } else {
        match chain(data, widths, start, end, (n - 1) as nat) {
            Some(p) => spec_step(data, widths, p, end),
            None => None,
        }
    }
}

/// Whether the walk from `start` lands on `pc`.
pub open spec fn reachable(data: Seq<u8>, widths: Seq<u32>, start: int, end: int, pc: int) -> bool {
    exists|n: nat| chain(data, widths, start, end, n) == Some(pc)
}

/// Whether `off` is the start of an instruction of the method whose code is
/// `[start, end)`.
pub open spec fn spec_boundary(data: Seq<u8>, widths: Seq<u32>, start: int, end: int, off: int) -> bool {
    start <= off < end && reachable(data, widths, start, end, off)
}

proof fn lemma_chain_grows(data: Seq<u8>, widths: Seq<u32>, start: int, end: int, n: nat)
    ensures
        chain(data, widths, start, end, n) matches Some(p) ==> p >= start + n && (n > 0 ==> p <= end)
            && forall|k: nat| k < n ==> ((#[trigger] chain(data, widths, start, end, k)) matches Some(q) && q < p),
    decreases n,
{
    if n > 0 {
        lemma_chain_grows(data, widths, start, end, (n - 1) as nat);
    }
}

/// A walk at `pc == chain(n)` below `off` that cannot step on, or steps past `off`,
/// never lands on `off`.
proof fn lemma_chain_misses(
    data: Seq<u8>,
    widths: Seq<u32>,
    start: int,
    end: int,
    n: nat,
    off: int,
)
    requires
        chain(data, widths, start, end, n) matches Some(p) && p < off,
        match chain(data, widths, start, end, n + 1) {
            Some(q) => q > off,
            None => true,
        },
    ensures
        !reachable(data, widths, start, end, off),
{
    let p = chain(data, widths, start, end, n)->0;
    assert forall|k: nat| chain(data, widths, start, end, k) != Some(off) by {
        if k < n {
            lemma_chain_grows(data, widths, start, end, n);
            assert(chain(data, widths, start, end, k) matches Some(q) && q < p);
        } else if k == n {
        } else if k == n + 1 {
        } else {
            if chain(data, widths, start, end, n + 1) is None {
                lemma_chain_none(data, widths, start, end, n + 1, k);
            } else {
                lemma_chain_after(data, widths, start, end, n + 1, k);
            }
        }
    }
    assert(!reachable(data, widths, start, end, off));
}

proof fn lemma_chain_none(data: Seq<u8>, widths: Seq<u32>, start: int, end: int, a: nat, b: nat)
    requires
        a <= b,
        chain(data, widths, start, end, a) is None,
    ensures
        chain(data, widths, start, end, b) is None,
    decreases b - a,
{
    if a < b {
        lemma_chain_none(data, widths, start, end, a, (b - 1) as nat);
    }
}

proof fn lemma_chain_after(data: Seq<u8>, widths: Seq<u32>, start: int, end: int, a: nat, b: nat)
    requires
        a < b,
    ensures
        chain(data, widths, start, end, b) matches Some(q) ==> (chain(data, widths, start, end, a) matches Some(p) && p < q),
{
    lemma_chain_grows(data, widths, start, end, b);
}

/// The methods that own one 16-byte bucket of code.
#[derive(Debug, Clone)]
pub enum Owner {
    Unowned,
    One(u32),
    Many(Vec<u32>),
}

/// `l` with `m` appended unless already present.
pub open spec fn add_once(l: Seq<u32>, m: u32) -> Seq<u32> {
    if l.contains(m) {
        l
    } else {
        l.push(m)
    }
}

/// Calls `core::slice::from_ref`: the one-element slice holding `*x`.
#[verifier::external_body]
fn slice_of_one(x: &u32) -> (r: &[u32])
    ensures
        r@ == seq![*x],
{
    core::slice::from_ref(x)
}

impl Owner {
    /// The owning methods, in the order they were added.
    pub open spec fn list(self) -> Seq<u32> {
        match self {
            Owner::Unowned => Seq::empty(),
            Owner::One(m) => seq![m],
            Owner::Many(v) => v@,
        }
    }

    fn add(&mut self, m: u32)
        ensures
            final(self).list() == add_once(old(self).list(), m),
    {
        match self {
            Owner::Unowned => {
                *self = Owner::One(m);
                proof {
                    assert(seq![m] =~= Seq::<u32>::empty().push(m));
                }
            },
            Owner::One(a) => {
                let a = *a;
                if a != m {
                    let mut v: Vec<u32> = Vec::new();
                    v.push(a);
                    v.push(m);
                    *self = Owner::Many(v);
                    proof {
                        assert(!seq![a].contains(m)) by {
                            assert(seq![a][0] == a);
                        }
                        assert(v@ =~= seq![a].push(m));
                    }
                } else {
                    proof {
                        assert(seq![a][0] == m);
                    }
                }
            },
            Owner::Many(list) => {
                let mut found = false;
                let mut k: usize = 0;
                while k < list.len()
                    invariant
                        k <= list@.len(),
                        found == exists|j: int| 0 <= j < k && list@[j] == m,
                    decreases list@.len() - k,
                {
                    if list[k] == m {
                        found = true;
                    }
                    k = k + 1;
                }
                if !found {
                    list.push(m);
                }
            },
        }
    }

    /// The owning methods.
    pub fn methods(&self) -> (r: &[u32])
        ensures
            r@ == self.list(),
    {
        match self {
            Owner::Unowned => &[],
            Owner::One(m) => slice_of_one(m),
            Owner::Many(m) => m.as_slice(),
        }
    }
}


/// Length in **bytes** of the Dalvik instruction or payload at `off`.
pub(crate) fn insn_len_at(data: &[u8], widths: &[u32], off: usize) -> (r: Option<u32>)
    requires
        widths@.len() == 256,
    ensures
        r == spec_insn_len(data@, widths@, off as int),
{
    let len = data.len();
    if off > len || len - off < 2 {
        return None;
    }
    let unit0 = match read_u16(data, off) {
        Some(v) => v,
        None => return None,
    };
    if unit0 == 0x0100 || unit0 == 0x0200 {
        if len - off < 4 {
            return None;
        }
        let size = match read_u16(data, off + 2) {
            Some(v) => v as u32,
            None => return None,
        };
        if unit0 == 0x0100 {
            Some((size * 2 + 4) * 2)
        } else {
            Some((size * 4 + 2) * 2)
        }
    } else if unit0 == 0x0300 {
        if len - off < 8 {
            return None;
        }
        let elem_width = match read_u16(data, off + 2) {
            Some(v) => v as u64,
            None => return None,
        };
        let size = match read_u32(data, off + 4) {
            Some(v) => v as u64,
            None => return None,
        };
        proof {
            assert(size * elem_width <= 0xffff_ffff * 0xffff) by (nonlinear_arith)
                requires
                    size <= 0xffff_ffff,
                    elem_width <= 0xffff,
            ;
        }
        let units = (size * elem_width + 1) / 2;
        let bytes = (units + 4) * 2;
        if bytes > 0xffff_ffff {
            None
        } else {
            Some(bytes as u32)
        }
    } else {
        let w = widths[data[off] as usize];
        if w == 0 {
            Some(2)
        } else {
            Some(w)
        }
    }
}

/// `class_data_off` of `class_defs[i]`, 0 when it cannot be read.
pub open spec fn class_data_off_of(d: RawDex, i: u32) -> u32 {
    match spec_read_u32(d.data@, d.class_defs.off + 32 * i + 24) {
        Some(v) => v,
        None => 0,
    }
}

/// `(method_idx, code_off)` of each method.
pub open spec fn method_pairs(ms: Seq<EncodedMethod>) -> Seq<(u32, u32)> {
    ms.map_values(|m: EncodedMethod| (m.method_idx, m.code_off))
}

/// The `(method_idx, code_off)` pairs of the direct then virtual methods of class `i`:
/// none without class data; nothing when its `class_data_item` cannot be read.
pub open spec fn class_pairs(d: RawDex, i: u32) -> Option<Seq<(u32, u32)>> {
    let cdo = class_data_off_of(d, i);
    if cdo == 0 {
        Some(Seq::empty())
    } else {
        match spec_class_data(d.data@, cdo as int) {
            None => None,
            Some(m) => Some(method_pairs(m.2) + method_pairs(m.3)),
        }
    }
}

/// The method pairs of the first `k` classes, in class order; nothing when one cannot be
/// read.
pub open spec fn walk_from(d: RawDex, k: nat) -> Option<Seq<(u32, u32)>>
    decreases k,
{
    if k == 0 {
        Some(Seq::empty())
    } else {
        match walk_from(d, (k - 1) as nat) {
            None => None,
            Some(prev) => match class_pairs(d, (k - 1) as u32) {
                None => None,
                Some(p) => Some(prev + p),
            },
        }
    }
}

fn push_pairs(out: &mut Vec<(u32, u32)>, ms: &Vec<EncodedMethod>)
    ensures
        final(out)@ == old(out)@ + method_pairs(ms@),
{
    let mut i: usize = 0;
    while i < ms.len()
        invariant
            i <= ms@.len(),
            out@ == old(out)@ + method_pairs(ms@.subrange(0, i as int)),
        decreases ms@.len() - i,
    {
        out.push((ms[i].method_idx, ms[i].code_off));
        i = i + 1;
        proof {
            assert(method_pairs(ms@.subrange(0, i as int)) =~= method_pairs(ms@.subrange(0, i - 1)).push(
                (ms@[i - 1].method_idx, ms@[i - 1].code_off),
            ));
            assert(out@ =~= old(out)@ + method_pairs(ms@.subrange(0, i as int)));
        }
    }
    proof {
        assert(ms@.subrange(0, ms@.len() as int) =~= ms@);
    }
}

/// The method pairs of class `i`.
fn class_methods(dex: &RawDex, i: u32) -> (r: Result<Vec<(u32, u32)>>)
    ensures
        match r {
            Ok(v) => class_pairs(*dex, i) == Some(v@),
            Err(e) => class_pairs(*dex, i) is None && e is Truncated,
        },
{
    let len = dex.data.len();
    let pos: u64 = dex.class_defs.off as u64 + i as u64 * 0x20 + 24;
    let class_data_off = if pos <= len as u64 && len as u64 - pos >= 4 {
        match read_u32(dex.data, pos as usize) {
            Some(v) => v,
            None => 0,
        }
    } else {
        0
    };
    proof {
        assert(class_data_off == class_data_off_of(*dex, i));
    }
    let class_def = ClassDef {
        class_idx: 0,
        access_flags: 0,
        superclass_idx: 0,
        interfaces_off: 0,
        source_file_idx: 0,
        annotations_off: 0,
        class_data_off,
        static_values_off: 0,
    };
    let mut out: Vec<(u32, u32)> = Vec::new();
    match ClassData::parse(dex.data, &class_def) {
        Ok(Some(cd)) => {
            push_pairs(&mut out, &cd.direct_methods);
            push_pairs(&mut out, &cd.virtual_methods);
            proof {
                assert(out@ =~= method_pairs(cd.direct_methods@) + method_pairs(cd.virtual_methods@));
            }
            Ok(out)
        },
        Ok(None) => Ok(out),
        Err(e) => Err(e),
    }
}

/// Every method of every class with its `code_off`, in class order.
fn walk_encoded_methods(dex: &RawDex) -> (r: Result<Vec<(u32, u32)>>)
    ensures
        match r {
            Ok(v) => walk_from(*dex, dex.class_defs.size as nat) == Some(v@),
            Err(e) => walk_from(*dex, dex.class_defs.size as nat) is None && e is Truncated,
        },
{
    let mut out: Vec<(u32, u32)> = Vec::new();
    let n = dex.class_defs.size;
    let mut i: u32 = 0;
    while i < n
        invariant
            n == dex.class_defs.size,
            i <= n,
            walk_from(*dex, i as nat) == Some(out@),
        decreases n - i,
    {
        let mut ms = match class_methods(dex, i) {
            Ok(v) => v,
            Err(e) => {
                proof {
                    lemma_walk_none(*dex, (i + 1) as nat, n as nat);
                }
                return Err(e);
            },
        };
        out.append(&mut ms);
        i = i + 1;
    }
    Ok(out)
}

proof fn lemma_walk_none(d: RawDex, a: nat, b: nat)
    requires
        a <= b,
        walk_from(d, a) is None,
    ensures
        walk_from(d, b) is None,
    decreases b - a,
{
    if a < b {
        lemma_walk_none(d, a, (b - 1) as nat);
    }
}

/// `[insns start, insns end)` of the code_item at `code_off`: its offset is first aligned
/// up to 4; nothing for offset 0, an item whose header runs past the data, an empty
/// instruction array, or one that ends past 2^32.
pub open spec fn method_range(data: Seq<u8>, code_off: u32) -> Option<(u32, u32)> {
    let aligned = ((code_off + 3) / 4) * 4;
    if code_off == 0 || aligned + 16 > data.len() {
        None
    } else {
        let insn_off = aligned + 16;
        let bytes = 2 * u32_at(data, aligned + 12);
        if bytes == 0 || insn_off + bytes > u32::MAX {
            None
        } else {
            Some((insn_off as u32, (insn_off + bytes) as u32))
        }
    }
}

/// `(method_idx, insns start, insns end)` for the walked methods that have code.
pub open spec fn ranges_of(data: Seq<u8>, pairs: Seq<(u32, u32)>) -> Seq<(u32, u32, u32)>
    decreases pairs.len(),
{
    if pairs.len() == 0 {
        Seq::empty()
    } else {
        let rest = ranges_of(data, pairs.drop_last());
        let (m, code_off) = pairs.last();
        match method_range(data, code_off) {
            Some((s, e)) => rest.push((m, s, e)),
            None => rest,
        }
    }
}

/// Method → insns start (a later range of the same method wins).
pub open spec fn start_map(ranges: Seq<(u32, u32, u32)>) -> Map<u32, u32>
    decreases ranges.len(),
{
    if ranges.len() == 0 {
        Map::empty()
    } else {
        start_map(ranges.drop_last()).insert(ranges.last().0, ranges.last().1)
    }
}

/// Method → insns end (a later range of the same method wins).
pub open spec fn end_map(ranges: Seq<(u32, u32, u32)>) -> Map<u32, u32>
    decreases ranges.len(),
{
    if ranges.len() == 0 {
        Map::empty()
    } else {
        end_map(ranges.drop_last()).insert(ranges.last().0, ranges.last().2)
    }
}

/// Whether range `r` covers 16-byte bucket `b`.
pub open spec fn covers(r: (u32, u32, u32), b: int) -> bool {
    r.1 / 16 <= b <= (r.2 - 1) / 16
}

/// The methods whose ranges (among the first `k`) cover bucket `b`, in order, each once.
pub open spec fn bucket_list(ranges: Seq<(u32, u32, u32)>, b: int, k: nat) -> Seq<u32>
    decreases k,
{
    if k == 0 {
        Seq::empty()
    } else {
        let prev = bucket_list(ranges, b, (k - 1) as nat);
        if covers(ranges[k - 1], b) {
            add_once(prev, ranges[k - 1].0)
        } else {
            prev
        }
    }
}

/// Lowest bucket of the first `k` ranges.
pub open spec fn min_bucket(ranges: Seq<(u32, u32, u32)>, k: nat) -> int
    decreases k,
{
    if k == 0 {
        0x1000_0000
    } else {
        let m = min_bucket(ranges, (k - 1) as nat);
        let b = ranges[k - 1].1 / 16;
        if b < m {
            b as int
        } else {
            m
        }
    }
}

/// Highest bucket of the first `k` ranges.
pub open spec fn max_bucket(ranges: Seq<(u32, u32, u32)>, k: nat) -> int
    decreases k,
{
    if k == 0 {
        0
    } else {
        let m = max_bucket(ranges, (k - 1) as nat);
        let b = (ranges[k - 1].2 - 1) / 16;
        if b > m {
            b as int
        } else {
            m
        }
    }
}


fn exec_method_range(data: &[u8], code_off: u32) -> (r: Option<(u32, u32)>)
    ensures
        r == method_range(data@, code_off),
{
    let len = data.len() as u64;
    let aligned: u64 = ((code_off as u64 + 3) / 4) * 4;
    if code_off == 0 || aligned + 16 > len {
        return None;
    }
    let insns_size = match read_u32(data, (aligned + 12) as usize) {
        Some(v) => v as u64,
        None => return None,
    };
    let insn_off: u64 = aligned + 16;
    let bytes: u64 = insns_size * 2;
    if bytes == 0 || insn_off + bytes > 0xffff_ffff {
        return None;
    }
    Some((insn_off as u32, (insn_off + bytes) as u32))
}

/// How a well-formed locator resolves, in terms of its method ranges alone.
pub proof fn lemma_resolve_ranges(l: InsnLocator, data: Seq<u8>, off: u32)
    requires
        l.wf(),
    ensures
        ({
            let rs = l.method_ranges();
            let n = rs.len();
            let b = off / 16;
            l.spec_resolve(data, off) == if n == 0 || b < min_bucket(rs, n) || b > max_bucket(rs, n) {
                None::<Seq<u32>>
            } else {
                let ok = keep_owners(data, l.opcode_widths(), start_map(rs), end_map(rs), off, bucket_list(rs, b as int, n));
                if ok.len() == 0 {
                    None::<Seq<u32>>
                } else {
                    Some(ok)
                }
            }
        }),
{
    let rs = l.method_ranges();
    let n = rs.len();
    let b = off / 16;
    if n > 0 && !(b < min_bucket(rs, n) || b > max_bucket(rs, n)) {
        assert(l.bucket(b - l.base()) == bucket_list(rs, l.base() + (b - l.base()), n));
    }
}

/// Locators with the same index agree on every view of it.
pub proof fn lemma_same_index_views(a: InsnLocator, b: InsnLocator)
    requires
        a.same_index(b),
    ensures
        a.method_ranges() == b.method_ranges(),
        a.opcode_widths() == b.opcode_widths(),
        a.starts() == b.starts(),
        a.ends() == b.ends(),
        a.item_start() == b.item_start(),
        a.item_end() == b.item_end(),
{
}

proof fn lemma_same_resolve(a: InsnLocator, b: InsnLocator, data: Seq<u8>, off: u32)
    requires
        a.same_index(b),
    ensures
        a.spec_resolve(data, off) == b.spec_resolve(data, off),
{
}

proof fn lemma_ranges_nonempty(data: Seq<u8>, pairs: Seq<(u32, u32)>)
    ensures
        forall|j: int| 0 <= j < ranges_of(data, pairs).len() ==> (#[trigger] ranges_of(data, pairs)[j]).1
            < ranges_of(data, pairs)[j].2,
    decreases pairs.len(),
{
    if pairs.len() > 0 {
        lemma_ranges_nonempty(data, pairs.drop_last());
        let rest = ranges_of(data, pairs.drop_last());
        let cur = ranges_of(data, pairs);
        match method_range(data, pairs.last().1) {
            Some((s, e)) => {
                assert(cur == rest.push((pairs.last().0, s, e)));
                assert forall|j: int| 0 <= j < cur.len() implies (#[trigger] cur[j]).1 < cur[j].2 by {
                    if j < rest.len() {
                        assert(cur[j] == rest[j]);
                    }
                }
            },
            None => {},
        }
    }
}

proof fn lemma_bucket_bounds(ranges: Seq<(u32, u32, u32)>, k: nat)
    requires
        k <= ranges.len(),
        forall|j: int| 0 <= j < ranges.len() ==> (#[trigger] ranges[j]).1 < ranges[j].2,
    ensures
        k > 0 ==> min_bucket(ranges, k) <= max_bucket(ranges, k) < 0x1000_0000,
        k > 0 ==> 0 <= min_bucket(ranges, k),
        forall|j: int| 0 <= j < k ==> min_bucket(ranges, k) <= (#[trigger] ranges[j]).1 / 16 && (
            ranges[j].2 - 1) / 16 <= max_bucket(ranges, k),
    decreases k,
{
    if k > 0 {
        lemma_bucket_bounds(ranges, (k - 1) as nat);
        let s0 = ranges[k - 1].1 as int;
        let e0 = ranges[k - 1].2 as int;
        assert(s0 < e0);
        assert(s0 / 16 <= (e0 - 1) / 16 < 0x1000_0000) by (nonlinear_arith)
            requires
                0 <= s0 < e0 <= 0xffff_ffff,
        ;
        assert(ranges[k - 1].1 / 16 == s0 / 16);
        let mk = min_bucket(ranges, (k - 1) as nat);
        let xk = max_bucket(ranges, (k - 1) as nat);
        assert(min_bucket(ranges, k) == if s0 / 16 < mk { s0 / 16 } else { mk });
        assert(max_bucket(ranges, k) == if (e0 - 1) / 16 > xk { (e0 - 1) / 16 } else { xk });
        if k == 1 {
            assert(mk == 0x1000_0000);
            assert(xk == 0);
        }
    }
}

/// Whether `off` is an instruction boundary of method `m`, whose code `starts`/`ends` give.
pub open spec fn owns(
    data: Seq<u8>,
    widths: Seq<u32>,
    starts: Map<u32, u32>,
    ends: Map<u32, u32>,
    m: u32,
    off: u32,
) -> bool {
    starts.contains_key(m) && ends.contains_key(m) && spec_boundary(
        data,
        widths,
        starts[m] as int,
        ends[m] as int,
        off as int,
    )
}

/// The methods of `l` that own `off`, in order.
pub open spec fn keep_owners(
    data: Seq<u8>,
    widths: Seq<u32>,
    starts: Map<u32, u32>,
    ends: Map<u32, u32>,
    off: u32,
    l: Seq<u32>,
) -> Seq<u32>
    decreases l.len(),
{
    if l.len() == 0 {
        Seq::empty()
    } else {
        let rest = keep_owners(data, widths, starts, ends, off, l.drop_last());
        if owns(data, widths, starts, ends, l.last(), off) {
            rest.push(l.last())
        } else {
            rest
        }
    }
}

/// The owners a lookup reports, if any.
pub open spec fn owner_list(o: Option<Owner>) -> Option<Seq<u32>> {
    match o {
        Some(w) => Some(w.list()),
        None => None,
    }
}

/// Instruction offset → owning methods, via 16-byte buckets over the code area.
pub struct InsnLocator {
    buckets: Vec<Owner>,
    base_bucket: u32,
    method_start: HashMap<u32, u32>,
    method_end: HashMap<u32, u32>,
    pub code_item_start: u32,
    pub code_item_end: u32,
    cursor: HashMap<u32, u32>,
    widths: Vec<u32>,
    ranges: Ghost<Seq<(u32, u32, u32)>>,
}

impl InsnLocator {
    /// `(method_idx, insns start, insns end)` of every method with code, in walk order.
    pub closed spec fn method_ranges(self) -> Seq<(u32, u32, u32)> {
        self.ranges@
    }

    /// The instruction widths by opcode.
    pub closed spec fn opcode_widths(self) -> Seq<u32> {
        self.widths@
    }

    /// Bucket number of the first bucket.
    pub closed spec fn base(self) -> int {
        self.base_bucket as int
    }

    /// `code_item_start`: where the first bucket begins.
    pub closed spec fn item_start(self) -> u32 {
        self.code_item_start
    }

    /// `code_item_end`: where the last bucket ends (modulo 2^32).
    pub closed spec fn item_end(self) -> u32 {
        self.code_item_end
    }

    /// Number of buckets.
    pub closed spec fn bucket_count(self) -> int {
        self.buckets@.len() as int
    }

    /// The owners of bucket `base() + i`.
    pub closed spec fn bucket(self, i: int) -> Seq<u32> {
        self.buckets@[i].list()
    }

    /// Method → insns start.
    pub closed spec fn starts(self) -> Map<u32, u32> {
        self.method_start@
    }

    /// Method → insns end.
    pub closed spec fn ends(self) -> Map<u32, u32> {
        self.method_end@
    }

    /// Method → the instruction boundary where its last walk stopped.
    pub closed spec fn cursors(self) -> Map<u32, u32> {
        self.cursor@
    }

    /// The same locator apart from the cursors.
    pub closed spec fn same_index(self, other: Self) -> bool {
        &&& self.buckets == other.buckets
        &&& self.base_bucket == other.base_bucket
        &&& self.method_start == other.method_start
        &&& self.method_end == other.method_end
        &&& self.code_item_start == other.code_item_start
        &&& self.code_item_end == other.code_item_end
        &&& self.widths == other.widths
        &&& self.ranges == other.ranges
    }

    /// The index that `build` derives from the method ranges.
    pub open spec fn wf(self) -> bool {
        let rs = self.method_ranges();
        let n = rs.len();
        &&& self.opcode_widths().len() == 256
        &&& forall|j: int| 0 <= j < n ==> (#[trigger] rs[j]).1 < rs[j].2
        &&& self.starts() == start_map(rs)
        &&& self.ends() == end_map(rs)
        &&& n == 0 ==> self.bucket_count() == 0 && self.base() == 0 && self.item_start() == 0
            && self.item_end() == 0
        &&& n > 0 ==> {
            &&& self.base() == min_bucket(rs, n)
            &&& self.bucket_count() == max_bucket(rs, n) - min_bucket(rs, n) + 1
            &&& forall|i: int|
                0 <= i < self.bucket_count() ==> #[trigger] self.bucket(i) == bucket_list(
                    rs,
                    self.base() + i,
                    n,
                )
            &&& self.item_start() == self.base() * 16
            &&& self.item_end() == ((max_bucket(rs, n) + 1) * 16) % 0x1_0000_0000
        }
    }

    /// Whether every cursor is an instruction boundary of its method in `data`.
    pub open spec fn cursors_valid(self, data: Seq<u8>) -> bool {
        forall|m: u32| #[trigger]
            self.cursors().contains_key(m) ==> self.starts().contains_key(m) && self.ends().contains_key(
                m,
            ) && reachable(
                data,
                self.opcode_widths(),
                self.starts()[m] as int,
                self.ends()[m] as int,
                self.cursors()[m] as int,
            )
    }

    /// Whether `off` starts an instruction of method `m` in `data`.
    pub open spec fn owns_at(self, data: Seq<u8>, m: u32, off: u32) -> bool {
        owns(data, self.opcode_widths(), self.starts(), self.ends(), m, off)
    }

    /// The methods of the bucket of `off` at whose instruction boundary `off` lies, in
    /// bucket order; nothing when there are none.
    pub open spec fn spec_resolve(self, data: Seq<u8>, off: u32) -> Option<Seq<u32>> {
        let b = off / 16;
        if b < self.base() || b - self.base() >= self.bucket_count() {
            None
        } else {
            let ok = keep_owners(
                data,
                self.opcode_widths(),
                self.starts(),
                self.ends(),
                off,
                self.bucket(b - self.base()),
            );
            if ok.len() == 0 {
                None
            } else {
                Some(ok)
            }
        }
    }

    /// Index the methods of `dex` by the 16-byte buckets their instructions cover;
    /// `widths` gives the byte length of each opcode's format. `Truncated` when a class's
    /// data cannot be read.
    pub fn build(dex: &RawDex, widths: &[u32]) -> (r: Result<Self>)
        requires
            widths@.len() == 256,
        ensures
            match r {
                Ok(l) => walk_from(*dex, dex.class_defs.size as nat) matches Some(pairs) && l.wf()
                    && l.method_ranges() == ranges_of(dex.data@, pairs) && l.opcode_widths() == widths@
                    && l.cursors() == Map::<u32, u32>::empty(),
                Err(e) => walk_from(*dex, dex.class_defs.size as nat) is None && e is Truncated,
            },
    {
        let pairs = walk_encoded_methods(dex)?;
        let mut ranges: Vec<(u32, u32, u32)> = Vec::new();
        let mut i: usize = 0;
        while i < pairs.len()
            invariant
                i <= pairs@.len(),
                ranges@ == ranges_of(dex.data@, pairs@.subrange(0, i as int)),
            decreases pairs@.len() - i,
        {
            let (m, code_off) = pairs[i];
            let ghost pre = pairs@.subrange(0, i as int);
            proof {
                assert(pairs@.subrange(0, i + 1).drop_last() =~= pre);
                assert(pairs@.subrange(0, i + 1).last() == pairs@[i as int]);
            }
            match exec_method_range(dex.data, code_off) {
                Some((s0, e0)) => {
                    ranges.push((m, s0, e0));
                },
                None => {},
            }
            i = i + 1;
        }
        proof {
            assert(pairs@.subrange(0, pairs@.len() as int) =~= pairs@);
            lemma_ranges_nonempty(dex.data@, pairs@);
        }
        let ghost rs = ranges@;
        let n = ranges.len();
        let mut method_start: HashMap<u32, u32> = HashMap::new();
        let mut method_end: HashMap<u32, u32> = HashMap::new();
        let mut min_b: u32 = 0x1000_0000;
        let mut max_b: u32 = 0;
        let mut j: usize = 0;
        while j < n
            invariant
                n == rs.len(),
                ranges@ == rs,
                j <= n,
                forall|k: int| 0 <= k < n ==> (#[trigger] rs[k]).1 < rs[k].2,
                method_start@ == start_map(rs.subrange(0, j as int)),
                method_end@ == end_map(rs.subrange(0, j as int)),
                min_b == min_bucket(rs, j as nat),
                max_b == max_bucket(rs, j as nat),
            decreases n - j,
        {
            let (m, s0, e0) = ranges[j];
            proof {
                assert(rs.subrange(0, j + 1).drop_last() =~= rs.subrange(0, j as int));
                assert(rs[j as int].1 < rs[j as int].2);
            }
            method_start.insert(m, s0);
            method_end.insert(m, e0);
            let fb = s0 / 16;
            let lb = (e0 - 1) / 16;
            if fb < min_b {
                min_b = fb;
            }
            if lb > max_b {
                max_b = lb;
            }
            j = j + 1;
        }
        proof {
            assert(rs.subrange(0, n as int) =~= rs);
            lemma_bucket_bounds(rs, n as nat);
        }
        let mut wv: Vec<u32> = Vec::new();
        let mut w: usize = 0;
        while w < 256
            invariant
                widths@.len() == 256,
                w <= 256,
                wv@ == widths@.subrange(0, w as int),
            decreases 256 - w,
        {
            wv.push(widths[w]);
            w = w + 1;
            proof {
                assert(wv@ =~= widths@.subrange(0, w as int));
            }
        }
        proof {
            assert(widths@.subrange(0, 256) =~= widths@);
        }
        if n == 0 {
            return Ok(
                InsnLocator {
                    buckets: Vec::new(),
                    base_bucket: 0,
                    method_start,
                    method_end,
                    code_item_start: 0,
                    code_item_end: 0,
                    cursor: HashMap::new(),
                    widths: wv,
                    ranges: Ghost(rs),
                },
            );
        }
        let count: usize = (max_b - min_b + 1) as usize;
        let mut buckets: Vec<Owner> = Vec::new();
        while buckets.len() < count
            invariant
                buckets@.len() <= count,
                forall|x: int| 0 <= x < buckets@.len() ==> (#[trigger] buckets@[x]).list() == Seq::<u32>::empty(),
            decreases count - buckets@.len(),
        {
            buckets.push(Owner::Unowned);
        }
        let mut j: usize = 0;
        while j < n
            invariant
                n == rs.len(),
                n > 0,
                ranges@ == rs,
                j <= n,
                count == max_b - min_b + 1,
                min_b == min_bucket(rs, n as nat),
                max_b == max_bucket(rs, n as nat),
                buckets@.len() == count,
                forall|k: int| 0 <= k < n ==> (#[trigger] rs[k]).1 < rs[k].2,
                forall|k: int| 0 <= k < n ==> min_b <= (#[trigger] rs[k]).1 / 16 && (rs[k].2 - 1) / 16 <= max_b,
                forall|x: int| 0 <= x < count ==> (#[trigger] buckets@[x]).list() == bucket_list(rs, min_b + x, j as nat),
            decreases n - j,
        {
            let (m, s0, e0) = ranges[j];
            let fb = s0 / 16;
            let lb = (e0 - 1) / 16;
            proof {
                assert(rs[j as int] == (m, s0, e0));
            }
            let mut b = fb;
            while b <= lb
                invariant
                    fb <= b <= lb + 1,
                    min_b <= fb,
                    lb <= max_b,
                    count == max_b - min_b + 1,
                    buckets@.len() == count,
                    rs[j as int] == (m, s0, e0),
                    fb == s0 / 16,
                    lb == (e0 - 1) / 16,
                    j < n,
                    n == rs.len(),
                    forall|x: int| 0 <= x < count ==> (#[trigger] buckets@[x]).list() == if fb <= min_b + x < b {
                        bucket_list(rs, min_b + x, (j + 1) as nat)
                    } else {
                        bucket_list(rs, min_b + x, j as nat)
                    },
                decreases lb + 1 - b,
            {
                let idx = (b - min_b) as usize;
                let ghost before = buckets@;
                buckets[idx].add(m);
                proof {
                    assert forall|x: int| 0 <= x < count implies (#[trigger] buckets@[x]).list() == if fb <= min_b + x < b + 1 {
                        bucket_list(rs, min_b + x, (j + 1) as nat)
                    } else {
                        bucket_list(rs, min_b + x, j as nat)
                    } by {
                        if x != idx {
                            assert(buckets@[x] == before[x]);
                        } else {
                            assert(covers(rs[j as int], min_b + x));
                        }
                    }
                }
                b = b + 1;
            }
            proof {
                assert forall|x: int| 0 <= x < count implies (#[trigger] buckets@[x]).list() == bucket_list(rs, min_b + x, (j + 1) as nat) by {
                    if !(fb <= min_b + x <= lb) {
                        assert(!covers(rs[j as int], min_b + x));
                    }
                }
            }
            j = j + 1;
        }
        let code_item_end: u32 = ((max_b as u64 + 1) * 16 % 0x1_0000_0000) as u32;
        let l = InsnLocator {
            buckets,
            base_bucket: min_b,
            method_start,
            method_end,
            code_item_start: min_b * 16,
            code_item_end,
            cursor: HashMap::new(),
            widths: wv,
            ranges: Ghost(rs),
        };
        proof {
            assert forall|i: int| 0 <= i < l.bucket_count() implies #[trigger] l.bucket(i) == bucket_list(rs, l.base() + i, n as nat) by {
                assert(l.bucket(i) == l.buckets@[i].list());
            }
        }
        Ok(l)
    }

    fn verify_boundary(&mut self, data: &[u8], method_idx: u32, off: u32) -> (r: bool)
        requires
            old(self).wf(),
            old(self).cursors_valid(data@),
        ensures
            final(self).wf(),
            final(self).same_index(*old(self)),
            final(self).cursors_valid(data@),
            r == old(self).owns_at(data@, method_idx, off),
    {
        let start = match self.method_start.get(&method_idx) {
            Some(v) => *v,
            None => return false,
        };
        let end = match self.method_end.get(&method_idx) {
            Some(v) => *v,
            None => return false,
        };
        if off < start || off >= end {
            return false;
        }
        let ghost widths = self.widths@;
        let ghost si = start as int;
        let ghost ei = end as int;
        let mut pc: u64 = start as u64;
        let ghost mut n: nat = 0;
        match self.cursor.get(&method_idx) {
            Some(c) => {
                if *c <= off {
                    pc = *c as u64;
                    proof {
                        assert(self.cursors().contains_key(method_idx));
                        n = choose|k: nat| chain(data@, widths, si, ei, k) == Some(pc as int);
                    }
                }
            },
            None => {},
        }
        proof {
            lemma_chain_grows(data@, widths, si, ei, n);
        }
        while pc < off as u64
            invariant
                *self == *old(self),
                old(self).wf(),
                old(self).cursors_valid(data@),
                old(self).starts().contains_key(method_idx),
                old(self).starts()[method_idx] == start,
                old(self).ends().contains_key(method_idx),
                old(self).ends()[method_idx] == end,
                self.widths@ == widths,
                widths.len() == 256,
                si == start,
                ei == end,
                start <= off < end,
                start <= pc <= end,
                chain(data@, widths, si, ei, n) == Some(pc as int),
                n > 0 ==> (chain(data@, widths, si, ei, (n - 1) as nat) matches Some(q) && q < off),
            decreases end - pc,
        {
            let len = match insn_len_at(data, self.widths.as_slice(), pc as usize) {
                Some(l) => l,
                None => {
                    proof {
                        lemma_chain_misses(data@, widths, si, ei, n, off as int);
                    }
                    return false;
                },
            };
            if len == 0 || pc + len as u64 > end as u64 {
                proof {
                    lemma_chain_misses(data@, widths, si, ei, n, off as int);
                }
                return false;
            }
            pc = pc + len as u64;
            proof {
                n = n + 1;
            }
        }
        proof {
            if pc as int != off as int {
                lemma_chain_misses(data@, widths, si, ei, (n - 1) as nat, off as int);
            }
        }
        let ghost old_self = *self;
        self.cursor.insert(method_idx, pc as u32);
        proof {
            assert forall|i: int| 0 <= i < self.bucket_count() implies #[trigger] self.bucket(i) == old_self.bucket(i) by {
            }
            assert forall|m: u32| #[trigger] self.cursors().contains_key(m) implies self.starts().contains_key(m)
                && self.ends().contains_key(m) && reachable(
                data@,
                self.opcode_widths(),
                self.starts()[m] as int,
                self.ends()[m] as int,
                self.cursors()[m] as int,
            ) by {
                if m == method_idx {
                    assert(chain(data@, widths, si, ei, n) == Some(self.cursors()[m] as int));
                } else {
                    assert(old_self.cursors().contains_key(m));
                }
            }
        }
        pc == off as u64
    }

    fn resolve(&mut self, data: &[u8], off: u32) -> (r: Option<Owner>)
        requires
            old(self).wf(),
            old(self).cursors_valid(data@),
        ensures
            final(self).wf(),
            final(self).same_index(*old(self)),
            final(self).cursors_valid(data@),
            owner_list(r) == old(self).spec_resolve(data@, off),
    {
        let b = off / 16;
        if b < self.base_bucket {
            return None;
        }
        let i = (b - self.base_bucket) as usize;
        if i >= self.buckets.len() {
            return None;
        }
        let methods: Vec<u32> = vstd::slice::slice_to_vec(self.buckets[i].methods());
        let ghost s0 = *self;
        let ghost widths = self.widths@;
        let ghost starts = self.method_start@;
        let ghost ends = self.method_end@;
        proof {
            assert(methods@ == s0.bucket(i as int));
        }
        let mut ok: Vec<u32> = Vec::new();
        let mut k: usize = 0;
        while k < methods.len()
            invariant
                self.wf(),
                self.same_index(s0),
                self.cursors_valid(data@),
                widths == s0.opcode_widths(),
                starts == s0.starts(),
                ends == s0.ends(),
                k <= methods@.len(),
                ok@ == keep_owners(data@, widths, starts, ends, off, methods@.subrange(0, k as int)),
            decreases methods@.len() - k,
        {
            let m = methods[k];
            proof {
                assert(methods@.subrange(0, k + 1).drop_last() =~= methods@.subrange(0, k as int));
                assert(methods@.subrange(0, k + 1).last() == m);
            }
            if self.verify_boundary(data, m, off) {
                ok.push(m);
            }
            k = k + 1;
        }
        proof {
            assert(methods@.subrange(0, methods@.len() as int) =~= methods@);
        }
        if ok.len() == 0 {
            None
        } else if ok.len() == 1 {
            let m = ok[0];
            proof {
                assert(seq![m] =~= ok@);
            }
            Some(Owner::One(m))
        } else {
            Some(Owner::Many(ok))
        }
    }

    /// For each hit, the methods at whose instruction boundary its offset lies (hits are
    /// expected in ascending offset order, which keeps the walks short).
    pub fn locate(&mut self, data: &[u8], hits: &[crate::dex::fastref::scan::CodeScanHit]) -> (r: Vec<Option<Owner>>)
        requires
            old(self).wf(),
            old(self).cursors_valid(data@),
        ensures
            final(self).wf(),
            final(self).same_index(*old(self)),
            final(self).cursors_valid(data@),
            r@.len() == hits@.len(),
            forall|i: int| 0 <= i < hits@.len() ==> owner_list(#[trigger] r@[i]) == old(self).spec_resolve(
                data@,
                hits@[i].file_off,
            ),
    {
        let ghost s0 = *self;
        let mut out: Vec<Option<Owner>> = Vec::new();
        let mut i: usize = 0;
        while i < hits.len()
            invariant
                self.wf(),
                self.same_index(s0),
                s0 == *old(self),
                self.cursors_valid(data@),
                i <= hits@.len(),
                out@.len() == i,
                forall|j: int| 0 <= j < i ==> owner_list(#[trigger] out@[j]) == s0.spec_resolve(
                    data@,
                    hits@[j].file_off,
                ),
            decreases hits@.len() - i,
        {
            let ghost before = *self;
            let o = self.resolve(data, hits[i].file_off);
            proof {
                lemma_same_resolve(before, s0, data@, hits@[i as int].file_off);
            }
            out.push(o);
            i = i + 1;
        }
        out
    }

    /// `(code_item_start, code_item_end)`.
    pub fn code_item_bounds(&self) -> (r: (u32, u32))
        ensures
            r == (self.item_start(), self.item_end()),
    {
        (self.code_item_start, self.code_item_end)
    }

    /// Forget where the walks stopped.
    pub fn reset_cursors(&mut self)
        requires
            old(self).wf(),
        ensures
            final(self).wf(),
            final(self).same_index(*old(self)),
            final(self).cursors() == Map::<u32, u32>::empty(),
    {
        self.cursor = HashMap::new();
        proof {
            assert forall|i: int| 0 <= i < self.bucket_count() implies #[trigger] self.bucket(i) == old(self).bucket(i) by {
            }
        }
    }

    /// Byte offset of this method's `insns` array within the DEX file.
    pub fn method_insns_base(&self, method_idx: u32) -> (r: Option<u32>)
        ensures
            r == if self.starts().contains_key(method_idx) {
                Some(self.starts()[method_idx])
            } else {
                None::<u32>
            },
    {
        match self.method_start.get(&method_idx) {
            Some(v) => Some(*v),
            None => None,
        }
    }
}

} // verus!
