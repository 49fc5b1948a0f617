//! Substring → string_ids via contiguous string_data layout.

use std::collections::HashMap;

use vstd::prelude::*;

use crate::dex::fastref::search::{find_byte, find_bytes, occurs_at};
use crate::dex::fastref::locator::string_layout::{
    contiguous_strings, item_nul, item_off, lemma_fast_complete, lemma_item, lemma_items_ordered, lemma_min_max,
    lemma_mutf8_no_zero, prefix_len,
};
use crate::dex::fastref::sorted::{sort_dedup, strictly_increasing};
use crate::dex::raw::RawDex;
use crate::dex::strings::{encode_mutf8, find_nul, scan_to_nul, spec_encode_mutf8};
use crate::error::{truncated, DexError, Result};
use crate::leb128::{lemma_read_leb_consumed, read_uleb128, spec_read_uleb128};

verus! {

broadcast use vstd::std_specs::hash::group_hash_axioms;

/// Whether every string_ids entry below `k` can be read.
pub open spec fn offsets_readable(d: RawDex, k: nat) -> bool {
    forall|i: int| 0 <= i < k ==> (#[trigger] d.string_data_offset(i as u32)) is Some
}

/// `string_data_off → string index` for the first `k` strings (a later index wins).
pub open spec fn offset_map(d: RawDex, k: nat) -> Map<u32, u32>
    decreases k,
{
    if k == 0 {
        Map::empty()
    } else {
        offset_map(d, (k - 1) as nat).insert(
            d.string_data_offset((k - 1) as u32)->0,
            (k - 1) as u32,
        )
    }
}

/// Smallest of the first `k` string_data offsets (`u32::MAX` when `k == 0`).
pub open spec fn min_offset(d: RawDex, k: nat) -> u32
    decreases k,
{
    if k == 0 {
        u32::MAX
    } else {
        let o = d.string_data_offset((k - 1) as u32)->0;
        let m = min_offset(d, (k - 1) as nat);
        if o < m {
            o
        } else {
            m
        }
    }
}

/// Largest of the first `k` string_data offsets (0 when `k == 0`).
pub open spec fn max_offset(d: RawDex, k: nat) -> u32
    decreases k,
{
    if k == 0 {
        0
    } else {
        let o = d.string_data_offset((k - 1) as u32)->0;
        let m = max_offset(d, (k - 1) as nat);
        if o > m {
            o
        } else {
            m
        }
    }
}

/// One past the NUL of the string_data_item at the highest offset (or the end of the
/// data when it has none); nothing when its length prefix cannot be read.
pub open spec fn spec_strdata_end(d: RawDex) -> Option<int> {
    let m = max_offset(d, d.string_ids.size as nat) as int;
    match spec_read_uleb128(d.data@, m) {
        Some((_, n)) => {
            let e = find_nul(d.data@, m + n);
            Some(
                if e < d.data@.len() {
                    e + 1
                } else {
                    e
                },
            )
        },
        None => None,
    }
}

/// Start of the first occurrence of `n` in `h` at or after `pos`.
pub open spec fn first_occ(h: Seq<u8>, n: Seq<u8>, pos: int) -> Option<int>
    decreases h.len() + 1 - pos,
{
    if pos < 0 || pos > h.len() {
        None
    } else if occurs_at(h, n, pos) {
        Some(pos)
    } else {
        first_occ(h, n, pos + 1)
    }
}

/// First NUL in `data[a..end]`.
pub open spec fn nul_in(data: Seq<u8>, a: int, end: int) -> Option<int>
    decreases end - a,
{
    if a < 0 || a >= end {
        None
    } else if data[a] == 0 {
        Some(a)
    } else {
        nul_in(data, a + 1, end)
    }
}

/// The string indices the fast path reports for the non-overlapping occurrences of
/// `needle` in `data[start..end]` from relative position `pos` on: each occurrence's item
/// is the one whose successor starts just past the next NUL, and is reported only when
/// its own payload holds `needle` (`found` holds the indices whose payload does). Nothing
/// when an occurrence leads to an offset that starts no item, or to an item whose payload
/// does not hold `needle` (an occurrence across a length prefix or a terminator): the
/// layout is then not the assumed one.
pub open spec fn fast_hits(
    data: Seq<u8>,
    start: int,
    end: int,
    needle: Seq<u8>,
    index: Map<u32, u32>,
    found: Set<u32>,
    pos: int,
) -> Option<Seq<u32>>
    decreases end - start + 1 - pos,
{
    let region = data.subrange(start, end);
    if needle.len() == 0 || pos < 0 || start < 0 || start > end || end > data.len() {
        Some(Seq::empty())
    } else {
        match first_occ(region, needle, pos) {
            None => Some(Seq::empty()),
            Some(rel) => {
                proof {
                    lemma_first_occ_bounds(region, needle, pos);
                }
                let abs_end = start + rel + needle.len();
                let next_pos = rel + needle.len();
                match nul_in(data, abs_end, end) {
                    None => fast_hits(data, start, end, needle, index, found, next_pos),
                    Some(k) => {
                        let next_item = (k + 1) as u32;
                        if index.contains_key(next_item) && index[next_item] > 0 && found.contains(
                            (index[next_item] - 1) as u32,
                        ) {
                            match fast_hits(data, start, end, needle, index, found, next_pos) {
                                Some(rest) => Some(seq![(index[next_item] - 1) as u32] + rest),
                                None => None,
                            }
                        } else {
                            None
                        }
                    },
                }
            },
        }
    }
}

/// The payload of string `h` can be read and holds `needle`.
pub open spec fn item_holds(d: RawDex, h: u32, needle: Seq<u8>) -> bool {
    match d.string_bytes(h) {
        Some(b) => contains_sub(b, needle),
        None => false,
    }
}

/// The full scan reports `h` exactly when `h` is below `k` and its payload can be
/// read and holds `needle`.
pub proof fn lemma_fallback_contains(d: RawDex, needle: Seq<u8>, k: nat, h: u32)
    ensures
        spec_fallback(d, needle, k).contains(h) <==> (h < k && item_holds(d, h, needle)),
    decreases k,
{
    if k > 0 {
        lemma_fallback_contains(d, needle, (k - 1) as nat, h);
        let rest = spec_fallback(d, needle, (k - 1) as nat);
        assert(rest.push((k - 1) as u32).contains(h) <==> (rest.contains(h) || h == (k - 1) as u32)) by {
            if h == (k - 1) as u32 {
                assert(rest.push((k - 1) as u32)[rest.len() as int] == h);
            }
            if rest.push((k - 1) as u32).contains(h) {
                let p = rest.push((k - 1) as u32);
                let j = choose|j: int| 0 <= j < p.len() && #[trigger] p[j] == h;
                if j < rest.len() {
                    assert(rest[j] == h);
                }
            }
            if rest.contains(h) {
                let j = choose|j: int| 0 <= j < rest.len() && #[trigger] rest[j] == h;
                assert(rest.push((k - 1) as u32)[j] == h);
            }
        }
    }
}

/// Whether `needle` occurs somewhere in `b`.
pub open spec fn contains_sub(b: Seq<u8>, needle: Seq<u8>) -> bool {
    exists|j: int| occurs_at(b, needle, j)
}

/// The indices below `k` whose string payload contains `needle`, ascending.
pub open spec fn spec_fallback(d: RawDex, needle: Seq<u8>, k: nat) -> Seq<u32>
    decreases k,
{
    if k == 0 {
        Seq::empty()
    } else {
        let rest = spec_fallback(d, needle, (k - 1) as nat);
        match d.string_bytes((k - 1) as u32) {
            Some(b) => if contains_sub(b, needle) {
                rest.push((k - 1) as u32)
            } else {
                rest
            },
            None => rest,
        }
    }
}

/// Locate string_ids whose MUTF-8 value contains a query substring.
///
/// `string_data_item`s are expected to be laid out contiguously in ascending
/// `string_ids` order (as dx and R8 write them); when a search shows otherwise the
/// locator falls back to a full scan from then on.
pub struct StringLocator<'a> {
    dex: &'a RawDex<'a>,
    data_off_to_idx: HashMap<u32, u32>,
    strdata_start: u32,
    strdata_end: u32,
    layout_ok: bool,
}

impl<'a> StringLocator<'a> {
    /// The views the locator searches.
    pub closed spec fn raw(self) -> RawDex<'a> {
        *self.dex
    }

    /// `string_data_off → index`, with the end of the string data as a sentinel for `size`.
    pub closed spec fn index(self) -> Map<u32, u32> {
        self.data_off_to_idx@
    }

    /// Start of the string data region.
    pub closed spec fn start(self) -> u32 {
        self.strdata_start
    }

    /// End of the string data region.
    pub closed spec fn end(self) -> u32 {
        self.strdata_end
    }

    /// Whether no search has yet contradicted the contiguous layout.
    pub closed spec fn layout_ok(self) -> bool {
        self.layout_ok
    }

    /// The same locator with the layout flag set to `ok`.
    pub closed spec fn with_layout(self, ok: bool) -> Self {
        StringLocator { layout_ok: ok, ..self }
    }

    /// Setting the layout flag changes nothing else.
    pub proof fn lemma_with_layout(self, ok: bool)
        ensures
            self.with_layout(ok).raw() == self.raw(),
            self.with_layout(ok).index() == self.index(),
            self.with_layout(ok).start() == self.start(),
            self.with_layout(ok).end() == self.end(),
            self.with_layout(ok).layout_ok() == ok,
            self.wf() ==> self.with_layout(ok).wf(),
    {
    }

    /// What `build` establishes and every search keeps.
    pub open spec fn wf(self) -> bool {
        let d = self.raw();
        let n = d.string_ids.size as nat;
        &&& offsets_readable(d, n)
        &&& self.end() <= d.data@.len()
        &&& n == 0 ==> self.index() == Map::<u32, u32>::empty() && self.start() == 0 && self.end()
            == 0
        &&& n > 0 ==> {
            &&& spec_strdata_end(d) is Some
            &&& self.end() as int == spec_strdata_end(d)->0 % 0x1_0000_0000
            &&& self.start() == min_offset(d, n)
            &&& self.index() == offset_map(d, n).insert(self.end(), n as u32)
        }
    }

    /// Whether a search for `query` goes through the contiguous-layout path.
    pub open spec fn searches_fast(self, query: Seq<char>) -> bool {
        query.len() != 0 && self.start() < self.end() && self.layout_ok()
    }

    /// What the contiguous-layout path finds for `query` (nothing when the layout
    /// turned out not to hold).
    pub open spec fn fast_result(self, query: Seq<char>) -> Option<Seq<u32>> {
        fast_hits(
            self.raw().data@,
            self.start() as int,
            self.end() as int,
            spec_encode_mutf8(query),
            self.index(),
            self.brute_force(query),
            0,
        )
    }

    /// The string indices whose payload holds the MUTF-8 bytes of `query`: what a scan
    /// of every string finds.
    pub open spec fn brute_force(self, query: Seq<char>) -> Set<u32> {
        spec_fallback(self.raw(), spec_encode_mutf8(query), self.raw().string_ids.size as nat).to_set()
    }

    /// The string indices a search for `query` reports: none for an empty query or
    /// region; those of the fast path while the layout holds; otherwise those of a
    /// full scan.
    pub open spec fn matches(self, query: Seq<char>) -> Set<u32> {
        let d = self.raw();
        if query.len() == 0 || self.start() >= self.end() {
            Set::empty()
        } else if self.layout_ok() && self.fast_result(query) is Some {
            self.fast_result(query)->0.to_set()
        } else {
            spec_fallback(d, spec_encode_mutf8(query), d.string_ids.size as nat).to_set()
        }
    }

    /// Whether the layout is still taken to hold after a search for `query`.
    pub open spec fn layout_after(self, query: Seq<char>) -> bool {
        if self.searches_fast(query) {
            self.fast_result(query) is Some
        } else {
            self.layout_ok()
        }
    }

    /// Index the string_data offsets of `dex`; `Truncated` when a string_ids entry or the
    /// length prefix of the last string cannot be read.
    pub fn build(dex: &'a RawDex<'a>) -> (r: Result<Self>)
        ensures
            match r {
                Ok(sl) => sl.raw() == *dex && sl.wf() && sl.layout_ok(),
                Err(e) => e is Truncated && (!offsets_readable(*dex, dex.string_ids.size as nat)
                    || (dex.string_ids.size > 0 && spec_strdata_end(*dex) is None)),
            },
    {
        let n = dex.string_ids.size;
        let mut data_off_to_idx: HashMap<u32, u32> = HashMap::new();
        let mut max_off: u32 = 0;
        let mut min_off: u32 = u32::MAX;
        let mut i: u32 = 0;
        while i < n
            invariant
                n == dex.string_ids.size,
                i <= n,
                offsets_readable(*dex, i as nat),
                data_off_to_idx@ == offset_map(*dex, i as nat),
                max_off == max_offset(*dex, i as nat),
                min_off == min_offset(*dex, i as nat),
            decreases n - i,
        {
            let off = match dex.string_data_off(i) {
                Ok(o) => o,
                Err(e) => {
                    proof {
                        assert(dex.string_data_offset(i) is None);
                    }
                    return Err(e);
                },
            };
            data_off_to_idx.insert(off, i);
            if off > max_off {
                max_off = off;
            }
            if off < min_off {
                min_off = off;
            }
            proof {
                assert forall|k: int| 0 <= k < i + 1 implies (#[trigger] dex.string_data_offset(
                    k as u32,
                )) is Some by {
                    if k < i {
                        assert(offsets_readable(*dex, i as nat));
                    }
                }
            }
            i = i + 1;
        }
        if n == 0 {
            return Ok(
                StringLocator {
                    dex,
                    data_off_to_idx,
                    strdata_start: 0,
                    strdata_end: 0,
                    layout_ok: true,
                },
            );
        }
        let len = dex.data.len();
        let mut end = max_off as usize;
        proof {
            lemma_read_leb_consumed(dex.data@, end as int);
        }
        let nuleb = match read_uleb128(dex.data, end) {
            Some((_sz, k)) => k,
            None => return Err(truncated("strdata")),
        };
        end = scan_to_nul(dex.data, end + nuleb);
        if end < len {
            end = end + 1;
        }
        let end32: u32 = (end as u64 % 0x1_0000_0000) as u32;
        data_off_to_idx.insert(end32, n);
        Ok(
            StringLocator {
                dex,
                data_off_to_idx,
                strdata_start: min_off,
                strdata_end: end32,
                layout_ok: true,
            },
        )
    }

    /// When the string data items lie one right after the other in string_ids order
    /// (as dx and R8 write them), a search finds exactly what a scan of every string
    /// finds: the strings whose payload holds the MUTF-8 bytes of the query. An empty
    /// query finds nothing.
    #[verifier::spinoff_prover]
    #[verifier::rlimit(100)]
    pub proof fn search_equals_scan(self, query: Seq<char>)
        requires
            self.wf(),
            contiguous_strings(self.raw()),
            self.raw().data@.len() < 0x1_0000_0000,
        ensures
            self.matches(query) == (if query.len() == 0 {
                Set::<u32>::empty()
            } else {
                self.brute_force(query)
            }),
    {
        let d = self.raw();
        let n = d.string_ids.size as int;
        let needle = spec_encode_mutf8(query);
        if query.len() == 0 {
            return;
        }
        if n == 0 {
            assert(spec_fallback(d, needle, 0) =~= Seq::<u32>::empty());
            assert(Seq::<u32>::empty().to_set() =~= Set::<u32>::empty());
            return;
        }
        lemma_item(d, 0);
        lemma_item(d, n - 1);
        lemma_min_max(d, n as nat);
        lemma_read_leb_consumed(d.data@, item_off(d, n - 1));
        let start = self.start() as int;
        let end = self.end() as int;
        assert(start == item_off(d, 0));
        assert(end == item_nul(d, n - 1) + 1);
        if n > 1 {
            lemma_items_ordered(d, 0, n - 1);
        }
        if self.layout_ok() && self.fast_result(query) is Some {
            let s = self.fast_result(query)->0;
            let found = self.brute_force(query);
            lemma_encode_nonempty(query);
            lemma_mutf8_no_zero(query);
            lemma_fast_sound(d.data@, start, end, needle, self.index(), found, 0);
            assert forall|x: u32| found.contains(x) implies s.to_set().contains(x) by {
                lemma_fallback_contains(d, needle, n as nat, x);
                let xi = x as int;
                lemma_item(d, xi);
                let b = d.string_bytes(x)->0;
                assert(b == d.data@.subrange(item_off(d, xi) + prefix_len(d, xi), item_nul(d, xi)));
                let j = choose|j: int| occurs_at(b, needle, j);
                let r = item_off(d, xi) + prefix_len(d, xi) + j - start;
                if xi > 0 {
                    lemma_items_ordered(d, 0, xi);
                }
                assert(d.data@.subrange(start + r, start + r + needle.len()) =~= b.subrange(j, j + needle.len()));
                lemma_fast_complete(d, needle, self.index(), found, start, end, 0, xi, r);
                let k = choose|k: int| 0 <= k < s.len() && s[k] == x;
            }
            assert forall|x: u32| s.to_set().contains(x) implies found.contains(x) by {
                let k = choose|k: int| 0 <= k < s.len() && s[k] == x;
            }
            assert(s.to_set() =~= found);
        }
    }

    /// The string indices whose value contains `query`, ascending and without repeats.
    /// An empty query, or an empty string data region, finds nothing.
    pub fn locate(&mut self, query: &str) -> (r: Vec<u32>)
        requires
            old(self).wf(),
        ensures
            *final(self) == old(self).with_layout(old(self).layout_after(query@)),
            strictly_increasing(r@),
            r@.to_set() == old(self).matches(query@),
            r@.to_set().subset_of(old(self).brute_force(query@)),
            contiguous_strings(old(self).raw()) && old(self).raw().data@.len() < 0x1_0000_0000 ==> r@.to_set() == (
            if query@.len() == 0 {
                Set::<u32>::empty()
            } else {
                old(self).brute_force(query@)
            }),
            !old(self).searches_fast(query@) || !old(self).layout_after(query@) ==> r@.to_set() == (if query@.len()
                == 0 || old(self).start() >= old(self).end() {
                Set::<u32>::empty()
            } else {
                old(self).brute_force(query@)
            }),
    {
        proof {
            if contiguous_strings(self.raw()) && self.raw().data@.len() < 0x1_0000_0000 {
                self.search_equals_scan(query@);
            }
        }
        if query.is_empty() || self.strdata_start >= self.strdata_end {
            proof {
                assert(Seq::<u32>::empty().to_set() =~= Set::<u32>::empty());
            }
            return Vec::new();
        }
        let needle = encode_mutf8(query);
        if !self.layout_ok {
            proof {
                lemma_fallback_increasing(self.raw(), needle@, self.raw().string_ids.size as nat);
            }
            return self.locate_fallback(needle.as_slice());
        }
        proof {
            lemma_encode_nonempty(query@);
        }
        let data = self.dex.data;
        let start = self.strdata_start as usize;
        let end = self.strdata_end as usize;
        let region = vstd::slice::slice_subrange(data, start, end);
        let nl = needle.len();
        let ghost index = self.data_off_to_idx@;
        let ghost found = self.brute_force(query@);
        let ghost total = fast_hits(data@, start as int, end as int, needle@, index, found, 0);
        let mut out: Vec<u32> = Vec::new();
        let mut pos: usize = 0;
        let ghost s0 = *self;
        loop
            invariant
                *self == s0,
                s0 == *old(self),
                self.wf(),
                self.data_off_to_idx@ == index,
                self.layout_ok,
                data@ == self.raw().data@,
                start == self.strdata_start,
                end == self.strdata_end,
                start < end <= data@.len(),
                region@ == data@.subrange(start as int, end as int),
                nl == needle@.len(),
                nl >= 1,
                needle@ == spec_encode_mutf8(query@),
                found == s0.brute_force(query@),
                forall|j: int| 0 <= j < out@.len() ==> found.contains(#[trigger] out@[j]),
                total == fast_hits(data@, start as int, end as int, needle@, index, found, 0),
                total == match fast_hits(data@, start as int, end as int, needle@, index, found, pos as int) {
                    Some(h) => Some(out@ + h),
                    None => None::<Seq<u32>>,
                },
            ensures
                *self == s0,
                total == Some(out@),
            decreases region@.len() + 1 - pos,
        {
            if pos > region.len() {
                proof {
                    assert(out@ + Seq::<u32>::empty() =~= out@);
                }
                break;
            }
            let hay = vstd::slice::slice_subrange(region, pos, region.len());
            match find_bytes(hay, needle.as_slice()) {
                None => {
                    proof {
                        lemma_first_occ_none(region@, needle@, pos as int, hay@);
                        assert(fast_hits(data@, start as int, end as int, needle@, index, found, pos as int)
                            == Some(Seq::<u32>::empty()));
                        assert(out@ + Seq::<u32>::empty() =~= out@);
                    }
                    break;
                },
                Some(i) => {
                    let rel = pos + i;
                    proof {
                        lemma_first_occ_some(region@, needle@, pos as int, hay@, i as int);
                    }
                    let abs_end = start + rel + nl;
                    let next_pos = rel + nl;
                    let tail = vstd::slice::slice_subrange(data, abs_end, end);
                    match find_byte(0, tail) {
                        None => {
                            proof {
                                lemma_nul_in_none(data@, abs_end as int, end as int, tail@);
                            }
                            pos = next_pos;
                        },
                        Some(k) => {
                            proof {
                                lemma_nul_in_some(data@, abs_end as int, end as int, tail@, k as int);
                            }
                            let next_item = (abs_end + k + 1) as u32;
                            let cand = match self.data_off_to_idx.get(&next_item) {
                                Some(idx) => if *idx > 0 {
                                    Some(*idx - 1)
                                } else {
                                    None
                                },
                                None => None,
                            };
                            let hit = match cand {
                                Some(h) => if self.payload_holds(h, needle.as_slice()) {
                                    Some(h)
                                } else {
                                    None
                                },
                                None => None,
                            };
                            match hit {
                                Some(h) => {
                                    let ghost before = out@;
                                    out.push(h);
                                    proof {
                                        match fast_hits(data@, start as int, end as int, needle@, index, found, next_pos as int) {
                                            Some(rest) => {
                                                assert(before + (seq![h] + rest) =~= out@ + rest);
                                            },
                                            None => {},
                                        }
                                    }
                                    pos = next_pos;
                                },
                                None => {
                                    self.layout_ok = false;
                                    proof {
                                        assert(self.raw() == s0.raw());
                                        assert(self.index() == s0.index());
                                        assert(!(index.contains_key(next_item) && index[next_item] > 0 && found.contains(
                                            (index[next_item] - 1) as u32,
                                        )));
                                        assert(fast_hits(data@, start as int, end as int, needle@, index, found, pos as int) is None);
                                        assert(total is None);
                                        lemma_fallback_increasing(self.raw(), needle@, self.raw().string_ids.size as nat);
                                    }
                                    return self.locate_fallback(needle.as_slice());
                                },
                            }
                        },
                    }
                },
            }
        }
        let r = sort_dedup(out);
        proof {
            assert forall|x: u32| r@.to_set().contains(x) implies found.contains(x) by {
                assert(out@.to_set().contains(x));
                let j = choose|j: int| 0 <= j < out@.len() && #[trigger] out@[j] == x;
            }
        }
        r
    }

    /// Whether string `h` is one of the strings and its payload holds `needle`.
    fn payload_holds(&self, h: u32, needle: &[u8]) -> (r: bool)
        ensures
            r == spec_fallback(self.raw(), needle@, self.raw().string_ids.size as nat).contains(h),
    {
        proof {
            lemma_fallback_contains(self.raw(), needle@, self.raw().string_ids.size as nat, h);
        }
        if h >= self.dex.string_ids.size {
            return false;
        }
        match self.dex.string_payload_bytes(h) {
            Ok(bytes) => match find_bytes(bytes, needle) {
                Some(_) => true,
                None => false,
            },
            Err(_) => false,
        }
    }

    /// Full scan: every string whose payload contains `needle`, ascending.
    fn locate_fallback(&self, needle: &[u8]) -> (r: Vec<u32>)
        ensures
            r@ == spec_fallback(self.raw(), needle@, self.raw().string_ids.size as nat),
    {
        let n = self.dex.string_ids.size;
        let mut out: Vec<u32> = Vec::new();
        let mut i: u32 = 0;
        while i < n
            invariant
                n == self.raw().string_ids.size,
                i <= n,
                out@ == spec_fallback(self.raw(), needle@, i as nat),
            decreases n - i,
        {
            match self.dex.string_payload_bytes(i) {
                Ok(bytes) => {
                    match find_bytes(bytes, needle) {
                        Some(j) => {
                            out.push(i);
                        },
                        None => {},
                    }
                },
                Err(_) => {},
            }
            i = i + 1;
        }
        out
    }
}

/// Where the first occurrence at or after `pos` can be.
pub proof fn lemma_first_occ_bounds(h: Seq<u8>, n: Seq<u8>, pos: int)
    ensures
        first_occ(h, n, pos) matches Some(r) ==> pos <= r <= h.len() && occurs_at(h, n, r),
    decreases h.len() + 1 - pos,
{
    if 0 <= pos <= h.len() && !occurs_at(h, n, pos) {
        lemma_first_occ_bounds(h, n, pos + 1);
    }
}

proof fn lemma_fallback_increasing(d: RawDex, needle: Seq<u8>, k: nat)
    requires
        k <= 0x1_0000_0000,
    ensures
        strictly_increasing(spec_fallback(d, needle, k)),
        forall|j: int| 0 <= j < spec_fallback(d, needle, k).len() ==> spec_fallback(d, needle, k)[j] < k,
    decreases k,
{
    if k > 0 {
        lemma_fallback_increasing(d, needle, (k - 1) as nat);
        let rest = spec_fallback(d, needle, (k - 1) as nat);
        let s = spec_fallback(d, needle, k);
        if s.len() == rest.len() + 1 {
            assert(s == rest.push((k - 1) as u32));
            assert forall|i: int, j: int| 0 <= i < j < s.len() implies s[i] < s[j] by {
                assert(s[i] == rest[i]);
                if j < rest.len() {
                    assert(s[j] == rest[j]);
                } else {
                    assert(rest[i] < k - 1);
                }
            }
        } else {
            assert(s == rest);
        }
    }
}


/// Every index the fast search reports is one of `found`.
proof fn lemma_fast_sound(
    data: Seq<u8>,
    start: int,
    end: int,
    needle: Seq<u8>,
    index: Map<u32, u32>,
    found: Set<u32>,
    pos: int,
)
    ensures
        fast_hits(data, start, end, needle, index, found, pos) matches Some(s) ==> forall|i: int|
            0 <= i < s.len() ==> found.contains(#[trigger] s[i]),
    decreases end - start + 1 - pos,
{
    let region = data.subrange(start, end);
    if !(needle.len() == 0 || pos < 0 || start < 0 || start > end || end > data.len()) {
        lemma_first_occ_bounds(region, needle, pos);
        match first_occ(region, needle, pos) {
            None => {},
            Some(rel) => {
                let next_pos = rel + needle.len();
                lemma_fast_sound(data, start, end, needle, index, found, next_pos);
                match nul_in(data, start + rel + needle.len(), end) {
                    None => {},
                    Some(k) => {
                        let next_item = (k + 1) as u32;
                        if index.contains_key(next_item) && index[next_item] > 0 && found.contains(
                            (index[next_item] - 1) as u32,
                        ) {
                            match fast_hits(data, start, end, needle, index, found, next_pos) {
                                Some(rest) => {
                                    let s = seq![(index[next_item] - 1) as u32] + rest;
                                    assert forall|i: int| 0 <= i < s.len() implies found.contains(#[trigger] s[i]) by {
                                        if i > 0 {
                                            assert(s[i] == rest[i - 1]);
                                        }
                                    }
                                },
                                None => {},
                            }
                        }
                    },
                }
            },
        }
    }
}

proof fn lemma_encode_nonempty(s: Seq<char>)
    requires
        s.len() > 0,
    ensures
        spec_encode_mutf8(s).len() > 0,
{
    reveal_with_fuel(spec_encode_mutf8, 2);
}

proof fn lemma_shift_occurs(region: Seq<u8>, needle: Seq<u8>, pos: int, hay: Seq<u8>, j: int)
    requires
        0 <= pos <= region.len(),
        hay == region.subrange(pos, region.len() as int),
        0 <= j,
    ensures
        occurs_at(hay, needle, j) == occurs_at(region, needle, pos + j),
{
    if j + needle.len() <= hay.len() {
        assert(hay.subrange(j, j + needle.len()) =~= region.subrange(pos + j, pos + j + needle.len()));
    }
}

proof fn lemma_first_occ_none(region: Seq<u8>, needle: Seq<u8>, pos: int, hay: Seq<u8>)
    requires
        0 <= pos <= region.len(),
        hay == region.subrange(pos, region.len() as int),
        forall|j: int| !occurs_at(hay, needle, j),
    ensures
        first_occ(region, needle, pos) is None,
    decreases region.len() + 1 - pos,
{
    lemma_shift_occurs(region, needle, pos, hay, 0);
    if pos < region.len() {
        let hay2 = region.subrange(pos + 1, region.len() as int);
        assert forall|j: int| !occurs_at(hay2, needle, j) by {
            if j >= 0 {
                lemma_shift_occurs(region, needle, pos + 1, hay2, j);
                lemma_shift_occurs(region, needle, pos, hay, j + 1);
            }
        }
        lemma_first_occ_none(region, needle, pos + 1, hay2);
    }
}

proof fn lemma_first_occ_some(region: Seq<u8>, needle: Seq<u8>, pos: int, hay: Seq<u8>, i: int)
    requires
        0 <= pos <= region.len(),
        hay == region.subrange(pos, region.len() as int),
        0 <= i,
        occurs_at(hay, needle, i),
        forall|j: int| 0 <= j < i ==> !occurs_at(hay, needle, j),
    ensures
        first_occ(region, needle, pos) == Some(pos + i),
        pos + i + needle.len() <= region.len(),
    decreases i,
{
    lemma_shift_occurs(region, needle, pos, hay, i);
    if i > 0 {
        lemma_shift_occurs(region, needle, pos, hay, 0);
        let hay2 = region.subrange(pos + 1, region.len() as int);
        lemma_shift_occurs(region, needle, pos + 1, hay2, i - 1);
        assert forall|j: int| 0 <= j < i - 1 implies !occurs_at(hay2, needle, j) by {
            lemma_shift_occurs(region, needle, pos + 1, hay2, j);
            lemma_shift_occurs(region, needle, pos, hay, j + 1);
        }
        lemma_first_occ_some(region, needle, pos + 1, hay2, i - 1);
    }
}

proof fn lemma_nul_in_none(data: Seq<u8>, a: int, end: int, tail: Seq<u8>)
    requires
        0 <= a <= end <= data.len(),
        tail == data.subrange(a, end),
        forall|j: int| 0 <= j < tail.len() ==> tail[j] != 0,
    ensures
        nul_in(data, a, end) is None,
    decreases end - a,
{
    if a < end {
        assert(tail[0] == data[a]);
        let tail2 = data.subrange(a + 1, end);
        assert forall|j: int| 0 <= j < tail2.len() implies tail2[j] != 0 by {
            assert(tail2[j] == tail[j + 1]);
        }
        lemma_nul_in_none(data, a + 1, end, tail2);
    }
}

proof fn lemma_nul_in_some(data: Seq<u8>, a: int, end: int, tail: Seq<u8>, k: int)
    requires
        0 <= a <= end <= data.len(),
        tail == data.subrange(a, end),
        0 <= k < tail.len(),
        tail[k] == 0,
        forall|j: int| 0 <= j < k ==> tail[j] != 0,
    ensures
        nul_in(data, a, end) == Some(a + k),
    decreases k,
{
    assert(tail[0] == data[a]);
    if k > 0 {
        let tail2 = data.subrange(a + 1, end);
        assert forall|j: int| 0 <= j < k - 1 implies tail2[j] != 0 by {
            assert(tail2[j] == tail[j + 1]);
        }
        assert(tail2[k - 1] == tail[k]);
        lemma_nul_in_some(data, a + 1, end, tail2, k - 1);
    }
}

} // verus!
