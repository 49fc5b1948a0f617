//! Reference finder: constant-pool locators, a raw code_item scan, and the map from
//! instruction offsets to methods.

pub mod locator;
pub mod scan;
pub mod search;
pub mod sorted;

use vstd::prelude::*;

use crate::dex::header::{has_dex_magic, HEADER_SIZE};
use crate::dex::raw::{spec_map_entry, RawDex};
use crate::error::{DexError, Result};
use crate::leb128::spec_read_u32;

use locator::insn::{
    bucket_list, keep_owners, lemma_resolve_ranges, lemma_same_index_views, max_bucket, min_bucket, owner_list, ranges_of,
    start_map, end_map, walk_from, InsnLocator, Owner,
};
use locator::method::{after_query, query_hits, MemberQuery};
use locator::method::members_readable;
use locator::string::{offsets_readable, spec_strdata_end, StringLocator};
use locator::type_::{descs_readable, spec_bsearch, TypeLocator};
use locator::{FieldLocator, MethodLocator};
use scan::{
    code_item_region, scan_kind, scan_single_u16, scan_u32, single_mask, spec_hits_u16, spec_hits_u32, spec_scan_kind,
    CodeScanHit, RefKind,
};
use sorted::strictly_increasing;

verus! {

/// One verified reference site.
#[derive(Debug, Clone, Copy)]
pub struct RefSite {
    pub file_off: u32,
    pub pool_idx: u32,
    pub method_idx: u32,
    /// Offset within the method's `insns` array (bytes), for UI navigation.
    pub insn_off: u32,
}

/// Hits of two lists that are each ascending by offset, merged by offset; on equal
/// offsets those of `a` come first (a stable sort of `a + b` by offset).
pub open spec fn merge_hits(a: Seq<CodeScanHit>, b: Seq<CodeScanHit>) -> Seq<CodeScanHit>
    decreases a.len() + b.len(),
{
    if a.len() == 0 {
        b
    } else if b.len() == 0 {
        a
    } else if a[0].file_off <= b[0].file_off {
        seq![a[0]] + merge_hits(a.drop_first(), b)
    } else {
        seq![b[0]] + merge_hits(a, b.drop_first())
    }
}

/// The scan hits of `kind` over `region`, in ascending offset order.
pub open spec fn ordered_hits(
    kind: RefKind,
    region: Seq<u8>,
    base: u32,
    wanted: Seq<u32>,
    pool_size: u32,
) -> Seq<CodeScanHit> {
    match kind {
        RefKind::String => merge_hits(
            spec_hits_u16(region, base, single_mask(0x1a), wanted, pool_size, 0),
            spec_hits_u32(region, base, 0x1b, wanted, pool_size, 0),
        ),
        _ => spec_scan_kind(kind, region, base, wanted, pool_size),
    }
}

/// The methods that own `off` in the index built from `ranges`.
pub open spec fn resolve_in(
    ranges: Seq<(u32, u32, u32)>,
    widths: Seq<u32>,
    data: Seq<u8>,
    off: u32,
) -> Option<Seq<u32>> {
    let n = ranges.len();
    let b = off / 16;
    if n == 0 || b < min_bucket(ranges, n) || b > max_bucket(ranges, n) {
        None
    } else {
        let ok = keep_owners(data, widths, start_map(ranges), end_map(ranges), off, bucket_list(ranges, b as int, n));
        if ok.len() == 0 {
            None
        } else {
            Some(ok)
        }
    }
}

/// `a - b`, or 0 when `b > a`.
pub open spec fn sat_sub(a: u32, b: u32) -> u32 {
    if a >= b {
        (a - b) as u32
    } else {
        0
    }
}

/// The sites of one hit: one per owning method.
pub open spec fn hit_sites(h: CodeScanHit, owners: Option<Seq<u32>>, starts: Map<u32, u32>) -> Seq<RefSite> {
    match owners {
        None => Seq::empty(),
        Some(ms) => ms.map_values(
            |m: u32|
                RefSite {
                    file_off: h.file_off,
                    pool_idx: h.pool_idx,
                    method_idx: m,
                    insn_off: if starts.contains_key(m) {
                        sat_sub(h.file_off, starts[m])
                    } else {
                        0
                    },
                },
        ),
    }
}

/// The sites of all `hits`, in order.
pub open spec fn sites_of(
    ranges: Seq<(u32, u32, u32)>,
    widths: Seq<u32>,
    data: Seq<u8>,
    hits: Seq<CodeScanHit>,
) -> Seq<RefSite>
    decreases hits.len(),
{
    if hits.len() == 0 {
        Seq::empty()
    } else {
        sites_of(ranges, widths, data, hits.drop_last()) + hit_sites(
            hits.last(),
            resolve_in(ranges, widths, data, hits.last().file_off),
            start_map(ranges),
        )
    }
}

/// The code region the scan covers: the CODE_ITEM section from the map to the end of the
/// file, or else the span of the method buckets (cut at the file end); both ends kept
/// within the file and below 2^32, the end no lower than the start.
pub open spec fn scan_region(d: RawDex, ranges: Seq<(u32, u32, u32)>) -> (int, int) {
    let len = d.data@.len() as int;
    let cap = if len < 0xffff_ffff {
        len
    } else {
        0xffff_ffff
    };
    let n = ranges.len();
    let (s, e) = match spec_map_entry(d.data@, d.map_off, 0x2001) {
        Some((_, off)) => (off as int, len % 0x1_0000_0000),
        None => if n == 0 {
            (0int, 0int)
        } else {
            let ie = ((max_bucket(ranges, n) + 1) * 16) % 0x1_0000_0000;
            let l32 = len % 0x1_0000_0000;
            (min_bucket(ranges, n) * 16, if ie < l32 {
                ie
            } else {
                l32
            })
        },
    };
    let start = if s < cap {
        s
    } else {
        cap
    };
    let end0 = if e < cap {
        e
    } else {
        cap
    };
    (start, if end0 < start {
        start
    } else {
        end0
    })
}

/// The reference sites of `kind` for the pool indices `wanted`, over the walk `pairs`.
pub open spec fn spec_refs(
    d: RawDex,
    widths: Seq<u32>,
    pairs: Seq<(u32, u32)>,
    kind: RefKind,
    wanted: Seq<u32>,
    pool_size: u32,
) -> Seq<RefSite> {
    let ranges = ranges_of(d.data@, pairs);
    let (start, end) = scan_region(d, ranges);
    let region = d.data@.subrange(start, end);
    sites_of(ranges, widths, d.data@, ordered_hits(kind, region, start as u32, wanted, pool_size))
}

pub struct FastRef<'a> {
    dex: RawDex<'a>,
    insn: Option<InsnLocator>,
    widths: Vec<u32>,
}


fn merge_sorted_hits(a: Vec<CodeScanHit>, b: Vec<CodeScanHit>) -> (r: Vec<CodeScanHit>)
    ensures
        r@ == merge_hits(a@, b@),
{
    let mut out: Vec<CodeScanHit> = Vec::new();
    let mut i: usize = 0;
    let mut j: usize = 0;
    proof {
        assert(a@.skip(0) =~= a@);
        assert(b@.skip(0) =~= b@);
        assert(out@ + merge_hits(a@, b@) =~= merge_hits(a@, b@));
    }
    while i < a.len() || j < b.len()
        invariant
            i <= a@.len(),
            j <= b@.len(),
            out@ + merge_hits(a@.skip(i as int), b@.skip(j as int)) == merge_hits(a@, b@),
        decreases a@.len() - i + b@.len() - j,
    {
        let ghost sa = a@.skip(i as int);
        let ghost sb = b@.skip(j as int);
        let ghost before = out@;
        if i < a.len() && (j >= b.len() || a[i].file_off <= b[j].file_off) {
            out.push(a[i]);
            proof {
                assert(sa[0] == a@[i as int]);
                assert(sa.drop_first() =~= a@.skip(i + 1));
                if sb.len() == 0 {
                    assert(merge_hits(sa, sb) == sa);
                    assert(merge_hits(sa.drop_first(), sb) == sa.drop_first());
                    assert(sa =~= seq![sa[0]] + sa.drop_first());
                } else {
                    assert(sb[0] == b@[j as int]);
                }
                assert(before + (seq![a@[i as int]] + merge_hits(a@.skip(i + 1), sb)) =~= out@ + merge_hits(a@.skip(i + 1), sb));
            }
            i = i + 1;
        } else {
            out.push(b[j]);
            proof {
                assert(sb[0] == b@[j as int]);
                assert(sb.drop_first() =~= b@.skip(j + 1));
                if sa.len() == 0 {
                    assert(merge_hits(sa, sb) == sb);
                    assert(merge_hits(sa, sb.drop_first()) == sb.drop_first());
                    assert(sb =~= seq![sb[0]] + sb.drop_first());
                } else {
                    assert(sa[0] == a@[i as int]);
                }
                assert(before + (seq![b@[j as int]] + merge_hits(sa, b@.skip(j + 1))) =~= out@ + merge_hits(sa, b@.skip(j + 1)));
            }
            j = j + 1;
        }
    }
    proof {
        assert(a@.skip(i as int) =~= Seq::<CodeScanHit>::empty());
        assert(b@.skip(j as int) =~= Seq::<CodeScanHit>::empty());
        assert(out@ + Seq::<CodeScanHit>::empty() =~= out@);
    }
    out
}

fn copy_widths(widths: &[u32]) -> (r: Vec<u32>)
    ensures
        r@ == widths@,
{
    vstd::slice::slice_to_vec(widths)
}

impl<'a> FastRef<'a> {
    /// The header views searched.
    pub closed spec fn view_raw(self) -> RawDex<'a> {
        self.dex
    }

    /// The opcode width table.
    pub closed spec fn opcode_widths(self) -> Seq<u32> {
        self.widths@
    }

    /// What the finder keeps between searches: a width table, and (once built) the
    /// instruction index of the walked methods.
    pub closed spec fn wf(self) -> bool {
        &&& self.widths@.len() == 256
        &&& match self.insn {
            Some(l) => {
                &&& l.wf()
                &&& l.opcode_widths() == self.widths@
                &&& walk_from(self.dex, self.dex.class_defs.size as nat) matches Some(pairs)
                    && l.method_ranges() == ranges_of(self.dex.data@, pairs)
            },
            None => true,
        }
    }

    /// Parse the header of `data`; `widths` gives the byte length of each opcode's format.
    /// `InvalidMagic` as [`RawDex::parse`] gives it.
    pub fn new(data: &'a [u8], widths: &[u32]) -> (r: Result<Self>)
        requires
            widths@.len() == 256,
        ensures
            match r {
                Ok(f) => f.wf() && f.view_raw().from_header_of(data@) && f.opcode_widths() == widths@
                    && data@.len() >= HEADER_SIZE && has_dex_magic(data@),
                Err(e) => e is InvalidMagic && !(data@.len() >= HEADER_SIZE && has_dex_magic(data@)),
            },
    {
        let dex = RawDex::parse(data)?;
        Ok(FastRef { dex, insn: None, widths: copy_widths(widths) })
    }

    /// A finder over views already read.
    pub fn from_raw(dex: RawDex<'a>, widths: &[u32]) -> (r: Self)
        requires
            widths@.len() == 256,
        ensures
            r.wf(),
            r.view_raw() == dex,
            r.opcode_widths() == widths@,
    {
        FastRef { dex, insn: None, widths: copy_widths(widths) }
    }

    /// The header views searched.
    pub fn raw(&self) -> (r: &RawDex<'a>)
        ensures
            *r == self.view_raw(),
    {
        &self.dex
    }

    /// Whether the string locator can be built over `d`.
    pub open spec fn strings_indexable(d: RawDex) -> bool {
        offsets_readable(d, d.string_ids.size as nat) && !(d.string_ids.size > 0 && spec_strdata_end(d) is None)
    }

    /// What a search reports for the sorted pool indices `idxs` of `kind`: no sites when
    /// there are none; else the sites of the walk, or `Truncated` when the classes cannot
    /// be walked.
    pub open spec fn search_result(self, r: Result<Vec<RefSite>>, kind: RefKind, idxs: Seq<u32>, pool_size: u32) -> bool {
        let d = self.view_raw();
        if idxs.len() == 0 {
            r matches Ok(v) && v@.len() == 0
        } else {
            match walk_from(d, d.class_defs.size as nat) {
                None => r matches Err(e) && e is Truncated,
                Some(pairs) => r matches Ok(v) && v@ == spec_refs(d, self.opcode_widths(), pairs, kind, idxs, pool_size),
            }
        }
    }

    /// Every reference to a string containing `needle`.
    pub fn find_strings(&mut self, needle: &str) -> (r: Result<Vec<RefSite>>)
        requires
            old(self).wf(),
        ensures
            final(self).wf(),
            final(self).view_raw() == old(self).view_raw(),
            final(self).opcode_widths() == old(self).opcode_widths(),
            !Self::strings_indexable(old(self).view_raw()) ==> (r matches Err(e) && e is Truncated),
            Self::strings_indexable(old(self).view_raw()) ==> exists|sl: StringLocator, idxs: Seq<u32>|
                sl.raw() == old(self).view_raw() && sl.wf() && sl.layout_ok() && strictly_increasing(idxs)
                    && idxs.to_set() == sl.matches(needle@) && old(self).search_result(
                    r,
                    RefKind::String,
                    idxs,
                    old(self).view_raw().string_ids.size,
                ),
    {
        let dex = self.dex;
        let built = StringLocator::build(&dex);
        let mut sl = match built {
            Ok(sl) => sl,
            Err(e) => return Err(e),
        };
        let ghost sl0 = sl;
        let idxs = sl.locate(needle);
        let r = self.scan_and_resolve(RefKind::String, idxs.as_slice(), dex.string_ids.size);
        proof {
            assert(sl0.raw() == dex && sl0.wf() && sl0.layout_ok() && strictly_increasing(idxs@)
                && idxs@.to_set() == sl0.matches(needle@) && old(self).search_result(
                r,
                RefKind::String,
                idxs@,
                dex.string_ids.size,
            ));
        }
        r
    }

    /// Every reference to a type whose descriptor contains `needle`.
    pub fn find_types(&mut self, needle: &str) -> (r: Result<Vec<RefSite>>)
        requires
            old(self).wf(),
        ensures
            final(self).wf(),
            final(self).view_raw() == old(self).view_raw(),
            final(self).opcode_widths() == old(self).opcode_widths(),
            !(Self::strings_indexable(old(self).view_raw()) && descs_readable(
                old(self).view_raw(),
                old(self).view_raw().type_ids.size as nat,
            )) ==> (r matches Err(e) && e is Truncated),
            Self::strings_indexable(old(self).view_raw()) && descs_readable(
                old(self).view_raw(),
                old(self).view_raw().type_ids.size as nat,
            ) ==> exists|sl: StringLocator, idxs: Seq<u32>|
                sl.raw() == old(self).view_raw() && sl.wf() && sl.layout_ok() && strictly_increasing(idxs)
                    && (forall|t: u32| #[trigger] idxs.to_set().contains(t) <==> (t < old(self).view_raw().type_ids.size
                    && exists|s: u32| sl.matches(needle@).contains(s) && old(self).view_raw().type_desc(t) == Some(s)))
                    && old(self).search_result(r, RefKind::Type, idxs, old(self).view_raw().type_ids.size),
    {
        let dex = self.dex;
        let mut sl = match StringLocator::build(&dex) {
            Ok(sl) => sl,
            Err(e) => return Err(e),
        };
        let tl = match TypeLocator::build(&dex) {
            Ok(tl) => tl,
            Err(e) => return Err(e),
        };
        let ghost sl0 = sl;
        let idxs = tl.locate(&mut sl, needle);
        let r = self.scan_and_resolve(RefKind::Type, idxs.as_slice(), dex.type_ids.size);
        proof {
            assert(sl0.raw() == dex && sl0.wf() && sl0.layout_ok() && strictly_increasing(idxs@)
                && (forall|t: u32| #[trigger] idxs@.to_set().contains(t) <==> (t < dex.type_ids.size
                && exists|s: u32| sl0.matches(needle@).contains(s) && dex.type_desc(t) == Some(s)))
                && old(self).search_result(r, RefKind::Type, idxs@, dex.type_ids.size));
        }
        r
    }

    /// Every call of a method that `q` selects.
    pub fn find_methods(&mut self, q: &MemberQuery) -> (r: Result<Vec<RefSite>>)
        requires
            old(self).wf(),
        ensures
            final(self).wf(),
            final(self).view_raw() == old(self).view_raw(),
            final(self).opcode_widths() == old(self).opcode_widths(),
            !(Self::strings_indexable(old(self).view_raw()) && descs_readable(
                old(self).view_raw(),
                old(self).view_raw().type_ids.size as nat,
            ) && members_readable(
                old(self).view_raw(),
                old(self).view_raw().method_ids,
                old(self).view_raw().method_ids.size as nat,
            )) ==> (r matches Err(e) && e is Truncated),
            Self::strings_indexable(old(self).view_raw()) && descs_readable(
                old(self).view_raw(),
                old(self).view_raw().type_ids.size as nat,
            ) && members_readable(
                old(self).view_raw(),
                old(self).view_raw().method_ids,
                old(self).view_raw().method_ids.size as nat,
            ) ==> exists|sl: StringLocator, tl: TypeLocator, idxs: Seq<u32>|
                sl.raw() == old(self).view_raw() && sl.wf() && sl.layout_ok() && tl.raw() == old(
                    self,
                ).view_raw() && tl.wf() && strictly_increasing(idxs) && idxs.to_set() == query_hits(
                    old(self).view_raw(),
                    old(self).view_raw().method_ids,
                    sl,
                    tl,
                    *q,
                ) && old(self).search_result(r, RefKind::Method, idxs, old(self).view_raw().method_ids.size),
    {
        let dex = self.dex;
        let mut sl = match StringLocator::build(&dex) {
            Ok(sl) => sl,
            Err(e) => return Err(e),
        };
        let tl = match TypeLocator::build(&dex) {
            Ok(tl) => tl,
            Err(e) => return Err(e),
        };
        let ml = match MethodLocator::build(&dex) {
            Ok(ml) => ml,
            Err(e) => return Err(e),
        };
        let ghost sl0 = sl;
        let idxs = ml.locate(&mut sl, &tl, q);
        let r = self.scan_and_resolve(RefKind::Method, idxs.as_slice(), dex.method_ids.size);
        proof {
            let tl0 = tl;
            assert(sl0.raw() == dex && sl0.wf() && sl0.layout_ok() && tl0.raw() == dex && tl0.wf()
                && strictly_increasing(idxs@) && idxs@.to_set() == query_hits(dex, dex.method_ids, sl0, tl0, *q)
                && old(self).search_result(r, RefKind::Method, idxs@, dex.method_ids.size));
        }
        r
    }

    /// Every access of a field that `q` selects.
    pub fn find_fields(&mut self, q: &MemberQuery) -> (r: Result<Vec<RefSite>>)
        requires
            old(self).wf(),
        ensures
            final(self).wf(),
            final(self).view_raw() == old(self).view_raw(),
            final(self).opcode_widths() == old(self).opcode_widths(),
            !(Self::strings_indexable(old(self).view_raw()) && descs_readable(
                old(self).view_raw(),
                old(self).view_raw().type_ids.size as nat,
            ) && members_readable(
                old(self).view_raw(),
                old(self).view_raw().field_ids,
                old(self).view_raw().field_ids.size as nat,
            )) ==> (r matches Err(e) && e is Truncated),
            Self::strings_indexable(old(self).view_raw()) && descs_readable(
                old(self).view_raw(),
                old(self).view_raw().type_ids.size as nat,
            ) && members_readable(
                old(self).view_raw(),
                old(self).view_raw().field_ids,
                old(self).view_raw().field_ids.size as nat,
            ) ==> exists|sl: StringLocator, tl: TypeLocator, idxs: Seq<u32>|
                sl.raw() == old(self).view_raw() && sl.wf() && sl.layout_ok() && tl.raw() == old(
                    self,
                ).view_raw() && tl.wf() && strictly_increasing(idxs) && idxs.to_set() == query_hits(
                    old(self).view_raw(),
                    old(self).view_raw().field_ids,
                    sl,
                    tl,
                    *q,
                ) && old(self).search_result(r, RefKind::Field, idxs, old(self).view_raw().field_ids.size),
    {
        let dex = self.dex;
        let mut sl = match StringLocator::build(&dex) {
            Ok(sl) => sl,
            Err(e) => return Err(e),
        };
        let tl = match TypeLocator::build(&dex) {
            Ok(tl) => tl,
            Err(e) => return Err(e),
        };
        let fl = match FieldLocator::build(&dex) {
            Ok(fl) => fl,
            Err(e) => return Err(e),
        };
        let ghost sl0 = sl;
        let idxs = fl.locate(&mut sl, &tl, q);
        let r = self.scan_and_resolve(RefKind::Field, idxs.as_slice(), dex.field_ids.size);
        proof {
            let tl0 = tl;
            assert(sl0.raw() == dex && sl0.wf() && sl0.layout_ok() && tl0.raw() == dex && tl0.wf()
                && strictly_increasing(idxs@) && idxs@.to_set() == query_hits(dex, dex.field_ids, sl0, tl0, *q)
                && old(self).search_result(r, RefKind::Field, idxs@, dex.field_ids.size));
        }
        r
    }

    /// Every call of method `method_idx`.
    pub fn find_method_idx(&mut self, method_idx: u32) -> (r: Result<Vec<RefSite>>)
        requires
            old(self).wf(),
        ensures
            final(self).wf(),
            final(self).view_raw() == old(self).view_raw(),
            final(self).opcode_widths() == old(self).opcode_widths(),
            old(self).search_result(r, RefKind::Method, seq![method_idx], old(self).view_raw().method_ids.size),
    {
        let wanted: [u32; 1] = [method_idx];
        let pool = self.dex.method_ids.size;
        proof {
            assert(wanted@ =~= seq![method_idx]);
        }
        self.scan_and_resolve(RefKind::Method, &wanted, pool)
    }

    fn ensure_insn(&mut self) -> (r: Result<()>)
        requires
            old(self).wf(),
        ensures
            final(self).wf(),
            final(self).view_raw() == old(self).view_raw(),
            final(self).opcode_widths() == old(self).opcode_widths(),
            r is Ok ==> final(self).insn is Some,
            r is Ok <==> walk_from(old(self).view_raw(), old(self).view_raw().class_defs.size as nat) is Some,
            r matches Err(e) ==> e is Truncated,
    {
        if self.insn.is_none() {
            let l = InsnLocator::build(&self.dex, self.widths.as_slice())?;
            self.insn = Some(l);
        }
        Ok(())
    }

    /// The reference sites of `kind` for the pool indices `wanted` (pool of `pool_size`
    /// entries): scan the code region, then keep each hit at an instruction boundary of
    /// the methods whose code covers it.
    fn scan_and_resolve(&mut self, kind: RefKind, wanted: &[u32], pool_size: u32) -> (r: Result<Vec<RefSite>>)
        requires
            old(self).wf(),
        ensures
            final(self).wf(),
            final(self).view_raw() == old(self).view_raw(),
            final(self).opcode_widths() == old(self).opcode_widths(),
            wanted@.len() == 0 ==> (r matches Ok(v) && v@.len() == 0),
            wanted@.len() > 0 ==> match walk_from(old(self).view_raw(), old(self).view_raw().class_defs.size as nat) {
                None => (r matches Err(e) && e is Truncated),
                Some(pairs) => (r matches Ok(v) && v@ == spec_refs(
                    old(self).view_raw(),
                    old(self).opcode_widths(),
                    pairs,
                    kind,
                    wanted@,
                    pool_size,
                )),
            },
    {
        if wanted.len() == 0 {
            return Ok(Vec::new());
        }
        self.ensure_insn()?;
        let mut insn = match self.insn.take() {
            Some(l) => l,
            None => {
                proof {
                    assert(false);
                }
                return Ok(Vec::new());
            },
        };
        let ghost before = insn;
        insn.reset_cursors();
        proof {
            lemma_same_index_views(insn, before);
        }
        let (start, end) = region_bounds(&self.dex, &insn);
        let data = self.dex.data;
        let region = vstd::slice::slice_subrange(data, start as usize, end as usize);
        let hits = collect_hits(kind, region, start as u32, wanted, pool_size);
        let ghost mid = insn;
        let owners = insn.locate(data, hits.as_slice());
        proof {
            lemma_same_index_views(insn, mid);
        }
        let sites = build_sites(&insn, data, hits.as_slice(), &owners);
        self.insn = Some(insn);
        Ok(sites)
    }

}


/// The scan region for the views `dex` and the index `insn` (see [`scan_region`]).
fn region_bounds(dex: &RawDex, insn: &InsnLocator) -> (r: (u64, u64))
    requires
        insn.wf(),
    ensures
        (r.0 as int, r.1 as int) == scan_region(*dex, insn.method_ranges()),
        r.0 <= r.1 <= dex.data@.len(),
        r.1 <= 0xffff_ffff,
{
    let len = dex.data.len();
    let len32: u32 = (len as u64 % 0x1_0000_0000) as u32;
    let (s0, e0) = match code_item_region(dex) {
        Some(p) => p,
        None => {
            let (cs, ce) = insn.code_item_bounds();
            (cs, if ce < len32 {
                ce
            } else {
                len32
            })
        },
    };
    let cap: u64 = if (len as u64) < 0xffff_ffff {
        len as u64
    } else {
        0xffff_ffff
    };
    let start: u64 = if (s0 as u64) < cap {
        s0 as u64
    } else {
        cap
    };
    let end0: u64 = if (e0 as u64) < cap {
        e0 as u64
    } else {
        cap
    };
    let end: u64 = if end0 < start {
        start
    } else {
        end0
    };
    (start, end)
}

/// The hits of `kind` in ascending offset order (see [`ordered_hits`]).
fn collect_hits(kind: RefKind, region: &[u8], base: u32, wanted: &[u32], pool_size: u32) -> (r: Vec<CodeScanHit>)
    requires
        base + region@.len() <= 0x1_0000_0000,
    ensures
        r@ == ordered_hits(kind, region@, base, wanted@, pool_size),
{
    match kind {
        RefKind::String => {
            let mut a: Vec<CodeScanHit> = Vec::new();
            scan_single_u16(region, base, 0x1a, wanted, pool_size, &mut a);
            let mut b: Vec<CodeScanHit> = Vec::new();
            scan_u32(region, base, 0x1b, wanted, pool_size, &mut b);
            proof {
                assert(a@ =~= spec_hits_u16(region@, base, single_mask(0x1a), wanted@, pool_size, 0));
                assert(b@ =~= spec_hits_u32(region@, base, 0x1b, wanted@, pool_size, 0));
            }
            merge_sorted_hits(a, b)
        },
        _ => {
            let mut h: Vec<CodeScanHit> = Vec::new();
            scan_kind(kind, region, base, wanted, pool_size, &mut h);
            proof {
                assert(h@ =~= spec_scan_kind(kind, region@, base, wanted@, pool_size));
            }
            h
        },
    }
}

/// One site per owning method of each hit, with the offset inside that method's
/// instructions.
fn build_sites(insn: &InsnLocator, data: &[u8], hits: &[CodeScanHit], owners: &Vec<Option<Owner>>) -> (r: Vec<RefSite>)
    requires
        insn.wf(),
        owners@.len() == hits@.len(),
        forall|k: int| 0 <= k < hits@.len() ==> owner_list(#[trigger] owners@[k]) == insn.spec_resolve(
            data@,
            hits@[k].file_off,
        ),
    ensures
        r@ == sites_of(insn.method_ranges(), insn.opcode_widths(), data@, hits@),
{
    let ghost rs = insn.method_ranges();
    let ghost widths = insn.opcode_widths();
    let mut sites: Vec<RefSite> = Vec::new();
    let mut i: usize = 0;
    while i < hits.len()
        invariant
            insn.wf(),
            rs == insn.method_ranges(),
            widths == insn.opcode_widths(),
            owners@.len() == hits@.len(),
            forall|k: int| 0 <= k < hits@.len() ==> owner_list(#[trigger] owners@[k]) == insn.spec_resolve(
                data@,
                hits@[k].file_off,
            ),
            i <= hits@.len(),
            sites@ == sites_of(rs, widths, data@, hits@.subrange(0, i as int)),
        decreases hits@.len() - i,
    {
        let h = hits[i];
        let ghost before = sites@;
        proof {
            assert(hits@.subrange(0, i + 1).drop_last() =~= hits@.subrange(0, i as int));
            assert(hits@.subrange(0, i + 1).last() == h);
            lemma_resolve_ranges(*insn, data@, h.file_off);
            assert(owner_list(owners@[i as int]) == resolve_in(rs, widths, data@, h.file_off));
        }
        match &owners[i] {
            Some(o) => {
                let ms = o.methods();
                let ghost list = o.list();
                let mut k: usize = 0;
                while k < ms.len()
                    invariant
                        ms@ == list,
                        insn.wf(),
                        rs == insn.method_ranges(),
                        k <= ms@.len(),
                        sites@ == before + hit_sites(h, Some(list), start_map(rs)).subrange(0, k as int),
                    decreases ms@.len() - k,
                {
                    let m = ms[k];
                    let insn_off = match insn.method_insns_base(m) {
                        Some(b) => if h.file_off >= b {
                            h.file_off - b
                        } else {
                            0
                        },
                        None => 0,
                    };
                    sites.push(RefSite { file_off: h.file_off, pool_idx: h.pool_idx, method_idx: m, insn_off });
                    k = k + 1;
                    proof {
                        assert(sites@ =~= before + hit_sites(h, Some(list), start_map(rs)).subrange(0, k as int));
                    }
                }
                proof {
                    assert(hit_sites(h, Some(list), start_map(rs)).subrange(0, ms@.len() as int) =~= hit_sites(h, Some(list), start_map(rs)));
                }
            },
            None => {
                proof {
                    assert(before + hit_sites(h, None, start_map(rs)) =~= before);
                }
            },
        }
        i = i + 1;
    }
    proof {
        assert(hits@.subrange(0, hits@.len() as int) =~= hits@);
    }
    sites
}


/// Whether the exact descriptor search finds a type that some `class_def` defines.
pub open spec fn defines_in(d: RawDex, descriptor: Seq<char>) -> bool {
    descs_readable(d, d.type_ids.size as nat) && match spec_bsearch(
        d,
        crate::dex::strings::spec_encode_mutf8(descriptor),
        0,
        d.type_ids.size,
    ) {
        None => false,
        Some(t) => exists|i: u32| i < d.class_defs.size && #[trigger] class_idx_at(d, i) == Some(t),
    }
}

/// `class_idx` of `class_defs[i]`, when it can be read.
pub open spec fn class_idx_at(d: RawDex, i: u32) -> Option<u32> {
    spec_read_u32(d.data@, d.class_defs.off + 32 * i)
}

/// True if this DEX **defines** `descriptor` (not merely references it).
pub fn dex_defines_class(data: &[u8], descriptor: &str) -> (r: bool)
    ensures
        !(data@.len() >= HEADER_SIZE && has_dex_magic(data@)) ==> !r,
        data@.len() >= HEADER_SIZE && has_dex_magic(data@) ==> exists|d: RawDex|
            #[trigger] d.from_header_of(data@) && r == defines_in(d, descriptor@),
{
    let raw = match RawDex::parse(data) {
        Ok(raw) => raw,
        Err(_) => return false,
    };
    let types = match TypeLocator::build(&raw) {
        Ok(t) => t,
        Err(_) => {
            proof {
                assert(raw.from_header_of(data@) && false == defines_in(raw, descriptor@));
            }
            return false;
        },
    };
    let tidx = match types.locate_exact(descriptor) {
        Some(t) => t,
        None => {
            proof {
                assert(raw.from_header_of(data@) && false == defines_in(raw, descriptor@));
            }
            return false;
        },
    };
    let len = data.len();
    let n = raw.class_defs.size;
    let mut i: u32 = 0;
    while i < n
        invariant
            n == raw.class_defs.size,
            len == data@.len(),
            raw.data@ == data@,
            raw.from_header_of(data@),
            data@.len() >= HEADER_SIZE && has_dex_magic(data@),
            descs_readable(raw, raw.type_ids.size as nat),
            spec_bsearch(raw, crate::dex::strings::spec_encode_mutf8(descriptor@), 0, raw.type_ids.size) == Some(tidx),
            i <= n,
            forall|k: u32| k < i ==> #[trigger] class_idx_at(raw, k) != Some(tidx),
        decreases n - i,
    {
        let off: u64 = raw.class_defs.off as u64 + i as u64 * 0x20;
        if off <= len as u64 && len as u64 - off >= 4 {
            match raw.u32_at(off as usize) {
                Ok(class_idx) => {
                    if class_idx == tidx {
                        proof {
                            assert(class_idx_at(raw, i) == Some(tidx));
                            assert(raw.from_header_of(data@) && true == defines_in(raw, descriptor@));
                        }
                        return true;
                    }
                },
                Err(_) => {},
            }
        }
        i = i + 1;
    }
    proof {
        assert(raw.from_header_of(data@) && false == defines_in(raw, descriptor@));
    }
    false
}

} // verus!
