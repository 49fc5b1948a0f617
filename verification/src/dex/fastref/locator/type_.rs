//! Type index locators (fuzzy substring + exact binary search).

use std::collections::HashMap;

use vstd::prelude::*;

use crate::dex::fastref::locator::string::StringLocator;
use crate::dex::fastref::sorted::{sort_dedup, strictly_increasing};
use crate::dex::raw::RawDex;
use crate::dex::strings::{encode_mutf8, spec_encode_mutf8};
use crate::error::Result;

verus! {

broadcast use vstd::std_specs::hash::group_hash_axioms;

/// Whether every type_ids entry below `k` can be read.
pub open spec fn descs_readable(d: RawDex, k: nat) -> bool {
    forall|i: int| 0 <= i < k ==> (#[trigger] d.type_desc(i as u32)) is Some
}

/// The type indices below `k` whose descriptor is string `s`, ascending.
pub open spec fn types_with(d: RawDex, s: u32, k: nat) -> Seq<u32>
    decreases k,
{
    if k == 0 {
        Seq::empty()
    } else {
        let rest = types_with(d, s, (k - 1) as nat);
        if d.type_desc((k - 1) as u32) == Some(s) {
            rest.push((k - 1) as u32)
        } else {
            rest
        }
    }
}

/// Lexicographic byte order (a proper prefix comes first).
pub open spec fn lex_lt(a: Seq<u8>, b: Seq<u8>) -> bool
    decreases a.len(),
{
    if a.len() == 0 {
        b.len() > 0
    } else if b.len() == 0 {
        false
    } else if a[0] != b[0] {
        a[0] < b[0]
    } else {
        lex_lt(a.drop_first(), b.drop_first())
    }
}

/// Whether the descriptors of all types can be read and stand in strictly ascending
/// byte order (as the format requires of `type_ids`).
pub open spec fn types_sorted(d: RawDex) -> bool {
    &&& forall|i: u32| i < d.type_ids.size ==> (#[trigger] d.type_bytes(i)) is Some
    &&& forall|i: u32, j: u32|
        #![trigger d.type_bytes(i), d.type_bytes(j)]
        i < j < d.type_ids.size ==> lex_lt(d.type_bytes(i)->0, d.type_bytes(j)->0)
}

/// The binary search of `locate_exact` over `[lo, hi)`: the probe it stops at, or nothing
/// when the range runs empty or a probed descriptor cannot be read.
pub open spec fn spec_bsearch(d: RawDex, want: Seq<u8>, lo: u32, hi: u32) -> Option<u32>
    decreases hi - lo,
{
    if lo >= hi {
        None
    } else {
        let mid = (lo + (hi - lo) / 2) as u32;
        match d.type_bytes(mid) {
            None => None,
            Some(b) => if lex_lt(b, want) {
                spec_bsearch(d, want, (mid + 1) as u32, hi)
            } else if lex_lt(want, b) {
                spec_bsearch(d, want, lo, mid)
            } else {
                Some(mid)
            },
        }
    }
}

pub struct TypeLocator<'a> {
    dex: &'a RawDex<'a>,
    /// string_idx → type indices that use that descriptor.
    str_to_types: HashMap<u32, Vec<u32>>,
}

proof fn lemma_types_with(d: RawDex, s: u32, k: nat)
    requires
        k <= 0x1_0000_0000,
    ensures
        strictly_increasing(types_with(d, s, k)),
        forall|t: u32| #[trigger]
            types_with(d, s, k).contains(t) <==> (t < k && d.type_desc(t) == Some(s)),
    decreases k,
{
    if k > 0 {
        lemma_types_with(d, s, (k - 1) as nat);
        let rest = types_with(d, s, (k - 1) as nat);
        let cur = types_with(d, s, k);
        if d.type_desc((k - 1) as u32) == Some(s) {
            assert(cur == rest.push((k - 1) as u32));
            assert forall|i: int, j: int| 0 <= i < j < cur.len() implies cur[i] < cur[j] by {
                assert(cur[i] == rest[i]);
                if j < rest.len() {
                    assert(cur[j] == rest[j]);
                } else {
                    assert(rest.contains(rest[i]));
                }
            }
            assert forall|t: u32| #[trigger] cur.contains(t) <==> (t < k && d.type_desc(t) == Some(s)) by {
                if cur.contains(t) {
                    let w = choose|w: int| 0 <= w < cur.len() && cur[w] == t;
                    if w < rest.len() {
                        assert(rest[w] == t);
                        assert(rest.contains(t));
                    }
                }
                if t < k && d.type_desc(t) == Some(s) {
                    if t < k - 1 {
                        assert(rest.contains(t));
                        let w = choose|w: int| 0 <= w < rest.len() && rest[w] == t;
                        assert(cur[w] == t);
                    } else {
                        assert(cur[rest.len() as int] == t);
                    }
                }
            }
        } else {
            assert(cur == rest);
        }
    }
}

impl<'a> TypeLocator<'a> {
    /// The views the locator searches.
    pub closed spec fn raw(self) -> RawDex<'a> {
        *self.dex
    }

    /// Descriptor string index → the type indices that use it.
    pub closed spec fn by_descriptor(self) -> Map<u32, Seq<u32>> {
        self.str_to_types@.map_values(|v: Vec<u32>| v@)
    }

    /// What `build` establishes.
    pub open spec fn wf(self) -> bool {
        let d = self.raw();
        let n = d.type_ids.size as nat;
        &&& descs_readable(d, n)
        &&& forall|s: u32| #[trigger]
            self.by_descriptor().contains_key(s) <==> types_with(d, s, n).len() > 0
        &&& forall|s: u32| #[trigger]
            self.by_descriptor().contains_key(s) ==> self.by_descriptor()[s] == types_with(d, s, n)
    }

    /// Group the type indices of `dex` by descriptor; `Truncated` when a type_ids entry
    /// cannot be read.
    pub fn build(dex: &'a RawDex<'a>) -> (r: Result<Self>)
        ensures
            match r {
                Ok(tl) => tl.raw() == *dex && tl.wf(),
                Err(e) => e is Truncated && !descs_readable(*dex, dex.type_ids.size as nat),
            },
    {
        let n = dex.type_ids.size;
        let mut str_to_types: HashMap<u32, Vec<u32>> = HashMap::new();
        let mut i: u32 = 0;
        while i < n
            invariant
                n == dex.type_ids.size,
                i <= n,
                descs_readable(*dex, i as nat),
                forall|s: u32| #[trigger]
                    str_to_types@.contains_key(s) <==> types_with(*dex, s, i as nat).len() > 0,
                forall|s: u32| #[trigger]
                    str_to_types@.contains_key(s) ==> str_to_types@[s]@ == types_with(
                        *dex,
                        s,
                        i as nat,
                    ),
            decreases n - i,
        {
            let sidx = match dex.type_descriptor_idx(i) {
                Ok(v) => v,
                Err(e) => {
                    proof {
                        assert(dex.type_desc((i as int) as u32) is None);
                        assert(!descs_readable(*dex, n as nat));
                    }
                    return Err(e);
                },
            };
            let mut v = match str_to_types.remove(&sidx) {
                Some(v) => v,
                None => Vec::new(),
            };
            proof {
                assert(v@ == types_with(*dex, sidx, i as nat));
            }
            v.push(i);
            str_to_types.insert(sidx, v);
            proof {
                assert forall|k: int| 0 <= k < i + 1 implies (#[trigger] dex.type_desc(k as u32)) is Some by {
                    if k < i {
                        assert(descs_readable(*dex, i as nat));
                    }
                }
                assert forall|s: u32| #[trigger]
                    str_to_types@.contains_key(s) <==> types_with(*dex, s, (i + 1) as nat).len() > 0 by {
                    if s != sidx {
                        assert(types_with(*dex, s, (i + 1) as nat) == types_with(*dex, s, i as nat));
                    }
                }
                assert forall|s: u32| #[trigger]
                    str_to_types@.contains_key(s) implies str_to_types@[s]@ == types_with(
                        *dex,
                        s,
                        (i + 1) as nat,
                    ) by {
                    if s != sidx {
                        assert(types_with(*dex, s, (i + 1) as nat) == types_with(*dex, s, i as nat));
                    }
                }
            }
            i = i + 1;
        }
        let tl = TypeLocator { dex, str_to_types };
        proof {
            assert forall|s: u32| #[trigger] tl.by_descriptor().contains_key(s) implies tl.by_descriptor()[s]
                == types_with(*dex, s, n as nat) by {
                assert(tl.str_to_types@.contains_key(s));
            }
        }
        Ok(tl)
    }

    /// Fuzzy: every type whose descriptor string contains `query`, ascending and without
    /// repeats (the string search runs through `strings`, whose state it may update).
    pub fn locate(&self, strings: &mut StringLocator<'a>, query: &str) -> (r: Vec<u32>)
        requires
            self.wf(),
            old(strings).wf(),
            old(strings).raw() == self.raw(),
        ensures
            *final(strings) == old(strings).with_layout(old(strings).layout_after(query@)),
            strictly_increasing(r@),
            forall|t: u32| #[trigger]
                r@.to_set().contains(t) <==> (t < self.raw().type_ids.size && exists|s: u32|
                    old(strings).matches(query@).contains(s) && self.raw().type_desc(t) == Some(s)),
    {
        let sidxs = strings.locate(query);
        let ghost n = self.raw().type_ids.size as nat;
        let mut out: Vec<u32> = Vec::new();
        let mut i: usize = 0;
        while i < sidxs.len()
            invariant
                self.wf(),
                n == self.raw().type_ids.size,
                i <= sidxs@.len(),
                forall|t: u32| #[trigger]
                    out@.contains(t) <==> (t < n && exists|s: u32|
                        sidxs@.subrange(0, i as int).contains(s) && self.raw().type_desc(t) == Some(s)),
            decreases sidxs@.len() - i,
        {
            let sidx = sidxs[i];
            let ghost before = out@;
            proof {
                lemma_types_with(self.raw(), sidx, n);
                assert(sidxs@.subrange(0, i + 1) =~= sidxs@.subrange(0, i as int).push(sidx));
            }
            match self.str_to_types.get(&sidx) {
                Some(ts) => {
                    proof {
                        assert(self.by_descriptor().contains_key(sidx));
                        assert(ts@ == types_with(self.raw(), sidx, n));
                    }
                    let mut k: usize = 0;
                    while k < ts.len()
                        invariant
                            k <= ts@.len(),
                            out@ == before + ts@.subrange(0, k as int),
                        decreases ts@.len() - k,
                    {
                        out.push(ts[k]);
                        k = k + 1;
                        proof {
                            assert(out@ =~= before + ts@.subrange(0, k as int));
                        }
                    }
                    proof {
                        assert(ts@.subrange(0, ts@.len() as int) =~= ts@);
                        assert forall|t: u32| #[trigger] out@.contains(t) <==> (t < n && exists|s: u32|
                            sidxs@.subrange(0, i + 1).contains(s) && self.raw().type_desc(t) == Some(s)) by {
                            let pre = sidxs@.subrange(0, i as int);
                            if out@.contains(t) {
                                let w = choose|w: int| 0 <= w < out@.len() && out@[w] == t;
                                if w < before.len() {
                                    assert(before.contains(t));
                                    let s = choose|s: u32| pre.contains(s) && self.raw().type_desc(t) == Some(s);
                                    assert(pre.push(sidx).contains(s)) by {
                                        let u = choose|u: int| 0 <= u < pre.len() && pre[u] == s;
                                        assert(pre.push(sidx)[u] == s);
                                    }
                                } else {
                                    assert(ts@[w - before.len()] == t);
                                    assert(ts@.contains(t));
                                    assert(pre.push(sidx)[pre.len() as int] == sidx);
                                }
                            }
                            if t < n && exists|s: u32| sidxs@.subrange(0, i + 1).contains(s) && self.raw().type_desc(t) == Some(s) {
                                let s = choose|s: u32| sidxs@.subrange(0, i + 1).contains(s) && self.raw().type_desc(t) == Some(s);
                                let u = choose|u: int| 0 <= u < pre.len() + 1 && pre.push(sidx)[u] == s;
                                if u < pre.len() {
                                    assert(pre[u] == s);
                                    assert(pre.contains(s));
                                    assert(before.contains(t));
                                    let w = choose|w: int| 0 <= w < before.len() && before[w] == t;
                                    assert(out@[w] == t);
                                } else {
                                    assert(s == sidx);
                                    assert(ts@.contains(t));
                                    let w = choose|w: int| 0 <= w < ts@.len() && ts@[w] == t;
                                    assert(out@[before.len() + w] == t);
                                }
                            }
                        }
                    }
                },
                None => {
                    proof {
                        assert(!self.by_descriptor().contains_key(sidx));
                        assert(types_with(self.raw(), sidx, n).len() == 0);
                        assert forall|t: u32| #[trigger] out@.contains(t) <==> (t < n && exists|s: u32|
                            sidxs@.subrange(0, i + 1).contains(s) && self.raw().type_desc(t) == Some(s)) by {
                            let pre = sidxs@.subrange(0, i as int);
                            if out@.contains(t) {
                                let s = choose|s: u32| pre.contains(s) && self.raw().type_desc(t) == Some(s);
                                let u = choose|u: int| 0 <= u < pre.len() && pre[u] == s;
                                assert(pre.push(sidx)[u] == s);
                            }
                            if t < n && exists|s: u32| sidxs@.subrange(0, i + 1).contains(s) && self.raw().type_desc(t) == Some(s) {
                                let s = choose|s: u32| sidxs@.subrange(0, i + 1).contains(s) && self.raw().type_desc(t) == Some(s);
                                let u = choose|u: int| 0 <= u < pre.len() + 1 && pre.push(sidx)[u] == s;
                                if u < pre.len() {
                                    assert(pre[u] == s);
                                    assert(pre.contains(s));
                                } else {
                                    assert(s == sidx);
                                    assert(types_with(self.raw(), sidx, n).contains(t));
                                }
                            }
                        }
                    }
                },
            }
            i = i + 1;
        }
        proof {
            assert(sidxs@.subrange(0, sidxs@.len() as int) =~= sidxs@);
        }
        let r = sort_dedup(out);
        proof {
            assert forall|t: u32| #[trigger] r@.to_set().contains(t) <==> (t < n && exists|s: u32|
                old(strings).matches(query@).contains(s) && self.raw().type_desc(t) == Some(s)) by {
                assert(r@.to_set().contains(t) == out@.contains(t));
                if t < n && exists|s: u32| old(strings).matches(query@).contains(s) && self.raw().type_desc(t) == Some(s) {
                    let s = choose|s: u32| old(strings).matches(query@).contains(s) && self.raw().type_desc(t) == Some(s);
                    assert(sidxs@.to_set().contains(s));
                }
                if out@.contains(t) {
                    let s = choose|s: u32| sidxs@.contains(s) && self.raw().type_desc(t) == Some(s);
                    assert(sidxs@.to_set().contains(s));
                }
            }
        }
        r
    }

    /// Exact descriptor match via binary search on type_ids (sorted by descriptor).
    /// A hit always has the descriptor; when the table is sorted, a descriptor that some
    /// type has is always found. A read that fails during the search ends it with `None`.
    pub fn locate_exact(&self, descriptor: &str) -> (r: Option<u32>)
        ensures
            r == spec_bsearch(self.raw(), spec_encode_mutf8(descriptor@), 0, self.raw().type_ids.size),
            r matches Some(m) ==> m < self.raw().type_ids.size && self.raw().type_bytes(m) == Some(
                spec_encode_mutf8(descriptor@),
            ),
            types_sorted(self.raw()) && (exists|m: u32|
                m < self.raw().type_ids.size && self.raw().type_bytes(m) == Some(
                    spec_encode_mutf8(descriptor@),
                )) ==> r is Some,
    {
        let want = encode_mutf8(descriptor);
        let n = self.dex.type_ids.size;
        if n == 0 {
            return None;
        }
        let mut lo: u32 = 0;
        let mut hi: u32 = n;
        while lo < hi
            invariant
                lo <= hi <= n,
                n == self.raw().type_ids.size,
                want@ == spec_encode_mutf8(descriptor@),
                spec_bsearch(self.raw(), want@, 0, n) == spec_bsearch(self.raw(), want@, lo, hi),
                types_sorted(self.raw()) ==> forall|m: u32|
                    m < n && #[trigger] self.raw().type_bytes(m) == Some(want@) ==> lo <= m < hi,
            decreases hi - lo,
        {
            let mid = lo + (hi - lo) / 2;
            let sidx = match self.dex.type_descriptor_idx(mid) {
                Ok(v) => v,
                Err(_) => return None,
            };
            let bytes = match self.dex.string_payload_bytes(sidx) {
                Ok(b) => b,
                Err(_) => return None,
            };
            proof {
                assert(self.raw().type_bytes(mid) == Some(bytes@));
            }
            let c = lex_compare(bytes, want.as_slice());
            proof {
                if c == 0 {
                    lemma_lex_irrefl(want@);
                }
            }
            if c < 0 {
                proof {
                    if types_sorted(self.raw()) {
                        assert forall|m: u32| m < n && #[trigger] self.raw().type_bytes(m) == Some(want@)
                            implies mid + 1 <= m < hi by {
                            if m < mid {
                                assert(lex_lt(self.raw().type_bytes(m)->0, self.raw().type_bytes(mid)->0));
                                lemma_lex_asym(want@, bytes@);
                            }
                            if m == mid {
                                lemma_lex_irrefl(want@);
                            }
                        }
                    }
                }
                lo = mid + 1;
            } else if c > 0 {
                proof {
                    if types_sorted(self.raw()) {
                        assert forall|m: u32| m < n && #[trigger] self.raw().type_bytes(m) == Some(want@)
                            implies lo <= m < mid by {
                            if m > mid {
                                assert(lex_lt(self.raw().type_bytes(mid)->0, self.raw().type_bytes(m)->0));
                                lemma_lex_asym(want@, bytes@);
                            }
                            if m == mid {
                                lemma_lex_irrefl(want@);
                            }
                        }
                    }
                }
                hi = mid;
            } else {
                return Some(mid);
            }
        }
        None
    }
}

proof fn lemma_lex_irrefl(a: Seq<u8>)
    ensures
        !lex_lt(a, a),
    decreases a.len(),
{
    if a.len() > 0 {
        lemma_lex_irrefl(a.drop_first());
    }
}

proof fn lemma_lex_asym(a: Seq<u8>, b: Seq<u8>)
    ensures
        !(lex_lt(a, b) && lex_lt(b, a)),
    decreases a.len(),
{
    if a.len() > 0 && b.len() > 0 && a[0] == b[0] {
        lemma_lex_asym(a.drop_first(), b.drop_first());
    }
}

/// Three-way lexicographic comparison of byte strings: negative, zero or positive.
fn lex_compare(a: &[u8], b: &[u8]) -> (r: i8)
    ensures
        r < 0 <==> lex_lt(a@, b@),
        r == 0 <==> a@ == b@,
        r > 0 <==> lex_lt(b@, a@),
{
    let mut i: usize = 0;
    proof {
        assert(a@.skip(0) =~= a@);
        assert(b@.skip(0) =~= b@);
    }
    while i < a.len() && i < b.len()
        invariant
            i <= a@.len(),
            i <= b@.len(),
            a@.subrange(0, i as int) == b@.subrange(0, i as int),
            lex_lt(a@, b@) == lex_lt(a@.skip(i as int), b@.skip(i as int)),
            lex_lt(b@, a@) == lex_lt(b@.skip(i as int), a@.skip(i as int)),
        decreases a@.len() - i,
    {
        if a[i] != b[i] {
            proof {
                assert(a@.skip(i as int)[0] == a@[i as int]);
                assert(b@.skip(i as int)[0] == b@[i as int]);
            }
            if a[i] < b[i] {
                return -1;
            } else {
                return 1;
            }
        }
        proof {
            assert(a@.skip(i as int).drop_first() =~= a@.skip(i + 1));
            assert(b@.skip(i as int).drop_first() =~= b@.skip(i + 1));
            assert(a@.skip(i as int)[0] == a@[i as int]);
            assert(b@.skip(i as int)[0] == b@[i as int]);
            assert(a@.subrange(0, i + 1) =~= a@.subrange(0, i as int).push(a@[i as int]));
            assert(b@.subrange(0, i + 1) =~= b@.subrange(0, i as int).push(b@[i as int]));
        }
        i = i + 1;
    }
    proof {
        assert(a@.skip(i as int).len() == 0 || b@.skip(i as int).len() == 0);
    }
    if a.len() < b.len() {
        -1
    } else if a.len() > b.len() {
        1
    } else {
        proof {
            assert(a@ =~= a@.subrange(0, i as int));
            assert(b@ =~= b@.subrange(0, i as int));
        }
        0
    }
}

} // verus!
