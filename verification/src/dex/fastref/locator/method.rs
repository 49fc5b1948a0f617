//! Method / field member locators.

use std::collections::HashMap;

use vstd::prelude::*;

use crate::dex::fastref::locator::string::StringLocator;
use crate::dex::fastref::locator::type_::{spec_bsearch, TypeLocator};
use crate::dex::fastref::sorted::{intersect_sorted, sort_dedup, strictly_increasing};
use crate::dex::raw::{entry_pos, RawDex, TableView};
use crate::dex::strings::spec_encode_mutf8;
use crate::error::{DexError, Result};
use crate::leb128::{spec_read_u16, spec_read_u32};

verus! {

broadcast use vstd::std_specs::hash::group_hash_axioms;

/// What to look for: a class (by descriptor, exactly or as a substring) and/or a member
/// name substring.
#[derive(Debug, Clone, Default)]
pub struct MemberQuery {
    pub class: Option<(String, bool)>,
    pub name: Option<String>,
}

/// The contents of each vector of an index map.
pub open spec fn seq_views<K>(m: Map<K, Vec<u32>>) -> Map<K, Seq<u32>> {
    m.map_values(|v: Vec<u32>| v@)
}

/// The class index (`u16`) of entry `i` of a method_ids / field_ids table.
pub open spec fn member_class(d: RawDex, t: TableView, i: u32) -> Option<u16> {
    spec_read_u16(d.data@, entry_pos(t, i, 8))
}

/// The name string index of entry `i` of a method_ids / field_ids table.
pub open spec fn member_name(d: RawDex, t: TableView, i: u32) -> Option<u32> {
    spec_read_u32(d.data@, entry_pos(t, i, 8) + 4)
}

/// Whether the class and name of every entry below `k` can be read.
pub open spec fn members_readable(d: RawDex, t: TableView, k: nat) -> bool {
    forall|i: u32|
        i < k ==> (#[trigger] member_class(d, t, i)) is Some && member_name(d, t, i) is Some
}

/// Whether `m` is in the list that `map` holds for `key`.
pub open spec fn listed<K>(map: Map<K, Seq<u32>>, key: K, m: u32) -> bool {
    map.contains_key(key) && map[key].contains(m)
}

/// Whether `by_class` and `by_name` index the first `k` entries of table `t`.
pub open spec fn indexes(
    d: RawDex,
    t: TableView,
    by_class: Map<u16, Seq<u32>>,
    by_name: Map<u32, Seq<u32>>,
    k: nat,
) -> bool {
    &&& forall|c: u16, m: u32|
        #[trigger] listed(by_class, c, m) <==> (m < k && member_class(d, t, m) == Some(c))
    &&& forall|s: u32, m: u32|
        #[trigger] listed(by_name, s, m) <==> (m < k && member_name(d, t, m) == Some(s))
}

/// The entries of table `t` whose name is one of the strings `sl` finds for `name`.
pub open spec fn name_hits(d: RawDex, t: TableView, sl: StringLocator, name: Seq<char>) -> Set<u32> {
    Set::new(
        |m: u32|
            m < t.size && exists|s: u32| sl.matches(name).contains(s) && member_name(d, t, m) == Some(s),
    )
}

/// The types a class query selects: the binary-search hit for an exact descriptor, or
/// every type whose descriptor contains the text.
pub open spec fn class_types(tl: TypeLocator, sl: StringLocator, c: Seq<char>, exact: bool) -> Set<u32> {
    let d = tl.raw();
    if exact {
        match spec_bsearch(d, spec_encode_mutf8(c), 0, d.type_ids.size) {
            Some(ty) => set![ty],
            None => Set::empty(),
        }
    } else {
        Set::new(
            |ty: u32|
                ty < d.type_ids.size && exists|s: u32|
                    sl.matches(c).contains(s) && d.type_desc(ty) == Some(s),
        )
    }
}

/// The entries of table `t` whose class index is that of one of `types` (taken as `u16`).
pub open spec fn class_hits(d: RawDex, t: TableView, types: Set<u32>) -> Set<u32> {
    Set::new(
        |m: u32|
            m < t.size && exists|ty: u32| types.contains(ty) && member_class(d, t, m) == Some(ty as u16),
    )
}

/// The string locator after the name search of `q` (if any).
pub open spec fn after_name(sl: StringLocator, q: MemberQuery) -> StringLocator {
    match q.name {
        Some(n) => sl.with_layout(sl.layout_after(n@)),
        None => sl,
    }
}

/// The string locator after both searches of `q`.
pub open spec fn after_query(sl: StringLocator, q: MemberQuery) -> StringLocator {
    let s1 = after_name(sl, q);
    match q.class {
        Some((c, false)) => s1.with_layout(s1.layout_after(c@)),
        _ => s1,
    }
}

/// The members `q` selects: those meeting each part the query has (none for an empty query).
pub open spec fn query_hits(
    d: RawDex,
    t: TableView,
    sl: StringLocator,
    tl: TypeLocator,
    q: MemberQuery,
) -> Set<u32> {
    let s1 = after_name(sl, q);
    match (q.class, q.name) {
        (None, None) => Set::empty(),
        (Some((c, exact)), None) => class_hits(d, t, class_types(tl, s1, c@, exact)),
        (None, Some(n)) => name_hits(d, t, sl, n@),
        (Some((c, exact)), Some(n)) => class_hits(d, t, class_types(tl, s1, c@, exact)).intersect(
            name_hits(d, t, sl, n@),
        ),
    }
}

proof fn lemma_indexes_at(
    d: RawDex,
    t: TableView,
    bc: Map<u16, Seq<u32>>,
    bn: Map<u32, Seq<u32>>,
    k: nat,
    c: u16,
    s: u32,
    m: u32,
)
    requires
        indexes(d, t, bc, bn, k),
    ensures
        (bc.contains_key(c) && bc[c].contains(m)) <==> (m < k && member_class(d, t, m) == Some(c)),
        (bn.contains_key(s) && bn[s].contains(m)) <==> (m < k && member_name(d, t, m) == Some(s)),
{
    assert(listed(bc, c, m) <==> (m < k && member_class(d, t, m) == Some(c)));
    assert(listed(bn, s, m) <==> (m < k && member_name(d, t, m) == Some(s)));
}

/// Read the class (`u16`) and name (`u32`) of entry `i` of `t`.
fn member_entry(dex: &RawDex, t: TableView, i: u32) -> (r: Result<(u16, u32)>)
    ensures
        match r {
            Ok((c, s)) => member_class(*dex, t, i) == Some(c) && member_name(*dex, t, i) == Some(s),
            Err(e) => e is Truncated && (member_class(*dex, t, i) is None || member_name(*dex, t, i) is None),
        },
{
    let len = dex.data.len();
    let pos: u64 = t.off as u64 + i as u64 * 8;
    if pos > len as u64 {
        return Err(DexError::Truncated(crate::text::with_number("u16@", pos)));
    }
    let off = pos as usize;
    let class_idx = dex.u16_at(off)?;
    if len - off < 8 {
        return Err(DexError::Truncated(crate::text::with_number("u32@", pos + 4)));
    }
    let name_idx = dex.u32_at(off + 4)?;
    Ok((class_idx, name_idx))
}

/// Index the entries of table `t` by class and by name.
fn build_index(dex: &RawDex, t: TableView) -> (r: Result<(HashMap<u16, Vec<u32>>, HashMap<u32, Vec<u32>>)>)
    ensures
        match r {
            Ok((bc, bn)) => members_readable(*dex, t, t.size as nat) && indexes(
                *dex,
                t,
                seq_views(bc@),
                seq_views(bn@),
                t.size as nat,
            ),
            Err(e) => e is Truncated && !members_readable(*dex, t, t.size as nat),
        },
{
    let mut by_class: HashMap<u16, Vec<u32>> = HashMap::new();
    let mut by_name: HashMap<u32, Vec<u32>> = HashMap::new();
    let n = t.size;
    let mut i: u32 = 0;
    while i < n
        invariant
            n == t.size,
            i <= n,
            members_readable(*dex, t, i as nat),
            indexes(
                *dex,
                t,
                seq_views(by_class@),
                seq_views(by_name@),
                i as nat,
            ),
        decreases n - i,
    {
        let (class_idx, name_idx) = match member_entry(dex, t, i) {
            Ok(p) => p,
            Err(e) => {
                proof {
                    assert(!members_readable(*dex, t, n as nat)) by {
                        assert(!((member_class(*dex, t, i)) is Some && member_name(*dex, t, i) is Some));
                    }
                }
                return Err(e);
            },
        };
        let ghost bc0 = seq_views(by_class@);
        let ghost bn0 = seq_views(by_name@);
        assert(indexes(*dex, t, bc0, bn0, i as nat));
        let mut vc = match by_class.remove(&class_idx) {
            Some(v) => v,
            None => Vec::new(),
        };
        let ghost vc0 = vc@;
        vc.push(i);
        by_class.insert(class_idx, vc);
        let mut vn = match by_name.remove(&name_idx) {
            Some(v) => v,
            None => Vec::new(),
        };
        let ghost vn0 = vn@;
        vn.push(i);
        by_name.insert(name_idx, vn);
        proof {
            let bc = seq_views(by_class@);
            let bn = seq_views(by_name@);
            assert(bc0.contains_key(class_idx) ==> vc0 == bc0[class_idx]);
            assert(!bc0.contains_key(class_idx) ==> vc0 == Seq::<u32>::empty());
            assert(bn0.contains_key(name_idx) ==> vn0 == bn0[name_idx]);
            assert(!bn0.contains_key(name_idx) ==> vn0 == Seq::<u32>::empty());
            assert forall|c: u16, m: u32| #[trigger] listed(bc, c, m) <==> (m < i + 1 && member_class(*dex, t, m)
                    == Some(c)) by {
                lemma_indexes_at(*dex, t, bc0, bn0, i as nat, c, m, m);
                if c == class_idx {
                    assert(bc[c] == vc0.push(i));
                    if vc0.push(i).contains(m) && m != i {
                        let w = choose|w: int| 0 <= w < vc0.len() + 1 && vc0.push(i)[w] == m;
                        assert(vc0[w] == m);
                        assert(bc0.contains_key(c));
                    }
                    if m < i && member_class(*dex, t, m) == Some(c) {
                        let w = choose|w: int| 0 <= w < vc0.len() && vc0[w] == m;
                        assert(vc0.push(i)[w] == m);
                    }
                    if m == i {
                        assert(vc0.push(i)[vc0.len() as int] == m);
                    }
                } else {
                    assert(bc.contains_key(c) == bc0.contains_key(c));
                    if bc0.contains_key(c) {
                        assert(bc[c] == bc0[c]);
                    }
                }
            }
            assert forall|s: u32, m: u32| #[trigger] listed(bn, s, m) <==> (m < i + 1 && member_name(*dex, t, m)
                    == Some(s)) by {
                lemma_indexes_at(*dex, t, bc0, bn0, i as nat, 0, s, m);
                if s == name_idx {
                    assert(bn[s] == vn0.push(i));
                    if vn0.push(i).contains(m) && m != i {
                        let w = choose|w: int| 0 <= w < vn0.len() + 1 && vn0.push(i)[w] == m;
                        assert(vn0[w] == m);
                        assert(bn0.contains_key(s));
                    }
                    if m < i && member_name(*dex, t, m) == Some(s) {
                        let w = choose|w: int| 0 <= w < vn0.len() && vn0[w] == m;
                        assert(vn0.push(i)[w] == m);
                    }
                    if m == i {
                        assert(vn0.push(i)[vn0.len() as int] == m);
                    }
                } else {
                    assert(bn.contains_key(s) == bn0.contains_key(s));
                    if bn0.contains_key(s) {
                        assert(bn[s] == bn0[s]);
                    }
                }
            }
        }
        i = i + 1;
    }
    Ok((by_class, by_name))
}

/// Concatenate `map[k]` for every `k` of `keys` (missing keys give nothing).
fn gather_u32(map: &HashMap<u32, Vec<u32>>, keys: &[u32]) -> (r: Vec<u32>)
    ensures
        forall|m: u32| #[trigger]
            r@.contains(m) <==> exists|k: u32|
                keys@.contains(k) && map@.contains_key(k) && map@[k]@.contains(m),
{
    let mut out: Vec<u32> = Vec::new();
    let mut i: usize = 0;
    while i < keys.len()
        invariant
            i <= keys@.len(),
            forall|m: u32| #[trigger]
                out@.contains(m) <==> exists|k: u32|
                    keys@.subrange(0, i as int).contains(k) && map@.contains_key(k) && map@[k]@.contains(m),
        decreases keys@.len() - i,
    {
        let k = keys[i];
        let ghost before = out@;
        let ghost pre = keys@.subrange(0, i as int);
        proof {
            assert(keys@.subrange(0, i + 1) =~= pre.push(k));
        }
        match map.get(&k) {
            Some(v) => {
                let mut j: usize = 0;
                while j < v.len()
                    invariant
                        j <= v@.len(),
                        out@ == before + v@.subrange(0, j as int),
                    decreases v@.len() - j,
                {
                    out.push(v[j]);
                    j = j + 1;
                    proof {
                        assert(out@ =~= before + v@.subrange(0, j as int));
                    }
                }
                proof {
                    assert(v@.subrange(0, v@.len() as int) =~= v@);
                    assert forall|m: u32| #[trigger] out@.contains(m) <==> exists|kk: u32|
                        pre.push(k).contains(kk) && map@.contains_key(kk) && map@[kk]@.contains(m) by {
                        if out@.contains(m) {
                            let w = choose|w: int| 0 <= w < out@.len() && out@[w] == m;
                            if w < before.len() {
                                assert(before[w] == m);
                                assert(before.contains(m));
                                let kk = choose|kk: u32| pre.contains(kk) && map@.contains_key(kk) && map@[kk]@.contains(m);
                                let u = choose|u: int| 0 <= u < pre.len() && pre[u] == kk;
                                assert(pre.push(k)[u] == kk);
                            } else {
                                assert(v@[w - before.len()] == m);
                                assert(pre.push(k)[pre.len() as int] == k);
                            }
                        }
                        if exists|kk: u32| pre.push(k).contains(kk) && map@.contains_key(kk) && map@[kk]@.contains(m) {
                            let kk = choose|kk: u32| pre.push(k).contains(kk) && map@.contains_key(kk) && map@[kk]@.contains(m);
                            let u = choose|u: int| 0 <= u < pre.len() + 1 && pre.push(k)[u] == kk;
                            if u < pre.len() {
                                assert(pre[u] == kk);
                                assert(pre.contains(kk));
                                assert(before.contains(m));
                                let w = choose|w: int| 0 <= w < before.len() && before[w] == m;
                                assert(out@[w] == m);
                            } else {
                                assert(kk == k);
                                let w = choose|w: int| 0 <= w < v@.len() && v@[w] == m;
                                assert(out@[before.len() + w] == m);
                            }
                        }
                    }
                }
            },
            None => {
                proof {
                    assert forall|m: u32| #[trigger] out@.contains(m) <==> exists|kk: u32|
                        pre.push(k).contains(kk) && map@.contains_key(kk) && map@[kk]@.contains(m) by {
                        if out@.contains(m) {
                            let kk = choose|kk: u32| pre.contains(kk) && map@.contains_key(kk) && map@[kk]@.contains(m);
                            let u = choose|u: int| 0 <= u < pre.len() && pre[u] == kk;
                            assert(pre.push(k)[u] == kk);
                        }
                        if exists|kk: u32| pre.push(k).contains(kk) && map@.contains_key(kk) && map@[kk]@.contains(m) {
                            let kk = choose|kk: u32| pre.push(k).contains(kk) && map@.contains_key(kk) && map@[kk]@.contains(m);
                            let u = choose|u: int| 0 <= u < pre.len() + 1 && pre.push(k)[u] == kk;
                            if u < pre.len() {
                                assert(pre[u] == kk);
                            }
                        }
                    }
                }
            },
        }
        i = i + 1;
    }
    proof {
        assert(keys@.subrange(0, keys@.len() as int) =~= keys@);
    }
    out
}

/// Concatenate `map[k]` for every class index `k` of `keys`.
fn gather_u16(map: &HashMap<u16, Vec<u32>>, keys: &[u16]) -> (r: Vec<u32>)
    ensures
        forall|m: u32| #[trigger]
            r@.contains(m) <==> exists|k: u16|
                keys@.contains(k) && map@.contains_key(k) && map@[k]@.contains(m),
{
    let mut out: Vec<u32> = Vec::new();
    let mut i: usize = 0;
    while i < keys.len()
        invariant
            i <= keys@.len(),
            forall|m: u32| #[trigger]
                out@.contains(m) <==> exists|k: u16|
                    keys@.subrange(0, i as int).contains(k) && map@.contains_key(k) && map@[k]@.contains(m),
        decreases keys@.len() - i,
    {
        let k = keys[i];
        let ghost before = out@;
        let ghost pre = keys@.subrange(0, i as int);
        proof {
            assert(keys@.subrange(0, i + 1) =~= pre.push(k));
        }
        match map.get(&k) {
            Some(v) => {
                let mut j: usize = 0;
                while j < v.len()
                    invariant
                        j <= v@.len(),
                        out@ == before + v@.subrange(0, j as int),
                    decreases v@.len() - j,
                {
                    out.push(v[j]);
                    j = j + 1;
                    proof {
                        assert(out@ =~= before + v@.subrange(0, j as int));
                    }
                }
                proof {
                    assert(v@.subrange(0, v@.len() as int) =~= v@);
                    assert forall|m: u32| #[trigger] out@.contains(m) <==> exists|kk: u16|
                        pre.push(k).contains(kk) && map@.contains_key(kk) && map@[kk]@.contains(m) by {
                        if out@.contains(m) {
                            let w = choose|w: int| 0 <= w < out@.len() && out@[w] == m;
                            if w < before.len() {
                                assert(before[w] == m);
                                assert(before.contains(m));
                                let kk = choose|kk: u16| pre.contains(kk) && map@.contains_key(kk) && map@[kk]@.contains(m);
                                let u = choose|u: int| 0 <= u < pre.len() && pre[u] == kk;
                                assert(pre.push(k)[u] == kk);
                            } else {
                                assert(v@[w - before.len()] == m);
                                assert(pre.push(k)[pre.len() as int] == k);
                            }
                        }
                        if exists|kk: u16| pre.push(k).contains(kk) && map@.contains_key(kk) && map@[kk]@.contains(m) {
                            let kk = choose|kk: u16| pre.push(k).contains(kk) && map@.contains_key(kk) && map@[kk]@.contains(m);
                            let u = choose|u: int| 0 <= u < pre.len() + 1 && pre.push(k)[u] == kk;
                            if u < pre.len() {
                                assert(pre[u] == kk);
                                assert(pre.contains(kk));
                                assert(before.contains(m));
                                let w = choose|w: int| 0 <= w < before.len() && before[w] == m;
                                assert(out@[w] == m);
                            } else {
                                assert(kk == k);
                                let w = choose|w: int| 0 <= w < v@.len() && v@[w] == m;
                                assert(out@[before.len() + w] == m);
                            }
                        }
                    }
                }
            },
            None => {
                proof {
                    assert forall|m: u32| #[trigger] out@.contains(m) <==> exists|kk: u16|
                        pre.push(k).contains(kk) && map@.contains_key(kk) && map@[kk]@.contains(m) by {
                        if out@.contains(m) {
                            let kk = choose|kk: u16| pre.contains(kk) && map@.contains_key(kk) && map@[kk]@.contains(m);
                            let u = choose|u: int| 0 <= u < pre.len() && pre[u] == kk;
                            assert(pre.push(k)[u] == kk);
                        }
                        if exists|kk: u16| pre.push(k).contains(kk) && map@.contains_key(kk) && map@[kk]@.contains(m) {
                            let kk = choose|kk: u16| pre.push(k).contains(kk) && map@.contains_key(kk) && map@[kk]@.contains(m);
                            let u = choose|u: int| 0 <= u < pre.len() + 1 && pre.push(k)[u] == kk;
                            if u < pre.len() {
                                assert(pre[u] == kk);
                            }
                        }
                    }
                }
            },
        }
        i = i + 1;
    }
    proof {
        assert(keys@.subrange(0, keys@.len() as int) =~= keys@);
    }
    out
}

/// Each index taken as a class index (`as u16`).
fn to_class_keys(keys: &[u32]) -> (r: Vec<u16>)
    ensures
        r@.len() == keys@.len(),
        forall|j: int| 0 <= j < keys@.len() ==> r@[j] == keys@[j] as u16,
{
    let mut r: Vec<u16> = Vec::new();
    let mut i: usize = 0;
    while i < keys.len()
        invariant
            i <= keys@.len(),
            r@.len() == i,
            forall|j: int| 0 <= j < i ==> r@[j] == keys@[j] as u16,
        decreases keys@.len() - i,
    {
        r.push(keys[i] as u16);
        i = i + 1;
    }
    r
}

/// Which constant-pool indices of table `t` the query `q` selects, ascending.
fn locate_members<'a>(
    _dex: &RawDex<'a>,
    by_class: &HashMap<u16, Vec<u32>>,
    by_name: &HashMap<u32, Vec<u32>>,
    strings: &mut StringLocator<'a>,
    types: &TypeLocator<'a>,
    q: &MemberQuery,
    Ghost(t): Ghost<TableView>,
) -> (r: Vec<u32>)
    requires
        indexes(*_dex, t, seq_views(by_class@), seq_views(by_name@), t.size as nat),
        old(strings).wf(),
        old(strings).raw() == *_dex,
        types.wf(),
        types.raw() == *_dex,
    ensures
        strictly_increasing(r@),
        r@.to_set() == query_hits(*_dex, t, *old(strings), *types, *q),
        *final(strings) == after_query(*old(strings), *q),
{
    let ghost d = *_dex;
    let ghost s0 = *strings;
    let ghost bc = seq_views(by_class@);
    let ghost bn = seq_views(by_name@);
    let name_set: Option<Vec<u32>> = match &q.name {
        Some(n) => {
            let sidxs = strings.locate(n.as_str());
            proof {
                s0.lemma_with_layout(s0.layout_after(n@));
            }
            let g = gather_u32(by_name, sidxs.as_slice());
            let v = sort_dedup(g);
            proof {
                assert forall|m: u32| #[trigger] v@.to_set().contains(m) == name_hits(d, t, s0, n@).contains(m) by {
                    assert(v@.to_set().contains(m) == g@.contains(m));
                    if g@.contains(m) {
                        let k = choose|k: u32| sidxs@.contains(k) && by_name@.contains_key(k) && by_name@[k]@.contains(m);
                        assert(listed(bn, k, m));
                        assert(sidxs@.to_set().contains(k));
                    }
                    if name_hits(d, t, s0, n@).contains(m) {
                        let k = choose|k: u32| s0.matches(n@).contains(k) && member_name(d, t, m) == Some(k);
                        assert(listed(bn, k, m));
                        assert(sidxs@.to_set().contains(k));
                        assert(sidxs@.contains(k));
                    }
                }
                assert(v@.to_set() =~= name_hits(d, t, s0, n@));
            }
            Some(v)
        },
        None => None,
    };
    let ghost s1 = *strings;
    proof {
        assert(s1 == after_name(s0, *q));
        s0.lemma_with_layout(s1.layout_ok());
    }
    let class_set: Option<Vec<u32>> = match &q.class {
        Some((c, exact)) => {
            let type_idxs: Vec<u32> = if *exact {
                match types.locate_exact(c.as_str()) {
                    Some(ty) => {
                        let mut v: Vec<u32> = Vec::new();
                        v.push(ty);
                        v
                    },
                    None => Vec::new(),
                }
            } else {
                types.locate(strings, c.as_str())
            };
            proof {
                assert forall|ty: u32| #[trigger] type_idxs@.contains(ty) == class_types(*types, s1, c@, *exact).contains(ty) by {
                    if *exact {
                        if type_idxs@.len() == 1 {
                            if type_idxs@.contains(ty) {
                                let w = choose|w: int| 0 <= w < type_idxs@.len() && type_idxs@[w] == ty;
                            }
                            if class_types(*types, s1, c@, *exact).contains(ty) {
                                assert(type_idxs@[0] == ty);
                            }
                        }
                    } else {
                        assert(type_idxs@.to_set().contains(ty) == type_idxs@.contains(ty));
                    }
                }
            }
            let keys = to_class_keys(type_idxs.as_slice());
            let g = gather_u16(by_class, keys.as_slice());
            let v = sort_dedup(g);
            proof {
                let ct = class_types(*types, s1, c@, *exact);
                assert forall|m: u32| #[trigger] v@.to_set().contains(m) == class_hits(d, t, ct).contains(m) by {
                    assert(v@.to_set().contains(m) == g@.contains(m));
                    if g@.contains(m) {
                        let k = choose|k: u16| keys@.contains(k) && by_class@.contains_key(k) && by_class@[k]@.contains(m);
                        assert(listed(bc, k, m));
                        let w = choose|w: int| 0 <= w < keys@.len() && keys@[w] == k;
                        let ty = type_idxs@[w];
                        assert(type_idxs@.contains(ty));
                        assert(ct.contains(ty));
                        assert(member_class(d, t, m) == Some(ty as u16));
                    }
                    if class_hits(d, t, ct).contains(m) {
                        let ty = choose|ty: u32| ct.contains(ty) && member_class(d, t, m) == Some(ty as u16);
                        assert(type_idxs@.contains(ty));
                        let w = choose|w: int| 0 <= w < type_idxs@.len() && type_idxs@[w] == ty;
                        assert(keys@[w] == ty as u16);
                        assert(keys@.contains(ty as u16));
                        assert(listed(bc, ty as u16, m));
                    }
                }
                assert(v@.to_set() =~= class_hits(d, t, ct));
            }
            Some(v)
        },
        None => None,
    };
    proof {
        assert(*strings == after_query(s0, *q));
    }
    match (class_set, name_set) {
        (None, None) => {
            proof {
                assert(Seq::<u32>::empty().to_set() =~= Set::<u32>::empty());
            }
            Vec::new()
        },
        (Some(c), None) => c,
        (None, Some(n)) => n,
        (Some(c), Some(n)) => {
            let ghost cs = c@;
            let r = intersect_sorted(c, n.as_slice());
            proof {
                assert forall|m: u32| #[trigger] r@.to_set().contains(m) == (cs.to_set().contains(m) && n@.to_set().contains(m)) by {
                    cs.filter_lemma(|x: u32| n@.contains(x));
                    if r@.contains(m) {
                        let w = choose|w: int| 0 <= w < r@.len() && r@[w] == m;
                        assert(cs.contains(r@[w]));
                    }
                    if cs.contains(m) && n@.contains(m) {
                        let w = choose|w: int| 0 <= w < cs.len() && cs[w] == m;
                        assert(cs.filter(|x: u32| n@.contains(x)).contains(m));
                    }
                }
                assert(r@.to_set() =~= cs.to_set().intersect(n@.to_set()));
            }
            r
        },
    }
}

/// Method index locator: method_ids grouped by class and by name.
pub struct MethodLocator<'a> {
    dex: &'a RawDex<'a>,
    by_class: HashMap<u16, Vec<u32>>,
    by_name: HashMap<u32, Vec<u32>>,
}

impl<'a> MethodLocator<'a> {
    /// The views the locator searches.
    pub closed spec fn raw(self) -> RawDex<'a> {
        *self.dex
    }

    /// Class index → the method indices of that class.
    pub closed spec fn class_index(self) -> Map<u16, Seq<u32>> {
        seq_views(self.by_class@)
    }

    /// Name string index → the method indices with that name.
    pub closed spec fn name_index(self) -> Map<u32, Seq<u32>> {
        seq_views(self.by_name@)
    }

    /// What `build` establishes.
    pub open spec fn wf(self) -> bool {
        let d = self.raw();
        &&& members_readable(d, d.method_ids, d.method_ids.size as nat)
        &&& indexes(d, d.method_ids, self.class_index(), self.name_index(), d.method_ids.size as nat)
    }

    /// Group method_ids by class and by name; `Truncated` when an entry cannot be read.
    pub fn build(dex: &'a RawDex<'a>) -> (r: Result<Self>)
        ensures
            match r {
                Ok(ml) => ml.raw() == *dex && ml.wf(),
                Err(e) => e is Truncated && !members_readable(*dex, dex.method_ids, dex.method_ids.size as nat),
            },
    {
        let (by_class, by_name) = build_index(dex, dex.method_ids)?;
        Ok(MethodLocator { dex, by_class, by_name })
    }

    /// The methods `q` selects, ascending (see [`query_hits`]).
    pub fn locate(&self, strings: &mut StringLocator<'a>, types: &TypeLocator<'a>, q: &MemberQuery) -> (r: Vec<u32>)
        requires
            self.wf(),
            old(strings).wf(),
            old(strings).raw() == self.raw(),
            types.wf(),
            types.raw() == self.raw(),
        ensures
            strictly_increasing(r@),
            r@.to_set() == query_hits(self.raw(), self.raw().method_ids, *old(strings), *types, *q),
            *final(strings) == after_query(*old(strings), *q),
    {
        locate_members(self.dex, &self.by_class, &self.by_name, strings, types, q, Ghost(self.dex.method_ids))
    }
}

/// Field index locator: field_ids grouped by class and by name.
pub struct FieldLocator<'a> {
    dex: &'a RawDex<'a>,
    by_class: HashMap<u16, Vec<u32>>,
    by_name: HashMap<u32, Vec<u32>>,
}

impl<'a> FieldLocator<'a> {
    /// The views the locator searches.
    pub closed spec fn raw(self) -> RawDex<'a> {
        *self.dex
    }

    /// Class index → the field indices of that class.
    pub closed spec fn class_index(self) -> Map<u16, Seq<u32>> {
        seq_views(self.by_class@)
    }

    /// Name string index → the field indices with that name.
    pub closed spec fn name_index(self) -> Map<u32, Seq<u32>> {
        seq_views(self.by_name@)
    }

    /// What `build` establishes.
    pub open spec fn wf(self) -> bool {
        let d = self.raw();
        &&& members_readable(d, d.field_ids, d.field_ids.size as nat)
        &&& indexes(d, d.field_ids, self.class_index(), self.name_index(), d.field_ids.size as nat)
    }

    /// Group field_ids by class and by name; `Truncated` when an entry cannot be read.
    pub fn build(dex: &'a RawDex<'a>) -> (r: Result<Self>)
        ensures
            match r {
                Ok(fl) => fl.raw() == *dex && fl.wf(),
                Err(e) => e is Truncated && !members_readable(*dex, dex.field_ids, dex.field_ids.size as nat),
            },
    {
        let (by_class, by_name) = build_index(dex, dex.field_ids)?;
        Ok(FieldLocator { dex, by_class, by_name })
    }

    /// The fields `q` selects, ascending (see [`query_hits`]).
    pub fn locate(&self, strings: &mut StringLocator<'a>, types: &TypeLocator<'a>, q: &MemberQuery) -> (r: Vec<u32>)
        requires
            self.wf(),
            old(strings).wf(),
            old(strings).raw() == self.raw(),
            types.wf(),
            types.raw() == self.raw(),
        ensures
            strictly_increasing(r@),
            r@.to_set() == query_hits(self.raw(), self.raw().field_ids, *old(strings), *types, *q),
            *final(strings) == after_query(*old(strings), *q),
    {
        locate_members(self.dex, &self.by_class, &self.by_name, strings, types, q, Ghost(self.dex.field_ids))
    }
}

} // verus!
