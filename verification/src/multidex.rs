//! Multi-DEX support: one view across the DEX images of an app.
//!
//! Holds one `DexHelper` per image and lists the items of all images, each
//! tagged with the image it came from.

use vstd::prelude::*;

use crate::dex::file::DexFile;
use crate::dex::header::{has_dex_magic, header_at, is_dex, ClassDef, HEADER_SIZE};
use crate::dex::helper::{class_item_ok, classes_ok, fields_ok, methods_ok, strings_ok, DexHelper, FieldId, MethodId};
use crate::error::{same_result, same_results, DexError, Result};
use crate::text::chars_of;

verus! {

/// Identifies which DEX file an item came from.
#[derive(Clone, Debug)]
pub struct DexSource {
    pub filename: String,
    pub dex_index: usize,
}

/// Wraps any item with its source DEX provenance.
#[derive(Clone, Debug)]
pub struct Sourced<T> {
    pub source: DexSource,
    pub inner: T,
}

/// `.dex`
pub open spec fn dex_ext() -> Seq<char> {
    seq!['.', 'd', 'e', 'x']
}

/// `classes`
pub open spec fn classes_word() -> Seq<char> {
    seq!['c', 'l', 'a', 's', 's', 'e', 's']
}

pub open spec fn ends_with(s: Seq<char>, suf: Seq<char>) -> bool {
    s.len() >= suf.len() && s.subrange(s.len() - suf.len(), s.len() as int) == suf
}

pub open spec fn begins_with(s: Seq<char>, pre: Seq<char>) -> bool {
    s.len() >= pre.len() && s.subrange(0, pre.len() as int) == pre
}

/// `s` with every trailing copy of `suf` removed.
pub open spec fn strip_suffix_all(s: Seq<char>, suf: Seq<char>) -> Seq<char>
    decreases s.len(),
{
    if suf.len() > 0 && ends_with(s, suf) {
        strip_suffix_all(s.subrange(0, s.len() - suf.len()), suf)
    } else {
        s
    }
}

/// `s` with every leading copy of `pre` removed.
pub open spec fn strip_prefix_all(s: Seq<char>, pre: Seq<char>) -> Seq<char>
    decreases s.len(),
{
    if pre.len() > 0 && begins_with(s, pre) {
        strip_prefix_all(s.subrange(pre.len() as int, s.len() as int), pre)
    } else {
        s
    }
}

pub open spec fn is_digit(c: char) -> bool {
    '0' <= c <= '9'
}

pub open spec fn all_digits(s: Seq<char>) -> bool {
    forall|i: int| 0 <= i < s.len() ==> is_digit(#[trigger] s[i])
}

/// The number that the decimal digits `s` spell.
pub open spec fn digits_value(s: Seq<char>) -> nat
    decreases s.len(),
{
    if s.len() == 0 {
        0
    } else {
        digits_value(s.drop_last()) * 10 + (s.last() as nat - 48) as nat
    }
}

/// `u32` parsing of text: an optional `+`, then one or more decimal digits whose
/// value fits in 32 bits.
pub open spec fn parse_u32_text(s: Seq<char>) -> Option<u32> {
    let b = if s.len() > 0 && s[0] == '+' {
        s.drop_first()
    } else {
        s
    };
    if b.len() == 0 || !all_digits(b) || digits_value(b) > u32::MAX {
        None
    } else {
        Some(digits_value(b) as u32)
    }
}

/// The order key of a DEX file name: `classes.dex` → 0, `classesN.dex` → N, and
/// `u32::MAX` when what follows `classes` is not a number.
pub open spec fn spec_sort_key(name: Seq<char>) -> u32 {
    let digits = strip_prefix_all(strip_suffix_all(name, dex_ext()), classes_word());
    if digits.len() == 0 {
        0
    } else {
        match parse_u32_text(digits) {
            Some(v) => v,
            None => u32::MAX,
        }
    }
}

/// Whether a file name has the `classes*.dex` form: `classes.dex`, or `classes`, one
/// or more decimal digits and `.dex`.
pub open spec fn spec_is_multidex_name(name: Seq<char>) -> bool {
    let stem = strip_suffix_all(name, dex_ext());
    ends_with(name, dex_ext()) && (stem == classes_word() || (begins_with(stem, classes_word()) && stem.len()
        > classes_word().len() && all_digits(stem.subrange(classes_word().len() as int, stem.len() as int))))
}

fn word_at(v: &Vec<char>, pos: usize, w: &Vec<char>) -> (r: bool)
    requires
        pos + w@.len() <= v@.len(),
    ensures
        r == (v@.subrange(pos as int, pos + w@.len()) == w@),
{
    let _vl = v.len();
    let mut k: usize = 0;
    while k < w.len()
        invariant
            k <= w@.len(),
            pos + w@.len() <= v@.len() <= usize::MAX,
            forall|j: int| 0 <= j < k ==> v@[pos + j] == w@[j],
        decreases w@.len() - k,
    {
        if v[pos + k] != w[k] {
            assert(v@.subrange(pos as int, pos + w@.len())[k as int] != w@[k as int]);
            return false;
        }
        k = k + 1;
    }
    assert(v@.subrange(pos as int, pos + w@.len()) =~= w@);
    true
}

fn dex_ext_chars() -> (r: Vec<char>)
    ensures
        r@ == dex_ext(),
{
    let r = vec!['.', 'd', 'e', 'x'];
    assert(r@ =~= dex_ext());
    r
}

fn classes_chars() -> (r: Vec<char>)
    ensures
        r@ == classes_word(),
{
    let r = vec!['c', 'l', 'a', 's', 's', 'e', 's'];
    assert(r@ =~= classes_word());
    r
}

/// The end of `v[..end]` once every trailing `w` is stripped.
fn strip_end(v: &Vec<char>, end: usize, w: &Vec<char>) -> (r: usize)
    requires
        end <= v@.len(),
        w@.len() > 0,
    ensures
        r <= end,
        v@.subrange(0, r as int) == strip_suffix_all(v@.subrange(0, end as int), w@),
{
    let mut e = end;
    while e >= w.len() && word_at(v, e - w.len(), w)
        invariant
            e <= end <= v@.len(),
            w@.len() > 0,
            strip_suffix_all(v@.subrange(0, e as int), w@) == strip_suffix_all(v@.subrange(0, end as int), w@),
        decreases e,
    {
        proof {
            let s = v@.subrange(0, e as int);
            assert(s.subrange(s.len() - w@.len(), s.len() as int) =~= v@.subrange(e - w@.len(), e as int));
            assert(s.subrange(0, s.len() - w@.len()) =~= v@.subrange(0, e - w@.len()));
        }
        e = e - w.len();
    }
    proof {
        let s = v@.subrange(0, e as int);
        if s.len() >= w@.len() {
            assert(s.subrange(s.len() - w@.len(), s.len() as int) =~= v@.subrange(e - w@.len(), e as int));
        }
    }
    e
}

/// The start of `v[start..end]` once every leading `w` is stripped.
fn strip_start(v: &Vec<char>, start: usize, end: usize, w: &Vec<char>) -> (r: usize)
    requires
        start <= end <= v@.len(),
        w@.len() > 0,
    ensures
        start <= r <= end,
        v@.subrange(r as int, end as int) == strip_prefix_all(v@.subrange(start as int, end as int), w@),
{
    let mut b = start;
    while end - b >= w.len() && word_at(v, b, w)
        invariant
            start <= b <= end <= v@.len(),
            w@.len() > 0,
            strip_prefix_all(v@.subrange(b as int, end as int), w@) == strip_prefix_all(
                v@.subrange(start as int, end as int),
                w@,
            ),
        decreases end - b,
    {
        proof {
            let s = v@.subrange(b as int, end as int);
            assert(s.subrange(0, w@.len() as int) =~= v@.subrange(b as int, b + w@.len()));
            assert(s.subrange(w@.len() as int, s.len() as int) =~= v@.subrange(b + w@.len(), end as int));
        }
        b = b + w.len();
    }
    proof {
        let s = v@.subrange(b as int, end as int);
        if s.len() >= w@.len() {
            assert(s.subrange(0, w@.len() as int) =~= v@.subrange(b as int, b + w@.len()));
        }
    }
    b
}

/// Whether `v[a..b]` is all decimal digits.
fn digits_only(v: &Vec<char>, a: usize, b: usize) -> (r: bool)
    requires
        a <= b <= v@.len(),
    ensures
        r == all_digits(v@.subrange(a as int, b as int)),
{
    let mut k = a;
    while k < b
        invariant
            a <= k <= b <= v@.len(),
            forall|j: int| a <= j < k ==> is_digit(v@[j]),
        decreases b - k,
    {
        if !('0' <= v[k] && v[k] <= '9') {
            assert(!is_digit(v@.subrange(a as int, b as int)[k - a]));
            return false;
        }
        k = k + 1;
    }
    assert forall|i: int| 0 <= i < b - a implies is_digit(#[trigger] v@.subrange(a as int, b as int)[i]) by {
        assert(v@.subrange(a as int, b as int)[i] == v@[a + i]);
    }
    true
}

proof fn lemma_digits_value_grows(s: Seq<char>, c: char)
    requires
        is_digit(c),
    ensures
        digits_value(s.push(c)) == digits_value(s) * 10 + (c as nat - 48) as nat,
        digits_value(s.push(c)) >= digits_value(s),
{
    assert(s.push(c).drop_last() =~= s);
}

/// `u32` parse of `v[a..b]` (optional `+`, then decimal digits).
fn parse_u32_chars(v: &Vec<char>, a: usize, b: usize) -> (r: Option<u32>)
    requires
        a <= b <= v@.len(),
    ensures
        r == parse_u32_text(v@.subrange(a as int, b as int)),
{
    let ghost s = v@.subrange(a as int, b as int);
    let mut p = a;
    if p < b && v[p] == '+' {
        p = p + 1;
    }
    let ghost body = v@.subrange(p as int, b as int);
    proof {
        if s.len() > 0 && s[0] == '+' {
            assert(body =~= s.drop_first());
        } else {
            assert(body =~= s);
        }
    }
    if p == b {
        return None;
    }
    if !digits_only(v, p, b) {
        return None;
    }
    let mut val: u64 = 0;
    let mut k = p;
    assert(v@.subrange(p as int, p as int) =~= Seq::<char>::empty());
    while k < b
        invariant
            p <= k <= b <= v@.len(),
            all_digits(v@.subrange(p as int, b as int)),
            digits_value(v@.subrange(p as int, k as int)) > u32::MAX ==> val == 0x1_0000_0000,
            digits_value(v@.subrange(p as int, k as int)) <= u32::MAX ==> val == digits_value(
                v@.subrange(p as int, k as int),
            ),
        decreases b - k,
    {
        let c = v[k];
        proof {
            assert(v@.subrange(p as int, b as int)[k - p] == c);
            assert(v@.subrange(p as int, k + 1) =~= v@.subrange(p as int, k as int).push(c));
            lemma_digits_value_grows(v@.subrange(p as int, k as int), c);
        }
        let d = (c as u32 - 48) as u64;
        if val <= 0xffff_ffff {
            let nv = val * 10 + d;
            if nv > 0xffff_ffff {
                val = 0x1_0000_0000;
            } else {
                val = nv;
            }
        }
        k = k + 1;
    }
    if val > 0xffff_ffff {
        None
    } else {
        Some(val as u32)
    }
}

/// Extract the numeric sort key from a DEX filename.
/// `classes.dex` → 0, `classes2.dex` → 2, `classes10.dex` → 10.
pub fn dex_sort_key(name: &str) -> (r: u32)
    ensures
        r == spec_sort_key(name@),
{
    let v = chars_of(name);
    let ext = dex_ext_chars();
    let cls = classes_chars();
    let end = strip_end(&v, v.len(), &ext);
    assert(v@.subrange(0, v@.len() as int) =~= v@);
    let start = strip_start(&v, 0, end, &cls);
    assert(v@.subrange(0, end as int).subrange(start as int, end as int) =~= v@.subrange(start as int, end as int));
    proof {
        let stem = v@.subrange(0, end as int);
        assert(stem.subrange(0, end as int) =~= stem);
    }
    if start == end {
        return 0;
    }
    match parse_u32_chars(&v, start, end) {
        Some(x) => x,
        None => u32::MAX,
    }
}

/// Check if a filename matches the `classes*.dex` pattern.
pub fn is_multidex_name(name: &str) -> (r: bool)
    ensures
        r == spec_is_multidex_name(name@),
{
    let v = chars_of(name);
    let ext = dex_ext_chars();
    let cls = classes_chars();
    if v.len() < 4 || !word_at(&v, v.len() - 4, &ext) {
        assert(v@.subrange(0, v@.len() as int) =~= v@);
        return false;
    }
    let end = strip_end(&v, v.len(), &ext);
    assert(v@.subrange(0, v@.len() as int) =~= v@);
    let ghost stem = v@.subrange(0, end as int);
    if end == 7 && word_at(&v, 0, &cls) {
        assert(stem =~= v@.subrange(0, 7));
        return true;
    }
    proof {
        if end == 7 {
            assert(stem =~= v@.subrange(0, 7));
        }
    }
    if end < 7 || !word_at(&v, 0, &cls) {
        proof {
            if end >= 7 {
                assert(stem.subrange(0, 7) =~= v@.subrange(0, 7));
            }
        }
        return false;
    }
    assert(stem.subrange(0, 7) =~= v@.subrange(0, 7));
    let r = digits_only(&v, 7, end);
    assert(stem.subrange(7, stem.len() as int) =~= v@.subrange(7, end as int));
    r
}

/// `r` tagged with `src` when it is an item.
pub open spec fn tag_one<T>(src: DexSource, r: Result<T>) -> Result<Sourced<T>> {
    match r {
        Ok(x) => Ok(Sourced { source: src, inner: x }),
        Err(e) => Err(e),
    }
}

/// Every result of `rs` tagged with `src`.
pub open spec fn tag<T>(src: DexSource, rs: Seq<Result<T>>) -> Seq<Result<Sourced<T>>> {
    Seq::new(rs.len(), |i: int| tag_one(src, rs[i]))
}

/// The lists `parts` (one per image), each tagged with its image's source, one after
/// the other.
pub open spec fn flat_tagged<T>(srcs: Seq<DexSource>, parts: Seq<Seq<Result<T>>>) -> Seq<Result<Sourced<T>>> {
    Seq::new(parts.len(), |k: int| tag(srcs[k], parts[k])).flatten()
}

proof fn lemma_flat_tagged_push<T>(srcs: Seq<DexSource>, parts: Seq<Seq<Result<T>>>, x: Seq<Result<T>>)
    ensures
        flat_tagged(srcs, parts.push(x)) == flat_tagged(srcs, parts) + tag(srcs[parts.len() as int], x),
{
    let f = |k: int| tag(srcs[k], parts.push(x)[k]);
    let a = Seq::new(parts.len(), |k: int| tag(srcs[k], parts[k]));
    assert(Seq::new(parts.len() + 1, f) =~= a.push(tag(srcs[parts.len() as int], x)));
    a.lemma_flatten_push(tag(srcs[parts.len() as int], x));
}

proof fn lemma_same_concat<T>(a: Seq<Result<T>>, b: Seq<Result<T>>, c: Seq<Result<T>>, d: Seq<Result<T>>)
    requires
        same_results(a, b),
        same_results(c, d),
    ensures
        same_results(a + c, b + d),
{
    assert forall|i: int| 0 <= i < (a + c).len() implies same_result(#[trigger] (a + c)[i], (b + d)[i]) by {
        if i < a.len() {
            assert(same_result(a[i], b[i]));
        } else {
            assert(same_result(c[i - a.len()], d[i - a.len()]));
        }
    }
}

proof fn lemma_tag_same<T>(src: DexSource, a: Seq<Result<T>>, b: Seq<Result<T>>)
    requires
        same_results(a, b),
    ensures
        same_results(tag(src, a), tag(src, b)),
{
    assert forall|i: int| 0 <= i < tag(src, a).len() implies same_result(
        #[trigger] tag(src, a)[i],
        tag(src, b)[i],
    ) by {
        assert(same_result(a[i], b[i]));
    }
}

proof fn lemma_flat_same<T>(srcs: Seq<DexSource>, p: Seq<Seq<Result<T>>>, q: Seq<Seq<Result<T>>>)
    requires
        p.len() == q.len(),
        forall|k: int| 0 <= k < p.len() ==> same_results(#[trigger] p[k], q[k]),
    ensures
        same_results(flat_tagged(srcs, p), flat_tagged(srcs, q)),
    decreases p.len(),
{
    if p.len() == 0 {
        assert(flat_tagged(srcs, p) =~= Seq::<Result<Sourced<T>>>::empty());
        assert(flat_tagged(srcs, q) =~= Seq::<Result<Sourced<T>>>::empty());
    } else {
        let n = p.len() - 1;
        let p0 = p.drop_last();
        let q0 = q.drop_last();
        assert(p0.push(p[n]) =~= p);
        assert(q0.push(q[n]) =~= q);
        assert forall|k: int| 0 <= k < p0.len() implies same_results(#[trigger] p0[k], q0[k]) by {
            assert(same_results(p[k], q[k]));
        }
        lemma_flat_same(srcs, p0, q0);
        lemma_flat_tagged_push(srcs, p0, p[n]);
        lemma_flat_tagged_push(srcs, q0, q[n]);
        assert(same_results(p[n], q[n]));
        lemma_tag_same(srcs[n], p[n], q[n]);
        lemma_same_concat(flat_tagged(srcs, p0), flat_tagged(srcs, q0), tag(srcs[n], p[n]), tag(srcs[n], q[n]));
    }
}

proof fn lemma_classes_agree(dex: DexFile, a: Seq<Result<ClassDef>>, b: Seq<Result<ClassDef>>)
    requires
        classes_ok(dex, a),
        classes_ok(dex, b),
    ensures
        same_results(a, b),
{
    assert forall|i: int| 0 <= i < a.len() implies same_result(#[trigger] a[i], b[i]) by {
        assert(class_item_ok(dex, i, a[i]));
        assert(class_item_ok(dex, i, b[i]));
    }
}

/// What loading the images `files` gives: the selected images in load order, each
/// with its name and its index; `NoDexFiles(place)` when none is selected;
/// `InvalidMagic` when a selected one is not a DEX image.
pub open spec fn loaded_from(
    files: Seq<(String, Vec<u8>)>,
    place: Seq<char>,
    require_magic: bool,
    r: Result<MultiDexHelper>,
) -> bool {
    match r {
        Ok(m) => exists|order: Seq<int>|
            {
                &&& load_order(files, require_magic, order)
                &&& order.len() > 0
                &&& m.source_seq().len() == order.len()
                &&& m.dex_seq().len() == order.len()
                &&& forall|k: int|
                    0 <= k < order.len() ==> {
                        &&& (#[trigger] m.source_seq()[k]).filename@ == files[order[k]].0@
                        &&& m.source_seq()[k].dex_index == k
                        &&& m.dex_seq()[k].data@ == files[order[k]].1@
                        &&& m.dex_seq()[k].header == header_at(files[order[k]].1@)
                    }
            },
        Err(DexError::NoDexFiles(p)) => p@ == place && forall|i: int| !selected(files, require_magic, i),
        Err(e) => e is InvalidMagic && exists|i: int|
            selected(files, require_magic, i) && !image_ok(files, i),
    }
}

fn copy_source(s: &DexSource) -> (r: DexSource)
    ensures
        r == *s,
{
    DexSource { filename: s.filename.clone(), dex_index: s.dex_index }
}

/// Append the results of `items`, each item tagged with `src`.
fn append_tagged<T>(out: &mut Vec<Result<Sourced<T>>>, src: &DexSource, items: Vec<Result<T>>)
    ensures
        final(out)@ == old(out)@ + tag(*src, items@),
{
    let ghost all = items@;
    let mut rest = items;
    let mut rev: Vec<Result<T>> = Vec::new();
    assert(rev@.reverse() =~= Seq::<Result<T>>::empty());
    assert(rest@ + rev@.reverse() =~= all);
    while rest.len() > 0
        invariant
            rest@ + rev@.reverse() == all,
        decreases rest@.len(),
    {
        let ghost before = rest@;
        let ghost rb = rev@;
        match rest.pop() {
            Some(x) => {
                rev.push(x);
                proof {
                    assert(rev@.reverse() =~= seq![x] + rb.reverse());
                    assert(before =~= rest@.push(x));
                    assert(rest@ + rev@.reverse() =~= before + rb.reverse());
                }
            },
            None => {},
        }
    }
    assert(rest@ =~= Seq::<Result<T>>::empty());
    assert(rev@.reverse() =~= all);
    let ghost start = out@;
    assert(tag(*src, all.take(0)) =~= Seq::<Result<Sourced<T>>>::empty());
    assert(out@ =~= start + tag(*src, all.take(0)));
    while rev.len() > 0
        invariant
            rev@.len() <= all.len(),
            rev@.reverse() == all.skip(all.len() - rev@.len()),
            out@ == start + tag(*src, all.take(all.len() - rev@.len())),
        decreases rev@.len(),
    {
        let ghost k = all.len() - rev@.len();
        let ghost rb = rev@;
        match rev.pop() {
            Some(x) => {
                proof {
                    assert(rb.reverse()[0] == rb[rb.len() - 1]);
                    assert(all.skip(k)[0] == all[k]);
                    assert(x == all[k]);
                    assert(rev@.reverse() =~= rb.reverse().drop_first());
                    assert(all.skip(k).drop_first() =~= all.skip(k + 1));
                }
                let t = match x {
                    Ok(v) => Ok(Sourced { source: copy_source(src), inner: v }),
                    Err(e) => Err(e),
                };
                out.push(t);
                proof {
                    assert(tag(*src, all.take(k + 1)) =~= tag(*src, all.take(k)).push(tag_one(*src, all[k])));
                }
            },
            None => {},
        }
    }
    assert(all.take(all.len() as int) =~= all);
}

/// Whether the file `i` of `files` is loaded: its name has the `classes*.dex` form and,
/// when `require_magic` is set, its bytes start with the DEX magic.
pub open spec fn selected(files: Seq<(String, Vec<u8>)>, require_magic: bool, i: int) -> bool {
    0 <= i < files.len() && spec_is_multidex_name(files[i].0@) && (!require_magic || has_dex_magic(files[i].1@))
}

/// The sort key of each file name.
pub open spec fn sort_keys(files: Seq<(String, Vec<u8>)>) -> Seq<u32> {
    Seq::new(files.len(), |i: int| spec_sort_key(files[i].0@))
}

/// Load order: by sort key, and among equal keys in the order the files were given.
pub open spec fn loads_before(keys: Seq<u32>, a: int, b: int) -> bool {
    keys[a] < keys[b] || (keys[a] == keys[b] && a < b)
}

/// `order` lists every selected file once, in load order.
pub open spec fn load_order(files: Seq<(String, Vec<u8>)>, require_magic: bool, order: Seq<int>) -> bool {
    &&& forall|k: int| 0 <= k < order.len() ==> selected(files, require_magic, #[trigger] order[k])
    &&& forall|i: int| selected(files, require_magic, i) ==> exists|k: int| 0 <= k < order.len() && #[trigger] order[k] == i
    &&& forall|j: int, k: int| 0 <= j < k < order.len() ==> loads_before(sort_keys(files), #[trigger] order[j], #[trigger] order[k])
}

/// Whether the image of file `i` parses (is long enough for a header and has the magic).
pub open spec fn image_ok(files: Seq<(String, Vec<u8>)>, i: int) -> bool {
    files[i].1@.len() >= HEADER_SIZE && has_dex_magic(files[i].1@)
}

/// Whether `v` appears in `s`.
pub open spec fn holds_index(s: Seq<usize>, v: int) -> bool {
    exists|k: int| 0 <= k < s.len() && #[trigger] s[k] == v
}

/// Insert `s` (larger than every index in `order`) after every entry whose key is not
/// above its own.
fn insert_in_order(order: &mut Vec<usize>, keys: &Vec<u32>, s: usize)
    requires
        s < keys@.len(),
        forall|k: int| 0 <= k < old(order)@.len() ==> (#[trigger] old(order)@[k]) < s,
        forall|j: int, k: int|
            0 <= j < k < old(order)@.len() ==> loads_before(keys@, #[trigger] old(order)@[j] as int, #[trigger] old(order)@[k] as int),
    ensures
        holds_index(final(order)@, s as int),
        forall|k: int| 0 <= k < old(order)@.len() ==> holds_index(final(order)@, #[trigger] old(order)@[k] as int),
        forall|k: int|
            0 <= k < final(order)@.len() ==> (#[trigger] final(order)@[k]) == s || holds_index(old(order)@, final(order)@[k] as int),
        forall|k: int| 0 <= k < final(order)@.len() ==> (#[trigger] final(order)@[k]) <= s,
        forall|j: int, k: int|
            0 <= j < k < final(order)@.len() ==> loads_before(keys@, #[trigger] final(order)@[j] as int, #[trigger] final(order)@[k] as int),
{
    let mut p = order.len();
    while p > 0 && keys[order[p - 1]] > keys[s]
        invariant
            p <= order@.len(),
            order@ == old(order)@,
            s < keys@.len(),
            forall|k: int| 0 <= k < order@.len() ==> (#[trigger] order@[k]) < s,
            forall|k: int| p <= k < order@.len() ==> keys@[#[trigger] order@[k] as int] > keys@[s as int],
        decreases p,
    {
        p = p - 1;
    }
    let ghost before = order@;
    order.insert(p, s);
    proof {
        assert(order@[p as int] == s);
        assert forall|k: int| 0 <= k < before.len() implies holds_index(order@, #[trigger] before[k] as int) by {
            if k < p {
                assert(order@[k] == before[k]);
            } else {
                assert(order@[k + 1] == before[k]);
            }
        }
        assert forall|k: int| 0 <= k < order@.len() implies (#[trigger] order@[k]) == s || holds_index(before, order@[k] as int) by {
            if k < p {
                assert(order@[k] == before[k]);
            } else if k > p {
                assert(order@[k] == before[k - 1]);
            }
        }
        assert forall|j: int, k: int| 0 <= j < k < order@.len() implies loads_before(keys@, #[trigger] order@[j] as int, #[trigger] order@[k] as int) by {
            if k == p {
                assert(order@[j] == before[j]);
                if j < p - 1 {
                    assert(loads_before(keys@, before[j] as int, before[p - 1] as int));
                }
                assert(keys@[before[p - 1] as int] <= keys@[s as int]);
            } else if j == p {
                assert(order@[k] == before[k - 1]);
                assert(keys@[before[k - 1] as int] > keys@[s as int]);
            } else {
                let jj = if j < p { j } else { j - 1 };
                let kk = if k < p { k } else { k - 1 };
                assert(order@[j] == before[jj]);
                assert(order@[k] == before[kk]);
            }
        }
    }
}

/// Unified view across multiple DEX files.
pub struct MultiDexHelper {
    sources: Vec<DexSource>,
    helpers: Vec<DexHelper>,
}

impl MultiDexHelper {
    #[verifier::type_invariant]
    spec fn inv(self) -> bool {
        &&& self.sources@.len() == self.helpers@.len()
        &&& forall|i: int| 0 <= i < self.sources@.len() ==> (#[trigger] self.sources@[i]).dex_index == i
    }

    /// The source of each image, in load order.
    pub closed spec fn source_seq(&self) -> Seq<DexSource> {
        self.sources@
    }

    /// The images, in load order.
    pub closed spec fn dex_seq(&self) -> Seq<DexFile> {
        Seq::new(self.helpers@.len(), |i: int| self.helpers@[i].view_dex())
    }

    /// Create from pre-parsed DEX files with their filenames.
    pub fn new(entries: Vec<(String, DexFile)>) -> (r: Self)
        ensures
            r.source_seq().len() == entries@.len(),
            r.dex_seq().len() == entries@.len(),
            forall|i: int|
                0 <= i < entries@.len() ==> (#[trigger] r.source_seq()[i]).filename == entries@[i].0
                    && r.source_seq()[i].dex_index == i && r.dex_seq()[i] == entries@[i].1,
    {
        let ghost all = entries@;
        let mut rest = entries;
        let mut sources: Vec<DexSource> = Vec::new();
        let mut helpers: Vec<DexHelper> = Vec::new();
        let mut idx: usize = 0;
        let _n = rest.len();
        while rest.len() > 0
            invariant
                all.len() <= usize::MAX,
                idx == sources@.len(),
                sources@.len() == helpers@.len(),
                idx + rest@.len() == all.len(),
                rest@ == all.skip(idx as int),
                forall|i: int|
                    0 <= i < idx ==> (#[trigger] sources@[i]).filename == all[i].0 && sources@[i].dex_index == i
                        && helpers@[i].view_dex() == all[i].1,
            decreases rest@.len(),
        {
            let ghost before = rest@;
            let (filename, dex) = rest.remove(0);
            proof {
                assert(before[0] == all[idx as int]);
                assert(rest@ =~= all.skip(idx + 1));
            }
            sources.push(DexSource { filename, dex_index: idx });
            helpers.push(DexHelper::own(dex));
            idx = idx + 1;
        }
        let r = MultiDexHelper { sources, helpers };
        proof {
            assert forall|i: int| 0 <= i < all.len() implies r.dex_seq()[i] == all[i].1 by {
                assert(r.sources@[i].dex_index == i);
            }
        }
        r
    }

    /// Load the `classes*.dex` images among `files` (name and bytes), ordered by the
    /// number in their name (`classes.dex` first; equal keys keep the given order).
    /// With `require_magic`, a file whose bytes do not start with the DEX magic is
    /// skipped. `NoDexFiles(place)` when no file is selected; `InvalidMagic` when a
    /// selected image is shorter than a header or lacks the magic.
    #[verifier::spinoff_prover]
    pub fn from_images(files: &Vec<(String, Vec<u8>)>, place: &str, require_magic: bool) -> (r: Result<Self>)
        ensures
            loaded_from(files@, place@, require_magic, r),
    {
        let n = files.len();
        let mut keys: Vec<u32> = Vec::new();
        let mut i: usize = 0;
        while i < n
            invariant
                i <= n == files@.len(),
                keys@.len() == i,
                forall|k: int| 0 <= k < i ==> keys@[k] == spec_sort_key(#[trigger] files@[k].0@),
            decreases n - i,
        {
            keys.push(dex_sort_key(files[i].0.as_str()));
            i = i + 1;
        }
        assert(keys@ =~= sort_keys(files@));
        let mut order: Vec<usize> = Vec::new();
        let mut i: usize = 0;
        while i < n
            invariant
                i <= n == files@.len(),
                keys@ == sort_keys(files@),
                forall|k: int| 0 <= k < order@.len() ==> (#[trigger] order@[k]) < i,
                forall|k: int| 0 <= k < order@.len() ==> selected(files@, require_magic, #[trigger] order@[k] as int),
                forall|x: int| 0 <= x < i && selected(files@, require_magic, x) ==> holds_index(order@, x),
                forall|j: int, k: int|
                    0 <= j < k < order@.len() ==> loads_before(keys@, #[trigger] order@[j] as int, #[trigger] order@[k] as int),
            decreases n - i,
        {
            let pick = is_multidex_name(files[i].0.as_str()) && (!require_magic || is_dex(files[i].1.as_slice()));
            if pick {
                let ghost before = order@;
                insert_in_order(&mut order, &keys, i);
                proof {
                    assert forall|k: int| 0 <= k < order@.len() implies selected(files@, require_magic, #[trigger] order@[k] as int) by {
                        if order@[k] != i {
                            let k2 = choose|k2: int| 0 <= k2 < before.len() && #[trigger] before[k2] == order@[k] as int;
                            assert(selected(files@, require_magic, before[k2] as int));
                        }
                    }
                    assert forall|x: int| 0 <= x < i + 1 && selected(files@, require_magic, x) implies holds_index(order@, x) by {
                        if x < i {
                            assert(holds_index(before, x));
                            let k2 = choose|k2: int| 0 <= k2 < before.len() && #[trigger] before[k2] == x;
                            assert(before[k2] == x);
                            assert(holds_index(order@, before[k2] as int));
                        }
                    }
                }
            }
            i = i + 1;
        }
        let ghost ord = Seq::new(order@.len(), |k: int| order@[k] as int);
        if order.len() == 0 {
            proof {
                assert forall|x: int| !selected(files@, require_magic, x) by {
                    if selected(files@, require_magic, x) {
                        assert(holds_index(order@, x));
                    }
                }
            }
            return Err(DexError::NoDexFiles(place.to_string()));
        }
        let mut entries: Vec<(String, DexFile)> = Vec::new();
        let mut k: usize = 0;
        while k < order.len()
            invariant
                k <= order@.len(),
                n == files@.len(),
                forall|j: int| 0 <= j < order@.len() ==> (#[trigger] order@[j]) < n,
                forall|j: int| 0 <= j < order@.len() ==> selected(files@, require_magic, #[trigger] order@[j] as int),
                entries@.len() == k,
                forall|j: int|
                    0 <= j < k ==> {
                        &&& (#[trigger] entries@[j]).0@ == files@[order@[j] as int].0@
                        &&& entries@[j].1.data@ == files@[order@[j] as int].1@
                        &&& entries@[j].1.header == header_at(files@[order@[j] as int].1@)
                        &&& image_ok(files@, order@[j] as int)
                    },
            decreases order@.len() - k,
        {
            let f = &files[order[k]];
            let dex = match DexFile::parse(f.1.as_slice()) {
                Ok(d) => d,
                Err(e) => {
                    proof {
                        assert(selected(files@, require_magic, order@[k as int] as int));
                        assert(!image_ok(files@, order@[k as int] as int));
                    }
                    return Err(e);
                },
            };
            let name = f.0.clone();
            let ghost before = entries@;
            entries.push((name, dex));
            proof {
                assert(entries@[k as int].0@ == files@[order@[k as int] as int].0@);
                assert(entries@[k as int].1.data@ == files@[order@[k as int] as int].1@);
                assert(entries@[k as int].1.header == header_at(files@[order@[k as int] as int].1@));
                assert(image_ok(files@, order@[k as int] as int));
                assert forall|j: int| 0 <= j < k implies entries@[j] == before[j] by {}
            }
            k = k + 1;
        }
        let ghost ents = entries@;
        let m = Self::new(entries);
        proof {
            assert forall|j: int, k: int| 0 <= j < k < ord.len() implies loads_before(sort_keys(files@), #[trigger] ord[j], #[trigger] ord[k]) by {
                assert(loads_before(keys@, order@[j] as int, order@[k] as int));
            }
            assert forall|x: int| selected(files@, require_magic, x) implies exists|k: int| 0 <= k < ord.len() && #[trigger] ord[k] == x by {
                assert(holds_index(order@, x));
                let k2 = choose|k2: int| 0 <= k2 < order@.len() && #[trigger] order@[k2] == x;
                assert(ord[k2] == x);
            }
            assert forall|k: int| 0 <= k < ord.len() implies selected(files@, require_magic, #[trigger] ord[k]) by {
                assert(selected(files@, require_magic, order@[k] as int));
            }
            assert(load_order(files@, require_magic, ord));
            assert forall|k: int| 0 <= k < ord.len() implies {
                &&& (#[trigger] m.source_seq()[k]).filename@ == files@[ord[k]].0@
                &&& m.source_seq()[k].dex_index == k
                &&& m.dex_seq()[k].data@ == files@[ord[k]].1@
                &&& m.dex_seq()[k].header == header_at(files@[ord[k]].1@)
            } by {
                assert(ents[k].0@ == files@[order@[k] as int].0@);
            }
        }
        Ok(m)
    }

    /// Number of DEX files loaded.
    pub fn dex_count(&self) -> (r: usize)
        ensures
            r == self.source_seq().len(),
    {
        self.sources.len()
    }

    /// The source descriptors for all loaded DEX files.
    pub fn dex_sources(&self) -> (r: &[DexSource])
        ensures
            r@ == self.source_seq(),
            forall|i: int| 0 <= i < r@.len() ==> (#[trigger] r@[i]).dex_index == i,
    {
        proof {
            use_type_invariant(self);
        }
        self.sources.as_slice()
    }

    /// Get the DexHelper (and underlying DexFile) for a given DEX index.
    pub fn get_helper(&self, dex_index: usize) -> (r: Option<&DexHelper>)
        ensures
            match r {
                Some(h) => dex_index < self.dex_seq().len() && h.view_dex() == self.dex_seq()[dex_index as int],
                None => dex_index >= self.dex_seq().len(),
            },
    {
        if dex_index < self.helpers.len() {
            Some(&self.helpers[dex_index])
        } else {
            None
        }
    }

    /// Get the underlying DexFile for a given DEX index.
    pub fn get_dex(&self, dex_index: usize) -> (r: Option<&DexFile>)
        ensures
            match r {
                Some(d) => dex_index < self.dex_seq().len() && *d == self.dex_seq()[dex_index as int],
                None => dex_index >= self.dex_seq().len(),
            },
    {
        if dex_index < self.helpers.len() {
            Some(self.helpers[dex_index].dex())
        } else {
            None
        }
    }

    /// All class definitions across all DEX files, image by image.
    pub fn classes(&self) -> (r: Vec<Result<Sourced<ClassDef>>>)
        ensures
            exists|parts: Seq<Seq<Result<ClassDef>>>|
                {
                    &&& parts.len() == self.dex_seq().len()
                    &&& forall|k: int| 0 <= k < parts.len() ==> classes_ok(self.dex_seq()[k], #[trigger] parts[k])
                    &&& r@ == flat_tagged(self.source_seq(), parts)
                },
            forall|per: Seq<Seq<Result<ClassDef>>>|
                per.len() == self.dex_seq().len() && (forall|k: int|
                    0 <= k < per.len() ==> classes_ok(self.dex_seq()[k], #[trigger] per[k])) ==> same_results(
                    r@,
                    #[trigger] flat_tagged(self.source_seq(), per),
                ),
    {
        proof {
            use_type_invariant(self);
        }
        let mut out: Vec<Result<Sourced<ClassDef>>> = Vec::new();
        let ghost mut parts: Seq<Seq<Result<ClassDef>>> = Seq::empty();
        let mut k: usize = 0;
        assert(flat_tagged(self.source_seq(), parts) =~= Seq::<Result<Sourced<ClassDef>>>::empty());
        while k < self.helpers.len()
            invariant
                k <= self.helpers@.len() == self.sources@.len(),
                parts.len() == k,
                forall|j: int| 0 <= j < k ==> classes_ok(self.dex_seq()[j], #[trigger] parts[j]),
                out@ == flat_tagged(self.source_seq(), parts),
            decreases self.helpers@.len() - k,
        {
            let items = self.helpers[k].classes();
            let ghost got = items@;
            append_tagged(&mut out, &self.sources[k], items);
            proof {
                lemma_flat_tagged_push(self.source_seq(), parts, got);
                parts = parts.push(got);
            }
            k = k + 1;
        }
        proof {
            assert forall|per: Seq<Seq<Result<ClassDef>>>|
                per.len() == self.dex_seq().len() && (forall|k: int|
                    0 <= k < per.len() ==> classes_ok(self.dex_seq()[k], #[trigger] per[k])) implies same_results(
                out@,
                #[trigger] flat_tagged(self.source_seq(), per),
            ) by {
                self.classes_flatten(out@, per);
            }
        }
        out
    }

    /// The class definitions of a multi-DEX view are those of each image in load
    /// order, each tagged with the image it came from: whatever `classes()` returned
    /// for the whole view (`out`) agrees item by item with what each image's own
    /// `classes()` returned (`per`), tagged and joined; a failed item comes through
    /// as the same error with the same text.
    pub proof fn classes_flatten(
        &self,
        out: Seq<Result<Sourced<ClassDef>>>,
        per: Seq<Seq<Result<ClassDef>>>,
    )
        requires
            per.len() == self.dex_seq().len(),
            forall|k: int| 0 <= k < per.len() ==> classes_ok(self.dex_seq()[k], #[trigger] per[k]),
            exists|parts: Seq<Seq<Result<ClassDef>>>|
                {
                    &&& parts.len() == self.dex_seq().len()
                    &&& forall|k: int| 0 <= k < parts.len() ==> classes_ok(self.dex_seq()[k], #[trigger] parts[k])
                    &&& out == flat_tagged(self.source_seq(), parts)
                },
        ensures
            same_results(out, flat_tagged(self.source_seq(), per)),
    {
        let parts = choose|parts: Seq<Seq<Result<ClassDef>>>|
            {
                &&& parts.len() == self.dex_seq().len()
                &&& forall|k: int| 0 <= k < parts.len() ==> classes_ok(self.dex_seq()[k], #[trigger] parts[k])
                &&& out == flat_tagged(self.source_seq(), parts)
            };
        assert forall|k: int| 0 <= k < parts.len() implies same_results(#[trigger] parts[k], per[k]) by {
            lemma_classes_agree(self.dex_seq()[k], parts[k], per[k]);
        }
        lemma_flat_same(self.source_seq(), parts, per);
    }

    /// All method ids across all DEX files, image by image.
    pub fn methods(&self) -> (r: Vec<Result<Sourced<MethodId>>>)
        ensures
            exists|parts: Seq<Seq<Result<MethodId>>>|
                {
                    &&& parts.len() == self.dex_seq().len()
                    &&& forall|k: int| 0 <= k < parts.len() ==> methods_ok(self.dex_seq()[k], #[trigger] parts[k])
                    &&& r@ == flat_tagged(self.source_seq(), parts)
                },
    {
        proof {
            use_type_invariant(self);
        }
        let mut out: Vec<Result<Sourced<MethodId>>> = Vec::new();
        let ghost mut parts: Seq<Seq<Result<MethodId>>> = Seq::empty();
        let mut k: usize = 0;
        assert(flat_tagged(self.source_seq(), parts) =~= Seq::<Result<Sourced<MethodId>>>::empty());
        while k < self.helpers.len()
            invariant
                k <= self.helpers@.len() == self.sources@.len(),
                parts.len() == k,
                forall|j: int| 0 <= j < k ==> methods_ok(self.dex_seq()[j], #[trigger] parts[j]),
                out@ == flat_tagged(self.source_seq(), parts),
            decreases self.helpers@.len() - k,
        {
            let items = self.helpers[k].methods();
            let ghost got = items@;
            append_tagged(&mut out, &self.sources[k], items);
            proof {
                lemma_flat_tagged_push(self.source_seq(), parts, got);
                parts = parts.push(got);
            }
            k = k + 1;
        }
        out
    }

    /// All field ids across all DEX files, image by image.
    pub fn fields(&self) -> (r: Vec<Result<Sourced<FieldId>>>)
        ensures
            exists|parts: Seq<Seq<Result<FieldId>>>|
                {
                    &&& parts.len() == self.dex_seq().len()
                    &&& forall|k: int| 0 <= k < parts.len() ==> fields_ok(self.dex_seq()[k], #[trigger] parts[k])
                    &&& r@ == flat_tagged(self.source_seq(), parts)
                },
    {
        proof {
            use_type_invariant(self);
        }
        let mut out: Vec<Result<Sourced<FieldId>>> = Vec::new();
        let ghost mut parts: Seq<Seq<Result<FieldId>>> = Seq::empty();
        let mut k: usize = 0;
        assert(flat_tagged(self.source_seq(), parts) =~= Seq::<Result<Sourced<FieldId>>>::empty());
        while k < self.helpers.len()
            invariant
                k <= self.helpers@.len() == self.sources@.len(),
                parts.len() == k,
                forall|j: int| 0 <= j < k ==> fields_ok(self.dex_seq()[j], #[trigger] parts[j]),
                out@ == flat_tagged(self.source_seq(), parts),
            decreases self.helpers@.len() - k,
        {
            let items = self.helpers[k].fields();
            let ghost got = items@;
            append_tagged(&mut out, &self.sources[k], items);
            proof {
                lemma_flat_tagged_push(self.source_seq(), parts, got);
                parts = parts.push(got);
            }
            k = k + 1;
        }
        out
    }

    /// All strings across all DEX files, image by image.
    pub fn strings(&self) -> (r: Vec<Result<Sourced<String>>>)
        ensures
            exists|parts: Seq<Seq<Result<String>>>|
                {
                    &&& parts.len() == self.dex_seq().len()
                    &&& forall|k: int| 0 <= k < parts.len() ==> strings_ok(self.dex_seq()[k], #[trigger] parts[k])
                    &&& r@ == flat_tagged(self.source_seq(), parts)
                },
    {
        proof {
            use_type_invariant(self);
        }
        let mut out: Vec<Result<Sourced<String>>> = Vec::new();
        let ghost mut parts: Seq<Seq<Result<String>>> = Seq::empty();
        let mut k: usize = 0;
        assert(flat_tagged(self.source_seq(), parts) =~= Seq::<Result<Sourced<String>>>::empty());
        while k < self.helpers.len()
            invariant
                k <= self.helpers@.len() == self.sources@.len(),
                parts.len() == k,
                forall|j: int| 0 <= j < k ==> strings_ok(self.dex_seq()[j], #[trigger] parts[j]),
                out@ == flat_tagged(self.source_seq(), parts),
            decreases self.helpers@.len() - k,
        {
            let items = self.helpers[k].strings();
            let ghost got = items@;
            append_tagged(&mut out, &self.sources[k], items);
            proof {
                lemma_flat_tagged_push(self.source_seq(), parts, got);
                parts = parts.push(got);
            }
            k = k + 1;
        }
        out
    }
}

} // verus!
