//! Build a DEX file from interned pools and class definitions.

use vstd::prelude::*;

use crate::dex::annotations::{directory_model, spec_write_directory, AnnotationsDirectory};
use crate::dex::encoded_value::EncodedValue;
use crate::dex::literal::{trim, trim_end, trim_start};
use crate::dex::ordering::{is_stable_order, key_views, places, stable_order};
use crate::dex::annotations::write_annotations_directory;
use crate::dex::encoded_value::{encode_encoded_value, model, spec_encode_value};
use crate::dex::pools::{insert_pool, keys_of, lemma_keys_lt_irreflexive, search_pool, strictly_sorted, text_lt, PoolKey};
use crate::error::{DexError, Result, parse_error};
use crate::dex::strings::mutf8_unit3;
use crate::dex::write::{fix_checksums, resigned, sha1_of};
use crate::dex::NO_INDEX;
use crate::leb128::{sleb_encode, u32_at, u32_le_bytes, uleb_encode, write_sleb128, write_uleb128, write_uleb128p1};
use crate::text::{chars_of, is_white_space, is_whitespace, push_char, push_str};

verus! {

/// A method body ready for emission.
#[derive(Debug)]
pub struct BuiltCode {
    pub registers_size: u16,
    pub ins_size: u16,
    pub outs_size: u16,
    pub insns: Vec<u8>,
    pub tries: Vec<BuiltTry>,
    /// Filled during finish; leave 0 to omit.
    pub debug_info_off: u32,
    /// Raw `debug_info_item` bytes (optional).
    pub debug_ops: Vec<u8>,
}

/// One try block of a [`BuiltCode`].
#[derive(Debug)]
pub struct BuiltTry {
    pub start_unit: u32,
    pub insn_count: u16,
    /// Typed handlers: (type_idx, handler_unit).
    pub handlers: Vec<(u32, u32)>,
    /// Catch-all handler address in code units, if any.
    pub catch_all: Option<u32>,
}

/// A field of a [`BuiltClass`].
#[derive(Debug)]
pub struct BuiltField {
    pub class: String,
    pub name: String,
    pub typ: String,
    pub access_flags: u32,
    pub static_field: bool,
    /// Optional encoded static initializer (only for static fields).
    pub static_value: Option<EncodedValue>,
}

/// A method of a [`BuiltClass`].
#[derive(Debug)]
pub struct BuiltMethod {
    pub class: String,
    pub name: String,
    /// Prototype in descriptor form, e.g. `(I)V`.
    pub proto: String,
    pub access_flags: u32,
    pub code: Option<BuiltCode>,
    pub direct: bool,
}

/// A class to emit.
#[derive(Debug)]
pub struct BuiltClass {
    pub descriptor: String,
    pub access_flags: u32,
    pub superclass: Option<String>,
    pub interfaces: Vec<String>,
    pub source_file: Option<String>,
    pub static_fields: Vec<BuiltField>,
    pub instance_fields: Vec<BuiltField>,
    pub direct_methods: Vec<BuiltMethod>,
    pub virtual_methods: Vec<BuiltMethod>,
    /// Annotations with pool indices already resolved (or empty).
    pub annotations: AnnotationsDirectory,
}

// ---------------------------------------------------------------------------
// Prototypes and shorty descriptors
// ---------------------------------------------------------------------------

/// Index just past the `;` that ends a class name scanned from `i` (or the end).
pub open spec fn class_name_end(s: Seq<char>, i: int) -> int
    decreases s.len() - i,
{
    if i < 0 || i >= s.len() {
        s.len() as int
    } else if s[i] == ';' {
        i + 1
    } else {
        class_name_end(s, i + 1)
    }
}

/// Index of the first character at or after `i` that is not `[`.
pub open spec fn brackets_end(s: Seq<char>, i: int) -> int
    decreases s.len() - i,
{
    if 0 <= i < s.len() && s[i] == '[' {
        brackets_end(s, i + 1)
    } else {
        i
    }
}

/// End of the parameter descriptor that starts at `i`: a class name through its `;`,
/// an array (its brackets, then one element descriptor), or one character.
pub open spec fn token_end(s: Seq<char>, i: int) -> int {
    if s[i] == 'L' {
        class_name_end(s, i + 1)
    } else if s[i] == '[' {
        let j = brackets_end(s, i + 1);
        if j < s.len() && s[j] == 'L' {
            class_name_end(s, j + 1)
        } else if j < s.len() {
            j + 1
        } else {
            j
        }
    } else {
        i + 1
    }
}

proof fn lemma_class_name_end(s: Seq<char>, i: int)
    requires
        0 <= i <= s.len(),
    ensures
        i <= class_name_end(s, i) <= s.len(),
    decreases s.len() - i,
{
    if i < s.len() && s[i] != ';' {
        lemma_class_name_end(s, i + 1);
    }
}

proof fn lemma_brackets_end(s: Seq<char>, i: int)
    requires
        0 <= i <= s.len(),
    ensures
        i <= brackets_end(s, i) <= s.len(),
        forall|k: int| i <= k < brackets_end(s, i) ==> s[k] == '[',
        brackets_end(s, i) < s.len() ==> s[brackets_end(s, i)] != '[',
    decreases s.len() - i,
{
    if i < s.len() && s[i] == '[' {
        lemma_brackets_end(s, i + 1);
    }
}

/// A parameter descriptor that starts inside the text ends after its start and no
/// later than the text.
pub proof fn lemma_token_end(s: Seq<char>, i: int)
    requires
        0 <= i < s.len(),
    ensures
        i < token_end(s, i) <= s.len(),
{
    lemma_class_name_end(s, i + 1);
    if s[i] == '[' {
        lemma_brackets_end(s, i + 1);
        let j = brackets_end(s, i + 1);
        if j < s.len() {
            lemma_class_name_end(s, j + 1);
        }
    }
}

/// The parameter descriptors of `s` from `i` on.
pub open spec fn param_tokens(s: Seq<char>, i: int) -> Seq<Seq<char>>
    decreases s.len() - i,
{
    if i < 0 || i >= s.len() {
        Seq::empty()
    } else {
        proof {
            lemma_token_end(s, i);
        }
        seq![s.subrange(i, token_end(s, i))] + param_tokens(s, token_end(s, i))
    }
}

/// Index of the first `c` in `s`.
pub open spec fn first_index(s: Seq<char>, c: char) -> Option<int>
    decreases s.len(),
{
    if s.len() == 0 {
        None
    } else if s[0] == c {
        Some(0)
    } else {
        match first_index(s.drop_first(), c) {
            Some(k) => Some(k + 1),
            None => None,
        }
    }
}

/// A prototype descriptor split into its parameter descriptors and return descriptor:
/// surrounding white space and a leading `(` are dropped, the parameters run to the
/// first `)`, the return type is what follows it (`V` when there is no `)`).
pub open spec fn proto_parts(proto: Seq<char>) -> (Seq<Seq<char>>, Seq<char>) {
    let t = trim(proto);
    let rest = if t.len() > 0 && t[0] == '(' {
        t.drop_first()
    } else {
        t
    };
    match first_index(rest, ')') {
        Some(k) => (param_tokens(rest.subrange(0, k), 0), rest.subrange(k + 1, rest.len() as int)),
        None => (Seq::empty(), seq!['V']),
    }
}

/// The shorty character of a descriptor: its first character after any `[`, `V` for
/// an empty one.
pub open spec fn shorty_of(d: Seq<char>) -> char {
    let j = brackets_end(d, 0);
    if j < d.len() {
        d[j]
    } else {
        'V'
    }
}

/// The shorty descriptor of a prototype: return type first, then each parameter.
pub open spec fn spec_shorty(params: Seq<Seq<char>>, ret: Seq<char>) -> Seq<char> {
    seq![shorty_of(ret)] + Seq::new(params.len(), |k: int| shorty_of(params[k]))
}

fn copy_range(v: &Vec<char>, a: usize, b: usize) -> (r: String)
    requires
        a <= b <= v@.len(),
    ensures
        r@ == v@.subrange(a as int, b as int),
{
    let mut out = String::new();
    let mut k = a;
    assert(out@ =~= v@.subrange(a as int, a as int));
    while k < b
        invariant
            a <= k <= b <= v@.len(),
            out@ == v@.subrange(a as int, k as int),
        decreases b - k,
    {
        push_char(&mut out, v[k]);
        assert(v@.subrange(a as int, k + 1) =~= v@.subrange(a as int, k as int).push(v@[k as int]));
        k = k + 1;
    }
    out
}

fn class_name_end_exec(v: &Vec<char>, i: usize, end: usize) -> (r: usize)
    requires
        i <= end <= v@.len(),
    ensures
        r == class_name_end(v@.subrange(0, end as int), i as int),
{
    let ghost s = v@.subrange(0, end as int);
    let mut k = i;
    while k < end && v[k] != ';'
        invariant
            i <= k <= end <= v@.len(),
            s == v@.subrange(0, end as int),
            class_name_end(s, k as int) == class_name_end(s, i as int),
        decreases end - k,
    {
        assert(s[k as int] == v@[k as int]);
        k = k + 1;
    }
    if k < end {
        assert(s[k as int] == v@[k as int]);
        k + 1
    } else {
        k
    }
}

fn brackets_end_exec(v: &Vec<char>, i: usize, end: usize) -> (r: usize)
    requires
        i <= end <= v@.len(),
    ensures
        r == brackets_end(v@.subrange(0, end as int), i as int),
{
    let ghost s = v@.subrange(0, end as int);
    let mut k = i;
    while k < end && v[k] == '['
        invariant
            i <= k <= end <= v@.len(),
            s == v@.subrange(0, end as int),
            brackets_end(s, k as int) == brackets_end(s, i as int),
        decreases end - k,
    {
        assert(s[k as int] == v@[k as int]);
        k = k + 1;
    }
    if k < end {
        assert(s[k as int] == v@[k as int]);
    }
    k
}

/// Bounds of `v` without its leading and trailing white space.
fn trim_bounds(v: &Vec<char>) -> (r: (usize, usize))
    ensures
        r.0 <= r.1 <= v@.len(),
        v@.subrange(r.0 as int, r.1 as int) == trim(v@),
{
    let n = v.len();
    let mut a: usize = 0;
    assert(v@.subrange(0, n as int) =~= v@);
    while a < n && is_whitespace(v[a])
        invariant
            a <= n == v@.len(),
            trim_start(v@.subrange(a as int, n as int)) == trim_start(v@),
        decreases n - a,
    {
        assert(v@.subrange(a as int, n as int).drop_first() =~= v@.subrange(a + 1, n as int));
        a = a + 1;
    }
    let mut b: usize = n;
    while b > a && is_whitespace(v[b - 1])
        invariant
            a <= b <= n == v@.len(),
            trim_start(v@.subrange(a as int, n as int)) == trim_start(v@),
            a < n ==> !is_white_space(v@[a as int]),
            trim_end(v@.subrange(a as int, b as int)) == trim_end(v@.subrange(a as int, n as int)),
        decreases b,
    {
        assert(v@.subrange(a as int, b as int).drop_last() =~= v@.subrange(a as int, b - 1));
        b = b - 1;
    }
    proof {
        if a < n {
            assert(trim_start(v@.subrange(a as int, n as int)) == v@.subrange(a as int, n as int));
        } else {
            assert(v@.subrange(a as int, n as int) =~= Seq::<char>::empty());
        }
        if b > a {
            assert(trim_end(v@.subrange(a as int, b as int)) == v@.subrange(a as int, b as int));
        } else {
            assert(v@.subrange(a as int, b as int) =~= Seq::<char>::empty());
        }
    }
    (a, b)
}

/// Index of the first `)` in `v[a..b]`, or `b`.
fn find_close(v: &Vec<char>, a: usize, b: usize) -> (r: usize)
    requires
        a <= b <= v@.len(),
    ensures
        a <= r <= b,
        r == b ==> first_index(v@.subrange(a as int, b as int), ')') is None,
        r < b ==> first_index(v@.subrange(a as int, b as int), ')') == Some(r - a),
{
    let ghost rest = v@.subrange(a as int, b as int);
    let mut close = a;
    assert(v@.subrange(a as int, b as int) =~= rest);
    while close < b && v[close] != ')'
        invariant
            a <= close <= b <= v@.len(),
            rest == v@.subrange(a as int, b as int),
            first_index(rest, ')') == match first_index(v@.subrange(close as int, b as int), ')') {
                Some(k) => Some(k + (close - a)),
                None => None::<int>,
            },
        decreases b - close,
    {
        assert(v@.subrange(close as int, b as int).drop_first() =~= v@.subrange(close + 1, b as int));
        close = close + 1;
    }
    if close == b {
        assert(v@.subrange(close as int, b as int) =~= Seq::<char>::empty());
    }
    close
}

/// The parameter descriptors of `v[a..close]`.
fn split_params(v: &Vec<char>, a: usize, close: usize) -> (params: Vec<String>)
    requires
        a <= close <= v@.len(),
    ensures
        Seq::new(params@.len(), |k: int| params@[k]@) == param_tokens(v@.subrange(a as int, close as int), 0),
{
    let ghost ps = v@.subrange(a as int, close as int);
    let ghost s = v@.subrange(0, close as int);
    let mut params: Vec<String> = Vec::new();
    let mut i = a;
    assert(Seq::new(params@.len(), |k: int| params@[k]@) + param_tokens(ps, 0) =~= param_tokens(ps, 0));
    while i < close
        invariant
            a <= i <= close <= v@.len(),
            ps == v@.subrange(a as int, close as int),
            s == v@.subrange(0, close as int),
            param_tokens(ps, 0) == Seq::new(params@.len(), |k: int| params@[k]@) + param_tokens(ps, i - a),
        decreases close - i,
    {
        proof {
            lemma_token_end(ps, i - a);
            lemma_shift_tokens(v@, a as int, close as int, i as int);
            assert(s[i as int] == v@[i as int]);
        }
        let c = v[i];
        let e: usize = if c == 'L' {
            class_name_end_exec(v, i + 1, close)
        } else if c == '[' {
            let j = brackets_end_exec(v, i + 1, close);
            if j < close && v[j] == 'L' {
                assert(s[j as int] == v@[j as int]);
                class_name_end_exec(v, j + 1, close)
            } else if j < close {
                assert(s[j as int] == v@[j as int]);
                j + 1
            } else {
                j
            }
        } else {
            i + 1
        };
        assert(e == token_end(s, i as int));
        let tok = copy_range(v, i, e);
        let ghost before = params@;
        params.push(tok);
        proof {
            assert(token_end(ps, i - a) == e - a);
            assert(ps.subrange(i - a, e - a) =~= v@.subrange(i as int, e as int));
            assert(Seq::new(params@.len(), |k: int| params@[k]@) =~= Seq::new(before.len(), |k: int| before[k]@).push(tok@));
            assert(param_tokens(ps, i - a) == seq![ps.subrange(i - a, e - a)] + param_tokens(ps, e - a));
        }
        i = e;
    }
    proof {
        assert(param_tokens(ps, close - a) =~= Seq::<Seq<char>>::empty());
    }
    params
}

/// Split a prototype descriptor such as `(ILjava/lang/String;[J)V` into its
/// parameter descriptors and its return descriptor.
pub fn parse_proto(proto: &str) -> (r: (Vec<String>, String))
    ensures
        Seq::new(r.0@.len(), |k: int| r.0@[k]@) == proto_parts(proto@).0,
        r.1@ == proto_parts(proto@).1,
{
    let v = chars_of(proto);
    let (mut a, b) = trim_bounds(&v);
    let ghost t = v@.subrange(a as int, b as int);
    if a < b && v[a] == '(' {
        a = a + 1;
    }
    let ghost rest = v@.subrange(a as int, b as int);
    proof {
        if t.len() > 0 && t[0] == '(' {
            assert(rest =~= t.drop_first());
        } else {
            assert(rest =~= t);
        }
    }
    let close = find_close(&v, a, b);
    if close == b {
        let mut ret = String::new();
        push_char(&mut ret, 'V');
        let params: Vec<String> = Vec::new();
        assert(ret@ =~= seq!['V']);
        assert(Seq::new(params@.len(), |k: int| params@[k]@) =~= Seq::<Seq<char>>::empty());
        return (params, ret);
    }
    assert(v@.subrange(a as int, close as int) =~= rest.subrange(0, close - a));
    assert(v@.subrange(close + 1, b as int) =~= rest.subrange(close - a + 1, rest.len() as int));
    let ret = copy_range(&v, close + 1, b);
    let params = split_params(&v, a, close);
    (params, ret)
}

/// Token ends computed on the whole text agree with those computed on its part.
proof fn lemma_shift_tokens(v: Seq<char>, a: int, close: int, i: int)
    requires
        0 <= a <= i < close <= v.len(),
    ensures
        token_end(v.subrange(a, close), i - a) + a == token_end(v.subrange(0, close), i),
{
    let ps = v.subrange(a, close);
    let s = v.subrange(0, close);
    assert forall|k: int| 0 <= k < ps.len() implies ps[k] == s[k + a] by {}
    lemma_class_name_end_shift(ps, s, a, i - a + 1);
    if ps[i - a] == '[' {
        lemma_brackets_end_shift(ps, s, a, i - a + 1);
        lemma_brackets_end(ps, i - a + 1);
        let j = brackets_end(ps, i - a + 1);
        if j < ps.len() {
            lemma_class_name_end_shift(ps, s, a, j + 1);
        }
    }
}

proof fn lemma_class_name_end_shift(ps: Seq<char>, s: Seq<char>, a: int, k: int)
    requires
        0 <= a,
        s.len() == ps.len() + a,
        forall|x: int| 0 <= x < ps.len() ==> ps[x] == s[x + a],
        0 <= k <= ps.len(),
    ensures
        class_name_end(ps, k) + a == class_name_end(s, k + a),
    decreases ps.len() - k,
{
    if k < ps.len() && ps[k] != ';' {
        lemma_class_name_end_shift(ps, s, a, k + 1);
    }
}

proof fn lemma_brackets_end_shift(ps: Seq<char>, s: Seq<char>, a: int, k: int)
    requires
        0 <= a,
        s.len() == ps.len() + a,
        forall|x: int| 0 <= x < ps.len() ==> ps[x] == s[x + a],
        0 <= k <= ps.len(),
    ensures
        brackets_end(ps, k) + a == brackets_end(s, k + a),
    decreases ps.len() - k,
{
    if k < ps.len() && ps[k] == '[' {
        lemma_brackets_end_shift(ps, s, a, k + 1);
    }
}

/// The shorty character of a descriptor (`I`, `L` for classes and arrays of them, `V`
/// for an empty one).
pub fn shorty_char(descriptor: &str) -> (r: char)
    ensures
        r == shorty_of(descriptor@),
{
    let v = chars_of(descriptor);
    assert(v@.subrange(0, v@.len() as int) =~= v@);
    let j = brackets_end_exec(&v, 0, v.len());
    if j < v.len() {
        v[j]
    } else {
        'V'
    }
}

/// The shorty descriptor of a prototype with these parameters and return type.
pub fn make_shorty(params: &[String], ret: &str) -> (r: String)
    ensures
        r@ == spec_shorty(Seq::new(params@.len(), |k: int| params@[k]@), ret@),
{
    let ghost ps = Seq::new(params@.len(), |k: int| params@[k]@);
    let mut s = String::new();
    push_char(&mut s, shorty_char(ret));
    let mut i: usize = 0;
    while i < params.len()
        invariant
            i <= params@.len(),
            ps == Seq::new(params@.len(), |k: int| params@[k]@),
            s@ == seq![shorty_of(ret@)] + Seq::new(i as nat, |k: int| shorty_of(ps[k])),
        decreases params@.len() - i,
    {
        push_char(&mut s, shorty_char(params[i].as_str()));
        assert(s@ =~= seq![shorty_of(ret@)] + Seq::new((i + 1) as nat, |k: int| shorty_of(ps[k])));
        i = i + 1;
    }
    assert(Seq::new(i as nat, |k: int| shorty_of(ps[k])) =~= Seq::new(ps.len(), |k: int| shorty_of(ps[k])));
    s
}

// ---------------------------------------------------------------------------
// The builder and its pools
// ---------------------------------------------------------------------------

/// The texts of a list of strings.
pub open spec fn texts(v: Seq<String>) -> Seq<Seq<char>> {
    Seq::new(v.len(), |i: int| v[i]@)
}

/// The texts of a list of string triples.
pub open spec fn triples(v: Seq<(String, String, String)>) -> Seq<(Seq<char>, Seq<char>, Seq<char>)> {
    Seq::new(v.len(), |i: int| (v[i].0@, v[i].1@, v[i].2@))
}

/// What a [`DexBuilder`] holds: its pools as sets, and its classes in the order added.
pub struct BuilderModel {
    pub strings: Set<Seq<char>>,
    pub types: Set<Seq<char>>,
    pub protos: Set<Seq<char>>,
    pub fields: Set<(Seq<char>, Seq<char>, Seq<char>)>,
    pub methods: Set<(Seq<char>, Seq<char>, Seq<char>)>,
    pub classes: Seq<BuiltClass>,
}

/// `m` with the string `t` interned.
pub open spec fn add_string(m: BuilderModel, t: Seq<char>) -> BuilderModel {
    BuilderModel { strings: m.strings.insert(t), ..m }
}

/// `m` with the type `t` (and its descriptor string) interned.
pub open spec fn add_type(m: BuilderModel, t: Seq<char>) -> BuilderModel {
    BuilderModel { strings: m.strings.insert(t), types: m.types.insert(t), ..m }
}

/// `m` with each of the types in `ts` interned.
pub open spec fn add_types(m: BuilderModel, ts: Seq<Seq<char>>) -> BuilderModel
    decreases ts.len(),
{
    if ts.len() == 0 {
        m
    } else {
        add_type(add_types(m, ts.drop_last()), ts.last())
    }
}

/// Interning types keeps the classes.
pub proof fn lemma_add_types_classes(m: BuilderModel, ts: Seq<Seq<char>>)
    ensures
        add_types(m, ts).classes == m.classes,
    decreases ts.len(),
{
    if ts.len() > 0 {
        lemma_add_types_classes(m, ts.drop_last());
    }
}

/// `m` with the prototype `p` interned: its parameter and return types, its shorty
/// descriptor, and the prototype itself.
pub open spec fn add_proto(m: BuilderModel, p: Seq<char>) -> BuilderModel {
    let (params, ret) = proto_parts(p);
    let m1 = add_type(add_types(m, params), ret);
    BuilderModel {
        strings: m1.strings.insert(spec_shorty(params, ret)),
        protos: m1.protos.insert(p),
        ..m1
    }
}

/// `m` with the field reference `class->name:typ` interned.
pub open spec fn add_field(m: BuilderModel, class: Seq<char>, name: Seq<char>, typ: Seq<char>) -> BuilderModel {
    let m1 = add_type(add_string(add_type(m, class), name), typ);
    BuilderModel { fields: m1.fields.insert((class, name, typ)), ..m1 }
}

/// `m` with the method reference `class->name proto` interned.
pub open spec fn add_method(m: BuilderModel, class: Seq<char>, name: Seq<char>, proto: Seq<char>) -> BuilderModel {
    let m1 = add_proto(add_string(add_type(m, class), name), proto);
    BuilderModel { methods: m1.methods.insert((class, name, proto)), ..m1 }
}

/// The field references of a list of fields.
pub open spec fn field_refs(fs: Seq<BuiltField>) -> Seq<(Seq<char>, Seq<char>, Seq<char>)> {
    Seq::new(fs.len(), |i: int| (fs[i].class@, fs[i].name@, fs[i].typ@))
}

/// The method references of a list of methods.
pub open spec fn method_refs(ms: Seq<BuiltMethod>) -> Seq<(Seq<char>, Seq<char>, Seq<char>)> {
    Seq::new(ms.len(), |i: int| (ms[i].class@, ms[i].name@, ms[i].proto@))
}

/// `m` with each field reference of `fs` interned.
pub open spec fn add_fields(m: BuilderModel, fs: Seq<(Seq<char>, Seq<char>, Seq<char>)>) -> BuilderModel
    decreases fs.len(),
{
    if fs.len() == 0 {
        m
    } else {
        let f = fs.last();
        add_field(add_fields(m, fs.drop_last()), f.0, f.1, f.2)
    }
}

/// `m` with each method reference of `ms` interned.
pub open spec fn add_methods(m: BuilderModel, ms: Seq<(Seq<char>, Seq<char>, Seq<char>)>) -> BuilderModel
    decreases ms.len(),
{
    if ms.len() == 0 {
        m
    } else {
        let f = ms.last();
        add_method(add_methods(m, ms.drop_last()), f.0, f.1, f.2)
    }
}

/// Interning field references keeps the classes.
pub proof fn lemma_add_fields_classes(m: BuilderModel, fs: Seq<(Seq<char>, Seq<char>, Seq<char>)>)
    ensures
        add_fields(m, fs).classes == m.classes,
    decreases fs.len(),
{
    if fs.len() > 0 {
        lemma_add_fields_classes(m, fs.drop_last());
    }
}

/// Interning method references keeps the classes.
pub proof fn lemma_add_methods_classes(m: BuilderModel, ms: Seq<(Seq<char>, Seq<char>, Seq<char>)>)
    ensures
        add_methods(m, ms).classes == m.classes,
    decreases ms.len(),
{
    if ms.len() > 0 {
        let f = ms.last();
        let m1 = add_methods(m, ms.drop_last());
        lemma_add_methods_classes(m, ms.drop_last());
        lemma_add_types_classes(add_string(add_type(m1, f.0), f.1), proto_parts(f.2).0);
    }
}

/// `m` after adding class `c`: its descriptor, superclass, interfaces and source file,
/// then each field and method reference, are interned, and the class is appended.
#[verifier::opaque]
pub open spec fn add_class_model(m: BuilderModel, c: BuiltClass) -> BuilderModel {
    let m1 = add_type(m, c.descriptor@);
    let m2 = match c.superclass {
        Some(s) => add_type(m1, s@),
        None => m1,
    };
    let m3 = add_types(m2, texts(c.interfaces@));
    let m4 = match c.source_file {
        Some(sf) => add_string(m3, sf@),
        None => m3,
    };
    let m5 = add_fields(m4, field_refs(c.static_fields@ + c.instance_fields@));
    let m6 = add_methods(m5, method_refs(c.direct_methods@ + c.virtual_methods@));
    BuilderModel { classes: m6.classes.push(c), ..m6 }
}

/// `m2` holds every string, type, prototype and member reference that `m` holds.
pub open spec fn holds_all(m: BuilderModel, m2: BuilderModel) -> bool {
    &&& m.strings.subset_of(m2.strings)
    &&& m.types.subset_of(m2.types)
    &&& m.protos.subset_of(m2.protos)
    &&& m.fields.subset_of(m2.fields)
    &&& m.methods.subset_of(m2.methods)
}

/// The parameter and return types of prototype `p`, and its shorty, are interned in `m`.
pub open spec fn proto_interned(m: BuilderModel, p: Seq<char>) -> bool {
    let (ps, r) = proto_parts(p);
    &&& forall|k: int| 0 <= k < ps.len() ==> m.types.contains(#[trigger] ps[k])
    &&& m.types.contains(r)
    &&& m.strings.contains(spec_shorty(ps, r))
}

/// Every name class `c` uses is interned in `m`.
pub open spec fn class_interned(m: BuilderModel, c: BuiltClass) -> bool {
    let frefs = field_refs(c.static_fields@ + c.instance_fields@);
    let mrefs = method_refs(c.direct_methods@ + c.virtual_methods@);
    &&& m.types.contains(c.descriptor@)
    &&& (c.superclass matches Some(s) ==> m.types.contains(s@))
    &&& forall|k: int| 0 <= k < c.interfaces@.len() ==> m.types.contains(#[trigger] c.interfaces@[k]@)
    &&& (c.source_file matches Some(f) ==> m.strings.contains(f@))
    &&& forall|k: int| 0 <= k < frefs.len() ==> m.fields.contains(#[trigger] frefs[k])
    &&& forall|k: int| 0 <= k < mrefs.len() ==> m.methods.contains(#[trigger] mrefs[k])
}

/// Every name that an interned type, prototype or member reference, or an added class,
/// uses is itself interned.
pub open spec fn names_closed(m: BuilderModel) -> bool {
    &&& forall|t: Seq<char>| #[trigger] m.types.contains(t) ==> m.strings.contains(t)
    &&& forall|p: Seq<char>| #[trigger] m.protos.contains(p) ==> proto_interned(m, p)
    &&& forall|f: (Seq<char>, Seq<char>, Seq<char>)|
        #[trigger] m.fields.contains(f) ==> m.types.contains(f.0) && m.strings.contains(f.1) && m.types.contains(f.2)
    &&& forall|x: (Seq<char>, Seq<char>, Seq<char>)|
        #[trigger] m.methods.contains(x) ==> m.types.contains(x.0) && m.strings.contains(x.1) && m.protos.contains(x.2)
    &&& forall|i: int| 0 <= i < m.classes.len() ==> class_interned(m, #[trigger] m.classes[i])
}

proof fn lemma_proto_interned_grows(m: BuilderModel, m2: BuilderModel, p: Seq<char>)
    requires
        proto_interned(m, p),
        holds_all(m, m2),
    ensures
        proto_interned(m2, p),
{
    let (ps, r) = proto_parts(p);
    assert forall|k: int| 0 <= k < ps.len() implies m2.types.contains(#[trigger] ps[k]) by {
        assert(m.types.contains(ps[k]));
    }
}

proof fn lemma_class_interned_grows(m: BuilderModel, m2: BuilderModel, c: BuiltClass)
    requires
        class_interned(m, c),
        holds_all(m, m2),
    ensures
        class_interned(m2, c),
{
    let frefs = field_refs(c.static_fields@ + c.instance_fields@);
    let mrefs = method_refs(c.direct_methods@ + c.virtual_methods@);
    assert forall|k: int| 0 <= k < c.interfaces@.len() implies m2.types.contains(#[trigger] c.interfaces@[k]@) by {
        assert(m.types.contains(c.interfaces@[k]@));
    }
    assert forall|k: int| 0 <= k < frefs.len() implies m2.fields.contains(#[trigger] frefs[k]) by {
        assert(m.fields.contains(frefs[k]));
    }
    assert forall|k: int| 0 <= k < mrefs.len() implies m2.methods.contains(#[trigger] mrefs[k]) by {
        assert(m.methods.contains(mrefs[k]));
    }
}

/// Growing a closed model by entries whose names are present keeps it closed, provided
/// the classes stay.
proof fn lemma_closed_classes_grow(m: BuilderModel, m2: BuilderModel)
    requires
        names_closed(m),
        holds_all(m, m2),
        m2.classes == m.classes,
    ensures
        forall|i: int| 0 <= i < m2.classes.len() ==> class_interned(m2, #[trigger] m2.classes[i]),
{
    assert forall|i: int| 0 <= i < m2.classes.len() implies class_interned(m2, #[trigger] m2.classes[i]) by {
        lemma_class_interned_grows(m, m2, m.classes[i]);
    }
}

proof fn lemma_add_type_closed(m: BuilderModel, t: Seq<char>)
    requires
        names_closed(m),
    ensures
        names_closed(add_type(m, t)),
        holds_all(m, add_type(m, t)),
        add_type(m, t).types.contains(t),
        add_type(m, t).classes == m.classes,
{
    let m2 = add_type(m, t);
    assert forall|p: Seq<char>| #[trigger] m2.protos.contains(p) implies proto_interned(m2, p) by {
        lemma_proto_interned_grows(m, m2, p);
    }
    lemma_closed_classes_grow(m, m2);
}

proof fn lemma_add_string_closed(m: BuilderModel, t: Seq<char>)
    requires
        names_closed(m),
    ensures
        names_closed(add_string(m, t)),
        holds_all(m, add_string(m, t)),
        add_string(m, t).strings.contains(t),
        add_string(m, t).classes == m.classes,
{
    let m2 = add_string(m, t);
    assert forall|p: Seq<char>| #[trigger] m2.protos.contains(p) implies proto_interned(m2, p) by {
        lemma_proto_interned_grows(m, m2, p);
    }
    lemma_closed_classes_grow(m, m2);
}

proof fn lemma_add_types_closed(m: BuilderModel, ts: Seq<Seq<char>>)
    requires
        names_closed(m),
    ensures
        names_closed(add_types(m, ts)),
        holds_all(m, add_types(m, ts)),
        forall|k: int| 0 <= k < ts.len() ==> add_types(m, ts).types.contains(#[trigger] ts[k]),
        add_types(m, ts).classes == m.classes,
    decreases ts.len(),
{
    if ts.len() > 0 {
        let m1 = add_types(m, ts.drop_last());
        lemma_add_types_closed(m, ts.drop_last());
        lemma_add_type_closed(m1, ts.last());
        assert forall|k: int| 0 <= k < ts.len() implies add_types(m, ts).types.contains(#[trigger] ts[k]) by {
            if k < ts.len() - 1 {
                assert(ts.drop_last()[k] == ts[k]);
            }
        }
    }
}

proof fn lemma_add_proto_closed(m: BuilderModel, p: Seq<char>)
    requires
        names_closed(m),
    ensures
        names_closed(add_proto(m, p)),
        holds_all(m, add_proto(m, p)),
        add_proto(m, p).protos.contains(p),
        add_proto(m, p).classes == m.classes,
{
    let (ps, r) = proto_parts(p);
    let m0 = add_types(m, ps);
    lemma_add_types_closed(m, ps);
    let m1 = add_type(m0, r);
    lemma_add_type_closed(m0, r);
    let m2 = add_proto(m, p);
    assert(holds_all(m1, m2));
    assert forall|q: Seq<char>| #[trigger] m2.protos.contains(q) implies proto_interned(m2, q) by {
        if q == p {
            assert forall|k: int| 0 <= k < ps.len() implies m2.types.contains(#[trigger] ps[k]) by {
                assert(m0.types.contains(ps[k]));
            }
        } else {
            lemma_proto_interned_grows(m1, m2, q);
        }
    }
    lemma_closed_classes_grow(m1, m2);
}

proof fn lemma_add_field_closed(m: BuilderModel, c: Seq<char>, n: Seq<char>, t: Seq<char>)
    requires
        names_closed(m),
    ensures
        names_closed(add_field(m, c, n, t)),
        holds_all(m, add_field(m, c, n, t)),
        add_field(m, c, n, t).fields.contains((c, n, t)),
        add_field(m, c, n, t).classes == m.classes,
{
    let a = add_type(m, c);
    lemma_add_type_closed(m, c);
    let b = add_string(a, n);
    lemma_add_string_closed(a, n);
    let m1 = add_type(b, t);
    lemma_add_type_closed(b, t);
    let m2 = add_field(m, c, n, t);
    assert forall|p: Seq<char>| #[trigger] m2.protos.contains(p) implies proto_interned(m2, p) by {
        lemma_proto_interned_grows(m1, m2, p);
    }
    lemma_closed_classes_grow(m1, m2);
}

proof fn lemma_add_method_closed(m: BuilderModel, c: Seq<char>, n: Seq<char>, p: Seq<char>)
    requires
        names_closed(m),
    ensures
        names_closed(add_method(m, c, n, p)),
        holds_all(m, add_method(m, c, n, p)),
        add_method(m, c, n, p).methods.contains((c, n, p)),
        add_method(m, c, n, p).classes == m.classes,
{
    let a = add_type(m, c);
    lemma_add_type_closed(m, c);
    let b = add_string(a, n);
    lemma_add_string_closed(a, n);
    let m1 = add_proto(b, p);
    lemma_add_proto_closed(b, p);
    let m2 = add_method(m, c, n, p);
    assert forall|q: Seq<char>| #[trigger] m2.protos.contains(q) implies proto_interned(m2, q) by {
        lemma_proto_interned_grows(m1, m2, q);
    }
    lemma_closed_classes_grow(m1, m2);
}

proof fn lemma_add_fields_closed(m: BuilderModel, fs: Seq<(Seq<char>, Seq<char>, Seq<char>)>)
    requires
        names_closed(m),
    ensures
        names_closed(add_fields(m, fs)),
        holds_all(m, add_fields(m, fs)),
        forall|k: int| 0 <= k < fs.len() ==> add_fields(m, fs).fields.contains(#[trigger] fs[k]),
        add_fields(m, fs).classes == m.classes,
    decreases fs.len(),
{
    if fs.len() > 0 {
        let m1 = add_fields(m, fs.drop_last());
        lemma_add_fields_closed(m, fs.drop_last());
        let f = fs.last();
        lemma_add_field_closed(m1, f.0, f.1, f.2);
        assert forall|k: int| 0 <= k < fs.len() implies add_fields(m, fs).fields.contains(#[trigger] fs[k]) by {
            if k < fs.len() - 1 {
                assert(fs.drop_last()[k] == fs[k]);
            }
        }
    }
}

proof fn lemma_add_methods_closed(m: BuilderModel, ms: Seq<(Seq<char>, Seq<char>, Seq<char>)>)
    requires
        names_closed(m),
    ensures
        names_closed(add_methods(m, ms)),
        holds_all(m, add_methods(m, ms)),
        forall|k: int| 0 <= k < ms.len() ==> add_methods(m, ms).methods.contains(#[trigger] ms[k]),
        add_methods(m, ms).classes == m.classes,
    decreases ms.len(),
{
    if ms.len() > 0 {
        let m1 = add_methods(m, ms.drop_last());
        lemma_add_methods_closed(m, ms.drop_last());
        let f = ms.last();
        lemma_add_method_closed(m1, f.0, f.1, f.2);
        assert forall|k: int| 0 <= k < ms.len() implies add_methods(m, ms).methods.contains(#[trigger] ms[k]) by {
            if k < ms.len() - 1 {
                assert(ms.drop_last()[k] == ms[k]);
            }
        }
    }
}

proof fn lemma_add_class_closed(m: BuilderModel, c: BuiltClass)
    requires
        names_closed(m),
    ensures
        names_closed(add_class_model(m, c)),
{
    reveal(add_class_model);
    let m1 = add_type(m, c.descriptor@);
    lemma_add_type_closed(m, c.descriptor@);
    let m2 = match c.superclass {
        Some(s) => add_type(m1, s@),
        None => m1,
    };
    match c.superclass {
        Some(s) => lemma_add_type_closed(m1, s@),
        None => {},
    }
    let ifs = texts(c.interfaces@);
    let m3 = add_types(m2, ifs);
    lemma_add_types_closed(m2, ifs);
    let m4 = match c.source_file {
        Some(sf) => add_string(m3, sf@),
        None => m3,
    };
    match c.source_file {
        Some(sf) => lemma_add_string_closed(m3, sf@),
        None => {},
    }
    let frefs = field_refs(c.static_fields@ + c.instance_fields@);
    let m5 = add_fields(m4, frefs);
    lemma_add_fields_closed(m4, frefs);
    let mrefs = method_refs(c.direct_methods@ + c.virtual_methods@);
    let m6 = add_methods(m5, mrefs);
    lemma_add_methods_closed(m5, mrefs);
    let m7 = add_class_model(m, c);
    assert(holds_all(m6, m7));
    assert(class_interned(m7, c)) by {
        assert forall|k: int| 0 <= k < c.interfaces@.len() implies m7.types.contains(#[trigger] c.interfaces@[k]@) by {
            assert(ifs[k] == c.interfaces@[k]@);
            assert(m3.types.contains(ifs[k]));
        }
        assert forall|k: int| 0 <= k < frefs.len() implies m7.fields.contains(#[trigger] frefs[k]) by {
            assert(m5.fields.contains(frefs[k]));
        }
    }
    assert forall|i: int| 0 <= i < m7.classes.len() implies class_interned(m7, #[trigger] m7.classes[i]) by {
        if i < m.classes.len() {
            assert(m7.classes[i] == m6.classes[i]);
            lemma_class_interned_grows(m6, m7, m6.classes[i]);
        }
    }
    assert forall|p: Seq<char>| #[trigger] m7.protos.contains(p) implies proto_interned(m7, p) by {
        lemma_proto_interned_grows(m6, m7, p);
    }
}

/// The pools and classes of a builder.
struct Pools {
    strings: Vec<String>,
    types: Vec<String>,
    protos: Vec<String>,
    fields: Vec<(String, String, String)>,
    methods: Vec<(String, String, String)>,
    classes: Vec<BuiltClass>,
}

impl View for Pools {
    type V = BuilderModel;

    closed spec fn view(&self) -> BuilderModel {
        BuilderModel {
            strings: texts(self.strings@).to_set(),
            types: texts(self.types@).to_set(),
            protos: texts(self.protos@).to_set(),
            fields: triples(self.fields@).to_set(),
            methods: triples(self.methods@).to_set(),
            classes: self.classes@,
        }
    }
}

/// A pool of strings and its texts agree on what they hold.
proof fn lemma_text_keys(v: Seq<String>, t: Seq<char>)
    ensures
        keys_of(v).contains(seq![t]) <==> texts(v).contains(t),
{
    if keys_of(v).contains(seq![t]) {
        let i = choose|i: int| 0 <= i < keys_of(v).len() && keys_of(v)[i] == seq![t];
        assert(seq![v[i]@][0] == seq![t][0]);
        assert(texts(v)[i] == t);
    }
    if texts(v).contains(t) {
        let i = choose|i: int| 0 <= i < texts(v).len() && texts(v)[i] == t;
        assert(keys_of(v)[i] == seq![t]);
    }
}

/// A pool of string triples and its texts agree on what they hold.
proof fn lemma_triple_keys(v: Seq<(String, String, String)>, t: (Seq<char>, Seq<char>, Seq<char>))
    ensures
        keys_of(v).contains(seq![t.0, t.1, t.2]) <==> triples(v).contains(t),
{
    if keys_of(v).contains(seq![t.0, t.1, t.2]) {
        let i = choose|i: int| 0 <= i < keys_of(v).len() && keys_of(v)[i] == seq![t.0, t.1, t.2];
        let k = seq![v[i].0@, v[i].1@, v[i].2@];
        assert(k[0] == t.0 && k[1] == t.1 && k[2] == t.2);
        assert(triples(v)[i] == t);
    }
    if triples(v).contains(t) {
        let i = choose|i: int| 0 <= i < triples(v).len() && triples(v)[i] == t;
        assert(keys_of(v)[i] =~= seq![t.0, t.1, t.2]);
    }
}

/// Add the text `s` to a sorted string pool.
fn add_text(pool: &mut Vec<String>, s: &str)
    requires
        strictly_sorted(keys_of(old(pool)@)),
    ensures
        strictly_sorted(keys_of(final(pool)@)),
        texts(final(pool)@).to_set() == texts(old(pool)@).to_set().insert(s@),
{
    let ghost before = old(pool)@;
    let x = s.to_string();
    insert_pool(pool, x);
    assert forall|t: Seq<char>| texts(pool@).to_set().contains(t) <==> texts(before).to_set().insert(s@).contains(t) by {
        lemma_text_keys(pool@, t);
        lemma_text_keys(before, t);
        if seq![t] == seq![s@] {
            assert(seq![t][0] == seq![s@][0]);
        }
    }
    assert(texts(pool@).to_set() =~= texts(before).to_set().insert(s@));
}

/// Add the triple `(a, b, c)` to a sorted pool of triples.
fn add_triple(pool: &mut Vec<(String, String, String)>, a: &str, b: &str, c: &str)
    requires
        strictly_sorted(keys_of(old(pool)@)),
    ensures
        strictly_sorted(keys_of(final(pool)@)),
        triples(final(pool)@).to_set() == triples(old(pool)@).to_set().insert((a@, b@, c@)),
{
    let ghost before = old(pool)@;
    let x = (a.to_string(), b.to_string(), c.to_string());
    insert_pool(pool, x);
    assert forall|t: (Seq<char>, Seq<char>, Seq<char>)| triples(pool@).to_set().contains(t) <==> triples(
        before,
    ).to_set().insert((a@, b@, c@)).contains(t) by {
        lemma_triple_keys(pool@, t);
        lemma_triple_keys(before, t);
        let q = seq![t.0, t.1, t.2];
        if q == seq![a@, b@, c@] {
            assert(q[0] == a@ && q[1] == b@ && q[2] == c@);
        }
    }
    assert(triples(pool@).to_set() =~= triples(before).to_set().insert((a@, b@, c@)));
}

impl Pools {
    /// Every pool strictly ascending.
    spec fn sorted(&self) -> bool {
        &&& strictly_sorted(keys_of(self.strings@))
        &&& strictly_sorted(keys_of(self.types@))
        &&& strictly_sorted(keys_of(self.protos@))
        &&& strictly_sorted(keys_of(self.fields@))
        &&& strictly_sorted(keys_of(self.methods@))
    }

    /// Empty pools.
    fn empty() -> (b: Self)
        ensures
            b.sorted(),
            b@ == (BuilderModel {
                strings: Set::empty(),
                types: Set::empty(),
                protos: Set::empty(),
                fields: Set::empty(),
                methods: Set::empty(),
                classes: Seq::empty(),
            }),
    {
        let b = Pools {
            strings: Vec::new(),
            types: Vec::new(),
            protos: Vec::new(),
            fields: Vec::new(),
            methods: Vec::new(),
            classes: Vec::new(),
        };
        assert(texts(b.strings@).to_set() =~= Set::empty());
        assert(texts(b.types@).to_set() =~= Set::empty());
        assert(texts(b.protos@).to_set() =~= Set::empty());
        assert(triples(b.fields@).to_set() =~= Set::empty());
        assert(triples(b.methods@).to_set() =~= Set::empty());
        b
    }

    /// Intern a string.
    fn intern_string(&mut self, s: &str)
        requires
            old(self).sorted(),
        ensures
            final(self).sorted(),
            final(self)@ == add_string(old(self)@, s@),
    {
        add_text(&mut self.strings, s);
    }

    /// Intern a type descriptor (and its string).
    fn intern_type(&mut self, descriptor: &str)
        requires
            old(self).sorted(),
        ensures
            final(self).sorted(),
            final(self)@ == add_type(old(self)@, descriptor@),
    {
        self.intern_string(descriptor);
        add_text(&mut self.types, descriptor);
    }

    /// Intern a prototype such as `(I)V`: its parameter and return types, its shorty
    /// descriptor, and the prototype itself.
    fn intern_proto(&mut self, proto: &str)
        requires
            old(self).sorted(),
        ensures
            final(self).sorted(),
            final(self)@ == add_proto(old(self)@, proto@),
            final(self)@.classes == old(self)@.classes,
    {
        proof {
            lemma_add_types_classes(self@, proto_parts(proto@).0);
        }
        let ghost m0 = self@;
        let (params, ret) = parse_proto(proto);
        let ghost ps = texts(params@);
        assert(ps == proto_parts(proto@).0);
        let mut i: usize = 0;
        assert(ps.take(0) =~= Seq::<Seq<char>>::empty());
        while i < params.len()
            invariant
                self.sorted(),
                i <= params@.len(),
                ps == texts(params@),
                self@ == add_types(m0, ps.take(i as int)),
            decreases params@.len() - i,
        {
            self.intern_type(params[i].as_str());
            assert(ps.take(i + 1).drop_last() =~= ps.take(i as int));
            i = i + 1;
        }
        assert(ps.take(i as int) =~= ps);
        self.intern_type(ret.as_str());
        let shorty = make_shorty(params.as_slice(), ret.as_str());
        self.intern_string(shorty.as_str());
        add_text(&mut self.protos, proto);
    }

    /// Intern the field reference `class->name:typ`.
    fn intern_field_ref(&mut self, class: &str, name: &str, typ: &str)
        requires
            old(self).sorted(),
        ensures
            final(self).sorted(),
            final(self)@ == add_field(old(self)@, class@, name@, typ@),
    {
        self.intern_type(class);
        self.intern_string(name);
        self.intern_type(typ);
        add_triple(&mut self.fields, class, name, typ);
    }

    /// Intern the method reference `class->name proto`.
    fn intern_method_ref(&mut self, class: &str, name: &str, proto: &str)
        requires
            old(self).sorted(),
        ensures
            final(self).sorted(),
            final(self)@ == add_method(old(self)@, class@, name@, proto@),
            final(self)@.classes == old(self)@.classes,
    {
        self.intern_type(class);
        self.intern_string(name);
        self.intern_proto(proto);
        add_triple(&mut self.methods, class, name, proto);
    }

    /// Add a class: intern everything it names, then keep it for [`DexBuilder::finish`].
    fn add_class(&mut self, class: BuiltClass)
        requires
            old(self).sorted(),
        ensures
            final(self).sorted(),
            final(self)@ == add_class_model(old(self)@, class),
            final(self)@.classes == old(self)@.classes.push(class),
    {
        let ghost m0 = self@;
        self.intern_type(class.descriptor.as_str());
        match &class.superclass {
            Some(s) => self.intern_type(s.as_str()),
            None => {},
        }
        let ghost m2 = self@;
        let ghost ifs = texts(class.interfaces@);
        let mut i: usize = 0;
        assert(ifs.take(0) =~= Seq::<Seq<char>>::empty());
        while i < class.interfaces.len()
            invariant
                self.sorted(),
                i <= class.interfaces@.len(),
                ifs == texts(class.interfaces@),
                self@ == add_types(m2, ifs.take(i as int)),
            decreases class.interfaces@.len() - i,
        {
            self.intern_type(class.interfaces[i].as_str());
            assert(ifs.take(i + 1).drop_last() =~= ifs.take(i as int));
            i = i + 1;
        }
        assert(ifs.take(i as int) =~= ifs);
        match &class.source_file {
            Some(sf) => self.intern_string(sf.as_str()),
            None => {},
        }
        let ghost m4 = self@;
        let ghost frefs = field_refs(class.static_fields@ + class.instance_fields@);
        let ns = class.static_fields.len();
        let mut j: usize = 0;
        assert(frefs.take(0) =~= Seq::<(Seq<char>, Seq<char>, Seq<char>)>::empty());
        while j < ns
            invariant
                self.sorted(),
                j <= ns == class.static_fields@.len(),
                frefs == field_refs(class.static_fields@ + class.instance_fields@),
                self@ == add_fields(m4, frefs.take(j as int)),
            decreases ns - j,
        {
            let f = &class.static_fields[j];
            self.intern_field_ref(f.class.as_str(), f.name.as_str(), f.typ.as_str());
            assert(frefs.take(j + 1).drop_last() =~= frefs.take(j as int));
            j = j + 1;
        }
        let mut j2: usize = 0;
        while j2 < class.instance_fields.len()
            invariant
                self.sorted(),
                j2 <= class.instance_fields@.len(),
                ns == class.static_fields@.len(),
                frefs == field_refs(class.static_fields@ + class.instance_fields@),
                self@ == add_fields(m4, frefs.take(ns + j2)),
            decreases class.instance_fields@.len() - j2,
        {
            let f = &class.instance_fields[j2];
            self.intern_field_ref(f.class.as_str(), f.name.as_str(), f.typ.as_str());
            assert(frefs.take(ns + j2 + 1).drop_last() =~= frefs.take(ns + j2));
            j2 = j2 + 1;
        }
        assert(frefs.take(ns + j2) =~= frefs);
        let ghost m5 = self@;
        let ghost mrefs = method_refs(class.direct_methods@ + class.virtual_methods@);
        let nd = class.direct_methods.len();
        let mut k: usize = 0;
        assert(mrefs.take(0) =~= Seq::<(Seq<char>, Seq<char>, Seq<char>)>::empty());
        while k < nd
            invariant
                self.sorted(),
                k <= nd == class.direct_methods@.len(),
                mrefs == method_refs(class.direct_methods@ + class.virtual_methods@),
                self@ == add_methods(m5, mrefs.take(k as int)),
            decreases nd - k,
        {
            let m = &class.direct_methods[k];
            self.intern_method_ref(m.class.as_str(), m.name.as_str(), m.proto.as_str());
            assert(mrefs.take(k + 1).drop_last() =~= mrefs.take(k as int));
            k = k + 1;
        }
        let mut k2: usize = 0;
        while k2 < class.virtual_methods.len()
            invariant
                self.sorted(),
                k2 <= class.virtual_methods@.len(),
                nd == class.direct_methods@.len(),
                mrefs == method_refs(class.direct_methods@ + class.virtual_methods@),
                self@ == add_methods(m5, mrefs.take(nd + k2)),
            decreases class.virtual_methods@.len() - k2,
        {
            let m = &class.virtual_methods[k2];
            self.intern_method_ref(m.class.as_str(), m.name.as_str(), m.proto.as_str());
            assert(mrefs.take(nd + k2 + 1).drop_last() =~= mrefs.take(nd + k2));
            k2 = k2 + 1;
        }
        assert(mrefs.take(nd + k2) =~= mrefs);
        proof {
            reveal(add_class_model);
            lemma_add_types_classes(m2, ifs);
            lemma_add_fields_classes(m4, frefs);
            lemma_add_methods_classes(m5, mrefs);
        }
        self.classes.push(class);
    }
} // impl Pools

/// Incrementally builds a DEX file.
pub struct DexBuilder {
    inner: Pools,
}

impl View for DexBuilder {
    type V = BuilderModel;

    closed spec fn view(&self) -> BuilderModel {
        self.inner@
    }
}

impl DexBuilder {
    /// Every pool strictly ascending, and every name that an interned entry or an
    /// added class uses interned too.
    #[verifier::type_invariant]
    closed spec fn builder_wf(&self) -> bool {
        self.inner.sorted() && names_closed(self.inner@)
    }

    /// An empty builder.
    pub fn new() -> (b: Self)
        ensures
            b@ == (BuilderModel {
                strings: Set::empty(),
                types: Set::empty(),
                protos: Set::empty(),
                fields: Set::empty(),
                methods: Set::empty(),
                classes: Seq::empty(),
            }),
    {
        let inner = Pools::empty();
        DexBuilder { inner }
    }

    /// Intern a string.
    pub fn intern_string(&mut self, s: &str)
        ensures
            final(self)@ == add_string(old(self)@, s@),
    {
        proof {
            use_type_invariant(&*self);
            lemma_add_string_closed(self@, s@);
        }
        let mut inner = Pools::empty();
        std::mem::swap(&mut inner, &mut self.inner);
        inner.intern_string(s);
        self.inner = inner;
    }

    /// Intern a type descriptor (and its string).
    pub fn intern_type(&mut self, descriptor: &str)
        ensures
            final(self)@ == add_type(old(self)@, descriptor@),
    {
        proof {
            use_type_invariant(&*self);
            lemma_add_type_closed(self@, descriptor@);
        }
        let mut inner = Pools::empty();
        std::mem::swap(&mut inner, &mut self.inner);
        inner.intern_type(descriptor);
        self.inner = inner;
    }

    /// Intern a prototype such as `(I)V`: its parameter and return types, its shorty
    /// descriptor, and the prototype itself.
    pub fn intern_proto(&mut self, proto: &str)
        ensures
            final(self)@ == add_proto(old(self)@, proto@),
            final(self)@.classes == old(self)@.classes,
    {
        proof {
            use_type_invariant(&*self);
            lemma_add_proto_closed(self@, proto@);
        }
        let mut inner = Pools::empty();
        std::mem::swap(&mut inner, &mut self.inner);
        inner.intern_proto(proto);
        self.inner = inner;
    }

    /// Intern the field reference `class->name:typ`.
    pub fn intern_field_ref(&mut self, class: &str, name: &str, typ: &str)
        ensures
            final(self)@ == add_field(old(self)@, class@, name@, typ@),
    {
        proof {
            use_type_invariant(&*self);
            lemma_add_field_closed(self@, class@, name@, typ@);
        }
        let mut inner = Pools::empty();
        std::mem::swap(&mut inner, &mut self.inner);
        inner.intern_field_ref(class, name, typ);
        self.inner = inner;
    }

    /// Intern the method reference `class->name proto`.
    pub fn intern_method_ref(&mut self, class: &str, name: &str, proto: &str)
        ensures
            final(self)@ == add_method(old(self)@, class@, name@, proto@),
            final(self)@.classes == old(self)@.classes,
    {
        proof {
            use_type_invariant(&*self);
            lemma_add_method_closed(self@, class@, name@, proto@);
        }
        let mut inner = Pools::empty();
        std::mem::swap(&mut inner, &mut self.inner);
        inner.intern_method_ref(class, name, proto);
        self.inner = inner;
    }

    /// Add a class: intern everything it names, then keep it for [`DexBuilder::finish`].
    pub fn add_class(&mut self, class: BuiltClass)
        ensures
            final(self)@ == add_class_model(old(self)@, class),
            final(self)@.classes == old(self)@.classes.push(class),
    {
        proof {
            use_type_invariant(&*self);
            lemma_add_class_closed(self@, class);
        }
        let mut inner = Pools::empty();
        std::mem::swap(&mut inner, &mut self.inner);
        inner.add_class(class);
        self.inner = inner;
    }
} // impl DexBuilder

// ---------------------------------------------------------------------------
// Pool index maps
// ---------------------------------------------------------------------------

/// Where text `t` stands in `list`.
pub open spec fn text_index(list: Seq<Seq<char>>, t: Seq<char>) -> Option<int> {
    if list.contains(t) {
        Some(list.index_of(t))
    } else {
        None
    }
}

/// The id of text `t`: `ids` at its place in `list`.
pub open spec fn text_id(list: Seq<Seq<char>>, ids: Seq<usize>, t: Seq<char>) -> Option<int> {
    match text_index(list, t) {
        Some(i) => Some(ids[i] as int),
        None => None,
    }
}

/// Where triple `t` stands in `list`.
pub open spec fn triple_index(
    list: Seq<(Seq<char>, Seq<char>, Seq<char>)>,
    t: (Seq<char>, Seq<char>, Seq<char>),
) -> Option<int> {
    if list.contains(t) {
        Some(list.index_of(t))
    } else {
        None
    }
}

/// An id as a `u32`, or `d` when there is none.
pub open spec fn id_or(o: Option<int>, d: u32) -> u32 {
    match o {
        Some(i) => i as u32,
        None => d,
    }
}

/// Sort keys of the types: the string id of each descriptor.
pub open spec fn type_keys(strings: Seq<Seq<char>>, types: Seq<Seq<char>>) -> Seq<Seq<u32>> {
    Seq::new(types.len(), |i: int| seq![id_or(text_index(strings, types[i]), 0xffff_ffff)])
}

/// Sort key of a prototype: the type id of its return type, then of each parameter.
pub open spec fn proto_key(types: Seq<Seq<char>>, tids: Seq<usize>, p: Seq<char>) -> Seq<u32> {
    let (ps, r) = proto_parts(p);
    seq![id_or(text_id(types, tids, r), 0)] + Seq::new(ps.len(), |k: int| id_or(text_id(types, tids, ps[k]), 0))
}

/// Sort keys of the prototypes.
pub open spec fn proto_keys(types: Seq<Seq<char>>, tids: Seq<usize>, protos: Seq<Seq<char>>) -> Seq<Seq<u32>> {
    Seq::new(protos.len(), |i: int| proto_key(types, tids, protos[i]))
}

/// Sort keys of the field references: class type id, name string id, type id.
pub open spec fn field_keys(
    strings: Seq<Seq<char>>,
    types: Seq<Seq<char>>,
    tids: Seq<usize>,
    fields: Seq<(Seq<char>, Seq<char>, Seq<char>)>,
) -> Seq<Seq<u32>> {
    Seq::new(
        fields.len(),
        |i: int|
            seq![
                id_or(text_id(types, tids, fields[i].0), 0),
                id_or(text_index(strings, fields[i].1), 0),
                id_or(text_id(types, tids, fields[i].2), 0),
            ],
    )
}

/// Sort keys of the method references: class type id, name string id, proto id.
pub open spec fn method_keys(
    strings: Seq<Seq<char>>,
    types: Seq<Seq<char>>,
    tids: Seq<usize>,
    protos: Seq<Seq<char>>,
    pids: Seq<usize>,
    methods: Seq<(Seq<char>, Seq<char>, Seq<char>)>,
) -> Seq<Seq<u32>> {
    Seq::new(
        methods.len(),
        |i: int|
            seq![
                id_or(text_id(types, tids, methods[i].0), 0),
                id_or(text_index(strings, methods[i].1), 0),
                id_or(text_id(protos, pids, methods[i].2), 0),
            ],
    )
}

/// `ids` gives each entry its place in `order`.
pub open spec fn are_places(order: Seq<usize>, ids: Seq<usize>) -> bool {
    &&& ids.len() == order.len()
    &&& forall|i: int| 0 <= i < ids.len() ==> #[trigger] ids[i] < order.len() && order[ids[i] as int] == i
}

/// Index maps produced after sorting pools: the pools in their text order, and for
/// each pool but the strings the order of its ids.
pub struct PoolMaps {
    strings: Vec<String>,
    types: Vec<String>,
    type_order: Vec<usize>,
    type_ids: Vec<usize>,
    protos: Vec<String>,
    proto_order: Vec<usize>,
    proto_ids: Vec<usize>,
    fields: Vec<(String, String, String)>,
    field_order: Vec<usize>,
    field_ids: Vec<usize>,
    methods: Vec<(String, String, String)>,
    method_order: Vec<usize>,
    method_ids: Vec<usize>,
}

/// A strictly sorted pool of strings holds each text once.
proof fn lemma_text_pool_distinct(v: Seq<String>)
    requires
        strictly_sorted(keys_of(v)),
    ensures
        texts(v).no_duplicates(),
{
    assert forall|i: int, j: int| 0 <= i < texts(v).len() && 0 <= j < texts(v).len() && i != j implies texts(v)[i]
        != texts(v)[j] by {
        let k = keys_of(v);
        if i < j {
            assert(keys_lt_pair(k, i, j));
        } else {
            assert(keys_lt_pair(k, j, i));
        }
        lemma_keys_lt_irreflexive(k[i]);
        lemma_keys_lt_irreflexive(k[j]);
        if texts(v)[i] == texts(v)[j] {
            assert(k[i] =~= k[j]);
        }
    }
}

/// A strictly sorted pool of triples holds each triple once.
proof fn lemma_triple_pool_distinct(v: Seq<(String, String, String)>)
    requires
        strictly_sorted(keys_of(v)),
    ensures
        triples(v).no_duplicates(),
{
    assert forall|i: int, j: int| 0 <= i < triples(v).len() && 0 <= j < triples(v).len() && i != j implies triples(
        v,
    )[i] != triples(v)[j] by {
        let k = keys_of(v);
        if i < j {
            assert(keys_lt_pair(k, i, j));
        } else {
            assert(keys_lt_pair(k, j, i));
        }
        lemma_keys_lt_irreflexive(k[i]);
        lemma_keys_lt_irreflexive(k[j]);
        if triples(v)[i] == triples(v)[j] {
            assert(k[i] =~= k[j]);
        }
    }
}

/// Entries `i < j` of a strictly sorted key list are in order.
spec fn keys_lt_pair(k: Seq<Seq<Seq<char>>>, i: int, j: int) -> bool {
    crate::dex::pools::keys_lt(k[i], k[j])
}

/// The place of text `t` in a strictly sorted pool of strings.
fn find_text(pool: &Vec<String>, t: &str) -> (r: Option<usize>)
    requires
        strictly_sorted(keys_of(pool@)),
    ensures
        match r {
            Some(i) => text_index(texts(pool@), t@) == Some(i as int) && i < pool@.len(),
            None => text_index(texts(pool@), t@) is None,
        },
{
    let x = t.to_string();
    let (found, at) = search_pool(pool, &x);
    proof {
        lemma_text_pool_distinct(pool@);
    }
    if found {
        assert(seq![pool@[at as int]@][0] == seq![t@][0]);
        assert(texts(pool@)[at as int] == t@);
        Some(at)
    } else {
        assert forall|i: int| 0 <= i < pool@.len() implies texts(pool@)[i] != t@ by {
            lemma_keys_lt_irreflexive(seq![t@]);
            if texts(pool@)[i] == t@ {
                assert(pool@[i].key() =~= seq![t@]);
            }
        }
        None
    }
}

/// The place of triple `(a, b, c)` in a strictly sorted pool of triples.
fn find_triple(pool: &Vec<(String, String, String)>, a: &str, b: &str, c: &str) -> (r: Option<usize>)
    requires
        strictly_sorted(keys_of(pool@)),
    ensures
        match r {
            Some(i) => triple_index(triples(pool@), (a@, b@, c@)) == Some(i as int) && i < pool@.len(),
            None => triple_index(triples(pool@), (a@, b@, c@)) is None,
        },
{
    let x = (a.to_string(), b.to_string(), c.to_string());
    let (found, at) = search_pool(pool, &x);
    proof {
        lemma_triple_pool_distinct(pool@);
    }
    if found {
        let ghost q = pool@[at as int].key();
        assert(q[0] == a@ && q[1] == b@ && q[2] == c@);
        assert(triples(pool@)[at as int] == (a@, b@, c@));
        Some(at)
    } else {
        assert forall|i: int| 0 <= i < pool@.len() implies triples(pool@)[i] != (a@, b@, c@) by {
            lemma_keys_lt_irreflexive(x.key());
            if triples(pool@)[i] == (a@, b@, c@) {
                assert(pool@[i].key() =~= x.key());
            }
        }
        None
    }
}

/// A copy of a list of strings.
fn copy_strings(v: &Vec<String>) -> (r: Vec<String>)
    ensures
        r@ == v@,
{
    let mut out: Vec<String> = Vec::new();
    let mut i: usize = 0;
    while i < v.len()
        invariant
            i <= v@.len(),
            out@ == v@.subrange(0, i as int),
        decreases v@.len() - i,
    {
        out.push(v[i].clone());
        assert(out@ =~= v@.subrange(0, i + 1));
        i = i + 1;
    }
    assert(out@ =~= v@);
    out
}

/// A copy of a list of string triples.
fn copy_triples(v: &Vec<(String, String, String)>) -> (r: Vec<(String, String, String)>)
    ensures
        r@ == v@,
{
    let mut out: Vec<(String, String, String)> = Vec::new();
    let mut i: usize = 0;
    while i < v.len()
        invariant
            i <= v@.len(),
            out@ == v@.subrange(0, i as int),
        decreases v@.len() - i,
    {
        let t = &v[i];
        out.push((t.0.clone(), t.1.clone(), t.2.clone()));
        assert(out@ =~= v@.subrange(0, i + 1));
        i = i + 1;
    }
    assert(out@ =~= v@);
    out
}

/// Ascending code-point order of texts.
pub open spec fn ascending(list: Seq<Seq<char>>) -> bool {
    forall|i: int, j: int| 0 <= i < j < list.len() ==> text_lt(#[trigger] list[i], #[trigger] list[j])
}

/// Ascending tuple order of string triples.
pub open spec fn ascending_triples(list: Seq<(Seq<char>, Seq<char>, Seq<char>)>) -> bool {
    forall|i: int, j: int|
        0 <= i < j < list.len() ==> crate::dex::pools::keys_lt(
            seq![(#[trigger] list[i]).0, list[i].1, list[i].2],
            seq![(#[trigger] list[j]).0, list[j].1, list[j].2],
        )
}

proof fn lemma_ascending_texts(v: Seq<String>)
    requires
        strictly_sorted(keys_of(v)),
    ensures
        ascending(texts(v)),
{
    assert forall|i: int, j: int| 0 <= i < j < texts(v).len() implies text_lt(
        #[trigger] texts(v)[i],
        #[trigger] texts(v)[j],
    ) by {
        let k = keys_of(v);
        assert(keys_lt_pair(k, i, j));
        if v[i]@ == v[j]@ {
            assert(k[i] =~= k[j]);
            lemma_keys_lt_irreflexive(k[i]);
        }
        assert(k[i][0] == v[i]@);
    }
}

proof fn lemma_ascending_triples(v: Seq<(String, String, String)>)
    requires
        strictly_sorted(keys_of(v)),
    ensures
        ascending_triples(triples(v)),
{
    assert forall|i: int, j: int| 0 <= i < j < triples(v).len() implies crate::dex::pools::keys_lt(
        seq![(#[trigger] triples(v)[i]).0, triples(v)[i].1, triples(v)[i].2],
        seq![(#[trigger] triples(v)[j]).0, triples(v)[j].1, triples(v)[j].2],
    ) by {
        let k = keys_of(v);
        assert(keys_lt_pair(k, i, j));
        assert(k[i] =~= seq![triples(v)[i].0, triples(v)[i].1, triples(v)[i].2]);
        assert(k[j] =~= seq![triples(v)[j].0, triples(v)[j].1, triples(v)[j].2]);
    }
}

/// The id of text `t` in a pool with ids, or 0.
fn id_or0(pool: &Vec<String>, ids: &Vec<usize>, t: &str) -> (r: u32)
    requires
        strictly_sorted(keys_of(pool@)),
        ids@.len() == pool@.len(),
    ensures
        r == id_or(text_id(texts(pool@), ids@, t@), 0),
{
    match find_text(pool, t) {
        Some(p) => ids[p] as u32,
        None => 0,
    }
}

/// The `Parse` error for a name that no pool holds.
fn missing(what: &str, name: &str) -> (e: DexError)
    ensures
        e matches DexError::Parse(m) && m@ == what@ + name@,
{
    let mut m = what.to_string();
    push_str(&mut m, name);
    DexError::Parse(m)
}

/// The `Parse` error for a member reference that no pool holds: `what`, the class, `->`,
/// the name, `sep` and the type or prototype.
fn missing_member(what: &str, c: &str, n: &str, sep: &str, t: &str) -> (e: DexError)
    ensures
        e matches DexError::Parse(m) && m@ == what@ + c@ + "->"@ + n@ + sep@ + t@,
{
    let mut m = what.to_string();
    push_str(&mut m, c);
    push_str(&mut m, "->");
    push_str(&mut m, n);
    push_str(&mut m, sep);
    push_str(&mut m, t);
    DexError::Parse(m)
}

impl PoolMaps {
    /// Pools sorted, and the id orders and places consistent.
    #[verifier::type_invariant]
    closed spec fn maps_wf(&self) -> bool {
        &&& strictly_sorted(keys_of(self.strings@))
        &&& strictly_sorted(keys_of(self.types@))
        &&& strictly_sorted(keys_of(self.protos@))
        &&& strictly_sorted(keys_of(self.fields@))
        &&& strictly_sorted(keys_of(self.methods@))
        &&& self.ids_consistent()
    }

    /// The strings; a string's id is its place here.
    pub closed spec fn string_list(&self) -> Seq<Seq<char>> {
        texts(self.strings@)
    }

    /// The type descriptors in text order.
    pub closed spec fn type_list(&self) -> Seq<Seq<char>> {
        texts(self.types@)
    }

    /// The places of [`PoolMaps::type_list`] in type id order.
    pub closed spec fn type_order(&self) -> Seq<usize> {
        self.type_order@
    }

    /// The type id of each entry of [`PoolMaps::type_list`].
    pub closed spec fn type_ids(&self) -> Seq<usize> {
        self.type_ids@
    }

    /// The prototypes in text order.
    pub closed spec fn proto_list(&self) -> Seq<Seq<char>> {
        texts(self.protos@)
    }

    /// The places of [`PoolMaps::proto_list`] in proto id order.
    pub closed spec fn proto_order(&self) -> Seq<usize> {
        self.proto_order@
    }

    /// The proto id of each entry of [`PoolMaps::proto_list`].
    pub closed spec fn proto_ids(&self) -> Seq<usize> {
        self.proto_ids@
    }

    /// The field references in text order.
    pub closed spec fn field_list(&self) -> Seq<(Seq<char>, Seq<char>, Seq<char>)> {
        triples(self.fields@)
    }

    /// The places of [`PoolMaps::field_list`] in field id order.
    pub closed spec fn field_order(&self) -> Seq<usize> {
        self.field_order@
    }

    /// The field id of each entry of [`PoolMaps::field_list`].
    pub closed spec fn field_ids(&self) -> Seq<usize> {
        self.field_ids@
    }

    /// The method references in text order.
    pub closed spec fn method_list(&self) -> Seq<(Seq<char>, Seq<char>, Seq<char>)> {
        triples(self.methods@)
    }

    /// The places of [`PoolMaps::method_list`] in method id order.
    pub closed spec fn method_order(&self) -> Seq<usize> {
        self.method_order@
    }

    /// The method id of each entry of [`PoolMaps::method_list`].
    pub closed spec fn method_ids(&self) -> Seq<usize> {
        self.method_ids@
    }

    /// Each id order is the stable sort of its pool by the keys the DEX format sorts it
    /// by, and each id list gives every entry its place in that order.
    pub open spec fn ids_consistent(&self) -> bool {
        &&& is_stable_order(type_keys(self.string_list(), self.type_list()), self.type_order())
        &&& are_places(self.type_order(), self.type_ids())
        &&& is_stable_order(proto_keys(self.type_list(), self.type_ids(), self.proto_list()), self.proto_order())
        &&& are_places(self.proto_order(), self.proto_ids())
        &&& is_stable_order(
            field_keys(self.string_list(), self.type_list(), self.type_ids(), self.field_list()),
            self.field_order(),
        )
        &&& are_places(self.field_order(), self.field_ids())
        &&& is_stable_order(
            method_keys(
                self.string_list(),
                self.type_list(),
                self.type_ids(),
                self.proto_list(),
                self.proto_ids(),
                self.method_list(),
            ),
            self.method_order(),
        )
        &&& are_places(self.method_order(), self.method_ids())
    }

    /// The id of string `s`.
    pub fn string(&self, s: &str) -> (r: Result<u32>)
        ensures
            match text_index(self.string_list(), s@) {
                Some(i) => r == Ok::<u32, DexError>(i as u32),
                None => r is Err && r->Err_0 is Parse,
            },
    {
        proof {
            use_type_invariant(self);
        }
        match find_text(&self.strings, s) {
            Some(i) => Ok(i as u32),
            None => Err(missing("missing string: ", s)),
        }
    }

    /// The id of type `s`.
    pub fn ty(&self, s: &str) -> (r: Result<u32>)
        ensures
            match text_id(self.type_list(), self.type_ids(), s@) {
                Some(i) => r == Ok::<u32, DexError>(i as u32),
                None => r is Err && r->Err_0 is Parse,
            },
    {
        proof {
            use_type_invariant(self);
        }
        match find_text(&self.types, s) {
            Some(i) => Ok(self.type_ids[i] as u32),
            None => Err(missing("missing type: ", s)),
        }
    }

    /// The id of prototype `s`.
    pub fn proto(&self, s: &str) -> (r: Result<u32>)
        ensures
            match text_id(self.proto_list(), self.proto_ids(), s@) {
                Some(i) => r == Ok::<u32, DexError>(i as u32),
                None => r is Err && r->Err_0 is Parse,
            },
    {
        proof {
            use_type_invariant(self);
        }
        match find_text(&self.protos, s) {
            Some(i) => Ok(self.proto_ids[i] as u32),
            None => Err(missing("missing proto: ", s)),
        }
    }

    /// The id of field reference `c->n:t`.
    pub fn field(&self, c: &str, n: &str, t: &str) -> (r: Result<u32>)
        ensures
            match triple_index(self.field_list(), (c@, n@, t@)) {
                Some(i) => r == Ok::<u32, DexError>(self.field_ids()[i] as u32),
                None => r is Err && r->Err_0 is Parse,
            },
    {
        proof {
            use_type_invariant(self);
        }
        match find_triple(&self.fields, c, n, t) {
            Some(i) => Ok(self.field_ids[i] as u32),
            None => Err(missing_member("missing field: ", c, n, ":", t)),
        }
    }

    /// The id of method reference `c->n p`.
    pub fn method(&self, c: &str, n: &str, p: &str) -> (r: Result<u32>)
        ensures
            match triple_index(self.method_list(), (c@, n@, p@)) {
                Some(i) => r == Ok::<u32, DexError>(self.method_ids()[i] as u32),
                None => r is Err && r->Err_0 is Parse,
            },
    {
        proof {
            use_type_invariant(self);
        }
        match find_triple(&self.methods, c, n, p) {
            Some(i) => Ok(self.method_ids[i] as u32),
            None => Err(missing_member("missing method: ", c, n, "", p)),
        }
    }
}

/// The sort key of prototype `p`.
fn proto_key_of(types: &Vec<String>, tids: &Vec<usize>, p: &str) -> (k: Vec<u32>)
    requires
        strictly_sorted(keys_of(types@)),
        tids@.len() == types@.len(),
    ensures
        k@ == proto_key(texts(types@), tids@, p@),
{
    let (params, ret) = parse_proto(p);
    let ghost ps = proto_parts(p@).0;
    let ghost tl = texts(types@);
    let mut k: Vec<u32> = Vec::new();
    k.push(id_or0(types, tids, ret.as_str()));
    let mut i: usize = 0;
    while i < params.len()
        invariant
            i <= params@.len() == ps.len(),
            texts(params@) == ps,
            strictly_sorted(keys_of(types@)),
            tids@.len() == types@.len(),
            tl == texts(types@),
            k@ == seq![id_or(text_id(tl, tids@, proto_parts(p@).1), 0)] + Seq::new(
                i as nat,
                |x: int| id_or(text_id(tl, tids@, ps[x]), 0),
            ),
        decreases params@.len() - i,
    {
        assert(params@[i as int]@ == ps[i as int]);
        k.push(id_or0(types, tids, params[i].as_str()));
        assert(k@ =~= seq![id_or(text_id(tl, tids@, proto_parts(p@).1), 0)] + Seq::new(
            (i + 1) as nat,
            |x: int| id_or(text_id(tl, tids@, ps[x]), 0),
        ));
        i = i + 1;
    }
    k
}

/// The sort keys of the types: the string id of each.
fn type_keys_of(strings: &Vec<String>, types: &Vec<String>) -> (keys: Vec<Vec<u32>>)
    requires
        strictly_sorted(keys_of(strings@)),
    ensures
        key_views(keys@) == type_keys(texts(strings@), texts(types@)),
{
    let mut keys: Vec<Vec<u32>> = Vec::new();
    let mut i: usize = 0;
    while i < types.len()
        invariant
            i <= types@.len(),
            strictly_sorted(keys_of(strings@)),
            keys@.len() == i,
            forall|j: int| 0 <= j < i ==> (#[trigger] keys@[j])@ == type_keys(texts(strings@), texts(types@))[j],
        decreases types@.len() - i,
    {
        let k = match find_text(strings, types[i].as_str()) {
            Some(p) => p as u32,
            None => 0xffff_ffffu32,
        };
        let mut kv: Vec<u32> = Vec::new();
        kv.push(k);
        assert(kv@ =~= seq![k]);
        keys.push(kv);
        i = i + 1;
    }
    assert(key_views(keys@) =~= type_keys(texts(strings@), texts(types@)));
    keys
}

/// The sort keys of the prototypes.
fn proto_keys_of(types: &Vec<String>, tids: &Vec<usize>, protos: &Vec<String>) -> (keys: Vec<Vec<u32>>)
    requires
        strictly_sorted(keys_of(types@)),
        tids@.len() == types@.len(),
    ensures
        key_views(keys@) == proto_keys(texts(types@), tids@, texts(protos@)),
{
    let mut keys: Vec<Vec<u32>> = Vec::new();
    let mut i: usize = 0;
    while i < protos.len()
        invariant
            i <= protos@.len(),
            strictly_sorted(keys_of(types@)),
            tids@.len() == types@.len(),
            keys@.len() == i,
            forall|j: int| 0 <= j < i ==> (#[trigger] keys@[j])@ == proto_keys(texts(types@), tids@, texts(protos@))[j],
        decreases protos@.len() - i,
    {
        let kv = proto_key_of(types, tids, protos[i].as_str());
        keys.push(kv);
        i = i + 1;
    }
    assert(key_views(keys@) =~= proto_keys(texts(types@), tids@, texts(protos@)));
    keys
}

/// The sort keys of the field references.
fn field_keys_of(strings: &Vec<String>, types: &Vec<String>, tids: &Vec<usize>, fields: &Vec<(String, String, String)>) -> (keys: Vec<Vec<u32>>)
    requires
        strictly_sorted(keys_of(strings@)),
        strictly_sorted(keys_of(types@)),
        tids@.len() == types@.len(),
    ensures
        key_views(keys@) == field_keys(texts(strings@), texts(types@), tids@, triples(fields@)),
{
    let ghost fk = field_keys(texts(strings@), texts(types@), tids@, triples(fields@));
    let mut keys: Vec<Vec<u32>> = Vec::new();
    let mut i: usize = 0;
    while i < fields.len()
        invariant
            i <= fields@.len(),
            strictly_sorted(keys_of(strings@)),
            strictly_sorted(keys_of(types@)),
            tids@.len() == types@.len(),
            fk == field_keys(texts(strings@), texts(types@), tids@, triples(fields@)),
            keys@.len() == i,
            forall|j: int| 0 <= j < i ==> (#[trigger] keys@[j])@ == fk[j],
        decreases fields@.len() - i,
    {
        let f = &fields[i];
        let a = id_or0(types, tids, f.0.as_str());
        let b = match find_text(strings, f.1.as_str()) {
            Some(p) => p as u32,
            None => 0,
        };
        let c = id_or0(types, tids, f.2.as_str());
        let mut kv: Vec<u32> = Vec::new();
        kv.push(a);
        kv.push(b);
        kv.push(c);
        assert(kv@ =~= fk[i as int]);
        keys.push(kv);
        i = i + 1;
    }
    assert(key_views(keys@) =~= fk);
    keys
}

/// The sort keys of the method references.
fn method_keys_of(
    strings: &Vec<String>,
    types: &Vec<String>,
    tids: &Vec<usize>,
    protos: &Vec<String>,
    pids: &Vec<usize>,
    methods: &Vec<(String, String, String)>,
) -> (keys: Vec<Vec<u32>>)
    requires
        strictly_sorted(keys_of(strings@)),
        strictly_sorted(keys_of(types@)),
        strictly_sorted(keys_of(protos@)),
        tids@.len() == types@.len(),
        pids@.len() == protos@.len(),
    ensures
        key_views(keys@) == method_keys(
            texts(strings@),
            texts(types@),
            tids@,
            texts(protos@),
            pids@,
            triples(methods@),
        ),
{
    let ghost mk = method_keys(texts(strings@), texts(types@), tids@, texts(protos@), pids@, triples(methods@));
    let mut keys: Vec<Vec<u32>> = Vec::new();
    let mut i: usize = 0;
    while i < methods.len()
        invariant
            i <= methods@.len(),
            strictly_sorted(keys_of(strings@)),
            strictly_sorted(keys_of(types@)),
            strictly_sorted(keys_of(protos@)),
            tids@.len() == types@.len(),
            pids@.len() == protos@.len(),
            mk == method_keys(texts(strings@), texts(types@), tids@, texts(protos@), pids@, triples(methods@)),
            keys@.len() == i,
            forall|j: int| 0 <= j < i ==> (#[trigger] keys@[j])@ == mk[j],
        decreases methods@.len() - i,
    {
        let m = &methods[i];
        let a = id_or0(types, tids, m.0.as_str());
        let b = match find_text(strings, m.1.as_str()) {
            Some(p) => p as u32,
            None => 0,
        };
        let c = id_or0(protos, pids, m.2.as_str());
        let mut kv: Vec<u32> = Vec::new();
        kv.push(a);
        kv.push(b);
        kv.push(c);
        assert(kv@ =~= mk[i as int]);
        keys.push(kv);
        i = i + 1;
    }
    assert(key_views(keys@) =~= mk);
    keys
}

impl DexBuilder {
    /// Snapshot of the sorted pools and their ids (for encoding before `finish`).
    pub fn pool_maps(&self) -> (maps: PoolMaps)
        ensures
            maps.string_list().to_set() == self@.strings,
            ascending(maps.string_list()),
            maps.type_list().to_set() == self@.types,
            ascending(maps.type_list()),
            maps.proto_list().to_set() == self@.protos,
            ascending(maps.proto_list()),
            maps.field_list().to_set() == self@.fields,
            ascending_triples(maps.field_list()),
            maps.method_list().to_set() == self@.methods,
            ascending_triples(maps.method_list()),
            maps.ids_consistent(),
            maps_for(maps, self@),
    {
        proof {
            use_type_invariant(self);
            lemma_ascending_texts(self.inner.strings@);
            lemma_ascending_texts(self.inner.types@);
            lemma_ascending_texts(self.inner.protos@);
            lemma_ascending_triples(self.inner.fields@);
            lemma_ascending_triples(self.inner.methods@);
        }
        let strings = copy_strings(&self.inner.strings);
        let types = copy_strings(&self.inner.types);
        let tkeys = type_keys_of(&strings, &types);
        let type_order = stable_order(&tkeys);
        let type_ids = places(&type_order);
        let protos = copy_strings(&self.inner.protos);
        let pkeys = proto_keys_of(&types, &type_ids, &protos);
        let proto_order = stable_order(&pkeys);
        let proto_ids = places(&proto_order);
        let fields = copy_triples(&self.inner.fields);
        let fkeys = field_keys_of(&strings, &types, &type_ids, &fields);
        let field_order = stable_order(&fkeys);
        let field_ids = places(&field_order);
        let methods = copy_triples(&self.inner.methods);
        let mkeys = method_keys_of(&strings, &types, &type_ids, &protos, &proto_ids, &methods);
        let method_order = stable_order(&mkeys);
        let method_ids = places(&method_order);
        let maps = PoolMaps {
            strings,
            types,
            type_order,
            type_ids,
            protos,
            proto_order,
            proto_ids,
            fields,
            field_order,
            field_ids,
            methods,
            method_order,
            method_ids,
        };
        proof {
            reveal(maps_for);
        }
        maps
    }
}

// ---------------------------------------------------------------------------
// Code items
// ---------------------------------------------------------------------------

/// The parts of `parts` one after another.
pub open spec fn concat_bytes(parts: Seq<Seq<u8>>) -> Seq<u8>
    decreases parts.len(),
{
    if parts.len() == 0 {
        Seq::empty()
    } else {
        concat_bytes(parts.drop_last()) + parts.last()
    }
}

/// The two little-endian bytes of `v`.
pub open spec fn u16_le_bytes(v: u16) -> Seq<u8> {
    seq![(v % 256) as u8, (v / 256) as u8]
}

/// Typed handler pairs: type index, then address, each as uleb128.
pub open spec fn pairs_bytes(hs: Seq<(u32, u32)>) -> Seq<u8> {
    concat_bytes(Seq::new(hs.len(), |k: int| uleb_encode(hs[k].0 as nat) + uleb_encode(hs[k].1 as nat)))
}

/// The `size` field of a catch handler: the number of typed handlers, negated when
/// there is a catch-all.
pub open spec fn handler_size(t: BuiltTry) -> i32 {
    let typed = t.handlers@.len() as i32;
    if t.catch_all is Some {
        (-(typed as int)) as i32
    } else {
        typed
    }
}

/// One `encoded_catch_handler`.
pub open spec fn handler_bytes(t: BuiltTry) -> Seq<u8> {
    sleb_encode(handler_size(t) as int) + pairs_bytes(t.handlers@) + match t.catch_all {
        Some(a) => uleb_encode(a as nat),
        None => Seq::empty(),
    }
}

/// The catch handlers of the first `k` tries.
pub open spec fn handlers_upto(tries: Seq<BuiltTry>, k: int) -> Seq<u8> {
    concat_bytes(Seq::new(k as nat, |j: int| handler_bytes(tries[j])))
}

/// The offset of try `k`'s handler from the start of the handler list.
pub open spec fn handler_off(tries: Seq<BuiltTry>, k: int) -> u16 {
    (uleb_encode(tries.len()) + handlers_upto(tries, k)).len() as u16
}

/// One `try_item`.
pub open spec fn try_entry(t: BuiltTry, off: u16) -> Seq<u8> {
    u32_le_bytes(t.start_unit) + u16_le_bytes(t.insn_count) + u16_le_bytes(off)
}

/// The `try_item` table.
pub open spec fn try_table(tries: Seq<BuiltTry>) -> Seq<u8> {
    concat_bytes(Seq::new(tries.len(), |k: int| try_entry(tries[k], handler_off(tries, k))))
}

/// The fixed header of a `code_item` followed by its instructions.
pub open spec fn code_head(code: BuiltCode, debug_off: u32) -> Seq<u8> {
    u16_le_bytes(code.registers_size) + u16_le_bytes(code.ins_size) + u16_le_bytes(code.outs_size)
        + u16_le_bytes(code.tries@.len() as u16) + u32_le_bytes(debug_off) + u32_le_bytes(
        (code.insns@.len() / 2) as u32,
    ) + code.insns@
}

/// The part of a `code_item` after its instructions: nothing without tries, else
/// padding to 4 bytes, the try table, and the handlers.
pub open spec fn code_tail(code: BuiltCode) -> Seq<u8> {
    let tries = code.tries@;
    if tries.len() as u16 == 0 {
        Seq::empty()
    } else {
        let pad = if ((code.insns@.len() / 2) as u32) % 2 == 1 {
            seq![0u8, 0u8]
        } else {
            Seq::empty()
        };
        pad + try_table(tries) + uleb_encode(tries.len()) + handlers_upto(tries, tries.len() as int)
    }
}

/// A `code_item` for `code` whose debug info is at `debug_off`.
pub open spec fn code_item_bytes(code: BuiltCode, debug_off: u32) -> Seq<u8> {
    code_head(code, debug_off) + code_tail(code)
}

fn append(out: &mut Vec<u8>, bytes: Vec<u8>)
    ensures
        final(out)@ == old(out)@ + bytes@,
{
    let mut b = bytes;
    out.append(&mut b);
}

fn push_u16(out: &mut Vec<u8>, v: u16)
    ensures
        final(out)@ == old(out)@ + u16_le_bytes(v),
{
    out.push((v % 256) as u8);
    out.push((v / 256) as u8);
    assert(out@ =~= old(out)@ + u16_le_bytes(v));
}

fn push_u32(out: &mut Vec<u8>, v: u32)
    ensures
        final(out)@ == old(out)@ + u32_le_bytes(v),
{
    out.push((v % 256) as u8);
    out.push(((v / 256) % 256) as u8);
    out.push(((v / 65536) % 256) as u8);
    out.push((v / 16777216) as u8);
    assert(out@ =~= old(out)@ + u32_le_bytes(v));
}

fn append_slice(out: &mut Vec<u8>, bytes: &[u8])
    ensures
        final(out)@ == old(out)@ + bytes@,
{
    let mut i: usize = 0;
    let ghost start = out@;
    while i < bytes.len()
        invariant
            i <= bytes@.len(),
            out@ == start + bytes@.subrange(0, i as int),
        decreases bytes@.len() - i,
    {
        out.push(bytes[i]);
        assert(out@ =~= start + bytes@.subrange(0, i + 1));
        i = i + 1;
    }
    assert(bytes@.subrange(0, i as int) =~= bytes@);
}

/// One `encoded_catch_handler`.
fn write_handler(out: &mut Vec<u8>, t: &BuiltTry)
    ensures
        final(out)@ == old(out)@ + handler_bytes(*t),
{
    let typed = t.handlers.len() as i32;
    let size: i32 = match t.catch_all {
        Some(_) => (-(typed as i64)) as i32,
        None => typed,
    };
    assert(size == handler_size(*t));
    append(out, write_sleb128(size));
    let ghost mid = out@;
    let ghost hs = t.handlers@;
    let mut k: usize = 0;
    while k < t.handlers.len()
        invariant
            k <= hs.len(),
            hs == t.handlers@,
            out@ == mid + concat_bytes(
                Seq::new(k as nat, |x: int| uleb_encode(hs[x].0 as nat) + uleb_encode(hs[x].1 as nat)),
            ),
        decreases hs.len() - k,
    {
        let (ty, addr) = t.handlers[k];
        append(out, write_uleb128(ty));
        append(out, write_uleb128(addr));
        let ghost f = |x: int| uleb_encode(hs[x].0 as nat) + uleb_encode(hs[x].1 as nat);
        assert(Seq::new((k + 1) as nat, f).drop_last() =~= Seq::new(k as nat, f));
        assert(out@ =~= mid + concat_bytes(Seq::new((k + 1) as nat, f)));
        k = k + 1;
    }
    assert(Seq::new(k as nat, |x: int| uleb_encode(hs[x].0 as nat) + uleb_encode(hs[x].1 as nat)) =~= Seq::new(
        hs.len(),
        |x: int| uleb_encode(hs[x].0 as nat) + uleb_encode(hs[x].1 as nat),
    ));
    match t.catch_all {
        Some(a) => append(out, write_uleb128(a)),
        None => {},
    }
    assert(out@ =~= old(out)@ + handler_bytes(*t));
}

/// The handler list of `tries` (its size, then each handler) and where each handler starts.
fn build_handlers(tries: &Vec<BuiltTry>) -> (r: (Vec<u8>, Vec<u16>))
    requires
        tries@.len() <= 0xffff,
    ensures
        r.0@ == uleb_encode(tries@.len()) + handlers_upto(tries@, tries@.len() as int),
        r.1@.len() == tries@.len(),
        forall|j: int| 0 <= j < tries@.len() ==> #[trigger] r.1@[j] == handler_off(tries@, j),
{
    let mut handlers = write_uleb128(tries.len() as u32);
    let ghost head = handlers@;
    let mut offs: Vec<u16> = Vec::new();
    let mut k: usize = 0;
    assert(handlers_upto(tries@, 0) =~= Seq::<u8>::empty());
    assert(handlers@ =~= head + handlers_upto(tries@, 0));
    while k < tries.len()
        invariant
            k <= tries@.len() <= 0xffff,
            head == uleb_encode(tries@.len()),
            handlers@ == head + handlers_upto(tries@, k as int),
            offs@.len() == k,
            forall|j: int| 0 <= j < k ==> #[trigger] offs@[j] == handler_off(tries@, j),
        decreases tries@.len() - k,
    {
        offs.push(handlers.len() as u16);
        write_handler(&mut handlers, &tries[k]);
        let ghost f = |j: int| handler_bytes(tries@[j]);
        assert(Seq::new((k + 1) as nat, f).drop_last() =~= Seq::new(k as nat, f));
        assert(handlers@ =~= head + handlers_upto(tries@, k + 1));
        k = k + 1;
    }
    (handlers, offs)
}

/// Append the `try_item` table of `tries`.
fn write_try_table(data: &mut Vec<u8>, tries: &Vec<BuiltTry>, offs: &Vec<u16>)
    requires
        offs@.len() == tries@.len(),
        forall|j: int| 0 <= j < tries@.len() ==> #[trigger] offs@[j] == handler_off(tries@, j),
    ensures
        final(data)@ == old(data)@ + try_table(tries@),
{
    let ghost start = data@;
    let mut i: usize = 0;
    while i < tries.len()
        invariant
            i <= tries@.len(),
            offs@.len() == tries@.len(),
            forall|j: int| 0 <= j < tries@.len() ==> #[trigger] offs@[j] == handler_off(tries@, j),
            data@ == start + concat_bytes(
                Seq::new(i as nat, |j: int| try_entry(tries@[j], handler_off(tries@, j))),
            ),
        decreases tries@.len() - i,
    {
        let t = &tries[i];
        push_u32(data, t.start_unit);
        push_u16(data, t.insn_count);
        push_u16(data, offs[i]);
        let ghost f = |j: int| try_entry(tries@[j], handler_off(tries@, j));
        assert(Seq::new((i + 1) as nat, f).drop_last() =~= Seq::new(i as nat, f));
        assert(data@ =~= start + concat_bytes(Seq::new((i + 1) as nat, f)));
        i = i + 1;
    }
}

fn write_code_head(data: &mut Vec<u8>, code: &BuiltCode, debug_off: u32)
    ensures
        final(data)@ == old(data)@ + code_head(*code, debug_off),
{
    let insns_size = (code.insns.len() / 2) as u32;
    let tries_size = code.tries.len() as u16;
    push_u16(data, code.registers_size);
    push_u16(data, code.ins_size);
    push_u16(data, code.outs_size);
    push_u16(data, tries_size);
    push_u32(data, debug_off);
    push_u32(data, insns_size);
    append_slice(data, code.insns.as_slice());
    assert(data@ =~= old(data)@ + code_head(*code, debug_off));
}

fn write_code_tail(data: &mut Vec<u8>, code: &BuiltCode)
    requires
        code.tries@.len() <= 0xffff,
    ensures
        final(data)@ == old(data)@ + code_tail(*code),
{
    let insns_size = (code.insns.len() / 2) as u32;
    if code.tries.len() == 0 {
        assert(data@ =~= old(data)@ + code_tail(*code));
        return ;
    }
    if insns_size % 2 == 1 {
        data.push(0);
        data.push(0);
    }
    let ghost at_table = data@;
    let (handlers, offs) = build_handlers(&code.tries);
    write_try_table(data, &code.tries, &offs);
    append(data, handlers);
    assert(data@ =~= old(data)@ + code_tail(*code));
}

/// Append the `code_item` for `code`; `Parse` when its instruction bytes are odd in number.
fn write_code_item(data: &mut Vec<u8>, code: &BuiltCode, debug_off: u32) -> (r: Result<()>)
    requires
        code.tries@.len() <= 0xffff,
    ensures
        code.insns@.len() % 2 != 0 ==> r is Err && r->Err_0 is Parse && final(data)@ == old(data)@,
        code.insns@.len() % 2 == 0 ==> r is Ok && final(data)@ == old(data)@ + code_item_bytes(*code, debug_off),
{
    if code.insns.len() % 2 != 0 {
        return Err(parse_error("insns length must be even"));
    }
    write_code_head(data, code, debug_off);
    write_code_tail(data, code);
    assert(data@ =~= old(data)@ + code_item_bytes(*code, debug_off));
    Ok(())
}

// ---------------------------------------------------------------------------
// Strings and debug info
// ---------------------------------------------------------------------------

/// The builder's MUTF-8 bytes for one code point: one byte for 1..=0x7f, two up to
/// 0x7ff (and for NUL), three otherwise, keeping only the low 16 bits.
pub open spec fn builder_mutf8_char(cp: u32) -> Seq<u8> {
    if cp != 0 && cp <= 0x7f {
        seq![cp as u8]
    } else if cp <= 0x7ff {
        seq![(0xc0 + cp / 64) as u8, (0x80 + cp % 64) as u8]
    } else {
        mutf8_unit3((cp % 0x10000) as int)
    }
}

/// The builder's MUTF-8 bytes for a text.
pub open spec fn builder_mutf8(s: Seq<char>) -> Seq<u8>
    decreases s.len(),
{
    if s.len() == 0 {
        Seq::empty()
    } else {
        builder_mutf8(s.drop_last()) + builder_mutf8_char(s.last() as u32)
    }
}

/// For Basic Multilingual Plane text the builder's bytes are standard MUTF-8.
proof fn lemma_builder_mutf8_standard(s: Seq<char>)
    requires
        forall|i: int| 0 <= i < s.len() ==> (s[i] as u32) <= 0xffff,
    ensures
        builder_mutf8(s) == crate::dex::strings::spec_encode_mutf8(s),
    decreases s.len(),
{
    if s.len() > 0 {
        lemma_builder_mutf8_standard(s.drop_last());
        let cp = s.last() as u32;
        assert(cp % 0x10000 == cp);
    }
}

/// The builder's MUTF-8 bytes of Basic Multilingual Plane text decode back to the text
/// and hold no NUL byte, so a `string_data_item` ends at its terminator.
pub proof fn builder_mutf8_roundtrip(s: Seq<char>)
    requires
        forall|i: int| 0 <= i < s.len() ==> (s[i] as u32) <= 0xffff,
    ensures
        crate::dex::strings::spec_decode_mutf8(builder_mutf8(s)) == Some(s),
        forall|i: int| 0 <= i < builder_mutf8(s).len() ==> builder_mutf8(s)[i] != 0,
{
    lemma_builder_mutf8_standard(s);
    crate::dex::strings::mutf8_roundtrip(s);
    lemma_builder_mutf8_nonzero(s);
}

/// No byte of the builder's MUTF-8 is NUL.
proof fn lemma_builder_mutf8_nonzero(s: Seq<char>)
    ensures
        forall|i: int| 0 <= i < builder_mutf8(s).len() ==> builder_mutf8(s)[i] != 0,
    decreases s.len(),
{
    if s.len() > 0 {
        lemma_builder_mutf8_nonzero(s.drop_last());
        let cp = s.last() as u32;
        let a = builder_mutf8(s.drop_last());
        let b = builder_mutf8_char(cp);
        assert forall|i: int| 0 <= i < b.len() implies b[i] != 0 by {
            if cp != 0 && cp <= 0x7f {
            } else if cp <= 0x7ff {
                assert(0xc0 + cp / 64 < 256);
            } else {
                let v = (cp % 0x10000) as int;
                assert(v / 4096 < 16);
                assert((v / 64) % 64 < 64);
                assert(v % 64 < 64);
            }
        }
        assert forall|i: int| 0 <= i < builder_mutf8(s).len() implies builder_mutf8(s)[i] != 0 by {
            if i < a.len() {
                assert(builder_mutf8(s)[i] == a[i]);
            } else {
                assert(builder_mutf8(s)[i] == b[i - a.len()]);
            }
        }
    }
}

/// The number of UTF-16 code units of a text.
pub open spec fn utf16_units(s: Seq<char>) -> nat
    decreases s.len(),
{
    if s.len() == 0 {
        0
    } else {
        utf16_units(s.drop_last()) + if (s.last() as u32) > 0xffff {
            2nat
        } else {
            1nat
        }
    }
}

/// MUTF-8 bytes of `s` as the builder writes them.
pub fn encode_mutf8(s: &str) -> (out: Vec<u8>)
    ensures
        out@ == builder_mutf8(s@),
{
    let v = chars_of(s);
    let mut out: Vec<u8> = Vec::new();
    let mut i: usize = 0;
    assert(v@.take(0) =~= Seq::<char>::empty());
    while i < v.len()
        invariant
            i <= v@.len(),
            v@ == s@,
            out@ == builder_mutf8(v@.take(i as int)),
        decreases v@.len() - i,
    {
        let cp = v[i] as u32;
        if cp != 0 && cp <= 0x7f {
            out.push(cp as u8);
        } else if cp <= 0x7ff {
            out.push((0xc0 + cp / 64) as u8);
            out.push((0x80 + cp % 64) as u8);
        } else {
            let w = cp % 0x10000;
            out.push((0xe0 + w / 4096) as u8);
            out.push((0x80 + (w / 64) % 64) as u8);
            out.push((0x80 + w % 64) as u8);
        }
        assert(v@.take(i + 1).drop_last() =~= v@.take(i as int));
        assert(out@ =~= builder_mutf8(v@.take(i + 1)));
        i = i + 1;
    }
    assert(v@.take(i as int) =~= v@);
    out
}

/// The number of UTF-16 code units of `s`, as a `u32`.
fn utf16_len(s: &str) -> (n: u32)
    ensures
        n == utf16_units(s@) as u32,
{
    let v = chars_of(s);
    let mut n: u128 = 0;
    let mut i: usize = 0;
    assert(v@.take(0) =~= Seq::<char>::empty());
    while i < v.len()
        invariant
            i <= v@.len(),
            v@ == s@,
            n == utf16_units(v@.take(i as int)),
            n <= 2 * i,
        decreases v@.len() - i,
    {
        assert(v@.take(i + 1).drop_last() =~= v@.take(i as int));
        if (v[i] as u32) > 0xffff {
            n = n + 2;
        } else {
            n = n + 1;
        }
        i = i + 1;
    }
    assert(v@.take(i as int) =~= v@);
    #[verifier::truncate]
    (n as u32)
}

/// One step of [`build_simple_debug`] from address `addr` and line `line`: the bytes,
/// then the new address and line.
pub open spec fn simple_step(op: (u32, u32), addr: u32, line: i32) -> (Seq<u8>, u32, i32) {
    let (a, l) = op;
    let adv: Seq<u8> = if a > addr {
        seq![0x01u8] + uleb_encode((a - addr) as nat)
    } else {
        Seq::empty()
    };
    let addr2: u32 = if a > addr {
        a
    } else {
        addr
    };
    let dl = ((l as i32) - line) as i32;
    let lines: Seq<u8> = if dl != 0 {
        seq![0x02u8] + sleb_encode(dl as int)
    } else {
        Seq::empty()
    };
    let line2: i32 = if dl != 0 {
        l as i32
    } else {
        line
    };
    (adv + lines + seq![0x0au8], addr2, line2)
}

/// The position opcodes of [`build_simple_debug`] for `ops`, from `addr` and `line`.
pub open spec fn simple_body(ops: Seq<(u32, u32)>, addr: u32, line: i32) -> Seq<u8>
    decreases ops.len(),
{
    if ops.len() == 0 {
        Seq::empty()
    } else {
        let (b, a2, l2) = simple_step(ops[0], addr, line);
        b + simple_body(ops.drop_first(), a2, l2)
    }
}

/// Build a minimal debug_info_item with only line numbers: for each `(address, line)`
/// an address advance when it moves forward, a line advance when it changes, and a
/// position entry; then the end of the sequence.
pub fn build_simple_debug(line_start: u32, line_ops: &[(u32, u32)]) -> (out: Vec<u8>)
    ensures
        out@ == uleb_encode(line_start as nat) + uleb_encode(0) + simple_body(line_ops@, 0, line_start as i32)
            + seq![0x00u8],
{
    let mut out = write_uleb128(line_start);
    append(&mut out, write_uleb128(0));
    let ghost start = out@;
    let mut addr: u32 = 0;
    let mut line: i32 = line_start as i32;
    let mut i: usize = 0;
    assert(line_ops@.skip(0) =~= line_ops@);
    while i < line_ops.len()
        invariant
            i <= line_ops@.len(),
            start + simple_body(line_ops@, 0, line_start as i32) == out@ + simple_body(
                line_ops@.skip(i as int),
                addr,
                line,
            ),
        decreases line_ops@.len() - i,
    {
        let ghost rest = line_ops@.skip(i as int);
        let ghost before = out@;
        let (a, l) = line_ops[i];
        let ghost st = simple_step((a, l), addr, line);
        if a > addr {
            out.push(0x01);
            append(&mut out, write_uleb128(a - addr));
            addr = a;
        }
        let dl = ((l as i32) as i64 - line as i64) as i32;
        if dl != 0 {
            out.push(0x02);
            append(&mut out, write_sleb128(dl));
            line = l as i32;
        }
        out.push(0x0a);
        proof {
            assert(rest[0] == (a, l));
            assert(rest.drop_first() =~= line_ops@.skip(i + 1));
            assert(out@ =~= before + st.0);
            assert(addr == st.1 && line == st.2);
        }
        i = i + 1;
    }
    assert(line_ops@.skip(i as int) =~= Seq::<(u32, u32)>::empty());
    out.push(0x00);
    out
}

/// One high-level debug directive for [`build_debug_info`].
#[derive(Clone, Debug)]
pub enum DebugBuilderOp {
    /// `.line N` at the current address.
    Line(u32),
    /// `.local vN "name" Type;`
    StartLocal { reg: u32, name_idx: u32, type_idx: u32 },
    Prologue,
    Epilogue,
}

/// uleb128p1 bytes of `v`.
pub open spec fn p1_encode(v: i32) -> Seq<u8> {
    uleb_encode(((v as int + 1) % 0x1_0000_0000) as nat)
}

/// One directive of [`build_debug_info`] at line `line`: its bytes and the new line.
pub open spec fn debug_step(op: DebugBuilderOp, line: i32) -> (Seq<u8>, i32) {
    match op {
        DebugBuilderOp::Line(n) => {
            let dl = ((n as i32) - line) as i32;
            if dl != 0 {
                (seq![0x02u8] + sleb_encode(dl as int) + seq![0x0au8], n as i32)
            } else {
                (seq![0x0au8], line)
            }
        },
        DebugBuilderOp::StartLocal { reg, name_idx, type_idx } => (
            seq![0x03u8] + uleb_encode(reg as nat) + p1_encode(name_idx as i32) + p1_encode(type_idx as i32),
            line,
        ),
        DebugBuilderOp::Prologue => (seq![0x07u8], line),
        DebugBuilderOp::Epilogue => (seq![0x08u8], line),
    }
}

/// The directives of [`build_debug_info`] from line `line`.
pub open spec fn debug_body(ops: Seq<DebugBuilderOp>, line: i32) -> Seq<u8>
    decreases ops.len(),
{
    if ops.len() == 0 {
        Seq::empty()
    } else {
        let (b, l2) = debug_step(ops[0], line);
        b + debug_body(ops.drop_first(), l2)
    }
}

/// The parameter names of [`build_debug_info`]: uleb128p1 of each index, -1 for none.
pub open spec fn param_names_bytes(names: Seq<Option<u32>>) -> Seq<u8> {
    concat_bytes(
        Seq::new(
            names.len(),
            |k: int|
                match names[k] {
                    Some(idx) => p1_encode(idx as i32),
                    None => p1_encode(-1i32),
                },
        ),
    )
}

/// Richer debug_info_item: the start line (at least 1), the parameter names, then
/// line, local, prologue and epilogue directives, then the end of the sequence.
pub fn build_debug_info(line_start: u32, param_name_idxs: &[Option<u32>], ops: &[DebugBuilderOp]) -> (out: Vec<u8>)
    ensures
        ({
            let ls: u32 = if line_start >= 1 {
                line_start
            } else {
                1
            };
            out@ == uleb_encode(ls as nat) + uleb_encode(param_name_idxs@.len() as u32 as nat)
                + param_names_bytes(param_name_idxs@) + debug_body(ops@, ls as i32) + seq![0x00u8]
        }),
{
    let ls: u32 = if line_start >= 1 {
        line_start
    } else {
        1
    };
    let mut out = write_uleb128(ls);
    append(&mut out, write_uleb128(param_name_idxs.len() as u32));
    let ghost at_names = out@;
    let ghost names = param_name_idxs@;
    let mut k: usize = 0;
    while k < param_name_idxs.len()
        invariant
            k <= names.len(),
            names == param_name_idxs@,
            out@ == at_names + concat_bytes(
                Seq::new(
                    k as nat,
                    |x: int|
                        match names[x] {
                            Some(idx) => p1_encode(idx as i32),
                            None => p1_encode(-1i32),
                        },
                ),
            ),
        decreases names.len() - k,
    {
        match param_name_idxs[k] {
            Some(idx) => append(&mut out, write_uleb128p1(idx as i32)),
            None => append(&mut out, write_uleb128p1(-1)),
        }
        let ghost f = |x: int|
            match names[x] {
                Some(idx) => p1_encode(idx as i32),
                None => p1_encode(-1i32),
            };
        assert(Seq::new((k + 1) as nat, f).drop_last() =~= Seq::new(k as nat, f));
        assert(out@ =~= at_names + concat_bytes(Seq::new((k + 1) as nat, f)));
        k = k + 1;
    }
    let ghost start = out@;
    let mut line: i32 = ls as i32;
    let mut i: usize = 0;
    assert(ops@.skip(0) =~= ops@);
    while i < ops.len()
        invariant
            i <= ops@.len(),
            start + debug_body(ops@, ls as i32) == out@ + debug_body(ops@.skip(i as int), line),
        decreases ops@.len() - i,
    {
        let ghost rest = ops@.skip(i as int);
        let ghost before = out@;
        let ghost st = debug_step(ops@[i as int], line);
        match &ops[i] {
            DebugBuilderOp::Line(n) => {
                let dl = ((*n as i32) as i64 - line as i64) as i32;
                if dl != 0 {
                    out.push(0x02);
                    append(&mut out, write_sleb128(dl));
                    line = *n as i32;
                }
                out.push(0x0a);
            },
            DebugBuilderOp::StartLocal { reg, name_idx, type_idx } => {
                out.push(0x03);
                append(&mut out, write_uleb128(*reg));
                append(&mut out, write_uleb128p1(*name_idx as i32));
                append(&mut out, write_uleb128p1(*type_idx as i32));
            },
            DebugBuilderOp::Prologue => out.push(0x07),
            DebugBuilderOp::Epilogue => out.push(0x08),
        }
        proof {
            assert(rest[0] == ops@[i as int]);
            assert(rest.drop_first() =~= ops@.skip(i + 1));
            assert(out@ =~= before + st.0);
        }
        i = i + 1;
    }
    assert(ops@.skip(i as int) =~= Seq::<DebugBuilderOp>::empty());
    out.push(0x00);
    out
}

// ---------------------------------------------------------------------------
// Emitting the data section
// ---------------------------------------------------------------------------

/// The pools of `maps` as sets, with the classes `cs`.
pub open spec fn maps_model(maps: PoolMaps, cs: Seq<BuiltClass>) -> BuilderModel {
    BuilderModel {
        strings: maps.string_list().to_set(),
        types: maps.type_list().to_set(),
        protos: maps.proto_list().to_set(),
        fields: maps.field_list().to_set(),
        methods: maps.method_list().to_set(),
        classes: cs,
    }
}

/// Every name class `c` uses is in the pools of `maps`.
pub open spec fn class_listed(maps: PoolMaps, c: BuiltClass) -> bool {
    class_interned(maps_model(maps, Seq::empty()), c)
}

/// A closed model over the pools of `maps` is closed without its classes too, and lists
/// the names of each class.
proof fn lemma_closed_parts(maps: PoolMaps, cs: Seq<BuiltClass>)
    requires
        names_closed(maps_model(maps, cs)),
    ensures
        names_closed(maps_model(maps, Seq::empty())),
        forall|i: int| 0 <= i < cs.len() ==> class_listed(maps, #[trigger] cs[i]),
{
    let m = maps_model(maps, cs);
    let e = maps_model(maps, Seq::empty());
    assert(e.strings == m.strings && e.types == m.types && e.protos == m.protos && e.fields == m.fields
        && e.methods == m.methods);
    assert forall|p: Seq<char>| #[trigger] e.protos.contains(p) implies proto_interned(e, p) by {
        assert(m.protos.contains(p));
        assert(proto_interned(m, p));
    }
    assert forall|i: int| 0 <= i < cs.len() implies class_listed(maps, #[trigger] cs[i]) by {
        assert(m.classes[i] == cs[i]);
        assert(class_interned(m, cs[i]));
        lemma_class_interned_grows(m, e, cs[i]);
    }
}

/// Every method body of `ms` has an even number of instruction bytes.
pub open spec fn methods_even(ms: Seq<BuiltMethod>) -> bool {
    forall|k: int| 0 <= k < ms.len() ==> ((#[trigger] ms[k]).code matches Some(c) ==> c.insns@.len() % 2 == 0)
}

/// Every method body of `ms` has at most 0xffff try blocks.
pub open spec fn methods_fit(ms: Seq<BuiltMethod>) -> bool {
    forall|k: int| 0 <= k < ms.len() ==> ((#[trigger] ms[k]).code matches Some(c) ==> c.tries@.len() <= 0xffff)
}

/// Every method body of every class has an even number of instruction bytes.
pub open spec fn classes_even(cs: Seq<BuiltClass>) -> bool {
    forall|i: int|
        0 <= i < cs.len() ==> methods_even((#[trigger] cs[i]).direct_methods@) && methods_even(
            cs[i].virtual_methods@,
        )
}

/// Every method body of every class has at most 0xffff try blocks.
pub open spec fn classes_fit(cs: Seq<BuiltClass>) -> bool {
    forall|i: int|
        0 <= i < cs.len() ==> methods_fit((#[trigger] cs[i]).direct_methods@) && methods_fit(
            cs[i].virtual_methods@,
        )
}

fn align4(data: &mut Vec<u8>)
    ensures
        final(data)@.len() % 4 == 0,
        old(data)@.len() <= final(data)@.len() <= old(data)@.len() + 3,
        final(data)@ == old(data)@ + zero_pad(old(data)@.len() as int),
{
    while data.len() % 4 != 0
        invariant
            old(data)@.len() <= data@.len() <= old(data)@.len() + 3,
            data@.len() % 4 != 0 ==> data@.len() + (4 - data@.len() % 4) <= old(data)@.len() + 3,
            data@ == old(data)@ + Seq::new((data@.len() - old(data)@.len()) as nat, |_i: int| 0u8),
            data@.len() % 4 == 0 || (data@.len() - old(data)@.len() + (4 - data@.len() % 4)) == (4 - old(data)@.len() % 4) % 4,
        decreases old(data)@.len() + 3 - data@.len(),
    {
        let ghost before = data@;
        data.push(0);
        assert(data@ =~= old(data)@ + Seq::new((data@.len() - old(data)@.len()) as nat, |_i: int| 0u8));
    }
    assert(data@.len() - old(data)@.len() == (4 - old(data)@.len() % 4) % 4);
}

/// The zero bytes that bring a length `len` to a multiple of 4.
pub open spec fn zero_pad(len: int) -> Seq<u8> {
    Seq::new(((4 - len % 4) % 4) as nat, |_i: int| 0u8)
}

/// `data_off + len`, wrapped to 32 bits.
fn off_at(data_off: u64, len: usize) -> (r: u32)
    ensures
        r == ((data_off + len) % 0x1_0000_0000) as u32,
{
    ((data_off as u128 + len as u128) % 0x1_0000_0000) as u32
}

/// `data_off + len`, wrapped to 32 bits: the file offset of position `len` of the data
/// section.
pub open spec fn offset_in(data_off: u64, len: int) -> u32 {
    ((data_off + len) % 0x1_0000_0000) as u32
}

/// `d` padded with zero bytes to a multiple of four.
pub open spec fn padded(d: Seq<u8>) -> Seq<u8> {
    d + zero_pad(d.len() as int)
}

/// One `string_data_item`: the UTF-16 length, the MUTF-8 bytes, a NUL.
pub open spec fn string_item_bytes(s: Seq<char>) -> Seq<u8> {
    uleb_encode((utf16_units(s) as u32) as nat) + builder_mutf8(s) + seq![0u8]
}

/// `d` followed by the `string_data_item`s of `ss`, each 4-aligned; where each starts.
pub open spec fn strings_out(d: Seq<u8>, data_off: u64, ss: Seq<Seq<char>>) -> (Seq<u8>, Seq<u32>)
    decreases ss.len(),
{
    if ss.len() == 0 {
        (d, Seq::empty())
    } else {
        let (d1, offs) = strings_out(d, data_off, ss.drop_last());
        let a = padded(d1);
        (a + string_item_bytes(ss.last()), offs.push(offset_in(data_off, a.len() as int)))
    }
}

/// The `string_data_item`s, each 4-aligned; where each starts.
#[verifier::spinoff_prover]
#[verifier::rlimit(60)]
fn write_string_data(data: &mut Vec<u8>, data_off: u64, strings: &Vec<String>) -> (offs: Vec<u32>)
    ensures
        offs@.len() == strings@.len(),
        (final(data)@, offs@) == strings_out(old(data)@, data_off, texts(strings@)),
{
    let ghost start = data@;
    let mut offs: Vec<u32> = Vec::new();
    let mut i: usize = 0;
    assert(texts(strings@).take(0) =~= Seq::<Seq<char>>::empty());
    while i < strings.len()
        invariant
            i <= strings@.len(),
            offs@.len() == i,
            (data@, offs@) == strings_out(start, data_off, texts(strings@).take(i as int)),
        decreases strings@.len() - i,
    {
        let ghost ss = texts(strings@).take(i + 1);
        let ghost d1 = data@;
        proof {
            assert(ss.drop_last() =~= texts(strings@).take(i as int));
            assert(ss.last() == strings@[i as int]@);
        }
        align4(data);
        let ghost a = data@;
        offs.push(off_at(data_off, data.len()));
        append(data, write_uleb128(utf16_len(strings[i].as_str())));
        append(data, encode_mutf8(strings[i].as_str()));
        data.push(0);
        proof {
            assert(data@ =~= a + string_item_bytes(strings@[i as int]@));
            assert(a == padded(d1));
            assert(strings_out(start, data_off, ss) == (data@, offs@));
        }
        i = i + 1;
    }
    assert(texts(strings@).take(i as int) =~= texts(strings@));
    offs
}

/// Whether two index lists are equal.
fn same_ids(a: &Vec<u32>, b: &Vec<u32>) -> (r: bool)
    ensures
        r == (a@ == b@),
{
    if a.len() != b.len() {
        return false;
    }
    let mut i: usize = 0;
    while i < a.len()
        invariant
            i <= a@.len() == b@.len(),
            forall|k: int| 0 <= k < i ==> a@[k] == b@[k],
        decreases a@.len() - i,
    {
        if a[i] != b[i] {
            return false;
        }
        i = i + 1;
    }
    assert(a@ =~= b@);
    true
}

/// A `type_list` item: its size, then each type index as 16 bits.
pub open spec fn type_list_bytes(idxs: Seq<u32>) -> Seq<u8> {
    u32_le_bytes(idxs.len() as u32) + concat_bytes(Seq::new(idxs.len(), |k: int| u16_le_bytes(idxs[k] as u16)))
}

/// Entry `i` is the first of `cache` that holds the list `idxs`.
pub open spec fn first_cached(cache: Seq<(Vec<u32>, u32)>, idxs: Seq<u32>, i: int) -> bool {
    &&& 0 <= i < cache.len()
    &&& cache[i].0@ == idxs
    &&& forall|j: int| 0 <= j < i ==> (#[trigger] cache[j]).0@ != idxs
}

/// The index lists and offsets of a type-list cache.
pub open spec fn cache_view(c: Seq<(Vec<u32>, u32)>) -> Seq<(Seq<u32>, u32)> {
    Seq::new(c.len(), |i: int| (c[i].0@, c[i].1))
}

/// The first entry of `c` that holds the list `idxs`.
pub open spec fn find_cached(c: Seq<(Seq<u32>, u32)>, idxs: Seq<u32>) -> Option<int>
    decreases c.len(),
{
    if c.len() == 0 {
        None
    } else {
        match find_cached(c.drop_last(), idxs) {
            Some(i) => Some(i),
            None => if c.last().0 == idxs {
                Some(c.len() - 1)
            } else {
                None
            },
        }
    }
}

/// After a `type_list` holding `idxs` is asked for: the data, the cache, and its offset
/// (0 for an empty list, an earlier one for a list already written, else a new one,
/// 4-aligned, at the end).
pub open spec fn type_list_out(d: Seq<u8>, c: Seq<(Seq<u32>, u32)>, data_off: u64, idxs: Seq<u32>) -> (
    Seq<u8>,
    Seq<(Seq<u32>, u32)>,
    u32,
) {
    if idxs.len() == 0 {
        (d, c, 0)
    } else {
        match find_cached(c, idxs) {
            Some(i) => (d, c, c[i].1),
            None => {
                let a = padded(d);
                let o = offset_in(data_off, a.len() as int);
                (a + type_list_bytes(idxs), c.push((idxs, o)), o)
            },
        }
    }
}

proof fn lemma_find_cached(vc: Seq<(Vec<u32>, u32)>, idxs: Seq<u32>)
    ensures
        find_cached(cache_view(vc), idxs) matches Some(i) ==> first_cached(vc, idxs, i),
        find_cached(cache_view(vc), idxs) is None ==> forall|j: int| 0 <= j < vc.len() ==> (#[trigger] vc[j]).0@ != idxs,
    decreases vc.len(),
{
    if vc.len() > 0 {
        let v0 = vc.drop_last();
        lemma_find_cached(v0, idxs);
        assert(cache_view(vc).drop_last() =~= cache_view(v0));
        assert forall|j: int| 0 <= j < v0.len() implies (#[trigger] vc[j]) == v0[j] by {}
    }
}

/// What [`ensure_type_list`] did, in terms of [`type_list_out`].
proof fn lemma_type_list_out(
    d0: Seq<u8>,
    c0: Seq<(Vec<u32>, u32)>,
    d1: Seq<u8>,
    c1: Seq<(Vec<u32>, u32)>,
    data_off: u64,
    idxs: Vec<u32>,
    off: u32,
)
    requires
        idxs@.len() == 0 ==> off == 0 && d1 == d0 && c1 == c0,
        idxs@.len() > 0 && (exists|i: int| first_cached(c0, idxs@, i)) ==> d1 == d0 && c1 == c0 && exists|i: int|
            first_cached(c0, idxs@, i) && off == c0[i].1,
        idxs@.len() > 0 && !(exists|i: int| first_cached(c0, idxs@, i)) ==> {
            let aligned = d0 + zero_pad(d0.len() as int);
            &&& off == ((data_off + aligned.len()) % 0x1_0000_0000) as u32
            &&& d1 == aligned + type_list_bytes(idxs@)
            &&& c1 == c0.push((idxs, off))
        },
    ensures
        (d1, cache_view(c1), off) == type_list_out(d0, cache_view(c0), data_off, idxs@),
{
    lemma_find_cached(c0, idxs@);
    if idxs@.len() > 0 {
        match find_cached(cache_view(c0), idxs@) {
            Some(i) => {
                assert(exists|i: int| first_cached(c0, idxs@, i));
                let j = choose|j: int| first_cached(c0, idxs@, j) && off == c0[j].1;
                assert(i == j) by {
                    if i < j {
                        assert(c0[i].0@ != idxs@);
                    } else if j < i {
                        assert(c0[j].0@ != idxs@);
                    }
                }
            },
            None => {
                assert(!(exists|i: int| first_cached(c0, idxs@, i)));
                assert(cache_view(c1) =~= cache_view(c0).push((idxs@, off)));
            },
        }
    }
}

/// The type ids of the parameters of the `x`-th prototype in proto id order.
pub open spec fn proto_type_ids(maps: PoolMaps, x: int) -> Seq<u32> {
    let params = proto_parts(maps.proto_list()[maps.proto_order()[x] as int]).0;
    Seq::new(params.len(), |k: int| text_id(maps.type_list(), maps.type_ids(), params[k])->0 as u32)
}

/// After the parameter `type_list`s of the first `a` prototypes (in proto id order):
/// data, cache, and their offsets.
pub open spec fn protos_out(d: Seq<u8>, c: Seq<(Seq<u32>, u32)>, data_off: u64, maps: PoolMaps, a: nat) -> (
    Seq<u8>,
    Seq<(Seq<u32>, u32)>,
    Seq<u32>,
)
    decreases a,
{
    if a == 0 {
        (d, c, Seq::empty())
    } else {
        let (d1, c1, offs) = protos_out(d, c, data_off, maps, (a - 1) as nat);
        let (d2, c2, o) = type_list_out(d1, c1, data_off, proto_type_ids(maps, a - 1));
        (d2, c2, offs.push(o))
    }
}

/// The offset of a `type_list` holding `idxs`: 0 for an empty one, one written earlier
/// for the same list, else a new 4-aligned one.
#[verifier::spinoff_prover]
#[verifier::rlimit(60)]
fn ensure_type_list(data: &mut Vec<u8>, cache: &mut Vec<(Vec<u32>, u32)>, data_off: u64, idxs: Vec<u32>) -> (off: u32)
    ensures
        idxs@.len() == 0 ==> off == 0 && final(data)@ == old(data)@ && final(cache)@ == old(cache)@,
        idxs@.len() > 0 && (exists|i: int| first_cached(old(cache)@, idxs@, i)) ==> final(data)@ == old(data)@
            && final(cache)@ == old(cache)@ && exists|i: int| first_cached(old(cache)@, idxs@, i) && off == old(cache)@[i].1,
        idxs@.len() > 0 && !(exists|i: int| first_cached(old(cache)@, idxs@, i)) ==> {
            let aligned = old(data)@ + zero_pad(old(data)@.len() as int);
            &&& off == ((data_off + aligned.len()) % 0x1_0000_0000) as u32
            &&& final(data)@ == aligned + type_list_bytes(idxs@)
            &&& final(cache)@ == old(cache)@.push((idxs, off))
        },
{
    if idxs.len() == 0 {
        return 0;
    }
    let mut i: usize = 0;
    while i < cache.len()
        invariant
            i <= cache@.len(),
            idxs@.len() > 0,
            data@ == old(data)@,
            cache@ == old(cache)@,
            forall|j: int| 0 <= j < i ==> (#[trigger] cache@[j]).0@ != idxs@,
        decreases cache@.len() - i,
    {
        if same_ids(&cache[i].0, &idxs) {
            assert(first_cached(cache@, idxs@, i as int));
            return cache[i].1;
        }
        i = i + 1;
    }
    assert(!(exists|i: int| first_cached(old(cache)@, idxs@, i)));
    align4(data);
    let off = off_at(data_off, data.len());
    let ghost aligned = data@;
    push_u32(data, idxs.len() as u32);
    let ghost start = data@;
    let ghost f = |k: int| u16_le_bytes(idxs@[k] as u16);
    let mut k: usize = 0;
    while k < idxs.len()
        invariant
            k <= idxs@.len(),
            f == (|k: int| u16_le_bytes(idxs@[k] as u16)),
            data@ == start + concat_bytes(Seq::new(k as nat, f)),
        decreases idxs@.len() - k,
    {
        push_u16(data, idxs[k] as u16);
        assert(Seq::new((k + 1) as nat, f).drop_last() =~= Seq::new(k as nat, f));
        assert(data@ =~= start + concat_bytes(Seq::new((k + 1) as nat, f)));
        k = k + 1;
    }
    assert(data@ =~= aligned + type_list_bytes(idxs@));
    cache.push((idxs, off));
    off
}

impl PoolMaps {
    /// The type id of `t`, as a `u32`.
    fn type_id(&self, t: &str) -> (r: Result<u32>)
        ensures
            r is Err ==> r->Err_0 is Parse,
            r is Ok <==> self.type_list().contains(t@),
            match text_id(self.type_list(), self.type_ids(), t@) {
                Some(i) => r == Ok::<u32, DexError>(i as u32),
                None => r is Err,
            },
    {
        proof {
            use_type_invariant(self);
        }
        match find_text(&self.types, t) {
            Some(i) => Ok(self.type_ids[i] as u32),
            None => Err(missing("missing type: ", t)),
        }
    }

    /// The string id of `t`, as a `u32`.
    fn string_id(&self, t: &str) -> (r: Result<u32>)
        ensures
            r is Err ==> r->Err_0 is Parse,
            r is Ok <==> self.string_list().contains(t@),
            r matches Ok(i) ==> text_index(self.string_list(), t@) matches Some(k) && i == k as u32,
    {
        proof {
            use_type_invariant(self);
        }
        match find_text(&self.strings, t) {
            Some(i) => Ok(i as u32),
            None => Err(missing("missing string: ", t)),
        }
    }

    /// The type ids of `ts`.
    #[verifier::spinoff_prover]
    #[verifier::rlimit(60)]
    fn type_ids_of(&self, ts: &Vec<String>) -> (r: Result<Vec<u32>>)
        ensures
            r is Err ==> r->Err_0 is Parse,
            r is Ok <==> (forall|k: int| 0 <= k < ts@.len() ==> self.type_list().contains(#[trigger] ts@[k]@)),
            r matches Ok(v) ==> v@.len() == ts@.len() && forall|k: int|
                0 <= k < ts@.len() ==> v@[k] == (#[trigger] text_id(self.type_list(), self.type_ids(), ts@[k]@))->0 as u32,
    {
        let mut idxs: Vec<u32> = Vec::new();
        let mut k: usize = 0;
        while k < ts.len()
            invariant
                k <= ts@.len(),
                idxs@.len() == k,
                forall|j: int| 0 <= j < k ==> self.type_list().contains(#[trigger] ts@[j]@),
                forall|j: int|
                    0 <= j < k ==> idxs@[j] == (#[trigger] text_id(self.type_list(), self.type_ids(), ts@[j]@))->0 as u32,
            decreases ts@.len() - k,
        {
            let t = match self.type_id(ts[k].as_str()) {
                Ok(t) => t,
                Err(e) => {
                    assert(!self.type_list().contains(ts@[k as int]@));
                    return Err(e);
                },
            };
            idxs.push(t);
            k = k + 1;
        }
        Ok(idxs)
    }

    /// The parameter `type_list` offset of each prototype, in proto id order.
    #[verifier::spinoff_prover]
    #[verifier::rlimit(60)]
    fn write_proto_lists(&self, data: &mut Vec<u8>, cache: &mut Vec<(Vec<u32>, u32)>, data_off: u64) -> (r: Result<Vec<u32>>)
        ensures
            r is Ok ==> r->Ok_0@.len() == self.proto_list().len(),
            r is Err ==> r->Err_0 is Parse,
            names_closed(maps_model(*self, Seq::empty())) ==> r is Ok,
            r matches Ok(offs) ==> (final(data)@, cache_view(final(cache)@), offs@) == protos_out(
                old(data)@,
                cache_view(old(cache)@),
                data_off,
                *self,
                self.proto_list().len(),
            ),
    {
        proof {
            use_type_invariant(self);
        }
        let n = self.protos.len();
        let mut offs: Vec<u32> = Vec::new();
        let mut a: usize = 0;
        while a < n
            invariant
                a <= n == self.protos@.len() == self.proto_order@.len(),
                n == self.proto_list().len(),
                forall|x: int| 0 <= x < n ==> #[trigger] self.proto_order@[x] < n,
                offs@.len() == a,
                (data@, cache_view(cache@), offs@) == protos_out(
                    old(data)@,
                    cache_view(old(cache)@),
                    data_off,
                    *self,
                    a as nat,
                ),
            decreases n - a,
        {
            let ghost pt = self.proto_list()[self.proto_order@[a as int] as int];
            proof {
                if names_closed(maps_model(*self, Seq::empty())) {
                    assert(self.proto_list().contains(pt));
                    assert(maps_model(*self, Seq::empty()).protos.contains(pt));
                    assert(proto_interned(maps_model(*self, Seq::empty()), pt));
                }
            }
            let (params, _ret) = parse_proto(self.protos[self.proto_order[a]].as_str());
            proof {
                if names_closed(maps_model(*self, Seq::empty())) {
                    assert forall|k: int| 0 <= k < params@.len() implies self.type_list().contains(
                        #[trigger] params@[k]@,
                    ) by {
                        assert(texts(params@)[k] == params@[k]@);
                        assert(maps_model(*self, Seq::empty()).types.contains(proto_parts(pt).0[k]));
                    }
                }
            }
            let idxs = self.type_ids_of(&params)?;
            proof {
                assert(idxs@ =~= proto_type_ids(*self, a as int)) by {
                    assert(self.proto_order()[a as int] == self.proto_order@[a as int]);
                    assert(self.proto_list()[self.proto_order@[a as int] as int] == self.protos@[self.proto_order@[a as int] as int]@);
                    assert(Seq::new(params@.len(), |k: int| params@[k]@) == proto_parts(pt).0);
                    assert forall|k: int| 0 <= k < params@.len() implies params@[k]@ == proto_parts(pt).0[k] by {
                        assert(Seq::new(params@.len(), |k: int| params@[k]@)[k] == params@[k]@);
                    }
                }
            }
            let ghost d0 = data@;
            let ghost c0 = cache@;
            let ghost iv = idxs;
            let o = ensure_type_list(data, cache, data_off, idxs);
            proof {
                lemma_type_list_out(d0, c0, data@, cache@, data_off, iv, o);
            }
            offs.push(o);
            a = a + 1;
        }
        Ok(offs)
    }
}

/// After the body of method `m` (its raw debug info first, when it has any, then its
/// 4-aligned `code_item`): the data, and the code offsets with `m`'s noted.
pub open spec fn method_code_out(
    d: Seq<u8>,
    slots: Seq<Option<u32>>,
    data_off: u64,
    maps: PoolMaps,
    m: BuiltMethod,
) -> (Seq<u8>, Seq<Option<u32>>) {
    match m.code {
        None => (d, slots),
        Some(code) => {
            let d1 = if code.debug_ops@.len() > 0 {
                d + code.debug_ops@
            } else {
                d
            };
            let dbg: u32 = if code.debug_ops@.len() > 0 {
                offset_in(data_off, d.len() as int)
            } else {
                0
            };
            let a = padded(d1);
            let co = offset_in(data_off, a.len() as int);
            let s2 = match triple_index(maps.method_list(), (m.class@, m.name@, m.proto@)) {
                Some(p) => slots.update(p, Some(co)),
                None => slots,
            };
            (a + code_item_bytes(code, dbg), s2)
        },
    }
}

/// After the bodies of the methods `ms`, in turn.
pub open spec fn methods_code_out(
    d: Seq<u8>,
    slots: Seq<Option<u32>>,
    data_off: u64,
    maps: PoolMaps,
    ms: Seq<BuiltMethod>,
) -> (Seq<u8>, Seq<Option<u32>>)
    decreases ms.len(),
{
    if ms.len() == 0 {
        (d, slots)
    } else {
        let (d1, s1) = methods_code_out(d, slots, data_off, maps, ms.drop_last());
        method_code_out(d1, s1, data_off, maps, ms.last())
    }
}

/// After the method bodies of the classes in `order`, direct methods before virtual.
pub open spec fn classes_code_out(
    d: Seq<u8>,
    slots: Seq<Option<u32>>,
    data_off: u64,
    maps: PoolMaps,
    classes: Seq<BuiltClass>,
    order: Seq<usize>,
) -> (Seq<u8>, Seq<Option<u32>>)
    decreases order.len(),
{
    if order.len() == 0 {
        (d, slots)
    } else {
        let (d1, s1) = classes_code_out(d, slots, data_off, maps, classes, order.drop_last());
        let c = classes[order.last() as int];
        let (d2, s2) = methods_code_out(d1, s1, data_off, maps, c.direct_methods@);
        methods_code_out(d2, s2, data_off, maps, c.virtual_methods@)
    }
}

/// Write the method bodies of `ms` (with their raw debug info), noting where each
/// method's `code_item` went.
#[verifier::spinoff_prover]
#[verifier::rlimit(60)]
fn write_method_codes(
    data: &mut Vec<u8>,
    data_off: u64,
    ms: &Vec<BuiltMethod>,
    maps: &PoolMaps,
    slots: &mut Vec<Option<u32>>,
) -> (r: Result<()>)
    requires
        methods_fit(ms@),
        old(slots)@.len() == maps.method_list().len(),
    ensures
        final(slots)@.len() == old(slots)@.len(),
        r is Ok ==> methods_even(ms@),
        methods_even(ms@) ==> r is Ok,
        r is Err ==> r->Err_0 is Parse,
        r is Ok ==> (final(data)@, final(slots)@) == methods_code_out(old(data)@, old(slots)@, data_off, *maps, ms@),
{
    proof {
        use_type_invariant(maps);
    }
    let mut k: usize = 0;
    assert(ms@.take(0) =~= Seq::<BuiltMethod>::empty());
    while k < ms.len()
        invariant
            k <= ms@.len(),
            methods_fit(ms@),
            slots@.len() == maps.methods@.len(),
            slots@.len() == old(slots)@.len(),
            strictly_sorted(keys_of(maps.methods@)),
            forall|j: int| 0 <= j < k ==> ((#[trigger] ms@[j]).code matches Some(c) ==> c.insns@.len() % 2 == 0),
            (data@, slots@) == methods_code_out(old(data)@, old(slots)@, data_off, *maps, ms@.take(k as int)),
        decreases ms@.len() - k,
    {
        let m = &ms[k];
        let ghost d0 = data@;
        let ghost s0 = slots@;
        proof {
            assert(ms@.take(k + 1).drop_last() =~= ms@.take(k as int));
            assert(ms@.take(k + 1).last() == *m);
        }
        match &m.code {
            None => {},
            Some(code) => {
                assert(ms@[k as int].code matches Some(c) ==> c.tries@.len() <= 0xffff);
                let mut debug_off: u32 = 0;
                if code.debug_ops.len() > 0 {
                    debug_off = off_at(data_off, data.len());
                    append_slice(data, code.debug_ops.as_slice());
                }
                let ghost d1 = data@;
                align4(data);
                let code_off = off_at(data_off, data.len());
                write_code_item(data, code, debug_off)?;
                match find_triple(&maps.methods, m.class.as_str(), m.name.as_str(), m.proto.as_str()) {
                    Some(p) => slots.set(p, Some(code_off)),
                    None => {},
                }
                proof {
                    assert(maps.method_list() == triples(maps.methods@));
                    assert(d1 == (if code.debug_ops@.len() > 0 {
                        d0 + code.debug_ops@
                    } else {
                        d0
                    }));
                }
            },
        }
        proof {
            assert((data@, slots@) == method_code_out(d0, s0, data_off, *maps, *m));
        }
        k = k + 1;
    }
    assert(ms@.take(k as int) =~= ms@);
    Ok(())
}

/// The id of field `f` in the pools of `maps` (0 when they lack it).
pub open spec fn new_field_id(maps: PoolMaps, f: BuiltField) -> u32 {
    match triple_index(maps.field_list(), (f.class@, f.name@, f.typ@)) {
        Some(i) => maps.field_ids()[i] as u32,
        None => 0,
    }
}

/// The id of method `m` in the pools of `maps` (0 when they lack it).
pub open spec fn new_method_id(maps: PoolMaps, m: BuiltMethod) -> u32 {
    match triple_index(maps.method_list(), (m.class@, m.name@, m.proto@)) {
        Some(i) => maps.method_ids()[i] as u32,
        None => 0,
    }
}

/// The code offset recorded for method `m` in `slots` (by its place in the method pool),
/// 0 when none is.
pub open spec fn slot_code_off(maps: PoolMaps, slots: Seq<Option<u32>>, m: BuiltMethod) -> u32 {
    match triple_index(maps.method_list(), (m.class@, m.name@, m.proto@)) {
        Some(p) => match slots[p] {
            Some(o) => o,
            None => 0,
        },
        None => 0,
    }
}

/// The stored id of entry `k` of a member list: the id itself for the first, else its
/// difference from the id before (modulo 2^32).
pub open spec fn id_delta(ids: Seq<u32>, k: int) -> u32 {
    if k == 0 {
        ids[0]
    } else if ids[k] >= ids[k - 1] {
        (ids[k] - ids[k - 1]) as u32
    } else {
        (ids[k] - ids[k - 1] + 0x1_0000_0000) as u32
    }
}

/// The bytes of the field entries of `fs`: id delta, then access flags, each ULEB128.
pub open spec fn field_entries(maps: PoolMaps, fs: Seq<BuiltField>) -> Seq<u8> {
    let ids = Seq::new(fs.len(), |k: int| new_field_id(maps, fs[k]));
    concat_bytes(
        Seq::new(fs.len(), |k: int| uleb_encode(id_delta(ids, k) as nat) + uleb_encode(fs[k].access_flags as nat)),
    )
}

/// The bytes of the method entries of `ms`: id delta, access flags and code offset, each
/// ULEB128.
pub open spec fn method_entries(maps: PoolMaps, slots: Seq<Option<u32>>, ms: Seq<BuiltMethod>) -> Seq<u8> {
    let ids = Seq::new(ms.len(), |k: int| new_method_id(maps, ms[k]));
    concat_bytes(
        Seq::new(
            ms.len(),
            |k: int|
                uleb_encode(id_delta(ids, k) as nat) + uleb_encode(ms[k].access_flags as nat) + uleb_encode(
                    slot_code_off(maps, slots, ms[k]) as nat,
                ),
        ),
    )
}

/// Every field of `fs` is in the pools of `maps`.
pub open spec fn fields_listed(maps: PoolMaps, fs: Seq<BuiltField>) -> bool {
    forall|k: int| 0 <= k < fs.len() ==> maps.field_list().contains((#[trigger] fs[k].class@, fs[k].name@, fs[k].typ@))
}

/// Every method of `ms` is in the pools of `maps`.
pub open spec fn methods_listed(maps: PoolMaps, ms: Seq<BuiltMethod>) -> bool {
    forall|k: int|
        0 <= k < ms.len() ==> maps.method_list().contains((#[trigger] ms[k].class@, ms[k].name@, ms[k].proto@))
}

/// Write the field entries of a `class_data_item`: id deltas and access flags.
#[verifier::spinoff_prover]
#[verifier::rlimit(60)]
fn write_field_list(data: &mut Vec<u8>, fs: &Vec<BuiltField>, maps: &PoolMaps) -> (r: Result<()>)
    ensures
        r is Err ==> r->Err_0 is Parse,
        r is Ok <==> fields_listed(*maps, fs@),
        r is Ok ==> final(data)@ == old(data)@ + field_entries(*maps, fs@),
{
    let ghost start = data@;
    let ghost ids = Seq::new(fs@.len(), |k: int| new_field_id(*maps, fs@[k]));
    let ghost f = |k: int| uleb_encode(id_delta(ids, k) as nat) + uleb_encode(fs@[k].access_flags as nat);
    let mut prev: u32 = 0;
    let mut i: usize = 0;
    while i < fs.len()
        invariant
            i <= fs@.len(),
            ids == Seq::new(fs@.len(), |k: int| new_field_id(*maps, fs@[k])),
            f == (|k: int| uleb_encode(id_delta(ids, k) as nat) + uleb_encode(fs@[k].access_flags as nat)),
            i > 0 ==> prev == ids[i - 1],
            forall|k: int| 0 <= k < i ==> maps.field_list().contains((#[trigger] fs@[k].class@, fs@[k].name@, fs@[k].typ@)),
            data@ == start + concat_bytes(Seq::new(i as nat, f)),
        decreases fs@.len() - i,
    {
        let fl = &fs[i];
        let idx = match maps.field(fl.class.as_str(), fl.name.as_str(), fl.typ.as_str()) {
            Ok(x) => x,
            Err(e) => {
                assert(!maps.field_list().contains((fs@[i as int].class@, fs@[i as int].name@, fs@[i as int].typ@)));
                return Err(e);
            },
        };
        assert(idx == ids[i as int]);
        let diff = if i == 0 {
            idx
        } else {
            idx.wrapping_sub(prev)
        };
        assert(diff == id_delta(ids, i as int));
        prev = idx;
        append(data, write_uleb128(diff));
        append(data, write_uleb128(fl.access_flags));
        assert(Seq::new((i + 1) as nat, f).drop_last() =~= Seq::new(i as nat, f));
        assert(data@ =~= start + concat_bytes(Seq::new((i + 1) as nat, f)));
        i = i + 1;
    }
    assert(Seq::new(i as nat, f) =~= Seq::new(
        fs@.len(),
        |k: int| uleb_encode(id_delta(ids, k) as nat) + uleb_encode(fs@[k].access_flags as nat),
    ));
    Ok(())
}

/// Write the method entries of a `class_data_item`: id deltas, access flags and code offsets.
#[verifier::spinoff_prover]
#[verifier::rlimit(60)]
fn write_method_list(data: &mut Vec<u8>, ms: &Vec<BuiltMethod>, maps: &PoolMaps, slots: &Vec<Option<u32>>) -> (r: Result<()>)
    requires
        slots@.len() == maps.method_list().len(),
    ensures
        r is Err ==> r->Err_0 is Parse,
        r is Ok <==> methods_listed(*maps, ms@),
        r is Ok ==> final(data)@ == old(data)@ + method_entries(*maps, slots@, ms@),
{
    proof {
        use_type_invariant(maps);
    }
    let ghost start = data@;
    let ghost ids = Seq::new(ms@.len(), |k: int| new_method_id(*maps, ms@[k]));
    let ghost f = |k: int|
        uleb_encode(id_delta(ids, k) as nat) + uleb_encode(ms@[k].access_flags as nat) + uleb_encode(
            slot_code_off(*maps, slots@, ms@[k]) as nat,
        );
    let mut prev: u32 = 0;
    let mut i: usize = 0;
    while i < ms.len()
        invariant
            i <= ms@.len(),
            slots@.len() == maps.methods@.len(),
            strictly_sorted(keys_of(maps.methods@)),
            ids == Seq::new(ms@.len(), |k: int| new_method_id(*maps, ms@[k])),
            f == (|k: int|
                uleb_encode(id_delta(ids, k) as nat) + uleb_encode(ms@[k].access_flags as nat) + uleb_encode(
                    slot_code_off(*maps, slots@, ms@[k]) as nat,
                )),
            i > 0 ==> prev == ids[i - 1],
            forall|k: int|
                0 <= k < i ==> maps.method_list().contains((#[trigger] ms@[k].class@, ms@[k].name@, ms@[k].proto@)),
            data@ == start + concat_bytes(Seq::new(i as nat, f)),
        decreases ms@.len() - i,
    {
        let m = &ms[i];
        let idx = match maps.method(m.class.as_str(), m.name.as_str(), m.proto.as_str()) {
            Ok(x) => x,
            Err(e) => {
                assert(!maps.method_list().contains((ms@[i as int].class@, ms@[i as int].name@, ms@[i as int].proto@)));
                return Err(e);
            },
        };
        assert(idx == ids[i as int]);
        let diff = if i == 0 {
            idx
        } else {
            idx.wrapping_sub(prev)
        };
        assert(diff == id_delta(ids, i as int));
        prev = idx;
        let code_off: u32 = match find_triple(&maps.methods, m.class.as_str(), m.name.as_str(), m.proto.as_str()) {
            Some(p) => match slots[p] {
                Some(o) => o,
                None => 0,
            },
            None => 0,
        };
        assert(code_off == slot_code_off(*maps, slots@, ms@[i as int]));
        append(data, write_uleb128(diff));
        append(data, write_uleb128(m.access_flags));
        append(data, write_uleb128(code_off));
        assert(Seq::new((i + 1) as nat, f).drop_last() =~= Seq::new(i as nat, f));
        assert(data@ =~= start + concat_bytes(Seq::new((i + 1) as nat, f)));
        i = i + 1;
    }
    assert(Seq::new(i as nat, f) =~= Seq::new(
        ms@.len(),
        |k: int|
            uleb_encode(id_delta(ids, k) as nat) + uleb_encode(ms@[k].access_flags as nat) + uleb_encode(
                slot_code_off(*maps, slots@, ms@[k]) as nat,
            ),
    ));
    Ok(())
}

/// The members of a listed class are in the pools of `maps`, list by list.
proof fn lemma_class_listed_members(maps: PoolMaps, c: BuiltClass)
    requires
        class_listed(maps, c),
    ensures
        forall|k: int| 0 <= k < c.static_fields@.len() ==> maps.field_list().contains(
            (#[trigger] c.static_fields@[k].class@, c.static_fields@[k].name@, c.static_fields@[k].typ@),
        ),
        forall|k: int| 0 <= k < c.instance_fields@.len() ==> maps.field_list().contains(
            (#[trigger] c.instance_fields@[k].class@, c.instance_fields@[k].name@, c.instance_fields@[k].typ@),
        ),
        forall|k: int| 0 <= k < c.direct_methods@.len() ==> maps.method_list().contains(
            (#[trigger] c.direct_methods@[k].class@, c.direct_methods@[k].name@, c.direct_methods@[k].proto@),
        ),
        forall|k: int| 0 <= k < c.virtual_methods@.len() ==> maps.method_list().contains(
            (#[trigger] c.virtual_methods@[k].class@, c.virtual_methods@[k].name@, c.virtual_methods@[k].proto@),
        ),
{
    let fs = c.static_fields@ + c.instance_fields@;
    let frefs = field_refs(fs);
    let ms = c.direct_methods@ + c.virtual_methods@;
    let mrefs = method_refs(ms);
    let ns = c.static_fields@.len() as int;
    let nd = c.direct_methods@.len() as int;
    assert forall|k: int| 0 <= k < c.static_fields@.len() implies maps.field_list().contains(
        (#[trigger] c.static_fields@[k].class@, c.static_fields@[k].name@, c.static_fields@[k].typ@),
    ) by {
        assert(fs[k] == c.static_fields@[k]);
        assert(maps_model(maps, Seq::empty()).fields.contains(frefs[k]));
    }
    assert forall|k: int| 0 <= k < c.instance_fields@.len() implies maps.field_list().contains(
        (#[trigger] c.instance_fields@[k].class@, c.instance_fields@[k].name@, c.instance_fields@[k].typ@),
    ) by {
        assert(fs[ns + k] == c.instance_fields@[k]);
        assert(maps_model(maps, Seq::empty()).fields.contains(frefs[ns + k]));
    }
    assert forall|k: int| 0 <= k < c.direct_methods@.len() implies maps.method_list().contains(
        (#[trigger] c.direct_methods@[k].class@, c.direct_methods@[k].name@, c.direct_methods@[k].proto@),
    ) by {
        assert(ms[k] == c.direct_methods@[k]);
        assert(maps_model(maps, Seq::empty()).methods.contains(mrefs[k]));
    }
    assert forall|k: int| 0 <= k < c.virtual_methods@.len() implies maps.method_list().contains(
        (#[trigger] c.virtual_methods@[k].class@, c.virtual_methods@[k].name@, c.virtual_methods@[k].proto@),
    ) by {
        assert(ms[nd + k] == c.virtual_methods@[k]);
        assert(maps_model(maps, Seq::empty()).methods.contains(mrefs[nd + k]));
    }
}

/// Every member of `c` is in the pools of `maps`.
pub open spec fn members_listed(maps: PoolMaps, c: BuiltClass) -> bool {
    &&& fields_listed(maps, c.static_fields@)
    &&& fields_listed(maps, c.instance_fields@)
    &&& methods_listed(maps, c.direct_methods@)
    &&& methods_listed(maps, c.virtual_methods@)
}

/// The `class_data_item` of `c`: the four list sizes, then the entries of each list.
pub open spec fn class_data_bytes(maps: PoolMaps, slots: Seq<Option<u32>>, c: BuiltClass) -> Seq<u8> {
    uleb_encode((c.static_fields@.len() as u32) as nat) + uleb_encode((c.instance_fields@.len() as u32) as nat)
        + uleb_encode((c.direct_methods@.len() as u32) as nat) + uleb_encode((c.virtual_methods@.len() as u32) as nat)
        + field_entries(maps, c.static_fields@) + field_entries(maps, c.instance_fields@) + method_entries(
        maps,
        slots,
        c.direct_methods@,
    ) + method_entries(maps, slots, c.virtual_methods@)
}

/// Write a `class_data_item`.
#[verifier::spinoff_prover]
#[verifier::rlimit(60)]
fn write_class_data(data: &mut Vec<u8>, class: &BuiltClass, maps: &PoolMaps, slots: &Vec<Option<u32>>) -> (r: Result<()>)
    requires
        slots@.len() == maps.method_list().len(),
    ensures
        r is Err ==> r->Err_0 is Parse,
        class_listed(*maps, *class) ==> r is Ok,
        r is Ok <==> members_listed(*maps, *class),
        r is Ok ==> final(data)@ == old(data)@ + class_data_bytes(*maps, slots@, *class),
{
    proof {
        if class_listed(*maps, *class) {
            lemma_class_listed_members(*maps, *class);
        }
    }
    append(data, write_uleb128(class.static_fields.len() as u32));
    append(data, write_uleb128(class.instance_fields.len() as u32));
    append(data, write_uleb128(class.direct_methods.len() as u32));
    append(data, write_uleb128(class.virtual_methods.len() as u32));
    write_field_list(data, &class.static_fields, maps)?;
    write_field_list(data, &class.instance_fields, maps)?;
    write_method_list(data, &class.direct_methods, maps, slots)?;
    write_method_list(data, &class.virtual_methods, maps, slots)?;
    assert(data@ =~= old(data)@ + class_data_bytes(*maps, slots@, *class));
    Ok(())
}

/// How many static values `fs` stores: one per field up to the last that has a value.
pub open spec fn static_value_count(fs: Seq<BuiltField>) -> nat
    decreases fs.len(),
{
    if fs.len() == 0 {
        0
    } else if fs.last().static_value is Some {
        fs.len()
    } else {
        static_value_count(fs.drop_last())
    }
}

/// The stored value of field `f`: its static value, `Null` when it has none.
pub open spec fn stored_value_bytes(f: BuiltField) -> Seq<u8> {
    match f.static_value {
        Some(v) => spec_encode_value(model(v)),
        None => spec_encode_value(model(EncodedValue::Null)),
    }
}

/// The `encoded_array_item` of the static values of `fs`.
pub open spec fn static_value_bytes(fs: Seq<BuiltField>) -> Seq<u8> {
    let n = static_value_count(fs);
    uleb_encode((n as u32) as nat) + concat_bytes(Seq::new(n, |k: int| stored_value_bytes(fs[k])))
}

/// Write the static values of `class` (one per static field up to the last that has
/// one, `Null` for those without); 0 when none has one.
#[verifier::spinoff_prover]
#[verifier::rlimit(60)]
fn write_static_values(data: &mut Vec<u8>, data_off: u64, class: &BuiltClass) -> (off: u32)
    ensures
        static_value_count(class.static_fields@) == 0 ==> off == 0 && final(data)@ == old(data)@,
        static_value_count(class.static_fields@) > 0 ==> off == ((data_off + old(data)@.len()) % 0x1_0000_0000) as u32
            && final(data)@ == old(data)@ + static_value_bytes(class.static_fields@),
{
    let fs = &class.static_fields;
    let mut end = fs.len();
    assert(fs@.take(end as int) =~= fs@);
    while end > 0 && fs[end - 1].static_value.is_none()
        invariant
            end <= fs@.len(),
            static_value_count(fs@) == static_value_count(fs@.take(end as int)),
        decreases end,
    {
        assert(fs@.take(end as int).drop_last() =~= fs@.take(end - 1));
        end = end - 1;
    }
    if end == 0 {
        return 0;
    }
    assert(static_value_count(fs@) == end);
    let off = off_at(data_off, data.len());
    append(data, write_uleb128(end as u32));
    write_stored_values(data, fs, end);
    off
}

/// Append the stored values of the first `end` fields of `fs`.
fn write_stored_values(data: &mut Vec<u8>, fs: &Vec<BuiltField>, end: usize)
    requires
        end <= fs@.len(),
    ensures
        final(data)@ == old(data)@ + concat_bytes(Seq::new(end as nat, |k: int| stored_value_bytes(fs@[k]))),
{
    let ghost start = data@;
    let ghost f = |k: int| stored_value_bytes(fs@[k]);
    let mut k: usize = 0;
    while k < end
        invariant
            k <= end <= fs@.len(),
            f == (|k: int| stored_value_bytes(fs@[k])),
            data@ == start + concat_bytes(Seq::new(k as nat, f)),
        decreases end - k,
    {
        match &fs[k].static_value {
            Some(v) => append(data, encode_encoded_value(v)),
            None => append(data, encode_encoded_value(&EncodedValue::Null)),
        }
        assert(Seq::new((k + 1) as nat, f).drop_last() =~= Seq::new(k as nat, f));
        assert(data@ =~= start + concat_bytes(Seq::new((k + 1) as nat, f)));
        k = k + 1;
    }
}

/// Sort keys of the classes: the type id of each descriptor (0 when it has none).
fn class_keys(maps: &PoolMaps, classes: &Vec<BuiltClass>) -> (keys: Vec<Vec<u32>>)
    ensures
        keys@.len() == classes@.len(),
        key_views(keys@) == class_key_views(*maps, classes@),
{
    let mut keys: Vec<Vec<u32>> = Vec::new();
    let mut i: usize = 0;
    while i < classes.len()
        invariant
            i <= classes@.len(),
            keys@.len() == i,
            forall|j: int| 0 <= j < i ==> (#[trigger] keys@[j])@ == seq![class_key(*maps, classes@[j])],
        decreases classes@.len() - i,
    {
        let k = match maps.type_id(classes[i].descriptor.as_str()) {
            Ok(t) => t,
            Err(_) => 0,
        };
        let mut kv: Vec<u32> = Vec::new();
        kv.push(k);
        assert(kv@ =~= seq![class_key(*maps, classes@[i as int])]);
        keys.push(kv);
        i = i + 1;
    }
    assert(key_views(keys@) =~= class_key_views(*maps, classes@));
    keys
}

/// The sort key of class `c`: the type id of its name (0 when the pools lack it).
pub open spec fn class_key(maps: PoolMaps, c: BuiltClass) -> u32 {
    match text_id(maps.type_list(), maps.type_ids(), c.descriptor@) {
        Some(t) => t as u32,
        None => 0,
    }
}

/// The sort keys of `classes`.
pub open spec fn class_key_views(maps: PoolMaps, classes: Seq<BuiltClass>) -> Seq<Seq<u32>> {
    Seq::new(classes.len(), |i: int| seq![class_key(maps, classes[i])])
}

/// Every entry of `order` is below `n`, and every index below `n` is in it.
pub open spec fn covers(order: Seq<usize>, n: int) -> bool {
    &&& order.len() == n
    &&& forall|a: int| 0 <= a < order.len() ==> #[trigger] order[a] < n
    &&& forall|i: int| 0 <= i < n ==> #[trigger] order.contains(i as usize)
}

/// Write the method bodies of the classes in `order`.
#[verifier::spinoff_prover]
#[verifier::rlimit(60)]
fn write_codes(
    data: &mut Vec<u8>,
    data_off: u64,
    classes: &Vec<BuiltClass>,
    order: &Vec<usize>,
    maps: &PoolMaps,
    slots: &mut Vec<Option<u32>>,
) -> (r: Result<()>)
    requires
        covers(order@, classes@.len() as int),
        classes_fit(classes@),
        old(slots)@.len() == maps.method_list().len(),
    ensures
        final(slots)@.len() == old(slots)@.len(),
        r is Ok ==> classes_even(classes@),
        classes_even(classes@) ==> r is Ok,
        r is Err ==> r->Err_0 is Parse,
        r is Ok ==> (final(data)@, final(slots)@) == classes_code_out(
            old(data)@,
            old(slots)@,
            data_off,
            *maps,
            classes@,
            order@,
        ),
{
    let mut a: usize = 0;
    assert(order@.take(0) =~= Seq::<usize>::empty());
    while a < order.len()
        invariant
            a <= order@.len(),
            covers(order@, classes@.len() as int),
            classes_fit(classes@),
            slots@.len() == old(slots)@.len(),
            old(slots)@.len() == maps.method_list().len(),
            forall|b: int|
                0 <= b < a ==> methods_even(classes@[#[trigger] order@[b] as int].direct_methods@)
                    && methods_even(classes@[order@[b] as int].virtual_methods@),
            (data@, slots@) == classes_code_out(old(data)@, old(slots)@, data_off, *maps, classes@, order@.take(a as int)),
        decreases order@.len() - a,
    {
        let class = &classes[order[a]];
        proof {
            assert(order@.take(a + 1).drop_last() =~= order@.take(a as int));
            assert(order@.take(a + 1).last() == order@[a as int]);
        }
        assert(methods_fit(classes@[order@[a as int] as int].direct_methods@));
        assert(classes_even(classes@) ==> methods_even(classes@[order@[a as int] as int].direct_methods@));
        write_method_codes(data, data_off, &class.direct_methods, maps, slots)?;
        write_method_codes(data, data_off, &class.virtual_methods, maps, slots)?;
        a = a + 1;
    }
    assert(order@.take(a as int) =~= order@);
    assert forall|i: int| 0 <= i < classes@.len() implies methods_even((#[trigger] classes@[i]).direct_methods@)
        && methods_even(classes@[i].virtual_methods@) by {
        assert(order@.contains(i as usize));
        let b = choose|b: int| 0 <= b < order@.len() && order@[b] == i as usize;
        assert(methods_even(classes@[order@[b] as int].direct_methods@));
    }
    Ok(())
}

/// The type ids of the interfaces of `c`.
pub open spec fn iface_type_ids(maps: PoolMaps, c: BuiltClass) -> Seq<u32> {
    Seq::new(c.interfaces@.len(), |k: int| text_id(maps.type_list(), maps.type_ids(), c.interfaces@[k]@)->0 as u32)
}

/// Whether `c` has no field and no method.
pub open spec fn no_members(c: BuiltClass) -> bool {
    c.static_fields@.len() == 0 && c.instance_fields@.len() == 0 && c.direct_methods@.len() == 0
        && c.virtual_methods@.len() == 0
}

/// After the interface list and `class_data_item` of `c`: data, cache, and their
/// offsets (0 for a class with no member).
pub open spec fn class_data_out(
    d: Seq<u8>,
    cache: Seq<(Seq<u32>, u32)>,
    data_off: u64,
    maps: PoolMaps,
    slots: Seq<Option<u32>>,
    c: BuiltClass,
) -> (Seq<u8>, Seq<(Seq<u32>, u32)>, u32, u32) {
    let (d1, c1, io) = type_list_out(d, cache, data_off, iface_type_ids(maps, c));
    if no_members(c) {
        (d1, c1, io, 0)
    } else {
        (d1 + class_data_bytes(maps, slots, c), c1, io, offset_in(data_off, d1.len() as int))
    }
}

/// After the interface lists and `class_data_item`s of the classes in `order`.
pub open spec fn class_datas_out(
    d: Seq<u8>,
    cache: Seq<(Seq<u32>, u32)>,
    data_off: u64,
    maps: PoolMaps,
    slots: Seq<Option<u32>>,
    classes: Seq<BuiltClass>,
    order: Seq<usize>,
) -> (Seq<u8>, Seq<(Seq<u32>, u32)>, Seq<u32>, Seq<u32>)
    decreases order.len(),
{
    if order.len() == 0 {
        (d, cache, Seq::empty(), Seq::empty())
    } else {
        let (d1, c1, ios, cds) = class_datas_out(d, cache, data_off, maps, slots, classes, order.drop_last());
        let (d2, c2, io, cd) = class_data_out(d1, c1, data_off, maps, slots, classes[order.last() as int]);
        (d2, c2, ios.push(io), cds.push(cd))
    }
}

/// Write each class's interface list and `class_data_item`, in `order`; their offsets.
#[verifier::spinoff_prover]
#[verifier::rlimit(80)]
fn write_class_datas(
    data: &mut Vec<u8>,
    cache: &mut Vec<(Vec<u32>, u32)>,
    data_off: u64,
    classes: &Vec<BuiltClass>,
    order: &Vec<usize>,
    maps: &PoolMaps,
    slots: &Vec<Option<u32>>,
) -> (r: Result<(Vec<u32>, Vec<u32>)>)
    requires
        covers(order@, classes@.len() as int),
        slots@.len() == maps.method_list().len(),
    ensures
        r is Ok ==> r->Ok_0.0@.len() == order@.len() && r->Ok_0.1@.len() == order@.len(),
        r is Err ==> r->Err_0 is Parse,
        (forall|i: int| 0 <= i < classes@.len() ==> class_listed(*maps, #[trigger] classes@[i])) ==> r is Ok,
        r matches Ok((io, co)) ==> (final(data)@, cache_view(final(cache)@), io@, co@) == class_datas_out(
            old(data)@,
            cache_view(old(cache)@),
            data_off,
            *maps,
            slots@,
            classes@,
            order@,
        ),
{
    let mut iface_offs: Vec<u32> = Vec::new();
    let mut cd_offs: Vec<u32> = Vec::new();
    let mut a: usize = 0;
    assert(order@.take(0) =~= Seq::<usize>::empty());
    while a < order.len()
        invariant
            a <= order@.len(),
            covers(order@, classes@.len() as int),
            slots@.len() == maps.method_list().len(),
            iface_offs@.len() == a,
            cd_offs@.len() == a,
            (data@, cache_view(cache@), iface_offs@, cd_offs@) == class_datas_out(
                old(data)@,
                cache_view(old(cache)@),
                data_off,
                *maps,
                slots@,
                classes@,
                order@.take(a as int),
            ),
        decreases order@.len() - a,
    {
        let class = &classes[order[a]];
        let ghost d0 = data@;
        let ghost c0 = cache@;
        proof {
            assert(order@.take(a + 1).drop_last() =~= order@.take(a as int));
            assert(order@.take(a + 1).last() == order@[a as int]);
        }
        proof {
            if forall|i: int| 0 <= i < classes@.len() ==> class_listed(*maps, #[trigger] classes@[i]) {
                let c = classes@[order@[a as int] as int];
                assert(class_listed(*maps, c));
                assert forall|k: int| 0 <= k < c.interfaces@.len() implies maps.type_list().contains(
                    #[trigger] c.interfaces@[k]@,
                ) by {
                    assert(maps_model(*maps, Seq::empty()).types.contains(c.interfaces@[k]@));
                }
            }
        }
        let idxs = maps.type_ids_of(&class.interfaces)?;
        proof {
            assert(idxs@ =~= iface_type_ids(*maps, *class));
        }
        let ghost iv = idxs;
        let io = ensure_type_list(data, cache, data_off, idxs);
        proof {
            lemma_type_list_out(d0, c0, data@, cache@, data_off, iv, io);
        }
        iface_offs.push(io);
        let cd_off = if class.static_fields.len() == 0 && class.instance_fields.len() == 0
            && class.direct_methods.len() == 0 && class.virtual_methods.len() == 0 {
            0
        } else {
            let off = off_at(data_off, data.len());
            write_class_data(data, class, maps, slots)?;
            off
        };
        cd_offs.push(cd_off);
        proof {
            assert((data@, cache_view(cache@), iface_offs@, cd_offs@) == class_datas_out(
                old(data)@,
                cache_view(old(cache)@),
                data_off,
                *maps,
                slots@,
                classes@,
                order@.take(a + 1),
            ));
        }
        a = a + 1;
    }
    assert(order@.take(a as int) =~= order@);
    Ok((iface_offs, cd_offs))
}

/// After the static values and annotations directory of `c`: the data and their
/// offsets (0 for none).
pub open spec fn class_extras_out(d: Seq<u8>, data_off: u64, c: BuiltClass) -> (Seq<u8>, u32, u32) {
    let n = static_value_count(c.static_fields@);
    let d1 = if n == 0 {
        d
    } else {
        d + static_value_bytes(c.static_fields@)
    };
    let sv: u32 = if n == 0 {
        0
    } else {
        offset_in(data_off, d.len() as int)
    };
    let w = spec_write_directory(d1, (data_off % 0x1_0000_0000) as u32, directory_model(c.annotations));
    (w.0, sv, w.1)
}

/// After the static values and annotations directories of the classes in `order`.
pub open spec fn classes_extras_out(d: Seq<u8>, data_off: u64, classes: Seq<BuiltClass>, order: Seq<usize>) -> (
    Seq<u8>,
    Seq<u32>,
    Seq<u32>,
)
    decreases order.len(),
{
    if order.len() == 0 {
        (d, Seq::empty(), Seq::empty())
    } else {
        let (d1, svs, anns) = classes_extras_out(d, data_off, classes, order.drop_last());
        let (d2, sv, ann) = class_extras_out(d1, data_off, classes[order.last() as int]);
        (d2, svs.push(sv), anns.push(ann))
    }
}

/// Write each class's static values and annotations directory, in `order`; their offsets.
#[verifier::spinoff_prover]
#[verifier::rlimit(60)]
fn write_class_extras(data: &mut Vec<u8>, data_off: u64, classes: &Vec<BuiltClass>, order: &Vec<usize>) -> (r: (
    Vec<u32>,
    Vec<u32>,
))
    requires
        covers(order@, classes@.len() as int),
    ensures
        r.0@.len() == order@.len(),
        r.1@.len() == order@.len(),
        (final(data)@, r.0@, r.1@) == classes_extras_out(old(data)@, data_off, classes@, order@),
{
    let mut sv_offs: Vec<u32> = Vec::new();
    let mut ann_offs: Vec<u32> = Vec::new();
    let mut a: usize = 0;
    assert(order@.take(0) =~= Seq::<usize>::empty());
    while a < order.len()
        invariant
            a <= order@.len(),
            covers(order@, classes@.len() as int),
            sv_offs@.len() == a,
            ann_offs@.len() == a,
            (data@, sv_offs@, ann_offs@) == classes_extras_out(old(data)@, data_off, classes@, order@.take(a as int)),
        decreases order@.len() - a,
    {
        let class = &classes[order[a]];
        proof {
            assert(order@.take(a + 1).drop_last() =~= order@.take(a as int));
            assert(order@.take(a + 1).last() == order@[a as int]);
        }
        sv_offs.push(write_static_values(data, data_off, class));
        let ann = match write_annotations_directory(data, (data_off % 0x1_0000_0000) as u32, &class.annotations) {
            Ok(o) => o,
            Err(_) => 0,
        };
        ann_offs.push(ann);
        a = a + 1;
    }
    assert(order@.take(a as int) =~= order@);
    (sv_offs, ann_offs)
}

/// The smallest of the offsets that are set in `slots`, and how many are set (counted
/// modulo 2^32); `(0, 0)` when none is.
pub open spec fn spec_set_offsets(slots: Seq<Option<u32>>) -> (u32, u32)
    decreases slots.len(),
{
    if slots.len() == 0 {
        (0, 0)
    } else {
        let (first, count) = spec_set_offsets(slots.drop_last());
        match slots.last() {
            Some(o) => (if count == 0 || o < first { o } else { first }, ((count + 1) % 0x1_0000_0000) as u32),
            None => (first, count),
        }
    }
}

/// The smallest nonzero offset of `offs`, and how many are nonzero (counted modulo 2^32);
/// `(0, 0)` when none is.
pub open spec fn spec_nonzero_offsets(offs: Seq<u32>) -> (u32, u32)
    decreases offs.len(),
{
    if offs.len() == 0 {
        (0, 0)
    } else {
        let (first, count) = spec_nonzero_offsets(offs.drop_last());
        let o = offs.last();
        if o != 0 {
            (if count == 0 || o < first { o } else { first }, ((count + 1) % 0x1_0000_0000) as u32)
        } else {
            (first, count)
        }
    }
}

/// The smallest of the offsets that are set, and how many are set.
fn set_offsets(slots: &Vec<Option<u32>>) -> (r: (u32, u32))
    ensures
        r == spec_set_offsets(slots@),
{
    let mut count: u32 = 0;
    let mut first: u32 = 0;
    let mut i: usize = 0;
    while i < slots.len()
        invariant
            i <= slots@.len(),
            (first, count) == spec_set_offsets(slots@.take(i as int)),
        decreases slots@.len() - i,
    {
        assert(slots@.take(i + 1).drop_last() =~= slots@.take(i as int));
        match slots[i] {
            Some(o) => {
                if count == 0 || o < first {
                    first = o;
                }
                count = count.wrapping_add(1);
            },
            None => {},
        }
        i = i + 1;
    }
    assert(slots@.take(i as int) =~= slots@);
    (first, count)
}

/// The smallest nonzero offset, and how many are nonzero.
fn nonzero_offsets(offs: &Vec<u32>) -> (r: (u32, u32))
    ensures
        r == spec_nonzero_offsets(offs@),
{
    let mut count: u32 = 0;
    let mut first: u32 = 0;
    let mut i: usize = 0;
    while i < offs.len()
        invariant
            i <= offs@.len(),
            (first, count) == spec_nonzero_offsets(offs@.take(i as int)),
        decreases offs@.len() - i,
    {
        assert(offs@.take(i + 1).drop_last() =~= offs@.take(i as int));
        let o = offs[i];
        if o != 0 {
            if count == 0 || o < first {
                first = o;
            }
            count = count.wrapping_add(1);
        }
        i = i + 1;
    }
    assert(offs@.take(i as int) =~= offs@);
    (first, count)
}

/// The sizes and offsets of the id tables.
struct Layout {
    ns: u32,
    nt: u32,
    np: u32,
    nf: u32,
    nm: u32,
    nc: u32,
    string_ids_off: u32,
    type_ids_off: u32,
    proto_ids_off: u32,
    field_ids_off: u32,
    method_ids_off: u32,
    class_defs_off: u32,
}

/// The smallest of `offs` (which is not empty).
pub open spec fn min_off(offs: Seq<u32>) -> u32
    decreases offs.len(),
{
    if offs.len() <= 1 {
        offs[0]
    } else {
        let m = min_off(offs.drop_last());
        if offs.last() < m {
            offs.last()
        } else {
            m
        }
    }
}

/// The offsets of the cached `type_list`s.
pub open spec fn cache_offs(cache: Seq<(Vec<u32>, u32)>) -> Seq<u32> {
    Seq::new(cache.len(), |i: int| cache[i].1)
}

/// `items` with `item` added when `cond` holds.
pub open spec fn push_if(items: Seq<(u16, u32, u32)>, cond: bool, item: (u16, u32, u32)) -> Seq<(u16, u32, u32)> {
    if cond {
        items.push(item)
    } else {
        items
    }
}

/// The entries of the `map_list` before sorting: (type, size, offset) of the header,
/// each id table, string data, code items, class data and type lists that are there,
/// and the map list itself at `map_off`.
spec fn map_items(
    lay: Layout,
    string_data_offs: Seq<u32>,
    slots: Seq<Option<u32>>,
    cd_offs: Seq<u32>,
    cache: Seq<(Vec<u32>, u32)>,
    map_off: u32,
) -> Seq<(u16, u32, u32)> {
    let s0 = seq![(0x0000u16, 1u32, 0u32)];
    let s1 = push_if(s0, lay.ns > 0, (0x0001u16, lay.ns, lay.string_ids_off));
    let s2 = push_if(s1, lay.nt > 0, (0x0002u16, lay.nt, lay.type_ids_off));
    let s3 = push_if(s2, lay.np > 0, (0x0003u16, lay.np, lay.proto_ids_off));
    let s4 = push_if(s3, lay.nf > 0, (0x0004u16, lay.nf, lay.field_ids_off));
    let s5 = push_if(s4, lay.nm > 0, (0x0005u16, lay.nm, lay.method_ids_off));
    let s6 = push_if(s5, lay.nc > 0, (0x0006u16, lay.nc, lay.class_defs_off));
    let s7 = push_if(s6, lay.ns > 0 && string_data_offs.len() > 0, (0x2002u16, lay.ns, string_data_offs[0]));
    let (first_code, code_count) = spec_set_offsets(slots);
    let s8 = push_if(s7, code_count > 0, (0x2001u16, code_count, first_code));
    let (first_cd, cd_count) = spec_nonzero_offsets(cd_offs);
    let s9 = push_if(s8, cd_count > 0, (0x2000u16, cd_count, first_cd));
    let s10 = push_if(s9, cache.len() > 0, (0x1001u16, cache.len() as u32, min_off(cache_offs(cache))));
    s10.push((0x1000u16, 1u32, map_off))
}

/// The sort key of each map entry: its offset, then its type.
pub open spec fn map_keys(items: Seq<(u16, u32, u32)>) -> Seq<Seq<u32>> {
    Seq::new(items.len(), |i: int| seq![items[i].2, items[i].0 as u32])
}

/// One `map_item`: type, unused, size, offset.
pub open spec fn map_entry_bytes(item: (u16, u32, u32)) -> Seq<u8> {
    u16_le_bytes(item.0) + u16_le_bytes(0) + u32_le_bytes(item.1) + u32_le_bytes(item.2)
}

/// A `map_list` of `items` taken in `order`.
pub open spec fn map_list_bytes(items: Seq<(u16, u32, u32)>, order: Seq<usize>) -> Seq<u8> {
    u32_le_bytes(items.len() as u32) + concat_bytes(Seq::new(order.len(), |a: int| map_entry_bytes(items[order[a] as int])))
}

/// Write the `map_list`, sorted by offset then type; its offset.
#[verifier::spinoff_prover]
#[verifier::rlimit(60)]
fn write_map_list(
    data: &mut Vec<u8>,
    data_off: u64,
    lay: &Layout,
    string_data_offs: &Vec<u32>,
    slots: &Vec<Option<u32>>,
    cd_offs: &Vec<u32>,
    cache: &Vec<(Vec<u32>, u32)>,
) -> (map_off: u32)
    ensures
        ({
            let aligned = old(data)@ + zero_pad(old(data)@.len() as int);
            let items = map_items(*lay, string_data_offs@, slots@, cd_offs@, cache@, map_off);
            &&& map_off == ((data_off + aligned.len()) % 0x1_0000_0000) as u32
            &&& exists|order: Seq<usize>|
                is_stable_order(map_keys(items), order) && final(data)@ == aligned + map_list_bytes(items, order)
        }),
{
    align4(data);
    let ghost aligned = data@;
    let map_off = off_at(data_off, data.len());
    let mut items: Vec<(u16, u32, u32)> = Vec::new();
    items.push((0x0000, 1, 0));
    if lay.ns > 0 {
        items.push((0x0001, lay.ns, lay.string_ids_off));
    }
    if lay.nt > 0 {
        items.push((0x0002, lay.nt, lay.type_ids_off));
    }
    if lay.np > 0 {
        items.push((0x0003, lay.np, lay.proto_ids_off));
    }
    if lay.nf > 0 {
        items.push((0x0004, lay.nf, lay.field_ids_off));
    }
    if lay.nm > 0 {
        items.push((0x0005, lay.nm, lay.method_ids_off));
    }
    if lay.nc > 0 {
        items.push((0x0006, lay.nc, lay.class_defs_off));
    }
    if lay.ns > 0 && string_data_offs.len() > 0 {
        items.push((0x2002, lay.ns, string_data_offs[0]));
    }
    let (first_code, code_count) = set_offsets(slots);
    if code_count > 0 {
        items.push((0x2001, code_count, first_code));
    }
    let (first_cd, cd_count) = nonzero_offsets(cd_offs);
    if cd_count > 0 {
        items.push((0x2000, cd_count, first_cd));
    }
    if cache.len() > 0 {
        let mut first = cache[0].1;
        let mut i: usize = 1;
        assert(cache_offs(cache@).take(1) =~= seq![cache@[0].1]);
        while i < cache.len()
            invariant
                1 <= i <= cache@.len(),
                first == min_off(cache_offs(cache@).take(i as int)),
            decreases cache@.len() - i,
        {
            assert(cache_offs(cache@).take(i + 1).drop_last() =~= cache_offs(cache@).take(i as int));
            if cache[i].1 < first {
                first = cache[i].1;
            }
            i = i + 1;
        }
        assert(cache_offs(cache@).take(i as int) =~= cache_offs(cache@));
        items.push((0x1001, cache.len() as u32, first));
    }
    items.push((0x1000, 1, map_off));
    assert(items@ =~= map_items(*lay, string_data_offs@, slots@, cd_offs@, cache@, map_off));
    let mut keys: Vec<Vec<u32>> = Vec::new();
    let mut i: usize = 0;
    while i < items.len()
        invariant
            i <= items@.len(),
            keys@.len() == i,
            forall|j: int| 0 <= j < i ==> (#[trigger] keys@[j])@ == seq![items@[j].2, items@[j].0 as u32],
        decreases items@.len() - i,
    {
        let mut kv: Vec<u32> = Vec::new();
        kv.push(items[i].2);
        kv.push(items[i].0 as u32);
        assert(kv@ =~= seq![items@[i as int].2, items@[i as int].0 as u32]);
        keys.push(kv);
        i = i + 1;
    }
    assert(key_views(keys@) =~= map_keys(items@));
    let order = stable_order(&keys);
    push_u32(data, items.len() as u32);
    let ghost start = data@;
    let ghost f = |a: int| map_entry_bytes(items@[order@[a] as int]);
    let mut a: usize = 0;
    while a < order.len()
        invariant
            a <= order@.len(),
            is_stable_order(key_views(keys@), order@),
            keys@.len() == items@.len(),
            f == (|a: int| map_entry_bytes(items@[order@[a] as int])),
            data@ == start + concat_bytes(Seq::new(a as nat, f)),
        decreases order@.len() - a,
    {
        let (ty, size, off) = items[order[a]];
        push_u16(data, ty);
        push_u16(data, 0);
        push_u32(data, size);
        push_u32(data, off);
        assert(Seq::new((a + 1) as nat, f).drop_last() =~= Seq::new(a as nat, f));
        assert(data@ =~= start + concat_bytes(Seq::new((a + 1) as nat, f)));
        a = a + 1;
    }
    assert(data@ =~= aligned + map_list_bytes(items@, order@));
    map_off
}

/// Little-endian words one after another.
pub open spec fn words_bytes(w: Seq<u32>) -> Seq<u8> {
    concat_bytes(Seq::new(w.len(), |k: int| u32_le_bytes(w[k])))
}

fn push_words(out: &mut Vec<u8>, w: &Vec<u32>)
    ensures
        final(out)@ == old(out)@ + words_bytes(w@),
{
    let ghost start = out@;
    let mut k: usize = 0;
    while k < w.len()
        invariant
            k <= w@.len(),
            out@ == start + concat_bytes(Seq::new(k as nat, |x: int| u32_le_bytes(w@[x]))),
        decreases w@.len() - k,
    {
        push_u32(out, w[k]);
        let ghost f = |x: int| u32_le_bytes(w@[x]);
        assert(Seq::new((k + 1) as nat, f).drop_last() =~= Seq::new(k as nat, f));
        assert(out@ =~= start + concat_bytes(Seq::new((k + 1) as nat, f)));
        k = k + 1;
    }
}

proof fn lemma_words_len(w: Seq<u32>)
    ensures
        words_bytes(w).len() == 4 * w.len(),
    decreases w.len(),
{
    if w.len() > 0 {
        let f = |x: int| u32_le_bytes(w[x]);
        assert(Seq::new(w.len(), f).drop_last() =~= Seq::new(w.drop_last().len(), |x: int| u32_le_bytes(w.drop_last()[x])));
        lemma_words_len(w.drop_last());
    }
}

/// Byte `4k + j` of the words is byte `j` of word `k`.
proof fn lemma_words_index(w: Seq<u32>, k: int, j: int)
    requires
        0 <= k < w.len(),
        0 <= j < 4,
    ensures
        words_bytes(w)[4 * k + j] == u32_le_bytes(w[k])[j],
    decreases w.len(),
{
    let f = |x: int| u32_le_bytes(w[x]);
    let p = w.drop_last();
    assert(Seq::new(w.len(), f).drop_last() =~= Seq::new(p.len(), |x: int| u32_le_bytes(p[x])));
    lemma_words_len(p);
    if k < w.len() - 1 {
        lemma_words_index(p, k, j);
    }
}

/// Word `k` read back from bytes that hold the words from `base` on.
proof fn lemma_word_at(s: Seq<u8>, base: int, w: Seq<u32>, k: int)
    requires
        0 <= base,
        0 <= k < w.len(),
        base + 4 * w.len() <= s.len(),
        s.subrange(base, base + 4 * w.len()) == words_bytes(w),
    ensures
        u32_at(s, base + 4 * k) == w[k],
{
    lemma_words_len(w);
    lemma_words_index(w, k, 0);
    lemma_words_index(w, k, 1);
    lemma_words_index(w, k, 2);
    lemma_words_index(w, k, 3);
    assert(s[base + 4 * k] == words_bytes(w)[4 * k]);
    assert(s[base + 4 * k + 1] == words_bytes(w)[4 * k + 1]);
    assert(s[base + 4 * k + 2] == words_bytes(w)[4 * k + 2]);
    assert(s[base + 4 * k + 3] == words_bytes(w)[4 * k + 3]);
    let v = w[k];
    assert(u32_at(s, base + 4 * k) == v) by {
        crate::leb128::u32_write_read(Seq::new(4, |i: int| 0u8), 0, v);
    }
}

/// The `type_ids` table of `maps`: for each type in id order, the index of its
/// descriptor among the strings.
pub open spec fn type_id_words(maps: PoolMaps) -> Seq<u32> {
    Seq::new(
        maps.type_list().len(),
        |a: int| text_index(maps.string_list(), maps.type_list()[maps.type_order()[a] as int])->0 as u32,
    )
}

/// Where the `field_ids` table of an image of `maps` starts: after the header and the
/// string, type and prototype id tables.
pub open spec fn fields_at(maps: PoolMaps) -> int {
    0x70 + 4 * maps.string_list().len() as int + 4 * maps.type_list().len() as int + 12 * maps.proto_list().len() as int
}

/// A `field_ids` or `method_ids` entry: two 16-bit ids, then a 32-bit string id.
pub open spec fn ref_entry(c: u32, x: u32, n: u32) -> Seq<u8> {
    u16_le_bytes(c as u16) + u16_le_bytes(x as u16) + u32_le_bytes(n)
}

/// Entry `a` of the `field_ids` table of `maps`: for the field with id `a`, the type id of
/// its class, the type id of its type and the string id of its name.
pub open spec fn field_entry(maps: PoolMaps, a: int) -> Seq<u8> {
    let f = maps.field_list()[maps.field_order()[a] as int];
    ref_entry(
        text_id(maps.type_list(), maps.type_ids(), f.0)->0 as u32,
        text_id(maps.type_list(), maps.type_ids(), f.2)->0 as u32,
        text_index(maps.string_list(), f.1)->0 as u32,
    )
}

/// Entry `a` of the `method_ids` table of `maps`: for the method with id `a`, the type id
/// of its class, the id of its prototype and the string id of its name.
pub open spec fn method_entry(maps: PoolMaps, a: int) -> Seq<u8> {
    let m = maps.method_list()[maps.method_order()[a] as int];
    ref_entry(
        text_id(maps.type_list(), maps.type_ids(), m.0)->0 as u32,
        text_id(maps.proto_list(), maps.proto_ids(), m.2)->0 as u32,
        text_index(maps.string_list(), m.1)->0 as u32,
    )
}

/// The `field_ids` table of `maps`.
pub open spec fn field_ids_bytes(maps: PoolMaps) -> Seq<u8> {
    concat_bytes(Seq::new(maps.field_list().len(), |a: int| field_entry(maps, a)))
}

/// The `method_ids` table of `maps`.
pub open spec fn method_ids_bytes(maps: PoolMaps) -> Seq<u8> {
    concat_bytes(Seq::new(maps.method_list().len(), |a: int| method_entry(maps, a)))
}

/// Table sizes in bytes: string, type, proto, field and method ids, class defs.
pub open spec fn tables_len(ns: int, nt: int, np: int, nf: int, nm: int, nc: int) -> int {
    4 * ns + 4 * nt + 12 * np + 8 * nf + 8 * nm + 32 * nc
}

impl PoolMaps {
    /// The `type_ids` table: for each type in id order, the string id of its descriptor.
    fn type_id_table(&self) -> (r: Result<Vec<u32>>)
        ensures
            r is Err ==> r->Err_0 is Parse,
            names_closed(maps_model(*self, Seq::empty())) ==> r is Ok,
            r matches Ok(w) ==> w@ == type_id_words(*self),
    {
        let ghost e = maps_model(*self, Seq::empty());
        proof {
            use_type_invariant(self);
        }
        let mut w: Vec<u32> = Vec::new();
        let mut a: usize = 0;
        while a < self.types.len()
            invariant
                e == maps_model(*self, Seq::empty()),
                a <= self.types@.len() == self.type_order@.len(),
                forall|x: int| 0 <= x < self.type_order@.len() ==> #[trigger] self.type_order@[x] < self.types@.len(),
                w@ == type_id_words(*self).take(a as int),
            decreases self.types@.len() - a,
        {
            proof {
                if names_closed(e) {
                    let t = self.type_list()[self.type_order@[a as int] as int];
                    assert(self.type_list().contains(t));
                    assert(e.types.contains(t));
                }
            }
            let sid = self.string_id(self.types[self.type_order[a]].as_str())?;
            w.push(sid);
            a = a + 1;
            assert(w@ =~= type_id_words(*self).take(a as int));
        }
        assert(type_id_words(*self).take(a as int) =~= type_id_words(*self));
        Ok(w)
    }

    /// Append the `proto_ids` table.
    fn write_id_tables(&self, out: &mut Vec<u8>, proto_param_offs: &Vec<u32>) -> (r: Result<()>)
        requires
            proto_param_offs@.len() == self.proto_list().len(),
        ensures
            r is Ok ==> final(out)@.len() == old(out)@.len() + 12 * self.proto_list().len(),
            r is Err ==> r->Err_0 is Parse,
            names_closed(maps_model(*self, Seq::empty())) ==> r is Ok,
    {
        let ghost e = maps_model(*self, Seq::empty());
        proof {
            use_type_invariant(self);
        }
        let ghost t_end = out@.len();
        let mut a: usize = 0;
        while a < self.protos.len()
            invariant
                e == maps_model(*self, Seq::empty()),
                a <= self.protos@.len() == self.proto_order@.len() == proto_param_offs@.len(),
                forall|x: int| 0 <= x < self.proto_order@.len() ==> #[trigger] self.proto_order@[x] < self.protos@.len(),
                out@.len() == t_end + 12 * a,
            decreases self.protos@.len() - a,
        {
            let ghost pt = self.proto_list()[self.proto_order@[a as int] as int];
            proof {
                if names_closed(e) {
                    assert(self.proto_list().contains(pt));
                    assert(e.protos.contains(pt));
                    assert(proto_interned(e, pt));
                }
            }
            let (params, ret) = parse_proto(self.protos[self.proto_order[a]].as_str());
            let shorty = make_shorty(params.as_slice(), ret.as_str());
            assert(shorty@ == spec_shorty(proto_parts(pt).0, proto_parts(pt).1));
            let sid = self.string_id(shorty.as_str())?;
            let rid = self.type_id(ret.as_str())?;
            push_u32(out, sid);
            push_u32(out, rid);
            push_u32(out, proto_param_offs[a]);
            a = a + 1;
        }
        Ok(())
    }

    /// Append the `field_ids` table: class type id, type id and name string id of each
    /// field in id order.
    fn write_field_ids(&self, out: &mut Vec<u8>) -> (r: Result<()>)
        ensures
            r is Ok ==> final(out)@ == old(out)@ + field_ids_bytes(*self),
            r is Ok ==> field_ids_bytes(*self).len() == 8 * self.field_list().len(),
            r is Err ==> r->Err_0 is Parse,
            names_closed(maps_model(*self, Seq::empty())) ==> r is Ok,
    {
        let ghost e = maps_model(*self, Seq::empty());
        proof {
            use_type_invariant(self);
        }
        let ghost start = out@;
        let ghost f = |x: int| field_entry(*self, x);
        let mut a: usize = 0;
        while a < self.fields.len()
            invariant
                e == maps_model(*self, Seq::empty()),
                a <= self.fields@.len() == self.field_order@.len(),
                forall|x: int| 0 <= x < self.field_order@.len() ==> #[trigger] self.field_order@[x] < self.fields@.len(),
                f == (|x: int| field_entry(*self, x)),
                out@ == start + concat_bytes(Seq::new(a as nat, f)),
                concat_bytes(Seq::new(a as nat, f)).len() == 8 * a,
            decreases self.fields@.len() - a,
        {
            let fr = &self.fields[self.field_order[a]];
            proof {
                if names_closed(e) {
                    let t = self.field_list()[self.field_order@[a as int] as int];
                    assert(self.field_list().contains(t));
                    assert(e.fields.contains(t));
                }
            }
            let ci = self.type_id(fr.0.as_str())?;
            let ti = self.type_id(fr.2.as_str())?;
            let ni = self.string_id(fr.1.as_str())?;
            push_u16(out, ci as u16);
            push_u16(out, ti as u16);
            push_u32(out, ni);
            proof {
                assert(Seq::new((a + 1) as nat, f).drop_last() =~= Seq::new(a as nat, f));
                assert(Seq::new((a + 1) as nat, f).last() == field_entry(*self, a as int));
            }
            assert(out@ =~= start + concat_bytes(Seq::new((a + 1) as nat, f)));
            a = a + 1;
        }
        assert(Seq::new(a as nat, f) =~= Seq::new(self.field_list().len(), |x: int| field_entry(*self, x)));
        Ok(())
    }

    /// Append the `method_ids` table: class type id, proto id and name string id of each
    /// method in id order.
    fn write_method_ids(&self, out: &mut Vec<u8>) -> (r: Result<()>)
        ensures
            r is Ok ==> final(out)@ == old(out)@ + method_ids_bytes(*self),
            r is Ok ==> method_ids_bytes(*self).len() == 8 * self.method_list().len(),
            r is Err ==> r->Err_0 is Parse,
            names_closed(maps_model(*self, Seq::empty())) ==> r is Ok,
    {
        let ghost e = maps_model(*self, Seq::empty());
        proof {
            use_type_invariant(self);
        }
        let ghost start = out@;
        let ghost f = |x: int| method_entry(*self, x);
        let mut a: usize = 0;
        while a < self.methods.len()
            invariant
                e == maps_model(*self, Seq::empty()),
                a <= self.methods@.len() == self.method_order@.len(),
                forall|x: int| 0 <= x < self.method_order@.len() ==> #[trigger] self.method_order@[x] < self.methods@.len(),
                f == (|x: int| method_entry(*self, x)),
                out@ == start + concat_bytes(Seq::new(a as nat, f)),
                concat_bytes(Seq::new(a as nat, f)).len() == 8 * a,
            decreases self.methods@.len() - a,
        {
            let m = &self.methods[self.method_order[a]];
            proof {
                if names_closed(e) {
                    let t = self.method_list()[self.method_order@[a as int] as int];
                    assert(self.method_list().contains(t));
                    assert(e.methods.contains(t));
                    assert(e.protos.contains(t.2));
                }
            }
            let ci = self.type_id(m.0.as_str())?;
            let pi = self.proto(m.2.as_str())?;
            let ni = self.string_id(m.1.as_str())?;
            push_u16(out, ci as u16);
            push_u16(out, pi as u16);
            push_u32(out, ni);
            proof {
                assert(Seq::new((a + 1) as nat, f).drop_last() =~= Seq::new(a as nat, f));
                assert(Seq::new((a + 1) as nat, f).last() == method_entry(*self, a as int));
            }
            assert(out@ =~= start + concat_bytes(Seq::new((a + 1) as nat, f)));
            a = a + 1;
        }
        assert(Seq::new(a as nat, f) =~= Seq::new(self.method_list().len(), |x: int| method_entry(*self, x)));
        Ok(())
    }
}

/// Append the `class_def_item`s of the classes in `order`.
fn write_class_defs(
    out: &mut Vec<u8>,
    maps: &PoolMaps,
    classes: &Vec<BuiltClass>,
    order: &Vec<usize>,
    iface_offs: &Vec<u32>,
    ann_offs: &Vec<u32>,
    cd_offs: &Vec<u32>,
    sv_offs: &Vec<u32>,
) -> (r: Result<()>)
    requires
        covers(order@, classes@.len() as int),
        iface_offs@.len() == order@.len(),
        ann_offs@.len() == order@.len(),
        cd_offs@.len() == order@.len(),
        sv_offs@.len() == order@.len(),
    ensures
        r is Ok ==> final(out)@.len() == old(out)@.len() + 32 * order@.len(),
        r is Err ==> r->Err_0 is Parse,
        (forall|i: int| 0 <= i < classes@.len() ==> class_listed(*maps, #[trigger] classes@[i])) ==> r is Ok,
{
    let ghost start = out@.len();
    let mut a: usize = 0;
    while a < order.len()
        invariant
            a <= order@.len(),
            covers(order@, classes@.len() as int),
            iface_offs@.len() == order@.len(),
            ann_offs@.len() == order@.len(),
            cd_offs@.len() == order@.len(),
            sv_offs@.len() == order@.len(),
            out@.len() == start + 32 * a,
        decreases order@.len() - a,
    {
        let class = &classes[order[a]];
        proof {
            if forall|i: int| 0 <= i < classes@.len() ==> class_listed(*maps, #[trigger] classes@[i]) {
                let c = classes@[order@[a as int] as int];
                assert(class_listed(*maps, c));
                assert(maps_model(*maps, Seq::empty()).types.contains(c.descriptor@));
                match c.superclass {
                    Some(sc) => assert(maps_model(*maps, Seq::empty()).types.contains(sc@)),
                    None => {},
                }
                match c.source_file {
                    Some(f) => assert(maps_model(*maps, Seq::empty()).strings.contains(f@)),
                    None => {},
                }
            }
        }
        let ci = maps.type_id(class.descriptor.as_str())?;
        let super_idx = match &class.superclass {
            Some(sc) => maps.type_id(sc.as_str())?,
            None => NO_INDEX,
        };
        let sf = match &class.source_file {
            Some(f) => maps.string_id(f.as_str())?,
            None => NO_INDEX,
        };
        push_u32(out, ci);
        push_u32(out, class.access_flags);
        push_u32(out, super_idx);
        push_u32(out, iface_offs[a]);
        push_u32(out, sf);
        push_u32(out, ann_offs[a]);
        push_u32(out, cd_offs[a]);
        push_u32(out, sv_offs[a]);
        a = a + 1;
    }
    Ok(())
}

/// The `dex\n035\0` magic.
pub open spec fn dex_magic_035() -> Seq<u8> {
    seq![0x64u8, 0x65u8, 0x78u8, 0x0au8, 0x30u8, 0x33u8, 0x35u8, 0x00u8]
}

/// What the header of a built image says: the magic, its own size and the file's,
/// the endian tag, the size of each id table (that of each pool and the number of
/// classes), a data section that runs to the end, a valid SHA-1 signature and an
/// Adler-32 checksum over the final bytes.
pub open spec fn built_header(out: Seq<u8>, m: BuilderModel) -> bool {
    &&& out.len() >= 0x70
    &&& out.subrange(0, 8) == dex_magic_035()
    &&& u32_at(out, 32) == out.len()
    &&& u32_at(out, 36) == 0x70
    &&& u32_at(out, 40) == 0x12345678
    &&& u32_at(out, 56) == m.strings.len()
    &&& u32_at(out, 60) == 0x70
    &&& u32_at(out, 64) == m.types.len()
    &&& u32_at(out, 72) == m.protos.len()
    &&& u32_at(out, 80) == m.fields.len()
    &&& u32_at(out, 88) == m.methods.len()
    &&& u32_at(out, 96) == m.classes.len()
    &&& u32_at(out, 104) + u32_at(out, 108) == out.len()
    &&& out.subrange(12, 32) == sha1_of(out.subrange(32, out.len() as int))
    &&& u32_at(out, 8) == crate::dex::write::checksum_of(out)
}

/// The model of a builder with nothing interned yet.
pub open spec fn empty_model() -> BuilderModel {
    BuilderModel {
        strings: Set::empty(),
        types: Set::empty(),
        protos: Set::empty(),
        fields: Set::empty(),
        methods: Set::empty(),
        classes: Seq::empty(),
    }
}

/// The header and the id tables of an image of `m` end within 32-bit offsets.
pub open spec fn ids_fit(m: BuilderModel) -> bool {
    0x70 + 4 * m.strings.len() + 4 * m.types.len() + 12 * m.protos.len() + 8 * m.fields.len() + 8 * m.methods.len()
        + 32 * m.classes.len() <= 0xffff_ffff
}

/// The magic and 24 zero bytes where checksum and signature will go.
fn header_start() -> (v: Vec<u8>)
    ensures
        v@ == dex_magic_035() + Seq::new(24, |i: int| 0u8),
{
    let mut v: Vec<u8> = Vec::new();
    v.push(0x64);
    v.push(0x65);
    v.push(0x78);
    v.push(0x0a);
    v.push(0x30);
    v.push(0x33);
    v.push(0x35);
    v.push(0x00);
    let mut k: usize = 0;
    while k < 24
        invariant
            k <= 24,
            v@ == dex_magic_035() + Seq::new(k as nat, |i: int| 0u8),
        decreases 24 - k,
    {
        v.push(0);
        assert(v@ =~= dex_magic_035() + Seq::new((k + 1) as nat, |i: int| 0u8));
        k = k + 1;
    }
    v
}

/// The twenty header words from offset 32: file size, header size, endian tag, link
/// size and offset, map offset, then size and offset of each id table, then data size
/// and offset.
fn header_words(
    file_size: u32,
    map_off: u32,
    ns: u32,
    nt: u32,
    np: u32,
    nf: u32,
    nm: u32,
    nc: u32,
    offs: (u32, u32, u32, u32, u32),
    data_size: u32,
    data_off: u32,
) -> (w: Vec<u32>)
    ensures
        w@ == seq![
            file_size,
            0x70u32,
            0x12345678u32,
            0u32,
            0u32,
            map_off,
            ns,
            0x70u32,
            nt,
            offs.0,
            np,
            offs.1,
            nf,
            offs.2,
            nm,
            offs.3,
            nc,
            offs.4,
            data_size,
            data_off,
        ],
{
    let mut w: Vec<u32> = Vec::new();
    w.push(file_size);
    w.push(0x70);
    w.push(0x12345678);
    w.push(0);
    w.push(0);
    w.push(map_off);
    w.push(ns);
    w.push(0x70);
    w.push(nt);
    w.push(offs.0);
    w.push(np);
    w.push(offs.1);
    w.push(nf);
    w.push(offs.2);
    w.push(nm);
    w.push(offs.3);
    w.push(nc);
    w.push(offs.4);
    w.push(data_size);
    w.push(data_off);
    assert(w@ =~= seq![
        file_size,
        0x70u32,
        0x12345678u32,
        0u32,
        0u32,
        map_off,
        ns,
        0x70u32,
        nt,
        offs.0,
        np,
        offs.1,
        nf,
        offs.2,
        nm,
        offs.3,
        nc,
        offs.4,
        data_size,
        data_off,
    ]);
    w
}

/// Filling in the signature and checksum keeps what a built header says, and signs it.
pub proof fn lemma_checksums_keep_header(out: Seq<u8>, fixed: Seq<u8>, m: BuilderModel)
    requires
        out.len() >= 0x70,
        out.subrange(0, 8) == dex_magic_035(),
        u32_at(out, 32) == out.len(),
        u32_at(out, 36) == 0x70,
        u32_at(out, 40) == 0x12345678,
        u32_at(out, 56) == m.strings.len(),
        u32_at(out, 60) == 0x70,
        u32_at(out, 64) == m.types.len(),
        u32_at(out, 72) == m.protos.len(),
        u32_at(out, 80) == m.fields.len(),
        u32_at(out, 88) == m.methods.len(),
        u32_at(out, 96) == m.classes.len(),
        u32_at(out, 104) + u32_at(out, 108) == out.len(),
        sha1_of(out.subrange(32, out.len() as int)).len() == 20,
        fixed == crate::dex::write::resigned(out),
    ensures
        built_header(fixed, m),
{
    crate::dex::write::resigning_signs(out);
    assert(fixed.subrange(0, 8) =~= out.subrange(0, 8));
    assert(fixed.subrange(32, fixed.len() as int) =~= out.subrange(32, out.len() as int));
}

/// Filling in the signature and checksum of a built image keeps what its header says.
pub proof fn lemma_resign_keeps_header(out: Seq<u8>, fixed: Seq<u8>, m: BuilderModel)
    requires
        built_header(out, m),
        fixed == crate::dex::write::resigned(out),
    ensures
        built_header(fixed, m),
{
    lemma_checksums_keep_header(out, fixed, m);
}

/// The data section and the offsets the id tables point at.
struct DataSection {
    data: Vec<u8>,
    string_data_offs: Vec<u32>,
    proto_param_offs: Vec<u32>,
    iface_offs: Vec<u32>,
    cd_offs: Vec<u32>,
    sv_offs: Vec<u32>,
    ann_offs: Vec<u32>,
    map_off: u32,
}

/// Whether `b` holds: 1 when it does, else 0.
pub open spec fn one_if(b: bool) -> nat {
    if b {
        1
    } else {
        0
    }
}

/// How many entries the `map_list` has: the header, each non-empty id table, string
/// data, code items, class data and type lists when there are any, and the map list.
pub open spec fn map_item_count(
    maps: PoolMaps,
    ncls: nat,
    string_offs: Seq<u32>,
    slots: Seq<Option<u32>>,
    cd_offs: Seq<u32>,
    ncache: nat,
) -> nat {
    let ns = maps.string_list().len();
    2 + one_if(ns > 0) + one_if(maps.type_list().len() > 0) + one_if(maps.proto_list().len() > 0) + one_if(
        maps.field_list().len() > 0,
    ) + one_if(maps.method_list().len() > 0) + one_if(ncls > 0) + one_if(ns > 0 && string_offs.len() > 0) + one_if(
        spec_set_offsets(slots).1 > 0,
    ) + one_if(spec_nonzero_offsets(cd_offs).1 > 0) + one_if(ncache > 0)
}

/// The data section before its `map_list`, for the pools of `maps` and `classes` in
/// `order`, placed at file offset `data_off`: string data, prototype parameter lists,
/// code items, interface lists and class data, static values and annotations; and what
/// the map list counts.
pub ghost struct DataParts {
    pub bytes: Seq<u8>,
    pub string_offs: Seq<u32>,
    pub slots: Seq<Option<u32>>,
    pub cd_offs: Seq<u32>,
    pub ncache: nat,
}

/// The parts of the data section, in the order they are written.
#[verifier::opaque]
pub open spec fn data_parts(maps: PoolMaps, classes: Seq<BuiltClass>, order: Seq<usize>, data_off: u64) -> DataParts {
    let (d1, so) = strings_out(Seq::empty(), data_off, maps.string_list());
    let (d2, c2, po) = protos_out(d1, Seq::empty(), data_off, maps, maps.proto_list().len());
    let (d3, sl) = classes_code_out(
        d2,
        Seq::new(maps.method_list().len(), |i: int| None::<u32>),
        data_off,
        maps,
        classes,
        order,
    );
    let (d4, c4, io, cd) = class_datas_out(d3, c2, data_off, maps, sl, classes, order);
    let (d5, sv, an) = classes_extras_out(d4, data_off, classes, order);
    DataParts { bytes: d5, string_offs: so, slots: sl, cd_offs: cd, ncache: c4.len() }
}

/// The length of the whole data section: its parts, padding to four, then the
/// `map_list` (a count and 12 bytes per entry).
pub open spec fn data_len(maps: PoolMaps, classes: Seq<BuiltClass>, order: Seq<usize>, data_off: u64) -> nat {
    let p = data_parts(maps, classes, order, data_off);
    padded(p.bytes).len() + 4 + 12 * map_item_count(maps, classes.len(), p.string_offs, p.slots, p.cd_offs, p.ncache)
}

proof fn lemma_concat_uniform(parts: Seq<Seq<u8>>, w: nat)
    requires
        forall|i: int| 0 <= i < parts.len() ==> (#[trigger] parts[i]).len() == w,
    ensures
        concat_bytes(parts).len() == w * parts.len(),
    decreases parts.len(),
{
    if parts.len() > 0 {
        lemma_concat_uniform(parts.drop_last(), w);
        assert(w * parts.len() == w * (parts.len() - 1) + w) by (nonlinear_arith);
    }
}

proof fn lemma_map_list_len(
    lay: Layout,
    maps: PoolMaps,
    ncls: nat,
    so: Seq<u32>,
    sl: Seq<Option<u32>>,
    cd: Seq<u32>,
    cache: Seq<(Vec<u32>, u32)>,
    map_off: u32,
    d5: Seq<u8>,
    d: Seq<u8>,
)
    requires
        lay.ns == maps.string_list().len(),
        lay.nt == maps.type_list().len(),
        lay.np == maps.proto_list().len(),
        lay.nf == maps.field_list().len(),
        lay.nm == maps.method_list().len(),
        lay.nc == ncls,
        exists|order: Seq<usize>|
            is_stable_order(map_keys(map_items(lay, so, sl, cd, cache, map_off)), order) && d == padded(d5)
                + map_list_bytes(map_items(lay, so, sl, cd, cache, map_off), order),
    ensures
        d.len() == padded(d5).len() + 4 + 12 * map_item_count(maps, ncls, so, sl, cd, cache.len()),
{
    let items = map_items(lay, so, sl, cd, cache, map_off);
    assert(items.len() == map_item_count(maps, ncls, so, sl, cd, cache.len()));
    let order = choose|order: Seq<usize>|
        is_stable_order(map_keys(items), order) && d == padded(d5) + map_list_bytes(items, order);
    let parts = Seq::new(order.len(), |a: int| map_entry_bytes(items[order[a] as int]));
    lemma_concat_uniform(parts, 12);
}

/// Emit the data section at `data_off`: string data, type lists, code items, class
/// data, static values, annotations, and the map list.
#[verifier::spinoff_prover]
#[verifier::rlimit(100)]
fn emit_data(maps: &PoolMaps, classes: &Vec<BuiltClass>, corder: &Vec<usize>, data_off: u64, lay: &Layout) -> (r: Result<
    DataSection,
>)
    requires
        covers(corder@, classes@.len() as int),
        classes_fit(classes@),
        lay.ns == maps.string_list().len(),
        lay.nt == maps.type_list().len(),
        lay.np == maps.proto_list().len(),
        lay.nf == maps.field_list().len(),
        lay.nm == maps.method_list().len(),
        lay.nc == classes@.len(),
    ensures
        r is Ok ==> classes_even(classes@),
        classes_even(classes@) && names_closed(maps_model(*maps, classes@)) ==> r is Ok,
        r matches Ok(d) ==> d.string_data_offs@.len() == maps.string_list().len() && d.proto_param_offs@.len()
            == maps.proto_list().len() && d.iface_offs@.len() == corder@.len() && d.cd_offs@.len() == corder@.len()
            && d.sv_offs@.len() == corder@.len() && d.ann_offs@.len() == corder@.len(),
        r is Err ==> r->Err_0 is Parse,
        r matches Ok(d) ==> d.data@.len() == data_len(*maps, classes@, corder@, data_off),
        r matches Ok(d) ==> d.string_data_offs@ == data_parts(*maps, classes@, corder@, data_off).string_offs,
        r matches Ok(d) ==> d.data@.subrange(0, data_parts(*maps, classes@, corder@, data_off).bytes.len() as int)
            == data_parts(*maps, classes@, corder@, data_off).bytes,
{
    proof {
        use_type_invariant(maps);
        if names_closed(maps_model(*maps, classes@)) {
            lemma_closed_parts(*maps, classes@);
        }
    }
    let ghost parts = data_parts(*maps, classes@, corder@, data_off);
    let mut data: Vec<u8> = Vec::new();
    let string_data_offs = write_string_data(&mut data, data_off, &maps.strings);
    let ghost d1 = data@;
    let mut cache: Vec<(Vec<u32>, u32)> = Vec::new();
    proof {
        assert(cache_view(cache@) =~= Seq::<(Seq<u32>, u32)>::empty());
    }
    let proto_param_offs = maps.write_proto_lists(&mut data, &mut cache, data_off)?;
    let ghost d2 = data@;
    let ghost c2 = cache_view(cache@);
    let nm = maps.methods.len();
    let mut slots: Vec<Option<u32>> = Vec::new();
    let mut k: usize = 0;
    while k < nm
        invariant
            k <= nm,
            slots@ == Seq::new(k as nat, |i: int| None::<u32>),
        decreases nm - k,
    {
        slots.push(None);
        k = k + 1;
        assert(slots@ =~= Seq::new(k as nat, |i: int| None::<u32>));
    }
    let ghost s0 = slots@;
    write_codes(&mut data, data_off, classes, corder, maps, &mut slots)?;
    let ghost d3 = data@;
    let (iface_offs, cd_offs) = write_class_datas(&mut data, &mut cache, data_off, classes, corder, maps, &slots)?;
    let (sv_offs, ann_offs) = write_class_extras(&mut data, data_off, classes, corder);
    let ghost d5 = data@;
    proof {
        assert(string_data_offs@.len() == maps.string_list().len());
        assert(d5 == parts.bytes && slots@ == parts.slots && cd_offs@ == parts.cd_offs
            && string_data_offs@ == parts.string_offs && cache@.len() == parts.ncache) by {
            reveal(data_parts);
            assert(maps.method_list().len() == nm);
            assert(s0 =~= Seq::new(maps.method_list().len(), |i: int| None::<u32>));
        }
    }
    let map_off = write_map_list(&mut data, data_off, lay, &string_data_offs, &slots, &cd_offs, &cache);
    proof {
        lemma_map_list_len(*lay, *maps, classes@.len(), string_data_offs@, slots@, cd_offs@, cache@, map_off, d5, data@);
        assert(data@.subrange(0, d5.len() as int) =~= d5);
    }
    Ok(DataSection { data, string_data_offs, proto_param_offs, iface_offs, cd_offs, sv_offs, ann_offs, map_off })
}

/// What the header of an image says, read back from the words written at offset 32.
proof fn lemma_header_read_back(
    unsigned: Seq<u8>,
    words: Seq<u32>,
    m: BuilderModel,
    ns: int,
    nt: int,
    np: int,
    nf: int,
    nm: int,
    nc: int,
)
    requires
        unsigned.len() >= 112,
        unsigned.subrange(0, 8) == dex_magic_035(),
        unsigned.subrange(32, 112) == words_bytes(words),
        words.len() == 20,
        words[0] == unsigned.len(),
        words[1] == 0x70,
        words[2] == 0x12345678,
        words[6] == ns && ns == m.strings.len(),
        words[7] == 0x70,
        words[8] == nt && nt == m.types.len(),
        words[10] == np && np == m.protos.len(),
        words[12] == nf && nf == m.fields.len(),
        words[14] == nm && nm == m.methods.len(),
        words[16] == nc && nc == m.classes.len(),
        words[18] + words[19] == unsigned.len(),
    ensures
        unsigned.len() >= 0x70,
        unsigned.subrange(0, 8) == dex_magic_035(),
        u32_at(unsigned, 32) == unsigned.len(),
        u32_at(unsigned, 36) == 0x70,
        u32_at(unsigned, 40) == 0x12345678,
        u32_at(unsigned, 56) == m.strings.len(),
        u32_at(unsigned, 60) == 0x70,
        u32_at(unsigned, 64) == m.types.len(),
        u32_at(unsigned, 72) == m.protos.len(),
        u32_at(unsigned, 80) == m.fields.len(),
        u32_at(unsigned, 88) == m.methods.len(),
        u32_at(unsigned, 96) == m.classes.len(),
        u32_at(unsigned, 104) + u32_at(unsigned, 108) == unsigned.len(),
{
    lemma_word_at(unsigned, 32, words, 0);
    lemma_word_at(unsigned, 32, words, 1);
    lemma_word_at(unsigned, 32, words, 2);
    lemma_word_at(unsigned, 32, words, 6);
    lemma_word_at(unsigned, 32, words, 7);
    lemma_word_at(unsigned, 32, words, 8);
    lemma_word_at(unsigned, 32, words, 10);
    lemma_word_at(unsigned, 32, words, 12);
    lemma_word_at(unsigned, 32, words, 14);
    lemma_word_at(unsigned, 32, words, 16);
    lemma_word_at(unsigned, 32, words, 18);
    lemma_word_at(unsigned, 32, words, 19);
}

/// The header followed by the id tables: what precedes the data section.
fn emit_head(
    maps: &PoolMaps,
    classes: &Vec<BuiltClass>,
    corder: &Vec<usize>,
    d: &DataSection,
    words: &Vec<u32>,
) -> (r: Result<Vec<u8>>)
    requires
        covers(corder@, classes@.len() as int),
        words@.len() == 20,
        d.string_data_offs@.len() == maps.string_list().len(),
        d.proto_param_offs@.len() == maps.proto_list().len(),
        d.iface_offs@.len() == corder@.len(),
        d.cd_offs@.len() == corder@.len(),
        d.sv_offs@.len() == corder@.len(),
        d.ann_offs@.len() == corder@.len(),
    ensures
        r matches Ok(out) ==> out@.len() == 112 + tables_len(
            maps.string_list().len() as int,
            maps.type_list().len() as int,
            maps.proto_list().len() as int,
            maps.field_list().len() as int,
            maps.method_list().len() as int,
            classes@.len() as int,
        ) && out@.subrange(0, 8) == dex_magic_035() && out@.subrange(32, 112) == words_bytes(words@)
            && out@.subrange(112, 112 + 4 * d.string_data_offs@.len() as int) == words_bytes(d.string_data_offs@)
            && out@.subrange(112 + 4 * d.string_data_offs@.len() as int, 112 + 4 * d.string_data_offs@.len() as int + 4
            * maps.type_list().len()) == words_bytes(type_id_words(*maps)) && out@.subrange(
            fields_at(*maps),
            fields_at(*maps) + 8 * maps.field_list().len(),
        ) == field_ids_bytes(*maps) && out@.subrange(
            fields_at(*maps) + 8 * maps.field_list().len(),
            fields_at(*maps) + 8 * maps.field_list().len() + 8 * maps.method_list().len(),
        ) == method_ids_bytes(*maps),
        r is Err ==> r->Err_0 is Parse,
        names_closed(maps_model(*maps, classes@)) ==> r is Ok,
{
    proof {
        if names_closed(maps_model(*maps, classes@)) {
            lemma_closed_parts(*maps, classes@);
        }
    }
    let mut tables: Vec<u8> = Vec::new();
    push_words(&mut tables, &d.string_data_offs);
    let ghost sids = tables@;
    proof {
        lemma_words_len(d.string_data_offs@);
    }
    let tw = maps.type_id_table()?;
    push_words(&mut tables, &tw);
    let ghost with_types = tables@;
    proof {
        lemma_words_len(tw@);
    }
    let mut rest: Vec<u8> = Vec::new();
    maps.write_id_tables(&mut rest, &d.proto_param_offs)?;
    let ghost with_protos = rest@;
    maps.write_field_ids(&mut rest)?;
    let ghost with_fields = rest@;
    maps.write_method_ids(&mut rest)?;
    let ghost with_methods = rest@;
    let mut cdefs: Vec<u8> = Vec::new();
    write_class_defs(&mut cdefs, maps, classes, corder, &d.iface_offs, &d.ann_offs, &d.cd_offs, &d.sv_offs)?;
    append(&mut rest, cdefs);
    append(&mut tables, rest);
    let ghost all = tables@;
    let mut out = header_start();
    push_words(&mut out, words);
    let ghost head = out@;
    proof {
        lemma_words_len(words@);
    }
    append(&mut out, tables);
    assert(out@.subrange(0, 8) =~= head.subrange(0, 8));
    assert(out@.subrange(32, 112) =~= head.subrange(32, 112));
    proof {
        assert(all.subrange(0, sids.len() as int) =~= sids);
        assert(out@.subrange(112, 112 + sids.len() as int) =~= all.subrange(0, sids.len() as int));
        let a = sids.len() as int;
        let b = with_types.len() as int;
        assert(all.subrange(a, b) =~= words_bytes(tw@));
        assert(out@.subrange(112 + a, 112 + b) =~= all.subrange(a, b));
        let pz = with_protos.len() as int;
        let fz = with_fields.len() as int;
        let mz = with_methods.len() as int;
        assert(all.subrange(b + pz, b + fz) =~= field_ids_bytes(*maps));
        assert(out@.subrange(112 + b + pz, 112 + b + fz) =~= all.subrange(b + pz, b + fz));
        assert(all.subrange(b + fz, b + mz) =~= method_ids_bytes(*maps));
        assert(out@.subrange(112 + b + fz, 112 + b + mz) =~= all.subrange(b + fz, b + mz));
    }
    Ok(out)
}

/// `maps` holds the pools of `m`, each in ascending order, with ids assigned as the
/// format orders them.
#[verifier::opaque]
pub open spec fn maps_for(maps: PoolMaps, m: BuilderModel) -> bool {
    &&& maps.string_list().to_set() == m.strings
    &&& ascending(maps.string_list())
    &&& maps.type_list().to_set() == m.types
    &&& ascending(maps.type_list())
    &&& maps.proto_list().to_set() == m.protos
    &&& ascending(maps.proto_list())
    &&& maps.field_list().to_set() == m.fields
    &&& ascending_triples(maps.field_list())
    &&& maps.method_list().to_set() == m.methods
    &&& ascending_triples(maps.method_list())
    &&& maps.ids_consistent()
}

/// Where the id tables of an image with the pools of `maps` and `nc` classes end, and
/// its data section starts.
pub open spec fn ids_end(maps: PoolMaps, nc: nat) -> int {
    0x70 + tables_len(
        maps.string_list().len() as int,
        maps.type_list().len() as int,
        maps.proto_list().len() as int,
        maps.field_list().len() as int,
        maps.method_list().len() as int,
        nc as int,
    )
}

/// The length of the image of the pools of `maps` and `classes` placed in `order`: the
/// header, the id tables, then the data section.
pub open spec fn image_len(maps: PoolMaps, classes: Seq<BuiltClass>, order: Seq<usize>) -> int {
    let e = ids_end(maps, classes.len());
    e + data_len(maps, classes, order, e as u64)
}

/// The image of `m` fits 32-bit offsets: for its pools in ascending order and its
/// classes in class-key order, the whole image is at most 0xffff_ffff bytes.
#[verifier::opaque]
pub open spec fn image_fits(m: BuilderModel) -> bool {
    forall|maps: PoolMaps, order: Seq<usize>|
        maps_for(maps, m) && is_stable_order(class_key_views(maps, m.classes), order) ==> #[trigger] image_len(
            maps,
            m.classes,
            order,
        ) <= 0xffff_ffff
}

/// `out` is laid out as the image of the pools of `maps` and `classes` in `order`: its
/// length, the `string_ids` table right after the header (the offset of each string in
/// pool order), the `type_ids` table after it (the string id of each descriptor in type
/// id order), the `field_ids` and `method_ids` tables (class, type or prototype, and name
/// of each member reference in id order), and the data section at the end of the id tables, which holds the string
/// data, parameter lists, code items, interface lists, class data, static values and
/// annotations (the `map_list` follows them).
#[verifier::opaque]
pub open spec fn image_laid_out(out: Seq<u8>, maps: PoolMaps, classes: Seq<BuiltClass>, order: Seq<usize>) -> bool {
    let e = ids_end(maps, classes.len());
    let p = data_parts(maps, classes, order, e as u64);
    &&& out.len() == image_len(maps, classes, order)
    &&& out.subrange(0x70, 0x70 + 4 * maps.string_list().len() as int) == words_bytes(p.string_offs)
    &&& out.subrange(0x70 + 4 * maps.string_list().len() as int, 0x70 + 4 * maps.string_list().len() as int + 4
        * maps.type_list().len() as int) == words_bytes(type_id_words(maps))
    &&& out.subrange(fields_at(maps), fields_at(maps) + 8 * maps.field_list().len()) == field_ids_bytes(maps)
    &&& out.subrange(
        fields_at(maps) + 8 * maps.field_list().len(),
        fields_at(maps) + 8 * maps.field_list().len() + 8 * maps.method_list().len(),
    ) == method_ids_bytes(maps)
    &&& out.subrange(e, e + p.bytes.len()) == p.bytes
}

proof fn lemma_resign_keeps_layout(u: Seq<u8>, out: Seq<u8>, maps: PoolMaps, classes: Seq<BuiltClass>, order: Seq<usize>)
    requires
        image_laid_out(u, maps, classes, order),
        out.len() == u.len(),
        forall|i: int| 0 <= i < u.len() && !(8 <= i < 32) ==> #[trigger] out[i] == u[i],
        ids_end(maps, classes.len()) >= 0x70,
    ensures
        image_laid_out(out, maps, classes, order),
{
    reveal(image_laid_out);
    let e = ids_end(maps, classes.len());
    let p = data_parts(maps, classes, order, e as u64);
    let n: int = 4 * maps.string_list().len() as int;
    let t: int = 4 * maps.type_list().len() as int;
    assert(out.subrange(0x70, 0x70 + n) =~= u.subrange(0x70, 0x70 + n));
    assert(out.subrange(0x70 + n, 0x70 + n + t) =~= u.subrange(0x70 + n, 0x70 + n + t));
    let fa = fields_at(maps);
    let fl = 8 * maps.field_list().len();
    let ml = 8 * maps.method_list().len();
    assert(out.subrange(fa, fa + fl) =~= u.subrange(fa, fa + fl));
    assert(out.subrange(fa + fl, fa + fl + ml) =~= u.subrange(fa + fl, fa + fl + ml));
    assert(out.subrange(e, e + p.bytes.len()) =~= u.subrange(e, e + p.bytes.len()));
}

proof fn lemma_unsigned_layout(
    head: Seq<u8>,
    dd: Seq<u8>,
    unsigned: Seq<u8>,
    maps: PoolMaps,
    classes: Seq<BuiltClass>,
    order: Seq<usize>,
)
    requires
        head.len() == ids_end(maps, classes.len()),
        head.subrange(112, 112 + 4 * data_parts(maps, classes, order, head.len() as u64).string_offs.len() as int)
            == words_bytes(data_parts(maps, classes, order, head.len() as u64).string_offs),
        data_parts(maps, classes, order, head.len() as u64).string_offs.len() == maps.string_list().len(),
        head.subrange(
            112 + 4 * maps.string_list().len() as int,
            112 + 4 * maps.string_list().len() as int + 4 * maps.type_list().len() as int,
        ) == words_bytes(type_id_words(maps)),
        head.subrange(fields_at(maps), fields_at(maps) + 8 * maps.field_list().len()) == field_ids_bytes(maps),
        head.subrange(
            fields_at(maps) + 8 * maps.field_list().len(),
            fields_at(maps) + 8 * maps.field_list().len() + 8 * maps.method_list().len(),
        ) == method_ids_bytes(maps),
        dd.len() == data_len(maps, classes, order, head.len() as u64),
        dd.subrange(0, data_parts(maps, classes, order, head.len() as u64).bytes.len() as int) == data_parts(
            maps,
            classes,
            order,
            head.len() as u64,
        ).bytes,
        unsigned == head + dd,
    ensures
        image_laid_out(unsigned, maps, classes, order),
{
    reveal(image_laid_out);
    let e = ids_end(maps, classes.len());
    let p = data_parts(maps, classes, order, e as u64);
    let n: int = 4 * maps.string_list().len() as int;
    let t: int = 4 * maps.type_list().len() as int;
    assert(unsigned.subrange(0x70, 0x70 + n) =~= head.subrange(0x70, 0x70 + n));
    assert(unsigned.subrange(0x70 + n, 0x70 + n + t) =~= head.subrange(0x70 + n, 0x70 + n + t));
    let fa = fields_at(maps);
    let fl = 8 * maps.field_list().len();
    let ml = 8 * maps.method_list().len();
    assert(unsigned.subrange(fa, fa + fl) =~= head.subrange(fa, fa + fl));
    assert(unsigned.subrange(fa + fl, fa + fl + ml) =~= head.subrange(fa + fl, fa + fl + ml));
    assert(unsigned.subrange(e, e + p.bytes.len()) =~= dd.subrange(0, p.bytes.len() as int));
}

/// The header, the id tables, then the data section `d`, unsigned.
#[verifier::spinoff_prover]
#[verifier::rlimit(60)]
fn assemble(
    maps: &PoolMaps,
    classes: &Vec<BuiltClass>,
    corder: &Vec<usize>,
    d: DataSection,
    words: &Vec<u32>,
    data_off: u64,
) -> (r: Result<Vec<u8>>)
    requires
        covers(corder@, classes@.len() as int),
        words@.len() == 20,
        d.string_data_offs@.len() == maps.string_list().len(),
        d.proto_param_offs@.len() == maps.proto_list().len(),
        d.iface_offs@.len() == corder@.len(),
        d.cd_offs@.len() == corder@.len(),
        d.sv_offs@.len() == corder@.len(),
        d.ann_offs@.len() == corder@.len(),
        data_off == ids_end(*maps, classes@.len()),
        d.data@.len() == data_len(*maps, classes@, corder@, data_off),
        d.string_data_offs@ == data_parts(*maps, classes@, corder@, data_off).string_offs,
        d.data@.subrange(0, data_parts(*maps, classes@, corder@, data_off).bytes.len() as int) == data_parts(
            *maps,
            classes@,
            corder@,
            data_off,
        ).bytes,
    ensures
        r is Err ==> r->Err_0 is Parse,
        names_closed(maps_model(*maps, classes@)) ==> r is Ok,
        r matches Ok(out) ==> out@.len() == data_off + d.data@.len() && out@.subrange(0, 8) == dex_magic_035()
            && out@.subrange(32, 112) == words_bytes(words@) && image_laid_out(out@, *maps, classes@, corder@),
{
    let mut out = emit_head(maps, classes, corder, &d, words)?;
    let ghost head = out@;
    let ghost dd = d.data@;
    append(&mut out, d.data);
    proof {
        assert(out@.subrange(0, 8) =~= head.subrange(0, 8));
        assert(out@.subrange(32, 112) =~= head.subrange(32, 112));
        lemma_unsigned_layout(head, dd, out@, *maps, classes@, corder@);
    }
    Ok(out)
}

/// `out` is the image of `m`: laid out for its pools `maps` (ascending) and its classes
/// in `order` (class-key order).
#[verifier::opaque]
pub open spec fn image_of(out: Seq<u8>, maps: PoolMaps, m: BuilderModel, order: Seq<usize>) -> bool {
    &&& image_laid_out(out, maps, m.classes, order)
    &&& maps_for(maps, m)
    &&& is_stable_order(class_key_views(maps, m.classes), order)
}

proof fn lemma_image_of(unsigned: Seq<u8>, out: Seq<u8>, maps: PoolMaps, m: BuilderModel, order: Seq<usize>)
    requires
        image_laid_out(unsigned, maps, m.classes, order),
        unsigned.len() >= 0x70,
        ids_end(maps, m.classes.len()) >= 0x70,
        sha1_of(unsigned.subrange(32, unsigned.len() as int)).len() == 20,
        out == resigned(unsigned),
        maps_for(maps, m),
        is_stable_order(class_key_views(maps, m.classes), order),
    ensures
        image_of(out, maps, m, order),
{
    reveal(image_of);
    crate::dex::write::resigning_signs(unsigned);
    lemma_resign_keeps_layout(unsigned, out, maps, m.classes, order);
}

proof fn lemma_image_fits(m: BuilderModel, maps: PoolMaps, order: Seq<usize>)
    requires
        maps_for(maps, m),
        is_stable_order(class_key_views(maps, m.classes), order),
    ensures
        image_fits(m) ==> image_len(maps, m.classes, order) <= 0xffff_ffff,
        image_len(maps, m.classes, order) > 0xffff_ffff ==> !image_fits(m),
{
    reveal(image_fits);
}

/// Fill in the checksum and signature of the unsigned image `out` of `m`, laid out for
/// `maps` and `order` and headed by `words`.
#[verifier::spinoff_prover]
#[verifier::rlimit(60)]
fn sign_built(
    out: Vec<u8>,
    Ghost(words): Ghost<Seq<u32>>,
    Ghost(m): Ghost<BuilderModel>,
    Ghost(maps): Ghost<PoolMaps>,
    Ghost(order): Ghost<Seq<usize>>,
    Ghost(counts): Ghost<(int, int, int, int, int, int)>,
) -> (r: Vec<u8>)
    requires
        out@.len() >= 112,
        out@.subrange(0, 8) == dex_magic_035(),
        out@.subrange(32, 112) == words_bytes(words),
        words.len() == 20,
        words[0] == out@.len(),
        words[1] == 0x70,
        words[2] == 0x12345678,
        words[6] == counts.0 && counts.0 == m.strings.len(),
        words[7] == 0x70,
        words[8] == counts.1 && counts.1 == m.types.len(),
        words[10] == counts.2 && counts.2 == m.protos.len(),
        words[12] == counts.3 && counts.3 == m.fields.len(),
        words[14] == counts.4 && counts.4 == m.methods.len(),
        words[16] == counts.5 && counts.5 == m.classes.len(),
        words[18] + words[19] == out@.len(),
        image_laid_out(out@, maps, m.classes, order),
        ids_end(maps, m.classes.len()) >= 0x70,
        maps_for(maps, m),
        is_stable_order(class_key_views(maps, m.classes), order),
    ensures
        built_header(r@, m),
        image_of(r@, maps, m, order),
{
    let mut out = out;
    let ghost unsigned = out@;
    proof {
        lemma_header_read_back(unsigned, words, m, counts.0, counts.1, counts.2, counts.3, counts.4, counts.5);
    }
    let _ = fix_checksums(out.as_mut_slice());
    proof {
        lemma_checksums_keep_header(unsigned, out@, m);
        lemma_image_of(unsigned, out@, maps, m, order);
    }
    out
}

/// The image of `model`, whose pools are `maps` and whose classes are `classes` in
/// `corder`: the id tables sized, the data section, the header, then the checksum and
/// signature.
#[verifier::spinoff_prover]
#[verifier::rlimit(100)]
fn emit_image(maps: &PoolMaps, classes: &Vec<BuiltClass>, corder: &Vec<usize>, Ghost(model): Ghost<BuilderModel>) -> (r:
    Result<Vec<u8>>)
    requires
        maps_model(*maps, classes@) == model,
        names_closed(model),
        maps_for(*maps, model),
        is_stable_order(class_key_views(*maps, model.classes), corder@),
        covers(corder@, classes@.len() as int),
        classes_fit(classes@),
        maps.strings.len() == model.strings.len(),
        maps.types.len() == model.types.len(),
        maps.protos.len() == model.protos.len(),
        maps.fields.len() == model.fields.len(),
        maps.methods.len() == model.methods.len(),
        classes@.len() == model.classes.len(),
    ensures
        r is Ok ==> classes_even(model.classes),
        r matches Ok(out) ==> built_header(out@, model) && image_of(out@, *maps, model, corder@),
        r is Err ==> r->Err_0 is Parse,
        r matches Err(e) ==> !classes_even(model.classes) || (e matches DexError::Parse(m) && m@ == "dex too large"@),
        !ids_fit(model) ==> (r matches Err(DexError::Parse(m)) && m@ == "dex too large"@),
        r is Ok ==> ids_fit(model),
        classes_even(model.classes) && image_len(*maps, model.classes, corder@) <= 0xffff_ffff ==> r is Ok,
        r matches Err(e) ==> !classes_even(model.classes) || image_len(*maps, model.classes, corder@) > 0xffff_ffff,
{
    let ns = maps.strings.len();
    let nt = maps.types.len();
    let np = maps.protos.len();
    let nf = maps.fields.len();
    let nm = maps.methods.len();
    let nc = classes.len();
    if ns > 0xffff_ffff || nt > 0xffff_ffff || np > 0xffff_ffff || nf > 0xffff_ffff || nm > 0xffff_ffff || nc
        > 0xffff_ffff {
        proof {
            assert(image_len(*maps, model.classes, corder@) > 0xffff_ffff);
        }
        return Err(parse_error("dex too large"));
    }
    let type_ids_off: u64 = 0x70 + 4 * ns as u64;
    let proto_ids_off: u64 = type_ids_off + 4 * nt as u64;
    let field_ids_off: u64 = proto_ids_off + 12 * np as u64;
    let method_ids_off: u64 = field_ids_off + 8 * nf as u64;
    let class_defs_off: u64 = method_ids_off + 8 * nm as u64;
    let data_off: u64 = class_defs_off + 32 * nc as u64;
    proof {
        assert(data_off as int == ids_end(*maps, classes@.len()));
    }
    if data_off > 0xffff_ffff {
        proof {
            assert(image_len(*maps, model.classes, corder@) > 0xffff_ffff);
        }
        return Err(parse_error("dex too large"));
    }
    let lay = Layout {
        ns: ns as u32,
        nt: nt as u32,
        np: np as u32,
        nf: nf as u32,
        nm: nm as u32,
        nc: nc as u32,
        string_ids_off: 0x70,
        type_ids_off: type_ids_off as u32,
        proto_ids_off: proto_ids_off as u32,
        field_ids_off: field_ids_off as u32,
        method_ids_off: method_ids_off as u32,
        class_defs_off: class_defs_off as u32,
    };
    let d = emit_data(maps, classes, corder, data_off, &lay)?;
    if d.data.len() > 0xffff_ffff || data_off + d.data.len() as u64 > 0xffff_ffff {
        proof {
            assert(image_len(*maps, model.classes, corder@) > 0xffff_ffff);
        }
        return Err(parse_error("dex too large"));
    }
    let data_size = d.data.len() as u32;
    let file_size = (data_off + d.data.len() as u64) as u32;
    let words = header_words(
        file_size,
        d.map_off,
        ns as u32,
        nt as u32,
        np as u32,
        nf as u32,
        nm as u32,
        nc as u32,
        (type_ids_off as u32, proto_ids_off as u32, field_ids_off as u32, method_ids_off as u32, class_defs_off as u32),
        data_size,
        data_off as u32,
    );
    let out = assemble(maps, classes, corder, d, &words, data_off)?;
    let counts = Ghost((ns as int, nt as int, np as int, nf as int, nm as int, nc as int));
    Ok(sign_built(out, Ghost(words@), Ghost(model), Ghost(*maps), Ghost(corder@), counts))
}

impl DexBuilder {
    /// Lay out and emit the DEX image: the header, the id tables, then the data section
    /// (string data, type lists, code items, class data, static values, annotations,
    /// map list), with the checksum and signature filled in. `Parse` when a method body
    /// has an odd number of instruction bytes, when a name is missing from the pools, or
    /// when the image would not fit 32-bit offsets. The image is laid out as
    /// [`image_of`] says; of the `proto_ids` and `class_defs` tables only the sizes are
    /// stated.
    #[verifier::spinoff_prover]
    #[verifier::rlimit(100)]
    pub fn finish(self) -> (r: Result<Vec<u8>>)
        requires
            classes_fit(self@.classes),
        ensures
            r is Ok ==> classes_even(self@.classes),
            r is Ok ==> built_header(r->Ok_0@, self@),
            r is Err ==> r->Err_0 is Parse,
            r matches Err(e) ==> !classes_even(self@.classes) || (e matches DexError::Parse(m) && m@
                == "dex too large"@),
            !ids_fit(self@) ==> (r matches Err(DexError::Parse(m)) && m@ == "dex too large"@),
            r is Ok ==> ids_fit(self@),
            classes_even(self@.classes) && image_fits(self@) ==> r is Ok,
            r matches Err(e) ==> !classes_even(self@.classes) || !image_fits(self@),
            r matches Ok(out) ==> exists|maps: PoolMaps, order: Seq<usize>| #[trigger] image_of(out@, maps, self@, order),
    {
        proof {
            use_type_invariant(&self);
        }
        let ghost model = self@;
        let maps = self.pool_maps();
        proof {
            use_type_invariant(&maps);
            lemma_text_pool_distinct(maps.strings@);
            lemma_text_pool_distinct(maps.types@);
            lemma_text_pool_distinct(maps.protos@);
            lemma_triple_pool_distinct(maps.fields@);
            lemma_triple_pool_distinct(maps.methods@);
            texts(maps.strings@).unique_seq_to_set();
            texts(maps.types@).unique_seq_to_set();
            texts(maps.protos@).unique_seq_to_set();
            triples(maps.fields@).unique_seq_to_set();
            triples(maps.methods@).unique_seq_to_set();
        }
        let classes = self.inner.classes;
        assert(classes@ == model.classes);
        assert(maps_model(maps, classes@) == model);
        let ckeys = class_keys(&maps, &classes);
        let corder = stable_order(&ckeys);
        proof {
            assert(maps_for(maps, model));
            assert(is_stable_order(class_key_views(maps, model.classes), corder@));
            lemma_image_fits(model, maps, corder@);
        }
        emit_image(&maps, &classes, &corder, Ghost(model))
    }
}

} // verus!
