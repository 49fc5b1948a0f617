//! Annotations directory / sets / items (DEX).

use vstd::prelude::*;

use crate::dex::encoded_value::{
    annotation_model, decode_encoded_annotation, encode_encoded_annotation, fault_error,
    lemma_encoded_annotation_roundtrip, spec_decode_annotation, spec_encode_annotation, counts_fit, DecodeFault, EncodedAnnotation, EncodedValue, ValueModel,
};
use crate::error::{truncated, DexError, Result};
use crate::leb128::{read_u32, spec_read_u32, u32_at, u32_le_bytes};
use crate::text::same_text;

verus! {

pub const VISIBILITY_BUILD: u8 = 0x00;

pub const VISIBILITY_RUNTIME: u8 = 0x01;

pub const VISIBILITY_SYSTEM: u8 = 0x02;

/// One `annotation_item`: visibility byte and the annotation.
#[derive(Debug)]
pub struct AnnotationItem {
    pub visibility: u8,
    pub annotation: EncodedAnnotation,
}

/// The annotations of a class: its own set, then per-field, per-method and
/// per-parameter sets keyed by field / method index.
#[derive(Debug)]
pub struct AnnotationsDirectory {
    pub class_annotations: Vec<AnnotationItem>,
    pub field_annotations: Vec<(u32, Vec<AnnotationItem>)>,
    pub method_annotations: Vec<(u32, Vec<AnnotationItem>)>,
    pub parameter_annotations: Vec<(u32, Vec<Vec<AnnotationItem>>)>,
}

/// Mathematical form of an [`AnnotationItem`].
pub ghost struct ItemModel {
    pub visibility: u8,
    pub annotation: (u32, Seq<(u32, ValueModel)>),
}

/// Mathematical form of an [`AnnotationsDirectory`].
pub ghost struct DirectoryModel {
    pub class: Seq<ItemModel>,
    pub fields: Seq<(u32, Seq<ItemModel>)>,
    pub methods: Seq<(u32, Seq<ItemModel>)>,
    pub params: Seq<(u32, Seq<Seq<ItemModel>>)>,
}

pub open spec fn item_model(i: AnnotationItem) -> ItemModel {
    ItemModel { visibility: i.visibility, annotation: annotation_model(i.annotation) }
}

pub open spec fn set_model(s: Seq<AnnotationItem>) -> Seq<ItemModel> {
    Seq::new(s.len(), |k: int| item_model(s[k]))
}

pub open spec fn sets_model(s: Seq<Vec<AnnotationItem>>) -> Seq<Seq<ItemModel>> {
    Seq::new(s.len(), |k: int| set_model(s[k]@))
}

pub open spec fn entries_model(s: Seq<(u32, Vec<AnnotationItem>)>) -> Seq<(u32, Seq<ItemModel>)> {
    Seq::new(s.len(), |k: int| (s[k].0, set_model(s[k].1@)))
}

pub open spec fn param_entries_model(s: Seq<(u32, Vec<Vec<AnnotationItem>>)>) -> Seq<(u32, Seq<Seq<ItemModel>>)> {
    Seq::new(s.len(), |k: int| (s[k].0, sets_model(s[k].1@)))
}

pub open spec fn directory_model(d: AnnotationsDirectory) -> DirectoryModel {
    DirectoryModel {
        class: set_model(d.class_annotations@),
        fields: entries_model(d.field_annotations@),
        methods: entries_model(d.method_annotations@),
        params: param_entries_model(d.parameter_annotations@),
    }
}

/// The directory with no annotations at all.
pub open spec fn empty_directory() -> DirectoryModel {
    DirectoryModel { class: Seq::empty(), fields: Seq::empty(), methods: Seq::empty(), params: Seq::empty() }
}

impl Default for AnnotationsDirectory {
    fn default() -> (d: Self)
        ensures
            directory_model(d) == empty_directory(),
    {
        let d = AnnotationsDirectory {
            class_annotations: Vec::new(),
            field_annotations: Vec::new(),
            method_annotations: Vec::new(),
            parameter_annotations: Vec::new(),
        };
        assert(set_model(d.class_annotations@) =~= Seq::<ItemModel>::empty());
        assert(entries_model(d.field_annotations@) =~= Seq::<(u32, Seq<ItemModel>)>::empty());
        assert(entries_model(d.method_annotations@) =~= Seq::<(u32, Seq<ItemModel>)>::empty());
        assert(param_entries_model(d.parameter_annotations@) =~= Seq::<(u32, Seq<Seq<ItemModel>>)>::empty());
        d
    }
}

// ---------------------------------------------------------------------------
// Reading
// ---------------------------------------------------------------------------

/// An `annotation_item` at `off`: visibility byte, then an `encoded_annotation`.
#[verifier::opaque]
pub open spec fn spec_parse_item(data: Seq<u8>, off: int) -> core::result::Result<ItemModel, DecodeFault> {
    if off < 0 || off >= data.len() {
        Err(DecodeFault::Truncated)
    } else {
        match spec_decode_annotation(data, off + 1) {
            Ok((a, _)) => Ok(ItemModel { visibility: data[off], annotation: a }),
            Err(f) => Err(f),
        }
    }
}

/// `count` items named by the table of `u32` offsets at `pos`.
pub open spec fn spec_parse_items(data: Seq<u8>, pos: int, count: nat) -> core::result::Result<Seq<ItemModel>, DecodeFault>
    decreases count,
{
    if count == 0 {
        Ok(Seq::empty())
    } else {
        match spec_read_u32(data, pos) {
            None => Err(DecodeFault::Truncated),
            Some(o) => match spec_parse_item(data, o as int) {
                Err(f) => Err(f),
                Ok(it) => match spec_parse_items(data, pos + 4, (count - 1) as nat) {
                    Ok(rest) => Ok(seq![it] + rest),
                    Err(f) => Err(f),
                },
            },
        }
    }
}

/// An `annotation_set_item` at `off` (0 stands for the empty set).
#[verifier::opaque]
pub open spec fn spec_parse_set(data: Seq<u8>, off: u32) -> core::result::Result<Seq<ItemModel>, DecodeFault> {
    if off == 0 {
        Ok(Seq::empty())
    } else if off + 4 > data.len() {
        Err(DecodeFault::Truncated)
    } else {
        spec_parse_items(data, off + 4, u32_at(data, off as int) as nat)
    }
}

/// `count` sets named by the table of `u32` offsets at `pos`; an offset that
/// cannot be read counts as 0 (an empty set).
pub open spec fn spec_parse_sets(data: Seq<u8>, pos: int, count: nat) -> core::result::Result<Seq<Seq<ItemModel>>, DecodeFault>
    decreases count,
{
    if count == 0 {
        Ok(Seq::empty())
    } else {
        let o = match spec_read_u32(data, pos) {
            Some(o) => o,
            None => 0u32,
        };
        match spec_parse_set(data, o) {
            Err(f) => Err(f),
            Ok(s) => match spec_parse_sets(data, pos + 4, (count - 1) as nat) {
                Ok(rest) => Ok(seq![s] + rest),
                Err(f) => Err(f),
            },
        }
    }
}

/// An `annotation_set_ref_list` at `off` (0 stands for the empty list).
#[verifier::opaque]
pub open spec fn spec_parse_ref_list(data: Seq<u8>, off: u32) -> core::result::Result<Seq<Seq<ItemModel>>, DecodeFault> {
    if off == 0 {
        Ok(Seq::empty())
    } else if off + 4 > data.len() {
        Err(DecodeFault::Truncated)
    } else {
        spec_parse_sets(data, off + 4, u32_at(data, off as int) as nat)
    }
}

/// `count` `(index, set offset)` pairs at `pos`.
pub open spec fn spec_parse_entries(data: Seq<u8>, pos: int, count: nat) -> core::result::Result<Seq<(u32, Seq<ItemModel>)>, DecodeFault>
    decreases count,
{
    if count == 0 {
        Ok(Seq::empty())
    } else if pos < 0 || pos + 8 > data.len() {
        Err(DecodeFault::Truncated)
    } else {
        match spec_parse_set(data, u32_at(data, pos + 4)) {
            Err(f) => Err(f),
            Ok(s) => match spec_parse_entries(data, pos + 8, (count - 1) as nat) {
                Ok(rest) => Ok(seq![(u32_at(data, pos), s)] + rest),
                Err(f) => Err(f),
            },
        }
    }
}

/// `count` `(method index, ref list offset)` pairs at `pos`.
pub open spec fn spec_parse_param_entries(data: Seq<u8>, pos: int, count: nat) -> core::result::Result<Seq<(u32, Seq<Seq<ItemModel>>)>, DecodeFault>
    decreases count,
{
    if count == 0 {
        Ok(Seq::empty())
    } else if pos < 0 || pos + 8 > data.len() {
        Err(DecodeFault::Truncated)
    } else {
        match spec_parse_ref_list(data, u32_at(data, pos + 4)) {
            Err(f) => Err(f),
            Ok(s) => match spec_parse_param_entries(data, pos + 8, (count - 1) as nat) {
                Ok(rest) => Ok(seq![(u32_at(data, pos), s)] + rest),
                Err(f) => Err(f),
            },
        }
    }
}

/// An `annotations_directory_item` at `off` (0 stands for no annotations): class set
/// offset, three counts, then the field, method and parameter pairs in that order.
#[verifier::opaque]
pub open spec fn spec_parse_directory(data: Seq<u8>, off: u32) -> core::result::Result<DirectoryModel, DecodeFault> {
    if off == 0 {
        Ok(empty_directory())
    } else if off + 16 > data.len() {
        Err(DecodeFault::Truncated)
    } else {
        let o = off as int;
        let nf = u32_at(data, o + 4) as nat;
        let nm = u32_at(data, o + 8) as nat;
        let np = u32_at(data, o + 12) as nat;
        match spec_parse_set(data, u32_at(data, o)) {
            Err(f) => Err(f),
            Ok(c) => match spec_parse_entries(data, o + 16, nf) {
                Err(f) => Err(f),
                Ok(fs) => match spec_parse_entries(data, o + 16 + 8 * nf, nm) {
                    Err(f) => Err(f),
                    Ok(ms) => match spec_parse_param_entries(data, o + 16 + 8 * nf + 8 * nm, np) {
                        Err(f) => Err(f),
                        Ok(ps) => Ok(DirectoryModel { class: c, fields: fs, methods: ms, params: ps }),
                    },
                },
            },
        }
    }
}

fn parse_annotation_item(data: &[u8], off: u32) -> (r: Result<AnnotationItem>)
    ensures
        match r {
            Ok(it) => spec_parse_item(data@, off as int) == Ok::<_, DecodeFault>(item_model(it)),
            Err(e) => spec_parse_item(data@, off as int) matches Err(f) && fault_error(e, f),
        },
{
    reveal(spec_parse_item);
    let _len = data.len();
    if off as u64 >= data.len() as u64 {
        return Err(truncated("annotation_item"));
    }
    let pos = off as usize;
    let visibility = data[pos];
    let (annotation, _) = match decode_encoded_annotation(data, pos + 1) {
        Ok(x) => x,
        Err(e) => return Err(e),
    };
    Ok(AnnotationItem { visibility, annotation })
}

fn parse_annotation_set(data: &[u8], off: u32) -> (r: Result<Vec<AnnotationItem>>)
    ensures
        match r {
            Ok(s) => spec_parse_set(data@, off) == Ok::<_, DecodeFault>(set_model(s@)),
            Err(e) => spec_parse_set(data@, off) matches Err(f) && fault_error(e, f),
        },
{
    reveal(spec_parse_set);
    if off == 0 {
        let v: Vec<AnnotationItem> = Vec::new();
        assert(set_model(v@) =~= Seq::<ItemModel>::empty());
        return Ok(v);
    }
    let _len = data.len();
    if off as u64 + 4 > data.len() as u64 {
        return Err(truncated("annotation_set"));
    }
    let size = match read_u32(data, off as usize) {
        Some(x) => x,
        None => 0,
    };
    let mut out: Vec<AnnotationItem> = Vec::new();
    let mut p: usize = off as usize + 4;
    let mut i: u32 = 0;
    let ghost total = spec_parse_items(data@, off + 4, size as nat);
    assert(set_model(out@) =~= Seq::<ItemModel>::empty());
    while i < size
        invariant
            i <= size,
            p <= data@.len() <= usize::MAX,
            size == u32_at(data@, off as int),
            total == spec_parse_items(data@, off + 4, size as nat),
            spec_parse_set(data@, off) == total,
            total == match spec_parse_items(data@, p as int, (size - i) as nat) {
                Ok(rest) => Ok::<_, DecodeFault>(set_model(out@) + rest),
                Err(f) => Err(f),
            },
        decreases size - i,
    {
        let item_off = match read_u32(data, p) {
            Some(x) => x,
            None => return Err(truncated("annotation_off")),
        };
        let item = match parse_annotation_item(data, item_off) {
            Ok(x) => x,
            Err(e) => return Err(e),
        };
        let ghost before = out@;
        out.push(item);
        proof {
            assert(set_model(out@) =~= set_model(before).push(item_model(item)));
            match spec_parse_items(data@, p + 4, (size - i - 1) as nat) {
                Ok(rest) => {
                    assert(set_model(before) + (seq![item_model(item)] + rest) =~= set_model(out@) + rest);
                },
                Err(_) => {},
            }
        }
        p = p + 4;
        i = i + 1;
    }
    assert(set_model(out@) + Seq::<ItemModel>::empty() =~= set_model(out@));
    Ok(out)
}

/// Reads the `u32` at `p` when it lies inside `data`.
fn u32_or_zero(data: &[u8], p: u64) -> (r: u32)
    ensures
        r == match spec_read_u32(data@, p as int) {
            Some(o) => o,
            None => 0u32,
        },
{
    if p > data.len() as u64 {
        return 0;
    }
    match read_u32(data, p as usize) {
        Some(x) => x,
        None => 0,
    }
}

fn parse_annotation_set_ref_list(data: &[u8], off: u32) -> (r: Result<Vec<Vec<AnnotationItem>>>)
    ensures
        match r {
            Ok(s) => spec_parse_ref_list(data@, off) == Ok::<_, DecodeFault>(sets_model(s@)),
            Err(e) => spec_parse_ref_list(data@, off) matches Err(f) && fault_error(e, f),
        },
{
    reveal(spec_parse_ref_list);
    if off == 0 {
        let v: Vec<Vec<AnnotationItem>> = Vec::new();
        assert(sets_model(v@) =~= Seq::<Seq<ItemModel>>::empty());
        return Ok(v);
    }
    let _len = data.len();
    if off as u64 + 4 > data.len() as u64 {
        return Err(truncated("annotation_set_ref_list"));
    }
    let size = match read_u32(data, off as usize) {
        Some(x) => x,
        None => 0,
    };
    let mut out: Vec<Vec<AnnotationItem>> = Vec::new();
    let mut p: u64 = off as u64 + 4;
    let mut i: u32 = 0;
    let ghost total = spec_parse_sets(data@, off + 4, size as nat);
    assert(sets_model(out@) =~= Seq::<Seq<ItemModel>>::empty());
    while i < size
        invariant
            i <= size,
            p == off + 4 + 4 * i,
            p <= 0x5_0000_0004,
            size == u32_at(data@, off as int),
            total == spec_parse_sets(data@, off + 4, size as nat),
            spec_parse_ref_list(data@, off) == total,
            total == match spec_parse_sets(data@, p as int, (size - i) as nat) {
                Ok(rest) => Ok::<_, DecodeFault>(sets_model(out@) + rest),
                Err(f) => Err(f),
            },
        decreases size - i,
    {
        let set_off = u32_or_zero(data, p);
        let set = match parse_annotation_set(data, set_off) {
            Ok(x) => x,
            Err(e) => return Err(e),
        };
        let ghost before = out@;
        let ghost sm = set_model(set@);
        out.push(set);
        proof {
            assert(sets_model(out@) =~= sets_model(before).push(sm));
            match spec_parse_sets(data@, p + 4, (size - i - 1) as nat) {
                Ok(rest) => {
                    assert(sets_model(before) + (seq![sm] + rest) =~= sets_model(out@) + rest);
                },
                Err(_) => {},
            }
        }
        p = p + 4;
        i = i + 1;
    }
    assert(sets_model(out@) + Seq::<Seq<ItemModel>>::empty() =~= sets_model(out@));
    Ok(out)
}

/// Whether 8 bytes starting at `pos` lie inside `data`.
fn has_pair(data: &[u8], pos: usize) -> (r: bool)
    ensures
        r == (pos + 8 <= data@.len()),
{
    data.len() >= 8 && pos <= data.len() - 8
}

fn parse_entry(data: &[u8], p: usize) -> (r: Result<(u32, Vec<AnnotationItem>)>)
    requires
        p + 8 <= data@.len(),
    ensures
        match r {
            Ok((idx, s)) => idx == u32_at(data@, p as int) && spec_parse_set(data@, u32_at(data@, p + 4))
                == Ok::<_, DecodeFault>(set_model(s@)),
            Err(e) => spec_parse_set(data@, u32_at(data@, p + 4)) matches Err(f) && fault_error(e, f),
        },
{
    let _len = data.len();
    let idx = match read_u32(data, p) {
        Some(x) => x,
        None => 0,
    };
    let set_off = match read_u32(data, p + 4) {
        Some(x) => x,
        None => 0,
    };
    match parse_annotation_set(data, set_off) {
        Ok(set) => Ok((idx, set)),
        Err(e) => Err(e),
    }
}

fn parse_param_entry(data: &[u8], p: usize) -> (r: Result<(u32, Vec<Vec<AnnotationItem>>)>)
    requires
        p + 8 <= data@.len(),
    ensures
        match r {
            Ok((idx, s)) => idx == u32_at(data@, p as int) && spec_parse_ref_list(data@, u32_at(data@, p + 4))
                == Ok::<_, DecodeFault>(sets_model(s@)),
            Err(e) => spec_parse_ref_list(data@, u32_at(data@, p + 4)) matches Err(f) && fault_error(e, f),
        },
{
    let _len = data.len();
    let idx = match read_u32(data, p) {
        Some(x) => x,
        None => 0,
    };
    let list_off = match read_u32(data, p + 4) {
        Some(x) => x,
        None => 0,
    };
    match parse_annotation_set_ref_list(data, list_off) {
        Ok(sets) => Ok((idx, sets)),
        Err(e) => Err(e),
    }
}

fn parse_entries(data: &[u8], pos: usize, count: u32, what: &str) -> (r: Result<(Vec<(u32, Vec<AnnotationItem>)>, usize)>)
    requires
        pos <= data@.len(),
    ensures
        match r {
            Ok((es, np)) => spec_parse_entries(data@, pos as int, count as nat) == Ok::<_, DecodeFault>(
                entries_model(es@),
            ) && np == pos + 8 * count,
            Err(e) => spec_parse_entries(data@, pos as int, count as nat) matches Err(f) && fault_error(e, f),
        },
{
    let _len = data.len();
    let mut out: Vec<(u32, Vec<AnnotationItem>)> = Vec::new();
    let mut p: usize = pos;
    let mut i: u32 = 0;
    let ghost total = spec_parse_entries(data@, pos as int, count as nat);
    assert(entries_model(out@) =~= Seq::<(u32, Seq<ItemModel>)>::empty());
    while i < count
        invariant
            i <= count,
            p == pos + 8 * i,
            p <= data@.len() <= usize::MAX,
            total == spec_parse_entries(data@, pos as int, count as nat),
            total == match spec_parse_entries(data@, p as int, (count - i) as nat) {
                Ok(rest) => Ok::<_, DecodeFault>(entries_model(out@) + rest),
                Err(f) => Err(f),
            },
        decreases count - i,
    {
        if !has_pair(data, p) {
            return Err(truncated(what));
        }
        let (idx, set) = match parse_entry(data, p) {
            Ok(x) => x,
            Err(e) => return Err(e),
        };
        let ghost before = out@;
        let ghost sm = set_model(set@);
        out.push((idx, set));
        proof {
            assert(entries_model(out@) =~= entries_model(before).push((idx, sm)));
            match spec_parse_entries(data@, p + 8, (count - i - 1) as nat) {
                Ok(rest) => {
                    assert(entries_model(before) + (seq![(idx, sm)] + rest) =~= entries_model(out@) + rest);
                },
                Err(_) => {},
            }
        }
        p = p + 8;
        i = i + 1;
    }
    assert(entries_model(out@) + Seq::<(u32, Seq<ItemModel>)>::empty() =~= entries_model(out@));
    Ok((out, p))
}

fn parse_param_entries(data: &[u8], pos: usize, count: u32) -> (r: Result<Vec<(u32, Vec<Vec<AnnotationItem>>)>>)
    requires
        pos <= data@.len(),
    ensures
        match r {
            Ok(es) => spec_parse_param_entries(data@, pos as int, count as nat) == Ok::<_, DecodeFault>(
                param_entries_model(es@),
            ),
            Err(e) => spec_parse_param_entries(data@, pos as int, count as nat) matches Err(f) && fault_error(e, f),
        },
{
    let _len = data.len();
    let mut out: Vec<(u32, Vec<Vec<AnnotationItem>>)> = Vec::new();
    let mut p: usize = pos;
    let mut i: u32 = 0;
    let ghost total = spec_parse_param_entries(data@, pos as int, count as nat);
    assert(param_entries_model(out@) =~= Seq::<(u32, Seq<Seq<ItemModel>>)>::empty());
    while i < count
        invariant
            i <= count,
            p <= data@.len() <= usize::MAX,
            total == spec_parse_param_entries(data@, pos as int, count as nat),
            total == match spec_parse_param_entries(data@, p as int, (count - i) as nat) {
                Ok(rest) => Ok::<_, DecodeFault>(param_entries_model(out@) + rest),
                Err(f) => Err(f),
            },
        decreases count - i,
    {
        if !has_pair(data, p) {
            return Err(truncated("parameter_annotation"));
        }
        let (idx, sets) = match parse_param_entry(data, p) {
            Ok(x) => x,
            Err(e) => return Err(e),
        };
        let ghost before = out@;
        let ghost sm = sets_model(sets@);
        out.push((idx, sets));
        proof {
            assert(param_entries_model(out@) =~= param_entries_model(before).push((idx, sm)));
            match spec_parse_param_entries(data@, p + 8, (count - i - 1) as nat) {
                Ok(rest) => {
                    assert(param_entries_model(before) + (seq![(idx, sm)] + rest) =~= param_entries_model(out@)
                        + rest);
                },
                Err(_) => {},
            }
        }
        p = p + 8;
        i = i + 1;
    }
    assert(param_entries_model(out@) + Seq::<(u32, Seq<Seq<ItemModel>>)>::empty() =~= param_entries_model(out@));
    Ok(out)
}

/// Parse `annotations_directory_item` at `off` (0 → empty).
pub fn parse_annotations_directory(data: &[u8], off: u32) -> (r: Result<AnnotationsDirectory>)
    ensures
        match r {
            Ok(d) => spec_parse_directory(data@, off) == Ok::<_, DecodeFault>(directory_model(d)),
            Err(e) => spec_parse_directory(data@, off) matches Err(f) && fault_error(e, f),
        },
{
    reveal(spec_parse_directory);
    if off == 0 {
        return Ok(AnnotationsDirectory::default());
    }
    let _len = data.len();
    if off as u64 + 16 > data.len() as u64 {
        return Err(truncated("annotations_directory"));
    }
    let pos = off as usize;
    let class_annotations_off = match read_u32(data, pos) {
        Some(x) => x,
        None => 0,
    };
    let fields_size = match read_u32(data, pos + 4) {
        Some(x) => x,
        None => 0,
    };
    let methods_size = match read_u32(data, pos + 8) {
        Some(x) => x,
        None => 0,
    };
    let params_size = match read_u32(data, pos + 12) {
        Some(x) => x,
        None => 0,
    };
    let class_annotations = match parse_annotation_set(data, class_annotations_off) {
        Ok(x) => x,
        Err(e) => return Err(e),
    };
    let (field_annotations, p1) = match parse_entries(data, pos + 16, fields_size, "field_annotation") {
        Ok(x) => x,
        Err(e) => return Err(e),
    };
    proof {
        lemma_entries_end(data@, (pos + 16) as int, fields_size as nat);
    }
    let (method_annotations, p2) = match parse_entries(data, p1, methods_size, "method_annotation") {
        Ok(x) => x,
        Err(e) => return Err(e),
    };
    proof {
        lemma_entries_end(data@, p1 as int, methods_size as nat);
    }
    let parameter_annotations = match parse_param_entries(data, p2, params_size) {
        Ok(x) => x,
        Err(e) => return Err(e),
    };
    let d = AnnotationsDirectory { class_annotations, field_annotations, method_annotations, parameter_annotations };
    Ok(d)
}

// ---------------------------------------------------------------------------
// Writing
// ---------------------------------------------------------------------------

/// The file offset of buffer position `len` when the buffer starts at `base`
/// (offsets are `u32` and wrap).
pub open spec fn offset_of(base: u32, len: nat) -> u32 {
    ((base + len) % 0x1_0000_0000) as u32
}

/// `buf` padded with zero bytes to a multiple of four.
pub open spec fn aligned(buf: Seq<u8>) -> Seq<u8> {
    buf + Seq::new(((4 - buf.len() % 4) % 4) as nat, |k: int| 0u8)
}

/// The four little-endian bytes of `v`.
#[verifier::opaque]
pub open spec fn word(v: u32) -> Seq<u8> {
    u32_le_bytes(v)
}

proof fn lemma_word_len(v: u32)
    ensures
        word(v).len() == 4,
{
    reveal(word);
}

/// A count as it is stored: the low 32 bits, little-endian.
pub open spec fn count_bytes(n: nat) -> Seq<u8> {
    word((n % 0x1_0000_0000) as u32)
}

/// The bytes of one `annotation_item`.
#[verifier::opaque]
pub open spec fn item_bytes(it: ItemModel) -> Seq<u8> {
    seq![it.visibility] + spec_encode_annotation(it.annotation.0, it.annotation.1)
}

/// A table of little-endian `u32` offsets.
pub open spec fn offsets_bytes(os: Seq<u32>) -> Seq<u8>
    decreases os.len(),
{
    if os.len() == 0 {
        Seq::empty()
    } else {
        word(os[0]) + offsets_bytes(os.drop_first())
    }
}

/// A table of `(index, offset)` pairs.
pub open spec fn pairs_bytes(ps: Seq<(u32, u32)>) -> Seq<u8>
    decreases ps.len(),
{
    if ps.len() == 0 {
        Seq::empty()
    } else {
        word(ps[0].0) + word(ps[0].1) + pairs_bytes(ps.drop_first())
    }
}

/// Append the items one after the other: the buffer after, and where each one went.
pub open spec fn spec_write_items(buf: Seq<u8>, base: u32, items: Seq<ItemModel>) -> (Seq<u8>, Seq<u32>)
    decreases items.len(),
{
    if items.len() == 0 {
        (buf, Seq::empty())
    } else {
        let r = spec_write_items(buf + item_bytes(items[0]), base, items.drop_first());
        (r.0, seq![offset_of(base, buf.len())] + r.1)
    }
}

/// Append a set: its items, then (aligned) the count and the item offsets. An empty
/// set writes nothing and is named by offset 0.
pub open spec fn spec_write_set(buf: Seq<u8>, base: u32, items: Seq<ItemModel>) -> (Seq<u8>, u32) {
    if items.len() == 0 {
        (buf, 0u32)
    } else {
        let r = spec_write_items(buf, base, items);
        let b = aligned(r.0);
        (b + count_bytes(items.len()) + offsets_bytes(r.1), offset_of(base, b.len()))
    }
}

/// Append the sets one after the other.
pub open spec fn spec_write_sets(buf: Seq<u8>, base: u32, sets: Seq<Seq<ItemModel>>) -> (Seq<u8>, Seq<u32>)
    decreases sets.len(),
{
    if sets.len() == 0 {
        (buf, Seq::empty())
    } else {
        let first = spec_write_set(buf, base, sets[0]);
        let r = spec_write_sets(first.0, base, sets.drop_first());
        (r.0, seq![first.1] + r.1)
    }
}

/// Append a set ref list: its sets, then (aligned) the count and the set offsets.
pub open spec fn spec_write_ref_list(buf: Seq<u8>, base: u32, sets: Seq<Seq<ItemModel>>) -> (Seq<u8>, u32) {
    let r = spec_write_sets(buf, base, sets);
    let b = aligned(r.0);
    (b + count_bytes(sets.len()) + offsets_bytes(r.1), offset_of(base, b.len()))
}

/// Append the sets of `(index, set)` entries; the `(index, offset)` pairs for the table.
pub open spec fn spec_write_entries(buf: Seq<u8>, base: u32, es: Seq<(u32, Seq<ItemModel>)>) -> (Seq<u8>, Seq<(u32, u32)>)
    decreases es.len(),
{
    if es.len() == 0 {
        (buf, Seq::empty())
    } else {
        let first = spec_write_set(buf, base, es[0].1);
        let r = spec_write_entries(first.0, base, es.drop_first());
        (r.0, seq![(es[0].0, first.1)] + r.1)
    }
}

/// Append the ref lists of `(method index, sets)` entries.
pub open spec fn spec_write_param_entries(buf: Seq<u8>, base: u32, es: Seq<(u32, Seq<Seq<ItemModel>>)>) -> (Seq<u8>, Seq<(u32, u32)>)
    decreases es.len(),
{
    if es.len() == 0 {
        (buf, Seq::empty())
    } else {
        let first = spec_write_ref_list(buf, base, es[0].1);
        let r = spec_write_param_entries(first.0, base, es.drop_first());
        (r.0, seq![(es[0].0, first.1)] + r.1)
    }
}

/// Whether the directory holds no annotation list at all.
pub open spec fn directory_is_empty(d: DirectoryModel) -> bool {
    d.class.len() == 0 && d.fields.len() == 0 && d.methods.len() == 0 && d.params.len() == 0
}

/// Append a whole directory: class set, field sets, method sets, parameter ref lists,
/// then (aligned) the directory header and its three tables. An empty directory
/// writes nothing and is named by offset 0.
#[verifier::opaque]
pub open spec fn spec_write_directory(buf: Seq<u8>, base: u32, d: DirectoryModel) -> (Seq<u8>, u32) {
    if directory_is_empty(d) {
        (buf, 0u32)
    } else {
        let c = spec_write_set(buf, base, d.class);
        let f = spec_write_entries(c.0, base, d.fields);
        let m = spec_write_entries(f.0, base, d.methods);
        let p = spec_write_param_entries(m.0, base, d.params);
        let b = aligned(p.0);
        (
            b + word(c.1) + count_bytes(f.1.len()) + count_bytes(m.1.len()) + count_bytes(p.1.len())
                + pairs_bytes(f.1) + pairs_bytes(m.1) + pairs_bytes(p.1),
            offset_of(base, b.len()),
        )
    }
}

fn push_u32(data: &mut Vec<u8>, v: u32)
    ensures
        final(data)@ == old(data)@ + word(v),
{
    reveal(word);
    data.push((v % 256) as u8);
    data.push(((v / 256) % 256) as u8);
    data.push(((v / 65536) % 256) as u8);
    data.push((v / 16777216) as u8);
    assert(data@ =~= old(data)@ + word(v));
}

fn push_count(data: &mut Vec<u8>, n: usize)
    ensures
        final(data)@ == old(data)@ + count_bytes(n as nat),
{
    push_u32(data, (n as u64 % 0x1_0000_0000) as u32);
}

fn align4(data: &mut Vec<u8>)
    ensures
        final(data)@ == aligned(old(data)@),
{
    let ghost start = data@;
    while data.len() % 4 != 0
        invariant
            start.len() <= data@.len() <= start.len() + 3,
            data@ == start + Seq::new((data@.len() - start.len()) as nat, |k: int| 0u8),
            data@.len() % 4 != 0 ==> data@.len() - start.len() < (4 - start.len() % 4) % 4,
            data@.len() % 4 == 0 ==> data@.len() - start.len() == (4 - start.len() % 4) % 4,
        decreases start.len() + 3 - data@.len(),
    {
        data.push(0);
        assert(data@ =~= start + Seq::new((data@.len() - start.len()) as nat, |k: int| 0u8));
    }
    assert(data@ =~= aligned(start));
}

fn offset_here(data: &Vec<u8>, base: u32) -> (r: u32)
    ensures
        r == offset_of(base, data@.len()),
{
    let l: u64 = data.len() as u64 % 0x1_0000_0000;
    proof {
        vstd::arithmetic::div_mod::lemma_add_mod_noop_right(base as int, data@.len() as int, 0x1_0000_0000);
    }
    ((base as u64 + l) % 0x1_0000_0000) as u32
}

fn write_annotation_item(data: &mut Vec<u8>, data_off: u32, item: &AnnotationItem) -> (r: u32)
    ensures
        final(data)@ == old(data)@ + item_bytes(item_model(*item)),
        r == offset_of(data_off, old(data)@.len()),
{
    reveal(item_bytes);
    let off = offset_here(data, data_off);
    data.push(item.visibility);
    let mut enc = encode_encoded_annotation(&item.annotation);
    data.append(&mut enc);
    assert(data@ =~= old(data)@ + item_bytes(item_model(*item)));
    off
}

fn write_annotation_set(data: &mut Vec<u8>, data_off: u32, set: &[AnnotationItem]) -> (r: u32)
    ensures
        (final(data)@, r) == spec_write_set(old(data)@, data_off, set_model(set@)),
{
    let ghost ms = set_model(set@);
    if set.len() == 0 {
        return 0;
    }
    let ghost start = data@;
    let mut item_offs: Vec<u32> = Vec::new();
    let mut i: usize = 0;
    assert(ms.skip(0) =~= ms);
    while i < set.len()
        invariant
            i <= set@.len(),
            ms == set_model(set@),
            spec_write_items(start, data_off, ms) == ({
                let r = spec_write_items(data@, data_off, ms.skip(i as int));
                (r.0, item_offs@ + r.1)
            }),
        decreases set@.len() - i,
    {
        let ghost before = data@;
        let ghost offs = item_offs@;
        let o = write_annotation_item(data, data_off, &set[i]);
        item_offs.push(o);
        proof {
            assert(ms.skip(i as int)[0] == item_model(set@[i as int]));
            assert(ms.skip(i as int).drop_first() =~= ms.skip(i + 1));
            assert(offs + (seq![o] + spec_write_items(data@, data_off, ms.skip(i + 1)).1) =~= item_offs@
                + spec_write_items(data@, data_off, ms.skip(i + 1)).1);
        }
        i = i + 1;
    }
    assert(ms.skip(i as int) =~= Seq::<ItemModel>::empty());
    assert(item_offs@ + Seq::<u32>::empty() =~= item_offs@);
    align4(data);
    let set_off = offset_here(data, data_off);
    push_count(data, set.len());
    push_offsets(data, &item_offs);
    set_off
}

fn push_offsets(data: &mut Vec<u8>, os: &Vec<u32>)
    ensures
        final(data)@ == old(data)@ + offsets_bytes(os@),
{
    let ghost mid = data@;
    let mut k: usize = 0;
    assert(os@.skip(0) =~= os@);
    while k < os.len()
        invariant
            k <= os@.len(),
            mid + offsets_bytes(os@) == data@ + offsets_bytes(os@.skip(k as int)),
        decreases os@.len() - k,
    {
        let ghost before = data@;
        push_u32(data, os[k]);
        proof {
            assert(os@.skip(k as int).drop_first() =~= os@.skip(k + 1));
            assert(before + offsets_bytes(os@.skip(k as int)) =~= data@ + offsets_bytes(os@.skip(k + 1)));
        }
        k = k + 1;
    }
    assert(os@.skip(k as int) =~= Seq::<u32>::empty());
    assert(data@ + Seq::<u8>::empty() =~= data@);
}

fn push_pairs(data: &mut Vec<u8>, ps: &Vec<(u32, u32)>)
    ensures
        final(data)@ == old(data)@ + pairs_bytes(ps@),
{
    let ghost mid = data@;
    let mut k: usize = 0;
    assert(ps@.skip(0) =~= ps@);
    while k < ps.len()
        invariant
            k <= ps@.len(),
            mid + pairs_bytes(ps@) == data@ + pairs_bytes(ps@.skip(k as int)),
        decreases ps@.len() - k,
    {
        let ghost before = data@;
        push_u32(data, ps[k].0);
        push_u32(data, ps[k].1);
        proof {
            assert(ps@.skip(k as int).drop_first() =~= ps@.skip(k + 1));
            assert(before + pairs_bytes(ps@.skip(k as int)) =~= data@ + pairs_bytes(ps@.skip(k + 1)));
        }
        k = k + 1;
    }
    assert(ps@.skip(k as int) =~= Seq::<(u32, u32)>::empty());
    assert(data@ + Seq::<u8>::empty() =~= data@);
}

fn write_annotation_set_ref_list(data: &mut Vec<u8>, data_off: u32, sets: &[Vec<AnnotationItem>]) -> (r: u32)
    ensures
        (final(data)@, r) == spec_write_ref_list(old(data)@, data_off, sets_model(sets@)),
{
    let ghost ms = sets_model(sets@);
    let ghost start = data@;
    let mut offs: Vec<u32> = Vec::new();
    let mut i: usize = 0;
    assert(ms.skip(0) =~= ms);
    while i < sets.len()
        invariant
            i <= sets@.len(),
            ms == sets_model(sets@),
            spec_write_sets(start, data_off, ms) == ({
                let r = spec_write_sets(data@, data_off, ms.skip(i as int));
                (r.0, offs@ + r.1)
            }),
        decreases sets@.len() - i,
    {
        let ghost before = offs@;
        let o = write_annotation_set(data, data_off, sets[i].as_slice());
        offs.push(o);
        proof {
            assert(ms.skip(i as int)[0] == set_model(sets@[i as int]@));
            assert(ms.skip(i as int).drop_first() =~= ms.skip(i + 1));
            assert(before + (seq![o] + spec_write_sets(data@, data_off, ms.skip(i + 1)).1) =~= offs@
                + spec_write_sets(data@, data_off, ms.skip(i + 1)).1);
        }
        i = i + 1;
    }
    assert(ms.skip(i as int) =~= Seq::<Seq<ItemModel>>::empty());
    assert(offs@ + Seq::<u32>::empty() =~= offs@);
    align4(data);
    let list_off = offset_here(data, data_off);
    push_count(data, sets.len());
    push_offsets(data, &offs);
    list_off
}

fn write_entries(data: &mut Vec<u8>, data_off: u32, es: &Vec<(u32, Vec<AnnotationItem>)>) -> (r: Vec<(u32, u32)>)
    ensures
        (final(data)@, r@) == spec_write_entries(old(data)@, data_off, entries_model(es@)),
{
    let ghost ms = entries_model(es@);
    let ghost start = data@;
    let mut out: Vec<(u32, u32)> = Vec::new();
    let mut i: usize = 0;
    assert(ms.skip(0) =~= ms);
    while i < es.len()
        invariant
            i <= es@.len(),
            ms == entries_model(es@),
            spec_write_entries(start, data_off, ms) == ({
                let r = spec_write_entries(data@, data_off, ms.skip(i as int));
                (r.0, out@ + r.1)
            }),
        decreases es@.len() - i,
    {
        let ghost before = out@;
        let o = write_annotation_set(data, data_off, es[i].1.as_slice());
        out.push((es[i].0, o));
        proof {
            assert(ms.skip(i as int)[0] == (es@[i as int].0, set_model(es@[i as int].1@)));
            assert(ms.skip(i as int).drop_first() =~= ms.skip(i + 1));
            assert(before + (seq![(es@[i as int].0, o)] + spec_write_entries(data@, data_off, ms.skip(i + 1)).1)
                =~= out@ + spec_write_entries(data@, data_off, ms.skip(i + 1)).1);
        }
        i = i + 1;
    }
    assert(ms.skip(i as int) =~= Seq::<(u32, Seq<ItemModel>)>::empty());
    assert(out@ + Seq::<(u32, u32)>::empty() =~= out@);
    out
}

fn write_param_entries(data: &mut Vec<u8>, data_off: u32, es: &Vec<(u32, Vec<Vec<AnnotationItem>>)>) -> (r: Vec<(u32, u32)>)
    ensures
        (final(data)@, r@) == spec_write_param_entries(old(data)@, data_off, param_entries_model(es@)),
{
    let ghost ms = param_entries_model(es@);
    let ghost start = data@;
    let mut out: Vec<(u32, u32)> = Vec::new();
    let mut i: usize = 0;
    assert(ms.skip(0) =~= ms);
    while i < es.len()
        invariant
            i <= es@.len(),
            ms == param_entries_model(es@),
            spec_write_param_entries(start, data_off, ms) == ({
                let r = spec_write_param_entries(data@, data_off, ms.skip(i as int));
                (r.0, out@ + r.1)
            }),
        decreases es@.len() - i,
    {
        let ghost before = out@;
        let o = write_annotation_set_ref_list(data, data_off, es[i].1.as_slice());
        out.push((es[i].0, o));
        proof {
            assert(ms.skip(i as int)[0] == (es@[i as int].0, sets_model(es@[i as int].1@)));
            assert(ms.skip(i as int).drop_first() =~= ms.skip(i + 1));
            assert(before + (seq![(es@[i as int].0, o)] + spec_write_param_entries(data@, data_off, ms.skip(i + 1)).1)
                =~= out@ + spec_write_param_entries(data@, data_off, ms.skip(i + 1)).1);
        }
        i = i + 1;
    }
    assert(ms.skip(i as int) =~= Seq::<(u32, Seq<Seq<ItemModel>>)>::empty());
    assert(out@ + Seq::<(u32, u32)>::empty() =~= out@);
    out
}

/// Write annotations into `data` (appended); returns directory offset (0 if empty).
/// `data_off` is the file offset at which `data` starts; offsets wrap at 2^32.
pub fn write_annotations_directory(data: &mut Vec<u8>, data_off: u32, dir: &AnnotationsDirectory) -> (r: Result<u32>)
    ensures
        r is Ok,
        (final(data)@, r->Ok_0) == spec_write_directory(old(data)@, data_off, directory_model(*dir)),
        final(data)@.subrange(0, old(data)@.len() as int) == old(data)@,
        directory_is_empty(directory_model(*dir)) ==> r == Ok::<u32, DexError>(0u32) && final(data)@ == old(
            data,
        )@,
        !directory_is_empty(directory_model(*dir)) && data_off % 4 == 0 ==> r->Ok_0 % 4 == 0,
        !directory_is_empty(directory_model(*dir)) && data_off == 0 && old(data)@.len() > 0 && final(data)@.len()
            < 0x1_0000_0000 ==> r->Ok_0 != 0,
{
    proof {
        annotations_directory_appends(old(data)@, data_off, directory_model(*dir));
    }
    reveal(spec_write_directory);
    if dir.class_annotations.len() == 0 && dir.field_annotations.len() == 0 && dir.method_annotations.len() == 0
        && dir.parameter_annotations.len() == 0 {
        return Ok(0);
    }
    let class_set_off = write_annotation_set(data, data_off, dir.class_annotations.as_slice());
    let field_entries = write_entries(data, data_off, &dir.field_annotations);
    let method_entries = write_entries(data, data_off, &dir.method_annotations);
    let param_entries = write_param_entries(data, data_off, &dir.parameter_annotations);
    align4(data);
    let dir_off = offset_here(data, data_off);
    push_u32(data, class_set_off);
    push_count(data, field_entries.len());
    push_count(data, method_entries.len());
    push_count(data, param_entries.len());
    push_pairs(data, &field_entries);
    push_pairs(data, &method_entries);
    push_pairs(data, &param_entries);
    Ok(dir_off)
}

/// The name of a visibility byte; unknown values read as `"runtime"`.
pub fn visibility_name(v: u8) -> (r: &'static str)
    ensures
        r@ == (if v == VISIBILITY_BUILD {
            "build"@
        } else if v == VISIBILITY_SYSTEM {
            "system"@
        } else {
            "runtime"@
        }),
{
    if v == VISIBILITY_BUILD {
        "build"
    } else if v == VISIBILITY_SYSTEM {
        "system"
    } else {
        "runtime"
    }
}

/// The visibility byte named by `s`; anything but `"build"` and `"system"` is runtime.
pub fn parse_visibility(s: &str) -> (r: u8)
    ensures
        r == (if s@ == "build"@ {
            VISIBILITY_BUILD
        } else if s@ == "system"@ {
            VISIBILITY_SYSTEM
        } else {
            VISIBILITY_RUNTIME
        }),
{
    if same_text(s, "build") {
        VISIBILITY_BUILD
    } else if same_text(s, "system") {
        VISIBILITY_SYSTEM
    } else {
        VISIBILITY_RUNTIME
    }
}

/// An annotation item of type `type_idx` with the given `(name_idx, value)` elements.
pub fn simple_annotation(type_idx: u32, elements: Vec<(u32, EncodedValue)>, visibility: u8) -> (r: AnnotationItem)
    ensures
        r.visibility == visibility,
        r.annotation.type_idx == type_idx,
        r.annotation.elements == elements,
{
    AnnotationItem { visibility, annotation: EncodedAnnotation { type_idx, elements } }
}

// ---------------------------------------------------------------------------
// Reading back what was written
// ---------------------------------------------------------------------------

/// Every annotation inside the item has a count that a uleb128 can state.
#[verifier::opaque]
pub open spec fn item_fits(it: ItemModel) -> bool {
    counts_fit(ValueModel::Annotation(it.annotation.0, it.annotation.1))
}

pub open spec fn set_fits(s: Seq<ItemModel>) -> bool {
    s.len() < 0x1_0000_0000 && forall|k: int| 0 <= k < s.len() ==> item_fits(#[trigger] s[k])
}

pub open spec fn sets_fit(ss: Seq<Seq<ItemModel>>) -> bool {
    ss.len() < 0x1_0000_0000 && forall|k: int| 0 <= k < ss.len() ==> set_fits(#[trigger] ss[k])
}

pub open spec fn entries_fit(es: Seq<(u32, Seq<ItemModel>)>) -> bool {
    es.len() < 0x1_0000_0000 && forall|k: int| 0 <= k < es.len() ==> set_fits(#[trigger] es[k].1)
}

pub open spec fn param_entries_fit(es: Seq<(u32, Seq<Seq<ItemModel>>)>) -> bool {
    es.len() < 0x1_0000_0000 && forall|k: int| 0 <= k < es.len() ==> sets_fit(#[trigger] es[k].1)
}

/// Every list in the directory has fewer than 2^32 entries, and so has every
/// annotation inside it.
pub open spec fn directory_fits(d: DirectoryModel) -> bool {
    set_fits(d.class) && entries_fit(d.fields) && entries_fit(d.methods) && param_entries_fit(d.params)
}

/// The pairs name the entries' indices, and each offset reads back as the entry's set.
#[verifier::opaque]
spec fn entries_read(f: Seq<u8>, ps: Seq<(u32, u32)>, es: Seq<(u32, Seq<ItemModel>)>) -> bool {
    ps.len() == es.len() && forall|k: int|
        0 <= k < ps.len() ==> (#[trigger] ps[k]).0 == es[k].0 && spec_parse_set(f, ps[k].1) == Ok::<_, DecodeFault>(
            es[k].1,
        )
}

/// The pairs name the entries' indices, and each offset reads back as the entry's ref list.
#[verifier::opaque]
spec fn param_entries_read(f: Seq<u8>, ps: Seq<(u32, u32)>, es: Seq<(u32, Seq<Seq<ItemModel>>)>) -> bool {
    ps.len() == es.len() && forall|k: int|
        0 <= k < ps.len() ==> (#[trigger] ps[k]).0 == es[k].0 && spec_parse_ref_list(f, ps[k].1) == Ok::<
            _,
            DecodeFault,
        >(es[k].1)
}

#[verifier::opaque]
spec fn starts_with(f: Seq<u8>, a: Seq<u8>) -> bool {
    a.len() <= f.len() && forall|k: int| 0 <= k < a.len() ==> #[trigger] f[k] == a[k]
}

#[verifier::opaque]
spec fn holds_at(f: Seq<u8>, pos: int, a: Seq<u8>) -> bool {
    0 <= pos && pos + a.len() <= f.len() && forall|k: int| 0 <= k < a.len() ==> f[pos + k] == #[trigger] a[k]
}

proof fn lemma_starts_trans(f: Seq<u8>, a: Seq<u8>, b: Seq<u8>)
    requires
        starts_with(f, a),
        starts_with(a, b),
    ensures
        starts_with(f, b),
        b.len() <= a.len() <= f.len(),
{
    reveal(starts_with);
    assert forall|k: int| 0 <= k < b.len() implies #[trigger] f[k] == b[k] by {
        assert(a[k] == b[k]);
    }
}

proof fn lemma_starts_len(f: Seq<u8>, a: Seq<u8>)
    requires
        starts_with(f, a),
    ensures
        a.len() <= f.len(),
{
    reveal(starts_with);
}

proof fn lemma_piece(f: Seq<u8>, s: Seq<u8>, a: Seq<u8>, x: Seq<u8>, rest: Seq<u8>)
    requires
        starts_with(f, s),
        s == a + x + rest,
    ensures
        holds_at(f, a.len() as int, x),
        a.len() + x.len() <= f.len(),
{
    reveal(starts_with);
    reveal(holds_at);
    assert forall|k: int| 0 <= k < x.len() implies f[a.len() + k] == #[trigger] x[k] by {
        assert(s[a.len() + k] == x[k]);
        assert(f[a.len() + k] == s[a.len() + k]);
    }
}

proof fn lemma_extends(a: Seq<u8>, x: Seq<u8>)
    ensures
        starts_with(a + x, a),
        starts_with(a, a),
{
    reveal(starts_with);
    assert forall|k: int| 0 <= k < a.len() implies #[trigger] (a + x)[k] == a[k] by {}
}

proof fn lemma_holds_split(f: Seq<u8>, pos: int, a: Seq<u8>, b: Seq<u8>)
    requires
        holds_at(f, pos, a + b),
    ensures
        holds_at(f, pos, a),
        holds_at(f, pos + a.len(), b),
{
    reveal(holds_at);
    assert forall|k: int| 0 <= k < a.len() implies f[pos + k] == #[trigger] a[k] by {
        assert((a + b)[k] == a[k]);
    }
    assert forall|k: int| 0 <= k < b.len() implies f[pos + a.len() + k] == #[trigger] b[k] by {
        assert((a + b)[a.len() + k] == b[k]);
    }
}

proof fn lemma_u32_bytes(f: Seq<u8>, pos: int, v: u32)
    requires
        holds_at(f, pos, word(v)),
    ensures
        spec_read_u32(f, pos) == Some(v),
        u32_at(f, pos) == v,
        0 <= pos,
        pos + 4 <= f.len(),
{
    reveal(holds_at);
    reveal(word);
    let b = word(v);
    assert(f[pos + 0] == b[0]);
    assert(f[pos + 1] == b[1]);
    assert(f[pos + 2] == b[2]);
    assert(f[pos + 3] == b[3]);
}

proof fn lemma_offsets_len(os: Seq<u32>)
    ensures
        offsets_bytes(os).len() == 4 * os.len(),
    decreases os.len(),
{
    if os.len() > 0 {
        lemma_word_len(os[0]);
        lemma_offsets_len(os.drop_first());
    }
}

proof fn lemma_pairs_len(ps: Seq<(u32, u32)>)
    ensures
        pairs_bytes(ps).len() == 8 * ps.len(),
    decreases ps.len(),
{
    if ps.len() > 0 {
        lemma_word_len(ps[0].0);
        lemma_word_len(ps[0].1);
        lemma_pairs_len(ps.drop_first());
    }
}

proof fn lemma_aligned(b: Seq<u8>)
    ensures
        starts_with(aligned(b), b),
        b.len() <= aligned(b).len() <= b.len() + 3,
{
    lemma_extends(b, Seq::new(((4 - b.len() % 4) % 4) as nat, |k: int| 0u8));
}

proof fn lemma_item_bytes_len(it: ItemModel)
    ensures
        item_bytes(it).len() >= 1,
{
    reveal(item_bytes);
}

proof fn lemma_items_grow(buf: Seq<u8>, base: u32, items: Seq<ItemModel>)
    ensures
        starts_with(spec_write_items(buf, base, items).0, buf),
        items.len() > 0 ==> spec_write_items(buf, base, items).0.len() > buf.len(),
    decreases items.len(),
{
    lemma_extends(buf, Seq::empty());
    if items.len() > 0 {
        let b1 = buf + item_bytes(items[0]);
        lemma_item_bytes_len(items[0]);
        lemma_items_grow(b1, base, items.drop_first());
        lemma_extends(buf, item_bytes(items[0]));
        lemma_starts_trans(spec_write_items(b1, base, items.drop_first()).0, b1, buf);
    }
}

proof fn lemma_set_grow(buf: Seq<u8>, base: u32, items: Seq<ItemModel>)
    ensures
        starts_with(spec_write_set(buf, base, items).0, buf),
        items.len() > 0 ==> spec_write_set(buf, base, items).0.len() > buf.len(),
{
    lemma_extends(buf, Seq::empty());
    if items.len() > 0 {
        let r = spec_write_items(buf, base, items);
        let b = aligned(r.0);
        lemma_items_grow(buf, base, items);
        lemma_aligned(r.0);
        lemma_extends(b, count_bytes(items.len()) + offsets_bytes(r.1));
        assert(spec_write_set(buf, base, items).0 == b + (count_bytes(items.len()) + offsets_bytes(r.1)));
        lemma_starts_trans(b, r.0, buf);
        lemma_starts_trans(spec_write_set(buf, base, items).0, b, buf);
    }
}

proof fn lemma_sets_grow(buf: Seq<u8>, base: u32, sets: Seq<Seq<ItemModel>>)
    ensures
        starts_with(spec_write_sets(buf, base, sets).0, buf),
    decreases sets.len(),
{
    lemma_extends(buf, Seq::empty());
    if sets.len() > 0 {
        let first = spec_write_set(buf, base, sets[0]);
        lemma_set_grow(buf, base, sets[0]);
        lemma_sets_grow(first.0, base, sets.drop_first());
        lemma_starts_trans(spec_write_sets(first.0, base, sets.drop_first()).0, first.0, buf);
    }
}

proof fn lemma_ref_list_grow(buf: Seq<u8>, base: u32, sets: Seq<Seq<ItemModel>>)
    ensures
        starts_with(spec_write_ref_list(buf, base, sets).0, buf),
{
    let r = spec_write_sets(buf, base, sets);
    let b = aligned(r.0);
    lemma_sets_grow(buf, base, sets);
    lemma_aligned(r.0);
    lemma_extends(b, count_bytes(sets.len()) + offsets_bytes(r.1));
    assert(spec_write_ref_list(buf, base, sets).0 == b + (count_bytes(sets.len()) + offsets_bytes(r.1)));
    lemma_starts_trans(b, r.0, buf);
    lemma_starts_trans(spec_write_ref_list(buf, base, sets).0, b, buf);
}

proof fn lemma_item_at(f: Seq<u8>, off: int, it: ItemModel)
    requires
        item_fits(it),
        holds_at(f, off, item_bytes(it)),
    ensures
        spec_parse_item(f, off) == Ok::<_, DecodeFault>(it),
{
    reveal(holds_at);
    reveal(spec_parse_item);
    reveal(item_fits);
    reveal(item_bytes);
    let e = spec_encode_annotation(it.annotation.0, it.annotation.1);
    let ib = item_bytes(it);
    assert(f[off + 0] == ib[0]);
    assert(f.subrange(off + 1, off + 1 + e.len()) =~= e) by {
        assert forall|k: int| 0 <= k < e.len() implies f.subrange(off + 1, off + 1 + e.len())[k] == e[k] by {
            assert(ib[1 + k] == e[k]);
            assert(f[off + (1 + k)] == ib[1 + k]);
        }
    }
    lemma_encoded_annotation_roundtrip(it.annotation.0, it.annotation.1, f, off + 1);
}

proof fn lemma_items_written(buf: Seq<u8>, items: Seq<ItemModel>, f: Seq<u8>)
    requires
        forall|k: int| 0 <= k < items.len() ==> item_fits(#[trigger] items[k]),
        starts_with(f, spec_write_items(buf, 0, items).0),
        spec_write_items(buf, 0, items).0.len() < 0x1_0000_0000,
    ensures
        starts_with(spec_write_items(buf, 0, items).0, buf),
        items.len() > 0 ==> spec_write_items(buf, 0, items).0.len() > buf.len(),
        spec_write_items(buf, 0, items).1.len() == items.len(),
        forall|k: int|
            0 <= k < items.len() ==> spec_parse_item(f, #[trigger] spec_write_items(buf, 0, items).1[k] as int)
                == Ok::<_, DecodeFault>(items[k]),
    decreases items.len(),
{
    let w = spec_write_items(buf, 0, items);
    lemma_extends(buf, Seq::empty());
    if items.len() > 0 {
        let ib = item_bytes(items[0]);
        lemma_item_bytes_len(items[0]);
        let b1 = buf + ib;
        let rest = items.drop_first();
        assert forall|k: int| 0 <= k < rest.len() implies item_fits(#[trigger] rest[k]) by {
            assert(rest[k] == items[k + 1]);
        }
        let r = spec_write_items(b1, 0, rest);
        assert(w.0 == r.0);
        lemma_items_written(b1, rest, f);
        lemma_extends(buf, ib);
        lemma_starts_trans(r.0, b1, buf);
        lemma_starts_trans(f, r.0, b1);
        assert(b1 == buf + ib + Seq::<u8>::empty());
        lemma_piece(f, b1, buf, ib, Seq::empty());
        lemma_item_at(f, buf.len() as int, items[0]);
        assert(w.1[0] == buf.len());
        assert forall|k: int| 0 <= k < items.len() implies spec_parse_item(f, #[trigger] w.1[k] as int)
            == Ok::<_, DecodeFault>(items[k]) by {
            if k > 0 {
                assert(w.1[k] == r.1[k - 1]);
                assert(items[k] == rest[k - 1]);
            }
        }
    }
}

proof fn lemma_table_items(f: Seq<u8>, pos: int, os: Seq<u32>, items: Seq<ItemModel>)
    requires
        os.len() == items.len(),
        holds_at(f, pos, offsets_bytes(os)),
        forall|k: int| 0 <= k < os.len() ==> spec_parse_item(f, #[trigger] os[k] as int) == Ok::<_, DecodeFault>(items[k]),
    ensures
        spec_parse_items(f, pos, os.len()) == Ok::<_, DecodeFault>(items),
    decreases os.len(),
{
    if os.len() == 0 {
        assert(items =~= Seq::<ItemModel>::empty());
    } else {
        lemma_holds_split(f, pos, word(os[0]), offsets_bytes(os.drop_first()));
        lemma_word_len(os[0]);
        lemma_u32_bytes(f, pos, os[0]);
        assert(spec_parse_item(f, os[0] as int) == Ok::<_, DecodeFault>(items[0]));
        assert forall|k: int| 0 <= k < os.drop_first().len() implies spec_parse_item(
            f,
            #[trigger] os.drop_first()[k] as int,
        ) == Ok::<_, DecodeFault>(items.drop_first()[k]) by {
            assert(os.drop_first()[k] == os[k + 1]);
        }
        lemma_table_items(f, pos + 4, os.drop_first(), items.drop_first());
        assert(seq![items[0]] + items.drop_first() =~= items);
    }
}

proof fn lemma_set_written(buf: Seq<u8>, items: Seq<ItemModel>, f: Seq<u8>)
    requires
        set_fits(items),
        starts_with(f, spec_write_set(buf, 0, items).0),
        spec_write_set(buf, 0, items).0.len() < 0x1_0000_0000,
    ensures
        starts_with(spec_write_set(buf, 0, items).0, buf),
        items.len() > 0 ==> spec_write_set(buf, 0, items).0.len() > buf.len(),
        spec_parse_set(f, spec_write_set(buf, 0, items).1) == Ok::<_, DecodeFault>(items),
{
    let w = spec_write_set(buf, 0, items);
    lemma_extends(buf, Seq::empty());
    if items.len() == 0 {
        reveal(spec_parse_set);
        assert(items =~= Seq::<ItemModel>::empty());
    } else {
        let r = spec_write_items(buf, 0, items);
        let b = aligned(r.0);
        let cb = count_bytes(items.len());
        let ob = offsets_bytes(r.1);
        lemma_word_len((items.len() % 0x1_0000_0000) as u32);
        assert(w.0 == b + (cb + ob));
        lemma_aligned(r.0);
        lemma_extends(b, cb + ob);
        lemma_starts_trans(w.0, b, r.0);
        lemma_starts_trans(f, w.0, r.0);
        lemma_items_written(buf, items, f);
        lemma_starts_trans(w.0, r.0, buf);
        lemma_offsets_len(r.1);
        assert(w.0 == b + cb + ob);
        lemma_piece(f, w.0, b, cb, ob);
        assert(w.0 == (b + cb) + ob + Seq::<u8>::empty());
        lemma_piece(f, w.0, b + cb, ob, Seq::empty());
        assert(w.1 == b.len());
        lemma_set_at(f, b.len() as u32, r.1, items);
    }
}

proof fn lemma_set_at(f: Seq<u8>, off: u32, os: Seq<u32>, items: Seq<ItemModel>)
    requires
        off > 0,
        os.len() == items.len(),
        items.len() < 0x1_0000_0000,
        holds_at(f, off as int, count_bytes(items.len())),
        holds_at(f, off + 4, offsets_bytes(os)),
        forall|k: int| 0 <= k < os.len() ==> spec_parse_item(f, #[trigger] os[k] as int) == Ok::<_, DecodeFault>(items[k]),
    ensures
        spec_parse_set(f, off) == Ok::<_, DecodeFault>(items),
{
    reveal(spec_parse_set);
    assert(count_bytes(items.len()) == word(items.len() as u32));
    lemma_u32_bytes(f, off as int, items.len() as u32);
    lemma_table_items(f, off + 4, os, items);
}

proof fn lemma_sets_written(buf: Seq<u8>, sets: Seq<Seq<ItemModel>>, f: Seq<u8>)
    requires
        forall|k: int| 0 <= k < sets.len() ==> set_fits(#[trigger] sets[k]),
        starts_with(f, spec_write_sets(buf, 0, sets).0),
        spec_write_sets(buf, 0, sets).0.len() < 0x1_0000_0000,
    ensures
        starts_with(spec_write_sets(buf, 0, sets).0, buf),
        spec_write_sets(buf, 0, sets).1.len() == sets.len(),
        forall|k: int|
            0 <= k < sets.len() ==> spec_parse_set(f, #[trigger] spec_write_sets(buf, 0, sets).1[k])
                == Ok::<_, DecodeFault>(sets[k]),
    decreases sets.len(),
{
    let w = spec_write_sets(buf, 0, sets);
    lemma_extends(buf, Seq::empty());
    if sets.len() > 0 {
        let first = spec_write_set(buf, 0, sets[0]);
        let rest = sets.drop_first();
        assert forall|k: int| 0 <= k < rest.len() implies set_fits(#[trigger] rest[k]) by {
            assert(rest[k] == sets[k + 1]);
        }
        let r = spec_write_sets(first.0, 0, rest);
        assert(w.0 == r.0);
        lemma_sets_written(first.0, rest, f);
        lemma_starts_trans(f, r.0, first.0);
        lemma_set_written(buf, sets[0], f);
        lemma_starts_trans(r.0, first.0, buf);
        assert forall|k: int| 0 <= k < sets.len() implies spec_parse_set(f, #[trigger] w.1[k])
            == Ok::<_, DecodeFault>(sets[k]) by {
            if k > 0 {
                assert(w.1[k] == r.1[k - 1]);
                assert(sets[k] == rest[k - 1]);
            }
        }
    }
}

proof fn lemma_table_sets(f: Seq<u8>, pos: int, os: Seq<u32>, sets: Seq<Seq<ItemModel>>)
    requires
        os.len() == sets.len(),
        holds_at(f, pos, offsets_bytes(os)),
        forall|k: int| 0 <= k < os.len() ==> spec_parse_set(f, #[trigger] os[k]) == Ok::<_, DecodeFault>(sets[k]),
    ensures
        spec_parse_sets(f, pos, os.len()) == Ok::<_, DecodeFault>(sets),
    decreases os.len(),
{
    if os.len() == 0 {
        assert(sets =~= Seq::<Seq<ItemModel>>::empty());
    } else {
        lemma_holds_split(f, pos, word(os[0]), offsets_bytes(os.drop_first()));
        lemma_word_len(os[0]);
        lemma_u32_bytes(f, pos, os[0]);
        assert(spec_parse_set(f, os[0]) == Ok::<_, DecodeFault>(sets[0]));
        assert forall|k: int| 0 <= k < os.drop_first().len() implies spec_parse_set(
            f,
            #[trigger] os.drop_first()[k],
        ) == Ok::<_, DecodeFault>(sets.drop_first()[k]) by {
            assert(os.drop_first()[k] == os[k + 1]);
        }
        lemma_table_sets(f, pos + 4, os.drop_first(), sets.drop_first());
        assert(seq![sets[0]] + sets.drop_first() =~= sets);
    }
}

proof fn lemma_ref_list_written(buf: Seq<u8>, sets: Seq<Seq<ItemModel>>, f: Seq<u8>)
    requires
        sets_fit(sets),
        buf.len() > 0,
        starts_with(f, spec_write_ref_list(buf, 0, sets).0),
        spec_write_ref_list(buf, 0, sets).0.len() < 0x1_0000_0000,
    ensures
        starts_with(spec_write_ref_list(buf, 0, sets).0, buf),
        spec_parse_ref_list(f, spec_write_ref_list(buf, 0, sets).1) == Ok::<_, DecodeFault>(sets),
{
    let w = spec_write_ref_list(buf, 0, sets);
    let r = spec_write_sets(buf, 0, sets);
    let b = aligned(r.0);
    let cb = count_bytes(sets.len());
    let ob = offsets_bytes(r.1);
    lemma_word_len((sets.len() % 0x1_0000_0000) as u32);
    assert(w.0 == b + (cb + ob));
    lemma_aligned(r.0);
    lemma_extends(b, cb + ob);
    lemma_starts_trans(w.0, b, r.0);
    lemma_starts_trans(f, w.0, r.0);
    lemma_sets_written(buf, sets, f);
    lemma_starts_trans(w.0, r.0, buf);
    lemma_offsets_len(r.1);
    assert(w.0 == b + cb + ob);
    lemma_piece(f, w.0, b, cb, ob);
    assert(w.0 == (b + cb) + ob + Seq::<u8>::empty());
    lemma_piece(f, w.0, b + cb, ob, Seq::empty());
    assert(w.1 == b.len());
    lemma_ref_list_at(f, b.len() as u32, r.1, sets);
}

proof fn lemma_ref_list_at(f: Seq<u8>, off: u32, os: Seq<u32>, sets: Seq<Seq<ItemModel>>)
    requires
        off > 0,
        os.len() == sets.len(),
        sets.len() < 0x1_0000_0000,
        holds_at(f, off as int, count_bytes(sets.len())),
        holds_at(f, off + 4, offsets_bytes(os)),
        forall|k: int| 0 <= k < os.len() ==> spec_parse_set(f, #[trigger] os[k]) == Ok::<_, DecodeFault>(sets[k]),
    ensures
        spec_parse_ref_list(f, off) == Ok::<_, DecodeFault>(sets),
{
    reveal(spec_parse_ref_list);
    assert(count_bytes(sets.len()) == word(sets.len() as u32));
    lemma_u32_bytes(f, off as int, sets.len() as u32);
    lemma_table_sets(f, off + 4, os, sets);
}

proof fn lemma_entries_written(buf: Seq<u8>, es: Seq<(u32, Seq<ItemModel>)>, f: Seq<u8>)
    requires
        forall|k: int| 0 <= k < es.len() ==> set_fits(#[trigger] es[k].1),
        starts_with(f, spec_write_entries(buf, 0, es).0),
        spec_write_entries(buf, 0, es).0.len() < 0x1_0000_0000,
    ensures
        starts_with(spec_write_entries(buf, 0, es).0, buf),
        spec_write_entries(buf, 0, es).1.len() == es.len(),
        entries_read(f, spec_write_entries(buf, 0, es).1, es),
    decreases es.len(),
{
    reveal(entries_read);
    let w = spec_write_entries(buf, 0, es);
    lemma_extends(buf, Seq::empty());
    if es.len() > 0 {
        let first = spec_write_set(buf, 0, es[0].1);
        let rest = es.drop_first();
        assert forall|k: int| 0 <= k < rest.len() implies set_fits(#[trigger] rest[k].1) by {
            assert(rest[k] == es[k + 1]);
        }
        let r = spec_write_entries(first.0, 0, rest);
        assert(w.0 == r.0);
        lemma_entries_written(first.0, rest, f);
        lemma_starts_trans(f, r.0, first.0);
        lemma_set_written(buf, es[0].1, f);
        lemma_starts_trans(r.0, first.0, buf);
        assert forall|k: int| 0 <= k < es.len() implies (#[trigger] w.1[k]).0 == es[k].0 && spec_parse_set(
            f,
            w.1[k].1,
        ) == Ok::<_, DecodeFault>(es[k].1) by {
            if k > 0 {
                assert(w.1[k] == r.1[k - 1]);
                assert(es[k] == rest[k - 1]);
            }
        }
    }
}

proof fn lemma_table_entries(f: Seq<u8>, pos: int, ps: Seq<(u32, u32)>, es: Seq<(u32, Seq<ItemModel>)>)
    requires
        holds_at(f, pos, pairs_bytes(ps)),
        entries_read(f, ps, es),
    ensures
        spec_parse_entries(f, pos, ps.len()) == Ok::<_, DecodeFault>(es),
    decreases ps.len(),
{
    reveal(entries_read);
    if ps.len() == 0 {
        assert(es =~= Seq::<(u32, Seq<ItemModel>)>::empty());
    } else {
        let a = word(ps[0].0);
        let b = word(ps[0].1);
        lemma_word_len(ps[0].0);
        lemma_word_len(ps[0].1);
        let tail = ps.drop_first();
        assert(pairs_bytes(ps) == a + b + pairs_bytes(tail));
        lemma_holds_split(f, pos, a + b, pairs_bytes(tail));
        lemma_holds_split(f, pos, a, b);
        lemma_u32_bytes(f, pos, ps[0].0);
        lemma_u32_bytes(f, pos + 4, ps[0].1);
        let et = es.drop_first();
        assert forall|k: int| 0 <= k < tail.len() implies (#[trigger] tail[k]).0 == et[k].0 && spec_parse_set(
            f,
            tail[k].1,
        ) == Ok::<_, DecodeFault>(et[k].1) by {
            assert(tail[k] == ps[k + 1]);
            assert(et[k] == es[k + 1]);
        }
        lemma_table_entries(f, pos + 8, tail, et);
        assert(ps[0].0 == es[0].0);
        assert(seq![es[0]] + et =~= es);
    }
}

proof fn lemma_param_entries_written(buf: Seq<u8>, es: Seq<(u32, Seq<Seq<ItemModel>>)>, f: Seq<u8>)
    requires
        forall|k: int| 0 <= k < es.len() ==> sets_fit(#[trigger] es[k].1),
        buf.len() > 0,
        starts_with(f, spec_write_param_entries(buf, 0, es).0),
        spec_write_param_entries(buf, 0, es).0.len() < 0x1_0000_0000,
    ensures
        starts_with(spec_write_param_entries(buf, 0, es).0, buf),
        spec_write_param_entries(buf, 0, es).1.len() == es.len(),
        param_entries_read(f, spec_write_param_entries(buf, 0, es).1, es),
    decreases es.len(),
{
    reveal(param_entries_read);
    let w = spec_write_param_entries(buf, 0, es);
    lemma_extends(buf, Seq::empty());
    if es.len() > 0 {
        let first = spec_write_ref_list(buf, 0, es[0].1);
        let rest = es.drop_first();
        assert forall|k: int| 0 <= k < rest.len() implies sets_fit(#[trigger] rest[k].1) by {
            assert(rest[k] == es[k + 1]);
        }
        let r = spec_write_param_entries(first.0, 0, rest);
        assert(w.0 == r.0);
        lemma_ref_list_grow(buf, 0, es[0].1);
        lemma_starts_len(first.0, buf);
        lemma_param_entries_written(first.0, rest, f);
        lemma_starts_trans(f, r.0, first.0);
        lemma_ref_list_written(buf, es[0].1, f);
        lemma_starts_trans(r.0, first.0, buf);
        assert forall|k: int| 0 <= k < es.len() implies (#[trigger] w.1[k]).0 == es[k].0 && spec_parse_ref_list(
            f,
            w.1[k].1,
        ) == Ok::<_, DecodeFault>(es[k].1) by {
            if k > 0 {
                assert(w.1[k] == r.1[k - 1]);
                assert(es[k] == rest[k - 1]);
            }
        }
    }
}

proof fn lemma_table_param_entries(f: Seq<u8>, pos: int, ps: Seq<(u32, u32)>, es: Seq<(u32, Seq<Seq<ItemModel>>)>)
    requires
        holds_at(f, pos, pairs_bytes(ps)),
        param_entries_read(f, ps, es),
    ensures
        spec_parse_param_entries(f, pos, ps.len()) == Ok::<_, DecodeFault>(es),
    decreases ps.len(),
{
    reveal(param_entries_read);
    if ps.len() == 0 {
        assert(es =~= Seq::<(u32, Seq<Seq<ItemModel>>)>::empty());
    } else {
        let a = word(ps[0].0);
        let b = word(ps[0].1);
        lemma_word_len(ps[0].0);
        lemma_word_len(ps[0].1);
        let tail = ps.drop_first();
        assert(pairs_bytes(ps) == a + b + pairs_bytes(tail));
        lemma_holds_split(f, pos, a + b, pairs_bytes(tail));
        lemma_holds_split(f, pos, a, b);
        lemma_u32_bytes(f, pos, ps[0].0);
        lemma_u32_bytes(f, pos + 4, ps[0].1);
        let et = es.drop_first();
        assert forall|k: int| 0 <= k < tail.len() implies (#[trigger] tail[k]).0 == et[k].0 && spec_parse_ref_list(
            f,
            tail[k].1,
        ) == Ok::<_, DecodeFault>(et[k].1) by {
            assert(tail[k] == ps[k + 1]);
            assert(et[k] == es[k + 1]);
        }
        lemma_table_param_entries(f, pos + 8, tail, et);
        assert(ps[0].0 == es[0].0);
        assert(seq![es[0]] + et =~= es);
    }
}

proof fn lemma_entries_grow(buf: Seq<u8>, base: u32, es: Seq<(u32, Seq<ItemModel>)>)
    ensures
        starts_with(spec_write_entries(buf, base, es).0, buf),
    decreases es.len(),
{
    lemma_extends(buf, Seq::empty());
    if es.len() > 0 {
        let first = spec_write_set(buf, base, es[0].1);
        lemma_set_grow(buf, base, es[0].1);
        lemma_entries_grow(first.0, base, es.drop_first());
        lemma_starts_trans(spec_write_entries(first.0, base, es.drop_first()).0, first.0, buf);
    }
}

proof fn lemma_param_entries_grow(buf: Seq<u8>, base: u32, es: Seq<(u32, Seq<Seq<ItemModel>>)>)
    ensures
        starts_with(spec_write_param_entries(buf, base, es).0, buf),
    decreases es.len(),
{
    lemma_extends(buf, Seq::empty());
    if es.len() > 0 {
        let first = spec_write_ref_list(buf, base, es[0].1);
        lemma_ref_list_grow(buf, base, es[0].1);
        lemma_param_entries_grow(first.0, base, es.drop_first());
        lemma_starts_trans(spec_write_param_entries(first.0, base, es.drop_first()).0, first.0, buf);
    }
}

proof fn lemma_directory_at(
    f: Seq<u8>,
    off: u32,
    c_off: u32,
    d: DirectoryModel,
    fps: Seq<(u32, u32)>,
    mps: Seq<(u32, u32)>,
    pps: Seq<(u32, u32)>,
)
    requires
        off > 0,
        fps.len() == d.fields.len() < 0x1_0000_0000,
        mps.len() == d.methods.len() < 0x1_0000_0000,
        pps.len() == d.params.len() < 0x1_0000_0000,
        holds_at(f, off as int, word(c_off)),
        holds_at(f, off + 4, count_bytes(fps.len())),
        holds_at(f, off + 8, count_bytes(mps.len())),
        holds_at(f, off + 12, count_bytes(pps.len())),
        holds_at(f, off + 16, pairs_bytes(fps)),
        holds_at(f, off + 16 + 8 * fps.len(), pairs_bytes(mps)),
        holds_at(f, off + 16 + 8 * fps.len() + 8 * mps.len(), pairs_bytes(pps)),
        spec_parse_set(f, c_off) == Ok::<_, DecodeFault>(d.class),
        entries_read(f, fps, d.fields),
        entries_read(f, mps, d.methods),
        param_entries_read(f, pps, d.params),
    ensures
        spec_parse_directory(f, off) == Ok::<_, DecodeFault>(d),
{
    reveal(spec_parse_directory);
    assert(count_bytes(fps.len()) == word(fps.len() as u32));
    assert(count_bytes(mps.len()) == word(mps.len() as u32));
    assert(count_bytes(pps.len()) == word(pps.len() as u32));
    lemma_u32_bytes(f, off as int, c_off);
    lemma_u32_bytes(f, off + 4, fps.len() as u32);
    lemma_u32_bytes(f, off + 8, mps.len() as u32);
    lemma_u32_bytes(f, off + 12, pps.len() as u32);
    lemma_table_entries(f, off + 16, fps, d.fields);
    lemma_table_entries(f, off + 16 + 8 * fps.len(), mps, d.methods);
    lemma_table_param_entries(f, off + 16 + 8 * fps.len() + 8 * mps.len(), pps, d.params);
}

spec fn stage_c(buf: Seq<u8>, d: DirectoryModel) -> (Seq<u8>, u32) {
    spec_write_set(buf, 0, d.class)
}

spec fn stage_f(buf: Seq<u8>, d: DirectoryModel) -> (Seq<u8>, Seq<(u32, u32)>) {
    spec_write_entries(stage_c(buf, d).0, 0, d.fields)
}

spec fn stage_m(buf: Seq<u8>, d: DirectoryModel) -> (Seq<u8>, Seq<(u32, u32)>) {
    spec_write_entries(stage_f(buf, d).0, 0, d.methods)
}

spec fn stage_p(buf: Seq<u8>, d: DirectoryModel) -> (Seq<u8>, Seq<(u32, u32)>) {
    spec_write_param_entries(stage_m(buf, d).0, 0, d.params)
}

spec fn dir_header(buf: Seq<u8>, d: DirectoryModel) -> Seq<u8> {
    word(stage_c(buf, d).1) + count_bytes(stage_f(buf, d).1.len()) + count_bytes(stage_m(buf, d).1.len())
        + count_bytes(stage_p(buf, d).1.len()) + pairs_bytes(stage_f(buf, d).1) + pairs_bytes(stage_m(buf, d).1)
        + pairs_bytes(stage_p(buf, d).1)
}

proof fn lemma_dir_shape(buf: Seq<u8>, d: DirectoryModel)
    requires
        !directory_is_empty(d),
    ensures
        spec_write_directory(buf, 0, d).0 == aligned(stage_p(buf, d).0) + dir_header(buf, d),
        spec_write_directory(buf, 0, d).1 == offset_of(0, aligned(stage_p(buf, d).0).len()),
{
    reveal(spec_write_directory);
    assert(spec_write_directory(buf, 0, d).0 =~= aligned(stage_p(buf, d).0) + dir_header(buf, d));
}

proof fn lemma_dir_prefixes(buf: Seq<u8>, d: DirectoryModel, f: Seq<u8>)
    requires
        !directory_is_empty(d),
        starts_with(f, spec_write_directory(buf, 0, d).0),
    ensures
        starts_with(f, aligned(stage_p(buf, d).0)),
        starts_with(f, stage_p(buf, d).0),
        starts_with(f, stage_m(buf, d).0),
        starts_with(f, stage_f(buf, d).0),
        starts_with(f, stage_c(buf, d).0),
        starts_with(stage_c(buf, d).0, buf),
        buf.len() <= stage_c(buf, d).0.len() <= stage_f(buf, d).0.len() <= stage_m(buf, d).0.len()
            <= stage_p(buf, d).0.len() <= aligned(stage_p(buf, d).0).len() <= spec_write_directory(buf, 0, d).0.len()
            <= f.len(),
{
    let b = aligned(stage_p(buf, d).0);
    lemma_dir_shape(buf, d);
    lemma_extends(b, dir_header(buf, d));
    lemma_aligned(stage_p(buf, d).0);
    lemma_set_grow(buf, 0, d.class);
    lemma_entries_grow(stage_c(buf, d).0, 0, d.fields);
    lemma_entries_grow(stage_f(buf, d).0, 0, d.methods);
    lemma_param_entries_grow(stage_m(buf, d).0, 0, d.params);
    lemma_starts_trans(f, spec_write_directory(buf, 0, d).0, b);
    lemma_starts_trans(f, b, stage_p(buf, d).0);
    lemma_starts_trans(f, stage_p(buf, d).0, stage_m(buf, d).0);
    lemma_starts_trans(f, stage_m(buf, d).0, stage_f(buf, d).0);
    lemma_starts_trans(f, stage_f(buf, d).0, stage_c(buf, d).0);
    lemma_starts_len(stage_c(buf, d).0, buf);
    lemma_starts_len(stage_f(buf, d).0, stage_c(buf, d).0);
    lemma_starts_len(stage_m(buf, d).0, stage_f(buf, d).0);
    lemma_starts_len(stage_p(buf, d).0, stage_m(buf, d).0);
    lemma_starts_len(b, stage_p(buf, d).0);
    lemma_starts_len(spec_write_directory(buf, 0, d).0, b);
    lemma_starts_len(f, spec_write_directory(buf, 0, d).0);
}

proof fn lemma_dir_header_at(buf: Seq<u8>, d: DirectoryModel, f: Seq<u8>)
    requires
        !directory_is_empty(d),
        starts_with(f, spec_write_directory(buf, 0, d).0),
    ensures
        ({
            let pos = aligned(stage_p(buf, d).0).len() as int;
            let fl = stage_f(buf, d).1.len();
            let ml = stage_m(buf, d).1.len();
            &&& holds_at(f, pos, word(stage_c(buf, d).1))
            &&& holds_at(f, pos + 4, count_bytes(fl))
            &&& holds_at(f, pos + 8, count_bytes(ml))
            &&& holds_at(f, pos + 12, count_bytes(stage_p(buf, d).1.len()))
            &&& holds_at(f, pos + 16, pairs_bytes(stage_f(buf, d).1))
            &&& holds_at(f, pos + 16 + 8 * fl, pairs_bytes(stage_m(buf, d).1))
            &&& holds_at(f, pos + 16 + 8 * fl + 8 * ml, pairs_bytes(stage_p(buf, d).1))
        }),
{
    let b = aligned(stage_p(buf, d).0);
    let h0 = word(stage_c(buf, d).1);
    let h1 = count_bytes(stage_f(buf, d).1.len());
    let h2 = count_bytes(stage_m(buf, d).1.len());
    let h3 = count_bytes(stage_p(buf, d).1.len());
    let t1 = pairs_bytes(stage_f(buf, d).1);
    let t2 = pairs_bytes(stage_m(buf, d).1);
    let t3 = pairs_bytes(stage_p(buf, d).1);
    let x = dir_header(buf, d);
    assert(x == h0 + h1 + h2 + h3 + t1 + t2 + t3);
    lemma_word_len(stage_c(buf, d).1);
    lemma_word_len((stage_f(buf, d).1.len() % 0x1_0000_0000) as u32);
    lemma_word_len((stage_m(buf, d).1.len() % 0x1_0000_0000) as u32);
    lemma_word_len((stage_p(buf, d).1.len() % 0x1_0000_0000) as u32);
    lemma_dir_shape(buf, d);
    lemma_pairs_len(stage_f(buf, d).1);
    lemma_pairs_len(stage_m(buf, d).1);
    assert(spec_write_directory(buf, 0, d).0 == b + x + Seq::<u8>::empty());
    lemma_piece(f, spec_write_directory(buf, 0, d).0, b, x, Seq::empty());
    let pos = b.len() as int;
    lemma_holds_split(f, pos, h0 + h1 + h2 + h3 + t1 + t2, t3);
    lemma_holds_split(f, pos, h0 + h1 + h2 + h3 + t1, t2);
    lemma_holds_split(f, pos, h0 + h1 + h2 + h3, t1);
    lemma_holds_split(f, pos, h0 + h1 + h2, h3);
    lemma_holds_split(f, pos, h0 + h1, h2);
    lemma_holds_split(f, pos, h0, h1);
}

proof fn lemma_dir_tables(buf: Seq<u8>, d: DirectoryModel, f: Seq<u8>)
    requires
        directory_fits(d),
        !directory_is_empty(d),
        stage_c(buf, d).0.len() > 0,
        starts_with(f, spec_write_directory(buf, 0, d).0),
        spec_write_directory(buf, 0, d).0.len() < 0x1_0000_0000,
    ensures
        spec_parse_directory(f, aligned(stage_p(buf, d).0).len() as u32) == Ok::<_, DecodeFault>(d),
{
    let w = spec_write_directory(buf, 0, d);
    lemma_extends(w.0, Seq::empty());
    lemma_dir_prefixes(buf, d, f);
    lemma_dir_prefixes(buf, d, w.0);
    lemma_set_written(buf, d.class, f);
    lemma_entries_written(stage_c(buf, d).0, d.fields, f);
    lemma_entries_written(stage_f(buf, d).0, d.methods, f);
    lemma_param_entries_written(stage_m(buf, d).0, d.params, f);
    lemma_dir_header_at(buf, d, f);
    lemma_directory_at(
        f,
        aligned(stage_p(buf, d).0).len() as u32,
        stage_c(buf, d).1,
        d,
        stage_f(buf, d).1,
        stage_m(buf, d).1,
        stage_p(buf, d).1,
    );
}

/// Writing a directory and reading it back, at the offset that writing returned, gives
/// the same directory, whatever bytes follow it. The buffer stands at file offset 0;
/// it must not start out empty unless the class itself has annotations (otherwise a
/// ref list of empty sets could land at offset 0, which reads as "no list").
pub proof fn annotations_directory_roundtrip(buf: Seq<u8>, d: DirectoryModel, tail: Seq<u8>)
    requires
        directory_fits(d),
        buf.len() > 0 || d.class.len() > 0,
        spec_write_directory(buf, 0, d).0.len() < 0x1_0000_0000,
    ensures
        spec_parse_directory(spec_write_directory(buf, 0, d).0 + tail, spec_write_directory(buf, 0, d).1)
            == Ok::<_, DecodeFault>(d),
{
    let w = spec_write_directory(buf, 0, d);
    if directory_is_empty(d) {
        reveal(spec_write_directory);
        reveal(spec_parse_directory);
        assert(d.class =~= Seq::<ItemModel>::empty());
        assert(d.fields =~= Seq::<(u32, Seq<ItemModel>)>::empty());
        assert(d.methods =~= Seq::<(u32, Seq<ItemModel>)>::empty());
        assert(d.params =~= Seq::<(u32, Seq<Seq<ItemModel>>)>::empty());
    } else {
        lemma_set_grow(buf, 0, d.class);
        lemma_starts_len(stage_c(buf, d).0, buf);
        lemma_extends(w.0, tail);
        lemma_dir_tables(buf, d, w.0 + tail);
        lemma_dir_shape(buf, d);
        lemma_extends(w.0, Seq::empty());
        lemma_dir_prefixes(buf, d, w.0);
        lemma_starts_len(w.0, aligned(stage_p(buf, d).0));
    }
}

/// Writing a directory only appends: the bytes already in the buffer stay as they
/// were. An empty directory writes nothing and is named by offset 0; any other one is
/// named by the offset, counted from `base`, just past the padding that brings the
/// buffer to a multiple of four, so from a four-aligned base it sits four-aligned.
#[verifier::rlimit(60)]
#[verifier::spinoff_prover]
pub proof fn annotations_directory_appends(buf: Seq<u8>, base: u32, d: DirectoryModel)
    ensures
        buf.len() <= spec_write_directory(buf, base, d).0.len(),
        spec_write_directory(buf, base, d).0.subrange(0, buf.len() as int) == buf,
        directory_is_empty(d) ==> spec_write_directory(buf, base, d) == (buf, 0u32),
        !directory_is_empty(d) && base % 4 == 0 ==> spec_write_directory(buf, base, d).1 % 4 == 0,
        !directory_is_empty(d) && base == 0 && buf.len() > 0 && spec_write_directory(buf, base, d).0.len()
            < 0x1_0000_0000 ==> spec_write_directory(buf, base, d).1 != 0,
{
    let w = spec_write_directory(buf, base, d);
    if directory_is_empty(d) {
        reveal(spec_write_directory);
        assert(w.0.subrange(0, buf.len() as int) =~= buf);
    } else {
        let c = spec_write_set(buf, base, d.class);
        let f = spec_write_entries(c.0, base, d.fields);
        let m = spec_write_entries(f.0, base, d.methods);
        let p = spec_write_param_entries(m.0, base, d.params);
        let b = aligned(p.0);
        let hdr = word(c.1) + count_bytes(f.1.len()) + count_bytes(m.1.len()) + count_bytes(p.1.len())
            + pairs_bytes(f.1) + pairs_bytes(m.1) + pairs_bytes(p.1);
        assert(w.0 == b + hdr && w.1 == offset_of(base, b.len())) by {
            reveal(spec_write_directory);
            assert(w.0 =~= b + hdr);
        }
        lemma_write_dir_prefix(buf, base, d, w.0, hdr);
        assert(w.0.subrange(0, buf.len() as int) =~= buf) by {
            reveal(starts_with);
        }
        lemma_starts_len(w.0, buf);
        if base % 4 == 0 {
            lemma_aligned_len(p.0);
            lemma_offset_aligned(base, b.len());
        }
    }
}

proof fn lemma_write_dir_prefix(buf: Seq<u8>, base: u32, d: DirectoryModel, w: Seq<u8>, hdr: Seq<u8>)
    requires
        w == aligned(
            spec_write_param_entries(
                spec_write_entries(
                    spec_write_entries(spec_write_set(buf, base, d.class).0, base, d.fields).0,
                    base,
                    d.methods,
                ).0,
                base,
                d.params,
            ).0,
        ) + hdr,
    ensures
        starts_with(w, buf),
        buf.len() + hdr.len() <= w.len(),
{
    let c = spec_write_set(buf, base, d.class);
    let f = spec_write_entries(c.0, base, d.fields);
    let m = spec_write_entries(f.0, base, d.methods);
    let p = spec_write_param_entries(m.0, base, d.params);
    let b = aligned(p.0);
    lemma_set_grow(buf, base, d.class);
    lemma_entries_grow(c.0, base, d.fields);
    lemma_entries_grow(f.0, base, d.methods);
    lemma_param_entries_grow(m.0, base, d.params);
    lemma_aligned(p.0);
    lemma_extends(b, hdr);
    lemma_starts_trans(w, b, p.0);
    lemma_starts_trans(w, p.0, m.0);
    lemma_starts_trans(w, m.0, f.0);
    lemma_starts_trans(w, f.0, c.0);
    lemma_starts_trans(w, c.0, buf);
    lemma_starts_trans(p.0, m.0, f.0);
    lemma_starts_trans(p.0, f.0, c.0);
    lemma_starts_trans(p.0, c.0, buf);
}

proof fn lemma_offset_aligned(base: u32, len: nat)
    requires
        base % 4 == 0,
        len % 4 == 0,
    ensures
        offset_of(base, len) % 4 == 0,
{
    let x = base + len;
    vstd::arithmetic::div_mod::lemma_mod_mod(x, 4, 0x4000_0000);
}

proof fn lemma_aligned_len(b: Seq<u8>)
    ensures
        aligned(b).len() % 4 == 0,
{
}

/// Entries that parse end inside the buffer.
proof fn lemma_entries_end(data: Seq<u8>, pos: int, count: nat)
    requires
        spec_parse_entries(data, pos, count) is Ok,
        0 <= pos <= data.len(),
    ensures
        pos + 8 * count <= data.len(),
    decreases count,
{
    if count > 0 {
        lemma_entries_end(data, pos + 8, (count - 1) as nat);
    }
}

} // verus!
