//! `class_data_item`: the fields and methods a class defines, with their code offsets.

use vstd::prelude::*;

use crate::dex::header::ClassDef;
use crate::error::{truncated, DexError, Result};
use crate::leb128::{lemma_read_leb_consumed, read_uleb128, spec_read_uleb128};

verus! {

/// One `encoded_field` with its index already accumulated from the diffs.
#[derive(Debug, Clone, Copy, PartialEq, Eq)]
pub struct EncodedField {
    pub field_idx: u32,
    pub access_flags: u32,
}

/// One `encoded_method` with its index already accumulated from the diffs.
#[derive(Debug, Clone, Copy, PartialEq, Eq)]
pub struct EncodedMethod {
    pub method_idx: u32,
    pub access_flags: u32,
    pub code_off: u32,
}

/// The four member lists of a `class_data_item`.
#[derive(Debug, Clone)]
pub struct ClassData {
    pub static_fields: Vec<EncodedField>,
    pub instance_fields: Vec<EncodedField>,
    pub direct_methods: Vec<EncodedMethod>,
    pub virtual_methods: Vec<EncodedMethod>,
}

/// `prev + diff`, wrapping at 2^32.
pub open spec fn next_idx(prev: u32, diff: u32) -> u32 {
    ((prev + diff) % 0x1_0000_0000) as u32
}

/// `count` encoded_fields from `pos`, indices accumulated from `prev`: the fields and the
/// position after them.
pub open spec fn spec_fields(data: Seq<u8>, pos: int, count: nat, prev: u32) -> Option<
    (Seq<EncodedField>, int),
>
    decreases count,
{
    if count == 0 {
        Some((Seq::empty(), pos))
    } else {
        match spec_read_uleb128(data, pos) {
            Some((diff, n1)) => match spec_read_uleb128(data, pos + n1) {
                Some((flags, n2)) => {
                    let idx = next_idx(prev, diff);
                    match spec_fields(data, pos + n1 + n2, (count - 1) as nat, idx) {
                        Some((rest, e)) => Some(
                            (seq![EncodedField { field_idx: idx, access_flags: flags }] + rest, e),
                        ),
                        None => None,
                    }
                },
                None => None,
            },
            None => None,
        }
    }
}

/// `count` encoded_methods from `pos`, indices accumulated from `prev`.
pub open spec fn spec_methods(data: Seq<u8>, pos: int, count: nat, prev: u32) -> Option<
    (Seq<EncodedMethod>, int),
>
    decreases count,
{
    if count == 0 {
        Some((Seq::empty(), pos))
    } else {
        match spec_read_uleb128(data, pos) {
            Some((diff, n1)) => match spec_read_uleb128(data, pos + n1) {
                Some((flags, n2)) => match spec_read_uleb128(data, pos + n1 + n2) {
                    Some((code_off, n3)) => {
                        let idx = next_idx(prev, diff);
                        match spec_methods(data, pos + n1 + n2 + n3, (count - 1) as nat, idx) {
                            Some((rest, e)) => Some(
                                (
                                    seq![
                                        EncodedMethod {
                                            method_idx: idx,
                                            access_flags: flags,
                                            code_off,
                                        },
                                    ] + rest,
                                    e,
                                ),
                            ),
                            None => None,
                        }
                    },
                    None => None,
                },
                None => None,
            },
            None => None,
        }
    }
}

/// The member lists of the `class_data_item` at `off`, when every part of it can be read.
pub open spec fn spec_class_data(data: Seq<u8>, off: int) -> Option<
    (Seq<EncodedField>, Seq<EncodedField>, Seq<EncodedMethod>, Seq<EncodedMethod>),
> {
    match spec_read_uleb128(data, off) {
        Some((sf, n1)) => match spec_read_uleb128(data, off + n1) {
            Some((inf, n2)) => match spec_read_uleb128(data, off + n1 + n2) {
                Some((dm, n3)) => match spec_read_uleb128(data, off + n1 + n2 + n3) {
                    Some((vm, n4)) => {
                        let p = off + n1 + n2 + n3 + n4;
                        match spec_fields(data, p, sf as nat, 0) {
                            Some((s, p1)) => match spec_fields(data, p1, inf as nat, 0) {
                                Some((i, p2)) => match spec_methods(data, p2, dm as nat, 0) {
                                    Some((d, p3)) => match spec_methods(data, p3, vm as nat, 0) {
                                        Some((v, _)) => Some((s, i, d, v)),
                                        None => None,
                                    },
                                    None => None,
                                },
                                None => None,
                            },
                            None => None,
                        }
                    },
                    None => None,
                },
                None => None,
            },
            None => None,
        },
        None => None,
    }
}

fn read_uleb(data: &[u8], pos: usize) -> (r: Result<(u32, usize)>)
    ensures
        match r {
            Ok((v, n)) => spec_read_uleb128(data@, pos as int) == Some((v, n)) && 1 <= n <= 5
                && pos + n <= data@.len(),
            Err(e) => spec_read_uleb128(data@, pos as int) is None && e is Truncated,
        },
        data@.len() <= usize::MAX,
{
    let _len = data.len();
    proof {
        lemma_read_leb_consumed(data@, pos as int);
    }
    match read_uleb128(data, pos) {
        Some((v, n)) => Ok((v, n)),
        None => Err(truncated("class_data")),
    }
}

fn read_fields(data: &[u8], pos: usize, count: u32) -> (r: Result<(Vec<EncodedField>, usize)>)
    ensures
        match r {
            Ok((v, e)) => spec_fields(data@, pos as int, count as nat, 0) == Some((v@, e as int)),
            Err(e) => spec_fields(data@, pos as int, count as nat, 0) is None && e is Truncated,
        },
{
    let mut out: Vec<EncodedField> = Vec::new();
    let mut p = pos;
    let mut prev: u32 = 0;
    let mut i: u32 = 0;
    while i < count
        invariant
            i <= count,
            spec_fields(data@, pos as int, count as nat, 0) == match spec_fields(
                data@,
                p as int,
                (count - i) as nat,
                prev,
            ) {
                Some((rest, e)) => Some((out@ + rest, e)),
                None => None,
            },
        decreases count - i,
    {
        let (diff, n1) = read_uleb(data, p)?;
        let (flags, n2) = read_uleb(data, p + n1)?;
        let idx = prev.wrapping_add(diff);
        proof {
            assert(idx == next_idx(prev, diff));
        }
        let item = EncodedField { field_idx: idx, access_flags: flags };
        let ghost before = out@;
        out.push(item);
        proof {
            let tail = spec_fields(data@, (p + n1 + n2) as int, (count - i - 1) as nat, idx);
            match tail {
                Some((rest, e)) => {
                    assert(before + (seq![item] + rest) =~= out@ + rest);
                },
                None => {},
            }
        }
        p = p + n1 + n2;
        prev = idx;
        i = i + 1;
    }
    proof {
        assert(out@ + Seq::<EncodedField>::empty() =~= out@);
    }
    Ok((out, p))
}

fn read_methods(data: &[u8], pos: usize, count: u32) -> (r: Result<(Vec<EncodedMethod>, usize)>)
    ensures
        match r {
            Ok((v, e)) => spec_methods(data@, pos as int, count as nat, 0) == Some((v@, e as int)),
            Err(e) => spec_methods(data@, pos as int, count as nat, 0) is None && e is Truncated,
        },
{
    let mut out: Vec<EncodedMethod> = Vec::new();
    let mut p = pos;
    let mut prev: u32 = 0;
    let mut i: u32 = 0;
    while i < count
        invariant
            i <= count,
            spec_methods(data@, pos as int, count as nat, 0) == match spec_methods(
                data@,
                p as int,
                (count - i) as nat,
                prev,
            ) {
                Some((rest, e)) => Some((out@ + rest, e)),
                None => None,
            },
        decreases count - i,
    {
        let (diff, n1) = read_uleb(data, p)?;
        let (flags, n2) = read_uleb(data, p + n1)?;
        let (code_off, n3) = read_uleb(data, p + n1 + n2)?;
        let idx = prev.wrapping_add(diff);
        proof {
            assert(idx == next_idx(prev, diff));
        }
        let item = EncodedMethod { method_idx: idx, access_flags: flags, code_off };
        let ghost before = out@;
        out.push(item);
        proof {
            let tail = spec_methods(data@, (p + n1 + n2 + n3) as int, (count - i - 1) as nat, idx);
            match tail {
                Some((rest, e)) => {
                    assert(before + (seq![item] + rest) =~= out@ + rest);
                },
                None => {},
            }
        }
        p = p + n1 + n2 + n3;
        prev = idx;
        i = i + 1;
    }
    proof {
        assert(out@ + Seq::<EncodedMethod>::empty() =~= out@);
    }
    Ok((out, p))
}

impl ClassData {
    /// Whether the lists are those of `spec_class_data`.
    pub open spec fn is(self, m: (Seq<EncodedField>, Seq<EncodedField>, Seq<EncodedMethod>, Seq<EncodedMethod>)) -> bool {
        &&& self.static_fields@ == m.0
        &&& self.instance_fields@ == m.1
        &&& self.direct_methods@ == m.2
        &&& self.virtual_methods@ == m.3
    }

    /// The class's `class_data_item`: `None` when the class has none (offset 0),
    /// `Truncated` when any part of it runs past the data.
    pub fn parse(data: &[u8], class_def: &ClassDef) -> (r: Result<Option<ClassData>>)
        ensures
            class_def.class_data_off == 0 ==> r == Ok::<Option<ClassData>, DexError>(None),
            class_def.class_data_off != 0 ==> match r {
                Ok(Some(cd)) => spec_class_data(data@, class_def.class_data_off as int) matches Some(
                    m,
                ) && cd.is(m),
                Ok(None) => false,
                Err(e) => spec_class_data(data@, class_def.class_data_off as int) is None
                    && e is Truncated,
            },
    {
        if class_def.class_data_off == 0 {
            return Ok(None);
        }
        let off = class_def.class_data_off as usize;
        let (sf, n1) = read_uleb(data, off)?;
        let (inf, n2) = read_uleb(data, off + n1)?;
        let (dm, n3) = read_uleb(data, off + n1 + n2)?;
        let (vm, n4) = read_uleb(data, off + n1 + n2 + n3)?;
        let p = off + n1 + n2 + n3 + n4;
        let (static_fields, p1) = read_fields(data, p, sf)?;
        proof {
            assert(p1 <= data@.len()) by {
                lemma_fields_end(data@, p as int, sf as nat, 0);
            }
        }
        let (instance_fields, p2) = read_fields(data, p1, inf)?;
        proof {
            lemma_fields_end(data@, p1 as int, inf as nat, 0);
        }
        let (direct_methods, p3) = read_methods(data, p2, dm)?;
        proof {
            lemma_methods_end(data@, p2 as int, dm as nat, 0);
        }
        let (virtual_methods, _p4) = read_methods(data, p3, vm)?;
        Ok(Some(ClassData { static_fields, instance_fields, direct_methods, virtual_methods }))
    }
}

proof fn lemma_fields_end(data: Seq<u8>, pos: int, count: nat, prev: u32)
    requires
        0 <= pos <= data.len(),
        spec_fields(data, pos, count, prev) is Some,
    ensures
        pos <= (spec_fields(data, pos, count, prev)->0).1 <= data.len(),
    decreases count,
{
    if count > 0 {
        let (diff, n1) = spec_read_uleb128(data, pos)->0;
        lemma_read_leb_consumed(data, pos);
        lemma_read_leb_consumed(data, pos + n1);
        let (flags, n2) = spec_read_uleb128(data, pos + n1)->0;
        lemma_fields_end(data, pos + n1 + n2, (count - 1) as nat, next_idx(prev, diff));
    }
}

proof fn lemma_methods_end(data: Seq<u8>, pos: int, count: nat, prev: u32)
    requires
        0 <= pos <= data.len(),
        spec_methods(data, pos, count, prev) is Some,
    ensures
        pos <= (spec_methods(data, pos, count, prev)->0).1 <= data.len(),
    decreases count,
{
    if count > 0 {
        let (diff, n1) = spec_read_uleb128(data, pos)->0;
        lemma_read_leb_consumed(data, pos);
        lemma_read_leb_consumed(data, pos + n1);
        let (flags, n2) = spec_read_uleb128(data, pos + n1)->0;
        lemma_read_leb_consumed(data, pos + n1 + n2);
        let (code_off, n3) = spec_read_uleb128(data, pos + n1 + n2)->0;
        lemma_methods_end(data, pos + n1 + n2 + n3, (count - 1) as nat, next_idx(prev, diff));
    }
}

} // verus!
