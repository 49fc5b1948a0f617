//! Item lists of one DEX image: class definitions, method and field ids, strings.

use vstd::prelude::*;
use vstd::slice::slice_to_vec;

use crate::dex::file::DexFile;
use crate::dex::header::{class_def_at, class_def_pos, ClassDef, CLASS_DEF_SIZE};
use crate::dex::strings::{spec_decode_mutf8, spec_string_payload, DexStrings};
use crate::error::{truncated, DexError, Result};
use crate::leb128::{read_u16, read_u32, u16_at, u32_at};

verus! {

/// One `method_id_item`.
#[derive(Clone, Copy, Debug, PartialEq, Eq)]
pub struct MethodId {
    pub class_idx: u16,
    pub proto_idx: u16,
    pub name_idx: u32,
}

/// One `field_id_item`.
#[derive(Clone, Copy, Debug, PartialEq, Eq)]
pub struct FieldId {
    pub class_idx: u16,
    pub type_idx: u16,
    pub name_idx: u32,
}

/// What the `i`-th class definition of `dex` reads as.
pub open spec fn class_item_ok(dex: DexFile, i: int, r: Result<ClassDef>) -> bool {
    let fits = class_def_pos(dex.header, i as u32) + CLASS_DEF_SIZE <= dex.data@.len();
    match r {
        Ok(c) => fits && c == class_def_at(dex.data@, class_def_pos(dex.header, i as u32)),
        Err(e) => e is Truncated && e->Truncated_0@ == "class_def"@ && !fits,
    }
}

/// Byte position of `method_ids[i]` / `field_ids[i]` (both 8-byte items).
pub open spec fn id_pos(off: u32, i: int) -> int {
    off + 8 * i
}

/// What the `i`-th method id of `dex` reads as.
pub open spec fn method_item_ok(dex: DexFile, i: int, r: Result<MethodId>) -> bool {
    let p = id_pos(dex.header.method_ids_off, i);
    let d = dex.data@;
    match r {
        Ok(m) => p + 8 <= d.len() && m == MethodId {
            class_idx: u16_at(d, p),
            proto_idx: u16_at(d, p + 2),
            name_idx: u32_at(d, p + 4),
        },
        Err(e) => e is Truncated && e->Truncated_0@ == "method_id"@ && p + 8 > d.len(),
    }
}

/// What the `i`-th field id of `dex` reads as.
pub open spec fn field_item_ok(dex: DexFile, i: int, r: Result<FieldId>) -> bool {
    let p = id_pos(dex.header.field_ids_off, i);
    let d = dex.data@;
    match r {
        Ok(f) => p + 8 <= d.len() && f == FieldId {
            class_idx: u16_at(d, p),
            type_idx: u16_at(d, p + 2),
            name_idx: u32_at(d, p + 4),
        },
        Err(e) => e is Truncated && e->Truncated_0@ == "field_id"@ && p + 8 > d.len(),
    }
}

/// Whether the `string_ids` table lies inside the image.
pub open spec fn string_ids_fit(dex: DexFile) -> bool {
    dex.header.string_ids_size == 0 || dex.header.string_ids_off + 4 * dex.header.string_ids_size
        <= dex.data@.len()
}

/// What the `i`-th string of `dex` reads as: its MUTF-8 payload decoded.
pub open spec fn string_item_ok(dex: DexFile, i: int, r: Result<String>) -> bool {
    let o = u32_at(dex.data@, dex.header.string_ids_off + 4 * i) as int;
    match r {
        Ok(s) => exists|b: Seq<u8>|
            spec_string_payload(dex.data@, o) == Some(b) && spec_decode_mutf8(b) == Some(s@),
        Err(DexError::Truncated(_)) => spec_string_payload(dex.data@, o) is None,
        Err(DexError::Parse(_)) => exists|b: Seq<u8>|
            spec_string_payload(dex.data@, o) == Some(b) && spec_decode_mutf8(b) is None,
        Err(_) => false,
    }
}

/// The strings of `dex` as `strings()` lists them.
pub open spec fn strings_ok(dex: DexFile, r: Seq<Result<String>>) -> bool {
    if string_ids_fit(dex) {
        r.len() == dex.header.string_ids_size && forall|i: int| 0 <= i < r.len() ==> string_item_ok(dex, i, #[trigger] r[i])
    } else {
        r.len() == 1 && r[0] is Err && r[0]->Err_0 is Truncated
    }
}

pub open spec fn classes_ok(dex: DexFile, r: Seq<Result<ClassDef>>) -> bool {
    r.len() == dex.header.class_defs_size && forall|i: int| 0 <= i < r.len() ==> class_item_ok(dex, i, #[trigger] r[i])
}

pub open spec fn methods_ok(dex: DexFile, r: Seq<Result<MethodId>>) -> bool {
    r.len() == dex.header.method_ids_size && forall|i: int| 0 <= i < r.len() ==> method_item_ok(dex, i, #[trigger] r[i])
}

pub open spec fn fields_ok(dex: DexFile, r: Seq<Result<FieldId>>) -> bool {
    r.len() == dex.header.field_ids_size && forall|i: int| 0 <= i < r.len() ==> field_item_ok(dex, i, #[trigger] r[i])
}

/// Reads the item lists of one DEX image.
#[derive(Debug)]
pub struct DexHelper {
    dex: DexFile,
}

/// Whether 8 bytes at `off + 8 * i` lie inside `data`; then that position.
fn id_at(data: &[u8], off: u32, i: u32) -> (r: Option<usize>)
    ensures
        match r {
            Some(p) => p == id_pos(off, i as int) && p + 8 <= data@.len(),
            None => id_pos(off, i as int) + 8 > data@.len(),
        },
{
    let p: u64 = off as u64 + 8 * (i as u64);
    if p + 8 > data.len() as u64 {
        None
    } else {
        Some(p as usize)
    }
}

impl DexHelper {
    pub closed spec fn view_dex(&self) -> DexFile {
        self.dex
    }

    /// A helper over a copy of `dex`.
    pub fn from_dex(dex: &DexFile) -> (r: DexHelper)
        ensures
            r.view_dex().data@ == dex.data@,
            r.view_dex().header == dex.header,
    {
        DexHelper { dex: DexFile { data: slice_to_vec(dex.data.as_slice()), header: dex.header } }
    }

    /// A helper that takes `dex` over.
    pub fn own(dex: DexFile) -> (r: DexHelper)
        ensures
            r.view_dex() == dex,
    {
        DexHelper { dex }
    }

    /// The image this helper reads.
    pub fn dex(&self) -> (r: &DexFile)
        ensures
            *r == self.view_dex(),
    {
        &self.dex
    }

    /// Every class definition, in table order.
    pub fn classes(&self) -> (r: Vec<Result<ClassDef>>)
        ensures
            classes_ok(self.view_dex(), r@),
    {
        let n = self.dex.header.class_defs_size;
        let mut out: Vec<Result<ClassDef>> = Vec::new();
        let mut i: u32 = 0;
        while i < n
            invariant
                i <= n,
                n == self.dex.header.class_defs_size,
                out@.len() == i,
                forall|k: int| 0 <= k < i ==> class_item_ok(self.dex, k, #[trigger] out@[k]),
            decreases n - i,
        {
            let c = ClassDef::parse(self.dex.data.as_slice(), &self.dex.header, i);
            out.push(c);
            i = i + 1;
        }
        out
    }

    /// Every `method_id_item`, in table order.
    pub fn methods(&self) -> (r: Vec<Result<MethodId>>)
        ensures
            methods_ok(self.view_dex(), r@),
    {
        let n = self.dex.header.method_ids_size;
        let off = self.dex.header.method_ids_off;
        let data = self.dex.data.as_slice();
        let _len = data.len();
        let mut out: Vec<Result<MethodId>> = Vec::new();
        let mut i: u32 = 0;
        while i < n
            invariant
                i <= n,
                n == self.dex.header.method_ids_size,
                off == self.dex.header.method_ids_off,
                data@ == self.dex.data@,
                data@.len() <= usize::MAX,
                out@.len() == i,
                forall|k: int| 0 <= k < i ==> method_item_ok(self.dex, k, #[trigger] out@[k]),
            decreases n - i,
        {
            let item = match id_at(data, off, i) {
                None => Err(truncated("method_id")),
                Some(p) => {
                    let class_idx = match read_u16(data, p) {
                        Some(v) => v,
                        None => 0,
                    };
                    let proto_idx = match read_u16(data, p + 2) {
                        Some(v) => v,
                        None => 0,
                    };
                    let name_idx = match read_u32(data, p + 4) {
                        Some(v) => v,
                        None => 0,
                    };
                    Ok(MethodId { class_idx, proto_idx, name_idx })
                },
            };
            out.push(item);
            i = i + 1;
        }
        out
    }

    /// Every `field_id_item`, in table order.
    pub fn fields(&self) -> (r: Vec<Result<FieldId>>)
        ensures
            fields_ok(self.view_dex(), r@),
    {
        let n = self.dex.header.field_ids_size;
        let off = self.dex.header.field_ids_off;
        let data = self.dex.data.as_slice();
        let _len = data.len();
        let mut out: Vec<Result<FieldId>> = Vec::new();
        let mut i: u32 = 0;
        while i < n
            invariant
                i <= n,
                n == self.dex.header.field_ids_size,
                off == self.dex.header.field_ids_off,
                data@ == self.dex.data@,
                data@.len() <= usize::MAX,
                out@.len() == i,
                forall|k: int| 0 <= k < i ==> field_item_ok(self.dex, k, #[trigger] out@[k]),
            decreases n - i,
        {
            let item = match id_at(data, off, i) {
                None => Err(truncated("field_id")),
                Some(p) => {
                    let class_idx = match read_u16(data, p) {
                        Some(v) => v,
                        None => 0,
                    };
                    let type_idx = match read_u16(data, p + 2) {
                        Some(v) => v,
                        None => 0,
                    };
                    let name_idx = match read_u32(data, p + 4) {
                        Some(v) => v,
                        None => 0,
                    };
                    Ok(FieldId { class_idx, type_idx, name_idx })
                },
            };
            out.push(item);
            i = i + 1;
        }
        out
    }

    /// Every string, decoded, in `string_ids` order; a single `Truncated` error when the
    /// `string_ids` table itself runs past the image.
    pub fn strings(&self) -> (r: Vec<Result<String>>)
        ensures
            strings_ok(self.view_dex(), r@),
    {
        let data = self.dex.data.as_slice();
        let table = match DexStrings::parse(data, &self.dex.header) {
            Ok(t) => t,
            Err(e) => {
                let mut v: Vec<Result<String>> = Vec::new();
                v.push(Err(e));
                return v;
            },
        };
        let n = self.dex.header.string_ids_size;
        let mut out: Vec<Result<String>> = Vec::new();
        let mut i: u32 = 0;
        while i < n
            invariant
                i <= n,
                n == self.dex.header.string_ids_size,
                data@ == self.dex.data@,
                table.offsets().len() == n,
                forall|k: int| 0 <= k < n ==> table.offsets()[k] == u32_at(data@, self.dex.header.string_ids_off + 4 * k),
                out@.len() == i,
                forall|k: int| 0 <= k < i ==> string_item_ok(self.dex, k, #[trigger] out@[k]),
            decreases n - i,
        {
            let s = table.get(data, i);
            out.push(s);
            i = i + 1;
        }
        out
    }
}

} // verus!
