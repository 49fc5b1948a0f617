//! A DEX image held in memory with its parsed header, and the reads of its items.

use vstd::prelude::*;
use vstd::slice::slice_to_vec;

use crate::dex::class_data::{spec_class_data, ClassData};
use crate::dex::code_item::{code_item_at, code_item_fits, CodeItem};
use crate::dex::header::{class_def_at, class_def_pos, has_dex_magic, header_at, ClassDef, DexHeader, CLASS_DEF_SIZE, HEADER_SIZE};
use crate::dex::raw::{entry_pos, RawDex, TableView};
use crate::dex::strings::{decode_mutf8, spec_decode_mutf8, spec_string_payload, string_payload};
use crate::error::{truncated, DexError, Result};
use crate::leb128::spec_read_u32;

verus! {

/// The bytes of one DEX image and its header.
#[derive(Debug, Clone)]
pub struct DexFile {
    pub data: Vec<u8>,
    pub header: DexHeader,
}

/// The decoded text of the string whose `string_data_item` starts at `off`.
pub open spec fn string_at(data: Seq<u8>, off: int) -> Option<Seq<char>> {
    match spec_string_payload(data, off) {
        Some(b) => spec_decode_mutf8(b),
        None => None,
    }
}

impl DexFile {
    /// Copy `data` and read its header; `InvalidMagic` when it is shorter than a header
    /// or does not start with `dex\n`.
    pub fn parse(data: &[u8]) -> (r: Result<DexFile>)
        ensures
            match r {
                Ok(d) => data@.len() >= HEADER_SIZE && has_dex_magic(data@) && d.data@ == data@
                    && d.header == header_at(data@),
                Err(e) => e is InvalidMagic && !(data@.len() >= HEADER_SIZE && has_dex_magic(
                    data@,
                )),
            },
    {
        let header = DexHeader::parse(data)?;
        Ok(DexFile { data: slice_to_vec(data), header })
    }

    /// Where `string_ids[idx]` points, when the index is in range and the entry readable.
    pub open spec fn string_data_offset(&self, idx: u32) -> Option<u32> {
        if idx < self.header.string_ids_size {
            spec_read_u32(
                self.data@,
                entry_pos(TableView { off: self.header.string_ids_off, size: self.header.string_ids_size }, idx, 4),
            )
        } else {
            None
        }
    }

    /// The string `idx`: its MUTF-8 payload decoded.
    pub open spec fn spec_string(&self, idx: u32) -> Option<Seq<char>> {
        match self.string_data_offset(idx) {
            Some(o) => string_at(self.data@, o as int),
            None => None,
        }
    }

    /// The descriptor string index of type `idx`.
    pub open spec fn type_string_idx(&self, idx: u32) -> Option<u32> {
        if idx < self.header.type_ids_size {
            spec_read_u32(
                self.data@,
                entry_pos(TableView { off: self.header.type_ids_off, size: self.header.type_ids_size }, idx, 4),
            )
        } else {
            None
        }
    }

    /// String `idx`, decoded. `Truncated` when the index or its data lie outside the
    /// image, `Parse` when the MUTF-8 does not decode.
    pub fn get_string(&self, idx: u32) -> (r: Result<String>)
        ensures
            match r {
                Ok(s) => self.spec_string(idx) == Some(s@),
                Err(e) => self.spec_string(idx) is None && (e is Truncated || e is Parse),
            },
    {
        let raw = RawDex::from_dex(self);
        let off = raw.string_data_off(idx)?;
        let bytes = match string_payload(self.data.as_slice(), off as usize) {
            Some(b) => b,
            None => return Err(truncated("string data")),
        };
        match decode_mutf8(bytes) {
            Ok(s) => Ok(s),
            Err(m) => Err(DexError::Parse(m)),
        }
    }

    /// The descriptor of type `idx` (e.g. `Ljava/lang/Object;`).
    pub fn get_type(&self, idx: u32) -> (r: Result<String>)
        ensures
            match r {
                Ok(s) => self.type_string_idx(idx) matches Some(si) && self.spec_string(si) == Some(s@),
                Err(e) => (self.type_string_idx(idx) matches Some(si) ==> self.spec_string(si) is None) && (
                e is Truncated || e is Parse),
            },
    {
        let raw = RawDex::from_dex(self);
        let si = raw.type_descriptor_idx(idx)?;
        self.get_string(si)
    }

    /// `class_defs[i]`.
    pub fn get_class_def(&self, i: u32) -> (r: Result<ClassDef>)
        ensures
            match r {
                Ok(c) => i < self.header.class_defs_size && class_def_pos(self.header, i) + CLASS_DEF_SIZE
                    <= self.data@.len() && c == class_def_at(self.data@, class_def_pos(self.header, i)),
                Err(e) => e is Truncated && !(i < self.header.class_defs_size && class_def_pos(
                    self.header,
                    i,
                ) + CLASS_DEF_SIZE <= self.data@.len()),
            },
    {
        ClassDef::parse(self.data.as_slice(), &self.header, i)
    }

    /// The `class_data_item` of `class_def`, `None` when it has none.
    pub fn get_class_data(&self, class_def: &ClassDef) -> (r: Result<Option<ClassData>>)
        ensures
            class_def.class_data_off == 0 ==> r == Ok::<Option<ClassData>, DexError>(None),
            class_def.class_data_off != 0 ==> match r {
                Ok(Some(cd)) => spec_class_data(self.data@, class_def.class_data_off as int) matches Some(
                    m,
                ) && cd.is(m),
                Ok(None) => false,
                Err(e) => spec_class_data(self.data@, class_def.class_data_off as int) is None
                    && e is Truncated,
            },
    {
        ClassData::parse(self.data.as_slice(), class_def)
    }

    /// The `code_item` at `code_off`.
    pub fn get_code_item(&self, code_off: u32) -> (r: Result<CodeItem>)
        ensures
            match r {
                Ok(c) => code_item_fits(self.data@, code_off as int) && c == code_item_at(self.data@, code_off),
                Err(e) => e is Truncated && !code_item_fits(self.data@, code_off as int),
            },
    {
        CodeItem::parse(self.data.as_slice(), code_off)
    }
}

} // verus!
