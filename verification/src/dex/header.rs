//! The DEX header (`header_item`) and `class_def_item`s.

use vstd::prelude::*;

use crate::error::{truncated, DexError, Result};
use crate::leb128::{read_u32, spec_read_u32, u32_at};

verus! {

/// Size of `header_item`.
pub const HEADER_SIZE: usize = 0x70;

/// Size of one `class_def_item`.
pub const CLASS_DEF_SIZE: usize = 0x20;

/// Whether `data` starts with the `dex\n` magic.
pub open spec fn has_dex_magic(data: Seq<u8>) -> bool {
    data.len() >= 4 && data[0] == 0x64 && data[1] == 0x65 && data[2] == 0x78 && data[3] == 0x0a
}

/// True when `data` begins with the DEX magic `dex\n`.
pub fn is_dex(data: &[u8]) -> (r: bool)
    ensures
        r == has_dex_magic(data@),
{
    data.len() >= 4 && data[0] == 0x64 && data[1] == 0x65 && data[2] == 0x78 && data[3] == 0x0a
}

/// The fixed-size fields of `header_item`.
#[derive(Clone, Copy, Debug, PartialEq, Eq)]
pub struct DexHeader {
    pub checksum: u32,
    pub file_size: u32,
    pub header_size: u32,
    pub endian_tag: u32,
    pub link_size: u32,
    pub link_off: u32,
    pub map_off: u32,
    pub string_ids_size: u32,
    pub string_ids_off: u32,
    pub type_ids_size: u32,
    pub type_ids_off: u32,
    pub proto_ids_size: u32,
    pub proto_ids_off: u32,
    pub field_ids_size: u32,
    pub field_ids_off: u32,
    pub method_ids_size: u32,
    pub method_ids_off: u32,
    pub class_defs_size: u32,
    pub class_defs_off: u32,
    pub data_size: u32,
    pub data_off: u32,
}

/// The header fields as they stand in `data` (little-endian, at their fixed offsets).
pub open spec fn header_at(data: Seq<u8>) -> DexHeader {
    DexHeader {
        checksum: u32_at(data, 8),
        file_size: u32_at(data, 32),
        header_size: u32_at(data, 36),
        endian_tag: u32_at(data, 40),
        link_size: u32_at(data, 44),
        link_off: u32_at(data, 48),
        map_off: u32_at(data, 52),
        string_ids_size: u32_at(data, 56),
        string_ids_off: u32_at(data, 60),
        type_ids_size: u32_at(data, 64),
        type_ids_off: u32_at(data, 68),
        proto_ids_size: u32_at(data, 72),
        proto_ids_off: u32_at(data, 76),
        field_ids_size: u32_at(data, 80),
        field_ids_off: u32_at(data, 84),
        method_ids_size: u32_at(data, 88),
        method_ids_off: u32_at(data, 92),
        class_defs_size: u32_at(data, 96),
        class_defs_off: u32_at(data, 100),
        data_size: u32_at(data, 104),
        data_off: u32_at(data, 108),
    }
}

fn field(data: &[u8], off: usize) -> (r: u32)
    requires
        off + 4 <= data@.len(),
    ensures
        r == u32_at(data@, off as int),
{
    match read_u32(data, off) {
        Some(v) => v,
        None => 0,
    }
}

impl DexHeader {
    /// Parse the header; the image must be at least 0x70 bytes and start with `dex\n`.
    pub fn parse(data: &[u8]) -> (r: Result<DexHeader>)
        ensures
            match r {
                Ok(h) => data@.len() >= HEADER_SIZE && has_dex_magic(data@) && h == header_at(data@),
                Err(e) => e is InvalidMagic && !(data@.len() >= HEADER_SIZE && has_dex_magic(data@)),
            },
    {
        if data.len() < HEADER_SIZE || !is_dex(data) {
            return Err(DexError::InvalidMagic);
        }
        Ok(
            DexHeader {
                checksum: field(data, 8),
                file_size: field(data, 32),
                header_size: field(data, 36),
                endian_tag: field(data, 40),
                link_size: field(data, 44),
                link_off: field(data, 48),
                map_off: field(data, 52),
                string_ids_size: field(data, 56),
                string_ids_off: field(data, 60),
                type_ids_size: field(data, 64),
                type_ids_off: field(data, 68),
                proto_ids_size: field(data, 72),
                proto_ids_off: field(data, 76),
                field_ids_size: field(data, 80),
                field_ids_off: field(data, 84),
                method_ids_size: field(data, 88),
                method_ids_off: field(data, 92),
                class_defs_size: field(data, 96),
                class_defs_off: field(data, 100),
                data_size: field(data, 104),
                data_off: field(data, 108),
            },
        )
    }
}

/// One `class_def_item`.
#[derive(Clone, Copy, Debug, PartialEq, Eq)]
pub struct ClassDef {
    pub class_idx: u32,
    pub access_flags: u32,
    pub superclass_idx: u32,
    pub interfaces_off: u32,
    pub source_file_idx: u32,
    pub annotations_off: u32,
    pub class_data_off: u32,
    pub static_values_off: u32,
}

/// Byte position of `class_defs[i]`.
pub open spec fn class_def_pos(header: DexHeader, i: u32) -> int {
    header.class_defs_off + CLASS_DEF_SIZE * i
}

/// The `class_def_item` whose 32 bytes start at `base`.
pub open spec fn class_def_at(data: Seq<u8>, base: int) -> ClassDef {
    ClassDef {
        class_idx: u32_at(data, base),
        access_flags: u32_at(data, base + 4),
        superclass_idx: u32_at(data, base + 8),
        interfaces_off: u32_at(data, base + 12),
        source_file_idx: u32_at(data, base + 16),
        annotations_off: u32_at(data, base + 20),
        class_data_off: u32_at(data, base + 24),
        static_values_off: u32_at(data, base + 28),
    }
}

impl ClassDef {
    /// Parse `class_defs[i]` of the image described by `header`.
    pub fn parse(data: &[u8], header: &DexHeader, i: u32) -> (r: Result<ClassDef>)
        ensures
            match r {
                Ok(c) => i < header.class_defs_size && class_def_pos(*header, i) + CLASS_DEF_SIZE
                    <= data@.len() && c == class_def_at(data@, class_def_pos(*header, i)),
                Err(e) => e is Truncated && e->Truncated_0@ == (if i >= header.class_defs_size {
                    "class_def index"@
                } else {
                    "class_def"@
                }) && !(i < header.class_defs_size && class_def_pos(*header, i) + CLASS_DEF_SIZE
                    <= data@.len()),
            },
    {
        if i >= header.class_defs_size {
            return Err(truncated("class_def index"));
        }
        let off = header.class_defs_off as usize;
        let rel = i as usize;
        if data.len() < off || (data.len() - off) / CLASS_DEF_SIZE <= rel {
            return Err(truncated("class_def"));
        }
        let base = off + rel * CLASS_DEF_SIZE;
        Ok(
            ClassDef {
                class_idx: field(data, base),
                access_flags: field(data, base + 4),
                superclass_idx: field(data, base + 8),
                interfaces_off: field(data, base + 12),
                source_file_idx: field(data, base + 16),
                annotations_off: field(data, base + 20),
                class_data_off: field(data, base + 24),
                static_values_off: field(data, base + 28),
            },
        )
    }
}

} // verus!
