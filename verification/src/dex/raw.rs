//! Zero-copy DEX header / table views over `&[u8]`.

use vstd::prelude::*;

use crate::dex::file::DexFile;
use crate::dex::header::{has_dex_magic, HEADER_SIZE};
use crate::dex::strings::{spec_string_payload, string_payload};
use crate::error::{truncated, DexError, Result};
use crate::leb128::{read_u16, read_u32, spec_read_u16, spec_read_u32, u16_at, u32_at};
use crate::text::{decimal, with_number};

verus! {

/// Table view: `(offset, size)` of id items.
#[derive(Debug, Clone, Copy)]
pub struct TableView {
    pub off: u32,
    pub size: u32,
}

/// Header offsets for fastref without constructing a full [`DexFile`].
#[derive(Debug, Clone, Copy)]
pub struct RawDex<'a> {
    pub data: &'a [u8],
    pub string_ids: TableView,
    pub type_ids: TableView,
    pub proto_ids: TableView,
    pub field_ids: TableView,
    pub method_ids: TableView,
    pub class_defs: TableView,
    pub map_off: u32,
}

/// The table whose size and offset stand at `size_off` and `off_off`.
pub open spec fn table_at(data: Seq<u8>, size_off: int, off_off: int) -> TableView {
    TableView { off: u32_at(data, off_off), size: u32_at(data, size_off) }
}

/// File offset of entry `idx` (of `width` bytes) in table `t`.
pub open spec fn entry_pos(t: TableView, idx: u32, width: int) -> int {
    t.off + idx * width
}

/// What the message of a failed read of a `kind` at `pos` says.
pub open spec fn at_message(kind: Seq<char>, pos: int) -> Seq<char> {
    kind + decimal(pos as nat)
}

/// Search `remaining` 12-byte `map_item`s from `p` for type `t`: `(size, offset)` of the
/// first match; nothing when an item would run past the data first.
pub open spec fn spec_map_search(data: Seq<u8>, p: int, remaining: nat, t: u16) -> Option<(u32, u32)>
    decreases remaining,
{
    if remaining == 0 {
        None
    } else if p + 12 > data.len() {
        None
    } else if u16_at(data, p) == t {
        Some((u32_at(data, p + 4), u32_at(data, p + 8)))
    } else {
        spec_map_search(data, p + 12, (remaining - 1) as nat, t)
    }
}

/// The `map_list` entry of type `t`, when the map is present and reachable.
pub open spec fn spec_map_entry(data: Seq<u8>, map_off: u32, t: u16) -> Option<(u32, u32)> {
    if map_off == 0 || map_off + 4 > data.len() {
        None
    } else {
        spec_map_search(data, map_off + 4, u32_at(data, map_off as int) as nat, t)
    }
}

fn table(data: &[u8], size_off: usize, off_off: usize) -> (r: Result<TableView>)
    ensures
        match r {
            Ok(t) => spec_read_u32(data@, size_off as int) == Some(t.size) && spec_read_u32(
                data@,
                off_off as int,
            ) == Some(t.off),
            Err(e) => e is Truncated && (spec_read_u32(data@, size_off as int) is None
                || spec_read_u32(data@, off_off as int) is None),
        },
{
    let size = match read_u32(data, size_off) {
        Some(v) => v,
        None => return Err(truncated("table size")),
    };
    let off = match read_u32(data, off_off) {
        Some(v) => v,
        None => return Err(truncated("table off")),
    };
    Ok(TableView { off, size })
}

impl<'a> RawDex<'a> {
    /// Whether the views are those of the header at the start of `data`.
    pub open spec fn from_header_of(self, data: Seq<u8>) -> bool {
        &&& self.data@ == data
        &&& self.map_off == u32_at(data, 0x34)
        &&& self.string_ids == table_at(data, 0x38, 0x3c)
        &&& self.type_ids == table_at(data, 0x40, 0x44)
        &&& self.proto_ids == table_at(data, 0x48, 0x4c)
        &&& self.field_ids == table_at(data, 0x50, 0x54)
        &&& self.method_ids == table_at(data, 0x58, 0x5c)
        &&& self.class_defs == table_at(data, 0x60, 0x64)
    }

    /// Read the header's table views; `InvalidMagic` when `data` is shorter than a header
    /// or does not start with `dex\n`.
    pub fn parse(data: &'a [u8]) -> (r: Result<Self>)
        ensures
            match r {
                Ok(d) => data@.len() >= HEADER_SIZE && has_dex_magic(data@) && d.from_header_of(
                    data@,
                ),
                Err(e) => e is InvalidMagic && !(data@.len() >= HEADER_SIZE && has_dex_magic(
                    data@,
                )),
            },
    {
        if data.len() < HEADER_SIZE || !(data[0] == 0x64 && data[1] == 0x65 && data[2] == 0x78
            && data[3] == 0x0a) {
            return Err(DexError::InvalidMagic);
        }
        let map_off = match read_u32(data, 0x34) {
            Some(v) => v,
            None => return Err(truncated("map_off")),
        };
        let string_ids = table(data, 0x38, 0x3c)?;
        let type_ids = table(data, 0x40, 0x44)?;
        let proto_ids = table(data, 0x48, 0x4c)?;
        let field_ids = table(data, 0x50, 0x54)?;
        let method_ids = table(data, 0x58, 0x5c)?;
        let class_defs = table(data, 0x60, 0x64)?;
        Ok(RawDex { data, string_ids, type_ids, proto_ids, field_ids, method_ids, class_defs, map_off })
    }

    /// Views over a parsed [`DexFile`], taken from its header.
    pub fn from_dex(dex: &'a DexFile) -> (r: Self)
        ensures
            r.data@ == dex.data@,
            r.map_off == dex.header.map_off,
            r.string_ids == (TableView { off: dex.header.string_ids_off, size: dex.header.string_ids_size }),
            r.type_ids == (TableView { off: dex.header.type_ids_off, size: dex.header.type_ids_size }),
            r.proto_ids == (TableView { off: dex.header.proto_ids_off, size: dex.header.proto_ids_size }),
            r.field_ids == (TableView { off: dex.header.field_ids_off, size: dex.header.field_ids_size }),
            r.method_ids == (TableView { off: dex.header.method_ids_off, size: dex.header.method_ids_size }),
            r.class_defs == (TableView { off: dex.header.class_defs_off, size: dex.header.class_defs_size }),
    {
        RawDex {
            data: dex.data.as_slice(),
            string_ids: TableView { off: dex.header.string_ids_off, size: dex.header.string_ids_size },
            type_ids: TableView { off: dex.header.type_ids_off, size: dex.header.type_ids_size },
            proto_ids: TableView { off: dex.header.proto_ids_off, size: dex.header.proto_ids_size },
            field_ids: TableView { off: dex.header.field_ids_off, size: dex.header.field_ids_size },
            method_ids: TableView { off: dex.header.method_ids_off, size: dex.header.method_ids_size },
            class_defs: TableView { off: dex.header.class_defs_off, size: dex.header.class_defs_size },
            map_off: dex.header.map_off,
        }
    }

    /// Little-endian `u32` at `off`; `Truncated("u32@<off>")` past the end.
    pub fn u32_at(&self, off: usize) -> (r: Result<u32>)
        ensures
            match r {
                Ok(v) => spec_read_u32(self.data@, off as int) == Some(v),
                Err(e) => spec_read_u32(self.data@, off as int) is None && e == DexError::Truncated(
                    e->Truncated_0,
                ) && e->Truncated_0@ == at_message("u32@"@, off as int),
            },
    {
        match read_u32(self.data, off) {
            Some(v) => Ok(v),
            None => Err(DexError::Truncated(with_number("u32@", off as u64))),
        }
    }

    /// Little-endian `u16` at `off`; `Truncated("u16@<off>")` past the end.
    pub fn u16_at(&self, off: usize) -> (r: Result<u16>)
        ensures
            match r {
                Ok(v) => spec_read_u16(self.data@, off as int) == Some(v),
                Err(e) => spec_read_u16(self.data@, off as int) is None && e == DexError::Truncated(
                    e->Truncated_0,
                ) && e->Truncated_0@ == at_message("u16@"@, off as int),
            },
    {
        match read_u16(self.data, off) {
            Some(v) => Ok(v),
            None => Err(DexError::Truncated(with_number("u16@", off as u64))),
        }
    }

    /// The `u32` at `off + idx * 4` of a table of `size` entries at `off`.
    fn entry_u32(&self, t: TableView, idx: u32, what: &str) -> (r: Result<u32>)
        ensures
            idx >= t.size ==> r == Err::<u32, DexError>(DexError::Truncated(r->Err_0->Truncated_0))
                && r->Err_0->Truncated_0@ == what@,
            idx < t.size ==> match r {
                Ok(v) => spec_read_u32(self.data@, entry_pos(t, idx, 4)) == Some(v),
                Err(e) => spec_read_u32(self.data@, entry_pos(t, idx, 4)) is None && e
                    == DexError::Truncated(e->Truncated_0) && e->Truncated_0@ == at_message(
                    "u32@"@,
                    entry_pos(t, idx, 4),
                ),
            },
    {
        if idx >= t.size {
            return Err(truncated(what));
        }
        let pos: u64 = t.off as u64 + idx as u64 * 4;
        if pos > self.data.len() as u64 || self.data.len() as u64 - pos < 4 {
            return Err(DexError::Truncated(with_number("u32@", pos)));
        }
        self.u32_at(pos as usize)
    }

    /// Absolute offset of `string_ids[i]`'s `string_data_item`.
    pub fn string_data_off(&self, idx: u32) -> (r: Result<u32>)
        ensures
            idx >= self.string_ids.size ==> (r matches Err(DexError::Truncated(m)) && m@
                == "string index"@),
            idx < self.string_ids.size ==> match r {
                Ok(v) => spec_read_u32(self.data@, entry_pos(self.string_ids, idx, 4)) == Some(v),
                Err(e) => spec_read_u32(self.data@, entry_pos(self.string_ids, idx, 4)) is None
                    && e is Truncated,
            },
    {
        self.entry_u32(self.string_ids, idx, "string index")
    }

    /// Descriptor string_idx for `type_ids[i]`.
    pub fn type_descriptor_idx(&self, idx: u32) -> (r: Result<u32>)
        ensures
            idx >= self.type_ids.size ==> (r matches Err(DexError::Truncated(m)) && m@
                == "type index"@),
            idx < self.type_ids.size ==> match r {
                Ok(v) => spec_read_u32(self.data@, entry_pos(self.type_ids, idx, 4)) == Some(v),
                Err(e) => spec_read_u32(self.data@, entry_pos(self.type_ids, idx, 4)) is None
                    && e is Truncated,
            },
    {
        self.entry_u32(self.type_ids, idx, "type index")
    }

    /// Where `string_ids[idx]` points, when the index and the entry are in range.
    pub open spec fn string_data_offset(self, idx: u32) -> Option<u32> {
        if idx < self.string_ids.size {
            spec_read_u32(self.data@, entry_pos(self.string_ids, idx, 4))
        } else {
            None
        }
    }

    /// The descriptor string index of type `idx`, when the index and the entry are in range.
    pub open spec fn type_desc(self, idx: u32) -> Option<u32> {
        if idx < self.type_ids.size {
            spec_read_u32(self.data@, entry_pos(self.type_ids, idx, 4))
        } else {
            None
        }
    }

    /// The descriptor bytes of type `idx`, when they can be read.
    pub open spec fn type_bytes(self, idx: u32) -> Option<Seq<u8>> {
        match self.type_desc(idx) {
            Some(s) => self.string_bytes(s),
            None => None,
        }
    }

    /// The MUTF-8 payload of string `idx`, when it can be read.
    pub open spec fn string_bytes(self, idx: u32) -> Option<Seq<u8>> {
        match self.string_data_offset(idx) {
            Some(o) => spec_string_payload(self.data@, o as int),
            None => None,
        }
    }

    /// Read MUTF-8 payload bytes (excluding uleb128 size and trailing NUL) for a string_id.
    pub fn string_payload_bytes(&self, idx: u32) -> (r: Result<&'a [u8]>)
        ensures
            match r {
                Ok(b) => self.string_bytes(idx) == Some(b@),
                Err(e) => self.string_bytes(idx) is None && e is Truncated,
            },
    {
        let offset = self.string_data_off(idx)?;
        match string_payload(self.data, offset as usize) {
            Some(b) => Ok(b),
            None => Err(truncated("utf16_size")),
        }
    }

    /// Look up map_list entry of `type_` (e.g. `0x2001` CODE_ITEM). Returns `(size, offset)`.
    pub fn map_entry(&self, type_: u16) -> (r: Option<(u32, u32)>)
        ensures
            r == spec_map_entry(self.data@, self.map_off, type_),
    {
        if self.map_off == 0 {
            return None;
        }
        let len = self.data.len();
        let off = self.map_off as usize;
        if off > len || len - off < 4 {
            return None;
        }
        let size = match read_u32(self.data, off) {
            Some(v) => v,
            None => return None,
        };
        let mut p: usize = off + 4;
        let mut i: u32 = 0;
        while i < size
            invariant
                len == self.data@.len(),
                p <= len,
                i <= size,
                spec_map_entry(self.data@, self.map_off, type_) == spec_map_search(
                    self.data@,
                    p as int,
                    (size - i) as nat,
                    type_,
                ),
            decreases size - i,
        {
            if len - p < 12 {
                return None;
            }
            let t = match read_u16(self.data, p) {
                Some(v) => v,
                None => return None,
            };
            let count = match read_u32(self.data, p + 4) {
                Some(v) => v,
                None => return None,
            };
            let offset = match read_u32(self.data, p + 8) {
                Some(v) => v,
                None => return None,
            };
            if t == type_ {
                return Some((count, offset));
            }
            p = p + 12;
            i = i + 1;
        }
        None
    }
}

} // verus!
