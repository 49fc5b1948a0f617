//! Slice one class into a minimal DEX of its own via [`DexBuilder`].

use vstd::prelude::*;

use crate::dex::annotations::{
    directory_model, entries_model, item_model, spec_parse_directory, param_entries_model, set_model, sets_model, AnnotationItem, AnnotationsDirectory,
    DirectoryModel, ItemModel,
};
use crate::dex::builder::{
    add_class_model, add_field, add_method, add_proto, add_string, add_type, add_types, lemma_add_types_classes, build_debug_info, debug_body, param_names_bytes, built_header, classes_even, classes_fit, lemma_resign_keeps_header, methods_fit, BuilderModel, BuiltClass, BuiltCode, BuiltField, BuiltMethod, BuiltTry,
    empty_model, image_fits, image_of, maps_for, text_id, text_index, triple_index, DebugBuilderOp, DexBuilder, PoolMaps,
};
use crate::dex::class_data::{spec_class_data, EncodedField, EncodedMethod};
use crate::dex::code_item::{code_item_at, code_item_fits, spec_try_item, tries_readable, try_matches, CodeItem, TryItem};
use crate::dex::encoded_value::{
    annotation_model, element_models, model, models, spec_decode_array, EncodedAnnotation, EncodedValue, ValueModel,
};
use crate::dex::file::DexFile;
use crate::dex::header::{class_def_at, class_def_pos, has_dex_magic, ClassDef, CLASS_DEF_SIZE, HEADER_SIZE};
use crate::dex::items::{names, MethodInfo};
use crate::dex::write::{fix_checksums, is_signed, resigned};
use crate::dex::NO_INDEX;
use crate::error::{parse_error, truncated, DexError, Result};
use crate::leb128::{
    read_sleb128, read_uleb128, read_uleb128p1, spec_read_sleb128, spec_read_uleb128, spec_read_uleb128p1, uleb_encode,
};
use crate::text::{push_str, same_text};

verus! {

/// Which pool the index operand of an instruction refers to.
#[derive(Clone, Copy, Debug, PartialEq, Eq)]
pub enum OpRef {
    NoRef,
    String,
    Type,
    Field,
    Method,
    MethodProto,
    CallSite,
    Varies,
}

/// How the slicer reads one opcode.
#[derive(Clone, Copy, Debug)]
pub struct OpcodeInfo {
    /// Width in bytes; 0 when the format is unknown (the walk then steps one code unit).
    pub width: u32,
    /// The pool of the index operand.
    pub ref_kind: OpRef,
    /// Format 31c: the index operand is 32 bits wide.
    pub wide_index: bool,
    /// Formats 45cc and 4rcc: a proto index follows in the fourth code unit.
    pub proto_operand: bool,
}

/// The descriptor of class definition `i` of `dex`, when the definition and its type
/// name can be read.
pub open spec fn class_name_at(dex: DexFile, i: u32) -> Option<Seq<char>> {
    if i < dex.header.class_defs_size && class_def_pos(dex.header, i) + CLASS_DEF_SIZE <= dex.data@.len() {
        dex.spec_type(class_def_at(dex.data@, class_def_pos(dex.header, i)).class_idx)
    } else {
        None
    }
}

/// Every class definition of `dex` reads, and none is `descriptor`.
pub open spec fn lacks_class(dex: DexFile, descriptor: Seq<char>) -> bool {
    forall|i: u32| i < dex.header.class_defs_size ==> ((#[trigger] class_name_at(dex, i)) matches Some(t) && t != descriptor)
}

/// Class definition `i` of `dex` is the first one whose type is `descriptor`: every
/// definition before it reads and names another type.
#[verifier::opaque]
pub open spec fn first_class_named(dex: DexFile, descriptor: Seq<char>, i: u32) -> bool {
    &&& i < dex.header.class_defs_size
    &&& class_name_at(dex, i) == Some(descriptor)
    &&& forall|j: u32| j < i ==> ((#[trigger] class_name_at(dex, j)) matches Some(t) && t != descriptor)
}

/// Class definition `i` of `dex`, as its bytes read.
pub open spec fn class_def_of(dex: DexFile, i: u32) -> ClassDef {
    class_def_at(dex.data@, class_def_pos(dex.header, i))
}

/// Harvest one class and emit a minimal DEX through [`DexBuilder`].
pub struct DexSlicer {
    dex: DexFile,
    /// What each of the 256 opcodes is, indexed by opcode.
    opcodes: Vec<OpcodeInfo>,
}

/// How opcode `op` reads by `table`: its entry, or an unknown opcode of no width and no
/// reference when the table has none.
pub open spec fn opcode_in(table: Seq<OpcodeInfo>, op: u8) -> OpcodeInfo {
    if (op as int) < table.len() {
        table[op as int]
    } else {
        OpcodeInfo { width: 0, ref_kind: OpRef::NoRef, wide_index: false, proto_operand: false }
    }
}

/// Little-endian `u16` of two bytes.
pub open spec fn le16_of(b0: u8, b1: u8) -> u16 {
    (b0 + 256 * b1) as u16
}

/// Little-endian `u32` of four bytes.
pub open spec fn le32_of(b0: u8, b1: u8, b2: u8, b3: u8) -> u32 {
    (b0 + 256 * b1 + 65536 * b2 + 16777216 * b3) as u32
}

/// The size in bytes of the switch or array-data payload at `pc` of `insns`, as the
/// payload header gives it (32-bit wrapping arithmetic); `None` when the header is cut
/// off or `pc` holds no payload.
pub open spec fn spec_payload_len(insns: Seq<u8>, pc: int) -> Option<u32> {
    if pc + 4 > insns.len() {
        None
    } else {
        let unit0 = le16_of(insns[pc], insns[pc + 1]);
        let u1 = le16_of(insns[pc + 2], insns[pc + 3]) as u32;
        if unit0 == 0x0100 {
            Some(((u1 * 2 + 4) * 2) as u32)
        } else if unit0 == 0x0200 {
            Some(((u1 * 4 + 2) * 2) as u32)
        } else if unit0 == 0x0300 {
            if pc + 8 > insns.len() {
                None
            } else {
                let size = le32_of(insns[pc + 4], insns[pc + 5], insns[pc + 6], insns[pc + 7]);
                let units = (((size * u1) % 0x1_0000_0000 + 1) % 0x1_0000_0000) / 2;
                Some((((units + 4) * 2) % 0x1_0000_0000) as u32)
            }
        } else {
            None
        }
    }
}

fn le16(insns: &[u8], pc: usize) -> (r: u16)
    requires
        pc + 2 <= insns@.len(),
    ensures
        r == le16_of(insns@[pc as int], insns@[pc + 1]),
{
    (insns[pc] as u16) + (insns[pc + 1] as u16) * 256
}

fn le32(insns: &[u8], pc: usize) -> (r: u32)
    requires
        pc + 4 <= insns@.len(),
    ensures
        r == le32_of(insns@[pc as int], insns@[pc + 1], insns@[pc + 2], insns@[pc + 3]),
{
    (insns[pc] as u32) + (insns[pc + 1] as u32) * 256 + (insns[pc + 2] as u32) * 65536 + (insns[pc + 3] as u32)
        * 16777216
}

/// Size in bytes of the payload at `pc`: `Truncated` when its header is cut off,
/// `Parse` when `pc` holds no payload.
fn payload_len(insns: &[u8], pc: usize) -> (r: Result<u32>)
    ensures
        match r {
            Ok(n) => spec_payload_len(insns@, pc as int) == Some(n),
            Err(e) => spec_payload_len(insns@, pc as int) is None && (e is Truncated || e is Parse),
        },
{
    if pc > insns.len() || insns.len() - pc < 4 {
        return Err(truncated("payload"));
    }
    let unit0 = le16(insns, pc);
    let u1 = le16(insns, pc + 2) as u32;
    if unit0 == 0x0100 {
        Ok((u1 * 2 + 4) * 2)
    } else if unit0 == 0x0200 {
        Ok((u1 * 4 + 2) * 2)
    } else if unit0 == 0x0300 {
        if insns.len() - pc < 8 {
            return Err(truncated("fill-array-data"));
        }
        let size = le32(insns, pc + 4) as u64;
        assert(size * (u1 as u64) <= 0xffff_ffff * 0xffff) by (nonlinear_arith)
            requires
                size <= 0xffff_ffff,
                u1 <= 0xffff,
        ;
        let prod: u64 = (size * u1 as u64) % 0x1_0000_0000;
        let units: u64 = ((prod + 1) % 0x1_0000_0000) / 2;
        Ok((((units + 4) * 2) % 0x1_0000_0000) as u32)
    } else {
        Err(parse_error("not a payload"))
    }
}

/// The code unit at `pc` of `insns` is a payload identifier: packed-switch, sparse-switch
/// or fill-array-data.
pub open spec fn payload_at(insns: Seq<u8>, pc: int) -> bool {
    let unit = le16_of(insns[pc], insns[pc + 1]);
    unit == 0x0100 || unit == 0x0200 || unit == 0x0300
}

/// Whether the code unit at `pc` starts a switch or array-data payload.
fn is_payload(insns: &[u8], pc: usize) -> (r: bool)
    requires
        pc + 2 <= insns@.len(),
    ensures
        r == payload_at(insns@, pc as int),
{
    let unit = le16(insns, pc);
    unit == 0x0100 || unit == 0x0200 || unit == 0x0300
}

/// `pc + n` when it stays within `len`, else `len`.
pub open spec fn spec_step(pc: int, n: int, len: int) -> int {
    if n > len - pc {
        len
    } else {
        pc + n
    }
}

/// What a walk over instructions finds.
pub enum Scan {
    /// Nothing that stops it.
    Clean,
    /// An opcode 0xfc-0xff at the start of an instruction.
    Unsupported,
    /// A payload whose header cannot be read.
    Unreadable,
}

/// The walk over `insns` from `pc`, instruction by instruction (payloads skipped by
/// their size, unknown opcodes by one code unit), until fewer than two bytes are left or a
/// payload of size 0 ends it.
pub open spec fn scan_from(table: Seq<OpcodeInfo>, insns: Seq<u8>, pc: int) -> Scan
    decreases insns.len() - pc,
{
    if pc < 0 || insns.len() - pc < 2 {
        Scan::Clean
    } else if payload_at(insns, pc) {
        match spec_payload_len(insns, pc) {
            None => Scan::Unreadable,
            Some(n) => if n == 0 {
                Scan::Clean
            } else {
                scan_from(table, insns, spec_step(pc, n as int, insns.len() as int))
            },
        }
    } else if insns[pc] >= 0xfc {
        Scan::Unsupported
    } else {
        let w = opcode_in(table, insns[pc]).width;
        scan_from(table, insns, spec_step(pc, if w == 0 { 2 } else { w as int }, insns.len() as int))
    }
}

/// The instruction bytes of `code` within `data` (cut at the end of `data`).
pub open spec fn code_insns(data: Seq<u8>, code: CodeItem) -> Seq<u8> {
    data.subrange(
        code.insns_off as int,
        if code.insns_off + 2 * code.insns_size <= data.len() {
            code.insns_off + 2 * code.insns_size
        } else {
            data.len() as int
        },
    )
}

/// The walk over the body of method `m`: clean when it has none, unreadable when its
/// code item runs past `data`.
pub open spec fn scan_method(table: Seq<OpcodeInfo>, data: Seq<u8>, m: EncodedMethod) -> Scan {
    if m.code_off == 0 {
        Scan::Clean
    } else if !code_item_fits(data, m.code_off as int) {
        Scan::Unreadable
    } else {
        scan_from(table, code_insns(data, code_item_at(data, m.code_off)), 0)
    }
}

/// The first walk over the methods of `ms` that is not clean.
pub open spec fn scan_methods(table: Seq<OpcodeInfo>, data: Seq<u8>, ms: Seq<EncodedMethod>) -> Scan
    decreases ms.len(),
{
    if ms.len() == 0 {
        Scan::Clean
    } else {
        match scan_methods(table, data, ms.drop_last()) {
            Scan::Clean => scan_method(table, data, ms.last()),
            other => other,
        }
    }
}

/// The walk over every method body of the class of `class_def`, direct methods first.
pub open spec fn scan_class(table: Seq<OpcodeInfo>, data: Seq<u8>, class_def: ClassDef) -> Scan {
    if class_def.class_data_off == 0 {
        Scan::Clean
    } else {
        match spec_class_data(data, class_def.class_data_off as int) {
            None => Scan::Unreadable,
            Some((_, _, dm, vm)) => match scan_methods(table, data, dm) {
                Scan::Clean => scan_methods(table, data, vm),
                other => other,
            },
        }
    }
}

/// What a walk that found `scan` gives back.
pub open spec fn scan_result(scan: Scan, r: Result<()>) -> bool {
    match scan {
        Scan::Clean => r is Ok,
        Scan::Unsupported => r matches Err(DexError::UnsupportedRef),
        Scan::Unreadable => r matches Err(e) && (e is Truncated || e is Parse),
    }
}

/// `pc + n` when it stays within `len`, else `len` (which ends the walk).
fn step(pc: usize, n: u64, len: usize) -> (r: usize)
    requires
        pc <= len,
    ensures
        r == spec_step(pc as int, n as int, len as int),
        pc <= r <= len,
        n > 0 && pc < len ==> pc < r,
{
    if n > (len - pc) as u64 {
        len
    } else {
        pc + n as usize
    }
}

/// The index operand of the instruction at `pc`: 32 bits for format 31c, else 16.
fn read_ref_idx(insns: &[u8], pc: usize, wide: bool) -> (r: Result<u32>)
    ensures
        r is Err ==> r->Err_0 is Truncated,
        match ref_idx_at(insns@, pc as int, wide) {
            Some(v) => r == Ok::<u32, DexError>(v),
            None => r is Err,
        },
        r matches Ok(v) ==> if wide {
            pc + 6 <= insns@.len() && v == le32_of(insns@[pc + 2], insns@[pc + 3], insns@[pc + 4], insns@[pc + 5])
        } else {
            pc + 4 <= insns@.len() && v == le16_of(insns@[pc + 2], insns@[pc + 3]) as u32
        },
{
    if wide {
        if pc > insns.len() || insns.len() - pc < 6 {
            return Err(truncated("ref u32"));
        }
        Ok(le32(insns, pc + 2))
    } else {
        if pc > insns.len() || insns.len() - pc < 4 {
            return Err(truncated("ref u16"));
        }
        Ok(le16(insns, pc + 2) as u32)
    }
}

/// An index operand of the given width fits `idx` at `pc` of an instruction stream of
/// `len` bytes.
pub open spec fn ref_idx_fits(len: int, pc: int, wide: bool, idx: u32) -> bool {
    if wide {
        pc + 6 <= len
    } else {
        idx <= 0xffff && pc + 4 <= len
    }
}

/// `insns` with `idx` stored little-endian as the index operand at `pc` (32 bits when
/// `wide`, else 16).
pub open spec fn with_ref_idx(insns: Seq<u8>, pc: int, wide: bool, idx: u32) -> Seq<u8> {
    let lo = insns.update(pc + 2, (idx % 256) as u8).update(pc + 3, ((idx / 256) % 256) as u8);
    if wide {
        lo.update(pc + 4, ((idx / 65536) % 256) as u8).update(pc + 5, (idx / 16777216) as u8)
    } else {
        lo
    }
}

/// Store `idx` as the index operand at `pc`; `Parse` when a 16-bit operand cannot hold it.
fn write_ref_idx(insns: &mut Vec<u8>, pc: usize, wide: bool, idx: u32) -> (r: Result<()>)
    ensures
        final(insns)@.len() == old(insns)@.len(),
        r is Err ==> (r->Err_0 is Truncated || r->Err_0 is Parse),
        r is Ok <==> ref_idx_fits(old(insns)@.len() as int, pc as int, wide, idx),
        r is Ok ==> final(insns)@ == with_ref_idx(old(insns)@, pc as int, wide, idx),
        r is Err ==> final(insns)@ == old(insns)@,
        r matches Err(e) ==> (e is Parse <==> (!wide && idx > 0xffff)),
{
    if wide {
        if pc > insns.len() || insns.len() - pc < 6 {
            return Err(truncated("write ref u32"));
        }
        insns.set(pc + 2, (idx % 256) as u8);
        insns.set(pc + 3, ((idx / 256) % 256) as u8);
        insns.set(pc + 4, ((idx / 65536) % 256) as u8);
        insns.set(pc + 5, (idx / 16777216) as u8);
    } else {
        if idx > 0xffff {
            return Err(parse_error("rewritten index exceeds u16"));
        }
        if pc > insns.len() || insns.len() - pc < 4 {
            return Err(truncated("write ref u16"));
        }
        insns.set(pc + 2, (idx % 256) as u8);
        insns.set(pc + 3, (idx / 256) as u8);
        assert(idx / 256 == (idx / 256) % 256);
    }
    assert(insns@ =~= with_ref_idx(old(insns)@, pc as int, wide, idx));
    Ok(())
}

/// The texts of `ps` one after another.
pub open spec fn joined(ps: Seq<Seq<char>>) -> Seq<char>
    decreases ps.len(),
{
    if ps.len() == 0 {
        Seq::empty()
    } else {
        joined(ps.drop_last()) + ps.last()
    }
}

/// A prototype descriptor: `(`, the parameter types, `)` and the return type.
pub open spec fn proto_text(params: Seq<Seq<char>>, ret: Seq<char>) -> Seq<char> {
    seq!['('] + joined(params) + seq![')'] + ret
}

/// `(` then the parameter types, `)` and the return type.
fn proto_of(params: &Vec<String>, ret: &str) -> (s: String)
    ensures
        s@ == proto_text(names(params@), ret@),
{
    let mut s = String::new();
    proof {
        reveal_strlit("(");
        reveal_strlit(")");
    }
    push_str(&mut s, "(");
    let mut i: usize = 0;
    while i < params.len()
        invariant
            i <= params@.len(),
            s@ == seq!['('] + joined(names(params@).take(i as int)),
        decreases params@.len() - i,
    {
        assert(names(params@).take(i + 1).drop_last() =~= names(params@).take(i as int));
        push_str(&mut s, params[i].as_str());
        assert(s@ =~= seq!['('] + joined(names(params@).take(i + 1)));
        i = i + 1;
    }
    assert(names(params@).take(i as int) =~= names(params@));
    push_str(&mut s, ")");
    push_str(&mut s, ret);
    assert(s@ =~= proto_text(names(params@), ret@));
    s
}

/// The prototype descriptor of a method reference.
fn proto_str(m: &MethodInfo) -> (s: String)
    ensures
        s@ == proto_text(names(m.params@), m.return_type@),
{
    proto_of(&m.params, m.return_type.as_str())
}

impl DexSlicer {
    /// A slicer over a copy of `data`, reading instructions by `opcodes` (one entry per
    /// opcode); `InvalidMagic` when `data` is not a DEX image.
    pub fn new(data: &[u8], opcodes: Vec<OpcodeInfo>) -> (r: Result<DexSlicer>)
        ensures
            r is Ok <==> (data@.len() >= HEADER_SIZE && has_dex_magic(data@)),
            r matches Ok(s) ==> s.image()@ == data@ && s.opcode_table() == opcodes@,
            r is Err ==> r->Err_0 is InvalidMagic,
    {
        let dex = DexFile::parse(data)?;
        Ok(DexSlicer { dex, opcodes })
    }

    /// The image being sliced.
    pub closed spec fn image(&self) -> Vec<u8> {
        self.dex.data
    }

    /// The image being sliced, with its header.
    pub closed spec fn source(&self) -> DexFile {
        self.dex
    }

    /// The opcode table instructions are read by.
    pub closed spec fn opcode_table(&self) -> Seq<OpcodeInfo> {
        self.opcodes@
    }

    /// How opcode `op` reads; an unknown one when the table has no entry for it.
    fn opcode(&self, op: u8) -> (r: OpcodeInfo)
        ensures
            r == opcode_in(self.opcodes@, op),
    {
        if (op as usize) < self.opcodes.len() {
            self.opcodes[op as usize]
        } else {
            OpcodeInfo { width: 0, ref_kind: OpRef::NoRef, wide_index: false, proto_operand: false }
        }
    }

    proof fn lemma_none_first(&self, descriptor: Seq<char>, i: u32)
        requires
            class_name_at(self.dex, i) is None,
            forall|j: u32| j < i ==> ((#[trigger] class_name_at(self.dex, j)) matches Some(t) && t != descriptor),
        ensures
            forall|i2: u32| !first_class_named(self.dex, descriptor, i2),
    {
        reveal(first_class_named);
        assert forall|i2: u32| !first_class_named(self.dex, descriptor, i2) by {
            if i2 > i && first_class_named(self.dex, descriptor, i2) {
                assert(class_name_at(self.dex, i) matches Some(t) && t != descriptor);
            }
        }
    }

    proof fn lemma_none_named(&self, descriptor: Seq<char>)
        requires
            forall|j: u32|
                j < self.dex.header.class_defs_size ==> ((#[trigger] class_name_at(self.dex, j)) matches Some(t) && t
                    != descriptor),
        ensures
            forall|i2: u32| !first_class_named(self.dex, descriptor, i2),
    {
        reveal(first_class_named);
        assert forall|i2: u32| !first_class_named(self.dex, descriptor, i2) by {
            if i2 < self.dex.header.class_defs_size {
                assert(class_name_at(self.dex, i2) matches Some(t) && t != descriptor);
            }
        }
    }

    proof fn lemma_found_first(&self, descriptor: Seq<char>, i: u32)
        requires
            i < self.dex.header.class_defs_size,
            class_name_at(self.dex, i) == Some(descriptor),
            forall|j: u32| j < i ==> ((#[trigger] class_name_at(self.dex, j)) matches Some(t) && t != descriptor),
        ensures
            first_class_named(self.dex, descriptor, i),
            forall|i2: u32| first_class_named(self.dex, descriptor, i2) ==> i2 == i,
    {
        reveal(first_class_named);
        assert forall|i2: u32| first_class_named(self.dex, descriptor, i2) implies i2 == i by {
            if i2 < i {
                assert(class_name_at(self.dex, i2) matches Some(t) && t != descriptor);
            } else if i2 > i {
                assert(class_name_at(self.dex, i) matches Some(t) && t != descriptor);
            }
        }
    }

    /// The class definition whose type is `descriptor`, if any.
    #[verifier::spinoff_prover]
    #[verifier::rlimit(60)]
    fn find_class_def(&self, descriptor: &str) -> (r: Result<Option<ClassDef>>)
        ensures
            r matches Ok(Some(cd)) ==> self.dex.spec_type(cd.class_idx) == Some(descriptor@),
            r matches Ok(Some(cd)) ==> exists|i: u32|
                first_class_named(self.dex, descriptor@, i) && cd == class_def_of(self.dex, i),
            forall|i: u32|
                first_class_named(self.dex, descriptor@, i) ==> r == Ok::<Option<ClassDef>, DexError>(
                    Some(class_def_of(self.dex, i)),
                ),
            r matches Ok(None) ==> lacks_class(self.dex, descriptor@),
            lacks_class(self.dex, descriptor@) ==> r matches Ok(None),
            r is Err ==> (r->Err_0 is Truncated || r->Err_0 is Parse),
    {
        let n = self.dex.header.class_defs_size;
        let mut i: u32 = 0;
        while i < n
            invariant
                i <= n == self.dex.header.class_defs_size,
                forall|j: u32| j < i ==> ((#[trigger] class_name_at(self.dex, j)) matches Some(t) && t != descriptor@),
            decreases n - i,
        {
            let cd = match self.dex.get_class_def(i) {
                Ok(cd) => cd,
                Err(e) => {
                    assert(class_name_at(self.dex, i) is None);
                    proof {
                        self.lemma_none_first(descriptor@, i);
                    }
                    return Err(e);
                },
            };
            let name = match self.dex.get_type(cd.class_idx) {
                Ok(name) => name,
                Err(e) => {
                    assert(class_name_at(self.dex, i) is None);
                    proof {
                        self.lemma_none_first(descriptor@, i);
                    }
                    return Err(e);
                },
            };
            if same_text(name.as_str(), descriptor) {
                assert(class_name_at(self.dex, i) == Some(descriptor@));
                proof {
                    self.lemma_found_first(descriptor@, i);
                    assert(cd == class_def_of(self.dex, i));
                }
                return Ok(Some(cd));
            }
            assert(class_name_at(self.dex, i) == Some(name@));
            i = i + 1;
        }
        proof {
            self.lemma_none_named(descriptor@);
        }
        Ok(None)
    }

    /// `UnsupportedRef` when a method of the class holds one of the opcodes 0xfc-0xff
    /// (invoke-custom and method handles or types), which slicing cannot carry.
    fn preflight_unsupported(&self, class_def: &ClassDef) -> (r: Result<()>)
        ensures
            scan_result(scan_class(self.opcodes@, self.dex.data@, *class_def), r),
    {
        let cdata = match self.dex.get_class_data(class_def)? {
            Some(c) => c,
            None => return Ok(()),
        };
        self.preflight_methods(&cdata.direct_methods)?;
        self.preflight_methods(&cdata.virtual_methods)
    }

    #[verifier::spinoff_prover]
    #[verifier::rlimit(60)]
    fn preflight_methods(&self, ms: &Vec<EncodedMethod>) -> (r: Result<()>)
        ensures
            scan_result(scan_methods(self.opcodes@, self.dex.data@, ms@), r),
    {
        let mut k: usize = 0;
        while k < ms.len()
            invariant
                k <= ms@.len(),
                scan_methods(self.opcodes@, self.dex.data@, ms@.take(k as int)) == Scan::Clean,
            decreases ms@.len() - k,
        {
            assert(ms@.take(k + 1).drop_last() =~= ms@.take(k as int));
            let code_off = ms[k].code_off;
            if code_off != 0 {
                let code = match self.dex.get_code_item(code_off) {
                    Ok(c) => c,
                    Err(e) => {
                        proof {
                            lemma_scan_methods_stops(self.opcodes@, self.dex.data@, ms@, k as int);
                        }
                        return Err(e);
                    },
                };
                match self.preflight_insns(&code) {
                    Ok(()) => {},
                    Err(e) => {
                        proof {
                            lemma_scan_methods_stops(self.opcodes@, self.dex.data@, ms@, k as int);
                        }
                        return Err(e);
                    },
                }
            }
            k = k + 1;
        }
        assert(ms@.take(k as int) =~= ms@);
        Ok(())
    }

    #[verifier::spinoff_prover]
    #[verifier::rlimit(60)]
    fn preflight_insns(&self, code: &CodeItem) -> (r: Result<()>)
        requires
            code.insns_off <= self.dex.data@.len(),
        ensures
            scan_result(scan_from(self.opcodes@, code_insns(self.dex.data@, *code), 0), r),
    {
        let insns = code.insns_slice(self.dex.data.as_slice());
        assert(insns@ == code_insns(self.dex.data@, *code));
        let len = insns.len();
        let mut pc: usize = 0;
        while len - pc >= 2
            invariant
                pc <= len == insns@.len(),
                insns@ == code_insns(self.dex.data@, *code),
                scan_from(self.opcodes@, insns@, 0) == scan_from(self.opcodes@, insns@, pc as int),
            decreases len - pc,
        {
            if is_payload(insns, pc) {
                let n = match payload_len(insns, pc) {
                    Ok(n) => n,
                    Err(e) => {
                        assert(scan_from(self.opcodes@, insns@, pc as int) == Scan::Unreadable);
                        return Err(e);
                    },
                };
                if n == 0 {
                    assert(scan_from(self.opcodes@, insns@, pc as int) == Scan::Clean);
                    return Ok(());
                }
                pc = step(pc, n as u64, len);
                continue;
            }
            let op = insns[pc];
            if op == 0xfc || op == 0xfd || op == 0xfe || op == 0xff {
                return Err(DexError::UnsupportedRef);
            }
            let w = self.opcode(op).width;
            if w == 0 {
                pc = step(pc, 2, len);
            } else {
                pc = step(pc, w as u64, len);
            }
        }
        Ok(())
    }
}

/// When the methods before entry `k` walk clean, the walk over all of `ms` is that over
/// entry `k` if it is not clean.
proof fn lemma_scan_methods_stops(table: Seq<OpcodeInfo>, data: Seq<u8>, ms: Seq<EncodedMethod>, k: int)
    requires
        0 <= k < ms.len(),
        scan_methods(table, data, ms.take(k)) == Scan::Clean,
        scan_method(table, data, ms[k]) != Scan::Clean,
    ensures
        scan_methods(table, data, ms) == scan_method(table, data, ms[k]),
    decreases ms.len(),
{
    if k == ms.len() - 1 {
        assert(ms.drop_last() =~= ms.take(k));
    } else {
        assert(ms.drop_last().take(k) =~= ms.take(k));
        lemma_scan_methods_stops(table, data, ms.drop_last(), k);
    }
}


/// Field reference `i` of `dex` by name: class, name and type.
pub open spec fn ref_field(dex: DexFile, i: u32) -> Option<(Seq<char>, Seq<char>, Seq<char>)> {
    match dex.field_id(i) {
        Some((c, t, n)) => match (dex.spec_type(c as u32), dex.spec_string(n), dex.spec_type(t as u32)) {
            (Some(a), Some(b), Some(d)) => Some((a, b, d)),
            _ => None,
        },
        None => None,
    }
}

/// Prototype `i` of `dex` as a descriptor such as `(I)V`.
pub open spec fn ref_proto(dex: DexFile, i: u32) -> Option<Seq<char>> {
    match dex.proto_id(i) {
        Some((_, rt, po)) => match (dex.spec_type(rt), dex.spec_type_list(po)) {
            (Some(r), Some(ps)) => Some(proto_text(ps, r)),
            _ => None,
        },
        None => None,
    }
}

/// Method reference `i` of `dex` by name: class, name and prototype descriptor.
pub open spec fn ref_method(dex: DexFile, i: u32) -> Option<(Seq<char>, Seq<char>, Seq<char>)> {
    match dex.method_id(i) {
        Some((c, pr, n)) => match (dex.spec_type(c as u32), dex.spec_string(n), ref_proto(dex, pr as u32)) {
            (Some(a), Some(b), Some(p)) => Some((a, b, p)),
            _ => None,
        },
        None => None,
    }
}

/// The id of string `t` in the pools of `maps`.
pub open spec fn new_string(maps: PoolMaps, t: Seq<char>) -> Option<u32> {
    match text_index(maps.string_list(), t) {
        Some(i) => Some(i as u32),
        None => None,
    }
}

/// The id of type `t` in the pools of `maps`.
pub open spec fn new_type(maps: PoolMaps, t: Seq<char>) -> Option<u32> {
    match text_id(maps.type_list(), maps.type_ids(), t) {
        Some(i) => Some(i as u32),
        None => None,
    }
}

/// The id of prototype `t` in the pools of `maps`.
pub open spec fn new_proto(maps: PoolMaps, t: Seq<char>) -> Option<u32> {
    match text_id(maps.proto_list(), maps.proto_ids(), t) {
        Some(i) => Some(i as u32),
        None => None,
    }
}

/// The id of field reference `t` in the pools of `maps`.
pub open spec fn new_field(maps: PoolMaps, t: (Seq<char>, Seq<char>, Seq<char>)) -> Option<u32> {
    match triple_index(maps.field_list(), t) {
        Some(i) => Some(maps.field_ids()[i] as u32),
        None => None,
    }
}

/// The id of method reference `t` in the pools of `maps`.
pub open spec fn new_method(maps: PoolMaps, t: (Seq<char>, Seq<char>, Seq<char>)) -> Option<u32> {
    match triple_index(maps.method_list(), t) {
        Some(i) => Some(maps.method_ids()[i] as u32),
        None => None,
    }
}

/// String index `i` of `dex` moved into the pools of `maps`.
pub open spec fn moved_string(dex: DexFile, maps: PoolMaps, i: u32) -> Option<u32> {
    match dex.spec_string(i) {
        Some(t) => new_string(maps, t),
        None => None,
    }
}

/// Type index `i` of `dex` moved into the pools of `maps`.
pub open spec fn moved_type(dex: DexFile, maps: PoolMaps, i: u32) -> Option<u32> {
    match dex.spec_type(i) {
        Some(t) => new_type(maps, t),
        None => None,
    }
}

/// Prototype index `i` of `dex` moved into the pools of `maps`.
pub open spec fn moved_proto(dex: DexFile, maps: PoolMaps, i: u32) -> Option<u32> {
    match ref_proto(dex, i) {
        Some(t) => new_proto(maps, t),
        None => None,
    }
}

/// Field index `i` of `dex` moved into the pools of `maps`.
pub open spec fn moved_field(dex: DexFile, maps: PoolMaps, i: u32) -> Option<u32> {
    match ref_field(dex, i) {
        Some(t) => new_field(maps, t),
        None => None,
    }
}

/// Method index `i` of `dex` moved into the pools of `maps`.
pub open spec fn moved_method(dex: DexFile, maps: PoolMaps, i: u32) -> Option<u32> {
    match ref_method(dex, i) {
        Some(t) => new_method(maps, t),
        None => None,
    }
}

/// Value `v` of `dex` with every pool index moved into the pools of `maps`; `None` when
/// an index does not resolve or is missing there, or `v` holds a method handle.
pub open spec fn moved_value(dex: DexFile, maps: PoolMaps, v: ValueModel) -> Option<ValueModel>
    decreases v,
{
    match v {
        ValueModel::String(i) => match moved_string(dex, maps, i) {
            Some(j) => Some(ValueModel::String(j)),
            None => None,
        },
        ValueModel::Type(i) => match moved_type(dex, maps, i) {
            Some(j) => Some(ValueModel::Type(j)),
            None => None,
        },
        ValueModel::MethodType(i) => match moved_proto(dex, maps, i) {
            Some(j) => Some(ValueModel::MethodType(j)),
            None => None,
        },
        ValueModel::Field(i) => match moved_field(dex, maps, i) {
            Some(j) => Some(ValueModel::Field(j)),
            None => None,
        },
        ValueModel::Enum(i) => match moved_field(dex, maps, i) {
            Some(j) => Some(ValueModel::Enum(j)),
            None => None,
        },
        ValueModel::Method(i) => match moved_method(dex, maps, i) {
            Some(j) => Some(ValueModel::Method(j)),
            None => None,
        },
        ValueModel::MethodHandle(_) => None,
        ValueModel::Array(vs) => match moved_values(dex, maps, vs) {
            Some(ws) => Some(ValueModel::Array(ws)),
            None => None,
        },
        ValueModel::Annotation(t, es) => match (moved_type(dex, maps, t), moved_elements(dex, maps, es)) {
            (Some(t2), Some(es2)) => Some(ValueModel::Annotation(t2, es2)),
            _ => None,
        },
        _ => Some(v),
    }
}

/// Each of `vs` moved, when all are.
pub open spec fn moved_values(dex: DexFile, maps: PoolMaps, vs: Seq<ValueModel>) -> Option<Seq<ValueModel>>
    decreases vs,
{
    if vs.len() == 0 {
        Some(Seq::empty())
    } else {
        match (moved_values(dex, maps, vs.drop_last()), moved_value(dex, maps, vs[vs.len() - 1])) {
            (Some(a), Some(b)) => Some(a.push(b)),
            _ => None,
        }
    }
}

/// Each annotation element of `es` (name, value) moved, when all are.
pub open spec fn moved_elements(dex: DexFile, maps: PoolMaps, es: Seq<(u32, ValueModel)>) -> Option<
    Seq<(u32, ValueModel)>,
>
    decreases es,
{
    if es.len() == 0 {
        Some(Seq::empty())
    } else {
        match (
            moved_elements(dex, maps, es.drop_last()),
            moved_string(dex, maps, es[es.len() - 1].0),
            moved_value(dex, maps, es[es.len() - 1].1),
        ) {
            (Some(a), Some(n), Some(b)) => Some(a.push((n, b))),
            _ => None,
        }
    }
}

/// An annotation `(type, elements)` moved.
pub open spec fn moved_annotation(dex: DexFile, maps: PoolMaps, a: (u32, Seq<(u32, ValueModel)>)) -> Option<
    (u32, Seq<(u32, ValueModel)>),
> {
    match (moved_type(dex, maps, a.0), moved_elements(dex, maps, a.1)) {
        (Some(t), Some(es)) => Some((t, es)),
        _ => None,
    }
}

/// Each annotation item of `set` moved, its visibility kept.
pub open spec fn moved_set(dex: DexFile, maps: PoolMaps, set: Seq<ItemModel>) -> Option<Seq<ItemModel>>
    decreases set.len(),
{
    if set.len() == 0 {
        Some(Seq::empty())
    } else {
        let it = set.last();
        match (moved_set(dex, maps, set.drop_last()), moved_annotation(dex, maps, it.annotation)) {
            (Some(a), Some(b)) => Some(a.push(ItemModel { visibility: it.visibility, annotation: b })),
            _ => None,
        }
    }
}


/// When all of `vs` move, each of them does.
proof fn lemma_moved_values_each(dex: DexFile, maps: PoolMaps, vs: Seq<ValueModel>, k: int)
    requires
        moved_values(dex, maps, vs) is Some,
        0 <= k < vs.len(),
    ensures
        moved_value(dex, maps, vs[k]) is Some,
    decreases vs.len(),
{
    if k < vs.len() - 1 {
        assert(vs.drop_last()[k] == vs[k]);
        lemma_moved_values_each(dex, maps, vs.drop_last(), k);
    }
}

/// When all elements of `es` move, the name and value of each do.
proof fn lemma_moved_elements_each(dex: DexFile, maps: PoolMaps, es: Seq<(u32, ValueModel)>, k: int)
    requires
        moved_elements(dex, maps, es) is Some,
        0 <= k < es.len(),
    ensures
        moved_string(dex, maps, es[k].0) is Some,
        moved_value(dex, maps, es[k].1) is Some,
    decreases es.len(),
{
    if k < es.len() - 1 {
        assert(es.drop_last()[k] == es[k]);
        lemma_moved_elements_each(dex, maps, es.drop_last(), k);
    }
}

/// When all items of `set` move, the annotation of each does.
proof fn lemma_moved_set_each(dex: DexFile, maps: PoolMaps, set: Seq<ItemModel>, k: int)
    requires
        moved_set(dex, maps, set) is Some,
        0 <= k < set.len(),
    ensures
        moved_annotation(dex, maps, set[k].annotation) is Some,
    decreases set.len(),
{
    if k < set.len() - 1 {
        assert(set.drop_last()[k] == set[k]);
        lemma_moved_set_each(dex, maps, set.drop_last(), k);
    }
}


/// The member annotation sets of `es` with their keys (field ids when `fields`, else
/// method ids) and annotations moved.
pub open spec fn moved_member_sets(dex: DexFile, maps: PoolMaps, es: Seq<(u32, Seq<ItemModel>)>, fields: bool) -> Option<
    Seq<(u32, Seq<ItemModel>)>,
>
    decreases es.len(),
{
    if es.len() == 0 {
        Some(Seq::empty())
    } else {
        let e = es.last();
        let key = if fields {
            moved_field(dex, maps, e.0)
        } else {
            moved_method(dex, maps, e.0)
        };
        match (moved_member_sets(dex, maps, es.drop_last(), fields), key, moved_set(dex, maps, e.1)) {
            (Some(a), Some(k), Some(b)) => Some(a.push((k, b))),
            _ => None,
        }
    }
}

/// Each annotation set of `ss` moved.
pub open spec fn moved_sets(dex: DexFile, maps: PoolMaps, ss: Seq<Seq<ItemModel>>) -> Option<Seq<Seq<ItemModel>>>
    decreases ss.len(),
{
    if ss.len() == 0 {
        Some(Seq::empty())
    } else {
        match (moved_sets(dex, maps, ss.drop_last()), moved_set(dex, maps, ss.last())) {
            (Some(a), Some(b)) => Some(a.push(b)),
            _ => None,
        }
    }
}

/// The parameter annotations of `es` with their method keys and annotations moved.
pub open spec fn moved_param_sets(dex: DexFile, maps: PoolMaps, es: Seq<(u32, Seq<Seq<ItemModel>>)>) -> Option<
    Seq<(u32, Seq<Seq<ItemModel>>)>,
>
    decreases es.len(),
{
    if es.len() == 0 {
        Some(Seq::empty())
    } else {
        let e = es.last();
        match (moved_param_sets(dex, maps, es.drop_last()), moved_method(dex, maps, e.0), moved_sets(dex, maps, e.1)) {
            (Some(a), Some(k), Some(b)) => Some(a.push((k, b))),
            _ => None,
        }
    }
}

/// An annotations directory with every key and annotation moved.
pub open spec fn moved_directory(dex: DexFile, maps: PoolMaps, d: DirectoryModel) -> Option<DirectoryModel> {
    match (
        moved_set(dex, maps, d.class),
        moved_member_sets(dex, maps, d.fields, true),
        moved_member_sets(dex, maps, d.methods, false),
        moved_param_sets(dex, maps, d.params),
    ) {
        (Some(c), Some(f), Some(m), Some(p)) => Some(DirectoryModel { class: c, fields: f, methods: m, params: p }),
        _ => None,
    }
}

proof fn lemma_moved_member_sets_each(
    dex: DexFile,
    maps: PoolMaps,
    es: Seq<(u32, Seq<ItemModel>)>,
    fields: bool,
    k: int,
)
    requires
        moved_member_sets(dex, maps, es, fields) is Some,
        0 <= k < es.len(),
    ensures
        (if fields {
            moved_field(dex, maps, es[k].0)
        } else {
            moved_method(dex, maps, es[k].0)
        }) is Some,
        moved_set(dex, maps, es[k].1) is Some,
    decreases es.len(),
{
    if k < es.len() - 1 {
        assert(es.drop_last()[k] == es[k]);
        lemma_moved_member_sets_each(dex, maps, es.drop_last(), fields, k);
    }
}

proof fn lemma_moved_sets_each(dex: DexFile, maps: PoolMaps, ss: Seq<Seq<ItemModel>>, k: int)
    requires
        moved_sets(dex, maps, ss) is Some,
        0 <= k < ss.len(),
    ensures
        moved_set(dex, maps, ss[k]) is Some,
    decreases ss.len(),
{
    if k < ss.len() - 1 {
        assert(ss.drop_last()[k] == ss[k]);
        lemma_moved_sets_each(dex, maps, ss.drop_last(), k);
    }
}

proof fn lemma_moved_param_sets_each(dex: DexFile, maps: PoolMaps, es: Seq<(u32, Seq<Seq<ItemModel>>)>, k: int)
    requires
        moved_param_sets(dex, maps, es) is Some,
        0 <= k < es.len(),
    ensures
        moved_method(dex, maps, es[k].0) is Some,
        moved_sets(dex, maps, es[k].1) is Some,
    decreases es.len(),
{
    if k < es.len() - 1 {
        assert(es.drop_last()[k] == es[k]);
        lemma_moved_param_sets_each(dex, maps, es.drop_last(), k);
    }
}


/// The index operand at `pc` of `insns` (32 bits when `wide`, else 16), when it is there.
pub open spec fn ref_idx_at(insns: Seq<u8>, pc: int, wide: bool) -> Option<u32> {
    if wide {
        if 0 <= pc && pc + 6 <= insns.len() {
            Some(le32_of(insns[pc + 2], insns[pc + 3], insns[pc + 4], insns[pc + 5]))
        } else {
            None
        }
    } else {
        if 0 <= pc && pc + 4 <= insns.len() {
            Some(le16_of(insns[pc + 2], insns[pc + 3]) as u32)
        } else {
            None
        }
    }
}

/// Index `i` of the pool that `kind` names moved into the pools of `maps`.
pub open spec fn moved_by(dex: DexFile, maps: PoolMaps, kind: OpRef, i: u32) -> Option<u32> {
    match kind {
        OpRef::String => moved_string(dex, maps, i),
        OpRef::Type => moved_type(dex, maps, i),
        OpRef::Field => moved_field(dex, maps, i),
        OpRef::Method => moved_method(dex, maps, i),
        OpRef::MethodProto => moved_proto(dex, maps, i),
        _ => None,
    }
}

/// `insns` with the index operand at `pc` (of the pool that `info` names) moved.
pub open spec fn moved_operand(dex: DexFile, maps: PoolMaps, info: OpcodeInfo, insns: Seq<u8>, pc: int) -> Option<
    Seq<u8>,
> {
    match ref_idx_at(insns, pc, info.wide_index) {
        Some(i) => match moved_by(dex, maps, info.ref_kind, i) {
            Some(n) => if ref_idx_fits(insns.len() as int, pc, info.wide_index, n) {
                Some(with_ref_idx(insns, pc, info.wide_index, n))
            } else {
                None
            },
            None => None,
        },
        None => None,
    }
}

/// The instruction at `pc` of `insns`, read as `info`, with its pool indices moved into
/// the pools of `maps` (for formats 45cc and 4rcc the proto operand too); `None` when
/// one does not move or does not fit, or the instruction refers to a call site.
pub open spec fn moved_insn(dex: DexFile, maps: PoolMaps, info: OpcodeInfo, insns: Seq<u8>, pc: int) -> Option<Seq<u8>> {
    match info.ref_kind {
        OpRef::CallSite | OpRef::Varies => None,
        OpRef::NoRef => Some(insns),
        OpRef::Method => match moved_operand(dex, maps, info, insns, pc) {
            Some(w) => if info.proto_operand && info.width >= 8 {
                match moved_proto(dex, maps, le16_of(w[pc + 6], w[pc + 7]) as u32) {
                    Some(p) => if p <= 0xffff {
                        Some(w.update(pc + 6, (p % 256) as u8).update(pc + 7, (p / 256) as u8))
                    } else {
                        None
                    },
                    None => None,
                }
            } else {
                Some(w)
            },
            None => None,
        },
        _ => moved_operand(dex, maps, info, insns, pc),
    }
}

/// The walk of [`scan_from`] over `cur` (of `len` bytes) from `pc`, moving the pool
/// indices of each instruction it reads as it goes; it stops early at an instruction that
/// runs past the end.
pub open spec fn moved_insns_from(
    dex: DexFile,
    maps: PoolMaps,
    table: Seq<OpcodeInfo>,
    cur: Seq<u8>,
    pc: int,
    len: int,
) -> Option<Seq<u8>>
    decreases len - pc,
{
    if pc < 0 || len - pc < 2 {
        Some(cur)
    } else if payload_at(cur, pc) {
        match spec_payload_len(cur, pc) {
            None => None,
            Some(n) => if n == 0 {
                Some(cur)
            } else {
                moved_insns_from(dex, maps, table, cur, spec_step(pc, n as int, len), len)
            },
        }
    } else {
        let info = opcode_in(table, cur[pc]);
        if info.width == 0 {
            moved_insns_from(dex, maps, table, cur, spec_step(pc, 2, len), len)
        } else if info.width > len - pc {
            Some(cur)
        } else {
            match moved_insn(dex, maps, info, cur, pc) {
                Some(next) => moved_insns_from(dex, maps, table, next, spec_step(pc, info.width as int, len), len),
                None => None,
            }
        }
    }
}


/// The static value of field `f`, if any, moves into the pools of `maps`.
pub open spec fn value_moves(dex: DexFile, maps: PoolMaps, f: BuiltField) -> bool {
    f.static_value matches Some(v) ==> moved_value(dex, maps, model(v)) is Some
}

/// `g` is field `f` with its static value moved into the pools of `maps`.
pub open spec fn field_value_moved(dex: DexFile, maps: PoolMaps, f: BuiltField, g: BuiltField) -> bool {
    &&& g.class == f.class
    &&& g.name == f.name
    &&& g.typ == f.typ
    &&& g.access_flags == f.access_flags
    &&& g.static_field == f.static_field
    &&& match f.static_value {
        None => g.static_value is None,
        Some(v) => g.static_value matches Some(w) && moved_value(dex, maps, model(v)) == Some(model(w)),
    }
}

/// The instructions of the body of `m`, if any, move into the pools of `maps`.
pub open spec fn insns_move(dex: DexFile, maps: PoolMaps, table: Seq<OpcodeInfo>, m: BuiltMethod) -> bool {
    m.code matches Some(c) ==> moved_insns_from(dex, maps, table, c.insns@, 0, c.insns@.len() as int) is Some
}

/// `n` is method `m` with the instructions of its body moved into the pools of `maps`.
pub open spec fn insns_moved(dex: DexFile, maps: PoolMaps, table: Seq<OpcodeInfo>, m: BuiltMethod, n: BuiltMethod) -> bool {
    &&& n.class == m.class
    &&& n.name == m.name
    &&& n.proto == m.proto
    &&& n.access_flags == m.access_flags
    &&& n.direct == m.direct
    &&& match m.code {
        None => n.code is None,
        Some(c) => n.code matches Some(d) && d.registers_size == c.registers_size && d.ins_size == c.ins_size
            && d.outs_size == c.outs_size && d.tries == c.tries && d.debug_info_off == c.debug_info_off
            && d.debug_ops == c.debug_ops && moved_insns_from(dex, maps, table, c.insns@, 0, c.insns@.len() as int)
            == Some(d.insns@),
    }
}

/// `n` is method `m` with its try blocks and debug info filled in anew: the same
/// reference, flags and kind, and, where it has a body, the same registers and
/// instructions.
pub open spec fn method_filled(m: BuiltMethod, n: BuiltMethod) -> bool {
    &&& n.class == m.class
    &&& n.name == m.name
    &&& n.proto == m.proto
    &&& n.access_flags == m.access_flags
    &&& n.direct == m.direct
    &&& match m.code {
        None => n.code is None,
        Some(c) => n.code matches Some(d) && d.registers_size == c.registers_size && d.ins_size == c.ins_size
            && d.outs_size == c.outs_size && d.insns@ == c.insns@ && d.debug_info_off == c.debug_info_off,
    }
}

/// The methods `ns` are `ms` with their instructions moved into the pools of `maps` and
/// their try blocks and debug info filled in anew.
pub open spec fn methods_rewritten(
    dex: DexFile,
    maps: PoolMaps,
    table: Seq<OpcodeInfo>,
    ms: Seq<BuiltMethod>,
    ns: Seq<BuiltMethod>,
) -> bool {
    &&& ns.len() == ms.len()
    &&& forall|k: int| 0 <= k < ms.len() ==> method_rewritten(dex, maps, table, ms[k], #[trigger] ns[k])
}

/// `n` is `m` with its instructions moved into the pools of `maps`, then its try blocks
/// and debug info filled in anew.
pub open spec fn method_rewritten(dex: DexFile, maps: PoolMaps, table: Seq<OpcodeInfo>, m: BuiltMethod, n: BuiltMethod) -> bool {
    exists|mid: BuiltMethod| insns_moved(dex, maps, table, m, mid) && method_filled(mid, n)
}

proof fn lemma_methods_rewritten(
    dex: DexFile,
    maps: PoolMaps,
    table: Seq<OpcodeInfo>,
    ms: Seq<BuiltMethod>,
    mids: Seq<BuiltMethod>,
    ns: Seq<BuiltMethod>,
)
    requires
        mids.len() == ms.len(),
        ns.len() == ms.len(),
        forall|k: int| 0 <= k < ms.len() ==> insns_moved(dex, maps, table, ms[k], #[trigger] mids[k]),
        forall|k: int| 0 <= k < ms.len() ==> method_filled(mids[k], #[trigger] ns[k]),
    ensures
        methods_rewritten(dex, maps, table, ms, ns),
{
    assert forall|k: int| 0 <= k < ms.len() implies method_rewritten(dex, maps, table, ms[k], #[trigger] ns[k]) by {
        assert(insns_moved(dex, maps, table, ms[k], mids[k]));
        assert(method_filled(mids[k], ns[k]));
    }
}

/// The builder model after the name, superclass, interfaces and source file of the
/// class of `cd` are interned; nothing when one of them cannot be read.
pub open spec fn head_harvest(dex: DexFile, m: BuilderModel, cd: ClassDef) -> Option<BuilderModel> {
    match dex.spec_type(cd.class_idx) {
        None => None,
        Some(t) => {
            let m1 = add_type(m, t);
            let m2 = if cd.superclass_idx == NO_INDEX {
                Some(m1)
            } else {
                match dex.spec_type(cd.superclass_idx) {
                    Some(s) => Some(add_type(m1, s)),
                    None => None,
                }
            };
            match m2 {
                None => None,
                Some(m2) => match dex.spec_type_list(cd.interfaces_off) {
                    None => None,
                    Some(ifs) => {
                        let m3 = add_types(m2, ifs);
                        if cd.source_file_idx == NO_INDEX {
                            Some(m3)
                        } else {
                            match dex.spec_string(cd.source_file_idx) {
                                Some(s) => Some(add_string(m3, s)),
                                None => None,
                            }
                        }
                    },
                },
            }
        },
    }
}

/// The static values of the class of `cd`: none when the class has none.
pub open spec fn static_models(dex: DexFile, cd: ClassDef) -> Option<Seq<ValueModel>> {
    if cd.static_values_off == 0 {
        Some(Seq::empty())
    } else {
        match spec_decode_array(dex.data@, cd.static_values_off as int) {
            Ok((ms, _)) => Some(ms),
            Err(_) => None,
        }
    }
}

/// The encoded members of the class of `cd`: none when the class has no class data.
pub open spec fn class_members(dex: DexFile, cd: ClassDef) -> Option<
    (Seq<EncodedField>, Seq<EncodedField>, Seq<EncodedMethod>, Seq<EncodedMethod>),
> {
    if cd.class_data_off == 0 {
        Some((Seq::empty(), Seq::empty(), Seq::empty(), Seq::empty()))
    } else {
        spec_class_data(dex.data@, cd.class_data_off as int)
    }
}

/// The builder model after the members and annotations of the class of `cd` are
/// interned into `m`: static fields (taking the static values in turn), instance
/// fields, direct methods, virtual methods, annotations.
pub open spec fn body_harvest(dex: DexFile, table: Seq<OpcodeInfo>, m: BuilderModel, cd: ClassDef) -> Option<BuilderModel> {
    match (static_models(dex, cd), class_members(dex, cd)) {
        (Some(vals), Some((sf, inf, dm, vm))) => match fields_interned(dex, m, sf, vals, true) {
            None => None,
            Some(m5) => match fields_interned(
                dex,
                m5,
                inf,
                vals.skip(if sf.len() <= vals.len() { sf.len() as int } else { vals.len() as int }),
                false,
            ) {
                None => None,
                Some(m6) => match methods_harvested(dex, table, m6, dm) {
                    None => None,
                    Some((m7, _)) => match methods_harvested(dex, table, m7, vm) {
                        None => None,
                        Some((m8, _)) => match spec_parse_directory(dex.data@, cd.annotations_off) {
                            Ok(d) => directory_interned(dex, m8, d),
                            Err(_) => None,
                        },
                    },
                },
            },
        },
        _ => None,
    }
}

/// The builder model after every name the class of `cd` uses is interned into `m`;
/// nothing when some part of the class cannot be read or carried.
pub open spec fn class_harvest(dex: DexFile, table: Seq<OpcodeInfo>, m: BuilderModel, cd: ClassDef) -> Option<BuilderModel> {
    match head_harvest(dex, m, cd) {
        None => None,
        Some(m4) => body_harvest(dex, table, m4, cd),
    }
}

proof fn lemma_models_skip(v: Seq<EncodedValue>, k: int)
    requires
        0 <= k <= v.len(),
    ensures
        models(v.skip(k)) == models(v).skip(k),
{
    assert(models(v.skip(k)) =~= models(v).skip(k));
}

/// The members `c` holds are copies of the encoded members of a class data item.
pub open spec fn members_copied(
    dex: DexFile,
    sf: Seq<EncodedField>,
    inf: Seq<EncodedField>,
    dm: Seq<EncodedMethod>,
    vm: Seq<EncodedMethod>,
    c: BuiltClass,
) -> bool {
    &&& c.static_fields@.len() == sf.len()
    &&& (forall|k: int|
        0 <= k < sf.len() ==> field_copied(
            dex,
            sf[k],
            #[trigger] c.static_fields@[k],
            true,
            c.static_fields@[k].static_value,
        ))
    &&& c.instance_fields@.len() == inf.len()
    &&& (forall|k: int| 0 <= k < inf.len() ==> field_copied(dex, inf[k], #[trigger] c.instance_fields@[k], false, None))
    &&& c.direct_methods@.len() == dm.len()
    &&& (forall|k: int| 0 <= k < dm.len() ==> method_copied(dex, dm[k], #[trigger] c.direct_methods@[k], true))
    &&& c.virtual_methods@.len() == vm.len()
    &&& (forall|k: int| 0 <= k < vm.len() ==> method_copied(dex, vm[k], #[trigger] c.virtual_methods@[k], false))
}

/// `c` is the class of `cd` as read from `dex`, with names in place of pool indices:
/// its type, flags, superclass, interfaces, source file, members and annotations.
#[verifier::opaque]
pub open spec fn class_copied(dex: DexFile, cd: ClassDef, c: BuiltClass) -> bool {
    &&& dex.spec_type(cd.class_idx) == Some(c.descriptor@)
    &&& c.access_flags == cd.access_flags
    &&& (if cd.superclass_idx == NO_INDEX {
        c.superclass is None
    } else {
        c.superclass matches Some(s) && dex.spec_type(cd.superclass_idx) == Some(s@)
    })
    &&& dex.spec_type_list(cd.interfaces_off) == Some(names(c.interfaces@))
    &&& (if cd.source_file_idx == NO_INDEX {
        c.source_file is None
    } else {
        c.source_file matches Some(s) && dex.spec_string(cd.source_file_idx) == Some(s@)
    })
    &&& (if cd.class_data_off == 0 {
        members_copied(dex, Seq::empty(), Seq::empty(), Seq::empty(), Seq::empty(), c)
    } else {
        spec_class_data(dex.data@, cd.class_data_off as int) matches Some((sf, inf, dm, vm)) && members_copied(
            dex,
            sf,
            inf,
            dm,
            vm,
            c,
        )
    })
    &&& spec_parse_directory(dex.data@, cd.annotations_off) == Ok::<_, crate::dex::encoded_value::DecodeFault>(
        directory_model(c.annotations),
    )
}

/// `out` is the harvested class `c` moved into the pools of `maps`: the same name,
/// flags, superclass, interfaces and source file; each static value, instruction and
/// annotation moved; try blocks and debug info filled in anew.
#[verifier::opaque]
pub open spec fn class_rewritten(dex: DexFile, maps: PoolMaps, table: Seq<OpcodeInfo>, c: BuiltClass, out: BuiltClass) -> bool {
    &&& out.descriptor == c.descriptor
    &&& out.access_flags == c.access_flags
    &&& out.superclass == c.superclass
    &&& out.interfaces == c.interfaces
    &&& out.source_file == c.source_file
    &&& out.static_fields@.len() == c.static_fields@.len()
    &&& (forall|k: int|
        0 <= k < c.static_fields@.len() ==> field_value_moved(dex, maps, c.static_fields@[k], #[trigger] out.static_fields@[k]))
    &&& out.instance_fields@.len() == c.instance_fields@.len()
    &&& (forall|k: int|
        0 <= k < c.instance_fields@.len() ==> field_value_moved(
            dex,
            maps,
            c.instance_fields@[k],
            #[trigger] out.instance_fields@[k],
        ))
    &&& methods_rewritten(dex, maps, table, c.direct_methods@, out.direct_methods@)
    &&& methods_rewritten(dex, maps, table, c.virtual_methods@, out.virtual_methods@)
    &&& moved_directory(dex, maps, directory_model(c.annotations)) == Some(directory_model(out.annotations))
}

/// A method's debug info with names in place of pool indices, rebuilt once the new
/// pools are known.
pub struct DebugDraft {
    line_start: u32,
    params: Vec<Option<String>>,
    /// `(register, name, type)` of each local started with both a name and a type.
    locals: Vec<(u32, String, String)>,
}


/// The parameter names of a draft resolved to string ids of `maps`.
spec fn draft_param_ids(maps: PoolMaps, params: Seq<Option<String>>) -> Option<Seq<Option<u32>>>
    decreases params.len(),
{
    if params.len() == 0 {
        Some(Seq::empty())
    } else {
        let last = match params.last() {
            Some(t) => match new_string(maps, t@) {
                Some(i) => Some(Some(i)),
                None => None,
            },
            None => Some(None),
        };
        match (draft_param_ids(maps, params.drop_last()), last) {
            (Some(a), Some(b)) => Some(a.push(b)),
            _ => None,
        }
    }
}

/// The locals of a draft as local-start directives over ids of `maps`.
spec fn draft_local_ops(maps: PoolMaps, locals: Seq<(u32, String, String)>) -> Option<Seq<DebugBuilderOp>>
    decreases locals.len(),
{
    if locals.len() == 0 {
        Some(Seq::empty())
    } else {
        let (reg, name, typ) = locals.last();
        match (draft_local_ops(maps, locals.drop_last()), new_string(maps, name@), new_type(maps, typ@)) {
            (Some(a), Some(n), Some(t)) => Some(a.push(DebugBuilderOp::StartLocal { reg, name_idx: n, type_idx: t })),
            _ => None,
        }
    }
}

/// The debug info of `draft` over the pools of `maps`; `None` when a name is missing there.
spec fn rebuilt_debug(draft: DebugDraft, maps: PoolMaps) -> Option<Seq<u8>> {
    match (draft_param_ids(maps, draft.params@), draft_local_ops(maps, draft.locals@)) {
        (Some(ps), Some(ops)) => {
            let ls: u32 = if draft.line_start >= 1 {
                draft.line_start
            } else {
                1
            };
            Some(
                uleb_encode(ls as nat) + uleb_encode(ps.len() as u32 as nat) + param_names_bytes(ps) + debug_body(
                    ops,
                    ls as i32,
                ) + seq![0x00u8],
            )
        },
        _ => None,
    }
}

/// The draft at position `at` of `drafts`; none past the end.
spec fn draft_at(drafts: Seq<Option<DebugDraft>>, at: int) -> Option<DebugDraft> {
    if 0 <= at < drafts.len() {
        drafts[at]
    } else {
        None
    }
}

/// Filling in method `m`, whose entry in the source class data is `s`, goes through:
/// where both have a body, the source's try blocks move into `maps`, and so do the names
/// of the method's debug draft.
spec fn method_fills(dex: DexFile, maps: PoolMaps, m: BuiltMethod, s: EncodedMethod, draft: Option<DebugDraft>) -> bool {
    m.code is Some && s.code_off != 0 ==> source_tries_move(dex, maps, s.code_off) && (draft matches Some(d)
        ==> rebuilt_debug(d, maps) is Some)
}

/// Filling in the methods `ms`, the first of which is entry `start` of `src`, goes through.
spec fn methods_fill(
    dex: DexFile,
    maps: PoolMaps,
    ms: Seq<BuiltMethod>,
    src: Seq<EncodedMethod>,
    start: int,
    drafts: Seq<Option<DebugDraft>>,
) -> bool {
    &&& 0 <= start
    &&& start + ms.len() <= src.len()
    &&& forall|k: int|
        0 <= k < ms.len() ==> method_fills(dex, maps, #[trigger] ms[k], src[start + k], draft_at(drafts, start + k))
}

/// Filling in the methods of `c` from class definition `cd` goes through: the class data
/// reads, and each method of `c` fills from its entry there.
spec fn class_data_fills(dex: DexFile, maps: PoolMaps, cd: ClassDef, c: BuiltClass, drafts: Seq<Option<DebugDraft>>) -> bool {
    cd.class_data_off != 0 ==> match spec_class_data(dex.data@, cd.class_data_off as int) {
        Some((sf, inf, dm, vm)) => methods_fill(dex, maps, c.direct_methods@, dm + vm, 0, drafts) && methods_fill(
            dex,
            maps,
            c.virtual_methods@,
            dm + vm,
            c.direct_methods@.len() as int,
            drafts,
        ),
        None => false,
    }
}

/// Moving the harvested class `c` (with the debug drafts of its methods) into the pools
/// of `maps` goes through: every static value and every instruction moves, the class is
/// found again by its name and its methods fill in from it, and its annotations move.
pub closed spec fn rewrite_ok(
    dex: DexFile,
    maps: PoolMaps,
    table: Seq<OpcodeInfo>,
    c: BuiltClass,
    drafts: Seq<Option<DebugDraft>>,
) -> bool {
    &&& forall|k: int| 0 <= k < c.static_fields@.len() ==> value_moves(dex, maps, #[trigger] c.static_fields@[k])
    &&& forall|k: int| 0 <= k < c.instance_fields@.len() ==> value_moves(dex, maps, #[trigger] c.instance_fields@[k])
    &&& forall|k: int| 0 <= k < c.direct_methods@.len() ==> insns_move(dex, maps, table, #[trigger] c.direct_methods@[k])
    &&& forall|k: int|
        0 <= k < c.virtual_methods@.len() ==> insns_move(dex, maps, table, #[trigger] c.virtual_methods@[k])
    &&& exists|i: u32|
        first_class_named(dex, c.descriptor@, i) && #[trigger] class_data_fills(
            dex,
            maps,
            class_def_of(dex, i),
            c,
            drafts,
        )
    &&& moved_directory(dex, maps, directory_model(c.annotations)) is Some
}

proof fn lemma_fill_same_bodies(
    dex: DexFile,
    maps: PoolMaps,
    table: Seq<OpcodeInfo>,
    ms: Seq<BuiltMethod>,
    mids: Seq<BuiltMethod>,
    src: Seq<EncodedMethod>,
    start: int,
    drafts: Seq<Option<DebugDraft>>,
)
    requires
        methods_fill(dex, maps, ms, src, start, drafts),
        mids.len() == ms.len(),
        forall|k: int| 0 <= k < ms.len() ==> insns_moved(dex, maps, table, ms[k], #[trigger] mids[k]),
    ensures
        methods_fill(dex, maps, mids, src, start, drafts),
{
    assert forall|k: int| 0 <= k < mids.len() implies method_fills(
        dex,
        maps,
        #[trigger] mids[k],
        src[start + k],
        draft_at(drafts, start + k),
    ) by {
        assert(insns_moved(dex, maps, table, ms[k], mids[k]));
        assert(method_fills(dex, maps, ms[k], src[start + k], draft_at(drafts, start + k)));
    }
}

proof fn lemma_draft_params_each(maps: PoolMaps, params: Seq<Option<String>>, k: int)
    requires
        draft_param_ids(maps, params) is Some,
        0 <= k < params.len(),
    ensures
        params[k] matches Some(t) ==> new_string(maps, t@) is Some,
    decreases params.len(),
{
    if k < params.len() - 1 {
        assert(params.drop_last()[k] == params[k]);
        lemma_draft_params_each(maps, params.drop_last(), k);
    }
}

proof fn lemma_draft_locals_each(maps: PoolMaps, locals: Seq<(u32, String, String)>, k: int)
    requires
        draft_local_ops(maps, locals) is Some,
        0 <= k < locals.len(),
    ensures
        new_string(maps, locals[k].1@) is Some,
        new_type(maps, locals[k].2@) is Some,
    decreases locals.len(),
{
    if k < locals.len() - 1 {
        assert(locals.drop_last()[k] == locals[k]);
        lemma_draft_locals_each(maps, locals.drop_last(), k);
    }
}


/// The handlers of a try item with their catch types moved into the pools of `maps`:
/// the typed ones in order, and the address of the last catch-all.
pub open spec fn moved_handlers(dex: DexFile, maps: PoolMaps, hs: Seq<(Option<u32>, u32)>) -> Option<
    (Seq<(u32, u32)>, Option<u32>),
>
    decreases hs.len(),
{
    if hs.len() == 0 {
        Some((Seq::empty(), None))
    } else {
        let (ty, addr) = hs.last();
        match moved_handlers(dex, maps, hs.drop_last()) {
            Some((typed, catch_all)) => match ty {
                Some(t) => match moved_type(dex, maps, t) {
                    Some(n) => Some((typed.push((n, addr)), catch_all)),
                    None => None,
                },
                None => Some((typed, Some(addr))),
            },
            None => None,
        }
    }
}

/// `b` is the try item `v` (start, count, handlers) with its catch types moved.
pub open spec fn try_moved(dex: DexFile, maps: PoolMaps, v: (u32, u16, Seq<(Option<u32>, u32)>), b: BuiltTry) -> bool {
    &&& b.start_unit == v.0
    &&& b.insn_count == v.1
    &&& moved_handlers(dex, maps, v.2) == Some((b.handlers@, b.catch_all))
}

/// The try items of the code item at `code_off` of `dex` can be read and their catch
/// types move into the pools of `maps`.
pub open spec fn source_tries_move(dex: DexFile, maps: PoolMaps, code_off: u32) -> bool {
    let c = code_item_at(dex.data@, code_off);
    &&& code_item_fits(dex.data@, code_off as int)
    &&& c.offsets_in_range()
    &&& tries_readable(c, dex.data@)
    &&& forall|i: int| 0 <= i < c.tries_size ==> (#[trigger] moved_handlers(dex, maps, (spec_try_item(c, dex.data@, i)->0).2)) is Some
}

proof fn lemma_moved_handlers_each(dex: DexFile, maps: PoolMaps, hs: Seq<(Option<u32>, u32)>, k: int)
    requires
        moved_handlers(dex, maps, hs) is Some,
        0 <= k < hs.len(),
    ensures
        hs[k].0 matches Some(t) ==> moved_type(dex, maps, t) is Some,
    decreases hs.len(),
{
    if k < hs.len() - 1 {
        assert(hs.drop_last()[k] == hs[k]);
        lemma_moved_handlers_each(dex, maps, hs.drop_last(), k);
    }
}


/// `m` with the name that index `i` of the pool `kind` of `dex` stands for interned (a
/// string, a type, a field, a method or a prototype); `None` when it does not resolve.
pub open spec fn name_interned(dex: DexFile, m: BuilderModel, kind: OpRef, i: u32) -> Option<BuilderModel> {
    match kind {
        OpRef::String => match dex.spec_string(i) {
            Some(t) => Some(add_string(m, t)),
            None => None,
        },
        OpRef::Type => match dex.spec_type(i) {
            Some(t) => Some(add_type(m, t)),
            None => None,
        },
        OpRef::Field => match ref_field(dex, i) {
            Some((c, n, t)) => Some(add_field(m, c, n, t)),
            None => None,
        },
        OpRef::Method => match ref_method(dex, i) {
            Some((c, n, p)) => Some(add_method(m, c, n, p)),
            None => None,
        },
        OpRef::MethodProto => match ref_proto(dex, i) {
            Some(p) => Some(add_proto(m, p)),
            None => None,
        },
        _ => None,
    }
}

/// `m` with every name that value `v` of `dex` refers to interned; `None` when one does
/// not resolve or `v` holds a method handle.
pub open spec fn value_interned(dex: DexFile, m: BuilderModel, v: ValueModel) -> Option<BuilderModel>
    decreases v,
{
    match v {
        ValueModel::String(i) => name_interned(dex, m, OpRef::String, i),
        ValueModel::Type(i) => name_interned(dex, m, OpRef::Type, i),
        ValueModel::MethodType(i) => name_interned(dex, m, OpRef::MethodProto, i),
        ValueModel::Field(i) => name_interned(dex, m, OpRef::Field, i),
        ValueModel::Enum(i) => name_interned(dex, m, OpRef::Field, i),
        ValueModel::Method(i) => name_interned(dex, m, OpRef::Method, i),
        ValueModel::MethodHandle(_) => None,
        ValueModel::Array(vs) => values_interned(dex, m, vs),
        ValueModel::Annotation(t, es) => match dex.spec_type(t) {
            Some(ty) => elements_interned(dex, add_type(m, ty), es),
            None => None,
        },
        _ => Some(m),
    }
}

/// `m` with the names of each of `vs` interned in turn.
pub open spec fn values_interned(dex: DexFile, m: BuilderModel, vs: Seq<ValueModel>) -> Option<BuilderModel>
    decreases vs,
{
    if vs.len() == 0 {
        Some(m)
    } else {
        match values_interned(dex, m, vs.drop_last()) {
            Some(m2) => value_interned(dex, m2, vs[vs.len() - 1]),
            None => None,
        }
    }
}

/// `m` with the name and the names of the value of each element of `es` interned in turn.
pub open spec fn elements_interned(dex: DexFile, m: BuilderModel, es: Seq<(u32, ValueModel)>) -> Option<BuilderModel>
    decreases es,
{
    if es.len() == 0 {
        Some(m)
    } else {
        match elements_interned(dex, m, es.drop_last()) {
            Some(m2) => match dex.spec_string(es[es.len() - 1].0) {
                Some(n) => value_interned(dex, add_string(m2, n), es[es.len() - 1].1),
                None => None,
            },
            None => None,
        }
    }
}

/// `m` with the type and the element names and values of annotation `a` interned.
pub open spec fn annotation_interned(dex: DexFile, m: BuilderModel, a: (u32, Seq<(u32, ValueModel)>)) -> Option<BuilderModel> {
    match dex.spec_type(a.0) {
        Some(ty) => elements_interned(dex, add_type(m, ty), a.1),
        None => None,
    }
}

/// `m` with the names of each annotation of `set` interned in turn.
pub open spec fn set_interned(dex: DexFile, m: BuilderModel, set: Seq<ItemModel>) -> Option<BuilderModel>
    decreases set.len(),
{
    if set.len() == 0 {
        Some(m)
    } else {
        match set_interned(dex, m, set.drop_last()) {
            Some(m2) => annotation_interned(dex, m2, set.last().annotation),
            None => None,
        }
    }
}

/// `m` with the names of each annotation set of `ss` interned in turn.
pub open spec fn sets_interned(dex: DexFile, m: BuilderModel, ss: Seq<Seq<ItemModel>>) -> Option<BuilderModel>
    decreases ss.len(),
{
    if ss.len() == 0 {
        Some(m)
    } else {
        match sets_interned(dex, m, ss.drop_last()) {
            Some(m2) => set_interned(dex, m2, ss.last()),
            None => None,
        }
    }
}

/// `m` with the names of the annotation set of each entry of `es` interned in turn.
pub open spec fn keyed_sets_interned(dex: DexFile, m: BuilderModel, es: Seq<(u32, Seq<ItemModel>)>) -> Option<BuilderModel>
    decreases es.len(),
{
    if es.len() == 0 {
        Some(m)
    } else {
        match keyed_sets_interned(dex, m, es.drop_last()) {
            Some(m2) => set_interned(dex, m2, es.last().1),
            None => None,
        }
    }
}

/// `m` with the names of the parameter annotation sets of each entry of `es` interned.
pub open spec fn param_sets_interned(dex: DexFile, m: BuilderModel, es: Seq<(u32, Seq<Seq<ItemModel>>)>) -> Option<
    BuilderModel,
>
    decreases es.len(),
{
    if es.len() == 0 {
        Some(m)
    } else {
        match param_sets_interned(dex, m, es.drop_last()) {
            Some(m2) => sets_interned(dex, m2, es.last().1),
            None => None,
        }
    }
}

/// `m` with every name the annotations of directory `d` use interned: the class's own,
/// then those of fields, methods and parameters.
pub open spec fn directory_interned(dex: DexFile, m: BuilderModel, d: DirectoryModel) -> Option<BuilderModel> {
    match set_interned(dex, m, d.class) {
        Some(m1) => match keyed_sets_interned(dex, m1, d.fields) {
            Some(m2) => match keyed_sets_interned(dex, m2, d.methods) {
                Some(m3) => param_sets_interned(dex, m3, d.params),
                None => None,
            },
            None => None,
        },
        None => None,
    }
}

/// `m` with what the instruction at `pc` of `insns`, read as `info`, refers to interned
/// (for formats 45cc and 4rcc the prototype operand too); `None` when it does not
/// resolve, or the instruction refers to a call site.
pub open spec fn insn_interned(dex: DexFile, m: BuilderModel, info: OpcodeInfo, insns: Seq<u8>, pc: int) -> Option<
    BuilderModel,
> {
    match info.ref_kind {
        OpRef::NoRef => Some(m),
        OpRef::CallSite | OpRef::Varies => None,
        _ => match ref_idx_at(insns, pc, info.wide_index) {
            Some(i) => match name_interned(dex, m, info.ref_kind, i) {
                Some(m2) => if info.ref_kind is Method && info.proto_operand && info.width >= 8 {
                    name_interned(dex, m2, OpRef::MethodProto, le16_of(insns[pc + 6], insns[pc + 7]) as u32)
                } else {
                    Some(m2)
                },
                None => None,
            },
            None => None,
        },
    }
}

/// `m` with what each instruction of the walk of [`scan_from`] over `insns` from `pc`
/// refers to interned in turn; it stops early at an instruction that runs past the end.
pub open spec fn insns_interned_from(dex: DexFile, table: Seq<OpcodeInfo>, m: BuilderModel, insns: Seq<u8>, pc: int) -> Option<
    BuilderModel,
>
    decreases insns.len() - pc,
{
    if pc < 0 || insns.len() - pc < 2 {
        Some(m)
    } else if payload_at(insns, pc) {
        match spec_payload_len(insns, pc) {
            None => None,
            Some(n) => if n == 0 {
                Some(m)
            } else {
                insns_interned_from(dex, table, m, insns, spec_step(pc, n as int, insns.len() as int))
            },
        }
    } else {
        let info = opcode_in(table, insns[pc]);
        if info.width == 0 {
            insns_interned_from(dex, table, m, insns, spec_step(pc, 2, insns.len() as int))
        } else if info.width > insns.len() - pc {
            Some(m)
        } else {
            match insn_interned(dex, m, info, insns, pc) {
                Some(m2) => insns_interned_from(dex, table, m2, insns, spec_step(pc, info.width as int, insns.len() as int)),
                None => None,
            }
        }
    }
}

proof fn lemma_values_interned_each(dex: DexFile, m: BuilderModel, vs: Seq<ValueModel>, k: int)
    requires
        values_interned(dex, m, vs) is Some,
        0 <= k < vs.len(),
    ensures
        values_interned(dex, m, vs.take(k)) is Some,
        value_interned(dex, values_interned(dex, m, vs.take(k))->0, vs[k]) is Some,
    decreases vs.len(),
{
    if k == vs.len() - 1 {
        assert(vs.drop_last() =~= vs.take(k));
    } else {
        assert(vs.drop_last().take(k) =~= vs.take(k));
        assert(vs.drop_last()[k] == vs[k]);
        lemma_values_interned_each(dex, m, vs.drop_last(), k);
    }
}

proof fn lemma_elements_interned_each(dex: DexFile, m: BuilderModel, es: Seq<(u32, ValueModel)>, k: int)
    requires
        elements_interned(dex, m, es) is Some,
        0 <= k < es.len(),
    ensures
        elements_interned(dex, m, es.take(k)) is Some,
        dex.spec_string(es[k].0) is Some,
        value_interned(dex, add_string(elements_interned(dex, m, es.take(k))->0, dex.spec_string(es[k].0)->0), es[k].1) is Some,
    decreases es.len(),
{
    if k == es.len() - 1 {
        assert(es.drop_last() =~= es.take(k));
    } else {
        assert(es.drop_last().take(k) =~= es.take(k));
        assert(es.drop_last()[k] == es[k]);
        lemma_elements_interned_each(dex, m, es.drop_last(), k);
    }
}

proof fn lemma_set_interned_each(dex: DexFile, m: BuilderModel, set: Seq<ItemModel>, k: int)
    requires
        set_interned(dex, m, set) is Some,
        0 <= k < set.len(),
    ensures
        set_interned(dex, m, set.take(k)) is Some,
        annotation_interned(dex, set_interned(dex, m, set.take(k))->0, set[k].annotation) is Some,
    decreases set.len(),
{
    if k == set.len() - 1 {
        assert(set.drop_last() =~= set.take(k));
    } else {
        assert(set.drop_last().take(k) =~= set.take(k));
        assert(set.drop_last()[k] == set[k]);
        lemma_set_interned_each(dex, m, set.drop_last(), k);
    }
}

proof fn lemma_sets_interned_each(dex: DexFile, m: BuilderModel, ss: Seq<Seq<ItemModel>>, k: int)
    requires
        sets_interned(dex, m, ss) is Some,
        0 <= k < ss.len(),
    ensures
        sets_interned(dex, m, ss.take(k)) is Some,
        set_interned(dex, sets_interned(dex, m, ss.take(k))->0, ss[k]) is Some,
    decreases ss.len(),
{
    if k == ss.len() - 1 {
        assert(ss.drop_last() =~= ss.take(k));
    } else {
        assert(ss.drop_last().take(k) =~= ss.take(k));
        assert(ss.drop_last()[k] == ss[k]);
        lemma_sets_interned_each(dex, m, ss.drop_last(), k);
    }
}

proof fn lemma_keyed_sets_interned_each(dex: DexFile, m: BuilderModel, es: Seq<(u32, Seq<ItemModel>)>, k: int)
    requires
        keyed_sets_interned(dex, m, es) is Some,
        0 <= k < es.len(),
    ensures
        keyed_sets_interned(dex, m, es.take(k)) is Some,
        set_interned(dex, keyed_sets_interned(dex, m, es.take(k))->0, es[k].1) is Some,
    decreases es.len(),
{
    if k == es.len() - 1 {
        assert(es.drop_last() =~= es.take(k));
    } else {
        assert(es.drop_last().take(k) =~= es.take(k));
        assert(es.drop_last()[k] == es[k]);
        lemma_keyed_sets_interned_each(dex, m, es.drop_last(), k);
    }
}

proof fn lemma_param_sets_interned_each(dex: DexFile, m: BuilderModel, es: Seq<(u32, Seq<Seq<ItemModel>>)>, k: int)
    requires
        param_sets_interned(dex, m, es) is Some,
        0 <= k < es.len(),
    ensures
        param_sets_interned(dex, m, es.take(k)) is Some,
        sets_interned(dex, param_sets_interned(dex, m, es.take(k))->0, es[k].1) is Some,
    decreases es.len(),
{
    if k == es.len() - 1 {
        assert(es.drop_last() =~= es.take(k));
    } else {
        assert(es.drop_last().take(k) =~= es.take(k));
        assert(es.drop_last()[k] == es[k]);
        lemma_param_sets_interned_each(dex, m, es.drop_last(), k);
    }
}


/// The parameter names of a debug info item: `count` uleb128p1 string indices from
/// `off`, each name (from `dex`) interned into `m` and added to `params`; where they end.
pub open spec fn debug_params_scan(
    dex: DexFile,
    data: Seq<u8>,
    off: int,
    count: nat,
    m: BuilderModel,
    params: Seq<Option<Seq<char>>>,
) -> Option<(BuilderModel, Seq<Option<Seq<char>>>, int)>
    decreases count,
{
    if count == 0 {
        Some((m, params, off))
    } else {
        match spec_read_uleb128p1(data, off) {
            Some((p, n)) => if p >= 0 {
                match dex.spec_string(p as u32) {
                    Some(t) => debug_params_scan(dex, data, off + n, (count - 1) as nat, add_string(m, t), params.push(Some(t))),
                    None => None,
                }
            } else {
                debug_params_scan(dex, data, off + n, (count - 1) as nat, m, params.push(None))
            },
            None => None,
        }
    }
}

/// `m` with string `p` (of `dex`) interned, when `p` names one (`p >= 0`).
pub open spec fn opt_string_interned(dex: DexFile, m: BuilderModel, p: i32) -> Option<BuilderModel> {
    if p >= 0 {
        match dex.spec_string(p as u32) {
            Some(t) => Some(add_string(m, t)),
            None => None,
        }
    } else {
        Some(m)
    }
}

/// The local-start directive at `o` (after its opcode): register, name and type (and for
/// a local with signature the signature, interned first); name and type interned, and the
/// local recorded when it has both. Where it ends.
pub open spec fn debug_local_scan(
    dex: DexFile,
    data: Seq<u8>,
    o: int,
    with_sig: bool,
    m: BuilderModel,
    locals: Seq<(u32, Seq<char>, Seq<char>)>,
) -> Option<(BuilderModel, Seq<(u32, Seq<char>, Seq<char>)>, int)> {
    match spec_read_uleb128(data, o) {
        Some((reg, n1)) => match spec_read_uleb128p1(data, o + n1) {
            Some((name_p1, n2)) => match spec_read_uleb128p1(data, o + n1 + n2) {
                Some((type_p1, n3)) => {
                    let after = o + n1 + n2 + n3;
                    let sig = if with_sig {
                        match spec_read_uleb128p1(data, after) {
                            Some((sig_p1, n4)) => match opt_string_interned(dex, m, sig_p1) {
                                Some(m1) => Some((m1, after + n4)),
                                None => None,
                            },
                            None => None,
                        }
                    } else {
                        Some((m, after))
                    };
                    match sig {
                        Some((m1, end)) => match opt_string_interned(dex, m1, name_p1) {
                            Some(m2) => {
                                let m3 = if type_p1 >= 0 {
                                    match dex.spec_type(type_p1 as u32) {
                                        Some(t) => Some(add_type(m2, t)),
                                        None => None,
                                    }
                                } else {
                                    Some(m2)
                                };
                                match m3 {
                                    Some(m4) => if name_p1 >= 0 && type_p1 >= 0 {
                                        Some(
                                            (
                                                m4,
                                                locals.push(
                                                    (
                                                        reg,
                                                        dex.spec_string(name_p1 as u32)->0,
                                                        dex.spec_type(type_p1 as u32)->0,
                                                    ),
                                                ),
                                                end,
                                            ),
                                        )
                                    } else {
                                        Some((m4, locals, end))
                                    },
                                    None => None,
                                }
                            },
                            None => None,
                        },
                        None => None,
                    }
                },
                None => None,
            },
            None => None,
        },
        None => None,
    }
}

/// The directives of a debug info item from `off` up to its end (opcode 0 or the end of
/// `data`): the names they use interned into `m`, the locals with name and type recorded.
pub open spec fn debug_ops_scan(
    dex: DexFile,
    data: Seq<u8>,
    off: int,
    m: BuilderModel,
    locals: Seq<(u32, Seq<char>, Seq<char>)>,
) -> Option<(BuilderModel, Seq<(u32, Seq<char>, Seq<char>)>)>
    decreases data.len() - off,
{
    if off < 0 || off >= data.len() {
        Some((m, locals))
    } else {
        let op = data[off];
        let o = off + 1;
        if op == 0x00 {
            Some((m, locals))
        } else if op == 0x01 || op == 0x05 || op == 0x06 {
            match spec_read_uleb128(data, o) {
                Some((_, n)) => if o + n <= data.len() {
                    debug_ops_scan(dex, data, o + n, m, locals)
                } else {
                    None
                },
                None => None,
            }
        } else if op == 0x02 {
            match spec_read_sleb128(data, o) {
                Some((_, n)) => if o + n <= data.len() {
                    debug_ops_scan(dex, data, o + n, m, locals)
                } else {
                    None
                },
                None => None,
            }
        } else if op == 0x03 || op == 0x04 {
            match debug_local_scan(dex, data, o, op == 0x04, m, locals) {
                Some((m1, l1, end)) => if off < end <= data.len() {
                    debug_ops_scan(dex, data, end, m1, l1)
                } else {
                    None
                },
                None => None,
            }
        } else if op == 0x09 {
            match spec_read_uleb128p1(data, o) {
                Some((p, n)) => match opt_string_interned(dex, m, p) {
                    Some(m1) => if o + n <= data.len() {
                        debug_ops_scan(dex, data, o + n, m1, locals)
                    } else {
                        None
                    },
                    None => None,
                },
                None => None,
            }
        } else {
            debug_ops_scan(dex, data, o, m, locals)
        }
    }
}

/// The debug info of `code` read into `m`: the names it uses interned, and its start line,
/// parameter names and named, typed locals; no draft when `code` has no debug info.
pub open spec fn debug_harvest(dex: DexFile, m: BuilderModel, code: CodeItem) -> Option<
    (BuilderModel, Option<(u32, Seq<Option<Seq<char>>>, Seq<(u32, Seq<char>, Seq<char>)>)>),
> {
    let data = dex.data@;
    let off = code.debug_info_off as int;
    if code.debug_info_off == 0 {
        Some((m, None))
    } else {
        match spec_read_uleb128(data, off) {
            Some((line_start, n1)) => match spec_read_uleb128(data, off + n1) {
                Some((psize, n2)) => match debug_params_scan(dex, data, off + n1 + n2, psize as nat, m, Seq::empty()) {
                    Some((m1, params, o)) => match debug_ops_scan(dex, data, o, m1, Seq::empty()) {
                        Some((m2, locals)) => Some((m2, Some((line_start, params, locals)))),
                        None => None,
                    },
                    None => None,
                },
                None => None,
            },
            None => None,
        }
    }
}

/// The names of the parameters of a draft.
pub open spec fn opt_names(ps: Seq<Option<String>>) -> Seq<Option<Seq<char>>> {
    Seq::new(
        ps.len(),
        |i: int|
            match ps[i] {
                Some(t) => Some(t@),
                None => None,
            },
    )
}

/// The locals of a draft by text.
pub open spec fn local_names(ls: Seq<(u32, String, String)>) -> Seq<(u32, Seq<char>, Seq<char>)> {
    Seq::new(ls.len(), |i: int| (ls[i].0, ls[i].1@, ls[i].2@))
}

/// Draft `x` holds what `d` says.
spec fn draft_is(x: Option<DebugDraft>, d: Option<(u32, Seq<Option<Seq<char>>>, Seq<(u32, Seq<char>, Seq<char>)>)>) -> bool {
    match (x, d) {
        (None, None) => true,
        (Some(x), Some((l, ps, ls))) => x.line_start == l && opt_names(x.params@) == ps && local_names(x.locals@) == ls,
        _ => false,
    }
}


/// `m` with the catch types of the handlers `hs` (of `dex`) interned in turn.
pub open spec fn handlers_interned(dex: DexFile, m: BuilderModel, hs: Seq<(Option<u32>, u32)>) -> Option<BuilderModel>
    decreases hs.len(),
{
    if hs.len() == 0 {
        Some(m)
    } else {
        match handlers_interned(dex, m, hs.drop_last()) {
            Some(m2) => match hs.last().0 {
                Some(t) => match dex.spec_type(t) {
                    Some(d) => Some(add_type(m2, d)),
                    None => None,
                },
                None => Some(m2),
            },
            None => None,
        }
    }
}

/// The handlers `hs` as copied before the new pools are known: the typed ones in order
/// with type index 0, and the address of the last catch-all.
pub open spec fn handler_shape(hs: Seq<(Option<u32>, u32)>) -> (Seq<(u32, u32)>, Option<u32>)
    decreases hs.len(),
{
    if hs.len() == 0 {
        (Seq::empty(), None)
    } else {
        let (typed, catch_all) = handler_shape(hs.drop_last());
        match hs.last().0 {
            Some(_) => (typed.push((0u32, hs.last().1)), catch_all),
            None => (typed, Some(hs.last().1)),
        }
    }
}

/// `m` with the catch types of the first `n` try items of `c` interned in turn.
pub open spec fn tries_interned(dex: DexFile, m: BuilderModel, c: CodeItem, n: nat) -> Option<BuilderModel>
    decreases n,
{
    if n == 0 {
        Some(m)
    } else {
        match tries_interned(dex, m, c, (n - 1) as nat) {
            Some(m2) => handlers_interned(dex, m2, (spec_try_item(c, dex.data@, n - 1)->0).2),
            None => None,
        }
    }
}

/// The body at `code_off` of `dex` read into `m`: what its instructions refer to, its
/// catch types and the names of its debug info interned in turn; the final model and the
/// debug draft.
pub open spec fn code_harvested(dex: DexFile, table: Seq<OpcodeInfo>, m: BuilderModel, code_off: u32) -> Option<
    (BuilderModel, Option<(u32, Seq<Option<Seq<char>>>, Seq<(u32, Seq<char>, Seq<char>)>)>),
> {
    let data = dex.data@;
    let c = code_item_at(data, code_off);
    if !code_item_fits(data, code_off as int) {
        None
    } else {
        match insns_interned_from(dex, table, m, code_insns(data, c), 0) {
            Some(m1) => if !c.offsets_in_range() || !tries_readable(c, data) {
                None
            } else {
                match tries_interned(dex, m1, c, c.tries_size as nat) {
                    Some(m2) => debug_harvest(dex, m2, c),
                    None => None,
                }
            },
            None => None,
        }
    }
}

/// `b` is the try item `v` (start, count, handlers) copied, its handlers shaped by
/// [`handler_shape`].
pub open spec fn try_copied(v: (u32, u16, Seq<(Option<u32>, u32)>), b: BuiltTry) -> bool {
    &&& b.start_unit == v.0
    &&& b.insn_count == v.1
    &&& (b.handlers@, b.catch_all) == handler_shape(v.2)
}

/// `b` is the copy of the body at `code_off` of `dex`: its sizes and instructions, its try
/// items with handlers shaped by [`handler_shape`], no debug info yet.
pub open spec fn code_copied(dex: DexFile, code_off: u32, b: BuiltCode) -> bool {
    let c = code_item_at(dex.data@, code_off);
    &&& b.registers_size == c.registers_size
    &&& b.ins_size == c.ins_size
    &&& b.outs_size == c.outs_size
    &&& b.insns@ == code_insns(dex.data@, c)
    &&& b.tries@.len() == c.tries_size
    &&& forall|i: int| 0 <= i < c.tries_size ==> try_copied(spec_try_item(c, dex.data@, i)->0, #[trigger] b.tries@[i])
    &&& b.debug_info_off == 0
    &&& b.debug_ops@.len() == 0
}

proof fn lemma_handlers_interned_each(dex: DexFile, m: BuilderModel, hs: Seq<(Option<u32>, u32)>, k: int)
    requires
        handlers_interned(dex, m, hs) is Some,
        0 <= k < hs.len(),
    ensures
        hs[k].0 matches Some(t) ==> dex.spec_type(t) is Some,
    decreases hs.len(),
{
    if k < hs.len() - 1 {
        assert(hs.drop_last()[k] == hs[k]);
        lemma_handlers_interned_each(dex, m, hs.drop_last(), k);
    }
}

proof fn lemma_tries_interned_each(dex: DexFile, m: BuilderModel, c: CodeItem, n: nat, k: nat)
    requires
        tries_interned(dex, m, c, n) is Some,
        k < n,
    ensures
        tries_interned(dex, m, c, k) is Some,
        handlers_interned(dex, tries_interned(dex, m, c, k)->0, (spec_try_item(c, dex.data@, k as int)->0).2) is Some,
    decreases n,
{
    if k < n - 1 {
        lemma_tries_interned_each(dex, m, c, (n - 1) as nat, k);
    }
}


/// `m` with the references of the fields `fs` interned in turn, and for static ones the
/// names of the value each takes from `vals` (the `k`-th field the `k`-th value).
pub open spec fn fields_interned(dex: DexFile, m: BuilderModel, fs: Seq<EncodedField>, vals: Seq<ValueModel>, is_static: bool) -> Option<
    BuilderModel,
>
    decreases fs.len(),
{
    if fs.len() == 0 {
        Some(m)
    } else {
        let k = fs.len() - 1;
        match fields_interned(dex, m, fs.drop_last(), vals, is_static) {
            Some(m2) => match ref_field(dex, fs[k].field_idx) {
                Some((c, n, t)) => {
                    let m3 = add_field(m2, c, n, t);
                    if is_static && k < vals.len() {
                        value_interned(dex, m3, vals[k])
                    } else {
                        Some(m3)
                    }
                },
                None => None,
            },
            None => None,
        }
    }
}

/// `g` is the copy of field `f` of `dex`, with static value `sv`.
pub open spec fn field_copied(dex: DexFile, f: EncodedField, g: BuiltField, is_static: bool, sv: Option<EncodedValue>) -> bool {
    &&& ref_field(dex, f.field_idx) == Some((g.class@, g.name@, g.typ@))
    &&& g.access_flags == f.access_flags
    &&& g.static_field == is_static
    &&& g.static_value == sv
}

/// The value that the `k`-th field of a list takes from `vals`.
pub open spec fn taken_value(vals: Seq<EncodedValue>, is_static: bool, k: int) -> Option<EncodedValue> {
    if is_static && k < vals.len() {
        Some(vals[k])
    } else {
        None
    }
}

/// What is left of `vals` after a list of `n` fields took their values.
pub open spec fn values_left(vals: Seq<EncodedValue>, is_static: bool, n: int) -> Seq<EncodedValue> {
    if is_static {
        vals.skip(if n <= vals.len() { n } else { vals.len() as int })
    } else {
        vals
    }
}

/// `m` with the references of the methods `ms` interned in turn, each with its body read
/// by [`code_harvested`]; the debug drafts of the methods in order.
pub open spec fn methods_harvested(dex: DexFile, table: Seq<OpcodeInfo>, m: BuilderModel, ms: Seq<EncodedMethod>) -> Option<
    (BuilderModel, Seq<Option<(u32, Seq<Option<Seq<char>>>, Seq<(u32, Seq<char>, Seq<char>)>)>>),
>
    decreases ms.len(),
{
    if ms.len() == 0 {
        Some((m, Seq::empty()))
    } else {
        let e = ms.last();
        match methods_harvested(dex, table, m, ms.drop_last()) {
            Some((m2, ds)) => match ref_method(dex, e.method_idx) {
                Some((c, n, p)) => {
                    let m3 = add_method(m2, c, n, p);
                    if e.code_off != 0 {
                        match code_harvested(dex, table, m3, e.code_off) {
                            Some((m4, d)) => Some((m4, ds.push(d))),
                            None => None,
                        }
                    } else {
                        Some((m3, ds.push(None)))
                    }
                },
                None => None,
            },
            None => None,
        }
    }
}

/// `g` is the copy of method `e` of `dex`, with its body when it has one.
pub open spec fn method_copied(dex: DexFile, e: EncodedMethod, g: BuiltMethod, direct: bool) -> bool {
    &&& ref_method(dex, e.method_idx) == Some((g.class@, g.name@, g.proto@))
    &&& g.access_flags == e.access_flags
    &&& g.direct == direct
    &&& if e.code_off == 0 {
        g.code is None
    } else {
        g.code matches Some(b) && code_copied(dex, e.code_off, b)
    }
}

proof fn lemma_fields_interned_each(dex: DexFile, m: BuilderModel, fs: Seq<EncodedField>, vals: Seq<ValueModel>, is_static: bool, k: int)
    requires
        fields_interned(dex, m, fs, vals, is_static) is Some,
        0 <= k < fs.len(),
    ensures
        fields_interned(dex, m, fs.take(k), vals, is_static) is Some,
        ref_field(dex, fs[k].field_idx) is Some,
        is_static && k < vals.len() ==> {
            let (c, n, t) = ref_field(dex, fs[k].field_idx)->0;
            value_interned(dex, add_field(fields_interned(dex, m, fs.take(k), vals, is_static)->0, c, n, t), vals[k]) is Some
        },
    decreases fs.len(),
{
    if k == fs.len() - 1 {
        assert(fs.drop_last() =~= fs.take(k));
    } else {
        assert(fs.drop_last().take(k) =~= fs.take(k));
        assert(fs.drop_last()[k] == fs[k]);
        lemma_fields_interned_each(dex, m, fs.drop_last(), vals, is_static, k);
    }
}

proof fn lemma_methods_harvested_each(dex: DexFile, table: Seq<OpcodeInfo>, m: BuilderModel, ms: Seq<EncodedMethod>, k: int)
    requires
        methods_harvested(dex, table, m, ms) is Some,
        0 <= k < ms.len(),
    ensures
        methods_harvested(dex, table, m, ms.take(k)) is Some,
        ref_method(dex, ms[k].method_idx) is Some,
        ms[k].code_off != 0 ==> {
            let (c, n, p) = ref_method(dex, ms[k].method_idx)->0;
            code_harvested(dex, table, add_method((methods_harvested(dex, table, m, ms.take(k))->0).0, c, n, p), ms[k].code_off) is Some
        },
    decreases ms.len(),
{
    if k == ms.len() - 1 {
        assert(ms.drop_last() =~= ms.take(k));
    } else {
        assert(ms.drop_last().take(k) =~= ms.take(k));
        assert(ms.drop_last()[k] == ms[k]);
        lemma_methods_harvested_each(dex, table, m, ms.drop_last(), k);
    }
}



/// One LEB128 read of the debug info: its value and the offset after it, or
/// `Truncated` naming `what`.
fn dbg_uleb(data: &[u8], off: usize, what: &str) -> (r: Result<(u32, usize)>)
    ensures
        r matches Ok((_, o)) ==> off < o <= data@.len(),
        r is Err ==> r->Err_0 is Truncated,
        match spec_read_uleb128(data@, off as int) {
            Some((v, n)) => r matches Ok((x, o)) && x == v && o == off + n,
            None => r is Err,
        },
{
    let l = data.len();
    match read_uleb128(data, off) {
        Some((v, n)) => Ok((v, off + n)),
        None => Err(truncated(what)),
    }
}

fn dbg_sleb(data: &[u8], off: usize, what: &str) -> (r: Result<(i32, usize)>)
    ensures
        r matches Ok((_, o)) ==> off < o <= data@.len(),
        r is Err ==> r->Err_0 is Truncated,
        match spec_read_sleb128(data@, off as int) {
            Some((v, n)) => r matches Ok((x, o)) && x == v && o == off + n,
            None => r is Err,
        },
{
    let l = data.len();
    match read_sleb128(data, off) {
        Some((v, n)) => Ok((v, off + n)),
        None => Err(truncated(what)),
    }
}

fn dbg_p1(data: &[u8], off: usize, what: &str) -> (r: Result<(i32, usize)>)
    ensures
        r matches Ok((_, o)) ==> off < o <= data@.len(),
        r is Err ==> r->Err_0 is Truncated,
        match spec_read_uleb128p1(data@, off as int) {
            Some((v, n)) => r matches Ok((x, o)) && x == v && o == off + n,
            None => r is Err,
        },
{
    let l = data.len();
    match read_uleb128p1(data, off) {
        Some((v, n)) => Ok((v, off + n)),
        None => Err(truncated(what)),
    }
}

impl DexSlicer {
    /// Intern the name that index `i` of the pool `kind` stands for.
    fn intern_name(&self, builder: &mut DexBuilder, kind: OpRef, i: u32) -> (r: Result<()>)
        requires
            kind is String || kind is Type || kind is Field || kind is Method || kind is MethodProto,
        ensures
            final(builder)@.classes == old(builder)@.classes,
            match name_interned(self.dex, old(builder)@, kind, i) {
                Some(m) => r is Ok && final(builder)@ == m,
                None => r matches Err(e) && (e is Truncated || e is Parse),
            },
    {
        match kind {
            OpRef::String => {
                let s = self.dex.get_string(i)?;
                builder.intern_string(s.as_str());
            },
            OpRef::Type => {
                let t = self.dex.get_type(i)?;
                builder.intern_type(t.as_str());
            },
            OpRef::Field => {
                let f = self.dex.get_field_info(i)?;
                builder.intern_field_ref(f.class.as_str(), f.name.as_str(), f.typ.as_str());
            },
            OpRef::Method => {
                let m = self.dex.get_method_info(i)?;
                let p = proto_str(&m);
                builder.intern_method_ref(m.class.as_str(), m.name.as_str(), p.as_str());
            },
            _ => {
                let (ret, params) = self.dex.get_proto(i)?;
                let p = proto_of(&params, ret.as_str());
                builder.intern_proto(p.as_str());
            },
        }
        Ok(())
    }

    /// Intern the names one encoded value refers to (recursively); `UnsupportedRef` for a
    /// method handle.
    fn intern_encoded_value(&self, builder: &mut DexBuilder, v: &EncodedValue) -> (r: Result<()>)
        ensures
            final(builder)@.classes == old(builder)@.classes,
            match value_interned(self.dex, old(builder)@, model(*v)) {
                Some(m) => r is Ok && final(builder)@ == m,
                None => r matches Err(e) && (e is Truncated || e is Parse || e is UnsupportedRef),
            },
        decreases *v, 0int,
    {
        match v {
            EncodedValue::String(i) => self.intern_name(builder, OpRef::String, *i)?,
            EncodedValue::Type(i) => self.intern_name(builder, OpRef::Type, *i)?,
            EncodedValue::MethodType(i) => self.intern_name(builder, OpRef::MethodProto, *i)?,
            EncodedValue::Field(i) | EncodedValue::Enum(i) => self.intern_name(builder, OpRef::Field, *i)?,
            EncodedValue::Method(i) => self.intern_name(builder, OpRef::Method, *i)?,
            EncodedValue::MethodHandle(_) => {
                return Err(DexError::UnsupportedRef);
            },
            EncodedValue::Array(arr) => {
                self.intern_values(builder, arr.as_slice())?;
            },
            EncodedValue::Annotation(a) => {
                self.intern_annotation(builder, a)?;
            },
            _ => {},
        }
        Ok(())
    }

    /// Intern the names each value of an array refers to.
    #[verifier::spinoff_prover]
    #[verifier::rlimit(60)]
    fn intern_values(&self, builder: &mut DexBuilder, values: &[EncodedValue]) -> (r: Result<()>)
        ensures
            final(builder)@.classes == old(builder)@.classes,
            match values_interned(self.dex, old(builder)@, models(values@)) {
                Some(m) => r is Ok && final(builder)@ == m,
                None => r matches Err(e) && (e is Truncated || e is Parse || e is UnsupportedRef),
            },
        decreases values@, 0int,
    {
        let ghost vm = models(values@);
        let ghost m0 = builder@;
        let mut k: usize = 0;
        assert(vm.take(0) =~= Seq::<ValueModel>::empty());
        while k < values.len()
            invariant
                k <= values@.len(),
                vm == models(values@),
                m0 == old(builder)@,
                builder@.classes == old(builder)@.classes,
                values_interned(self.dex, m0, vm.take(k as int)) == Some(builder@),
            decreases values@.len() - k,
        {
            proof {
                assert(vm[k as int] == model(values@[k as int]));
                assert(vm.take(k + 1).drop_last() =~= vm.take(k as int));
                assert(vm.take(k + 1)[k as int] == vm[k as int]);
            }
            match self.intern_encoded_value(builder, &values[k]) {
                Ok(()) => {},
                Err(e) => {
                    proof {
                        if values_interned(self.dex, m0, vm) is Some {
                            lemma_values_interned_each(self.dex, m0, vm, k as int);
                        }
                    }
                    return Err(e);
                },
            }
            k = k + 1;
        }
        assert(vm.take(k as int) =~= vm);
        Ok(())
    }

    /// Intern the type, element names and values of an annotation.
    #[verifier::spinoff_prover]
    #[verifier::rlimit(60)]
    fn intern_annotation(&self, builder: &mut DexBuilder, a: &EncodedAnnotation) -> (r: Result<()>)
        ensures
            final(builder)@.classes == old(builder)@.classes,
            match annotation_interned(self.dex, old(builder)@, annotation_model(*a)) {
                Some(m) => r is Ok && final(builder)@ == m,
                None => r matches Err(e) && (e is Truncated || e is Parse || e is UnsupportedRef),
            },
        decreases *a, 0int,
    {
        let ghost em = element_models(a.elements@);
        let t = self.dex.get_type(a.type_idx)?;
        builder.intern_type(t.as_str());
        let ghost m0 = builder@;
        let mut k: usize = 0;
        assert(em.take(0) =~= Seq::<(u32, ValueModel)>::empty());
        while k < a.elements.len()
            invariant
                k <= a.elements@.len(),
                em == element_models(a.elements@),
                m0 == add_type(old(builder)@, t@),
                self.dex.spec_type(a.type_idx) == Some(t@),
                builder@.classes == old(builder)@.classes,
                elements_interned(self.dex, m0, em.take(k as int)) == Some(builder@),
            decreases a.elements@.len() - k,
        {
            proof {
                assert(em[k as int] == (a.elements@[k as int].0, model(a.elements@[k as int].1)));
                assert(em.take(k + 1).drop_last() =~= em.take(k as int));
                assert(em.take(k + 1)[k as int] == em[k as int]);
            }
            let s = match self.dex.get_string(a.elements[k].0) {
                Ok(s) => s,
                Err(e) => {
                    proof {
                        if elements_interned(self.dex, m0, em) is Some {
                            lemma_elements_interned_each(self.dex, m0, em, k as int);
                        }
                    }
                    return Err(e);
                },
            };
            builder.intern_string(s.as_str());
            match self.intern_encoded_value(builder, &a.elements[k].1) {
                Ok(()) => {},
                Err(e) => {
                    proof {
                        if elements_interned(self.dex, m0, em) is Some {
                            lemma_elements_interned_each(self.dex, m0, em, k as int);
                        }
                    }
                    return Err(e);
                },
            }
            k = k + 1;
        }
        assert(em.take(k as int) =~= em);
        Ok(())
    }

    fn intern_annotation_set(&self, builder: &mut DexBuilder, set: &Vec<AnnotationItem>) -> (r: Result<()>)
        ensures
            final(builder)@.classes == old(builder)@.classes,
            match set_interned(self.dex, old(builder)@, set_model(set@)) {
                Some(m) => r is Ok && final(builder)@ == m,
                None => r matches Err(e) && (e is Truncated || e is Parse || e is UnsupportedRef),
            },
    {
        let ghost sm = set_model(set@);
        let ghost m0 = builder@;
        let mut k: usize = 0;
        assert(sm.take(0) =~= Seq::<ItemModel>::empty());
        while k < set.len()
            invariant
                k <= set@.len(),
                sm == set_model(set@),
                m0 == old(builder)@,
                builder@.classes == old(builder)@.classes,
                set_interned(self.dex, m0, sm.take(k as int)) == Some(builder@),
            decreases set@.len() - k,
        {
            proof {
                assert(sm[k as int] == item_model(set@[k as int]));
                assert(sm.take(k + 1).drop_last() =~= sm.take(k as int));
                assert(sm.take(k + 1).last() == sm[k as int]);
            }
            match self.intern_annotation(builder, &set[k].annotation) {
                Ok(()) => {},
                Err(e) => {
                    proof {
                        if set_interned(self.dex, m0, sm) is Some {
                            lemma_set_interned_each(self.dex, m0, sm, k as int);
                        }
                    }
                    return Err(e);
                },
            }
            k = k + 1;
        }
        assert(sm.take(k as int) =~= sm);
        Ok(())
    }

    /// Intern the names of each annotation set of `ss`.
    fn intern_sets(&self, builder: &mut DexBuilder, ss: &Vec<Vec<AnnotationItem>>) -> (r: Result<()>)
        ensures
            final(builder)@.classes == old(builder)@.classes,
            match sets_interned(self.dex, old(builder)@, sets_model(ss@)) {
                Some(m) => r is Ok && final(builder)@ == m,
                None => r matches Err(e) && (e is Truncated || e is Parse || e is UnsupportedRef),
            },
    {
        let ghost sm = sets_model(ss@);
        let ghost m0 = builder@;
        let mut k: usize = 0;
        assert(sm.take(0) =~= Seq::<Seq<ItemModel>>::empty());
        while k < ss.len()
            invariant
                k <= ss@.len(),
                sm == sets_model(ss@),
                m0 == old(builder)@,
                builder@.classes == old(builder)@.classes,
                sets_interned(self.dex, m0, sm.take(k as int)) == Some(builder@),
            decreases ss@.len() - k,
        {
            proof {
                assert(sm[k as int] == set_model(ss@[k as int]@));
                assert(sm.take(k + 1).drop_last() =~= sm.take(k as int));
                assert(sm.take(k + 1).last() == sm[k as int]);
            }
            match self.intern_annotation_set(builder, &ss[k]) {
                Ok(()) => {},
                Err(e) => {
                    proof {
                        if sets_interned(self.dex, m0, sm) is Some {
                            lemma_sets_interned_each(self.dex, m0, sm, k as int);
                        }
                    }
                    return Err(e);
                },
            }
            k = k + 1;
        }
        assert(sm.take(k as int) =~= sm);
        Ok(())
    }

    /// Intern the names of the annotation set of each entry of `es`.
    #[verifier::spinoff_prover]
    #[verifier::rlimit(60)]
    fn intern_keyed_sets(&self, builder: &mut DexBuilder, es: &Vec<(u32, Vec<AnnotationItem>)>) -> (r: Result<()>)
        ensures
            final(builder)@.classes == old(builder)@.classes,
            match keyed_sets_interned(self.dex, old(builder)@, entries_model(es@)) {
                Some(m) => r is Ok && final(builder)@ == m,
                None => r matches Err(e) && (e is Truncated || e is Parse || e is UnsupportedRef),
            },
    {
        let ghost em = entries_model(es@);
        let ghost m0 = builder@;
        let mut k: usize = 0;
        assert(em.take(0) =~= Seq::<(u32, Seq<ItemModel>)>::empty());
        while k < es.len()
            invariant
                k <= es@.len(),
                em == entries_model(es@),
                m0 == old(builder)@,
                builder@.classes == old(builder)@.classes,
                keyed_sets_interned(self.dex, m0, em.take(k as int)) == Some(builder@),
            decreases es@.len() - k,
        {
            proof {
                assert(em[k as int] == (es@[k as int].0, set_model(es@[k as int].1@)));
                assert(em.take(k + 1).drop_last() =~= em.take(k as int));
                assert(em.take(k + 1).last() == em[k as int]);
            }
            match self.intern_annotation_set(builder, &es[k].1) {
                Ok(()) => {},
                Err(e) => {
                    proof {
                        if keyed_sets_interned(self.dex, m0, em) is Some {
                            lemma_keyed_sets_interned_each(self.dex, m0, em, k as int);
                        }
                    }
                    return Err(e);
                },
            }
            k = k + 1;
        }
        assert(em.take(k as int) =~= em);
        Ok(())
    }

    /// Intern the names of the parameter annotation sets of each entry of `es`.
    #[verifier::spinoff_prover]
    #[verifier::rlimit(60)]
    fn intern_param_sets(&self, builder: &mut DexBuilder, es: &Vec<(u32, Vec<Vec<AnnotationItem>>)>) -> (r: Result<()>)
        ensures
            final(builder)@.classes == old(builder)@.classes,
            match param_sets_interned(self.dex, old(builder)@, param_entries_model(es@)) {
                Some(m) => r is Ok && final(builder)@ == m,
                None => r matches Err(e) && (e is Truncated || e is Parse || e is UnsupportedRef),
            },
    {
        let ghost em = param_entries_model(es@);
        let ghost m0 = builder@;
        let mut k: usize = 0;
        assert(em.take(0) =~= Seq::<(u32, Seq<Seq<ItemModel>>)>::empty());
        while k < es.len()
            invariant
                k <= es@.len(),
                em == param_entries_model(es@),
                m0 == old(builder)@,
                builder@.classes == old(builder)@.classes,
                param_sets_interned(self.dex, m0, em.take(k as int)) == Some(builder@),
            decreases es@.len() - k,
        {
            proof {
                assert(em[k as int] == (es@[k as int].0, sets_model(es@[k as int].1@)));
                assert(em.take(k + 1).drop_last() =~= em.take(k as int));
                assert(em.take(k + 1).last() == em[k as int]);
            }
            match self.intern_sets(builder, &es[k].1) {
                Ok(()) => {},
                Err(e) => {
                    proof {
                        if param_sets_interned(self.dex, m0, em) is Some {
                            lemma_param_sets_interned_each(self.dex, m0, em, k as int);
                        }
                    }
                    return Err(e);
                },
            }
            k = k + 1;
        }
        assert(em.take(k as int) =~= em);
        Ok(())
    }

    /// Intern everything the annotations of a class refer to.
    fn intern_annotations(&self, builder: &mut DexBuilder, ann: &AnnotationsDirectory) -> (r: Result<()>)
        ensures
            final(builder)@.classes == old(builder)@.classes,
            match directory_interned(self.dex, old(builder)@, directory_model(*ann)) {
                Some(m) => r is Ok && final(builder)@ == m,
                None => r matches Err(e) && (e is Truncated || e is Parse || e is UnsupportedRef),
            },
    {
        self.intern_annotation_set(builder, &ann.class_annotations)?;
        self.intern_keyed_sets(builder, &ann.field_annotations)?;
        self.intern_keyed_sets(builder, &ann.method_annotations)?;
        self.intern_param_sets(builder, &ann.parameter_annotations)?;
        Ok(())
    }

    /// Intern what the instruction at `pc` refers to, by its opcode's reference kind.
    #[verifier::spinoff_prover]
    #[verifier::rlimit(60)]
    fn intern_insn_ref(&self, builder: &mut DexBuilder, insns: &Vec<u8>, pc: usize, info: OpcodeInfo) -> (r: Result<()>)
        requires
            info.width > 0,
            pc + info.width <= insns@.len(),
        ensures
            final(builder)@.classes == old(builder)@.classes,
            match insn_interned(self.dex, old(builder)@, info, insns@, pc as int) {
                Some(m) => r is Ok && final(builder)@ == m,
                None => r matches Err(e) && (e is Truncated || e is Parse || e is UnsupportedRef),
            },
    {
        match info.ref_kind {
            OpRef::CallSite | OpRef::Varies => {
                return Err(DexError::UnsupportedRef);
            },
            OpRef::NoRef => {
                return Ok(());
            },
            _ => {},
        }
        let l = insns.len();
        let idx = read_ref_idx(insns.as_slice(), pc, info.wide_index)?;
        self.intern_name(builder, info.ref_kind, idx)?;
        if matches!(info.ref_kind, OpRef::Method) && info.proto_operand && info.width >= 8 {
            let proto_idx = le16(insns.as_slice(), pc + 6) as u32;
            self.intern_name(builder, OpRef::MethodProto, proto_idx)?;
        }
        Ok(())
    }

    /// Intern everything the instructions refer to, skipping payloads.
    #[verifier::spinoff_prover]
    #[verifier::rlimit(60)]
    fn collect_insn_refs(&self, builder: &mut DexBuilder, insns: &Vec<u8>) -> (r: Result<()>)
        ensures
            final(builder)@.classes == old(builder)@.classes,
            match insns_interned_from(self.dex, self.opcodes@, old(builder)@, insns@, 0) {
                Some(m) => r is Ok && final(builder)@ == m,
                None => r matches Err(e) && (e is Truncated || e is Parse || e is UnsupportedRef),
            },
    {
        let len = insns.len();
        let mut pc: usize = 0;
        while len - pc >= 2
            invariant
                pc <= len == insns@.len(),
                builder@.classes == old(builder)@.classes,
                insns_interned_from(self.dex, self.opcodes@, old(builder)@, insns@, 0) == insns_interned_from(
                    self.dex,
                    self.opcodes@,
                    builder@,
                    insns@,
                    pc as int,
                ),
            decreases len - pc,
        {
            if is_payload(insns.as_slice(), pc) {
                let n = match payload_len(insns.as_slice(), pc) {
                    Ok(n) => n,
                    Err(e) => {
                        assert(insns_interned_from(self.dex, self.opcodes@, builder@, insns@, pc as int) is None);
                        return Err(e);
                    },
                };
                if n == 0 {
                    assert(insns_interned_from(self.dex, self.opcodes@, builder@, insns@, pc as int) == Some(builder@));
                    return Ok(());
                }
                pc = step(pc, n as u64, len);
                continue;
            }
            let info = self.opcode(insns[pc]);
            if info.width == 0 {
                pc = step(pc, 2, len);
                continue;
            }
            if info.width as u64 > (len - pc) as u64 {
                assert(insns_interned_from(self.dex, self.opcodes@, builder@, insns@, pc as int) == Some(builder@));
                return Ok(());
            }
            match self.intern_insn_ref(builder, insns, pc, info) {
                Ok(()) => {},
                Err(e) => {
                    return Err(e);
                },
            }
            pc = step(pc, info.width as u64, len);
        }
        Ok(())
    }
}

impl DexSlicer {
    /// Read the debug info of `code`, interning the names it uses; `None` when it has none.
    fn harvest_debug(&self, builder: &mut DexBuilder, code: &CodeItem) -> (r: Result<Option<DebugDraft>>)
        ensures
            final(builder)@.classes == old(builder)@.classes,
            match debug_harvest(self.dex, old(builder)@, *code) {
                Some((m, d)) => r matches Ok(x) && final(builder)@ == m && draft_is(x, d),
                None => r matches Err(e) && (e is Truncated || e is Parse),
            },
    {
        if code.debug_info_off == 0 {
            return Ok(None);
        }
        let data = self.dex.data.as_slice();
        let off = code.debug_info_off as usize;
        let (line_start, o) = dbg_uleb(data, off, "debug line_start")?;
        let (parameters_size, o) = dbg_uleb(data, o, "debug parameters_size")?;
        let (params, o) = self.harvest_debug_params(builder, data, o, parameters_size)?;
        let locals = self.harvest_debug_ops(builder, data, o)?;
        Ok(Some(DebugDraft { line_start, params, locals }))
    }

    /// The `count` parameter names of a debug info item from `off`, each interned; where
    /// they end.
    #[verifier::spinoff_prover]
    #[verifier::rlimit(60)]
    fn harvest_debug_params(&self, builder: &mut DexBuilder, data: &[u8], off: usize, count: u32) -> (r: Result<
        (Vec<Option<String>>, usize),
    >)
        requires
            data@ == self.dex.data@,
        ensures
            final(builder)@.classes == old(builder)@.classes,
            match debug_params_scan(self.dex, data@, off as int, count as nat, old(builder)@, Seq::empty()) {
                Some((m, ps, end)) => r matches Ok((x, o)) && final(builder)@ == m && opt_names(x@) == ps && o == end,
                None => r matches Err(e) && (e is Truncated || e is Parse),
            },
    {
        let mut params: Vec<Option<String>> = Vec::new();
        let mut pos = off;
        let mut k: u32 = 0;
        assert(opt_names(params@) =~= Seq::<Option<Seq<char>>>::empty());
        while k < count
            invariant
                k <= count,
                data@ == self.dex.data@,
                builder@.classes == old(builder)@.classes,
                debug_params_scan(self.dex, data@, off as int, count as nat, old(builder)@, Seq::empty())
                    == debug_params_scan(self.dex, data@, pos as int, (count - k) as nat, builder@, opt_names(params@)),
            decreases count - k,
        {
            let (p1, o) = dbg_p1(data, pos, "debug param")?;
            let ghost before = params@;
            if p1 >= 0 {
                let s = self.dex.get_string(p1 as u32)?;
                builder.intern_string(s.as_str());
                let ghost t = s@;
                params.push(Some(s));
                assert(opt_names(params@) =~= opt_names(before).push(Some(t)));
            } else {
                params.push(None);
                assert(opt_names(params@) =~= opt_names(before).push(None));
            }
            pos = o;
            k = k + 1;
        }
        Ok((params, pos))
    }

    /// String `p` (a uleb128p1 value) of the source interned, when `p` names one.
    fn intern_opt_string(&self, builder: &mut DexBuilder, p: i32) -> (r: Result<Option<String>>)
        ensures
            final(builder)@.classes == old(builder)@.classes,
            match opt_string_interned(self.dex, old(builder)@, p) {
                Some(m) => r matches Ok(x) && final(builder)@ == m && (if p >= 0 {
                    x matches Some(t) && self.dex.spec_string(p as u32) == Some(t@)
                } else {
                    x is None
                }),
                None => r matches Err(e) && (e is Truncated || e is Parse),
            },
    {
        if p >= 0 {
            let s = self.dex.get_string(p as u32)?;
            builder.intern_string(s.as_str());
            Ok(Some(s))
        } else {
            Ok(None)
        }
    }

    /// The local-start directive at `o`: register, name, type and (`with_sig`) signature,
    /// the names interned and the local added to `locals` when it has name and type; where
    /// it ends.
    #[verifier::spinoff_prover]
    #[verifier::rlimit(60)]
    fn harvest_local(
        &self,
        builder: &mut DexBuilder,
        data: &[u8],
        o: usize,
        with_sig: bool,
        locals: &mut Vec<(u32, String, String)>,
    ) -> (r: Result<usize>)
        requires
            data@ == self.dex.data@,
        ensures
            final(builder)@.classes == old(builder)@.classes,
            r matches Ok(end) ==> o < end <= data@.len(),
            match debug_local_scan(self.dex, data@, o as int, with_sig, old(builder)@, local_names(old(locals)@)) {
                Some((m, ls, end)) => r matches Ok(x) && x == end && final(builder)@ == m && local_names(
                    final(locals)@,
                ) == ls,
                None => r matches Err(e) && (e is Truncated || e is Parse),
            },
    {
        let (reg, o1) = dbg_uleb(data, o, "dbg reg")?;
        let (name_p1, o2) = dbg_p1(data, o1, "dbg name")?;
        let (type_p1, o3) = dbg_p1(data, o2, "dbg type")?;
        let mut end = o3;
        if with_sig {
            let (sig_p1, o4) = dbg_p1(data, o3, "dbg sig")?;
            end = o4;
            self.intern_opt_string(builder, sig_p1)?;
        }
        let name_s = self.intern_opt_string(builder, name_p1)?;
        let type_s = if type_p1 >= 0 {
            let t = self.dex.get_type(type_p1 as u32)?;
            builder.intern_type(t.as_str());
            Some(t)
        } else {
            None
        };
        let ghost before = locals@;
        match (name_s, type_s) {
            (Some(n), Some(t)) => {
                let ghost nv = n@;
                let ghost tv = t@;
                locals.push((reg, n, t));
                assert(local_names(locals@) =~= local_names(before).push((reg, nv, tv)));
            },
            _ => {},
        }
        Ok(end)
    }

    /// The directives of a debug info item from `off` to its end, the names they use
    /// interned; the locals started with both a name and a type.
    #[verifier::spinoff_prover]
    #[verifier::rlimit(60)]
    fn harvest_debug_ops(&self, builder: &mut DexBuilder, data: &[u8], off: usize) -> (r: Result<Vec<(u32, String, String)>>)
        requires
            data@ == self.dex.data@,
        ensures
            final(builder)@.classes == old(builder)@.classes,
            match debug_ops_scan(self.dex, data@, off as int, old(builder)@, Seq::empty()) {
                Some((m, ls)) => r matches Ok(x) && final(builder)@ == m && local_names(x@) == ls,
                None => r matches Err(e) && (e is Truncated || e is Parse),
            },
    {
        let mut locals: Vec<(u32, String, String)> = Vec::new();
        let mut pos = off;
        assert(local_names(locals@) =~= Seq::<(u32, Seq<char>, Seq<char>)>::empty());
        while pos < data.len()
            invariant
                data@ == self.dex.data@,
                builder@.classes == old(builder)@.classes,
                debug_ops_scan(self.dex, data@, off as int, old(builder)@, Seq::empty()) == debug_ops_scan(
                    self.dex,
                    data@,
                    pos as int,
                    builder@,
                    local_names(locals@),
                ),
            decreases data@.len() - pos,
        {
            let opcode = data[pos];
            let o = pos + 1;
            if opcode == 0x00 {
                return Ok(locals);
            } else if opcode == 0x01 || opcode == 0x05 || opcode == 0x06 {
                let (_, o1) = dbg_uleb(data, o, "dbg advance")?;
                pos = o1;
            } else if opcode == 0x02 {
                let (_, o1) = dbg_sleb(data, o, "dbg line")?;
                pos = o1;
            } else if opcode == 0x03 || opcode == 0x04 {
                let o1 = self.harvest_local(builder, data, o, opcode == 0x04, &mut locals)?;
                pos = o1;
            } else if opcode == 0x09 {
                let (p1, o1) = dbg_p1(data, o, "dbg file")?;
                self.intern_opt_string(builder, p1)?;
                pos = o1;
            } else {
                pos = o;
            }
        }
        Ok(locals)
    }

    /// Intern the catch types of the handlers `hs`; the typed handlers with type index 0,
    /// and the last catch-all.
    fn harvest_handlers(&self, builder: &mut DexBuilder, hs: &Vec<(Option<u32>, u32)>) -> (r: Result<
        (Vec<(u32, u32)>, Option<u32>),
    >)
        ensures
            final(builder)@.classes == old(builder)@.classes,
            match handlers_interned(self.dex, old(builder)@, hs@) {
                Some(m) => r matches Ok((typed, ca)) && final(builder)@ == m && (typed@, ca) == handler_shape(hs@),
                None => r matches Err(e) && (e is Truncated || e is Parse),
            },
    {
        let mut typed: Vec<(u32, u32)> = Vec::new();
        let mut catch_all: Option<u32> = None;
        let mut j: usize = 0;
        assert(hs@.take(0) =~= Seq::<(Option<u32>, u32)>::empty());
        while j < hs.len()
            invariant
                j <= hs@.len(),
                builder@.classes == old(builder)@.classes,
                handlers_interned(self.dex, old(builder)@, hs@.take(j as int)) == Some(builder@),
                handler_shape(hs@.take(j as int)) == (typed@, catch_all),
            decreases hs@.len() - j,
        {
            assert(hs@.take(j + 1).drop_last() =~= hs@.take(j as int));
            assert(hs@.take(j + 1).last() == hs@[j as int]);
            let (ty, addr) = hs[j];
            match ty {
                Some(tidx) => {
                    let d = match self.dex.get_type(tidx) {
                        Ok(d) => d,
                        Err(e) => {
                            proof {
                                if handlers_interned(self.dex, old(builder)@, hs@) is Some {
                                    lemma_handlers_interned_each(self.dex, old(builder)@, hs@, j as int);
                                }
                            }
                            return Err(e);
                        },
                    };
                    builder.intern_type(d.as_str());
                    typed.push((0u32, addr));
                },
                None => {
                    catch_all = Some(addr);
                },
            }
            j = j + 1;
        }
        assert(hs@.take(j as int) =~= hs@);
        Ok((typed, catch_all))
    }

    /// Intern the catch types of the try items `tries_raw` of `code`; the try items copied.
    #[verifier::rlimit(30)]
    fn harvest_tries(&self, builder: &mut DexBuilder, code: &CodeItem, code_off: u32, tries_raw: &Vec<TryItem>) -> (r: Result<
        Vec<BuiltTry>,
    >)
        requires
            *code == code_item_at(self.dex.data@, code_off),
            tries_raw@.len() == code.tries_size,
            forall|i: int|
                0 <= i < tries_raw@.len() ==> try_matches(#[trigger] tries_raw@[i], spec_try_item(*code, self.dex.data@, i)->0),
        ensures
            final(builder)@.classes == old(builder)@.classes,
            match tries_interned(self.dex, old(builder)@, *code, code.tries_size as nat) {
                Some(m) => r matches Ok(v) && final(builder)@ == m && v@.len() == code.tries_size && forall|i: int|
                    0 <= i < code.tries_size ==> try_copied(spec_try_item(*code, self.dex.data@, i)->0, #[trigger] v@[i]),
                None => r matches Err(e) && (e is Truncated || e is Parse),
            },
    {
        let ghost c = *code;
        let data = self.dex.data.as_slice();
        let ghost m1 = builder@;
        let mut tries: Vec<BuiltTry> = Vec::new();
        let mut k: usize = 0;
        while k < tries_raw.len()
            invariant
                k <= tries_raw@.len() == c.tries_size,
                c == code_item_at(self.dex.data@, code_off),
                data@ == self.dex.data@,
                tries@.len() == k,
                builder@.classes == old(builder)@.classes,
                forall|i: int| 0 <= i < tries_raw@.len() ==> try_matches(#[trigger] tries_raw@[i], spec_try_item(c, data@, i)->0),
                m1 == old(builder)@,
                c == *code,
                tries_interned(self.dex, m1, c, k as nat) == Some(builder@),
                forall|i: int| 0 <= i < k ==> try_copied(spec_try_item(c, self.dex.data@, i)->0, #[trigger] tries@[i]),
            decreases tries_raw@.len() - k,
        {
            let t = &tries_raw[k];
            let ghost hs = t.handlers@;
            let ghost mk = builder@;
            assert(try_matches(tries_raw@[k as int], spec_try_item(c, data@, k as int)->0));
            assert(hs == (spec_try_item(c, self.dex.data@, k as int)->0).2);
            assert(tries_interned(self.dex, m1, c, k as nat) == Some(mk));
            let (typed, catch_all) = match self.harvest_handlers(builder, &t.handlers) {
                Ok(x) => x,
                Err(e) => {
                    proof {
                        assert(handlers_interned(self.dex, mk, hs) is None);
                        if tries_interned(self.dex, m1, c, c.tries_size as nat) is Some {
                            lemma_tries_interned_each(self.dex, m1, c, c.tries_size as nat, k as nat);
                        }
                    }
                    return Err(e);
                },
            };
            tries.push(BuiltTry { start_unit: t.start_unit, insn_count: t.insn_count, handlers: typed, catch_all });
            k = k + 1;
        }
        assert(tries_interned(self.dex, m1, c, k as nat) == Some(builder@));
        Ok(tries)
    }

    /// Copy the method body at `code_off`, interning everything it refers to. Typed
    /// handlers keep type index 0 until the new pools are known.
    #[verifier::spinoff_prover]
    #[verifier::rlimit(60)]
    fn harvest_code(&self, builder: &mut DexBuilder, code_off: u32) -> (r: Result<(BuiltCode, Option<DebugDraft>)>)
        ensures
            final(builder)@.classes == old(builder)@.classes,
            match code_harvested(self.dex, self.opcodes@, old(builder)@, code_off) {
                Some((m, d)) => r matches Ok((b, x)) && final(builder)@ == m && code_copied(self.dex, code_off, b)
                    && draft_is(x, d),
                None => r matches Err(e) && (e is Truncated || e is Parse || e is UnsupportedRef),
            },
    {
        let code = self.dex.get_code_item(code_off)?;
        let data = self.dex.data.as_slice();
        let insns = vstd::slice::slice_to_vec(code.insns_slice(data));
        assert(insns@ == code_insns(data@, code));
        self.collect_insn_refs(builder, &insns)?;
        if (code.insns_off as u128) + 2 * (code.insns_size as u128) + 8 * (code.tries_size as u128) + 0x2_0000
            >= usize::MAX as u128 {
            return Err(truncated("tries"));
        }
        let tries_raw = code.tries(data)?;
        let tries = self.harvest_tries(builder, &code, code_off, &tries_raw)?;
        let draft = self.harvest_debug(builder, &code)?;
        Ok(
            (
                BuiltCode {
                    registers_size: code.registers_size,
                    ins_size: code.ins_size,
                    outs_size: code.outs_size,
                    insns,
                    tries,
                    debug_info_off: 0,
                    debug_ops: Vec::new(),
                },
                draft,
            ),
        )
    }

    /// Copy the fields of one list, interning their references; static ones take their
    /// initial values, in order, from the front of `values`.
    #[verifier::spinoff_prover]
    #[verifier::rlimit(80)]
    fn harvest_fields(
        &self,
        builder: &mut DexBuilder,
        fs: &Vec<EncodedField>,
        values: &mut Vec<EncodedValue>,
        is_static: bool,
    ) -> (r: Result<Vec<BuiltField>>)
        ensures
            final(builder)@.classes == old(builder)@.classes,
            match fields_interned(self.dex, old(builder)@, fs@, models(old(values)@), is_static) {
                Some(m) => r matches Ok(out) && final(builder)@ == m && out@.len() == fs@.len() && (forall|k: int|
                    0 <= k < fs@.len() ==> field_copied(
                        self.dex,
                        fs@[k],
                        #[trigger] out@[k],
                        is_static,
                        taken_value(old(values)@, is_static, k),
                    )) && final(values)@ == values_left(old(values)@, is_static, fs@.len() as int),
                None => r matches Err(e) && (e is Truncated || e is Parse || e is UnsupportedRef),
            },
    {
        let ghost orig = values@;
        let ghost vm = models(values@);
        let mut out: Vec<BuiltField> = Vec::new();
        let mut k: usize = 0;
        assert(fs@.take(0) =~= Seq::<EncodedField>::empty());
        assert(orig.skip(0) =~= orig);
        while k < fs.len()
            invariant
                k <= fs@.len(),
                orig == old(values)@,
                vm == models(orig),
                out@.len() == k,
                builder@.classes == old(builder)@.classes,
                fields_interned(self.dex, old(builder)@, fs@.take(k as int), vm, is_static) == Some(builder@),
                values@ == values_left(orig, is_static, k as int),
                forall|j: int| 0 <= j < k ==> field_copied(self.dex, fs@[j], #[trigger] out@[j], is_static, taken_value(orig, is_static, j)),
            decreases fs@.len() - k,
        {
            assert(fs@.take(k + 1).drop_last() =~= fs@.take(k as int));
            assert(fs@.take(k + 1)[k as int] == fs@[k as int]);
            let f = fs[k];
            let info = match self.dex.get_field_info(f.field_idx) {
                Ok(i) => i,
                Err(e) => {
                    proof {
                        if fields_interned(self.dex, old(builder)@, fs@, vm, is_static) is Some {
                            lemma_fields_interned_each(self.dex, old(builder)@, fs@, vm, is_static, k as int);
                        }
                    }
                    return Err(e);
                },
            };
            builder.intern_field_ref(info.class.as_str(), info.name.as_str(), info.typ.as_str());
            let sv = if is_static && values.len() > 0 {
                assert(values@[0] == orig[k as int]);
                let v = values.remove(0);
                assert(values@ =~= values_left(orig, is_static, k + 1));
                Some(v)
            } else {
                assert(values@ =~= values_left(orig, is_static, k + 1));
                None
            };
            assert(sv == taken_value(orig, is_static, k as int));
            match &sv {
                Some(v) => {
                    assert(vm[k as int] == model(*v));
                    match self.intern_encoded_value(builder, v) {
                        Ok(()) => {},
                        Err(e) => {
                            proof {
                                if fields_interned(self.dex, old(builder)@, fs@, vm, is_static) is Some {
                                    lemma_fields_interned_each(self.dex, old(builder)@, fs@, vm, is_static, k as int);
                                }
                            }
                            return Err(e);
                        },
                    }
                },
                None => {},
            }
            out.push(
                BuiltField {
                    class: info.class,
                    name: info.name,
                    typ: info.typ,
                    access_flags: f.access_flags,
                    static_field: is_static,
                    static_value: sv,
                },
            );
            k = k + 1;
        }
        assert(fs@.take(k as int) =~= fs@);
        Ok(out)
    }

    /// Copy the methods of one list with their bodies, interning their references; the
    /// debug drafts of the bodies are appended to `drafts`.
    #[verifier::spinoff_prover]
    #[verifier::rlimit(60)]
    fn harvest_methods(
        &self,
        builder: &mut DexBuilder,
        ms: &Vec<EncodedMethod>,
        direct: bool,
        drafts: &mut Vec<Option<DebugDraft>>,
    ) -> (r: Result<Vec<BuiltMethod>>)
        ensures
            final(builder)@.classes == old(builder)@.classes,
            match methods_harvested(self.dex, self.opcodes@, old(builder)@, ms@) {
                Some((m, ds)) => r matches Ok(out) && final(builder)@ == m && out@.len() == ms@.len() && (forall|k: int|
                    0 <= k < ms@.len() ==> method_copied(self.dex, ms@[k], #[trigger] out@[k], direct))
                    && final(drafts)@.len() == old(drafts)@.len() + ms@.len() && (forall|j: int|
                    0 <= j < old(drafts)@.len() ==> #[trigger] final(drafts)@[j] == old(drafts)@[j]) && (forall|k: int|
                    0 <= k < ms@.len() ==> draft_is(#[trigger] final(drafts)@[old(drafts)@.len() + k], ds[k])),
                None => r matches Err(e) && (e is Truncated || e is Parse || e is UnsupportedRef),
            },
    {
        let ghost d0 = drafts@;
        let mut out: Vec<BuiltMethod> = Vec::new();
        let mut k: usize = 0;
        assert(ms@.take(0) =~= Seq::<EncodedMethod>::empty());
        while k < ms.len()
            invariant
                k <= ms@.len(),
                d0 == old(drafts)@,
                out@.len() == k,
                drafts@.len() == d0.len() + k,
                builder@.classes == old(builder)@.classes,
                methods_harvested(self.dex, self.opcodes@, old(builder)@, ms@.take(k as int)) matches Some((bm, ds)) && bm
                    == builder@ && ds.len() == k && (forall|j: int|
                    0 <= j < k ==> draft_is(#[trigger] drafts@[d0.len() + j], ds[j])),
                forall|j: int| 0 <= j < d0.len() ==> #[trigger] drafts@[j] == d0[j],
                forall|j: int| 0 <= j < k ==> method_copied(self.dex, ms@[j], #[trigger] out@[j], direct),
            decreases ms@.len() - k,
        {
            assert(ms@.take(k + 1).drop_last() =~= ms@.take(k as int));
            assert(ms@.take(k + 1).last() == ms@[k as int]);
            let ghost prev = methods_harvested(self.dex, self.opcodes@, old(builder)@, ms@.take(k as int))->0;
            let m = ms[k];
            let info = match self.dex.get_method_info(m.method_idx) {
                Ok(i) => i,
                Err(e) => {
                    proof {
                        if methods_harvested(self.dex, self.opcodes@, old(builder)@, ms@) is Some {
                            lemma_methods_harvested_each(self.dex, self.opcodes@, old(builder)@, ms@, k as int);
                        }
                    }
                    return Err(e);
                },
            };
            let proto = proto_str(&info);
            builder.intern_method_ref(info.class.as_str(), info.name.as_str(), proto.as_str());
            let ghost before = drafts@;
            let code = if m.code_off != 0 {
                let (c, d) = match self.harvest_code(builder, m.code_off) {
                    Ok(x) => x,
                    Err(e) => {
                        proof {
                            if methods_harvested(self.dex, self.opcodes@, old(builder)@, ms@) is Some {
                                lemma_methods_harvested_each(self.dex, self.opcodes@, old(builder)@, ms@, k as int);
                            }
                        }
                        return Err(e);
                    },
                };
                drafts.push(d);
                Some(c)
            } else {
                drafts.push(None);
                None
            };
            proof {
                let ds2 = (methods_harvested(self.dex, self.opcodes@, old(builder)@, ms@.take(k + 1))->0).1;
                assert(ds2 == prev.1.push(ds2.last()));
                assert forall|j: int| 0 <= j < k + 1 implies draft_is(#[trigger] drafts@[d0.len() + j], ds2[j]) by {
                    if j < k {
                        assert(drafts@[d0.len() + j] == before[d0.len() + j]);
                    }
                }
                assert forall|j: int| 0 <= j < d0.len() implies #[trigger] drafts@[j] == d0[j] by {
                    assert(drafts@[j] == before[j]);
                }
            }
            out.push(BuiltMethod { class: info.class, name: info.name, proto, access_flags: m.access_flags, code, direct });
            k = k + 1;
        }
        assert(ms@.take(k as int) =~= ms@);
        Ok(out)
    }

    /// Read the name, superclass, interfaces and source file of the class, interning
    /// each name.
    fn harvest_head(&self, class_def: &ClassDef, builder: &mut DexBuilder) -> (r: Result<
        (String, Option<String>, Vec<String>, Option<String>),
    >)
        ensures
            match head_harvest(self.dex, old(builder)@, *class_def) {
                Some(m) => r is Ok && final(builder)@ == m,
                None => r is Err && (r->Err_0 is Truncated || r->Err_0 is Parse),
            },
            final(builder)@.classes == old(builder)@.classes,
            r matches Ok((d, sup, ifs, src)) ==> {
                &&& self.dex.spec_type(class_def.class_idx) == Some(d@)
                &&& (if class_def.superclass_idx == NO_INDEX {
                    sup is None
                } else {
                    sup matches Some(s) && self.dex.spec_type(class_def.superclass_idx) == Some(s@)
                })
                &&& self.dex.spec_type_list(class_def.interfaces_off) == Some(names(ifs@))
                &&& (if class_def.source_file_idx == NO_INDEX {
                    src is None
                } else {
                    src matches Some(s) && self.dex.spec_string(class_def.source_file_idx) == Some(s@)
                })
            },
    {
        let ghost m0 = builder@;
        let descriptor = self.dex.get_type(class_def.class_idx)?;
        builder.intern_type(descriptor.as_str());
        let superclass = if class_def.superclass_idx == NO_INDEX {
            None
        } else {
            let s = self.dex.get_type(class_def.superclass_idx)?;
            builder.intern_type(s.as_str());
            Some(s)
        };
        let ghost m2 = builder@;
        let interfaces = self.dex.get_interfaces(class_def)?;
        let mut k: usize = 0;
        while k < interfaces.len()
            invariant
                k <= interfaces@.len(),
                builder@ == add_types(m2, names(interfaces@).take(k as int)),
                m2.classes == m0.classes,
            decreases interfaces@.len() - k,
        {
            proof {
                lemma_add_types_classes(m2, names(interfaces@).take(k as int));
                assert(names(interfaces@).take(k + 1).drop_last() =~= names(interfaces@).take(k as int));
            }
            builder.intern_type(interfaces[k].as_str());
            k = k + 1;
        }
        assert(names(interfaces@).take(k as int) =~= names(interfaces@));
        proof {
            lemma_add_types_classes(m2, names(interfaces@));
        }
        let source_file = if class_def.source_file_idx == NO_INDEX {
            None
        } else {
            let s = self.dex.get_string(class_def.source_file_idx)?;
            builder.intern_string(s.as_str());
            Some(s)
        };
        Ok((descriptor, superclass, interfaces, source_file))
    }

    /// Copy the class, interning every name it uses; the debug drafts of its methods
    /// (direct, then virtual) come alongside.
    #[verifier::spinoff_prover]
    #[verifier::rlimit(80)]
    fn harvest(&self, class_def: &ClassDef, builder: &mut DexBuilder) -> (r: Result<(BuiltClass, Vec<Option<DebugDraft>>)>)
        ensures
            final(builder)@.classes == old(builder)@.classes,
            r matches Ok((c, ds)) ==> class_copied(self.dex, *class_def, c) && ds@.len() == c.direct_methods@.len()
                + c.virtual_methods@.len(),
            match class_harvest(self.dex, self.opcodes@, old(builder)@, *class_def) {
                Some(m) => r is Ok && final(builder)@ == m,
                None => r is Err,
            },
    {
        reveal(class_copied);
        let ghost table = self.opcodes@;
        let (descriptor, superclass, interfaces, source_file) = self.harvest_head(class_def, builder)?;
        let ghost m4 = builder@;
        let mut static_values = self.dex.get_static_values(class_def)?;
        let ghost vraw = static_values@;
        proof {
            assert(models(Seq::<EncodedValue>::empty()) =~= Seq::<ValueModel>::empty());
            if class_def.static_values_off == 0 {
                assert(vraw =~= Seq::<EncodedValue>::empty());
            }
            assert(static_models(self.dex, *class_def) == Some(models(vraw)));
        }
        let cdata = self.dex.get_class_data(class_def)?;
        let mut drafts: Vec<Option<DebugDraft>> = Vec::new();
        let ghost m8: BuilderModel;
        let (static_fields, instance_fields, direct_methods, virtual_methods) = match &cdata {
            Some(cd) => {
                let sf = self.harvest_fields(builder, &cd.static_fields, &mut static_values, true)?;
                proof {
                    let n = cd.static_fields@.len() as int;
                    let k = if n <= vraw.len() { n } else { vraw.len() as int };
                    lemma_models_skip(vraw, k);
                }
                let inf = self.harvest_fields(builder, &cd.instance_fields, &mut static_values, false)?;
                let dm = self.harvest_methods(builder, &cd.direct_methods, true, &mut drafts)?;
                let vm = self.harvest_methods(builder, &cd.virtual_methods, false, &mut drafts)?;
                proof {
                    m8 = builder@;
                }
                (sf, inf, dm, vm)
            },
            None => {
                proof {
                    m8 = builder@;
                    assert(class_members(self.dex, *class_def) == Some(
                        (
                            Seq::<EncodedField>::empty(),
                            Seq::<EncodedField>::empty(),
                            Seq::<EncodedMethod>::empty(),
                            Seq::<EncodedMethod>::empty(),
                        ),
                    ));
                    assert(fields_interned(self.dex, m4, Seq::empty(), models(vraw), true) == Some(m4));
                    assert(fields_interned(self.dex, m4, Seq::empty(), models(vraw).skip(0), false) == Some(m4));
                    assert(methods_harvested(self.dex, table, m4, Seq::empty()) matches Some((x, _)) && x == m4);
                }
                (Vec::new(), Vec::new(), Vec::new(), Vec::new())
            },
        };
        let ann = self.dex.get_annotations(class_def)?;
        self.intern_annotations(builder, &ann)?;
        Ok(
            (
                BuiltClass {
                    descriptor,
                    access_flags: class_def.access_flags,
                    superclass,
                    interfaces,
                    source_file,
                    static_fields,
                    instance_fields,
                    direct_methods,
                    virtual_methods,
                    annotations: ann,
                },
                drafts,
            ),
        )
    }
}

/// The debug info of a draft, with names resolved to the new pools.
#[verifier::spinoff_prover]
#[verifier::rlimit(60)]
fn rebuild_debug(draft: &DebugDraft, maps: &PoolMaps) -> (r: Result<Vec<u8>>)
    ensures
        match rebuilt_debug(*draft, *maps) {
            Some(b) => r matches Ok(v) && v@ == b,
            None => r matches Err(e) && e is Parse,
        },
{
    let mut param_idxs: Vec<Option<u32>> = Vec::new();
    let mut k: usize = 0;
    assert(draft.params@.take(0) =~= Seq::<Option<String>>::empty());
    while k < draft.params.len()
        invariant
            k <= draft.params@.len(),
            draft_param_ids(*maps, draft.params@.take(k as int)) == Some(param_idxs@),
        decreases draft.params@.len() - k,
    {
        assert(draft.params@.take(k + 1).drop_last() =~= draft.params@.take(k as int));
        assert(draft.params@.take(k + 1).last() == draft.params@[k as int]);
        match &draft.params[k] {
            Some(s) => {
                let i = match maps.string(s.as_str()) {
                    Ok(i) => i,
                    Err(e) => {
                        proof {
                            if draft_param_ids(*maps, draft.params@) is Some {
                                lemma_draft_params_each(*maps, draft.params@, k as int);
                            }
                        }
                        return Err(e);
                    },
                };
                param_idxs.push(Some(i));
            },
            None => param_idxs.push(None),
        }
        k = k + 1;
    }
    assert(draft.params@.take(k as int) =~= draft.params@);
    let mut ops: Vec<DebugBuilderOp> = Vec::new();
    let mut k: usize = 0;
    assert(draft.locals@.take(0) =~= Seq::<(u32, String, String)>::empty());
    while k < draft.locals.len()
        invariant
            k <= draft.locals@.len(),
            draft_local_ops(*maps, draft.locals@.take(k as int)) == Some(ops@),
        decreases draft.locals@.len() - k,
    {
        assert(draft.locals@.take(k + 1).drop_last() =~= draft.locals@.take(k as int));
        assert(draft.locals@.take(k + 1).last() == draft.locals@[k as int]);
        let (reg, name, typ) = &draft.locals[k];
        let name_idx = match maps.string(name.as_str()) {
            Ok(i) => i,
            Err(e) => {
                proof {
                    if draft_local_ops(*maps, draft.locals@) is Some {
                        lemma_draft_locals_each(*maps, draft.locals@, k as int);
                    }
                }
                return Err(e);
            },
        };
        let type_idx = match maps.ty(typ.as_str()) {
            Ok(i) => i,
            Err(e) => {
                proof {
                    if draft_local_ops(*maps, draft.locals@) is Some {
                        lemma_draft_locals_each(*maps, draft.locals@, k as int);
                    }
                }
                return Err(e);
            },
        };
        ops.push(DebugBuilderOp::StartLocal { reg: *reg, name_idx, type_idx });
        k = k + 1;
    }
    assert(draft.locals@.take(k as int) =~= draft.locals@);
    Ok(build_debug_info(draft.line_start, param_idxs.as_slice(), ops.as_slice()))
}

/// Whether every method body of `class` has at most 0xffff try blocks.
fn class_fits(class: &BuiltClass) -> (r: bool)
    ensures
        r == (methods_fit(class.direct_methods@) && methods_fit(class.virtual_methods@)),
{
    methods_fit_exec(&class.direct_methods) && methods_fit_exec(&class.virtual_methods)
}

fn methods_fit_exec(ms: &Vec<BuiltMethod>) -> (r: bool)
    ensures
        r == methods_fit(ms@),
{
    let mut k: usize = 0;
    while k < ms.len()
        invariant
            k <= ms@.len(),
            forall|j: int| 0 <= j < k ==> ((#[trigger] ms@[j]).code matches Some(c) ==> c.tries@.len() <= 0xffff),
        decreases ms@.len() - k,
    {
        match &ms[k].code {
            Some(c) => {
                if c.tries.len() > 0xffff {
                    assert(ms@[k as int].code matches Some(c) && c.tries@.len() > 0xffff);
                    return false;
                }
            },
            None => {},
        }
        k = k + 1;
    }
    true
}

impl DexSlicer {
    /// Index `i` of the pool that `kind` names, moved into the new pools.
    fn moved_idx(&self, kind: OpRef, i: u32, maps: &PoolMaps) -> (r: Result<u32>)
        requires
            kind is String || kind is Type || kind is Field || kind is Method || kind is MethodProto,
        ensures
            match moved_by(self.dex, *maps, kind, i) {
                Some(n) => r == Ok::<u32, DexError>(n),
                None => r matches Err(e) && (e is Truncated || e is Parse),
            },
    {
        match kind {
            OpRef::String => {
                let s = self.dex.get_string(i)?;
                maps.string(s.as_str())
            },
            OpRef::Type => {
                let t = self.dex.get_type(i)?;
                maps.ty(t.as_str())
            },
            OpRef::Field => {
                let f = self.dex.get_field_info(i)?;
                maps.field(f.class.as_str(), f.name.as_str(), f.typ.as_str())
            },
            OpRef::Method => {
                let m = self.dex.get_method_info(i)?;
                let p = proto_str(&m);
                maps.method(m.class.as_str(), m.name.as_str(), p.as_str())
            },
            _ => self.moved_proto_idx(i, maps),
        }
    }

    /// Prototype `i` of the source, moved into the new pools.
    fn moved_proto_idx(&self, i: u32, maps: &PoolMaps) -> (r: Result<u32>)
        ensures
            match moved_proto(self.dex, *maps, i) {
                Some(n) => r == Ok::<u32, DexError>(n),
                None => r matches Err(e) && (e is Truncated || e is Parse),
            },
    {
        let (ret, params) = self.dex.get_proto(i)?;
        let q = proto_of(&params, ret.as_str());
        maps.proto(q.as_str())
    }

    /// Replace the pool index of the instruction at `pc` by its index in the new pools.
    #[verifier::spinoff_prover]
    #[verifier::rlimit(60)]
    fn rewrite_insn_ref(&self, out: &mut Vec<u8>, pc: usize, info: OpcodeInfo, maps: &PoolMaps) -> (r: Result<()>)
        requires
            info.width > 0,
            pc + info.width <= old(out)@.len(),
        ensures
            final(out)@.len() == old(out)@.len(),
            match moved_insn(self.dex, *maps, info, old(out)@, pc as int) {
                Some(w) => r is Ok && final(out)@ == w,
                None => r matches Err(e) && (e is Truncated || e is Parse || e is UnsupportedRef),
            },
    {
        match info.ref_kind {
            OpRef::CallSite | OpRef::Varies => {
                return Err(DexError::UnsupportedRef);
            },
            OpRef::NoRef => {
                return Ok(());
            },
            _ => {},
        }
        self.rewrite_operand(out, pc, info, maps)?;
        if matches!(info.ref_kind, OpRef::Method) && info.proto_operand && info.width >= 8 {
            self.rewrite_proto_operand(out, pc, maps)?;
        }
        Ok(())
    }

    /// Move the index operand at `pc` (of the pool that `info` names).
    fn rewrite_operand(&self, out: &mut Vec<u8>, pc: usize, info: OpcodeInfo, maps: &PoolMaps) -> (r: Result<()>)
        requires
            info.ref_kind is String || info.ref_kind is Type || info.ref_kind is Field || info.ref_kind is Method
                || info.ref_kind is MethodProto,
        ensures
            final(out)@.len() == old(out)@.len(),
            match moved_operand(self.dex, *maps, info, old(out)@, pc as int) {
                Some(w) => r is Ok && final(out)@ == w,
                None => r matches Err(e) && (e is Truncated || e is Parse),
            },
    {
        let old_idx = read_ref_idx(out.as_slice(), pc, info.wide_index)?;
        let new_idx = self.moved_idx(info.ref_kind, old_idx, maps)?;
        write_ref_idx(out, pc, info.wide_index, new_idx)?;
        Ok(())
    }

    /// Move the proto operand of a 45cc or 4rcc instruction at `pc`.
    fn rewrite_proto_operand(&self, out: &mut Vec<u8>, pc: usize, maps: &PoolMaps) -> (r: Result<()>)
        requires
            pc + 8 <= old(out)@.len(),
        ensures
            final(out)@.len() == old(out)@.len(),
            match moved_proto(self.dex, *maps, le16_of(old(out)@[pc + 6], old(out)@[pc + 7]) as u32) {
                Some(p) => if p <= 0xffff {
                    r is Ok && final(out)@ == old(out)@.update(pc + 6, (p % 256) as u8).update(pc + 7, (p / 256) as u8)
                } else {
                    r matches Err(e) && e is Parse
                },
                None => r matches Err(e) && (e is Truncated || e is Parse),
            },
    {
        let l = out.len();
        let proto_idx = le16(out.as_slice(), pc + 6) as u32;
        let new_p = self.moved_proto_idx(proto_idx, maps)?;
        if new_p > 0xffff {
            return Err(parse_error("proto idx exceeds u16"));
        }
        out.set(pc + 6, (new_p % 256) as u8);
        out.set(pc + 7, (new_p / 256) as u8);
        Ok(())
    }

    /// The instructions with every pool index replaced by its index in the new pools.
    #[verifier::spinoff_prover]
    #[verifier::rlimit(60)]
    fn rewrite_insns(&self, insns: &Vec<u8>, maps: &PoolMaps) -> (r: Result<Vec<u8>>)
        ensures
            r matches Ok(v) ==> v@.len() == insns@.len(),
            match moved_insns_from(self.dex, *maps, self.opcodes@, insns@, 0, insns@.len() as int) {
                Some(w) => r matches Ok(v) && v@ == w,
                None => r matches Err(e) && (e is Truncated || e is Parse || e is UnsupportedRef),
            },
    {
        let mut out = vstd::slice::slice_to_vec(insns.as_slice());
        let len = out.len();
        let mut pc: usize = 0;
        while len - pc >= 2
            invariant
                pc <= len == out@.len() == insns@.len(),
                moved_insns_from(self.dex, *maps, self.opcodes@, insns@, 0, len as int) == moved_insns_from(
                    self.dex,
                    *maps,
                    self.opcodes@,
                    out@,
                    pc as int,
                    len as int,
                ),
            decreases len - pc,
        {
            if is_payload(out.as_slice(), pc) {
                let n = match payload_len(out.as_slice(), pc) {
                    Ok(n) => n,
                    Err(e) => {
                        assert(moved_insns_from(self.dex, *maps, self.opcodes@, out@, pc as int, len as int) is None);
                        return Err(e);
                    },
                };
                if n == 0 {
                    assert(moved_insns_from(self.dex, *maps, self.opcodes@, out@, pc as int, len as int) == Some(out@));
                    return Ok(out);
                }
                pc = step(pc, n as u64, len);
                continue;
            }
            let info = self.opcode(out[pc]);
            if info.width == 0 {
                pc = step(pc, 2, len);
                continue;
            }
            if info.width as u64 > (len - pc) as u64 {
                assert(moved_insns_from(self.dex, *maps, self.opcodes@, out@, pc as int, len as int) == Some(out@));
                return Ok(out);
            }
            match self.rewrite_insn_ref(&mut out, pc, info, maps) {
                Ok(()) => {},
                Err(e) => {
                    return Err(e);
                },
            }
            pc = step(pc, info.width as u64, len);
        }
        Ok(out)
    }

    /// An encoded value with its pool indices replaced by those of the new pools;
    /// `UnsupportedRef` for a method handle.
    #[verifier::spinoff_prover]
    #[verifier::rlimit(40)]
    fn remap_encoded_value(&self, v: &EncodedValue, maps: &PoolMaps) -> (r: Result<EncodedValue>)
        ensures
            match moved_value(self.dex, *maps, model(*v)) {
                Some(w) => r matches Ok(x) && model(x) == w,
                None => r matches Err(e) && (e is Truncated || e is Parse || e is UnsupportedRef),
            },
        decreases *v, 0int,
    {
        Ok(
            match v {
                EncodedValue::String(i) => {
                    let s = self.dex.get_string(*i)?;
                    EncodedValue::String(maps.string(s.as_str())?)
                },
                EncodedValue::Type(i) => {
                    let t = self.dex.get_type(*i)?;
                    EncodedValue::Type(maps.ty(t.as_str())?)
                },
                EncodedValue::MethodType(i) => {
                    let (ret, params) = self.dex.get_proto(*i)?;
                    let q = proto_of(&params, ret.as_str());
                    EncodedValue::MethodType(maps.proto(q.as_str())?)
                },
                EncodedValue::Field(i) => {
                    let f = self.dex.get_field_info(*i)?;
                    EncodedValue::Field(maps.field(f.class.as_str(), f.name.as_str(), f.typ.as_str())?)
                },
                EncodedValue::Enum(i) => {
                    let f = self.dex.get_field_info(*i)?;
                    EncodedValue::Enum(maps.field(f.class.as_str(), f.name.as_str(), f.typ.as_str())?)
                },
                EncodedValue::Method(i) => {
                    let m = self.dex.get_method_info(*i)?;
                    let p = proto_str(&m);
                    EncodedValue::Method(maps.method(m.class.as_str(), m.name.as_str(), p.as_str())?)
                },
                EncodedValue::MethodHandle(_) => {
                    return Err(DexError::UnsupportedRef);
                },
                EncodedValue::Array(arr) => EncodedValue::Array(self.remap_values(arr.as_slice(), maps)?),
                EncodedValue::Annotation(a) => EncodedValue::Annotation(self.remap_annotation(a, maps)?),
                EncodedValue::Byte(x) => EncodedValue::Byte(*x),
                EncodedValue::Short(x) => EncodedValue::Short(*x),
                EncodedValue::Char(x) => EncodedValue::Char(*x),
                EncodedValue::Int(x) => EncodedValue::Int(*x),
                EncodedValue::Long(x) => EncodedValue::Long(*x),
                EncodedValue::Float(x) => EncodedValue::Float(*x),
                EncodedValue::Double(x) => EncodedValue::Double(*x),
                EncodedValue::Null => EncodedValue::Null,
                EncodedValue::Boolean(b) => EncodedValue::Boolean(*b),
            },
        )
    }

    #[verifier::spinoff_prover]
    #[verifier::rlimit(60)]
    fn remap_values(&self, values: &[EncodedValue], maps: &PoolMaps) -> (r: Result<Vec<EncodedValue>>)
        ensures
            match moved_values(self.dex, *maps, models(values@)) {
                Some(ws) => r matches Ok(out) && models(out@) == ws,
                None => r matches Err(e) && (e is Truncated || e is Parse || e is UnsupportedRef),
            },
        decreases values@, 0int,
    {
        let ghost vm = models(values@);
        let mut out: Vec<EncodedValue> = Vec::new();
        let mut k: usize = 0;
        assert(vm.take(0) =~= Seq::<ValueModel>::empty());
        assert(models(out@) =~= Seq::<ValueModel>::empty());
        while k < values.len()
            invariant
                k <= values@.len(),
                vm == models(values@),
                moved_values(self.dex, *maps, vm.take(k as int)) == Some(models(out@)),
            decreases values@.len() - k,
        {
            let x = match self.remap_encoded_value(&values[k], maps) {
                Ok(x) => x,
                Err(e) => {
                    proof {
                        assert(vm[k as int] == model(values@[k as int]));
                        if moved_values(self.dex, *maps, vm) is Some {
                            lemma_moved_values_each(self.dex, *maps, vm, k as int);
                        }
                    }
                    return Err(e);
                },
            };
            let ghost before = out@;
            out.push(x);
            proof {
                assert(vm.take(k + 1).drop_last() =~= vm.take(k as int));
                assert(vm.take(k + 1)[k as int] == model(values@[k as int]));
                assert(models(out@) =~= models(before).push(model(x)));
            }
            k = k + 1;
        }
        assert(vm.take(k as int) =~= vm);
        Ok(out)
    }

    /// An annotation with its type, element names and values in the new pools.
    #[verifier::spinoff_prover]
    #[verifier::rlimit(60)]
    fn remap_annotation(&self, a: &EncodedAnnotation, maps: &PoolMaps) -> (r: Result<EncodedAnnotation>)
        ensures
            match moved_annotation(self.dex, *maps, annotation_model(*a)) {
                Some(b) => r matches Ok(x) && annotation_model(x) == b,
                None => r matches Err(e) && (e is Truncated || e is Parse || e is UnsupportedRef),
            },
        decreases *a, 0int,
    {
        let ghost em = element_models(a.elements@);
        let t = self.dex.get_type(a.type_idx)?;
        let type_idx = maps.ty(t.as_str())?;
        let mut elements: Vec<(u32, EncodedValue)> = Vec::new();
        let mut k: usize = 0;
        assert(em.take(0) =~= Seq::<(u32, ValueModel)>::empty());
        assert(element_models(elements@) =~= Seq::<(u32, ValueModel)>::empty());
        while k < a.elements.len()
            invariant
                k <= a.elements@.len(),
                em == element_models(a.elements@),
                moved_elements(self.dex, *maps, em.take(k as int)) == Some(element_models(elements@)),
            decreases a.elements@.len() - k,
        {
            proof {
                assert(em[k as int] == (a.elements@[k as int].0, model(a.elements@[k as int].1)));
            }
            let s = match self.dex.get_string(a.elements[k].0) {
                Ok(s) => s,
                Err(e) => {
                    proof {
                        if moved_elements(self.dex, *maps, em) is Some {
                            lemma_moved_elements_each(self.dex, *maps, em, k as int);
                        }
                    }
                    return Err(e);
                },
            };
            let ni = match maps.string(s.as_str()) {
                Ok(ni) => ni,
                Err(e) => {
                    proof {
                        if moved_elements(self.dex, *maps, em) is Some {
                            lemma_moved_elements_each(self.dex, *maps, em, k as int);
                        }
                    }
                    return Err(e);
                },
            };
            let v = match self.remap_encoded_value(&a.elements[k].1, maps) {
                Ok(v) => v,
                Err(e) => {
                    proof {
                        if moved_elements(self.dex, *maps, em) is Some {
                            lemma_moved_elements_each(self.dex, *maps, em, k as int);
                        }
                    }
                    return Err(e);
                },
            };
            let ghost before = elements@;
            let ghost mv = model(v);
            elements.push((ni, v));
            proof {
                assert(em.take(k + 1).drop_last() =~= em.take(k as int));
                assert(em.take(k + 1)[k as int] == em[k as int]);
                assert(element_models(elements@) =~= element_models(before).push((ni, mv)));
            }
            k = k + 1;
        }
        assert(em.take(k as int) =~= em);
        let out = EncodedAnnotation { type_idx, elements };
        assert(annotation_model(out) == (type_idx, element_models(out.elements@)));
        Ok(out)
    }

    fn remap_item_set(&self, set: &Vec<AnnotationItem>, maps: &PoolMaps) -> (r: Result<Vec<AnnotationItem>>)
        ensures
            match moved_set(self.dex, *maps, set_model(set@)) {
                Some(x) => r matches Ok(out) && set_model(out@) == x,
                None => r matches Err(e) && (e is Truncated || e is Parse || e is UnsupportedRef),
            },
    {
        let ghost sm = set_model(set@);
        let mut out: Vec<AnnotationItem> = Vec::new();
        let mut k: usize = 0;
        assert(sm.take(0) =~= Seq::<ItemModel>::empty());
        assert(set_model(out@) =~= Seq::<ItemModel>::empty());
        while k < set.len()
            invariant
                k <= set@.len(),
                sm == set_model(set@),
                moved_set(self.dex, *maps, sm.take(k as int)) == Some(set_model(out@)),
            decreases set@.len() - k,
        {
            proof {
                assert(sm[k as int] == item_model(set@[k as int]));
            }
            let annotation = match self.remap_annotation(&set[k].annotation, maps) {
                Ok(a) => a,
                Err(e) => {
                    proof {
                        if moved_set(self.dex, *maps, sm) is Some {
                            lemma_moved_set_each(self.dex, *maps, sm, k as int);
                        }
                    }
                    return Err(e);
                },
            };
            let ghost before = out@;
            let item = AnnotationItem { visibility: set[k].visibility, annotation };
            let ghost im = item_model(item);
            out.push(item);
            proof {
                assert(sm.take(k + 1).drop_last() =~= sm.take(k as int));
                assert(sm.take(k + 1).last() == sm[k as int]);
                assert(set_model(out@) =~= set_model(before).push(im));
            }
            k = k + 1;
        }
        assert(sm.take(k as int) =~= sm);
        Ok(out)
    }

    /// The annotations directory with every index in the new pools; member annotations
    /// are keyed by the new field and method ids.
    fn remap_annotations(&self, ann: &AnnotationsDirectory, maps: &PoolMaps) -> (r: Result<AnnotationsDirectory>)
        ensures
            match moved_directory(self.dex, *maps, directory_model(*ann)) {
                Some(d) => r matches Ok(x) && directory_model(x) == d,
                None => r matches Err(e) && (e is Truncated || e is Parse || e is UnsupportedRef),
            },
    {
        let ghost dm = directory_model(*ann);
        let class_annotations = self.remap_item_set(&ann.class_annotations, maps)?;
        let field_annotations = self.remap_member_sets(&ann.field_annotations, true, maps)?;
        let method_annotations = self.remap_member_sets(&ann.method_annotations, false, maps)?;
        let parameter_annotations = self.remap_param_sets(&ann.parameter_annotations, maps)?;
        let out = AnnotationsDirectory { class_annotations, field_annotations, method_annotations, parameter_annotations };
        assert(directory_model(out) == DirectoryModel {
            class: set_model(out.class_annotations@),
            fields: entries_model(out.field_annotations@),
            methods: entries_model(out.method_annotations@),
            params: param_entries_model(out.parameter_annotations@),
        });
        Ok(out)
    }

    /// The id of field (when `fields`) or method `idx` of the source in the new pools.
    fn moved_member(&self, idx: u32, fields: bool, maps: &PoolMaps) -> (r: Result<u32>)
        ensures
            match (if fields {
                moved_field(self.dex, *maps, idx)
            } else {
                moved_method(self.dex, *maps, idx)
            }) {
                Some(k) => r == Ok::<u32, DexError>(k),
                None => r matches Err(e) && (e is Truncated || e is Parse),
            },
    {
        if fields {
            let f = self.dex.get_field_info(idx)?;
            maps.field(f.class.as_str(), f.name.as_str(), f.typ.as_str())
        } else {
            let m = self.dex.get_method_info(idx)?;
            let p = proto_str(&m);
            maps.method(m.class.as_str(), m.name.as_str(), p.as_str())
        }
    }

    /// Member annotation sets with keys and annotations in the new pools.
    #[verifier::spinoff_prover]
    #[verifier::rlimit(60)]
    fn remap_member_sets(&self, es: &Vec<(u32, Vec<AnnotationItem>)>, fields: bool, maps: &PoolMaps) -> (r: Result<
        Vec<(u32, Vec<AnnotationItem>)>,
    >)
        ensures
            match moved_member_sets(self.dex, *maps, entries_model(es@), fields) {
                Some(x) => r matches Ok(out) && entries_model(out@) == x,
                None => r matches Err(e) && (e is Truncated || e is Parse || e is UnsupportedRef),
            },
    {
        let ghost em = entries_model(es@);
        let mut out: Vec<(u32, Vec<AnnotationItem>)> = Vec::new();
        let mut k: usize = 0;
        assert(em.take(0) =~= Seq::<(u32, Seq<ItemModel>)>::empty());
        assert(entries_model(out@) =~= Seq::<(u32, Seq<ItemModel>)>::empty());
        while k < es.len()
            invariant
                k <= es@.len(),
                em == entries_model(es@),
                moved_member_sets(self.dex, *maps, em.take(k as int), fields) == Some(entries_model(out@)),
            decreases es@.len() - k,
        {
            proof {
                assert(em[k as int] == (es@[k as int].0, set_model(es@[k as int].1@)));
            }
            let key = match self.moved_member(es[k].0, fields, maps) {
                Ok(x) => x,
                Err(e) => {
                    proof {
                        if moved_member_sets(self.dex, *maps, em, fields) is Some {
                            lemma_moved_member_sets_each(self.dex, *maps, em, fields, k as int);
                        }
                    }
                    return Err(e);
                },
            };
            let set = match self.remap_item_set(&es[k].1, maps) {
                Ok(x) => x,
                Err(e) => {
                    proof {
                        if moved_member_sets(self.dex, *maps, em, fields) is Some {
                            lemma_moved_member_sets_each(self.dex, *maps, em, fields, k as int);
                        }
                    }
                    return Err(e);
                },
            };
            let ghost before = out@;
            let ghost sm = set_model(set@);
            out.push((key, set));
            proof {
                assert(em.take(k + 1).drop_last() =~= em.take(k as int));
                assert(em.take(k + 1).last() == em[k as int]);
                assert(entries_model(out@) =~= entries_model(before).push((key, sm)));
            }
            k = k + 1;
        }
        assert(em.take(k as int) =~= em);
        Ok(out)
    }

    /// Annotation sets each in the new pools.
    fn remap_sets(&self, ss: &Vec<Vec<AnnotationItem>>, maps: &PoolMaps) -> (r: Result<Vec<Vec<AnnotationItem>>>)
        ensures
            match moved_sets(self.dex, *maps, sets_model(ss@)) {
                Some(x) => r matches Ok(out) && sets_model(out@) == x,
                None => r matches Err(e) && (e is Truncated || e is Parse || e is UnsupportedRef),
            },
    {
        let ghost sm = sets_model(ss@);
        let mut out: Vec<Vec<AnnotationItem>> = Vec::new();
        let mut k: usize = 0;
        assert(sm.take(0) =~= Seq::<Seq<ItemModel>>::empty());
        assert(sets_model(out@) =~= Seq::<Seq<ItemModel>>::empty());
        while k < ss.len()
            invariant
                k <= ss@.len(),
                sm == sets_model(ss@),
                moved_sets(self.dex, *maps, sm.take(k as int)) == Some(sets_model(out@)),
            decreases ss@.len() - k,
        {
            proof {
                assert(sm[k as int] == set_model(ss@[k as int]@));
            }
            let set = match self.remap_item_set(&ss[k], maps) {
                Ok(x) => x,
                Err(e) => {
                    proof {
                        if moved_sets(self.dex, *maps, sm) is Some {
                            lemma_moved_sets_each(self.dex, *maps, sm, k as int);
                        }
                    }
                    return Err(e);
                },
            };
            let ghost before = out@;
            let ghost m = set_model(set@);
            out.push(set);
            proof {
                assert(sm.take(k + 1).drop_last() =~= sm.take(k as int));
                assert(sm.take(k + 1).last() == sm[k as int]);
                assert(sets_model(out@) =~= sets_model(before).push(m));
            }
            k = k + 1;
        }
        assert(sm.take(k as int) =~= sm);
        Ok(out)
    }

    /// Parameter annotations with method keys and annotations in the new pools.
    #[verifier::spinoff_prover]
    #[verifier::rlimit(60)]
    fn remap_param_sets(&self, es: &Vec<(u32, Vec<Vec<AnnotationItem>>)>, maps: &PoolMaps) -> (r: Result<
        Vec<(u32, Vec<Vec<AnnotationItem>>)>,
    >)
        ensures
            match moved_param_sets(self.dex, *maps, param_entries_model(es@)) {
                Some(x) => r matches Ok(out) && param_entries_model(out@) == x,
                None => r matches Err(e) && (e is Truncated || e is Parse || e is UnsupportedRef),
            },
    {
        let ghost em = param_entries_model(es@);
        let mut out: Vec<(u32, Vec<Vec<AnnotationItem>>)> = Vec::new();
        let mut k: usize = 0;
        assert(em.take(0) =~= Seq::<(u32, Seq<Seq<ItemModel>>)>::empty());
        assert(param_entries_model(out@) =~= Seq::<(u32, Seq<Seq<ItemModel>>)>::empty());
        while k < es.len()
            invariant
                k <= es@.len(),
                em == param_entries_model(es@),
                moved_param_sets(self.dex, *maps, em.take(k as int)) == Some(param_entries_model(out@)),
            decreases es@.len() - k,
        {
            proof {
                assert(em[k as int] == (es@[k as int].0, sets_model(es@[k as int].1@)));
            }
            let key = match self.moved_member(es[k].0, false, maps) {
                Ok(x) => x,
                Err(e) => {
                    proof {
                        if moved_param_sets(self.dex, *maps, em) is Some {
                            lemma_moved_param_sets_each(self.dex, *maps, em, k as int);
                        }
                    }
                    return Err(e);
                },
            };
            let sets = match self.remap_sets(&es[k].1, maps) {
                Ok(x) => x,
                Err(e) => {
                    proof {
                        if moved_param_sets(self.dex, *maps, em) is Some {
                            lemma_moved_param_sets_each(self.dex, *maps, em, k as int);
                        }
                    }
                    return Err(e);
                },
            };
            let ghost before = out@;
            let ghost m = sets_model(sets@);
            out.push((key, sets));
            proof {
                assert(em.take(k + 1).drop_last() =~= em.take(k as int));
                assert(em.take(k + 1).last() == em[k as int]);
                assert(param_entries_model(out@) =~= param_entries_model(before).push((key, m)));
            }
            k = k + 1;
        }
        assert(em.take(k as int) =~= em);
        Ok(out)
    }

    /// Static values of a field list in the new pools.
    #[verifier::spinoff_prover]
    #[verifier::rlimit(60)]
    fn remap_static_values(&self, fs: Vec<BuiltField>, maps: &PoolMaps) -> (r: Result<Vec<BuiltField>>)
        ensures
            r is Ok <==> forall|k: int| 0 <= k < fs@.len() ==> value_moves(self.dex, *maps, #[trigger] fs@[k]),
            r matches Ok(out) ==> out@.len() == fs@.len() && forall|k: int|
                0 <= k < fs@.len() ==> field_value_moved(self.dex, *maps, fs@[k], #[trigger] out@[k]),
            r matches Err(e) ==> (e is Truncated || e is Parse || e is UnsupportedRef),
    {
        let ghost orig = fs@;
        let mut rest = fs;
        let mut out: Vec<BuiltField> = Vec::new();
        while rest.len() > 0
            invariant
                orig == fs@,
                out@.len() + rest@.len() == orig.len(),
                rest@ == orig.skip(out@.len() as int),
                forall|k: int| 0 <= k < out@.len() ==> value_moves(self.dex, *maps, #[trigger] orig[k]),
                forall|k: int| 0 <= k < out@.len() ==> field_value_moved(self.dex, *maps, orig[k], #[trigger] out@[k]),
            decreases rest@.len(),
        {
            let ghost at = out@.len() as int;
            assert(rest@[0] == orig[at]);
            let f = rest.remove(0);
            assert(rest@ =~= orig.skip(at + 1));
            let static_value = match &f.static_value {
                Some(v) => match self.remap_encoded_value(v, maps) {
                    Ok(w) => Some(w),
                    Err(e) => {
                        assert(!value_moves(self.dex, *maps, orig[at]));
                        return Err(e);
                    },
                },
                None => None,
            };
            out.push(
                BuiltField {
                    class: f.class,
                    name: f.name,
                    typ: f.typ,
                    access_flags: f.access_flags,
                    static_field: f.static_field,
                    static_value,
                },
            );
        }
        Ok(out)
    }

    /// Method bodies with their instructions rewritten to the new pools.
    #[verifier::spinoff_prover]
    #[verifier::rlimit(60)]
    fn rewrite_method_insns(&self, ms: Vec<BuiltMethod>, maps: &PoolMaps) -> (r: Result<Vec<BuiltMethod>>)
        ensures
            r is Ok <==> forall|k: int| 0 <= k < ms@.len() ==> insns_move(self.dex, *maps, self.opcodes@, #[trigger] ms@[k]),
            r matches Ok(out) ==> out@.len() == ms@.len() && forall|k: int|
                0 <= k < ms@.len() ==> insns_moved(self.dex, *maps, self.opcodes@, ms@[k], #[trigger] out@[k]),
            r matches Err(e) ==> (e is Truncated || e is Parse || e is UnsupportedRef),
    {
        let ghost orig = ms@;
        let mut rest = ms;
        let mut out: Vec<BuiltMethod> = Vec::new();
        while rest.len() > 0
            invariant
                orig == ms@,
                out@.len() + rest@.len() == orig.len(),
                rest@ == orig.skip(out@.len() as int),
                forall|k: int| 0 <= k < out@.len() ==> insns_move(self.dex, *maps, self.opcodes@, #[trigger] orig[k]),
                forall|k: int|
                    0 <= k < out@.len() ==> insns_moved(self.dex, *maps, self.opcodes@, orig[k], #[trigger] out@[k]),
            decreases rest@.len(),
        {
            let ghost at = out@.len() as int;
            assert(rest@[0] == orig[at]);
            let m = rest.remove(0);
            assert(rest@ =~= orig.skip(at + 1));
            let code = match m.code {
                Some(c) => {
                    let insns = match self.rewrite_insns(&c.insns, maps) {
                        Ok(x) => x,
                        Err(e) => {
                            assert(!insns_move(self.dex, *maps, self.opcodes@, orig[at]));
                            return Err(e);
                        },
                    };
                    Some(
                        BuiltCode {
                            registers_size: c.registers_size,
                            ins_size: c.ins_size,
                            outs_size: c.outs_size,
                            insns,
                            tries: c.tries,
                            debug_info_off: c.debug_info_off,
                            debug_ops: c.debug_ops,
                        },
                    )
                },
                None => None,
            };
            out.push(
                BuiltMethod {
                    class: m.class,
                    name: m.name,
                    proto: m.proto,
                    access_flags: m.access_flags,
                    code,
                    direct: m.direct,
                },
            );
        }
        assert(out@.len() == orig.len());
        Ok(out)
    }

    /// The try blocks of the source body at `code_off`, with catch types in the new pools.
    #[verifier::spinoff_prover]
    #[verifier::rlimit(60)]
    fn source_tries(&self, code_off: u32, maps: &PoolMaps) -> (r: Result<Vec<BuiltTry>>)
        ensures
            r is Ok <==> source_tries_move(self.dex, *maps, code_off),
            r matches Ok(v) ==> ({
                let c = code_item_at(self.dex.data@, code_off);
                &&& v@.len() == c.tries_size
                &&& forall|i: int|
                    0 <= i < v@.len() ==> try_moved(self.dex, *maps, spec_try_item(c, self.dex.data@, i)->0, #[trigger] v@[i])
            }),
            r matches Err(e) ==> (e is Truncated || e is Parse),
    {
        let src_code = self.dex.get_code_item(code_off)?;
        if (src_code.insns_off as u128) + 2 * (src_code.insns_size as u128) + 8 * (src_code.tries_size as u128)
            + 0x2_0000 >= usize::MAX as u128 {
            return Err(truncated("tries"));
        }
        let tries_raw = src_code.tries(self.dex.data.as_slice())?;
        let ghost c = src_code;
        let ghost data = self.dex.data@;
        let mut tries: Vec<BuiltTry> = Vec::new();
        let mut k: usize = 0;
        while k < tries_raw.len()
            invariant
                k <= tries_raw@.len() == c.tries_size,
                c == code_item_at(self.dex.data@, code_off),
                data == self.dex.data@,
                tries@.len() == k,
                forall|i: int| 0 <= i < tries_raw@.len() ==> try_matches(#[trigger] tries_raw@[i], spec_try_item(c, data, i)->0),
                forall|i: int| 0 <= i < k ==> (#[trigger] moved_handlers(self.dex, *maps, (spec_try_item(c, data, i)->0).2)) is Some,
                forall|i: int| 0 <= i < k ==> try_moved(self.dex, *maps, spec_try_item(c, data, i)->0, #[trigger] tries@[i]),
            decreases tries_raw@.len() - k,
        {
            let t = &tries_raw[k];
            let ghost hs = t.handlers@;
            assert(try_matches(tries_raw@[k as int], spec_try_item(c, data, k as int)->0));
            let mut handlers: Vec<(u32, u32)> = Vec::new();
            let mut catch_all: Option<u32> = None;
            let mut j: usize = 0;
            assert(hs.take(0) =~= Seq::<(Option<u32>, u32)>::empty());
            while j < t.handlers.len()
                invariant
                    j <= t.handlers@.len(),
                    hs == t.handlers@,
                    hs == (spec_try_item(c, data, k as int)->0).2,
                    c == code_item_at(self.dex.data@, code_off),
                    data == self.dex.data@,
                    k < c.tries_size,
                    moved_handlers(self.dex, *maps, hs.take(j as int)) == Some((handlers@, catch_all)),
                decreases t.handlers@.len() - j,
            {
                assert(hs.take(j + 1).drop_last() =~= hs.take(j as int));
                assert(hs.take(j + 1).last() == hs[j as int]);
                let (ty, addr) = t.handlers[j];
                match ty {
                    Some(tidx) => {
                        let d = match self.dex.get_type(tidx) {
                            Ok(d) => d,
                            Err(e) => {
                                proof {
                                    if moved_handlers(self.dex, *maps, hs) is Some {
                                        lemma_moved_handlers_each(self.dex, *maps, hs, j as int);
                                    }
                                    assert(!(moved_handlers(self.dex, *maps, (spec_try_item(c, data, k as int)->0).2) is Some));
                                }
                                return Err(e);
                            },
                        };
                        let n = match maps.ty(d.as_str()) {
                            Ok(n) => n,
                            Err(e) => {
                                proof {
                                    if moved_handlers(self.dex, *maps, hs) is Some {
                                        lemma_moved_handlers_each(self.dex, *maps, hs, j as int);
                                    }
                                    assert(!(moved_handlers(self.dex, *maps, (spec_try_item(c, data, k as int)->0).2) is Some));
                                }
                                return Err(e);
                            },
                        };
                        handlers.push((n, addr));
                    },
                    None => {
                        catch_all = Some(addr);
                    },
                }
                j = j + 1;
            }
            assert(hs.take(j as int) =~= hs);
            tries.push(BuiltTry { start_unit: t.start_unit, insn_count: t.insn_count, handlers, catch_all });
            k = k + 1;
        }
        Ok(tries)
    }

    /// Fill in try blocks (from the source bodies) and debug info (from the drafts) of
    /// the methods of one list; `next` counts the methods seen so far over both lists.
    fn fill_methods(
        &self,
        ms: Vec<BuiltMethod>,
        src: &Vec<crate::dex::class_data::EncodedMethod>,
        next: &mut usize,
        drafts: &Vec<Option<DebugDraft>>,
        maps: &PoolMaps,
    ) -> (r: Result<Vec<BuiltMethod>>)
        ensures
            r matches Ok(out) ==> out@.len() == ms@.len() && *final(next) == *old(next) + ms@.len() && forall|k: int|
                0 <= k < ms@.len() ==> method_filled(ms@[k], #[trigger] out@[k]),
            methods_fill(self.dex, *maps, ms@, src@, *old(next) as int, drafts@) ==> r is Ok,
    {
        let ghost orig = ms@;
        let ghost start = *next;
        let ghost ok = methods_fill(self.dex, *maps, ms@, src@, *old(next) as int, drafts@);
        let mut rest = ms;
        let mut out: Vec<BuiltMethod> = Vec::new();
        while rest.len() > 0
            invariant
                out@.len() + rest@.len() == orig.len(),
                rest@ == orig.skip(out@.len() as int),
                *next == start + out@.len(),
                forall|k: int| 0 <= k < out@.len() ==> method_filled(orig[k], #[trigger] out@[k]),
                ok == methods_fill(self.dex, *maps, orig, src@, start as int, drafts@),
                start == *old(next),
                orig == ms@,
            decreases rest@.len(),
        {
            let ghost done = out@.len();
            let m = rest.remove(0);
            assert(m == orig[done as int]);
            assert(rest@ =~= orig.skip((done + 1) as int));
            if *next >= src.len() {
                return Err(parse_error("method count mismatch"));
            }
            let s = src[*next];
            let at = *next;
            proof {
                if ok {
                    assert(method_fills(self.dex, *maps, orig[done as int], src@[start + done], draft_at(drafts@, start + done)));
                }
            }
            *next = *next + 1;
            let code = match m.code {
                Some(c) => {
                    if s.code_off == 0 {
                        Some(c)
                    } else {
                        let tries = self.source_tries(s.code_off, maps)?;
                        let debug_ops = if at < drafts.len() {
                            match &drafts[at] {
                                Some(d) => rebuild_debug(d, maps)?,
                                None => c.debug_ops,
                            }
                        } else {
                            c.debug_ops
                        };
                        Some(
                            BuiltCode {
                                registers_size: c.registers_size,
                                ins_size: c.ins_size,
                                outs_size: c.outs_size,
                                insns: c.insns,
                                tries,
                                debug_info_off: c.debug_info_off,
                                debug_ops,
                            },
                        )
                    }
                },
                None => None,
            };
            out.push(
                BuiltMethod {
                    class: m.class,
                    name: m.name,
                    proto: m.proto,
                    access_flags: m.access_flags,
                    code,
                    direct: m.direct,
                },
            );
        }
        assert(out@.len() == orig.len());
        Ok(out)
    }

    /// Move the harvested class into the new pools: static values, instructions, try
    /// blocks and debug info (re-read from the source class), and annotations.
    fn rewrite_class(&self, class: BuiltClass, drafts: &Vec<Option<DebugDraft>>, maps: &PoolMaps) -> (r: Result<BuiltClass>)
        ensures
            r matches Ok(out) ==> class_rewritten(self.dex, *maps, self.opcodes@, class, out),
            rewrite_ok(self.dex, *maps, self.opcodes@, class, drafts@) ==> r is Ok,
    {
        reveal(class_rewritten);
        let ghost ok = rewrite_ok(self.dex, *maps, self.opcodes@, class, drafts@);
        let ghost c0 = class;
        let static_fields = self.remap_static_values(class.static_fields, maps)?;
        let instance_fields = self.remap_static_values(class.instance_fields, maps)?;
        let direct = self.rewrite_method_insns(class.direct_methods, maps)?;
        let virt = self.rewrite_method_insns(class.virtual_methods, maps)?;
        let ghost gd = direct@;
        let ghost gv = virt@;
        let ghost i0 = choose|i: u32| first_class_named(self.dex, c0.descriptor@, i) && #[trigger] class_data_fills(
            self.dex,
            *maps,
            class_def_of(self.dex, i),
            c0,
            drafts@,
        );
        let class_def = match self.find_class_def(class.descriptor.as_str())? {
            Some(cd) => cd,
            None => return Err(parse_error("class vanished")),
        };
        proof {
            if ok {
                assert(class_def == class_def_of(self.dex, i0));
            }
        }
        let (direct_methods, virtual_methods) = match self.dex.get_class_data(&class_def)? {
            Some(cdata) => {
                let mut src: Vec<crate::dex::class_data::EncodedMethod> = Vec::new();
                let mut k: usize = 0;
                while k < cdata.direct_methods.len()
                    invariant
                        k <= cdata.direct_methods@.len(),
                        src@ == cdata.direct_methods@.take(k as int),
                    decreases cdata.direct_methods@.len() - k,
                {
                    src.push(cdata.direct_methods[k]);
                    k = k + 1;
                    assert(src@ =~= cdata.direct_methods@.take(k as int));
                }
                let mut k: usize = 0;
                assert(cdata.direct_methods@.take(cdata.direct_methods@.len() as int) =~= cdata.direct_methods@);
                assert(cdata.virtual_methods@.take(0) =~= Seq::<EncodedMethod>::empty());
                assert(src@ =~= cdata.direct_methods@ + cdata.virtual_methods@.take(0));
                while k < cdata.virtual_methods.len()
                    invariant
                        k <= cdata.virtual_methods@.len(),
                        src@ == cdata.direct_methods@ + cdata.virtual_methods@.take(k as int),
                    decreases cdata.virtual_methods@.len() - k,
                {
                    src.push(cdata.virtual_methods[k]);
                    k = k + 1;
                    assert(src@ =~= cdata.direct_methods@ + cdata.virtual_methods@.take(k as int));
                }
                assert(cdata.virtual_methods@.take(cdata.virtual_methods@.len() as int) =~= cdata.virtual_methods@);
                proof {
                    if ok {
                        lemma_fill_same_bodies(self.dex, *maps, self.opcodes@, c0.direct_methods@, gd, src@, 0, drafts@);
                        lemma_fill_same_bodies(
                            self.dex,
                            *maps,
                            self.opcodes@,
                            c0.virtual_methods@,
                            gv,
                            src@,
                            c0.direct_methods@.len() as int,
                            drafts@,
                        );
                    }
                }
                let mut next: usize = 0;
                let d = self.fill_methods(direct, &src, &mut next, drafts, maps)?;
                let v = self.fill_methods(virt, &src, &mut next, drafts, maps)?;
                (d, v)
            },
            None => {
                proof {
                    assert forall|k: int| 0 <= k < gd.len() implies method_filled(gd[k], #[trigger] gd[k]) by {}
                    assert forall|k: int| 0 <= k < gv.len() implies method_filled(gv[k], #[trigger] gv[k]) by {}
                }
                (direct, virt)
            },
        };
        proof {
            lemma_methods_rewritten(self.dex, *maps, self.opcodes@, class.direct_methods@, gd, direct_methods@);
            lemma_methods_rewritten(self.dex, *maps, self.opcodes@, class.virtual_methods@, gv, virtual_methods@);
        }
        let annotations = self.remap_annotations(&class.annotations, maps)?;
        Ok(
            BuiltClass {
                descriptor: class.descriptor,
                access_flags: class.access_flags,
                superclass: class.superclass,
                interfaces: class.interfaces,
                source_file: class.source_file,
                static_fields,
                instance_fields,
                direct_methods,
                virtual_methods,
                annotations,
            },
        )
    }

    /// Slice the class `descriptor` (Dalvik form, e.g. `Lcom/poc/Main;`) into a DEX image
    /// of its own: the class with every name it uses, re-indexed into fresh sorted pools,
    /// with checksum and signature filled in. `Parse` when the class is not there;
    /// `UnsupportedRef` when it uses invoke-custom or method handles. Once the class is
    /// found, clean and harvested, it fails only for a reason [`slice_stops`] names.
    #[verifier::spinoff_prover]
    #[verifier::rlimit(60)]
    pub fn slice_class(&self, descriptor: &str) -> (r: Result<Vec<u8>>)
        ensures
            r matches Ok(out) ==> exists|m: BuilderModel| built_header(out@, m) && m.classes.len() == 1,
            r matches Ok(out) ==> is_signed(out@),
            lacks_class(self.source(), descriptor@) ==> (r matches Err(DexError::Parse(msg)) && msg@
                == "class not found: "@ + descriptor@),
            r is Ok ==> !lacks_class(self.source(), descriptor@),
            forall|i: u32|
                first_class_named(self.source(), descriptor@, i) && scan_class(
                    self.opcode_table(),
                    self.source().data@,
                    class_def_of(self.source(), i),
                ) == Scan::Unsupported ==> r matches Err(DexError::UnsupportedRef),
            r is Ok ==> exists|i: u32|
                first_class_named(self.source(), descriptor@, i) && scan_class(
                    self.opcode_table(),
                    self.source().data@,
                    class_def_of(self.source(), i),
                ) == Scan::Clean,
            r matches Ok(out) ==> exists|i: u32, maps: PoolMaps, src: BuiltClass, m: BuilderModel|
                {
                    &&& first_class_named(self.source(), descriptor@, i)
                    &&& class_copied(self.source(), class_def_of(self.source(), i), src)
                    &&& built_header(out@, m)
                    &&& m.classes.len() == 1
                    &&& class_rewritten(self.source(), maps, self.opcode_table(), src, m.classes[0])
                    &&& exists|pools: PoolMaps, order: Seq<usize>| #[trigger] image_of(out@, pools, m, order)
                },
            forall|i: u32|
                first_class_named(self.source(), descriptor@, i) && scan_class(
                    self.opcode_table(),
                    self.source().data@,
                    class_def_of(self.source(), i),
                ) == Scan::Clean && class_harvest(
                    self.source(),
                    self.opcode_table(),
                    empty_model(),
                    class_def_of(self.source(), i),
                ) is Some && r is Err ==> slice_stops(self.source(), self.opcode_table(), class_def_of(self.source(), i)),
    {
        let class_def = match self.find_class_def(descriptor)? {
            Some(cd) => cd,
            None => {
                let mut m = "class not found: ".to_string();
                push_str(&mut m, descriptor);
                return Err(DexError::Parse(m));
            },
        };
        self.preflight_unsupported(&class_def)?;
        let ghost i0 = choose|i: u32| first_class_named(self.dex, descriptor@, i) && class_def == class_def_of(self.dex, i);
        let mut builder = DexBuilder::new();
        assert(builder@.classes.len() == 0);
        let (draft, drafts) = self.harvest(&class_def, &mut builder)?;
        let ghost src = draft;
        let ghost ds = drafts@;
        let maps = builder.pool_maps();
        let ghost bm = builder@;
        proof {
            reveal(maps_for);
            assert(maps_for(maps, bm));
            assert(class_copied(self.dex, class_def, src));
        }
        let class = match self.rewrite_class(draft, &drafts, &maps) {
            Ok(c) => c,
            Err(e) => {
                proof {
                    assert(!rewrite_ok(self.dex, maps, self.opcodes@, src, ds));
                    assert(slice_stops(self.dex, self.opcodes@, class_def));
                }
                return Err(e);
            },
        };
        if !class_fits(&class) {
            proof {
                assert(class_rewritten(self.dex, maps, self.opcodes@, src, class));
                assert(rewrite_ok(self.dex, maps, self.opcodes@, src, ds) ==> slice_stops(self.dex, self.opcodes@, class_def));
                assert(!rewrite_ok(self.dex, maps, self.opcodes@, src, ds) ==> slice_stops(self.dex, self.opcodes@, class_def));
            }
            return Err(parse_error("too many try blocks"));
        }
        let ghost cl = class;
        let r = emit(builder, class);
        proof {
            if r is Err {
                assert(class_rewritten(self.dex, maps, self.opcodes@, src, cl));
                assert(rewrite_ok(self.dex, maps, self.opcodes@, src, ds) ==> slice_stops(self.dex, self.opcodes@, class_def));
                assert(!rewrite_ok(self.dex, maps, self.opcodes@, src, ds) ==> slice_stops(self.dex, self.opcodes@, class_def));
            }
        }
        proof {
            if r is Ok {
                let m = add_class_model(bm, cl);
                assert(m.classes[0] == cl);
                assert(m.classes.len() == 1);
                assert(first_class_named(self.dex, descriptor@, i0) && class_copied(self.dex, class_def_of(self.dex, i0), src)
                    && built_header(r->Ok_0@, m) && m.classes.len() == 1 && class_rewritten(
                    self.dex,
                    maps,
                    self.opcodes@,
                    src,
                    m.classes[0],
                ) && (exists|pools: PoolMaps, order: Seq<usize>| #[trigger] image_of(r->Ok_0@, pools, m, order)));
            }
        }
        r
    }
}

/// Slicing the class of definition `cd` stopped, after its names were harvested, for a
/// reason: for the class `c` and debug drafts `ds` harvested into the model `m`, and the
/// pools `maps` of `m`, moving the class into `maps` fails, or the moved class has a
/// method with more than 0xffff try blocks or an odd instruction count, or the image of
/// `m` with the class does not fit 32-bit offsets.
pub open spec fn slice_stops(dex: DexFile, table: Seq<OpcodeInfo>, cd: ClassDef) -> bool {
    exists|c: BuiltClass, ds: Seq<Option<DebugDraft>>, maps: PoolMaps, m: BuilderModel|
        #![trigger class_copied(dex, cd, c), maps_for(maps, m), rewrite_ok(dex, maps, table, c, ds)]
        {
            &&& class_copied(dex, cd, c)
            &&& class_harvest(dex, table, empty_model(), cd) == Some(m)
            &&& maps_for(maps, m)
            &&& ds.len() == c.direct_methods@.len() + c.virtual_methods@.len()
            &&& (!rewrite_ok(dex, maps, table, c, ds) || exists|out: BuiltClass|
                #[trigger] class_rewritten(dex, maps, table, c, out) && !(methods_fit(out.direct_methods@) && methods_fit(
                    out.virtual_methods@,
                ) && classes_even(seq![out]) && image_fits(add_class_model(m, out))))
        }
}

/// Add the one class to the builder and emit the image, signed twice over.
fn emit(builder: DexBuilder, class: BuiltClass) -> (r: Result<Vec<u8>>)
    requires
        builder@.classes.len() == 0,
        methods_fit(class.direct_methods@),
        methods_fit(class.virtual_methods@),
    ensures
        r matches Ok(out) ==> exists|m: BuilderModel| built_header(out@, m) && m.classes.len() == 1,
        r matches Ok(out) ==> built_header(out@, add_class_model(builder@, class)) && is_signed(out@),
        r matches Ok(out) ==> exists|maps: PoolMaps, order: Seq<usize>| #[trigger] image_of(
            out@,
            maps,
            add_class_model(builder@, class),
            order,
        ),
        add_class_model(builder@, class).classes == seq![class],
        r is Ok ==> classes_even(seq![class]),
        r matches Err(e) ==> !classes_even(seq![class]) || (e matches DexError::Parse(m) && m@ == "dex too large"@),
        r is Err ==> !classes_even(seq![class]) || !image_fits(add_class_model(builder@, class)),
{
    let mut builder = builder;
    let ghost c = class;
    builder.add_class(class);
    proof {
        assert(builder@.classes =~= seq![c]);
    }
    assert(classes_fit(builder@.classes));
    let ghost model = builder@;
    let r = builder.finish();
    match r {
        Ok(bytes) => {
            let ghost b = bytes@;
            let signed = resign(bytes, Ghost(model));
            proof {
                crate::dex::write::signed_image_is_fixed(b);
            }
            signed
        },
        Err(e) => Err(e),
    }
}

/// Fill in checksum and signature once more; what the header says stays.
fn resign(bytes: Vec<u8>, Ghost(model): Ghost<BuilderModel>) -> (r: Result<Vec<u8>>)
    requires
        built_header(bytes@, model),
        model.classes.len() == 1,
    ensures
        r is Ok,
        r matches Ok(out) ==> out@ == resigned(bytes@) && built_header(out@, model) && is_signed(out@),
{
    let mut bytes = bytes;
    let ghost unsigned = bytes@;
    fix_checksums(bytes.as_mut_slice())?;
    proof {
        lemma_resign_keeps_header(unsigned, bytes@, model);
    }
    Ok(bytes)
}

} // verus!
