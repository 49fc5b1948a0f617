//! Member references of a DEX image by name: field and method ids, prototypes, type
//! lists, and a class's interfaces, static values and annotations.

use vstd::prelude::*;

use crate::dex::annotations::{parse_annotations_directory, AnnotationsDirectory};
use crate::dex::encoded_value::{decode_encoded_array, fault_error, models, spec_decode_array, EncodedValue};
use crate::dex::file::DexFile;
use crate::dex::header::ClassDef;
use crate::error::{truncated, Result};
use crate::leb128::{read_u16, read_u32, spec_read_u16, spec_read_u32};

verus! {

/// A field reference by name: its class, name and type descriptors.
#[derive(Debug, Clone)]
pub struct FieldInfo {
    pub class: String,
    pub name: String,
    pub typ: String,
}

/// A method reference by name: its class, name, parameter types and return type.
#[derive(Debug, Clone)]
pub struct MethodInfo {
    pub class: String,
    pub name: String,
    pub params: Vec<String>,
    pub return_type: String,
}

/// The texts of a list of strings.
pub open spec fn names(v: Seq<String>) -> Seq<Seq<char>> {
    Seq::new(v.len(), |i: int| v[i]@)
}

impl DexFile {
    /// The descriptor of type `idx`.
    pub open spec fn spec_type(&self, idx: u32) -> Option<Seq<char>> {
        match self.type_string_idx(idx) {
            Some(si) => self.spec_string(si),
            None => None,
        }
    }

    /// The `u16` at `pos` of the image.
    pub open spec fn half_at(&self, pos: int) -> Option<u16> {
        spec_read_u16(self.data@, pos)
    }

    /// The `u32` at `pos` of the image.
    pub open spec fn word_at(&self, pos: int) -> Option<u32> {
        spec_read_u32(self.data@, pos)
    }

    /// The types of the `type_list` at `off`: none for offset 0, else its size then one
    /// type index (16 bits) per entry.
    pub open spec fn spec_type_list(&self, off: u32) -> Option<Seq<Seq<char>>> {
        if off == 0 {
            Some(Seq::empty())
        } else {
            match self.word_at(off as int) {
                Some(n) => if (forall|k: int|
                    0 <= k < n ==> ((#[trigger] self.half_at(off + 4 + 2 * k)) matches Some(t) && self.spec_type(
                        t as u32,
                    ) is Some)) {
                    Some(
                        Seq::new(
                            n as nat,
                            |k: int| self.spec_type(self.half_at(off + 4 + 2 * k)->0 as u32)->0,
                        ),
                    )
                } else {
                    None
                },
                None => None,
            }
        }
    }

    /// The types of the `type_list` at `off` (empty for offset 0).
    pub fn get_type_list(&self, off: u32) -> (r: Result<Vec<String>>)
        ensures
            match r {
                Ok(v) => self.spec_type_list(off) == Some(names(v@)),
                Err(e) => self.spec_type_list(off) is None && (e is Truncated || e is Parse),
            },
    {
        let mut out: Vec<String> = Vec::new();
        if off == 0 {
            assert(names(out@) =~= Seq::<Seq<char>>::empty());
            return Ok(out);
        }
        let d = self.data.as_slice();
        let n = match read_u32(d, off as usize) {
            Some(n) => n,
            None => return Err(truncated("type_list")),
        };
        let mut k: u32 = 0;
        while k < n
            invariant
                k <= n,
                off != 0,
                d@ == self.data@,
                self.word_at(off as int) == Some(n),
                out@.len() == k,
                forall|j: int|
                    0 <= j < k ==> ((#[trigger] self.half_at(off + 4 + 2 * j)) matches Some(t) && self.spec_type(
                        t as u32,
                    ) == Some(out@[j]@)),
            decreases n - k,
        {
            let pos: u64 = off as u64 + 4 + 2 * (k as u64);
            if pos + 2 > d.len() as u64 {
                proof {
                    assert(self.half_at(off + 4 + 2 * k) is None);
                    assert(!(forall|j: int|
                        0 <= j < n ==> ((#[trigger] self.half_at(off + 4 + 2 * j)) matches Some(t)
                            && self.spec_type(t as u32) is Some)));
                }
                return Err(truncated("type_list entry"));
            }
            let t = match read_u16(d, pos as usize) {
                Some(t) => t,
                None => return Err(truncated("type_list entry")),
            };
            let s = match self.get_type(t as u32) {
                Ok(s) => s,
                Err(e) => {
                    proof {
                        assert(self.half_at(off + 4 + 2 * k) == Some(t));
                        assert(!(forall|j: int|
                            0 <= j < n ==> ((#[trigger] self.half_at(off + 4 + 2 * j)) matches Some(t)
                                && self.spec_type(t as u32) is Some)));
                    }
                    return Err(e);
                },
            };
            out.push(s);
            k = k + 1;
        }
        assert(names(out@) =~= Seq::new(
            n as nat,
            |j: int| self.spec_type(self.half_at(off + 4 + 2 * j)->0 as u32)->0,
        ));
        Ok(out)
    }

    /// `field_ids[idx]`: class type index, type index, name string index.
    pub open spec fn field_id(&self, idx: u32) -> Option<(u16, u16, u32)> {
        let p = self.header.field_ids_off + 8 * idx;
        if idx < self.header.field_ids_size {
            match (self.half_at(p), self.half_at(p + 2), self.word_at(p + 4)) {
                (Some(c), Some(t), Some(n)) => Some((c, t, n)),
                _ => None,
            }
        } else {
            None
        }
    }

    /// Field reference `idx` by name.
    pub fn get_field_info(&self, idx: u32) -> (r: Result<FieldInfo>)
        ensures
            r is Ok <==> (self.field_id(idx) matches Some((c, t, n)) && self.spec_type(c as u32) is Some
                && self.spec_string(n) is Some && self.spec_type(t as u32) is Some),
            r matches Ok(f) ==> (self.field_id(idx) matches Some((c, t, n)) && self.spec_type(c as u32) == Some(
                f.class@,
            ) && self.spec_string(n) == Some(f.name@) && self.spec_type(t as u32) == Some(f.typ@)),
            r is Err ==> (r->Err_0 is Truncated || r->Err_0 is Parse),
    {
        if idx >= self.header.field_ids_size {
            return Err(truncated("field_ids"));
        }
        let d = self.data.as_slice();
        let p: u64 = self.header.field_ids_off as u64 + 8 * (idx as u64);
        if p + 8 > d.len() as u64 {
            return Err(truncated("field_ids"));
        }
        let p = p as usize;
        let c = match read_u16(d, p) {
            Some(v) => v,
            None => return Err(truncated("field_ids")),
        };
        let t = match read_u16(d, p + 2) {
            Some(v) => v,
            None => return Err(truncated("field_ids")),
        };
        let n = match read_u32(d, p + 4) {
            Some(v) => v,
            None => return Err(truncated("field_ids")),
        };
        let class = self.get_type(c as u32)?;
        let name = self.get_string(n)?;
        let typ = self.get_type(t as u32)?;
        Ok(FieldInfo { class, name, typ })
    }

    /// `proto_ids[idx]`: shorty string index, return type index, parameters offset.
    pub open spec fn proto_id(&self, idx: u32) -> Option<(u32, u32, u32)> {
        let p = self.header.proto_ids_off + 12 * idx;
        if idx < self.header.proto_ids_size {
            match (self.word_at(p), self.word_at(p + 4), self.word_at(p + 8)) {
                (Some(s), Some(rt), Some(po)) => Some((s, rt, po)),
                _ => None,
            }
        } else {
            None
        }
    }

    /// Prototype `idx`: its return type and parameter types.
    pub fn get_proto(&self, idx: u32) -> (r: Result<(String, Vec<String>)>)
        ensures
            r is Ok <==> (self.proto_id(idx) matches Some((s, rt, po)) && self.spec_type(rt) is Some
                && self.spec_type_list(po) is Some),
            r matches Ok((ret, ps)) ==> (self.proto_id(idx) matches Some((s, rt, po)) && self.spec_type(rt)
                == Some(ret@) && self.spec_type_list(po) == Some(names(ps@))),
            r is Err ==> (r->Err_0 is Truncated || r->Err_0 is Parse),
    {
        if idx >= self.header.proto_ids_size {
            return Err(truncated("proto_ids"));
        }
        let d = self.data.as_slice();
        let p: u64 = self.header.proto_ids_off as u64 + 12 * (idx as u64);
        if p + 12 > d.len() as u64 {
            return Err(truncated("proto_ids"));
        }
        let p = p as usize;
        let rt = match read_u32(d, p + 4) {
            Some(v) => v,
            None => return Err(truncated("proto_ids")),
        };
        let po = match read_u32(d, p + 8) {
            Some(v) => v,
            None => return Err(truncated("proto_ids")),
        };
        proof {
            assert(self.word_at(p as int) is Some);
        }
        let ret = self.get_type(rt)?;
        let params = self.get_type_list(po)?;
        Ok((ret, params))
    }

    /// `method_ids[idx]`: class type index, proto index, name string index.
    pub open spec fn method_id(&self, idx: u32) -> Option<(u16, u16, u32)> {
        let p = self.header.method_ids_off + 8 * idx;
        if idx < self.header.method_ids_size {
            match (self.half_at(p), self.half_at(p + 2), self.word_at(p + 4)) {
                (Some(c), Some(pr), Some(n)) => Some((c, pr, n)),
                _ => None,
            }
        } else {
            None
        }
    }

    /// Method reference `idx` by name.
    pub fn get_method_info(&self, idx: u32) -> (r: Result<MethodInfo>)
        ensures
            r is Ok <==> (self.method_id(idx) matches Some((c, pr, n)) && self.spec_type(c as u32) is Some
                && self.spec_string(n) is Some && (self.proto_id(pr as u32) matches Some((s, rt, po))
                && self.spec_type(rt) is Some && self.spec_type_list(po) is Some)),
            r matches Ok(m) ==> (self.method_id(idx) matches Some((c, pr, n)) && self.spec_type(c as u32)
                == Some(m.class@) && self.spec_string(n) == Some(m.name@) && (self.proto_id(pr as u32) matches Some(
                (s, rt, po),
            ) && self.spec_type(rt) == Some(m.return_type@) && self.spec_type_list(po) == Some(
                names(m.params@),
            ))),
            r is Err ==> (r->Err_0 is Truncated || r->Err_0 is Parse),
    {
        if idx >= self.header.method_ids_size {
            return Err(truncated("method_ids"));
        }
        let d = self.data.as_slice();
        let p: u64 = self.header.method_ids_off as u64 + 8 * (idx as u64);
        if p + 8 > d.len() as u64 {
            return Err(truncated("method_ids"));
        }
        let p = p as usize;
        let c = match read_u16(d, p) {
            Some(v) => v,
            None => return Err(truncated("method_ids")),
        };
        let pr = match read_u16(d, p + 2) {
            Some(v) => v,
            None => return Err(truncated("method_ids")),
        };
        let n = match read_u32(d, p + 4) {
            Some(v) => v,
            None => return Err(truncated("method_ids")),
        };
        let class = self.get_type(c as u32)?;
        let name = self.get_string(n)?;
        let (return_type, params) = self.get_proto(pr as u32)?;
        Ok(MethodInfo { class, name, params, return_type })
    }

    /// The interfaces `class_def` implements.
    pub fn get_interfaces(&self, class_def: &ClassDef) -> (r: Result<Vec<String>>)
        ensures
            match r {
                Ok(v) => self.spec_type_list(class_def.interfaces_off) == Some(names(v@)),
                Err(e) => self.spec_type_list(class_def.interfaces_off) is None && (e is Truncated
                    || e is Parse),
            },
    {
        self.get_type_list(class_def.interfaces_off)
    }

    /// The static values of `class_def` (empty when it has none).
    pub fn get_static_values(&self, class_def: &ClassDef) -> (r: Result<Vec<EncodedValue>>)
        ensures
            class_def.static_values_off == 0 ==> (r matches Ok(v) && v@.len() == 0),
            class_def.static_values_off != 0 ==> match r {
                Ok(v) => spec_decode_array(self.data@, class_def.static_values_off as int) matches Ok(
                    (ms, _),
                ) && ms == models(v@),
                Err(e) => spec_decode_array(self.data@, class_def.static_values_off as int) matches Err(f)
                    && fault_error(e, f),
            },
    {
        if class_def.static_values_off == 0 {
            return Ok(Vec::new());
        }
        let (values, _) = decode_encoded_array(self.data.as_slice(), class_def.static_values_off as usize)?;
        Ok(values)
    }

    /// The annotations directory of `class_def` (empty when it has none).
    pub fn get_annotations(&self, class_def: &ClassDef) -> (r: Result<AnnotationsDirectory>)
        ensures
            match r {
                Ok(d) => crate::dex::annotations::spec_parse_directory(self.data@, class_def.annotations_off)
                    == Ok::<_, crate::dex::encoded_value::DecodeFault>(
                    crate::dex::annotations::directory_model(d),
                ),
                Err(e) => crate::dex::annotations::spec_parse_directory(
                    self.data@,
                    class_def.annotations_off,
                ) is Err,
            },
    {
        parse_annotations_directory(self.data.as_slice(), class_def.annotations_off)
    }
}

} // verus!
