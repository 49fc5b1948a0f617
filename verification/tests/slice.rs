use dex_parser::dex::builder::{BuiltClass, BuiltCode, BuiltField, BuiltMethod, DexBuilder};
use dex_parser::dex::encoded_value::EncodedValue;
use dex_parser::dex::slice::{DexSlicer, OpRef, OpcodeInfo};
use dex_parser::dex::DexFile;
use dex_parser::error::DexError;

fn opcodes() -> Vec<OpcodeInfo> {
    let unknown = OpcodeInfo { width: 0, ref_kind: OpRef::NoRef, wide_index: false, proto_operand: false };
    let mut t = vec![unknown; 256];
    // nop, return-void
    t[0x00] = OpcodeInfo { width: 2, ..unknown };
    t[0x0e] = OpcodeInfo { width: 2, ..unknown };
    // const-string (21c), const-string/jumbo (31c)
    t[0x1a] = OpcodeInfo { width: 4, ref_kind: OpRef::String, ..unknown };
    t[0x1b] = OpcodeInfo { width: 6, ref_kind: OpRef::String, wide_index: true, ..unknown };
    // new-instance (21c)
    t[0x22] = OpcodeInfo { width: 4, ref_kind: OpRef::Type, ..unknown };
    // sget (21c)
    t[0x60] = OpcodeInfo { width: 4, ref_kind: OpRef::Field, ..unknown };
    // invoke-direct (35c)
    t[0x70] = OpcodeInfo { width: 6, ref_kind: OpRef::Method, ..unknown };
    // invoke-custom (35c)
    t[0xfc] = OpcodeInfo { width: 6, ref_kind: OpRef::CallSite, ..unknown };
    t
}

fn method(class: &str, name: &str, proto: &str, insns: Vec<u8>) -> BuiltMethod {
    BuiltMethod {
        class: class.into(),
        name: name.into(),
        proto: proto.into(),
        access_flags: 1,
        direct: true,
        code: Some(BuiltCode {
            registers_size: 2,
            ins_size: 1,
            outs_size: 1,
            insns,
            tries: vec![],
            debug_info_off: 0,
            debug_ops: vec![],
        }),
    }
}

fn class(descriptor: &str, methods: Vec<BuiltMethod>, static_fields: Vec<BuiltField>) -> BuiltClass {
    BuiltClass {
        descriptor: descriptor.into(),
        access_flags: 1,
        superclass: Some("Ljava/lang/Object;".into()),
        interfaces: vec![],
        source_file: None,
        static_fields,
        instance_fields: vec![],
        direct_methods: methods,
        virtual_methods: vec![],
        annotations: Default::default(),
    }
}

fn string_index(dex: &DexFile, s: &str) -> u32 {
    (0..dex.header.string_ids_size).find(|&i| dex.get_string(i).unwrap() == s).unwrap()
}

/// A source image with two classes; `Main` loads a string, creates an `Other`, calls
/// its constructor and reads a static field of it.
fn source_dex(main_insns_extra: &[u8]) -> (Vec<u8>, u32) {
    let mut pre = DexBuilder::new();
    pre.intern_string("hello");
    pre.intern_type("LOther;");
    pre.intern_field_ref("LOther;", "COUNT", "I");
    pre.intern_method_ref("LOther;", "<init>", "()V");
    pre.intern_method_ref("LMain;", "run", "()V");
    pre.intern_type("Ljava/lang/Object;");
    pre.intern_string("zzz-only-in-other");
    let maps = pre.pool_maps();
    let s = maps.string("hello").unwrap() as u16;
    let t = maps.ty("LOther;").unwrap() as u16;
    let f = maps.field("LOther;", "COUNT", "I").unwrap() as u16;
    let m = maps.method("LOther;", "<init>", "()V").unwrap() as u16;
    let mut insns = vec![0x1a, 0x00];
    insns.extend_from_slice(&s.to_le_bytes());
    insns.extend_from_slice(&[0x22, 0x01]);
    insns.extend_from_slice(&t.to_le_bytes());
    insns.extend_from_slice(&[0x70, 0x10]);
    insns.extend_from_slice(&m.to_le_bytes());
    insns.extend_from_slice(&[0x01, 0x00]);
    insns.extend_from_slice(&[0x60, 0x00]);
    insns.extend_from_slice(&f.to_le_bytes());
    insns.extend_from_slice(main_insns_extra);
    insns.extend_from_slice(&[0x0e, 0x00]);
    let mut b = DexBuilder::new();
    b.intern_string("hello");
    b.intern_string("zzz-only-in-other");
    b.add_class(class("LMain;", vec![method("LMain;", "run", "()V", insns)], vec![]));
    b.add_class(class(
        "LOther;",
        vec![method("LOther;", "<init>", "()V", vec![0x0e, 0x00])],
        vec![BuiltField {
            class: "LOther;".into(),
            name: "COUNT".into(),
            typ: "I".into(),
            access_flags: 9,
            static_field: true,
            static_value: Some(EncodedValue::Int(7)),
        }],
    ));
    let bytes = b.finish().unwrap();
    (bytes, s as u32)
}

#[test]
fn slice_keeps_one_class_with_rewritten_indices() {
    let (src, _) = source_dex(&[]);
    let slicer = DexSlicer::new(&src, opcodes()).unwrap();
    let out = slicer.slice_class("LMain;").unwrap();
    let dex = DexFile::parse(&out).unwrap();
    assert_eq!(dex.header.class_defs_size, 1);
    let def = dex.get_class_def(0).unwrap();
    assert_eq!(dex.get_type(def.class_idx).unwrap(), "LMain;");
    assert_eq!(dex.get_type(def.superclass_idx).unwrap(), "Ljava/lang/Object;");
    // names used only by the other class are gone
    assert!((0..dex.header.string_ids_size).all(|i| dex.get_string(i).unwrap() != "zzz-only-in-other"));
    let cd = dex.get_class_data(&def).unwrap().unwrap();
    assert_eq!(cd.direct_methods.len(), 1);
    let code = dex.get_code_item(cd.direct_methods[0].code_off).unwrap();
    let insns = code.insns_slice(&dex.data).to_vec();
    assert_eq!(insns.len(), 20);
    let s = u16::from_le_bytes([insns[2], insns[3]]) as u32;
    assert_eq!(s, string_index(&dex, "hello"));
    let t = u16::from_le_bytes([insns[6], insns[7]]) as u32;
    assert_eq!(dex.get_type(t).unwrap(), "LOther;");
    let m = u16::from_le_bytes([insns[10], insns[11]]) as u32;
    let info = dex.get_method_info(m).unwrap();
    assert_eq!((info.class.as_str(), info.name.as_str()), ("LOther;", "<init>"));
    assert_eq!(info.return_type, "V");
    let f = u16::from_le_bytes([insns[16], insns[17]]) as u32;
    let finfo = dex.get_field_info(f).unwrap();
    assert_eq!((finfo.class.as_str(), finfo.name.as_str(), finfo.typ.as_str()), ("LOther;", "COUNT", "I"));
    // the header is consistent and signed
    assert_eq!(u32::from_le_bytes([out[32], out[33], out[34], out[35]]) as usize, out.len());
}

#[test]
fn slice_other_class_keeps_static_value() {
    let (src, _) = source_dex(&[]);
    let slicer = DexSlicer::new(&src, opcodes()).unwrap();
    let out = slicer.slice_class("LOther;").unwrap();
    let dex = DexFile::parse(&out).unwrap();
    let def = dex.get_class_def(0).unwrap();
    assert_eq!(dex.get_type(def.class_idx).unwrap(), "LOther;");
    assert_ne!(def.static_values_off, 0);
    let values = dex.get_static_values(&def).unwrap();
    assert_eq!(values.len(), 1);
    assert!(matches!(values[0], EncodedValue::Int(7)));
}

#[test]
fn slice_missing_class_is_parse_error() {
    let (src, _) = source_dex(&[]);
    let slicer = DexSlicer::new(&src, opcodes()).unwrap();
    match slicer.slice_class("Lcom/not/Present;") {
        Err(DexError::Parse(m)) => assert_eq!(m, "class not found: Lcom/not/Present;"),
        other => panic!("expected Parse, got {:?}", other.map(|v| v.len())),
    }
}

#[test]
fn slice_rejects_invoke_custom() {
    let (src, _) = source_dex(&[0xfc, 0x00, 0x00, 0x00, 0x00, 0x00]);
    let slicer = DexSlicer::new(&src, opcodes()).unwrap();
    assert!(matches!(slicer.slice_class("LMain;"), Err(DexError::UnsupportedRef)));
}

#[test]
fn slicer_needs_a_dex_image() {
    assert!(matches!(DexSlicer::new(&[0u8; 4], opcodes()), Err(DexError::InvalidMagic)));
}

#[test]
fn slice_output_is_signed_and_sorted() {
    let (src, _) = source_dex(&[]);
    let slicer = DexSlicer::new(&src, opcodes()).unwrap();
    let out = slicer.slice_class("LMain;").unwrap();
    let mut again = out.clone();
    dex_parser::dex::write::fix_checksums(&mut again).unwrap();
    assert_eq!(again, out);
    let dex = DexFile::parse(&out).unwrap();
    let strings: Vec<String> = (0..dex.header.string_ids_size).map(|i| dex.get_string(i).unwrap()).collect();
    for i in 1..strings.len() {
        assert!(strings[i - 1] < strings[i], "string_ids not sorted at {i}");
    }
}
