use dex_parser::dex::annotations::AnnotationsDirectory;
use dex_parser::dex::builder::{
    build_debug_info, build_simple_debug, encode_mutf8, make_shorty, parse_proto, shorty_char, BuiltClass,
    BuiltCode, BuiltMethod, BuiltTry, DebugBuilderOp, DexBuilder,
};
use dex_parser::dex::DexFile;
use dex_parser::error::DexError;

fn u32_at(b: &[u8], off: usize) -> u32 {
    u32::from_le_bytes([b[off], b[off + 1], b[off + 2], b[off + 3]])
}

fn hello_class(code: BuiltCode) -> BuiltClass {
    BuiltClass {
        descriptor: "LHello;".into(),
        access_flags: 1,
        superclass: Some("Ljava/lang/Object;".into()),
        interfaces: vec![],
        source_file: None,
        static_fields: vec![],
        instance_fields: vec![],
        direct_methods: vec![BuiltMethod {
            class: "LHello;".into(),
            name: "<init>".into(),
            proto: "()V".into(),
            access_flags: 0x10001,
            direct: true,
            code: Some(code),
        }],
        virtual_methods: vec![],
        annotations: Default::default(),
    }
}

#[test]
fn build_empty_dex() {
    let bytes = DexBuilder::new().finish().unwrap();
    let dex = DexFile::parse(&bytes).unwrap();
    assert_eq!(dex.header.class_defs_size, 0);
}

#[test]
fn build_minimal_class() {
    let mut b = DexBuilder::new();
    b.add_class(BuiltClass {
        descriptor: "LHello;".into(),
        access_flags: 1, // public
        superclass: Some("Ljava/lang/Object;".into()),
        interfaces: vec![],
        source_file: None,
        static_fields: vec![],
        instance_fields: vec![],
        direct_methods: vec![BuiltMethod {
            class: "LHello;".into(),
            name: "<init>".into(),
            proto: "()V".into(),
            access_flags: 0x10001, // public constructor
            direct: true,
            code: Some(BuiltCode {
                registers_size: 1,
                ins_size: 1,
                outs_size: 0,
                insns: vec![0x0e, 0x00], // return-void
                tries: vec![],
                debug_info_off: 0,
                debug_ops: vec![],
            }),
        }],
        virtual_methods: vec![],
        annotations: Default::default(),
    });
    let bytes = b.finish().unwrap();
    let dex = DexFile::parse(&bytes).unwrap();
    assert_eq!(dex.header.class_defs_size, 1);
    let name = dex.get_type(dex.get_class_def(0).unwrap().class_idx).unwrap();
    assert_eq!(name, "LHello;");
    let cd = dex.get_class_data(&dex.get_class_def(0).unwrap()).unwrap().unwrap();
    assert_eq!(cd.direct_methods.len(), 1);
    let code = dex.get_code_item(cd.direct_methods[0].code_off).unwrap();
    assert_eq!(code.insns_slice(&dex.data), &[0x0e, 0x00]);
}

#[test]
fn builder_header_counts_match_pools() {
    let mut b = DexBuilder::new();
    b.intern_string("zeta");
    b.intern_string("alpha");
    b.intern_string("alpha");
    b.intern_type("LA;");
    b.intern_field_ref("LA;", "f", "I");
    b.intern_method_ref("LA;", "m", "(I)V");
    // strings: "LA;", "I", "V", "VI", "alpha", "f", "m", "zeta"
    let bytes = b.finish().unwrap();
    assert_eq!(&bytes[0..8], b"dex\n035\0");
    assert_eq!(u32_at(&bytes, 32) as usize, bytes.len());
    assert_eq!(u32_at(&bytes, 36), 0x70);
    assert_eq!(u32_at(&bytes, 40), 0x1234_5678);
    assert_eq!(u32_at(&bytes, 56), 8);
    assert_eq!(u32_at(&bytes, 64), 3);
    assert_eq!(u32_at(&bytes, 72), 1);
    assert_eq!(u32_at(&bytes, 80), 1);
    assert_eq!(u32_at(&bytes, 88), 1);
    assert_eq!(u32_at(&bytes, 96), 0);
    assert_eq!((u32_at(&bytes, 104) + u32_at(&bytes, 108)) as usize, bytes.len());
    let dex = DexFile::parse(&bytes).unwrap();
    let strings: Vec<String> = (0..8).map(|i| dex.get_string(i).unwrap()).collect();
    assert_eq!(strings, vec!["I", "LA;", "V", "VI", "alpha", "f", "m", "zeta"]);
    // type ids follow string ids: I, LA;, V
    assert_eq!(dex.get_type(0).unwrap(), "I");
    assert_eq!(dex.get_type(1).unwrap(), "LA;");
    assert_eq!(dex.get_type(2).unwrap(), "V");
}

#[test]
fn builder_pool_maps_ids() {
    let mut b = DexBuilder::new();
    b.intern_method_ref("LB;", "run", "(LB;)V");
    b.intern_method_ref("LA;", "run", "()V");
    b.intern_method_ref("LA;", "go", "(I)I");
    let maps = b.pool_maps();
    // strings sorted by code point
    assert_eq!(maps.string("I").unwrap(), 0);
    assert_eq!(maps.string("II").unwrap(), 1);
    assert_eq!(maps.string("LA;").unwrap(), 2);
    assert_eq!(maps.string("LB;").unwrap(), 3);
    assert_eq!(maps.string("V").unwrap(), 4);
    assert_eq!(maps.string("VL").unwrap(), 5);
    assert!(matches!(maps.string("nope"), Err(DexError::Parse(_))));
    assert_eq!(maps.ty("I").unwrap(), 0);
    assert_eq!(maps.ty("LA;").unwrap(), 1);
    assert_eq!(maps.ty("LB;").unwrap(), 2);
    assert_eq!(maps.ty("V").unwrap(), 3);
    // protos by (return type id, parameter type ids): (I)I, (LB;)V, ()V
    assert_eq!(maps.proto("(I)I").unwrap(), 0);
    assert_eq!(maps.proto("()V").unwrap(), 1);
    assert_eq!(maps.proto("(LB;)V").unwrap(), 2);
    // methods by (class, name, proto)
    assert_eq!(maps.method("LA;", "go", "(I)I").unwrap(), 0);
    assert_eq!(maps.method("LA;", "run", "()V").unwrap(), 1);
    assert_eq!(maps.method("LB;", "run", "(LB;)V").unwrap(), 2);
    assert!(matches!(maps.method("LB;", "run", "()V"), Err(DexError::Parse(_))));
    assert!(matches!(maps.field("LA;", "x", "I"), Err(DexError::Parse(_))));
}

#[test]
fn parse_proto_splits_descriptors() {
    let (params, ret) = parse_proto("(ILjava/lang/String;[J[[Lfoo;)V");
    assert_eq!(params, vec!["I", "Ljava/lang/String;", "[J", "[[Lfoo;"]);
    assert_eq!(ret, "V");
    let (params, ret) = parse_proto("  ()[Ljava/lang/Object;  ");
    assert!(params.is_empty());
    assert_eq!(ret, "[Ljava/lang/Object;");
    let (params, ret) = parse_proto("(I");
    assert!(params.is_empty());
    assert_eq!(ret, "V");
}

#[test]
fn shorty_descriptors() {
    assert_eq!(shorty_char("I"), 'I');
    assert_eq!(shorty_char("Ljava/lang/String;"), 'L');
    assert_eq!(shorty_char("[[J"), 'J');
    assert_eq!(shorty_char(""), 'V');
    let params: Vec<String> = vec!["I".into(), "Ljava/lang/String;".into(), "[J".into()];
    assert_eq!(make_shorty(&params, "V"), "VILJ");
}

#[test]
fn builder_mutf8_bytes() {
    assert_eq!(encode_mutf8("a"), vec![0x61]);
    assert_eq!(encode_mutf8("\u{0}"), vec![0xc0, 0x80]);
    assert_eq!(encode_mutf8("\u{e9}"), vec![0xc3, 0xa9]);
    assert_eq!(encode_mutf8("\u{20ac}"), vec![0xe2, 0x82, 0xac]);
    // beyond the BMP only the low 16 bits are kept
    assert_eq!(encode_mutf8("\u{1f600}"), vec![0xef, 0x98, 0x80]);
}

#[test]
fn simple_debug_bytes() {
    let out = build_simple_debug(1, &[(2, 3), (2, 3)]);
    assert_eq!(out, vec![1, 0, 0x01, 2, 0x02, 2, 0x0a, 0x0a, 0x00]);
}

#[test]
fn debug_info_bytes() {
    let ops = vec![
        DebugBuilderOp::Line(3),
        DebugBuilderOp::Prologue,
        DebugBuilderOp::StartLocal { reg: 1, name_idx: 2, type_idx: 3 },
        DebugBuilderOp::Epilogue,
        DebugBuilderOp::Line(3),
    ];
    let out = build_debug_info(0, &[Some(5), None], &ops);
    assert_eq!(out, vec![1, 2, 6, 0, 0x02, 2, 0x0a, 0x07, 0x03, 1, 3, 4, 0x08, 0x0a, 0x00]);
}

#[test]
fn builder_rejects_odd_insns() {
    let mut b = DexBuilder::new();
    b.add_class(hello_class(BuiltCode {
        registers_size: 1,
        ins_size: 1,
        outs_size: 0,
        insns: vec![0x0e],
        tries: vec![],
        debug_info_off: 0,
        debug_ops: vec![],
    }));
    assert!(matches!(b.finish(), Err(DexError::Parse(_))));
}

#[test]
fn builder_writes_tries_and_handlers() {
    let mut b = DexBuilder::new();
    b.add_class(hello_class(BuiltCode {
        registers_size: 2,
        ins_size: 1,
        outs_size: 0,
        insns: vec![0x00, 0x00, 0x0e, 0x00, 0x0e, 0x00],
        tries: vec![BuiltTry { start_unit: 0, insn_count: 1, handlers: vec![(1, 2)], catch_all: Some(1) }],
        debug_info_off: 0,
        debug_ops: vec![],
    }));
    let bytes = b.finish().unwrap();
    let dex = DexFile::parse(&bytes).unwrap();
    let cd = dex.get_class_data(&dex.get_class_def(0).unwrap()).unwrap().unwrap();
    let off = cd.direct_methods[0].code_off as usize;
    let code = dex.get_code_item(off as u32).unwrap();
    assert_eq!(code.tries_size, 1);
    assert_eq!(code.insns_size, 3);
    // 16-byte header, 6 insn bytes, 2 padding bytes, then the try item
    let t = off + 16 + 6 + 2;
    assert_eq!(u32_at(&bytes, t), 0);
    assert_eq!(u16::from_le_bytes([bytes[t + 4], bytes[t + 5]]), 1);
    assert_eq!(u16::from_le_bytes([bytes[t + 6], bytes[t + 7]]), 1);
    // handler list: size 1, then handler size -1 (sleb 0x7f), pair (1, 2), catch-all 1
    assert_eq!(&bytes[t + 8..t + 13], &[0x01, 0x7f, 0x01, 0x02, 0x01]);
}

#[test]
fn builder_class_defs_point_at_names() {
    let mut b = DexBuilder::new();
    let mut c = hello_class(BuiltCode {
        registers_size: 1,
        ins_size: 1,
        outs_size: 0,
        insns: vec![0x0e, 0x00],
        tries: vec![],
        debug_info_off: 0,
        debug_ops: vec![],
    });
    c.source_file = Some("Hello.java".into());
    c.interfaces = vec!["Ljava/lang/Runnable;".into()];
    c.annotations = AnnotationsDirectory::default();
    b.add_class(c);
    let bytes = b.finish().unwrap();
    let dex = DexFile::parse(&bytes).unwrap();
    let def = dex.get_class_def(0).unwrap();
    assert_eq!(dex.get_type(def.superclass_idx).unwrap(), "Ljava/lang/Object;");
    assert_eq!(dex.get_string(def.source_file_idx).unwrap(), "Hello.java");
    assert_ne!(def.interfaces_off, 0);
    assert_eq!(def.annotations_off, 0);
    assert_eq!(def.static_values_off, 0);
}

#[test]
fn builder_mutf8_reads_back() {
    let text = "a\u{0}\u{e9}\u{20ac}z";
    let bytes = encode_mutf8(text);
    assert!(!bytes.contains(&0));
    assert_eq!(dex_parser::dex::strings::decode_mutf8(&bytes).unwrap(), text);
}

#[test]
fn mutf8_surrogate_pair_decodes_to_one_char() {
    let s = "a\u{1F600}b\u{10FFFF}";
    let bytes = dex_parser::dex::strings::encode_mutf8(s);
    assert_eq!(bytes.len(), 1 + 6 + 1 + 6);
    assert_eq!(dex_parser::dex::strings::decode_mutf8(&bytes), Ok(s.to_string()));
}

#[test]
fn mutf8_lone_surrogate_and_errors() {
    // a high surrogate alone becomes U+FFFD
    let lone = [0xed, 0xa0, 0x80, 0x41];
    assert_eq!(dex_parser::dex::strings::decode_mutf8(&lone), Ok("\u{FFFD}A".to_string()));
    assert_eq!(dex_parser::dex::strings::decode_mutf8(&[0xe0, 0x80]), Err("truncated MUTF-8".to_string()));
    assert_eq!(dex_parser::dex::strings::decode_mutf8(&[0x41, 0xf8]), Err("invalid MUTF-8".to_string()));
}

#[test]
fn replace_insns_moves_virtual_code_offsets() {
    let code = |insns: Vec<u8>| {
        Some(BuiltCode { registers_size: 1, ins_size: 1, outs_size: 0, insns, tries: vec![], debug_info_off: 0, debug_ops: vec![] })
    };
    let mut b = DexBuilder::new();
    b.add_class(BuiltClass {
        descriptor: "LHello;".into(),
        access_flags: 1,
        superclass: Some("Ljava/lang/Object;".into()),
        interfaces: vec![],
        source_file: None,
        static_fields: vec![],
        instance_fields: vec![],
        direct_methods: vec![BuiltMethod {
            class: "LHello;".into(),
            name: "<init>".into(),
            proto: "()V".into(),
            access_flags: 0x10001,
            direct: true,
            code: code(vec![0x0e, 0x00]),
        }],
        virtual_methods: vec![BuiltMethod {
            class: "LHello;".into(),
            name: "run".into(),
            proto: "()V".into(),
            access_flags: 1,
            direct: false,
            code: code(vec![0x12, 0x00, 0x0e, 0x00]),
        }],
        annotations: Default::default(),
    });
    let mut bytes = b.finish().unwrap();
    let dex = DexFile::parse(&bytes).unwrap();
    let cd = dex.get_class_data(&dex.get_class_def(0).unwrap()).unwrap().unwrap();
    let d_off = cd.direct_methods[0].code_off;
    let v_off = cd.virtual_methods[0].code_off;
    // grow the body that comes first, so that the other one moves
    let (first, grown, other_insns): (u32, Vec<u8>, Vec<u8>) = if d_off < v_off {
        (d_off, vec![0x00, 0x00, 0x00, 0x00, 0x0e, 0x00], vec![0x12, 0x00, 0x0e, 0x00])
    } else {
        (v_off, vec![0x00, 0x00, 0x00, 0x00, 0x12, 0x00, 0x0e, 0x00], vec![0x0e, 0x00])
    };
    dex_parser::dex::write::replace_code_insns(&mut bytes, first, &grown).unwrap();
    let dex = DexFile::parse(&bytes).unwrap();
    let cd = dex.get_class_data(&dex.get_class_def(0).unwrap()).unwrap().unwrap();
    let d = dex.get_code_item(cd.direct_methods[0].code_off).unwrap();
    let v = dex.get_code_item(cd.virtual_methods[0].code_off).unwrap();
    if d_off < v_off {
        assert_eq!(d.insns_slice(&dex.data), &grown[..]);
        assert_eq!(v.insns_slice(&dex.data), &other_insns[..]);
        assert_eq!(cd.virtual_methods[0].code_off, v_off + 4);
    } else {
        assert_eq!(v.insns_slice(&dex.data), &grown[..]);
        assert_eq!(d.insns_slice(&dex.data), &other_insns[..]);
        assert_eq!(cd.direct_methods[0].code_off, d_off + 4);
    }
}

#[test]
fn built_id_tables_name_the_pools() {
    let mut b = DexBuilder::new();
    b.intern_string("zeta");
    b.intern_field_ref("LA;", "f", "I");
    b.intern_method_ref("LA;", "m", "(I)V");
    b.intern_field_ref("LB;", "g", "LA;");
    let bytes = b.finish().unwrap();
    let ns = u32_at(&bytes, 56) as usize;
    let nt = u32_at(&bytes, 64) as usize;
    // strings: "I", "LA;", "LB;", "V", "VI", "f", "g", "m", "zeta"
    assert_eq!(ns, 9);
    assert_eq!(nt, 4);
    // type_ids right after string_ids: the string ids of I, LA;, LB;, V
    let types_at = 0x70 + 4 * ns;
    let tids: Vec<u32> = (0..nt).map(|k| u32_at(&bytes, types_at + 4 * k)).collect();
    assert_eq!(tids, vec![0, 1, 2, 3]);
    let dex = DexFile::parse(&bytes).unwrap();
    let f0 = dex.get_field_info(0).unwrap();
    assert_eq!((f0.class.as_str(), f0.name.as_str(), f0.typ.as_str()), ("LA;", "f", "I"));
    let f1 = dex.get_field_info(1).unwrap();
    assert_eq!((f1.class.as_str(), f1.name.as_str(), f1.typ.as_str()), ("LB;", "g", "LA;"));
    let m0 = dex.get_method_info(0).unwrap();
    assert_eq!((m0.class.as_str(), m0.name.as_str(), m0.return_type.as_str()), ("LA;", "m", "V"));
    assert_eq!(m0.params, vec!["I".to_string()]);
}
