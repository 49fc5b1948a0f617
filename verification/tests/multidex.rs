use dex_parser::dex::file::DexFile;
use dex_parser::dex::header::ClassDef;
use dex_parser::dex::helper::{DexHelper, MethodId};
use dex_parser::error::DexError;
use dex_parser::multidex::{dex_sort_key, is_multidex_name, MultiDexHelper};

/// A DEX header and nothing else: magic, version, file size, header size, endian tag.
fn minimal_dex_bytes() -> Vec<u8> {
    let mut data = vec![0u8; 0x70];
    data[0..4].copy_from_slice(&[0x64, 0x65, 0x78, 0x0a]);
    data[4..8].copy_from_slice(b"035\0");
    data[32..36].copy_from_slice(&(0x70u32).to_le_bytes());
    data[36..40].copy_from_slice(&(0x70u32).to_le_bytes());
    data[40..44].copy_from_slice(&(0x1234_5678u32).to_le_bytes());
    data
}

fn put(data: &mut [u8], off: usize, v: u32) {
    data[off..off + 4].copy_from_slice(&v.to_le_bytes());
}

/// A DEX with three strings ("LFoo;", "bar", "hello"), one type, one method id and one class.
fn small_dex_bytes() -> Vec<u8> {
    let mut d = vec![0u8; 0xd9];
    d[0..4].copy_from_slice(&[0x64, 0x65, 0x78, 0x0a]);
    d[4..8].copy_from_slice(b"035\0");
    put(&mut d, 32, 0xd9);
    put(&mut d, 36, 0x70);
    put(&mut d, 40, 0x1234_5678);
    put(&mut d, 56, 3);
    put(&mut d, 60, 0x70);
    put(&mut d, 64, 1);
    put(&mut d, 68, 0x7c);
    put(&mut d, 88, 1);
    put(&mut d, 92, 0x80);
    put(&mut d, 96, 1);
    put(&mut d, 100, 0x88);
    put(&mut d, 0x70, 0xc6);
    put(&mut d, 0x74, 0xcd);
    put(&mut d, 0x78, 0xd2);
    put(&mut d, 0x7c, 0);
    d[0x80..0x82].copy_from_slice(&0u16.to_le_bytes());
    d[0x82..0x84].copy_from_slice(&0u16.to_le_bytes());
    put(&mut d, 0x84, 1);
    put(&mut d, 0x88, 0);
    put(&mut d, 0x8c, 1);
    put(&mut d, 0x90, 0xffff_ffff);
    put(&mut d, 0x98, 0xffff_ffff);
    d[0xc6..0xcd].copy_from_slice(&[5, b'L', b'F', b'o', b'o', b';', 0]);
    d[0xcd..0xd2].copy_from_slice(&[3, b'b', b'a', b'r', 0]);
    d[0xd2..0xd9].copy_from_slice(&[5, b'h', b'e', b'l', b'l', b'o', 0]);
    d
}

#[test]
fn test_dex_sort_key() {
    assert_eq!(dex_sort_key("classes.dex"), 0);
    assert_eq!(dex_sort_key("classes2.dex"), 2);
    assert_eq!(dex_sort_key("classes3.dex"), 3);
    assert_eq!(dex_sort_key("classes10.dex"), 10);
    assert!(dex_sort_key("classes.dex") < dex_sort_key("classes2.dex"));
    assert!(dex_sort_key("classes2.dex") < dex_sort_key("classes10.dex"));
}

#[test]
fn test_is_multidex_name() {
    assert!(is_multidex_name("classes.dex"));
    assert!(is_multidex_name("classes2.dex"));
    assert!(is_multidex_name("classes10.dex"));
    assert!(!is_multidex_name("other.dex"));
    assert!(!is_multidex_name("classes.txt"));
    assert!(!is_multidex_name("classes"));
    assert!(!is_multidex_name("classesX.dex"));
}

#[test]
fn sort_key_odd_names() {
    assert_eq!(dex_sort_key("classesX.dex"), u32::MAX);
    assert_eq!(dex_sort_key("classes99999999999.dex"), u32::MAX);
    assert_eq!(dex_sort_key("classes+7.dex"), 7);
    assert_eq!(dex_sort_key("classes4294967295.dex"), 4294967295);
    assert_eq!(dex_sort_key("classesclasses5.dex.dex"), 5);
    assert_eq!(dex_sort_key("other.dex"), u32::MAX);
    assert!(is_multidex_name("classes.dex.dex"));
    assert!(!is_multidex_name(".dex"));
}

#[test]
fn test_multi_dex_empty() {
    let multi = MultiDexHelper::new(vec![]);
    assert_eq!(multi.dex_count(), 0);
    assert_eq!(multi.classes().len(), 0);
    assert_eq!(multi.methods().len(), 0);
    assert_eq!(multi.fields().len(), 0);
    assert_eq!(multi.strings().len(), 0);
}

#[test]
fn test_multi_dex_single() {
    let data = minimal_dex_bytes();
    let dex = DexFile::parse(&data).unwrap();
    let multi = MultiDexHelper::new(vec![("classes.dex".to_string(), dex)]);

    assert_eq!(multi.dex_count(), 1);
    assert_eq!(multi.dex_sources()[0].filename, "classes.dex");
    assert_eq!(multi.dex_sources()[0].dex_index, 0);
    assert_eq!(multi.classes().len(), 0);
    assert_eq!(multi.methods().len(), 0);
    assert_eq!(multi.fields().len(), 0);
    assert_eq!(multi.strings().len(), 0);
}

#[test]
fn test_multi_dex_two() {
    let data1 = minimal_dex_bytes();
    let data2 = minimal_dex_bytes();
    let dex1 = DexFile::parse(&data1).unwrap();
    let dex2 = DexFile::parse(&data2).unwrap();
    let multi = MultiDexHelper::new(vec![
        ("classes.dex".to_string(), dex1),
        ("classes2.dex".to_string(), dex2),
    ]);

    assert_eq!(multi.dex_count(), 2);
    assert_eq!(multi.dex_sources()[0].filename, "classes.dex");
    assert_eq!(multi.dex_sources()[0].dex_index, 0);
    assert_eq!(multi.dex_sources()[1].filename, "classes2.dex");
    assert_eq!(multi.dex_sources()[1].dex_index, 1);
}

#[test]
fn multi_dex_items_are_tagged() {
    let a = DexFile::parse(&small_dex_bytes()).unwrap();
    let b = DexFile::parse(&minimal_dex_bytes()).unwrap();
    let c = DexFile::parse(&small_dex_bytes()).unwrap();
    let multi = MultiDexHelper::new(vec![
        ("classes.dex".to_string(), a),
        ("classes2.dex".to_string(), b),
        ("classes3.dex".to_string(), c),
    ]);
    let strings = multi.strings();
    assert_eq!(strings.len(), 6);
    let got: Vec<(String, usize)> =
        strings.into_iter().map(|r| { let s = r.unwrap(); (s.inner, s.source.dex_index) }).collect();
    assert_eq!(got[0], ("LFoo;".to_string(), 0));
    assert_eq!(got[2], ("hello".to_string(), 0));
    assert_eq!(got[3], ("LFoo;".to_string(), 2));
    let classes = multi.classes();
    assert_eq!(classes.len(), 2);
    let first = classes[0].as_ref().unwrap();
    assert_eq!(first.source.filename, "classes.dex");
    assert_eq!(first.inner.class_idx, 0);
    assert_eq!(first.inner.superclass_idx, 0xffff_ffff);
    let second = classes[1].as_ref().unwrap();
    assert_eq!(second.source.filename, "classes3.dex");
    let methods = multi.methods();
    assert_eq!(methods.len(), 2);
    assert_eq!(methods[1].as_ref().unwrap().inner, MethodId { class_idx: 0, proto_idx: 0, name_idx: 1 });
    assert_eq!(multi.fields().len(), 0);
    assert!(multi.get_dex(1).is_some());
    assert!(multi.get_dex(3).is_none());
    assert_eq!(multi.get_helper(2).unwrap().dex().data.len(), 0xd9);
}

#[test]
fn helper_reports_truncated_tables() {
    let mut data = minimal_dex_bytes();
    // claim two classes and four strings that are not there
    data[96..100].copy_from_slice(&2u32.to_le_bytes());
    data[100..104].copy_from_slice(&0x40u32.to_le_bytes());
    data[56..60].copy_from_slice(&4u32.to_le_bytes());
    data[60..64].copy_from_slice(&0x68u32.to_le_bytes());
    let dex = DexFile::parse(&data).unwrap();
    let helper = DexHelper::from_dex(&dex);
    let classes = helper.classes();
    assert_eq!(classes.len(), 2);
    assert!(classes[0].is_ok());
    assert!(classes[1].is_err());
    let strings = helper.strings();
    assert_eq!(strings.len(), 1);
    assert!(strings[0].is_err());
}

#[test]
fn from_images_sorts_and_filters() {
    let files = vec![
        ("classes10.dex".to_string(), small_dex_bytes()),
        ("not_a_dex.txt".to_string(), b"hello".to_vec()),
        ("classes.dex".to_string(), minimal_dex_bytes()),
        ("classes2.dex".to_string(), small_dex_bytes()),
        ("classesX.dex".to_string(), small_dex_bytes()),
    ];
    let multi = MultiDexHelper::from_images(&files, "here", true).unwrap();
    assert_eq!(multi.dex_count(), 3);
    let names: Vec<&str> = multi.dex_sources().iter().map(|s| s.filename.as_str()).collect();
    assert_eq!(names, vec!["classes.dex", "classes2.dex", "classes10.dex"]);
    assert_eq!(multi.get_dex(0).unwrap().data.len(), 0x70);
    assert_eq!(multi.get_dex(2).unwrap().data.len(), 0xd9);
}

#[test]
fn from_images_without_dex_files() {
    let files = vec![("other.txt".to_string(), b"hello".to_vec())];
    match MultiDexHelper::from_images(&files, "some/dir", true) {
        Err(DexError::NoDexFiles(p)) => assert_eq!(p, "some/dir"),
        _ => panic!("expected NoDexFiles"),
    }
    // without the magic check a bad image is selected and refused
    let files = vec![("classes.dex".to_string(), b"hello".to_vec())];
    assert!(matches!(MultiDexHelper::from_images(&files, "x", true), Err(DexError::NoDexFiles(_))));
    assert!(matches!(MultiDexHelper::from_images(&files, "x", false), Err(DexError::InvalidMagic)));
}

#[test]
fn multi_dex_classes_are_each_images_classes_in_order() {
    let mut broken = minimal_dex_bytes();
    broken[96..100].copy_from_slice(&2u32.to_le_bytes());
    broken[100..104].copy_from_slice(&0x40u32.to_le_bytes());
    let images = vec![
        ("classes.dex".to_string(), DexFile::parse(&small_dex_bytes()).unwrap()),
        ("classes2.dex".to_string(), DexFile::parse(&broken).unwrap()),
        ("classes3.dex".to_string(), DexFile::parse(&small_dex_bytes()).unwrap()),
    ];
    let multi = MultiDexHelper::new(images);
    let all = multi.classes();
    let mut expected: Vec<(usize, String)> = Vec::new();
    for i in 0..multi.dex_count() {
        for item in multi.get_helper(i).unwrap().classes() {
            expected.push((i, format!("{item:?}")));
        }
    }
    assert_eq!(all.len(), expected.len());
    for (got, (i, want)) in all.iter().zip(expected.iter()) {
        match got {
            Ok(s) => {
                assert_eq!(s.source.dex_index, *i);
                assert_eq!(format!("{:?}", Ok::<_, DexError>(s.inner)), *want);
            }
            Err(e) => assert_eq!(format!("{:?}", Err::<ClassDef, _>(e.clone())), *want),
        }
    }
    assert!(matches!(&all[2], Err(DexError::Truncated(t)) if t == "class_def"));
    assert_eq!(MultiDexHelper::new(vec![]).classes().len(), 0);
}
