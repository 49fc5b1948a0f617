use dex_parser::dex::annotations::{
    parse_annotations_directory, parse_visibility, simple_annotation, visibility_name, write_annotations_directory,
    AnnotationsDirectory, VISIBILITY_BUILD, VISIBILITY_RUNTIME, VISIBILITY_SYSTEM,
};
use dex_parser::dex::encoded_value::EncodedValue;
use dex_parser::error::DexError;

#[test]
fn write_parse_class_annotation() {
    let mut data = Vec::new();
    let data_off = 0u32;
    let dir = AnnotationsDirectory {
        class_annotations: vec![simple_annotation(1, vec![(2, EncodedValue::Int(7))], VISIBILITY_RUNTIME)],
        ..Default::default()
    };
    let off = write_annotations_directory(&mut data, data_off, &dir).unwrap();
    assert_ne!(off, 0);
    let parsed = parse_annotations_directory(&data, off).unwrap();
    assert_eq!(parsed.class_annotations.len(), 1);
    assert_eq!(parsed.class_annotations[0].annotation.type_idx, 1);
    assert!(matches!(parsed.class_annotations[0].annotation.elements[0].1, EncodedValue::Int(7)));
}

#[test]
fn write_parse_full_directory() {
    let mut data = vec![0xeeu8; 3];
    let dir = AnnotationsDirectory {
        class_annotations: vec![],
        field_annotations: vec![(4, vec![simple_annotation(9, vec![], VISIBILITY_BUILD)])],
        method_annotations: vec![(
            6,
            vec![
                simple_annotation(10, vec![(1, EncodedValue::String(3))], VISIBILITY_SYSTEM),
                simple_annotation(11, vec![(2, EncodedValue::Boolean(true))], VISIBILITY_RUNTIME),
            ],
        )],
        parameter_annotations: vec![(
            6,
            vec![vec![], vec![simple_annotation(12, vec![(5, EncodedValue::Null)], VISIBILITY_RUNTIME)]],
        )],
    };
    let off = write_annotations_directory(&mut data, 0, &dir).unwrap();
    assert_eq!(&data[0..3], &[0xee, 0xee, 0xee]);
    assert_eq!(off % 4, 0);
    let parsed = parse_annotations_directory(&data, off).unwrap();
    assert!(parsed.class_annotations.is_empty());
    assert_eq!(parsed.field_annotations.len(), 1);
    assert_eq!(parsed.field_annotations[0].0, 4);
    assert_eq!(parsed.field_annotations[0].1[0].visibility, VISIBILITY_BUILD);
    assert_eq!(parsed.field_annotations[0].1[0].annotation.type_idx, 9);
    assert_eq!(parsed.method_annotations[0].0, 6);
    assert_eq!(parsed.method_annotations[0].1.len(), 2);
    assert_eq!(parsed.method_annotations[0].1[0].visibility, VISIBILITY_SYSTEM);
    assert!(matches!(parsed.method_annotations[0].1[0].annotation.elements[0], (1, EncodedValue::String(3))));
    assert!(matches!(parsed.method_annotations[0].1[1].annotation.elements[0], (2, EncodedValue::Boolean(true))));
    assert_eq!(parsed.parameter_annotations[0].0, 6);
    assert_eq!(parsed.parameter_annotations[0].1.len(), 2);
    assert!(parsed.parameter_annotations[0].1[0].is_empty());
    assert_eq!(parsed.parameter_annotations[0].1[1][0].annotation.type_idx, 12);
}

#[test]
fn empty_directory_writes_nothing() {
    let mut data = vec![1u8, 2, 3];
    let off = write_annotations_directory(&mut data, 0x100, &AnnotationsDirectory::default()).unwrap();
    assert_eq!(off, 0);
    assert_eq!(data, vec![1u8, 2, 3]);
    let parsed = parse_annotations_directory(&data, 0).unwrap();
    assert!(parsed.class_annotations.is_empty() && parsed.field_annotations.is_empty());
}

#[test]
fn directory_offsets_count_from_data_off() {
    let mut data = Vec::new();
    let dir = AnnotationsDirectory {
        class_annotations: vec![simple_annotation(1, vec![], VISIBILITY_RUNTIME)],
        ..Default::default()
    };
    let off = write_annotations_directory(&mut data, 0x1000, &dir).unwrap();
    // item (3 bytes) at 0x1000, padding, set at 0x1004 (8 bytes), directory at 0x100c
    assert_eq!(off, 0x100c);
    assert_eq!(data.len(), 0x0c + 16);
}

#[test]
fn truncated_directory_is_error() {
    let data = vec![0u8; 10];
    assert!(matches!(parse_annotations_directory(&data, 4), Err(DexError::Truncated(_))));
}

#[test]
fn bad_item_offset_is_error() {
    // directory at 4 naming a class set at 24 whose one item lies past the end
    let mut data = vec![0u8; 32];
    data[4..8].copy_from_slice(&24u32.to_le_bytes());
    data[24..28].copy_from_slice(&1u32.to_le_bytes());
    data[28..32].copy_from_slice(&100u32.to_le_bytes());
    assert!(matches!(parse_annotations_directory(&data, 4), Err(DexError::Truncated(_))));
}

#[test]
fn visibility_names() {
    assert_eq!(visibility_name(VISIBILITY_BUILD), "build");
    assert_eq!(visibility_name(VISIBILITY_RUNTIME), "runtime");
    assert_eq!(visibility_name(VISIBILITY_SYSTEM), "system");
    assert_eq!(visibility_name(7), "runtime");
    assert_eq!(parse_visibility("build"), VISIBILITY_BUILD);
    assert_eq!(parse_visibility("system"), VISIBILITY_SYSTEM);
    assert_eq!(parse_visibility("runtime"), VISIBILITY_RUNTIME);
    assert_eq!(parse_visibility("whatever"), VISIBILITY_RUNTIME);
}
