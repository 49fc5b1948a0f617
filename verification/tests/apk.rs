use std::io::Write;

use dex_parser::apk::from_apk_bytes;
use dex_parser::error::DexError;

/// A DEX header and nothing else, of the given file size field.
fn header_only_dex(size: u32) -> Vec<u8> {
    let mut data = vec![0u8; 0x70];
    data[0..4].copy_from_slice(&[0x64, 0x65, 0x78, 0x0a]);
    data[4..8].copy_from_slice(b"035\0");
    data[32..36].copy_from_slice(&size.to_le_bytes());
    data[36..40].copy_from_slice(&(0x70u32).to_le_bytes());
    data[40..44].copy_from_slice(&(0x1234_5678u32).to_le_bytes());
    data
}

fn archive(entries: &[(&str, Vec<u8>)]) -> Vec<u8> {
    let mut w = zip::ZipWriter::new(std::io::Cursor::new(Vec::new()));
    let opts = zip::write::SimpleFileOptions::default().compression_method(zip::CompressionMethod::Stored);
    for (name, bytes) in entries {
        w.start_file(*name, opts).unwrap();
        w.write_all(bytes).unwrap();
    }
    w.finish().unwrap().into_inner()
}

#[test]
fn apk_entries_load_in_multidex_order() {
    let zip = archive(&[
        ("classes2.dex", header_only_dex(0x70)),
        ("res/raw/notes.txt", b"not a dex".to_vec()),
        ("classes.dex", header_only_dex(0x70)),
        ("classes10.dex", header_only_dex(0x70)),
    ]);
    let multi = from_apk_bytes(&zip, "app.apk").unwrap();
    assert_eq!(multi.dex_count(), 3);
    let names: Vec<String> = multi.dex_sources().iter().map(|s| s.filename.clone()).collect();
    assert_eq!(names, vec!["classes.dex", "classes2.dex", "classes10.dex"]);
    assert_eq!(multi.dex_sources()[2].dex_index, 2);
}

#[test]
fn apk_without_dex_entries() {
    let zip = archive(&[("AndroidManifest.xml", vec![1, 2, 3])]);
    match from_apk_bytes(&zip, "empty.apk") {
        Err(DexError::NoDexFiles(p)) => assert_eq!(p, "empty.apk"),
        other => panic!("expected NoDexFiles, got {:?}", other.map(|m| m.dex_count())),
    }
}

#[test]
fn apk_dex_entry_without_magic() {
    let zip = archive(&[("classes.dex", b"PK not dex at all, but long enough?".to_vec())]);
    assert!(matches!(from_apk_bytes(&zip, "bad.apk"), Err(DexError::InvalidMagic)));
}

#[test]
fn not_a_zip_archive() {
    match from_apk_bytes(b"definitely not a zip", "x.apk") {
        Err(DexError::Parse(m)) => assert!(m.starts_with("ZIP error: "), "{m}"),
        other => panic!("expected Parse, got {:?}", other.map(|m| m.dex_count())),
    }
}
