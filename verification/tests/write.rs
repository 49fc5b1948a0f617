use dex_parser::dex::code_item::CodeItem;
use dex_parser::dex::write::{fix_checksums, patch_code_insns, replace_code_insns};
use dex_parser::error::DexError;
use sha1::{Digest, Sha1};

fn minimal_code_item_dex(insns: &[u8]) -> Vec<u8> {
    let insns_size = (insns.len() / 2) as u32;
    let code_item_len = 16 + insns.len();
    let data_off = 0x70u32;
    let file_size = data_off + code_item_len as u32;
    let mut data = vec![0u8; file_size as usize];
    data[0..4].copy_from_slice(&[0x64, 0x65, 0x78, 0x0a]);
    data[4..8].copy_from_slice(b"035\0");
    data[32..36].copy_from_slice(&file_size.to_le_bytes());
    data[36..40].copy_from_slice(&(0x70u32).to_le_bytes());
    data[40..44].copy_from_slice(&(0x1234_5678u32).to_le_bytes());
    data[104..108].copy_from_slice(&data_off.to_le_bytes());
    data[108..112].copy_from_slice(&(code_item_len as u32).to_le_bytes());
    let code_off = data_off as usize;
    data[code_off + 12..code_off + 16].copy_from_slice(&insns_size.to_le_bytes());
    data[code_off + 16..code_off + 16 + insns.len()].copy_from_slice(insns);
    data
}

fn adler32(bytes: &[u8]) -> u32 {
    let mut a: u32 = 1;
    let mut b: u32 = 0;
    for &x in bytes {
        a = (a + x as u32) % 65521;
        b = (b + a) % 65521;
    }
    (b << 16) | a
}

#[test]
fn fix_checksums_runs() {
    let mut data = vec![0u8; 0x80];
    data[0..4].copy_from_slice(&[0x64, 0x65, 0x78, 0x0a]);
    data[4..8].copy_from_slice(b"035\0");
    data[32..36].copy_from_slice(&(0x80u32).to_le_bytes());
    data[36..40].copy_from_slice(&(0x70u32).to_le_bytes());
    data[40..44].copy_from_slice(&(0x1234_5678u32).to_le_bytes());
    fix_checksums(&mut data).unwrap();
    assert_ne!(data[8..12], [0, 0, 0, 0]);
}

#[test]
fn fix_checksums_writes_sha1_then_adler() {
    let mut data = minimal_code_item_dex(&[0x0e, 0x00]);
    let before = data.clone();
    fix_checksums(&mut data).unwrap();
    // signature: SHA-1 of bytes 32..
    let digest = Sha1::digest(&data[32..]);
    assert_eq!(&data[12..32], digest.as_slice());
    assert_eq!(&data[32..], &before[32..]);
    // checksum: Adler-32 of the final bytes 12.., the new signature included
    let expected_checksum = adler32(&data[12..]);
    assert_eq!(u32::from_le_bytes([data[8], data[9], data[10], data[11]]), expected_checksum);
    // a second call changes nothing
    let once = data.clone();
    fix_checksums(&mut data).unwrap();
    assert_eq!(data, once);
}

#[test]
fn fix_checksums_short_input() {
    let mut data = vec![0u8; 0x20];
    let r = fix_checksums(&mut data);
    assert!(matches!(r, Err(DexError::Truncated(ref m)) if m == "dex too short for header"));
    assert_eq!(data, vec![0u8; 0x20]);
}

#[test]
fn replace_code_insns_variable_size() {
    let mut dex = minimal_code_item_dex(&[0x0e, 0x00]);
    let code_off = 0x70;
    replace_code_insns(&mut dex, code_off, &[0x12, 0x00, 0x13, 0x00, 0x00, 0x00]).unwrap();
    let code = CodeItem::parse(&dex, code_off).unwrap();
    assert_eq!(code.insns_size, 3);
    assert_eq!(code.insns_slice(&dex), &[0x12, 0x00, 0x13, 0x00, 0x00, 0x00]);
}

#[test]
fn replace_code_insns_moves_later_offsets() {
    let mut dex = minimal_code_item_dex(&[0x0e, 0x00]);
    let before = dex.clone();
    let len_before = dex.len();
    replace_code_insns(&mut dex, 0x70, &[0x12, 0x00, 0x13, 0x00, 0x00, 0x00]).unwrap();
    assert_eq!(dex.len(), len_before + 4);
    // file_size grows by the four added bytes; the other header words stand below the
    // edit and stay as they were
    assert_eq!(u32::from_le_bytes([dex[32], dex[33], dex[34], dex[35]]) as usize, len_before + 4);
    assert_eq!(&dex[36..0x70], &before[36..0x70]);
}

#[test]
fn replace_code_insns_odd_length_is_refused() {
    let mut dex = minimal_code_item_dex(&[0x0e, 0x00]);
    let before = dex.clone();
    let r = replace_code_insns(&mut dex, 0x70, &[0x12, 0x00, 0x13]);
    assert!(matches!(r, Err(DexError::Parse(_))));
    assert_eq!(dex, before);
}

#[test]
fn replace_code_insns_outside_is_truncated() {
    let mut dex = minimal_code_item_dex(&[0x0e, 0x00]);
    let r = replace_code_insns(&mut dex, 0x1000, &[0x0e, 0x00]);
    assert!(matches!(r, Err(DexError::Truncated(_))));
}

#[test]
fn patch_code_insns_same_size() {
    let mut dex = minimal_code_item_dex(&[0x0e, 0x00, 0x00, 0x00]);
    patch_code_insns(&mut dex, 0x70, &[0x12, 0x00, 0x0e, 0x00]).unwrap();
    let code = CodeItem::parse(&dex, 0x70).unwrap();
    assert_eq!(code.insns_slice(&dex), &[0x12, 0x00, 0x0e, 0x00]);
}

#[test]
fn patch_code_insns_size_mismatch() {
    let mut dex = minimal_code_item_dex(&[0x0e, 0x00]);
    let before = dex.clone();
    let r = patch_code_insns(&mut dex, 0x70, &[0x12, 0x00, 0x0e, 0x00]);
    match r {
        Err(DexError::Parse(m)) => assert_eq!(
            m,
            "instruction size mismatch at code_off 0x70: expected 2 bytes, got 4 (use replace_code_insns for variable-size edits)"
        ),
        other => panic!("unexpected {other:?}"),
    }
    assert_eq!(dex, before);
}
