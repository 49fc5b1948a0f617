use dex_parser::dex::fastref::locator::insn::InsnLocator;
use dex_parser::dex::fastref::locator::{StringLocator, TypeLocator};
use dex_parser::dex::fastref::sorted::{intersect_sorted, sort_dedup, sorted_contains};
use dex_parser::dex::fastref::{dex_defines_class, FastRef};
use dex_parser::dex::fastref::locator::MemberQuery;
use dex_parser::dex::raw::RawDex;

fn put(data: &mut [u8], off: usize, v: u32) {
    data[off..off + 4].copy_from_slice(&v.to_le_bytes());
}

/// One class `LFoo;` with one direct method `bar` whose code is
/// `const-string v0, "hello"; return-void`, and a map_list naming the code items.
fn small_dex_bytes() -> Vec<u8> {
    let mut d = vec![0u8; 0xec];
    d[0..4].copy_from_slice(&[0x64, 0x65, 0x78, 0x0a]);
    d[4..8].copy_from_slice(b"035\0");
    put(&mut d, 32, 0xec);
    put(&mut d, 36, 0x70);
    put(&mut d, 40, 0x1234_5678);
    put(&mut d, 52, 0xdc);
    put(&mut d, 56, 3);
    put(&mut d, 60, 0x70);
    put(&mut d, 64, 1);
    put(&mut d, 68, 0x7c);
    put(&mut d, 88, 1);
    put(&mut d, 92, 0x80);
    put(&mut d, 96, 1);
    put(&mut d, 100, 0x88);
    put(&mut d, 104, 0x44);
    put(&mut d, 108, 0xa8);
    // string_ids, type_ids, method_ids
    put(&mut d, 0x70, 0xc6);
    put(&mut d, 0x74, 0xcd);
    put(&mut d, 0x78, 0xd2);
    put(&mut d, 0x7c, 0);
    put(&mut d, 0x84, 1);
    // class_def
    put(&mut d, 0x88, 0);
    put(&mut d, 0x8c, 1);
    put(&mut d, 0x90, 0xffff_ffff);
    put(&mut d, 0x98, 0xffff_ffff);
    put(&mut d, 0xa0, 0xa8);
    // class_data: no fields, one direct method (idx 0, public, code at 0xb0)
    d[0xa8..0xb0].copy_from_slice(&[0, 0, 1, 0, 0, 1, 0xb0, 0x01]);
    // code_item: 1 register, 3 code units
    d[0xb0..0xb2].copy_from_slice(&1u16.to_le_bytes());
    put(&mut d, 0xbc, 3);
    d[0xc0..0xc6].copy_from_slice(&[0x1a, 0x00, 0x02, 0x00, 0x0e, 0x00]);
    // string data
    d[0xc6..0xcd].copy_from_slice(&[5, b'L', b'F', b'o', b'o', b';', 0]);
    d[0xcd..0xd2].copy_from_slice(&[3, b'b', b'a', b'r', 0]);
    d[0xd2..0xd9].copy_from_slice(&[5, b'h', b'e', b'l', b'l', b'o', 0]);
    // map_list: one entry, TYPE_CODE_ITEM at 0xb0
    put(&mut d, 0xdc, 1);
    d[0xe0..0xe2].copy_from_slice(&0x2001u16.to_le_bytes());
    put(&mut d, 0xe4, 1);
    put(&mut d, 0xe8, 0xb0);
    d
}

fn widths() -> Vec<u32> {
    let mut w = vec![0u32; 256];
    w[0x1a] = 4;
    w[0x1b] = 6;
    w[0x0e] = 2;
    w
}

#[test]
fn string_search_finds_const_string() {
    let data = small_dex_bytes();
    let mut fr = FastRef::new(&data, &widths()).unwrap();
    let sites = fr.find_strings("hell").unwrap();
    assert_eq!(sites.len(), 1);
    assert_eq!(sites[0].file_off, 0xc0);
    assert_eq!(sites[0].pool_idx, 2);
    assert_eq!(sites[0].method_idx, 0);
    assert_eq!(sites[0].insn_off, 0);
    assert!(fr.find_strings("bar").unwrap().is_empty());
    assert!(fr.find_strings("zzz").unwrap().is_empty());
    assert!(fr.find_method_idx(0).unwrap().is_empty());
}

#[test]
fn type_and_member_search() {
    let data = small_dex_bytes();
    let mut fr = FastRef::new(&data, &widths()).unwrap();
    assert!(fr.find_types("Foo").unwrap().is_empty());
    let q = MemberQuery { class: None, name: Some("bar".to_string()) };
    assert!(fr.find_methods(&q).unwrap().is_empty());
    assert!(fr.find_fields(&q).unwrap().is_empty());
}

#[test]
fn locators_on_small_dex() {
    let data = small_dex_bytes();
    let raw = RawDex::parse(&data).unwrap();
    let mut strings = StringLocator::build(&raw).unwrap();
    assert_eq!(strings.locate("o"), vec![0, 2]);
    assert_eq!(strings.locate("ar"), vec![1]);
    assert!(strings.locate("").is_empty());
    let types = TypeLocator::build(&raw).unwrap();
    assert_eq!(types.locate_exact("LFoo;"), Some(0));
    assert_eq!(types.locate_exact("LBar;"), None);
    assert_eq!(types.locate(&mut strings, "Fo"), vec![0]);
    let insn = InsnLocator::build(&raw, &widths()).unwrap();
    assert_eq!(insn.method_insns_base(0), Some(0xc0));
    assert_eq!(insn.method_insns_base(1), None);
}

#[test]
fn defines_class() {
    let data = small_dex_bytes();
    assert!(dex_defines_class(&data, "LFoo;"));
    assert!(!dex_defines_class(&data, "LBar;"));
    assert!(!dex_defines_class(&data[..0x40], "LFoo;"));
}

#[test]
fn bad_magic_is_refused() {
    let mut data = small_dex_bytes();
    data[0] = b'x';
    assert!(FastRef::new(&data, &widths()).is_err());
    assert!(RawDex::parse(&data).is_err());
}

#[test]
fn sorted_helpers() {
    assert_eq!(sort_dedup(vec![3, 1, 2, 1, 3]), vec![1, 2, 3]);
    assert!(sorted_contains(&[1, 4, 9], 4));
    assert!(!sorted_contains(&[1, 4, 9], 5));
    assert_eq!(intersect_sorted(vec![1, 3, 5, 7], &[3, 4, 5]), vec![3, 5]);
}

#[test]
fn string_locator_agrees_with_brute_force() {
    let data = small_dex_bytes();
    let raw = RawDex::parse(&data).unwrap();
    let values = ["LFoo;", "bar", "hello"];
    // "\u{5}he" runs across the length prefix of "hello": no string holds it
    let queries = ["o", "ar", "LFoo;", "hello", "l", "\u{5}he", "r\u{0}", "o;", "zz", "Foo;\u{0}"];
    for q in queries.iter() {
        let mut strings = StringLocator::build(&raw).unwrap();
        let expected: Vec<u32> = (0..values.len() as u32).filter(|&i| values[i as usize].contains(q)).collect();
        assert_eq!(strings.locate(q), expected, "query {:?}", q);
    }
    let mut strings = StringLocator::build(&raw).unwrap();
    assert_eq!(strings.locate("\u{5}he"), Vec::<u32>::new());
    // the locator still answers later searches correctly
    assert_eq!(strings.locate("o"), vec![0, 2]);
}

#[test]
fn packed_switch_payload_not_false_positive_opcode() {
    // Synthetic: packed-switch payload bytes containing 0x6e + method idx 1.
    // Scanner may hit; verifier must reject if not an instruction boundary.
    let mut payload = vec![0u8; 32];
    payload[0] = 0x00;
    payload[1] = 0x01; // packed-switch ident
    payload[2] = 0x01;
    payload[3] = 0x00; // size 1
    payload[4] = 0;
    payload[5] = 0;
    payload[6] = 0;
    payload[7] = 0; // first_key
    payload[8] = 0x6e; // looks like invoke-virtual
    payload[9] = 0x00;
    payload[10] = 0x01;
    payload[11] = 0x00; // method idx 1
    let mut hits = Vec::new();
    dex_parser::dex::fastref::scan::scan_kind(
        dex_parser::dex::fastref::scan::RefKind::Method,
        &payload,
        0,
        &[1],
        10,
        &mut hits,
    );
    // Hit may exist at byte 8; that's expected of the raw scan.
    if !hits.is_empty() {
        assert!(hits.iter().any(|h| h.file_off == 8 || h.pool_idx == 1));
    }
    // The raw scan does report it here: the bytes match invoke-virtual of method 1.
    assert!(hits.iter().any(|h| h.file_off == 8 && h.pool_idx == 1));
}
