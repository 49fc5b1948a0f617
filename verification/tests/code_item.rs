use dex_parser::dex::code_item::CodeItem;

#[test]
fn code_item_parse_minimal() {
    let mut data = vec![0u8; 18];
    data[0..2].copy_from_slice(&(2u16).to_le_bytes());
    data[12..16].copy_from_slice(&(1u32).to_le_bytes());
    data[16..18].copy_from_slice(&[0x0e, 0x00]);
    let code = CodeItem::parse(&data, 0).unwrap();
    assert_eq!(code.registers_size, 2);
    assert_eq!(code.insns_size, 1);
    assert_eq!(code.insns_slice(&data), &[0x0e, 0x00]);
}

#[test]
fn code_item_parse_truncated_header() {
    let data = vec![0u8; 8];
    assert!(CodeItem::parse(&data, 0).is_err());
}

#[test]
fn code_item_parse_truncated_insns() {
    let mut data = vec![0u8; 16];
    data[12..16].copy_from_slice(&(100u32).to_le_bytes());
    assert!(CodeItem::parse(&data, 0).is_err());
}

#[test]
fn code_item_tries_after_padding() {
    // one insn unit, one try (so two bytes of padding), then the try item and
    // a handler list holding one typed handler
    let mut data = vec![0u8; 32];
    data[0..2].copy_from_slice(&(1u16).to_le_bytes());
    data[6..8].copy_from_slice(&(1u16).to_le_bytes());
    data[12..16].copy_from_slice(&(1u32).to_le_bytes());
    data[16..18].copy_from_slice(&[0x0e, 0x00]);
    data[20..24].copy_from_slice(&(0u32).to_le_bytes());
    data[24..26].copy_from_slice(&(1u16).to_le_bytes());
    data[26..28].copy_from_slice(&(1u16).to_le_bytes());
    data[28] = 1; // list size
    data[29] = 1; // one typed pair
    data[30] = 3; // type_idx
    data[31] = 5; // addr
    let code = CodeItem::parse(&data, 0).unwrap();
    assert_eq!(code.tries_size, 1);
    assert_eq!(code.insns_size_units(), 1);
    let tries = code.tries(&data).unwrap();
    assert_eq!(tries.len(), 1);
    assert_eq!(tries[0].start_unit, 0);
    assert_eq!(tries[0].insn_count, 1);
    assert_eq!(tries[0].handlers, vec![(Some(3), 5)]);
}

#[test]
fn code_item_offset_past_end() {
    let data = vec![0u8; 32];
    assert!(CodeItem::parse(&data, 40).is_err());
}
