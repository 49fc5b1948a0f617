use dex_parser::leb128::{
    read_sleb128, read_u16, read_u32, read_uleb128, read_uleb128p1, write_sleb128, write_u32, write_uleb128,
    write_uleb128p1,
};

#[test]
fn uleb128_examples() {
    assert_eq!(read_uleb128(&[0x00], 0), Some((0, 1)));
    assert_eq!(read_uleb128(&[0x01], 0), Some((1, 1)));
    assert_eq!(read_uleb128(&[0x7f], 0), Some((127, 1)));
    assert_eq!(read_uleb128(&[0x80, 0x7f], 0), Some((16256, 2)));
}

#[test]
fn read_u16_u32_bounds() {
    assert_eq!(read_u16(&[0x01, 0x00], 0), Some(1));
    assert_eq!(read_u32(&[1, 0, 0, 0], 0), Some(1));
}

#[test]
fn read_past_end_is_none() {
    assert_eq!(read_u16(&[0x01], 0), None);
    assert_eq!(read_u32(&[1, 0, 0], 0), None);
    assert_eq!(read_u32(&[1, 0, 0, 0], 1), None);
    assert_eq!(read_uleb128(&[0x80], 0), None);
    assert_eq!(read_uleb128(&[], 0), None);
}

#[test]
fn uleb128_write_then_read() {
    for v in [0u32, 1, 127, 128, 300, 16256, 0xffff_ffff] {
        let mut bytes = write_uleb128(v);
        let n = bytes.len();
        bytes.push(0xaa);
        assert_eq!(read_uleb128(&bytes, 0), Some((v, n)));
    }
    assert_eq!(write_uleb128(300), vec![0xac, 0x02]);
}

#[test]
fn sleb128_write_then_read() {
    for v in [0i32, 1, -1, 63, -64, 64, -65, i32::MAX, i32::MIN] {
        let bytes = write_sleb128(v);
        assert_eq!(read_sleb128(&bytes, 0), Some((v, bytes.len())));
    }
    assert_eq!(write_sleb128(-1), vec![0x7f]);
    assert_eq!(read_sleb128(&[0x7f], 0), Some((-1, 1)));
}

#[test]
fn uleb128p1_write_then_read() {
    assert_eq!(read_uleb128p1(&[0x00], 0), Some((-1, 1)));
    for v in [-1i32, 0, 5, 1000] {
        let bytes = write_uleb128p1(v);
        assert_eq!(read_uleb128p1(&bytes, 0), Some((v, bytes.len())));
    }
}

#[test]
fn write_u32_stores_little_endian() {
    let mut data = vec![0u8; 6];
    write_u32(&mut data, 1, 0x1234_5678);
    assert_eq!(data, vec![0, 0x78, 0x56, 0x34, 0x12, 0]);
    assert_eq!(read_u32(&data, 1), Some(0x1234_5678));
}
