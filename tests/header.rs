use binary_layout::{BigEndian, FieldReadExt, LittleEndian, PrimitiveField};
use preprocessor::header::{fill_header, strncpy, Calc, EXT_LEN, HEADER_SIZE};

#[test]
fn header_for_one_byte_payload() {
    let h = fill_header(Calc::TI89, b"main", b"pong", 1, EXT_LEN);
    let mut expected: Vec<u8> = b"**TI89**".to_vec();
    expected.extend([0x01, 0x00]);
    expected.extend(b"main\0\0\0\0");
    expected.extend([0u8; 40]);
    expected.extend([0x01, 0x00, 0x52, 0x00, 0x00, 0x00]);
    expected.extend(b"pong\0\0\0\0");
    expected.extend([0x1C, 0x00, 0x00, 0x00]);
    expected.extend([100, 0, 0, 0]);
    expected.extend([0xA5, 0x5A, 0x00, 0x00, 0x00, 0x00]);
    expected.extend([0, 10]);
    expected.extend([1, 0, 0]);
    assert_eq!(h.len(), HEADER_SIZE);
    assert_eq!(h, expected);
}

#[test]
fn header_fields_at_their_offsets() {
    let h = fill_header(Calc::V200, b"games", b"tetris", 1000, EXT_LEN);
    assert_eq!(PrimitiveField::<u16, BigEndian, 8>::read(&h), 0x0100);
    assert_eq!(PrimitiveField::<u32, BigEndian, 72>::read(&h), 0x1C000000);
    assert_eq!(PrimitiveField::<u32, LittleEndian, 76>::read(&h), 91 + 1000 + 5 + 3);
    assert_eq!(PrimitiveField::<u16, BigEndian, 86>::read(&h), 1000 + 3 + 3 + 3);
    assert_eq!(PrimitiveField::<u8, BigEndian, 88>::read(&h), 1);
    assert_eq!(PrimitiveField::<u8, BigEndian, 89>::read(&h), 0);
    assert_eq!(PrimitiveField::<u8, BigEndian, 90>::read(&h), 0);
    assert_eq!(&h[10..18], b"games\0\0\0");
    assert_eq!(&h[64..72], b"tetris\0\0");
}

#[test]
fn empty_payload_sizes() {
    let h = fill_header(Calc::TI89, b"main", b"x", 0, EXT_LEN);
    assert_eq!(PrimitiveField::<u32, LittleEndian, 76>::read(&h), 91 + 0 + 5 + 3);
    assert_eq!(PrimitiveField::<u16, BigEndian, 86>::read(&h), 0 + 3 + 3 + 3);
}

#[test]
fn long_names_are_clipped() {
    let h = fill_header(Calc::TI92P, b"folder_long", b"averylongname", 5, EXT_LEN);
    assert_eq!(&h[10..18], b"folder_l");
    assert_eq!(&h[64..72], b"averylon");
    assert_eq!(&h[18..58], &[0u8; 40][..]);
}

#[test]
fn short_and_exact_names() {
    let h = fill_header(Calc::TI92P, b"", b"exactly8", 5, EXT_LEN);
    assert_eq!(&h[10..18], &[0u8; 8][..]);
    assert_eq!(&h[64..72], b"exactly8");
}

#[test]
fn strncpy_pads_and_clips() {
    let mut v: Vec<u8> = vec![9];
    strncpy(&mut v, b"ab", 4);
    assert_eq!(v, vec![9, b'a', b'b', 0, 0]);
    strncpy(&mut v, b"xyz", 2);
    assert_eq!(v, vec![9, b'a', b'b', 0, 0, b'x', b'y']);
}

#[test]
fn signature_per_calculator() {
    let a = fill_header(Calc::TI89, b"", b"", 0, EXT_LEN);
    let b = fill_header(Calc::TI92P, b"", b"", 0, EXT_LEN);
    let c = fill_header(Calc::V200, b"", b"", 0, EXT_LEN);
    assert_eq!(&a[..8], b"**TI89**");
    assert_eq!(&b[..8], b"**TI92P*");
    assert_eq!(&c[..8], b"**TI92P*");
}
