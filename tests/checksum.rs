use preprocessor::checksum::compute_checksum;

#[test]
fn checksum_of_nothing() {
    assert_eq!(compute_checksum(&[]), [0, 0]);
    assert_eq!(compute_checksum(&[&[], &[]]), [0, 0]);
}

#[test]
fn checksum_is_little_endian_sum() {
    assert_eq!(compute_checksum(&[&[0x01, 0x02], &[0x03], &[0xFF]]), [0x05, 0x01]);
}

#[test]
fn checksum_wraps_around() {
    let data = vec![0xFFu8; 300];
    let plain: u32 = data.iter().map(|b| *b as u32).sum();
    assert_eq!(plain, 76500);
    let expected = ((plain % 65536) as u16).to_le_bytes();
    assert_eq!(compute_checksum(&[&data]), expected);
    assert_eq!(compute_checksum(&[&data]), [0xD4, 0x2A]);
    assert_eq!(compute_checksum(&[&data[..100], &data[100..]]), expected);
}
