use hvp_archive::structures::checksum::bytes_sum;
use hvp_archive::structures::common::Endian;

#[test]
fn checksum_of_nothing_is_zero() {
    assert_eq!(bytes_sum(&[], Endian::Little), 0);
    assert_eq!(bytes_sum(&[], Endian::Big), 0);
}

#[test]
fn checksum_of_one_word_little_endian() {
    assert_eq!(bytes_sum(&[0x01, 0x02, 0x03, 0x04], Endian::Little), 0x0403_0201);
}

#[test]
fn checksum_of_one_word_big_endian() {
    assert_eq!(bytes_sum(&[0x01, 0x02, 0x03, 0x04], Endian::Big), 0x0102_0304);
}

#[test]
fn checksum_of_trailing_bytes_adds_them_as_bytes() {
    assert_eq!(bytes_sum(&[0x01, 0x02, 0x03], Endian::Little), 6);
    assert_eq!(bytes_sum(&[0x01, 0x02, 0x03], Endian::Big), 6);
    assert_eq!(bytes_sum(&[0, 0, 0, 1, 0xff], Endian::Big), 0x100);
}

#[test]
fn checksum_wraps_around() {
    let data = [0xff, 0xff, 0xff, 0x7f, 0x01, 0x00, 0x00, 0x00];
    assert_eq!(bytes_sum(&data, Endian::Little), i32::MIN);
    let ones = [0xff; 8];
    assert_eq!(bytes_sum(&ones, Endian::Little), -2);
    assert_eq!(bytes_sum(&ones, Endian::Big), -2);
}
