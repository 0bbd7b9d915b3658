use hvp_archive::archive::compression::deflate_bound;
use hvp_archive::structures::common::{
    check_links, generate_crc32, i32_to_u32, read_i32, read_string, read_u16, read_u32,
    u32_to_i32, write_bytes, write_i32, write_string, write_u16, write_u32, CodecError, Endian,
};
use hvp_archive::structures::{final_exam, obscure2};

#[test]
fn crc32_of_the_check_string() {
    assert_eq!(generate_crc32(b"123456789"), 0xCBF4_3926);
    assert_eq!(generate_crc32(b""), 0);
}

#[test]
fn room_for_the_zlib_stream() {
    assert_eq!(deflate_bound(0), 11);
    assert_eq!(deflate_bound(1), 12);
    assert_eq!(deflate_bound(2), 12);
    assert_eq!(deflate_bound(3), 13);
    assert_eq!(deflate_bound(4096), 4096 + 1 + 11);
    assert_eq!(deflate_bound(16384), 16384 + 4 + 1 + 11);
    assert_eq!(deflate_bound(usize::MAX), usize::MAX);
}

#[test]
fn integers_are_written_in_both_byte_orders() {
    let mut out = vec![0xaa];
    write_u32(&mut out, 0x0102_0304, Endian::Little);
    write_u32(&mut out, 0x0102_0304, Endian::Big);
    write_u16(&mut out, 0x0a0b, Endian::Little);
    write_u16(&mut out, 0x0a0b, Endian::Big);
    write_i32(&mut out, -2, Endian::Little);
    write_bytes(&mut out, &[7, 8]);
    assert_eq!(
        out,
        vec![0xaa, 4, 3, 2, 1, 1, 2, 3, 4, 0x0b, 0x0a, 0x0a, 0x0b, 0xfe, 0xff, 0xff, 0xff, 7, 8]
    );
    assert_eq!(read_u32(&out, 1, Endian::Little), 0x0102_0304);
    assert_eq!(read_u32(&out, 1, Endian::Big), 0x0403_0201);
    assert_eq!(read_u16(&out, 9, Endian::Little), 0x0a0b);
    assert_eq!(read_u16(&out, 9, Endian::Big), 0x0b0a);
    assert_eq!(read_i32(&out, 13, Endian::Little), -2);
    assert_eq!(read_i32(&out, 13, Endian::Big), -16777217);
}

#[test]
fn signed_and_unsigned_share_their_bits() {
    assert_eq!(u32_to_i32(0), 0);
    assert_eq!(u32_to_i32(0x7fff_ffff), i32::MAX);
    assert_eq!(u32_to_i32(0x8000_0000), i32::MIN);
    assert_eq!(u32_to_i32(u32::MAX), -1);
    assert_eq!(i32_to_u32(-1), u32::MAX);
    assert_eq!(i32_to_u32(i32::MIN), 0x8000_0000);
    assert_eq!(i32_to_u32(i32::MAX), 0x7fff_ffff);
}

#[test]
fn strings_carry_their_length() {
    let mut out = Vec::new();
    write_string(&mut out, "h\u{e9}llo", Endian::Big);
    assert_eq!(out, vec![0, 0, 0, 6, b'h', 0xc3, 0xa9, b'l', b'l', b'o']);
    assert_eq!(read_string(&out, 0, Endian::Big), Ok(("h\u{e9}llo".to_string(), 10)));
    assert_eq!(read_string(&out, 0, Endian::Little), Err(CodecError::UnexpectedEof));
    assert_eq!(read_string(&out[..9], 0, Endian::Big), Err(CodecError::UnexpectedEof));
    assert_eq!(read_string(&out, 8, Endian::Big), Err(CodecError::UnexpectedEof));
    let bad = vec![2, 0, 0, 0, 0xc3, 0x28];
    assert_eq!(read_string(&bad, 0, Endian::Little), Err(CodecError::InvalidUtf8));
    let empty = vec![0, 0, 0, 0];
    assert_eq!(read_string(&empty, 0, Endian::Little), Ok((String::new(), 4)));
}

#[test]
fn directories_must_span_a_tree() {
    assert!(check_links(&vec![Some((1, 2)), None, None]));
    assert!(check_links(&vec![Some((1, 1)), Some((2, 1)), None]));
    assert!(check_links(&vec![]));
    assert!(check_links(&vec![None, None]));
    // a directory without children
    assert!(check_links(&vec![Some((1, 0))]));
    assert!(check_links(&vec![Some((1, 1)), Some((0, 0))]));
    // children outside the table
    assert!(!check_links(&vec![Some((1, 3)), None, None]));
    assert!(!check_links(&vec![Some((u32::MAX, u32::MAX)), None, None]));
    assert!(!check_links(&vec![Some((1, 1))]));
    // a directory that stands after its children
    assert!(check_links(&vec![Some((1, 1)), Some((3, 1)), None, Some((2, 1))]));
    assert!(check_links(&vec![Some((1, 1)), Some((4, 1)), None, None, Some((2, 2))]));
    // a chain of directories from the last record to the first
    assert!(check_links(&vec![None, Some((0, 1)), Some((1, 1)), Some((2, 1)), Some((3, 1))]));
    // a directory that is its own child
    assert!(!check_links(&vec![Some((1, 1)), Some((1, 1))]));
    assert!(!check_links(&vec![Some((0, 1))]));
    // two directories that hold each other
    assert!(!check_links(&vec![Some((1, 1)), Some((0, 1))]));
    assert!(!check_links(&vec![Some((1, 1)), Some((2, 1)), Some((1, 1))]));
    // a cycle that no record of the rest leads to
    assert!(!check_links(&vec![Some((1, 1)), None, Some((3, 1)), Some((2, 1))]));
    // two directories with the same children: more nodes than records
    assert!(!check_links(&vec![Some((1, 2)), Some((3, 2)), Some((3, 2)), Some((5, 1)), Some((5, 1)), None]));
    // a shared child that keeps the tree small enough is a tree no larger than the table
    assert!(check_links(&vec![Some((1, 2)), Some((3, 1)), Some((3, 1)), None, None]));
}

fn named_record(name_offset: u32) -> final_exam::Entry {
    final_exam::Entry {
        name_crc32: 1,
        kind: final_exam::EntryKind::Directory(final_exam::DirEntry {
            name_offset,
            count: 1,
            index: 1,
        }),
    }
}

#[test]
fn a_name_needs_its_place_and_its_zero_byte() {
    let names = final_exam::Names { bytes: b"ab\0cd\0".to_vec() };
    assert!(names.validate_name_offsets(&vec![named_record(0), named_record(3)]));
    assert!(names.validate_name_offsets(&vec![named_record(1), named_record(2), named_record(5)]));
    assert!(names.validate_name_offsets(&vec![]));
    assert_eq!(names.get_name_by_offset(0), "ab");
    assert_eq!(names.get_name_by_offset(2), "");
    assert_eq!(names.get_name_by_offset(4), "d");
    // the offset is the length of the table
    assert!(!names.validate_name_offsets(&vec![named_record(6)]));
    assert!(!names.validate_name_offsets(&vec![named_record(0), named_record(7)]));
    // an empty table holds no name, not even an empty one
    let empty = final_exam::Names { bytes: Vec::new() };
    assert!(!empty.validate_name_offsets(&vec![named_record(0)]));
    assert!(empty.validate_name_offsets(&vec![]));
    // the last name runs to the end of the table without its zero byte
    let open = final_exam::Names { bytes: b"ab\0cd".to_vec() };
    assert!(open.validate_name_offsets(&vec![named_record(0), named_record(2)]));
    assert!(!open.validate_name_offsets(&vec![named_record(3)]));
    assert!(!open.validate_name_offsets(&vec![named_record(5)]));
    // bytes that are no UTF-8
    let broken = final_exam::Names { bytes: vec![0xff, 0, b'a', 0] };
    assert!(!broken.validate_name_offsets(&vec![named_record(0)]));
    assert!(broken.validate_name_offsets(&vec![named_record(1), named_record(2)]));
}

fn flat_file(kind: obscure2::EntryKind) -> obscure2::Entry {
    obscure2::Entry { name_crc32: 0x1122_3344, kind }
}

#[test]
fn records_of_the_second_layout_are_written_field_by_field() {
    let f = obscure2::FileEntry {
        checksum: -1,
        uncompressed_size: 0x10,
        offset: 0x20,
        compressed_size: 0x30,
    };
    let mut out = Vec::new();
    flat_file(obscure2::EntryKind::FileCompressed(f)).write(&mut out, Endian::Little);
    assert_eq!(
        out,
        vec![
            0x44, 0x33, 0x22, 0x11, 1, 0, 0, 0, 0xff, 0xff, 0xff, 0xff, 0x10, 0, 0, 0, 0x20, 0, 0,
            0, 0x30, 0, 0, 0
        ]
    );
    assert_eq!(
        obscure2::parse_entry(&out, 0, Endian::Little),
        Ok(flat_file(obscure2::EntryKind::FileCompressed(f)))
    );
    let d = obscure2::DirEntry { count: 2, index: 5 };
    let mut out = Vec::new();
    flat_file(obscure2::EntryKind::Directory(d)).write(&mut out, Endian::Big);
    assert_eq!(
        out,
        vec![0x11, 0x22, 0x33, 0x44, 0, 4, 0, 0, 0, 0, 0, 0, 0, 0, 0, 0, 0, 0, 0, 2, 0, 0, 0, 5]
    );
    assert_eq!(
        obscure2::parse_entry(&out, 0, Endian::Big),
        Ok(flat_file(obscure2::EntryKind::Directory(d)))
    );
    assert_eq!(d.entries_range(), (5, 7));
    out[19] = 0;
    assert_eq!(obscure2::parse_entry(&out, 0, Endian::Big), Err(CodecError::InvalidField));
    out[19] = 2;
    out[7] = 1;
    assert_eq!(obscure2::parse_entry(&out, 0, Endian::Big), Err(CodecError::InvalidField));
}

#[test]
fn records_of_the_third_layout_are_written_field_by_field() {
    let f = final_exam::FileEntry {
        checksum: 5,
        uncompressed_size: 6,
        name_offset: 7,
        offset: 8,
        compressed_size: 9,
    };
    let entry = final_exam::Entry { name_crc32: 1, kind: final_exam::EntryKind::File(f) };
    let mut out = Vec::new();
    entry.write(&mut out, Endian::Little);
    assert_eq!(
        out,
        vec![
            1, 0, 0, 0, 0, 0, 0, 0, 5, 0, 0, 0, 6, 0, 0, 0, 7, 0, 0, 0, 8, 0, 0, 0, 9, 0, 0, 0
        ]
    );
    assert_eq!(final_exam::parse_entry(&out, 0, Endian::Little), Ok(entry));
    let d = final_exam::DirEntry { name_offset: 3, count: 4, index: 5 };
    assert_eq!(d.entries_range(), (5, 9));
    let entry = final_exam::Entry { name_crc32: 0, kind: final_exam::EntryKind::Directory(d) };
    let mut out = Vec::new();
    entry.write(&mut out, Endian::Big);
    assert_eq!(out.len(), 28);
    assert_eq!(final_exam::parse_entry(&out, 0, Endian::Big), Ok(entry));
    out[7] = 3;
    assert_eq!(final_exam::parse_entry(&out, 0, Endian::Big), Err(CodecError::UnknownEntryKind));
}

#[test]
fn entries_are_checked_against_the_expected_crc32() {
    let f = final_exam::FileEntry {
        checksum: 5,
        uncompressed_size: 6,
        name_offset: 0,
        offset: 8,
        compressed_size: 9,
    };
    let entry = final_exam::Entry { name_crc32: 1, kind: final_exam::EntryKind::File(f) };
    let mut out = vec![0xff, 0xff];
    entry.write(&mut out, Endian::Little);
    entry.write(&mut out, Endian::Little);
    let crc = crc32fast::hash(&out[2..]);
    let read = final_exam::read_entries_with_validation(&out, 2, 2, Some(crc), Endian::Little);
    assert_eq!(read, Ok((vec![entry, entry], 58)));
    let read = final_exam::read_entries_with_validation(&out, 2, 2, Some(crc ^ 1), Endian::Little);
    assert_eq!(read, Err(CodecError::Crc32Mismatch));
    let read = final_exam::read_entries_with_validation(&out, 2, 2, None, Endian::Little);
    assert_eq!(read, Ok((vec![entry, entry], 58)));
    let read = final_exam::read_entries_with_validation(&out, 2, 3, None, Endian::Little);
    assert_eq!(read, Err(CodecError::UnexpectedEof));
}
