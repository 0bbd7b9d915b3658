use hvp_archive::archive::entry::{Entry, UpdateKind};
use hvp_archive::archive::rebuild_progress::RebuildProgress;
use hvp_archive::archive::Archive;
use hvp_archive::provider::ArchiveProvider;
use hvp_archive::structures::checksum::bytes_sum;
use hvp_archive::structures::common::Endian;
use hvp_archive::structures::obscure2;

/// An image of the second layout with this tree:
/// `a`, `d/b`, `d/e/c`, `d/f`, `g`; every payload is the name of its file.
fn image() -> Vec<u8> {
    let names = ["a", "b", "c", "f", "g"];
    let first = 16 + 24 * 8;
    let dir = |count: u32, index: u32| obscure2::Entry {
        name_crc32: 7,
        kind: obscure2::EntryKind::Directory(obscure2::DirEntry { count, index }),
    };
    let file = |k: u32| obscure2::Entry {
        name_crc32: k,
        kind: obscure2::EntryKind::File(obscure2::FileEntry {
            checksum: bytes_sum(names[k as usize].as_bytes(), Endian::Little),
            uncompressed_size: 1,
            offset: first + k,
            compressed_size: 1,
        }),
    };
    // root, a, d, g, b, e, f, c
    let mut table = vec![dir(3, 1), file(0), dir(3, 4), file(4), file(1), dir(1, 7), file(3), file(2)];
    table[0].name_crc32 = 0;
    let mut records = Vec::new();
    for entry in &table {
        entry.write(&mut records, Endian::Little);
    }
    let mut out = vec![0, 0, 4, 0, 0, 0, 0, 0, 8, 0, 0, 0];
    out.extend_from_slice(&crc32fast::hash(&records).to_le_bytes());
    out.extend_from_slice(&records);
    out.extend_from_slice(b"abcfg");
    out
}

#[test]
fn iterator_gives_every_file_once_and_counts_down() {
    let bytes = image();
    let provider = ArchiveProvider::new(&bytes, None).unwrap();
    let archive = Archive::new(&provider);
    assert_eq!(archive.metadata().file_count, 5);
    assert_eq!(archive.metadata().dir_count, 2);
    let mut files = archive.files();
    let mut seen = Vec::new();
    let mut left = 5;
    assert_eq!(files.len(), left);
    while let Some(file) = files.next() {
        left -= 1;
        assert_eq!(files.len(), left);
        seen.push(file.raw_bytes.to_vec());
    }
    assert_eq!(left, 0);
    assert!(files.next().is_none());
    assert_eq!(files.len(), 0);
    assert_eq!(seen, vec![b"a".to_vec(), b"b".to_vec(), b"c".to_vec(), b"f".to_vec(), b"g".to_vec()]);
    assert_eq!(archive.files().count(), archive.metadata().file_count);
}

#[test]
fn iterator_joins_the_names_of_the_directories() {
    let bytes = image();
    let provider = ArchiveProvider::new(&bytes, None).unwrap();
    let archive = Archive::new(&provider);
    let files = archive.files().collect();
    let paths: Vec<Vec<String>> = files.iter().map(|f| f.path.clone()).collect();
    assert_eq!(
        paths,
        vec![
            vec!["unk_file_0.dat".to_string()],
            vec!["unk_folder_7".to_string(), "unk_file_1.dat".to_string()],
            vec!["unk_folder_7".to_string(), "unk_folder_7".to_string(), "unk_file_2.dat".to_string()],
            vec!["unk_folder_7".to_string(), "unk_file_3.dat".to_string()],
            vec!["unk_file_4.dat".to_string()],
        ]
    );
    assert!(files.iter().all(|f| f.checksum_match()));
}

#[test]
fn iterator_and_flattening_agree() {
    let bytes = image();
    let provider = ArchiveProvider::new(&bytes, None).unwrap();
    let archive = Archive::new(&provider);
    let mut flat = Vec::new();
    for entry in archive.entries() {
        let files = entry.flatten_to_files();
        flat.extend(files.into_iter().map(|f| (f.path, f.raw_bytes.to_vec(), f.checksum)));
    }
    let listed: Vec<_> = archive
        .files()
        .collect()
        .into_iter()
        .map(|f| (f.path, f.raw_bytes.to_vec(), f.checksum))
        .collect();
    assert_eq!(flat, listed);
    assert_eq!(archive.entries()[1].flatten_to_files().len(), 3);
}

#[test]
fn a_payload_with_a_wrong_checksum_is_found() {
    let mut bytes = image();
    let provider = ArchiveProvider::new(&bytes, None).unwrap();
    assert!(Archive::new(&provider).entries_checksum_match());
    let last = bytes.len() - 3;
    bytes[last] ^= 0x55;
    let provider = ArchiveProvider::new(&bytes, None).unwrap();
    let archive = Archive::new(&provider);
    assert!(!archive.entries_checksum_match());
    let files = archive.files().collect();
    assert!(files[0].checksum_match());
    assert!(!files[2].checksum_match());
}

struct Silent;

impl RebuildProgress for Silent {
    fn inc(&self, _: Option<String>) {}

    fn inc_n(&self, _: usize, _: Option<String>) {}
}

#[test]
fn mutable_iterator_walks_the_listing_and_sets_replacements() {
    let bytes = image();
    let provider = ArchiveProvider::new(&bytes, None).unwrap();
    let mut archive = Archive::new(&provider);
    let mut files = archive.files_mut();
    assert_eq!(files.len(), 5);
    let mut seen = Vec::new();
    let mut left = 5;
    while let Some(mut file) = files.next() {
        left -= 1;
        seen.push((file.path.clone(), file.raw_bytes().to_vec()));
        assert!(file.checksum_match());
        assert!(!file.is_compressed());
        assert_eq!(file.get_bytes().unwrap(), file.raw_bytes().to_vec());
        if file.raw_bytes() == b"c" {
            file.update(Some(UpdateKind::Bytes(b"replaced".to_vec())));
        }
        if file.raw_bytes() == b"g" {
            file.update(Some(UpdateKind::Bytes(b"gone".to_vec())));
            file.update(None);
        }
    }
    assert_eq!(left, 0);
    assert_eq!(files.len(), 0);
    assert!(files.next().is_none());
    let listed: Vec<_> =
        archive.files().collect().into_iter().map(|f| (f.path, f.raw_bytes.to_vec())).collect();
    assert_eq!(seen, listed);

    // the third file of the listing, and no other, has the replacement
    match &archive.entries()[1] {
        Entry::Dir(d) => match &d.entries[1] {
            Entry::Dir(e) => match &e.entries[0] {
                Entry::File(f) => match &f.update {
                    Some(UpdateKind::Bytes(bytes)) => assert_eq!(bytes, b"replaced"),
                    _ => panic!("the replacement is missing"),
                },
                Entry::Dir(_) => panic!("a file was expected"),
            },
            Entry::File(_) => panic!("a directory was expected"),
        },
        Entry::File(_) => panic!("a directory was expected"),
    }
    match &archive.entries()[2] {
        Entry::File(f) => assert!(f.update.is_none()),
        Entry::Dir(_) => panic!("a file was expected"),
    }

    let mut out = Vec::new();
    archive.rebuild(&mut out, Silent).unwrap();
    let again = ArchiveProvider::new(&out, None).unwrap();
    let reloaded = Archive::new(&again);
    let contents: Vec<Vec<u8>> =
        reloaded.files().collect().into_iter().map(|f| f.raw_bytes.to_vec()).collect();
    assert_eq!(
        contents,
        vec![b"a".to_vec(), b"b".to_vec(), b"replaced".to_vec(), b"f".to_vec(), b"g".to_vec()]
    );
    assert!(reloaded.entries_checksum_match());
}
