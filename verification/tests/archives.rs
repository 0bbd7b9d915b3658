use hvp_archive::archive::entry::{DecompressError, Entry, FileEntry, UpdateKind};
use hvp_archive::archive::rebuild::{apply_padding, process_file, Patch};
use hvp_archive::archive::error::{RebuildError, RebuildFault};
use hvp_archive::archive::obscure2::{unknown_names, Obscure2NameMap, UnknownName};
use hvp_archive::archive::rebuild_progress::RebuildProgress;
use hvp_archive::archive::{Archive, Metadata, Options};
use hvp_archive::provider::{ArchiveProvider, ProviderError, RawArchive};
use hvp_archive::structures::checksum::bytes_sum;
use hvp_archive::structures::common::{CodecError, Endian};
use hvp_archive::structures::{final_exam, obscure1, obscure2};
use hvp_archive::Game;

struct EmptyProgress;

impl RebuildProgress for EmptyProgress {
    fn inc(&self, _: Option<String>) {}

    fn inc_n(&self, _: usize, _: Option<String>) {}
}

/// A tree to make an image of.
#[derive(Clone)]
enum Node {
    File { name: String, stored: Vec<u8>, size: u32, compressed: bool },
    Dir { name: String, children: Vec<Node> },
}

fn file(name: &str, content: &[u8]) -> Node {
    Node::File {
        name: name.to_string(),
        stored: content.to_vec(),
        size: content.len() as u32,
        compressed: false,
    }
}

fn packed_file(name: &str, stored: Vec<u8>, size: u32) -> Node {
    Node::File { name: name.to_string(), stored, size, compressed: true }
}

fn dir(name: &str, children: Vec<Node>) -> Node {
    Node::Dir { name: name.to_string(), children }
}

fn put32(out: &mut Vec<u8>, v: u32, endian: Endian) {
    match endian {
        Endian::Little => out.extend_from_slice(&v.to_le_bytes()),
        Endian::Big => out.extend_from_slice(&v.to_be_bytes()),
    }
}

fn put16(out: &mut Vec<u8>, v: u16, endian: Endian) {
    match endian {
        Endian::Little => out.extend_from_slice(&v.to_le_bytes()),
        Endian::Big => out.extend_from_slice(&v.to_be_bytes()),
    }
}

/// One record of a flat table before it is written.
struct Record {
    name: String,
    kind: u32,
    checksum: i32,
    size: u32,
    offset: u32,
    stored: u32,
    count: u32,
    index: u32,
}

/// Lays a tree out as a flat table whose payloads follow the table in the
/// order of the listing.  Returns the records and the payload bytes.
fn lay_out(top: &[Node], endian: Endian, first: u32, align: bool) -> (Vec<Record>, Vec<u8>) {
    let mut records: Vec<Record> = vec![Record {
        name: String::new(),
        kind: 4,
        checksum: 0,
        size: 0,
        offset: 0,
        stored: 0,
        count: top.len() as u32,
        index: 1,
    }];
    let mut nodes: Vec<Option<Node>> = vec![None];
    for n in top {
        nodes.push(Some(n.clone()));
        records.push(blank(n));
    }
    let mut at = 1;
    while at < nodes.len() {
        if let Some(Node::Dir { children, .. }) = nodes[at].clone() {
            records[at].index = nodes.len() as u32;
            records[at].count = children.len() as u32;
            for c in &children {
                nodes.push(Some(c.clone()));
                records.push(blank(c));
            }
        }
        at += 1;
    }
    let mut payload = Vec::new();
    let mut cursor = first;
    if align {
        while cursor % 4 != 0 {
            payload.push(0);
            cursor += 1;
        }
    }
    place(&mut records, &nodes, 1, top.len(), &mut payload, &mut cursor, endian, align);
    (records, payload)
}

fn blank(n: &Node) -> Record {
    match n {
        Node::File { name, stored, size, compressed } => Record {
            name: name.clone(),
            kind: if *compressed { 1 } else { 0 },
            checksum: 0,
            size: *size,
            offset: 0,
            stored: stored.len() as u32,
            count: 0,
            index: 0,
        },
        Node::Dir { name, .. } => Record {
            name: name.clone(),
            kind: 4,
            checksum: 0,
            size: 0,
            offset: 0,
            stored: 0,
            count: 0,
            index: 0,
        },
    }
}

#[allow(clippy::too_many_arguments)]
fn place(
    records: &mut Vec<Record>,
    nodes: &[Option<Node>],
    from: usize,
    count: usize,
    payload: &mut Vec<u8>,
    cursor: &mut u32,
    endian: Endian,
    align: bool,
) {
    for i in from..from + count {
        match nodes[i].as_ref().unwrap() {
            Node::File { stored, size, .. } => {
                records[i].checksum = bytes_sum(stored, endian);
                if *size == 0 {
                    records[i].stored = 0;
                    continue;
                }
                records[i].offset = *cursor;
                payload.extend_from_slice(stored);
                *cursor += stored.len() as u32;
                if align {
                    while *cursor % 4 != 0 {
                        payload.push(0);
                        *cursor += 1;
                    }
                }
            }
            Node::Dir { .. } => {
                let (index, count) = (records[i].index as usize, records[i].count as usize);
                place(records, nodes, index, count, payload, cursor, endian, align);
            }
        }
    }
}

fn name_hash(name: &str) -> u32 {
    if name.is_empty() {
        0
    } else {
        crc32fast::hash(name.as_bytes())
    }
}

/// An image of the second layout.
fn obscure2_image(top: &[Node], endian: Endian) -> Vec<u8> {
    let total = count_nodes(top) + 1;
    let first = 16 + 24 * total as u32;
    let (records, payload) = lay_out(top, endian, first, false);
    assert_eq!(records.len(), total);
    let mut table = Vec::new();
    for r in &records {
        put32(&mut table, name_hash(&r.name), endian);
        put16(&mut table, r.kind as u16, endian);
        put16(&mut table, 0, endian);
        if r.kind == 4 {
            put32(&mut table, 0, endian);
            put32(&mut table, 0, endian);
            put32(&mut table, r.count, endian);
            put32(&mut table, r.index, endian);
        } else {
            put32(&mut table, r.checksum as u32, endian);
            put32(&mut table, r.size, endian);
            put32(&mut table, r.offset, endian);
            put32(&mut table, r.stored, endian);
        }
    }
    let mut image = match endian {
        Endian::Little => vec![0, 0, 4, 0],
        Endian::Big => vec![0, 4, 0, 0],
    };
    put32(&mut image, 0, endian);
    put32(&mut image, total as u32, endian);
    put32(&mut image, crc32fast::hash(&table), endian);
    image.extend_from_slice(&table);
    image.extend_from_slice(&payload);
    image
}

/// An image of the third layout.
fn final_exam_image(top: &[Node], endian: Endian) -> Vec<u8> {
    let total = count_nodes(top) + 1;
    let mut names: Vec<u8> = vec![0];
    let mut offsets = std::collections::HashMap::new();
    collect_names(top, &mut names, &mut offsets);
    let first = 16 + 4 + names.len() as u32 + 28 * total as u32;
    let (records, payload) = lay_out(top, endian, first, true);
    let mut table = Vec::new();
    for r in &records {
        let name_offset = if r.name.is_empty() { 0 } else { offsets[&r.name] };
        put32(&mut table, name_hash(&r.name), endian);
        put32(&mut table, r.kind, endian);
        if r.kind == 4 {
            put32(&mut table, 0, endian);
            put32(&mut table, 0, endian);
            put32(&mut table, name_offset, endian);
            put32(&mut table, r.count, endian);
            put32(&mut table, r.index, endian);
        } else {
            put32(&mut table, r.checksum as u32, endian);
            put32(&mut table, r.size, endian);
            put32(&mut table, name_offset, endian);
            put32(&mut table, r.offset, endian);
            put32(&mut table, r.stored, endian);
        }
    }
    let mut image = match endian {
        Endian::Little => vec![0, 0, 5, 0],
        Endian::Big => vec![0, 5, 0, 0],
    };
    put32(&mut image, 0, endian);
    put32(&mut image, total as u32, endian);
    put32(&mut image, crc32fast::hash(&table), endian);
    put32(&mut image, names.len() as u32, endian);
    image.extend_from_slice(&names);
    image.extend_from_slice(&table);
    image.extend_from_slice(&payload);
    image
}

fn collect_names(
    nodes: &[Node],
    names: &mut Vec<u8>,
    offsets: &mut std::collections::HashMap<String, u32>,
) {
    for n in nodes {
        let name = match n {
            Node::File { name, .. } => name,
            Node::Dir { name, .. } => name,
        };
        if !offsets.contains_key(name) {
            offsets.insert(name.clone(), names.len() as u32);
            names.extend_from_slice(name.as_bytes());
            names.push(0);
        }
        if let Node::Dir { children, .. } = n {
            collect_names(children, names, offsets);
        }
    }
}

fn count_nodes(nodes: &[Node]) -> usize {
    nodes
        .iter()
        .map(|n| match n {
            Node::File { .. } => 1,
            Node::Dir { children, .. } => 1 + count_nodes(children),
        })
        .sum()
}

/// The entries of the first layout, with the payloads placed from `cursor`
/// on in the order of the listing.
fn obscure1_entries(
    nodes: &[Node],
    endian: Endian,
    cursor: &mut u32,
    payload: &mut Vec<u8>,
) -> Vec<u8> {
    let mut out = Vec::new();
    for n in nodes {
        match n {
            Node::File { name, stored, size, compressed } => {
                put32(&mut out, 25 + 4 + name.len() as u32, endian);
                out.push(1);
                put32(&mut out, *compressed as u32, endian);
                let offset = if *size == 0 { 0 } else { *cursor };
                put32(&mut out, if *size == 0 { 0 } else { stored.len() as u32 }, endian);
                put32(&mut out, *size, endian);
                put32(&mut out, bytes_sum(stored, endian) as u32, endian);
                put32(&mut out, offset, endian);
                put32(&mut out, name.len() as u32, endian);
                out.extend_from_slice(name.as_bytes());
                if *size != 0 {
                    payload.extend_from_slice(stored);
                    *cursor += stored.len() as u32;
                }
            }
            Node::Dir { name, children } => {
                put32(&mut out, 13 + 4 + name.len() as u32, endian);
                out.push(0);
                put32(&mut out, 0, endian);
                put32(&mut out, children.len() as u32, endian);
                put32(&mut out, name.len() as u32, endian);
                out.extend_from_slice(name.as_bytes());
                out.extend_from_slice(&obscure1_entries(children, endian, cursor, payload));
            }
        }
    }
    out
}

/// An image of the first layout.
fn obscure1_image(top: &[Node], endian: Endian, minor_version: u16) -> Vec<u8> {
    let mut scratch = Vec::new();
    let mut zero = 0;
    let toc_len = obscure1_entries(top, endian, &mut zero, &mut scratch).len() as u32;
    let first = 32 + if minor_version == 1 { 8 } else { 0 } + toc_len;
    let mut payload = Vec::new();
    let mut cursor = first;
    let entries = obscure1_entries(top, endian, &mut cursor, &mut payload);
    let mut header = b"HV PackFile\0".to_vec();
    put16(&mut header, 1, endian);
    put16(&mut header, minor_version, endian);
    put32(&mut header, top.len() as u32, endian);
    put32(&mut header, count_nodes(top) as u32, endian);
    put32(&mut header, count_files(top) as u32, endian);
    put32(&mut header, first, endian);
    let mut image = header.clone();
    if minor_version == 1 {
        put32(&mut image, crc32fast::hash(&header), endian);
        put32(&mut image, crc32fast::hash(&entries), endian);
    }
    image.extend_from_slice(&entries);
    image.extend_from_slice(&payload);
    image
}

fn count_files(nodes: &[Node]) -> usize {
    nodes
        .iter()
        .map(|n| match n {
            Node::File { .. } => 1,
            Node::Dir { children, .. } => count_files(children),
        })
        .sum()
}

/// A tree with the given numbers of directories and files below the top.
fn grown_tree(dirs: usize, files: usize) -> Vec<Node> {
    let mut top: Vec<Node> = Vec::new();
    let mut made = 0;
    for d in 0..dirs {
        let mut children = Vec::new();
        let share = files / (dirs + 1);
        for f in 0..share {
            let content: Vec<u8> = (0..(f * 7 + d) % 61 + 1).map(|i| (i * 31 + f + d) as u8).collect();
            children.push(file(&format!("file_{d}_{f}.dat"), &content));
            made += 1;
        }
        top.push(dir(&format!("dir_{d}"), children));
    }
    let mut f = 0;
    while made < files {
        let content: Vec<u8> = (0..f % 17 + 1).map(|i| (i * 13 + f) as u8).collect();
        top.push(file(&format!("top_{f}.bin"), &content));
        made += 1;
        f += 1;
    }
    top
}

fn all_names(nodes: &[Node], out: &mut Vec<String>) {
    for n in nodes {
        match n {
            Node::File { name, .. } => out.push(name.clone()),
            Node::Dir { name, children } => {
                out.push(name.clone());
                all_names(children, out);
            }
        }
    }
}

fn options_for(top: &[Node]) -> Options {
    let mut names = Vec::new();
    all_names(top, &mut names);
    Options { obscure2_names: Obscure2NameMap::new(&names), rebuild_skip_compression: false }
}

fn small_tree() -> Vec<Node> {
    let plain: Vec<u8> = (0..100u32).map(|i| (i % 7) as u8).collect();
    let packed = lzokay_native::compress(&plain).unwrap();
    vec![
        file("hello.txt", b"hello world!!"),
        dir(
            "sub",
            vec![
                packed_file("data.bin", packed, plain.len() as u32),
                file("empty", b""),
                dir("deep", vec![file("leaf", &[1, 2, 3, 4, 5])]),
            ],
        ),
        file("last", &[9; 7]),
    ]
}

fn paths(archive: &Archive) -> Vec<Vec<String>> {
    let mut out = Vec::new();
    for e in archive.entries() {
        for f in e.flatten_to_files() {
            out.push(f.path);
        }
    }
    out
}

fn strs(path: &[&str]) -> Vec<String> {
    path.iter().map(|s| s.to_string()).collect()
}

#[test]
fn load_and_check_obscure2() {
    let top = grown_tree(55, 478);
    let image = obscure2_image(&top, Endian::Little);
    let provider = ArchiveProvider::new(&image, Some(Game::Obscure2))
        .expect("failed to load hvp archive using provider");
    let archive = Archive::new(&provider);

    assert_eq!(
        archive.metadata(),
        Metadata { dir_count: 55, file_count: 478, game: Game::Obscure2 },
        "archive metadata doesn't match with the expected metadata"
    );

    assert!(archive.entries_checksum_match(), "entries checksum doesn't match");
}

#[test]
fn rebuild_obscure2() {
    let top = grown_tree(55, 478);
    let org_archive = obscure2_image(&top, Endian::Little);
    let provider = ArchiveProvider::new(&org_archive, Some(Game::Obscure2))
        .expect("failed to load hvp archive using provider");
    let archive = Archive::new(&provider);

    let mut rebuild_archive = Vec::with_capacity(org_archive.len());
    archive.rebuild(&mut rebuild_archive, EmptyProgress).expect("failed to rebuild archive");

    assert_eq!(
        org_archive, rebuild_archive,
        "the original archive doesn't match the new generated archive"
    );
}

#[test]
fn load_and_check_final_exam() {
    let top = grown_tree(4, 13);
    let image = final_exam_image(&top, Endian::Little);
    let provider = ArchiveProvider::new(&image, Some(Game::FinalExam))
        .expect("failed to load hvp archive using provider");
    let archive = Archive::new(&provider);

    assert_eq!(
        archive.metadata(),
        Metadata { dir_count: 4, file_count: 13, game: Game::FinalExam },
        "archive metadata doesn't match with the expected metadata"
    );

    assert!(archive.entries_checksum_match(), "entries checksum doesn't match");
}

#[test]
fn rebuild_final_exam() {
    let top = grown_tree(4, 13);
    let org_archive = final_exam_image(&top, Endian::Little);
    let provider = ArchiveProvider::new(&org_archive, Some(Game::FinalExam))
        .expect("failed to load hvp archive using provider");
    let archive = Archive::new(&provider);

    let mut rebuild_archive = Vec::with_capacity(org_archive.len());
    archive.rebuild(&mut rebuild_archive, EmptyProgress).expect("failed to rebuild archive");

    assert_eq!(
        org_archive, rebuild_archive,
        "the original archive doesn't match the new generated archive"
    );
}

#[test]
fn autodetect_obscure1() {
    let image = obscure1_image(&small_tree(), Endian::Little, 1);
    assert_eq!(
        hvp_archive::try_detect_game(&image),
        Some(Game::Obscure1),
        "failed to detect obscure1 hvp archive"
    );
    let provider = ArchiveProvider::new(&image, None).expect("failed to parse obscure1 archive");
    assert_eq!(provider.game(), Game::Obscure1);
}

#[test]
fn autodetect_obscure2() {
    let image = obscure2_image(&small_tree(), Endian::Little);
    assert_eq!(
        hvp_archive::try_detect_game(&image),
        Some(Game::Obscure2),
        "failed to detect obscure2 hvp archive"
    );
    let provider = ArchiveProvider::new(&image, None).expect("failed to parse obscure2 archive");
    assert_eq!(provider.game(), Game::Obscure2);
}

#[test]
fn autodetect_final_exam() {
    let image = final_exam_image(&small_tree(), Endian::Big);
    assert_eq!(hvp_archive::try_detect_game(&image), Some(Game::FinalExam));
    let provider = ArchiveProvider::new(&image, None).unwrap();
    assert_eq!(provider.game(), Game::FinalExam);
}

#[test]
fn round_trip_of_every_layout_and_byte_order() {
    let top = small_tree();
    for endian in [Endian::Little, Endian::Big] {
        let images = [
            (Game::Obscure1, obscure1_image(&top, endian, 1)),
            (Game::Obscure1, obscure1_image(&top, endian, 0)),
            (Game::Obscure2, obscure2_image(&top, endian)),
            (Game::FinalExam, final_exam_image(&top, endian)),
        ];
        for (game, image) in images {
            let provider =
                ArchiveProvider::new_with_endian(&image, Some(game), endian).unwrap();
            let archive = Archive::new_with_options(&provider, options_for(&top));
            assert_eq!(
                archive.metadata(),
                Metadata { dir_count: 2, file_count: 5, game }
            );
            assert!(archive.entries_checksum_match());
            let mut out = Vec::new();
            archive.rebuild(&mut out, EmptyProgress).unwrap();
            assert_eq!(out, image);
        }
    }
}

#[test]
fn listing_joins_directory_and_file_names() {
    let top = small_tree();
    let image = obscure1_image(&top, Endian::Little, 1);
    let provider = ArchiveProvider::new(&image, None).unwrap();
    let archive = Archive::new(&provider);
    assert_eq!(
        paths(&archive),
        vec![
            strs(&["hello.txt"]),
            strs(&["sub", "data.bin"]),
            strs(&["sub", "empty"]),
            strs(&["sub", "deep", "leaf"]),
            strs(&["last"]),
        ]
    );
}

/// A tree of one leaf below two directories.
fn deep_leaf() -> Vec<Node> {
    vec![dir("a", vec![dir("b", vec![file("leaf", b"abc")])])]
}

/// Swaps the last two records of an image of `deep_leaf`, so that the
/// directory `b` stands behind its child, and lets `a` and `b` point at
/// `b_child` and `a_child`.
fn swap_last_records(image: &mut Vec<u8>, table: usize, record: usize, a_child: u32, b_child: u32) {
    let (second, third) = (table + 2 * record, table + 3 * record);
    let leaf = image[third..third + record].to_vec();
    let b = image[second..second + record].to_vec();
    image[second..second + record].copy_from_slice(&leaf);
    image[third..third + record].copy_from_slice(&b);
    let index = record - 4;
    image[table + record + index..table + 2 * record].copy_from_slice(&a_child.to_le_bytes());
    image[third + index..third + record].copy_from_slice(&b_child.to_le_bytes());
    let crc = crc32fast::hash(&image[table..table + 4 * record]);
    image[12..16].copy_from_slice(&crc.to_le_bytes());
}

fn check_deep_leaf(image: Vec<u8>, options: Options) {
    let provider = ArchiveProvider::new(&image, None).unwrap();
    let archive = Archive::new_with_options(&provider, options);
    assert_eq!(paths(&archive), vec![strs(&["a", "b", "leaf"])]);
    assert_eq!(archive.metadata().dir_count, 2);
    assert_eq!(archive.metadata().file_count, 1);
    assert_eq!(archive.files().collect()[0].get_bytes().unwrap(), b"abc".to_vec());
    assert!(archive.entries_checksum_match());

    let mut rebuilt = Vec::new();
    archive.rebuild(&mut rebuilt, EmptyProgress).unwrap();
    assert_eq!(&rebuilt, provider.bytes());
}

#[test]
fn a_directory_may_stand_behind_its_children() {
    let top = deep_leaf();
    let mut image = obscure2_image(&top, Endian::Little);
    swap_last_records(&mut image, 16, 24, 3, 2);
    match obscure2::HvpArchive::parse(&image) {
        Ok((raw, _)) => match raw.entries()[3].kind {
            obscure2::EntryKind::Directory(d) => assert_eq!((d.index, d.count), (2, 1)),
            _ => panic!("the last record is a directory"),
        },
        Err(e) => panic!("{e:?}"),
    }
    check_deep_leaf(image, options_for(&top));

    let mut image = final_exam_image(&top, Endian::Little);
    let names_len = u32::from_le_bytes([image[16], image[17], image[18], image[19]]) as usize;
    swap_last_records(&mut image, 20 + names_len, 28, 3, 2);
    check_deep_leaf(image, Options::default());
}

#[test]
fn directories_that_hold_each_other_are_refused() {
    let top = deep_leaf();
    let mut image = obscure2_image(&top, Endian::Little);
    swap_last_records(&mut image, 16, 24, 3, 1);
    assert_eq!(
        obscure2::HvpArchive::parse(&image).unwrap_err(),
        CodecError::InvalidDirectoryRange
    );
    assert!(matches!(
        ArchiveProvider::new(&image, None),
        Err(ProviderError::ArchiveLoadFailed(CodecError::InvalidDirectoryRange))
    ));

    let mut image = final_exam_image(&top, Endian::Little);
    let names_len = u32::from_le_bytes([image[16], image[17], image[18], image[19]]) as usize;
    swap_last_records(&mut image, 20 + names_len, 28, 3, 3);
    assert_eq!(
        final_exam::HvpArchive::parse(&image).unwrap_err(),
        CodecError::InvalidDirectoryRange
    );
}

#[test]
fn records_that_the_dictionary_does_not_know_are_reported() {
    let top = small_tree();
    let image = obscure2_image(&top, Endian::Little);
    let provider = ArchiveProvider::new(&image, None).unwrap();
    let known = Archive::new_with_options(&provider, options_for(&top));
    assert_eq!(known.unknown_names(), vec![]);

    let file = |name: &str| UnknownName { name_crc32: crc32fast::hash(name.as_bytes()), directory: false };
    let folder = |name: &str| UnknownName { name_crc32: crc32fast::hash(name.as_bytes()), directory: true };
    let none = Archive::new(&provider);
    assert_eq!(
        none.unknown_names(),
        vec![
            file("hello.txt"),
            folder("sub"),
            file("last"),
            file("data.bin"),
            file("empty"),
            folder("deep"),
            file("leaf"),
        ]
    );

    let some = Archive::new_with_options(
        &provider,
        Options {
            obscure2_names: Obscure2NameMap::new(&vec!["sub".to_owned(), "leaf".to_owned(), "other".to_owned()]),
            rebuild_skip_compression: false,
        },
    );
    assert_eq!(
        some.unknown_names(),
        vec![file("hello.txt"), file("last"), file("data.bin"), file("empty"), folder("deep")]
    );
    match provider.raw_archive() {
        RawArchive::Obscure2(raw) => {
            assert_eq!(unknown_names(raw.entries(), &Obscure2NameMap::empty()).len(), 7);
            assert_eq!(unknown_names(&Vec::new(), &Obscure2NameMap::empty()), vec![]);
        }
        _ => panic!("wrong layout"),
    }

    // the other layouts look no name up
    let bytes = final_exam_image(&top, Endian::Little);
    let provider = ArchiveProvider::new(&bytes, None).unwrap();
    assert_eq!(Archive::new(&provider).unknown_names(), vec![]);
    let bytes = obscure1_image(&top, Endian::Little, 1);
    let provider = ArchiveProvider::new(&bytes, Some(Game::Obscure1)).unwrap();
    assert_eq!(Archive::new(&provider).unknown_names(), vec![]);
}

#[test]
fn names_of_the_second_layout_come_from_the_dictionary() {
    let top = small_tree();
    let image = obscure2_image(&top, Endian::Little);
    let provider = ArchiveProvider::new(&image, None).unwrap();
    let known = Archive::new_with_options(&provider, options_for(&top));
    assert_eq!(paths(&known)[3], strs(&["sub", "deep", "leaf"]));

    let unknown = Archive::new(&provider);
    let hello = crc32fast::hash(b"hello.txt");
    let sub = crc32fast::hash(b"sub");
    let data = crc32fast::hash(b"data.bin");
    assert_eq!(paths(&unknown)[0], vec![format!("unk_file_{hello}.dat")]);
    assert_eq!(
        paths(&unknown)[1],
        vec![format!("unk_folder_{sub}"), format!("unk_file_{data}.dat")]
    );
}

#[test]
fn names_of_the_third_layout_come_from_the_name_table() {
    let top = small_tree();
    let image = final_exam_image(&top, Endian::Little);
    let provider = ArchiveProvider::new(&image, None).unwrap();
    let archive = Archive::new(&provider);
    assert_eq!(paths(&archive)[1], strs(&["sub", "data.bin"]));
    match provider.raw_archive() {
        RawArchive::FinalExam(raw) => {
            assert_eq!(raw.names.get_name_by_offset(1), "hello.txt");
            assert_eq!(raw.names.get_name_by_offset(0), "");
            assert_eq!(raw.names.get_name_by_offset(3), "llo.txt");
        }
        _ => panic!("wrong layout"),
    }
}

#[test]
fn compressed_payloads_decompress() {
    let plain: Vec<u8> = (0..100u32).map(|i| (i % 7) as u8).collect();
    let top = small_tree();
    for image in [obscure2_image(&top, Endian::Little), final_exam_image(&top, Endian::Little)] {
        let provider = ArchiveProvider::new(&image, None).unwrap();
        let archive = Archive::new(&provider);
        let files = archive.entries()[1].flatten_to_files();
        assert!(files[0].is_compressed());
        assert!(files[0].checksum_match());
        assert_eq!(files[0].get_bytes().unwrap(), plain);
        assert!(!files[1].is_compressed());
        assert_eq!(files[1].get_bytes().unwrap(), Vec::<u8>::new());
    }
}

fn zlib(plain: &[u8]) -> Vec<u8> {
    let mut out = vec![0u8; plain.len() + 64];
    let mut encoder = flate2::Compress::new(flate2::Compression::best(), true);
    encoder.compress(plain, &mut out, flate2::FlushCompress::Finish).unwrap();
    out.truncate(encoder.total_out() as usize);
    out
}

fn loaded_file<'a>(archive: &'a Archive, index: usize) -> hvp_archive::archive::entry::FullFileEntry<'a> {
    let mut all = Vec::new();
    for e in archive.entries() {
        all.extend(e.flatten_to_files());
    }
    all.remove(index)
}

#[test]
fn replacement_is_stored_compressed_and_reads_back() {
    let plain: Vec<u8> = (0..200u32).map(|i| (i % 5) as u8).collect();
    let replacement: Vec<u8> = (0..300u32).map(|i| (i % 11) as u8).collect();
    let cases = [
        (Game::Obscure1, vec![packed_file("a.bin", zlib(&plain), 200), file("b", b"tail")]),
        (
            Game::Obscure2,
            vec![packed_file("a.bin", lzokay_native::compress(&plain).unwrap(), 200), file("b", b"tail")],
        ),
        (
            Game::FinalExam,
            vec![packed_file("a.bin", lzokay_native::compress(&plain).unwrap(), 200), file("b", b"tail")],
        ),
    ];
    for (game, top) in cases {
        let image = match game {
            Game::Obscure1 => obscure1_image(&top, Endian::Little, 1),
            Game::Obscure2 => obscure2_image(&top, Endian::Little),
            Game::FinalExam => final_exam_image(&top, Endian::Little),
        };
        let provider = ArchiveProvider::new(&image, Some(game)).unwrap();
        let mut archive = Archive::new_with_options(&provider, options_for(&top));
        assert_eq!(loaded_file(&archive, 0).get_bytes().unwrap(), plain);
        assert!(archive.update_file(0, Some(UpdateKind::Bytes(replacement.clone()))));
        assert!(!archive.update_file(2, Some(UpdateKind::Bytes(vec![1]))));
        let mut out = Vec::new();
        archive.rebuild(&mut out, EmptyProgress).unwrap();
        assert_ne!(out, image);

        let again = ArchiveProvider::new(&out, Some(game)).unwrap();
        let reloaded = Archive::new_with_options(&again, options_for(&top));
        assert_eq!(reloaded.metadata(), archive.metadata());
        assert!(reloaded.entries_checksum_match());
        let first = loaded_file(&reloaded, 0);
        assert!(first.is_compressed());
        assert_eq!(first.get_bytes().unwrap(), replacement);
        assert_eq!(first.checksum, bytes_sum(first.raw_bytes, Endian::Little));
        let second = loaded_file(&reloaded, 1);
        assert_eq!(second.get_bytes().unwrap(), b"tail".to_vec());
    }
}

#[test]
fn a_rebuilt_image_loads_again_with_the_same_listing() {
    let replacement: Vec<u8> = (0..500u32).map(|i| (i % 13) as u8).collect();
    for game in [Game::Obscure1, Game::Obscure2, Game::FinalExam] {
        let plain: Vec<u8> = (0..100u32).map(|i| (i % 7) as u8).collect();
        let stored = if game == Game::Obscure1 {
            zlib(&plain)
        } else {
            lzokay_native::compress(&plain).unwrap()
        };
        let top = vec![
            file("hello.txt", b"hello world!!"),
            dir(
                "sub",
                vec![
                    packed_file("data.bin", stored, 100),
                    file("empty", b""),
                    dir("deep", vec![file("leaf", &[1, 2, 3, 4, 5])]),
                ],
            ),
            file("last", b"the end"),
        ];
        let image = match game {
            Game::Obscure1 => obscure1_image(&top, Endian::Big, 1),
            Game::Obscure2 => obscure2_image(&top, Endian::Big),
            Game::FinalExam => final_exam_image(&top, Endian::Big),
        };
        let provider = ArchiveProvider::new_with_endian(&image, Some(game), Endian::Big).unwrap();
        let mut archive = Archive::new_with_options(&provider, options_for(&top));
        // the leaf, two directories down, and the compressed file
        assert!(archive.update_file(3, Some(UpdateKind::Bytes(replacement.clone()))));
        assert!(archive.update_file(1, Some(UpdateKind::Bytes(b"short".to_vec()))));
        let before: Vec<Vec<u8>> =
            archive.files().collect().iter().map(|f| f.get_bytes().unwrap()).collect();
        let mut out = Vec::new();
        archive.rebuild(&mut out, EmptyProgress).unwrap();

        let again = ArchiveProvider::new_with_endian(&out, Some(game), Endian::Big).unwrap();
        let reloaded = Archive::new_with_options(&again, options_for(&top));
        assert_eq!(again.entries_offset(), provider.entries_offset());
        assert_eq!(reloaded.metadata(), archive.metadata());
        assert_eq!(paths(&reloaded), paths(&archive));
        assert!(reloaded.entries_checksum_match());
        let after: Vec<Vec<u8>> =
            reloaded.files().collect().iter().map(|f| f.get_bytes().unwrap()).collect();
        assert_eq!(after.len(), 5);
        assert_eq!(after[0], before[0]);
        assert_eq!(after[1], b"short".to_vec());
        assert_eq!(after[2], before[2]);
        assert_eq!(after[3], replacement);
        assert_eq!(after[4], before[4]);
        // the leaf was stored as it is and stays so; the compressed file stays compressed
        assert!(!loaded_file(&reloaded, 3).is_compressed());
        assert!(loaded_file(&reloaded, 1).is_compressed());
    }
}

#[test]
fn a_record_that_two_directories_share_is_listed_twice() {
    // records: the root, `a`, `b`, `x`, `y`; then `b` is made to hold `x` as `a` does
    let long: Vec<u8> = (0..100u32).map(|i| i as u8).collect();
    let top = vec![dir("a", vec![file("x", b"abcd")]), dir("b", vec![file("y", &long)])];
    let mut image = obscure2_image(&top, Endian::Little);
    image[16 + 2 * 24 + 20..16 + 3 * 24].copy_from_slice(&3u32.to_le_bytes());
    let crc = crc32fast::hash(&image[16..16 + 5 * 24]);
    image[12..16].copy_from_slice(&crc.to_le_bytes());

    let provider = ArchiveProvider::new(&image, None).unwrap();
    let archive = Archive::new_with_options(&provider, options_for(&top));
    assert_eq!(paths(&archive), vec![strs(&["a", "x"]), strs(&["b", "x"])]);
    assert_eq!(archive.metadata().file_count, 2);
    assert_eq!(archive.metadata().dir_count, 2);

    // the rebuild stores the payload of `x` twice and that of `y` not at all,
    // so the record of `y` names a payload that the new image does not hold
    let mut out = Vec::new();
    archive.rebuild(&mut out, EmptyProgress).unwrap();
    assert_eq!(out.len(), 16 + 5 * 24 + 4 + 4);
    assert!(matches!(
        ArchiveProvider::new(&out, None),
        Err(ProviderError::EntryOffsetOrSizeDoesntFit)
    ));
}

#[test]
fn replacement_is_stored_as_it_is_when_compression_is_skipped() {
    let plain: Vec<u8> = (0..200u32).map(|i| (i % 5) as u8).collect();
    let replacement: Vec<u8> = (0..33u32).map(|i| (i * 3) as u8).collect();
    for game in [Game::Obscure1, Game::Obscure2, Game::FinalExam] {
        let stored = if game == Game::Obscure1 {
            zlib(&plain)
        } else {
            lzokay_native::compress(&plain).unwrap()
        };
        let top = vec![dir("d", vec![packed_file("a.bin", stored, 200)]), file("b", b"tail!")];
        let image = match game {
            Game::Obscure1 => obscure1_image(&top, Endian::Little, 0),
            Game::Obscure2 => obscure2_image(&top, Endian::Little),
            Game::FinalExam => final_exam_image(&top, Endian::Little),
        };
        let provider = ArchiveProvider::new(&image, Some(game)).unwrap();
        let mut archive = Archive::new_with_options(&provider, options_for(&top));
        archive.set_rebuild_skip_compression(true);
        assert!(archive.update_file(0, Some(UpdateKind::Bytes(replacement.clone()))));
        let mut out = Vec::new();
        archive.rebuild(&mut out, EmptyProgress).unwrap();

        let again = ArchiveProvider::new(&out, Some(game)).unwrap();
        let reloaded = Archive::new_with_options(&again, options_for(&top));
        assert!(reloaded.entries_checksum_match());
        let first = loaded_file(&reloaded, 0);
        assert!(!first.is_compressed());
        assert_eq!(first.raw_bytes, &replacement[..]);
        assert_eq!(first.checksum, bytes_sum(&replacement, Endian::Little));
        assert_eq!(loaded_file(&reloaded, 1).raw_bytes, b"tail!");
    }
}

#[test]
fn taking_a_replacement_away_restores_the_round_trip() {
    let top = small_tree();
    let image = final_exam_image(&top, Endian::Little);
    let provider = ArchiveProvider::new(&image, None).unwrap();
    let mut archive = Archive::new(&provider);
    assert!(archive.update_file(3, Some(UpdateKind::Bytes(vec![7; 9]))));
    assert!(archive.update_file(3, None));
    let mut out = Vec::new();
    archive.rebuild(&mut out, EmptyProgress).unwrap();
    assert_eq!(out, image);
}

#[test]
fn rebuild_appends_after_what_the_sink_holds() {
    let top = small_tree();
    let image = obscure2_image(&top, Endian::Little);
    let provider = ArchiveProvider::new(&image, None).unwrap();
    let archive = Archive::new(&provider);
    let mut out = vec![0xee; 10];
    archive.rebuild(&mut out, EmptyProgress).unwrap();
    assert_eq!(&out[..10], &[0xee; 10]);
    assert_eq!(out.len(), 10 + image.len());
    assert!(matches!(
        ArchiveProvider::new(&out[10..], None),
        Err(ProviderError::EntryOffsetOrSizeDoesntFit)
    ));
    match provider.raw_archive() {
        RawArchive::Obscure2(raw) => match raw.entries()[1].kind {
            obscure2::EntryKind::File(f) => assert_eq!(f.offset, 16 + 24 * 8),
            _ => panic!("the first record is a file"),
        },
        _ => panic!("wrong layout"),
    }
    let toc = obscure2::HvpArchive::parse(&out[10..]).unwrap().0;
    match toc.entries()[1].kind {
        obscure2::EntryKind::File(f) => assert_eq!(f.offset, 10 + 16 + 24 * 8),
        _ => panic!("the first record is a file"),
    }
}

#[test]
fn a_replacement_that_names_a_file_stops_the_rebuild() {
    let top = small_tree();
    let image = obscure1_image(&top, Endian::Little, 1);
    let provider = ArchiveProvider::new(&image, None).unwrap();
    let mut archive = Archive::new(&provider);
    assert!(archive.update_file(0, Some(UpdateKind::File("new/hello.txt".to_string()))));
    let mut out = vec![1, 2, 3];
    match archive.rebuild(&mut out, EmptyProgress) {
        Err(RebuildError::Io(path)) => assert_eq!(path, "new/hello.txt"),
        other => panic!("unexpected outcome: {:?}", other.map_err(|e| e.kind())),
    }
    assert_eq!(out, vec![1, 2, 3]);
    let err = archive.rebuild(&mut out, EmptyProgress).unwrap_err();
    assert_eq!(err.kind(), RebuildFault::Io);
}

#[test]
fn provider_errors() {
    assert!(matches!(
        ArchiveProvider::new(&vec![0; 8], None),
        Err(ProviderError::UnknownArchive)
    ));
    assert!(matches!(
        ArchiveProvider::new(&vec![0; 8], Some(Game::Obscure2)),
        Err(ProviderError::ArchiveLoadFailed(CodecError::BadMagic))
    ));
    assert!(matches!(
        ArchiveProvider::new(&vec![0, 0, 4], Some(Game::Obscure2)),
        Err(ProviderError::ArchiveLoadFailed(CodecError::UnexpectedEof))
    ));
    let top = small_tree();
    let mut image = obscure2_image(&top, Endian::Little);
    image.truncate(image.len() - 1);
    assert!(matches!(
        ArchiveProvider::new(&image, None),
        Err(ProviderError::EntryOffsetOrSizeDoesntFit)
    ));
    let mut image = obscure2_image(&top, Endian::Little);
    image.truncate(16 + 24 * 3);
    assert!(matches!(
        ArchiveProvider::new(&image, None),
        Err(ProviderError::ArchiveLoadFailed(CodecError::UnexpectedEof))
    ));
}

#[test]
fn codec_errors_of_the_second_layout() {
    let top = small_tree();
    let good = obscure2_image(&top, Endian::Little);
    assert!(obscure2::HvpArchive::parse(&good).is_ok());

    let mut bad = good.clone();
    bad[4] = 1;
    assert_eq!(obscure2::HvpArchive::parse(&bad).unwrap_err(), CodecError::InvalidField);

    let mut bad = good.clone();
    bad[16 + 24 + 4] = 9;
    assert_eq!(obscure2::HvpArchive::parse(&bad).unwrap_err(), CodecError::UnknownEntryKind);

    let mut bad = good.clone();
    bad[16 + 4] = 0;
    assert_eq!(obscure2::HvpArchive::parse(&bad).unwrap_err(), CodecError::MissingRootEntry);

    let mut bad = good.clone();
    bad[16 + 20] = 2;
    assert_eq!(obscure2::HvpArchive::parse(&bad).unwrap_err(), CodecError::MissingRootEntry);

    let mut bad = good.clone();
    bad[16 + 16] = 200;
    assert_eq!(obscure2::HvpArchive::parse(&bad).unwrap_err(), CodecError::InvalidDirectoryRange);

    let mut bad = good.clone();
    bad[16 + 2 * 24 + 20] = 2;
    assert_eq!(obscure2::HvpArchive::parse(&bad).unwrap_err(), CodecError::InvalidDirectoryRange);
}

#[test]
fn codec_errors_of_the_third_layout() {
    let top = small_tree();
    let good = final_exam_image(&top, Endian::Little);
    assert!(final_exam::HvpArchive::parse(&good).is_ok());

    let mut bad = good.clone();
    bad[12] ^= 1;
    assert_eq!(final_exam::HvpArchive::parse(&bad).unwrap_err(), CodecError::Crc32Mismatch);

    let names_len = u32::from_le_bytes([good[16], good[17], good[18], good[19]]) as usize;
    let table = 20 + names_len;
    let mut bad = good.clone();
    bad[21] = 0xff;
    assert_eq!(final_exam::HvpArchive::parse(&bad).unwrap_err(), CodecError::InvalidNameOffset);

    let mut bad = good.clone();
    bad[table + 28 + 16] = 0xff;
    bad[table + 28 + 17] = 0xff;
    let crc = crc32fast::hash(&bad[table..table + 28 * 8]);
    bad[12..16].copy_from_slice(&crc.to_le_bytes());
    assert_eq!(final_exam::HvpArchive::parse(&bad).unwrap_err(), CodecError::InvalidNameOffset);

    // a name offset that is the length of the table of names
    let mut bad = good.clone();
    bad[table + 28 + 16..table + 28 + 20].copy_from_slice(&(names_len as u32).to_le_bytes());
    let crc = crc32fast::hash(&bad[table..table + 28 * 8]);
    bad[12..16].copy_from_slice(&crc.to_le_bytes());
    assert_eq!(final_exam::HvpArchive::parse(&bad).unwrap_err(), CodecError::InvalidNameOffset);
    assert!(matches!(
        ArchiveProvider::new(&bad, None),
        Err(ProviderError::ArchiveLoadFailed(CodecError::InvalidNameOffset))
    ));

    // the last name of the table without its zero byte
    let mut bad = good.clone();
    assert_eq!(bad[table - 1], 0);
    bad[table - 1] = b'x';
    assert_eq!(final_exam::HvpArchive::parse(&bad).unwrap_err(), CodecError::InvalidNameOffset);

    assert_eq!(
        final_exam::HvpArchive::parse(&good[..table + 5]).unwrap_err(),
        CodecError::UnexpectedEof
    );
    assert_eq!(final_exam::HvpArchive::parse(&[0, 0, 4, 0]).unwrap_err(), CodecError::BadMagic);
}

#[test]
fn codec_errors_of_the_first_layout() {
    let top = small_tree();
    let good = obscure1_image(&top, Endian::Little, 1);
    assert!(obscure1::HvpArchive::parse(&good, Endian::Little).is_ok());
    assert!(obscure1::HvpArchive::parse(&good, Endian::Big).is_err());

    let mut bad = good.clone();
    bad[3] = b'p';
    assert_eq!(
        obscure1::HvpArchive::parse(&bad, Endian::Little).unwrap_err(),
        CodecError::BadMagic
    );

    let mut bad = good.clone();
    bad[16..20].copy_from_slice(&[0; 4]);
    assert_eq!(
        obscure1::HvpArchive::parse(&bad, Endian::Little).unwrap_err(),
        CodecError::InvalidField
    );

    let mut bad = good.clone();
    bad[36] ^= 1;
    assert_eq!(
        obscure1::HvpArchive::parse(&bad, Endian::Little).unwrap_err(),
        CodecError::Crc32Mismatch
    );

    let mut bad = good.clone();
    bad[40 + 4] = 7;
    assert_eq!(
        obscure1::HvpArchive::parse(&bad, Endian::Little).unwrap_err(),
        CodecError::UnknownEntryKind
    );

    let mut bad = obscure1_image(&top, Endian::Little, 0);
    bad[32 + 25 + 4] = 0xff;
    assert_eq!(
        obscure1::HvpArchive::parse(&bad, Endian::Little).unwrap_err(),
        CodecError::InvalidUtf8
    );

    assert_eq!(
        obscure1::HvpArchive::parse(&good[..50], Endian::Little).unwrap_err(),
        CodecError::UnexpectedEof
    );
}

#[test]
fn a_file_without_content_is_not_checked_and_not_written() {
    let top = vec![file("empty", b""), file("full", b"abc")];
    let mut image = obscure2_image(&top, Endian::Little);
    let record = 16 + 24;
    image[record + 16..record + 20].copy_from_slice(&0xffff_fff0u32.to_le_bytes());
    image[record + 20..record + 24].copy_from_slice(&0x0000_ffffu32.to_le_bytes());
    let table_end = 16 + 24 * 3;
    let crc = crc32fast::hash(&image[16..table_end]);
    image[12..16].copy_from_slice(&crc.to_le_bytes());
    let provider = ArchiveProvider::new(&image, None).unwrap();
    let archive = Archive::new(&provider);
    match &archive.entries()[0] {
        Entry::File(f) => assert!(f.raw_bytes.is_empty()),
        Entry::Dir(_) => panic!("the first entry is a file"),
    }
    let mut out = Vec::new();
    archive.rebuild(&mut out, EmptyProgress).unwrap();
    assert_eq!(out, image);
}

#[test]
fn an_empty_replacement_is_stored_without_failure() {
    let plain: Vec<u8> = (0..200u32).map(|i| (i % 5) as u8).collect();
    for game in [Game::Obscure1, Game::Obscure2, Game::FinalExam] {
        let stored = if game == Game::Obscure1 {
            zlib(&plain)
        } else {
            lzokay_native::compress(&plain).unwrap()
        };
        let top = vec![packed_file("a.bin", stored, 200), file("b", b"tail")];
        let image = match game {
            Game::Obscure1 => obscure1_image(&top, Endian::Little, 1),
            Game::Obscure2 => obscure2_image(&top, Endian::Little),
            Game::FinalExam => final_exam_image(&top, Endian::Little),
        };
        let provider = ArchiveProvider::new(&image, Some(game)).unwrap();
        let mut archive = Archive::new_with_options(&provider, options_for(&top));
        assert!(archive.update_file(0, Some(UpdateKind::Bytes(Vec::new()))));
        assert!(archive.update_file(1, Some(UpdateKind::Bytes(Vec::new()))));
        let mut out = Vec::new();
        archive.rebuild(&mut out, EmptyProgress).unwrap();
        let again = ArchiveProvider::new(&out, Some(game)).unwrap();
        let reloaded = Archive::new_with_options(&again, options_for(&top));
        assert_eq!(reloaded.metadata().file_count, 2);
        assert!(loaded_file(&reloaded, 0).raw_bytes.is_empty());
        assert!(loaded_file(&reloaded, 1).raw_bytes.is_empty());
        assert_eq!(loaded_file(&reloaded, 1).get_bytes().unwrap(), Vec::<u8>::new());
    }
}

#[test]
fn large_replacements_are_compressed_and_read_back() {
    let plain: Vec<u8> = (0..50u32).map(|i| i as u8).collect();
    let big: Vec<u8> = (0..200_000u32).map(|i| ((i * 7919) >> 3) as u8).collect();
    for game in [Game::Obscure1, Game::Obscure2, Game::FinalExam] {
        let stored = if game == Game::Obscure1 {
            zlib(&plain)
        } else {
            lzokay_native::compress(&plain).unwrap()
        };
        let top = vec![dir("d", vec![packed_file("a.bin", stored.clone(), 50)]), packed_file("b", stored, 50)];
        let image = match game {
            Game::Obscure1 => obscure1_image(&top, Endian::Big, 1),
            Game::Obscure2 => obscure2_image(&top, Endian::Big),
            Game::FinalExam => final_exam_image(&top, Endian::Big),
        };
        let provider = ArchiveProvider::new_with_endian(&image, Some(game), Endian::Big).unwrap();
        let mut archive = Archive::new_with_options(&provider, options_for(&top));
        assert!(archive.update_file(0, Some(UpdateKind::Bytes(big.clone()))));
        assert!(archive.update_file(1, Some(UpdateKind::Bytes(big.clone()))));
        let mut out = Vec::new();
        archive.rebuild(&mut out, EmptyProgress).unwrap();
        let again = ArchiveProvider::new_with_endian(&out, Some(game), Endian::Big).unwrap();
        let reloaded = Archive::new_with_options(&again, options_for(&top));
        assert!(reloaded.entries_checksum_match());
        for index in 0..2 {
            let f = loaded_file(&reloaded, index);
            assert_eq!(f.get_bytes().unwrap(), big);
            assert_eq!(f.checksum, bytes_sum(f.raw_bytes, Endian::Big));
        }
    }
}

#[test]
fn payloads_that_do_not_decompress_are_reported() {
    let plain: Vec<u8> = (0..100u32).map(|i| (i % 7) as u8).collect();
    let stream = lzokay_native::compress(&plain).unwrap();

    let top = vec![packed_file("garbage", vec![0xff; 20], 100)];
    let bytes = obscure1_image(&top, Endian::Little, 1);
    let provider = ArchiveProvider::new(&bytes, None).unwrap();
    let archive = Archive::new(&provider);
    assert_eq!(loaded_file(&archive, 0).get_bytes(), Err(DecompressError::Zlib));

    let top = vec![packed_file("garbage", vec![0x11, 0x00], 100)];
    let bytes = obscure2_image(&top, Endian::Little);
    let provider = ArchiveProvider::new(&bytes, None).unwrap();
    let archive = Archive::new(&provider);
    assert_eq!(loaded_file(&archive, 0).get_bytes(), Err(DecompressError::LzoInvalidInput));

    for wrong in [99, 101] {
        let top = vec![packed_file("short", stream.clone(), wrong)];
        let bytes = final_exam_image(&top, Endian::Little);
        let provider = ArchiveProvider::new(&bytes, None).unwrap();
        let archive = Archive::new(&provider);
        assert_eq!(loaded_file(&archive, 0).get_bytes(), Err(DecompressError::LzoOutputLength));
    }

    let top = vec![packed_file("right", stream, 100)];
    let bytes = final_exam_image(&top, Endian::Little);
    let provider = ArchiveProvider::new(&bytes, None).unwrap();
    let archive = Archive::new(&provider);
    assert_eq!(loaded_file(&archive, 0).get_bytes(), Ok(plain));
}

#[test]
fn a_payload_that_32_bits_cannot_address_stops_the_rebuild() {
    let raw = [1u8, 2, 3, 4, 5];
    let entry = |update: Option<UpdateKind>| FileEntry {
        name: "f".to_string(),
        compression_info: None,
        checksum: 15,
        endian: Endian::Little,
        uncompressed_size: 5,
        slot: 0,
        raw_bytes: &raw,
        update,
    };
    let mut dict = lzokay_native::Dict::new();
    let mut payload = vec![9u8];

    let far = u32::MAX as usize - 8;
    let r = process_file(&entry(None), far, &mut payload, Game::FinalExam, false, &mut dict, &EmptyProgress);
    assert_eq!(r.unwrap_err().kind(), RebuildFault::TooLarge);
    let r = process_file(
        &entry(Some(UpdateKind::Bytes(vec![7; 5]))),
        far,
        &mut payload,
        Game::Obscure2,
        true,
        &mut dict,
        &EmptyProgress,
    );
    assert_eq!(r.unwrap_err().kind(), RebuildFault::TooLarge);
    assert_eq!(payload, vec![9u8]);

    // one byte less, and the payload fits with its padding
    let near = u32::MAX as usize - 10;
    let r = process_file(&entry(None), near, &mut payload, Game::FinalExam, false, &mut dict, &EmptyProgress);
    assert_eq!(r.unwrap(), Patch::Keep { offset: u32::MAX - 9 });
    assert_eq!(payload, vec![9, 1, 2, 3, 4, 5, 0]);

    let mut payload = vec![1u8, 2, 3];
    apply_padding(Game::FinalExam, 6, &mut payload);
    assert_eq!(payload, vec![1, 2, 3, 0, 0, 0]);
    apply_padding(Game::FinalExam, 6, &mut payload);
    assert_eq!(payload.len(), 6);
    let mut payload = vec![1u8, 2, 3];
    apply_padding(Game::Obscure2, 6, &mut payload);
    apply_padding(Game::Obscure1, 6, &mut payload);
    assert_eq!(payload, vec![1, 2, 3]);
}
