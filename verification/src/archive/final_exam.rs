//! The third layout in the archive model.  Its records point into a table of
//! names.

use vstd::prelude::*;
use vstd::string::StringExecFns;

use crate::archive::entry::{entries_dirs, entries_files, entries_untouched, Entry};
use crate::archive::flat::{
    flat_links, flat_views, has_root, map_flat, node_fits, nodes_fit, range_mirrors, root_count,
    FlatNode, FlatView,
};
use crate::archive::rebuild::{FilePatch, Patch};
use crate::archive::Metadata;
use crate::provider::{final_exam_entries_fit, final_exam_entry_fits, ArchiveProvider};
use crate::structures::common::{crc32_ieee, links_ok, Endian};
use crate::structures::final_exam;
use crate::Game;

verus! {

/// What a record holds once its name is looked up in the table of names.
pub open spec fn record_view(entry: final_exam::Entry, names: Seq<u8>) -> FlatView {
    match entry.kind {
        final_exam::EntryKind::File(f) => FlatView {
            name: final_exam::name_at(names, f.name_offset),
            link: None,
            compressed: false,
            checksum: f.checksum,
            uncompressed_size: f.uncompressed_size,
            offset: f.offset,
            compressed_size: f.compressed_size,
        },
        final_exam::EntryKind::FileCompressed(f) => FlatView {
            name: final_exam::name_at(names, f.name_offset),
            link: None,
            compressed: true,
            checksum: f.checksum,
            uncompressed_size: f.uncompressed_size,
            offset: f.offset,
            compressed_size: f.compressed_size,
        },
        final_exam::EntryKind::Directory(d) => FlatView {
            name: final_exam::name_at(names, d.name_offset),
            link: Some((d.index, d.count)),
            compressed: false,
            checksum: 0,
            uncompressed_size: 0,
            offset: 0,
            compressed_size: 0,
        },
    }
}

/// What the records of a table hold once their names are looked up.
pub open spec fn table_views(table: Seq<final_exam::Entry>, names: Seq<u8>) -> Seq<FlatView> {
    Seq::new(table.len(), |i: int| record_view(table[i], names))
}

/// The records of a table with their names looked up.
pub fn resolve_table(table: &Vec<final_exam::Entry>, names: &final_exam::Names) -> (nodes: Vec<
    FlatNode,
>)
    requires
        final_exam::name_offsets_ok(names.bytes@, table@),
    ensures
        flat_views(nodes@) == table_views(table@, names.bytes@),
{
    let mut nodes: Vec<FlatNode> = Vec::new();
    let mut i: usize = 0;
    while i < table.len()
        invariant
            i <= table.len(),
            nodes@.len() == i,
            final_exam::name_offsets_ok(names.bytes@, table@),
            forall|k: int|
                0 <= k < i ==> (#[trigger] nodes@[k])@ == record_view(table@[k], names.bytes@),
        decreases table.len() - i,
    {
        let entry = &table[i];
        assert(final_exam::name_offset_ok(names.bytes@, table@[i as int].name_offset()));
        let node = match entry.kind {
            final_exam::EntryKind::File(f) => FlatNode {
                name: String::from_str(names.get_name_by_offset(f.name_offset)),
                link: None,
                compressed: false,
                checksum: f.checksum,
                uncompressed_size: f.uncompressed_size,
                offset: f.offset,
                compressed_size: f.compressed_size,
            },
            final_exam::EntryKind::FileCompressed(f) => FlatNode {
                name: String::from_str(names.get_name_by_offset(f.name_offset)),
                link: None,
                compressed: true,
                checksum: f.checksum,
                uncompressed_size: f.uncompressed_size,
                offset: f.offset,
                compressed_size: f.compressed_size,
            },
            final_exam::EntryKind::Directory(d) => FlatNode {
                name: String::from_str(names.get_name_by_offset(d.name_offset)),
                link: Some((d.index, d.count)),
                compressed: false,
                checksum: 0,
                uncompressed_size: 0,
                offset: 0,
                compressed_size: 0,
            },
        };
        nodes.push(node);
        i += 1;
    }
    assert(flat_views(nodes@) =~= table_views(table@, names.bytes@));
    nodes
}

/// The looked-up records of a table that starts with the root directory, whose
/// directories span a tree and whose payloads fit an image, do so too.
pub proof fn lemma_table_views(table: Seq<final_exam::Entry>, names: Seq<u8>, limit: int)
    requires
        final_exam::has_root_entry(table),
        links_ok(final_exam::links_of(table)),
        final_exam_entries_fit(table, limit),
    ensures
        has_root(table_views(table, names)),
        links_ok(flat_links(table_views(table, names))),
        nodes_fit(table_views(table, names), limit),
        root_count(table_views(table, names)) == table[0].kind->Directory_0.count,
{
    let views = table_views(table, names);
    assert(flat_links(views) =~= final_exam::links_of(table));
    assert forall|i: int| 0 <= i < views.len() implies node_fits(#[trigger] views[i], limit) by {
        assert(final_exam_entry_fits(table[i], limit));
    }
}

/// Builds the model of an archive of the third layout from its table of
/// contents and its table of names, and counts its files and directories.
/// The root directory of the table is left out: the entries at the top of the
/// model are its children.
pub fn map_entries<'p>(
    provider: &'p ArchiveProvider,
    entries: &Vec<final_exam::Entry>,
    endian: Endian,
    names: &final_exam::Names,
) -> (r: (Vec<Entry<'p>>, Metadata))
    requires
        final_exam::has_root_entry(entries@),
        final_exam::name_offsets_ok(names.bytes@, entries@),
        links_ok(final_exam::links_of(entries@)),
        final_exam_entries_fit(entries@, provider.image().len() as int),
    ensures
        range_mirrors(
            table_views(entries@, names.bytes@),
            1,
            r.0@,
            r.0@.len(),
            endian,
            provider.image(),
        ),
        r.0@.len() == entries@[0].kind->Directory_0.count,
        entries_untouched(r.0@, r.0@.len()),
        r.1 == (Metadata {
            dir_count: entries_dirs(r.0@, r.0@.len()) as usize,
            file_count: entries_files(r.0@, r.0@.len()) as usize,
            game: Game::FinalExam,
        }),
        entries_dirs(r.0@, r.0@.len()) + entries_files(r.0@, r.0@.len()) <= usize::MAX,
{
    let nodes = resolve_table(entries, names);
    proof {
        lemma_table_views(entries@, names.bytes@, provider.image().len() as int);
    }
    let (es, dir_count, file_count) = map_flat(provider, &nodes, endian);
    (es, Metadata { dir_count, file_count, game: Game::FinalExam })
}

} // verus!

verus! {

/// What a record says once it is patched.  A directory says what it said.
pub open spec fn patched_record(entry: final_exam::Entry, patch: Patch) -> final_exam::Entry {
    match entry.kind {
        final_exam::EntryKind::Directory(_) => entry,
        final_exam::EntryKind::File(f) => patched_file_record(entry.name_crc32, f, false, patch),
        final_exam::EntryKind::FileCompressed(f) => patched_file_record(
            entry.name_crc32,
            f,
            true,
            patch,
        ),
    }
}

/// What the record of a file says once it is patched.  Its kind follows the
/// new payload: compressed or not.
pub open spec fn patched_file_record(
    name_crc32: u32,
    f: final_exam::FileEntry,
    was_compressed: bool,
    patch: Patch,
) -> final_exam::Entry {
    match patch {
        Patch::Skip => file_record(name_crc32, f, was_compressed),
        Patch::Keep { offset } => file_record(
            name_crc32,
            final_exam::FileEntry {
                checksum: f.checksum,
                uncompressed_size: f.uncompressed_size,
                name_offset: f.name_offset,
                offset,
                compressed_size: f.compressed_size,
            },
            was_compressed,
        ),
        Patch::Replace { offset, compressed_size, uncompressed_size, checksum, compressed } => file_record(
            name_crc32,
            final_exam::FileEntry {
                checksum,
                uncompressed_size,
                name_offset: f.name_offset,
                offset,
                compressed_size,
            },
            compressed,
        ),
    }
}

/// The record of a file.
pub open spec fn file_record(name_crc32: u32, f: final_exam::FileEntry, compressed: bool) -> final_exam::Entry {
    final_exam::Entry {
        name_crc32,
        kind: if compressed {
            final_exam::EntryKind::FileCompressed(f)
        } else {
            final_exam::EntryKind::File(f)
        },
    }
}

/// The table once the first `n` of `patches` are applied, one after the
/// other, each to the record at its position.  A patch for a position outside
/// the table changes nothing.
pub open spec fn patched_table(table: Seq<final_exam::Entry>, patches: Seq<FilePatch>, n: nat) -> Seq<
    final_exam::Entry,
>
    decreases n,
{
    if n == 0 || n > patches.len() {
        table
    } else {
        let before = patched_table(table, patches, (n - 1) as nat);
        let p = patches[n - 1];
        if p.slot < before.len() {
            before.update(p.slot as int, patched_record(before[p.slot as int], p.patch))
        } else {
            before
        }
    }
}

/// Patching keeps the length of the table and what every record says of its
/// children.
pub proof fn lemma_patched_table(table: Seq<final_exam::Entry>, patches: Seq<FilePatch>, n: nat)
    requires
        n <= patches.len(),
    ensures
        patched_table(table, patches, n).len() == table.len(),
        final_exam::links_of(patched_table(table, patches, n)) == final_exam::links_of(table),
        final_exam::has_root_entry(table) ==> final_exam::has_root_entry(patched_table(table, patches, n)),
    decreases n,
{
    if n > 0 {
        lemma_patched_table(table, patches, (n - 1) as nat);
        let before = patched_table(table, patches, (n - 1) as nat);
        let after = patched_table(table, patches, n);
        assert(final_exam::links_of(after) =~= final_exam::links_of(before));
    }
}

/// Patching leaves directories as they are, and keeps where the name of
/// every record starts.
pub proof fn lemma_patched_dirs(
    table: Seq<final_exam::Entry>,
    patches: Seq<FilePatch>,
    n: nat,
    names: Seq<u8>,
)
    requires
        n <= patches.len(),
        final_exam::entries_wf(table),
        final_exam::name_offsets_ok(names, table),
    ensures
        final_exam::entries_wf(patched_table(table, patches, n)),
        final_exam::name_offsets_ok(names, patched_table(table, patches, n)),
    decreases n,
{
    if n > 0 {
        lemma_patched_dirs(table, patches, (n - 1) as nat, names);
        lemma_patched_table(table, patches, (n - 1) as nat);
        let before = patched_table(table, patches, (n - 1) as nat);
        let after = patched_table(table, patches, n);
        assert forall|i: int| 0 <= i < after.len() implies final_exam::entry_wf(
            #[trigger] after[i],
        ) && final_exam::name_offset_ok(names, after[i].name_offset()) by {
            assert(final_exam::entry_wf(before[i]));
            assert(after[i].name_offset() == before[i].name_offset());
        }
    }
}

/// One record, patched.
fn patch_record(entry: final_exam::Entry, patch: Patch) -> (r: final_exam::Entry)
    ensures
        r == patched_record(entry, patch),
{
    let (f, was_compressed) = match entry.kind {
        final_exam::EntryKind::Directory(_) => {
            return entry;
        },
        final_exam::EntryKind::File(f) => (f, false),
        final_exam::EntryKind::FileCompressed(f) => (f, true),
    };
    let (file, compressed) = match patch {
        Patch::Skip => (f, was_compressed),
        Patch::Keep { offset } => (
            final_exam::FileEntry {
                checksum: f.checksum,
                uncompressed_size: f.uncompressed_size,
                name_offset: f.name_offset,
                offset,
                compressed_size: f.compressed_size,
            },
            was_compressed,
        ),
        Patch::Replace { offset, compressed_size, uncompressed_size, checksum, compressed } => (
            final_exam::FileEntry {
                checksum,
                uncompressed_size,
                name_offset: f.name_offset,
                offset,
                compressed_size,
            },
            compressed,
        ),
    };
    if compressed {
        final_exam::Entry { name_crc32: entry.name_crc32, kind: final_exam::EntryKind::FileCompressed(file) }
    } else {
        final_exam::Entry { name_crc32: entry.name_crc32, kind: final_exam::EntryKind::File(file) }
    }
}

/// A copy of the table with the patches applied.
pub fn patch_table(table: &Vec<final_exam::Entry>, patches: &Vec<FilePatch>) -> (r: Vec<final_exam::Entry>)
    ensures
        r@ == patched_table(table@, patches@, patches@.len()),
{
    let mut r: Vec<final_exam::Entry> = Vec::new();
    let mut i: usize = 0;
    while i < table.len()
        invariant
            i <= table.len(),
            r@ == table@.subrange(0, i as int),
        decreases table.len() - i,
    {
        r.push(table[i]);
        assert(r@ =~= table@.subrange(0, i + 1));
        i += 1;
    }
    assert(r@ =~= table@);
    let mut k: usize = 0;
    while k < patches.len()
        invariant
            k <= patches.len(),
            r@ == patched_table(table@, patches@, k as nat),
        decreases patches.len() - k,
    {
        let p = patches[k];
        if p.slot < r.len() {
            let patched = patch_record(r[p.slot], p.patch);
            r.set(p.slot, patched);
        }
        k += 1;
    }
    r
}

} // verus!

verus! {

/// The bytes of the table of contents after a rebuild: the records are
/// patched and the header holds the CRC32 of their bytes.
pub open spec fn rebuilt_toc(archive: final_exam::HvpArchive, patches: Seq<FilePatch>) -> Seq<u8> {
    let table = patched_table(archive.entries@, patches, patches.len());
    final_exam::archive_bytes(
        final_exam::Header {
            endian: archive.header.endian,
            entries_count: archive.header.entries_count,
            entries_crc32: crc32_ieee(final_exam::entries_bytes(table, archive.header.endian)),
        },
        archive.names.bytes@,
        table,
    )
}

/// The table of contents of a rebuilt image is read back as the patched
/// table, unless the CRC32 of its records happens to be zero, which no reader
/// of this layout accepts.
pub proof fn law_rebuilt_toc_parses(
    archive: final_exam::HvpArchive,
    patches: Seq<FilePatch>,
    rest: Seq<u8>,
)
    requires
        archive.wf(),
        crc32_ieee(
            final_exam::entries_bytes(
                patched_table(archive.entries@, patches, patches.len()),
                archive.header.endian,
            ),
        ) != 0,
    ensures
        ({
            let table = patched_table(archive.entries@, patches, patches.len());
            let header = final_exam::Header {
                endian: archive.header.endian,
                entries_count: archive.header.entries_count,
                entries_crc32: crc32_ieee(final_exam::entries_bytes(table, archive.header.endian)),
            };
            final_exam::decode_archive(rebuilt_toc(archive, patches) + rest) == Ok::<
                (final_exam::Header, Seq<u8>, Seq<final_exam::Entry>),
                crate::structures::common::CodecError,
            >((header, archive.names.bytes@, table))
        }),
{
    let table = patched_table(archive.entries@, patches, patches.len());
    let header = final_exam::Header {
        endian: archive.header.endian,
        entries_count: archive.header.entries_count,
        entries_crc32: crc32_ieee(final_exam::entries_bytes(table, archive.header.endian)),
    };
    lemma_patched_table(archive.entries@, patches, patches.len());
    lemma_patched_dirs(archive.entries@, patches, patches.len(), archive.names.bytes@);
    final_exam::law_write_then_parse(header, archive.names.bytes@, table, rest);
}

/// A copy of a list of bytes.
fn copy_bytes(bytes: &Vec<u8>) -> (r: Vec<u8>)
    ensures
        r@ == bytes@,
{
    vstd::slice::slice_to_vec(bytes.as_slice())
}

/// A copy of the table of contents with its records patched and the CRC32 of
/// the records computed anew.
pub fn update_entries(archive: &final_exam::HvpArchive, patches: &Vec<FilePatch>) -> (r:
    final_exam::HvpArchive)
    ensures
        r.header.endian == archive.header.endian,
        r.names.bytes@ == archive.names.bytes@,
        r.entries@ == patched_table(archive.entries@, patches@, patches@.len()),
        r.spec_bytes() == rebuilt_toc(*archive, patches@),
{
    let entries = patch_table(&archive.entries, patches);
    let mut r = final_exam::HvpArchive {
        header: archive.header,
        names: final_exam::Names { bytes: copy_bytes(&archive.names.bytes) },
        entries,
    };
    r.update_checksums();
    r
}

} // verus!
