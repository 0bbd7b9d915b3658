//! The first layout in the archive model: the tree of the table of contents
//! is the tree of the model.

use vstd::prelude::*;

use crate::archive::entry::{
    entries_dirs, entries_files, entries_untouched, entry_dirs, entry_files, entry_untouched,
    lemma_entries_prefix, payload_of, CompressionInfo, CompressionType, DirEntry, Entry,
    FileEntry,
};
use crate::archive::rebuild::{FilePatch, Patch};
use crate::archive::Metadata;
use crate::provider::ArchiveProvider;
use crate::structures::common::{crc32_ieee, i32_bytes, string_bytes, u32_bytes, Endian};
use crate::structures::obscure1;
use crate::Game;

verus! {

/// The file `f` of the model is the file `raw` of the table of contents of an
/// archive with the given byte order and image.
pub open spec fn file_mirrors(raw: obscure1::FileEntry, f: FileEntry, endian: Endian, image: Seq<u8>) -> bool {
    &&& f.name@ == raw.name@
    &&& f.compression_info == if raw.is_compressed != 0 {
        Some(
            CompressionInfo {
                uncompressed_size: raw.uncompressed_size,
                compression_type: CompressionType::Zlib,
            },
        )
    } else {
        None
    }
    &&& f.checksum == raw.checksum
    &&& f.endian == endian
    &&& f.uncompressed_size == raw.uncompressed_size
    &&& f.raw_bytes@ == payload_of(image, raw.uncompressed_size, raw.offset, raw.compressed_size)
}

/// The entry `e` of the model is the entry `raw` of the table of contents,
/// with everything below it.
pub open spec fn entry_mirrors(raw: obscure1::Entry, e: Entry, endian: Endian, image: Seq<u8>) -> bool
    decreases raw,
{
    match raw.kind {
        obscure1::EntryKind::File(rf) => e matches Entry::File(f) && file_mirrors(
            rf,
            f,
            endian,
            image,
        ),
        obscure1::EntryKind::Dir(rd) => e matches Entry::Dir(d) && d.name@ == rd.name@
            && d.entries@.len() == rd.entries@.len() && entries_mirror(
            rd.entries@,
            d.entries@,
            rd.entries@.len(),
            endian,
            image,
        ),
    }
}

/// The first `n` entries of the model are the first `n` of the table of
/// contents.
pub open spec fn entries_mirror(
    raws: Seq<obscure1::Entry>,
    es: Seq<Entry>,
    n: nat,
    endian: Endian,
    image: Seq<u8>,
) -> bool
    decreases raws, n,
{
    if n == 0 || n > raws.len() || n > es.len() {
        n == 0
    } else {
        entries_mirror(raws, es, (n - 1) as nat, endian, image) && entry_mirrors(
            raws[n - 1],
            es[n - 1],
            endian,
            image,
        )
    }
}

/// Whether the first `n` model entries mirror the table does not depend on
/// what follows them.
pub proof fn lemma_mirror_prefix(
    raws: Seq<obscure1::Entry>,
    a: Seq<Entry>,
    b: Seq<Entry>,
    n: nat,
    endian: Endian,
    image: Seq<u8>,
)
    requires
        n <= a.len(),
        n <= b.len(),
        forall|i: int| 0 <= i < n ==> a[i] == b[i],
    ensures
        entries_mirror(raws, a, n, endian, image) == entries_mirror(raws, b, n, endian, image),
    decreases n,
{
    if n > 0 {
        lemma_mirror_prefix(raws, a, b, (n - 1) as nat, endian, image);
    }
}

/// A mirrored tree has as many files and directories together as the table
/// has entries.
pub proof fn lemma_mirror_counts(raw: obscure1::Entry, e: Entry, endian: Endian, image: Seq<u8>)
    requires
        entry_mirrors(raw, e, endian, image),
    ensures
        entry_files(e) + entry_dirs(e) == obscure1::entry_nodes(raw),
    decreases raw,
{
    match raw.kind {
        obscure1::EntryKind::File(_) => {},
        obscure1::EntryKind::Dir(rd) => {
            lemma_mirrors_counts(rd.entries@, e->Dir_0.entries@, rd.entries@.len(), endian, image);
        },
    }
}

/// Mirrored lists of trees have as many files and directories together as the
/// table has entries.
pub proof fn lemma_mirrors_counts(
    raws: Seq<obscure1::Entry>,
    es: Seq<Entry>,
    n: nat,
    endian: Endian,
    image: Seq<u8>,
)
    requires
        n <= raws.len(),
        n <= es.len(),
        entries_mirror(raws, es, n, endian, image),
    ensures
        entries_files(es, n) + entries_dirs(es, n) == obscure1::entries_nodes(raws, n),
    decreases raws, n,
{
    if n > 0 {
        lemma_mirrors_counts(raws, es, (n - 1) as nat, endian, image);
        lemma_mirror_counts(raws[n - 1], es[n - 1], endian, image);
    }
}

/// Maps one file of the table of contents.
fn process_file<'p>(provider: &'p ArchiveProvider, entry: &obscure1::FileEntry, endian: Endian) -> (f:
    FileEntry<'p>)
    requires
        obscure1::payload_fits(
            entry.uncompressed_size,
            entry.offset,
            entry.compressed_size,
            provider.image().len() as int,
        ),
    ensures
        file_mirrors(*entry, f, endian, provider.image()),
        f.update is None,
        f.slot == 0,
{
    let raw_bytes = if entry.uncompressed_size == 0 {
        provider.get_empty_bytes()
    } else {
        provider.get_bytes(entry.offset as usize, entry.compressed_size as usize)
    };
    FileEntry {
        name: entry.name.clone(),
        compression_info: if entry.is_compressed != 0 {
            Some(
                CompressionInfo {
                    uncompressed_size: entry.uncompressed_size,
                    compression_type: CompressionType::Zlib,
                },
            )
        } else {
            None
        },
        checksum: entry.checksum,
        endian,
        uncompressed_size: entry.uncompressed_size,
        slot: 0,
        raw_bytes,
        update: None,
    }
}

/// Maps one entry of the table of contents with everything below it, and
/// counts its files and directories.
fn process_entry<'p>(
    provider: &'p ArchiveProvider,
    entry: &obscure1::Entry,
    endian: Endian,
    metadata: &mut Metadata,
) -> (e: Entry<'p>)
    requires
        obscure1::entry_fits(*entry, provider.image().len() as int),
        old(metadata).file_count + old(metadata).dir_count + obscure1::entry_nodes(*entry)
            <= usize::MAX,
    ensures
        entry_mirrors(*entry, e, endian, provider.image()),
        entry_untouched(e),
        final(metadata).game == old(metadata).game,
        final(metadata).file_count == old(metadata).file_count + entry_files(e),
        final(metadata).dir_count == old(metadata).dir_count + entry_dirs(e),
    decreases *entry,
{
    match &entry.kind {
        obscure1::EntryKind::File(file) => {
            let f = process_file(provider, file, endian);
            metadata.file_count = metadata.file_count + 1;
            Entry::File(f)
        },
        obscure1::EntryKind::Dir(dir) => {
            metadata.dir_count = metadata.dir_count + 1;
            let entries = process_entries(provider, &dir.entries, endian, metadata);
            Entry::Dir(DirEntry { name: dir.name.clone(), entries })
        },
    }
}

/// Maps a list of entries of the table of contents with everything below
/// them, and counts their files and directories.
#[verifier::rlimit(50)]
fn process_entries<'p>(
    provider: &'p ArchiveProvider,
    entries: &Vec<obscure1::Entry>,
    endian: Endian,
    metadata: &mut Metadata,
) -> (es: Vec<Entry<'p>>)
    requires
        obscure1::entries_fit(entries@, entries@.len(), provider.image().len() as int),
        old(metadata).file_count + old(metadata).dir_count + obscure1::entries_nodes(
            entries@,
            entries@.len(),
        ) <= usize::MAX,
    ensures
        es@.len() == entries@.len(),
        entries_mirror(entries@, es@, entries@.len(), endian, provider.image()),
        entries_untouched(es@, es@.len()),
        final(metadata).game == old(metadata).game,
        final(metadata).file_count == old(metadata).file_count + entries_files(es@, es@.len()),
        final(metadata).dir_count == old(metadata).dir_count + entries_dirs(es@, es@.len()),
    decreases *entries,
{
    let mut es: Vec<Entry<'p>> = Vec::new();
    let mut i: usize = 0;
    while i < entries.len()
        invariant
            i <= entries.len(),
            es@.len() == i,
            obscure1::entries_fit(entries@, entries@.len(), provider.image().len() as int),
            old(metadata).file_count + old(metadata).dir_count + obscure1::entries_nodes(
                entries@,
                entries@.len(),
            ) <= usize::MAX,
            entries_mirror(entries@, es@, i as nat, endian, provider.image()),
            entries_untouched(es@, i as nat),
            metadata.game == old(metadata).game,
            metadata.file_count == old(metadata).file_count + entries_files(es@, i as nat),
            metadata.dir_count == old(metadata).dir_count + entries_dirs(es@, i as nat),
        decreases entries.len() - i,
    {
        proof {
            vstd::std_specs::vec::axiom_vec_index_decreases(*entries, i as int);
            crate::provider::lemma_entries_fit_at(
                entries@,
                entries@.len(),
                i as int,
                provider.image().len() as int,
            );
            lemma_mirrors_counts(entries@, es@, i as nat, endian, provider.image());
            lemma_nodes_grow(entries@, (i + 1) as nat, entries@.len());
        }
        let e = process_entry(provider, &entries[i], endian, metadata);
        let ghost before = es@;
        es.push(e);
        proof {
            lemma_entries_prefix(before, es@, i as nat, Seq::empty());
            lemma_mirror_prefix(entries@, before, es@, i as nat, endian, provider.image());
        }
        i += 1;
    }
    es
}

/// The first entries of a list have no more nodes than the whole list.
pub proof fn lemma_nodes_grow(raws: Seq<obscure1::Entry>, k: nat, n: nat)
    requires
        k <= n <= raws.len(),
    ensures
        obscure1::entries_nodes(raws, k) <= obscure1::entries_nodes(raws, n),
    decreases n - k,
{
    if k < n {
        lemma_nodes_grow(raws, k, (n - 1) as nat);
    }
}

/// Builds the model of an archive of the first layout from the entries at the
/// top of its table of contents, and counts its files and directories.
pub fn map_entries<'p>(
    provider: &'p ArchiveProvider,
    entries: &Vec<obscure1::Entry>,
    endian: Endian,
) -> (r: (Vec<Entry<'p>>, Metadata))
    requires
        obscure1::entries_fit(entries@, entries@.len(), provider.image().len() as int),
        obscure1::entries_nodes(entries@, entries@.len()) <= usize::MAX,
    ensures
        r.0@.len() == entries@.len(),
        entries_mirror(entries@, r.0@, entries@.len(), endian, provider.image()),
        entries_untouched(r.0@, r.0@.len()),
        r.1 == (Metadata {
            dir_count: entries_dirs(r.0@, r.0@.len()) as usize,
            file_count: entries_files(r.0@, r.0@.len()) as usize,
            game: Game::Obscure1,
        }),
        entries_dirs(r.0@, r.0@.len()) + entries_files(r.0@, r.0@.len()) <= usize::MAX,
{
    let mut metadata = Metadata { dir_count: 0, file_count: 0, game: Game::Obscure1 };
    let es = process_entries(provider, entries, endian, &mut metadata);
    proof {
        lemma_mirrors_counts(entries@, es@, entries@.len(), endian, provider.image());
    }
    (es, metadata)
}

} // verus!

verus! {

/// The patch for the file that is number `k` of the listing: none where the
/// list of patches is shorter.
pub open spec fn patch_at(patches: Seq<FilePatch>, k: int) -> Patch {
    if 0 <= k < patches.len() {
        patches[k].patch
    } else {
        Patch::Skip
    }
}

/// What the table of contents says of a file once it is patched.  A payload
/// that is stored compressed leaves the stored flag as it was.
pub open spec fn patched_file(raw: obscure1::FileEntry, patch: Patch) -> obscure1::FileEntry {
    match patch {
        Patch::Skip => raw,
        Patch::Keep { offset } => obscure1::FileEntry {
            is_compressed: raw.is_compressed,
            compressed_size: raw.compressed_size,
            uncompressed_size: raw.uncompressed_size,
            checksum: raw.checksum,
            offset,
            name: raw.name,
        },
        Patch::Replace { offset, compressed_size, uncompressed_size, checksum, compressed } => obscure1::FileEntry {
            is_compressed: if compressed {
                raw.is_compressed
            } else {
                0
            },
            compressed_size,
            uncompressed_size,
            checksum,
            offset,
            name: raw.name,
        },
    }
}

/// The bytes of a file entry.
pub open spec fn file_entry_bytes(entry_size: u32, f: obscure1::FileEntry, endian: Endian) -> Seq<u8> {
    u32_bytes(entry_size, endian) + (seq![1u8] + u32_bytes(f.is_compressed, endian) + u32_bytes(
        f.compressed_size,
        endian,
    ) + u32_bytes(f.uncompressed_size, endian) + i32_bytes(f.checksum, endian) + u32_bytes(
        f.offset,
        endian,
    ) + string_bytes(f.name@, endian))
}

/// The bytes of `raw` and of everything below it once its files are patched,
/// the first of them with patch number `k`; and the number of the patch for
/// the file that follows.
pub open spec fn patched_entry_bytes(
    raw: obscure1::Entry,
    patches: Seq<FilePatch>,
    k: int,
    endian: Endian,
) -> (Seq<u8>, int)
    decreases raw,
{
    match raw.kind {
        obscure1::EntryKind::File(f) => (
            file_entry_bytes(raw.entry_size, patched_file(f, patch_at(patches, k)), endian),
            k + 1,
        ),
        obscure1::EntryKind::Dir(d) => {
            let below = patched_entries_bytes(d.entries@, d.entries@.len(), patches, k, endian);
            (
                u32_bytes(raw.entry_size, endian) + (seq![0u8] + u32_bytes(0, endian) + u32_bytes(
                    d.entries@.len() as u32,
                    endian,
                ) + string_bytes(d.name@, endian) + below.0),
                below.1,
            )
        },
    }
}

/// The bytes of the first `n` of `raws` and of everything below them once
/// their files are patched.
pub open spec fn patched_entries_bytes(
    raws: Seq<obscure1::Entry>,
    n: nat,
    patches: Seq<FilePatch>,
    k: int,
    endian: Endian,
) -> (Seq<u8>, int)
    decreases raws, n,
{
    if n == 0 || n > raws.len() {
        (Seq::empty(), k)
    } else {
        let before = patched_entries_bytes(raws, (n - 1) as nat, patches, k, endian);
        let last = patched_entry_bytes(raws[n - 1], patches, before.1, endian);
        (before.0 + last.0, last.1)
    }
}

/// A file of the table of contents, patched.
fn patch_file(raw: &obscure1::FileEntry, patch: Patch) -> (f: obscure1::FileEntry)
    ensures
        f.is_compressed == patched_file(*raw, patch).is_compressed,
        f.compressed_size == patched_file(*raw, patch).compressed_size,
        f.uncompressed_size == patched_file(*raw, patch).uncompressed_size,
        f.checksum == patched_file(*raw, patch).checksum,
        f.offset == patched_file(*raw, patch).offset,
        f.name@ == raw.name@,
{
    let name = raw.name.clone();
    match patch {
        Patch::Skip => obscure1::FileEntry {
            is_compressed: raw.is_compressed,
            compressed_size: raw.compressed_size,
            uncompressed_size: raw.uncompressed_size,
            checksum: raw.checksum,
            offset: raw.offset,
            name,
        },
        Patch::Keep { offset } => obscure1::FileEntry {
            is_compressed: raw.is_compressed,
            compressed_size: raw.compressed_size,
            uncompressed_size: raw.uncompressed_size,
            checksum: raw.checksum,
            offset,
            name,
        },
        Patch::Replace { offset, compressed_size, uncompressed_size, checksum, compressed } => obscure1::FileEntry {
            is_compressed: if compressed {
                raw.is_compressed
            } else {
                0
            },
            compressed_size,
            uncompressed_size,
            checksum,
            offset,
            name,
        },
    }
}

/// A copy of `raw` and of everything below it with its files patched, the
/// first of them with patch number `k`; and the number of the patch for the
/// file that follows.
fn patch_entry(raw: &obscure1::Entry, patches: &Vec<FilePatch>, k: usize, endian: Ghost<Endian>) -> (r:
    (obscure1::Entry, usize))
    requires
        obscure1::entry_wf(*raw),
        k + obscure1::entry_nodes(*raw) <= usize::MAX,
    ensures
        obscure1::entry_wf(r.0),
        obscure1::entry_nodes(r.0) == obscure1::entry_nodes(*raw),
        obscure1::entry_bytes(r.0, endian@) == patched_entry_bytes(*raw, patches@, k as int, endian@).0,
        r.1 == patched_entry_bytes(*raw, patches@, k as int, endian@).1,
        k <= r.1 <= k + obscure1::entry_nodes(*raw),
    decreases *raw,
{
    match &raw.kind {
        obscure1::EntryKind::File(f) => {
            let patch = if k < patches.len() {
                patches[k].patch
            } else {
                Patch::Skip
            };
            let file = patch_file(f, patch);
            (obscure1::Entry { entry_size: raw.entry_size, kind: obscure1::EntryKind::File(file) }, k + 1)
        },
        obscure1::EntryKind::Dir(d) => {
            let (entries, next) = patch_entries(&d.entries, patches, k, endian);
            (
                obscure1::Entry {
                    entry_size: raw.entry_size,
                    kind: obscure1::EntryKind::Dir(
                        obscure1::DirEntry { name: d.name.clone(), entries },
                    ),
                },
                next,
            )
        },
    }
}

/// Copies of `raws` and of everything below them with their files patched.
#[verifier::rlimit(50)]
fn patch_entries(
    raws: &Vec<obscure1::Entry>,
    patches: &Vec<FilePatch>,
    k: usize,
    endian: Ghost<Endian>,
) -> (r: (Vec<obscure1::Entry>, usize))
    requires
        obscure1::entries_wf(raws@, raws@.len()),
        k + obscure1::entries_nodes(raws@, raws@.len()) <= usize::MAX,
    ensures
        r.0@.len() == raws@.len(),
        obscure1::entries_wf(r.0@, r.0@.len()),
        obscure1::entries_nodes(r.0@, r.0@.len()) == obscure1::entries_nodes(raws@, raws@.len()),
        obscure1::entries_bytes(r.0@, r.0@.len(), endian@) == patched_entries_bytes(
            raws@,
            raws@.len(),
            patches@,
            k as int,
            endian@,
        ).0,
        r.1 == patched_entries_bytes(raws@, raws@.len(), patches@, k as int, endian@).1,
        k <= r.1 <= k + obscure1::entries_nodes(raws@, raws@.len()),
    decreases *raws,
{
    let mut out: Vec<obscure1::Entry> = Vec::new();
    let mut next: usize = k;
    let mut i: usize = 0;
    while i < raws.len()
        invariant
            i <= raws.len(),
            out@.len() == i,
            obscure1::entries_wf(raws@, raws@.len()),
            k + obscure1::entries_nodes(raws@, raws@.len()) <= usize::MAX,
            obscure1::entries_wf(out@, i as nat),
            obscure1::entries_nodes(out@, i as nat) == obscure1::entries_nodes(raws@, i as nat),
            obscure1::entries_bytes(out@, i as nat, endian@) == patched_entries_bytes(
                raws@,
                i as nat,
                patches@,
                k as int,
                endian@,
            ).0,
            next == patched_entries_bytes(raws@, i as nat, patches@, k as int, endian@).1,
            k <= next <= k + obscure1::entries_nodes(raws@, i as nat),
        decreases raws.len() - i,
    {
        proof {
            vstd::std_specs::vec::axiom_vec_index_decreases(*raws, i as int);
            obscure1::lemma_entries_wf_at(raws@, raws@.len(), i as int);
            lemma_nodes_grow(raws@, (i + 1) as nat, raws@.len());
        }
        let (entry, after) = patch_entry(&raws[i], patches, next, endian);
        let ghost before = out@;
        out.push(entry);
        proof {
            obscure1::lemma_entries_prefix(before, out@, i as nat, endian@, 0);
        }
        next = after;
        i += 1;
    }
    (out, next)
}

/// The bytes of the entries of the table of contents once the files are
/// patched in the order of the listing.
pub open spec fn patched_tree_bytes(raws: Seq<obscure1::Entry>, patches: Seq<FilePatch>, endian: Endian) -> Seq<
    u8,
> {
    patched_entries_bytes(raws, raws.len(), patches, 0, endian).0
}

/// The bytes of the table of contents after a rebuild: the header, the pair
/// of CRC32s computed anew where the archive has it, and the patched entries.
pub open spec fn rebuilt_toc(archive: obscure1::HvpArchive, patches: Seq<FilePatch>) -> Seq<u8> {
    let tree = patched_tree_bytes(archive.entries@, patches, archive.endian);
    archive.header.spec_bytes(archive.endian) + obscure1::checksums_bytes(
        match archive.checksums {
            Some(_) => Some(
                obscure1::Crc32 {
                    header: crc32_ieee(archive.header.spec_bytes(archive.endian)),
                    entries: crc32_ieee(tree),
                },
            ),
            None => None,
        },
        archive.endian,
    ) + tree
}

/// A copy of the table of contents with its files patched in the order of
/// the listing and its CRC32s computed anew.
pub fn update_entries(archive: &obscure1::HvpArchive, patches: &Vec<FilePatch>) -> (r:
    obscure1::HvpArchive)
    requires
        archive.wf(),
    ensures
        r.wf(),
        r.endian == archive.endian,
        r.spec_bytes() == rebuilt_toc(*archive, patches@),
{
    let (entries, _) = patch_entries(&archive.entries, patches, 0, Ghost(archive.endian));
    let mut r = obscure1::HvpArchive {
        endian: archive.endian,
        header: archive.header,
        checksums: archive.checksums,
        entries,
    };
    r.update_checksums();
    r
}

} // verus!

verus! {

/// A model that mirrors the table of contents still does once its files got
/// other replacements.
pub proof fn lemma_alike_mirror(
    raw: obscure1::Entry,
    a: Entry,
    b: Entry,
    endian: Endian,
    image: Seq<u8>,
)
    requires
        entry_mirrors(raw, a, endian, image),
        crate::archive::update::entry_alike(a, b),
    ensures
        entry_mirrors(raw, b, endian, image),
    decreases raw,
{
    match raw.kind {
        obscure1::EntryKind::File(_) => {},
        obscure1::EntryKind::Dir(rd) => {
            lemma_alike_mirrors(
                rd.entries@,
                a->Dir_0.entries@,
                b->Dir_0.entries@,
                rd.entries@.len(),
                endian,
                image,
            );
        },
    }
}

/// A list of the model that mirrors the table of contents still does once
/// its files got other replacements.
pub proof fn lemma_alike_mirrors(
    raws: Seq<obscure1::Entry>,
    a: Seq<Entry>,
    b: Seq<Entry>,
    n: nat,
    endian: Endian,
    image: Seq<u8>,
)
    requires
        n <= raws.len(),
        n <= a.len(),
        n <= b.len(),
        entries_mirror(raws, a, n, endian, image),
        crate::archive::update::entries_alike(a, b, n),
    ensures
        entries_mirror(raws, b, n, endian, image),
    decreases raws, n,
{
    if n > 0 {
        lemma_alike_mirrors(raws, a, b, (n - 1) as nat, endian, image);
        lemma_alike_mirror(raws[n - 1], a[n - 1], b[n - 1], endian, image);
    }
}

} // verus!
