//! What holds of the listing and of a rebuild, whatever the archive.

use vstd::prelude::*;

use crate::archive::entry::{
    entries_file_list, entry_file_list, flat_entries, flat_entry, listed, Entry, FileEntry,
    FullFileView, UpdateKind,
};
use crate::archive::file_helpers::{flat_from, lemma_flat_from_end};
use crate::archive::error::RebuildFault;
use crate::archive::rebuild::{
    file_step, packed, padding, plan_entries, plan_entry, FilePatch, Patch,
};
use crate::archive::{rebuilt_image, toc_after, Archive};
use crate::provider::{ArchiveProvider, RawArchive};
use crate::structures::checksum::spec_bytes_sum;
use crate::utils::detected_game;
use crate::Game;

verus! {

/// The listing of the first `n` entries is the listing of those before entry
/// `i`, then that of entry `i`, then that of those behind it.
pub proof fn lemma_flat_split(entries: Seq<Entry>, i: nat, n: nat, prefix: Seq<Seq<char>>)
    requires
        i < n <= entries.len(),
    ensures
        flat_entries(entries, n, prefix) == flat_entries(entries, i, prefix) + flat_entry(
            entries[i as int],
            prefix,
        ) + flat_from(entries, i + 1, n, prefix),
    decreases n,
{
    if n == i + 1 {
        assert(flat_from(entries, i + 1, n, prefix) =~= Seq::<FullFileView>::empty());
        assert(flat_entries(entries, n, prefix) =~= flat_entries(entries, i, prefix) + flat_entry(
            entries[i as int],
            prefix,
        ) + flat_from(entries, i + 1, n, prefix));
    } else {
        lemma_flat_split(entries, i, (n - 1) as nat, prefix);
        lemma_flat_from_end(entries, i + 1, (n - 1) as nat, prefix);
        assert(flat_entries(entries, n, prefix) =~= flat_entries(entries, i, prefix) + flat_entry(
            entries[i as int],
            prefix,
        ) + flat_from(entries, i + 1, n, prefix));
    }
}

/// Path composition: a file in a directory at the top of the model is listed
/// with a path of exactly two names, that of the directory and then its own,
/// and with its own payload.
#[verifier::rlimit(50)]
pub proof fn law_path_composition(entries: Seq<Entry>, i: int, j: int)
    requires
        0 <= i < entries.len(),
        entries[i] is Dir,
        0 <= j < entries[i]->Dir_0.entries@.len(),
        entries[i]->Dir_0.entries@[j] is File,
    ensures
        ({
            let d = entries[i]->Dir_0;
            let f = d.entries@[j]->File_0;
            let listing = flat_entries(entries, entries.len(), Seq::empty());
            exists|k: int|
                0 <= k < listing.len() && (#[trigger] listing[k]).path == seq![d.name@, f.name@]
                    && listing[k].raw_bytes == f.raw_bytes@
        }),
{
    let d = entries[i]->Dir_0;
    let f = d.entries@[j]->File_0;
    let top = Seq::<Seq<char>>::empty();
    let inside = top.push(d.name@);
    let listing = flat_entries(entries, entries.len(), top);
    lemma_flat_split(entries, i as nat, entries.len(), top);
    lemma_flat_split(d.entries@, j as nat, d.entries@.len(), inside);
    let before = flat_entries(entries, i as nat, top);
    let earlier = flat_entries(d.entries@, j as nat, inside);
    let k = (before.len() + earlier.len()) as int;
    assert(flat_entry(d.entries@[j], inside) == seq![listed(f, inside)]);
    assert(flat_entry(entries[i], top)[earlier.len() as int] == listed(f, inside));
    assert(listing[k] == listed(f, inside));
    assert(inside.push(f.name@) =~= seq![d.name@, f.name@]);
}

/// Iteration count: the listing of an archive, which is what its iterator
/// gives, has as many files as the metadata counts.
pub proof fn law_iteration_count(archive: Archive)
    requires
        archive.inv(),
    ensures
        archive.listing().len() == archive.spec_metadata().file_count,
        archive.updates().len() == archive.spec_metadata().file_count,
{
    let es = archive.spec_entries();
    crate::archive::entry::lemma_flat_len(es, es.len(), Seq::empty());
    crate::archive::update::lemma_alike_same_list(es, es.len());
    crate::archive::update::lemma_alike_entries(es, es, es.len(), Seq::empty());
}

/// Listing a directory lists its files with its name put before theirs: the
/// path of every file below a directory starts with the names that lead to
/// the directory, then the name of the directory.
pub proof fn law_listing_of_directory(d: Entry, prefix: Seq<Seq<char>>)
    requires
        d is Dir,
    ensures
        flat_entry(d, prefix) == flat_entries(
            d->Dir_0.entries@,
            d->Dir_0.entries@.len(),
            prefix.push(d->Dir_0.name@),
        ),
{
}

/// Replacement fidelity: where a rebuild stores a replacement, the record of
/// the file says where the new payload starts, how long it is and how long the
/// replacement is, and holds the checksum of the payload as it is stored, in
/// the byte order of the archive.  The payload is the replacement itself where
/// compression is skipped or the old payload was not compressed, and then the
/// record says that it is not compressed; else it is what the compressor of
/// the layout makes of the replacement.
pub proof fn law_replacement(f: FileEntry, cursor: int, game: Game, skip_compression: bool)
    requires
        0 <= cursor,
        f.uncompressed_size != 0,
        f.update matches Some(UpdateKind::Bytes(_)),
        file_step(f, cursor, game, skip_compression) is Ok,
    ensures
        ({
            let replacement = f.update->Some_0->Bytes_0@;
            let (patch, written) = file_step(f, cursor, game, skip_compression)->Ok_0;
            &&& patch matches Patch::Replace {
                offset,
                compressed_size,
                uncompressed_size,
                checksum,
                compressed,
            }
            &&& offset == cursor
            &&& uncompressed_size == replacement.len()
            &&& compressed_size <= written.len()
            &&& checksum == spec_bytes_sum(written.subrange(0, compressed_size as int), f.endian)
            &&& written == written.subrange(0, compressed_size as int) + padding(
                game,
                cursor + compressed_size,
            )
            &&& compressed == !(skip_compression || f.compression_info is None)
            &&& !compressed ==> written.subrange(0, compressed_size as int) == replacement
            &&& compressed ==> packed(game, replacement) == Ok::<Seq<u8>, RebuildFault>(
                written.subrange(0, compressed_size as int),
            )
        }),
{
    let replacement = f.update->Some_0->Bytes_0@;
    let (patch, written) = file_step(f, cursor, game, skip_compression)->Ok_0;
    if skip_compression || f.compression_info is None {
        assert(written.subrange(0, replacement.len() as int) =~= replacement);
    } else {
        let stream = packed(game, replacement)->Ok_0;
        assert(written.subrange(0, stream.len() as int) =~= stream);
    }
}

/// A file without replacement keeps its payload and its record but for the
/// position: a rebuild stores the payload as it is, and the record says where.
pub proof fn law_kept_payload(f: FileEntry, cursor: int, game: Game, skip_compression: bool)
    requires
        0 <= cursor,
        f.uncompressed_size != 0,
        f.update is None,
        file_step(f, cursor, game, skip_compression) is Ok,
    ensures
        ({
            let (patch, written) = file_step(f, cursor, game, skip_compression)->Ok_0;
            &&& patch == (Patch::Keep { offset: cursor as u32 })
            &&& cursor <= u32::MAX
            &&& written == f.raw_bytes@ + padding(game, cursor + f.raw_bytes@.len())
        }),
{
}

/// An image that starts with eight zero bytes has no known signature.
pub proof fn law_zeros_are_unknown(data: Seq<u8>)
    requires
        data.len() >= 8,
        forall|i: int| 0 <= i < 8 ==> data[i] == 0,
    ensures
        detected_game(data) is None,
{
    let head = data.subrange(0, 8);
    assert(head[0] == 0 && head[1] == 0 && head[2] == 0);
    assert(crate::utils::sig_obscure1()[0] == 0x48);
    assert(crate::utils::sig_obscure2_le()[2] == 4);
    assert(crate::utils::sig_obscure2_be()[1] == 4);
    assert(crate::utils::sig_final_exam_le()[2] == 5);
    assert(crate::utils::sig_final_exam_be()[1] == 5);
}

} // verus!

verus! {

/// Patching the entries of the first layout keeps the length of their bytes.
pub proof fn lemma_patched_entry_len(
    raw: crate::structures::obscure1::Entry,
    patches: Seq<FilePatch>,
    k: int,
    endian: crate::structures::common::Endian,
)
    ensures
        crate::archive::obscure1::patched_entry_bytes(raw, patches, k, endian).0.len()
            == crate::structures::obscure1::entry_bytes(raw, endian).len(),
    decreases raw,
{
    match raw.kind {
        crate::structures::obscure1::EntryKind::File(_) => {},
        crate::structures::obscure1::EntryKind::Dir(d) => {
            lemma_patched_entries_len(d.entries@, d.entries@.len(), patches, k, endian);
        },
    }
}

/// Patching a list of entries of the first layout keeps the length of their
/// bytes.
pub proof fn lemma_patched_entries_len(
    raws: Seq<crate::structures::obscure1::Entry>,
    n: nat,
    patches: Seq<FilePatch>,
    k: int,
    endian: crate::structures::common::Endian,
)
    requires
        n <= raws.len(),
    ensures
        crate::archive::obscure1::patched_entries_bytes(raws, n, patches, k, endian).0.len()
            == crate::structures::obscure1::entries_bytes(raws, n, endian).len(),
    decreases raws, n,
{
    if n > 0 {
        lemma_patched_entries_len(raws, (n - 1) as nat, patches, k, endian);
        let before = crate::archive::obscure1::patched_entries_bytes(
            raws,
            (n - 1) as nat,
            patches,
            k,
            endian,
        );
        lemma_patched_entry_len(raws[n - 1], patches, before.1, endian);
    }
}

/// The table of contents of the first layout keeps its length in a rebuild.
proof fn lemma_toc_len_obscure1(a: crate::structures::obscure1::HvpArchive, patches: Seq<FilePatch>)
    ensures
        crate::archive::obscure1::rebuilt_toc(a, patches).len() == a.spec_bytes().len(),
{
    lemma_patched_entries_len(a.entries@, a.entries@.len(), patches, 0, a.endian);
    crate::structures::common::lemma_u32_round_trip(Seq::empty(), 0, 0, a.endian);
}

/// The table of contents of the second layout keeps its length in a rebuild.
proof fn lemma_toc_len_obscure2(a: crate::structures::obscure2::HvpArchive, patches: Seq<FilePatch>)
    ensures
        crate::archive::obscure2::rebuilt_toc(a, patches).len() == 16 + 24
            * a.spec_entries().len(),
{
    crate::archive::obscure2::lemma_patched_table(a.spec_entries(), patches, patches.len());
    let table = crate::archive::obscure2::patched_table(a.spec_entries(), patches, patches.len());
    crate::structures::obscure2::lemma_entries_bytes_len(table, a.spec_endian());
    crate::structures::common::lemma_u32_round_trip(Seq::empty(), 0, 0, a.spec_endian());
}

/// The table of contents of the third layout keeps its length in a rebuild.
proof fn lemma_toc_len_final_exam(
    a: crate::structures::final_exam::HvpArchive,
    patches: Seq<FilePatch>,
)
    ensures
        crate::archive::final_exam::rebuilt_toc(a, patches).len() == 20 + a.names.bytes@.len() + 28
            * a.entries@.len(),
{
    crate::archive::final_exam::lemma_patched_table(a.entries@, patches, patches.len());
    let table = crate::archive::final_exam::patched_table(a.entries@, patches, patches.len());
    crate::structures::final_exam::lemma_entries_bytes_len(table, a.header.endian);
    crate::structures::common::lemma_u32_round_trip(Seq::empty(), 0, 0, a.header.endian);
}

/// The table of contents keeps its length in a rebuild, whatever the patches:
/// the payloads of the rebuilt image start where those of the loaded image
/// started, which is where the records say they start.
pub proof fn law_toc_keeps_its_length(provider: ArchiveProvider, patches: Seq<FilePatch>)
    requires
        provider.inv(),
    ensures
        toc_after(provider.spec_raw_archive(), patches).len() == provider.spec_entries_offset(),
{
    reveal(RawArchive::decoded_from);
    match provider.raw_archive {
        RawArchive::Obscure1(a) => {
            lemma_toc_len_obscure1(a, patches);
        },
        RawArchive::Obscure2(a) => {
            lemma_toc_len_obscure2(a, patches);
        },
        RawArchive::FinalExam(a) => {
            lemma_toc_len_final_exam(a, patches);
        },
    }
}

} // verus!

verus! {

/// The patch `patch`, made for the file `f`, and the part `bytes` of the
/// image that starts at `cursor` fit together: unless the file is skipped, the
/// patch records a position in that part, and what a rebuild stores for the
/// file at that position is what the part holds there.
pub open spec fn placed(
    f: FileEntry,
    patch: FilePatch,
    bytes: Seq<u8>,
    cursor: int,
    game: Game,
    skip_compression: bool,
) -> bool {
    &&& patch.slot == f.slot
    &&& match patch.patch {
        Patch::Skip => f.uncompressed_size == 0,
        Patch::Keep { offset } => stored_at(f, patch.patch, offset, bytes, cursor, game, skip_compression),
        Patch::Replace { offset, .. } => stored_at(
            f,
            patch.patch,
            offset,
            bytes,
            cursor,
            game,
            skip_compression,
        ),
    }
}

/// What a rebuild does for `f` at the position `offset` is to make the patch
/// `patch` and to store what `bytes`, which starts at `cursor`, holds there.
pub open spec fn stored_at(
    f: FileEntry,
    patch: Patch,
    offset: u32,
    bytes: Seq<u8>,
    cursor: int,
    game: Game,
    skip_compression: bool,
) -> bool {
    &&& file_step(f, offset as int, game, skip_compression) matches Ok((p, written))
    &&& p == patch
    &&& cursor <= offset
    &&& offset + written.len() <= cursor + bytes.len()
    &&& bytes.subrange(offset - cursor, offset - cursor + written.len()) == written
}

/// Being placed in a part of the image carries over to a longer part that
/// starts earlier.
proof fn lemma_placed_within(
    f: FileEntry,
    patch: FilePatch,
    before: Seq<u8>,
    bytes: Seq<u8>,
    after: Seq<u8>,
    cursor: int,
    game: Game,
    skip_compression: bool,
)
    requires
        placed(f, patch, bytes, cursor + before.len(), game, skip_compression),
    ensures
        placed(f, patch, before + bytes + after, cursor, game, skip_compression),
{
    let whole = before + bytes + after;
    match patch.patch {
        Patch::Skip => {},
        Patch::Keep { offset } => {
            let written = file_step(f, offset as int, game, skip_compression)->Ok_0.1;
            let at = offset - cursor - before.len();
            assert(whole.subrange(offset - cursor, offset - cursor + written.len())
                =~= bytes.subrange(at, at + written.len()));
        },
        Patch::Replace { offset, .. } => {
            let written = file_step(f, offset as int, game, skip_compression)->Ok_0.1;
            let at = offset - cursor - before.len();
            assert(whole.subrange(offset - cursor, offset - cursor + written.len())
                =~= bytes.subrange(at, at + written.len()));
        },
    }
}

/// Placement below an entry: see `law_placement`.
proof fn lemma_placement_entry(entry: Entry, cursor: int, game: Game, skip: bool, j: int)
    requires
        0 <= cursor,
        plan_entry(entry, cursor, game, skip) is Ok,
        0 <= j < entry_file_list(entry).len(),
    ensures
        ({
            let (patches, bytes) = plan_entry(entry, cursor, game, skip)->Ok_0;
            &&& patches.len() == entry_file_list(entry).len()
            &&& placed(entry_file_list(entry)[j], patches[j], bytes, cursor, game, skip)
        }),
    decreases entry, 0nat,
{
    lemma_plan_len_entry(entry, cursor, game, skip);
    match entry {
        Entry::File(f) => {
            let (patch, written) = file_step(f, cursor, game, skip)->Ok_0;
            assert(written.subrange(0, written.len() as int) =~= written);
        },
        Entry::Dir(d) => {
            lemma_placement_entries(d.entries@, d.entries@.len(), cursor, game, skip, j);
        },
    }
}

/// A plan has a patch for every file.
proof fn lemma_plan_len_entry(entry: Entry, cursor: int, game: Game, skip: bool)
    requires
        plan_entry(entry, cursor, game, skip) is Ok,
    ensures
        plan_entry(entry, cursor, game, skip)->Ok_0.0.len() == entry_file_list(entry).len(),
    decreases entry, 0nat,
{
    match entry {
        Entry::File(_) => {},
        Entry::Dir(d) => {
            lemma_plan_len_entries(d.entries@, d.entries@.len(), cursor, game, skip);
        },
    }
}

/// A plan has a patch for every file.
pub proof fn lemma_plan_len_entries(entries: Seq<Entry>, n: nat, cursor: int, game: Game, skip: bool)
    requires
        n <= entries.len(),
        plan_entries(entries, n, cursor, game, skip) is Ok,
    ensures
        plan_entries(entries, n, cursor, game, skip)->Ok_0.0.len() == entries_file_list(
            entries,
            n,
        ).len(),
    decreases entries, n,
{
    if n > 0 {
        lemma_plan_len_entries(entries, (n - 1) as nat, cursor, game, skip);
        let first = plan_entries(entries, (n - 1) as nat, cursor, game, skip)->Ok_0;
        lemma_plan_len_entry(entries[n - 1], cursor + first.1.len(), game, skip);
    }
}

/// Placement below a list of entries: see `law_placement`.
#[verifier::rlimit(50)]
proof fn lemma_placement_entries(
    entries: Seq<Entry>,
    n: nat,
    cursor: int,
    game: Game,
    skip: bool,
    j: int,
)
    requires
        n <= entries.len(),
        0 <= cursor,
        plan_entries(entries, n, cursor, game, skip) is Ok,
        0 <= j < entries_file_list(entries, n).len(),
    ensures
        ({
            let (patches, bytes) = plan_entries(entries, n, cursor, game, skip)->Ok_0;
            &&& patches.len() == entries_file_list(entries, n).len()
            &&& placed(entries_file_list(entries, n)[j], patches[j], bytes, cursor, game, skip)
        }),
    decreases entries, n,
{
    lemma_plan_len_entries(entries, n, cursor, game, skip);
    if n > 0 {
        let m = (n - 1) as nat;
        let first = plan_entries(entries, m, cursor, game, skip)->Ok_0;
        let mid = cursor + first.1.len();
        let last = plan_entry(entries[n - 1], mid, game, skip)->Ok_0;
        let files = entries_file_list(entries, m);
        lemma_plan_len_entries(entries, m, cursor, game, skip);
        lemma_plan_len_entry(entries[n - 1], mid, game, skip);
        let none = Seq::<u8>::empty();
        if j < files.len() {
            lemma_placement_entries(entries, m, cursor, game, skip, j);
            lemma_placed_within(files[j], first.0[j], none, first.1, last.1, cursor, game, skip);
            assert(none + first.1 + last.1 =~= first.1 + last.1);
        } else {
            let k = j - files.len();
            lemma_placement_entry(entries[n - 1], mid, game, skip, k);
            let f = entry_file_list(entries[n - 1])[k];
            lemma_placed_within(f, last.0[k], first.1, last.1, none, cursor, game, skip);
            assert(first.1 + last.1 + none =~= first.1 + last.1);
        }
    }
}

/// Placement: in the plan of a rebuild, every file of the listing has its
/// patch, at the position of its record where the table is flat, and unless
/// the file has no payload, the patch records the position at which the bytes
/// that the rebuild stores for the file stand in the image.  `law_replacement`
/// and `law_kept_payload` say what those bytes are.
pub proof fn law_placement(
    entries: Seq<Entry>,
    cursor: int,
    game: Game,
    skip_compression: bool,
    j: int,
)
    requires
        0 <= cursor,
        plan_entries(entries, entries.len(), cursor, game, skip_compression) is Ok,
        0 <= j < entries_file_list(entries, entries.len()).len(),
    ensures
        ({
            let (patches, bytes) = plan_entries(
                entries,
                entries.len(),
                cursor,
                game,
                skip_compression,
            )->Ok_0;
            &&& patches.len() == entries_file_list(entries, entries.len()).len()
            &&& placed(
                entries_file_list(entries, entries.len())[j],
                patches[j],
                bytes,
                cursor,
                game,
                skip_compression,
            )
        }),
{
    lemma_placement_entries(entries, entries.len(), cursor, game, skip_compression, j);
}

} // verus!

verus! {

/// Replacement fidelity in the image: in the image that a rebuild appends to
/// a sink that holds `at` bytes, the payload of a file with a replacement
/// stands behind the table of contents at the position that the patch for the
/// file records, counted from the start of the sink; it is as long as the
/// patch says; its checksum, in the byte order of the archive, is the one of
/// the patch; and it is the replacement itself, or what the compressor of the
/// layout makes of it where the replacement is stored compressed.
#[verifier::rlimit(50)]
pub proof fn law_replacement_in_image(archive: Archive, at: int, j: int)
    requires
        archive.inv(),
        0 <= at,
        rebuilt_image(
            archive.spec_provider().spec_raw_archive(),
            archive.spec_provider().spec_entries_offset(),
            archive.spec_entries(),
            archive.spec_skip_compression(),
            at,
        ) is Ok,
        0 <= j < entries_file_list(archive.spec_entries(), archive.spec_entries().len()).len(),
        entries_file_list(archive.spec_entries(), archive.spec_entries().len())[j].uncompressed_size
            != 0,
        entries_file_list(archive.spec_entries(), archive.spec_entries().len())[j].update matches Some(
            UpdateKind::Bytes(_),
        ),
    ensures
        ({
            let raw = archive.spec_provider().spec_raw_archive();
            let game = raw.spec_game();
            let off = archive.spec_provider().spec_entries_offset();
            let es = archive.spec_entries();
            let skip = archive.spec_skip_compression();
            let image = rebuilt_image(raw, off, es, skip, at)->Ok_0;
            let first = at + off + padding(game, at + off).len();
            let f = entries_file_list(es, es.len())[j];
            let replacement = f.update->Some_0->Bytes_0@;
            let patches = plan_entries(es, es.len(), first, game, skip)->Ok_0.0;
            &&& j < patches.len()
            &&& patches[j].patch matches Patch::Replace {
                offset,
                compressed_size,
                uncompressed_size,
                checksum,
                compressed,
            }
            &&& at + off <= offset
            &&& offset - at + compressed_size <= image.len()
            &&& uncompressed_size == replacement.len()
            &&& checksum == spec_bytes_sum(
                image.subrange(offset - at, offset - at + compressed_size),
                f.endian,
            )
            &&& compressed == !(skip || f.compression_info is None)
            &&& !compressed ==> image.subrange(offset - at, offset - at + compressed_size)
                == replacement
            &&& compressed ==> packed(game, replacement) == Ok::<Seq<u8>, RebuildFault>(
                image.subrange(offset - at, offset - at + compressed_size),
            )
        }),
{
    let raw = archive.spec_provider().spec_raw_archive();
    let game = raw.spec_game();
    let off = archive.spec_provider().spec_entries_offset();
    let es = archive.spec_entries();
    let skip = archive.spec_skip_compression();
    let image = rebuilt_image(raw, off, es, skip, at)->Ok_0;
    let lead = padding(game, at + off);
    let first = at + off + lead.len();
    let f = entries_file_list(es, es.len())[j];
    let plan = plan_entries(es, es.len(), first, game, skip)->Ok_0;
    let toc = toc_after(raw, plan.0);
    law_placement(es, first, game, skip, j);
    law_toc_keeps_its_length(archive.spec_provider(), plan.0);
    let offset = plan.0[j].patch->Replace_offset;
    law_replacement(f, offset as int, game, skip);
    let written = file_step(f, offset as int, game, skip)->Ok_0.1;
    let size = plan.0[j].patch->Replace_compressed_size;
    assert(image == toc + lead + plan.1);
    assert(image.subrange(offset - at, offset - at + written.len()) =~= plan.1.subrange(
        offset - first,
        offset - first + written.len(),
    ));
    assert(image.subrange(offset - at, offset - at + size) =~= written.subrange(0, size as int));
}

} // verus!
