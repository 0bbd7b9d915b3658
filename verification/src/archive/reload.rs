//! A rebuilt image, loaded again: it can be loaded (`law_rebuilt_image_loads`),
//! the archive that is loaded lists what the archive listed that was rebuilt
//! (`law_rebuilt_image_lists_alike`), and its files hold what the rebuild
//! stored for them (`law_rebuilt_image_reads_back`).
//!
//! What a file that is stored compressed decompresses to is up to the codec:
//! the laws say which bytes are stored, and `content_of` says what reading
//! them gives.

use vstd::prelude::*;

use crate::archive::entry::{
    entries_dirs, entries_file_list, entries_files, entry_dirs, entry_file_list, entry_files,
    flat_entries, flat_entry, payload_of, CompressionInfo, CompressionType, Entry, FileEntry,
    FullFileView, UpdateKind,
};
use crate::archive::error::RebuildFault;
use crate::archive::flat::{file_mirrors, node_fits, node_mirrors, nodes_fit, range_mirrors, FlatView};
use crate::archive::laws::{
    law_kept_payload, law_placement, law_replacement_in_image, law_toc_keeps_its_length,
};
use crate::archive::nested_reload::{
    lemma_patched_twins, lemma_twins_file, lemma_twins_models, patched_twins, stored_of_file,
};
use crate::archive::rebuild::{file_step, packed, padding, plan_entries, FilePatch, Patch};
use crate::archive::{rebuilt_image, Archive};
use crate::provider::{load_error, RawArchive};
use crate::structures::common::{lemma_split_at, Endian};
use crate::structures::obscure1;
use crate::structures::obscure1::payload_fits;
use crate::Game;

verus! {

/// The paths of a listing, in its order.
pub open spec fn paths(listing: Seq<FullFileView>) -> Seq<Seq<Seq<char>>> {
    Seq::new(listing.len(), |j: int| listing[j].path)
}

/// The positions of the records of a list of files, in its order.
pub open spec fn slots(files: Seq<FileEntry>) -> Seq<usize> {
    Seq::new(files.len(), |j: int| files[j].slot)
}

/// Two flat tables give every record the same name and the same children.
pub open spec fn same_shape(a: Seq<FlatView>, b: Seq<FlatView>) -> bool {
    &&& a.len() == b.len()
    &&& forall|i: int|
        0 <= i < a.len() ==> (#[trigger] a[i]).name == b[i].name && a[i].link == b[i].link
}

/// Models of the same record of two tables of the same shape list the same
/// paths, count the same files and directories, and hold their files at the
/// same positions.
pub proof fn lemma_twin_node(
    a: Seq<FlatView>,
    b: Seq<FlatView>,
    i: int,
    e: Entry,
    twin: Entry,
    endian: (Endian, Endian),
    image: (Seq<u8>, Seq<u8>),
    prefix: Seq<Seq<char>>,
)
    requires
        same_shape(a, b),
        node_mirrors(a, i, e, endian.0, image.0),
        node_mirrors(b, i, twin, endian.1, image.1),
    ensures
        paths(flat_entry(e, prefix)) == paths(flat_entry(twin, prefix)),
        slots(entry_file_list(e)) == slots(entry_file_list(twin)),
        entry_files(e) == entry_files(twin),
        entry_dirs(e) == entry_dirs(twin),
    decreases e,
{
    assert(a[i].name == b[i].name && a[i].link == b[i].link);
    match e {
        Entry::File(f) => {
            assert(paths(flat_entry(e, prefix)) =~= paths(flat_entry(twin, prefix)));
            assert(slots(entry_file_list(e)) =~= slots(entry_file_list(twin)));
        },
        Entry::Dir(d) => {
            let (index, count) = a[i].link->Some_0;
            lemma_twin_range(
                a,
                b,
                index as int,
                d.entries@,
                twin->Dir_0.entries@,
                count as nat,
                endian,
                image,
                prefix.push(d.name@),
            );
        },
    }
}

/// Models of the same range of records of two tables of the same shape list
/// the same paths, count the same files and directories, and hold their files
/// at the same positions.
pub proof fn lemma_twin_range(
    a: Seq<FlatView>,
    b: Seq<FlatView>,
    from: int,
    es: Seq<Entry>,
    twins: Seq<Entry>,
    n: nat,
    endian: (Endian, Endian),
    image: (Seq<u8>, Seq<u8>),
    prefix: Seq<Seq<char>>,
)
    requires
        same_shape(a, b),
        n <= es.len(),
        n <= twins.len(),
        range_mirrors(a, from, es, n, endian.0, image.0),
        range_mirrors(b, from, twins, n, endian.1, image.1),
    ensures
        paths(flat_entries(es, n, prefix)) == paths(flat_entries(twins, n, prefix)),
        slots(entries_file_list(es, n)) == slots(entries_file_list(twins, n)),
        entries_files(es, n) == entries_files(twins, n),
        entries_dirs(es, n) == entries_dirs(twins, n),
    decreases es, n,
{
    if n == 0 {
        assert(paths(flat_entries(es, n, prefix)) =~= paths(flat_entries(twins, n, prefix)));
        assert(slots(entries_file_list(es, n)) =~= slots(entries_file_list(twins, n)));
    } else {
        let m = (n - 1) as nat;
        lemma_twin_range(a, b, from, es, twins, m, endian, image, prefix);
        lemma_twin_node(a, b, from + n - 1, es[n - 1], twins[n - 1], endian, image, prefix);
        assert(paths(flat_entries(es, n, prefix)) =~= paths(flat_entries(es, m, prefix)) + paths(
            flat_entry(es[n - 1], prefix),
        ));
        assert(paths(flat_entries(twins, n, prefix)) =~= paths(flat_entries(twins, m, prefix))
            + paths(flat_entry(twins[n - 1], prefix)));
        assert(slots(entries_file_list(es, n)) =~= slots(entries_file_list(es, m)) + slots(
            entry_file_list(es[n - 1]),
        ));
        assert(slots(entries_file_list(twins, n)) =~= slots(entries_file_list(twins, m)) + slots(
            entry_file_list(twins[n - 1]),
        ));
    }
}

/// Patching the table of the second layout keeps its shape.
pub proof fn lemma_patched_shape_obscure2(
    table: Seq<crate::structures::obscure2::Entry>,
    names: Map<u32, Seq<char>>,
    patches: Seq<FilePatch>,
    n: nat,
)
    requires
        n <= patches.len(),
    ensures
        same_shape(
            crate::archive::obscure2::table_views(table, names),
            crate::archive::obscure2::table_views(
                crate::archive::obscure2::patched_table(table, patches, n),
                names,
            ),
        ),
    decreases n,
{
    if n > 0 {
        lemma_patched_shape_obscure2(table, names, patches, (n - 1) as nat);
    }
}

/// Patching the table of the third layout keeps its shape.
pub proof fn lemma_patched_shape_final_exam(
    table: Seq<crate::structures::final_exam::Entry>,
    names: Seq<u8>,
    patches: Seq<FilePatch>,
    n: nat,
)
    requires
        n <= patches.len(),
    ensures
        same_shape(
            crate::archive::final_exam::table_views(table, names),
            crate::archive::final_exam::table_views(
                crate::archive::final_exam::patched_table(table, patches, n),
                names,
            ),
        ),
    decreases n,
{
    if n > 0 {
        lemma_patched_shape_final_exam(table, names, patches, (n - 1) as nat);
    }
}

} // verus!

verus! {

/// The patches that a rebuild of `archive` into an empty sink makes, in the
/// order of the listing.
pub open spec fn rebuild_patches(archive: Archive) -> Seq<FilePatch> {
    let game = archive.spec_provider().spec_raw_archive().spec_game();
    let off = archive.spec_provider().spec_entries_offset();
    plan_entries(
        archive.spec_entries(),
        archive.spec_entries().len(),
        off + padding(game, off).len(),
        game,
        archive.spec_skip_compression(),
    )->Ok_0.0
}

/// `after` is what loading the image gives that a rebuild of `before` into an
/// empty sink wrote, in the same layout and with the same known names, and in
/// the same byte order where the layout does not announce its own.
pub open spec fn loaded_from_rebuild(before: Archive, after: Archive) -> bool {
    &&& rebuilt_image(
        before.spec_provider().spec_raw_archive(),
        before.spec_provider().spec_entries_offset(),
        before.spec_entries(),
        before.spec_skip_compression(),
        0,
    ) == Ok::<Seq<u8>, RebuildFault>(after.spec_provider().image())
    &&& after.spec_provider().spec_raw_archive().spec_game()
        == before.spec_provider().spec_raw_archive().spec_game()
    &&& after.spec_names() == before.spec_names()
    &&& match (before.spec_provider().spec_raw_archive(), after.spec_provider().spec_raw_archive()) {
        (RawArchive::Obscure1(a), RawArchive::Obscure1(b)) => b.endian == a.endian,
        _ => true,
    }
}

/// The second layout: the table of a rebuilt image that was loaded is the
/// patched table.
proof fn lemma_reloaded_obscure2(before: Archive, after: Archive)
    requires
        before.inv(),
        after.inv(),
        loaded_from_rebuild(before, after),
        before.provider.raw_archive is Obscure2,
    ensures
        after.provider.raw_archive is Obscure2,
        after.provider.raw_archive->Obscure2_0.spec_endian()
            == before.provider.raw_archive->Obscure2_0.spec_endian(),
        after.provider.raw_archive->Obscure2_0.spec_entries()
            == crate::archive::obscure2::patched_table(
            before.provider.raw_archive->Obscure2_0.spec_entries(),
            rebuild_patches(before),
            rebuild_patches(before).len(),
        ),
        after.provider.entries_offset == before.provider.entries_offset,
{
    reveal(RawArchive::decoded_from);
    let a = before.provider.raw_archive->Obscure2_0;
    let twin = after.provider.raw_archive->Obscure2_0;
    let off = before.provider.entries_offset as int;
    let lead = padding(Game::Obscure2, off);
    let plan = plan_entries(
        before.entries@,
        before.entries@.len(),
        off + lead.len(),
        Game::Obscure2,
        before.options.rebuild_skip_compression,
    )->Ok_0;
    let patches = plan.0;
    let table = crate::archive::obscure2::patched_table(a.spec_entries(), patches, patches.len());
    let header = crate::structures::obscure2::Header {
        entries_count: a.spec_header().entries_count,
        entries_crc32: crate::structures::common::crc32_ieee(
            crate::structures::obscure2::entries_bytes(table, a.spec_endian()),
        ),
    };
    let toc = crate::archive::obscure2::rebuilt_toc(a, patches);
    let rest = lead + plan.1;
    let image = after.provider.bytes@;
    assert(image =~= toc + rest);
    crate::structures::obscure2::lemma_written_header_is_read(a.spec_endian(), header, table, rest);
    crate::archive::obscure2::law_rebuilt_toc_parses(a, patches, rest);
    crate::archive::obscure2::lemma_patched_table(a.spec_entries(), patches, patches.len());
}

/// The third layout: the table of a rebuilt image that was loaded is the
/// patched table, with the names it had.
proof fn lemma_reloaded_final_exam(before: Archive, after: Archive)
    requires
        before.inv(),
        after.inv(),
        loaded_from_rebuild(before, after),
        before.provider.raw_archive is FinalExam,
    ensures
        after.provider.raw_archive is FinalExam,
        after.provider.raw_archive->FinalExam_0.header.endian
            == before.provider.raw_archive->FinalExam_0.header.endian,
        after.provider.raw_archive->FinalExam_0.names.bytes@
            == before.provider.raw_archive->FinalExam_0.names.bytes@,
        after.provider.raw_archive->FinalExam_0.entries@
            == crate::archive::final_exam::patched_table(
            before.provider.raw_archive->FinalExam_0.entries@,
            rebuild_patches(before),
            rebuild_patches(before).len(),
        ),
        after.provider.entries_offset == before.provider.entries_offset,
{
    reveal(RawArchive::decoded_from);
    let a = before.provider.raw_archive->FinalExam_0;
    let off = before.provider.entries_offset as int;
    let lead = padding(Game::FinalExam, off);
    let plan = plan_entries(
        before.entries@,
        before.entries@.len(),
        off + lead.len(),
        Game::FinalExam,
        before.options.rebuild_skip_compression,
    )->Ok_0;
    let patches = plan.0;
    let table = crate::archive::final_exam::patched_table(a.entries@, patches, patches.len());
    let header = crate::structures::final_exam::Header {
        endian: a.header.endian,
        entries_count: a.header.entries_count,
        entries_crc32: crate::structures::common::crc32_ieee(
            crate::structures::final_exam::entries_bytes(table, a.header.endian),
        ),
    };
    let toc = crate::archive::final_exam::rebuilt_toc(a, patches);
    let rest = lead + plan.1;
    let image = after.provider.bytes@;
    assert(image =~= toc + rest);
    crate::structures::final_exam::lemma_written_header_is_read(
        header,
        a.names.bytes@,
        table,
        rest,
    );
    crate::archive::final_exam::law_rebuilt_toc_parses(a, patches, rest);
    crate::archive::final_exam::lemma_patched_table(a.entries@, patches, patches.len());
}

/// A flat layout: the archive loaded from a rebuilt image lists the paths
/// that the archive listed which was rebuilt, counts as many files and
/// directories, and holds its files at the same records.
proof fn lemma_lists_alike_flat(before: Archive, after: Archive)
    requires
        before.inv(),
        after.inv(),
        loaded_from_rebuild(before, after),
        !(before.provider.raw_archive is Obscure1),
    ensures
        after.provider.entries_offset == before.provider.entries_offset,
        after.metadata == before.metadata,
        paths(after.listing()) == paths(before.listing()),
        slots(entries_file_list(after.entries@, after.entries@.len())) == slots(
            entries_file_list(before.entries@, before.entries@.len()),
        ),
{
    let es = before.entries@;
    let twins = after.entries@;
    let patches = rebuild_patches(before);
    let images = (before.provider.bytes@, after.provider.bytes@);
    match before.provider.raw_archive {
        RawArchive::Obscure1(_) => {},
        RawArchive::Obscure2(a) => {
            lemma_reloaded_obscure2(before, after);
            let names = before.options.obscure2_names.names();
            lemma_patched_shape_obscure2(a.spec_entries(), names, patches, patches.len());
            crate::archive::obscure2::lemma_patched_table(a.spec_entries(), patches, patches.len());
            let table = crate::archive::obscure2::patched_table(
                a.spec_entries(),
                patches,
                patches.len(),
            );
            assert(crate::structures::obscure2::links_of(table)[0]
                == crate::structures::obscure2::links_of(a.spec_entries())[0]);
            lemma_twin_range(
                crate::archive::obscure2::table_views(a.spec_entries(), names),
                crate::archive::obscure2::table_views(table, names),
                1,
                es,
                twins,
                es.len(),
                (a.spec_endian(), a.spec_endian()),
                images,
                Seq::empty(),
            );
        },
        RawArchive::FinalExam(a) => {
            lemma_reloaded_final_exam(before, after);
            let names = a.names.bytes@;
            lemma_patched_shape_final_exam(a.entries@, names, patches, patches.len());
            crate::archive::final_exam::lemma_patched_table(a.entries@, patches, patches.len());
            let table = crate::archive::final_exam::patched_table(
                a.entries@,
                patches,
                patches.len(),
            );
            assert(crate::structures::final_exam::links_of(table)[0]
                == crate::structures::final_exam::links_of(a.entries@)[0]);
            lemma_twin_range(
                crate::archive::final_exam::table_views(a.entries@, names),
                crate::archive::final_exam::table_views(table, names),
                1,
                es,
                twins,
                es.len(),
                (a.header.endian, a.header.endian),
                images,
                Seq::empty(),
            );
        },
    }
}

} // verus!

verus! {

/// What a record of a flat table holds once it is patched.  A directory holds
/// what it held.
pub open spec fn patched_view(view: FlatView, patch: Patch) -> FlatView {
    if view.link is Some {
        view
    } else {
        match patch {
            Patch::Skip => view,
            Patch::Keep { offset } => FlatView {
                name: view.name,
                link: None,
                compressed: view.compressed,
                checksum: view.checksum,
                uncompressed_size: view.uncompressed_size,
                offset,
                compressed_size: view.compressed_size,
            },
            Patch::Replace { offset, compressed_size, uncompressed_size, checksum, compressed } => FlatView {
                name: view.name,
                link: None,
                compressed,
                checksum,
                uncompressed_size,
                offset,
                compressed_size,
            },
        }
    }
}

/// What the records of a flat table hold once the first `n` of `patches` are
/// applied, one after the other, each to the record at its position.
pub open spec fn patched_views(views: Seq<FlatView>, patches: Seq<FilePatch>, n: nat) -> Seq<
    FlatView,
>
    decreases n,
{
    if n == 0 || n > patches.len() {
        views
    } else {
        let before = patched_views(views, patches, (n - 1) as nat);
        let p = patches[n - 1];
        if p.slot < before.len() {
            before.update(p.slot as int, patched_view(before[p.slot as int], p.patch))
        } else {
            before
        }
    }
}

/// The records of the patched table of the second layout hold what the
/// patched records hold.
pub proof fn lemma_patched_views_obscure2(
    table: Seq<crate::structures::obscure2::Entry>,
    names: Map<u32, Seq<char>>,
    patches: Seq<FilePatch>,
    n: nat,
)
    requires
        n <= patches.len(),
    ensures
        crate::archive::obscure2::table_views(
            crate::archive::obscure2::patched_table(table, patches, n),
            names,
        ) == patched_views(crate::archive::obscure2::table_views(table, names), patches, n),
    decreases n,
{
    if n > 0 {
        lemma_patched_views_obscure2(table, names, patches, (n - 1) as nat);
    }
    assert(crate::archive::obscure2::table_views(
        crate::archive::obscure2::patched_table(table, patches, n),
        names,
    ) =~= patched_views(crate::archive::obscure2::table_views(table, names), patches, n));
}

/// The records of the patched table of the third layout hold what the
/// patched records hold.
pub proof fn lemma_patched_views_final_exam(
    table: Seq<crate::structures::final_exam::Entry>,
    names: Seq<u8>,
    patches: Seq<FilePatch>,
    n: nat,
)
    requires
        n <= patches.len(),
    ensures
        crate::archive::final_exam::table_views(
            crate::archive::final_exam::patched_table(table, patches, n),
            names,
        ) == patched_views(crate::archive::final_exam::table_views(table, names), patches, n),
    decreases n,
{
    if n > 0 {
        lemma_patched_views_final_exam(table, names, patches, (n - 1) as nat);
    }
    assert(crate::archive::final_exam::table_views(
        crate::archive::final_exam::patched_table(table, patches, n),
        names,
    ) =~= patched_views(crate::archive::final_exam::table_views(table, names), patches, n));
}

/// No two of the positions are the same.
pub open spec fn distinct(positions: Seq<usize>) -> bool {
    forall|j: int, k: int|
        0 <= j < k < positions.len() ==> #[trigger] positions[j] != #[trigger] positions[k]
}

/// The patches stand at the positions `at`, one for each.
pub open spec fn patches_at(patches: Seq<FilePatch>, at: Seq<usize>) -> bool {
    &&& patches.len() == at.len()
    &&& forall|j: int| 0 <= j < patches.len() ==> (#[trigger] patches[j]).slot == at[j]
}

/// Patches at positions of which no two are the same change each record once:
/// the record at the position of patch `j` holds what that patch makes of it,
/// if the patch is among those applied, else what it held.
pub proof fn lemma_patched_views_at(
    views: Seq<FlatView>,
    patches: Seq<FilePatch>,
    at: Seq<usize>,
    n: nat,
    j: int,
)
    requires
        n <= patches.len(),
        patches_at(patches, at),
        distinct(at),
        0 <= j < patches.len(),
        at[j] < views.len(),
    ensures
        patched_views(views, patches, n).len() == views.len(),
        patched_views(views, patches, n)[at[j] as int] == if j < n {
            patched_view(views[at[j] as int], patches[j].patch)
        } else {
            views[at[j] as int]
        },
    decreases n,
{
    if n > 0 {
        lemma_patched_views_at(views, patches, at, (n - 1) as nat, j);
        assert(patches[n - 1].slot == at[n - 1]);
        assert(patches[j].slot == at[j]);
        if j != n - 1 {
            if j < n - 1 {
                assert(at[j] != at[n - 1]);
            } else {
                assert(at[n - 1] != at[j]);
            }
        }
    }
}

/// Every file of the model of a range of records is the file that the record
/// at its position describes.
pub proof fn lemma_listed_files_mirror(
    nodes: Seq<FlatView>,
    from: int,
    es: Seq<Entry>,
    n: nat,
    endian: Endian,
    image: Seq<u8>,
    j: int,
)
    requires
        n <= es.len(),
        range_mirrors(nodes, from, es, n, endian, image),
        0 <= j < entries_file_list(es, n).len(),
    ensures
        ({
            let f = entries_file_list(es, n)[j];
            &&& f.slot < nodes.len()
            &&& nodes[f.slot as int].link is None
            &&& file_mirrors(nodes[f.slot as int], f.slot as int, f, endian, image)
        }),
    decreases es, n,
{
    let m = (n - 1) as nat;
    let first = entries_file_list(es, m);
    if j < first.len() {
        lemma_listed_files_mirror(nodes, from, es, m, endian, image, j);
    } else {
        lemma_listed_file_mirrors(nodes, from + n - 1, es[n - 1], endian, image, j - first.len());
    }
}

/// Every file of the model of a record is the file that the record at its
/// position describes.
pub proof fn lemma_listed_file_mirrors(
    nodes: Seq<FlatView>,
    i: int,
    e: Entry,
    endian: Endian,
    image: Seq<u8>,
    j: int,
)
    requires
        node_mirrors(nodes, i, e, endian, image),
        0 <= j < entry_file_list(e).len(),
    ensures
        ({
            let f = entry_file_list(e)[j];
            &&& f.slot < nodes.len()
            &&& nodes[f.slot as int].link is None
            &&& file_mirrors(nodes[f.slot as int], f.slot as int, f, endian, image)
        }),
    decreases e,
{
    match e {
        Entry::File(_) => {},
        Entry::Dir(d) => {
            let (index, count) = nodes[i].link->Some_0;
            lemma_listed_files_mirror(
                nodes,
                index as int,
                d.entries@,
                count as nat,
                endian,
                image,
                j,
            );
        },
    }
}

} // verus!

verus! {

/// The codec that a layout compresses payloads with.
pub open spec fn codec_of(game: Game) -> CompressionType {
    match game {
        Game::Obscure1 => CompressionType::Zlib,
        _ => CompressionType::Lzo,
    }
}

/// The file `g` of a reloaded archive holds what a rebuild stores for the
/// file `f`: nothing for a file that had no payload; the payload that `f`
/// had, as it was stored, where `f` has no replacement; else the replacement
/// itself where it is stored as it is, and what the compressor of the layout
/// makes of it where it is stored compressed.
pub open spec fn reads_back(f: FileEntry, g: FileEntry, game: Game, skip_compression: bool) -> bool {
    &&& g.name@ == f.name@
    &&& if f.uncompressed_size == 0 {
        g.uncompressed_size == 0 && g.raw_bytes@.len() == 0
    } else {
        match f.update {
            None => {
                &&& g.raw_bytes@ == f.raw_bytes@
                &&& g.compression_info == f.compression_info
                &&& g.uncompressed_size == f.uncompressed_size
                &&& g.checksum == f.checksum
            },
            Some(UpdateKind::Bytes(r)) => {
                &&& g.uncompressed_size == r@.len()
                &&& if skip_compression || f.compression_info is None {
                    g.compression_info is None && g.raw_bytes@ == r@
                } else {
                    &&& g.compression_info == Some(
                        CompressionInfo {
                            uncompressed_size: r@.len() as u32,
                            compression_type: codec_of(game),
                        },
                    )
                    &&& (r@.len() > 0 ==> packed(game, r@) == Ok::<Seq<u8>, RebuildFault>(
                        g.raw_bytes@,
                    ))
                }
            },
            Some(UpdateKind::File(_)) => true,
        }
    }
}

/// What a record says of the payload of a file.
pub struct Stored {
    pub compressed: bool,
    pub checksum: i32,
    pub uncompressed_size: u32,
    pub offset: u32,
    pub compressed_size: u32,
}

/// What a record says of the payload once it is patched.
pub open spec fn patched_stored(stored: Stored, patch: Patch) -> Stored {
    match patch {
        Patch::Skip => stored,
        Patch::Keep { offset } => Stored {
            compressed: stored.compressed,
            checksum: stored.checksum,
            uncompressed_size: stored.uncompressed_size,
            offset,
            compressed_size: stored.compressed_size,
        },
        Patch::Replace { offset, compressed_size, uncompressed_size, checksum, compressed } => Stored {
            compressed,
            checksum,
            uncompressed_size,
            offset,
            compressed_size,
        },
    }
}

/// The file `f` of the model holds the payload that a record says `stored`
/// of, in an image of the layout `game`.
pub open spec fn holds(stored: Stored, f: FileEntry, game: Game, image: Seq<u8>) -> bool {
    &&& f.compression_info == if stored.compressed {
        Some(
            CompressionInfo {
                uncompressed_size: stored.uncompressed_size,
                compression_type: codec_of(game),
            },
        )
    } else {
        None
    }
    &&& f.checksum == stored.checksum
    &&& f.uncompressed_size == stored.uncompressed_size
    &&& f.raw_bytes@ == payload_of(
        image,
        stored.uncompressed_size,
        stored.offset,
        stored.compressed_size,
    )
}

/// A file `g` that holds the payload of which the patched record of file `j`
/// speaks, in the image that the rebuild wrote, holds what the rebuild stored
/// for file `j`.
#[verifier::rlimit(50)]
proof fn lemma_reads_back(before: Archive, image2: Seq<u8>, j: int, stored: Stored, g: FileEntry)
    requires
        before.inv(),
        rebuilt_image(
            before.provider.raw_archive,
            before.provider.entries_offset as int,
            before.entries@,
            before.options.rebuild_skip_compression,
            0,
        ) == Ok::<Seq<u8>, RebuildFault>(image2),
        0 <= j < entries_file_list(before.entries@, before.entries@.len()).len(),
        holds(
            stored,
            entries_file_list(before.entries@, before.entries@.len())[j],
            before.provider.raw_archive.spec_game(),
            before.provider.bytes@,
        ),
        payload_fits(
            stored.uncompressed_size,
            stored.offset,
            stored.compressed_size,
            before.provider.bytes@.len() as int,
        ),
        j < rebuild_patches(before).len() ==> holds(
            patched_stored(stored, rebuild_patches(before)[j].patch),
            g,
            before.provider.raw_archive.spec_game(),
            image2,
        ),
        g.name@ == entries_file_list(before.entries@, before.entries@.len())[j].name@,
    ensures
        reads_back(
            entries_file_list(before.entries@, before.entries@.len())[j],
            g,
            before.provider.raw_archive.spec_game(),
            before.options.rebuild_skip_compression,
        ),
{
    let es = before.entries@;
    let f = entries_file_list(es, es.len())[j];
    let game = before.provider.raw_archive.spec_game();
    let skip = before.options.rebuild_skip_compression;
    let off = before.provider.entries_offset as int;
    let lead = padding(game, off);
    let first = off + lead.len();
    let plan = plan_entries(es, es.len(), first, game, skip)->Ok_0;
    let patches = plan.0;
    law_placement(es, first, game, skip, j);
    law_toc_keeps_its_length(before.spec_provider(), patches);
    let toc = crate::archive::toc_after(before.provider.raw_archive, patches);
    assert(image2 == toc + lead + plan.1);
    if f.uncompressed_size != 0 {
        match f.update {
            None => {
                let offset = patches[j].patch->Keep_offset;
                law_kept_payload(f, offset as int, game, skip);
                let written = file_step(f, offset as int, game, skip)->Ok_0.1;
                let size = stored.compressed_size;
                assert(f.raw_bytes@.len() == size);
                assert(image2.subrange(offset as int, offset + written.len()) =~= plan.1.subrange(
                    offset - first,
                    offset - first + written.len(),
                ));
                assert(image2.subrange(offset as int, offset + size) =~= written.subrange(
                    0,
                    size as int,
                ));
                assert(written.subrange(0, size as int) =~= f.raw_bytes@);
            },
            Some(UpdateKind::Bytes(r)) => {
                law_replacement_in_image(before, 0, j);
                let offset = patches[j].patch->Replace_offset;
                let size = patches[j].patch->Replace_compressed_size;
                if r@.len() == 0 {
                    assert(g.raw_bytes@ =~= Seq::<u8>::empty());
                    assert(r@ =~= Seq::<u8>::empty());
                } else {
                    assert(image2.subrange(offset - 0, offset - 0 + size) == image2.subrange(
                        offset as int,
                        offset + size,
                    ));
                }
            },
            Some(UpdateKind::File(_)) => {},
        }
    }
}

/// What the record `view` of a flat table says of the payload of its file.
pub open spec fn stored_of(view: FlatView) -> Stored {
    Stored {
        compressed: view.compressed,
        checksum: view.checksum,
        uncompressed_size: view.uncompressed_size,
        offset: view.offset,
        compressed_size: view.compressed_size,
    }
}

/// A flat layout: file `j` of the archive loaded from a rebuilt image holds
/// what the rebuild stored for file `j` of the archive that was rebuilt,
/// where `views` are the records of that archive.
#[verifier::rlimit(50)]
proof fn lemma_reads_back_flat(
    before: Archive,
    after: Archive,
    views: Seq<FlatView>,
    endian: Endian,
    j: int,
)
    requires
        before.inv(),
        after.inv(),
        loaded_from_rebuild(before, after),
        !(before.provider.raw_archive is Obscure1),
        nodes_fit(views, before.provider.bytes@.len() as int),
        range_mirrors(views, 1, before.entries@, before.entries@.len(), endian, before.provider.bytes@),
        range_mirrors(
            patched_views(views, rebuild_patches(before), rebuild_patches(before).len()),
            1,
            after.entries@,
            after.entries@.len(),
            endian,
            after.provider.bytes@,
        ),
        slots(entries_file_list(after.entries@, after.entries@.len())) == slots(
            entries_file_list(before.entries@, before.entries@.len()),
        ),
        distinct(slots(entries_file_list(before.entries@, before.entries@.len()))),
        0 <= j < entries_file_list(before.entries@, before.entries@.len()).len(),
    ensures
        j < entries_file_list(after.entries@, after.entries@.len()).len(),
        reads_back(
            entries_file_list(before.entries@, before.entries@.len())[j],
            entries_file_list(after.entries@, after.entries@.len())[j],
            before.provider.raw_archive.spec_game(),
            before.options.rebuild_skip_compression,
        ),
{
    let es = before.entries@;
    let twins = after.entries@;
    let files = entries_file_list(es, es.len());
    let others = entries_file_list(twins, twins.len());
    let game = before.provider.raw_archive.spec_game();
    let skip = before.options.rebuild_skip_compression;
    let off = before.provider.entries_offset as int;
    let first = off + padding(game, off).len();
    let patches = rebuild_patches(before);
    let image = before.provider.bytes@;
    let image2 = after.provider.bytes@;
    let at = slots(files);
    assert(others.len() == files.len()) by {
        assert(slots(others).len() == slots(files).len());
    }
    assert(patches_at(patches, at)) by {
        law_placement(es, first, game, skip, j);
        assert forall|k: int| 0 <= k < patches.len() implies (#[trigger] patches[k]).slot
            == at[k] by {
            law_placement(es, first, game, skip, k);
        }
    }
    let f = files[j];
    let g = others[j];
    assert(g.slot == f.slot) by {
        assert(slots(others)[j] == slots(files)[j]);
    }
    assert(at[j] == f.slot);
    lemma_listed_files_mirror(views, 1, es, es.len(), endian, image, j);
    let after_views = patched_views(views, patches, patches.len());
    lemma_listed_files_mirror(after_views, 1, twins, twins.len(), endian, image2, j);
    lemma_patched_views_at(views, patches, at, patches.len(), j);
    let v = views[f.slot as int];
    assert(node_fits(v, image.len() as int));
    assert(codec_of(game) == CompressionType::Lzo);
    assert(stored_of(patched_view(v, patches[j].patch)) == patched_stored(
        stored_of(v),
        patches[j].patch,
    ));
    lemma_reads_back(before, image2, j, stored_of(v), g);
}

} // verus!

verus! {

/// The first layout: the tree of a rebuilt image that was loaded is the tree
/// that was rebuilt, with its files patched, and it ends where that tree
/// ended.
#[verifier::rlimit(50)]
proof fn lemma_reloaded_nested(before: Archive, after: Archive)
    requires
        before.inv(),
        after.inv(),
        loaded_from_rebuild(before, after),
        before.provider.raw_archive is Obscure1,
    ensures
        after.provider.raw_archive is Obscure1,
        after.provider.raw_archive->Obscure1_0.endian
            == before.provider.raw_archive->Obscure1_0.endian,
        after.provider.raw_archive->Obscure1_0.entries@.len()
            == before.provider.raw_archive->Obscure1_0.entries@.len(),
        patched_twins(
            after.provider.raw_archive->Obscure1_0.entries@,
            before.provider.raw_archive->Obscure1_0.entries@,
            before.provider.raw_archive->Obscure1_0.entries@.len(),
            rebuild_patches(before),
            0,
            before.provider.raw_archive->Obscure1_0.endian,
        ),
        after.provider.entries_offset == before.provider.entries_offset,
{
    reveal(RawArchive::decoded_from);
    let a = before.provider.raw_archive->Obscure1_0;
    let b = after.provider.raw_archive->Obscure1_0;
    let endian = a.endian;
    let off = before.provider.entries_offset as int;
    let end = after.provider.entries_offset as int;
    let lead = padding(Game::Obscure1, off);
    let plan = plan_entries(
        before.entries@,
        before.entries@.len(),
        off + lead.len(),
        Game::Obscure1,
        before.options.rebuild_skip_compression,
    )->Ok_0;
    let patches = plan.0;
    let image = after.provider.bytes@;
    let toc = crate::archive::obscure1::rebuilt_toc(a, patches);
    let tree = crate::archive::obscure1::patched_tree_bytes(a.entries@, patches, endian);
    let sums = match a.checksums {
        Some(_) => Some(
            obscure1::Crc32 {
                header: crate::structures::common::crc32_ieee(a.header.spec_bytes(endian)),
                entries: crate::structures::common::crc32_ieee(tree),
            },
        ),
        None => None,
    };
    let head = a.header.spec_bytes(endian);
    let pair = obscure1::checksums_bytes(sums, endian);
    let other_head = b.header.spec_bytes(endian);
    let other_pair = obscure1::checksums_bytes(b.checksums, endian);
    let other_tree = obscure1::entries_bytes(b.entries@, b.entries@.len(), endian);
    law_toc_keeps_its_length(before.spec_provider(), patches);
    obscure1::lemma_header_len(a.header, sums, endian);
    obscure1::lemma_header_len(b.header, b.checksums, endian);
    assert(image == toc + lead + plan.1);
    assert(toc == head + pair + tree);
    assert(image.subrange(0, toc.len() as int) =~= head + pair + tree);
    assert(0 <= end <= image.len());
    assert(image.subrange(0, end) == b.spec_bytes());
    assert(b.spec_bytes() == other_head + other_pair + other_tree);
    assert(image.subrange(0, end).len() == end);
    assert(end == other_head.len() + other_pair.len() + other_tree.len());
    lemma_split_at(image, 0, head + pair, tree, toc.len() as int);
    lemma_split_at(image, 0, head, pair, (32 + pair.len()) as int);
    lemma_split_at(image, 0, other_head + other_pair, other_tree, end);
    lemma_split_at(image, 0, other_head, other_pair, (32 + other_pair.len()) as int);
    obscure1::lemma_header_fields(image, a.header, endian);
    obscure1::lemma_header_fields(image, b.header, endian);
    assert(a.header.minor_version == b.header.minor_version);
    assert(pair.len() == other_pair.len());
    assert(b.entries@.len() == a.entries@.len());
    lemma_patched_twins(
        image,
        (32 + pair.len()) as int,
        b.entries@,
        a.entries@,
        a.entries@.len(),
        patches,
        0,
        endian,
    );
}

/// No two files of the listing of `archive` stand at the same record of a
/// flat table.  This holds where every record has one directory above it,
/// and of every archive of the first layout, which has no such table.
pub open spec fn listed_once(archive: Archive) -> bool {
    archive.spec_provider().spec_raw_archive() is Obscure1 || distinct(
        slots(entries_file_list(archive.spec_entries(), archive.spec_entries().len())),
    )
}

/// A flat layout: the records of the table of `before`, and the models of
/// both archives as they mirror the records before and after patching.
proof fn lemma_reloaded_views(before: Archive, after: Archive) -> (r: (Seq<FlatView>, Endian))
    requires
        before.inv(),
        after.inv(),
        loaded_from_rebuild(before, after),
        !(before.provider.raw_archive is Obscure1),
    ensures
        nodes_fit(r.0, before.provider.bytes@.len() as int),
        range_mirrors(r.0, 1, before.entries@, before.entries@.len(), r.1, before.provider.bytes@),
        range_mirrors(
            patched_views(r.0, rebuild_patches(before), rebuild_patches(before).len()),
            1,
            after.entries@,
            after.entries@.len(),
            r.1,
            after.provider.bytes@,
        ),
{
    let patches = rebuild_patches(before);
    let limit = before.provider.bytes@.len() as int;
    match before.provider.raw_archive {
        RawArchive::Obscure1(_) => (Seq::empty(), Endian::Little),
        RawArchive::Obscure2(a) => {
            let names = before.options.obscure2_names.names();
            lemma_reloaded_obscure2(before, after);
            lemma_patched_views_obscure2(a.spec_entries(), names, patches, patches.len());
            crate::archive::obscure2::lemma_table_views(a.spec_entries(), names, limit);
            (crate::archive::obscure2::table_views(a.spec_entries(), names), a.spec_endian())
        },
        RawArchive::FinalExam(a) => {
            lemma_reloaded_final_exam(before, after);
            lemma_patched_views_final_exam(a.entries@, a.names.bytes@, patches, patches.len());
            crate::archive::final_exam::lemma_table_views(a.entries@, a.names.bytes@, limit);
            (crate::archive::final_exam::table_views(a.entries@, a.names.bytes@), a.header.endian)
        },
    }
}

/// The first layout: the archive loaded from a rebuilt image lists the paths
/// that the archive listed which was rebuilt, and counts as many files and
/// directories.
proof fn lemma_lists_alike_nested(before: Archive, after: Archive)
    requires
        before.inv(),
        after.inv(),
        loaded_from_rebuild(before, after),
        before.provider.raw_archive is Obscure1,
    ensures
        after.provider.entries_offset == before.provider.entries_offset,
        after.metadata == before.metadata,
        paths(after.listing()) == paths(before.listing()),
{
    let a = before.provider.raw_archive->Obscure1_0;
    let b = after.provider.raw_archive->Obscure1_0;
    lemma_reloaded_nested(before, after);
    lemma_twins_models(
        b.entries@,
        a.entries@,
        after.entries@,
        before.entries@,
        a.entries@.len(),
        rebuild_patches(before),
        0,
        a.endian,
        (before.provider.bytes@, after.provider.bytes@),
        Seq::empty(),
    );
}

/// The first layout: file `j` of the archive loaded from a rebuilt image
/// holds what the rebuild stored for file `j` of the archive that was
/// rebuilt.
#[verifier::rlimit(50)]
proof fn lemma_reads_back_nested(before: Archive, after: Archive, j: int)
    requires
        before.inv(),
        after.inv(),
        loaded_from_rebuild(before, after),
        before.provider.raw_archive is Obscure1,
        0 <= j < entries_file_list(before.entries@, before.entries@.len()).len(),
    ensures
        j < entries_file_list(after.entries@, after.entries@.len()).len(),
        reads_back(
            entries_file_list(before.entries@, before.entries@.len())[j],
            entries_file_list(after.entries@, after.entries@.len())[j],
            Game::Obscure1,
            before.options.rebuild_skip_compression,
        ),
{
    let a = before.provider.raw_archive->Obscure1_0;
    let b = after.provider.raw_archive->Obscure1_0;
    let es = before.entries@;
    let patches = rebuild_patches(before);
    let skip = before.options.rebuild_skip_compression;
    let off = before.provider.entries_offset as int;
    let first = off + padding(Game::Obscure1, off).len();
    lemma_reloaded_nested(before, after);
    let raw = lemma_twins_file(
        b.entries@,
        a.entries@,
        after.entries@,
        es,
        a.entries@.len(),
        patches,
        0,
        a.endian,
        (before.provider.bytes@, after.provider.bytes@),
        j,
    );
    law_placement(es, first, Game::Obscure1, skip, j);
    let g = entries_file_list(after.entries@, after.entries@.len())[j];
    assert(stored_of_file(crate::archive::obscure1::patched_file(raw, patches[j].patch))
        == patched_stored(stored_of_file(raw), patches[j].patch));
    lemma_reads_back(before, after.provider.bytes@, j, stored_of_file(raw), g);
}

/// Replacement fidelity, the listing: the archive that is loaded from the
/// image that a rebuild wrote, in the same layout and with the same known
/// names, has a table of contents of the same length, the same numbers of
/// files and directories, and lists the same paths in the same order as the
/// archive that was rebuilt, whatever replacements its files had.
pub proof fn law_rebuilt_image_lists_alike(before: Archive, after: Archive)
    requires
        before.inv(),
        after.inv(),
        loaded_from_rebuild(before, after),
    ensures
        after.spec_provider().spec_entries_offset()
            == before.spec_provider().spec_entries_offset(),
        after.spec_metadata() == before.spec_metadata(),
        paths(after.listing()) == paths(before.listing()),
{
    if before.provider.raw_archive is Obscure1 {
        lemma_lists_alike_nested(before, after);
    } else {
        lemma_lists_alike_flat(before, after);
    }
}

/// Replacement fidelity, the payloads: in the archive that is loaded from the
/// image that a rebuild wrote, every file holds what the rebuild stored for
/// the file at the same place of the listing: the replacement where the file
/// had one, as `reads_back` says, and the payload it had where it had none.
/// This is stated of archives that list no record twice.
pub proof fn law_rebuilt_image_reads_back(before: Archive, after: Archive, j: int)
    requires
        before.inv(),
        after.inv(),
        loaded_from_rebuild(before, after),
        listed_once(before),
        0 <= j < entries_file_list(before.spec_entries(), before.spec_entries().len()).len(),
    ensures
        j < entries_file_list(after.spec_entries(), after.spec_entries().len()).len(),
        reads_back(
            entries_file_list(before.spec_entries(), before.spec_entries().len())[j],
            entries_file_list(after.spec_entries(), after.spec_entries().len())[j],
            before.spec_provider().spec_raw_archive().spec_game(),
            before.spec_skip_compression(),
        ),
{
    if before.provider.raw_archive is Obscure1 {
        lemma_reads_back_nested(before, after, j);
    } else {
        lemma_lists_alike_flat(before, after);
        let (views, endian) = lemma_reloaded_views(before, after);
        lemma_reads_back_flat(before, after, views, endian, j);
    }
}

} // verus!

verus! {

/// A patch that the plan of a rebuild makes for a file names a payload that
/// lies inside the image that the rebuild writes.
#[verifier::rlimit(50)]
proof fn lemma_patch_fits(before: Archive, image2: Seq<u8>, j: int, stored: Stored)
    requires
        before.inv(),
        rebuilt_image(
            before.provider.raw_archive,
            before.provider.entries_offset as int,
            before.entries@,
            before.options.rebuild_skip_compression,
            0,
        ) == Ok::<Seq<u8>, RebuildFault>(image2),
        0 <= j < entries_file_list(before.entries@, before.entries@.len()).len(),
        holds(
            stored,
            entries_file_list(before.entries@, before.entries@.len())[j],
            before.provider.raw_archive.spec_game(),
            before.provider.bytes@,
        ),
        payload_fits(
            stored.uncompressed_size,
            stored.offset,
            stored.compressed_size,
            before.provider.bytes@.len() as int,
        ),
    ensures
        j < rebuild_patches(before).len(),
        payload_fits(
            patched_stored(stored, rebuild_patches(before)[j].patch).uncompressed_size,
            patched_stored(stored, rebuild_patches(before)[j].patch).offset,
            patched_stored(stored, rebuild_patches(before)[j].patch).compressed_size,
            image2.len() as int,
        ),
{
    let es = before.entries@;
    let f = entries_file_list(es, es.len())[j];
    let game = before.provider.raw_archive.spec_game();
    let skip = before.options.rebuild_skip_compression;
    let off = before.provider.entries_offset as int;
    let lead = padding(game, off);
    let first = off + lead.len();
    let plan = plan_entries(es, es.len(), first, game, skip)->Ok_0;
    let patches = plan.0;
    law_placement(es, first, game, skip, j);
    law_toc_keeps_its_length(before.spec_provider(), patches);
    let toc = crate::archive::toc_after(before.provider.raw_archive, patches);
    assert(image2 == toc + lead + plan.1);
    if f.uncompressed_size != 0 {
        match f.update {
            None => {
                let offset = patches[j].patch->Keep_offset;
                law_kept_payload(f, offset as int, game, skip);
            },
            Some(UpdateKind::Bytes(r)) => {
                law_replacement_in_image(before, 0, j);
            },
            Some(UpdateKind::File(_)) => {},
        }
    }
}

/// A record at whose position no patch stands holds what it held.
pub proof fn lemma_patched_views_elsewhere(
    views: Seq<FlatView>,
    patches: Seq<FilePatch>,
    n: nat,
    i: int,
)
    requires
        n <= patches.len(),
        0 <= i < views.len(),
        forall|j: int| 0 <= j < n ==> (#[trigger] patches[j]).slot != i,
    ensures
        patched_views(views, patches, n).len() == views.len(),
        patched_views(views, patches, n)[i] == views[i],
    decreases n,
{
    if n > 0 {
        lemma_patched_views_elsewhere(views, patches, (n - 1) as nat, i);
        assert(patches[n - 1].slot != i);
    }
    lemma_patched_views_len(views, patches, n);
}

/// Patching keeps the number of records.
pub proof fn lemma_patched_views_len(views: Seq<FlatView>, patches: Seq<FilePatch>, n: nat)
    ensures
        patched_views(views, patches, n).len() == views.len(),
    decreases n,
{
    if n > 0 && n <= patches.len() {
        lemma_patched_views_len(views, patches, (n - 1) as nat);
    }
}

/// The records of the flat table of an archive, with their names; none for
/// the first layout, which has no such table.
pub open spec fn records(archive: Archive) -> Seq<FlatView> {
    match archive.spec_provider().spec_raw_archive() {
        RawArchive::Obscure1(_) => Seq::empty(),
        RawArchive::Obscure2(a) => crate::archive::obscure2::table_views(
            a.spec_entries(),
            archive.spec_names(),
        ),
        RawArchive::FinalExam(a) => crate::archive::final_exam::table_views(
            a.entries@,
            a.names.bytes@,
        ),
    }
}

/// Every record of a file with a payload stands in the listing of `archive`:
/// the directories of the flat table lead from the root to each of them.
pub open spec fn every_file_listed(archive: Archive) -> bool {
    forall|i: int|
        0 <= i < records(archive).len() && (#[trigger] records(archive)[i]).link is None
            && records(archive)[i].uncompressed_size != 0 ==> exists|j: int|
            0 <= j < entries_file_list(archive.spec_entries(), archive.spec_entries().len()).len()
                && (#[trigger] entries_file_list(
                archive.spec_entries(),
                archive.spec_entries().len(),
            )[j]).slot == i
}

/// The CRC32 that a rebuild of `archive` writes into the header of a flat
/// table; one for the first layout, whose reader accepts every CRC32.
pub open spec fn rebuilt_crc32(archive: Archive) -> u32 {
    let patches = rebuild_patches(archive);
    match archive.spec_provider().spec_raw_archive() {
        RawArchive::Obscure1(_) => 1,
        RawArchive::Obscure2(a) => crate::structures::common::crc32_ieee(
            crate::structures::obscure2::entries_bytes(
                crate::archive::obscure2::patched_table(a.spec_entries(), patches, patches.len()),
                a.spec_endian(),
            ),
        ),
        RawArchive::FinalExam(a) => crate::structures::common::crc32_ieee(
            crate::structures::final_exam::entries_bytes(
                crate::archive::final_exam::patched_table(a.entries@, patches, patches.len()),
                a.header.endian,
            ),
        ),
    }
}

/// A flat layout: every record of the patched table names a payload inside
/// the rebuilt image.
#[verifier::rlimit(50)]
proof fn lemma_patched_views_fit(before: Archive, image2: Seq<u8>, endian: Endian, i: int)
    requires
        before.inv(),
        rebuilt_image(
            before.provider.raw_archive,
            before.provider.entries_offset as int,
            before.entries@,
            before.options.rebuild_skip_compression,
            0,
        ) == Ok::<Seq<u8>, RebuildFault>(image2),
        !(before.provider.raw_archive is Obscure1),
        listed_once(before),
        every_file_listed(before),
        nodes_fit(records(before), before.provider.bytes@.len() as int),
        range_mirrors(
            records(before),
            1,
            before.entries@,
            before.entries@.len(),
            endian,
            before.provider.bytes@,
        ),
        0 <= i < records(before).len(),
    ensures
        patched_views(records(before), rebuild_patches(before), rebuild_patches(before).len()).len()
            == records(before).len(),
        node_fits(
            patched_views(records(before), rebuild_patches(before), rebuild_patches(before).len())[i],
            image2.len() as int,
        ),
{
    let views = records(before);
    let es = before.entries@;
    let files = entries_file_list(es, es.len());
    let patches = rebuild_patches(before);
    let game = before.provider.raw_archive.spec_game();
    let skip = before.options.rebuild_skip_compression;
    let off = before.provider.entries_offset as int;
    let first = off + padding(game, off).len();
    let at = slots(files);
    let image = before.provider.bytes@;
    lemma_patched_views_len(views, patches, patches.len());
    assert(node_fits(views[i], image.len() as int));
    if files.len() > 0 {
        law_placement(es, first, game, skip, 0);
    } else {
        crate::archive::laws::lemma_plan_len_entries(es, es.len(), first, game, skip);
    }
    assert(patches_at(patches, at)) by {
        assert forall|k: int| 0 <= k < patches.len() implies (#[trigger] patches[k]).slot
            == at[k] by {
            law_placement(es, first, game, skip, k);
        }
    }
    if exists|j: int| 0 <= j < files.len() && (#[trigger] files[j]).slot == i {
        let j = choose|j: int| 0 <= j < files.len() && (#[trigger] files[j]).slot == i;
        assert(at[j] == i);
        lemma_patched_views_at(views, patches, at, patches.len(), j);
        lemma_listed_files_mirror(views, 1, es, es.len(), endian, image, j);
        assert(codec_of(game) == CompressionType::Lzo);
        lemma_patch_fits(before, image2, j, stored_of(views[i]));
        assert(stored_of(patched_view(views[i], patches[j].patch)) == patched_stored(
            stored_of(views[i]),
            patches[j].patch,
        ));
    } else {
        assert forall|j: int| 0 <= j < patches.len() implies (#[trigger] patches[j]).slot != i by {
            assert(at[j] == files[j].slot);
        }
        lemma_patched_views_elsewhere(views, patches, patches.len(), i);
    }
}

} // verus!

verus! {

/// The second layout: the image that a rebuild writes can be loaded.
#[verifier::rlimit(50)]
proof fn lemma_loads_obscure2(before: Archive, image2: Seq<u8>, endian: Endian)
    requires
        before.inv(),
        rebuilt_image(
            before.provider.raw_archive,
            before.provider.entries_offset as int,
            before.entries@,
            before.options.rebuild_skip_compression,
            0,
        ) == Ok::<Seq<u8>, RebuildFault>(image2),
        before.provider.raw_archive is Obscure2,
        listed_once(before),
        every_file_listed(before),
        rebuilt_crc32(before) != 0,
    ensures
        load_error(image2, Some(Game::Obscure2), endian) is None,
{
    reveal(RawArchive::decoded_from);
    let a = before.provider.raw_archive->Obscure2_0;
    let names = before.options.obscure2_names.names();
    let off = before.provider.entries_offset as int;
    let lead = padding(Game::Obscure2, off);
    let plan = plan_entries(
        before.entries@,
        before.entries@.len(),
        off + lead.len(),
        Game::Obscure2,
        before.options.rebuild_skip_compression,
    )->Ok_0;
    let patches = plan.0;
    let table = crate::archive::obscure2::patched_table(a.spec_entries(), patches, patches.len());
    let toc = crate::archive::obscure2::rebuilt_toc(a, patches);
    let rest = lead + plan.1;
    assert(image2 =~= toc + rest);
    crate::archive::obscure2::law_rebuilt_toc_parses(a, patches, rest);
    crate::archive::obscure2::lemma_table_views(
        a.spec_entries(),
        names,
        before.provider.bytes@.len() as int,
    );
    lemma_patched_views_obscure2(a.spec_entries(), names, patches, patches.len());
    crate::archive::obscure2::lemma_patched_table(a.spec_entries(), patches, patches.len());
    assert forall|i: int| 0 <= i < table.len() implies crate::provider::obscure2_entry_fits(
        #[trigger] table[i],
        image2.len() as int,
    ) by {
        lemma_patched_views_fit(before, image2, a.spec_endian(), i);
        assert(crate::archive::obscure2::table_views(table, names)[i]
            == crate::archive::obscure2::record_view(table[i], names));
    }
}

/// The third layout: the image that a rebuild writes can be loaded.
#[verifier::rlimit(50)]
proof fn lemma_loads_final_exam(before: Archive, image2: Seq<u8>, endian: Endian)
    requires
        before.inv(),
        rebuilt_image(
            before.provider.raw_archive,
            before.provider.entries_offset as int,
            before.entries@,
            before.options.rebuild_skip_compression,
            0,
        ) == Ok::<Seq<u8>, RebuildFault>(image2),
        before.provider.raw_archive is FinalExam,
        listed_once(before),
        every_file_listed(before),
        rebuilt_crc32(before) != 0,
    ensures
        load_error(image2, Some(Game::FinalExam), endian) is None,
{
    reveal(RawArchive::decoded_from);
    let a = before.provider.raw_archive->FinalExam_0;
    let names = a.names.bytes@;
    let off = before.provider.entries_offset as int;
    let lead = padding(Game::FinalExam, off);
    let plan = plan_entries(
        before.entries@,
        before.entries@.len(),
        off + lead.len(),
        Game::FinalExam,
        before.options.rebuild_skip_compression,
    )->Ok_0;
    let patches = plan.0;
    let table = crate::archive::final_exam::patched_table(a.entries@, patches, patches.len());
    let toc = crate::archive::final_exam::rebuilt_toc(a, patches);
    let rest = lead + plan.1;
    assert(image2 =~= toc + rest);
    crate::archive::final_exam::law_rebuilt_toc_parses(a, patches, rest);
    crate::archive::final_exam::lemma_table_views(
        a.entries@,
        names,
        before.provider.bytes@.len() as int,
    );
    lemma_patched_views_final_exam(a.entries@, names, patches, patches.len());
    crate::archive::final_exam::lemma_patched_table(a.entries@, patches, patches.len());
    assert forall|i: int| 0 <= i < table.len() implies crate::provider::final_exam_entry_fits(
        #[trigger] table[i],
        image2.len() as int,
    ) by {
        lemma_patched_views_fit(before, image2, a.header.endian, i);
        assert(crate::archive::final_exam::table_views(table, names)[i]
            == crate::archive::final_exam::record_view(table[i], names));
    }
}

} // verus!

verus! {

/// The first layout: the image that a rebuild writes can be loaded, in the
/// byte order of the archive that was rebuilt.
#[verifier::rlimit(50)]
proof fn lemma_loads_nested(before: Archive, image2: Seq<u8>)
    requires
        before.inv(),
        rebuilt_image(
            before.provider.raw_archive,
            before.provider.entries_offset as int,
            before.entries@,
            before.options.rebuild_skip_compression,
            0,
        ) == Ok::<Seq<u8>, RebuildFault>(image2),
        before.provider.raw_archive is Obscure1,
    ensures
        load_error(
            image2,
            Some(Game::Obscure1),
            before.provider.raw_archive->Obscure1_0.endian,
        ) is None,
{
    reveal(RawArchive::decoded_from);
    let a = before.provider.raw_archive->Obscure1_0;
    let endian = a.endian;
    let es = before.entries@;
    let files = entries_file_list(es, es.len());
    let skip = before.options.rebuild_skip_compression;
    let off = before.provider.entries_offset as int;
    let lead = padding(Game::Obscure1, off);
    let first = off + lead.len();
    let plan = plan_entries(es, es.len(), first, Game::Obscure1, skip)->Ok_0;
    let patches = plan.0;
    let image = before.provider.bytes@;
    let limit = image2.len() as int;
    let toc = crate::archive::obscure1::rebuilt_toc(a, patches);
    let tree = crate::archive::obscure1::patched_tree_bytes(a.entries@, patches, endian);
    let sums = match a.checksums {
        Some(_) => Some(
            obscure1::Crc32 {
                header: crate::structures::common::crc32_ieee(a.header.spec_bytes(endian)),
                entries: crate::structures::common::crc32_ieee(tree),
            },
        ),
        None => None,
    };
    let head = a.header.spec_bytes(endian);
    let pair = obscure1::checksums_bytes(sums, endian);
    let start = (32 + pair.len()) as int;
    let end = toc.len() as int;
    obscure1::lemma_header_len(a.header, sums, endian);
    assert(image2 == toc + lead + plan.1);
    assert(toc == head + pair + tree);
    assert(image2.subrange(0, end) =~= head + pair + tree);
    lemma_split_at(image2, 0, head + pair, tree, end);
    lemma_split_at(image2, 0, head, pair, start);
    obscure1::lemma_header_fields(image2, a.header, endian);
    crate::archive::nested_reload::lemma_scan_patched_entries(
        image2,
        start,
        a.entries@,
        0,
        patches,
        0,
        endian,
    );
    crate::archive::laws::lemma_plan_len_entries(es, es.len(), first, Game::Obscure1, skip);
    assert forall|j: int| 0 <= j < files.len() implies crate::archive::nested_reload::patch_keeps_inside(
        #[trigger] files[j],
        crate::archive::obscure1::patch_at(patches, 0 + j),
        image,
        limit,
    ) by {
        assert forall|stored: Stored| #[trigger]
            holds(stored, files[j], Game::Obscure1, image) && payload_fits(
                stored.uncompressed_size,
                stored.offset,
                stored.compressed_size,
                image.len() as int,
            ) implies payload_fits(
            patched_stored(stored, patches[j].patch).uncompressed_size,
            patched_stored(stored, patches[j].patch).offset,
            patched_stored(stored, patches[j].patch).compressed_size,
            limit,
        ) by {
            lemma_patch_fits(before, image2, j, stored);
        }
    }
    crate::archive::nested_reload::lemma_patched_entries_fit(
        a.entries@,
        es,
        es.len(),
        patches,
        0,
        endian,
        image,
        limit,
    );
    match sums {
        Some(c) => {
            crate::structures::common::lemma_u32_round_trip(image2, 0, c.header, endian);
            crate::structures::common::lemma_u32_round_trip(image2, 0, c.entries, endian);
            lemma_split_at(
                image2,
                32,
                crate::structures::common::u32_bytes(c.header, endian),
                crate::structures::common::u32_bytes(c.entries, endian),
                40,
            );
            crate::structures::common::lemma_u32_at_bytes(image2, 36, c.entries, endian);
        },
        None => {},
    }
    reveal(obscure1::scan_archive);
    assert(obscure1::scan_archive(image2, endian) == Ok::<
        (int, bool),
        crate::structures::common::CodecError,
    >((end, true)));
}

/// Replacement fidelity, the image: the image that a rebuild writes into an
/// empty sink can be loaded again in the layout of the archive, and in its
/// byte order where the layout does not announce its own, whatever
/// replacements the files had.  This is stated of archives whose flat table
/// has every file with a payload in the listing, once, and leaves out the
/// rebuilds after which the CRC32 of the records of a flat table is zero,
/// which no reader of these layouts accepts.
pub proof fn law_rebuilt_image_loads(before: Archive, endian: Endian)
    requires
        before.inv(),
        rebuilt_image(
            before.spec_provider().spec_raw_archive(),
            before.spec_provider().spec_entries_offset(),
            before.spec_entries(),
            before.spec_skip_compression(),
            0,
        ) is Ok,
        listed_once(before),
        every_file_listed(before),
        rebuilt_crc32(before) != 0,
        before.spec_provider().spec_raw_archive() matches RawArchive::Obscure1(a) ==> a.endian
            == endian,
    ensures
        load_error(
            rebuilt_image(
                before.spec_provider().spec_raw_archive(),
                before.spec_provider().spec_entries_offset(),
                before.spec_entries(),
                before.spec_skip_compression(),
                0,
            )->Ok_0,
            Some(before.spec_provider().spec_raw_archive().spec_game()),
            endian,
        ) is None,
{
    let image2 = rebuilt_image(
        before.provider.raw_archive,
        before.provider.entries_offset as int,
        before.entries@,
        before.options.rebuild_skip_compression,
        0,
    )->Ok_0;
    match before.provider.raw_archive {
        RawArchive::Obscure1(_) => lemma_loads_nested(before, image2),
        RawArchive::Obscure2(_) => lemma_loads_obscure2(before, image2, endian),
        RawArchive::FinalExam(_) => lemma_loads_final_exam(before, image2, endian),
    }
}

} // verus!
