//! Rebuilding an archive that was loaded and not touched gives back the
//! image it was loaded from, provided that the image keeps its payloads in
//! the order of the listing, one after the other behind the table of
//! contents.

use vstd::prelude::*;

use crate::archive::entry::{
    entries_files, entries_untouched, entry_files, entry_untouched, Entry,
};
use crate::archive::flat::{node_fits, node_mirrors, nodes_fit, range_mirrors, FlatView};
use crate::archive::obscure1::{
    entries_mirror, entry_mirrors, file_entry_bytes, patch_at, patched_entries_bytes,
    patched_entry_bytes, patched_file,
};
use crate::archive::rebuild::{
    file_step, padding, plan_entries, plan_entry, FilePatch, Patch,
};
use crate::archive::error::RebuildFault;
use crate::archive::{model_mirrors, rebuilt_image, Archive};
use crate::provider::RawArchive;
use crate::structures::common::{crc32_ieee, Endian};
use crate::structures::obscure1;
use crate::Game;

verus! {

/// Where the payloads of the files below and including `raw` end if they
/// follow one another from `cursor` on in the order of the listing; nothing if
/// one of them lies elsewhere.
pub open spec fn entry_laid_out(raw: obscure1::Entry, cursor: int) -> Option<int>
    decreases raw,
{
    match raw.kind {
        obscure1::EntryKind::File(f) => if f.uncompressed_size == 0 {
            Some(cursor)
        } else if f.offset == cursor {
            Some(cursor + f.compressed_size)
        } else {
            None
        },
        obscure1::EntryKind::Dir(d) => entries_laid_out(d.entries@, d.entries@.len(), cursor),
    }
}

/// Where the payloads of the files below and including the first `n` of
/// `raws` end if they follow one another from `cursor` on.
pub open spec fn entries_laid_out(raws: Seq<obscure1::Entry>, n: nat, cursor: int) -> Option<int>
    decreases raws, n,
{
    if n == 0 || n > raws.len() {
        Some(cursor)
    } else {
        match entries_laid_out(raws, (n - 1) as nat, cursor) {
            None => None,
            Some(c) => entry_laid_out(raws[n - 1], c),
        }
    }
}

/// Payloads that follow one another end no earlier than they start.
pub proof fn lemma_laid_out_grows(raw: obscure1::Entry, cursor: int)
    requires
        entry_laid_out(raw, cursor) is Some,
    ensures
        entry_laid_out(raw, cursor)->Some_0 >= cursor,
    decreases raw,
{
    match raw.kind {
        obscure1::EntryKind::File(_) => {},
        obscure1::EntryKind::Dir(d) => {
            lemma_laid_out_grow(d.entries@, d.entries@.len(), cursor);
        },
    }
}

/// Payloads that follow one another end no earlier than they start.
pub proof fn lemma_laid_out_grow(raws: Seq<obscure1::Entry>, n: nat, cursor: int)
    requires
        n <= raws.len(),
        entries_laid_out(raws, n, cursor) is Some,
    ensures
        entries_laid_out(raws, n, cursor)->Some_0 >= cursor,
    decreases raws, n,
{
    if n > 0 {
        lemma_laid_out_grow(raws, (n - 1) as nat, cursor);
        lemma_laid_out_grows(raws[n - 1], entries_laid_out(raws, (n - 1) as nat, cursor)->Some_0);
    }
}

/// The plan of an untouched model of payloads that follow one another keeps
/// every payload where it is: it appends the bytes that the image holds there.
pub proof fn lemma_plan_entry(
    raw: obscure1::Entry,
    e: Entry,
    endian: Endian,
    image: Seq<u8>,
    cursor: int,
    skip: bool,
)
    requires
        entry_mirrors(raw, e, endian, image),
        entry_untouched(e),
        obscure1::entry_fits(raw, image.len() as int),
        0 <= cursor <= image.len(),
        entry_laid_out(raw, cursor) is Some,
        image.len() + 3 <= u32::MAX,
    ensures
        entry_laid_out(raw, cursor)->Some_0 <= image.len(),
        plan_entry(e, cursor, Game::Obscure1, skip) matches Ok((patches, bytes)) && bytes
            == image.subrange(cursor, entry_laid_out(raw, cursor)->Some_0) && patches.len()
            == entry_files(e),
    decreases raw,
{
    match raw.kind {
        obscure1::EntryKind::File(rf) => {
            let f = e->File_0;
            if rf.uncompressed_size == 0 {
                assert(image.subrange(cursor, cursor) =~= Seq::<u8>::empty());
            } else {
                assert(f.raw_bytes@ + padding(Game::Obscure1, cursor + f.raw_bytes@.len())
                    =~= image.subrange(cursor, cursor + rf.compressed_size));
            }
        },
        obscure1::EntryKind::Dir(rd) => {
            lemma_plan_entries(
                rd.entries@,
                e->Dir_0.entries@,
                rd.entries@.len(),
                endian,
                image,
                cursor,
                skip,
            );
        },
    }
}

/// The plan of an untouched list of the model of payloads that follow one
/// another appends the bytes that the image holds there.
#[verifier::rlimit(50)]
pub proof fn lemma_plan_entries(
    raws: Seq<obscure1::Entry>,
    es: Seq<Entry>,
    n: nat,
    endian: Endian,
    image: Seq<u8>,
    cursor: int,
    skip: bool,
)
    requires
        n <= raws.len(),
        n <= es.len(),
        entries_mirror(raws, es, n, endian, image),
        entries_untouched(es, n),
        obscure1::entries_fit(raws, n, image.len() as int),
        0 <= cursor <= image.len(),
        entries_laid_out(raws, n, cursor) is Some,
        image.len() + 3 <= u32::MAX,
    ensures
        entries_laid_out(raws, n, cursor)->Some_0 <= image.len(),
        plan_entries(es, n, cursor, Game::Obscure1, skip) matches Ok((patches, bytes)) && bytes
            == image.subrange(cursor, entries_laid_out(raws, n, cursor)->Some_0) && patches.len()
            == entries_files(es, n),
    decreases raws, n,
{
    if n == 0 {
        assert(image.subrange(cursor, cursor) =~= Seq::<u8>::empty());
    } else {
        let m = (n - 1) as nat;
        lemma_plan_entries(raws, es, m, endian, image, cursor, skip);
        lemma_laid_out_grow(raws, m, cursor);
        let mid = entries_laid_out(raws, m, cursor)->Some_0;
        lemma_plan_entry(raws[n - 1], es[n - 1], endian, image, mid, skip);
        lemma_laid_out_grows(raws[n - 1], mid);
        let end = entry_laid_out(raws[n - 1], mid)->Some_0;
        assert(image.subrange(cursor, mid) + image.subrange(mid, end) =~= image.subrange(
            cursor,
            end,
        ));
    }
}

/// Patching the table of contents with the plan of an untouched model of
/// payloads that follow one another changes nothing: every record says what it
/// said.  The patches of the plan are those from number `k` on of `all`.
pub proof fn lemma_patch_entry(
    raw: obscure1::Entry,
    e: Entry,
    endian: Endian,
    image: Seq<u8>,
    cursor: int,
    skip: bool,
    all: Seq<FilePatch>,
    k: int,
)
    requires
        entry_mirrors(raw, e, endian, image),
        entry_untouched(e),
        obscure1::entry_fits(raw, image.len() as int),
        0 <= cursor <= image.len(),
        entry_laid_out(raw, cursor) is Some,
        image.len() + 3 <= u32::MAX,
        0 <= k,
        k + entry_files(e) <= all.len(),
        plan_entry(e, cursor, Game::Obscure1, skip) is Ok,
        all.subrange(k, k + entry_files(e)) == plan_entry(e, cursor, Game::Obscure1, skip)->Ok_0.0,
    ensures
        patched_entry_bytes(raw, all, k, endian) == (
            obscure1::entry_bytes(raw, endian),
            k + entry_files(e),
        ),
    decreases raw,
{
    match raw.kind {
        obscure1::EntryKind::File(rf) => {
            let f = e->File_0;
            let step = file_step(f, cursor, Game::Obscure1, skip)->Ok_0;
            assert(all.subrange(k, k + 1)[0] == all[k]);
            assert(all[k].patch == step.0);
            assert(patched_file(rf, patch_at(all, k)) == rf);
        },
        obscure1::EntryKind::Dir(rd) => {
            lemma_patch_entries(
                rd.entries@,
                e->Dir_0.entries@,
                rd.entries@.len(),
                endian,
                image,
                cursor,
                skip,
                all,
                k,
            );
        },
    }
}

/// Patching a list of the table of contents with the plan of an untouched
/// model of payloads that follow one another changes nothing.
#[verifier::rlimit(50)]
pub proof fn lemma_patch_entries(
    raws: Seq<obscure1::Entry>,
    es: Seq<Entry>,
    n: nat,
    endian: Endian,
    image: Seq<u8>,
    cursor: int,
    skip: bool,
    all: Seq<FilePatch>,
    k: int,
)
    requires
        n <= raws.len(),
        n <= es.len(),
        entries_mirror(raws, es, n, endian, image),
        entries_untouched(es, n),
        obscure1::entries_fit(raws, n, image.len() as int),
        0 <= cursor <= image.len(),
        entries_laid_out(raws, n, cursor) is Some,
        image.len() + 3 <= u32::MAX,
        0 <= k,
        k + entries_files(es, n) <= all.len(),
        plan_entries(es, n, cursor, Game::Obscure1, skip) is Ok,
        all.subrange(k, k + entries_files(es, n)) == plan_entries(
            es,
            n,
            cursor,
            Game::Obscure1,
            skip,
        )->Ok_0.0,
    ensures
        patched_entries_bytes(raws, n, all, k, endian) == (
            obscure1::entries_bytes(raws, n, endian),
            k + entries_files(es, n),
        ),
    decreases raws, n,
{
    if n > 0 {
        let m = (n - 1) as nat;
        lemma_plan_entries(raws, es, m, endian, image, cursor, skip);
        lemma_laid_out_grow(raws, m, cursor);
        let mid = entries_laid_out(raws, m, cursor)->Some_0;
        lemma_plan_entry(raws[n - 1], es[n - 1], endian, image, mid, skip);
        let first = plan_entries(es, m, cursor, Game::Obscure1, skip)->Ok_0;
        let last = plan_entry(es[n - 1], mid, Game::Obscure1, skip)->Ok_0;
        let whole = plan_entries(es, n, cursor, Game::Obscure1, skip)->Ok_0;
        assert(first.1.len() == mid - cursor);
        assert(whole.0 == first.0 + last.0);
        let files = entries_files(es, m);
        assert(all.subrange(k, k + files) =~= first.0) by {
            assert(all.subrange(k, k + files) =~= all.subrange(k, k + entries_files(es, n)).subrange(
                0,
                files as int,
            ));
        }
        assert(all.subrange(k + files, k + files + entry_files(es[n - 1])) =~= last.0) by {
            assert(all.subrange(k + files, k + files + entry_files(es[n - 1])) =~= all.subrange(
                k,
                k + entries_files(es, n),
            ).subrange(files as int, (files + entry_files(es[n - 1])) as int));
        }
        lemma_patch_entries(raws, es, m, endian, image, cursor, skip, all, k);
        lemma_patch_entry(raws[n - 1], es[n - 1], endian, image, mid, skip, all, k + files);
    }
}

} // verus!

verus! {

/// The image holds, from `at` on, the zero bytes that bring `at` to a
/// multiple of four, where the layout asks for that.
pub open spec fn padded(game: Game, at: int, image: Seq<u8>) -> bool {
    at + padding(game, at).len() <= image.len() && image.subrange(
        at,
        at + padding(game, at).len(),
    ) == padding(game, at)
}

/// Where the payloads of the files below and including record `i` end if
/// they follow one another from `cursor` on in the order of the listing, each
/// with its padding; nothing if one of them lies elsewhere, or if directories
/// nest more than `depth` deep below the record.
pub open spec fn node_laid_out(
    nodes: Seq<FlatView>,
    i: int,
    cursor: int,
    game: Game,
    image: Seq<u8>,
    depth: nat,
) -> Option<int>
    decreases depth, 0int,
{
    if 0 <= i < nodes.len() {
        match nodes[i].link {
            None => if nodes[i].uncompressed_size == 0 {
                Some(cursor)
            } else if nodes[i].offset == cursor && padded(
                game,
                cursor + nodes[i].compressed_size,
                image,
            ) {
                Some(
                    cursor + nodes[i].compressed_size + padding(
                        game,
                        cursor + nodes[i].compressed_size,
                    ).len(),
                )
            } else {
                None
            },
            Some((index, count)) => if depth > 0 && index + count <= nodes.len() {
                range_laid_out(
                    nodes,
                    index as int,
                    count as nat,
                    cursor,
                    game,
                    image,
                    (depth - 1) as nat,
                )
            } else {
                None
            },
        }
    } else {
        None
    }
}

/// Where the payloads of the files below and including the `n` records from
/// `from` on end if they follow one another from `cursor` on.
pub open spec fn range_laid_out(
    nodes: Seq<FlatView>,
    from: int,
    n: nat,
    cursor: int,
    game: Game,
    image: Seq<u8>,
    depth: nat,
) -> Option<int>
    decreases depth, n + 1,
{
    if n == 0 {
        Some(cursor)
    } else if from < 0 || from + n > nodes.len() {
        None
    } else {
        match range_laid_out(nodes, from, (n - 1) as nat, cursor, game, image, depth) {
            None => None,
            Some(c) => node_laid_out(nodes, from + n - 1, c, game, image, depth),
        }
    }
}

/// The patch leaves the record it is for as it is: it is for the record of a
/// file, and skips it or keeps its payload where it is.
pub open spec fn neutral(nodes: Seq<FlatView>, p: FilePatch) -> bool {
    &&& p.slot < nodes.len()
    &&& nodes[p.slot as int].link is None
    &&& p.patch is Skip || p.patch == (Patch::Keep { offset: nodes[p.slot as int].offset })
}

/// Every patch leaves the record it is for as it is.
pub open spec fn all_neutral(nodes: Seq<FlatView>, patches: Seq<FilePatch>) -> bool {
    forall|j: int| 0 <= j < patches.len() ==> neutral(nodes, #[trigger] patches[j])
}

/// The plan of an untouched model of payloads that follow one another keeps
/// every payload where it is.
#[verifier::rlimit(50)]
pub proof fn lemma_plan_node(
    nodes: Seq<FlatView>,
    i: int,
    e: Entry,
    endian: Endian,
    image: Seq<u8>,
    cursor: int,
    game: Game,
    skip: bool,
    depth: nat,
)
    requires
        node_mirrors(nodes, i, e, endian, image),
        entry_untouched(e),
        nodes_fit(nodes, image.len() as int),
        0 <= cursor <= image.len(),
        node_laid_out(nodes, i, cursor, game, image, depth) is Some,
        image.len() + 3 <= u32::MAX,
    ensures
        cursor <= node_laid_out(nodes, i, cursor, game, image, depth)->Some_0 <= image.len(),
        plan_entry(e, cursor, game, skip) matches Ok((patches, bytes)) && bytes == image.subrange(
            cursor,
            node_laid_out(nodes, i, cursor, game, image, depth)->Some_0,
        ) && all_neutral(nodes, patches),
    decreases e,
{
    match nodes[i].link {
        None => {
            let f = e->File_0;
            let node = nodes[i];
            assert(node_fits(node, image.len() as int));
            if node.uncompressed_size == 0 {
                assert(image.subrange(cursor, cursor) =~= Seq::<u8>::empty());
                let patches = plan_entry(e, cursor, game, skip)->Ok_0.0;
                assert(patches[0] == FilePatch { slot: f.slot, patch: Patch::Skip });
            } else {
                let mid = cursor + node.compressed_size;
                let end = mid + padding(game, mid).len();
                assert(f.raw_bytes@ + padding(game, cursor + f.raw_bytes@.len())
                    =~= image.subrange(cursor, mid) + image.subrange(mid, end));
                assert(image.subrange(cursor, mid) + image.subrange(mid, end) =~= image.subrange(
                    cursor,
                    end,
                ));
                let patches = plan_entry(e, cursor, game, skip)->Ok_0.0;
                assert(patches[0] == FilePatch {
                    slot: f.slot,
                    patch: Patch::Keep { offset: cursor as u32 },
                });
            }
        },
        Some((index, count)) => {
            lemma_plan_range(
                nodes,
                index as int,
                e->Dir_0.entries@,
                count as nat,
                endian,
                image,
                cursor,
                game,
                skip,
                (depth - 1) as nat,
            );
        },
    }
}

/// The plan of an untouched list of the model of payloads that follow one
/// another keeps every payload where it is.
#[verifier::rlimit(50)]
pub proof fn lemma_plan_range(
    nodes: Seq<FlatView>,
    from: int,
    es: Seq<Entry>,
    n: nat,
    endian: Endian,
    image: Seq<u8>,
    cursor: int,
    game: Game,
    skip: bool,
    depth: nat,
)
    requires
        n <= es.len(),
        range_mirrors(nodes, from, es, n, endian, image),
        entries_untouched(es, n),
        nodes_fit(nodes, image.len() as int),
        0 <= cursor <= image.len(),
        range_laid_out(nodes, from, n, cursor, game, image, depth) is Some,
        image.len() + 3 <= u32::MAX,
    ensures
        cursor <= range_laid_out(nodes, from, n, cursor, game, image, depth)->Some_0
            <= image.len(),
        plan_entries(es, n, cursor, game, skip) matches Ok((patches, bytes)) && bytes
            == image.subrange(
            cursor,
            range_laid_out(nodes, from, n, cursor, game, image, depth)->Some_0,
        ) && all_neutral(nodes, patches),
    decreases es, n,
{
    if n == 0 {
        assert(image.subrange(cursor, cursor) =~= Seq::<u8>::empty());
    } else {
        let m = (n - 1) as nat;
        lemma_plan_range(nodes, from, es, m, endian, image, cursor, game, skip, depth);
        let mid = range_laid_out(nodes, from, m, cursor, game, image, depth)->Some_0;
        lemma_plan_node(nodes, from + n - 1, es[n - 1], endian, image, mid, game, skip, depth);
        let end = node_laid_out(nodes, from + n - 1, mid, game, image, depth)->Some_0;
        assert(image.subrange(cursor, mid) + image.subrange(mid, end) =~= image.subrange(
            cursor,
            end,
        ));
    }
}

} // verus!

verus! {

/// Patches that leave every record as it is leave the table of the second
/// layout as it is.
pub proof fn lemma_neutral_obscure2(
    table: Seq<crate::structures::obscure2::Entry>,
    names: Map<u32, Seq<char>>,
    patches: Seq<FilePatch>,
    n: nat,
)
    requires
        n <= patches.len(),
        all_neutral(crate::archive::obscure2::table_views(table, names), patches),
    ensures
        crate::archive::obscure2::patched_table(table, patches, n) == table,
    decreases n,
{
    if n > 0 {
        lemma_neutral_obscure2(table, names, patches, (n - 1) as nat);
        let p = patches[n - 1];
        let views = crate::archive::obscure2::table_views(table, names);
        assert(neutral(views, p));
        assert(views[p.slot as int] == crate::archive::obscure2::record_view(
            table[p.slot as int],
            names,
        ));
        assert(crate::archive::obscure2::patched_record(table[p.slot as int], p.patch)
            == table[p.slot as int]);
        assert(table.update(p.slot as int, table[p.slot as int]) =~= table);
    }
}

/// Patches that leave every record as it is leave the table of the third
/// layout as it is.
pub proof fn lemma_neutral_final_exam(
    table: Seq<crate::structures::final_exam::Entry>,
    names: Seq<u8>,
    patches: Seq<FilePatch>,
    n: nat,
)
    requires
        n <= patches.len(),
        all_neutral(crate::archive::final_exam::table_views(table, names), patches),
    ensures
        crate::archive::final_exam::patched_table(table, patches, n) == table,
    decreases n,
{
    if n > 0 {
        lemma_neutral_final_exam(table, names, patches, (n - 1) as nat);
        let p = patches[n - 1];
        let views = crate::archive::final_exam::table_views(table, names);
        assert(neutral(views, p));
        assert(views[p.slot as int] == crate::archive::final_exam::record_view(
            table[p.slot as int],
            names,
        ));
        assert(crate::archive::final_exam::patched_record(table[p.slot as int], p.patch)
            == table[p.slot as int]);
        assert(table.update(p.slot as int, table[p.slot as int]) =~= table);
    }
}

/// The image keeps its payloads in the order of the listing, one after the
/// other from the end of the table of contents to the end of the image, each
/// at the position that the table of contents records, padded where the layout
/// asks for that; and the table of contents records the CRC32s of its own
/// bytes.  A rebuild writes images of this kind.
pub open spec fn follows_listing(
    raw: RawArchive,
    entries_offset: int,
    image: Seq<u8>,
    names: Map<u32, Seq<char>>,
) -> bool {
    match raw {
        RawArchive::Obscure1(a) => {
            &&& entries_laid_out(a.entries@, a.entries@.len(), entries_offset) == Some(
                image.len() as int,
            )
            &&& a.checksums matches Some(c) ==> c.header == crc32_ieee(
                a.header.spec_bytes(a.endian),
            )
        },
        RawArchive::Obscure2(a) => {
            &&& range_laid_out(
                crate::archive::obscure2::table_views(a.spec_entries(), names),
                1,
                a.spec_entries()[0].kind->Directory_0.count as nat,
                entries_offset,
                Game::Obscure2,
                image,
                a.spec_entries().len(),
            ) == Some(image.len() as int)
            &&& a.spec_header().entries_crc32 == crc32_ieee(
                crate::structures::obscure2::entries_bytes(a.spec_entries(), a.spec_endian()),
            )
        },
        RawArchive::FinalExam(a) => {
            &&& padded(Game::FinalExam, entries_offset, image)
            &&& range_laid_out(
                crate::archive::final_exam::table_views(a.entries@, a.names.bytes@),
                1,
                a.entries@[0].kind->Directory_0.count as nat,
                entries_offset + padding(Game::FinalExam, entries_offset).len(),
                Game::FinalExam,
                image,
                a.entries@.len(),
            ) == Some(image.len() as int)
        },
    }
}

/// Round trip for the first layout.
#[verifier::rlimit(50)]
proof fn lemma_round_trip_obscure1(
    a: obscure1::HvpArchive,
    es: Seq<Entry>,
    image: Seq<u8>,
    off: int,
    skip: bool,
)
    requires
        0 <= off <= image.len(),
        a.spec_bytes() == image.subrange(0, off),
        a.wf(),
        obscure1::entries_fit(a.entries@, a.entries@.len(), image.len() as int),
        es.len() == a.entries@.len(),
        entries_mirror(a.entries@, es, es.len(), a.endian, image),
        entries_untouched(es, es.len()),
        follows_listing(RawArchive::Obscure1(a), off, image, Map::empty()),
        image.len() + 3 <= u32::MAX,
    ensures
        rebuilt_image(RawArchive::Obscure1(a), off, es, skip, 0) == Ok::<Seq<u8>, RebuildFault>(
            image,
        ),
{
    let n = es.len();
    let limit = image.len() as int;
    lemma_plan_entries(a.entries@, es, n, a.endian, image, off, skip);
    let plan = plan_entries(es, n, off, Game::Obscure1, skip)->Ok_0;
    assert(plan.0.subrange(0, plan.0.len() as int) =~= plan.0);
    lemma_patch_entries(a.entries@, es, n, a.endian, image, off, skip, plan.0, 0);
    let lead = padding(Game::Obscure1, off);
    assert(lead =~= Seq::<u8>::empty());
    let toc = crate::archive::obscure1::rebuilt_toc(a, plan.0);
    assert(toc == a.spec_bytes());
    assert(toc + lead + plan.1 =~= image);
}

/// Round trip for the second layout.
#[verifier::rlimit(50)]
proof fn lemma_round_trip_obscure2(
    a: crate::structures::obscure2::HvpArchive,
    es: Seq<Entry>,
    image: Seq<u8>,
    off: int,
    skip: bool,
    names: Map<u32, Seq<char>>,
)
    requires
        0 <= off <= image.len(),
        RawArchive::Obscure2(a).decoded_from(image, off),
        RawArchive::Obscure2(a).entries_fit(image.len() as int),
        model_mirrors(RawArchive::Obscure2(a), es, image, names),
        entries_untouched(es, es.len()),
        follows_listing(RawArchive::Obscure2(a), off, image, names),
        image.len() + 3 <= u32::MAX,
    ensures
        rebuilt_image(RawArchive::Obscure2(a), off, es, skip, 0) == Ok::<Seq<u8>, RebuildFault>(
            image,
        ),
{
    reveal(RawArchive::decoded_from);
    let table = a.spec_entries();
    let limit = image.len() as int;
    let views = crate::archive::obscure2::table_views(table, names);
    crate::archive::obscure2::lemma_table_views(table, names, limit);
    lemma_plan_range(
        views,
        1,
        es,
        es.len(),
        a.spec_endian(),
        image,
        off,
        Game::Obscure2,
        skip,
        views.len(),
    );
    let plan = plan_entries(es, es.len(), off, Game::Obscure2, skip)->Ok_0;
    lemma_neutral_obscure2(table, names, plan.0, plan.0.len());
    crate::structures::obscure2::lemma_decode_archive_bytes(image);
    let lead = padding(Game::Obscure2, off);
    assert(lead =~= Seq::<u8>::empty());
    let toc = crate::archive::obscure2::rebuilt_toc(a, plan.0);
    assert(toc == a.spec_bytes());
    assert(toc == image.subrange(0, off));
    assert(toc + lead + plan.1 =~= image);
}

/// Round trip for the third layout.
#[verifier::rlimit(50)]
proof fn lemma_round_trip_final_exam(
    a: crate::structures::final_exam::HvpArchive,
    es: Seq<Entry>,
    image: Seq<u8>,
    off: int,
    skip: bool,
)
    requires
        0 <= off <= image.len(),
        RawArchive::FinalExam(a).decoded_from(image, off),
        RawArchive::FinalExam(a).entries_fit(image.len() as int),
        model_mirrors(RawArchive::FinalExam(a), es, image, Map::empty()),
        entries_untouched(es, es.len()),
        follows_listing(RawArchive::FinalExam(a), off, image, Map::empty()),
        image.len() + 3 <= u32::MAX,
    ensures
        rebuilt_image(RawArchive::FinalExam(a), off, es, skip, 0) == Ok::<Seq<u8>, RebuildFault>(
            image,
        ),
{
    reveal(RawArchive::decoded_from);
    let table = a.entries@;
    let limit = image.len() as int;
    let views = crate::archive::final_exam::table_views(table, a.names.bytes@);
    let lead = padding(Game::FinalExam, off);
    let first = off + lead.len();
    crate::archive::final_exam::lemma_table_views(table, a.names.bytes@, limit);
    lemma_plan_range(
        views,
        1,
        es,
        es.len(),
        a.header.endian,
        image,
        first,
        Game::FinalExam,
        skip,
        views.len(),
    );
    let plan = plan_entries(es, es.len(), first, Game::FinalExam, skip)->Ok_0;
    lemma_neutral_final_exam(table, a.names.bytes@, plan.0, plan.0.len());
    crate::structures::final_exam::lemma_decode_archive_bytes(image);
    let toc = crate::archive::final_exam::rebuilt_toc(a, plan.0);
    assert(toc == a.spec_bytes());
    assert(toc == image.subrange(0, off));
    assert(lead == image.subrange(off, first));
    assert(plan.1 == image.subrange(first, limit));
    assert(toc + lead + plan.1 =~= image);
}

/// Round trip: the rebuild of an archive whose files have no replacement,
/// into an empty sink, is the image that the archive was loaded from, for
/// every image that keeps its payloads in the order of the listing and is
/// short enough for its last byte and three more to be addressed in 32 bits.
pub proof fn law_round_trip(archive: Archive)
    requires
        archive.inv(),
        entries_untouched(archive.spec_entries(), archive.spec_entries().len()),
        follows_listing(
            archive.spec_provider().spec_raw_archive(),
            archive.spec_provider().spec_entries_offset(),
            archive.spec_provider().image(),
            archive.spec_names(),
        ),
        archive.spec_provider().image().len() + 3 <= u32::MAX,
    ensures
        rebuilt_image(
            archive.spec_provider().spec_raw_archive(),
            archive.spec_provider().spec_entries_offset(),
            archive.spec_entries(),
            archive.spec_skip_compression(),
            0,
        ) == Ok::<Seq<u8>, RebuildFault>(archive.spec_provider().image()),
{
    let image = archive.provider.bytes@;
    let off = archive.provider.entries_offset as int;
    let es = archive.entries@;
    let skip = archive.options.rebuild_skip_compression;
    let names = archive.options.obscure2_names.names();
    match archive.provider.raw_archive {
        RawArchive::Obscure1(a) => {
            assert(a.spec_bytes() == image.subrange(0, off)) by {
                reveal(RawArchive::decoded_from);
            }
            lemma_round_trip_obscure1(a, es, image, off, skip);
        },
        RawArchive::Obscure2(a) => {
            lemma_round_trip_obscure2(a, es, image, off, skip, names);
        },
        RawArchive::FinalExam(a) => {
            lemma_round_trip_final_exam(a, es, image, off, skip);
        },
    }
}

} // verus!
