//! The first layout, read again after a rebuild: the tree that is read is the
//! tree that was rebuilt, with its files patched.

use vstd::prelude::*;

use crate::archive::entry as model;
use crate::archive::obscure1::{
    entries_mirror, entry_mirrors, patch_at, patched_entries_bytes, patched_entry_bytes,
    patched_file,
};
use crate::archive::rebuild::{FilePatch, Patch};
use crate::archive::reload::{holds, patched_stored, paths, Stored};
use crate::structures::common::{
    lemma_i32_at_bytes, lemma_split_at, lemma_u32_at_bytes, scan_string, u32_at, CodecError,
    Endian,
};
use crate::structures::obscure1::{
    checksums_bytes, entries_bytes, entries_fit, entries_wf, entry_bytes, entry_fits, entry_wf,
    lemma_dir_parts, lemma_encode_entry, lemma_encode_string, lemma_entries_wf_at,
    lemma_entry_parts, lemma_header_fields, lemma_header_len, lemma_same_text, payload_fits,
    scan_entries, scan_entry, Entry, EntryKind, FileEntry, HvpArchive,
};
use crate::Game;

verus! {

/// The entry `x` is the entry `y` with its files patched, the first of them
/// with patch number `k`: the same size fields, the same names and the same
/// tree, and every file says what its patch makes it say.
pub open spec fn patched_twin(
    x: Entry,
    y: Entry,
    patches: Seq<FilePatch>,
    k: int,
    endian: Endian,
) -> bool
    decreases y,
{
    x.entry_size == y.entry_size && match y.kind {
        EntryKind::File(fy) => match x.kind {
            EntryKind::File(fx) => {
                let p = patched_file(fy, patch_at(patches, k));
                &&& fx.name@ == fy.name@
                &&& fx.is_compressed == p.is_compressed
                &&& fx.compressed_size == p.compressed_size
                &&& fx.uncompressed_size == p.uncompressed_size
                &&& fx.checksum == p.checksum
                &&& fx.offset == p.offset
            },
            EntryKind::Dir(_) => false,
        },
        EntryKind::Dir(dy) => match x.kind {
            EntryKind::File(_) => false,
            EntryKind::Dir(dx) => {
                &&& dx.name@ == dy.name@
                &&& dx.entries@.len() == dy.entries@.len()
                &&& patched_twins(
                    dx.entries@,
                    dy.entries@,
                    dy.entries@.len(),
                    patches,
                    k,
                    endian,
                )
            },
        },
    }
}

/// The first `n` of `xs` are the first `n` of `ys` with their files patched,
/// the first of them with patch number `k`.
pub open spec fn patched_twins(
    xs: Seq<Entry>,
    ys: Seq<Entry>,
    n: nat,
    patches: Seq<FilePatch>,
    k: int,
    endian: Endian,
) -> bool
    decreases ys, n,
{
    if n == 0 {
        true
    } else if n > xs.len() || n > ys.len() {
        false
    } else {
        patched_twins(xs, ys, (n - 1) as nat, patches, k, endian) && patched_twin(
            xs[n - 1],
            ys[n - 1],
            patches,
            patched_entries_bytes(ys, (n - 1) as nat, patches, k, endian).1,
            endian,
        )
    }
}

/// An entry whose bytes stand where the patched bytes of the file `y` stand
/// is that file, patched.
#[verifier::rlimit(50)]
proof fn lemma_patched_twin_file(
    data: Seq<u8>,
    at: int,
    x: Entry,
    y: Entry,
    patches: Seq<FilePatch>,
    k: int,
    endian: Endian,
)
    requires
        0 <= at,
        entry_wf(x),
        entry_wf(y),
        y.kind is File,
        at + entry_bytes(x, endian).len() <= data.len(),
        data.subrange(at, at + entry_bytes(x, endian).len()) == entry_bytes(x, endian),
        at + patched_entry_bytes(y, patches, k, endian).0.len() <= data.len(),
        data.subrange(at, at + patched_entry_bytes(y, patches, k, endian).0.len())
            == patched_entry_bytes(y, patches, k, endian).0,
    ensures
        patched_twin(x, y, patches, k, endian),
        entry_bytes(x, endian).len() == patched_entry_bytes(y, patches, k, endian).0.len(),
{
    let fy = y.kind->File_0;
    let p = patched_file(fy, patch_at(patches, k));
    let stored = Entry { entry_size: y.entry_size, kind: EntryKind::File(p) };
    assert(entry_bytes(stored, endian) == patched_entry_bytes(y, patches, k, endian).0);
    lemma_entry_parts(data, at, x, endian);
    lemma_entry_parts(data, at, stored, endian);
    lemma_u32_at_bytes(data, at, x.entry_size, endian);
    lemma_u32_at_bytes(data, at, y.entry_size, endian);
    let fx = x.kind->File_0;
    lemma_u32_at_bytes(data, at + 5, fx.is_compressed, endian);
    lemma_u32_at_bytes(data, at + 5, p.is_compressed, endian);
    lemma_u32_at_bytes(data, at + 9, fx.compressed_size, endian);
    lemma_u32_at_bytes(data, at + 9, p.compressed_size, endian);
    lemma_u32_at_bytes(data, at + 13, fx.uncompressed_size, endian);
    lemma_u32_at_bytes(data, at + 13, p.uncompressed_size, endian);
    lemma_i32_at_bytes(data, at + 17, fx.checksum, endian);
    lemma_i32_at_bytes(data, at + 17, p.checksum, endian);
    lemma_u32_at_bytes(data, at + 21, fx.offset, endian);
    lemma_u32_at_bytes(data, at + 21, p.offset, endian);
    lemma_same_text(data, at + 25, fx.name@, fy.name@, endian);
}

/// An entry whose bytes stand where the patched bytes of `y` stand is `y`
/// with its files patched.
#[verifier::rlimit(50)]
pub proof fn lemma_patched_twin(
    data: Seq<u8>,
    at: int,
    x: Entry,
    y: Entry,
    patches: Seq<FilePatch>,
    k: int,
    endian: Endian,
)
    requires
        0 <= at,
        entry_wf(x),
        entry_wf(y),
        at + entry_bytes(x, endian).len() <= data.len(),
        data.subrange(at, at + entry_bytes(x, endian).len()) == entry_bytes(x, endian),
        at + patched_entry_bytes(y, patches, k, endian).0.len() <= data.len(),
        data.subrange(at, at + patched_entry_bytes(y, patches, k, endian).0.len())
            == patched_entry_bytes(y, patches, k, endian).0,
    ensures
        patched_twin(x, y, patches, k, endian),
        entry_bytes(x, endian).len() == patched_entry_bytes(y, patches, k, endian).0.len(),
    decreases y,
{
    match y.kind {
        EntryKind::File(_) => {
            lemma_patched_twin_file(data, at, x, y, patches, k, endian);
        },
        EntryKind::Dir(dy) => {
            let below = patched_entries_bytes(dy.entries@, dy.entries@.len(), patches, k, endian);
            lemma_entry_parts(data, at, x, endian);
            lemma_dir_parts(
                data,
                at,
                y.entry_size,
                dy.entries@.len() as u32,
                dy.name@,
                below.0,
                endian,
            );
            let dx = x.kind->Dir_0;
            lemma_u32_at_bytes(data, at, x.entry_size, endian);
            lemma_u32_at_bytes(data, at, y.entry_size, endian);
            lemma_u32_at_bytes(data, at + 9, dx.entries@.len() as u32, endian);
            lemma_u32_at_bytes(data, at + 9, dy.entries@.len() as u32, endian);
            lemma_same_text(data, at + 13, dx.name@, dy.name@, endian);
            let name_end = at + 13 + crate::structures::common::string_bytes(dy.name@, endian).len();
            lemma_patched_twins(
                data,
                name_end,
                dx.entries@,
                dy.entries@,
                dy.entries@.len(),
                patches,
                k,
                endian,
            );
        },
    }
}

/// Entries whose bytes stand where the patched bytes of `ys` stand are `ys`
/// with their files patched.
#[verifier::rlimit(50)]
pub proof fn lemma_patched_twins(
    data: Seq<u8>,
    at: int,
    xs: Seq<Entry>,
    ys: Seq<Entry>,
    n: nat,
    patches: Seq<FilePatch>,
    k: int,
    endian: Endian,
)
    requires
        0 <= at,
        n <= xs.len(),
        n <= ys.len(),
        entries_wf(xs, n),
        entries_wf(ys, n),
        at + entries_bytes(xs, n, endian).len() <= data.len(),
        data.subrange(at, at + entries_bytes(xs, n, endian).len()) == entries_bytes(xs, n, endian),
        at + patched_entries_bytes(ys, n, patches, k, endian).0.len() <= data.len(),
        data.subrange(at, at + patched_entries_bytes(ys, n, patches, k, endian).0.len())
            == patched_entries_bytes(ys, n, patches, k, endian).0,
    ensures
        patched_twins(xs, ys, n, patches, k, endian),
        entries_bytes(xs, n, endian).len() == patched_entries_bytes(ys, n, patches, k, endian).0.len(),
    decreases ys, n,
{
    if n > 0 {
        let m = (n - 1) as nat;
        let before = patched_entries_bytes(ys, m, patches, k, endian);
        let head = entries_bytes(xs, m, endian);
        let tail = entry_bytes(xs[n - 1], endian);
        let last = patched_entry_bytes(ys[n - 1], patches, before.1, endian).0;
        lemma_split_at(data, at, head, tail, at + head.len() + tail.len());
        lemma_split_at(data, at, before.0, last, at + before.0.len() + last.len());
        lemma_patched_twins(data, at, xs, ys, m, patches, k, endian);
        lemma_patched_twin(data, at + head.len(), xs[n - 1], ys[n - 1], patches, before.1, endian);
    }
}

} // verus!

verus! {

/// What an entry of a file says of its payload.
pub open spec fn stored_of_file(f: FileEntry) -> Stored {
    Stored {
        compressed: f.is_compressed != 0,
        checksum: f.checksum,
        uncompressed_size: f.uncompressed_size,
        offset: f.offset,
        compressed_size: f.compressed_size,
    }
}

/// The models of an entry and of the entry that it is patched to list the
/// same paths and count the same files and directories, and the patches of
/// the files below the entry are as many as the model lists files.
pub proof fn lemma_twin_models(
    x: Entry,
    y: Entry,
    g: model::Entry,
    e: model::Entry,
    patches: Seq<FilePatch>,
    k: int,
    endian: Endian,
    image: (Seq<u8>, Seq<u8>),
    prefix: Seq<Seq<char>>,
)
    requires
        patched_twin(x, y, patches, k, endian),
        entry_mirrors(y, e, endian, image.0),
        entry_mirrors(x, g, endian, image.1),
    ensures
        paths(model::flat_entry(g, prefix)) == paths(model::flat_entry(e, prefix)),
        model::entry_files(g) == model::entry_files(e),
        model::entry_dirs(g) == model::entry_dirs(e),
        model::entry_file_list(g).len() == model::entry_file_list(e).len(),
        patched_entry_bytes(y, patches, k, endian).1 == k + model::entry_file_list(e).len(),
    decreases y,
{
    match y.kind {
        EntryKind::File(_) => {
            assert(paths(model::flat_entry(g, prefix)) =~= paths(model::flat_entry(e, prefix)));
        },
        EntryKind::Dir(dy) => {
            lemma_twins_models(
                x.kind->Dir_0.entries@,
                dy.entries@,
                g->Dir_0.entries@,
                e->Dir_0.entries@,
                dy.entries@.len(),
                patches,
                k,
                endian,
                image,
                prefix.push(e->Dir_0.name@),
            );
        },
    }
}

/// The models of entries and of the entries that they are patched to list
/// the same paths and count the same files and directories.
pub proof fn lemma_twins_models(
    xs: Seq<Entry>,
    ys: Seq<Entry>,
    gs: Seq<model::Entry>,
    es: Seq<model::Entry>,
    n: nat,
    patches: Seq<FilePatch>,
    k: int,
    endian: Endian,
    image: (Seq<u8>, Seq<u8>),
    prefix: Seq<Seq<char>>,
)
    requires
        n <= xs.len(),
        n <= ys.len(),
        n <= gs.len(),
        n <= es.len(),
        patched_twins(xs, ys, n, patches, k, endian),
        entries_mirror(ys, es, n, endian, image.0),
        entries_mirror(xs, gs, n, endian, image.1),
    ensures
        paths(model::flat_entries(gs, n, prefix)) == paths(model::flat_entries(es, n, prefix)),
        model::entries_files(gs, n) == model::entries_files(es, n),
        model::entries_dirs(gs, n) == model::entries_dirs(es, n),
        model::entries_file_list(gs, n).len() == model::entries_file_list(es, n).len(),
        patched_entries_bytes(ys, n, patches, k, endian).1 == k + model::entries_file_list(
            es,
            n,
        ).len(),
    decreases ys, n,
{
    if n == 0 {
        assert(paths(model::flat_entries(gs, n, prefix)) =~= paths(
            model::flat_entries(es, n, prefix),
        ));
    } else {
        let m = (n - 1) as nat;
        let next = patched_entries_bytes(ys, m, patches, k, endian).1;
        lemma_twins_models(xs, ys, gs, es, m, patches, k, endian, image, prefix);
        lemma_twin_models(
            xs[n - 1],
            ys[n - 1],
            gs[n - 1],
            es[n - 1],
            patches,
            next,
            endian,
            image,
            prefix,
        );
        assert(paths(model::flat_entries(gs, n, prefix)) =~= paths(
            model::flat_entries(gs, m, prefix),
        ) + paths(model::flat_entry(gs[n - 1], prefix)));
        assert(paths(model::flat_entries(es, n, prefix)) =~= paths(
            model::flat_entries(es, m, prefix),
        ) + paths(model::flat_entry(es[n - 1], prefix)));
    }
}

/// File `j` below an entry and file `j` below the entry that it is patched
/// to: the entry of the first, of which the model holds the payload, and
/// whose patched entry the model of the second holds the payload of.
pub proof fn lemma_twin_file(
    x: Entry,
    y: Entry,
    g: model::Entry,
    e: model::Entry,
    patches: Seq<FilePatch>,
    k: int,
    endian: Endian,
    image: (Seq<u8>, Seq<u8>),
    j: int,
) -> (raw: FileEntry)
    requires
        patched_twin(x, y, patches, k, endian),
        entry_mirrors(y, e, endian, image.0),
        entry_mirrors(x, g, endian, image.1),
        entry_fits(y, image.0.len() as int),
        0 <= j < model::entry_file_list(e).len(),
    ensures
        j < model::entry_file_list(g).len(),
        model::entry_file_list(g)[j].name@ == model::entry_file_list(e)[j].name@,
        holds(stored_of_file(raw), model::entry_file_list(e)[j], Game::Obscure1, image.0),
        payload_fits(raw.uncompressed_size, raw.offset, raw.compressed_size, image.0.len() as int),
        holds(
            stored_of_file(patched_file(raw, patch_at(patches, k + j))),
            model::entry_file_list(g)[j],
            Game::Obscure1,
            image.1,
        ),
    decreases y,
{
    match y.kind {
        EntryKind::File(fy) => fy,
        EntryKind::Dir(dy) => lemma_twins_file(
            x.kind->Dir_0.entries@,
            dy.entries@,
            g->Dir_0.entries@,
            e->Dir_0.entries@,
            dy.entries@.len(),
            patches,
            k,
            endian,
            image,
            j,
        ),
    }
}

/// File `j` below entries and file `j` below the entries that they are
/// patched to.
pub proof fn lemma_twins_file(
    xs: Seq<Entry>,
    ys: Seq<Entry>,
    gs: Seq<model::Entry>,
    es: Seq<model::Entry>,
    n: nat,
    patches: Seq<FilePatch>,
    k: int,
    endian: Endian,
    image: (Seq<u8>, Seq<u8>),
    j: int,
) -> (raw: FileEntry)
    requires
        n <= xs.len(),
        n <= ys.len(),
        n <= gs.len(),
        n <= es.len(),
        patched_twins(xs, ys, n, patches, k, endian),
        entries_mirror(ys, es, n, endian, image.0),
        entries_mirror(xs, gs, n, endian, image.1),
        entries_fit(ys, n, image.0.len() as int),
        0 <= j < model::entries_file_list(es, n).len(),
    ensures
        j < model::entries_file_list(gs, n).len(),
        model::entries_file_list(gs, n)[j].name@ == model::entries_file_list(es, n)[j].name@,
        holds(stored_of_file(raw), model::entries_file_list(es, n)[j], Game::Obscure1, image.0),
        payload_fits(raw.uncompressed_size, raw.offset, raw.compressed_size, image.0.len() as int),
        holds(
            stored_of_file(patched_file(raw, patch_at(patches, k + j))),
            model::entries_file_list(gs, n)[j],
            Game::Obscure1,
            image.1,
        ),
    decreases ys, n,
{
    let m = (n - 1) as nat;
    let first = model::entries_file_list(es, m);
    let next = patched_entries_bytes(ys, m, patches, k, endian).1;
    lemma_twins_models(xs, ys, gs, es, m, patches, k, endian, image, Seq::empty());
    lemma_twin_models(
        xs[n - 1],
        ys[n - 1],
        gs[n - 1],
        es[n - 1],
        patches,
        next,
        endian,
        image,
        Seq::empty(),
    );
    if j < first.len() {
        lemma_twins_file(xs, ys, gs, es, m, patches, k, endian, image, j)
    } else {
        lemma_twin_file(
            xs[n - 1],
            ys[n - 1],
            gs[n - 1],
            es[n - 1],
            patches,
            next,
            endian,
            image,
            j - first.len(),
        )
    }
}

} // verus!

verus! {

/// The payloads that the patched entry names lie inside an image of `limit`
/// bytes.  The first file below the entry has patch number `k`.
pub open spec fn patched_entry_fits(
    y: Entry,
    patches: Seq<FilePatch>,
    k: int,
    endian: Endian,
    limit: int,
) -> bool
    decreases y, 0nat,
{
    match y.kind {
        EntryKind::File(fy) => {
            let p = patched_file(fy, patch_at(patches, k));
            payload_fits(p.uncompressed_size, p.offset, p.compressed_size, limit)
        },
        EntryKind::Dir(dy) => patched_entries_fit(
            dy.entries@,
            0,
            dy.entries@.len(),
            patches,
            k,
            endian,
            limit,
        ),
    }
}

/// The payloads that the patched entries `from..to` name lie inside an image
/// of `limit` bytes.  The first file below the first entry of the list has
/// patch number `k`.
pub open spec fn patched_entries_fit(
    ys: Seq<Entry>,
    from: nat,
    to: nat,
    patches: Seq<FilePatch>,
    k: int,
    endian: Endian,
    limit: int,
) -> bool
    decreases ys, to - from,
{
    if from >= to || to > ys.len() {
        true
    } else {
        patched_entry_fits(
            ys[from as int],
            patches,
            patched_entries_bytes(ys, from, patches, k, endian).1,
            endian,
            limit,
        ) && patched_entries_fit(ys, from + 1, to, patches, k, endian, limit)
    }
}

/// The patched bytes of the first entries of a list are the start of the
/// patched bytes of the list.
pub proof fn lemma_patched_bytes_prefix(
    ys: Seq<Entry>,
    i: nat,
    n: nat,
    patches: Seq<FilePatch>,
    k: int,
    endian: Endian,
)
    requires
        i <= n <= ys.len(),
    ensures
        patched_entries_bytes(ys, i, patches, k, endian).0.len() <= patched_entries_bytes(
            ys,
            n,
            patches,
            k,
            endian,
        ).0.len(),
        patched_entries_bytes(ys, n, patches, k, endian).0.subrange(
            0,
            patched_entries_bytes(ys, i, patches, k, endian).0.len() as int,
        ) == patched_entries_bytes(ys, i, patches, k, endian).0,
    decreases n - i,
{
    let whole = patched_entries_bytes(ys, n, patches, k, endian).0;
    let first = patched_entries_bytes(ys, i, patches, k, endian).0;
    if i < n {
        lemma_patched_bytes_prefix(ys, i, (n - 1) as nat, patches, k, endian);
        let shorter = patched_entries_bytes(ys, (n - 1) as nat, patches, k, endian).0;
        assert(whole.subrange(0, first.len() as int) =~= shorter.subrange(0, first.len() as int));
    } else {
        assert(whole.subrange(0, whole.len() as int) =~= whole);
    }
}

/// The patched bytes of an entry are found as an entry where they stand.
#[verifier::rlimit(50)]
pub proof fn lemma_scan_patched_entry(
    data: Seq<u8>,
    at: int,
    y: Entry,
    patches: Seq<FilePatch>,
    k: int,
    endian: Endian,
)
    requires
        0 <= at,
        entry_wf(y),
        at + patched_entry_bytes(y, patches, k, endian).0.len() <= data.len(),
        data.subrange(at, at + patched_entry_bytes(y, patches, k, endian).0.len())
            == patched_entry_bytes(y, patches, k, endian).0,
    ensures
        patched_entry_bytes(y, patches, k, endian).0.len() >= 5,
        scan_entry(data, at, endian) == Ok::<(int, bool), CodecError>(
            (
                at + patched_entry_bytes(y, patches, k, endian).0.len(),
                patched_entry_fits(y, patches, k, endian, data.len() as int),
            ),
        ),
    decreases y, 0nat,
{
    match y.kind {
        EntryKind::File(fy) => {
            let p = patched_file(fy, patch_at(patches, k));
            let stored = Entry { entry_size: y.entry_size, kind: EntryKind::File(p) };
            assert(entry_bytes(stored, endian) == patched_entry_bytes(y, patches, k, endian).0);
            lemma_encode_entry(data, at, stored, endian);
        },
        EntryKind::Dir(dy) => {
            let n = dy.entries@.len();
            let below = patched_entries_bytes(dy.entries@, n, patches, k, endian);
            let text = crate::structures::common::string_bytes(dy.name@, endian);
            let name_end = at + 13 + text.len();
            crate::structures::common::lemma_u32_round_trip(data, 0, 0, endian);
            lemma_dir_parts(data, at, y.entry_size, n as u32, dy.name@, below.0, endian);
            lemma_u32_at_bytes(data, at, y.entry_size, endian);
            lemma_u32_at_bytes(data, at + 5, 0, endian);
            lemma_u32_at_bytes(data, at + 9, n as u32, endian);
            lemma_encode_string(data, at + 13, dy.name@, endian);
            lemma_scan_patched_entries(data, name_end, dy.entries@, 0, patches, k, endian);
            assert(patched_entries_bytes(dy.entries@, 0, patches, k, endian).0.len() == 0);
            assert(u32_at(data, at + 9, endian) as nat == n);
            assert(scan_string(data, at + 13, endian) == Ok::<int, CodecError>(name_end));
        },
    }
}

/// The patched bytes of the entries of a list from number `i` on are found
/// as entries where they stand.  The list starts at `at`.
#[verifier::rlimit(50)]
pub proof fn lemma_scan_patched_entries(
    data: Seq<u8>,
    at: int,
    ys: Seq<Entry>,
    i: nat,
    patches: Seq<FilePatch>,
    k: int,
    endian: Endian,
)
    requires
        0 <= at,
        i <= ys.len(),
        ys.len() <= u32::MAX,
        entries_wf(ys, ys.len()),
        at + patched_entries_bytes(ys, ys.len(), patches, k, endian).0.len() <= data.len(),
        data.subrange(at, at + patched_entries_bytes(ys, ys.len(), patches, k, endian).0.len())
            == patched_entries_bytes(ys, ys.len(), patches, k, endian).0,
    ensures
        scan_entries(
            data,
            at + patched_entries_bytes(ys, i, patches, k, endian).0.len(),
            (ys.len() - i) as nat,
            endian,
        ) == Ok::<(int, bool), CodecError>(
            (
                at + patched_entries_bytes(ys, ys.len(), patches, k, endian).0.len(),
                patched_entries_fit(ys, i, ys.len(), patches, k, endian, data.len() as int),
            ),
        ),
    decreases ys, ys.len() - i,
{
    let n = ys.len();
    let whole = patched_entries_bytes(ys, n, patches, k, endian).0;
    if i < n {
        let before = patched_entries_bytes(ys, i, patches, k, endian);
        let start = at + before.0.len();
        let y = ys[i as int];
        let mine = patched_entry_bytes(y, patches, before.1, endian).0;
        lemma_patched_bytes_prefix(ys, i, n, patches, k, endian);
        lemma_patched_bytes_prefix(ys, i + 1, n, patches, k, endian);
        lemma_entries_wf_at(ys, n, i as int);
        let upto = patched_entries_bytes(ys, i + 1, patches, k, endian).0;
        assert(upto == before.0 + mine);
        assert(data.subrange(start, start + mine.len()) =~= mine) by {
            assert(data.subrange(at, at + upto.len()) =~= whole.subrange(0, upto.len() as int));
            assert(data.subrange(start, start + mine.len()) =~= upto.subrange(
                before.0.len() as int,
                upto.len() as int,
            ));
        }
        lemma_scan_patched_entry(data, start, y, patches, before.1, endian);
        lemma_scan_patched_entries(data, at, ys, i + 1, patches, k, endian);
    }
}

} // verus!

verus! {

/// Whether the patched entries `from..to` fit: looking at one more entry
/// behind them.
pub proof fn lemma_patched_fit_end(
    ys: Seq<Entry>,
    from: nat,
    to: nat,
    patches: Seq<FilePatch>,
    k: int,
    endian: Endian,
    limit: int,
)
    requires
        from <= to < ys.len(),
    ensures
        patched_entries_fit(ys, from, to + 1, patches, k, endian, limit) == (patched_entries_fit(
            ys,
            from,
            to,
            patches,
            k,
            endian,
            limit,
        ) && patched_entry_fits(
            ys[to as int],
            patches,
            patched_entries_bytes(ys, to, patches, k, endian).1,
            endian,
            limit,
        )),
    decreases to - from,
{
    if from < to {
        lemma_patched_fit_end(ys, from + 1, to, patches, k, endian, limit);
    } else {
        assert(patched_entries_fit(ys, to + 1, to + 1, patches, k, endian, limit));
    }
}

/// Whatever record holds the payload of the file `f` in `image`, inside it,
/// the patch moves the payload to a place inside an image of `limit` bytes.
pub open spec fn patch_keeps_inside(f: model::FileEntry, patch: Patch, image: Seq<u8>, limit: int) -> bool {
    forall|stored: Stored| #[trigger]
        holds(stored, f, Game::Obscure1, image) && payload_fits(
            stored.uncompressed_size,
            stored.offset,
            stored.compressed_size,
            image.len() as int,
        ) ==> payload_fits(
            patched_stored(stored, patch).uncompressed_size,
            patched_stored(stored, patch).offset,
            patched_stored(stored, patch).compressed_size,
            limit,
        )
}

/// Where every patch keeps the payload of its file inside the image, the
/// patched entry names payloads inside the image only.
pub proof fn lemma_patched_entry_fits(
    y: Entry,
    e: model::Entry,
    patches: Seq<FilePatch>,
    k: int,
    endian: Endian,
    image: Seq<u8>,
    limit: int,
)
    requires
        entry_mirrors(y, e, endian, image),
        entry_fits(y, image.len() as int),
        forall|j: int|
            0 <= j < model::entry_file_list(e).len() ==> patch_keeps_inside(
                #[trigger] model::entry_file_list(e)[j],
                patch_at(patches, k + j),
                image,
                limit,
            ),
    ensures
        patched_entry_fits(y, patches, k, endian, limit),
        patched_entry_bytes(y, patches, k, endian).1 == k + model::entry_file_list(e).len(),
    decreases y,
{
    match y.kind {
        EntryKind::File(fy) => {
            let f = model::entry_file_list(e)[0];
            assert(patch_keeps_inside(f, patch_at(patches, k + 0), image, limit));
            assert(holds(stored_of_file(fy), f, Game::Obscure1, image));
        },
        EntryKind::Dir(dy) => {
            lemma_patched_entries_fit(
                dy.entries@,
                e->Dir_0.entries@,
                dy.entries@.len(),
                patches,
                k,
                endian,
                image,
                limit,
            );
        },
    }
}

/// Where every patch keeps the payload of its file inside the image, the
/// first `n` patched entries name payloads inside the image only.
pub proof fn lemma_patched_entries_fit(
    ys: Seq<Entry>,
    es: Seq<model::Entry>,
    n: nat,
    patches: Seq<FilePatch>,
    k: int,
    endian: Endian,
    image: Seq<u8>,
    limit: int,
)
    requires
        n <= ys.len(),
        n <= es.len(),
        entries_mirror(ys, es, n, endian, image),
        entries_fit(ys, n, image.len() as int),
        forall|j: int|
            0 <= j < model::entries_file_list(es, n).len() ==> patch_keeps_inside(
                #[trigger] model::entries_file_list(es, n)[j],
                patch_at(patches, k + j),
                image,
                limit,
            ),
    ensures
        patched_entries_fit(ys, 0, n, patches, k, endian, limit),
        patched_entries_bytes(ys, n, patches, k, endian).1 == k + model::entries_file_list(
            es,
            n,
        ).len(),
    decreases ys, n,
{
    if n > 0 {
        let m = (n - 1) as nat;
        let first = model::entries_file_list(es, m);
        let last = model::entry_file_list(es[n - 1]);
        let all = model::entries_file_list(es, n);
        assert(all == first + last);
        assert forall|j: int| 0 <= j < first.len() implies patch_keeps_inside(
            #[trigger] first[j],
            patch_at(patches, k + j),
            image,
            limit,
        ) by {
            assert(all[j] == first[j]);
        }
        lemma_patched_entries_fit(ys, es, m, patches, k, endian, image, limit);
        let next = k + first.len();
        assert forall|j: int| 0 <= j < last.len() implies patch_keeps_inside(
            #[trigger] last[j],
            patch_at(patches, next + j),
            image,
            limit,
        ) by {
            assert(all[first.len() + j] == last[j]);
        }
        lemma_patched_entry_fits(ys[n - 1], es[n - 1], patches, next, endian, image, limit);
        lemma_patched_fit_end(ys, 0, m, patches, k, endian, limit);
    }
}

} // verus!

verus! {

/// Without patches the patched bytes of an entry are its bytes.
pub proof fn lemma_unpatched_entry(y: Entry, k: int, endian: Endian)
    ensures
        patched_entry_bytes(y, Seq::empty(), k, endian).0 == entry_bytes(y, endian),
    decreases y,
{
    match y.kind {
        EntryKind::File(fy) => {
            assert(patched_file(fy, patch_at(Seq::empty(), k)) == fy);
        },
        EntryKind::Dir(dy) => {
            lemma_unpatched_entries(dy.entries@, dy.entries@.len(), k, endian);
        },
    }
}

/// Without patches the patched bytes of entries are their bytes.
pub proof fn lemma_unpatched_entries(ys: Seq<Entry>, n: nat, k: int, endian: Endian)
    ensures
        patched_entries_bytes(ys, n, Seq::empty(), k, endian).0 == entries_bytes(ys, n, endian),
    decreases ys, n,
{
    if n > 0 && n <= ys.len() {
        lemma_unpatched_entries(ys, (n - 1) as nat, k, endian);
        lemma_unpatched_entry(
            ys[n - 1],
            patched_entries_bytes(ys, (n - 1) as nat, Seq::empty(), k, endian).1,
            endian,
        );
    }
}

/// The bytes of a table of contents of the first layout determine it: two
/// tables that can be written and have the same bytes in the same byte order
/// have the same header and the same CRC32s, and their entries are the same
/// tree with the same names, and say the same of every file.  With no patch
/// in the list, `patched_twins` says no more than that.
#[verifier::rlimit(50)]
pub proof fn law_bytes_determine_the_table(a: HvpArchive, b: HvpArchive)
    requires
        a.wf(),
        b.wf(),
        a.endian == b.endian,
        a.spec_bytes() == b.spec_bytes(),
    ensures
        a.header == b.header,
        a.checksums == b.checksums,
        a.entries@.len() == b.entries@.len(),
        patched_twins(a.entries@, b.entries@, b.entries@.len(), Seq::empty(), 0, b.endian),
{
    let endian = a.endian;
    let data = a.spec_bytes();
    let head = a.header.spec_bytes(endian);
    let pair = checksums_bytes(a.checksums, endian);
    let tree = entries_bytes(a.entries@, a.entries@.len(), endian);
    let other_head = b.header.spec_bytes(endian);
    let other_pair = checksums_bytes(b.checksums, endian);
    let other_tree = entries_bytes(b.entries@, b.entries@.len(), endian);
    lemma_header_len(a.header, a.checksums, endian);
    lemma_header_len(b.header, b.checksums, endian);
    let end = data.len() as int;
    assert(data.subrange(0, end) =~= head + pair + tree);
    assert(data.subrange(0, end) =~= other_head + other_pair + other_tree);
    lemma_split_at(data, 0, head + pair, tree, end);
    lemma_split_at(data, 0, head, pair, (32 + pair.len()) as int);
    lemma_split_at(data, 0, other_head + other_pair, other_tree, end);
    lemma_split_at(data, 0, other_head, other_pair, (32 + other_pair.len()) as int);
    lemma_header_fields(data, a.header, endian);
    lemma_header_fields(data, b.header, endian);
    match (a.checksums, b.checksums) {
        (Some(c), Some(d)) => {
            crate::structures::common::lemma_u32_round_trip(data, 0, c.header, endian);
            crate::structures::common::lemma_u32_round_trip(data, 0, c.entries, endian);
            let (h1, e1) = (
                crate::structures::common::u32_bytes(c.header, endian),
                crate::structures::common::u32_bytes(c.entries, endian),
            );
            let (h2, e2) = (
                crate::structures::common::u32_bytes(d.header, endian),
                crate::structures::common::u32_bytes(d.entries, endian),
            );
            lemma_split_at(data, 32, h1, e1, 40);
            lemma_split_at(data, 32, h2, e2, 40);
            lemma_u32_at_bytes(data, 32, c.header, endian);
            lemma_u32_at_bytes(data, 32, d.header, endian);
            lemma_u32_at_bytes(data, 36, c.entries, endian);
            lemma_u32_at_bytes(data, 36, d.entries, endian);
        },
        _ => {},
    }
    lemma_unpatched_entries(b.entries@, b.entries@.len(), 0, endian);
    lemma_patched_twins(
        data,
        (32 + pair.len()) as int,
        a.entries@,
        b.entries@,
        b.entries@.len(),
        Seq::empty(),
        0,
        endian,
    );
}

} // verus!
