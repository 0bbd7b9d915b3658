//! Attaching replacement payloads to the files of the model without
//! changing anything else of it.

use vstd::prelude::*;

use crate::archive::entry::{
    entries_dirs, entries_files, entries_untouched, entry_dirs, entry_files, flat_entries,
    flat_entry, Entry, FileEntry, UpdateKind,
};

verus! {

/// The file `b` is the file `a` but for its replacement.
pub open spec fn file_alike(a: FileEntry, b: FileEntry) -> bool {
    &&& a.name@ == b.name@
    &&& a.compression_info == b.compression_info
    &&& a.checksum == b.checksum
    &&& a.endian == b.endian
    &&& a.uncompressed_size == b.uncompressed_size
    &&& a.slot == b.slot
    &&& a.raw_bytes@ == b.raw_bytes@
}

/// The entry `b` is the entry `a` but for the replacements of the files
/// below and including it.
pub open spec fn entry_alike(a: Entry, b: Entry) -> bool
    decreases a,
{
    match a {
        Entry::File(fa) => b matches Entry::File(fb) && file_alike(fa, fb),
        Entry::Dir(da) => b matches Entry::Dir(db) && da.name@ == db.name@ && db.entries@.len()
            == da.entries@.len() && entries_alike(da.entries@, db.entries@, da.entries@.len()),
    }
}

/// The first `n` of the entries `b` are the first `n` of `a` but for
/// replacements.
pub open spec fn entries_alike(a: Seq<Entry>, b: Seq<Entry>, n: nat) -> bool
    decreases a, n,
{
    if n == 0 || n > a.len() || n > b.len() {
        n == 0
    } else {
        entries_alike(a, b, (n - 1) as nat) && entry_alike(a[n - 1], b[n - 1])
    }
}

/// The replacements of the files below and including `entry`, in the order
/// of the listing.
pub open spec fn entry_updates(entry: Entry) -> Seq<Option<UpdateKind>>
    decreases entry,
{
    match entry {
        Entry::File(f) => seq![f.update],
        Entry::Dir(d) => entries_updates(d.entries@, d.entries@.len()),
    }
}

/// The replacements of the files below and including the first `n` of
/// `entries`, in the order of the listing.
pub open spec fn entries_updates(entries: Seq<Entry>, n: nat) -> Seq<Option<UpdateKind>>
    decreases entries, n,
{
    if n == 0 || n > entries.len() {
        Seq::empty()
    } else {
        entries_updates(entries, (n - 1) as nat) + entry_updates(entries[n - 1])
    }
}

/// Every entry is itself but for replacements.
pub proof fn lemma_alike_same(a: Entry)
    ensures
        entry_alike(a, a),
    decreases a,
{
    match a {
        Entry::File(_) => {},
        Entry::Dir(d) => {
            lemma_alike_same_list(d.entries@, d.entries@.len());
        },
    }
}

/// Every list of entries is itself but for replacements.
pub proof fn lemma_alike_same_list(a: Seq<Entry>, n: nat)
    requires
        n <= a.len(),
    ensures
        entries_alike(a, a, n),
    decreases a, n,
{
    if n > 0 {
        lemma_alike_same_list(a, (n - 1) as nat);
        lemma_alike_same(a[n - 1]);
    }
}

/// Entries that are alike have the same numbers of files and directories, the
/// same listing and as many replacements.
pub proof fn lemma_alike_entry(a: Entry, b: Entry, prefix: Seq<Seq<char>>)
    requires
        entry_alike(a, b),
    ensures
        entry_files(a) == entry_files(b),
        entry_dirs(a) == entry_dirs(b),
        flat_entry(a, prefix) == flat_entry(b, prefix),
        entry_updates(a).len() == entry_files(a),
        entry_updates(b).len() == entry_files(a),
    decreases a,
{
    match a {
        Entry::File(_) => {},
        Entry::Dir(d) => {
            lemma_alike_entries(
                d.entries@,
                b->Dir_0.entries@,
                d.entries@.len(),
                prefix.push(d.name@),
            );
        },
    }
}

/// Lists of entries that are alike have the same numbers of files and
/// directories, the same listing and as many replacements.
pub proof fn lemma_alike_entries(a: Seq<Entry>, b: Seq<Entry>, n: nat, prefix: Seq<Seq<char>>)
    requires
        n <= a.len(),
        n <= b.len(),
        entries_alike(a, b, n),
    ensures
        entries_files(a, n) == entries_files(b, n),
        entries_dirs(a, n) == entries_dirs(b, n),
        flat_entries(a, n, prefix) == flat_entries(b, n, prefix),
        entries_updates(a, n).len() == entries_files(a, n),
        entries_updates(b, n).len() == entries_files(a, n),
    decreases a, n,
{
    if n > 0 {
        lemma_alike_entries(a, b, (n - 1) as nat, prefix);
        lemma_alike_entry(a[n - 1], b[n - 1], prefix);
    }
}

/// Whether lists are alike in their first `n` entries, and the replacements
/// of those, do not depend on what follows them.
pub proof fn lemma_alike_prefix(a: Seq<Entry>, b: Seq<Entry>, c: Seq<Entry>, n: nat)
    requires
        n <= b.len(),
        n <= c.len(),
        forall|i: int| 0 <= i < n ==> b[i] == c[i],
    ensures
        entries_alike(a, b, n) == entries_alike(a, c, n),
        entries_updates(b, n) == entries_updates(c, n),
    decreases n,
{
    if n > 0 {
        lemma_alike_prefix(a, b, c, (n - 1) as nat);
    }
}

/// Lists that agree from some position on and are alike before it are alike.
pub proof fn lemma_alike_extend(a: Seq<Entry>, b: Seq<Entry>, k: nat, n: nat)
    requires
        k <= n <= a.len(),
        a.len() == b.len(),
        entries_alike(a, b, k),
        forall|i: int| k <= i < n ==> a[i] == b[i],
    ensures
        entries_alike(a, b, n),
        entries_updates(b, n) == entries_updates(b, k) + entries_updates_from(a, k, n),
    decreases n - k,
{
    if k < n {
        lemma_alike_extend(a, b, k, (n - 1) as nat);
        lemma_alike_same(a[n - 1]);
        assert(entries_updates(b, n) =~= entries_updates(b, k) + entries_updates_from(a, k, n));
    } else {
        assert(entries_updates(b, n) =~= entries_updates(b, k) + entries_updates_from(a, k, n));
    }
}

/// The replacements of the files below and including the entries `from..to`.
pub open spec fn entries_updates_from(entries: Seq<Entry>, from: nat, to: nat) -> Seq<
    Option<UpdateKind>,
>
    decreases to,
{
    if to <= from || to > entries.len() {
        Seq::empty()
    } else {
        entries_updates_from(entries, from, (to - 1) as nat) + entry_updates(entries[to - 1])
    }
}

/// The replacements of the first `n` entries are those of the first `k`
/// followed by those of the rest.
pub proof fn lemma_updates_split(entries: Seq<Entry>, k: nat, n: nat)
    requires
        k <= n <= entries.len(),
    ensures
        entries_updates(entries, n) == entries_updates(entries, k) + entries_updates_from(
            entries,
            k,
            n,
        ),
    decreases n - k,
{
    if k < n {
        lemma_updates_split(entries, k, (n - 1) as nat);
        assert(entries_updates(entries, n) =~= entries_updates(entries, k) + entries_updates_from(
            entries,
            k,
            n,
        ));
    } else {
        assert(entries_updates(entries, n) =~= entries_updates(entries, k) + entries_updates_from(
            entries,
            k,
            n,
        ));
    }
}

} // verus!

verus! {

/// Number of entries below and including the first `n` of `entries`.
pub open spec fn entries_size(entries: Seq<Entry>, n: nat) -> nat {
    entries_files(entries, n) + entries_dirs(entries, n)
}

/// The first entries of a list have no more files and directories than the
/// whole list.
pub proof fn lemma_size_grows(entries: Seq<Entry>, k: nat, n: nat)
    requires
        k <= n <= entries.len(),
    ensures
        entries_files(entries, k) <= entries_files(entries, n),
        entries_size(entries, k) <= entries_size(entries, n),
    decreases n - k,
{
    if k < n {
        lemma_size_grows(entries, k, (n - 1) as nat);
    }
}

/// Being alike carries over from one pair of entries to the next.
pub proof fn lemma_alike_chain(a: Entry, b: Entry, c: Entry)
    requires
        entry_alike(a, b),
        entry_alike(b, c),
    ensures
        entry_alike(a, c),
    decreases a,
{
    match a {
        Entry::File(_) => {},
        Entry::Dir(d) => {
            lemma_alike_chain_list(
                d.entries@,
                b->Dir_0.entries@,
                c->Dir_0.entries@,
                d.entries@.len(),
            );
        },
    }
}

/// Being alike carries over from one pair of lists to the next.
pub proof fn lemma_alike_chain_list(a: Seq<Entry>, b: Seq<Entry>, c: Seq<Entry>, n: nat)
    requires
        n <= a.len(),
        n <= b.len(),
        n <= c.len(),
        entries_alike(a, b, n),
        entries_alike(b, c, n),
    ensures
        entries_alike(a, c, n),
    decreases a, n,
{
    if n > 0 {
        lemma_alike_chain_list(a, b, c, (n - 1) as nat);
        lemma_alike_chain(a[n - 1], b[n - 1], c[n - 1]);
    }
}

/// What holds of a list once the entry at position `i` changed into one that
/// is like it.
pub proof fn lemma_changed_at(before: Seq<Entry>, after: Seq<Entry>, i: int)
    requires
        0 <= i < before.len(),
        after.len() == before.len(),
        forall|k: int| 0 <= k < before.len() && k != i ==> after[k] == before[k],
        entry_alike(before[i], after[i]),
    ensures
        entries_alike(before, after, before.len()),
        entries_updates(before, before.len()) == entries_updates(before, i as nat) + entry_updates(
            before[i],
        ) + entries_updates_from(before, (i + 1) as nat, before.len()),
        entries_updates(after, after.len()) == entries_updates(before, i as nat) + entry_updates(
            after[i],
        ) + entries_updates_from(before, (i + 1) as nat, before.len()),
        entries_updates(before, i as nat).len() == entries_files(before, i as nat),
        entry_updates(before[i]).len() == entry_files(before[i]),
        entry_updates(after[i]).len() == entry_files(before[i]),
{
    let n = before.len();
    lemma_alike_same_list(before, i as nat);
    lemma_alike_prefix(before, before, after, i as nat);
    lemma_alike_extend(before, after, (i + 1) as nat, n);
    lemma_alike_entries(before, before, i as nat, Seq::empty());
    lemma_alike_entry(before[i], after[i], Seq::empty());
    lemma_updates_split(before, (i + 1) as nat, n);
}

/// Gives the file at position `index` of the listing of `entries` the
/// replacement `update`, where the listing is that long, and says whether it
/// did: where it did not, it hands `update` back with the length of the
/// listing.
#[verifier::rlimit(50)]
pub fn set_in<'p>(entries: &mut Vec<Entry<'p>>, index: usize, update: Option<UpdateKind>) -> (r:
    Option<(Option<UpdateKind>, usize)>)
    ensures
        final(entries)@.len() == old(entries)@.len(),
        entries_alike(old(entries)@, final(entries)@, old(entries)@.len()),
        match r {
            None => {
                &&& index < entries_files(old(entries)@, old(entries)@.len())
                &&& entries_updates(final(entries)@, final(entries)@.len()) == entries_updates(
                    old(entries)@,
                    old(entries)@.len(),
                ).update(index as int, update)
            },
            Some((back, files)) => {
                &&& index >= entries_files(old(entries)@, old(entries)@.len())
                &&& files == entries_files(old(entries)@, old(entries)@.len())
                &&& back == update
                &&& entries_updates(final(entries)@, final(entries)@.len()) == entries_updates(
                    old(entries)@,
                    old(entries)@.len(),
                )
            },
        },
    decreases entries_size(old(entries)@, old(entries)@.len()),
    no_unwind
{
    let mut rest = index;
    let ghost given = update;
    let mut pending = update;
    let n = entries.len();
    let mut i: usize = 0;
    proof {
        lemma_alike_same_list(entries@, entries@.len());
    }
    while i < n
        invariant
            i <= n,
            n == entries@.len(),
            n == old(entries)@.len(),
            entries_alike(old(entries)@, entries@, n as nat),
            entries_updates(entries@, n as nat) == entries_updates(old(entries)@, n as nat),
            pending == given,
            update == given,
            index >= entries_files(entries@, i as nat),
            rest == index - entries_files(entries@, i as nat),
        decreases n - i,
    {
        let ghost before = entries@;
        proof {
            lemma_alike_entries(old(entries)@, before, n as nat, Seq::empty());
            lemma_size_grows(before, (i + 1) as nat, n as nat);
            assert(entries_files(before, (i + 1) as nat) == entries_files(before, i as nat)
                + entry_files(before[i as int]));
            assert(entries_dirs(before, (i + 1) as nat) == entries_dirs(before, i as nat)
                + entry_dirs(before[i as int]));
            if before[i as int] is Dir {
                let below = before[i as int]->Dir_0.entries@;
                assert(entry_files(before[i as int]) == entries_files(below, below.len()));
                assert(entry_dirs(before[i as int]) == 1 + entries_dirs(below, below.len()));
            }
        }
        let mut placed = false;
        match &mut entries[i] {
            Entry::File(f) => {
                if rest == 0 {
                    f.update = pending;
                    pending = None;
                    placed = true;
                } else {
                    rest = rest - 1;
                }
            },
            Entry::Dir(d) => {
                assert(d.entries@ == before[i as int]->Dir_0.entries@);
                match set_in(&mut d.entries, rest, pending) {
                    None => {
                        pending = None;
                        placed = true;
                    },
                    Some((back, files)) => {
                        pending = back;
                        rest = rest - files;
                    },
                }
            },
        }
        proof {
            let at = index - entries_files(before, i as nat);
            lemma_changed_at(before, entries@, i as int);
            lemma_alike_chain_list(old(entries)@, before, entries@, n as nat);
            lemma_prefix_files(before, entries@, i as nat);
            lemma_alike_entry(before[i as int], entries@[i as int], Seq::empty());
            let head = entries_updates(before, i as nat);
            let tail = entries_updates_from(before, (i + 1) as nat, n as nat);
            let was = entry_updates(before[i as int]);
            let now = entry_updates(entries@[i as int]);
            if placed {
                assert(now =~= was.update(at, given));
                assert(at < was.len());
                assert(head + now + tail =~= (head + was + tail).update(index as int, given));
                assert(index < entries_files(before, (i + 1) as nat));
                assert(entries_files(old(entries)@, n as nat) == entries_files(before, n as nat));
                assert(entries_updates(entries@, n as nat) == entries_updates(
                    old(entries)@,
                    n as nat,
                ).update(index as int, given));
                assert(index < entries_files(old(entries)@, n as nat));
                assert(entries@.len() == n);
            } else {
                assert(now =~= was);
            }
        }
        if placed {
            return None;
        }
        i += 1;
    }
    proof {
        lemma_alike_entries(old(entries)@, entries@, n as nat, Seq::empty());
    }
    Some((pending, index - rest))
}

/// Lists that agree in their first `n` entries have as many files there.
pub proof fn lemma_prefix_files(a: Seq<Entry>, b: Seq<Entry>, n: nat)
    requires
        n <= a.len(),
        n <= b.len(),
        forall|i: int| 0 <= i < n ==> a[i] == b[i],
    ensures
        entries_files(a, n) == entries_files(b, n),
    decreases n,
{
    if n > 0 {
        lemma_prefix_files(a, b, (n - 1) as nat);
    }
}

} // verus!
