//! Walking the files of the model one at a time, depth first, without
//! recursion: a stack holds the entries that are still to visit, each with the
//! number of directories above it, and a second stack holds the names of the
//! directories that lead to the entry being visited.

use vstd::prelude::*;
use vstd::string::StringExecFns;

use crate::archive::entry::{
    entries_file_list, entry_dirs, entry_files, file_at, flat_entries, flat_entry, listed, Entry,
    FileEntry, FullFileEntry, FullFileView, UpdateKind,
};
use crate::archive::Archive;

verus! {

/// An entry that is still to visit, and the number of directories above it.
pub struct StackFrame<'a, 'p> {
    pub entry: &'a Entry<'p>,
    pub depth: usize,
}

/// The texts of a list of names.
pub open spec fn names(path: Seq<&str>) -> Seq<Seq<char>> {
    Seq::new(path.len(), |i: int| path[i]@)
}

/// The files that the lowest `k` frames of the stack still give, the frame on
/// top first.  The names that lead to a frame are the first `depth` names of
/// `path`.
pub open spec fn pending(stack: Seq<StackFrame>, k: nat, path: Seq<Seq<char>>) -> Seq<FullFileView>
    decreases k,
{
    if k == 0 || k > stack.len() {
        Seq::empty()
    } else {
        flat_entry(*stack[k - 1].entry, path.subrange(0, stack[k - 1].depth as int)) + pending(
            stack,
            (k - 1) as nat,
            path,
        )
    }
}

/// No frame lies deeper than the path is long, and none lies deeper than a
/// frame above it.
pub open spec fn ordered(stack: Seq<StackFrame>, path_len: nat) -> bool {
    forall|i: int, j: int|
        0 <= i <= j < stack.len() ==> (#[trigger] stack[i]).depth <= (#[trigger] stack[j]).depth
            <= path_len
}

/// The number of entries below and including those of the lowest `k` frames.
pub open spec fn weight(stack: Seq<StackFrame>, k: nat) -> nat
    decreases k,
{
    if k == 0 || k > stack.len() {
        0
    } else {
        entry_files(*stack[k - 1].entry) + entry_dirs(*stack[k - 1].entry) + weight(
            stack,
            (k - 1) as nat,
        )
    }
}

/// The files below and including the entries `from..to`, the first of them
/// first.
pub open spec fn flat_from(entries: Seq<Entry>, from: nat, to: nat, prefix: Seq<Seq<char>>) -> Seq<
    FullFileView,
>
    decreases to - from,
{
    if from >= to || to > entries.len() {
        Seq::empty()
    } else {
        flat_entry(entries[from as int], prefix) + flat_from(entries, from + 1, to, prefix)
    }
}

/// The number of entries below and including the entries `from..to`.
pub open spec fn size_from(entries: Seq<Entry>, from: nat, to: nat) -> nat
    decreases to - from,
{
    if from >= to || to > entries.len() {
        0
    } else {
        entry_files(entries[from as int]) + entry_dirs(entries[from as int]) + size_from(
            entries,
            from + 1,
            to,
        )
    }
}

/// Listing the entries `from..to` and then the next one is listing the
/// entries `from..to + 1`.
pub proof fn lemma_flat_from_end(entries: Seq<Entry>, from: nat, to: nat, prefix: Seq<Seq<char>>)
    requires
        from <= to < entries.len(),
    ensures
        flat_from(entries, from, to + 1, prefix) == flat_from(entries, from, to, prefix)
            + flat_entry(entries[to as int], prefix),
        size_from(entries, from, to + 1) == size_from(entries, from, to) + entry_files(
            entries[to as int],
        ) + entry_dirs(entries[to as int]),
    decreases to - from,
{
    if from < to {
        lemma_flat_from_end(entries, from + 1, to, prefix);
        assert(flat_from(entries, from, to + 1, prefix) =~= flat_from(entries, from, to, prefix)
            + flat_entry(entries[to as int], prefix));
    } else {
        assert(flat_from(entries, to + 1, to + 1, prefix) =~= Seq::<FullFileView>::empty());
        assert(size_from(entries, to + 1, to + 1) == 0);
        assert(flat_from(entries, from, to + 1, prefix) =~= flat_from(entries, from, to, prefix)
            + flat_entry(entries[to as int], prefix));
    }
}

/// Listing the first `n` entries one by one from the first on gives their
/// listing.
pub proof fn lemma_flat_from_start(entries: Seq<Entry>, n: nat, prefix: Seq<Seq<char>>)
    requires
        n <= entries.len(),
    ensures
        flat_from(entries, 0, n, prefix) == flat_entries(entries, n, prefix),
        size_from(entries, 0, n) == crate::archive::update::entries_size(entries, n),
    decreases n,
{
    if n > 0 {
        lemma_flat_from_start(entries, (n - 1) as nat, prefix);
        lemma_flat_from_end(entries, 0, (n - 1) as nat, prefix);
    }
}

/// What the frames give does not depend on the names beyond the deepest
/// frame.
pub proof fn lemma_pending_path(stack: Seq<StackFrame>, k: nat, a: Seq<Seq<char>>, b: Seq<Seq<char>>, d: nat)
    requires
        k <= stack.len(),
        d <= a.len(),
        d <= b.len(),
        a.subrange(0, d as int) == b.subrange(0, d as int),
        forall|j: int| 0 <= j < k ==> (#[trigger] stack[j]).depth <= d,
    ensures
        pending(stack, k, a) == pending(stack, k, b),
    decreases k,
{
    if k > 0 {
        lemma_pending_path(stack, (k - 1) as nat, a, b, d);
        let depth = stack[k - 1].depth as int;
        assert(a.subrange(0, depth) =~= a.subrange(0, d as int).subrange(0, depth));
        assert(b.subrange(0, depth) =~= b.subrange(0, d as int).subrange(0, depth));
    }
}

/// What the lowest frames give and weigh does not depend on the frames above
/// them.
pub proof fn lemma_pending_prefix(a: Seq<StackFrame>, b: Seq<StackFrame>, k: nat, path: Seq<Seq<char>>)
    requires
        k <= a.len(),
        k <= b.len(),
        forall|j: int| 0 <= j < k ==> a[j] == b[j],
    ensures
        pending(a, k, path) == pending(b, k, path),
        weight(a, k) == weight(b, k),
    decreases k,
{
    if k > 0 {
        lemma_pending_prefix(a, b, (k - 1) as nat, path);
    }
}

/// An iterator over the files of a model.
pub struct FileIterator<'a, 'p> {
    pub(crate) stack: Vec<StackFrame<'a, 'p>>,
    pub(crate) path_stack: Vec<&'a str>,
    pub(crate) files_count: usize,
    pub(crate) idx: usize,
}

/// Puts the entries `entries[..upto]` on the stack, the last of them first,
/// so that the first of them is visited first.
#[verifier::rlimit(50)]
fn push_children<'a, 'p>(
    stack: &mut Vec<StackFrame<'a, 'p>>,
    entries: &'a Vec<Entry<'p>>,
    depth: usize,
    path: Ghost<Seq<Seq<char>>>,
)
    requires
        depth <= path@.len(),
        ordered(old(stack)@, depth as nat),
    ensures
        ordered(final(stack)@, depth as nat),
        final(stack)@.len() == old(stack)@.len() + entries@.len(),
        forall|j: int| 0 <= j < old(stack)@.len() ==> final(stack)@[j] == old(stack)@[j],
        pending(final(stack)@, final(stack)@.len(), path@) == flat_entries(
            entries@,
            entries@.len(),
            path@.subrange(0, depth as int),
        ) + pending(old(stack)@, old(stack)@.len(), path@),
        weight(final(stack)@, final(stack)@.len()) == crate::archive::update::entries_size(
            entries@,
            entries@.len(),
        ) + weight(old(stack)@, old(stack)@.len()),
{
    let n = entries.len();
    let ghost prefix = path@.subrange(0, depth as int);
    let ghost below = old(stack)@;
    let mut j: usize = n;
    proof {
        assert(flat_from(entries@, n as nat, n as nat, prefix) + pending(
            below,
            below.len(),
            path@,
        ) =~= pending(below, below.len(), path@));
    }
    while j > 0
        invariant
            j <= n,
            n == entries@.len(),
            depth <= path@.len(),
            prefix == path@.subrange(0, depth as int),
            ordered(stack@, depth as nat),
            stack@.len() == below.len() + (n - j),
            forall|k: int| 0 <= k < below.len() ==> stack@[k] == below[k],
            pending(stack@, stack@.len(), path@) == flat_from(entries@, j as nat, n as nat, prefix)
                + pending(below, below.len(), path@),
            weight(stack@, stack@.len()) == size_from(entries@, j as nat, n as nat) + weight(
                below,
                below.len(),
            ),
        decreases j,
    {
        j -= 1;
        let ghost before = stack@;
        stack.push(StackFrame { entry: &entries[j], depth });
        proof {
            lemma_pending_prefix(before, stack@, before.len(), path@);
            assert(pending(stack@, stack@.len(), path@) =~= flat_entry(entries@[j as int], prefix)
                + (flat_from(entries@, (j + 1) as nat, n as nat, prefix) + pending(
                below,
                below.len(),
                path@,
            )));
            assert(flat_from(entries@, j as nat, n as nat, prefix) + pending(
                below,
                below.len(),
                path@,
            ) =~= flat_entry(entries@[j as int], prefix) + (flat_from(
                entries@,
                (j + 1) as nat,
                n as nat,
                prefix,
            ) + pending(below, below.len(), path@)));
        }
    }
    proof {
        lemma_flat_from_start(entries@, n as nat, prefix);
    }
}

impl<'a, 'p> FileIterator<'a, 'p> {
    /// The files that the iterator still gives, the next one first.
    pub open(crate) spec fn remaining(self) -> Seq<FullFileView> {
        pending(self.stack@, self.stack@.len(), names(self.path_stack@))
    }

    /// The number of files that the iterator has given.
    pub open(crate) spec fn given(self) -> nat {
        self.idx as nat
    }

    /// The stacks fit together, and the iterator counts what it has given.
    pub open(crate) spec fn wf(self) -> bool {
        &&& ordered(self.stack@, self.path_stack@.len())
        &&& self.idx + self.remaining().len() == self.files_count
    }

    /// An iterator over the files below and including `entries`, of which
    /// there are `files_count`.
    pub fn new(entries: &'a Vec<Entry<'p>>, files_count: usize) -> (it: Self)
        requires
            files_count == flat_entries(entries@, entries@.len(), Seq::empty()).len(),
        ensures
            it.wf(),
            it.remaining() == flat_entries(entries@, entries@.len(), Seq::empty()),
    {
        let mut stack: Vec<StackFrame<'a, 'p>> = Vec::new();
        let path_stack: Vec<&'a str> = Vec::new();
        let ghost path = names(path_stack@);
        assert(path.subrange(0, 0) =~= Seq::<Seq<char>>::empty());
        push_children(&mut stack, entries, 0, Ghost(path));
        assert(pending(Seq::<StackFrame>::empty(), 0, path) =~= Seq::<FullFileView>::empty());
        FileIterator { stack, path_stack, files_count, idx: 0 }
    }

    /// The number of files that the iterator still gives.
    pub fn len(&self) -> (r: usize)
        requires
            self.wf(),
        ensures
            r == self.remaining().len(),
    {
        self.files_count - self.idx
    }

    /// The next file of the listing, if there is one.  The number of files
    /// that are left goes down by one with every file that is given.
    #[verifier::rlimit(50)]
    pub fn next(&mut self) -> (r: Option<FullFileEntry<'p>>)
        requires
            old(self).wf(),
        ensures
            final(self).wf(),
            final(self).given() == old(self).given() + if r is Some {
                1int
            } else {
                0int
            },
            match r {
                Some(file) => old(self).remaining().len() > 0 && file@ == old(self).remaining()[0]
                    && final(self).remaining() == old(self).remaining().drop_first()
                    && final(self).remaining().len() == old(self).remaining().len() - 1,
                None => old(self).remaining().len() == 0 && final(self).remaining().len() == 0,
            },
    {
        loop
            invariant
                ordered(self.stack@, self.path_stack@.len()),
                self.remaining() == old(self).remaining(),
                self.idx == old(self).idx,
                self.files_count == old(self).files_count,
                old(self).wf(),
            decreases weight(self.stack@, self.stack@.len()),
        {
            let ghost stack_before = self.stack@;
            let ghost path_before = names(self.path_stack@);
            let frame = match self.stack.pop() {
                None => {
                    return None;
                },
                Some(frame) => frame,
            };
            let ghost rest = self.stack@;
            self.path_stack.truncate(frame.depth);
            let ghost path_cut = names(self.path_stack@);
            proof {
                assert(path_cut =~= path_before.subrange(0, frame.depth as int));
                lemma_pending_prefix(stack_before, rest, rest.len(), path_before);
                assert forall|j: int| 0 <= j < rest.len() implies (#[trigger] rest[j]).depth
                    <= frame.depth by {
                    assert(stack_before[j].depth <= stack_before[rest.len() as int].depth);
                }
                assert(path_cut.subrange(0, frame.depth as int) =~= path_before.subrange(
                    0,
                    frame.depth as int,
                ));
                lemma_pending_path(rest, rest.len(), path_before, path_cut, frame.depth as nat);
            }
            match frame.entry {
                Entry::File(f) => {
                    let mut path: Vec<String> = Vec::new();
                    let mut i: usize = 0;
                    while i < self.path_stack.len()
                        invariant
                            i <= self.path_stack@.len(),
                            path@.len() == i,
                            forall|k: int| 0 <= k < i ==> path@[k]@ == self.path_stack@[k]@,
                        decreases self.path_stack@.len() - i,
                    {
                        path.push(String::from_str(self.path_stack[i]));
                        i += 1;
                    }
                    path.push(f.name.clone());
                    let file = FullFileEntry {
                        path,
                        compression_info: f.compression_info,
                        checksum: f.checksum,
                        endian: f.endian,
                        raw_bytes: f.raw_bytes,
                    };
                    proof {
                        assert(file@.path =~= path_cut.push(f.name@));
                        assert(file@ == listed(*f, path_cut));
                        let given = old(self).remaining();
                        assert(given == seq![file@] + pending(rest, rest.len(), path_cut));
                        assert(given.drop_first() =~= pending(rest, rest.len(), path_cut));
                    }
                    self.idx = self.idx + 1;
                    return Some(file);
                },
                Entry::Dir(d) => {
                    self.path_stack.push(d.name.as_str());
                    let child_depth = self.path_stack.len();
                    let ghost path_new = names(self.path_stack@);
                    proof {
                        assert(path_new =~= path_cut.push(d.name@));
                        assert(path_new.subrange(0, frame.depth as int) =~= path_cut.subrange(
                            0,
                            frame.depth as int,
                        ));
                        lemma_pending_path(rest, rest.len(), path_cut, path_new, frame.depth as nat);
                        assert(path_new.subrange(0, child_depth as int) =~= path_new);
                    }
                    push_children(&mut self.stack, &d.entries, child_depth, Ghost(path_new));
                },
            }
        }
    }

    /// The files that are left, in the order of the listing.
    pub fn collect(self) -> (files: Vec<FullFileEntry<'p>>)
        requires
            self.wf(),
        ensures
            crate::archive::entry::views(files@) == self.remaining(),
    {
        let mut it = self;
        let mut files: Vec<FullFileEntry<'p>> = Vec::new();
        assert(crate::archive::entry::views(files@) + it.remaining() =~= self.remaining());
        loop
            invariant
                it.wf(),
                crate::archive::entry::views(files@) + it.remaining() == self.remaining(),
            decreases it.remaining().len(),
        {
            let ghost left = it.remaining();
            let ghost given = crate::archive::entry::views(files@);
            match it.next() {
                None => {
                    assert(given + left =~= given);
                    return files;
                },
                Some(file) => {
                    files.push(file);
                    assert(crate::archive::entry::views(files@) + it.remaining() =~= given + left);
                },
            }
        }
    }

    /// The number of files that the iterator gives before it is exhausted:
    /// as many as are left.
    pub fn count(self) -> (n: usize)
        requires
            self.wf(),
        ensures
            n == self.remaining().len(),
    {
        let mut it = self;
        let mut n: usize = 0;
        loop
            invariant
                it.wf(),
                n + it.remaining().len() == self.remaining().len(),
                n <= it.given(),
            decreases it.remaining().len(),
        {
            match it.next() {
                None => {
                    return n;
                },
                Some(_) => {
                    n = n + 1;
                },
            }
        }
    }
}

} // verus!

verus! {

/// A file of an archive with the names of the directories that lead to it,
/// to give it a replacement.
pub struct FullFileEntryMut<'a, 'p> {
    /// The names of the directories from the top down, then the name of the
    /// file.
    pub path: Vec<String>,
    /// The archive that the file belongs to.
    pub archive: &'a mut Archive<'p>,
    /// The position of the file in the listing.
    pub index: usize,
}

impl<'a, 'p> FullFileEntryMut<'a, 'p> {
    /// The archive that the file belongs to.
    pub open(crate) spec fn spec_archive(self) -> Archive<'p> {
        *self.archive
    }

    /// The position of the file in the listing.
    pub open(crate) spec fn spec_index(self) -> int {
        self.index as int
    }

    /// The names of the directories that lead to the file, then its name.
    pub open(crate) spec fn spec_path(self) -> Seq<Seq<char>> {
        crate::archive::entry::texts(self.path@)
    }

    /// The file is one of the listing, and the path is its path.
    pub open(crate) spec fn wf(self) -> bool {
        &&& self.index < self.archive.listing().len()
        &&& self.index < entries_file_list(self.archive.entries@, self.archive.entries@.len()).len()
        &&& crate::archive::entry::texts(self.path@) == self.archive.listing()[self.spec_index()].path
    }

    /// The file itself.
    pub open(crate) spec fn spec_file(self) -> FileEntry<'p> {
        entries_file_list(self.archive.entries@, self.archive.entries@.len())[self.index as int]
    }

    /// The payload as it is stored.
    pub fn raw_bytes(&self) -> (r: &'p [u8])
        requires
            self.wf(),
        ensures
            r@ == self.spec_file().raw_bytes@,
    {
        match file_at(&self.archive.entries, self.index) {
            Ok(f) => f.raw_bytes,
            Err(_) => self.archive.provider.get_empty_bytes(),
        }
    }

    /// Whether the payload is compressed.
    pub fn is_compressed(&self) -> (r: bool)
        requires
            self.wf(),
        ensures
            r == self.spec_file().compression_info is Some,
    {
        match file_at(&self.archive.entries, self.index) {
            Ok(f) => f.is_compressed(),
            Err(_) => false,
        }
    }

    /// Whether the checksum of the payload is the one recorded for it.
    pub fn checksum_match(&self) -> (r: bool)
        requires
            self.wf(),
        ensures
            r == (crate::structures::checksum::spec_bytes_sum(
                self.spec_file().raw_bytes@,
                self.spec_file().endian,
            ) == self.spec_file().checksum),
    {
        match file_at(&self.archive.entries, self.index) {
            Ok(f) => f.checksum_match(),
            Err(_) => false,
        }
    }

    /// The content of the file: the payload, decompressed if need be.
    pub fn get_bytes(&self) -> (r: Result<Vec<u8>, crate::archive::entry::DecompressError>)
        requires
            self.wf(),
        ensures
            match r {
                Ok(out) => crate::archive::entry::content_of(
                    self.spec_file().raw_bytes@,
                    self.spec_file().compression_info,
                ) == Some(out@),
                Err(_) => crate::archive::entry::content_of(
                    self.spec_file().raw_bytes@,
                    self.spec_file().compression_info,
                ) is None,
            },
    {
        match file_at(&self.archive.entries, self.index) {
            Ok(f) => f.get_bytes(),
            Err(_) => Ok(Vec::new()),
        }
    }

    /// Gives the file the replacement `update`, or takes its replacement away.
    /// Nothing else of the archive changes.
    pub fn update(&mut self, update: Option<UpdateKind>)
        requires
            old(self).wf(),
        ensures
            final(self).wf(),
            final(self).spec_index() == old(self).spec_index(),
            final(self).spec_path() == old(self).spec_path(),
            *final(final(self).archive) == *final(old(self).archive),
            final(self).spec_archive().updates() == old(self).spec_archive().updates().update(
                old(self).spec_index(),
                update,
            ),
            final(self).spec_archive().listing() == old(self).spec_archive().listing(),
            final(self).spec_archive().spec_metadata() == old(self).spec_archive().spec_metadata(),
    {
        let ghost before = self.archive.entries@;
        self.archive.update_file(self.index, update);
        proof {
            let after = self.archive.entries@;
            crate::archive::entry::lemma_file_list_entries(before, before.len(), Seq::empty());
            crate::archive::entry::lemma_file_list_entries(after, after.len(), Seq::empty());
        }
    }
}

/// An iterator over the files of an archive that can give them replacements.
/// It lends one file at a time.
pub struct FileIteratorMut<'a, 'p> {
    /// The archive that is walked.
    pub archive: &'a mut Archive<'p>,
    /// The paths of the files of the listing.
    pub paths: Vec<Vec<String>>,
    /// The number of files that were given.
    pub idx: usize,
}

impl<'a, 'p> FileIteratorMut<'a, 'p> {
    /// The archive that is walked.
    pub open(crate) spec fn spec_archive(self) -> Archive<'p> {
        *self.archive
    }

    /// The number of files that the iterator has given.
    pub open(crate) spec fn given(self) -> nat {
        self.idx as nat
    }

    /// The iterator knows the path of every file of the listing.
    pub open(crate) spec fn wf(self) -> bool {
        &&& self.idx <= self.paths@.len()
        &&& self.paths@.len() == self.archive.listing().len()
        &&& forall|i: int|
            0 <= i < self.paths@.len() ==> crate::archive::entry::texts(
                (#[trigger] self.paths@[i])@,
            ) == self.archive.listing()[i].path
    }

    /// An iterator over the files of `archive`.
    pub fn new(archive: &'a mut Archive<'p>) -> (it: Self)
        ensures
            it.wf(),
            it.given() == 0,
            it.spec_archive() == *old(archive),
            *final(archive) == *final(it.archive),
    {
        let files = archive.files().collect();
        let mut paths: Vec<Vec<String>> = Vec::new();
        let mut i: usize = 0;
        while i < files.len()
            invariant
                i <= files.len(),
                paths@.len() == i,
                forall|k: int|
                    0 <= k < i ==> crate::archive::entry::texts((#[trigger] paths@[k])@)
                        == files@[k]@.path,
            decreases files.len() - i,
        {
            paths.push(crate::archive::entry::copy_path(&files[i].path));
            i += 1;
        }
        assert forall|k: int| 0 <= k < paths@.len() implies crate::archive::entry::texts(
            (#[trigger] paths@[k])@,
        ) == archive.listing()[k].path by {
            assert(crate::archive::entry::views(files@)[k] == files@[k]@);
        }
        FileIteratorMut { archive, paths, idx: 0 }
    }

    /// The number of files that the iterator still gives.
    pub fn len(&self) -> (r: usize)
        requires
            self.wf(),
        ensures
            r == self.spec_archive().listing().len() - self.given(),
    {
        self.paths.len() - self.idx
    }

    /// The next file of the listing, if there is one.
    pub fn next(&mut self) -> (r: Option<FullFileEntryMut<'_, 'p>>)
        requires
            old(self).wf(),
        ensures
            match r {
                Some(file) => {
                    &&& old(self).given() < old(self).spec_archive().listing().len()
                    &&& file.wf()
                    &&& file.spec_index() == old(self).given()
                    &&& file.spec_archive() == old(self).spec_archive()
                    &&& *final(self).archive == *final(file.archive)
                    &&& final(self).paths == old(self).paths
                    &&& final(self).given() == old(self).given() + 1
                },
                None => old(self).given() == old(self).spec_archive().listing().len()
                    && *final(self) == *old(self),
            },
    {
        if self.idx >= self.paths.len() {
            return None;
        }
        let index = self.idx;
        let path = crate::archive::entry::copy_path(&self.paths[index]);
        proof {
            crate::archive::entry::lemma_file_list_entries(
                self.archive.entries@,
                self.archive.entries@.len(),
                Seq::empty(),
            );
        }
        self.idx = self.idx + 1;
        Some(FullFileEntryMut { path, archive: &mut *self.archive, index })
    }
}

} // verus!
