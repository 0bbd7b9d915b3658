//! The entries of the archive model: files with their payload and an
//! optional replacement, and directories of entries.

use vstd::prelude::*;

use crate::archive::compression::{
    lzo1x_decompress, lzo1x_decompressed, zlib_decompress, zlib_inflated,
};
use crate::structures::checksum::{bytes_sum, spec_bytes_sum};
use crate::structures::common::Endian;

verus! {

/// A replacement for the payload of a file: the bytes themselves, or the path
/// of a file that holds them.  The library reads no files: whoever rebuilds an
/// archive puts the bytes in place of each path first.
#[derive(Debug, Clone)]
pub enum UpdateKind {
    Bytes(Vec<u8>),
    File(String),
}

impl UpdateKind {
    /// The bytes of the replacement, where it holds them.
    pub open spec fn spec_bytes(self) -> Option<Seq<u8>> {
        match self {
            UpdateKind::Bytes(bytes) => Some(bytes@),
            UpdateKind::File(_) => None,
        }
    }

    /// The bytes of the replacement, where it holds them.
    pub fn to_bytes(&self) -> (r: Option<&Vec<u8>>)
        ensures
            match r {
                Some(bytes) => self.spec_bytes() == Some(bytes@),
                None => self.spec_bytes() is None,
            },
    {
        match self {
            UpdateKind::Bytes(bytes) => Some(bytes),
            UpdateKind::File(_) => None,
        }
    }
}

/// How a payload is compressed.
#[derive(Debug, Clone, Copy, PartialEq, Eq, Structural)]
pub enum CompressionType {
    /// The first layout.
    Zlib,
    /// The second and third layout.
    Lzo,
}

/// What is known of a compressed payload.
#[derive(Debug, Clone, Copy, PartialEq, Eq, Structural)]
pub struct CompressionInfo {
    pub uncompressed_size: u32,
    pub compression_type: CompressionType,
}

/// Why a payload could not be decompressed.
#[derive(Debug, Clone, Copy, PartialEq, Eq, Structural)]
pub enum DecompressError {
    /// The zlib decompressor rejected the payload.
    Zlib,
    /// The payload is no valid LZO stream.
    LzoInvalidInput,
    /// The LZO stream does not decompress to the recorded size.
    LzoOutputLength,
}

/// What `input` decompresses to, if it does.  Nothing decompresses to more
/// bytes than this machine can hold in one buffer.
pub open spec fn decompressed(input: Seq<u8>, info: CompressionInfo) -> Option<Seq<u8>> {
    if info.uncompressed_size > isize::MAX {
        None
    } else {
        match info.compression_type {
            CompressionType::Zlib => zlib_inflated(input, info.uncompressed_size as nat),
            CompressionType::Lzo => lzo1x_decompressed(input, info.uncompressed_size as nat),
        }
    }
}

/// The content of a file whose payload is `raw`: the payload itself where it
/// is not compressed, else what it decompresses to, if it does.
pub open spec fn content_of(raw: Seq<u8>, info: Option<CompressionInfo>) -> Option<Seq<u8>> {
    match info {
        None => Some(raw),
        Some(info) => decompressed(raw, info),
    }
}

/// Decompresses `input` with the codec that `info` names.
pub fn decompress_buf(input: &[u8], info: CompressionInfo) -> (r: Result<Vec<u8>, DecompressError>)
    ensures
        match r {
            Ok(out) => decompressed(input@, info) == Some(out@) && out@.len()
                == info.uncompressed_size,
            Err(e) => decompressed(input@, info) is None && (e is Zlib <==> info.compression_type
                == CompressionType::Zlib),
        },
{
    let size = info.uncompressed_size as usize;
    if size > isize::MAX as usize {
        return match info.compression_type {
            CompressionType::Zlib => Err(DecompressError::Zlib),
            CompressionType::Lzo => Err(DecompressError::LzoOutputLength),
        };
    }
    match info.compression_type {
        CompressionType::Zlib => match zlib_decompress(input, size) {
            Some(out) => Ok(out),
            None => Err(DecompressError::Zlib),
        },
        CompressionType::Lzo => lzo1x_decompress(input, size),
    }
}

/// The content of a file whose payload is `raw`.
fn content(raw: &[u8], info: Option<CompressionInfo>) -> (r: Result<Vec<u8>, DecompressError>)
    ensures
        match r {
            Ok(out) => content_of(raw@, info) == Some(out@),
            Err(e) => content_of(raw@, info) is None,
        },
{
    match info {
        Some(info) => decompress_buf(raw, info),
        None => Ok(vstd::slice::slice_to_vec(raw)),
    }
}

/// A file of the archive.
#[derive(Debug)]
pub struct FileEntry<'p> {
    pub name: String,
    pub compression_info: Option<CompressionInfo>,
    /// The checksum that the table of contents records for the payload.
    pub checksum: i32,
    /// The byte order of the archive, in which the checksum reads the payload.
    pub endian: Endian,
    /// The size of the content as the table of contents records it.  A file
    /// for which it is zero has no payload.
    pub uncompressed_size: u32,
    /// In a flat table, the position of the record of the file.
    pub slot: usize,
    /// The payload as it is stored.
    pub raw_bytes: &'p [u8],
    /// What a rebuild stores in place of the payload.
    pub update: Option<UpdateKind>,
}

impl FileEntry<'_> {
    /// The name of the file.
    pub fn name(&self) -> (r: &str)
        ensures
            r@ == self.name@,
    {
        self.name.as_str()
    }

    /// Whether the payload is compressed.
    pub fn is_compressed(&self) -> (r: bool)
        ensures
            r == self.compression_info is Some,
    {
        self.compression_info.is_some()
    }

    /// The content of the file: the payload, decompressed if need be.
    pub fn get_bytes(&self) -> (r: Result<Vec<u8>, DecompressError>)
        ensures
            match r {
                Ok(out) => content_of(self.raw_bytes@, self.compression_info) == Some(out@),
                Err(_) => content_of(self.raw_bytes@, self.compression_info) is None,
            },
    {
        content(self.raw_bytes, self.compression_info)
    }

    /// Whether the checksum of the payload is the one recorded for it.
    pub fn checksum_match(&self) -> (r: bool)
        ensures
            r == (spec_bytes_sum(self.raw_bytes@, self.endian) == self.checksum),
    {
        bytes_sum(self.raw_bytes, self.endian) == self.checksum
    }
}

/// A directory of the archive.
#[derive(Debug)]
pub struct DirEntry<'p> {
    pub name: String,
    pub entries: Vec<Entry<'p>>,
}

/// A file or a directory.
#[derive(Debug)]
pub enum Entry<'p> {
    File(FileEntry<'p>),
    Dir(DirEntry<'p>),
}

/// A file with the names of the directories that lead to it.
#[derive(Debug)]
pub struct FullFileEntry<'p> {
    /// The names of the directories from the top down, then the name of the
    /// file.
    pub path: Vec<String>,
    pub compression_info: Option<CompressionInfo>,
    pub checksum: i32,
    pub endian: Endian,
    pub raw_bytes: &'p [u8],
}

/// What a `FullFileEntry` holds, as mathematical values.
pub struct FullFileView {
    pub path: Seq<Seq<char>>,
    pub compression_info: Option<CompressionInfo>,
    pub checksum: i32,
    pub endian: Endian,
    pub raw_bytes: Seq<u8>,
}

/// The texts of a list of strings.
pub open spec fn texts(path: Seq<String>) -> Seq<Seq<char>> {
    Seq::new(path.len(), |i: int| path[i]@)
}

impl<'p> View for FullFileEntry<'p> {
    type V = FullFileView;

    open spec fn view(&self) -> FullFileView {
        FullFileView {
            path: texts(self.path@),
            compression_info: self.compression_info,
            checksum: self.checksum,
            endian: self.endian,
            raw_bytes: self.raw_bytes@,
        }
    }
}

impl FullFileEntry<'_> {
    /// The content of the file: the payload, decompressed if need be.
    pub fn get_bytes(&self) -> (r: Result<Vec<u8>, DecompressError>)
        ensures
            match r {
                Ok(out) => content_of(self.raw_bytes@, self.compression_info) == Some(out@),
                Err(_) => content_of(self.raw_bytes@, self.compression_info) is None,
            },
    {
        content(self.raw_bytes, self.compression_info)
    }

    /// Whether the payload is compressed.
    pub fn is_compressed(&self) -> (r: bool)
        ensures
            r == self.compression_info is Some,
    {
        self.compression_info.is_some()
    }

    /// Whether the checksum of the payload is the one recorded for it.
    pub fn checksum_match(&self) -> (r: bool)
        ensures
            r == (spec_bytes_sum(self.raw_bytes@, self.endian) == self.checksum),
    {
        bytes_sum(self.raw_bytes, self.endian) == self.checksum
    }
}

/// The file `f` as it is listed below the directories `prefix`.
pub open spec fn listed(f: FileEntry, prefix: Seq<Seq<char>>) -> FullFileView {
    FullFileView {
        path: prefix.push(f.name@),
        compression_info: f.compression_info,
        checksum: f.checksum,
        endian: f.endian,
        raw_bytes: f.raw_bytes@,
    }
}

/// The files below and including `entry`, depth first and in the order of the
/// tree, each with the names that lead to it from `prefix` on.
pub open spec fn flat_entry(entry: Entry, prefix: Seq<Seq<char>>) -> Seq<FullFileView>
    decreases entry,
{
    match entry {
        Entry::File(f) => seq![listed(f, prefix)],
        Entry::Dir(d) => flat_entries(d.entries@, d.entries@.len(), prefix.push(d.name@)),
    }
}

/// The files below and including the first `n` of `entries`.
pub open spec fn flat_entries(entries: Seq<Entry>, n: nat, prefix: Seq<Seq<char>>) -> Seq<
    FullFileView,
>
    decreases entries, n,
{
    if n == 0 || n > entries.len() {
        Seq::empty()
    } else {
        flat_entries(entries, (n - 1) as nat, prefix) + flat_entry(entries[n - 1], prefix)
    }
}

/// Number of files below and including `entry`.
pub open spec fn entry_files(entry: Entry) -> nat
    decreases entry,
{
    match entry {
        Entry::File(_) => 1,
        Entry::Dir(d) => entries_files(d.entries@, d.entries@.len()),
    }
}

/// Number of files below and including the first `n` of `entries`.
pub open spec fn entries_files(entries: Seq<Entry>, n: nat) -> nat
    decreases entries, n,
{
    if n == 0 || n > entries.len() {
        0
    } else {
        entries_files(entries, (n - 1) as nat) + entry_files(entries[n - 1])
    }
}

/// Number of directories below and including `entry`.
pub open spec fn entry_dirs(entry: Entry) -> nat
    decreases entry,
{
    match entry {
        Entry::File(_) => 0,
        Entry::Dir(d) => 1 + entries_dirs(d.entries@, d.entries@.len()),
    }
}

/// Number of directories below and including the first `n` of `entries`.
pub open spec fn entries_dirs(entries: Seq<Entry>, n: nat) -> nat
    decreases entries, n,
{
    if n == 0 || n > entries.len() {
        0
    } else {
        entries_dirs(entries, (n - 1) as nat) + entry_dirs(entries[n - 1])
    }
}

/// The listing of an entry has one item for each of its files.
pub proof fn lemma_flat_entry_len(entry: Entry, prefix: Seq<Seq<char>>)
    ensures
        flat_entry(entry, prefix).len() == entry_files(entry),
    decreases entry,
{
    match entry {
        Entry::File(_) => {},
        Entry::Dir(d) => {
            lemma_flat_len(d.entries@, d.entries@.len(), prefix.push(d.name@));
        },
    }
}

/// The listing of a list of entries has one item for each of their files.
pub proof fn lemma_flat_len(entries: Seq<Entry>, n: nat, prefix: Seq<Seq<char>>)
    requires
        n <= entries.len(),
    ensures
        flat_entries(entries, n, prefix).len() == entries_files(entries, n),
    decreases entries, n,
{
    if n > 0 {
        lemma_flat_len(entries, (n - 1) as nat, prefix);
        lemma_flat_entry_len(entries[n - 1], prefix);
    }
}

/// A copy of a list of strings.
pub(crate) fn copy_path(path: &Vec<String>) -> (r: Vec<String>)
    ensures
        texts(r@) == texts(path@),
{
    let mut r: Vec<String> = Vec::new();
    let mut i: usize = 0;
    while i < path.len()
        invariant
            i <= path.len(),
            r@.len() == i,
            forall|k: int| 0 <= k < i ==> r@[k]@ == path@[k]@,
        decreases path.len() - i,
    {
        r.push(path[i].clone());
        i += 1;
    }
    assert(texts(r@) =~= texts(path@));
    r
}

/// Appends the files below and including `entry` to `out`.
fn flatten_entry<'p>(entry: &Entry<'p>, prefix: &Vec<String>, out: &mut Vec<FullFileEntry<'p>>)
    ensures
        views(final(out)@) == views(old(out)@) + flat_entry(*entry, texts(prefix@)),
    decreases *entry,
{
    match entry {
        Entry::File(f) => {
            let mut path = copy_path(prefix);
            path.push(f.name.clone());
            let full = FullFileEntry {
                path,
                compression_info: f.compression_info,
                checksum: f.checksum,
                endian: f.endian,
                raw_bytes: f.raw_bytes,
            };
            assert(full@.path =~= texts(prefix@).push(f.name@));
            out.push(full);
            assert(views(out@) =~= views(old(out)@) + seq![listed(*f, texts(prefix@))]);
        },
        Entry::Dir(d) => {
            let mut path = copy_path(prefix);
            path.push(d.name.clone());
            assert(texts(path@) =~= texts(prefix@).push(d.name@));
            flatten_entries(&d.entries, &path, out);
        },
    }
}

/// Appends the files below and including `entries` to `out`.
fn flatten_entries<'p>(
    entries: &Vec<Entry<'p>>,
    prefix: &Vec<String>,
    out: &mut Vec<FullFileEntry<'p>>,
)
    ensures
        views(final(out)@) == views(old(out)@) + flat_entries(
            entries@,
            entries@.len(),
            texts(prefix@),
        ),
    decreases *entries,
{
    let mut i: usize = 0;
    assert(views(out@) =~= views(old(out)@) + flat_entries(entries@, 0, texts(prefix@)));
    while i < entries.len()
        invariant
            i <= entries.len(),
            views(out@) == views(old(out)@) + flat_entries(entries@, i as nat, texts(prefix@)),
        decreases entries.len() - i,
    {
        proof {
            vstd::std_specs::vec::axiom_vec_index_decreases(*entries, i as int);
        }
        flatten_entry(&entries[i], prefix, out);
        assert(views(out@) =~= views(old(out)@) + flat_entries(
            entries@,
            (i + 1) as nat,
            texts(prefix@),
        ));
        i += 1;
    }
}

/// What a list of files holds, as mathematical values.
pub open spec fn views(files: Seq<FullFileEntry>) -> Seq<FullFileView> {
    Seq::new(files.len(), |i: int| files[i]@)
}

impl<'p> Entry<'p> {
    /// The files below and including the entry, depth first and in the order
    /// of the tree.  The path of each names the directories from this entry
    /// down and then the file.
    pub fn flatten_to_files(&self) -> (files: Vec<FullFileEntry<'p>>)
        ensures
            views(files@) == flat_entry(*self, Seq::empty()),
            files@.len() == entry_files(*self),
    {
        let mut files: Vec<FullFileEntry<'p>> = Vec::new();
        let prefix: Vec<String> = Vec::new();
        assert(texts(prefix@) =~= Seq::<Seq<char>>::empty());
        assert(views(files@) =~= Seq::<FullFileView>::empty());
        flatten_entry(self, &prefix, &mut files);
        proof {
            assert(views(files@) =~= flat_entry(*self, Seq::empty()));
            lemma_flat_entry_len(*self, Seq::empty());
        }
        files
    }
}

} // verus!

verus! {

/// The payload that the table of contents names with these numbers in an
/// image: nothing for a file whose uncompressed size is zero.
pub open spec fn payload_of(
    image: Seq<u8>,
    uncompressed_size: u32,
    offset: u32,
    compressed_size: u32,
) -> Seq<u8> {
    if uncompressed_size == 0 {
        Seq::empty()
    } else {
        image.subrange(offset as int, offset + compressed_size)
    }
}

/// No file below and including `entry` has a replacement.
pub open spec fn entry_untouched(entry: Entry) -> bool
    decreases entry,
{
    match entry {
        Entry::File(f) => f.update is None,
        Entry::Dir(d) => entries_untouched(d.entries@, d.entries@.len()),
    }
}

/// No file below and including the first `n` of `entries` has a replacement.
pub open spec fn entries_untouched(entries: Seq<Entry>, n: nat) -> bool
    decreases entries, n,
{
    if n == 0 || n > entries.len() {
        true
    } else {
        entries_untouched(entries, (n - 1) as nat) && entry_untouched(entries[n - 1])
    }
}

/// The counts and the listing of the first `n` entries do not depend on what
/// follows them.
pub proof fn lemma_entries_prefix(a: Seq<Entry>, b: Seq<Entry>, n: nat, prefix: Seq<Seq<char>>)
    requires
        n <= a.len(),
        n <= b.len(),
        forall|i: int| 0 <= i < n ==> a[i] == b[i],
    ensures
        entries_files(a, n) == entries_files(b, n),
        entries_dirs(a, n) == entries_dirs(b, n),
        entries_untouched(a, n) == entries_untouched(b, n),
        flat_entries(a, n, prefix) == flat_entries(b, n, prefix),
    decreases n,
{
    if n > 0 {
        lemma_entries_prefix(a, b, (n - 1) as nat, prefix);
    }
}

} // verus!

verus! {

/// The payload of every file below and including `entry` has the checksum
/// that is recorded for it.
pub open spec fn entry_checksums_match(entry: Entry) -> bool
    decreases entry,
{
    match entry {
        Entry::File(f) => spec_bytes_sum(f.raw_bytes@, f.endian) == f.checksum,
        Entry::Dir(d) => entries_checksums_match(d.entries@, d.entries@.len()),
    }
}

/// The payload of every file below and including the first `n` of `entries`
/// has the checksum that is recorded for it.
pub open spec fn entries_checksums_match(entries: Seq<Entry>, n: nat) -> bool
    decreases entries, n,
{
    if n == 0 || n > entries.len() {
        true
    } else {
        entries_checksums_match(entries, (n - 1) as nat) && entry_checksums_match(entries[n - 1])
    }
}

/// Whether the payload of every file below and including `entry` has the
/// checksum that is recorded for it.
pub fn check_entry_checksums(entry: &Entry) -> (r: bool)
    ensures
        r == entry_checksums_match(*entry),
    decreases *entry,
{
    match entry {
        Entry::File(f) => f.checksum_match(),
        Entry::Dir(d) => check_entries_checksums(&d.entries),
    }
}

/// Whether the payload of every file below and including `entries` has the
/// checksum that is recorded for it.
pub fn check_entries_checksums(entries: &Vec<Entry>) -> (r: bool)
    ensures
        r == entries_checksums_match(entries@, entries@.len()),
    decreases *entries,
{
    let mut i: usize = 0;
    while i < entries.len()
        invariant
            i <= entries.len(),
            entries_checksums_match(entries@, i as nat),
        decreases entries.len() - i,
    {
        proof {
            vstd::std_specs::vec::axiom_vec_index_decreases(*entries, i as int);
        }
        if !check_entry_checksums(&entries[i]) {
            proof {
                if entries_checksums_match(entries@, entries@.len()) {
                    lemma_checksums_prefix(entries@, (i + 1) as nat, entries@.len());
                }
            }
            return false;
        }
        i += 1;
    }
    true
}

/// If the checksums of a list match, those of its first entries do.
pub proof fn lemma_checksums_prefix(entries: Seq<Entry>, k: nat, n: nat)
    requires
        k <= n <= entries.len(),
        entries_checksums_match(entries, n),
    ensures
        entries_checksums_match(entries, k),
    decreases n - k,
{
    if k < n {
        lemma_checksums_prefix(entries, k, (n - 1) as nat);
    }
}

} // verus!

verus! {

/// The files below and including `entry`, in the order of the listing.
pub open spec fn entry_file_list(entry: Entry) -> Seq<FileEntry>
    decreases entry,
{
    match entry {
        Entry::File(f) => seq![f],
        Entry::Dir(d) => entries_file_list(d.entries@, d.entries@.len()),
    }
}

/// The files below and including the first `n` of `entries`, in the order of
/// the listing.
pub open spec fn entries_file_list(entries: Seq<Entry>, n: nat) -> Seq<FileEntry>
    decreases entries, n,
{
    if n == 0 || n > entries.len() {
        Seq::empty()
    } else {
        entries_file_list(entries, (n - 1) as nat) + entry_file_list(entries[n - 1])
    }
}

/// The file list has a file for every item of the listing, with the same
/// name, payload and checksum.
pub proof fn lemma_file_list_entry(entry: Entry, prefix: Seq<Seq<char>>)
    ensures
        entry_file_list(entry).len() == flat_entry(entry, prefix).len(),
        forall|i: int|
            0 <= i < entry_file_list(entry).len() ==> {
                let f = entry_file_list(entry)[i];
                let item = #[trigger] flat_entry(entry, prefix)[i];
                &&& item.path.len() > 0
                &&& item.path.last() == f.name@
                &&& item.raw_bytes == f.raw_bytes@
                &&& item.checksum == f.checksum
                &&& item.endian == f.endian
                &&& item.compression_info == f.compression_info
            },
    decreases entry,
{
    match entry {
        Entry::File(f) => {},
        Entry::Dir(d) => {
            lemma_file_list_entries(d.entries@, d.entries@.len(), prefix.push(d.name@));
        },
    }
}

/// The file list has a file for every item of the listing, with the same
/// name, payload and checksum.
pub proof fn lemma_file_list_entries(entries: Seq<Entry>, n: nat, prefix: Seq<Seq<char>>)
    requires
        n <= entries.len(),
    ensures
        entries_file_list(entries, n).len() == flat_entries(entries, n, prefix).len(),
        forall|i: int|
            0 <= i < entries_file_list(entries, n).len() ==> {
                let f = entries_file_list(entries, n)[i];
                let item = #[trigger] flat_entries(entries, n, prefix)[i];
                &&& item.path.len() > 0
                &&& item.path.last() == f.name@
                &&& item.raw_bytes == f.raw_bytes@
                &&& item.checksum == f.checksum
                &&& item.endian == f.endian
                &&& item.compression_info == f.compression_info
            },
    decreases entries, n,
{
    if n > 0 {
        lemma_file_list_entries(entries, (n - 1) as nat, prefix);
        lemma_file_list_entry(entries[n - 1], prefix);
    }
}

/// The file at position `index` of the listing of `entries`, if the listing
/// is that long; else the length of the listing.
pub fn file_at<'x, 'p>(entries: &'x Vec<Entry<'p>>, index: usize) -> (r: Result<
    &'x FileEntry<'p>,
    usize,
>)
    ensures
        match r {
            Ok(f) => index < entries_file_list(entries@, entries@.len()).len() && *f
                == entries_file_list(entries@, entries@.len())[index as int],
            Err(files) => files == entries_file_list(entries@, entries@.len()).len() && index
                >= files,
        },
    decreases *entries,
{
    let mut rest = index;
    let mut i: usize = 0;
    while i < entries.len()
        invariant
            i <= entries.len(),
            index >= entries_file_list(entries@, i as nat).len(),
            rest == index - entries_file_list(entries@, i as nat).len(),
        decreases entries.len() - i,
    {
        proof {
            vstd::std_specs::vec::axiom_vec_index_decreases(*entries, i as int);
            lemma_file_list_grows(entries@, (i + 1) as nat, entries@.len());
            let before = entries_file_list(entries@, i as nat);
            let here = entry_file_list(entries@[i as int]);
            assert(entries_file_list(entries@, (i + 1) as nat) == before + here);
            match entries@[i as int] {
                Entry::File(f) => {
                    assert(here == seq![f]);
                },
                Entry::Dir(d) => {
                    assert(here == entries_file_list(d.entries@, d.entries@.len()));
                },
            }
        }
        match &entries[i] {
            Entry::File(f) => {
                if rest == 0 {
                    proof {
                        lemma_file_list_at(
                            entries@,
                            (i + 1) as nat,
                            entries@.len(),
                            index as int,
                        );
                    }
                    return Ok(f);
                }
                rest = rest - 1;
            },
            Entry::Dir(d) => {
                match file_at(&d.entries, rest) {
                    Ok(f) => {
                        proof {
                            lemma_file_list_at(
                                entries@,
                                (i + 1) as nat,
                                entries@.len(),
                                index as int,
                            );
                        }
                        return Ok(f);
                    },
                    Err(files) => {
                        rest = rest - files;
                    },
                }
            },
        }
        i += 1;
    }
    Err(index - rest)
}

/// The file list of the first entries is the start of the file list of more
/// entries.
pub proof fn lemma_file_list_grows(entries: Seq<Entry>, k: nat, n: nat)
    requires
        k <= n <= entries.len(),
    ensures
        entries_file_list(entries, k).len() <= entries_file_list(entries, n).len(),
    decreases n - k,
{
    if k < n {
        lemma_file_list_grows(entries, k, (n - 1) as nat);
    }
}

/// A file of the file list of the first entries is the file at the same
/// position of the file list of more entries.
pub proof fn lemma_file_list_at(entries: Seq<Entry>, k: nat, n: nat, j: int)
    requires
        k <= n <= entries.len(),
        0 <= j < entries_file_list(entries, k).len(),
    ensures
        j < entries_file_list(entries, n).len(),
        entries_file_list(entries, n)[j] == entries_file_list(entries, k)[j],
    decreases n - k,
{
    if k < n {
        lemma_file_list_at(entries, k, (n - 1) as nat, j);
    }
}

} // verus!
