//! The nested table of the first layout: a header, an optional pair of
//! CRC32s, and a tree of entries that carry their names.

use vstd::prelude::*;
use vstd::utf8::*;

use crate::structures::common::{
    crc32_ieee, generate_crc32, i32_bytes, lemma_i32_round_trip, lemma_split_at,
    lemma_u16_at_bytes, lemma_u16_round_trip, lemma_u32_at_bytes, lemma_u32_round_trip, read_i32, read_string, read_u16, read_u32, scan_string, string_bytes,
    u16_at, u16_bytes, u32_at, u32_bytes, write_i32, write_string, write_u16, write_u32,
    CodecError, Endian,
};

verus! {

/// Number of bytes of the header, signature included.
pub const HEADER_SIZE: usize = 32;

/// The header that follows the twelve signature bytes.
#[derive(Debug, Clone, Copy, PartialEq, Eq, Structural)]
pub struct Header {
    pub major_version: u16,
    pub minor_version: u16,
    pub root_count: u32,
    pub all_count: u32,
    pub file_count: u32,
    pub data_offset: u32,
}

/// The two CRC32s that follow the header of an archive whose minor version
/// is one: of the header bytes and of the bytes of the entry tree.
#[derive(Debug, Clone, Copy, PartialEq, Eq, Structural)]
pub struct Crc32 {
    pub header: u32,
    pub entries: u32,
}

/// One entry of the tree.
#[derive(Debug)]
pub struct Entry {
    pub entry_size: u32,
    pub kind: EntryKind,
}

/// The two kinds of entry.
#[derive(Debug)]
pub enum EntryKind {
    Dir(DirEntry),
    File(FileEntry),
}

/// What an entry says of a file.  `is_compressed` is kept as it is stored:
/// any value but zero means that the payload is compressed.
#[derive(Debug, Clone)]
pub struct FileEntry {
    pub is_compressed: u32,
    pub compressed_size: u32,
    pub uncompressed_size: u32,
    pub checksum: i32,
    pub offset: u32,
    pub name: String,
}

/// What an entry says of a directory.
#[derive(Debug)]
pub struct DirEntry {
    pub name: String,
    pub entries: Vec<Entry>,
}

/// An archive of the first layout, with the byte order it was read in.
#[derive(Debug)]
pub struct HvpArchive {
    pub endian: Endian,
    pub header: Header,
    pub checksums: Option<Crc32>,
    pub entries: Vec<Entry>,
}

/// The twelve signature bytes: the text `HV PackFile` and a zero byte.
pub open spec fn magic_bytes() -> Seq<u8> {
    seq![
        0x48u8,
        0x56u8,
        0x20u8,
        0x50u8,
        0x61u8,
        0x63u8,
        0x6bu8,
        0x46u8,
        0x69u8,
        0x6cu8,
        0x65u8,
        0u8,
    ]
}

/// The bytes of one entry and of everything below it.
pub open spec fn entry_bytes(entry: Entry, endian: Endian) -> Seq<u8>
    decreases entry,
{
    u32_bytes(entry.entry_size, endian) + match entry.kind {
        EntryKind::Dir(d) => seq![0u8] + u32_bytes(0, endian) + u32_bytes(
            d.entries@.len() as u32,
            endian,
        ) + string_bytes(d.name@, endian) + entries_bytes(d.entries@, d.entries@.len(), endian),
        EntryKind::File(f) => seq![1u8] + u32_bytes(f.is_compressed, endian) + u32_bytes(
            f.compressed_size,
            endian,
        ) + u32_bytes(f.uncompressed_size, endian) + i32_bytes(f.checksum, endian) + u32_bytes(
            f.offset,
            endian,
        ) + string_bytes(f.name@, endian),
    }
}

/// The bytes of the first `n` of `entries`, each with everything below it.
pub open spec fn entries_bytes(entries: Seq<Entry>, n: nat, endian: Endian) -> Seq<u8>
    decreases entries, n,
{
    if n == 0 || n > entries.len() {
        Seq::empty()
    } else {
        entries_bytes(entries, (n - 1) as nat, endian) + entry_bytes(entries[n - 1], endian)
    }
}

/// Number of entries in the tree below and including `entry`.
pub open spec fn entry_nodes(entry: Entry) -> nat
    decreases entry,
{
    match entry.kind {
        EntryKind::Dir(d) => 1 + entries_nodes(d.entries@, d.entries@.len()),
        EntryKind::File(_) => 1,
    }
}

/// Number of entries in the trees below and including the first `n` of
/// `entries`.
pub open spec fn entries_nodes(entries: Seq<Entry>, n: nat) -> nat
    decreases entries, n,
{
    if n == 0 || n > entries.len() {
        0
    } else {
        entries_nodes(entries, (n - 1) as nat) + entry_nodes(entries[n - 1])
    }
}

/// The entry can be written: its size field is positive, and every name and
/// every list of children below it has a length that fits its prefix.
pub open spec fn entry_wf(entry: Entry) -> bool
    decreases entry,
{
    &&& entry.entry_size > 0
    &&& match entry.kind {
        EntryKind::Dir(d) => {
            &&& encode_utf8(d.name@).len() <= u32::MAX
            &&& d.entries@.len() <= u32::MAX
            &&& entries_wf(d.entries@, d.entries@.len())
        },
        EntryKind::File(f) => encode_utf8(f.name@).len() <= u32::MAX,
    }
}

/// The first `n` of `entries` can be written.
pub open spec fn entries_wf(entries: Seq<Entry>, n: nat) -> bool
    decreases entries, n,
{
    if n == 0 || n > entries.len() {
        true
    } else {
        entries_wf(entries, (n - 1) as nat) && entry_wf(entries[n - 1])
    }
}

/// The payload of a file lies inside an image of `limit` bytes.  A file whose
/// uncompressed size is zero has no payload.
pub open spec fn payload_fits(uncompressed_size: u32, offset: u32, compressed_size: u32, limit: int) -> bool {
    uncompressed_size == 0 || offset + compressed_size <= limit
}

/// The payloads of all files below and including `entry` lie inside an image
/// of `limit` bytes.
pub open spec fn entry_fits(entry: Entry, limit: int) -> bool
    decreases entry,
{
    match entry.kind {
        EntryKind::Dir(d) => entries_fit(d.entries@, d.entries@.len(), limit),
        EntryKind::File(f) => payload_fits(f.uncompressed_size, f.offset, f.compressed_size, limit),
    }
}

/// The payloads of all files below and including the first `n` of `entries`
/// lie inside an image of `limit` bytes.
pub open spec fn entries_fit(entries: Seq<Entry>, n: nat, limit: int) -> bool
    decreases entries, n,
{
    if n == 0 || n > entries.len() {
        true
    } else {
        entries_fit(entries, (n - 1) as nat, limit) && entry_fits(entries[n - 1], limit)
    }
}

/// Where the entry that starts at `at` ends, with everything below it, and
/// whether the payloads of its files lie inside `data`; or the reason why
/// there is no entry.
pub open spec fn scan_entry(data: Seq<u8>, at: int, endian: Endian) -> Result<
    (int, bool),
    CodecError,
>
    decreases data.len() - at, 0int,
{
    if at < 0 || at + 5 > data.len() {
        Err(CodecError::UnexpectedEof)
    } else if u32_at(data, at, endian) == 0 {
        Err(CodecError::InvalidField)
    } else if data[at + 4] == 0 {
        if at + 13 > data.len() {
            Err(CodecError::UnexpectedEof)
        } else if u32_at(data, at + 5, endian) != 0 {
            Err(CodecError::InvalidField)
        } else {
            match scan_string(data, at + 13, endian) {
                Err(e) => Err(e),
                Ok(p) => scan_entries(data, p, u32_at(data, at + 9, endian) as nat, endian),
            }
        }
    } else if data[at + 4] == 1 {
        if at + 25 > data.len() {
            Err(CodecError::UnexpectedEof)
        } else {
            match scan_string(data, at + 25, endian) {
                Err(e) => Err(e),
                Ok(end) => Ok(
                    (
                        end,
                        payload_fits(
                            u32_at(data, at + 13, endian),
                            u32_at(data, at + 21, endian),
                            u32_at(data, at + 9, endian),
                            data.len() as int,
                        ),
                    ),
                ),
            }
        }
    } else {
        Err(CodecError::UnknownEntryKind)
    }
}

/// Where the `n` entries that start at `at` end, and whether the payloads of
/// their files lie inside `data`; or the reason why the first of them that
/// cannot be read cannot.  An entry ends after its start.
pub open spec fn scan_entries(data: Seq<u8>, at: int, n: nat, endian: Endian) -> Result<
    (int, bool),
    CodecError,
>
    decreases data.len() - at, n + 1,
{
    if n == 0 {
        Ok((at, true))
    } else if at < 0 || at + 5 > data.len() {
        Err(CodecError::UnexpectedEof)
    } else {
        match scan_entry(data, at, endian) {
            Err(e) => Err(e),
            Ok((p, first)) => if at < p <= data.len() {
                match scan_entries(data, p, (n - 1) as nat, endian) {
                    Err(e) => Err(e),
                    Ok((end, rest)) => Ok((end, first && rest)),
                }
            } else {
                Err(CodecError::UnexpectedEof)
            },
        }
    }
}

} // verus!

verus! {

/// `entries_bytes`, `entries_nodes` and `entries_wf` look at the first `n`
/// entries only.
pub proof fn lemma_entries_prefix(
    a: Seq<Entry>,
    b: Seq<Entry>,
    n: nat,
    endian: Endian,
    limit: int,
)
    requires
        n <= a.len(),
        n <= b.len(),
        forall|i: int| 0 <= i < n ==> a[i] == b[i],
    ensures
        entries_bytes(a, n, endian) == entries_bytes(b, n, endian),
        entries_nodes(a, n) == entries_nodes(b, n),
        entries_wf(a, n) == entries_wf(b, n),
        entries_fit(a, n, limit) == entries_fit(b, n, limit),
    decreases n,
{
    if n > 0 {
        lemma_entries_prefix(a, b, (n - 1) as nat, endian, limit);
    }
}

/// The bytes of a file entry are its fields one after the other.
proof fn lemma_file_bytes(data: Seq<u8>, at: int, end: int, entry: Entry, endian: Endian)
    requires
        0 <= at,
        at + 29 <= end <= data.len(),
        data[at + 4] == 1,
        entry.kind is File,
        u32_bytes(entry.entry_size, endian) == data.subrange(at, at + 4),
        u32_bytes(entry.kind->File_0.is_compressed, endian) == data.subrange(at + 5, at + 9),
        u32_bytes(entry.kind->File_0.compressed_size, endian) == data.subrange(at + 9, at + 13),
        u32_bytes(entry.kind->File_0.uncompressed_size, endian) == data.subrange(at + 13, at + 17),
        i32_bytes(entry.kind->File_0.checksum, endian) == data.subrange(at + 17, at + 21),
        u32_bytes(entry.kind->File_0.offset, endian) == data.subrange(at + 21, at + 25),
        string_bytes(entry.kind->File_0.name@, endian) == data.subrange(at + 25, end),
    ensures
        entry_bytes(entry, endian) == data.subrange(at, end),
{
    let d = data;
    assert(seq![1u8] =~= d.subrange(at + 4, at + 5));
    assert(d.subrange(at + 4, at + 5) + d.subrange(at + 5, at + 9) =~= d.subrange(at + 4, at + 9));
    assert(d.subrange(at + 4, at + 9) + d.subrange(at + 9, at + 13) =~= d.subrange(at + 4, at + 13));
    assert(d.subrange(at + 4, at + 13) + d.subrange(at + 13, at + 17) =~= d.subrange(
        at + 4,
        at + 17,
    ));
    assert(d.subrange(at + 4, at + 17) + d.subrange(at + 17, at + 21) =~= d.subrange(
        at + 4,
        at + 21,
    ));
    assert(d.subrange(at + 4, at + 21) + d.subrange(at + 21, at + 25) =~= d.subrange(
        at + 4,
        at + 25,
    ));
    assert(d.subrange(at + 4, at + 25) + d.subrange(at + 25, end) =~= d.subrange(at + 4, end));
    assert(d.subrange(at, at + 4) + d.subrange(at + 4, end) =~= d.subrange(at, end));
}

/// The bytes of a directory entry are its fields one after the other, then
/// its children.
proof fn lemma_dir_bytes(data: Seq<u8>, at: int, p: int, end: int, entry: Entry, endian: Endian)
    requires
        0 <= at,
        at + 17 <= p <= end <= data.len(),
        data[at + 4] == 0,
        entry.kind is Dir,
        u32_bytes(entry.entry_size, endian) == data.subrange(at, at + 4),
        u32_bytes(0, endian) == data.subrange(at + 5, at + 9),
        u32_bytes(entry.kind->Dir_0.entries@.len() as u32, endian) == data.subrange(
            at + 9,
            at + 13,
        ),
        string_bytes(entry.kind->Dir_0.name@, endian) == data.subrange(at + 13, p),
        entries_bytes(entry.kind->Dir_0.entries@, entry.kind->Dir_0.entries@.len(), endian)
            == data.subrange(p, end),
    ensures
        entry_bytes(entry, endian) == data.subrange(at, end),
{
    let d = data;
    assert(seq![0u8] =~= d.subrange(at + 4, at + 5));
    assert(d.subrange(at + 4, at + 5) + d.subrange(at + 5, at + 9) =~= d.subrange(at + 4, at + 9));
    assert(d.subrange(at + 4, at + 9) + d.subrange(at + 9, at + 13) =~= d.subrange(at + 4, at + 13));
    assert(d.subrange(at + 4, at + 13) + d.subrange(at + 13, p) =~= d.subrange(at + 4, p));
    assert(d.subrange(at + 4, p) + d.subrange(p, end) =~= d.subrange(at + 4, end));
    assert(d.subrange(at, at + 4) + d.subrange(at + 4, end) =~= d.subrange(at, end));
}

/// Reads the entry at `at` with everything below it, and says where it ends.
///
/// Succeeds exactly when `scan_entry` finds an entry there; the entry that is
/// returned is the one whose bytes are the bytes that were read.
#[verifier::rlimit(50)]
pub fn parse_entry(data: &[u8], at: usize, endian: Endian) -> (r: Result<(Entry, usize), CodecError>)
    requires
        at <= data.len(),
    ensures
        match r {
            Ok((entry, end)) => {
                &&& scan_entry(data@, at as int, endian) == Ok::<(int, bool), CodecError>(
                    (end as int, entry_fits(entry, data@.len() as int)),
                )
                &&& at + 5 <= end <= data.len()
                &&& entry_wf(entry)
                &&& entry_bytes(entry, endian) == data@.subrange(at as int, end as int)
                &&& 5 * entry_nodes(entry) <= end - at
            },
            Err(e) => scan_entry(data@, at as int, endian) == Err::<(int, bool), CodecError>(e),
        },
    decreases data.len() - at, 0int,
{
    if data.len() - at < 5 {
        return Err(CodecError::UnexpectedEof);
    }
    let entry_size = read_u32(data, at, endian);
    if entry_size == 0 {
        return Err(CodecError::InvalidField);
    }
    let tag = data[at + 4];
    proof {
        lemma_u32_round_trip(data@, at as int, 0, endian);
    }
    if tag == 0 {
        if data.len() - at < 13 {
            return Err(CodecError::UnexpectedEof);
        }
        if read_u32(data, at + 5, endian) != 0 {
            return Err(CodecError::InvalidField);
        }
        let count = read_u32(data, at + 9, endian);
        let (name, p) = match read_string(data, at + 13, endian) {
            Err(e) => {
                return Err(e);
            },
            Ok(r) => r,
        };
        let (entries, end) = match parse_entries(data, p, count, endian) {
            Err(e) => {
                return Err(e);
            },
            Ok(r) => r,
        };
        let entry = Entry { entry_size, kind: EntryKind::Dir(DirEntry { name, entries }) };
        proof {
            lemma_u32_round_trip(data@, at + 5, 0, endian);
            lemma_u32_round_trip(data@, at + 9, 0, endian);
            lemma_dir_bytes(data@, at as int, p as int, end as int, entry, endian);
        }
        Ok((entry, end))
    } else if tag == 1 {
        if data.len() - at < 25 {
            return Err(CodecError::UnexpectedEof);
        }
        let is_compressed = read_u32(data, at + 5, endian);
        let compressed_size = read_u32(data, at + 9, endian);
        let uncompressed_size = read_u32(data, at + 13, endian);
        let checksum = read_i32(data, at + 17, endian);
        let offset = read_u32(data, at + 21, endian);
        let (name, end) = match read_string(data, at + 25, endian) {
            Err(e) => {
                return Err(e);
            },
            Ok(r) => r,
        };
        let entry = Entry {
            entry_size,
            kind: EntryKind::File(
                FileEntry {
                    is_compressed,
                    compressed_size,
                    uncompressed_size,
                    checksum,
                    offset,
                    name,
                },
            ),
        };
        proof {
            lemma_u32_round_trip(data@, at + 5, 0, endian);
            lemma_u32_round_trip(data@, at + 9, 0, endian);
            lemma_u32_round_trip(data@, at + 13, 0, endian);
            lemma_i32_round_trip(data@, at + 17, 0, 0, endian);
            lemma_u32_round_trip(data@, at + 21, 0, endian);
            lemma_file_bytes(data@, at as int, end as int, entry, endian);
        }
        Ok((entry, end))
    } else {
        Err(CodecError::UnknownEntryKind)
    }
}

/// The outcome of a scan whose entries come after others, of which `before`
/// says whether their payloads fit.
pub open spec fn with_fit(r: Result<(int, bool), CodecError>, before: bool) -> Result<
    (int, bool),
    CodecError,
> {
    match r {
        Err(e) => Err(e),
        Ok((end, fits)) => Ok((end, before && fits)),
    }
}

/// Reads `n` entries from `at` on, each with everything below it, and says
/// where the last one ends.
#[verifier::rlimit(50)]
pub fn parse_entries(data: &[u8], at: usize, n: u32, endian: Endian) -> (r: Result<
    (Vec<Entry>, usize),
    CodecError,
>)
    requires
        at <= data.len(),
    ensures
        match r {
            Ok((entries, end)) => {
                &&& scan_entries(data@, at as int, n as nat, endian) == Ok::<
                    (int, bool),
                    CodecError,
                >((end as int, entries_fit(entries@, n as nat, data@.len() as int)))
                &&& at <= end <= data.len()
                &&& entries@.len() == n
                &&& entries_wf(entries@, n as nat)
                &&& entries_bytes(entries@, n as nat, endian) == data@.subrange(
                    at as int,
                    end as int,
                )
                &&& 5 * entries_nodes(entries@, n as nat) <= end - at
            },
            Err(e) => scan_entries(data@, at as int, n as nat, endian) == Err::<
                (int, bool),
                CodecError,
            >(e),
        },
    decreases data.len() - at, 1int,
{
    let mut entries: Vec<Entry> = Vec::new();
    let mut k: u32 = 0;
    let mut pos: usize = at;
    assert(data@.subrange(at as int, at as int) =~= Seq::<u8>::empty());
    while k < n
        invariant
            k <= n,
            at <= pos <= data.len(),
            entries@.len() == k,
            scan_entries(data@, at as int, n as nat, endian) == with_fit(
                scan_entries(data@, pos as int, (n - k) as nat, endian),
                entries_fit(entries@, k as nat, data@.len() as int),
            ),
            entries_wf(entries@, k as nat),
            entries_bytes(entries@, k as nat, endian) == data@.subrange(at as int, pos as int),
            5 * entries_nodes(entries@, k as nat) <= pos - at,
        decreases n - k,
    {
        if data.len() - pos < 5 {
            return Err(CodecError::UnexpectedEof);
        }
        let (entry, end) = match parse_entry(data, pos, endian) {
            Err(e) => {
                return Err(e);
            },
            Ok(r) => r,
        };
        let ghost before = entries@;
        let ghost rest = scan_entries(data@, pos as int, (n - k) as nat, endian);
        entries.push(entry);
        proof {
            let limit = data@.len() as int;
            let now = entries@;
            lemma_entries_prefix(before, now, k as nat, endian, limit);
            assert(now[k as int] == entry);
            assert(entries_wf(now, (k + 1) as nat));
            assert(entries_nodes(now, (k + 1) as nat) == entries_nodes(before, k as nat)
                + entry_nodes(entry));
            assert(entries_fit(now, (k + 1) as nat, limit) == (entries_fit(before, k as nat, limit)
                && entry_fits(entry, limit)));
            assert(entries_bytes(now, (k + 1) as nat, endian) == entries_bytes(
                before,
                k as nat,
                endian,
            ) + entry_bytes(entry, endian));
            assert(data@.subrange(at as int, pos as int) + data@.subrange(pos as int, end as int)
                =~= data@.subrange(at as int, end as int));
            assert(rest == with_fit(
                scan_entries(data@, end as int, (n - k - 1) as nat, endian),
                entry_fits(entry, limit),
            ));
        }
        pos = end;
        k = k + 1;
    }
    Ok((entries, pos))
}

} // verus!

verus! {

/// Appending a head and then a body is appending the head followed by the
/// body.
proof fn lemma_append_parts(start: Seq<u8>, head: Seq<u8>, body: Seq<u8>)
    ensures
        (start + head) + body == start + (head + body),
{
    assert((start + head) + body =~= start + (head + body));
}

/// Appends `entry` and everything below it to `out`.
#[verifier::rlimit(50)]
pub fn write_entry(entry: &Entry, out: &mut Vec<u8>, endian: Endian)
    requires
        entry_wf(*entry),
    ensures
        final(out)@ == old(out)@ + entry_bytes(*entry, endian),
    decreases *entry,
{
    let ghost start = out@;
    write_u32(out, entry.entry_size, endian);
    let ghost size = u32_bytes(entry.entry_size, endian);
    match &entry.kind {
        EntryKind::Dir(d) => {
            let ghost mid = out@;
            out.push(0);
            write_u32(out, 0, endian);
            write_u32(out, d.entries.len() as u32, endian);
            write_string(out, d.name.as_str(), endian);
            let ghost fields = seq![0u8] + u32_bytes(0, endian) + u32_bytes(
                d.entries@.len() as u32,
                endian,
            ) + string_bytes(d.name@, endian);
            assert(out@ =~= mid + fields);
            write_entries(&d.entries, out, endian);
            proof {
                let below = entries_bytes(d.entries@, d.entries@.len(), endian);
                lemma_append_parts(mid, fields, below);
                lemma_append_parts(start, size, fields + below);
            }
        },
        EntryKind::File(f) => {
            let ghost mid = out@;
            out.push(1);
            write_u32(out, f.is_compressed, endian);
            write_u32(out, f.compressed_size, endian);
            write_u32(out, f.uncompressed_size, endian);
            write_i32(out, f.checksum, endian);
            write_u32(out, f.offset, endian);
            write_string(out, f.name.as_str(), endian);
            let ghost fields = seq![1u8] + u32_bytes(f.is_compressed, endian) + u32_bytes(
                f.compressed_size,
                endian,
            ) + u32_bytes(f.uncompressed_size, endian) + i32_bytes(f.checksum, endian) + u32_bytes(
                f.offset,
                endian,
            ) + string_bytes(f.name@, endian);
            assert(out@ =~= mid + fields);
            proof {
                lemma_append_parts(start, size, fields);
            }
        },
    }
}

/// Appends `entries`, each with everything below it, to `out`.
pub fn write_entries(entries: &Vec<Entry>, out: &mut Vec<u8>, endian: Endian)
    requires
        entries_wf(entries@, entries@.len()),
    ensures
        final(out)@ == old(out)@ + entries_bytes(entries@, entries@.len(), endian),
    decreases *entries,
{
    let mut i: usize = 0;
    assert(out@ =~= old(out)@ + entries_bytes(entries@, 0, endian));
    while i < entries.len()
        invariant
            i <= entries.len(),
            entries_wf(entries@, entries@.len()),
            out@ == old(out)@ + entries_bytes(entries@, i as nat, endian),
        decreases entries.len() - i,
    {
        proof {
            lemma_entries_wf_at(entries@, entries@.len(), i as int);
            vstd::std_specs::vec::axiom_vec_index_decreases(*entries, i as int);
        }
        let ghost before = out@;
        write_entry(&entries[i], out, endian);
        proof {
            lemma_append_parts(
                old(out)@,
                entries_bytes(entries@, i as nat, endian),
                entry_bytes(entries@[i as int], endian),
            );
        }
        i += 1;
    }
}

/// Each of the first `n` entries can be written if all of them can.
pub proof fn lemma_entries_wf_at(entries: Seq<Entry>, n: nat, i: int)
    requires
        entries_wf(entries, n),
        n <= entries.len(),
        0 <= i < n,
    ensures
        entry_wf(entries[i]),
    decreases n,
{
    if i < n - 1 {
        lemma_entries_wf_at(entries, (n - 1) as nat, i);
    }
}

impl Header {
    /// The thirty-two bytes of the header, signature included.
    pub open spec fn spec_bytes(self, endian: Endian) -> Seq<u8> {
        magic_bytes() + u16_bytes(self.major_version, endian) + u16_bytes(
            self.minor_version,
            endian,
        ) + u32_bytes(self.root_count, endian) + u32_bytes(self.all_count, endian) + u32_bytes(
            self.file_count,
            endian,
        ) + u32_bytes(self.data_offset, endian)
    }

    /// Appends the header to `out`.
    pub fn write(&self, out: &mut Vec<u8>, endian: Endian)
        ensures
            final(out)@ == old(out)@ + self.spec_bytes(endian),
    {
        let magic: [u8; 12] = [0x48, 0x56, 0x20, 0x50, 0x61, 0x63, 0x6b, 0x46, 0x69, 0x6c, 0x65, 0];
        let mut i: usize = 0;
        while i < 12
            invariant
                i <= 12,
                magic@ =~= magic_bytes(),
                out@ == old(out)@ + magic@.subrange(0, i as int),
            decreases 12 - i,
        {
            out.push(magic[i]);
            assert(out@ =~= old(out)@ + magic@.subrange(0, i + 1));
            i += 1;
        }
        assert(magic@.subrange(0, 12) =~= magic_bytes());
        write_u16(out, self.major_version, endian);
        write_u16(out, self.minor_version, endian);
        write_u32(out, self.root_count, endian);
        write_u32(out, self.all_count, endian);
        write_u32(out, self.file_count, endian);
        write_u32(out, self.data_offset, endian);
        assert(out@ =~= old(out)@ + self.spec_bytes(endian));
    }
}

/// The bytes of the pair of CRC32s, or nothing where there is none.
pub open spec fn checksums_bytes(checksums: Option<Crc32>, endian: Endian) -> Seq<u8> {
    match checksums {
        Some(c) => u32_bytes(c.header, endian) + u32_bytes(c.entries, endian),
        None => Seq::empty(),
    }
}

/// Where the `n` entries that start at `at` end, checked against the CRC32
/// that is expected of their bytes, if one is.
pub open spec fn validated_entries(
    data: Seq<u8>,
    at: int,
    n: nat,
    expected_crc32: Option<u32>,
    endian: Endian,
) -> Result<(int, bool), CodecError> {
    match scan_entries(data, at, n, endian) {
        Err(e) => Err(e),
        Ok((end, fits)) => if expected_crc32 matches Some(crc) && !(at <= end <= data.len()
            && crc32_ieee(data.subrange(at, end)) == crc) {
            Err(CodecError::Crc32Mismatch)
        } else {
            Ok((end, fits))
        },
    }
}

/// Where the table of contents that starts `data` ends, or the reason why
/// `data` starts with no table of this layout in the byte order `endian`.
#[verifier::opaque]
pub open spec fn scan_archive(data: Seq<u8>, endian: Endian) -> Result<(int, bool), CodecError> {
    if data.len() < 12 {
        Err(CodecError::UnexpectedEof)
    } else if data.subrange(0, 12) != magic_bytes() {
        Err(CodecError::BadMagic)
    } else if data.len() < HEADER_SIZE {
        Err(CodecError::UnexpectedEof)
    } else if u32_at(data, 16, endian) == 0 || u32_at(data, 20, endian) == 0 || u32_at(
        data,
        24,
        endian,
    ) == 0 || u32_at(data, 28, endian) == 0 {
        Err(CodecError::InvalidField)
    } else if u16_at(data, 14, endian) == 1 {
        if data.len() < HEADER_SIZE + 8 {
            Err(CodecError::UnexpectedEof)
        } else {
            validated_entries(
                data,
                HEADER_SIZE + 8,
                u32_at(data, 16, endian) as nat,
                Some(u32_at(data, 36, endian)),
                endian,
            )
        }
    } else {
        validated_entries(data, HEADER_SIZE as int, u32_at(data, 16, endian) as nat, None, endian)
    }
}

/// Reads `n` entries from `at` on, each with everything below it, and
/// checks the CRC32 of their bytes against the one that is expected, if one
/// is.
#[verifier::rlimit(50)]
pub fn read_entries_with_validation(
    data: &[u8],
    at: usize,
    n: u32,
    expected_crc32: Option<u32>,
    endian: Endian,
) -> (r: Result<(Vec<Entry>, usize), CodecError>)
    requires
        at <= data.len(),
    ensures
        match r {
            Ok((entries, end)) => {
                &&& validated_entries(data@, at as int, n as nat, expected_crc32, endian) == Ok::<
                    (int, bool),
                    CodecError,
                >((end as int, entries_fit(entries@, n as nat, data@.len() as int)))
                &&& at <= end <= data.len()
                &&& entries@.len() == n
                &&& entries_wf(entries@, n as nat)
                &&& entries_bytes(entries@, n as nat, endian) == data@.subrange(
                    at as int,
                    end as int,
                )
                &&& 5 * entries_nodes(entries@, n as nat) <= end - at
                &&& expected_crc32 matches Some(crc) ==> crc == crc32_ieee(
                    entries_bytes(entries@, n as nat, endian),
                )
            },
            Err(e) => validated_entries(data@, at as int, n as nat, expected_crc32, endian)
                == Err::<(int, bool), CodecError>(e),
        },
{
    let (entries, end) = match parse_entries(data, at, n, endian) {
        Err(e) => {
            return Err(e);
        },
        Ok(r) => r,
    };
    match expected_crc32 {
        None => Ok((entries, end)),
        Some(crc) => {
            let region = vstd::slice::slice_subrange(data, at, end);
            if generate_crc32(region) != crc {
                Err(CodecError::Crc32Mismatch)
            } else {
                Ok((entries, end))
            }
        },
    }
}

impl HvpArchive {
    /// The archive is one that `parse` can return: the counts of the header
    /// are positive, the first of them counts the entries at the top, the pair
    /// of CRC32s is there exactly when the minor version is one and then holds
    /// the CRC32 of the bytes of the entries, every entry can be written, and
    /// the tree has no more entries than can be counted.
    pub open spec fn wf(self) -> bool {
        &&& self.header.root_count == self.entries@.len()
        &&& self.header.root_count > 0
        &&& self.header.all_count > 0
        &&& self.header.file_count > 0
        &&& self.header.data_offset > 0
        &&& self.checksums is Some <==> self.header.minor_version == 1
        &&& self.checksums matches Some(c) ==> c.entries == crc32_ieee(
            entries_bytes(self.entries@, self.entries@.len(), self.endian),
        )
        &&& entries_wf(self.entries@, self.entries@.len())
        &&& entries_nodes(self.entries@, self.entries@.len()) <= usize::MAX
    }

    /// The bytes of the table of contents.
    pub open spec fn spec_bytes(self) -> Seq<u8> {
        self.header.spec_bytes(self.endian) + checksums_bytes(self.checksums, self.endian)
            + entries_bytes(self.entries@, self.entries@.len(), self.endian)
    }

    /// Reads a table of contents from the start of `data`, in the byte order
    /// `endian`, and says where it ends.
    ///
    /// Succeeds exactly when `scan_archive` finds a table; the archive that is
    /// returned is the one whose bytes are the bytes that were read.  Those
    /// bytes determine the header, the CRC32s and the tree of entries: see
    /// `law_bytes_determine_the_table` of the archive model.
    #[verifier::rlimit(50)]
    pub fn parse(data: &[u8], endian: Endian) -> (r: Result<(HvpArchive, usize), CodecError>)
        ensures
            match r {
                Ok((archive, end)) => {
                    &&& scan_archive(data@, endian) == Ok::<(int, bool), CodecError>(
                        (
                            end as int,
                            entries_fit(archive.entries@, archive.entries@.len(), data@.len() as int),
                        ),
                    )
                    &&& end <= data.len()
                    &&& archive.endian == endian
                    &&& archive.wf()
                    &&& archive.spec_bytes() == data@.subrange(0, end as int)
                },
                Err(e) => scan_archive(data@, endian) == Err::<(int, bool), CodecError>(e),
            },
    {
        reveal(scan_archive);
        if data.len() < 12 {
            return Err(CodecError::UnexpectedEof);
        }
        let magic: [u8; 12] = [0x48, 0x56, 0x20, 0x50, 0x61, 0x63, 0x6b, 0x46, 0x69, 0x6c, 0x65, 0];
        assert(magic@ =~= magic_bytes());
        let mut i: usize = 0;
        while i < 12
            invariant
                i <= 12,
                data.len() >= 12,
                magic@ == magic_bytes(),
                forall|k: int| 0 <= k < i ==> data@[k] == magic@[k],
            decreases 12 - i,
        {
            if data[i] != magic[i] {
                proof {
                    reveal(scan_archive);
                    assert(data@.subrange(0, 12)[i as int] == data@[i as int]);
                }
                return Err(CodecError::BadMagic);
            }
            i += 1;
        }
        assert(data@.subrange(0, 12) =~= magic_bytes());
        if data.len() < HEADER_SIZE {
            return Err(CodecError::UnexpectedEof);
        }
        let header = Header {
            major_version: read_u16(data, 12, endian),
            minor_version: read_u16(data, 14, endian),
            root_count: read_u32(data, 16, endian),
            all_count: read_u32(data, 20, endian),
            file_count: read_u32(data, 24, endian),
            data_offset: read_u32(data, 28, endian),
        };
        if header.root_count == 0 || header.all_count == 0 || header.file_count == 0
            || header.data_offset == 0 {
            return Err(CodecError::InvalidField);
        }
        proof {
            lemma_u16_round_trip(data@, 12, 0, endian);
            lemma_u16_round_trip(data@, 14, 0, endian);
            lemma_u32_round_trip(data@, 16, 0, endian);
            lemma_u32_round_trip(data@, 20, 0, endian);
            lemma_u32_round_trip(data@, 24, 0, endian);
            lemma_u32_round_trip(data@, 28, 0, endian);
            let d = data@;
            assert(d.subrange(0, 12) + d.subrange(12, 14) + d.subrange(14, 16) + d.subrange(16, 20)
                + d.subrange(20, 24) + d.subrange(24, 28) + d.subrange(28, 32) =~= d.subrange(
                0,
                32,
            ));
        }
        if header.minor_version == 1 {
            if data.len() < HEADER_SIZE + 8 {
                return Err(CodecError::UnexpectedEof);
            }
            let checksums = Crc32 {
                header: read_u32(data, 32, endian),
                entries: read_u32(data, 36, endian),
            };
            let (entries, end) = match read_entries_with_validation(
                data,
                HEADER_SIZE + 8,
                header.root_count,
                Some(checksums.entries),
                endian,
            ) {
                Err(e) => {
                    return Err(e);
                },
                Ok(r) => r,
            };
            proof {
                lemma_u32_round_trip(data@, 32, 0, endian);
                lemma_u32_round_trip(data@, 36, 0, endian);
                let d = data@;
                assert(d.subrange(0, 32) + (d.subrange(32, 36) + d.subrange(36, 40)) + d.subrange(
                    40,
                    end as int,
                ) =~= d.subrange(0, end as int));
            }
            Ok((HvpArchive { endian, header, checksums: Some(checksums), entries }, end))
        } else {
            let (entries, end) = match read_entries_with_validation(
                data,
                HEADER_SIZE,
                header.root_count,
                None,
                endian,
            ) {
                Err(e) => {
                    return Err(e);
                },
                Ok(r) => r,
            };
            proof {
                let d = data@;
                assert(d.subrange(0, 32) + Seq::<u8>::empty() + d.subrange(32, end as int)
                    =~= d.subrange(0, end as int));
            }
            Ok((HvpArchive { endian, header, checksums: None, entries }, end))
        }
    }

    /// Appends the table of contents to `out`.
    pub fn write(&self, out: &mut Vec<u8>)
        requires
            entries_wf(self.entries@, self.entries@.len()),
        ensures
            final(out)@ == old(out)@ + self.spec_bytes(),
    {
        self.header.write(out, self.endian);
        match self.checksums {
            Some(c) => {
                write_u32(out, c.header, self.endian);
                write_u32(out, c.entries, self.endian);
            },
            None => {},
        }
        assert(out@ =~= old(out)@ + self.header.spec_bytes(self.endian) + checksums_bytes(
            self.checksums,
            self.endian,
        ));
        write_entries(&self.entries, out, self.endian);
    }

    /// Where the archive has the pair of CRC32s, stores in it the CRC32 of the
    /// header bytes and the CRC32 of the bytes of the entry tree, both as they
    /// are written in the byte order of the archive.
    pub fn update_checksums(&mut self)
        requires
            entries_wf(old(self).entries@, old(self).entries@.len()),
        ensures
            final(self).endian == old(self).endian,
            final(self).header == old(self).header,
            final(self).entries == old(self).entries,
            final(self).checksums == match old(self).checksums {
                Some(_) => Some(
                    Crc32 {
                        header: crc32_ieee(old(self).header.spec_bytes(old(self).endian)),
                        entries: crc32_ieee(
                            entries_bytes(
                                old(self).entries@,
                                old(self).entries@.len(),
                                old(self).endian,
                            ),
                        ),
                    },
                ),
                None => None,
            },
    {
        if self.checksums.is_some() {
            let mut head: Vec<u8> = Vec::new();
            self.header.write(&mut head, self.endian);
            assert(head@ =~= self.header.spec_bytes(self.endian));
            let mut body: Vec<u8> = Vec::new();
            write_entries(&self.entries, &mut body, self.endian);
            assert(body@ =~= entries_bytes(self.entries@, self.entries@.len(), self.endian));
            self.checksums = Some(
                Crc32 {
                    header: generate_crc32(head.as_slice()),
                    entries: generate_crc32(body.as_slice()),
                },
            );
        }
    }
}

} // verus!

verus! {

/// The bytes of the first entries of a list are the start of the bytes of
/// the list.
pub proof fn lemma_entries_bytes_prefix(entries: Seq<Entry>, k: nat, n: nat, endian: Endian)
    requires
        k <= n <= entries.len(),
    ensures
        entries_bytes(entries, k, endian).len() <= entries_bytes(entries, n, endian).len(),
        entries_bytes(entries, n, endian).subrange(
            0,
            entries_bytes(entries, k, endian).len() as int,
        ) == entries_bytes(entries, k, endian),
    decreases n - k,
{
    if k < n {
        lemma_entries_bytes_prefix(entries, k, (n - 1) as nat, endian);
        let shorter = entries_bytes(entries, (n - 1) as nat, endian);
        let whole = entries_bytes(entries, n, endian);
        let first = entries_bytes(entries, k, endian);
        assert(whole.subrange(0, first.len() as int) =~= shorter.subrange(0, first.len() as int));
    } else {
        let whole = entries_bytes(entries, n, endian);
        assert(whole.subrange(0, whole.len() as int) =~= whole);
    }
}

/// A text that was written is found again where it was written.
pub proof fn lemma_encode_string(data: Seq<u8>, at: int, text: Seq<char>, endian: Endian)
    requires
        0 <= at,
        encode_utf8(text).len() <= u32::MAX,
        at + string_bytes(text, endian).len() <= data.len(),
        data.subrange(at, at + string_bytes(text, endian).len()) == string_bytes(text, endian),
    ensures
        string_bytes(text, endian).len() == 4 + encode_utf8(text).len(),
        scan_string(data, at, endian) == Ok::<int, CodecError>(
            at + 4 + encode_utf8(text).len(),
        ),
{
    let bytes = encode_utf8(text);
    lemma_u32_round_trip(data, 0, bytes.len() as u32, endian);
    lemma_split_at(
        data,
        at,
        u32_bytes(bytes.len() as u32, endian),
        bytes,
        at + 4 + bytes.len(),
    );
    lemma_u32_at_bytes(data, at, bytes.len() as u32, endian);
    encode_utf8_valid_utf8(text);
}

/// The length of the fixed fields of an entry, before its name.
pub open spec fn fixed_len(entry: Entry) -> int {
    match entry.kind {
        EntryKind::Dir(_) => 13,
        EntryKind::File(_) => 25,
    }
}

/// An entry is stored as its fixed fields, its name, and what lies below it.
#[verifier::rlimit(50)]
pub proof fn lemma_entry_parts(data: Seq<u8>, at: int, entry: Entry, endian: Endian)
    requires
        0 <= at,
        at + entry_bytes(entry, endian).len() <= data.len(),
        data.subrange(at, at + entry_bytes(entry, endian).len()) == entry_bytes(entry, endian),
    ensures
        ({
            let name = match entry.kind {
                EntryKind::Dir(d) => d.name@,
                EntryKind::File(f) => f.name@,
            };
            let name_end = at + fixed_len(entry) + string_bytes(name, endian).len();
            let end = at + entry_bytes(entry, endian).len();
            &&& name_end <= end
            &&& data.subrange(at, at + 4) == u32_bytes(entry.entry_size, endian)
            &&& data.subrange(at + fixed_len(entry), name_end) == string_bytes(name, endian)
            &&& match entry.kind {
                EntryKind::Dir(d) => {
                    &&& data[at + 4] == 0
                    &&& data.subrange(at + 5, at + 9) == u32_bytes(0, endian)
                    &&& data.subrange(at + 9, at + 13) == u32_bytes(d.entries@.len() as u32, endian)
                    &&& data.subrange(name_end, end) == entries_bytes(
                        d.entries@,
                        d.entries@.len(),
                        endian,
                    )
                },
                EntryKind::File(f) => {
                    &&& data[at + 4] == 1
                    &&& name_end == end
                    &&& data.subrange(at + 5, at + 9) == u32_bytes(f.is_compressed, endian)
                    &&& data.subrange(at + 9, at + 13) == u32_bytes(f.compressed_size, endian)
                    &&& data.subrange(at + 13, at + 17) == u32_bytes(f.uncompressed_size, endian)
                    &&& data.subrange(at + 17, at + 21) == i32_bytes(f.checksum, endian)
                    &&& data.subrange(at + 21, at + 25) == u32_bytes(f.offset, endian)
                },
            }
        }),
{
    let size = u32_bytes(entry.entry_size, endian);
    let end = at + entry_bytes(entry, endian).len();
    lemma_u32_round_trip(data, 0, entry.entry_size, endian);
    lemma_u32_round_trip(data, 0, 0, endian);
    match entry.kind {
        EntryKind::Dir(d) => {
            let tag = seq![0u8];
            let zero = u32_bytes(0, endian);
            let count = u32_bytes(d.entries@.len() as u32, endian);
            let name = string_bytes(d.name@, endian);
            let below = entries_bytes(d.entries@, d.entries@.len(), endian);
            lemma_u32_round_trip(data, 0, d.entries@.len() as u32, endian);
            assert(entry_bytes(entry, endian) == size + (tag + zero + count + name + below));
            lemma_split_at(
                data,
                at,
                size,
                tag + zero + count + name + below,
                end,
            );
            lemma_split_at(
                data,
                at + 4,
                tag + zero + count + name,
                below,
                end,
            );
            let name_end = at + 13 + name.len();
            lemma_split_at(
                data,
                at + 4,
                tag + zero + count,
                name,
                name_end,
            );
            lemma_split_at(data, at + 4, tag + zero, count, at + 13);
            lemma_split_at(data, at + 4, tag, zero, at + 9);
            assert(data.subrange(at + 4, at + 5)[0] == data[at + 4]);
        },
        EntryKind::File(f) => {
            let tag = seq![1u8];
            let a = u32_bytes(f.is_compressed, endian);
            let b = u32_bytes(f.compressed_size, endian);
            let c = u32_bytes(f.uncompressed_size, endian);
            let d = i32_bytes(f.checksum, endian);
            let e = u32_bytes(f.offset, endian);
            let name = string_bytes(f.name@, endian);
            lemma_u32_round_trip(data, 0, f.is_compressed, endian);
            lemma_u32_round_trip(data, 0, f.compressed_size, endian);
            lemma_u32_round_trip(data, 0, f.uncompressed_size, endian);
            lemma_i32_round_trip(data, 0, f.checksum, 0, endian);
            lemma_u32_round_trip(data, 0, f.offset, endian);
            assert(entry_bytes(entry, endian) == size + (tag + a + b + c + d + e + name));
            lemma_split_at(
                data,
                at,
                size,
                tag + a + b + c + d + e + name,
                end,
            );
            lemma_split_at(
                data,
                at + 4,
                tag + a + b + c + d + e,
                name,
                end,
            );
            lemma_split_at(
                data,
                at + 4,
                tag + a + b + c + d,
                e,
                at + 25,
            );
            lemma_split_at(data, at + 4, tag + a + b + c, d, at + 21);
            lemma_split_at(data, at + 4, tag + a + b, c, at + 17);
            lemma_split_at(data, at + 4, tag + a, b, at + 13);
            lemma_split_at(data, at + 4, tag, a, at + 9);
            assert(data.subrange(at + 4, at + 5)[0] == data[at + 4]);
        },
    }
}

/// A file entry that was written is found again where it was written.
#[verifier::rlimit(50)]
proof fn lemma_encode_file(data: Seq<u8>, at: int, entry: Entry, endian: Endian)
    requires
        0 <= at,
        entry_wf(entry),
        entry.kind is File,
        at + entry_bytes(entry, endian).len() <= data.len(),
        data.subrange(at, at + entry_bytes(entry, endian).len()) == entry_bytes(entry, endian),
    ensures
        entry_bytes(entry, endian).len() >= 5,
        scan_entry(data, at, endian) == Ok::<(int, bool), CodecError>(
            (at + entry_bytes(entry, endian).len(), entry_fits(entry, data.len() as int)),
        ),
{
    let f = entry.kind->File_0;
    lemma_entry_parts(data, at, entry, endian);
    lemma_u32_at_bytes(data, at, entry.entry_size, endian);
    lemma_u32_at_bytes(data, at + 9, f.compressed_size, endian);
    lemma_u32_at_bytes(data, at + 13, f.uncompressed_size, endian);
    lemma_u32_at_bytes(data, at + 21, f.offset, endian);
    lemma_encode_string(data, at + 25, f.name@, endian);
}

/// An entry that was written is found again where it was written, with
/// everything below it.
#[verifier::rlimit(50)]
pub proof fn lemma_encode_entry(data: Seq<u8>, at: int, entry: Entry, endian: Endian)
    requires
        0 <= at,
        entry_wf(entry),
        at + entry_bytes(entry, endian).len() <= data.len(),
        data.subrange(at, at + entry_bytes(entry, endian).len()) == entry_bytes(entry, endian),
    ensures
        entry_bytes(entry, endian).len() >= 5,
        scan_entry(data, at, endian) == Ok::<(int, bool), CodecError>(
            (at + entry_bytes(entry, endian).len(), entry_fits(entry, data.len() as int)),
        ),
    decreases entry, 0nat,
{
    match entry.kind {
        EntryKind::Dir(d) => {
            lemma_entry_parts(data, at, entry, endian);
            let name_end = at + 13 + string_bytes(d.name@, endian).len();
            let end = at + entry_bytes(entry, endian).len();
            let limit = data.len() as int;
            lemma_u32_at_bytes(data, at, entry.entry_size, endian);
            lemma_u32_at_bytes(data, at + 5, 0, endian);
            lemma_u32_at_bytes(data, at + 9, d.entries@.len() as u32, endian);
            lemma_encode_string(data, at + 13, d.name@, endian);
            lemma_encode_entries(data, name_end, d.entries@, 0, endian);
            lemma_entries_fit_from(d.entries@, 0, d.entries@.len(), limit);
            assert(entries_bytes(d.entries@, 0, endian).len() == 0);
            assert(u32_at(data, at + 9, endian) as nat == d.entries@.len());
            assert(scan_string(data, at + 13, endian) == Ok::<int, CodecError>(name_end));
            assert(scan_entries(data, name_end, d.entries@.len(), endian) == Ok::<
                (int, bool),
                CodecError,
            >((end, entries_fit(d.entries@, d.entries@.len(), limit))));
            assert(entry_fits(entry, limit) == entries_fit(d.entries@, d.entries@.len(), limit));
        },
        EntryKind::File(_) => {
            lemma_encode_file(data, at, entry, endian);
        },
    }
}

/// The payloads of the files below the entries `from..to` lie inside an
/// image of `limit` bytes.
pub open spec fn entries_fit_from(entries: Seq<Entry>, from: nat, to: nat, limit: int) -> bool
    decreases to - from,
{
    if from >= to || to > entries.len() {
        true
    } else {
        entry_fits(entries[from as int], limit) && entries_fit_from(entries, from + 1, to, limit)
    }
}

/// Whether the payloads below a list fit does not depend on the end from
/// which the list is looked through.
pub proof fn lemma_entries_fit_from(entries: Seq<Entry>, from: nat, to: nat, limit: int)
    requires
        from <= to <= entries.len(),
    ensures
        entries_fit(entries, to, limit) == (entries_fit(entries, from, limit) && entries_fit_from(
            entries,
            from,
            to,
            limit,
        )),
    decreases to - from,
{
    if from < to {
        lemma_entries_fit_from(entries, from, (to - 1) as nat, limit);
        lemma_entries_fit_from_end(entries, from, (to - 1) as nat, limit);
    }
}

/// Looking at one more entry behind the entries `from..to`.
pub proof fn lemma_entries_fit_from_end(entries: Seq<Entry>, from: nat, to: nat, limit: int)
    requires
        from <= to < entries.len(),
    ensures
        entries_fit_from(entries, from, to + 1, limit) == (entries_fit_from(
            entries,
            from,
            to,
            limit,
        ) && entry_fits(entries[to as int], limit)),
    decreases to - from,
{
    if from < to {
        lemma_entries_fit_from_end(entries, from + 1, to, limit);
    } else {
        assert(entries_fit_from(entries, to + 1, to + 1, limit));
    }
}

/// The entries of a list from number `i` on, once written, are found again
/// where they were written.  The list starts at `at`.
#[verifier::rlimit(50)]
pub proof fn lemma_encode_entries(data: Seq<u8>, at: int, entries: Seq<Entry>, i: nat, endian: Endian)
    requires
        0 <= at,
        i <= entries.len(),
        entries.len() <= u32::MAX,
        entries_wf(entries, entries.len()),
        at + entries_bytes(entries, entries.len(), endian).len() <= data.len(),
        data.subrange(at, at + entries_bytes(entries, entries.len(), endian).len())
            == entries_bytes(entries, entries.len(), endian),
    ensures
        scan_entries(
            data,
            at + entries_bytes(entries, i, endian).len(),
            (entries.len() - i) as nat,
            endian,
        ) == Ok::<(int, bool), CodecError>(
            (
                at + entries_bytes(entries, entries.len(), endian).len(),
                entries_fit_from(entries, i, entries.len(), data.len() as int),
            ),
        ),
    decreases entries, entries.len() - i,
{
    let n = entries.len();
    let whole = entries_bytes(entries, n, endian);
    if i < n {
        let start = at + entries_bytes(entries, i, endian).len();
        let entry = entries[i as int];
        let mine = entry_bytes(entry, endian);
        lemma_entries_bytes_prefix(entries, i, n, endian);
        lemma_entries_bytes_prefix(entries, i + 1, n, endian);
        lemma_entries_wf_at(entries, n, i as int);
        let upto = entries_bytes(entries, i + 1, endian);
        assert(upto == entries_bytes(entries, i, endian) + mine);
        assert(data.subrange(start, start + mine.len()) =~= mine) by {
            assert(data.subrange(at, at + upto.len()) =~= whole.subrange(0, upto.len() as int));
            assert(data.subrange(start, start + mine.len()) =~= upto.subrange(
                entries_bytes(entries, i, endian).len() as int,
                upto.len() as int,
            ));
        }
        lemma_encode_entry(data, start, entry, endian);
        lemma_encode_entries(data, at, entries, i + 1, endian);
    }
}

/// Writing and reading are inverse to each other: a table of contents that
/// can be read, written in front of anything, is found again where it was
/// written, and the scan says of the payloads what holds of them.
#[verifier::rlimit(50)]
pub proof fn law_write_then_parse(archive: HvpArchive, rest: Seq<u8>)
    requires
        archive.wf(),
    ensures
        scan_archive(archive.spec_bytes() + rest, archive.endian) == Ok::<(int, bool), CodecError>(
            (
                archive.spec_bytes().len() as int,
                entries_fit(
                    archive.entries@,
                    archive.entries@.len(),
                    (archive.spec_bytes() + rest).len() as int,
                ),
            ),
        ),
{
    let endian = archive.endian;
    let header = archive.header;
    let entries = archive.entries@;
    let n = entries.len();
    let data = archive.spec_bytes() + rest;
    let head = header.spec_bytes(endian);
    let sums = checksums_bytes(archive.checksums, endian);
    let tree = entries_bytes(entries, n, endian);
    lemma_u32_round_trip(data, 0, 0, endian);
    lemma_u16_round_trip(data, 0, 0, endian);
    let m = magic_bytes();
    let v1 = u16_bytes(header.major_version, endian);
    let v2 = u16_bytes(header.minor_version, endian);
    let c1 = u32_bytes(header.root_count, endian);
    let c2 = u32_bytes(header.all_count, endian);
    let c3 = u32_bytes(header.file_count, endian);
    let c4 = u32_bytes(header.data_offset, endian);
    lemma_u16_round_trip(data, 0, header.major_version, endian);
    lemma_u16_round_trip(data, 0, header.minor_version, endian);
    lemma_u32_round_trip(data, 0, header.root_count, endian);
    lemma_u32_round_trip(data, 0, header.all_count, endian);
    lemma_u32_round_trip(data, 0, header.file_count, endian);
    lemma_u32_round_trip(data, 0, header.data_offset, endian);
    assert(m.len() == 12);
    assert(head.len() == 32);
    let start = (32 + sums.len()) as int;
    let end = start + tree.len();
    assert(data.subrange(0, end) =~= head + sums + tree);
    lemma_split_at(data, 0, head + sums, tree, end);
    lemma_split_at(data, 0, head, sums, start);
    lemma_split_at(data, 0, m + v1 + v2 + c1 + c2 + c3, c4, 32);
    lemma_split_at(data, 0, m + v1 + v2 + c1 + c2, c3, 28);
    lemma_split_at(data, 0, m + v1 + v2 + c1, c2, 24);
    lemma_split_at(data, 0, m + v1 + v2, c1, 20);
    lemma_split_at(data, 0, m + v1, v2, 16);
    lemma_split_at(data, 0, m, v1, 14);
    lemma_u16_at_bytes(data, 12, header.major_version, endian);
    lemma_u16_at_bytes(data, 14, header.minor_version, endian);
    lemma_u32_at_bytes(data, 16, header.root_count, endian);
    lemma_u32_at_bytes(data, 20, header.all_count, endian);
    lemma_u32_at_bytes(data, 24, header.file_count, endian);
    lemma_u32_at_bytes(data, 28, header.data_offset, endian);
    lemma_encode_entries(data, start, entries, 0, endian);
    lemma_entries_fit_from(entries, 0, n, data.len() as int);
    match archive.checksums {
        Some(c) => {
            lemma_u32_round_trip(data, 0, c.header, endian);
            lemma_u32_round_trip(data, 0, c.entries, endian);
            lemma_split_at(
                data,
                32,
                u32_bytes(c.header, endian),
                u32_bytes(c.entries, endian),
                40,
            );
            lemma_u32_at_bytes(data, 36, c.entries, endian);
        },
        None => {},
    }
    reveal(scan_archive);
}

} // verus!

verus! {

/// Two texts whose bytes stand at the same place are the same text.
pub proof fn lemma_same_text(data: Seq<u8>, at: int, s: Seq<char>, t: Seq<char>, endian: Endian)
    requires
        0 <= at,
        encode_utf8(s).len() <= u32::MAX,
        encode_utf8(t).len() <= u32::MAX,
        at + string_bytes(s, endian).len() <= data.len(),
        data.subrange(at, at + string_bytes(s, endian).len()) == string_bytes(s, endian),
        at + string_bytes(t, endian).len() <= data.len(),
        data.subrange(at, at + string_bytes(t, endian).len()) == string_bytes(t, endian),
    ensures
        s == t,
{
    lemma_encode_string(data, at, s, endian);
    lemma_encode_string(data, at, t, endian);
    let n = encode_utf8(s).len();
    assert(encode_utf8(t).len() == n);
    assert(string_bytes(s, endian) == string_bytes(t, endian));
    assert(encode_utf8(s) =~= string_bytes(s, endian).subrange(4, (4 + n) as int));
    assert(encode_utf8(t) =~= string_bytes(t, endian).subrange(4, (4 + n) as int));
    encode_utf8_decode_utf8(s);
    encode_utf8_decode_utf8(t);
}

/// The bytes of a directory are its fixed fields, its name, and the bytes
/// below it, whatever those are.
#[verifier::rlimit(50)]
pub proof fn lemma_dir_parts(
    data: Seq<u8>,
    at: int,
    entry_size: u32,
    count: u32,
    name: Seq<char>,
    below: Seq<u8>,
    endian: Endian,
)
    requires
        0 <= at,
        at + 13 + string_bytes(name, endian).len() + below.len() <= data.len(),
        data.subrange(at, at + 13 + string_bytes(name, endian).len() + below.len()) == u32_bytes(
            entry_size,
            endian,
        ) + (seq![0u8] + u32_bytes(0, endian) + u32_bytes(count, endian) + string_bytes(
            name,
            endian,
        ) + below),
    ensures
        data[at + 4] == 0,
        data.subrange(at, at + 4) == u32_bytes(entry_size, endian),
        data.subrange(at + 5, at + 9) == u32_bytes(0, endian),
        data.subrange(at + 9, at + 13) == u32_bytes(count, endian),
        data.subrange(at + 13, at + 13 + string_bytes(name, endian).len()) == string_bytes(
            name,
            endian,
        ),
        data.subrange(
            at + 13 + string_bytes(name, endian).len(),
            at + 13 + string_bytes(name, endian).len() + below.len(),
        ) == below,
{
    let size = u32_bytes(entry_size, endian);
    let tag = seq![0u8];
    let zero = u32_bytes(0, endian);
    let number = u32_bytes(count, endian);
    let text = string_bytes(name, endian);
    let name_end = at + 13 + text.len();
    let end = name_end + below.len();
    lemma_u32_round_trip(data, 0, entry_size, endian);
    lemma_u32_round_trip(data, 0, 0, endian);
    lemma_u32_round_trip(data, 0, count, endian);
    lemma_split_at(data, at, size, tag + zero + number + text + below, end);
    lemma_split_at(data, at + 4, tag + zero + number + text, below, end);
    lemma_split_at(data, at + 4, tag + zero + number, text, name_end);
    lemma_split_at(data, at + 4, tag + zero, number, at + 13);
    lemma_split_at(data, at + 4, tag, zero, at + 9);
    assert(data.subrange(at + 4, at + 5)[0] == data[at + 4]);
}

/// A header takes thirty-two bytes, and a pair of CRC32s eight.
pub proof fn lemma_header_len(header: Header, checksums: Option<Crc32>, endian: Endian)
    ensures
        header.spec_bytes(endian).len() == 32,
        checksums_bytes(checksums, endian).len() == if checksums is Some {
            8int
        } else {
            0int
        },
{
    let none = Seq::<u8>::empty();
    lemma_u16_round_trip(none, 0, header.major_version, endian);
    lemma_u16_round_trip(none, 0, header.minor_version, endian);
    lemma_u32_round_trip(none, 0, header.root_count, endian);
    lemma_u32_round_trip(none, 0, header.all_count, endian);
    lemma_u32_round_trip(none, 0, header.file_count, endian);
    lemma_u32_round_trip(none, 0, header.data_offset, endian);
    assert(magic_bytes().len() == 12);
    match checksums {
        Some(c) => {
            lemma_u32_round_trip(none, 0, c.header, endian);
            lemma_u32_round_trip(none, 0, c.entries, endian);
        },
        None => {},
    }
}

/// The fields of a header are found again where the header was written.
#[verifier::rlimit(50)]
pub proof fn lemma_header_fields(data: Seq<u8>, header: Header, endian: Endian)
    requires
        32 <= data.len(),
        data.subrange(0, 32) == header.spec_bytes(endian),
    ensures
        data.subrange(0, 12) == magic_bytes(),
        u16_at(data, 12, endian) == header.major_version,
        u16_at(data, 14, endian) == header.minor_version,
        u32_at(data, 16, endian) == header.root_count,
        u32_at(data, 20, endian) == header.all_count,
        u32_at(data, 24, endian) == header.file_count,
        u32_at(data, 28, endian) == header.data_offset,
{
    let m = magic_bytes();
    let v1 = u16_bytes(header.major_version, endian);
    let v2 = u16_bytes(header.minor_version, endian);
    let c1 = u32_bytes(header.root_count, endian);
    let c2 = u32_bytes(header.all_count, endian);
    let c3 = u32_bytes(header.file_count, endian);
    let c4 = u32_bytes(header.data_offset, endian);
    lemma_u16_round_trip(data, 0, header.major_version, endian);
    lemma_u16_round_trip(data, 0, header.minor_version, endian);
    lemma_u32_round_trip(data, 0, header.root_count, endian);
    lemma_u32_round_trip(data, 0, header.all_count, endian);
    lemma_u32_round_trip(data, 0, header.file_count, endian);
    lemma_u32_round_trip(data, 0, header.data_offset, endian);
    assert(m.len() == 12);
    lemma_split_at(data, 0, m + v1 + v2 + c1 + c2 + c3, c4, 32);
    lemma_split_at(data, 0, m + v1 + v2 + c1 + c2, c3, 28);
    lemma_split_at(data, 0, m + v1 + v2 + c1, c2, 24);
    lemma_split_at(data, 0, m + v1 + v2, c1, 20);
    lemma_split_at(data, 0, m + v1, v2, 16);
    lemma_split_at(data, 0, m, v1, 14);
    lemma_u16_at_bytes(data, 14, header.minor_version, endian);
    lemma_u32_at_bytes(data, 16, header.root_count, endian);
    lemma_u32_at_bytes(data, 20, header.all_count, endian);
    lemma_u32_at_bytes(data, 24, header.file_count, endian);
    lemma_u32_at_bytes(data, 28, header.data_offset, endian);
}

} // verus!
