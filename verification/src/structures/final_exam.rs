//! The flat table of the third layout: like the second, with wider tags and a
//! table of names that the records point into.

use vstd::prelude::*;
use vstd::utf8::*;

use crate::structures::common::{
    check_links, crc32_ieee, generate_crc32, i32_at, i32_bytes, lemma_i32_at_bytes,
    lemma_i32_round_trip, lemma_split_at, lemma_u32_at_bytes,
    lemma_u32_round_trip, links_ok, read_i32, read_u32, str_from_utf8, u32_at, u32_bytes,
    write_bytes, write_i32, write_u32, CodecError, Endian, Link,
};

verus! {

/// Number of bytes of the header, signature included.
pub const HEADER_SIZE: usize = 16;

/// Number of bytes of one record.
pub const ENTRY_SIZE: usize = 28;

/// The header: the byte order that the signature announced, then the number
/// of records and the CRC32 of their bytes.
#[derive(Debug, Clone, Copy, PartialEq, Eq, Structural)]
pub struct Header {
    pub endian: Endian,
    pub entries_count: u32,
    pub entries_crc32: u32,
}

/// The table of names: texts that end with a zero byte, one after the other.
#[derive(Debug, Clone)]
pub struct Names {
    pub bytes: Vec<u8>,
}

/// What a record says of a file.
#[derive(Debug, Clone, Copy, PartialEq, Eq, Structural)]
pub struct FileEntry {
    pub checksum: i32,
    pub uncompressed_size: u32,
    pub name_offset: u32,
    pub offset: u32,
    pub compressed_size: u32,
}

/// What a record says of a directory: its children are the `count` records
/// from position `index` on.
#[derive(Debug, Clone, Copy, PartialEq, Eq, Structural)]
pub struct DirEntry {
    pub name_offset: u32,
    pub count: u32,
    pub index: u32,
}

/// The three kinds of record.
#[derive(Debug, Clone, Copy, PartialEq, Eq, Structural)]
pub enum EntryKind {
    File(FileEntry),
    FileCompressed(FileEntry),
    Directory(DirEntry),
}

/// One record of the table.
#[derive(Debug, Clone, Copy, PartialEq, Eq, Structural)]
pub struct Entry {
    pub name_crc32: u32,
    pub kind: EntryKind,
}

/// An archive of the third layout.
#[derive(Debug, Clone)]
pub struct HvpArchive {
    pub header: Header,
    pub names: Names,
    pub entries: Vec<Entry>,
}

/// The four signature bytes for a byte order.
pub open spec fn magic_bytes(endian: Endian) -> Seq<u8> {
    match endian {
        Endian::Little => seq![0u8, 0u8, 5u8, 0u8],
        Endian::Big => seq![0u8, 5u8, 0u8, 0u8],
    }
}

/// Position of the first zero byte at or after `from`, or the length of
/// `bytes` if there is none.
pub open spec fn name_end(bytes: Seq<u8>, from: int) -> int
    decreases bytes.len() - from,
{
    if from >= bytes.len() {
        bytes.len() as int
    } else if bytes[from] == 0 {
        from
    } else {
        name_end(bytes, from + 1)
    }
}

/// The bytes of the name that starts at `offset`.
pub open spec fn name_bytes_at(bytes: Seq<u8>, offset: int) -> Seq<u8> {
    bytes.subrange(offset, name_end(bytes, offset))
}

/// `offset` lies inside the table of names, a zero byte of the table ends
/// the name that starts there, and the bytes before that zero are UTF-8.
pub open spec fn name_offset_ok(bytes: Seq<u8>, offset: u32) -> bool {
    &&& offset < bytes.len()
    &&& name_end(bytes, offset as int) < bytes.len()
    &&& valid_utf8(name_bytes_at(bytes, offset as int))
}

/// The name that starts at `offset`.
pub open spec fn name_at(bytes: Seq<u8>, offset: u32) -> Seq<char> {
    decode_utf8(name_bytes_at(bytes, offset as int))
}

impl DirEntry {
    /// The positions of the children.
    pub open spec fn spec_entries_range(self) -> (int, int) {
        (self.index as int, self.index + self.count)
    }

    /// The positions of the children, as a start and an end that is not
    /// included.
    pub fn entries_range(&self) -> (r: (usize, usize))
        requires
            self.index + self.count <= usize::MAX,
        ensures
            r.0 == self.spec_entries_range().0,
            r.1 == self.spec_entries_range().1,
    {
        let start: usize = self.index as usize;
        let end: usize = start + self.count as usize;
        (start, end)
    }
}

impl Names {
    /// Position of the first zero byte at or after `from`.
    fn find_end(&self, from: usize) -> (end: usize)
        requires
            from <= self.bytes.len(),
        ensures
            end == name_end(self.bytes@, from as int),
            from <= end <= self.bytes.len(),
    {
        let mut end: usize = from;
        while end < self.bytes.len() && self.bytes[end] != 0
            invariant
                from <= end <= self.bytes.len(),
                name_end(self.bytes@, from as int) == name_end(self.bytes@, end as int),
            decreases self.bytes.len() - end,
        {
            end += 1;
        }
        end
    }

    /// Whether the name offset of every record lies inside the table and
    /// points at UTF-8 that a zero byte of the table ends.
    pub fn validate_name_offsets(&self, entries: &Vec<Entry>) -> (ok: bool)
        ensures
            ok == name_offsets_ok(self.bytes@, entries@),
    {
        let mut i: usize = 0;
        while i < entries.len()
            invariant
                i <= entries.len(),
                forall|k: int|
                    0 <= k < i ==> name_offset_ok(
                        self.bytes@,
                        (#[trigger] entries@[k]).name_offset(),
                    ),
            decreases entries.len() - i,
        {
            let offset: u32 = match entries[i].kind {
                EntryKind::File(f) => f.name_offset,
                EntryKind::FileCompressed(f) => f.name_offset,
                EntryKind::Directory(d) => d.name_offset,
            };
            assert(offset == entries@[i as int].name_offset());
            if offset as u64 >= self.bytes.len() as u64 {
                return false;
            }
            let end = self.find_end(offset as usize);
            if end >= self.bytes.len() {
                return false;
            }
            let name = vstd::slice::slice_subrange(self.bytes.as_slice(), offset as usize, end);
            if str_from_utf8(name).is_none() {
                return false;
            }
            i += 1;
        }
        true
    }

    /// The name that starts at `offset`.
    ///
    /// The offsets of the records of an archive that was read are in order,
    /// see `HvpArchive::wf`.
    pub fn get_name_by_offset(&self, offset: u32) -> (name: &str)
        requires
            name_offset_ok(self.bytes@, offset),
        ensures
            name@ == name_at(self.bytes@, offset),
    {
        let end = self.find_end(offset as usize);
        let bytes = vstd::slice::slice_subrange(self.bytes.as_slice(), offset as usize, end);
        match str_from_utf8(bytes) {
            Some(name) => {
                proof {
                    encode_utf8_decode_utf8(name@);
                }
                name
            },
            None => "",
        }
    }
}

/// The name offset of every record lies inside the table of names and points
/// at UTF-8 that a zero byte of the table ends.
pub open spec fn name_offsets_ok(names: Seq<u8>, entries: Seq<Entry>) -> bool {
    forall|k: int|
        0 <= k < entries.len() ==> name_offset_ok(names, (#[trigger] entries[k]).name_offset())
}

impl FileEntry {
    /// The twenty bytes of the file fields.
    pub open spec fn spec_bytes(self, endian: Endian) -> Seq<u8> {
        i32_bytes(self.checksum, endian) + u32_bytes(self.uncompressed_size, endian) + u32_bytes(
            self.name_offset,
            endian,
        ) + u32_bytes(self.offset, endian) + u32_bytes(self.compressed_size, endian)
    }
}

impl Entry {
    /// The twenty-eight bytes of the record.
    #[verifier::opaque]
    pub open spec fn spec_bytes(self, endian: Endian) -> Seq<u8> {
        u32_bytes(self.name_crc32, endian) + match self.kind {
            EntryKind::File(f) => u32_bytes(0, endian) + f.spec_bytes(endian),
            EntryKind::FileCompressed(f) => u32_bytes(1, endian) + f.spec_bytes(endian),
            EntryKind::Directory(d) => u32_bytes(4, endian) + u32_bytes(0, endian) + u32_bytes(
                0,
                endian,
            ) + u32_bytes(d.name_offset, endian) + u32_bytes(d.count, endian) + u32_bytes(
                d.index,
                endian,
            ),
        }
    }

    /// What the record says of its children.
    pub open spec fn link(self) -> Link {
        match self.kind {
            EntryKind::Directory(d) => Some((d.index, d.count)),
            _ => None,
        }
    }

    /// Where the name of the record starts in the table of names.
    pub open spec fn name_offset(self) -> u32 {
        match self.kind {
            EntryKind::File(f) => f.name_offset,
            EntryKind::FileCompressed(f) => f.name_offset,
            EntryKind::Directory(d) => d.name_offset,
        }
    }

    /// Appends the record to `out`.
    pub fn write(&self, out: &mut Vec<u8>, endian: Endian)
        ensures
            final(out)@ == old(out)@ + self.spec_bytes(endian),
    {
        write_u32(out, self.name_crc32, endian);
        match self.kind {
            EntryKind::File(f) => {
                write_u32(out, 0, endian);
                write_i32(out, f.checksum, endian);
                write_u32(out, f.uncompressed_size, endian);
                write_u32(out, f.name_offset, endian);
                write_u32(out, f.offset, endian);
                write_u32(out, f.compressed_size, endian);
            },
            EntryKind::FileCompressed(f) => {
                write_u32(out, 1, endian);
                write_i32(out, f.checksum, endian);
                write_u32(out, f.uncompressed_size, endian);
                write_u32(out, f.name_offset, endian);
                write_u32(out, f.offset, endian);
                write_u32(out, f.compressed_size, endian);
            },
            EntryKind::Directory(d) => {
                write_u32(out, 4, endian);
                write_u32(out, 0, endian);
                write_u32(out, 0, endian);
                write_u32(out, d.name_offset, endian);
                write_u32(out, d.count, endian);
                write_u32(out, d.index, endian);
            },
        }
        reveal(Entry::spec_bytes);
        assert(out@ =~= old(out)@ + self.spec_bytes(endian));
    }
}

/// The record stored in the twenty-eight bytes of `data` from `at` on, or the
/// reason why there is none.
#[verifier::opaque]
pub open spec fn decode_entry(data: Seq<u8>, at: int, endian: Endian) -> Result<Entry, CodecError> {
    let name_crc32 = u32_at(data, at, endian);
    let tag = u32_at(data, at + 4, endian);
    if tag == 0 || tag == 1 {
        let f = FileEntry {
            checksum: i32_at(data, at + 8, endian),
            uncompressed_size: u32_at(data, at + 12, endian),
            name_offset: u32_at(data, at + 16, endian),
            offset: u32_at(data, at + 20, endian),
            compressed_size: u32_at(data, at + 24, endian),
        };
        Ok(
            Entry {
                name_crc32,
                kind: if tag == 0 {
                    EntryKind::File(f)
                } else {
                    EntryKind::FileCompressed(f)
                },
            },
        )
    } else if tag == 4 {
        if u32_at(data, at + 8, endian) != 0 || u32_at(data, at + 12, endian) != 0 || u32_at(
            data,
            at + 20,
            endian,
        ) == 0 {
            Err(CodecError::InvalidField)
        } else {
            Ok(
                Entry {
                    name_crc32,
                    kind: EntryKind::Directory(
                        DirEntry {
                            name_offset: u32_at(data, at + 16, endian),
                            count: u32_at(data, at + 20, endian),
                            index: u32_at(data, at + 24, endian),
                        },
                    ),
                },
            )
        }
    } else {
        Err(CodecError::UnknownEntryKind)
    }
}

/// The first `n` records stored from `at` on, or the reason why the first
/// record that cannot be read cannot.
pub open spec fn decode_entries(data: Seq<u8>, at: int, n: nat, endian: Endian) -> Result<
    Seq<Entry>,
    CodecError,
>
    decreases n,
{
    if n == 0 {
        Ok(Seq::empty())
    } else {
        match decode_entries(data, at, (n - 1) as nat, endian) {
            Err(e) => Err(e),
            Ok(before) => if at + ENTRY_SIZE * n > data.len() {
                Err(CodecError::UnexpectedEof)
            } else {
                match decode_entry(data, at + ENTRY_SIZE * (n - 1), endian) {
                    Err(e) => Err(e),
                    Ok(entry) => Ok(before.push(entry)),
                }
            },
        }
    }
}

/// The bytes of a sequence of records.
pub open spec fn entries_bytes(entries: Seq<Entry>, endian: Endian) -> Seq<u8>
    decreases entries.len(),
{
    if entries.len() == 0 {
        Seq::empty()
    } else {
        entries_bytes(entries.drop_last(), endian) + entries.last().spec_bytes(endian)
    }
}

/// What each record says of its children.
pub open spec fn links_of(entries: Seq<Entry>) -> Seq<Link> {
    Seq::new(entries.len(), |i: int| entries[i].link())
}

/// The table starts with the root directory: no name hash, children from
/// position one on.
pub open spec fn has_root_entry(entries: Seq<Entry>) -> bool {
    entries.len() > 0 && entries[0].name_crc32 == 0 && (entries[0].kind matches EntryKind::Directory(
        d,
    ) && d.index == 1)
}

/// The first `n` records stored from `at` on, checked against the CRC32
/// that is expected of their bytes, if one is.
pub open spec fn validated_entries(
    data: Seq<u8>,
    at: int,
    n: nat,
    expected_crc32: Option<u32>,
    endian: Endian,
) -> Result<Seq<Entry>, CodecError> {
    match decode_entries(data, at, n, endian) {
        Err(e) => Err(e),
        Ok(entries) => if expected_crc32 matches Some(crc) && crc32_ieee(
            entries_bytes(entries, endian),
        ) != crc {
            Err(CodecError::Crc32Mismatch)
        } else {
            Ok(entries)
        },
    }
}

/// Header, names and records stored in `data`, or the reason why `data` is no
/// table of this layout.
#[verifier::opaque]
pub open spec fn decode_archive(data: Seq<u8>) -> Result<(Header, Seq<u8>, Seq<Entry>), CodecError> {
    if data.len() < 4 {
        Err(CodecError::UnexpectedEof)
    } else if data.subrange(0, 4) == magic_bytes(Endian::Little) {
        decode_inner(data, Endian::Little)
    } else if data.subrange(0, 4) == magic_bytes(Endian::Big) {
        decode_inner(data, Endian::Big)
    } else {
        Err(CodecError::BadMagic)
    }
}

/// Header, names and records of `data` read in the byte order `endian`.
#[verifier::opaque]
pub open spec fn decode_inner(data: Seq<u8>, endian: Endian) -> Result<
    (Header, Seq<u8>, Seq<Entry>),
    CodecError,
> {
    if data.len() < HEADER_SIZE {
        Err(CodecError::UnexpectedEof)
    } else if u32_at(data, 4, endian) != 0 || u32_at(data, 8, endian) == 0 || u32_at(
        data,
        12,
        endian,
    ) == 0 {
        Err(CodecError::InvalidField)
    } else if data.len() < HEADER_SIZE + 4 || data.len() - (HEADER_SIZE + 4) < u32_at(
        data,
        16,
        endian,
    ) {
        Err(CodecError::UnexpectedEof)
    } else {
        let header = Header {
            endian,
            entries_count: u32_at(data, 8, endian),
            entries_crc32: u32_at(data, 12, endian),
        };
        let names_end = HEADER_SIZE + 4 + u32_at(data, 16, endian);
        let names = data.subrange(HEADER_SIZE + 4, names_end);
        match validated_entries(
            data,
            names_end,
            header.entries_count as nat,
            Some(header.entries_crc32),
            endian,
        ) {
            Err(e) => Err(e),
            Ok(entries) => if !has_root_entry(entries) {
                Err(CodecError::MissingRootEntry)
            } else if !name_offsets_ok(names, entries) {
                Err(CodecError::InvalidNameOffset)
            } else if !links_ok(links_of(entries)) {
                Err(CodecError::InvalidDirectoryRange)
            } else {
                Ok((header, names, entries))
            },
        }
    }
}

/// The bytes of a whole table.
pub open spec fn archive_bytes(header: Header, names: Seq<u8>, entries: Seq<Entry>) -> Seq<u8> {
    magic_bytes(header.endian) + u32_bytes(0, header.endian) + u32_bytes(
        header.entries_count,
        header.endian,
    ) + u32_bytes(header.entries_crc32, header.endian) + u32_bytes(
        names.len() as u32,
        header.endian,
    ) + names + entries_bytes(entries, header.endian)
}

} // verus!

verus! {

/// Reads the record stored at `at`.
pub fn parse_entry(data: &[u8], at: usize, endian: Endian) -> (r: Result<Entry, CodecError>)
    requires
        at + ENTRY_SIZE <= data.len(),
    ensures
        r == decode_entry(data@, at as int, endian),
{
    reveal(decode_entry);
    let name_crc32 = read_u32(data, at, endian);
    let tag = read_u32(data, at + 4, endian);
    if tag == 0 || tag == 1 {
        let f = FileEntry {
            checksum: read_i32(data, at + 8, endian),
            uncompressed_size: read_u32(data, at + 12, endian),
            name_offset: read_u32(data, at + 16, endian),
            offset: read_u32(data, at + 20, endian),
            compressed_size: read_u32(data, at + 24, endian),
        };
        if tag == 0 {
            Ok(Entry { name_crc32, kind: EntryKind::File(f) })
        } else {
            Ok(Entry { name_crc32, kind: EntryKind::FileCompressed(f) })
        }
    } else if tag == 4 {
        if read_u32(data, at + 8, endian) != 0 || read_u32(data, at + 12, endian) != 0 {
            return Err(CodecError::InvalidField);
        }
        let name_offset = read_u32(data, at + 16, endian);
        let count = read_u32(data, at + 20, endian);
        if count == 0 {
            return Err(CodecError::InvalidField);
        }
        let index = read_u32(data, at + 24, endian);
        Ok(Entry { name_crc32, kind: EntryKind::Directory(DirEntry { name_offset, count, index }) })
    } else {
        Err(CodecError::UnknownEntryKind)
    }
}

/// Reads `n` records from `at` on.
pub fn parse_entries(data: &[u8], at: usize, n: u32, endian: Endian) -> (r: Result<
    (Vec<Entry>, usize),
    CodecError,
>)
    requires
        at <= data.len(),
    ensures
        match r {
            Ok((entries, end)) => decode_entries(data@, at as int, n as nat, endian) == Ok::<
                Seq<Entry>,
                CodecError,
            >(entries@) && entries@.len() == n && end == at + ENTRY_SIZE * n && end <= data.len(),
            Err(e) => decode_entries(data@, at as int, n as nat, endian) == Err::<
                Seq<Entry>,
                CodecError,
            >(e),
        },
{
    let mut entries: Vec<Entry> = Vec::new();
    let mut k: u32 = 0;
    let mut pos: usize = at;
    while k < n
        invariant
            k <= n,
            at <= pos <= data.len(),
            pos == at + ENTRY_SIZE * k,
            entries@.len() == k,
            decode_entries(data@, at as int, k as nat, endian) == Ok::<Seq<Entry>, CodecError>(
                entries@,
            ),
        decreases n - k,
    {
        if data.len() - pos < ENTRY_SIZE {
            proof {
                lemma_decode_entries_error(data@, at as int, (k + 1) as nat, n as nat, endian);
            }
            return Err(CodecError::UnexpectedEof);
        }
        match parse_entry(data, pos, endian) {
            Err(e) => {
                proof {
                    lemma_decode_entries_error(data@, at as int, (k + 1) as nat, n as nat, endian);
                }
                return Err(e);
            },
            Ok(entry) => {
                entries.push(entry);
            },
        }
        pos = pos + ENTRY_SIZE;
        k = k + 1;
    }
    Ok((entries, pos))
}

/// Once a record cannot be read, no longer table can.
pub proof fn lemma_decode_entries_error(data: Seq<u8>, at: int, k: nat, n: nat, endian: Endian)
    requires
        k <= n,
        decode_entries(data, at, k, endian) is Err,
    ensures
        decode_entries(data, at, n, endian) == decode_entries(data, at, k, endian),
    decreases n - k,
{
    if k < n {
        lemma_decode_entries_error(data, at, k, (n - 1) as nat, endian);
    }
}

/// A table that was read has as many records as were asked for.
pub proof fn lemma_decode_entries_len(data: Seq<u8>, at: int, n: nat, endian: Endian)
    requires
        decode_entries(data, at, n, endian) is Ok,
    ensures
        decode_entries(data, at, n, endian)->Ok_0.len() == n,
        0 <= at ==> at + ENTRY_SIZE * n <= data.len() || n == 0,
    decreases n,
{
    if n > 0 {
        lemma_decode_entries_len(data, at, (n - 1) as nat, endian);
    }
}

/// Seven consecutive words of four bytes are twenty-eight consecutive bytes,
/// however they are grouped.
proof fn lemma_seven_words(d: Seq<u8>, at: int)
    requires
        0 <= at,
        at + 28 <= d.len(),
    ensures
        ({
            let w0 = d.subrange(at, at + 4);
            let w1 = d.subrange(at + 4, at + 8);
            let w2 = d.subrange(at + 8, at + 12);
            let w3 = d.subrange(at + 12, at + 16);
            let w4 = d.subrange(at + 16, at + 20);
            let w5 = d.subrange(at + 20, at + 24);
            let w6 = d.subrange(at + 24, at + 28);
            &&& w0 + (w1 + (w2 + w3 + w4 + w5 + w6)) == d.subrange(at, at + 28)
            &&& w0 + (w1 + w2 + w3 + w4 + w5 + w6) == d.subrange(at, at + 28)
        }),
{
    let w0 = d.subrange(at, at + 4);
    let w1 = d.subrange(at + 4, at + 8);
    let w2 = d.subrange(at + 8, at + 12);
    let w3 = d.subrange(at + 12, at + 16);
    let w4 = d.subrange(at + 16, at + 20);
    let w5 = d.subrange(at + 20, at + 24);
    let w6 = d.subrange(at + 24, at + 28);
    assert(w0 + (w1 + (w2 + w3 + w4 + w5 + w6)) =~= d.subrange(at, at + 28));
    assert(w0 + (w1 + w2 + w3 + w4 + w5 + w6) =~= d.subrange(at, at + 28));
}

/// The bytes of a record that was read are the bytes it was read from.
#[verifier::rlimit(50)]
pub proof fn lemma_decode_entry_bytes(data: Seq<u8>, at: int, endian: Endian)
    requires
        0 <= at,
        at + ENTRY_SIZE <= data.len(),
        decode_entry(data, at, endian) is Ok,
    ensures
        decode_entry(data, at, endian)->Ok_0.spec_bytes(endian) == data.subrange(
            at,
            at + ENTRY_SIZE,
        ),
{
    reveal(decode_entry);
    reveal(Entry::spec_bytes);
    lemma_u32_round_trip(data, at, 0, endian);
    lemma_u32_round_trip(data, at + 4, 0, endian);
    lemma_u32_round_trip(data, at + 8, 0, endian);
    lemma_i32_round_trip(data, at + 8, 0, 0, endian);
    lemma_u32_round_trip(data, at + 12, 0, endian);
    lemma_u32_round_trip(data, at + 16, 0, endian);
    lemma_u32_round_trip(data, at + 20, 0, endian);
    lemma_u32_round_trip(data, at + 24, 0, endian);
    lemma_seven_words(data, at);
}

/// The bytes of a table that was read are the bytes it was read from.
#[verifier::rlimit(50)]
pub proof fn lemma_decode_entries_bytes(data: Seq<u8>, at: int, n: nat, endian: Endian)
    requires
        0 <= at <= data.len(),
        decode_entries(data, at, n, endian) is Ok,
    ensures
        at + ENTRY_SIZE * n <= data.len(),
        entries_bytes(decode_entries(data, at, n, endian)->Ok_0, endian) == data.subrange(
            at,
            at + ENTRY_SIZE * n,
        ),
    decreases n,
{
    let entries = decode_entries(data, at, n, endian)->Ok_0;
    if n == 0 {
        assert(entries_bytes(entries, endian) =~= data.subrange(at, at));
    } else {
        let m = (n - 1) as nat;
        let lo = at + ENTRY_SIZE * m;
        let hi = at + ENTRY_SIZE * n;
        assert(hi == lo + 28);
        let before = decode_entries(data, at, m, endian)->Ok_0;
        let last = decode_entry(data, lo, endian)->Ok_0;
        assert(decode_entries(data, at, m, endian) is Ok);
        assert(hi <= data.len());
        assert(decode_entry(data, lo, endian) is Ok);
        assert(entries == before.push(last));
        lemma_decode_entries_bytes(data, at, m, endian);
        lemma_decode_entry_bytes(data, lo, endian);
        assert(entries.drop_last() =~= before);
        assert(entries.last() == last);
        assert(entries_bytes(entries, endian) == entries_bytes(before, endian) + last.spec_bytes(
            endian,
        ));
        assert(data.subrange(at, lo) + data.subrange(lo, hi) =~= data.subrange(at, hi));
    }
}

/// Appends the records `entries` to `out`.
pub fn write_entries(entries: &Vec<Entry>, out: &mut Vec<u8>, endian: Endian)
    ensures
        final(out)@ == old(out)@ + entries_bytes(entries@, endian),
{
    let mut i: usize = 0;
    assert(entries@.subrange(0, 0) =~= Seq::<Entry>::empty());
    assert(out@ =~= old(out)@ + entries_bytes(entries@.subrange(0, 0), endian));
    while i < entries.len()
        invariant
            i <= entries.len(),
            out@ == old(out)@ + entries_bytes(entries@.subrange(0, i as int), endian),
        decreases entries.len() - i,
    {
        let ghost before = out@;
        entries[i].write(out, endian);
        proof {
            let now = entries@.subrange(0, i + 1);
            assert(now.drop_last() =~= entries@.subrange(0, i as int));
            assert(now.last() == entries@[i as int]);
            assert(out@ =~= old(out)@ + entries_bytes(now, endian));
        }
        i += 1;
    }
    assert(entries@.subrange(0, entries.len() as int) =~= entries@);
}

/// What each record says of its children.
pub fn collect_links(entries: &Vec<Entry>) -> (links: Vec<Link>)
    ensures
        links@ == links_of(entries@),
{
    let mut links: Vec<Link> = Vec::new();
    let mut i: usize = 0;
    while i < entries.len()
        invariant
            i <= entries.len(),
            links.len() == i,
            forall|k: int| 0 <= k < i ==> links@[k] == (#[trigger] entries@[k]).link(),
        decreases entries.len() - i,
    {
        let link: Link = match entries[i].kind {
            EntryKind::Directory(d) => Some((d.index, d.count)),
            _ => None,
        };
        links.push(link);
        i += 1;
    }
    assert(links@ =~= links_of(entries@));
    links
}

/// Whether the table starts with the root directory.
pub fn have_root_entry(entries: &Vec<Entry>) -> (r: bool)
    ensures
        r == has_root_entry(entries@),
{
    if entries.len() == 0 {
        return false;
    }
    let first = entries[0];
    match first.kind {
        EntryKind::Directory(d) => first.name_crc32 == 0 && d.index == 1,
        _ => false,
    }
}

/// Reads `n` records from `at` on and checks the CRC32 of their bytes
/// against the one that is expected, if one is.
#[verifier::rlimit(50)]
pub fn read_entries_with_validation(
    data: &[u8],
    at: usize,
    n: u32,
    expected_crc32: Option<u32>,
    endian: Endian,
) -> (r: Result<(Vec<Entry>, usize), CodecError>)
    requires
        at <= data.len(),
    ensures
        match r {
            Ok((entries, end)) => validated_entries(
                data@,
                at as int,
                n as nat,
                expected_crc32,
                endian,
            ) == Ok::<Seq<Entry>, CodecError>(entries@) && entries@.len() == n && end == at
                + ENTRY_SIZE * n && end <= data.len(),
            Err(e) => validated_entries(data@, at as int, n as nat, expected_crc32, endian)
                == Err::<Seq<Entry>, CodecError>(e),
        },
{
    let (entries, end) = match parse_entries(data, at, n, endian) {
        Err(e) => {
            return Err(e);
        },
        Ok(r) => r,
    };
    match expected_crc32 {
        None => Ok((entries, end)),
        Some(crc) => {
            let mut bytes: Vec<u8> = Vec::new();
            write_entries(&entries, &mut bytes, endian);
            assert(bytes@ =~= entries_bytes(entries@, endian));
            if generate_crc32(bytes.as_slice()) != crc {
                Err(CodecError::Crc32Mismatch)
            } else {
                Ok((entries, end))
            }
        },
    }
}

/// A header, names and records that can be read back: the header counts
/// the records and holds the CRC32 of their bytes, which is not zero, the
/// length of the table of names fits its prefix, every directory has
/// children, the table starts with the root directory, every name offset
/// points at a name, and the directories span a tree.
pub open spec fn table_wf(header: Header, names: Seq<u8>, entries: Seq<Entry>) -> bool {
    &&& header.entries_count == entries.len()
    &&& header.entries_crc32 > 0
    &&& header.entries_crc32 == crc32_ieee(entries_bytes(entries, header.endian))
    &&& names.len() <= u32::MAX
    &&& entries_wf(entries)
    &&& has_root_entry(entries)
    &&& name_offsets_ok(names, entries)
    &&& links_ok(links_of(entries))
}

impl HvpArchive {
    /// The archive is one that `parse` can return, see `table_wf`.
    pub open spec fn wf(self) -> bool {
        table_wf(self.header, self.names.bytes@, self.entries@)
    }

    /// The bytes of the table of contents.
    pub open spec fn spec_bytes(self) -> Seq<u8> {
        archive_bytes(self.header, self.names.bytes@, self.entries@)
    }

    /// The byte order of the archive.
    pub fn endian(&self) -> (e: Endian)
        ensures
            e == self.header.endian,
    {
        self.header.endian
    }

    /// Reads a table of contents from the start of `data`.
    ///
    /// Succeeds exactly when `decode_archive` describes a table, and then
    /// returns that table.
    #[verifier::rlimit(50)]
    pub fn parse(data: &[u8]) -> (r: Result<(HvpArchive, usize), CodecError>)
        ensures
            match r {
                Ok((archive, end)) => decode_archive(data@) == Ok::<
                    (Header, Seq<u8>, Seq<Entry>),
                    CodecError,
                >((archive.header, archive.names.bytes@, archive.entries@)) && archive.wf()
                    && end <= data.len() && end == HEADER_SIZE + 4 + archive.names.bytes@.len()
                    + ENTRY_SIZE * archive.entries@.len(),
                Err(e) => decode_archive(data@) == Err::<(Header, Seq<u8>, Seq<Entry>), CodecError>(
                    e,
                ),
            },
    {
        reveal(decode_archive);
        reveal(decode_inner);
        if data.len() < 4 {
            return Err(CodecError::UnexpectedEof);
        }
        let little = data[0] == 0 && data[1] == 0 && data[2] == 5 && data[3] == 0;
        let big = data[0] == 0 && data[1] == 5 && data[2] == 0 && data[3] == 0;
        proof {
            let m = data@.subrange(0, 4);
            assert(m[0] == data@[0] && m[1] == data@[1] && m[2] == data@[2] && m[3] == data@[3]);
            assert(little ==> m =~= magic_bytes(Endian::Little));
            assert(big ==> m =~= magic_bytes(Endian::Big));
            assert(magic_bytes(Endian::Little)[2] == 5);
            assert(magic_bytes(Endian::Big)[1] == 5);
        }
        if !little && !big {
            return Err(CodecError::BadMagic);
        }
        let endian = if little {
            Endian::Little
        } else {
            Endian::Big
        };
        if data.len() < HEADER_SIZE {
            return Err(CodecError::UnexpectedEof);
        }
        let zero = read_u32(data, 4, endian);
        let entries_count = read_u32(data, 8, endian);
        let entries_crc32 = read_u32(data, 12, endian);
        if zero != 0 || entries_count == 0 || entries_crc32 == 0 {
            return Err(CodecError::InvalidField);
        }
        if data.len() < HEADER_SIZE + 4 {
            return Err(CodecError::UnexpectedEof);
        }
        let names_len = read_u32(data, HEADER_SIZE, endian);
        if ((data.len() - (HEADER_SIZE + 4)) as u64) < names_len as u64 {
            return Err(CodecError::UnexpectedEof);
        }
        let names_end: usize = HEADER_SIZE + 4 + names_len as usize;
        let names = Names {
            bytes: vstd::slice::slice_to_vec(
                vstd::slice::slice_subrange(data, HEADER_SIZE + 4, names_end),
            ),
        };
        let header = Header { endian, entries_count, entries_crc32 };
        let (entries, end) = match read_entries_with_validation(
            data,
            names_end,
            entries_count,
            Some(entries_crc32),
            endian,
        ) {
            Err(e) => {
                return Err(e);
            },
            Ok(r) => r,
        };
        if !have_root_entry(&entries) {
            return Err(CodecError::MissingRootEntry);
        }
        if !names.validate_name_offsets(&entries) {
            return Err(CodecError::InvalidNameOffset);
        }
        let links = collect_links(&entries);
        if !check_links(&links) {
            return Err(CodecError::InvalidDirectoryRange);
        }
        proof {
            lemma_decoded_entries_wf(data@, names_end as int, entries_count as nat, endian);
        }
        Ok((HvpArchive { header, names, entries }, end))
    }

    /// Appends the table of contents to `out`.
    pub fn write(&self, out: &mut Vec<u8>)
        requires
            self.names.bytes@.len() <= u32::MAX,
        ensures
            final(out)@ == old(out)@ + self.spec_bytes(),
    {
        let endian = self.header.endian;
        out.push(0);
        match endian {
            Endian::Little => {
                out.push(0);
                out.push(5);
            },
            Endian::Big => {
                out.push(5);
                out.push(0);
            },
        }
        out.push(0);
        assert(out@ =~= old(out)@ + magic_bytes(endian));
        write_u32(out, 0, endian);
        write_u32(out, self.header.entries_count, endian);
        write_u32(out, self.header.entries_crc32, endian);
        write_u32(out, self.names.bytes.len() as u32, endian);
        write_bytes(out, self.names.bytes.as_slice());
        write_entries(&self.entries, out, endian);
        assert(out@ =~= old(out)@ + self.spec_bytes());
    }

    /// Stores the CRC32 of the records, as they are written in the byte order
    /// of the archive, in the header.
    pub fn update_checksums(&mut self)
        ensures
            final(self).entries == old(self).entries,
            final(self).names == old(self).names,
            final(self).header == (Header {
                endian: old(self).header.endian,
                entries_count: old(self).header.entries_count,
                entries_crc32: crc32_ieee(entries_bytes(old(self).entries@, old(self).header.endian)),
            }),
    {
        let endian = self.header.endian;
        let mut bytes: Vec<u8> = Vec::new();
        write_entries(&self.entries, &mut bytes, endian);
        assert(bytes@ =~= entries_bytes(self.entries@, endian));
        self.header.entries_crc32 = generate_crc32(bytes.as_slice());
    }
}

/// The bytes of a table that was read are the bytes it was read from: writing
/// what `parse` returned restores the start of the input.
pub proof fn lemma_decode_archive_bytes(data: Seq<u8>)
    requires
        decode_archive(data) is Ok,
    ensures
        ({
            let (header, names, entries) = decode_archive(data)->Ok_0;
            let end = HEADER_SIZE + 4 + names.len() + ENTRY_SIZE * entries.len();
            &&& end <= data.len()
            &&& names.len() <= u32::MAX
            &&& header.entries_count == entries.len()
            &&& archive_bytes(header, names, entries) == data.subrange(0, end)
        }),
{
    reveal(decode_archive);
    reveal(decode_inner);
    let (header, names, entries) = decode_archive(data)->Ok_0;
    let endian = header.endian;
    let names_end = HEADER_SIZE + 4 + u32_at(data, 16, endian);
    assert(decode_entries(data, names_end, header.entries_count as nat, endian) is Ok);
    lemma_decode_entries_len(data, names_end, header.entries_count as nat, endian);
    lemma_decode_entries_bytes(data, names_end, header.entries_count as nat, endian);
    lemma_u32_round_trip(data, 4, 0, endian);
    lemma_u32_round_trip(data, 8, 0, endian);
    lemma_u32_round_trip(data, 12, 0, endian);
    lemma_u32_round_trip(data, 16, 0, endian);
    let end = names_end + ENTRY_SIZE * entries.len();
    assert(data.subrange(0, 4) + data.subrange(4, 8) + data.subrange(8, 12) + data.subrange(12, 16)
        + data.subrange(16, 20) + data.subrange(20, names_end) + data.subrange(names_end, end)
        =~= data.subrange(0, end));
}

} // verus!

verus! {

/// A record can be read back: a directory has children.
pub open spec fn entry_wf(entry: Entry) -> bool {
    entry.kind matches EntryKind::Directory(d) ==> d.count > 0
}

/// Every record of a table can be read back.
pub open spec fn entries_wf(entries: Seq<Entry>) -> bool {
    forall|i: int| 0 <= i < entries.len() ==> entry_wf(#[trigger] entries[i])
}

/// The directories among records that were read have children.
pub proof fn lemma_decoded_entries_wf(data: Seq<u8>, at: int, n: nat, endian: Endian)
    requires
        decode_entries(data, at, n, endian) is Ok,
    ensures
        entries_wf(decode_entries(data, at, n, endian)->Ok_0),
    decreases n,
{
    if n > 0 {
        lemma_decoded_entries_wf(data, at, (n - 1) as nat, endian);
        reveal(decode_entry);
        let before = decode_entries(data, at, (n - 1) as nat, endian)->Ok_0;
        let last = decode_entry(data, at + ENTRY_SIZE * (n - 1), endian)->Ok_0;
        lemma_decode_entries_len(data, at, (n - 1) as nat, endian);
        assert forall|i: int| 0 <= i < before.push(last).len() implies entry_wf(
            #[trigger] before.push(last)[i],
        ) by {
            if i < before.len() {
                assert(before.push(last)[i] == before[i]);
            }
        }
    }
}

/// The fields of a record as byte sequences, in the order in which they are
/// stored: seven of four bytes.
pub open spec fn entry_fields(entry: Entry, endian: Endian) -> Seq<Seq<u8>> {
    match entry.kind {
        EntryKind::File(f) => seq![
            u32_bytes(entry.name_crc32, endian),
            u32_bytes(0, endian),
            i32_bytes(f.checksum, endian),
            u32_bytes(f.uncompressed_size, endian),
            u32_bytes(f.name_offset, endian),
            u32_bytes(f.offset, endian),
            u32_bytes(f.compressed_size, endian),
        ],
        EntryKind::FileCompressed(f) => seq![
            u32_bytes(entry.name_crc32, endian),
            u32_bytes(1, endian),
            i32_bytes(f.checksum, endian),
            u32_bytes(f.uncompressed_size, endian),
            u32_bytes(f.name_offset, endian),
            u32_bytes(f.offset, endian),
            u32_bytes(f.compressed_size, endian),
        ],
        EntryKind::Directory(d) => seq![
            u32_bytes(entry.name_crc32, endian),
            u32_bytes(4, endian),
            u32_bytes(0, endian),
            u32_bytes(0, endian),
            u32_bytes(d.name_offset, endian),
            u32_bytes(d.count, endian),
            u32_bytes(d.index, endian),
        ],
    }
}

/// Where a record is stored, each of its fields is stored at its place.
#[verifier::rlimit(50)]
proof fn lemma_entry_fields(data: Seq<u8>, at: int, entry: Entry, endian: Endian)
    requires
        0 <= at,
        at + 28 <= data.len(),
        data.subrange(at, at + 28) == entry.spec_bytes(endian),
    ensures
        ({
            let f = entry_fields(entry, endian);
            &&& data.subrange(at, at + 4) == f[0]
            &&& data.subrange(at + 4, at + 8) == f[1]
            &&& data.subrange(at + 8, at + 12) == f[2]
            &&& data.subrange(at + 12, at + 16) == f[3]
            &&& data.subrange(at + 16, at + 20) == f[4]
            &&& data.subrange(at + 20, at + 24) == f[5]
            &&& data.subrange(at + 24, at + 28) == f[6]
        }),
{
    let f = entry_fields(entry, endian);
    assert(f[0].len() == 4 && f[1].len() == 4 && f[2].len() == 4 && f[3].len() == 4 && f[4].len()
        == 4 && f[5].len() == 4 && f[6].len() == 4) by {
        lemma_u32_round_trip(data, 0, 0, endian);
        lemma_u32_round_trip(data, 0, 1, endian);
        lemma_u32_round_trip(data, 0, 4, endian);
        lemma_u32_round_trip(data, 0, entry.name_crc32, endian);
        match entry.kind {
            EntryKind::File(x) => {
                lemma_i32_round_trip(data, 0, x.checksum, 0, endian);
                lemma_u32_round_trip(data, 0, x.uncompressed_size, endian);
                lemma_u32_round_trip(data, 0, x.name_offset, endian);
                lemma_u32_round_trip(data, 0, x.offset, endian);
                lemma_u32_round_trip(data, 0, x.compressed_size, endian);
            },
            EntryKind::FileCompressed(x) => {
                lemma_i32_round_trip(data, 0, x.checksum, 0, endian);
                lemma_u32_round_trip(data, 0, x.uncompressed_size, endian);
                lemma_u32_round_trip(data, 0, x.name_offset, endian);
                lemma_u32_round_trip(data, 0, x.offset, endian);
                lemma_u32_round_trip(data, 0, x.compressed_size, endian);
            },
            EntryKind::Directory(d) => {
                lemma_u32_round_trip(data, 0, d.name_offset, endian);
                lemma_u32_round_trip(data, 0, d.count, endian);
                lemma_u32_round_trip(data, 0, d.index, endian);
            },
        }
    }
    assert(entry.spec_bytes(endian) == f[0] + (f[1] + f[2] + f[3] + f[4] + f[5] + f[6]) || (
    entry.kind is File || entry.kind is FileCompressed) && entry.spec_bytes(endian) == f[0] + (f[1]
        + (f[2] + f[3] + f[4] + f[5] + f[6]))) by {
        reveal(Entry::spec_bytes);
    }
    if entry.spec_bytes(endian) == f[0] + (f[1] + f[2] + f[3] + f[4] + f[5] + f[6]) {
        lemma_split_at(data, at, f[0], f[1] + f[2] + f[3] + f[4] + f[5] + f[6], at + 28);
        lemma_split_at(data, at + 4, f[1] + f[2] + f[3] + f[4] + f[5], f[6], at + 28);
        lemma_split_at(data, at + 4, f[1] + f[2] + f[3] + f[4], f[5], at + 24);
        lemma_split_at(data, at + 4, f[1] + f[2] + f[3], f[4], at + 20);
        lemma_split_at(data, at + 4, f[1] + f[2], f[3], at + 16);
        lemma_split_at(data, at + 4, f[1], f[2], at + 12);
    } else {
        lemma_split_at(data, at, f[0], f[1] + (f[2] + f[3] + f[4] + f[5] + f[6]), at + 28);
        lemma_split_at(data, at + 4, f[1], f[2] + f[3] + f[4] + f[5] + f[6], at + 28);
        lemma_split_at(data, at + 8, f[2] + f[3] + f[4] + f[5], f[6], at + 28);
        lemma_split_at(data, at + 8, f[2] + f[3] + f[4], f[5], at + 24);
        lemma_split_at(data, at + 8, f[2] + f[3], f[4], at + 20);
        lemma_split_at(data, at + 8, f[2], f[3], at + 16);
    }
}

/// A record that was written is read back as it was.
#[verifier::rlimit(50)]
pub proof fn lemma_encode_entry(data: Seq<u8>, at: int, entry: Entry, endian: Endian)
    requires
        0 <= at,
        at + 28 <= data.len(),
        entry_wf(entry),
        data.subrange(at, at + 28) == entry.spec_bytes(endian),
    ensures
        decode_entry(data, at, endian) == Ok::<Entry, CodecError>(entry),
{
    lemma_entry_fields(data, at, entry, endian);
    reveal(decode_entry);
    lemma_u32_at_bytes(data, at, entry.name_crc32, endian);
    match entry.kind {
        EntryKind::File(f) => {
            lemma_u32_at_bytes(data, at + 4, 0, endian);
            lemma_i32_at_bytes(data, at + 8, f.checksum, endian);
            lemma_u32_at_bytes(data, at + 12, f.uncompressed_size, endian);
            lemma_u32_at_bytes(data, at + 16, f.name_offset, endian);
            lemma_u32_at_bytes(data, at + 20, f.offset, endian);
            lemma_u32_at_bytes(data, at + 24, f.compressed_size, endian);
        },
        EntryKind::FileCompressed(f) => {
            lemma_u32_at_bytes(data, at + 4, 1, endian);
            lemma_i32_at_bytes(data, at + 8, f.checksum, endian);
            lemma_u32_at_bytes(data, at + 12, f.uncompressed_size, endian);
            lemma_u32_at_bytes(data, at + 16, f.name_offset, endian);
            lemma_u32_at_bytes(data, at + 20, f.offset, endian);
            lemma_u32_at_bytes(data, at + 24, f.compressed_size, endian);
        },
        EntryKind::Directory(d) => {
            lemma_u32_at_bytes(data, at + 4, 4, endian);
            lemma_u32_at_bytes(data, at + 8, 0, endian);
            lemma_u32_at_bytes(data, at + 12, 0, endian);
            lemma_u32_at_bytes(data, at + 16, d.name_offset, endian);
            lemma_u32_at_bytes(data, at + 20, d.count, endian);
            lemma_u32_at_bytes(data, at + 24, d.index, endian);
        },
    }
}

/// The bytes of a table are twenty-eight for each record.
pub proof fn lemma_entries_bytes_len(entries: Seq<Entry>, endian: Endian)
    ensures
        entries_bytes(entries, endian).len() == 28 * entries.len(),
    decreases entries.len(),
{
    if entries.len() > 0 {
        lemma_entries_bytes_len(entries.drop_last(), endian);
        reveal(Entry::spec_bytes);
        lemma_u32_round_trip(Seq::empty(), 0, 0, endian);
            }
}

/// A table that was written is read back as it was.
#[verifier::rlimit(50)]
pub proof fn lemma_encode_entries(data: Seq<u8>, at: int, entries: Seq<Entry>, endian: Endian)
    requires
        0 <= at,
        at + 28 * entries.len() <= data.len(),
        entries_wf(entries),
        data.subrange(at, at + 28 * entries.len()) == entries_bytes(entries, endian),
    ensures
        decode_entries(data, at, entries.len(), endian) == Ok::<Seq<Entry>, CodecError>(entries),
    decreases entries.len(),
{
    let n = entries.len();
    if n > 0 {
        let before = entries.drop_last();
        let last = entries.last();
        lemma_entries_bytes_len(before, endian);
        lemma_entries_bytes_len(entries, endian);
        let mid = at + 28 * (n - 1);
        lemma_split_at(data, at, entries_bytes(before, endian), last.spec_bytes(endian), at + 28 * n);
        lemma_encode_entries(data, at, before, endian);
        assert(entry_wf(last));
        lemma_encode_entry(data, mid, last, endian);
        assert(before.push(last) =~= entries);
    } else {
        assert(entries =~= Seq::<Entry>::empty());
    }
}

/// Where a table of contents is stored, each of its parts is stored at its
/// place.
#[verifier::rlimit(50)]
proof fn lemma_archive_parts(
    data: Seq<u8>,
    header: Header,
    names: Seq<u8>,
    entries: Seq<Entry>,
    rest: Seq<u8>,
)
    requires
        data == archive_bytes(header, names, entries) + rest,
    ensures
        data.len() == 20 + names.len() + 28 * entries.len() + rest.len(),
        data.subrange(0, 4) == magic_bytes(header.endian),
        data.subrange(4, 8) == u32_bytes(0, header.endian),
        data.subrange(8, 12) == u32_bytes(header.entries_count, header.endian),
        data.subrange(12, 16) == u32_bytes(header.entries_crc32, header.endian),
        data.subrange(16, 20) == u32_bytes(names.len() as u32, header.endian),
        data.subrange(20, (20 + names.len()) as int) == names,
        data.subrange(
            (20 + names.len()) as int,
            (20 + names.len() + 28 * entries.len()) as int,
        ) == entries_bytes(entries, header.endian),
{
    let endian = header.endian;
    let m = magic_bytes(endian);
    let z = u32_bytes(0, endian);
    let c = u32_bytes(header.entries_count, endian);
    let r = u32_bytes(header.entries_crc32, endian);
    let l = u32_bytes(names.len() as u32, endian);
    let table = entries_bytes(entries, endian);
    lemma_entries_bytes_len(entries, endian);
    lemma_u32_round_trip(data, 0, 0, endian);
    lemma_u32_round_trip(data, 0, header.entries_count, endian);
    lemma_u32_round_trip(data, 0, header.entries_crc32, endian);
    lemma_u32_round_trip(data, 0, names.len() as u32, endian);
    assert(m.len() == 4);
    let toc = m + z + c + r + l + names + table;
    let end = 20 + names.len() + 28 * entries.len();
    assert(data.subrange(0, end as int) =~= toc);
    lemma_split_at(data, 0, m + z + c + r + l + names, table, end as int);
    lemma_split_at(data, 0, m + z + c + r + l, names, (20 + names.len()) as int);
    lemma_split_at(data, 0, m + z + c + r, l, 20);
    lemma_split_at(data, 0, m + z + c, r, 16);
    lemma_split_at(data, 0, m + z, c, 12);
    lemma_split_at(data, 0, m, z, 8);
}

/// Writing and reading are inverse to each other: a header, names and
/// records that can be read back, written in front of anything, are read back
/// as they were.
#[verifier::rlimit(50)]
pub proof fn law_write_then_parse(
    header: Header,
    names: Seq<u8>,
    entries: Seq<Entry>,
    rest: Seq<u8>,
)
    requires
        table_wf(header, names, entries),
    ensures
        decode_archive(archive_bytes(header, names, entries) + rest) == Ok::<
            (Header, Seq<u8>, Seq<Entry>),
            CodecError,
        >((header, names, entries)),
{
    let endian = header.endian;
    let data = archive_bytes(header, names, entries) + rest;
    lemma_archive_parts(data, header, names, entries, rest);
    let names_end = (20 + names.len()) as int;
    lemma_u32_at_bytes(data, 4, 0, endian);
    lemma_u32_at_bytes(data, 8, header.entries_count, endian);
    lemma_u32_at_bytes(data, 12, header.entries_crc32, endian);
    lemma_u32_at_bytes(data, 16, names.len() as u32, endian);
    lemma_encode_entries(data, names_end, entries, endian);
    assert(magic_bytes(Endian::Little)[2] == 5 && magic_bytes(Endian::Big)[2] == 0);
    assert(decode_inner(data, endian) == Ok::<(Header, Seq<u8>, Seq<Entry>), CodecError>(
        (header, names, entries),
    )) by {
        reveal(decode_inner);
    }
    reveal(decode_archive);
}

} // verus!

verus! {

/// Where a table that was written reads back at all, it reads back with the
/// byte order and the CRC32 that its header was written with.
pub proof fn lemma_written_header_is_read(
    header: Header,
    names: Seq<u8>,
    entries: Seq<Entry>,
    rest: Seq<u8>,
)
    requires
        decode_archive(archive_bytes(header, names, entries) + rest) is Ok,
    ensures
        decode_archive(archive_bytes(header, names, entries) + rest)->Ok_0.0.endian
            == header.endian,
        decode_archive(archive_bytes(header, names, entries) + rest)->Ok_0.0.entries_crc32
            == header.entries_crc32,
{
    let data = archive_bytes(header, names, entries) + rest;
    lemma_archive_parts(data, header, names, entries, rest);
    reveal(decode_archive);
    reveal(decode_inner);
    assert(magic_bytes(Endian::Little)[1] != magic_bytes(Endian::Big)[1]);
    assert(data.subrange(0, 4)[1] == magic_bytes(header.endian)[1]);
    lemma_u32_at_bytes(data, 12, header.entries_crc32, header.endian);
}

} // verus!
