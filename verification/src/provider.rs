//! Loading an archive: recognising its layout, reading its table of contents
//! and checking that every payload lies inside the image.

use vstd::prelude::*;

use crate::structures::common::{CodecError, Endian};
use crate::structures::{final_exam, obscure1, obscure2};
use crate::utils::detected_game;
use crate::{try_detect_game, Game};

verus! {

/// Why an image could not be loaded.
#[derive(Debug, Clone, Copy, PartialEq, Eq, Structural)]
pub enum ProviderError {
    /// No layout was named and the image starts with no known signature.
    UnknownArchive,
    /// The table of contents was rejected, for the reason given.
    ArchiveLoadFailed(CodecError),
    /// A payload does not lie inside the image.
    EntryOffsetOrSizeDoesntFit,
}

/// The table of contents of a loaded archive, in the layout it was read in.
#[derive(Debug)]
pub enum RawArchive {
    Obscure1(obscure1::HvpArchive),
    Obscure2(obscure2::HvpArchive),
    FinalExam(final_exam::HvpArchive),
}

/// The payload of a record of the second layout, if it is a file with one,
/// lies inside an image of `limit` bytes.
pub open spec fn obscure2_entry_fits(entry: obscure2::Entry, limit: int) -> bool {
    match entry.kind {
        obscure2::EntryKind::File(f) | obscure2::EntryKind::FileCompressed(f) => obscure1::payload_fits(
            f.uncompressed_size,
            f.offset,
            f.compressed_size,
            limit,
        ),
        obscure2::EntryKind::Directory(_) => true,
    }
}

/// The payloads of the files among the records of the second layout lie
/// inside an image of `limit` bytes.
pub open spec fn obscure2_entries_fit(entries: Seq<obscure2::Entry>, limit: int) -> bool {
    forall|i: int| 0 <= i < entries.len() ==> obscure2_entry_fits(#[trigger] entries[i], limit)
}

/// The payload of a record of the third layout, if it is a file with one,
/// lies inside an image of `limit` bytes.
pub open spec fn final_exam_entry_fits(entry: final_exam::Entry, limit: int) -> bool {
    match entry.kind {
        final_exam::EntryKind::File(f) | final_exam::EntryKind::FileCompressed(f) => obscure1::payload_fits(
            f.uncompressed_size,
            f.offset,
            f.compressed_size,
            limit,
        ),
        final_exam::EntryKind::Directory(_) => true,
    }
}

/// The payloads of the files among the records of the third layout lie
/// inside an image of `limit` bytes.
pub open spec fn final_exam_entries_fit(entries: Seq<final_exam::Entry>, limit: int) -> bool {
    forall|i: int| 0 <= i < entries.len() ==> final_exam_entry_fits(#[trigger] entries[i], limit)
}

impl RawArchive {
    /// The layout of the archive.
    pub open spec fn spec_game(self) -> Game {
        match self {
            RawArchive::Obscure1(_) => Game::Obscure1,
            RawArchive::Obscure2(_) => Game::Obscure2,
            RawArchive::FinalExam(_) => Game::FinalExam,
        }
    }

    /// The payload of every file with a payload lies inside an image of
    /// `limit` bytes.
    pub open spec fn entries_fit(self, limit: int) -> bool {
        match self {
            RawArchive::Obscure1(a) => obscure1::entries_fit(a.entries@, a.entries@.len(), limit),
            RawArchive::Obscure2(a) => obscure2_entries_fit(a.spec_entries(), limit),
            RawArchive::FinalExam(a) => final_exam_entries_fit(a.entries@, limit),
        }
    }

    /// The archive is one that its layout can read.
    pub open spec fn wf(self) -> bool {
        match self {
            RawArchive::Obscure1(a) => a.wf(),
            RawArchive::Obscure2(a) => a.wf(),
            RawArchive::FinalExam(a) => a.wf(),
        }
    }

    /// The archive is the table of contents that starts `data`, and ends
    /// after `end` bytes of it.
    #[verifier::opaque]
    pub open spec fn decoded_from(self, data: Seq<u8>, end: int) -> bool {
        match self {
            RawArchive::Obscure1(a) => {
                &&& a.wf()
                &&& 0 <= end <= data.len()
                &&& obscure1::scan_archive(data, a.endian) == Ok::<(int, bool), CodecError>(
                    (end, self.entries_fit(data.len() as int)),
                )
                &&& a.spec_bytes() == data.subrange(0, end)
            },
            RawArchive::Obscure2(a) => {
                &&& a.wf()
                &&& obscure2::decode_archive(data) == Ok::<
                    (Endian, obscure2::Header, Seq<obscure2::Entry>),
                    CodecError,
                >((a.spec_endian(), a.spec_header(), a.spec_entries()))
                &&& end == obscure2::HEADER_SIZE + obscure2::ENTRY_SIZE * a.spec_entries().len()
            },
            RawArchive::FinalExam(a) => {
                &&& a.wf()
                &&& final_exam::decode_archive(data) == Ok::<
                    (final_exam::Header, Seq<u8>, Seq<final_exam::Entry>),
                    CodecError,
                >((a.header, a.names.bytes@, a.entries@))
                &&& end == final_exam::HEADER_SIZE + 4 + a.names.bytes@.len()
                    + final_exam::ENTRY_SIZE * a.entries@.len()
            },
        }
    }
}

/// The layout to read an image in: the one that was named, or else the one
/// that its signature announces.
pub open spec fn resolve_game(data: Seq<u8>, hint: Option<Game>) -> Option<Game> {
    match hint {
        Some(game) => Some(game),
        None => detected_game(data),
    }
}

/// Why the table of contents of `data` cannot be read in the layout `game`,
/// if it cannot.  The byte order `endian` matters to the first layout only:
/// the others announce theirs.
pub open spec fn toc_error(data: Seq<u8>, game: Game, endian: Endian) -> Option<CodecError> {
    match game {
        Game::Obscure1 => match obscure1::scan_archive(data, endian) {
            Ok(_) => None,
            Err(e) => Some(e),
        },
        Game::Obscure2 => match obscure2::decode_archive(data) {
            Ok(_) => None,
            Err(e) => Some(e),
        },
        Game::FinalExam => match final_exam::decode_archive(data) {
            Ok(_) => None,
            Err(e) => Some(e),
        },
    }
}

/// Whether the payloads that the table of contents of `data` names lie inside
/// `data`, where that table can be read.
pub open spec fn payloads_fit(data: Seq<u8>, game: Game, endian: Endian) -> bool {
    match game {
        Game::Obscure1 => obscure1::scan_archive(data, endian) matches Ok((_, fits)) && fits,
        Game::Obscure2 => obscure2::decode_archive(data) matches Ok((_, _, entries))
            && obscure2_entries_fit(entries, data.len() as int),
        Game::FinalExam => final_exam::decode_archive(data) matches Ok((_, _, entries))
            && final_exam_entries_fit(entries, data.len() as int),
    }
}

/// Why `data` cannot be loaded, if it cannot: no layout is known for it, its
/// table of contents is rejected, or a payload lies outside it.
pub open spec fn load_error(data: Seq<u8>, hint: Option<Game>, endian: Endian) -> Option<
    ProviderError,
> {
    match resolve_game(data, hint) {
        None => Some(ProviderError::UnknownArchive),
        Some(game) => match toc_error(data, game, endian) {
            Some(e) => Some(ProviderError::ArchiveLoadFailed(e)),
            None => if payloads_fit(data, game, endian) {
                None
            } else {
                Some(ProviderError::EntryOffsetOrSizeDoesntFit)
            },
        },
    }
}

/// Whether the payload of a file lies inside an image of `limit` bytes.
fn check_payload(uncompressed_size: u32, offset: u32, compressed_size: u32, limit: usize) -> (r:
    bool)
    ensures
        r == obscure1::payload_fits(uncompressed_size, offset, compressed_size, limit as int),
{
    uncompressed_size == 0 || offset as u64 + compressed_size as u64 <= limit as u64
}

/// Whether the payloads below and including `entry` lie inside an image of
/// `limit` bytes.
fn check_entry(entry: &obscure1::Entry, limit: usize) -> (r: bool)
    ensures
        r == obscure1::entry_fits(*entry, limit as int),
    decreases *entry,
{
    match &entry.kind {
        obscure1::EntryKind::Dir(d) => check_entries(&d.entries, limit),
        obscure1::EntryKind::File(f) => check_payload(
            f.uncompressed_size,
            f.offset,
            f.compressed_size,
            limit,
        ),
    }
}

/// Whether the payloads below and including `entries` lie inside an image of
/// `limit` bytes.
fn check_entries(entries: &Vec<obscure1::Entry>, limit: usize) -> (r: bool)
    ensures
        r == obscure1::entries_fit(entries@, entries@.len(), limit as int),
    decreases *entries,
{
    let mut i: usize = 0;
    while i < entries.len()
        invariant
            i <= entries.len(),
            obscure1::entries_fit(entries@, i as nat, limit as int),
        decreases entries.len() - i,
    {
        proof {
            vstd::std_specs::vec::axiom_vec_index_decreases(*entries, i as int);
        }
        if !check_entry(&entries[i], limit) {
            proof {
                if obscure1::entries_fit(entries@, entries@.len(), limit as int) {
                    lemma_entries_fit_at(entries@, entries@.len(), i as int, limit as int);
                }
            }
            return false;
        }
        i += 1;
    }
    true
}

/// Each of the first `n` entries fits if all of them do.
pub proof fn lemma_entries_fit_at(entries: Seq<obscure1::Entry>, n: nat, i: int, limit: int)
    requires
        n <= entries.len(),
        0 <= i < n,
        obscure1::entries_fit(entries, n, limit),
    ensures
        obscure1::entry_fits(entries[i], limit),
    decreases n,
{
    if i < n - 1 {
        lemma_entries_fit_at(entries, (n - 1) as nat, i, limit);
    }
}

/// Whether the payloads of the files among the records of the second layout
/// lie inside an image of `len` bytes.
fn check_obscure2(entries: &Vec<obscure2::Entry>, len: usize) -> (r: bool)
    ensures
        r == obscure2_entries_fit(entries@, len as int),
{
    let mut i: usize = 0;
    while i < entries.len()
        invariant
            i <= entries.len(),
            forall|k: int| 0 <= k < i ==> obscure2_entry_fits(#[trigger] entries@[k], len as int),
        decreases entries.len() - i,
    {
        let ok = match entries[i].kind {
            obscure2::EntryKind::File(f) => check_payload(
                f.uncompressed_size,
                f.offset,
                f.compressed_size,
                len,
            ),
            obscure2::EntryKind::FileCompressed(f) => check_payload(
                f.uncompressed_size,
                f.offset,
                f.compressed_size,
                len,
            ),
            obscure2::EntryKind::Directory(_) => true,
        };
        assert(ok == obscure2_entry_fits(entries@[i as int], len as int));
        if !ok {
            return false;
        }
        i += 1;
    }
    true
}

/// Whether the payloads of the files among the records of the third layout
/// lie inside an image of `len` bytes.
fn check_final_exam(entries: &Vec<final_exam::Entry>, len: usize) -> (r: bool)
    ensures
        r == final_exam_entries_fit(entries@, len as int),
{
    let mut i: usize = 0;
    while i < entries.len()
        invariant
            i <= entries.len(),
            forall|k: int| 0 <= k < i ==> final_exam_entry_fits(#[trigger] entries@[k], len as int),
        decreases entries.len() - i,
    {
        let ok = match entries[i].kind {
            final_exam::EntryKind::File(f) => check_payload(
                f.uncompressed_size,
                f.offset,
                f.compressed_size,
                len,
            ),
            final_exam::EntryKind::FileCompressed(f) => check_payload(
                f.uncompressed_size,
                f.offset,
                f.compressed_size,
                len,
            ),
            final_exam::EntryKind::Directory(_) => true,
        };
        assert(ok == final_exam_entry_fits(entries@[i as int], len as int));
        if !ok {
            return false;
        }
        i += 1;
    }
    true
}

/// Whether every payload that `raw_archive` names lies inside an image of
/// `len` bytes.  A file whose uncompressed size is zero has no payload, and
/// its offset and size are not looked at.
pub fn validate_entries(raw_archive: &RawArchive, len: usize) -> (r: bool)
    ensures
        r == raw_archive.entries_fit(len as int),
{
    match raw_archive {
        RawArchive::Obscure1(archive) => check_entries(&archive.entries, len),
        RawArchive::Obscure2(archive) => check_obscure2(archive.entries(), len),
        RawArchive::FinalExam(archive) => check_final_exam(&archive.entries, len),
    }
}

/// Reads the table of contents of `data` in the first layout.
fn load_obscure1(data: &[u8], endian: Endian) -> (r: Result<(RawArchive, usize), CodecError>)
    ensures
        match r {
            Ok((raw, end)) => {
                &&& toc_error(data@, Game::Obscure1, endian) is None
                &&& raw.spec_game() == Game::Obscure1
                &&& raw.wf()
                &&& end <= data@.len()
                &&& raw.decoded_from(data@, end as int)
                &&& raw matches RawArchive::Obscure1(a) && a.endian == endian
                &&& payloads_fit(data@, Game::Obscure1, endian) == raw.entries_fit(
                    data@.len() as int,
                )
            },
            Err(e) => toc_error(data@, Game::Obscure1, endian) == Some(e),
        },
{
    reveal(RawArchive::decoded_from);
    match obscure1::HvpArchive::parse(data, endian) {
        Err(e) => Err(e),
        Ok((archive, end)) => Ok((RawArchive::Obscure1(archive), end)),
    }
}

/// Reads the table of contents of `data` in the second layout.
fn load_obscure2(data: &[u8]) -> (r: Result<(RawArchive, usize), CodecError>)
    ensures
        match r {
            Ok((raw, end)) => {
                &&& obscure2::decode_archive(data@) is Ok
                &&& raw.spec_game() == Game::Obscure2
                &&& raw.wf()
                &&& raw.decoded_from(data@, end as int)
                &&& end <= data@.len()
                &&& obscure2_entries_fit(obscure2::decode_archive(data@)->Ok_0.2, data@.len() as int)
                    == raw.entries_fit(data@.len() as int)
            },
            Err(e) => obscure2::decode_archive(data@) == Err::<
                (Endian, obscure2::Header, Seq<obscure2::Entry>),
                CodecError,
            >(e),
        },
{
    reveal(RawArchive::decoded_from);
    match obscure2::HvpArchive::parse(data) {
        Err(e) => Err(e),
        Ok((archive, end)) => Ok((RawArchive::Obscure2(archive), end)),
    }
}

/// Reads the table of contents of `data` in the third layout.
fn load_final_exam(data: &[u8]) -> (r: Result<(RawArchive, usize), CodecError>)
    ensures
        match r {
            Ok((raw, end)) => {
                &&& final_exam::decode_archive(data@) is Ok
                &&& raw.spec_game() == Game::FinalExam
                &&& raw.wf()
                &&& raw.decoded_from(data@, end as int)
                &&& end <= data@.len()
                &&& final_exam_entries_fit(
                    final_exam::decode_archive(data@)->Ok_0.2,
                    data@.len() as int,
                ) == raw.entries_fit(data@.len() as int)
            },
            Err(e) => final_exam::decode_archive(data@) == Err::<
                (final_exam::Header, Seq<u8>, Seq<final_exam::Entry>),
                CodecError,
            >(e),
        },
{
    reveal(RawArchive::decoded_from);
    match final_exam::HvpArchive::parse(data) {
        Err(e) => Err(e),
        Ok((archive, end)) => Ok((RawArchive::FinalExam(archive), end)),
    }
}

/// Reads the table of contents of `data` in the layout `game`.
fn load_toc(data: &[u8], game: Game, endian: Endian) -> (r: Result<(RawArchive, usize), CodecError>)
    ensures
        match r {
            Ok((raw, end)) => {
                &&& toc_error(data@, game, endian) is None
                &&& raw.spec_game() == game
                &&& raw.wf()
                &&& raw.decoded_from(data@, end as int)
                &&& end <= data@.len()
                &&& raw matches RawArchive::Obscure1(a) ==> a.endian == endian
                &&& payloads_fit(data@, game, endian) == raw.entries_fit(data@.len() as int)
            },
            Err(e) => toc_error(data@, game, endian) == Some(e),
        },
{
    match game {
        Game::Obscure1 => load_obscure1(data, endian),
        Game::Obscure2 => load_obscure2(data),
        Game::FinalExam => load_final_exam(data),
    }
}

/// A loaded archive: the image, its table of contents, and the position in
/// the image where the table ends and the payloads begin.  The image is
/// borrowed, so that loading copies none of its bytes.
pub struct ArchiveProvider<'d> {
    pub(crate) raw_archive: RawArchive,
    pub(crate) bytes: &'d [u8],
    pub(crate) entries_offset: usize,
}

impl<'d> ArchiveProvider<'d> {
    /// The table of contents is the one that starts the image, and every
    /// payload that it names lies inside the image.
    #[verifier::type_invariant]
    pub open(crate) spec fn inv(self) -> bool {
        &&& self.entries_offset <= self.bytes@.len()
        &&& self.raw_archive.wf()
        &&& self.raw_archive.decoded_from(self.bytes@, self.entries_offset as int)
        &&& self.raw_archive.entries_fit(self.bytes@.len() as int)
    }

    /// The bytes of the image.
    pub open(crate) spec fn image(self) -> Seq<u8> {
        self.bytes@
    }

    /// The table of contents.
    pub open(crate) spec fn spec_raw_archive(self) -> RawArchive {
        self.raw_archive
    }

    /// Where the table of contents ends.
    pub open(crate) spec fn spec_entries_offset(self) -> int {
        self.entries_offset as int
    }

    /// Loads an image.  Where no layout is named, the signature of the image
    /// decides; an archive of the first layout is read as little endian.
    pub fn new(bytes: &'d [u8], game: Option<Game>) -> (r: Result<Self, ProviderError>)
        ensures
            match r {
                Ok(provider) => {
                    &&& load_error(bytes@, game, Endian::Little) is None
                    &&& provider.image() == bytes@
                    &&& Some(provider.spec_raw_archive().spec_game()) == resolve_game(bytes@, game)
                    &&& provider.spec_raw_archive().decoded_from(
                        bytes@,
                        provider.spec_entries_offset(),
                    )
                },
                Err(e) => load_error(bytes@, game, Endian::Little) == Some(e),
            },
    {
        Self::new_with_endian(bytes, game, Endian::Little)
    }

    /// Loads an image, reading an archive of the first layout in the byte
    /// order `endian`.
    ///
    /// Fails exactly when `load_error` names a reason, with that reason;
    /// otherwise the provider holds the image and the table of contents that
    /// starts it.
    #[verifier::rlimit(50)]
    pub fn new_with_endian(bytes: &'d [u8], game: Option<Game>, endian: Endian) -> (r: Result<
        Self,
        ProviderError,
    >)
        ensures
            match r {
                Ok(provider) => {
                    &&& load_error(bytes@, game, endian) is None
                    &&& provider.image() == bytes@
                    &&& Some(provider.spec_raw_archive().spec_game()) == resolve_game(bytes@, game)
                    &&& provider.spec_raw_archive().decoded_from(
                        bytes@,
                        provider.spec_entries_offset(),
                    )
                    &&& provider.spec_raw_archive() matches RawArchive::Obscure1(a) ==> a.endian
                        == endian
                },
                Err(e) => load_error(bytes@, game, endian) == Some(e),
            },
    {
        let game = match game {
            Some(game) => game,
            None => match try_detect_game(bytes) {
                Some(game) => game,
                None => {
                    return Err(ProviderError::UnknownArchive);
                },
            },
        };
        let (raw_archive, entries_offset) = match load_toc(bytes, game, endian) {
            Err(e) => {
                return Err(ProviderError::ArchiveLoadFailed(e));
            },
            Ok(r) => r,
        };
        if !validate_entries(&raw_archive, bytes.len()) {
            return Err(ProviderError::EntryOffsetOrSizeDoesntFit);
        }
        Ok(ArchiveProvider { raw_archive, bytes, entries_offset })
    }

    /// The table of contents.
    pub fn raw_archive(&self) -> (r: &RawArchive)
        ensures
            *r == self.spec_raw_archive(),
    {
        &self.raw_archive
    }

    /// The layout of the archive.
    pub fn game(&self) -> (r: Game)
        ensures
            r == self.spec_raw_archive().spec_game(),
    {
        match &self.raw_archive {
            RawArchive::Obscure1(_) => Game::Obscure1,
            RawArchive::Obscure2(_) => Game::Obscure2,
            RawArchive::FinalExam(_) => Game::FinalExam,
        }
    }

    /// Where the table of contents ends and the payloads begin.
    pub fn entries_offset(&self) -> (r: usize)
        ensures
            r == self.spec_entries_offset(),
            r <= self.image().len(),
    {
        proof {
            use_type_invariant(self);
        }
        self.entries_offset
    }

    /// The whole image.
    pub fn bytes(&self) -> (r: &'d [u8])
        ensures
            r@ == self.image(),
    {
        self.bytes
    }

    /// The `size` bytes of the image from `offset` on.
    pub fn get_bytes(&self, offset: usize, size: usize) -> (r: &'d [u8])
        requires
            offset + size <= self.image().len(),
        ensures
            r@ == self.image().subrange(offset as int, offset + size),
    {
        let len: usize = self.bytes.len();
        assert(offset + size <= len);
        vstd::slice::slice_subrange(self.bytes, offset, offset + size)
    }

    /// No bytes: the payload of a file whose uncompressed size is zero.
    pub fn get_empty_bytes(&self) -> (r: &'d [u8])
        ensures
            r@ == Seq::<u8>::empty(),
    {
        let r = vstd::slice::slice_subrange(self.bytes, 0, 0);
        assert(r@ =~= Seq::<u8>::empty());
        r
    }
}

} // verus!
