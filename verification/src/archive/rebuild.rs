//! The first half of a rebuild: writing the payloads one after the other
//! and noting, for each file, what its record in the table of contents is to
//! say afterwards.

use vstd::prelude::*;
use vstd::string::StringExecFns;

use crate::archive::compression::{
    deflate_bound, lzo1x_compress, lzo1x_compressed, lzokay_compress, lzokay_compressed,
    spec_deflate_bound, zlib_compress, zlib_deflated,
};
use crate::archive::entry::{Entry, FileEntry, UpdateKind};
use crate::archive::error::{RebuildError, RebuildFault};
use crate::archive::rebuild_progress::RebuildProgress;
use crate::structures::checksum::{bytes_sum, spec_bytes_sum};
use crate::structures::common::write_bytes;
use crate::Game;

verus! {

/// What the record of a file says after a rebuild.
#[derive(Debug, Clone, Copy, PartialEq, Eq, Structural)]
pub enum Patch {
    /// What it said before: the file has no payload.
    Skip,
    /// What it said before, but for the position of the payload.
    Keep { offset: u32 },
    /// The position, sizes and checksum of a new payload, and whether that
    /// payload is compressed.
    Replace {
        offset: u32,
        compressed_size: u32,
        uncompressed_size: u32,
        checksum: i32,
        compressed: bool,
    },
}

/// A patch with the position, in a flat table, of the record it is for.
#[derive(Debug, Clone, Copy, PartialEq, Eq, Structural)]
pub struct FilePatch {
    pub slot: usize,
    pub patch: Patch,
}

/// What a layout compresses `input` to: zlib at its best level, with as
/// much room as zlib asks for, in the first layout, and LZO in the others; or
/// the failure of the compressor.  The room for zlib is one buffer, which
/// cannot be longer than `isize::MAX`.
pub open spec fn packed(game: Game, input: Seq<u8>) -> Result<Seq<u8>, RebuildFault> {
    match game {
        Game::Obscure1 => if spec_deflate_bound(input.len()) > isize::MAX {
            Err(RebuildFault::TooLarge)
        } else {
            match zlib_deflated(input, spec_deflate_bound(input.len())) {
                Some(stream) => Ok(stream),
                None => Err(RebuildFault::Zlib),
            }
        },
        Game::Obscure2 => match lzokay_compressed(input) {
            Some(stream) => Ok(stream),
            None => Err(RebuildFault::Lzo),
        },
        Game::FinalExam => Ok(lzo1x_compressed(input)),
    }
}

/// The third layout starts every payload at a multiple of four.
pub open spec fn aligns(game: Game) -> bool {
    game == Game::FinalExam
}

/// The zero bytes that bring `cursor` to the next multiple of four, where
/// the layout asks for that.
pub open spec fn padding(game: Game, cursor: int) -> Seq<u8> {
    if aligns(game) && cursor % 4 != 0 {
        Seq::new((4 - cursor % 4) as nat, |i: int| 0u8)
    } else {
        Seq::empty()
    }
}

/// What a rebuild does for one file when the image is `cursor` bytes long:
/// the patch for its record and the bytes to append, or the failure that
/// stops the rebuild.
///
/// A file without payload is skipped.  A file without replacement keeps its
/// payload.  A replacement is stored as it is where `skip_compression` is set
/// or the payload was not compressed, else compressed; the checksum is that of
/// the bytes that are stored.
pub open spec fn file_step(f: FileEntry, cursor: int, game: Game, skip_compression: bool) -> Result<
    (Patch, Seq<u8>),
    RebuildFault,
> {
    if f.uncompressed_size == 0 {
        Ok((Patch::Skip, Seq::empty()))
    } else {
        match f.update {
            None => stored(Patch::Keep { offset: cursor as u32 }, f.raw_bytes@, cursor, game),
            Some(UpdateKind::File(_)) => Err(RebuildFault::Io),
            Some(UpdateKind::Bytes(bytes)) => if bytes@.len() > u32::MAX {
                Err(RebuildFault::TooLarge)
            } else if skip_compression || f.compression_info is None {
                stored(
                    Patch::Replace {
                        offset: cursor as u32,
                        compressed_size: bytes@.len() as u32,
                        uncompressed_size: bytes@.len() as u32,
                        checksum: spec_bytes_sum(bytes@, f.endian) as i32,
                        compressed: false,
                    },
                    bytes@,
                    cursor,
                    game,
                )
            } else {
                match packed(game, bytes@) {
                    Err(e) => Err(e),
                    Ok(stream) => if stream.len() > u32::MAX {
                        Err(RebuildFault::TooLarge)
                    } else {
                        stored(
                            Patch::Replace {
                                offset: cursor as u32,
                                compressed_size: stream.len() as u32,
                                uncompressed_size: bytes@.len() as u32,
                                checksum: spec_bytes_sum(stream, f.endian) as i32,
                                compressed: true,
                            },
                            stream,
                            cursor,
                            game,
                        )
                    },
                }
            },
        }
    }
}

/// The payload `bytes` stored at `cursor`, with the padding that follows it,
/// where the image stays within what 32 bits can address.
pub open spec fn stored(patch: Patch, bytes: Seq<u8>, cursor: int, game: Game) -> Result<
    (Patch, Seq<u8>),
    RebuildFault,
> {
    if cursor + bytes.len() + 3 > u32::MAX {
        Err(RebuildFault::TooLarge)
    } else {
        Ok((patch, bytes + padding(game, cursor + bytes.len())))
    }
}

/// What a rebuild does for the files below and including `entry`: their
/// patches in the order of the listing and the bytes to append.
pub open spec fn plan_entry(entry: Entry, cursor: int, game: Game, skip_compression: bool) -> Result<
    (Seq<FilePatch>, Seq<u8>),
    RebuildFault,
>
    decreases entry,
{
    match entry {
        Entry::File(f) => match file_step(f, cursor, game, skip_compression) {
            Err(e) => Err(e),
            Ok((patch, bytes)) => Ok((seq![FilePatch { slot: f.slot, patch }], bytes)),
        },
        Entry::Dir(d) => plan_entries(d.entries@, d.entries@.len(), cursor, game, skip_compression),
    }
}

/// What a rebuild does for the files below and including the first `n` of
/// `entries`.
pub open spec fn plan_entries(
    entries: Seq<Entry>,
    n: nat,
    cursor: int,
    game: Game,
    skip_compression: bool,
) -> Result<(Seq<FilePatch>, Seq<u8>), RebuildFault>
    decreases entries, n,
{
    if n == 0 || n > entries.len() {
        Ok((Seq::empty(), Seq::empty()))
    } else {
        match plan_entries(entries, (n - 1) as nat, cursor, game, skip_compression) {
            Err(e) => Err(e),
            Ok((patches, bytes)) => match plan_entry(
                entries[n - 1],
                cursor + bytes.len(),
                game,
                skip_compression,
            ) {
                Err(e) => Err(e),
                Ok((more, tail)) => Ok((patches + more, bytes + tail)),
            },
        }
    }
}

/// Compresses `input` with the compressor of the layout.
fn pack(game: Game, input: &[u8], dict: &mut lzokay_native::Dict) -> (r: Result<
    Vec<u8>,
    RebuildError,
>)
    requires
        input@.len() <= u32::MAX,
    ensures
        match r {
            Ok(stream) => packed(game, input@) == Ok::<Seq<u8>, RebuildFault>(stream@),
            Err(e) => packed(game, input@) == Err::<Seq<u8>, RebuildFault>(e.fault()),
        },
{
    match game {
        Game::Obscure1 => {
            let room = deflate_bound(input.len());
            if room > isize::MAX as usize {
                return Err(RebuildError::TooLarge);
            }
            match zlib_compress(input, room) {
                Ok(stream) => Ok(stream),
                Err(e) => Err(RebuildError::ZlibCompressionFailed(e)),
            }
        },
        Game::Obscure2 => match lzokay_compress(input, dict) {
            Ok(stream) => Ok(stream),
            Err(e) => Err(RebuildError::LzoCompressionFailed(e)),
        },
        Game::FinalExam => Ok(lzo1x_compress(input)),
    }
}

/// Appends to `payload`, which starts at position `start` of the image, the
/// zero bytes that bring the image to a multiple of four, where the layout
/// asks for that.
pub fn apply_padding(game: Game, start: usize, payload: &mut Vec<u8>)
    requires
        start + old(payload)@.len() + 3 <= u32::MAX,
    ensures
        final(payload)@ == old(payload)@ + padding(game, start + old(payload)@.len()),
{
    let cursor: usize = start + payload.len();
    let aligned = match game {
        Game::FinalExam => cursor % 4 == 0,
        _ => true,
    };
    if !aligned {
        let count: usize = 4 - cursor % 4;
        let mut i: usize = 0;
        while i < count
            invariant
                i <= count,
                payload@ == old(payload)@ + Seq::new(i as nat, |k: int| 0u8),
            decreases count - i,
        {
            payload.push(0);
            assert(payload@ =~= old(payload)@ + Seq::new((i + 1) as nat, |k: int| 0u8));
            i += 1;
        }
    } else {
        assert(payload@ =~= old(payload)@ + padding(game, start + old(payload)@.len()));
    }
}

/// Whether `len` bytes stored at `cursor`, and their padding, stay within
/// what 32 bits can address.
fn fits(cursor: usize, len: usize) -> (r: bool)
    requires
        cursor <= u32::MAX,
    ensures
        r == (cursor + len + 3 <= u32::MAX),
{
    if len > u32::MAX as usize {
        false
    } else {
        cursor as u64 + len as u64 + 3 <= u32::MAX as u64
    }
}

/// A progress message: the tag and the name of the file.
fn message(tag: &str, name: &str) -> (r: Option<String>)
    ensures
        r matches Some(text) && text@ == tag@ + name@,
{
    Some(String::from_str(tag).concat(name))
}

/// Does for one file what `file_step` says: appends its payload to `payload`,
/// which starts at position `start` of the image, and returns the patch for
/// its record.
#[verifier::rlimit(50)]
pub fn process_file<P: RebuildProgress>(
    f: &FileEntry,
    start: usize,
    payload: &mut Vec<u8>,
    game: Game,
    skip_compression: bool,
    dict: &mut lzokay_native::Dict,
    progress: &P,
) -> (r: Result<Patch, RebuildError>)
    requires
        start + old(payload)@.len() <= u32::MAX,
    ensures
        match r {
            Ok(patch) => {
                &&& file_step(*f, start + old(payload)@.len(), game, skip_compression) matches Ok(
                    (p, bytes),
                )
                &&& p == patch
                &&& final(payload)@ == old(payload)@ + bytes
                &&& start + final(payload)@.len() <= u32::MAX
            },
            Err(e) => file_step(*f, start + old(payload)@.len(), game, skip_compression) == Err::<
                (Patch, Seq<u8>),
                RebuildFault,
            >(e.fault()),
        },
{
    let cursor: usize = start + payload.len();
    if f.uncompressed_size == 0 {
        progress.inc(message("(skp) ", f.name.as_str()));
        assert(payload@ =~= old(payload)@ + Seq::<u8>::empty());
        return Ok(Patch::Skip);
    }
    let offset: u32 = cursor as u32;
    match &f.update {
        None => {
            progress.inc(message("(src) ", f.name.as_str()));
            if !fits(cursor, f.raw_bytes.len()) {
                return Err(RebuildError::TooLarge);
            }
            write_bytes(payload, f.raw_bytes);
            apply_padding(game, start, payload);
            assert(payload@ =~= old(payload)@ + (f.raw_bytes@ + padding(
                game,
                cursor + f.raw_bytes@.len(),
            )));
            Ok(Patch::Keep { offset })
        },
        Some(UpdateKind::File(path)) => Err(RebuildError::Io(path.clone())),
        Some(UpdateKind::Bytes(bytes)) => {
            progress.inc(message("(upd) ", f.name.as_str()));
            if bytes.len() > u32::MAX as usize {
                return Err(RebuildError::TooLarge);
            }
            if skip_compression || f.compression_info.is_none() {
                if !fits(cursor, bytes.len()) {
                    return Err(RebuildError::TooLarge);
                }
                write_bytes(payload, bytes.as_slice());
                apply_padding(game, start, payload);
                assert(payload@ =~= old(payload)@ + (bytes@ + padding(
                    game,
                    cursor + bytes@.len(),
                )));
                Ok(
                    Patch::Replace {
                        offset,
                        compressed_size: bytes.len() as u32,
                        uncompressed_size: bytes.len() as u32,
                        checksum: bytes_sum(bytes.as_slice(), f.endian),
                        compressed: false,
                    },
                )
            } else {
                let stream = match pack(game, bytes.as_slice(), dict) {
                    Ok(stream) => stream,
                    Err(e) => {
                        return Err(e);
                    },
                };
                if stream.len() > u32::MAX as usize {
                    return Err(RebuildError::TooLarge);
                }
                if !fits(cursor, stream.len()) {
                    return Err(RebuildError::TooLarge);
                }
                write_bytes(payload, stream.as_slice());
                apply_padding(game, start, payload);
                assert(payload@ =~= old(payload)@ + (stream@ + padding(
                    game,
                    cursor + stream@.len(),
                )));
                Ok(
                    Patch::Replace {
                        offset,
                        compressed_size: stream.len() as u32,
                        uncompressed_size: bytes.len() as u32,
                        checksum: bytes_sum(stream.as_slice(), f.endian),
                        compressed: true,
                    },
                )
            }
        },
    }
}

} // verus!

verus! {

/// Once the plan of the first entries fails, the plan of more entries fails
/// in the same way.
pub proof fn lemma_plan_error(
    entries: Seq<Entry>,
    k: nat,
    n: nat,
    cursor: int,
    game: Game,
    skip_compression: bool,
)
    requires
        k <= n <= entries.len(),
        plan_entries(entries, k, cursor, game, skip_compression) is Err,
    ensures
        plan_entries(entries, n, cursor, game, skip_compression) == plan_entries(
            entries,
            k,
            cursor,
            game,
            skip_compression,
        ),
    decreases n - k,
{
    if k < n {
        lemma_plan_error(entries, k, (n - 1) as nat, cursor, game, skip_compression);
    }
}

/// Does for the files below and including `entry` what `plan_entry` says:
/// appends their payloads to `payload`, which starts at position `start` of
/// the image, and their patches to `patches`.
pub fn process_entry<P: RebuildProgress>(
    entry: &Entry,
    start: usize,
    payload: &mut Vec<u8>,
    patches: &mut Vec<FilePatch>,
    game: Game,
    skip_compression: bool,
    dict: &mut lzokay_native::Dict,
    progress: &P,
) -> (r: Result<(), RebuildError>)
    requires
        start + old(payload)@.len() <= u32::MAX,
    ensures
        match r {
            Ok(()) => {
                &&& plan_entry(*entry, start + old(payload)@.len(), game, skip_compression)
                    matches Ok((more, bytes))
                &&& final(payload)@ == old(payload)@ + bytes
                &&& final(patches)@ == old(patches)@ + more
                &&& start + final(payload)@.len() <= u32::MAX
            },
            Err(e) => plan_entry(*entry, start + old(payload)@.len(), game, skip_compression)
                == Err::<(Seq<FilePatch>, Seq<u8>), RebuildFault>(e.fault()),
        },
    decreases *entry,
{
    match entry {
        Entry::File(f) => {
            match process_file(f, start, payload, game, skip_compression, dict, progress) {
                Err(e) => Err(e),
                Ok(patch) => {
                    patches.push(FilePatch { slot: f.slot, patch });
                    assert(patches@ =~= old(patches)@ + seq![FilePatch { slot: f.slot, patch }]);
                    Ok(())
                },
            }
        },
        Entry::Dir(d) => process_entries(
            &d.entries,
            start,
            payload,
            patches,
            game,
            skip_compression,
            dict,
            progress,
        ),
    }
}

/// Does for the files below and including `entries` what `plan_entries`
/// says.
#[verifier::rlimit(50)]
pub fn process_entries<P: RebuildProgress>(
    entries: &Vec<Entry>,
    start: usize,
    payload: &mut Vec<u8>,
    patches: &mut Vec<FilePatch>,
    game: Game,
    skip_compression: bool,
    dict: &mut lzokay_native::Dict,
    progress: &P,
) -> (r: Result<(), RebuildError>)
    requires
        start + old(payload)@.len() <= u32::MAX,
    ensures
        match r {
            Ok(()) => {
                &&& plan_entries(
                    entries@,
                    entries@.len(),
                    start + old(payload)@.len(),
                    game,
                    skip_compression,
                ) matches Ok((more, bytes))
                &&& final(payload)@ == old(payload)@ + bytes
                &&& final(patches)@ == old(patches)@ + more
                &&& start + final(payload)@.len() <= u32::MAX
            },
            Err(e) => plan_entries(
                entries@,
                entries@.len(),
                start + old(payload)@.len(),
                game,
                skip_compression,
            ) == Err::<(Seq<FilePatch>, Seq<u8>), RebuildFault>(e.fault()),
        },
    decreases *entries,
{
    let ghost cursor = start + old(payload)@.len();
    let mut i: usize = 0;
    proof {
        assert(payload@ =~= old(payload)@ + Seq::<u8>::empty());
        assert(patches@ =~= old(patches)@ + Seq::<FilePatch>::empty());
    }
    while i < entries.len()
        invariant
            i <= entries.len(),
            cursor == start + old(payload)@.len(),
            start + payload@.len() <= u32::MAX,
            plan_entries(entries@, i as nat, cursor, game, skip_compression) matches Ok(
                (more, bytes),
            ) && payload@ == old(payload)@ + bytes && patches@ == old(patches)@ + more,
        decreases entries.len() - i,
    {
        proof {
            vstd::std_specs::vec::axiom_vec_index_decreases(*entries, i as int);
        }
        let ghost done = plan_entries(entries@, i as nat, cursor, game, skip_compression)->Ok_0;
        let ghost before = payload@;
        let ghost noted = patches@;
        match process_entry(
            &entries[i],
            start,
            payload,
            patches,
            game,
            skip_compression,
            dict,
            progress,
        ) {
            Err(e) => {
                proof {
                    lemma_plan_error(
                        entries@,
                        (i + 1) as nat,
                        entries@.len(),
                        cursor,
                        game,
                        skip_compression,
                    );
                }
                return Err(e);
            },
            Ok(()) => {
                proof {
                    let step = plan_entry(
                        entries@[i as int],
                        cursor + done.1.len(),
                        game,
                        skip_compression,
                    )->Ok_0;
                    assert(payload@ =~= old(payload)@ + (done.1 + step.1));
                    assert(patches@ =~= old(patches)@ + (done.0 + step.0));
                }
            },
        }
        i += 1;
    }
    Ok(())
}

} // verus!
