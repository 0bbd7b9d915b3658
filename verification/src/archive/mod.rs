//! One model for the archives of all three layouts: a tree of files and
//! directories, replacement payloads, and the rebuild of the image.

use vstd::prelude::*;

use crate::archive::compression::lzokay_new_dict;
use crate::archive::entry::{
    check_entries_checksums, entries_checksums_match, entries_dirs, entries_files,
    entries_untouched, flat_entries, Entry, FullFileView, UpdateKind,
};
use crate::archive::error::{RebuildError, RebuildFault};
use crate::archive::file_helpers::{FileIterator, FileIteratorMut};
use crate::archive::flat::range_mirrors;
pub use crate::archive::obscure2::Obscure2NameMap;
use crate::archive::obscure2::{unknown_records, UnknownName};
use crate::archive::rebuild::{
    apply_padding, padding, plan_entries, process_entries, FilePatch,
};
use crate::archive::rebuild_progress::RebuildProgress;
use crate::archive::update::{
    entries_alike, entries_updates, lemma_alike_entries, set_in,
};
use crate::provider::{ArchiveProvider, RawArchive};
use crate::structures::common::write_bytes;
use crate::Game;

pub mod compression;
pub mod entry;
pub mod error;
pub mod file_helpers;
pub mod final_exam;
pub mod laws;
pub mod nested_reload;
pub mod flat;
pub mod obscure1;
pub mod obscure2;
pub mod rebuild;
pub mod rebuild_progress;
pub mod reload;
pub mod round_trip;
pub mod update;

verus! {

/// What the model of an archive is made with.
#[derive(Debug)]
pub struct Options {
    /// The known names of the second layout.
    pub obscure2_names: Obscure2NameMap,
    /// Whether a rebuild stores replacements as they are, also where the
    /// payload they replace was compressed.
    pub rebuild_skip_compression: bool,
}

impl Default for Options {
    fn default() -> (r: Self)
        ensures
            r.obscure2_names.names() == Map::<u32, Seq<char>>::empty(),
            !r.rebuild_skip_compression,
    {
        Options { obscure2_names: Obscure2NameMap::empty(), rebuild_skip_compression: false }
    }
}

/// The numbers of directories and files of an archive, and its layout.
#[derive(Debug, Clone, Copy, PartialEq, Eq, Structural)]
pub struct Metadata {
    pub dir_count: usize,
    pub file_count: usize,
    pub game: Game,
}

/// The entries `es` are the model of the table of contents `raw` of an
/// archive with the given image: file for file and directory for directory,
/// with the names that the layout gives them.
pub open spec fn model_mirrors(
    raw: RawArchive,
    es: Seq<Entry>,
    image: Seq<u8>,
    names: Map<u32, Seq<char>>,
) -> bool {
    match raw {
        RawArchive::Obscure1(a) => es.len() == a.entries@.len() && obscure1::entries_mirror(
            a.entries@,
            es,
            es.len(),
            a.endian,
            image,
        ),
        RawArchive::Obscure2(a) => es.len() == a.spec_entries()[0].kind->Directory_0.count
            && range_mirrors(
            obscure2::table_views(a.spec_entries(), names),
            1,
            es,
            es.len(),
            a.spec_endian(),
            image,
        ),
        RawArchive::FinalExam(a) => es.len() == a.entries@[0].kind->Directory_0.count
            && range_mirrors(
            final_exam::table_views(a.entries@, a.names.bytes@),
            1,
            es,
            es.len(),
            a.header.endian,
            image,
        ),
    }
}

/// The bytes of the table of contents after a rebuild with the given
/// patches: the records of the files say what the patches say, and the CRC32s
/// are those of the new bytes.
pub open spec fn toc_after(raw: RawArchive, patches: Seq<FilePatch>) -> Seq<u8> {
    match raw {
        RawArchive::Obscure1(a) => obscure1::rebuilt_toc(a, patches),
        RawArchive::Obscure2(a) => obscure2::rebuilt_toc(a, patches),
        RawArchive::FinalExam(a) => final_exam::rebuilt_toc(a, patches),
    }
}

/// The image that a rebuild appends to a sink that holds `at` bytes: the
/// table of contents, then the payloads in the order of the listing; or the
/// failure that stops the rebuild.
///
/// The payloads start where the table of contents of the loaded archive
/// ended, at a multiple of four in the third layout, and each record of a file
/// with a payload says where in the sink its payload starts.
pub open spec fn rebuilt_image(
    raw: RawArchive,
    entries_offset: int,
    es: Seq<Entry>,
    skip_compression: bool,
    at: int,
) -> Result<Seq<u8>, RebuildFault> {
    let game = raw.spec_game();
    let start = at + entries_offset;
    if start + 3 > u32::MAX {
        Err(RebuildFault::TooLarge)
    } else {
        let lead = padding(game, start);
        match plan_entries(es, es.len(), start + lead.len(), game, skip_compression) {
            Err(e) => Err(e),
            Ok((patches, payload)) => Ok(toc_after(raw, patches) + lead + payload),
        }
    }
}

/// Appends the table of contents, patched and with its CRC32s computed anew,
/// to `writer`.
fn write_toc(raw: &RawArchive, patches: &Vec<FilePatch>, writer: &mut Vec<u8>)
    requires
        raw.wf(),
    ensures
        final(writer)@ == old(writer)@ + toc_after(*raw, patches@),
{
    match raw {
        RawArchive::Obscure1(archive) => {
            let toc = obscure1::update_entries(archive, patches);
            toc.write(writer);
        },
        RawArchive::Obscure2(archive) => {
            let toc = obscure2::update_entries(archive, patches);
            toc.write(writer);
        },
        RawArchive::FinalExam(archive) => {
            let toc = final_exam::update_entries(archive, patches);
            toc.write(writer);
        },
    }
}

/// The model of a loaded archive.
pub struct Archive<'p> {
    pub(crate) provider: &'p ArchiveProvider<'p>,
    pub(crate) entries: Vec<Entry<'p>>,
    pub(crate) metadata: Metadata,
    pub(crate) options: Options,
}

impl<'p> Archive<'p> {
    /// The entries are the model of the table of contents of the provider,
    /// and the metadata counts them.
    #[verifier::type_invariant]
    pub open(crate) spec fn inv(self) -> bool {
        &&& self.provider.inv()
        &&& model_mirrors(
            self.provider.raw_archive,
            self.entries@,
            self.provider.bytes@,
            self.options.obscure2_names.names(),
        )
        &&& self.metadata.dir_count == entries_dirs(self.entries@, self.entries@.len())
        &&& self.metadata.file_count == entries_files(self.entries@, self.entries@.len())
        &&& self.metadata.game == self.provider.raw_archive.spec_game()
    }

    /// The provider that the archive was made from.
    pub open(crate) spec fn spec_provider(self) -> ArchiveProvider<'p> {
        *self.provider
    }

    /// The entries at the top of the model.
    pub open(crate) spec fn spec_entries(self) -> Seq<Entry<'p>> {
        self.entries@
    }

    /// The metadata.
    pub open(crate) spec fn spec_metadata(self) -> Metadata {
        self.metadata
    }

    /// Whether a rebuild stores replacements as they are.
    pub open(crate) spec fn spec_skip_compression(self) -> bool {
        self.options.rebuild_skip_compression
    }

    /// The known names of the second layout.
    pub open(crate) spec fn spec_names(self) -> Map<u32, Seq<char>> {
        self.options.obscure2_names.names()
    }

    /// The listing: every file with the names that lead to it, depth first
    /// and in the order of the tree.
    pub open(crate) spec fn listing(self) -> Seq<FullFileView> {
        flat_entries(self.entries@, self.entries@.len(), Seq::empty())
    }

    /// The replacements of the files, in the order of the listing.
    pub open(crate) spec fn updates(self) -> Seq<Option<UpdateKind>> {
        entries_updates(self.entries@, self.entries@.len())
    }

    /// The model of the archive that `provider` holds, made with no known
    /// names and with compression of replacements.
    pub fn new(provider: &'p ArchiveProvider<'p>) -> (r: Self)
        ensures
            r.spec_provider() == *provider,
            model_mirrors(
                provider.spec_raw_archive(),
                r.spec_entries(),
                provider.image(),
                Map::empty(),
            ),
            entries_untouched(r.spec_entries(), r.spec_entries().len()),
            !r.spec_skip_compression(),
            r.spec_metadata() == (Metadata {
                dir_count: entries_dirs(r.spec_entries(), r.spec_entries().len()) as usize,
                file_count: entries_files(r.spec_entries(), r.spec_entries().len()) as usize,
                game: provider.spec_raw_archive().spec_game(),
            }),
    {
        Self::new_with_options(provider, Options::default())
    }

    /// The model of the archive that `provider` holds: a tree with a file for
    /// every file and a directory for every directory of the table of contents,
    /// but for the root directory of a flat table, whose children are the top of
    /// the tree.  No file has a replacement.  The metadata counts the files and
    /// directories of the tree.
    #[verifier::rlimit(50)]
    pub fn new_with_options(provider: &'p ArchiveProvider<'p>, options: Options) -> (r: Self)
        ensures
            r.spec_provider() == *provider,
            r.spec_names() == options.obscure2_names.names(),
            r.spec_skip_compression() == options.rebuild_skip_compression,
            model_mirrors(
                provider.spec_raw_archive(),
                r.spec_entries(),
                provider.image(),
                options.obscure2_names.names(),
            ),
            entries_untouched(r.spec_entries(), r.spec_entries().len()),
            r.spec_metadata() == (Metadata {
                dir_count: entries_dirs(r.spec_entries(), r.spec_entries().len()) as usize,
                file_count: entries_files(r.spec_entries(), r.spec_entries().len()) as usize,
                game: provider.spec_raw_archive().spec_game(),
            }),
    {
        proof {
            use_type_invariant(provider);
        }
        let (entries, metadata) = match provider.raw_archive() {
            RawArchive::Obscure1(hvp) => obscure1::map_entries(provider, &hvp.entries, hvp.endian),
            RawArchive::Obscure2(hvp) => obscure2::map_entries(
                provider,
                hvp.entries(),
                hvp.endian(),
                &options.obscure2_names,
            ),
            RawArchive::FinalExam(hvp) => final_exam::map_entries(
                provider,
                &hvp.entries,
                hvp.endian(),
                &hvp.names,
            ),
        };
        Archive { provider, entries, metadata, options }
    }

    /// The records of the table of contents that the dictionary of names does
    /// not know and that the model therefore names by their hash.  Only the
    /// second layout looks names up: for the others there are none.
    pub fn unknown_names(&self) -> (r: Vec<UnknownName>)
        ensures
            r@ == match self.spec_provider().spec_raw_archive() {
                RawArchive::Obscure2(hvp) => unknown_records(
                    hvp.spec_entries(),
                    self.spec_names(),
                    hvp.spec_entries().len(),
                ),
                _ => Seq::empty(),
            },
    {
        match self.provider.raw_archive() {
            RawArchive::Obscure2(hvp) => obscure2::unknown_names(
                hvp.entries(),
                &self.options.obscure2_names,
            ),
            _ => Vec::new(),
        }
    }

    /// The entries at the top of the model.
    pub fn entries(&self) -> (r: &[Entry<'p>])
        ensures
            r@ == self.spec_entries(),
    {
        self.entries.as_slice()
    }

    /// An iterator over the files, depth first and in the order of the tree:
    /// it gives the listing.
    pub fn files(&self) -> (it: FileIterator<'_, 'p>)
        ensures
            it.wf(),
            it.remaining() == self.listing(),
    {
        proof {
            use_type_invariant(self);
            crate::archive::entry::lemma_flat_len(self.entries@, self.entries@.len(), Seq::empty());
        }
        FileIterator::new(&self.entries, self.metadata.file_count)
    }

    /// An iterator over the files, in the order of the listing, that can
    /// give them replacements.  It lends one file at a time; nothing but the
    /// replacements of the files can change through it.
    pub fn files_mut(&mut self) -> (it: FileIteratorMut<'_, 'p>)
        ensures
            it.wf(),
            it.given() == 0,
            it.spec_archive() == *old(self),
            *final(self) == *final(it.archive),
    {
        FileIteratorMut::new(self)
    }

    /// The numbers of directories and files, and the layout.
    pub fn metadata(&self) -> (r: Metadata)
        ensures
            r == self.spec_metadata(),
            r.file_count == self.listing().len(),
            r.file_count == entries_files(self.spec_entries(), self.spec_entries().len()),
            r.dir_count == entries_dirs(self.spec_entries(), self.spec_entries().len()),
            r.game == self.spec_provider().spec_raw_archive().spec_game(),
    {
        proof {
            use_type_invariant(self);
            crate::archive::entry::lemma_flat_len(self.entries@, self.entries@.len(), Seq::empty());
        }
        self.metadata
    }

    /// Whether the payload of every file has the checksum that the table of
    /// contents records for it.
    pub fn entries_checksum_match(&self) -> (r: bool)
        ensures
            r == entries_checksums_match(self.spec_entries(), self.spec_entries().len()),
    {
        check_entries_checksums(&self.entries)
    }

    /// Sets whether a rebuild stores replacements as they are.
    pub fn set_rebuild_skip_compression(&mut self, skip: bool)
        ensures
            final(self).spec_skip_compression() == skip,
            final(self).spec_entries() == old(self).spec_entries(),
            final(self).spec_provider() == old(self).spec_provider(),
            final(self).spec_metadata() == old(self).spec_metadata(),
            final(self).spec_names() == old(self).spec_names(),
    {
        proof {
            use_type_invariant(&*self);
        }
        self.options.rebuild_skip_compression = skip;
    }

    /// Gives the file at position `index` of the listing the replacement
    /// `update`, or takes its replacement away, and says whether there is such
    /// a file.  Nothing else changes: the tree keeps its shape, and the listing
    /// and the metadata stay what they were.
    #[verifier::rlimit(50)]
    pub fn update_file(&mut self, index: usize, update: Option<UpdateKind>) -> (done: bool)
        ensures
            done == (index < old(self).listing().len()),
            final(self).updates() == if done {
                old(self).updates().update(index as int, update)
            } else {
                old(self).updates()
            },
            final(self).updates().len() == old(self).listing().len(),
            final(self).listing() == old(self).listing(),
            final(self).spec_metadata() == old(self).spec_metadata(),
            final(self).spec_provider() == old(self).spec_provider(),
            final(self).spec_skip_compression() == old(self).spec_skip_compression(),
            final(self).spec_names() == old(self).spec_names(),
            entries_alike(
                old(self).spec_entries(),
                final(self).spec_entries(),
                old(self).spec_entries().len(),
            ),
    {
        proof {
            use_type_invariant(&*self);
        }
        let ghost before = self.entries@;
        proof {
            let n = before.len();
            let raw = self.provider.raw_archive;
            let image = self.provider.bytes@;
            let names = self.options.obscure2_names.names();
            crate::archive::entry::lemma_flat_len(before, n, Seq::empty());
            assert forall|after: Seq<Entry>| after.len() == n && #[trigger] entries_alike(
                before,
                after,
                n,
            ) implies model_mirrors(raw, after, image, names) && entries_dirs(after, n)
                == entries_dirs(before, n) && entries_files(after, n) == entries_files(before, n)
                && flat_entries(after, n, Seq::empty()) == flat_entries(before, n, Seq::empty())
                && entries_updates(after, n).len() == entries_files(before, n) by {
                lemma_alike_entries(before, after, n, Seq::empty());
                match raw {
                    RawArchive::Obscure1(a) => {
                        obscure1::lemma_alike_mirrors(a.entries@, before, after, n, a.endian, image);
                    },
                    RawArchive::Obscure2(a) => {
                        flat::lemma_alike_range(
                            obscure2::table_views(a.spec_entries(), names),
                            1,
                            before,
                            after,
                            n,
                            a.spec_endian(),
                            image,
                        );
                    },
                    RawArchive::FinalExam(a) => {
                        flat::lemma_alike_range(
                            final_exam::table_views(a.entries@, a.names.bytes@),
                            1,
                            before,
                            after,
                            n,
                            a.header.endian,
                            image,
                        );
                    },
                }
            }
        }
        let r = set_in(&mut self.entries, index, update);
        r.is_none()
    }

    /// Appends the rebuilt image to `writer`: the table of contents, patched
    /// for the new positions and replacements, then the payloads.
    ///
    /// Succeeds exactly when `rebuilt_image` describes an image, and then
    /// appends that image; when it fails, for the reason `rebuilt_image` gives,
    /// `writer` is what it was.
    #[verifier::rlimit(50)]
    pub fn rebuild<P: RebuildProgress>(&self, writer: &mut Vec<u8>, progress: P) -> (r: Result<
        (),
        RebuildError,
    >)
        ensures
            match r {
                Ok(()) => rebuilt_image(
                    self.spec_provider().spec_raw_archive(),
                    self.spec_provider().spec_entries_offset(),
                    self.spec_entries(),
                    self.spec_skip_compression(),
                    old(writer)@.len() as int,
                ) matches Ok(image) && final(writer)@ == old(writer)@ + image,
                Err(e) => rebuilt_image(
                    self.spec_provider().spec_raw_archive(),
                    self.spec_provider().spec_entries_offset(),
                    self.spec_entries(),
                    self.spec_skip_compression(),
                    old(writer)@.len() as int,
                ) == Err::<Seq<u8>, RebuildFault>(e.fault()) && final(writer)@ == old(writer)@,
            },
    {
        proof {
            use_type_invariant(self.provider);
        }
        let game = self.provider.game();
        let skip_compression = self.options.rebuild_skip_compression;
        let at = writer.len();
        let offset = self.provider.entries_offset();
        if at > u32::MAX as usize || offset > u32::MAX as usize || at as u64 + offset as u64 + 3
            > u32::MAX as u64 {
            return Err(RebuildError::TooLarge);
        }
        let start: usize = at + offset;
        let mut payload: Vec<u8> = Vec::new();
        apply_padding(game, start, &mut payload);
        let ghost lead = payload@;
        assert(lead =~= padding(game, start as int));
        let mut patches: Vec<FilePatch> = Vec::new();
        let mut dict = lzokay_new_dict();
        match process_entries(
            &self.entries,
            start,
            &mut payload,
            &mut patches,
            game,
            skip_compression,
            &mut dict,
            &progress,
        ) {
            Err(e) => {
                return Err(e);
            },
            Ok(()) => {},
        }
        let ghost plan = plan_entries(
            self.entries@,
            self.entries@.len(),
            start + lead.len(),
            game,
            skip_compression,
        )->Ok_0;
        assert(patches@ =~= plan.0);
        assert(payload@ =~= lead + plan.1);
        write_toc(self.provider.raw_archive(), &patches, writer);
        write_bytes(writer, payload.as_slice());
        assert(writer@ =~= old(writer)@ + (toc_after(self.provider.raw_archive, plan.0) + lead
            + plan.1));
        Ok(())
    }
}

} // verus!
