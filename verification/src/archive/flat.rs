//! The flat tables of the second and third layout in the archive model: a
//! directory names a range of records, and the model follows the ranges from
//! the root directory down.

use vstd::prelude::*;

use crate::archive::entry::{
    entries_dirs, entries_files, entries_untouched, entry_dirs, entry_files, entry_untouched,
    lemma_entries_prefix, payload_of, CompressionInfo, CompressionType, DirEntry, Entry,
    FileEntry,
};
use crate::archive::Metadata;
use crate::provider::ArchiveProvider;
use crate::structures::common::{
    forest_size, lemma_forest_size_grows, links_ok, record_ok, tree_size, Endian, Link,
};
use crate::structures::obscure1::payload_fits;

verus! {

/// A record of a flat table with its name resolved: a directory where `link`
/// names children, else a file.
#[derive(Debug)]
pub struct FlatNode {
    pub name: String,
    pub link: Link,
    pub compressed: bool,
    pub checksum: i32,
    pub uncompressed_size: u32,
    pub offset: u32,
    pub compressed_size: u32,
}

/// What a `FlatNode` holds, as mathematical values.
pub struct FlatView {
    pub name: Seq<char>,
    pub link: Link,
    pub compressed: bool,
    pub checksum: i32,
    pub uncompressed_size: u32,
    pub offset: u32,
    pub compressed_size: u32,
}

impl View for FlatNode {
    type V = FlatView;

    open spec fn view(&self) -> FlatView {
        FlatView {
            name: self.name@,
            link: self.link,
            compressed: self.compressed,
            checksum: self.checksum,
            uncompressed_size: self.uncompressed_size,
            offset: self.offset,
            compressed_size: self.compressed_size,
        }
    }
}

/// What a list of records holds, as mathematical values.
pub open spec fn flat_views(nodes: Seq<FlatNode>) -> Seq<FlatView> {
    Seq::new(nodes.len(), |i: int| nodes[i]@)
}

/// What each record says of its children.
pub open spec fn flat_links(nodes: Seq<FlatView>) -> Seq<Link> {
    Seq::new(nodes.len(), |i: int| nodes[i].link)
}

/// The payload of the record, if it is a file with one, lies inside an image
/// of `limit` bytes.
pub open spec fn node_fits(node: FlatView, limit: int) -> bool {
    node.link is None ==> payload_fits(
        node.uncompressed_size,
        node.offset,
        node.compressed_size,
        limit,
    )
}

/// The payload of every file among the records lies inside an image of
/// `limit` bytes.
pub open spec fn nodes_fit(nodes: Seq<FlatView>, limit: int) -> bool {
    forall|i: int| 0 <= i < nodes.len() ==> node_fits(#[trigger] nodes[i], limit)
}

/// The file `f` of the model is the file that the record `node` at position
/// `slot` describes, in an archive with the given byte order and image.
pub open spec fn file_mirrors(node: FlatView, slot: int, f: FileEntry, endian: Endian, image: Seq<u8>) -> bool {
    &&& f.name@ == node.name
    &&& f.compression_info == if node.compressed {
        Some(
            CompressionInfo {
                uncompressed_size: node.uncompressed_size,
                compression_type: CompressionType::Lzo,
            },
        )
    } else {
        None
    }
    &&& f.checksum == node.checksum
    &&& f.endian == endian
    &&& f.uncompressed_size == node.uncompressed_size
    &&& f.slot == slot
    &&& f.raw_bytes@ == payload_of(image, node.uncompressed_size, node.offset, node.compressed_size)
}

/// The entry `e` of the model is what the record at position `i` describes,
/// with everything below it: a file for a file, and for a directory a
/// directory of the same name whose entries are what the children of the
/// record describe, in their order.
pub open spec fn node_mirrors(nodes: Seq<FlatView>, i: int, e: Entry, endian: Endian, image: Seq<u8>) -> bool
    decreases e,
{
    if 0 <= i < nodes.len() {
        match e {
            Entry::File(f) => nodes[i].link is None && file_mirrors(nodes[i], i, f, endian, image),
            Entry::Dir(d) => match nodes[i].link {
                None => false,
                Some((index, count)) => d.name@ == nodes[i].name && index + count <= nodes.len()
                    && d.entries@.len() == count && range_mirrors(
                    nodes,
                    index as int,
                    d.entries@,
                    count as nat,
                    endian,
                    image,
                ),
            },
        }
    } else {
        false
    }
}

/// The first `n` of the entries `es` of the model are what the `n` records
/// from position `from` on describe.
pub open spec fn range_mirrors(
    nodes: Seq<FlatView>,
    from: int,
    es: Seq<Entry>,
    n: nat,
    endian: Endian,
    image: Seq<u8>,
) -> bool
    decreases es, n,
{
    if n == 0 {
        true
    } else if n > es.len() || from < 0 || from + n > nodes.len() {
        false
    } else {
        range_mirrors(nodes, from, es, (n - 1) as nat, endian, image) && node_mirrors(
            nodes,
            from + n - 1,
            es[n - 1],
            endian,
            image,
        )
    }
}

/// Whether the first `n` model entries mirror a range does not depend on what
/// follows them.
pub proof fn lemma_range_prefix(
    nodes: Seq<FlatView>,
    from: int,
    a: Seq<Entry>,
    b: Seq<Entry>,
    n: nat,
    endian: Endian,
    image: Seq<u8>,
)
    requires
        n <= a.len(),
        n <= b.len(),
        forall|i: int| 0 <= i < n ==> a[i] == b[i],
    ensures
        range_mirrors(nodes, from, a, n, endian, image) == range_mirrors(
            nodes,
            from,
            b,
            n,
            endian,
            image,
        ),
    decreases n,
{
    if n > 0 {
        lemma_range_prefix(nodes, from, a, b, (n - 1) as nat, endian, image);
    }
}

/// A mirrored tree has as many files and directories together as the tree
/// that the record spans has nodes.
pub proof fn lemma_node_counts(
    nodes: Seq<FlatView>,
    i: int,
    e: Entry,
    endian: Endian,
    image: Seq<u8>,
    depth: nat,
)
    requires
        node_mirrors(nodes, i, e, endian, image),
        tree_size(flat_links(nodes), i, depth) is Some,
    ensures
        entry_files(e) + entry_dirs(e) == tree_size(flat_links(nodes), i, depth)->Some_0,
    decreases e,
{
    assert(flat_links(nodes)[i] == nodes[i].link);
    match e {
        Entry::File(_) => {},
        Entry::Dir(d) => {
            let (index, count) = nodes[i].link->Some_0;
            lemma_range_counts(
                nodes,
                index as int,
                d.entries@,
                count as nat,
                endian,
                image,
                (depth - 1) as nat,
            );
        },
    }
}

/// Mirrored lists of trees have as many files and directories together as the
/// trees that the records span have nodes.
pub proof fn lemma_range_counts(
    nodes: Seq<FlatView>,
    from: int,
    es: Seq<Entry>,
    n: nat,
    endian: Endian,
    image: Seq<u8>,
    depth: nat,
)
    requires
        n <= es.len(),
        range_mirrors(nodes, from, es, n, endian, image),
        forest_size(flat_links(nodes), from, from + n, depth) is Some,
    ensures
        entries_files(es, n) + entries_dirs(es, n) == forest_size(
            flat_links(nodes),
            from,
            from + n,
            depth,
        )->Some_0,
    decreases es, n,
{
    if n > 0 {
        lemma_range_counts(nodes, from, es, (n - 1) as nat, endian, image, depth);
        lemma_node_counts(nodes, from + n - 1, es[n - 1], endian, image, depth);
    }
}

/// Maps the record at position `i` with everything below it, and counts its
/// files and directories.
#[verifier::rlimit(50)]
fn map_node<'p>(
    provider: &'p ArchiveProvider,
    nodes: &Vec<FlatNode>,
    i: usize,
    endian: Endian,
    metadata: &mut Metadata,
    Ghost(depth): Ghost<nat>,
) -> (e: Entry<'p>)
    requires
        i < nodes@.len(),
        nodes_fit(flat_views(nodes@), provider.image().len() as int),
        tree_size(flat_links(flat_views(nodes@)), i as int, depth) is Some,
        old(metadata).file_count + old(metadata).dir_count + tree_size(
            flat_links(flat_views(nodes@)),
            i as int,
            depth,
        )->Some_0 <= usize::MAX,
    ensures
        node_mirrors(flat_views(nodes@), i as int, e, endian, provider.image()),
        entry_untouched(e),
        final(metadata).game == old(metadata).game,
        final(metadata).file_count == old(metadata).file_count + entry_files(e),
        final(metadata).dir_count == old(metadata).dir_count + entry_dirs(e),
    decreases depth, 0int,
{
    let node = &nodes[i];
    proof {
        assert(flat_links(flat_views(nodes@))[i as int] == node.link);
        assert(node_fits(flat_views(nodes@)[i as int], provider.image().len() as int));
    }
    match node.link {
        None => {
            let raw_bytes = if node.uncompressed_size == 0 {
                provider.get_empty_bytes()
            } else {
                provider.get_bytes(node.offset as usize, node.compressed_size as usize)
            };
            metadata.file_count = metadata.file_count + 1;
            Entry::File(
                FileEntry {
                    name: node.name.clone(),
                    compression_info: if node.compressed {
                        Some(
                            CompressionInfo {
                                uncompressed_size: node.uncompressed_size,
                                compression_type: CompressionType::Lzo,
                            },
                        )
                    } else {
                        None
                    },
                    checksum: node.checksum,
                    endian,
                    uncompressed_size: node.uncompressed_size,
                    slot: i,
                    raw_bytes,
                    update: None,
                },
            )
        },
        Some((index, count)) => {
            metadata.dir_count = metadata.dir_count + 1;
            let entries = map_range(
                provider,
                nodes,
                index as usize,
                count as usize,
                endian,
                metadata,
                Ghost((depth - 1) as nat),
            );
            Entry::Dir(DirEntry { name: node.name.clone(), entries })
        },
    }
}

/// Maps the `n` records from position `from` on with everything below them,
/// and counts their files and directories.
#[verifier::rlimit(50)]
fn map_range<'p>(
    provider: &'p ArchiveProvider,
    nodes: &Vec<FlatNode>,
    from: usize,
    n: usize,
    endian: Endian,
    metadata: &mut Metadata,
    Ghost(depth): Ghost<nat>,
) -> (es: Vec<Entry<'p>>)
    requires
        from + n <= nodes@.len(),
        nodes_fit(flat_views(nodes@), provider.image().len() as int),
        forest_size(flat_links(flat_views(nodes@)), from as int, from + n, depth) is Some,
        old(metadata).file_count + old(metadata).dir_count + forest_size(
            flat_links(flat_views(nodes@)),
            from as int,
            from + n,
            depth,
        )->Some_0 <= usize::MAX,
    ensures
        es@.len() == n,
        range_mirrors(flat_views(nodes@), from as int, es@, n as nat, endian, provider.image()),
        entries_untouched(es@, es@.len()),
        final(metadata).game == old(metadata).game,
        final(metadata).file_count == old(metadata).file_count + entries_files(es@, es@.len()),
        final(metadata).dir_count == old(metadata).dir_count + entries_dirs(es@, es@.len()),
    decreases depth, 1int,
{
    let mut es: Vec<Entry<'p>> = Vec::new();
    let mut k: usize = 0;
    let len: usize = nodes.len();
    while k < n
        invariant
            k <= n,
            es@.len() == k,
            len == nodes@.len(),
            from + n <= nodes@.len(),
            nodes_fit(flat_views(nodes@), provider.image().len() as int),
            forest_size(flat_links(flat_views(nodes@)), from as int, from + n, depth) is Some,
            old(metadata).file_count + old(metadata).dir_count + forest_size(
                flat_links(flat_views(nodes@)),
                from as int,
                from + n,
                depth,
            )->Some_0 <= usize::MAX,
            range_mirrors(flat_views(nodes@), from as int, es@, k as nat, endian, provider.image()),
            entries_untouched(es@, k as nat),
            metadata.game == old(metadata).game,
            metadata.file_count == old(metadata).file_count + entries_files(es@, k as nat),
            metadata.dir_count == old(metadata).dir_count + entries_dirs(es@, k as nat),
        decreases n - k,
    {
        proof {
            let links = flat_links(flat_views(nodes@));
            lemma_forest_size_grows(links, from as int, from + k, from + n, depth);
            lemma_forest_size_grows(links, from as int, from + k + 1, from + n, depth);
            lemma_range_counts(
                flat_views(nodes@),
                from as int,
                es@,
                k as nat,
                endian,
                provider.image(),
                depth,
            );
        }
        let e = map_node(provider, nodes, from + k, endian, metadata, Ghost(depth));
        let ghost before = es@;
        es.push(e);
        proof {
            lemma_entries_prefix(before, es@, k as nat, Seq::empty());
            lemma_range_prefix(flat_views(nodes@), from as int, before, es@, k as nat, endian, provider.image());
        }
        k += 1;
    }
    es
}

/// The table starts with a directory whose children start at position one.
pub open spec fn has_root(nodes: Seq<FlatView>) -> bool {
    nodes.len() > 0 && (nodes[0].link matches Some((index, _)) && index == 1)
}

/// The number of children of the root directory.
pub open spec fn root_count(nodes: Seq<FlatView>) -> nat {
    match nodes[0].link {
        Some((_, count)) => count as nat,
        None => 0,
    }
}

/// Builds the model of an archive with a flat table: the entries at the top
/// are the children of the root directory, which itself is left out.  Counts
/// the files and directories of the model.
pub fn map_flat<'p>(provider: &'p ArchiveProvider, nodes: &Vec<FlatNode>, endian: Endian) -> (r: (
    Vec<Entry<'p>>,
    usize,
    usize,
))
    requires
        has_root(flat_views(nodes@)),
        links_ok(flat_links(flat_views(nodes@))),
        nodes_fit(flat_views(nodes@), provider.image().len() as int),
    ensures
        r.0@.len() == root_count(flat_views(nodes@)),
        range_mirrors(flat_views(nodes@), 1, r.0@, root_count(flat_views(nodes@)), endian, provider.image()),
        entries_untouched(r.0@, r.0@.len()),
        r.1 == entries_dirs(r.0@, r.0@.len()),
        r.2 == entries_files(r.0@, r.0@.len()),
        entries_dirs(r.0@, r.0@.len()) + entries_files(r.0@, r.0@.len()) <= usize::MAX,
{
    let count: usize = match nodes[0].link {
        Some((_, count)) => count as usize,
        None => 0,
    };
    let len: usize = nodes.len();
    let ghost depth = (len - 1) as nat;
    proof {
        let links = flat_links(flat_views(nodes@));
        assert(record_ok(links, 0));
        assert(links[0] == nodes@[0].link);
        assert(flat_views(nodes@)[0].link == nodes@[0].link);
        assert(tree_size(links, 0, len as nat) == Some(
            1 + forest_size(links, 1, 1 + count, depth)->Some_0,
        ));
    }
    let mut metadata = Metadata { dir_count: 0, file_count: 0, game: crate::Game::Obscure2 };
    let es = map_range(provider, nodes, 1, count, endian, &mut metadata, Ghost(depth));
    proof {
        lemma_range_counts(
            flat_views(nodes@),
            1,
            es@,
            count as nat,
            endian,
            provider.image(),
            depth,
        );
    }
    (es, metadata.dir_count, metadata.file_count)
}

} // verus!

verus! {

/// A model that mirrors a record still does once its files got other
/// replacements.
pub proof fn lemma_alike_node(
    nodes: Seq<FlatView>,
    i: int,
    a: Entry,
    b: Entry,
    endian: Endian,
    image: Seq<u8>,
)
    requires
        node_mirrors(nodes, i, a, endian, image),
        crate::archive::update::entry_alike(a, b),
    ensures
        node_mirrors(nodes, i, b, endian, image),
    decreases a,
{
    match a {
        Entry::File(_) => {},
        Entry::Dir(d) => {
            let (index, count) = nodes[i].link->Some_0;
            lemma_alike_range(
                nodes,
                index as int,
                d.entries@,
                b->Dir_0.entries@,
                count as nat,
                endian,
                image,
            );
        },
    }
}

/// A list of the model that mirrors a range of records still does once its
/// files got other replacements.
pub proof fn lemma_alike_range(
    nodes: Seq<FlatView>,
    from: int,
    a: Seq<Entry>,
    b: Seq<Entry>,
    n: nat,
    endian: Endian,
    image: Seq<u8>,
)
    requires
        n <= a.len(),
        n <= b.len(),
        range_mirrors(nodes, from, a, n, endian, image),
        crate::archive::update::entries_alike(a, b, n),
    ensures
        range_mirrors(nodes, from, b, n, endian, image),
    decreases a, n,
{
    if n > 0 {
        lemma_alike_range(nodes, from, a, b, (n - 1) as nat, endian, image);
        lemma_alike_node(nodes, from + n - 1, a[n - 1], b[n - 1], endian, image);
    }
}

} // verus!
