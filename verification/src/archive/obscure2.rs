//! The second layout in the archive model.  Its records store the CRC32 of a
//! name in place of the name; a dictionary of known names gives the names
//! back.

use std::collections::HashMap;
use vstd::prelude::*;
use vstd::string::StringExecFns;
use vstd::utf8::encode_utf8;

use crate::archive::entry::Entry;
use crate::archive::flat::{
    flat_links, flat_views, has_root, map_flat, nodes_fit, range_mirrors, root_count, FlatNode,
    FlatView,
};
use crate::archive::rebuild::{FilePatch, Patch};
use crate::archive::Metadata;
use crate::provider::{obscure2_entries_fit, obscure2_entry_fits, ArchiveProvider};
use crate::structures::common::{crc32_ieee, generate_crc32, links_ok, Endian, Link};
use crate::structures::obscure2;
use crate::Game;

verus! {

/// The hasher state of the dictionary.
#[verifier::external_type_specification]
#[verifier::external_body]
pub struct ExAhashState(ahash::RandomState);

/// `HashMap::default` with the hasher of `ahash`: a map without entries.
#[verifier::external_body]
fn names_empty() -> (r: HashMap<u32, String, ahash::RandomState>)
    ensures
        forall|crc: u32| !r@.contains_key(crc),
{
    HashMap::default()
}

/// `HashMap::insert` with the hasher of `ahash`: the map holds `name` under
/// `crc`, in place of what it held there, and is otherwise unchanged.
#[verifier::external_body]
fn names_insert(m: &mut HashMap<u32, String, ahash::RandomState>, crc: u32, name: String)
    ensures
        final(m)@ == old(m)@.insert(crc, name),
{
    m.insert(crc, name);
}

/// `HashMap::get` with the hasher of `ahash`: what the map holds under `crc`,
/// if anything.
#[verifier::external_body]
fn names_get(m: &HashMap<u32, String, ahash::RandomState>, crc: u32) -> (r: Option<&String>)
    ensures
        match r {
            Some(name) => m@.contains_key(crc) && *name == m@[crc],
            None => !m@.contains_key(crc),
        },
{
    m.get(&crc)
}

/// The character that the names of the second layout store as the single
/// byte `0xE9`.
pub open spec fn e_acute() -> char {
    '\u{e9}'
}

/// The name can be hashed: if it holds an e with acute accent, all its other
/// characters are ASCII.
pub open spec fn name_encodable(name: Seq<char>) -> bool {
    name.contains(e_acute()) ==> forall|i: int|
        0 <= i < name.len() ==> name[i] == e_acute() || (#[trigger] name[i]) as u32 <= 0x7f
}

/// The bytes of a name that are hashed: where the name holds an e with acute
/// accent, one byte for each character, `0xE9` for that letter; else the UTF-8
/// bytes of the name.
pub open spec fn name_bytes(name: Seq<char>) -> Seq<u8> {
    if name.contains(e_acute()) {
        Seq::new(
            name.len(),
            |i: int|
                if name[i] == e_acute() {
                    0xE9u8
                } else {
                    name[i] as u8
                },
        )
    } else {
        encode_utf8(name)
    }
}

/// The hash under which a record stores a name.
pub open spec fn spec_name_crc32(name: Seq<char>) -> u32 {
    crc32_ieee(name_bytes(name))
}

/// Whether the name holds an e with acute accent.
fn has_e_acute(name: &str) -> (r: bool)
    ensures
        r == name@.contains(e_acute()),
{
    let n = name.unicode_len();
    let mut i: usize = 0;
    while i < n
        invariant
            i <= n,
            n == name@.len(),
            forall|k: int| 0 <= k < i ==> name@[k] != e_acute(),
        decreases n - i,
    {
        if name.get_char(i) == '\u{e9}' {
            return true;
        }
        i += 1;
    }
    false
}

/// Whether the name can be hashed.
pub fn is_name_encodable(name: &str) -> (r: bool)
    ensures
        r == name_encodable(name@),
{
    if !has_e_acute(name) {
        return true;
    }
    let n = name.unicode_len();
    let mut i: usize = 0;
    while i < n
        invariant
            i <= n,
            n == name@.len(),
            name@.contains(e_acute()),
            forall|k: int|
                0 <= k < i ==> name@[k] == e_acute() || (#[trigger] name@[k]) as u32 <= 0x7f,
        decreases n - i,
    {
        let c = name.get_char(i);
        if c != '\u{e9}' && c as u32 > 0x7f {
            assert(name@[i as int] != e_acute() && name@[i as int] as u32 > 0x7f);
            return false;
        }
        i += 1;
    }
    true
}

/// The hash under which a record stores `name`.
pub fn get_name_crc32(name: &str) -> (crc: u32)
    requires
        name_encodable(name@),
    ensures
        crc == spec_name_crc32(name@),
{
    if has_e_acute(name) {
        let n = name.unicode_len();
        let mut bytes: Vec<u8> = Vec::new();
        let mut i: usize = 0;
        while i < n
            invariant
                i <= n,
                n == name@.len(),
                name_encodable(name@),
                name@.contains(e_acute()),
                bytes@.len() == i,
                forall|k: int| 0 <= k < i ==> bytes@[k] == name_bytes(name@)[k],
            decreases n - i,
        {
            let c = name.get_char(i);
            if c == '\u{e9}' {
                bytes.push(0xE9);
            } else {
                assert((name@[i as int]) as u32 <= 0x7f);
                bytes.push(c as u8);
            }
            i += 1;
        }
        assert(bytes@ =~= name_bytes(name@));
        generate_crc32(bytes.as_slice())
    } else {
        generate_crc32(name.as_bytes())
    }
}

/// The character of a decimal digit.
pub open spec fn digit_char(d: nat) -> char {
    if d == 0 {
        '0'
    } else if d == 1 {
        '1'
    } else if d == 2 {
        '2'
    } else if d == 3 {
        '3'
    } else if d == 4 {
        '4'
    } else if d == 5 {
        '5'
    } else if d == 6 {
        '6'
    } else if d == 7 {
        '7'
    } else if d == 8 {
        '8'
    } else {
        '9'
    }
}

/// The decimal digits of `n`, without leading zeros.
pub open spec fn decimal(n: nat) -> Seq<char>
    decreases n,
{
    if n < 10 {
        seq![digit_char(n)]
    } else {
        decimal(n / 10).push(digit_char(n % 10))
    }
}

/// The text of one decimal digit.
fn digit_text(d: u32) -> (r: &'static str)
    requires
        d < 10,
    ensures
        r@ == seq![digit_char(d as nat)],
{
    proof {
        reveal_strlit("0");
        reveal_strlit("1");
        reveal_strlit("2");
        reveal_strlit("3");
        reveal_strlit("4");
        reveal_strlit("5");
        reveal_strlit("6");
        reveal_strlit("7");
        reveal_strlit("8");
        reveal_strlit("9");
    }
    let r = if d == 0 {
        "0"
    } else if d == 1 {
        "1"
    } else if d == 2 {
        "2"
    } else if d == 3 {
        "3"
    } else if d == 4 {
        "4"
    } else if d == 5 {
        "5"
    } else if d == 6 {
        "6"
    } else if d == 7 {
        "7"
    } else if d == 8 {
        "8"
    } else {
        "9"
    };
    assert(r@ =~= seq![digit_char(d as nat)]);
    r
}

/// The decimal digits of `n` as text.
pub fn decimal_text(n: u32) -> (r: String)
    ensures
        r@ == decimal(n as nat),
    decreases n,
{
    if n < 10 {
        String::from_str(digit_text(n))
    } else {
        let r = decimal_text(n / 10).concat(digit_text(n % 10));
        assert(r@ =~= decimal(n as nat));
        r
    }
}

/// The name given to a file whose hash the dictionary does not know.
pub open spec fn unknown_file_name(crc: u32) -> Seq<char> {
    "unk_file_"@ + decimal(crc as nat) + ".dat"@
}

/// The name given to a directory whose hash the dictionary does not know.
pub open spec fn unknown_dir_name(crc: u32) -> Seq<char> {
    "unk_folder_"@ + decimal(crc as nat)
}

/// The dictionary that names the first `n` of `list` make: each name under
/// its hash, a later name in place of an earlier one with the same hash.
pub open spec fn names_map(list: Seq<Seq<char>>, n: nat) -> Map<u32, Seq<char>>
    decreases n,
{
    if n == 0 || n > list.len() {
        Map::empty()
    } else {
        names_map(list, (n - 1) as nat).insert(spec_name_crc32(list[n - 1]), list[n - 1])
    }
}

/// The known names of the second layout, each under its hash.
#[derive(Debug)]
pub struct Obscure2NameMap(pub(crate) HashMap<u32, String, ahash::RandomState>);

impl Obscure2NameMap {
    /// The names of the dictionary, each under its hash.
    pub open(crate) spec fn names(self) -> Map<u32, Seq<char>> {
        Map::new(|crc: u32| self.0@.contains_key(crc), |crc: u32| self.0@[crc]@)
    }

    /// A dictionary without names.
    pub fn empty() -> (r: Self)
        ensures
            r.names() == Map::<u32, Seq<char>>::empty(),
    {
        let r = Obscure2NameMap(names_empty());
        assert(r.names() =~= Map::<u32, Seq<char>>::empty());
        r
    }

    /// The dictionary of the given names.
    pub fn new(names: &Vec<String>) -> (r: Self)
        requires
            forall|i: int| 0 <= i < names@.len() ==> name_encodable(#[trigger] names@[i]@),
        ensures
            r.names() == names_map(crate::archive::entry::texts(names@), names@.len()),
    {
        let mut map = names_empty();
        let ghost list = crate::archive::entry::texts(names@);
        let mut i: usize = 0;
        assert(Obscure2NameMap(map).names() =~= names_map(list, 0));
        while i < names.len()
            invariant
                i <= names.len(),
                list == crate::archive::entry::texts(names@),
                forall|i: int| 0 <= i < names@.len() ==> name_encodable(#[trigger] names@[i]@),
                Obscure2NameMap(map).names() == names_map(list, i as nat),
            decreases names.len() - i,
        {
            let name = names[i].clone();
            let crc = get_name_crc32(name.as_str());
            let ghost before = Obscure2NameMap(map).names();
            names_insert(&mut map, crc, name);
            assert(Obscure2NameMap(map).names() =~= before.insert(crc, list[i as int]));
            i += 1;
        }
        Obscure2NameMap(map)
    }

    /// The name stored under the hash `crc32`, if there is one.
    pub fn get_name(&self, crc32: u32) -> (r: Option<&str>)
        ensures
            match r {
                Some(name) => self.names().contains_key(crc32) && name@ == self.names()[crc32],
                None => !self.names().contains_key(crc32),
            },
    {
        match names_get(&self.0, crc32) {
            Some(name) => Some(name.as_str()),
            None => None,
        }
    }

    /// The hash under which a record stores `name`.
    pub fn get_crc32_from_name(&self, name: &str) -> (crc: u32)
        requires
            name_encodable(name@),
        ensures
            crc == spec_name_crc32(name@),
    {
        get_name_crc32(name)
    }
}

impl Default for Obscure2NameMap {
    fn default() -> (r: Self)
        ensures
            r.names() == Map::<u32, Seq<char>>::empty(),
    {
        Self::empty()
    }
}

/// The name of a record: the one that the dictionary holds under the hash of
/// the record, else a name made of the hash.
pub open spec fn record_name(entry: obscure2::Entry, names: Map<u32, Seq<char>>) -> Seq<char> {
    if names.contains_key(entry.name_crc32) {
        names[entry.name_crc32]
    } else if entry.kind is Directory {
        unknown_dir_name(entry.name_crc32)
    } else {
        unknown_file_name(entry.name_crc32)
    }
}

/// What a record holds once its name is resolved.
pub open spec fn record_view(entry: obscure2::Entry, names: Map<u32, Seq<char>>) -> FlatView {
    match entry.kind {
        obscure2::EntryKind::File(f) => FlatView {
            name: record_name(entry, names),
            link: None,
            compressed: false,
            checksum: f.checksum,
            uncompressed_size: f.uncompressed_size,
            offset: f.offset,
            compressed_size: f.compressed_size,
        },
        obscure2::EntryKind::FileCompressed(f) => FlatView {
            name: record_name(entry, names),
            link: None,
            compressed: true,
            checksum: f.checksum,
            uncompressed_size: f.uncompressed_size,
            offset: f.offset,
            compressed_size: f.compressed_size,
        },
        obscure2::EntryKind::Directory(d) => FlatView {
            name: record_name(entry, names),
            link: Some((d.index, d.count)),
            compressed: false,
            checksum: 0,
            uncompressed_size: 0,
            offset: 0,
            compressed_size: 0,
        },
    }
}

/// What the records of a table hold once their names are resolved.
pub open spec fn table_views(table: Seq<obscure2::Entry>, names: Map<u32, Seq<char>>) -> Seq<
    FlatView,
> {
    Seq::new(table.len(), |i: int| record_view(table[i], names))
}

/// A record whose name the dictionary does not hold: its hash, and whether
/// it is a directory.  Such a record gets a name made of its hash.
#[derive(Debug, Clone, Copy, PartialEq, Eq, Structural)]
pub struct UnknownName {
    pub name_crc32: u32,
    pub directory: bool,
}

/// The records among the first `n` of a table whose hash the dictionary does
/// not hold, in the order of the table.  The root directory, which stands
/// first, has no name to look up and is left out.
pub open spec fn unknown_records(
    table: Seq<obscure2::Entry>,
    names: Map<u32, Seq<char>>,
    n: nat,
) -> Seq<UnknownName>
    decreases n,
{
    if n <= 1 {
        Seq::empty()
    } else {
        let before = unknown_records(table, names, (n - 1) as nat);
        let entry = table[n - 1];
        if names.contains_key(entry.name_crc32) {
            before
        } else {
            before.push(
                UnknownName { name_crc32: entry.name_crc32, directory: entry.kind is Directory },
            )
        }
    }
}

/// The records of a table that the dictionary has no name for: those that
/// `map_entries` names by their hash.
pub fn unknown_names(table: &Vec<obscure2::Entry>, name_map: &Obscure2NameMap) -> (r: Vec<
    UnknownName,
>)
    ensures
        r@ == unknown_records(table@, name_map.names(), table@.len()),
{
    let mut found: Vec<UnknownName> = Vec::new();
    let mut i: usize = 1;
    while i < table.len()
        invariant
            1 <= i,
            i <= table.len() || i == 1,
            found@ == unknown_records(table@, name_map.names(), i as nat),
        decreases table.len() - i,
    {
        let entry = &table[i];
        if name_map.get_name(entry.name_crc32).is_none() {
            let directory = match entry.kind {
                obscure2::EntryKind::Directory(_) => true,
                _ => false,
            };
            found.push(UnknownName { name_crc32: entry.name_crc32, directory });
        }
        i += 1;
    }
    proof {
        if table.len() == 0 {
            assert(unknown_records(table@, name_map.names(), 0) =~= unknown_records(
                table@,
                name_map.names(),
                1,
            ));
        }
    }
    found
}

/// The name of a record, resolved with the dictionary.
fn resolve_name(entry: &obscure2::Entry, name_map: &Obscure2NameMap) -> (name: String)
    ensures
        name@ == record_name(*entry, name_map.names()),
{
    match name_map.get_name(entry.name_crc32) {
        Some(name) => String::from_str(name),
        None => {
            let digits = decimal_text(entry.name_crc32);
            match entry.kind {
                obscure2::EntryKind::Directory(_) => {
                    let name = String::from_str("unk_folder_").concat(digits.as_str());
                    name
                },
                _ => {
                    let name = String::from_str("unk_file_").concat(digits.as_str()).concat(".dat");
                    name
                },
            }
        },
    }
}

/// The records of a table with their names resolved.
pub fn resolve_table(table: &Vec<obscure2::Entry>, name_map: &Obscure2NameMap) -> (nodes: Vec<
    FlatNode,
>)
    ensures
        flat_views(nodes@) == table_views(table@, name_map.names()),
{
    let mut nodes: Vec<FlatNode> = Vec::new();
    let mut i: usize = 0;
    while i < table.len()
        invariant
            i <= table.len(),
            nodes@.len() == i,
            forall|k: int|
                0 <= k < i ==> (#[trigger] nodes@[k])@ == record_view(table@[k], name_map.names()),
        decreases table.len() - i,
    {
        let entry = &table[i];
        let name = resolve_name(entry, name_map);
        let node = match entry.kind {
            obscure2::EntryKind::File(f) => FlatNode {
                name,
                link: None,
                compressed: false,
                checksum: f.checksum,
                uncompressed_size: f.uncompressed_size,
                offset: f.offset,
                compressed_size: f.compressed_size,
            },
            obscure2::EntryKind::FileCompressed(f) => FlatNode {
                name,
                link: None,
                compressed: true,
                checksum: f.checksum,
                uncompressed_size: f.uncompressed_size,
                offset: f.offset,
                compressed_size: f.compressed_size,
            },
            obscure2::EntryKind::Directory(d) => FlatNode {
                name,
                link: Some((d.index, d.count)),
                compressed: false,
                checksum: 0,
                uncompressed_size: 0,
                offset: 0,
                compressed_size: 0,
            },
        };
        nodes.push(node);
        i += 1;
    }
    assert(flat_views(nodes@) =~= table_views(table@, name_map.names()));
    nodes
}

/// The resolved records of a table that starts with the root directory, whose
/// directories span a tree and whose payloads fit an image, do so too.
pub proof fn lemma_table_views(table: Seq<obscure2::Entry>, names: Map<u32, Seq<char>>, limit: int)
    requires
        obscure2::has_root_entry(table),
        links_ok(obscure2::links_of(table)),
        obscure2_entries_fit(table, limit),
    ensures
        has_root(table_views(table, names)),
        links_ok(flat_links(table_views(table, names))),
        nodes_fit(table_views(table, names), limit),
        root_count(table_views(table, names)) == table[0].kind->Directory_0.count,
{
    let views = table_views(table, names);
    assert(flat_links(views) =~= obscure2::links_of(table));
    assert forall|i: int| 0 <= i < views.len() implies crate::archive::flat::node_fits(
        #[trigger] views[i],
        limit,
    ) by {
        assert(obscure2_entry_fits(table[i], limit));
    }
}

/// Builds the model of an archive of the second layout from its table of
/// contents and the dictionary of names, and counts its files and
/// directories.  The root directory of the table is left out: the entries at
/// the top of the model are its children.
pub fn map_entries<'p>(
    provider: &'p ArchiveProvider,
    entries: &Vec<obscure2::Entry>,
    endian: Endian,
    name_map: &Obscure2NameMap,
) -> (r: (Vec<Entry<'p>>, Metadata))
    requires
        obscure2::has_root_entry(entries@),
        links_ok(obscure2::links_of(entries@)),
        obscure2_entries_fit(entries@, provider.image().len() as int),
    ensures
        range_mirrors(
            table_views(entries@, name_map.names()),
            1,
            r.0@,
            r.0@.len(),
            endian,
            provider.image(),
        ),
        r.0@.len() == entries@[0].kind->Directory_0.count,
        crate::archive::entry::entries_untouched(r.0@, r.0@.len()),
        r.1 == (Metadata {
            dir_count: crate::archive::entry::entries_dirs(r.0@, r.0@.len()) as usize,
            file_count: crate::archive::entry::entries_files(r.0@, r.0@.len()) as usize,
            game: Game::Obscure2,
        }),
        crate::archive::entry::entries_dirs(r.0@, r.0@.len())
            + crate::archive::entry::entries_files(r.0@, r.0@.len()) <= usize::MAX,
{
    let nodes = resolve_table(entries, name_map);
    proof {
        lemma_table_views(entries@, name_map.names(), provider.image().len() as int);
    }
    let (es, dir_count, file_count) = map_flat(provider, &nodes, endian);
    (es, Metadata { dir_count, file_count, game: Game::Obscure2 })
}

} // verus!

verus! {

/// What a record says once it is patched.  A directory says what it said.
pub open spec fn patched_record(entry: obscure2::Entry, patch: Patch) -> obscure2::Entry {
    match entry.kind {
        obscure2::EntryKind::Directory(_) => entry,
        obscure2::EntryKind::File(f) => patched_file_record(entry.name_crc32, f, false, patch),
        obscure2::EntryKind::FileCompressed(f) => patched_file_record(
            entry.name_crc32,
            f,
            true,
            patch,
        ),
    }
}

/// What the record of a file says once it is patched.  Its kind follows the
/// new payload: compressed or not.
pub open spec fn patched_file_record(
    name_crc32: u32,
    f: obscure2::FileEntry,
    was_compressed: bool,
    patch: Patch,
) -> obscure2::Entry {
    match patch {
        Patch::Skip => file_record(name_crc32, f, was_compressed),
        Patch::Keep { offset } => file_record(
            name_crc32,
            obscure2::FileEntry {
                checksum: f.checksum,
                uncompressed_size: f.uncompressed_size,
                offset,
                compressed_size: f.compressed_size,
            },
            was_compressed,
        ),
        Patch::Replace { offset, compressed_size, uncompressed_size, checksum, compressed } => file_record(
            name_crc32,
            obscure2::FileEntry {
                checksum,
                uncompressed_size,
                offset,
                compressed_size,
            },
            compressed,
        ),
    }
}

/// The record of a file.
pub open spec fn file_record(name_crc32: u32, f: obscure2::FileEntry, compressed: bool) -> obscure2::Entry {
    obscure2::Entry {
        name_crc32,
        kind: if compressed {
            obscure2::EntryKind::FileCompressed(f)
        } else {
            obscure2::EntryKind::File(f)
        },
    }
}

/// The table once the first `n` of `patches` are applied, one after the
/// other, each to the record at its position.  A patch for a position outside
/// the table changes nothing.
pub open spec fn patched_table(table: Seq<obscure2::Entry>, patches: Seq<FilePatch>, n: nat) -> Seq<
    obscure2::Entry,
>
    decreases n,
{
    if n == 0 || n > patches.len() {
        table
    } else {
        let before = patched_table(table, patches, (n - 1) as nat);
        let p = patches[n - 1];
        if p.slot < before.len() {
            before.update(p.slot as int, patched_record(before[p.slot as int], p.patch))
        } else {
            before
        }
    }
}

/// Patching keeps the length of the table and what every record says of its
/// children.
pub proof fn lemma_patched_table(table: Seq<obscure2::Entry>, patches: Seq<FilePatch>, n: nat)
    requires
        n <= patches.len(),
    ensures
        patched_table(table, patches, n).len() == table.len(),
        obscure2::links_of(patched_table(table, patches, n)) == obscure2::links_of(table),
        obscure2::has_root_entry(table) ==> obscure2::has_root_entry(patched_table(table, patches, n)),
    decreases n,
{
    if n > 0 {
        lemma_patched_table(table, patches, (n - 1) as nat);
        let before = patched_table(table, patches, (n - 1) as nat);
        let after = patched_table(table, patches, n);
        assert(obscure2::links_of(after) =~= obscure2::links_of(before));
    }
}

/// Patching leaves directories as they are.
pub proof fn lemma_patched_dirs(table: Seq<obscure2::Entry>, patches: Seq<FilePatch>, n: nat)
    requires
        n <= patches.len(),
        obscure2::entries_wf(table),
    ensures
        obscure2::entries_wf(patched_table(table, patches, n)),
    decreases n,
{
    if n > 0 {
        lemma_patched_dirs(table, patches, (n - 1) as nat);
        lemma_patched_table(table, patches, (n - 1) as nat);
        let before = patched_table(table, patches, (n - 1) as nat);
        let after = patched_table(table, patches, n);
        assert forall|i: int| 0 <= i < after.len() implies obscure2::entry_wf(
            #[trigger] after[i],
        ) by {
            assert(obscure2::entry_wf(before[i]));
        }
    }
}

/// One record, patched.
fn patch_record(entry: obscure2::Entry, patch: Patch) -> (r: obscure2::Entry)
    ensures
        r == patched_record(entry, patch),
{
    let (f, was_compressed) = match entry.kind {
        obscure2::EntryKind::Directory(_) => {
            return entry;
        },
        obscure2::EntryKind::File(f) => (f, false),
        obscure2::EntryKind::FileCompressed(f) => (f, true),
    };
    let (file, compressed) = match patch {
        Patch::Skip => (f, was_compressed),
        Patch::Keep { offset } => (
            obscure2::FileEntry {
                checksum: f.checksum,
                uncompressed_size: f.uncompressed_size,
                offset,
                compressed_size: f.compressed_size,
            },
            was_compressed,
        ),
        Patch::Replace { offset, compressed_size, uncompressed_size, checksum, compressed } => (
            obscure2::FileEntry {
                checksum,
                uncompressed_size,
                offset,
                compressed_size,
            },
            compressed,
        ),
    };
    if compressed {
        obscure2::Entry { name_crc32: entry.name_crc32, kind: obscure2::EntryKind::FileCompressed(file) }
    } else {
        obscure2::Entry { name_crc32: entry.name_crc32, kind: obscure2::EntryKind::File(file) }
    }
}

/// A copy of the table with the patches applied.
pub fn patch_table(table: &Vec<obscure2::Entry>, patches: &Vec<FilePatch>) -> (r: Vec<obscure2::Entry>)
    ensures
        r@ == patched_table(table@, patches@, patches@.len()),
{
    let mut r: Vec<obscure2::Entry> = Vec::new();
    let mut i: usize = 0;
    while i < table.len()
        invariant
            i <= table.len(),
            r@ == table@.subrange(0, i as int),
        decreases table.len() - i,
    {
        r.push(table[i]);
        assert(r@ =~= table@.subrange(0, i + 1));
        i += 1;
    }
    assert(r@ =~= table@);
    let mut k: usize = 0;
    while k < patches.len()
        invariant
            k <= patches.len(),
            r@ == patched_table(table@, patches@, k as nat),
        decreases patches.len() - k,
    {
        let p = patches[k];
        if p.slot < r.len() {
            let patched = patch_record(r[p.slot], p.patch);
            r.set(p.slot, patched);
        }
        k += 1;
    }
    r
}

} // verus!

verus! {

/// The bytes of the table of contents after a rebuild: the records are
/// patched and the header holds the CRC32 of their bytes.
pub open spec fn rebuilt_toc(archive: obscure2::HvpArchive, patches: Seq<FilePatch>) -> Seq<u8> {
    let table = patched_table(archive.spec_entries(), patches, patches.len());
    obscure2::archive_bytes(
        archive.spec_endian(),
        obscure2::Header {
            entries_count: archive.spec_header().entries_count,
            entries_crc32: crc32_ieee(obscure2::entries_bytes(table, archive.spec_endian())),
        },
        table,
    )
}

/// The table of contents of a rebuilt image is read back as the patched
/// table, unless the CRC32 of its records happens to be zero, which no reader
/// of this layout accepts.
pub proof fn law_rebuilt_toc_parses(
    archive: obscure2::HvpArchive,
    patches: Seq<FilePatch>,
    rest: Seq<u8>,
)
    requires
        archive.wf(),
        crc32_ieee(
            obscure2::entries_bytes(
                patched_table(archive.spec_entries(), patches, patches.len()),
                archive.spec_endian(),
            ),
        ) != 0,
    ensures
        ({
            let table = patched_table(archive.spec_entries(), patches, patches.len());
            let header = obscure2::Header {
                entries_count: archive.spec_header().entries_count,
                entries_crc32: crc32_ieee(obscure2::entries_bytes(table, archive.spec_endian())),
            };
            obscure2::decode_archive(rebuilt_toc(archive, patches) + rest) == Ok::<
                (Endian, obscure2::Header, Seq<obscure2::Entry>),
                crate::structures::common::CodecError,
            >((archive.spec_endian(), header, table))
        }),
{
    let table = patched_table(archive.spec_entries(), patches, patches.len());
    let header = obscure2::Header {
        entries_count: archive.spec_header().entries_count,
        entries_crc32: crc32_ieee(obscure2::entries_bytes(table, archive.spec_endian())),
    };
    lemma_patched_table(archive.spec_entries(), patches, patches.len());
    lemma_patched_dirs(archive.spec_entries(), patches, patches.len());
    obscure2::law_write_then_parse(archive.spec_endian(), header, table, rest);
}

/// A copy of the table of contents with its records patched and the CRC32 of
/// the records computed anew.
pub fn update_entries(archive: &obscure2::HvpArchive, patches: &Vec<FilePatch>) -> (r:
    obscure2::HvpArchive)
    ensures
        r.spec_endian() == archive.spec_endian(),
        r.spec_entries() == patched_table(archive.spec_entries(), patches@, patches@.len()),
        r.spec_bytes() == rebuilt_toc(*archive, patches@),
{
    let entries = patch_table(archive.entries(), patches);
    let inner = obscure2::HvpArchiveInner { header: *archive.header(), entries };
    let mut r = match archive.endian() {
        Endian::Little => obscure2::HvpArchive::LittleEndian(inner),
        Endian::Big => obscure2::HvpArchive::BigEndian(inner),
    };
    r.update_checksums();
    r
}

} // verus!
