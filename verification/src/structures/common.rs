//! Integer and string encodings shared by the three layouts.

use vstd::prelude::*;
use vstd::utf8::*;

verus! {

/// Byte order of the multi-byte integers of an archive.
#[derive(Debug, Clone, Copy, PartialEq, Eq, Structural)]
pub enum Endian {
    Big,
    Little,
}

/// Why a table of contents was rejected.
#[derive(Debug, Clone, Copy, PartialEq, Eq, Structural)]
pub enum CodecError {
    /// The input ends inside a field.
    UnexpectedEof,
    /// The signature at the start of the table is not the expected one.
    BadMagic,
    /// A field that must be zero is not, or a count or size that must be
    /// positive is zero.
    InvalidField,
    /// The tag of an entry names no known kind.
    UnknownEntryKind,
    /// A stored name is not UTF-8.
    InvalidUtf8,
    /// The stored CRC32 of the entries differs from the one of their bytes.
    Crc32Mismatch,
    /// The flat table does not start with the root directory.
    MissingRootEntry,
    /// A name offset points outside the name table, or at bytes that are not
    /// UTF-8.
    InvalidNameOffset,
    /// A directory names children outside the table, or the directories
    /// lead back to one of themselves, or the tree that a record spans has
    /// more nodes than the table has records.
    InvalidDirectoryRange,
}

/// Value of the four bytes of `data` starting at `at`, read in `endian` order
/// as an unsigned number.
pub open spec fn word_at(data: Seq<u8>, at: int, endian: Endian) -> int {
    match endian {
        Endian::Little => data[at] + 0x100 * data[at + 1] + 0x1_0000 * data[at + 2] + 0x100_0000
            * data[at + 3],
        Endian::Big => data[at + 3] + 0x100 * data[at + 2] + 0x1_0000 * data[at + 1] + 0x100_0000
            * data[at],
    }
}

/// The `u16` stored at `at`.
pub open spec fn u16_at(data: Seq<u8>, at: int, endian: Endian) -> u16 {
    match endian {
        Endian::Little => (data[at] + 0x100 * data[at + 1]) as u16,
        Endian::Big => (data[at + 1] + 0x100 * data[at]) as u16,
    }
}

/// The `u32` stored at `at`.
pub open spec fn u32_at(data: Seq<u8>, at: int, endian: Endian) -> u32 {
    word_at(data, at, endian) as u32
}

/// The signed number with the same 32 bits as `v`.
pub open spec fn i32_of_u32(v: u32) -> i32 {
    if v < 0x8000_0000 {
        v as i32
    } else {
        (v - 0x1_0000_0000) as i32
    }
}

/// The unsigned number with the same 32 bits as `v`.
pub open spec fn u32_of_i32(v: i32) -> u32 {
    if v >= 0 {
        v as u32
    } else {
        (v + 0x1_0000_0000) as u32
    }
}

/// The `i32` stored at `at`.
pub open spec fn i32_at(data: Seq<u8>, at: int, endian: Endian) -> i32 {
    i32_of_u32(u32_at(data, at, endian))
}

/// The two bytes that store `v`.
pub open spec fn u16_bytes(v: u16, endian: Endian) -> Seq<u8> {
    match endian {
        Endian::Little => seq![(v % 0x100) as u8, (v / 0x100) as u8],
        Endian::Big => seq![(v / 0x100) as u8, (v % 0x100) as u8],
    }
}

/// The four bytes that store `v`.
pub open spec fn u32_bytes(v: u32, endian: Endian) -> Seq<u8> {
    match endian {
        Endian::Little => seq![
            (v % 0x100) as u8,
            ((v / 0x100) % 0x100) as u8,
            ((v / 0x100 / 0x100) % 0x100) as u8,
            (v / 0x100 / 0x100 / 0x100) as u8,
        ],
        Endian::Big => seq![
            (v / 0x100 / 0x100 / 0x100) as u8,
            ((v / 0x100 / 0x100) % 0x100) as u8,
            ((v / 0x100) % 0x100) as u8,
            (v % 0x100) as u8,
        ],
    }
}

/// The four bytes that store the signed `v`.
pub open spec fn i32_bytes(v: i32, endian: Endian) -> Seq<u8> {
    u32_bytes(u32_of_i32(v), endian)
}

/// A length prefix followed by the UTF-8 bytes of `text`.
pub open spec fn string_bytes(text: Seq<char>, endian: Endian) -> Seq<u8> {
    u32_bytes(encode_utf8(text).len() as u32, endian) + encode_utf8(text)
}

/// Reading back what `u16_bytes` wrote gives the number again, and writing
/// what was read gives the bytes again.
pub proof fn lemma_u16_round_trip(data: Seq<u8>, at: int, v: u16, endian: Endian)
    ensures
        u16_bytes(v, endian).len() == 2,
        u16_at(u16_bytes(v, endian), 0, endian) == v,
        0 <= at && at + 2 <= data.len() ==> u16_bytes(u16_at(data, at, endian), endian)
            == data.subrange(at, at + 2),
{
    if 0 <= at && at + 2 <= data.len() {
        assert(u16_bytes(u16_at(data, at, endian), endian) =~= data.subrange(at, at + 2));
    }
}

/// Four bytes, lowest first, are the base-256 digits of the number they store.
proof fn lemma_digits(b0: u8, b1: u8, b2: u8, b3: u8)
    ensures
        ({
            let w = b0 + 0x100 * b1 + 0x1_0000 * b2 + 0x100_0000 * b3;
            &&& 0 <= w <= u32::MAX
            &&& w % 0x100 == b0
            &&& (w / 0x100) % 0x100 == b1
            &&& (w / 0x100 / 0x100) % 0x100 == b2
            &&& w / 0x100 / 0x100 / 0x100 == b3
        }),
{
    let w = b0 + 0x100 * b1 + 0x1_0000 * b2 + 0x100_0000 * b3;
    let w1 = b1 + 0x100 * b2 + 0x1_0000 * b3;
    let w2 = b2 + 0x100 * b3;
    assert(w == 0x100 * w1 + b0);
    assert(w / 0x100 == w1);
    assert(w1 == 0x100 * w2 + b1);
    assert(w1 / 0x100 == w2);
    assert(w2 == 0x100 * b3 + b2);
    assert(w2 / 0x100 == b3);
}

/// A 32-bit number is the sum of its base-256 digits.
proof fn lemma_undigits(v: u32)
    ensures
        v == (v % 0x100) + 0x100 * ((v / 0x100) % 0x100) + 0x1_0000 * ((v / 0x100 / 0x100)
            % 0x100) + 0x100_0000 * (v / 0x100 / 0x100 / 0x100),
        v / 0x100 / 0x100 / 0x100 < 0x100,
{
    let q1 = v / 0x100;
    let q2 = q1 / 0x100;
    let q3 = q2 / 0x100;
    assert(v == 0x100 * q1 + v % 0x100);
    assert(q1 == 0x100 * q2 + q1 % 0x100);
    assert(q2 == 0x100 * q3 + q2 % 0x100);
}

/// Reading back what `u32_bytes` wrote gives the number again, and writing
/// what was read gives the bytes again.
pub proof fn lemma_u32_round_trip(data: Seq<u8>, at: int, v: u32, endian: Endian)
    ensures
        u32_bytes(v, endian).len() == 4,
        u32_at(u32_bytes(v, endian), 0, endian) == v,
        0 <= at && at + 4 <= data.len() ==> u32_bytes(u32_at(data, at, endian), endian)
            == data.subrange(at, at + 4),
{
    lemma_undigits(v);
    if 0 <= at && at + 4 <= data.len() {
        match endian {
            Endian::Little => lemma_digits(data[at], data[at + 1], data[at + 2], data[at + 3]),
            Endian::Big => lemma_digits(data[at + 3], data[at + 2], data[at + 1], data[at]),
        }
        assert(u32_bytes(u32_at(data, at, endian), endian) =~= data.subrange(at, at + 4));
    }
}

/// The two 32-bit readings of the same bits determine each other, so a signed
/// field survives being stored and read.
pub proof fn lemma_i32_round_trip(data: Seq<u8>, at: int, v: i32, w: u32, endian: Endian)
    ensures
        i32_of_u32(u32_of_i32(v)) == v,
        u32_of_i32(i32_of_u32(w)) == w,
        i32_bytes(v, endian).len() == 4,
        i32_at(i32_bytes(v, endian), 0, endian) == v,
        0 <= at && at + 4 <= data.len() ==> i32_bytes(i32_at(data, at, endian), endian)
            == data.subrange(at, at + 4),
{
    lemma_u32_round_trip(data, at, u32_of_i32(v), endian);
}

/// Bit-for-bit conversion of an unsigned 32-bit number to a signed one.
pub fn u32_to_i32(v: u32) -> (r: i32)
    ensures
        r == i32_of_u32(v),
{
    if v < 0x8000_0000 {
        v as i32
    } else {
        ((v - 0x8000_0000) as i32) - 0x7fff_ffff - 1
    }
}

/// Bit-for-bit conversion of a signed 32-bit number to an unsigned one.
pub fn i32_to_u32(v: i32) -> (r: u32)
    ensures
        r == u32_of_i32(v),
{
    if v >= 0 {
        v as u32
    } else {
        ((v + 0x7fff_ffff + 1) as u32) + 0x8000_0000
    }
}

/// Reads the `u16` at `at`.
pub fn read_u16(data: &[u8], at: usize, endian: Endian) -> (v: u16)
    requires
        at + 2 <= data.len(),
    ensures
        v == u16_at(data@, at as int, endian),
{
    let b0: u16 = data[at] as u16;
    let b1: u16 = data[at + 1] as u16;
    match endian {
        Endian::Little => b0 + 0x100 * b1,
        Endian::Big => b1 + 0x100 * b0,
    }
}

/// Reads the `u32` at `at`.
pub fn read_u32(data: &[u8], at: usize, endian: Endian) -> (v: u32)
    requires
        at + 4 <= data.len(),
    ensures
        v == u32_at(data@, at as int, endian),
{
    let b0: u32 = data[at] as u32;
    let b1: u32 = data[at + 1] as u32;
    let b2: u32 = data[at + 2] as u32;
    let b3: u32 = data[at + 3] as u32;
    match endian {
        Endian::Little => b0 + 0x100 * b1 + 0x1_0000 * b2 + 0x100_0000 * b3,
        Endian::Big => b3 + 0x100 * b2 + 0x1_0000 * b1 + 0x100_0000 * b0,
    }
}

/// Reads the `i32` at `at`.
pub fn read_i32(data: &[u8], at: usize, endian: Endian) -> (v: i32)
    requires
        at + 4 <= data.len(),
    ensures
        v == i32_at(data@, at as int, endian),
{
    u32_to_i32(read_u32(data, at, endian))
}

/// Appends the two bytes of `v` to `out`.
pub fn write_u16(out: &mut Vec<u8>, v: u16, endian: Endian)
    ensures
        final(out)@ == old(out)@ + u16_bytes(v, endian),
{
    let lo: u8 = (v % 0x100) as u8;
    let hi: u8 = (v / 0x100) as u8;
    match endian {
        Endian::Little => {
            out.push(lo);
            out.push(hi);
        },
        Endian::Big => {
            out.push(hi);
            out.push(lo);
        },
    }
    assert(out@ =~= old(out)@ + u16_bytes(v, endian));
}

/// Appends the four bytes of `v` to `out`.
pub fn write_u32(out: &mut Vec<u8>, v: u32, endian: Endian)
    ensures
        final(out)@ == old(out)@ + u32_bytes(v, endian),
{
    let b0: u8 = (v % 0x100) as u8;
    let b1: u8 = ((v / 0x100) % 0x100) as u8;
    let b2: u8 = ((v / 0x100 / 0x100) % 0x100) as u8;
    let b3: u8 = (v / 0x100 / 0x100 / 0x100) as u8;
    match endian {
        Endian::Little => {
            out.push(b0);
            out.push(b1);
            out.push(b2);
            out.push(b3);
        },
        Endian::Big => {
            out.push(b3);
            out.push(b2);
            out.push(b1);
            out.push(b0);
        },
    }
    assert(out@ =~= old(out)@ + u32_bytes(v, endian));
}

/// Appends the four bytes of the signed `v` to `out`.
pub fn write_i32(out: &mut Vec<u8>, v: i32, endian: Endian)
    ensures
        final(out)@ == old(out)@ + i32_bytes(v, endian),
{
    write_u32(out, i32_to_u32(v), endian)
}

/// Appends `bytes` to `out`.
pub fn write_bytes(out: &mut Vec<u8>, bytes: &[u8])
    ensures
        final(out)@ == old(out)@ + bytes@,
{
    let mut i: usize = 0;
    while i < bytes.len()
        invariant
            i <= bytes.len(),
            out@ == old(out)@ + bytes@.subrange(0, i as int),
        decreases bytes.len() - i,
    {
        out.push(bytes[i]);
        assert(out@ =~= old(out)@ + bytes@.subrange(0, i + 1));
        i += 1;
    }
    assert(bytes@.subrange(0, bytes.len() as int) =~= bytes@);
}

/// The CRC32 (IEEE 802.3 polynomial) of a byte sequence.
pub uninterp spec fn crc32_ieee(data: Seq<u8>) -> u32;

/// `crc32fast::hash` computes the IEEE CRC32 of the whole slice; the result
/// depends on the bytes alone.
pub assume_specification[ crc32fast::hash ](buf: &[u8]) -> (sum: u32)
    ensures
        sum == crc32_ieee(buf@),
;

/// The CRC32 of `data`.
pub fn generate_crc32(data: &[u8]) -> (sum: u32)
    ensures
        sum == crc32_ieee(data@),
{
    crc32fast::hash(data)
}

/// `String::from_utf8` accepts exactly the byte vectors that are UTF-8, and
/// the string it returns is stored as those bytes.
#[verifier::external_body]
pub(crate) fn string_from_utf8(bytes: Vec<u8>) -> (r: Option<String>)
    ensures
        r is Some <==> valid_utf8(bytes@),
        r matches Some(s) ==> encode_utf8(s@) == bytes@,
{
    String::from_utf8(bytes).ok()
}

/// `std::str::from_utf8` accepts exactly the byte slices that are UTF-8, and
/// the text it returns is stored as those bytes.
#[verifier::external_body]
pub(crate) fn str_from_utf8(bytes: &[u8]) -> (r: Option<&str>)
    ensures
        r is Some <==> valid_utf8(bytes@),
        r matches Some(s) ==> encode_utf8(s@) == bytes@,
{
    std::str::from_utf8(bytes).ok()
}

} // verus!

verus! {

/// What a record of a flat table says of its children: nothing for a file,
/// the position of the first child and the number of children for a
/// directory.
pub type Link = Option<(u32, u32)>;

/// Number of nodes of the tree below and including record `i`: one for a
/// file, one more than the trees of its children for a directory.  There is no
/// such number where the children of a directory on the way do not all lie
/// inside the table, nor where directories nest more than `depth` deep.
pub open spec fn tree_size(links: Seq<Link>, i: int, depth: nat) -> Option<nat>
    decreases depth, 0int,
{
    if 0 <= i < links.len() {
        match links[i] {
            None => Some(1),
            Some((index, count)) => if depth == 0 || index + count > links.len() {
                None
            } else {
                match forest_size(links, index as int, index + count, (depth - 1) as nat) {
                    Some(below) => Some(1 + below),
                    None => None,
                }
            },
        }
    } else {
        None
    }
}

/// Number of nodes of the trees below and including the records `from..to`,
/// if each of them has one.
pub open spec fn forest_size(links: Seq<Link>, from: int, to: int, depth: nat) -> Option<nat>
    decreases depth, to - from + 1,
{
    if from >= to {
        Some(0)
    } else {
        match (forest_size(links, from, to - 1, depth), tree_size(links, to - 1, depth)) {
            (Some(before), Some(last)) => Some(before + last),
            _ => None,
        }
    }
}

/// Record `i` spans a tree: the children of every directory below it lie
/// inside the table, wherever in the table, following them never comes back
/// to a directory already passed, and the tree has no more nodes than the
/// table has records.  A way that needs more levels than the table has
/// records passes a record twice, which is a cycle.
pub open spec fn record_ok(links: Seq<Link>, i: int) -> bool {
    tree_size(links, i, links.len()) matches Some(size) && size <= links.len()
}

/// Every record of the table spans a tree.
pub open spec fn links_ok(links: Seq<Link>) -> bool {
    forall|i: int| 0 <= i < links.len() ==> #[trigger] record_ok(links, i)
}

/// A tree that `depth` levels reach is the same tree with more levels
/// allowed.
pub proof fn lemma_tree_size_deeper(links: Seq<Link>, i: int, depth: nat, deeper: nat)
    requires
        tree_size(links, i, depth) is Some,
        depth <= deeper,
    ensures
        tree_size(links, i, deeper) == tree_size(links, i, depth),
    decreases depth, 0int,
{
    match links[i] {
        None => {},
        Some((index, count)) => {
            lemma_forest_size_deeper(
                links,
                index as int,
                index + count,
                (depth - 1) as nat,
                (deeper - 1) as nat,
            );
        },
    }
}

/// Trees that `depth` levels reach are the same trees with more levels
/// allowed.
pub proof fn lemma_forest_size_deeper(links: Seq<Link>, from: int, to: int, depth: nat, deeper: nat)
    requires
        forest_size(links, from, to, depth) is Some,
        depth <= deeper,
    ensures
        forest_size(links, from, to, deeper) == forest_size(links, from, to, depth),
    decreases depth, to - from + 1,
{
    if from < to {
        lemma_forest_size_deeper(links, from, to - 1, depth, deeper);
        lemma_tree_size_deeper(links, to - 1, depth, deeper);
    }
}

/// The trees below a range of records are among those below a longer range
/// with the same start.
pub proof fn lemma_forest_size_grows(links: Seq<Link>, from: int, mid: int, to: int, depth: nat)
    requires
        from <= mid <= to,
        forest_size(links, from, to, depth) is Some,
    ensures
        forest_size(links, from, mid, depth) is Some,
        forest_size(links, from, mid, depth)->Some_0 <= forest_size(links, from, to, depth)->Some_0,
    decreases to - mid,
{
    if mid < to {
        lemma_forest_size_grows(links, from, mid, to - 1, depth);
    }
}

/// Where one more level changes the tree of no record, no number of levels
/// does.
pub proof fn lemma_tree_size_settled(links: Seq<Link>, i: int, depth: nat, deeper: nat)
    requires
        forall|j: int| tree_size(links, j, depth + 1) == #[trigger] tree_size(links, j, depth),
        depth <= deeper,
    ensures
        tree_size(links, i, deeper) == tree_size(links, i, depth),
    decreases deeper, 0int,
{
    if deeper > depth + 1 && 0 <= i < links.len() {
        match links[i] {
            None => {},
            Some((index, count)) => {
                if index + count <= links.len() {
                    lemma_forest_size_settled(
                        links,
                        index as int,
                        index + count,
                        depth,
                        (deeper - 1) as nat,
                    );
                }
                assert(tree_size(links, i, deeper) == tree_size(links, i, depth + 1));
            },
        }
    }
}

/// Where one more level changes the tree of no record, no number of levels
/// changes the trees of a range.
pub proof fn lemma_forest_size_settled(links: Seq<Link>, from: int, to: int, depth: nat, deeper: nat)
    requires
        forall|j: int| tree_size(links, j, depth + 1) == #[trigger] tree_size(links, j, depth),
        depth <= deeper,
    ensures
        forest_size(links, from, to, deeper) == forest_size(links, from, to, depth),
    decreases deeper, to - from + 1,
{
    if from < to {
        lemma_forest_size_settled(links, from, to - 1, depth, deeper);
        lemma_tree_size_settled(links, to - 1, depth, deeper);
    }
}

/// What is known of the tree below a record after some rounds: `size` is the
/// number that `of` gives, or there is none yet.
pub open spec fn size_is(size: Option<usize>, of: Option<nat>) -> bool {
    match size {
        Some(s) => of == Some(s as nat),
        None => of is None,
    }
}

/// `sizes` holds, for every record, the tree that `depth` levels reach, and
/// none of these trees has more nodes than the table has records.
pub open spec fn sizes_at(links: Seq<Link>, sizes: Seq<Option<usize>>, depth: nat) -> bool {
    &&& sizes.len() == links.len()
    &&& forall|i: int|
        0 <= i < links.len() ==> size_is(#[trigger] sizes[i], tree_size(links, i, depth))
    &&& forall|i: int|
        0 <= i < links.len() ==> (#[trigger] sizes[i] matches Some(s) ==> s <= links.len())
}

/// The children of a directory, added up.
enum Sum {
    /// One more than the nodes below the children.
    Known(usize),
    /// The tree below one of the children is not known yet.
    Open,
    /// The children alone span more nodes than the table has records.
    Over,
}

/// Adds up the trees below the records `from..to` as far as `sizes` knows
/// them, and one for the directory above them.
fn sum_children(
    links: &Vec<Link>,
    sizes: &Vec<Option<usize>>,
    from: usize,
    to: usize,
    Ghost(depth): Ghost<nat>,
) -> (r: Sum)
    requires
        from <= to <= links.len(),
        links.len() > 0,
        sizes_at(links@, sizes@, depth),
    ensures
        match r {
            Sum::Known(total) => 1 <= total <= links.len() && forest_size(
                links@,
                from as int,
                to as int,
                depth,
            ) == Some((total - 1) as nat),
            Sum::Open => forest_size(links@, from as int, to as int, depth) is None,
            Sum::Over => exists|mid: int|
                from <= mid <= to && (#[trigger] forest_size(links@, from as int, mid, depth)
                    matches Some(below) && below >= links.len()),
        },
{
    let n: usize = links.len();
    let mut total: usize = 1;
    let mut open: bool = false;
    let mut j: usize = from;
    while j < to
        invariant
            from <= j <= to <= n,
            n == links.len(),
            sizes_at(links@, sizes@, depth),
            1 <= total <= n,
            open ==> forest_size(links@, from as int, j as int, depth) is None,
            !open ==> forest_size(links@, from as int, j as int, depth) == Some((total - 1) as nat),
        decreases to - j,
    {
        assert(size_is(sizes@[j as int], tree_size(links@, j as int, depth)));
        match sizes[j] {
            None => {
                open = true;
            },
            Some(size) => {
                if !open {
                    if size > n - total {
                        assert(forest_size(links@, from as int, j + 1, depth) matches Some(below)
                            && below >= n);
                        return Sum::Over;
                    }
                    total = total + size;
                }
            },
        }
        j += 1;
    }
    if open {
        Sum::Open
    } else {
        Sum::Known(total)
    }
}

/// What one more level reaches: the trees of the next round, and whether any
/// of them is news.  Nothing where a directory shows that the table is not in
/// order.
fn next_sizes(links: &Vec<Link>, sizes: &Vec<Option<usize>>, Ghost(depth): Ghost<nat>) -> (r: Option<
    (Vec<Option<usize>>, bool),
>)
    requires
        sizes_at(links@, sizes@, depth),
        depth < links.len(),
    ensures
        match r {
            Some((next, news)) => sizes_at(links@, next@, depth + 1) && (!news ==> next@
                == sizes@),
            None => !links_ok(links@),
        },
{
    let n: usize = links.len();
    let mut next: Vec<Option<usize>> = Vec::new();
    let mut news: bool = false;
    let mut i: usize = 0;
    while i < n
        invariant
            i <= n,
            n == links.len(),
            depth < n,
            sizes_at(links@, sizes@, depth),
            next@.len() == i,
            forall|k: int|
                0 <= k < i ==> size_is(#[trigger] next@[k], tree_size(links@, k, depth + 1)),
            forall|k: int| 0 <= k < i ==> (#[trigger] next@[k] matches Some(s) ==> s <= n),
            !news ==> forall|k: int| 0 <= k < i ==> #[trigger] next@[k] == sizes@[k],
        decreases n - i,
    {
        let size: Option<usize> = match links[i] {
            None => Some(1),
            Some((index, count)) => {
                if index as u64 + count as u64 > n as u64 {
                    assert(!record_ok(links@, i as int));
                    return None;
                }
                let from: usize = index as usize;
                let to: usize = from + count as usize;
                match sum_children(links, sizes, from, to, Ghost(depth)) {
                    Sum::Known(total) => Some(total),
                    Sum::Open => None,
                    Sum::Over => {
                        proof {
                            let mid = choose|mid: int|
                                from <= mid <= to && (#[trigger] forest_size(
                                    links@,
                                    from as int,
                                    mid,
                                    depth,
                                ) matches Some(below) && below >= n);
                            if tree_size(links@, i as int, n as nat) is Some {
                                lemma_forest_size_grows(
                                    links@,
                                    from as int,
                                    mid,
                                    to as int,
                                    (n - 1) as nat,
                                );
                                lemma_forest_size_deeper(
                                    links@,
                                    from as int,
                                    mid,
                                    depth,
                                    (n - 1) as nat,
                                );
                            }
                            assert(!record_ok(links@, i as int));
                        }
                        return None;
                    },
                }
            },
        };
        assert(size_is(sizes@[i as int], tree_size(links@, i as int, depth)));
        let same: bool = match (size, sizes[i]) {
            (Some(a), Some(b)) => a == b,
            (None, None) => true,
            _ => false,
        };
        if !same {
            news = true;
        }
        next.push(size);
        i += 1;
    }
    proof {
        if !news {
            assert(next@ =~= sizes@);
        }
    }
    Some((next, news))
}

/// Whether the tree below every record is known.
fn all_known(sizes: &Vec<Option<usize>>) -> (r: bool)
    ensures
        r == forall|i: int| 0 <= i < sizes@.len() ==> (#[trigger] sizes@[i]) is Some,
{
    let mut i: usize = 0;
    while i < sizes.len()
        invariant
            i <= sizes.len(),
            forall|k: int| 0 <= k < i ==> (#[trigger] sizes@[k]) is Some,
        decreases sizes.len() - i,
    {
        if sizes[i].is_none() {
            return false;
        }
        i += 1;
    }
    true
}

/// Decides `links_ok` level by level: a round learns the trees that one more
/// level of directories reaches, from the trees that the round before knew.
/// The rounds end when every tree is known, when a directory names children
/// outside the table or spans more nodes than the table has records, or when
/// a round learns nothing new, which shows a cycle.
pub fn check_links(links: &Vec<Link>) -> (ok: bool)
    ensures
        ok == links_ok(links@),
{
    let n: usize = links.len();
    let mut sizes: Vec<Option<usize>> = Vec::new();
    let mut k: usize = 0;
    while k < n
        invariant
            k <= n,
            n == links.len(),
            sizes@.len() == k,
            forall|i: int| 0 <= i < k ==> size_is(#[trigger] sizes@[i], tree_size(links@, i, 0)),
            forall|i: int| 0 <= i < k ==> (#[trigger] sizes@[i] matches Some(s) ==> s <= n),
        decreases n - k,
    {
        let size: Option<usize> = match links[k] {
            None => Some(1),
            Some(_) => None,
        };
        sizes.push(size);
        k += 1;
    }
    let mut round: usize = 0;
    while round < n
        invariant
            round <= n,
            n == links.len(),
            sizes_at(links@, sizes@, round as nat),
        decreases n - round,
    {
        if all_known(&sizes) {
            proof {
                lemma_all_known(links@, sizes@, round as nat);
            }
            return true;
        }
        match next_sizes(links, &sizes, Ghost(round as nat)) {
            None => {
                return false;
            },
            Some((next, news)) => {
                if !news {
                    proof {
                        lemma_nothing_new(links@, sizes@, round as nat);
                    }
                    return false;
                }
                sizes = next;
            },
        }
        round += 1;
    }
    let ok = all_known(&sizes);
    proof {
        if ok {
            lemma_all_known(links@, sizes@, n as nat);
        } else {
            let i = choose|i: int| 0 <= i < sizes@.len() && !((#[trigger] sizes@[i]) is Some);
            assert(size_is(sizes@[i], tree_size(links@, i, n as nat)));
            assert(!record_ok(links@, i));
        }
    }
    ok
}

/// Where some number of levels, no more than the table has records, reaches
/// the tree of every record, the table is in order.
proof fn lemma_all_known(links: Seq<Link>, sizes: Seq<Option<usize>>, depth: nat)
    requires
        sizes_at(links, sizes, depth),
        depth <= links.len(),
        forall|i: int| 0 <= i < sizes.len() ==> (#[trigger] sizes[i]) is Some,
    ensures
        links_ok(links),
{
    assert forall|i: int| 0 <= i < links.len() implies #[trigger] record_ok(links, i) by {
        assert(size_is(sizes[i], tree_size(links, i, depth)));
        lemma_tree_size_deeper(links, i, depth, links.len());
    }
}

/// Where one more level learns nothing and the tree of some record is still
/// not known, the table is not in order.
proof fn lemma_nothing_new(links: Seq<Link>, sizes: Seq<Option<usize>>, depth: nat)
    requires
        sizes_at(links, sizes, depth),
        sizes_at(links, sizes, depth + 1),
        depth <= links.len(),
        !(forall|i: int| 0 <= i < sizes.len() ==> (#[trigger] sizes[i]) is Some),
    ensures
        !links_ok(links),
{
    let i = choose|i: int| 0 <= i < sizes.len() && !((#[trigger] sizes[i]) is Some);
    assert forall|j: int| tree_size(links, j, depth + 1) == #[trigger] tree_size(
        links,
        j,
        depth,
    ) by {
        if 0 <= j < links.len() {
            assert(size_is(sizes[j], tree_size(links, j, depth)));
            assert(size_is(sizes[j], tree_size(links, j, depth + 1)));
        }
    }
    lemma_tree_size_settled(links, i, depth, links.len());
    assert(size_is(sizes[i], tree_size(links, i, depth)));
    assert(!record_ok(links, i));
}

} // verus!

verus! {

/// Where the length-prefixed text that starts at `at` ends, or the reason why
/// there is none: the input ends before the text does, or the text is not
/// UTF-8.
pub open spec fn scan_string(data: Seq<u8>, at: int, endian: Endian) -> Result<int, CodecError> {
    if at + 4 > data.len() {
        Err(CodecError::UnexpectedEof)
    } else if at + 4 + u32_at(data, at, endian) > data.len() {
        Err(CodecError::UnexpectedEof)
    } else if !valid_utf8(data.subrange(at + 4, at + 4 + u32_at(data, at, endian))) {
        Err(CodecError::InvalidUtf8)
    } else {
        Ok(at + 4 + u32_at(data, at, endian))
    }
}

/// Reads a length-prefixed text at `at`, and says where it ends.
pub fn read_string(data: &[u8], at: usize, endian: Endian) -> (r: Result<(String, usize), CodecError>)
    requires
        at <= data.len(),
    ensures
        match r {
            Ok((text, end)) => {
                &&& scan_string(data@, at as int, endian) == Ok::<int, CodecError>(end as int)
                &&& at + 4 <= end <= data.len()
                &&& encode_utf8(text@).len() <= u32::MAX
                &&& string_bytes(text@, endian) == data@.subrange(at as int, end as int)
            },
            Err(e) => scan_string(data@, at as int, endian) == Err::<int, CodecError>(e),
        },
{
    if data.len() - at < 4 {
        return Err(CodecError::UnexpectedEof);
    }
    let n = read_u32(data, at, endian);
    if ((data.len() - at - 4) as u64) < n as u64 {
        return Err(CodecError::UnexpectedEof);
    }
    let end: usize = at + 4 + n as usize;
    let bytes = vstd::slice::slice_to_vec(vstd::slice::slice_subrange(data, at + 4, end));
    match string_from_utf8(bytes) {
        None => Err(CodecError::InvalidUtf8),
        Some(text) => {
            proof {
                lemma_u32_round_trip(data@, at as int, 0, endian);
                assert(data@.subrange(at as int, at + 4) + data@.subrange(at + 4, end as int)
                    =~= data@.subrange(at as int, end as int));
            }
            Ok((text, end))
        },
    }
}

/// Appends a length prefix and the UTF-8 bytes of `text` to `out`.
pub fn write_string(out: &mut Vec<u8>, text: &str, endian: Endian)
    requires
        encode_utf8(text@).len() <= u32::MAX,
    ensures
        final(out)@ == old(out)@ + string_bytes(text@, endian),
{
    let bytes = text.as_bytes();
    write_u32(out, bytes.len() as u32, endian);
    write_bytes(out, bytes);
    assert(out@ =~= old(out)@ + string_bytes(text@, endian));
}

} // verus!

verus! {

/// Bytes that store a number read back as that number, wherever they lie.
pub proof fn lemma_u32_at_bytes(data: Seq<u8>, at: int, v: u32, endian: Endian)
    requires
        0 <= at,
        at + 4 <= data.len(),
        data.subrange(at, at + 4) == u32_bytes(v, endian),
    ensures
        u32_at(data, at, endian) == v,
{
    let part = data.subrange(at, at + 4);
    assert(part[0] == data[at] && part[1] == data[at + 1] && part[2] == data[at + 2] && part[3]
        == data[at + 3]);
    lemma_u32_round_trip(data, at, v, endian);
    assert(word_at(data, at, endian) == word_at(part, 0, endian));
}

/// Bytes that store a signed number read back as that number, wherever they
/// lie.
pub proof fn lemma_i32_at_bytes(data: Seq<u8>, at: int, v: i32, endian: Endian)
    requires
        0 <= at,
        at + 4 <= data.len(),
        data.subrange(at, at + 4) == i32_bytes(v, endian),
    ensures
        i32_at(data, at, endian) == v,
{
    lemma_u32_at_bytes(data, at, u32_of_i32(v), endian);
    lemma_i32_round_trip(data, at, v, 0, endian);
}

/// Bytes that store a short number read back as that number, wherever they
/// lie.
pub proof fn lemma_u16_at_bytes(data: Seq<u8>, at: int, v: u16, endian: Endian)
    requires
        0 <= at,
        at + 2 <= data.len(),
        data.subrange(at, at + 2) == u16_bytes(v, endian),
    ensures
        u16_at(data, at, endian) == v,
{
    let part = data.subrange(at, at + 2);
    assert(part[0] == data[at] && part[1] == data[at + 1]);
    lemma_u16_round_trip(data, at, v, endian);
    assert(u16_at(data, at, endian) == u16_at(part, 0, endian));
}

/// Where a sequence starts with `head` followed by `tail`, its first bytes
/// are `head` and the bytes behind them start with `tail`.
pub proof fn lemma_split_at(whole: Seq<u8>, at: int, head: Seq<u8>, tail: Seq<u8>, end: int)
    requires
        0 <= at,
        end == at + head.len() + tail.len(),
        end <= whole.len(),
        whole.subrange(at, end) == head + tail,
    ensures
        whole.subrange(at, at + head.len()) == head,
        whole.subrange(at + head.len(), end) == tail,
{
    let part = whole.subrange(at, end);
    assert(whole.subrange(at, at + head.len()) =~= part.subrange(0, head.len() as int));
    assert(whole.subrange(at + head.len(), end) =~= part.subrange(head.len() as int, part.len() as int));
    assert(part.subrange(0, head.len() as int) =~= head);
    assert(part.subrange(head.len() as int, part.len() as int) =~= tail);
}

} // verus!
