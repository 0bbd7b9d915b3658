//! The additive checksum stored with every file payload.

use vstd::prelude::*;

use crate::structures::common::{word_at, Endian};

verus! {

/// Sum of the first `n` four-byte words of `data`.
pub open spec fn words_total(data: Seq<u8>, n: nat, endian: Endian) -> int
    decreases n,
{
    if n == 0 {
        0
    } else {
        words_total(data, (n - 1) as nat, endian) + word_at(data, 4 * (n - 1), endian)
    }
}

/// Sum of the single bytes `data[from..to]`, each taken as unsigned.
pub open spec fn bytes_total(data: Seq<u8>, from: int, to: int) -> int
    decreases to - from,
{
    if to <= from {
        0
    } else {
        bytes_total(data, from, to - 1) + data[to - 1]
    }
}

/// The unbounded sum behind the checksum: every complete four-byte word, then
/// the one to three bytes that are left over.
pub open spec fn checksum_total(data: Seq<u8>, endian: Endian) -> int {
    let n = data.len() / 4;
    words_total(data, n, endian) + bytes_total(data, 4 * n as int, data.len() as int)
}

/// Two's-complement reduction of an integer to 32 signed bits.
pub open spec fn wrap_i32(x: int) -> int {
    let m = x % 0x1_0000_0000;
    if m < 0x8000_0000 {
        m
    } else {
        m - 0x1_0000_0000
    }
}

/// The checksum of `data` as a mathematical value.
pub open spec fn spec_bytes_sum(data: Seq<u8>, endian: Endian) -> int {
    wrap_i32(checksum_total(data, endian))
}

/// Wrapping 32-bit sum of `data`: complete four-byte words are read in
/// `endian` order and added with wrap-around, the trailing bytes are added as
/// unsigned bytes.
pub fn bytes_sum(data: &[u8], endian: Endian) -> (sum: i32)
    ensures
        sum == spec_bytes_sum(data@, endian),
{
    let n: usize = data.len() / 4;
    let mut acc: u32 = 0;
    let mut i: usize = 0;
    while i < n
        invariant
            i <= n,
            n == data.len() / 4,
            acc == words_total(data@, i as nat, endian) % 0x1_0000_0000,
        decreases n - i,
    {
        let b0: u64 = data[4 * i] as u64;
        let b1: u64 = data[4 * i + 1] as u64;
        let b2: u64 = data[4 * i + 2] as u64;
        let b3: u64 = data[4 * i + 3] as u64;
        let word: u64 = match endian {
            Endian::Little => b0 + 0x100 * b1 + 0x1_0000 * b2 + 0x100_0000 * b3,
            Endian::Big => b3 + 0x100 * b2 + 0x1_0000 * b1 + 0x100_0000 * b0,
        };
        assert(word == word_at(data@, 4 * i, endian));
        acc = ((acc as u64 + word) % 0x1_0000_0000) as u32;
        i += 1;
    }
    let mut j: usize = 4 * n;
    while j < data.len()
        invariant
            4 * n <= j <= data.len(),
            n == data.len() / 4,
            acc == (words_total(data@, n as nat, endian) + bytes_total(data@, 4 * n, j as int))
                % 0x1_0000_0000,
        decreases data.len() - j,
    {
        acc = ((acc as u64 + data[j] as u64) % 0x1_0000_0000) as u32;
        j += 1;
    }
    if acc < 0x8000_0000 {
        acc as i32
    } else {
        ((acc - 0x8000_0000) as i32) - 0x7fff_ffff - 1
    }
}

} // verus!
