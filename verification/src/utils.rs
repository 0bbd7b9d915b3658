use vstd::prelude::*;

use crate::Game;

verus! {

/// Whether `data` starts with the eight bytes `b0..b7`.
pub open spec fn starts_with8(data: Seq<u8>, sig: Seq<u8>) -> bool {
    data.len() >= 8 && sig.len() == 8 && data.subrange(0, 8) == sig
}

/// First eight bytes of the nested layout: the text `HV PackF`.
pub open spec fn sig_obscure1() -> Seq<u8> {
    seq![0x48u8, 0x56u8, 0x20u8, 0x50u8, 0x61u8, 0x63u8, 0x6bu8, 0x46u8]
}

/// First eight bytes of the hashed flat layout, little endian.
pub open spec fn sig_obscure2_le() -> Seq<u8> {
    seq![0u8, 0u8, 4u8, 0u8, 0u8, 0u8, 0u8, 0u8]
}

/// First eight bytes of the hashed flat layout, big endian.
pub open spec fn sig_obscure2_be() -> Seq<u8> {
    seq![0u8, 4u8, 0u8, 0u8, 0u8, 0u8, 0u8, 0u8]
}

/// First eight bytes of the named flat layout, little endian.
pub open spec fn sig_final_exam_le() -> Seq<u8> {
    seq![0u8, 0u8, 5u8, 0u8, 0u8, 0u8, 0u8, 0u8]
}

/// First eight bytes of the named flat layout, big endian.
pub open spec fn sig_final_exam_be() -> Seq<u8> {
    seq![0u8, 5u8, 0u8, 0u8, 0u8, 0u8, 0u8, 0u8]
}

/// The title whose signature opens `data`, if any.
pub open spec fn detected_game(data: Seq<u8>) -> Option<Game> {
    if starts_with8(data, sig_obscure1()) {
        Some(Game::Obscure1)
    } else if starts_with8(data, sig_obscure2_le()) || starts_with8(data, sig_obscure2_be()) {
        Some(Game::Obscure2)
    } else if starts_with8(data, sig_final_exam_le()) || starts_with8(data, sig_final_exam_be()) {
        Some(Game::FinalExam)
    } else {
        None
    }
}

fn has_sig(data: &[u8], b: [u8; 8]) -> (r: bool)
    ensures
        r == starts_with8(data@, b@),
{
    if data.len() < 8 {
        return false;
    }
    let mut i: usize = 0;
    while i < 8
        invariant
            i <= 8,
            data.len() >= 8,
            forall|k: int| 0 <= k < i ==> data@[k] == b@[k],
        decreases 8 - i,
    {
        if data[i] != b[i] {
            assert(data@.subrange(0, 8)[i as int] == data@[i as int]);
            return false;
        }
        i += 1;
    }
    assert(data@.subrange(0, 8) =~= b@);
    true
}

/// Classifies an archive by the first eight bytes of its content.
///
/// Input shorter than eight bytes, or with an unknown signature, is `None`.
pub fn try_detect_game(data: &[u8]) -> (r: Option<Game>)
    ensures
        r == detected_game(data@),
{
    let o1: [u8; 8] = [0x48, 0x56, 0x20, 0x50, 0x61, 0x63, 0x6b, 0x46];
    let o2l: [u8; 8] = [0, 0, 4, 0, 0, 0, 0, 0];
    let o2b: [u8; 8] = [0, 4, 0, 0, 0, 0, 0, 0];
    let fel: [u8; 8] = [0, 0, 5, 0, 0, 0, 0, 0];
    let feb: [u8; 8] = [0, 5, 0, 0, 0, 0, 0, 0];
    assert(o1@ =~= sig_obscure1());
    assert(o2l@ =~= sig_obscure2_le());
    assert(o2b@ =~= sig_obscure2_be());
    assert(fel@ =~= sig_final_exam_le());
    assert(feb@ =~= sig_final_exam_be());
    if has_sig(data, o1) {
        Some(Game::Obscure1)
    } else if has_sig(data, o2l) || has_sig(data, o2b) {
        Some(Game::Obscure2)
    } else if has_sig(data, fel) || has_sig(data, feb) {
        Some(Game::FinalExam)
    } else {
        None
    }
}

} // verus!
