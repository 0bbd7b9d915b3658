//! Reading, inspecting and rebuilding HVP asset archives.
//!
//! Three on-disk layouts are understood: the nested table of the first
//! Obscure title, the flat hashed table of its sequel, and the flat table with
//! embedded names used by Final Exam.  Every function is stated over plain
//! byte sequences so that the table of contents written back by a rebuild can
//! be related, byte for byte, to the one that was loaded.

use vstd::prelude::*;

pub mod archive;
pub mod commands;
pub mod provider;
pub mod structures;
pub mod utils;

pub use utils::try_detect_game;

verus! {

/// The title an archive belongs to, which fixes its on-disk layout.
#[derive(Debug, Clone, Copy, PartialEq, Eq, Structural)]
pub enum Game {
    Obscure1,
    Obscure2,
    FinalExam,
}

} // verus!
