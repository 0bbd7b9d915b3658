//! What the command line asks for, as plain values: which operation to run
//! on which archive, and how to treat checksums that do not match.

use vstd::prelude::*;

pub mod create;
pub mod dump;
pub mod extract;
pub mod utils;

verus! {

/// A command: an operation and the layout to read the archive in.
#[derive(Debug)]
pub struct Commands {
    pub operation: Operation,
    pub game: Game,
}

/// The operations.
#[derive(Debug)]
pub enum Operation {
    /// Write the table of contents out as text.
    Dump(dump::Commands),
    /// Extract the files of an archive.
    Extract(extract::Commands),
    /// Make a new archive from extracted files and the archive they came from.
    Create(create::Commands),
}

impl Operation {
    /// The path of the archive that the operation reads.
    pub open spec fn spec_input_hvp_path(self) -> Seq<char> {
        match self {
            Operation::Dump(cmd) => cmd.input@,
            Operation::Extract(cmd) => cmd.input@,
            Operation::Create(cmd) => cmd.input_hvp@,
        }
    }

    /// The path of the archive that the operation reads.
    pub fn input_hvp_path(&self) -> (path: &str)
        ensures
            path@ == self.spec_input_hvp_path(),
    {
        match self {
            Operation::Dump(cmd) => cmd.input.as_str(),
            Operation::Extract(cmd) => cmd.input.as_str(),
            Operation::Create(cmd) => cmd.input_hvp.as_str(),
        }
    }
}

/// The layout that the command line names.
#[derive(Debug, Clone, Copy, PartialEq, Eq, Structural)]
pub enum Game {
    /// Decide by the signature of the archive.
    Auto,
    Obscure1,
    Obscure2,
    FinalExam,
}

impl Game {
    /// The layout to hand to the provider: none where the signature decides.
    pub open spec fn spec_hint(self) -> Option<crate::Game> {
        match self {
            Game::Auto => None,
            Game::Obscure1 => Some(crate::Game::Obscure1),
            Game::Obscure2 => Some(crate::Game::Obscure2),
            Game::FinalExam => Some(crate::Game::FinalExam),
        }
    }

    /// The layout to hand to the provider: none where the signature decides.
    pub fn hint(self) -> (r: Option<crate::Game>)
        ensures
            r == self.spec_hint(),
    {
        match self {
            Game::Auto => None,
            Game::Obscure1 => Some(crate::Game::Obscure1),
            Game::Obscure2 => Some(crate::Game::Obscure2),
            Game::FinalExam => Some(crate::Game::FinalExam),
        }
    }
}

impl Default for Game {
    fn default() -> (r: Self)
        ensures
            r == Game::Auto,
    {
        Game::Auto
    }
}

/// What to do about the checksums of the payloads.
#[derive(Debug, Clone, Copy, PartialEq, Eq, Structural)]
pub enum ChecksumValidation {
    /// Check them, and stop if one does not match.
    Yes,
    /// Do not check them.
    No,
    /// Check them, and ask whether to go on if one does not match.
    Prompt,
}

impl Default for ChecksumValidation {
    fn default() -> (r: Self)
        ensures
            r == ChecksumValidation::Yes,
    {
        ChecksumValidation::Yes
    }
}

/// What an operation does once it knows whether the checksums match.
#[derive(Debug, Clone, Copy, PartialEq, Eq, Structural)]
pub enum ChecksumVerdict {
    /// Go on.
    Proceed,
    /// Ask whether to go on.
    Ask,
    /// Stop: the archive may be broken.
    Abort,
}

impl ChecksumValidation {
    /// Whether the checksums are to be checked at all.
    pub fn wants_check(self) -> (r: bool)
        ensures
            r == (self != ChecksumValidation::No),
    {
        match self {
            ChecksumValidation::No => false,
            _ => true,
        }
    }

    /// What to do once it is known whether the checksums match: go on if they
    /// do or were not to be checked, else ask or stop.
    pub fn verdict(self, checksums_match: bool) -> (r: ChecksumVerdict)
        ensures
            r == if self == ChecksumValidation::No || checksums_match {
                ChecksumVerdict::Proceed
            } else if self == ChecksumValidation::Prompt {
                ChecksumVerdict::Ask
            } else {
                ChecksumVerdict::Abort
            },
    {
        match self {
            ChecksumValidation::No => ChecksumVerdict::Proceed,
            ChecksumValidation::Yes => if checksums_match {
                ChecksumVerdict::Proceed
            } else {
                ChecksumVerdict::Abort
            },
            ChecksumValidation::Prompt => if checksums_match {
                ChecksumVerdict::Proceed
            } else {
                ChecksumVerdict::Ask
            },
        }
    }
}

/// Whether an answer to the question "continue anyway?" means yes: only the
/// single letter `y` does.
pub fn answer_is_yes(answer: &str) -> (r: bool)
    ensures
        r == (answer@ == seq!['y']),
{
    proof {
        reveal_strlit("y");
    }
    let n = answer.unicode_len();
    if n != 1 {
        return false;
    }
    let r = answer.get_char(0) == 'y';
    assert(r ==> answer@ =~= seq!['y']);
    r
}

/// Whether a file of the input folder counts as modified: its content has
/// another CRC32 than the one recorded at extraction, or none was recorded.
pub fn is_modified(recorded: Option<u32>, content_crc32: u32) -> (r: bool)
    ensures
        r == (recorded != Some(content_crc32)),
{
    match recorded {
        Some(old) => old != content_crc32,
        None => true,
    }
}

} // verus!
