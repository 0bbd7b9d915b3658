//! The operation that makes a new archive.

use vstd::prelude::*;

use crate::commands::ChecksumValidation;

verus! {

/// What the operation is asked to do.
#[derive(Debug)]
pub struct Commands {
    /// The path of the archive to rebuild.
    pub input_hvp: String,
    /// The path of the folder with the extracted files.
    pub input_folder: String,
    /// The path of the new archive, if it is given.
    pub output: Option<String>,
    /// Store replacements as they are.
    pub skip_compression: bool,
    pub checksum_validation: ChecksumValidation,
    /// Replace every file, modified or not.
    pub update_all_files: bool,
    /// Make the archive also when no file changed.
    pub generate_anyway: bool,
}

} // verus!
