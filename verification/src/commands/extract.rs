//! The operation that extracts the files of an archive.

use vstd::prelude::*;

use crate::commands::ChecksumValidation;

verus! {

/// What the operation is asked to do.
#[derive(Debug)]
pub struct Commands {
    /// The path of the archive.
    pub input: String,
    /// The path of the folder to extract to, if it is given.
    pub output_folder: Option<String>,
    pub checksum_validation: ChecksumValidation,
}

} // verus!
