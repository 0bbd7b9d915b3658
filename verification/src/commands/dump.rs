//! The operation that writes the table of contents out as text.

use vstd::prelude::*;

verus! {

/// What the operation is asked to do.
#[derive(Debug)]
pub struct Commands {
    /// The path of the archive.
    pub input: String,
    /// The path of the text file, if it is given.
    pub output: Option<String>,
}

} // verus!
