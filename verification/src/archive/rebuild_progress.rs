//! Reporting the progress of a rebuild.

use vstd::prelude::*;

verus! {

/// What a rebuild tells its caller while it runs.
pub trait RebuildProgress {
    /// One more file is done; `message` names it.
    fn inc(&self, message: Option<String>);

    /// `n` more files are done.
    fn inc_n(&self, n: usize, message: Option<String>);
}

} // verus!
