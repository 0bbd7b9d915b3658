//! Checks of the paths that the command line names.  Whether a path names a
//! file or a directory is for the caller to find out; what follows from it is
//! decided here.

use vstd::prelude::*;
use vstd::string::StringExecFns;

verus! {

/// The path, if it names a file; else what to tell the user.
pub fn is_file(path: &str, names_a_file: bool) -> (r: Result<String, String>)
    ensures
        match r {
            Ok(accepted) => names_a_file && accepted@ == path@,
            Err(reason) => !names_a_file && reason@ == "You need to pass a valid file path."@,
        },
{
    if !names_a_file {
        return Err(String::from_str("You need to pass a valid file path."));
    }
    Ok(String::from_str(path))
}

/// The path, if it names a directory; else what to tell the user.
pub fn is_dir(path: &str, names_a_dir: bool) -> (r: Result<String, String>)
    ensures
        match r {
            Ok(accepted) => names_a_dir && accepted@ == path@,
            Err(reason) => !names_a_dir && reason@ == "You need to pass a valid dir path."@,
        },
{
    if !names_a_dir {
        return Err(String::from_str("You need to pass a valid dir path."));
    }
    Ok(String::from_str(path))
}

} // verus!
