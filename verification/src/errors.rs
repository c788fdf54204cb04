//! The failure taxonomy of a render, and the one-line diagnostics for it.

use vstd::prelude::*;
use vstd::string::StringExecFns;

verus! {

/// Why a render stopped. The three kinds are mutually exclusive: a render
/// ends in at most one of them, and the first failure anywhere in the
/// traversal ends the whole render.
pub enum TreeError {
    /// A low-level read failed; carries the description of the cause.
    Io(String),
    /// The directory-walking machinery itself failed while listing a
    /// directory's contents; carries the description of the cause.
    Walkdir(String),
    /// The path to render does not name a directory.
    InvalidPath,
}

/// The single diagnostic line for a failed render. `path` is the path
/// argument exactly as the user gave it.
pub open spec fn message_for(e: TreeError, path: Seq<char>) -> Seq<char> {
    match e {
        TreeError::Io(m) => "Error reading the directory: "@ + m@,
        TreeError::Walkdir(m) => "Error walking the directory: "@ + m@,
        TreeError::InvalidPath => "Invalid directory path: "@ + path,
    }
}

/// Builds the diagnostic line for a failed render.
pub fn error_message(e: &TreeError, path: &str) -> (r: String)
    ensures
        r@ == message_for(*e, path@),
{
    match e {
        TreeError::Io(m) => {
            let mut s = "Error reading the directory: ".to_owned();
            s.append(m.as_str());
            s
        },
        TreeError::Walkdir(m) => {
            let mut s = "Error walking the directory: ".to_owned();
            s.append(m.as_str());
            s
        },
        TreeError::InvalidPath => {
            let mut s = "Invalid directory path: ".to_owned();
            s.append(path);
            s
        },
    }
}

} // verus!
