//! What can go wrong while a tree is listed.

use vstd::prelude::*;
use vstd::string::StringExecFns;

verus! {

/// A failure of a run.
pub enum TreeError {
    /// A directory could not be read; the field holds the system's words.
    Io(String),
}

impl TreeError {
    /// The system's words for the failure.
    pub open spec fn detail(&self) -> Seq<char> {
        match self {
            TreeError::Io(m) => m@,
        }
    }

    /// The failure in words, for the user.
    pub fn message(&self) -> (s: String)
        ensures
            s@ == "IO error: "@ + self.detail(),
    {
        let mut s: String = String::from_str("IO error: ");
        match self {
            TreeError::Io(m) => {
                s.append(m.as_str());
            },
        }
        s
    }
}

} // verus!
