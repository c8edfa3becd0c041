//! Verified core of `snakit`, a tool that renames files and directories to
//! snake_case.
//!
//! The library holds everything the tool decides: how a name is normalized
//! (the whitespace-collapse rule), how a colliding target name is resolved
//! with a numeric suffix, and which rename steps a directory listing gives
//! rise to. The thin binary around it only reads directories, applies the
//! planned renames, and prints.

pub mod collide;
pub mod naming;
pub mod walk;

use vstd::prelude::*;

verus! {

/// A name is hidden when it starts with a dot.
pub open spec fn spec_hidden(s: Seq<u8>) -> bool {
    s.len() > 0 && s[0] == 46u8
}

/// Determines whether a file name marks a hidden entry (leading dot).
pub fn is_hidden(name: &Vec<u8>) -> (r: bool)
    ensures
        r == spec_hidden(name@),
{
    name.len() > 0 && name[0] == 46u8
}

/// Why a root path is rejected before any traversal begins.
#[derive(Clone, Copy, PartialEq, Eq, Structural, Debug)]
pub enum RootError {
    /// The path does not exist.
    Missing,
    /// The path exists but is not a directory.
    NotDirectory,
}

impl RootError {
    /// The failure class, as the diagnostic substring scripts look for.
    pub fn message(&self) -> (r: &'static str)
        ensures
            *self == RootError::Missing ==> r@ == "does not exist"@,
            *self == RootError::NotDirectory ==> r@ == "is not a directory"@,
    {
        match self {
            RootError::Missing => "does not exist",
            RootError::NotDirectory => "is not a directory",
        }
    }
}

/// Decides whether a run may begin: the root must exist and must be a
/// directory; a missing root is reported ahead of a non-directory one.
pub fn validate_root(present: bool, is_dir: bool) -> (r: Result<(), RootError>)
    ensures
        r == if !present {
            Err::<(), RootError>(RootError::Missing)
        } else if !is_dir {
            Err::<(), RootError>(RootError::NotDirectory)
        } else {
            Ok::<(), RootError>(())
        },
{
    if !present {
        Err(RootError::Missing)
    } else if !is_dir {
        Err(RootError::NotDirectory)
    } else {
        Ok(())
    }
}

} // verus!
