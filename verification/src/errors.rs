//! The error taxonomy of the store and the session layer. Every failure is
//! reported to callers as one of these kinds; the wire protocol carries only
//! the descriptive text.

use vstd::prelude::*;

verus! {

#[derive(Debug, Clone, Copy, PartialEq, Eq, Structural)]
pub enum FsError {
    /// The path does not resolve to a node.
    NotFound,
    /// A directory was expected: an intermediate path segment named a file,
    /// or a directory operation reached a file.
    NotADirectory,
    /// A file was expected, as when reading or copying a directory.
    NotAFile,
    /// Parent-marker misuse: `..` in an absolute path, more than one `..`,
    /// or `..` while the working directory has no parent.
    InvalidPath,
    /// A two-argument command did not carry exactly two arguments.
    MalformedArgument,
}

impl FsError {
    /// The descriptive text of this error kind.
    pub open spec fn message_view(self) -> Seq<char> {
        match self {
            FsError::NotFound => "Not Found"@,
            FsError::NotADirectory => "Not a directory"@,
            FsError::NotAFile => "Not a file"@,
            FsError::InvalidPath => "Invalid path"@,
            FsError::MalformedArgument => "Mismatched input"@,
        }
    }

    pub fn message(&self) -> (r: &'static str)
        ensures
            r@ == self.message_view(),
    {
        match self {
            FsError::NotFound => "Not Found",
            FsError::NotADirectory => "Not a directory",
            FsError::NotAFile => "Not a file",
            FsError::InvalidPath => "Invalid path",
            FsError::MalformedArgument => "Mismatched input",
        }
    }
}

} // verus!
