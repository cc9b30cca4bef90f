use vstd::prelude::*;

verus! {

/// The ways in which a file-system call can fail.
#[derive(Clone, Copy, Debug, PartialEq, Eq, Structural)]
pub enum Error {
    /// The descriptor is not open.
    BadFd,
    /// A path component or directory entry does not exist.
    NotFound,
    /// A directory entry with that name already exists.
    AlreadyExists,
    /// The object is not a regular file.
    NotFile,
    /// A directory was expected.
    NotDir,
    /// A regular file was expected but the object is a directory.
    IsDir,
    /// The request is malformed (for example a `..` component).
    Invalid,
    /// The descriptor was not opened with the needed access.
    Permission,
}

} // verus!
