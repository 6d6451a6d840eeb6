use vstd::prelude::*;

verus! {

/// Errors of the index library.
#[derive(Debug)]
pub enum CommandoError {
    /// The index does not start with the expected magic bytes.
    BadMagic,
    /// The index was written in a format version that is not supported.
    BadVersion { expected: u32, got: u32 },
    /// The index ends in the middle of a field.
    Truncated,
    /// A looked-up name is longer than any stored name can be.
    TooLong,
    /// A manifest archive entry could not be read.
    CorruptedAlpm { message: String },
    /// Every mirror of a repository failed.
    NoMirror { repo: String },
    /// A descriptor has the name marker but no line after it.
    PackageNameDescRead,
    /// A descriptor has no name marker.
    PackageNameDescFind,
}

} // verus!
