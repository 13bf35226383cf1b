//! The error kinds that the engine surfaces.
use vstd::prelude::*;

verus! {

/// Why an operation of the engine failed.
#[derive(Clone, Copy, Debug, PartialEq, Eq, Structural)]
pub enum FsError {
    /// The key derived from the password did not open the master key record.
    InvalidPassword,
    /// A required artifact of the data directory is missing or unreadable.
    InvalidDataDirStructure,
    /// An authentication tag did not match on decryption.
    Corrupted,
    NotFound,
    AlreadyExists,
    NotEmpty,
    NotADirectory,
    IsADirectory,
    PermissionDenied,
    InvalidInput,
    /// An error of the underlying disk, with its raw OS error number.
    Io(i32),
    /// Unclassified.
    Other,
}

/// The POSIX error number that stands for an error kind: the kinds that
/// POSIX knows by their own numbers, a wrong password as `EACCES`, a disk
/// error by the number it came with, and every other kind as `EIO`.
pub open spec fn errno_of(e: FsError) -> i32 {
    match e {
        FsError::NotFound => 2,
        FsError::PermissionDenied => 13,
        FsError::InvalidPassword => 13,
        FsError::AlreadyExists => 17,
        FsError::NotADirectory => 20,
        FsError::IsADirectory => 21,
        FsError::InvalidInput => 22,
        FsError::NotEmpty => 39,
        FsError::Io(code) => code,
        FsError::InvalidDataDirStructure => 5,
        FsError::Corrupted => 5,
        FsError::Other => 5,
    }
}

impl FsError {
    /// The POSIX error number that a mounted file system answers with.
    pub fn errno(&self) -> (code: i32)
        ensures
            code == errno_of(*self),
    {
        match self {
            FsError::NotFound => 2,
            FsError::PermissionDenied => 13,
            FsError::InvalidPassword => 13,
            FsError::AlreadyExists => 17,
            FsError::NotADirectory => 20,
            FsError::IsADirectory => 21,
            FsError::InvalidInput => 22,
            FsError::NotEmpty => 39,
            FsError::Io(code) => *code,
            FsError::InvalidDataDirStructure => 5,
            FsError::Corrupted => 5,
            FsError::Other => 5,
        }
    }
}

} // verus!
