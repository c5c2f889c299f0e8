//! The failures that the engine reports.

use vstd::prelude::*;

verus! {

/// What went wrong with the underlying byte stream.
#[derive(Clone, Copy, Debug, PartialEq, Eq, Structural)]
pub enum IoError {
    /// A read reached past the end of the stream.
    UnexpectedEof,
    /// A write started behind the end of the stream, or the stream would
    /// outgrow what the machine can address.
    OutOfBounds,
}

/// An error of the archive engine.
#[derive(Clone, Copy, Debug, PartialEq, Eq, Structural)]
pub enum Error {
    /// The path is empty, does not start with `/`, leaves the archive through
    /// `..`, or names something that no entry can hold.
    InvalidPath,
    /// A path component or a stored name is not valid text.
    NonUnicodePath,
    /// A path component is absent.
    NotFound,
    /// The entry found is not a file.
    ExpectedFile,
    /// The entry found is not a directory.
    ExpectedDirectory,
    /// The target of a creation already exists.
    AlreadyExists,
    /// The chain cache lacks a chain that it is expected to hold.
    InvalidChainIndex,
    /// The key is not accepted by the cipher, or does not match the archive.
    InvalidKey,
    /// The header does not carry the archive signature.
    InvalidSignature,
    /// Stored bytes do not decode, or two directories claim one chain.
    Corrupt,
    /// A chain of blocks loops or is longer than any archive allows.
    MalformedChain,
    /// A stored timestamp lies before the Unix epoch.
    TimestampOutOfRange,
    /// The byte stream refused a read or a write.
    Io(IoError),
}

pub type Pk2Result<T> = Result<T, Error>;

} // verus!
