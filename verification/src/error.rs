//! Why a call failed, and how to say so.

use crate::text::{decimal, decimal_text, joined};
use vstd::prelude::*;
use vstd::string::StringExecFns;

verus! {

/// Why a snapshot could not be taken.
#[derive(Debug, Clone, Copy, PartialEq, Eq)]
pub enum ScanError {
    /// The root does not exist.
    NotFound,
    /// The root exists and is not a directory.
    NotADirectory,
    /// The root could not be inspected or read, or the lookup on one of its
    /// own entries failed.
    MetadataError,
}

/// Why a file could not be read as text.
#[derive(Debug, Clone, Copy, PartialEq, Eq)]
pub enum ReadError {
    /// The path does not exist.
    NotFound,
    /// The path exists and is not a regular file.
    NotAFile,
    /// The file could not be inspected or fetched.
    MetadataError,
    /// The file holds this many bytes, more than the ceiling.
    TooLarge(u64),
    /// The content is not valid UTF-8.
    DecodeError,
}

/// Why a watch could not be started.
#[derive(Debug, Clone, Copy, PartialEq, Eq)]
pub enum WatchError {
    /// The root cannot be watched.
    InvalidPath,
}

impl ScanError {
    /// The failure in words, for the path it concerns.
    pub open spec fn described(self, path: Seq<char>) -> Seq<char> {
        match self {
            ScanError::NotFound => "Path does not exist: "@ + path,
            ScanError::NotADirectory => "Path is not a directory: "@ + path,
            ScanError::MetadataError => "Failed to get metadata: "@ + path,
        }
    }

    /// Says what went wrong with the snapshot of `path`.
    pub fn message(&self, path: &str) -> (text: String)
        ensures
            text@ == self.described(path@),
    {
        match self {
            ScanError::NotFound => joined("Path does not exist: ", path),
            ScanError::NotADirectory => joined("Path is not a directory: ", path),
            ScanError::MetadataError => joined("Failed to get metadata: ", path),
        }
    }
}

impl ReadError {
    /// The failure in words, for the path it concerns.
    pub open spec fn described(self, path: Seq<char>) -> Seq<char> {
        match self {
            ReadError::NotFound => "File does not exist: "@ + path,
            ReadError::NotAFile => "Path is not a file: "@ + path,
            ReadError::MetadataError => "Failed to get metadata: "@ + path,
            ReadError::TooLarge(bytes) => "File too large ("@ + decimal_text(bytes as nat)
                + " bytes). Maximum is 1MB."@,
            ReadError::DecodeError => "Failed to read file "@ + path
                + ": stream did not contain valid UTF-8"@,
        }
    }

    /// Says what went wrong with reading `path`.
    pub fn message(&self, path: &str) -> (text: String)
        ensures
            text@ == self.described(path@),
    {
        match self {
            ReadError::NotFound => joined("File does not exist: ", path),
            ReadError::NotAFile => joined("Path is not a file: ", path),
            ReadError::MetadataError => joined("Failed to get metadata: ", path),
            ReadError::TooLarge(bytes) => {
                let size = decimal(*bytes);
                joined("File too large (", size.as_str()).concat(" bytes). Maximum is 1MB.")
            },
            ReadError::DecodeError => joined("Failed to read file ", path).concat(
                ": stream did not contain valid UTF-8",
            ),
        }
    }
}

impl WatchError {
    /// The failure in words, for the path it concerns.
    pub open spec fn described(self, path: Seq<char>) -> Seq<char> {
        "Failed to watch path: "@ + path
    }

    /// Says what went wrong with watching `path`.
    pub fn message(&self, path: &str) -> (text: String)
        ensures
            text@ == self.described(path@),
    {
        joined("Failed to watch path: ", path)
    }
}

} // verus!
