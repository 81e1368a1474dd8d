//! The failures of this library.

use vstd::prelude::*;

verus! {

/// The ways in which the bytes of an archive can be structurally invalid.
#[derive(Debug, Clone, Copy, PartialEq, Eq, Structural)]
pub enum FormatFault {
    /// A chunk starts with a four-byte tag that is none of FORM, HEAD, DATA, FILE.
    UnknownChunk,
    /// The type tag inside the FORM chunk is not a known archive type.
    UnknownPakType,
    /// The first chunk is not FORM, or a FORM or HEAD chunk occurs a second time.
    MisplacedChunk,
    /// The HEAD chunk's length is not 0x1C.
    BadHeadLength,
    /// An entry's kind byte is neither 0 (folder) nor 1 (file).
    BadEntryKind,
    /// An entry's name is not valid UTF-8.
    BadName,
    /// An entry other than the root has an empty name.
    EmptyName,
    /// One of the two reserved fields of a file entry is not zero.
    ReservedNotZero,
    /// A file entry's compression flag is neither 0 nor 1.
    BadCompressionFlag,
    /// A file entry's compression level is neither 0 nor 6.
    BadCompressionLevel,
    /// Two children of one folder carry the same name.
    DuplicateName,
    /// A folder received more children than it announced.
    TooManyChildren,
    /// A file entry appeared before any folder.
    NoParent,
    /// Lengths recorded in the archive disagree with each other.
    LengthMismatch,
    /// The file index ended while folders were still open.
    FramesRemaining,
    /// The bytes end before the archive does.
    Truncated,
    /// Two trees being merged hold a file, or entries of different kinds, under one name.
    MergeConflict,
}

/// Failures reported by this library.
#[derive(Debug, Clone, Copy, PartialEq, Eq, Structural)]
#[allow(inconsistent_fields)]
pub enum PakError {
    /// The underlying read failed.
    Io,
    /// The bytes are structurally invalid; `offset` is where the failing record starts.
    ParseFormat { offset: usize, fault: FormatFault },
    /// The operation would modify the read-only model.
    Unsupported,
    /// No entry exists at the requested path.
    NotFound,
    /// The payload stored at `offset` is not a valid zlib stream.
    Decompression { offset: u32 },
}

impl PakError {
    /// A short human-readable name for the failure.
    pub fn describe(&self) -> (r: &'static str)
        ensures
            r@ == match *self {
                PakError::Io => "I/O error occurred"@,
                PakError::ParseFormat { .. } => "Parser error"@,
                PakError::Unsupported => "Operation not supported"@,
                PakError::NotFound => "No such entry"@,
                PakError::Decompression { .. } => "Decompression failed"@,
            },
    {
        match self {
            PakError::Io => "I/O error occurred",
            PakError::ParseFormat { .. } => "Parser error",
            PakError::Unsupported => "Operation not supported",
            PakError::NotFound => "No such entry",
            PakError::Decompression { .. } => "Decompression failed",
        }
    }
}

/// Why a decoder stopped without producing a record.
#[derive(Debug, Clone, Copy, PartialEq, Eq, Structural)]
pub enum DecodeError {
    /// The buffer ends too early; this many more bytes complete the part being read.
    NeedMore(usize),
    /// The bytes can never form a valid record.
    Fatal(FormatFault),
}

} // verus!
