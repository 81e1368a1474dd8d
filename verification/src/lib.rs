//! Reader for PAK archives: a resumable parser of the chunked container,
//! the archive model with its file tree, an adapter that serves the files of
//! an archive by path, overlays of several adapters, and sources of bytes
//! with a cache bounded in size.

use vstd::prelude::*;

pub mod bytes;
pub mod cache;
pub mod chunk;
pub mod directory;
pub mod entry;
pub mod error;
pub mod invariants;
pub mod listing;
pub mod merge;
pub mod overlay;
pub mod pak;
pub mod pak_vfs;
pub mod parser;
pub mod search;
pub mod source;
pub mod tab;
pub mod timestamp;

pub use crate::entry::{FileEntry, FileEntryKind, FileEntryMeta, FileInfo, RcFileEntry};
pub use crate::pak::{Chunk, PakFile, PakType};
pub use crate::parser::{PakParser, ParserStateMachine};

verus! {

/// Appends a zero to `integers`.
pub fn add_num(integers: &mut Vec<u32>)
    ensures
        final(integers)@ == old(integers)@.push(0),
{
    integers.push(0);
}

} // verus!
