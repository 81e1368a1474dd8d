//! The parsed archive: its chunks and the lookup of its file index.

use vstd::prelude::*;
use std::ops::Range;
use crate::entry::{model, Node, RcFileEntry};

verus! {

/// The known archive variants.
#[derive(Debug, Clone, Copy, PartialEq, Eq, Structural)]
#[non_exhaustive]
pub enum PakType {
    PAC1,
}

/// One top-level record of an archive.
#[derive(Debug)]
#[non_exhaustive]
pub enum Chunk {
    /// The outer frame: the archive's length less the eight bytes that precede it, and its type.
    Form { file_size: u32, pak_file_type: PakType },
    /// The header: a version, and where in the archive its remaining bytes lie.
    Head { version: u32, unknown_data: Range<usize> },
    /// Where in the archive a block of payload bytes lies.
    Data { data: Range<usize> },
    /// The root folder of the archive's index.
    File { fs: RcFileEntry },
    /// Reserved for chunks of a kind not known to this library.
    Unknown(u32),
}

/// A chunk with its tree and ranges as mathematical values.
pub enum ChunkModel {
    Form { file_size: u32, pak_file_type: PakType },
    Head { version: u32, start: nat, end: nat },
    Data { start: nat, end: nat },
    File { root: Node },
    Unknown(u32),
}

impl View for Chunk {
    type V = ChunkModel;

    open spec fn view(&self) -> ChunkModel {
        match *self {
            Chunk::Form { file_size, pak_file_type } => ChunkModel::Form {
                file_size,
                pak_file_type,
            },
            Chunk::Head { version, unknown_data } => ChunkModel::Head {
                version,
                start: unknown_data.start as nat,
                end: unknown_data.end as nat,
            },
            Chunk::Data { data } => ChunkModel::Data {
                start: data.start as nat,
                end: data.end as nat,
            },
            Chunk::File { fs } => ChunkModel::File { root: model(*fs) },
            Chunk::Unknown(tag) => ChunkModel::Unknown(tag),
        }
    }
}

impl Chunk {
    /// Whether this is the chunk that holds the file index.
    pub fn is_file(&self) -> (r: bool)
        ensures
            r == (*self is File),
            r == (self@ is File),
    {
        match self {
            Chunk::File { .. } => true,
            _ => false,
        }
    }
}

/// The views of a list of chunks, in order.
pub open spec fn chunk_models(chunks: Seq<Chunk>) -> Seq<ChunkModel> {
    Seq::new(chunks.len(), |i: int| chunks[i]@)
}

/// Number of chunks of `chunks` that hold a file index.
pub open spec fn count_file(chunks: Seq<ChunkModel>) -> nat
    decreases chunks.len(),
{
    if chunks.len() == 0 {
        0
    } else {
        count_file(chunks.drop_last()) + if chunks.last() is File {
            1nat
        } else {
            0nat
        }
    }
}

/// Number of chunks of `chunks` that are headers.
pub open spec fn count_head(chunks: Seq<ChunkModel>) -> nat
    decreases chunks.len(),
{
    if chunks.len() == 0 {
        0
    } else {
        count_head(chunks.drop_last()) + if chunks.last() is Head {
            1nat
        } else {
            0nat
        }
    }
}

/// A chunk list as a complete archive has it: a FORM chunk first and nowhere
/// else, at most one header and at most one file index.
pub open spec fn chunks_ordered(chunks: Seq<ChunkModel>) -> bool {
    &&& chunks.len() > 0
    &&& forall|i: int| 0 <= i < chunks.len() ==> ((#[trigger] chunks[i] is Form) <==> i == 0)
    &&& count_head(chunks) <= 1
    &&& count_file(chunks) <= 1
}

/// A parsed archive: its chunks in the order of the source.
#[derive(Debug)]
pub struct PakFile {
    pub chunks: Vec<Chunk>,
}

impl View for PakFile {
    type V = Seq<ChunkModel>;

    open spec fn view(&self) -> Seq<ChunkModel> {
        chunk_models(self.chunks@)
    }
}

impl PakFile {
    /// The chunk list has the shape of a complete archive.
    pub open spec fn wf(&self) -> bool {
        chunks_ordered(self@)
    }

    /// Returns an immutable slice of the [`Chunk`]s contained in this `PakFile`.
    pub fn chunks(&self) -> (r: &[Chunk])
        ensures
            r@ == self.chunks@,
    {
        self.chunks.as_slice()
    }

    /// Returns a mutable `Vec` for this `PakFile`'s chunks.
    pub fn chunks_mut(&mut self) -> (r: &mut Vec<Chunk>)
        ensures
            *r == old(self).chunks,
            final(self).chunks == *final(r),
    {
        &mut self.chunks
    }

    /// Position of the first chunk that holds a file index, if there is one.
    pub fn file_chunk_index(&self) -> (r: Option<usize>)
        ensures
            match r {
                Some(i) => i < self.chunks@.len() && self.chunks@[i as int] is File && forall|
                    j: int,
                | 0 <= j < i ==> !(#[trigger] self.chunks@[j] is File),
                None => forall|j: int|
                    0 <= j < self.chunks@.len() ==> !(#[trigger] self.chunks@[j] is File),
            },
    {
        let mut i: usize = 0;
        while i < self.chunks.len()
            invariant
                i <= self.chunks@.len(),
                forall|j: int| 0 <= j < i ==> !(#[trigger] self.chunks@[j] is File),
            decreases self.chunks@.len() - i,
        {
            if self.chunks[i].is_file() {
                return Some(i);
            }
            i += 1;
        }
        None
    }

    /// Finds and returns an immutable reference to the [`Chunk::File`] chunk contained in this `PakFile`.
    /// May return `None` if no such chunk exists.
    pub fn file_chunk(&self) -> (r: Option<&Chunk>)
        ensures
            match r {
                Some(c) => exists|i: int|
                    0 <= i < self.chunks@.len() && *c == #[trigger] self.chunks@[i] && *c is File
                        && forall|j: int| 0 <= j < i ==> !(#[trigger] self.chunks@[j] is File),
                None => forall|j: int|
                    0 <= j < self.chunks@.len() ==> !(#[trigger] self.chunks@[j] is File),
            },
    {
        match self.file_chunk_index() {
            Some(i) => Some(&self.chunks[i]),
            None => None,
        }
    }

    /// Finds and returns a mutable reference to the [`Chunk::File`] chunk contained in this `PakFile`.
    /// May return `None` if no such chunk exists.
    pub fn file_chunk_mut(&mut self) -> (r: Option<&mut Chunk>)
        ensures
            match r {
                Some(c) => exists|i: int|
                    0 <= i < old(self).chunks@.len() && *c == #[trigger] old(self).chunks@[i] && *c is File
                        && (forall|j: int| 0 <= j < i ==> !(#[trigger] old(self).chunks@[j] is File))
                        && final(self).chunks@ == old(self).chunks@.update(i, *final(c)),
                None => *final(self) == *old(self) && forall|j: int|
                    0 <= j < old(self).chunks@.len() ==> !(#[trigger] old(self).chunks@[j] is File),
            },
    {
        match self.file_chunk_index() {
            Some(i) => Some(&mut self.chunks[i]),
            None => None,
        }
    }

    /// The root folder held by the first FILE chunk at or after index `from`.
    pub open spec fn spec_root_from(&self, from: int) -> Option<RcFileEntry>
        decreases self.chunks@.len() - from,
    {
        if from < 0 || from >= self.chunks@.len() {
            None
        } else {
            match self.chunks@[from] {
                Chunk::File { fs } => Some(fs),
                _ => self.spec_root_from(from + 1),
            }
        }
    }

    /// The root folder of the archive's index: that of its first FILE chunk.
    pub open spec fn spec_root(&self) -> Option<RcFileEntry> {
        self.spec_root_from(0)
    }

    /// The root folder of the archive's index, if the archive has one.
    pub fn root(&self) -> (r: Option<&RcFileEntry>)
        ensures
            match self.spec_root() {
                Some(e) => r matches Some(got) && *got == e,
                None => r is None,
            },
    {
        let mut i: usize = 0;
        while i < self.chunks.len()
            invariant
                i <= self.chunks@.len(),
                self.spec_root() == self.spec_root_from(i as int),
            decreases self.chunks@.len() - i,
        {
            match &self.chunks[i] {
                Chunk::File { fs } => {
                    return Some(fs);
                },
                _ => {},
            }
            i += 1;
        }
        None
    }
}

} // verus!
