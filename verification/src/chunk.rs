//! Decoders for the starts of the four kinds of chunk.

use vstd::prelude::*;
use crate::bytes::{be_u32_at, le_u32_at, spec_be_u32, spec_le_u32, Cursor};
use crate::error::{DecodeError, FormatFault};
use crate::pak::{Chunk, ChunkModel, PakType};

verus! {

/// The four bytes "FORM", read big-endian.
pub const TAG_FORM: u32 = 0x464F_524D;

/// The four bytes "HEAD", read big-endian.
pub const TAG_HEAD: u32 = 0x4845_4144;

/// The four bytes "DATA", read big-endian.
pub const TAG_DATA: u32 = 0x4441_5441;

/// The four bytes "FILE", read big-endian.
pub const TAG_FILE: u32 = 0x4649_4C45;

/// The four bytes "PAC1", read big-endian.
pub const TAG_PAC1: u32 = 0x5041_4331;

/// The length that a HEAD chunk must announce.
pub const HEAD_LEN: u32 = 0x1C;

/// What decoding the start of one chunk yields.
pub enum Parsed {
    /// A complete chunk.
    Chunk(Chunk),
    /// A chunk whose body of the given length the caller is to skip.
    ChunkAndSkip(usize, Chunk),
    /// The header of the file index, whose entries follow in `chunk_len` bytes.
    FileChunkHeader { chunk_len: usize },
}

/// `Parsed` with its chunk as a mathematical value.
pub enum ParsedModel {
    Chunk(ChunkModel),
    ChunkAndSkip(nat, ChunkModel),
    FileChunkHeader { chunk_len: nat },
}

impl View for Parsed {
    type V = ParsedModel;

    open spec fn view(&self) -> ParsedModel {
        match *self {
            Parsed::Chunk(c) => ParsedModel::Chunk(c@),
            Parsed::ChunkAndSkip(n, c) => ParsedModel::ChunkAndSkip(n as nat, c@),
            Parsed::FileChunkHeader { chunk_len } => ParsedModel::FileChunkHeader {
                chunk_len: chunk_len as nat,
            },
        }
    }
}

/// A decoded chunk start and the number of bytes it occupies.
pub struct ChunkRecord {
    pub parsed: ParsedModel,
    pub consumed: nat,
}

/// The number of bytes missing from `len` to reach `want`, as a recoverable failure.
pub open spec fn need(want: int, len: int) -> DecodeError {
    DecodeError::NeedMore((want - len) as usize)
}

/// A FORM chunk after its tag: the size, then the archive's type tag.
pub open spec fn spec_form(rest: Seq<u8>) -> Result<ChunkRecord, DecodeError> {
    if rest.len() < 8 {
        Err(need(8, rest.len() as int))
    } else if spec_be_u32(rest, 4) != TAG_PAC1 {
        Err(DecodeError::Fatal(FormatFault::UnknownPakType))
    } else {
        Ok(
            ChunkRecord {
                parsed: ParsedModel::Chunk(
                    ChunkModel::Form {
                        file_size: spec_be_u32(rest, 0),
                        pak_file_type: PakType::PAC1,
                    },
                ),
                consumed: 8,
            },
        )
    }
}

/// A HEAD chunk after its tag, where `base` is the archive offset of the tag:
/// the length 0x1C, the version, then 0x18 bytes that are recorded as a range
/// of the archive and left to the caller to skip.
pub open spec fn spec_head(rest: Seq<u8>, base: nat) -> Result<ChunkRecord, DecodeError> {
    if rest.len() < 4 {
        Err(need(4, rest.len() as int))
    } else if spec_be_u32(rest, 0) != HEAD_LEN {
        Err(DecodeError::Fatal(FormatFault::BadHeadLength))
    } else if rest.len() < 8 {
        Err(need(8, rest.len() as int))
    } else if base + 12 + 0x18 > usize::MAX {
        Err(DecodeError::Fatal(FormatFault::LengthMismatch))
    } else {
        Ok(
            ChunkRecord {
                parsed: ParsedModel::ChunkAndSkip(
                    0x18,
                    ChunkModel::Head {
                        version: spec_le_u32(rest, 4),
                        start: base + 12,
                        end: base + 12 + 0x18,
                    },
                ),
                consumed: 8,
            },
        )
    }
}

/// A DATA chunk after its tag, where `base` is the archive offset of the tag:
/// the length, then that many payload bytes, recorded as a range of the
/// archive and left to the caller to skip.
pub open spec fn spec_data(rest: Seq<u8>, base: nat) -> Result<ChunkRecord, DecodeError> {
    if rest.len() < 4 {
        Err(need(4, rest.len() as int))
    } else if base + 8 + spec_be_u32(rest, 0) > usize::MAX {
        Err(DecodeError::Fatal(FormatFault::LengthMismatch))
    } else {
        Ok(
            ChunkRecord {
                parsed: ParsedModel::ChunkAndSkip(
                    spec_be_u32(rest, 0) as nat,
                    ChunkModel::Data {
                        start: base + 8,
                        end: base + 8 + spec_be_u32(rest, 0) as nat,
                    },
                ),
                consumed: 4,
            },
        )
    }
}

/// A FILE chunk after its tag: the length of the index that follows.
pub open spec fn spec_file(rest: Seq<u8>) -> Result<ChunkRecord, DecodeError> {
    if rest.len() < 4 {
        Err(need(4, rest.len() as int))
    } else if spec_be_u32(rest, 0) > usize::MAX {
        Err(DecodeError::Fatal(FormatFault::LengthMismatch))
    } else {
        Ok(
            ChunkRecord {
                parsed: ParsedModel::FileChunkHeader { chunk_len: spec_be_u32(rest, 0) as nat },
                consumed: 4,
            },
        )
    }
}

/// The record `rec` of a chunk's body, counted from the chunk's tag.
pub open spec fn with_tag(body: Result<ChunkRecord, DecodeError>) -> Result<
    ChunkRecord,
    DecodeError,
> {
    match body {
        Ok(rec) => Ok(ChunkRecord { parsed: rec.parsed, consumed: rec.consumed + 4 }),
        Err(e) => Err(e),
    }
}

/// What the bytes `rest`, which lie at offset `base` of the archive, hold at
/// their start, read as one chunk: a four-byte tag and the fields of that
/// kind of chunk. A tag other than FORM, HEAD, DATA and FILE is fatal.
pub open spec fn spec_chunk(rest: Seq<u8>, base: nat) -> Result<ChunkRecord, DecodeError> {
    if rest.len() < 4 {
        Err(need(4, rest.len() as int))
    } else if spec_be_u32(rest, 0) == TAG_FORM {
        with_tag(spec_form(rest.skip(4)))
    } else if spec_be_u32(rest, 0) == TAG_HEAD {
        with_tag(spec_head(rest.skip(4), base))
    } else if spec_be_u32(rest, 0) == TAG_DATA {
        with_tag(spec_data(rest.skip(4), base))
    } else if spec_be_u32(rest, 0) == TAG_FILE {
        with_tag(spec_file(rest.skip(4)))
    } else {
        Err(DecodeError::Fatal(FormatFault::UnknownChunk))
    }
}

/// What a decoder owes for the input `before`, given what the format says
/// (`expected`): on a record, the record and a cursor moved past it; on a
/// failure, that failure and an unmoved cursor.
pub open spec fn decoded_as(
    expected: Result<ChunkRecord, DecodeError>,
    r: Result<Parsed, DecodeError>,
    before: Cursor,
    after: Cursor,
) -> bool {
    match expected {
        Ok(rec) => r matches Ok(p) && p@ == rec.parsed && after.advanced_from(
            &before,
            rec.consumed as int,
        ),
        Err(e) => r matches Err(got) && got == e && after == before,
    }
}

/// Decodes the body of a FORM chunk.
pub fn parse_form_chunk(input: &mut Cursor) -> (r: Result<Parsed, DecodeError>)
    requires
        old(input).wf(),
    ensures
        final(input).wf(),
        decoded_as(spec_form(old(input).rest()), r, *old(input), *final(input)),
{
    let data = input.data;
    let pos = input.pos;
    let avail = data.len() - pos;
    let ghost rest = input.rest();
    assert(forall|k: int| 0 <= k < avail ==> rest[k] == data@[pos + k]);
    if avail < 8 {
        return Err(DecodeError::NeedMore(8 - avail));
    }
    let file_size = be_u32_at(data, pos);
    let pak_tag = be_u32_at(data, pos + 4);
    if pak_tag != TAG_PAC1 {
        return Err(DecodeError::Fatal(FormatFault::UnknownPakType));
    }
    input.pos = pos + 8;
    Ok(Parsed::Chunk(Chunk::Form { file_size, pak_file_type: PakType::PAC1 }))
}

/// Decodes the body of a HEAD chunk whose tag lies at offset `base` of the archive.
pub fn parse_head_chunk(input: &mut Cursor, base: usize) -> (r: Result<Parsed, DecodeError>)
    requires
        old(input).wf(),
    ensures
        final(input).wf(),
        decoded_as(spec_head(old(input).rest(), base as nat), r, *old(input), *final(input)),
{
    let data = input.data;
    let pos = input.pos;
    let avail = data.len() - pos;
    let ghost rest = input.rest();
    assert(forall|k: int| 0 <= k < avail ==> rest[k] == data@[pos + k]);
    if avail < 4 {
        return Err(DecodeError::NeedMore(4 - avail));
    }
    let header_len = be_u32_at(data, pos);
    if header_len != HEAD_LEN {
        return Err(DecodeError::Fatal(FormatFault::BadHeadLength));
    }
    if avail < 8 {
        return Err(DecodeError::NeedMore(8 - avail));
    }
    if base > usize::MAX - 0x24 {
        return Err(DecodeError::Fatal(FormatFault::LengthMismatch));
    }
    let version = le_u32_at(data, pos + 4);
    input.pos = pos + 8;
    Ok(Parsed::ChunkAndSkip(0x18, Chunk::Head { version, unknown_data: (base + 12)..(base + 0x24) }))
}

/// Decodes the body of a DATA chunk whose tag lies at offset `base` of the archive.
pub fn parse_data_chunk(input: &mut Cursor, base: usize) -> (r: Result<Parsed, DecodeError>)
    requires
        old(input).wf(),
    ensures
        final(input).wf(),
        decoded_as(spec_data(old(input).rest(), base as nat), r, *old(input), *final(input)),
{
    let data = input.data;
    let pos = input.pos;
    let avail = data.len() - pos;
    let ghost rest = input.rest();
    assert(forall|k: int| 0 <= k < avail ==> rest[k] == data@[pos + k]);
    if avail < 4 {
        return Err(DecodeError::NeedMore(4 - avail));
    }
    let data_len = be_u32_at(data, pos);
    if data_len as u64 > usize::MAX as u64 || base > usize::MAX - 8 || base + 8 > usize::MAX
        - data_len as usize {
        return Err(DecodeError::Fatal(FormatFault::LengthMismatch));
    }
    let len = data_len as usize;
    input.pos = pos + 4;
    Ok(Parsed::ChunkAndSkip(len, Chunk::Data { data: (base + 8)..(base + 8 + len) }))
}

/// Decodes the body of a FILE chunk up to the first entry of the index.
pub fn parse_file_chunk(input: &mut Cursor) -> (r: Result<Parsed, DecodeError>)
    requires
        old(input).wf(),
    ensures
        final(input).wf(),
        decoded_as(spec_file(old(input).rest()), r, *old(input), *final(input)),
{
    let data = input.data;
    let pos = input.pos;
    let avail = data.len() - pos;
    let ghost rest = input.rest();
    assert(forall|k: int| 0 <= k < avail ==> rest[k] == data@[pos + k]);
    if avail < 4 {
        return Err(DecodeError::NeedMore(4 - avail));
    }
    let chunk_len = be_u32_at(data, pos);
    if chunk_len as u64 > usize::MAX as u64 {
        return Err(DecodeError::Fatal(FormatFault::LengthMismatch));
    }
    input.pos = pos + 4;
    Ok(Parsed::FileChunkHeader { chunk_len: chunk_len as usize })
}

/// Decodes the start of one chunk at the cursor, which stands at offset
/// `base` of the archive. On success the cursor has moved past what was
/// decoded; on any failure it has not moved.
pub fn parse_chunk(input: &mut Cursor, base: usize) -> (r: Result<Parsed, DecodeError>)
    requires
        old(input).wf(),
    ensures
        final(input).wf(),
        decoded_as(spec_chunk(old(input).rest(), base as nat), r, *old(input), *final(input)),
{
    let data = input.data;
    let start = input.pos;
    let avail = data.len() - start;
    let ghost rest = input.rest();
    assert(forall|k: int| 0 <= k < avail ==> rest[k] == data@[start + k]);
    if avail < 4 {
        return Err(DecodeError::NeedMore(4 - avail));
    }
    let tag = be_u32_at(data, start);
    if tag != TAG_FORM && tag != TAG_HEAD && tag != TAG_DATA && tag != TAG_FILE {
        return Err(DecodeError::Fatal(FormatFault::UnknownChunk));
    }
    input.pos = start + 4;
    assert(input.rest() =~= rest.skip(4));
    let body = if tag == TAG_FORM {
        parse_form_chunk(input)
    } else if tag == TAG_HEAD {
        parse_head_chunk(input, base)
    } else if tag == TAG_DATA {
        parse_data_chunk(input, base)
    } else {
        parse_file_chunk(input)
    };
    if body.is_err() {
        input.pos = start;
    }
    body
}

} // verus!
