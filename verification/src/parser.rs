//! The parser state machine: single steps, runs of steps over one buffer,
//! and the parse of an archive that lies in memory.

use vstd::prelude::*;
use crate::bytes::Cursor;
use crate::chunk::{parse_chunk, spec_chunk, ChunkRecord, Parsed, ParsedModel};
use crate::directory::{accept, accept_entry, all_folders, frames_of, Directory, Frame};
use crate::entry::{parse_file_entry, spec_entry, EntryRecord, FileEntry, FileEntryMeta, Node};
use crate::error::{DecodeError, FormatFault, PakError};
use crate::invariants::{
    announced_len, lemma_drive_skips, lemma_loop_consumes, lemma_parsed_archive_in_order,
    lemma_window_preserves_parse, roots_sound,
};
use crate::listing::{lemma_parsed_tree_is_listed, roots_listed};
use crate::pak::{
    chunk_models, chunks_ordered, count_file, count_head, Chunk, ChunkModel, PakFile,
};
use std::sync::Arc;
use vstd::slice::slice_subrange;

verus! {

/// Where the parser stands between two steps.
#[derive(Debug)]
pub enum PakParserState {
    /// The next bytes start a chunk.
    ParsingChunk,
    /// The next bytes are an entry of the file index.
    ParsingFileChunk {
        parsed_root: bool,
        parents: Vec<Directory>,
        bytes_processed: usize,
        chunk_len: usize,
    },
    /// The whole archive has been read.
    Done,
}

/// A parser state as a mathematical value.
pub enum StateModel {
    ParsingChunk,
    ParsingFileChunk { parsed_root: bool, frames: Seq<Frame>, bytes_processed: nat, chunk_len: nat },
    Done,
}

impl View for PakParserState {
    type V = StateModel;

    open spec fn view(&self) -> StateModel {
        match *self {
            PakParserState::ParsingChunk => StateModel::ParsingChunk,
            PakParserState::ParsingFileChunk {
                parsed_root,
                parents,
                bytes_processed,
                chunk_len,
            } => StateModel::ParsingFileChunk {
                parsed_root,
                frames: frames_of(parents@),
                bytes_processed: bytes_processed as nat,
                chunk_len: chunk_len as nat,
            },
            PakParserState::Done => StateModel::Done,
        }
    }
}

/// A resumable parser of an archive: it is fed the archive's bytes piece by
/// piece and tells the caller what to do next.
#[derive(Debug)]
pub struct PakParser {
    pub state: PakParserState,
    pub chunks: Vec<Chunk>,
    pub pak_len: Option<usize>,
    pub bytes_parsed: usize,
}

/// A parser as a mathematical value.
pub struct ParserModel {
    pub state: StateModel,
    pub chunks: Seq<ChunkModel>,
    pub pak_len: Option<nat>,
    pub bytes_parsed: nat,
}

impl View for PakParser {
    type V = ParserModel;

    open spec fn view(&self) -> ParserModel {
        ParserModel {
            state: self.state@,
            chunks: chunk_models(self.chunks@),
            pak_len: match self.pak_len {
                Some(n) => Some(n as nat),
                None => None,
            },
            bytes_parsed: self.bytes_parsed as nat,
        }
    }
}

/// What the parser asks of its caller after a step.
pub enum ParserStateMachine {
    /// Progress was made; call again at once.
    Loop(PakParser),
    /// The buffer was too short; refill it and call again.
    Continue(PakParser),
    /// Advance the source by `count` bytes, which start at offset `from`, then call again.
    Skip { from: usize, count: usize, parser: PakParser },
    /// The archive is complete.
    Done(PakFile),
}

/// A request of the parser as a mathematical value.
pub enum Transition {
    Loop(ParserModel),
    Continue(ParserModel),
    Skip { from: nat, count: nat, parser: ParserModel },
    Done(Seq<ChunkModel>),
}

impl View for ParserStateMachine {
    type V = Transition;

    open spec fn view(&self) -> Transition {
        match *self {
            ParserStateMachine::Loop(p) => Transition::Loop(p@),
            ParserStateMachine::Continue(p) => Transition::Continue(p@),
            ParserStateMachine::Skip { from, count, parser } => Transition::Skip {
                from: from as nat,
                count: count as nat,
                parser: parser@,
            },
            ParserStateMachine::Done(pak) => Transition::Done(pak@),
        }
    }
}

impl ParserStateMachine {
    /// The parser inside, if any, is well formed.
    pub open spec fn wf(&self) -> bool {
        match *self {
            ParserStateMachine::Loop(p) => p.wf(),
            ParserStateMachine::Continue(p) => p.wf(),
            ParserStateMachine::Skip { parser, .. } => parser.wf(),
            ParserStateMachine::Done(_) => true,
        }
    }
}

/// A request and the number of buffer bytes that were consumed to reach it.
pub struct StepRecord {
    pub next: Transition,
    pub consumed: nat,
}

/// The parser before anything was read.
pub open spec fn initial_parser() -> ParserModel {
    ParserModel {
        state: StateModel::ParsingChunk,
        chunks: Seq::empty(),
        pak_len: None,
        bytes_parsed: 0,
    }
}

/// The failure `fault`, found in the record that starts where `p` stands.
pub open spec fn fault_at(p: ParserModel, fault: FormatFault) -> PakError {
    PakError::ParseFormat { offset: p.bytes_parsed as usize, fault }
}

/// Whether `chunk` may follow `chunks`: FORM comes first and only first, and
/// a header or a file index comes at most once.
pub open spec fn placement_ok(chunks: Seq<ChunkModel>, chunk: ChunkModel) -> bool {
    match chunk {
        ChunkModel::Form { .. } => chunks.len() == 0,
        ChunkModel::Head { .. } => chunks.len() > 0 && count_head(chunks) == 0,
        ChunkModel::File { .. } => chunks.len() > 0 && count_file(chunks) == 0,
        _ => chunks.len() > 0,
    }
}

/// The step that ends by moving `p` forward: `consumed` bytes of the buffer
/// were read and `skip` more are left to the caller. It is a fault to pass
/// the archive's end; reaching it exactly forces the state `Done`.
pub open spec fn advance(p: ParserModel, consumed: nat, skip: nat) -> Result<StepRecord, PakError> {
    match p.pak_len {
        None => Err(fault_at(p, FormatFault::MisplacedChunk)),
        Some(len) => {
            let total = p.bytes_parsed + consumed + skip;
            if total > len {
                Err(fault_at(p, FormatFault::LengthMismatch))
            } else {
                let q = ParserModel {
                    state: if total == len {
                        StateModel::Done
                    } else {
                        p.state
                    },
                    chunks: p.chunks,
                    pak_len: p.pak_len,
                    bytes_parsed: total,
                };
                Ok(
                    StepRecord {
                        next: if skip > 0 {
                            Transition::Skip { from: (total - skip) as nat, count: skip, parser: q }
                        } else {
                            Transition::Loop(q)
                        },
                        consumed,
                    },
                )
            }
        },
    }
}

/// The step after the chunk `chunk` was decoded from `consumed` bytes, with
/// `skip` bytes of body left to the caller. The chunk joins the list; a FORM
/// chunk fixes the archive's length at its size plus the bytes read so far
/// less four.
pub open spec fn after_chunk(p: ParserModel, chunk: ChunkModel, consumed: nat, skip: nat) -> Result<
    StepRecord,
    PakError,
> {
    if !placement_ok(p.chunks, chunk) {
        Err(fault_at(p, FormatFault::MisplacedChunk))
    } else if chunk matches ChunkModel::Form { file_size, .. } && file_size + p.bytes_parsed
        + consumed - 4 > usize::MAX {
        Err(fault_at(p, FormatFault::LengthMismatch))
    } else {
        advance(
            ParserModel {
                state: StateModel::ParsingChunk,
                chunks: p.chunks.push(chunk),
                pak_len: match chunk {
                    ChunkModel::Form { file_size, .. } => Some(
                        (file_size + p.bytes_parsed + consumed - 4) as nat,
                    ),
                    _ => p.pak_len,
                },
                bytes_parsed: p.bytes_parsed,
            },
            consumed,
            skip,
        )
    }
}

/// The step after the start of a chunk was decoded.
pub open spec fn after_parsed(p: ParserModel, rec: ChunkRecord) -> Result<StepRecord, PakError> {
    match rec.parsed {
        ParsedModel::Chunk(c) => after_chunk(p, c, rec.consumed, 0),
        ParsedModel::ChunkAndSkip(skip, c) => after_chunk(p, c, rec.consumed, skip),
        ParsedModel::FileChunkHeader { chunk_len } => if p.chunks.len() == 0 || count_file(
            p.chunks,
        ) > 0 {
            Err(fault_at(p, FormatFault::MisplacedChunk))
        } else {
            advance(
                ParserModel {
                    state: StateModel::ParsingFileChunk {
                        parsed_root: false,
                        frames: Seq::empty(),
                        bytes_processed: 0,
                        chunk_len,
                    },
                    chunks: p.chunks,
                    pak_len: p.pak_len,
                    bytes_parsed: p.bytes_parsed,
                },
                rec.consumed,
                0,
            )
        },
    }
}

/// Whether the payload of a file node ends after the archive does.
pub open spec fn payload_outside(node: Node, pak_len: Option<nat>) -> bool {
    node matches Node::File { info, .. } && pak_len matches Some(len) && info.offset
        + info.compressed_len > len
}

/// The step after one entry of the file index was decoded. The entry joins
/// the open folders. When the index has been read to its announced length,
/// exactly the root must be open and complete, and it becomes the FILE chunk.
pub open spec fn after_entry(p: ParserModel, rec: EntryRecord) -> Result<StepRecord, PakError> {
    match p.state {
        StateModel::ParsingFileChunk { parsed_root, frames, bytes_processed, chunk_len } => {
            if payload_outside(rec.node, p.pak_len) {
                Err(fault_at(p, FormatFault::LengthMismatch))
            } else {
                match accept_entry(parsed_root, frames, rec.node, rec.children_count) {
                    Err(fault) => Err(fault_at(p, fault)),
                    Ok(next) => if bytes_processed + rec.consumed > chunk_len {
                        Err(fault_at(p, FormatFault::LengthMismatch))
                    } else if bytes_processed + rec.consumed == chunk_len {
                        if next.len() != 1 || next[0].remaining != 0 {
                            Err(fault_at(p, FormatFault::FramesRemaining))
                        } else {
                            advance(
                                ParserModel {
                                    state: StateModel::ParsingChunk,
                                    chunks: p.chunks.push(ChunkModel::File { root: next[0].node }),
                                    pak_len: p.pak_len,
                                    bytes_parsed: p.bytes_parsed,
                                },
                                rec.consumed,
                                0,
                            )
                        }
                    } else {
                        advance(
                            ParserModel {
                                state: StateModel::ParsingFileChunk {
                                    parsed_root: true,
                                    frames: next,
                                    bytes_processed: bytes_processed + rec.consumed,
                                    chunk_len,
                                },
                                chunks: p.chunks,
                                pak_len: p.pak_len,
                                bytes_parsed: p.bytes_parsed,
                            },
                            rec.consumed,
                            0,
                        )
                    },
                }
            }
        },
        _ => Err(fault_at(p, FormatFault::MisplacedChunk)),
    }
}

/// One step of the parser `p`, which is not done, on the buffer `rest`.
/// A buffer that ends too early leaves the parser as it is and asks for more.
#[verifier::opaque]
pub open spec fn spec_step(p: ParserModel, rest: Seq<u8>) -> Result<StepRecord, PakError> {
    match p.state {
        StateModel::ParsingChunk => match spec_chunk(rest, p.bytes_parsed) {
            Err(DecodeError::NeedMore(_)) => Ok(
                StepRecord { next: Transition::Continue(p), consumed: 0 },
            ),
            Err(DecodeError::Fatal(fault)) => Err(fault_at(p, fault)),
            Ok(rec) => after_parsed(p, rec),
        },
        StateModel::ParsingFileChunk { .. } => match spec_entry(rest) {
            Err(DecodeError::NeedMore(_)) => Ok(
                StepRecord { next: Transition::Continue(p), consumed: 0 },
            ),
            Err(DecodeError::Fatal(fault)) => Err(fault_at(p, fault)),
            Ok(rec) => after_entry(p, rec),
        },
        StateModel::Done => Ok(StepRecord { next: Transition::Done(p.chunks), consumed: 0 }),
    }
}

/// The outcome `r` reached after `n` more bytes had been consumed before it.
pub open spec fn shift(r: Result<StepRecord, PakError>, n: nat) -> Result<StepRecord, PakError> {
    match r {
        Ok(rec) => Ok(StepRecord { next: rec.next, consumed: rec.consumed + n }),
        Err(e) => Err(e),
    }
}

/// Steps of the parser `p` on the buffer `rest`, one after the other for as
/// long as a step makes progress and asks for nothing: the first request for
/// more bytes, for a skip, or the finished archive, with the number of bytes
/// consumed up to there.
pub open spec fn spec_drive(p: ParserModel, rest: Seq<u8>) -> Result<StepRecord, PakError>
    decreases rest.len(),
{
    if p.state is Done {
        Ok(StepRecord { next: Transition::Done(p.chunks), consumed: 0 })
    } else {
        match spec_step(p, rest) {
            Err(e) => Err(e),
            Ok(rec) => match rec.next {
                Transition::Loop(q) => if 0 < rec.consumed <= rest.len() {
                    shift(spec_drive(q, rest.skip(rec.consumed as int)), rec.consumed)
                } else {
                    Ok(rec)
                },
                _ => Ok(rec),
            },
        }
    }
}

/// The archive that the parser `p` reads from `data`, which holds all the
/// bytes that are still to come: skips are taken inside `data`, and bytes
/// that end before the archive does are a fault.
pub open spec fn spec_parse_from(p: ParserModel, data: Seq<u8>) -> Result<
    Seq<ChunkModel>,
    PakError,
>
    decreases data.len(),
{
    match spec_drive(p, data) {
        Err(e) => Err(e),
        Ok(rec) => match rec.next {
            Transition::Done(chunks) => Ok(chunks),
            Transition::Skip { count, parser, .. } => if 0 < rec.consumed + count <= data.len() {
                spec_parse_from(parser, data.skip((rec.consumed + count) as int))
            } else {
                Err(fault_at(parser, FormatFault::Truncated))
            },
            Transition::Continue(q) => Err(fault_at(q, FormatFault::Truncated)),
            Transition::Loop(q) => Err(fault_at(q, FormatFault::Truncated)),
        },
    }
}

/// The archive that the bytes `data` hold.
pub open spec fn spec_parse(data: Seq<u8>) -> Result<Seq<ChunkModel>, PakError> {
    spec_parse_from(initial_parser(), data)
}

/// What a function of the parser owes, given what the rules say (`expected`).
pub open spec fn step_result(
    expected: Result<StepRecord, PakError>,
    r: Result<ParserStateMachine, PakError>,
) -> bool {
    match expected {
        Ok(rec) => r matches Ok(t) && t@ == rec.next && t.wf(),
        Err(e) => r matches Err(got) && got == e,
    }
}

/// Whether some chunk of the list is a header.
fn has_head(chunks: &Vec<Chunk>) -> (r: bool)
    ensures
        r == (count_head(chunk_models(chunks@)) > 0),
{
    let ghost all = chunk_models(chunks@);
    let mut i: usize = 0;
    assert(count_head(all.take(0)) == 0);
    while i < chunks.len()
        invariant
            i <= chunks@.len(),
            all == chunk_models(chunks@),
            count_head(all.take(i as int)) == 0,
        decreases chunks@.len() - i,
    {
        assert(all.take(i + 1).drop_last() =~= all.take(i as int));
        let found = match &chunks[i] {
            Chunk::Head { .. } => true,
            _ => false,
        };
        i += 1;
        if found {
            proof {
                lemma_count_head_grows(all, i as int);
            }
            return true;
        }
    }
    assert(all.take(i as int) =~= all);
    false
}

/// Whether some chunk of the list is a file index.
fn has_file(chunks: &Vec<Chunk>) -> (r: bool)
    ensures
        r == (count_file(chunk_models(chunks@)) > 0),
{
    let ghost all = chunk_models(chunks@);
    let mut i: usize = 0;
    assert(count_file(all.take(0)) == 0);
    while i < chunks.len()
        invariant
            i <= chunks@.len(),
            all == chunk_models(chunks@),
            count_file(all.take(i as int)) == 0,
        decreases chunks@.len() - i,
    {
        assert(all.take(i + 1).drop_last() =~= all.take(i as int));
        let found = chunks[i].is_file();
        i += 1;
        if found {
            proof {
                lemma_count_file_grows(all, i as int);
            }
            return true;
        }
    }
    assert(all.take(i as int) =~= all);
    false
}

/// A longer prefix of a chunk list holds at least as many headers.
pub proof fn lemma_count_head_grows(chunks: Seq<ChunkModel>, i: int)
    requires
        0 <= i <= chunks.len(),
    ensures
        count_head(chunks.take(i)) <= count_head(chunks),
    decreases chunks.len() - i,
{
    if i < chunks.len() {
        assert(chunks.take(i + 1).drop_last() =~= chunks.take(i));
        lemma_count_head_grows(chunks, i + 1);
    } else {
        assert(chunks.take(i) =~= chunks);
    }
}

/// A longer prefix of a chunk list holds at least as many file indexes.
pub proof fn lemma_count_file_grows(chunks: Seq<ChunkModel>, i: int)
    requires
        0 <= i <= chunks.len(),
    ensures
        count_file(chunks.take(i)) <= count_file(chunks),
    decreases chunks.len() - i,
{
    if i < chunks.len() {
        assert(chunks.take(i + 1).drop_last() =~= chunks.take(i));
        lemma_count_file_grows(chunks, i + 1);
    } else {
        assert(chunks.take(i) =~= chunks);
    }
}

impl PakParser {
    /// The open folders, if any, are folders.
    pub open spec fn wf(&self) -> bool {
        self.state matches PakParserState::ParsingFileChunk { parents, .. } ==> all_folders(
            frames_of(parents@),
        )
    }

    /// A parser that has read nothing yet.
    pub fn new() -> (r: Self)
        ensures
            r@ == initial_parser(),
            r.wf(),
    {
        let r = PakParser {
            state: PakParserState::ParsingChunk,
            chunks: Vec::with_capacity(4),
            pak_len: None,
            bytes_parsed: 0,
        };
        assert(r@.chunks =~= Seq::<ChunkModel>::empty());
        r
    }

    /// Number of bytes of the archive that were read or skipped so far.
    pub fn bytes_parsed(&self) -> (r: usize)
        ensures
            r == self@.bytes_parsed,
    {
        self.bytes_parsed
    }

    /// Moves the parser forward by `bytes_consumed` bytes read and `skip`
    /// bytes left to the caller.
    fn next_state(self, bytes_consumed: usize, skip: usize) -> (r: Result<
        ParserStateMachine,
        PakError,
    >)
        requires
            self.wf(),
        ensures
            step_result(advance(self@, bytes_consumed as nat, skip as nat), r),
    {
        let PakParser { state, chunks, pak_len, bytes_parsed } = self;
        let len = match pak_len {
            Some(len) => len,
            None => {
                return Err(
                    PakError::ParseFormat {
                        offset: bytes_parsed,
                        fault: FormatFault::MisplacedChunk,
                    },
                );
            },
        };
        if bytes_parsed > len || bytes_consumed > len - bytes_parsed || skip > len - bytes_parsed
            - bytes_consumed {
            return Err(
                PakError::ParseFormat { offset: bytes_parsed, fault: FormatFault::LengthMismatch },
            );
        }
        let total = bytes_parsed + bytes_consumed + skip;
        let state = if total == len {
            PakParserState::Done
        } else {
            state
        };
        let parser = PakParser { state, chunks, pak_len, bytes_parsed: total };
        if skip > 0 {
            Ok(ParserStateMachine::Skip { from: total - skip, count: skip, parser })
        } else {
            Ok(ParserStateMachine::Loop(parser))
        }
    }

    /// Takes in a decoded chunk that occupied `bytes_consumed` bytes, its tag included.
    fn accept_chunk(self, chunk: Chunk, bytes_consumed: usize, skip: usize) -> (r: Result<
        ParserStateMachine,
        PakError,
    >)
        requires
            self.wf(),
            bytes_consumed >= 4,
        ensures
            step_result(after_chunk(self@, chunk@, bytes_consumed as nat, skip as nat), r),
    {
        let PakParser { state, chunks, pak_len, bytes_parsed } = self;
        let misplaced = PakError::ParseFormat {
            offset: bytes_parsed,
            fault: FormatFault::MisplacedChunk,
        };
        let mut pak_len = pak_len;
        match &chunk {
            Chunk::Form { file_size, .. } => {
                if chunks.len() != 0 {
                    return Err(misplaced);
                }
                let size = *file_size;
                if size as u64 > usize::MAX as u64 || bytes_parsed > usize::MAX - size as usize
                    || bytes_consumed - 4 > usize::MAX - size as usize - bytes_parsed {
                    return Err(
                        PakError::ParseFormat {
                            offset: bytes_parsed,
                            fault: FormatFault::LengthMismatch,
                        },
                    );
                }
                pak_len = Some(size as usize + bytes_parsed + (bytes_consumed - 4));
            },
            Chunk::Head { .. } => {
                if chunks.len() == 0 || has_head(&chunks) {
                    return Err(misplaced);
                }
            },
            Chunk::File { .. } => {
                if chunks.len() == 0 || has_file(&chunks) {
                    return Err(misplaced);
                }
            },
            _ => {
                if chunks.len() == 0 {
                    return Err(misplaced);
                }
            },
        }
        let ghost old_chunks = chunks@;
        let mut chunks = chunks;
        chunks.push(chunk);
        assert(chunk_models(chunks@) =~= chunk_models(old_chunks).push(chunk@));
        let parser = PakParser { state: PakParserState::ParsingChunk, chunks, pak_len, bytes_parsed };
        parser.next_state(bytes_consumed, skip)
    }

    /// Takes in the decoded start of a chunk.
    fn accept_parsed(self, parsed: Parsed, bytes_consumed: usize) -> (r: Result<
        ParserStateMachine,
        PakError,
    >)
        requires
            self.wf(),
            bytes_consumed >= 4,
        ensures
            step_result(
                after_parsed(
                    self@,
                    ChunkRecord { parsed: parsed@, consumed: bytes_consumed as nat },
                ),
                r,
            ),
    {
        match parsed {
            Parsed::Chunk(chunk) => self.accept_chunk(chunk, bytes_consumed, 0),
            Parsed::ChunkAndSkip(skip, chunk) => self.accept_chunk(chunk, bytes_consumed, skip),
            Parsed::FileChunkHeader { chunk_len } => {
                if self.chunks.len() == 0 || has_file(&self.chunks) {
                    return Err(
                        PakError::ParseFormat {
                            offset: self.bytes_parsed,
                            fault: FormatFault::MisplacedChunk,
                        },
                    );
                }
                let PakParser { state, chunks, pak_len, bytes_parsed } = self;
                let parents: Vec<Directory> = Vec::with_capacity(4);
                assert(frames_of(parents@) =~= Seq::<Frame>::empty());
                let parser = PakParser {
                    state: PakParserState::ParsingFileChunk {
                        parsed_root: false,
                        parents,
                        bytes_processed: 0,
                        chunk_len,
                    },
                    chunks,
                    pak_len,
                    bytes_parsed,
                };
                parser.next_state(bytes_consumed, 0)
            },
        }
    }

    /// Takes in a decoded entry of the file index that occupied
    /// `bytes_consumed` bytes.
    fn accept_file_entry(self, entry: FileEntry, children: usize, bytes_consumed: usize) -> (r:
        Result<ParserStateMachine, PakError>)
        requires
            self.wf(),
            self.state is ParsingFileChunk,
        ensures
            step_result(
                after_entry(
                    self@,
                    EntryRecord {
                        node: entry@,
                        children_count: children as nat,
                        consumed: bytes_consumed as nat,
                    },
                ),
                r,
            ),
    {
        let PakParser { state, chunks, pak_len, bytes_parsed } = self;
        match state {
            PakParserState::ParsingFileChunk {
                parsed_root,
                parents,
                bytes_processed,
                chunk_len,
            } => {
                let outside = match (&entry.meta, pak_len) {
                    (FileEntryMeta::File { offset, compressed_len, .. }, Some(len)) => {
                        *offset as u64 + *compressed_len as u64 > len as u64
                    },
                    _ => false,
                };
                if outside {
                    return Err(
                        PakError::ParseFormat {
                            offset: bytes_parsed,
                            fault: FormatFault::LengthMismatch,
                        },
                    );
                }
                let next = match accept(parsed_root, parents, entry, children) {
                    Ok(next) => next,
                    Err(fault) => {
                        return Err(PakError::ParseFormat { offset: bytes_parsed, fault });
                    },
                };
                if bytes_processed > chunk_len || bytes_consumed > chunk_len - bytes_processed {
                    return Err(
                        PakError::ParseFormat {
                            offset: bytes_parsed,
                            fault: FormatFault::LengthMismatch,
                        },
                    );
                }
                if bytes_processed + bytes_consumed == chunk_len {
                    if next.len() != 1 || next[0].children_remaining != 0 {
                        return Err(
                            PakError::ParseFormat {
                                offset: bytes_parsed,
                                fault: FormatFault::FramesRemaining,
                            },
                        );
                    }
                    let mut next = next;
                    let root = match next.pop() {
                        Some(root) => root,
                        None => {
                            return Err(
                                PakError::ParseFormat {
                                    offset: bytes_parsed,
                                    fault: FormatFault::FramesRemaining,
                                },
                            );
                        },
                    };
                    let ghost old_chunks = chunks@;
                    let mut chunks = chunks;
                    let chunk = Chunk::File { fs: Arc::new(root.entry) };
                    chunks.push(chunk);
                    assert(chunk_models(chunks@) =~= chunk_models(old_chunks).push(chunk@));
                    let parser = PakParser {
                        state: PakParserState::ParsingChunk,
                        chunks,
                        pak_len,
                        bytes_parsed,
                    };
                    parser.next_state(bytes_consumed, 0)
                } else {
                    let parser = PakParser {
                        state: PakParserState::ParsingFileChunk {
                            parsed_root: true,
                            parents: next,
                            bytes_processed: bytes_processed + bytes_consumed,
                            chunk_len,
                        },
                        chunks,
                        pak_len,
                        bytes_parsed,
                    };
                    parser.next_state(bytes_consumed, 0)
                }
            },
            _ => Err(
                PakError::ParseFormat { offset: bytes_parsed, fault: FormatFault::MisplacedChunk },
            ),
        }
    }

    /// Performs one step on the buffer behind `input`: decodes one chunk
    /// start or one entry of the file index and says what the caller is to do
    /// next. Where the buffer ends too early the cursor does not move.
    pub fn parse_impl(self, input: &mut Cursor) -> (r: Result<ParserStateMachine, PakError>)
        requires
            self.wf(),
            !(self.state is Done),
            old(input).wf(),
        ensures
            final(input).wf(),
            final(input).data == old(input).data,
            step_result(spec_step(self@, old(input).rest()), r),
            spec_step(self@, old(input).rest()) matches Ok(rec) ==> final(input).advanced_from(
                old(input),
                rec.consumed as int,
            ),
    {
        proof {
            reveal(spec_step);
        }
        let start = input.position();
        match &self.state {
            PakParserState::ParsingChunk => {
                match parse_chunk(input, self.bytes_parsed) {
                    Ok(parsed) => {
                        let consumed = input.position() - start;
                        self.accept_parsed(parsed, consumed)
                    },
                    Err(DecodeError::NeedMore(_)) => Ok(ParserStateMachine::Continue(self)),
                    Err(DecodeError::Fatal(fault)) => Err(
                        PakError::ParseFormat { offset: self.bytes_parsed, fault },
                    ),
                }
            },
            PakParserState::ParsingFileChunk { .. } => {
                match parse_file_entry(input) {
                    Ok((entry, children)) => {
                        let consumed = input.position() - start;
                        self.accept_file_entry(entry, children, consumed)
                    },
                    Err(DecodeError::NeedMore(_)) => Ok(ParserStateMachine::Continue(self)),
                    Err(DecodeError::Fatal(fault)) => Err(
                        PakError::ParseFormat { offset: self.bytes_parsed, fault },
                    ),
                }
            },
            PakParserState::Done => Ok(ParserStateMachine::Done(self.complete())),
        }
    }

    /// Parses as much of the buffer behind `input` as can be parsed without
    /// the caller's help: steps follow each other until the archive is
    /// complete or the parser needs more bytes or a skip.
    pub fn parse(self, input: &mut Cursor) -> (r: Result<ParserStateMachine, PakError>)
        requires
            self.wf(),
            old(input).wf(),
        ensures
            final(input).wf(),
            final(input).data == old(input).data,
            step_result(spec_drive(self@, old(input).rest()), r),
            spec_drive(self@, old(input).rest()) matches Ok(rec) ==> final(input).advanced_from(
                old(input),
                rec.consumed as int,
            ),
            r matches Ok(t) ==> !(t is Loop),
    {
        let ghost first = *input;
        let ghost goal = spec_drive(self@, first.rest());
        let ghost done: nat = 0;
        let mut parser = self;
        loop
            invariant
                parser.wf(),
                input.wf(),
                first == *old(input),
                first.wf(),
                goal == spec_drive(self@, first.rest()),
                input.advanced_from(&first, done as int),
                goal == shift(spec_drive(parser@, input.rest()), done),
            decreases input.rest().len(),
        {
            let finished = match &parser.state {
                PakParserState::Done => true,
                _ => false,
            };
            if finished {
                return Ok(ParserStateMachine::Done(parser.complete()));
            }
            let ghost rest = input.rest();
            let ghost expected = spec_step(parser@, rest);
            match parser.parse_impl(input) {
                Err(e) => {
                    return Err(e);
                },
                Ok(ParserStateMachine::Loop(next)) => {
                    proof {
                        lemma_loop_consumes(parser@, rest);
                        let step = expected->Ok_0;
                        assert(input.rest() =~= rest.skip(step.consumed as int));
                        done = done + step.consumed;
                    }
                    parser = next;
                },
                Ok(other) => {
                    return Ok(other);
                },
            }
        }
    }

    /// The archive read so far.
    pub fn complete(self) -> (r: PakFile)
        ensures
            r@ == self@.chunks,
            r.chunks == self.chunks,
    {
        PakFile { chunks: self.chunks }
    }
}

impl Default for PakParser {
    /// A parser that has read nothing yet.
    fn default() -> (r: Self)
        ensures
            r@ == initial_parser(),
            r.wf(),
    {
        Self::new()
    }
}

impl PakFile {
    /// Parses a whole archive that lies in memory.
    pub fn parse(data: &[u8]) -> (r: Result<PakFile, PakError>)
        ensures
            match spec_parse(data@) {
                Ok(chunks) => r matches Ok(pak) && pak@ == chunks,
                Err(e) => r matches Err(got) && got == e,
            },
            r matches Ok(pak) ==> pak.wf() && roots_sound(pak@, announced_len(pak@)),
            r matches Ok(pak) ==> roots_listed(pak@, data@),
    {
        proof {
            if spec_parse(data@) is Ok {
                lemma_parsed_archive_in_order(data@);
                lemma_parsed_tree_is_listed(data@);
            }
        }
        let mut parser = PakParser::new();
        let mut at: usize = 0;
        assert(data@.skip(0) =~= data@);
        loop
            invariant
                at <= data@.len(),
                parser.wf(),
                spec_parse(data@) == spec_parse_from(parser@, data@.skip(at as int)),
                spec_parse(data@) matches Ok(chunks) ==> chunks_ordered(chunks) && roots_sound(
                    chunks,
                    announced_len(chunks),
                ),
                spec_parse(data@) matches Ok(chunks) ==> roots_listed(chunks, data@),
            decreases data@.len() - at,
        {
            let curr = slice_subrange(data, at, data.len());
            assert(curr@ =~= data@.skip(at as int));
            let mut input = Cursor::new(curr);
            match parser.parse(&mut input) {
                Ok(ParserStateMachine::Done(pak)) => {
                    return Ok(pak);
                },
                Ok(ParserStateMachine::Skip { from: _, count, parser: next }) => {
                    let parsed = input.position();
                    let avail = curr.len() - parsed;
                    if count > avail || (parsed == 0 && count == 0) {
                        return Err(
                            PakError::ParseFormat {
                                offset: next.bytes_parsed,
                                fault: FormatFault::Truncated,
                            },
                        );
                    }
                    assert(data@.skip(at as int).skip((parsed + count) as int) =~= data@.skip(
                        (at + parsed + count) as int,
                    ));
                    at = at + parsed + count;
                    parser = next;
                },
                Ok(ParserStateMachine::Continue(next)) => {
                    return Err(
                        PakError::ParseFormat {
                            offset: next.bytes_parsed,
                            fault: FormatFault::Truncated,
                        },
                    );
                },
                Ok(ParserStateMachine::Loop(next)) => {
                    return Err(
                        PakError::ParseFormat {
                            offset: next.bytes_parsed,
                            fault: FormatFault::Truncated,
                        },
                    );
                },
                Err(e) => {
                    return Err(e);
                },
            }
        }
    }
}

/// The window that is tried at `span` bytes when `avail` bytes remain.
pub open spec fn window_len(span: usize, avail: int) -> int {
    if span <= avail {
        span as int
    } else {
        avail
    }
}

impl PakFile {
    /// Parses a whole archive that lies in memory, but lets the parser see
    /// only a window of it at a time, as a caller with a bounded buffer
    /// would. A window starts where the parser stands and is `window` bytes
    /// long (one byte where `window` is 0); when the parser asks for more
    /// bytes without having consumed any, the window grows by as much
    /// again; after a skip the next window starts behind the bytes skipped.
    /// With a `window` of 1 the parser is fed one byte at a time. The result
    /// is that of `parse`, whatever the window.
    pub fn parse_in_windows(data: &[u8], window: usize) -> (r: Result<PakFile, PakError>)
        ensures
            match spec_parse(data@) {
                Ok(chunks) => r matches Ok(pak) && pak@ == chunks,
                Err(e) => r matches Err(got) && got == e,
            },
            r matches Ok(pak) ==> pak.wf() && roots_sound(pak@, announced_len(pak@)),
            r matches Ok(pak) ==> roots_listed(pak@, data@),
    {
        proof {
            if spec_parse(data@) is Ok {
                lemma_parsed_archive_in_order(data@);
                lemma_parsed_tree_is_listed(data@);
            }
        }
        let step: usize = if window == 0 {
            1
        } else {
            window
        };
        let mut parser = PakParser::new();
        let mut at: usize = 0;
        let mut span: usize = step;
        assert(data@.skip(0) =~= data@);
        loop
            invariant
                at <= data@.len(),
                step > 0,
                span > 0,
                parser.wf(),
                spec_parse(data@) == spec_parse_from(parser@, data@.skip(at as int)),
                spec_parse(data@) matches Ok(chunks) ==> chunks_ordered(chunks) && roots_sound(
                    chunks,
                    announced_len(chunks),
                ),
                spec_parse(data@) matches Ok(chunks) ==> roots_listed(chunks, data@),
            decreases data@.len() - at, data@.len() - at - window_len(span, data@.len() - at),
        {
            let avail = data.len() - at;
            let width = if span <= avail {
                span
            } else {
                avail
            };
            let curr = slice_subrange(data, at, at + width);
            let ghost rest = data@.skip(at as int);
            let ghost before = parser@;
            let ghost goal = spec_parse_from(before, rest);
            assert(curr@ =~= rest.take(width as int));
            let mut input = Cursor::new(curr);
            match parser.parse(&mut input) {
                Ok(ParserStateMachine::Done(pak)) => {
                    assert(goal == Ok::<Seq<ChunkModel>, PakError>(pak@)) by {
                        lemma_window_preserves_parse(before, rest, width as int);
                    }
                    return Ok(pak);
                },
                Ok(ParserStateMachine::Skip { from: _, count, parser: next }) => {
                    let parsed = input.position();
                    if count > avail - parsed {
                        assert(goal == Err::<Seq<ChunkModel>, PakError>(
                            fault_at(next@, FormatFault::Truncated),
                        )) by {
                            lemma_window_preserves_parse(before, rest, width as int);
                        }
                        return Err(
                            PakError::ParseFormat {
                                offset: next.bytes_parsed,
                                fault: FormatFault::Truncated,
                            },
                        );
                    }
                    assert(goal == spec_parse_from(next@, data@.skip((at + parsed + count) as int))
                        && count > 0) by {
                        lemma_window_preserves_parse(before, rest, width as int);
                        lemma_drive_skips(before, curr@);
                        assert(rest.skip((parsed + count) as int) =~= data@.skip(
                            (at + parsed + count) as int,
                        ));
                    }
                    at = at + parsed + count;
                    span = step;
                    parser = next;
                },
                Ok(ParserStateMachine::Continue(next)) => {
                    let parsed = input.position();
                    if parsed == 0 && width == avail {
                        assert(goal == Err::<Seq<ChunkModel>, PakError>(
                            fault_at(next@, FormatFault::Truncated),
                        )) by {
                            lemma_window_preserves_parse(before, rest, width as int);
                        }
                        return Err(
                            PakError::ParseFormat {
                                offset: next.bytes_parsed,
                                fault: FormatFault::Truncated,
                            },
                        );
                    }
                    assert(goal == spec_parse_from(next@, data@.skip((at + parsed) as int))) by {
                        lemma_window_preserves_parse(before, rest, width as int);
                        assert(rest.skip(parsed as int) =~= data@.skip((at + parsed) as int));
                    }
                    if parsed == 0 {
                        span = if span > usize::MAX - step {
                            usize::MAX
                        } else {
                            span + step
                        };
                    } else {
                        span = step;
                    }
                    at = at + parsed;
                    parser = next;
                },
                Ok(ParserStateMachine::Loop(next)) => {
                    return Err(
                        PakError::ParseFormat {
                            offset: next.bytes_parsed,
                            fault: FormatFault::Truncated,
                        },
                    );
                },
                Err(e) => {
                    assert(goal == Err::<Seq<ChunkModel>, PakError>(e)) by {
                        lemma_window_preserves_parse(before, rest, width as int);
                    }
                    return Err(e);
                },
            }
        }
    }
}

} // verus!
