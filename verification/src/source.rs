//! Sources that are read a range at a time: the streaming parse and the
//! cache in front of a source.

use vstd::prelude::*;
use vstd::slice::{slice_subrange, slice_to_vec};
use std::ops::Range;
use std::sync::Arc;
use crate::bytes::Cursor;
use crate::cache::{
    buffer_capacity, buffer_data, evicted, position, without, CacheEntry, RangeCache, MEM_LIMIT,
};
use crate::error::{FormatFault, PakError};
use crate::invariants::{announced_len, lemma_drive_keeps_order, parser_ok, roots_sound};
use crate::pak::{chunks_ordered, ChunkModel, PakFile};
use crate::pak_vfs::{content_bytes, BytesPakFileWrapper};
use crate::parser::{
    fault_at, initial_parser, spec_drive, PakParser, PakParserState, ParserModel,
    ParserStateMachine, Transition,
};

verus! {

/// A source that hands out the bytes of a range on request.
pub trait ReadAt {
    /// What the source yields for the range from `start` to `end`. A source
    /// says here what it holds; of one that does not, nothing is known.
    open spec fn yields(&self, start: usize, end: usize) -> Result<Seq<u8>, PakError> {
        arbitrary()
    }

    /// Request the bytes of `file_range`. A source that ends inside the
    /// range hands out the bytes it has.
    fn read_at(&self, file_range: Range<usize>) -> (r: Result<Vec<u8>, PakError>)
        ensures
            content_bytes(r) == self.yields(file_range.start, file_range.end),
    ;
}

/// Number of bytes that the streaming parse requests at a time.
pub const WINDOW: usize = 64 * 1024;

/// What is left of the archive for a parser to read, as far as it knows.
pub open spec fn left_to_read(p: ParserModel) -> int {
    match p.pak_len {
        Some(len) => len - p.bytes_parsed,
        None => usize::MAX + 1,
    }
}

/// Parses an archive from a source that is read one window at a time. Each
/// window is `next_window` of where the parser stands, so a skip costs no
/// read. The result is what feeding the parser what the source yields for
/// these windows gives, one window after the other, until one ends the parse
/// (`streamed_from`). An archive that comes out has the shape of an archive
/// and a sound file index.
pub fn parse_pak_file<T: ReadAt>(file_handle: &T) -> (r: Result<PakFile, PakError>)
    ensures
        r matches Ok(pak) ==> chunks_ordered(pak@) && roots_sound(pak@, announced_len(pak@)),
        streamed_from(file_handle, archive_model(r)),
{
    let mut parser = PakParser::new();
    let ghost mut fetches: nat = 0;
    loop
        invariant
            parser.wf(),
            parser_ok(parser@),
            !(parser.state is Done),
            fed_from(file_handle, initial_parser(), fetches) == FedModel::Next(parser@),
        decreases left_to_read(parser@),
    {
        let fetched = file_handle.read_at(next_window(parser.bytes_parsed()));
        let ghost before = parser@;
        let ghost outcome = content_bytes(fetched);
        proof {
            if outcome is Ok && spec_drive(before, outcome->Ok_0) is Ok {
                lemma_drive_keeps_order(before, outcome->Ok_0);
            }
            fetches = fetches + 1;
            assert(fed_from(file_handle, initial_parser(), fetches) == spec_feed(before, outcome));
        }
        match feed_window(parser, fetched) {
            Fed::Finished(result) => {
                return result;
            },
            Fed::Next(next) => {
                parser = next;
            },
        }
    }
}

/// The range that is asked for when the parser stands at offset `at` of the
/// archive: `WINDOW` bytes from there, or as many as offsets can name.
pub fn next_window(at: usize) -> (r: Range<usize>)
    ensures
        r.start == at,
        r.end == window_end(at),
{
    let end = if at > usize::MAX - WINDOW {
        usize::MAX
    } else {
        at + WINDOW
    };
    at..end
}

/// Where feeding a parser stands: the parse has ended with an archive or a
/// failure, or the parser goes on.
pub enum Fed {
    Finished(Result<PakFile, PakError>),
    Next(PakParser),
}

/// `Fed` with its archive and its parser as mathematical values.
pub enum FedModel {
    Finished(Result<Seq<ChunkModel>, PakError>),
    Next(ParserModel),
}

/// The chunks of a parsed archive, or the failure to parse it.
pub open spec fn archive_model(r: Result<PakFile, PakError>) -> Result<Seq<ChunkModel>, PakError> {
    match r {
        Ok(pak) => Ok(pak@),
        Err(e) => Err(e),
    }
}

impl View for Fed {
    type V = FedModel;

    open spec fn view(&self) -> FedModel {
        match *self {
            Fed::Finished(r) => FedModel::Finished(archive_model(r)),
            Fed::Next(p) => FedModel::Next(p@),
        }
    }
}

/// The parser that a request hands back, if it hands one back.
pub open spec fn handed_back(t: Transition) -> Option<ParserModel> {
    match t {
        Transition::Loop(q) => Some(q),
        Transition::Continue(q) => Some(q),
        Transition::Skip { parser, .. } => Some(parser),
        Transition::Done(_) => None,
    }
}

/// What the outcome of one fetch makes of the parser `p`, which has asked
/// for the bytes from where it stands. A failed fetch ends the parse with
/// that failure. On fetched bytes the parser runs: its failure or its
/// finished archive ends the parse; a parser that is handed back without
/// having moved on in the archive ends the parse as truncated; one that has
/// reached the end of the archive ends the parse with its chunks; any other
/// goes on.
pub open spec fn spec_feed(p: ParserModel, fetched: Result<Seq<u8>, PakError>) -> FedModel {
    match fetched {
        Err(e) => FedModel::Finished(Err(e)),
        Ok(window) => match spec_drive(p, window) {
            Err(e) => FedModel::Finished(Err(e)),
            Ok(rec) => match handed_back(rec.next) {
                None => FedModel::Finished(Ok(rec.next->Done_0)),
                Some(q) => if q.bytes_parsed <= p.bytes_parsed {
                    FedModel::Finished(Err(fault_at(p, FormatFault::Truncated)))
                } else if q.state is Done {
                    FedModel::Finished(Ok(q.chunks))
                } else {
                    FedModel::Next(q)
                },
            },
        },
    }
}

/// Where the window that is asked for at offset `at` ends.
pub open spec fn window_end(at: usize) -> usize {
    if at > usize::MAX - WINDOW {
        usize::MAX
    } else {
        (at + WINDOW) as usize
    }
}

/// Where the parser `p` stands after `fetches` windows of `source` were fed
/// to it: each time the source is asked for the window at the offset where
/// the parser stands, and what it yields is fed to the parser. Once the
/// parse has ended, nothing more is asked.
pub open spec fn fed_from<T: ReadAt>(source: &T, p: ParserModel, fetches: nat) -> FedModel
    decreases fetches,
{
    if fetches == 0 {
        FedModel::Next(p)
    } else {
        match fed_from(source, p, (fetches - 1) as nat) {
            FedModel::Finished(r) => FedModel::Finished(r),
            FedModel::Next(q) => spec_feed(
                q,
                source.yields(q.bytes_parsed as usize, window_end(q.bytes_parsed as usize)),
            ),
        }
    }
}

/// Feeding a parser that has read nothing yet the windows of `source` ends,
/// after some number of windows, with `result`.
pub open spec fn streamed_from<T: ReadAt>(
    source: &T,
    result: Result<Seq<ChunkModel>, PakError>,
) -> bool {
    exists|fetches: nat|
        #[trigger] fed_from(source, initial_parser(), fetches) == FedModel::Finished(result)
}

/// The end of a parse does not depend on how many windows are counted: once
/// the parse has ended with a result, it has ended with this result.
pub proof fn lemma_streamed_result_is_one<T: ReadAt>(source: &T, p: ParserModel, m: nat, n: nat)
    requires
        m <= n,
        fed_from(source, p, m) is Finished,
    ensures
        fed_from(source, p, n) == fed_from(source, p, m),
    decreases n,
{
    if m < n {
        lemma_streamed_result_is_one(source, p, m, (n - 1) as nat);
    }
}

/// Feeds the outcome of one fetch to a parser that has asked for the bytes
/// from where it stands.
pub fn feed_window(parser: PakParser, fetched: Result<Vec<u8>, PakError>) -> (r: Fed)
    requires
        parser.wf(),
    ensures
        r@ == spec_feed(parser@, content_bytes(fetched)),
        r matches Fed::Next(next) ==> next.wf() && !(next.state is Done),
{
    let at = parser.bytes_parsed();
    let data = match fetched {
        Ok(data) => data,
        Err(e) => {
            return Fed::Finished(Err(e));
        },
    };
    let mut input = Cursor::new(data.as_slice());
    let next = match parser.parse(&mut input) {
        Err(e) => {
            return Fed::Finished(Err(e));
        },
        Ok(ParserStateMachine::Done(pak)) => {
            return Fed::Finished(Ok(pak));
        },
        Ok(ParserStateMachine::Skip { from: _, count: _, parser: next }) => next,
        Ok(ParserStateMachine::Continue(next)) => next,
        Ok(ParserStateMachine::Loop(next)) => next,
    };
    if next.bytes_parsed() <= at {
        return Fed::Finished(
            Err(PakError::ParseFormat { offset: at, fault: FormatFault::Truncated }),
        );
    }
    let finished = match &next.state {
        PakParserState::Done => true,
        _ => false,
    };
    if finished {
        Fed::Finished(Ok(next.complete()))
    } else {
        Fed::Next(next)
    }
}

impl<'a> ReadAt for BytesPakFileWrapper<'a> {
    /// The part of the range that lies inside the source.
    open spec fn yields(&self, start: usize, end: usize) -> Result<Seq<u8>, PakError> {
        Ok(
            self.source@.subrange(
                if start <= self.source@.len() {
                    start as int
                } else {
                    self.source@.len() as int
                },
                if start <= end <= self.source@.len() {
                    end as int
                } else {
                    self.source@.len() as int
                },
            ),
        )
    }

    /// A copy of the part of the range that lies inside the source.
    fn read_at(&self, file_range: Range<usize>) -> (r: Result<Vec<u8>, PakError>) {
        let len = self.source.len();
        let start = if file_range.start <= len {
            file_range.start
        } else {
            len
        };
        let end = if file_range.start <= file_range.end && file_range.end <= len {
            file_range.end
        } else {
            len
        };
        Ok(slice_to_vec(slice_subrange(self.source, start, end)))
    }
}

/// What a request through the cache owes. A range that the cache `before`
/// holds is answered from it, and the cache stays as it was. Else the
/// answer is what the source yields for the range (`fetched`): a failure is
/// handed on and leaves the cache as it was; bytes are handed out in a
/// buffer and published, the smallest entries making room for them.
pub open spec fn cached_or_fetched(
    before: RangeCache,
    after: RangeCache,
    start: usize,
    end: usize,
    fetched: Result<Seq<u8>, PakError>,
    r: Result<Arc<oval::Buffer>, PakError>,
) -> bool {
    match position(before.entries@, start, end) {
        Some(i) => r matches Ok(b) && b == before.entries@[i].bytes && after == before,
        None => match fetched {
            Err(e) => r matches Err(got) && got == e && after == before,
            Ok(bytes) => r matches Ok(b) && buffer_data(*b) == bytes && buffer_capacity(*b)
                == bytes.len() && after.entries@ == (if bytes.len() <= before.ceiling {
                evicted(
                    without(before.entries@, start, end),
                    (before.ceiling - bytes.len()) as nat,
                ).push(CacheEntry { start, end, bytes: b })
            } else {
                before.entries@
            }),
        },
    }
}

/// An archive and its source, with a cache in front of the source.
pub struct CachingPakFileWrapper<T> {
    pub path: String,
    pub handle: T,
    pub buffer: RangeCache,
    pub pak_file: PakFile,
}

impl<T> CachingPakFileWrapper<T> {
    /// Puts an archive together with its source; the cache starts empty and
    /// holds at most `MEM_LIMIT` bytes.
    pub fn new(path: String, handle: T, pak_file: PakFile) -> (r: Self)
        ensures
            r.path == path,
            r.handle == handle,
            r.pak_file == pak_file,
            r.buffer.wf(),
            r.buffer.ceiling == MEM_LIMIT,
            r.buffer.entries@.len() == 0,
    {
        CachingPakFileWrapper { path, handle, buffer: RangeCache::new(MEM_LIMIT), pak_file }
    }
}

impl<T: ReadAt> CachingPakFileWrapper<T> {
    /// The bytes of `file_range`: from the cache where it holds exactly this
    /// range, else fetched from the source and published in the cache. A
    /// failed fetch leaves the cache as it was.
    pub fn prime_file(&mut self, file_range: Range<usize>) -> (r: Result<
        Arc<oval::Buffer>,
        PakError,
    >)
        requires
            old(self).buffer.wf(),
        ensures
            final(self).buffer.wf(),
            final(self).buffer.ceiling == old(self).buffer.ceiling,
            final(self).handle == old(self).handle,
            cached_or_fetched(
                old(self).buffer,
                final(self).buffer,
                file_range.start,
                file_range.end,
                old(self).handle.yields(file_range.start, file_range.end),
                r,
            ),
    {
        let start = file_range.start;
        let end = file_range.end;
        match self.buffer.lookup(start, end) {
            Some(entry) => Ok(entry),
            None => {
                let data = match self.handle.read_at(file_range) {
                    Ok(data) => data,
                    Err(e) => {
                        return Err(e);
                    },
                };
                Ok(self.buffer.insert(start, end, data.as_slice()))
            },
        }
    }
}

} // verus!
