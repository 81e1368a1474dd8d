//! The file index as the bytes list it, and that a parsed tree is what its
//! index lists: every folder has as many children as its entry announces.
//! Also what the smallest archive parses to.

use vstd::prelude::*;
use crate::bytes::{spec_be_u32, spec_le_u32};
use crate::chunk::{
    spec_chunk, ChunkRecord, ParsedModel, HEAD_LEN, TAG_FILE, TAG_FORM, TAG_HEAD, TAG_PAC1,
};
use crate::directory::{accept_entry, root_name};
use crate::entry::{info_ok, spec_entry, EntryRecord, Node};
use crate::error::{DecodeError, PakError};
use vstd::utf8::{decode_utf8, valid_utf8};
use crate::invariants::{
    announced_len, lemma_accept_extends_listing, lemma_accept_keeps_order,
    lemma_complete_root_is_listed, lemma_drive_keeps_order, lemma_entry_ignores_later_bytes,
    lemma_lone_empty_root, lemma_loop_consumes, lemma_step_keeps_order, listing, parser_ok, shown,
    stack_listing,
};
use crate::pak::{count_file, count_head, ChunkModel, PakType};
use crate::parser::{
    after_entry, after_parsed, initial_parser, spec_drive, spec_parse, spec_parse_from, spec_step,
    ParserModel, StateModel, StepRecord, Transition,
};

verus! {

/// The entries that the bytes of an index hold, one after the other to the
/// end of the bytes, each with the number of children it announces; a first
/// folder without a name is shown as "Root". `None` where the bytes do not
/// consist of whole entries.
pub open spec fn entries_of(bytes: Seq<u8>, parsed_root: bool) -> Option<Seq<(Node, nat)>>
    decreases bytes.len(),
{
    if bytes.len() == 0 {
        Some(Seq::empty())
    } else {
        match spec_entry(bytes) {
            Ok(rec) => if 0 < rec.consumed <= bytes.len() {
                match entries_of(bytes.skip(rec.consumed as int), true) {
                    Some(rest) => Some(
                        seq![(shown(parsed_root, rec.node), rec.children_count)] + rest,
                    ),
                    None => None,
                }
            } else {
                None
            },
            Err(_) => None,
        }
    }
}

/// Some range of the bytes `all` is an index that lists the tree `root` in
/// pre-order, each folder with the number of children that it has.
pub open spec fn index_lists(all: Seq<u8>, root: Node) -> bool {
    exists|start: int, end: int|
        0 <= start <= end <= all.len() && #[trigger] entries_of(all.subrange(start, end), false)
            == Some(listing(root))
}

/// Every file index among the chunks is listed by a range of the bytes `all`.
pub open spec fn roots_listed(chunks: Seq<ChunkModel>, all: Seq<u8>) -> bool {
    forall|i: int|
        0 <= i < chunks.len() ==> (#[trigger] chunks[i] matches ChunkModel::File { root }
            ==> index_lists(all, root))
}

/// What the parser holds of an index that it is reading agrees with the
/// bytes of the index that it has read, and so does every index it has read.
pub open spec fn reads(p: ParserModel, all: Seq<u8>) -> bool {
    &&& roots_listed(p.chunks, all)
    &&& p.state matches StateModel::ParsingFileChunk { parsed_root, frames, bytes_processed, .. }
        ==> bytes_processed <= p.bytes_parsed && parsed_root == (bytes_processed > 0)
        && entries_of(
        all.subrange(p.bytes_parsed - bytes_processed, p.bytes_parsed as int),
        false,
    ) == Some(stack_listing(frames))
}

/// An entry is decoded from its own bytes alone.
pub proof fn lemma_entry_needs_its_bytes(bytes: Seq<u8>)
    requires
        spec_entry(bytes) is Ok,
    ensures
        0 < spec_entry(bytes)->Ok_0.consumed <= bytes.len(),
        spec_entry(bytes.take(spec_entry(bytes)->Ok_0.consumed as int)) == spec_entry(bytes),
{
    let c = spec_entry(bytes)->Ok_0.consumed as int;
    let own = bytes.take(c);
    assert forall|k: int| 0 <= k < c implies own[k] == bytes[k] by {}
    let n = bytes[1] as int;
    assert(own.subrange(2, 2 + n) =~= bytes.subrange(2, 2 + n));
}

/// Bytes that hold entries, followed by the bytes of one more entry, hold
/// these entries and that one.
pub proof fn lemma_entries_append(a: Seq<u8>, b: Seq<u8>, parsed_root: bool)
    requires
        entries_of(a, parsed_root) is Some,
        spec_entry(b) is Ok,
    ensures
        entries_of(a + b.take(spec_entry(b)->Ok_0.consumed as int), parsed_root) == Some(
            entries_of(a, parsed_root)->Some_0.push(
                (
                    shown(parsed_root || a.len() > 0, spec_entry(b)->Ok_0.node),
                    spec_entry(b)->Ok_0.children_count,
                ),
            ),
        ),
    decreases a.len(),
{
    let rec = spec_entry(b)->Ok_0;
    let own = b.take(rec.consumed as int);
    lemma_entry_needs_its_bytes(b);
    if a.len() == 0 {
        assert(a + own =~= own);
        assert(own.skip(rec.consumed as int) =~= Seq::<u8>::empty());
        assert(entries_of(own.skip(rec.consumed as int), true) == Some(
            Seq::<(Node, nat)>::empty(),
        ));
        assert(seq![(shown(parsed_root, rec.node), rec.children_count)] + Seq::<
            (Node, nat),
        >::empty() =~= Seq::<(Node, nat)>::empty().push(
            (shown(parsed_root, rec.node), rec.children_count),
        ));
    } else {
        let first = spec_entry(a)->Ok_0;
        let c = first.consumed as int;
        lemma_entry_ignores_later_bytes(a, own);
        assert((a + own).skip(c) =~= a.skip(c) + own);
        lemma_entries_append(a.skip(c), b, true);
        let rest = entries_of(a.skip(c), true)->Some_0;
        let head = seq![(shown(parsed_root, first.node), first.children_count)];
        let last = (shown(true, rec.node), rec.children_count);
        assert(head + rest.push(last) =~= (head + rest).push(last));
    }
}

/// Appending a chunk that is, or is not, a listed file index keeps every
/// file index listed.
pub proof fn lemma_push_keeps_listed(chunks: Seq<ChunkModel>, chunk: ChunkModel, all: Seq<u8>)
    requires
        roots_listed(chunks, all),
        chunk matches ChunkModel::File { root } ==> index_lists(all, root),
    ensures
        roots_listed(chunks.push(chunk), all),
{
    let next = chunks.push(chunk);
    assert forall|i: int| 0 <= i < next.len() implies (#[trigger] next[i] matches ChunkModel::File {
        root,
    } ==> index_lists(all, root)) by {
        if i < chunks.len() {
            assert(next[i] == chunks[i]);
        }
    }
}

/// Where the parser that a request hands back stands, and that it agrees
/// with the bytes: a step moves on by what it consumed and what it asks to
/// be skipped.
pub open spec fn follows(p: ParserModel, rec_consumed: nat, t: Transition, all: Seq<u8>) -> bool {
    match t {
        Transition::Loop(q) => reads(q, all) && q.bytes_parsed == p.bytes_parsed + rec_consumed,
        Transition::Continue(q) => reads(q, all) && q.bytes_parsed == p.bytes_parsed
            + rec_consumed,
        Transition::Skip { count, parser, .. } => reads(parser, all) && parser.bytes_parsed
            == p.bytes_parsed + rec_consumed + count,
        Transition::Done(chunks) => roots_listed(chunks, all),
    }
}

/// Taking in the start of a chunk keeps the parser in agreement with the bytes.
pub proof fn lemma_chunk_step_reads(p: ParserModel, rec: ChunkRecord, all: Seq<u8>)
    requires
        p.state is ParsingChunk,
        reads(p, all),
        p.bytes_parsed + rec.consumed <= all.len(),
        !(rec.parsed matches ParsedModel::Chunk(c) && c is File),
        !(rec.parsed matches ParsedModel::ChunkAndSkip(_, c) && c is File),
        after_parsed(p, rec) is Ok,
    ensures
        follows(p, after_parsed(p, rec)->Ok_0.consumed, after_parsed(p, rec)->Ok_0.next, all),
{
    match rec.parsed {
        ParsedModel::Chunk(c) => {
            lemma_push_keeps_listed(p.chunks, c, all);
        },
        ParsedModel::ChunkAndSkip(_, c) => {
            lemma_push_keeps_listed(p.chunks, c, all);
        },
        ParsedModel::FileChunkHeader { .. } => {
            let here = (p.bytes_parsed + rec.consumed) as int;
            assert(all.subrange(here, here) =~= Seq::<u8>::empty());
        },
    }
}

/// The open folders after an entry was taken in hold what the bytes of the
/// index list up to and with this entry; and when the index ends there, the
/// root is listed by the bytes of the index.
pub proof fn lemma_entry_extends_reading(p: ParserModel, all: Seq<u8>)
    requires
        parser_ok(p),
        reads(p, all),
        p.bytes_parsed <= all.len(),
        p.state is ParsingFileChunk,
        spec_entry(all.skip(p.bytes_parsed as int)) is Ok,
        after_entry(p, spec_entry(all.skip(p.bytes_parsed as int))->Ok_0) is Ok,
    ensures
        ({
            let rec = spec_entry(all.skip(p.bytes_parsed as int))->Ok_0;
            let next = accept_entry(
                p.state->ParsingFileChunk_parsed_root,
                p.state->ParsingFileChunk_frames,
                rec.node,
                rec.children_count,
            );
            let start = p.bytes_parsed - p.state->ParsingFileChunk_bytes_processed;
            &&& 0 < rec.consumed
            &&& p.bytes_parsed + rec.consumed <= all.len()
            &&& next is Ok
            &&& entries_of(all.subrange(start, (p.bytes_parsed + rec.consumed) as int), false) == Some(
                stack_listing(next->Ok_0),
            )
            &&& (next->Ok_0.len() == 1 && next->Ok_0[0].remaining == 0 ==> index_lists(
                all,
                next->Ok_0[0].node,
            ))
        }),
{
    let rest = all.skip(p.bytes_parsed as int);
    let at = p.bytes_parsed as int;
    let rec = spec_entry(rest)->Ok_0;
    let parsed_root = p.state->ParsingFileChunk_parsed_root;
    let frames = p.state->ParsingFileChunk_frames;
    let start = at - p.state->ParsingFileChunk_bytes_processed;
    let total = announced_len(p.chunks);
    let c = rec.consumed as int;
    lemma_entry_needs_its_bytes(rest);
    assert(rec.node is File ==> rec.children_count == 0 && info_ok(rec.node->File_info));
    lemma_accept_extends_listing(parsed_root, frames, rec.node, rec.children_count, total);
    lemma_entries_append(all.subrange(start, at), rest, false);
    assert(all.subrange(start, at) + rest.take(c) =~= all.subrange(start, at + c));
    let next = accept_entry(parsed_root, frames, rec.node, rec.children_count)->Ok_0;
    if next.len() == 1 && next[0].remaining == 0 {
        lemma_accept_keeps_order(parsed_root, frames, rec.node, rec.children_count, total);
        lemma_complete_root_is_listed(next, total);
        assert(entries_of(all.subrange(start, at + c), false) == Some(listing(next[0].node)));
    }
}

/// Taking in an entry keeps the parser in agreement with the bytes.
pub proof fn lemma_entry_step_reads(p: ParserModel, all: Seq<u8>)
    requires
        parser_ok(p),
        reads(p, all),
        p.bytes_parsed <= all.len(),
        p.state is ParsingFileChunk,
        spec_entry(all.skip(p.bytes_parsed as int)) is Ok,
        after_entry(p, spec_entry(all.skip(p.bytes_parsed as int))->Ok_0) is Ok,
    ensures
        follows(
            p,
            after_entry(p, spec_entry(all.skip(p.bytes_parsed as int))->Ok_0)->Ok_0.consumed,
            after_entry(p, spec_entry(all.skip(p.bytes_parsed as int))->Ok_0)->Ok_0.next,
            all,
        ),
{
    let rec = spec_entry(all.skip(p.bytes_parsed as int))->Ok_0;
    lemma_entry_extends_reading(p, all);
    let next = accept_entry(
        p.state->ParsingFileChunk_parsed_root,
        p.state->ParsingFileChunk_frames,
        rec.node,
        rec.children_count,
    )->Ok_0;
    if p.state->ParsingFileChunk_bytes_processed + rec.consumed
        == p.state->ParsingFileChunk_chunk_len {
        lemma_push_keeps_listed(p.chunks, ChunkModel::File { root: next[0].node }, all);
    }
}

/// One step keeps the parser in agreement with the bytes it reads.
pub proof fn lemma_step_reads(p: ParserModel, all: Seq<u8>)
    requires
        parser_ok(p),
        !(p.state is Done),
        reads(p, all),
        p.bytes_parsed <= all.len(),
        spec_step(p, all.skip(p.bytes_parsed as int)) is Ok,
    ensures
        follows(
            p,
            spec_step(p, all.skip(p.bytes_parsed as int))->Ok_0.consumed,
            spec_step(p, all.skip(p.bytes_parsed as int))->Ok_0.next,
            all,
        ),
{
    let rest = all.skip(p.bytes_parsed as int);
    reveal(spec_step);
    match p.state {
        StateModel::ParsingChunk => {
            match spec_chunk(rest, p.bytes_parsed) {
                Ok(rec) => {
                    lemma_chunk_step_reads(p, rec, all);
                },
                Err(_) => {},
            }
        },
        StateModel::ParsingFileChunk { .. } => {
            match spec_entry(rest) {
                Ok(_) => {
                    lemma_entry_step_reads(p, all);
                },
                Err(_) => {},
            }
        },
        StateModel::Done => {},
    }
}

/// A run of steps keeps the parser in agreement with the bytes it reads.
pub proof fn lemma_drive_reads(p: ParserModel, all: Seq<u8>)
    requires
        parser_ok(p),
        p.state is Done ==> p.chunks.len() > 0,
        reads(p, all),
        p.bytes_parsed <= all.len(),
        spec_drive(p, all.skip(p.bytes_parsed as int)) is Ok,
    ensures
        follows(
            p,
            spec_drive(p, all.skip(p.bytes_parsed as int))->Ok_0.consumed,
            spec_drive(p, all.skip(p.bytes_parsed as int))->Ok_0.next,
            all,
        ),
    decreases all.len() - p.bytes_parsed,
{
    let rest = all.skip(p.bytes_parsed as int);
    if !(p.state is Done) {
        lemma_step_reads(p, all);
        lemma_step_keeps_order(p, rest);
        let rec = spec_step(p, rest)->Ok_0;
        match rec.next {
            Transition::Loop(q) => {
                lemma_loop_consumes(p, rest);
                assert(rest.skip(rec.consumed as int) =~= all.skip(q.bytes_parsed as int));
                lemma_drive_reads(q, all);
            },
            _ => {},
        }
    }
}

/// The parse of the rest of the bytes gives chunks whose file indexes are
/// listed by the bytes.
pub proof fn lemma_parse_from_reads(p: ParserModel, all: Seq<u8>)
    requires
        parser_ok(p),
        p.state is Done ==> p.chunks.len() > 0,
        reads(p, all),
        p.bytes_parsed <= all.len(),
        spec_parse_from(p, all.skip(p.bytes_parsed as int)) is Ok,
    ensures
        roots_listed(spec_parse_from(p, all.skip(p.bytes_parsed as int))->Ok_0, all),
    decreases all.len() - p.bytes_parsed,
{
    let data = all.skip(p.bytes_parsed as int);
    lemma_drive_reads(p, all);
    lemma_drive_keeps_order(p, data);
    let rec = spec_drive(p, data)->Ok_0;
    match rec.next {
        Transition::Skip { count, parser, .. } => {
            if 0 < rec.consumed + count <= data.len() {
                assert(data.skip((rec.consumed + count) as int) =~= all.skip(
                    parser.bytes_parsed as int,
                ));
                lemma_parse_from_reads(parser, all);
            }
        },
        _ => {},
    }
}

/// In every archive that parses, the tree of the file index is what the
/// bytes of the index list: some range of the archive holds, entry after
/// entry, the pre-order listing of the tree, in which every folder, the root
/// included, announces exactly the number of children that it has.
pub proof fn lemma_parsed_tree_is_listed(data: Seq<u8>)
    requires
        spec_parse(data) is Ok,
    ensures
        roots_listed(spec_parse(data)->Ok_0, data),
{
    assert(data.skip(0) =~= data);
    lemma_parse_from_reads(initial_parser(), data);
}

/// The smallest archive with a file index: a FORM chunk of type PAC1, a
/// header of version 1, and an index that holds one folder without a name
/// and without children.
pub open spec fn is_minimal_archive(data: Seq<u8>) -> bool {
    &&& data.len() == 62
    &&& data.subrange(0, 12) == seq![
        0x46u8, 0x4F, 0x52, 0x4D, 0, 0, 0, 54, 0x50, 0x41, 0x43, 0x31,
    ]
    &&& data.subrange(12, 24) == seq![0x48u8, 0x45, 0x41, 0x44, 0, 0, 0, 0x1C, 1, 0, 0, 0]
    &&& data.subrange(48, 62) == seq![0x46u8, 0x49, 0x4C, 0x45, 0, 0, 0, 6, 0, 0, 0, 0, 0, 0]
}

/// The chunks of the smallest archive: its FORM chunk, its header, and an
/// index whose root is named "Root" and has no children.
pub open spec fn minimal_chunks() -> Seq<ChunkModel> {
    seq![
        ChunkModel::Form { file_size: 54, pak_file_type: PakType::PAC1 },
        ChunkModel::Head { version: 1, start: 24, end: 48 },
        ChunkModel::File { root: Node::Folder { name: root_name(), children: Seq::empty() } },
    ]
}

/// The smallest archive parses to a root folder named "Root" that has no children.
pub proof fn lemma_minimal_archive_parses(data: Seq<u8>)
    requires
        is_minimal_archive(data),
    ensures
        spec_parse(data) == Ok::<Seq<ChunkModel>, PakError>(minimal_chunks()),
{
    reveal(spec_step);
    let form = data.subrange(0, 12);
    let head = data.subrange(12, 24);
    let index = data.subrange(48, 62);
    assert forall|k: int| 0 <= k < 12 implies data[k] == form[k] by {}
    assert forall|k: int| 0 <= k < 12 implies data[12 + k] == head[k] by {}
    assert forall|k: int| 0 <= k < 14 implies data[48 + k] == index[k] by {}
    let p0 = initial_parser();
    let form_chunk = ChunkModel::Form { file_size: 54, pak_file_type: PakType::PAC1 };
    let head_chunk = ChunkModel::Head { version: 1, start: 24, end: 48 };
    let p1 = ParserModel {
        state: StateModel::ParsingChunk,
        chunks: seq![form_chunk],
        pak_len: Some(62nat),
        bytes_parsed: 12,
    };
    let p2 = ParserModel {
        state: StateModel::ParsingChunk,
        chunks: seq![form_chunk, head_chunk],
        pak_len: Some(62nat),
        bytes_parsed: 48,
    };
    // The FORM chunk.
    assert(spec_step(p0, data) == Ok::<StepRecord, PakError>(
        StepRecord { next: Transition::Loop(p1), consumed: 12 },
    )) by {
        assert(spec_be_u32(data, 0) == TAG_FORM);
        assert(spec_be_u32(data.skip(4), 0) == 54);
        assert(spec_be_u32(data.skip(4), 4) == TAG_PAC1);
        assert(Seq::<ChunkModel>::empty().push(form_chunk) =~= seq![form_chunk]);
    }
    // The header, whose body is left to be skipped.
    let rest1 = data.skip(12);
    assert(spec_step(p1, rest1) == Ok::<StepRecord, PakError>(
        StepRecord {
            next: Transition::Skip { from: 24, count: 0x18, parser: p2 },
            consumed: 12,
        },
    )) by {
        assert(spec_be_u32(rest1, 0) == TAG_HEAD);
        assert(spec_be_u32(rest1.skip(4), 0) == HEAD_LEN);
        assert(spec_le_u32(rest1.skip(4), 4) == 1);
        assert(seq![form_chunk].push(head_chunk) =~= seq![form_chunk, head_chunk]);
        assert(count_head(seq![form_chunk]) == 0) by {
            assert(seq![form_chunk].drop_last() =~= Seq::<ChunkModel>::empty());
            assert(count_head(Seq::<ChunkModel>::empty()) == 0);
        }
    }
    assert(spec_drive(p1, rest1) == spec_step(p1, rest1));
    assert(spec_drive(p0, data) == Ok::<StepRecord, PakError>(
        StepRecord {
            next: Transition::Skip { from: 24, count: 0x18, parser: p2 },
            consumed: 24,
        },
    ));
    lemma_minimal_index_parses(data, p2);
    assert(spec_parse_from(p0, data) == spec_parse_from(p2, data.skip(48)));
}

/// The index of the smallest archive gives the root alone.
pub proof fn lemma_minimal_index_parses(data: Seq<u8>, p2: ParserModel)
    requires
        is_minimal_archive(data),
        p2 == (ParserModel {
            state: StateModel::ParsingChunk,
            chunks: seq![
                ChunkModel::Form { file_size: 54, pak_file_type: PakType::PAC1 },
                ChunkModel::Head { version: 1, start: 24, end: 48 },
            ],
            pak_len: Some(62nat),
            bytes_parsed: 48,
        }),
    ensures
        spec_parse_from(p2, data.skip(48)) == Ok::<Seq<ChunkModel>, PakError>(minimal_chunks()),
{
    reveal(spec_step);
    let index = data.subrange(48, 62);
    assert forall|k: int| 0 <= k < 14 implies data[48 + k] == index[k] by {}
    let rest2 = data.skip(48);
    let rest3 = rest2.skip(8);
    let root = Node::Folder { name: root_name(), children: Seq::empty() };
    let p3 = ParserModel {
        state: StateModel::ParsingFileChunk {
            parsed_root: false,
            frames: Seq::empty(),
            bytes_processed: 0,
            chunk_len: 6,
        },
        chunks: p2.chunks,
        pak_len: p2.pak_len,
        bytes_parsed: 56,
    };
    let p4 = ParserModel {
        state: StateModel::Done,
        chunks: minimal_chunks(),
        pak_len: p2.pak_len,
        bytes_parsed: 62,
    };
    assert(count_file(p2.chunks) == 0) by {
        assert(p2.chunks.drop_last() =~= seq![p2.chunks[0]]);
        assert(seq![p2.chunks[0]].drop_last() =~= Seq::<ChunkModel>::empty());
        assert(count_file(Seq::<ChunkModel>::empty()) == 0);
        assert(count_file(seq![p2.chunks[0]]) == 0);
    }
    assert(spec_step(p2, rest2) == Ok::<StepRecord, PakError>(
        StepRecord { next: Transition::Loop(p3), consumed: 8 },
    )) by {
        assert(spec_be_u32(rest2, 0) == TAG_FILE);
        assert(spec_be_u32(rest2.skip(4), 0) == 6);
    }
    let name_bytes = rest3.subrange(2, 2);
    assert(name_bytes =~= Seq::<u8>::empty());
    assert(valid_utf8(name_bytes));
    assert(decode_utf8(name_bytes) =~= Seq::<char>::empty());
    let entry = Node::Folder { name: Seq::<char>::empty(), children: Seq::empty() };
    assert(spec_entry(rest3) == Ok::<EntryRecord, DecodeError>(
        EntryRecord { node: entry, children_count: 0, consumed: 6 },
    )) by {
        assert(rest3[0] == 0 && rest3[1] == 0);
        assert(spec_le_u32(rest3, 2) == 0);
    }
    lemma_lone_empty_root();
    assert(spec_step(p3, rest3) == Ok::<StepRecord, PakError>(
        StepRecord { next: Transition::Loop(p4), consumed: 6 },
    )) by {
        assert(p2.chunks.push(ChunkModel::File { root }) =~= minimal_chunks());
    }
    assert(spec_drive(p4, rest3.skip(6)) == Ok::<StepRecord, PakError>(
        StepRecord { next: Transition::Done(minimal_chunks()), consumed: 0 },
    ));
    assert(spec_drive(p3, rest3) == Ok::<StepRecord, PakError>(
        StepRecord { next: Transition::Done(minimal_chunks()), consumed: 6 },
    ));
    assert(spec_drive(p2, rest2) == Ok::<StepRecord, PakError>(
        StepRecord { next: Transition::Done(minimal_chunks()), consumed: 14 },
    ));
}

} // verus!
