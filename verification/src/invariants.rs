//! What holds of every parser state and of every archive that parses.

use vstd::prelude::*;
use crate::chunk::{spec_chunk, ParsedModel};
use crate::directory::{accept_entry, attach_child, closable, coalesce, root_name, Frame};
use crate::entry::{info_ok, names_unique, node_children, node_name, spec_entry, Node};
use crate::error::{DecodeError, FormatFault, PakError};
use crate::pak::{chunks_ordered, count_file, count_head, ChunkModel};
use crate::parser::{
    advance, after_chunk, fault_at, initial_parser, placement_ok, shift, spec_drive, spec_parse,
    spec_parse_from, spec_step, ParserModel, StateModel, Transition,
};

verus! {

/// A tree as the format allows it inside an archive of `total` bytes: the
/// payload of every file ends inside the archive, the fields of every file
/// obey the format, and the children of every folder have names, no two the
/// same.
pub open spec fn sound(n: Node, total: nat) -> bool
    decreases n,
{
    match n {
        Node::File { info, .. } => info.offset + info.compressed_len <= total && info_ok(info),
        Node::Folder { children, .. } => names_unique(children) && forall|i: int|
            0 <= i < children.len() ==> node_name(#[trigger] children[i]).len() > 0 && sound(
                children[i],
                total,
            ),
    }
}

/// An open folder in good order: it is a sound folder, and the children it
/// has together with those still to come are as many as it announced.
pub open spec fn frame_ok(f: Frame, total: nat) -> bool {
    &&& f.node is Folder
    &&& node_children(f.node).len() + f.remaining == f.declared
    &&& sound(f.node, total)
}

/// Every open folder is in good order.
pub open spec fn frames_ok(frames: Seq<Frame>, total: nat) -> bool {
    forall|i: int| 0 <= i < frames.len() ==> frame_ok(#[trigger] frames[i], total)
}

/// Attaching a sound child keeps every open folder in good order.
pub proof fn lemma_attach_keeps_order(frames: Seq<Frame>, child: Node, total: nat)
    requires
        frames_ok(frames, total),
        sound(child, total),
        attach_child(frames, child) is Ok,
    ensures
        frames_ok(attach_child(frames, child)->Ok_0, total),
        attach_child(frames, child)->Ok_0.len() == frames.len(),
{
    let next = attach_child(frames, child)->Ok_0;
    let top = frames.last();
    let old_children = node_children(top.node);
    let new_children = old_children.push(child);
    assert(frame_ok(top, total));
    assert(names_unique(new_children)) by {
        assert forall|i: int, j: int| 0 <= i < j < new_children.len() implies node_name(
            #[trigger] new_children[i],
        ) != node_name(#[trigger] new_children[j]) by {
            if j == old_children.len() {
                assert(node_name(old_children[i]) != node_name(child));
            } else {
                assert(node_name(old_children[i]) != node_name(old_children[j]));
            }
        }
    }
    assert forall|i: int| 0 <= i < next.len() implies frame_ok(#[trigger] next[i], total) by {
        if i < next.len() - 1 {
            assert(next[i] == frames[i]);
        } else {
            assert forall|k: int| 0 <= k < new_children.len() implies node_name(
                #[trigger] new_children[k],
            ).len() > 0 && sound(new_children[k], total) by {
                if k < old_children.len() {
                    assert(new_children[k] == old_children[k]);
                }
            }
        }
    }
}

/// A folder that is closed has exactly as many children as it announced.
pub proof fn lemma_closed_folder_is_complete(frames: Seq<Frame>, total: nat)
    requires
        frames_ok(frames, total),
        closable(frames),
    ensures
        node_children(frames.last().node).len() == frames.last().declared,
{
    assert(frame_ok(frames.last(), total));
}

/// Closing the folders that are complete keeps every open folder in good order.
pub proof fn lemma_coalesce_keeps_order(frames: Seq<Frame>, total: nat)
    requires
        frames_ok(frames, total),
        coalesce(frames) is Ok,
    ensures
        frames_ok(coalesce(frames)->Ok_0, total),
    decreases frames.len(),
{
    if closable(frames) {
        let rest = frames.drop_last();
        assert(frame_ok(frames.last(), total));
        assert(frames_ok(rest, total)) by {
            assert forall|i: int| 0 <= i < rest.len() implies frame_ok(
                #[trigger] rest[i],
                total,
            ) by {
                assert(rest[i] == frames[i]);
            }
        }
        lemma_attach_keeps_order(rest, frames.last().node, total);
        lemma_coalesce_keeps_order(attach_child(rest, frames.last().node)->Ok_0, total);
    }
}

/// Taking in a decoded entry keeps every open folder in good order, provided
/// that a file entry is sound.
pub proof fn lemma_accept_keeps_order(
    parsed_root: bool,
    frames: Seq<Frame>,
    node: Node,
    children_count: nat,
    total: nat,
)
    requires
        frames_ok(frames, total),
        node is File ==> sound(node, total),
        accept_entry(parsed_root, frames, node, children_count) is Ok,
    ensures
        frames_ok(accept_entry(parsed_root, frames, node, children_count)->Ok_0, total),
{
    match node {
        Node::Folder { name, .. } => {
            let fresh = Frame {
                is_root: !parsed_root,
                remaining: children_count,
                declared: children_count,
                node: Node::Folder {
                    name: if !parsed_root && name.len() == 0 {
                        root_name()
                    } else {
                        name
                    },
                    children: Seq::empty(),
                },
            };
            let pushed = frames.push(fresh);
            assert(frame_ok(fresh, total));
            assert(frames_ok(pushed, total)) by {
                assert forall|i: int| 0 <= i < pushed.len() implies frame_ok(
                    #[trigger] pushed[i],
                    total,
                ) by {
                    if i < frames.len() {
                        assert(pushed[i] == frames[i]);
                    }
                }
            }
            lemma_coalesce_keeps_order(pushed, total);
        },
        Node::File { .. } => {
            lemma_attach_keeps_order(frames, node, total);
            lemma_coalesce_keeps_order(attach_child(frames, node)->Ok_0, total);
        },
    }
}

/// Every file index in the list holds a sound folder.
pub open spec fn roots_sound(chunks: Seq<ChunkModel>, total: nat) -> bool {
    forall|i: int|
        0 <= i < chunks.len() ==> (#[trigger] chunks[i] matches ChunkModel::File { root }
            ==> root is Folder && sound(root, total))
}

/// The length of the archive that a chunk list announces in its FORM chunk.
pub open spec fn announced_len(chunks: Seq<ChunkModel>) -> nat {
    if chunks.len() > 0 {
        match chunks[0] {
            ChunkModel::Form { file_size, .. } => (file_size + 8) as nat,
            _ => 0,
        }
    } else {
        0
    }
}

/// A parser in good order. Before the FORM chunk nothing is known. After it
/// the chunk list has the shape of an archive, the archive's length is the
/// one that the FORM chunk announces and has not been passed, every file
/// index read so far is sound, and while an index is being read no other has
/// been read before and every open folder is in good order.
pub open spec fn parser_ok(p: ParserModel) -> bool {
    if p.chunks.len() == 0 {
        p.pak_len is None && p.state is ParsingChunk && p.bytes_parsed == 0
    } else {
        &&& chunks_ordered(p.chunks)
        &&& p.pak_len == Some(announced_len(p.chunks))
        &&& p.bytes_parsed <= announced_len(p.chunks)
        &&& (p.state is Done ==> p.bytes_parsed == announced_len(p.chunks))
        &&& roots_sound(p.chunks, announced_len(p.chunks))
        &&& (p.state matches StateModel::ParsingFileChunk { frames, .. } ==> count_file(p.chunks)
            == 0 && frames_ok(frames, announced_len(p.chunks)))
    }
}

/// The parser that a request hands back, if any, is in good order; a
/// finished archive has the shape of an archive and sound file indexes.
pub open spec fn transition_ok(t: Transition) -> bool {
    match t {
        Transition::Loop(p) => parser_ok(p) && p.chunks.len() > 0,
        Transition::Continue(p) => parser_ok(p),
        Transition::Skip { parser, .. } => parser_ok(parser) && parser.chunks.len() > 0,
        Transition::Done(chunks) => chunks_ordered(chunks) && roots_sound(
            chunks,
            announced_len(chunks),
        ),
    }
}

/// The parser that the request `t` hands back, if any, stands no earlier in
/// the archive than `p` did, and knows the same length of the archive if
/// `p` knew one.
pub open spec fn moves_on(p: ParserModel, t: Transition) -> bool {
    match t {
        Transition::Loop(q) => q.bytes_parsed >= p.bytes_parsed && (p.pak_len is Some
            ==> q.pak_len == p.pak_len),
        Transition::Continue(q) => q.bytes_parsed >= p.bytes_parsed && (p.pak_len is Some
            ==> q.pak_len == p.pak_len),
        Transition::Skip { parser, .. } => parser.bytes_parsed >= p.bytes_parsed && (
        p.pak_len is Some ==> parser.pak_len == p.pak_len),
        Transition::Done(_) => true,
    }
}

/// Moving a parser forward keeps it in good order.
pub proof fn lemma_advance_keeps_order(p: ParserModel, consumed: nat, skip: nat)
    requires
        p.chunks.len() > 0,
        chunks_ordered(p.chunks),
        p.pak_len == Some(announced_len(p.chunks)),
        roots_sound(p.chunks, announced_len(p.chunks)),
        !(p.state is Done),
        p.state matches StateModel::ParsingFileChunk { frames, .. } ==> count_file(p.chunks) == 0
            && frames_ok(frames, announced_len(p.chunks)),
        advance(p, consumed, skip) is Ok,
    ensures
        transition_ok(advance(p, consumed, skip)->Ok_0.next),
        advance(p, consumed, skip)->Ok_0.consumed == consumed,
        moves_on(p, advance(p, consumed, skip)->Ok_0.next),
{
}

/// Appending a chunk that may follow keeps the shape of an archive.
pub proof fn lemma_push_keeps_shape(chunks: Seq<ChunkModel>, chunk: ChunkModel)
    requires
        chunks.len() == 0 || chunks_ordered(chunks),
        placement_ok(chunks, chunk),
    ensures
        chunks_ordered(chunks.push(chunk)),
        count_file(chunks.push(chunk)) == count_file(chunks) + if chunk is File {
            1nat
        } else {
            0nat
        },
        announced_len(chunks.push(chunk)) == if chunks.len() == 0 {
            announced_len(seq![chunk])
        } else {
            announced_len(chunks)
        },
{
    let next = chunks.push(chunk);
    assert(next.drop_last() =~= chunks);
    assert(next.last() == chunk);
    assert(seq![chunk][0] == chunk);
    if chunks.len() == 0 {
        assert(count_head(chunks) == 0);
        assert(count_file(chunks) == 0);
    }
    assert forall|i: int| 0 <= i < next.len() implies ((#[trigger] next[i] is Form) <==> i
        == 0) by {
        if i < chunks.len() {
            assert(next[i] == chunks[i]);
        }
    }
}

/// One step keeps the parser in good order.
pub proof fn lemma_step_keeps_order(p: ParserModel, rest: Seq<u8>)
    requires
        parser_ok(p),
        !(p.state is Done),
        spec_step(p, rest) is Ok,
    ensures
        transition_ok(spec_step(p, rest)->Ok_0.next),
        moves_on(p, spec_step(p, rest)->Ok_0.next),
{
    reveal(spec_step);
    match p.state {
        StateModel::ParsingChunk => {
            match spec_chunk(rest, p.bytes_parsed) {
                Ok(rec) => {
                    match rec.parsed {
                        ParsedModel::Chunk(c) => {
                            lemma_chunk_keeps_order(p, c, rec.consumed, 0);
                        },
                        ParsedModel::ChunkAndSkip(skip, c) => {
                            lemma_chunk_keeps_order(p, c, rec.consumed, skip);
                        },
                        ParsedModel::FileChunkHeader { chunk_len } => {
                            let q = ParserModel {
                                state: StateModel::ParsingFileChunk {
                                    parsed_root: false,
                                    frames: Seq::empty(),
                                    bytes_processed: 0,
                                    chunk_len,
                                },
                                chunks: p.chunks,
                                pak_len: p.pak_len,
                                bytes_parsed: p.bytes_parsed,
                            };
                            lemma_advance_keeps_order(q, rec.consumed, 0);
                        },
                    }
                },
                Err(_) => {},
            }
        },
        StateModel::ParsingFileChunk { parsed_root, frames, bytes_processed, chunk_len } => {
            match spec_entry(rest) {
                Ok(rec) => {
                    let total = announced_len(p.chunks);
                    let next = accept_entry(parsed_root, frames, rec.node, rec.children_count)->Ok_0;
                    lemma_accept_keeps_order(
                        parsed_root,
                        frames,
                        rec.node,
                        rec.children_count,
                        total,
                    );
                    if bytes_processed + rec.consumed == chunk_len {
                        let chunk = ChunkModel::File { root: next[0].node };
                        let chunks = p.chunks.push(chunk);
                        lemma_push_keeps_shape(p.chunks, chunk);
                        assert(frame_ok(next[0], total));
                        assert(roots_sound(chunks, total)) by {
                            assert forall|i: int| 0 <= i < chunks.len() implies (
                            #[trigger] chunks[i] matches ChunkModel::File { root } ==> root is Folder
                                && sound(root, total)) by {
                                if i < p.chunks.len() {
                                    assert(chunks[i] == p.chunks[i]);
                                }
                            }
                        }
                        let q = ParserModel {
                            state: StateModel::ParsingChunk,
                            chunks,
                            pak_len: p.pak_len,
                            bytes_parsed: p.bytes_parsed,
                        };
                        lemma_advance_keeps_order(q, rec.consumed, 0);
                    } else {
                        let q = ParserModel {
                            state: StateModel::ParsingFileChunk {
                                parsed_root: true,
                                frames: next,
                                bytes_processed: bytes_processed + rec.consumed,
                                chunk_len,
                            },
                            chunks: p.chunks,
                            pak_len: p.pak_len,
                            bytes_parsed: p.bytes_parsed,
                        };
                        lemma_advance_keeps_order(q, rec.consumed, 0);
                    }
                },
                Err(_) => {},
            }
        },
        StateModel::Done => {},
    }
}

/// Taking in a decoded chunk keeps the parser in good order.
pub proof fn lemma_chunk_keeps_order(p: ParserModel, chunk: ChunkModel, consumed: nat, skip: nat)
    requires
        parser_ok(p),
        p.state is ParsingChunk,
        !(chunk is File),
        chunk is Form ==> consumed == 12,
        after_chunk(p, chunk, consumed, skip) is Ok,
    ensures
        transition_ok(after_chunk(p, chunk, consumed, skip)->Ok_0.next),
        moves_on(p, after_chunk(p, chunk, consumed, skip)->Ok_0.next),
{
    let chunks = p.chunks.push(chunk);
    lemma_push_keeps_shape(p.chunks, chunk);
    let total = announced_len(chunks);
    assert(roots_sound(chunks, total)) by {
        assert forall|i: int| 0 <= i < chunks.len() implies (#[trigger] chunks[i] matches ChunkModel::File {
            root,
        } ==> root is Folder && sound(root, total)) by {
            if i < p.chunks.len() {
                assert(chunks[i] == p.chunks[i]);
            }
        }
    }
    let q = ParserModel {
        state: StateModel::ParsingChunk,
        chunks,
        pak_len: match chunk {
            ChunkModel::Form { file_size, .. } => Some(
                (file_size + p.bytes_parsed + consumed - 4) as nat,
            ),
            _ => p.pak_len,
        },
        bytes_parsed: p.bytes_parsed,
    };
    lemma_advance_keeps_order(q, consumed, skip);
}

/// A run of steps keeps the parser in good order.
pub proof fn lemma_drive_keeps_order(p: ParserModel, rest: Seq<u8>)
    requires
        parser_ok(p),
        p.state is Done ==> p.chunks.len() > 0,
        spec_drive(p, rest) is Ok,
    ensures
        transition_ok(spec_drive(p, rest)->Ok_0.next),
        moves_on(p, spec_drive(p, rest)->Ok_0.next),
        spec_drive(p, rest)->Ok_0.next matches Transition::Done(chunks) ==> chunks.len() > 0,
    decreases rest.len(),
{
    if !(p.state is Done) {
        lemma_step_keeps_order(p, rest);
        let rec = spec_step(p, rest)->Ok_0;
        match rec.next {
            Transition::Loop(q) => {
                if 0 < rec.consumed <= rest.len() {
                    lemma_drive_keeps_order(q, rest.skip(rec.consumed as int));
                }
            },
            _ => {},
        }
    }
}

/// Reading a whole archive from a parser in good order gives a chunk list
/// with the shape of an archive and sound file indexes.
pub proof fn lemma_parse_from_keeps_order(p: ParserModel, data: Seq<u8>)
    requires
        parser_ok(p),
        p.state is Done ==> p.chunks.len() > 0,
        spec_parse_from(p, data) is Ok,
    ensures
        chunks_ordered(spec_parse_from(p, data)->Ok_0),
        roots_sound(
            spec_parse_from(p, data)->Ok_0,
            announced_len(spec_parse_from(p, data)->Ok_0),
        ),
    decreases data.len(),
{
    lemma_drive_keeps_order(p, data);
    let rec = spec_drive(p, data)->Ok_0;
    match rec.next {
        Transition::Skip { count, parser, .. } => {
            if 0 < rec.consumed + count <= data.len() {
                lemma_parse_from_keeps_order(parser, data.skip((rec.consumed + count) as int));
            }
        },
        _ => {},
    }
}

/// Every archive that parses begins with its FORM chunk, which occurs
/// nowhere else, and holds at most one header and at most one file index.
/// In its file index the payload of every file ends inside the length that
/// the FORM chunk announces, the fields of every file obey the format, and
/// the children of every folder have names, no two of them the same.
pub proof fn lemma_parsed_archive_in_order(data: Seq<u8>)
    requires
        spec_parse(data) is Ok,
    ensures
        chunks_ordered(spec_parse(data)->Ok_0),
        roots_sound(spec_parse(data)->Ok_0, announced_len(spec_parse(data)->Ok_0)),
{
    lemma_parse_from_keeps_order(initial_parser(), data);
}

/// Parsing is a function of the bytes: equal bytes give equal archives, or
/// the same failure.
pub proof fn lemma_parse_is_deterministic(first: Seq<u8>, second: Seq<u8>)
    requires
        first == second,
    ensures
        spec_parse(first) == spec_parse(second),
{
}

/// A folder that announces no children and is not the root is closed at
/// once: it becomes a child of the folder that was innermost before, and
/// the folders that this completes are closed in their turn.
pub proof fn lemma_empty_folder_closes_at_once(frames: Seq<Frame>, name: Seq<char>)
    requires
        frames.len() > 0,
        accept_entry(true, frames, Node::Folder { name, children: Seq::empty() }, 0) is Ok,
    ensures
        attach_child(frames, Node::Folder { name, children: Seq::empty() }) is Ok,
        accept_entry(true, frames, Node::Folder { name, children: Seq::empty() }, 0) == coalesce(
            attach_child(frames, Node::Folder { name, children: Seq::empty() })->Ok_0,
        ),
{
    let node = Node::Folder { name, children: Seq::empty() };
    let fresh = Frame { is_root: false, remaining: 0, declared: 0, node };
    let pushed = frames.push(fresh);
    assert(pushed.drop_last() =~= frames);
    assert(pushed.last() == fresh);
    assert(closable(pushed));
}

/// An entry that was decoded, or found faulty, from a buffer is decoded the
/// same, or found faulty the same, from any buffer that goes on longer.
pub proof fn lemma_entry_ignores_later_bytes(rest: Seq<u8>, more: Seq<u8>)
    requires
        !(spec_entry(rest) matches Err(DecodeError::NeedMore(_))),
    ensures
        spec_entry(rest + more) == spec_entry(rest),
{
    let longer = rest + more;
    assert forall|k: int| 0 <= k < rest.len() implies longer[k] == rest[k] by {}
    if rest.len() >= 2 && rest[0] <= 1 {
        let n = rest[1] as int;
        if rest.len() >= 2 + n {
            assert(longer.subrange(2, 2 + n) =~= rest.subrange(2, 2 + n));
        }
    }
}

/// A chunk start that was decoded, or found faulty, from a buffer is decoded
/// the same, or found faulty the same, from any buffer that goes on longer.
pub proof fn lemma_chunk_ignores_later_bytes(rest: Seq<u8>, more: Seq<u8>, base: nat)
    requires
        !(spec_chunk(rest, base) matches Err(DecodeError::NeedMore(_))),
    ensures
        spec_chunk(rest + more, base) == spec_chunk(rest, base),
{
    let longer = rest + more;
    assert forall|k: int| 0 <= k < rest.len() implies longer[k] == rest[k] by {}
    if rest.len() >= 4 {
        assert forall|k: int| 0 <= k < rest.len() - 4 implies longer.skip(4)[k] == rest.skip(
            4,
        )[k] by {}
    }
}

/// A step that did not ask for more bytes gives the same on any buffer that
/// goes on longer.
pub proof fn lemma_step_ignores_later_bytes(p: ParserModel, rest: Seq<u8>, more: Seq<u8>)
    requires
        !(p.state is Done),
        !(spec_step(p, rest) matches Ok(rec) && rec.next is Continue),
    ensures
        spec_step(p, rest + more) == spec_step(p, rest),
{
    reveal(spec_step);
    match p.state {
        StateModel::ParsingChunk => {
            lemma_chunk_ignores_later_bytes(rest, more, p.bytes_parsed);
        },
        StateModel::ParsingFileChunk { .. } => {
            lemma_entry_ignores_later_bytes(rest, more);
        },
        StateModel::Done => {},
    }
}

/// A run of steps that ended with the finished archive, with a skip or with
/// a failure gives the same on any buffer that goes on longer. So a caller
/// that feeds the parser a window of the archive at a time is told, whenever
/// it is not asked for more bytes, what it would be told on the whole rest
/// of the archive.
pub proof fn lemma_drive_ignores_later_bytes(p: ParserModel, rest: Seq<u8>, more: Seq<u8>)
    requires
        spec_drive(p, rest) matches Ok(rec) ==> rec.next is Done || rec.next is Skip,
    ensures
        spec_drive(p, rest + more) == spec_drive(p, rest),
    decreases rest.len(),
{
    if !(p.state is Done) {
        lemma_step_ignores_later_bytes(p, rest, more);
        match spec_step(p, rest) {
            Ok(rec) => {
                match rec.next {
                    Transition::Loop(q) => {
                        if 0 < rec.consumed <= rest.len() {
                            assert((rest + more).skip(rec.consumed as int) =~= rest.skip(
                                rec.consumed as int,
                            ) + more);
                            lemma_drive_ignores_later_bytes(
                                q,
                                rest.skip(rec.consumed as int),
                                more,
                            );
                        }
                    },
                    _ => {},
                }
            },
            Err(_) => {},
        }
    }
}

/// A step that asks to be called again at once has consumed at least one
/// byte of the buffer, and no more than the buffer holds.
pub proof fn lemma_loop_consumes(p: ParserModel, rest: Seq<u8>)
    requires
        !(p.state is Done),
        spec_step(p, rest) matches Ok(rec) && rec.next is Loop,
    ensures
        0 < spec_step(p, rest)->Ok_0.consumed <= rest.len(),
{
    reveal(spec_step);
}

/// A run of steps never ends by asking to be called again at once: it ends
/// with the finished archive, with a request for more bytes or for a skip,
/// or with a failure.
pub proof fn lemma_drive_never_loops(p: ParserModel, rest: Seq<u8>)
    ensures
        spec_drive(p, rest) matches Ok(rec) ==> !(rec.next is Loop),
    decreases rest.len(),
{
    if !(p.state is Done) {
        match spec_step(p, rest) {
            Ok(rec) => {
                match rec.next {
                    Transition::Loop(q) => {
                        lemma_loop_consumes(p, rest);
                        lemma_drive_never_loops(q, rest.skip(rec.consumed as int));
                    },
                    _ => {},
                }
            },
            Err(_) => {},
        }
    }
}

/// A step hands the parser back unchanged, with nothing consumed, when it
/// asks for more bytes; and it asks for a skip of at least one byte.
pub proof fn lemma_step_requests(p: ParserModel, rest: Seq<u8>)
    requires
        !(p.state is Done),
    ensures
        spec_step(p, rest) matches Ok(rec) ==> (rec.next is Continue ==> rec.next
            == Transition::Continue(p) && rec.consumed == 0) && (rec.next matches Transition::Skip {
            count,
            ..
        } ==> count > 0) && !(rec.next is Done),
{
    reveal(spec_step);
}

/// A run of steps asks for a skip of at least one byte.
pub proof fn lemma_drive_skips(p: ParserModel, rest: Seq<u8>)
    ensures
        spec_drive(p, rest) matches Ok(rec) ==> (rec.next matches Transition::Skip { count, .. }
            ==> count > 0),
    decreases rest.len(),
{
    if !(p.state is Done) {
        lemma_step_requests(p, rest);
        match spec_step(p, rest) {
            Ok(rec) => {
                match rec.next {
                    Transition::Loop(q) => {
                        if 0 < rec.consumed <= rest.len() {
                            lemma_drive_skips(q, rest.skip(rec.consumed as int));
                        }
                    },
                    _ => {},
                }
            },
            Err(_) => {},
        }
    }
}

/// A run of steps that asked for more bytes can be taken up again: on a
/// buffer that goes on longer, the run gives what a run of the parser it
/// handed back gives on the bytes it had not consumed.
pub proof fn lemma_drive_resumes(p: ParserModel, rest: Seq<u8>, more: Seq<u8>)
    requires
        spec_drive(p, rest) matches Ok(rec) && rec.next is Continue,
    ensures
        spec_drive(p, rest)->Ok_0.consumed <= rest.len(),
        spec_drive(p, rest + more) == shift(
            spec_drive(
                spec_drive(p, rest)->Ok_0.next->Continue_0,
                (rest + more).skip(spec_drive(p, rest)->Ok_0.consumed as int),
            ),
            spec_drive(p, rest)->Ok_0.consumed,
        ),
    decreases rest.len(),
{
    let longer = rest + more;
    lemma_step_requests(p, rest);
    let step = spec_step(p, rest)->Ok_0;
    match step.next {
        Transition::Loop(q) => {
            lemma_loop_consumes(p, rest);
            lemma_step_ignores_later_bytes(p, rest, more);
            let c = step.consumed as int;
            assert(longer.skip(c) =~= rest.skip(c) + more);
            lemma_drive_resumes(q, rest.skip(c), more);
            let inner = spec_drive(q, rest.skip(c))->Ok_0;
            assert((rest.skip(c) + more).skip(inner.consumed as int) =~= longer.skip(
                c + inner.consumed,
            ));
        },
        _ => {
            assert(longer.skip(0) =~= longer);
        },
    }
}

/// Feeding the parser a window of the archive gives, in the end, what
/// parsing the archive in one piece gives. Let `data` be the bytes of the
/// archive from where the parser `p` stands, and let the parser run on any
/// window of them. A failure or a finished archive is that of the parse in
/// one piece. After a skip, or after a request for more bytes, the parse in
/// one piece of what then remains, by the parser handed back, gives the same
/// as that of `data` by `p`.
pub proof fn lemma_window_preserves_parse(p: ParserModel, data: Seq<u8>, window: int)
    requires
        0 <= window <= data.len(),
    ensures
        match spec_drive(p, data.take(window)) {
            Err(e) => spec_parse_from(p, data) == Err::<Seq<ChunkModel>, PakError>(e),
            Ok(rec) => match rec.next {
                Transition::Done(chunks) => spec_parse_from(p, data) == Ok::<
                    Seq<ChunkModel>,
                    PakError,
                >(chunks),
                Transition::Skip { count, parser, .. } => spec_parse_from(p, data) == (if rec.consumed
                    + count <= data.len() {
                    spec_parse_from(parser, data.skip((rec.consumed + count) as int))
                } else {
                    Err(fault_at(parser, FormatFault::Truncated))
                }),
                Transition::Continue(q) => rec.consumed <= data.len() && spec_parse_from(p, data)
                    == spec_parse_from(q, data.skip(rec.consumed as int)) && (window == data.len()
                    ==> spec_parse_from(p, data) == Err::<Seq<ChunkModel>, PakError>(
                    fault_at(q, FormatFault::Truncated),
                )),
                Transition::Loop(_) => false,
            },
        },
{
    let head = data.take(window);
    let tail = data.skip(window);
    assert(head + tail =~= data);
    lemma_drive_never_loops(p, head);
    lemma_drive_skips(p, head);
    match spec_drive(p, head) {
        Ok(rec) => {
            match rec.next {
                Transition::Continue(q) => {
                    if window == data.len() {
                        assert(head =~= data);
                    }
                    lemma_drive_resumes(p, head, tail);
                    let c = rec.consumed;
                    let rest = data.skip(c as int);
                    lemma_drive_skips(q, rest);
                    match spec_drive(q, rest) {
                        Ok(inner) => {
                            match inner.next {
                                Transition::Skip { count, parser, .. } => {
                                    if 0 < inner.consumed + count <= rest.len() {
                                        assert(rest.skip((inner.consumed + count) as int)
                                            =~= data.skip((c + inner.consumed + count) as int));
                                    }
                                },
                                _ => {},
                            }
                        },
                        Err(_) => {},
                    }
                },
                _ => {
                    lemma_drive_ignores_later_bytes(p, head, tail);
                },
            }
        },
        Err(_) => {
            lemma_drive_ignores_later_bytes(p, head, tail);
        },
    }
}

/// A node as one entry of the index shows it: a folder without its children.
pub open spec fn shallow(n: Node) -> Node {
    match n {
        Node::Folder { name, .. } => Node::Folder { name, children: Seq::empty() },
        Node::File { .. } => n,
    }
}

/// The entries that list the tree `n` in pre-order, each with the number of
/// children it announces: the node itself with the number of children it
/// has, then the listings of its children in order.
pub open spec fn listing(n: Node) -> Seq<(Node, nat)>
    decreases n, node_children(n).len() + 1,
{
    seq![(shallow(n), node_children(n).len())] + listing_below(n, node_children(n).len())
}

/// The listings of the first `upto` children of `n`, one after the other.
pub open spec fn listing_below(n: Node, upto: nat) -> Seq<(Node, nat)>
    decreases n, upto,
{
    if upto == 0 || upto > node_children(n).len() {
        Seq::empty()
    } else {
        match n {
            Node::Folder { children, .. } => listing_below(n, (upto - 1) as nat) + listing(
                children[upto - 1],
            ),
            Node::File { .. } => Seq::empty(),
        }
    }
}

/// The entries that an open folder has taken in: its own, with the number
/// of children it announced, then the listings of the children it has.
pub open spec fn frame_listing(f: Frame) -> Seq<(Node, nat)> {
    seq![(shallow(f.node), f.declared)] + listing_below(f.node, node_children(f.node).len())
}

/// The entries that the open folders have taken in, in the order of the index.
pub open spec fn stack_listing(frames: Seq<Frame>) -> Seq<(Node, nat)>
    decreases frames.len(),
{
    if frames.len() == 0 {
        Seq::empty()
    } else {
        stack_listing(frames.drop_last()) + frame_listing(frames.last())
    }
}

/// The listing of the first children of a folder depends on these children alone.
pub proof fn lemma_listing_below_of_prefix(a: Node, b: Node, upto: nat)
    requires
        a is Folder,
        b is Folder,
        upto <= node_children(a).len(),
        upto <= node_children(b).len(),
        forall|k: int| 0 <= k < upto ==> node_children(a)[k] == node_children(b)[k],
    ensures
        listing_below(a, upto) == listing_below(b, upto),
    decreases upto,
{
    if upto > 0 {
        lemma_listing_below_of_prefix(a, b, (upto - 1) as nat);
        assert(node_children(a)[upto - 1] == node_children(b)[upto - 1]);
    }
}

/// Attaching a child extends the entries taken in by the listing of the child.
pub proof fn lemma_attach_extends_listing(frames: Seq<Frame>, child: Node)
    requires
        frames.len() > 0,
        frames.last().node is Folder,
        attach_child(frames, child) is Ok,
    ensures
        stack_listing(attach_child(frames, child)->Ok_0) == stack_listing(frames) + listing(child),
{
    let next = attach_child(frames, child)->Ok_0;
    let top = frames.last();
    let grown = next.last();
    let had = node_children(top.node);
    assert(next.drop_last() =~= frames.drop_last());
    assert(node_children(grown.node) == had.push(child));
    lemma_listing_below_of_prefix(grown.node, top.node, had.len());
    assert(listing_below(grown.node, (had.len() + 1) as nat) == listing_below(
        grown.node,
        had.len(),
    ) + listing(child));
    assert(frame_listing(grown) =~= frame_listing(top) + listing(child));
    assert(stack_listing(next) =~= stack_listing(frames) + listing(child));
}

/// Closing the folders that are complete changes nothing in the entries
/// taken in: a folder is closed when it has as many children as it
/// announced, so that its entry lists it with the number of children it has.
pub proof fn lemma_coalesce_keeps_listing(frames: Seq<Frame>, total: nat)
    requires
        frames_ok(frames, total),
        coalesce(frames) is Ok,
    ensures
        stack_listing(coalesce(frames)->Ok_0) == stack_listing(frames),
    decreases frames.len(),
{
    if closable(frames) {
        let rest = frames.drop_last();
        let top = frames.last();
        assert(frame_ok(top, total));
        assert(frames_ok(rest, total)) by {
            assert forall|i: int| 0 <= i < rest.len() implies frame_ok(
                #[trigger] rest[i],
                total,
            ) by {
                assert(rest[i] == frames[i]);
            }
        }
        assert(frame_ok(rest.last(), total));
        lemma_attach_keeps_order(rest, top.node, total);
        lemma_attach_extends_listing(rest, top.node);
        assert(frame_listing(top) == listing(top.node));
        lemma_coalesce_keeps_listing(attach_child(rest, top.node)->Ok_0, total);
    }
}

/// The entry that is taken in for a decoded node: a first folder without a
/// name is shown as "Root".
pub open spec fn shown(parsed_root: bool, node: Node) -> Node {
    match node {
        Node::Folder { name, .. } => Node::Folder {
            name: if !parsed_root && name.len() == 0 {
                root_name()
            } else {
                name
            },
            children: Seq::empty(),
        },
        Node::File { .. } => node,
    }
}

/// Taking in a decoded entry extends the entries taken in by this entry,
/// with the number of children it announces.
pub proof fn lemma_accept_extends_listing(
    parsed_root: bool,
    frames: Seq<Frame>,
    node: Node,
    children_count: nat,
    total: nat,
)
    requires
        frames_ok(frames, total),
        node is File ==> sound(node, total) && children_count == 0,
        accept_entry(parsed_root, frames, node, children_count) is Ok,
    ensures
        stack_listing(accept_entry(parsed_root, frames, node, children_count)->Ok_0)
            == stack_listing(frames).push((shown(parsed_root, node), children_count)),
{
    match node {
        Node::Folder { name, .. } => {
            let fresh = Frame {
                is_root: !parsed_root,
                remaining: children_count,
                declared: children_count,
                node: shown(parsed_root, node),
            };
            let pushed = frames.push(fresh);
            assert(pushed.drop_last() =~= frames);
            assert(frame_ok(fresh, total));
            assert(frames_ok(pushed, total)) by {
                assert forall|i: int| 0 <= i < pushed.len() implies frame_ok(
                    #[trigger] pushed[i],
                    total,
                ) by {
                    if i < frames.len() {
                        assert(pushed[i] == frames[i]);
                    }
                }
            }
            assert(frame_listing(fresh) =~= seq![(shown(parsed_root, node), children_count)]);
            assert(stack_listing(pushed) =~= stack_listing(frames).push(
                (shown(parsed_root, node), children_count),
            ));
            lemma_coalesce_keeps_listing(pushed, total);
        },
        Node::File { .. } => {
            assert(frame_ok(frames.last(), total));
            lemma_attach_keeps_order(frames, node, total);
            lemma_attach_extends_listing(frames, node);
            assert(listing(node) =~= seq![(node, 0nat)]);
            lemma_coalesce_keeps_listing(attach_child(frames, node)->Ok_0, total);
        },
    }
}

/// When the index ends, the entries taken in are the listing of the root:
/// every folder of the tree, the root included, has exactly as many
/// children as its entry announced.
pub proof fn lemma_complete_root_is_listed(frames: Seq<Frame>, total: nat)
    requires
        frames_ok(frames, total),
        frames.len() == 1,
        frames[0].remaining == 0,
    ensures
        stack_listing(frames) == listing(frames[0].node),
{
    assert(frame_ok(frames[0], total));
    assert(frames.drop_last() =~= Seq::<Frame>::empty());
    assert(stack_listing(frames.drop_last()) =~= Seq::<(Node, nat)>::empty());
    assert(stack_listing(frames) =~= frame_listing(frames.last()));
}

/// An index that holds one folder, without a name and without children,
/// gives the root alone: it is named "Root", has no children and awaits none.
pub proof fn lemma_lone_empty_root()
    ensures
        accept_entry(
            false,
            Seq::empty(),
            Node::Folder { name: Seq::empty(), children: Seq::empty() },
            0,
        ) == Ok::<Seq<Frame>, FormatFault>(
            seq![
                Frame {
                    is_root: true,
                    remaining: 0,
                    declared: 0,
                    node: Node::Folder { name: root_name(), children: Seq::empty() },
                },
            ],
        ),
{
    let root = Frame {
        is_root: true,
        remaining: 0,
        declared: 0,
        node: Node::Folder { name: root_name(), children: Seq::empty() },
    };
    assert(Seq::<Frame>::empty().push(root) =~= seq![root]);
    assert(!closable(seq![root]));
}

/// A parser that is done stands at the end that the FORM chunk announces:
/// the bytes consumed and the bytes skipped are together the length of the
/// archive, the size that the FORM chunk records and eight bytes more.
pub proof fn lemma_done_at_announced_end(p: ParserModel)
    requires
        parser_ok(p),
        p.state is Done,
        p.chunks.len() > 0,
    ensures
        p.bytes_parsed == announced_len(p.chunks),
        p.chunks[0] matches ChunkModel::Form { file_size, .. } && p.bytes_parsed == file_size + 8,
{
}

} // verus!
