//! Entries of the file tree, the tree they stand for, and the decoder of one
//! entry of the file index.

use vstd::prelude::*;
use vstd::slice::{slice_subrange, slice_to_vec};
use vstd::utf8::{decode_utf8, valid_utf8};
use std::sync::Arc;
use crate::bytes::{le_u16_at, le_u32_at, spec_le_u16, spec_le_u32, Cursor};
use crate::error::{DecodeError, FormatFault};

verus! {

/// Shared-ownership handle to an entry; subtrees may be shared between archives.
pub type RcFileEntry = Arc<FileEntry>;

/// A file or a directory of the archive's tree.
#[derive(Debug, Clone)]
pub struct FileEntry {
    pub name: String,
    pub meta: FileEntryMeta,
}

/// What an entry holds: the children of a folder, or the stored fields of a file.
#[derive(Debug, Clone)]
#[non_exhaustive]
pub enum FileEntryMeta {
    Folder { children: Vec<RcFileEntry> },
    File {
        offset: u32,
        compressed_len: u32,
        decompressed_len: u32,
        unk: u32,
        unk2: u16,
        compressed: u8,
        compression_level: u8,
        timestamp: u32,
    },
}

/// Whether an entry is a folder or a file.
#[derive(Debug, Clone, Copy, PartialEq, Eq, Structural)]
pub enum FileEntryKind {
    Folder,
    File,
}

/// The stored fields of a file entry, as plain values.
#[derive(Debug, Clone, Copy, PartialEq, Eq, Structural)]
pub struct FileInfo {
    pub offset: u32,
    pub compressed_len: u32,
    pub decompressed_len: u32,
    pub unk: u32,
    pub unk2: u16,
    pub compressed: u8,
    pub compression_level: u8,
    pub timestamp: u32,
}

/// The mathematical tree that an entry stands for.
pub enum Node {
    Folder { name: Seq<char>, children: Seq<Node> },
    File { name: Seq<char>, info: FileInfo },
}

/// The name carried by a node.
pub open spec fn node_name(n: Node) -> Seq<char> {
    match n {
        Node::Folder { name, .. } => name,
        Node::File { name, .. } => name,
    }
}

/// The children of a folder node; empty for a file.
pub open spec fn node_children(n: Node) -> Seq<Node> {
    match n {
        Node::Folder { children, .. } => children,
        Node::File { .. } => Seq::empty(),
    }
}

/// No two nodes of `nodes` carry the same name.
pub open spec fn names_unique(nodes: Seq<Node>) -> bool {
    forall|i: int, j: int|
        0 <= i < j < nodes.len() ==> node_name(#[trigger] nodes[i]) != node_name(
            #[trigger] nodes[j],
        )
}

/// The fields of a file obey the format: reserved fields zero, flag 0 or 1, level 0 or 6.
pub open spec fn info_ok(info: FileInfo) -> bool {
    &&& info.unk == 0
    &&& info.unk2 == 0
    &&& info.compressed <= 1
    &&& (info.compression_level == 0 || info.compression_level == 6)
}

/// The tree that `e` stands for.
pub open spec fn model(e: FileEntry) -> Node
    decreases e,
{
    match e.meta {
        FileEntryMeta::Folder { children } => Node::Folder {
            name: e.name@,
            children: Seq::new(
                children@.len(),
                |i: int|
                    if 0 <= i < children@.len() {
                        model(*children@[i])
                    } else {
                        arbitrary()
                    },
            ),
        },
        FileEntryMeta::File {
            offset,
            compressed_len,
            decompressed_len,
            unk,
            unk2,
            compressed,
            compression_level,
            timestamp,
        } => Node::File {
            name: e.name@,
            info: FileInfo {
                offset,
                compressed_len,
                decompressed_len,
                unk,
                unk2,
                compressed,
                compression_level,
                timestamp,
            },
        },
    }
}

/// The trees that a vector of handles stands for, in order.
pub open spec fn models(children: Seq<RcFileEntry>) -> Seq<Node> {
    Seq::new(children.len(), |i: int| model(*children[i]))
}

impl View for FileEntry {
    type V = Node;

    open spec fn view(&self) -> Node {
        model(*self)
    }
}

/// A folder's view lists the views of its children.
pub proof fn lemma_folder_model(e: &FileEntry)
    requires
        e.meta is Folder,
    ensures
        model(*e) == (Node::Folder {
            name: e.name@,
            children: models(e.meta->Folder_children@),
        }),
{
    assert(node_children(model(*e)) =~= models(e.meta->Folder_children@));
}

impl FileEntry {
    /// A folder entry with the given children.
    pub fn folder(name: String, children: Vec<RcFileEntry>) -> (r: FileEntry)
        ensures
            r.name == name,
            r.meta == (FileEntryMeta::Folder { children }),
            r@ == (Node::Folder { name: name@, children: models(children@) }),
    {
        let r = FileEntry { name, meta: FileEntryMeta::Folder { children } };
        proof {
            lemma_folder_model(&r);
        }
        r
    }

    /// A file entry with the given stored fields.
    pub fn file(name: String, info: FileInfo) -> (r: FileEntry)
        ensures
            r.name == name,
            r@ == (Node::File { name: name@, info }),
    {
        FileEntry {
            name,
            meta: FileEntryMeta::File {
                offset: info.offset,
                compressed_len: info.compressed_len,
                decompressed_len: info.decompressed_len,
                unk: info.unk,
                unk2: info.unk2,
                compressed: info.compressed,
                compression_level: info.compression_level,
                timestamp: info.timestamp,
            },
        }
    }

    /// Entry's name
    pub fn name(&self) -> (r: &str)
        ensures
            r@ == node_name(self@),
    {
        self.name.as_str()
    }

    /// What kind of entry this is
    pub fn kind(&self) -> (r: FileEntryKind)
        ensures
            r == self.meta.spec_kind(),
            (r == FileEntryKind::Folder) == (self@ is Folder),
    {
        self.meta.kind()
    }

    /// Entry metadata. For a directory this will contain its children,
    /// and for a file this will contain file metadata.
    pub fn meta(&self) -> (r: &FileEntryMeta)
        ensures
            *r == self.meta,
    {
        &self.meta
    }
}

/// Some node of `nodes` carries the name `name`.
pub open spec fn has_name(nodes: Seq<Node>, name: Seq<char>) -> bool {
    exists|i: int| 0 <= i < nodes.len() && node_name(#[trigger] nodes[i]) == name
}

/// Position of the first handle in `children` whose entry carries the name `name`.
pub fn child_index(children: &Vec<RcFileEntry>, name: &String) -> (r: Option<usize>)
    ensures
        match r {
            Some(i) => i < children@.len() && node_name(models(children@)[i as int]) == name@
                && forall|j: int|
                0 <= j < i ==> node_name(#[trigger] models(children@)[j]) != name@,
            None => !has_name(models(children@), name@),
        },
{
    let mut i: usize = 0;
    while i < children.len()
        invariant
            i <= children@.len(),
            forall|j: int| 0 <= j < i ==> node_name(#[trigger] models(children@)[j]) != name@,
        decreases children@.len() - i,
    {
        if children[i].name == *name {
            return Some(i);
        }
        i += 1;
    }
    None
}

impl FileEntryMeta {
    /// The kind of entry that this metadata belongs to.
    pub open spec fn spec_kind(&self) -> FileEntryKind {
        match *self {
            FileEntryMeta::Folder { .. } => FileEntryKind::Folder,
            FileEntryMeta::File { .. } => FileEntryKind::File,
        }
    }

    /// The kind of entry that this metadata belongs to.
    pub fn kind(&self) -> (r: FileEntryKind)
        ensures
            r == self.spec_kind(),
    {
        match self {
            FileEntryMeta::Folder { .. } => FileEntryKind::Folder,
            FileEntryMeta::File { .. } => FileEntryKind::File,
        }
    }

    /// Adds a child to this file entry. No-op if this is a file
    pub fn push_child(&mut self, child: FileEntry)
        ensures
            match *old(self) {
                FileEntryMeta::Folder { children } => *final(self) matches FileEntryMeta::Folder {
                    children: after,
                } && after@.len() == children@.len() + 1 && after@.subrange(
                    0,
                    children@.len() as int,
                ) == children@ && *after@[children@.len() as int] == child,
                FileEntryMeta::File { .. } => *final(self) == *old(self),
            },
    {
        match self {
            FileEntryMeta::Folder { children } => {
                let ghost before = children@;
                children.push(Arc::new(child));
                assert(children@.subrange(0, before.len() as int) =~= before);
            },
            FileEntryMeta::File { .. } => {},
        }
    }
}

impl FileEntryKind {
    /// The kind that a kind byte of the format stands for, if any.
    pub fn try_from(value: u8) -> (r: Result<FileEntryKind, ()>)
        ensures
            r == (if value == 0 {
                Ok::<FileEntryKind, ()>(FileEntryKind::Folder)
            } else if value == 1 {
                Ok(FileEntryKind::File)
            } else {
                Err(())
            }),
    {
        match value {
            0 => Ok(FileEntryKind::Folder),
            1 => Ok(FileEntryKind::File),
            _ => Err(()),
        }
    }
}

/// `String::from_utf8` of the standard library: it succeeds exactly on valid
/// UTF-8, and the string then holds the characters that the bytes encode.
#[verifier::external_body]
fn string_from_utf8(bytes: Vec<u8>) -> (r: Option<String>)
    ensures
        r is Some <==> valid_utf8(bytes@),
        r matches Some(s) ==> s@ == decode_utf8(bytes@),
{
    String::from_utf8(bytes).ok()
}

/// Number of bytes that follow the name of an entry of the given kind byte.
pub open spec fn entry_body_len(kind: u8) -> nat {
    if kind == 0 {
        4
    } else {
        24
    }
}

/// The stored fields of a file whose body starts at index `at` of `s`.
pub open spec fn spec_file_info(s: Seq<u8>, at: int) -> FileInfo {
    FileInfo {
        offset: spec_le_u32(s, at),
        compressed_len: spec_le_u32(s, at + 4),
        decompressed_len: spec_le_u32(s, at + 8),
        unk: spec_le_u32(s, at + 12),
        unk2: spec_le_u16(s, at + 16),
        compressed: s[at + 18],
        compression_level: s[at + 19],
        timestamp: spec_le_u32(s, at + 20),
    }
}

/// The first fault that the format finds in the fields of a file, if any.
pub open spec fn info_fault(info: FileInfo) -> Option<FormatFault> {
    if info.unk != 0 || info.unk2 != 0 {
        Some(FormatFault::ReservedNotZero)
    } else if info.compressed > 1 {
        Some(FormatFault::BadCompressionFlag)
    } else if info.compression_level != 0 && info.compression_level != 6 {
        Some(FormatFault::BadCompressionLevel)
    } else {
        None
    }
}

/// One decoded entry of the file index.
pub struct EntryRecord {
    /// The entry as a tree node; a folder has no children yet.
    pub node: Node,
    /// The number of children that a folder announces; 0 for a file.
    pub children_count: nat,
    /// The number of bytes that the entry occupies.
    pub consumed: nat,
}

/// What the bytes `rest` hold at their start, read as one entry of the file
/// index: kind, length of the name, name, then the folder's or file's body.
pub open spec fn spec_entry(rest: Seq<u8>) -> Result<EntryRecord, DecodeError> {
    if rest.len() < 1 {
        Err(DecodeError::NeedMore(1))
    } else if rest[0] > 1 {
        Err(DecodeError::Fatal(FormatFault::BadEntryKind))
    } else if rest.len() < 2 {
        Err(DecodeError::NeedMore(1))
    } else {
        let n = rest[1] as int;
        let total = 2 + n + entry_body_len(rest[0]);
        let name_bytes = rest.subrange(2, 2 + n);
        if rest.len() < 2 + n {
            Err(DecodeError::NeedMore((2 + n - rest.len()) as usize))
        } else if !valid_utf8(name_bytes) {
            Err(DecodeError::Fatal(FormatFault::BadName))
        } else if rest.len() < total {
            Err(DecodeError::NeedMore((total - rest.len()) as usize))
        } else if rest[0] == 0 {
            Ok(
                EntryRecord {
                    node: Node::Folder { name: decode_utf8(name_bytes), children: Seq::empty() },
                    children_count: spec_le_u32(rest, 2 + n) as nat,
                    consumed: total as nat,
                },
            )
        } else {
            let info = spec_file_info(rest, 2 + n);
            match info_fault(info) {
                Some(fault) => Err(DecodeError::Fatal(fault)),
                None => Ok(
                    EntryRecord {
                        node: Node::File { name: decode_utf8(name_bytes), info },
                        children_count: 0,
                        consumed: total as nat,
                    },
                ),
            }
        }
    }
}

/// Decodes one entry of the file index at the cursor. On success the cursor
/// has moved past the entry; on any failure it has not moved.
pub fn parse_file_entry(input: &mut Cursor) -> (r: Result<(FileEntry, usize), DecodeError>)
    requires
        old(input).wf(),
    ensures
        final(input).wf(),
        match spec_entry(old(input).rest()) {
            Ok(rec) => r matches Ok((entry, count)) && entry@ == rec.node && count
                == rec.children_count && final(input).advanced_from(
                old(input),
                rec.consumed as int,
            ),
            Err(e) => r == Err::<(FileEntry, usize), DecodeError>(e) && *final(input) == *old(
                input,
            ),
        },
{
    let data = input.data;
    let pos = input.pos;
    let avail = data.len() - pos;
    let ghost rest = input.rest();
    assert(forall|k: int| 0 <= k < avail ==> rest[k] == data@[pos + k]);
    if avail < 1 {
        return Err(DecodeError::NeedMore(1));
    }
    let kind_byte = data[pos];
    if kind_byte > 1 {
        return Err(DecodeError::Fatal(FormatFault::BadEntryKind));
    }
    if avail < 2 {
        return Err(DecodeError::NeedMore(1));
    }
    let n: usize = data[pos + 1] as usize;
    if avail < 2 + n {
        return Err(DecodeError::NeedMore(2 + n - avail));
    }
    let name_slice = slice_subrange(data, pos + 2, pos + 2 + n);
    assert(name_slice@ =~= rest.subrange(2, 2 + n));
    let name = match string_from_utf8(slice_to_vec(name_slice)) {
        Some(name) => name,
        None => {
            return Err(DecodeError::Fatal(FormatFault::BadName));
        },
    };
    let body_len: usize = if kind_byte == 0 {
        4
    } else {
        24
    };
    let total: usize = 2 + n + body_len;
    if avail < total {
        return Err(DecodeError::NeedMore(total - avail));
    }
    let at: usize = pos + 2 + n;
    if kind_byte == 0 {
        let children_count = le_u32_at(data, at);
        let entry = FileEntry::folder(name, Vec::new());
        assert(entry@->Folder_children =~= Seq::<Node>::empty());
        input.pos = pos + total;
        Ok((entry, children_count as usize))
    } else {
        let info = FileInfo {
            offset: le_u32_at(data, at),
            compressed_len: le_u32_at(data, at + 4),
            decompressed_len: le_u32_at(data, at + 8),
            unk: le_u32_at(data, at + 12),
            unk2: le_u16_at(data, at + 16),
            compressed: data[at + 18],
            compression_level: data[at + 19],
            timestamp: le_u32_at(data, at + 20),
        };
        assert(info == spec_file_info(rest, 2 + n));
        if info.unk != 0 || info.unk2 != 0 {
            return Err(DecodeError::Fatal(FormatFault::ReservedNotZero));
        }
        if info.compressed > 1 {
            return Err(DecodeError::Fatal(FormatFault::BadCompressionFlag));
        }
        if info.compression_level != 0 && info.compression_level != 6 {
            return Err(DecodeError::Fatal(FormatFault::BadCompressionLevel));
        }
        input.pos = pos + total;
        Ok((FileEntry::file(name, info), 0))
    }
}

} // verus!
