//! The adapter that maps paths to entries, lists folders and opens files.

use vstd::prelude::*;
use vstd::slice::{slice_subrange, slice_to_vec};
use vstd::string::StringExecFns;
use std::ops::Range;
use std::sync::Arc;
use crate::entry::{
    lemma_folder_model, model, models, node_children, node_name, FileEntryMeta, FileInfo, Node,
    RcFileEntry,
};
use crate::error::PakError;
use crate::pak::PakFile;

verus! {

/// Trait which allows for requesting a file be read into memory.
pub trait Prime {
    /// What the source yields for the range from `start` to `end`: its bytes,
    /// or the failure to hand them out. A source says here what it holds;
    /// of one that does not, nothing is known.
    open spec fn primed(&self, start: usize, end: usize) -> Result<Seq<u8>, PakError> {
        arbitrary()
    }

    /// Request the provided `file_range` be primed and returned.
    fn prime_file(&self, file_range: Range<usize>) -> (r: Result<&[u8], PakError>)
        ensures
            fetched_bytes(r) == self.primed(file_range.start, file_range.end),
    ;
}

/// Whether a path names a file or a directory.
#[derive(Debug, Clone, Copy, PartialEq, Eq, Structural)]
pub enum VfsFileType {
    File,
    Directory,
}

/// What the adapter reports about a path.
#[derive(Debug, Clone, Copy, PartialEq, Eq, Structural)]
pub struct VfsMetadata {
    pub file_type: VfsFileType,
    /// Length of the file's content after decompression, as the archive records it; 0 for a directory.
    pub len: u64,
}

/// One line of the path index: an absolute path and the entry found there.
#[derive(Debug, Clone)]
pub struct IndexItem {
    pub path: String,
    pub entry: RcFileEntry,
}

impl View for IndexItem {
    type V = (Seq<char>, Node);

    open spec fn view(&self) -> (Seq<char>, Node) {
        (self.path@, model(*self.entry))
    }
}

/// The lines of an index as mathematical values.
pub open spec fn items_of(items: Seq<IndexItem>) -> Seq<(Seq<char>, Node)> {
    Seq::new(items.len(), |i: int| items[i]@)
}

/// The path separator.
pub open spec fn slash() -> Seq<char> {
    "/"@
}

/// The absolute path of the child `name` of the folder at `parent`.
pub open spec fn child_path(parent: Seq<char>, name: Seq<char>) -> Seq<char> {
    if parent == slash() {
        parent + name
    } else {
        parent + slash() + name
    }
}

/// The index of the tree `n` placed at `path`: the node itself, then the
/// indexes of its children in order, each at its own path.
pub open spec fn tree_index(path: Seq<char>, n: Node) -> Seq<(Seq<char>, Node)>
    decreases n, node_children(n).len() + 1,
{
    seq![(path, n)] + children_index(path, n, node_children(n).len())
}

/// The indexes of the first `upto` children of the folder `n` placed at `parent`.
pub open spec fn children_index(parent: Seq<char>, n: Node, upto: nat) -> Seq<(Seq<char>, Node)>
    decreases n, upto,
{
    if upto == 0 || upto > node_children(n).len() {
        Seq::empty()
    } else {
        match n {
            Node::Folder { children, .. } => children_index(parent, n, (upto - 1) as nat)
                + tree_index(
                child_path(parent, node_name(children[upto - 1])),
                children[upto - 1],
            ),
            Node::File { .. } => Seq::empty(),
        }
    }
}

/// The path under which `path` is looked up: a missing leading separator is
/// supplied, so the empty path names the root.
pub open spec fn normalized(path: Seq<char>) -> Seq<char> {
    if path.len() > 0 && path[0] == '/' {
        path
    } else {
        slash() + path
    }
}

/// The node that the index holds for `key`: that of the first line with this path.
pub open spec fn lookup(index: Seq<(Seq<char>, Node)>, key: Seq<char>) -> Option<Node>
    decreases index.len(),
{
    if index.len() == 0 {
        None
    } else if index[0].0 == key {
        Some(index[0].1)
    } else {
        lookup(index.skip(1), key)
    }
}

/// Appends the index of the tree `entry`, placed at `path`, to `out`.
fn index_entry(path: String, entry: &RcFileEntry, root_path: &String, out: &mut Vec<IndexItem>)
    requires
        root_path@ == slash(),
    ensures
        items_of(final(out)@) == items_of(old(out)@) + tree_index(path@, model(**entry)),
    decreases **entry,
{
    let ghost before = items_of(out@);
    let ghost n = entry@;
    out.push(IndexItem { path: path.clone(), entry: Arc::clone(entry) });
    assert(items_of(out@) =~= before + seq![(path@, n)]);
    match &entry.meta {
        FileEntryMeta::Folder { children } => {
            proof {
                lemma_folder_model(&**entry);
            }
            let mut i: usize = 0;
            assert(items_of(out@) =~= before + seq![(path@, n)] + children_index(path@, n, 0));
            while i < children.len()
                invariant
                    i <= children@.len(),
                    root_path@ == slash(),
                    n == model(**entry),
                    entry.meta == (FileEntryMeta::Folder { children: *children }),
                    node_children(n) == models(children@),
                    n is Folder,
                    items_of(out@) == before + seq![(path@, n)] + children_index(
                        path@,
                        n,
                        i as nat,
                    ),
                decreases children@.len() - i,
            {
                let child = &children[i];
                let mut p = path.clone();
                if !(path == *root_path) {
                    p.append("/");
                }
                p.append(child.name.as_str());
                assert(p@ =~= child_path(path@, node_name(node_children(n)[i as int])));
                let ghost sofar = items_of(out@);
                index_entry(p, child, root_path, out);
                i += 1;
                assert(items_of(out@) =~= before + seq![(path@, n)] + children_index(
                    path@,
                    n,
                    i as nat,
                ));
            }
        },
        FileEntryMeta::File { .. } => {
            assert(node_children(n).len() == 0);
            assert(items_of(out@) =~= before + tree_index(path@, n));
        },
    }
}

/// Synchronous adapter that serves the files of one archive by path.
#[derive(Debug, Clone)]
pub struct PakVfs<T> {
    pub source: T,
    pub entry_cache: Vec<IndexItem>,
}

/// The index of an archive: that of its root placed at "/", or nothing where
/// the archive has no file index.
pub open spec fn archive_index(root: Option<Node>) -> Seq<(Seq<char>, Node)> {
    match root {
        Some(n) => tree_index(slash(), n),
        None => Seq::empty(),
    }
}

/// What a lookup result means for a request that must name a folder.
pub open spec fn dir_names(found: Option<Node>) -> Result<Seq<Seq<char>>, PakError> {
    match found {
        None => Err(PakError::NotFound),
        Some(Node::File { .. }) => Err(PakError::Unsupported),
        Some(Node::Folder { children, .. }) => Ok(
            Seq::new(children.len(), |i: int| node_name(children[i])),
        ),
    }
}

/// What a lookup result means for a request for metadata.
pub open spec fn metadata_of(found: Option<Node>) -> Result<VfsMetadata, PakError> {
    match found {
        None => Err(PakError::NotFound),
        Some(Node::File { info, .. }) => Ok(
            VfsMetadata { file_type: VfsFileType::File, len: info.decompressed_len as u64 },
        ),
        Some(Node::Folder { .. }) => Ok(VfsMetadata { file_type: VfsFileType::Directory, len: 0 }),
    }
}

/// The names in a list of strings.
pub open spec fn names_of(names: Seq<String>) -> Seq<Seq<char>> {
    Seq::new(names.len(), |i: int| names[i]@)
}

impl<T> PakVfs<T> {
    /// The index as mathematical values.
    pub open spec fn index(&self) -> Seq<(Seq<char>, Node)> {
        items_of(self.entry_cache@)
    }

    /// What the adapter holds at `path`.
    pub open spec fn found(&self, path: Seq<char>) -> Option<Node> {
        lookup(self.index(), normalized(path))
    }

    /// Construct a new `PakVfs` from the provided `source` of bytes and the
    /// archive parsed from it. Every entry of the archive is indexed by its
    /// absolute path.
    pub fn new(source: T, pak: &PakFile) -> (r: Self)
        ensures
            r.source == source,
            r.index() == archive_index(
                match pak.spec_root() {
                    Some(e) => Some(model(*e)),
                    None => None,
                },
            ),
    {
        let mut entry_cache: Vec<IndexItem> = Vec::new();
        assert(items_of(entry_cache@) =~= Seq::empty());
        match pak.root() {
            Some(fs) => {
                let root_path = "/".to_owned();
                index_entry("/".to_owned(), fs, &root_path, &mut entry_cache);
                assert(items_of(entry_cache@) =~= tree_index(slash(), model(**fs)));
            },
            None => {},
        }
        PakVfs { source, entry_cache }
    }

    /// Look up a file entry by its path.
    pub fn entry_at(&self, path: &str) -> (r: Result<&RcFileEntry, PakError>)
        ensures
            match self.found(path@) {
                Some(n) => r matches Ok(e) && model(**e) == n,
                None => r matches Err(got) && got == PakError::NotFound,
            },
    {
        let mut key = if path.unicode_len() > 0 && path.get_char(0) == '/' {
            String::new()
        } else {
            "/".to_owned()
        };
        key.append(path);
        assert(key@ =~= normalized(path@));
        let mut i: usize = 0;
        assert(self.index().skip(0) =~= self.index());
        while i < self.entry_cache.len()
            invariant
                i <= self.entry_cache@.len(),
                key@ == normalized(path@),
                lookup(self.index(), key@) == lookup(self.index().skip(i as int), key@),
            decreases self.entry_cache@.len() - i,
        {
            assert(self.index().skip(i as int).skip(1) =~= self.index().skip(i + 1));
            assert(self.index().skip(i as int)[0] == self.entry_cache@[i as int]@);
            if self.entry_cache[i].path == key {
                return Ok(&self.entry_cache[i].entry);
            }
            i += 1;
        }
        Err(PakError::NotFound)
    }

    /// The names of the children of the folder at `path`, in the archive's order.
    pub fn read_dir(&self, path: &str) -> (r: Result<Vec<String>, PakError>)
        ensures
            match dir_names(self.found(path@)) {
                Ok(names) => r matches Ok(v) && names_of(v@) == names,
                Err(e) => r matches Err(got) && got == e,
            },
    {
        let entry = match self.entry_at(path) {
            Ok(entry) => entry,
            Err(e) => {
                return Err(e);
            },
        };
        match &entry.meta {
            FileEntryMeta::Folder { children } => {
                proof {
                    lemma_folder_model(&**entry);
                }
                let mut names: Vec<String> = Vec::new();
                let mut i: usize = 0;
                while i < children.len()
                    invariant
                        i <= children@.len(),
                        names@.len() == i,
                        forall|k: int|
                            0 <= k < i ==> (#[trigger] names@[k])@ == node_name(
                                models(children@)[k],
                            ),
                    decreases children@.len() - i,
                {
                    names.push(children[i].name.clone());
                    i += 1;
                }
                assert(names_of(names@) =~= dir_names(self.found(path@))->Ok_0);
                Ok(names)
            },
            FileEntryMeta::File { .. } => Err(PakError::Unsupported),
        }
    }

    /// The kind of the entry at `path` and, for a file, the length that the
    /// archive records for its content after decompression.
    pub fn metadata(&self, path: &str) -> (r: Result<VfsMetadata, PakError>)
        ensures
            r == metadata_of(self.found(path@)),
    {
        let entry = match self.entry_at(path) {
            Ok(entry) => entry,
            Err(e) => {
                return Err(e);
            },
        };
        match &entry.meta {
            FileEntryMeta::Folder { .. } => Ok(
                VfsMetadata { file_type: VfsFileType::Directory, len: 0 },
            ),
            FileEntryMeta::File { decompressed_len, .. } => Ok(
                VfsMetadata { file_type: VfsFileType::File, len: *decompressed_len as u64 },
            ),
        }
    }

    /// Whether the archive holds an entry at `path`.
    pub fn has_entry(&self, path: &str) -> (r: bool)
        ensures
            r == self.found(path@).is_some(),
    {
        self.entry_at(path).is_ok()
    }
}

/// What reading a zlib decoder over `data` to its end gives: the bytes that
/// came out, or `None` where the decoder reported an error.
pub uninterp spec fn zlib_decode(data: Seq<u8>) -> Option<Seq<u8>>;

/// The bytes of an optional buffer.
pub open spec fn bytes_of(buffer: Option<Vec<u8>>) -> Option<Seq<u8>> {
    match buffer {
        Some(v) => Some(v@),
        None => None,
    }
}

/// The bytes of a fetched range, or the failure to fetch it.
pub open spec fn fetched_bytes(primed: Result<&[u8], PakError>) -> Result<Seq<u8>, PakError> {
    match primed {
        Ok(b) => Ok(b@),
        Err(e) => Err(e),
    }
}

/// The bytes of a file's content, or the failure to produce it.
pub open spec fn content_bytes(content: Result<Vec<u8>, PakError>) -> Result<Seq<u8>, PakError> {
    match content {
        Ok(v) => Ok(v@),
        Err(e) => Err(e),
    }
}

/// `flate2::read::ZlibDecoder` over `data`, read to its end with
/// `std::io::copy`: the bytes that came out, or `None` where the decoder
/// reported an error. The contract claims only that this outcome depends on
/// the bytes of `data` alone, and gives it the name `zlib_decode`.
#[verifier::external_body]
fn inflate(data: &[u8]) -> (r: Option<Vec<u8>>)
    ensures
        bytes_of(r) == zlib_decode(data@),
{
    let mut out = Vec::new();
    let mut decoder = flate2::read::ZlibDecoder::new(data);
    match std::io::copy(&mut decoder, &mut out) {
        Ok(_) => Some(out),
        Err(_) => None,
    }
}

/// The content of a compressed file whose payload lies at `offset`, given
/// what decoding the payload gave: the decoded bytes where they are as many
/// as the archive records for the content (`decompressed_len`). A payload
/// that does not decode, or decodes to another length, is a decompression
/// failure that names the offset.
pub open spec fn inflated(offset: u32, decompressed_len: u32, decoded: Option<Seq<u8>>) -> Result<
    Seq<u8>,
    PakError,
> {
    match decoded {
        Some(out) => if out.len() == decompressed_len {
            Ok(out)
        } else {
            Err(PakError::Decompression { offset })
        },
        None => Err(PakError::Decompression { offset }),
    }
}

/// Turns the outcome of decoding a payload into the content of the file, or
/// into the failure that names the payload's offset.
pub fn finish_inflate(offset: u32, decompressed_len: u32, outcome: Option<Vec<u8>>) -> (r: Result<
    Vec<u8>,
    PakError,
>)
    ensures
        content_bytes(r) == inflated(offset, decompressed_len, bytes_of(outcome)),
{
    match outcome {
        Some(out) => {
            if out.len() as u64 == decompressed_len as u64 {
                Ok(out)
            } else {
                Err(PakError::Decompression { offset })
            }
        },
        None => Err(PakError::Decompression { offset }),
    }
}

/// The content of the file described by `info`, given what fetching its
/// payload gave: the payload itself where the file is stored, what the
/// payload decodes to where it is compressed, provided that this has the
/// length that the archive records. Only the compression flag decides
/// between the two.
pub open spec fn open_outcome(info: FileInfo, fetched: Result<Seq<u8>, PakError>) -> Result<
    Seq<u8>,
    PakError,
> {
    match fetched {
        Err(e) => Err(e),
        Ok(payload) => if info.compressed == 0 {
            Ok(payload)
        } else {
            inflated(info.offset, info.decompressed_len, zlib_decode(payload))
        },
    }
}

/// Produces the content of the file described by `info` from what fetching
/// its payload gave.
pub fn open_primed(info: FileInfo, primed: Result<&[u8], PakError>) -> (r: Result<
    Vec<u8>,
    PakError,
>)
    ensures
        content_bytes(r) == open_outcome(info, fetched_bytes(primed)),
{
    match primed {
        Err(e) => Err(e),
        Ok(payload) => {
            if info.compressed == 0 {
                Ok(slice_to_vec(payload))
            } else {
                finish_inflate(info.offset, info.decompressed_len, inflate(payload))
            }
        },
    }
}

/// A stored file opens to its payload as fetched, whatever length the
/// archive records for its content.
pub proof fn lemma_stored_opens_raw(info: FileInfo, payload: Seq<u8>)
    requires
        info.compressed == 0,
    ensures
        open_outcome(info, Ok(payload)) == Ok::<Seq<u8>, PakError>(payload),
        metadata_of(Some(Node::File { name: Seq::empty(), info })) == Ok::<VfsMetadata, PakError>(
            VfsMetadata { file_type: VfsFileType::File, len: info.decompressed_len as u64 },
        ),
{
}

/// A file that opens gives exactly as many bytes as the archive records
/// for its content: always where the file is compressed, and where it is
/// stored if the two recorded lengths agree and the payload was fetched in
/// full.
pub proof fn lemma_open_length(info: FileInfo, fetched: Result<Seq<u8>, PakError>)
    requires
        info.compressed == 0 ==> info.compressed_len == info.decompressed_len && (
        fetched matches Ok(payload) ==> payload.len() == info.compressed_len),
    ensures
        open_outcome(info, fetched) matches Ok(content) ==> content.len() == info.decompressed_len,
{
}

/// A compressed payload that decodes to another length than the archive
/// records does not open.
pub proof fn lemma_wrong_length_does_not_open(info: FileInfo, payload: Seq<u8>)
    requires
        info.compressed != 0,
        zlib_decode(payload) matches Some(out) && out.len() != info.decompressed_len,
    ensures
        open_outcome(info, Ok(payload)) == Err::<Seq<u8>, PakError>(
            PakError::Decompression { offset: info.offset },
        ),
{
}

/// What a lookup result means for a request that must name a file.
pub open spec fn file_info_of(found: Option<Node>) -> Result<FileInfo, PakError> {
    match found {
        None => Err(PakError::NotFound),
        Some(Node::Folder { .. }) => Err(PakError::Unsupported),
        Some(Node::File { info, .. }) => Ok(info),
    }
}

/// Whether the payload of the file described by `info` lies in a range
/// that can be asked for.
pub open spec fn payload_fits(info: FileInfo) -> bool {
    info.offset + info.compressed_len <= usize::MAX
}

/// The range of the archive that holds the payload of the file described
/// by `info`: from its offset over its stored length.
pub fn payload_range(info: FileInfo) -> (r: Option<Range<usize>>)
    ensures
        r is Some == payload_fits(info),
        r matches Some(range) ==> range.start == info.offset && range.end == info.offset
            + info.compressed_len,
{
    let end: u64 = info.offset as u64 + info.compressed_len as u64;
    if end > usize::MAX as u64 {
        None
    } else {
        Some((info.offset as usize)..(end as usize))
    }
}

/// The payload of the file described by `info` as the bytes `source` of the
/// whole archive hold it: the range from its offset over its stored length.
/// A range that leaves the source is an I/O failure.
pub open spec fn payload_in(source: Seq<u8>, info: FileInfo) -> Result<Seq<u8>, PakError> {
    if info.offset + info.compressed_len <= source.len() {
        Ok(source.subrange(info.offset as int, info.offset + info.compressed_len))
    } else {
        Err(PakError::Io)
    }
}

impl<T> PakVfs<T> {
    /// The stored fields of the file at `path`.
    pub fn file_info(&self, path: &str) -> (r: Result<FileInfo, PakError>)
        ensures
            r == file_info_of(self.found(path@)),
    {
        let entry = match self.entry_at(path) {
            Ok(entry) => entry,
            Err(e) => {
                return Err(e);
            },
        };
        match &entry.meta {
            FileEntryMeta::Folder { .. } => Err(PakError::Unsupported),
            FileEntryMeta::File {
                offset,
                compressed_len,
                decompressed_len,
                unk,
                unk2,
                compressed,
                compression_level,
                timestamp,
            } => Ok(
                FileInfo {
                    offset: *offset,
                    compressed_len: *compressed_len,
                    decompressed_len: *decompressed_len,
                    unk: *unk,
                    unk2: *unk2,
                    compressed: *compressed,
                    compression_level: *compression_level,
                    timestamp: *timestamp,
                },
            ),
        }
    }

    /// Creating a directory would modify the archive.
    pub fn create_dir(&self, _path: &str) -> (r: Result<(), PakError>)
        ensures
            r == Err::<(), PakError>(PakError::Unsupported),
    {
        Err(PakError::Unsupported)
    }

    /// Creating a file would modify the archive.
    pub fn create_file(&self, _path: &str) -> (r: Result<(), PakError>)
        ensures
            r == Err::<(), PakError>(PakError::Unsupported),
    {
        Err(PakError::Unsupported)
    }

    /// Appending to a file would modify the archive.
    pub fn append_file(&self, _path: &str) -> (r: Result<(), PakError>)
        ensures
            r == Err::<(), PakError>(PakError::Unsupported),
    {
        Err(PakError::Unsupported)
    }

    /// The archive records no creation time; `_time` is in seconds since the Unix epoch.
    pub fn set_creation_time(&self, _path: &str, _time: u64) -> (r: Result<(), PakError>)
        ensures
            r == Err::<(), PakError>(PakError::Unsupported),
    {
        Err(PakError::Unsupported)
    }

    /// The archive cannot be modified; `_time` is in seconds since the Unix epoch.
    pub fn set_modification_time(&self, _path: &str, _time: u64) -> (r: Result<(), PakError>)
        ensures
            r == Err::<(), PakError>(PakError::Unsupported),
    {
        Err(PakError::Unsupported)
    }

    /// The archive records no access time; `_time` is in seconds since the Unix epoch.
    pub fn set_access_time(&self, _path: &str, _time: u64) -> (r: Result<(), PakError>)
        ensures
            r == Err::<(), PakError>(PakError::Unsupported),
    {
        Err(PakError::Unsupported)
    }

    /// Removing a file would modify the archive.
    pub fn remove_file(&self, _path: &str) -> (r: Result<(), PakError>)
        ensures
            r == Err::<(), PakError>(PakError::Unsupported),
    {
        Err(PakError::Unsupported)
    }

    /// Removing a directory would modify the archive.
    pub fn remove_dir(&self, _path: &str) -> (r: Result<(), PakError>)
        ensures
            r == Err::<(), PakError>(PakError::Unsupported),
    {
        Err(PakError::Unsupported)
    }

    /// Copying a file would modify the archive.
    pub fn copy_file(&self, _src: &str, _dest: &str) -> (r: Result<(), PakError>)
        ensures
            r == Err::<(), PakError>(PakError::Unsupported),
    {
        Err(PakError::Unsupported)
    }

    /// Moving a file would modify the archive.
    pub fn move_file(&self, _src: &str, _dest: &str) -> (r: Result<(), PakError>)
        ensures
            r == Err::<(), PakError>(PakError::Unsupported),
    {
        Err(PakError::Unsupported)
    }

    /// Moving a directory would modify the archive.
    pub fn move_dir(&self, _src: &str, _dest: &str) -> (r: Result<(), PakError>)
        ensures
            r == Err::<(), PakError>(PakError::Unsupported),
    {
        Err(PakError::Unsupported)
    }
}

impl<T: Prime> PakVfs<T> {
    /// What the adapter's own source yields for the payload of the file
    /// described by `info`: what it yields for the range from the file's
    /// offset over its stored length. A range that cannot be asked for is
    /// an I/O failure.
    pub open spec fn payload(&self, info: FileInfo) -> Result<Seq<u8>, PakError> {
        if payload_fits(info) {
            self.source.primed(
                info.offset as usize,
                (info.offset + info.compressed_len) as usize,
            )
        } else {
            Err(PakError::Io)
        }
    }

    /// The content that opening `path` gives: a missing path is not found,
    /// a folder cannot be opened, and a file gives what its payload, as the
    /// adapter's own source yields it, opens to.
    pub open spec fn opened(&self, path: Seq<char>) -> Result<Seq<u8>, PakError> {
        match file_info_of(self.found(path)) {
            Err(e) => Err(e),
            Ok(info) => open_outcome(info, self.payload(info)),
        }
    }

    /// The content of the file at `path`: its payload is fetched from the
    /// source and, where the file is compressed, decoded. The source is
    /// asked once, for the range from the file's offset over its stored
    /// length, and only where the path names a file.
    pub fn open_file(&self, path: &str) -> (r: Result<Vec<u8>, PakError>)
        ensures
            content_bytes(r) == self.opened(path@),
            file_info_of(self.found(path@)) matches Ok(info) && !payload_fits(info) ==> (r matches Err(
                e,
            ) && e == PakError::Io),
    {
        let info = match self.file_info(path) {
            Ok(info) => info,
            Err(e) => {
                return Err(e);
            },
        };
        let range = match payload_range(info) {
            Some(range) => range,
            None => {
                return Err(PakError::Io);
            },
        };
        open_primed(info, self.source.prime_file(range))
    }
}

impl<'a> PakVfs<BytesPakFileWrapper<'a>> {
    /// The content of the file at `path` of an archive that lies in memory:
    /// what `open_file` gives, said over the bytes of the source.
    pub fn read_file(&self, path: &str) -> (r: Result<Vec<u8>, PakError>)
        ensures
            content_bytes(r) == self.opened(path@),
            content_bytes(r) == match file_info_of(self.found(path@)) {
                Err(e) => Err(e),
                Ok(info) => open_outcome(info, payload_in(self.source.source@, info)),
            },
    {
        let total = self.source.source.len();
        assert(self.source.source@.len() == total);
        self.open_file(path)
    }
}

/// An archive together with the bytes it was parsed from and the path they came from.
#[derive(Debug)]
pub struct BytesPakFileWrapper<'a> {
    pub path: String,
    pub source: &'a [u8],
    pub pak_file: PakFile,
}

impl<'a> BytesPakFileWrapper<'a> {
    /// Puts an archive together with its bytes and the path they came from.
    pub fn new(path: String, source: &'a [u8], pak_file: PakFile) -> (r: Self)
        ensures
            r.path == path,
            r.source == source,
            r.pak_file == pak_file,
    {
        Self { path, source, pak_file }
    }

    /// The path that the bytes came from.
    pub fn path(&self) -> (r: &str)
        ensures
            r@ == self.path@,
    {
        self.path.as_str()
    }

    /// The parsed archive.
    pub fn pak_file(&self) -> (r: &PakFile)
        ensures
            *r == self.pak_file,
    {
        &self.pak_file
    }

    /// The parsed archive, to be changed in place.
    pub fn pak_file_mut(&mut self) -> (r: &mut PakFile)
        ensures
            *r == old(self).pak_file,
            final(self).pak_file == *final(r),
            final(self).path == old(self).path,
            final(self).source == old(self).source,
    {
        &mut self.pak_file
    }

    /// The bytes that the archive was parsed from.
    pub fn source(&self) -> (r: &'a [u8])
        ensures
            r == self.source,
    {
        self.source
    }
}

impl<'a> Prime for BytesPakFileWrapper<'a> {
    /// The bytes of the source in the range; a range that does not lie
    /// inside the source is an I/O failure.
    open spec fn primed(&self, start: usize, end: usize) -> Result<Seq<u8>, PakError> {
        if start <= end <= self.source@.len() {
            Ok(self.source@.subrange(start as int, end as int))
        } else {
            Err(PakError::Io)
        }
    }

    /// The bytes of the range, borrowed from the source; a range that does
    /// not lie inside the source is an I/O failure.
    fn prime_file(&self, file_range: Range<usize>) -> (r: Result<&[u8], PakError>) {
        if file_range.start <= file_range.end && file_range.end <= self.source.len() {
            Ok(slice_subrange(self.source, file_range.start, file_range.end))
        } else {
            Err(PakError::Io)
        }
    }
}

/// The tree `n`, placed at `path`, holds the node `m` at the path `p`: the
/// two are `n` and `path` themselves, or some child of `n`, placed at its
/// own path, holds `m` at `p`.
pub open spec fn holds_at(path: Seq<char>, n: Node, p: Seq<char>, m: Node) -> bool
    decreases n,
{
    (p == path && m == n) || (n is Folder && exists|k: int|
        0 <= k < node_children(n).len() && holds_at(
            child_path(path, node_name(#[trigger] node_children(n)[k])),
            node_children(n)[k],
            p,
            m,
        ))
}

/// `line` is one of the lines of `index`.
pub open spec fn is_line(index: Seq<(Seq<char>, Node)>, line: (Seq<char>, Node)) -> bool {
    exists|i: int| 0 <= i < index.len() && #[trigger] index[i] == line
}

/// The lines that the first `upto` children of a folder contribute are the
/// lines of the indexes of these children.
pub proof fn lemma_children_lines(
    parent: Seq<char>,
    n: Node,
    upto: nat,
    line: (Seq<char>, Node),
)
    requires
        n is Folder,
        upto <= node_children(n).len(),
    ensures
        is_line(children_index(parent, n, upto), line) <==> exists|k: int|
            0 <= k < upto && #[trigger] is_line(
                tree_index(
                    child_path(parent, node_name(node_children(n)[k])),
                    node_children(n)[k],
                ),
                line,
            ),
    decreases upto,
{
    let children = node_children(n);
    if upto > 0 {
        let before = children_index(parent, n, (upto - 1) as nat);
        let last = tree_index(child_path(parent, node_name(children[upto - 1])), children[upto - 1]);
        let all = children_index(parent, n, upto);
        assert(all == before + last);
        lemma_children_lines(parent, n, (upto - 1) as nat, line);
        if is_line(all, line) {
            let i = choose|i: int| 0 <= i < all.len() && #[trigger] all[i] == line;
            if i < before.len() {
                assert(before[i] == line);
                assert(is_line(before, line));
            } else {
                assert(last[i - before.len()] == line);
                assert(is_line(last, line));
            }
        }
        if is_line(before, line) {
            let i = choose|i: int| 0 <= i < before.len() && #[trigger] before[i] == line;
            assert(all[i] == line);
        }
        if is_line(last, line) {
            let i = choose|i: int| 0 <= i < last.len() && #[trigger] last[i] == line;
            assert(all[before.len() + i] == line);
        }
    }
}

/// The index of a tree holds exactly the nodes of the tree, each at its
/// absolute path: a pair of a path and a node is a line of the index if and
/// only if the tree holds the node at the path.
pub proof fn lemma_index_lists_the_tree(path: Seq<char>, n: Node, p: Seq<char>, m: Node)
    ensures
        is_line(tree_index(path, n), (p, m)) <==> holds_at(path, n, p, m),
    decreases n,
{
    let index = tree_index(path, n);
    let own = seq![(path, n)];
    let below = children_index(path, n, node_children(n).len());
    assert(index == own + below);
    assert(own[0] == (path, n));
    if is_line(index, (p, m)) {
        let i = choose|i: int| 0 <= i < index.len() && #[trigger] index[i] == (p, m);
        if i > 0 {
            assert(below[i - 1] == (p, m));
            assert(is_line(below, (p, m)));
        }
    }
    if is_line(below, (p, m)) {
        let i = choose|i: int| 0 <= i < below.len() && #[trigger] below[i] == (p, m);
        assert(index[i + 1] == (p, m));
    }
    if p == path && m == n {
        assert(index[0] == (p, m));
    }
    if n is Folder {
        let children = node_children(n);
        lemma_children_lines(path, n, children.len(), (p, m));
        if is_line(below, (p, m)) {
            let k = choose|k: int|
                0 <= k < children.len() && #[trigger] is_line(
                    tree_index(
                        child_path(path, node_name(node_children(n)[k])),
                        node_children(n)[k],
                    ),
                    (p, m),
                );
            lemma_index_lists_the_tree(
                child_path(path, node_name(node_children(n)[k])),
                node_children(n)[k],
                p,
                m,
            );
            assert(holds_at(
                child_path(path, node_name(node_children(n)[k])),
                node_children(n)[k],
                p,
                m,
            ));
            assert(holds_at(path, n, p, m));
        }
        if holds_at(path, n, p, m) && !(p == path && m == n) {
            let k = choose|k: int|
                0 <= k < node_children(n).len() && holds_at(
                    child_path(path, node_name(#[trigger] node_children(n)[k])),
                    node_children(n)[k],
                    p,
                    m,
                );
            lemma_index_lists_the_tree(
                child_path(path, node_name(node_children(n)[k])),
                node_children(n)[k],
                p,
                m,
            );
            assert(is_line(
                tree_index(
                    child_path(path, node_name(node_children(n)[k])),
                    node_children(n)[k],
                ),
                (p, m),
            ));
            assert(is_line(below, (p, m)));
        }
    } else {
        assert(below.len() == 0);
    }
}

/// What a lookup finds is a line of the index, and a path that the index
/// lists is found.
pub proof fn lemma_lookup_finds_lines(index: Seq<(Seq<char>, Node)>, key: Seq<char>)
    ensures
        lookup(index, key) matches Some(n) ==> is_line(index, (key, n)),
        lookup(index, key) is None ==> forall|i: int|
            0 <= i < index.len() ==> (#[trigger] index[i]).0 != key,
    decreases index.len(),
{
    if index.len() > 0 {
        if index[0].0 == key {
            assert(index[0] == (key, index[0].1));
        } else {
            let rest = index.skip(1);
            lemma_lookup_finds_lines(rest, key);
            match lookup(rest, key) {
                Some(n) => {
                    let i = choose|i: int| 0 <= i < rest.len() && #[trigger] rest[i] == (key, n);
                    assert(index[i + 1] == (key, n));
                },
                None => {
                    assert forall|i: int| 0 <= i < index.len() implies (#[trigger] index[i]).0
                        != key by {
                        if i > 0 {
                            assert(rest[i - 1] == index[i]);
                        }
                    }
                },
            }
        }
    }
}

/// An adapter finds at a path only what the archive's tree holds there, and
/// it finds something at every path at which the tree holds a node. In
/// particular the root is found at "/" and at the empty path.
pub proof fn lemma_found_is_in_the_tree(root: Node, path: Seq<char>)
    ensures
        lookup(tree_index(slash(), root), normalized(path)) matches Some(n) ==> holds_at(
            slash(),
            root,
            normalized(path),
            n,
        ),
        (exists|m: Node| holds_at(slash(), root, normalized(path), m)) ==> lookup(
            tree_index(slash(), root),
            normalized(path),
        ) is Some,
        lookup(tree_index(slash(), root), slash()) == Some(root),
{
    let index = tree_index(slash(), root);
    let key = normalized(path);
    lemma_lookup_finds_lines(index, key);
    match lookup(index, key) {
        Some(n) => {
            lemma_index_lists_the_tree(slash(), root, key, n);
        },
        None => {
            if exists|m: Node| holds_at(slash(), root, key, m) {
                let m = choose|m: Node| holds_at(slash(), root, key, m);
                lemma_index_lists_the_tree(slash(), root, key, m);
                let i = choose|i: int| 0 <= i < index.len() && #[trigger] index[i] == (key, m);
                assert(index[i].0 == key);
            }
        },
    }
    assert(index[0] == (slash(), root));
}

} // verus!
