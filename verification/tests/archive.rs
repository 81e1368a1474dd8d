use enfusion_pak::bytes::Cursor;
use enfusion_pak::error::{FormatFault, PakError};
use enfusion_pak::cache::shared_bytes;
use enfusion_pak::overlay::Overlay;
use enfusion_pak::source::{
    feed_window, next_window, parse_pak_file, CachingPakFileWrapper, Fed, ReadAt, WINDOW,
};
use std::cell::Cell;
use enfusion_pak::pak_vfs::{
    finish_inflate, open_primed, payload_range, BytesPakFileWrapper, PakVfs, Prime, VfsFileType,
    VfsMetadata,
};
use enfusion_pak::FileInfo;
use enfusion_pak::{Chunk, FileEntryKind, FileEntryMeta, PakFile, PakParser, ParserStateMachine};

fn folder(name: &str, children: u32) -> Vec<u8> {
    let mut out = vec![0u8, name.len() as u8];
    out.extend_from_slice(name.as_bytes());
    out.extend_from_slice(&children.to_le_bytes());
    out
}

fn file(name: &str, offset: u32, c_len: u32, d_len: u32, flag: u8, level: u8, ts: u32) -> Vec<u8> {
    let mut out = vec![1u8, name.len() as u8];
    out.extend_from_slice(name.as_bytes());
    out.extend_from_slice(&offset.to_le_bytes());
    out.extend_from_slice(&c_len.to_le_bytes());
    out.extend_from_slice(&d_len.to_le_bytes());
    out.extend_from_slice(&0u32.to_le_bytes());
    out.extend_from_slice(&0u16.to_le_bytes());
    out.push(flag);
    out.push(level);
    out.extend_from_slice(&ts.to_le_bytes());
    out
}

fn head() -> Vec<u8> {
    let mut out = b"HEAD".to_vec();
    out.extend_from_slice(&0x1Cu32.to_be_bytes());
    out.extend_from_slice(&1u32.to_le_bytes());
    out.extend_from_slice(&[0u8; 0x18]);
    out
}

fn data(payload: &[u8]) -> Vec<u8> {
    let mut out = b"DATA".to_vec();
    out.extend_from_slice(&(payload.len() as u32).to_be_bytes());
    out.extend_from_slice(payload);
    out
}

fn index(entries: &[Vec<u8>]) -> Vec<u8> {
    let body: Vec<u8> = entries.concat();
    let mut out = b"FILE".to_vec();
    out.extend_from_slice(&(body.len() as u32).to_be_bytes());
    out.extend_from_slice(&body);
    out
}

fn archive(chunks: &[Vec<u8>]) -> Vec<u8> {
    let body: Vec<u8> = chunks.concat();
    let mut out = b"FORM".to_vec();
    out.extend_from_slice(&((body.len() + 4) as u32).to_be_bytes());
    out.extend_from_slice(b"PAC1");
    out.extend_from_slice(&body);
    out
}

fn zlib(content: &[u8]) -> Vec<u8> {
    let mut encoder =
        flate2::write::ZlibEncoder::new(Vec::new(), flate2::Compression::default());
    std::io::Write::write_all(&mut encoder, content).unwrap();
    encoder.finish().unwrap()
}

/// An archive with one file "a.txt" whose payload lies at offset 0x40.
fn one_file_archive(payload: &[u8], d_len: u32, flag: u8) -> Vec<u8> {
    let mut block = vec![0u8; 8];
    block.extend_from_slice(payload);
    let bytes = archive(&[
        head(),
        data(&block),
        index(&[
            folder("", 1),
            file("a.txt", 0x40, payload.len() as u32, d_len, flag, if flag == 1 { 6 } else { 0 }, 0),
        ]),
    ]);
    assert_eq!(&bytes[0x40..0x40 + payload.len()], payload);
    bytes
}

fn nested_archive() -> Vec<u8> {
    archive(&[
        head(),
        data(b"0123456789abcdef"),
        index(&[folder("", 1), folder("dir", 1), file("x", 0x38, 4, 4, 0, 0, 0)]),
    ])
}

fn fault_of(bytes: &[u8]) -> (usize, FormatFault) {
    match PakFile::parse(bytes) {
        Err(PakError::ParseFormat { offset, fault }) => (offset, fault),
        other => panic!("expected a format error, got {:?}", other.map(|pak| pak.chunks.len())),
    }
}

fn root_children(pak: &PakFile) -> Vec<String> {
    match pak.file_chunk() {
        Some(Chunk::File { fs }) => match fs.meta() {
            FileEntryMeta::Folder { children } => {
                children.iter().map(|child| child.name().to_string()).collect()
            }
            _ => panic!("the root is a file"),
        },
        _ => panic!("no file index"),
    }
}

#[test]
fn minimal_archive() {
    let bytes = archive(&[head(), index(&[folder("", 0)])]);
    assert_eq!(bytes.len(), 12 + 36 + 8 + 6);
    let pak = PakFile::parse(&bytes).unwrap();
    assert_eq!(pak.chunks().len(), 3);
    assert!(matches!(pak.chunks()[0], Chunk::Form { file_size: 54, .. }));
    assert!(matches!(&pak.chunks()[1], Chunk::Head { version: 1, unknown_data } if *unknown_data == (24..48)));
    match pak.file_chunk() {
        Some(Chunk::File { fs }) => {
            assert_eq!(fs.name(), "Root");
            assert_eq!(fs.kind(), FileEntryKind::Folder);
        }
        _ => panic!("no file index"),
    }
    assert!(root_children(&pak).is_empty());
    let vfs = PakVfs::new((), &pak);
    assert_eq!(
        vfs.metadata("/"),
        Ok(VfsMetadata { file_type: VfsFileType::Directory, len: 0 })
    );
    assert_eq!(vfs.metadata(""), vfs.metadata("/"));
    assert_eq!(vfs.read_dir("/"), Ok(vec![]));
}

#[test]
fn minimal_archive_with_wrong_sizes_is_rejected() {
    let mut bytes = b"FORM".to_vec();
    bytes.extend_from_slice(&0x12u32.to_be_bytes());
    bytes.extend_from_slice(b"PAC1");
    bytes.extend_from_slice(&head());
    bytes.extend_from_slice(b"FILE");
    bytes.extend_from_slice(&9u32.to_be_bytes());
    bytes.extend_from_slice(&[0, 0, 1, 0, 0, 0, 0, 0, 0]);
    assert_eq!(fault_of(&bytes), (12, FormatFault::LengthMismatch));
}

#[test]
fn single_stored_file() {
    let bytes = one_file_archive(b"hello", 5, 0);
    let pak = PakFile::parse(&bytes).unwrap();
    assert_eq!(root_children(&pak), vec!["a.txt".to_string()]);
    let vfs = PakVfs::new(BytesPakFileWrapper::new("one.pak".to_string(), &bytes, PakFile::parse(&bytes).unwrap()), &pak);
    assert_eq!(vfs.read_file("/a.txt"), Ok(b"hello".to_vec()));
    assert_eq!(vfs.open_file("/a.txt"), Ok(b"hello".to_vec()));
    assert_eq!(vfs.open_file("a.txt"), Ok(b"hello".to_vec()));
    assert_eq!(vfs.metadata("/a.txt"), Ok(VfsMetadata { file_type: VfsFileType::File, len: 5 }));
    assert_eq!(vfs.open_file("/"), Err(PakError::Unsupported));
    assert_eq!(vfs.open_file("/b.txt"), Err(PakError::NotFound));
    assert_eq!(vfs.read_dir("/a.txt"), Err(PakError::Unsupported));
    assert_eq!(vfs.read_dir("/nothing"), Err(PakError::NotFound));
    assert_eq!(vfs.metadata("/nothing"), Err(PakError::NotFound));
}

#[test]
fn single_compressed_file() {
    let payload = zlib(b"hello");
    assert_eq!(payload.len(), 13);
    let bytes = one_file_archive(&payload, 5, 1);
    let pak = PakFile::parse(&bytes).unwrap();
    let vfs = PakVfs::new(BytesPakFileWrapper::new(String::new(), &bytes, PakFile::parse(&bytes).unwrap()), &pak);
    assert_eq!(vfs.open_file("/a.txt"), Ok(b"hello".to_vec()));
    assert_eq!(vfs.read_file("/a.txt"), Ok(b"hello".to_vec()));
    assert_eq!(vfs.read_file("/a.txt").unwrap().len() as u64, vfs.metadata("/a.txt").unwrap().len);
}

#[test]
fn wrong_zlib_bytes_are_a_decompression_error() {
    let bytes = one_file_archive(b"not a zlib st", 5, 1);
    let pak = PakFile::parse(&bytes).unwrap();
    let vfs = PakVfs::new(BytesPakFileWrapper::new(String::new(), &bytes, PakFile::parse(&bytes).unwrap()), &pak);
    assert_eq!(vfs.open_file("/a.txt"), Err(PakError::Decompression { offset: 0x40 }));
    assert_eq!(vfs.read_file("/a.txt"), Err(PakError::Decompression { offset: 0x40 }));
}

#[test]
fn stored_file_with_other_recorded_length_opens_raw() {
    let bytes = one_file_archive(b"hello", 9, 0);
    let pak = PakFile::parse(&bytes).unwrap();
    let vfs = PakVfs::new(BytesPakFileWrapper::new(String::new(), &bytes, PakFile::parse(&bytes).unwrap()), &pak);
    assert_eq!(vfs.read_file("/a.txt"), Ok(b"hello".to_vec()));
    assert_eq!(vfs.metadata("/a.txt"), Ok(VfsMetadata { file_type: VfsFileType::File, len: 9 }));
}

#[test]
fn payload_outside_the_source_is_an_io_error() {
    let bytes = one_file_archive(b"hello", 5, 0);
    let pak = PakFile::parse(&bytes).unwrap();
    let short = &bytes[..0x42];
    let vfs = PakVfs::new(BytesPakFileWrapper::new(String::new(), short, PakFile::parse(&bytes).unwrap()), &pak);
    assert_eq!(vfs.read_file("/a.txt"), Err(PakError::Io));
    assert_eq!(vfs.open_file("/a.txt"), Err(PakError::Io));
    let wrapper = BytesPakFileWrapper::new(String::new(), &bytes, PakFile::parse(&bytes).unwrap());
    assert_eq!(wrapper.prime_file(0x40..0x45), Ok(&b"hello"[..]));
    assert_eq!(wrapper.prime_file(0..bytes.len() + 1), Err(PakError::Io));
}

#[test]
fn nested_directories() {
    let bytes = nested_archive();
    let pak = PakFile::parse(&bytes).unwrap();
    let vfs = PakVfs::new((), &pak);
    assert_eq!(vfs.read_dir("/"), Ok(vec!["dir".to_string()]));
    assert_eq!(vfs.read_dir("/dir"), Ok(vec!["x".to_string()]));
    assert_eq!(vfs.read_dir("dir"), Ok(vec!["x".to_string()]));
    assert!(vfs.has_entry("/dir/x"));
    assert!(!vfs.has_entry("/dir/y"));
    assert!(vfs.has_entry(""));
    assert_eq!(vfs.entry_at("/dir/x").map(|e| e.name().to_string()), Ok("x".to_string()));
    assert_eq!(vfs.entry_cache.len(), 3);
    assert_eq!(vfs.entry_cache[0].path, "/");
    assert_eq!(vfs.entry_cache[1].path, "/dir");
    assert_eq!(vfs.entry_cache[2].path, "/dir/x");
}

#[test]
fn mutating_operations_are_unsupported() {
    let bytes = nested_archive();
    let pak = PakFile::parse(&bytes).unwrap();
    let vfs = PakVfs::new((), &pak);
    assert_eq!(vfs.create_dir("/new"), Err(PakError::Unsupported));
    assert_eq!(vfs.remove_file("/dir/x"), Err(PakError::Unsupported));
    assert_eq!(vfs.remove_dir("/dir"), Err(PakError::Unsupported));
    assert_eq!(vfs.copy_file("/dir/x", "/y"), Err(PakError::Unsupported));
    assert_eq!(vfs.move_file("/dir/x", "/y"), Err(PakError::Unsupported));
    assert_eq!(vfs.move_dir("/dir", "/d"), Err(PakError::Unsupported));
    assert_eq!(vfs.create_file("/new.txt"), Err(PakError::Unsupported));
    assert_eq!(vfs.append_file("/dir/x"), Err(PakError::Unsupported));
    assert_eq!(vfs.set_creation_time("/dir/x", 0), Err(PakError::Unsupported));
    assert_eq!(vfs.set_modification_time("/dir/x", 1), Err(PakError::Unsupported));
    assert_eq!(vfs.set_access_time("/dir/x", 2), Err(PakError::Unsupported));
    assert!(vfs.has_entry("/dir/x"));
}

#[test]
fn parsing_twice_gives_equal_archives() {
    let bytes = nested_archive();
    let first = PakFile::parse(&bytes).unwrap();
    let second = PakFile::parse(&bytes).unwrap();
    assert_eq!(format!("{:?}", first), format!("{:?}", second));
}

#[test]
fn chunks_come_in_source_order() {
    let bytes = nested_archive();
    let pak = PakFile::parse(&bytes).unwrap();
    assert_eq!(pak.chunks().len(), 4);
    assert!(matches!(pak.chunks()[0], Chunk::Form { .. }));
    assert!(matches!(pak.chunks()[1], Chunk::Head { .. }));
    assert!(matches!(&pak.chunks()[2], Chunk::Data { data } if *data == (56..72)));
    assert!(matches!(pak.chunks()[3], Chunk::File { .. }));
    assert_eq!(pak.file_chunk_index(), Some(3));
}

#[test]
fn file_chunk_mut_reaches_the_index() {
    let bytes = nested_archive();
    let mut pak = PakFile::parse(&bytes).unwrap();
    match pak.file_chunk_mut() {
        Some(chunk) => *chunk = Chunk::Unknown(7),
        None => panic!("no file index"),
    }
    assert!(pak.file_chunk().is_none());
    assert!(matches!(pak.chunks()[3], Chunk::Unknown(7)));
    pak.chunks_mut().pop();
    assert_eq!(pak.chunks().len(), 3);
}

fn drive_with_window(bytes: &[u8], window: usize) -> (PakFile, usize) {
    let mut parser = PakParser::new();
    loop {
        let at = parser.bytes_parsed();
        let end = (at + window).min(bytes.len());
        let mut input = Cursor::new(&bytes[at.min(bytes.len())..end]);
        match parser.parse(&mut input) {
            Ok(ParserStateMachine::Done(pak)) => return (pak, at + input.position()),
            Ok(ParserStateMachine::Skip { from, count, parser: next }) => {
                assert_eq!(from + count, next.bytes_parsed());
                parser = next;
            }
            Ok(ParserStateMachine::Continue(next)) => {
                assert!(next.bytes_parsed() > at, "the window is too small to make progress");
                parser = next;
            }
            Ok(ParserStateMachine::Loop(_)) => panic!("a step that made no progress"),
            Err(e) => panic!("{:?}", e),
        }
    }
}

#[test]
fn streaming_with_skip() {
    let mut payload = vec![0u8; 200_000];
    payload[8..13].copy_from_slice(b"hello");
    let entries: Vec<Vec<u8>> = std::iter::once(folder("", 300))
        .chain((0..300).map(|i| file(&format!("file{i}"), 0x40, 5, 5, 0, 0, 0)))
        .collect();
    let bytes = archive(&[head(), data(&payload), index(&entries)]);
    let (streamed, parsed) = drive_with_window(&bytes, 64 * 1024);
    let whole = PakFile::parse(&bytes).unwrap();
    assert_eq!(format!("{:?}", streamed), format!("{:?}", whole));
    assert_eq!(parsed, bytes.len());
    assert_eq!(root_children(&streamed).len(), 300);
}

#[test]
fn one_byte_at_a_time() {
    let bytes = nested_archive();
    let mut parser = PakParser::new();
    let mut buffer: Vec<u8> = Vec::new();
    let mut fed = 0usize;
    let mut to_skip = 0usize;
    let streamed = loop {
        let mut input = Cursor::new(&buffer);
        match parser.parse(&mut input) {
            Ok(ParserStateMachine::Done(pak)) => break pak,
            Ok(ParserStateMachine::Skip { count, parser: next, .. }) => {
                let used = input.position();
                buffer.drain(..used);
                to_skip = count;
                parser = next;
            }
            Ok(ParserStateMachine::Continue(next)) => {
                let used = input.position();
                buffer.drain(..used);
                parser = next;
            }
            Ok(ParserStateMachine::Loop(_)) => panic!("a step that made no progress"),
            Err(e) => panic!("{:?}", e),
        }
        while to_skip > 0 {
            fed += 1;
            to_skip -= 1;
        }
        if matches!(parser.state, enfusion_pak::parser::PakParserState::Done) {
            continue;
        }
        assert!(fed < bytes.len(), "the parser wants more than the archive holds");
        buffer.push(bytes[fed]);
        fed += 1;
    };
    let whole = PakFile::parse(&bytes).unwrap();
    assert_eq!(format!("{:?}", streamed), format!("{:?}", whole));
    assert_eq!(fed, bytes.len());
}

#[test]
fn step_asks_for_more_and_leaves_the_cursor() {
    let bytes = nested_archive();
    let mut input = Cursor::new(&bytes[..7]);
    match PakParser::new().parse_impl(&mut input) {
        Ok(ParserStateMachine::Continue(parser)) => assert_eq!(parser.bytes_parsed(), 0),
        _ => panic!("expected a request for more bytes"),
    }
    assert_eq!(input.position(), 0);
    let mut input = Cursor::new(&bytes);
    match PakParser::new().parse_impl(&mut input) {
        Ok(ParserStateMachine::Loop(parser)) => {
            assert_eq!(parser.bytes_parsed(), 12);
            assert_eq!(parser.pak_len, Some(bytes.len()));
        }
        _ => panic!("expected progress"),
    }
    assert_eq!(input.position(), 12);
    let mut input = Cursor::new(&bytes);
    match PakParser::new().parse(&mut input) {
        Ok(ParserStateMachine::Skip { from, count, parser }) => {
            assert_eq!((from, count), (24, 0x18));
            assert_eq!(parser.bytes_parsed(), 48);
        }
        _ => panic!("expected a skip"),
    }
    assert_eq!(input.position(), 24);
}

#[test]
fn truncated_archive() {
    let bytes = nested_archive();
    assert_eq!(fault_of(&bytes[..bytes.len() - 1]).1, FormatFault::Truncated);
    assert_eq!(fault_of(&bytes[..30]), (48, FormatFault::Truncated));
    assert_eq!(fault_of(&[]), (0, FormatFault::Truncated));
}

#[test]
fn unknown_chunk() {
    let mut bytes = archive(&[head(), index(&[folder("", 0)])]);
    bytes[48..52].copy_from_slice(b"JUNK");
    assert_eq!(fault_of(&bytes), (48, FormatFault::UnknownChunk));
}

#[test]
fn unknown_pak_type() {
    let mut bytes = archive(&[head(), index(&[folder("", 0)])]);
    bytes[8..12].copy_from_slice(b"PAC2");
    assert_eq!(fault_of(&bytes), (0, FormatFault::UnknownPakType));
}

#[test]
fn misplaced_chunks() {
    let inner = archive(&[head()]);
    assert_eq!(fault_of(&archive(&[head(), inner])), (48, FormatFault::MisplacedChunk));
    assert_eq!(fault_of(&archive(&[head(), head()])), (48, FormatFault::MisplacedChunk));
    assert_eq!(fault_of(&head()), (0, FormatFault::MisplacedChunk));
    let twice = archive(&[index(&[folder("", 0)]), index(&[folder("", 0)])]);
    assert_eq!(fault_of(&twice), (26, FormatFault::MisplacedChunk));
}

#[test]
fn bad_head_length() {
    let mut bytes = archive(&[head(), index(&[folder("", 0)])]);
    bytes[19] = 0x1D;
    assert_eq!(fault_of(&bytes), (12, FormatFault::BadHeadLength));
}

#[test]
fn entry_faults() {
    let with = |entries: &[Vec<u8>]| fault_of(&archive(&[head(), index(entries)])).1;
    assert_eq!(with(&[vec![2, 0, 0, 0, 0, 0]]), FormatFault::BadEntryKind);
    assert_eq!(with(&[vec![0, 2, 0xC3, 0x28, 0, 0, 0, 0]]), FormatFault::BadName);
    assert_eq!(with(&[folder("", 1), file("", 0, 0, 0, 0, 0, 0)]), FormatFault::EmptyName);
    assert_eq!(with(&[folder("", 2), folder("", 0), file("a", 0, 0, 0, 0, 0, 0)]), FormatFault::EmptyName);
    assert_eq!(with(&[folder("", 1), file("a", 0, 0, 0, 2, 0, 0)]), FormatFault::BadCompressionFlag);
    assert_eq!(with(&[folder("", 1), file("a", 0, 0, 0, 1, 5, 0)]), FormatFault::BadCompressionLevel);
    assert_eq!(
        with(&[folder("", 2), file("a", 0, 0, 0, 0, 0, 0), file("a", 0, 0, 0, 0, 0, 0)]),
        FormatFault::DuplicateName
    );
    assert_eq!(
        with(&[folder("", 1), file("a", 0, 0, 0, 0, 0, 0), file("b", 0, 0, 0, 0, 0, 0)]),
        FormatFault::TooManyChildren
    );
    assert_eq!(with(&[file("a", 0, 0, 0, 0, 0, 0)]), FormatFault::NoParent);
    assert_eq!(with(&[folder("", 2), file("a", 0, 0, 0, 0, 0, 0)]), FormatFault::FramesRemaining);
    assert_eq!(with(&[folder("", 1), folder("d", 1)]), FormatFault::FramesRemaining);
    assert_eq!(with(&[folder("", 1), file("a", 0x1000, 1, 1, 0, 0, 0)]), FormatFault::LengthMismatch);
    let mut reserved = file("a", 0, 0, 0, 0, 0, 0);
    reserved[3 + 12] = 1;
    assert_eq!(with(&[folder("", 1), reserved]), FormatFault::ReservedNotZero);
    let mut reserved = file("a", 0, 0, 0, 0, 0, 0);
    reserved[3 + 17] = 1;
    assert_eq!(with(&[folder("", 1), reserved]), FormatFault::ReservedNotZero);
}

#[test]
fn index_longer_than_announced() {
    let mut bytes = archive(&[head(), index(&[folder("", 0)])]);
    bytes[55] = 5;
    assert_eq!(fault_of(&bytes), (56, FormatFault::LengthMismatch));
}

#[test]
fn names_are_decoded_as_utf8() {
    let bytes = archive(&[head(), index(&[folder("", 1), file("é.txt", 0, 0, 0, 0, 0, 0)])]);
    let pak = PakFile::parse(&bytes).unwrap();
    assert_eq!(root_children(&pak), vec!["é.txt".to_string()]);
}

#[test]
fn named_root_keeps_its_name() {
    let bytes = archive(&[head(), index(&[folder("top", 1), folder("empty", 0)])]);
    let pak = PakFile::parse(&bytes).unwrap();
    match pak.root() {
        Some(fs) => assert_eq!(fs.name(), "top"),
        None => panic!("no file index"),
    }
    assert_eq!(root_children(&pak), vec!["empty".to_string()]);
    let vfs = PakVfs::new((), &pak);
    assert_eq!(vfs.read_dir("/empty"), Ok(vec![]));
    assert_eq!(
        vfs.metadata("/empty"),
        Ok(VfsMetadata { file_type: VfsFileType::Directory, len: 0 })
    );
}

#[test]
fn error_descriptions() {
    assert_eq!(PakError::Io.describe(), "I/O error occurred");
    assert_eq!(
        PakError::ParseFormat { offset: 0, fault: FormatFault::Truncated }.describe(),
        "Parser error"
    );
    assert_eq!(PakError::Unsupported.describe(), "Operation not supported");
    assert_eq!(PakError::NotFound.describe(), "No such entry");
    assert_eq!(PakError::Decompression { offset: 1 }.describe(), "Decompression failed");
}

/// An archive that holds `/common/a.txt` with the given content and one more file beside it.
fn common_archive(content: &[u8; 5], other: &str) -> Vec<u8> {
    let mut block = vec![0u8; 8];
    block.extend_from_slice(content);
    archive(&[
        head(),
        data(&block),
        index(&[
            folder("", 1),
            folder("common", 2),
            file(other, 0x40, 1, 1, 0, 0, 0),
            file("a.txt", 0x40, 5, 5, 0, 0, 0),
        ]),
    ])
}

#[test]
fn overlay_shadowing() {
    let high = common_archive(b"upper", "high.txt");
    let low = common_archive(b"lower", "low.txt");
    let layer = |bytes: &'static [u8]| {
        let pak = PakFile::parse(bytes).unwrap();
        let wrapper = BytesPakFileWrapper::new(String::new(), bytes, PakFile::parse(bytes).unwrap());
        PakVfs::new(wrapper, &pak)
    };
    let high: &'static [u8] = high.leak();
    let low: &'static [u8] = low.leak();
    let overlay = Overlay::new(vec![layer(high), layer(low)]);
    assert_eq!(overlay.open_file("/common/a.txt"), Ok(b"upper".to_vec()));
    assert_eq!(
        overlay.read_dir("/common"),
        Ok(vec!["high.txt".to_string(), "a.txt".to_string(), "low.txt".to_string()])
    );
    assert_eq!(overlay.read_dir("/"), Ok(vec!["common".to_string()]));
    assert_eq!(overlay.open_file("/common/low.txt"), Ok(b"l".to_vec()));
    assert_eq!(overlay.open_file("/common/high.txt"), Ok(b"u".to_vec()));
    assert_eq!(overlay.hit("/common/low.txt"), Some(1));
    assert_eq!(overlay.hit("/common/a.txt"), Some(0));
    assert!(overlay.has_entry("/common/a.txt"));
    assert!(!overlay.has_entry("/common/none"));
    assert_eq!(overlay.read_dir("/common/a.txt"), Err(PakError::Unsupported));
    assert_eq!(overlay.read_dir("/nothing"), Err(PakError::NotFound));
    assert_eq!(overlay.open_file("/nothing"), Err(PakError::NotFound));
    assert_eq!(overlay.metadata("/nothing"), Err(PakError::NotFound));
    assert_eq!(
        overlay.metadata("/common/a.txt"),
        Ok(VfsMetadata { file_type: VfsFileType::File, len: 5 })
    );
    let swapped = Overlay::new(vec![layer(low), layer(high)]);
    assert_eq!(swapped.open_file("/common/a.txt"), Ok(b"lower".to_vec()));
    assert_eq!(
        swapped.read_dir("/common"),
        Ok(vec!["low.txt".to_string(), "a.txt".to_string(), "high.txt".to_string()])
    );
}

#[test]
fn overlay_lists_a_shared_name_once() {
    let only = |content: &[u8; 5]| -> &'static [u8] {
        let mut block = vec![0u8; 8];
        block.extend_from_slice(content);
        archive(&[
            head(),
            data(&block),
            index(&[folder("", 1), folder("common", 1), file("a.txt", 0x40, 5, 5, 0, 0, 0)]),
        ])
        .leak()
    };
    let layer = |bytes: &'static [u8]| {
        let pak = PakFile::parse(bytes).unwrap();
        PakVfs::new(BytesPakFileWrapper::new(String::new(), bytes, PakFile::parse(bytes).unwrap()), &pak)
    };
    let overlay = Overlay::new(vec![layer(only(b"first")), layer(only(b"other"))]);
    assert_eq!(overlay.open_file("/common/a.txt"), Ok(b"first".to_vec()));
    assert_eq!(overlay.read_dir("/common"), Ok(vec!["a.txt".to_string()]));
}

#[test]
fn overlay_of_one_archive_lists_a_folder_once() {
    let bytes: &'static [u8] = common_archive(b"upper", "b.txt").leak();
    let pak = PakFile::parse(bytes).unwrap();
    let overlay = Overlay::new(vec![PakVfs::new((), &pak), PakVfs::new((), &pak)]);
    assert_eq!(
        overlay.read_dir("/common"),
        Ok(vec!["b.txt".to_string(), "a.txt".to_string()])
    );
}

/// A source that counts its fetches and fails on request.
struct Counting {
    bytes: Vec<u8>,
    fetches: Cell<usize>,
    broken: Cell<bool>,
}

impl Counting {
    fn over(bytes: Vec<u8>) -> Self {
        Counting { bytes, fetches: Cell::new(0), broken: Cell::new(false) }
    }
}

impl ReadAt for Counting {
    fn read_at(&self, file_range: std::ops::Range<usize>) -> Result<Vec<u8>, PakError> {
        if self.broken.get() {
            return Err(PakError::Io);
        }
        self.fetches.set(self.fetches.get() + 1);
        let start = file_range.start.min(self.bytes.len());
        let end = file_range.end.min(self.bytes.len());
        Ok(self.bytes[start..end].to_vec())
    }
}

#[test]
fn streaming_parse_from_a_source() {
    assert_eq!(WINDOW, 65536);
    let mut payload = vec![0u8; 200_000];
    payload[8..13].copy_from_slice(b"hello");
    let entries: Vec<Vec<u8>> = std::iter::once(folder("", 5000))
        .chain((0..5000).map(|i| file(&format!("file{i}"), 0x40, 5, 5, 0, 0, 0)))
        .collect();
    let bytes = archive(&[head(), data(&payload), index(&entries)]);
    assert!(bytes.len() > 5 * WINDOW);
    let source = Counting::over(bytes.clone());
    let streamed = parse_pak_file(&source).unwrap();
    let whole = PakFile::parse(&bytes).unwrap();
    assert_eq!(format!("{:?}", streamed), format!("{:?}", whole));
    assert_eq!(root_children(&streamed).len(), 5000);
    assert!(source.fetches.get() >= 4);

    let in_memory = BytesPakFileWrapper::new(String::new(), &bytes, PakFile::parse(&bytes).unwrap());
    let again = parse_pak_file(&in_memory).unwrap();
    assert_eq!(format!("{:?}", again), format!("{:?}", whole));
    assert_eq!(in_memory.read_at(bytes.len() - 2..bytes.len() + 9), Ok(bytes[bytes.len() - 2..].to_vec()));
    assert_eq!(in_memory.read_at(bytes.len() + 2..bytes.len() + 9), Ok(vec![]));
    assert_eq!(in_memory.read_at(4..8), Ok(bytes[4..8].to_vec()));
}

#[test]
fn streaming_parse_of_a_truncated_source() {
    let bytes = nested_archive();
    let source = Counting::over(bytes[..bytes.len() - 3].to_vec());
    assert!(matches!(
        parse_pak_file(&source),
        Err(PakError::ParseFormat { fault: FormatFault::Truncated, .. })
    ));
    assert!(matches!(
        parse_pak_file(&Counting::over(vec![])),
        Err(PakError::ParseFormat { offset: 0, fault: FormatFault::Truncated })
    ));
    let broken = Counting::over(bytes);
    broken.broken.set(true);
    assert!(matches!(parse_pak_file(&broken), Err(PakError::Io)));
}

#[test]
fn caching_wrapper_fetches_a_range_once() {
    let bytes = one_file_archive(b"hello", 5, 0);
    let pak = PakFile::parse(&bytes).unwrap();
    let mut wrapper = CachingPakFileWrapper::new("one.pak".to_string(), Counting::over(bytes), pak);
    let first = wrapper.prime_file(0x40..0x45).unwrap();
    assert_eq!(shared_bytes(&first), b"hello");
    assert_eq!(wrapper.handle.fetches.get(), 1);
    let second = wrapper.prime_file(0x40..0x45).unwrap();
    assert!(std::sync::Arc::ptr_eq(&first, &second));
    assert_eq!(wrapper.handle.fetches.get(), 1);
    wrapper.handle.broken.set(true);
    assert_eq!(wrapper.prime_file(0x40..0x44).map(|_| ()), Err(PakError::Io));
    assert_eq!(wrapper.buffer.entries.len(), 1);
    assert!(wrapper.prime_file(0x40..0x45).is_ok());
}

#[test]
fn parse_in_windows_gives_what_parse_gives() {
    let mut payload = vec![0u8; 3000];
    payload[8..13].copy_from_slice(b"hello");
    let entries: Vec<Vec<u8>> = vec![
        folder("", 3),
        folder("dir", 2),
        file("x", 0x40, 5, 5, 0, 0, 0),
        folder("empty", 0),
        file("a-rather-long-name-that-spans-several-small-windows.txt", 0x40, 5, 5, 0, 0, 0),
        folder("last", 1),
        file("y", 0x41, 2, 2, 0, 0, 0),
    ];
    let bytes = archive(&[head(), data(&payload), index(&entries)]);
    let whole = format!("{:?}", PakFile::parse(&bytes).unwrap());
    for window in [0usize, 1, 2, 3, 7, 8, 64, 4096, 64 * 1024, usize::MAX] {
        let windowed = PakFile::parse_in_windows(&bytes, window).unwrap();
        assert_eq!(format!("{:?}", windowed), whole, "window {window}");
    }
    for cut in [0usize, 5, 12, 30, 48, 60, bytes.len() - 40, bytes.len() - 1] {
        let expected = PakFile::parse(&bytes[..cut]).map(|_| ());
        assert!(expected.is_err());
        for window in [1usize, 5, 1000] {
            assert_eq!(PakFile::parse_in_windows(&bytes[..cut], window).map(|_| ()), expected);
        }
    }
    let mut broken = bytes.clone();
    broken[3064] = 9;
    let expected = PakFile::parse(&broken).map(|_| ());
    assert!(matches!(expected, Err(PakError::ParseFormat { fault: FormatFault::BadEntryKind, .. })));
    assert_eq!(PakFile::parse_in_windows(&broken, 1).map(|_| ()), expected);
}

#[test]
fn data_after_the_index_and_empty_data() {
    let bytes = archive(&[index(&[folder("", 0)]), data(b""), data(b"tail")]);
    let pak = PakFile::parse(&bytes).unwrap();
    assert_eq!(pak.chunks().len(), 4);
    assert!(matches!(pak.chunks()[1], Chunk::File { .. }));
    assert!(matches!(&pak.chunks()[2], Chunk::Data { data } if *data == (34..34)));
    assert!(matches!(&pak.chunks()[3], Chunk::Data { data } if *data == (42..46)));
    assert_eq!(pak.file_chunk_index(), Some(1));
    assert_eq!(
        format!("{:?}", PakFile::parse_in_windows(&bytes, 3).unwrap()),
        format!("{:?}", pak)
    );
}

#[test]
fn announced_length_decides_where_the_archive_ends() {
    let mut bytes = archive(&[head(), index(&[folder("", 0)])]);
    let good = PakFile::parse(&bytes).unwrap();
    bytes.extend_from_slice(b"trailing bytes that follow the archive");
    let longer = PakFile::parse(&bytes).unwrap();
    assert_eq!(format!("{:?}", good), format!("{:?}", longer));

    let mut short = archive(&[head(), index(&[folder("", 0)])]);
    short[7] -= 1;
    assert_eq!(fault_of(&short), (56, FormatFault::LengthMismatch));
    let mut long = archive(&[head(), index(&[folder("", 0)])]);
    long[7] += 1;
    assert_eq!(fault_of(&long), (62, FormatFault::Truncated));
    let mut tiny = archive(&[]);
    tiny[7] = 3;
    assert_eq!(fault_of(&tiny), (0, FormatFault::LengthMismatch));
    let only_form = archive(&[]);
    let pak = PakFile::parse(&only_form).unwrap();
    assert_eq!(pak.chunks().len(), 1);
    assert!(pak.file_chunk().is_none());
    assert!(pak.root().is_none());
    let vfs = PakVfs::new((), &pak);
    assert!(!vfs.has_entry("/"));
    assert_eq!(vfs.read_dir("/"), Err(PakError::NotFound));
}

#[test]
fn feeding_one_window() {
    let bytes = nested_archive();
    let whole = format!("{:?}", PakFile::parse(&bytes).unwrap());
    match feed_window(PakParser::new(), Err(PakError::Io)) {
        Fed::Finished(Err(PakError::Io)) => {}
        _ => panic!("a failed fetch ends the parse with its failure"),
    }
    match feed_window(PakParser::new(), Ok(bytes[..7].to_vec())) {
        Fed::Finished(Err(PakError::ParseFormat { offset: 0, fault: FormatFault::Truncated })) => {}
        _ => panic!("a window without progress ends the parse as truncated"),
    }
    let mut junk = bytes.clone();
    junk[0] = b'X';
    match feed_window(PakParser::new(), Ok(junk)) {
        Fed::Finished(Err(PakError::ParseFormat { offset: 0, fault: FormatFault::UnknownChunk })) => {}
        _ => panic!("a failure of the parser ends the parse"),
    }
    let next = match feed_window(PakParser::new(), Ok(bytes[..30].to_vec())) {
        Fed::Next(next) => next,
        Fed::Finished(_) => panic!("the parse goes on after the header"),
    };
    assert_eq!(next.bytes_parsed(), 48);
    let next = match feed_window(next, Ok(bytes[48..60].to_vec())) {
        Fed::Next(next) => next,
        Fed::Finished(_) => panic!("the parse goes on after the payload was skipped"),
    };
    assert_eq!(next.bytes_parsed(), 72);
    match feed_window(next, Ok(bytes[72..].to_vec())) {
        Fed::Finished(Ok(pak)) => assert_eq!(format!("{:?}", pak), whole),
        _ => panic!("the last window ends the parse with the archive"),
    }
    let ends_with_data = archive(&[index(&[folder("", 0)]), data(b"tail")]);
    match feed_window(PakParser::new(), Ok(ends_with_data[..34].to_vec())) {
        Fed::Finished(Ok(pak)) => assert_eq!(pak.chunks().len(), 3),
        _ => panic!("a skip that reaches the end of the archive ends the parse"),
    }
    let source = Counting::over(ends_with_data.clone());
    assert_eq!(
        format!("{:?}", parse_pak_file(&source).unwrap()),
        format!("{:?}", PakFile::parse(&ends_with_data).unwrap())
    );
    assert_eq!(source.fetches.get(), 1);
}

#[test]
fn compressed_payload_of_another_length_does_not_open() {
    let payload = zlib(b"hello");
    for recorded in [4u32, 6, 0] {
        let bytes = one_file_archive(&payload, recorded, 1);
        let pak = PakFile::parse(&bytes).unwrap();
        let source = BytesPakFileWrapper::new(String::new(), &bytes, PakFile::parse(&bytes).unwrap());
        let vfs = PakVfs::new(source, &pak);
        assert_eq!(vfs.open_file("/a.txt"), Err(PakError::Decompression { offset: 0x40 }));
        assert_eq!(vfs.read_file("/a.txt"), Err(PakError::Decompression { offset: 0x40 }));
    }
    assert_eq!(finish_inflate(7, 5, Some(b"hello".to_vec())), Ok(b"hello".to_vec()));
    assert_eq!(finish_inflate(7, 4, Some(b"hello".to_vec())), Err(PakError::Decompression { offset: 7 }));
    assert_eq!(finish_inflate(7, 5, None), Err(PakError::Decompression { offset: 7 }));
    let info = FileInfo {
        offset: 9,
        compressed_len: 13,
        decompressed_len: 5,
        unk: 0,
        unk2: 0,
        compressed: 1,
        compression_level: 6,
        timestamp: 0,
    };
    assert_eq!(open_primed(info, Ok(&payload)), Ok(b"hello".to_vec()));
    assert_eq!(
        open_primed(FileInfo { decompressed_len: 6, ..info }, Ok(&payload)),
        Err(PakError::Decompression { offset: 9 })
    );
    assert_eq!(open_primed(info, Err(PakError::Io)), Err(PakError::Io));
    assert_eq!(
        open_primed(FileInfo { compressed: 0, ..info }, Ok(&payload)),
        Ok(payload.clone())
    );
}

#[test]
fn ranges_that_are_asked_for() {
    let info = FileInfo {
        offset: 0x40,
        compressed_len: 5,
        decompressed_len: 5,
        unk: 0,
        unk2: 0,
        compressed: 0,
        compression_level: 0,
        timestamp: 0,
    };
    assert_eq!(payload_range(info), Some(0x40..0x45));
    assert_eq!(
        payload_range(FileInfo { offset: u32::MAX, compressed_len: u32::MAX, ..info }),
        Some(0xFFFF_FFFF..0x1_FFFF_FFFE)
    );
    assert_eq!(payload_range(FileInfo { compressed_len: 0, ..info }), Some(0x40..0x40));
    assert_eq!(next_window(0), 0..WINDOW);
    assert_eq!(next_window(48), 48..48 + 65536);
    assert_eq!(next_window(usize::MAX - 5), usize::MAX - 5..usize::MAX);
    assert_eq!(next_window(usize::MAX - WINDOW), usize::MAX - WINDOW..usize::MAX);
}

/// A source that records the ranges it is asked for.
struct Recording<'a> {
    bytes: &'a [u8],
    asked: std::sync::Mutex<Vec<std::ops::Range<usize>>>,
}

impl ReadAt for Recording<'_> {
    fn read_at(&self, file_range: std::ops::Range<usize>) -> Result<Vec<u8>, PakError> {
        self.asked.lock().unwrap().push(file_range.clone());
        let start = file_range.start.min(self.bytes.len());
        let end = file_range.end.min(self.bytes.len());
        Ok(self.bytes[start..end].to_vec())
    }
}

#[test]
fn streaming_parse_asks_for_the_window_where_the_parser_stands() {
    let bytes = nested_archive();
    let source = Recording { bytes: &bytes, asked: std::sync::Mutex::new(Vec::new()) };
    parse_pak_file(&source).unwrap();
    assert_eq!(*source.asked.lock().unwrap(), vec![0..WINDOW, 48..48 + WINDOW, 72..72 + WINDOW]);
}
