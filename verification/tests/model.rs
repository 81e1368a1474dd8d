use std::sync::Arc;

use enfusion_pak::bytes::{be_u32_at, le_u16_at, le_u32_at, Cursor};
use enfusion_pak::cache::{shared_bytes, RangeCache, MEM_LIMIT};
use enfusion_pak::error::{DecodeError, FormatFault, PakError};
use enfusion_pak::search::{ascii_icontains, SearchId};
use enfusion_pak::tab::{DiffData, DiffResult, EditorData, SearchData, TabKind};
use enfusion_pak::timestamp::{unpack, CivilDateTime};
use enfusion_pak::{FileEntry, FileEntryKind, FileEntryMeta, FileInfo};

fn info(offset: u32, timestamp: u32) -> FileInfo {
    FileInfo {
        offset,
        compressed_len: 1,
        decompressed_len: 1,
        unk: 0,
        unk2: 0,
        compressed: 0,
        compression_level: 0,
        timestamp,
    }
}

fn file(name: &str, offset: u32) -> Arc<FileEntry> {
    Arc::new(FileEntry::file(name.to_string(), info(offset, 0)))
}

fn dir(name: &str, children: Vec<Arc<FileEntry>>) -> FileEntry {
    FileEntry::folder(name.to_string(), children)
}

fn names(entry: &FileEntry) -> Vec<String> {
    match entry.meta() {
        FileEntryMeta::Folder { children } => {
            children.iter().map(|child| child.name().to_string()).collect()
        }
        _ => panic!("not a folder"),
    }
}

fn child(entry: &FileEntry, at: usize) -> Arc<FileEntry> {
    match entry.meta() {
        FileEntryMeta::Folder { children } => children[at].clone(),
        _ => panic!("not a folder"),
    }
}

fn pack(year: u32, month: u32, day: u32, hour: u32, minute: u32, second: u32) -> u32 {
    ((year - 2000) << 26) | (month << 22) | (day << 17) | (hour << 12) | (minute << 6) | second
}

#[test]
fn merge_appends_new_names_in_order() {
    let mut ours = dir("Root", vec![file("a", 1), file("b", 2)]);
    let other = dir("Root", vec![file("c", 3), file("d", 4)]);
    assert_eq!(ours.merge(other), Ok(()));
    assert_eq!(names(&ours), vec!["a", "b", "c", "d"]);
}

#[test]
fn merge_recurses_into_folders_of_one_name() {
    let mut ours = dir("Root", vec![Arc::new(dir("common", vec![file("a", 1)])), file("z", 9)]);
    let other = dir("Other", vec![file("y", 8), Arc::new(dir("common", vec![file("b", 2)]))]);
    assert_eq!(ours.merge(other), Ok(()));
    assert_eq!(ours.name(), "Root");
    assert_eq!(names(&ours), vec!["common", "z", "y"]);
    assert_eq!(names(&child(&ours, 0)), vec!["a", "b"]);
}

#[test]
fn merge_fails_on_a_duplicated_file_and_changes_nothing() {
    let mut ours = dir("Root", vec![file("n", 1), Arc::new(dir("common", vec![file("a", 1)]))]);
    let other = dir("Root", vec![file("new", 5), Arc::new(dir("common", vec![file("a", 2)]))]);
    let conflict = PakError::ParseFormat { offset: 0, fault: FormatFault::MergeConflict };
    assert_eq!(ours.merge(other), Err(conflict));
    assert_eq!(names(&ours), vec!["n", "common"]);
    assert_eq!(names(&child(&ours, 1)), vec!["a"]);
}

#[test]
fn merge_fails_on_a_kind_mismatch() {
    let conflict = PakError::ParseFormat { offset: 0, fault: FormatFault::MergeConflict };
    let mut ours = dir("Root", vec![file("x", 1)]);
    assert_eq!(ours.merge(dir("Root", vec![Arc::new(dir("x", vec![]))])), Err(conflict));
    let mut ours = dir("Root", vec![Arc::new(dir("x", vec![]))]);
    assert_eq!(ours.merge_ref(Arc::new(dir("Root", vec![file("x", 1)]))), Err(conflict));
    assert_eq!(names(&ours), vec!["x"]);
}

#[test]
fn merge_ref_shares_the_other_tree() {
    let shared = Arc::new(dir("Other", vec![file("b", 2)]));
    let mut ours = dir("Root", vec![file("a", 1)]);
    assert_eq!(ours.merge_ref(shared.clone()), Ok(()));
    assert_eq!(names(&ours), vec!["a", "b"]);
    assert!(Arc::ptr_eq(&child(&ours, 1), &child(&shared, 0)));
    assert_eq!(names(&shared), vec!["b"]);
}

#[test]
fn merge_is_associative_for_disjoint_children() {
    let a = || dir("A", vec![file("a", 1)]);
    let b = || dir("B", vec![file("b", 2), Arc::new(dir("d", vec![]))]);
    let c = || dir("C", vec![file("c", 3)]);
    let mut left = a();
    left.merge(b()).unwrap();
    left.merge(c()).unwrap();
    let mut inner = b();
    inner.merge(c()).unwrap();
    let mut right = a();
    right.merge(inner).unwrap();
    assert_eq!(names(&left), vec!["a", "b", "d", "c"]);
    assert_eq!(format!("{:?}", left), format!("{:?}", right));
}

#[test]
fn merged_with_leaves_both_trees() {
    let ours = dir("Root", vec![file("a", 1)]);
    let other = dir("Root", vec![file("b", 2)]);
    let merged = ours.merged_with(&other).unwrap();
    assert_eq!(names(&merged), vec!["a", "b"]);
    assert_eq!(names(&ours), vec!["a"]);
    assert_eq!(names(&other), vec!["b"]);
}

#[test]
fn entry_accessors() {
    let entry = FileEntry::file("a.txt".to_string(), info(7, 0));
    assert_eq!(entry.name(), "a.txt");
    assert_eq!(entry.kind(), FileEntryKind::File);
    assert!(matches!(entry.meta(), FileEntryMeta::File { offset: 7, .. }));
    let mut folder = dir("d", vec![]);
    assert_eq!(folder.kind(), FileEntryKind::Folder);
    folder.meta.push_child(entry);
    assert_eq!(names(&folder), vec!["a.txt"]);
    let mut meta = FileEntry::file("f".to_string(), info(1, 0)).meta;
    meta.push_child(dir("ignored", vec![]));
    assert!(matches!(meta, FileEntryMeta::File { offset: 1, .. }));
    assert_eq!(FileEntryKind::try_from(0), Ok(FileEntryKind::Folder));
    assert_eq!(FileEntryKind::try_from(1), Ok(FileEntryKind::File));
    assert_eq!(FileEntryKind::try_from(2), Err(()));
}

#[test]
fn timestamp_of_a_valid_date() {
    let meta = FileEntry::file("f".to_string(), info(0, pack(2024, 2, 29, 12, 34, 56))).meta;
    assert_eq!(
        meta.parsed_timestamp(),
        Some(CivilDateTime { year: 2024, month: 2, day: 29, hour: 12, minute: 34, second: 56 })
    );
    assert_eq!(pack(2024, 2, 29, 12, 34, 56), 0x60BAC8B8);
}

#[test]
fn timestamp_of_an_invalid_date_is_unknown() {
    let of = |ts: u32| FileEntry::file("f".to_string(), info(0, ts)).meta.parsed_timestamp();
    assert_eq!(of(pack(2023, 2, 29, 0, 0, 0)), None);
    assert_eq!(of(pack(2024, 4, 31, 0, 0, 0)), None);
    assert_eq!(of(pack(2024, 13, 1, 0, 0, 0)), None);
    assert_eq!(of(pack(2024, 0, 1, 0, 0, 0)), None);
    assert_eq!(of(pack(2024, 1, 0, 0, 0, 0)), None);
    assert_eq!(of(pack(2024, 1, 1, 24, 0, 0)), None);
    assert_eq!(of(pack(2024, 1, 1, 0, 60, 0)), None);
    assert_eq!(of(pack(2024, 1, 1, 0, 0, 60)), None);
    assert_eq!(of(0), None);
    assert_eq!(
        of(pack(2000, 1, 1, 0, 0, 59)),
        Some(CivilDateTime { year: 2000, month: 1, day: 1, hour: 0, minute: 0, second: 59 })
    );
    assert_eq!(
        of(pack(2063, 12, 31, 23, 59, 30)),
        Some(CivilDateTime { year: 2063, month: 12, day: 31, hour: 23, minute: 59, second: 30 })
    );
    assert_eq!(of(pack(2100 - 40, 2, 29, 0, 0, 0)).map(|t| t.day), Some(29));
}

#[test]
fn timestamp_of_a_folder_is_none() {
    assert_eq!(dir("d", vec![]).meta.parsed_timestamp(), None);
}

#[test]
fn unpack_splits_the_bit_fields() {
    assert_eq!(
        unpack(u32::MAX),
        CivilDateTime { year: 2063, month: 15, day: 31, hour: 31, minute: 63, second: 63 }
    );
}

#[test]
fn integer_readers() {
    let data = [0x01u8, 0x02, 0x03, 0x04, 0x05];
    assert_eq!(le_u32_at(&data, 0), 0x04030201);
    assert_eq!(be_u32_at(&data, 1), 0x02030405);
    assert_eq!(le_u16_at(&data, 3), 0x0504);
}

#[test]
fn cursor_reads_and_asks_for_more() {
    let data = [0x01u8, 0x02, 0x03, 0x04, 0x05, 0x06, 0x07];
    let mut cursor = Cursor::new(&data);
    assert_eq!(cursor.read_u8(), Ok(1));
    assert_eq!(cursor.read_le_u16(), Ok(0x0302));
    assert_eq!(cursor.remaining(), 4);
    assert_eq!(cursor.take(5), Err(DecodeError::NeedMore(1)));
    assert_eq!(cursor.position(), 3);
    assert_eq!(cursor.read_be_u32(), Ok(0x04050607));
    assert_eq!(cursor.read_u8(), Err(DecodeError::NeedMore(1)));
    assert_eq!(cursor.read_le_u32(), Err(DecodeError::NeedMore(4)));
    cursor.reset(5);
    assert_eq!(cursor.read_le_u32(), Err(DecodeError::NeedMore(2)));
    assert_eq!(cursor.read_le_u16(), Ok(0x0706));
    assert_eq!(cursor.read_le_u16(), Err(DecodeError::NeedMore(2)));
    cursor.reset(1);
    assert_eq!(cursor.take(2), Ok(&data[1..3]));
    assert_eq!(cursor.read_le_u32(), Ok(0x07060504));
    assert_eq!(cursor.position(), 7);
}

#[test]
fn cache_returns_what_was_published() {
    let mut cache = RangeCache::new(MEM_LIMIT);
    assert_eq!(MEM_LIMIT, 20_971_520);
    assert!(cache.lookup(0, 4).is_none());
    let shared = cache.insert(0, 4, &[1, 2, 3, 4]);
    assert_eq!(shared_bytes(&shared), &[1, 2, 3, 4]);
    assert_eq!(shared.capacity(), 4);
    let found = cache.lookup(0, 4).unwrap();
    assert_eq!(shared_bytes(&found), &[1, 2, 3, 4]);
    assert!(Arc::ptr_eq(&found, &shared));
    assert!(cache.lookup(0, 3).is_none());
    assert_eq!(cache.find(0, 4), Some(0));
    assert_eq!(cache.entries[0].data(), &[1, 2, 3, 4]);
    assert_eq!(cache.used(), 4);
}

#[test]
fn cache_evicts_smallest_first_until_the_new_entry_fits() {
    let mut cache = RangeCache::new(10);
    cache.insert(0, 3, &[0; 3]);
    cache.insert(10, 12, &[0; 2]);
    cache.insert(20, 25, &[0; 5]);
    assert_eq!(cache.used(), 10);
    cache.insert(30, 34, &[0; 4]);
    assert!(cache.lookup(10, 12).is_none());
    assert!(cache.lookup(0, 3).is_none());
    assert!(cache.lookup(20, 25).is_some());
    assert!(cache.lookup(30, 34).is_some());
    assert_eq!(cache.used(), 9);
    let order: Vec<usize> = cache.entries.iter().map(|e| e.start).collect();
    assert_eq!(order, vec![20, 30]);
}

#[test]
fn cache_at_the_ceiling_makes_room_for_one_byte() {
    let mut cache = RangeCache::new(10);
    cache.insert(0, 5, &[0; 5]);
    cache.insert(5, 10, &[1; 5]);
    assert_eq!(cache.used(), 10);
    cache.insert(10, 11, &[2]);
    assert!(cache.lookup(0, 5).is_none());
    assert!(cache.lookup(5, 10).is_some());
    assert_eq!(cache.used(), 6);
}

#[test]
fn cache_does_not_hold_more_than_the_ceiling() {
    let mut cache = RangeCache::new(4);
    cache.insert(0, 2, &[0; 2]);
    let big = cache.insert(2, 8, &[7; 6]);
    assert_eq!(shared_bytes(&big), &[7; 6]);
    assert!(cache.lookup(2, 8).is_none());
    assert!(cache.lookup(0, 2).is_some());
    assert_eq!(cache.used(), 2);
    cache.insert(8, 12, &[0; 4]);
    assert_eq!(cache.used(), 4);
    assert!(cache.lookup(0, 2).is_none());
}

#[test]
fn cache_replaces_an_entry_for_the_same_range() {
    let mut cache = RangeCache::new(10);
    cache.insert(0, 3, &[1; 3]);
    cache.insert(0, 3, &[2; 3]);
    assert_eq!(cache.entries.len(), 1);
    assert_eq!(cache.lookup(0, 3).map(|b| b.data().to_vec()), Some(vec![2; 3]));
    assert_eq!(cache.used(), 3);
}

#[test]
fn icontains_ignores_ascii_case() {
    assert!(ascii_icontains("", "anything"));
    assert!(ascii_icontains("", ""));
    assert!(!ascii_icontains("a", ""));
    assert!(ascii_icontains("CONF", "scripts/game.conf"));
    assert!(ascii_icontains("game", "scripts/GAME.conf"));
    assert!(!ascii_icontains("games", "scripts/GAME.conf"));
    assert!(ascii_icontains("f", "scripts/GAME.conf"));
    assert!(!ascii_icontains("longer than the haystack", "short"));
    assert!(ascii_icontains("@", "`"));
    assert!(!ascii_icontains("a", "b"));
}

#[test]
fn tab_titles() {
    let editor = TabKind::Editor(EditorData {
        opened_file: "/a.txt".to_string(),
        title: "a.txt".to_string(),
        contents: String::new(),
    });
    assert_eq!(editor.title(), "a.txt");
    let search = TabKind::SearchResults(SearchData {
        query: "q".to_string(),
        tab_title: "Search: q".to_string(),
        id: SearchId(1),
        results: vec![],
    });
    assert_eq!(search.title(), "Search: q");
    let changed = DiffResult::Changed {
        base_path: "/scripts/a.c".to_string(),
        modified_path: "/scripts/b.c".to_string(),
    };
    assert_eq!(changed.comparison_path(), "/scripts/a.c");
    let added = DiffResult::Added { path: "/Configs/x.conf".to_string() };
    assert_eq!(added.comparison_path(), "/Configs/x.conf");
    let diff = TabKind::Diff(DiffData {
        modified: vec![changed, added],
        modified_filtered: None,
        path_filter: String::new(),
    });
    assert_eq!(diff.title(), "Diff");
}

#[test]
fn unshared_takes_a_unique_entry_and_copies_a_shared_one() {
    let unique = Arc::new(dir("d", vec![file("a", 1)]));
    let taken = FileEntry::unshared(unique);
    assert_eq!(names(&taken), vec!["a"]);

    let shared = Arc::new(dir("d", vec![file("a", 1)]));
    let keep = shared.clone();
    let mut copy = FileEntry::unshared(shared);
    copy.merge(dir("d", vec![file("b", 2)])).unwrap();
    assert_eq!(names(&copy), vec!["a", "b"]);
    assert_eq!(names(&keep), vec!["a"]);
    assert!(Arc::ptr_eq(&child(&copy, 0), &child(&keep, 0)));
    assert_eq!(Arc::strong_count(&keep), 1);
}

#[test]
fn duplicate_copies_an_entry() {
    let entry = dir("d", vec![file("a", 1), file("b", 2)]);
    let copy = entry.duplicate();
    assert_eq!(format!("{:?}", copy), format!("{:?}", entry));
    let leaf = FileEntry::file("f".to_string(), info(3, 4));
    assert_eq!(format!("{:?}", leaf.duplicate()), format!("{:?}", leaf));
}

#[test]
fn default_parser_has_read_nothing() {
    let parser = enfusion_pak::PakParser::default();
    assert_eq!(parser.bytes_parsed(), 0);
    assert!(parser.chunks.is_empty());
    assert_eq!(parser.pak_len, None);
}

#[test]
fn add_num_appends_a_zero() {
    let mut integers = vec![3u32, 4];
    enfusion_pak::add_num(&mut integers);
    assert_eq!(integers, vec![3, 4, 0]);
    let mut empty: Vec<u32> = Vec::new();
    enfusion_pak::add_num(&mut empty);
    assert_eq!(empty, vec![0]);
}
