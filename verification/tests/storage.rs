//! The backend in memory, the names of files, and what is cleared away.

use mneme_persist::cleanup::{
    cleanup_orphans, is_referenced, remove_unreferenced_segments, segment_files,
};
use mneme_persist::crc::crc32;
use mneme_persist::current::{current_bytes, parse_current};
use mneme_persist::error::{BusyFault, ConfigFault, IoFault, Metric, MnemeError, SegmentFile};
use mneme_persist::layout::{
    hidx_name, manifest_name, msec_name, parse_manifest_name, resolve, segment_rel, vsec_name,
    wal_index_of, wal_name, wal_number,
};
use mneme_persist::manifest::{
    next_manifest_version, next_segment_id, Manifest, NsEntry, RelKindEntry, SegmentEntry,
};
use mneme_persist::storage::{FileMeta, FsStorage, MemStorage, Storage};
use mneme_persist::trash::{bytes, move_to_trash, purge, trash_bytes};
use mneme_persist::wal_writer::wal_files;

fn put(storage: &mut MemStorage, rel: &str, content: &[u8]) {
    storage.write_atomic(rel, content).expect("write");
}

fn names_come_back() {
    assert_eq!(manifest_name(42), "MANIFEST.000042");
    assert_eq!(parse_manifest_name("MANIFEST.000042"), Some(42));
    assert_eq!(parse_manifest_name("current"), None);
}

#[test]
fn storage_manifest_name_roundtrip() {
    names_come_back();
}

#[test]
fn tests_manifest_name_roundtrip() {
    names_come_back();
}

#[test]
fn manifest_names_have_six_digits_or_more() {
    assert_eq!(manifest_name(0), "MANIFEST.000000");
    assert_eq!(manifest_name(u64::MAX), "MANIFEST.18446744073709551615");
    assert_eq!(parse_manifest_name("MANIFEST.18446744073709551615"), Some(u64::MAX));
    assert_eq!(parse_manifest_name("MANIFEST.18446744073709551616"), None);
    assert_eq!(parse_manifest_name("MANIFEST."), None);
    assert_eq!(parse_manifest_name("MANIFEST.x"), None);
}

#[test]
fn segment_and_log_files_have_their_places() {
    assert_eq!(vsec_name(7), "seg_000007.vsec");
    assert_eq!(msec_name(7), "seg_000007.msec");
    assert_eq!(hidx_name(1_234_567), "seg_1234567.hidx");
    assert_eq!(segment_rel(SegmentFile::Vsec, 7), "segments/seg_000007.vsec");
    assert_eq!(wal_name(1), "wal/wal_000001.log");
}

fn only_canonical_names_have_numbers() {
    assert_eq!(wal_index_of("wal_000001.log"), Some(1));
    assert_eq!(wal_index_of("wal_000042.log"), Some(42));
    assert_eq!(wal_index_of("wal_1.log"), None);
    assert_eq!(wal_index_of("wal_0000001.log"), None);
    assert_eq!(wal_index_of("seg_000001.log"), None);
    assert_eq!(wal_index_of("wal_00000a.log"), None);
}

#[test]
fn wal_writer_wal_index_parsing_accepts_canonical_names_only() {
    only_canonical_names_have_numbers();
}

#[test]
fn tests_wal_index_parsing_accepts_canonical_names_only() {
    only_canonical_names_have_numbers();
}

fn traversal_is_rejected() {
    assert!(resolve("root", "../evil").is_err());
    assert!(resolve("root", "/abs").is_err());
    assert!(resolve("root", "wal/wal_000001.log").is_ok());
}

#[test]
fn storage_resolve_rejects_traversal() {
    traversal_is_rejected();
}

#[test]
fn tests_resolve_rejects_traversal() {
    traversal_is_rejected();
}

#[test]
fn paths_are_joined_to_the_root() {
    let storage = FsStorage::new("/data/lib");
    assert_eq!(storage.root(), "/data/lib");
    assert_eq!(storage.locate("wal/a.log"), Ok(String::from("/data/lib/wal/a.log")));
    let rejected = Err(MnemeError::Config { reason: ConfigFault::UnsafePath });
    assert_eq!(storage.locate("wal/../../x"), rejected);
    assert_eq!(resolve("root/", "a"), Ok(String::from("root/a")));
    assert_eq!(resolve("root", "a..b"), Ok(String::from("root/a..b")));
    assert_eq!(resolve("root", "a/.."), rejected);
}

fn atomic_writes_come_back() {
    let mut storage = MemStorage::new();
    storage.write_atomic("current", b"42").expect("write");
    assert_eq!(storage.read_file("current").expect("read"), b"42");
    assert!(!storage.has_file("current.tmp").expect("exists"));
}

#[test]
fn storage_write_atomic_roundtrip() {
    atomic_writes_come_back();
}

#[test]
fn tests_write_atomic_roundtrip() {
    atomic_writes_come_back();
}

fn new_files_do_not_overwrite() {
    let mut storage = MemStorage::new();
    storage.write_new("a", b"1").expect("first");
    assert!(matches!(storage.write_new("a", b"2"), Err(MnemeError::Io(_))));
    assert_eq!(storage.read_file("a").expect("read"), b"1");
}

#[test]
fn storage_write_new_does_not_overwrite() {
    new_files_do_not_overwrite();
}

#[test]
fn tests_write_new_does_not_overwrite() {
    new_files_do_not_overwrite();
}

#[test]
fn one_instance_holds_the_lock() {
    let mut storage = MemStorage::new();
    storage.try_lock().expect("first");
    assert!(matches!(storage.try_lock(), Err(MnemeError::Busy(_))));
    storage.unlock();
    assert!(storage.try_lock().is_ok());
}

#[test]
fn the_memory_backend_does_what_files_do() {
    let mut storage = MemStorage::new();
    assert_eq!(storage.read_file("a"), Err(MnemeError::Io(IoFault::NotFound)));
    assert_eq!(storage.read_file_opt("a"), Ok(None));
    assert_eq!(storage.read_file("../a"), Err(MnemeError::Config { reason: ConfigFault::UnsafePath }));
    assert_eq!(storage.append("dir/a", b"abc"), Ok(3));
    assert_eq!(storage.append("dir/a", b"de"), Ok(5));
    assert_eq!(storage.read_prefix("dir/a", 2), Ok(b"ab".to_vec()));
    assert_eq!(storage.read_prefix("dir/a", 9), Ok(b"abcde".to_vec()));
    assert_eq!(storage.stat("dir/a"), Ok(FileMeta { len: 5 }));
    assert_eq!(storage.truncate("dir/a", 3), Ok(()));
    assert_eq!(storage.read_file("dir/a"), Ok(b"abc".to_vec()));
    assert_eq!(storage.truncate("dir/b", 3), Err(MnemeError::Io(IoFault::NotFound)));
    assert_eq!(storage.rename("dir/a", "dir/b"), Ok(()));
    assert_eq!(storage.rename("dir/a", "dir/c"), Err(MnemeError::Io(IoFault::NotFound)));
    assert_eq!(storage.list_dir("dir"), Ok(vec![String::from("b")]));
    assert_eq!(storage.list_dir(""), Ok(vec![]));
    assert_eq!(storage.list_dir("none"), Ok(vec![]));
    assert_eq!(storage.open_bytes("dir/b").expect("open").as_slice(), b"abc");
    assert_eq!(storage.sync("dir/b"), Ok(()));
    assert_eq!(storage.ensure_dir("dir"), Ok(()));
    assert_eq!(storage.root_exists(), Ok(true));
    assert_eq!(storage.remove_if_exists("dir/b"), Ok(()));
    assert_eq!(storage.remove_if_exists("dir/b"), Ok(()));
    assert_eq!(storage.has_file("dir/b"), Ok(false));
    assert_eq!(storage.write_new("x", b""), Ok(()));
    assert_eq!(storage.write_new("x", b""), Err(MnemeError::Io(IoFault::AlreadyExists)));
    storage.try_lock().expect("lock");
    assert_eq!(storage.try_lock(), Err(MnemeError::Busy(BusyFault::MemoryLocked)));
}

#[test]
fn truncating_takes_an_append_back() {
    let mut storage = MemStorage::new();
    put(&mut storage, "log", b"committed");
    storage.append("log", b"torn").expect("append");
    storage.truncate("log", 9).expect("truncate");
    assert_eq!(storage.read_file("log"), Ok(b"committed".to_vec()));
}

#[test]
fn current_names_a_version() {
    assert_eq!(parse_current(b"42"), Some(42));
    assert_eq!(parse_current(b" \t42\r\n"), Some(42));
    assert_eq!(parse_current("\u{2003}+7\u{a0}".as_bytes()), Some(7));
    assert_eq!(parse_current(b""), None);
    assert_eq!(parse_current(b"4 2"), None);
    assert_eq!(parse_current(b"-1"), None);
    assert_eq!(parse_current(b"18446744073709551616"), None);
    assert_eq!(parse_current(&[b'4', 0xFF]), None);
    assert_eq!(parse_current(&[0xE2, 0x80, 0x83, b'5']), Some(5));
    for version in [0, 7, u64::MAX] {
        assert_eq!(parse_current(current_bytes(version).as_bytes()), Some(version));
    }
}

#[test]
fn checksums_are_those_of_the_ieee_polynomial() {
    assert_eq!(crc32(b""), 0);
    assert_eq!(crc32(b"123456789"), 0xCBF4_3926);
}

#[test]
fn numbers_run_out() {
    assert_eq!(next_segment_id(4), Ok(5));
    assert!(matches!(next_segment_id(u32::MAX), Err(MnemeError::IdExhausted { .. })));
    assert_eq!(next_manifest_version(4), Ok(5));
    assert!(matches!(next_manifest_version(u64::MAX), Err(MnemeError::IdExhausted { .. })));
}

fn manifest(segments: Vec<SegmentEntry>) -> Manifest {
    Manifest {
        dimension: 2,
        metric: Metric::Cosine,
        stopwords: false,
        next_rel_kind: 16,
        manifest_version: 1,
        watermark_seqno: 0,
        next_rowid: 0,
        next_segment_id: 9,
        next_ns_id: 1,
        namespaces: vec![NsEntry { ns_id: 1, path: String::from("a") }],
        rel_kinds: vec![RelKindEntry { kind: 16, name: String::from("k") }],
        segments,
    }
}

fn segment(id: u32, hidx_crc: u32) -> SegmentEntry {
    SegmentEntry {
        segment_id: id,
        format_version: 2,
        row_count: 0,
        min_seqno: 0,
        max_seqno: 0,
        created_ms: 0,
        vsec_crc: 0,
        msec_crc: 0,
        hidx_crc,
        entry_slot: 0,
        entry_level: 0,
    }
}

#[test]
fn a_copied_manifest_is_the_same() {
    let original = manifest(vec![segment(3, 1)]);
    let copy = original.copied();
    assert_eq!(copy.dimension, 2);
    assert_eq!(copy.namespaces[0].path, "a");
    assert_eq!(copy.rel_kinds[0].name, "k");
    assert_eq!(copy.segments, original.segments);
}

#[test]
fn half_written_files_are_cleared_away() {
    let mut storage = MemStorage::new();
    for rel in ["MANIFEST.000001.tmp", "segments/seg_000001.vsec.tmp", "wal/wal_000001.log.tmp"] {
        put(&mut storage, rel, b"half");
    }
    for rel in ["current", "segments/seg_000001.vsec", "trash/x.tmp"] {
        put(&mut storage, rel, b"whole");
    }
    cleanup_orphans(&mut storage).expect("clean");
    assert_eq!(storage.list_dir(""), Ok(vec![String::from("current")]));
    assert_eq!(storage.list_dir("segments"), Ok(vec![String::from("seg_000001.vsec")]));
    assert_eq!(storage.list_dir("wal"), Ok(vec![]));
    assert_eq!(storage.list_dir("trash"), Ok(vec![String::from("x.tmp")]));
}

#[test]
fn segments_of_the_manifest_stay() {
    let mut storage = MemStorage::new();
    for name in ["seg_000003.vsec", "seg_000003.msec", "seg_000003.hidx", "seg_000004.vsec"] {
        put(&mut storage, &format!("segments/{name}"), b"x");
    }
    put(&mut storage, "segments/notes.txt", b"x");
    let committed = manifest(vec![segment(3, 1)]);
    assert!(is_referenced(&committed, "seg_000003.hidx"));
    assert!(!is_referenced(&committed, "seg_000004.vsec"));
    let mut listed = segment_files(&storage).expect("list");
    listed.sort();
    assert_eq!(
        listed,
        vec!["seg_000003.hidx", "seg_000003.msec", "seg_000003.vsec", "seg_000004.vsec"]
    );
    remove_unreferenced_segments(&mut storage, &committed).expect("sweep");
    let mut left = storage.list_dir("segments").expect("list");
    left.sort();
    assert_eq!(
        left,
        vec!["notes.txt", "seg_000003.hidx", "seg_000003.msec", "seg_000003.vsec"]
    );
}

#[test]
fn files_wait_in_the_trash() {
    let mut storage = MemStorage::new();
    put(&mut storage, "segments/seg_000001.vsec", b"12345");
    let names = vec![String::from("seg_000001.vsec"), String::from("seg_000001.msec")];
    move_to_trash(&mut storage, &names).expect("move");
    assert_eq!(storage.has_file("segments/seg_000001.vsec"), Ok(false));
    assert_eq!(storage.read_file("trash/seg_000001.vsec"), Ok(b"12345".to_vec()));
    assert_eq!(bytes(&storage), Ok(5));
    assert_eq!(trash_bytes(&storage), 5);
    purge(&mut storage).expect("purge");
    assert_eq!(bytes(&storage), Ok(0));
}

#[test]
fn log_files_are_listed_in_order() {
    let mut storage = MemStorage::new();
    for name in ["wal_000010.log", "wal_000002.log", "notes", "wal_000001.log.tmp"] {
        put(&mut storage, &format!("wal/{name}"), b"");
    }
    assert_eq!(
        wal_files(&storage),
        Ok(vec![String::from("wal/wal_000002.log"), String::from("wal/wal_000010.log")])
    );
}

#[test]
fn the_number_in_a_log_name_has_six_digits() {
    assert_eq!(wal_index_of("wal_000042.log"), Some(42));
    assert_eq!(wal_index_of("wal_999999.log"), Some(999_999));
    assert_eq!(wal_index_of("wal_1000000.log"), None);
    assert_eq!(wal_index_of("wal_00042.log"), None);
    assert_eq!(wal_index_of("wal_0000042.log"), None);
    assert_eq!(wal_index_of("wal_00004x.log"), None);
    assert_eq!(wal_index_of("wal_000042.tmp"), None);
    for index in [0, 7, 999_999, 1_000_000, u32::MAX] {
        let expected = if index <= 999_999 { Some(index) } else { None };
        let path = wal_name(index);
        assert_eq!(path.strip_prefix("wal/").and_then(wal_index_of), expected);
        assert_eq!(path.strip_prefix("wal/").and_then(wal_number), Some(index));
    }
}

#[test]
fn log_files_are_listed_by_their_numbers() {
    assert_eq!(wal_number("wal_000042.log"), Some(42));
    assert_eq!(wal_number("wal_0000042.log"), None);
    assert_eq!(wal_number("wal_1000000.log"), Some(1_000_000));
    assert_eq!(wal_number("wal_4294967295.log"), Some(u32::MAX));
    assert_eq!(wal_number("wal_4294967296.log"), None);
    let mut storage = MemStorage::new();
    for name in ["wal_1000000.log", "wal_999999.log", "wal_000003.log", "notes.txt"] {
        put(&mut storage, &format!("wal/{name}"), b"");
    }
    assert_eq!(
        wal_files(&storage),
        Ok(vec![
            String::from("wal/wal_000003.log"),
            String::from("wal/wal_999999.log"),
            String::from("wal/wal_1000000.log"),
        ])
    );
}

#[test]
fn files_are_linked_where_none_is_yet() {
    let mut source = MemStorage::new();
    put(&mut source, "segments/a", b"12345");
    let mut target = MemStorage::new();
    assert_eq!(target.vacant(), Ok(true));
    assert_eq!(target.link(&source, "segments/a"), Ok(Some(5)));
    assert_eq!(target.read_file("segments/a"), Ok(b"12345".to_vec()));
    assert_eq!(target.link(&source, "segments/a"), Ok(None));
    assert_eq!(target.link(&source, "segments/b"), Ok(None));
    assert_eq!(
        target.link(&source, "../a"),
        Err(MnemeError::Config { reason: ConfigFault::UnsafePath })
    );
    assert_eq!(target.vacant(), Ok(false));
}
