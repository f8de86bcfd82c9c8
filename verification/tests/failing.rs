//! What becomes of the errors of a backend that fails.

use mneme_persist::backup::backup_to;
use mneme_persist::cleanup::{cleanup_orphans, segment_files};
use mneme_persist::error::{Fault, IoFault, Metric, MnemeError, SegmentFile};
use mneme_persist::manifest::{Manifest, SegmentEntry};
use mneme_persist::manifest_io::{load_manifest, prune_manifests, read_current, Decoded};
use mneme_persist::session::{acquire_lock, prepare_root};
use mneme_persist::source::ByteFile;
use mneme_persist::storage::{
    FailureSet, FileMap, FileMeta, MemStorage, PathSet, RawBytes, Storage,
};
use mneme_persist::trash::{move_to_trash, purge};
use mneme_persist::wal_writer::wal_files;

const BROKEN: MnemeError = MnemeError::Io(IoFault::Other);

/// What a backend fails at.
#[derive(Clone, Copy, Debug, PartialEq, Eq)]
enum Broken {
    Nothing,
    Read,
    Write,
    Remove,
    Rename,
    Look,
    List,
    Create,
    Lock,
}

/// A backend that fails at one step.
struct Failing {
    inner: MemStorage,
    broken: Broken,
}

impl Failing {
    fn new(broken: Broken) -> Failing {
        Failing { inner: MemStorage::new(), broken }
    }

    fn check(&self, step: Broken) -> Result<(), MnemeError> {
        if self.broken == step {
            Err(BROKEN)
        } else {
            Ok(())
        }
    }
}

impl Storage for Failing {
    fn files(&self) -> FileMap {
        unreachable!()
    }

    fn wf(&self) -> bool {
        unreachable!()
    }

    fn reliable(&self) -> bool {
        unreachable!()
    }

    fn cuts(&self) -> bool {
        unreachable!()
    }

    fn failures(&self) -> FailureSet {
        unreachable!()
    }

    fn locked(&self) -> bool {
        unreachable!()
    }

    fn has_root(&self) -> bool {
        unreachable!()
    }

    fn dirs(&self) -> PathSet {
        unreachable!()
    }

    fn linked(&self) -> PathSet {
        unreachable!()
    }

    fn links(&self) -> bool {
        unreachable!()
    }

    fn settled(&self) -> PathSet {
        unreachable!()
    }

    fn read_file(&self, rel: &str) -> Result<Vec<u8>, MnemeError> {
        self.check(Broken::Read)?;
        self.inner.read_file(rel)
    }

    fn read_file_opt(&self, rel: &str) -> Result<Option<Vec<u8>>, MnemeError> {
        self.check(Broken::Read)?;
        self.inner.read_file_opt(rel)
    }

    fn write_atomic(&mut self, rel: &str, bytes: &[u8]) -> Result<(), MnemeError> {
        self.check(Broken::Write)?;
        self.inner.write_atomic(rel, bytes)
    }

    fn write_new(&mut self, rel: &str, bytes: &[u8]) -> Result<(), MnemeError> {
        self.check(Broken::Create)?;
        self.inner.write_new(rel, bytes)
    }

    fn append(&mut self, rel: &str, bytes: &[u8]) -> Result<u64, MnemeError> {
        self.inner.append(rel, bytes)
    }

    fn truncate(&mut self, rel: &str, len: u64) -> Result<(), MnemeError> {
        self.inner.truncate(rel, len)
    }

    fn sync(&mut self, rel: &str) -> Result<(), MnemeError> {
        self.inner.sync(rel)
    }

    fn list_dir(&self, rel: &str) -> Result<Vec<String>, MnemeError> {
        self.check(Broken::List)?;
        self.inner.list_dir(rel)
    }

    fn ensure_dir(&mut self, rel: &str) -> Result<(), MnemeError> {
        self.check(Broken::Create)?;
        self.inner.ensure_dir(rel)
    }

    fn remove_if_exists(&mut self, rel: &str) -> Result<(), MnemeError> {
        self.check(Broken::Remove)?;
        self.inner.remove_if_exists(rel)
    }

    fn rename(&mut self, from: &str, to: &str) -> Result<(), MnemeError> {
        self.check(Broken::Rename)?;
        self.inner.rename(from, to)
    }

    fn has_file(&self, rel: &str) -> Result<bool, MnemeError> {
        self.check(Broken::Look)?;
        self.inner.has_file(rel)
    }

    fn stat(&self, rel: &str) -> Result<FileMeta, MnemeError> {
        self.check(Broken::Look)?;
        self.inner.stat(rel)
    }

    fn open_bytes(&self, rel: &str) -> Result<RawBytes, MnemeError> {
        self.check(Broken::Read)?;
        self.inner.open_bytes(rel)
    }

    fn root_exists(&self) -> Result<bool, MnemeError> {
        self.check(Broken::Look)?;
        self.inner.root_exists()
    }

    fn vacant(&self) -> Result<bool, MnemeError> {
        self.check(Broken::Look)?;
        self.inner.vacant()
    }

    fn link(&mut self, _: &Self, _: &str) -> Result<Option<u64>, MnemeError> {
        Ok(None)
    }

    fn try_lock(&mut self) -> Result<(), MnemeError> {
        self.check(Broken::Lock)?;
        self.inner.try_lock()
    }

    fn unlock(&mut self) {
        self.inner.unlock();
    }
}

fn entry(id: u32) -> SegmentEntry {
    SegmentEntry {
        segment_id: id,
        format_version: 2,
        row_count: 4,
        min_seqno: 0,
        max_seqno: 0,
        created_ms: 77,
        vsec_crc: 0,
        msec_crc: 0,
        hidx_crc: 0,
        entry_slot: 0,
        entry_level: 0,
    }
}

fn manifest(ids: &[u32]) -> Manifest {
    Manifest {
        dimension: 2,
        metric: Metric::Dot,
        stopwords: false,
        next_rel_kind: 16,
        manifest_version: 3,
        watermark_seqno: 0,
        next_rowid: 0,
        next_segment_id: 9,
        next_ns_id: 1,
        namespaces: Vec::new(),
        rel_kinds: Vec::new(),
        segments: ids.iter().map(|id| entry(*id)).collect(),
    }
}

#[test]
fn loading_a_manifest_passes_failures_on() {
    let whole = |_: u64, _: Vec<u8>| Decoded::Whole(manifest(&[]));
    for broken in [Broken::Look, Broken::Read] {
        let mut storage = Failing::new(broken);
        storage.write_atomic("MANIFEST.000003", b"m").expect("write");
        storage.write_atomic("current", b"3").expect("write");
        assert_eq!(load_manifest(&storage, &whole).err(), Some(BROKEN));
    }
    // The directory is listed only where `current` leads nowhere.
    let mut storage = Failing::new(Broken::List);
    storage.write_atomic("MANIFEST.000003", b"m").expect("write");
    assert_eq!(load_manifest(&storage, &whole).err(), Some(BROKEN));
    storage.write_atomic("current", b"3").expect("write");
    assert!(matches!(load_manifest(&storage, &whole), Ok(Some((_, 3)))));
    let storage = Failing::new(Broken::Read);
    assert_eq!(read_current(&storage), None);
}

#[test]
fn listing_and_clearing_pass_failures_on() {
    let mut storage = Failing::new(Broken::List);
    assert_eq!(segment_files(&storage), Err(BROKEN));
    assert_eq!(wal_files(&storage), Err(BROKEN));
    assert_eq!(cleanup_orphans(&mut storage), Err(BROKEN));
    assert_eq!(purge(&mut storage), Err(BROKEN));
    assert_eq!(prune_manifests(&mut storage), Err(BROKEN));
    let mut storage = Failing::new(Broken::Remove);
    storage.write_atomic("segments/a.tmp", b"a").expect("write");
    storage.write_atomic("trash/b", b"b").expect("write");
    assert_eq!(cleanup_orphans(&mut storage), Err(BROKEN));
    assert_eq!(purge(&mut storage), Err(BROKEN));
    let mut storage = Failing::new(Broken::Rename);
    storage.write_atomic("segments/a", b"a").expect("write");
    assert_eq!(move_to_trash(&mut storage, &vec![String::from("a")]), Err(BROKEN));
    assert_eq!(storage.read_file("segments/a"), Ok(b"a".to_vec()));
}

#[test]
fn beginning_a_library_passes_failures_on() {
    assert_eq!(prepare_root(&mut Failing::new(Broken::Create), false), Err(BROKEN));
    assert_eq!(prepare_root(&mut Failing::new(Broken::Look), true), Err(BROKEN));
    assert_eq!(prepare_root(&mut Failing::new(Broken::Look), false), Ok(()));
    assert_eq!(acquire_lock(&mut Failing::new(Broken::Lock), false), Err(BROKEN));
    assert_eq!(acquire_lock(&mut Failing::new(Broken::Lock), true), Ok(()));
}

#[test]
fn opening_a_segment_passes_failures_on() {
    let mut storage = Failing::new(Broken::Read);
    storage.write_atomic("segments/seg_000001.vsec", b"v").expect("write");
    let plain = |_: SegmentFile, _: u32, raw: Vec<u8>| Ok(raw);
    let opened = ByteFile::open(&storage, SegmentFile::Vsec, 1, b"SEAL", &plain);
    assert_eq!(opened.err(), Some(BROKEN));
}

#[test]
fn a_backup_passes_failures_on() {
    let library = |broken: Broken| {
        let mut source = Failing::new(broken);
        for name in ["segments/seg_000001.vsec", "segments/seg_000001.msec", "MANIFEST.000003"] {
            source.write_atomic(name, b"content").expect("write");
        }
        source
    };
    let backup = |source: &Failing, target: &mut Failing| {
        backup_to(source, target, false, 3, &manifest(&[1])).map(|report| report.files)
    };
    let whole = library(Broken::Nothing);
    assert_eq!(backup(&whole, &mut Failing::new(Broken::Nothing)), Ok(4));
    assert_eq!(backup(&whole, &mut Failing::new(Broken::Look)), Err(BROKEN));
    let mut target = Failing::new(Broken::Write);
    assert_eq!(backup(&whole, &mut target), Err(BROKEN));
    assert_eq!(target.has_file("current"), Ok(false));
    // A file that cannot be read is reported as such, whatever the reason.
    assert_eq!(
        backup(&library(Broken::Read), &mut Failing::new(Broken::Nothing)),
        Err(MnemeError::Corrupted { segment: None, reason: Fault::BackupFileUnreadable })
    );
    assert_eq!(
        backup(&library(Broken::List), &mut Failing::new(Broken::Nothing)),
        Err(BROKEN)
    );
}
