//! A library from its beginning over flushes and merges to its backup.
//!
//! The codecs keep what they encode in a registry and write its position, so that what is read back
//! is what was written.

use std::cell::RefCell;

use mneme_persist::backup::{backup_paths, backup_to, BackupReport, CopySink};
use mneme_persist::chunk::{
    flush_build_threads, split_slot_chunks, split_slot_chunks_with, Tuning,
};
use mneme_persist::check::{verify_segment_files, verify_segments, SegmentAudit};
use mneme_persist::compact::{retain_indexes, CompactionPlan};
use mneme_persist::error::{
    BusyFault, ConfigFault, Fault, Feature, IoFault, Metric, MnemeError, SegmentFile,
};
use mneme_persist::hidx::{BuiltGraph, IndexNode, QuantCopy, QuantInfo, SegmentIndex};
use mneme_persist::hook::{FsyncHook, IoAction, NoHook};
use mneme_persist::load::DecodedSegment;
use mneme_persist::log::{op_payload, FramePlan, LoggedOp, WriteOp};
use mneme_persist::manifest::Manifest;
use mneme_persist::manifest_io::{load_manifest, Decoded};
use mneme_persist::open::{LogFile, OpenOptions};
use mneme_persist::record::{entry_from_slot, EntryData, Meta, VectorStorage};
use mneme_persist::recover::block_count;
use mneme_persist::remap::VersionRow;
use mneme_persist::segment::{
    DeltaEntry, FieldDef, IndexRegions, MsecImage, Relations, SegmentImage, StoredRecord,
    VectorSlot, VsecImage,
};
use mneme_persist::session::{release_lock, Codec};
use mneme_persist::snapshot::{
    collect_chunk_results, flush_jobs, worker_jobs, BuildJob, EncodedSegment,
};
use mneme_persist::source::{ByteFile, SegmentHandle};
use mneme_persist::state::WriterState;
use mneme_persist::storage::{MemStorage, Storage};
use mneme_persist::store::Store;
use mneme_persist::tables::NumberTable;
use mneme_persist::wal::{Envelope, FrameContent, WalFrame, WalHeader, WalImage};
use mneme_persist::wal_writer::{EncodedFrame, FsyncPolicy};

const BLOCK_ROWS: usize = 4;
const LOG_HEADER: usize = 6;
const FRAME_LEN: usize = 6;

/// The versions of a segment: record, transaction time, whether it is deleted.
type Rows = Vec<(EntryData, i64, bool)>;

/// What was encoded.
#[derive(Default)]
struct Registry {
    manifests: RefCell<Vec<Manifest>>,
    segments: RefCell<Vec<Rows>>,
    ops: RefCell<Vec<LoggedOp>>,
    plans: RefCell<Vec<FramePlan>>,
}

fn position(bytes: &[u8]) -> usize {
    let mut raw = [0; 4];
    raw.copy_from_slice(&bytes[..4]);
    u32::from_le_bytes(raw) as usize
}

fn position_bytes(at: usize) -> Vec<u8> {
    (at as u32).to_le_bytes().to_vec()
}

fn copied_op(op: &LoggedOp) -> LoggedOp {
    let copy = match &op.op {
        WriteOp::NsRegister { seqno, ns_id, path } => {
            WriteOp::NsRegister { seqno: *seqno, ns_id: *ns_id, path: path.clone() }
        },
        WriteOp::RelKindRegister { seqno, kind, name } => {
            WriteOp::RelKindRegister { seqno: *seqno, kind: *kind, name: name.clone() }
        },
        WriteOp::DeleteRow { seqno, rowid, tx_ms } => {
            WriteOp::DeleteRow { seqno: *seqno, rowid: *rowid, tx_ms: *tx_ms }
        },
        WriteOp::Insert { slot, vector } => {
            let state = WriterState::new();
            let entry = entry_from_slot(slot);
            let storage = VectorStorage::Owned(vector.clone());
            let slot = state.slot_from_entry(entry, storage, slot.norm_sq, slot.tx_ms, false);
            WriteOp::Insert { slot, vector: vector.clone() }
        },
        _ => panic!("not used here"),
    };
    LoggedOp { op: copy, payload: op.payload.clone() }
}

impl Registry {
    fn encode_manifest(&self, manifest: &Manifest) -> Result<Vec<u8>, MnemeError> {
        let mut manifests = self.manifests.borrow_mut();
        manifests.push(manifest.copied());
        Ok(position_bytes(manifests.len() - 1))
    }

    fn decode_manifest(&self, _: u64, raw: Vec<u8>) -> Decoded {
        if raw.len() != 4 {
            return Decoded::Malformed(MnemeError::Io(IoFault::InvalidInput));
        }
        Decoded::Whole(self.manifests.borrow()[position(&raw)].copied())
    }

    fn build(
        &self,
        state: &WriterState,
        job: &BuildJob,
        _: &Vec<DeltaEntry>,
    ) -> Result<EncodedSegment, MnemeError> {
        let mut segments = self.segments.borrow_mut();
        let rows = job
            .slots
            .iter()
            .map(|at| {
                let slot = state.slot(*at);
                (entry_from_slot(slot), slot.tx_ms, slot.deleted)
            })
            .collect();
        segments.push(rows);
        let bytes = position_bytes(segments.len() - 1);
        Ok(EncodedSegment {
            format_version: 2,
            vsec: bytes.clone(),
            msec: bytes,
            hidx: None,
            entry_slot: 0,
            entry_level: 0,
        })
    }

    fn decode_segment(&self, handle: &SegmentHandle) -> DecodedSegment {
        let segments = self.segments.borrow();
        let rows = &segments[position(handle.msec.as_slice())];
        let mut version_rows = Vec::new();
        let mut records = NumberTable::new();
        let mut vectors = Vec::new();
        for (at, (entry, tx_ms, deleted)) in rows.iter().enumerate() {
            version_rows.push(VersionRow {
                rowid: entry.rowid,
                seqno: entry.seqno,
                tx_ms: *tx_ms,
                slot_id: at as u32,
                doc_offset: at as u64,
            });
            let record = if *deleted {
                StoredRecord::Tombstone
            } else {
                StoredRecord::Entry(entry.copied())
            };
            records.insert(at as u64, record);
            vectors.push(VectorSlot { offset: Some(0), norm_sq: Some(0), decoded: None });
        }
        let count = rows.len();
        let image = SegmentImage {
            segment_id: handle.segment_id,
            vsec_handle: Ok(()),
            vsec: Ok(VsecImage {
                row_count: count,
                dimension: 1,
                file_len: 4,
                vectors,
                format: Ok(()),
                payload: Ok(()),
            }),
            msec_handle: Ok(()),
            msec: Ok(MsecImage {
                row_count: count,
                payload: Ok(()),
                version_rows: Ok(version_rows),
                records,
                relations: Ok(Relations {
                    full: false,
                    forward: Vec::new(),
                    reverse: Vec::new(),
                }),
                delta: Ok(Vec::new()),
                regions: IndexRegions {
                    block_count: block_count(count, BLOCK_ROWS),
                    field_dict: Ok(vec![FieldDef { id: 0, is_str: true }]),
                    zone_map: Ok(()),
                    ttl_map: Ok(()),
                    bloom: Ok(vec![0]),
                    inverted: Ok(()),
                },
            }),
        };
        DecodedSegment {
            image,
            quant: Ok(QuantInfo { format: None, unsupported: None, region: None }),
            row_count: count,
        }
    }

    fn encode_frame(
        &self,
        plan: &FramePlan,
        ops: &Vec<LoggedOp>,
        _: bool,
    ) -> Result<EncodedFrame, MnemeError> {
        let mut plans = self.plans.borrow_mut();
        let mut kept = self.ops.borrow_mut();
        plans.push(*plan);
        let mut bytes = position_bytes(plans.len() - 1);
        bytes.extend_from_slice(&[0, 0]);
        if let FramePlan::Op { position, .. } = plan {
            kept.push(copied_op(&ops[*position]));
            let at = (kept.len() - 1) as u16;
            bytes[4..].copy_from_slice(&at.to_le_bytes());
        }
        Ok(EncodedFrame { payload_len: 0, bytes })
    }

    fn read_log(&self, raw: Vec<u8>) -> LogFile {
        let header = if raw.len() >= LOG_HEADER && raw.starts_with(b"WAL1") {
            let metric = if raw[5] == 0 { Metric::Cosine } else { Metric::Dot };
            Some(WalHeader { dimension: raw[4] as u32, metric })
        } else {
            None
        };
        let mut frames = Vec::new();
        let mut at = LOG_HEADER;
        while raw.len() >= at + FRAME_LEN {
            let plan = self.plans.borrow()[position(&raw[at..])];
            let op = u16::from_le_bytes([raw[at + 4], raw[at + 5]]) as usize;
            at += FRAME_LEN;
            let (seqno, content, payload) = match plan {
                FramePlan::Begin { .. } => (0, FrameContent::BatchBegin, Vec::new()),
                FramePlan::Commit { count, crc, .. } => {
                    (0, FrameContent::BatchCommit { stated: Ok((count, crc)) }, Vec::new())
                },
                FramePlan::Op { seqno, .. } => {
                    let ops = self.ops.borrow();
                    let change = FrameContent::Change { change: Ok(op_payload(&ops[op].op)) };
                    (seqno, change, ops[op].payload.clone())
                },
            };
            frames.push(WalFrame { seqno, content, payload, envelope: Envelope::Plain, end: at });
        }
        let image =
            WalImage { byte_len: raw.len(), header_len: LOG_HEADER, frames, stop: None };
        LogFile { header, image }
    }
}

fn log_header(dimension: u32, metric: Metric) -> Vec<u8> {
    let tag = if metric == Metric::Cosine { 0 } else { 1 };
    vec![b'W', b'A', b'L', b'1', dimension as u8, tag]
}

fn no_graph(
    _: &WriterState,
    _: &ByteFile,
    _: &Vec<IndexNode>,
    _: Option<QuantCopy>,
) -> Result<(), MnemeError> {
    Ok(())
}

fn unseal(_: SegmentFile, _: u32, raw: Vec<u8>) -> Result<Vec<u8>, MnemeError> {
    Ok(raw)
}

fn seal(_: SegmentFile, _: u32, plain: &Vec<u8>) -> Result<Vec<u8>, MnemeError> {
    Ok(plain.clone())
}

fn no_delta(_: &WriterState, _: &Vec<usize>, _: bool) -> Vec<DeltaEntry> {
    Vec::new()
}

fn options() -> OpenOptions {
    OpenOptions {
        dimension: Some(1),
        metric: None,
        fsync: FsyncPolicy::Always,
        read_only: false,
        verify_on_open: true,
        fail_fast_on_corruption: true,
        wal_file_bytes: 0,
        wal_frame_max: 0,
        stopwords: true,
        has_key: false,
        block_rows: BLOCK_ROWS,
    }
}

fn reading() -> OpenOptions {
    OpenOptions { read_only: true, dimension: None, ..options() }
}

type Opened = Result<(Store, WriterState, Vec<SegmentIndex<()>>), MnemeError>;

fn open(registry: &Registry, storage: &mut MemStorage, options: &OpenOptions) -> Opened {
    let codec = Codec {
        magic: b"SEALED".to_vec(),
        manifest: |version: u64, raw: Vec<u8>| registry.decode_manifest(version, raw),
        unseal,
        segment: |handle: &SegmentHandle| registry.decode_segment(handle),
        graph: Some(no_graph),
        log: |raw: Vec<u8>| registry.read_log(raw),
        header: log_header,
    };
    Store::open(storage, None::<&NoHook>, options, &codec)
}

fn reload(registry: &Registry, storage: &mut MemStorage, store: &mut Store) -> Result<Option<u64>, MnemeError> {
    let codec = Codec {
        magic: b"SEALED".to_vec(),
        manifest: |version: u64, raw: Vec<u8>| registry.decode_manifest(version, raw),
        unseal,
        segment: |handle: &SegmentHandle| registry.decode_segment(handle),
        graph: Some(no_graph),
        log: |raw: Vec<u8>| registry.read_log(raw),
        header: log_header,
    };
    match store.reload_read_only(storage, &codec, false, BLOCK_ROWS) {
        Ok(Some((_, _, version))) => Ok(Some(version)),
        Ok(None) => Ok(None),
        Err(error) => Err(error),
    }
}

fn flush<H: FsyncHook>(
    registry: &Registry,
    storage: &mut MemStorage,
    hook: Option<&H>,
    store: &mut Store,
    state: &mut WriterState,
) -> Result<(), MnemeError> {
    let tuning = Tuning { flush_chunk_rows: 2, flush_threads: 1 };
    store.flush(
        storage,
        hook,
        state,
        &mut Vec::new(),
        &tuning,
        1,
        99,
        &no_delta,
        &|s: &WriterState, j: &BuildJob, d: &Vec<DeltaEntry>| registry.build(s, j, d),
        &seal,
        &|m: &Manifest| registry.encode_manifest(m),
        &|_: &EncodedSegment| None::<BuiltGraph<()>>,
    )
}

fn insert(state: &WriterState, rowid: u64, seqno: u64, key: &str) -> LoggedOp {
    let entry = EntryData {
        rowid,
        seqno,
        ns_id: 1,
        key: Some(String::from(key)),
        text: None,
        meta: Meta::Null,
        created_at_ms: 0,
        expires_at_ms: None,
        importance: None,
        access: None,
        valid_time: None,
        confidence: None,
        provenance: None,
    };
    let slot = state.slot_from_entry(entry, VectorStorage::Owned(vec![3]), 9, 4, false);
    LoggedOp { op: WriteOp::Insert { slot, vector: vec![3] }, payload: key.as_bytes().to_vec() }
}

/// Writes a transaction and applies it.
fn write(
    registry: &Registry,
    storage: &mut MemStorage,
    store: &mut Store,
    state: &mut WriterState,
    ops: Vec<LoggedOp>,
) {
    let encode = |plan: &FramePlan, ops: &Vec<LoggedOp>, sealed: bool| {
        registry.encode_frame(plan, ops, sealed)
    };
    store.log(storage, None::<&NoHook>, &ops, &encode).expect("log");
    for op in &ops {
        let (seqno, _) = mneme_persist::log::op_dispatch(&op.op);
        let change = Ok(op_payload(&op.op));
        mneme_persist::replay::apply_if_after_watermark(state, seqno, &change, 0).expect("apply");
    }
}

fn named(seqno: u64, ns_id: u32, path: &str) -> LoggedOp {
    LoggedOp {
        op: WriteOp::NsRegister { seqno, ns_id, path: String::from(path) },
        payload: path.as_bytes().to_vec(),
    }
}

fn kind_named(seqno: u64, kind: u16, name: &str) -> LoggedOp {
    LoggedOp {
        op: WriteOp::RelKindRegister { seqno, kind, name: String::from(name) },
        payload: name.as_bytes().to_vec(),
    }
}

fn keys(state: &WriterState) -> Vec<(u64, u64, Option<String>)> {
    (0..state.slot_count())
        .map(|at| (state.slot(at).rowid, state.slot(at).seqno, state.slot(at).key.clone()))
        .collect()
}

/// A library with three rows in two segments and one more row in its log.
fn grown(registry: &Registry, storage: &mut MemStorage) -> (Store, WriterState) {
    let (mut store, mut state, _) = open(registry, storage, &options()).expect("open");
    let first = insert(&state, 1, 3, "one");
    write(registry, storage, &mut store, &mut state, vec![
        named(1, 1, "notes"),
        kind_named(2, 16, "cites"),
        first,
    ]);
    for (rowid, seqno, key) in [(2, 4, "two"), (3, 5, "three")] {
        let op = insert(&state, rowid, seqno, key);
        write(registry, storage, &mut store, &mut state, vec![op]);
    }
    flush(registry, storage, None::<&NoHook>, &mut store, &mut state).expect("flush");
    let op = insert(&state, 4, 6, "four");
    write(registry, storage, &mut store, &mut state, vec![op]);
    (store, state)
}

#[test]
fn a_new_library_needs_a_dimension() {
    let registry = Registry::default();
    let mut storage = MemStorage::new();
    let unnamed = OpenOptions { dimension: None, ..options() };
    assert_eq!(
        open(&registry, &mut storage, &unnamed).err(),
        Some(MnemeError::Config { reason: ConfigFault::DimensionRequired })
    );
    let (store, state, indexes) = open(&registry, &mut storage, &options()).expect("open");
    assert_eq!(store.current_version(), 0);
    assert_eq!(store.dimension, 1);
    assert_eq!(store.metric, Metric::Cosine);
    assert!(store.manifest_snapshot().stopwords);
    assert_eq!(state.slot_count(), 0);
    assert!(indexes.is_empty());
    assert_eq!(storage.read_file("wal/wal_000001.log"), Ok(log_header(1, Metric::Cosine)));
}

#[test]
fn what_was_logged_is_there_again() {
    let registry = Registry::default();
    let mut storage = MemStorage::new();
    let (mut store, mut state, _) = open(&registry, &mut storage, &options()).expect("open");
    let op = insert(&state, 8, 2, "k");
    write(&registry, &mut storage, &mut store, &mut state, vec![named(1, 1, "notes"), op]);
    release_lock(&mut storage);
    let (store, state, _) = open(&registry, &mut storage, &options()).expect("reopen");
    assert_eq!(keys(&state), vec![(8, 2, Some(String::from("k")))]);
    assert_eq!(state.slot(0).ns_path, "notes");
    assert_eq!(state.next_rowid(), 9);
    assert_eq!(state.seqno(), 2);
    assert_eq!(store.current_version(), 0);
}

#[test]
fn what_was_flushed_is_there_again() {
    let registry = Registry::default();
    let mut storage = MemStorage::new();
    let (store, before) = grown(&registry, &mut storage);
    assert_eq!(store.current_version(), 1);
    assert_eq!(store.total_segments(), 2);
    assert_eq!(storage.read_file("current"), Ok(b"1".to_vec()));
    release_lock(&mut storage);
    let (store, state, _) = open(&registry, &mut storage, &options()).expect("reopen");
    assert_eq!(store.current_version(), 1);
    assert_eq!(keys(&state), keys(&before));
    assert_eq!(state.segment_of(0), Some(0));
    assert_eq!(state.segment_of(2), Some(1));
    assert_eq!(state.segment_of(3), None);
    assert_eq!(state.namespace_of("notes"), Some(1));
    assert_eq!(state.rel_kind_at(0), (16, &String::from("cites")));
    assert_eq!(state.next_rel_kind(), 17);
    assert_eq!(state.next_ns_id(), 2);
    assert_eq!(state.next_rowid(), 5);
    assert_eq!(state.seqno(), 6);
}

#[test]
fn an_idle_flush_changes_nothing() {
    let registry = Registry::default();
    let mut storage = MemStorage::new();
    let (mut store, mut state) = grown(&registry, &mut storage);
    flush(&registry, &mut storage, None::<&NoHook>, &mut store, &mut state).expect("flush");
    assert_eq!(store.current_version(), 2);
    let again = flush(&registry, &mut storage, None::<&NoHook>, &mut store, &mut state);
    assert_eq!(again, Ok(()));
    assert_eq!(store.current_version(), 2);
    assert_eq!(store.wal_bytes(), LOG_HEADER as u64);
}

#[test]
fn a_library_flushes_itself_when_its_log_is_due() {
    // The log holds its header and one frame, and one row waits for its segment.
    for (soft, rows, due) in [(0, 1, false), (13, 1, false), (12, 2, false), (12, 1, true), (1, 9, true)] {
        let registry = Registry::default();
        let mut storage = MemStorage::new();
        let (mut store, mut state) = grown(&registry, &mut storage);
        assert_eq!(store.wal_bytes(), (LOG_HEADER + FRAME_LEN) as u64);
        let result = store.maybe_flush(
            &mut storage,
            None::<&NoHook>,
            &mut state,
            &mut Vec::new(),
            soft,
            &Tuning { flush_chunk_rows: rows, flush_threads: 1 },
            1,
            99,
            &no_delta,
            &|s: &WriterState, j: &BuildJob, d: &Vec<DeltaEntry>| registry.build(s, j, d),
            &seal,
            &|m: &Manifest| registry.encode_manifest(m),
            &|_: &EncodedSegment| None::<BuiltGraph<()>>,
        );
        assert_eq!(result, Ok(()));
        assert_eq!(store.current_version(), if due { 2 } else { 1 });
        assert_eq!(state.segment_of(3), if due { Some(2) } else { None });
    }
}

/// Refuses to write one file.
struct Deny(&'static str);

impl FsyncHook for Deny {
    fn before(&self, action: IoAction<'_>) -> Result<(), MnemeError> {
        match action {
            IoAction::Write { file, .. } if file.starts_with(self.0) => {
                Err(MnemeError::Io(IoFault::Other))
            },
            _ => Ok(()),
        }
    }
}

#[test]
fn an_interrupted_flush_loses_nothing() {
    for refused in ["segments/", "MANIFEST", "current"] {
        let registry = Registry::default();
        let mut storage = MemStorage::new();
        let (mut store, mut state) = grown(&registry, &mut storage);
        let result = flush(&registry, &mut storage, Some(&Deny(refused)), &mut store, &mut state);
        assert_eq!(result, Err(MnemeError::Io(IoFault::Other)));
        assert_eq!(store.current_version(), 1);
        assert_eq!(state.segment_of(3), None);
        release_lock(&mut storage);
        let (_, reopened, _) = open(&registry, &mut storage, &options()).expect("reopen");
        assert_eq!(keys(&reopened), keys(&state));
    }
}

/// Lets everything through and keeps what it was asked.
struct Recorder(RefCell<Vec<String>>);

impl FsyncHook for Recorder {
    fn before(&self, action: IoAction<'_>) -> Result<(), MnemeError> {
        self.0.borrow_mut().push(match action {
            IoAction::Write { file, offset, len } => format!("write {file} {offset} {len}"),
            IoAction::Fsync { file } => format!("sync {file}"),
        });
        Ok(())
    }
}

#[test]
fn a_flush_asks_before_every_file() {
    let registry = Registry::default();
    let mut storage = MemStorage::new();
    let (mut store, mut state) = grown(&registry, &mut storage);
    let hook = Recorder(RefCell::new(Vec::new()));
    flush(&registry, &mut storage, Some(&hook), &mut store, &mut state).expect("flush");
    assert_eq!(
        *hook.0.borrow(),
        vec![
            "write segments/seg_000002.vsec 0 4",
            "write segments/seg_000002.msec 0 4",
            "write MANIFEST.000002 0 4",
            "write current 0 1",
            "write wal/wal_000001.log 0 6",
            "sync wal/wal_000001.log",
        ]
    );
}

#[test]
fn only_one_instance_writes() {
    let registry = Registry::default();
    let mut storage = MemStorage::new();
    let (_store, _state) = grown(&registry, &mut storage);
    assert_eq!(
        open(&registry, &mut storage, &options()).err(),
        Some(MnemeError::Busy(BusyFault::MemoryLocked))
    );
    assert!(open(&registry, &mut storage, &reading()).is_ok());
    release_lock(&mut storage);
    let wrong = OpenOptions { dimension: Some(2), ..options() };
    assert_eq!(
        open(&registry, &mut storage, &wrong).err(),
        Some(MnemeError::DimensionMismatch { expected: 1, got: 2 })
    );
    let other = OpenOptions { metric: Some(Metric::Dot), ..options() };
    assert_eq!(
        open(&registry, &mut storage, &other).err(),
        Some(MnemeError::MetricMismatch { existing: Metric::Cosine, requested: Metric::Dot })
    );
    assert!(open(&registry, &mut storage, &options()).is_ok());
}

#[test]
fn reading_changes_nothing() {
    let registry = Registry::default();
    let mut storage = MemStorage::new();
    let _ = grown(&registry, &mut storage);
    storage.write_atomic("segments/seg_000009.vsec.tmp", b"half").expect("write");
    storage.write_atomic("trash/old", b"old").expect("write");
    storage.append("wal/wal_000001.log", b"tor").expect("append");
    let log_before = storage.read_file("wal/wal_000001.log");
    let (mut store, state, _) = open(&registry, &mut storage, &reading()).expect("open");
    assert_eq!(state.slot_count(), 4);
    assert_eq!(storage.has_file("segments/seg_000009.vsec.tmp"), Ok(true));
    assert_eq!(storage.has_file("trash/old"), Ok(true));
    assert_eq!(storage.read_file("wal/wal_000001.log"), log_before);
    let encode = |plan: &FramePlan, ops: &Vec<LoggedOp>, sealed: bool| {
        registry.encode_frame(plan, ops, sealed)
    };
    let refused = Err(MnemeError::Unsupported { feature: Feature::ReadOnlyWrite });
    let ops = vec![named(9, 9, "x")];
    assert_eq!(store.log(&mut storage, None::<&NoHook>, &ops, &encode), refused);
    assert_eq!(store.log(&mut storage, None::<&NoHook>, &Vec::new(), &encode), Ok(()));
    release_lock(&mut storage);
    let _ = open(&registry, &mut storage, &options()).expect("open");
    assert_eq!(storage.has_file("segments/seg_000009.vsec.tmp"), Ok(false));
    assert_eq!(storage.has_file("trash/old"), Ok(false));
}

#[test]
fn a_torn_tail_is_cut_off() {
    let registry = Registry::default();
    let mut storage = MemStorage::new();
    let (_, before) = grown(&registry, &mut storage);
    let whole = storage.read_file("wal/wal_000001.log").expect("read");
    storage.append("wal/wal_000001.log", b"tor").expect("append");
    release_lock(&mut storage);
    let (_, state, _) = open(&registry, &mut storage, &options()).expect("open");
    assert_eq!(keys(&state), keys(&before));
    assert_eq!(storage.read_file("wal/wal_000001.log"), Ok(whole));
}

#[test]
fn readers_follow_the_library() {
    let registry = Registry::default();
    let mut storage = MemStorage::new();
    let (mut store, mut state) = grown(&registry, &mut storage);
    let (mut reader, _, _) = open(&registry, &mut storage, &reading()).expect("open");
    assert_eq!(reload(&registry, &mut storage, &mut reader), Ok(None));
    flush(&registry, &mut storage, None::<&NoHook>, &mut store, &mut state).expect("flush");
    assert_eq!(reload(&registry, &mut storage, &mut reader), Ok(Some(2)));
    assert_eq!(reader.current_version(), 2);
    assert_eq!(reader.total_segments(), 3);
    assert_eq!(
        reload(&registry, &mut storage, &mut store),
        Err(MnemeError::Config { reason: ConfigFault::ReloadNeedsReadOnly })
    );
}

#[test]
fn a_lost_manifest_is_not_taken_for_a_new_library() {
    let registry = Registry::default();
    let mut storage = MemStorage::new();
    let _ = grown(&registry, &mut storage);
    release_lock(&mut storage);
    storage.remove_if_exists("current").expect("remove");
    storage.remove_if_exists("MANIFEST.000001").expect("remove");
    storage.write_atomic("wal/wal_000001.log", &log_header(1, Metric::Cosine)).expect("write");
    assert_eq!(
        open(&registry, &mut storage, &options()).err(),
        Some(MnemeError::Corrupted { segment: None, reason: Fault::SegmentsWithoutManifest })
    );
    storage.write_atomic("current", b"1").expect("write");
    assert_eq!(
        open(&registry, &mut storage, &options()).err(),
        Some(MnemeError::Corrupted { segment: None, reason: Fault::CurrentWithoutManifest })
    );
    assert!(storage.try_lock().is_ok());
}

#[test]
fn an_older_manifest_stands_in_for_a_damaged_one() {
    let registry = Registry::default();
    let mut storage = MemStorage::new();
    let (mut store, mut state) = grown(&registry, &mut storage);
    flush(&registry, &mut storage, None::<&NoHook>, &mut store, &mut state).expect("flush");
    storage.write_atomic("MANIFEST.000002", b"damaged").expect("write");
    let decode = |version: u64, raw: Vec<u8>| registry.decode_manifest(version, raw);
    let (manifest, version) = load_manifest(&storage, &decode).expect("load").expect("found");
    assert_eq!(version, 1);
    assert_eq!(manifest.segments.len(), 2);
}

#[test]
fn a_missing_segment_keeps_a_library_closed() {
    let registry = Registry::default();
    let mut storage = MemStorage::new();
    let _ = grown(&registry, &mut storage);
    release_lock(&mut storage);
    storage.remove_if_exists("segments/seg_000000.msec").expect("remove");
    assert_eq!(
        open(&registry, &mut storage, &options()).err(),
        Some(MnemeError::Corrupted {
            segment: Some(0),
            reason: Fault::SegmentFileMissing { file: SegmentFile::Msec, segment_id: 0 },
        })
    );
}

fn merge(
    registry: &Registry,
    storage: &mut MemStorage,
    store: &mut Store,
    state: &mut WriterState,
    segments: Vec<u32>,
    keep: Vec<usize>,
    paused: bool,
) -> Result<bool, MnemeError> {
    store.compact(
        storage,
        None::<&NoHook>,
        state,
        &mut Vec::new(),
        &CompactionPlan { segments },
        &keep,
        1,
        123,
        &|_: u32, _: Vec<u8>| Ok(Vec::new()),
        &|s: &WriterState, j: &BuildJob, d: &Vec<DeltaEntry>| registry.build(s, j, d),
        &seal,
        &|m: &Manifest| registry.encode_manifest(m),
        &|| paused,
        &|_: &EncodedSegment| None::<BuiltGraph<()>>,
    )
}

#[test]
fn accesses_of_rows_without_a_version_are_carried_over() {
    let registry = Registry::default();
    let mut storage = MemStorage::new();
    let (mut store, mut state) = grown(&registry, &mut storage);
    let access = |rowid: u64| DeltaEntry::Access {
        seqno: 5,
        rowid,
        last_access_ms: 8,
        access_delta: 2,
        importance_delta: 7,
    };
    let seen = RefCell::new(Vec::new());
    let merged = store.compact(
        &mut storage,
        None::<&NoHook>,
        &mut state,
        &mut Vec::new(),
        &CompactionPlan { segments: vec![0, 1] },
        &vec![0, 1, 2],
        1,
        123,
        // The first row has its latest version in the merged segment, the other row has none.
        &|id: u32, _: Vec<u8>| Ok(if id == 0 { vec![access(1), access(77)] } else { Vec::new() }),
        &|s: &WriterState, j: &BuildJob, d: &Vec<DeltaEntry>| {
            for entry in d {
                if let DeltaEntry::Access { rowid, access_delta, importance_delta, .. } = entry {
                    seen.borrow_mut().push((*rowid, *access_delta, *importance_delta));
                }
            }
            registry.build(s, j, d)
        },
        &seal,
        &|m: &Manifest| registry.encode_manifest(m),
        &|| false,
        &|_: &EncodedSegment| None::<BuiltGraph<()>>,
    );
    assert_eq!(merged, Ok(true));
    assert_eq!(*seen.borrow(), vec![(77, 2, 7)]);
}

#[test]
fn new_segments_bring_their_graphs() {
    let registry = Registry::default();
    let mut storage = MemStorage::new();
    let (mut store, mut state) = grown(&registry, &mut storage);
    let mut indexes: Vec<SegmentIndex<usize>> = vec![SegmentIndex {
        segment_id: 0,
        index: 50,
        slots: vec![0, 1],
        format: None,
        recall_est: None,
    }];
    let graph_of = |segment: &EncodedSegment| {
        let position = position(&segment.vsec);
        let recall_est = Some((0.5_f32 + position as f32 / 16.0).to_bits());
        Some(BuiltGraph { index: position, format: Some(1), recall_est })
    };
    let flushed = store.flush(
        &mut storage,
        None::<&NoHook>,
        &mut state,
        &mut indexes,
        &Tuning { flush_chunk_rows: 2, flush_threads: 1 },
        1,
        99,
        &no_delta,
        &|s: &WriterState, j: &BuildJob, d: &Vec<DeltaEntry>| registry.build(s, j, d),
        &seal,
        &|m: &Manifest| registry.encode_manifest(m),
        &graph_of,
    );
    assert_eq!(flushed, Ok(()));
    let summary = |indexes: &[SegmentIndex<usize>]| -> Vec<(u32, usize, Vec<u32>, Option<u8>)> {
        indexes
            .iter()
            .map(|graph| (graph.segment_id, graph.index, graph.slots.clone(), graph.format))
            .collect()
    };
    assert_eq!(
        summary(&indexes),
        vec![(0, 50, vec![0, 1], None), (2, 2, vec![3], Some(1))]
    );
    assert_eq!(indexes[0].recall_est, None);
    assert_eq!(indexes[1].recall_est, Some(0.625_f32.to_bits()));
    let merged = store.compact(
        &mut storage,
        None::<&NoHook>,
        &mut state,
        &mut indexes,
        &CompactionPlan { segments: vec![0, 1] },
        &vec![0, 1, 2],
        1,
        123,
        &|_: u32, _: Vec<u8>| Ok(Vec::new()),
        &|s: &WriterState, j: &BuildJob, d: &Vec<DeltaEntry>| registry.build(s, j, d),
        &seal,
        &|m: &Manifest| registry.encode_manifest(m),
        &|| false,
        &graph_of,
    );
    assert_eq!(merged, Ok(true));
    assert_eq!(
        summary(&indexes),
        vec![(2, 2, vec![3], Some(1)), (3, 3, vec![0, 1, 2], Some(1))]
    );
    assert_eq!(indexes[0].recall_est, Some(0.625_f32.to_bits()));
    assert_eq!(indexes[1].recall_est, Some(0.6875_f32.to_bits()));
}

#[test]
fn unreadable_manifests_are_not_taken_for_none() {
    let registry = Registry::default();
    let mut storage = MemStorage::new();
    let decode = |version: u64, raw: Vec<u8>| registry.decode_manifest(version, raw);
    assert!(matches!(load_manifest(&storage, &decode), Ok(None)));
    storage.write_atomic("MANIFEST.000001", b"damaged").expect("write");
    let unreadable = MnemeError::Corrupted { segment: None, reason: Fault::ManifestUnreadable };
    assert_eq!(load_manifest(&storage, &decode).err(), Some(unreadable));
    assert_eq!(open(&registry, &mut storage, &options()).err(), Some(unreadable));
    assert_eq!(storage.read_file("MANIFEST.000001"), Ok(b"damaged".to_vec()));
}

#[test]
fn a_whole_manifest_loads_beside_one_that_cannot_be_opened() {
    let registry = Registry::default();
    let mut storage = MemStorage::new();
    let (mut store, mut state) = grown(&registry, &mut storage);
    flush(&registry, &mut storage, None::<&NoHook>, &mut store, &mut state).expect("flush");
    let version = store.current_version();
    storage.write_atomic("MANIFEST.000900", b"sealed").expect("write");
    let no_key = MnemeError::Unsupported { feature: Feature::Encrypt };
    let decode = |number: u64, raw: Vec<u8>| {
        if raw.as_slice() == b"sealed" {
            Decoded::Sealed(no_key)
        } else {
            registry.decode_manifest(number, raw)
        }
    };
    let (manifest, loaded) = load_manifest(&storage, &decode).expect("load").expect("found");
    assert_eq!(loaded, version);
    assert_eq!(manifest.segments.len(), store.total_segments());
    // Only where `current` leads nowhere are the other versions tried, the newest first.
    storage.write_atomic("current", b"none").expect("write");
    assert_eq!(load_manifest(&storage, &decode).err(), Some(no_key));
}

#[test]
fn two_versions_stay() {
    let registry = Registry::default();
    let mut storage = MemStorage::new();
    let (mut store, mut state) = grown(&registry, &mut storage);
    for (rowid, key) in [(5, "five"), (6, "six"), (7, "seven")] {
        let op = insert(&state, rowid, rowid + 2, key);
        write(&registry, &mut storage, &mut store, &mut state, vec![op]);
        flush(&registry, &mut storage, None::<&NoHook>, &mut store, &mut state).expect("flush");
    }
    let mut manifests = storage.list_dir("").expect("list");
    manifests.retain(|name| name.starts_with("MANIFEST"));
    assert_eq!(manifests, vec!["MANIFEST.000003", "MANIFEST.000004"]);
    assert_eq!(storage.read_file("current"), Ok(b"4".to_vec()));
    let decode = |version: u64, raw: Vec<u8>| registry.decode_manifest(version, raw);
    let (_, version) = load_manifest(&storage, &decode).expect("load").expect("found");
    assert_eq!(version, 4);
}

#[test]
fn a_failed_flush_leaves_the_log_as_it_was() {
    let registry = Registry::default();
    let mut storage = MemStorage::new();
    let (mut store, mut state) = grown(&registry, &mut storage);
    let log_before = storage.read_file("wal/wal_000001.log");
    let result = flush(&registry, &mut storage, Some(&Deny("current")), &mut store, &mut state);
    assert_eq!(result, Err(MnemeError::Io(IoFault::Other)));
    assert_eq!(storage.read_file("wal/wal_000001.log"), log_before);
    flush(&registry, &mut storage, None::<&NoHook>, &mut store, &mut state).expect("flush");
    assert_eq!(storage.read_file("wal/wal_000001.log"), Ok(log_header(1, Metric::Cosine)));
}

#[test]
fn merged_segments_take_the_place_of_the_old() {
    let registry = Registry::default();
    let mut storage = MemStorage::new();
    let (mut store, mut state) = grown(&registry, &mut storage);
    flush(&registry, &mut storage, None::<&NoHook>, &mut store, &mut state).expect("flush");
    assert_eq!(store.total_segments(), 3);
    let put_off =
        merge(&registry, &mut storage, &mut store, &mut state, vec![0, 1], vec![0, 1, 2], true);
    assert_eq!(put_off, Ok(false));
    assert_eq!(store.total_segments(), 3);
    let merged =
        merge(&registry, &mut storage, &mut store, &mut state, vec![0, 1], vec![0, 1, 2], false);
    assert_eq!(merged, Ok(true));
    assert_eq!(store.total_segments(), 2);
    assert_eq!(store.current_version(), 3);
    let ids: Vec<u32> =
        store.manifest_snapshot().segments.iter().map(|entry| entry.segment_id).collect();
    assert_eq!(ids, vec![2, 3]);
    assert_eq!(state.segment_of(0), Some(3));
    assert_eq!(storage.has_file("segments/seg_000000.vsec"), Ok(false));
    release_lock(&mut storage);
    let (_, reopened, _) = open(&registry, &mut storage, &options()).expect("reopen");
    assert_eq!(keys(&reopened), keys(&state));
}

#[test]
fn a_paused_merge_does_not_come_to_its_commit() {
    let registry = Registry::default();
    let mut storage = MemStorage::new();
    let (mut store, mut state) = grown(&registry, &mut storage);
    for (paused, expected) in [(true, Ok(false)), (false, Err(MnemeError::Io(IoFault::Other)))] {
        let merged = store.compact(
            &mut storage,
            Some(&Deny("MANIFEST")),
            &mut state,
            &mut Vec::new(),
            &CompactionPlan { segments: vec![0, 1] },
            &vec![0, 1, 2],
            1,
            123,
            &|_: u32, _: Vec<u8>| Ok(Vec::new()),
            &|s: &WriterState, j: &BuildJob, d: &Vec<DeltaEntry>| registry.build(s, j, d),
            &seal,
            &|m: &Manifest| registry.encode_manifest(m),
            &|| paused,
            &|_: &EncodedSegment| None::<BuiltGraph<()>>,
        );
        assert_eq!(merged, expected);
        assert_eq!(store.current_version(), 1);
        assert_eq!(store.total_segments(), 2);
    }
}

#[test]
fn a_merge_reports_the_first_delta_that_cannot_be_read() {
    let registry = Registry::default();
    let mut storage = MemStorage::new();
    let (mut store, mut state) = grown(&registry, &mut storage);
    let asked = RefCell::new(Vec::new());
    let merged = store.compact(
        &mut storage,
        None::<&NoHook>,
        &mut state,
        &mut Vec::new(),
        &CompactionPlan { segments: vec![0, 1] },
        &vec![0, 1, 2],
        1,
        123,
        &|id: u32, _: Vec<u8>| {
            asked.borrow_mut().push(id);
            Err(MnemeError::Corrupted { segment: Some(id), reason: Fault::RowCountMismatch })
        },
        &|s: &WriterState, j: &BuildJob, d: &Vec<DeltaEntry>| registry.build(s, j, d),
        &seal,
        &|m: &Manifest| registry.encode_manifest(m),
        &|| false,
        &|_: &EncodedSegment| None::<BuiltGraph<()>>,
    );
    assert!(matches!(merged, Err(MnemeError::Corrupted { segment: Some(0), .. })));
    assert_eq!(*asked.borrow(), vec![0]);
    assert_eq!(store.total_segments(), 2);
}

#[test]
fn graphs_of_other_segments_stay_after_a_merge() {
    let indexes: Vec<SegmentIndex<u8>> = [0, 1, 2, 3]
        .iter()
        .map(|id| SegmentIndex {
            segment_id: *id,
            index: *id as u8 + 10,
            slots: vec![*id],
            format: None,
            recall_est: None,
        })
        .collect();
    let kept = retain_indexes(indexes, &CompactionPlan { segments: vec![0, 2] }, 3);
    assert_eq!(kept.len(), 1);
    assert_eq!(kept[0].segment_id, 1);
    assert_eq!(kept[0].index, 11);
    assert_eq!(kept[0].slots, vec![1]);
}

#[test]
fn damaged_segments_are_listed() {
    let registry = Registry::default();
    let mut storage = MemStorage::new();
    let (store, _) = grown(&registry, &mut storage);
    let manifest = store.manifest_snapshot();
    let damaged = MnemeError::Corrupted { segment: Some(1), reason: Fault::HidxCrcMismatch };
    let audits = || -> Vec<SegmentAudit> {
        manifest
            .segments
            .iter()
            .map(|entry| {
                let handle = SegmentHandle::open(&storage, entry, true, b"SEALED", &unseal);
                let decoded = registry.decode_segment(&handle.expect("open"));
                SegmentAudit { image: decoded.image, key_rows: Ok(()), ns_stats: Ok(()) }
            })
            .collect()
    };
    let whole = audits();
    assert_eq!(verify_segment_files(&whole[1]), Ok(()));
    assert_eq!(verify_segments(&manifest, &whole, &vec![Ok(()), Ok(())]), Vec::<u32>::new());
    assert_eq!(verify_segments(&manifest, &whole, &vec![Err(damaged), Ok(())]), vec![0]);
    let mut broken = audits();
    if let Ok(msec) = &mut broken[1].image.msec {
        msec.payload = Err(damaged);
    }
    assert_eq!(verify_segment_files(&broken[1]), Err(damaged));
    assert_eq!(verify_segments(&manifest, &broken, &vec![Ok(()), Ok(())]), vec![1]);
    let mut torn = audits();
    if let Ok(vsec) = &mut torn[0].image.vsec {
        vsec.row_count += 1;
    }
    assert_eq!(
        verify_segment_files(&torn[0]),
        Err(MnemeError::Corrupted { segment: Some(0), reason: Fault::RowCountMismatch }),
    );
}

#[test]
fn a_merge_needs_segments_that_are_there() {
    let registry = Registry::default();
    let mut storage = MemStorage::new();
    let (mut store, mut state) = grown(&registry, &mut storage);
    let none = merge(&registry, &mut storage, &mut store, &mut state, vec![], vec![], false);
    assert!(matches!(none, Err(MnemeError::Inconsistent { .. })));
    let absent = merge(&registry, &mut storage, &mut store, &mut state, vec![7], vec![], false);
    assert!(matches!(absent, Err(MnemeError::Inconsistent { .. })));
}

#[test]
fn a_backup_opens_on_its_own() {
    let registry = Registry::default();
    let mut storage = MemStorage::new();
    let (store, state) = grown(&registry, &mut storage);
    let (version, manifest) = store.versioned_manifest();
    let paths = backup_paths(&manifest);
    assert_eq!(paths, vec![
        "segments/seg_000000.vsec",
        "segments/seg_000000.msec",
        "segments/seg_000001.vsec",
        "segments/seg_000001.msec",
    ]);
    let mut target = MemStorage::new();
    let report = backup_to(&storage, &mut target, false, version, &manifest);
    let log_len = storage.stat("wal/wal_000001.log").expect("stat").len;
    assert_eq!(
        report,
        Ok(BackupReport { files: 7, bytes: 4 * 4 + 4 + log_len + 1, hardlinked: true })
    );
    let (copy, copied, _) = open(&registry, &mut target, &options()).expect("open backup");
    assert_eq!(copy.current_version(), 1);
    assert_eq!(keys(&copied), keys(&state));
    assert_eq!(
        backup_to(&storage, &mut target, false, version, &manifest),
        Err(MnemeError::Busy(BusyFault::BackupTargetNotEmpty))
    );
    assert_eq!(
        backup_to(&storage, &mut MemStorage::new(), true, version, &manifest),
        Err(MnemeError::Config { reason: ConfigFault::BackupIntoSelf })
    );
    storage.remove_if_exists("segments/seg_000001.msec").expect("remove");
    let mut broken = MemStorage::new();
    assert_eq!(
        backup_to(&storage, &mut broken, false, version, &manifest),
        Err(MnemeError::Corrupted { segment: None, reason: Fault::BackupFileUnreadable })
    );
    assert_eq!(broken.has_file("current"), Ok(false));
}

#[test]
fn a_backup_needs_a_place_where_nothing_is() {
    let registry = Registry::default();
    let mut storage = MemStorage::new();
    let (store, _) = grown(&registry, &mut storage);
    let (version, manifest) = store.versioned_manifest();
    let busy = Err(MnemeError::Busy(BusyFault::BackupTargetNotEmpty));
    let mut with_dir = MemStorage::new();
    with_dir.ensure_dir("photos").expect("create");
    assert_eq!(backup_to(&storage, &mut with_dir, false, version, &manifest), busy);
    assert_eq!(with_dir.list_dir("segments"), Ok(Vec::new()));
    assert_eq!(with_dir.has_file("current"), Ok(false));
    let mut with_file = MemStorage::new();
    with_file.write_atomic("photos/one", b"1").expect("write");
    assert_eq!(backup_to(&storage, &mut with_file, false, version, &manifest), busy);
    assert_eq!(with_file.read_file("photos/one"), Ok(b"1".to_vec()));
    let mut prepared = MemStorage::new();
    prepared.ensure_dir("").expect("create");
    assert!(backup_to(&storage, &mut prepared, false, version, &manifest).is_ok());
    for rel in backup_paths(&manifest) {
        assert_eq!(prepared.read_file(&rel), storage.read_file(&rel));
    }
}

fn a_file_that_cannot_be_linked_is_copied() {
    let mut source = MemStorage::new();
    let mut target = MemStorage::new();
    let rel = "segments/seg_000001.vsec";
    let content = b"fake segment bytes";
    source.write_atomic(rel, content).expect("write source");
    target.write_atomic(rel, b"stale").expect("write stale");
    let mut sink = CopySink { files: 0, bytes: 0, hardlinked: true };
    sink.link_or_copy_required(&source, &mut target, rel).expect("copy fallback");
    assert!(!sink.hardlinked);
    assert_eq!(sink.files, 1);
    assert_eq!(sink.bytes, content.len() as u64);
    assert_eq!(target.read_file(rel).expect("read"), content);
}

#[test]
fn snapshot_hardlink_failure_falls_back_to_copy() {
    a_file_that_cannot_be_linked_is_copied();
}

#[test]
fn tests_hardlink_failure_falls_back_to_copy() {
    a_file_that_cannot_be_linked_is_copied();
}

fn chunks_cover_all_slots() {
    let tuning = Tuning::default();
    let slots: Vec<usize> = (0..10_000).collect();
    let chunks = split_slot_chunks(&slots, &tuning);
    assert!(!chunks.is_empty());
    let flat: Vec<usize> = chunks.iter().flat_map(|chunk| chunk.iter().copied()).collect();
    assert_eq!(flat, slots);

    let empty = split_slot_chunks(&vec![], &tuning);
    assert_eq!(empty.len(), 1);
    assert!(empty[0].is_empty());

    let small_chunks = {
        let custom = Tuning { flush_chunk_rows: 1_024, ..tuning };
        split_slot_chunks(&slots, &custom)
    };
    assert_eq!(small_chunks.len(), 10);
}

#[test]
fn snapshot_split_slot_chunks_covers_all_slots_in_order() {
    chunks_cover_all_slots();
}

#[test]
fn tests_split_slot_chunks_covers_all_slots_in_order() {
    chunks_cover_all_slots();
}

fn builders_fit_the_memory() {
    assert_eq!(flush_build_threads(1536, 65_536, 8, 16), 7);
    assert_eq!(flush_build_threads(1536, 65_536, 16, 16), 7);
    assert_eq!(flush_build_threads(128, 65_536, 8, 16), 8);
    assert_eq!(flush_build_threads(128, 65_536, 8, 3), 3);
    assert_eq!(flush_build_threads(0, 0, 0, 0), 1);
}

#[test]
fn snapshot_flush_build_threads_bounded_by_memory_budget() {
    builders_fit_the_memory();
}

#[test]
fn tests_flush_build_threads_bounded_by_memory_budget() {
    builders_fit_the_memory();
}

fn chunks_have_a_limit() {
    let slots: Vec<usize> = (0..10_000).collect();
    let chunks = split_slot_chunks_with(&slots, 1_024);
    assert_eq!(chunks.len(), 10);
    assert!(chunks.iter().all(|chunk| chunk.len() <= 1_024));
    assert_eq!(chunks.iter().map(|chunk| chunk.len()).sum::<usize>(), 10_000);
}

#[test]
fn snapshot_split_slot_chunks_limits_block_rows() {
    chunks_have_a_limit();
}

#[test]
fn tests_split_slot_chunks_limits_block_rows() {
    chunks_have_a_limit();
}

#[test]
fn more_builders_run_where_more_fit() {
    for dimension in [64, 384, 1536, 8192] {
        for rows in [1_024, 65_536, 1_048_576] {
            for threads in [1, 4, 16] {
                for chunks in [1, 8, 32] {
                    let used = flush_build_threads(dimension, rows, threads, chunks);
                    assert!(used <= flush_build_threads(dimension / 2, rows, threads, chunks));
                    assert!(used <= flush_build_threads(dimension, rows / 2, threads, chunks));
                    assert!(used <= flush_build_threads(dimension, rows, threads * 2, chunks));
                    assert!(used <= flush_build_threads(dimension, rows, threads, chunks * 2));
                }
            }
        }
    }
}

#[test]
fn jobs_are_dealt_to_workers_once() {
    let mut dealt: Vec<usize> = Vec::new();
    for worker in 0..3 {
        dealt.extend(worker_jobs(worker, 3, 7));
    }
    dealt.sort();
    assert_eq!(dealt, vec![0, 1, 2, 3, 4, 5, 6]);
    let produced = vec![Ok(vec![(1, 'b')]), Ok(vec![(0, 'a'), (2, 'c')])];
    assert_eq!(collect_chunk_results(produced, 3), Ok(vec!['a', 'b', 'c']));
    let missing = vec![Ok(vec![(1, 'b')])];
    assert!(matches!(collect_chunk_results(missing, 2), Err(MnemeError::Inconsistent { .. })));
    let failed: Vec<Result<Vec<(usize, char)>, MnemeError>> =
        vec![Ok(vec![(0, 'a')]), Err(MnemeError::Io(IoFault::Other))];
    assert_eq!(collect_chunk_results(failed, 1), Err(MnemeError::Io(IoFault::Other)));
}

#[test]
fn a_flush_has_a_job_for_every_chunk() {
    let tuning = Tuning { flush_chunk_rows: 2, flush_threads: 4 };
    let jobs = flush_jobs(&vec![0, 1, 2], false, true, 8, &tuning, 6);
    assert_eq!(jobs.len(), 2);
    assert_eq!(jobs[0].slots, vec![0, 1]);
    assert!(jobs[0].full_relations);
    assert_eq!(jobs[1].slots, vec![2]);
    assert!(!jobs[1].full_relations);
}
