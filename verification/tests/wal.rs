//! The log writer and the transactions that it writes.

use std::cell::{Cell, RefCell};

use mneme_persist::crc::crc32;
use mneme_persist::error::{Fault, Feature, IoFault, LimitField, Metric, MnemeError};
use mneme_persist::hook::{FsyncHook, IoAction, NoHook};
use mneme_persist::log::{
    is_flush_due, log, log_transaction, observer_write_op, op_dispatch, op_payload,
    plan_transaction, FramePlan, LoggedOp, ObservedOp, WriteOp, FLUSH_WAL_HARD_FACTOR,
};
use mneme_persist::record::Meta;
use mneme_persist::storage::{MemStorage, Storage};
use mneme_persist::wal::{Change, FrameKind, WalHeader};
use mneme_persist::wal_writer::{
    open_or_create, wal_files, EncodedFrame, FsyncPolicy, WalConfig, WalWriter,
};

const HEADER: &[u8] = b"WAL1-header-16by";
const ACTIVE: &str = "wal/wal_000001.log";

/// Lets the first header through and refuses every later one.
struct DenyAfterFirst {
    seen: Cell<usize>,
}

impl FsyncHook for DenyAfterFirst {
    fn before(&self, action: IoAction<'_>) -> Result<(), MnemeError> {
        if let IoAction::Write { file, offset: 0, .. } = action {
            if file.starts_with("wal/") {
                let seen = self.seen.get();
                self.seen.set(seen + 1);
                if seen >= 1 {
                    return Err(MnemeError::Io(IoFault::Other));
                }
            }
        }
        Ok(())
    }
}

/// Refuses to bring a file to stable storage.
struct DenySync;

impl FsyncHook for DenySync {
    fn before(&self, action: IoAction<'_>) -> Result<(), MnemeError> {
        match action {
            IoAction::Fsync { .. } => Err(MnemeError::Io(IoFault::Other)),
            IoAction::Write { .. } => Ok(()),
        }
    }
}

fn config() -> WalConfig {
    WalConfig {
        dimension: 4,
        metric: Metric::Cosine,
        header: HEADER.to_vec(),
        policy: FsyncPolicy::Always,
        max_file_bytes: 0,
        read_only: false,
        encrypts: false,
        frame_max: 0,
    }
}

fn frame(payload: &[u8]) -> EncodedFrame {
    let mut bytes = vec![payload.len() as u8];
    bytes.extend_from_slice(payload);
    EncodedFrame { payload_len: payload.len(), bytes }
}

fn opened(storage: &mut MemStorage, config: WalConfig) -> WalWriter {
    open_or_create(storage, None::<&NoHook>, config, &Vec::new(), None).expect("create wal")
}

#[test]
fn frame_payload_over_limit_is_rejected() {
    let mut storage = MemStorage::new();
    let mut limited = config();
    limited.frame_max = 64;
    let mut writer = opened(&mut storage, limited);
    writer.append(&mut storage, None::<&NoHook>, &frame(&[0; 64])).expect("at the limit");
    let before = writer.len();
    let result = writer.append(&mut storage, None::<&NoHook>, &frame(&[0; 65]));
    assert!(matches!(result, Err(MnemeError::LimitExceeded { limit: 64, got: 65, .. })));
    assert_eq!(writer.len(), before);
    assert_eq!(storage.stat(ACTIVE).expect("stat").len, before);
}

fn failed_reset_takes_the_writer_out_of_use() {
    let mut storage = MemStorage::new();
    let hook = DenyAfterFirst { seen: Cell::new(0) };
    let mut writer =
        open_or_create(&mut storage, Some(&hook), config(), &Vec::new(), None).expect("create wal");
    assert!(writer.reset(&mut storage, Some(&hook)).is_err());
    let result = writer.append(&mut storage, Some(&hook), &frame(&[]));
    assert!(matches!(result, Err(MnemeError::Io(_))));
}

#[test]
fn wal_writer_failed_reset_poisons_writer() {
    failed_reset_takes_the_writer_out_of_use();
}

#[test]
fn tests_failed_reset_poisons_writer() {
    failed_reset_takes_the_writer_out_of_use();
}

fn a_reset_leaves_the_header() {
    let mut storage = MemStorage::new();
    let mut writer = opened(&mut storage, config());
    writer.append(&mut storage, None::<&NoHook>, &frame(&[])).expect("append");
    writer.reset(&mut storage, None::<&NoHook>).expect("reset");
    let bytes = storage.read_file(ACTIVE).expect("read wal");
    assert_eq!(bytes.len(), HEADER.len());
    assert_eq!(bytes, HEADER);
}

#[test]
fn wal_writer_reset_keeps_complete_header() {
    a_reset_leaves_the_header();
}

#[test]
fn tests_reset_keeps_complete_header() {
    a_reset_leaves_the_header();
}

fn a_log_lives_in_memory() {
    let mut storage = MemStorage::new();
    let mut writer = opened(&mut storage, config());
    writer.append(&mut storage, None::<&NoHook>, &frame(b"payload")).expect("append");
    writer.sync(&mut storage, None::<&NoHook>).expect("sync");
    let bytes = storage.read_file(ACTIVE).expect("read mem wal");
    assert!(bytes.len() > HEADER.len());
    writer.reset(&mut storage, None::<&NoHook>).expect("reset");
    let bytes = storage.read_file(ACTIVE).expect("read mem wal");
    assert_eq!(bytes.len(), HEADER.len());
}

#[test]
fn wal_writer_mem_storage_supports_wal_lifecycle() {
    a_log_lives_in_memory();
}

#[test]
fn tests_mem_storage_supports_wal_lifecycle() {
    a_log_lives_in_memory();
}

#[test]
fn full_files_are_followed_by_the_next() {
    let mut storage = MemStorage::new();
    let mut rotating = config();
    rotating.max_file_bytes = 20;
    let mut writer = opened(&mut storage, rotating);
    writer.append(&mut storage, None::<&NoHook>, &frame(b"1234")).expect("append");
    writer.sync(&mut storage, None::<&NoHook>).expect("sync");
    assert_eq!(writer.active_rel(), "wal/wal_000002.log");
    assert_eq!(writer.total_bytes(), 21 + 16);
    assert_eq!(wal_files(&storage).expect("list").len(), 2);
    writer.reset(&mut storage, None::<&NoHook>).expect("reset");
    assert_eq!(wal_files(&storage), Ok(vec![String::from("wal/wal_000002.log")]));
    assert_eq!(writer.total_bytes(), 16);
}

#[test]
fn a_log_is_taken_up_where_it_ended() {
    let mut storage = MemStorage::new();
    storage.write_atomic("wal/wal_000001.log", b"0123456789").expect("write");
    storage.write_atomic("wal/wal_000002.log", b"01234567890123456789").expect("write");
    let files = wal_files(&storage).expect("list");
    let header = WalHeader { dimension: 4, metric: Metric::Cosine };
    let writer = open_or_create(&mut storage, None::<&NoHook>, config(), &files, Some(header))
        .expect("resume");
    assert_eq!(writer.active_rel(), "wal/wal_000002.log");
    assert_eq!(writer.len(), 20);
    assert_eq!(writer.total_bytes(), 30);
    let other = WalHeader { dimension: 5, metric: Metric::Cosine };
    let mismatch = open_or_create(&mut storage, None::<&NoHook>, config(), &files, Some(other));
    assert_eq!(
        mismatch.err(),
        Some(MnemeError::Corrupted { segment: None, reason: Fault::WalHeaderMismatch })
    );
    let torn = open_or_create(&mut storage, None::<&NoHook>, config(), &files, None)
        .expect("rewrite");
    assert_eq!(torn.len(), 16);
    assert_eq!(storage.read_file("wal/wal_000002.log"), Ok(HEADER.to_vec()));
}

#[test]
fn a_read_only_log_is_not_written() {
    let mut storage = MemStorage::new();
    storage.write_atomic(ACTIVE, b"0123456789").expect("write");
    let files = wal_files(&storage).expect("list");
    let mut reading = config();
    reading.read_only = true;
    let mut writer = open_or_create(&mut storage, None::<&NoHook>, reading, &files, None)
        .expect("open");
    assert_eq!(writer.total_bytes(), 10);
    let refused = Err(MnemeError::Unsupported { feature: Feature::ReadOnlyWrite });
    assert_eq!(writer.append(&mut storage, None::<&NoHook>, &frame(b"x")), refused);
    assert_eq!(writer.sync(&mut storage, None::<&NoHook>), refused);
    assert_eq!(storage.read_file(ACTIVE), Ok(b"0123456789".to_vec()));
}

#[test]
fn the_next_file_is_sealed_as_the_one_before() {
    let mut storage = MemStorage::new();
    let mut rotating = config();
    rotating.max_file_bytes = 20;
    rotating.encrypts = true;
    let mut writer = opened(&mut storage, rotating);
    assert!(writer.encrypts());
    writer.append(&mut storage, None::<&NoHook>, &frame(b"1234")).expect("append");
    writer.sync(&mut storage, None::<&NoHook>).expect("sync");
    assert_eq!(writer.active_rel(), "wal/wal_000002.log");
    assert!(writer.encrypts());
}

/// Refuses the write at one offset.
struct DenyAt(u64);

impl FsyncHook for DenyAt {
    fn before(&self, action: IoAction<'_>) -> Result<(), MnemeError> {
        match action {
            IoAction::Write { offset, .. } if offset == self.0 => {
                Err(MnemeError::Io(IoFault::InvalidInput))
            },
            _ => Ok(()),
        }
    }
}

#[test]
fn a_refused_transaction_is_taken_back() {
    let mut storage = MemStorage::new();
    let mut writer = opened(&mut storage, config());
    let frames = vec![frame(b"abc"), frame(b"def")];
    assert_eq!(
        log(&mut writer, &mut storage, Some(&DenyAt(20)), &frames),
        Err(MnemeError::Io(IoFault::InvalidInput))
    );
    assert_eq!(storage.read_file(ACTIVE), Ok(HEADER.to_vec()));
    assert_eq!(writer.len(), 16);
    assert_eq!(log(&mut writer, &mut storage, None::<&NoHook>, &frames), Ok(()));
    assert_eq!(writer.len(), 24);
}

#[test]
fn a_failed_transaction_is_taken_back() {
    let mut storage = MemStorage::new();
    let mut limited = config();
    limited.frame_max = 3;
    let mut writer = opened(&mut storage, limited);
    let frames = vec![frame(b"abc"), frame(b"abcd")];
    assert_eq!(
        log(&mut writer, &mut storage, None::<&NoHook>, &frames),
        Err(MnemeError::LimitExceeded { field: LimitField::WalFramePayload, limit: 3, got: 4 })
    );
    assert_eq!(storage.read_file(ACTIVE), Ok(HEADER.to_vec()));
    assert_eq!(writer.len(), 16);
    assert_eq!(
        log(&mut writer, &mut storage, Some(&DenySync), &vec![frame(b"abc")]),
        Err(MnemeError::Io(IoFault::Other))
    );
    assert_eq!(storage.read_file(ACTIVE), Ok(HEADER.to_vec()));
    assert_eq!(log(&mut writer, &mut storage, None::<&NoHook>, &vec![frame(b"abc")]), Ok(()));
    assert_eq!(writer.len(), 20);
}

/// Refuses one write, and every synchronisation with another error.
struct DenyBoth(u64);

impl FsyncHook for DenyBoth {
    fn before(&self, action: IoAction<'_>) -> Result<(), MnemeError> {
        match action {
            IoAction::Write { offset, .. } if offset == self.0 => {
                Err(MnemeError::Io(IoFault::InvalidInput))
            },
            IoAction::Write { .. } => Ok(()),
            IoAction::Fsync { .. } => Err(MnemeError::Io(IoFault::Other)),
        }
    }
}

#[test]
fn the_first_failure_is_the_one_reported() {
    let mut storage = MemStorage::new();
    let mut writer = opened(&mut storage, config());
    let frames = vec![frame(b"abc"), frame(b"def")];
    // Taking the transaction back asks for a synchronisation, which is refused too.
    assert_eq!(
        log(&mut writer, &mut storage, Some(&DenyBoth(20)), &frames),
        Err(MnemeError::Io(IoFault::InvalidInput))
    );
    assert_eq!(storage.read_file(ACTIVE), Ok(HEADER.to_vec()));
}

/// Lets everything through and keeps what it was asked.
struct Recorder(RefCell<Vec<String>>);

impl FsyncHook for Recorder {
    fn before(&self, action: IoAction<'_>) -> Result<(), MnemeError> {
        self.0.borrow_mut().push(match action {
            IoAction::Write { file, offset, len } => format!("write {file} {offset} {len}"),
            IoAction::Fsync { file } => format!("sync {file}"),
        });
        Ok(())
    }
}

#[test]
fn the_hook_is_asked_before_every_step() {
    let mut storage = MemStorage::new();
    let mut rotating = config();
    rotating.max_file_bytes = 20;
    let hook = Recorder(RefCell::new(Vec::new()));
    let mut writer =
        open_or_create(&mut storage, Some(&hook), rotating, &Vec::new(), None).expect("create");
    let frames = vec![frame(b"abc"), frame(b"d")];
    assert_eq!(log(&mut writer, &mut storage, Some(&hook), &frames), Ok(()));
    writer.reset(&mut storage, Some(&hook)).expect("reset");
    assert_eq!(
        *hook.0.borrow(),
        vec![
            "write wal/wal_000001.log 0 16",
            "write wal/wal_000001.log 16 4",
            "write wal/wal_000001.log 20 2",
            "sync wal/wal_000001.log",
            "write wal/wal_000002.log 0 16",
            "write wal/wal_000002.log 0 16",
            "sync wal/wal_000002.log",
        ]
    );
}

fn delete(seqno: u64) -> LoggedOp {
    LoggedOp { op: WriteOp::DeleteRow { seqno, rowid: 1, tx_ms: 2 }, payload: vec![seqno as u8; 3] }
}

fn encode(plan: &FramePlan, ops: &Vec<LoggedOp>, _: bool) -> Result<EncodedFrame, MnemeError> {
    match plan {
        FramePlan::Begin { count, .. } => Ok(frame(&count.to_le_bytes())),
        FramePlan::Op { position, .. } => Ok(frame(&ops[*position].payload)),
        FramePlan::Commit { crc, .. } => Ok(frame(&crc.to_le_bytes())),
    }
}

#[test]
fn one_change_makes_one_frame() {
    let plan = plan_transaction(&vec![delete(7)], false).expect("plan");
    assert_eq!(plan, vec![FramePlan::Op { position: 0, seqno: 7, kind: FrameKind::DeleteRow }]);
    assert_eq!(plan_transaction(&Vec::new(), true), Ok(Vec::new()));
    assert_eq!(
        plan_transaction(&vec![delete(7)], true),
        Err(MnemeError::Unsupported { feature: Feature::ReadOnlyWrite })
    );
}

#[test]
fn several_changes_make_a_batch() {
    let plan = plan_transaction(&vec![delete(1), delete(2)], false).expect("plan");
    assert_eq!(plan.len(), 4);
    assert_eq!(plan[0], FramePlan::Begin { seqno: 0, count: 2 });
    assert_eq!(plan[3], FramePlan::Commit { seqno: 0, count: 2, crc: crc32(&[1, 1, 1, 2, 2, 2]) });
}

#[test]
fn transactions_reach_the_log_as_a_whole() {
    let mut storage = MemStorage::new();
    let mut writer = opened(&mut storage, config());
    let ops = vec![delete(1), delete(2)];
    let logged = log_transaction(&mut writer, &mut storage, None::<&NoHook>, &ops, false, &encode);
    assert_eq!(logged, Ok(()));
    let mut expected = HEADER.to_vec();
    expected.extend_from_slice(&[4, 2, 0, 0, 0, 3, 1, 1, 1, 3, 2, 2, 2, 4]);
    expected.extend_from_slice(&crc32(&[1, 1, 1, 2, 2, 2]).to_le_bytes());
    assert_eq!(storage.read_file(ACTIVE), Ok(expected.clone()));

    let failure = MnemeError::Io(IoFault::InvalidInput);
    let failing = |plan: &FramePlan, ops: &Vec<LoggedOp>, sealed: bool| match plan {
        FramePlan::Commit { .. } => Err(failure),
        _ => encode(plan, ops, sealed),
    };
    let refused =
        log_transaction(&mut writer, &mut storage, None::<&NoHook>, &ops, false, &failing);
    assert_eq!(refused, Err(failure));
    assert_eq!(storage.read_file(ACTIVE), Ok(expected));
}

#[test]
fn changes_are_recorded_as_they_are() {
    let relate = WriteOp::Relate {
        seqno: 3,
        from: 1,
        to: 2,
        kind: 4,
        weight: 5,
        meta: Meta::Encoded(vec![9]),
    };
    assert_eq!(op_dispatch(&relate), (3, FrameKind::Relate));
    match op_payload(&relate) {
        Change::Relate { edge } => {
            assert_eq!((edge.from, edge.to, edge.kind, edge.weight), (1, 2, 4, 5));
            assert!(matches!(edge.metadata, Meta::Encoded(bytes) if bytes == vec![9]));
        },
        _ => panic!("an edge is recorded as an edge"),
    }
    let named = WriteOp::NsRegister { seqno: 1, ns_id: 7, path: String::from("p") };
    assert!(matches!(op_payload(&named), Change::NsRegister { ns_id: 7, path } if path == "p"));
}

#[test]
fn observers_are_told_of_the_first_change() {
    assert_eq!(observer_write_op(&vec![delete(1)]), Some(ObservedOp::Delete));
    let registered = LoggedOp {
        op: WriteOp::NsUnregister { seqno: 1, ns_id: 1 },
        payload: Vec::new(),
    };
    assert_eq!(observer_write_op(&vec![registered]), None);
    let touched = LoggedOp {
        op: WriteOp::Access { seqno: 1, rowid: 1, at_ms: 0, access_delta: 1, importance_delta: 0 },
        payload: Vec::new(),
    };
    assert_eq!(observer_write_op(&vec![touched, delete(2)]), Some(ObservedOp::Touch));
}

#[test]
fn a_log_is_flushed_when_it_is_due() {
    assert!(!is_flush_due(true, 10, 1000, 1000, 1, 1));
    assert!(!is_flush_due(false, 0, 1000, 1000, 1, 1));
    assert!(!is_flush_due(false, 10, 9, 1000, 1, 1));
    assert!(!is_flush_due(false, 10, 10, 7, 2, 4));
    assert!(is_flush_due(false, 10, 10, 8, 2, 4));
    assert!(is_flush_due(false, 10, 10 * FLUSH_WAL_HARD_FACTOR, 0, 2, 4));
    assert!(!is_flush_due(false, 10, 10 * FLUSH_WAL_HARD_FACTOR - 1, 0, 2, 4));
}
