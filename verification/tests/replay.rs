//! Replay of log images.

use mneme_persist::crc::crc32;
use mneme_persist::error::{Fault, Feature, MnemeError, Region};
use mneme_persist::record::{EntryData, Meta};
use mneme_persist::replay::{apply_change, apply_if_after_watermark, replay_wal};
use mneme_persist::state::{Edge, WriterState};
use mneme_persist::wal::{Change, Envelope, FrameContent, WalFrame, WalImage};

const HEADER_LEN: usize = 16;
const FRAME_OVERHEAD: usize = 17;

/// A log image with the given frames one behind the other.
fn image(contents: Vec<(u64, FrameContent, Vec<u8>)>) -> WalImage {
    let mut frames = Vec::new();
    let mut end = HEADER_LEN;
    for (seqno, content, payload) in contents {
        end += FRAME_OVERHEAD + payload.len();
        frames.push(WalFrame { seqno, content, payload, envelope: Envelope::Plain, end });
    }
    WalImage { byte_len: end, header_len: HEADER_LEN, frames, stop: None }
}

fn change(change: Change) -> FrameContent {
    FrameContent::Change { change: Ok(change) }
}

fn register() -> (u64, FrameContent, Vec<u8>) {
    (
        1,
        change(Change::NsRegister { ns_id: 1, path: String::from("a") }),
        vec![1, 0, 0, 0, 1, 0, b'a'],
    )
}

fn begin(count: u8) -> (u64, FrameContent, Vec<u8>) {
    (0, FrameContent::BatchBegin, vec![count, 0, 0, 0])
}

fn commit(count: u32, crc: u32) -> (u64, FrameContent, Vec<u8>) {
    (0, FrameContent::BatchCommit { stated: Ok((count, crc)) }, vec![0; 8])
}

fn entry(rowid: u64, seqno: u64) -> EntryData {
    EntryData {
        rowid,
        seqno,
        ns_id: 1,
        key: None,
        text: None,
        meta: Meta::Null,
        created_at_ms: 0,
        expires_at_ms: None,
        importance: None,
        access: None,
        valid_time: None,
        confidence: None,
        provenance: None,
    }
}

#[test]
fn replay_rejects_mismatched_batch_crc() {
    let member = register();
    let crc = crc32(&member.2) ^ 0xFFFF_FFFF;
    let log = image(vec![begin(1), member, commit(1, crc)]);
    let mut state = WriterState::new();
    assert!(matches!(
        replay_wal(&mut state, &log, 0, false),
        Err(MnemeError::Corrupted { .. })
    ));
    assert_eq!(state.next_ns_id(), 1);
}

#[test]
fn replay_rejects_mismatched_batch_count() {
    let member = register();
    let crc = crc32(&member.2);
    let log = image(vec![begin(2), member, commit(2, crc)]);
    let mut state = WriterState::new();
    assert!(matches!(
        replay_wal(&mut state, &log, 0, false),
        Err(MnemeError::Corrupted { .. })
    ));
    assert_eq!(state.next_ns_id(), 1);
}

#[test]
fn replay_applies_well_formed_batch() {
    let member = register();
    let crc = crc32(&member.2);
    let log = image(vec![begin(1), member, commit(1, crc)]);
    let mut state = WriterState::new();
    let committed = replay_wal(&mut state, &log, 0, false).expect("valid batch");
    assert_eq!(committed, log.byte_len);
    assert_eq!(state.next_ns_id(), 2);
    assert_eq!(state.namespace_of("a"), Some(1));
}

#[test]
fn unclosed_batch_is_not_committed() {
    let log = image(vec![begin(1), register()]);
    let mut state = WriterState::new();
    let committed = replay_wal(&mut state, &log, 0, false).expect("unclosed batch");
    assert_eq!(committed, HEADER_LEN);
    assert_eq!(state.next_ns_id(), 1);
}

#[test]
fn short_wal_header_is_treated_as_torn() {
    let bytes = [b'W', b'A', b'L', b'1', 0x01];
    let log = WalImage {
        byte_len: bytes.len(),
        header_len: HEADER_LEN,
        frames: Vec::new(),
        stop: None,
    };
    let mut state = WriterState::new();
    assert_eq!(replay_wal(&mut state, &log, 0, false).expect("torn header"), 0);
}

#[test]
fn wal_replay_rejects_max_rowid() {
    let log = image(vec![(
        1,
        change(Change::DeleteRow { rowid: u64::MAX, tx_ms: 0 }),
        vec![0; 16],
    )]);
    let mut state = WriterState::new();
    assert!(matches!(
        replay_wal(&mut state, &log, 0, false),
        Err(MnemeError::Corrupted { .. })
    ));
}

#[test]
fn wal_replay_rejects_max_ns_id() {
    let log = image(vec![(
        1,
        change(Change::NsRegister { ns_id: u32::MAX, path: String::from("n") }),
        vec![0; 7],
    )]);
    let mut state = WriterState::new();
    assert!(matches!(
        replay_wal(&mut state, &log, 0, false),
        Err(MnemeError::Corrupted { .. })
    ));
}

#[test]
fn wal_replay_rejects_max_rowid_on_insert() {
    let log = image(vec![(
        1,
        change(Change::Insert {
            entry: entry(u64::MAX, 1),
            vector: vec![1.0_f32.to_bits(), 0.0_f32.to_bits()],
            norm_sq: 1.0_f32.to_bits(),
            tx_ms: 0,
        }),
        vec![0; 40],
    )]);
    let mut state = WriterState::new();
    assert!(matches!(
        replay_wal(&mut state, &log, 0, false),
        Err(MnemeError::Corrupted { .. })
    ));
    assert_eq!(state.slot_count(), 0);
}

#[test]
fn frames_up_to_the_watermark_are_skipped() {
    let log = image(vec![register(), (
        2,
        change(Change::NsRegister { ns_id: 5, path: String::from("b") }),
        vec![5],
    )]);
    let mut state = WriterState::new();
    assert_eq!(replay_wal(&mut state, &log, 1, false), Ok(log.byte_len));
    assert_eq!(state.namespace_of("a"), None);
    assert_eq!(state.namespace_of("b"), Some(5));
    assert_eq!(state.next_ns_id(), 6);
    let mut untouched = WriterState::new();
    assert_eq!(replay_wal(&mut untouched, &log, 2, false), Ok(log.byte_len));
    assert_eq!(untouched.namespace_count(), 0);
    let unreadable = Err(MnemeError::Corrupted { segment: None, reason: Fault::VectorMissing });
    assert_eq!(apply_if_after_watermark(&mut untouched, 2, &unreadable, 2), Ok(()));
    assert_eq!(
        apply_if_after_watermark(&mut untouched, 3, &unreadable, 2),
        Err(MnemeError::Corrupted { segment: None, reason: Fault::VectorMissing })
    );
}

#[test]
fn a_later_version_hides_the_one_before() {
    let mut state = WriterState::new();
    for seqno in 1..=2 {
        let insert = Change::Insert {
            entry: entry(7, seqno),
            vector: vec![seqno as u32],
            norm_sq: 0,
            tx_ms: 0,
        };
        assert_eq!(apply_if_after_watermark(&mut state, seqno, &Ok(insert), 0), Ok(()));
    }
    assert_eq!(state.slot_count(), 2);
    assert_eq!(state.latest_of(7), Some(1));
    assert!(state.is_hidden(0));
    assert!(!state.is_hidden(1));
    assert_eq!(state.next_rowid(), 8);
    assert_eq!(state.seqno(), 2);
    assert_eq!(apply_change(&mut state, 3, &Change::DeleteRow { rowid: 7, tx_ms: 9 }), Ok(()));
    assert_eq!(state.slot_count(), 3);
    assert!(state.slot(2).deleted);
    assert_eq!(state.slot(2).tx_ms, 9);
    assert_eq!(state.latest_of(7), Some(2));
}

#[test]
fn unrelating_takes_back_relating() {
    let mut state = WriterState::new();
    let edge = Edge { from: 1, to: 2, kind: 3, weight: 0.5_f32.to_bits(), metadata: Meta::Null };
    assert_eq!(apply_change(&mut state, 1, &Change::Relate { edge }), Ok(()));
    assert!(state.has_edge(1, 2, 3));
    assert!(state.has_edge_in(1, 2, 3));
    assert!(!state.has_edge(2, 1, 3));
    assert_eq!(apply_change(&mut state, 2, &Change::Unrelate { from: 1, to: 2, kind: 3 }), Ok(()));
    assert!(!state.has_edge(1, 2, 3));
    assert!(!state.has_edge_in(1, 2, 3));
}

#[test]
fn namespace_ids_are_not_given_out_again() {
    let mut state = WriterState::new();
    let named = Change::NsRegister { ns_id: 4, path: String::from("x") };
    assert_eq!(apply_change(&mut state, 1, &named), Ok(()));
    assert_eq!(apply_change(&mut state, 2, &Change::NsUnregister { ns_id: 4 }), Ok(()));
    assert_eq!(state.namespace_of("x"), None);
    assert_eq!(state.namespace_path(4), "");
    assert_eq!(state.next_ns_id(), 5);
}

#[test]
fn relation_kinds_keep_their_names() {
    let mut state = WriterState::new();
    let first = Change::RelKindRegister { kind: 20, name: String::from("cites") };
    assert_eq!(apply_change(&mut state, 1, &first), Ok(()));
    assert_eq!(apply_change(&mut state, 2, &first), Ok(()));
    assert_eq!(state.next_rel_kind(), 21);
    let conflict = Err(MnemeError::Corrupted { segment: None, reason: Fault::RelKindConflict });
    let other_name = Change::RelKindRegister { kind: 20, name: String::from("quotes") };
    assert_eq!(apply_change(&mut state, 3, &other_name), conflict);
    let other_kind = Change::RelKindRegister { kind: 21, name: String::from("cites") };
    assert_eq!(apply_change(&mut state, 4, &other_kind), conflict);
    let built_in = Change::RelKindRegister { kind: 15, name: String::from("new") };
    assert_eq!(apply_change(&mut state, 5, &built_in), conflict);
    assert_eq!(state.rel_kind_count(), 1);
    assert_eq!(state.rel_kind_at(0), (20, &String::from("cites")));
}

#[test]
fn accesses_are_counted_up_to_the_largest_number() {
    let mut state = WriterState::new();
    let touch = Change::TouchRow { rowid: 3, at_ms: 10, access_delta: u32::MAX - 1, importance_delta: 0 };
    assert_eq!(apply_change(&mut state, 1, &touch), Ok(()));
    assert_eq!(state.access_of(3).access_count, u32::MAX - 1);
    let again = Change::TouchRow { rowid: 3, at_ms: 5, access_delta: 7, importance_delta: 0 };
    assert_eq!(apply_change(&mut state, 2, &again), Ok(()));
    assert_eq!(state.access_of(3).access_count, u32::MAX);
    assert_eq!(state.access_of(3).last_access_ms, 5);
}

#[test]
fn sealed_frames_need_a_key() {
    let mut log = image(vec![register()]);
    log.frames[0].envelope = Envelope::Sealed { failure: None };
    let mut state = WriterState::new();
    assert_eq!(
        replay_wal(&mut state, &log, 0, false),
        Err(MnemeError::Unsupported { feature: Feature::Encrypt })
    );
    assert_eq!(replay_wal(&mut state, &log, 0, true), Ok(log.byte_len));
    let failure = MnemeError::Corrupted {
        segment: None,
        reason: Fault::Malformed { region: Region::WalFrame },
    };
    log.frames[0].envelope = Envelope::Sealed { failure: Some(failure) };
    assert_eq!(replay_wal(&mut WriterState::new(), &log, 0, true), Err(failure));
}

#[test]
fn a_log_cut_at_its_committed_length_replays_alike() {
    let row = |seqno: u64| {
        (seqno, change(Change::DeleteRow { rowid: seqno, tx_ms: 0 }), vec![seqno as u8])
    };
    let contents = || vec![row(1), row(2), begin(2), row(3)];
    let whole = image(contents());
    let mut state = WriterState::new();
    let committed = replay_wal(&mut state, &whole, 0, false).expect("replay");
    assert_eq!(committed, whole.frames[1].end);
    let mut cut = image(contents());
    cut.frames.retain(|frame| frame.end <= committed);
    cut.byte_len = committed;
    let mut again = WriterState::new();
    assert_eq!(replay_wal(&mut again, &cut, 0, false), Ok(committed));
    assert_eq!(again.slot_count(), state.slot_count());
    assert_eq!(again.seqno(), state.seqno());
    assert_eq!(again.next_rowid(), state.next_rowid());
}

#[test]
fn a_scan_that_stopped_reports_why() {
    let mut log = image(vec![register()]);
    let reason = MnemeError::UnsupportedVersion { found: 9, supported: 2 };
    log.stop = Some(reason);
    let mut state = WriterState::new();
    assert_eq!(replay_wal(&mut state, &log, 0, false), Err(reason));
}

#[test]
fn a_batch_without_its_end_does_not_hide_later_changes() {
    let member = register();
    let crc = crc32(&member.2);
    let log = image(vec![
        begin(1),
        (1, change(Change::NsRegister { ns_id: 9, path: String::from("lost") }), vec![9]),
        begin(1),
        member,
        commit(1, crc),
    ]);
    let mut state = WriterState::new();
    assert_eq!(replay_wal(&mut state, &log, 0, false), Ok(log.byte_len));
    assert_eq!(state.namespace_of("lost"), None);
    assert_eq!(state.namespace_of("a"), Some(1));
}
