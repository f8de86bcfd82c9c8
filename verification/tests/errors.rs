//! Requests and files that are rejected, each with the error that tells why.

use std::cell::Cell;

use mneme_persist::compact::{resolve_group, CompactionPlan};
use mneme_persist::error::{
    is_version_rejection, with_segment, ConfigFault, Fault, Feature, IdKind, Inconsistency, IoFault,
    Metric, MnemeError, Region, SegmentFile,
};
use mneme_persist::hidx::{load_index, load_quant_copy, GraphSource, IndexNode, QuantCopy, QuantInfo};
use mneme_persist::hook::{FsyncHook, IoAction, NoHook};
use mneme_persist::layout::{msec_name, vsec_name};
use mneme_persist::manifest::{next_manifest_version, next_segment_id, Manifest, SegmentEntry};
use mneme_persist::remap::{build_remaps, VersionRow};
use mneme_persist::replay::replay_wal;
use mneme_persist::session::{prepare_root, require_root};
use mneme_persist::snapshot::collect_chunk_results;
use mneme_persist::source::{ByteFile, SegmentHandle};
use mneme_persist::state::WriterState;
use mneme_persist::storage::{MemStorage, Storage};
use mneme_persist::wal::{Change, Envelope, FrameContent, WalFrame, WalImage};
use mneme_persist::wal_writer::{open_or_create, EncodedFrame, FsyncPolicy, WalConfig};

fn corrupted(reason: Fault) -> MnemeError {
    MnemeError::Corrupted { segment: None, reason }
}

fn entry(id: u32) -> SegmentEntry {
    SegmentEntry {
        segment_id: id,
        format_version: 2,
        row_count: 1,
        min_seqno: 0,
        max_seqno: 0,
        created_ms: 0,
        vsec_crc: 0,
        msec_crc: 0,
        hidx_crc: 0,
        entry_slot: 0,
        entry_level: 0,
    }
}

/// Replays frames with empty payloads.
fn replayed(contents: Vec<(u64, FrameContent)>) -> Result<usize, MnemeError> {
    let frames: Vec<WalFrame> = contents
        .into_iter()
        .enumerate()
        .map(|(at, (seqno, content))| WalFrame {
            seqno,
            content,
            payload: Vec::new(),
            envelope: Envelope::Plain,
            end: 8 + at,
        })
        .collect();
    let image = WalImage { byte_len: 8 + frames.len(), header_len: 7, frames, stop: None };
    replay_wal(&mut WriterState::new(), &image, 0, false)
}

fn changed(change: Change) -> FrameContent {
    FrameContent::Change { change: Ok(change) }
}

#[test]
fn a_batch_must_be_what_its_commit_states() {
    let batch = vec![
        (0, FrameContent::BatchBegin),
        (1, changed(Change::DeleteRow { rowid: 1, tx_ms: 0 })),
        (0, FrameContent::BatchCommit { stated: Ok((2, 0)) }),
    ];
    assert_eq!(replayed(batch), Err(corrupted(Fault::BatchMismatch)));
}

#[test]
fn numbers_leave_a_next_one() {
    let row = changed(Change::DeleteRow { rowid: u64::MAX, tx_ms: 0 });
    assert_eq!(replayed(vec![(1, row)]), Err(corrupted(Fault::RowIdExhausted)));
    let path = String::from("n");
    let namespace = changed(Change::NsRegister { ns_id: u32::MAX, path });
    assert_eq!(replayed(vec![(1, namespace)]), Err(corrupted(Fault::NsIdExhausted)));
    assert_eq!(next_segment_id(4), Ok(5));
    assert_eq!(
        next_segment_id(u32::MAX),
        Err(MnemeError::IdExhausted { kind: IdKind::SegmentId })
    );
    assert_eq!(next_manifest_version(4), Ok(5));
    assert_eq!(
        next_manifest_version(u64::MAX),
        Err(MnemeError::IdExhausted { kind: IdKind::ManifestVersion })
    );
}

#[test]
fn every_row_has_a_slot_of_its_own() {
    let row = |slot_id: u32| VersionRow { rowid: 1, seqno: 1, tx_ms: 0, slot_id, doc_offset: 0 };
    let outside = build_remaps(&vec![(row(2), 0)], &vec![2], &vec![0]);
    assert_eq!(outside.err(), Some(corrupted(Fault::SlotOutOfRangeOrRepeated)));
    let twice = build_remaps(&vec![(row(0), 0), (row(0), 0)], &vec![2], &vec![0]);
    assert_eq!(twice.err(), Some(corrupted(Fault::SlotOutOfRangeOrRepeated)));
    let unused = build_remaps(&vec![(row(0), 0)], &vec![2], &vec![0]);
    assert_eq!(unused.err(), Some(corrupted(Fault::SlotUnreferenced)));
}

#[test]
fn a_graph_needs_a_version_for_every_node() {
    let load = |_: &WriterState, _: &ByteFile, nodes: &Vec<IndexNode>, _: Option<QuantCopy>| {
        Ok::<usize, MnemeError>(nodes.len())
    };
    let hidx = ByteFile::from_bytes(0, vec![1]);
    let state = WriterState::new();
    assert_eq!(load_index(&load, &state, &hidx, &Vec::new(), None), Ok(0));
    assert_eq!(
        load_index(&load, &state, &hidx, &vec![0], None),
        Err(corrupted(Fault::HidxSlotMissing))
    );
}

#[test]
fn a_coarser_copy_has_a_length_and_a_known_format() {
    let source = |quant: QuantInfo, row_count: usize| GraphSource {
        segment_id: 6,
        hidx: None,
        quant: Ok(quant),
        row_count,
        vsec_len: 100,
    };
    let huge = QuantInfo { format: Some(1), unsupported: None, region: Some((0, usize::MAX)) };
    assert_eq!(
        load_quant_copy(&source(huge, 2)),
        Err(MnemeError::Corrupted { segment: Some(6), reason: Fault::QuantLengthOverflow })
    );
    let unknown = MnemeError::Unsupported { feature: Feature::QuantFormat };
    let foreign = QuantInfo { format: Some(9), unsupported: Some(unknown), region: None };
    assert_eq!(load_quant_copy(&source(foreign, 2)), Err(unknown));
}

#[test]
fn a_segment_file_holds_something() {
    let mut storage = MemStorage::new();
    storage.write_atomic(&format!("segments/{}", vsec_name(1)), b"v").expect("write");
    storage.write_atomic(&format!("segments/{}", msec_name(1)), b"").expect("write");
    let plain = |_: SegmentFile, _: u32, raw: Vec<u8>| Ok(raw);
    assert_eq!(
        SegmentHandle::open(&storage, &entry(1), false, b"SEAL", &plain).err(),
        Some(MnemeError::Corrupted {
            segment: Some(1),
            reason: Fault::SegmentFileEmpty { file: SegmentFile::Msec, segment_id: 1 },
        })
    );
}

#[test]
fn a_plan_names_segments_of_the_manifest() {
    let manifest = Manifest {
        dimension: 2,
        metric: Metric::L2,
        stopwords: false,
        next_rel_kind: 16,
        manifest_version: 1,
        watermark_seqno: 0,
        next_rowid: 0,
        next_segment_id: 9,
        next_ns_id: 1,
        namespaces: Vec::new(),
        rel_kinds: Vec::new(),
        segments: vec![entry(3), entry(5)],
    };
    let ids = |segments: Vec<u32>| {
        resolve_group(&manifest, &CompactionPlan { segments })
            .map(|group| group.iter().map(|entry| entry.segment_id).collect::<Vec<u32>>())
    };
    assert_eq!(ids(vec![5, 3]), Ok(vec![5, 3]));
    assert_eq!(
        ids(Vec::new()),
        Err(MnemeError::Inconsistent { reason: Inconsistency::PlanEmpty })
    );
    assert_eq!(
        ids(vec![3, 4]),
        Err(MnemeError::Inconsistent { reason: Inconsistency::PlanSegmentInactive })
    );
}

#[test]
fn every_chunk_is_built() {
    assert_eq!(
        collect_chunk_results(vec![Ok(vec![(1, 'b')]), Ok(vec![(0, 'a')])], 2),
        Ok(vec!['a', 'b'])
    );
    assert_eq!(
        collect_chunk_results(vec![Ok(vec![(1, 'b')])], 2),
        Err(MnemeError::Inconsistent { reason: Inconsistency::BuiltChunkMissing })
    );
    let failure = MnemeError::Io(IoFault::Other);
    assert_eq!(collect_chunk_results::<char>(vec![Ok(Vec::new()), Err(failure)], 2), Err(failure));
}

#[test]
fn reading_needs_a_directory() {
    assert_eq!(require_root(true), Ok(()));
    assert_eq!(
        require_root(false),
        Err(MnemeError::Config { reason: ConfigFault::ReadOnlyRootMissing })
    );
    assert_eq!(prepare_root(&mut MemStorage::new(), true), Ok(()));
}

/// Lets so many writes through.
struct Allow(Cell<usize>);

impl FsyncHook for Allow {
    fn before(&self, action: IoAction<'_>) -> Result<(), MnemeError> {
        if let IoAction::Write { .. } = action {
            if self.0.get() == 0 {
                return Err(MnemeError::Io(IoFault::Other));
            }
            self.0.set(self.0.get() - 1);
        }
        Ok(())
    }
}

#[test]
fn a_log_that_cannot_be_emptied_is_out_of_use() {
    let mut storage = MemStorage::new();
    let config = WalConfig {
        dimension: 4,
        metric: Metric::Cosine,
        header: b"header".to_vec(),
        policy: FsyncPolicy::Never,
        max_file_bytes: 0,
        read_only: false,
        encrypts: false,
        frame_max: 0,
    };
    let hook = Allow(Cell::new(1));
    let mut writer =
        open_or_create(&mut storage, Some(&hook), config, &Vec::new(), None).expect("create");
    assert_eq!(writer.reset(&mut storage, Some(&hook)), Err(MnemeError::Io(IoFault::Other)));
    let frame = EncodedFrame { payload_len: 1, bytes: vec![1, 2] };
    assert_eq!(
        writer.append(&mut storage, None::<&NoHook>, &frame),
        Err(MnemeError::Io(IoFault::WalDisabled))
    );
}

#[test]
fn only_corruption_names_a_segment() {
    let fault = Fault::Malformed { region: Region::Bloom };
    assert_eq!(
        with_segment(corrupted(fault), 4),
        MnemeError::Corrupted { segment: Some(4), reason: fault }
    );
    let newer = MnemeError::UnsupportedVersion { found: 3, supported: 2 };
    assert_eq!(with_segment(newer, 4), newer);
    assert!(is_version_rejection(&newer));
    assert!(!is_version_rejection(&corrupted(fault)));
}
