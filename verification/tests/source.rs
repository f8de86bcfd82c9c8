//! Segment files, and what is known of them.

use mneme_persist::check::{
    migrated_segments, segment_stat, segment_stats, verify_hidx, GraphStat, SegmentStat,
};
use mneme_persist::crc::crc32;
use mneme_persist::error::{Fault, IoFault, MnemeError, Region, SegmentFile};
use mneme_persist::hidx::{
    hidx_load_workers, load_quant_copy, GraphSource, QuantCopy, QuantInfo,
};
use mneme_persist::layout::{msec_name, vsec_name};
use mneme_persist::manifest::{Manifest, SegmentEntry};
use mneme_persist::source::{open_optional, open_segment_handles, read_at, ByteFile, SegmentHandle};
use mneme_persist::storage::{MemStorage, Storage};

const MAGIC: &[u8] = b"SEAL";

fn plain(_: SegmentFile, _: u32, raw: Vec<u8>) -> Result<Vec<u8>, MnemeError> {
    Ok(raw[MAGIC.len()..].to_vec())
}

fn entry(id: u32, hidx_crc: u32) -> SegmentEntry {
    SegmentEntry {
        segment_id: id,
        format_version: 2,
        row_count: 4,
        min_seqno: 0,
        max_seqno: 0,
        created_ms: 77,
        vsec_crc: 0,
        msec_crc: 0,
        hidx_crc,
        entry_slot: 0,
        entry_level: 0,
    }
}

fn manifest(segments: Vec<SegmentEntry>) -> Manifest {
    Manifest {
        dimension: 2,
        metric: mneme_persist::error::Metric::Dot,
        stopwords: false,
        next_rel_kind: 16,
        manifest_version: 1,
        watermark_seqno: 0,
        next_rowid: 0,
        next_segment_id: 9,
        next_ns_id: 1,
        namespaces: Vec::new(),
        rel_kinds: Vec::new(),
        segments,
    }
}

fn put(storage: &mut MemStorage, name: &str, content: &[u8]) {
    storage.write_atomic(&format!("segments/{name}"), content).expect("write");
}

#[test]
fn bytes_are_read_at_an_offset() {
    let content = [1, 2, 3, 4, 5, 6, 7, 8];
    assert_eq!(content.len(), 8);
    assert_eq!(read_at(&content, 3, 4), Ok(vec![4, 5, 6, 7]));
    assert_eq!(read_at(&content, 6, 4), Err(MnemeError::Io(IoFault::UnexpectedEof)));
}

#[test]
fn reads_stay_inside() {
    assert_eq!(read_at(b"abcdefgh", 2, 4), Ok(b"cdef".to_vec()));
    assert_eq!(read_at(b"abcdefgh", 6, 4), Err(MnemeError::Io(IoFault::UnexpectedEof)));
}

#[test]
fn whole_files_come_back() {
    let mut storage = MemStorage::new();
    let long: Vec<u8> = (0..=255_u8).cycle().take(4096).collect();
    for content in [b"hidx-bytes".as_slice(), long.as_slice()] {
        storage.write_atomic("seg.bin", content).expect("write");
        assert_eq!(storage.open_bytes("seg.bin").expect("read").as_slice(), content);
    }
}

fn slices_are_those_of_the_file() {
    let payload: Vec<u8> = (0..=255_u8).cycle().take(1024).collect();
    let mut storage = MemStorage::new();
    put(&mut storage, &vsec_name(7), &payload);
    let file = ByteFile::open(&storage, SegmentFile::Vsec, 7, MAGIC, &plain).expect("open");
    assert_eq!(file.len(), payload.len());
    assert_eq!(file.byte_len(), payload.len());
    assert_eq!(file.segment_id(), 7);
    assert_eq!(file.slice_at(0, payload.len()), Some(payload.as_slice()));
    assert_eq!(file.slice_at(10, 4), Some(&payload[10..14]));
    assert_eq!(file.slice_at(payload.len() - 2, 4), None);
    assert_eq!(file.slice_at(0, payload.len() + 1), None);
}

#[test]
fn source_byte_file_slice_matches_file_bytes() {
    slices_are_those_of_the_file();
}

#[test]
fn tests_byte_file_slice_matches_file_bytes() {
    slices_are_those_of_the_file();
}

fn missing_and_empty_files_are_rejected() {
    let mut storage = MemStorage::new();
    let missing = SegmentHandle::open(&storage, &entry(1, 0), false, MAGIC, &plain);
    assert!(matches!(missing, Err(MnemeError::Corrupted { segment: Some(1), .. })));
    put(&mut storage, &vsec_name(1), b"");
    put(&mut storage, &msec_name(1), b"m");
    let empty = SegmentHandle::open(&storage, &entry(1, 0), false, MAGIC, &plain);
    assert!(matches!(empty, Err(MnemeError::Corrupted { segment: Some(1), .. })));
}

#[test]
fn source_segment_handle_rejects_missing_or_empty_files() {
    missing_and_empty_files_are_rejected();
}

#[test]
fn tests_segment_handle_rejects_missing_or_empty_files() {
    missing_and_empty_files_are_rejected();
}

#[test]
fn missing_segments_are_reported_by_their_file() {
    let storage = MemStorage::new();
    assert_eq!(
        SegmentHandle::open(&storage, &entry(1, 0), false, MAGIC, &plain).err(),
        Some(MnemeError::Corrupted {
            segment: Some(1),
            reason: Fault::SegmentFileMissing { file: SegmentFile::Vsec, segment_id: 1 },
        })
    );
    assert!(open_segment_handles(&storage, &manifest(vec![entry(1, 0)]), false, MAGIC, &plain)
        .is_err());
}

#[test]
fn the_first_segment_that_cannot_be_opened_is_reported() {
    let mut storage = MemStorage::new();
    put(&mut storage, &vsec_name(4), b"v");
    put(&mut storage, &msec_name(4), b"m");
    let segments = vec![entry(4, 0), entry(2, 0), entry(1, 0)];
    assert_eq!(
        open_segment_handles(&storage, &manifest(segments), false, MAGIC, &plain).err(),
        Some(MnemeError::Corrupted {
            segment: Some(2),
            reason: Fault::SegmentFileMissing { file: SegmentFile::Vsec, segment_id: 2 },
        })
    );
}

#[test]
fn sealed_files_are_opened() {
    let mut storage = MemStorage::new();
    put(&mut storage, &vsec_name(2), b"SEALvectors");
    put(&mut storage, &msec_name(2), b"records");
    let handle = SegmentHandle::open(&storage, &entry(2, 0), true, MAGIC, &plain).expect("open");
    assert_eq!(handle.vsec_bytes(), Ok(&b"vectors"[..]));
    assert_eq!(handle.msec_bytes(), Ok(&b"records"[..]));
    assert!(handle.hidx.is_none());
    let failure = MnemeError::Corrupted {
        segment: None,
        reason: Fault::Malformed { region: Region::VsecHeader },
    };
    let refuse = |_: SegmentFile, _: u32, _: Vec<u8>| Err(failure);
    assert_eq!(
        ByteFile::open(&storage, SegmentFile::Vsec, 2, MAGIC, &refuse).err(),
        Some(failure)
    );
}

#[test]
fn graphs_are_checked_against_the_manifest() {
    let mut storage = MemStorage::new();
    put(&mut storage, "seg_000003.hidx", b"graph");
    let crc = crc32(b"graph");
    let graph = open_optional(&storage, 3, crc, true, MAGIC, &plain).expect("open");
    assert_eq!(graph.expect("graph").as_slice(), b"graph");
    assert!(open_optional(&storage, 3, 0, true, MAGIC, &plain).expect("none").is_none());
    assert!(open_optional(&storage, 3, crc ^ 1, false, MAGIC, &plain).expect("left").is_none());
    assert_eq!(
        open_optional(&storage, 3, crc ^ 1, true, MAGIC, &plain).err(),
        Some(MnemeError::Corrupted { segment: Some(3), reason: Fault::HidxCrcMismatch })
    );
    let sound = |_: &ByteFile| Ok(());
    assert_eq!(verify_hidx(&storage, &entry(3, crc), MAGIC, &plain, Some(&sound)), Ok(()));
    assert!(verify_hidx(&storage, &entry(3, crc ^ 1), MAGIC, &plain, Some(&sound)).is_err());
}

fn graph_source(quant: QuantInfo, rows: usize, len: usize) -> GraphSource {
    GraphSource { segment_id: 1, hidx: None, quant: Ok(quant), row_count: rows, vsec_len: len }
}

#[test]
fn coarser_copies_lie_inside_their_file() {
    let none = QuantInfo { format: None, unsupported: None, region: None };
    assert_eq!(load_quant_copy(&graph_source(none, 3, 100)), Ok(None));
    let some = QuantInfo { format: Some(2), unsupported: None, region: Some((40, 20)) };
    assert_eq!(
        load_quant_copy(&graph_source(some, 3, 100)),
        Ok(Some(QuantCopy { format: 2, offset: 40, stride: 20, rows: 3 }))
    );
    assert_eq!(
        load_quant_copy(&graph_source(some, 4, 100)),
        Err(MnemeError::Corrupted { segment: Some(1), reason: Fault::QuantRegionOutOfRange })
    );
    let lost = QuantInfo { format: Some(2), unsupported: None, region: None };
    assert_eq!(
        load_quant_copy(&graph_source(lost, 3, 100)),
        Err(MnemeError::Corrupted { segment: Some(1), reason: Fault::QuantRegionMissing })
    );
}

#[test]
fn loading_uses_no_more_workers_than_graphs() {
    assert_eq!(hidx_load_workers(4, 10), 4);
    assert_eq!(hidx_load_workers(4, 2), 2);
    assert_eq!(hidx_load_workers(1, 2), 1);
}

#[test]
fn statistics_count_the_files_of_a_segment() {
    let mut storage = MemStorage::new();
    put(&mut storage, "seg_000003.vsec", b"12345");
    put(&mut storage, "seg_000003.hidx", b"123");
    let graph = GraphStat {
        segment_id: 3,
        nodes: 9,
        levels: 2,
        format: Some(1),
        recall_est: Some(0.98_f32.to_bits()),
    };
    let stat = SegmentStat {
        id: 3,
        rows: 4,
        bytes: 8,
        created: 77,
        index_nodes: 9,
        index_levels: 2,
        format: Some(1),
        recall_est: Some(0.98_f32.to_bits()),
    };
    assert_eq!(segment_stat(&storage, &entry(3, 1), Some(graph)), stat);
    let stats = segment_stats(&storage, &manifest(vec![entry(4, 0), entry(3, 1)]), &vec![graph]);
    assert_eq!(stats.len(), 2);
    assert_eq!(stats[0].bytes, 0);
    assert_eq!(stats[0].index_nodes, 0);
    assert_eq!(stats[0].recall_est, None);
    assert_eq!(stats[1], stat);
}

#[test]
fn segments_under_the_active_key_are_counted() {
    let mut storage = MemStorage::new();
    put(&mut storage, "seg_000001.vsec", &[7; 20]);
    put(&mut storage, "seg_000002.vsec", &[8; 20]);
    let all = manifest(vec![entry(1, 0), entry(2, 0), entry(3, 0)]);
    let key_of = |head: &Vec<u8>| if head.len() == 10 { Some(head[0] as u32) } else { None };
    assert_eq!(migrated_segments(&storage, &all, Some(7), &key_of), 1);
    assert_eq!(migrated_segments(&storage, &all, None, &key_of), 3);
}
