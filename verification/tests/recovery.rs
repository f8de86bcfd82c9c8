//! Recovery of segments.

use mneme_persist::error::{Fault, MnemeError, Region};
use mneme_persist::hidx::load_index;
use mneme_persist::record::{
    entry_from_slot, fnv1a64, EntryData, Meta, VectorStorage, DEFAULT_CONFIDENCE,
    DEFAULT_IMPORTANCE,
};
use mneme_persist::recover::{
    block_count, collect_versions, decode_key_bloom, load_disk_indexes, load_segments,
};
use mneme_persist::remap::{build_remaps, VersionRow};
use mneme_persist::segment::{
    apply_delta, apply_relations, vector_storage, DeltaEntry, FieldDef, IndexRegions, MsecImage,
    Relations, SegmentImage, StoredRecord, VectorSlot, VsecImage,
};
use mneme_persist::source::ByteFile;
use mneme_persist::state::{Edge, IndexOrigin, WriterState};
use mneme_persist::tables::NumberTable;

fn edge(from: u64, to: u64, kind: u16) -> Edge {
    Edge { from, to, kind, weight: 0.5_f32.to_bits(), metadata: Meta::Null }
}

fn regions(blocks: usize) -> IndexRegions {
    IndexRegions {
        block_count: blocks,
        field_dict: Ok(vec![FieldDef { id: 0, is_str: true }]),
        zone_map: Ok(()),
        ttl_map: Ok(()),
        bloom: Ok(vec![0]),
        inverted: Ok(()),
    }
}

fn no_relations() -> Relations {
    Relations { full: false, forward: Vec::new(), reverse: Vec::new() }
}

fn entry(rowid: u64, seqno: u64, key: &str) -> EntryData {
    EntryData {
        rowid,
        seqno,
        ns_id: 1,
        key: Some(String::from(key)),
        text: Some(String::from("text")),
        meta: Meta::Null,
        created_at_ms: 3,
        expires_at_ms: None,
        importance: None,
        access: Some((11, 2)),
        valid_time: None,
        confidence: None,
        provenance: None,
    }
}

/// A segment with one version for every triple of row, commit number and slot.
fn segment(id: u32, versions: &[(u64, u64, u32)]) -> SegmentImage {
    let mut rows = Vec::new();
    let mut records = NumberTable::new();
    for (at, (rowid, seqno, slot_id)) in versions.iter().enumerate() {
        let doc_offset = 100 + at as u64;
        rows.push(VersionRow {
            rowid: *rowid,
            seqno: *seqno,
            tx_ms: 5,
            slot_id: *slot_id,
            doc_offset,
        });
        records.insert(doc_offset, StoredRecord::Entry(entry(*rowid, *seqno, "k")));
    }
    let vectors = versions
        .iter()
        .enumerate()
        .map(|(at, _)| VectorSlot {
            offset: Some(64 + 8 * at),
            norm_sq: Some(7),
            decoded: None,
        })
        .collect();
    SegmentImage {
        segment_id: id,
        vsec_handle: Ok(()),
        vsec: Ok(VsecImage {
            row_count: versions.len(),
            dimension: 2,
            file_len: 64 + 8 * versions.len(),
            vectors,
            format: Ok(()),
            payload: Ok(()),
        }),
        msec_handle: Ok(()),
        msec: Ok(MsecImage {
            row_count: versions.len(),
            payload: Ok(()),
            version_rows: Ok(rows),
            records,
            relations: Ok(no_relations()),
            delta: Ok(Vec::new()),
            regions: regions(block_count(versions.len(), 4)),
        }),
    }
}

fn upserts_keep_edges() {
    let mut state = WriterState::new();
    let with_edge = Relations { full: false, forward: vec![edge(7, 9, 1)], reverse: Vec::new() };
    apply_relations(&mut state, &with_edge);
    assert!(state.has_edge(7, 9, 1));
    apply_relations(&mut state, &no_relations());
    assert!(state.has_edge(7, 9, 1));
}

#[test]
fn state_incremental_relations_are_upserted() {
    upserts_keep_edges();
}

#[test]
fn tests_incremental_relations_are_upserted() {
    upserts_keep_edges();
}

#[test]
fn full_relations_take_the_place_of_earlier_edges() {
    let mut state = WriterState::new();
    let first = Relations { full: false, forward: vec![edge(7, 9, 1)], reverse: Vec::new() };
    apply_relations(&mut state, &first);
    let all = Relations { full: true, forward: vec![edge(1, 2, 3)], reverse: vec![edge(4, 5, 6)] };
    apply_relations(&mut state, &all);
    assert!(!state.has_edge(7, 9, 1));
    assert!(state.has_edge(1, 2, 3));
    assert!(!state.has_edge(4, 5, 6));
    assert!(state.has_edge_in(4, 5, 6));
}

fn segments_come_in_ascending_order() {
    let segments = vec![segment(1, &[]), segment(0, &[])];
    let collected = collect_versions(&segments, false, false).expect("collect");
    assert_eq!(collected.parsed_ids, vec![0, 1]);
}

#[test]
fn collected_versions_name_their_segments() {
    let segments = vec![segment(4, &[(7, 9, 0)]), segment(2, &[(7, 3, 1), (8, 4, 0)])];
    let collected = collect_versions(&segments, true, true).expect("collect");
    assert_eq!(collected.parsed, vec![1, 0]);
    assert_eq!(collected.parsed_ids, vec![2, 4]);
    assert_eq!(collected.skipped, Vec::<u32>::new());
    let versions: Vec<(u64, u64, u32, usize)> = collected
        .versions
        .iter()
        .map(|(row, position)| (row.rowid, row.seqno, row.slot_id, *position))
        .collect();
    assert_eq!(versions, vec![(7, 3, 1, 0), (8, 4, 0, 0), (7, 9, 0, 1)]);
}

#[test]
fn state_collect_versions_orders_segments_by_id() {
    segments_come_in_ascending_order();
}

#[test]
fn tests_collect_versions_orders_segments_by_id() {
    segments_come_in_ascending_order();
}

fn malformed(region: Region) -> MnemeError {
    MnemeError::Corrupted { segment: None, reason: Fault::Malformed { region } }
}

fn malformed_zone_map_is_rejected() {
    let mut broken = regions(0);
    broken.zone_map = Err(malformed(Region::ZoneMap));
    let result = load_disk_indexes(&broken, 0, 4);
    assert!(matches!(result, Err(MnemeError::Corrupted { .. })));
}

#[test]
fn state_malformed_region_section_is_error() {
    malformed_zone_map_is_rejected();
}

#[test]
fn tests_malformed_region_section_is_error() {
    malformed_zone_map_is_rejected();
}

fn missing_field_dict_is_rejected() {
    let mut half = regions(1);
    half.field_dict = Err(malformed(Region::FieldDict));
    assert!(matches!(
        load_disk_indexes(&half, 0, 4),
        Err(MnemeError::Corrupted { .. })
    ));
}

#[test]
fn half_indexed_legacy_section_is_rejected() {
    missing_field_dict_is_rejected();
}

#[test]
fn half_indexed_section_is_rejected() {
    missing_field_dict_is_rejected();
}

#[test]
fn index_regions_must_fit_the_rows() {
    assert_eq!(block_count(0, 4), 0);
    assert_eq!(block_count(4, 4), 1);
    assert_eq!(block_count(5, 4), 2);
    assert_eq!(load_disk_indexes(&regions(2), 5, 4), Ok(()));
    assert_eq!(load_disk_indexes(&regions(1), 5, 4), Err(malformed(Region::ZoneMap)));
    let fields = vec![FieldDef { id: 3, is_str: false }, FieldDef { id: 4, is_str: true }];
    assert_eq!(decode_key_bloom(&Ok(vec![3, 4]), &fields), Ok(1));
    assert_eq!(
        decode_key_bloom(&Ok(vec![3]), &fields),
        Err(MnemeError::Corrupted { segment: None, reason: Fault::KeyBloomMissing })
    );
}

fn version(rowid: u64, slot_id: u32) -> VersionRow {
    VersionRow { rowid, seqno: rowid, tx_ms: 0, slot_id, doc_offset: 0 }
}

fn remaps_follow_the_chain() {
    let versions = vec![(version(1, 1), 0), (version(2, 0), 0)];
    let remaps = build_remaps(&versions, &vec![2], &vec![0]).expect("remaps");
    assert_eq!(remaps.len(), 1);
    assert_eq!(remaps[0].remap, vec![1, 0]);

    let several = vec![(version(1, 1), 0), (version(2, 0), 0), (version(3, 0), 1)];
    let multi = build_remaps(&several, &vec![2, 1], &vec![7, 8]).expect("remaps");
    assert_eq!(multi[0].segment_id, 7);
    assert_eq!(multi[0].remap, vec![1, 0]);
    assert_eq!(multi[1].segment_id, 8);
    assert_eq!(multi[1].remap, vec![2]);
}

#[test]
fn state_build_remaps_maps_slots_in_version_chain_order() {
    remaps_follow_the_chain();
}

#[test]
fn tests_build_remaps_maps_slots_in_version_chain_order() {
    remaps_follow_the_chain();
}

fn remaps_reject_bad_slots() {
    let out_of_range = vec![(version(1, 2), 0)];
    assert!(matches!(
        build_remaps(&out_of_range, &vec![2], &vec![0]),
        Err(MnemeError::Corrupted { .. })
    ));

    let duplicate = vec![(version(1, 0), 0), (version(2, 0), 0)];
    assert!(matches!(
        build_remaps(&duplicate, &vec![2], &vec![0]),
        Err(MnemeError::Corrupted { .. })
    ));

    let unreferenced = vec![(version(1, 0), 0)];
    assert!(matches!(
        build_remaps(&unreferenced, &vec![2], &vec![0]),
        Err(MnemeError::Corrupted { .. })
    ));
}

#[test]
fn state_build_remaps_rejects_out_of_range_duplicate_or_unreferenced_slots() {
    remaps_reject_bad_slots();
}

#[test]
fn tests_build_remaps_rejects_out_of_range_duplicate_or_unreferenced_slots() {
    remaps_reject_bad_slots();
}

fn graph_past_the_versions_is_rejected() {
    let state = WriterState::new();
    let hidx = ByteFile::from_bytes(0, vec![1]);
    let loaded: Result<u8, MnemeError> =
        load_index(&|_: &_, _: &_, _: &_, _| Ok(1), &state, &hidx, &vec![0], None);
    assert!(matches!(loaded, Err(MnemeError::Corrupted { .. })));
}

#[test]
fn open_load_index_rejects_remap_past_state_slots() {
    graph_past_the_versions_is_rejected();
}

#[test]
fn tests_load_index_rejects_remap_past_state_slots() {
    graph_past_the_versions_is_rejected();
}

#[test]
fn segments_are_loaded_in_version_order() {
    let mut state = WriterState::new();
    let segments = vec![segment(1, &[(5, 4, 0)]), segment(0, &[(9, 2, 1), (5, 1, 0)])];
    let recovered = load_segments(&mut state, &segments, true, true, 4).expect("load");
    assert!(recovered.skipped.is_empty());
    let rows: Vec<(u64, u64)> =
        (0..state.slot_count()).map(|at| (state.slot(at).rowid, state.slot(at).seqno)).collect();
    assert_eq!(rows, vec![(5, 1), (5, 4), (9, 2)]);
    assert_eq!(state.latest_of(5), Some(1));
    assert_eq!(state.latest_of(9), Some(2));
    assert!(state.is_hidden(0));
    assert_eq!(state.segment_of(0), Some(0));
    assert_eq!(state.segment_of(1), Some(1));
    assert_eq!(state.segment_of(2), Some(0));
    assert_eq!(state.next_rowid(), 10);
    assert_eq!(state.access_of(9).access_count, 2);
    assert_eq!(state.index_origin(), IndexOrigin::Merged);
}

#[test]
fn a_damaged_segment_is_left_out_unless_it_is_to_be_reported() {
    let mut broken = segment(3, &[(1, 1, 0)]);
    broken.vsec = Err(malformed(Region::VsecHeader));
    let segments = vec![broken, segment(4, &[(2, 2, 0)])];
    let mut state = WriterState::new();
    let recovered = load_segments(&mut state, &segments, false, false, 4).expect("load");
    assert_eq!(recovered.skipped, vec![3]);
    assert_eq!(state.slot_count(), 1);
    assert_eq!(state.slot(0).rowid, 2);
    let mut strict = WriterState::new();
    assert_eq!(
        load_segments(&mut strict, &segments, false, true, 4).err(),
        Some(malformed(Region::VsecHeader))
    );
    let mut unversioned = segment(3, &[(1, 1, 0)]);
    if let Ok(msec) = &mut unversioned.msec {
        msec.version_rows = Err(malformed(Region::VersionTable));
    }
    assert_eq!(
        load_segments(&mut WriterState::new(), &vec![unversioned], false, true, 4).err(),
        Some(MnemeError::Corrupted {
            segment: Some(3),
            reason: Fault::Malformed { region: Region::VersionTable },
        })
    );
}

#[test]
fn a_newer_format_is_never_left_out() {
    let mut newer = segment(3, &[(1, 1, 0)]);
    newer.msec = Err(MnemeError::UnsupportedVersion { found: 7, supported: 2 });
    let mut state = WriterState::new();
    assert!(matches!(
        load_segments(&mut state, &vec![newer], false, false, 4),
        Err(MnemeError::UnsupportedVersion { found: 7, supported: 2 })
    ));
}

#[test]
fn deltas_count_accesses_that_no_later_version_covers() {
    let mut state = WriterState::new();
    let slot = state.slot_from_entry(entry(5, 9, "k"), VectorStorage::Owned(vec![1]), 1, 0, false);
    assert_eq!(state.commit_version(slot), Ok(()));
    let deltas = vec![
        DeltaEntry::Access { seqno: 3, rowid: 5, last_access_ms: 50, access_delta: 4, importance_delta: 0 },
        DeltaEntry::Access { seqno: 9, rowid: 5, last_access_ms: 20, access_delta: 1, importance_delta: 0 },
        DeltaEntry::Relate { seqno: 9, edge: edge(1, 2, 3) },
        DeltaEntry::Unrelate { seqno: 9, from: 1, to: 2, kind: 3 },
    ];
    apply_delta(&mut state, &deltas);
    assert_eq!(state.access_of(5).access_count, 1);
    assert_eq!(state.access_of(5).last_access_ms, 20);
    assert!(!state.has_edge(1, 2, 3));
}

#[test]
fn vectors_stay_in_their_file_where_they_can() {
    let vsec = VsecImage {
        row_count: 2,
        dimension: 2,
        file_len: 24,
        vectors: vec![
            VectorSlot { offset: Some(16), norm_sq: Some(5), decoded: None },
            VectorSlot { offset: Some(17), norm_sq: Some(5), decoded: Some((vec![8, 9], 6)) },
        ],
        format: Ok(()),
        payload: Ok(()),
    };
    assert!(matches!(
        vector_storage(&vsec, 4, 0),
        Ok((VectorStorage::Lazy { segment_id: 4, offset: 16, dimension: 2 }, 5))
    ));
    match vector_storage(&vsec, 4, 1) {
        Ok((VectorStorage::Owned(components), norm)) => {
            assert_eq!(components, vec![8, 9]);
            assert_eq!(norm, 6);
        },
        _ => panic!("the second vector does not fit and was read"),
    }
    assert!(matches!(vector_storage(&vsec, 4, 2), Err(MnemeError::Corrupted { .. })));
}

#[test]
fn a_record_comes_back_from_its_version() {
    let state = WriterState::new();
    let slot = state.slot_from_entry(entry(5, 9, "k"), VectorStorage::Owned(vec![1]), 4, 2, false);
    assert_eq!(slot.importance, DEFAULT_IMPORTANCE);
    assert_eq!(slot.confidence, DEFAULT_CONFIDENCE);
    assert_eq!(slot.created_at, 3);
    assert_eq!(slot.valid_from, 2);
    assert_eq!(slot.text_hash, Some(fnv1a64(b"text")));
    let back = entry_from_slot(&slot);
    assert_eq!(back.rowid, 5);
    assert_eq!(back.seqno, 9);
    assert_eq!(back.key, Some(String::from("k")));
    assert_eq!(back.text, Some(String::from("text")));
    assert_eq!(back.importance, Some(DEFAULT_IMPORTANCE));
    assert_eq!(back.access, None);
}

#[test]
fn text_hashes_are_those_of_fnv() {
    assert_eq!(fnv1a64(b""), 0xCBF2_9CE4_8422_2325);
    assert_eq!(fnv1a64(b"a"), 0xAF63_DC4C_8601_EC8C);
    assert_eq!(fnv1a64(b"foobar"), 0x8594_4171_F739_67E8);
}
