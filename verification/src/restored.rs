//! What recovery makes of the segments of a library.

use vstd::prelude::*;

use crate::error::{corrupted, Fault, MnemeError};
use crate::logged::version_added;
use crate::order::{comes_before, is_stable_order, stable_order_covers};
use crate::record::{entry_of_slot, text_hash_of, EntryView, SlotView, VectorView};
use crate::recover::{
    blocks_for, changes_applied, collected, decoded_all, disk_outcome, index_outcome, is_str_field,
    load_outcome, merge_failure, merge_outcome, parsed_numbers, parsed_row_counts,
    recovered_slots_belong_to_segments, recovered_versions_form_chains, reordered, segment_ranks,
    segments_filled, versions_applied, CollectedModel, RecoveredSegments,
};
use crate::remap::{remap_outcome, SegmentRemap, VersionRow};
use crate::segment::{
    decode_outcome, delta_applied, deltas_applied, forward_applied, parse_outcome,
    recovered_applied, relations_applied, reverse_applied, DeltaEntry, IndexRegions, MsecImage,
    Relations, SegmentImage, StoredRecord, VsecImage,
};
use crate::state::{Edge, EdgeKey, EdgeView, IndexOrigin, StateModel};

verus! {

/// The version rows of a segment.
pub open spec fn rows_of(segment: SegmentImage) -> Seq<VersionRow> {
    segment.msec->Ok_0.version_rows->Ok_0@
}

/// Whether a version has the vector of a slot of a vector file: where the file has its place and
/// its norm and the vector lies inside, the place; otherwise the components that were read.
pub open spec fn has_vector(
    version: SlotView,
    segment_id: u32,
    vsec: VsecImage,
    slot_id: u32,
) -> bool {
    let slot = vsec.vectors@[slot_id as int];
    &&& slot_id < vsec.vectors@.len()
    &&& if slot.offset is Some && slot.norm_sq is Some && slot.offset->0 + vsec.dimension * 4
        <= vsec.file_len {
        &&& version.vector == (VectorView::Lazy {
            segment_id,
            offset: slot.offset->0,
            dimension: vsec.dimension,
        })
        &&& version.norm_sq == slot.norm_sq->0
    } else {
        &&& slot.decoded matches Some((components, norm_sq)) && version.vector == VectorView::Owned(
            components@,
        ) && version.norm_sq == norm_sq
    }
}

/// Whether a version is the one that a version row stands for: it has the record at the place that
/// the row names, the time of the row, and the vector of the slot that the row names.
pub open spec fn stands_for(
    version: SlotView,
    segment_id: u32,
    vsec: VsecImage,
    msec: MsecImage,
    row: VersionRow,
) -> bool {
    &&& has_vector(version, segment_id, vsec, row.slot_id)
    &&& version.tx_ms == row.tx_ms
    &&& msec.records@.dom().contains(row.doc_offset)
    &&& match msec.records@[row.doc_offset] {
        StoredRecord::Entry(entry) => {
            &&& !version.deleted
            &&& version.rowid == entry.rowid
            &&& version.seqno == entry.seqno
            &&& version.ns_id == entry.ns_id
            &&& version.key == entry@.key
            &&& version.text == entry@.text
            &&& version.meta == entry.meta@
            &&& version.created_at == entry.created_at_ms
            &&& version.expires_at == entry.expires_at_ms
            &&& entry.importance matches Some(bits) ==> version.importance == bits
            &&& entry.confidence matches Some(bits) ==> version.confidence == bits
            &&& entry.valid_time matches Some(span) ==> version.valid_from == span.0
                && version.valid_to == span.1
            &&& entry.valid_time is None ==> version.valid_from == row.tx_ms && version.valid_to
                is None
            &&& version.provenance == entry@.provenance
        },
        StoredRecord::Tombstone => {
            &&& version.deleted
            &&& version.rowid == row.rowid
            &&& version.seqno == row.seqno
            &&& version.key is None
            &&& version.text is None
        },
        StoredRecord::Malformed(_) => false,
    }
}

/// A version that is decoded is the one that its row stands for: with the vector and the norm of
/// its own slot, and with the record of its own place. It is refused where the slot has no vector
/// or the place no record.
pub proof fn decoded_version_is_its_own(
    state: StateModel,
    segment_id: u32,
    vsec: VsecImage,
    msec: MsecImage,
    row: VersionRow,
)
    ensures
        decode_outcome(state, segment_id, vsec, msec, row) matches Ok((version, access)) ==> {
            &&& stands_for(version, segment_id, vsec, msec, row)
            &&& msec.records@[row.doc_offset] matches StoredRecord::Entry(entry) ==> access
                == entry.access && version.ns_path == state.path_of(entry.ns_id)
                && version.text_hash == text_hash_of(entry@.text)
            &&& msec.records@[row.doc_offset] is Tombstone ==> access is None
        },
        row.slot_id >= vsec.vectors@.len() ==> decode_outcome(state, segment_id, vsec, msec, row)
            == Err::<(SlotView, Option<(i64, u32)>), MnemeError>(corrupted(Fault::VectorMissing)),
        !msec.records@.dom().contains(row.doc_offset) ==> decode_outcome(
            state,
            segment_id,
            vsec,
            msec,
            row,
        ) is Err,
        row.slot_id < vsec.vectors@.len() && vsec.vectors@[row.slot_id as int].offset is Some
            && vsec.vectors@[row.slot_id as int].norm_sq is Some
            && vsec.vectors@[row.slot_id as int].offset->0 + vsec.dimension * 4 <= vsec.file_len
            && msec.records@.dom().contains(row.doc_offset) && !(
        msec.records@[row.doc_offset] is Malformed) ==> decode_outcome(
            state,
            segment_id,
            vsec,
            msec,
            row,
        ) is Ok,
{
}

/// Versions of different slots have different vectors, where these lie at different places.
pub proof fn decoded_vectors_are_not_mixed_up(
    state: StateModel,
    segment_id: u32,
    vsec: VsecImage,
    msec: MsecImage,
    a: VersionRow,
    b: VersionRow,
)
    requires
        decode_outcome(state, segment_id, vsec, msec, a) is Ok,
        decode_outcome(state, segment_id, vsec, msec, b) is Ok,
        decode_outcome(state, segment_id, vsec, msec, a)->Ok_0.0.vector is Lazy,
        decode_outcome(state, segment_id, vsec, msec, b)->Ok_0.0.vector is Lazy,
        vsec.vectors@[a.slot_id as int].offset != vsec.vectors@[b.slot_id as int].offset,
    ensures
        decode_outcome(state, segment_id, vsec, msec, a)->Ok_0.0.vector != decode_outcome(
            state,
            segment_id,
            vsec,
            msec,
            b,
        )->Ok_0.0.vector,
{
    decoded_version_is_its_own(state, segment_id, vsec, msec, a);
    decoded_version_is_its_own(state, segment_id, vsec, msec, b);
}

/// A live version that was stored comes back as it was: where the record at the place of a row is
/// the one that the version is stored as, and the namespace has its path, recovery gives the
/// version again, with its vector left in the file.
pub proof fn stored_version_comes_back(
    state: StateModel,
    segment_id: u32,
    vsec: VsecImage,
    msec: MsecImage,
    row: VersionRow,
    slot: SlotView,
)
    requires
        !slot.deleted,
        slot.text_hash == text_hash_of(slot.text),
        slot.tx_ms == row.tx_ms,
        state.ns_registry.dom().contains(slot.ns_id as u64),
        state.ns_registry[slot.ns_id as u64] == slot.ns_path,
        msec.records@.dom().contains(row.doc_offset),
        msec.records@[row.doc_offset] matches StoredRecord::Entry(entry) && entry@ == (EntryView {
            access: entry.access,
            ..entry_of_slot(slot)
        }),
        row.slot_id < vsec.vectors@.len(),
        vsec.vectors@[row.slot_id as int].offset is Some,
        vsec.vectors@[row.slot_id as int].norm_sq == Some(slot.norm_sq),
        vsec.vectors@[row.slot_id as int].offset->0 + vsec.dimension * 4 <= vsec.file_len,
    ensures
        decode_outcome(state, segment_id, vsec, msec, row) matches Ok((version, _)) && version == (
        SlotView {
            vector: VectorView::Lazy {
                segment_id,
                offset: vsec.vectors@[row.slot_id as int].offset->0,
                dimension: vsec.dimension,
            },
            ..slot
        }),
{
}

/// A segment is used exactly where everything that recovery reads of it is sound; one that is
/// damaged is left out only where damage is not to be reported at once, and is an error otherwise.
/// A format that this build cannot read is an error in any case.
pub proof fn only_damaged_segments_are_left_out(
    segment: SegmentImage,
    verify_payload: bool,
    fail_fast: bool,
)
    ensures
        parse_outcome(segment, verify_payload, fail_fast) == Ok::<bool, MnemeError>(true) <==> {
            &&& segment.vsec_handle is Ok
            &&& segment.msec_handle is Ok
            &&& segment.vsec matches Ok(vsec) && vsec.format is Ok && (verify_payload
                ==> vsec.payload is Ok)
            &&& segment.msec matches Ok(msec) && (verify_payload ==> msec.payload is Ok)
                && msec.version_rows is Ok && msec.relations is Ok && msec.delta is Ok
        },
        parse_outcome(segment, verify_payload, fail_fast) == Ok::<bool, MnemeError>(false)
            ==> !fail_fast,
        segment.vsec_handle is Ok ==> (segment.vsec matches Ok(vsec) ==> (
        vsec.format matches Err(error) ==> parse_outcome(segment, verify_payload, fail_fast) == Err::<
            bool,
            MnemeError,
        >(error))),
        segment.vsec_handle matches Err(error) ==> parse_outcome(segment, verify_payload, fail_fast)
            == Err::<bool, MnemeError>(error),
        segment.vsec_handle is Ok ==> (segment.vsec matches Err(error) ==> (
        error is UnsupportedVersion ==> parse_outcome(segment, verify_payload, fail_fast) == Err::<
            bool,
            MnemeError,
        >(error))),
{
}

/// Whether the rows of a segment were gathered, each with the place of the segment among those that
/// are used.
pub open spec fn is_gathered(segments: Seq<SegmentImage>, found: CollectedModel, at: int) -> bool {
    exists|q: int|
        0 <= q < found.parsed.len() && #[trigger] found.parsed[q] == at && forall|r: int|
            0 <= r < rows_of(segments[at]).len() ==> found.versions.contains(
                (#[trigger] rows_of(segments[at])[r], q as usize),
            )
}

proof fn lemma_gathered_stays(
    segments: Seq<SegmentImage>,
    before: CollectedModel,
    after: CollectedModel,
    at: int,
)
    requires
        is_gathered(segments, before, at),
        before.parsed.len() <= after.parsed.len(),
        forall|q: int|
            0 <= q < before.parsed.len() ==> #[trigger] after.parsed[q] == before.parsed[q],
        before.versions.len() <= after.versions.len(),
        forall|p: int|
            0 <= p < before.versions.len() ==> #[trigger] after.versions[p] == before.versions[p],
    ensures
        is_gathered(segments, after, at),
{
    let q = choose|q: int|
        0 <= q < before.parsed.len() && #[trigger] before.parsed[q] == at && forall|r: int|
            0 <= r < rows_of(segments[at]).len() ==> before.versions.contains(
                (#[trigger] rows_of(segments[at])[r], q as usize),
            );
    assert(after.parsed[q] == at);
    assert forall|r: int| 0 <= r < rows_of(segments[at]).len() implies after.versions.contains(
        (#[trigger] rows_of(segments[at])[r], q as usize),
    ) by {
        let item = (rows_of(segments[at])[r], q as usize);
        assert(before.versions.contains(item));
        let p = choose|p: int| 0 <= p < before.versions.len() && before.versions[p] == item;
        assert(after.versions[p] == item);
    }
}

proof fn lemma_collected(
    segments: Seq<SegmentImage>,
    order: Seq<usize>,
    count: nat,
    verify_payload: bool,
    fail_fast: bool,
)
    requires
        count <= order.len(),
        order.len() == segments.len(),
        segments.len() <= usize::MAX,
        forall|i: int| 0 <= i < order.len() ==> (#[trigger] order[i]) < segments.len(),
        collected(segments, order, count, verify_payload, fail_fast) is Ok,
    ensures
        ({
            let found = collected(segments, order, count, verify_payload, fail_fast)->Ok_0;
            &&& found.parsed.len() <= count
            &&& forall|q: int|
                0 <= q < found.parsed.len() ==> 0 <= #[trigger] found.parsed[q] < segments.len()
                    && parse_outcome(segments[found.parsed[q]], verify_payload, fail_fast) == Ok::<
                    bool,
                    MnemeError,
                >(true)
            &&& forall|p: int|
                0 <= p < found.versions.len() ==> (#[trigger] found.versions[p]).1
                    < found.parsed.len() && rows_of(
                    segments[found.parsed[found.versions[p].1 as int]],
                ).contains(found.versions[p].0)
            &&& forall|k: int|
                0 <= k < count ==> match parse_outcome(
                    segments[#[trigger] order[k] as int],
                    verify_payload,
                    fail_fast,
                ) {
                    Ok(true) => is_gathered(segments, found, order[k] as int),
                    Ok(false) => found.skipped.contains(segments[order[k] as int].segment_id),
                    Err(_) => false,
                }
        }),
    decreases count,
{
    if count > 0 {
        let less = (count - 1) as nat;
        lemma_collected(segments, order, less, verify_payload, fail_fast);
        let before = collected(segments, order, less, verify_payload, fail_fast)->Ok_0;
        let found = collected(segments, order, count, verify_payload, fail_fast)->Ok_0;
        let at = order[less as int] as int;
        let rows = rows_of(segments[at]);
        let place = before.parsed.len();
        let outcome = parse_outcome(segments[at], verify_payload, fail_fast);
        if outcome == Ok::<bool, MnemeError>(true) {
            let added = crate::recover::tagged(rows, place as usize);
            assert(found.versions == before.versions + added);
            assert(found.parsed == before.parsed.push(at));
            assert(found.parsed[place as int] == at);
            assert forall|r: int| 0 <= r < rows.len() implies found.versions.contains(
                (#[trigger] rows[r], place as usize),
            ) by {
                assert(added[r] == (rows[r], place as usize));
                assert(found.versions[before.versions.len() + r] == added[r]);
            }
            assert(is_gathered(segments, found, at));
            assert forall|p: int| 0 <= p < found.versions.len() implies (
            #[trigger] found.versions[p]).1 < found.parsed.len() && rows_of(
                segments[found.parsed[found.versions[p].1 as int]],
            ).contains(found.versions[p].0) by {
                if p < before.versions.len() {
                    assert(found.versions[p] == before.versions[p]);
                    assert(found.parsed[before.versions[p].1 as int]
                        == before.parsed[before.versions[p].1 as int]);
                } else {
                    let r = p - before.versions.len();
                    assert(found.versions[p] == added[r]);
                    assert(added[r] == (rows[r], place as usize));
                    assert(rows.contains(rows[r]));
                }
            }
        } else {
            assert(found.versions == before.versions);
            assert(found.parsed == before.parsed);
            assert(found.skipped == before.skipped.push(segments[at].segment_id));
            assert(found.skipped[before.skipped.len() as int] == segments[at].segment_id);
        }
        assert forall|k: int| 0 <= k < count implies match parse_outcome(
            segments[#[trigger] order[k] as int],
            verify_payload,
            fail_fast,
        ) {
            Ok(true) => is_gathered(segments, found, order[k] as int),
            Ok(false) => found.skipped.contains(segments[order[k] as int].segment_id),
            Err(_) => false,
        } by {
            if k < less {
                let other = order[k] as int;
                match parse_outcome(segments[other], verify_payload, fail_fast) {
                    Ok(true) => {
                        lemma_gathered_stays(segments, before, found, other);
                    },
                    Ok(false) => {
                        let id = segments[other].segment_id;
                        let i = choose|i: int|
                            0 <= i < before.skipped.len() && before.skipped[i] == id;
                        assert(found.skipped[i] == id);
                    },
                    Err(_) => {},
                }
            }
        }
    }
}

proof fn lemma_decoded(
    state: StateModel,
    segments: Seq<SegmentImage>,
    parsed: Seq<int>,
    versions: Seq<(VersionRow, usize)>,
    count: nat,
)
    requires
        count <= versions.len(),
        decoded_all(state, segments, parsed, versions, count) is Ok,
    ensures
        ({
            let decoded = decoded_all(state, segments, parsed, versions, count)->Ok_0;
            &&& decoded.len() == count
            &&& forall|p: int|
                0 <= p < count ==> decode_outcome(
                    state,
                    segments[parsed[versions[p].1 as int]].segment_id,
                    segments[parsed[versions[p].1 as int]].vsec->Ok_0,
                    segments[parsed[versions[p].1 as int]].msec->Ok_0,
                    versions[p].0,
                ) == Ok::<(SlotView, Option<(i64, u32)>), MnemeError>(#[trigger] decoded[p])
        }),
    decreases count,
{
    if count > 0 {
        lemma_decoded(state, segments, parsed, versions, (count - 1) as nat);
    }
}

proof fn lemma_versions_pushed(
    state: StateModel,
    decoded: Seq<(SlotView, Option<(i64, u32)>)>,
    count: nat,
)
    requires
        count <= decoded.len(),
        state.slots.len() == 0,
        state.slot_segment.len() == 0,
        versions_applied(state, decoded, count).1 is Ok,
    ensures
        versions_applied(state, decoded, count).0.slots.len() == count,
        versions_applied(state, decoded, count).0.slot_segment.len() == count,
        forall|p: int|
            0 <= p < count ==> #[trigger] versions_applied(state, decoded, count).0.slots[p]
                == decoded[p].0,
    decreases count,
{
    if count > 0 {
        lemma_versions_pushed(state, decoded, (count - 1) as nat);
    }
}

/// Whether two states have the same versions, each with the same segment.
pub open spec fn versions_kept(before: StateModel, after: StateModel) -> bool {
    &&& after.slots == before.slots
    &&& after.slot_segment == before.slot_segment
    &&& after.latest == before.latest
    &&& after.hidden == before.hidden
}

proof fn lemma_forward_keeps(state: StateModel, edges: Seq<Edge>, count: nat)
    ensures
        versions_kept(state, forward_applied(state, edges, count)),
        forward_applied(state, edges, count).access == state.access,
    decreases count,
{
    if count > 0 {
        lemma_forward_keeps(state, edges, (count - 1) as nat);
    }
}

proof fn lemma_reverse_keeps(state: StateModel, edges: Seq<Edge>, count: nat)
    ensures
        versions_kept(state, reverse_applied(state, edges, count)),
        reverse_applied(state, edges, count).access == state.access,
        reverse_applied(state, edges, count).out_edges == state.out_edges,
    decreases count,
{
    if count > 0 {
        lemma_reverse_keeps(state, edges, (count - 1) as nat);
    }
}

proof fn lemma_deltas_keep(state: StateModel, entries: Seq<DeltaEntry>, count: nat)
    ensures
        versions_kept(state, deltas_applied(state, entries, count)),
    decreases count,
{
    if count > 0 {
        lemma_deltas_keep(state, entries, (count - 1) as nat);
    }
}

proof fn lemma_changes_keep(
    state: StateModel,
    segments: Seq<SegmentImage>,
    parsed: Seq<int>,
    count: nat,
)
    ensures
        versions_kept(state, changes_applied(state, segments, parsed, count)),
    decreases count,
{
    if count > 0 {
        let less = (count - 1) as nat;
        lemma_changes_keep(state, segments, parsed, less);
        let before = changes_applied(state, segments, parsed, less);
        let msec = segments[parsed[count - 1]].msec->Ok_0;
        let relations = msec.relations->Ok_0;
        let start = if relations.full {
            before.without_edges()
        } else {
            before
        };
        lemma_forward_keeps(start, relations.forward@, relations.forward@.len());
        let middle = forward_applied(start, relations.forward@, relations.forward@.len());
        lemma_reverse_keeps(middle, relations.reverse@, relations.reverse@.len());
        let related = relations_applied(before, relations);
        lemma_deltas_keep(related, msec.delta->Ok_0@, msec.delta->Ok_0@.len());
    }
}

/// What recovery comes to, step by step: the segments that were used, the rows in order, and the
/// versions that they were decoded to.
pub open spec fn is_recovered_from(
    segments: Seq<SegmentImage>,
    found: CollectedModel,
    versions: Seq<(VersionRow, usize)>,
    marked: StateModel,
    decoded: Seq<(SlotView, Option<(i64, u32)>)>,
    after: StateModel,
) -> bool {
    &&& decoded_all(marked, segments, found.parsed, versions, versions.len()) == Ok::<
        Seq<(SlotView, Option<(i64, u32)>)>,
        MnemeError,
    >(decoded)
    &&& decoded.len() == versions.len()
    &&& after.slots.len() == versions.len()
    &&& after.slot_segment.len() == versions.len()
    &&& forall|p: int|
        0 <= p < versions.len() ==> #[trigger] after.slots[p] == decoded[p].0
    &&& forall|p: int|
        0 <= p < versions.len() ==> #[trigger] after.slot_segment[p] == Some(
            segments[found.parsed[versions[p].1 as int]].segment_id,
        )
}

#[verifier::spinoff_prover]
proof fn lemma_recovered(
    state: StateModel,
    segments: Seq<SegmentImage>,
    verify_payload: bool,
    fail_fast: bool,
    block_rows: nat,
    segment_order: Seq<usize>,
    version_order: Seq<usize>,
    after: StateModel,
    recovered: RecoveredSegments,
) -> (decoded: Seq<(SlotView, Option<(i64, u32)>)>)
    requires
        segments.len() <= usize::MAX,
        state.slots.len() == 0,
        state.slot_segment.len() == 0,
        is_stable_order(segment_ranks(segments), segment_order),
        load_outcome(
            state,
            segments,
            verify_payload,
            fail_fast,
            block_rows,
            segment_order,
            version_order,
            after,
            Ok(recovered),
        ),
    ensures
        collected(
            segments,
            segment_order,
            segments.len(),
            verify_payload,
            fail_fast,
        ) matches Ok(found) && {
            &&& is_stable_order(found.versions, version_order)
            &&& recovered.skipped@ == found.skipped
            &&& is_recovered_from(
                segments,
                found,
                reordered(found.versions, version_order),
                (StateModel { unavailable: found.skipped, indexing_paused: true, ..state }),
                decoded,
                after,
            )
        },
{
    let found = collected(
        segments,
        segment_order,
        segments.len(),
        verify_payload,
        fail_fast,
    )->Ok_0;
    let versions = reordered(found.versions, version_order);
    let marked = StateModel { unavailable: found.skipped, indexing_paused: true, ..state };
    let row_counts = parsed_row_counts(segments, found.parsed);
    let ids = parsed_numbers(segments, found.parsed);
    lemma_collected(segments, segment_order, segments.len(), verify_payload, fail_fast);
    let built = choose|built: Result<Vec<SegmentRemap>, MnemeError>| #[trigger]
        remap_outcome(versions, row_counts, ids, built) && match built {
            Err(error) => false,
            Ok(remaps) => {
                let end = crate::recover::load_finished(
                    marked,
                    segments,
                    found,
                    versions,
                    remaps@,
                    fail_fast,
                    block_rows,
                );
                end.0 == after && end.1 is Ok
            },
        };
    let remaps = built->Ok_0@;
    let decoded = decoded_all(marked, segments, found.parsed, versions, versions.len())->Ok_0;
    lemma_decoded(marked, segments, found.parsed, versions, versions.len());
    lemma_versions_pushed(marked, decoded, decoded.len());
    let applied = versions_applied(marked, decoded, decoded.len()).0;
    let placed = StateModel {
        slot_segment: segments_filled(applied.slot_segment, remaps, remaps.len()),
        ..applied
    };
    lemma_changes_keep(placed, segments, found.parsed, found.parsed.len());
    assert forall|p: int| 0 <= p < versions.len() implies (#[trigger] versions[p]).1
        < row_counts.len() && versions[p].0.slot_id < row_counts[versions[p].1 as int] by {
        assert(versions[p] == found.versions[version_order[p] as int]);
        if p <= crate::remap::position_limit() {
            assert(!crate::remap::bad_slot(versions, row_counts, p));
        }
    }
    assert(remaps.len() == ids.len());
    assert forall|p: int| 0 <= p < versions.len() implies #[trigger] after.slot_segment[p] == Some(
        segments[found.parsed[versions[p].1 as int]].segment_id,
    ) by {
        assert(versions[p].1 < row_counts.len());
        recovered_slots_belong_to_segments(
            applied.slot_segment,
            versions,
            row_counts,
            ids,
            remaps,
            remaps.len(),
            p,
        );
        assert(ids[versions[p].1 as int]
            == segments[found.parsed[versions[p].1 as int]].segment_id);
    }
    if versions.len() > 0 {
        recovered_slots_belong_to_segments(
            applied.slot_segment,
            versions,
            row_counts,
            ids,
            remaps,
            remaps.len(),
            0,
        );
    } else {
        assert(remaps.len() == 0 || row_counts.len() > 0);
        lemma_filled_len(applied.slot_segment, remaps, remaps.len());
    }
    decoded
}

proof fn lemma_filled_len(slot_segment: Seq<Option<u32>>, remaps: Seq<SegmentRemap>, count: nat)
    requires
        count <= remaps.len(),
    ensures
        segments_filled(slot_segment, remaps, count).len() == slot_segment.len(),
    decreases count,
{
    if count > 0 {
        let less = (count - 1) as nat;
        lemma_filled_len(slot_segment, remaps, less);
        lemma_fill_len(
            segments_filled(slot_segment, remaps, less),
            remaps[count - 1].remap@,
            remaps[count - 1].segment_id,
            remaps[count - 1].remap@.len(),
        );
    }
}

proof fn lemma_fill_len(
    slot_segment: Seq<Option<u32>>,
    remap: Seq<u32>,
    segment_id: u32,
    count: nat,
)
    ensures
        crate::recover::segment_filled(slot_segment, remap, segment_id, count).len()
            == slot_segment.len(),
    decreases count,
{
    if count > 0 {
        lemma_fill_len(slot_segment, remap, segment_id, (count - 1) as nat);
    }
}

/// Recovery brings back every version that the segments hold. A segment that was not left out is
/// sound, and each of its version rows has a version in the state: the one that the row stands for,
/// with the vector of its own slot, and it belongs to that segment.
#[verifier::spinoff_prover]
pub proof fn every_stored_version_is_recovered(
    state: StateModel,
    segments: Seq<SegmentImage>,
    verify_payload: bool,
    fail_fast: bool,
    block_rows: nat,
    segment_order: Seq<usize>,
    version_order: Seq<usize>,
    after: StateModel,
    recovered: RecoveredSegments,
    at: int,
    place: int,
)
    requires
        segments.len() <= usize::MAX,
        state.slots.len() == 0,
        state.slot_segment.len() == 0,
        is_stable_order(segment_ranks(segments), segment_order),
        load_outcome(
            state,
            segments,
            verify_payload,
            fail_fast,
            block_rows,
            segment_order,
            version_order,
            after,
            Ok(recovered),
        ),
        0 <= at < segments.len(),
        !recovered.skipped@.contains(segments[at].segment_id),
    ensures
        segments[at].vsec is Ok,
        segments[at].msec is Ok,
        segments[at].msec->Ok_0.version_rows is Ok,
        0 <= place < rows_of(segments[at]).len() ==> exists|p: int|
            0 <= p < after.slots.len() && #[trigger] stands_for(
                after.slots[p],
                segments[at].segment_id,
                segments[at].vsec->Ok_0,
                segments[at].msec->Ok_0,
                rows_of(segments[at])[place],
            ) && after.slot_segment[p] == Some(segments[at].segment_id),
{
    let decoded = lemma_recovered(
        state,
        segments,
        verify_payload,
        fail_fast,
        block_rows,
        segment_order,
        version_order,
        after,
        recovered,
    );
    let found = collected(
        segments,
        segment_order,
        segments.len(),
        verify_payload,
        fail_fast,
    )->Ok_0;
    let versions = reordered(found.versions, version_order);
    let marked = StateModel { unavailable: found.skipped, indexing_paused: true, ..state };
    lemma_collected(segments, segment_order, segments.len(), verify_payload, fail_fast);
    stable_order_covers(segment_ranks(segments), segment_order, at);
    let k = choose|k: int| 0 <= k < segment_order.len() && #[trigger] segment_order[k] == at;
    assert(segment_order[k] == at);
    only_damaged_segments_are_left_out(segments[at], verify_payload, fail_fast);
    assert(is_gathered(segments, found, at));
    if 0 <= place < rows_of(segments[at]).len() {
        let row = rows_of(segments[at])[place];
        let q = choose|q: int|
            0 <= q < found.parsed.len() && #[trigger] found.parsed[q] == at && forall|r: int|
                0 <= r < rows_of(segments[at]).len() ==> found.versions.contains(
                    (#[trigger] rows_of(segments[at])[r], q as usize),
                );
        let item = (row, q as usize);
        assert(found.versions.contains(item));
        let v = choose|v: int| 0 <= v < found.versions.len() && found.versions[v] == item;
        stable_order_covers(found.versions, version_order, v);
        let p = choose|p: int| 0 <= p < version_order.len() && #[trigger] version_order[p] == v;
        assert(versions[p] == item);
        lemma_decoded(marked, segments, found.parsed, versions, versions.len());
        assert(after.slots[p] == decoded[p].0);
        decoded_version_is_its_own(
            marked,
            segments[at].segment_id,
            segments[at].vsec->Ok_0,
            segments[at].msec->Ok_0,
            row,
        );
        assert(stands_for(
            after.slots[p],
            segments[at].segment_id,
            segments[at].vsec->Ok_0,
            segments[at].msec->Ok_0,
            row,
        ));
    }
}

/// Recovery makes nothing up: every version of the recovered state stands for a version row of a
/// segment that was used, the one that the version belongs to.
#[verifier::spinoff_prover]
pub proof fn every_recovered_version_was_stored(
    state: StateModel,
    segments: Seq<SegmentImage>,
    verify_payload: bool,
    fail_fast: bool,
    block_rows: nat,
    segment_order: Seq<usize>,
    version_order: Seq<usize>,
    after: StateModel,
    recovered: RecoveredSegments,
    p: int,
)
    requires
        segments.len() <= usize::MAX,
        state.slots.len() == 0,
        state.slot_segment.len() == 0,
        is_stable_order(segment_ranks(segments), segment_order),
        load_outcome(
            state,
            segments,
            verify_payload,
            fail_fast,
            block_rows,
            segment_order,
            version_order,
            after,
            Ok(recovered),
        ),
        0 <= p < after.slots.len(),
    ensures
        exists|at: int, place: int|
            #![trigger rows_of(segments[at])[place]]
            0 <= at < segments.len() && 0 <= place < rows_of(segments[at]).len() && stands_for(
                after.slots[p],
                segments[at].segment_id,
                segments[at].vsec->Ok_0,
                segments[at].msec->Ok_0,
                rows_of(segments[at])[place],
            ) && after.slot_segment[p] == Some(segments[at].segment_id),
{
    let decoded = lemma_recovered(
        state,
        segments,
        verify_payload,
        fail_fast,
        block_rows,
        segment_order,
        version_order,
        after,
        recovered,
    );
    let found = collected(
        segments,
        segment_order,
        segments.len(),
        verify_payload,
        fail_fast,
    )->Ok_0;
    let versions = reordered(found.versions, version_order);
    let marked = StateModel { unavailable: found.skipped, indexing_paused: true, ..state };
    lemma_collected(segments, segment_order, segments.len(), verify_payload, fail_fast);
    lemma_decoded(marked, segments, found.parsed, versions, versions.len());
    let v = version_order[p] as int;
    assert(versions[p] == found.versions[v]);
    let at = found.parsed[found.versions[v].1 as int];
    let row = found.versions[v].0;
    let place = choose|r: int| 0 <= r < rows_of(segments[at]).len() && rows_of(segments[at])[r]
        == row;
    assert(rows_of(segments[at])[place] == row);
    assert(after.slots[p] == decoded[p].0);
    decoded_version_is_its_own(
        marked,
        segments[at].segment_id,
        segments[at].vsec->Ok_0,
        segments[at].msec->Ok_0,
        row,
    );
}

/// Whether an edge of a list is the last there with its ends and its kind.
pub open spec fn is_last_listing(edges: Seq<Edge>, count: nat, at: int) -> bool {
    &&& 0 <= at < count
    &&& forall|later: int|
        at < later < count ==> (#[trigger] edges[later]).from != edges[at].from || edges[later].to
            != edges[at].to || edges[later].kind != edges[at].kind
}

/// Whether a list names an edge with these ends and this kind.
pub open spec fn lists_edge(edges: Seq<Edge>, count: nat, from: u64, to: u64, kind: u16) -> bool {
    exists|at: int|
        0 <= at < count && (#[trigger] edges[at]).from == from && edges[at].to == to
            && edges[at].kind == kind
}

/// Whether a table holds at a key the weight and the metadata of an edge.
pub open spec fn holds_edge(table: Map<EdgeKey, EdgeView>, key: EdgeKey, edge: Edge) -> bool {
    table.dom().contains(key) && table[key].weight == edge.weight && table[key].metadata
        == edge.metadata@
}

proof fn lemma_forward_last(state: StateModel, edges: Seq<Edge>, count: nat, at: int)
    requires
        is_last_listing(edges, count, at),
    ensures
        ({
            let edge = edges[at];
            let after = forward_applied(state, edges, count);
            let out_key = EdgeKey { row: edge.from, other: edge.to, kind: edge.kind };
            let in_key = EdgeKey { row: edge.to, other: edge.from, kind: edge.kind };
            holds_edge(after.out_edges, out_key, edge) && holds_edge(after.in_edges, in_key, edge)
        }),
    decreases count,
{
    if at < count - 1 {
        let less = (count - 1) as nat;
        assert(is_last_listing(edges, less, at));
        lemma_forward_last(state, edges, less, at);
        assert(edges[less as int].from != edges[at].from || edges[less as int].to != edges[at].to
            || edges[less as int].kind != edges[at].kind);
    }
}

proof fn lemma_forward_other(
    state: StateModel,
    edges: Seq<Edge>,
    count: nat,
    from: u64,
    to: u64,
    kind: u16,
)
    requires
        !lists_edge(edges, count, from, to, kind),
    ensures
        ({
            let after = forward_applied(state, edges, count);
            let out_key = EdgeKey { row: from, other: to, kind };
            let in_key = EdgeKey { row: to, other: from, kind };
            &&& after.out_edges.dom().contains(out_key) == state.out_edges.dom().contains(out_key)
            &&& after.out_edges[out_key] == state.out_edges[out_key]
            &&& after.in_edges.dom().contains(in_key) == state.in_edges.dom().contains(in_key)
            &&& after.in_edges[in_key] == state.in_edges[in_key]
        }),
    decreases count,
{
    if count > 0 {
        let less = (count - 1) as nat;
        assert(edges[less as int].from != from || edges[less as int].to != to
            || edges[less as int].kind != kind);
        assert(!lists_edge(edges, less, from, to, kind));
        lemma_forward_other(state, edges, less, from, to, kind);
    }
}

proof fn lemma_reverse_last(state: StateModel, edges: Seq<Edge>, count: nat, at: int)
    requires
        is_last_listing(edges, count, at),
    ensures
        holds_edge(
            reverse_applied(state, edges, count).in_edges,
            (EdgeKey { row: edges[at].to, other: edges[at].from, kind: edges[at].kind }),
            edges[at],
        ),
    decreases count,
{
    if at < count - 1 {
        let less = (count - 1) as nat;
        assert(is_last_listing(edges, less, at));
        lemma_reverse_last(state, edges, less, at);
        assert(edges[less as int].from != edges[at].from || edges[less as int].to != edges[at].to
            || edges[less as int].kind != edges[at].kind);
    }
}

proof fn lemma_reverse_other(
    state: StateModel,
    edges: Seq<Edge>,
    count: nat,
    from: u64,
    to: u64,
    kind: u16,
)
    requires
        !lists_edge(edges, count, from, to, kind),
    ensures
        ({
            let after = reverse_applied(state, edges, count);
            let in_key = EdgeKey { row: to, other: from, kind };
            &&& after.in_edges.dom().contains(in_key) == state.in_edges.dom().contains(in_key)
            &&& after.in_edges[in_key] == state.in_edges[in_key]
        }),
    decreases count,
{
    if count > 0 {
        let less = (count - 1) as nat;
        assert(edges[less as int].from != from || edges[less as int].to != to
            || edges[less as int].kind != kind);
        assert(!lists_edge(edges, less, from, to, kind));
        lemma_reverse_other(state, edges, less, from, to, kind);
    }
}

/// The edges that a segment lists come back, each at its source and at its target, with its weight
/// and its metadata; where an edge is listed more than once, the last counts. An edge that the
/// segment does not list is gone where the segment states all edges, and otherwise stays as it was.
/// Versions and access counts stay.
pub proof fn listed_edges_come_back(
    state: StateModel,
    relations: Relations,
    at: int,
    from: u64,
    to: u64,
    kind: u16,
)
    ensures
        ({
            let after = relations_applied(state, relations);
            let forward = relations.forward@;
            let reverse = relations.reverse@;
            let out_key = EdgeKey { row: from, other: to, kind };
            let in_key = EdgeKey { row: to, other: from, kind };
            &&& is_last_listing(forward, forward.len(), at) && forward[at].from == from
                && forward[at].to == to && forward[at].kind == kind ==> holds_edge(
                after.out_edges,
                out_key,
                forward[at],
            ) && (!lists_edge(reverse, reverse.len(), from, to, kind) ==> holds_edge(
                after.in_edges,
                in_key,
                forward[at],
            ))
            &&& is_last_listing(reverse, reverse.len(), at) && reverse[at].from == from
                && reverse[at].to == to && reverse[at].kind == kind ==> holds_edge(
                after.in_edges,
                in_key,
                reverse[at],
            )
            &&& !lists_edge(forward, forward.len(), from, to, kind) ==> {
                &&& after.out_edges.dom().contains(out_key) <==> !relations.full
                    && state.out_edges.dom().contains(out_key)
                &&& !relations.full ==> after.out_edges[out_key] == state.out_edges[out_key]
                &&& !lists_edge(reverse, reverse.len(), from, to, kind) ==> {
                    &&& after.in_edges.dom().contains(in_key) <==> !relations.full
                        && state.in_edges.dom().contains(in_key)
                    &&& !relations.full ==> after.in_edges[in_key] == state.in_edges[in_key]
                }
            }
            &&& versions_kept(state, after)
            &&& after.access == state.access
        }),
{
    let forward = relations.forward@;
    let reverse = relations.reverse@;
    let start = if relations.full {
        state.without_edges()
    } else {
        state
    };
    let middle = forward_applied(start, forward, forward.len());
    lemma_forward_keeps(start, forward, forward.len());
    lemma_reverse_keeps(middle, reverse, reverse.len());
    if is_last_listing(forward, forward.len(), at) {
        lemma_forward_last(start, forward, forward.len(), at);
    }
    if is_last_listing(reverse, reverse.len(), at) {
        lemma_reverse_last(middle, reverse, reverse.len(), at);
    }
    if !lists_edge(forward, forward.len(), from, to, kind) {
        lemma_forward_other(start, forward, forward.len(), from, to, kind);
    }
    if !lists_edge(reverse, reverse.len(), from, to, kind) {
        lemma_reverse_other(middle, reverse, reverse.len(), from, to, kind);
    }
}

/// Accesses that a segment records of a row are added to those before, up to the largest count, and
/// the later time stays; unless the row has a version of a later commit, which carries them
/// already. No other row is touched.
pub proof fn recorded_accesses_are_added(state: StateModel, entry: DeltaEntry, row: u64)
    requires
        entry is Access,
    ensures
        ({
            let rowid = entry->Access_rowid;
            let after = delta_applied(state, entry);
            let known = state.access.dom().contains(rowid);
            let count = if known {
                state.access[rowid].access_count as int
            } else {
                0
            };
            let time = if known {
                state.access[rowid].last_access_ms as int
            } else {
                0
            };
            let total = count + entry->access_delta;
            let younger = state.latest.dom().contains(rowid)
                && state.slots[state.latest[rowid] as int].seqno > entry->Access_seqno;
            &&& younger ==> after == state
            &&& !younger ==> {
                &&& after.access.dom().contains(rowid)
                &&& after.access[rowid].access_count == (if total > u32::MAX {
                    u32::MAX as int
                } else {
                    total
                })
                &&& after.access[rowid].last_access_ms == (if time < entry->last_access_ms {
                    entry->last_access_ms as int
                } else {
                    time
                })
                &&& row != rowid ==> after.access.dom().contains(row) == state.access.dom().contains(
                    row,
                ) && after.access[row] == state.access[row]
            }
            &&& versions_kept(state, after)
            &&& after.out_edges == state.out_edges
            &&& after.in_edges == state.in_edges
        }),
{
}

/// An edge that a segment records as set or as removed is set or removed at both of its ends, and
/// every other edge stays.
pub proof fn recorded_edge_changes_take_effect(
    state: StateModel,
    entry: DeltaEntry,
    key: EdgeKey,
)
    ensures
        versions_kept(state, delta_applied(state, entry)),
        entry matches DeltaEntry::Relate { edge, .. } ==> {
            let after = delta_applied(state, entry);
            let out_key = EdgeKey { row: edge.from, other: edge.to, kind: edge.kind };
            let in_key = EdgeKey { row: edge.to, other: edge.from, kind: edge.kind };
            &&& holds_edge(after.out_edges, out_key, edge)
            &&& holds_edge(after.in_edges, in_key, edge)
            &&& key != out_key ==> after.out_edges.dom().contains(key)
                == state.out_edges.dom().contains(key) && after.out_edges[key]
                == state.out_edges[key]
            &&& key != in_key ==> after.in_edges.dom().contains(key)
                == state.in_edges.dom().contains(key) && after.in_edges[key] == state.in_edges[key]
            &&& after.access == state.access
        },
        entry matches DeltaEntry::Unrelate { from, to, kind, .. } ==> {
            let after = delta_applied(state, entry);
            let out_key = EdgeKey { row: from, other: to, kind };
            let in_key = EdgeKey { row: to, other: from, kind };
            &&& !after.out_edges.dom().contains(out_key)
            &&& !after.in_edges.dom().contains(in_key)
            &&& key != out_key ==> after.out_edges.dom().contains(key)
                == state.out_edges.dom().contains(key) && after.out_edges[key]
                == state.out_edges[key]
            &&& key != in_key ==> after.in_edges.dom().contains(key)
                == state.in_edges.dom().contains(key) && after.in_edges[key] == state.in_edges[key]
            &&& after.access == state.access
        },
{
}

/// A version that is recovered becomes the latest of its row and raises the counters past its own
/// numbers. The accesses that its record carries take the place of those before; where the record
/// carries none, or the version is the first of its row and carries only zeros, they stay.
pub proof fn recovered_version_is_committed(
    state: StateModel,
    slot: SlotView,
    access: Option<(i64, u32)>,
    previous_exists: bool,
    row: u64,
)
    requires
        state.consistent(),
        state.slots.len() <= u32::MAX,
        slot.rowid < u64::MAX,
        previous_exists == state.latest.dom().contains(slot.rowid),
    ensures
        recovered_applied(state, slot, access, previous_exists).1 is Ok,
        ({
            let after = recovered_applied(state, slot, access, previous_exists).0;
            &&& version_added(state, after, slot.rowid)
            &&& after.slots.last() == slot
            &&& after.seqno >= slot.seqno
            &&& after.seqno >= state.seqno
            &&& after.seqno == slot.seqno || after.seqno == state.seqno
            &&& access matches Some((last_access_ms, access_count)) ==> (previous_exists
                || last_access_ms != 0 || access_count != 0 ==> after.access.dom().contains(
                slot.rowid,
            ) && after.access[slot.rowid].last_access_ms == last_access_ms
                && after.access[slot.rowid].access_count == access_count)
            &&& access is None || (!previous_exists && access == Some((0i64, 0u32)))
                ==> after.access == state.access
            &&& row != slot.rowid ==> after.access.dom().contains(row)
                == state.access.dom().contains(row) && after.access[row] == state.access[row]
            &&& after.out_edges == state.out_edges
            &&& after.in_edges == state.in_edges
            &&& after.ns_registry == state.ns_registry
            &&& after.rel_kind_names == state.rel_kind_names
        }),
{
}

/// Whether the records that the version rows of a segment name carry the numbers of these rows.
pub open spec fn records_agree(segment: SegmentImage) -> bool {
    forall|r: int|
        #![trigger rows_of(segment)[r]]
        0 <= r < rows_of(segment).len() ==> {
            let row = rows_of(segment)[r];
            segment.msec->Ok_0.records@[row.doc_offset] matches StoredRecord::Entry(entry)
                ==> entry.rowid == row.rowid && entry.seqno == row.seqno
        }
}

/// Of the versions of a row, recovery makes exactly one visible: one with the largest commit
/// number.
#[verifier::spinoff_prover]
pub proof fn youngest_version_is_visible(
    state: StateModel,
    segments: Seq<SegmentImage>,
    verify_payload: bool,
    fail_fast: bool,
    block_rows: nat,
    segment_order: Seq<usize>,
    version_order: Seq<usize>,
    after: StateModel,
    recovered: RecoveredSegments,
    p: int,
)
    requires
        segments.len() <= usize::MAX,
        state.consistent(),
        state.slots.len() == 0,
        state.slot_segment.len() == 0,
        state.latest == Map::<u64, u32>::empty(),
        is_stable_order(segment_ranks(segments), segment_order),
        load_outcome(
            state,
            segments,
            verify_payload,
            fail_fast,
            block_rows,
            segment_order,
            version_order,
            after,
            Ok(recovered),
        ),
        forall|at: int| 0 <= at < segments.len() ==> records_agree(#[trigger] segments[at]),
        0 <= p < after.slots.len(),
    ensures
        after.latest.dom().contains(after.slots[p].rowid),
        ({
            let visible = after.latest[after.slots[p].rowid] as int;
            &&& 0 <= visible < after.slots.len()
            &&& after.slots[visible].rowid == after.slots[p].rowid
            &&& after.slots[visible].seqno >= after.slots[p].seqno
            &&& !after.hidden[visible]
            &&& after.hidden[p] <==> p != visible
        }),
{
    let decoded = lemma_recovered(
        state,
        segments,
        verify_payload,
        fail_fast,
        block_rows,
        segment_order,
        version_order,
        after,
        recovered,
    );
    let found = collected(
        segments,
        segment_order,
        segments.len(),
        verify_payload,
        fail_fast,
    )->Ok_0;
    let versions = reordered(found.versions, version_order);
    let marked = StateModel { unavailable: found.skipped, indexing_paused: true, ..state };
    lemma_collected(segments, segment_order, segments.len(), verify_payload, fail_fast);
    lemma_decoded(marked, segments, found.parsed, versions, versions.len());
    assert forall|i: int| 0 <= i < versions.len() implies (#[trigger] decoded[i]).0.rowid
        == versions[i].0.rowid && decoded[i].0.seqno == versions[i].0.seqno by {
        let v = version_order[i] as int;
        assert(versions[i] == found.versions[v]);
        let at = found.parsed[found.versions[v].1 as int];
        let row = found.versions[v].0;
        let place = choose|r: int| 0 <= r < rows_of(segments[at]).len() && rows_of(segments[at])[r]
            == row;
        assert(rows_of(segments[at])[place] == row);
        assert(records_agree(segments[at]));
        decoded_version_is_its_own(
            marked,
            segments[at].segment_id,
            segments[at].vsec->Ok_0,
            segments[at].msec->Ok_0,
            row,
        );
    }
    assert forall|i: int, j: int| 0 <= i < j < versions.len() implies (
    #[trigger] versions[i]).0.rowid < (#[trigger] versions[j]).0.rowid || (versions[i].0.rowid
        == versions[j].0.rowid && versions[i].0.seqno <= versions[j].0.seqno) by {
        assert(versions[i] == found.versions[version_order[i] as int]);
        assert(versions[j] == found.versions[version_order[j] as int]);
        assert(comes_before(
            found.versions,
            version_order[i] as int,
            version_order[j] as int,
        ));
    }
    recovered_versions_form_chains(marked, decoded, decoded.len());
    let applied = versions_applied(marked, decoded, decoded.len()).0;
    lemma_load_keeps(
        state,
        segments,
        verify_payload,
        fail_fast,
        block_rows,
        segment_order,
        version_order,
        after,
        recovered,
    );
    assert(applied.chains_hold());
    let visible = after.latest[after.slots[p].rowid] as int;
    assert(applied.slots[p] == decoded[p].0);
    assert(after.slots[p] == decoded[p].0);
    assert(after.slots[visible] == decoded[visible].0);
    assert(decoded[p].0.seqno == versions[p].0.seqno);
    assert(decoded[visible].0.seqno == versions[visible].0.seqno);
    if p < visible {
        assert(versions[p].0.rowid == versions[visible].0.rowid);
    }
}

proof fn lemma_versions_keep(
    state: StateModel,
    decoded: Seq<(SlotView, Option<(i64, u32)>)>,
    count: nat,
)
    requires
        count <= decoded.len(),
    ensures
        ({
            let after = versions_applied(state, decoded, count).0;
            &&& after.ns_registry == state.ns_registry
            &&& after.ns_by_path == state.ns_by_path
            &&& after.rel_kind_names == state.rel_kind_names
            &&& after.next_ns_id == state.next_ns_id
            &&& after.next_rel_kind == state.next_rel_kind
            &&& after.out_edges == state.out_edges
            &&& after.in_edges == state.in_edges
            &&& after.unavailable == state.unavailable
        }),
    decreases count,
{
    if count > 0 {
        lemma_versions_keep(state, decoded, (count - 1) as nat);
    }
}

/// Whether two states have the same registries and the same segments left out.
pub open spec fn registries_kept(before: StateModel, after: StateModel) -> bool {
    &&& after.ns_registry == before.ns_registry
    &&& after.ns_by_path == before.ns_by_path
    &&& after.rel_kind_names == before.rel_kind_names
    &&& after.next_ns_id == before.next_ns_id
    &&& after.next_rel_kind == before.next_rel_kind
    &&& after.unavailable == before.unavailable
    &&& after.seqno == before.seqno
    &&& after.next_rowid == before.next_rowid
}

proof fn lemma_forward_registries(state: StateModel, edges: Seq<Edge>, count: nat)
    ensures
        registries_kept(state, forward_applied(state, edges, count)),
    decreases count,
{
    if count > 0 {
        lemma_forward_registries(state, edges, (count - 1) as nat);
    }
}

proof fn lemma_reverse_registries(state: StateModel, edges: Seq<Edge>, count: nat)
    ensures
        registries_kept(state, reverse_applied(state, edges, count)),
    decreases count,
{
    if count > 0 {
        lemma_reverse_registries(state, edges, (count - 1) as nat);
    }
}

proof fn lemma_deltas_registries(state: StateModel, entries: Seq<DeltaEntry>, count: nat)
    ensures
        registries_kept(state, deltas_applied(state, entries, count)),
    decreases count,
{
    if count > 0 {
        lemma_deltas_registries(state, entries, (count - 1) as nat);
    }
}

proof fn lemma_changes_registries(
    state: StateModel,
    segments: Seq<SegmentImage>,
    parsed: Seq<int>,
    count: nat,
)
    ensures
        registries_kept(state, changes_applied(state, segments, parsed, count)),
    decreases count,
{
    if count > 0 {
        let less = (count - 1) as nat;
        lemma_changes_registries(state, segments, parsed, less);
        let before = changes_applied(state, segments, parsed, less);
        let msec = segments[parsed[count - 1]].msec->Ok_0;
        let relations = msec.relations->Ok_0;
        let start = if relations.full {
            before.without_edges()
        } else {
            before
        };
        lemma_forward_registries(start, relations.forward@, relations.forward@.len());
        let middle = forward_applied(start, relations.forward@, relations.forward@.len());
        lemma_reverse_registries(middle, relations.reverse@, relations.reverse@.len());
        let related = relations_applied(before, relations);
        lemma_deltas_registries(related, msec.delta->Ok_0@, msec.delta->Ok_0@.len());
    }
}

#[verifier::spinoff_prover]
proof fn lemma_load_keeps(
    state: StateModel,
    segments: Seq<SegmentImage>,
    verify_payload: bool,
    fail_fast: bool,
    block_rows: nat,
    segment_order: Seq<usize>,
    version_order: Seq<usize>,
    after: StateModel,
    recovered: RecoveredSegments,
)
    requires
        load_outcome(
            state,
            segments,
            verify_payload,
            fail_fast,
            block_rows,
            segment_order,
            version_order,
            after,
            Ok(recovered),
        ),
    ensures
        collected(
            segments,
            segment_order,
            segments.len(),
            verify_payload,
            fail_fast,
        ) matches Ok(found) && {
            let versions = reordered(found.versions, version_order);
            let marked = StateModel { unavailable: found.skipped, indexing_paused: true, ..state };
            &&& decoded_all(
                marked,
                segments,
                found.parsed,
                versions,
                versions.len(),
            ) matches Ok(decoded) && {
                let applied = versions_applied(marked, decoded, decoded.len()).0;
                &&& versions_applied(marked, decoded, decoded.len()).1 is Ok
                &&& after.latest == applied.latest
                &&& after.hidden == applied.hidden
                &&& after.slots == applied.slots
                &&& registries_kept(applied, after)
                &&& !after.indexing_paused
                &&& exists|placed: StateModel|
                    placed.access == applied.access && placed.latest == applied.latest
                        && placed.slots == applied.slots && placed.out_edges == applied.out_edges
                        && placed.in_edges == applied.in_edges && after.access
                        == (#[trigger] changes_applied(
                        placed,
                        segments,
                        found.parsed,
                        found.parsed.len(),
                    )).access && after.out_edges == changes_applied(
                        placed,
                        segments,
                        found.parsed,
                        found.parsed.len(),
                    ).out_edges && after.in_edges == changes_applied(
                        placed,
                        segments,
                        found.parsed,
                        found.parsed.len(),
                    ).in_edges
            }
        },
{
    let found = collected(
        segments,
        segment_order,
        segments.len(),
        verify_payload,
        fail_fast,
    )->Ok_0;
    let versions = reordered(found.versions, version_order);
    let marked = StateModel { unavailable: found.skipped, indexing_paused: true, ..state };
    let built = choose|built: Result<Vec<SegmentRemap>, MnemeError>| #[trigger]
        remap_outcome(
            versions,
            parsed_row_counts(segments, found.parsed),
            parsed_numbers(segments, found.parsed),
            built,
        ) && match built {
            Err(error) => false,
            Ok(remaps) => {
                let end = crate::recover::load_finished(
                    marked,
                    segments,
                    found,
                    versions,
                    remaps@,
                    fail_fast,
                    block_rows,
                );
                end.0 == after && end.1 is Ok
            },
        };
    let remaps = built->Ok_0@;
    let decoded = decoded_all(marked, segments, found.parsed, versions, versions.len())->Ok_0;
    let applied = versions_applied(marked, decoded, decoded.len()).0;
    let placed = StateModel {
        slot_segment: segments_filled(applied.slot_segment, remaps, remaps.len()),
        ..applied
    };
    lemma_changes_keep(placed, segments, found.parsed, found.parsed.len());
    lemma_changes_registries(placed, segments, found.parsed, found.parsed.len());
}

/// Whether a segment with this number is left out.
spec fn is_left_out(
    segments: Seq<SegmentImage>,
    segment_id: u32,
    verify_payload: bool,
    fail_fast: bool,
) -> bool {
    exists|at: int|
        0 <= at < segments.len() && (#[trigger] segments[at]).segment_id == segment_id
            && parse_outcome(segments[at], verify_payload, fail_fast) == Ok::<bool, MnemeError>(
            false,
        )
}

proof fn lemma_skipped(
    segments: Seq<SegmentImage>,
    order: Seq<usize>,
    count: nat,
    verify_payload: bool,
    fail_fast: bool,
    i: int,
)
    requires
        count <= order.len(),
        forall|i: int| 0 <= i < order.len() ==> (#[trigger] order[i]) < segments.len(),
        collected(segments, order, count, verify_payload, fail_fast) is Ok,
        0 <= i < collected(segments, order, count, verify_payload, fail_fast)->Ok_0.skipped.len(),
    ensures
        is_left_out(
            segments,
            collected(segments, order, count, verify_payload, fail_fast)->Ok_0.skipped[i],
            verify_payload,
            fail_fast,
        ),
    decreases count,
{
    if count > 0 {
        let less = (count - 1) as nat;
        let before = collected(segments, order, less, verify_payload, fail_fast)->Ok_0;
        let last = order[less as int] as int;
        if i < before.skipped.len() {
            lemma_skipped(segments, order, less, verify_payload, fail_fast, i);
        } else {
            assert(segments[last].segment_id == collected(
                segments,
                order,
                count,
                verify_payload,
                fail_fast,
            )->Ok_0.skipped[i]);
        }
    }
}

/// Recovery keeps the registries that it starts from, reports as unavailable exactly the segments
/// that it left out, and leaves out none that is sound. Afterwards the state indexes again.
pub proof fn recovery_reports_what_it_left_out(
    state: StateModel,
    segments: Seq<SegmentImage>,
    verify_payload: bool,
    fail_fast: bool,
    block_rows: nat,
    segment_order: Seq<usize>,
    version_order: Seq<usize>,
    after: StateModel,
    recovered: RecoveredSegments,
    i: int,
)
    requires
        is_stable_order(segment_ranks(segments), segment_order),
        load_outcome(
            state,
            segments,
            verify_payload,
            fail_fast,
            block_rows,
            segment_order,
            version_order,
            after,
            Ok(recovered),
        ),
    ensures
        after.ns_registry == state.ns_registry,
        after.ns_by_path == state.ns_by_path,
        after.rel_kind_names == state.rel_kind_names,
        after.next_ns_id == state.next_ns_id,
        after.next_rel_kind == state.next_rel_kind,
        after.unavailable == recovered.skipped@,
        !after.indexing_paused,
        fail_fast ==> recovered.skipped@.len() == 0,
        0 <= i < recovered.skipped@.len() ==> exists|at: int|
            0 <= at < segments.len() && (#[trigger] segments[at]).segment_id
                == recovered.skipped@[i] && !(segments[at].msec_handle is Ok && segments[at].vsec
                is Ok && (verify_payload ==> segments[at].vsec->Ok_0.payload is Ok)
                && segments[at].msec is Ok && (verify_payload
                ==> segments[at].msec->Ok_0.payload is Ok)
                && segments[at].msec->Ok_0.version_rows is Ok
                && segments[at].msec->Ok_0.relations is Ok && segments[at].msec->Ok_0.delta is Ok),
{
    let found = collected(
        segments,
        segment_order,
        segments.len(),
        verify_payload,
        fail_fast,
    )->Ok_0;
    let versions = reordered(found.versions, version_order);
    let marked = StateModel { unavailable: found.skipped, indexing_paused: true, ..state };
    lemma_load_keeps(
        state,
        segments,
        verify_payload,
        fail_fast,
        block_rows,
        segment_order,
        version_order,
        after,
        recovered,
    );
    let decoded = decoded_all(marked, segments, found.parsed, versions, versions.len())->Ok_0;
    lemma_versions_keep(marked, decoded, decoded.len());
    assert(recovered.skipped@ == found.skipped);
    if found.skipped.len() > 0 {
        lemma_skipped(segments, segment_order, segments.len(), verify_payload, fail_fast, 0);
    }
    if 0 <= i < found.skipped.len() {
        lemma_skipped(segments, segment_order, segments.len(), verify_payload, fail_fast, i);
        let at = choose|at: int|
            0 <= at < segments.len() && (#[trigger] segments[at]).segment_id == found.skipped[i]
                && parse_outcome(segments[at], verify_payload, fail_fast) == Ok::<
                bool,
                MnemeError,
            >(false);
        only_damaged_segments_are_left_out(segments[at], verify_payload, fail_fast);
    }
}

/// How often an access of a row was counted.
pub open spec fn access_count_of(state: StateModel, row: u64) -> int {
    if state.access.dom().contains(row) {
        state.access[row].access_count as int
    } else {
        0
    }
}

/// How many accesses of a row the first `count` entries record that no version carries already.
pub open spec fn accesses_in(
    state: StateModel,
    entries: Seq<DeltaEntry>,
    count: nat,
    row: u64,
) -> int
    decreases count,
{
    if count == 0 {
        0
    } else {
        accesses_in(state, entries, (count - 1) as nat, row) + match entries[count - 1] {
            DeltaEntry::Access { seqno, rowid, access_delta, .. } => if rowid == row && !(
            state.latest.dom().contains(row) && state.slots[state.latest[row] as int].seqno
                > seqno) {
                access_delta as int
            } else {
                0
            },
            _ => 0,
        }
    }
}

/// How many accesses of a row the first `count` segments record that no version carries already.
pub open spec fn accesses_in_segments(
    state: StateModel,
    segments: Seq<SegmentImage>,
    parsed: Seq<int>,
    count: nat,
    row: u64,
) -> int
    decreases count,
{
    if count == 0 {
        0
    } else {
        let entries = segments[parsed[count - 1]].msec->Ok_0.delta->Ok_0@;
        accesses_in_segments(state, segments, parsed, (count - 1) as nat, row) + accesses_in(
            state,
            entries,
            entries.len(),
            row,
        )
    }
}

proof fn lemma_accesses_alike(
    a: StateModel,
    b: StateModel,
    entries: Seq<DeltaEntry>,
    count: nat,
    row: u64,
)
    requires
        a.latest == b.latest,
        a.slots == b.slots,
    ensures
        accesses_in(a, entries, count, row) == accesses_in(b, entries, count, row),
        accesses_in(a, entries, count, row) >= 0,
    decreases count,
{
    if count > 0 {
        lemma_accesses_alike(a, b, entries, (count - 1) as nat, row);
    }
}

proof fn lemma_deltas_count(state: StateModel, entries: Seq<DeltaEntry>, count: nat, row: u64)
    ensures
        ({
            let total = access_count_of(state, row) + accesses_in(state, entries, count, row);
            access_count_of(deltas_applied(state, entries, count), row) == (if total > u32::MAX {
                u32::MAX as int
            } else {
                total
            })
        }),
    decreases count,
{
    if count > 0 {
        let less = (count - 1) as nat;
        lemma_deltas_count(state, entries, less, row);
        lemma_deltas_keep(state, entries, less);
        lemma_accesses_alike(state, state, entries, less, row);
        let before = deltas_applied(state, entries, less);
        match entries[count - 1] {
            DeltaEntry::Access { .. } => {
                recorded_accesses_are_added(before, entries[count - 1], row);
            },
            _ => {},
        }
    }
}

/// No access that a segment records gets lost or is counted twice: after the segments were gone
/// through, the count of a row is what it was with all that the segments record of the row, up to
/// the largest count.
pub proof fn recorded_accesses_add_up(
    state: StateModel,
    segments: Seq<SegmentImage>,
    parsed: Seq<int>,
    count: nat,
    row: u64,
)
    ensures
        ({
            let total = access_count_of(state, row) + accesses_in_segments(
                state,
                segments,
                parsed,
                count,
                row,
            );
            access_count_of(changes_applied(state, segments, parsed, count), row) == (if total
                > u32::MAX {
                u32::MAX as int
            } else {
                total
            })
        }),
        accesses_in_segments(state, segments, parsed, count, row) >= 0,
    decreases count,
{
    if count > 0 {
        let less = (count - 1) as nat;
        recorded_accesses_add_up(state, segments, parsed, less, row);
        lemma_changes_keep(state, segments, parsed, less);
        let before = changes_applied(state, segments, parsed, less);
        let msec = segments[parsed[count - 1]].msec->Ok_0;
        let relations = msec.relations->Ok_0;
        let entries = msec.delta->Ok_0@;
        listed_edges_come_back(before, relations, 0, 0, 0, 0);
        let related = relations_applied(before, relations);
        lemma_deltas_count(related, entries, entries.len(), row);
        lemma_accesses_alike(state, related, entries, entries.len(), row);
    }
}

/// The search structures of the only segment are taken over exactly where each of their regions is
/// sound, the zone map has just the blocks that the rows need, and a bloom filter covers a field of
/// strings.
pub proof fn only_sound_indexes_are_taken_over(
    regions: IndexRegions,
    rows: nat,
    block_rows: nat,
)
    requires
        block_rows > 0,
    ensures
        disk_outcome(regions, rows, block_rows) is Ok <==> {
            &&& regions.field_dict is Ok
            &&& regions.zone_map is Ok
            &&& rows <= regions.block_count * block_rows < rows + block_rows
            &&& regions.ttl_map is Ok
            &&& regions.bloom is Ok
            &&& exists|b: int, f: int|
                #![trigger regions.bloom->Ok_0@[b], regions.field_dict->Ok_0@[f]]
                0 <= b < regions.bloom->Ok_0@.len() && 0 <= f < regions.field_dict->Ok_0@.len()
                    && regions.field_dict->Ok_0@[f].is_str && regions.field_dict->Ok_0@[f].id
                    == regions.bloom->Ok_0@[b]
            &&& regions.inverted is Ok
        },
        merge_outcome(regions, rows, block_rows) is Ok <==> {
            &&& regions.field_dict is Ok
            &&& regions.zone_map is Ok
            &&& rows <= regions.block_count * block_rows < rows + block_rows
            &&& regions.ttl_map is Ok
            &&& regions.bloom is Ok
            &&& regions.inverted is Ok
        },
{
    lemma_blocks(rows, block_rows, regions.block_count as nat);
    if regions.field_dict is Ok && regions.bloom is Ok {
        let fields = regions.field_dict->Ok_0@;
        let blooms = regions.bloom->Ok_0@;
        if exists|i: int| 0 <= i < blooms.len() && is_str_field(fields, #[trigger] blooms[i]) {
            let b = choose|i: int|
                0 <= i < blooms.len() && is_str_field(fields, #[trigger] blooms[i]);
            let f = choose|f: int|
                0 <= f < fields.len() && (#[trigger] fields[f]).is_str && fields[f].id == blooms[b];
            assert(fields[f].is_str && fields[f].id == blooms[b]);
        }
        if exists|b: int, f: int|
            #![trigger blooms[b], fields[f]]
            0 <= b < blooms.len() && 0 <= f < fields.len() && fields[f].is_str && fields[f].id
                == blooms[b] {
            let (b, f) = choose|b: int, f: int|
                #![trigger blooms[b], fields[f]]
                0 <= b < blooms.len() && 0 <= f < fields.len() && fields[f].is_str && fields[f].id
                    == blooms[b];
            assert(is_str_field(fields, blooms[b]));
        }
    }
}

proof fn lemma_blocks(rows: nat, block_rows: nat, blocks: nat)
    requires
        block_rows > 0,
    ensures
        blocks == blocks_for(rows, block_rows) <==> rows <= blocks * block_rows < rows + block_rows,
{
    let whole = rows / block_rows;
    let rest = rows % block_rows;
    assert(rows == whole * block_rows + rest && 0 <= rest < block_rows) by (nonlinear_arith)
        requires
            block_rows > 0,
            whole == rows / block_rows,
            rest == rows % block_rows,
    ;
    assert((whole + 1) * block_rows == whole * block_rows + block_rows) by (nonlinear_arith);
    if blocks < whole {
        assert(blocks * block_rows <= (whole - 1) * block_rows) by (nonlinear_arith)
            requires
                blocks <= whole - 1,
                block_rows > 0,
        ;
        assert((whole - 1) * block_rows == whole * block_rows - block_rows) by (nonlinear_arith);
    }
    if blocks > whole + 1 {
        assert(blocks * block_rows >= (whole + 2) * block_rows) by (nonlinear_arith)
            requires
                blocks >= whole + 2,
                block_rows > 0,
        ;
        assert((whole + 2) * block_rows == whole * block_rows + 2 * block_rows)
            by (nonlinear_arith);
    }
}

/// Damage in the search structures is an error only where it is to be reported at once; otherwise
/// they are built anew, and the versions are as they would have been.
pub proof fn damaged_indexes_are_rebuilt(
    state: StateModel,
    segments: Seq<SegmentImage>,
    parsed: Seq<int>,
    fail_fast: bool,
    block_rows: nat,
)
    requires
        parsed.len() > 0,
    ensures
        ({
            let end = index_outcome(state, segments, parsed, fail_fast, block_rows);
            let regions = segments[parsed[0]].msec->Ok_0.regions;
            &&& end.0 == (StateModel { index_origin: end.0.index_origin, ..state })
            &&& end.1 is Err ==> fail_fast && end.0 == state
            &&& parsed.len() == 1 ==> (end.1 is Ok && end.0.index_origin == IndexOrigin::Disk
                <==> disk_outcome(regions, state.slots.len(), block_rows) is Ok)
                || state.index_origin == IndexOrigin::Disk
            &&& parsed.len() == 1 && disk_outcome(regions, state.slots.len(), block_rows) is Err
                && !fail_fast ==> end.1 is Ok && end.0.index_origin == IndexOrigin::Rebuilt
            &&& parsed.len() > 1 && end.1 is Ok ==> end.0.index_origin == IndexOrigin::Merged
                || end.0.index_origin == IndexOrigin::Rebuilt
            &&& parsed.len() > 1 && end.1 is Ok && end.0.index_origin == IndexOrigin::Merged
                ==> forall|q: int|
                #![trigger parsed[q]]
                0 <= q < parsed.len() ==> merge_outcome(
                    segments[parsed[q]].msec->Ok_0.regions,
                    segments[parsed[q]].msec->Ok_0.row_count as nat,
                    block_rows,
                ) is Ok
            &&& parsed.len() > 1 && (forall|q: int|
                #![trigger parsed[q]]
                0 <= q < parsed.len() ==> merge_outcome(
                    segments[parsed[q]].msec->Ok_0.regions,
                    segments[parsed[q]].msec->Ok_0.row_count as nat,
                    block_rows,
                ) is Ok) ==> end.1 is Ok && end.0.index_origin == IndexOrigin::Merged
        }),
{
    lemma_all_merge(segments, parsed, parsed.len(), block_rows);
}

proof fn lemma_all_merge(
    segments: Seq<SegmentImage>,
    parsed: Seq<int>,
    count: nat,
    block_rows: nat,
)
    requires
        count <= parsed.len(),
    ensures
        merge_failure(segments, parsed, count, block_rows) is None <==> forall|q: int|
            #![trigger parsed[q]]
            0 <= q < count ==> merge_outcome(
                segments[parsed[q]].msec->Ok_0.regions,
                segments[parsed[q]].msec->Ok_0.row_count as nat,
                block_rows,
            ) is Ok,
    decreases count,
{
    if count > 0 {
        lemma_all_merge(segments, parsed, (count - 1) as nat, block_rows);
        assert(parsed[count - 1] == parsed[count - 1]);
    }
}

/// The segments are gone through in the order of their numbers, so that what a later segment states
/// comes on top of what an earlier one does.
pub proof fn later_segments_come_on_top(
    segments: Seq<SegmentImage>,
    order: Seq<usize>,
    count: nat,
    verify_payload: bool,
    fail_fast: bool,
    a: int,
    b: int,
)
    requires
        is_stable_order(segment_ranks(segments), order),
        count <= order.len(),
        collected(segments, order, count, verify_payload, fail_fast) is Ok,
    ensures
        ({
            let parsed = collected(segments, order, count, verify_payload, fail_fast)->Ok_0.parsed;
            &&& 0 <= a < b < parsed.len() ==> segments[parsed[a]].segment_id
                <= segments[parsed[b]].segment_id
            &&& 0 <= b < parsed.len() ==> exists|k: int|
                0 <= k < count && #[trigger] order[k] == parsed[b]
        }),
    decreases count,
{
    if count > 0 {
        let less = (count - 1) as nat;
        later_segments_come_on_top(segments, order, less, verify_payload, fail_fast, a, b);
        let before = collected(segments, order, less, verify_payload, fail_fast)->Ok_0.parsed;
        let parsed = collected(segments, order, count, verify_payload, fail_fast)->Ok_0.parsed;
        if 0 <= b < before.len() {
            assert(parsed[b] == before[b]);
            let k = choose|k: int| 0 <= k < less && #[trigger] order[k] == before[b];
            assert(order[k] == parsed[b]);
        }
        if before.len() <= b < parsed.len() {
            assert(parsed[b] == order[less as int]);
            if 0 <= a < b {
                later_segments_come_on_top(segments, order, less, verify_payload, fail_fast, a, a);
                assert(parsed[a] == before[a]);
                let k = choose|k: int| 0 <= k < less && #[trigger] order[k] == before[a];
                assert(comes_before(
                    segment_ranks(segments),
                    order[k] as int,
                    order[less as int] as int,
                ));
            }
        }
    }
}

/// Whether an entry sets or removes the edge with these ends and this kind.
pub open spec fn changes_edge(entry: DeltaEntry, from: u64, to: u64, kind: u16) -> bool {
    match entry {
        DeltaEntry::Relate { edge, .. } => edge.from == from && edge.to == to && edge.kind == kind,
        DeltaEntry::Unrelate { from: f, to: t, kind: k, .. } => f == from && t == to && k == kind,
        DeltaEntry::Access { .. } => false,
    }
}

proof fn lemma_deltas_edge(
    state: StateModel,
    entries: Seq<DeltaEntry>,
    count: nat,
    from: u64,
    to: u64,
    kind: u16,
)
    requires
        count <= entries.len(),
        forall|i: int| 0 <= i < count ==> !changes_edge(#[trigger] entries[i], from, to, kind),
    ensures
        ({
            let after = deltas_applied(state, entries, count);
            let out_key = EdgeKey { row: from, other: to, kind };
            let in_key = EdgeKey { row: to, other: from, kind };
            &&& after.out_edges.dom().contains(out_key) == state.out_edges.dom().contains(out_key)
            &&& after.out_edges[out_key] == state.out_edges[out_key]
            &&& after.in_edges.dom().contains(in_key) == state.in_edges.dom().contains(in_key)
            &&& after.in_edges[in_key] == state.in_edges[in_key]
        }),
    decreases count,
{
    if count > 0 {
        lemma_deltas_edge(state, entries, (count - 1) as nat, from, to, kind);
        assert(!changes_edge(entries[count - 1], from, to, kind));
    }
}

proof fn lemma_deltas_last(
    state: StateModel,
    entries: Seq<DeltaEntry>,
    count: nat,
    at: int,
    from: u64,
    to: u64,
    kind: u16,
)
    requires
        0 <= at < count <= entries.len(),
        changes_edge(entries[at], from, to, kind),
        forall|i: int| at < i < count ==> !changes_edge(#[trigger] entries[i], from, to, kind),
    ensures
        ({
            let after = deltas_applied(state, entries, count);
            let out_key = EdgeKey { row: from, other: to, kind };
            let in_key = EdgeKey { row: to, other: from, kind };
            &&& entries[at] matches DeltaEntry::Relate { edge, .. } ==> holds_edge(
                after.out_edges,
                out_key,
                edge,
            ) && holds_edge(after.in_edges, in_key, edge)
            &&& entries[at] is Unrelate ==> !after.out_edges.dom().contains(out_key)
                && !after.in_edges.dom().contains(in_key)
        }),
    decreases count,
{
    if at < count - 1 {
        lemma_deltas_last(state, entries, (count - 1) as nat, at, from, to, kind);
        assert(!changes_edge(entries[count - 1], from, to, kind));
    }
}

/// Recovery brings the edges back, segment by segment. An edge that a segment lists is there once the
/// segment was gone through, and what the segment records of changes to it comes on top: the last of
/// them counts. An edge that the segment neither lists nor changes is as it was before the segment,
/// unless the segment states all edges: then it is gone.
pub proof fn recorded_edges_come_back(
    state: StateModel,
    segments: Seq<SegmentImage>,
    parsed: Seq<int>,
    count: nat,
    listed: int,
    at: int,
    from: u64,
    to: u64,
    kind: u16,
)
    requires
        count > 0,
    ensures
        ({
            let before = changes_applied(state, segments, parsed, (count - 1) as nat);
            let after = changes_applied(state, segments, parsed, count);
            let msec = segments[parsed[count - 1]].msec->Ok_0;
            let relations = msec.relations->Ok_0;
            let forward = relations.forward@;
            let reverse = relations.reverse@;
            let entries = msec.delta->Ok_0@;
            let out_key = EdgeKey { row: from, other: to, kind };
            let in_key = EdgeKey { row: to, other: from, kind };
            let unchanged = forall|i: int|
                0 <= i < entries.len() ==> !changes_edge(#[trigger] entries[i], from, to, kind);
            &&& unchanged && is_last_listing(forward, forward.len(), listed) && forward[listed].from
                == from && forward[listed].to == to && forward[listed].kind == kind ==> holds_edge(
                after.out_edges,
                out_key,
                forward[listed],
            )
            &&& unchanged && is_last_listing(reverse, reverse.len(), listed) && reverse[listed].from
                == from && reverse[listed].to == to && reverse[listed].kind == kind ==> holds_edge(
                after.in_edges,
                in_key,
                reverse[listed],
            )
            &&& unchanged && !lists_edge(forward, forward.len(), from, to, kind) ==> {
                &&& after.out_edges.dom().contains(out_key) <==> !relations.full
                    && before.out_edges.dom().contains(out_key)
                &&& !relations.full ==> after.out_edges[out_key] == before.out_edges[out_key]
            }
            &&& 0 <= at < entries.len() && changes_edge(entries[at], from, to, kind) && (forall|
                i: int,
            |
                at < i < entries.len() ==> !changes_edge(#[trigger] entries[i], from, to, kind))
                ==> {
                &&& entries[at] matches DeltaEntry::Relate { edge, .. } ==> holds_edge(
                    after.out_edges,
                    out_key,
                    edge,
                ) && holds_edge(after.in_edges, in_key, edge)
                &&& entries[at] is Unrelate ==> !after.out_edges.dom().contains(out_key)
                    && !after.in_edges.dom().contains(in_key)
            }
        }),
{
    let before = changes_applied(state, segments, parsed, (count - 1) as nat);
    let msec = segments[parsed[count - 1]].msec->Ok_0;
    let relations = msec.relations->Ok_0;
    let entries = msec.delta->Ok_0@;
    let related = relations_applied(before, relations);
    listed_edges_come_back(before, relations, listed, from, to, kind);
    if forall|i: int|
        0 <= i < entries.len() ==> !changes_edge(#[trigger] entries[i], from, to, kind) {
        lemma_deltas_edge(related, entries, entries.len(), from, to, kind);
    }
    if 0 <= at < entries.len() && changes_edge(entries[at], from, to, kind) && (forall|i: int|
        at < i < entries.len() ==> !changes_edge(#[trigger] entries[i], from, to, kind)) {
        lemma_deltas_last(related, entries, entries.len(), at, from, to, kind);
    }
}

/// Where damage is to be reported at once, the first of it in a segment is what is reported:
/// vectors before metadata, headers before payloads, and these before what they hold. Damage in
/// what the metadata holds names the segment.
pub proof fn damage_in_a_segment_is_reported(segment: SegmentImage, verify_payload: bool)
    requires
        segment.vsec_handle is Ok,
    ensures
        segment.vsec matches Err(error) ==> parse_outcome(segment, verify_payload, true) == Err::<
            bool,
            MnemeError,
        >(error),
        segment.vsec matches Ok(vsec) ==> (vsec.format is Ok ==> {
            &&& segment.msec_handle matches Err(error) ==> parse_outcome(
                segment,
                verify_payload,
                true,
            ) == Err::<bool, MnemeError>(error)
            &&& segment.msec_handle is Ok ==> (segment.msec matches Err(error) ==> parse_outcome(
                segment,
                verify_payload,
                true,
            ) == Err::<bool, MnemeError>(error))
            &&& segment.msec_handle is Ok && segment.msec is Ok ==> {
                let msec = segment.msec->Ok_0;
                &&& verify_payload ==> (vsec.payload matches Err(error) ==> parse_outcome(
                    segment,
                    verify_payload,
                    true,
                ) == Err::<bool, MnemeError>(error))
                &&& verify_payload && vsec.payload is Ok ==> (msec.payload matches Err(error)
                    ==> parse_outcome(segment, verify_payload, true) == Err::<bool, MnemeError>(
                    error,
                ))
                &&& !verify_payload || (vsec.payload is Ok && msec.payload is Ok) ==> {
                    &&& msec.version_rows matches Err(error) ==> (parse_outcome(
                        segment,
                        verify_payload,
                        true,
                    ) matches Err(told) && (error matches MnemeError::Corrupted { reason, .. }
                        ==> told == (MnemeError::Corrupted {
                        segment: Some(segment.segment_id),
                        reason,
                    })))
                    &&& msec.version_rows is Ok ==> (msec.relations matches Err(error) ==> (
                    parse_outcome(segment, verify_payload, true) matches Err(told) && (
                    error matches MnemeError::Corrupted { reason, .. } ==> told == (
                    MnemeError::Corrupted { segment: Some(segment.segment_id), reason }))))
                    &&& msec.version_rows is Ok && msec.relations is Ok ==> (
                    msec.delta matches Err(error) ==> (parse_outcome(
                        segment,
                        verify_payload,
                        true,
                    ) matches Err(told) && (error matches MnemeError::Corrupted { reason, .. }
                        ==> told == (MnemeError::Corrupted {
                        segment: Some(segment.segment_id),
                        reason,
                    }))))
                }
            }
        }),
{
}

proof fn lemma_segments_alike(
    a: StateModel,
    b: StateModel,
    segments: Seq<SegmentImage>,
    parsed: Seq<int>,
    count: nat,
    row: u64,
)
    requires
        a.latest == b.latest,
        a.slots == b.slots,
    ensures
        accesses_in_segments(a, segments, parsed, count, row) == accesses_in_segments(
            b,
            segments,
            parsed,
            count,
            row,
        ),
    decreases count,
{
    if count > 0 {
        let entries = segments[parsed[count - 1]].msec->Ok_0.delta->Ok_0@;
        lemma_segments_alike(a, b, segments, parsed, (count - 1) as nat, row);
        lemma_accesses_alike(a, b, entries, entries.len(), row);
    }
}

proof fn lemma_versions_access(
    state: StateModel,
    decoded: Seq<(SlotView, Option<(i64, u32)>)>,
    count: nat,
    row: u64,
)
    requires
        count <= decoded.len(),
        versions_applied(state, decoded, count).1 is Ok,
        !versions_applied(state, decoded, count).0.latest.dom().contains(row),
    ensures
        versions_applied(state, decoded, count).0.access.dom().contains(row)
            == state.access.dom().contains(row),
        versions_applied(state, decoded, count).0.access[row] == state.access[row],
    decreases count,
{
    if count > 0 {
        let before = versions_applied(state, decoded, (count - 1) as nat);
        let after = versions_applied(state, decoded, count);
        assert(after.0.latest.dom().contains(decoded[count - 1].0.rowid));
        assert(before.0.latest.dom().contains(row) ==> after.0.latest.dom().contains(row));
        lemma_versions_access(state, decoded, (count - 1) as nat, row);
    }
}

/// What the segments record of rows that they hold no version of is recovered whole: the accesses of
/// such a row are all that the segments record of it, up to the largest count. And an edge that the
/// last of the segments lists, and whose changes it does not record, is there, at its source and, by
/// the list of targets, at its target.
pub proof fn recorded_changes_are_recovered(
    state: StateModel,
    segments: Seq<SegmentImage>,
    verify_payload: bool,
    fail_fast: bool,
    block_rows: nat,
    segment_order: Seq<usize>,
    version_order: Seq<usize>,
    after: StateModel,
    recovered: RecoveredSegments,
    row: u64,
    listed: int,
    from: u64,
    to: u64,
    kind: u16,
)
    requires
        load_outcome(
            state,
            segments,
            verify_payload,
            fail_fast,
            block_rows,
            segment_order,
            version_order,
            after,
            Ok(recovered),
        ),
    ensures
        collected(
            segments,
            segment_order,
            segments.len(),
            verify_payload,
            fail_fast,
        ) matches Ok(found) && {
            let parsed = found.parsed;
            let total = accesses_in_segments(after, segments, parsed, parsed.len(), row);
            let last = segments[parsed.last()].msec->Ok_0;
            let forward = last.relations->Ok_0.forward@;
            let reverse = last.relations->Ok_0.reverse@;
            let entries = last.delta->Ok_0@;
            let unchanged = forall|i: int|
                0 <= i < entries.len() ==> !changes_edge(#[trigger] entries[i], from, to, kind);
            &&& !after.latest.dom().contains(row) && !state.access.dom().contains(row)
                ==> access_count_of(after, row) == (if total > u32::MAX {
                u32::MAX as int
            } else {
                total
            })
            &&& parsed.len() > 0 && unchanged && is_last_listing(forward, forward.len(), listed)
                && forward[listed].from == from && forward[listed].to == to && forward[listed].kind
                == kind ==> holds_edge(
                after.out_edges,
                (EdgeKey { row: from, other: to, kind }),
                forward[listed],
            )
            &&& parsed.len() > 0 && unchanged && is_last_listing(reverse, reverse.len(), listed)
                && reverse[listed].from == from && reverse[listed].to == to && reverse[listed].kind
                == kind ==> holds_edge(
                after.in_edges,
                (EdgeKey { row: to, other: from, kind }),
                reverse[listed],
            )
        },
{
    lemma_load_keeps(
        state,
        segments,
        verify_payload,
        fail_fast,
        block_rows,
        segment_order,
        version_order,
        after,
        recovered,
    );
    let found = collected(
        segments,
        segment_order,
        segments.len(),
        verify_payload,
        fail_fast,
    )->Ok_0;
    let parsed = found.parsed;
    let versions = reordered(found.versions, version_order);
    let marked = StateModel { unavailable: found.skipped, indexing_paused: true, ..state };
    let decoded = decoded_all(marked, segments, parsed, versions, versions.len())->Ok_0;
    let applied = versions_applied(marked, decoded, decoded.len()).0;
    let placed = choose|placed: StateModel|
        placed.access == applied.access && placed.latest == applied.latest && placed.slots
            == applied.slots && placed.out_edges == applied.out_edges && placed.in_edges
            == applied.in_edges && after.access == (#[trigger] changes_applied(
            placed,
            segments,
            parsed,
            parsed.len(),
        )).access && after.out_edges == changes_applied(
            placed,
            segments,
            parsed,
            parsed.len(),
        ).out_edges && after.in_edges == changes_applied(
            placed,
            segments,
            parsed,
            parsed.len(),
        ).in_edges;
    recorded_accesses_add_up(placed, segments, parsed, parsed.len(), row);
    lemma_segments_alike(placed, after, segments, parsed, parsed.len(), row);
    if !after.latest.dom().contains(row) {
        lemma_versions_access(marked, decoded, decoded.len(), row);
    }
    if parsed.len() > 0 {
        recorded_edges_come_back(
            placed,
            segments,
            parsed,
            parsed.len(),
            listed,
            0,
            from,
            to,
            kind,
        );
    }
}

} // verus!
