//! What a segment holds once its files are decoded, and how it is applied to a state.

use vstd::prelude::*;

use crate::error::{
    corrupted, error_in_segment, is_version_rejection, with_segment, Fault, MnemeError, Region,
};
use crate::record::{
    slot_of_entry, tombstone_of, tombstone_slot, EntryData, SlotData, SlotView, TombstoneSlotInput,
    VectorStorage, VectorView,
};
use crate::remap::VersionRow;
use crate::replay::{apply_relate, apply_unrelate};
use crate::state::{
    AccessStat, Edge, EdgeView, Outcome, StateModel, WriterState,
};
use crate::tables::NumberTable;

verus! {

/// How the vector of a slot can be had.
#[derive(Debug)]
pub struct VectorSlot {
    /// Where the vector lies in the file, where the slot is there.
    pub offset: Option<usize>,
    /// The stored square of its norm, where the file has a norm column.
    pub norm_sq: Option<u32>,
    /// The vector as read from the file, with the square of its norm.
    pub decoded: Option<(Vec<u32>, u32)>,
}

/// The vector file of a segment.
#[derive(Debug)]
pub struct VsecImage {
    pub row_count: usize,
    pub dimension: usize,
    pub file_len: usize,
    pub vectors: Vec<VectorSlot>,
    /// Whether this build can read the vector format.
    pub format: Result<(), MnemeError>,
    /// Whether the payload has its checksum.
    pub payload: Result<(), MnemeError>,
}

/// The edges that a segment stores.
#[derive(Debug)]
pub struct Relations {
    /// Whether the segment states all edges, in place of those before it.
    pub full: bool,
    pub forward: Vec<Edge>,
    /// Edges that are stored by their target.
    pub reverse: Vec<Edge>,
}

/// A change that a segment records about rows of other segments.
#[derive(Debug)]
pub enum DeltaEntry {
    Access {
        seqno: u64,
        rowid: u64,
        last_access_ms: i64,
        access_delta: u32,
        importance_delta: u32,
    },
    Relate { seqno: u64, edge: Edge },
    Unrelate { seqno: u64, from: u64, to: u64, kind: u16 },
}

/// What lies at a record offset: a record, nothing, or bytes that do not decode.
#[derive(Debug)]
pub enum StoredRecord {
    Entry(EntryData),
    Tombstone,
    Malformed(MnemeError),
}

/// A field of the index regions.
#[derive(Clone, Copy, Debug, PartialEq, Eq, Structural)]
pub struct FieldDef {
    pub id: u16,
    /// Whether the field holds strings.
    pub is_str: bool,
}

/// The index regions of a segment.
#[derive(Debug)]
pub struct IndexRegions {
    /// For how many blocks the zone map and the expiry map are laid out.
    pub block_count: usize,
    pub field_dict: Result<Vec<FieldDef>, MnemeError>,
    pub zone_map: Result<(), MnemeError>,
    pub ttl_map: Result<(), MnemeError>,
    /// The fields that have a bloom filter.
    pub bloom: Result<Vec<u16>, MnemeError>,
    pub inverted: Result<(), MnemeError>,
}

/// The metadata file of a segment.
pub struct MsecImage {
    pub row_count: usize,
    /// Whether the payload has its checksum.
    pub payload: Result<(), MnemeError>,
    pub version_rows: Result<Vec<VersionRow>, MnemeError>,
    pub records: NumberTable<StoredRecord>,
    pub relations: Result<Relations, MnemeError>,
    pub delta: Result<Vec<DeltaEntry>, MnemeError>,
    pub regions: IndexRegions,
}

/// A segment with what its files hold.
pub struct SegmentImage {
    pub segment_id: u32,
    /// What keeps the vector file from being handed out.
    pub vsec_handle: Result<(), MnemeError>,
    pub vsec: Result<VsecImage, MnemeError>,
    /// What keeps the metadata file from being handed out.
    pub msec_handle: Result<(), MnemeError>,
    pub msec: Result<MsecImage, MnemeError>,
}

impl SegmentImage {
    /// The invariant of the tables inside.
    pub open spec fn wf(&self) -> bool {
        self.msec matches Ok(msec) ==> msec.records.wf()
    }
}

/// The size of a vector component in a vector file.
pub const COMPONENT_BYTES: usize = 4;

/// Whether a vector of the given dimension lies inside the file.
pub open spec fn vector_fits(offset: usize, dimension: usize, file_len: usize) -> bool {
    offset + dimension * COMPONENT_BYTES <= file_len
}

/// How the vector of a version is kept: by its place in the file, where the file has its norm,
/// and in memory otherwise.
pub open spec fn vector_outcome(
    vsec: VsecImage,
    segment_id: u32,
    slot_id: u32,
) -> Result<(VectorView, u32), MnemeError> {
    if slot_id >= vsec.vectors@.len() {
        Err(corrupted(Fault::VectorMissing))
    } else {
        let slot = vsec.vectors@[slot_id as int];
        if slot.offset is Some && slot.norm_sq is Some && vector_fits(
            slot.offset->0,
            vsec.dimension,
            vsec.file_len,
        ) {
            Ok(
                (
                    VectorView::Lazy {
                        segment_id,
                        offset: slot.offset->0,
                        dimension: vsec.dimension,
                    },
                    slot.norm_sq->0,
                ),
            )
        } else {
            match slot.decoded {
                Some((components, norm_sq)) => Ok((VectorView::Owned(components@), norm_sq)),
                None => Err(corrupted(Fault::VectorMissing)),
            }
        }
    }
}

/// Finds the vector of a version.
pub fn vector_storage(vsec: &VsecImage, segment_id: u32, slot_id: u32) -> (result: Result<
    (VectorStorage, u32),
    MnemeError,
>)
    ensures
        match result {
            Ok((vector, norm_sq)) => vector_outcome(*vsec, segment_id, slot_id) == Ok::<
                (VectorView, u32),
                MnemeError,
            >((vector@, norm_sq)),
            Err(error) => vector_outcome(*vsec, segment_id, slot_id) == Err::<
                (VectorView, u32),
                MnemeError,
            >(error),
        },
{
    let missing = MnemeError::Corrupted { segment: None, reason: Fault::VectorMissing };
    if slot_id as usize >= vsec.vectors.len() {
        return Err(missing);
    }
    let slot = &vsec.vectors[slot_id as usize];
    if let (Some(offset), Some(norm_sq)) = (slot.offset, slot.norm_sq) {
        let fits: bool = match vsec.dimension.checked_mul(COMPONENT_BYTES) {
            Some(bytes) => match offset.checked_add(bytes) {
                Some(end) => end <= vsec.file_len,
                None => false,
            },
            None => false,
        };
        if fits {
            let vector = VectorStorage::Lazy { segment_id, offset, dimension: vsec.dimension };
            return Ok((vector, norm_sq));
        }
    }
    match &slot.decoded {
        Some((components, norm_sq)) => Ok(
            (VectorStorage::Owned(vstd::slice::slice_to_vec(components.as_slice())), *norm_sq),
        ),
        None => Err(missing),
    }
}

/// What lies at a record offset. An offset that holds nothing is malformed.
pub open spec fn record_outcome(msec: MsecImage, doc_offset: u64) -> StoredRecord {
    if msec.records@.dom().contains(doc_offset) {
        msec.records@[doc_offset]
    } else {
        StoredRecord::Malformed(corrupted(Fault::Malformed { region: Region::Record }))
    }
}

/// The version that a version row stands for, with the access statistics it carries.
pub open spec fn decode_outcome(
    state: StateModel,
    segment_id: u32,
    vsec: VsecImage,
    msec: MsecImage,
    row: VersionRow,
) -> Result<(SlotView, Option<(i64, u32)>), MnemeError> {
    match vector_outcome(vsec, segment_id, row.slot_id) {
        Err(error) => Err(error),
        Ok((vector, norm_sq)) => match record_outcome(msec, row.doc_offset) {
            StoredRecord::Malformed(error) => Err(error),
            StoredRecord::Tombstone => Ok(
                (tombstone_of(row.rowid, row.seqno, row.tx_ms, vector, norm_sq), None),
            ),
            StoredRecord::Entry(entry) => Ok(
                (
                    slot_of_entry(
                        state.path_of(entry.ns_id),
                        entry@,
                        vector,
                        norm_sq,
                        row.tx_ms,
                        false,
                    ),
                    entry.access,
                ),
            ),
        },
    }
}

/// What a decoded version is in the model.
pub open spec fn decoded_view(version: (SlotData, Option<(i64, u32)>)) -> (
    SlotView,
    Option<(i64, u32)>,
) {
    (version.0@, version.1)
}

/// Decodes one version row.
pub fn decode_version(
    state: &WriterState,
    segment_id: u32,
    vsec: &VsecImage,
    msec: &MsecImage,
    row: &VersionRow,
) -> (result: Result<(SlotData, Option<(i64, u32)>), MnemeError>)
    requires
        state.wf(),
        msec.records.wf(),
    ensures
        match result {
            Ok(version) => decode_outcome(state@, segment_id, *vsec, *msec, *row) == Ok::<
                (SlotView, Option<(i64, u32)>),
                MnemeError,
            >(decoded_view(version)),
            Err(error) => decode_outcome(state@, segment_id, *vsec, *msec, *row) == Err::<
                (SlotView, Option<(i64, u32)>),
                MnemeError,
            >(error),
        },
{
    let (vector, norm_sq) = match vector_storage(vsec, segment_id, row.slot_id) {
        Ok(found) => found,
        Err(error) => {
            return Err(error);
        },
    };
    match msec.records.get(row.doc_offset) {
        Some(StoredRecord::Entry(entry)) => {
            let access: Option<(i64, u32)> = entry.access;
            let slot = state.slot_from_entry(entry.copied(), vector, norm_sq, row.tx_ms, false);
            Ok((slot, access))
        },
        Some(StoredRecord::Tombstone) => Ok(
            (
                tombstone_slot(
                    TombstoneSlotInput {
                        rowid: row.rowid,
                        seqno: row.seqno,
                        tx_ms: row.tx_ms,
                        vector,
                        norm_sq,
                    },
                ),
                None,
            ),
        ),
        Some(StoredRecord::Malformed(error)) => Err(*error),
        None => Err(
            MnemeError::Corrupted {
                segment: None,
                reason: Fault::Malformed { region: Region::Record },
            },
        ),
    }
}

/// Whether a segment can be used, going by its two files: `Ok(true)` for yes, `Ok(false)` for a
/// segment to leave out, an error for one that keeps the library from opening. A rejected format
/// version and an unreadable vector format are always errors.
pub open spec fn views_outcome(
    segment: SegmentImage,
    verify_payload: bool,
    fail_fast: bool,
) -> Result<bool, MnemeError> {
    if segment.vsec_handle is Err {
        Err(segment.vsec_handle->Err_0)
    } else {
        match segment.vsec {
            Err(error) => if fail_fast || error.rejects_version() {
                Err(error)
            } else {
                Ok(false)
            },
            Ok(vsec) => if vsec.format is Err {
                Err(vsec.format->Err_0)
            } else if segment.msec_handle is Err {
                Err(segment.msec_handle->Err_0)
            } else {
                match segment.msec {
                    Err(error) => if fail_fast || error.rejects_version() {
                        Err(error)
                    } else {
                        Ok(false)
                    },
                    Ok(msec) => if verify_payload && vsec.payload is Err {
                        if fail_fast {
                            Err(vsec.payload->Err_0)
                        } else {
                            Ok(false)
                        }
                    } else if verify_payload && msec.payload is Err {
                        if fail_fast {
                            Err(msec.payload->Err_0)
                        } else {
                            Ok(false)
                        }
                    } else {
                        Ok(true)
                    },
                }
            },
        }
    }
}

/// Checks the two files of a segment.
pub fn load_segment_views(segment: &SegmentImage, verify_payload: bool, fail_fast: bool) -> (result:
    Result<bool, MnemeError>)
    ensures
        result == views_outcome(*segment, verify_payload, fail_fast),
        result matches Ok(usable) ==> usable ==> segment.vsec is Ok && segment.msec is Ok,
{
    match segment.vsec_handle {
        Ok(()) => {},
        Err(error) => {
            return Err(error);
        },
    }
    let vsec = match &segment.vsec {
        Ok(vsec) => vsec,
        Err(error) => {
            if fail_fast || is_version_rejection(error) {
                return Err(*error);
            }
            return Ok(false);
        },
    };
    match vsec.format {
        Ok(()) => {},
        Err(error) => {
            return Err(error);
        },
    }
    match segment.msec_handle {
        Ok(()) => {},
        Err(error) => {
            return Err(error);
        },
    }
    let msec = match &segment.msec {
        Ok(msec) => msec,
        Err(error) => {
            if fail_fast || is_version_rejection(error) {
                return Err(*error);
            }
            return Ok(false);
        },
    };
    if verify_payload {
        match vsec.payload {
            Ok(()) => {},
            Err(error) => {
                if fail_fast {
                    return Err(error);
                }
                return Ok(false);
            },
        }
        match msec.payload {
            Ok(()) => {},
            Err(error) => {
                if fail_fast {
                    return Err(error);
                }
                return Ok(false);
            },
        }
    }
    Ok(true)
}

/// Whether the relation and delta regions decode.
pub open spec fn aux_outcome(msec: MsecImage) -> Result<(), MnemeError> {
    match msec.relations {
        Err(error) => Err(error),
        Ok(_) => match msec.delta {
            Err(error) => Err(error),
            Ok(_) => Ok(()),
        },
    }
}

/// Checks the relation and delta regions.
pub fn precheck_segment_aux(msec: &MsecImage) -> (result: Result<(), MnemeError>)
    ensures
        result == aux_outcome(*msec),
{
    match &msec.relations {
        Ok(_) => {},
        Err(error) => {
            return Err(*error);
        },
    }
    match &msec.delta {
        Ok(_) => Ok(()),
        Err(error) => Err(*error),
    }
}

/// Whether a segment can be used, going by its files and by the structure of its regions. Damage
/// in a region is softened like damage in a file, and named with its segment where it is not.
pub open spec fn parse_outcome(
    segment: SegmentImage,
    verify_payload: bool,
    fail_fast: bool,
) -> Result<bool, MnemeError> {
    match views_outcome(segment, verify_payload, fail_fast) {
        Ok(true) => {
            let msec = segment.msec->Ok_0;
            if msec.version_rows is Err {
                if fail_fast {
                    Err(error_in_segment(msec.version_rows->Err_0, segment.segment_id))
                } else {
                    Ok(false)
                }
            } else {
                match aux_outcome(msec) {
                    Ok(()) => Ok(true),
                    Err(error) => if fail_fast {
                        Err(error_in_segment(error, segment.segment_id))
                    } else {
                        Ok(false)
                    },
                }
            }
        },
        other => other,
    }
}

/// Whether every region that recovery reads decoded.
pub open spec fn is_usable(segment: SegmentImage) -> bool {
    &&& segment.vsec is Ok
    &&& segment.msec matches Ok(msec) && msec.version_rows is Ok && msec.relations is Ok
        && msec.delta is Ok
}

/// Checks a segment as a whole.
pub fn parse_one(segment: &SegmentImage, verify_payload: bool, fail_fast: bool) -> (result: Result<
    bool,
    MnemeError,
>)
    ensures
        result == parse_outcome(*segment, verify_payload, fail_fast),
        result matches Ok(usable) ==> usable ==> is_usable(*segment),
{
    match load_segment_views(segment, verify_payload, fail_fast) {
        Ok(true) => {},
        other => {
            return other;
        },
    }
    match &segment.msec {
        Ok(msec) => {
            match &msec.version_rows {
                Ok(_) => {},
                Err(error) => {
                    if fail_fast {
                        return Err(with_segment(*error, segment.segment_id));
                    }
                    return Ok(false);
                },
            }
            match precheck_segment_aux(msec) {
                Ok(()) => Ok(true),
                Err(error) => {
                    if fail_fast {
                        return Err(with_segment(error, segment.segment_id));
                    }
                    Ok(false)
                },
            }
        },
        Err(error) => Err(*error),
    }
}

/// What an edge carries.
pub open spec fn edge_view(edge: Edge) -> EdgeView {
    EdgeView { weight: edge.weight, metadata: edge.metadata@ }
}

/// The first `count` edges entered at both of their ends.
pub open spec fn forward_applied(state: StateModel, edges: Seq<Edge>, count: nat) -> StateModel
    decreases count,
{
    if count == 0 {
        state
    } else {
        let edge = edges[count - 1];
        forward_applied(state, edges, (count - 1) as nat).relate(
            edge.from,
            edge.to,
            edge.kind,
            edge_view(edge),
        )
    }
}

/// The first `count` edges entered at their targets.
pub open spec fn reverse_applied(state: StateModel, edges: Seq<Edge>, count: nat) -> StateModel
    decreases count,
{
    if count == 0 {
        state
    } else {
        let edge = edges[count - 1];
        reverse_applied(state, edges, (count - 1) as nat).relate_in(
            edge.from,
            edge.to,
            edge.kind,
            edge_view(edge),
        )
    }
}

/// What the relations of a segment make of a state. A segment that states all edges clears those
/// before it, so that an edge that was removed does not come back.
pub open spec fn relations_applied(state: StateModel, relations: Relations) -> StateModel {
    let start = if relations.full {
        state.without_edges()
    } else {
        state
    };
    reverse_applied(
        forward_applied(start, relations.forward@, relations.forward@.len()),
        relations.reverse@,
        relations.reverse@.len(),
    )
}

/// Applies the relations of a segment.
pub fn apply_relations(state: &mut WriterState, relations: &Relations)
    requires
        old(state).wf(),
    ensures
        final(state).wf(),
        final(state)@ == relations_applied(old(state)@, *relations),
{
    if relations.full {
        state.clear_edges();
    }
    let ghost start = state@;
    let mut i: usize = 0;
    while i < relations.forward.len()
        invariant
            state.wf(),
            i <= relations.forward@.len(),
            state@ == forward_applied(start, relations.forward@, i as nat),
        decreases relations.forward@.len() - i,
    {
        apply_relate(state, &relations.forward[i]);
        i = i + 1;
    }
    let ghost middle = state@;
    let mut j: usize = 0;
    while j < relations.reverse.len()
        invariant
            state.wf(),
            j <= relations.reverse@.len(),
            state@ == reverse_applied(middle, relations.reverse@, j as nat),
        decreases relations.reverse@.len() - j,
    {
        let edge = &relations.reverse[j];
        state.relate_in(
            Edge {
                from: edge.from,
                to: edge.to,
                kind: edge.kind,
                weight: edge.weight,
                metadata: edge.metadata.copied(),
            },
        );
        j = j + 1;
    }
}

/// What a delta entry makes of a state. An access count that a younger version already carries
/// is not counted again.
pub open spec fn delta_applied(state: StateModel, entry: DeltaEntry) -> StateModel {
    match entry {
        DeltaEntry::Access { seqno, rowid, last_access_ms, access_delta, .. } => if state.superseded(
            rowid,
            seqno,
        ) {
            state
        } else {
            state.touch_latest(rowid, last_access_ms, access_delta)
        },
        DeltaEntry::Relate { seqno: _, edge } => state.relate(
            edge.from,
            edge.to,
            edge.kind,
            edge_view(edge),
        ),
        DeltaEntry::Unrelate { seqno: _, from, to, kind } => state.unrelate(from, to, kind),
    }
}

/// What the first `count` delta entries make of a state.
pub open spec fn deltas_applied(state: StateModel, entries: Seq<DeltaEntry>, count: nat) -> StateModel
    decreases count,
{
    if count == 0 {
        state
    } else {
        delta_applied(deltas_applied(state, entries, (count - 1) as nat), entries[count - 1])
    }
}

/// Applies one delta entry.
pub fn apply_delta_entry(state: &mut WriterState, entry: &DeltaEntry)
    requires
        old(state).wf(),
    ensures
        final(state).wf(),
        final(state)@ == delta_applied(old(state)@, *entry),
{
    match entry {
        DeltaEntry::Access { seqno, rowid, last_access_ms, access_delta, .. } => {
            if state.superseded_by_latest_version(*rowid, *seqno) {
                return ;
            }
            state.touch_latest(*rowid, *last_access_ms, *access_delta);
        },
        DeltaEntry::Relate { seqno: _, edge } => {
            apply_relate(state, edge);
        },
        DeltaEntry::Unrelate { seqno: _, from, to, kind } => {
            apply_unrelate_delta(state, *from, *to, *kind);
        },
    }
}

/// Applies the removal of an edge that a segment records.
pub fn apply_unrelate_delta(state: &mut WriterState, from: u64, to: u64, kind: u16)
    requires
        old(state).wf(),
    ensures
        final(state).wf(),
        final(state)@ == old(state)@.unrelate(from, to, kind),
{
    apply_unrelate(state, from, to, kind)
}

/// Applies the delta entries of a segment in order.
pub fn apply_delta(state: &mut WriterState, entries: &Vec<DeltaEntry>)
    requires
        old(state).wf(),
    ensures
        final(state).wf(),
        final(state)@ == deltas_applied(old(state)@, entries@, entries@.len()),
{
    let ghost start = state@;
    let mut i: usize = 0;
    while i < entries.len()
        invariant
            state.wf(),
            i <= entries@.len(),
            state@ == deltas_applied(start, entries@, i as nat),
        decreases entries@.len() - i,
    {
        apply_delta_entry(state, &entries[i]);
        i = i + 1;
    }
}

/// What a recovered version makes of a state. The access column of a version is a snapshot: it
/// replaces what an older version of the row left, and for the first version of a row an
/// all-zero snapshot is the same as none.
pub open spec fn recovered_applied(
    state: StateModel,
    slot: SlotView,
    access: Option<(i64, u32)>,
    previous_exists: bool,
) -> Outcome {
    let committed = state.commit(slot, previous_exists);
    if committed.1 is Err {
        committed
    } else {
        let advanced = committed.0.raise_seqno(slot.seqno).advance_rowid(slot.rowid);
        if advanced.1 is Err {
            advanced
        } else {
            match access {
                Some((last_access_ms, access_count)) => if previous_exists || last_access_ms != 0
                    || access_count != 0 {
                    (
                        StateModel {
                            access: advanced.0.access.insert(
                                slot.rowid,
                                AccessStat { last_access_ms, access_count },
                            ),
                            ..advanced.0
                        },
                        Ok(()),
                    )
                } else {
                    advanced
                },
                None => advanced,
            }
        }
    }
}

/// Commits a recovered version with its counters and its access statistics.
pub fn commit_recovered_slot(
    state: &mut WriterState,
    slot: SlotData,
    access: Option<(i64, u32)>,
    previous_exists: bool,
) -> (result: Result<(), MnemeError>)
    requires
        old(state).wf(),
    ensures
        final(state).wf(),
        (final(state)@, result) == recovered_applied(
            old(state)@,
            slot@,
            access,
            previous_exists,
        ),
{
    let rowid: u64 = slot.rowid;
    let seqno: u64 = slot.seqno;
    match state.commit_recovered(slot, previous_exists) {
        Ok(()) => {},
        Err(error) => {
            return Err(error);
        },
    }
    state.raise_seqno(seqno);
    match state.advance_rowid(rowid) {
        Ok(()) => {},
        Err(error) => {
            return Err(error);
        },
    }
    if let Some((last_access_ms, access_count)) = access {
        if previous_exists || last_access_ms != 0 || access_count != 0 {
            state.set_access(rowid, AccessStat { last_access_ms, access_count });
        }
    }
    Ok(())
}

/// An incremental segment keeps every edge that it does not name: with an empty relation table
/// it changes nothing.
pub proof fn incremental_relations_keep_edges(state: StateModel, relations: Relations)
    requires
        !relations.full,
        relations.forward@.len() == 0,
        relations.reverse@.len() == 0,
    ensures
        relations_applied(state, relations) == state,
{
}

/// A full segment leaves no edge from before it: what it makes of the edges does not depend on
/// the edges that were there.
pub proof fn full_relations_replace_edges(
    a: StateModel,
    b: StateModel,
    relations: Relations,
)
    requires
        relations.full,
    ensures
        relations_applied(a, relations).out_edges == relations_applied(b, relations).out_edges,
        relations_applied(a, relations).in_edges == relations_applied(b, relations).in_edges,
{
    let x = a.without_edges();
    let y = b.without_edges();
    lemma_forward_edges(x, y, relations.forward@, relations.forward@.len());
    let x1 = forward_applied(x, relations.forward@, relations.forward@.len());
    let y1 = forward_applied(y, relations.forward@, relations.forward@.len());
    lemma_reverse_edges(x1, y1, relations.reverse@, relations.reverse@.len());
}

proof fn lemma_forward_edges(a: StateModel, b: StateModel, edges: Seq<Edge>, count: nat)
    requires
        a.out_edges == b.out_edges,
        a.in_edges == b.in_edges,
    ensures
        forward_applied(a, edges, count).out_edges == forward_applied(b, edges, count).out_edges,
        forward_applied(a, edges, count).in_edges == forward_applied(b, edges, count).in_edges,
    decreases count,
{
    if count > 0 {
        lemma_forward_edges(a, b, edges, (count - 1) as nat);
    }
}

proof fn lemma_reverse_edges(a: StateModel, b: StateModel, edges: Seq<Edge>, count: nat)
    requires
        a.out_edges == b.out_edges,
        a.in_edges == b.in_edges,
    ensures
        reverse_applied(a, edges, count).out_edges == reverse_applied(b, edges, count).out_edges,
        reverse_applied(a, edges, count).in_edges == reverse_applied(b, edges, count).in_edges,
    decreases count,
{
    if count > 0 {
        lemma_reverse_edges(a, b, edges, (count - 1) as nat);
    }
}

/// An access count that a younger version of the row carries is not counted twice.
pub proof fn superseded_access_is_skipped(
    state: StateModel,
    seqno: u64,
    rowid: u64,
    last_access_ms: i64,
    access_delta: u32,
    importance_delta: u32,
)
    requires
        state.superseded(rowid, seqno),
    ensures
        delta_applied(
            state,
            DeltaEntry::Access { seqno, rowid, last_access_ms, access_delta, importance_delta },
        ) == state,
{
}

} // verus!
