//! Recovery of a state from the segments of a manifest.

use vstd::prelude::*;

use crate::error::{corrupted, Fault, MnemeError, Region};
use crate::order::{is_stable_order, stable_order};
use crate::record::{SlotData, SlotView};
use crate::remap::{build_remaps, remap_outcome, SegmentRemap, VersionRow};
use crate::segment::{
    apply_delta, apply_relations, commit_recovered_slot, decode_outcome, decode_version,
    decoded_view, deltas_applied, is_usable, parse_one, parse_outcome, recovered_applied,
    relations_applied, FieldDef, IndexRegions, SegmentImage,
};
use crate::state::{commit_keeps_chains, IndexOrigin, Outcome, StateModel, WriterState};

verus! {

/// What is left of the segments after checking them.
pub struct CollectedModel {
    /// Every version row with the position of its segment among the parsed ones.
    pub versions: Seq<(VersionRow, usize)>,
    /// The positions of the segments that can be used.
    pub parsed: Seq<int>,
    /// The numbers of the segments that are left out.
    pub skipped: Seq<u32>,
}

/// The numbers of the segments, as ranks.
pub open spec fn segment_ranks(segments: Seq<SegmentImage>) -> Seq<u64> {
    segments.map_values(|s: SegmentImage| s.segment_id as u64)
}

/// Version rows with the position of their segment.
pub open spec fn tagged(rows: Seq<VersionRow>, position: usize) -> Seq<(VersionRow, usize)> {
    rows.map_values(|r: VersionRow| (r, position))
}

/// What the first `count` segments, in the given order, come to. The first segment that is an
/// error ends it.
pub open spec fn collected(
    segments: Seq<SegmentImage>,
    order: Seq<usize>,
    count: nat,
    verify_payload: bool,
    fail_fast: bool,
) -> Result<CollectedModel, MnemeError>
    decreases count,
{
    if count == 0 {
        Ok(CollectedModel { versions: Seq::empty(), parsed: Seq::empty(), skipped: Seq::empty() })
    } else {
        match collected(segments, order, (count - 1) as nat, verify_payload, fail_fast) {
            Err(error) => Err(error),
            Ok(before) => {
                let at = order[count - 1] as int;
                match parse_outcome(segments[at], verify_payload, fail_fast) {
                    Err(error) => Err(error),
                    Ok(true) => Ok(
                        CollectedModel {
                            versions: before.versions + tagged(
                                segments[at].msec->Ok_0.version_rows->Ok_0@,
                                before.parsed.len() as usize,
                            ),
                            parsed: before.parsed.push(at),
                            ..before
                        },
                    ),
                    Ok(false) => Ok(
                        CollectedModel {
                            skipped: before.skipped.push(segments[at].segment_id),
                            ..before
                        },
                    ),
                }
            },
        }
    }
}

proof fn lemma_collect_failure_stays(
    segments: Seq<SegmentImage>,
    order: Seq<usize>,
    from: nat,
    to: nat,
    verify_payload: bool,
    fail_fast: bool,
)
    requires
        from <= to,
        collected(segments, order, from, verify_payload, fail_fast) is Err,
    ensures
        collected(segments, order, to, verify_payload, fail_fast) == collected(
            segments,
            order,
            from,
            verify_payload,
            fail_fast,
        ),
    decreases to - from,
{
    if from < to {
        lemma_collect_failure_stays(
            segments,
            order,
            from,
            (to - 1) as nat,
            verify_payload,
            fail_fast,
        );
    }
}

/// What is left of the segments after checking them.
pub struct CollectedSegments {
    pub versions: Vec<(VersionRow, usize)>,
    pub parsed: Vec<usize>,
    pub parsed_ids: Vec<u32>,
    pub skipped: Vec<u32>,
}

impl CollectedSegments {
    /// The model of the collection.
    pub open spec fn model(&self) -> CollectedModel {
        CollectedModel {
            versions: self.versions@,
            parsed: self.parsed@.map_values(|p: usize| p as int),
            skipped: self.skipped@,
        }
    }

    /// Whether the collection refers to usable segments only.
    pub open spec fn refers_to(&self, segments: Seq<SegmentImage>) -> bool {
        &&& self.parsed_ids@.len() == self.parsed@.len()
        &&& forall|i: int|
            0 <= i < self.parsed@.len() ==> (#[trigger] self.parsed@[i]) < segments.len()
                && is_usable(segments[self.parsed@[i] as int]) && self.parsed_ids@[i]
                == segments[self.parsed@[i] as int].segment_id
        &&& forall|p: int|
            0 <= p < self.versions@.len() ==> (#[trigger] self.versions@[p]).1 < self.parsed@.len()
    }
}

/// Checks the segments in ascending order of their numbers and gathers their version rows.
pub fn collect_versions(segments: &Vec<SegmentImage>, verify_payload: bool, fail_fast: bool) -> (result:
    Result<CollectedSegments, MnemeError>)
    ensures
        exists|order: Seq<usize>| #[trigger]
            is_stable_order(segment_ranks(segments@), order) && match result {
                Ok(found) => found.refers_to(segments@) && collected(
                    segments@,
                    order,
                    segments@.len(),
                    verify_payload,
                    fail_fast,
                ) == Ok::<CollectedModel, MnemeError>(found.model()),
                Err(error) => collected(
                    segments@,
                    order,
                    segments@.len(),
                    verify_payload,
                    fail_fast,
                ) == Err::<CollectedModel, MnemeError>(error),
            },
{
    let mut ranks: Vec<u64> = Vec::new();
    let mut i: usize = 0;
    while i < segments.len()
        invariant
            i <= segments@.len(),
            ranks@ == segment_ranks(segments@).take(i as int),
        decreases segments@.len() - i,
    {
        ranks.push(segments[i].segment_id as u64);
        assert(segment_ranks(segments@).take(i + 1) =~= segment_ranks(segments@).take(
            i as int,
        ).push(segments@[i as int].segment_id as u64));
        i = i + 1;
    }
    assert(ranks@ =~= segment_ranks(segments@));
    let order = stable_order(&ranks);
    let mut found = CollectedSegments {
        versions: Vec::new(),
        parsed: Vec::new(),
        parsed_ids: Vec::new(),
        skipped: Vec::new(),
    };
    assert(found.model().parsed =~= Seq::<int>::empty());
    let mut n: usize = 0;
    while n < order.len()
        invariant
            n <= order@.len(),
            order@.len() == segments@.len(),
            is_stable_order(segment_ranks(segments@), order@),
            found.refers_to(segments@),
            found.parsed@.len() <= n,
            collected(segments@, order@, n as nat, verify_payload, fail_fast) == Ok::<
                CollectedModel,
                MnemeError,
            >(found.model()),
        decreases order@.len() - n,
    {
        let at: usize = order[n];
        let segment = &segments[at];
        let ghost before = found.model();
        match parse_one(segment, verify_payload, fail_fast) {
            Ok(true) => {
                let position: usize = found.parsed.len();
                if let Ok(msec) = &segment.msec {
                    if let Ok(rows) = &msec.version_rows {
                        push_tagged(&mut found.versions, rows, position);
                    }
                }
                found.parsed.push(at);
                found.parsed_ids.push(segment.segment_id);
                proof {
                    assert(found.model().parsed =~= before.parsed.push(at as int));
                }
            },
            Ok(false) => {
                found.skipped.push(segment.segment_id);
            },
            Err(error) => {
                proof {
                    lemma_collect_failure_stays(
                        segments@,
                        order@,
                        (n + 1) as nat,
                        segments@.len(),
                        verify_payload,
                        fail_fast,
                    );
                }
                return Err(error);
            },
        }
        n = n + 1;
    }
    Ok(found)
}

/// Appends version rows with the position of their segment.
fn push_tagged(versions: &mut Vec<(VersionRow, usize)>, rows: &Vec<VersionRow>, position: usize)
    ensures
        final(versions)@ == old(versions)@ + tagged(rows@, position),
{
    let ghost start = versions@;
    let mut i: usize = 0;
    assert(start + tagged(rows@, position).take(0) =~= start);
    while i < rows.len()
        invariant
            i <= rows@.len(),
            versions@ == start + tagged(rows@, position).take(i as int),
        decreases rows@.len() - i,
    {
        versions.push((rows[i], position));
        assert(start + tagged(rows@, position).take(i + 1) =~= (start + tagged(
            rows@,
            position,
        ).take(i as int)).push((rows@[i as int], position)));
        i = i + 1;
    }
    assert(tagged(rows@, position).take(rows@.len() as int) =~= tagged(rows@, position));
}

/// The versions in the given order.
pub open spec fn reordered(
    versions: Seq<(VersionRow, usize)>,
    order: Seq<usize>,
) -> Seq<(VersionRow, usize)> {
    order.map_values(|p: usize| versions[p as int])
}

/// Sorts the versions by row and commit number.
fn sort_versions(versions: &Vec<(VersionRow, usize)>) -> (sorted: Vec<(VersionRow, usize)>)
    ensures
        exists|order: Seq<usize>| #[trigger]
            is_stable_order(versions@, order) && sorted@ == reordered(versions@, order),
{
    let order = stable_order(versions);
    let mut sorted: Vec<(VersionRow, usize)> = Vec::new();
    let mut i: usize = 0;
    while i < order.len()
        invariant
            i <= order@.len(),
            is_stable_order(versions@, order@),
            sorted@ == reordered(versions@, order@).take(i as int),
        decreases order@.len() - i,
    {
        sorted.push(versions[order[i]]);
        assert(reordered(versions@, order@).take(i + 1) =~= reordered(versions@, order@).take(
            i as int,
        ).push(versions@[order@[i as int] as int]));
        i = i + 1;
    }
    assert(sorted@ =~= reordered(versions@, order@));
    sorted
}

/// The first `count` versions decoded, up to the first that does not decode.
pub open spec fn decoded_all(
    state: StateModel,
    segments: Seq<SegmentImage>,
    parsed: Seq<int>,
    versions: Seq<(VersionRow, usize)>,
    count: nat,
) -> Result<Seq<(SlotView, Option<(i64, u32)>)>, MnemeError>
    decreases count,
{
    if count == 0 {
        Ok(Seq::empty())
    } else {
        match decoded_all(state, segments, parsed, versions, (count - 1) as nat) {
            Err(error) => Err(error),
            Ok(before) => {
                let (row, position) = versions[count - 1];
                let segment = segments[parsed[position as int]];
                match decode_outcome(
                    state,
                    segment.segment_id,
                    segment.vsec->Ok_0,
                    segment.msec->Ok_0,
                    row,
                ) {
                    Err(error) => Err(error),
                    Ok(version) => Ok(before.push(version)),
                }
            },
        }
    }
}

proof fn lemma_decode_failure_stays(
    state: StateModel,
    segments: Seq<SegmentImage>,
    parsed: Seq<int>,
    versions: Seq<(VersionRow, usize)>,
    from: nat,
    to: nat,
)
    requires
        from <= to,
        decoded_all(state, segments, parsed, versions, from) is Err,
    ensures
        decoded_all(state, segments, parsed, versions, to) == decoded_all(
            state,
            segments,
            parsed,
            versions,
            from,
        ),
    decreases to - from,
{
    if from < to {
        lemma_decode_failure_stays(state, segments, parsed, versions, from, (to - 1) as nat);
    }
}

/// The decoded versions in the model.
pub open spec fn decoded_views(versions: Seq<(SlotData, Option<(i64, u32)>)>) -> Seq<
    (SlotView, Option<(i64, u32)>),
> {
    versions.map_values(|v: (SlotData, Option<(i64, u32)>)| decoded_view(v))
}

/// Whether every segment has its invariant.
pub open spec fn segments_wf(segments: Seq<SegmentImage>) -> bool {
    forall|i: int| 0 <= i < segments.len() ==> (#[trigger] segments[i]).wf()
}

/// Decodes the versions in order.
pub fn decode_versions(
    state: &WriterState,
    segments: &Vec<SegmentImage>,
    parsed: &Vec<usize>,
    versions: &Vec<(VersionRow, usize)>,
) -> (result: Result<Vec<(SlotData, Option<(i64, u32)>)>, MnemeError>)
    requires
        state.wf(),
        segments_wf(segments@),
        forall|i: int|
            0 <= i < parsed@.len() ==> (#[trigger] parsed@[i]) < segments@.len() && is_usable(
                segments@[parsed@[i] as int],
            ),
        forall|p: int| 0 <= p < versions@.len() ==> (#[trigger] versions@[p]).1 < parsed@.len(),
    ensures
        match result {
            Ok(decoded) => decoded_all(
                state@,
                segments@,
                parsed@.map_values(|p: usize| p as int),
                versions@,
                versions@.len(),
            ) == Ok::<Seq<(SlotView, Option<(i64, u32)>)>, MnemeError>(decoded_views(decoded@)),
            Err(error) => decoded_all(
                state@,
                segments@,
                parsed@.map_values(|p: usize| p as int),
                versions@,
                versions@.len(),
            ) == Err::<Seq<(SlotView, Option<(i64, u32)>)>, MnemeError>(error),
        },
{
    let ghost listed = parsed@.map_values(|p: usize| p as int);
    let mut decoded: Vec<(SlotData, Option<(i64, u32)>)> = Vec::new();
    assert(decoded_views(decoded@) =~= Seq::empty());
    let mut i: usize = 0;
    while i < versions.len()
        invariant
            state.wf(),
            segments_wf(segments@),
            listed == parsed@.map_values(|p: usize| p as int),
            forall|i: int|
                0 <= i < parsed@.len() ==> (#[trigger] parsed@[i]) < segments@.len() && is_usable(
                    segments@[parsed@[i] as int],
                ),
            forall|p: int|
                0 <= p < versions@.len() ==> (#[trigger] versions@[p]).1 < parsed@.len(),
            i <= versions@.len(),
            decoded_all(state@, segments@, listed, versions@, i as nat) == Ok::<
                Seq<(SlotView, Option<(i64, u32)>)>,
                MnemeError,
            >(decoded_views(decoded@)),
        decreases versions@.len() - i,
    {
        let (row, position) = versions[i];
        let at: usize = parsed[position];
        let segment = &segments[at];
        assert(listed[position as int] == at);
        assert(segments@[at as int].wf());
        match (&segment.vsec, &segment.msec) {
            (Ok(vsec), Ok(msec)) => {
                match decode_version(state, segment.segment_id, vsec, msec, &row) {
                    Ok(version) => {
                        let ghost before = decoded@;
                        decoded.push(version);
                        assert(decoded_views(decoded@) =~= decoded_views(before).push(
                            decoded_view(version),
                        ));
                    },
                    Err(error) => {
                        proof {
                            lemma_decode_failure_stays(
                                state@,
                                segments@,
                                listed,
                                versions@,
                                (i + 1) as nat,
                                versions@.len(),
                            );
                        }
                        return Err(error);
                    },
                }
            },
            _ => {},
        }
        i = i + 1;
    }
    Ok(decoded)
}

/// Whether the version at `at` follows another version of its row.
pub open spec fn follows_version(
    decoded: Seq<(SlotView, Option<(i64, u32)>)>,
    at: int,
) -> bool {
    at > 0 && decoded[at - 1].0.rowid == decoded[at].0.rowid
}

/// What the first `count` decoded versions make of a state, up to the first failure.
pub open spec fn versions_applied(
    state: StateModel,
    decoded: Seq<(SlotView, Option<(i64, u32)>)>,
    count: nat,
) -> Outcome
    decreases count,
{
    if count == 0 {
        (state, Ok(()))
    } else {
        let before = versions_applied(state, decoded, (count - 1) as nat);
        if before.1 is Err {
            before
        } else {
            recovered_applied(
                before.0,
                decoded[count - 1].0,
                decoded[count - 1].1,
                follows_version(decoded, count - 1),
            )
        }
    }
}

proof fn lemma_apply_failure_stays(
    state: StateModel,
    decoded: Seq<(SlotView, Option<(i64, u32)>)>,
    from: nat,
    to: nat,
)
    requires
        from <= to,
        versions_applied(state, decoded, from).1 is Err,
    ensures
        versions_applied(state, decoded, to) == versions_applied(state, decoded, from),
    decreases to - from,
{
    if from < to {
        lemma_apply_failure_stays(state, decoded, from, (to - 1) as nat);
    }
}

/// Commits decoded versions in order.
fn commit_decoded(state: &mut WriterState, decoded: Vec<(SlotData, Option<(i64, u32)>)>) -> (result:
    Result<(), MnemeError>)
    requires
        old(state).wf(),
    ensures
        final(state).wf(),
        (final(state)@, result) == versions_applied(
            old(state)@,
            decoded_views(decoded@),
            decoded@.len(),
        ),
{
    let ghost all = decoded_views(decoded@);
    let ghost total = decoded@.len();
    let ghost start = state@;
    let mut previous: Option<u64> = None;
    for version in it: decoded
        invariant
            state.wf(),
            start == old(state)@,
            it.seq() == decoded@,
            all == decoded_views(decoded@),
            total == decoded@.len(),
            versions_applied(start, all, it.index() as nat) == (state@, Ok::<(), MnemeError>(())),
            previous == (if it.index() == 0 {
                None
            } else {
                Some(all[it.index() - 1].0.rowid)
            }),
    {
        let ghost at = it.index() as int;
        let (slot, access) = version;
        assert(all[at] == (slot@, access));
        let rowid: u64 = slot.rowid;
        let follows: bool = match previous {
            Some(before) => before == rowid,
            None => false,
        };
        assert(follows == follows_version(all, at));
        let result = commit_recovered_slot(state, slot, access, follows);
        assert(versions_applied(start, all, (at + 1) as nat) == (state@, result));
        match result {
            Ok(()) => {},
            Err(error) => {
                proof {
                    lemma_apply_failure_stays(start, all, (at + 1) as nat, total);
                }
                return Err(error);
            },
        }
        previous = Some(rowid);
    }
    Ok(())
}

/// What the versions of the segments make of a state: first all of them are decoded, then they
/// are committed in order.
pub open spec fn recovery_applied(
    state: StateModel,
    segments: Seq<SegmentImage>,
    parsed: Seq<int>,
    versions: Seq<(VersionRow, usize)>,
) -> Outcome {
    match decoded_all(state, segments, parsed, versions, versions.len()) {
        Err(error) => (state, Err(error)),
        Ok(decoded) => versions_applied(state, decoded, decoded.len()),
    }
}

/// Rebuilds the versions of a state from the ordered version rows.
pub fn apply_versions(
    state: &mut WriterState,
    segments: &Vec<SegmentImage>,
    parsed: &Vec<usize>,
    versions: &Vec<(VersionRow, usize)>,
) -> (result: Result<(), MnemeError>)
    requires
        old(state).wf(),
        segments_wf(segments@),
        forall|i: int|
            0 <= i < parsed@.len() ==> (#[trigger] parsed@[i]) < segments@.len() && is_usable(
                segments@[parsed@[i] as int],
            ),
        forall|p: int| 0 <= p < versions@.len() ==> (#[trigger] versions@[p]).1 < parsed@.len(),
    ensures
        final(state).wf(),
        (final(state)@, result) == recovery_applied(
            old(state)@,
            segments@,
            parsed@.map_values(|p: usize| p as int),
            versions@,
        ),
{
    match decode_versions(state, segments, parsed, versions) {
        Ok(decoded) => commit_decoded(state, decoded),
        Err(error) => Err(error),
    }
}

/// The first `count` targets of a map entered as belonging to a segment.
pub open spec fn segment_filled(
    slot_segment: Seq<Option<u32>>,
    remap: Seq<u32>,
    segment_id: u32,
    count: nat,
) -> Seq<Option<u32>>
    decreases count,
{
    if count == 0 {
        slot_segment
    } else {
        let before = segment_filled(slot_segment, remap, segment_id, (count - 1) as nat);
        if remap[count - 1] < before.len() {
            before.update(remap[count - 1] as int, Some(segment_id))
        } else {
            before
        }
    }
}

/// The targets of the first `count` maps entered as belonging to their segments.
pub open spec fn segments_filled(
    slot_segment: Seq<Option<u32>>,
    remaps: Seq<SegmentRemap>,
    count: nat,
) -> Seq<Option<u32>>
    decreases count,
{
    if count == 0 {
        slot_segment
    } else {
        let remap = remaps[count - 1];
        segment_filled(
            segments_filled(slot_segment, remaps, (count - 1) as nat),
            remap.remap@,
            remap.segment_id,
            remap.remap@.len(),
        )
    }
}

/// Enters, for every recovered version, the segment that holds it. Without this the next flush
/// would take all of them for unwritten.
pub fn backfill_slot_segments(state: &mut WriterState, remaps: &Vec<SegmentRemap>)
    requires
        old(state).wf(),
    ensures
        final(state).wf(),
        final(state)@ == (StateModel {
            slot_segment: segments_filled(old(state)@.slot_segment, remaps@, remaps@.len()),
            ..old(state)@
        }),
{
    let ghost start = state@;
    let mut r: usize = 0;
    while r < remaps.len()
        invariant
            state.wf(),
            r <= remaps@.len(),
            state@ == (StateModel {
                slot_segment: segments_filled(start.slot_segment, remaps@, r as nat),
                ..start
            }),
        decreases remaps@.len() - r,
    {
        let remap = &remaps[r];
        let ghost middle = state@.slot_segment;
        let mut i: usize = 0;
        while i < remap.remap.len()
            invariant
                state.wf(),
                i <= remap.remap@.len(),
                state@ == (StateModel {
                    slot_segment: segment_filled(
                        middle,
                        remap.remap@,
                        remap.segment_id,
                        i as nat,
                    ),
                    ..start
                }),
            decreases remap.remap@.len() - i,
        {
            let global: usize = remap.remap[i] as usize;
            proof {
                state.lemma_wf();
            }
            if global < state.slot_count() {
                state.assign_segment(global, remap.segment_id);
            }
            i = i + 1;
        }
        r = r + 1;
    }
}

/// What the relations and deltas of the first `count` parsed segments make of a state.
pub open spec fn changes_applied(
    state: StateModel,
    segments: Seq<SegmentImage>,
    parsed: Seq<int>,
    count: nat,
) -> StateModel
    decreases count,
{
    if count == 0 {
        state
    } else {
        let msec = segments[parsed[count - 1]].msec->Ok_0;
        let related = relations_applied(
            changes_applied(state, segments, parsed, (count - 1) as nat),
            msec.relations->Ok_0,
        );
        deltas_applied(related, msec.delta->Ok_0@, msec.delta->Ok_0@.len())
    }
}

/// Applies the relations and deltas of the parsed segments, segment by segment.
fn apply_changes(state: &mut WriterState, segments: &Vec<SegmentImage>, parsed: &Vec<usize>)
    requires
        old(state).wf(),
        forall|i: int|
            0 <= i < parsed@.len() ==> (#[trigger] parsed@[i]) < segments@.len() && is_usable(
                segments@[parsed@[i] as int],
            ),
    ensures
        final(state).wf(),
        final(state)@ == changes_applied(
            old(state)@,
            segments@,
            parsed@.map_values(|p: usize| p as int),
            parsed@.len(),
        ),
{
    let ghost start = state@;
    let ghost listed = parsed@.map_values(|p: usize| p as int);
    let mut i: usize = 0;
    while i < parsed.len()
        invariant
            state.wf(),
            listed == parsed@.map_values(|p: usize| p as int),
            forall|i: int|
                0 <= i < parsed@.len() ==> (#[trigger] parsed@[i]) < segments@.len() && is_usable(
                    segments@[parsed@[i] as int],
                ),
            i <= parsed@.len(),
            state@ == changes_applied(start, segments@, listed, i as nat),
        decreases parsed@.len() - i,
    {
        let at: usize = parsed[i];
        assert(listed[i as int] == at);
        if let Ok(msec) = &segments[at].msec {
            if let Ok(relations) = &msec.relations {
                apply_relations(state, relations);
            }
            if let Ok(delta) = &msec.delta {
                apply_delta(state, delta);
            }
        }
        i = i + 1;
    }
}

/// How many blocks of `block_rows` rows it takes to hold `rows` rows.
pub open spec fn blocks_for(rows: nat, block_rows: nat) -> nat {
    if rows % block_rows == 0 {
        rows / block_rows
    } else {
        rows / block_rows + 1
    }
}

/// Counts the blocks that hold a number of rows.
pub fn block_count(rows: usize, block_rows: usize) -> (blocks: usize)
    requires
        block_rows > 0,
    ensures
        blocks == blocks_for(rows as nat, block_rows as nat),
{
    let whole: usize = rows / block_rows;
    if rows % block_rows == 0 {
        whole
    } else {
        proof {
            assert(rows / block_rows < usize::MAX) by (nonlinear_arith)
                requires
                    block_rows > 0,
                    rows % block_rows != 0,
                    0 <= rows <= usize::MAX,
            {
                if block_rows == 1 {
                    assert(rows % 1 == 0);
                }
                assert(rows / block_rows <= rows / 2);
            }
        }
        whole + 1
    }
}

/// Whether the zone map and the expiry map fit a number of rows.
pub open spec fn regions_outcome(
    regions: IndexRegions,
    rows: nat,
    block_rows: nat,
) -> Result<(), MnemeError> {
    if regions.zone_map is Err {
        regions.zone_map
    } else if regions.block_count != blocks_for(rows, block_rows) {
        Err(corrupted(Fault::Malformed { region: Region::ZoneMap }))
    } else {
        regions.ttl_map
    }
}

/// Checks the zone map and the expiry map of a segment against the recovered rows.
pub fn validate_disk_regions(regions: &IndexRegions, rows: usize, block_rows: usize) -> (result:
    Result<(), MnemeError>)
    requires
        block_rows > 0,
    ensures
        result == regions_outcome(*regions, rows as nat, block_rows as nat),
{
    match regions.zone_map {
        Ok(()) => {},
        Err(error) => {
            return Err(error);
        },
    }
    if regions.block_count != block_count(rows, block_rows) {
        return Err(
            MnemeError::Corrupted {
                segment: None,
                reason: Fault::Malformed { region: Region::ZoneMap },
            },
        );
    }
    regions.ttl_map
}

/// Whether a field of this number holds strings.
pub open spec fn is_str_field(fields: Seq<FieldDef>, id: u16) -> bool {
    exists|i: int| 0 <= i < fields.len() && (#[trigger] fields[i]).is_str && fields[i].id == id
}

/// Which bloom filter covers the keys: the first of a string field.
pub open spec fn key_bloom_at(blooms: Seq<u16>, fields: Seq<FieldDef>, at: int) -> bool {
    &&& 0 <= at < blooms.len()
    &&& is_str_field(fields, blooms[at])
    &&& forall|i: int| 0 <= i < at ==> !is_str_field(fields, #[trigger] blooms[i])
}

/// Finds the bloom filter that covers the keys. A bloom region without one is damaged.
pub fn decode_key_bloom(bloom: &Result<Vec<u16>, MnemeError>, fields: &Vec<FieldDef>) -> (result:
    Result<usize, MnemeError>)
    ensures
        match result {
            Ok(at) => bloom matches Ok(blooms) && key_bloom_at(blooms@, fields@, at as int),
            Err(error) => match *bloom {
                Err(failure) => error == failure,
                Ok(blooms) => error == corrupted(Fault::KeyBloomMissing) && forall|i: int|
                    0 <= i < blooms@.len() ==> !is_str_field(fields@, #[trigger] blooms@[i]),
            },
        },
{
    let blooms = match bloom {
        Ok(blooms) => blooms,
        Err(error) => {
            return Err(*error);
        },
    };
    let mut i: usize = 0;
    while i < blooms.len()
        invariant
            i <= blooms@.len(),
            forall|k: int| 0 <= k < i ==> !is_str_field(fields@, #[trigger] blooms@[k]),
            *bloom == Ok::<Vec<u16>, MnemeError>(*blooms),
        decreases blooms@.len() - i,
    {
        let id: u16 = blooms[i];
        let mut f: usize = 0;
        while f < fields.len()
            invariant
                f <= fields@.len(),
                i < blooms@.len(),
                id == blooms@[i as int],
                forall|k: int| 0 <= k < i ==> !is_str_field(fields@, #[trigger] blooms@[k]),
                forall|k: int|
                    0 <= k < f ==> !((#[trigger] fields@[k]).is_str && fields@[k].id == id),
                *bloom == Ok::<Vec<u16>, MnemeError>(*blooms),
            decreases fields@.len() - f,
        {
            if fields[f].is_str && fields[f].id == id {
                assert(is_str_field(fields@, blooms@[i as int]));
                return Ok(i);
            }
            f = f + 1;
        }
        i = i + 1;
    }
    Err(MnemeError::Corrupted { segment: None, reason: Fault::KeyBloomMissing })
}

/// Whether the index regions of the only segment can be taken over.
pub open spec fn disk_outcome(
    regions: IndexRegions,
    rows: nat,
    block_rows: nat,
) -> Result<(), MnemeError> {
    match regions.field_dict {
        Err(error) => Err(error),
        Ok(fields) => match regions_outcome(regions, rows, block_rows) {
            Err(error) => Err(error),
            Ok(()) => match regions.bloom {
                Err(error) => Err(error),
                Ok(blooms) => if exists|i: int|
                    0 <= i < blooms@.len() && is_str_field(fields@, #[trigger] blooms@[i]) {
                    regions.inverted
                } else {
                    Err(corrupted(Fault::KeyBloomMissing))
                },
            },
        },
    }
}

/// Checks the index regions of the only segment.
pub fn load_disk_indexes(regions: &IndexRegions, rows: usize, block_rows: usize) -> (result: Result<
    (),
    MnemeError,
>)
    requires
        block_rows > 0,
    ensures
        result == disk_outcome(*regions, rows as nat, block_rows as nat),
{
    let fields = match &regions.field_dict {
        Ok(fields) => fields,
        Err(error) => {
            return Err(*error);
        },
    };
    match validate_disk_regions(regions, rows, block_rows) {
        Ok(()) => {},
        Err(error) => {
            return Err(error);
        },
    }
    match decode_key_bloom(&regions.bloom, fields) {
        Ok(at) => {
            assert(is_str_field(fields@, regions.bloom->Ok_0@[at as int]));
        },
        Err(error) => {
            return Err(error);
        },
    }
    regions.inverted
}

/// Whether the index regions of one of several segments can be merged.
pub open spec fn merge_outcome(
    regions: IndexRegions,
    rows: nat,
    block_rows: nat,
) -> Result<(), MnemeError> {
    match regions.field_dict {
        Err(error) => Err(error),
        Ok(_) => match regions_outcome(regions, rows, block_rows) {
            Err(error) => Err(error),
            Ok(()) => match regions.bloom {
                Err(error) => Err(error),
                Ok(_) => regions.inverted,
            },
        },
    }
}

/// Checks the index regions of one of several segments.
pub fn decode_segment_index(regions: &IndexRegions, rows: usize, block_rows: usize) -> (result:
    Result<(), MnemeError>)
    requires
        block_rows > 0,
    ensures
        result == merge_outcome(*regions, rows as nat, block_rows as nat),
{
    match &regions.field_dict {
        Ok(_) => {},
        Err(error) => {
            return Err(*error);
        },
    }
    match validate_disk_regions(regions, rows, block_rows) {
        Ok(()) => {},
        Err(error) => {
            return Err(error);
        },
    }
    match &regions.bloom {
        Ok(_) => {},
        Err(error) => {
            return Err(*error);
        },
    }
    regions.inverted
}

/// The first of the first `count` segments whose index regions cannot be merged.
pub open spec fn merge_failure(
    segments: Seq<SegmentImage>,
    parsed: Seq<int>,
    count: nat,
    block_rows: nat,
) -> Option<MnemeError>
    decreases count,
{
    if count == 0 {
        None
    } else {
        match merge_failure(segments, parsed, (count - 1) as nat, block_rows) {
            Some(error) => Some(error),
            None => {
                let msec = segments[parsed[count - 1]].msec->Ok_0;
                match merge_outcome(msec.regions, msec.row_count as nat, block_rows) {
                    Err(error) => Some(error),
                    Ok(()) => None,
                }
            },
        }
    }
}

/// How the search structures of a state come about. Damage in them is an error where it is to be
/// reported at once; otherwise they are rebuilt from the versions, which gives the same.
pub open spec fn index_outcome(
    state: StateModel,
    segments: Seq<SegmentImage>,
    parsed: Seq<int>,
    fail_fast: bool,
    block_rows: nat,
) -> Outcome {
    if parsed.len() == 0 {
        (state, Ok(()))
    } else {
        let failure = if parsed.len() == 1 {
            match disk_outcome(
                segments[parsed[0]].msec->Ok_0.regions,
                state.slots.len(),
                block_rows,
            ) {
                Err(error) => Some(error),
                Ok(()) => None,
            }
        } else {
            merge_failure(segments, parsed, parsed.len(), block_rows)
        };
        match failure {
            Some(error) => if fail_fast {
                (state, Err(error))
            } else {
                (StateModel { index_origin: IndexOrigin::Rebuilt, ..state }, Ok(()))
            },
            None => (
                StateModel {
                    index_origin: if parsed.len() == 1 {
                        IndexOrigin::Disk
                    } else {
                        IndexOrigin::Merged
                    },
                    ..state
                },
                Ok(()),
            ),
        }
    }
}

proof fn lemma_merge_failure_stays(
    segments: Seq<SegmentImage>,
    parsed: Seq<int>,
    from: nat,
    to: nat,
    block_rows: nat,
)
    requires
        from <= to,
        merge_failure(segments, parsed, from, block_rows) is Some,
    ensures
        merge_failure(segments, parsed, to, block_rows) == merge_failure(
            segments,
            parsed,
            from,
            block_rows,
        ),
    decreases to - from,
{
    if from < to {
        lemma_merge_failure_stays(segments, parsed, from, (to - 1) as nat, block_rows);
    }
}

/// Takes over, merges or rebuilds the search structures.
pub fn apply_indexes(
    state: &mut WriterState,
    segments: &Vec<SegmentImage>,
    parsed: &Vec<usize>,
    fail_fast: bool,
    block_rows: usize,
) -> (result: Result<(), MnemeError>)
    requires
        old(state).wf(),
        block_rows > 0,
        forall|i: int|
            0 <= i < parsed@.len() ==> (#[trigger] parsed@[i]) < segments@.len() && is_usable(
                segments@[parsed@[i] as int],
            ),
    ensures
        final(state).wf(),
        (final(state)@, result) == index_outcome(
            old(state)@,
            segments@,
            parsed@.map_values(|p: usize| p as int),
            fail_fast,
            block_rows as nat,
        ),
{
    let ghost listed = parsed@.map_values(|p: usize| p as int);
    if parsed.len() == 0 {
        return Ok(());
    }
    if parsed.len() == 1 {
        let at: usize = parsed[0];
        assert(listed[0] == at);
        if let Ok(msec) = &segments[at].msec {
            match load_disk_indexes(&msec.regions, state.slot_count(), block_rows) {
                Ok(()) => {
                    state.note_index_origin(IndexOrigin::Disk);
                },
                Err(error) => {
                    if fail_fast {
                        return Err(error);
                    }
                    state.note_index_origin(IndexOrigin::Rebuilt);
                },
            }
        }
        return Ok(());
    }
    let mut i: usize = 0;
    while i < parsed.len()
        invariant
            state.wf(),
            state@ == old(state)@,
            block_rows > 0,
            parsed@.len() > 1,
            listed == parsed@.map_values(|p: usize| p as int),
            forall|i: int|
                0 <= i < parsed@.len() ==> (#[trigger] parsed@[i]) < segments@.len() && is_usable(
                    segments@[parsed@[i] as int],
                ),
            i <= parsed@.len(),
            merge_failure(segments@, listed, i as nat, block_rows as nat) is None,
        decreases parsed@.len() - i,
    {
        let at: usize = parsed[i];
        assert(listed[i as int] == at);
        if let Ok(msec) = &segments[at].msec {
            match decode_segment_index(&msec.regions, msec.row_count, block_rows) {
                Ok(()) => {},
                Err(error) => {
                    proof {
                        assert(merge_failure(
                            segments@,
                            listed,
                            (i + 1) as nat,
                            block_rows as nat,
                        ) == Some(error));
                        lemma_merge_failure_stays(
                            segments@,
                            listed,
                            (i + 1) as nat,
                            parsed@.len(),
                            block_rows as nat,
                        );
                    }
                    if fail_fast {
                        return Err(error);
                    }
                    state.note_index_origin(IndexOrigin::Rebuilt);
                    return Ok(());
                },
            }
        }
        i = i + 1;
    }
    state.note_index_origin(IndexOrigin::Merged);
    Ok(())
}

/// What loading the segments leaves behind for the loading of the graphs.
pub struct RecoveredSegments {
    /// The segments that were left out.
    pub skipped: Vec<u32>,
    /// For every segment that was used, where its slots went.
    pub remaps: Vec<SegmentRemap>,
}

/// How many rows the vector files of the parsed segments have.
pub open spec fn parsed_row_counts(segments: Seq<SegmentImage>, parsed: Seq<int>) -> Seq<usize> {
    parsed.map_values(|p: int| segments[p].vsec->Ok_0.row_count)
}

/// The numbers of the parsed segments.
pub open spec fn parsed_numbers(segments: Seq<SegmentImage>, parsed: Seq<int>) -> Seq<u32> {
    parsed.map_values(|p: int| segments[p].segment_id)
}

/// What remains to be done once the maps are built: the versions, the segments they belong to,
/// the relations and deltas, the search structures.
pub open spec fn load_finished(
    state: StateModel,
    segments: Seq<SegmentImage>,
    found: CollectedModel,
    versions: Seq<(VersionRow, usize)>,
    remaps: Seq<SegmentRemap>,
    fail_fast: bool,
    block_rows: nat,
) -> Outcome {
    let applied = recovery_applied(state, segments, found.parsed, versions);
    if applied.1 is Err {
        applied
    } else {
        let placed = StateModel {
            slot_segment: segments_filled(applied.0.slot_segment, remaps, remaps.len()),
            ..applied.0
        };
        let changed = changes_applied(placed, segments, found.parsed, found.parsed.len());
        let indexed = index_outcome(changed, segments, found.parsed, fail_fast, block_rows);
        if indexed.1 is Err {
            indexed
        } else {
            (StateModel { indexing_paused: false, ..indexed.0 }, Ok(()))
        }
    }
}

/// What `load_segments` owes, given the order in which it takes the segments and the versions.
pub open spec fn load_outcome(
    state: StateModel,
    segments: Seq<SegmentImage>,
    verify_payload: bool,
    fail_fast: bool,
    block_rows: nat,
    segment_order: Seq<usize>,
    version_order: Seq<usize>,
    after: StateModel,
    result: Result<RecoveredSegments, MnemeError>,
) -> bool {
    let paused = StateModel { indexing_paused: true, ..state };
    match collected(segments, segment_order, segments.len(), verify_payload, fail_fast) {
        Err(error) => after == paused && result == Err::<RecoveredSegments, MnemeError>(error),
        Ok(found) => {
            let versions = reordered(found.versions, version_order);
            let marked = StateModel { unavailable: found.skipped, ..paused };
            &&& is_stable_order(found.versions, version_order)
            &&& exists|built: Result<Vec<SegmentRemap>, MnemeError>| #[trigger]
                remap_outcome(
                    versions,
                    parsed_row_counts(segments, found.parsed),
                    parsed_numbers(segments, found.parsed),
                    built,
                ) && match built {
                    Err(error) => after == marked && result == Err::<RecoveredSegments, MnemeError>(
                        error,
                    ),
                    Ok(remaps) => {
                        let end = load_finished(
                            marked,
                            segments,
                            found,
                            versions,
                            remaps@,
                            fail_fast,
                            block_rows,
                        );
                        &&& after == end.0
                        &&& match end.1 {
                            Err(error) => result == Err::<RecoveredSegments, MnemeError>(error),
                            Ok(()) => result matches Ok(recovered) && recovered.skipped@
                                == found.skipped && recovered.remaps@ == remaps@,
                        }
                    },
                }
        },
    }
}

/// The row counts and numbers of the parsed segments.
fn parsed_shapes(segments: &Vec<SegmentImage>, parsed: &Vec<usize>) -> (row_counts: Vec<usize>)
    requires
        forall|i: int|
            0 <= i < parsed@.len() ==> (#[trigger] parsed@[i]) < segments@.len() && is_usable(
                segments@[parsed@[i] as int],
            ),
    ensures
        row_counts@ == parsed_row_counts(segments@, parsed@.map_values(|p: usize| p as int)),
{
    let ghost listed = parsed@.map_values(|p: usize| p as int);
    let ghost wanted = parsed_row_counts(segments@, listed);
    let mut row_counts: Vec<usize> = Vec::new();
    let mut i: usize = 0;
    while i < parsed.len()
        invariant
            listed == parsed@.map_values(|p: usize| p as int),
            wanted == parsed_row_counts(segments@, listed),
            forall|i: int|
                0 <= i < parsed@.len() ==> (#[trigger] parsed@[i]) < segments@.len() && is_usable(
                    segments@[parsed@[i] as int],
                ),
            i <= parsed@.len(),
            row_counts@ == wanted.take(i as int),
        decreases parsed@.len() - i,
    {
        let at: usize = parsed[i];
        let count: usize = match &segments[at].vsec {
            Ok(vsec) => vsec.row_count,
            Err(_) => 0,
        };
        row_counts.push(count);
        assert(wanted[i as int] == count);
        assert(wanted.take(i + 1) =~= wanted.take(i as int).push(count));
        i = i + 1;
    }
    assert(wanted.take(wanted.len() as int) =~= wanted);
    row_counts
}

/// Rebuilds a state from the segments of a manifest. The state starts from the registries and
/// counters of the manifest.
pub fn load_segments(
    state: &mut WriterState,
    segments: &Vec<SegmentImage>,
    verify_payload: bool,
    fail_fast: bool,
    block_rows: usize,
) -> (result: Result<RecoveredSegments, MnemeError>)
    requires
        old(state).wf(),
        segments_wf(segments@),
        block_rows > 0,
    ensures
        final(state).wf(),
        exists|segment_order: Seq<usize>, version_order: Seq<usize>|
            is_stable_order(segment_ranks(segments@), segment_order) && #[trigger] load_outcome(
                old(state)@,
                segments@,
                verify_payload,
                fail_fast,
                block_rows as nat,
                segment_order,
                version_order,
                final(state)@,
                result,
            ),
{
    let ghost start = state@;
    state.pause_indexing(true);
    let ghost paused = state@;
    assert(paused == (StateModel { indexing_paused: true, ..start }));
    let collection = collect_versions(segments, verify_payload, fail_fast);
    let ghost segment_order = choose|order: Seq<usize>| #[trigger]
        is_stable_order(segment_ranks(segments@), order) && match collection {
            Ok(found) => found.refers_to(segments@) && collected(
                segments@,
                order,
                segments@.len(),
                verify_payload,
                fail_fast,
            ) == Ok::<CollectedModel, MnemeError>(found.model()),
            Err(error) => collected(
                segments@,
                order,
                segments@.len(),
                verify_payload,
                fail_fast,
            ) == Err::<CollectedModel, MnemeError>(error),
        };
    let found = match collection {
        Ok(found) => found,
        Err(error) => {
            let result: Result<RecoveredSegments, MnemeError> = Err(error);
            assert(load_outcome(
                start,
                segments@,
                verify_payload,
                fail_fast,
                block_rows as nat,
                segment_order,
                Seq::empty(),
                state@,
                result,
            ));
            return result;
        },
    };
    let ghost model = found.model();
    let versions = sort_versions(&found.versions);
    let ghost version_order = choose|order: Seq<usize>| #[trigger]
        is_stable_order(found.versions@, order) && versions@ == reordered(found.versions@, order);
    proof {
        assert forall|p: int| 0 <= p < versions@.len() implies (#[trigger] versions@[p]).1
            < found.parsed@.len() by {
            assert(versions@[p] == found.versions@[version_order[p] as int]);
        }
    }
    let skipped = copied_numbers(&found.skipped);
    state.note_unavailable(copied_numbers(&found.skipped));
    let ghost marked = state@;
    assert(marked == (StateModel { unavailable: model.skipped, ..paused }));
    let row_counts = parsed_shapes(segments, &found.parsed);
    assert(found.parsed_ids@ =~= parsed_numbers(segments@, model.parsed));
    let built = build_remaps(&versions, &row_counts, &found.parsed_ids);
    let ghost outcome = built;
    let remaps = match built {
        Ok(remaps) => remaps,
        Err(error) => {
            let result: Result<RecoveredSegments, MnemeError> = Err(error);
            assert(remap_outcome(
                versions@,
                parsed_row_counts(segments@, model.parsed),
                parsed_numbers(segments@, model.parsed),
                outcome,
            ));
            assert(load_outcome(
                start,
                segments@,
                verify_payload,
                fail_fast,
                block_rows as nat,
                segment_order,
                version_order,
                state@,
                result,
            ));
            return result;
        },
    };
    let finish = finish_load(
        state,
        segments,
        &found.parsed,
        &versions,
        &remaps,
        fail_fast,
        block_rows,
        Ghost(model),
    );
    let result: Result<RecoveredSegments, MnemeError> = match finish {
        Ok(()) => Ok(RecoveredSegments { skipped, remaps }),
        Err(error) => Err(error),
    };
    assert(remap_outcome(
        versions@,
        parsed_row_counts(segments@, model.parsed),
        parsed_numbers(segments@, model.parsed),
        outcome,
    ));
    assert(load_outcome(
        start,
        segments@,
        verify_payload,
        fail_fast,
        block_rows as nat,
        segment_order,
        version_order,
        state@,
        result,
    ));
    result
}

/// A copy of a list of numbers.
pub fn copied_numbers(numbers: &Vec<u32>) -> (copy: Vec<u32>)
    ensures
        copy@ == numbers@,
{
    vstd::slice::slice_to_vec(numbers.as_slice())
}

/// Does what remains once the maps are built.
fn finish_load(
    state: &mut WriterState,
    segments: &Vec<SegmentImage>,
    parsed: &Vec<usize>,
    versions: &Vec<(VersionRow, usize)>,
    remaps: &Vec<SegmentRemap>,
    fail_fast: bool,
    block_rows: usize,
    Ghost(found): Ghost<CollectedModel>,
) -> (result: Result<(), MnemeError>)
    requires
        old(state).wf(),
        segments_wf(segments@),
        block_rows > 0,
        found.parsed == parsed@.map_values(|p: usize| p as int),
        forall|i: int|
            0 <= i < parsed@.len() ==> (#[trigger] parsed@[i]) < segments@.len() && is_usable(
                segments@[parsed@[i] as int],
            ),
        forall|p: int| 0 <= p < versions@.len() ==> (#[trigger] versions@[p]).1 < parsed@.len(),
    ensures
        final(state).wf(),
        (final(state)@, result) == load_finished(
            old(state)@,
            segments@,
            found,
            versions@,
            remaps@,
            fail_fast,
            block_rows as nat,
        ),
{
    match apply_versions(state, segments, parsed, versions) {
        Ok(()) => {},
        Err(error) => {
            return Err(error);
        },
    }
    backfill_slot_segments(state, remaps);
    apply_changes(state, segments, parsed);
    match apply_indexes(state, segments, parsed, fail_fast, block_rows) {
        Ok(()) => {},
        Err(error) => {
            return Err(error);
        },
    }
    state.pause_indexing(false);
    Ok(())
}

/// Recovery from the ordered versions of sound segments rebuilds the version chains: the versions
/// come out in order, and of each row exactly the last one, with the largest commit number, is
/// visible.
pub proof fn recovered_versions_form_chains(
    state: StateModel,
    decoded: Seq<(SlotView, Option<(i64, u32)>)>,
    count: nat,
)
    requires
        state.consistent(),
        state.slots.len() == 0,
        state.latest == Map::<u64, u32>::empty(),
        count <= decoded.len(),
        forall|i: int, j: int|
            0 <= i < j < decoded.len() ==> (#[trigger] decoded[i]).0.rowid <= (
            #[trigger] decoded[j]).0.rowid,
        versions_applied(state, decoded, count).1 is Ok,
    ensures
        versions_applied(state, decoded, count).0.chains_hold(),
        versions_applied(state, decoded, count).0.slots.len() == count,
        forall|i: int|
            0 <= i < count ==> (#[trigger] versions_applied(state, decoded, count).0.slots[i])
                == decoded[i].0,
        forall|row: u64| #[trigger]
            versions_applied(state, decoded, count).0.latest.dom().contains(row) ==> exists|i: int|
                0 <= i < count && (#[trigger] decoded[i]).0.rowid == row,
    decreases count,
{
    if count > 0 {
        let last = (count - 1) as nat;
        recovered_versions_form_chains(state, decoded, last);
        let before = versions_applied(state, decoded, last).0;
        let slot = decoded[last as int].0;
        let follows = follows_version(decoded, last as int);
        assert(follows == before.latest.dom().contains(slot.rowid)) by {
            if follows {
                assert(before.slots[last - 1] == decoded[last - 1].0);
            }
            if before.latest.dom().contains(slot.rowid) {
                let i = choose|i: int| 0 <= i < last
                    && (#[trigger] decoded[i]).0.rowid == slot.rowid;
                assert(decoded[last - 1].0.rowid <= decoded[last as int].0.rowid);
                if i < last - 1 {
                    assert(decoded[i].0.rowid <= decoded[last - 1].0.rowid);
                }
            }
        }
        let committed = before.commit(slot, follows).0;
        assert(committed == before.commit(slot, true).0);
        commit_keeps_chains(before, slot);
        let after = versions_applied(state, decoded, count).0;
        assert(after.slots == committed.slots);
        assert(after.latest == committed.latest);
        assert(after.hidden == committed.hidden);
        assert(after.slot_segment == committed.slot_segment);
        assert forall|row: u64| #[trigger] after.latest.dom().contains(row) implies exists|i: int|
            0 <= i < count && (#[trigger] decoded[i]).0.rowid == row by {
            if row == slot.rowid {
                assert(decoded[last as int].0.rowid == row);
            } else {
                assert(before.latest.dom().contains(row));
                let i = choose|i: int| 0 <= i < last && (#[trigger] decoded[i]).0.rowid == row;
                assert(decoded[i].0.rowid == row);
            }
        }
    }
}

proof fn lemma_segment_filled(
    slot_segment: Seq<Option<u32>>,
    remap: Seq<u32>,
    segment_id: u32,
    count: nat,
    at: int,
)
    requires
        count <= remap.len(),
        0 <= at < slot_segment.len(),
    ensures
        segment_filled(slot_segment, remap, segment_id, count).len() == slot_segment.len(),
        (exists|i: int| 0 <= i < count && #[trigger] remap[i] == at) ==> segment_filled(
            slot_segment,
            remap,
            segment_id,
            count,
        )[at] == Some(segment_id),
        !(exists|i: int| 0 <= i < count && #[trigger] remap[i] == at) ==> segment_filled(
            slot_segment,
            remap,
            segment_id,
            count,
        )[at] == slot_segment[at],
    decreases count,
{
    if count > 0 {
        lemma_segment_filled(slot_segment, remap, segment_id, (count - 1) as nat, at);
        if exists|i: int| 0 <= i < count && #[trigger] remap[i] == at {
            let i = choose|i: int| 0 <= i < count && #[trigger] remap[i] == at;
            if i < count - 1 {
                assert(exists|k: int| 0 <= k < count - 1 && #[trigger] remap[k] == at);
            }
        } else {
            assert(remap[count - 1] != at);
        }
    }
}

/// After recovery every version belongs to the segment it was read from: none is taken for
/// unwritten.
pub proof fn recovered_slots_belong_to_segments(
    slot_segment: Seq<Option<u32>>,
    versions: Seq<(VersionRow, usize)>,
    row_counts: Seq<usize>,
    parsed_ids: Seq<u32>,
    remaps: Seq<SegmentRemap>,
    count: nat,
    at: int,
)
    requires
        forall|p: int| 0 <= p < versions.len() ==> (#[trigger] versions[p]).1 < row_counts.len(),
        forall|p: int|
            0 <= p < versions.len() ==> (#[trigger] versions[p]).0.slot_id
                < row_counts[versions[p].1 as int],
        parsed_ids.len() == row_counts.len(),
        crate::remap::all_slots_referenced(versions, row_counts),
        crate::remap::remaps_follow(versions, row_counts, parsed_ids, remaps),
        slot_segment.len() == versions.len(),
        count <= remaps.len(),
        0 <= at < versions.len(),
    ensures
        segments_filled(slot_segment, remaps, count).len() == slot_segment.len(),
        versions[at].1 < count ==> segments_filled(slot_segment, remaps, count)[at] == Some(
            parsed_ids[versions[at].1 as int],
        ),
    decreases count,
{
    if count > 0 {
        let s = count - 1;
        recovered_slots_belong_to_segments(
            slot_segment,
            versions,
            row_counts,
            parsed_ids,
            remaps,
            s as nat,
            at,
        );
        let before = segments_filled(slot_segment, remaps, s as nat);
        let remap = remaps[s].remap@;
        lemma_segment_filled(before, remap, remaps[s].segment_id, remap.len(), at);
        if versions[at].1 == s {
            assert(remap[versions[at].0.slot_id as int] == at);
        } else {
            assert forall|i: int| 0 <= i < remap.len() implies #[trigger] remap[i] != at by {
                crate::remap::remaps_are_bijective(
                    versions,
                    row_counts,
                    parsed_ids,
                    remaps,
                    s,
                    i,
                    s,
                    i,
                );
            }
        }
    }
}

/// The bloom filter that covers the keys is one of a field of strings, and no filter before it is.
pub proof fn key_bloom_is_the_first_of_strings(
    blooms: Seq<u16>,
    fields: Seq<FieldDef>,
    at: int,
    earlier: int,
    field: int,
)
    requires
        key_bloom_at(blooms, fields, at),
    ensures
        0 <= at < blooms.len(),
        exists|f: int|
            0 <= f < fields.len() && (#[trigger] fields[f]).is_str && fields[f].id == blooms[at],
        0 <= earlier < at && 0 <= field < fields.len() && fields[field].is_str ==> fields[field].id
            != blooms[earlier],
{
    if 0 <= earlier < at && 0 <= field < fields.len() && fields[field].is_str {
        assert(!is_str_field(fields, blooms[earlier]));
    }
}

} // verus!
