//! From the slots of a segment to the slots of the recovered state.

use vstd::prelude::*;

use crate::error::{corrupted, Fault, LimitField, MnemeError};
use crate::order::Ordered;

verus! {

/// A row of the version table of a segment.
#[derive(Clone, Copy, Debug, PartialEq, Eq, Structural)]
pub struct VersionRow {
    pub rowid: u64,
    pub seqno: u64,
    pub tx_ms: i64,
    /// The slot of the segment that holds the version.
    pub slot_id: u32,
    /// Where the record of the version lies in the metadata file.
    pub doc_offset: u64,
}

/// A version row and the parsed segment that it comes from. Versions are ordered by row and
/// commit number.
impl Ordered for (VersionRow, usize) {
    open spec fn leq(&self, other: &Self) -> bool {
        self.0.rowid < other.0.rowid || (self.0.rowid == other.0.rowid && self.0.seqno
            <= other.0.seqno)
    }

    proof fn leq_total(a: &Self, b: &Self) {
    }

    proof fn leq_transitive(a: &Self, b: &Self, c: &Self) {
    }

    fn at_most(&self, other: &Self) -> (result: bool) {
        self.0.rowid < other.0.rowid || (self.0.rowid == other.0.rowid && self.0.seqno
            <= other.0.seqno)
    }
}

/// For one segment: the recovered slot of each of its slots.
#[derive(Debug)]
pub struct SegmentRemap {
    pub segment_id: u32,
    pub remap: Vec<u32>,
}

/// Whether two versions of the list claim the same slot.
pub open spec fn same_slot(versions: Seq<(VersionRow, usize)>, a: int, b: int) -> bool {
    versions[a].1 == versions[b].1 && versions[a].0.slot_id == versions[b].0.slot_id
}

/// Whether the version at `at` names a slot that is not there or that an earlier version claims.
pub open spec fn bad_slot(
    versions: Seq<(VersionRow, usize)>,
    row_counts: Seq<usize>,
    at: int,
) -> bool {
    versions[at].0.slot_id >= row_counts[versions[at].1 as int] || exists|earlier: int|
        0 <= earlier < at && #[trigger] same_slot(versions, earlier, at)
}

/// Whether a version of the list holds a slot.
pub open spec fn is_referenced(
    versions: Seq<(VersionRow, usize)>,
    count: int,
    segment: int,
    slot: int,
) -> bool {
    exists|p: int|
        0 <= p < count && (#[trigger] versions[p]).1 == segment && versions[p].0.slot_id == slot
}

/// How many recovered slots a 32-bit number can tell apart.
pub open spec fn position_limit() -> int {
    u32::MAX + 1
}

/// Whether every slot of every segment belongs to a version.
pub open spec fn all_slots_referenced(
    versions: Seq<(VersionRow, usize)>,
    row_counts: Seq<usize>,
) -> bool {
    forall|segment: int, slot: int|
        0 <= segment < row_counts.len() && 0 <= slot < row_counts[segment]
            ==> #[trigger] is_referenced(versions, versions.len() as int, segment, slot)
}

/// Whether `remaps` sends the slot of every version to the position of the version.
pub open spec fn remaps_follow(
    versions: Seq<(VersionRow, usize)>,
    row_counts: Seq<usize>,
    parsed_ids: Seq<u32>,
    remaps: Seq<SegmentRemap>,
) -> bool {
    &&& remaps.len() == (if parsed_ids.len() <= row_counts.len() {
        parsed_ids.len()
    } else {
        row_counts.len()
    })
    &&& forall|s: int|
        0 <= s < remaps.len() ==> (#[trigger] remaps[s]).segment_id == parsed_ids[s]
            && remaps[s].remap@.len() == row_counts[s]
    &&& forall|p: int|
        0 <= p < versions.len() && (#[trigger] versions[p]).1 < remaps.len()
            ==> remaps[versions[p].1 as int].remap@[versions[p].0.slot_id as int] == p
}

/// What `build_remaps` owes for its input.
pub open spec fn remap_outcome(
    versions: Seq<(VersionRow, usize)>,
    row_counts: Seq<usize>,
    parsed_ids: Seq<u32>,
    result: Result<Vec<SegmentRemap>, MnemeError>,
) -> bool {
    if exists|p: int|
        0 <= p < versions.len() && p <= position_limit() && #[trigger] bad_slot(
            versions,
            row_counts,
            p,
        ) {
        result == Err::<Vec<SegmentRemap>, MnemeError>(
            corrupted(Fault::SlotOutOfRangeOrRepeated),
        )
    } else if versions.len() > position_limit() {
        result == Err::<Vec<SegmentRemap>, MnemeError>(
            MnemeError::LimitExceeded {
                field: LimitField::RemapPosition,
                limit: u32::MAX as usize,
                got: position_limit() as usize,
            },
        )
    } else if !all_slots_referenced(versions, row_counts) {
        result == Err::<Vec<SegmentRemap>, MnemeError>(corrupted(Fault::SlotUnreferenced))
    } else {
        result matches Ok(remaps) && remaps_follow(versions, row_counts, parsed_ids, remaps@)
    }
}

/// A table with a row of `count` equal values for each count.
fn filled<T: Copy>(counts: &Vec<usize>, value: T) -> (rows: Vec<Vec<T>>)
    ensures
        rows.len() == counts.len(),
        forall|s: int|
            0 <= s < rows.len() ==> (#[trigger] rows@[s])@ == Seq::new(
                counts@[s] as nat,
                |i: int| value,
            ),
{
    let mut rows: Vec<Vec<T>> = Vec::new();
    let mut s: usize = 0;
    while s < counts.len()
        invariant
            s <= counts.len(),
            rows.len() == s,
            forall|k: int|
                0 <= k < rows.len() ==> (#[trigger] rows@[k])@ == Seq::new(
                    counts@[k] as nat,
                    |i: int| value,
                ),
        decreases counts.len() - s,
    {
        let mut row: Vec<T> = Vec::new();
        let count: usize = counts[s];
        let mut i: usize = 0;
        while i < count
            invariant
                i <= count,
                row@ == Seq::new(i as nat, |i: int| value),
            decreases count - i,
        {
            row.push(value);
            assert(row@ =~= Seq::new((i + 1) as nat, |i: int| value));
            i = i + 1;
        }
        rows.push(row);
        s = s + 1;
    }
    rows
}

/// Whether a slot is marked in none of the rows.
fn all_marked(rows: &Vec<Vec<bool>>) -> (all: bool)
    ensures
        all == (forall|s: int, i: int|
            0 <= s < rows@.len() && 0 <= i < rows@[s]@.len() ==> #[trigger] rows@[s]@[i]),
{
    let mut s: usize = 0;
    while s < rows.len()
        invariant
            s <= rows.len(),
            forall|k: int, i: int|
                0 <= k < s && 0 <= i < rows@[k]@.len() ==> #[trigger] rows@[k]@[i],
        decreases rows.len() - s,
    {
        let mut i: usize = 0;
        while i < rows[s].len()
            invariant
                s < rows.len(),
                i <= rows@[s as int]@.len(),
                forall|k: int| 0 <= k < i ==> #[trigger] rows@[s as int]@[k],
            decreases rows@[s as int]@.len() - i,
        {
            if !rows[s][i] {
                assert(!rows@[s as int]@[i as int]);
                return false;
            }
            i = i + 1;
        }
        s = s + 1;
    }
    true
}

/// Builds, for every parsed segment, the map from its slots to the recovered slots.
///
/// The version at position `p` of the ordered list becomes the recovered slot `p`. A slot that no
/// version holds is an error: it would otherwise be taken for slot 0.
pub fn build_remaps(
    versions: &Vec<(VersionRow, usize)>,
    row_counts: &Vec<usize>,
    parsed_ids: &Vec<u32>,
) -> (result: Result<Vec<SegmentRemap>, MnemeError>)
    requires
        forall|p: int| 0 <= p < versions@.len() ==> (#[trigger] versions@[p]).1 < row_counts@.len(),
    ensures
        remap_outcome(versions@, row_counts@, parsed_ids@, result),
{
    let mut remaps: Vec<Vec<u32>> = filled(row_counts, 0u32);
    let mut occupied: Vec<Vec<bool>> = filled(row_counts, false);
    let mut p: usize = 0;
    while p < versions.len()
        invariant
            p <= versions.len(),
            p <= position_limit(),
            forall|q: int|
                0 <= q < versions@.len() ==> (#[trigger] versions@[q]).1 < row_counts@.len(),
            remaps@.len() == row_counts@.len(),
            occupied@.len() == row_counts@.len(),
            forall|s: int|
                0 <= s < row_counts@.len() ==> (#[trigger] remaps@[s])@.len() == row_counts@[s],
            forall|s: int|
                0 <= s < row_counts@.len() ==> (#[trigger] occupied@[s])@.len() == row_counts@[s],
            forall|s: int, i: int|
                0 <= s < row_counts@.len() && 0 <= i < row_counts@[s]
                    ==> (#[trigger] occupied@[s]@[i]
                    == is_referenced(versions@, p as int, s, i)),
            forall|q: int|
                0 <= q < p
                    ==> remaps@[(#[trigger] versions@[q]).1 as int]@[versions@[q].0.slot_id as int]
                    == q,
            forall|q: int| 0 <= q < p ==> !#[trigger] bad_slot(versions@, row_counts@, q),
        decreases versions.len() - p,
    {
        let (row, segment) = versions[p];
        let index: usize = row.slot_id as usize;
        if index >= remaps[segment].len() || occupied[segment][index] {
            proof {
                if index < row_counts@[segment as int] {
                    assert(occupied@[segment as int]@[index as int]);
                    let q = choose|q: int|
                        0 <= q < p && (#[trigger] versions@[q]).1 == segment
                            && versions@[q].0.slot_id == index;
                    assert(same_slot(versions@, q, p as int));
                }
                assert(bad_slot(versions@, row_counts@, p as int));
            }
            return Err(
                MnemeError::Corrupted { segment: None, reason: Fault::SlotOutOfRangeOrRepeated },
            );
        }
        proof {
            assert(!occupied@[segment as int]@[index as int]);
            assert(!bad_slot(versions@, row_counts@, p as int)) by {
                if exists|q: int| 0 <= q < p && #[trigger] same_slot(versions@, q, p as int) {
                    let q = choose|q: int|
                        0 <= q < p && #[trigger] same_slot(versions@, q, p as int);
                    assert(versions@[q].1 == segment);
                    assert(is_referenced(versions@, p as int, segment as int, index as int));
                }
            }
        }
        if p > u32::MAX as usize {
            return Err(
                MnemeError::LimitExceeded {
                    field: LimitField::RemapPosition,
                    limit: u32::MAX as usize,
                    got: p,
                },
            );
        }
        let ghost before_marks = occupied@;
        let ghost before_remaps = remaps@;
        let mut marks: Vec<bool> = Vec::new();
        std::mem::swap(&mut marks, &mut occupied[segment]);
        marks.set(index, true);
        occupied.set(segment, marks);
        let mut targets: Vec<u32> = Vec::new();
        std::mem::swap(&mut targets, &mut remaps[segment]);
        targets.set(index, p as u32);
        remaps.set(segment, targets);
        proof {
            assert(occupied@[segment as int]@ == before_marks[segment as int]@.update(
                index as int,
                true,
            ));
            assert(remaps@[segment as int]@ == before_remaps[segment as int]@.update(
                index as int,
                p as u32,
            ));
            assert forall|s: int, i: int|
                0 <= s < row_counts@.len() && 0 <= i < row_counts@[s] implies (
            #[trigger] occupied@[s]@[i] == is_referenced(versions@, p + 1, s, i)) by {
                assert(before_marks[s]@[i] == is_referenced(versions@, p as int, s, i));
                if s == segment && i == index {
                    assert(versions@[p as int].1 == s && versions@[p as int].0.slot_id == i);
                } else {
                    if is_referenced(versions@, p + 1, s, i) {
                        let q = choose|q: int|
                            0 <= q < p + 1 && (#[trigger] versions@[q]).1 == s
                                && versions@[q].0.slot_id == i;
                        assert(q < p);
                    }
                    if is_referenced(versions@, p as int, s, i) {
                        let q = choose|q: int|
                            0 <= q < p && (#[trigger] versions@[q]).1 == s
                                && versions@[q].0.slot_id == i;
                        assert(versions@[q].1 == s);
                    }
                }
            }
            assert forall|q: int|
                0 <= q < p + 1 implies remaps@[(#[trigger] versions@[q]).1 as int]@[versions@[q].0
            .slot_id as int] == q by {
                if q < p {
                    assert(!same_slot(versions@, q, p as int));
                    assert(!bad_slot(versions@, row_counts@, q));
                }
            }
        }
        p = p + 1;
    }
    if !all_marked(&occupied) {
        proof {
            let (s, i) = choose|s: int, i: int|
                0 <= s < occupied@.len() && 0 <= i < occupied@[s]@.len() && !(
                #[trigger] occupied@[s]@[i]);
            assert(!is_referenced(versions@, versions@.len() as int, s, i));
        }
        return Err(MnemeError::Corrupted { segment: None, reason: Fault::SlotUnreferenced });
    }
    proof {
        assert forall|segment: int, slot: int|
            0 <= segment < row_counts@.len() && 0 <= slot < row_counts@[segment] implies
            #[trigger] is_referenced(versions@, versions@.len() as int, segment, slot) by {
            assert(occupied@[segment]@[slot]);
        }
    }
    let ghost rows = remaps@;
    let mut result: Vec<SegmentRemap> = Vec::new();
    let mut s: usize = 0;
    while s < parsed_ids.len() && s < remaps.len()
        invariant
            s <= parsed_ids.len(),
            s <= remaps.len(),
            remaps@.len() == rows.len(),
            result.len() == s,
            forall|k: int|
                0 <= k < s ==> (#[trigger] result@[k]).segment_id == parsed_ids@[k]
                    && result@[k].remap@ == rows[k]@,
            forall|k: int| s <= k < rows.len() ==> (#[trigger] remaps@[k])@ == rows[k]@,
        decreases parsed_ids.len() - s,
    {
        let mut row: Vec<u32> = Vec::new();
        std::mem::swap(&mut row, &mut remaps[s]);
        result.push(SegmentRemap { segment_id: parsed_ids[s], remap: row });
        s = s + 1;
    }
    Ok(result)
}

/// The maps of all segments together hit every recovered slot exactly once: each recovered slot
/// is the target of the slot of its own version, and no two slots share a target.
pub proof fn remaps_are_bijective(
    versions: Seq<(VersionRow, usize)>,
    row_counts: Seq<usize>,
    parsed_ids: Seq<u32>,
    remaps: Seq<SegmentRemap>,
    segment: int,
    slot: int,
    other_segment: int,
    other_slot: int,
)
    requires
        forall|p: int| 0 <= p < versions.len() ==> (#[trigger] versions[p]).1 < row_counts.len(),
        parsed_ids.len() == row_counts.len(),
        all_slots_referenced(versions, row_counts),
        remaps_follow(versions, row_counts, parsed_ids, remaps),
        0 <= segment < row_counts.len(),
        0 <= slot < row_counts[segment],
        0 <= other_segment < row_counts.len(),
        0 <= other_slot < row_counts[other_segment],
    ensures
        remaps[segment].remap@[slot] < versions.len(),
        versions[remaps[segment].remap@[slot] as int].1 == segment,
        versions[remaps[segment].remap@[slot] as int].0.slot_id == slot,
        remaps[segment].remap@[slot] == remaps[other_segment].remap@[other_slot] ==> segment
            == other_segment && slot == other_slot,
{
    assert(is_referenced(versions, versions.len() as int, segment, slot));
    assert(is_referenced(versions, versions.len() as int, other_segment, other_slot));
    let p = choose|p: int|
        0 <= p < versions.len() && (#[trigger] versions[p]).1 == segment && versions[p].0.slot_id
            == slot;
    let q = choose|q: int|
        0 <= q < versions.len() && (#[trigger] versions[q]).1 == other_segment
            && versions[q].0.slot_id == other_slot;
    assert(remaps[segment].remap@[slot] == p);
    assert(remaps[other_segment].remap@[other_slot] == q);
}

/// Recovery maps slots only where they are sound: every version has a slot that its segment has, no
/// two versions of a segment share one, and no slot is left without a version. Where all of that
/// holds and the positions suffice, the slots are mapped.
pub proof fn only_sound_slots_are_mapped(
    versions: Seq<(VersionRow, usize)>,
    row_counts: Seq<usize>,
    parsed_ids: Seq<u32>,
    result: Result<Vec<SegmentRemap>, MnemeError>,
    a: int,
    b: int,
    segment: int,
    slot: int,
)
    requires
        remap_outcome(versions, row_counts, parsed_ids, result),
    ensures
        result is Ok && 0 <= a < versions.len() ==> versions[a].0.slot_id
            < row_counts[versions[a].1 as int],
        result is Ok && 0 <= a < b < versions.len() ==> versions[a].1 != versions[b].1
            || versions[a].0.slot_id != versions[b].0.slot_id,
        result is Ok && 0 <= segment < row_counts.len() && 0 <= slot < row_counts[segment]
            ==> exists|p: int|
            0 <= p < versions.len() && (#[trigger] versions[p]).1 == segment
                && versions[p].0.slot_id == slot,
        result is Ok ==> versions.len() <= u32::MAX + 1,
        versions.len() <= u32::MAX + 1 && (forall|p: int|
            0 <= p < versions.len() ==> (#[trigger] versions[p]).0.slot_id
                < row_counts[versions[p].1 as int]) && (forall|p: int, q: int|
            #![trigger versions[p], versions[q]]
            0 <= p < q < versions.len() ==> versions[p].1 != versions[q].1
                || versions[p].0.slot_id != versions[q].0.slot_id) && (forall|s: int, i: int|
            #![trigger is_referenced(versions, versions.len() as int, s, i)]
            0 <= s < row_counts.len() && 0 <= i < row_counts[s] ==> exists|p: int|
                0 <= p < versions.len() && (#[trigger] versions[p]).1 == s
                    && versions[p].0.slot_id == i) ==> result is Ok,
{
    if result is Ok {
        if 0 <= a < versions.len() {
            assert(!bad_slot(versions, row_counts, a));
        }
        if 0 <= a < b < versions.len() {
            assert(!bad_slot(versions, row_counts, b));
            assert(same_slot(versions, a, b) ==> bad_slot(versions, row_counts, b));
        }
        if 0 <= segment < row_counts.len() && 0 <= slot < row_counts[segment] {
            assert(is_referenced(versions, versions.len() as int, segment, slot));
        }
    }
}

} // verus!
