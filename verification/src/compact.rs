//! Merging segments: a group of segments is replaced by one that holds what survives of them.

use vstd::multiset::Multiset;
use vstd::prelude::*;

use crate::commit::{
    in_segment, install_graph, install_segment, lemma_segment_paths_apart, new_graph,
    only_segment_changed, placed, segment_fails, segment_passes, segment_settled, segment_written,
    write_segment_files,
};
use crate::error::{Feature, Inconsistency, MnemeError, SegmentFile};
use crate::hidx::{graph_models, BuiltGraph, SegmentIndex};
use crate::hook::FsyncHook;
use crate::layout::{
    library_paths_stay_below, manifest_file, segment_file, segment_name, segment_path,
    segment_paths_differ, segment_rel, CURRENT_FILE, SEGMENTS_DIR,
};
use crate::manifest::{copied_rel_kinds, Manifest, ManifestView, SegmentEntry};
use crate::manifest_io::{
    commit_manifest, commit_passes, commit_refused, commit_touches, commit_writes, current_of,
    holds_encoded, is_committed, is_newest, names_version,
};
use crate::segment::DeltaEntry;
use crate::snapshot::{
    describes, manifest_namespaces, segment_entry, slots_exist, widened_namespaces, BuildJob,
    EncodedSegment,
};
use crate::state::{lists_registry, StateModel, WriterState};
use crate::storage::{
    dir_prefix, failures_of, not_found, same_at, temporary_of, FailureSet, FileMap, PathSet, Step,
    Storage,
};
use crate::store::{lemma_segment_path_apart, Store};
use crate::trash::{
    in_trash, lemma_moved, lemma_purged, move_to_trash, moved, names_segment, path_of, purge,
};

verus! {

/// Which segments are merged.
#[derive(Debug)]
pub struct CompactionPlan {
    pub segments: Vec<u32>,
}

/// Whether a manifest has a segment of this number.
pub open spec fn is_active(segments: Seq<SegmentEntry>, segment_id: u32) -> bool {
    exists|i: int| 0 <= i < segments.len() && (#[trigger] segments[i]).segment_id == segment_id
}

/// Whether an entry is the first of the manifest with this number.
pub open spec fn is_first_entry(
    segments: Seq<SegmentEntry>,
    segment_id: u32,
    entry: SegmentEntry,
) -> bool {
    exists|i: int|
        0 <= i < segments.len() && #[trigger] segments[i] == entry && entry.segment_id == segment_id
            && forall|k: int| 0 <= k < i ==> (#[trigger] segments[k]).segment_id != segment_id
}

/// What the group of a plan is: the entries of its segments, in its order. A plan that names a
/// segment that is not there, or none at all, does not fit the manifest.
pub open spec fn group_outcome(
    segments: Seq<SegmentEntry>,
    plan: Seq<u32>,
    result: Result<Vec<SegmentEntry>, MnemeError>,
) -> bool {
    match result {
        Ok(group) => plan.len() > 0 && group@.len() == plan.len() && forall|i: int|
            0 <= i < plan.len() ==> is_first_entry(segments, plan[i], #[trigger] group@[i]),
        Err(error) => if plan.len() == 0 {
            error == (MnemeError::Inconsistent { reason: Inconsistency::PlanEmpty })
        } else {
            error == (MnemeError::Inconsistent { reason: Inconsistency::PlanSegmentInactive })
                && exists|i: int|
                0 <= i < plan.len() && !is_active(segments, #[trigger] plan[i])
        },
    }
}

/// The first segment of a manifest with a number.
fn find_segment(segments: &Vec<SegmentEntry>, segment_id: u32) -> (found: Option<SegmentEntry>)
    ensures
        match found {
            Some(entry) => is_first_entry(segments@, segment_id, entry),
            None => !is_active(segments@, segment_id),
        },
{
    let mut i: usize = 0;
    while i < segments.len()
        invariant
            i <= segments@.len(),
            forall|k: int| 0 <= k < i ==> (#[trigger] segments@[k]).segment_id != segment_id,
        decreases segments@.len() - i,
    {
        if segments[i].segment_id == segment_id {
            assert(segments@[i as int] == segments@[i as int]);
            return Some(segments[i]);
        }
        i = i + 1;
    }
    None
}

/// Finds the group of a plan in the manifest.
pub fn resolve_group(previous: &Manifest, plan: &CompactionPlan) -> (result: Result<
    Vec<SegmentEntry>,
    MnemeError,
>)
    ensures
        group_outcome(previous.segments@, plan.segments@, result),
{
    let mut group: Vec<SegmentEntry> = Vec::new();
    let mut i: usize = 0;
    while i < plan.segments.len()
        invariant
            i <= plan.segments@.len(),
            group@.len() == i,
            forall|k: int|
                0 <= k < i ==> is_first_entry(
                    previous.segments@,
                    plan.segments@[k],
                    #[trigger] group@[k],
                ),
        decreases plan.segments@.len() - i,
    {
        match find_segment(&previous.segments, plan.segments[i]) {
            Some(entry) => {
                group.push(entry);
            },
            None => {
                assert(!is_active(previous.segments@, plan.segments@[i as int]));
                return Err(
                    MnemeError::Inconsistent { reason: Inconsistency::PlanSegmentInactive },
                );
            },
        }
        i = i + 1;
    }
    if group.len() == 0 {
        return Err(MnemeError::Inconsistent { reason: Inconsistency::PlanEmpty });
    }
    Ok(group)
}

/// Whether what a segment records about a row must be carried over: the merged segment does not
/// hold the latest version of the row.
pub open spec fn is_carried(state: StateModel, keep: Seq<usize>, entry: DeltaEntry) -> bool {
    entry matches DeltaEntry::Access { rowid, .. } && !(state.latest.dom().contains(rowid)
        && keep.contains(state.latest[rowid] as usize))
}

/// The entries among the first `count` that must be carried over.
pub open spec fn carried_of(
    state: StateModel,
    keep: Seq<usize>,
    entries: Seq<DeltaEntry>,
    count: nat,
) -> Seq<DeltaEntry>
    decreases count,
{
    if count == 0 {
        Seq::empty()
    } else {
        let before = carried_of(state, keep, entries, (count - 1) as nat);
        if is_carried(state, keep, entries[count - 1]) {
            before.push(entries[count - 1])
        } else {
            before
        }
    }
}

/// The entries that must be carried over from the first `count` segments.
pub open spec fn carried_all(
    state: StateModel,
    keep: Seq<usize>,
    deltas: Seq<Vec<DeltaEntry>>,
    count: nat,
) -> Seq<DeltaEntry>
    decreases count,
{
    if count == 0 {
        Seq::empty()
    } else {
        carried_all(state, keep, deltas, (count - 1) as nat) + carried_of(
            state,
            keep,
            deltas[count - 1]@,
            deltas[count - 1]@.len(),
        )
    }
}

fn holds_slot(keep: &Vec<usize>, slot: usize) -> (found: bool)
    ensures
        found == keep@.contains(slot),
{
    let mut i: usize = 0;
    while i < keep.len()
        invariant
            i <= keep@.len(),
            forall|k: int| 0 <= k < i ==> keep@[k] != slot,
        decreases keep@.len() - i,
    {
        if keep[i] == slot {
            assert(keep@[i as int] == slot);
            return true;
        }
        i = i + 1;
    }
    false
}

/// Appends the entries of one segment that must be carried over.
fn carry_from(
    state: &WriterState,
    keep: &Vec<usize>,
    entries: &Vec<DeltaEntry>,
    carried: &mut Vec<DeltaEntry>,
)
    requires
        state.wf(),
    ensures
        final(carried)@ == old(carried)@ + carried_of(state@, keep@, entries@, entries@.len()),
{
    let ghost start = carried@;
    let mut i: usize = 0;
    assert(start + Seq::<DeltaEntry>::empty() =~= start);
    while i < entries.len()
        invariant
            state.wf(),
            start == old(carried)@,
            i <= entries@.len(),
            carried@ == start + carried_of(state@, keep@, entries@, i as nat),
        decreases entries@.len() - i,
    {
        let ghost before = carried@;
        match &entries[i] {
            DeltaEntry::Access { seqno, rowid, last_access_ms, access_delta, importance_delta } => {
                let held: bool = match state.latest_of(*rowid) {
                    Some(latest) => holds_slot(keep, latest as usize),
                    None => false,
                };
                if !held {
                    let copy = DeltaEntry::Access {
                        seqno: *seqno,
                        rowid: *rowid,
                        last_access_ms: *last_access_ms,
                        access_delta: *access_delta,
                        importance_delta: *importance_delta,
                    };
                    assert(copy == entries@[i as int]);
                    carried.push(copy);
                }
            },
            _ => {},
        }
        proof {
            let earlier = carried_of(state@, keep@, entries@, i as nat);
            if is_carried(state@, keep@, entries@[i as int]) {
                assert(start + earlier.push(entries@[i as int]) =~= before.push(entries@[i as int]));
            }
            assert(carried@ =~= start + carried_of(state@, keep@, entries@, (i + 1) as nat));
        }
        i = i + 1;
    }
}

/// Whether `read` may give these entries for the metadata file of a segment.
pub open spec fn reads_delta<R: Fn(u32, Vec<u8>) -> Result<Vec<DeltaEntry>, MnemeError>>(
    files: FileMap,
    read: R,
    segment_id: u32,
    outcome: Result<Vec<DeltaEntry>, MnemeError>,
) -> bool {
    files.dom().contains(segment_path(SegmentFile::Msec, segment_id)) && exists|raw: Vec<u8>|
        raw@ == files[segment_path(SegmentFile::Msec, segment_id)] && #[trigger] read.ensures(
            (segment_id, raw),
            outcome,
        )
}

/// Whether these are the deltas of the segments of a group.
pub open spec fn are_deltas<R: Fn(u32, Vec<u8>) -> Result<Vec<DeltaEntry>, MnemeError>>(
    files: FileMap,
    read: R,
    group: Seq<SegmentEntry>,
    deltas: Seq<Vec<DeltaEntry>>,
) -> bool {
    deltas.len() == group.len() && forall|i: int|
        0 <= i < group.len() ==> reads_delta(
            files,
            read,
            group[i].segment_id,
            Ok(#[trigger] deltas[i]),
        )
}

/// Whether the deltas before the first that cannot be read are these, and that one fails with this
/// error.
pub open spec fn reading_stops<R: Fn(u32, Vec<u8>) -> Result<Vec<DeltaEntry>, MnemeError>>(
    failures: FailureSet,
    files: FileMap,
    read: R,
    group: Seq<SegmentEntry>,
    deltas: Seq<Vec<DeltaEntry>>,
    error: MnemeError,
) -> bool {
    &&& deltas.len() < group.len()
    &&& forall|i: int|
        0 <= i < deltas.len() ==> reads_delta(
            files,
            read,
            group[i].segment_id,
            Ok(#[trigger] deltas[i]),
        )
    &&& delta_fails(failures, files, read, group[deltas.len() as int].segment_id, error)
}

/// Whether the first delta of a group that cannot be read may fail so: the metadata file of a
/// segment is not there, or `read` rejects it.
pub open spec fn read_fails<R: Fn(u32, Vec<u8>) -> Result<Vec<DeltaEntry>, MnemeError>>(
    failures: FailureSet,
    files: FileMap,
    read: R,
    group: Seq<SegmentEntry>,
    error: MnemeError,
) -> bool {
    exists|deltas: Seq<Vec<DeltaEntry>>| #[trigger]
        reading_stops(failures, files, read, group, deltas, error)
}

/// Whether the delta of a segment may fail to be read so.
pub open spec fn delta_fails<R: Fn(u32, Vec<u8>) -> Result<Vec<DeltaEntry>, MnemeError>>(
    failures: FailureSet,
    files: FileMap,
    read: R,
    segment_id: u32,
    error: MnemeError,
) -> bool {
    ||| !files.dom().contains(segment_path(SegmentFile::Msec, segment_id)) && error == not_found()
    ||| reads_delta(files, read, segment_id, Err(error))
    ||| failures.contains((Step::Read, error))
}

/// Gathers what the segments of a group record about rows whose latest version the merged segment
/// does not hold. Without it, those accesses would be lost.
pub fn carried_access_deltas<
    S: Storage,
    R: Fn(u32, Vec<u8>) -> Result<Vec<DeltaEntry>, MnemeError>,
>(storage: &S, group: &Vec<SegmentEntry>, state: &WriterState, keep: &Vec<usize>, read: &R) -> (result:
    Result<Vec<DeltaEntry>, MnemeError>)
    requires
        storage.wf(),
        state.wf(),
        forall|id: u32, raw: Vec<u8>| read.requires((id, raw)),
    ensures
        result matches Ok(carried) ==> exists|deltas: Seq<Vec<DeltaEntry>>| #[trigger]
            are_deltas(storage.files(), *read, group@, deltas) && carried@ == carried_all(
                state@,
                keep@,
                deltas,
                deltas.len(),
            ),
        result matches Err(error) ==> read_fails(
            failures_of(*storage),
            storage.files(),
            *read,
            group@,
            error,
        ),
{
    let mut carried: Vec<DeltaEntry> = Vec::new();
    let ghost mut deltas: Seq<Vec<DeltaEntry>> = Seq::empty();
    let mut i: usize = 0;
    while i < group.len()
        invariant
            storage.wf(),
            state.wf(),
            forall|id: u32, raw: Vec<u8>| read.requires((id, raw)),
            i <= group@.len(),
            deltas.len() == i,
            forall|k: int|
                0 <= k < i ==> reads_delta(
                    storage.files(),
                    *read,
                    group@[k].segment_id,
                    Ok(#[trigger] deltas[k]),
                ),
            carried@ == carried_all(state@, keep@, deltas, i as nat),
        decreases group@.len() - i,
    {
        let id: u32 = group[i].segment_id;
        proof {
            library_paths_stay_below(SegmentFile::Msec, id, 0, 0);
            assert(group@[i as int].segment_id == id);
        }
        let rel = segment_rel(SegmentFile::Msec, id);
        let bytes = match storage.read_file(rel.as_str()) {
            Ok(bytes) => bytes,
            Err(error) => {
                assert(reading_stops(
                    failures_of(*storage),
                    storage.files(),
                    *read,
                    group@,
                    deltas,
                    error,
                ));
                return Err(error);
            },
        };
        let ghost raw = bytes;
        let outcome = read(id, bytes);
        assert(reads_delta(storage.files(), *read, id, outcome)) by {
            assert(read.ensures((id, raw), outcome));
        }
        let entries = match outcome {
            Ok(entries) => entries,
            Err(error) => {
                assert(reading_stops(
                    failures_of(*storage),
                    storage.files(),
                    *read,
                    group@,
                    deltas,
                    error,
                ));
                return Err(error);
            },
        };
        carry_from(state, keep, &entries, &mut carried);
        proof {
            let before = deltas;
            deltas = deltas.push(entries);
            lemma_carried_prefix(state@, keep@, before, deltas, i as nat);
            assert forall|k: int| 0 <= k < i + 1 implies reads_delta(
                storage.files(),
                *read,
                group@[k].segment_id,
                Ok(#[trigger] deltas[k]),
            ) by {
                if k < i {
                    assert(deltas[k] == before[k]);
                }
            }
        }
        i = i + 1;
    }
    assert(are_deltas(storage.files(), *read, group@, deltas));
    Ok(carried)
}

proof fn lemma_carried_prefix(
    state: StateModel,
    keep: Seq<usize>,
    a: Seq<Vec<DeltaEntry>>,
    b: Seq<Vec<DeltaEntry>>,
    count: nat,
)
    requires
        count <= a.len(),
        count <= b.len(),
        forall|k: int| 0 <= k < count ==> a[k] == b[k],
    ensures
        carried_all(state, keep, a, count) == carried_all(state, keep, b, count),
    decreases count,
{
    if count > 0 {
        lemma_carried_prefix(state, keep, a, b, (count - 1) as nat);
    }
}

/// The names of the files of segments, three for each.
pub open spec fn files_of(segments: Seq<u32>) -> Seq<Seq<char>> {
    Seq::new(
        3 * segments.len(),
        |i: int|
            if i % 3 == 0 {
                segment_file(SegmentFile::Vsec, segments[i / 3])
            } else if i % 3 == 1 {
                segment_file(SegmentFile::Msec, segments[i / 3])
            } else {
                segment_file(SegmentFile::Hidx, segments[i / 3])
            },
    )
}

/// Names the files of the segments that a merge replaced.
pub fn old_segment_names(plan: &CompactionPlan) -> (names: Vec<String>)
    ensures
        names@.len() == files_of(plan.segments@).len(),
        forall|i: int|
            0 <= i < names@.len() ==> (#[trigger] names@[i])@ == files_of(plan.segments@)[i],
{
    let mut names: Vec<String> = Vec::new();
    let mut i: usize = 0;
    while i < plan.segments.len()
        invariant
            i <= plan.segments@.len(),
            names@.len() == 3 * i,
            forall|k: int|
                0 <= k < names@.len() ==> (#[trigger] names@[k])@ == files_of(plan.segments@)[k],
        decreases plan.segments@.len() - i,
    {
        let id: u32 = plan.segments[i];
        names.push(segment_name(SegmentFile::Vsec, id));
        names.push(segment_name(SegmentFile::Msec, id));
        names.push(segment_name(SegmentFile::Hidx, id));
        i = i + 1;
    }
    names
}

/// Whether a path is one of those that the removal of replaced segments touches.
pub open spec fn removal_touches(segments: Seq<u32>, path: Seq<char>) -> bool {
    in_trash(path) || exists|i: int|
        0 <= i < files_of(segments).len() && path == path_of(
            SEGMENTS_DIR@,
            #[trigger] files_of(segments)[i],
        )
}

/// Moves the files of replaced segments out of the way and removes them. What cannot be moved or
/// removed stays: nothing refers to it.
pub fn cleanup_old_segments<S: Storage>(storage: &mut S, plan: &CompactionPlan)
    requires
        old(storage).wf(),
    ensures
        final(storage).wf(),
        final(storage).reliable() == old(storage).reliable(),
        final(storage).locked() == old(storage).locked(),
        forall|path: Seq<char>|
            !removal_touches(plan.segments@, path) ==> #[trigger] same_at(
                old(storage).files(),
                final(storage).files(),
                path,
            ),
        forall|path: Seq<char>|
            !removal_touches(plan.segments@, path) && final(storage).files().dom().contains(path)
                && old(storage).settled().contains(path)
                    ==> #[trigger] final(storage).settled().contains(path),
        old(storage).reliable() ==> forall|i: int|
            0 <= i < files_of(plan.segments@).len() ==> !final(storage).files().dom().contains(
                path_of(SEGMENTS_DIR@, #[trigger] files_of(plan.segments@)[i]),
            ),
{
    let ghost start = storage.files();
    let names = old_segment_names(plan);
    let ghost listed = files_of(plan.segments@);
    proof {
        assert forall|i: int| 0 <= i < names@.len() implies (#[trigger] names@[i])@.len() > 0
            && !names@[i]@.contains('/') && names@[i]@ != ".."@ by {
            lemma_segment_name_plain(listed[i], plan.segments@, i);
        }
    }
    let moving = move_to_trash(storage, &names);
    let ghost middle = storage.files();
    let ghost held = storage.settled();
    proof {
        assert forall|path: Seq<char>|
            !removal_touches(plan.segments@, path) && old(storage).settled().contains(
                path,
            ) implies #[trigger] held.contains(path) by {
            if names_segment(names@, names@.len(), path) {
                let i = choose|i: int|
                    0 <= i < names@.len()
                        && path == path_of(SEGMENTS_DIR@, (#[trigger] names@[i])@);
                assert(listed[i] == names@[i]@);
            }
        }
    }
    proof {
        let count = if moving is Ok {
            names@.len()
        } else {
            choose|count: nat|
                count < names@.len() && middle == #[trigger] moved(start, names@, count)
        };
        assert forall|path: Seq<char>|
            !removal_touches(plan.segments@, path) implies #[trigger] same_at(
            start,
            middle,
            path,
        ) by {
            if names_segment(names@, count, path) {
                let i = choose|i: int|
                    0 <= i < count && path == path_of(SEGMENTS_DIR@, (#[trigger] names@[i])@);
                assert(listed[i] == names@[i]@);
            }
            lemma_moved(start, names@, count, path);
        }
    }
    match moving {
        Ok(()) => {
            let _ = purge(storage);
        },
        Err(_) => {},
    }
    proof {
        let end = storage.files();
        assert forall|path: Seq<char>|
            !removal_touches(plan.segments@, path) implies #[trigger] same_at(start, end, path) by {
            assert(same_at(start, middle, path));
            if moving is Ok {
                lemma_purged(middle, end, path);
            }
        }
        if storage.reliable() {
            assert forall|i: int| 0 <= i < listed.len() implies !end.dom().contains(
                path_of(SEGMENTS_DIR@, #[trigger] listed[i]),
            ) by {
                let path = path_of(SEGMENTS_DIR@, listed[i]);
                assert(names@[i]@ == listed[i]);
                assert(names_segment(names@, names@.len(), path));
                lemma_segments_no_trash(listed[i]);
                lemma_moved(start, names@, names@.len(), path);
                lemma_purged(middle, end, path);
            }
        }
    }
}

proof fn lemma_segments_no_trash(name: Seq<char>)
    ensures
        !in_trash(path_of(SEGMENTS_DIR@, name)),
{
    reveal_strlit("segments");
    reveal_strlit("trash");
    let path = path_of(SEGMENTS_DIR@, name);
    assert(path[0] == 's');
    assert(in_trash(path) ==> path.take(6)[0] == 't');
}

proof fn lemma_segment_name_plain(name: Seq<char>, segments: Seq<u32>, at: int)
    requires
        0 <= at < files_of(segments).len(),
        name == files_of(segments)[at],
    ensures
        name.len() > 0,
        !name.contains('/'),
        name != ".."@,
{
    reveal_strlit("seg_");
    reveal_strlit(".vsec");
    reveal_strlit(".msec");
    reveal_strlit(".hidx");
    reveal_strlit("..");
    let id = segments[at / 3];
    let digits = crate::text::padded(id as nat, 6);
    crate::text::lemma_padded(id as nat, 6);
    assert(name[0] == 's');
    assert(".."@[0] == '.');
    assert forall|k: int| 0 <= k < name.len() implies name[k] != '/' by {
        if 4 <= k < 4 + digits.len() {
            assert(name[k] == digits[k - 4]);
            assert(crate::text::is_digit(digits[k - 4]));
        }
    }
}

/// Whether a number is that of a segment of the group.
pub open spec fn in_group(group: Seq<SegmentEntry>, segment_id: u32) -> bool {
    exists|i: int| 0 <= i < group.len() && (#[trigger] group[i]).segment_id == segment_id
}

/// The entries among the first `count` that are not in the group.
pub open spec fn outside_group(
    segments: Seq<SegmentEntry>,
    group: Seq<SegmentEntry>,
    count: nat,
) -> Seq<SegmentEntry>
    decreases count,
{
    if count == 0 {
        Seq::empty()
    } else {
        let before = outside_group(segments, group, (count - 1) as nat);
        if in_group(group, segments[count - 1].segment_id) {
            before
        } else {
            before.push(segments[count - 1])
        }
    }
}

/// What the manifest after a merge holds: the segments outside of the group and the merged one
/// behind them. The watermark stays, since the log is not emptied.
pub open spec fn follows_merge(
    next: ManifestView,
    previous: ManifestView,
    state: StateModel,
    segment_id: u32,
    keep: Seq<usize>,
    group: Seq<SegmentEntry>,
    created_ms: i64,
    encoded: EncodedSegment,
) -> bool {
    let others = outside_group(previous.segments, group, previous.segments.len());
    &&& next.dimension == previous.dimension
    &&& next.metric == previous.metric
    &&& next.stopwords == previous.stopwords
    &&& next.next_rel_kind == previous.next_rel_kind
    &&& next.manifest_version == previous.manifest_version + 1
    &&& next.watermark_seqno == previous.watermark_seqno
    &&& next.next_rowid == state.next_rowid
    &&& next.next_segment_id == segment_id + 1
    &&& next.next_ns_id == state.next_ns_id
    &&& lists_registry(state.ns_registry, widened_namespaces(next.namespaces))
    &&& next.rel_kinds == previous.rel_kinds
    &&& next.segments.len() == others.len() + 1
    &&& next.segments.drop_last() == others
    &&& describes(next.segments.last(), state, segment_id, keep, created_ms, encoded)
}

fn group_holds(group: &Vec<SegmentEntry>, segment_id: u32) -> (found: bool)
    ensures
        found == in_group(group@, segment_id),
{
    find_segment(group, segment_id).is_some()
}

/// Puts the manifest after a merge together.
pub fn next_manifest_after_merge(
    previous: &Manifest,
    state: &WriterState,
    segment_id: u32,
    keep: &Vec<usize>,
    group: &Vec<SegmentEntry>,
    created_ms: i64,
    encoded: &EncodedSegment,
) -> (next: Manifest)
    requires
        state.wf(),
        slots_exist(state@, keep@),
        previous.manifest_version < u64::MAX,
        segment_id < u32::MAX,
    ensures
        follows_merge(
            next@,
            previous@,
            state@,
            segment_id,
            keep@,
            group@,
            created_ms,
            *encoded,
        ),
{
    let mut segments: Vec<SegmentEntry> = Vec::new();
    let mut i: usize = 0;
    while i < previous.segments.len()
        invariant
            i <= previous.segments@.len(),
            segments@ == outside_group(previous.segments@, group@, i as nat),
        decreases previous.segments@.len() - i,
    {
        let entry = previous.segments[i];
        if !group_holds(group, entry.segment_id) {
            segments.push(entry);
        }
        i = i + 1;
    }
    let ghost others = segments@;
    let merged = segment_entry(state, segment_id, keep, created_ms, encoded);
    segments.push(merged);
    assert(segments@.drop_last() =~= others);
    Manifest {
        dimension: previous.dimension,
        metric: previous.metric,
        stopwords: previous.stopwords,
        next_rel_kind: previous.next_rel_kind,
        manifest_version: previous.manifest_version + 1,
        watermark_seqno: previous.watermark_seqno,
        next_rowid: state.next_rowid(),
        next_segment_id: segment_id + 1,
        next_ns_id: state.next_ns_id(),
        namespaces: manifest_namespaces(state),
        rel_kinds: copied_rel_kinds(&previous.rel_kinds),
        segments,
    }
}

/// A merge keeps every segment outside of the group, drops every segment of the group, and adds the
/// merged one.
pub proof fn merge_keeps_other_segments(
    next: ManifestView,
    previous: ManifestView,
    state: StateModel,
    segment_id: u32,
    keep: Seq<usize>,
    group: Seq<SegmentEntry>,
    created_ms: i64,
    encoded: EncodedSegment,
)
    requires
        follows_merge(next, previous, state, segment_id, keep, group, created_ms, encoded),
    ensures
        forall|i: int|
            0 <= i < previous.segments.len() && !in_group(
                group,
                (#[trigger] previous.segments[i]).segment_id,
            ) ==> next.segments.contains(previous.segments[i]),
        forall|i: int|
            0 <= i < next.segments.len() ==> !in_group(
                group,
                (#[trigger] next.segments[i]).segment_id,
            ) || next.segments[i].segment_id == segment_id,
        is_active(next.segments, segment_id),
{
    let others = outside_group(previous.segments, group, previous.segments.len());
    assert forall|i: int|
        0 <= i < previous.segments.len() && !in_group(
            group,
            (#[trigger] previous.segments[i]).segment_id,
        ) implies next.segments.contains(previous.segments[i]) by {
        lemma_outside(previous.segments, group, previous.segments.len(), i);
        let k = choose|k: int| 0 <= k < others.len() && others[k] == previous.segments[i];
        assert(next.segments.drop_last()[k] == next.segments[k]);
    }
    lemma_outside_only(previous.segments, group, previous.segments.len());
    assert forall|i: int| 0 <= i < next.segments.len() implies !in_group(
        group,
        (#[trigger] next.segments[i]).segment_id,
    ) || next.segments[i].segment_id == segment_id by {
        if i < others.len() {
            assert(next.segments.drop_last()[i] == next.segments[i]);
            assert(!in_group(group, others[i].segment_id));
        }
    }
    assert(next.segments[next.segments.len() - 1].segment_id == segment_id);
}

proof fn lemma_outside(
    segments: Seq<SegmentEntry>,
    group: Seq<SegmentEntry>,
    count: nat,
    i: int,
)
    requires
        0 <= i < count <= segments.len(),
        !in_group(group, segments[i].segment_id),
    ensures
        outside_group(segments, group, count).contains(segments[i]),
    decreases count,
{
    let all = outside_group(segments, group, count);
    if i == count - 1 {
        assert(all[all.len() - 1] == segments[i]);
    } else {
        lemma_outside(segments, group, (count - 1) as nat, i);
        let before = outside_group(segments, group, (count - 1) as nat);
        let k = choose|k: int| 0 <= k < before.len() && before[k] == segments[i];
        assert(all[k] == segments[i]);
    }
}

proof fn lemma_outside_only(segments: Seq<SegmentEntry>, group: Seq<SegmentEntry>, count: nat)
    requires
        count <= segments.len(),
    ensures
        forall|i: int|
            0 <= i < outside_group(segments, group, count).len() ==> !in_group(
                group,
                (#[trigger] outside_group(segments, group, count)[i]).segment_id,
            ),
    decreases count,
{
    if count > 0 {
        lemma_outside_only(segments, group, (count - 1) as nat);
        let before = outside_group(segments, group, (count - 1) as nat);
        let all = outside_group(segments, group, count);
        assert forall|i: int| 0 <= i < all.len() implies !in_group(
            group,
            (#[trigger] all[i]).segment_id,
        ) by {
            if i < before.len() {
                assert(all[i] == before[i]);
            }
        }
    }
}

/// What building a merged segment may come to: from the versions that survive, with what must be
/// carried over and with all edges.
pub open spec fn is_merge_built<
    R: Fn(u32, Vec<u8>) -> Result<Vec<DeltaEntry>, MnemeError>,
    B: Fn(&WriterState, &BuildJob, &Vec<DeltaEntry>) -> Result<EncodedSegment, MnemeError>,
>(
    files: FileMap,
    read: R,
    build: B,
    state: WriterState,
    group: Seq<SegmentEntry>,
    keep: Seq<usize>,
    parallelism: usize,
    outcome: Result<EncodedSegment, MnemeError>,
) -> bool {
    exists|deltas: Seq<Vec<DeltaEntry>>, job: BuildJob, carried: Vec<DeltaEntry>|
        #![trigger are_deltas(files, read, group, deltas), build.ensures(
            (&state, &job, &carried),
            outcome,
        )]
        are_deltas(files, read, group, deltas) && carried@ == carried_all(
            state@,
            keep,
            deltas,
            deltas.len(),
        ) && job.slots@ == keep && job.full_relations && job.parallelism == parallelism
            && build.ensures((&state, &job, &carried), outcome)
}

/// What building and writing a merged segment may fail with.
pub open spec fn merge_build_refused<
    H: FsyncHook,
    R: Fn(u32, Vec<u8>) -> Result<Vec<DeltaEntry>, MnemeError>,
    B: Fn(&WriterState, &BuildJob, &Vec<DeltaEntry>) -> Result<EncodedSegment, MnemeError>,
    L: Fn(SegmentFile, u32, &Vec<u8>) -> Result<Vec<u8>, MnemeError>,
>(
    hook: Option<&H>,
    failures: FailureSet,
    files: FileMap,
    read: R,
    build: B,
    seal: L,
    state: WriterState,
    segment_id: u32,
    group: Seq<SegmentEntry>,
    keep: Seq<usize>,
    parallelism: usize,
    error: MnemeError,
) -> bool {
    ||| read_fails(failures, files, read, group, error)
    ||| is_merge_built(files, read, build, state, group, keep, parallelism, Err(error))
    ||| exists|encoded: EncodedSegment|
        #![trigger segment_fails(hook, failures, seal, segment_id, encoded, error)]
        is_merge_built(files, read, build, state, group, keep, parallelism, Ok(encoded))
            && segment_fails(hook, failures, seal, segment_id, encoded, error)
}

/// Removes the files of a segment.
fn remove_segment<S: Storage>(storage: &mut S, segment_id: u32) -> (result: Result<(), MnemeError>)
    requires
        old(storage).wf(),
    ensures
        final(storage).wf(),
        final(storage).reliable() == old(storage).reliable(),
        final(storage).failures() == old(storage).failures(),
        final(storage).locked() == old(storage).locked(),
        only_segment_changed(old(storage).files(), final(storage).files(), segment_id),
        result is Ok ==> forall|file: SegmentFile|
            !final(storage).files().dom().contains(#[trigger] segment_path(file, segment_id)),
        old(storage).reliable() ==> result is Ok,
        result matches Err(error) ==> failures_of(*old(storage)).contains((Step::Remove, error)),
{
    proof {
        library_paths_stay_below(SegmentFile::Vsec, segment_id, 0, 0);
        library_paths_stay_below(SegmentFile::Msec, segment_id, 0, 0);
        library_paths_stay_below(SegmentFile::Hidx, segment_id, 0, 0);
    }
    let vsec = segment_rel(SegmentFile::Vsec, segment_id);
    let msec = segment_rel(SegmentFile::Msec, segment_id);
    let hidx = segment_rel(SegmentFile::Hidx, segment_id);
    assert(in_segment(segment_id, segment_path(SegmentFile::Vsec, segment_id)));
    assert(in_segment(segment_id, segment_path(SegmentFile::Msec, segment_id)));
    assert(in_segment(segment_id, segment_path(SegmentFile::Hidx, segment_id)));
    match storage.remove_if_exists(vsec.as_str()) {
        Ok(()) => {},
        Err(error) => {
            return Err(error);
        },
    }
    match storage.remove_if_exists(msec.as_str()) {
        Ok(()) => {},
        Err(error) => {
            return Err(error);
        },
    }
    let result = storage.remove_if_exists(hidx.as_str());
    proof {
        if result is Ok {
            let end = storage.files();
            assert forall|file: SegmentFile| !end.dom().contains(
                #[trigger] segment_path(file, segment_id),
            ) by {
                match file {
                    SegmentFile::Vsec => {},
                    SegmentFile::Msec => {},
                    SegmentFile::Hidx => {},
                }
            }
        }
    }
    result
}

/// Builds and writes the merged segment. Where the merge is paused meanwhile, what was written is
/// removed again.
pub fn build_merged<
    S: Storage,
    H: FsyncHook,
    R: Fn(u32, Vec<u8>) -> Result<Vec<DeltaEntry>, MnemeError>,
    B: Fn(&WriterState, &BuildJob, &Vec<DeltaEntry>) -> Result<EncodedSegment, MnemeError>,
    L: Fn(SegmentFile, u32, &Vec<u8>) -> Result<Vec<u8>, MnemeError>,
    P: Fn() -> bool,
>(
    storage: &mut S,
    hook: Option<&H>,
    state: &WriterState,
    segment_id: u32,
    group: &Vec<SegmentEntry>,
    keep: &Vec<usize>,
    parallelism: usize,
    read: &R,
    build: &B,
    seal: &L,
    paused: &P,
) -> (result: Result<Option<EncodedSegment>, MnemeError>)
    requires
        old(storage).wf(),
        state.wf(),
        forall|id: u32, raw: Vec<u8>| read.requires((id, raw)),
        forall|job: BuildJob, passed: Vec<DeltaEntry>| build.requires((state, &job, &passed)),
        forall|file: SegmentFile, plain: Vec<u8>| seal.requires((file, segment_id, &plain)),
        paused.requires(()),
    ensures
        final(storage).wf(),
        final(storage).reliable() == old(storage).reliable(),
        final(storage).failures() == old(storage).failures(),
        final(storage).locked() == old(storage).locked(),
        only_segment_changed(old(storage).files(), final(storage).files(), segment_id),
        result matches Ok(Some(encoded)) ==> segment_passes(hook, *seal, segment_id, encoded),
        result matches Ok(Some(encoded)) ==> paused.ensures((), false) && is_merge_built(
            old(storage).files(),
            *read,
            *build,
            *state,
            group@,
            keep@,
            parallelism,
            Ok(encoded),
        ) && segment_written(final(storage).files(), *seal, segment_id, encoded) && segment_settled(
            final(storage).settled(),
            segment_id,
            encoded,
        ),
        result matches Ok(None) ==> paused.ensures((), true) && forall|file: SegmentFile|
            !final(storage).files().dom().contains(#[trigger] segment_path(file, segment_id)),
        result matches Err(error) ==> merge_build_refused(
            hook,
            failures_of(*old(storage)),
            old(storage).files(),
            *read,
            *build,
            *seal,
            *state,
            segment_id,
            group@,
            keep@,
            parallelism,
            error,
        ) || (paused.ensures((), true) && failures_of(*old(storage)).contains(
            (Step::Remove, error),
        )),
{
    let ghost start = storage.files();
    let carried = match carried_access_deltas(storage, group, state, keep, read) {
        Ok(carried) => carried,
        Err(error) => {
            return Err(error);
        },
    };
    let ghost deltas = choose|deltas: Seq<Vec<DeltaEntry>>| #[trigger]
        are_deltas(start, *read, group@, deltas) && carried@ == carried_all(
            state@,
            keep@,
            deltas,
            deltas.len(),
        );
    let job = BuildJob {
        slots: vstd::slice::slice_to_vec(keep.as_slice()),
        full_relations: true,
        parallelism,
    };
    let outcome = build(state, &job, &carried);
    let ghost seen = outcome;
    proof {
        assert(are_deltas(start, *read, group@, deltas));
        assert(build.ensures((state, &job, &carried), seen));
        assert(is_merge_built(
            start,
            *read,
            *build,
            *state,
            group@,
            keep@,
            parallelism,
            seen,
        ));
    }
    let encoded = match outcome {
        Ok(encoded) => encoded,
        Err(error) => {
            return Err(error);
        },
    };
    match write_segment_files(storage, hook, segment_id, &encoded, seal) {
        Ok(()) => {},
        Err(error) => {
            assert(segment_fails(
                hook,
                failures_of(*old(storage)),
                *seal,
                segment_id,
                encoded,
                error,
            ));
            return Err(error);
        },
    }
    if paused() {
        let ghost written = storage.files();
        let removed = remove_segment(storage, segment_id);
        proof {
            assert forall|path: Seq<char>| !in_segment(segment_id, path) implies #[trigger] same_at(
                start,
                storage.files(),
                path,
            ) by {
                assert(same_at(start, written, path));
                assert(same_at(written, storage.files(), path));
            }
        }
        return match removed {
            Ok(()) => Ok(None),
            Err(error) => Err(error),
        };
    }
    Ok(Some(encoded))
}

/// Whether a path is one of those that a merge writes to or removes, apart from the files of the
/// segments that it replaces.
pub open spec fn merge_touches(previous: ManifestView, path: Seq<char>) -> bool {
    in_segment(previous.next_segment_id, path) || commit_touches(
        (previous.manifest_version + 1) as u64,
        path,
    )
}

/// Whether a path is one of those that a merge writes to before it is committed.
pub open spec fn merge_writes(previous: ManifestView, path: Seq<char>) -> bool {
    in_segment(previous.next_segment_id, path) || commit_writes(
        (previous.manifest_version + 1) as u64,
        path,
    )
}

/// Whether the graph of a merged segment took the place of those of the segments it replaces.
pub open spec fn graphs_merged<I, K: Fn(&EncodedSegment) -> Option<BuiltGraph<I>>>(
    graph_of: K,
    segment_id: u32,
    plan: Seq<u32>,
    keep: Seq<usize>,
    encoded: EncodedSegment,
    before: Seq<SegmentIndex<I>>,
    after: Seq<SegmentIndex<I>>,
) -> bool {
    exists|graph: Option<BuiltGraph<I>>| #[trigger]
        graph_of.ensures((&encoded,), graph) && graph_models(after) == graph_models(
            graphs_staying(before, plan, segment_id, before.len()),
        ) + new_graph(graph, segment_id, keep)
}

/// What a merge that was committed has done. What it wrote is on stable storage.
pub open spec fn is_merged<
    H: FsyncHook,
    R: Fn(u32, Vec<u8>) -> Result<Vec<DeltaEntry>, MnemeError>,
    B: Fn(&WriterState, &BuildJob, &Vec<DeltaEntry>) -> Result<EncodedSegment, MnemeError>,
    L: Fn(SegmentFile, u32, &Vec<u8>) -> Result<Vec<u8>, MnemeError>,
    E: Fn(&Manifest) -> Result<Vec<u8>, MnemeError>,
    I,
    K: Fn(&EncodedSegment) -> Option<BuiltGraph<I>>,
>(
    hook: Option<&H>,
    read: R,
    build: B,
    seal: L,
    encode: E,
    graph_of: K,
    before: Store,
    after: Store,
    state_before: WriterState,
    state_after: StateModel,
    plan: Seq<u32>,
    keep: Seq<usize>,
    parallelism: usize,
    now_ms: i64,
    files_before: FileMap,
    files_after: FileMap,
    settled_after: PathSet,
    indexes_before: Seq<SegmentIndex<I>>,
    indexes_after: Seq<SegmentIndex<I>>,
    group: Vec<SegmentEntry>,
    encoded: EncodedSegment,
) -> bool {
    let id = before.manifest.next_segment_id;
    &&& group_outcome(before.manifest.segments@, plan, Ok(group))
    &&& is_merge_built(
        files_before,
        read,
        build,
        state_before,
        group@,
        keep,
        parallelism,
        Ok(encoded),
    )
    &&& !plan.contains(id) ==> segment_written(files_after, seal, id, encoded) && segment_settled(
        settled_after,
        id,
        encoded,
    )
    &&& follows_merge(
        after.manifest@,
        before.manifest@,
        state_before@,
        id,
        keep,
        group@,
        now_ms,
        encoded,
    )
    &&& segment_passes(hook, seal, id, encoded)
    &&& commit_passes(hook, encode, after.manifest)
    &&& after.version == after.manifest.manifest_version
    &&& is_committed(files_before, files_after, encode, after.manifest)
    &&& settled_after.contains(CURRENT_FILE@)
    &&& files_after.dom().contains(manifest_file(after.version)) ==> settled_after.contains(
        manifest_file(after.version),
    )
    &&& state_after == (StateModel {
        slot_segment: placed(state_before@.slot_segment, keep, keep.len(), id),
        ..state_before@
    })
    &&& graphs_merged(graph_of, id, plan, keep, encoded, indexes_before, indexes_after)
}

/// Whether a merge that failed has made `current` name its manifest: then its segment and its
/// manifest are whole.
pub open spec fn is_merge_switched<
    R: Fn(u32, Vec<u8>) -> Result<Vec<DeltaEntry>, MnemeError>,
    B: Fn(&WriterState, &BuildJob, &Vec<DeltaEntry>) -> Result<EncodedSegment, MnemeError>,
    L: Fn(SegmentFile, u32, &Vec<u8>) -> Result<Vec<u8>, MnemeError>,
    E: Fn(&Manifest) -> Result<Vec<u8>, MnemeError>,
>(
    read: R,
    build: B,
    seal: L,
    encode: E,
    before: Store,
    state: WriterState,
    keep: Seq<usize>,
    parallelism: usize,
    now_ms: i64,
    files_before: FileMap,
    files: FileMap,
    group: Vec<SegmentEntry>,
    encoded: EncodedSegment,
    next: Manifest,
) -> bool {
    let id = before.manifest.next_segment_id;
    &&& is_merge_built(
        files_before,
        read,
        build,
        state,
        group@,
        keep,
        parallelism,
        Ok(encoded),
    )
    &&& segment_written(files, seal, id, encoded)
    &&& follows_merge(
        next@,
        before.manifest@,
        state@,
        id,
        keep,
        group@,
        now_ms,
        encoded,
    )
    &&& current_of(files) == Some(next.manifest_version)
    &&& holds_encoded(files, encode, next)
}

/// What a merge of a group may fail with. A merge that is paused once its segment is written does
/// not come to its commit; it fails only where the backend cannot remove the segment again.
pub open spec fn merge_refused<
    H: FsyncHook,
    R: Fn(u32, Vec<u8>) -> Result<Vec<DeltaEntry>, MnemeError>,
    B: Fn(&WriterState, &BuildJob, &Vec<DeltaEntry>) -> Result<EncodedSegment, MnemeError>,
    L: Fn(SegmentFile, u32, &Vec<u8>) -> Result<Vec<u8>, MnemeError>,
    E: Fn(&Manifest) -> Result<Vec<u8>, MnemeError>,
    P: Fn() -> bool,
>(
    hook: Option<&H>,
    failures: FailureSet,
    files: FileMap,
    read: R,
    build: B,
    seal: L,
    encode: E,
    paused: P,
    before: Store,
    state: WriterState,
    group: Vec<SegmentEntry>,
    keep: Seq<usize>,
    parallelism: usize,
    now_ms: i64,
    error: MnemeError,
) -> bool {
    let id = before.manifest.next_segment_id;
    ||| merge_build_refused(
        hook,
        failures,
        files,
        read,
        build,
        seal,
        state,
        id,
        group@,
        keep,
        parallelism,
        error,
    )
    ||| paused.ensures((), true) && failures.contains((Step::Remove, error))
    ||| paused.ensures((), false) && exists|encoded: EncodedSegment, next: Manifest|
        #![trigger is_merge_built(
            files,
            read,
            build,
            state,
            group@,
            keep,
            parallelism,
            Ok(encoded),
        ), commit_refused(hook, failures, encode, next, error)]
        is_merge_built(files, read, build, state, group@, keep, parallelism, Ok(encoded))
            && segment_passes(hook, seal, id, encoded) && follows_merge(
            next@,
            before.manifest@,
            state@,
            id,
            keep,
            group@,
            now_ms,
            encoded,
        ) && commit_refused(hook, failures, encode, next, error)
}

impl Store {
    /// Merges the segments of a plan into one that holds the versions in `keep`, and commits a
    /// manifest in which it takes their place. Returns whether the merge was committed; one that is
    /// paused is not.
    ///
    /// The log is not emptied: it still carries what no segment holds. Where a step fails, the
    /// state, the manifest in use and the graphs in use stay as they were. `graph_of` gives the
    /// graph that was built with a segment.
    ///
    /// The new segment is built with all relations. After `Ok(true)` the caller has to clear what it
    /// recorded about relations for the next flush.
    #[verifier::spinoff_prover]
    pub fn compact<
        S: Storage,
        H: FsyncHook,
        R: Fn(u32, Vec<u8>) -> Result<Vec<DeltaEntry>, MnemeError>,
        B: Fn(&WriterState, &BuildJob, &Vec<DeltaEntry>) -> Result<EncodedSegment, MnemeError>,
        L: Fn(SegmentFile, u32, &Vec<u8>) -> Result<Vec<u8>, MnemeError>,
        E: Fn(&Manifest) -> Result<Vec<u8>, MnemeError>,
        P: Fn() -> bool,
        I,
        K: Fn(&EncodedSegment) -> Option<BuiltGraph<I>>,
    >(
        &mut self,
        storage: &mut S,
        hook: Option<&H>,
        state: &mut WriterState,
        indexes: &mut Vec<SegmentIndex<I>>,
        plan: &CompactionPlan,
        keep: &Vec<usize>,
        parallelism: usize,
        now_ms: i64,
        read: &R,
        build: &B,
        seal: &L,
        encode: &E,
        paused: &P,
        graph_of: &K,
    ) -> (result: Result<bool, MnemeError>)
        requires
            old(self).wf(),
            old(storage).wf(),
            old(state).wf(),
            slots_exist(old(state)@, keep@),
            old(self).manifest.manifest_version < u64::MAX,
            old(self).manifest.next_segment_id < u32::MAX,
            forall|id: u32, raw: Vec<u8>| read.requires((id, raw)),
            forall|job: BuildJob, passed: Vec<DeltaEntry>|
                build.requires((&*old(state), &job, &passed)),
            forall|file: SegmentFile, id: u32, plain: Vec<u8>| seal.requires((file, id, &plain)),
            forall|manifest: Manifest| encode.requires((&manifest,)),
            paused.requires(()),
            forall|segment: EncodedSegment| graph_of.requires((&segment,)),
        ensures
            final(self).wf(),
            final(storage).wf(),
            final(state).wf(),
            final(storage).reliable() == old(storage).reliable(),
            final(storage).locked() == old(storage).locked(),
            final(self).wal == old(self).wal,
            final(self).dimension == old(self).dimension,
            final(self).metric == old(self).metric,
            final(self).read_only == old(self).read_only,
            old(self).read_only ==> result == Err::<bool, MnemeError>(
                MnemeError::Unsupported { feature: Feature::ReadOnlyWrite },
            ) && final(storage).files() == old(storage).files(),
            result != Ok::<bool, MnemeError>(true) ==> final(state)@ == old(state)@
                && *final(self) == *old(self) && final(indexes)@ == old(indexes)@,
            result == Ok::<bool, MnemeError>(false) ==> paused.ensures((), true)
                && only_segment_changed(
                old(storage).files(),
                final(storage).files(),
                old(self).manifest.next_segment_id,
            ) && forall|file: SegmentFile|
                !final(storage).files().dom().contains(
                    #[trigger] segment_path(file, old(self).manifest.next_segment_id),
                ),
            result == Ok::<bool, MnemeError>(true) ==> paused.ensures((), false),
            result == Ok::<bool, MnemeError>(true) ==> exists|
                group: Vec<SegmentEntry>,
                encoded: EncodedSegment,
            | #[trigger]
                is_merged(
                    hook,
                    *read,
                    *build,
                    *seal,
                    *encode,
                    *graph_of,
                    *old(self),
                    *final(self),
                    *old(state),
                    final(state)@,
                    plan.segments@,
                    keep@,
                    parallelism,
                    now_ms,
                    old(storage).files(),
                    final(storage).files(),
                    final(storage).settled(),
                    old(indexes)@,
                    final(indexes)@,
                    group,
                    encoded,
                ),
            forall|path: Seq<char>|
                !merge_touches(old(self).manifest@, path) && !removal_touches(
                    plan.segments@,
                    path,
                ) ==> #[trigger] same_at(old(storage).files(), final(storage).files(), path),
            result != Ok::<bool, MnemeError>(true) ==> forall|path: Seq<char>|
                !merge_writes(old(self).manifest@, path) ==> #[trigger] same_at(
                    old(storage).files(),
                    final(storage).files(),
                    path,
                ),
            result is Err ==> same_at(
                old(storage).files(),
                final(storage).files(),
                CURRENT_FILE@,
            ) || exists|group: Vec<SegmentEntry>, encoded: EncodedSegment, next: Manifest|
                group_outcome(old(self).manifest.segments@, plan.segments@, Ok(group))
                    && #[trigger] is_merge_switched(
                    *read,
                    *build,
                    *seal,
                    *encode,
                    *old(self),
                    *old(state),
                    keep@,
                    parallelism,
                    now_ms,
                    old(storage).files(),
                    final(storage).files(),
                    group,
                    encoded,
                    next,
                ),
            !old(self).read_only && (plan.segments@.len() == 0 || exists|i: int|
                0 <= i < plan.segments@.len() && !is_active(
                    old(self).manifest.segments@,
                    #[trigger] plan.segments@[i],
                )) ==> (result matches Err(error) && group_outcome(
                old(self).manifest.segments@,
                plan.segments@,
                Err(error),
            ) && final(storage).files() == old(storage).files()),
            !old(self).read_only ==> (result matches Err(error) ==> group_outcome(
                old(self).manifest.segments@,
                plan.segments@,
                Err(error),
            ) || exists|group: Vec<SegmentEntry>| #[trigger]
                group_outcome(old(self).manifest.segments@, plan.segments@, Ok(group))
                    && merge_refused(
                    hook,
                    failures_of(*old(storage)),
                    old(storage).files(),
                    *read,
                    *build,
                    *seal,
                    *encode,
                    *paused,
                    *old(self),
                    *old(state),
                    group,
                    keep@,
                    parallelism,
                    now_ms,
                    error,
                )),
    {
        if self.read_only {
            return Err(MnemeError::Unsupported { feature: Feature::ReadOnlyWrite });
        }
        let ghost start = storage.files();
        let ghost model = state@;
        let resolved = resolve_group(&self.manifest, plan);
        let group = match resolved {
            Ok(group) => group,
            Err(error) => {
                return Err(error);
            },
        };
        proof {
            assert(group_outcome(self.manifest.segments@, plan.segments@, Ok(group)));
            lemma_all_active(self.manifest.segments@, plan.segments@, group);
        }
        let segment_id: u32 = self.manifest.next_segment_id;
        let built = build_merged(
            storage,
            hook,
            state,
            segment_id,
            &group,
            keep,
            parallelism,
            read,
            build,
            seal,
            paused,
        );
        let ghost written = storage.files();
        let ghost written_settled = storage.settled();
        proof {
            lemma_segment_apart_from_current(segment_id);
            assert(same_at(start, written, CURRENT_FILE@));
        }
        let encoded = match built {
            Ok(Some(encoded)) => encoded,
            Ok(None) => {
                return Ok(false);
            },
            Err(error) => {
                return Err(error);
            },
        };
        let next = next_manifest_after_merge(
            &self.manifest,
            state,
            segment_id,
            keep,
            &group,
            now_ms,
            &encoded,
        );
        let ghost version = next.manifest_version;
        let committed = commit_manifest(storage, hook, &next, encode);
        let ghost switched_files = storage.files();
        let ghost switched_settled = storage.settled();
        proof {
            assert forall|path: Seq<char>|
                !merge_touches(self.manifest@, path) implies #[trigger] same_at(
                start,
                switched_files,
                path,
            ) by {
                assert(same_at(start, written, path));
                assert(same_at(written, switched_files, path));
            }
            lemma_merged_stays(
                written,
                switched_files,
                *seal,
                segment_id,
                encoded,
                version,
            );
        }
        match committed {
            Ok(()) => {},
            Err(error) => {
                proof {
                    assert forall|path: Seq<char>|
                        !merge_writes(self.manifest@, path) implies #[trigger] same_at(
                        start,
                        switched_files,
                        path,
                    ) by {
                        assert(same_at(start, written, path));
                        assert(same_at(written, switched_files, path));
                    }
                    if !same_at(start, switched_files, CURRENT_FILE@) {
                        assert(is_merge_switched(
                            *read,
                            *build,
                            *seal,
                            *encode,
                            *self,
                            *state,
                            keep@,
                            parallelism,
                            now_ms,
                            start,
                            switched_files,
                            group,
                            encoded,
                            next,
                        ));
                    }
                    assert(commit_refused(hook, failures_of(*old(storage)), *encode, next, error));
                    assert(is_merge_built(
                        start,
                        *read,
                        *build,
                        *state,
                        group@,
                        keep@,
                        parallelism,
                        Ok(encoded),
                    ));
                    assert(merge_refused(
                        hook,
                        failures_of(*old(storage)),
                        start,
                        *read,
                        *build,
                        *seal,
                        *encode,
                        *paused,
                        *self,
                        *state,
                        group,
                        keep@,
                        parallelism,
                        now_ms,
                        error,
                    ));
                }
                return Err(error);
            },
        }
        let ghost previous = *self;
        install_segment(state, segment_id, keep);
        let graph = graph_of(&encoded);
        let ghost added = graph;
        let mut in_use: Vec<SegmentIndex<I>> = Vec::new();
        std::mem::swap(indexes, &mut in_use);
        let mut kept = retain_indexes(in_use, plan, segment_id);
        proof {
            old(state).lemma_wf();
            assert forall|i: int| 0 <= i < keep@.len() implies (#[trigger] keep@[i])
                <= u32::MAX by {
                assert(keep@[i] < model.slots.len());
            }
        }
        install_graph(&mut kept, segment_id, keep, graph);
        *indexes = kept;
        proof {
            assert(graph_of.ensures((&encoded,), added));
            assert(graphs_merged(
                *graph_of,
                segment_id,
                plan.segments@,
                keep@,
                encoded,
                old(indexes)@,
                indexes@,
            ));
        }
        self.publish_manifest(next);
        cleanup_old_segments(storage, plan);
        proof {
            let end = storage.files();
            lemma_removal_spares_root(plan.segments@, version);
            assert(same_at(switched_files, end, manifest_file(version)));
            assert(same_at(switched_files, end, CURRENT_FILE@));
            if is_newest(start, version) {
                lemma_newest_beside_segment(start, written, segment_id, version);
                let bytes = choose|bytes: Vec<u8>|
                    #![trigger encode.ensures((&self.manifest,), Ok(bytes))]
                    encode.ensures((&self.manifest,), Ok(bytes)) && switched_files.dom().contains(
                        manifest_file(version),
                    ) && switched_files[manifest_file(version)] == bytes@;
                assert(encode.ensures((&self.manifest,), Ok(bytes)));
                assert(holds_encoded(end, *encode, self.manifest));
            }
            assert(is_committed(start, end, *encode, self.manifest));
            if !plan.segments@.contains(segment_id) {
                lemma_removal_spares(plan.segments@, SegmentFile::Vsec, segment_id);
                lemma_removal_spares(plan.segments@, SegmentFile::Msec, segment_id);
                lemma_removal_spares(plan.segments@, SegmentFile::Hidx, segment_id);
                assert(same_at(
                    switched_files,
                    end,
                    segment_path(SegmentFile::Vsec, segment_id),
                ));
                assert(same_at(
                    switched_files,
                    end,
                    segment_path(SegmentFile::Msec, segment_id),
                ));
                assert(same_at(
                    switched_files,
                    end,
                    segment_path(SegmentFile::Hidx, segment_id),
                ));
                assert(segment_written(end, *seal, segment_id, encoded));
                assert forall|file: SegmentFile|
                    encoded.file(file) is Some implies storage.settled().contains(
                    #[trigger] segment_path(file, segment_id),
                ) by {
                    lemma_removal_spares(plan.segments@, file, segment_id);
                    lemma_segment_path_apart(file, segment_id, version);
                    assert(written_settled.contains(segment_path(file, segment_id)));
                    assert(switched_settled.contains(segment_path(file, segment_id)));
                }
            }
            assert forall|path: Seq<char>|
                !merge_touches(previous.manifest@, path) && !removal_touches(
                    plan.segments@,
                    path,
                ) implies #[trigger] same_at(start, end, path) by {
                assert(same_at(start, switched_files, path));
                assert(same_at(switched_files, end, path));
            }
            assert(is_merged(
                hook,
                *read,
                *build,
                *seal,
                *encode,
                *graph_of,
                previous,
                *self,
                *old(state),
                state@,
                plan.segments@,
                keep@,
                parallelism,
                now_ms,
                start,
                end,
                storage.settled(),
                old(indexes)@,
                indexes@,
                group,
                encoded,
            ));
        }
        Ok(true)
    }
}

/// `current` is no segment file.
proof fn lemma_segment_apart_from_current(segment_id: u32)
    ensures
        !in_segment(segment_id, CURRENT_FILE@),
{
    reveal_strlit("current");
    reveal_strlit("segments");
    assert(CURRENT_FILE@[0] == 'c');
    assert forall|file: SegmentFile| (#[trigger] segment_path(file, segment_id))[0] == 's'
        && temporary_of(segment_path(file, segment_id))[0] == 's' by {}
}

/// A version that is newer than every manifest still is, once a segment was written.
proof fn lemma_newest_beside_segment(
    before: FileMap,
    after: FileMap,
    segment_id: u32,
    version: u64,
)
    requires
        only_segment_changed(before, after, segment_id),
        is_newest(before, version),
    ensures
        is_newest(after, version),
{
    reveal_strlit("segments");
    reveal_strlit("MANIFEST.");
    let root = Seq::<char>::empty();
    assert forall|name: Seq<char>, other: u64| #[trigger]
        names_version(after, name, other) && name != manifest_file(version) implies other
        < version by {
        assert(name.take(9)[0] == 'M');
        assert forall|file: SegmentFile| (#[trigger] segment_path(file, segment_id))[0] == 's'
            && temporary_of(segment_path(file, segment_id))[0] == 's' by {}
        assert(!in_segment(segment_id, name));
        assert(dir_prefix(root) + name =~= name);
        assert(same_at(before, after, name));
        assert(names_version(before, name, other));
    }
}

/// Removing replaced segments leaves the files of every other segment alone.
pub proof fn lemma_removal_spares(segments: Seq<u32>, file: SegmentFile, id: u32)
    requires
        !segments.contains(id),
    ensures
        !removal_touches(segments, segment_path(file, id)),
{
    let path = segment_path(file, id);
    let name = segment_file(file, id);
    assert(path_of(SEGMENTS_DIR@, name) =~= path);
    lemma_segments_no_trash(name);
    assert forall|i: int| 0 <= i < files_of(segments).len() implies path != path_of(
        SEGMENTS_DIR@,
        #[trigger] files_of(segments)[i],
    ) by {
        let other = segments[i / 3];
        assert(segments.contains(other));
        let g = if i % 3 == 0 {
            SegmentFile::Vsec
        } else if i % 3 == 1 {
            SegmentFile::Msec
        } else {
            SegmentFile::Hidx
        };
        assert(path_of(SEGMENTS_DIR@, files_of(segments)[i]) =~= segment_path(g, other));
        lemma_segment_paths_apart(file, id, g, other);
    }
}

proof fn lemma_removal_spares_root(segments: Seq<u32>, version: u64)
    ensures
        !removal_touches(segments, CURRENT_FILE@),
        !removal_touches(segments, manifest_file(version)),
{
    reveal_strlit("current");
    reveal_strlit("trash");
    reveal_strlit("segments");
    reveal_strlit("MANIFEST.");
    let manifest = manifest_file(version);
    assert(CURRENT_FILE@[0] == 'c');
    assert(manifest[0] == 'M');
    assert(in_trash(CURRENT_FILE@) ==> CURRENT_FILE@.take(6)[0] == 't');
    assert(in_trash(manifest) ==> manifest.take(6)[0] == 't');
    assert forall|i: int| 0 <= i < files_of(segments).len() implies CURRENT_FILE@ != path_of(
        SEGMENTS_DIR@,
        #[trigger] files_of(segments)[i],
    ) && manifest != path_of(SEGMENTS_DIR@, files_of(segments)[i]) by {
        assert(path_of(SEGMENTS_DIR@, files_of(segments)[i])[0] == 's');
    }
}

proof fn lemma_all_active(segments: Seq<SegmentEntry>, plan: Seq<u32>, group: Vec<SegmentEntry>)
    requires
        group_outcome(segments, plan, Ok(group)),
    ensures
        plan.len() > 0,
        forall|i: int| 0 <= i < plan.len() ==> is_active(segments, #[trigger] plan[i]),
{
    assert forall|i: int| 0 <= i < plan.len() implies is_active(segments, #[trigger] plan[i]) by {
        assert(is_first_entry(segments, plan[i], group@[i]));
    }
}

proof fn lemma_merged_stays<L: Fn(SegmentFile, u32, &Vec<u8>) -> Result<Vec<u8>, MnemeError>>(
    before: FileMap,
    after: FileMap,
    seal: L,
    segment_id: u32,
    encoded: EncodedSegment,
    version: u64,
)
    requires
        segment_written(before, seal, segment_id, encoded),
        forall|path: Seq<char>|
            !commit_touches(version, path) ==> #[trigger] same_at(before, after, path),
    ensures
        segment_written(after, seal, segment_id, encoded),
{
    lemma_segment_path_apart(SegmentFile::Vsec, segment_id, version);
    lemma_segment_path_apart(SegmentFile::Msec, segment_id, version);
    lemma_segment_path_apart(SegmentFile::Hidx, segment_id, version);
    assert(same_at(before, after, segment_path(SegmentFile::Vsec, segment_id)));
    assert(same_at(before, after, segment_path(SegmentFile::Msec, segment_id)));
    assert(same_at(before, after, segment_path(SegmentFile::Hidx, segment_id)));
}

/// A merge never touches a file of a segment that is not merged; and as long as it is not committed,
/// it touches no file of any segment that the manifest has.
pub proof fn merge_spares_segments(
    previous: ManifestView,
    plan: Seq<u32>,
    file: SegmentFile,
    id: u32,
)
    requires
        id < previous.next_segment_id,
    ensures
        !merge_touches(previous, segment_path(file, id)),
        !plan.contains(id) ==> !removal_touches(plan, segment_path(file, id)),
{
    if !plan.contains(id) {
        lemma_removal_spares(plan, file, id);
    }
    let path = segment_path(file, id);
    lemma_segment_path_apart(file, id, (previous.manifest_version + 1) as u64);
    assert forall|other: SegmentFile| path != #[trigger] segment_path(
        other,
        previous.next_segment_id,
    ) && path != temporary_of(segment_path(other, previous.next_segment_id)) by {
        lemma_segment_paths_apart(file, id, other, previous.next_segment_id);
    }
}

/// Whether a graph stays in use after a merge: it is neither that of a segment that was merged nor
/// that of the merged segment.
pub open spec fn graph_stays(segment_id: u32, plan: Seq<u32>, merged: u32) -> bool {
    segment_id != merged && !plan.contains(segment_id)
}

/// The graphs among the first `count` that stay in use after a merge.
pub open spec fn graphs_staying<I>(
    indexes: Seq<SegmentIndex<I>>,
    plan: Seq<u32>,
    merged: u32,
    count: nat,
) -> Seq<SegmentIndex<I>>
    decreases count,
{
    if count == 0 {
        Seq::empty()
    } else {
        let before = graphs_staying(indexes, plan, merged, (count - 1) as nat);
        if graph_stays(indexes[count - 1].segment_id, plan, merged) {
            before.push(indexes[count - 1])
        } else {
            before
        }
    }
}

/// Takes the graphs of merged segments out of use. The order of the others stays.
pub fn retain_indexes<I>(indexes: Vec<SegmentIndex<I>>, plan: &CompactionPlan, merged: u32) -> (kept:
    Vec<SegmentIndex<I>>)
    ensures
        kept@ == graphs_staying(indexes@, plan.segments@, merged, indexes@.len()),
{
    let ghost all = indexes@;
    let mut rest = indexes;
    let mut kept: Vec<SegmentIndex<I>> = Vec::new();
    let ghost mut done: int = 0;
    assert(all.skip(0) =~= all);
    while rest.len() > 0
        invariant
            0 <= done <= all.len(),
            rest@ == all.skip(done),
            kept@ == graphs_staying(all, plan.segments@, merged, done as nat),
        decreases rest@.len(),
    {
        let index = rest.remove(0);
        assert(all.skip(done)[0] == all[done]);
        assert(rest@ =~= all.skip(done + 1));
        let stays: bool = index.segment_id != merged && !holds_number(
            &plan.segments,
            index.segment_id,
        );
        if stays {
            kept.push(index);
        }
        proof {
            done = done + 1;
        }
    }
    kept
}

/// Whether a list holds a number.
fn holds_number(numbers: &Vec<u32>, number: u32) -> (held: bool)
    ensures
        held == numbers@.contains(number),
{
    let mut i: usize = 0;
    while i < numbers.len()
        invariant
            i <= numbers@.len(),
            forall|k: int| 0 <= k < i ==> (#[trigger] numbers@[k]) != number,
        decreases numbers@.len() - i,
    {
        if numbers[i] == number {
            assert(numbers@[i as int] == number);
            return true;
        }
        i = i + 1;
    }
    false
}

/// The graphs of segments that a merge does not touch stay in use.
pub proof fn untouched_graphs_stay<I>(
    indexes: Seq<SegmentIndex<I>>,
    plan: Seq<u32>,
    merged: u32,
    at: int,
)
    requires
        0 <= at < indexes.len(),
        graph_stays(indexes[at].segment_id, plan, merged),
    ensures
        graphs_staying(indexes, plan, merged, indexes.len()).contains(indexes[at]),
{
    lemma_graph_stays(indexes, plan, merged, at, indexes.len());
}

proof fn lemma_graph_stays<I>(
    indexes: Seq<SegmentIndex<I>>,
    plan: Seq<u32>,
    merged: u32,
    at: int,
    count: nat,
)
    requires
        0 <= at < count <= indexes.len(),
        graph_stays(indexes[at].segment_id, plan, merged),
    ensures
        graphs_staying(indexes, plan, merged, count).contains(indexes[at]),
    decreases count,
{
    let before = graphs_staying(indexes, plan, merged, (count - 1) as nat);
    let after = graphs_staying(indexes, plan, merged, count);
    if at < count - 1 {
        lemma_graph_stays(indexes, plan, merged, at, (count - 1) as nat);
        let k = choose|k: int| 0 <= k < before.len() && before[k] == indexes[at];
        assert(after[k] == indexes[at]);
    } else {
        assert(after[after.len() - 1] == indexes[at]);
    }
}

/// What a list holds of the entries of several lists together, each as often as it stands there.
pub open spec fn all_entries(deltas: Seq<Vec<DeltaEntry>>, count: nat) -> Multiset<DeltaEntry>
    decreases count,
{
    if count == 0 {
        Multiset::empty()
    } else {
        all_entries(deltas, (count - 1) as nat).add(deltas[count - 1]@.to_multiset())
    }
}

proof fn lemma_carried_counts(
    state: StateModel,
    keep: Seq<usize>,
    entries: Seq<DeltaEntry>,
    count: nat,
    entry: DeltaEntry,
)
    requires
        count <= entries.len(),
    ensures
        carried_of(state, keep, entries, count).to_multiset().count(entry) == (if (
        entry matches DeltaEntry::Access { rowid, .. } && !(state.latest.dom().contains(rowid)
            && keep.contains(state.latest[rowid] as usize))) {
            entries.take(count as int).to_multiset().count(entry)
        } else {
            0
        }),
    decreases count,
{
    broadcast use vstd::seq_lib::group_to_multiset_ensures;

    if count > 0 {
        let less = (count - 1) as nat;
        lemma_carried_counts(state, keep, entries, less, entry);
        assert(entries.take(count as int) =~= entries.take(less as int).push(entries[count - 1]));
        let before = carried_of(state, keep, entries, less);
        assert(before.push(entries[count - 1]).to_multiset() =~= before.to_multiset().insert(
            entries[count - 1],
        ));
        assert(entries.take(less as int).push(entries[count - 1]).to_multiset()
            =~= entries.take(less as int).to_multiset().insert(entries[count - 1]));
    } else {
        assert(entries.take(0) =~= Seq::<DeltaEntry>::empty());
        assert(Seq::<DeltaEntry>::empty().to_multiset().len() == 0);
    }
}

proof fn lemma_all_carried(
    state: StateModel,
    keep: Seq<usize>,
    deltas: Seq<Vec<DeltaEntry>>,
    count: nat,
    entry: DeltaEntry,
)
    requires
        count <= deltas.len(),
    ensures
        carried_all(state, keep, deltas, count).to_multiset().count(entry) == (if (
        entry matches DeltaEntry::Access { rowid, .. } && !(state.latest.dom().contains(rowid)
            && keep.contains(state.latest[rowid] as usize))) {
            all_entries(deltas, count).count(entry)
        } else {
            0
        }),
    decreases count,
{
    broadcast use vstd::seq_lib::group_to_multiset_ensures;

    if count > 0 {
        let less = (count - 1) as nat;
        lemma_all_carried(state, keep, deltas, less, entry);
        let entries = deltas[count - 1]@;
        lemma_carried_counts(state, keep, entries, entries.len(), entry);
        assert(entries.take(entries.len() as int) =~= entries);
        let before = carried_all(state, keep, deltas, less);
        let more = carried_of(state, keep, entries, entries.len());
        vstd::seq_lib::lemma_multiset_commutative(before, more);
    } else {
        assert(Seq::<DeltaEntry>::empty().to_multiset().len() == 0);
    }
}

/// A merge loses no access. What the segments of the group record about a row whose latest version
/// does not go into the merged segment is handed to its builder, as often as it is recorded; what
/// the merged segment covers with the latest version of a row is not handed on, so that it is not
/// counted twice. The builder gets the versions that survive, and states all edges.
pub proof fn merge_loses_no_access<
    R: Fn(u32, Vec<u8>) -> Result<Vec<DeltaEntry>, MnemeError>,
    B: Fn(&WriterState, &BuildJob, &Vec<DeltaEntry>) -> Result<EncodedSegment, MnemeError>,
>(
    files: FileMap,
    read: R,
    build: B,
    state: WriterState,
    group: Seq<SegmentEntry>,
    keep: Seq<usize>,
    parallelism: usize,
    outcome: Result<EncodedSegment, MnemeError>,
)
    requires
        is_merge_built(files, read, build, state, group, keep, parallelism, outcome),
    ensures
        exists|deltas: Seq<Vec<DeltaEntry>>, job: BuildJob, handed: Vec<DeltaEntry>|
            #![trigger are_deltas(files, read, group, deltas), build.ensures(
                (&state, &job, &handed),
                outcome,
            )]
            {
                &&& are_deltas(files, read, group, deltas)
                &&& build.ensures((&state, &job, &handed), outcome)
                &&& job.slots@ == keep
                &&& job.full_relations
                &&& job.parallelism == parallelism
                &&& forall|entry: DeltaEntry, rowid: u64|
                    #![trigger all_entries(deltas, deltas.len()).count(entry), keep.contains(
                        state@.latest[rowid] as usize,
                    )]
                    entry is Access && entry->Access_rowid == rowid && state@.latest.dom().contains(
                        rowid,
                    ) && !keep.contains(state@.latest[rowid] as usize)
                        ==> handed@.to_multiset().count(entry) == all_entries(
                        deltas,
                        deltas.len(),
                    ).count(entry)
                &&& forall|entry: DeltaEntry, rowid: u64|
                    #![trigger handed@.to_multiset().count(entry), keep.contains(
                        state@.latest[rowid] as usize,
                    )]
                    entry is Access && entry->Access_rowid == rowid && state@.latest.dom().contains(
                        rowid,
                    ) && keep.contains(state@.latest[rowid] as usize)
                        ==> handed@.to_multiset().count(entry) == 0
                &&& forall|entry: DeltaEntry| !(entry is Access) ==> #[trigger] handed@.to_multiset().count(
                    entry,
                ) == 0
            },
{
    let (deltas, job, handed) = choose|
        deltas: Seq<Vec<DeltaEntry>>,
        job: BuildJob,
        handed: Vec<DeltaEntry>,
    |
        #![trigger are_deltas(files, read, group, deltas), build.ensures(
            (&state, &job, &handed),
            outcome,
        )]
        are_deltas(files, read, group, deltas) && handed@ == carried_all(
            state@,
            keep,
            deltas,
            deltas.len(),
        ) && job.slots@ == keep && job.full_relations && job.parallelism == parallelism
            && build.ensures((&state, &job, &handed), outcome);
    assert forall|entry: DeltaEntry|
        #![trigger handed@.to_multiset().count(entry)]
        #![trigger all_entries(deltas, deltas.len()).count(entry)]
        handed@.to_multiset().count(entry) == (if (entry matches DeltaEntry::Access { rowid, .. }
            && !(state@.latest.dom().contains(rowid) && keep.contains(
            state@.latest[rowid] as usize,
        ))) {
            all_entries(deltas, deltas.len()).count(entry)
        } else {
            0
        }) by {
        lemma_all_carried(state@, keep, deltas, deltas.len(), entry);
    }
    assert(are_deltas(files, read, group, deltas));
    assert(build.ensures((&state, &job, &handed), outcome));
}

/// What a segment of the group records about a row whose latest version stays outside of the merged
/// segment is among what is carried over, unchanged; and nothing is carried over that no segment of
/// the group records.
pub proof fn recorded_access_is_carried(
    state: StateModel,
    keep: Seq<usize>,
    deltas: Seq<Vec<DeltaEntry>>,
    at: int,
    position: int,
)
    requires
        0 <= at < deltas.len(),
        0 <= position < deltas[at]@.len(),
    ensures
        (deltas[at]@[position] matches DeltaEntry::Access { rowid, .. } && (
        state.latest.dom().contains(rowid) ==> !keep.contains(state.latest[rowid] as usize)))
            ==> carried_all(state, keep, deltas, deltas.len()).contains(deltas[at]@[position]),
        (deltas[at]@[position] matches DeltaEntry::Access { rowid, .. } && (
        state.latest.dom().contains(rowid) && keep.contains(state.latest[rowid] as usize)))
            ==> !carried_all(state, keep, deltas, deltas.len()).contains(deltas[at]@[position]),
{
    broadcast use vstd::seq_lib::group_to_multiset_ensures;

    let entry = deltas[at]@[position];
    let all = carried_all(state, keep, deltas, deltas.len());
    lemma_all_carried(state, keep, deltas, deltas.len(), entry);
    lemma_entry_counted(deltas, deltas.len(), at, position);
    if all.contains(entry) {
        assert(all.to_multiset().count(entry) > 0);
    }
}

proof fn lemma_entry_counted(
    deltas: Seq<Vec<DeltaEntry>>,
    count: nat,
    at: int,
    position: int,
)
    requires
        0 <= at < count <= deltas.len(),
        0 <= position < deltas[at]@.len(),
    ensures
        all_entries(deltas, count).count(deltas[at]@[position]) > 0,
    decreases count,
{
    broadcast use vstd::seq_lib::group_to_multiset_ensures;

    if at < count - 1 {
        lemma_entry_counted(deltas, (count - 1) as nat, at, position);
    } else {
        assert(deltas[at]@.contains(deltas[at]@[position]));
    }
}

/// A plan that names segments, each of which is there, has its group: of every segment the entry of
/// its number, in the order of the plan. An empty plan and one that names a segment that is not
/// there are refused.
pub proof fn active_plans_have_their_group(
    segments: Seq<SegmentEntry>,
    plan: Seq<u32>,
    result: Result<Vec<SegmentEntry>, MnemeError>,
    at: int,
)
    requires
        group_outcome(segments, plan, result),
    ensures
        result is Ok <==> plan.len() > 0 && forall|i: int|
            0 <= i < plan.len() ==> exists|k: int|
                0 <= k < segments.len() && (#[trigger] segments[k]).segment_id
                    == #[trigger] plan[i],
        result matches Ok(group) ==> (0 <= at < plan.len() ==> group@[at].segment_id == plan[at]
            && segments.contains(group@[at])),
        result matches Ok(group) ==> group@.len() == plan.len(),
{
    if result is Ok {
        let group = result->Ok_0@;
        assert forall|i: int| 0 <= i < plan.len() implies is_active(
            segments,
            #[trigger] plan[i],
        ) by {
            assert(is_first_entry(segments, plan[i], group[i]));
            let k = choose|k: int|
                0 <= k < segments.len() && #[trigger] segments[k] == group[i]
                    && group[i].segment_id == plan[i];
            assert(segments[k].segment_id == plan[i]);
        }
        if 0 <= at < plan.len() {
            assert(is_first_entry(segments, plan[at], group[at]));
        }
    }
}

/// The graphs of merged segments go out of use, and no graph comes from elsewhere.
pub proof fn merged_graphs_are_dropped<I>(
    indexes: Seq<SegmentIndex<I>>,
    plan: Seq<u32>,
    merged: u32,
    count: nat,
    at: int,
)
    requires
        count <= indexes.len(),
    ensures
        0 <= at < graphs_staying(indexes, plan, merged, count).len() ==> {
            let kept = graphs_staying(indexes, plan, merged, count)[at];
            indexes.contains(kept) && !plan.contains(kept.segment_id) && kept.segment_id != merged
        },
        0 <= at < count && !plan.contains(indexes[at].segment_id) && indexes[at].segment_id != merged
            ==> graphs_staying(indexes, plan, merged, count).contains(indexes[at]),
    decreases count,
{
    if count > 0 {
        let less = (count - 1) as nat;
        merged_graphs_are_dropped(indexes, plan, merged, less, at);
        let before = graphs_staying(indexes, plan, merged, less);
        let all = graphs_staying(indexes, plan, merged, count);
        if 0 <= at < all.len() {
            if at < before.len() {
                assert(all[at] == before[at]);
            } else {
                assert(all[at] == indexes[less as int]);
            }
        }
        if 0 <= at < less && before.contains(indexes[at]) {
            let k = choose|k: int| 0 <= k < before.len() && before[k] == indexes[at];
            assert(all[k] == indexes[at]);
        }
        if at == less && graph_stays(indexes[at].segment_id, plan, merged) {
            assert(all[before.len() as int] == indexes[at]);
        }
    }
}

/// What is removed of a merged segment is each of its three files, and nothing of another segment.
pub proof fn merged_segments_lose_every_file(
    segments: Seq<u32>,
    at: int,
    file: SegmentFile,
    id: u32,
)
    ensures
        0 <= at < segments.len() ==> files_of(segments).contains(segment_file(file, segments[at])),
        0 <= at < segments.len() ==> removal_touches(segments, segment_path(file, segments[at])),
        !segments.contains(id) ==> !files_of(segments).contains(segment_file(file, id)),
        files_of(segments).len() == 3 * segments.len(),
{
    let names = files_of(segments);
    if 0 <= at < segments.len() {
        let place = match file {
            SegmentFile::Vsec => 3 * at,
            SegmentFile::Msec => 3 * at + 1,
            SegmentFile::Hidx => 3 * at + 2,
        };
        assert(names[place] == segment_file(file, segments[at]));
        assert(segment_path(file, segments[at]) == path_of(SEGMENTS_DIR@, names[place]));
    }
    if !segments.contains(id) && names.contains(segment_file(file, id)) {
        let k = choose|k: int| 0 <= k < names.len() && names[k] == segment_file(file, id);
        let other = if k % 3 == 0 {
            SegmentFile::Vsec
        } else if k % 3 == 1 {
            SegmentFile::Msec
        } else {
            SegmentFile::Hidx
        };
        assert(segments.contains(segments[k / 3]));
        segment_paths_differ(file, id, other, segments[k / 3]);
        assert(segment_path(file, id) == segment_path(other, segments[k / 3]));
    }
}

/// After a merge the graph of the merged segment is in use, where it was built with one, with one
/// node for every version that survived; so are the graphs of all segments that were not merged.
pub proof fn merged_graph_comes_into_use<I, K: Fn(&EncodedSegment) -> Option<BuiltGraph<I>>>(
    graph_of: K,
    segment_id: u32,
    plan: Seq<u32>,
    keep: Seq<usize>,
    encoded: EncodedSegment,
    before: Seq<SegmentIndex<I>>,
    after: Seq<SegmentIndex<I>>,
    at: int,
)
    requires
        graphs_merged(graph_of, segment_id, plan, keep, encoded, before, after),
    ensures
        exists|graph: Option<BuiltGraph<I>>| #[trigger]
            graph_of.ensures((&encoded,), graph) && (graph matches Some(built) ==> after.len() > 0
                && after.last().segment_id == segment_id && after.last().index == built.index
                && after.last().format == built.format && after.last().recall_est
                == built.recall_est && after.last().slots@.len() == keep.len() && (forall|i: int|
                0 <= i < keep.len() ==> #[trigger] after.last().slots@[i] == keep[i] as u32)),
        0 <= at < before.len() && !plan.contains(before[at].segment_id) && before[at].segment_id
            != segment_id ==> exists|k: int|
            0 <= k < after.len() && (#[trigger] after[k]).segment_id == before[at].segment_id
                && after[k].index == before[at].index && after[k].slots@ == before[at].slots@,
        0 <= at < after.len() ==> after[at].segment_id == segment_id || !plan.contains(
            after[at].segment_id,
        ),
{
    let graph = choose|graph: Option<BuiltGraph<I>>| #[trigger]
        graph_of.ensures((&encoded,), graph) && graph_models(after) == graph_models(
            graphs_staying(before, plan, segment_id, before.len()),
        ) + new_graph(graph, segment_id, keep);
    let staying = graphs_staying(before, plan, segment_id, before.len());
    let held = graph_models(staying);
    let all = graph_models(after);
    assert(all.len() == after.len());
    assert(held.len() == staying.len());
    if graph is Some {
        let last = after.len() - 1;
        assert(all[last] == new_graph(graph, segment_id, keep)[0]);
        assert(all[last] == after[last].model());
        assert forall|i: int| 0 <= i < keep.len() implies #[trigger] after.last().slots@[i]
            == keep[i] as u32 by {
            assert(all[last].slots[i] == keep[i] as u32);
        }
    }
    merged_graphs_are_dropped(before, plan, segment_id, before.len(), at);
    if 0 <= at < before.len() && !plan.contains(before[at].segment_id) && before[at].segment_id
        != segment_id {
        let k = choose|k: int| 0 <= k < staying.len() && staying[k] == before[at];
        assert(all[k] == held[k]);
        assert(all[k] == after[k].model());
        assert(held[k] == staying[k].model());
    }
    if 0 <= at < after.len() {
        assert(all[at] == after[at].model());
        if at < held.len() {
            assert(all[at] == held[at]);
            assert(held[at] == staying[at].model());
        }
    }
}

} // verus!
