//! Flushing: the rows that no segment holds become segments, and a manifest that names them is
//! committed.

use vstd::prelude::*;

use crate::chunk::{
    at_least, build_threads, flush_build_threads, flush_chunk_rows, flush_parallelism,
    split_slot_chunks, splits, Tuning,
};
use crate::crc::{crc32, crc32_of};
use crate::error::{IdKind, Inconsistency, Metric, MnemeError, SegmentFile};
use crate::manifest::{
    copied_segments, empty_outcome, namespaces_bound, next_manifest_version, next_segment_id,
    ns_views, rel_kind_views, rel_kinds_bound, Manifest, ManifestView, NsEntry, RelKindEntry,
    SegmentEntry,
};
use crate::segment::DeltaEntry;
use crate::state::{
    fresh_state, lists_registry, StateModel, WriterState, FIRST_CUSTOM_REL_KIND,
};
use crate::text::text_equal;

verus! {

/// A segment as its builder hands it over, in the clear.
#[derive(Debug)]
pub struct EncodedSegment {
    /// The format that the files are written in.
    pub format_version: u16,
    pub vsec: Vec<u8>,
    pub msec: Vec<u8>,
    /// The graph file, where the segment has one.
    pub hidx: Option<Vec<u8>>,
    pub entry_slot: u32,
    pub entry_level: u8,
}

impl EncodedSegment {
    /// The bytes of one of its files.
    pub open spec fn file(self, file: SegmentFile) -> Option<Vec<u8>> {
        match file {
            SegmentFile::Vsec => Some(self.vsec),
            SegmentFile::Msec => Some(self.msec),
            SegmentFile::Hidx => self.hidx,
        }
    }
}

/// What a builder is asked for.
#[derive(Debug)]
pub struct BuildJob {
    /// The versions that the segment holds.
    pub slots: Vec<usize>,
    /// Whether the segment states all edges.
    pub full_relations: bool,
    /// How many threads the builder may use.
    pub parallelism: usize,
}

/// The positions below `count` of the versions that no segment holds.
pub open spec fn unpersisted(slot_segment: Seq<Option<u32>>, count: nat) -> Seq<usize>
    decreases count,
{
    if count == 0 {
        Seq::empty()
    } else {
        let before = unpersisted(slot_segment, (count - 1) as nat);
        if slot_segment[count - 1] is None {
            before.push((count - 1) as usize)
        } else {
            before
        }
    }
}

/// What is listed as unpersisted is held by no segment.
pub proof fn lemma_unpersisted(slot_segment: Seq<Option<u32>>, count: nat)
    requires
        count <= slot_segment.len(),
        count <= usize::MAX,
    ensures
        forall|i: int|
            0 <= i < unpersisted(slot_segment, count).len() ==> (#[trigger] unpersisted(
                slot_segment,
                count,
            )[i]) < count && slot_segment[unpersisted(slot_segment, count)[i] as int] is None,
    decreases count,
{
    if count > 0 {
        lemma_unpersisted(slot_segment, (count - 1) as nat);
    }
}

/// Lists the versions that no segment holds, in ascending order.
pub fn unpersisted_slots(state: &WriterState) -> (slots: Vec<usize>)
    requires
        state.wf(),
    ensures
        slots@ == unpersisted(state@.slot_segment, state@.slots.len()),
        slots_exist(state@, slots@),
{
    proof {
        state.lemma_wf();
    }
    let count: usize = state.slot_count();
    let mut slots: Vec<usize> = Vec::new();
    let mut at: usize = 0;
    while at < count
        invariant
            state.wf(),
            count == state@.slots.len(),
            at <= count,
            slots@ == unpersisted(state@.slot_segment, at as nat),
        decreases count - at,
    {
        if state.segment_of(at).is_none() {
            slots.push(at);
        }
        at = at + 1;
    }
    proof {
        lemma_unpersisted(state@.slot_segment, count as nat);
    }
    slots
}

/// Whether every position is that of a version.
pub open spec fn slots_exist(state: StateModel, slots: Seq<usize>) -> bool {
    forall|i: int| 0 <= i < slots.len() ==> (#[trigger] slots[i]) < state.slots.len()
}

/// Whether `min` and `max` are the smallest and the largest commit number of the versions; both are
/// 0, where there are none.
pub open spec fn is_seqno_range(state: StateModel, slots: Seq<usize>, min: u64, max: u64) -> bool {
    if slots.len() == 0 {
        min == 0 && max == 0
    } else {
        &&& forall|i: int|
            0 <= i < slots.len() ==> min <= state.slots[#[trigger] slots[i] as int].seqno <= max
        &&& exists|i: int|
            0 <= i < slots.len() && state.slots[#[trigger] slots[i] as int].seqno == min
        &&& exists|i: int|
            0 <= i < slots.len() && state.slots[#[trigger] slots[i] as int].seqno == max
    }
}

/// Finds the smallest and the largest commit number of versions.
pub fn seqno_range(state: &WriterState, slots: &Vec<usize>) -> (range: (u64, u64))
    requires
        state.wf(),
        slots_exist(state@, slots@),
    ensures
        is_seqno_range(state@, slots@, range.0, range.1),
{
    let mut min: u64 = u64::MAX;
    let mut max: u64 = 0;
    let mut i: usize = 0;
    while i < slots.len()
        invariant
            state.wf(),
            slots_exist(state@, slots@),
            i <= slots@.len(),
            i == 0 ==> min == u64::MAX && max == 0,
            forall|k: int|
                0 <= k < i ==> min <= state@.slots[#[trigger] slots@[k] as int].seqno <= max,
            i > 0 ==> exists|k: int|
                0 <= k < i && state@.slots[#[trigger] slots@[k] as int].seqno == min,
            i > 0 ==> exists|k: int|
                0 <= k < i && state@.slots[#[trigger] slots@[k] as int].seqno == max,
        decreases slots@.len() - i,
    {
        let value: u64 = state.slot(slots[i]).seqno;
        let ghost low = min;
        let ghost high = max;
        assert(state@.slots[slots@[i as int] as int].seqno == value);
        if value < min || i == 0 {
            min = value;
        }
        if value > max || i == 0 {
            max = value;
        }
        proof {
            if i > 0 {
                let a = choose|k: int|
                    0 <= k < i && state@.slots[#[trigger] slots@[k] as int].seqno == low;
                let b = choose|k: int|
                    0 <= k < i && state@.slots[#[trigger] slots@[k] as int].seqno == high;
                assert(state@.slots[slots@[a] as int].seqno == low);
                assert(state@.slots[slots@[b] as int].seqno == high);
            }
        }
        i = i + 1;
    }
    if slots.len() == 0 {
        (0, 0)
    } else {
        (min, max)
    }
}

/// The checksum that a manifest states for a graph file.
pub open spec fn graph_crc(hidx: Option<Vec<u8>>) -> u32 {
    match hidx {
        Some(bytes) => crc32_of(bytes@),
        None => 0,
    }
}

/// Whether an entry describes a segment: what it holds and how its files check.
pub open spec fn describes(
    entry: SegmentEntry,
    state: StateModel,
    segment_id: u32,
    slots: Seq<usize>,
    now_ms: i64,
    encoded: EncodedSegment,
) -> bool {
    &&& entry.segment_id == segment_id
    &&& entry.format_version == encoded.format_version
    &&& entry.row_count == slots.len()
    &&& is_seqno_range(state, slots, entry.min_seqno, entry.max_seqno)
    &&& entry.created_ms == now_ms
    &&& entry.vsec_crc == crc32_of(encoded.vsec@)
    &&& entry.msec_crc == crc32_of(encoded.msec@)
    &&& entry.hidx_crc == graph_crc(encoded.hidx)
    &&& entry.entry_slot == encoded.entry_slot
    &&& entry.entry_level == encoded.entry_level
}

/// Describes a segment for the manifest.
pub fn segment_entry(
    state: &WriterState,
    segment_id: u32,
    slots: &Vec<usize>,
    now_ms: i64,
    encoded: &EncodedSegment,
) -> (entry: SegmentEntry)
    requires
        state.wf(),
        slots_exist(state@, slots@),
    ensures
        describes(entry, state@, segment_id, slots@, now_ms, *encoded),
{
    let (min_seqno, max_seqno) = seqno_range(state, slots);
    let hidx_crc: u32 = match &encoded.hidx {
        Some(bytes) => crc32(bytes.as_slice()),
        None => 0,
    };
    SegmentEntry {
        segment_id,
        format_version: encoded.format_version,
        row_count: slots.len() as u64,
        min_seqno,
        max_seqno,
        created_ms: now_ms,
        vsec_crc: crc32(encoded.vsec.as_slice()),
        msec_crc: crc32(encoded.msec.as_slice()),
        hidx_crc,
        entry_slot: encoded.entry_slot,
        entry_level: encoded.entry_level,
    }
}

/// A registry as pairs of 64-bit numbers and texts.
pub open spec fn widened_namespaces(entries: Seq<(u32, Seq<char>)>) -> Seq<(u64, Seq<char>)> {
    entries.map_values(|e: (u32, Seq<char>)| (e.0 as u64, e.1))
}

/// A registry as pairs of 64-bit numbers and texts.
pub open spec fn widened_rel_kinds(entries: Seq<(u16, Seq<char>)>) -> Seq<(u64, Seq<char>)> {
    entries.map_values(|e: (u16, Seq<char>)| (e.0 as u64, e.1))
}

/// Lists the namespaces for the manifest, in ascending order of their ids.
pub fn manifest_namespaces(state: &WriterState) -> (entries: Vec<NsEntry>)
    requires
        state.wf(),
    ensures
        lists_registry(state@.ns_registry, widened_namespaces(ns_views(entries@))),
        entries@.len() == state@.ns_registry.len(),
{
    proof {
        state.lemma_wf();
        state.lemma_listed_namespaces();
    }
    let count: usize = state.namespace_count();
    let ghost listed = state.listed_namespaces();
    let mut entries: Vec<NsEntry> = Vec::new();
    let mut i: usize = 0;
    while i < count
        invariant
            state.wf(),
            listed == state.listed_namespaces(),
            count == listed.len(),
            lists_registry(state@.ns_registry, listed),
            state@.consistent(),
            i <= count,
            entries@.len() == i,
            forall|k: int|
                0 <= k < i
                    ==> listed[k] == ((#[trigger] entries@[k]).ns_id as u64, entries@[k].path@),
        decreases count - i,
    {
        let (id, path) = state.namespace_at(i);
        assert(state@.ns_registry.dom().contains(listed[i as int].0));
        entries.push(NsEntry { ns_id: id as u32, path: path.clone() });
        i = i + 1;
    }
    assert(widened_namespaces(ns_views(entries@)) =~= listed);
    entries
}

/// Lists the relation kinds for the manifest, in ascending order of their numbers.
pub fn manifest_rel_kinds(state: &WriterState) -> (entries: Vec<RelKindEntry>)
    requires
        state.wf(),
    ensures
        lists_registry(state@.rel_kind_names, widened_rel_kinds(rel_kind_views(entries@))),
{
    proof {
        state.lemma_wf();
        state.lemma_listed_rel_kinds();
    }
    let count: usize = state.rel_kind_count();
    let ghost listed = state.listed_rel_kinds();
    let mut entries: Vec<RelKindEntry> = Vec::new();
    let mut i: usize = 0;
    while i < count
        invariant
            state.wf(),
            listed == state.listed_rel_kinds(),
            count == listed.len(),
            lists_registry(state@.rel_kind_names, listed),
            state@.consistent(),
            i <= count,
            entries@.len() == i,
            forall|k: int|
                0 <= k < i
                    ==> listed[k] == ((#[trigger] entries@[k]).kind as u64, entries@[k].name@),
        decreases count - i,
    {
        let (kind, name) = state.rel_kind_at(i);
        assert(state@.rel_kind_names.dom().contains(listed[i as int].0));
        entries.push(RelKindEntry { kind: kind as u16, name: name.clone() });
        i = i + 1;
    }
    assert(widened_rel_kinds(rel_kind_views(entries@)) =~= listed);
    entries
}

/// Whether a registry binds a namespace of the manifest otherwise or not at all.
pub open spec fn binds_otherwise(registry: Map<u64, Seq<char>>, entry: (u32, Seq<char>)) -> bool {
    !registry.dom().contains(entry.0 as u64) || registry[entry.0 as u64] != entry.1
}

/// Whether the namespaces are not those of the manifest: there are more or fewer, or one is bound
/// otherwise.
pub open spec fn registry_changed(previous: ManifestView, state: StateModel) -> bool {
    previous.namespaces.len() != state.ns_registry.len() || exists|i: int|
        0 <= i < previous.namespaces.len() && binds_otherwise(
            state.ns_registry,
            #[trigger] previous.namespaces[i],
        )
}

/// Decides whether the namespaces are not those of the manifest.
pub fn namespace_registry_changed(previous: &Manifest, state: &WriterState) -> (changed: bool)
    requires
        state.wf(),
    ensures
        changed == registry_changed(previous@, state@),
{
    if previous.namespaces.len() != state.namespace_count() {
        return true;
    }
    let mut i: usize = 0;
    while i < previous.namespaces.len()
        invariant
            state.wf(),
            previous.namespaces@.len() == state@.ns_registry.len(),
            i <= previous.namespaces@.len(),
            forall|k: int|
                0 <= k < i ==> !binds_otherwise(
                    state@.ns_registry,
                    #[trigger] previous@.namespaces[k],
                ),
        decreases previous.namespaces@.len() - i,
    {
        let entry = &previous.namespaces[i];
        assert(previous@.namespaces[i as int] == (entry.ns_id, entry.path@));
        let same: bool = match state.registered_path(entry.ns_id) {
            Some(path) => text_equal(path.as_str(), entry.path.as_str()),
            None => false,
        };
        if !same {
            return true;
        }
        i = i + 1;
    }
    false
}

/// Whether the entries describe segments with consecutive numbers.
pub open spec fn all_described(
    entries: Seq<SegmentEntry>,
    state: StateModel,
    base: u32,
    jobs: Seq<BuildJob>,
    now_ms: i64,
    encoded: Seq<EncodedSegment>,
) -> bool {
    &&& entries.len() == encoded.len()
    &&& forall|i: int|
        0 <= i < entries.len() ==> describes(
            #[trigger] entries[i],
            state,
            (base + i) as u32,
            jobs[i].slots@,
            now_ms,
            encoded[i],
        )
}

/// What the next manifest holds: the segments of the previous one and the new ones behind them, the
/// counters and registries of the state.
pub open spec fn follows(
    next: ManifestView,
    previous: ManifestView,
    dimension: u32,
    metric: Metric,
    state: StateModel,
    jobs: Seq<BuildJob>,
    now_ms: i64,
    encoded: Seq<EncodedSegment>,
) -> bool {
    let held = previous.segments.len() as int;
    &&& next.dimension == dimension
    &&& next.metric == metric
    &&& next.stopwords == previous.stopwords
    &&& next.next_rel_kind == state.next_rel_kind
    &&& next.manifest_version == previous.manifest_version + 1
    &&& next.watermark_seqno == state.seqno
    &&& next.next_rowid == state.next_rowid
    &&& next.next_segment_id == previous.next_segment_id + encoded.len()
    &&& next.next_ns_id == state.next_ns_id
    &&& lists_registry(state.ns_registry, widened_namespaces(next.namespaces))
    &&& lists_registry(state.rel_kind_names, widened_rel_kinds(next.rel_kinds))
    &&& next.segments.len() == held + encoded.len()
    &&& next.segments.take(held) == previous.segments
    &&& all_described(
        next.segments.skip(held),
        state,
        previous.next_segment_id,
        jobs,
        now_ms,
        encoded,
    )
}

/// Whether the numbers for this many new segments and for the next manifest are there.
pub open spec fn numbers_suffice(previous: ManifestView, count: nat) -> bool {
    previous.next_segment_id + count <= u32::MAX && previous.manifest_version < u64::MAX
}

/// The error where they are not.
pub open spec fn exhausted(previous: ManifestView, count: nat) -> MnemeError {
    MnemeError::IdExhausted {
        kind: if previous.next_segment_id + count > u32::MAX {
            IdKind::SegmentId
        } else {
            IdKind::ManifestVersion
        },
    }
}

/// Puts the next manifest together.
pub fn next_manifest(
    previous: &Manifest,
    dimension: u32,
    metric: Metric,
    state: &WriterState,
    jobs: &Vec<BuildJob>,
    now_ms: i64,
    encoded: &Vec<EncodedSegment>,
) -> (result: Result<Manifest, MnemeError>)
    requires
        state.wf(),
        jobs@.len() == encoded@.len(),
        jobs_exist(state@, jobs@),
    ensures
        match result {
            Ok(next) => numbers_suffice(previous@, encoded@.len()) && follows(
                next@,
                previous@,
                dimension,
                metric,
                state@,
                jobs@,
                now_ms,
                encoded@,
            ),
            Err(error) => !numbers_suffice(previous@, encoded@.len()) && error == exhausted(
                previous@,
                encoded@.len(),
            ),
        },
{
    let mut segments = copied_segments(&previous.segments);
    let mut next_id: u32 = previous.next_segment_id;
    let ghost held = previous.segments@.len() as int;
    let mut i: usize = 0;
    assert(segments@.skip(held) =~= Seq::empty());
    assert(segments@.take(held) =~= previous.segments@);
    while i < encoded.len()
        invariant
            state.wf(),
            jobs@.len() == encoded@.len(),
            jobs_exist(state@, jobs@),
            i <= encoded@.len(),
            next_id == previous.next_segment_id + i,
            held == previous.segments@.len(),
            segments@.len() == held + i,
            segments@.take(held) == previous.segments@,
            forall|k: int|
                0 <= k < i ==> describes(
                    #[trigger] segments@.skip(held)[k],
                    state@,
                    (previous.next_segment_id + k) as u32,
                    jobs@[k].slots@,
                    now_ms,
                    encoded@[k],
                ),
        decreases encoded@.len() - i,
    {
        assert(slots_exist(state@, jobs@[i as int].slots@));
        let ghost before = segments@;
        let entry = segment_entry(state, next_id, &jobs[i].slots, now_ms, &encoded[i]);
        segments.push(entry);
        proof {
            assert(segments@.take(held) =~= before.take(held));
            assert forall|k: int| 0 <= k < i + 1 implies describes(
                #[trigger] segments@.skip(held)[k],
                state@,
                (previous.next_segment_id + k) as u32,
                jobs@[k].slots@,
                now_ms,
                encoded@[k],
            ) by {
                if k < i {
                    assert(segments@.skip(held)[k] == before.skip(held)[k]);
                }
            }
        }
        match next_segment_id(next_id) {
            Ok(next) => {
                next_id = next;
            },
            Err(error) => {
                return Err(error);
            },
        }
        i = i + 1;
    }
    let version: u64 = match next_manifest_version(previous.manifest_version) {
        Ok(version) => version,
        Err(error) => {
            return Err(error);
        },
    };
    Ok(
        Manifest {
            dimension,
            metric,
            stopwords: previous.stopwords,
            next_rel_kind: state.next_rel_kind(),
            manifest_version: version,
            watermark_seqno: state.seqno(),
            next_rowid: state.next_rowid(),
            next_segment_id: next_id,
            next_ns_id: state.next_ns_id(),
            namespaces: manifest_namespaces(state),
            rel_kinds: manifest_rel_kinds(state),
            segments,
        },
    )
}

/// Whether every job names versions that are there.
pub open spec fn jobs_exist(state: StateModel, jobs: Seq<BuildJob>) -> bool {
    forall|i: int| 0 <= i < jobs.len() ==> slots_exist(state, (#[trigger] jobs[i]).slots@)
}

/// How many threads the builder of one segment may use. Where several segments are built at a time,
/// each builder gets one, so that they do not crowd each other out.
pub open spec fn inner_parallelism(
    slot_count: nat,
    chunk_count: nat,
    dimension: u32,
    tuning: Tuning,
    parallelism: usize,
) -> usize {
    if slot_count == 0 {
        1
    } else if chunk_count <= 1 {
        parallelism
    } else if build_threads(
        dimension as usize,
        at_least(tuning.flush_chunk_rows as int, 1) as usize,
        at_least(tuning.flush_threads as int, 1) as usize,
        chunk_count as usize,
    ) > 1 {
        1
    } else {
        parallelism
    }
}

/// The versions of every job.
pub open spec fn job_slots(jobs: Seq<BuildJob>) -> Seq<Vec<usize>> {
    jobs.map_values(|j: BuildJob| j.slots)
}

/// Whether the jobs are those of a flush: one for every chunk of the versions; one without versions,
/// where there is a delta alone; none, where there is neither. The first job carries the delta and
/// the edges.
pub open spec fn are_jobs(
    jobs: Seq<BuildJob>,
    slots: Seq<usize>,
    has_delta: bool,
    full_relations: bool,
    dimension: u32,
    tuning: Tuning,
    parallelism: usize,
) -> bool {
    &&& slots.len() == 0 && !has_delta ==> jobs.len() == 0
    &&& slots.len() > 0 || has_delta ==> splits(
        slots,
        at_least(tuning.flush_chunk_rows as int, 1) as nat,
        job_slots(jobs),
    )
    &&& forall|i: int|
        0 <= i < jobs.len() ==> (#[trigger] jobs[i]).full_relations == (i == 0 && full_relations)
            && jobs[i].parallelism == inner_parallelism(
            slots.len(),
            jobs.len(),
            dimension,
            tuning,
            parallelism,
        )
}

/// Splits a flush into jobs.
pub fn flush_jobs(
    slots: &Vec<usize>,
    has_delta: bool,
    full_relations: bool,
    dimension: u32,
    tuning: &Tuning,
    parallelism: usize,
) -> (jobs: Vec<BuildJob>)
    ensures
        are_jobs(jobs@, slots@, has_delta, full_relations, dimension, *tuning, parallelism),
{
    let mut jobs: Vec<BuildJob> = Vec::new();
    if slots.len() == 0 && !has_delta {
        return jobs;
    }
    let chunks = split_slot_chunks(slots, tuning);
    let count: usize = chunks.len();
    let inner: usize = if slots.len() == 0 {
        1
    } else if count <= 1 {
        parallelism
    } else {
        let threads: usize = flush_build_threads(
            dimension as usize,
            flush_chunk_rows(tuning),
            flush_parallelism(tuning),
            count,
        );
        if threads > 1 {
            1
        } else {
            parallelism
        }
    };
    let mut i: usize = 0;
    while i < count
        invariant
            i <= count,
            count == chunks@.len(),
            jobs@.len() == i,
            forall|k: int|
                0 <= k < i ==> (#[trigger] jobs@[k]).slots@ == chunks@[k]@
                    && jobs@[k].full_relations == (k == 0 && full_relations)
                    && jobs@[k].parallelism == inner,
        decreases count - i,
    {
        let job = BuildJob {
            slots: vstd::slice::slice_to_vec(chunks[i].as_slice()),
            full_relations: i == 0 && full_relations,
            parallelism: inner,
        };
        jobs.push(job);
        i = i + 1;
    }
    proof {
        let rows = at_least(tuning.flush_chunk_rows as int, 1) as nat;
        assert forall|k: int| 0 <= k < jobs@.len() implies (#[trigger] job_slots(jobs@)[k])@
            == chunks@[k]@ by {
            assert(jobs@[k].slots@ == chunks@[k]@);
        }
        assert(splits(slots@, rows, job_slots(jobs@)));
    }
    jobs
}

/// Jobs that split versions that are there name versions that are there.
pub proof fn lemma_jobs_exist(
    state: StateModel,
    jobs: Seq<BuildJob>,
    slots: Seq<usize>,
    rows: nat,
)
    requires
        slots_exist(state, slots),
        rows >= 1,
        jobs.len() > 0 ==> splits(slots, rows, job_slots(jobs)),
    ensures
        jobs_exist(state, jobs),
{
    assert forall|i: int| 0 <= i < jobs.len() implies slots_exist(
        state,
        (#[trigger] jobs[i]).slots@,
    ) by {
        let part = job_slots(jobs)[i];
        assert(part == jobs[i].slots);
        if slots.len() > 0 {
            let from = crate::chunk::chunk_start(slots.len(), rows, i);
            let to = crate::chunk::chunk_start(slots.len(), rows, i + 1);
            assert(i * rows >= 0) by (nonlinear_arith)
                requires
                    i >= 0,
            ;
            assert(i * rows <= (i + 1) * rows) by (nonlinear_arith)
                requires
                    rows >= 0,
            ;
            assert(part@ == slots.subrange(from, to));
            assert forall|k: int| 0 <= k < part@.len() implies (#[trigger] part@[k])
                < state.slots.len() by {
                assert(part@[k] == slots[from + k]);
            }
        }
    }
}

/// Whether a builder may answer a job so. The first job is handed the delta, the others an empty
/// one.
pub open spec fn is_built<
    B: Fn(&WriterState, &BuildJob, &Vec<DeltaEntry>) -> Result<EncodedSegment, MnemeError>,
>(
    build: B,
    state: WriterState,
    job: BuildJob,
    first: bool,
    delta: Vec<DeltaEntry>,
    outcome: Result<EncodedSegment, MnemeError>,
) -> bool {
    exists|passed: Vec<DeltaEntry>|
        #![trigger build.ensures((&state, &job, &passed), outcome)]
        (if first {
            passed == delta
        } else {
            passed@.len() == 0
        }) && build.ensures((&state, &job, &passed), outcome)
}

/// Whether the jobs of a flush are answered so up to the first that fails, and this is its error.
pub open spec fn build_stops<
    B: Fn(&WriterState, &BuildJob, &Vec<DeltaEntry>) -> Result<EncodedSegment, MnemeError>,
>(
    build: B,
    state: WriterState,
    delta: Vec<DeltaEntry>,
    jobs: Seq<BuildJob>,
    done: Seq<EncodedSegment>,
    error: MnemeError,
) -> bool {
    &&& done.len() < jobs.len()
    &&& forall|i: int|
        0 <= i < done.len() ==> is_built(
            build,
            state,
            jobs[i],
            i == 0,
            delta,
            Ok(#[trigger] done[i]),
        )
    &&& is_built(build, state, jobs[done.len() as int], done.len() == 0, delta, Err(error))
}

/// Builds the segments of a flush, in order, up to the first that fails.
pub fn build_segments<
    B: Fn(&WriterState, &BuildJob, &Vec<DeltaEntry>) -> Result<EncodedSegment, MnemeError>,
>(state: &WriterState, jobs: &Vec<BuildJob>, delta: &Vec<DeltaEntry>, build: &B) -> (result: Result<
    Vec<EncodedSegment>,
    MnemeError,
>)
    requires
        forall|job: BuildJob, passed: Vec<DeltaEntry>| build.requires((state, &job, &passed)),
    ensures
        match result {
            Ok(encoded) => encoded@.len() == jobs@.len() && forall|i: int|
                0 <= i < jobs@.len() ==> is_built(
                    *build,
                    *state,
                    jobs@[i],
                    i == 0,
                    *delta,
                    Ok(#[trigger] encoded@[i]),
                ),
            Err(error) => exists|done: Seq<EncodedSegment>| #[trigger]
                build_stops(*build, *state, *delta, jobs@, done, error),
        },
{
    let nothing: Vec<DeltaEntry> = Vec::new();
    let mut encoded: Vec<EncodedSegment> = Vec::new();
    let mut i: usize = 0;
    while i < jobs.len()
        invariant
            forall|job: BuildJob, passed: Vec<DeltaEntry>|
                build.requires((state, &job, &passed)),
            nothing@.len() == 0,
            i <= jobs@.len(),
            encoded@.len() == i,
            forall|k: int|
                0 <= k < i ==> is_built(
                    *build,
                    *state,
                    jobs@[k],
                    k == 0,
                    *delta,
                    Ok(#[trigger] encoded@[k]),
                ),
        decreases jobs@.len() - i,
    {
        let job = &jobs[i];
        let passed = if i == 0 {
            delta
        } else {
            &nothing
        };
        let outcome = build(state, job, passed);
        assert(is_built(*build, *state, jobs@[i as int], i == 0, *delta, outcome)) by {
            assert(build.ensures((state, &jobs@[i as int], passed), outcome));
        }
        match outcome {
            Ok(segment) => {
                encoded.push(segment);
            },
            Err(error) => {
                assert(build_stops(*build, *state, *delta, jobs@, encoded@, error));
                return Err(error);
            },
        }
        i = i + 1;
    }
    Ok(encoded)
}

/// Which jobs a worker takes: the one of its own number and every `threads`-th behind it.
pub open spec fn is_dealt(worker: nat, threads: nat, index: nat) -> bool {
    threads > 0 && index % threads == worker
}

/// Lists the jobs that a worker takes.
pub fn worker_jobs(worker: usize, threads: usize, count: usize) -> (indexes: Vec<usize>)
    requires
        worker < threads,
    ensures
        forall|i: int|
            0 <= i < indexes@.len() ==> (#[trigger] indexes@[i]) < count && is_dealt(
                worker as nat,
                threads as nat,
                indexes@[i] as nat,
            ),
        forall|index: usize| #[trigger]
            is_dealt(worker as nat, threads as nat, index as nat) && index < count
                ==> indexes@.contains(index),
        forall|i: int, j: int|
            0 <= i < j < indexes@.len() ==> (#[trigger] indexes@[i]) < (#[trigger] indexes@[j]),
{
    let mut indexes: Vec<usize> = Vec::new();
    let mut index: usize = 0;
    while index < count
        invariant
            worker < threads,
            index <= count,
            forall|i: int|
                0 <= i < indexes@.len() ==> (#[trigger] indexes@[i]) < index && is_dealt(
                    worker as nat,
                    threads as nat,
                    indexes@[i] as nat,
                ),
            forall|k: usize| #[trigger]
                is_dealt(worker as nat, threads as nat, k as nat) && k < index
                    ==> indexes@.contains(k),
            forall|i: int, j: int|
                0 <= i < j < indexes@.len() ==> (#[trigger] indexes@[i]) < (#[trigger] indexes@[j]),
        decreases count - index,
    {
        let ghost before = indexes@;
        if index % threads == worker {
            indexes.push(index);
            assert(indexes@[before.len() as int] == index);
        }
        proof {
            assert forall|k: usize| #[trigger]
                is_dealt(worker as nat, threads as nat, k as nat) && k < index
                    + 1 implies indexes@.contains(k) by {
                if k < index {
                    let i = choose|i: int| 0 <= i < before.len() && before[i] == k;
                    assert(indexes@[i] == k);
                } else {
                    assert(k == index);
                    assert(indexes@[before.len() as int] == k);
                }
            }
        }
        index = index + 1;
    }
    indexes
}

/// Every job goes to exactly one worker.
pub proof fn jobs_are_dealt_once(threads: nat, index: nat)
    requires
        threads > 0,
    ensures
        index % threads < threads,
        is_dealt(index % threads, threads, index),
        forall|worker: nat| #[trigger] is_dealt(worker, threads, index) ==> worker == index
            % threads,
{
    assert(index % threads < threads) by (nonlinear_arith)
        requires
            threads > 0,
    ;
}

/// Puts what the workers produced back into the order of the jobs. The first worker that failed
/// decides the error; a job that nobody produced is an error too.
pub fn collect_chunk_results<T>(produced: Vec<Result<Vec<(usize, T)>, MnemeError>>, count: usize) -> (
result: Result<Vec<T>, MnemeError>)
    requires
        forall|w: int|
            0 <= w < produced@.len() ==> ((#[trigger] produced@[w]) matches Ok(pairs)
                ==> indexes_below(pairs@, count as int)),
    ensures
        match result {
            Ok(items) => items@.len() == count && (forall|w: int|
                0 <= w < produced@.len() ==> (#[trigger] produced@[w]) is Ok) && forall|i: int|
                0 <= i < count ==> was_produced(produced@, i, #[trigger] items@[i]),
            Err(error) => (exists|w: int|
                0 <= w < produced@.len() && #[trigger] produced@[w] == Err::<
                    Vec<(usize, T)>,
                    MnemeError,
                >(error) && forall|v: int|
                    0 <= v < w ==> (#[trigger] produced@[v]) is Ok) || (error
                == (MnemeError::Inconsistent { reason: Inconsistency::BuiltChunkMissing }) && (
            forall|w: int| 0 <= w < produced@.len() ==> (#[trigger] produced@[w]) is Ok) && exists|
                i: int,
            |
                0 <= i < count && #[trigger] never_produced(produced@, i)),
        },
{
    let ghost all = produced@;
    let mut slots: Vec<Option<T>> = Vec::new();
    let mut n: usize = 0;
    while n < count
        invariant
            n <= count,
            slots@.len() == n,
            forall|k: int| 0 <= k < n ==> (#[trigger] slots@[k]) is None,
        decreases count - n,
    {
        slots.push(None);
        n = n + 1;
    }
    let mut rest = produced;
    let ghost mut done: int = 0;
    assert(all.skip(0) =~= all);
    while rest.len() > 0
        invariant
            all == produced@,
            slots@.len() == count,
            0 <= done <= all.len(),
            rest@ == all.skip(done),
            forall|w: int| 0 <= w < done ==> (#[trigger] all[w]) is Ok,
            forall|w: int|
                0 <= w < all.len() ==> ((#[trigger] all[w]) matches Ok(pairs) ==> indexes_below(
                    pairs@,
                    count as int,
                )),
            forall|i: int|
                0 <= i < count && (#[trigger] slots@[i]) is Some ==> produced_among(
                    all,
                    done,
                    i,
                    slots@[i]->Some_0,
                ),
            forall|i: int|
                0 <= i < count && (#[trigger] slots@[i]) is None ==> absent_among(all, done, i),
        decreases rest@.len(),
    {
        let ghost before = slots@;
        let outcome = rest.remove(0);
        assert(all.skip(done)[0] == all[done]);
        assert(rest@ =~= all.skip(done + 1));
        match outcome {
                Err(error) => {
                    assert(all[done] == Err::<Vec<(usize, T)>, MnemeError>(error));
                    return Err(error);
                },
                Ok(pairs) => {
                    assert(all[done] == Ok::<Vec<(usize, T)>, MnemeError>(pairs));
                    place_pairs(&mut slots, pairs, count);
                    proof {
                        assert forall|i: int|
                            0 <= i < count && (#[trigger] slots@[i]) is Some implies produced_among(
                            all,
                            done + 1,
                            i,
                            slots@[i]->Some_0,
                        ) by {
                            if in_pairs(pairs@, pairs@.len() as int, i, slots@[i]->Some_0) {
                                assert(all[done] is Ok);
                            } else {
                                assert(slots@[i] == before[i]);
                                let w = choose|w: int|
                                    0 <= w < done && all[w] is Ok && #[trigger] in_pairs(
                                        all[w]->Ok_0@,
                                        all[w]->Ok_0@.len() as int,
                                        i,
                                        before[i]->Some_0,
                                    );
                                assert(in_pairs(
                                    all[w]->Ok_0@,
                                    all[w]->Ok_0@.len() as int,
                                    i,
                                    before[i]->Some_0,
                                ));
                            }
                        }
                        assert forall|i: int|
                            0 <= i < count && (#[trigger] slots@[i]) is None implies absent_among(
                            all,
                            done + 1,
                            i,
                        ) by {
                            assert(before[i] is None);
                            assert(absent_among(all, done, i));
                        }
                        done = done + 1;
                    }
                },
        }
    }
    let mut items: Vec<T> = Vec::new();
    let ghost placed = slots@;
    assert(placed.skip(0) =~= placed);
    let mut i: usize = 0;
    while i < count
        invariant
            all == produced@,
            i <= count,
            placed.len() == count,
            slots@ == placed.skip(i as int),
            items@.len() == i,
            forall|k: int|
                0 <= k < count && (#[trigger] placed[k]) is Some ==> produced_among(
                    all,
                    all.len() as int,
                    k,
                    placed[k]->Some_0,
                ),
            forall|k: int|
                0 <= k < count && (#[trigger] placed[k]) is None ==> absent_among(
                    all,
                    all.len() as int,
                    k,
                ),
            forall|w: int| 0 <= w < all.len() ==> (#[trigger] all[w]) is Ok,
            forall|k: int| 0 <= k < i ==> was_produced(all, k, #[trigger] items@[k]),
        decreases count - i,
    {
        let slot = slots.remove(0);
        proof {
            assert(placed.skip(i as int)[0] == placed[i as int]);
            assert(slots@ =~= placed.skip(i + 1));
        }
        match slot {
            Some(item) => {
                assert(placed[i as int] == Some(item));
                assert(was_produced(all, i as int, item));
                items.push(item);
            },
            None => {
                assert(placed[i as int] is None);
                assert(absent_among(all, all.len() as int, i as int));
                assert(never_produced(all, i as int));
                return Err(MnemeError::Inconsistent { reason: Inconsistency::BuiltChunkMissing });
            },
        }
        i = i + 1;
    }
    Ok(items)
}

/// Whether every index lies below a bound.
pub open spec fn indexes_below<T>(pairs: Seq<(usize, T)>, count: int) -> bool {
    forall|i: int| 0 <= i < pairs.len() ==> (#[trigger] pairs[i]).0 < count
}

/// Whether the first `len` pairs hold an item under an index.
pub open spec fn in_pairs<T>(pairs: Seq<(usize, T)>, len: int, index: int, item: T) -> bool {
    exists|i: int| 0 <= i < len && #[trigger] pairs[i] == (index as usize, item)
}

/// Whether one of the first `count` workers produced an item under an index.
pub open spec fn produced_among<T>(
    produced: Seq<Result<Vec<(usize, T)>, MnemeError>>,
    count: int,
    index: int,
    item: T,
) -> bool {
    exists|w: int|
        0 <= w < count && produced[w] is Ok && #[trigger] in_pairs(
            produced[w]->Ok_0@,
            produced[w]->Ok_0@.len() as int,
            index,
            item,
        )
}

/// Whether a worker produced an item under an index.
pub open spec fn was_produced<T>(
    produced: Seq<Result<Vec<(usize, T)>, MnemeError>>,
    index: int,
    item: T,
) -> bool {
    produced_among(produced, produced.len() as int, index, item)
}

/// Whether none of the first `count` workers produced anything under an index.
pub open spec fn absent_among<T>(
    produced: Seq<Result<Vec<(usize, T)>, MnemeError>>,
    count: int,
    index: int,
) -> bool {
    forall|w: int, i: int|
        #![trigger produced[w]->Ok_0@[i]]
        0 <= w < count && produced[w] is Ok && 0 <= i < produced[w]->Ok_0@.len()
            ==> produced[w]->Ok_0@[i].0 != index
}

/// Whether no worker produced anything under an index.
pub open spec fn never_produced<T>(
    produced: Seq<Result<Vec<(usize, T)>, MnemeError>>,
    index: int,
) -> bool {
    absent_among(produced, produced.len() as int, index)
}

/// Puts items into their places.
fn place_pairs<T>(slots: &mut Vec<Option<T>>, pairs: Vec<(usize, T)>, count: usize)
    requires
        old(slots)@.len() == count,
        indexes_below(pairs@, count as int),
    ensures
        final(slots)@.len() == count,
        forall|i: int|
            0 <= i < count
                ==> ((#[trigger] final(slots)@[i]) == old(slots)@[i] || (final(slots)@[i] is Some
                && in_pairs(
                pairs@,
                pairs@.len() as int,
                i,
                final(slots)@[i]->Some_0,
            ))),
        forall|i: int|
            0 <= i < count && (#[trigger] final(slots)@[i]) is None ==> old(slots)@[i] is None && (
            forall|k: int| 0 <= k < pairs@.len() ==> (#[trigger] pairs@[k]).0 != i),
{
    let ghost all = pairs@;
    let ghost start = slots@;
    let mut rest = pairs;
    let ghost mut done: int = 0;
    assert(all.skip(0) =~= all);
    while rest.len() > 0
        invariant
            slots@.len() == count,
            start.len() == count,
            indexes_below(all, count as int),
            0 <= done <= all.len(),
            rest@ == all.skip(done),
            forall|i: int|
                0 <= i < count ==> ((#[trigger] slots@[i]) == start[i] || (slots@[i] is Some
                    && in_pairs(all, done, i, slots@[i]->Some_0))),
            forall|i: int|
                0 <= i < count && (#[trigger] slots@[i]) is None ==> start[i] is None && (forall|
                    k: int,
                |
                    0 <= k < done ==> (#[trigger] all[k]).0 != i),
        decreases rest@.len(),
    {
        let ghost before = slots@;
        let (index, item) = rest.remove(0);
        assert(all.skip(done)[0] == all[done]);
        assert(rest@ =~= all.skip(done + 1));
                assert(all[done] == (index, item));
                slots.set(index, Some(item));
                proof {
                    assert forall|i: int| 0 <= i < count implies ((#[trigger] slots@[i])
                        == start[i] || (slots@[i] is Some && in_pairs(
                        all,
                        done + 1,
                        i,
                        slots@[i]->Some_0,
                    ))) by {
                        if i == index {
                            assert(all[done] == (i as usize, item));
                        } else {
                            assert(slots@[i] == before[i]);
                            if before[i] != start[i] {
                                let k = choose|k: int|
                                    0 <= k < done && #[trigger] all[k] == (
                                        i as usize,
                                        before[i]->Some_0,
                                    );
                                assert(all[k] == (i as usize, before[i]->Some_0));
                            }
                        }
                    }
                    assert forall|i: int|
                        0 <= i < count && (#[trigger] slots@[i]) is None implies start[i] is None
                        && (forall|k: int| 0 <= k < done + 1 ==> (#[trigger] all[k]).0 != i) by {
                        assert(before[i] is None);
                    }
                    done = done + 1;
                }
    }
}

proof fn lemma_namespaces_restored(state: StateModel, entries: Seq<(u32, Seq<char>)>, count: nat)
    requires
        lists_registry(state.ns_registry, widened_namespaces(entries)),
        count <= entries.len(),
    ensures
        ({
            let bound = namespaces_bound(fresh_state(), entries, count);
            &&& bound == (StateModel {
                ns_registry: bound.ns_registry,
                ns_by_path: bound.ns_by_path,
                ..fresh_state()
            })
            &&& forall|id: u64| #[trigger]
                bound.ns_registry.dom().contains(id) <==> exists|i: int|
                    0 <= i < count && (#[trigger] entries[i]).0 == id
            &&& forall|i: int|
                0 <= i < count ==> bound.ns_registry[(#[trigger] entries[i]).0 as u64]
                    == entries[i].1
        }),
    decreases count,
{
    let listed = widened_namespaces(entries);
    if count > 0 {
        lemma_namespaces_restored(state, entries, (count - 1) as nat);
        let before = namespaces_bound(fresh_state(), entries, (count - 1) as nat);
        let bound = namespaces_bound(fresh_state(), entries, count);
        assert forall|id: u64| #[trigger] bound.ns_registry.dom().contains(id) implies exists|
            i: int,
        |
            0 <= i < count && (#[trigger] entries[i]).0 == id by {
            if id == entries[count - 1].0 as u64 {
                assert(entries[count - 1].0 == id);
            } else {
                assert(before.ns_registry.dom().contains(id));
            }
        }
        assert forall|i: int| 0 <= i < count implies bound.ns_registry[(
        #[trigger] entries[i]).0 as u64] == entries[i].1 by {
            if i < count - 1 {
                assert(listed[i].0 < listed[count - 1].0);
            }
        }
    }
}

proof fn lemma_rel_kinds_restored(
    bound: StateModel,
    state: StateModel,
    entries: Seq<(u16, Seq<char>)>,
    count: nat,
)
    requires
        state.consistent(),
        lists_registry(state.rel_kind_names, widened_rel_kinds(entries)),
        bound.rel_kind_names == Map::<u64, Seq<char>>::empty(),
        bound.next_rel_kind == FIRST_CUSTOM_REL_KIND,
        count <= entries.len(),
    ensures
        ({
            let (registered, result) = rel_kinds_bound(bound, entries, count);
            &&& result is Ok
            &&& registered == (StateModel {
                rel_kind_names: registered.rel_kind_names,
                next_rel_kind: registered.next_rel_kind,
                ..bound
            })
            &&& registered.next_rel_kind <= state.next_rel_kind
            &&& forall|kind: u64| #[trigger]
                registered.rel_kind_names.dom().contains(kind) <==> exists|i: int|
                    0 <= i < count && (#[trigger] entries[i]).0 == kind
            &&& forall|i: int|
                0 <= i < count ==> registered.rel_kind_names[(#[trigger] entries[i]).0 as u64]
                    == entries[i].1
        }),
    decreases count,
{
    let listed = widened_rel_kinds(entries);
    if count > 0 {
        lemma_rel_kinds_restored(bound, state, entries, (count - 1) as nat);
        let before = rel_kinds_bound(bound, entries, (count - 1) as nat).0;
        let (kind, name) = entries[count - 1];
        assert(listed[count - 1] == (kind as u64, name));
        assert(state.rel_kind_names.dom().contains(kind as u64));
        assert forall|k: u64| #[trigger] before.rel_kind_names.dom().contains(k) implies ((k
            == kind as u64) == (before.rel_kind_names[k] == name)) by {
            let i = choose|i: int| 0 <= i < count - 1 && (#[trigger] entries[i]).0 == k;
            assert(listed[i].0 < listed[count - 1].0);
            assert(state.rel_kind_names.dom().contains(listed[i].0));
            assert(before.rel_kind_names[entries[i].0 as u64] == entries[i].1);
        }
        assert(before.rel_kind_fits(kind, name));
        let after = rel_kinds_bound(bound, entries, count).0;
        assert forall|k: u64| #[trigger] after.rel_kind_names.dom().contains(k) implies exists|
            i: int,
        |
            0 <= i < count && (#[trigger] entries[i]).0 == k by {
            if k == kind as u64 {
                assert(entries[count - 1].0 == k);
            } else {
                assert(before.rel_kind_names.dom().contains(k));
            }
        }
        assert forall|i: int| 0 <= i < count implies after.rel_kind_names[(
        #[trigger] entries[i]).0 as u64] == entries[i].1 by {
            if i < count - 1 {
                assert(listed[i].0 < listed[count - 1].0);
            }
        }
    }
}

/// Opening a library gives back what its last flush committed of the registries and the counters:
/// the namespaces, the relation kinds, the commit number, and the numbers that are given out next.
pub proof fn registries_are_restored(
    next: ManifestView,
    previous: ManifestView,
    dimension: u32,
    metric: Metric,
    state: StateModel,
    jobs: Seq<BuildJob>,
    now_ms: i64,
    encoded: Seq<EncodedSegment>,
)
    requires
        state.consistent(),
        follows(next, previous, dimension, metric, state, jobs, now_ms, encoded),
    ensures
        empty_outcome(next) matches Ok(reopened) && {
            &&& reopened.ns_registry == state.ns_registry
            &&& reopened.rel_kind_names == state.rel_kind_names
            &&& reopened.next_ns_id == state.next_ns_id
            &&& reopened.next_rel_kind == state.next_rel_kind
            &&& reopened.next_rowid == state.next_rowid
            &&& reopened.seqno == state.seqno
        },
{
    let namespaces = next.namespaces;
    let kinds = next.rel_kinds;
    let bound = namespaces_bound(fresh_state(), namespaces, namespaces.len());
    lemma_namespaces_restored(state, namespaces, namespaces.len());
    lemma_rel_kinds_restored(bound, state, kinds, kinds.len());
    let registered = rel_kinds_bound(bound, kinds, kinds.len()).0;
    let listed_ns = widened_namespaces(namespaces);
    let listed_kinds = widened_rel_kinds(kinds);
    assert(bound.ns_registry =~= state.ns_registry) by {
        assert forall|id: u64| bound.ns_registry.dom().contains(id)
            == state.ns_registry.dom().contains(id) by {
            if state.ns_registry.dom().contains(id) {
                let i = choose|i: int| 0 <= i < listed_ns.len()
                    && (#[trigger] listed_ns[i]).0 == id;
                assert(namespaces[i].0 == id);
            }
            if bound.ns_registry.dom().contains(id) {
                let i = choose|i: int|
                    0 <= i < namespaces.len() && (#[trigger] namespaces[i]).0 == id;
                assert(listed_ns[i].0 == id);
            }
        }
        assert forall|id: u64| bound.ns_registry.dom().contains(id) implies bound.ns_registry[id]
            == state.ns_registry[id] by {
            let i = choose|i: int| 0 <= i < namespaces.len() && (#[trigger] namespaces[i]).0 == id;
            assert(listed_ns[i] == (id, namespaces[i].1));
        }
    }
    assert(registered.rel_kind_names =~= state.rel_kind_names) by {
        assert forall|kind: u64| registered.rel_kind_names.dom().contains(kind)
            == state.rel_kind_names.dom().contains(kind) by {
            if state.rel_kind_names.dom().contains(kind) {
                let i = choose|i: int|
                    0 <= i < listed_kinds.len() && (#[trigger] listed_kinds[i]).0 == kind;
                assert(kinds[i].0 == kind);
            }
            if registered.rel_kind_names.dom().contains(kind) {
                let i = choose|i: int| 0 <= i < kinds.len() && (#[trigger] kinds[i]).0 == kind;
                assert(listed_kinds[i].0 == kind);
            }
        }
        assert forall|kind: u64|
            registered.rel_kind_names.dom().contains(kind) implies registered.rel_kind_names[kind]
            == state.rel_kind_names[kind] by {
            let i = choose|i: int| 0 <= i < kinds.len() && (#[trigger] kinds[i]).0 == kind;
            assert(listed_kinds[i] == (kind, kinds[i].1));
        }
    }
}

/// A flush gives out numbers only where they suffice: each of its segments has a number of its own
/// below the largest, and the manifest has a next version. What ran out is named.
pub proof fn numbers_do_not_run_over(previous: ManifestView, count: nat)
    ensures
        numbers_suffice(previous, count) <==> previous.next_segment_id + count <= 0xffff_ffff
            && previous.manifest_version < 0xffff_ffff_ffff_ffff,
        previous.next_segment_id + count > 0xffff_ffff ==> exhausted(previous, count) == (
        MnemeError::IdExhausted { kind: IdKind::SegmentId }),
        previous.next_segment_id + count <= 0xffff_ffff ==> exhausted(previous, count) == (
        MnemeError::IdExhausted { kind: IdKind::ManifestVersion }),
{
}

/// What is collected at a place was produced for that place, by a worker that did not fail.
pub proof fn collected_item_was_produced_for_its_place<T>(
    produced: Seq<Result<Vec<(usize, T)>, MnemeError>>,
    index: usize,
    item: T,
)
    requires
        was_produced(produced, index as int, item),
    ensures
        exists|worker: int, at: int|
            #![trigger produced[worker]->Ok_0@[at]]
            0 <= worker < produced.len() && produced[worker] is Ok && 0 <= at
                < produced[worker]->Ok_0@.len() && produced[worker]->Ok_0@[at].0 == index
                && produced[worker]->Ok_0@[at].1 == item,
        !never_produced(produced, index as int),
{
    let w = choose|w: int|
        0 <= w < produced.len() && produced[w] is Ok && #[trigger] in_pairs(
            produced[w]->Ok_0@,
            produced[w]->Ok_0@.len() as int,
            index as int,
            item,
        );
    let pairs = produced[w]->Ok_0@;
    let i = choose|i: int| 0 <= i < pairs.len() && #[trigger] pairs[i] == (index, item);
    assert(produced[w]->Ok_0@[i] == (index, item));
}

} // verus!
