//! A library that is open.

use vstd::prelude::*;

use crate::chunk::{at_least, chunk_start, flush_chunk_rows, flush_parallelism, Tuning};
use crate::commit::{
    graphs_added, in_segments, install_committed, install_graphs, installed, only_segments_changed,
    segment_settled, segment_written, segments_fail, segments_pass, segments_settled,
    segments_written,
    write_segments,
};
use crate::error::{Feature, Metric, MnemeError, SegmentFile};
use crate::hidx::{BuiltGraph, SegmentIndex};
use crate::hook::FsyncHook;
use crate::layout::{manifest_file, segment_path, wal_path, CURRENT_FILE, WAL_DIR};
use crate::log::{
    are_encoded, flush_due, frames_bytes, is_flush_due, kept_by_log, log_refused, log_transaction,
    logged, payloads_of, plan_outcome, taken_back, transaction_passes, transaction_plan, FramePlan,
    LoggedOp,
};
use crate::manifest::{Manifest, ManifestView};
use crate::manifest_io::{
    commit_manifest, commit_passes, commit_refused, commit_touches, commit_writes, current_of,
    holds_encoded, is_committed, is_newest, names_version,
};
use crate::recover::blocks_for;
use crate::segment::DeltaEntry;
use crate::snapshot::{
    are_jobs, build_segments, build_stops, exhausted, flush_jobs, follows, is_built, job_slots,
    lemma_jobs_exist, lemma_unpersisted, namespace_registry_changed, next_manifest,
    numbers_suffice, registry_changed, slots_exist, unpersisted, unpersisted_slots, BuildJob, EncodedSegment,
};
use crate::state::{StateModel, WriterState};
use crate::storage::{
    content_of, dir_prefix, failures_of, left_by_crash, same_at, temporary_of, FailureSet, FileMap,
    PathSet, Storage,
};
use crate::wal_writer::{
    capped_sum, header_refused, in_log, is_wal_file, only_active_left, outside_log_kept,
    settled_outside_log, EncodedFrame, WalWriter, WriterModel,
};

verus! {

/// A library that is open: its committed manifest and its log.
pub struct Store {
    /// The version of the committed manifest.
    pub version: u64,
    /// The committed manifest.
    pub manifest: Manifest,
    pub wal: WalWriter,
    pub dimension: u32,
    pub metric: Metric,
    /// Whether nothing is written.
    pub read_only: bool,
}

/// Whether the next segment states all edges: there is none before it.
pub open spec fn states_all_edges(previous: ManifestView) -> bool {
    previous.segments.len() == 0
}

/// Whether `delta_of` may give this for the versions that no segment holds.
pub open spec fn gives_delta<G: Fn(&WriterState, &Vec<usize>, bool) -> Vec<DeltaEntry>>(
    delta_of: G,
    state: WriterState,
    full: bool,
    delta: Vec<DeltaEntry>,
) -> bool {
    exists|slots: Vec<usize>|
        #![trigger delta_of.ensures((&state, &slots, full), delta)]
        slots@ == unpersisted(state@.slot_segment, state@.slots.len()) && delta_of.ensures(
            (&state, &slots, full),
            delta,
        )
}

/// Whether there is nothing to flush: every version has a segment, nothing is recorded about rows
/// of other segments, and the namespaces are those of the manifest.
pub open spec fn is_idle(
    previous: ManifestView,
    state: StateModel,
    delta: Seq<DeltaEntry>,
) -> bool {
    unpersisted(state.slot_segment, state.slots.len()).len() == 0 && delta.len() == 0
        && !registry_changed(previous, state)
}

/// Whether a path is one of those that a flush with so many segments writes to or removes.
pub open spec fn flush_touches(previous: ManifestView, count: nat, path: Seq<char>) -> bool {
    in_log(path) || in_segments(previous.next_segment_id, count, path) || commit_touches(
        (previous.manifest_version + 1) as u64,
        path,
    )
}

/// Whether a path is one of those that a flush with so many segments writes to before it is
/// committed.
pub open spec fn flush_writes(previous: ManifestView, count: nat, path: Seq<char>) -> bool {
    in_segments(previous.next_segment_id, count, path) || commit_writes(
        (previous.manifest_version + 1) as u64,
        path,
    )
}

/// Whether these are the jobs of a flush.
pub open spec fn are_flush_jobs(
    before: Store,
    state_before: WriterState,
    delta: Seq<DeltaEntry>,
    tuning: Tuning,
    parallelism: usize,
    jobs: Seq<BuildJob>,
) -> bool {
    are_jobs(
        jobs,
        unpersisted(state_before@.slot_segment, state_before@.slots.len()),
        delta.len() > 0,
        states_all_edges(before.manifest@),
        before.dimension,
        tuning,
        parallelism,
    )
}

/// Whether the segments of all jobs of a flush may be built so.
pub open spec fn are_built<
    B: Fn(&WriterState, &BuildJob, &Vec<DeltaEntry>) -> Result<EncodedSegment, MnemeError>,
>(
    build: B,
    state: WriterState,
    delta: Vec<DeltaEntry>,
    jobs: Seq<BuildJob>,
    encoded: Seq<EncodedSegment>,
) -> bool {
    encoded.len() == jobs.len() && forall|i: int|
        0 <= i < jobs.len() ==> is_built(
            build,
            state,
            jobs[i],
            i == 0,
            delta,
            Ok(#[trigger] encoded[i]),
        )
}

/// Whether a segment was built for every job of a flush, and all of them were written and brought
/// to stable storage.
pub open spec fn is_prepared<
    B: Fn(&WriterState, &BuildJob, &Vec<DeltaEntry>) -> Result<EncodedSegment, MnemeError>,
    L: Fn(SegmentFile, u32, &Vec<u8>) -> Result<Vec<u8>, MnemeError>,
>(
    build: B,
    seal: L,
    previous: ManifestView,
    state: WriterState,
    delta: Vec<DeltaEntry>,
    jobs: Seq<BuildJob>,
    files: FileMap,
    settled: PathSet,
    encoded: Seq<EncodedSegment>,
) -> bool {
    &&& are_built(build, state, delta, jobs, encoded)
    &&& segments_written(files, seal, previous.next_segment_id, encoded)
    &&& segments_settled(settled, previous.next_segment_id, encoded)
}

/// What becomes of the log once a flush is committed: it is emptied, or it is out of use.
pub open spec fn log_follows(before: WriterModel, after: WriterModel, files: FileMap) -> bool {
    &&& after == (WriterModel {
        written: after.written,
        sealed_bytes: after.sealed_bytes,
        poisoned: after.poisoned,
        ..before
    })
    &&& before.writable && !after.poisoned ==> files.dom().contains(before.active())
        && files[before.active()] == before.header && after.written == before.header.len()
}

/// Whether a hook may keep the log from being emptied.
pub open spec fn emptying_refused<H: FsyncHook>(hook: Option<&H>, writer: WriterModel) -> bool {
    exists|error: MnemeError| #[trigger] header_refused(hook, writer, error)
}

/// Whether the log holds its header alone.
pub open spec fn log_emptied(before: WriterModel, after: WriterModel, files: FileMap) -> bool {
    &&& after == (WriterModel { written: before.header.len() as u64, sealed_bytes: 0, ..before })
    &&& files.dom().contains(before.active())
    &&& files[before.active()] == before.header
    &&& only_active_left(files, before.active())
}

/// What a flush that succeeds has done: it built a segment for every job, wrote them all, committed
/// a manifest that names them behind those of the previous one, gave the versions to their segments,
/// and put the graphs of the segments in use. What it wrote is on stable storage.
pub open spec fn is_flushed<
    H: FsyncHook,
    B: Fn(&WriterState, &BuildJob, &Vec<DeltaEntry>) -> Result<EncodedSegment, MnemeError>,
    L: Fn(SegmentFile, u32, &Vec<u8>) -> Result<Vec<u8>, MnemeError>,
    E: Fn(&Manifest) -> Result<Vec<u8>, MnemeError>,
    I,
    K: Fn(&EncodedSegment) -> Option<BuiltGraph<I>>,
>(
    hook: Option<&H>,
    build: B,
    seal: L,
    encode: E,
    graph_of: K,
    before: Store,
    after: Store,
    state_before: WriterState,
    state_after: StateModel,
    delta: Vec<DeltaEntry>,
    jobs: Seq<BuildJob>,
    now_ms: i64,
    files_before: FileMap,
    files: FileMap,
    settled: PathSet,
    indexes_before: Seq<SegmentIndex<I>>,
    indexes_after: Seq<SegmentIndex<I>>,
    encoded: Seq<EncodedSegment>,
) -> bool {
    let previous = before.manifest@;
    &&& is_prepared(build, seal, previous, state_before, delta, jobs, files, settled, encoded)
    &&& follows(
        after.manifest@,
        previous,
        before.dimension,
        before.metric,
        state_before@,
        jobs,
        now_ms,
        encoded,
    )
    &&& segments_pass(hook, seal, previous.next_segment_id, encoded, encoded.len())
    &&& commit_passes(hook, encode, after.manifest)
    &&& after.version == after.manifest.manifest_version
    &&& is_committed(files_before, files, encode, after.manifest)
    &&& settled.contains(CURRENT_FILE@)
    &&& files.dom().contains(manifest_file(after.version)) ==> settled.contains(
        manifest_file(after.version),
    )
    &&& state_after == (StateModel {
        slot_segment: installed(
            state_before@.slot_segment,
            previous.next_segment_id,
            jobs,
            jobs.len(),
        ),
        ..state_before@
    })
    &&& graphs_added(
        graph_of,
        previous.next_segment_id,
        jobs,
        encoded,
        indexes_before,
        indexes_after,
    )
    &&& log_follows(before.wal@, after.wal@, files)
}

/// Whether a flush that failed has made `current` name its manifest: then its segments and its
/// manifest are whole.
pub open spec fn is_switched<
    B: Fn(&WriterState, &BuildJob, &Vec<DeltaEntry>) -> Result<EncodedSegment, MnemeError>,
    L: Fn(SegmentFile, u32, &Vec<u8>) -> Result<Vec<u8>, MnemeError>,
    E: Fn(&Manifest) -> Result<Vec<u8>, MnemeError>,
>(
    build: B,
    seal: L,
    encode: E,
    before: Store,
    state: WriterState,
    delta: Vec<DeltaEntry>,
    jobs: Seq<BuildJob>,
    now_ms: i64,
    files: FileMap,
    settled: PathSet,
    encoded: Seq<EncodedSegment>,
    next: Manifest,
) -> bool {
    &&& is_prepared(build, seal, before.manifest@, state, delta, jobs, files, settled, encoded)
    &&& follows(
        next@,
        before.manifest@,
        before.dimension,
        before.metric,
        state@,
        jobs,
        now_ms,
        encoded,
    )
    &&& current_of(files) == Some(next.manifest_version)
    &&& holds_encoded(files, encode, next)
}

/// Whether the first job of a flush that fails may fail so.
pub open spec fn build_fails<
    B: Fn(&WriterState, &BuildJob, &Vec<DeltaEntry>) -> Result<EncodedSegment, MnemeError>,
>(
    build: B,
    state: WriterState,
    delta: Vec<DeltaEntry>,
    jobs: Seq<BuildJob>,
    error: MnemeError,
) -> bool {
    exists|done: Seq<EncodedSegment>| #[trigger]
        build_stops(build, state, delta, jobs, done, error)
}

/// Whether a flush whose segments were built may fail so to write them.
pub open spec fn writing_fails<
    H: FsyncHook,
    B: Fn(&WriterState, &BuildJob, &Vec<DeltaEntry>) -> Result<EncodedSegment, MnemeError>,
    L: Fn(SegmentFile, u32, &Vec<u8>) -> Result<Vec<u8>, MnemeError>,
>(
    hook: Option<&H>,
    failures: FailureSet,
    build: B,
    seal: L,
    previous: ManifestView,
    state: WriterState,
    delta: Vec<DeltaEntry>,
    jobs: Seq<BuildJob>,
    error: MnemeError,
) -> bool {
    exists|encoded: Seq<EncodedSegment>| #[trigger]
        are_built(build, state, delta, jobs, encoded) && segments_fail(
            hook,
            failures,
            seal,
            previous.next_segment_id,
            encoded,
            error,
        )
}

/// Whether a flush whose segments were written may fail so to commit its manifest.
pub open spec fn committing_fails<
    H: FsyncHook,
    B: Fn(&WriterState, &BuildJob, &Vec<DeltaEntry>) -> Result<EncodedSegment, MnemeError>,
    L: Fn(SegmentFile, u32, &Vec<u8>) -> Result<Vec<u8>, MnemeError>,
    E: Fn(&Manifest) -> Result<Vec<u8>, MnemeError>,
>(
    hook: Option<&H>,
    failures: FailureSet,
    build: B,
    seal: L,
    encode: E,
    before: Store,
    state: WriterState,
    delta: Vec<DeltaEntry>,
    jobs: Seq<BuildJob>,
    now_ms: i64,
    error: MnemeError,
) -> bool {
    exists|encoded: Seq<EncodedSegment>, next: Manifest|
        #![trigger are_built(build, state, delta, jobs, encoded), commit_refused(
            hook,
            failures,
            encode,
            next,
            error,
        )]
        are_built(build, state, delta, jobs, encoded) && segments_pass(
            hook,
            seal,
            before.manifest.next_segment_id,
            encoded,
            encoded.len(),
        ) && follows(
            next@,
            before.manifest@,
            before.dimension,
            before.metric,
            state@,
            jobs,
            now_ms,
            encoded,
        ) && commit_refused(hook, failures, encode, next, error)
}

/// What a flush that has something to do may fail with.
pub open spec fn flush_refused<
    H: FsyncHook,
    B: Fn(&WriterState, &BuildJob, &Vec<DeltaEntry>) -> Result<EncodedSegment, MnemeError>,
    L: Fn(SegmentFile, u32, &Vec<u8>) -> Result<Vec<u8>, MnemeError>,
    E: Fn(&Manifest) -> Result<Vec<u8>, MnemeError>,
>(
    hook: Option<&H>,
    failures: FailureSet,
    build: B,
    seal: L,
    encode: E,
    before: Store,
    state: WriterState,
    delta: Vec<DeltaEntry>,
    jobs: Seq<BuildJob>,
    now_ms: i64,
    error: MnemeError,
) -> bool {
    ||| !numbers_suffice(before.manifest@, jobs.len()) && error == exhausted(
        before.manifest@,
        jobs.len(),
    )
    ||| build_fails(build, state, delta, jobs, error)
    ||| writing_fails(hook, failures, build, seal, before.manifest@, state, delta, jobs, error)
    ||| committing_fails(
        hook,
        failures,
        build,
        seal,
        encode,
        before,
        state,
        delta,
        jobs,
        now_ms,
        error,
    )
}

/// What a flush that has something to do comes to.
///
/// Where it fails, the state, the manifest in use, the graphs in use, the log and every manifest but
/// its own are as they were; `current` names what it named, or the manifest of the flush.
pub open spec fn flush_run<
    B: Fn(&WriterState, &BuildJob, &Vec<DeltaEntry>) -> Result<EncodedSegment, MnemeError>,
    L: Fn(SegmentFile, u32, &Vec<u8>) -> Result<Vec<u8>, MnemeError>,
    E: Fn(&Manifest) -> Result<Vec<u8>, MnemeError>,
    H: FsyncHook,
    I,
    K: Fn(&EncodedSegment) -> Option<BuiltGraph<I>>,
>(
    build: B,
    seal: L,
    encode: E,
    graph_of: K,
    hook: Option<&H>,
    reliable: bool,
    failures: FailureSet,
    now_ms: i64,
    before: Store,
    after: Store,
    state_before: WriterState,
    state_after: StateModel,
    files_before: FileMap,
    files_after: FileMap,
    settled_after: PathSet,
    indexes_before: Seq<SegmentIndex<I>>,
    indexes_after: Seq<SegmentIndex<I>>,
    delta: Vec<DeltaEntry>,
    jobs: Seq<BuildJob>,
    result: Result<(), MnemeError>,
) -> bool {
    match result {
        Ok(()) => {
            &&& forall|path: Seq<char>|
                !flush_touches(before.manifest@, jobs.len(), path) ==> #[trigger] same_at(
                    files_before,
                    files_after,
                    path,
                )
            &&& exists|encoded: Seq<EncodedSegment>| #[trigger]
                is_flushed(
                    hook,
                    build,
                    seal,
                    encode,
                    graph_of,
                    before,
                    after,
                    state_before,
                    state_after,
                    delta,
                    jobs,
                    now_ms,
                    files_before,
                    files_after,
                    settled_after,
                    indexes_before,
                    indexes_after,
                    encoded,
                )
            &&& reliable && before.wal@.refusal() is None ==> log_emptied(
                before.wal@,
                after.wal@,
                files_after,
            ) || emptying_refused(hook, before.wal@)
        },
        Err(error) => {
            &&& state_after == state_before@
            &&& after == before
            &&& indexes_after == indexes_before
            &&& forall|path: Seq<char>|
                !flush_writes(before.manifest@, jobs.len(), path) ==> #[trigger] same_at(
                    files_before,
                    files_after,
                    path,
                )
            &&& same_at(files_before, files_after, CURRENT_FILE@) || exists|
                encoded: Seq<EncodedSegment>,
                next: Manifest,
            | #[trigger]
                is_switched(
                    build,
                    seal,
                    encode,
                    before,
                    state_before,
                    delta,
                    jobs,
                    now_ms,
                    files_after,
                    settled_after,
                    encoded,
                    next,
                )
            &&& flush_refused(
                hook,
                failures,
                build,
                seal,
                encode,
                before,
                state_before,
                delta,
                jobs,
                now_ms,
                error,
            )
        },
    }
}

/// What a flush comes to. A read-only instance refuses it; where there is nothing to flush, it
/// succeeds and changes nothing.
pub open spec fn flush_outcome<
    G: Fn(&WriterState, &Vec<usize>, bool) -> Vec<DeltaEntry>,
    B: Fn(&WriterState, &BuildJob, &Vec<DeltaEntry>) -> Result<EncodedSegment, MnemeError>,
    L: Fn(SegmentFile, u32, &Vec<u8>) -> Result<Vec<u8>, MnemeError>,
    E: Fn(&Manifest) -> Result<Vec<u8>, MnemeError>,
    H: FsyncHook,
    I,
    K: Fn(&EncodedSegment) -> Option<BuiltGraph<I>>,
>(
    delta_of: G,
    build: B,
    seal: L,
    encode: E,
    graph_of: K,
    hook: Option<&H>,
    reliable: bool,
    failures: FailureSet,
    tuning: Tuning,
    parallelism: usize,
    now_ms: i64,
    before: Store,
    after: Store,
    state_before: WriterState,
    state_after: StateModel,
    files_before: FileMap,
    files_after: FileMap,
    settled_after: PathSet,
    indexes_before: Seq<SegmentIndex<I>>,
    indexes_after: Seq<SegmentIndex<I>>,
    result: Result<(), MnemeError>,
) -> bool {
    if before.read_only {
        result == Err::<(), MnemeError>(
            MnemeError::Unsupported { feature: Feature::ReadOnlyWrite },
        ) && flush_idles(
            before,
            after,
            state_before@,
            state_after,
            files_before,
            files_after,
            indexes_before,
            indexes_after,
        )
    } else {
        exists|delta: Vec<DeltaEntry>| #[trigger]
            gives_delta(delta_of, state_before, states_all_edges(before.manifest@), delta)
                && if is_idle(before.manifest@, state_before@, delta@) {
                result is Ok && flush_idles(
                    before,
                    after,
                    state_before@,
                    state_after,
                    files_before,
                    files_after,
                    indexes_before,
                    indexes_after,
                )
            } else {
                exists|jobs: Seq<BuildJob>| #[trigger]
                    are_flush_jobs(before, state_before, delta@, tuning, parallelism, jobs)
                        && flush_run(
                        build,
                        seal,
                        encode,
                        graph_of,
                        hook,
                        reliable,
                        failures,
                        now_ms,
                        before,
                        after,
                        state_before,
                        state_after,
                        files_before,
                        files_after,
                        settled_after,
                        indexes_before,
                        indexes_after,
                        delta,
                        jobs,
                        result,
                    )
            }
    }
}

/// Whether a flush changed nothing.
pub open spec fn flush_idles<I>(
    before: Store,
    after: Store,
    state_before: StateModel,
    state_after: StateModel,
    files_before: FileMap,
    files_after: FileMap,
    indexes_before: Seq<SegmentIndex<I>>,
    indexes_after: Seq<SegmentIndex<I>>,
) -> bool {
    state_after == state_before && after == before && files_after == files_before && indexes_after
        == indexes_before
}

/// A segment file is neither a file that a commit touches nor one of the log.
pub proof fn lemma_segment_path_apart(file: SegmentFile, id: u32, version: u64)
    ensures
        !commit_touches(version, segment_path(file, id)),
        !in_log(segment_path(file, id)),
{
    reveal_strlit("segments");
    reveal_strlit("current");
    reveal_strlit("wal");
    reveal_strlit("MANIFEST.");
    let path = segment_path(file, id);
    assert(path[0] == 's');
    assert(CURRENT_FILE@[0] == 'c');
    assert(temporary_of(CURRENT_FILE@)[0] == 'c');
    let name = crate::layout::manifest_file(version);
    assert(temporary_of(name)[0] == 'M');
    assert(crate::text::has_prefix(path, crate::layout::MANIFEST_PREFIX@) ==> path.take(9)[0]
        == 'M');
    assert(in_log(path) ==> path.take(4)[0] == 'w');
}

proof fn lemma_written_stays<L: Fn(SegmentFile, u32, &Vec<u8>) -> Result<Vec<u8>, MnemeError>>(
    before: FileMap,
    after: FileMap,
    seal: L,
    base: u32,
    encoded: Seq<EncodedSegment>,
    version: u64,
)
    requires
        segments_written(before, seal, base, encoded),
        forall|path: Seq<char>|
            !commit_touches(version, path) && !in_log(path) ==> #[trigger] same_at(
                before,
                after,
                path,
            ),
    ensures
        segments_written(after, seal, base, encoded),
{
    assert forall|i: int| 0 <= i < encoded.len() implies segment_written(
        after,
        seal,
        (base + i) as u32,
        #[trigger] encoded[i],
    ) by {
        let id = (base + i) as u32;
        assert(segment_written(before, seal, id, encoded[i]));
        lemma_segment_path_apart(SegmentFile::Vsec, id, version);
        lemma_segment_path_apart(SegmentFile::Msec, id, version);
        lemma_segment_path_apart(SegmentFile::Hidx, id, version);
        assert(same_at(before, after, segment_path(SegmentFile::Vsec, id)));
        assert(same_at(before, after, segment_path(SegmentFile::Msec, id)));
        assert(same_at(before, after, segment_path(SegmentFile::Hidx, id)));
    }
}

impl Store {
    /// The invariant of an open library.
    pub open spec fn wf(&self) -> bool {
        self.wal.wf()
    }

    /// The version of the committed manifest.
    pub fn current_version(&self) -> (version: u64)
        ensures
            version == self.version,
    {
        self.version
    }

    /// Puts another manifest in the place of the committed one. Nothing is written.
    pub fn replace_manifest(&mut self, manifest: Manifest, version: u64)
        ensures
            final(self).manifest == manifest,
            final(self).version == version,
            final(self).wal == old(self).wal,
            final(self).dimension == old(self).dimension,
            final(self).metric == old(self).metric,
            final(self).read_only == old(self).read_only,
    {
        self.manifest = manifest;
        self.version = version;
    }

    /// Makes a manifest that was committed the one in use.
    pub fn publish_manifest(&mut self, manifest: Manifest)
        ensures
            final(self).manifest == manifest,
            final(self).version == manifest.manifest_version,
            final(self).wal == old(self).wal,
            final(self).dimension == old(self).dimension,
            final(self).metric == old(self).metric,
            final(self).read_only == old(self).read_only,
    {
        self.version = manifest.manifest_version;
        self.manifest = manifest;
    }

    /// A copy of the committed manifest.
    pub fn manifest_snapshot(&self) -> (manifest: Manifest)
        ensures
            manifest@ == self.manifest@,
    {
        self.manifest.copied()
    }

    /// The version of the committed manifest and a copy of it.
    pub fn versioned_manifest(&self) -> (result: (u64, Manifest))
        ensures
            result.0 == self.version,
            result.1@ == self.manifest@,
    {
        (self.version, self.manifest.copied())
    }

    /// How many segments the committed manifest has.
    pub fn total_segments(&self) -> (count: usize)
        ensures
            count == self.manifest.segments@.len(),
    {
        self.manifest.segments.len()
    }

    /// The length of all log files.
    pub fn wal_bytes(&self) -> (total: u64)
        ensures
            total == crate::wal_writer::capped_sum(self.wal@.sealed_bytes, self.wal@.written),
    {
        self.wal.total_bytes()
    }

    /// Makes a manifest that was committed the one in use and empties the log, whose frames the
    /// segments now cover. A log that cannot be emptied is no failure: replay skips its frames.
    pub fn publish<S: Storage, H: FsyncHook>(
        &mut self,
        storage: &mut S,
        hook: Option<&H>,
        manifest: Manifest,
    )
        requires
            old(self).wf(),
            old(storage).wf(),
        ensures
            final(self).wf(),
            final(storage).wf(),
            final(storage).reliable() == old(storage).reliable(),
            final(storage).locked() == old(storage).locked(),
            final(self).manifest == manifest,
            final(self).version == manifest.manifest_version,
            final(self).dimension == old(self).dimension,
            final(self).metric == old(self).metric,
            final(self).read_only == old(self).read_only,
            outside_log_kept(old(storage).files(), final(storage).files()),
            settled_outside_log(old(storage).settled(), final(storage).settled()),
            log_follows(old(self).wal@, final(self).wal@, final(storage).files()),
            old(self).wal@.refusal() is None && old(storage).reliable() ==> log_emptied(
                old(self).wal@,
                final(self).wal@,
                final(storage).files(),
            ) || emptying_refused(hook, old(self).wal@),
    {
        self.publish_manifest(manifest);
        let emptied = self.wal.reset(storage, hook);
        proof {
            if storage.reliable() && old(self).wal@.refusal() is None && emptied is Err {
                assert(header_refused(hook, old(self).wal@, emptied->Err_0));
            }
        }
    }

    /// Turns the versions that no segment holds into segments and commits a manifest that names
    /// them.
    ///
    /// The segments that are there stay as they are. Where a step fails, the state and the manifest
    /// in use stay as they were; what was written before is not referred to. `delta_of` gives what
    /// is recorded about rows of other segments, `build` builds a segment, `seal` seals a file,
    /// `encode` encodes a manifest, and `graph_of` gives the graph that was built with a segment.
    /// `indexes` are the graphs in use.
    ///
    /// What `delta_of` reported stands in a segment once this has returned `Ok`. It is kept outside
    /// of the state, so the caller has to clear it then; where it is not cleared, the next flush
    /// writes it again.
    #[verifier::spinoff_prover]
    pub fn flush<
        S: Storage,
        H: FsyncHook,
        G: Fn(&WriterState, &Vec<usize>, bool) -> Vec<DeltaEntry>,
        B: Fn(&WriterState, &BuildJob, &Vec<DeltaEntry>) -> Result<EncodedSegment, MnemeError>,
        L: Fn(SegmentFile, u32, &Vec<u8>) -> Result<Vec<u8>, MnemeError>,
        E: Fn(&Manifest) -> Result<Vec<u8>, MnemeError>,
        I,
        K: Fn(&EncodedSegment) -> Option<BuiltGraph<I>>,
    >(
        &mut self,
        storage: &mut S,
        hook: Option<&H>,
        state: &mut WriterState,
        indexes: &mut Vec<SegmentIndex<I>>,
        tuning: &Tuning,
        parallelism: usize,
        now_ms: i64,
        delta_of: &G,
        build: &B,
        seal: &L,
        encode: &E,
        graph_of: &K,
    ) -> (result: Result<(), MnemeError>)
        requires
            old(self).wf(),
            old(storage).wf(),
            old(state).wf(),
            forall|slots: Vec<usize>, full: bool| delta_of.requires((&*old(state), &slots, full)),
            forall|job: BuildJob, passed: Vec<DeltaEntry>|
                build.requires((&*old(state), &job, &passed)),
            forall|file: SegmentFile, id: u32, plain: Vec<u8>| seal.requires((file, id, &plain)),
            forall|manifest: Manifest| encode.requires((&manifest,)),
            forall|segment: EncodedSegment| graph_of.requires((&segment,)),
        ensures
            final(self).wf(),
            final(storage).wf(),
            final(state).wf(),
            final(storage).reliable() == old(storage).reliable(),
            final(storage).locked() == old(storage).locked(),
            final(self).dimension == old(self).dimension,
            final(self).metric == old(self).metric,
            final(self).read_only == old(self).read_only,
            flush_outcome(
                *delta_of,
                *build,
                *seal,
                *encode,
                *graph_of,
                hook,
                old(storage).reliable(),
                failures_of(*old(storage)),
                *tuning,
                parallelism,
                now_ms,
                *old(self),
                *final(self),
                *old(state),
                final(state)@,
                old(storage).files(),
                final(storage).files(),
                final(storage).settled(),
                old(indexes)@,
                final(indexes)@,
                result,
            ),
    {
        if self.read_only {
            return Err(MnemeError::Unsupported { feature: Feature::ReadOnlyWrite });
        }
        let ghost start = storage.files();
        let ghost model = state@;
        let slots = unpersisted_slots(state);
        let full_relations: bool = self.manifest.segments.len() == 0;
        let delta = delta_of(state, &slots, full_relations);
        assert(gives_delta(*delta_of, *old(state), states_all_edges(self.manifest@), delta)) by {
            assert(delta_of.ensures((&*old(state), &slots, full_relations), delta));
        }
        if slots.len() == 0 && delta.len() == 0 && !namespace_registry_changed(
            &self.manifest,
            state,
        ) {
            return Ok(());
        }
        let jobs = flush_jobs(
            &slots,
            delta.len() > 0,
            full_relations,
            self.dimension,
            tuning,
            parallelism,
        );
        proof {
            lemma_jobs_exist(
                model,
                jobs@,
                slots@,
                at_least(tuning.flush_chunk_rows as int, 1) as nat,
            );
        }
        assert(are_flush_jobs(*self, *state, delta@, *tuning, parallelism, jobs@));
        let built = build_segments(state, &jobs, &delta, build);
        let encoded = match built {
            Ok(encoded) => encoded,
            Err(error) => {
                assert(build_fails(*build, *state, delta, jobs@, error));
                return Err(error);
            },
        };
        assert(are_built(*build, *state, delta, jobs@, encoded@));
        let ghost count = jobs@.len();
        let ghost previous = *self;
        let base: u32 = self.manifest.next_segment_id;
        let written_result = write_segments(storage, hook, base, &encoded, seal);
        let ghost written = storage.files();
        let ghost written_settled = storage.settled();
        proof {
            assert forall|path: Seq<char>|
                !flush_writes(self.manifest@, count, path) implies #[trigger] same_at(
                start,
                written,
                path,
            ) by {}
            lemma_root_untouched(start, written, base, count, self.manifest@.manifest_version);
        }
        match written_result {
            Ok(()) => {},
            Err(error) => {
                return Err(error);
            },
        }
        let next = match next_manifest(
            &self.manifest,
            self.dimension,
            self.metric,
            state,
            &jobs,
            now_ms,
            &encoded,
        ) {
            Ok(next) => next,
            Err(error) => {
                return Err(error);
            },
        };
        let ghost version = next.manifest_version;
        proof {
            lemma_root_untouched(start, written, base, count, version);
        }
        let committed_result = commit_manifest(storage, hook, &next, encode);
        let ghost committed = storage.files();
        let ghost committed_settled = storage.settled();
        match committed_result {
            Ok(()) => {},
            Err(error) => {
                proof {
                    assert forall|path: Seq<char>|
                        !flush_writes(self.manifest@, count, path) implies #[trigger] same_at(
                        start,
                        committed,
                        path,
                    ) by {
                        assert(same_at(start, written, path));
                        assert(same_at(written, committed, path));
                    }
                    assert(same_at(start, written, CURRENT_FILE@));
                    lemma_written_stays(written, committed, *seal, base, encoded@, version);
                    lemma_settled_stays(
                        written_settled,
                        committed_settled,
                        base,
                        encoded@,
                        version,
                    );
                    if !same_at(start, committed, CURRENT_FILE@) {
                        assert(is_switched(
                            *build,
                            *seal,
                            *encode,
                            *self,
                            *state,
                            delta,
                            jobs@,
                            now_ms,
                            committed,
                            committed_settled,
                            encoded@,
                            next,
                        ));
                    }
                    assert(are_built(*build, *state, delta, jobs@, encoded@));
                    assert(commit_refused(hook, failures_of(*old(storage)), *encode, next, error));
                    assert(committing_fails(
                        hook,
                        failures_of(*old(storage)),
                        *build,
                        *seal,
                        *encode,
                        *self,
                        *state,
                        delta,
                        jobs@,
                        now_ms,
                        error,
                    ));
                }
                return Err(error);
            },
        }
        install_committed(state, base, &jobs);
        proof {
            old(state).lemma_wf();
            assert forall|j: int, i: int|
                #![trigger jobs@[j].slots@[i]]
                0 <= j < jobs@.len() && 0 <= i < jobs@[j].slots@.len() implies jobs@[j].slots@[i]
                <= u32::MAX by {
                assert(slots_exist(model, jobs@[j].slots@));
            }
        }
        install_graphs(indexes, base, &jobs, &encoded, graph_of);
        self.publish(storage, hook, next);
        proof {
            let end = storage.files();
            let end_settled = storage.settled();
            assert forall|path: Seq<char>|
                !commit_touches(version, path) && !in_log(path) implies #[trigger] same_at(
                written,
                end,
                path,
            ) by {
                assert(same_at(written, committed, path));
                assert(same_at(committed, end, path));
            }
            lemma_written_stays(written, end, *seal, base, encoded@, version);
            assert forall|path: Seq<char>|
                !commit_touches(version, path) && !in_log(path) && written_settled.contains(
                    path,
                ) implies #[trigger] end_settled.contains(path) by {
                assert(committed_settled.contains(path));
            }
            lemma_settled_stays(written_settled, end_settled, base, encoded@, version);
            lemma_manifest_outside_log(version);
            lemma_current_outside_log();
            assert(same_at(committed, end, CURRENT_FILE@));
            assert(same_at(committed, end, manifest_file(version)));
            if is_newest(start, version) {
                lemma_still_newest(start, written, base, count, version);
                let bytes = choose|bytes: Vec<u8>|
                    #![trigger encode.ensures((&self.manifest,), Ok(bytes))]
                    encode.ensures((&self.manifest,), Ok(bytes)) && committed.dom().contains(
                        manifest_file(version),
                    ) && committed[manifest_file(version)] == bytes@;
                assert(encode.ensures((&self.manifest,), Ok(bytes)));
                assert(holds_encoded(end, *encode, self.manifest));
            }
            assert(is_committed(start, end, *encode, self.manifest));
            assert forall|path: Seq<char>|
                !flush_touches(previous.manifest@, count, path) implies #[trigger] same_at(
                start,
                end,
                path,
            ) by {
                assert(same_at(start, written, path));
                assert(same_at(written, committed, path));
                assert(same_at(committed, end, path));
            }
            assert(is_flushed(
                hook,
                *build,
                *seal,
                *encode,
                *graph_of,
                previous,
                *self,
                *old(state),
                state@,
                delta,
                jobs@,
                now_ms,
                start,
                end,
                end_settled,
                old(indexes)@,
                indexes@,
                encoded@,
            ));
        }
        Ok(())
    }

    /// Writes a transaction to the log: all of it, or nothing. A read-only instance accepts the
    /// empty transaction only.
    pub fn log<
        S: Storage,
        H: FsyncHook,
        E: Fn(&FramePlan, &Vec<LoggedOp>, bool) -> Result<EncodedFrame, MnemeError>,
    >(
        &mut self,
        storage: &mut S,
        hook: Option<&H>,
        ops: &Vec<LoggedOp>,
        encode: &E,
    ) -> (result: Result<(), MnemeError>)
        requires
            old(self).wf(),
            old(storage).wf(),
            old(self).wal@.active_index < u32::MAX,
            payloads_of(ops@, ops@.len()).len() <= u64::MAX,
            forall|frame: FramePlan, sealed: bool| encode.requires((&frame, ops, sealed)),
        ensures
            final(self).wf(),
            final(storage).wf(),
            final(storage).reliable() == old(storage).reliable(),
            final(storage).locked() == old(storage).locked(),
            final(self).manifest == old(self).manifest,
            final(self).version == old(self).version,
            final(self).dimension == old(self).dimension,
            final(self).metric == old(self).metric,
            final(self).read_only == old(self).read_only,
            outside_log_kept(old(storage).files(), final(storage).files()),
            result is Ok && ops@.len() > 0 && old(self).wal@.syncs()
                ==> final(storage).settled().contains(old(self).wal@.active()),
            ops@.len() == 0 ==> result is Ok,
            plan_outcome(ops@, old(self).read_only) matches Err(error) ==> result == Err::<
                (),
                MnemeError,
            >(error),
            ops@.len() == 0 || plan_outcome(ops@, old(self).read_only) is Err
                ==> final(self).wal@ == old(self).wal@
                    && final(storage).files() == old(storage).files(),
            result is Ok && ops@.len() > 0 ==> final(self).wal@.agrees_with(
                final(storage).files(),
            ) && exists|frames: Seq<EncodedFrame>|
                frames.len() == transaction_plan(ops@).len() && #[trigger] are_encoded(
                    *encode,
                    transaction_plan(ops@),
                    *ops,
                    old(self).wal@.encrypts,
                    frames,
                ) && transaction_passes(
                    hook,
                    old(self).wal@,
                    content_of(old(storage).files(), old(self).wal@.active()).len(),
                    frames,
                ) && content_of(final(storage).files(), old(self).wal@.active()) == content_of(
                    old(storage).files(),
                    old(self).wal@.active(),
                ) + frames_bytes(frames, frames.len()) && final(self).wal@ == logged(
                    old(self).wal@,
                    content_of(old(storage).files(), old(self).wal@.active()).len() + frames_bytes(
                        frames,
                        frames.len(),
                    ).len(),
                ),
            plan_outcome(ops@, old(self).read_only) is Ok ==> (result matches Err(error)
                ==> log_refused(
                hook,
                failures_of(*old(storage)),
                *encode,
                transaction_plan(ops@),
                *ops,
                old(self).wal@,
                content_of(old(storage).files(), old(self).wal@.active()).len(),
                error,
            )),
            kept_by_log(old(self).wal@, old(storage).files(), final(storage).files()),
            result is Err ==> taken_back(
                old(self).wal@,
                final(self).wal@,
                old(storage).files(),
                final(storage).files(),
                old(storage).cuts() || old(storage).reliable(),
            ),
    {
        log_transaction(&mut self.wal, storage, hook, ops, self.read_only, encode)
    }

    /// Flushes, where the log is due: it has reached `soft` bytes, and either enough versions wait
    /// to keep every builder busy or the log has reached its hard limit. `soft` is 0 where the log
    /// may grow without limit.
    ///
    /// Where it has flushed, what `delta_of` reported has to be cleared, as after `flush`.
    pub fn maybe_flush<
        S: Storage,
        H: FsyncHook,
        G: Fn(&WriterState, &Vec<usize>, bool) -> Vec<DeltaEntry>,
        B: Fn(&WriterState, &BuildJob, &Vec<DeltaEntry>) -> Result<EncodedSegment, MnemeError>,
        L: Fn(SegmentFile, u32, &Vec<u8>) -> Result<Vec<u8>, MnemeError>,
        E: Fn(&Manifest) -> Result<Vec<u8>, MnemeError>,
        I,
        K: Fn(&EncodedSegment) -> Option<BuiltGraph<I>>,
    >(
        &mut self,
        storage: &mut S,
        hook: Option<&H>,
        state: &mut WriterState,
        indexes: &mut Vec<SegmentIndex<I>>,
        soft: u64,
        tuning: &Tuning,
        parallelism: usize,
        now_ms: i64,
        delta_of: &G,
        build: &B,
        seal: &L,
        encode: &E,
        graph_of: &K,
    ) -> (result: Result<(), MnemeError>)
        requires
            old(self).wf(),
            old(storage).wf(),
            old(state).wf(),
            forall|slots: Vec<usize>, full: bool| delta_of.requires((&*old(state), &slots, full)),
            forall|job: BuildJob, passed: Vec<DeltaEntry>|
                build.requires((&*old(state), &job, &passed)),
            forall|file: SegmentFile, id: u32, plain: Vec<u8>| seal.requires((file, id, &plain)),
            forall|manifest: Manifest| encode.requires((&manifest,)),
            forall|segment: EncodedSegment| graph_of.requires((&segment,)),
        ensures
            final(self).wf(),
            final(storage).wf(),
            final(state).wf(),
            final(storage).reliable() == old(storage).reliable(),
            final(storage).locked() == old(storage).locked(),
            final(self).dimension == old(self).dimension,
            final(self).metric == old(self).metric,
            final(self).read_only == old(self).read_only,
            ({
                let due = flush_due(
                    old(self).read_only,
                    soft,
                    capped_sum(old(self).wal@.sealed_bytes, old(self).wal@.written),
                    unpersisted(
                        old(state)@.slot_segment,
                        old(state)@.slots.len(),
                    ).len() as usize,
                    (at_least(tuning.flush_threads as int, 1) * at_least(
                        tuning.flush_chunk_rows as int,
                        1,
                    )) as nat,
                );
                &&& !due ==> result is Ok && *final(self) == *old(self)
                    && *final(state) == *old(state) && final(indexes)@ == old(indexes)@
                    && final(storage).files() == old(storage).files()
                &&& due ==> flush_outcome(
                    *delta_of,
                    *build,
                    *seal,
                    *encode,
                    *graph_of,
                    hook,
                    old(storage).reliable(),
                    failures_of(*old(storage)),
                    *tuning,
                    parallelism,
                    now_ms,
                    *old(self),
                    *final(self),
                    *old(state),
                    final(state)@,
                    old(storage).files(),
                    final(storage).files(),
                    final(storage).settled(),
                    old(indexes)@,
                    final(indexes)@,
                    result,
                )
            }),
    {
        let waiting = unpersisted_slots(state);
        let due: bool = is_flush_due(
            self.read_only,
            soft,
            self.wal_bytes(),
            waiting.len(),
            flush_parallelism(tuning),
            flush_chunk_rows(tuning),
        );
        if !due {
            return Ok(());
        }
        self.flush(
            storage,
            hook,
            state,
            indexes,
            tuning,
            parallelism,
            now_ms,
            delta_of,
            build,
            seal,
            encode,
            graph_of,
        )
    }
}

/// Segments that are on stable storage stay there while a manifest is committed and the log is
/// emptied.
proof fn lemma_settled_stays(
    before: PathSet,
    after: PathSet,
    base: u32,
    encoded: Seq<EncodedSegment>,
    version: u64,
)
    requires
        segments_settled(before, base, encoded),
        forall|path: Seq<char>|
            !commit_touches(version, path) && !in_log(path) && before.contains(path)
                ==> #[trigger] after.contains(path),
    ensures
        segments_settled(after, base, encoded),
{
    assert forall|i: int| 0 <= i < encoded.len() implies segment_settled(
        after,
        (base + i) as u32,
        #[trigger] encoded[i],
    ) by {
        let id = (base + i) as u32;
        assert(segment_settled(before, id, encoded[i]));
        assert forall|file: SegmentFile| encoded[i].file(file) is Some implies after.contains(
            #[trigger] segment_path(file, id),
        ) by {
            lemma_segment_path_apart(file, id, version);
            assert(before.contains(segment_path(file, id)));
        }
    }
}

/// A manifest lies outside of the log directory.
proof fn lemma_manifest_outside_log(version: u64)
    ensures
        !in_log(manifest_file(version)),
{
    reveal_strlit("wal");
    reveal_strlit("/");
    reveal_strlit("MANIFEST.");
    let head = WAL_DIR@ + "/"@;
    let name = manifest_file(version);
    assert(name[0] == 'M');
    if in_log(name) {
        assert(name.take(head.len() as int)[0] == 'w');
    }
}

/// Writing segments leaves `current` and the manifests alone.
proof fn lemma_root_untouched(
    before: FileMap,
    after: FileMap,
    base: u32,
    count: nat,
    version: u64,
)
    requires
        only_segments_changed(before, after, base, count),
    ensures
        same_at(before, after, CURRENT_FILE@),
        same_at(before, after, manifest_file(version)),
{
    reveal_strlit("current");
    reveal_strlit("segments");
    reveal_strlit("MANIFEST.");
    assert(CURRENT_FILE@[0] == 'c');
    assert(manifest_file(version)[0] == 'M');
    assert forall|file: SegmentFile, id: u32| (#[trigger] segment_path(file, id))[0] == 's'
        && temporary_of(segment_path(file, id))[0] == 's' by {}
    assert(!in_segments(base, count, CURRENT_FILE@));
    assert(!in_segments(base, count, manifest_file(version)));
}

/// A version that is newer than every manifest still is, once segments were written.
proof fn lemma_still_newest(before: FileMap, after: FileMap, base: u32, count: nat, version: u64)
    requires
        only_segments_changed(before, after, base, count),
        is_newest(before, version),
    ensures
        is_newest(after, version),
{
    reveal_strlit("segments");
    reveal_strlit("MANIFEST.");
    let root = Seq::<char>::empty();
    assert forall|name: Seq<char>, other: u64| #[trigger]
        names_version(after, name, other) && name != manifest_file(version) implies other
        < version by {
        assert(name.take(9)[0] == 'M');
        assert forall|file: SegmentFile, id: u32| (#[trigger] segment_path(file, id))[0] == 's'
            && temporary_of(segment_path(file, id))[0] == 's' by {}
        assert(!in_segments(base, count, name));
        assert(dir_prefix(root) + name =~= name);
        assert(same_at(before, after, name));
        assert(names_version(before, name, other));
    }
}

proof fn lemma_current_outside_log()
    ensures
        !in_log(CURRENT_FILE@),
{
    reveal_strlit("current");
    reveal_strlit("wal");
    assert(in_log(CURRENT_FILE@) ==> CURRENT_FILE@.take(4)[0] == 'w');
}

/// A flush that succeeded is not lost when the system crashes right after it: `current` still names
/// the manifest that was committed, the file of that manifest holds it as it is encoded, where every
/// other manifest is older, and every segment of the flush is there as it was written.
pub proof fn flush_survives_crash<
    H: FsyncHook,
    B: Fn(&WriterState, &BuildJob, &Vec<DeltaEntry>) -> Result<EncodedSegment, MnemeError>,
    L: Fn(SegmentFile, u32, &Vec<u8>) -> Result<Vec<u8>, MnemeError>,
    E: Fn(&Manifest) -> Result<Vec<u8>, MnemeError>,
    I,
    K: Fn(&EncodedSegment) -> Option<BuiltGraph<I>>,
>(
    hook: Option<&H>,
    build: B,
    seal: L,
    encode: E,
    graph_of: K,
    before: Store,
    after: Store,
    state_before: WriterState,
    state_after: StateModel,
    delta: Vec<DeltaEntry>,
    jobs: Seq<BuildJob>,
    now_ms: i64,
    files_before: FileMap,
    files: FileMap,
    settled: PathSet,
    indexes_before: Seq<SegmentIndex<I>>,
    indexes_after: Seq<SegmentIndex<I>>,
    encoded: Seq<EncodedSegment>,
    left: FileMap,
)
    requires
        is_flushed(
            hook,
            build,
            seal,
            encode,
            graph_of,
            before,
            after,
            state_before,
            state_after,
            delta,
            jobs,
            now_ms,
            files_before,
            files,
            settled,
            indexes_before,
            indexes_after,
            encoded,
        ),
        left_by_crash(files, settled, left),
    ensures
        current_of(left) == Some(after.version),
        is_newest(files_before, after.version) ==> holds_encoded(left, encode, after.manifest),
        segments_written(left, seal, before.manifest@.next_segment_id, encoded),
{
    let base = before.manifest@.next_segment_id;
    assert(same_at(files, left, CURRENT_FILE@));
    if is_newest(files_before, after.version) {
        let bytes = choose|bytes: Vec<u8>|
            #![trigger encode.ensures((&after.manifest,), Ok(bytes))]
            encode.ensures((&after.manifest,), Ok(bytes)) && files.dom().contains(
                manifest_file(after.version),
            ) && files[manifest_file(after.version)] == bytes@;
        assert(encode.ensures((&after.manifest,), Ok(bytes)));
        assert(same_at(files, left, manifest_file(after.version)));
    }
    assert forall|i: int| 0 <= i < encoded.len() implies segment_written(
        left,
        seal,
        (base + i) as u32,
        #[trigger] encoded[i],
    ) by {
        let id = (base + i) as u32;
        assert(segment_written(files, seal, id, encoded[i]));
        assert(segment_settled(settled, id, encoded[i]));
        assert(encoded[i].file(SegmentFile::Vsec) is Some ==> same_at(
            files,
            left,
            segment_path(SegmentFile::Vsec, id),
        ));
        assert(encoded[i].file(SegmentFile::Msec) is Some ==> same_at(
            files,
            left,
            segment_path(SegmentFile::Msec, id),
        ));
        assert(encoded[i].file(SegmentFile::Hidx) is Some ==> same_at(
            files,
            left,
            segment_path(SegmentFile::Hidx, id),
        ));
    }
}

/// A flush never touches a file of a segment that the manifest already has.
pub proof fn flush_spares_segments(
    previous: ManifestView,
    count: nat,
    file: SegmentFile,
    id: u32,
)
    requires
        id < previous.next_segment_id,
    ensures
        !flush_touches(previous, count, segment_path(file, id)),
        !flush_writes(previous, count, segment_path(file, id)),
{
    let path = segment_path(file, id);
    lemma_segment_path_apart(file, id, (previous.manifest_version + 1) as u64);
    crate::manifest_io::lemma_manifest_names((previous.manifest_version + 1) as u64);
    assert forall|other: SegmentFile, above: u32|
        above >= previous.next_segment_id implies path != #[trigger] segment_path(other, above)
        && path != temporary_of(segment_path(other, above)) by {
        crate::commit::lemma_segment_paths_apart(file, id, other, above);
    }
}

/// A flush has nothing to do only where every version belongs to a segment, nothing else changed,
/// and the manifest lists as many namespaces as there are, each under its path.
pub proof fn idle_flush_misses_nothing(
    previous: ManifestView,
    state: StateModel,
    delta: Seq<DeltaEntry>,
    at: int,
)
    requires
        state.slots.len() == state.slot_segment.len(),
        state.slots.len() <= usize::MAX,
    ensures
        is_idle(previous, state, delta) && 0 <= at < state.slots.len() ==> state.slot_segment[at]
            is Some,
        is_idle(previous, state, delta) ==> delta.len() == 0,
        is_idle(previous, state, delta) ==> previous.namespaces.len() == state.ns_registry.len(),
        is_idle(previous, state, delta) && 0 <= at < previous.namespaces.len() ==> {
            let entry = previous.namespaces[at];
            state.ns_registry.dom().contains(entry.0 as u64) && state.ns_registry[entry.0 as u64]
                == entry.1
        },
        (forall|i: int| 0 <= i < state.slots.len() ==> (#[trigger] state.slot_segment[i]) is Some)
            && delta.len() == 0 && previous.namespaces.len() == state.ns_registry.len() && (forall|
            i: int,
        |
            0 <= i < previous.namespaces.len() ==> state.ns_registry.dom().contains(
                (#[trigger] previous.namespaces[i]).0 as u64,
            ) && state.ns_registry[previous.namespaces[i].0 as u64] == previous.namespaces[i].1)
            ==> is_idle(previous, state, delta),
{
    lemma_none_waits(state.slot_segment, state.slots.len(), at);
}

proof fn lemma_none_waits(slot_segment: Seq<Option<u32>>, count: nat, at: int)
    requires
        count <= slot_segment.len(),
    ensures
        unpersisted(slot_segment, count).len() == 0 && 0 <= at < count ==> slot_segment[at] is Some,
        (forall|i: int| 0 <= i < count ==> (#[trigger] slot_segment[i]) is Some) ==> unpersisted(
            slot_segment,
            count,
        ).len() == 0,
    decreases count,
{
    if count > 0 {
        lemma_none_waits(slot_segment, (count - 1) as nat, at);
    }
}

/// Of the segments of a flush only the first states edges in full, and only where no segment was
/// there before. None has more rows than a segment may have. Where several are built at a time,
/// each has one builder.
pub proof fn first_segment_states_all_edges(
    before: Store,
    state_before: WriterState,
    delta: Seq<DeltaEntry>,
    tuning: Tuning,
    parallelism: usize,
    jobs: Seq<BuildJob>,
    number: int,
)
    requires
        are_flush_jobs(before, state_before, delta, tuning, parallelism, jobs),
        0 <= number < jobs.len(),
    ensures
        jobs[number].full_relations <==> number == 0 && before.manifest.segments@.len() == 0,
        jobs[number].slots@.len() <= tuning.flush_chunk_rows || tuning.flush_chunk_rows == 0
            && jobs[number].slots@.len() <= 1,
        jobs[number].parallelism == 1 || jobs[number].parallelism == parallelism,
        delta.len() == 0 ==> jobs[number].slots@.len() > 0,
{
    let slots = unpersisted(state_before@.slot_segment, state_before@.slots.len());
    let rows = at_least(tuning.flush_chunk_rows as int, 1);
    let parts = job_slots(jobs);
    assert(parts[number] == jobs[number].slots);
    if slots.len() > 0 {
        let total = slots.len();
        let from = chunk_start(total, rows as nat, number);
        let to = chunk_start(total, rows as nat, number + 1);
        assert((number + 1) * rows == number * rows + rows) by (nonlinear_arith);
        assert(number * rows >= 0) by (nonlinear_arith)
            requires
                number >= 0,
                rows >= 0,
        ;
        let blocks = parts.len() as int;
        assert(blocks == blocks_for(total, rows as nat));
        let whole = total / (rows as nat);
        let rest = total % (rows as nat);
        assert(total == whole * rows + rest && 0 <= rest < rows) by (nonlinear_arith)
            requires
                rows >= 1,
                whole == total / (rows as nat),
                rest == total % (rows as nat),
        ;
        assert(number * rows < total) by (nonlinear_arith)
            requires
                rows >= 1,
                total == whole * rows + rest,
                0 <= rest,
                number < whole || (number == whole && rest > 0),
        ;
        assert(parts[number]@ == slots.subrange(from, to));
    }
}

/// A log that was emptied holds nothing but the header of its active file, where the writer stands:
/// every other log file is gone.
pub proof fn emptied_log_holds_its_header(
    before: WriterModel,
    after: WriterModel,
    files: FileMap,
    path: Seq<char>,
)
    requires
        log_emptied(before, after, files),
        before.header.len() <= u64::MAX,
    ensures
        after.active_index == before.active_index,
        after.written == before.header.len(),
        after.sealed_bytes == 0,
        after.writable == before.writable,
        files.dom().contains(wal_path(after.active_index)),
        files[wal_path(after.active_index)] == before.header,
        after.agrees_with(files),
        is_wal_file(files, path) ==> path == wal_path(after.active_index),
{
}

/// A reader flushes nothing and is told so; a flush that fails leaves the open library as it was.
pub proof fn failed_flush_changes_nothing<
    G: Fn(&WriterState, &Vec<usize>, bool) -> Vec<DeltaEntry>,
    B: Fn(&WriterState, &BuildJob, &Vec<DeltaEntry>) -> Result<EncodedSegment, MnemeError>,
    L: Fn(SegmentFile, u32, &Vec<u8>) -> Result<Vec<u8>, MnemeError>,
    E: Fn(&Manifest) -> Result<Vec<u8>, MnemeError>,
    H: FsyncHook,
    I,
    K: Fn(&EncodedSegment) -> Option<BuiltGraph<I>>,
>(
    delta_of: G,
    build: B,
    seal: L,
    encode: E,
    graph_of: K,
    hook: Option<&H>,
    reliable: bool,
    failures: FailureSet,
    tuning: Tuning,
    parallelism: usize,
    now_ms: i64,
    before: Store,
    after: Store,
    state_before: WriterState,
    state_after: StateModel,
    files_before: FileMap,
    files_after: FileMap,
    settled_after: PathSet,
    indexes_before: Seq<SegmentIndex<I>>,
    indexes_after: Seq<SegmentIndex<I>>,
    result: Result<(), MnemeError>,
)
    requires
        flush_outcome(
            delta_of,
            build,
            seal,
            encode,
            graph_of,
            hook,
            reliable,
            failures,
            tuning,
            parallelism,
            now_ms,
            before,
            after,
            state_before,
            state_after,
            files_before,
            files_after,
            settled_after,
            indexes_before,
            indexes_after,
            result,
        ),
    ensures
        before.read_only ==> result == Err::<(), MnemeError>(
            MnemeError::Unsupported { feature: Feature::ReadOnlyWrite },
        ) && files_after == files_before,
        result is Err ==> state_after == state_before@ && after == before && indexes_after
            == indexes_before,
        result is Ok ==> after.manifest == before.manifest || after.manifest.manifest_version
            == before.manifest.manifest_version + 1,
        result is Ok && after.manifest.manifest_version == before.manifest.manifest_version
            ==> forall|at: int|
            #![trigger state_before@.slot_segment[at]]
            state_before@.slots.len() == state_before@.slot_segment.len() && 0 <= at
                < state_before@.slots.len() ==> state_before@.slot_segment[at] is Some,
{
    if result is Ok && after.manifest.manifest_version == before.manifest.manifest_version {
        assert forall|at: int|
            #![trigger state_before@.slot_segment[at]]
            state_before@.slots.len() == state_before@.slot_segment.len() && 0 <= at
                < state_before@.slots.len() implies state_before@.slot_segment[at] is Some by {
            lemma_none_waits(state_before@.slot_segment, state_before@.slots.len(), at);
        }
    }
}

/// The changes that a flush has to record beside the new versions are taken with exactly the
/// versions that no segment holds yet.
pub proof fn delta_is_taken_with_the_new_versions<
    G: Fn(&WriterState, &Vec<usize>, bool) -> Vec<DeltaEntry>,
>(delta_of: G, state: WriterState, full: bool, delta: Vec<DeltaEntry>)
    requires
        gives_delta(delta_of, state, full, delta),
        state@.slots.len() == state@.slot_segment.len(),
        state@.slots.len() <= usize::MAX,
    ensures
        exists|slots: Vec<usize>|
            #![trigger delta_of.ensures((&state, &slots, full), delta)]
            delta_of.ensures((&state, &slots, full), delta) && (forall|at: int|
                0 <= at < state@.slots.len() ==> ((#[trigger] state@.slot_segment[at]) is None
                    <==> slots@.contains(at as usize))) && (forall|i: int|
                0 <= i < slots@.len() ==> (#[trigger] slots@[i]) < state@.slots.len()),
{
    let slots = choose|slots: Vec<usize>|
        #![trigger delta_of.ensures((&state, &slots, full), delta)]
        slots@ == unpersisted(state@.slot_segment, state@.slots.len()) && delta_of.ensures(
            (&state, &slots, full),
            delta,
        );
    assert forall|at: int| 0 <= at < state@.slots.len() implies ((
    #[trigger] state@.slot_segment[at]) is None <==> slots@.contains(at as usize)) by {
        lemma_waits(state@.slot_segment, state@.slots.len(), at);
    }
    lemma_unpersisted(state@.slot_segment, state@.slots.len());
}

proof fn lemma_waits(slot_segment: Seq<Option<u32>>, count: nat, at: int)
    requires
        count <= slot_segment.len() <= usize::MAX,
        0 <= at < slot_segment.len(),
    ensures
        unpersisted(slot_segment, count).contains(at as usize) <==> at < count && slot_segment[at]
            is None,
    decreases count,
{
    if count > 0 {
        let less = (count - 1) as nat;
        lemma_waits(slot_segment, less, at);
        let before = unpersisted(slot_segment, less);
        let all = unpersisted(slot_segment, count);
        if slot_segment[less as int] is None {
            assert(all[before.len() as int] == less as usize);
            if before.contains(at as usize) {
                let k = choose|k: int| 0 <= k < before.len() && before[k] == at as usize;
                assert(all[k] == at as usize);
            }
            if all.contains(at as usize) {
                let k = choose|k: int| 0 <= k < all.len() && all[k] == at as usize;
                if k < before.len() {
                    assert(before[k] == at as usize);
                }
            }
        }
    }
}

} // verus!
