//! What a flush or a merge leaves for the next opening.

use vstd::prelude::*;

use crate::chunk::{at_least, Tuning};
use crate::commit::{
    are_graphs, built_graphs_come_into_use, flush_persists_everything,
    flushed_versions_know_their_segment, installed, merged_versions_move, new_graphs,
    segment_written,
};
use crate::compact::{
    group_outcome, in_group, is_merged, merge_keeps_other_segments, outside_group,
};
use crate::crc::crc32_of;
use crate::error::{MnemeError, SegmentFile};
use crate::hidx::{graph_models, BuiltGraph, SegmentIndex};
use crate::hook::FsyncHook;
use crate::layout::{segment_path, wal_path};
use crate::manifest::{Manifest, SegmentEntry};
use crate::segment::DeltaEntry;
use crate::snapshot::{jobs_exist, slots_exist, widened_namespaces, BuildJob, EncodedSegment};
use crate::source::{
    is_opening, is_sealed, opens_segment, unseals, ByteFile, SegmentHandle,
};
use crate::state::{StateModel, WriterState};
use crate::storage::{given_by, FailureSet, FileMap, PathSet};
use crate::store::{are_flush_jobs, is_flushed, Store};

verus! {

/// Whether `unseal` undoes `seal` for the bytes of a file: bytes that were sealed begin with the
/// mark and open to what they were; bytes that do not begin with the mark were left as they are.
pub open spec fn seal_is_undone<
    L: Fn(SegmentFile, u32, &Vec<u8>) -> Result<Vec<u8>, MnemeError>,
    U: Fn(SegmentFile, u32, Vec<u8>) -> Result<Vec<u8>, MnemeError>,
>(
    seal: L,
    unseal: U,
    magic: Seq<u8>,
    file: SegmentFile,
    segment_id: u32,
    plain: Vec<u8>,
) -> bool {
    forall|sealed: Vec<u8>| #[trigger]
        seal.ensures((file, segment_id, &plain), Ok(sealed)) ==> if sealed@.len() >= magic.len()
            && sealed@.take(magic.len() as int) == magic {
            forall|raw: Vec<u8>, out: Result<Vec<u8>, MnemeError>|
                raw@ == sealed@ && #[trigger] unseal.ensures((file, segment_id, raw), out) ==> (
                out matches Ok(opened) && opened@ == plain@)
        } else {
            sealed@ == plain@
        }
}

proof fn lemma_file_opens<
    L: Fn(SegmentFile, u32, &Vec<u8>) -> Result<Vec<u8>, MnemeError>,
    U: Fn(SegmentFile, u32, Vec<u8>) -> Result<Vec<u8>, MnemeError>,
>(
    files: FileMap,
    seal: L,
    unseal: U,
    magic: Seq<u8>,
    file: SegmentFile,
    segment_id: u32,
    encoded: EncodedSegment,
    plain: Vec<u8>,
    opened: Result<ByteFile, MnemeError>,
)
    requires
        segment_written(files, seal, segment_id, encoded),
        match file {
            SegmentFile::Vsec => plain == encoded.vsec,
            SegmentFile::Msec => plain == encoded.msec,
            SegmentFile::Hidx => encoded.hidx == Some(plain),
        },
        seal_is_undone(seal, unseal, magic, file, segment_id, plain),
        is_opening(files, file, segment_id, magic, unseal, FailureSet::empty(), opened),
    ensures
        opened matches Ok(found) && found.bytes() == plain@,
{
    let path = segment_path(file, segment_id);
    assert(files.dom().contains(path));
    let sealed = choose|out: Vec<u8>|
        #![trigger seal.ensures((file, segment_id, &plain), Ok(out))]
        out@ == files[path] && seal.ensures((file, segment_id, &plain), Ok(out));
    assert(seal.ensures((file, segment_id, &plain), Ok(sealed)));
    let marked = sealed@.len() >= magic.len() && sealed@.take(magic.len() as int) == magic;
    assert(marked == is_sealed(files[path], magic)) by {
        assert(sealed@.take(sealed@.len() as int) =~= sealed@);
    }
    if marked {
        assert forall|out: Result<Vec<u8>, MnemeError>| #[trigger]
            unseals(unseal, file, segment_id, files[path], out) implies (out matches Ok(found)
            && found@ == plain@) by {
            let raw = choose|raw: Vec<u8>|
                raw@ == files[path] && #[trigger] unseal.ensures((file, segment_id, raw), out);
            assert(unseal.ensures((file, segment_id, raw), out));
        }
    }
    match opened {
        Err(error) => {
            assert(!given_by(FailureSet::empty(), error));
        },
        Ok(_) => {},
    }
}

/// A segment that was written opens as it was built: each of its files holds the bytes that its
/// builder handed over. The graph is there exactly where the builder gave one, going by the
/// checksum that the manifest states for it.
pub proof fn written_segment_opens_as_built<
    L: Fn(SegmentFile, u32, &Vec<u8>) -> Result<Vec<u8>, MnemeError>,
    U: Fn(SegmentFile, u32, Vec<u8>) -> Result<Vec<u8>, MnemeError>,
>(
    files: FileMap,
    seal: L,
    unseal: U,
    magic: Seq<u8>,
    entry: SegmentEntry,
    encoded: EncodedSegment,
    fail_fast: bool,
    result: Result<SegmentHandle, MnemeError>,
)
    requires
        segment_written(files, seal, entry.segment_id, encoded),
        seal_is_undone(seal, unseal, magic, SegmentFile::Vsec, entry.segment_id, encoded.vsec),
        seal_is_undone(seal, unseal, magic, SegmentFile::Msec, entry.segment_id, encoded.msec),
        encoded.hidx matches Some(bytes) ==> seal_is_undone(
            seal,
            unseal,
            magic,
            SegmentFile::Hidx,
            entry.segment_id,
            bytes,
        ),
        encoded.vsec@.len() > 0,
        encoded.msec@.len() > 0,
        encoded.hidx matches Some(bytes) ==> entry.hidx_crc == crc32_of(bytes@),
        encoded.hidx is None ==> entry.hidx_crc == 0,
        opens_segment(files, entry, fail_fast, magic, unseal, FailureSet::empty(), result),
    ensures
        result matches Ok(handle) && {
            &&& handle.segment_id == entry.segment_id
            &&& handle.vsec.bytes() == encoded.vsec@
            &&& handle.msec.bytes() == encoded.msec@
            &&& encoded.hidx is None ==> handle.hidx is None
            &&& encoded.hidx matches Some(bytes) ==> crc32_of(bytes@) != 0 ==> (
            handle.hidx matches Some(graph) && graph.bytes() == bytes@)
        },
{
    let id = entry.segment_id;
    assert forall|opened: Result<ByteFile, MnemeError>| #[trigger]
        is_opening(
            files,
            SegmentFile::Vsec,
            id,
            magic,
            unseal,
            FailureSet::empty(),
            opened,
        ) implies (opened matches Ok(found) && found.bytes() == encoded.vsec@) by {
        lemma_file_opens(
            files,
            seal,
            unseal,
            magic,
            SegmentFile::Vsec,
            id,
            encoded,
            encoded.vsec,
            opened,
        );
    }
    assert forall|opened: Result<ByteFile, MnemeError>| #[trigger]
        is_opening(
            files,
            SegmentFile::Msec,
            id,
            magic,
            unseal,
            FailureSet::empty(),
            opened,
        ) implies (opened matches Ok(found) && found.bytes() == encoded.msec@) by {
        lemma_file_opens(
            files,
            seal,
            unseal,
            magic,
            SegmentFile::Msec,
            id,
            encoded,
            encoded.msec,
            opened,
        );
    }
    if encoded.hidx is Some {
        let bytes = encoded.hidx->0;
        assert forall|opened: Result<ByteFile, MnemeError>| #[trigger]
            is_opening(
                files,
                SegmentFile::Hidx,
                id,
                magic,
                unseal,
                FailureSet::empty(),
                opened,
            ) implies (opened matches Ok(found) && found.bytes() == bytes@) by {
            lemma_file_opens(
                files,
                seal,
                unseal,
                magic,
                SegmentFile::Hidx,
                id,
                encoded,
                bytes,
                opened,
            );
        }
    }
}

/// A flush commits what it wrote. The manifest goes on from the one before it: every segment that
/// was there stays, in its place; behind them stands, for every job, an entry with the number, the
/// rows, the commit numbers and the checksums of the segment that was built for it. A segment that
/// was built with a graph states the checksum of the graph, one without states none. What the log
/// holds up to the commit number of the state is covered.
pub proof fn flush_commits_what_it_built<
    H: FsyncHook,
    B: Fn(&WriterState, &BuildJob, &Vec<DeltaEntry>) -> Result<EncodedSegment, MnemeError>,
    L: Fn(SegmentFile, u32, &Vec<u8>) -> Result<Vec<u8>, MnemeError>,
    E: Fn(&Manifest) -> Result<Vec<u8>, MnemeError>,
    I,
    K: Fn(&EncodedSegment) -> Option<BuiltGraph<I>>,
>(
    hook: Option<&H>,
    build: B,
    seal: L,
    encode: E,
    graph_of: K,
    before: Store,
    after: Store,
    state_before: WriterState,
    state_after: StateModel,
    delta: Vec<DeltaEntry>,
    jobs: Seq<BuildJob>,
    now_ms: i64,
    files_before: FileMap,
    files: FileMap,
    settled: PathSet,
    indexes_before: Seq<SegmentIndex<I>>,
    indexes_after: Seq<SegmentIndex<I>>,
    encoded: Seq<EncodedSegment>,
    number: int,
)
    requires
        is_flushed(
            hook,
            build,
            seal,
            encode,
            graph_of,
            before,
            after,
            state_before,
            state_after,
            delta,
            jobs,
            now_ms,
            files_before,
            files,
            settled,
            indexes_before,
            indexes_after,
            encoded,
        ),
        0 <= number < jobs.len(),
    ensures
        encoded.len() == jobs.len(),
        after.version == after.manifest.manifest_version,
        after.manifest.manifest_version == before.manifest.manifest_version + 1,
        after.manifest.watermark_seqno == state_before@.seqno,
        after.manifest.next_rowid == state_before@.next_rowid,
        after.manifest.next_ns_id == state_before@.next_ns_id,
        after.manifest.next_rel_kind == state_before@.next_rel_kind,
        after.manifest.next_segment_id == before.manifest.next_segment_id + jobs.len(),
        after.manifest.dimension == before.dimension,
        after.manifest.metric == before.metric,
        after.manifest.stopwords == before.manifest.stopwords,
        after.manifest.segments@.len() == before.manifest.segments@.len() + jobs.len(),
        forall|i: int|
            0 <= i < before.manifest.segments@.len() ==> #[trigger] after.manifest.segments@[i]
                == before.manifest.segments@[i],
        ({
            let entry = after.manifest.segments@[before.manifest.segments@.len() + number];
            &&& entry.segment_id == before.manifest.next_segment_id + number
            &&& entry.row_count == jobs[number].slots@.len()
            &&& entry.created_ms == now_ms
            &&& entry.format_version == encoded[number].format_version
            &&& entry.entry_slot == encoded[number].entry_slot
            &&& entry.entry_level == encoded[number].entry_level
            &&& entry.vsec_crc == crc32_of(encoded[number].vsec@)
            &&& entry.msec_crc == crc32_of(encoded[number].msec@)
            &&& encoded[number].hidx matches Some(bytes) ==> entry.hidx_crc == crc32_of(bytes@)
            &&& encoded[number].hidx is None ==> entry.hidx_crc == 0
            &&& forall|i: int|
                0 <= i < jobs[number].slots@.len() ==> entry.min_seqno
                    <= state_before@.slots[#[trigger] jobs[number].slots@[i] as int].seqno
                    <= entry.max_seqno
            &&& jobs[number].slots@.len() > 0 ==> exists|i: int|
                0 <= i < jobs[number].slots@.len()
                    && state_before@.slots[#[trigger] jobs[number].slots@[i] as int].seqno
                    == entry.min_seqno
            &&& jobs[number].slots@.len() > 0 ==> exists|i: int|
                0 <= i < jobs[number].slots@.len()
                    && state_before@.slots[#[trigger] jobs[number].slots@[i] as int].seqno
                    == entry.max_seqno
            &&& segment_written(files, seal, entry.segment_id, encoded[number])
        }),
        exists|handed: Vec<DeltaEntry>|
            #![trigger build.ensures(
                (&state_before, &jobs[number], &handed),
                Ok(encoded[number]),
            )]
            build.ensures((&state_before, &jobs[number], &handed), Ok(encoded[number])) && (number
                == 0 ==> handed == delta) && (number > 0 ==> handed@.len() == 0),
        state_after.slots == state_before@.slots,
        state_after.latest == state_before@.latest,
        state_after.hidden == state_before@.hidden,
        state_after.access == state_before@.access,
        state_after.out_edges == state_before@.out_edges,
        state_after.in_edges == state_before@.in_edges,
{
    let held = before.manifest@.segments.len() as int;
    let next = after.manifest@;
    assert forall|i: int| 0 <= i < held implies #[trigger] after.manifest.segments@[i]
        == before.manifest.segments@[i] by {
        assert(next.segments.take(held)[i] == next.segments[i]);
    }
    assert(next.segments.skip(held)[number] == next.segments[held + number]);
    assert(segment_written(
        files,
        seal,
        (before.manifest.next_segment_id + number) as u32,
        encoded[number],
    ));
    assert(encoded[number] == encoded[number]);
}

/// What a flush wrote is what the next opening finds: the segment of every job opens from the
/// committed files, by the entry of the committed manifest, and holds the vectors, the records and
/// the graph that were built for the job.
pub proof fn flushed_segment_opens_as_built<
    H: FsyncHook,
    B: Fn(&WriterState, &BuildJob, &Vec<DeltaEntry>) -> Result<EncodedSegment, MnemeError>,
    L: Fn(SegmentFile, u32, &Vec<u8>) -> Result<Vec<u8>, MnemeError>,
    E: Fn(&Manifest) -> Result<Vec<u8>, MnemeError>,
    I,
    K: Fn(&EncodedSegment) -> Option<BuiltGraph<I>>,
    U: Fn(SegmentFile, u32, Vec<u8>) -> Result<Vec<u8>, MnemeError>,
>(
    hook: Option<&H>,
    build: B,
    seal: L,
    encode: E,
    graph_of: K,
    before: Store,
    after: Store,
    state_before: WriterState,
    state_after: StateModel,
    delta: Vec<DeltaEntry>,
    jobs: Seq<BuildJob>,
    now_ms: i64,
    files_before: FileMap,
    files: FileMap,
    settled: PathSet,
    indexes_before: Seq<SegmentIndex<I>>,
    indexes_after: Seq<SegmentIndex<I>>,
    encoded: Seq<EncodedSegment>,
    number: int,
    unseal: U,
    magic: Seq<u8>,
    fail_fast: bool,
    result: Result<SegmentHandle, MnemeError>,
)
    requires
        is_flushed(
            hook,
            build,
            seal,
            encode,
            graph_of,
            before,
            after,
            state_before,
            state_after,
            delta,
            jobs,
            now_ms,
            files_before,
            files,
            settled,
            indexes_before,
            indexes_after,
            encoded,
        ),
        0 <= number < jobs.len(),
        forall|file: SegmentFile, id: u32, plain: Vec<u8>| #[trigger]
            seal_is_undone(seal, unseal, magic, file, id, plain),
        encoded[number].vsec@.len() > 0,
        encoded[number].msec@.len() > 0,
        opens_segment(
            files,
            after.manifest.segments@[before.manifest.segments@.len() + number],
            fail_fast,
            magic,
            unseal,
            FailureSet::empty(),
            result,
        ),
    ensures
        result matches Ok(handle) && {
            &&& handle.segment_id == before.manifest.next_segment_id + number
            &&& handle.vsec.bytes() == encoded[number].vsec@
            &&& handle.msec.bytes() == encoded[number].msec@
            &&& encoded[number].hidx is None ==> handle.hidx is None
            &&& encoded[number].hidx matches Some(bytes) ==> crc32_of(bytes@) != 0 ==> (
            handle.hidx matches Some(graph) && graph.bytes() == bytes@)
        },
{
    flush_commits_what_it_built(
        hook,
        build,
        seal,
        encode,
        graph_of,
        before,
        after,
        state_before,
        state_after,
        delta,
        jobs,
        now_ms,
        files_before,
        files,
        settled,
        indexes_before,
        indexes_after,
        encoded,
        number,
    );
    let entry = after.manifest.segments@[before.manifest.segments@.len() + number];
    let id = entry.segment_id;
    assert(seal_is_undone(seal, unseal, magic, SegmentFile::Vsec, id, encoded[number].vsec));
    assert(seal_is_undone(seal, unseal, magic, SegmentFile::Msec, id, encoded[number].msec));
    if encoded[number].hidx is Some {
        assert(seal_is_undone(
            seal,
            unseal,
            magic,
            SegmentFile::Hidx,
            id,
            encoded[number].hidx->0,
        ));
    }
    written_segment_opens_as_built(
        files,
        seal,
        unseal,
        magic,
        entry,
        encoded[number],
        fail_fast,
        result,
    );
}

/// A merge commits what it built, in place of the segments of its plan. Every segment outside of
/// the plan stays and no other does; behind them stands the merged segment, with the versions that
/// survive, their commit numbers and the checksums of its files. The builder was told to put all
/// edges down. The watermark stays, since the log is kept. The versions that survive belong to the
/// merged segment; nothing else about any version changes. The manifest lists the namespaces of the
/// state and keeps the relation kinds that it had.
#[verifier::spinoff_prover]
pub proof fn merge_commits_what_it_built<
    H: FsyncHook,
    R: Fn(u32, Vec<u8>) -> Result<Vec<DeltaEntry>, MnemeError>,
    B: Fn(&WriterState, &BuildJob, &Vec<DeltaEntry>) -> Result<EncodedSegment, MnemeError>,
    L: Fn(SegmentFile, u32, &Vec<u8>) -> Result<Vec<u8>, MnemeError>,
    E: Fn(&Manifest) -> Result<Vec<u8>, MnemeError>,
    I,
    K: Fn(&EncodedSegment) -> Option<BuiltGraph<I>>,
>(
    hook: Option<&H>,
    read: R,
    build: B,
    seal: L,
    encode: E,
    graph_of: K,
    before: Store,
    after: Store,
    state_before: WriterState,
    state_after: StateModel,
    plan: Seq<u32>,
    keep: Seq<usize>,
    parallelism: usize,
    now_ms: i64,
    files_before: FileMap,
    files: FileMap,
    settled: PathSet,
    indexes_before: Seq<SegmentIndex<I>>,
    indexes_after: Seq<SegmentIndex<I>>,
    group: Vec<SegmentEntry>,
    encoded: EncodedSegment,
    at: int,
)
    requires
        is_merged(
            hook,
            read,
            build,
            seal,
            encode,
            graph_of,
            before,
            after,
            state_before,
            state_after,
            plan,
            keep,
            parallelism,
            now_ms,
            files_before,
            files,
            settled,
            indexes_before,
            indexes_after,
            group,
            encoded,
        ),
        !plan.contains(before.manifest.next_segment_id),
        slots_exist(state_before@, keep),
        state_before@.consistent(),
        0 <= at < state_before@.slots.len() <= usize::MAX,
    ensures
        plan.len() > 0,
        after.version == after.manifest.manifest_version,
        after.manifest.manifest_version == before.manifest.manifest_version + 1,
        after.manifest.watermark_seqno == before.manifest.watermark_seqno,
        after.manifest.next_rowid == state_before@.next_rowid,
        after.manifest.next_segment_id == before.manifest.next_segment_id + 1,
        after.manifest.next_ns_id == state_before@.next_ns_id,
        after.manifest.next_rel_kind == before.manifest.next_rel_kind,
        after.manifest.stopwords == before.manifest.stopwords,
        after.manifest@.rel_kinds == before.manifest@.rel_kinds,
        forall|i: int|
            0 <= i < after.manifest@.namespaces.len() ==> {
                let bound = #[trigger] after.manifest@.namespaces[i];
                state_before@.ns_registry.dom().contains(bound.0 as u64)
                    && state_before@.ns_registry[bound.0 as u64] == bound.1
            },
        forall|id: u64| #[trigger]
            state_before@.ns_registry.dom().contains(id) ==> exists|i: int|
                0 <= i < after.manifest@.namespaces.len() && (
                #[trigger] after.manifest@.namespaces[i]).0 == id,
        after.manifest.dimension == before.manifest.dimension,
        after.manifest.metric == before.manifest.metric,
        forall|i: int|
            0 <= i < before.manifest.segments@.len() && !plan.contains(
                (#[trigger] before.manifest.segments@[i]).segment_id,
            ) ==> after.manifest.segments@.contains(before.manifest.segments@[i]),
        forall|i: int|
            0 <= i < after.manifest.segments@.len() - 1 ==> before.manifest.segments@.contains(
                #[trigger] after.manifest.segments@[i],
            ) && !plan.contains(after.manifest.segments@[i].segment_id),
        after.manifest.segments@.len() > 0,
        ({
            let entry = after.manifest.segments@.last();
            &&& entry.segment_id == before.manifest.next_segment_id
            &&& entry.row_count == keep.len()
            &&& entry.created_ms == now_ms
            &&& entry.format_version == encoded.format_version
            &&& entry.entry_slot == encoded.entry_slot
            &&& entry.entry_level == encoded.entry_level
            &&& entry.vsec_crc == crc32_of(encoded.vsec@)
            &&& entry.msec_crc == crc32_of(encoded.msec@)
            &&& encoded.hidx matches Some(bytes) ==> entry.hidx_crc == crc32_of(bytes@)
            &&& encoded.hidx is None ==> entry.hidx_crc == 0
            &&& forall|i: int|
                0 <= i < keep.len() ==> entry.min_seqno <= state_before@.slots[
                #[trigger] keep[i] as int].seqno <= entry.max_seqno
            &&& keep.len() > 0 ==> exists|i: int|
                0 <= i < keep.len() && state_before@.slots[#[trigger] keep[i] as int].seqno
                    == entry.min_seqno
            &&& keep.len() > 0 ==> exists|i: int|
                0 <= i < keep.len() && state_before@.slots[#[trigger] keep[i] as int].seqno
                    == entry.max_seqno
            &&& segment_written(files, seal, entry.segment_id, encoded)
        }),
        exists|job: BuildJob, carried: Vec<DeltaEntry>|
            #![trigger build.ensures((&state_before, &job, &carried), Ok(encoded))]
            build.ensures((&state_before, &job, &carried), Ok(encoded)) && job.slots@ == keep
                && job.full_relations && job.parallelism == parallelism,
        state_after.slots == state_before@.slots,
        state_after.latest == state_before@.latest,
        state_after.hidden == state_before@.hidden,
        state_after.access == state_before@.access,
        state_after.out_edges == state_before@.out_edges,
        state_after.in_edges == state_before@.in_edges,
        state_after.slot_segment[at] == (if keep.contains(at as usize) {
            Some(before.manifest.next_segment_id)
        } else {
            state_before@.slot_segment[at]
        }),
{
    let previous = before.manifest@;
    let next = after.manifest@;
    let id = before.manifest.next_segment_id;
    lemma_group_is_plan(previous.segments, plan, group);
    merge_keeps_other_segments(next, previous, state_before@, id, keep, group@, now_ms, encoded);
    let others = outside_group(previous.segments, group@, previous.segments.len());
    lemma_outside_listed(previous.segments, group@, previous.segments.len());
    assert forall|i: int| 0 <= i < next.segments.len() - 1 implies previous.segments.contains(
        #[trigger] next.segments[i],
    ) && !plan.contains(next.segments[i].segment_id) by {
        assert(next.segments.drop_last()[i] == next.segments[i]);
        assert(others[i] == next.segments[i]);
    }
    merged_versions_move(state_before@.slot_segment, keep, id, at);
    let listed = widened_namespaces(next.namespaces);
    assert forall|i: int| 0 <= i < next.namespaces.len() implies {
        let bound = #[trigger] next.namespaces[i];
        state_before@.ns_registry.dom().contains(bound.0 as u64)
            && state_before@.ns_registry[bound.0 as u64] == bound.1
    } by {
        assert(listed[i] == (next.namespaces[i].0 as u64, next.namespaces[i].1));
    }
    assert forall|id: u64| #[trigger] state_before@.ns_registry.dom().contains(id) implies exists|
        i: int,
    |
        0 <= i < next.namespaces.len() && (#[trigger] next.namespaces[i]).0 == id by {
        let i = choose|i: int| 0 <= i < listed.len() && (#[trigger] listed[i]).0 == id;
        assert(next.namespaces[i].0 == id);
    }
}

proof fn lemma_group_is_plan(
    segments: Seq<SegmentEntry>,
    plan: Seq<u32>,
    group: Vec<SegmentEntry>,
)
    requires
        group_outcome(segments, plan, Ok(group)),
    ensures
        forall|id: u32| #[trigger] in_group(group@, id) <==> plan.contains(id),
{
    assert forall|id: u32| #[trigger] in_group(group@, id) implies plan.contains(id) by {
        let i = choose|i: int| 0 <= i < group@.len() && (#[trigger] group@[i]).segment_id == id;
        assert(plan[i] == id);
    }
    assert forall|id: u32| plan.contains(id) implies #[trigger] in_group(group@, id) by {
        let i = choose|i: int| 0 <= i < plan.len() && plan[i] == id;
        assert(group@[i].segment_id == id);
    }
}

proof fn lemma_outside_listed(segments: Seq<SegmentEntry>, group: Seq<SegmentEntry>, count: nat)
    requires
        count <= segments.len(),
    ensures
        forall|i: int|
            0 <= i < outside_group(segments, group, count).len() ==> segments.contains(
                #[trigger] outside_group(segments, group, count)[i],
            ) && !in_group(group, outside_group(segments, group, count)[i].segment_id),
    decreases count,
{
    if count > 0 {
        let less = (count - 1) as nat;
        lemma_outside_listed(segments, group, less);
        let before = outside_group(segments, group, less);
        let all = outside_group(segments, group, count);
        assert forall|i: int| 0 <= i < all.len() implies segments.contains(#[trigger] all[i])
            && !in_group(group, all[i].segment_id) by {
            if i < before.len() {
                assert(all[i] == before[i]);
            } else {
                assert(all[i] == segments[less as int]);
            }
        }
    }
}

/// After a flush every version belongs to a segment: a version of a job to the segment of that job,
/// and one that belonged to a segment before to the same. The graphs that were in use stay in use,
/// and the graph that a segment was built with comes into use under its number. Unless emptying the
/// log failed, the active log file holds its header alone.
#[verifier::spinoff_prover]
pub proof fn flush_takes_effect<
    H: FsyncHook,
    B: Fn(&WriterState, &BuildJob, &Vec<DeltaEntry>) -> Result<EncodedSegment, MnemeError>,
    L: Fn(SegmentFile, u32, &Vec<u8>) -> Result<Vec<u8>, MnemeError>,
    E: Fn(&Manifest) -> Result<Vec<u8>, MnemeError>,
    I,
    K: Fn(&EncodedSegment) -> Option<BuiltGraph<I>>,
>(
    hook: Option<&H>,
    build: B,
    seal: L,
    encode: E,
    graph_of: K,
    before: Store,
    after: Store,
    state_before: WriterState,
    state_after: StateModel,
    delta: Vec<DeltaEntry>,
    jobs: Seq<BuildJob>,
    now_ms: i64,
    files_before: FileMap,
    files: FileMap,
    settled: PathSet,
    indexes_before: Seq<SegmentIndex<I>>,
    indexes_after: Seq<SegmentIndex<I>>,
    encoded: Seq<EncodedSegment>,
    tuning: Tuning,
    parallelism: usize,
    number: int,
    place: int,
    at: int,
    kept: int,
)
    requires
        is_flushed(
            hook,
            build,
            seal,
            encode,
            graph_of,
            before,
            after,
            state_before,
            state_after,
            delta,
            jobs,
            now_ms,
            files_before,
            files,
            settled,
            indexes_before,
            indexes_after,
            encoded,
        ),
        are_flush_jobs(before, state_before, delta@, tuning, parallelism, jobs),
        jobs_exist(state_before@, jobs),
        state_before@.consistent(),
        state_before@.slots.len() <= usize::MAX,
        0 <= number < jobs.len(),
        0 <= place < jobs[number].slots@.len(),
        0 <= at < state_before@.slots.len(),
    ensures
        state_after.slot_segment[jobs[number].slots@[place] as int] == Some(
            (before.manifest.next_segment_id + number) as u32,
        ),
        state_after.slot_segment[at] is Some,
        state_before@.slot_segment[at] is Some ==> state_after.slot_segment[at]
            == state_before@.slot_segment[at],
        0 <= kept < indexes_before.len() ==> {
            &&& kept < indexes_after.len()
            &&& indexes_after[kept].segment_id == indexes_before[kept].segment_id
            &&& indexes_after[kept].index == indexes_before[kept].index
            &&& indexes_after[kept].slots@ == indexes_before[kept].slots@
            &&& indexes_after[kept].format == indexes_before[kept].format
            &&& indexes_after[kept].recall_est == indexes_before[kept].recall_est
        },
        exists|graph: Option<BuiltGraph<I>>| #[trigger]
            graph_of.ensures((&encoded[number],), graph) && (graph matches Some(built) ==> exists|
                k: int,
            |
                0 <= k < indexes_after.len() && (#[trigger] indexes_after[k]).segment_id == (
                before.manifest.next_segment_id + number) as u32 && indexes_after[k].index
                    == built.index && indexes_after[k].format == built.format
                    && indexes_after[k].recall_est == built.recall_est
                    && indexes_after[k].slots@.len() == jobs[number].slots@.len()
                    && indexes_after[k].slots@[place] == jobs[number].slots@[place] as u32),
        before.wal@.writable && !after.wal@.poisoned ==> {
            &&& files.dom().contains(wal_path(before.wal@.active_index))
            &&& files[wal_path(before.wal@.active_index)] == before.wal@.header
            &&& after.wal@.written == before.wal@.header.len()
            &&& after.wal@.active_index == before.wal@.active_index
        },
{
    let base = before.manifest.next_segment_id;
    let rows = at_least(tuning.flush_chunk_rows as int, 1) as nat;
    flushed_versions_know_their_segment(
        state_before@,
        base,
        jobs,
        rows,
        number,
        place,
        at,
    );
    flush_persists_everything(state_before@, base, jobs, rows);
    let moved = installed(state_before@.slot_segment, base, jobs, jobs.len());
    assert(state_after.slot_segment == moved);
    if state_before@.slot_segment[at] is Some {
        assert(moved[at] == state_before@.slot_segment[at]);
    } else {
        let (j, i) = choose|j: int, i: int|
            #![trigger jobs[j].slots@[i]]
            0 <= j < jobs.len() && 0 <= i < jobs[j].slots@.len() && jobs[j].slots@[i] == at;
        flushed_versions_know_their_segment(state_before@, base, jobs, rows, j, i, at);
    }
    let graphs = choose|graphs: Seq<Option<BuiltGraph<I>>>| #[trigger]
        are_graphs(graph_of, encoded, graphs) && graph_models(indexes_after) == graph_models(
            indexes_before,
        ) + new_graphs(graphs, base, jobs, jobs.len());
    let held = graph_models(indexes_before);
    let fresh = new_graphs(graphs, base, jobs, jobs.len());
    let all = graph_models(indexes_after);
    assert(all.len() == indexes_after.len());
    assert(held.len() == indexes_before.len());
    if 0 <= kept < indexes_before.len() {
        assert(all[kept] == held[kept]);
        assert(all[kept] == indexes_after[kept].model());
        assert(held[kept] == indexes_before[kept].model());
    }
    built_graphs_come_into_use(graphs, base, jobs, jobs.len(), number);
    assert(graph_of.ensures((&encoded[number],), graphs[number]));
    if graphs[number] is Some {
        let built = graphs[number]->0;
        let k = choose|k: int|
            0 <= k < fresh.len() && {
                let graph = #[trigger] fresh[k];
                &&& graph.segment_id == (base + number) as u32
                &&& graph.index == built.index
                &&& graph.format == built.format
                &&& graph.recall_est == built.recall_est
                &&& graph.slots.len() == jobs[number].slots@.len()
                &&& forall|i: int|
                    0 <= i < graph.slots.len() ==> #[trigger] graph.slots[i]
                        == jobs[number].slots@[i] as u32
            };
        let spot = held.len() + k;
        assert(all[spot] == fresh[k]);
        assert(all[spot] == indexes_after[spot].model());
        assert(fresh[k].slots[place] == jobs[number].slots@[place] as u32);
    }
}

} // verus!
