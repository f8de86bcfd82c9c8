//! Rebuilding the state of a library from its segments and its log.

use vstd::prelude::*;

use crate::error::{MnemeError, SegmentFile};
use crate::hidx::{
    are_hidx_jobs, first_graph_fails, graphs_of, load_hidx_indexes, GraphSource, IndexNode,
    QuantCopy, QuantInfo, SegmentIndex,
};
use crate::layout::WAL_DIR;
use crate::manifest::{empty_outcome, empty_state, manifest_registries_are_bound, Manifest};
use crate::open::{reads_log, LogFile, OpenOptions};
use crate::order::is_stable_order;
use crate::recover::{
    load_outcome, load_segments, segment_ranks, segments_wf, RecoveredSegments,
};
use crate::replay::{replay_outcome, replay_wal};
use crate::restored::{
    every_stored_version_is_recovered, recovery_reports_what_it_left_out, rows_of, stands_for,
};
use crate::segment::SegmentImage;
use crate::source::{open_segment_handles, opening_stops, opens_segment, ByteFile, SegmentHandle};
use crate::state::{StateModel, WriterState};
use crate::storage::{
    failures_of, file_set, given_by, others_kept, same_at, FailureSet, FileMap, Storage,
};
use crate::wal_writer::{is_wal_file, lemma_wal_path_below, lists_wal, outside_log_kept, wal_files};

verus! {

/// What the first `count` log files make of a state, one after the other.
pub open spec fn logs_replayed(
    state: StateModel,
    logs: Seq<LogFile>,
    count: nat,
    watermark: u64,
    has_key: bool,
) -> (StateModel, Result<usize, MnemeError>)
    decreases count,
{
    if count == 0 {
        (state, Ok(0))
    } else {
        let before = logs_replayed(state, logs, (count - 1) as nat, watermark, has_key);
        if before.1 is Err {
            before
        } else {
            replay_outcome(before.0, logs[count - 1].image, watermark, has_key)
        }
    }
}

/// Whether these are the log files, as they are read.
pub open spec fn logs_read<W: Fn(Vec<u8>) -> LogFile>(
    files: FileMap,
    read_log: W,
    paths: Seq<String>,
    logs: Seq<LogFile>,
) -> bool {
    logs.len() <= paths.len() && forall|i: int|
        0 <= i < logs.len() ==> reads_log(files, read_log, paths[i]@, #[trigger] logs[i])
}

/// What the replay of the log leaves of its last file: the committed part, where the file may be
/// written to and goes on behind it.
pub open spec fn tail_cut(
    before: FileMap,
    after: FileMap,
    paths: Seq<String>,
    committed: usize,
    read_only: bool,
) -> bool {
    if paths.len() > 0 && !read_only && committed < before[paths.last()@].len() {
        file_set(before, after, paths.last()@, before[paths.last()@].take(committed as int))
    } else {
        after == before
    }
}

/// What the replay of the whole log has done.
pub open spec fn is_replayed<W: Fn(Vec<u8>) -> LogFile>(
    before: FileMap,
    after: FileMap,
    read_log: W,
    start: StateModel,
    end: StateModel,
    watermark: u64,
    has_key: bool,
    read_only: bool,
    paths: Seq<String>,
    logs: Seq<LogFile>,
) -> bool {
    let outcome = logs_replayed(start, logs, logs.len(), watermark, has_key);
    &&& lists_wal(before, paths)
    &&& logs.len() == paths.len()
    &&& logs_read(before, read_log, paths, logs)
    &&& outcome.1 is Ok
    &&& end == outcome.0
    &&& tail_cut(before, after, paths, outcome.1->Ok_0, read_only)
}

/// Whether the replay of the log may fail so.
pub open spec fn replay_fails<W: Fn(Vec<u8>) -> LogFile>(
    files: FileMap,
    read_log: W,
    start: StateModel,
    watermark: u64,
    has_key: bool,
    error: MnemeError,
) -> bool {
    exists|paths: Seq<String>, logs: Seq<LogFile>|
        lists_wal(files, paths) && #[trigger] logs_read(files, read_log, paths, logs)
            && logs_replayed(start, logs, logs.len(), watermark, has_key).1 == Err::<
            usize,
            MnemeError,
        >(error)
}

proof fn lemma_replayed_prefix(
    state: StateModel,
    a: Seq<LogFile>,
    b: Seq<LogFile>,
    count: nat,
    watermark: u64,
    has_key: bool,
)
    requires
        count <= a.len(),
        count <= b.len(),
        forall|k: int| 0 <= k < count ==> a[k] == b[k],
    ensures
        logs_replayed(state, a, count, watermark, has_key) == logs_replayed(
            state,
            b,
            count,
            watermark,
            has_key,
        ),
    decreases count,
{
    if count > 0 {
        lemma_replayed_prefix(state, a, b, (count - 1) as nat, watermark, has_key);
    }
}

/// Replays every log file in order. What lies behind the committed part of the last file, a torn
/// frame or an unclosed batch, would hide whatever is appended behind it; so it is cut off, unless
/// the library is opened for reading only.
pub fn replay_all_wal<S: Storage, W: Fn(Vec<u8>) -> LogFile>(
    storage: &mut S,
    state: &mut WriterState,
    watermark: u64,
    has_key: bool,
    read_only: bool,
    read_log: &W,
) -> (result: Result<(), MnemeError>)
    requires
        old(storage).wf(),
        old(state).wf(),
        forall|raw: Vec<u8>| read_log.requires((raw,)),
    ensures
        final(storage).wf(),
        final(storage).reliable() == old(storage).reliable(),
        final(storage).failures() == old(storage).failures(),
        final(storage).locked() == old(storage).locked(),
        final(state).wf(),
        outside_log_kept(old(storage).files(), final(storage).files()),
        read_only ==> final(storage).files() == old(storage).files(),
        result is Ok ==> exists|paths: Seq<String>, logs: Seq<LogFile>| #[trigger]
            is_replayed(
                old(storage).files(),
                final(storage).files(),
                *read_log,
                old(state)@,
                final(state)@,
                watermark,
                has_key,
                read_only,
                paths,
                logs,
            ),
        result matches Err(error) ==> given_by(failures_of(*old(storage)), error) || (replay_fails(
            old(storage).files(),
            *read_log,
            old(state)@,
            watermark,
            has_key,
            error,
        ) && final(storage).files() == old(storage).files()),
{
    let paths = match wal_files(storage) {
        Ok(paths) => paths,
        Err(error) => {
            return Err(error);
        },
    };
    let ghost files = storage.files();
    let ghost start = state@;
    let ghost mut logs: Seq<LogFile> = Seq::empty();
    let mut committed: usize = 0;
    let mut length: usize = 0;
    let mut i: usize = 0;
    while i < paths.len()
        invariant
            storage.wf(),
            state.wf(),
            forall|raw: Vec<u8>| read_log.requires((raw,)),
            files == storage.files(),
            files == old(storage).files(),
            storage.reliable() == old(storage).reliable(),
            storage.failures() == old(storage).failures(),
            storage.locked() == old(storage).locked(),
            start == old(state)@,
            lists_wal(files, paths@),
            i <= paths@.len(),
            logs.len() == i,
            logs_read(files, *read_log, paths@, logs),
            logs_replayed(start, logs, i as nat, watermark, has_key) == (
                state@,
                Ok::<usize, MnemeError>(committed),
            ),
            i > 0 ==> length == files[paths@[i - 1]@].len(),
        decreases paths@.len() - i,
    {
        let path = &paths[i];
        proof {
            assert(is_wal_file(files, paths@[i as int]@));
            lemma_wal_path_below(files, paths@, i as int);
            crate::open::lemma_log_there(files, paths@[i as int]@);
        }
        let bytes = match storage.read_file(path.as_str()) {
            Ok(bytes) => bytes,
            Err(error) => {
                return Err(error);
            },
        };
        length = bytes.len();
        let ghost raw = bytes;
        let log = read_log(bytes);
        assert(reads_log(files, *read_log, path@, log)) by {
            assert(read_log.ensures((raw,), log));
        }
        let ghost before = logs;
        proof {
            logs = logs.push(log);
            lemma_replayed_prefix(start, before, logs, i as nat, watermark, has_key);
            assert forall|k: int| 0 <= k < logs.len() implies reads_log(
                files,
                *read_log,
                paths@[k]@,
                #[trigger] logs[k],
            ) by {
                if k < before.len() {
                    assert(logs[k] == before[k]);
                }
            }
        }
        match replay_wal(state, &log.image, watermark, has_key) {
            Ok(valid) => {
                committed = valid;
            },
            Err(error) => {
                assert(logs_read(files, *read_log, paths@, logs));
                assert(logs_replayed(start, logs, logs.len(), watermark, has_key).1 == Err::<
                    usize,
                    MnemeError,
                >(error));
                return Err(error);
            },
        }
        i = i + 1;
    }
    if paths.len() > 0 && !read_only && committed < length {
        let last = &paths[paths.len() - 1];
        let ghost at = paths@.len() - 1;
        proof {
            assert(is_wal_file(files, paths@[at]@));
            lemma_wal_path_below(files, paths@, at);
            crate::open::lemma_log_there(files, paths@[at]@);
        }
        let cut = storage.truncate(last.as_str(), committed as u64);
        proof {
            lemma_log_outside(files, storage.files(), paths@[at]@);
        }
        match cut {
            Ok(()) => {},
            Err(error) => {
                return Err(error);
            },
        }
    }
    assert(is_replayed(
        files,
        storage.files(),
        *read_log,
        start,
        state@,
        watermark,
        has_key,
        read_only,
        paths@,
        logs,
    ));
    Ok(())
}

/// Writing a log file leaves everything outside of the log directory alone.
proof fn lemma_log_outside(before: FileMap, after: FileMap, path: Seq<char>)
    requires
        is_wal_file(before, path),
        others_kept(before, after, path),
    ensures
        outside_log_kept(before, after),
{
    let name = choose|name: Seq<char>|
        crate::layout::is_wal_name(name) && #[trigger] crate::storage::dir_holds(
            before,
            WAL_DIR@,
            name,
        ) && path == crate::wal_writer::wal_rel(name);
    let head = WAL_DIR@ + "/"@;
    assert(path.take(head.len() as int) =~= head);
    assert(crate::storage::temporary_of(path).take(head.len() as int) =~= head);
}

/// A segment with what its files decode to.
pub struct DecodedSegment {
    pub image: SegmentImage,
    /// What the vector file says of its coarser copy.
    pub quant: Result<QuantInfo, MnemeError>,
    /// How many rows the vector file has.
    pub row_count: usize,
}

/// The segments as recovery takes them.
pub open spec fn images_of(decoded: Seq<DecodedSegment>) -> Seq<SegmentImage> {
    decoded.map_values(|d: DecodedSegment| d.image)
}

/// Whether these are the graphs of the segments that were recovered.
pub open spec fn graphs_loaded<
    I,
    F: Fn(&WriterState, &ByteFile, &Vec<IndexNode>, Option<QuantCopy>) -> Result<I, MnemeError>,
>(
    load: F,
    state: WriterState,
    sources: Seq<GraphSource>,
    recovered: RecoveredSegments,
    fail_fast: bool,
    indexes: Seq<SegmentIndex<I>>,
) -> bool {
    exists|jobs: Seq<(usize, usize)>, outcomes: Seq<Option<SegmentIndex<I>>>|
        are_hidx_jobs(sources, recovered, jobs) && #[trigger] graphs_of(
            load,
            state,
            sources,
            recovered.remaps@,
            jobs,
            0,
            jobs.len() as int,
            fail_fast,
            outcomes,
            indexes,
        )
}

/// Whether these are the graphs of a library: those of its segments, where a way to load graphs is
/// at hand, and none otherwise.
pub open spec fn are_graphs<
    I,
    F: Fn(&WriterState, &ByteFile, &Vec<IndexNode>, Option<QuantCopy>) -> Result<I, MnemeError>,
>(
    load: Option<F>,
    state: WriterState,
    sources: Seq<GraphSource>,
    recovered: RecoveredSegments,
    fail_fast: bool,
    indexes: Seq<SegmentIndex<I>>,
) -> bool {
    match load {
        None => indexes.len() == 0,
        Some(load) => graphs_loaded(load, state, sources, recovered, fail_fast, indexes),
    }
}

/// The graph sources of segments.
pub open spec fn sources_of(
    handles: Seq<SegmentHandle>,
    decoded: Seq<DecodedSegment>,
    sources: Seq<GraphSource>,
) -> bool {
    &&& sources.len() == handles.len()
    &&& decoded.len() == handles.len()
    &&& forall|i: int|
        0 <= i < sources.len() ==> (#[trigger] sources[i]).segment_id == handles[i].segment_id
            && sources[i].hidx == handles[i].hidx && sources[i].quant == decoded[i].quant
            && sources[i].row_count == decoded[i].row_count && sources[i].vsec_len
            == handles[i].vsec.bytes().len()
}

/// Whether the segments of a manifest were opened and decoded so.
pub open spec fn segments_decoded<
    U: Fn(SegmentFile, u32, Vec<u8>) -> Result<Vec<u8>, MnemeError>,
    C: Fn(&SegmentHandle) -> DecodedSegment,
>(
    files: FileMap,
    manifest: Manifest,
    fail_fast: bool,
    magic: Seq<u8>,
    unseal: U,
    decode: C,
    failures: FailureSet,
    handles: Seq<SegmentHandle>,
    decoded: Seq<DecodedSegment>,
) -> bool {
    &&& handles.len() == manifest.segments@.len()
    &&& decoded.len() == handles.len()
    &&& forall|i: int|
        0 <= i < handles.len() ==> opens_segment(
            files,
            manifest.segments@[i],
            fail_fast,
            magic,
            unseal,
            failures,
            Ok(#[trigger] handles[i]),
        )
    &&& forall|i: int|
        0 <= i < decoded.len() ==> decode.ensures((&handles[i],), #[trigger] decoded[i])
}

/// Whether loading the segments may come to this.
pub open spec fn segments_loaded(
    start: StateModel,
    images: Seq<SegmentImage>,
    options: OpenOptions,
    end: StateModel,
    result: Result<RecoveredSegments, MnemeError>,
) -> bool {
    exists|segment_order: Seq<usize>, version_order: Seq<usize>|
        is_stable_order(segment_ranks(images), segment_order) && #[trigger] load_outcome(
            start,
            images,
            options.verify_on_open,
            options.fail_fast_on_corruption,
            options.block_rows as nat,
            segment_order,
            version_order,
            end,
            result,
        )
}

/// What a loaded state has to do with the manifest and the files: the registries and counters of the
/// manifest, then the segments, then the log.
pub open spec fn is_loaded<
    I,
    U: Fn(SegmentFile, u32, Vec<u8>) -> Result<Vec<u8>, MnemeError>,
    C: Fn(&SegmentHandle) -> DecodedSegment,
    F: Fn(&WriterState, &ByteFile, &Vec<IndexNode>, Option<QuantCopy>) -> Result<I, MnemeError>,
    W: Fn(Vec<u8>) -> LogFile,
>(
    before: FileMap,
    after: FileMap,
    manifest: Manifest,
    options: OpenOptions,
    magic: Seq<u8>,
    unseal: U,
    decode: C,
    load: Option<F>,
    read_log: W,
    failures: FailureSet,
    state: StateModel,
    indexes: Seq<SegmentIndex<I>>,
    handles: Seq<SegmentHandle>,
    decoded: Seq<DecodedSegment>,
    sources: Seq<GraphSource>,
    start: StateModel,
    recovered: RecoveredSegments,
    middle: WriterState,
) -> bool {
    &&& empty_outcome(manifest@) == Ok::<StateModel, MnemeError>(start)
    &&& segments_decoded(
        before,
        manifest,
        options.fail_fast_on_corruption,
        magic,
        unseal,
        decode,
        failures,
        handles,
        decoded,
    )
    &&& segments_loaded(start, images_of(decoded), options, middle@, Ok(recovered))
    &&& sources_of(handles, decoded, sources)
    &&& are_graphs(
        load,
        middle,
        sources,
        recovered,
        options.fail_fast_on_corruption,
        indexes,
    )
    &&& exists|paths: Seq<String>, logs: Seq<LogFile>| #[trigger]
        is_replayed(
            before,
            after,
            read_log,
            middle@,
            state,
            manifest.watermark_seqno,
            options.has_key,
            options.read_only,
            paths,
            logs,
        )
}

/// Whether the first segment of the manifest that cannot be opened may fail so.
pub open spec fn open_refused<U: Fn(SegmentFile, u32, Vec<u8>) -> Result<Vec<u8>, MnemeError>>(
    files: FileMap,
    manifest: Manifest,
    fail_fast: bool,
    magic: Seq<u8>,
    unseal: U,
    failures: FailureSet,
    error: MnemeError,
) -> bool {
    exists|handles: Seq<SegmentHandle>| #[trigger]
        opening_stops(
            files,
            manifest.segments@,
            fail_fast,
            magic,
            unseal,
            failures,
            handles,
            error,
        )
}

/// Whether this is the error of the first graph that fails to load.
pub open spec fn graph_refused<
    I,
    F: Fn(&WriterState, &ByteFile, &Vec<IndexNode>, Option<QuantCopy>) -> Result<I, MnemeError>,
>(
    load: F,
    state: WriterState,
    sources: Seq<GraphSource>,
    recovered: RecoveredSegments,
    fail_fast: bool,
    error: MnemeError,
) -> bool {
    exists|jobs: Seq<(usize, usize)>, outcomes: Seq<Option<SegmentIndex<I>>>|
        are_hidx_jobs(sources, recovered, jobs) && #[trigger] first_graph_fails(
            load,
            state,
            sources,
            recovered.remaps@,
            jobs,
            0,
            jobs.len() as int,
            fail_fast,
            outcomes,
            error,
        )
}

/// Whether the graphs, or else the log, may fail so, once the segments are loaded.
pub open spec fn refused_late<
    I,
    F: Fn(&WriterState, &ByteFile, &Vec<IndexNode>, Option<QuantCopy>) -> Result<I, MnemeError>,
    W: Fn(Vec<u8>) -> LogFile,
>(
    files: FileMap,
    manifest: Manifest,
    options: OpenOptions,
    load: Option<F>,
    read_log: W,
    handles: Seq<SegmentHandle>,
    decoded: Seq<DecodedSegment>,
    recovered: RecoveredSegments,
    middle: WriterState,
    error: MnemeError,
) -> bool {
    ||| replay_fails(
        files,
        read_log,
        middle@,
        manifest.watermark_seqno,
        options.has_key,
        error,
    ) && exists|sources: Seq<GraphSource>, indexes: Seq<SegmentIndex<I>>|
        #![trigger sources_of(handles, decoded, sources), are_graphs(
            load,
            middle,
            sources,
            recovered,
            options.fail_fast_on_corruption,
            indexes,
        )]
        sources_of(handles, decoded, sources) && are_graphs(
            load,
            middle,
            sources,
            recovered,
            options.fail_fast_on_corruption,
            indexes,
        )
    ||| load matches Some(f) && exists|sources: Seq<GraphSource>| #[trigger]
        sources_of(handles, decoded, sources) && graph_refused::<I, F>(
            f,
            middle,
            sources,
            recovered,
            options.fail_fast_on_corruption,
            error,
        )
}

/// What keeps the state of a library from being rebuilt.
pub open spec fn load_refused<
    I,
    U: Fn(SegmentFile, u32, Vec<u8>) -> Result<Vec<u8>, MnemeError>,
    C: Fn(&SegmentHandle) -> DecodedSegment,
    F: Fn(&WriterState, &ByteFile, &Vec<IndexNode>, Option<QuantCopy>) -> Result<I, MnemeError>,
    W: Fn(Vec<u8>) -> LogFile,
>(
    files: FileMap,
    manifest: Manifest,
    options: OpenOptions,
    magic: Seq<u8>,
    unseal: U,
    decode: C,
    load: Option<F>,
    read_log: W,
    failures: FailureSet,
    error: MnemeError,
) -> bool {
    let fail_fast = options.fail_fast_on_corruption;
    match empty_outcome(manifest@) {
        Err(early) => error == early,
        Ok(start) => {
            ||| given_by(failures, error)
            ||| open_refused(files, manifest, fail_fast, magic, unseal, failures, error)
            ||| exists|
                handles: Seq<SegmentHandle>,
                decoded: Seq<DecodedSegment>,
                end: StateModel,
            |
                #![trigger segments_decoded(
                    files,
                    manifest,
                    fail_fast,
                    magic,
                    unseal,
                    decode,
                    failures,
                    handles,
                    decoded,
                ), segments_loaded(start, images_of(decoded), options, end, Err(error))]
                segments_decoded(
                    files,
                    manifest,
                    fail_fast,
                    magic,
                    unseal,
                    decode,
                    failures,
                    handles,
                    decoded,
                ) && segments_loaded(start, images_of(decoded), options, end, Err(error))
            ||| exists|
                handles: Seq<SegmentHandle>,
                decoded: Seq<DecodedSegment>,
                recovered: RecoveredSegments,
                middle: WriterState,
            |
                segments_decoded(
                    files,
                    manifest,
                    fail_fast,
                    magic,
                    unseal,
                    decode,
                    failures,
                    handles,
                    decoded,
                ) && segments_loaded(start, images_of(decoded), options, middle@, Ok(recovered))
                    && #[trigger] refused_late::<I, F, W>(
                    files,
                    manifest,
                    options,
                    load,
                    read_log,
                    handles,
                    decoded,
                    recovered,
                    middle,
                    error,
                )
        },
    }
}

/// Decodes the segments that are open.
fn decode_segments<C: Fn(&SegmentHandle) -> DecodedSegment>(
    handles: &Vec<SegmentHandle>,
    decode: &C,
) -> (decoded: Vec<DecodedSegment>)
    requires
        forall|handle: SegmentHandle| decode.requires((&handle,)),
        forall|handle: SegmentHandle, d: DecodedSegment|
            decode.ensures((&handle,), d) ==> d.image.wf(),
    ensures
        decoded@.len() == handles@.len(),
        forall|i: int|
            0 <= i < decoded@.len() ==> decode.ensures((&handles@[i],), #[trigger] decoded@[i]),
        forall|i: int| 0 <= i < decoded@.len() ==> (#[trigger] decoded@[i]).image.wf(),
{
    let mut decoded: Vec<DecodedSegment> = Vec::new();
    let mut i: usize = 0;
    while i < handles.len()
        invariant
            forall|handle: SegmentHandle| decode.requires((&handle,)),
            forall|handle: SegmentHandle, d: DecodedSegment|
                decode.ensures((&handle,), d) ==> d.image.wf(),
            i <= handles@.len(),
            decoded@.len() == i,
            forall|k: int|
                0 <= k < i ==> decode.ensures((&handles@[k],), #[trigger] decoded@[k]),
            forall|k: int| 0 <= k < i ==> (#[trigger] decoded@[k]).image.wf(),
        decreases handles@.len() - i,
    {
        let segment = decode(&handles[i]);
        assert(decode.ensures((&handles@[i as int],), segment));
        decoded.push(segment);
        i = i + 1;
    }
    decoded
}

/// Takes segments apart: what recovery needs, and what the loading of the graphs needs.
fn split_segments(handles: Vec<SegmentHandle>, decoded: Vec<DecodedSegment>) -> (parts: (
    Vec<SegmentImage>,
    Vec<GraphSource>,
))
    requires
        handles@.len() == decoded@.len(),
        forall|i: int| 0 <= i < decoded@.len() ==> (#[trigger] decoded@[i]).image.wf(),
    ensures
        parts.0@ == images_of(decoded@),
        sources_of(handles@, decoded@, parts.1@),
        segments_wf(parts.0@),
{
    let ghost all_handles = handles@;
    let ghost all_decoded = decoded@;
    let mut rest_handles = handles;
    let mut rest_decoded = decoded;
    let mut images: Vec<SegmentImage> = Vec::new();
    let mut sources: Vec<GraphSource> = Vec::new();
    let ghost mut done: int = 0;
    assert(all_handles.skip(0) =~= all_handles);
    assert(all_decoded.skip(0) =~= all_decoded);
    while rest_handles.len() > 0
        invariant
            0 <= done <= all_handles.len(),
            all_handles.len() == all_decoded.len(),
            rest_handles@ == all_handles.skip(done),
            rest_decoded@ == all_decoded.skip(done),
            images@.len() == done,
            sources@.len() == done,
            forall|k: int| 0 <= k < done ==> (#[trigger] images@[k]) == all_decoded[k].image,
            forall|k: int|
                0 <= k < done ==> (#[trigger] sources@[k]).segment_id == all_handles[k].segment_id
                    && sources@[k].hidx == all_handles[k].hidx && sources@[k].quant
                    == all_decoded[k].quant && sources@[k].row_count == all_decoded[k].row_count
                    && sources@[k].vsec_len == all_handles[k].vsec.bytes().len(),
        decreases rest_handles@.len(),
    {
        let handle = rest_handles.remove(0);
        let segment = rest_decoded.remove(0);
        proof {
            assert(all_handles.skip(done)[0] == all_handles[done]);
            assert(all_decoded.skip(done)[0] == all_decoded[done]);
            assert(rest_handles@ =~= all_handles.skip(done + 1));
            assert(rest_decoded@ =~= all_decoded.skip(done + 1));
        }
        let vsec_len: usize = handle.vsec.len();
        sources.push(
            GraphSource {
                segment_id: handle.segment_id,
                hidx: handle.hidx,
                quant: segment.quant,
                row_count: segment.row_count,
                vsec_len,
            },
        );
        images.push(segment.image);
        proof {
            done = done + 1;
        }
    }
    proof {
        assert(images@ =~= images_of(all_decoded));
        assert forall|i: int| 0 <= i < images@.len() implies (#[trigger] images@[i]).wf() by {
            assert(all_decoded[i].image.wf());
        }
    }
    (images, sources)
}

/// Loads the graphs of a library, where a way to load graphs is at hand.
fn load_graphs<
    I,
    F: Fn(&WriterState, &ByteFile, &Vec<IndexNode>, Option<QuantCopy>) -> Result<I, MnemeError>,
>(
    load: Option<&F>,
    state: &WriterState,
    sources: &Vec<GraphSource>,
    recovered: &RecoveredSegments,
    fail_fast: bool,
) -> (result: Result<Vec<SegmentIndex<I>>, MnemeError>)
    requires
        state.wf(),
        load matches Some(f) ==> forall|
            hidx: ByteFile,
            nodes: Vec<IndexNode>,
            quant: Option<QuantCopy>,
        | f.requires((state, &hidx, &nodes, quant)),
    ensures
        result matches Ok(indexes) ==> are_graphs(
            opt_deref(load),
            *state,
            sources@,
            *recovered,
            fail_fast,
            indexes@,
        ),
        load is None ==> result is Ok,
        load matches Some(f) ==> (result matches Err(error) ==> graph_refused::<I, F>(
            *f,
            *state,
            sources@,
            *recovered,
            fail_fast,
            error,
        )),
{
    match load {
        None => {
            let none: Vec<SegmentIndex<I>> = Vec::new();
            let result: Result<Vec<SegmentIndex<I>>, MnemeError> = Ok(none);
            assert(result matches Ok(indexes) && are_graphs(
                opt_deref(load),
                *state,
                sources@,
                *recovered,
                fail_fast,
                indexes@,
            ));
            result
        },
        Some(f) => {
            let result = load_hidx_indexes(f, state, sources, recovered, fail_fast);
            proof {
                match &result {
                    Ok(indexes) => {
                        let jobs = choose|jobs: Seq<(usize, usize)>| #[trigger]
                            are_hidx_jobs(sources@, *recovered, jobs) && exists|
                                outcomes: Seq<Option<SegmentIndex<I>>>,
                            | #[trigger]
                                graphs_of(
                                    *f,
                                    *state,
                                    sources@,
                                    recovered.remaps@,
                                    jobs,
                                    0,
                                    jobs.len() as int,
                                    fail_fast,
                                    outcomes,
                                    indexes@,
                                );
                        let outcomes = choose|outcomes: Seq<Option<SegmentIndex<I>>>| #[trigger]
                            graphs_of(
                                *f,
                                *state,
                                sources@,
                                recovered.remaps@,
                                jobs,
                                0,
                                jobs.len() as int,
                                fail_fast,
                                outcomes,
                                indexes@,
                            );
                        assert(graphs_of(
                            *f,
                            *state,
                            sources@,
                            recovered.remaps@,
                            jobs,
                            0,
                            jobs.len() as int,
                            fail_fast,
                            outcomes,
                            indexes@,
                        ));
                        assert(graphs_loaded(
                            *f,
                            *state,
                            sources@,
                            *recovered,
                            fail_fast,
                            indexes@,
                        ));
                    },
                    Err(error) => {
                        let jobs = choose|jobs: Seq<(usize, usize)>| #[trigger]
                            are_hidx_jobs(sources@, *recovered, jobs) && exists|
                                outcomes: Seq<Option<SegmentIndex<I>>>,
                            | #[trigger]
                                first_graph_fails(
                                    *f,
                                    *state,
                                    sources@,
                                    recovered.remaps@,
                                    jobs,
                                    0,
                                    jobs.len() as int,
                                    fail_fast,
                                    outcomes,
                                    *error,
                                );
                        assert(graph_refused::<I, F>(
                            *f,
                            *state,
                            sources@,
                            *recovered,
                            fail_fast,
                            *error,
                        ));
                    },
                }
            }
            result
        },
    }
}

/// Rebuilds the state of a library: from the registries and counters of its manifest, its segments
/// and its log. Damaged segments stay where they are: the manifest still refers to them.
#[verifier::spinoff_prover]
pub fn load_write_state<
    S: Storage,
    I,
    U: Fn(SegmentFile, u32, Vec<u8>) -> Result<Vec<u8>, MnemeError>,
    C: Fn(&SegmentHandle) -> DecodedSegment,
    F: Fn(&WriterState, &ByteFile, &Vec<IndexNode>, Option<QuantCopy>) -> Result<I, MnemeError>,
    W: Fn(Vec<u8>) -> LogFile,
>(
    storage: &mut S,
    manifest: &Manifest,
    options: &OpenOptions,
    magic: &[u8],
    unseal: &U,
    decode: &C,
    load: Option<&F>,
    read_log: &W,
) -> (result: Result<(WriterState, Vec<SegmentIndex<I>>), MnemeError>)
    requires
        old(storage).wf(),
        options.block_rows > 0,
        forall|file: SegmentFile, id: u32, raw: Vec<u8>| unseal.requires((file, id, raw)),
        forall|handle: SegmentHandle| decode.requires((&handle,)),
        forall|handle: SegmentHandle, d: DecodedSegment|
            decode.ensures((&handle,), d) ==> d.image.wf(),
        load matches Some(f) ==> forall|
            state: WriterState,
            hidx: ByteFile,
            nodes: Vec<IndexNode>,
            quant: Option<QuantCopy>,
        | f.requires((&state, &hidx, &nodes, quant)),
        forall|raw: Vec<u8>| read_log.requires((raw,)),
    ensures
        final(storage).wf(),
        final(storage).reliable() == old(storage).reliable(),
        final(storage).failures() == old(storage).failures(),
        final(storage).locked() == old(storage).locked(),
        outside_log_kept(old(storage).files(), final(storage).files()),
        options.read_only ==> final(storage).files() == old(storage).files(),
        result matches Ok((state, indexes)) ==> state.wf() && exists|
            handles: Seq<SegmentHandle>,
            decoded: Seq<DecodedSegment>,
            sources: Seq<GraphSource>,
            start: StateModel,
            recovered: RecoveredSegments,
            middle: WriterState,
        | #[trigger]
            is_loaded(
                old(storage).files(),
                final(storage).files(),
                *manifest,
                *options,
                magic@,
                *unseal,
                *decode,
                opt_deref(load),
                *read_log,
                failures_of(*old(storage)),
                state@,
                indexes@,
                handles,
                decoded,
                sources,
                start,
                recovered,
                middle,
            ),
        empty_outcome(manifest@) matches Err(error) ==> result == Err::<
            (WriterState, Vec<SegmentIndex<I>>),
            MnemeError,
        >(error),
        result matches Err(error) ==> load_refused::<I, U, C, F, W>(
            old(storage).files(),
            *manifest,
            *options,
            magic@,
            *unseal,
            *decode,
            opt_deref(load),
            *read_log,
            failures_of(*old(storage)),
            error,
        ),
{
    let ghost files = storage.files();
    let ghost failures = failures_of(*storage);
    let mut state = match empty_state(manifest) {
        Ok(state) => state,
        Err(error) => {
            return Err(error);
        },
    };
    let ghost start = state@;
    let handles = match open_segment_handles(
        storage,
        manifest,
        options.fail_fast_on_corruption,
        magic,
        unseal,
    ) {
        Ok(handles) => handles,
        Err(error) => {
            return Err(error);
        },
    };
    let decoded = decode_segments(&handles, decode);
    let ghost all_handles = handles@;
    let ghost all_decoded = decoded@;
    let (images, sources) = split_segments(handles, decoded);
    let recovered = match load_segments(
        &mut state,
        &images,
        options.verify_on_open,
        options.fail_fast_on_corruption,
        options.block_rows,
    ) {
        Ok(recovered) => recovered,
        Err(error) => {
            proof {
                assert(segments_decoded(
                    files,
                    *manifest,
                    options.fail_fast_on_corruption,
                    magic@,
                    *unseal,
                    *decode,
                    failures,
                    all_handles,
                    all_decoded,
                ));
                assert(segments_loaded(
                    start,
                    images_of(all_decoded),
                    *options,
                    state@,
                    Err(error),
                ));
            }
            return Err(error);
        },
    };
    proof {
        assert(segments_decoded(
            files,
            *manifest,
            options.fail_fast_on_corruption,
            magic@,
            *unseal,
            *decode,
            failures,
            all_handles,
            all_decoded,
        ));
    }
    let ghost middle = state;
    assert(segments_loaded(start, images_of(all_decoded), *options, middle@, Ok(recovered)));
    let indexes = match load_graphs(
        load,
        &state,
        &sources,
        &recovered,
        options.fail_fast_on_corruption,
    ) {
        Ok(indexes) => indexes,
        Err(error) => {
            proof {
                assert(sources_of(all_handles, all_decoded, sources@));
                assert(refused_late::<I, F, W>(
                    files,
                    *manifest,
                    *options,
                    opt_deref(load),
                    *read_log,
                    all_handles,
                    all_decoded,
                    recovered,
                    middle,
                    error,
                ));
            }
            return Err(error);
        },
    };
    match replay_all_wal(
        storage,
        &mut state,
        manifest.watermark_seqno,
        options.has_key,
        options.read_only,
        read_log,
    ) {
        Ok(()) => {},
        Err(error) => {
            proof {
                if !given_by(failures, error) {
                    assert(sources_of(all_handles, all_decoded, sources@));
                    assert(are_graphs(
                        opt_deref(load),
                        middle,
                        sources@,
                        recovered,
                        options.fail_fast_on_corruption,
                        indexes@,
                    ));
                    assert(refused_late::<I, F, W>(
                        files,
                        *manifest,
                        *options,
                        opt_deref(load),
                        *read_log,
                        all_handles,
                        all_decoded,
                        recovered,
                        middle,
                        error,
                    ));
                }
            }
            return Err(error);
        },
    }
    let ghost end = state@;
    let result: Result<(WriterState, Vec<SegmentIndex<I>>), MnemeError> = Ok((state, indexes));
    assert(result matches Ok((state, indexes)) && state@ == end && is_loaded(
        files,
        storage.files(),
        *manifest,
        *options,
        magic@,
        *unseal,
        *decode,
        opt_deref(load),
        *read_log,
        failures_of(*old(storage)),
        state@,
        indexes@,
        all_handles,
        all_decoded,
        sources@,
        start,
        recovered,
        middle,
    ));
    result
}

/// What a reference refers to, where there is one.
pub open spec fn opt_deref<T>(value: Option<&T>) -> Option<T> {
    match value {
        Some(inner) => Some(*inner),
        None => None,
    }
}

/// Whether these are the states between the log files: the first is the state before them, the last
/// the one after them, and each file leads from one to the next.
pub open spec fn are_states_between(
    state: StateModel,
    logs: Seq<LogFile>,
    watermark: u64,
    has_key: bool,
    states: Seq<StateModel>,
    committed: usize,
) -> bool {
    &&& states.len() == logs.len() + 1
    &&& states[0] == state
    &&& forall|k: int| 0 <= k < logs.len() ==> #[trigger] leads_over(
        logs[k],
        watermark,
        has_key,
        states[k],
        states[k + 1],
    )
    &&& logs.len() > 0 ==> replay_outcome(
        states[logs.len() - 1],
        logs.last().image,
        watermark,
        has_key,
    ).1 == Ok::<usize, MnemeError>(committed)
}

/// Whether a log file leads from one state to another.
pub open spec fn leads_over(
    log: LogFile,
    watermark: u64,
    has_key: bool,
    before: StateModel,
    after: StateModel,
) -> bool {
    let outcome = replay_outcome(before, log.image, watermark, has_key);
    outcome.0 == after && outcome.1 is Ok
}

/// Every log file is replayed, each on what those before it came to; the length up to which the log
/// is committed is that of the last.
pub proof fn every_log_is_replayed(
    state: StateModel,
    logs: Seq<LogFile>,
    watermark: u64,
    has_key: bool,
) -> (states: Seq<StateModel>)
    requires
        logs_replayed(state, logs, logs.len(), watermark, has_key).1 is Ok,
    ensures
        are_states_between(
            state,
            logs,
            watermark,
            has_key,
            states,
            logs_replayed(state, logs, logs.len(), watermark, has_key).1->Ok_0,
        ),
        states.last() == logs_replayed(state, logs, logs.len(), watermark, has_key).0,
    decreases logs.len(),
{
    if logs.len() == 0 {
        seq![state]
    } else {
        let less = (logs.len() - 1) as nat;
        let rest = logs.drop_last();
        lemma_logs_alike(state, logs, rest, less, watermark, has_key);
        let states = every_log_is_replayed(state, rest, watermark, has_key);
        let end = logs_replayed(state, logs, logs.len(), watermark, has_key);
        let all = states.push(end.0);
        assert forall|k: int| 0 <= k < logs.len() implies #[trigger] leads_over(
            logs[k],
            watermark,
            has_key,
            all[k],
            all[k + 1],
        ) by {
            if k < less {
                assert(leads_over(rest[k], watermark, has_key, states[k], states[k + 1]));
                assert(all[k] == states[k]);
                assert(all[k + 1] == states[k + 1]);
            } else {
                assert(all[k] == states.last());
            }
        }
        assert(all[less as int] == states.last());
        all
    }
}

proof fn lemma_logs_alike(
    state: StateModel,
    a: Seq<LogFile>,
    b: Seq<LogFile>,
    count: nat,
    watermark: u64,
    has_key: bool,
)
    requires
        count <= a.len(),
        count <= b.len(),
        forall|k: int| 0 <= k < count ==> #[trigger] a[k] == b[k],
    ensures
        logs_replayed(state, a, count, watermark, has_key) == logs_replayed(
            state,
            b,
            count,
            watermark,
            has_key,
        ),
    decreases count,
{
    if count > 0 {
        lemma_logs_alike(state, a, b, (count - 1) as nat, watermark, has_key);
        assert(a[count - 1] == b[count - 1]);
    }
}

/// Opening for writing cuts what was not committed off the last log file and leaves what was; a
/// reader cuts nothing. Every other file stays.
pub proof fn only_the_torn_tail_is_cut(
    before: FileMap,
    after: FileMap,
    paths: Seq<String>,
    committed: usize,
    read_only: bool,
    path: Seq<char>,
)
    requires
        tail_cut(before, after, paths, committed, read_only),
        paths.len() > 0 ==> before.dom().contains(paths.last()@),
    ensures
        read_only ==> after == before,
        paths.len() == 0 ==> after == before,
        paths.len() > 0 ==> after.dom().contains(paths.last()@) && after[paths.last()@].len()
            <= before[paths.last()@].len(),
        paths.len() > 0 && !read_only ==> after[paths.last()@].len() == (if committed
            < before[paths.last()@].len() {
            committed as nat
        } else {
            before[paths.last()@].len()
        }),
        paths.len() > 0 ==> forall|i: int|
            0 <= i < after[paths.last()@].len() ==> #[trigger] after[paths.last()@][i]
                == before[paths.last()@][i],
        paths.len() > 0 && path != paths.last()@ && path != paths.last()@ + ".tmp"@ ==> (
        after.dom().contains(path) <==> before.dom().contains(path)) && (before.dom().contains(path)
            ==> after[path] == before[path]),
{
    if paths.len() > 0 && path != paths.last()@ && path != paths.last()@ + ".tmp"@ {
        assert(same_at(before, after, path));
    }
}

/// Opening a library brings its segments back: every segment of the manifest was opened, and each
/// of its version rows that recovery did not have to leave out stands for a version, which belongs
/// to that segment, before the log is replayed on top.
pub proof fn loaded_library_holds_its_segments<
    I,
    U: Fn(SegmentFile, u32, Vec<u8>) -> Result<Vec<u8>, MnemeError>,
    C: Fn(&SegmentHandle) -> DecodedSegment,
    F: Fn(&WriterState, &ByteFile, &Vec<IndexNode>, Option<QuantCopy>) -> Result<I, MnemeError>,
    W: Fn(Vec<u8>) -> LogFile,
>(
    before: FileMap,
    after: FileMap,
    manifest: Manifest,
    options: OpenOptions,
    magic: Seq<u8>,
    unseal: U,
    decode: C,
    load: Option<F>,
    read_log: W,
    failures: FailureSet,
    state: StateModel,
    indexes: Seq<SegmentIndex<I>>,
    handles: Seq<SegmentHandle>,
    decoded: Seq<DecodedSegment>,
    sources: Seq<GraphSource>,
    start: StateModel,
    recovered: RecoveredSegments,
    middle: WriterState,
    at: int,
    place: int,
)
    requires
        is_loaded(
            before,
            after,
            manifest,
            options,
            magic,
            unseal,
            decode,
            load,
            read_log,
            failures,
            state,
            indexes,
            handles,
            decoded,
            sources,
            start,
            recovered,
            middle,
        ),
        manifest.segments@.len() <= usize::MAX,
        0 <= at < manifest.segments@.len(),
    ensures
        handles.len() == manifest.segments@.len(),
        decoded.len() == manifest.segments@.len(),
        opens_segment(
            before,
            manifest.segments@[at],
            options.fail_fast_on_corruption,
            magic,
            unseal,
            failures,
            Ok(handles[at]),
        ),
        decode.ensures((&handles[at],), decoded[at]),
        middle@.unavailable == recovered.skipped@,
        options.fail_fast_on_corruption ==> recovered.skipped@.len() == 0,
        !recovered.skipped@.contains(decoded[at].image.segment_id) ==> decoded[at].image.vsec is Ok
            && decoded[at].image.msec is Ok && (0 <= place < rows_of(decoded[at].image).len()
            ==> exists|p: int|
            0 <= p < middle@.slots.len() && #[trigger] stands_for(
                middle@.slots[p],
                decoded[at].image.segment_id,
                decoded[at].image.vsec->Ok_0,
                decoded[at].image.msec->Ok_0,
                rows_of(decoded[at].image)[place],
            ) && middle@.slot_segment[p] == Some(decoded[at].image.segment_id)),
{
    let images = images_of(decoded);
    manifest_registries_are_bound(manifest@, 0, 0);
    let (segment_order, version_order) = choose|
        segment_order: Seq<usize>,
        version_order: Seq<usize>,
    |
        is_stable_order(segment_ranks(images), segment_order) && #[trigger] load_outcome(
            start,
            images,
            options.verify_on_open,
            options.fail_fast_on_corruption,
            options.block_rows as nat,
            segment_order,
            version_order,
            middle@,
            Ok(recovered),
        );
    recovery_reports_what_it_left_out(
        start,
        images,
        options.verify_on_open,
        options.fail_fast_on_corruption,
        options.block_rows as nat,
        segment_order,
        version_order,
        middle@,
        recovered,
        0,
    );
    assert(images[at] == decoded[at].image);
    if !recovered.skipped@.contains(images[at].segment_id) {
        every_stored_version_is_recovered(
            start,
            images,
            options.verify_on_open,
            options.fail_fast_on_corruption,
            options.block_rows as nat,
            segment_order,
            version_order,
            middle@,
            recovered,
            at,
            place,
        );
    }
    assert(handles[at] == handles[at]);
}

/// The graph of a segment is loaded from the files of that segment: what is handed on of it are its
/// number, its graph file, what its own metadata states of the coarser copy and of its rows, and
/// the length of its own vector file.
pub proof fn graphs_come_from_their_segments(
    handles: Seq<SegmentHandle>,
    decoded: Seq<DecodedSegment>,
    sources: Seq<GraphSource>,
    at: int,
)
    requires
        sources_of(handles, decoded, sources),
        0 <= at < handles.len(),
    ensures
        sources.len() == handles.len(),
        sources[at].segment_id == handles[at].segment_id,
        sources[at].hidx == handles[at].hidx,
        sources[at].quant == decoded[at].quant,
        sources[at].row_count == decoded[at].row_count,
        sources[at].vsec_len == handles[at].vsec.bytes().len(),
{
}

} // verus!
