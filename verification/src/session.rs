//! Opening a library, following it, and closing it.

use vstd::prelude::*;

use crate::cleanup::{
    all_picked_gone, cleanup_orphans, is_orphan, only_picked_gone, picks, referenced_files_stay,
    remove_unreferenced_segments, HalfWritten, NameTest, SegmentNames, Unreferenced,
};
use crate::current::version_named;
use crate::error::{corrupted, ConfigFault, Fault, Metric, MnemeError, SegmentFile};
use crate::hidx::{IndexNode, QuantCopy, SegmentIndex, GraphSource};
use crate::hook::{refuses_write, write_passes, FsyncHook};
use crate::layout::{
    library_paths_stay_below, segment_path, wal_number_fixes_name, wal_path, SEGMENTS_DIR,
    TRASH_DIR, WAL_DIR,
};
use crate::load::{is_loaded, load_refused, load_write_state, opt_deref, DecodedSegment};
use crate::manifest::Manifest;
use crate::manifest_io::{
    all_unusable, current_of, is_latest, load_manifest, load_reports, read_current,
    unreadable_fault, Decoded,
};
use crate::open::{
    is_opened, is_refused, lemma_log_there, load_or_init_manifest, may_state, reads_log, LogFile,
    OpenOptions,
};
use crate::recover::RecoveredSegments;
use crate::source::{ByteFile, SegmentHandle};
use crate::state::{StateModel, WriterState};
use crate::storage::{
    dir_holds, dir_prefix, failures_of, file_set, given_by, same_at, FailureSet, FileMap, Step,
    Storage,
};
use crate::store::Store;
use crate::text::{has_prefix, has_suffix};
use crate::trash::{purge, EveryName};
use crate::wal::WalHeader;
use crate::wal_writer::{
    assembled, in_log, is_wal_file, lemma_outside_log, lemma_outside_log_twice, lemma_wal_path_below,
    lengths_sum, lists_wal, observed_index, open_or_create, outside_log_kept, resumed_index,
    wal_files, wal_path_number, FsyncPolicy, WalConfig, WalWriter, WriterModel,
};

verus! {

/// What turns bytes into values: the codecs of the files of a library.
pub struct Codec<D, U, C, F, W, K> {
    /// What a sealed file begins with.
    pub magic: Vec<u8>,
    /// Reads a manifest of a version.
    pub manifest: D,
    /// Takes the seal off a segment file.
    pub unseal: U,
    /// Reads a segment.
    pub segment: C,
    /// Loads the graph of a segment; `None`, where vectors are found without graphs.
    pub graph: Option<F>,
    /// Reads a log file.
    pub log: W,
    /// Encodes the header of a log file.
    pub header: K,
}

/// Whether the codecs take everything that the files of a library may hold.
pub open spec fn is_total<
    I,
    D: Fn(u64, Vec<u8>) -> Decoded,
    U: Fn(SegmentFile, u32, Vec<u8>) -> Result<Vec<u8>, MnemeError>,
    C: Fn(&SegmentHandle) -> DecodedSegment,
    F: Fn(&WriterState, &ByteFile, &Vec<IndexNode>, Option<QuantCopy>) -> Result<I, MnemeError>,
    W: Fn(Vec<u8>) -> LogFile,
    K: Fn(u32, Metric) -> Vec<u8>,
>(codec: Codec<D, U, C, F, W, K>) -> bool {
    &&& forall|v: u64, raw: Vec<u8>| codec.manifest.requires((v, raw))
    &&& forall|file: SegmentFile, id: u32, raw: Vec<u8>| codec.unseal.requires((file, id, raw))
    &&& forall|handle: SegmentHandle| codec.segment.requires((&handle,))
    &&& forall|handle: SegmentHandle, d: DecodedSegment|
        codec.segment.ensures((&handle,), d) ==> d.image.wf()
    &&& codec.graph matches Some(f) ==> forall|
        state: WriterState,
        hidx: ByteFile,
        nodes: Vec<IndexNode>,
        quant: Option<QuantCopy>,
    | f.requires((&state, &hidx, &nodes, quant))
    &&& forall|raw: Vec<u8>| codec.log.requires((raw,))
    &&& forall|dimension: u32, metric: Metric| codec.header.requires((dimension, metric))
}

/// Whether the directories of a library are there: its root and those of the segments, of the log
/// and of the files that wait for their removal.
pub open spec fn has_layout(dirs: Set<Seq<char>>) -> bool {
    dirs.contains(Seq::empty()) && dirs.contains(SEGMENTS_DIR@) && dirs.contains(WAL_DIR@)
        && dirs.contains(TRASH_DIR@)
}

/// Creates the directories of a library, where they are not there.
pub fn prepare_dirs<S: Storage>(storage: &mut S) -> (result: Result<(), MnemeError>)
    requires
        old(storage).wf(),
    ensures
        final(storage).wf(),
        final(storage).reliable() == old(storage).reliable(),
        final(storage).failures() == old(storage).failures(),
        final(storage).locked() == old(storage).locked(),
        final(storage).files() == old(storage).files(),
        result is Ok ==> has_layout(final(storage).dirs()),
        result matches Err(error) ==> given_by(failures_of(*old(storage)), error),
{
    proof {
        library_paths_stay_below(SegmentFile::Vsec, 0, 0, 0);
        reveal_strlit("");
        assert(""@ =~= Seq::<char>::empty());
    }
    match storage.ensure_dir("") {
        Ok(()) => {},
        Err(error) => {
            return Err(error);
        },
    }
    match storage.ensure_dir(SEGMENTS_DIR) {
        Ok(()) => {},
        Err(error) => {
            return Err(error);
        },
    }
    match storage.ensure_dir(WAL_DIR) {
        Ok(()) => {},
        Err(error) => {
            return Err(error);
        },
    }
    storage.ensure_dir(TRASH_DIR)
}

/// The error for a library whose directory is not there.
pub open spec fn root_missing() -> MnemeError {
    MnemeError::Config { reason: ConfigFault::ReadOnlyRootMissing }
}

/// Why the directory of a library cannot be read: it is not there, or the backend cannot tell. A
/// reliable backend can.
pub open spec fn root_refused<S: Storage>(storage: S, error: MnemeError) -> bool {
    ||| !storage.has_root() && error == root_missing()
    ||| failures_of(storage).contains((Step::Look, error))
}

/// Makes sure of the directory of a library. It must be there for a read-only instance, which
/// creates nothing.
pub fn prepare_root<S: Storage>(storage: &mut S, read_only: bool) -> (result: Result<
    (),
    MnemeError,
>)
    requires
        old(storage).wf(),
    ensures
        final(storage).wf(),
        final(storage).reliable() == old(storage).reliable(),
        final(storage).failures() == old(storage).failures(),
        final(storage).locked() == old(storage).locked(),
        final(storage).files() == old(storage).files(),
        read_only ==> *final(storage) == *old(storage),
        read_only && result is Ok ==> old(storage).has_root(),
        !read_only && result is Ok ==> has_layout(final(storage).dirs()),
        !read_only ==> (result matches Err(error) ==> given_by(failures_of(*old(storage)), error)),
        read_only ==> (result matches Err(error) ==> root_refused(*old(storage), error)),
        read_only && !old(storage).has_root() ==> result is Err,
{
    if !read_only {
        return prepare_dirs(storage);
    }
    match storage.root_exists() {
        Ok(found) => require_root(found),
        Err(error) => Err(error),
    }
}

/// Rejects a directory that is not there.
pub fn require_root(found: bool) -> (result: Result<(), MnemeError>)
    ensures
        found ==> result is Ok,
        !found ==> result == Err::<(), MnemeError>(root_missing()),
{
    if found {
        Ok(())
    } else {
        Err(MnemeError::Config { reason: ConfigFault::ReadOnlyRootMissing })
    }
}

/// Takes the exclusive lock for a writing instance. A read-only instance takes none.
pub fn acquire_lock<S: Storage>(storage: &mut S, read_only: bool) -> (result: Result<
    (),
    MnemeError,
>)
    requires
        old(storage).wf(),
    ensures
        final(storage).wf(),
        final(storage).reliable() == old(storage).reliable(),
        final(storage).failures() == old(storage).failures(),
        final(storage).files() == old(storage).files(),
        read_only ==> result is Ok && *final(storage) == *old(storage),
        !read_only && result is Ok ==> !old(storage).locked() && final(storage).locked(),
        !read_only && result is Err ==> final(storage).locked() == old(storage).locked(),
        result matches Err(error) ==> (old(storage).locked() && error is Busy) || given_by(
            failures_of(*old(storage)),
            error,
        ),
        !read_only && old(storage).locked() ==> result is Err,
{
    if read_only {
        Ok(())
    } else {
        storage.try_lock()
    }
}

/// Gives the exclusive lock back. Doing so again changes nothing.
pub fn release_lock<S: Storage>(storage: &mut S)
    requires
        old(storage).wf(),
    ensures
        final(storage).wf(),
        final(storage).reliable() == old(storage).reliable(),
        final(storage).failures() == old(storage).failures(),
        final(storage).files() == old(storage).files(),
        !final(storage).locked(),
{
    storage.unlock()
}

/// Whether a file may be cleared away before a library is opened: it waits for its removal, or it
/// was left behind by a write that did not finish.
pub open spec fn is_residue(files: FileMap, path: Seq<char>) -> bool {
    picks(files, TRASH_DIR@, EveryName, path) || is_orphan(files, path)
}

/// Whether `after` is `before` without some of the files that may be cleared away.
pub open spec fn only_residue_gone(before: FileMap, after: FileMap) -> bool {
    &&& forall|path: Seq<char>| #[trigger]
        after.dom().contains(path) ==> before.dom().contains(path) && after[path] == before[path]
    &&& forall|path: Seq<char>|
        before.dom().contains(path) && !#[trigger] after.dom().contains(path) ==> is_residue(
            before,
            path,
        )
}

/// Whether `after` is `before` without the files that may be cleared away.
pub open spec fn residue_gone(before: FileMap, after: FileMap) -> bool {
    &&& only_residue_gone(before, after)
    &&& forall|path: Seq<char>| #[trigger] after.dom().contains(path) ==> !is_residue(before, path)
}

/// A file that a test picks among fewer files is picked among more.
proof fn lemma_picks_more<T: NameTest>(
    fewer: FileMap,
    more: FileMap,
    dir: Seq<char>,
    test: T,
    path: Seq<char>,
)
    requires
        forall|p: Seq<char>| #[trigger] fewer.dom().contains(p) ==> more.dom().contains(p),
        picks(fewer, dir, test, path),
    ensures
        picks(more, dir, test, path),
{
    let name = choose|name: Seq<char>| #[trigger]
        dir_holds(fewer, dir, name) && test.holds(name) && path
            == dir_prefix(dir) + name;
    assert(dir_holds(more, dir, name));
}

/// A file that is picked stays picked as long as it is there.
proof fn lemma_picks_there<T: NameTest>(
    fewer: FileMap,
    more: FileMap,
    dir: Seq<char>,
    test: T,
    path: Seq<char>,
)
    requires
        fewer.dom().contains(path),
        picks(more, dir, test, path),
    ensures
        picks(fewer, dir, test, path),
{
    let name = choose|name: Seq<char>| #[trigger]
        dir_holds(more, dir, name) && test.holds(name) && path
            == dir_prefix(dir) + name;
    assert(dir_holds(fewer, dir, name));
}

/// Clears away what waits for its removal and what writes that did not finish left behind. A
/// read-only instance clears nothing away.
pub fn cleanup_residue<S: Storage>(storage: &mut S, read_only: bool) -> (result: Result<
    (),
    MnemeError,
>)
    requires
        old(storage).wf(),
    ensures
        final(storage).wf(),
        final(storage).reliable() == old(storage).reliable(),
        final(storage).failures() == old(storage).failures(),
        final(storage).locked() == old(storage).locked(),
        read_only ==> result is Ok && *final(storage) == *old(storage),
        only_residue_gone(old(storage).files(), final(storage).files()),
        !read_only && result is Ok ==> residue_gone(old(storage).files(), final(storage).files()),
        result matches Err(error) ==> given_by(failures_of(*old(storage)), error),
{
    if read_only {
        return Ok(());
    }
    let ghost start = storage.files();
    match purge(storage) {
        Ok(()) => {},
        Err(error) => {
            return Err(error);
        },
    }
    let ghost purged = storage.files();
    let result = cleanup_orphans(storage);
    let ghost end = storage.files();
    proof {
        assert forall|path: Seq<char>|
            start.dom().contains(path) && !#[trigger] end.dom().contains(path) implies is_residue(
            start,
            path,
        ) by {
            if purged.dom().contains(path) {
                lemma_orphan_more(purged, start, path);
            }
        }
        if result is Ok {
            assert forall|path: Seq<char>| #[trigger] end.dom().contains(path) implies !is_residue(
                start,
                path,
            ) by {
                assert(purged.dom().contains(path));
                if is_orphan(start, path) {
                    lemma_orphan_there(purged, start, path);
                }
            }
        }
    }
    result
}

proof fn lemma_orphan_more(fewer: FileMap, more: FileMap, path: Seq<char>)
    requires
        forall|p: Seq<char>| #[trigger] fewer.dom().contains(p) ==> more.dom().contains(p),
        is_orphan(fewer, path),
    ensures
        is_orphan(more, path),
{
    if picks(fewer, SEGMENTS_DIR@, HalfWritten, path) {
        lemma_picks_more(fewer, more, SEGMENTS_DIR@, HalfWritten, path);
    } else if picks(fewer, WAL_DIR@, HalfWritten, path) {
        lemma_picks_more(fewer, more, WAL_DIR@, HalfWritten, path);
    } else {
        lemma_picks_more(fewer, more, Seq::empty(), HalfWritten, path);
    }
}

proof fn lemma_orphan_there(fewer: FileMap, more: FileMap, path: Seq<char>)
    requires
        fewer.dom().contains(path),
        is_orphan(more, path),
    ensures
        is_orphan(fewer, path),
{
    if picks(more, SEGMENTS_DIR@, HalfWritten, path) {
        lemma_picks_there(fewer, more, SEGMENTS_DIR@, HalfWritten, path);
    } else if picks(more, WAL_DIR@, HalfWritten, path) {
        lemma_picks_there(fewer, more, WAL_DIR@, HalfWritten, path);
    } else {
        lemma_picks_there(fewer, more, Seq::empty(), HalfWritten, path);
    }
}

/// What the log of a library is opened with.
pub open spec fn is_wal_config(
    config: WalConfig,
    dimension: u32,
    metric: Metric,
    options: OpenOptions,
    header: Seq<u8>,
) -> bool {
    &&& config.dimension == dimension
    &&& config.metric == metric
    &&& config.header@ == header
    &&& config.policy == options.fsync
    &&& config.max_file_bytes == options.wal_file_bytes
    &&& config.read_only == options.read_only
    &&& config.encrypts == options.has_key
    &&& config.frame_max == options.wal_frame_max
}

/// Puts together what the log of a library is opened with.
pub fn wal_config(manifest: &Manifest, options: &OpenOptions, header: Vec<u8>) -> (config: WalConfig)
    ensures
        is_wal_config(config, manifest.dimension, manifest.metric, *options, header@),
{
    WalConfig {
        dimension: manifest.dimension,
        metric: manifest.metric,
        header,
        policy: options.fsync,
        max_file_bytes: options.wal_file_bytes,
        read_only: options.read_only,
        encrypts: options.has_key,
        frame_max: options.wal_frame_max,
    }
}

/// What a log that was opened has to do with its files: it goes on behind the last of them, whose
/// header fits the library; it begins, where there is none or its header is torn. A read-only
/// instance only counts the bytes that are there.
pub open spec fn log_opened<
    H: FsyncHook,
    W: Fn(Vec<u8>) -> LogFile,
    K: Fn(u32, Metric) -> Vec<u8>,
>(
    hook: Option<&H>,
    before: FileMap,
    after: FileMap,
    dimension: u32,
    metric: Metric,
    options: OpenOptions,
    read_log: W,
    encode_header: K,
    reliable: bool,
    writer: WriterModel,
    paths: Seq<String>,
    header: Option<WalHeader>,
    fresh: Vec<u8>,
    config: WalConfig,
) -> bool {
    &&& lists_wal(before, paths)
    &&& encode_header.ensures((dimension, metric), fresh)
    &&& is_wal_config(config, dimension, metric, options, fresh@)
    &&& if options.read_only {
        &&& after == before
        &&& writer == assembled(observed_index(paths), config, false, writer.written, 0)
        &&& reliable ==> writer.written == lengths_sum(before, paths, paths.len(), Seq::empty())
    } else if paths.len() > 0 && header is Some {
        &&& may_state(before, read_log, paths.last()@, header)
        &&& header->Some_0.dimension == dimension
        &&& header->Some_0.metric == metric
        &&& after == before
        &&& writer == assembled(
            resumed_index(paths),
            config,
            true,
            writer.written,
            writer.sealed_bytes,
        )
        &&& writer.written == before[paths.last()@].len()
        &&& reliable ==> writer.sealed_bytes == lengths_sum(
            before,
            paths,
            paths.len(),
            paths.last()@,
        )
    } else {
        &&& paths.len() > 0 ==> may_state(before, read_log, paths.last()@, None)
        &&& writer == assembled(resumed_index(paths), config, true, fresh@.len() as u64, 0)
        &&& file_set(before, after, wal_path(resumed_index(paths)), fresh@)
        &&& write_passes(hook, wal_path(resumed_index(paths)), 0, fresh@.len())
    }
}

/// Whether a log was opened so.
pub open spec fn is_log_opened<
    H: FsyncHook,
    W: Fn(Vec<u8>) -> LogFile,
    K: Fn(u32, Metric) -> Vec<u8>,
>(
    hook: Option<&H>,
    before: FileMap,
    after: FileMap,
    dimension: u32,
    metric: Metric,
    options: OpenOptions,
    read_log: W,
    encode_header: K,
    reliable: bool,
    writer: WriterModel,
) -> bool {
    exists|paths: Seq<String>, header: Option<WalHeader>, fresh: Vec<u8>, config: WalConfig|
        #[trigger]
        log_opened(
            hook,
            before,
            after,
            dimension,
            metric,
            options,
            read_log,
            encode_header,
            reliable,
            writer,
            paths,
            header,
            fresh,
            config,
        )
}

/// Whether the last log file belongs to a library of another dimension or metric.
pub open spec fn log_of_another<W: Fn(Vec<u8>) -> LogFile>(
    files: FileMap,
    dimension: u32,
    metric: Metric,
    read_log: W,
) -> bool {
    exists|paths: Seq<String>, header: WalHeader|
        lists_wal(files, paths) && paths.len() > 0 && #[trigger] may_state(
            files,
            read_log,
            paths.last()@,
            Some(header),
        ) && (header.dimension != dimension || header.metric != metric)
}

/// Whether a hook may refuse the header of a log that begins with this error.
pub open spec fn new_log_refused<
    H: FsyncHook,
    W: Fn(Vec<u8>) -> LogFile,
    K: Fn(u32, Metric) -> Vec<u8>,
>(
    hook: Option<&H>,
    files: FileMap,
    dimension: u32,
    metric: Metric,
    read_log: W,
    encode_header: K,
    error: MnemeError,
) -> bool {
    exists|paths: Seq<String>, fresh: Vec<u8>|
        #![trigger lists_wal(files, paths), encode_header.ensures((dimension, metric), fresh)]
        lists_wal(files, paths) && (paths.len() > 0 ==> may_state(
            files,
            read_log,
            paths.last()@,
            None,
        )) && encode_header.ensures((dimension, metric), fresh) && refuses_write(
            hook,
            wal_path(resumed_index(paths)),
            0,
            fresh@.len(),
            error,
        )
}

/// Opens the log of a library.
pub fn open_log<
    S: Storage,
    H: FsyncHook,
    W: Fn(Vec<u8>) -> LogFile,
    K: Fn(u32, Metric) -> Vec<u8>,
>(
    storage: &mut S,
    hook: Option<&H>,
    manifest: &Manifest,
    options: &OpenOptions,
    read_log: &W,
    encode_header: &K,
) -> (result: Result<WalWriter, MnemeError>)
    requires
        old(storage).wf(),
        forall|raw: Vec<u8>| read_log.requires((raw,)),
        forall|dimension: u32, metric: Metric| encode_header.requires((dimension, metric)),
    ensures
        final(storage).wf(),
        final(storage).reliable() == old(storage).reliable(),
        final(storage).failures() == old(storage).failures(),
        final(storage).locked() == old(storage).locked(),
        outside_log_kept(old(storage).files(), final(storage).files()),
        options.read_only ==> final(storage).files() == old(storage).files(),
        result matches Ok(writer) ==> writer.wf() && is_log_opened(
            hook,
            old(storage).files(),
            final(storage).files(),
            manifest.dimension,
            manifest.metric,
            *options,
            *read_log,
            *encode_header,
            old(storage).reliable(),
            writer@,
        ),
        result matches Err(error) ==> given_by(failures_of(*old(storage)), error) || (
        !options.read_only && ((error == corrupted(Fault::WalHeaderMismatch) && log_of_another(
            old(storage).files(),
            manifest.dimension,
            manifest.metric,
            *read_log,
        )) || new_log_refused(
            hook,
            old(storage).files(),
            manifest.dimension,
            manifest.metric,
            *read_log,
            *encode_header,
            error,
        ))),
{
    let ghost start = storage.files();
    let paths = match wal_files(storage) {
        Ok(paths) => paths,
        Err(error) => {
            return Err(error);
        },
    };
    proof {
        assert forall|k: int| 0 <= k < paths@.len() implies crate::layout::stays_below(
            (#[trigger] paths@[k])@,
        ) by {
            lemma_wal_path_below(start, paths@, k);
        }
        if paths@.len() > 0 {
            assert(is_wal_file(start, paths@[paths@.len() - 1]@));
            lemma_log_there(start, paths@.last()@);
        }
    }
    let fresh = encode_header(manifest.dimension, manifest.metric);
    let ghost encoded = fresh;
    let config = wal_config(manifest, options, fresh);
    let ghost used = config;
    let mut header: Option<WalHeader> = None;
    if !options.read_only && paths.len() > 0 {
        let last = &paths[paths.len() - 1];
        let bytes = match storage.read_file(last.as_str()) {
            Ok(bytes) => bytes,
            Err(error) => {
                return Err(error);
            },
        };
        let ghost raw = bytes;
        let log = read_log(bytes);
        assert(reads_log(start, *read_log, last@, log)) by {
            assert(read_log.ensures((raw,), log));
        }
        header = log.header;
        assert(may_state(start, *read_log, paths@.last()@, header));
    }
    let result = open_or_create(storage, hook, config, &paths, header);
    proof {
        if !options.read_only {
            lemma_outside_log(start, storage.files(), resumed_index(paths@));
        }
        match &result {
            Ok(writer) => {
                assert(log_opened(
                    hook,
                    start,
                    storage.files(),
                    manifest.dimension,
                    manifest.metric,
                    *options,
                    *read_log,
                    *encode_header,
                    storage.reliable(),
                    writer@,
                    paths@,
                    header,
                    encoded,
                    used,
                ));
            },
            Err(error) => {
                if !given_by(failures_of(*storage), *error) {
                    assert(encode_header.ensures((manifest.dimension, manifest.metric), encoded));
                    if header is Some {
                        assert(may_state(start, *read_log, paths@.last()@, Some(header->Some_0)));
                    }
                }
            },
        }
    }
    result
}

/// Whether `after` is `before` without the segment files that a manifest does not refer to.
pub open spec fn unreferenced_gone(before: FileMap, after: FileMap, manifest: Manifest) -> bool {
    all_picked_gone(before, after, SEGMENTS_DIR@, (Unreferenced { manifest: &manifest }))
}

/// Whether a state and its graphs were rebuilt from a manifest, the segments and the log.
pub open spec fn is_rebuilt<
    I,
    D: Fn(u64, Vec<u8>) -> Decoded,
    U: Fn(SegmentFile, u32, Vec<u8>) -> Result<Vec<u8>, MnemeError>,
    C: Fn(&SegmentHandle) -> DecodedSegment,
    F: Fn(&WriterState, &ByteFile, &Vec<IndexNode>, Option<QuantCopy>) -> Result<I, MnemeError>,
    W: Fn(Vec<u8>) -> LogFile,
    K: Fn(u32, Metric) -> Vec<u8>,
>(
    before: FileMap,
    after: FileMap,
    manifest: Manifest,
    options: OpenOptions,
    codec: Codec<D, U, C, F, W, K>,
    failures: FailureSet,
    state: StateModel,
    indexes: Seq<SegmentIndex<I>>,
) -> bool {
    exists|
        handles: Seq<SegmentHandle>,
        decoded: Seq<DecodedSegment>,
        sources: Seq<GraphSource>,
        start: StateModel,
        recovered: RecoveredSegments,
        middle: WriterState,
    | #[trigger]
        is_loaded(
            before,
            after,
            manifest,
            options,
            codec.magic@,
            codec.unseal,
            codec.segment,
            codec.graph,
            codec.log,
            failures,
            state,
            indexes,
            handles,
            decoded,
            sources,
            start,
            recovered,
            middle,
        )
}

/// Whether the files were cleared up to the point where the manifest is looked for. A read-only
/// instance clears nothing away.
pub open spec fn is_cleared(before: FileMap, cleared: FileMap, read_only: bool) -> bool {
    if read_only {
        cleared == before
    } else {
        residue_gone(before, cleared)
    }
}

/// Whether the segments were cleared up to the point where they are read.
pub open spec fn is_swept(
    cleared: FileMap,
    swept: FileMap,
    manifest: Manifest,
    read_only: bool,
) -> bool {
    if read_only {
        swept == cleared
    } else {
        unreferenced_gone(cleared, swept, manifest)
    }
}

/// Whether this manifest was found, and the segments were cleared for it.
pub open spec fn is_begun<D: Fn(u64, Vec<u8>) -> Decoded, W: Fn(Vec<u8>) -> LogFile>(
    before: FileMap,
    cleared: FileMap,
    swept: FileMap,
    decode: D,
    read_log: W,
    options: OpenOptions,
    reliable: bool,
    manifest: Manifest,
    version: u64,
) -> bool {
    &&& is_cleared(before, cleared, options.read_only)
    &&& is_opened(cleared, decode, read_log, options, reliable, manifest, version)
    &&& is_swept(cleared, swept, manifest, options.read_only)
}

/// What a library that was opened has to do with its files: what is left over is cleared away, the
/// manifest is the latest that can be used or that of a new library, segment files that it does not
/// refer to are cleared away, the state is rebuilt from the segments and the log, and the log goes
/// on.
pub open spec fn session_opened<
    H: FsyncHook,
    I,
    D: Fn(u64, Vec<u8>) -> Decoded,
    U: Fn(SegmentFile, u32, Vec<u8>) -> Result<Vec<u8>, MnemeError>,
    C: Fn(&SegmentHandle) -> DecodedSegment,
    F: Fn(&WriterState, &ByteFile, &Vec<IndexNode>, Option<QuantCopy>) -> Result<I, MnemeError>,
    W: Fn(Vec<u8>) -> LogFile,
    K: Fn(u32, Metric) -> Vec<u8>,
>(
    hook: Option<&H>,
    before: FileMap,
    cleared: FileMap,
    swept: FileMap,
    replayed: FileMap,
    after: FileMap,
    codec: Codec<D, U, C, F, W, K>,
    options: OpenOptions,
    reliable: bool,
    failures: FailureSet,
    store: Store,
    state: StateModel,
    indexes: Seq<SegmentIndex<I>>,
) -> bool {
    &&& is_begun(
        before,
        cleared,
        swept,
        codec.manifest,
        codec.log,
        options,
        reliable,
        store.manifest,
        store.version,
    )
    &&& is_rebuilt(
        swept,
        replayed,
        store.manifest,
        options,
        codec,
        failures,
        state,
        indexes,
    )
    &&& is_log_opened(
        hook,
        replayed,
        after,
        store.manifest.dimension,
        store.manifest.metric,
        options,
        codec.log,
        codec.header,
        reliable,
        store.wal@,
    )
    &&& store.dimension == store.manifest.dimension
    &&& store.metric == store.manifest.metric
    &&& store.read_only == options.read_only
}

/// What keeps a library, of which no other instance holds the lock, from being opened: its manifest,
/// its segments, its log, the hook or the backend.
pub open spec fn session_refused<
    H: FsyncHook,
    I,
    D: Fn(u64, Vec<u8>) -> Decoded,
    U: Fn(SegmentFile, u32, Vec<u8>) -> Result<Vec<u8>, MnemeError>,
    C: Fn(&SegmentHandle) -> DecodedSegment,
    F: Fn(&WriterState, &ByteFile, &Vec<IndexNode>, Option<QuantCopy>) -> Result<I, MnemeError>,
    W: Fn(Vec<u8>) -> LogFile,
    K: Fn(u32, Metric) -> Vec<u8>,
>(
    hook: Option<&H>,
    before: FileMap,
    codec: Codec<D, U, C, F, W, K>,
    options: OpenOptions,
    reliable: bool,
    failures: FailureSet,
    error: MnemeError,
) -> bool {
    ||| given_by(failures, error)
    ||| exists|cleared: FileMap| #[trigger]
        is_cleared(before, cleared, options.read_only) && is_refused(
            cleared,
            codec.manifest,
            codec.log,
            options,
            reliable,
            failures,
            error,
        )
    ||| exists|cleared: FileMap, swept: FileMap, manifest: Manifest, version: u64|
        #[trigger]
        is_begun(
            before,
            cleared,
            swept,
            codec.manifest,
            codec.log,
            options,
            reliable,
            manifest,
            version,
        ) && start_refused(hook, swept, codec, options, manifest, failures, error)
}

/// What keeps the segments and the log of a library from being taken up.
pub open spec fn start_refused<
    H: FsyncHook,
    I,
    D: Fn(u64, Vec<u8>) -> Decoded,
    U: Fn(SegmentFile, u32, Vec<u8>) -> Result<Vec<u8>, MnemeError>,
    C: Fn(&SegmentHandle) -> DecodedSegment,
    F: Fn(&WriterState, &ByteFile, &Vec<IndexNode>, Option<QuantCopy>) -> Result<I, MnemeError>,
    W: Fn(Vec<u8>) -> LogFile,
    K: Fn(u32, Metric) -> Vec<u8>,
>(
    hook: Option<&H>,
    swept: FileMap,
    codec: Codec<D, U, C, F, W, K>,
    options: OpenOptions,
    manifest: Manifest,
    failures: FailureSet,
    error: MnemeError,
) -> bool {
    ||| load_refused::<I, U, C, F, W>(
        swept,
        manifest,
        options,
        codec.magic@,
        codec.unseal,
        codec.segment,
        codec.graph,
        codec.log,
        failures,
        error,
    )
    ||| error == corrupted(Fault::WalHeaderMismatch) && !options.read_only && exists|
        replayed: FileMap,
        state: StateModel,
        indexes: Seq<SegmentIndex<I>>,
    | #[trigger]
        is_rebuilt(swept, replayed, manifest, options, codec, failures, state, indexes)
            && log_of_another(replayed, manifest.dimension, manifest.metric, codec.log)
    ||| !options.read_only && exists|
        replayed: FileMap,
        state: StateModel,
        indexes: Seq<SegmentIndex<I>>,
    | #[trigger]
        is_rebuilt(swept, replayed, manifest, options, codec, failures, state, indexes)
            && new_log_refused(
            hook,
            replayed,
            manifest.dimension,
            manifest.metric,
            codec.log,
            codec.header,
            error,
        )
}

/// Whether a file may be cleared away while a library is opened.
pub open spec fn may_be_cleared(files: FileMap, path: Seq<char>) -> bool {
    is_residue(files, path) || picks(files, SEGMENTS_DIR@, SegmentNames, path)
}

/// Whether nothing outside of the log was written: files are as they were, or they are gone because
/// they may be cleared away.
pub open spec fn only_cleared(before: FileMap, after: FileMap) -> bool {
    &&& forall|path: Seq<char>|
        !in_log(path) && #[trigger] after.dom().contains(path) ==> before.dom().contains(path)
            && after[path] == before[path]
    &&& forall|path: Seq<char>|
        !in_log(path) && before.dom().contains(path) && !#[trigger] after.dom().contains(path)
            ==> may_be_cleared(before, path)
}

proof fn lemma_cleared(before: FileMap, cleared: FileMap, swept: FileMap, manifest: &Manifest)
    requires
        only_residue_gone(before, cleared),
        only_picked_gone(cleared, swept, SEGMENTS_DIR@, (Unreferenced { manifest })),
    ensures
        only_cleared(before, swept),
{
    assert forall|path: Seq<char>|
        !in_log(path) && before.dom().contains(path) && !#[trigger] swept.dom().contains(
            path,
        ) implies may_be_cleared(before, path) by {
        if cleared.dom().contains(path) {
            let test = Unreferenced { manifest };
            assert(picks(cleared, SEGMENTS_DIR@, test, path));
            let name = choose|name: Seq<char>| #[trigger]
                dir_holds(cleared, SEGMENTS_DIR@, name) && test.holds(name) && path == dir_prefix(
                    SEGMENTS_DIR@,
                ) + name;
            assert(dir_holds(before, SEGMENTS_DIR@, name));
            assert(SegmentNames.holds(name));
        }
    }
}

proof fn lemma_cleared_then_log(before: FileMap, swept: FileMap, after: FileMap)
    requires
        only_cleared(before, swept),
        outside_log_kept(swept, after),
    ensures
        only_cleared(before, after),
{
    assert forall|path: Seq<char>| !in_log(path) implies #[trigger] after.dom().contains(path)
        == swept.dom().contains(path) && (after.dom().contains(path) ==> after[path]
        == swept[path]) by {
        assert(same_at(swept, after, path));
    }
}

/// Opens a library that is locked, where it has to be.
#[verifier::spinoff_prover]
fn open_locked<
    S: Storage,
    H: FsyncHook,
    I,
    D: Fn(u64, Vec<u8>) -> Decoded,
    U: Fn(SegmentFile, u32, Vec<u8>) -> Result<Vec<u8>, MnemeError>,
    C: Fn(&SegmentHandle) -> DecodedSegment,
    F: Fn(&WriterState, &ByteFile, &Vec<IndexNode>, Option<QuantCopy>) -> Result<I, MnemeError>,
    W: Fn(Vec<u8>) -> LogFile,
    K: Fn(u32, Metric) -> Vec<u8>,
>(
    storage: &mut S,
    hook: Option<&H>,
    options: &OpenOptions,
    codec: &Codec<D, U, C, F, W, K>,
) -> (result: Result<(Store, WriterState, Vec<SegmentIndex<I>>), MnemeError>)
    requires
        old(storage).wf(),
        options.block_rows > 0,
        is_total(*codec),
    ensures
        final(storage).wf(),
        final(storage).reliable() == old(storage).reliable(),
        final(storage).failures() == old(storage).failures(),
        final(storage).locked() == old(storage).locked(),
        options.read_only ==> final(storage).files() == old(storage).files(),
        only_cleared(old(storage).files(), final(storage).files()),
        result matches Ok((store, state, indexes)) ==> store.wf() && state.wf() && exists|
            cleared: FileMap,
            swept: FileMap,
            replayed: FileMap,
        | #[trigger]
            session_opened(
                hook,
                old(storage).files(),
                cleared,
                swept,
                replayed,
                final(storage).files(),
                *codec,
                *options,
                old(storage).reliable(),
                failures_of(*old(storage)),
                store,
                state@,
                indexes@,
            ),
        result matches Err(error) ==> session_refused(
            hook,
            old(storage).files(),
            *codec,
            *options,
            old(storage).reliable(),
            failures_of(*old(storage)),
            error,
        ),
{
    let ghost start = storage.files();
    let ghost failures = failures_of(*storage);
    match cleanup_residue(storage, options.read_only) {
        Ok(()) => {},
        Err(error) => {
            return Err(error);
        },
    }
    let ghost cleared = storage.files();
    assert(is_cleared(start, cleared, options.read_only));
    let (manifest, version) = match load_or_init_manifest(
        storage,
        options,
        &codec.manifest,
        &codec.log,
    ) {
        Ok(found) => found,
        Err(error) => {
            return Err(error);
        },
    };
    if !options.read_only {
        let swept = remove_unreferenced_segments(storage, &manifest);
        proof {
            lemma_cleared(start, cleared, storage.files(), &manifest);
        }
        match swept {
            Ok(()) => {},
            Err(error) => {
                return Err(error);
            },
        }
    }
    let ghost swept = storage.files();
    assert(is_begun(
        start,
        cleared,
        swept,
        codec.manifest,
        codec.log,
        *options,
        storage.reliable(),
        manifest,
        version,
    ));
    let graph: Option<&F> = match &codec.graph {
        Some(f) => Some(f),
        None => None,
    };
    assert(opt_deref(graph) == codec.graph);
    let loaded = load_write_state(
        storage,
        &manifest,
        options,
        codec.magic.as_slice(),
        &codec.unseal,
        &codec.segment,
        graph,
        &codec.log,
    );
    let ghost replayed = storage.files();
    proof {
        lemma_cleared_then_log(start, swept, replayed);
    }
    let (state, indexes) = match loaded {
        Ok(loaded) => loaded,
        Err(error) => {
            proof {
                if !given_by(failures, error) {
                    assert(start_refused::<H, I, D, U, C, F, W, K>(
                        hook,
                        swept,
                        *codec,
                        *options,
                        manifest,
                        failures,
                        error,
                    ));
                }
            }
            return Err(error);
        },
    };
    assert(is_rebuilt(
        swept,
        replayed,
        manifest,
        *options,
        *codec,
        failures,
        state@,
        indexes@,
    ));
    let opened = open_log(storage, hook, &manifest, options, &codec.log, &codec.header);
    proof {
        lemma_outside_log_twice(swept, replayed, storage.files());
        lemma_cleared_then_log(start, swept, storage.files());
    }
    let wal = match opened {
        Ok(wal) => wal,
        Err(error) => {
            proof {
                if !given_by(failures, error) {
                    assert(start_refused::<H, I, D, U, C, F, W, K>(
                        hook,
                        swept,
                        *codec,
                        *options,
                        manifest,
                        failures,
                        error,
                    ));
                }
            }
            return Err(error);
        },
    };
    let dimension: u32 = manifest.dimension;
    let metric = manifest.metric;
    let store = Store { version, manifest, wal, dimension, metric, read_only: options.read_only };
    let result = Ok((store, state, indexes));
    assert(result matches Ok((opened, rebuilt, graphs)) && session_opened(
        hook,
        start,
        cleared,
        swept,
        replayed,
        storage.files(),
        *codec,
        *options,
        storage.reliable(),
        failures,
        opened,
        rebuilt@,
        graphs@,
    ));
    result
}

/// What a read-only instance reads a library with that has moved on.
pub open spec fn following_options(has_key: bool, block_rows: usize) -> OpenOptions {
    OpenOptions {
        dimension: None,
        metric: None,
        fsync: FsyncPolicy::Never,
        read_only: true,
        verify_on_open: false,
        fail_fast_on_corruption: false,
        wal_file_bytes: 0,
        wal_frame_max: 0,
        stopwords: false,
        has_key,
        block_rows,
    }
}

/// Whether `current` names no version that is newer.
pub open spec fn is_up_to_date(files: FileMap, version: u64) -> bool {
    match current_of(files) {
        None => true,
        Some(observed) => observed <= version,
    }
}

/// What a read-only instance that follows a library may fail with.
pub open spec fn reload_refused<
    I,
    D: Fn(u64, Vec<u8>) -> Decoded,
    U: Fn(SegmentFile, u32, Vec<u8>) -> Result<Vec<u8>, MnemeError>,
    C: Fn(&SegmentHandle) -> DecodedSegment,
    F: Fn(&WriterState, &ByteFile, &Vec<IndexNode>, Option<QuantCopy>) -> Result<I, MnemeError>,
    W: Fn(Vec<u8>) -> LogFile,
    K: Fn(u32, Metric) -> Vec<u8>,
>(
    files: FileMap,
    codec: Codec<D, U, C, F, W, K>,
    options: OpenOptions,
    failures: FailureSet,
    error: MnemeError,
) -> bool {
    ||| given_by(failures, error)
    ||| load_reports(files, codec.manifest, error)
    ||| error == corrupted(unreadable_fault(files)) && all_unusable(files, codec.manifest)
    ||| exists|manifest: Manifest, version: u64| #[trigger]
        is_latest(files, codec.manifest, manifest, version) && load_refused::<I, U, C, F, W>(
            files,
            manifest,
            options,
            codec.magic@,
            codec.unseal,
            codec.segment,
            codec.graph,
            codec.log,
            failures,
            error,
        )
}

impl Store {
    /// Opens a library, or begins one.
    ///
    /// A writing instance takes the exclusive lock and clears away what is left over. A read-only
    /// instance takes no lock and changes nothing. Where opening fails, the lock is given back.
    pub fn open<
        S: Storage,
        H: FsyncHook,
        I,
        D: Fn(u64, Vec<u8>) -> Decoded,
        U: Fn(SegmentFile, u32, Vec<u8>) -> Result<Vec<u8>, MnemeError>,
        C: Fn(&SegmentHandle) -> DecodedSegment,
        F: Fn(&WriterState, &ByteFile, &Vec<IndexNode>, Option<QuantCopy>) -> Result<I, MnemeError>,
        W: Fn(Vec<u8>) -> LogFile,
        K: Fn(u32, Metric) -> Vec<u8>,
    >(
        storage: &mut S,
        hook: Option<&H>,
        options: &OpenOptions,
        codec: &Codec<D, U, C, F, W, K>,
    ) -> (result: Result<(Store, WriterState, Vec<SegmentIndex<I>>), MnemeError>)
        requires
            old(storage).wf(),
            options.block_rows > 0,
            is_total(*codec),
        ensures
            final(storage).wf(),
            final(storage).reliable() == old(storage).reliable(),
            final(storage).failures() == old(storage).failures(),
            options.read_only ==> final(storage).files() == old(storage).files()
                && final(storage).locked() == old(storage).locked(),
            only_cleared(old(storage).files(), final(storage).files()),
            result is Err ==> final(storage).locked() == old(storage).locked(),
            !options.read_only && result is Ok ==> !old(storage).locked()
                && final(storage).locked(),
            options.read_only && result is Ok ==> old(storage).has_root(),
            result matches Ok((store, state, indexes)) ==> store.wf() && state.wf() && exists|
                cleared: FileMap,
                swept: FileMap,
                replayed: FileMap,
            | #[trigger]
                session_opened(
                    hook,
                    old(storage).files(),
                    cleared,
                    swept,
                    replayed,
                    final(storage).files(),
                    *codec,
                    *options,
                    old(storage).reliable(),
                    failures_of(*old(storage)),
                    store,
                    state@,
                    indexes@,
                ),
            result matches Err(error) ==> session_refused(
                hook,
                old(storage).files(),
                *codec,
                *options,
                old(storage).reliable(),
                failures_of(*old(storage)),
                error,
            ) || (!options.read_only && old(storage).locked() && error is Busy) || (
            options.read_only && !old(storage).has_root() && error == root_missing()),
            options.read_only && !old(storage).has_root() ==> (result matches Err(error)
                && root_refused(*old(storage), error)),
            !options.read_only && old(storage).locked() ==> (result matches Err(error) && (
            error is Busy || given_by(failures_of(*old(storage)), error)))
                && final(storage).files() == old(storage).files(),
    {
        match prepare_root(storage, options.read_only) {
            Ok(()) => {},
            Err(error) => {
                return Err(error);
            },
        }
        match acquire_lock(storage, options.read_only) {
            Ok(()) => {},
            Err(error) => {
                return Err(error);
            },
        }
        assert(failures_of(*storage) == failures_of(*old(storage)));
        match open_locked(storage, hook, options, codec) {
            Ok(opened) => Ok(opened),
            Err(error) => {
                if !options.read_only {
                    release_lock(storage);
                }
                Err(error)
            },
        }
    }

    /// Lets a read-only instance follow the library: where a newer manifest was committed, the
    /// state is rebuilt for it.
    ///
    /// Where nothing newer is there, or the newer manifest cannot be used, the instance stays as it
    /// is.
    pub fn reload_read_only<
        S: Storage,
        I,
        D: Fn(u64, Vec<u8>) -> Decoded,
        U: Fn(SegmentFile, u32, Vec<u8>) -> Result<Vec<u8>, MnemeError>,
        C: Fn(&SegmentHandle) -> DecodedSegment,
        F: Fn(&WriterState, &ByteFile, &Vec<IndexNode>, Option<QuantCopy>) -> Result<I, MnemeError>,
        W: Fn(Vec<u8>) -> LogFile,
        K: Fn(u32, Metric) -> Vec<u8>,
    >(
        &mut self,
        storage: &mut S,
        codec: &Codec<D, U, C, F, W, K>,
        has_key: bool,
        block_rows: usize,
    ) -> (result: Result<Option<(WriterState, Vec<SegmentIndex<I>>, u64)>, MnemeError>)
        requires
            old(storage).wf(),
            block_rows > 0,
            is_total(*codec),
        ensures
            final(storage).wf(),
            final(storage).reliable() == old(storage).reliable(),
            final(storage).failures() == old(storage).failures(),
            final(storage).locked() == old(storage).locked(),
            final(storage).files() == old(storage).files(),
            !old(self).read_only ==> result == Err::<
                Option<(WriterState, Vec<SegmentIndex<I>>, u64)>,
                MnemeError,
            >(MnemeError::Config { reason: ConfigFault::ReloadNeedsReadOnly }),
            match result {
                Ok(Some((state, indexes, version))) => {
                    &&& version > old(self).version
                    &&& is_latest(
                        old(storage).files(),
                        codec.manifest,
                        final(self).manifest,
                        version,
                    )
                    &&& state.wf()
                    &&& is_rebuilt(
                        old(storage).files(),
                        old(storage).files(),
                        final(self).manifest,
                        following_options(has_key, block_rows),
                        *codec,
                        failures_of(*old(storage)),
                        state@,
                        indexes@,
                    )
                    &&& final(self).version == version
                    &&& final(self).wal == old(self).wal
                    &&& final(self).dimension == old(self).dimension
                    &&& final(self).metric == old(self).metric
                    &&& final(self).read_only == old(self).read_only
                },
                Ok(None) => {
                    &&& *final(self) == *old(self)
                    &&& old(storage).reliable() ==> is_up_to_date(
                        old(storage).files(),
                        old(self).version,
                    ) || exists|manifest: Manifest, version: u64| #[trigger]
                        is_latest(old(storage).files(), codec.manifest, manifest, version)
                            && version <= old(self).version
                },
                Err(error) => {
                    &&& *final(self) == *old(self)
                    &&& old(self).read_only ==> reload_refused(
                        old(storage).files(),
                        *codec,
                        following_options(has_key, block_rows),
                        failures_of(*old(storage)),
                        error,
                    )
                },
            },
            old(self).read_only && old(storage).reliable() && is_up_to_date(
                old(storage).files(),
                old(self).version,
            ) ==> result is Ok && result->Ok_0 is None,
    {
        if !self.read_only {
            return Err(MnemeError::Config { reason: ConfigFault::ReloadNeedsReadOnly });
        }
        let observed: u64 = match read_current(storage) {
            Some(observed) => observed,
            None => {
                return Ok(None);
            },
        };
        if observed <= self.version {
            return Ok(None);
        }
        let (manifest, version) = match load_manifest(storage, &codec.manifest) {
            Ok(Some(found)) => found,
            Ok(None) => {
                return Ok(None);
            },
            Err(error) => {
                return Err(error);
            },
        };
        assert(is_latest(storage.files(), codec.manifest, manifest, version));
        if version <= self.version {
            return Ok(None);
        }
        let options = OpenOptions {
            dimension: None,
            metric: None,
            fsync: FsyncPolicy::Never,
            read_only: true,
            verify_on_open: false,
            fail_fast_on_corruption: false,
            wal_file_bytes: 0,
            wal_frame_max: 0,
            stopwords: false,
            has_key,
            block_rows,
        };
        let graph: Option<&F> = match &codec.graph {
            Some(f) => Some(f),
            None => None,
        };
        assert(opt_deref(graph) == codec.graph);
        let (state, indexes) = match load_write_state(
            storage,
            &manifest,
            &options,
            codec.magic.as_slice(),
            &codec.unseal,
            &codec.segment,
            graph,
            &codec.log,
        ) {
            Ok(loaded) => loaded,
            Err(error) => {
                return Err(error);
            },
        };
        assert(is_rebuilt(
            old(storage).files(),
            old(storage).files(),
            manifest,
            following_options(has_key, block_rows),
            *codec,
            failures_of(*storage),
            state@,
            indexes@,
        ));
        self.replace_manifest(manifest, version);
        let result = Ok(Some((state, indexes, version)));
        assert(result matches Ok(Some((rebuilt, graphs, v))) && is_rebuilt(
            old(storage).files(),
            old(storage).files(),
            self.manifest,
            following_options(has_key, block_rows),
            *codec,
            failures_of(*storage),
            rebuilt@,
            graphs@,
        ));
        result
    }
}

/// A log that was opened for writing is the file that the writer believes in, unless the last log
/// file has a name without a number: the next transaction is appended where the file ends.
pub proof fn opened_log_agrees<
    H: FsyncHook,
    W: Fn(Vec<u8>) -> LogFile,
    K: Fn(u32, Metric) -> Vec<u8>,
>(
    hook: Option<&H>,
    before: FileMap,
    after: FileMap,
    dimension: u32,
    metric: Metric,
    options: OpenOptions,
    read_log: W,
    encode_header: K,
    reliable: bool,
    writer: WriterModel,
    paths: Seq<String>,
    header: Option<WalHeader>,
    fresh: Vec<u8>,
    config: WalConfig,
)
    requires
        log_opened(
            hook,
            before,
            after,
            dimension,
            metric,
            options,
            read_log,
            encode_header,
            reliable,
            writer,
            paths,
            header,
            fresh,
            config,
        ),
        !options.read_only,
        paths.len() > 0 ==> wal_path_number(paths.last()@) is Some,
    ensures
        writer.agrees_with(after),
        paths.len() == 0 || wal_path_number(paths.last()@) != Some(u32::MAX) ==> writer.active_index
            < u32::MAX,
{
    assert(fresh@.len() == fresh.len());
    if paths.len() > 0 {
        let path = paths[paths.len() - 1]@;
        assert(is_wal_file(before, path));
        lemma_log_there(before, path);
        let name = choose|name: Seq<char>|
            crate::layout::is_wal_name(name) && #[trigger] dir_holds(before, WAL_DIR@, name) && path
                == crate::wal_writer::wal_rel(name);
        let head = WAL_DIR@ + "/"@;
        assert(path.take(head.len() as int) =~= head);
        assert(path.skip(head.len() as int) =~= name);
        wal_number_fixes_name(name);
        assert(wal_path(resumed_index(paths)) == path);
    }
}

/// Clearing up takes only what lies in the trash and what ends as a half written file does. Every
/// other file stays as it was.
pub proof fn clearing_up_spares_the_library(before: FileMap, after: FileMap, path: Seq<char>)
    requires
        only_residue_gone(before, after),
        !has_prefix(path, "trash/"@),
        !has_suffix(path, ".tmp"@),
    ensures
        after.dom().contains(path) <==> before.dom().contains(path),
        before.dom().contains(path) ==> after[path] == before[path],
{
    if before.dom().contains(path) && !after.dom().contains(path) {
        assert(is_residue(before, path));
        if picks(before, TRASH_DIR@, EveryName, path) {
            let name = choose|name: Seq<char>| #[trigger]
                dir_holds(before, TRASH_DIR@, name) && EveryName.holds(name) && path == dir_prefix(
                    TRASH_DIR@,
                ) + name;
            reveal_strlit("trash");
            reveal_strlit("/");
            reveal_strlit("trash/");
            assert(dir_prefix(TRASH_DIR@) =~= "trash/"@);
            assert(path.take("trash/"@.len() as int) =~= "trash/"@);
        } else if picks(before, SEGMENTS_DIR@, HalfWritten, path) {
            lemma_picked_suffix(before, SEGMENTS_DIR@, path);
        } else if picks(before, WAL_DIR@, HalfWritten, path) {
            lemma_picked_suffix(before, WAL_DIR@, path);
        } else {
            lemma_picked_suffix(before, Seq::empty(), path);
        }
    }
}

proof fn lemma_picked_suffix(files: FileMap, dir: Seq<char>, path: Seq<char>)
    requires
        picks(files, dir, HalfWritten, path),
    ensures
        has_suffix(path, ".tmp"@),
{
    let name = choose|name: Seq<char>| #[trigger]
        dir_holds(files, dir, name) && HalfWritten.holds(name) && path == dir_prefix(dir) + name;
    let end = ".tmp"@.len();
    assert(path.skip(path.len() - end) =~= name.skip(name.len() - end));
}

/// Clearing up takes everything that lies in the trash and every half written file of the segments,
/// of the log and of the root.
pub proof fn leftovers_are_cleared(
    before: FileMap,
    after: FileMap,
    name: Seq<char>,
)
    requires
        residue_gone(before, after),
        name.len() > 0,
        !name.contains('/'),
        name != ".."@,
    ensures
        !after.dom().contains("trash/"@ + name),
        has_suffix(name, ".tmp"@) ==> {
            &&& !after.dom().contains("segments/"@ + name)
            &&& !after.dom().contains("wal/"@ + name)
            &&& !after.dom().contains(name)
        },
{
    reveal_strlit("trash");
    reveal_strlit("segments");
    reveal_strlit("wal");
    reveal_strlit("/");
    reveal_strlit("trash/");
    reveal_strlit("segments/");
    reveal_strlit("wal/");
    assert(dir_prefix(TRASH_DIR@) =~= "trash/"@);
    assert(dir_prefix(SEGMENTS_DIR@) =~= "segments/"@);
    assert(dir_prefix(WAL_DIR@) =~= "wal/"@);
    let root = Seq::<char>::empty();
    assert(dir_prefix(root) + name =~= name);
    if after.dom().contains("trash/"@ + name) {
        assert(before.dom().contains("trash/"@ + name));
        assert(dir_holds(before, TRASH_DIR@, name));
        assert(is_residue(before, "trash/"@ + name));
    }
    if has_suffix(name, ".tmp"@) {
        if after.dom().contains("segments/"@ + name) {
            assert(before.dom().contains("segments/"@ + name));
            assert(dir_holds(before, SEGMENTS_DIR@, name));
            assert(is_residue(before, "segments/"@ + name));
        }
        if after.dom().contains("wal/"@ + name) {
            assert(before.dom().contains("wal/"@ + name));
            assert(dir_holds(before, WAL_DIR@, name));
            assert(is_residue(before, "wal/"@ + name));
        }
        if after.dom().contains(name) {
            assert(before.dom().contains(name));
            assert(dir_holds(before, root, name));
            assert(is_residue(before, name));
        }
    }
}

/// Sweeping takes from the segments exactly the segment files that the manifest does not refer to:
/// a file of a segment of the manifest stays, a segment file of another goes, and every other file
/// stays.
pub proof fn unreferenced_segments_are_swept(
    before: FileMap,
    after: FileMap,
    manifest: Manifest,
    file: SegmentFile,
    segment_id: u32,
    path: Seq<char>,
)
    requires
        unreferenced_gone(before, after, manifest),
    ensures
        (exists|i: int|
            0 <= i < manifest.segments@.len() && (#[trigger] manifest.segments@[i]).segment_id
                == segment_id) ==> same_at(before, after, segment_path(file, segment_id)),
        after.dom().contains(path) ==> before.dom().contains(path) && after[path] == before[path],
        before.dom().contains(path) && !has_prefix(path, "segments/"@) ==> after.dom().contains(
            path,
        ),
        before.dom().contains(path) && !has_suffix(path, ".vsec"@) && !has_suffix(path, ".msec"@)
            && !has_suffix(path, ".hidx"@) ==> after.dom().contains(path),
{
    let test = Unreferenced { manifest: &manifest };
    if exists|i: int|
        0 <= i < manifest.segments@.len() && (#[trigger] manifest.segments@[i]).segment_id
            == segment_id {
        let i = choose|i: int|
            0 <= i < manifest.segments@.len() && (#[trigger] manifest.segments@[i]).segment_id
                == segment_id;
        if before.dom().contains(segment_path(file, segment_id)) {
            referenced_files_stay(before, after, &manifest, i, file);
        }
    }
    if before.dom().contains(path) && !after.dom().contains(path) {
        let name = choose|name: Seq<char>| #[trigger]
            dir_holds(before, SEGMENTS_DIR@, name) && test.holds(name) && path == dir_prefix(
                SEGMENTS_DIR@,
            ) + name;
        reveal_strlit("segments");
        reveal_strlit("/");
        reveal_strlit("segments/");
        assert(dir_prefix(SEGMENTS_DIR@) =~= "segments/"@);
        assert(path.take("segments/"@.len() as int) =~= "segments/"@);
        lemma_suffix_of_path("segments/"@, name, ".vsec"@);
        lemma_suffix_of_path("segments/"@, name, ".msec"@);
        lemma_suffix_of_path("segments/"@, name, ".hidx"@);
    }
}

proof fn lemma_suffix_of_path(head: Seq<char>, name: Seq<char>, suffix: Seq<char>)
    ensures
        has_suffix(name, suffix) ==> has_suffix(head + name, suffix),
{
    if has_suffix(name, suffix) {
        let path = head + name;
        assert(path.skip(path.len() - suffix.len()) =~= name.skip(name.len() - suffix.len()));
    }
}

/// Following a library reads and changes nothing: the options for it ask for a reader that takes
/// the dimension and the metric of the library, and a reader clears nothing up and sweeps nothing.
pub proof fn followers_only_read(
    before: FileMap,
    after: FileMap,
    manifest: Manifest,
    has_key: bool,
    block_rows: usize,
)
    ensures
        ({
            let options = following_options(has_key, block_rows);
            &&& options.read_only
            &&& options.dimension is None
            &&& options.metric is None
            &&& options.has_key == has_key
            &&& options.block_rows == block_rows
            &&& !options.fail_fast_on_corruption
            &&& is_cleared(before, after, options.read_only) ==> after == before
            &&& is_swept(before, after, manifest, options.read_only) ==> after == before
        }),
{
}

/// A library that is opened is what was asked for: it writes exactly where it was not opened for
/// reading only, and its log has the dimension and the metric of the library and the limits and the
/// way of settling that were asked for.
pub proof fn opened_library_follows_its_options<
    H: FsyncHook,
    I,
    D: Fn(u64, Vec<u8>) -> Decoded,
    U: Fn(SegmentFile, u32, Vec<u8>) -> Result<Vec<u8>, MnemeError>,
    C: Fn(&SegmentHandle) -> DecodedSegment,
    F: Fn(&WriterState, &ByteFile, &Vec<IndexNode>, Option<QuantCopy>) -> Result<I, MnemeError>,
    W: Fn(Vec<u8>) -> LogFile,
    K: Fn(u32, Metric) -> Vec<u8>,
>(
    hook: Option<&H>,
    before: FileMap,
    cleared: FileMap,
    swept: FileMap,
    replayed: FileMap,
    after: FileMap,
    codec: Codec<D, U, C, F, W, K>,
    options: OpenOptions,
    reliable: bool,
    failures: FailureSet,
    store: Store,
    state: StateModel,
    indexes: Seq<SegmentIndex<I>>,
)
    requires
        session_opened(
            hook,
            before,
            cleared,
            swept,
            replayed,
            after,
            codec,
            options,
            reliable,
            failures,
            store,
            state,
            indexes,
        ),
    ensures
        store.read_only == options.read_only,
        store.wal@.writable == !options.read_only,
        !store.wal@.poisoned,
        store.dimension == store.manifest.dimension,
        store.metric == store.manifest.metric,
        store.wal@.dimension == store.manifest.dimension,
        store.wal@.metric == store.manifest.metric,
        store.wal@.policy == options.fsync,
        store.wal@.max_file_bytes == options.wal_file_bytes,
        store.wal@.frame_max == options.wal_frame_max,
        store.wal@.encrypts == options.has_key,
        options.dimension is Some ==> store.dimension == options.dimension->0,
        options.metric is Some ==> store.metric == options.metric->0,
        options.read_only ==> cleared == before && after == replayed,
{
}

/// A follower reads a library anew exactly where the file that names the version names a newer one
/// than the follower has.
pub proof fn newer_versions_are_noticed(files: FileMap, version: u64)
    ensures
        is_up_to_date(files, version) <==> !(files.dom().contains("current"@) && (version_named(
            files["current"@],
        ) matches Some(observed) && observed > version)),
{
}

/// A log that was written for another dimension or another metric is not written on: where the last
/// log file states a header, however it is read, and the log opens for writing, the header is that
/// of the library.
pub proof fn logs_of_another_library_are_refused<
    H: FsyncHook,
    W: Fn(Vec<u8>) -> LogFile,
    K: Fn(u32, Metric) -> Vec<u8>,
>(
    hook: Option<&H>,
    before: FileMap,
    after: FileMap,
    dimension: u32,
    metric: Metric,
    options: OpenOptions,
    read_log: W,
    encode_header: K,
    reliable: bool,
    writer: WriterModel,
    paths: Seq<String>,
    header: Option<WalHeader>,
    fresh: Vec<u8>,
    config: WalConfig,
    stated: WalHeader,
)
    requires
        log_opened(
            hook,
            before,
            after,
            dimension,
            metric,
            options,
            read_log,
            encode_header,
            reliable,
            writer,
            paths,
            header,
            fresh,
            config,
        ),
        !options.read_only,
        paths.len() > 0,
        forall|log: LogFile| #[trigger]
            reads_log(before, read_log, paths.last()@, log) ==> log.header == Some(stated),
    ensures
        stated.dimension == dimension,
        stated.metric == metric,
        after == before,
        writer.written == before[paths.last()@].len(),
{
    if header is Some {
        let log = choose|log: LogFile| #[trigger]
            reads_log(before, read_log, paths.last()@, log) && log.header == header;
        assert(log.header == Some(stated));
    } else {
        assert(may_state(before, read_log, paths.last()@, None));
        let log = choose|log: LogFile| #[trigger]
            reads_log(before, read_log, paths.last()@, log) && log.header == None::<WalHeader>;
        assert(log.header == Some(stated));
    }
}

} // verus!
