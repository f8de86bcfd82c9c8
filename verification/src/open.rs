//! What a library is opened with: the manifest that it has, or the one that it begins with.

use vstd::prelude::*;

use crate::cleanup::{segment_files, is_segment_name};
use crate::error::{corrupted, ConfigFault, Fault, Metric, MnemeError};
use crate::layout::{SEGMENTS_DIR, WAL_DIR};
use crate::manifest::{Manifest, ManifestView};
use crate::manifest_io::{
    all_unusable, is_blank, is_latest, load_manifest, load_reports, unreadable_fault, Decoded,
};
use crate::state::FIRST_CUSTOM_REL_KIND;
use crate::storage::{dir_holds, failures_of, given_by, FailureSet, FileMap, Storage};
use crate::wal::{WalHeader, WalImage};
use crate::wal_writer::{is_wal_file, lists_wal, wal_files, FsyncPolicy};

verus! {

/// What a library is opened with.
#[derive(Clone, Copy, Debug)]
pub struct OpenOptions {
    /// The dimension asked for; `None` for that of the library.
    pub dimension: Option<u32>,
    /// The metric asked for; `None` for that of the library.
    pub metric: Option<Metric>,
    pub fsync: FsyncPolicy,
    /// Whether the library is opened for reading only: it is not locked, and nothing is written.
    pub read_only: bool,
    /// Whether the payloads of the segments are checked.
    pub verify_on_open: bool,
    /// Whether a damaged segment keeps the library from opening. It is left out otherwise.
    pub fail_fast_on_corruption: bool,
    /// Length from which on a log file is followed by the next; 0 for no limit.
    pub wal_file_bytes: u64,
    /// Largest payload of a log frame; 0 for no limit.
    pub wal_frame_max: usize,
    /// Whether a new library leaves stop words out.
    pub stopwords: bool,
    /// Whether a key is at hand.
    pub has_key: bool,
    /// How many rows a block of the index regions has.
    pub block_rows: usize,
}

/// A log file that was read: its header, where it has a whole one, and its frames.
#[derive(Debug)]
pub struct LogFile {
    pub header: Option<WalHeader>,
    pub image: WalImage,
}

/// Whether `read_log` may make this of a log file.
pub open spec fn reads_log<W: Fn(Vec<u8>) -> LogFile>(
    files: FileMap,
    read_log: W,
    path: Seq<char>,
    log: LogFile,
) -> bool {
    files.dom().contains(path) && exists|raw: Vec<u8>|
        raw@ == files[path] && #[trigger] read_log.ensures((raw,), log)
}

/// Whether a log file holds a whole frame. A file that is damaged counts as holding none.
pub open spec fn has_frames(log: LogFile) -> bool {
    log.image.stop is None && log.image.frames@.len() > 0
}

/// Whether a log file may be read so that it holds a frame.
pub open spec fn may_hold_frames<W: Fn(Vec<u8>) -> LogFile>(
    files: FileMap,
    read_log: W,
    path: Seq<char>,
    holds: bool,
) -> bool {
    exists|log: LogFile| #[trigger]
        reads_log(files, read_log, path, log) && has_frames(log) == holds
}

/// Whether the log holds a whole frame. It tells a library that broke off at its first flush from
/// one that lost its manifest.
pub fn wal_has_frames<S: Storage, W: Fn(Vec<u8>) -> LogFile>(storage: &S, read_log: &W) -> (result:
    Result<bool, MnemeError>)
    requires
        storage.wf(),
        forall|raw: Vec<u8>| read_log.requires((raw,)),
    ensures
        result matches Ok(found) ==> if found {
            exists|path: Seq<char>|
                is_wal_file(storage.files(), path) && #[trigger] may_hold_frames(
                    storage.files(),
                    *read_log,
                    path,
                    true,
                )
        } else {
            forall|path: Seq<char>| #[trigger]
                is_wal_file(storage.files(), path) ==> may_hold_frames(
                    storage.files(),
                    *read_log,
                    path,
                    false,
                )
        },
        result matches Err(error) ==> given_by(failures_of(*storage), error),
{
    let paths = match wal_files(storage) {
        Ok(paths) => paths,
        Err(error) => {
            return Err(error);
        },
    };
    let ghost files = storage.files();
    let mut i: usize = 0;
    while i < paths.len()
        invariant
            storage.wf(),
            forall|raw: Vec<u8>| read_log.requires((raw,)),
            files == storage.files(),
            lists_wal(files, paths@),
            i <= paths@.len(),
            forall|k: int|
                0 <= k < i ==> may_hold_frames(files, *read_log, (#[trigger] paths@[k])@, false),
        decreases paths@.len() - i,
    {
        let path = &paths[i];
        proof {
            assert(is_wal_file(files, paths@[i as int]@));
            crate::wal_writer::lemma_wal_path_below(files, paths@, i as int);
            lemma_log_there(files, paths@[i as int]@);
        }
        let bytes = match storage.read_file(path.as_str()) {
            Ok(bytes) => bytes,
            Err(error) => {
                return Err(error);
            },
        };
        let ghost raw = bytes;
        let log = read_log(bytes);
        assert(reads_log(files, *read_log, path@, log)) by {
            assert(read_log.ensures((raw,), log));
        }
        let found: bool = log.image.stop.is_none() && log.image.frames.len() > 0;
        assert(may_hold_frames(files, *read_log, path@, found));
        if found {
            return Ok(true);
        }
        i = i + 1;
    }
    proof {
        assert forall|path: Seq<char>| #[trigger]
            is_wal_file(files, path) implies may_hold_frames(files, *read_log, path, false) by {
            lemma_listed(files, paths@, path);
            let k = choose|k: int| 0 <= k < paths@.len() && (#[trigger] paths@[k])@ == path;
            assert(may_hold_frames(files, *read_log, paths@[k]@, false));
        }
    }
    Ok(false)
}

/// A log file that is listed is there.
pub proof fn lemma_log_there(files: FileMap, path: Seq<char>)
    requires
        is_wal_file(files, path),
    ensures
        files.dom().contains(path),
{
    let name = choose|name: Seq<char>|
        crate::layout::is_wal_name(name) && #[trigger] dir_holds(files, WAL_DIR@, name) && path
            == crate::wal_writer::wal_rel(name);
    reveal_strlit("wal");
    assert(crate::storage::dir_prefix(WAL_DIR@) + name == path);
}

/// A log file that is there is listed.
proof fn lemma_listed(files: FileMap, paths: Seq<String>, path: Seq<char>)
    requires
        lists_wal(files, paths),
        is_wal_file(files, path),
    ensures
        exists|k: int| 0 <= k < paths.len() && (#[trigger] paths[k])@ == path,
{
    let name = choose|name: Seq<char>|
        crate::layout::is_wal_name(name) && #[trigger] dir_holds(files, WAL_DIR@, name) && path
            == crate::wal_writer::wal_rel(name);
    assert(crate::wal_writer::lists_path(paths, crate::wal_writer::wal_rel(name)));
}

/// Whether a log file may be read so that its header is this.
pub open spec fn may_state<W: Fn(Vec<u8>) -> LogFile>(
    files: FileMap,
    read_log: W,
    path: Seq<char>,
    header: Option<WalHeader>,
) -> bool {
    exists|log: LogFile| #[trigger] reads_log(files, read_log, path, log) && log.header == header
}

/// Whether this is the first whole header of the log.
pub open spec fn is_first_header<W: Fn(Vec<u8>) -> LogFile>(
    files: FileMap,
    read_log: W,
    paths: Seq<String>,
    reliable: bool,
    header: Option<WalHeader>,
) -> bool {
    match header {
        Some(_) => exists|i: int|
            0 <= i < paths.len() && may_state(files, read_log, (#[trigger] paths[i])@, header) && (
            reliable ==> forall|k: int|
                0 <= k < i ==> may_state(files, read_log, (#[trigger] paths[k])@, None)),
        None => reliable ==> forall|i: int|
            0 <= i < paths.len() ==> may_state(files, read_log, (#[trigger] paths[i])@, None),
    }
}

/// Finds the first whole header of the log. A file that cannot be read is passed over.
pub fn first_header<S: Storage, W: Fn(Vec<u8>) -> LogFile>(storage: &S, read_log: &W) -> (result:
    Result<Option<WalHeader>, MnemeError>)
    requires
        storage.wf(),
        forall|raw: Vec<u8>| read_log.requires((raw,)),
    ensures
        result matches Ok(header) ==> exists|paths: Seq<String>| #[trigger]
            lists_wal(storage.files(), paths) && is_first_header(
                storage.files(),
                *read_log,
                paths,
                storage.reliable(),
                header,
            ),
        result matches Err(error) ==> given_by(failures_of(*storage), error),
{
    let paths = match wal_files(storage) {
        Ok(paths) => paths,
        Err(error) => {
            return Err(error);
        },
    };
    let ghost files = storage.files();
    let mut i: usize = 0;
    while i < paths.len()
        invariant
            storage.wf(),
            forall|raw: Vec<u8>| read_log.requires((raw,)),
            files == storage.files(),
            lists_wal(files, paths@),
            i <= paths@.len(),
            storage.reliable() ==> forall|k: int|
                0 <= k < i ==> may_state(files, *read_log, (#[trigger] paths@[k])@, None),
        decreases paths@.len() - i,
    {
        let path = &paths[i];
        proof {
            assert(is_wal_file(files, paths@[i as int]@));
            crate::wal_writer::lemma_wal_path_below(files, paths@, i as int);
            lemma_log_there(files, paths@[i as int]@);
        }
        match storage.read_file(path.as_str()) {
            Ok(bytes) => {
                let ghost raw = bytes;
                let log = read_log(bytes);
                assert(reads_log(files, *read_log, path@, log)) by {
                    assert(read_log.ensures((raw,), log));
                }
                assert(may_state(files, *read_log, paths@[i as int]@, log.header));
                match log.header {
                    Some(header) => {
                        assert(is_first_header(
                            files,
                            *read_log,
                            paths@,
                            storage.reliable(),
                            Some(header),
                        ));
                        return Ok(Some(header));
                    },
                    None => {},
                }
            },
            Err(_) => {},
        }
        i = i + 1;
    }
    assert(is_first_header(files, *read_log, paths@, storage.reliable(), None));
    Ok(None)
}

/// The dimension of a new library: that of its log, which a request must not contradict; without a
/// log that of the request, which must then be made.
pub open spec fn dimension_outcome(
    requested: Option<u32>,
    header: Option<WalHeader>,
) -> Result<u32, MnemeError> {
    match (requested, header) {
        (None, None) => Err(MnemeError::Config { reason: ConfigFault::DimensionRequired }),
        (Some(dimension), None) => Ok(dimension),
        (Some(dimension), Some(h)) => if h.dimension != dimension {
            Err(
                MnemeError::DimensionMismatch { expected: h.dimension, got: dimension as usize },
            )
        } else {
            Ok(dimension)
        },
        (None, Some(h)) => Ok(h.dimension),
    }
}

/// Settles the dimension of a new library.
pub fn resolve_dimension(requested: Option<u32>, header: Option<WalHeader>) -> (result: Result<
    u32,
    MnemeError,
>)
    ensures
        result == dimension_outcome(requested, header),
{
    match (requested, header) {
        (None, None) => Err(MnemeError::Config { reason: ConfigFault::DimensionRequired }),
        (Some(dimension), None) => Ok(dimension),
        (Some(dimension), Some(h)) => {
            if h.dimension != dimension {
                Err(
                    MnemeError::DimensionMismatch {
                        expected: h.dimension,
                        got: dimension as usize,
                    },
                )
            } else {
                Ok(dimension)
            }
        },
        (None, Some(h)) => Ok(h.dimension),
    }
}

/// The metric of a new library: that of its log, which a request must not contradict; without a log
/// that of the request, or the cosine.
pub open spec fn metric_outcome(
    requested: Option<Metric>,
    header: Option<WalHeader>,
) -> Result<Metric, MnemeError> {
    match (requested, header) {
        (None, None) => Ok(Metric::Cosine),
        (Some(metric), None) => Ok(metric),
        (Some(metric), Some(h)) => if h.metric != metric {
            Err(MnemeError::MetricMismatch { existing: h.metric, requested: metric })
        } else {
            Ok(metric)
        },
        (None, Some(h)) => Ok(h.metric),
    }
}

/// Settles the metric of a new library.
pub fn resolve_metric(requested: Option<Metric>, header: Option<WalHeader>) -> (result: Result<
    Metric,
    MnemeError,
>)
    ensures
        result == metric_outcome(requested, header),
{
    match (requested, header) {
        (None, None) => Ok(Metric::Cosine),
        (Some(metric), None) => Ok(metric),
        (Some(metric), Some(h)) => {
            if h.metric != metric {
                Err(MnemeError::MetricMismatch { existing: h.metric, requested: metric })
            } else {
                Ok(metric)
            }
        },
        (None, Some(h)) => Ok(h.metric),
    }
}

/// What the identity of a library that is there makes of a request for another.
pub open spec fn identity_outcome(
    manifest: ManifestView,
    dimension: Option<u32>,
    metric: Option<Metric>,
) -> Result<(), MnemeError> {
    if dimension matches Some(d) && d != manifest.dimension {
        Err(
            MnemeError::DimensionMismatch {
                expected: manifest.dimension,
                got: dimension->Some_0 as usize,
            },
        )
    } else if metric matches Some(m) && m != manifest.metric {
        Err(
            MnemeError::MetricMismatch { existing: manifest.metric, requested: metric->Some_0 },
        )
    } else {
        Ok(())
    }
}

/// Rejects a request for another dimension or metric than those of the library.
pub fn verify_requested_identity(
    manifest: &Manifest,
    dimension: Option<u32>,
    metric: Option<Metric>,
) -> (result: Result<(), MnemeError>)
    ensures
        result == identity_outcome(manifest@, dimension, metric),
{
    match dimension {
        Some(dimension) => {
            if dimension != manifest.dimension {
                return Err(
                    MnemeError::DimensionMismatch {
                        expected: manifest.dimension,
                        got: dimension as usize,
                    },
                );
            }
        },
        None => {},
    }
    match metric {
        Some(metric) => {
            if metric != manifest.metric {
                return Err(
                    MnemeError::MetricMismatch { existing: manifest.metric, requested: metric },
                );
            }
        },
        None => {},
    }
    Ok(())
}

/// The manifest of a library that has nothing committed.
pub open spec fn first_manifest(dimension: u32, metric: Metric, stopwords: bool) -> ManifestView {
    ManifestView {
        dimension,
        metric,
        stopwords,
        next_rel_kind: FIRST_CUSTOM_REL_KIND,
        manifest_version: 0,
        watermark_seqno: 0,
        next_rowid: 0,
        next_segment_id: 0,
        next_ns_id: 1,
        namespaces: Seq::empty(),
        rel_kinds: Seq::empty(),
        segments: Seq::empty(),
    }
}

/// The manifest that a request and the first header of the log make.
pub open spec fn init_outcome(
    header: Option<WalHeader>,
    options: OpenOptions,
) -> Result<ManifestView, MnemeError> {
    match dimension_outcome(options.dimension, header) {
        Err(error) => Err(error),
        Ok(dimension) => match metric_outcome(options.metric, header) {
            Err(error) => Err(error),
            Ok(metric) => Ok(first_manifest(dimension, metric, options.stopwords)),
        },
    }
}

/// Puts the manifest of a library that has nothing committed together.
pub fn init_manifest(header: Option<WalHeader>, options: &OpenOptions) -> (result: Result<
    Manifest,
    MnemeError,
>)
    ensures
        match result {
            Ok(manifest) => init_outcome(header, *options) == Ok::<ManifestView, MnemeError>(
                manifest@,
            ),
            Err(error) => init_outcome(header, *options) == Err::<ManifestView, MnemeError>(error),
        },
{
    let dimension: u32 = match resolve_dimension(options.dimension, header) {
        Ok(dimension) => dimension,
        Err(error) => {
            return Err(error);
        },
    };
    let metric = match resolve_metric(options.metric, header) {
        Ok(metric) => metric,
        Err(error) => {
            return Err(error);
        },
    };
    let manifest = Manifest {
        dimension,
        metric,
        stopwords: options.stopwords,
        next_rel_kind: FIRST_CUSTOM_REL_KIND,
        manifest_version: 0,
        watermark_seqno: 0,
        next_rowid: 0,
        next_segment_id: 0,
        next_ns_id: 1,
        namespaces: Vec::new(),
        rel_kinds: Vec::new(),
        segments: Vec::new(),
    };
    assert(manifest@ =~= first_manifest(dimension, metric, options.stopwords));
    Ok(manifest)
}

/// Whether a segment file is there.
pub open spec fn has_segment_files(files: FileMap) -> bool {
    exists|name: Seq<char>| #[trigger]
        dir_holds(files, SEGMENTS_DIR@, name) && is_segment_name(name)
}

/// Whether segments are there without a manifest and without a log to rebuild them from.
pub open spec fn lost_manifest<W: Fn(Vec<u8>) -> LogFile>(files: FileMap, read_log: W) -> bool {
    has_segment_files(files) && forall|path: Seq<char>| #[trigger]
        is_wal_file(files, path) ==> may_hold_frames(files, read_log, path, false)
}

/// Whether segments are there and may be rebuilt from the log, or no segments are there.
pub open spec fn may_begin<W: Fn(Vec<u8>) -> LogFile>(files: FileMap, read_log: W) -> bool {
    !has_segment_files(files) || exists|path: Seq<char>|
        is_wal_file(files, path) && #[trigger] may_hold_frames(files, read_log, path, true)
}

/// What the manifest of a library that is opened has to do with its files.
pub open spec fn is_opened<D: Fn(u64, Vec<u8>) -> Decoded, W: Fn(Vec<u8>) -> LogFile>(
    files: FileMap,
    decode: D,
    read_log: W,
    options: OpenOptions,
    reliable: bool,
    manifest: Manifest,
    version: u64,
) -> bool {
    ||| is_latest(files, decode, manifest, version) && identity_outcome(
        manifest@,
        options.dimension,
        options.metric,
    ) is Ok
    ||| version == 0 && is_blank(files) && may_begin(files, read_log) && exists|
        paths: Seq<String>,
        header: Option<WalHeader>,
    |
        lists_wal(files, paths) && #[trigger] is_first_header(
            files,
            read_log,
            paths,
            reliable,
            header,
        ) && init_outcome(header, options) == Ok::<ManifestView, MnemeError>(manifest@)
}

/// What keeps a library from opening, as far as its manifest goes.
pub open spec fn is_refused<D: Fn(u64, Vec<u8>) -> Decoded, W: Fn(Vec<u8>) -> LogFile>(
    files: FileMap,
    decode: D,
    read_log: W,
    options: OpenOptions,
    reliable: bool,
    failures: FailureSet,
    error: MnemeError,
) -> bool {
    ||| given_by(failures, error)
    ||| load_reports(files, decode, error)
    ||| error == corrupted(unreadable_fault(files)) && all_unusable(files, decode)
    ||| exists|manifest: Manifest, version: u64| #[trigger]
        is_latest(files, decode, manifest, version) && identity_outcome(
            manifest@,
            options.dimension,
            options.metric,
        ) == Err::<(), MnemeError>(error)
    ||| error == corrupted(Fault::SegmentsWithoutManifest) && is_blank(files)
        && lost_manifest(files, read_log)
    ||| is_blank(files) && exists|
        paths: Seq<String>,
        header: Option<WalHeader>,
    |
        lists_wal(files, paths) && #[trigger] is_first_header(
            files,
            read_log,
            paths,
            reliable,
            header,
        ) && init_outcome(header, options) == Err::<ManifestView, MnemeError>(error)
}

/// Loads the manifest of a library, or begins one.
///
/// Without a manifest, segment files are what a first flush left behind, if the log can rebuild
/// them. If it cannot, the manifest was lost, and the library must not be taken for a new one.
pub fn load_or_init_manifest<
    S: Storage,
    D: Fn(u64, Vec<u8>) -> Decoded,
    W: Fn(Vec<u8>) -> LogFile,
>(storage: &S, options: &OpenOptions, decode: &D, read_log: &W) -> (result: Result<
    (Manifest, u64),
    MnemeError,
>)
    requires
        storage.wf(),
        forall|v: u64, raw: Vec<u8>| decode.requires((v, raw)),
        forall|raw: Vec<u8>| read_log.requires((raw,)),
    ensures
        match result {
            Ok((manifest, version)) => is_opened(
                storage.files(),
                *decode,
                *read_log,
                *options,
                storage.reliable(),
                manifest,
                version,
            ),
            Err(error) => is_refused(
                storage.files(),
                *decode,
                *read_log,
                *options,
                storage.reliable(),
                failures_of(*storage),
                error,
            ),
        },
{
    let loaded = match load_manifest(storage, decode) {
        Ok(loaded) => loaded,
        Err(error) => {
            return Err(error);
        },
    };
    match loaded {
        Some((manifest, version)) => {
            assert(is_latest(storage.files(), *decode, manifest, version));
            match verify_requested_identity(&manifest, options.dimension, options.metric) {
                Ok(()) => Ok((manifest, version)),
                Err(error) => Err(error),
            }
        },
        None => {
            let names = match segment_files(storage) {
                Ok(names) => names,
                Err(error) => {
                    return Err(error);
                },
            };
            let ghost files = storage.files();
            if names.len() > 0 {
                assert(has_segment_files(files)) by {
                    assert(dir_holds(files, SEGMENTS_DIR@, names@[0]@));
                }
                let rebuildable: bool = match wal_has_frames(storage, read_log) {
                    Ok(found) => found,
                    Err(error) => {
                        return Err(error);
                    },
                };
                if !rebuildable {
                    assert(lost_manifest(files, *read_log));
                    return Err(
                        MnemeError::Corrupted {
                            segment: None,
                            reason: Fault::SegmentsWithoutManifest,
                        },
                    );
                }
            } else {
                assert(!has_segment_files(files)) by {
                    if has_segment_files(files) {
                        let name = choose|name: Seq<char>| #[trigger]
                            dir_holds(files, SEGMENTS_DIR@, name) && is_segment_name(name);
                        let i = choose|i: int|
                            0 <= i < names@.len() && (#[trigger] names@[i])@ == name;
                    }
                }
            }
            assert(may_begin(files, *read_log));
            let header = match first_header(storage, read_log) {
                Ok(header) => header,
                Err(error) => {
                    return Err(error);
                },
            };
            match init_manifest(header, options) {
                Ok(manifest) => Ok((manifest, 0)),
                Err(error) => Err(error),
            }
        },
    }
}

/// A library that holds `current` or a manifest is never taken for a new one.
pub proof fn committed_library_is_not_begun_anew<
    D: Fn(u64, Vec<u8>) -> Decoded,
    W: Fn(Vec<u8>) -> LogFile,
>(
    files: FileMap,
    decode: D,
    read_log: W,
    options: OpenOptions,
    reliable: bool,
    manifest: Manifest,
    version: u64,
)
    requires
        !is_blank(files),
        is_opened(files, decode, read_log, options, reliable, manifest, version),
    ensures
        is_latest(files, decode, manifest, version),
{
}

/// A new library has the dimension and the metric that were asked for and those of its log: where
/// both are there, they agree, or the library is refused. Without either it has no dimension and is
/// refused, and its metric is the cosine. It holds nothing yet.
pub proof fn new_library_is_what_was_asked_for(header: Option<WalHeader>, options: OpenOptions)
    ensures
        init_outcome(header, options) is Ok <==> {
            &&& options.dimension is Some || header is Some
            &&& options.dimension is Some && header is Some ==> options.dimension->0
                == header->0.dimension
            &&& options.metric is Some && header is Some ==> options.metric->0 == header->0.metric
        },
        init_outcome(header, options) matches Ok(manifest) ==> {
            &&& options.dimension is Some ==> manifest.dimension == options.dimension->0
            &&& header is Some ==> manifest.dimension == header->0.dimension
            &&& options.metric is Some ==> manifest.metric == options.metric->0
            &&& header is Some ==> manifest.metric == header->0.metric
            &&& options.metric is None && header is None ==> manifest.metric == Metric::Cosine
            &&& manifest.stopwords == options.stopwords
            &&& manifest.manifest_version == 0
            &&& manifest.watermark_seqno == 0
            &&& manifest.next_rowid == 0
            &&& manifest.next_segment_id == 0
            &&& manifest.next_ns_id == 1
            &&& manifest.next_rel_kind == 16
            &&& manifest.segments.len() == 0
            &&& manifest.namespaces.len() == 0
            &&& manifest.rel_kinds.len() == 0
            &&& identity_outcome(manifest, options.dimension, options.metric) is Ok
        },
        options.dimension is None && header is None ==> init_outcome(header, options) == Err::<
            ManifestView,
            MnemeError,
        >(MnemeError::Config { reason: ConfigFault::DimensionRequired }),
        options.dimension is Some && header is Some && options.dimension->0 != header->0.dimension
            ==> init_outcome(header, options) == Err::<ManifestView, MnemeError>(
            MnemeError::DimensionMismatch {
                expected: header->0.dimension,
                got: options.dimension->0 as usize,
            },
        ),
{
}

/// A library opens for a request exactly where the request names no other dimension and no other
/// metric than its own; the refusal names what the library has and what was asked for.
pub proof fn another_identity_is_refused(
    manifest: ManifestView,
    dimension: Option<u32>,
    metric: Option<Metric>,
)
    ensures
        identity_outcome(manifest, dimension, metric) is Ok <==> (dimension is None || dimension->0
            == manifest.dimension) && (metric is None || metric->0 == manifest.metric),
        dimension is Some && dimension->0 != manifest.dimension ==> identity_outcome(
            manifest,
            dimension,
            metric,
        ) == Err::<(), MnemeError>(
            MnemeError::DimensionMismatch {
                expected: manifest.dimension,
                got: dimension->0 as usize,
            },
        ),
        metric is Some && metric->0 != manifest.metric && (dimension is None || dimension->0
            == manifest.dimension) ==> identity_outcome(manifest, dimension, metric) == Err::<
            (),
            MnemeError,
        >(MnemeError::MetricMismatch { existing: manifest.metric, requested: metric->0 }),
{
}

/// The identity of a new library comes from the first log file that states one: where the first
/// file states a header however it is read, that header is taken; where the first states none, and
/// the second does, that of the second.
pub proof fn first_stated_header_is_taken<W: Fn(Vec<u8>) -> LogFile>(
    files: FileMap,
    read_log: W,
    paths: Seq<String>,
    header: Option<WalHeader>,
    at: int,
    stated: WalHeader,
)
    requires
        is_first_header(files, read_log, paths, true, header),
        0 <= at < paths.len(),
        forall|log: LogFile| #[trigger]
            reads_log(files, read_log, paths[at]@, log) ==> log.header == Some(stated),
        forall|k: int, log: LogFile|
            0 <= k < at && #[trigger] reads_log(files, read_log, paths[k]@, log) ==> log.header
                is None,
    ensures
        header == Some(stated),
{
    if header is None {
        assert(may_state(files, read_log, paths[at]@, None));
        assert(false);
    } else {
        let i = choose|i: int|
            0 <= i < paths.len() && may_state(files, read_log, (#[trigger] paths[i])@, header) && (
            forall|k: int| 0 <= k < i ==> may_state(files, read_log, (#[trigger] paths[k])@, None));
        let log = choose|log: LogFile| #[trigger]
            reads_log(files, read_log, paths[i]@, log) && log.header == header;
        if at < i {
            assert(may_state(files, read_log, paths[at]@, None));
            let other = choose|other: LogFile| #[trigger]
                reads_log(files, read_log, paths[at]@, other) && other.header
                    == None::<WalHeader>;
            assert(other.header == Some(stated));
        }
    }
}

/// A log file vouches for what was written only where it is sound: one that is damaged, and one
/// without a frame, does not keep a library without a manifest from being refused.
pub proof fn damaged_logs_vouch_for_nothing<W: Fn(Vec<u8>) -> LogFile>(
    files: FileMap,
    read_log: W,
)
    requires
        has_segment_files(files),
        forall|path: Seq<char>, log: LogFile| #[trigger]
            reads_log(files, read_log, path, log) ==> log.image.stop is Some
                || log.image.frames@.len() == 0,
    ensures
        !may_begin(files, read_log),
{
}

} // verus!
