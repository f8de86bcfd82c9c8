//! The writer of the log.

use vstd::prelude::*;

use crate::error::{Feature, IoFault, LimitField, Metric, MnemeError};
use crate::hook::{
    ask_fsync, ask_write, fsync_passes, refuses_fsync, refuses_write, write_passes, FsyncHook,
};
use crate::layout::{
    is_wal_name, lemma_wal_paths_apart, library_paths_stay_below, named_path_stays_below, path_in,
    stays_below, wal_file, wal_name, wal_name_round_trip, wal_number, wal_number_of, wal_path,
    WAL_DIR,
};
use crate::order::{is_stable_order, stable_order, Ordered};
use crate::storage::{
    content_of, dir_holds, dir_prefix, failures_of, file_set, given_by, others_kept, same_at,
    still_settled, temporary_of, FailureSet, FileMap, PathSet, Step, Storage,
};
use crate::text::{
    after_prefix, before_suffix, has_prefix, is_digit, lemma_padded, lemma_text_order,
    lemma_text_transitive, padded, text_equal, text_less, text_lt,
};
use crate::wal::WalHeader;

verus! {

/// When the log is brought to stable storage.
#[derive(Clone, Copy, Debug, PartialEq, Eq, Structural)]
pub enum FsyncPolicy {
    /// At the end of every transaction.
    Always,
    /// At the end of every transaction, in groups of transactions.
    Batched(u64),
    /// When the system sees fit.
    Never,
}

/// What a log is opened with. The dimension and the metric are those of the manifest.
#[derive(Debug)]
pub struct WalConfig {
    pub dimension: u32,
    pub metric: Metric,
    /// The encoded file header for the dimension and the metric.
    pub header: Vec<u8>,
    pub policy: FsyncPolicy,
    /// Length from which on a file is followed by the next; 0 for no limit.
    pub max_file_bytes: u64,
    /// Whether the log is opened for reading only: nothing is created or written.
    pub read_only: bool,
    /// Whether payloads are sealed.
    pub encrypts: bool,
    /// Largest payload of a frame as it is written; 0 for no limit.
    pub frame_max: usize,
}

/// A frame as it is written.
#[derive(Debug)]
pub struct EncodedFrame {
    /// Length of its payload, sealed where payloads are sealed.
    pub payload_len: usize,
    pub bytes: Vec<u8>,
}

/// What a `WalWriter` holds.
#[verifier::ext_equal]
pub struct WriterModel {
    pub active_index: u32,
    /// Length of the active file.
    pub written: u64,
    /// Length of the files before it.
    pub sealed_bytes: u64,
    pub max_file_bytes: u64,
    pub policy: FsyncPolicy,
    pub dimension: u32,
    pub metric: Metric,
    pub header: Seq<u8>,
    pub encrypts: bool,
    pub frame_max: usize,
    pub writable: bool,
    /// Whether the writer was taken out of use: what its file holds is uncertain.
    pub poisoned: bool,
}

/// The writer of the log: one active file, to which frames are appended.
#[derive(Debug)]
pub struct WalWriter {
    active_index: u32,
    active_rel: String,
    written: u64,
    sealed_bytes: u64,
    max_file_bytes: u64,
    policy: FsyncPolicy,
    dimension: u32,
    metric: Metric,
    header: Vec<u8>,
    encrypts: bool,
    frame_max: usize,
    writable: bool,
    poisoned: bool,
}

impl View for WalWriter {
    type V = WriterModel;

    closed spec fn view(&self) -> WriterModel {
        WriterModel {
            active_index: self.active_index,
            written: self.written,
            sealed_bytes: self.sealed_bytes,
            max_file_bytes: self.max_file_bytes,
            policy: self.policy,
            dimension: self.dimension,
            metric: self.metric,
            header: self.header@,
            encrypts: self.encrypts,
            frame_max: self.frame_max,
            writable: self.writable,
            poisoned: self.poisoned,
        }
    }
}

impl WriterModel {
    /// The path of the active file.
    pub open spec fn active(self) -> Seq<char> {
        wal_path(self.active_index)
    }

    /// Why the writer refuses to write, where it does.
    pub open spec fn refusal(self) -> Option<MnemeError> {
        if self.poisoned {
            Some(MnemeError::Io(IoFault::WalDisabled))
        } else if !self.writable {
            Some(MnemeError::Unsupported { feature: Feature::ReadOnlyWrite })
        } else {
            None
        }
    }

    /// Why the writer refuses a frame with a payload of this length, where it does.
    pub open spec fn frame_refusal(self, payload_len: usize) -> Option<MnemeError> {
        if self.refusal() is Some {
            self.refusal()
        } else if self.frame_max > 0 && payload_len > self.frame_max {
            Some(
                MnemeError::LimitExceeded {
                    field: LimitField::WalFramePayload,
                    limit: self.frame_max,
                    got: payload_len,
                },
            )
        } else {
            None
        }
    }

    /// Whether the end of a transaction brings the file to stable storage.
    pub open spec fn syncs(self) -> bool {
        self.writable && self.policy !is Never
    }

    /// Whether the active file is due to be followed by the next.
    pub open spec fn rotation_due(self) -> bool {
        self.max_file_bytes != 0 && self.writable && self.written >= self.max_file_bytes
    }

    /// The writer after the active file was followed by the next, which holds a header.
    pub open spec fn rotated(self) -> WriterModel {
        WriterModel {
            active_index: next_index(self.active_index),
            written: self.header.len() as u64,
            sealed_bytes: capped_sum(self.sealed_bytes, self.written),
            poisoned: false,
            ..self
        }
    }

    /// Whether the file that the writer believes in is the file that is there.
    pub open spec fn agrees_with(self, files: FileMap) -> bool {
        files.dom().contains(self.active()) && files[self.active()].len() == self.written
    }
}

/// Whether a hook may let the header of the active file through and its way to stable storage.
pub open spec fn header_passes<H: FsyncHook>(hook: Option<&H>, writer: WriterModel) -> bool {
    write_passes(hook, writer.active(), 0, writer.header.len()) && fsync_passes(
        hook,
        writer.active(),
    )
}

/// Whether a hook may refuse the header of the active file, or else its way to stable storage, with
/// this error.
pub open spec fn header_refused<H: FsyncHook>(
    hook: Option<&H>,
    writer: WriterModel,
    error: MnemeError,
) -> bool {
    ||| refuses_write(hook, writer.active(), 0, writer.header.len(), error)
    ||| write_passes(hook, writer.active(), 0, writer.header.len()) && refuses_fsync(
        hook,
        writer.active(),
        error,
    )
}

/// Whether appending to a log file may fail with this error: the hook refuses it, or the backend
/// fails.
pub open spec fn write_refused<H: FsyncHook>(
    hook: Option<&H>,
    failures: FailureSet,
    path: Seq<char>,
    offset: u64,
    len: nat,
    error: MnemeError,
) -> bool {
    ||| refuses_write(hook, path, offset, len, error)
    ||| write_passes(hook, path, offset, len) && failures.contains((Step::Append, error))
}

/// Whether a hook may let the end of a transaction through: the way to stable storage, where the
/// policy asks for it, and the header of the next file, where that is due.
pub open spec fn sync_passes<H: FsyncHook>(hook: Option<&H>, writer: WriterModel) -> bool {
    &&& writer.syncs() ==> fsync_passes(hook, writer.active())
    &&& writer.rotation_due() ==> write_passes(
        hook,
        writer.rotated().active(),
        0,
        writer.header.len(),
    )
}

/// Whether the end of a transaction may fail with this error: the hook refuses it, or the backend
/// fails.
pub open spec fn sync_refused<H: FsyncHook>(
    hook: Option<&H>,
    failures: FailureSet,
    writer: WriterModel,
    error: MnemeError,
) -> bool {
    ||| writer.syncs() && (refuses_fsync(hook, writer.active(), error) || (fsync_passes(
        hook,
        writer.active(),
    ) && failures.contains((Step::Sync, error))))
    ||| (writer.syncs() ==> fsync_passes(hook, writer.active())) && writer.rotation_due()
        && file_refused(hook, failures, writer.rotated().active(), writer.header.len(), error)
}

/// Whether a log file may fail to begin with this error: the hook refuses its header, or the backend
/// fails to write it or to bring it to stable storage.
pub open spec fn file_refused<H: FsyncHook>(
    hook: Option<&H>,
    failures: FailureSet,
    path: Seq<char>,
    len: nat,
    error: MnemeError,
) -> bool {
    ||| refuses_write(hook, path, 0, len, error)
    ||| write_passes(hook, path, 0, len) && (failures.contains((Step::Write, error))
        || failures.contains((Step::Sync, error)))
}

/// The number after a file number; the largest has itself after it.
pub open spec fn next_index(index: u32) -> u32 {
    if index == u32::MAX {
        index
    } else {
        (index + 1) as u32
    }
}

/// A sum that stops at its maximum.
pub open spec fn capped_sum(a: u64, b: u64) -> u64 {
    if a + b > u64::MAX {
        u64::MAX
    } else {
        (a + b) as u64
    }
}

/// What a writer is put together from.
pub open spec fn assembled(
    index: u32,
    config: WalConfig,
    writable: bool,
    written: u64,
    sealed: u64,
) -> WriterModel {
    WriterModel {
        active_index: index,
        written,
        sealed_bytes: sealed,
        max_file_bytes: config.max_file_bytes,
        policy: config.policy,
        dimension: config.dimension,
        metric: config.metric,
        header: config.header@,
        encrypts: config.encrypts,
        frame_max: config.frame_max,
        writable,
        poisoned: false,
    }
}

/// The path of a name in the log directory.
pub open spec fn wal_rel(name: Seq<char>) -> Seq<char> {
    WAL_DIR@ + "/"@ + name
}

/// Whether a path leads into the log directory.
pub open spec fn in_log(path: Seq<char>) -> bool {
    has_prefix(path, WAL_DIR@ + "/"@)
}

/// Whether everything outside of the log directory is as it was.
pub open spec fn outside_log_kept(before: FileMap, after: FileMap) -> bool {
    forall|path: Seq<char>| !in_log(path) ==> #[trigger] same_at(before, after, path)
}

/// Whether everything outside of the log directory that was on stable storage still is.
pub open spec fn settled_outside_log(before: PathSet, after: PathSet) -> bool {
    forall|path: Seq<char>|
        !in_log(path) && before.contains(path) ==> #[trigger] after.contains(path)
}

/// Writing a log file takes nothing outside of the log directory back from stable storage.
pub proof fn lemma_settled_outside_log(before: PathSet, after: PathSet, index: u32)
    requires
        still_settled(before, after, wal_path(index)),
    ensures
        settled_outside_log(before, after),
{
    let head = WAL_DIR@ + "/"@;
    let path = wal_path(index);
    assert(path.take(head.len() as int) =~= head);
    assert(temporary_of(path).take(head.len() as int) =~= head);
}

/// Writing a log file leaves everything outside of the log directory alone.
pub proof fn lemma_outside_log(before: FileMap, after: FileMap, index: u32)
    requires
        others_kept(before, after, wal_path(index)),
    ensures
        outside_log_kept(before, after),
{
    let head = WAL_DIR@ + "/"@;
    let path = wal_path(index);
    assert(path.take(head.len() as int) =~= head);
    assert(temporary_of(path).take(head.len() as int) =~= head);
}

/// Two steps that leave everything outside of the log directory alone do so together.
pub proof fn lemma_outside_log_twice(a: FileMap, b: FileMap, c: FileMap)
    requires
        outside_log_kept(a, b),
        outside_log_kept(b, c),
    ensures
        outside_log_kept(a, c),
{
    assert forall|path: Seq<char>| !in_log(path) implies #[trigger] same_at(a, c, path) by {
        assert(same_at(a, b, path));
        assert(same_at(b, c, path));
    }
}

/// Whether a path is that of a log file that is there.
pub open spec fn is_wal_file(files: FileMap, path: Seq<char>) -> bool {
    exists|name: Seq<char>|
        is_wal_name(name) && #[trigger] dir_holds(files, WAL_DIR@, name) && path == wal_rel(name)
}

/// Whether a list of paths holds a path.
pub open spec fn lists_path(paths: Seq<String>, path: Seq<char>) -> bool {
    exists|i: int| 0 <= i < paths.len() && (#[trigger] paths[i])@ == path
}

/// Where a log file stands among the others: a file without a number comes before those with one.
pub open spec fn wal_rank(path: Seq<char>) -> int {
    match wal_path_number(path) {
        Some(index) => index + 1,
        None => 0,
    }
}

/// Whether a log file comes before another: its number is lower; or neither has a number, and its
/// path is lower.
pub open spec fn wal_before(a: Seq<char>, b: Seq<char>) -> bool {
    wal_rank(a) < wal_rank(b) || (wal_rank(a) == wal_rank(b) && text_lt(a, b))
}

/// A log file with its rank.
#[derive(Debug)]
struct RankedPath {
    rank: u64,
    path: String,
}

impl Ordered for RankedPath {
    closed spec fn leq(&self, other: &Self) -> bool {
        self.rank < other.rank || (self.rank == other.rank && !text_lt(other.path@, self.path@))
    }

    proof fn leq_total(a: &Self, b: &Self) {
        lemma_text_order(a.path@, b.path@);
    }

    proof fn leq_transitive(a: &Self, b: &Self, c: &Self) {
        if a.rank == b.rank && b.rank == c.rank {
            lemma_text_transitive(a.path@, b.path@, c.path@);
        }
    }

    fn at_most(&self, other: &Self) -> (result: bool) {
        self.rank < other.rank || (self.rank == other.rank && !text_less(
            other.path.as_str(),
            self.path.as_str(),
        ))
    }
}

/// Whether `paths` lists the log files of a library, in ascending order of their numbers.
pub open spec fn lists_wal(files: FileMap, paths: Seq<String>) -> bool {
    &&& forall|i: int| 0 <= i < paths.len() ==> is_wal_file(files, (#[trigger] paths[i])@)
    &&& forall|i: int, j: int|
        0 <= i < j < paths.len() ==> wal_before((#[trigger] paths[i])@, (#[trigger] paths[j])@)
    &&& forall|name: Seq<char>|
        is_wal_name(name) && #[trigger] dir_holds(files, WAL_DIR@, name) ==> lists_path(
            paths,
            wal_rel(name),
        )
}

/// Whether a path is that of one of the names.
spec fn comes_from(names: Seq<String>, path: Seq<char>) -> bool {
    exists|n: int|
        0 <= n < names.len() && is_wal_name((#[trigger] names[n])@) && path == wal_rel(names[n]@)
}

/// Whether no text occurs twice.
spec fn texts_differ(texts: Seq<String>) -> bool {
    forall|a: int, b: int|
        0 <= a < b < texts.len() ==> (#[trigger] texts[a])@ != (#[trigger] texts[b])@
}

/// The log files among the names of a directory, by their paths.
fn wal_paths(names: &Vec<String>) -> (paths: Vec<String>)
    ensures
        forall|i: int| 0 <= i < paths@.len() ==> comes_from(names@, (#[trigger] paths@[i])@),
        forall|n: int|
            0 <= n < names@.len() && is_wal_name((#[trigger] names@[n])@) ==> lists_path(
                paths@,
                wal_rel(names@[n]@),
            ),
        texts_differ(names@) ==> texts_differ(paths@),
{
    let mut paths: Vec<String> = Vec::new();
    let ghost mut from: Seq<int> = Seq::empty();
    let mut n: usize = 0;
    while n < names.len()
        invariant
            n <= names@.len(),
            from.len() == paths@.len(),
            forall|i: int|
                0 <= i < paths@.len() ==> 0 <= #[trigger] from[i] < n && is_wal_name(
                    names@[from[i]]@,
                ) && paths@[i]@ == wal_rel(names@[from[i]]@),
            forall|i: int, j: int| 0 <= i < j < from.len()
                ==> #[trigger] from[i] < #[trigger] from[j],
            forall|m: int|
                0 <= m < n && is_wal_name((#[trigger] names@[m])@) ==> lists_path(
                    paths@,
                    wal_rel(names@[m]@),
                ),
        decreases names@.len() - n,
    {
        let name = &names[n];
        let ghost before = paths@;
        let begins: bool = after_prefix(name.as_str(), "wal_").is_some();
        let ends: bool = before_suffix(name.as_str(), ".log").is_some();
        if begins && ends {
            paths.push(path_in(WAL_DIR, name.as_str()));
            proof {
                from = from.push(n as int);
            }
            assert(paths@[paths@.len() - 1]@ == wal_rel(names@[n as int]@));
        }
        proof {
            assert forall|m: int| 0 <= m < n + 1 && is_wal_name((#[trigger] names@[m])@) implies
                lists_path(paths@, wal_rel(names@[m]@)) by {
                if m < n {
                    let i = choose|i: int|
                        0 <= i < before.len() && (#[trigger] before[i])@ == wal_rel(names@[m]@);
                    assert(paths@[i] == before[i]);
                }
            }
        }
        n = n + 1;
    }
    proof {
        assert forall|i: int| 0 <= i < paths@.len() implies comes_from(
            names@,
            (#[trigger] paths@[i])@,
        ) by {
            assert(is_wal_name(names@[from[i]]@));
        }
        if texts_differ(names@) {
            assert forall|a: int, b: int| 0 <= a < b < paths@.len() implies (
            #[trigger] paths@[a])@ != (#[trigger] paths@[b])@ by {
                assert(from[a] < from[b]);
                lemma_wal_rel_differs(names@[from[a]]@, names@[from[b]]@);
            }
        }
    }
    paths
}

proof fn lemma_wal_rel_differs(a: Seq<char>, b: Seq<char>)
    requires
        a != b,
    ensures
        wal_rel(a) != wal_rel(b),
{
    let head = WAL_DIR@ + "/"@;
    assert(wal_rel(a).skip(head.len() as int) =~= a);
    assert(wal_rel(b).skip(head.len() as int) =~= b);
}

/// Ranks log files.
fn ranked_paths(paths: Vec<String>) -> (ranked: Vec<RankedPath>)
    ensures
        ranked@.len() == paths@.len(),
        forall|i: int|
            0 <= i < paths@.len() ==> (#[trigger] ranked@[i]).path@ == paths@[i]@ && ranked@[i].rank
                == wal_rank(paths@[i]@),
{
    let mut ranked: Vec<RankedPath> = Vec::new();
    let mut i: usize = 0;
    while i < paths.len()
        invariant
            i <= paths@.len(),
            ranked@.len() == i,
            forall|k: int|
                0 <= k < i ==> (#[trigger] ranked@[k]).path@ == paths@[k]@ && ranked@[k].rank
                    == wal_rank(paths@[k]@),
        decreases paths@.len() - i,
    {
        let rank: u64 = match index_of_path(paths[i].as_str()) {
            Some(index) => index as u64 + 1,
            None => 0,
        };
        ranked.push(RankedPath { rank, path: paths[i].clone() });
        i = i + 1;
    }
    ranked
}

/// Lists the log files in ascending order of their numbers.
pub fn wal_files<S: Storage>(storage: &S) -> (result: Result<Vec<String>, MnemeError>)
    requires
        storage.wf(),
    ensures
        result matches Ok(paths) ==> lists_wal(storage.files(), paths@),
        result matches Err(error) ==> given_by(failures_of(*storage), error),
{
    proof {
        library_paths_stay_below(crate::error::SegmentFile::Vsec, 0, 0, 0);
    }
    let names = match storage.list_dir(WAL_DIR) {
        Ok(names) => names,
        Err(error) => {
            return Err(error);
        },
    };
    let found = wal_paths(&names);
    assert(texts_differ(names@));
    let ghost listed = found@;
    let ranked = ranked_paths(found);
    let order = stable_order(&ranked);
    let mut paths: Vec<String> = Vec::new();
    let mut i: usize = 0;
    while i < order.len()
        invariant
            i <= order@.len(),
            is_stable_order(ranked@, order@),
            listed.len() == ranked@.len(),
            forall|k: int| 0 <= k < listed.len() ==> (#[trigger] ranked@[k]).path@ == listed[k]@,
            paths@.len() == i,
            forall|k: int| 0 <= k < i ==> (#[trigger] paths@[k])@ == listed[order@[k] as int]@,
        decreases order@.len() - i,
    {
        paths.push(ranked[order[i]].path.clone());
        i = i + 1;
    }
    proof {
        let files = storage.files();
        assert forall|i: int| 0 <= i < paths@.len() implies is_wal_file(
            files,
            (#[trigger] paths@[i])@,
        ) by {
            let p = order@[i] as int;
            assert(comes_from(names@, listed[p]@));
            let n = choose|n: int|
                0 <= n < names@.len() && is_wal_name((#[trigger] names@[n])@) && listed[p]@
                    == wal_rel(names@[n]@);
            assert(dir_holds(files, WAL_DIR@, names@[n]@));
        }
        assert forall|i: int, j: int| 0 <= i < j < paths@.len() implies wal_before(
            (#[trigger] paths@[i])@,
            (#[trigger] paths@[j])@,
        ) by {
            let p = order@[i] as int;
            let q = order@[j] as int;
            assert(crate::order::comes_before(ranked@, p, q));
            assert(listed[p]@ != listed[q]@) by {
                if p < q {
                    assert(listed[p]@ != listed[q]@);
                } else {
                    assert(listed[q]@ != listed[p]@);
                }
            }
            lemma_text_order(listed[p]@, listed[q]@);
        }
        assert forall|name: Seq<char>|
            is_wal_name(name) && #[trigger] dir_holds(files, WAL_DIR@, name) implies lists_path(
            paths@,
            wal_rel(name),
        ) by {
            let n = choose|n: int| 0 <= n < names@.len() && (#[trigger] names@[n])@ == name;
            assert(lists_path(listed, wal_rel(names@[n]@)));
            let p = choose|p: int|
                0 <= p < listed.len() && (#[trigger] listed[p])@ == wal_rel(names@[n]@);
            crate::order::stable_order_covers(ranked@, order@, p);
            let i = choose|i: int| 0 <= i < order@.len() && #[trigger] order@[i] == p;
            assert(paths@[i]@ == wal_rel(name));
        }
    }
    Ok(paths)
}

/// The last component of a log path.
pub open spec fn name_in_wal_dir(path: Seq<char>) -> Seq<char> {
    if has_prefix(path, WAL_DIR@ + "/"@) {
        path.skip((WAL_DIR@ + "/"@).len() as int)
    } else {
        path
    }
}

/// The number of the file at a log path.
pub open spec fn wal_path_number(path: Seq<char>) -> Option<u32> {
    wal_number_of(name_in_wal_dir(path))
}

/// Reads the number out of a log path.
fn index_of_path(path: &str) -> (index: Option<u32>)
    ensures
        index == wal_path_number(path@),
{
    let dir = path_in(WAL_DIR, "");
    proof {
        reveal_strlit("");
        assert(dir@ =~= WAL_DIR@ + "/"@);
    }
    match after_prefix(path, dir.as_str()) {
        Some(name) => wal_number(name),
        None => wal_number(path),
    }
}

/// The lengths of the first `count` files together, leaving out one path.
pub open spec fn lengths_sum(files: FileMap, paths: Seq<String>, count: nat, skip: Seq<char>) -> u64
    decreases count,
{
    if count == 0 {
        0
    } else {
        let before = lengths_sum(files, paths, (count - 1) as nat, skip);
        let path = paths[count - 1]@;
        if path == skip || !files.dom().contains(path) {
            before
        } else {
            capped_sum(before, files[path].len() as u64)
        }
    }
}

/// Whether every path stays below the root.
pub open spec fn paths_stay_below(paths: Seq<String>) -> bool {
    forall|i: int| 0 <= i < paths.len() ==> stays_below((#[trigger] paths[i])@)
}

/// Adds the lengths of files up, leaving out one path and the files whose length cannot be had.
fn sum_lengths<S: Storage>(storage: &S, paths: &Vec<String>, skip: &str) -> (total: u64)
    requires
        storage.wf(),
    ensures
        total <= lengths_sum(storage.files(), paths@, paths@.len(), skip@),
        storage.reliable() && paths_stay_below(paths@) ==> total == lengths_sum(
            storage.files(),
            paths@,
            paths@.len(),
            skip@,
        ),
{
    let mut total: u64 = 0;
    let mut i: usize = 0;
    while i < paths.len()
        invariant
            storage.wf(),
            i <= paths@.len(),
            total <= lengths_sum(storage.files(), paths@, i as nat, skip@),
            storage.reliable() && paths_stay_below(paths@) ==> total == lengths_sum(
                storage.files(),
                paths@,
                i as nat,
                skip@,
            ),
        decreases paths@.len() - i,
    {
        let path = &paths[i];
        if !text_equal(path.as_str(), skip) {
            match storage.stat(path.as_str()) {
                Ok(meta) => {
                    total = total.saturating_add(meta.len);
                },
                Err(_) => {},
            }
        }
        i = i + 1;
    }
    total
}

/// The log file that a writer goes on with.
pub open spec fn last_path(paths: Seq<String>) -> Option<Seq<char>> {
    if paths.len() == 0 {
        None
    } else {
        Some(paths.last()@)
    }
}

impl WalWriter {
    /// The invariant of the writer: it names its active file by its number, and a writer is taken
    /// out of use only if it could write.
    pub closed spec fn wf(&self) -> bool {
        &&& self.active_rel@ == wal_path(self.active_index)
        &&& self.header@.len() <= usize::MAX
        &&& self.poisoned ==> self.writable
    }

    /// A header fits into memory.
    pub proof fn lemma_header(&self)
        requires
            self.wf(),
        ensures
            self@.header.len() <= usize::MAX,
    {
    }

    /// Puts a writer together.
    pub fn from_parts(
        active_index: u32,
        config: WalConfig,
        writable: bool,
        written: u64,
        sealed: u64,
    ) -> (writer: Self)
        ensures
            writer.wf(),
            writer@ == assembled(active_index, config, writable, written, sealed),
    {
        assert(config.header@.len() == config.header.len());
        WalWriter {
            active_index,
            active_rel: wal_name(active_index),
            written,
            sealed_bytes: sealed,
            max_file_bytes: config.max_file_bytes,
            policy: config.policy,
            dimension: config.dimension,
            metric: config.metric,
            header: config.header,
            encrypts: config.encrypts,
            frame_max: config.frame_max,
            writable,
            poisoned: false,
        }
    }

    /// The path of the active file.
    pub fn active_rel(&self) -> (path: &str)
        requires
            self.wf(),
        ensures
            path@ == self@.active(),
    {
        self.active_rel.as_str()
    }

    /// The number of the active file.
    pub fn active_index(&self) -> (index: u32)
        ensures
            index == self@.active_index,
    {
        self.active_index
    }

    /// Whether payloads are sealed.
    pub fn encrypts(&self) -> (encrypts: bool)
        ensures
            encrypts == self@.encrypts,
    {
        self.encrypts
    }

    /// The length of all log files.
    pub fn total_bytes(&self) -> (total: u64)
        ensures
            total == capped_sum(self@.sealed_bytes, self@.written),
    {
        self.sealed_bytes.saturating_add(self.written)
    }

    /// The length of the active file.
    pub fn len(&self) -> (len: u64)
        ensures
            len == self@.written,
    {
        self.written
    }

    /// Refuses to write where the writer was taken out of use or is read-only.
    pub fn ensure_writable(&self) -> (result: Result<(), MnemeError>)
        ensures
            match self@.refusal() {
                Some(error) => result == Err::<(), MnemeError>(error),
                None => result is Ok,
            },
    {
        if self.poisoned {
            return Err(MnemeError::Io(IoFault::WalDisabled));
        }
        if !self.writable {
            return Err(MnemeError::Unsupported { feature: Feature::ReadOnlyWrite });
        }
        Ok(())
    }

    /// Appends a frame to the active file. A frame that is refused is not written, and the writer
    /// stays as it was.
    pub fn append<S: Storage, H: FsyncHook>(
        &mut self,
        storage: &mut S,
        hook: Option<&H>,
        frame: &EncodedFrame,
    ) -> (result: Result<(), MnemeError>)
        requires
            old(self).wf(),
            old(storage).wf(),
        ensures
            final(self).wf(),
            final(storage).wf(),
            final(storage).reliable() == old(storage).reliable(),
            final(storage).cuts() == old(storage).cuts(),
            final(storage).failures() == old(storage).failures(),
            final(storage).locked() == old(storage).locked(),
            others_kept(old(storage).files(), final(storage).files(), old(self)@.active()),
            still_settled(old(storage).settled(), final(storage).settled(), old(self)@.active()),
            old(self)@.frame_refusal(frame.payload_len) matches Some(error) ==> result == Err::<
                (),
                MnemeError,
            >(error) && final(storage).files() == old(storage).files(),
            result is Err ==> final(self)@ == old(self)@,
            result is Err ==> content_of(
                old(storage).files(),
                old(self)@.active(),
            ).is_prefix_of(content_of(final(storage).files(), old(self)@.active())),
            result is Err ==> (old(storage).files().dom().contains(old(self)@.active())
                ==> final(storage).files().dom().contains(old(self)@.active())),
            result is Ok ==> file_set(
                old(storage).files(),
                final(storage).files(),
                old(self)@.active(),
                content_of(old(storage).files(), old(self)@.active()) + frame.bytes@,
            ) && final(self)@ == (WriterModel {
                written: (content_of(old(storage).files(), old(self)@.active()).len()
                    + frame.bytes@.len()) as u64,
                ..old(self)@
            }),
            result is Ok ==> content_of(old(storage).files(), old(self)@.active()).len()
                + frame.bytes@.len() <= u64::MAX,
            old(self)@.frame_refusal(frame.payload_len) is None && hook is None
                && old(storage).reliable() ==> result is Ok,
            old(self)@.frame_refusal(frame.payload_len) is None ==> (result matches Err(error)
                ==> write_refused(
                hook,
                failures_of(*old(storage)),
                old(self)@.active(),
                old(self)@.written,
                frame.bytes@.len(),
                error,
            )),
            old(storage).reliable() && result is Err ==> final(storage).files()
                == old(storage).files(),
            result is Ok ==> old(self)@.frame_refusal(frame.payload_len) is None && write_passes(
                hook,
                old(self)@.active(),
                old(self)@.written,
                frame.bytes@.len(),
            ),
    {
        proof {
            library_paths_stay_below(
                crate::error::SegmentFile::Vsec,
                0,
                self.active_index,
                0,
            );
        }
        match self.ensure_writable() {
            Ok(()) => {},
            Err(error) => {
                return Err(error);
            },
        }
        if self.frame_max > 0 && frame.payload_len > self.frame_max {
            return Err(
                MnemeError::LimitExceeded {
                    field: LimitField::WalFramePayload,
                    limit: self.frame_max,
                    got: frame.payload_len,
                },
            );
        }
        match ask_write(hook, self.active_rel.as_str(), self.written, frame.bytes.len()) {
            Ok(()) => {},
            Err(error) => {
                return Err(error);
            },
        }
        match storage.append(self.active_rel.as_str(), frame.bytes.as_slice()) {
            Ok(len) => {
                self.written = len;
                Ok(())
            },
            Err(error) => Err(error),
        }
    }

    /// Brings the active file to stable storage, where the policy asks for it, and goes on to the
    /// next file where the active one is long enough. Called once per transaction, so that no
    /// transaction spans two files. A read-only writer refuses.
    pub fn sync<S: Storage, H: FsyncHook>(&mut self, storage: &mut S, hook: Option<&H>) -> (result:
        Result<(), MnemeError>)
        requires
            old(self).wf(),
            old(storage).wf(),
        ensures
            final(self).wf(),
            final(storage).wf(),
            final(storage).reliable() == old(storage).reliable(),
            final(storage).cuts() == old(storage).cuts(),
            final(storage).failures() == old(storage).failures(),
            final(storage).locked() == old(storage).locked(),
            result is Err ==> final(self)@ == old(self)@,
            !old(self)@.writable ==> result == Err::<(), MnemeError>(
                MnemeError::Unsupported { feature: Feature::ReadOnlyWrite },
            ) && final(storage).settled() == old(storage).settled(),
            result is Ok && !old(self)@.rotation_due() ==> final(self)@ == old(self)@,
            result is Ok && old(self)@.rotation_due() ==> final(self)@ == old(self)@.rotated(),
            !old(self)@.rotation_due() ==> final(storage).files() == old(storage).files(),
            old(self)@.rotation_due() ==> others_kept(
                old(storage).files(),
                final(storage).files(),
                old(self)@.rotated().active(),
            ),
            result is Ok && old(self)@.rotation_due() ==> file_set(
                old(storage).files(),
                final(storage).files(),
                old(self)@.rotated().active(),
                old(self)@.header,
            ),
            settled_outside_log(old(storage).settled(), final(storage).settled()),
            result is Ok && old(self)@.syncs() && old(self)@.active_index < u32::MAX
                ==> final(storage).settled().contains(old(self)@.active()),
            old(self)@.writable && hook is None && old(storage).reliable() ==> result is Ok,
            old(self)@.writable ==> (result matches Err(error) ==> sync_refused(
                hook,
                failures_of(*old(storage)),
                old(self)@,
                error,
            )),
            result is Ok ==> sync_passes(hook, old(self)@),
    {
        if !self.writable {
            return Err(MnemeError::Unsupported { feature: Feature::ReadOnlyWrite });
        }
        let ghost model = self@;
        let due: bool = match self.policy {
            FsyncPolicy::Never => false,
            _ => true,
        };
        if due {
            match ask_fsync(hook, self.active_rel.as_str()) {
                Ok(()) => {},
                Err(error) => {
                    return Err(error);
                },
            }
            match storage.sync(self.active_rel.as_str()) {
                Ok(()) => {},
                Err(error) => {
                    return Err(error);
                },
            }
        }
        let ghost middle = storage.settled();
        let result = self.rotate_if_needed(storage, hook);
        proof {
            if model.rotation_due() {
                lemma_settled_outside_log(
                    middle,
                    storage.settled(),
                    model.rotated().active_index,
                );
                lemma_wal_paths_apart(model.active_index, model.rotated().active_index);
            }
        }
        result
    }

    /// Goes on to the next file where the active one is long enough.
    pub fn rotate_if_needed<S: Storage, H: FsyncHook>(
        &mut self,
        storage: &mut S,
        hook: Option<&H>,
    ) -> (result: Result<(), MnemeError>)
        requires
            old(self).wf(),
            old(storage).wf(),
        ensures
            final(self).wf(),
            final(storage).wf(),
            final(storage).reliable() == old(storage).reliable(),
            final(storage).cuts() == old(storage).cuts(),
            final(storage).failures() == old(storage).failures(),
            final(storage).locked() == old(storage).locked(),
            result is Err ==> final(self)@ == old(self)@,
            result is Ok && !old(self)@.rotation_due() ==> final(self)@ == old(self)@,
            result is Ok && old(self)@.rotation_due() ==> final(self)@ == old(self)@.rotated(),
            !old(self)@.rotation_due() ==> final(storage).files() == old(storage).files(),
            old(self)@.rotation_due() ==> others_kept(
                old(storage).files(),
                final(storage).files(),
                old(self)@.rotated().active(),
            ),
            result is Ok && old(self)@.rotation_due() ==> file_set(
                old(storage).files(),
                final(storage).files(),
                old(self)@.rotated().active(),
                old(self)@.header,
            ),
            !old(self)@.rotation_due() ==> final(storage).settled() == old(storage).settled(),
            old(self)@.rotation_due() ==> still_settled(
                old(storage).settled(),
                final(storage).settled(),
                old(self)@.rotated().active(),
            ),
            result is Ok && old(self)@.rotation_due() ==> final(storage).settled().contains(
                old(self)@.rotated().active(),
            ),
            hook is None && old(storage).reliable() ==> result is Ok,
            result matches Err(error) ==> old(self)@.rotation_due() && file_refused(
                hook,
                failures_of(*old(storage)),
                old(self)@.rotated().active(),
                old(self)@.header.len(),
                error,
            ),
            result is Ok && old(self)@.rotation_due() ==> write_passes(
                hook,
                old(self)@.rotated().active(),
                0,
                old(self)@.header.len(),
            ),
    {
        if self.max_file_bytes == 0 || !self.writable {
            return Ok(());
        }
        if self.written < self.max_file_bytes {
            return Ok(());
        }
        let next: u32 = self.active_index.saturating_add(1);
        let config = WalConfig {
            dimension: self.dimension,
            metric: self.metric,
            header: vstd::slice::slice_to_vec(self.header.as_slice()),
            policy: self.policy,
            max_file_bytes: self.max_file_bytes,
            read_only: false,
            encrypts: self.encrypts,
            frame_max: self.frame_max,
        };
        match create_truncating(storage, hook, next, config) {
            Ok(writer) => {
                let sealed: u64 = self.sealed_bytes.saturating_add(self.written);
                *self = writer;
                self.sealed_bytes = sealed;
                Ok(())
            },
            Err(error) => Err(error),
        }
    }

    /// Cuts the active file back to `len` bytes, to take back a transaction that was not confirmed.
    pub fn rollback_to<S: Storage, H: FsyncHook>(
        &mut self,
        storage: &mut S,
        hook: Option<&H>,
        len: u64,
    ) -> (result: Result<(), MnemeError>)
        requires
            old(self).wf(),
            old(storage).wf(),
        ensures
            final(self).wf(),
            final(storage).wf(),
            final(storage).reliable() == old(storage).reliable(),
            final(storage).cuts() == old(storage).cuts(),
            final(storage).failures() == old(storage).failures(),
            final(storage).locked() == old(storage).locked(),
            others_kept(old(storage).files(), final(storage).files(), old(self)@.active()),
            still_settled(old(storage).settled(), final(storage).settled(), old(self)@.active()),
            result is Ok ==> final(storage).settled().contains(old(self)@.active()),
            old(self)@.refusal() matches Some(error) ==> result == Err::<(), MnemeError>(error)
                && final(storage).files() == old(storage).files() && final(self)@ == old(self)@,
            final(self)@ == old(self)@ || final(self)@ == (WriterModel {
                written: len,
                ..old(self)@
            }),
            result is Ok ==> final(self)@ == (WriterModel { written: len, ..old(self)@ })
                && fsync_passes(hook, old(self)@.active()),
            result is Ok && len <= content_of(
                old(storage).files(),
                old(self)@.active(),
            ).len() ==> file_set(
                old(storage).files(),
                final(storage).files(),
                old(self)@.active(),
                content_of(old(storage).files(), old(self)@.active()).take(len as int),
            ),
            old(storage).files().dom().contains(old(self)@.active())
                ==> final(storage).files().dom().contains(old(self)@.active()),
            len <= content_of(old(storage).files(), old(self)@.active()).len() ==> content_of(
                final(storage).files(),
                old(self)@.active(),
            ) == content_of(old(storage).files(), old(self)@.active()) || content_of(
                final(storage).files(),
                old(self)@.active(),
            ) == content_of(old(storage).files(), old(self)@.active()).take(len as int),
            old(self)@.refusal() is None && (old(storage).cuts() || old(storage).reliable())
                && old(storage).files().dom().contains(old(self)@.active()) ==> final(self)@ == (
            WriterModel { written: len, ..old(self)@ }) && (len <= content_of(
                old(storage).files(),
                old(self)@.active(),
            ).len() ==> content_of(final(storage).files(), old(self)@.active()) == content_of(
                old(storage).files(),
                old(self)@.active(),
            ).take(len as int)),
            old(self)@.refusal() is None && hook is None && old(storage).reliable()
                && old(storage).files().dom().contains(old(self)@.active()) ==> result is Ok,
    {
        proof {
            library_paths_stay_below(
                crate::error::SegmentFile::Vsec,
                0,
                self.active_index,
                0,
            );
        }
        match self.ensure_writable() {
            Ok(()) => {},
            Err(error) => {
                return Err(error);
            },
        }
        match storage.truncate(self.active_rel.as_str(), len) {
            Ok(()) => {},
            Err(error) => {
                return Err(error);
            },
        }
        self.written = len;
        match ask_fsync(hook, self.active_rel.as_str()) {
            Ok(()) => {},
            Err(error) => {
                return Err(error);
            },
        }
        storage.sync(self.active_rel.as_str())
    }

    /// Puts a header in place of the active file and cuts the file behind it.
    fn rewrite_header_and_truncate<S: Storage, H: FsyncHook>(
        &mut self,
        storage: &mut S,
        hook: Option<&H>,
    ) -> (result: Result<(), MnemeError>)
        requires
            old(self).wf(),
            old(storage).wf(),
        ensures
            final(self).wf(),
            final(storage).wf(),
            final(storage).reliable() == old(storage).reliable(),
            final(storage).cuts() == old(storage).cuts(),
            final(storage).failures() == old(storage).failures(),
            final(storage).locked() == old(storage).locked(),
            others_kept(old(storage).files(), final(storage).files(), old(self)@.active()),
            still_settled(old(storage).settled(), final(storage).settled(), old(self)@.active()),
            result is Ok ==> final(storage).settled().contains(old(self)@.active()),
            result is Ok ==> header_passes(hook, old(self)@),
            old(self)@.refusal() matches Some(error) ==> result == Err::<(), MnemeError>(error)
                && final(storage).files() == old(storage).files() && final(self)@ == old(self)@,
            final(self)@ == old(self)@ || final(self)@ == (WriterModel {
                written: old(self)@.header.len() as u64,
                ..old(self)@
            }),
            result is Ok ==> final(self)@ == (WriterModel {
                written: old(self)@.header.len() as u64,
                ..old(self)@
            }) && file_set(
                old(storage).files(),
                final(storage).files(),
                old(self)@.active(),
                old(self)@.header,
            ),
            old(self)@.refusal() is None ==> (result matches Err(error) ==> header_refused(
                hook,
                old(self)@,
                error,
            ) || given_by(failures_of(*old(storage)), error)),
    {
        proof {
            library_paths_stay_below(
                crate::error::SegmentFile::Vsec,
                0,
                self.active_index,
                0,
            );
        }
        match self.ensure_writable() {
            Ok(()) => {},
            Err(error) => {
                return Err(error);
            },
        }
        let len: usize = self.header.len();
        let ghost start = storage.files();
        match ask_write(hook, self.active_rel.as_str(), 0, len) {
            Ok(()) => {},
            Err(error) => {
                return Err(error);
            },
        }
        match storage.write_atomic(self.active_rel.as_str(), self.header.as_slice()) {
            Ok(()) => {},
            Err(error) => {
                return Err(error);
            },
        }
        let ghost middle = storage.files();
        match storage.truncate(self.active_rel.as_str(), len as u64) {
            Ok(()) => {},
            Err(error) => {
                proof {
                    lemma_kept_twice(start, middle, storage.files(), self@.active());
                }
                return Err(error);
            },
        }
        proof {
            lemma_kept_twice(start, middle, storage.files(), self@.active());
            assert(self.header@.take(len as int) =~= self.header@);
        }
        self.written = len as u64;
        match ask_fsync(hook, self.active_rel.as_str()) {
            Ok(()) => {},
            Err(error) => {
                return Err(error);
            },
        }
        storage.sync(self.active_rel.as_str())
    }

    /// Writes the header of the active file anew.
    fn rebuild<S: Storage, H: FsyncHook>(&self, storage: &mut S, hook: Option<&H>) -> (result:
        Result<(), MnemeError>)
        requires
            self.wf(),
            old(storage).wf(),
        ensures
            final(storage).wf(),
            final(storage).reliable() == old(storage).reliable(),
            final(storage).cuts() == old(storage).cuts(),
            final(storage).failures() == old(storage).failures(),
            final(storage).locked() == old(storage).locked(),
            others_kept(old(storage).files(), final(storage).files(), self@.active()),
            still_settled(old(storage).settled(), final(storage).settled(), self@.active()),
            result is Ok ==> final(storage).settled().contains(self@.active()),
            result is Ok ==> header_passes(hook, self@),
            result is Ok ==> file_set(
                old(storage).files(),
                final(storage).files(),
                self@.active(),
                self@.header,
            ),
            result matches Err(error) ==> header_refused(hook, self@, error) || given_by(
                failures_of(*old(storage)),
                error,
            ),
    {
        proof {
            library_paths_stay_below(
                crate::error::SegmentFile::Vsec,
                0,
                self.active_index,
                0,
            );
        }
        match ask_write(hook, self.active_rel.as_str(), 0, self.header.len()) {
            Ok(()) => {},
            Err(error) => {
                return Err(error);
            },
        }
        match storage.write_atomic(self.active_rel.as_str(), self.header.as_slice()) {
            Ok(()) => {},
            Err(error) => {
                return Err(error);
            },
        }
        match ask_fsync(hook, self.active_rel.as_str()) {
            Ok(()) => {},
            Err(error) => {
                return Err(error);
            },
        }
        storage.sync(self.active_rel.as_str())
    }

    /// Empties the log after a checkpoint: the active file keeps its header alone, and the files
    /// before it are removed. At every moment the active file has a whole header.
    ///
    /// Where a step fails, the file is built anew; where that fails too, the writer is taken out of
    /// use, so that nothing is appended to a file of uncertain contents.
    pub fn reset<S: Storage, H: FsyncHook>(&mut self, storage: &mut S, hook: Option<&H>) -> (result:
        Result<(), MnemeError>)
        requires
            old(self).wf(),
            old(storage).wf(),
        ensures
            final(self).wf(),
            final(storage).wf(),
            final(storage).reliable() == old(storage).reliable(),
            final(storage).cuts() == old(storage).cuts(),
            final(storage).failures() == old(storage).failures(),
            final(storage).locked() == old(storage).locked(),
            !old(self)@.writable ==> result is Err && final(self)@ == old(self)@
                && final(storage).files() == old(storage).files(),
            old(self)@.refusal() matches Some(error) ==> result == Err::<(), MnemeError>(error),
            final(self)@ == (WriterModel {
                written: final(self)@.written,
                sealed_bytes: final(self)@.sealed_bytes,
                poisoned: final(self)@.poisoned,
                ..old(self)@
            }),
            old(self)@.poisoned ==> final(self)@.poisoned,
            old(self)@.writable && !final(self)@.poisoned ==> final(storage).files().dom().contains(
                old(self)@.active(),
            ) && final(storage).files()[old(self)@.active()] == old(self)@.header
                && final(self)@.written == old(self)@.header.len()
                && final(storage).settled().contains(old(self)@.active()) && header_passes(
                hook,
                old(self)@,
            ),
            outside_log_kept(old(storage).files(), final(storage).files()),
            settled_outside_log(old(storage).settled(), final(storage).settled()),
            result is Ok ==> final(storage).settled().contains(old(self)@.active()),
            result is Ok ==> !final(self)@.poisoned && final(self)@.sealed_bytes == 0,
            result is Err ==> final(self)@.sealed_bytes == old(self)@.sealed_bytes,
            result is Ok && old(storage).reliable() ==> only_active_left(
                final(storage).files(),
                old(self)@.active(),
            ),
            old(self)@.refusal() is None ==> (result matches Err(error) ==> header_refused(
                hook,
                old(self)@,
                error,
            ) || given_by(failures_of(*old(storage)), error)),
            old(self)@.refusal() is None && hook is None && old(storage).reliable()
                ==> result is Ok,
    {
        if !self.poisoned && !self.writable {
            return Err(MnemeError::Unsupported { feature: Feature::ReadOnlyWrite });
        }
        let ghost index = self.active_index;
        let ghost files = storage.files();
        let ghost settled = storage.settled();
        match self.rewrite_header_and_truncate(storage, hook) {
            Ok(()) => {
                proof {
                    lemma_outside_log(files, storage.files(), index);
                    lemma_settled_outside_log(settled, storage.settled(), index);
                }
            },
            Err(error) => {
                let ghost middle = storage.files();
                let ghost held = storage.settled();
                let rebuilt = self.rebuild(storage, hook);
                proof {
                    lemma_outside_log(files, middle, index);
                    lemma_outside_log(middle, storage.files(), index);
                    lemma_outside_log_twice(files, middle, storage.files());
                    lemma_settled_outside_log(settled, held, index);
                    lemma_settled_outside_log(held, storage.settled(), index);
                }
                match rebuilt {
                    Ok(()) => {
                        self.written = self.header.len() as u64;
                    },
                    Err(_) => {
                        self.poisoned = true;
                    },
                }
                return Err(error);
            },
        }
        let paths = match wal_files(storage) {
            Ok(paths) => paths,
            Err(error) => {
                return Err(error);
            },
        };
        let ghost middle = storage.files();
        self.remove_older(storage, &paths);
        proof {
            lemma_outside_log_twice(files, middle, storage.files());
        }
        self.sealed_bytes = 0;
        Ok(())
    }

    /// Removes the log files other than the active one. A file that cannot be removed stays: replay
    /// skips its frames, which lie at or below the watermark.
    fn remove_older<S: Storage>(&self, storage: &mut S, paths: &Vec<String>)
        requires
            self.wf(),
            old(storage).wf(),
            lists_wal(old(storage).files(), paths@),
        ensures
            final(storage).wf(),
            final(storage).reliable() == old(storage).reliable(),
            final(storage).cuts() == old(storage).cuts(),
            final(storage).failures() == old(storage).failures(),
            final(storage).locked() == old(storage).locked(),
            same_at(old(storage).files(), final(storage).files(), self@.active()),
            outside_log_kept(old(storage).files(), final(storage).files()),
            settled_outside_log(old(storage).settled(), final(storage).settled()),
            old(storage).settled().contains(self@.active()) ==> final(storage).settled().contains(
                self@.active(),
            ),
            old(storage).reliable() ==> only_active_left(final(storage).files(), self@.active()),
    {
        let ghost start = storage.files();
        let ghost active = self@.active();
        proof {
            assert forall|k: int| 0 <= k < paths@.len() implies stays_below(
                (#[trigger] paths@[k])@,
            ) by {
                lemma_wal_path_below(start, paths@, k);
            }
            assert forall|k: int| 0 <= k < paths@.len() implies in_log((#[trigger] paths@[k])@) by {
                assert(is_wal_file(start, paths@[k]@));
                let name = choose|name: Seq<char>|
                    is_wal_name(name) && #[trigger] dir_holds(start, WAL_DIR@, name) && paths@[k]@
                        == wal_rel(name);
                let head = WAL_DIR@ + "/"@;
                assert(wal_rel(name).take(head.len() as int) =~= head);
            }
        }
        proof {
            reveal_strlit(".log");
            assert(active.last() == 'g');
        }
        let mut i: usize = 0;
        while i < paths.len()
            invariant
                self.wf(),
                storage.wf(),
                active == self@.active(),
                storage.reliable() == old(storage).reliable(),
                storage.cuts() == old(storage).cuts(),
            storage.failures() == old(storage).failures(),
                storage.locked() == old(storage).locked(),
                paths_stay_below(paths@),
                i <= paths@.len(),
                same_at(start, storage.files(), active),
                outside_log_kept(start, storage.files()),
                settled_outside_log(old(storage).settled(), storage.settled()),
                old(storage).settled().contains(active) ==> storage.settled().contains(active),
                active.len() > 0 && active.last() == 'g',
                forall|k: int| 0 <= k < paths@.len() ==> in_log((#[trigger] paths@[k])@),
                storage.files().dom().subset_of(start.dom()),
                storage.reliable() ==> forall|k: int|
                    0 <= k < i && (#[trigger] paths@[k])@ != active
                        ==> !storage.files().dom().contains(paths@[k]@),
            decreases paths@.len() - i,
        {
            let path = &paths[i];
            let ghost before = storage.files();
            let ghost held = storage.settled();
            assert(in_log(path@));
            if !text_equal(path.as_str(), self.active_rel.as_str()) {
                let _ = storage.remove_if_exists(path.as_str());
            }
            proof {
                assert forall|p: Seq<char>| !in_log(p) implies #[trigger] same_at(
                    before,
                    storage.files(),
                    p,
                ) by {}
                lemma_outside_log_twice(start, before, storage.files());
                let head = WAL_DIR@ + "/"@;
                let tmp = temporary_of(path@);
                reveal_strlit(".tmp");
                assert(tmp.last() == 'p');
                assert(tmp.take(head.len() as int) =~= path@.take(head.len() as int));
                assert(in_log(tmp));
                assert(settled_outside_log(held, storage.settled()));
            }
            i = i + 1;
        }
        proof {
            if storage.reliable() {
                assert forall|name: Seq<char>|
                    is_wal_name(name) && #[trigger] dir_holds(
                        storage.files(),
                        WAL_DIR@,
                        name,
                    ) implies wal_rel(name) == active by {
                    reveal_strlit("wal");
                    assert(dir_prefix(WAL_DIR@) + name == wal_rel(name));
                    assert(start.dom().contains(wal_rel(name)));
                    assert(dir_holds(start, WAL_DIR@, name));
                    assert(lists_path(paths@, wal_rel(name)));
                    let k = choose|k: int|
                        0 <= k < paths@.len() && (#[trigger] paths@[k])@ == wal_rel(name);
                    assert(paths@[k]@ == wal_rel(name));
                }
            }
        }
    }
}

/// Whether the active file is the only log file.
pub open spec fn only_active_left(files: FileMap, active: Seq<char>) -> bool {
    forall|name: Seq<char>|
        is_wal_name(name) && #[trigger] dir_holds(files, WAL_DIR@, name) ==> wal_rel(name) == active
}

/// A listed log file stays below the root.
pub proof fn lemma_wal_path_below(files: FileMap, paths: Seq<String>, at: int)
    requires
        lists_wal(files, paths),
        0 <= at < paths.len(),
    ensures
        stays_below(paths[at]@),
{
    assert(is_wal_file(files, paths[at]@));
    let name = choose|name: Seq<char>|
        is_wal_name(name) && #[trigger] dir_holds(files, WAL_DIR@, name) && paths[at]@ == wal_rel(
            name,
        );
    reveal_strlit("wal");
    reveal_strlit("wal_");
    library_paths_stay_below(crate::error::SegmentFile::Vsec, 0, 0, 0);
    assert(name.take(4)[0] == 'w');
    named_path_stays_below(WAL_DIR@, name);
}

proof fn lemma_kept_twice(a: FileMap, b: FileMap, c: FileMap, rel: Seq<char>)
    requires
        others_kept(a, b, rel),
        others_kept(b, c, rel),
    ensures
        others_kept(a, c, rel),
{
    assert forall|p: Seq<char>| p != rel && p != temporary_of(rel) implies #[trigger] same_at(
        a,
        c,
        p,
    ) by {
        assert(same_at(a, b, p));
        assert(same_at(b, c, p));
    }
}

/// Starts a log file with a header in place of whatever was there.
pub fn create_truncating<S: Storage, H: FsyncHook>(
    storage: &mut S,
    hook: Option<&H>,
    index: u32,
    config: WalConfig,
) -> (result: Result<WalWriter, MnemeError>)
    requires
        old(storage).wf(),
    ensures
        final(storage).wf(),
        final(storage).reliable() == old(storage).reliable(),
        final(storage).cuts() == old(storage).cuts(),
        final(storage).failures() == old(storage).failures(),
        final(storage).locked() == old(storage).locked(),
        others_kept(old(storage).files(), final(storage).files(), wal_path(index)),
        still_settled(old(storage).settled(), final(storage).settled(), wal_path(index)),
        result is Ok ==> final(storage).settled().contains(wal_path(index)),
        result matches Ok(writer) ==> writer.wf() && writer@ == assembled(
            index,
            config,
            true,
            config.header@.len() as u64,
            0,
        ) && file_set(
            old(storage).files(),
            final(storage).files(),
            wal_path(index),
            config.header@,
        ),
        hook is None && old(storage).reliable() ==> result is Ok,
        result matches Err(error) ==> file_refused(
            hook,
            failures_of(*old(storage)),
            wal_path(index),
            config.header@.len(),
            error,
        ),
        result is Ok ==> write_passes(hook, wal_path(index), 0, config.header@.len()),
{
    proof {
        library_paths_stay_below(crate::error::SegmentFile::Vsec, 0, index, 0);
    }
    let rel = wal_name(index);
    let len: usize = config.header.len();
    match ask_write(hook, rel.as_str(), 0, len) {
        Ok(()) => {},
        Err(error) => {
            return Err(error);
        },
    }
    match storage.write_atomic(rel.as_str(), config.header.as_slice()) {
        Ok(()) => {},
        Err(error) => {
            return Err(error);
        },
    }
    match storage.sync(rel.as_str()) {
        Ok(()) => {},
        Err(error) => {
            return Err(error);
        },
    }
    Ok(WalWriter::from_parts(index, config, true, len as u64, 0))
}

/// The number of the last log file; 0, where there is none.
pub open spec fn observed_index(files: Seq<String>) -> u32 {
    match last_path(files) {
        Some(path) => match wal_path_number(path) {
            Some(index) => index,
            None => 0,
        },
        None => 0,
    }
}

/// The writer of a read-only instance: it counts the bytes that are there and writes none.
pub fn read_only_writer<S: Storage>(storage: &S, files: &Vec<String>, config: WalConfig) -> (writer:
    WalWriter)
    requires
        storage.wf(),
    ensures
        writer.wf(),
        !writer@.writable,
        writer@ == assembled(observed_index(files@), config, false, writer@.written, 0),
        writer@.written <= lengths_sum(storage.files(), files@, files@.len(), Seq::empty()),
        storage.reliable() && paths_stay_below(files@) ==> writer@.written == lengths_sum(
            storage.files(),
            files@,
            files@.len(),
            Seq::empty(),
        ),
{
    proof {
        reveal_strlit("");
        assert(""@ =~= Seq::empty());
    }
    let total: u64 = sum_lengths(storage, files, "");
    let index: u32 = if files.len() == 0 {
        0
    } else {
        match index_of_path(files[files.len() - 1].as_str()) {
            Some(index) => index,
            None => 0,
        }
    };
    WalWriter::from_parts(index, config, false, total, 0)
}

/// Goes on with a log file that is there.
fn open_existing<S: Storage>(
    storage: &S,
    files: &Vec<String>,
    rel: &str,
    index: u32,
    config: WalConfig,
) -> (result: Result<WalWriter, MnemeError>)
    requires
        storage.wf(),
    ensures
        result matches Ok(writer) ==> {
            &&& writer.wf()
            &&& storage.files().dom().contains(rel@)
            &&& writer@ == assembled(index, config, true, writer@.written, writer@.sealed_bytes)
            &&& writer@.written == storage.files()[rel@].len()
            &&& writer@.sealed_bytes <= lengths_sum(storage.files(), files@, files@.len(), rel@)
            &&& storage.reliable() && paths_stay_below(files@) ==> writer@.sealed_bytes
                == lengths_sum(storage.files(), files@, files@.len(), rel@)
        },
        stays_below(rel@) && storage.files().dom().contains(rel@) ==> (result matches Err(error)
            ==> given_by(failures_of(*storage), error)),
{
    let written: u64 = match storage.stat(rel) {
        Ok(meta) => meta.len,
        Err(error) => {
            return Err(error);
        },
    };
    let sealed: u64 = sum_lengths(storage, files, rel);
    Ok(WalWriter::from_parts(index, config, true, written, sealed))
}

/// The number of the file that a writer goes on with.
pub open spec fn resumed_index(files: Seq<String>) -> u32 {
    match last_path(files) {
        Some(path) => match wal_path_number(path) {
            Some(index) => index,
            None => 1,
        },
        None => 1,
    }
}

/// Opens the log for writing, or for reading only.
///
/// `files` are the log files in ascending order, and `header` is what the header of the last one
/// states; `None`, where the file is too short for a header or its header is damaged. A header that
/// names another dimension or metric is corruption. A torn or damaged header is put right, since no
/// whole frame can lie behind it.
pub fn open_or_create<S: Storage, H: FsyncHook>(
    storage: &mut S,
    hook: Option<&H>,
    config: WalConfig,
    files: &Vec<String>,
    header: Option<WalHeader>,
) -> (result: Result<WalWriter, MnemeError>)
    requires
        old(storage).wf(),
    ensures
        final(storage).wf(),
        final(storage).reliable() == old(storage).reliable(),
        final(storage).cuts() == old(storage).cuts(),
        final(storage).failures() == old(storage).failures(),
        final(storage).locked() == old(storage).locked(),
        result matches Ok(writer) ==> writer.wf() && writer@.writable == !config.read_only
            && !writer@.poisoned,
        config.read_only ==> result is Ok && final(storage).files() == old(storage).files(),
        !config.read_only ==> others_kept(
            old(storage).files(),
            final(storage).files(),
            wal_path(resumed_index(files@)),
        ),
        !config.read_only && files@.len() > 0 && header is Some
            ==> final(storage).files() == old(storage).files(),
        !config.read_only && files@.len() > 0 && (header matches Some(h) && (h.dimension
            != config.dimension || h.metric != config.metric)) ==> result is Err,
        files@.len() > 0 && (header matches Some(h) && (h.dimension != config.dimension || h.metric
            != config.metric)) ==> (result matches Err(error) ==> error == crate::error::corrupted(
            crate::error::Fault::WalHeaderMismatch,
        ) || given_by(failures_of(*old(storage)), error)),
        config.read_only ==> result->Ok_0@ == assembled(
            observed_index(files@),
            config,
            false,
            result->Ok_0@.written,
            0,
        ) && (old(storage).reliable() && paths_stay_below(files@) ==> result->Ok_0@.written
            == lengths_sum(old(storage).files(), files@, files@.len(), Seq::empty())),
        result is Ok && !config.read_only && files@.len() > 0 && header is Some ==> {
            &&& old(storage).files().dom().contains(files@.last()@)
            &&& result->Ok_0@ == assembled(
                resumed_index(files@),
                config,
                true,
                result->Ok_0@.written,
                result->Ok_0@.sealed_bytes,
            )
            &&& result->Ok_0@.written == old(storage).files()[files@.last()@].len()
            &&& old(storage).reliable() && paths_stay_below(files@)
                ==> result->Ok_0@.sealed_bytes == lengths_sum(
                old(storage).files(),
                files@,
                files@.len(),
                files@.last()@,
            )
        },
        result is Ok && !config.read_only && (files@.len() == 0 || header is None) ==> {
            &&& result->Ok_0@ == assembled(
                resumed_index(files@),
                config,
                true,
                config.header@.len() as u64,
                0,
            )
            &&& file_set(
                old(storage).files(),
                final(storage).files(),
                wal_path(resumed_index(files@)),
                config.header@,
            )
        },
        files@.len() == 0 || header is None ==> (result matches Err(error) ==> refuses_write(
            hook,
            wal_path(resumed_index(files@)),
            0,
            config.header@.len(),
            error,
        ) || given_by(failures_of(*old(storage)), error)),
        result is Ok && !config.read_only && (files@.len() == 0 || header is None) ==> write_passes(
            hook,
            wal_path(resumed_index(files@)),
            0,
            config.header@.len(),
        ),
        files@.len() > 0 && stays_below(files@.last()@) && old(storage).files().dom().contains(
            files@.last()@,
        ) && (header matches Some(h) && h.dimension == config.dimension && h.metric
            == config.metric) ==> (result matches Err(error) ==> given_by(
            failures_of(*old(storage)),
            error,
        )),
{
    if config.read_only {
        return Ok(read_only_writer(storage, files, config));
    }
    proof {
        library_paths_stay_below(crate::error::SegmentFile::Vsec, 0, 0, 0);
    }
    match storage.ensure_dir(WAL_DIR) {
        Ok(()) => {},
        Err(error) => {
            return Err(error);
        },
    }
    assert(failures_of(*storage) == failures_of(*old(storage)));
    if files.len() == 0 {
        return create_truncating(storage, hook, 1, config);
    }
    let rel = &files[files.len() - 1];
    let index: u32 = match index_of_path(rel.as_str()) {
        Some(index) => index,
        None => 1,
    };
    match header {
        Some(header) => {
            if header.dimension != config.dimension || header.metric != config.metric {
                return Err(
                    MnemeError::Corrupted {
                        segment: None,
                        reason: crate::error::Fault::WalHeaderMismatch,
                    },
                );
            }
            open_existing(storage, files, rel.as_str(), index, config)
        },
        None => create_truncating(storage, hook, index, config),
    }
}

/// A writer takes a frame exactly where it can write, was not taken out of use, and the payload is
/// not longer than its limit.
pub proof fn only_sound_writers_take_frames(writer: WriterModel, payload_len: usize)
    ensures
        writer.refusal() is None <==> writer.writable && !writer.poisoned,
        writer.poisoned ==> writer.refusal() == Some(MnemeError::Io(IoFault::WalDisabled)),
        writer.frame_refusal(payload_len) is None <==> writer.writable && !writer.poisoned && (
        writer.frame_max == 0 || payload_len <= writer.frame_max),
        writer.frame_max > 0 && payload_len > writer.frame_max && writer.writable
            && !writer.poisoned ==> writer.frame_refusal(payload_len) == Some(
            MnemeError::LimitExceeded {
                field: LimitField::WalFramePayload,
                limit: writer.frame_max,
                got: payload_len,
            },
        ),
{
}

/// A file is followed by the next when it has grown to its limit, and never without a limit. The
/// next file has the next number and holds its header alone; what was written before is still
/// counted.
pub proof fn rotation_keeps_count(writer: WriterModel)
    requires
        writer.active_index < u32::MAX,
        writer.sealed_bytes + writer.written <= u64::MAX,
        writer.header.len() <= u64::MAX,
    ensures
        writer.rotation_due() <==> writer.writable && writer.max_file_bytes > 0 && writer.written
            >= writer.max_file_bytes,
        writer.rotated().active_index == writer.active_index + 1,
        writer.rotated().active() == wal_path((writer.active_index + 1) as u32),
        writer.rotated().written == writer.header.len(),
        writer.rotated().sealed_bytes == writer.sealed_bytes + writer.written,
        !writer.rotated().poisoned,
        writer.rotated().max_file_bytes == writer.max_file_bytes,
        writer.rotated().policy == writer.policy,
        writer.rotated().frame_max == writer.frame_max,
        writer.rotated().header == writer.header,
        writer.rotated().writable == writer.writable,
{
}

/// Log files come in the order of their numbers, and a writer goes on with the file that is last.
pub proof fn log_files_follow_their_numbers(a: u32, b: u32, files: Seq<String>)
    ensures
        wal_path_number(wal_path(a)) == Some(a),
        wal_before(wal_path(a), wal_path(b)) <==> a < b,
        files.len() > 0 && files.last()@ == wal_path(a) ==> resumed_index(files) == a
            && observed_index(files) == a,
        files.len() == 0 ==> resumed_index(files) == 1 && observed_index(files) == 0,
{
    lemma_number_of_path(a);
    lemma_number_of_path(b);
    if a == b {
        lemma_text_order(wal_path(a), wal_path(a));
    }
}

proof fn lemma_number_of_path(index: u32)
    ensures
        wal_path_number(wal_path(index)) == Some(index),
{
    let dir = WAL_DIR@ + "/"@;
    let path = wal_path(index);
    assert(path.take(dir.len() as int) =~= dir);
    assert(path.skip(dir.len() as int) =~= wal_file(index));
    wal_name_round_trip(index);
}

/// The lengths of the first `count` files that are there, but for one, together and without a
/// limit.
pub open spec fn lengths_together(
    files: FileMap,
    paths: Seq<String>,
    count: nat,
    skip: Seq<char>,
) -> int
    decreases count,
{
    if count == 0 {
        0
    } else {
        lengths_together(files, paths, (count - 1) as nat, skip) + if files.dom().contains(
            paths[count - 1]@,
        ) && paths[count - 1]@ != skip {
            files[paths[count - 1]@].len() as int
        } else {
            0
        }
    }
}

/// The log is counted with the whole length of each of its files, up to the largest number.
pub proof fn log_is_counted_whole(
    files: FileMap,
    paths: Seq<String>,
    count: nat,
    skip: Seq<char>,
)
    requires
        forall|path: Seq<char>| (#[trigger] files[path]).len() <= u64::MAX,
    ensures
        lengths_together(files, paths, count, skip) >= 0,
        lengths_sum(files, paths, count, skip) == (if lengths_together(files, paths, count, skip)
            > u64::MAX {
            u64::MAX as int
        } else {
            lengths_together(files, paths, count, skip)
        }),
    decreases count,
{
    if count > 0 {
        log_is_counted_whole(files, paths, (count - 1) as nat, skip);
    }
}

/// The listing of the log has every log file once, in the order of the numbers, and nothing else.
pub proof fn listed_logs_rise(
    files: FileMap,
    paths: Seq<String>,
    i: int,
    j: int,
    a: u32,
    b: u32,
    path: Seq<char>,
)
    requires
        lists_wal(files, paths),
    ensures
        0 <= i < j < paths.len() && paths[i]@ == wal_path(a) && paths[j]@ == wal_path(b) ==> a < b,
        0 <= i < paths.len() ==> files.dom().contains(paths[i]@),
        files.dom().contains(wal_path(a)) ==> exists|k: int|
            0 <= k < paths.len() && (#[trigger] paths[k])@ == wal_path(a),
{
    log_files_follow_their_numbers(a, b, paths);
    if 0 <= i < j < paths.len() {
        assert(wal_before(paths[i]@, paths[j]@));
    }
    reveal_strlit("wal");
    if 0 <= i < paths.len() {
        assert(is_wal_file(files, paths[i]@));
        let name = choose|name: Seq<char>|
            is_wal_name(name) && #[trigger] dir_holds(files, WAL_DIR@, name) && paths[i]@
                == wal_rel(name);
        assert(dir_prefix(WAL_DIR@) + name == wal_rel(name));
    }
    if files.dom().contains(wal_path(a)) {
        let name = wal_file(a);
        wal_name_round_trip(a);
        lemma_padded(a as nat, 6);
        reveal_strlit("wal_");
        reveal_strlit(".log");
        assert(dir_prefix(WAL_DIR@) + name =~= wal_path(a));
        assert(wal_rel(name) =~= wal_path(a));
        assert(!name.contains('/')) by {
            if name.contains('/') {
                let k = choose|k: int| 0 <= k < name.len() && name[k] == '/';
                let middle = padded(a as nat, 6);
                if 4 <= k < name.len() - 4 {
                    assert(name[k] == middle[k - 4]);
                    assert(is_digit(middle[k - 4]));
                } else if k < 4 {
                    assert(name[k] == "wal_"@[k]);
                } else {
                    assert(name[k] == ".log"@[k - (name.len() - 4)]);
                }
            }
        }
        assert(dir_holds(files, WAL_DIR@, name));
        assert(lists_path(paths, wal_rel(name)));
    }
}

} // verus!
