//! Backups: a copy of a library that can be opened on its own.

use vstd::prelude::*;

use crate::current::{current_bytes, current_round_trip, version_bytes};
use crate::error::{BusyFault, ConfigFault, Fault, MnemeError, SegmentFile};
use crate::layout::{
    library_paths_stay_below, manifest_file, manifest_name, segment_path, segment_rel, stays_below,
    CURRENT_FILE, SEGMENTS_DIR, WAL_DIR,
};
use crate::manifest::{Manifest, SegmentEntry};
use crate::manifest_io::{holds_version, is_latest, Decoded};
use crate::source::{
    handle_outcome, is_opening, opens_optional, opens_required, opens_segment, optional_outcome,
    required_outcome, ByteFile, SegmentHandle,
};
use crate::storage::{
    dir_holds, failures_of, given_by, is_vacant, others_kept, same_at, temporary_of, unsafe_path,
    FailureSet, FileMap, PathSet, Step, Storage,
};
use crate::text::has_suffix;
use crate::wal_writer::{capped_sum, is_wal_file, lists_wal, wal_files};

verus! {

/// What a backup copied.
#[derive(Clone, Copy, Debug, PartialEq, Eq, Structural)]
pub struct BackupReport {
    pub files: usize,
    pub bytes: u64,
    /// Whether every segment file is a link to that of the source.
    pub hardlinked: bool,
}

/// The paths of the files of the first `count` segments: two for each, and a third where it has a
/// graph.
pub open spec fn segment_paths(segments: Seq<SegmentEntry>, count: nat) -> Seq<Seq<char>>
    decreases count,
{
    if count == 0 {
        Seq::empty()
    } else {
        let before = segment_paths(segments, (count - 1) as nat);
        let entry = segments[count - 1];
        let required = before.push(segment_path(SegmentFile::Vsec, entry.segment_id)).push(
            segment_path(SegmentFile::Msec, entry.segment_id),
        );
        if entry.hidx_crc != 0 {
            required.push(segment_path(SegmentFile::Hidx, entry.segment_id))
        } else {
            required
        }
    }
}

/// The texts of a list of paths.
pub open spec fn texts(paths: Seq<String>) -> Seq<Seq<char>> {
    paths.map_values(|p: String| p@)
}

/// Lists the segment files that a backup holds.
pub fn backup_paths(manifest: &Manifest) -> (paths: Vec<String>)
    ensures
        texts(paths@) == segment_paths(manifest.segments@, manifest.segments@.len()),
{
    let mut paths: Vec<String> = Vec::new();
    let mut i: usize = 0;
    assert(texts(paths@) =~= Seq::empty());
    while i < manifest.segments.len()
        invariant
            i <= manifest.segments@.len(),
            texts(paths@) == segment_paths(manifest.segments@, i as nat),
        decreases manifest.segments@.len() - i,
    {
        let entry = manifest.segments[i];
        let ghost before = paths@;
        paths.push(segment_rel(SegmentFile::Vsec, entry.segment_id));
        paths.push(segment_rel(SegmentFile::Msec, entry.segment_id));
        if entry.hidx_crc != 0 {
            paths.push(segment_rel(SegmentFile::Hidx, entry.segment_id));
        }
        assert(texts(paths@) =~= segment_paths(manifest.segments@, (i + 1) as nat)) by {
            assert forall|k: int| 0 <= k < before.len() implies texts(paths@)[k] == texts(
                before,
            )[k] by {}
        }
        i = i + 1;
    }
    paths
}

/// Whether a file of the source is in the target with the same bytes.
pub open spec fn is_copied(source: FileMap, target: FileMap, path: Seq<char>) -> bool {
    source.dom().contains(path) && target.dom().contains(path) && target[path] == source[path]
}

/// Whether a path cannot be that of a temporary file.
spec fn is_lasting(path: Seq<char>) -> bool {
    path.len() > 0 && path.last() != 'p'
}

proof fn lemma_lasting(file: SegmentFile, id: u32, version: u64)
    ensures
        is_lasting(segment_path(file, id)),
        is_lasting(manifest_file(version)),
        is_lasting(CURRENT_FILE@),
{
    reveal_strlit(".vsec");
    reveal_strlit(".msec");
    reveal_strlit(".hidx");
    reveal_strlit("current");
    crate::text::lemma_padded(version as nat, 6);
    let path = segment_path(file, id);
    assert(path[path.len() - 1] == crate::layout::segment_suffix(file)[4]);
    let tail = crate::text::padded(version as nat, 6);
    let name = manifest_file(version);
    assert(name[name.len() - 1] == tail[tail.len() - 1]);
    assert(crate::text::is_digit(tail[tail.len() - 1]));
}

proof fn lemma_lasting_wal(files: FileMap, path: Seq<char>)
    requires
        is_wal_file(files, path),
    ensures
        is_lasting(path),
{
    reveal_strlit(".log");
    let name = choose|name: Seq<char>|
        crate::layout::is_wal_name(name) && #[trigger] dir_holds(files, WAL_DIR@, name) && path
            == crate::wal_writer::wal_rel(name);
    assert(has_suffix(name, ".log"@));
    assert(name.skip(name.len() - 4)[3] == 'g');
    assert(path[path.len() - 1] == name[name.len() - 1]);
}

/// A copy stays a copy while another file is written.
proof fn lemma_copy_stays(
    source: FileMap,
    before: FileMap,
    after: FileMap,
    written: Seq<char>,
    path: Seq<char>,
)
    requires
        is_copied(source, before, path),
        is_lasting(path),
        others_kept(before, after, written),
        path == written ==> is_copied(source, after, written) || same_at(before, after, written),
    ensures
        is_copied(source, after, path),
{
    reveal_strlit(".tmp");
    let half = temporary_of(written);
    assert(half[half.len() - 1] == 'p');
    if path != written {
        assert(same_at(before, after, path));
    }
}

/// What a backup has copied so far.
pub struct CopySink {
    pub files: usize,
    pub bytes: u64,
    pub hardlinked: bool,
}

/// A count of files that stops at its maximum.
pub open spec fn capped_count(n: int) -> usize {
    if n > usize::MAX {
        usize::MAX
    } else {
        n as usize
    }
}

/// The sink after one more file of this length.
pub open spec fn counted(sink: CopySink, len: u64, hardlinked: bool) -> CopySink {
    CopySink {
        files: capped_count(sink.files + 1),
        bytes: capped_sum(sink.bytes, len),
        hardlinked,
    }
}

/// Whether a backup may count this length for a file: that of the file, or nothing, where a
/// source that is not reliable does not tell the length of a file that was linked.
pub open spec fn is_counted(files: FileMap, path: Seq<char>, len: u64, reliable: bool) -> bool {
    files.dom().contains(path) && (len == files[path].len() as u64 || !reliable && len == 0)
}

/// Whether a file was linked into the target, or copied, and was counted with this length.
pub open spec fn is_taken<S: Storage>(
    source: &S,
    before: S,
    after: S,
    path: Seq<char>,
    counts: CopySink,
    counts_then: CopySink,
    len: u64,
    linked: bool,
) -> bool {
    &&& is_counted(source.files(), path, len, source.reliable())
    &&& linked ==> !before.files().dom().contains(path)
    &&& after.linked() == if linked {
        before.linked().insert(path)
    } else {
        before.linked().remove(path)
    }
    &&& counts_then == counted(counts, len, linked && counts.hardlinked)
}

/// Whether a file of a backup cannot be read: it is not there, or the backend may fail to read.
pub open spec fn is_unreadable(files: FileMap, failures: FailureSet, path: Seq<char>) -> bool {
    !files.dom().contains(path) || may_fail_to_read(failures)
}

/// Whether a backend may fail to read a file.
pub open spec fn may_fail_to_read(failures: FailureSet) -> bool {
    exists|error: MnemeError| #[trigger] failures.contains((Step::Read, error))
}

/// The error for a file of a backup that cannot be read.
pub open spec fn unreadable() -> MnemeError {
    crate::error::corrupted(Fault::BackupFileUnreadable)
}

impl CopySink {
    /// Copies a file that must be there.
    pub fn copy_required<S: Storage, T: Storage>(
        &mut self,
        source: &S,
        target: &mut T,
        rel: &str,
    ) -> (result: Result<(), MnemeError>)
        requires
            source.wf(),
            old(target).wf(),
        ensures
            final(target).wf(),
            final(target).reliable() == old(target).reliable(),
            final(target).failures() == old(target).failures(),
            final(target).locked() == old(target).locked(),
            others_kept(old(target).files(), final(target).files(), rel@),
            final(target).links() == old(target).links(),
            final(self).hardlinked == old(self).hardlinked,
            result is Ok ==> final(target).linked() == old(target).linked().remove(rel@),
            result is Ok ==> is_copied(source.files(), final(target).files(), rel@)
                && *final(self) == counted(
                *old(self),
                source.files()[rel@].len() as u64,
                old(self).hardlinked,
            ),
            result is Err ==> same_at(old(target).files(), final(target).files(), rel@)
                || is_copied(source.files(), final(target).files(), rel@),
            stays_below(rel@) ==> (result matches Err(error) ==> (error == unreadable()
                && is_unreadable(source.files(), failures_of(*source), rel@)) || failures_of(
                *old(target),
            ).contains((Step::Write, error))),
            !source.files().dom().contains(rel@) ==> result == Err::<(), MnemeError>(unreadable()),
    {
        let content = match source.read_file(rel) {
            Ok(content) => content,
            Err(_) => {
                return Err(
                    MnemeError::Corrupted { segment: None, reason: Fault::BackupFileUnreadable },
                );
            },
        };
        assert(content@.len() == content.len());
        self.files = self.files.saturating_add(1);
        self.bytes = self.bytes.saturating_add(content.len() as u64);
        target.write_atomic(rel, content.as_slice())
    }

    /// Links a segment file; copies one that cannot be linked.
    pub fn link_or_copy_required<S: Storage>(
        &mut self,
        source: &S,
        target: &mut S,
        rel: &str,
    ) -> (result: Result<(), MnemeError>)
        requires
            source.wf(),
            old(target).wf(),
        ensures
            final(target).wf(),
            final(target).reliable() == old(target).reliable(),
            final(target).failures() == old(target).failures(),
            final(target).locked() == old(target).locked(),
            others_kept(old(target).files(), final(target).files(), rel@),
            final(target).links() == old(target).links(),
            result is Ok ==> is_copied(source.files(), final(target).files(), rel@) && exists|
                len: u64,
                linked: bool,
            | #[trigger]
                is_taken(
                    source,
                    *old(target),
                    *final(target),
                    rel@,
                    *old(self),
                    *final(self),
                    len,
                    linked,
                ),
            result is Err ==> same_at(old(target).files(), final(target).files(), rel@)
                || is_copied(source.files(), final(target).files(), rel@),
            !stays_below(rel@) ==> result == Err::<(), MnemeError>(unsafe_path())
                && final(target).files() == old(target).files(),
            stays_below(rel@) ==> (result matches Err(error) ==> (error == unreadable()
                && is_unreadable(source.files(), failures_of(*source), rel@)) || failures_of(
                *old(target),
            ).contains((Step::Write, error))),
            stays_below(rel@) && !source.files().dom().contains(rel@) ==> result == Err::<
                (),
                MnemeError,
            >(unreadable()),
            source.reliable() && old(target).reliable() && old(target).links() && stays_below(rel@)
                && source.files().dom().contains(rel@) && !old(target).files().dom().contains(rel@)
                ==> final(self).hardlinked == old(self).hardlinked && final(target).files()
                == old(target).files().insert(rel@, source.files()[rel@]),
    {
        let ghost before = *self;
        match target.link(source, rel) {
            Err(error) => Err(error),
            Ok(Some(len)) => {
                self.files = self.files.saturating_add(1);
                self.bytes = self.bytes.saturating_add(len);
                assert(is_taken(source, *old(target), *target, rel@, before, *self, len, true));
                Ok(())
            },
            Ok(None) => {
                self.hardlinked = false;
                let result = self.copy_required(source, target, rel);
                assert(result is Ok ==> is_taken(
                    source,
                    *old(target),
                    *target,
                    rel@,
                    before,
                    *self,
                    source.files()[rel@].len() as u64,
                    false,
                ));
                result
            },
        }
    }

    /// Copies a file, where it is there.
    pub fn copy_optional<S: Storage, T: Storage>(
        &mut self,
        source: &S,
        target: &mut T,
        rel: &str,
    ) -> (result: Result<(), MnemeError>)
        requires
            source.wf(),
            old(target).wf(),
        ensures
            final(target).wf(),
            final(target).reliable() == old(target).reliable(),
            final(target).failures() == old(target).failures(),
            final(target).locked() == old(target).locked(),
            others_kept(old(target).files(), final(target).files(), rel@),
            final(target).links() == old(target).links(),
            final(self).hardlinked == old(self).hardlinked,
            result is Ok ==> forall|p: Seq<char>|
                p != rel@ ==> (#[trigger] final(target).linked().contains(p)
                    == old(target).linked().contains(p)),
            result is Ok && source.files().dom().contains(rel@) ==> is_copied(
                source.files(),
                final(target).files(),
                rel@,
            ) && *final(self) == counted(
                *old(self),
                source.files()[rel@].len() as u64,
                old(self).hardlinked,
            ),
            result is Ok && !source.files().dom().contains(rel@) ==> *final(self) == *old(self)
                && final(target).files() == old(target).files(),
            result is Err ==> same_at(old(target).files(), final(target).files(), rel@)
                || is_copied(source.files(), final(target).files(), rel@),
            stays_below(rel@) ==> (result matches Err(error) ==> failures_of(*source).contains(
                (Step::Read, error),
            ) || failures_of(*old(target)).contains((Step::Write, error))),
    {
        match source.read_file_opt(rel) {
            Err(error) => Err(error),
            Ok(None) => Ok(()),
            Ok(Some(content)) => {
                assert(content@.len() == content.len());
                self.files = self.files.saturating_add(1);
                self.bytes = self.bytes.saturating_add(content.len() as u64);
                target.write_atomic(rel, content.as_slice())
            },
        }
    }
}

/// Whether these are the lengths that a backup may count for a list of files.
pub open spec fn are_counted(
    files: FileMap,
    paths: Seq<Seq<char>>,
    lengths: Seq<u64>,
    reliable: bool,
) -> bool {
    forall|i: int|
        0 <= i < lengths.len() ==> is_counted(files, paths[i], #[trigger] lengths[i], reliable)
}

/// Lengths together.
pub open spec fn total_of(lengths: Seq<u64>) -> u64
    decreases lengths.len(),
{
    if lengths.len() == 0 {
        0
    } else {
        capped_sum(total_of(lengths.drop_last()), lengths.last())
    }
}

/// Whether the first `count` files of a list are links.
pub open spec fn all_linked(linked: PathSet, paths: Seq<Seq<char>>, count: nat) -> bool {
    forall|i: int| 0 <= i < count ==> linked.contains(#[trigger] paths[i])
}

/// Whether the first `count` files of a list are copied.
pub open spec fn all_copied(
    source: FileMap,
    target: FileMap,
    paths: Seq<Seq<char>>,
    count: nat,
) -> bool {
    forall|i: int| 0 <= i < count ==> is_copied(source, target, #[trigger] paths[i])
}

/// Whether every file of a list is there.
pub open spec fn all_present(files: FileMap, paths: Seq<Seq<char>>) -> bool {
    forall|i: int| 0 <= i < paths.len() ==> files.dom().contains(#[trigger] paths[i])
}

/// Whether no file but the first `count` of a list is there.
spec fn only_paths(files: FileMap, paths: Seq<Seq<char>>, count: nat) -> bool {
    forall|p: Seq<char>| #[trigger]
        files.dom().contains(p) ==> exists|i: int| 0 <= i < count && #[trigger] paths[i] == p
}

/// Whether a path is one of a list, or that of the temporary file of one.
pub open spec fn is_touched(paths: Seq<Seq<char>>, p: Seq<char>) -> bool {
    exists|k: int| 0 <= k < paths.len() && (#[trigger] paths[k] == p || temporary_of(paths[k]) == p)
}

/// Links or copies the segment files of a manifest.
fn copy_segment_files<S: Storage>(
    sink: &mut CopySink,
    source: &S,
    target: &mut S,
    manifest: &Manifest,
) -> (result: Result<(), MnemeError>)
    requires
        source.wf(),
        old(target).wf(),
        forall|p: Seq<char>| !#[trigger] old(target).files().dom().contains(p),
        *old(sink) == (CopySink {
            files: 0,
            bytes: 0,
            hardlinked: manifest.segments@.len() > 0,
        }),
    ensures
        final(target).wf(),
        final(target).reliable() == old(target).reliable(),
        final(target).failures() == old(target).failures(),
        final(target).locked() == old(target).locked(),
        same_at(old(target).files(), final(target).files(), CURRENT_FILE@),
        forall|p: Seq<char>|
            !is_touched(segment_paths(manifest.segments@, manifest.segments@.len()), p)
                ==> #[trigger] same_at(old(target).files(), final(target).files(), p),
        result is Ok ==> are_segments_copied(
            source,
            final(target),
            manifest.segments@,
            *final(sink),
        ),
        result is Ok ==> all_present(
            source.files(),
            segment_paths(manifest.segments@, manifest.segments@.len()),
        ),
        result matches Err(error) ==> (error == unreadable() && (!all_present(
            source.files(),
            segment_paths(manifest.segments@, manifest.segments@.len()),
        ) || may_fail_to_read(failures_of(*source)))) || given_by(
            failures_of(*old(target)),
            error,
        ),
        result is Ok && source.reliable() && old(target).reliable() && old(target).links()
            && segment_paths(manifest.segments@, manifest.segments@.len()).no_duplicates()
            ==> final(sink).hardlinked == (manifest.segments@.len() > 0),
{
    let paths = backup_paths(manifest);
    let ghost wanted = segment_paths(manifest.segments@, manifest.segments@.len());
    let ghost start = target.files();
    let ghost mut lengths: Seq<u64> = Seq::empty();
    let ghost owed = source.reliable() && target.reliable() && target.links()
        && wanted.no_duplicates();
    proof {
        assert forall|k: int| 0 <= k < paths@.len() implies stays_below((#[trigger] paths@[k])@)
            && is_lasting(paths@[k]@) && paths@[k]@ != CURRENT_FILE@ && temporary_of(paths@[k]@)
            != CURRENT_FILE@ by {
            assert(texts(paths@)[k] == paths@[k]@);
            lemma_path_kinds(manifest.segments@, manifest.segments@.len(), k);
        }
    }
    let mut i: usize = 0;
    while i < paths.len()
        invariant
            source.wf(),
            target.wf(),
            target.reliable() == old(target).reliable(),
            target.failures() == old(target).failures(),
            target.locked() == old(target).locked(),
            target.links() == old(target).links(),
            texts(paths@) == wanted,
            wanted == segment_paths(manifest.segments@, manifest.segments@.len()),
            start == old(target).files(),
            i <= paths@.len(),
            forall|k: int|
                0 <= k < paths@.len() ==> stays_below((#[trigger] paths@[k])@) && is_lasting(
                    paths@[k]@,
                ) && paths@[k]@ != CURRENT_FILE@ && temporary_of(paths@[k]@) != CURRENT_FILE@,
            same_at(start, target.files(), CURRENT_FILE@),
            forall|p: Seq<char>|
                !is_touched(wanted, p) ==> #[trigger] same_at(start, target.files(), p),
            all_copied(source.files(), target.files(), wanted, i as nat),
            lengths.len() == i,
            are_counted(source.files(), wanted, lengths, source.reliable()),
            *sink == (CopySink {
                files: i,
                bytes: total_of(lengths),
                hardlinked: manifest.segments@.len() > 0 && all_linked(
                    target.linked(),
                    wanted,
                    i as nat,
                ),
            }),
            owed == (source.reliable() && old(target).reliable() && old(target).links()
                && wanted.no_duplicates()),
            owed ==> only_paths(target.files(), wanted, i as nat) && sink.hardlinked == (
            manifest.segments@.len() > 0),
        decreases paths@.len() - i,
    {
        let rel = &paths[i];
        let ghost before = target.files();
        let ghost held = *target;
        let ghost counts = *sink;
        assert(texts(paths@)[i as int] == rel@);
        assert(wanted[i as int] == rel@);
        proof {
            if owed && before.dom().contains(rel@) {
                let k = choose|k: int| 0 <= k < i && #[trigger] wanted[k] == rel@;
                assert(wanted[k] == wanted[i as int]);
            }
        }
        let result = sink.link_or_copy_required(source, target, rel.as_str());
        proof {
            assert(same_at(before, target.files(), CURRENT_FILE@));
            assert forall|p: Seq<char>| !is_touched(wanted, p) implies #[trigger] same_at(
                start,
                target.files(),
                p,
            ) by {
                assert(wanted[i as int] != p && temporary_of(wanted[i as int]) != p);
                assert(same_at(start, before, p));
                assert(same_at(before, target.files(), p));
            }
        }
        match result {
            Ok(()) => {},
            Err(error) => {
                assert(source.reliable() && old(target).reliable()
                    ==> !source.files().dom().contains(wanted[i as int]));
                return Err(error);
            },
        }
        proof {
            let (len, linked) = choose|len: u64, linked: bool| #[trigger]
                is_taken(source, held, *target, rel@, counts, *sink, len, linked);
            assert forall|k: int| 0 <= k < i + 1 implies is_copied(
                source.files(),
                target.files(),
                #[trigger] wanted[k],
            ) by {
                if k < i {
                    assert(texts(paths@)[k] == paths@[k]@);
                    lemma_copy_stays(source.files(), before, target.files(), rel@, wanted[k]);
                }
            }
            lemma_linked_next(
                held.linked(),
                target.linked(),
                wanted,
                i as nat,
                linked,
                before,
                source.files(),
            );
            assert(lengths.push(len).drop_last() =~= lengths);
            lengths = lengths.push(len);
            if owed {
                assert forall|p: Seq<char>| #[trigger]
                    target.files().dom().contains(p) implies exists|k: int|
                    0 <= k < i + 1 && #[trigger] wanted[k] == p by {
                    if p == rel@ {
                        assert(wanted[i as int] == p);
                    } else {
                        assert(before.dom().contains(p));
                    }
                }
            }
        }
        i = i + 1;
    }
    proof {
        assert(are_segments_copied(source, target, manifest.segments@, *sink));
    }
    Ok(())
}

/// Whether the files of these segments are in the target, each counted once.
pub open spec fn are_segments_copied<S: Storage>(
    source: &S,
    target: &S,
    segments: Seq<SegmentEntry>,
    sink: CopySink,
) -> bool {
    let paths = segment_paths(segments, segments.len());
    &&& all_copied(source.files(), target.files(), paths, paths.len())
    &&& sink.files == paths.len()
    &&& sink.hardlinked == (segments.len() > 0 && all_linked(target.linked(), paths, paths.len()))
    &&& exists|lengths: Seq<u64>|
        lengths.len() == paths.len() && are_counted(
            source.files(),
            paths,
            lengths,
            source.reliable(),
        ) && sink.bytes == #[trigger] total_of(lengths)
}

proof fn lemma_linked_next(
    before: PathSet,
    after: PathSet,
    paths: Seq<Seq<char>>,
    at: nat,
    linked: bool,
    files: FileMap,
    source: FileMap,
)
    requires
        at < paths.len(),
        all_copied(source, files, paths, at),
        linked ==> !files.dom().contains(paths[at as int]),
        after == (if linked {
            before.insert(paths[at as int])
        } else {
            before.remove(paths[at as int])
        }),
    ensures
        all_linked(after, paths, at + 1) == (linked && all_linked(before, paths, at)),
{
    if linked && all_linked(before, paths, at) {
        assert forall|i: int| 0 <= i < at + 1 implies after.contains(#[trigger] paths[i]) by {}
    }
    if all_linked(after, paths, at + 1) {
        assert(after.contains(paths[at as int]));
        assert forall|i: int| 0 <= i < at implies before.contains(#[trigger] paths[i]) by {
            assert(after.contains(paths[i]));
            assert(is_copied(source, files, paths[i]));
        }
    }
}

/// Every path of a segment file is one that a backup can hold.
proof fn lemma_path_kinds(segments: Seq<SegmentEntry>, count: nat, at: int)
    requires
        count <= segments.len(),
        0 <= at < segment_paths(segments, count).len(),
    ensures
        stays_below(segment_paths(segments, count)[at]),
        is_lasting(segment_paths(segments, count)[at]),
        segment_paths(segments, count)[at] != CURRENT_FILE@,
        temporary_of(segment_paths(segments, count)[at]) != CURRENT_FILE@,
    decreases count,
{
    if count > 0 {
        let before = segment_paths(segments, (count - 1) as nat);
        let id = segments[count - 1].segment_id;
        if at < before.len() {
            lemma_path_kinds(segments, (count - 1) as nat, at);
        } else {
            let file = if at == before.len() {
                SegmentFile::Vsec
            } else if at == before.len() + 1 {
                SegmentFile::Msec
            } else {
                SegmentFile::Hidx
            };
            assert(segment_paths(segments, count)[at] == segment_path(file, id));
            library_paths_stay_below(file, id, 0, 0);
            lemma_lasting(file, id, 0);
            reveal_strlit("segments");
            reveal_strlit("current");
            assert(segment_path(file, id)[0] == 's');
            assert(temporary_of(segment_path(file, id))[0] == 's');
            assert(CURRENT_FILE@[0] == 'c');
        }
    }
}

/// The bytes counted after the first `count` log files.
pub open spec fn log_bytes(start: u64, files: FileMap, logs: Seq<String>, count: nat) -> u64
    decreases count,
{
    if count == 0 {
        start
    } else {
        capped_sum(
            log_bytes(start, files, logs, (count - 1) as nat),
            files[logs[count - 1]@].len() as u64,
        )
    }
}

/// Whether every log file of the source is copied.
pub open spec fn logs_copied(source: FileMap, target: FileMap) -> bool {
    forall|path: Seq<char>| #[trigger] is_wal_file(source, path) ==> is_copied(source, target, path)
}

/// Whether everything that a backup needs besides `current` is copied.
pub open spec fn is_complete(
    source: FileMap,
    target: FileMap,
    version: u64,
    segments: Seq<SegmentEntry>,
) -> bool {
    let paths = segment_paths(segments, segments.len());
    &&& all_copied(source, target, paths, paths.len())
    &&& is_copied(source, target, manifest_file(version))
    &&& logs_copied(source, target)
}

/// What a backup reports, where it counted these lengths for the segment files and copied these
/// log files.
pub open spec fn report_of(
    files: FileMap,
    version: u64,
    lengths: Seq<u64>,
    logs: Seq<String>,
    hardlinked: bool,
) -> BackupReport {
    let with_manifest = capped_sum(total_of(lengths), files[manifest_file(version)].len() as u64);
    BackupReport {
        files: capped_count(lengths.len() + logs.len() + 2int),
        bytes: capped_sum(
            log_bytes(with_manifest, files, logs, logs.len()),
            version_bytes(version).len() as u64,
        ),
        hardlinked,
    }
}

/// Whether a backup of these segments may report this.
pub open spec fn is_report<S: Storage>(
    source: &S,
    target: &S,
    version: u64,
    segments: Seq<SegmentEntry>,
    report: BackupReport,
) -> bool {
    let paths = segment_paths(segments, segments.len());
    exists|lengths: Seq<u64>, logs: Seq<String>|
        #![trigger report_of(source.files(), version, lengths, logs, report.hardlinked)]
        lengths.len() == paths.len() && are_counted(
            source.files(),
            paths,
            lengths,
            source.reliable(),
        ) && lists_wal(source.files(), logs) && report == report_of(
            source.files(),
            version,
            lengths,
            logs,
            segments.len() > 0 && all_linked(target.linked(), paths, paths.len()),
        )
}

/// Copies the log files.
fn copy_logs<S: Storage, T: Storage>(
    sink: &mut CopySink,
    source: &S,
    target: &mut T,
    logs: &Vec<String>,
) -> (result: Result<(), MnemeError>)
    requires
        source.wf(),
        old(target).wf(),
        lists_wal(source.files(), logs@),
    ensures
        final(target).wf(),
        final(target).reliable() == old(target).reliable(),
        final(target).failures() == old(target).failures(),
        final(target).locked() == old(target).locked(),
        same_at(old(target).files(), final(target).files(), CURRENT_FILE@),
        forall|p: Seq<char>|
            !is_touched(texts(logs@), p) ==> #[trigger] same_at(
                old(target).files(),
                final(target).files(),
                p,
            ),
        result is Ok ==> forall|p: Seq<char>|
            !is_wal_file(source.files(), p) ==> (#[trigger] final(target).linked().contains(p)
                == old(target).linked().contains(p)),
        forall|path: Seq<char>|
            is_lasting(path) && is_copied(source.files(), old(target).files(), path) ==> #[trigger]
            is_copied(source.files(), final(target).files(), path),
        result is Ok ==> logs_copied(source.files(), final(target).files()) && *final(sink) == (
        CopySink {
            files: capped_count(old(sink).files + logs@.len()),
            bytes: log_bytes(old(sink).bytes, source.files(), logs@, logs@.len()),
            hardlinked: old(sink).hardlinked,
        }),
        result matches Err(error) ==> given_by(failures_of(*source), error) || given_by(
            failures_of(*old(target)),
            error,
        ),
{
    let ghost start = *sink;
    let ghost first = target.files();
    proof {
        assert forall|k: int| 0 <= k < logs@.len() implies source.files().dom().contains(
            (#[trigger] logs@[k])@,
        ) && stays_below(logs@[k]@) && is_lasting(logs@[k]@) && logs@[k]@ != CURRENT_FILE@
            && temporary_of(logs@[k]@) != CURRENT_FILE@ by {
            lemma_log_kinds(source.files(), logs@, k);
        }
    }
    let mut i: usize = 0;
    while i < logs.len()
        invariant
            source.wf(),
            target.wf(),
            target.reliable() == old(target).reliable(),
            target.failures() == old(target).failures(),
            target.locked() == old(target).locked(),
            start == *old(sink),
            lists_wal(source.files(), logs@),
            forall|p: Seq<char>|
                !is_wal_file(source.files(), p) ==> (#[trigger] target.linked().contains(p)
                    == old(target).linked().contains(p)),
            first == old(target).files(),
            i <= logs@.len(),
            forall|k: int|
                0 <= k < logs@.len() ==> source.files().dom().contains((#[trigger] logs@[k])@)
                    && stays_below(logs@[k]@) && is_lasting(logs@[k]@) && logs@[k]@ != CURRENT_FILE@
                    && temporary_of(logs@[k]@) != CURRENT_FILE@,
            same_at(first, target.files(), CURRENT_FILE@),
            forall|p: Seq<char>|
                !is_touched(texts(logs@), p) ==> #[trigger] same_at(first, target.files(), p),
            forall|path: Seq<char>|
                is_lasting(path) && is_copied(source.files(), first, path) ==> #[trigger] is_copied(
                    source.files(),
                    target.files(),
                    path,
                ),
            forall|k: int|
                0 <= k < i ==> is_copied(source.files(), target.files(), (#[trigger] logs@[k])@),
            *sink == (CopySink {
                files: capped_count(start.files + i),
                bytes: log_bytes(start.bytes, source.files(), logs@, i as nat),
                hardlinked: start.hardlinked,
            }),
        decreases logs@.len() - i,
    {
        let rel = &logs[i];
        let ghost before = target.files();
        assert(source.files().dom().contains(logs@[i as int]@));
        let result = sink.copy_optional(source, target, rel.as_str());
        proof {
            assert(same_at(before, target.files(), CURRENT_FILE@));
            assert(texts(logs@)[i as int] == rel@);
            assert forall|p: Seq<char>| !is_touched(texts(logs@), p) implies #[trigger] same_at(
                first,
                target.files(),
                p,
            ) by {
                assert(texts(logs@)[i as int] != p && temporary_of(texts(logs@)[i as int]) != p);
                assert(same_at(first, before, p));
                assert(same_at(before, target.files(), p));
            }
            assert forall|path: Seq<char>|
                is_lasting(path)
                    && is_copied(source.files(), first, path) implies #[trigger] is_copied(
                source.files(),
                target.files(),
                path,
            ) by {
                assert(is_copied(source.files(), before, path));
                lemma_copy_stays(source.files(), before, target.files(), rel@, path);
            }
        }
        match result {
            Ok(()) => {},
            Err(error) => {
                return Err(error);
            },
        }
        proof {
            assert forall|k: int| 0 <= k < i + 1 implies is_copied(
                source.files(),
                target.files(),
                (#[trigger] logs@[k])@,
            ) by {
                if k < i {
                    lemma_copy_stays(source.files(), before, target.files(), rel@, logs@[k]@);
                }
            }
        }
        i = i + 1;
    }
    proof {
        let files = source.files();
        assert forall|path: Seq<char>| #[trigger] is_wal_file(files, path) implies is_copied(
            files,
            target.files(),
            path,
        ) by {
            let name = choose|name: Seq<char>|
                crate::layout::is_wal_name(name) && #[trigger] dir_holds(files, WAL_DIR@, name)
                    && path == crate::wal_writer::wal_rel(name);
            assert(crate::wal_writer::lists_path(logs@, path));
            let k = choose|k: int| 0 <= k < logs@.len() && (#[trigger] logs@[k])@ == path;
            assert(is_copied(files, target.files(), logs@[k]@));
        }
    }
    Ok(())
}

proof fn lemma_log_kinds(files: FileMap, logs: Seq<String>, at: int)
    requires
        lists_wal(files, logs),
        0 <= at < logs.len(),
    ensures
        files.dom().contains(logs[at]@),
        stays_below(logs[at]@),
        is_lasting(logs[at]@),
        logs[at]@ != CURRENT_FILE@,
        temporary_of(logs[at]@) != CURRENT_FILE@,
{
    let path = logs[at]@;
    assert(is_wal_file(files, path));
    lemma_lasting_wal(files, path);
    crate::wal_writer::lemma_wal_path_below(files, logs, at);
    let name = choose|name: Seq<char>|
        crate::layout::is_wal_name(name) && #[trigger] dir_holds(files, WAL_DIR@, name) && path
            == crate::wal_writer::wal_rel(name);
    reveal_strlit("wal");
    reveal_strlit("current");
    assert(crate::storage::dir_prefix(WAL_DIR@) + name == path);
    assert(path[0] == 'w');
    assert(temporary_of(path)[0] == 'w');
    assert(CURRENT_FILE@[0] == 'c');
}

/// Whether a backup may write a path: that of a file that it copies, that of `current`, or that of
/// the temporary file of one of these.
pub open spec fn backup_writes(
    files: FileMap,
    version: u64,
    segments: Seq<SegmentEntry>,
    p: Seq<char>,
) -> bool {
    ||| is_touched(segment_paths(segments, segments.len()), p)
    ||| is_touched(seq![manifest_file(version), CURRENT_FILE@], p)
    ||| exists|q: Seq<char>| #[trigger]
        is_wal_file(files, q) && (q == p || temporary_of(q) == p)
}

proof fn lemma_backup_writes(
    files: FileMap,
    version: u64,
    segments: Seq<SegmentEntry>,
    logs: Seq<String>,
    p: Seq<char>,
)
    requires
        !backup_writes(files, version, segments, p),
    ensures
        !is_touched(segment_paths(segments, segments.len()), p),
        p != manifest_file(version) && p != temporary_of(manifest_file(version)),
        p != CURRENT_FILE@ && p != temporary_of(CURRENT_FILE@),
        lists_wal(files, logs) ==> !is_touched(texts(logs), p),
{
    let pair = seq![manifest_file(version), CURRENT_FILE@];
    assert(pair[0] != p && temporary_of(pair[0]) != p);
    assert(pair[1] != p && temporary_of(pair[1]) != p);
    if lists_wal(files, logs) && is_touched(texts(logs), p) {
        let k = choose|k: int|
            0 <= k < texts(logs).len() && (#[trigger] texts(logs)[k] == p || temporary_of(
                texts(logs)[k],
            ) == p);
        assert(texts(logs)[k] == logs[k]@);
        assert(is_wal_file(files, logs[k]@));
    }
}

/// Whether every file that a backup needs is there: those of the segments and that of the manifest.
pub open spec fn is_whole(files: FileMap, version: u64, segments: Seq<SegmentEntry>) -> bool {
    all_present(files, segment_paths(segments, segments.len())) && files.dom().contains(
        manifest_file(version),
    )
}

/// Copies a library into a place where nothing is yet: its segments, its committed manifest and
/// its log, and `current` at the very end. A backup that fails on the way has no `current` and
/// cannot be mistaken for a whole one.
///
/// Segment files, which never change, are linked where the two backends can share them.
/// `same_place` says that the target is the library itself.
pub fn backup_to<S: Storage>(
    source: &S,
    target: &mut S,
    same_place: bool,
    version: u64,
    manifest: &Manifest,
) -> (result: Result<BackupReport, MnemeError>)
    requires
        source.wf(),
        old(target).wf(),
    ensures
        final(target).wf(),
        final(target).reliable() == old(target).reliable(),
        final(target).failures() == old(target).failures(),
        final(target).locked() == old(target).locked(),
        forall|p: Seq<char>|
            !backup_writes(source.files(), version, manifest.segments@, p) ==> #[trigger] same_at(
                old(target).files(),
                final(target).files(),
                p,
            ),
        same_place ==> result == Err::<BackupReport, MnemeError>(
            MnemeError::Config { reason: ConfigFault::BackupIntoSelf },
        ) && *final(target) == *old(target),
        !same_place && !is_vacant(old(target).files(), old(target).dirs()) ==> result is Err
            && *final(target) == *old(target),
        !same_place && !is_vacant(old(target).files(), old(target).dirs()) ==> (
        result matches Err(error) ==> error == MnemeError::Busy(BusyFault::BackupTargetNotEmpty)
            || given_by(failures_of(*old(target)), error)),
        result matches Ok(report) ==> {
            &&& is_complete(source.files(), final(target).files(), version, manifest.segments@)
            &&& final(target).files().dom().contains(CURRENT_FILE@)
            &&& final(target).files()[CURRENT_FILE@] == version_bytes(version)
            &&& is_report(source, final(target), version, manifest.segments@, report)
        },
        result is Err ==> !final(target).files().dom().contains(CURRENT_FILE@) || is_complete(
            source.files(),
            final(target).files(),
            version,
            manifest.segments@,
        ) || *final(target) == *old(target),
        result is Ok ==> is_whole(source.files(), version, manifest.segments@),
        !same_place && is_vacant(old(target).files(), old(target).dirs()) ==> (
        result matches Err(error) ==> (error == unreadable() && (!is_whole(
            source.files(),
            version,
            manifest.segments@,
        ) || may_fail_to_read(failures_of(*source)))) || given_by(failures_of(*source), error)
            || given_by(failures_of(*old(target)), error)),
        source.reliable() && old(target).reliable() && old(target).links() && segment_paths(
            manifest.segments@,
            manifest.segments@.len(),
        ).no_duplicates() ==> (result matches Ok(report) ==> report.hardlinked == (
        manifest.segments@.len() > 0)),
{
    if same_place {
        return Err(MnemeError::Config { reason: ConfigFault::BackupIntoSelf });
    }
    proof {
        library_paths_stay_below(SegmentFile::Vsec, 0, 0, version);
        lemma_lasting(SegmentFile::Vsec, 0, version);
        crate::manifest_io::lemma_manifest_names(version);
        reveal_strlit("");
        assert(""@ =~= Seq::<char>::empty());
    }
    match target.vacant() {
        Ok(true) => {},
        Ok(false) => {
            return Err(MnemeError::Busy(BusyFault::BackupTargetNotEmpty));
        },
        Err(error) => {
            return Err(error);
        },
    }
    match target.ensure_dir("") {
        Ok(()) => {},
        Err(error) => {
            return Err(error);
        },
    }
    match target.ensure_dir(SEGMENTS_DIR) {
        Ok(()) => {},
        Err(error) => {
            return Err(error);
        },
    }
    match target.ensure_dir(WAL_DIR) {
        Ok(()) => {},
        Err(error) => {
            return Err(error);
        },
    }
    let ghost paths = segment_paths(manifest.segments@, manifest.segments@.len());
    let mut sink = CopySink { files: 0, bytes: 0, hardlinked: manifest.segments.len() > 0 };
    let copied = copy_segment_files(&mut sink, source, target, manifest);
    let ghost segments_done = target.files();
    proof {
        assert forall|p: Seq<char>|
            !backup_writes(source.files(), version, manifest.segments@, p) implies #[trigger]
        same_at(
            old(target).files(),
            segments_done,
            p,
        ) by {
            lemma_backup_writes(source.files(), version, manifest.segments@, Seq::empty(), p);
        }
    }
    match copied {
        Ok(()) => {},
        Err(error) => {
            return Err(error);
        },
    }
    let ghost linked = target.linked();
    let ghost lengths = choose|lengths: Seq<u64>|
        lengths.len() == paths.len() && are_counted(
            source.files(),
            paths,
            lengths,
            source.reliable(),
        ) && sink.bytes == #[trigger] total_of(lengths);
    let name = manifest_name(version);
    let copied = sink.copy_required(source, target, name.as_str());
    let ghost manifest_done = target.files();
    proof {
        assert(same_at(segments_done, manifest_done, CURRENT_FILE@));
        assert forall|p: Seq<char>|
            !backup_writes(source.files(), version, manifest.segments@, p) implies #[trigger]
        same_at(
            old(target).files(),
            manifest_done,
            p,
        ) by {
            lemma_backup_writes(source.files(), version, manifest.segments@, Seq::empty(), p);
            assert(same_at(old(target).files(), segments_done, p));
            assert(same_at(segments_done, manifest_done, p));
        }
        assert forall|k: int| 0 <= k < paths.len() implies is_copied(
            source.files(),
            manifest_done,
            #[trigger] paths[k],
        ) by {
            lemma_path_kinds(manifest.segments@, manifest.segments@.len(), k);
            lemma_copy_stays(source.files(), segments_done, manifest_done, name@, paths[k]);
        }
    }
    match copied {
        Ok(()) => {},
        Err(error) => {
            return Err(error);
        },
    }
    let logs = match wal_files(source) {
        Ok(logs) => logs,
        Err(error) => {
            return Err(error);
        },
    };
    let copied = copy_logs(&mut sink, source, target, &logs);
    let ghost logs_done = target.files();
    proof {
        assert forall|p: Seq<char>|
            !backup_writes(source.files(), version, manifest.segments@, p) implies #[trigger]
        same_at(
            old(target).files(),
            logs_done,
            p,
        ) by {
            lemma_backup_writes(source.files(), version, manifest.segments@, logs@, p);
            assert(same_at(old(target).files(), manifest_done, p));
            assert(same_at(manifest_done, logs_done, p));
        }
    }
    match copied {
        Ok(()) => {},
        Err(error) => {
            return Err(error);
        },
    }
    proof {
        assert forall|k: int| 0 <= k < paths.len() implies is_copied(
            source.files(),
            logs_done,
            #[trigger] paths[k],
        ) by {
            lemma_path_kinds(manifest.segments@, manifest.segments@.len(), k);
            assert(is_copied(source.files(), manifest_done, paths[k]));
        }
        assert(is_copied(source.files(), logs_done, manifest_file(version)));
    }
    let pointer = current_bytes(version);
    let pointer_bytes = pointer.as_str().as_bytes();
    let pointer_len: usize = pointer_bytes.len();
    let written = target.write_atomic(CURRENT_FILE, pointer_bytes);
    proof {
        let end = target.files();
        assert forall|p: Seq<char>|
            !backup_writes(source.files(), version, manifest.segments@, p) implies #[trigger]
        same_at(
            old(target).files(),
            end,
            p,
        ) by {
            lemma_backup_writes(source.files(), version, manifest.segments@, logs@, p);
            assert(same_at(old(target).files(), logs_done, p));
            assert(same_at(logs_done, end, p));
        }
        assert forall|k: int| 0 <= k < paths.len() implies is_copied(
            source.files(),
            end,
            #[trigger] paths[k],
        ) by {
            lemma_path_kinds(manifest.segments@, manifest.segments@.len(), k);
            lemma_copy_stays(source.files(), logs_done, end, CURRENT_FILE@, paths[k]);
        }
        lemma_copy_stays(
            source.files(),
            logs_done,
            end,
            CURRENT_FILE@,
            manifest_file(version),
        );
        assert forall|path: Seq<char>| #[trigger]
            is_wal_file(source.files(), path) implies is_copied(source.files(), end, path) by {
            lemma_lasting_wal(source.files(), path);
            lemma_wal_file_path(source.files(), path);
            lemma_copy_stays(source.files(), logs_done, end, CURRENT_FILE@, path);
        }
        assert(is_complete(source.files(), end, version, manifest.segments@));
    }
    match written {
        Ok(()) => {},
        Err(error) => {
            return Err(error);
        },
    }
    let report = BackupReport {
        files: sink.files.saturating_add(1),
        bytes: sink.bytes.saturating_add(pointer_len as u64),
        hardlinked: sink.hardlinked,
    };
    assert(logs@.len() == logs.len());
    assert(pointer_len == version_bytes(version).len());
    proof {
        assert forall|k: int| 0 <= k < paths.len() implies (linked.contains(#[trigger] paths[k])
            == target.linked().contains(paths[k])) by {
            lemma_path_kinds(manifest.segments@, manifest.segments@.len(), k);
            lemma_segment_is_no_log(
                source.files(),
                manifest.segments@,
                manifest.segments@.len(),
                k,
            );
        }
        assert(all_linked(linked, paths, paths.len()) == all_linked(
            target.linked(),
            paths,
            paths.len(),
        )) by {
            if all_linked(linked, paths, paths.len()) {
                assert forall|k: int| 0 <= k < paths.len() implies target.linked().contains(
                    #[trigger] paths[k],
                ) by {}
            } else {
                let k = choose|k: int|
                    0 <= k < paths.len() && !linked.contains(#[trigger] paths[k]);
                assert(!target.linked().contains(paths[k]));
            }
        }
        assert(report == report_of(
            source.files(),
            version,
            lengths,
            logs@,
            report.hardlinked,
        ));
    }
    Ok(report)
}

proof fn lemma_wal_file_path(files: FileMap, path: Seq<char>)
    requires
        is_wal_file(files, path),
    ensures
        path != CURRENT_FILE@,
{
    reveal_strlit("wal");
    reveal_strlit("current");
    let name = choose|name: Seq<char>|
        crate::layout::is_wal_name(name) && #[trigger] dir_holds(files, WAL_DIR@, name) && path
            == crate::wal_writer::wal_rel(name);
    assert(path[0] == 'w');
    assert(CURRENT_FILE@[0] == 'c');
}

/// No segment file is a log file or a manifest.
proof fn lemma_segment_is_no_log(
    files: FileMap,
    segments: Seq<SegmentEntry>,
    count: nat,
    at: int,
)
    requires
        count <= segments.len(),
        0 <= at < segment_paths(segments, count).len(),
    ensures
        !is_wal_file(files, segment_paths(segments, count)[at]),
        forall|version: u64|
            segment_paths(segments, count)[at] != #[trigger] manifest_file(version),
    decreases count,
{
    let before = segment_paths(segments, (count - 1) as nat);
    if at < before.len() {
        lemma_segment_is_no_log(files, segments, (count - 1) as nat, at);
    } else {
        let path = segment_paths(segments, count)[at];
        reveal_strlit("segments");
        reveal_strlit("wal");
        reveal_strlit("MANIFEST.");
        assert(path[0] == 's');
        if is_wal_file(files, path) {
            let name = choose|name: Seq<char>|
                crate::layout::is_wal_name(name) && #[trigger] dir_holds(files, WAL_DIR@, name)
                    && path == crate::wal_writer::wal_rel(name);
            assert(crate::wal_writer::wal_rel(name)[0] == 'w');
        }
        assert forall|version: u64| path != #[trigger] manifest_file(version) by {
            assert(manifest_file(version)[0] == 'M');
        }
    }
}

/// A segment path of the manifest is among those that a backup holds.
proof fn lemma_listed_path(
    segments: Seq<SegmentEntry>,
    count: nat,
    at: int,
    file: SegmentFile,
) -> (place: int)
    requires
        0 <= at < count <= segments.len(),
        file is Hidx ==> segments[at].hidx_crc != 0,
    ensures
        0 <= place < segment_paths(segments, count).len(),
        segment_paths(segments, count)[place] == segment_path(file, segments[at].segment_id),
    decreases count,
{
    let before = segment_paths(segments, (count - 1) as nat);
    let paths = segment_paths(segments, count);
    assert(paths.len() >= before.len() + 2);
    assert(forall|i: int| 0 <= i < before.len() ==> paths[i] == #[trigger] before[i]);
    if at < count - 1 {
        lemma_listed_path(segments, (count - 1) as nat, at, file)
    } else {
        match file {
            SegmentFile::Vsec => before.len() as int,
            SegmentFile::Msec => before.len() + 1int,
            SegmentFile::Hidx => before.len() + 2int,
        }
    }
}

/// A backup can be opened on its own: it names the version that was backed up, the manifest of that
/// version is the one that the source has, its log files are those of the source, and its segments
/// open as those of the source do.
pub proof fn backup_opens_like_its_source<
    D: Fn(u64, Vec<u8>) -> Decoded,
    U: Fn(SegmentFile, u32, Vec<u8>) -> Result<Vec<u8>, MnemeError>,
>(
    source: FileMap,
    target: FileMap,
    version: u64,
    manifest: Manifest,
    decode: D,
    unseal: U,
    magic: Seq<u8>,
    fail_fast: bool,
    failures: FailureSet,
    at: int,
    opened: Result<SegmentHandle, MnemeError>,
)
    requires
        holds_version(source, decode, manifest_file(version), version, manifest),
        is_complete(source, target, version, manifest.segments@),
        target.dom().contains(CURRENT_FILE@),
        target[CURRENT_FILE@] == version_bytes(version),
        0 <= at < manifest.segments@.len(),
    ensures
        is_latest(target, decode, manifest, version),
        logs_copied(source, target),
        opens_segment(source, manifest.segments@[at], fail_fast, magic, unseal, failures, opened)
            ==> opens_segment(
            target,
            manifest.segments@[at],
            fail_fast,
            magic,
            unseal,
            failures,
            opened,
        ),
{
    let segments = manifest.segments@;
    let entry = segments[at];
    current_round_trip(version);
    assert forall|file: SegmentFile| file is Hidx ==> entry.hidx_crc != 0 implies is_copied(
        source,
        target,
        #[trigger] segment_path(file, entry.segment_id),
    ) by {
        let place = lemma_listed_path(segments, segments.len(), at, file);
        assert(is_copied(source, target, segment_paths(segments, segments.len())[place]));
    }
    if opens_segment(source, entry, fail_fast, magic, unseal, failures, opened) {
        let (vsec, msec, hidx) = choose|
            vsec: Result<ByteFile, MnemeError>,
            msec: Result<ByteFile, MnemeError>,
            hidx: Result<Option<ByteFile>, MnemeError>,
        |
            opens_required(
                source,
                SegmentFile::Vsec,
                entry.segment_id,
                magic,
                unseal,
                failures,
                vsec,
            ) && (vsec is Ok ==> opens_required(
                source,
                SegmentFile::Msec,
                entry.segment_id,
                magic,
                unseal,
                failures,
                msec,
            )) && (vsec is Ok && msec is Ok ==> opens_optional(
                source,
                entry.segment_id,
                entry.hidx_crc,
                fail_fast,
                magic,
                unseal,
                failures,
                hidx,
            )) && opened == #[trigger] handle_outcome(vsec, msec, hidx, entry.segment_id);
        lemma_opens_required_alike(
            source,
            target,
            SegmentFile::Vsec,
            entry.segment_id,
            magic,
            unseal,
            failures,
            vsec,
        );
        if vsec is Ok {
            lemma_opens_required_alike(
                source,
                target,
                SegmentFile::Msec,
                entry.segment_id,
                magic,
                unseal,
                failures,
                msec,
            );
        }
        if vsec is Ok && msec is Ok && entry.hidx_crc != 0 {
            let found = choose|found: Result<ByteFile, MnemeError>| #[trigger]
                is_opening(
                    source,
                    SegmentFile::Hidx,
                    entry.segment_id,
                    magic,
                    unseal,
                    failures,
                    found,
                ) && hidx == optional_outcome(found, entry.segment_id, entry.hidx_crc, fail_fast);
            assert(is_copied(source, target, segment_path(SegmentFile::Hidx, entry.segment_id)));
            assert(is_opening(
                target,
                SegmentFile::Hidx,
                entry.segment_id,
                magic,
                unseal,
                failures,
                found,
            ));
        }
        assert(opened == handle_outcome(vsec, msec, hidx, entry.segment_id));
    }
}

proof fn lemma_opens_required_alike<
    U: Fn(SegmentFile, u32, Vec<u8>) -> Result<Vec<u8>, MnemeError>,
>(
    source: FileMap,
    target: FileMap,
    file: SegmentFile,
    segment_id: u32,
    magic: Seq<u8>,
    unseal: U,
    failures: FailureSet,
    result: Result<ByteFile, MnemeError>,
)
    requires
        is_copied(source, target, segment_path(file, segment_id)),
        opens_required(source, file, segment_id, magic, unseal, failures, result),
    ensures
        opens_required(target, file, segment_id, magic, unseal, failures, result),
{
    let opened = choose|opened: Result<ByteFile, MnemeError>| #[trigger]
        is_opening(source, file, segment_id, magic, unseal, failures, opened) && result
            == required_outcome(opened, file, segment_id);
    assert(is_opening(target, file, segment_id, magic, unseal, failures, opened));
}

/// The lengths added up, without a limit.
pub open spec fn lengths_added(lengths: Seq<u64>) -> int
    decreases lengths.len(),
{
    if lengths.len() == 0 {
        0
    } else {
        lengths_added(lengths.drop_last()) + lengths.last()
    }
}

/// How many of the first `count` segments have a graph.
pub open spec fn graph_count(segments: Seq<SegmentEntry>, count: nat) -> nat
    decreases count,
{
    if count == 0 {
        0
    } else if segments[count - 1].hidx_crc != 0 {
        graph_count(segments, (count - 1) as nat) + 1
    } else {
        graph_count(segments, (count - 1) as nat)
    }
}

/// The lengths of the first `count` log files added up, without a limit.
pub open spec fn log_lengths_added(files: FileMap, logs: Seq<String>, count: nat) -> int
    decreases count,
{
    if count == 0 {
        0
    } else {
        log_lengths_added(files, logs, (count - 1) as nat) + files[logs[count - 1]@].len()
    }
}

proof fn lemma_total(lengths: Seq<u64>)
    ensures
        lengths_added(lengths) >= 0,
        total_of(lengths) == (if lengths_added(lengths) > u64::MAX {
            u64::MAX as int
        } else {
            lengths_added(lengths)
        }),
    decreases lengths.len(),
{
    if lengths.len() > 0 {
        lemma_total(lengths.drop_last());
    }
}

proof fn lemma_log_total(start: u64, files: FileMap, logs: Seq<String>, count: nat)
    requires
        forall|path: Seq<char>| (#[trigger] files[path]).len() <= u64::MAX,
    ensures
        log_lengths_added(files, logs, count) >= 0,
        log_bytes(start, files, logs, count) == (if start + log_lengths_added(files, logs, count)
            > u64::MAX {
            u64::MAX as int
        } else {
            start + log_lengths_added(files, logs, count)
        }),
    decreases count,
{
    if count > 0 {
        lemma_log_total(start, files, logs, (count - 1) as nat);
    }
}

proof fn lemma_path_count(segments: Seq<SegmentEntry>, count: nat)
    ensures
        segment_paths(segments, count).len() == 2 * count + graph_count(segments, count),
    decreases count,
{
    if count > 0 {
        lemma_path_count(segments, (count - 1) as nat);
    }
}

/// A backup that is complete holds, byte for byte, the vector file and the metadata file of every
/// segment, the graph file of every segment that has one, the manifest and every log file.
pub proof fn backup_holds_every_file(
    source: FileMap,
    target: FileMap,
    version: u64,
    segments: Seq<SegmentEntry>,
    at: int,
    log: Seq<char>,
)
    requires
        is_complete(source, target, version, segments),
    ensures
        target.dom().contains(manifest_file(version)),
        target[manifest_file(version)] == source[manifest_file(version)],
        0 <= at < segments.len() ==> {
            let vsec = segment_path(SegmentFile::Vsec, segments[at].segment_id);
            let msec = segment_path(SegmentFile::Msec, segments[at].segment_id);
            let hidx = segment_path(SegmentFile::Hidx, segments[at].segment_id);
            &&& target.dom().contains(vsec) && target[vsec] == source[vsec]
            &&& target.dom().contains(msec) && target[msec] == source[msec]
            &&& segments[at].hidx_crc != 0 ==> target.dom().contains(hidx) && target[hidx]
                == source[hidx]
        },
        is_wal_file(source, log) ==> target.dom().contains(log) && target[log] == source[log],
{
    if 0 <= at < segments.len() {
        let paths = segment_paths(segments, segments.len());
        let v = lemma_listed_path(segments, segments.len(), at, SegmentFile::Vsec);
        assert(is_copied(source, target, paths[v]));
        let m = lemma_listed_path(segments, segments.len(), at, SegmentFile::Msec);
        assert(is_copied(source, target, paths[m]));
        if segments[at].hidx_crc != 0 {
            let h = lemma_listed_path(segments, segments.len(), at, SegmentFile::Hidx);
            assert(is_copied(source, target, paths[h]));
        }
    }
}

/// The report of a backup counts two files for every segment, one more for every graph, the log
/// files, the manifest and the file that names its version, and adds up their lengths.
pub proof fn report_counts_every_file(
    files: FileMap,
    version: u64,
    segments: Seq<SegmentEntry>,
    lengths: Seq<u64>,
    logs: Seq<String>,
    hardlinked: bool,
)
    requires
        lengths.len() == segment_paths(segments, segments.len()).len(),
        forall|path: Seq<char>| (#[trigger] files[path]).len() <= u64::MAX,
        version_bytes(version).len() <= u64::MAX,
    ensures
        ({
            let report = report_of(files, version, lengths, logs, hardlinked);
            let count = 2 * segments.len() + graph_count(segments, segments.len()) + logs.len() + 2;
            let bytes = lengths_added(lengths) + files[manifest_file(version)].len()
                + log_lengths_added(files, logs, logs.len()) + version_bytes(version).len();
            &&& report.files == (if count > usize::MAX {
                usize::MAX as int
            } else {
                count as int
            })
            &&& report.bytes == (if bytes > u64::MAX {
                u64::MAX as int
            } else {
                bytes
            })
            &&& report.hardlinked == hardlinked
        }),
{
    lemma_path_count(segments, segments.len());
    lemma_total(lengths);
    let with_manifest = capped_sum(total_of(lengths), files[manifest_file(version)].len() as u64);
    lemma_log_total(with_manifest, files, logs, logs.len());
}

/// A backup reports that it shares its segments with the library only where it has segments and
/// every one of their files is shared.
pub proof fn shared_backup_shares_every_file<S: Storage>(
    source: &S,
    target: &S,
    version: u64,
    segments: Seq<SegmentEntry>,
    report: BackupReport,
    at: int,
)
    requires
        is_report(source, target, version, segments, report),
        report.hardlinked,
    ensures
        segments.len() > 0,
        0 <= at < segments.len() ==> {
            &&& target.linked().contains(segment_path(SegmentFile::Vsec, segments[at].segment_id))
            &&& target.linked().contains(segment_path(SegmentFile::Msec, segments[at].segment_id))
            &&& segments[at].hidx_crc != 0 ==> target.linked().contains(
                segment_path(SegmentFile::Hidx, segments[at].segment_id),
            )
        },
{
    if 0 <= at < segments.len() {
        let paths = segment_paths(segments, segments.len());
        let v = lemma_listed_path(segments, segments.len(), at, SegmentFile::Vsec);
        assert(target.linked().contains(paths[v]));
        let m = lemma_listed_path(segments, segments.len(), at, SegmentFile::Msec);
        assert(target.linked().contains(paths[m]));
        if segments[at].hidx_crc != 0 {
            let h = lemma_listed_path(segments, segments.len(), at, SegmentFile::Hidx);
            assert(target.linked().contains(paths[h]));
        }
    }
}

} // verus!
