//! Writing segments and installing them in the state.

use vstd::prelude::*;

use crate::error::{IdKind, MnemeError, SegmentFile};
use crate::hidx::{graph_models, BuiltGraph, GraphModel, SegmentIndex};
use crate::hook::{ask_write, refuses_write, write_passes, FsyncHook};
use crate::layout::{
    library_paths_stay_below, segment_path, segment_paths_differ, segment_rel, segment_suffix,
};
use crate::snapshot::{
    job_slots, jobs_exist, lemma_unpersisted, slots_exist, unpersisted, BuildJob, EncodedSegment,
};
use crate::state::{StateModel, WriterState};
use crate::storage::{
    failures_of, others_kept, same_at, still_settled, temporary_of, FailureSet, FileMap, PathSet,
    Step, Storage,
};

verus! {

/// Whether `seal` may make this of the bytes of a file.
pub open spec fn seals<L: Fn(SegmentFile, u32, &Vec<u8>) -> Result<Vec<u8>, MnemeError>>(
    seal: L,
    file: SegmentFile,
    segment_id: u32,
    plain: Vec<u8>,
    sealed: Seq<u8>,
) -> bool {
    exists|out: Vec<u8>|
        #![trigger seal.ensures((file, segment_id, &plain), Ok(out))]
        out@ == sealed && seal.ensures((file, segment_id, &plain), Ok(out))
}

/// Whether a file may be sealed and then let through by the hook.
pub open spec fn file_passes<
    H: FsyncHook,
    L: Fn(SegmentFile, u32, &Vec<u8>) -> Result<Vec<u8>, MnemeError>,
>(hook: Option<&H>, seal: L, file: SegmentFile, segment_id: u32, plain: Vec<u8>) -> bool {
    exists|sealed: Vec<u8>|
        #![trigger seal.ensures((file, segment_id, &plain), Ok(sealed))]
        seal.ensures((file, segment_id, &plain), Ok(sealed)) && write_passes(
            hook,
            segment_path(file, segment_id),
            0,
            sealed@.len(),
        )
}

/// Whether a file may fail so: it cannot be sealed, or the hook refuses it, or the backend fails.
pub open spec fn file_fails<
    H: FsyncHook,
    L: Fn(SegmentFile, u32, &Vec<u8>) -> Result<Vec<u8>, MnemeError>,
>(
    hook: Option<&H>,
    failures: FailureSet,
    seal: L,
    file: SegmentFile,
    segment_id: u32,
    plain: Vec<u8>,
    error: MnemeError,
) -> bool {
    ||| seal.ensures((file, segment_id, &plain), Err(error))
    ||| exists|sealed: Vec<u8>|
        #![trigger seal.ensures((file, segment_id, &plain), Ok(sealed))]
        seal.ensures((file, segment_id, &plain), Ok(sealed)) && refuses_write(
            hook,
            segment_path(file, segment_id),
            0,
            sealed@.len(),
            error,
        )
    ||| file_passes(hook, seal, file, segment_id, plain) && failures.contains((Step::Write, error))
}

/// Whether every file of a segment may be sealed and let through.
pub open spec fn segment_passes<
    H: FsyncHook,
    L: Fn(SegmentFile, u32, &Vec<u8>) -> Result<Vec<u8>, MnemeError>,
>(hook: Option<&H>, seal: L, segment_id: u32, encoded: EncodedSegment) -> bool {
    &&& file_passes(hook, seal, SegmentFile::Vsec, segment_id, encoded.vsec)
    &&& file_passes(hook, seal, SegmentFile::Msec, segment_id, encoded.msec)
    &&& encoded.hidx matches Some(hidx) ==> file_passes(
        hook,
        seal,
        SegmentFile::Hidx,
        segment_id,
        hidx,
    )
}

/// Whether the first file of a segment that fails may fail so.
pub open spec fn segment_fails<
    H: FsyncHook,
    L: Fn(SegmentFile, u32, &Vec<u8>) -> Result<Vec<u8>, MnemeError>,
>(
    hook: Option<&H>,
    failures: FailureSet,
    seal: L,
    segment_id: u32,
    encoded: EncodedSegment,
    error: MnemeError,
) -> bool {
    let first = file_passes(hook, seal, SegmentFile::Vsec, segment_id, encoded.vsec);
    let second = file_passes(hook, seal, SegmentFile::Msec, segment_id, encoded.msec);
    ||| file_fails(hook, failures, seal, SegmentFile::Vsec, segment_id, encoded.vsec, error)
    ||| first && file_fails(hook, failures, seal, SegmentFile::Msec, segment_id, encoded.msec, error)
    ||| first && second && (encoded.hidx matches Some(hidx) && file_fails(
        hook,
        failures,
        seal,
        SegmentFile::Hidx,
        segment_id,
        hidx,
        error,
    ))
}

/// Whether the first `count` segments, which have consecutive numbers, may be sealed and let
/// through.
pub open spec fn segments_pass<
    H: FsyncHook,
    L: Fn(SegmentFile, u32, &Vec<u8>) -> Result<Vec<u8>, MnemeError>,
>(
    hook: Option<&H>,
    seal: L,
    base: u32,
    encoded: Seq<EncodedSegment>,
    count: nat,
) -> bool {
    forall|i: int|
        0 <= i < count ==> segment_passes(hook, seal, (base + i) as u32, #[trigger] encoded[i])
}

/// Whether the first segment that fails may fail so.
pub open spec fn segments_fail<
    H: FsyncHook,
    L: Fn(SegmentFile, u32, &Vec<u8>) -> Result<Vec<u8>, MnemeError>,
>(
    hook: Option<&H>,
    failures: FailureSet,
    seal: L,
    base: u32,
    encoded: Seq<EncodedSegment>,
    error: MnemeError,
) -> bool {
    exists|i: int|
        0 <= i < encoded.len() && segment_fails(
            hook,
            failures,
            seal,
            (base + i) as u32,
            #[trigger] encoded[i],
            error,
        ) && segments_pass(hook, seal, base, encoded, i as nat)
}

/// Whether a file of a segment is there as it was sealed.
pub open spec fn file_written<L: Fn(SegmentFile, u32, &Vec<u8>) -> Result<Vec<u8>, MnemeError>>(
    files: FileMap,
    seal: L,
    file: SegmentFile,
    segment_id: u32,
    encoded: EncodedSegment,
) -> bool {
    encoded.file(file) matches Some(plain) ==> files.dom().contains(
        segment_path(file, segment_id),
    ) && seals(seal, file, segment_id, plain, files[segment_path(file, segment_id)])
}

/// Whether every file of a segment is there as it was sealed.
pub open spec fn segment_written<L: Fn(SegmentFile, u32, &Vec<u8>) -> Result<Vec<u8>, MnemeError>>(
    files: FileMap,
    seal: L,
    segment_id: u32,
    encoded: EncodedSegment,
) -> bool {
    &&& file_written(files, seal, SegmentFile::Vsec, segment_id, encoded)
    &&& file_written(files, seal, SegmentFile::Msec, segment_id, encoded)
    &&& file_written(files, seal, SegmentFile::Hidx, segment_id, encoded)
}

/// Whether every file of a segment is on stable storage.
pub open spec fn segment_settled(settled: PathSet, segment_id: u32, encoded: EncodedSegment) -> bool {
    forall|file: SegmentFile|
        encoded.file(file) is Some ==> settled.contains(#[trigger] segment_path(file, segment_id))
}

/// Whether segments with consecutive numbers are on stable storage.
pub open spec fn segments_settled(
    settled: PathSet,
    base: u32,
    encoded: Seq<EncodedSegment>,
) -> bool {
    forall|i: int|
        0 <= i < encoded.len()
            ==> segment_settled(settled, (base + i) as u32, #[trigger] encoded[i])
}

/// Whether everything but one segment that was on stable storage still is.
pub open spec fn settled_but_segment(before: PathSet, after: PathSet, segment_id: u32) -> bool {
    forall|path: Seq<char>|
        !in_segment(segment_id, path) && before.contains(path) ==> #[trigger] after.contains(path)
}

/// Whether everything but so many segments from a number on that was on stable storage still is.
pub open spec fn settled_but_segments(
    before: PathSet,
    after: PathSet,
    base: u32,
    count: nat,
) -> bool {
    forall|path: Seq<char>|
        !in_segments(base, count, path) && before.contains(path) ==> #[trigger] after.contains(path)
}

/// Whether a path is that of a file of one of so many segments from a number on, or of its
/// temporary file.
pub open spec fn in_segments(base: u32, count: nat, path: Seq<char>) -> bool {
    exists|file: SegmentFile, id: u32|
        base <= id < base + count && (path == #[trigger] segment_path(file, id) || path
            == temporary_of(segment_path(file, id)))
}

/// Whether everything but so many segments from a number on is as it was.
pub open spec fn only_segments_changed(
    before: FileMap,
    after: FileMap,
    base: u32,
    count: nat,
) -> bool {
    forall|path: Seq<char>| !in_segments(base, count, path)
        ==> #[trigger] same_at(before, after, path)
}

/// The path of a segment file is not that of the temporary file of another.
pub proof fn lemma_segment_paths_apart(f: SegmentFile, a: u32, g: SegmentFile, b: u32)
    ensures
        f != g || a != b ==> segment_path(f, a) != segment_path(g, b),
        segment_path(f, a) != temporary_of(segment_path(g, b)),
{
    if f != g || a != b {
        segment_paths_differ(f, a, g, b);
    }
    reveal_strlit(".tmp");
    reveal_strlit(".vsec");
    reveal_strlit(".msec");
    reveal_strlit(".hidx");
    let x = segment_path(f, a);
    let y = temporary_of(segment_path(g, b));
    assert(x[x.len() - 1] == segment_suffix(f)[4]);
    assert(y[y.len() - 1] == 'p');
}

proof fn lemma_segments_twice(a: FileMap, b: FileMap, c: FileMap, base: u32, count: nat)
    requires
        only_segments_changed(a, b, base, count),
        only_segments_changed(b, c, base, count),
    ensures
        only_segments_changed(a, c, base, count),
{
    assert forall|path: Seq<char>| !in_segments(base, count, path) implies #[trigger] same_at(
        a,
        c,
        path,
    ) by {
        assert(same_at(a, b, path));
        assert(same_at(b, c, path));
    }
}

/// Writes a file of a segment: seals it, asks the hook and replaces the file in one step.
pub fn write_file<
    S: Storage,
    H: FsyncHook,
    L: Fn(SegmentFile, u32, &Vec<u8>) -> Result<Vec<u8>, MnemeError>,
>(
    storage: &mut S,
    hook: Option<&H>,
    file: SegmentFile,
    segment_id: u32,
    plain: &Vec<u8>,
    seal: &L,
) -> (result: Result<(), MnemeError>)
    requires
        old(storage).wf(),
        seal.requires((file, segment_id, plain)),
    ensures
        final(storage).wf(),
        final(storage).reliable() == old(storage).reliable(),
        final(storage).locked() == old(storage).locked(),
        final(storage).failures() == old(storage).failures(),
        others_kept(
            old(storage).files(),
            final(storage).files(),
            segment_path(file, segment_id),
        ),
        still_settled(
            old(storage).settled(),
            final(storage).settled(),
            segment_path(file, segment_id),
        ),
        result is Ok ==> final(storage).settled().contains(segment_path(file, segment_id)),
        result is Ok ==> final(storage).files().dom().contains(segment_path(file, segment_id))
            && seals(
            *seal,
            file,
            segment_id,
            *plain,
            final(storage).files()[segment_path(file, segment_id)],
        ),
        result matches Err(error) ==> file_fails(
            hook,
            failures_of(*old(storage)),
            *seal,
            file,
            segment_id,
            *plain,
            error,
        ),
        old(storage).reliable() && result is Err ==> final(storage).files()
            == old(storage).files(),
        result is Ok ==> file_passes(hook, *seal, file, segment_id, *plain),
{
    proof {
        library_paths_stay_below(file, segment_id, 0, 0);
    }
    let sealed = match seal(file, segment_id, plain) {
        Ok(sealed) => sealed,
        Err(error) => {
            return Err(error);
        },
    };
    let rel = segment_rel(file, segment_id);
    assert(seal.ensures((file, segment_id, plain), Ok(sealed)));
    match ask_write(hook, rel.as_str(), 0, sealed.len()) {
        Ok(()) => {},
        Err(error) => {
            return Err(error);
        },
    }
    storage.write_atomic(rel.as_str(), sealed.as_slice())
}

/// Writes the files of a segment.
pub fn write_segment_files<
    S: Storage,
    H: FsyncHook,
    L: Fn(SegmentFile, u32, &Vec<u8>) -> Result<Vec<u8>, MnemeError>,
>(
    storage: &mut S,
    hook: Option<&H>,
    segment_id: u32,
    encoded: &EncodedSegment,
    seal: &L,
) -> (result: Result<(), MnemeError>)
    requires
        old(storage).wf(),
        forall|file: SegmentFile, plain: Vec<u8>| seal.requires((file, segment_id, &plain)),
    ensures
        final(storage).wf(),
        final(storage).reliable() == old(storage).reliable(),
        final(storage).locked() == old(storage).locked(),
        final(storage).failures() == old(storage).failures(),
        only_segment_changed(old(storage).files(), final(storage).files(), segment_id),
        settled_but_segment(old(storage).settled(), final(storage).settled(), segment_id),
        result is Ok ==> segment_written(final(storage).files(), *seal, segment_id, *encoded)
            && segment_settled(final(storage).settled(), segment_id, *encoded),
        result matches Err(error) ==> segment_fails(
            hook,
            failures_of(*old(storage)),
            *seal,
            segment_id,
            *encoded,
            error,
        ),
        result is Ok ==> segment_passes(hook, *seal, segment_id, *encoded),
{
    let ghost start = storage.files();
    match write_file(storage, hook, SegmentFile::Vsec, segment_id, &encoded.vsec, seal) {
        Ok(()) => {},
        Err(error) => {
            proof {
                lemma_only_segment(start, storage.files(), segment_id, SegmentFile::Vsec);
            }
            return Err(error);
        },
    }
    let ghost first = storage.files();
    proof {
        lemma_only_segment(start, first, segment_id, SegmentFile::Vsec);
    }
    let second_result = write_file(
        storage,
        hook,
        SegmentFile::Msec,
        segment_id,
        &encoded.msec,
        seal,
    );
    let ghost second = storage.files();
    proof {
        lemma_only_segment(first, second, segment_id, SegmentFile::Msec);
        lemma_only_segment_twice(start, first, second, segment_id);
        lemma_segment_paths_apart(
            SegmentFile::Vsec,
            segment_id,
            SegmentFile::Msec,
            segment_id,
        );
        assert(same_at(first, second, segment_path(SegmentFile::Vsec, segment_id)));
    }
    match second_result {
        Ok(()) => {},
        Err(error) => {
            return Err(error);
        },
    }
    match &encoded.hidx {
        None => Ok(()),
        Some(hidx) => {
            let third_result = write_file(
                storage,
                hook,
                SegmentFile::Hidx,
                segment_id,
                hidx,
                seal,
            );
            proof {
                let third = storage.files();
                lemma_only_segment(second, third, segment_id, SegmentFile::Hidx);
                lemma_only_segment_twice(start, second, third, segment_id);
                lemma_segment_paths_apart(
                    SegmentFile::Vsec,
                    segment_id,
                    SegmentFile::Hidx,
                    segment_id,
                );
                lemma_segment_paths_apart(
                    SegmentFile::Msec,
                    segment_id,
                    SegmentFile::Hidx,
                    segment_id,
                );
                assert(same_at(second, third, segment_path(SegmentFile::Vsec, segment_id)));
                assert(same_at(second, third, segment_path(SegmentFile::Msec, segment_id)));
            }
            third_result
        },
    }
}

/// Whether a path is that of a file of a segment or of its temporary file.
pub open spec fn in_segment(segment_id: u32, path: Seq<char>) -> bool {
    exists|file: SegmentFile|
        path == #[trigger] segment_path(file, segment_id) || path == temporary_of(
            segment_path(file, segment_id),
        )
}

/// Whether everything but one segment is as it was.
pub open spec fn only_segment_changed(before: FileMap, after: FileMap, segment_id: u32) -> bool {
    forall|path: Seq<char>| !in_segment(segment_id, path)
        ==> #[trigger] same_at(before, after, path)
}

proof fn lemma_only_segment(before: FileMap, after: FileMap, segment_id: u32, file: SegmentFile)
    requires
        others_kept(before, after, segment_path(file, segment_id)),
    ensures
        only_segment_changed(before, after, segment_id),
{
    assert forall|path: Seq<char>| !in_segment(segment_id, path) implies #[trigger] same_at(
        before,
        after,
        path,
    ) by {
        assert(path != segment_path(file, segment_id));
    }
}

proof fn lemma_only_segment_twice(a: FileMap, b: FileMap, c: FileMap, segment_id: u32)
    requires
        only_segment_changed(a, b, segment_id),
        only_segment_changed(b, c, segment_id),
    ensures
        only_segment_changed(a, c, segment_id),
{
    assert forall|path: Seq<char>| !in_segment(segment_id, path) implies #[trigger] same_at(
        a,
        c,
        path,
    ) by {
        assert(same_at(a, b, path));
        assert(same_at(b, c, path));
    }
}

proof fn lemma_segment_among(
    before: FileMap,
    after: FileMap,
    base: u32,
    count: nat,
    segment_id: u32,
)
    requires
        base <= segment_id < base + count,
        only_segment_changed(before, after, segment_id),
    ensures
        only_segments_changed(before, after, base, count),
{
    assert forall|path: Seq<char>| !in_segments(base, count, path) implies #[trigger] same_at(
        before,
        after,
        path,
    ) by {
        if in_segment(segment_id, path) {
            let file = choose|file: SegmentFile|
                path == #[trigger] segment_path(file, segment_id) || path == temporary_of(
                    segment_path(file, segment_id),
                );
            assert(path == segment_path(file, segment_id) || path == temporary_of(
                segment_path(file, segment_id),
            ));
        }
    }
}

/// A segment that is written stays so while another is written.
pub proof fn lemma_segment_stays<
    L: Fn(SegmentFile, u32, &Vec<u8>) -> Result<Vec<u8>, MnemeError>,
>(
    before: FileMap,
    after: FileMap,
    seal: L,
    written: u32,
    other: u32,
    encoded: EncodedSegment,
)
    requires
        segment_written(before, seal, written, encoded),
        only_segment_changed(before, after, other),
        written != other,
    ensures
        segment_written(after, seal, written, encoded),
{
    assert forall|file: SegmentFile| file_written(before, seal, file, written, encoded) implies
        #[trigger] file_written(after, seal, file, written, encoded) by {
        let path = segment_path(file, written);
        if in_segment(other, path) {
            let g = choose|g: SegmentFile|
                path == #[trigger] segment_path(g, other) || path == temporary_of(
                    segment_path(g, other),
                );
            lemma_segment_paths_apart(file, written, g, other);
        }
        assert(same_at(before, after, path));
    }
    assert(file_written(after, seal, SegmentFile::Vsec, written, encoded));
    assert(file_written(after, seal, SegmentFile::Msec, written, encoded));
    assert(file_written(after, seal, SegmentFile::Hidx, written, encoded));
}

/// A segment that is on stable storage stays there while another is written.
proof fn lemma_settled_stays(
    before: PathSet,
    after: PathSet,
    settled: u32,
    other: u32,
    encoded: EncodedSegment,
)
    requires
        segment_settled(before, settled, encoded),
        settled_but_segment(before, after, other),
        settled != other,
    ensures
        segment_settled(after, settled, encoded),
{
    assert forall|file: SegmentFile| encoded.file(file) is Some implies after.contains(
        #[trigger] segment_path(file, settled),
    ) by {
        let path = segment_path(file, settled);
        assert(before.contains(path));
        if in_segment(other, path) {
            let g = choose|g: SegmentFile|
                path == #[trigger] segment_path(g, other) || path == temporary_of(
                    segment_path(g, other),
                );
            lemma_segment_paths_apart(file, settled, g, other);
        }
    }
}

proof fn lemma_settled_among(
    start: PathSet,
    before: PathSet,
    after: PathSet,
    base: u32,
    count: nat,
    segment_id: u32,
)
    requires
        base <= segment_id < base + count,
        settled_but_segments(start, before, base, count),
        settled_but_segment(before, after, segment_id),
    ensures
        settled_but_segments(start, after, base, count),
{
    assert forall|path: Seq<char>|
        !in_segments(base, count, path) && start.contains(path) implies #[trigger] after.contains(
        path,
    ) by {
        assert(before.contains(path));
        if in_segment(segment_id, path) {
            let file = choose|file: SegmentFile|
                path == #[trigger] segment_path(file, segment_id) || path == temporary_of(
                    segment_path(file, segment_id),
                );
            assert(path == segment_path(file, segment_id) || path == temporary_of(
                segment_path(file, segment_id),
            ));
        }
    }
}

/// Whether segments with consecutive numbers are written.
pub open spec fn segments_written<
    L: Fn(SegmentFile, u32, &Vec<u8>) -> Result<Vec<u8>, MnemeError>,
>(files: FileMap, seal: L, base: u32, encoded: Seq<EncodedSegment>) -> bool {
    forall|i: int|
        0 <= i < encoded.len() ==> segment_written(
            files,
            seal,
            (base + i) as u32,
            #[trigger] encoded[i],
        )
}

/// Writes segments with consecutive numbers, in order.
pub fn write_segments<
    S: Storage,
    H: FsyncHook,
    L: Fn(SegmentFile, u32, &Vec<u8>) -> Result<Vec<u8>, MnemeError>,
>(
    storage: &mut S,
    hook: Option<&H>,
    base: u32,
    encoded: &Vec<EncodedSegment>,
    seal: &L,
) -> (result: Result<(), MnemeError>)
    requires
        old(storage).wf(),
        forall|file: SegmentFile, id: u32, plain: Vec<u8>| seal.requires((file, id, &plain)),
    ensures
        final(storage).wf(),
        final(storage).reliable() == old(storage).reliable(),
        final(storage).locked() == old(storage).locked(),
        final(storage).failures() == old(storage).failures(),
        only_segments_changed(
            old(storage).files(),
            final(storage).files(),
            base,
            encoded@.len(),
        ),
        settled_but_segments(
            old(storage).settled(),
            final(storage).settled(),
            base,
            encoded@.len(),
        ),
        result is Ok ==> segments_written(final(storage).files(), *seal, base, encoded@)
            && segments_settled(final(storage).settled(), base, encoded@)
                && base + encoded@.len() <= u32::MAX + 1,
        base + encoded@.len() > u32::MAX + 1 ==> result is Err,
        result is Ok ==> segments_pass(hook, *seal, base, encoded@, encoded@.len()),
        result matches Err(error) ==> segments_fail(
            hook,
            failures_of(*old(storage)),
            *seal,
            base,
            encoded@,
            error,
        ) || (base + encoded@.len() > u32::MAX + 1 && error == (
        MnemeError::IdExhausted { kind: IdKind::SegmentId })),
{
    let ghost start = storage.files();
    let mut i: usize = 0;
    while i < encoded.len()
        invariant
            storage.wf(),
            storage.reliable() == old(storage).reliable(),
            storage.locked() == old(storage).locked(),
            storage.failures() == old(storage).failures(),
            forall|file: SegmentFile, id: u32, plain: Vec<u8>|
                seal.requires((file, id, &plain)),
            start == old(storage).files(),
            i <= encoded@.len(),
            i > 0 ==> base + i <= u32::MAX + 1,
            segments_pass(hook, *seal, base, encoded@, i as nat),
            only_segments_changed(start, storage.files(), base, encoded@.len()),
            settled_but_segments(
                old(storage).settled(),
                storage.settled(),
                base,
                encoded@.len(),
            ),
            forall|k: int|
                0 <= k < i ==> segment_settled(
                    storage.settled(),
                    (base + k) as u32,
                    #[trigger] encoded@[k],
                ),
            forall|k: int|
                0 <= k < i ==> segment_written(
                    storage.files(),
                    *seal,
                    (base + k) as u32,
                    #[trigger] encoded@[k],
                ),
        decreases encoded@.len() - i,
    {
        let exhausted = MnemeError::IdExhausted { kind: IdKind::SegmentId };
        if i > u32::MAX as usize {
            return Err(exhausted);
        }
        let id: u32 = match base.checked_add(i as u32) {
            Some(id) => id,
            None => {
                return Err(exhausted);
            },
        };
        let ghost before = storage.files();
        let ghost held = storage.settled();
        let result = write_segment_files(storage, hook, id, &encoded[i], seal);
        proof {
            lemma_segment_among(before, storage.files(), base, encoded@.len(), id);
            lemma_segments_twice(start, before, storage.files(), base, encoded@.len());
            lemma_settled_among(
                old(storage).settled(),
                held,
                storage.settled(),
                base,
                encoded@.len(),
                id,
            );
        }
        match result {
            Ok(()) => {},
            Err(error) => {
                return Err(error);
            },
        }
        proof {
            assert forall|k: int| 0 <= k < i + 1 implies segment_written(
                storage.files(),
                *seal,
                (base + k) as u32,
                #[trigger] encoded@[k],
            ) by {
                if k < i {
                    lemma_segment_stays(
                        before,
                        storage.files(),
                        *seal,
                        (base + k) as u32,
                        id,
                        encoded@[k],
                    );
                }
            }
        }
        proof {
            assert forall|k: int| 0 <= k < i + 1 implies segment_settled(
                storage.settled(),
                (base + k) as u32,
                #[trigger] encoded@[k],
            ) by {
                if k < i {
                    lemma_settled_stays(
                        held,
                        storage.settled(),
                        (base + k) as u32,
                        id,
                        encoded@[k],
                    );
                }
            }
        }
        i = i + 1;
    }
    Ok(())
}

/// The segments of versions once the first `count` of them were given to a segment.
pub open spec fn placed(
    slot_segment: Seq<Option<u32>>,
    slots: Seq<usize>,
    count: nat,
    segment_id: u32,
) -> Seq<Option<u32>>
    decreases count,
{
    if count == 0 {
        slot_segment
    } else {
        placed(slot_segment, slots, (count - 1) as nat, segment_id).update(
            slots[count - 1] as int,
            Some(segment_id),
        )
    }
}

/// The segments of versions once the first `count` jobs were given to segments with consecutive
/// numbers.
pub open spec fn installed(
    slot_segment: Seq<Option<u32>>,
    base: u32,
    jobs: Seq<BuildJob>,
    count: nat,
) -> Seq<Option<u32>>
    decreases count,
{
    if count == 0 {
        slot_segment
    } else {
        let before = installed(slot_segment, base, jobs, (count - 1) as nat);
        let slots = jobs[count - 1].slots@;
        placed(before, slots, slots.len(), (base + (count - 1)) as u32)
    }
}

/// Gives versions to a segment.
pub fn install_segment(state: &mut WriterState, segment_id: u32, slots: &Vec<usize>)
    requires
        old(state).wf(),
        slots_exist(old(state)@, slots@),
    ensures
        final(state).wf(),
        final(state)@ == (StateModel {
            slot_segment: placed(
                old(state)@.slot_segment,
                slots@,
                slots@.len(),
                segment_id,
            ),
            ..old(state)@
        }),
{
    let ghost start = state@;
    let mut i: usize = 0;
    while i < slots.len()
        invariant
            state.wf(),
            start == old(state)@,
            slots_exist(start, slots@),
            i <= slots@.len(),
            state@ == (StateModel {
                slot_segment: placed(start.slot_segment, slots@, i as nat, segment_id),
                ..start
            }),
        decreases slots@.len() - i,
    {
        assert(slots@[i as int] < start.slots.len());
        state.assign_segment(slots[i], segment_id);
        i = i + 1;
    }
}

/// Gives the versions of every job to its segment.
pub fn install_committed(state: &mut WriterState, base: u32, jobs: &Vec<BuildJob>)
    requires
        old(state).wf(),
        jobs_exist(old(state)@, jobs@),
        base + jobs@.len() <= u32::MAX + 1,
    ensures
        final(state).wf(),
        final(state)@ == (StateModel {
            slot_segment: installed(old(state)@.slot_segment, base, jobs@, jobs@.len()),
            ..old(state)@
        }),
{
    let ghost start = state@;
    let mut i: usize = 0;
    while i < jobs.len()
        invariant
            state.wf(),
            start == old(state)@,
            jobs_exist(start, jobs@),
            base + jobs@.len() <= u32::MAX + 1,
            i <= jobs@.len(),
            state@ == (StateModel {
                slot_segment: installed(start.slot_segment, base, jobs@, i as nat),
                ..start
            }),
        decreases jobs@.len() - i,
    {
        assert(slots_exist(start, jobs@[i as int].slots@));
        let segment_id: u32 = base + i as u32;
        install_segment(state, segment_id, &jobs[i].slots);
        i = i + 1;
    }
}

/// Whether `graph_of` may give these graphs of the segments.
pub open spec fn are_graphs<I, K: Fn(&EncodedSegment) -> Option<BuiltGraph<I>>>(
    graph_of: K,
    encoded: Seq<EncodedSegment>,
    graphs: Seq<Option<BuiltGraph<I>>>,
) -> bool {
    graphs.len() == encoded.len() && forall|i: int|
        0 <= i < encoded.len() ==> graph_of.ensures((&encoded[i],), #[trigger] graphs[i])
}

/// The graph of a new segment that holds these versions, where it has one.
pub open spec fn new_graph<I>(
    graph: Option<BuiltGraph<I>>,
    segment_id: u32,
    slots: Seq<usize>,
) -> Seq<GraphModel<I>> {
    match graph {
        Some(built) => seq![
            GraphModel {
                segment_id,
                index: built.index,
                slots: slots.map_values(|slot: usize| slot as u32),
                format: built.format,
                recall_est: built.recall_est,
            },
        ],
        None => Seq::empty(),
    }
}

/// The graphs of the first `count` new segments, which have consecutive numbers.
pub open spec fn new_graphs<I>(
    graphs: Seq<Option<BuiltGraph<I>>>,
    base: u32,
    jobs: Seq<BuildJob>,
    count: nat,
) -> Seq<GraphModel<I>>
    decreases count,
{
    if count == 0 {
        Seq::empty()
    } else {
        new_graphs(graphs, base, jobs, (count - 1) as nat) + new_graph(
            graphs[count - 1],
            (base + (count - 1)) as u32,
            jobs[count - 1].slots@,
        )
    }
}

/// Whether the graphs of new segments were put behind those that are in use.
pub open spec fn graphs_added<I, K: Fn(&EncodedSegment) -> Option<BuiltGraph<I>>>(
    graph_of: K,
    base: u32,
    jobs: Seq<BuildJob>,
    encoded: Seq<EncodedSegment>,
    before: Seq<SegmentIndex<I>>,
    after: Seq<SegmentIndex<I>>,
) -> bool {
    exists|graphs: Seq<Option<BuiltGraph<I>>>| #[trigger]
        are_graphs(graph_of, encoded, graphs) && graph_models(after) == graph_models(before)
            + new_graphs(graphs, base, jobs, jobs.len())
}

/// Puts the graph of a new segment behind those that are in use, where the segment has one.
pub fn install_graph<I>(
    indexes: &mut Vec<SegmentIndex<I>>,
    segment_id: u32,
    slots: &Vec<usize>,
    graph: Option<BuiltGraph<I>>,
)
    requires
        forall|i: int| 0 <= i < slots@.len() ==> (#[trigger] slots@[i]) <= u32::MAX,
    ensures
        graph_models(final(indexes)@) == graph_models(old(indexes)@) + new_graph(
            graph,
            segment_id,
            slots@,
        ),
{
    let ghost before = indexes@;
    match graph {
        None => {
            assert(graph_models(before) + Seq::<GraphModel<I>>::empty() =~= graph_models(before));
        },
        Some(built) => {
            let mut nodes: Vec<u32> = Vec::new();
            let mut i: usize = 0;
            while i < slots.len()
                invariant
                    i <= slots@.len(),
                    forall|k: int| 0 <= k < slots@.len() ==> (#[trigger] slots@[k]) <= u32::MAX,
                    nodes@.len() == i,
                    forall|k: int| 0 <= k < i ==> (#[trigger] nodes@[k]) == slots@[k] as u32,
                decreases slots@.len() - i,
            {
                nodes.push(slots[i] as u32);
                i = i + 1;
            }
            assert(nodes@ =~= slots@.map_values(|slot: usize| slot as u32));
            let added = SegmentIndex {
                segment_id,
                index: built.index,
                slots: nodes,
                format: built.format,
                recall_est: built.recall_est,
            };
            let ghost model = added.model();
            indexes.push(added);
            assert(graph_models(indexes@) =~= graph_models(before).push(model));
            assert(graph_models(before).push(model) =~= graph_models(before) + seq![model]);
        },
    }
}

/// Puts the graphs of new segments, which have consecutive numbers, behind those that are in use.
pub fn install_graphs<I, K: Fn(&EncodedSegment) -> Option<BuiltGraph<I>>>(
    indexes: &mut Vec<SegmentIndex<I>>,
    base: u32,
    jobs: &Vec<BuildJob>,
    encoded: &Vec<EncodedSegment>,
    graph_of: &K,
)
    requires
        jobs@.len() == encoded@.len(),
        base + jobs@.len() <= u32::MAX + 1,
        forall|j: int, i: int|
            #![trigger jobs@[j].slots@[i]]
            0 <= j < jobs@.len() && 0 <= i < jobs@[j].slots@.len() ==> jobs@[j].slots@[i] <= u32::MAX,
        forall|segment: EncodedSegment| graph_of.requires((&segment,)),
    ensures
        graphs_added(*graph_of, base, jobs@, encoded@, old(indexes)@, final(indexes)@),
{
    let ghost start = graph_models(indexes@);
    let ghost mut graphs: Seq<Option<BuiltGraph<I>>> = Seq::empty();
    let mut i: usize = 0;
    assert(start + new_graphs(graphs, base, jobs@, 0) =~= start);
    while i < jobs.len()
        invariant
            jobs@.len() == encoded@.len(),
            base + jobs@.len() <= u32::MAX + 1,
            forall|j: int, k: int|
                #![trigger jobs@[j].slots@[k]]
                0 <= j < jobs@.len() && 0 <= k < jobs@[j].slots@.len() ==> jobs@[j].slots@[k]
                    <= u32::MAX,
            forall|segment: EncodedSegment| graph_of.requires((&segment,)),
            i <= jobs@.len(),
            graphs.len() == i,
            forall|k: int|
                0 <= k < i ==> graph_of.ensures((&encoded@[k],), #[trigger] graphs[k]),
            graph_models(indexes@) == start + new_graphs(graphs, base, jobs@, i as nat),
        decreases jobs@.len() - i,
    {
        let graph = graph_of(&encoded[i]);
        let ghost before = graphs;
        let ghost held = graph_models(indexes@);
        let segment_id: u32 = base + i as u32;
        proof {
            graphs = graphs.push(graph);
            lemma_new_graphs(before, graphs, base, jobs@, i as nat);
        }
        install_graph(indexes, segment_id, &jobs[i].slots, graph);
        proof {
            let added = new_graph(graphs[i as int], segment_id, jobs@[i as int].slots@);
            assert(held + added =~= start + (new_graphs(before, base, jobs@, i as nat) + added));
        }
        i = i + 1;
    }
    assert(are_graphs(*graph_of, encoded@, graphs));
}

proof fn lemma_new_graphs<I>(
    a: Seq<Option<BuiltGraph<I>>>,
    b: Seq<Option<BuiltGraph<I>>>,
    base: u32,
    jobs: Seq<BuildJob>,
    count: nat,
)
    requires
        forall|i: int| 0 <= i < count ==> a[i] == b[i],
    ensures
        new_graphs(a, base, jobs, count) == new_graphs(b, base, jobs, count),
    decreases count,
{
    if count > 0 {
        lemma_new_graphs(a, b, base, jobs, (count - 1) as nat);
    }
}

proof fn lemma_placed(
    slot_segment: Seq<Option<u32>>,
    slots: Seq<usize>,
    count: nat,
    segment_id: u32,
    at: int,
)
    requires
        count <= slots.len(),
        forall|i: int| 0 <= i < slots.len() ==> (#[trigger] slots[i]) < slot_segment.len(),
        0 <= at < slot_segment.len(),
    ensures
        placed(slot_segment, slots, count, segment_id).len() == slot_segment.len(),
        placed(slot_segment, slots, count, segment_id)[at] == (if exists|i: int|
            0 <= i < count && #[trigger] slots[i] == at {
            Some(segment_id)
        } else {
            slot_segment[at]
        }),
    decreases count,
{
    if count > 0 {
        let less = (count - 1) as nat;
        lemma_placed(slot_segment, slots, less, segment_id, at);
        if slots[count - 1] == at {
            assert(slots[count - 1] == at);
        }
        if exists|i: int| 0 <= i < less && #[trigger] slots[i] == at {
            let i = choose|i: int| 0 <= i < less && #[trigger] slots[i] == at;
            assert(slots[i] == at);
        }
    }
}

/// Whether one of the first `count` jobs holds a version.
pub open spec fn in_jobs(jobs: Seq<BuildJob>, count: nat, at: int) -> bool {
    exists|j: int, i: int|
        #![trigger jobs[j].slots@[i]]
        0 <= j < count && 0 <= i < jobs[j].slots@.len() && jobs[j].slots@[i] == at
}

proof fn lemma_installed(
    state: StateModel,
    base: u32,
    jobs: Seq<BuildJob>,
    count: nat,
    at: int,
)
    requires
        state.consistent(),
        jobs_exist(state, jobs),
        count <= jobs.len(),
        0 <= at < state.slots.len(),
    ensures
        installed(state.slot_segment, base, jobs, count).len() == state.slots.len(),
        in_jobs(jobs, count, at) ==> installed(state.slot_segment, base, jobs, count)[at] is Some,
        !in_jobs(jobs, count, at) ==> installed(state.slot_segment, base, jobs, count)[at]
            == state.slot_segment[at],
    decreases count,
{
    if count > 0 {
        let less = (count - 1) as nat;
        lemma_installed(state, base, jobs, less, at);
        let slots = jobs[count - 1].slots@;
        assert(slots_exist(state, slots));
        let before = installed(state.slot_segment, base, jobs, less);
        lemma_placed(before, slots, slots.len(), (base + (count - 1)) as u32, at);
        if in_jobs(jobs, count, at) {
            let (j, i) = choose|j: int, i: int|
                #![trigger jobs[j].slots@[i]]
                0 <= j < count && 0 <= i < jobs[j].slots@.len() && jobs[j].slots@[i] == at;
            if j < less {
                assert(in_jobs(jobs, less, at));
            } else {
                assert(slots[i] == at);
            }
        } else {
            if exists|i: int| 0 <= i < slots.len() && #[trigger] slots[i] == at {
                let i = choose|i: int| 0 <= i < slots.len() && #[trigger] slots[i] == at;
                assert(jobs[count - 1].slots@[i] == at);
            }
            if in_jobs(jobs, less, at) {
                let (j, i) = choose|j: int, i: int|
                    #![trigger jobs[j].slots@[i]]
                    0 <= j < less && 0 <= i < jobs[j].slots@.len() && jobs[j].slots@[i] == at;
                assert(jobs[j].slots@[i] == at);
            }
        }
    }
}

proof fn lemma_none_unpersisted(slot_segment: Seq<Option<u32>>, count: nat)
    requires
        count <= slot_segment.len(),
        forall|at: int| 0 <= at < count ==> (#[trigger] slot_segment[at]) is Some,
    ensures
        unpersisted(slot_segment, count).len() == 0,
    decreases count,
{
    if count > 0 {
        lemma_none_unpersisted(slot_segment, (count - 1) as nat);
    }
}

proof fn lemma_unpersisted_lists(slot_segment: Seq<Option<u32>>, count: nat, at: int)
    requires
        count <= slot_segment.len(),
        count <= usize::MAX,
        0 <= at < count,
        slot_segment[at] is None,
    ensures
        unpersisted(slot_segment, count).contains(at as usize),
    decreases count,
{
    let all = unpersisted(slot_segment, count);
    if at == count - 1 {
        assert(all[all.len() - 1] == at);
    } else {
        lemma_unpersisted_lists(slot_segment, (count - 1) as nat, at);
        let before = unpersisted(slot_segment, (count - 1) as nat);
        let k = choose|k: int| 0 <= k < before.len() && before[k] == at as usize;
        assert(all[k] == at as usize);
    }
}

proof fn lemma_joined_in_jobs(jobs: Seq<BuildJob>, count: nat, at: usize)
    requires
        count <= jobs.len(),
        crate::chunk::joined_chunks(job_slots(jobs), count).contains(at),
    ensures
        in_jobs(jobs, count, at as int),
    decreases count,
{
    if count > 0 {
        let less = (count - 1) as nat;
        let head = crate::chunk::joined_chunks(job_slots(jobs), less);
        let tail = job_slots(jobs)[count - 1]@;
        let all = head + tail;
        let k = choose|k: int| 0 <= k < all.len() && all[k] == at;
        assert(tail == jobs[count - 1].slots@);
        if k < head.len() {
            assert(head[k] == at);
            lemma_joined_in_jobs(jobs, less, at);
            let (j, i) = choose|j: int, i: int|
                #![trigger jobs[j].slots@[i]]
                0 <= j < less && 0 <= i < jobs[j].slots@.len() && jobs[j].slots@[i] == at;
            assert(jobs[j].slots@[i] == at);
        } else {
            assert(jobs[count - 1].slots@[k - head.len()] == at);
        }
    }
}

proof fn lemma_jobs_joined(jobs: Seq<BuildJob>, count: nat, at: int)
    requires
        count <= jobs.len(),
        in_jobs(jobs, count, at),
    ensures
        crate::chunk::joined_chunks(job_slots(jobs), count).contains(at as usize),
    decreases count,
{
    if count > 0 {
        let less = (count - 1) as nat;
        let head = crate::chunk::joined_chunks(job_slots(jobs), less);
        let tail = job_slots(jobs)[count - 1]@;
        let all = head + tail;
        let (j, i) = choose|j: int, i: int|
            #![trigger jobs[j].slots@[i]]
            0 <= j < count && 0 <= i < jobs[j].slots@.len() && jobs[j].slots@[i] == at;
        if j < less {
            assert(in_jobs(jobs, less, at));
            lemma_jobs_joined(jobs, less, at);
            let k = choose|k: int| 0 <= k < head.len() && head[k] == at as usize;
            assert(all[k] == at as usize);
        } else {
            assert(all[head.len() + i] == at as usize);
        }
    }
}

/// A flush leaves no version without a segment, and takes no version away from the segment that
/// holds it.
pub proof fn flush_persists_everything(
    state: StateModel,
    base: u32,
    jobs: Seq<BuildJob>,
    rows: nat,
)
    requires
        state.consistent(),
        state.slots.len() <= usize::MAX,
        rows >= 1,
        jobs_exist(state, jobs),
        crate::chunk::splits(
            unpersisted(state.slot_segment, state.slots.len()),
            rows,
            job_slots(jobs),
        ),
    ensures
        unpersisted(
            installed(state.slot_segment, base, jobs, jobs.len()),
            state.slots.len(),
        ).len() == 0,
        forall|at: int|
            0 <= at < state.slots.len() && (#[trigger] state.slot_segment[at]) is Some
                ==> installed(state.slot_segment, base, jobs, jobs.len())[at]
                == state.slot_segment[at],
{
    let slots = unpersisted(state.slot_segment, state.slots.len());
    let after = installed(state.slot_segment, base, jobs, jobs.len());
    crate::chunk::chunks_cover_slots(slots, rows, job_slots(jobs));
    assert forall|at: int| 0 <= at < state.slots.len() implies (#[trigger] after[at]) is Some by {
        lemma_installed(state, base, jobs, jobs.len(), at);
        if state.slot_segment[at] is None {
            lemma_unpersisted_lists(state.slot_segment, state.slots.len(), at);
            lemma_joined_in_jobs(jobs, jobs.len(), at as usize);
        }
    }
    if state.slots.len() > 0 {
        lemma_installed(state, base, jobs, jobs.len(), 0);
        lemma_none_unpersisted(after, state.slots.len());
    }
    assert forall|at: int|
        0 <= at < state.slots.len() && (#[trigger] state.slot_segment[at]) is Some implies after[at]
        == state.slot_segment[at] by {
        lemma_installed(state, base, jobs, jobs.len(), at);
        if in_jobs(jobs, jobs.len(), at) {
            lemma_jobs_joined(jobs, jobs.len(), at);
            lemma_unpersisted(state.slot_segment, state.slots.len());
            let k = choose|k: int| 0 <= k < slots.len() && slots[k] == at as usize;
            assert(slots[k] == at as usize);
        }
    }
}

proof fn lemma_installed_in(
    state: StateModel,
    base: u32,
    jobs: Seq<BuildJob>,
    count: nat,
    at: int,
)
    requires
        state.consistent(),
        jobs_exist(state, jobs),
        count <= jobs.len(),
        0 <= at < state.slots.len(),
        in_jobs(jobs, count, at),
    ensures
        exists|j: int, i: int|
            #![trigger jobs[j].slots@[i]]
            0 <= j < count && 0 <= i < jobs[j].slots@.len() && jobs[j].slots@[i] == at
                && installed(state.slot_segment, base, jobs, count)[at] == Some((base + j) as u32),
    decreases count,
{
    let less = (count - 1) as nat;
    let slots = jobs[count - 1].slots@;
    let before = installed(state.slot_segment, base, jobs, less);
    assert(slots_exist(state, slots));
    lemma_installed(state, base, jobs, less, at);
    lemma_placed(before, slots, slots.len(), (base + (count - 1)) as u32, at);
    if exists|i: int| 0 <= i < slots.len() && #[trigger] slots[i] == at {
        let i = choose|i: int| 0 <= i < slots.len() && #[trigger] slots[i] == at;
        assert(jobs[count - 1].slots@[i] == at);
    } else {
        let (j, i) = choose|j: int, i: int|
            #![trigger jobs[j].slots@[i]]
            0 <= j < count && 0 <= i < jobs[j].slots@.len() && jobs[j].slots@[i] == at;
        if j == count - 1 {
            assert(slots[i] == at);
        }
        assert(in_jobs(jobs, less, at));
        lemma_installed_in(state, base, jobs, less, at);
        let (k, m) = choose|k: int, m: int|
            #![trigger jobs[k].slots@[m]]
            0 <= k < less && 0 <= m < jobs[k].slots@.len() && jobs[k].slots@[m] == at && before[at]
                == Some((base + k) as u32);
        assert(jobs[k].slots@[m] == at);
    }
}

proof fn lemma_unpersisted_rises(slot_segment: Seq<Option<u32>>, count: nat)
    requires
        count <= slot_segment.len(),
        count <= usize::MAX,
    ensures
        forall|a: int, b: int|
            0 <= a < b < unpersisted(slot_segment, count).len() ==> (#[trigger] unpersisted(
                slot_segment,
                count,
            )[a]) < (#[trigger] unpersisted(slot_segment, count)[b]),
    decreases count,
{
    if count > 0 {
        let less = (count - 1) as nat;
        lemma_unpersisted_rises(slot_segment, less);
        lemma_unpersisted(slot_segment, less);
        let before = unpersisted(slot_segment, less);
        let all = unpersisted(slot_segment, count);
        assert forall|a: int, b: int| 0 <= a < b < all.len() implies (#[trigger] all[a])
            < (#[trigger] all[b]) by {
            assert(all[a] == before[a]);
            if b < before.len() {
                assert(all[b] == before[b]);
            }
        }
    }
}

/// A version goes to one job of a flush, and after the flush it belongs to the segment of that job:
/// the version that stands at a place of the list of a job is given to the segment whose number is
/// as far from the first new one as the job is from the first job. A version that no segment held
/// has such a place.
pub proof fn flushed_versions_know_their_segment(
    state: StateModel,
    base: u32,
    jobs: Seq<BuildJob>,
    rows: nat,
    number: int,
    place: int,
    at: int,
)
    requires
        state.consistent(),
        state.slots.len() <= usize::MAX,
        rows >= 1,
        jobs_exist(state, jobs),
        crate::chunk::splits(
            unpersisted(state.slot_segment, state.slots.len()),
            rows,
            job_slots(jobs),
        ),
        0 <= number < jobs.len(),
        0 <= place < jobs[number].slots@.len(),
        0 <= at < state.slots.len(),
    ensures
        installed(state.slot_segment, base, jobs, jobs.len())[jobs[number].slots@[place] as int]
            == Some((base + number) as u32),
        state.slot_segment[jobs[number].slots@[place] as int] is None,
        state.slot_segment[at] is None ==> exists|j: int, i: int|
            #![trigger jobs[j].slots@[i]]
            0 <= j < jobs.len() && 0 <= i < jobs[j].slots@.len() && jobs[j].slots@[i] == at,
{
    let slots = unpersisted(state.slot_segment, state.slots.len());
    lemma_unpersisted(state.slot_segment, state.slots.len());
    lemma_unpersisted_rises(state.slot_segment, state.slots.len());
    crate::chunk::chunks_cover_slots(slots, rows, job_slots(jobs));
    if state.slot_segment[at] is None {
        lemma_unpersisted_lists(state.slot_segment, state.slots.len(), at);
        lemma_joined_in_jobs(jobs, jobs.len(), at as usize);
    }
    let value = jobs[number].slots@[place] as int;
    assert(jobs[number].slots@[place] == value);
    assert(slots_exist(state, jobs[number].slots@));
    assert(in_jobs(jobs, jobs.len(), value));
    lemma_installed_in(state, base, jobs, jobs.len(), value);
    let (j, i) = choose|j: int, i: int|
        #![trigger jobs[j].slots@[i]]
        0 <= j < jobs.len() && 0 <= i < jobs[j].slots@.len() && jobs[j].slots@[i] == value
            && installed(state.slot_segment, base, jobs, jobs.len())[value] == Some(
            (base + j) as u32,
        );
    lemma_place_in_slots(slots, rows, jobs, number, place);
    lemma_place_in_slots(slots, rows, jobs, j, i);
    let a = crate::chunk::chunk_start(slots.len(), rows, number) + place;
    let b = crate::chunk::chunk_start(slots.len(), rows, j) + i;
    assert(slots[a] == slots[b]);
    assert(a == b);
    if j < number {
        lemma_chunks_rise(slots.len(), rows, j + 1, number);
    } else if number < j {
        lemma_chunks_rise(slots.len(), rows, number + 1, j);
    }
}

proof fn lemma_chunks_rise(total: nat, rows: nat, a: int, b: int)
    requires
        0 <= a <= b,
    ensures
        crate::chunk::chunk_start(total, rows, a) <= crate::chunk::chunk_start(total, rows, b),
{
    assert(a * rows <= b * rows) by (nonlinear_arith)
        requires
            0 <= a <= b,
            rows >= 0,
    ;
}

proof fn lemma_place_in_slots(
    slots: Seq<usize>,
    rows: nat,
    jobs: Seq<BuildJob>,
    number: int,
    place: int,
)
    requires
        rows >= 1,
        crate::chunk::splits(slots, rows, job_slots(jobs)),
        0 <= number < jobs.len(),
        0 <= place < jobs[number].slots@.len(),
    ensures
        ({
            let from = crate::chunk::chunk_start(slots.len(), rows, number);
            let to = crate::chunk::chunk_start(slots.len(), rows, number + 1);
            &&& 0 <= from
            &&& from + place < to <= slots.len()
            &&& slots[from + place] == jobs[number].slots@[place]
        }),
{
    let part = job_slots(jobs)[number];
    assert(part == jobs[number].slots);
    let from = crate::chunk::chunk_start(slots.len(), rows, number);
    let to = crate::chunk::chunk_start(slots.len(), rows, number + 1);
    assert(number * rows >= 0) by (nonlinear_arith)
        requires
            number >= 0,
    ;
    lemma_chunks_rise(slots.len(), rows, number, number + 1);
    assert(part@ == slots.subrange(from, to));
}

/// A merge moves the versions that survive, and no others: each of them belongs to the merged
/// segment, every other version to the segment that it belonged to.
pub proof fn merged_versions_move(
    slot_segment: Seq<Option<u32>>,
    keep: Seq<usize>,
    segment_id: u32,
    at: int,
)
    requires
        forall|i: int| 0 <= i < keep.len() ==> (#[trigger] keep[i]) < slot_segment.len(),
        0 <= at < slot_segment.len() <= usize::MAX,
    ensures
        placed(slot_segment, keep, keep.len(), segment_id).len() == slot_segment.len(),
        keep.contains(at as usize) ==> placed(slot_segment, keep, keep.len(), segment_id)[at]
            == Some(segment_id),
        !keep.contains(at as usize) ==> placed(slot_segment, keep, keep.len(), segment_id)[at]
            == slot_segment[at],
{
    lemma_placed(slot_segment, keep, keep.len(), segment_id, at);
    if keep.contains(at as usize) {
        let i = choose|i: int| 0 <= i < keep.len() && keep[i] == at as usize;
        assert(keep[i] == at);
    }
    if exists|i: int| 0 <= i < keep.len() && #[trigger] keep[i] == at {
        let i = choose|i: int| 0 <= i < keep.len() && #[trigger] keep[i] == at;
        assert(keep[i] == at as usize);
    }
}

/// The graphs that were built with new segments come into use: a segment whose builder gave a graph
/// has it afterwards, under the number of the segment, with one node for every version of its job.
pub proof fn built_graphs_come_into_use<I>(
    graphs: Seq<Option<BuiltGraph<I>>>,
    base: u32,
    jobs: Seq<BuildJob>,
    count: nat,
    number: int,
)
    requires
        0 <= number < count <= jobs.len(),
        graphs.len() == jobs.len(),
    ensures
        graphs[number] matches Some(built) ==> exists|k: int|
            0 <= k < new_graphs(graphs, base, jobs, count).len() && {
                let graph = #[trigger] new_graphs(graphs, base, jobs, count)[k];
                &&& graph.segment_id == (base + number) as u32
                &&& graph.index == built.index
                &&& graph.format == built.format
                &&& graph.recall_est == built.recall_est
                &&& graph.slots.len() == jobs[number].slots@.len()
                &&& forall|i: int|
                    0 <= i < graph.slots.len() ==> #[trigger] graph.slots[i]
                        == jobs[number].slots@[i] as u32
            },
        new_graphs(graphs, base, jobs, count).len() <= count,
    decreases count,
{
    let all = new_graphs(graphs, base, jobs, count);
    let less = (count - 1) as nat;
    let before = new_graphs(graphs, base, jobs, less);
    if number < less {
        built_graphs_come_into_use(graphs, base, jobs, less, number);
        if graphs[number] is Some {
            let built = graphs[number]->0;
            let k = choose|k: int|
                0 <= k < before.len() && {
                    let graph = #[trigger] before[k];
                    &&& graph.segment_id == (base + number) as u32
                    &&& graph.index == built.index
                    &&& graph.format == built.format
                    &&& graph.recall_est == built.recall_est
                    &&& graph.slots.len() == jobs[number].slots@.len()
                    &&& forall|i: int|
                        0 <= i < graph.slots.len() ==> #[trigger] graph.slots[i]
                            == jobs[number].slots@[i] as u32
                };
            assert(all[k] == before[k]);
        }
    } else {
        if less > 0 {
            built_graphs_come_into_use(graphs, base, jobs, less, less - 1);
        }
        if graphs[number] is Some {
            assert(all[before.len() as int].segment_id == (base + number) as u32);
        }
    }
}

} // verus!
