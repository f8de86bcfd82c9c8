//! Removal of files that nothing refers to.

use vstd::prelude::*;

use crate::error::{MnemeError, SegmentFile};
use crate::layout::{
    library_paths_stay_below, named_path_stays_below, parent_component_at, path_in, segment_file,
    segment_name, stays_below, SEGMENTS_DIR, WAL_DIR,
};
use crate::manifest::{Manifest, ManifestView, SegmentEntry};
use crate::storage::{
    dir_holds, dir_prefix, failures_of, given_by, lists_dir, survivors_settled, FileMap, Storage,
};
use crate::text::{before_suffix, has_suffix, text_equal};

verus! {

/// A test on file names.
pub trait NameTest {
    /// Whether a name passes.
    spec fn holds(&self, name: Seq<char>) -> bool;

    /// The name of the parent directory does not pass.
    proof fn no_parent(&self, name: Seq<char>)
        requires
            self.holds(name),
        ensures
            name != ".."@,
    ;

    /// Puts a name to the test.
    fn passes(&self, name: &str) -> (result: bool)
        ensures
            result == self.holds(name@),
    ;
}

/// The names of files that were being written.
pub struct HalfWritten;

impl NameTest for HalfWritten {
    open spec fn holds(&self, name: Seq<char>) -> bool {
        has_suffix(name, ".tmp"@)
    }

    proof fn no_parent(&self, name: Seq<char>) {
        reveal_strlit(".tmp");
        reveal_strlit("..");
    }

    fn passes(&self, name: &str) -> (result: bool) {
        before_suffix(name, ".tmp").is_some()
    }
}

/// Whether a name ends as segment files do.
pub open spec fn is_segment_name(name: Seq<char>) -> bool {
    has_suffix(name, ".vsec"@) || has_suffix(name, ".msec"@) || has_suffix(name, ".hidx"@)
}

/// The names of segment files.
pub struct SegmentNames;

impl NameTest for SegmentNames {
    open spec fn holds(&self, name: Seq<char>) -> bool {
        is_segment_name(name)
    }

    proof fn no_parent(&self, name: Seq<char>) {
        reveal_strlit(".vsec");
        reveal_strlit(".msec");
        reveal_strlit(".hidx");
        reveal_strlit("..");
    }

    fn passes(&self, name: &str) -> (result: bool) {
        before_suffix(name, ".vsec").is_some() || before_suffix(name, ".msec").is_some()
            || before_suffix(name, ".hidx").is_some()
    }
}

/// Whether a name is that of a file of a segment.
pub open spec fn names_file_of(entry: SegmentEntry, name: Seq<char>) -> bool {
    name == segment_file(SegmentFile::Vsec, entry.segment_id) || name == segment_file(
        SegmentFile::Msec,
        entry.segment_id,
    ) || name == segment_file(SegmentFile::Hidx, entry.segment_id)
}

/// Whether a manifest refers to the segment file of this name.
pub open spec fn refers_to(manifest: ManifestView, name: Seq<char>) -> bool {
    exists|i: int| 0 <= i < manifest.segments.len() && names_file_of(
        #[trigger] manifest.segments[i],
        name,
    )
}

/// Decides whether a manifest refers to the segment file of this name.
pub fn is_referenced(manifest: &Manifest, name: &str) -> (found: bool)
    ensures
        found == refers_to(manifest@, name@),
{
    let mut i: usize = 0;
    while i < manifest.segments.len()
        invariant
            i <= manifest.segments@.len(),
            forall|k: int| 0 <= k < i ==> !names_file_of(#[trigger] manifest.segments@[k], name@),
        decreases manifest.segments@.len() - i,
    {
        let id: u32 = manifest.segments[i].segment_id;
        let vsec = segment_name(SegmentFile::Vsec, id);
        let msec = segment_name(SegmentFile::Msec, id);
        let hidx = segment_name(SegmentFile::Hidx, id);
        if text_equal(name, vsec.as_str()) || text_equal(name, msec.as_str()) || text_equal(
            name,
            hidx.as_str(),
        ) {
            assert(names_file_of(manifest@.segments[i as int], name@));
            return true;
        }
        i = i + 1;
    }
    false
}

/// The names of segment files that a manifest does not refer to.
pub struct Unreferenced<'a> {
    pub manifest: &'a Manifest,
}

impl<'a> NameTest for Unreferenced<'a> {
    open spec fn holds(&self, name: Seq<char>) -> bool {
        is_segment_name(name) && !refers_to(self.manifest@, name)
    }

    proof fn no_parent(&self, name: Seq<char>) {
        SegmentNames.no_parent(name);
    }

    fn passes(&self, name: &str) -> (result: bool) {
        SegmentNames.passes(name) && !is_referenced(self.manifest, name)
    }
}

/// Whether a path is that of a file in a directory whose name passes a test.
pub open spec fn picks<T: NameTest>(
    files: FileMap,
    dir: Seq<char>,
    test: T,
    path: Seq<char>,
) -> bool {
    exists|name: Seq<char>| #[trigger]
        dir_holds(files, dir, name) && test.holds(name) && path == dir_prefix(dir) + name
}

/// Whether `after` is `before` without some of the files that a test picks in a directory.
pub open spec fn only_picked_gone<T: NameTest>(
    before: FileMap,
    after: FileMap,
    dir: Seq<char>,
    test: T,
) -> bool {
    &&& forall|path: Seq<char>| #[trigger]
        after.dom().contains(path) ==> before.dom().contains(path) && after[path] == before[path]
    &&& forall|path: Seq<char>|
        before.dom().contains(path) && !#[trigger] after.dom().contains(path) ==> picks(
            before,
            dir,
            test,
            path,
        )
}

/// Whether `after` is `before` without the files that a test picks in a directory.
pub open spec fn all_picked_gone<T: NameTest>(
    before: FileMap,
    after: FileMap,
    dir: Seq<char>,
    test: T,
) -> bool {
    forall|path: Seq<char>|
        #![trigger after.dom().contains(path)]
        (after.dom().contains(path) == (before.dom().contains(path) && !picks(
            before,
            dir,
            test,
            path,
        ))) && (after.dom().contains(path) ==> after[path] == before[path])
}

/// The path of a name in a directory, where the empty directory is the root.
fn entry_path(dir: &str, name: &str) -> (path: String)
    ensures
        path@ == dir_prefix(dir@) + name@,
{
    if dir.unicode_len() == 0 {
        let path = name.to_owned();
        assert(path@ =~= dir_prefix(dir@) + name@);
        path
    } else {
        path_in(dir, name)
    }
}

/// A file of a directory of the library, other than its parent, stays below the root.
pub proof fn lemma_entry_stays_below(dir: Seq<char>, name: Seq<char>)
    requires
        stays_below(dir),
        name.len() > 0,
        !name.contains('/'),
        name != ".."@,
    ensures
        stays_below(dir_prefix(dir) + name),
{
    reveal_strlit("..");
    if name.len() == 2 && name[0] == '.' && name[1] == '.' {
        assert(name =~= ".."@);
    }
    if dir.len() > 0 {
        named_path_stays_below(dir, name);
    } else {
        let path = dir_prefix(dir) + name;
        assert(path =~= name);
        assert(name[0] != '/') by {
            if name[0] == '/' {
                assert(name.contains('/'));
            }
        }
        assert forall|at: int| !#[trigger] parent_component_at(name, at) by {
            if parent_component_at(name, at) {
                if at > 0 {
                    assert(name[at - 1] == '/');
                    assert(name.contains('/'));
                }
                if at + 2 < name.len() {
                    assert(name[at + 2] == '/');
                    assert(name.contains('/'));
                }
            }
        }
    }
}

/// The first `count` of the listed files of a directory that pass a test are gone.
spec fn prefix_gone<T: NameTest>(
    before: FileMap,
    after: FileMap,
    dir: Seq<char>,
    test: T,
    names: Seq<String>,
    count: int,
) -> bool {
    forall|path: Seq<char>|
        #![trigger after.dom().contains(path)]
        (after.dom().contains(path) == (before.dom().contains(path) && !picked_before(
            dir,
            test,
            names,
            count,
            path,
        ))) && (after.dom().contains(path) ==> after[path] == before[path])
}

spec fn picked_before<T: NameTest>(
    dir: Seq<char>,
    test: T,
    names: Seq<String>,
    count: int,
    path: Seq<char>,
) -> bool {
    exists|i: int|
        0 <= i < count && test.holds((#[trigger] names[i])@) && path == dir_prefix(dir)
            + names[i]@
}

proof fn lemma_picked_before<T: NameTest>(
    files: FileMap,
    dir: Seq<char>,
    test: T,
    names: Seq<String>,
    count: int,
    path: Seq<char>,
)
    requires
        lists_dir(files, dir, names),
        0 <= count <= names.len(),
    ensures
        picked_before(dir, test, names, count, path) ==> picks(files, dir, test, path),
        count == names.len() ==> picked_before(dir, test, names, count, path) == picks(
            files,
            dir,
            test,
            path,
        ),
{
    if picked_before(dir, test, names, count, path) {
        let i = choose|i: int|
            0 <= i < count && test.holds((#[trigger] names[i])@) && path == dir_prefix(dir)
                + names[i]@;
        assert(dir_holds(files, dir, names[i]@));
    }
    if count == names.len() && picks(files, dir, test, path) {
        let name = choose|name: Seq<char>| #[trigger]
            dir_holds(files, dir, name) && test.holds(name) && path == dir_prefix(dir) + name;
        let i = choose|i: int| 0 <= i < names.len() && (#[trigger] names[i])@ == name;
        assert(names[i]@ == name);
    }
}

/// Removes the files of a directory whose names pass a test.
pub fn remove_picked<S: Storage, T: NameTest>(storage: &mut S, dir: &str, test: &T) -> (result:
    Result<(), MnemeError>)
    requires
        old(storage).wf(),
        stays_below(dir@),
    ensures
        final(storage).wf(),
        final(storage).reliable() == old(storage).reliable(),
        final(storage).failures() == old(storage).failures(),
        final(storage).locked() == old(storage).locked(),
        survivors_settled(
            old(storage).settled(),
            final(storage).files(),
            final(storage).settled(),
        ),
        only_picked_gone(old(storage).files(), final(storage).files(), dir@, *test),
        result is Ok ==> all_picked_gone(
            old(storage).files(),
            final(storage).files(),
            dir@,
            *test,
        ),
        result matches Err(error) ==> given_by(failures_of(*old(storage)), error),
{
    let ghost start = storage.files();
    let names = match storage.list_dir(dir) {
        Ok(names) => names,
        Err(error) => {
            return Err(error);
        },
    };
    let mut i: usize = 0;
    while i < names.len()
        invariant
            storage.wf(),
            storage.reliable() == old(storage).reliable(),
            storage.failures() == old(storage).failures(),
            storage.locked() == old(storage).locked(),
            start == old(storage).files(),
            stays_below(dir@),
            lists_dir(start, dir@, names@),
            i <= names@.len(),
            prefix_gone(start, storage.files(), dir@, *test, names@, i as int),
            survivors_settled(old(storage).settled(), storage.files(), storage.settled()),
        decreases names@.len() - i,
    {
        let name = &names[i];
        let ghost before = storage.files();
        assert(dir_holds(start, dir@, name@));
        if test.passes(name.as_str()) {
            let path = entry_path(dir, name.as_str());
            proof {
                test.no_parent(name@);
                lemma_entry_stays_below(dir@, name@);
            }
            match storage.remove_if_exists(path.as_str()) {
                Ok(()) => {},
                Err(error) => {
                    proof {
                        lemma_partly_gone(start, storage.files(), dir@, *test, names@, i as int);
                    }
                    return Err(error);
                },
            }
        }
        proof {
            let after = storage.files();
            assert forall|path: Seq<char>|
                #![trigger after.dom().contains(path)]
                (after.dom().contains(path) == (start.dom().contains(path) && !picked_before(
                    dir@,
                    *test,
                    names@,
                    i + 1,
                    path,
                ))) && (after.dom().contains(path) ==> after[path] == start[path]) by {
                assert(before.dom().contains(path) == (start.dom().contains(path)
                    && !picked_before(dir@, *test, names@, i as int, path)));
                if picked_before(dir@, *test, names@, i as int, path) {
                    let k = choose|k: int|
                        0 <= k < i && test.holds((#[trigger] names@[k])@) && path == dir_prefix(
                            dir@,
                        ) + names@[k]@;
                    assert(test.holds(names@[k]@));
                    assert(picked_before(dir@, *test, names@, i + 1, path));
                }
                if picked_before(dir@, *test, names@, i + 1, path) {
                    let k = choose|k: int|
                        0 <= k < i + 1 && test.holds((#[trigger] names@[k])@) && path
                            == dir_prefix(dir@) + names@[k]@;
                    if k < i {
                        assert(test.holds(names@[k]@));
                        assert(picked_before(dir@, *test, names@, i as int, path));
                    }
                }
                if test.holds(names@[i as int]@) && path == dir_prefix(dir@) + names@[i as int]@ {
                    assert(picked_before(dir@, *test, names@, i + 1, path));
                }
            }
        }
        i = i + 1;
    }
    proof {
        let after = storage.files();
        lemma_partly_gone(start, after, dir@, *test, names@, names@.len() as int);
        assert forall|path: Seq<char>|
            #![trigger after.dom().contains(path)]
            (after.dom().contains(path) == (start.dom().contains(path) && !picks(
                start,
                dir@,
                *test,
                path,
            ))) && (after.dom().contains(path) ==> after[path] == start[path]) by {
            lemma_picked_before(start, dir@, *test, names@, names@.len() as int, path);
        }
    }
    Ok(())
}

proof fn lemma_partly_gone<T: NameTest>(
    before: FileMap,
    after: FileMap,
    dir: Seq<char>,
    test: T,
    names: Seq<String>,
    count: int,
)
    requires
        lists_dir(before, dir, names),
        0 <= count <= names.len(),
        prefix_gone(before, after, dir, test, names, count),
    ensures
        only_picked_gone(before, after, dir, test),
{
    assert forall|gone: Seq<char>|
        before.dom().contains(gone) && !#[trigger] after.dom().contains(gone) implies picks(
        before,
        dir,
        test,
        gone,
    ) by {
        lemma_picked_before(before, dir, test, names, count, gone);
    }
}

/// Whether a file was left behind by a write that did not finish.
pub open spec fn is_orphan(files: FileMap, path: Seq<char>) -> bool {
    picks(files, SEGMENTS_DIR@, HalfWritten, path) || picks(files, WAL_DIR@, HalfWritten, path)
        || picks(files, Seq::empty(), HalfWritten, path)
}

/// Removes what writes that did not finish left behind, in the directories of the segments and of
/// the log and in the root.
pub fn cleanup_orphans<S: Storage>(storage: &mut S) -> (result: Result<(), MnemeError>)
    requires
        old(storage).wf(),
    ensures
        final(storage).wf(),
        final(storage).reliable() == old(storage).reliable(),
        final(storage).failures() == old(storage).failures(),
        final(storage).locked() == old(storage).locked(),
        forall|path: Seq<char>|
            #![trigger final(storage).files().dom().contains(path)]
            final(storage).files().dom().contains(path) ==> old(storage).files().dom().contains(
                path,
            ) && final(storage).files()[path] == old(storage).files()[path],
        forall|path: Seq<char>|
            #![trigger final(storage).files().dom().contains(path)]
            old(storage).files().dom().contains(path) && !final(storage).files().dom().contains(
                path,
            ) ==> is_orphan(old(storage).files(), path),
        result is Ok ==> forall|path: Seq<char>|
            #![trigger final(storage).files().dom().contains(path)]
            is_orphan(old(storage).files(), path) ==> !final(storage).files().dom().contains(path),
        result matches Err(error) ==> given_by(failures_of(*old(storage)), error),
{
    proof {
        library_paths_stay_below(SegmentFile::Vsec, 0, 0, 0);
        reveal_strlit("");
        assert(""@ =~= Seq::<char>::empty());
    }
    let ghost start = storage.files();
    match remove_picked(storage, SEGMENTS_DIR, &HalfWritten) {
        Ok(()) => {},
        Err(error) => {
            return Err(error);
        },
    }
    let ghost first = storage.files();
    match remove_picked(storage, WAL_DIR, &HalfWritten) {
        Ok(()) => {},
        Err(error) => {
            proof {
                lemma_orphans_gone(start, first, storage.files(), WAL_DIR@);
            }
            return Err(error);
        },
    }
    let ghost second = storage.files();
    let result = remove_picked(storage, "", &HalfWritten);
    proof {
        lemma_orphans_gone(start, first, second, WAL_DIR@);
        lemma_orphans_gone(start, second, storage.files(), Seq::empty());
        if result is Ok {
            lemma_no_orphan_left(start, first, second, storage.files());
        }
    }
    result
}

/// What a second directory loses was an orphan from the beginning.
proof fn lemma_orphans_gone(start: FileMap, middle: FileMap, end: FileMap, dir: Seq<char>)
    requires
        forall|path: Seq<char>|
            #![trigger middle.dom().contains(path)]
            middle.dom().contains(path) ==> start.dom().contains(path) && middle[path]
                == start[path],
        forall|path: Seq<char>|
            #![trigger middle.dom().contains(path)]
            start.dom().contains(path) && !middle.dom().contains(path) ==> is_orphan(start, path),
        only_picked_gone(middle, end, dir, HalfWritten),
        dir == WAL_DIR@ || dir == Seq::<char>::empty(),
    ensures
        forall|path: Seq<char>|
            #![trigger end.dom().contains(path)]
            end.dom().contains(path) ==> start.dom().contains(path) && end[path] == start[path],
        forall|path: Seq<char>|
            #![trigger end.dom().contains(path)]
            start.dom().contains(path) && !end.dom().contains(path) ==> is_orphan(start, path),
{
    assert forall|path: Seq<char>|
        #![trigger end.dom().contains(path)]
        end.dom().contains(path) implies start.dom().contains(path) && end[path] == start[path] by {
        assert(middle.dom().contains(path));
    }
    assert forall|path: Seq<char>|
        #![trigger end.dom().contains(path)]
        start.dom().contains(path) && !end.dom().contains(path) implies is_orphan(start, path) by {
        if middle.dom().contains(path) {
            assert(picks(middle, dir, HalfWritten, path));
            let name = choose|name: Seq<char>| #[trigger]
                dir_holds(middle, dir, name) && HalfWritten.holds(name) && path == dir_prefix(dir)
                    + name;
            assert(dir_holds(start, dir, name));
            assert(picks(start, dir, HalfWritten, path));
        }
    }
}

/// An orphan of a directory is still one when the other directories are done.
proof fn lemma_no_orphan_left(start: FileMap, first: FileMap, second: FileMap, end: FileMap)
    requires
        all_picked_gone(start, first, SEGMENTS_DIR@, HalfWritten),
        all_picked_gone(first, second, WAL_DIR@, HalfWritten),
        all_picked_gone(second, end, Seq::empty(), HalfWritten),
    ensures
        forall|path: Seq<char>|
            #![trigger end.dom().contains(path)]
            is_orphan(start, path) ==> !end.dom().contains(path),
{
    assert forall|path: Seq<char>|
        #![trigger end.dom().contains(path)]
        is_orphan(start, path) implies !end.dom().contains(path) by {
        if end.dom().contains(path) {
            assert(second.dom().contains(path));
            assert(first.dom().contains(path));
            assert(!picks(start, SEGMENTS_DIR@, HalfWritten, path));
            if picks(start, WAL_DIR@, HalfWritten, path) {
                let name = choose|name: Seq<char>| #[trigger]
                    dir_holds(start, WAL_DIR@, name) && HalfWritten.holds(name) && path
                        == dir_prefix(WAL_DIR@) + name;
                assert(dir_holds(first, WAL_DIR@, name));
                assert(picks(first, WAL_DIR@, HalfWritten, path));
            }
            if picks(start, Seq::empty(), HalfWritten, path) {
                let name = choose|name: Seq<char>| #[trigger]
                    dir_holds(start, Seq::empty(), name) && HalfWritten.holds(name) && path
                        == dir_prefix(Seq::empty()) + name;
                assert(dir_holds(second, Seq::empty(), name));
                assert(picks(second, Seq::empty(), HalfWritten, path));
            }
        }
    }
}

/// Whether `names` lists the segment files of a library, each once.
pub open spec fn lists_segment_files(files: FileMap, names: Seq<String>) -> bool {
    &&& forall|i: int|
        0 <= i < names.len() ==> dir_holds(files, SEGMENTS_DIR@, (#[trigger] names[i])@)
            && is_segment_name(names[i]@)
    &&& forall|i: int, j: int|
        0 <= i < j < names.len() ==> (#[trigger] names[i])@ != (#[trigger] names[j])@
    &&& forall|name: Seq<char>| #[trigger]
        dir_holds(files, SEGMENTS_DIR@, name) && is_segment_name(name) ==> exists|i: int|
            0 <= i < names.len() && (#[trigger] names[i])@ == name
}

/// Lists the segment files.
pub fn segment_files<S: Storage>(storage: &S) -> (result: Result<Vec<String>, MnemeError>)
    requires
        storage.wf(),
    ensures
        result matches Ok(names) ==> lists_segment_files(storage.files(), names@),
        result matches Err(error) ==> given_by(failures_of(*storage), error),
{
    proof {
        library_paths_stay_below(SegmentFile::Vsec, 0, 0, 0);
    }
    let names = match storage.list_dir(SEGMENTS_DIR) {
        Ok(names) => names,
        Err(error) => {
            return Err(error);
        },
    };
    let ghost files = storage.files();
    let mut found: Vec<String> = Vec::new();
    let ghost mut from: Seq<int> = Seq::empty();
    let mut i: usize = 0;
    while i < names.len()
        invariant
            lists_dir(files, SEGMENTS_DIR@, names@),
            i <= names@.len(),
            from.len() == found@.len(),
            forall|k: int|
                0 <= k < from.len() ==> 0 <= #[trigger] from[k] < i && found@[k]@
                    == names@[from[k]]@ && is_segment_name(found@[k]@),
            forall|k: int, m: int|
                0 <= k < m < from.len() ==> #[trigger] from[k] < #[trigger] from[m],
            forall|n: int|
                0 <= n < i && is_segment_name((#[trigger] names@[n])@) ==> from.contains(n),
        decreases names@.len() - i,
    {
        let name = &names[i];
        if SegmentNames.passes(name.as_str()) {
            let ghost before = from;
            let ghost earlier = found@;
            found.push(name.clone());
            proof {
                from = from.push(i as int);
                assert(from[before.len() as int] == i);
                assert forall|k: int| 0 <= k < from.len() implies 0 <= #[trigger] from[k] < i + 1
                    && found@[k]@ == names@[from[k]]@ && is_segment_name(found@[k]@) by {
                    if k < before.len() {
                        assert(from[k] == before[k]);
                        assert(found@[k] == earlier[k]);
                    }
                }
                assert forall|n: int|
                    0 <= n < i + 1
                        && is_segment_name((#[trigger] names@[n])@) implies from.contains(
                    n,
                ) by {
                    if n < i {
                        let k = choose|k: int| 0 <= k < before.len() && before[k] == n;
                        assert(from[k] == n);
                    }
                }
            }
        }
        i = i + 1;
    }
    proof {
        assert forall|k: int| 0 <= k < found@.len() implies dir_holds(
            files,
            SEGMENTS_DIR@,
            (#[trigger] found@[k])@,
        ) && is_segment_name(found@[k]@) by {
            assert(dir_holds(files, SEGMENTS_DIR@, names@[from[k]]@));
        }
        assert forall|k: int, m: int| 0 <= k < m < found@.len() implies (#[trigger] found@[k])@ != (
        #[trigger] found@[m])@ by {
            assert(from[k] < from[m]);
        }
        assert forall|name: Seq<char>| #[trigger]
            dir_holds(files, SEGMENTS_DIR@, name) && is_segment_name(name) implies exists|k: int|
            0 <= k < found@.len() && (#[trigger] found@[k])@ == name by {
            let n = choose|n: int| 0 <= n < names@.len() && (#[trigger] names@[n])@ == name;
            assert(from.contains(n));
            let k = choose|k: int| 0 <= k < from.len() && from[k] == n;
            assert(found@[k]@ == name);
        }
    }
    Ok(found)
}

/// Removes the segment files that a manifest does not refer to.
pub fn remove_unreferenced_segments<S: Storage>(storage: &mut S, manifest: &Manifest) -> (result:
    Result<(), MnemeError>)
    requires
        old(storage).wf(),
    ensures
        final(storage).wf(),
        final(storage).reliable() == old(storage).reliable(),
        final(storage).failures() == old(storage).failures(),
        final(storage).locked() == old(storage).locked(),
        only_picked_gone(
            old(storage).files(),
            final(storage).files(),
            SEGMENTS_DIR@,
            (Unreferenced { manifest }),
        ),
        result is Ok ==> all_picked_gone(
            old(storage).files(),
            final(storage).files(),
            SEGMENTS_DIR@,
            (Unreferenced { manifest }),
        ),
        result matches Err(error) ==> given_by(failures_of(*old(storage)), error),
{
    proof {
        library_paths_stay_below(SegmentFile::Vsec, 0, 0, 0);
    }
    let test = Unreferenced { manifest };
    remove_picked(storage, SEGMENTS_DIR, &test)
}

/// Cleaning up never takes a file of a segment that the manifest refers to.
pub proof fn referenced_files_stay(
    before: FileMap,
    after: FileMap,
    manifest: &Manifest,
    at: int,
    file: SegmentFile,
)
    requires
        only_picked_gone(before, after, SEGMENTS_DIR@, (Unreferenced { manifest })),
        0 <= at < manifest.segments@.len(),
        before.dom().contains(
            crate::layout::segment_path(file, manifest.segments@[at].segment_id),
        ),
    ensures
        after.dom().contains(
            crate::layout::segment_path(file, manifest.segments@[at].segment_id),
        ),
{
    let id = manifest.segments@[at].segment_id;
    let path = crate::layout::segment_path(file, id);
    let name = segment_file(file, id);
    let test = Unreferenced { manifest };
    if !after.dom().contains(path) {
        assert(picks(before, SEGMENTS_DIR@, test, path));
        let other = choose|other: Seq<char>| #[trigger]
            dir_holds(before, SEGMENTS_DIR@, other) && test.holds(other) && path == dir_prefix(
                SEGMENTS_DIR@,
            ) + other;
        reveal_strlit("segments");
        let head = dir_prefix(SEGMENTS_DIR@);
        assert(path.skip(head.len() as int) =~= other);
        assert(path.skip(head.len() as int) =~= name);
        assert(names_file_of(manifest@.segments[at], name));
    }
}

} // verus!
