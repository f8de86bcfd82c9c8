//! Files that wait for their removal.

use vstd::prelude::*;

use crate::cleanup::{
    all_picked_gone, lemma_entry_stays_below, only_picked_gone, remove_picked, NameTest,
};
use crate::error::{MnemeError, SegmentFile};
use crate::layout::{library_paths_stay_below, path_in, stays_below, SEGMENTS_DIR, TRASH_DIR};
use crate::storage::{
    dir_holds, dir_prefix, failures_of, given_by, lists_dir, same_at, survivors_settled, FileMap,
    Storage,
};
use crate::text::{has_prefix, text_equal};
use crate::wal_writer::capped_sum;

verus! {

/// Every file name.
pub struct EveryName;

impl NameTest for EveryName {
    open spec fn holds(&self, name: Seq<char>) -> bool {
        name != ".."@
    }

    proof fn no_parent(&self, name: Seq<char>) {
    }

    fn passes(&self, name: &str) -> (result: bool) {
        !text_equal(name, "..")
    }
}

/// Removes what waits for its removal.
pub fn purge<S: Storage>(storage: &mut S) -> (result: Result<(), MnemeError>)
    requires
        old(storage).wf(),
    ensures
        final(storage).wf(),
        final(storage).reliable() == old(storage).reliable(),
        final(storage).failures() == old(storage).failures(),
        final(storage).locked() == old(storage).locked(),
        survivors_settled(
            old(storage).settled(),
            final(storage).files(),
            final(storage).settled(),
        ),
        only_picked_gone(old(storage).files(), final(storage).files(), TRASH_DIR@, EveryName),
        result is Ok ==> all_picked_gone(
            old(storage).files(),
            final(storage).files(),
            TRASH_DIR@,
            EveryName,
        ),
        result matches Err(error) ==> given_by(failures_of(*old(storage)), error),
{
    proof {
        library_paths_stay_below(SegmentFile::Vsec, 0, 0, 0);
    }
    remove_picked(storage, TRASH_DIR, &EveryName)
}

/// The path of a name in a directory.
pub open spec fn path_of(dir: Seq<char>, name: Seq<char>) -> Seq<char> {
    dir + "/"@ + name
}

/// The files once the first `count` names have been moved out of the segments, where they are there.
pub open spec fn moved(files: FileMap, names: Seq<String>, count: nat) -> FileMap
    decreases count,
{
    if count == 0 {
        files
    } else {
        let before = moved(files, names, (count - 1) as nat);
        let from = path_of(SEGMENTS_DIR@, names[count - 1]@);
        let to = path_of(TRASH_DIR@, names[count - 1]@);
        if before.dom().contains(from) {
            before.remove(from).insert(to, before[from])
        } else {
            before
        }
    }
}

/// Whether every name is one that a directory can hold.
pub open spec fn are_plain(names: Seq<String>) -> bool {
    forall|i: int|
        0 <= i < names.len() ==> (#[trigger] names[i])@.len() > 0 && !names[i]@.contains('/')
            && names[i]@ != ".."@
}

/// Moves segment files out of the way. A file that is not there is passed over.
pub fn move_to_trash<S: Storage>(storage: &mut S, names: &Vec<String>) -> (result: Result<
    (),
    MnemeError,
>)
    requires
        old(storage).wf(),
    ensures
        final(storage).wf(),
        final(storage).reliable() == old(storage).reliable(),
        final(storage).failures() == old(storage).failures(),
        final(storage).locked() == old(storage).locked(),
        result is Ok ==> final(storage).files() == moved(
            old(storage).files(),
            names@,
            names@.len(),
        ),
        result is Err ==> exists|count: nat|
            count < names@.len() && final(storage).files() == #[trigger] moved(
                old(storage).files(),
                names@,
                count,
            ),
        forall|path: Seq<char>|
            !in_trash(path) && !names_segment(names@, names@.len(), path)
                && old(storage).settled().contains(path)
                    ==> #[trigger] final(storage).settled().contains(path),
        are_plain(names@) ==> (result matches Err(error) ==> given_by(
            failures_of(*old(storage)),
            error,
        )),
{
    proof {
        library_paths_stay_below(SegmentFile::Vsec, 0, 0, 0);
    }
    let mut i: usize = 0;
    while i < names.len()
        invariant
            storage.wf(),
            storage.reliable() == old(storage).reliable(),
            storage.failures() == old(storage).failures(),
            storage.locked() == old(storage).locked(),
            stays_below(SEGMENTS_DIR@),
            stays_below(TRASH_DIR@),
            i <= names@.len(),
            storage.files() == moved(old(storage).files(), names@, i as nat),
            forall|path: Seq<char>|
                !in_trash(path) && !names_segment(names@, names@.len(), path)
                    && old(storage).settled().contains(path)
                        ==> #[trigger] storage.settled().contains(
                    path,
                ),
        decreases names@.len() - i,
    {
        let name = &names[i];
        let from = path_in(SEGMENTS_DIR, name.as_str());
        let to = path_in(TRASH_DIR, name.as_str());
        proof {
            if are_plain(names@) {
                assert(names@[i as int]@.len() > 0);
                reveal_strlit("segments");
                reveal_strlit("trash");
                lemma_entry_stays_below(SEGMENTS_DIR@, name@);
                lemma_entry_stays_below(TRASH_DIR@, name@);
            }
            assert(storage.files() == moved(old(storage).files(), names@, i as nat));
            let head = TRASH_DIR@ + "/"@;
            assert(path_of(TRASH_DIR@, name@).take(head.len() as int) =~= head);
            assert(names_segment(names@, names@.len(), path_of(SEGMENTS_DIR@, name@))) by {
                assert(names@[i as int]@ == name@);
            }
        }
        let there: bool = match storage.has_file(from.as_str()) {
            Ok(there) => there,
            Err(error) => {
                return Err(error);
            },
        };
        if there {
            match storage.rename(from.as_str(), to.as_str()) {
                Ok(()) => {},
                Err(error) => {
                    return Err(error);
                },
            }
        }
        i = i + 1;
    }
    Ok(())
}

/// Whether a path leads to a file that waits for its removal.
pub open spec fn in_trash(path: Seq<char>) -> bool {
    has_prefix(path, TRASH_DIR@ + "/"@)
}

/// Whether a path is that of one of the names among the segments.
pub open spec fn names_segment(names: Seq<String>, count: nat, path: Seq<char>) -> bool {
    exists|i: int| 0 <= i < count && path == path_of(SEGMENTS_DIR@, (#[trigger] names[i])@)
}

/// What was moved is no longer among the segments, and nothing else outside of the trash changed.
pub proof fn lemma_moved(files: FileMap, names: Seq<String>, count: nat, path: Seq<char>)
    requires
        count <= names.len(),
        !in_trash(path),
    ensures
        names_segment(names, count, path) ==> !moved(files, names, count).dom().contains(path),
        !names_segment(names, count, path) ==> same_at(files, moved(files, names, count), path),
    decreases count,
{
    if count > 0 {
        let less = (count - 1) as nat;
        lemma_moved(files, names, less, path);
        let name = names[count - 1]@;
        let from = path_of(SEGMENTS_DIR@, name);
        let to = path_of(TRASH_DIR@, name);
        let head = TRASH_DIR@ + "/"@;
        assert(to.take(head.len() as int) =~= head);
        if names_segment(names, less, path) {
            let i = choose|i: int|
                0 <= i < less && path == path_of(SEGMENTS_DIR@, (#[trigger] names[i])@);
            assert(path == path_of(SEGMENTS_DIR@, names[i]@));
            assert(names_segment(names, count, path));
        }
        if names_segment(names, count, path) && !names_segment(names, less, path) {
            let i = choose|i: int|
                0 <= i < count && path == path_of(SEGMENTS_DIR@, (#[trigger] names[i])@);
            assert(i == count - 1);
        }
        if path == from {
            assert(path == path_of(SEGMENTS_DIR@, names[count - 1]@));
            assert(names_segment(names, count, path));
        }
    }
}

/// Emptying the trash changes nothing outside of it.
pub proof fn lemma_purged(before: FileMap, after: FileMap, path: Seq<char>)
    requires
        only_picked_gone(before, after, TRASH_DIR@, EveryName),
        !in_trash(path),
    ensures
        same_at(before, after, path),
{
    reveal_strlit("trash");
    if before.dom().contains(path) && !after.dom().contains(path) {
        assert(crate::cleanup::picks(before, TRASH_DIR@, EveryName, path));
        let name = choose|name: Seq<char>| #[trigger]
            dir_holds(before, TRASH_DIR@, name) && EveryName.holds(name) && path == dir_prefix(
                TRASH_DIR@,
            ) + name;
        let head = TRASH_DIR@ + "/"@;
        assert(path.take(head.len() as int) =~= head);
    }
}

/// The lengths of the first `count` files of a listing together.
pub open spec fn listed_bytes(files: FileMap, dir: Seq<char>, names: Seq<String>, count: nat) -> u64
    decreases count,
{
    if count == 0 {
        0
    } else {
        capped_sum(
            listed_bytes(files, dir, names, (count - 1) as nat),
            files[dir_prefix(dir) + names[count - 1]@].len() as u64,
        )
    }
}

/// How long the files are that wait for their removal.
pub fn bytes<S: Storage>(storage: &S) -> (result: Result<u64, MnemeError>)
    requires
        storage.wf(),
    ensures
        result matches Ok(total) ==> exists|names: Seq<String>| #[trigger]
            lists_dir(storage.files(), TRASH_DIR@, names) && total == listed_bytes(
                storage.files(),
                TRASH_DIR@,
                names,
                names.len(),
            ),
        !dir_holds(storage.files(), TRASH_DIR@, ".."@) ==> (result matches Err(error) ==> given_by(
            failures_of(*storage),
            error,
        )),
{
    proof {
        library_paths_stay_below(SegmentFile::Vsec, 0, 0, 0);
        reveal_strlit("trash");
    }
    let names = match storage.list_dir(TRASH_DIR) {
        Ok(names) => names,
        Err(error) => {
            return Err(error);
        },
    };
    let mut total: u64 = 0;
    let mut i: usize = 0;
    while i < names.len()
        invariant
            storage.wf(),
            stays_below(TRASH_DIR@),
            lists_dir(storage.files(), TRASH_DIR@, names@),
            TRASH_DIR@.len() > 0,
            i <= names@.len(),
            total == listed_bytes(storage.files(), TRASH_DIR@, names@, i as nat),
        decreases names@.len() - i,
    {
        let name = &names[i];
        let path = path_in(TRASH_DIR, name.as_str());
        proof {
            assert(dir_holds(storage.files(), TRASH_DIR@, names@[i as int]@));
            if name@ != ".."@ {
                lemma_entry_stays_below(TRASH_DIR@, name@);
            }
        }
        match storage.stat(path.as_str()) {
            Ok(meta) => {
                total = total.saturating_add(meta.len);
            },
            Err(error) => {
                return Err(error);
            },
        }
        i = i + 1;
    }
    Ok(total)
}

/// How long the files are that wait for their removal, as far as that can be told; nothing, where it
/// cannot.
pub fn trash_bytes<S: Storage>(storage: &S) -> (total: u64)
    requires
        storage.wf(),
    ensures
        total == 0 || exists|names: Seq<String>| #[trigger]
            lists_dir(storage.files(), TRASH_DIR@, names) && total == listed_bytes(
                storage.files(),
                TRASH_DIR@,
                names,
                names.len(),
            ),
        storage.reliable() && !dir_holds(storage.files(), TRASH_DIR@, ".."@) ==> exists|
            names: Seq<String>,
        | #[trigger]
            lists_dir(storage.files(), TRASH_DIR@, names) && total == listed_bytes(
                storage.files(),
                TRASH_DIR@,
                names,
                names.len(),
            ),
{
    match bytes(storage) {
        Ok(total) => total,
        Err(_) => 0,
    }
}

/// A file that is moved to the trash keeps its contents there, under its own name.
pub proof fn moved_file_waits_in_the_trash(
    files: FileMap,
    names: Seq<String>,
    count: nat,
    at: int,
)
    requires
        count <= names.len(),
        0 <= at < count,
        files.dom().contains(path_of(SEGMENTS_DIR@, names[at]@)),
        forall|i: int|
            0 <= i < names.len() && i != at ==> (#[trigger] names[i])@ != names[at]@,
    ensures
        moved(files, names, count).dom().contains(path_of(TRASH_DIR@, names[at]@)),
        moved(files, names, count)[path_of(TRASH_DIR@, names[at]@)] == files[path_of(
            SEGMENTS_DIR@,
            names[at]@,
        )],
    decreases count,
{
    reveal_strlit("trash");
    reveal_strlit("segments");
    let less = (count - 1) as nat;
    let from = path_of(SEGMENTS_DIR@, names[at]@);
    let to = path_of(TRASH_DIR@, names[at]@);
    assert(from[0] == 's');
    if at < less {
        moved_file_waits_in_the_trash(files, names, less, at);
        let last = names[less as int]@;
        assert(last != names[at]@);
        let other_from = path_of(SEGMENTS_DIR@, last);
        let other_to = path_of(TRASH_DIR@, last);
        assert(other_from[0] == 's');
        assert(to[0] == 't');
        assert(to != other_to) by {
            let head = TRASH_DIR@ + "/"@;
            assert(to.skip(head.len() as int) =~= names[at]@);
            assert(other_to.skip(head.len() as int) =~= last);
        }
    } else {
        assert(!in_trash(from)) by {
            let head = TRASH_DIR@ + "/"@;
            if in_trash(from) {
                assert(from.take(head.len() as int)[0] == 't');
            }
        }
        lemma_moved(files, names, less, from);
        if names_segment(names, less, from) {
            let i = choose|i: int|
                0 <= i < less && from == path_of(SEGMENTS_DIR@, (#[trigger] names[i])@);
            let head = SEGMENTS_DIR@ + "/"@;
            assert(from.skip(head.len() as int) =~= names[i]@);
            assert(from.skip(head.len() as int) =~= names[at]@);
        }
        assert(same_at(files, moved(files, names, less), from));
    }
}

/// The lengths of the first `count` files of a listing together, without a limit.
pub open spec fn listed_lengths(
    files: FileMap,
    dir: Seq<char>,
    names: Seq<String>,
    count: nat,
) -> int
    decreases count,
{
    if count == 0 {
        0
    } else {
        listed_lengths(files, dir, names, (count - 1) as nat) + files[dir_prefix(dir)
            + names[count - 1]@].len()
    }
}

/// What waits in the trash is counted with its whole length, up to the largest number.
pub proof fn trash_is_counted_whole(
    files: FileMap,
    dir: Seq<char>,
    names: Seq<String>,
    count: nat,
)
    requires
        forall|path: Seq<char>| (#[trigger] files[path]).len() <= u64::MAX,
    ensures
        listed_lengths(files, dir, names, count) >= 0,
        listed_bytes(files, dir, names, count) == (if listed_lengths(files, dir, names, count)
            > u64::MAX {
            u64::MAX as int
        } else {
            listed_lengths(files, dir, names, count)
        }),
    decreases count,
{
    if count > 0 {
        trash_is_counted_whole(files, dir, names, (count - 1) as nat);
    }
}

} // verus!
