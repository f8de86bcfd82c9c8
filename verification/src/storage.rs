//! Storage backends: what a backend owes, and the backend that lives in memory.

use vstd::prelude::*;

use crate::error::{BusyFault, ConfigFault, IoFault, MnemeError};
use crate::layout::{resolve, stays_below};
use crate::order::{is_stable_order, stable_order};
use crate::tables::NameTable;
use crate::text::{after_prefix, has_prefix, text_lt};

verus! {

/// What is known of a file without reading it.
#[derive(Clone, Copy, Debug, PartialEq, Eq, Structural)]
pub struct FileMeta {
    /// Length in bytes.
    pub len: u64,
}

/// A file that was opened for reading as a whole.
pub enum RawBytes {
    /// The bytes in a buffer of their own.
    Owned(Vec<u8>),
}

impl RawBytes {
    /// The bytes of the file.
    pub open spec fn bytes(&self) -> Seq<u8> {
        match self {
            RawBytes::Owned(bytes) => bytes@,
        }
    }

    /// The bytes as a slice.
    pub fn as_slice(&self) -> (slice: &[u8])
        ensures
            slice@ == self.bytes(),
    {
        match self {
            RawBytes::Owned(bytes) => bytes.as_slice(),
        }
    }

    /// How many bytes there are.
    pub fn len(&self) -> (count: usize)
        ensures
            count == self.bytes().len(),
    {
        self.as_slice().len()
    }

    /// Whether there are no bytes.
    pub fn is_empty(&self) -> (empty: bool)
        ensures
            empty == (self.bytes().len() == 0),
    {
        self.as_slice().len() == 0
    }
}

/// The contents of a backend: every file by its path below the root.
pub type FileMap = Map<Seq<char>, Seq<u8>>;

/// Paths below the root.
pub type PathSet = Set<Seq<char>>;

/// What a backend may fail at.
pub enum Step {
    /// Reading a file.
    Read,
    /// Replacing a file.
    Write,
    /// Appending to a file.
    Append,
    /// Cutting a file.
    Cut,
    /// Bringing a file to stable storage.
    Sync,
    /// Removing a file.
    Remove,
    /// Giving a file another path.
    Rename,
    /// Asking for a file or for the root.
    Look,
    /// Listing a directory.
    List,
    /// Creating a file or a directory.
    Create,
    /// Taking the exclusive lock.
    Lock,
}

/// Errors, each with the step that gives it.
pub type FailureSet = Set<(Step, MnemeError)>;

/// The error for a path that leaves the root.
pub open spec fn unsafe_path() -> MnemeError {
    MnemeError::Config { reason: ConfigFault::UnsafePath }
}

/// The error for a file that is not there.
pub open spec fn not_found() -> MnemeError {
    MnemeError::Io(IoFault::NotFound)
}

/// Whether two states agree on one path.
pub open spec fn same_at(a: FileMap, b: FileMap, path: Seq<char>) -> bool {
    a.dom().contains(path) == b.dom().contains(path) && (a.dom().contains(path) ==> a[path]
        == b[path])
}

/// The file that a backend may write next to `rel` while it replaces `rel`.
pub open spec fn temporary_of(rel: Seq<char>) -> Seq<char> {
    rel + ".tmp"@
}

/// Whether an operation on `rel` left every other file alone.
pub open spec fn others_kept(before: FileMap, after: FileMap, rel: Seq<char>) -> bool {
    forall|p: Seq<char>|
        p != rel && p != temporary_of(rel) ==> #[trigger] same_at(before, after, p)
}

/// Whether an operation on `rel` left every other file on stable storage that was there.
pub open spec fn still_settled(before: PathSet, after: PathSet, rel: Seq<char>) -> bool {
    forall|p: Seq<char>|
        p != rel && p != temporary_of(rel) && before.contains(p) ==> #[trigger] after.contains(p)
}

/// Whether every file that is still there is on stable storage, if it was before.
pub open spec fn survivors_settled(before: PathSet, files: FileMap, after: PathSet) -> bool {
    forall|p: Seq<char>|
        files.dom().contains(p) && before.contains(p) ==> #[trigger] after.contains(p)
}

/// Whether a crash of the system can leave these files: those on stable storage are as they were.
pub open spec fn left_by_crash(files: FileMap, settled: PathSet, left: FileMap) -> bool {
    forall|p: Seq<char>| settled.contains(p) ==> #[trigger] same_at(files, left, p)
}

/// What a file holds; nothing, where it is not there.
pub open spec fn content_of(files: FileMap, rel: Seq<char>) -> Seq<u8> {
    if files.dom().contains(rel) {
        files[rel]
    } else {
        Seq::empty()
    }
}

/// Whether `after` is `before` with `rel` holding `bytes`.
pub open spec fn file_set(
    before: FileMap,
    after: FileMap,
    rel: Seq<char>,
    bytes: Seq<u8>,
) -> bool {
    after.dom().contains(rel) && after[rel] == bytes && others_kept(before, after, rel)
}

/// What the paths in a directory begin with.
pub open spec fn dir_prefix(rel: Seq<char>) -> Seq<char> {
    if rel.len() == 0 {
        Seq::empty()
    } else {
        rel + "/"@
    }
}

/// Whether a directory holds a file of this name.
pub open spec fn dir_holds(files: FileMap, rel: Seq<char>, name: Seq<char>) -> bool {
    name.len() > 0 && !name.contains('/') && files.dom().contains(dir_prefix(rel) + name)
}

/// Whether nothing lies below a root.
pub open spec fn is_vacant(files: FileMap, dirs: PathSet) -> bool {
    &&& forall|p: Seq<char>| !#[trigger] files.dom().contains(p)
    &&& forall|d: Seq<char>| #[trigger] dirs.contains(d) ==> d.len() == 0
}

/// Whether `names` lists the files of a directory, each once.
pub open spec fn lists_dir(files: FileMap, rel: Seq<char>, names: Seq<String>) -> bool {
    &&& forall|i: int| 0 <= i < names.len() ==> dir_holds(files, rel, (#[trigger] names[i])@)
    &&& forall|i: int, j: int|
        0 <= i < j < names.len() ==> (#[trigger] names[i])@ != (#[trigger] names[j])@
    &&& forall|name: Seq<char>| #[trigger]
        dir_holds(files, rel, name) ==> exists|i: int|
            0 <= i < names.len() && (#[trigger] names[i])@ == name
}

/// A storage backend. Paths are relative to its root; a path that leaves the root is rejected.
///
/// A backend may fail for reasons of its own. What it owes then is stated for every method: no
/// file but the one named changes, and the one named is left in one of few states. A backend
/// that is `reliable` fails only where the request is at fault; the errors of one that is not are
/// its `failures`.
pub trait Storage: Sized {
    /// Every file by its path.
    spec fn files(&self) -> FileMap;

    /// The invariant of the backend.
    spec fn wf(&self) -> bool;

    /// Whether the backend fails only for a request that is at fault.
    spec fn reliable(&self) -> bool;

    /// Whether the backend can always cut a file that is there.
    spec fn cuts(&self) -> bool;

    /// The errors that the backend may give for reasons of its own, each with the step that gives
    /// it.
    spec fn failures(&self) -> FailureSet;

    /// Whether an instance holds the exclusive lock.
    spec fn locked(&self) -> bool;

    /// Whether the root of the library is there.
    spec fn has_root(&self) -> bool;

    /// The directories that are there; the root is the empty path.
    spec fn dirs(&self) -> PathSet;

    /// The files that are links to those of another backend.
    spec fn linked(&self) -> PathSet;

    /// Whether a file of another backend of this kind can always be linked.
    spec fn links(&self) -> bool;

    /// The files that stable storage holds as they are: a crash of the system does not take them
    /// back.
    spec fn settled(&self) -> PathSet;

    /// Reads a whole file.
    fn read_file(&self, rel: &str) -> (result: Result<Vec<u8>, MnemeError>)
        requires
            self.wf(),
        ensures
            result matches Ok(bytes) ==> self.files().dom().contains(rel@) && bytes@
                == self.files()[rel@],
            !self.reliable() ==> (result matches Err(error) ==> self.failures().contains(
                (Step::Read, error),
            )),
            self.reliable() && stays_below(rel@) && self.files().dom().contains(rel@)
                ==> result is Ok,
            self.reliable() && stays_below(rel@) && !self.files().dom().contains(rel@) ==> result
                == Err::<Vec<u8>, MnemeError>(not_found()),
            self.reliable() && !stays_below(rel@) ==> result == Err::<Vec<u8>, MnemeError>(
                unsafe_path(),
            ),
    ;

    /// Reads a whole file, where it is there.
    fn read_file_opt(&self, rel: &str) -> (result: Result<Option<Vec<u8>>, MnemeError>)
        requires
            self.wf(),
        ensures
            result matches Ok(Some(bytes)) ==> self.files().dom().contains(rel@) && bytes@
                == self.files()[rel@],
            result matches Ok(None) ==> !self.files().dom().contains(rel@),
            !self.reliable() ==> (result matches Err(error) ==> self.failures().contains(
                (Step::Read, error),
            )),
            self.reliable() && stays_below(rel@) ==> result is Ok,
            self.reliable() && !stays_below(rel@) ==> result == Err::<Option<Vec<u8>>, MnemeError>(
                unsafe_path(),
            ),
    ;

    /// Reads at most `max` bytes from the beginning of a file.
    fn read_prefix(&self, rel: &str, max: usize) -> (result: Result<Vec<u8>, MnemeError>)
        requires
            self.wf(),
        ensures
            result matches Ok(bytes) ==> self.files().dom().contains(rel@) && bytes@
                == prefix_of(self.files()[rel@], max as nat),
            !self.reliable() ==> (result matches Err(error) ==> self.failures().contains(
                (Step::Read, error),
            )),
            self.reliable() && stays_below(rel@) && self.files().dom().contains(rel@)
                ==> result is Ok,
            self.reliable() && stays_below(rel@) && !self.files().dom().contains(rel@) ==> result
                == Err::<Vec<u8>, MnemeError>(not_found()),
            self.reliable() && !stays_below(rel@) ==> result == Err::<Vec<u8>, MnemeError>(
                unsafe_path(),
            ),
    {
        match self.read_file(rel) {
            Ok(mut bytes) => {
                bytes.truncate(max);
                Ok(bytes)
            },
            Err(error) => Err(error),
        }
    }

    /// Replaces a file in one step: whatever fails, the file holds either its old or its new
    /// bytes.
    fn write_atomic(&mut self, rel: &str, bytes: &[u8]) -> (result: Result<(), MnemeError>)
        requires
            old(self).wf(),
        ensures
            final(self).wf(),
            still_settled(old(self).settled(), final(self).settled(), rel@),
            result is Ok ==> final(self).settled().contains(rel@),
            final(self).reliable() == old(self).reliable(),
            final(self).cuts() == old(self).cuts(),
            final(self).failures() == old(self).failures(),
            !old(self).reliable() ==> (result matches Err(error) ==> old(self).failures().contains(
                (Step::Write, error),
            )),
            final(self).locked() == old(self).locked(),
            others_kept(old(self).files(), final(self).files(), rel@),
            final(self).links() == old(self).links(),
            result is Ok ==> final(self).linked() == old(self).linked().remove(rel@),
            result is Ok ==> file_set(old(self).files(), final(self).files(), rel@, bytes@),
            result is Err ==> same_at(old(self).files(), final(self).files(), rel@) || file_set(
                old(self).files(),
                final(self).files(),
                rel@,
                bytes@,
            ),
            old(self).reliable() && stays_below(rel@) ==> result is Ok,
            old(self).reliable() && !stays_below(rel@) ==> result == Err::<(), MnemeError>(
                unsafe_path(),
            ) && final(self).files() == old(self).files(),
    ;

    /// Writes a file that must not be there yet.
    fn write_new(&mut self, rel: &str, bytes: &[u8]) -> (result: Result<(), MnemeError>)
        requires
            old(self).wf(),
        ensures
            final(self).wf(),
            still_settled(old(self).settled(), final(self).settled(), rel@),
            result is Ok ==> final(self).settled().contains(rel@),
            final(self).reliable() == old(self).reliable(),
            final(self).cuts() == old(self).cuts(),
            final(self).failures() == old(self).failures(),
            !old(self).reliable() ==> (result matches Err(error) ==> old(self).failures().contains(
                (Step::Create, error),
            )),
            final(self).locked() == old(self).locked(),
            others_kept(old(self).files(), final(self).files(), rel@),
            result is Ok ==> !old(self).files().dom().contains(rel@) && file_set(
                old(self).files(),
                final(self).files(),
                rel@,
                bytes@,
            ),
            old(self).files().dom().contains(rel@) ==> same_at(
                old(self).files(),
                final(self).files(),
                rel@,
            ),
            old(self).reliable() && stays_below(rel@) && !old(self).files().dom().contains(rel@)
                ==> result is Ok,
            old(self).reliable() && stays_below(rel@) && old(self).files().dom().contains(rel@)
                ==> result == Err::<(), MnemeError>(MnemeError::Io(IoFault::AlreadyExists)),
            old(self).reliable() && !stays_below(rel@) ==> result == Err::<(), MnemeError>(
                unsafe_path(),
            ) && final(self).files() == old(self).files(),
    ;

    /// Appends to a file, which is created where it is not there, and returns its new length.
    fn append(&mut self, rel: &str, bytes: &[u8]) -> (result: Result<u64, MnemeError>)
        requires
            old(self).wf(),
        ensures
            final(self).wf(),
            still_settled(old(self).settled(), final(self).settled(), rel@),
            final(self).reliable() == old(self).reliable(),
            final(self).cuts() == old(self).cuts(),
            final(self).failures() == old(self).failures(),
            !old(self).reliable() ==> (result matches Err(error) ==> old(self).failures().contains(
                (Step::Append, error),
            )),
            final(self).locked() == old(self).locked(),
            others_kept(old(self).files(), final(self).files(), rel@),
            result matches Ok(len) ==> file_set(
                old(self).files(),
                final(self).files(),
                rel@,
                content_of(old(self).files(), rel@) + bytes@,
            ) && len == content_of(old(self).files(), rel@).len() + bytes@.len(),
            result is Err ==> content_of(old(self).files(), rel@).is_prefix_of(
                content_of(final(self).files(), rel@),
            ) && (old(self).files().dom().contains(rel@) ==> final(self).files().dom().contains(
                rel@,
            )),
            old(self).reliable() && stays_below(rel@) ==> result is Ok,
            old(self).reliable() && !stays_below(rel@) ==> result == Err::<u64, MnemeError>(
                unsafe_path(),
            ) && final(self).files() == old(self).files(),
    ;

    /// Cuts a file to its first `len` bytes.
    fn truncate(&mut self, rel: &str, len: u64) -> (result: Result<(), MnemeError>)
        requires
            old(self).wf(),
        ensures
            final(self).wf(),
            still_settled(old(self).settled(), final(self).settled(), rel@),
            result is Ok ==> final(self).settled().contains(rel@),
            final(self).reliable() == old(self).reliable(),
            final(self).cuts() == old(self).cuts(),
            final(self).failures() == old(self).failures(),
            !old(self).reliable() ==> (result matches Err(error) ==> old(self).failures().contains(
                (Step::Cut, error),
            )),
            final(self).locked() == old(self).locked(),
            others_kept(old(self).files(), final(self).files(), rel@),
            result is Ok ==> old(self).files().dom().contains(rel@)
                && final(self).files().dom().contains(rel@),
            result is Ok && len <= content_of(old(self).files(), rel@).len() ==> file_set(
                old(self).files(),
                final(self).files(),
                rel@,
                content_of(old(self).files(), rel@).take(len as int),
            ),
            result is Err
                ==> old(self).files().dom().contains(rel@) == final(self).files().dom().contains(rel@),
            result is Err && len <= content_of(old(self).files(), rel@).len() ==> same_at(
                old(self).files(),
                final(self).files(),
                rel@,
            ) || file_set(
                old(self).files(),
                final(self).files(),
                rel@,
                content_of(old(self).files(), rel@).take(len as int),
            ),
            old(self).cuts() && stays_below(rel@) && old(self).files().dom().contains(rel@)
                ==> result is Ok,
            old(self).reliable() && stays_below(rel@) && old(self).files().dom().contains(rel@)
                ==> result is Ok,
            old(self).reliable() && stays_below(rel@) && !old(self).files().dom().contains(rel@)
                ==> result == Err::<(), MnemeError>(not_found())
                    && final(self).files() == old(self).files(),
            old(self).reliable() && !stays_below(rel@) ==> result == Err::<(), MnemeError>(
                unsafe_path(),
            ) && final(self).files() == old(self).files(),
    ;

    /// Brings a file to stable storage.
    fn sync(&mut self, rel: &str) -> (result: Result<(), MnemeError>)
        requires
            old(self).wf(),
        ensures
            final(self).wf(),
            old(self).settled().subset_of(final(self).settled()),
            result is Ok ==> final(self).settled().contains(rel@),
            final(self).reliable() == old(self).reliable(),
            final(self).cuts() == old(self).cuts(),
            final(self).failures() == old(self).failures(),
            !old(self).reliable() ==> (result matches Err(error) ==> old(self).failures().contains(
                (Step::Sync, error),
            )),
            final(self).locked() == old(self).locked(),
            final(self).files() == old(self).files(),
            old(self).reliable() ==> result is Ok,
    ;

    /// The names of the files in a directory; none, where the directory is not there.
    fn list_dir(&self, rel: &str) -> (result: Result<Vec<String>, MnemeError>)
        requires
            self.wf(),
        ensures
            result matches Ok(names) ==> lists_dir(self.files(), rel@, names@),
            !self.reliable() ==> (result matches Err(error) ==> self.failures().contains(
                (Step::List, error),
            )),
            self.reliable() && stays_below(rel@) ==> result is Ok,
            self.reliable() && !stays_below(rel@) ==> result == Err::<Vec<String>, MnemeError>(
                unsafe_path(),
            ),
    ;

    /// Creates a directory, where it is not there.
    fn ensure_dir(&mut self, rel: &str) -> (result: Result<(), MnemeError>)
        requires
            old(self).wf(),
        ensures
            final(self).wf(),
            old(self).settled().subset_of(final(self).settled()),
            final(self).reliable() == old(self).reliable(),
            final(self).cuts() == old(self).cuts(),
            final(self).failures() == old(self).failures(),
            !old(self).reliable() ==> (result matches Err(error) ==> old(self).failures().contains(
                (Step::Create, error),
            )),
            final(self).locked() == old(self).locked(),
            final(self).files() == old(self).files(),
            final(self).linked() == old(self).linked(),
            final(self).links() == old(self).links(),
            old(self).dirs().subset_of(final(self).dirs()),
            result is Ok ==> final(self).dirs().contains(rel@),
            old(self).reliable() && stays_below(rel@) ==> result is Ok,
            old(self).reliable() && !stays_below(rel@) ==> result == Err::<(), MnemeError>(
                unsafe_path(),
            ),
    ;

    /// Removes a file, where it is there.
    fn remove_if_exists(&mut self, rel: &str) -> (result: Result<(), MnemeError>)
        requires
            old(self).wf(),
        ensures
            final(self).wf(),
            forall|p: Seq<char>|
                p != rel@ && old(self).settled().contains(p)
                    ==> #[trigger] final(self).settled().contains(p),
            final(self).reliable() == old(self).reliable(),
            final(self).cuts() == old(self).cuts(),
            final(self).failures() == old(self).failures(),
            !old(self).reliable() ==> (result matches Err(error) ==> old(self).failures().contains(
                (Step::Remove, error),
            )),
            final(self).locked() == old(self).locked(),
            result is Err ==> old(self).settled().subset_of(final(self).settled()),
            result is Ok ==> final(self).files() == old(self).files().remove(rel@),
            result is Err ==> final(self).files() == old(self).files(),
            old(self).reliable() && stays_below(rel@) ==> result is Ok,
            old(self).reliable() && !stays_below(rel@) ==> result == Err::<(), MnemeError>(
                unsafe_path(),
            ),
    ;

    /// Gives a file another path, in place of what was there.
    fn rename(&mut self, from: &str, to: &str) -> (result: Result<(), MnemeError>)
        requires
            old(self).wf(),
        ensures
            final(self).wf(),
            forall|p: Seq<char>|
                p != from@ && p != to@ && old(self).settled().contains(p)
                    ==> #[trigger] final(self).settled().contains(p),
            result is Ok && old(self).settled().contains(from@) ==> final(self).settled().contains(
                to@,
            ),
            final(self).reliable() == old(self).reliable(),
            final(self).cuts() == old(self).cuts(),
            final(self).failures() == old(self).failures(),
            !old(self).reliable() ==> (result matches Err(error) ==> old(self).failures().contains(
                (Step::Rename, error),
            )),
            final(self).locked() == old(self).locked(),
            result is Ok ==> old(self).files().dom().contains(from@)
                && final(self).files() == old(self).files().remove(from@).insert(
                to@,
                old(self).files()[from@],
            ),
            result is Err ==> final(self).files() == old(self).files(),
            old(self).reliable() && stays_below(from@) && stays_below(to@)
                && old(self).files().dom().contains(from@) ==> result is Ok,
            old(self).reliable() && stays_below(from@) && stays_below(to@)
                && !old(self).files().dom().contains(from@)
                ==> result == Err::<(), MnemeError>(not_found()),
            old(self).reliable() && !(stays_below(from@) && stays_below(to@)) ==> result == Err::<
                (),
                MnemeError,
            >(unsafe_path()),
    ;

    /// Whether a file is there.
    fn has_file(&self, rel: &str) -> (result: Result<bool, MnemeError>)
        requires
            self.wf(),
        ensures
            result matches Ok(found) ==> found == self.files().dom().contains(rel@),
            !self.reliable() ==> (result matches Err(error) ==> self.failures().contains(
                (Step::Look, error),
            )),
            self.reliable() && stays_below(rel@) ==> result is Ok,
            self.reliable() && !stays_below(rel@) ==> result == Err::<bool, MnemeError>(
                unsafe_path(),
            ),
    ;

    /// What is known of a file.
    fn stat(&self, rel: &str) -> (result: Result<FileMeta, MnemeError>)
        requires
            self.wf(),
        ensures
            result matches Ok(meta) ==> self.files().dom().contains(rel@) && meta.len
                == self.files()[rel@].len(),
            !self.reliable() ==> (result matches Err(error) ==> self.failures().contains(
                (Step::Look, error),
            )),
            self.reliable() && stays_below(rel@) && self.files().dom().contains(rel@)
                ==> result is Ok,
            self.reliable() && stays_below(rel@) && !self.files().dom().contains(rel@) ==> result
                == Err::<FileMeta, MnemeError>(not_found()),
            self.reliable() && !stays_below(rel@) ==> result == Err::<FileMeta, MnemeError>(
                unsafe_path(),
            ),
    ;

    /// Opens a file for reading as a whole.
    fn open_bytes(&self, rel: &str) -> (result: Result<RawBytes, MnemeError>)
        requires
            self.wf(),
        ensures
            result matches Ok(raw) ==> self.files().dom().contains(rel@) && raw.bytes()
                == self.files()[rel@],
            !self.reliable() ==> (result matches Err(error) ==> self.failures().contains(
                (Step::Read, error),
            )),
            self.reliable() && stays_below(rel@) && self.files().dom().contains(rel@)
                ==> result is Ok,
            self.reliable() && stays_below(rel@) && !self.files().dom().contains(rel@) ==> result
                == Err::<RawBytes, MnemeError>(not_found()),
            self.reliable() && !stays_below(rel@) ==> result == Err::<RawBytes, MnemeError>(
                unsafe_path(),
            ),
    {
        match self.read_file(rel) {
            Ok(bytes) => Ok(RawBytes::Owned(bytes)),
            Err(error) => Err(error),
        }
    }

    /// Whether the root of the library is there.
    fn root_exists(&self) -> (result: Result<bool, MnemeError>)
        requires
            self.wf(),
        ensures
            result matches Ok(found) ==> found == self.has_root(),
            !self.reliable() ==> (result matches Err(error) ==> self.failures().contains(
                (Step::Look, error),
            )),
            self.reliable() ==> result is Ok,
    ;

    /// Whether nothing lies below the root: no file and no directory.
    fn vacant(&self) -> (result: Result<bool, MnemeError>)
        requires
            self.wf(),
        ensures
            result matches Ok(empty) ==> empty == is_vacant(self.files(), self.dirs()),
            !self.reliable() ==> (result matches Err(error) ==> self.failures().contains(
                (Step::Look, error),
            )),
            self.reliable() ==> result is Ok,
    ;

    /// Makes a file of another backend one of this backend too, where the two can share it and
    /// this backend has no such file yet, and tells its length. A source that is not `reliable`
    /// may lack the length, which is 0 then.
    fn link(&mut self, source: &Self, rel: &str) -> (result: Result<Option<u64>, MnemeError>)
        requires
            source.wf(),
            old(self).wf(),
        ensures
            final(self).wf(),
            still_settled(old(self).settled(), final(self).settled(), rel@),
            final(self).reliable() == old(self).reliable(),
            final(self).cuts() == old(self).cuts(),
            final(self).failures() == old(self).failures(),
            final(self).locked() == old(self).locked(),
            final(self).links() == old(self).links(),
            result is Err <==> !stays_below(rel@),
            result matches Err(error) ==> error == unsafe_path(),
            !(result matches Ok(Some(_))) ==> final(self).files() == old(self).files()
                && final(self).linked() == old(self).linked(),
            result matches Ok(Some(len)) ==> {
                &&& source.files().dom().contains(rel@)
                &&& !old(self).files().dom().contains(rel@)
                &&& final(self).files() == old(self).files().insert(rel@, source.files()[rel@])
                &&& final(self).linked() == old(self).linked().insert(rel@)
                &&& len == source.files()[rel@].len() || len == 0 && !source.reliable()
            },
            source.reliable() && old(self).reliable() && old(self).links() && stays_below(rel@)
                && source.files().dom().contains(rel@) && !old(self).files().dom().contains(rel@)
                ==> (result matches Ok(Some(_))),
    ;

    /// Takes the exclusive lock, unless an instance holds it.
    fn try_lock(&mut self) -> (result: Result<(), MnemeError>)
        requires
            old(self).wf(),
        ensures
            final(self).wf(),
            old(self).settled().subset_of(final(self).settled()),
            final(self).reliable() == old(self).reliable(),
            final(self).cuts() == old(self).cuts(),
            final(self).failures() == old(self).failures(),
            !old(self).reliable() ==> (result matches Err(error) ==> (old(self).locked()
                && error is Busy) || old(self).failures().contains((Step::Lock, error))),
            final(self).files() == old(self).files(),
            result is Ok ==> !old(self).locked() && final(self).locked(),
            result is Err ==> final(self).locked() == old(self).locked(),
            old(self).reliable() && !old(self).locked() ==> result is Ok,
            old(self).reliable() && old(self).locked() ==> result matches Err(MnemeError::Busy(_)),
    ;

    /// Gives the exclusive lock back.
    fn unlock(&mut self)
        requires
            old(self).wf(),
        ensures
            final(self).wf(),
            old(self).settled().subset_of(final(self).settled()),
            final(self).reliable() == old(self).reliable(),
            final(self).cuts() == old(self).cuts(),
            final(self).failures() == old(self).failures(),
            final(self).files() == old(self).files(),
            !final(self).locked(),
    ;
}

/// The errors that a backend may give where a request is not at fault.
pub open spec fn failures_of<S: Storage>(storage: S) -> FailureSet {
    if storage.reliable() {
        Set::empty()
    } else {
        storage.failures()
    }
}

/// Whether some step of a backend gives this error.
pub open spec fn given_by(failures: FailureSet, error: MnemeError) -> bool {
    exists|step: Step| failures.contains((step, error))
}

/// A reliable backend gives no error of its own: what fails on it is refused by the library, by the
/// hook or by what was passed in.
pub proof fn reliable_backend_gives_nothing<S: Storage>(storage: S, error: MnemeError)
    requires
        storage.reliable(),
    ensures
        !given_by(failures_of(storage), error),
{
}

/// At most the first `max` bytes.
pub open spec fn prefix_of(bytes: Seq<u8>, max: nat) -> Seq<u8> {
    if bytes.len() <= max {
        bytes
    } else {
        bytes.take(max as int)
    }
}

/// The backend of a directory: where its files lie. Reading and writing them is left to the
/// embedding program.
#[derive(Debug)]
pub struct FsStorage {
    root: String,
}

impl FsStorage {
    /// The directory of the library.
    pub closed spec fn root_path(&self) -> Seq<char> {
        self.root@
    }

    /// A backend for the given directory.
    pub fn new(root: &str) -> (storage: Self)
        ensures
            storage.root_path() == root@,
    {
        FsStorage { root: root.to_owned() }
    }

    /// The directory of the library.
    pub fn root(&self) -> (root: &str)
        ensures
            root@ == self.root_path(),
    {
        self.root.as_str()
    }

    /// The place of a file of the library; a path that leaves the directory is rejected.
    pub fn locate(&self, rel: &str) -> (path: Result<String, MnemeError>)
        ensures
            match path {
                Ok(p) => stays_below(rel@) && p@ == crate::layout::joined(self.root_path(), rel@),
                Err(e) => !stays_below(rel@) && e == unsafe_path(),
            },
    {
        resolve(self.root.as_str(), rel)
    }
}

/// The backend that keeps every file in memory.
pub struct MemStorage {
    contents: NameTable<Vec<u8>>,
    dirs: NameTable<()>,
    links: Ghost<PathSet>,
    lock_held: bool,
}

/// The files of a name table.
pub open spec fn table_files(table: Map<Seq<char>, Vec<u8>>) -> FileMap {
    table.map_values(|v: Vec<u8>| v@)
}

impl MemStorage {
    /// The directories that are there.
    pub closed spec fn directories(&self) -> Set<Seq<char>> {
        self.dirs@.dom()
    }

    /// An empty backend, which nobody has locked.
    pub fn new() -> (storage: Self)
        ensures
            storage.wf(),
            storage.reliable(),
            !storage.locked(),
            storage.files() == FileMap::empty(),
            storage.directories() == Set::<Seq<char>>::empty(),
    {
        let storage = MemStorage {
            contents: NameTable::new(),
            dirs: NameTable::new(),
            links: Ghost(Set::empty()),
            lock_held: false,
        };
        assert(storage.files() =~= FileMap::empty());
        assert(storage.directories() =~= Set::<Seq<char>>::empty());
        storage
    }

    /// Rejects a path that leaves the root.
    pub fn check(rel: &str) -> (result: Result<(), MnemeError>)
        ensures
            stays_below(rel@) ==> result is Ok,
            !stays_below(rel@) ==> result == Err::<(), MnemeError>(unsafe_path()),
    {
        match resolve(".", rel) {
            Ok(_) => Ok(()),
            Err(error) => Err(error),
        }
    }

    /// Puts bytes in place of whatever a file held.
    pub fn write_new_or_replace(&mut self, rel: &str, bytes: &[u8]) -> (result: Result<
        (),
        MnemeError,
    >)
        requires
            old(self).wf(),
        ensures
            final(self).wf(),
            final(self).locked() == old(self).locked(),
            final(self).directories() == old(self).directories(),
            stays_below(rel@) ==> final(self).linked() == old(self).linked().remove(rel@),
            stays_below(rel@) ==> result is Ok && final(self).files() == old(self).files().insert(
                rel@,
                bytes@,
            ),
            !stays_below(rel@) ==> result == Err::<(), MnemeError>(unsafe_path())
                && final(self).files() == old(self).files(),
    {
        match Self::check(rel) {
            Ok(()) => {},
            Err(error) => {
                return Err(error);
            },
        }
        let ghost before = self.contents@;
        let copy = vstd::slice::slice_to_vec(bytes);
        self.contents.insert(rel, copy);
        self.links = Ghost(self.links@.remove(rel@));
        assert(table_files(self.contents@) =~= table_files(before).insert(rel@, bytes@));
        Ok(())
    }
}

impl Storage for MemStorage {
    closed spec fn files(&self) -> FileMap {
        table_files(self.contents@)
    }

    closed spec fn wf(&self) -> bool {
        self.contents.wf() && self.dirs.wf()
    }

    open spec fn reliable(&self) -> bool {
        true
    }

    open spec fn cuts(&self) -> bool {
        true
    }

    open spec fn failures(&self) -> FailureSet {
        Set::empty()
    }

    closed spec fn locked(&self) -> bool {
        self.lock_held
    }

    open spec fn has_root(&self) -> bool {
        true
    }

    open spec fn dirs(&self) -> PathSet {
        self.directories()
    }

    closed spec fn linked(&self) -> PathSet {
        self.links@
    }

    open spec fn links(&self) -> bool {
        true
    }

    open spec fn settled(&self) -> PathSet {
        Set::new(|rel: Seq<char>| true)
    }

    fn vacant(&self) -> (result: Result<bool, MnemeError>) {
        proof {
            self.contents.lemma_listed();
            self.dirs.lemma_listed();
        }
        if self.contents.len() > 0 {
            let ghost path = self.contents.listed()[0].0@;
            assert(self.files().dom().contains(path));
            return Ok(false);
        }
        let mut i: usize = 0;
        while i < self.dirs.len()
            invariant
                self.dirs.wf(),
                i <= self.dirs.listed().len(),
                forall|k: int|
                    0 <= k < i ==> (#[trigger] self.dirs.listed()[k]).0@.len() == 0,
            decreases self.dirs.listed().len() - i,
        {
            let (name, _) = self.dirs.entry_at(i);
            if name.as_str().unicode_len() > 0 {
                proof {
                    self.dirs.lemma_listed();
                    assert(self.dirs().contains(self.dirs.listed()[i as int].0@));
                }
                return Ok(false);
            }
            i = i + 1;
        }
        Ok(true)
    }

    fn link(&mut self, source: &Self, rel: &str) -> (result: Result<Option<u64>, MnemeError>)
        ensures
            final(self).directories() == old(self).directories(),
    {
        match Self::check(rel) {
            Ok(()) => {},
            Err(error) => {
                return Err(error);
            },
        }
        if self.contents.contains(rel) {
            return Ok(None);
        }
        match source.contents.get(rel) {
            None => Ok(None),
            Some(bytes) => {
                let ghost before = self.contents@;
                let len: usize = bytes.len();
                let copy = vstd::slice::slice_to_vec(bytes.as_slice());
                self.contents.insert(rel, copy);
                self.links = Ghost(self.links@.insert(rel@));
                assert(table_files(self.contents@) =~= table_files(before).insert(
                    rel@,
                    source.files()[rel@],
                ));
                Ok(Some(len as u64))
            },
        }
    }

    fn root_exists(&self) -> (result: Result<bool, MnemeError>) {
        Ok(true)
    }

    fn read_file(&self, rel: &str) -> (result: Result<Vec<u8>, MnemeError>) {
        match Self::check(rel) {
            Ok(()) => {},
            Err(error) => {
                return Err(error);
            },
        }
        match self.contents.get(rel) {
            Some(bytes) => Ok(vstd::slice::slice_to_vec(bytes.as_slice())),
            None => Err(MnemeError::Io(IoFault::NotFound)),
        }
    }

    fn read_file_opt(&self, rel: &str) -> (result: Result<Option<Vec<u8>>, MnemeError>) {
        match self.read_file(rel) {
            Ok(bytes) => Ok(Some(bytes)),
            Err(MnemeError::Io(IoFault::NotFound)) => Ok(None),
            Err(error) => Err(error),
        }
    }

    fn write_atomic(&mut self, rel: &str, bytes: &[u8]) -> (result: Result<(), MnemeError>)
        ensures
            final(self).directories() == old(self).directories(),
            stays_below(rel@) ==> final(self).files() == old(self).files().insert(rel@, bytes@),
    {
        self.write_new_or_replace(rel, bytes)
    }

    fn write_new(&mut self, rel: &str, bytes: &[u8]) -> (result: Result<(), MnemeError>)
        ensures
            final(self).directories() == old(self).directories(),
            result is Ok ==> final(self).files() == old(self).files().insert(rel@, bytes@),
            result is Err ==> final(self).files() == old(self).files(),
    {
        match Self::check(rel) {
            Ok(()) => {},
            Err(error) => {
                return Err(error);
            },
        }
        if self.contents.contains(rel) {
            return Err(MnemeError::Io(IoFault::AlreadyExists));
        }
        self.write_new_or_replace(rel, bytes)
    }

    fn append(&mut self, rel: &str, bytes: &[u8]) -> (result: Result<u64, MnemeError>)
        ensures
            final(self).directories() == old(self).directories(),
            stays_below(rel@) ==> final(self).files() == old(self).files().insert(
                rel@,
                content_of(old(self).files(), rel@) + bytes@,
            ),
    {
        match Self::check(rel) {
            Ok(()) => {},
            Err(error) => {
                return Err(error);
            },
        }
        let ghost before = self.contents@;
        let mut content: Vec<u8> = match self.contents.remove(rel) {
            Some(content) => content,
            None => Vec::new(),
        };
        let ghost start = content@;
        assert(start == content_of(table_files(before), rel@));
        content.extend_from_slice(bytes);
        assert(content@ =~= start + bytes@);
        let len: u64 = content.len() as u64;
        self.contents.insert(rel, content);
        assert(table_files(self.contents@) =~= table_files(before).insert(rel@, start + bytes@));
        Ok(len)
    }

    fn truncate(&mut self, rel: &str, len: u64) -> (result: Result<(), MnemeError>)
        ensures
            final(self).directories() == old(self).directories(),
            result is Ok ==> final(self).files() == old(self).files().insert(
                rel@,
                prefix_of(content_of(old(self).files(), rel@), len as nat),
            ),
            result is Err ==> final(self).files() == old(self).files(),
    {
        match Self::check(rel) {
            Ok(()) => {},
            Err(error) => {
                return Err(error);
            },
        }
        let ghost before = self.contents@;
        match self.contents.remove(rel) {
            Some(mut content) => {
                let ghost start = content@;
                if len < content.len() as u64 {
                    content.truncate(len as usize);
                    assert(content@ =~= start.take(len as int));
                } else {
                    assert(start.take(start.len() as int) =~= start);
                }
                self.contents.insert(rel, content);
                assert(table_files(self.contents@) =~= table_files(before).insert(
                    rel@,
                    prefix_of(start, len as nat),
                ));
                Ok(())
            },
            None => {
                assert(table_files(self.contents@) =~= table_files(before));
                Err(MnemeError::Io(IoFault::NotFound))
            },
        }
    }

    fn sync(&mut self, rel: &str) -> (result: Result<(), MnemeError>)
        ensures
            final(self).directories() == old(self).directories(),
    {
        Ok(())
    }

    fn list_dir(&self, rel: &str) -> (result: Result<Vec<String>, MnemeError>)
        ensures
            result matches Ok(names) ==> forall|i: int, j: int|
                0 <= i < j < names@.len() ==> text_lt(
                    (#[trigger] names@[i])@,
                    (#[trigger] names@[j])@,
                ),
    {
        match Self::check(rel) {
            Ok(()) => {},
            Err(error) => {
                return Err(error);
            },
        }
        let mut prefix = String::new();
        if !rel.is_empty() {
            prefix.append(rel);
            prefix.append("/");
        }
        assert(prefix@ =~= dir_prefix(rel@));
        let found = self.names_behind(prefix.as_str(), Ghost(rel@));
        let positions = stable_order(&found);
        let mut names: Vec<String> = Vec::new();
        let mut i: usize = 0;
        while i < positions.len()
            invariant
                i <= positions.len(),
                names.len() == i,
                is_stable_order(found@, positions@),
                forall|k: int| 0 <= k < i ==> names[k] == found[positions[k] as int],
            decreases positions.len() - i,
        {
            names.push(found[positions[i]].clone());
            i = i + 1;
        }
        proof {
            assert forall|k: int, l: int| 0 <= k < l < names@.len() implies text_lt(
                (#[trigger] names@[k])@,
                (#[trigger] names@[l])@,
            ) by {
                let p = positions[k] as int;
                let q = positions[l] as int;
                assert(crate::order::comes_before(found@, p, q));
                assert(p != q);
                assert(found[p]@ != found[q]@) by {
                    if p < q {
                        assert(found[p]@ != found[q]@);
                    } else {
                        assert(found[q]@ != found[p]@);
                    }
                }
                crate::text::lemma_text_order(found[p]@, found[q]@);
            }
            assert forall|k: int, l: int| 0 <= k < l < names@.len() implies (
            #[trigger] names@[k])@ != (#[trigger] names@[l])@ by {
                crate::text::lemma_text_order(names@[k]@, names@[l]@);
            }
            assert forall|name: Seq<char>| #[trigger]
                dir_holds(self.files(), rel@, name) implies exists|k: int|
                0 <= k < names@.len() && (#[trigger] names@[k])@ == name by {
                let p = choose|p: int| 0 <= p < found@.len() && (#[trigger] found@[p])@ == name;
                crate::order::stable_order_covers(found@, positions@, p);
                let k = choose|k: int| 0 <= k < positions@.len() && #[trigger] positions@[k] == p;
                assert(names@[k]@ == name);
            }
        }
        Ok(names)
    }

    fn ensure_dir(&mut self, rel: &str) -> (result: Result<(), MnemeError>)
        ensures
            result is Ok ==> final(self).directories() == old(self).directories().insert(rel@),
            result is Err ==> final(self).directories() == old(self).directories(),
    {
        match Self::check(rel) {
            Ok(()) => {},
            Err(error) => {
                return Err(error);
            },
        }
        let ghost before = self.dirs@;
        self.dirs.insert(rel, ());
        assert(self.dirs@.dom() =~= before.dom().insert(rel@));
        Ok(())
    }

    fn remove_if_exists(&mut self, rel: &str) -> (result: Result<(), MnemeError>)
        ensures
            final(self).directories() == old(self).directories(),
    {
        match Self::check(rel) {
            Ok(()) => {},
            Err(error) => {
                return Err(error);
            },
        }
        let ghost before = self.contents@;
        let _ = self.contents.remove(rel);
        assert(table_files(self.contents@) =~= table_files(before).remove(rel@));
        Ok(())
    }

    fn rename(&mut self, from: &str, to: &str) -> (result: Result<(), MnemeError>)
        ensures
            final(self).directories() == old(self).directories(),
    {
        match Self::check(from) {
            Ok(()) => {},
            Err(error) => {
                return Err(error);
            },
        }
        match Self::check(to) {
            Ok(()) => {},
            Err(error) => {
                return Err(error);
            },
        }
        let ghost before = self.contents@;
        match self.contents.remove(from) {
            Some(bytes) => {
                self.contents.insert(to, bytes);
                assert(table_files(self.contents@) =~= table_files(before).remove(from@).insert(
                    to@,
                    bytes@,
                ));
                Ok(())
            },
            None => {
                assert(table_files(self.contents@) =~= table_files(before));
                Err(MnemeError::Io(IoFault::NotFound))
            },
        }
    }

    fn has_file(&self, rel: &str) -> (result: Result<bool, MnemeError>) {
        match Self::check(rel) {
            Ok(()) => {},
            Err(error) => {
                return Err(error);
            },
        }
        Ok(self.contents.contains(rel))
    }

    fn stat(&self, rel: &str) -> (result: Result<FileMeta, MnemeError>) {
        match self.read_file(rel) {
            Ok(bytes) => Ok(FileMeta { len: bytes.len() as u64 }),
            Err(error) => Err(error),
        }
    }

    fn try_lock(&mut self) -> (result: Result<(), MnemeError>)
        ensures
            final(self).directories() == old(self).directories(),
            old(self).locked() ==> result == Err::<(), MnemeError>(
                MnemeError::Busy(BusyFault::MemoryLocked),
            ),
    {
        if self.lock_held {
            return Err(MnemeError::Busy(BusyFault::MemoryLocked));
        }
        self.lock_held = true;
        Ok(())
    }

    fn unlock(&mut self)
        ensures
            final(self).directories() == old(self).directories(),
    {
        self.lock_held = false;
    }
}

impl MemStorage {
    /// The names behind a prefix that lie in no deeper directory.
    fn names_behind(&self, prefix: &str, Ghost(rel): Ghost<Seq<char>>) -> (found: Vec<String>)
        requires
            self.wf(),
            prefix@ == dir_prefix(rel),
        ensures
            lists_dir(self.files(), rel, found@),
    {
        proof {
            self.contents.lemma_listed();
        }
        let mut found: Vec<String> = Vec::new();
        let mut i: usize = 0;
        while i < self.contents.len()
            invariant
                self.wf(),
                prefix@ == dir_prefix(rel),
                i <= self.contents.listed().len(),
                forall|k: int|
                    0 <= k < found.len() ==> dir_holds(self.files(), rel, (#[trigger] found[k])@),
                forall|k: int|
                    0 <= k < found.len() ==> exists|e: int|
                        0 <= e < i && (#[trigger] self.contents.listed()[e]).0@ == prefix@ + (
                        #[trigger] found[k])@,
                forall|k: int, l: int|
                    0 <= k < l < found.len() ==> (#[trigger] found[k])@ != (#[trigger] found[l])@,
                forall|name: Seq<char>, e: int|
                    0 <= e < i && (#[trigger] self.contents.listed()[e]).0@ == prefix@ + name
                        && #[trigger] dir_holds(self.files(), rel, name) ==> exists|k: int|
                        0 <= k < found.len() && (#[trigger] found[k])@ == name,
            decreases self.contents.listed().len() - i,
        {
            proof {
                self.contents.lemma_listed();
            }
            let key = self.contents.entry_at(i).0;
            let ghost before = found@;
            match after_prefix(key.as_str(), prefix) {
                Some(rest) => {
                    assert(key@ =~= prefix@ + rest@);
                    if !rest.is_empty() && !holds_slash(rest) {
                        found.push(rest.to_owned());
                        proof {
                            assert(dir_holds(self.files(), rel, rest@));
                            assert forall|k: int| 0 <= k < before.len() implies (
                            #[trigger] before[k])@ != rest@ by {
                                let e = choose|e: int|
                                    0 <= e < i && (#[trigger] self.contents.listed()[e]).0@
                                        == prefix@ + before[k]@;
                                assert(self.contents.listed()[e].0@
                                    != self.contents.listed()[i as int].0@);
                            }
                            assert(found[found.len() - 1]@ == rest@);
                        }
                    }
                    proof {
                        assert forall|name: Seq<char>|
                            key@ == prefix@ + name implies name == rest@ by {
                            assert((prefix@ + name).skip(prefix@.len() as int) =~= name);
                        }
                    }
                },
                None => {
                    proof {
                        assert forall|name: Seq<char>| key@ == prefix@ + name implies false by {
                            assert((prefix@ + name).take(prefix@.len() as int) =~= prefix@);
                            assert(has_prefix(key@, prefix@));
                        }
                    }
                },
            }
            proof {
                assert forall|k: int| 0 <= k < found.len() implies exists|e: int|
                    0 <= e < i + 1 && (#[trigger] self.contents.listed()[e]).0@ == prefix@ + (
                    #[trigger] found[k])@ by {
                    if k < before.len() {
                        assert(found[k] == before[k]);
                        let e = choose|e: int|
                            0 <= e < i && (#[trigger] self.contents.listed()[e]).0@ == prefix@
                                + before[k]@;
                        assert(self.contents.listed()[e].0@ == prefix@ + found[k]@);
                    } else {
                        assert(self.contents.listed()[i as int].0@ == prefix@ + found[k]@);
                    }
                }
                assert forall|name: Seq<char>, e: int|
                    0 <= e < i + 1 && (#[trigger] self.contents.listed()[e]).0@ == prefix@ + name
                        && #[trigger] dir_holds(self.files(), rel, name) implies exists|k: int|
                    0 <= k < found.len() && (#[trigger] found[k])@ == name by {
                    if e < i {
                        let k = choose|k: int|
                            0 <= k < before.len() && (#[trigger] before[k])@ == name;
                        assert(found[k]@ == name);
                    } else {
                        assert(found[found.len() - 1]@ == name);
                    }
                }
            }
            i = i + 1;
        }
        proof {
            self.contents.lemma_listed();
            assert forall|name: Seq<char>| #[trigger]
                dir_holds(self.files(), rel, name) implies exists|k: int|
                0 <= k < found@.len() && (#[trigger] found@[k])@ == name by {
                let path = dir_prefix(rel) + name;
                assert(self.contents@.dom().contains(path));
                let e = choose|e: int|
                    0 <= e < self.contents.listed().len()
                        && #[trigger] self.contents.listed()[e].0@ == path;
                assert(self.contents.listed()[e].0@ == prefix@ + name);
            }
        }
        found
    }
}

/// Whether a name holds a path separator.
pub fn holds_slash(name: &str) -> (held: bool)
    ensures
        held == name@.contains('/'),
{
    let chars = crate::text::chars_of(name);
    let mut i: usize = 0;
    while i < chars.len()
        invariant
            i <= chars.len(),
            chars@ == name@,
            forall|k: int| 0 <= k < i ==> #[trigger] name@[k] != '/',
        decreases chars.len() - i,
    {
        if chars[i] == '/' {
            assert(name@[i as int] == '/');
            return true;
        }
        i = i + 1;
    }
    false
}

/// A read gives back what the last replacing write wrote, and no other file changes.
pub proof fn read_after_write(before: FileMap, after: FileMap, rel: Seq<char>, bytes: Seq<u8>)
    requires
        file_set(before, after, rel, bytes),
    ensures
        content_of(after, rel) == bytes,
        forall|p: Seq<char>|
            p != rel && p != temporary_of(rel) ==> content_of(after, p) == content_of(before, p),
{
    assert forall|p: Seq<char>| p != rel && p != temporary_of(rel) implies content_of(after, p)
        == content_of(before, p) by {
        assert(same_at(before, after, p));
    }
}

/// Cutting a file back to the length it had before an append undoes the append, also where the
/// append failed half way.
pub proof fn truncate_undoes_append(
    before: FileMap,
    appended: FileMap,
    after: FileMap,
    rel: Seq<char>,
)
    requires
        before.dom().contains(rel),
        others_kept(before, appended, rel),
        content_of(before, rel).is_prefix_of(content_of(appended, rel)),
        file_set(
            appended,
            after,
            rel,
            content_of(appended, rel).take(content_of(before, rel).len() as int),
        ),
    ensures
        file_set(before, after, rel, content_of(before, rel)),
{
    assert(content_of(appended, rel).take(content_of(before, rel).len() as int) =~= content_of(
        before,
        rel,
    ));
    assert forall|p: Seq<char>| p != rel && p != temporary_of(rel) implies #[trigger] same_at(
        before,
        after,
        p,
    ) by {
        assert(same_at(before, appended, p));
        assert(same_at(appended, after, p));
    }
}

} // verus!
