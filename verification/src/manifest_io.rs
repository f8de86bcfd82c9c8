//! Loading, committing and pruning of manifests.

use vstd::prelude::*;

use crate::cleanup::lemma_entry_stays_below;
use crate::current::{current_bytes, parse_current, version_bytes, version_named};
use crate::error::{corrupted, Fault, MnemeError, SegmentFile};
use crate::hook::{ask_write, refuses_write, write_passes, FsyncHook};
use crate::layout::{
    library_paths_stay_below, manifest_file, manifest_name, manifest_version_of, parse_manifest_name,
    stays_below, CURRENT_FILE, MANIFEST_KEEP, MANIFEST_PREFIX,
};
use crate::manifest::Manifest;
use crate::order::{is_stable_order, stable_order};
use crate::storage::{
    dir_holds, dir_prefix, failures_of, file_set, given_by, lists_dir, others_kept, same_at,
    FailureSet, FileMap, Step, Storage,
};
use crate::text::has_prefix;

verus! {

/// What the bytes of a manifest file turn out to be.
#[derive(Debug)]
pub enum Decoded {
    /// The bytes are sealed and cannot be opened.
    Sealed(MnemeError),
    /// The bytes hold no manifest.
    Malformed(MnemeError),
    /// The bytes hold a manifest.
    Whole(Manifest),
}

impl Decoded {
    /// Whether the file is passed over in search of another version. A missing capability or key
    /// concerns every version alike, so that it is reported and not passed over.
    pub open spec fn passed_over(self) -> bool {
        match self {
            Decoded::Sealed(error) => !(error is Unsupported),
            Decoded::Malformed(_) => true,
            Decoded::Whole(_) => false,
        }
    }
}

/// Whether `decode` may make this of the bytes of a version.
pub open spec fn decodes<D: Fn(u64, Vec<u8>) -> Decoded>(
    decode: D,
    version: u64,
    bytes: Seq<u8>,
    decoded: Decoded,
) -> bool {
    exists|raw: Vec<u8>| raw@ == bytes && #[trigger] decode.ensures((version, raw), decoded)
}

/// Whether a file holds a version.
pub open spec fn holds_version<D: Fn(u64, Vec<u8>) -> Decoded>(
    files: FileMap,
    decode: D,
    name: Seq<char>,
    version: u64,
    manifest: Manifest,
) -> bool {
    files.dom().contains(name) && decodes(decode, version, files[name], Decoded::Whole(manifest))
}

/// Whether a file is not there or is passed over.
pub open spec fn holds_none<D: Fn(u64, Vec<u8>) -> Decoded>(
    files: FileMap,
    decode: D,
    name: Seq<char>,
    version: u64,
) -> bool {
    !files.dom().contains(name) || exists|decoded: Decoded|
        decoded.passed_over() && #[trigger] decodes(decode, version, files[name], decoded)
}

/// Whether a file is sealed in a way that is reported.
pub open spec fn reports<D: Fn(u64, Vec<u8>) -> Decoded>(
    files: FileMap,
    decode: D,
    name: Seq<char>,
    version: u64,
    error: MnemeError,
) -> bool {
    files.dom().contains(name) && error is Unsupported && decodes(
        decode,
        version,
        files[name],
        Decoded::Sealed(error),
    )
}

/// The version that `current` names, where it is there and names one.
pub open spec fn current_of(files: FileMap) -> Option<u64> {
    if files.dom().contains(CURRENT_FILE@) {
        version_named(files[CURRENT_FILE@])
    } else {
        None
    }
}

/// Whether a file of the root is named as a manifest of this version.
pub open spec fn names_version(files: FileMap, name: Seq<char>, version: u64) -> bool {
    dir_holds(files, Seq::empty(), name) && manifest_version_of(name) == Some(version)
}

/// Whether the version that `current` names cannot be used.
pub open spec fn current_unusable<D: Fn(u64, Vec<u8>) -> Decoded>(files: FileMap, decode: D) -> bool {
    current_of(files) matches Some(version) ==> holds_none(
        files,
        decode,
        manifest_file(version),
        version,
    )
}

/// Whether every manifest above a version cannot be used; every manifest, where there is no such
/// version.
pub open spec fn none_above<D: Fn(u64, Vec<u8>) -> Decoded>(
    files: FileMap,
    decode: D,
    bound: Option<u64>,
) -> bool {
    forall|name: Seq<char>, version: u64| #[trigger]
        names_version(files, name, version) && (bound matches Some(limit) ==> version > limit)
            ==> holds_none(files, decode, name, version)
}

/// Whether no file of the root is named as a manifest.
pub open spec fn no_manifests(files: FileMap) -> bool {
    forall|name: Seq<char>, version: u64| !#[trigger] names_version(files, name, version)
}

/// Whether a file of the root holds this version.
pub open spec fn found_by_name<D: Fn(u64, Vec<u8>) -> Decoded>(
    files: FileMap,
    decode: D,
    version: u64,
    manifest: Manifest,
) -> bool {
    exists|name: Seq<char>| #[trigger]
        names_version(files, name, version) && holds_version(
            files,
            decode,
            name,
            version,
            manifest,
        )
}

/// What a loaded manifest has to do with the files: it is the one that `current` names or, where
/// that cannot be used, the one of the greatest version that can.
pub open spec fn is_latest<D: Fn(u64, Vec<u8>) -> Decoded>(
    files: FileMap,
    decode: D,
    manifest: Manifest,
    version: u64,
) -> bool {
    ||| current_of(files) == Some(version) && holds_version(
        files,
        decode,
        manifest_file(version),
        version,
        manifest,
    )
    ||| current_unusable(files, decode) && found_by_name(files, decode, version, manifest)
        && none_above(files, decode, Some(version))
}

/// Whether a manifest of the root reports this error.
pub open spec fn scan_reports<D: Fn(u64, Vec<u8>) -> Decoded>(
    files: FileMap,
    decode: D,
    error: MnemeError,
) -> bool {
    exists|name: Seq<char>, version: u64| #[trigger]
        names_version(files, name, version) && reports(files, decode, name, version, error)
}

/// Whether the error comes from a version that a load tries: the one that `current` names or, only
/// where that cannot be used, any other.
pub open spec fn load_reports<D: Fn(u64, Vec<u8>) -> Decoded>(
    files: FileMap,
    decode: D,
    error: MnemeError,
) -> bool {
    ||| current_of(files) matches Some(version) && reports(
        files,
        decode,
        manifest_file(version),
        version,
        error,
    )
    ||| current_unusable(files, decode) && scan_reports(files, decode, error)
}

/// Tries to load one version. `None` means that the search goes on.
pub fn try_load_version<S: Storage, D: Fn(u64, Vec<u8>) -> Decoded>(
    storage: &S,
    decode: &D,
    name: &str,
    version: u64,
) -> (result: Result<Option<Manifest>, MnemeError>)
    requires
        storage.wf(),
        forall|v: u64, raw: Vec<u8>| decode.requires((v, raw)),
    ensures
        match result {
            Ok(Some(manifest)) => holds_version(storage.files(), *decode, name@, version, manifest),
            Ok(None) => holds_none(storage.files(), *decode, name@, version),
            Err(error) => stays_below(name@) ==> reports(
                storage.files(),
                *decode,
                name@,
                version,
                error,
            ) || given_by(failures_of(*storage), error),
        },
{
    let bytes = match storage.read_file_opt(name) {
        Ok(Some(bytes)) => bytes,
        Ok(None) => {
            return Ok(None);
        },
        Err(error) => {
            return Err(error);
        },
    };
    let ghost raw = bytes;
    let decoded = decode(version, bytes);
    assert(decodes(*decode, version, storage.files()[name@], decoded)) by {
        assert(decode.ensures((version, raw), decoded));
    }
    match decoded {
        Decoded::Whole(manifest) => Ok(Some(manifest)),
        Decoded::Malformed(_) => Ok(None),
        Decoded::Sealed(error) => match error {
            MnemeError::Unsupported { .. } => Err(error),
            _ => Ok(None),
        },
    }
}

/// Whether every manifest among the first `count` names that lies above a version cannot be used.
spec fn none_above_in<D: Fn(u64, Vec<u8>) -> Decoded>(
    files: FileMap,
    decode: D,
    names: Seq<String>,
    count: int,
    bound: Option<u64>,
) -> bool {
    forall|i: int|
        0 <= i < count && manifest_version_of((#[trigger] names[i])@) is Some && (
        bound matches Some(limit) ==> manifest_version_of(names[i]@)->Some_0 > limit)
            ==> holds_none(
            files,
            decode,
            names[i]@,
            manifest_version_of(names[i]@)->Some_0,
        )
}

/// A manifest name stays below the root.
proof fn lemma_manifest_name_below(files: FileMap, name: Seq<char>)
    requires
        dir_holds(files, Seq::empty(), name),
        manifest_version_of(name) is Some,
    ensures
        stays_below(name),
{
    reveal_strlit("MANIFEST.");
    reveal_strlit("..");
    assert(has_prefix(name, MANIFEST_PREFIX@));
    assert(name.take(MANIFEST_PREFIX@.len() as int)[0] == 'M');
    library_paths_stay_below(SegmentFile::Vsec, 0, 0, 0);
    lemma_entry_stays_below(Seq::empty(), name);
    assert(dir_prefix(Seq::empty()) + name =~= name);
}

/// Looks through the files of the root for the greatest version that can be used. Tells besides
/// whether there is a manifest at all.
fn scan_manifests<S: Storage, D: Fn(u64, Vec<u8>) -> Decoded>(storage: &S, decode: &D) -> (result:
    Result<(Option<(Manifest, u64)>, bool), MnemeError>)
    requires
        storage.wf(),
        forall|v: u64, raw: Vec<u8>| decode.requires((v, raw)),
    ensures
        match result {
            Ok((Some((manifest, version)), _)) => found_by_name(
                storage.files(),
                *decode,
                version,
                manifest,
            ) && none_above(storage.files(), *decode, Some(version)),
            Ok((None, seen)) => none_above(storage.files(), *decode, None) && seen == !no_manifests(
                storage.files(),
            ),
            Err(error) => scan_reports(storage.files(), *decode, error) || given_by(
                failures_of(*storage),
                error,
            ),
        },
{
    proof {
        library_paths_stay_below(SegmentFile::Vsec, 0, 0, 0);
        reveal_strlit("");
        assert(""@ =~= Seq::<char>::empty());
    }
    let names = match storage.list_dir("") {
        Ok(names) => names,
        Err(error) => {
            return Err(error);
        },
    };
    let ghost files = storage.files();
    let ghost root = Seq::<char>::empty();
    let mut best: Option<(Manifest, u64)> = None;
    let mut seen: bool = false;
    let mut i: usize = 0;
    while i < names.len()
        invariant
            storage.wf(),
            forall|v: u64, raw: Vec<u8>| decode.requires((v, raw)),
            files == storage.files(),
            root == Seq::<char>::empty(),
            lists_dir(files, root, names@),
            i <= names@.len(),
            match best {
                Some((manifest, version)) => found_by_name(files, *decode, version, manifest)
                    && none_above_in(files, *decode, names@, i as int, Some(version)),
                None => none_above_in(files, *decode, names@, i as int, None),
            },
            seen ==> !no_manifests(files),
            !seen ==> forall|k: int|
                0 <= k < i ==> manifest_version_of((#[trigger] names@[k])@) is None,
        decreases names@.len() - i,
    {
        let name = &names[i];
        assert(dir_holds(files, root, name@));
        match parse_manifest_name(name.as_str()) {
            None => {},
            Some(version) => {
                seen = true;
                proof {
                    lemma_manifest_name_below(files, name@);
                    assert(names_version(files, name@, version));
                }
                match try_load_version(storage, decode, name.as_str(), version) {
                    Err(error) => {
                        return Err(error);
                    },
                    Ok(None) => {},
                    Ok(Some(manifest)) => {
                        assert(found_by_name(files, *decode, version, manifest));
                        let better: bool = match &best {
                            None => true,
                            Some((_, best_version)) => version > *best_version,
                        };
                        if better {
                            best = Some((manifest, version));
                        }
                    },
                }
            },
        }
        i = i + 1;
    }
    proof {
        let bound = match best {
            Some((_, version)) => Some(version),
            None => None,
        };
        assert forall|name: Seq<char>, version: u64| #[trigger]
            names_version(files, name, version) && (bound matches Some(limit) ==> version
                > limit) implies holds_none(files, *decode, name, version) by {
            assert(dir_holds(files, root, name));
            let k = choose|k: int| 0 <= k < names@.len() && (#[trigger] names@[k])@ == name;
            assert(names@[k]@ == name);
        }
        if !seen {
            assert forall|name: Seq<char>, version: u64| !#[trigger] names_version(
                files,
                name,
                version,
            ) by {
                if names_version(files, name, version) {
                    assert(dir_holds(files, root, name));
                    let k = choose|k: int| 0 <= k < names@.len() && (#[trigger] names@[k])@ == name;
                    assert(manifest_version_of(names@[k]@) is None);
                }
            }
        }
    }
    Ok((best, seen))
}

/// Whether nothing was ever committed: neither `current` nor a manifest is there.
pub open spec fn is_blank(files: FileMap) -> bool {
    !files.dom().contains(CURRENT_FILE@) && no_manifests(files)
}

/// Whether something was committed, and nothing of it can be used.
pub open spec fn all_unusable<D: Fn(u64, Vec<u8>) -> Decoded>(files: FileMap, decode: D) -> bool {
    !is_blank(files) && current_unusable(files, decode) && none_above(files, decode, None)
}

/// What is wrong with a library of which no manifest can be used.
pub open spec fn unreadable_fault(files: FileMap) -> Fault {
    if files.dom().contains(CURRENT_FILE@) {
        Fault::CurrentWithoutManifest
    } else {
        Fault::ManifestUnreadable
    }
}

/// What loading the committed manifest comes to.
pub open spec fn load_outcome<D: Fn(u64, Vec<u8>) -> Decoded>(
    files: FileMap,
    decode: D,
    failures: FailureSet,
    result: Result<Option<(Manifest, u64)>, MnemeError>,
) -> bool {
    match result {
        Ok(Some((manifest, version))) => is_latest(files, decode, manifest, version),
        Ok(None) => is_blank(files),
        Err(error) => load_reports(files, decode, error) || (error == corrupted(
            unreadable_fault(files),
        ) && all_unusable(files, decode)) || given_by(failures, error),
    }
}

/// Loads the committed manifest: the one that `current` names or, where that cannot be used, the
/// one of the greatest version that can.
///
/// `None` means a library that has nothing committed: neither `current` nor a manifest is there.
/// Where one of them is there and no manifest can be used, the library is damaged and must not be
/// taken for a new one.
pub fn load_manifest<S: Storage, D: Fn(u64, Vec<u8>) -> Decoded>(storage: &S, decode: &D) -> (result:
    Result<Option<(Manifest, u64)>, MnemeError>)
    requires
        storage.wf(),
        forall|v: u64, raw: Vec<u8>| decode.requires((v, raw)),
    ensures
        load_outcome(storage.files(), *decode, failures_of(*storage), result),
{
    proof {
        library_paths_stay_below(SegmentFile::Vsec, 0, 0, 0);
    }
    let has_current: bool = match storage.has_file(CURRENT_FILE) {
        Ok(found) => found,
        Err(error) => {
            return Err(error);
        },
    };
    match storage.read_file_opt(CURRENT_FILE) {
        Err(error) => {
            return Err(error);
        },
        Ok(None) => {},
        Ok(Some(bytes)) => {
            match parse_current(bytes.as_slice()) {
                None => {},
                Some(version) => {
                    proof {
                        library_paths_stay_below(SegmentFile::Vsec, 0, 0, version);
                    }
                    let name = manifest_name(version);
                    match try_load_version(storage, decode, name.as_str(), version) {
                        Err(error) => {
                            return Err(error);
                        },
                        Ok(Some(manifest)) => {
                            return Ok(Some((manifest, version)));
                        },
                        Ok(None) => {},
                    }
                },
            }
        },
    }
    assert(current_unusable(storage.files(), *decode));
    let (best, seen) = match scan_manifests(storage, decode) {
        Ok(scanned) => scanned,
        Err(error) => {
            return Err(error);
        },
    };
    if best.is_none() && has_current {
        return Err(
            MnemeError::Corrupted { segment: None, reason: Fault::CurrentWithoutManifest },
        );
    }
    if best.is_none() && seen {
        return Err(MnemeError::Corrupted { segment: None, reason: Fault::ManifestUnreadable });
    }
    Ok(best)
}

/// Reads the version that `current` names.
pub fn read_current<S: Storage>(storage: &S) -> (version: Option<u64>)
    requires
        storage.wf(),
    ensures
        version is Some ==> version == current_of(storage.files()),
        storage.reliable() ==> version == current_of(storage.files()),
{
    proof {
        library_paths_stay_below(SegmentFile::Vsec, 0, 0, 0);
    }
    match storage.read_file_opt(CURRENT_FILE) {
        Ok(Some(bytes)) => parse_current(bytes.as_slice()),
        _ => None,
    }
}

/// Whether `names` lists the manifests of a library, each once.
pub open spec fn lists_manifests(files: FileMap, names: Seq<Seq<char>>) -> bool {
    &&& names.no_duplicates()
    &&& forall|i: int|
        0 <= i < names.len() ==> dir_holds(files, Seq::empty(), #[trigger] names[i])
            && manifest_version_of(names[i]) is Some
    &&& forall|name: Seq<char>, version: u64| #[trigger]
        names_version(files, name, version) ==> names.contains(name)
}

/// Whether at least so many manifests are left as are kept.
pub open spec fn enough_left(files: FileMap) -> bool {
    exists|names: Seq<Seq<char>>| #[trigger]
        lists_manifests(files, names) && names.len() >= MANIFEST_KEEP
}

/// Whether `after` is `before` without some manifests, none of which is younger than one that
/// stays. Where one is gone, as many are left as are kept.
pub open spec fn oldest_gone(before: FileMap, after: FileMap) -> bool {
    &&& forall|path: Seq<char>| #[trigger]
        after.dom().contains(path) ==> before.dom().contains(path) && after[path] == before[path]
    &&& forall|path: Seq<char>|
        before.dom().contains(path) && !#[trigger] after.dom().contains(path)
            ==> manifest_version_of(path) is Some
    &&& forall|gone: Seq<char>, old_version: u64, kept: Seq<char>, version: u64|
        #![trigger names_version(before, gone, old_version), names_version(after, kept, version)]
        names_version(before, gone, old_version) && !after.dom().contains(gone) && names_version(
            after,
            kept,
            version,
        ) ==> old_version <= version
    &&& before != after ==> enough_left(after)
}

/// Whether no more manifests are left than are kept, and none fewer where some were removed.
pub open spec fn kept_few(before: FileMap, after: FileMap) -> bool {
    exists|names: Seq<Seq<char>>| #[trigger]
        lists_manifests(after, names) && names.len() <= MANIFEST_KEEP && (before != after
            ==> names.len() == MANIFEST_KEEP)
}

/// Whether a list holds the manifests of the root with their versions.
spec fn gathers(files: FileMap, versions: Seq<u64>, names: Seq<String>) -> bool {
    &&& versions.len() == names.len()
    &&& forall|i: int|
        0 <= i < names.len() ==> names_version(files, (#[trigger] names[i])@, versions[i])
    &&& forall|i: int, j: int|
        0 <= i < j < names.len() ==> (#[trigger] names[i])@ != (#[trigger] names[j])@
    &&& forall|name: Seq<char>, version: u64| #[trigger]
        names_version(files, name, version) ==> exists|i: int|
            0 <= i < names.len() && (#[trigger] names[i])@ == name
}

/// The manifests of the root with their versions.
fn gather_manifests<S: Storage>(storage: &S) -> (result: Result<
    (Vec<u64>, Vec<String>),
    MnemeError,
>)
    requires
        storage.wf(),
    ensures
        result matches Ok((versions, names)) ==> gathers(storage.files(), versions@, names@),
        result matches Err(error) ==> given_by(failures_of(*storage), error),
{
    proof {
        library_paths_stay_below(SegmentFile::Vsec, 0, 0, 0);
        reveal_strlit("");
        assert(""@ =~= Seq::<char>::empty());
    }
    let listed = match storage.list_dir("") {
        Ok(listed) => listed,
        Err(error) => {
            return Err(error);
        },
    };
    let ghost files = storage.files();
    let ghost root = Seq::<char>::empty();
    let mut versions: Vec<u64> = Vec::new();
    let mut names: Vec<String> = Vec::new();
    let ghost mut from: Seq<int> = Seq::empty();
    let mut i: usize = 0;
    while i < listed.len()
        invariant
            root == Seq::<char>::empty(),
            lists_dir(files, root, listed@),
            i <= listed@.len(),
            versions@.len() == names@.len(),
            from.len() == names@.len(),
            forall|k: int|
                0 <= k < from.len() ==> 0 <= #[trigger] from[k] < i && names@[k]@
                    == listed@[from[k]]@ && manifest_version_of(names@[k]@) == Some(versions@[k]),
            forall|k: int, m: int|
                0 <= k < m < from.len() ==> #[trigger] from[k] < #[trigger] from[m],
            forall|n: int|
                0 <= n < i && manifest_version_of((#[trigger] listed@[n])@) is Some
                    ==> from.contains(n),
        decreases listed@.len() - i,
    {
        let name = &listed[i];
        match parse_manifest_name(name.as_str()) {
            None => {},
            Some(version) => {
                let ghost before = from;
                let ghost earlier = names@;
                let ghost numbers = versions@;
                versions.push(version);
                names.push(name.clone());
                proof {
                    from = from.push(i as int);
                    assert(from[before.len() as int] == i);
                    assert forall|k: int| 0 <= k < from.len() implies 0 <= #[trigger] from[k] < i
                        + 1 && names@[k]@ == listed@[from[k]]@ && manifest_version_of(names@[k]@)
                        == Some(versions@[k]) by {
                        if k < before.len() {
                            assert(from[k] == before[k]);
                            assert(names@[k] == earlier[k]);
                            assert(versions@[k] == numbers[k]);
                        }
                    }
                    assert forall|n: int|
                        0 <= n < i + 1 && manifest_version_of(
                            (#[trigger] listed@[n])@,
                        ) is Some implies from.contains(n) by {
                        if n < i {
                            let k = choose|k: int| 0 <= k < before.len() && before[k] == n;
                            assert(from[k] == n);
                        }
                    }
                }
            },
        }
        i = i + 1;
    }
    proof {
        assert forall|k: int| 0 <= k < names@.len() implies names_version(
            files,
            (#[trigger] names@[k])@,
            versions@[k],
        ) by {
            assert(dir_holds(files, root, listed@[from[k]]@));
        }
        assert forall|k: int, m: int| 0 <= k < m < names@.len() implies (#[trigger] names@[k])@ != (
        #[trigger] names@[m])@ by {
            assert(from[k] < from[m]);
        }
        assert forall|name: Seq<char>, version: u64| #[trigger]
            names_version(files, name, version) implies exists|k: int|
            0 <= k < names@.len() && (#[trigger] names@[k])@ == name by {
            let n = choose|n: int| 0 <= n < listed@.len() && (#[trigger] listed@[n])@ == name;
            assert(from.contains(n));
            let k = choose|k: int| 0 <= k < from.len() && from[k] == n;
            assert(names@[k]@ == name);
        }
    }
    Ok((versions, names))
}

/// Whether the first `count` names of an order are gone, and nothing else.
spec fn removed_prefix(
    before: FileMap,
    after: FileMap,
    names: Seq<String>,
    order: Seq<usize>,
    count: int,
) -> bool {
    forall|path: Seq<char>|
        #![trigger after.dom().contains(path)]
        (after.dom().contains(path) == (before.dom().contains(path) && !in_prefix(
            names,
            order,
            count,
            path,
        ))) && (after.dom().contains(path) ==> after[path] == before[path])
}

spec fn in_prefix(names: Seq<String>, order: Seq<usize>, count: int, path: Seq<char>) -> bool {
    exists|i: int| 0 <= i < count && names[#[trigger] order[i] as int]@ == path
}

proof fn lemma_oldest_gone(
    before: FileMap,
    after: FileMap,
    versions: Seq<u64>,
    names: Seq<String>,
    order: Seq<usize>,
    count: int,
)
    requires
        gathers(before, versions, names),
        is_stable_order(versions, order),
        0 <= count <= order.len(),
        count > 0 ==> order.len() - count >= MANIFEST_KEEP,
        removed_prefix(before, after, names, order, count),
    ensures
        oldest_gone(before, after),
{
    lemma_left(before, after, versions, names, order, count);
    assert forall|path: Seq<char>|
        before.dom().contains(path) && !#[trigger] after.dom().contains(
            path,
        ) implies manifest_version_of(path) is Some by {
        let i = choose|i: int| 0 <= i < count && names[#[trigger] order[i] as int]@ == path;
        assert(names_version(before, names[order[i] as int]@, versions[order[i] as int]));
    }
    assert forall|gone: Seq<char>, old_version: u64, kept: Seq<char>, version: u64|
        #![trigger names_version(before, gone, old_version), names_version(after, kept, version)]
        names_version(before, gone, old_version) && !after.dom().contains(gone) && names_version(
            after,
            kept,
            version,
        ) implies old_version <= version by {
        assert(dir_prefix(Seq::empty()) + gone =~= gone);
        assert(dir_prefix(Seq::empty()) + kept =~= kept);
        assert(before.dom().contains(gone));
        let i = choose|i: int| 0 <= i < count && names[#[trigger] order[i] as int]@ == gone;
        assert(names_version(before, names[order[i] as int]@, versions[order[i] as int]));
        assert(after.dom().contains(kept));
        assert(names_version(before, kept, version));
        let k = choose|k: int| 0 <= k < names.len() && (#[trigger] names[k])@ == kept;
        assert(names_version(before, names[k]@, versions[k]));
        crate::order::stable_order_covers(versions, order, k);
        let j = choose|j: int| 0 <= j < order.len() && #[trigger] order[j] == k;
        if j < count {
            assert(names[order[j] as int]@ == kept);
            assert(in_prefix(names, order, count, kept));
        }
        assert(crate::order::comes_before(versions, order[i] as int, order[j] as int));
    }
}

proof fn lemma_left(
    before: FileMap,
    after: FileMap,
    versions: Seq<u64>,
    names: Seq<String>,
    order: Seq<usize>,
    count: int,
)
    requires
        gathers(before, versions, names),
        is_stable_order(versions, order),
        0 <= count <= order.len(),
        removed_prefix(before, after, names, order, count),
    ensures
        before != after ==> count > 0,
        exists|names: Seq<Seq<char>>| #[trigger]
            lists_manifests(after, names) && names.len() == order.len() - count,
{
    let left = Seq::new((order.len() - count) as nat, |i: int| names[order[count + i] as int]@);
    assert(left.no_duplicates()) by {
        assert forall|i: int, j: int| 0 <= i < j < left.len() implies left[i] != left[j] by {
            let p = order[count + i] as int;
            let q = order[count + j] as int;
            assert(crate::order::comes_before(versions, p, q));
            if p < q {
                assert(names[p]@ != names[q]@);
            } else {
                assert(names[q]@ != names[p]@);
            }
        }
    }
    assert forall|i: int| 0 <= i < left.len() implies dir_holds(
        after,
        Seq::empty(),
        #[trigger] left[i],
    ) && manifest_version_of(left[i]) is Some by {
        let p = order[count + i] as int;
        let name = names[p]@;
        assert(names_version(before, name, versions[p]));
        assert(dir_prefix(Seq::empty()) + name =~= name);
        if in_prefix(names, order, count, name) {
            let k = choose|k: int| 0 <= k < count && names[#[trigger] order[k] as int]@ == name;
            let q = order[k] as int;
            assert(crate::order::comes_before(versions, q, p));
            if p < q {
                assert(names[p]@ != names[q]@);
            } else {
                assert(names[q]@ != names[p]@);
            }
        }
        assert(after.dom().contains(name));
    }
    assert forall|name: Seq<char>, version: u64| #[trigger]
        names_version(after, name, version) implies left.contains(name) by {
        assert(dir_prefix(Seq::empty()) + name =~= name);
        assert(after.dom().contains(name));
        assert(names_version(before, name, version));
        let k = choose|k: int| 0 <= k < names.len() && (#[trigger] names[k])@ == name;
        crate::order::stable_order_covers(versions, order, k);
        let j = choose|j: int| 0 <= j < order.len() && #[trigger] order[j] == k;
        if j < count {
            assert(names[order[j] as int]@ == name);
            assert(in_prefix(names, order, count, name));
        }
        assert(left[j - count] == name);
    }
    if count == 0 {
        assert forall|path: Seq<char>| after.dom().contains(path) == before.dom().contains(
            path,
        ) by {
            assert(!in_prefix(names, order, 0, path));
        }
        assert(after =~= before);
    }
    assert(lists_manifests(after, left));
}

proof fn lemma_kept_few(
    before: FileMap,
    after: FileMap,
    versions: Seq<u64>,
    names: Seq<String>,
    order: Seq<usize>,
    count: int,
)
    requires
        gathers(before, versions, names),
        is_stable_order(versions, order),
        0 <= count <= order.len(),
        order.len() - count <= MANIFEST_KEEP,
        count > 0 ==> order.len() - count == MANIFEST_KEEP,
        removed_prefix(before, after, names, order, count),
    ensures
        kept_few(before, after),
{
    lemma_left(before, after, versions, names, order, count);
}

/// What a removal took is a manifest, and it is gone.
proof fn lemma_settled_unless_gone(
    before: FileMap,
    after: FileMap,
    versions: Seq<u64>,
    names: Seq<String>,
    order: Seq<usize>,
    count: int,
)
    requires
        gathers(before, versions, names),
        is_stable_order(versions, order),
        0 <= count <= order.len(),
        removed_prefix(before, after, names, order, count),
    ensures
        forall|path: Seq<char>| #[trigger]
            in_prefix(names, order, count, path) ==> !after.dom().contains(path)
                && manifest_version_of(path) is Some,
{
    assert forall|path: Seq<char>| #[trigger] in_prefix(names, order, count, path) implies
        !after.dom().contains(path) && manifest_version_of(path) is Some by {
        let k = choose|k: int| 0 <= k < count && names[#[trigger] order[k] as int]@ == path;
        let p = order[k] as int;
        assert(names_version(before, names[p]@, versions[p]));
        assert(!after.dom().contains(path));
    }
}

/// Removes the oldest manifests until as many are left as are kept.
pub fn prune_manifests<S: Storage>(storage: &mut S) -> (result: Result<(), MnemeError>)
    requires
        old(storage).wf(),
    ensures
        final(storage).wf(),
        final(storage).reliable() == old(storage).reliable(),
        final(storage).locked() == old(storage).locked(),
        final(storage).failures() == old(storage).failures(),
        oldest_gone(old(storage).files(), final(storage).files()),
        forall|path: Seq<char>|
            old(storage).settled().contains(path) && (final(storage).files().dom().contains(path)
                || manifest_version_of(path) is None)
                    ==> #[trigger] final(storage).settled().contains(path),
        result is Ok ==> kept_few(old(storage).files(), final(storage).files()),
        result matches Err(error) ==> given_by(failures_of(*old(storage)), error),
{
    let ghost start = storage.files();
    let (versions, names) = match gather_manifests(storage) {
        Ok(found) => found,
        Err(error) => {
            return Err(error);
        },
    };
    let order = stable_order(&versions);
    let excess: usize = if order.len() > MANIFEST_KEEP {
        order.len() - MANIFEST_KEEP
    } else {
        0
    };
    let mut i: usize = 0;
    proof {
        assert forall|path: Seq<char>|
            #![trigger start.dom().contains(path)]
            !in_prefix(names@, order@, 0, path) by {}
    }
    while i < excess
        invariant
            storage.wf(),
            storage.reliable() == old(storage).reliable(),
            storage.locked() == old(storage).locked(),
            storage.failures() == old(storage).failures(),
            start == old(storage).files(),
            gathers(start, versions@, names@),
            is_stable_order(versions@, order@),
            i <= excess <= order@.len(),
            excess > 0 ==> order@.len() - excess == MANIFEST_KEEP,
            order@.len() == names@.len(),
            removed_prefix(start, storage.files(), names@, order@, i as int),
            forall|path: Seq<char>|
                old(storage).settled().contains(path) && !in_prefix(names@, order@, i as int, path)
                    ==> #[trigger] storage.settled().contains(path),
        decreases excess - i,
    {
        let name = &names[order[i]];
        let ghost before = storage.files();
        let ghost held = storage.settled();
        proof {
            let p = order@[i as int] as int;
            assert(names_version(start, names@[p]@, versions@[p]));
            lemma_manifest_name_below(start, name@);
        }
        match storage.remove_if_exists(name.as_str()) {
            Ok(()) => {},
            Err(error) => {
                proof {
                    lemma_settled_unless_gone(
                        start,
                        storage.files(),
                        versions@,
                        names@,
                        order@,
                        i as int,
                    );
                    lemma_oldest_gone(
                        start,
                        storage.files(),
                        versions@,
                        names@,
                        order@,
                        i as int,
                    );
                }
                return Err(error);
            },
        }
        proof {
            let after = storage.files();
            assert forall|path: Seq<char>|
                #![trigger after.dom().contains(path)]
                (after.dom().contains(path) == (start.dom().contains(path) && !in_prefix(
                    names@,
                    order@,
                    i + 1,
                    path,
                ))) && (after.dom().contains(path) ==> after[path] == start[path]) by {
                assert(before.dom().contains(path) == (start.dom().contains(path) && !in_prefix(
                    names@,
                    order@,
                    i as int,
                    path,
                )));
                if in_prefix(names@, order@, i as int, path) {
                    let k = choose|k: int|
                        0 <= k < i && names@[#[trigger] order@[k] as int]@ == path;
                    assert(names@[order@[k] as int]@ == path);
                    assert(in_prefix(names@, order@, i + 1, path));
                }
                if in_prefix(names@, order@, i + 1, path) {
                    let k = choose|k: int|
                        0 <= k < i + 1 && names@[#[trigger] order@[k] as int]@ == path;
                    if k < i {
                        assert(in_prefix(names@, order@, i as int, path));
                    }
                }
                if path == name@ {
                    assert(names@[order@[i as int] as int]@ == path);
                    assert(in_prefix(names@, order@, i + 1, path));
                }
            }
        }
        proof {
            assert forall|path: Seq<char>|
                old(storage).settled().contains(path) && !in_prefix(
                    names@,
                    order@,
                    i + 1,
                    path,
                ) implies #[trigger] storage.settled().contains(path) by {
                if in_prefix(names@, order@, i as int, path) {
                    let k = choose|k: int|
                        0 <= k < i && names@[#[trigger] order@[k] as int]@ == path;
                    assert(names@[order@[k] as int]@ == path);
                    assert(in_prefix(names@, order@, i + 1, path));
                }
                if path == name@ {
                    assert(names@[order@[i as int] as int]@ == path);
                    assert(in_prefix(names@, order@, i + 1, path));
                }
                assert(held.contains(path));
            }
        }
        i = i + 1;
    }
    proof {
        lemma_settled_unless_gone(
            start,
            storage.files(),
            versions@,
            names@,
            order@,
            excess as int,
        );
        lemma_oldest_gone(start, storage.files(), versions@, names@, order@, excess as int);
        lemma_kept_few(start, storage.files(), versions@, names@, order@, excess as int);
    }
    Ok(())
}

/// Whether every other manifest is older than a version.
pub open spec fn is_newest(files: FileMap, version: u64) -> bool {
    forall|name: Seq<char>, other: u64| #[trigger]
        names_version(files, name, other) && name != manifest_file(version) ==> other < version
}

/// Whether a manifest was written and made the current one.
pub open spec fn switched(before: FileMap, after: FileMap, version: u64, bytes: Seq<u8>) -> bool {
    exists|written: FileMap| #[trigger]
        file_set(before, written, manifest_file(version), bytes) && file_set(
            written,
            after,
            CURRENT_FILE@,
            version_bytes(version),
        )
}

/// Whether a path is one of those that a commit writes to or removes.
pub open spec fn commit_touches(version: u64, path: Seq<char>) -> bool {
    path == CURRENT_FILE@ || path == crate::storage::temporary_of(CURRENT_FILE@) || path
        == crate::storage::temporary_of(manifest_file(version)) || manifest_version_of(
        path,
    ) is Some
}

/// Whether a path is one of those that a commit writes to.
pub open spec fn commit_writes(version: u64, path: Seq<char>) -> bool {
    path == CURRENT_FILE@ || path == crate::storage::temporary_of(CURRENT_FILE@) || path
        == manifest_file(version) || path == crate::storage::temporary_of(manifest_file(version))
}

/// Whether the file of a version holds the manifest as it is encoded.
pub open spec fn holds_encoded<E: Fn(&Manifest) -> Result<Vec<u8>, MnemeError>>(
    files: FileMap,
    encode: E,
    manifest: Manifest,
) -> bool {
    exists|bytes: Vec<u8>|
        #![trigger encode.ensures((&manifest,), Ok(bytes))]
        encode.ensures((&manifest,), Ok(bytes)) && files.dom().contains(
            manifest_file(manifest.manifest_version),
        ) && files[manifest_file(manifest.manifest_version)] == bytes@
}

/// What a commit that succeeds has done: `current` names the version and, where every other
/// manifest is older, its file holds the manifest as it is encoded.
pub open spec fn is_committed<E: Fn(&Manifest) -> Result<Vec<u8>, MnemeError>>(
    before: FileMap,
    after: FileMap,
    encode: E,
    manifest: Manifest,
) -> bool {
    &&& current_of(after) == Some(manifest.manifest_version)
    &&& exists|bytes: Vec<u8>|
        #![trigger encode.ensures((&manifest,), Ok(bytes))]
        encode.ensures((&manifest,), Ok(bytes))
    &&& is_newest(before, manifest.manifest_version) ==> holds_encoded(after, encode, manifest)
}

/// What a commit that fails leaves behind: every other manifest is there, and `current` names what
/// it named, or the new version, whose manifest is whole then.
pub open spec fn commit_failed<E: Fn(&Manifest) -> Result<Vec<u8>, MnemeError>>(
    before: FileMap,
    after: FileMap,
    encode: E,
    manifest: Manifest,
) -> bool {
    let version = manifest.manifest_version;
    &&& forall|path: Seq<char>|
        !commit_writes(version, path) ==> #[trigger] same_at(before, after, path)
    &&& same_at(before, after, manifest_file(version)) || holds_encoded(after, encode, manifest)
    &&& same_at(before, after, CURRENT_FILE@) || (current_of(after) == Some(version)
        && holds_encoded(after, encode, manifest))
}

/// Whether a manifest may be encoded, and it and `current` be let through by the hook.
pub open spec fn commit_passes<
    H: FsyncHook,
    E: Fn(&Manifest) -> Result<Vec<u8>, MnemeError>,
>(hook: Option<&H>, encode: E, manifest: Manifest) -> bool {
    let version = manifest.manifest_version;
    &&& exists|bytes: Vec<u8>|
        #![trigger encode.ensures((&manifest,), Ok(bytes))]
        encode.ensures((&manifest,), Ok(bytes)) && write_passes(
            hook,
            manifest_file(version),
            0,
            bytes@.len(),
        )
    &&& write_passes(hook, CURRENT_FILE@, 0, version_bytes(version).len())
}

/// Whether a commit may fail so: the manifest cannot be encoded, or the hook refuses it or else
/// `current`, or the backend fails to write one of the two.
pub open spec fn commit_refused<
    H: FsyncHook,
    E: Fn(&Manifest) -> Result<Vec<u8>, MnemeError>,
>(hook: Option<&H>,
    failures: FailureSet, encode: E, manifest: Manifest, error: MnemeError) -> bool {
    let version = manifest.manifest_version;
    ||| encode.ensures((&manifest,), Err(error))
    ||| exists|bytes: Vec<u8>|
        #![trigger encode.ensures((&manifest,), Ok(bytes))]
        encode.ensures((&manifest,), Ok(bytes)) && (refuses_write(
            hook,
            manifest_file(version),
            0,
            bytes@.len(),
            error,
        ) || (write_passes(hook, manifest_file(version), 0, bytes@.len()) && refuses_write(
            hook,
            CURRENT_FILE@,
            0,
            version_bytes(version).len(),
            error,
        )))
    ||| exists|bytes: Vec<u8>|
        #![trigger encode.ensures((&manifest,), Ok(bytes))]
        encode.ensures((&manifest,), Ok(bytes)) && write_passes(
            hook,
            manifest_file(version),
            0,
            bytes@.len(),
        ) && failures.contains((Step::Write, error))
}

/// How the names of a commit differ.
pub proof fn lemma_manifest_names(version: u64)
    ensures
        manifest_version_of(CURRENT_FILE@) is None,
        manifest_version_of(manifest_file(version)) == Some(version),
        !manifest_file(version).contains('/'),
        manifest_file(version).len() > 0,
        manifest_version_of(crate::storage::temporary_of(manifest_file(version))) is None,
        manifest_version_of(crate::storage::temporary_of(CURRENT_FILE@)) is None,
        manifest_file(version) != CURRENT_FILE@,
        manifest_file(version) != crate::storage::temporary_of(CURRENT_FILE@),
        CURRENT_FILE@ != crate::storage::temporary_of(manifest_file(version)),
{
    reveal_strlit("current");
    reveal_strlit("MANIFEST.");
    reveal_strlit(".tmp");
    crate::layout::manifest_name_round_trip(version);
    crate::text::lemma_padded(version as nat, 6);
    let name = manifest_file(version);
    let tail = crate::text::padded(version as nat, 6);
    assert forall|i: int| 0 <= i < name.len() implies name[i] != '/' by {
        if i >= 9 {
            assert(name[i] == tail[i - 9]);
            assert(crate::text::is_digit(tail[i - 9]));
        }
    }
    let half = crate::storage::temporary_of(name);
    let rest = half.skip(MANIFEST_PREFIX@.len() as int);
    assert(half.take(9) =~= MANIFEST_PREFIX@);
    assert(rest[rest.len() - 1] == 'p');
    let body = crate::text::unsigned_part(rest);
    assert(body[body.len() - 1] == 'p');
    assert(!crate::text::is_digit(body[body.len() - 1]));
    assert(name[0] == 'M');
    assert(CURRENT_FILE@[0] == 'c');
    let other = crate::storage::temporary_of(CURRENT_FILE@);
    assert(other[0] == 'c');
    assert(has_prefix(other, MANIFEST_PREFIX@) ==> other.take(9)[0] == 'M');
    assert(has_prefix(CURRENT_FILE@, MANIFEST_PREFIX@) ==> CURRENT_FILE@.take(9)[0] == 'M');
    assert(half[0] == 'M');
}

/// Commits a manifest: writes it under its version, makes `current` name it, and removes the oldest
/// manifests. Whatever fails, `current` names a whole manifest: it is switched only once the
/// manifest is written. What is left behind by the removal is no failure of the commit.
pub fn commit_manifest<S: Storage, H: FsyncHook, E: Fn(&Manifest) -> Result<Vec<u8>, MnemeError>>(
    storage: &mut S,
    hook: Option<&H>,
    manifest: &Manifest,
    encode: &E,
) -> (result: Result<(), MnemeError>)
    requires
        old(storage).wf(),
        encode.requires((manifest,)),
    ensures
        final(storage).wf(),
        final(storage).reliable() == old(storage).reliable(),
        final(storage).locked() == old(storage).locked(),
        final(storage).failures() == old(storage).failures(),
        forall|path: Seq<char>|
            !commit_touches(manifest.manifest_version, path) ==> #[trigger] same_at(
                old(storage).files(),
                final(storage).files(),
                path,
            ),
        forall|path: Seq<char>|
            !commit_touches(manifest.manifest_version, path) && old(storage).settled().contains(
                path,
            ) ==> #[trigger] final(storage).settled().contains(path),
        result is Ok ==> final(storage).settled().contains(CURRENT_FILE@),
        result is Ok && final(storage).files().dom().contains(
            manifest_file(manifest.manifest_version),
        ) ==> final(storage).settled().contains(manifest_file(manifest.manifest_version)),
        result is Err ==> commit_failed(
            old(storage).files(),
            final(storage).files(),
            *encode,
            *manifest,
        ),
        result is Ok ==> is_committed(
            old(storage).files(),
            final(storage).files(),
            *encode,
            *manifest,
        ),
        result is Ok ==> exists|bytes: Vec<u8>, committed: FileMap|
            #![trigger encode.ensures((manifest,), Ok(bytes)), oldest_gone(
                committed,
                final(storage).files(),
            )]
            encode.ensures((manifest,), Ok(bytes)) && switched(
                old(storage).files(),
                committed,
                manifest.manifest_version,
                bytes@,
            ) && oldest_gone(committed, final(storage).files()) && (old(storage).reliable()
                ==> kept_few(committed, final(storage).files())),
        hook is None && old(storage).reliable() ==> (result matches Err(error) ==> encode.ensures(
            (manifest,),
            Err(error),
        ) && final(storage).files() == old(storage).files()),
        result matches Err(error) ==> commit_refused(
            hook,
            failures_of(*old(storage)),
            *encode,
            *manifest,
            error,
        ),
        result is Ok ==> commit_passes(hook, *encode, *manifest),
{
    let version: u64 = manifest.manifest_version;
    proof {
        library_paths_stay_below(SegmentFile::Vsec, 0, 0, version);
        lemma_manifest_names(version);
    }
    let ghost start = storage.files();
    let bytes = match encode(manifest) {
        Ok(bytes) => bytes,
        Err(error) => {
            return Err(error);
        },
    };
    let name = manifest_name(version);
    assert(encode.ensures((manifest,), Ok(bytes)));
    match ask_write(hook, name.as_str(), 0, bytes.len()) {
        Ok(()) => {},
        Err(error) => {
            return Err(error);
        },
    }
    match storage.write_atomic(name.as_str(), bytes.as_slice()) {
        Ok(()) => {},
        Err(error) => {
            proof {
                lemma_half_committed(start, storage.files(), storage.files(), version);
                assert(encode.ensures((manifest,), Ok(bytes)));
            }
            return Err(error);
        },
    }
    let ghost written = storage.files();
    proof {
        assert(encode.ensures((manifest,), Ok(bytes)));
        assert(holds_encoded(written, *encode, *manifest));
        assert forall|path: Seq<char>| same_at(written, written, path) by {}
        lemma_half_committed(start, written, written, version);
    }
    let pointer = current_bytes(version);
    let pointer_bytes = pointer.as_str().as_bytes();
    match ask_write(hook, CURRENT_FILE, 0, pointer_bytes.len()) {
        Ok(()) => {},
        Err(error) => {
            return Err(error);
        },
    }
    match storage.write_atomic(CURRENT_FILE, pointer_bytes) {
        Ok(()) => {},
        Err(error) => {
            proof {
                assert(same_at(start, written, CURRENT_FILE@));
                assert(same_at(written, storage.files(), manifest_file(version)));
                assert(encode.ensures((manifest,), Ok(bytes)));
                assert(holds_encoded(storage.files(), *encode, *manifest));
                crate::current::current_round_trip(version);
                lemma_half_committed(start, written, storage.files(), version);
                lemma_commit_keeps(start, written, storage.files(), storage.files(), version);
            }
            return Err(error);
        },
    }
    let ghost committed = storage.files();
    let _ = prune_manifests(storage);
    proof {
        assert(switched(start, committed, version, bytes@));
        assert(oldest_gone(committed, storage.files()));
        lemma_commit_keeps(start, written, committed, storage.files(), version);
        crate::current::current_round_trip(version);
        assert(committed.dom().contains(CURRENT_FILE@));
        assert(storage.files().dom().contains(CURRENT_FILE@));
        assert(encode.ensures((manifest,), Ok(bytes)));
        if is_newest(start, version) {
            committed_manifest_is_current(start, committed, storage.files(), version, bytes@);
        }
    }
    Ok(())
}

/// Writing a manifest and `current` leaves everything else alone.
proof fn lemma_half_committed(start: FileMap, written: FileMap, after: FileMap, version: u64)
    requires
        others_kept(start, written, manifest_file(version)),
        others_kept(written, after, CURRENT_FILE@),
    ensures
        forall|path: Seq<char>|
            !commit_writes(version, path) ==> #[trigger] same_at(start, after, path),
{
    assert forall|path: Seq<char>| !commit_writes(version, path) implies #[trigger] same_at(
        start,
        after,
        path,
    ) by {
        assert(same_at(start, written, path));
        assert(same_at(written, after, path));
    }
}

proof fn lemma_commit_keeps(
    start: FileMap,
    written: FileMap,
    committed: FileMap,
    end: FileMap,
    version: u64,
)
    requires
        others_kept(start, written, manifest_file(version)),
        others_kept(written, committed, CURRENT_FILE@),
        end == committed || oldest_gone(committed, end),
    ensures
        forall|path: Seq<char>|
            !commit_touches(version, path) ==> #[trigger] same_at(start, end, path),
{
    lemma_manifest_names(version);
    assert forall|path: Seq<char>| !commit_touches(version, path) implies #[trigger] same_at(
        start,
        end,
        path,
    ) by {
        assert(same_at(start, written, path));
        assert(same_at(written, committed, path));
        if end != committed {
            if end.dom().contains(path) {
                assert(committed.dom().contains(path));
            }
        }
    }
}

/// A manifest that is newer than every other survives its own commit: `current` names it, its file
/// holds what was written, and every other manifest that is left is older.
pub proof fn committed_manifest_is_current(
    before: FileMap,
    committed: FileMap,
    after: FileMap,
    version: u64,
    bytes: Seq<u8>,
)
    requires
        is_newest(before, version),
        switched(before, committed, version, bytes),
        oldest_gone(committed, after),
    ensures
        current_of(after) == Some(version),
        after.dom().contains(manifest_file(version)),
        after[manifest_file(version)] == bytes,
        is_newest(after, version),
{
    lemma_manifest_names(version);
    crate::current::current_round_trip(version);
    let name = manifest_file(version);
    let root = Seq::<char>::empty();
    let written = choose|written: FileMap| #[trigger]
        file_set(before, written, name, bytes) && file_set(
            written,
            committed,
            CURRENT_FILE@,
            version_bytes(version),
        );
    assert(same_at(written, committed, name));
    assert(dir_prefix(root) + name =~= name);
    assert(names_version(committed, name, version));
    assert forall|other: Seq<char>, number: u64| #[trigger]
        names_version(committed, other, number) && other != name implies number < version by {
        assert(dir_prefix(root) + other =~= other);
        assert(same_at(before, written, other));
        assert(same_at(written, committed, other));
        assert(names_version(before, other, number));
    }
    assert(after.dom().contains(CURRENT_FILE@));
    if !after.dom().contains(name) {
        assert(committed != after);
        let names = choose|names: Seq<Seq<char>>| #[trigger]
            lists_manifests(after, names) && names.len() >= MANIFEST_KEEP;
        let kept = names[0];
        assert(dir_holds(after, root, kept));
        let number = manifest_version_of(kept)->Some_0;
        assert(names_version(after, kept, number));
        assert(dir_prefix(root) + kept =~= kept);
        assert(committed.dom().contains(kept));
        assert(names_version(committed, kept, number));
    }
    assert forall|other: Seq<char>, number: u64| #[trigger]
        names_version(after, other, number) && other != name implies number < version by {
        assert(dir_prefix(root) + other =~= other);
        assert(committed.dom().contains(other));
        assert(names_version(committed, other, number));
    }
}

/// Whatever step of a commit fails, a whole version stays: where `current` named the newest
/// manifest before, it names a manifest that is there afterwards, and that manifest is the one of
/// before or the new one as it is encoded.
pub proof fn a_whole_version_stays<E: Fn(&Manifest) -> Result<Vec<u8>, MnemeError>>(
    before: FileMap,
    after: FileMap,
    encode: E,
    manifest: Manifest,
    earlier: u64,
)
    requires
        current_of(before) == Some(earlier),
        before.dom().contains(manifest_file(earlier)),
        is_newest(before, earlier),
        earlier < manifest.manifest_version,
        is_committed(before, after, encode, manifest) || commit_failed(
            before,
            after,
            encode,
            manifest,
        ),
    ensures
        ({
            ||| current_of(after) == Some(earlier) && same_at(before, after, manifest_file(earlier))
            ||| current_of(after) == Some(manifest.manifest_version) && holds_encoded(
                after,
                encode,
                manifest,
            )
        }),
{
    let version = manifest.manifest_version;
    lemma_manifest_names(version);
    lemma_manifest_names(earlier);
    assert forall|name: Seq<char>, other: u64| #[trigger]
        names_version(before, name, other) && name != manifest_file(version) implies other
        < version by {
        if name == manifest_file(earlier) {
            assert(other == earlier);
        }
    }
    if !is_committed(before, after, encode, manifest) {
        assert(!commit_writes(version, manifest_file(earlier)));
        assert(same_at(before, after, manifest_file(earlier)));
    }
}

/// A load after a commit gives back what was committed: where the version is newer than every
/// manifest that was there, and decoding gives back what was encoded. Only the backend can fail to load
/// it, so that a reliable one never does, and no backend gives anything else.
pub proof fn load_gives_back_committed<
    E: Fn(&Manifest) -> Result<Vec<u8>, MnemeError>,
    D: Fn(u64, Vec<u8>) -> Decoded,
>(
    before: FileMap,
    after: FileMap,
    encode: E,
    decode: D,
    manifest: Manifest,
    failures: FailureSet,
    loaded: Result<Option<(Manifest, u64)>, MnemeError>,
)
    requires
        is_newest(before, manifest.manifest_version),
        is_committed(before, after, encode, manifest),
        forall|bytes: Vec<u8>, decoded: Decoded|
            #![trigger encode.ensures((&manifest,), Ok(bytes)), decodes(
                decode,
                manifest.manifest_version,
                bytes@,
                decoded,
            )]
            encode.ensures((&manifest,), Ok(bytes)) && decodes(
                decode,
                manifest.manifest_version,
                bytes@,
                decoded,
            ) ==> (decoded matches Decoded::Whole(m) && m@ == manifest@),
        load_outcome(after, decode, failures, loaded),
    ensures
        loaded matches Err(error) ==> given_by(failures, error),
        failures == FailureSet::empty() ==> loaded is Ok,
        loaded matches Ok(found) ==> (found matches Some((m, version)) && version
            == manifest.manifest_version && m@ == manifest@),
{
    let version = manifest.manifest_version;
    let bytes = choose|bytes: Vec<u8>|
        #![trigger encode.ensures((&manifest,), Ok(bytes))]
        encode.ensures((&manifest,), Ok(bytes)) && after.dom().contains(manifest_file(version))
            && after[manifest_file(version)] == bytes@;
    assert(encode.ensures((&manifest,), Ok(bytes)));
    assert(!current_unusable(after, decode)) by {
        if current_unusable(after, decode) {
            let decoded = choose|decoded: Decoded|
                decoded.passed_over() && #[trigger] decodes(decode, version, bytes@, decoded);
            assert(decodes(decode, version, bytes@, decoded));
        }
    }
    match loaded {
        Ok(Some((m, _))) => {
            assert(decodes(decode, version, bytes@, Decoded::Whole(m)));
        },
        Ok(None) => {},
        Err(error) => {
            if !given_by(failures, error) {
                assert(decodes(decode, version, bytes@, Decoded::Sealed(error)));
            }
        },
    }
}

/// Removing old manifests takes manifests alone, leaves at least as many as are to be kept, and
/// never takes the newest: a manifest that is left is as new as any that was there.
pub proof fn newest_manifest_is_kept(
    before: FileMap,
    after: FileMap,
    path: Seq<char>,
    name: Seq<char>,
    version: u64,
)
    requires
        oldest_gone(before, after),
        names_version(before, name, version),
    ensures
        before.dom().contains(path) && manifest_version_of(path) is None ==> after.dom().contains(
            path,
        ) && after[path] == before[path],
        after.dom().contains(path) ==> before.dom().contains(path) && after[path] == before[path],
        before != after ==> exists|names: Seq<Seq<char>>|
            #[trigger] lists_manifests(after, names) && names.len() >= 2,
        exists|kept: Seq<char>, newer: u64| #[trigger]
            names_version(after, kept, newer) && newer >= version,
{
    if after.dom().contains(name) {
        assert(Seq::<char>::empty() + name =~= name);
        assert(names_version(after, name, version));
    } else {
        let names = choose|names: Seq<Seq<char>>| #[trigger]
            lists_manifests(after, names) && names.len() >= MANIFEST_KEEP;
        let kept = names[0];
        let newer = manifest_version_of(kept)->0;
        assert(names_version(after, kept, newer));
    }
}

/// A library that was committed is never taken for a new one: where no manifest is found, there is
/// neither a file that names a version nor a manifest of any version.
pub proof fn only_blank_libraries_are_new<D: Fn(u64, Vec<u8>) -> Decoded>(
    files: FileMap,
    decode: D,
    failures: FailureSet,
    version: u64,
)
    requires
        load_outcome(files, decode, failures, Ok(None)),
    ensures
        !files.dom().contains("current"@),
        !files.dom().contains(manifest_file(version)),
{
    if files.dom().contains(manifest_file(version)) {
        lemma_manifest_names(version);
        assert(Seq::<char>::empty() + manifest_file(version) =~= manifest_file(version));
        assert(names_version(files, manifest_file(version), version));
    }
}

/// Where manifests are there but none can be used, that is reported, and the report tells whether a
/// version was named.
pub proof fn unusable_manifests_are_reported<D: Fn(u64, Vec<u8>) -> Decoded>(
    files: FileMap,
    decode: D,
    error: MnemeError,
)
    requires
        load_outcome(files, decode, FailureSet::empty(), Err(error)),
        !(error is Unsupported),
    ensures
        files.dom().contains("current"@) ==> error == (MnemeError::Corrupted {
            segment: None,
            reason: Fault::CurrentWithoutManifest,
        }),
        !files.dom().contains("current"@) ==> error == (MnemeError::Corrupted {
            segment: None,
            reason: Fault::ManifestUnreadable,
        }),
        !is_blank(files),
{
    assert(!given_by(FailureSet::empty(), error));
}

/// After old manifests were removed, at most two are left.
pub proof fn few_manifests_are_left(
    before: FileMap,
    after: FileMap,
    a: Seq<char>,
    b: Seq<char>,
    c: Seq<char>,
    versions: (u64, u64, u64),
)
    requires
        kept_few(before, after),
        names_version(after, a, versions.0),
        names_version(after, b, versions.1),
        names_version(after, c, versions.2),
    ensures
        a == b || b == c || a == c,
{
    let names = choose|names: Seq<Seq<char>>| #[trigger]
        lists_manifests(after, names) && names.len() <= MANIFEST_KEEP;
    let i = choose|i: int| 0 <= i < names.len() && names[i] == a;
    let j = choose|j: int| 0 <= j < names.len() && names[j] == b;
    let k = choose|k: int| 0 <= k < names.len() && names[k] == c;
    assert(i == j || j == k || i == k);
}

/// Where no version is named, the newest manifest that can be read is loaded: none that is newer
/// reads as whole however it is read. And manifests are given up only where none reads so.
pub proof fn newest_readable_manifest_is_loaded<D: Fn(u64, Vec<u8>) -> Decoded>(
    files: FileMap,
    decode: D,
    manifest: Manifest,
    version: u64,
    name: Seq<char>,
    newer: u64,
    error: MnemeError,
)
    requires
        names_version(files, name, newer),
        forall|decoded: Decoded| #[trigger]
            decodes(decode, newer, files[name], decoded) ==> decoded is Whole,
    ensures
        is_latest(files, decode, manifest, version) && !files.dom().contains("current"@) ==> version
            >= newer,
        load_outcome(files, decode, FailureSet::empty(), Err(error)) ==> error is Unsupported,
{
    assert(Seq::<char>::empty() + name =~= name);
    assert(!holds_none(files, decode, name, newer));
    assert(!given_by(FailureSet::empty(), error));
}

} // verus!
