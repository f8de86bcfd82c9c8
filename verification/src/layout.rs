//! Names and places of the files of a library.

use vstd::prelude::*;

use crate::error::{ConfigFault, MnemeError, SegmentFile};
use crate::text::{
    after_prefix, all_digits, append_padded, before_suffix, chars_of, decimal_value, digits_only,
    has_prefix, has_suffix, lemma_digits_len, lemma_digits_unique, lemma_padded,
    lemma_value_bound, padded, parse_decimal, parsed_decimal, power_of_ten, text_equal,
    unsigned_part,
};

verus! {

/// Pointer to the committed manifest.
pub const CURRENT_FILE: &'static str = "current";

/// What the name of every manifest begins with.
pub const MANIFEST_PREFIX: &'static str = "MANIFEST.";

/// Directory of the write-ahead log.
pub const WAL_DIR: &'static str = "wal";

/// Directory of the segments.
pub const SEGMENTS_DIR: &'static str = "segments";

/// Directory of files that wait for their removal.
pub const TRASH_DIR: &'static str = "trash";

/// File that carries the exclusive lock.
pub const LOCK_FILE: &'static str = "LOCK";

/// How many manifest versions are kept. Whatever step a crash interrupts, at least one
/// complete version remains.
pub const MANIFEST_KEEP: usize = 2;

/// The name of a manifest version.
pub open spec fn manifest_file(version: u64) -> Seq<char> {
    MANIFEST_PREFIX@ + padded(version as nat, 6)
}

/// The version that a file name stands for, where it is the name of a manifest.
pub open spec fn manifest_version_of(name: Seq<char>) -> Option<u64> {
    if has_prefix(name, MANIFEST_PREFIX@) {
        match parsed_decimal(name.skip(MANIFEST_PREFIX@.len() as int), u64::MAX as nat) {
            Some(v) => Some(v as u64),
            None => None,
        }
    } else {
        None
    }
}

/// How the name of a segment file ends.
pub open spec fn segment_suffix(file: SegmentFile) -> Seq<char> {
    match file {
        SegmentFile::Vsec => ".vsec"@,
        SegmentFile::Msec => ".msec"@,
        SegmentFile::Hidx => ".hidx"@,
    }
}

/// The name of a segment file.
pub open spec fn segment_file(file: SegmentFile, segment_id: u32) -> Seq<char> {
    "seg_"@ + padded(segment_id as nat, 6) + segment_suffix(file)
}

/// The path of a segment file below the root.
pub open spec fn segment_path(file: SegmentFile, segment_id: u32) -> Seq<char> {
    SEGMENTS_DIR@ + "/"@ + segment_file(file, segment_id)
}

/// The name of a log file.
pub open spec fn wal_file(index: u32) -> Seq<char> {
    "wal_"@ + padded(index as nat, 6) + ".log"@
}

/// The path of a log file below the root.
pub open spec fn wal_path(index: u32) -> Seq<char> {
    WAL_DIR@ + "/"@ + wal_file(index)
}

/// Whether a name begins and ends as log file names do.
pub open spec fn is_wal_name(name: Seq<char>) -> bool {
    has_prefix(name, "wal_"@) && has_suffix(name, ".log"@)
}

/// What stands between `wal_` and `.log` in a name.
pub open spec fn wal_middle(name: Seq<char>) -> Option<Seq<char>> {
    if has_prefix(name, "wal_"@) && has_suffix(name.skip(4), ".log"@) {
        Some(name.skip(4).take(name.len() - 8))
    } else {
        None
    }
}

/// The index in a name of the strict form: six digits between `wal_` and `.log`.
pub open spec fn strict_wal_index(name: Seq<char>) -> Option<u32> {
    match wal_middle(name) {
        Some(middle) => if middle.len() == 6 && all_digits(middle) {
            Some(decimal_value(middle) as u32)
        } else {
            None
        },
        None => None,
    }
}

/// The number of a log file, whatever its width: the one whose decimal notation, filled up to six
/// digits, stands between `wal_` and `.log`.
pub open spec fn wal_number_of(name: Seq<char>) -> Option<u32> {
    match wal_middle(name) {
        Some(middle) => if all_digits(middle) && decimal_value(middle) <= u32::MAX && middle
            == padded(decimal_value(middle), 6) {
            Some(decimal_value(middle) as u32)
        } else {
            None
        },
        None => None,
    }
}

/// Whether a path begins at the root of the file system.
pub open spec fn is_rooted(rel: Seq<char>) -> bool {
    rel.len() > 0 && rel[0] == '/'
}

/// Whether the path component that begins at `at` is `..`.
pub open spec fn parent_component_at(rel: Seq<char>, at: int) -> bool {
    &&& 0 <= at
    &&& at + 2 <= rel.len()
    &&& rel[at] == '.'
    &&& rel[at + 1] == '.'
    &&& (at == 0 || rel[at - 1] == '/')
    &&& (at + 2 == rel.len() || rel[at + 2] == '/')
}

/// Whether a path stays below the directory that it is joined to: it is relative and none of
/// its components is `..`.
pub open spec fn stays_below(rel: Seq<char>) -> bool {
    !is_rooted(rel) && forall|at: int| !#[trigger] parent_component_at(rel, at)
}

/// A relative path behind a directory.
pub open spec fn joined(root: Seq<char>, rel: Seq<char>) -> Seq<char> {
    if root.len() == 0 || root.last() == '/' {
        root + rel
    } else {
        root + "/"@ + rel
    }
}

/// Names a manifest version, such as `MANIFEST.000042`.
pub fn manifest_name(version: u64) -> (name: String)
    ensures
        name@ == manifest_file(version),
{
    let mut name = String::from_str(MANIFEST_PREFIX);
    append_padded(&mut name, version, 6);
    name
}

/// Reads the version out of a manifest name; any other name gives `None`.
pub fn parse_manifest_name(name: &str) -> (version: Option<u64>)
    ensures
        version == manifest_version_of(name@),
{
    match after_prefix(name, MANIFEST_PREFIX) {
        Some(rest) => parse_decimal(rest, u64::MAX),
        None => None,
    }
}

/// The ending of a segment file name.
fn suffix_text(file: SegmentFile) -> (text: &'static str)
    ensures
        text@ == segment_suffix(file),
{
    match file {
        SegmentFile::Vsec => ".vsec",
        SegmentFile::Msec => ".msec",
        SegmentFile::Hidx => ".hidx",
    }
}

/// Names a segment file.
pub fn segment_name(file: SegmentFile, segment_id: u32) -> (name: String)
    ensures
        name@ == segment_file(file, segment_id),
{
    let mut name = String::from_str("seg_");
    append_padded(&mut name, segment_id as u64, 6);
    name.append(suffix_text(file));
    name
}

/// Names the vector file of a segment.
pub fn vsec_name(segment_id: u32) -> (name: String)
    ensures
        name@ == segment_file(SegmentFile::Vsec, segment_id),
{
    segment_name(SegmentFile::Vsec, segment_id)
}

/// Names the metadata file of a segment.
pub fn msec_name(segment_id: u32) -> (name: String)
    ensures
        name@ == segment_file(SegmentFile::Msec, segment_id),
{
    segment_name(SegmentFile::Msec, segment_id)
}

/// Names the graph file of a segment.
pub fn hidx_name(segment_id: u32) -> (name: String)
    ensures
        name@ == segment_file(SegmentFile::Hidx, segment_id),
{
    segment_name(SegmentFile::Hidx, segment_id)
}

/// A name inside a directory of the library.
pub fn path_in(dir: &str, name: &str) -> (path: String)
    ensures
        path@ == dir@ + "/"@ + name@,
{
    let mut path = String::from_str(dir);
    path.append("/");
    path.append(name);
    path
}

/// The path of a segment file.
pub fn segment_rel(file: SegmentFile, segment_id: u32) -> (path: String)
    ensures
        path@ == segment_path(file, segment_id),
{
    let name = segment_name(file, segment_id);
    path_in(SEGMENTS_DIR, name.as_str())
}

/// The path of a log file.
pub fn wal_name(index: u32) -> (path: String)
    ensures
        path@ == wal_path(index),
{
    let mut name = String::from_str("wal_");
    append_padded(&mut name, index as u64, 6);
    name.append(".log");
    path_in(WAL_DIR, name.as_str())
}

/// What stands between the beginning and the ending of a log file name.
fn middle_of(name: &str) -> (middle: Option<&str>)
    ensures
        match middle {
            Some(middle) => wal_middle(name@) == Some(middle@),
            None => wal_middle(name@) is None,
        },
{
    proof {
        reveal_strlit("wal_");
        reveal_strlit(".log");
    }
    let rest = match after_prefix(name, "wal_") {
        Some(rest) => rest,
        None => {
            return None;
        },
    };
    let middle = before_suffix(rest, ".log");
    assert(middle matches Some(middle) ==> middle@ =~= name@.skip(4).take(name@.len() - 8));
    middle
}

/// Reads the index out of a log file name of the strict form, such as `wal_000042.log`; any other
/// name gives `None`.
pub fn wal_index_of(name: &str) -> (index: Option<u32>)
    ensures
        index == strict_wal_index(name@),
{
    let middle = match middle_of(name) {
        Some(middle) => middle,
        None => {
            return None;
        },
    };
    if middle.unicode_len() != 6 || !digits_only(middle) {
        return None;
    }
    proof {
        assert(crate::text::is_digit(middle@[0]));
        assert(unsigned_part(middle@) =~= middle@);
        lemma_million();
        lemma_value_bound(middle@);
    }
    match parse_decimal(middle, u32::MAX as u64) {
        Some(value) => Some(value as u32),
        None => None,
    }
}

/// Reads the number out of the name of a log file, whatever its width. A name that `wal_name` does
/// not give has none.
pub fn wal_number(name: &str) -> (number: Option<u32>)
    ensures
        number == wal_number_of(name@),
{
    let middle = match middle_of(name) {
        Some(middle) => middle,
        None => {
            return None;
        },
    };
    proof {
        lemma_padded(decimal_value(middle@), 6);
    }
    if !digits_only(middle) {
        return None;
    }
    proof {
        if middle@.len() > 0 {
            assert(crate::text::is_digit(middle@[0]));
        }
        assert(unsigned_part(middle@) =~= middle@);
    }
    let value: u64 = match parse_decimal(middle, u32::MAX as u64) {
        Some(value) => value,
        None => {
            return None;
        },
    };
    let mut canonical = String::new();
    append_padded(&mut canonical, value, 6);
    if text_equal(canonical.as_str(), middle) {
        Some(value as u32)
    } else {
        None
    }
}

/// Joins a relative path to the root. An absolute path and a path with a `..` component are
/// rejected.
pub fn resolve(root: &str, rel: &str) -> (path: Result<String, MnemeError>)
    ensures
        match path {
            Ok(p) => stays_below(rel@) && p@ == joined(root@, rel@),
            Err(e) => !stays_below(rel@) && e == (MnemeError::Config {
                reason: ConfigFault::UnsafePath,
            }),
        },
{
    let unsafe_path = MnemeError::Config { reason: ConfigFault::UnsafePath };
    let chars = chars_of(rel);
    if chars.len() > 0 && chars[0] == '/' {
        return Err(unsafe_path);
    }
    let mut at: usize = 0;
    while at < chars.len()
        invariant
            at <= chars.len(),
            chars@ == rel@,
            unsafe_path == (MnemeError::Config { reason: ConfigFault::UnsafePath }),
            forall|k: int| 0 <= k < at ==> !#[trigger] parent_component_at(rel@, k),
        decreases chars.len() - at,
    {
        if chars.len() - at >= 2 && chars[at] == '.' && chars[at + 1] == '.' && (at == 0
            || chars[at - 1] == '/') && (at + 2 == chars.len() || chars[at + 2] == '/') {
            assert(parent_component_at(rel@, at as int));
            return Err(unsafe_path);
        }
        at = at + 1;
    }
    let base = chars_of(root);
    let mut path = String::from_str(root);
    if base.len() > 0 && base[base.len() - 1] != '/' {
        path.append("/");
    }
    path.append(rel);
    Ok(path)
}

/// A path whose dots never stand next to each other has no `..` component.
proof fn lemma_single_dots(rel: Seq<char>)
    requires
        rel.len() > 0,
        rel[0] != '/',
        forall|i: int| 0 <= i < rel.len() - 1 ==> !(#[trigger] rel[i] == '.' && rel[i + 1] == '.'),
    ensures
        stays_below(rel),
{
    assert forall|at: int| !#[trigger] parent_component_at(rel, at) by {
        if parent_component_at(rel, at) {
            assert(rel[at] == '.' && rel[at + 1] == '.');
        }
    }
}

/// Every path that the library builds stays below its root.
pub proof fn library_paths_stay_below(file: SegmentFile, segment_id: u32, index: u32, version: u64)
    ensures
        stays_below(segment_path(file, segment_id)),
        stays_below(wal_path(index)),
        stays_below(manifest_file(version)),
        stays_below(CURRENT_FILE@),
        stays_below(WAL_DIR@),
        stays_below(SEGMENTS_DIR@),
        stays_below(TRASH_DIR@),
        stays_below(Seq::<char>::empty()),
{
    reveal_strlit("segments");
    reveal_strlit("wal");
    reveal_strlit("trash");
    reveal_strlit("current");
    reveal_strlit("MANIFEST.");
    reveal_strlit("/");
    reveal_strlit("seg_");
    reveal_strlit("wal_");
    reveal_strlit(".log");
    reveal_strlit(".vsec");
    reveal_strlit(".msec");
    reveal_strlit(".hidx");
    lemma_padded(segment_id as nat, 6);
    lemma_padded(index as nat, 6);
    lemma_padded(version as nat, 6);
    let s = segment_path(file, segment_id);
    let digits_s = padded(segment_id as nat, 6);
    assert forall|i: int| 0 <= i < s.len() - 1 implies !(#[trigger] s[i] == '.' && s[i + 1]
        == '.') by {
        if 13 <= i < 13 + digits_s.len() {
            assert(s[i] == digits_s[i - 13]);
        }
    }
    lemma_single_dots(s);
    let w = wal_path(index);
    let digits_w = padded(index as nat, 6);
    assert forall|i: int| 0 <= i < w.len() - 1 implies !(#[trigger] w[i] == '.' && w[i + 1]
        == '.') by {
        if 8 <= i < 8 + digits_w.len() {
            assert(w[i] == digits_w[i - 8]);
        }
    }
    lemma_single_dots(w);
    let m = manifest_file(version);
    let digits_m = padded(version as nat, 6);
    assert forall|i: int| 0 <= i < m.len() - 1 implies !(#[trigger] m[i] == '.' && m[i + 1]
        == '.') by {
        if i >= 8 {
            assert(m[i + 1] == digits_m[i + 1 - 9]);
        }
    }
    lemma_single_dots(m);
    lemma_single_dots(CURRENT_FILE@);
    lemma_single_dots(WAL_DIR@);
    lemma_single_dots(SEGMENTS_DIR@);
    lemma_single_dots(TRASH_DIR@);
    assert forall|at: int| !#[trigger] parent_component_at(Seq::<char>::empty(), at) by {}
}

/// A file name without a separator stays below the directory it lies in, unless it is `..`.
pub proof fn named_path_stays_below(dir: Seq<char>, name: Seq<char>)
    requires
        stays_below(dir),
        dir.len() > 0,
        !name.contains('/'),
        !(name.len() == 2 && name[0] == '.' && name[1] == '.'),
    ensures
        stays_below(dir + "/"@ + name),
{
    reveal_strlit("/");
    let path = dir + "/"@ + name;
    let n = dir.len() as int;
    assert(path[n] == '/');
    assert forall|at: int| !#[trigger] parent_component_at(path, at) by {
        if parent_component_at(path, at) {
            if at + 2 <= n {
                assert(dir[at] == path[at] && dir[at + 1] == path[at + 1]);
                assert(at == 0 || dir[at - 1] == path[at - 1]);
                assert(at + 2 == n || dir[at + 2] == path[at + 2]);
                assert(parent_component_at(dir, at));
            } else if at > n {
                let k = at - n - 1;
                assert(name[k] == path[at] && name[k + 1] == path[at + 1]);
                if k > 0 {
                    assert(name[k - 1] == path[at - 1]);
                    assert(name.contains('/'));
                }
                if k + 2 < name.len() {
                    assert(name[k + 2] == path[at + 2]);
                    assert(name.contains('/'));
                }
            }
        }
    }
}

/// A manifest name gives back the version it was made from, for every version.
pub proof fn manifest_name_round_trip(version: u64)
    ensures
        manifest_version_of(manifest_file(version)) == Some(version),
{
    lemma_padded(version as nat, 6);
    let tail = padded(version as nat, 6);
    assert(manifest_file(version).take(MANIFEST_PREFIX@.len() as int) =~= MANIFEST_PREFIX@);
    assert(manifest_file(version).skip(MANIFEST_PREFIX@.len() as int) =~= tail);
    assert(crate::text::is_digit(tail[0]));
    assert(unsigned_part(tail) == tail);
}

/// Two manifest versions never share a name.
pub proof fn manifest_names_differ(a: u64, b: u64)
    requires
        a != b,
    ensures
        manifest_file(a) != manifest_file(b),
{
    manifest_name_round_trip(a);
    manifest_name_round_trip(b);
}

/// Two segments never share a file, and neither do two files of one segment.
pub proof fn segment_paths_differ(f: SegmentFile, a: u32, g: SegmentFile, b: u32)
    requires
        f != g || a != b,
    ensures
        segment_path(f, a) != segment_path(g, b),
{
    reveal_strlit(".vsec");
    reveal_strlit(".msec");
    reveal_strlit(".hidx");
    lemma_padded(a as nat, 6);
    lemma_padded(b as nat, 6);
    if segment_path(f, a) == segment_path(g, b) {
        let head = SEGMENTS_DIR@ + "/"@;
        let p = segment_path(f, a);
        let q = segment_path(g, b);
        assert(p.skip(p.len() - 5) =~= segment_suffix(f));
        assert(q.skip(q.len() - 5) =~= segment_suffix(g));
        assert(segment_suffix(f)[1] == segment_suffix(g)[1]);
        assert(f == g);
        let start = (head.len() + "seg_"@.len()) as int;
        assert(p.subrange(start, p.len() - 5) =~= padded(a as nat, 6));
        assert(q.subrange(start, q.len() - 5) =~= padded(b as nat, 6));
    }
}

proof fn lemma_million()
    ensures
        power_of_ten(6) == 1_000_000,
{
    reveal_with_fuel(power_of_ten, 7);
}

/// A name is made of its beginning, its middle and its ending.
proof fn lemma_wal_name_parts(name: Seq<char>)
    requires
        wal_middle(name) is Some,
    ensures
        name == "wal_"@ + wal_middle(name)->Some_0 + ".log"@,
{
    reveal_strlit("wal_");
    reveal_strlit(".log");
    let middle = name.skip(4).take(name.len() - 8);
    assert(name.take(4) =~= "wal_"@);
    assert(name.skip(4).skip(name.skip(4).len() - 4) =~= name.skip(name.len() - 4));
    assert forall|i: int| 0 <= i < name.len() implies name[i] == (("wal_"@ + middle
        + ".log"@))[i] by {
        if i < 4 {
            assert(name[i] == name.take(4)[i]);
        } else if i >= name.len() - 4 {
            assert(name[i] == name.skip(name.len() - 4)[i - (name.len() - 4)]);
        }
    }
    assert(name =~= "wal_"@ + middle + ".log"@);
}

proof fn lemma_wal_file_middle(index: u32)
    ensures
        is_wal_name(wal_file(index)),
        wal_middle(wal_file(index)) == Some(padded(index as nat, 6)),
{
    reveal_strlit("wal_");
    reveal_strlit(".log");
    lemma_padded(index as nat, 6);
    let name = wal_file(index);
    assert(name.take(4) =~= "wal_"@);
    assert(name.skip(name.len() - 4) =~= ".log"@);
    assert(name.skip(4).skip(name.skip(4).len() - 4) =~= ".log"@);
    assert(name.skip(4).take(name.len() - 8) =~= padded(index as nat, 6));
}

/// Reading the index inverts naming for every index of at most six digits, and no second spelling
/// of an index is accepted.
pub proof fn wal_index_inverts_naming(name: Seq<char>, index: u32)
    ensures
        strict_wal_index(name) == Some(index) <==> index <= 999_999 && wal_file(index) == name,
{
    lemma_million();
    lemma_padded(index as nat, 6);
    if strict_wal_index(name) == Some(index) {
        let middle = wal_middle(name)->Some_0;
        lemma_value_bound(middle);
        lemma_digits_len(index as nat, 1_000_000, 6);
        lemma_digits_unique(middle, padded(index as nat, 6));
        lemma_wal_name_parts(name);
    }
    if index <= 999_999 && wal_file(index) == name {
        lemma_wal_file_middle(index);
        lemma_digits_len(index as nat, 1_000_000, 6);
    }
}

/// The number of a log file comes back from its name, whatever its width.
pub proof fn wal_name_round_trip(index: u32)
    ensures
        is_wal_name(wal_file(index)),
        wal_number_of(wal_file(index)) == Some(index),
{
    lemma_padded(index as nat, 6);
    lemma_wal_file_middle(index);
}

/// A log file that has a number has the name of that number.
pub proof fn wal_number_fixes_name(name: Seq<char>)
    requires
        wal_number_of(name) is Some,
    ensures
        name == wal_file(wal_number_of(name)->Some_0),
{
    lemma_wal_name_parts(name);
}

/// Two log files never share a path, and none has the path of the temporary file of another.
pub proof fn lemma_wal_paths_apart(a: u32, b: u32)
    ensures
        a != b ==> wal_path(a) != wal_path(b),
        wal_path(a) != crate::storage::temporary_of(wal_path(b)),
{
    reveal_strlit(".log");
    reveal_strlit(".tmp");
    lemma_padded(a as nat, 6);
    lemma_padded(b as nat, 6);
    let x = wal_path(a);
    let y = wal_path(b);
    let start = (WAL_DIR@ + "/"@ + "wal_"@).len() as int;
    if x == y {
        assert(x.subrange(start, x.len() - 4) =~= padded(a as nat, 6));
        assert(y.subrange(start, y.len() - 4) =~= padded(b as nat, 6));
    }
    let t = crate::storage::temporary_of(y);
    assert(x[x.len() - 1] == 'g');
    assert(t[t.len() - 1] == 'p');
}

/// A path that `resolve` accepts keeps the root in front and adds nothing but the path itself.
pub proof fn resolved_path_stays_below(root: Seq<char>, rel: Seq<char>)
    requires
        stays_below(rel),
    ensures
        has_prefix(joined(root, rel), root),
        has_suffix(joined(root, rel), rel),
{
    let path = joined(root, rel);
    assert(path.take(root.len() as int) =~= root);
    assert(path.skip(path.len() - rel.len()) =~= rel);
}

/// A file of a segment is told by the end of its name: vectors, metadata and graphs each have their
/// own.
pub proof fn segment_files_are_told_by_their_end(file: SegmentFile, segment_id: u32)
    ensures
        has_suffix(segment_file(file, segment_id), ".vsec"@) <==> file is Vsec,
        has_suffix(segment_file(file, segment_id), ".msec"@) <==> file is Msec,
        has_suffix(segment_file(file, segment_id), ".hidx"@) <==> file is Hidx,
        has_prefix(segment_file(file, segment_id), "seg_"@),
{
    reveal_strlit(".vsec");
    reveal_strlit(".msec");
    reveal_strlit(".hidx");
    let name = segment_file(file, segment_id);
    let end = name.skip(name.len() - 5);
    assert(end =~= segment_suffix(file));
    assert(".vsec"@[1] != ".msec"@[1]);
    assert(".vsec"@[1] != ".hidx"@[1]);
    assert(".msec"@[1] != ".hidx"@[1]);
    assert(name.take("seg_"@.len() as int) =~= "seg_"@);
}

} // verus!
