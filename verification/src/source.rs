//! Segment files that are open for reading.

use vstd::prelude::*;

use crate::crc::{crc32, crc32_of};
use crate::error::{Fault, IoFault, MnemeError, SegmentFile};
use crate::layout::{library_paths_stay_below, segment_path, segment_rel};
use crate::manifest::{Manifest, SegmentEntry};
use crate::storage::{
    failures_of, given_by, not_found, prefix_of, FailureSet, FileMap, RawBytes, Storage,
};

verus! {

/// A segment file that is open for reading. Segment files are written once; whoever holds one can
/// read it, whatever becomes of its directory entry.
pub struct ByteFile {
    segment_id: u32,
    raw: RawBytes,
}

impl ByteFile {
    /// The segment that the file belongs to.
    pub closed spec fn number(&self) -> u32 {
        self.segment_id
    }

    /// The bytes of the file.
    pub closed spec fn bytes(&self) -> Seq<u8> {
        self.raw.bytes()
    }

    /// A file of the given bytes.
    pub fn from_bytes(segment_id: u32, bytes: Vec<u8>) -> (file: Self)
        ensures
            file.number() == segment_id,
            file.bytes() == bytes@,
    {
        ByteFile { segment_id, raw: RawBytes::Owned(bytes) }
    }

    /// The length of the file.
    pub fn len(&self) -> (count: usize)
        ensures
            count == self.bytes().len(),
    {
        self.raw.len()
    }

    /// The length of the file.
    pub fn byte_len(&self) -> (count: usize)
        ensures
            count == self.bytes().len(),
    {
        self.raw.len()
    }

    /// The segment that the file belongs to.
    pub fn segment_id(&self) -> (id: u32)
        ensures
            id == self.number(),
    {
        self.segment_id
    }

    /// A part of the file; `None`, where the file ends before it does.
    pub fn slice_at(&self, offset: usize, len: usize) -> (part: Option<&[u8]>)
        ensures
            match part {
                Some(slice) => offset + len <= self.bytes().len() && slice@
                    == self.bytes().subrange(offset as int, offset + len),
                None => offset + len > self.bytes().len(),
            },
    {
        let bytes = self.raw.as_slice();
        match offset.checked_add(len) {
            Some(end) => {
                if end <= bytes.len() {
                    Some(vstd::slice::slice_subrange(bytes, offset, end))
                } else {
                    None
                }
            },
            None => {
                assert(bytes@.len() == bytes.len());
                None
            },
        }
    }

    /// The whole file.
    pub fn as_slice(&self) -> (slice: &[u8])
        ensures
            slice@ == self.bytes(),
    {
        self.raw.as_slice()
    }

    /// Opens a file of a segment. A file that begins with `magic` is sealed: `unseal` gives its
    /// bytes in the clear.
    pub fn open<S: Storage, U: Fn(SegmentFile, u32, Vec<u8>) -> Result<Vec<u8>, MnemeError>>(
        storage: &S,
        file: SegmentFile,
        segment_id: u32,
        magic: &[u8],
        unseal: &U,
    ) -> (result: Result<ByteFile, MnemeError>)
        requires
            storage.wf(),
            forall|raw: Vec<u8>| unseal.requires((file, segment_id, raw)),
        ensures
            is_opening(storage.files(), file, segment_id, magic@, *unseal, failures_of(*storage), result),
    {
        proof {
            library_paths_stay_below(file, segment_id, 0, 0);
        }
        let rel = segment_rel(file, segment_id);
        let head = match storage.read_prefix(rel.as_str(), magic.len()) {
            Ok(head) => head,
            Err(error) => {
                return Err(error);
            },
        };
        if same_bytes(head.as_slice(), magic) {
            let sealed = match storage.read_file(rel.as_str()) {
                Ok(bytes) => bytes,
                Err(error) => {
                    return Err(error);
                },
            };
            let ghost raw = sealed;
            let opened = unseal(file, segment_id, sealed);
            assert(unseals(*unseal, file, segment_id, raw@, opened)) by {
                assert(unseal.ensures((file, segment_id, raw), opened));
            }
            match opened {
                Ok(plain) => Ok(ByteFile::from_bytes(segment_id, plain)),
                Err(error) => Err(error),
            }
        } else {
            match storage.open_bytes(rel.as_str()) {
                Ok(raw) => Ok(ByteFile { segment_id, raw }),
                Err(error) => Err(error),
            }
        }
    }
}

/// Compares two runs of bytes.
fn same_bytes(a: &[u8], b: &[u8]) -> (same: bool)
    ensures
        same == (a@ == b@),
{
    if a.len() != b.len() {
        return false;
    }
    let mut i: usize = 0;
    while i < a.len()
        invariant
            a@.len() == b@.len(),
            i <= a@.len(),
            forall|k: int| 0 <= k < i ==> a@[k] == b@[k],
        decreases a@.len() - i,
    {
        if a[i] != b[i] {
            return false;
        }
        i = i + 1;
    }
    assert(a@ =~= b@);
    true
}

/// Whether `unseal` may make this of the sealed bytes of a file.
pub open spec fn unseals<U: Fn(SegmentFile, u32, Vec<u8>) -> Result<Vec<u8>, MnemeError>>(
    unseal: U,
    file: SegmentFile,
    segment_id: u32,
    sealed: Seq<u8>,
    opened: Result<Vec<u8>, MnemeError>,
) -> bool {
    exists|raw: Vec<u8>| raw@ == sealed && #[trigger] unseal.ensures(
        (file, segment_id, raw),
        opened,
    )
}

/// Whether bytes begin with the mark of sealed files.
pub open spec fn is_sealed(bytes: Seq<u8>, magic: Seq<u8>) -> bool {
    prefix_of(bytes, magic.len()) == magic
}

/// What opening a file of a segment may come to.
pub open spec fn is_opening<U: Fn(SegmentFile, u32, Vec<u8>) -> Result<Vec<u8>, MnemeError>>(
    files: FileMap,
    file: SegmentFile,
    segment_id: u32,
    magic: Seq<u8>,
    unseal: U,
    failures: FailureSet,
    result: Result<ByteFile, MnemeError>,
) -> bool {
    let path = segment_path(file, segment_id);
    match result {
        Ok(opened) => {
            &&& files.dom().contains(path)
            &&& opened.number() == segment_id
            &&& if is_sealed(files[path], magic) {
                exists|plain: Vec<u8>| plain@ == opened.bytes() && #[trigger] unseals(
                    unseal,
                    file,
                    segment_id,
                    files[path],
                    Ok(plain),
                )
            } else {
                opened.bytes() == files[path]
            }
        },
        Err(error) => {
            ||| given_by(failures, error)
            ||| !files.dom().contains(path) && error == not_found()
            ||| files.dom().contains(path) && is_sealed(files[path], magic) && unseals(
                unseal,
                file,
                segment_id,
                files[path],
                Err(error),
            )
        },
    }
}

/// Reads `len` bytes from an offset: all of them or none.
pub fn read_at(bytes: &[u8], off: u64, len: usize) -> (result: Result<Vec<u8>, MnemeError>)
    ensures
        match result {
            Ok(part) => off + len <= bytes@.len() && part@ == bytes@.subrange(
                off as int,
                off + len,
            ),
            Err(error) => off + len > bytes@.len() && error == MnemeError::Io(
                if off + len > usize::MAX {
                    IoFault::InvalidInput
                } else {
                    IoFault::UnexpectedEof
                },
            ),
        },
{
    assert(bytes@.len() == bytes.len());
    if off > usize::MAX as u64 {
        return Err(MnemeError::Io(IoFault::InvalidInput));
    }
    let start: usize = off as usize;
    let end: usize = match start.checked_add(len) {
        Some(end) => end,
        None => {
            return Err(MnemeError::Io(IoFault::InvalidInput));
        },
    };
    if end > bytes.len() {
        return Err(MnemeError::Io(IoFault::UnexpectedEof));
    }
    Ok(vstd::slice::slice_to_vec(vstd::slice::slice_subrange(bytes, start, end)))
}

/// What becomes of a file that the manifest requires: a file that is missing or empty is
/// corruption.
pub open spec fn required_outcome(
    opened: Result<ByteFile, MnemeError>,
    file: SegmentFile,
    segment_id: u32,
) -> Result<ByteFile, MnemeError> {
    match opened {
        Ok(bytes) => if bytes.bytes().len() > 0 {
            Ok(bytes)
        } else {
            Err(
                MnemeError::Corrupted {
                    segment: Some(segment_id),
                    reason: Fault::SegmentFileEmpty { file, segment_id },
                },
            )
        },
        Err(error) => if error == not_found() {
            Err(
                MnemeError::Corrupted {
                    segment: Some(segment_id),
                    reason: Fault::SegmentFileMissing { file, segment_id },
                },
            )
        } else {
            Err(error)
        },
    }
}

/// Opens a file that the manifest requires.
pub fn open_required<S: Storage, U: Fn(SegmentFile, u32, Vec<u8>) -> Result<Vec<u8>, MnemeError>>(
    storage: &S,
    file: SegmentFile,
    segment_id: u32,
    magic: &[u8],
    unseal: &U,
) -> (result: Result<ByteFile, MnemeError>)
    requires
        storage.wf(),
        forall|raw: Vec<u8>| unseal.requires((file, segment_id, raw)),
    ensures
        exists|opened: Result<ByteFile, MnemeError>| #[trigger]
            is_opening(
                storage.files(),
                file,
                segment_id,
                magic@,
                *unseal,
                failures_of(*storage),
                opened,
            ) && result == required_outcome(opened, file, segment_id),
{
    let opened = ByteFile::open(storage, file, segment_id, magic, unseal);
    let ghost seen = opened;
    assert(is_opening(
        storage.files(),
        file,
        segment_id,
        magic@,
        *unseal,
        failures_of(*storage),
        seen,
    ));
    match opened {
        Ok(bytes) => {
            if bytes.len() > 0 {
                Ok(bytes)
            } else {
                Err(
                    MnemeError::Corrupted {
                        segment: Some(segment_id),
                        reason: Fault::SegmentFileEmpty { file, segment_id },
                    },
                )
            }
        },
        Err(error) => match error {
            MnemeError::Io(IoFault::NotFound) => Err(
                MnemeError::Corrupted {
                    segment: Some(segment_id),
                    reason: Fault::SegmentFileMissing { file, segment_id },
                },
            ),
            _ => Err(error),
        },
    }
}

/// What becomes of the graph file of a segment. The graph speeds queries up and holds no data of
/// its own: where it is missing or damaged, the segment is used without it, unless corruption is
/// to be reported at once.
pub open spec fn optional_outcome(
    opened: Result<ByteFile, MnemeError>,
    segment_id: u32,
    expected_crc: u32,
    fail_fast: bool,
) -> Result<Option<ByteFile>, MnemeError> {
    match opened {
        Ok(bytes) => if crc32_of(bytes.bytes()) == expected_crc {
            Ok(Some(bytes))
        } else if fail_fast {
            Err(
                MnemeError::Corrupted { segment: Some(segment_id), reason: Fault::HidxCrcMismatch },
            )
        } else {
            Ok(None)
        },
        Err(error) => if error != not_found() {
            Err(error)
        } else if fail_fast {
            Err(
                MnemeError::Corrupted {
                    segment: Some(segment_id),
                    reason: Fault::SegmentFileMissing { file: SegmentFile::Hidx, segment_id },
                },
            )
        } else {
            Ok(None)
        },
    }
}

/// Opens the graph file of a segment. A checksum of 0 stands for a segment without one.
pub fn open_optional<S: Storage, U: Fn(SegmentFile, u32, Vec<u8>) -> Result<Vec<u8>, MnemeError>>(
    storage: &S,
    segment_id: u32,
    expected_crc: u32,
    fail_fast: bool,
    magic: &[u8],
    unseal: &U,
) -> (result: Result<Option<ByteFile>, MnemeError>)
    requires
        storage.wf(),
        forall|raw: Vec<u8>| unseal.requires((SegmentFile::Hidx, segment_id, raw)),
    ensures
        expected_crc == 0 ==> result == Ok::<Option<ByteFile>, MnemeError>(None),
        expected_crc != 0 ==> exists|opened: Result<ByteFile, MnemeError>| #[trigger]
            is_opening(
                storage.files(),
                SegmentFile::Hidx,
                segment_id,
                magic@,
                *unseal,
                failures_of(*storage),
                opened,
            ) && result == optional_outcome(opened, segment_id, expected_crc, fail_fast),
{
    if expected_crc == 0 {
        return Ok(None);
    }
    let opened = ByteFile::open(storage, SegmentFile::Hidx, segment_id, magic, unseal);
    let ghost seen = opened;
    assert(is_opening(
        storage.files(),
        SegmentFile::Hidx,
        segment_id,
        magic@,
        *unseal,
        failures_of(*storage),
        seen,
    ));
    match opened {
        Ok(bytes) => {
            if crc32(bytes.as_slice()) == expected_crc {
                return Ok(Some(bytes));
            }
            if fail_fast {
                Err(
                    MnemeError::Corrupted {
                        segment: Some(segment_id),
                        reason: Fault::HidxCrcMismatch,
                    },
                )
            } else {
                Ok(None)
            }
        },
        Err(error) => match error {
            MnemeError::Io(IoFault::NotFound) => {
                if fail_fast {
                    Err(
                        MnemeError::Corrupted {
                            segment: Some(segment_id),
                            reason: Fault::SegmentFileMissing {
                                file: SegmentFile::Hidx,
                                segment_id,
                            },
                        },
                    )
                } else {
                    Ok(None)
                }
            },
            _ => Err(error),
        },
    }
}

/// The open files of a segment.
pub struct SegmentHandle {
    pub segment_id: u32,
    pub vsec: ByteFile,
    pub msec: ByteFile,
    /// The graph file, where the segment has one that can be used.
    pub hidx: Option<ByteFile>,
}

/// What opening the three files of a segment comes to.
pub open spec fn handle_outcome(
    vsec: Result<ByteFile, MnemeError>,
    msec: Result<ByteFile, MnemeError>,
    hidx: Result<Option<ByteFile>, MnemeError>,
    segment_id: u32,
) -> Result<SegmentHandle, MnemeError> {
    match (vsec, msec, hidx) {
        (Err(error), _, _) => Err(error),
        (Ok(_), Err(error), _) => Err(error),
        (Ok(_), Ok(_), Err(error)) => Err(error),
        (Ok(vsec), Ok(msec), Ok(hidx)) => Ok(SegmentHandle { segment_id, vsec, msec, hidx }),
    }
}

/// Whether a file that the manifest requires may be opened with this result.
pub open spec fn opens_required<U: Fn(SegmentFile, u32, Vec<u8>) -> Result<Vec<u8>, MnemeError>>(
    files: FileMap,
    file: SegmentFile,
    segment_id: u32,
    magic: Seq<u8>,
    unseal: U,
    failures: FailureSet,
    result: Result<ByteFile, MnemeError>,
) -> bool {
    exists|opened: Result<ByteFile, MnemeError>| #[trigger]
        is_opening(files, file, segment_id, magic, unseal, failures, opened) && result
            == required_outcome(opened, file, segment_id)
}

/// Whether a graph file may be opened with this result.
pub open spec fn opens_optional<U: Fn(SegmentFile, u32, Vec<u8>) -> Result<Vec<u8>, MnemeError>>(
    files: FileMap,
    segment_id: u32,
    expected_crc: u32,
    fail_fast: bool,
    magic: Seq<u8>,
    unseal: U,
    failures: FailureSet,
    result: Result<Option<ByteFile>, MnemeError>,
) -> bool {
    if expected_crc == 0 {
        result == Ok::<Option<ByteFile>, MnemeError>(None)
    } else {
        exists|opened: Result<ByteFile, MnemeError>| #[trigger]
            is_opening(files, SegmentFile::Hidx, segment_id, magic, unseal, failures, opened)
                && result == optional_outcome(opened, segment_id, expected_crc, fail_fast)
    }
}

/// Whether the files of a segment may be opened with this result.
pub open spec fn opens_segment<U: Fn(SegmentFile, u32, Vec<u8>) -> Result<Vec<u8>, MnemeError>>(
    files: FileMap,
    entry: SegmentEntry,
    fail_fast: bool,
    magic: Seq<u8>,
    unseal: U,
    failures: FailureSet,
    result: Result<SegmentHandle, MnemeError>,
) -> bool {
    exists|
        vsec: Result<ByteFile, MnemeError>,
        msec: Result<ByteFile, MnemeError>,
        hidx: Result<Option<ByteFile>, MnemeError>,
    |
        opens_required(
            files,
            SegmentFile::Vsec,
            entry.segment_id,
            magic,
            unseal,
            failures,
            vsec,
        ) && (vsec is Ok ==> opens_required(
            files,
            SegmentFile::Msec,
            entry.segment_id,
            magic,
            unseal,
            failures,
            msec,
        )) && (vsec is Ok && msec is Ok ==> opens_optional(
            files,
            entry.segment_id,
            entry.hidx_crc,
            fail_fast,
            magic,
            unseal,
            failures,
            hidx,
        )) && result == #[trigger] handle_outcome(vsec, msec, hidx, entry.segment_id)
}

impl SegmentHandle {
    /// Opens the files of a segment of the manifest.
    pub fn open<S: Storage, U: Fn(SegmentFile, u32, Vec<u8>) -> Result<Vec<u8>, MnemeError>>(
        storage: &S,
        entry: &SegmentEntry,
        fail_fast: bool,
        magic: &[u8],
        unseal: &U,
    ) -> (result: Result<SegmentHandle, MnemeError>)
        requires
            storage.wf(),
            forall|file: SegmentFile, raw: Vec<u8>|
                unseal.requires((file, entry.segment_id, raw)),
        ensures
            opens_segment(
                storage.files(),
                *entry,
                fail_fast,
                magic@,
                *unseal,
                failures_of(*storage),
                result,
            ),
            result matches Ok(handle) ==> handle.segment_id == entry.segment_id
                && handle.vsec.bytes().len() > 0 && handle.msec.bytes().len() > 0,
    {
        let id: u32 = entry.segment_id;
        let ghost skipped = Err::<ByteFile, MnemeError>(MnemeError::Io(IoFault::Other));
        let ghost unread = Err::<Option<ByteFile>, MnemeError>(MnemeError::Io(IoFault::Other));
        let first = open_required(storage, SegmentFile::Vsec, id, magic, unseal);
        let ghost first_seen = first;
        let vsec = match first {
            Ok(vsec) => vsec,
            Err(error) => {
                assert(handle_outcome(first_seen, skipped, unread, id) == Err::<
                    SegmentHandle,
                    MnemeError,
                >(error));
                return Err(error);
            },
        };
        let second = open_required(storage, SegmentFile::Msec, id, magic, unseal);
        let ghost second_seen = second;
        let msec = match second {
            Ok(msec) => msec,
            Err(error) => {
                assert(handle_outcome(first_seen, second_seen, unread, id) == Err::<
                    SegmentHandle,
                    MnemeError,
                >(error));
                return Err(error);
            },
        };
        let third = open_optional(storage, id, entry.hidx_crc, fail_fast, magic, unseal);
        let ghost third_seen = third;
        match third {
            Ok(hidx) => {
                let handle = SegmentHandle { segment_id: id, vsec, msec, hidx };
                assert(handle_outcome(first_seen, second_seen, third_seen, id) == Ok::<
                    SegmentHandle,
                    MnemeError,
                >(handle));
                Ok(handle)
            },
            Err(error) => {
                assert(handle_outcome(first_seen, second_seen, third_seen, id) == Err::<
                    SegmentHandle,
                    MnemeError,
                >(error));
                Err(error)
            },
        }
    }

    /// The bytes of the vector file.
    pub fn vsec_bytes(&self) -> (result: Result<&[u8], MnemeError>)
        ensures
            result matches Ok(slice) && slice@ == self.vsec.bytes(),
    {
        match self.vsec.slice_at(0, self.vsec.len()) {
            Some(slice) => {
                assert(slice@ =~= self.vsec.bytes());
                Ok(slice)
            },
            None => Err(
                MnemeError::Corrupted {
                    segment: Some(self.segment_id),
                    reason: Fault::HandleSlice { file: SegmentFile::Vsec },
                },
            ),
        }
    }

    /// The bytes of the metadata file.
    pub fn msec_bytes(&self) -> (result: Result<&[u8], MnemeError>)
        ensures
            result matches Ok(slice) && slice@ == self.msec.bytes(),
    {
        match self.msec.slice_at(0, self.msec.len()) {
            Some(slice) => {
                assert(slice@ =~= self.msec.bytes());
                Ok(slice)
            },
            None => Err(
                MnemeError::Corrupted {
                    segment: Some(self.segment_id),
                    reason: Fault::HandleSlice { file: SegmentFile::Msec },
                },
            ),
        }
    }
}

/// Whether the segments before the first that cannot be opened may be opened as these handles, and
/// that one fails with this error.
pub open spec fn opening_stops<U: Fn(SegmentFile, u32, Vec<u8>) -> Result<Vec<u8>, MnemeError>>(
    files: FileMap,
    segments: Seq<SegmentEntry>,
    fail_fast: bool,
    magic: Seq<u8>,
    unseal: U,
    failures: FailureSet,
    handles: Seq<SegmentHandle>,
    error: MnemeError,
) -> bool {
    &&& handles.len() < segments.len()
    &&& forall|i: int|
        0 <= i < handles.len() ==> opens_segment(
            files,
            segments[i],
            fail_fast,
            magic,
            unseal,
            failures,
            Ok(#[trigger] handles[i]),
        )
    &&& opens_segment(
        files,
        segments[handles.len() as int],
        fail_fast,
        magic,
        unseal,
        failures,
        Err(error),
    )
}

/// Opens the files of every segment of a manifest, in its order, up to the first that cannot be
/// opened.
pub fn open_segment_handles<
    S: Storage,
    U: Fn(SegmentFile, u32, Vec<u8>) -> Result<Vec<u8>, MnemeError>,
>(storage: &S, manifest: &Manifest, fail_fast: bool, magic: &[u8], unseal: &U) -> (result: Result<
    Vec<SegmentHandle>,
    MnemeError,
>)
    requires
        storage.wf(),
        forall|file: SegmentFile, id: u32, raw: Vec<u8>| unseal.requires((file, id, raw)),
    ensures
        match result {
            Ok(handles) => handles@.len() == manifest.segments@.len() && forall|i: int|
                0 <= i < handles@.len() ==> opens_segment(
                    storage.files(),
                    manifest.segments@[i],
                    fail_fast,
                    magic@,
                    *unseal,
                    failures_of(*storage),
                    Ok(#[trigger] handles@[i]),
                ) && handles@[i].segment_id == manifest.segments@[i].segment_id,
            Err(error) => exists|handles: Seq<SegmentHandle>| #[trigger]
                opening_stops(
                    storage.files(),
                    manifest.segments@,
                    fail_fast,
                    magic@,
                    *unseal,
                    failures_of(*storage),
                    handles,
                    error,
                ),
        },
{
    let mut handles: Vec<SegmentHandle> = Vec::new();
    let mut i: usize = 0;
    while i < manifest.segments.len()
        invariant
            storage.wf(),
            forall|file: SegmentFile, id: u32, raw: Vec<u8>| unseal.requires((file, id, raw)),
            i <= manifest.segments@.len(),
            handles@.len() == i,
            forall|k: int|
                0 <= k < i ==> opens_segment(
                    storage.files(),
                    manifest.segments@[k],
                    fail_fast,
                    magic@,
                    *unseal,
                    failures_of(*storage),
                    Ok(#[trigger] handles@[k]),
                ) && handles@[k].segment_id == manifest.segments@[k].segment_id,
        decreases manifest.segments@.len() - i,
    {
        match SegmentHandle::open(storage, &manifest.segments[i], fail_fast, magic, unseal) {
            Ok(handle) => {
                handles.push(handle);
            },
            Err(error) => {
                assert(opening_stops(
                    storage.files(),
                    manifest.segments@,
                    fail_fast,
                    magic@,
                    *unseal,
                    failures_of(*storage),
                    handles@,
                    error,
                ));
                return Err(error);
            },
        }
        i = i + 1;
    }
    Ok(handles)
}

/// A segment of the manifest whose vector file is missing is never passed over. Where the backend
/// does not fail, it is reported as missing.
pub proof fn missing_segment_is_reported<
    U: Fn(SegmentFile, u32, Vec<u8>) -> Result<Vec<u8>, MnemeError>,
>(
    files: FileMap,
    entry: SegmentEntry,
    fail_fast: bool,
    magic: Seq<u8>,
    unseal: U,
    failures: FailureSet,
    result: Result<SegmentHandle, MnemeError>,
)
    requires
        !files.dom().contains(segment_path(SegmentFile::Vsec, entry.segment_id)),
        opens_segment(files, entry, fail_fast, magic, unseal, failures, result),
    ensures
        result is Err,
        failures == FailureSet::empty() ==> result == Err::<SegmentHandle, MnemeError>(
            MnemeError::Corrupted {
                segment: Some(entry.segment_id),
                reason: Fault::SegmentFileMissing {
                    file: SegmentFile::Vsec,
                    segment_id: entry.segment_id,
                },
            },
        ),
{
}

/// A segment that opens is whole: neither its vectors nor its metadata are empty, and a graph that
/// it comes with has the checksum that the manifest states. Where damage is to be reported at once,
/// a segment that is stated to have a graph comes with it. A file that is not sealed is read as it
/// stands.
pub proof fn opened_segment_is_whole<
    U: Fn(SegmentFile, u32, Vec<u8>) -> Result<Vec<u8>, MnemeError>,
>(
    files: FileMap,
    entry: SegmentEntry,
    fail_fast: bool,
    magic: Seq<u8>,
    unseal: U,
    failures: FailureSet,
    handle: SegmentHandle,
)
    requires
        opens_segment(files, entry, fail_fast, magic, unseal, failures, Ok(handle)),
    ensures
        handle.segment_id == entry.segment_id,
        handle.vsec.bytes().len() > 0,
        handle.msec.bytes().len() > 0,
        handle.hidx matches Some(graph) ==> entry.hidx_crc != 0 && crc32_of(graph.bytes())
            == entry.hidx_crc,
        fail_fast && entry.hidx_crc != 0 ==> handle.hidx is Some,
        ({
            let vsec = segment_path(SegmentFile::Vsec, entry.segment_id);
            let msec = segment_path(SegmentFile::Msec, entry.segment_id);
            let hidx = segment_path(SegmentFile::Hidx, entry.segment_id);
            &&& files.dom().contains(vsec)
            &&& files.dom().contains(msec)
            &&& handle.hidx is Some ==> files.dom().contains(hidx)
            &&& !magic.is_prefix_of(files[vsec]) ==> handle.vsec.bytes() == files[vsec]
            &&& !magic.is_prefix_of(files[msec]) ==> handle.msec.bytes() == files[msec]
            &&& handle.hidx matches Some(graph) ==> (!magic.is_prefix_of(files[hidx])
                ==> graph.bytes() == files[hidx])
        }),
{
    let vsec = segment_path(SegmentFile::Vsec, entry.segment_id);
    let msec = segment_path(SegmentFile::Msec, entry.segment_id);
    let hidx = segment_path(SegmentFile::Hidx, entry.segment_id);
    lemma_sealed_begins(files[vsec], magic);
    lemma_sealed_begins(files[msec], magic);
    lemma_sealed_begins(files[hidx], magic);
}

proof fn lemma_sealed_begins(bytes: Seq<u8>, magic: Seq<u8>)
    ensures
        is_sealed(bytes, magic) <==> magic.is_prefix_of(bytes),
{
    assert(bytes.take(bytes.len() as int) =~= bytes);
    if magic.is_prefix_of(bytes) {
        assert(bytes.take(magic.len() as int) =~= magic);
    }
    if is_sealed(bytes, magic) {
        assert(bytes.len() >= magic.len());
        assert(magic =~= bytes.subrange(0, magic.len() as int));
    }
}

} // verus!
