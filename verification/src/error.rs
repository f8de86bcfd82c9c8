//! Errors of the persistence layer.

use vstd::prelude::*;

verus! {

/// Distance measure that a library is created with.
#[derive(Clone, Copy, Debug, PartialEq, Eq, Structural)]
pub enum Metric {
    Cosine,
    Dot,
    L2,
}

/// One of the three files that make up a segment.
#[derive(Clone, Copy, Debug, PartialEq, Eq, Structural)]
pub enum SegmentFile {
    Vsec,
    Msec,
    Hidx,
}

/// A region whose bytes a codec rejected.
#[derive(Clone, Copy, Debug, PartialEq, Eq, Structural)]
pub enum Region {
    WalHeader,
    WalFrame,
    BatchCommit,
    Manifest,
    VsecHeader,
    VsecPayload,
    MsecHeader,
    MsecPayload,
    VersionTable,
    Relations,
    Delta,
    Record,
    FieldDict,
    ZoneMap,
    TtlMap,
    Bloom,
    Inverted,
    Hidx,
    Envelope,
}

/// What makes stored data unusable.
#[derive(Clone, Copy, Debug, PartialEq, Eq, Structural)]
pub enum Fault {
    /// A batch commit names another frame count or checksum than its frames have.
    BatchMismatch,
    /// A row id leaves no next row id.
    RowIdExhausted,
    /// A namespace id leaves no next namespace id.
    NsIdExhausted,
    /// A relation kind is already bound to another name, or its number is reserved or exhausted.
    RelKindConflict,
    /// Two version rows claim one slot, or a version row names a slot that is not there.
    SlotOutOfRangeOrRepeated,
    /// A slot of a segment belongs to no version row.
    SlotUnreferenced,
    /// A version row has no vector.
    VectorMissing,
    /// No bloom filter covers the key field.
    KeyBloomMissing,
    /// The vector file and the metadata file count their rows differently.
    RowCountMismatch,
    /// The index file does not have the checksum of its manifest entry.
    HidxCrcMismatch,
    /// `current` is there, and no manifest can be read.
    CurrentWithoutManifest,
    /// Manifests are there, and none can be read.
    ManifestUnreadable,
    /// Segment files are there without a manifest and without a log to rebuild them.
    SegmentsWithoutManifest,
    /// The log header names another dimension or metric than the manifest.
    WalHeaderMismatch,
    /// A segment file of the manifest holds no bytes.
    SegmentFileEmpty { file: SegmentFile, segment_id: u32 },
    /// A segment file of the manifest is not there.
    SegmentFileMissing { file: SegmentFile, segment_id: u32 },
    /// The index file lies outside of its handle.
    HidxSpanOutOfRange,
    /// The slot map of a segment points past the recovered slots.
    HidxSlotMissing,
    /// The quantised copy is not there.
    QuantRegionMissing,
    /// The quantised copy is longer than any file.
    QuantLengthOverflow,
    /// The quantised copy lies outside of the file.
    QuantRegionOutOfRange,
    /// A segment handle cannot hand out its own bytes.
    HandleSlice { file: SegmentFile },
    /// A file that a backup must hold cannot be read.
    BackupFileUnreadable,
    /// A codec rejected the bytes of a region.
    Malformed { region: Region },
}

/// A request that the configuration forbids.
#[derive(Clone, Copy, Debug, PartialEq, Eq, Structural)]
pub enum ConfigFault {
    /// A stored path is absolute or holds a parent component.
    UnsafePath,
    /// A read-only instance needs an existing directory.
    ReadOnlyRootMissing,
    /// A new library needs a dimension.
    DimensionRequired,
    /// Only a read-only instance reloads.
    ReloadNeedsReadOnly,
    /// A backup cannot be written over its source.
    BackupIntoSelf,
}

/// Why a resource is taken.
#[derive(Clone, Copy, Debug, PartialEq, Eq, Structural)]
pub enum BusyFault {
    /// Another instance holds the directory.
    DirectoryLocked,
    /// Another instance holds the in-memory backend.
    MemoryLocked,
    /// The backup target holds files.
    BackupTargetNotEmpty,
}

/// A feature that this instance does not have.
#[derive(Clone, Copy, Debug, PartialEq, Eq, Structural)]
pub enum Feature {
    /// Writing through a read-only instance.
    ReadOnlyWrite,
    /// Reading sealed bytes without a key.
    Encrypt,
    /// A vector format that this build cannot read.
    QuantFormat,
}

/// An internal rule that does not hold.
#[derive(Clone, Copy, Debug, PartialEq, Eq, Structural)]
pub enum Inconsistency {
    /// A compaction plan names a segment that is not active.
    PlanSegmentInactive,
    /// A compaction plan names no segment.
    PlanEmpty,
    /// A built segment is missing from the result.
    BuiltChunkMissing,
    /// A worker thread did not finish.
    WorkerFailed,
}

/// A quantity that has a limit.
#[derive(Clone, Copy, Debug, PartialEq, Eq, Structural)]
pub enum LimitField {
    RemapPosition,
    WalFramePayload,
    WalBatch,
    SlotCount,
}

/// A counter that hands out identifiers.
#[derive(Clone, Copy, Debug, PartialEq, Eq, Structural)]
pub enum IdKind {
    SegmentId,
    ManifestVersion,
}

/// What an input or output operation failed with.
#[derive(Clone, Copy, Debug, PartialEq, Eq, Structural)]
pub enum IoFault {
    NotFound,
    AlreadyExists,
    UnexpectedEof,
    InvalidInput,
    /// The log writer was taken out of use after a failed reset.
    WalDisabled,
    Other,
}

/// The error type of the library.
#[allow(inconsistent_fields)]
#[derive(Clone, Copy, Debug, PartialEq, Eq, Structural)]
pub enum MnemeError {
    Corrupted { segment: Option<u32>, reason: Fault },
    Config { reason: ConfigFault },
    Busy(BusyFault),
    Unsupported { feature: Feature },
    UnsupportedVersion { found: u32, supported: u32 },
    LimitExceeded { field: LimitField, limit: usize, got: usize },
    TooLarge { field: LimitField, limit: usize, got: usize },
    Inconsistent { reason: Inconsistency },
    IdExhausted { kind: IdKind },
    Io(IoFault),
    DimensionMismatch { expected: u32, got: usize },
    MetricMismatch { existing: Metric, requested: Metric },
}

/// The error of stored data that belongs to no particular segment.
pub open spec fn corrupted(reason: Fault) -> MnemeError {
    MnemeError::Corrupted { segment: None, reason }
}

impl MnemeError {
    /// Whether a reader rejected the bytes for their format version. Such a rejection is
    /// never softened into skipping a segment.
    pub open spec fn rejects_version(self) -> bool {
        self is UnsupportedVersion
    }
}

/// Whether the error is a rejection of a format version.
pub fn is_version_rejection(error: &MnemeError) -> (rejected: bool)
    ensures
        rejected == error.rejects_version(),
{
    match *error {
        MnemeError::UnsupportedVersion { .. } => true,
        _ => false,
    }
}

/// The error with the segment it came from. Only corruption names a segment.
pub open spec fn error_in_segment(error: MnemeError, segment_id: u32) -> MnemeError {
    match error {
        MnemeError::Corrupted { segment: _, reason } => MnemeError::Corrupted {
            segment: Some(segment_id),
            reason,
        },
        other => other,
    }
}

/// Adds the segment number to a corruption error and leaves every other error as it is.
pub fn with_segment(error: MnemeError, segment_id: u32) -> (named: MnemeError)
    ensures
        named == error_in_segment(error, segment_id),
{
    match error {
        MnemeError::Corrupted { segment: _, reason } => MnemeError::Corrupted {
            segment: Some(segment_id),
            reason,
        },
        other => other,
    }
}

/// Corruption names the segment that it was found in, whatever it named before, and keeps its
/// reason. Every other error stays as it is.
pub proof fn only_corruption_names_a_segment(error: MnemeError, segment_id: u32)
    ensures
        error matches MnemeError::Corrupted { reason, .. } ==> (error_in_segment(error, segment_id)
            matches MnemeError::Corrupted { segment, reason: kept } && segment == Some(segment_id)
            && kept == reason),
        !(error is Corrupted) ==> error_in_segment(error, segment_id) == error,
{
}

} // verus!
