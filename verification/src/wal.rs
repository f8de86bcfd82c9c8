//! What a log file holds once its bytes are decoded.

use vstd::prelude::*;

use crate::error::{Metric, MnemeError};
use crate::record::EntryData;
use crate::state::Edge;

verus! {

/// What the header of a log file states.
#[derive(Clone, Copy, Debug, PartialEq, Eq, Structural)]
pub struct WalHeader {
    pub dimension: u32,
    pub metric: Metric,
}

/// The kind of a frame.
#[derive(Clone, Copy, Debug, PartialEq, Eq, Structural)]
pub enum FrameKind {
    BatchBegin,
    BatchCommit,
    NsRegister,
    NsUnregister,
    RelKindRegister,
    Insert,
    DeleteRow,
    TouchRow,
    Relate,
    Unrelate,
    /// A kind that replay passes over.
    Passive,
}

/// A change that a frame records.
#[derive(Debug)]
pub enum Change {
    NsRegister { ns_id: u32, path: String },
    NsUnregister { ns_id: u32 },
    RelKindRegister { kind: u16, name: String },
    Insert { entry: EntryData, vector: Vec<u32>, norm_sq: u32, tx_ms: i64 },
    DeleteRow { rowid: u64, tx_ms: i64 },
    TouchRow { rowid: u64, at_ms: i64, access_delta: u32, importance_delta: u32 },
    Relate { edge: Edge },
    Unrelate { from: u64, to: u64, kind: u16 },
    /// A change of a kind that replay passes over.
    Passive,
}

impl Change {
    /// The kind of the frame that records the change.
    pub open spec fn kind(self) -> FrameKind {
        match self {
            Change::NsRegister { .. } => FrameKind::NsRegister,
            Change::NsUnregister { .. } => FrameKind::NsUnregister,
            Change::RelKindRegister { .. } => FrameKind::RelKindRegister,
            Change::Insert { .. } => FrameKind::Insert,
            Change::DeleteRow { .. } => FrameKind::DeleteRow,
            Change::TouchRow { .. } => FrameKind::TouchRow,
            Change::Relate { .. } => FrameKind::Relate,
            Change::Unrelate { .. } => FrameKind::Unrelate,
            Change::Passive => FrameKind::Passive,
        }
    }
}

/// What a frame stands for. Where its payload does not decode, the error takes the place of the
/// payload: it counts only if the frame comes to be applied.
#[derive(Debug)]
pub enum FrameContent {
    /// A batch begins.
    BatchBegin,
    /// A batch ends; it has this many frames, and their payloads have this checksum.
    BatchCommit { stated: Result<(u32, u32), MnemeError> },
    /// A change.
    Change { change: Result<Change, MnemeError> },
}

/// Whether the payload of a frame was sealed.
#[derive(Clone, Copy, Debug, PartialEq, Eq, Structural)]
pub enum Envelope {
    /// The payload was stored in the clear.
    Plain,
    /// The payload was sealed and, with a key at hand, either opened or failed to open.
    Sealed { failure: Option<MnemeError> },
}

/// One frame of a log file.
#[derive(Debug)]
pub struct WalFrame {
    pub seqno: u64,
    pub content: FrameContent,
    /// The payload in the clear.
    pub payload: Vec<u8>,
    pub envelope: Envelope,
    /// Where the frame ends in the file.
    pub end: usize,
}

/// A log file: its whole frames in order. A torn frame at the end is not among them.
#[derive(Debug)]
pub struct WalImage {
    /// Length of the file.
    pub byte_len: usize,
    /// Length of a file header. A shorter file has none.
    pub header_len: usize,
    pub frames: Vec<WalFrame>,
    /// What stopped the scan, unless it came to the end or to a torn frame.
    pub stop: Option<MnemeError>,
}

impl WalImage {
    /// Whether the frames lie behind the header, one behind the other, inside the file.
    pub open spec fn laid_out(&self) -> bool {
        &&& self.header_len <= self.byte_len
        &&& forall|i: int|
            0 <= i < self.frames@.len() ==> self.header_len < (#[trigger] self.frames@[i]).end
                <= self.byte_len
        &&& forall|i: int, j: int|
            0 <= i < j < self.frames@.len() ==> (#[trigger] self.frames@[i]).end < (
            #[trigger] self.frames@[j]).end
    }
}

} // verus!
