//! Transactions on their way into the log.

use vstd::prelude::*;

use crate::crc::{crc32_of, hashed_bytes, hasher_finalize, hasher_new, hasher_update};
use crate::error::{Feature, LimitField, MnemeError};
use crate::hook::{write_passes, FsyncHook};
use crate::layout::{lemma_wal_paths_apart, wal_path};
use crate::record::{entry_from_slot, entry_of_slot, Meta, SlotData};
use crate::replay::{
    applied_after, applied_all, batch_committed, change_of, joined_payloads, replayed,
    seal_failure, stepped, Progress,
};
use crate::state::{Edge, Outcome, StateModel};
use crate::storage::{
    content_of, failures_of, others_kept, same_at, temporary_of, FailureSet, FileMap, Storage,
};
use crate::wal::{Change, FrameContent, FrameKind, WalFrame};
use crate::wal_writer::{
    in_log, lemma_outside_log, lemma_outside_log_twice, next_index, outside_log_kept, sync_passes,
    sync_refused, write_refused, EncodedFrame, WalWriter, WriterModel,
};

verus! {

/// A change that a transaction makes.
#[derive(Debug)]
pub enum WriteOp {
    NsRegister { seqno: u64, ns_id: u32, path: String },
    NsUnregister { seqno: u64, ns_id: u32 },
    RelKindRegister { seqno: u64, kind: u16, name: String },
    /// A new version of a row, with the components of its vector.
    Insert { slot: SlotData, vector: Vec<u32> },
    DeleteRow { seqno: u64, rowid: u64, tx_ms: i64 },
    Access { seqno: u64, rowid: u64, at_ms: i64, access_delta: u32, importance_delta: u32 },
    Relate { seqno: u64, from: u64, to: u64, kind: u16, weight: u32, meta: Meta },
    Unrelate { seqno: u64, from: u64, to: u64, kind: u16 },
}

/// The kind of write that observers are told of.
#[derive(Clone, Copy, Debug, PartialEq, Eq, Structural)]
pub enum ObservedOp {
    Insert,
    InsertBatch,
    Delete,
    Touch,
    Relate,
    Unrelate,
}

/// A change together with the payload it is encoded as.
#[derive(Debug)]
pub struct LoggedOp {
    pub op: WriteOp,
    pub payload: Vec<u8>,
}

/// A frame that a transaction is to write.
#[derive(Clone, Copy, Debug, PartialEq, Eq, Structural)]
pub enum FramePlan {
    /// A batch of this many changes begins. Its frame has the commit number 0.
    Begin { seqno: u64, count: u32 },
    /// The change at this position of the transaction.
    Op { position: usize, seqno: u64, kind: FrameKind },
    /// The batch ends. Its frame has the commit number 0.
    Commit { seqno: u64, count: u32, crc: u32 },
}

impl WriteOp {
    /// The commit number of the change.
    pub open spec fn seqno(self) -> u64 {
        match self {
            WriteOp::NsRegister { seqno, .. } => seqno,
            WriteOp::NsUnregister { seqno, .. } => seqno,
            WriteOp::RelKindRegister { seqno, .. } => seqno,
            WriteOp::Insert { slot, .. } => slot.seqno,
            WriteOp::DeleteRow { seqno, .. } => seqno,
            WriteOp::Access { seqno, .. } => seqno,
            WriteOp::Relate { seqno, .. } => seqno,
            WriteOp::Unrelate { seqno, .. } => seqno,
        }
    }

    /// The kind of the frame that records the change.
    pub open spec fn kind(self) -> FrameKind {
        match self {
            WriteOp::NsRegister { .. } => FrameKind::NsRegister,
            WriteOp::NsUnregister { .. } => FrameKind::NsUnregister,
            WriteOp::RelKindRegister { .. } => FrameKind::RelKindRegister,
            WriteOp::Insert { .. } => FrameKind::Insert,
            WriteOp::DeleteRow { .. } => FrameKind::DeleteRow,
            WriteOp::Access { .. } => FrameKind::TouchRow,
            WriteOp::Relate { .. } => FrameKind::Relate,
            WriteOp::Unrelate { .. } => FrameKind::Unrelate,
        }
    }

    /// Whether observers are told of the change.
    pub open spec fn observed(self) -> Option<ObservedOp> {
        match self {
            WriteOp::Insert { .. } => Some(ObservedOp::Insert),
            WriteOp::DeleteRow { .. } => Some(ObservedOp::Delete),
            WriteOp::Access { .. } => Some(ObservedOp::Touch),
            WriteOp::Relate { .. } => Some(ObservedOp::Relate),
            WriteOp::Unrelate { .. } => Some(ObservedOp::Unrelate),
            _ => None,
        }
    }
}

/// The commit number and the frame kind of a change.
pub fn op_dispatch(op: &WriteOp) -> (result: (u64, FrameKind))
    ensures
        result == (op.seqno(), op.kind()),
{
    match op {
        WriteOp::NsRegister { seqno, .. } => (*seqno, FrameKind::NsRegister),
        WriteOp::NsUnregister { seqno, .. } => (*seqno, FrameKind::NsUnregister),
        WriteOp::RelKindRegister { seqno, .. } => (*seqno, FrameKind::RelKindRegister),
        WriteOp::Insert { slot, .. } => (slot.seqno, FrameKind::Insert),
        WriteOp::DeleteRow { seqno, .. } => (*seqno, FrameKind::DeleteRow),
        WriteOp::Access { seqno, .. } => (*seqno, FrameKind::TouchRow),
        WriteOp::Relate { seqno, .. } => (*seqno, FrameKind::Relate),
        WriteOp::Unrelate { seqno, .. } => (*seqno, FrameKind::Unrelate),
    }
}

/// Whether a change is recorded as `change`.
pub open spec fn records(op: WriteOp, change: Change) -> bool {
    match op {
        WriteOp::NsRegister { ns_id, path, .. } => change matches Change::NsRegister {
            ns_id: n,
            path: p,
        } && n == ns_id && p@ == path@,
        WriteOp::NsUnregister { ns_id, .. } => change matches Change::NsUnregister { ns_id: n } && n
            == ns_id,
        WriteOp::RelKindRegister { kind, name, .. } => change matches Change::RelKindRegister {
            kind: k,
            name: n,
        } && k == kind && n@ == name@,
        WriteOp::Insert { slot, vector } => change matches Change::Insert {
            entry,
            vector: v,
            norm_sq,
            tx_ms,
        } && entry@ == entry_of_slot(slot@) && v@ == vector@ && norm_sq == slot.norm_sq && tx_ms
            == slot.tx_ms,
        WriteOp::DeleteRow { rowid, tx_ms, .. } => change matches Change::DeleteRow {
            rowid: r,
            tx_ms: t,
        } && r == rowid && t == tx_ms,
        WriteOp::Access {
            rowid,
            at_ms,
            access_delta,
            importance_delta,
            ..
        } => change matches Change::TouchRow {
            rowid: r,
            at_ms: a,
            access_delta: d,
            importance_delta: m,
        } && r == rowid && a == at_ms && d == access_delta && m == importance_delta,
        WriteOp::Relate { from, to, kind, weight, meta, .. } => change matches Change::Relate {
            edge,
        } && edge.from == from && edge.to == to && edge.kind == kind && edge.weight == weight
            && edge.metadata@ == meta@,
        WriteOp::Unrelate { from, to, kind, .. } => change matches Change::Unrelate {
            from: f,
            to: t,
            kind: k,
        } && f == from && t == to && k == kind,
    }
}

/// The change that a frame records for a write. Its encoding is the payload of the frame.
pub fn op_payload(op: &WriteOp) -> (change: Change)
    ensures
        records(*op, change),
        change.kind() == op.kind(),
{
    match op {
        WriteOp::NsRegister { ns_id, path, .. } => Change::NsRegister {
            ns_id: *ns_id,
            path: path.clone(),
        },
        WriteOp::NsUnregister { ns_id, .. } => Change::NsUnregister { ns_id: *ns_id },
        WriteOp::RelKindRegister { kind, name, .. } => Change::RelKindRegister {
            kind: *kind,
            name: name.clone(),
        },
        WriteOp::Insert { slot, vector } => Change::Insert {
            entry: entry_from_slot(slot),
            vector: vstd::slice::slice_to_vec(vector.as_slice()),
            norm_sq: slot.norm_sq,
            tx_ms: slot.tx_ms,
        },
        WriteOp::DeleteRow { rowid, tx_ms, .. } => Change::DeleteRow {
            rowid: *rowid,
            tx_ms: *tx_ms,
        },
        WriteOp::Access { rowid, at_ms, access_delta, importance_delta, .. } => Change::TouchRow {
            rowid: *rowid,
            at_ms: *at_ms,
            access_delta: *access_delta,
            importance_delta: *importance_delta,
        },
        WriteOp::Relate { from, to, kind, weight, meta, .. } => Change::Relate {
            edge: Edge {
                from: *from,
                to: *to,
                kind: *kind,
                weight: *weight,
                metadata: meta.copied(),
            },
        },
        WriteOp::Unrelate { from, to, kind, .. } => Change::Unrelate {
            from: *from,
            to: *to,
            kind: *kind,
        },
    }
}

/// How many of the first `count` changes insert a version.
pub open spec fn insert_count(ops: Seq<LoggedOp>, count: nat) -> nat
    decreases count,
{
    if count == 0 {
        0
    } else {
        insert_count(ops, (count - 1) as nat) + if ops[count - 1].op is Insert {
            1nat
        } else {
            0nat
        }
    }
}

/// What observers are told of a transaction: more than one insertion is a batch, otherwise the
/// first change that is not a registration counts.
pub open spec fn observed_of(ops: Seq<LoggedOp>, result: Option<ObservedOp>) -> bool {
    if insert_count(ops, ops.len()) > 1 {
        result == Some(ObservedOp::InsertBatch)
    } else {
        match result {
            Some(observed) => exists|i: int|
                0 <= i < ops.len() && (#[trigger] ops[i]).op.observed() == Some(observed) && forall|
                    j: int,
                |
                    0 <= j < i ==> (#[trigger] ops[j]).op.observed() is None,
            None => forall|i: int| 0 <= i < ops.len() ==> (#[trigger] ops[i]).op.observed() is None,
        }
    }
}

/// Finds out what observers are told of a transaction.
pub fn observer_write_op(ops: &Vec<LoggedOp>) -> (result: Option<ObservedOp>)
    ensures
        observed_of(ops@, result),
{
    let mut inserts: usize = 0;
    let mut i: usize = 0;
    while i < ops.len()
        invariant
            i <= ops@.len(),
            inserts == insert_count(ops@, i as nat),
            inserts <= i,
        decreases ops@.len() - i,
    {
        match &ops[i].op {
            WriteOp::Insert { .. } => {
                inserts = inserts + 1;
            },
            _ => {},
        }
        i = i + 1;
    }
    if inserts > 1 {
        return Some(ObservedOp::InsertBatch);
    }
    let mut k: usize = 0;
    while k < ops.len()
        invariant
            k <= ops@.len(),
            insert_count(ops@, ops@.len()) <= 1,
            forall|j: int| 0 <= j < k ==> (#[trigger] ops@[j]).op.observed() is None,
        decreases ops@.len() - k,
    {
        let observed: Option<ObservedOp> = match &ops[k].op {
            WriteOp::Insert { .. } => Some(ObservedOp::Insert),
            WriteOp::DeleteRow { .. } => Some(ObservedOp::Delete),
            WriteOp::Access { .. } => Some(ObservedOp::Touch),
            WriteOp::Relate { .. } => Some(ObservedOp::Relate),
            WriteOp::Unrelate { .. } => Some(ObservedOp::Unrelate),
            _ => None,
        };
        assert(observed == ops@[k as int].op.observed());
        if observed.is_some() {
            return observed;
        }
        k = k + 1;
    }
    None
}

/// The payloads of the first `count` changes one behind the other.
pub open spec fn payloads_of(ops: Seq<LoggedOp>, count: nat) -> Seq<u8>
    decreases count,
{
    if count == 0 {
        Seq::empty()
    } else {
        payloads_of(ops, (count - 1) as nat) + ops[count - 1].payload@
    }
}

/// The frames of the changes of a transaction.
pub open spec fn op_plans(ops: Seq<LoggedOp>) -> Seq<FramePlan> {
    Seq::new(
        ops.len(),
        |i: int|
            FramePlan::Op {
                position: i as usize,
                seqno: ops[i].op.seqno(),
                kind: ops[i].op.kind(),
            },
    )
}

/// The frames of a transaction. More than one change makes a batch, with its count in front and
/// its count and checksum behind.
pub open spec fn transaction_plan(ops: Seq<LoggedOp>) -> Seq<FramePlan> {
    if ops.len() <= 1 {
        op_plans(ops)
    } else {
        seq![FramePlan::Begin { seqno: 0, count: ops.len() as u32 }] + op_plans(ops) + seq![
            FramePlan::Commit {
                seqno: 0,
                count: ops.len() as u32,
                crc: crc32_of(payloads_of(ops, ops.len())),
            },
        ]
    }
}

/// What a transaction comes to: nothing to write for an empty one, a refusal for a read-only
/// instance and for more changes than a batch can count.
pub open spec fn plan_outcome(ops: Seq<LoggedOp>, read_only: bool) -> Result<
    Seq<FramePlan>,
    MnemeError,
> {
    if ops.len() == 0 {
        Ok(Seq::empty())
    } else if read_only {
        Err(MnemeError::Unsupported { feature: Feature::ReadOnlyWrite })
    } else if ops.len() > u32::MAX {
        Err(
            MnemeError::TooLarge {
                field: LimitField::WalBatch,
                limit: u32::MAX as usize,
                got: ops.len() as usize,
            },
        )
    } else {
        Ok(transaction_plan(ops))
    }
}

proof fn lemma_payloads_grow(ops: Seq<LoggedOp>, from: nat, to: nat)
    requires
        from <= to,
    ensures
        payloads_of(ops, from).len() <= payloads_of(ops, to).len(),
    decreases to - from,
{
    if from < to {
        lemma_payloads_grow(ops, from, (to - 1) as nat);
    }
}

/// Lays out the frames of a transaction.
pub fn plan_transaction(ops: &Vec<LoggedOp>, read_only: bool) -> (result: Result<
    Vec<FramePlan>,
    MnemeError,
>)
    requires
        payloads_of(ops@, ops@.len()).len() <= u64::MAX,
    ensures
        match result {
            Ok(plan) => plan_outcome(ops@, read_only) == Ok::<Seq<FramePlan>, MnemeError>(plan@),
            Err(error) => plan_outcome(ops@, read_only) == Err::<Seq<FramePlan>, MnemeError>(error),
        },
{
    let mut plan: Vec<FramePlan> = Vec::new();
    if ops.len() == 0 {
        return Ok(plan);
    }
    if read_only {
        return Err(MnemeError::Unsupported { feature: Feature::ReadOnlyWrite });
    }
    if ops.len() > u32::MAX as usize {
        return Err(
            MnemeError::TooLarge {
                field: LimitField::WalBatch,
                limit: u32::MAX as usize,
                got: ops.len(),
            },
        );
    }
    let count: u32 = ops.len() as u32;
    let batch: bool = ops.len() > 1;
    if batch {
        plan.push(FramePlan::Begin { seqno: 0, count });
    }
    let ghost head = plan@;
    let ghost body = op_plans(ops@);
    let mut hasher = hasher_new();
    let mut i: usize = 0;
    assert(head + body.take(0) =~= head);
    while i < ops.len()
        invariant
            i <= ops@.len(),
            ops@.len() <= u32::MAX,
            body == op_plans(ops@),
            plan@ == head + body.take(i as int),
            payloads_of(ops@, ops@.len()).len() <= u64::MAX,
            batch ==> hashed_bytes(hasher) == payloads_of(ops@, i as nat),
        decreases ops@.len() - i,
    {
        let (seqno, kind) = op_dispatch(&ops[i].op);
        if batch {
            proof {
                lemma_payloads_grow(ops@, (i + 1) as nat, ops@.len());
            }
            hasher_update(&mut hasher, ops[i].payload.as_slice());
        }
        plan.push(FramePlan::Op { position: i, seqno, kind });
        assert(head + body.take(i + 1) =~= (head + body.take(i as int)).push(body[i as int]));
        i = i + 1;
    }
    assert(body.take(body.len() as int) =~= body);
    if batch {
        let crc: u32 = hasher_finalize(hasher);
        plan.push(FramePlan::Commit { seqno: 0, count, crc });
        assert(plan@ =~= transaction_plan(ops@));
    } else {
        assert(plan@ =~= transaction_plan(ops@));
    }
    Ok(plan)
}

/// The first `count` frames one behind the other.
pub open spec fn frames_bytes(frames: Seq<EncodedFrame>, count: nat) -> Seq<u8>
    decreases count,
{
    if count == 0 {
        Seq::empty()
    } else {
        frames_bytes(frames, (count - 1) as nat) + frames[count - 1].bytes@
    }
}

/// The first refusal among the first `count` frames.
pub open spec fn first_refusal(
    writer: WriterModel,
    frames: Seq<EncodedFrame>,
    count: nat,
) -> Option<MnemeError>
    decreases count,
{
    if count == 0 {
        None
    } else {
        match first_refusal(writer, frames, (count - 1) as nat) {
            Some(error) => Some(error),
            None => writer.frame_refusal(frames[count - 1].payload_len),
        }
    }
}

proof fn lemma_refusal_stays(writer: WriterModel, frames: Seq<EncodedFrame>, from: nat, to: nat)
    requires
        from <= to,
        first_refusal(writer, frames, from) is Some,
    ensures
        first_refusal(writer, frames, to) == first_refusal(writer, frames, from),
    decreases to - from,
{
    if from < to {
        lemma_refusal_stays(writer, frames, from, (to - 1) as nat);
    }
}

/// The writer with the active file at another length.
pub open spec fn at_length(writer: WriterModel, len: nat) -> WriterModel {
    WriterModel { written: len as u64, ..writer }
}

/// The writer after a transaction that ends at this length: it goes on to the next file where the
/// active one is long enough.
pub open spec fn logged(writer: WriterModel, len: nat) -> WriterModel {
    let appended = at_length(writer, len);
    if appended.rotation_due() {
        appended.rotated()
    } else {
        appended
    }
}

/// Where a frame of a transaction is appended. The first one goes to where the writer believes the
/// file to end, the others behind what the file held and the frames before.
pub open spec fn frame_offset(
    writer: WriterModel,
    length: nat,
    frames: Seq<EncodedFrame>,
    at: int,
) -> u64 {
    if at == 0 {
        writer.written
    } else {
        (length + frames_bytes(frames, at as nat).len()) as u64
    }
}

/// Whether a frame may be let through, by the writer and by the hook.
pub open spec fn frame_passes<H: FsyncHook>(
    hook: Option<&H>,
    writer: WriterModel,
    length: nat,
    frames: Seq<EncodedFrame>,
    at: int,
) -> bool {
    writer.frame_refusal(frames[at].payload_len) is None && write_passes(
        hook,
        writer.active(),
        frame_offset(writer, length, frames, at),
        frames[at].bytes@.len(),
    )
}

/// Whether the first `count` frames may be let through.
pub open spec fn frames_pass<H: FsyncHook>(
    hook: Option<&H>,
    writer: WriterModel,
    length: nat,
    frames: Seq<EncodedFrame>,
    count: nat,
) -> bool {
    forall|i: int| 0 <= i < count ==> #[trigger] frame_passes(hook, writer, length, frames, i)
}

/// Whether a frame may fail so: the writer refuses it, or else the hook, or the backend fails.
pub open spec fn frame_refused<H: FsyncHook>(
    hook: Option<&H>,
    failures: FailureSet,
    writer: WriterModel,
    length: nat,
    frames: Seq<EncodedFrame>,
    at: int,
    error: MnemeError,
) -> bool {
    match writer.frame_refusal(frames[at].payload_len) {
        Some(refusal) => refusal == error,
        None => write_refused(
            hook,
            failures,
            writer.active(),
            frame_offset(writer, length, frames, at),
            frames[at].bytes@.len(),
            error,
        ),
    }
}

/// Whether the first frame that is refused may be refused so.
pub open spec fn frames_refused<H: FsyncHook>(
    hook: Option<&H>,
    failures: FailureSet,
    writer: WriterModel,
    length: nat,
    frames: Seq<EncodedFrame>,
    error: MnemeError,
) -> bool {
    exists|i: int|
        0 <= i < frames.len() && #[trigger] frame_refused(
            hook,
            failures,
            writer,
            length,
            frames,
            i,
            error,
        )
            && frames_pass(hook, writer, length, frames, i as nat)
}

/// Whether the frames of a transaction and its end may be let through.
pub open spec fn transaction_passes<H: FsyncHook>(
    hook: Option<&H>,
    writer: WriterModel,
    length: nat,
    frames: Seq<EncodedFrame>,
) -> bool {
    &&& frames_pass(hook, writer, length, frames, frames.len())
    &&& sync_passes(hook, at_length(writer, length + frames_bytes(frames, frames.len()).len()))
}

/// Whether a transaction may be refused so: at its first frame that is refused, or else at its end.
pub open spec fn transaction_refused<H: FsyncHook>(
    hook: Option<&H>,
    failures: FailureSet,
    writer: WriterModel,
    length: nat,
    frames: Seq<EncodedFrame>,
    error: MnemeError,
) -> bool {
    ||| frames_refused(hook, failures, writer, length, frames, error)
    ||| frames_pass(hook, writer, length, frames, frames.len()) && sync_refused(
        hook,
        failures,
        at_length(writer, length + frames_bytes(frames, frames.len()).len()),
        error,
    )
}

/// Whether a transaction may write to a path: it is that of the active file, or of the next one, or
/// of a temporary file of theirs.
pub open spec fn log_touches(writer: WriterModel, path: Seq<char>) -> bool {
    let next = wal_path(next_index(writer.active_index));
    path == writer.active() || path == temporary_of(writer.active()) || path == next || path
        == temporary_of(next)
}

/// Whether everything that a transaction does not write to is as it was.
pub open spec fn kept_by_log(writer: WriterModel, before: FileMap, after: FileMap) -> bool {
    forall|path: Seq<char>| !log_touches(writer, path) ==> #[trigger] same_at(before, after, path)
}

proof fn lemma_kept_by_log(writer: WriterModel, a: FileMap, b: FileMap, c: FileMap, index: u32)
    requires
        kept_by_log(writer, a, b),
        others_kept(b, c, wal_path(index)),
        index == writer.active_index || index == next_index(writer.active_index),
    ensures
        kept_by_log(writer, a, c),
{
    assert forall|path: Seq<char>| !log_touches(writer, path) implies #[trigger] same_at(
        a,
        c,
        path,
    ) by {
        assert(same_at(a, b, path));
        assert(same_at(b, c, path));
    }
}

/// Appends frames.
///
/// Where it fails, what the active file held before still stands at its beginning.
fn append_frames<S: Storage, H: FsyncHook>(
    wal: &mut WalWriter,
    storage: &mut S,
    hook: Option<&H>,
    frames: &Vec<EncodedFrame>,
) -> (result: Result<(), MnemeError>)
    requires
        old(wal).wf(),
        old(storage).wf(),
        frames@.len() > 0,
    ensures
        final(wal).wf(),
        final(storage).wf(),
        final(storage).reliable() == old(storage).reliable(),
        final(storage).cuts() == old(storage).cuts(),
        final(storage).failures() == old(storage).failures(),
        final(storage).locked() == old(storage).locked(),
        kept_by_log(old(wal)@, old(storage).files(), final(storage).files()),
        outside_log_kept(old(storage).files(), final(storage).files()),
        result is Ok ==> final(storage).files().dom().contains(old(wal)@.active()) && content_of(
            final(storage).files(),
            old(wal)@.active(),
        ) == content_of(old(storage).files(), old(wal)@.active()) + frames_bytes(
            frames@,
            frames@.len(),
        ),
        result is Ok ==> content_of(final(storage).files(), old(wal)@.active()).len() <= u64::MAX
            && final(wal)@ == at_length(
            old(wal)@,
            content_of(old(storage).files(), old(wal)@.active()).len() + frames_bytes(
                frames@,
                frames@.len(),
            ).len(),
        ),
        result is Err ==> exists|len: nat| final(wal)@ == #[trigger] at_length(old(wal)@, len),
        result is Err && old(storage).files().dom().contains(old(wal)@.active())
            ==> final(storage).files().dom().contains(old(wal)@.active()),
        result is Err ==> content_of(old(storage).files(), old(wal)@.active()).is_prefix_of(
            content_of(final(storage).files(), old(wal)@.active()),
        ),
        result is Ok ==> first_refusal(old(wal)@, frames@, frames@.len()) is None,
        old(wal)@.refusal() is Some ==> result is Err && final(wal)@ == old(wal)@
            && final(storage).files() == old(storage).files(),
        hook is None && old(storage).reliable() ==> match first_refusal(
            old(wal)@,
            frames@,
            frames@.len(),
        ) {
            Some(error) => result == Err::<(), MnemeError>(error),
            None => result is Ok,
        },
        result matches Err(error) ==> frames_refused(
            hook,
            failures_of(*old(storage)),
            old(wal)@,
            content_of(old(storage).files(), old(wal)@.active()).len(),
            frames@,
            error,
        ),
        result is Ok ==> frames_pass(
            hook,
            old(wal)@,
            content_of(old(storage).files(), old(wal)@.active()).len(),
            frames@,
            frames@.len(),
        ),
{
    let ghost start = wal@;
    let ghost active = start.active();
    let ghost before = content_of(storage.files(), active);
    let mut i: usize = 0;
    assert(before + frames_bytes(frames@, 0) =~= before);
    assert(start.agrees_with(storage.files()) ==> at_length(start, before.len()) =~= start);
    assert(at_length(start, start.written as nat) =~= start);
    while i < frames.len()
        invariant
            wal.wf(),
            storage.wf(),
            storage.reliable() == old(storage).reliable(),
            storage.cuts() == old(storage).cuts(),
            storage.failures() == old(storage).failures(),
            storage.locked() == old(storage).locked(),
            start == old(wal)@,
            active == start.active(),
            before == content_of(old(storage).files(), active),
            outside_log_kept(old(storage).files(), storage.files()),
            kept_by_log(start, old(storage).files(), storage.files()),
            i <= frames@.len(),
            frames@.len() > 0,
            i > 0 || old(storage).files().dom().contains(active) ==> storage.files().dom().contains(
                active,
            ),
            content_of(storage.files(), active) == before + frames_bytes(frames@, i as nat),
            i > 0 ==> content_of(storage.files(), active).len() <= u64::MAX,
            i == 0 ==> wal@ == start && storage.files() == old(storage).files(),
            i > 0 || start.agrees_with(old(storage).files()) ==> wal@ == at_length(
                start,
                before.len() + frames_bytes(frames@, i as nat).len(),
            ),
            start.refusal() is Some ==> i == 0 && storage.files() == old(storage).files() && wal@
                == start,
            first_refusal(start, frames@, i as nat) is None,
            frames_pass(hook, start, before.len(), frames@, i as nat),
        decreases frames@.len() - i,
    {
        let ghost files = storage.files();
        let ghost length = before.len() + frames_bytes(frames@, i as nat).len();
        let appended = wal.append(storage, hook, &frames[i]);
        proof {
            assert(appended is Ok ==> frame_passes(hook, start, before.len(), frames@, i as int));
            assert(appended matches Err(error) ==> frame_refused(
                hook,
                failures_of(*old(storage)),
                start,
                before.len(),
                frames@,
                i as int,
                error,
            ));
            lemma_outside_log(files, storage.files(), start.active_index);
            lemma_outside_log_twice(old(storage).files(), files, storage.files());
            lemma_kept_by_log(
                start,
                old(storage).files(),
                files,
                storage.files(),
                start.active_index,
            );
        }
        match appended {
            Ok(()) => {
                proof {
                    assert(content_of(storage.files(), active) =~= before + frames_bytes(
                        frames@,
                        (i + 1) as nat,
                    ));
                }
            },
            Err(error) => {
                proof {
                    assert(i > 0 ==> wal@ == at_length(start, length));
                    assert(wal@ == at_length(start, start.written as nat) || wal@ == at_length(
                        start,
                        length,
                    ));
                    let now = content_of(storage.files(), active);
                    assert(before.is_prefix_of(now)) by {
                        let middle = content_of(files, active);
                        assert(middle == now.take(middle.len() as int));
                        assert(now.take(before.len() as int) =~= middle.take(before.len() as int));
                        assert(middle.take(before.len() as int) =~= before);
                    }
                    if storage.reliable() && start.frame_refusal(
                        frames@[i as int].payload_len,
                    ) is Some {
                        assert(start.frame_refusal(frames@[i as int].payload_len) == Some(error));
                        lemma_refusal_stays(start, frames@, (i + 1) as nat, frames@.len());
                    }
                }
                return Err(error);
            },
        }
        i = i + 1;
    }
    Ok(())
}

/// Appends the frames of a transaction and brings them to stable storage once, at the end.
///
/// Where it fails, what the active file held before still stands at its beginning.
fn append_transaction<S: Storage, H: FsyncHook>(
    wal: &mut WalWriter,
    storage: &mut S,
    hook: Option<&H>,
    frames: &Vec<EncodedFrame>,
) -> (result: Result<(), MnemeError>)
    requires
        old(wal).wf(),
        old(storage).wf(),
        old(wal)@.active_index < u32::MAX,
        frames@.len() > 0,
    ensures
        final(wal).wf(),
        final(storage).wf(),
        final(storage).reliable() == old(storage).reliable(),
        final(storage).cuts() == old(storage).cuts(),
        final(storage).failures() == old(storage).failures(),
        final(storage).locked() == old(storage).locked(),
        kept_by_log(old(wal)@, old(storage).files(), final(storage).files()),
        outside_log_kept(old(storage).files(), final(storage).files()),
        result is Ok && old(wal)@.syncs() ==> final(storage).settled().contains(
            old(wal)@.active(),
        ),
        result is Ok ==> final(wal)@.agrees_with(final(storage).files()),
        result is Ok ==> content_of(final(storage).files(), old(wal)@.active()) == content_of(
            old(storage).files(),
            old(wal)@.active(),
        ) + frames_bytes(frames@, frames@.len()),
        result is Ok ==> final(wal)@ == logged(
            old(wal)@,
            content_of(old(storage).files(), old(wal)@.active()).len() + frames_bytes(
                frames@,
                frames@.len(),
            ).len(),
        ),
        result is Err ==> exists|len: nat| final(wal)@ == #[trigger] at_length(old(wal)@, len),
        result is Err && old(storage).files().dom().contains(old(wal)@.active())
            ==> final(storage).files().dom().contains(old(wal)@.active()),
        result is Err ==> content_of(old(storage).files(), old(wal)@.active()).is_prefix_of(
            content_of(final(storage).files(), old(wal)@.active()),
        ),
        old(wal)@.refusal() is Some ==> result is Err && final(wal)@ == old(wal)@
            && final(storage).files() == old(storage).files(),
        hook is None && old(storage).reliable() ==> match first_refusal(
            old(wal)@,
            frames@,
            frames@.len(),
        ) {
            Some(error) => result == Err::<(), MnemeError>(error),
            None => result is Ok,
        },
        result matches Err(error) ==> transaction_refused(
            hook,
            failures_of(*old(storage)),
            old(wal)@,
            content_of(old(storage).files(), old(wal)@.active()).len(),
            frames@,
            error,
        ),
        result is Ok ==> transaction_passes(
            hook,
            old(wal)@,
            content_of(old(storage).files(), old(wal)@.active()).len(),
            frames@,
        ),
{
    let ghost start = wal@;
    let ghost active = start.active();
    let ghost before = content_of(storage.files(), active);
    match append_frames(wal, storage, hook, frames) {
        Ok(()) => {},
        Err(error) => {
            return Err(error);
        },
    }
    let ghost files = storage.files();
    let ghost length = before.len() + frames_bytes(frames@, frames@.len()).len();
    let synced = wal.sync(storage, hook);
    proof {
        wal.lemma_header();
        let appended = at_length(start, length);
        lemma_wal_paths_apart(start.active_index, appended.rotated().active_index);
        assert(same_at(files, storage.files(), active));
        assert(content_of(storage.files(), active) == before + frames_bytes(
            frames@,
            frames@.len(),
        ));
        assert(before.is_prefix_of(before + frames_bytes(frames@, frames@.len()))) by {
            assert((before + frames_bytes(frames@, frames@.len())).take(before.len() as int)
                =~= before);
        }
        if synced is Err {
            assert(wal@ == at_length(start, length));
        }
        if appended.rotation_due() {
            lemma_outside_log(files, storage.files(), appended.rotated().active_index);
            lemma_kept_by_log(
                start,
                old(storage).files(),
                files,
                storage.files(),
                appended.rotated().active_index,
            );
        } else {
            assert(files == storage.files());
            assert forall|path: Seq<char>| !in_log(path) implies #[trigger] same_at(
                files,
                storage.files(),
                path,
            ) by {}
        }
        lemma_outside_log_twice(old(storage).files(), files, storage.files());
    }
    synced
}

/// Takes a failed transaction back and hands its error on. A failure to take it back is not
/// reported in its place.
fn fail_log<S: Storage, H: FsyncHook>(
    wal: &mut WalWriter,
    storage: &mut S,
    hook: Option<&H>,
    start: u64,
    error: MnemeError,
) -> (result: Result<(), MnemeError>)
    requires
        old(wal).wf(),
        old(storage).wf(),
    ensures
        final(wal).wf(),
        final(storage).wf(),
        final(storage).reliable() == old(storage).reliable(),
        final(storage).cuts() == old(storage).cuts(),
        final(storage).failures() == old(storage).failures(),
        final(storage).locked() == old(storage).locked(),
        result == Err::<(), MnemeError>(error),
        others_kept(old(storage).files(), final(storage).files(), old(wal)@.active()),
        final(wal)@ == old(wal)@ || final(wal)@ == at_length(old(wal)@, start as nat),
        old(wal)@.refusal() is Some ==> final(wal)@ == old(wal)@
            && final(storage).files() == old(storage).files(),
        old(storage).files().dom().contains(old(wal)@.active())
            ==> final(storage).files().dom().contains(old(wal)@.active()),
        start <= content_of(old(storage).files(), old(wal)@.active()).len() ==> content_of(
            final(storage).files(),
            old(wal)@.active(),
        ) == content_of(old(storage).files(), old(wal)@.active()) || content_of(
            final(storage).files(),
            old(wal)@.active(),
        ) == content_of(old(storage).files(), old(wal)@.active()).take(start as int),
        old(wal)@.refusal() is None && (old(storage).cuts() || old(storage).reliable())
            && old(storage).files().dom().contains(old(wal)@.active()) && start <= content_of(
            old(storage).files(),
            old(wal)@.active(),
        ).len() ==> final(wal)@ == at_length(old(wal)@, start as nat) && content_of(
            final(storage).files(),
            old(wal)@.active(),
        ) == content_of(old(storage).files(), old(wal)@.active()).take(start as int),
{
    let _ = wal.rollback_to(storage, hook, start);
    Err(error)
}

/// What a failed transaction leaves behind, where the writer knew the length of its file: where the
/// file can be cut, file and writer are as they were; in any case nothing that the file held is
/// lost.
pub open spec fn taken_back(
    before: WriterModel,
    after: WriterModel,
    files_before: FileMap,
    files_after: FileMap,
    cuts: bool,
) -> bool {
    before.agrees_with(files_before) ==> {
        &&& files_after.dom().contains(before.active())
        &&& content_of(files_before, before.active()).is_prefix_of(
            content_of(files_after, before.active()),
        )
        &&& cuts ==> after == before && same_at(files_before, files_after, before.active())
    }
}

/// Writes the frames of a transaction to the log: all of them, or none.
///
/// Where a frame or the synchronisation fails, the active file is cut back to where the
/// transaction began. Otherwise a write that was reported as failed could come back, or a half
/// written frame could hide what is written behind it.
pub fn log<S: Storage, H: FsyncHook>(
    wal: &mut WalWriter,
    storage: &mut S,
    hook: Option<&H>,
    frames: &Vec<EncodedFrame>,
) -> (result: Result<(), MnemeError>)
    requires
        old(wal).wf(),
        old(storage).wf(),
        old(wal)@.active_index < u32::MAX,
    ensures
        final(wal).wf(),
        final(storage).wf(),
        final(storage).reliable() == old(storage).reliable(),
        final(storage).cuts() == old(storage).cuts(),
        final(storage).failures() == old(storage).failures(),
        final(storage).locked() == old(storage).locked(),
        kept_by_log(old(wal)@, old(storage).files(), final(storage).files()),
        outside_log_kept(old(storage).files(), final(storage).files()),
        result is Ok && frames@.len() > 0 && old(wal)@.syncs()
            ==> final(storage).settled().contains(
            old(wal)@.active(),
        ),
        frames@.len() == 0 ==> result is Ok && final(wal)@ == old(wal)@
            && final(storage).files() == old(storage).files(),
        result is Ok && (frames@.len() > 0 || old(wal)@.agrees_with(old(storage).files()))
            ==> final(wal)@.agrees_with(final(storage).files()),
        result is Ok && frames@.len() > 0 ==> final(wal)@ == logged(
            old(wal)@,
            content_of(old(storage).files(), old(wal)@.active()).len() + frames_bytes(
                frames@,
                frames@.len(),
            ).len(),
        ),
        result is Ok ==> content_of(final(storage).files(), old(wal)@.active()) == content_of(
            old(storage).files(),
            old(wal)@.active(),
        ) + frames_bytes(frames@, frames@.len()),
        hook is None && old(storage).reliable() ==> match first_refusal(
            old(wal)@,
            frames@,
            frames@.len(),
        ) {
            Some(error) => result == Err::<(), MnemeError>(error),
            None => result is Ok,
        },
        result matches Err(error) ==> transaction_refused(
            hook,
            failures_of(*old(storage)),
            old(wal)@,
            content_of(old(storage).files(), old(wal)@.active()).len(),
            frames@,
            error,
        ),
        result is Ok && frames@.len() > 0 ==> transaction_passes(
            hook,
            old(wal)@,
            content_of(old(storage).files(), old(wal)@.active()).len(),
            frames@,
        ),
        result is Err ==> taken_back(
            old(wal)@,
            final(wal)@,
            old(storage).files(),
            final(storage).files(),
            old(storage).cuts() || old(storage).reliable(),
        ),
{
    if frames.len() == 0 {
        assert(content_of(storage.files(), wal@.active()) + frames_bytes(frames@, 0)
            =~= content_of(storage.files(), wal@.active()));
        return Ok(());
    }
    let start: u64 = wal.len();
    let ghost model = wal@;
    let ghost before = content_of(storage.files(), model.active());
    match append_transaction(wal, storage, hook, frames) {
        Ok(()) => Ok(()),
        Err(error) => {
            let ghost len = choose|len: nat| wal@ == #[trigger] at_length(model, len);
            let ghost files = storage.files();
            let result = fail_log(wal, storage, hook, start, error);
            proof {
                lemma_outside_log(files, storage.files(), model.active_index);
                lemma_outside_log_twice(old(storage).files(), files, storage.files());
                lemma_kept_by_log(
                    model,
                    old(storage).files(),
                    files,
                    storage.files(),
                    model.active_index,
                );
                if model.agrees_with(old(storage).files()) {
                    assert(content_of(files, model.active()).take(start as int) =~= before);
                    assert(before.take(before.len() as int) =~= before);
                }
                assert(at_length(at_length(model, len), start as nat) =~= model);
                if hook is None && storage.reliable() && model.refusal() is Some {
                    lemma_refused_writer(model, frames@, frames@.len());
                }
            }
            result
        },
    }
}

/// Whether `encode` may make these frames of the first frames of a plan. Payloads are sealed where
/// the writer seals them.
pub open spec fn are_encoded<
    E: Fn(&FramePlan, &Vec<LoggedOp>, bool) -> Result<EncodedFrame, MnemeError>,
>(
    encode: E,
    plan: Seq<FramePlan>,
    ops: Vec<LoggedOp>,
    sealed: bool,
    frames: Seq<EncodedFrame>,
) -> bool {
    frames.len() <= plan.len() && forall|i: int|
        0 <= i < frames.len() ==> encode.ensures(
            (&plan[i], &ops, sealed),
            Ok(#[trigger] frames[i]),
        )
}

/// What a transaction may fail with: the first frame that cannot be encoded or that fails, or else
/// its end.
pub open spec fn log_refused<
    H: FsyncHook,
    E: Fn(&FramePlan, &Vec<LoggedOp>, bool) -> Result<EncodedFrame, MnemeError>,
>(
    hook: Option<&H>,
    failures: FailureSet,
    encode: E,
    plan: Seq<FramePlan>,
    ops: Vec<LoggedOp>,
    writer: WriterModel,
    length: nat,
    error: MnemeError,
) -> bool {
    ||| writer.refusal() == Some(error)
    ||| exists|frames: Seq<EncodedFrame>| #[trigger]
        are_encoded(encode, plan, ops, writer.encrypts, frames) && if frames.len() == plan.len() {
            transaction_refused(hook, failures, writer, length, frames, error)
        } else {
            frames_refused(hook, failures, writer, length, frames, error) || (frames_pass(
                hook,
                writer,
                length,
                frames,
                frames.len(),
            ) && encode.ensures(
                (&plan[frames.len() as int], &ops, writer.encrypts),
                Err(error),
            ))
        }
}

/// Encodes the frames of a plan up to the first that cannot be encoded.
fn encode_frames<E: Fn(&FramePlan, &Vec<LoggedOp>, bool) -> Result<EncodedFrame, MnemeError>>(
    encode: &E,
    plan: &Vec<FramePlan>,
    ops: &Vec<LoggedOp>,
    sealed: bool,
) -> (result: (Vec<EncodedFrame>, Option<MnemeError>))
    requires
        forall|frame: FramePlan| encode.requires((&frame, ops, sealed)),
    ensures
        are_encoded(*encode, plan@, *ops, sealed, result.0@),
        match result.1 {
            Some(error) => result.0@.len() < plan@.len() && encode.ensures(
                (&plan@[result.0@.len() as int], ops, sealed),
                Err(error),
            ),
            None => result.0@.len() == plan@.len(),
        },
{
    let mut frames: Vec<EncodedFrame> = Vec::new();
    let mut i: usize = 0;
    while i < plan.len()
        invariant
            forall|frame: FramePlan| encode.requires((&frame, ops, sealed)),
            i <= plan@.len(),
            frames@.len() == i,
            are_encoded(*encode, plan@, *ops, sealed, frames@),
        decreases plan@.len() - i,
    {
        match encode(&plan[i], ops, sealed) {
            Ok(frame) => {
                frames.push(frame);
            },
            Err(error) => {
                return (frames, Some(error));
            },
        }
        i = i + 1;
    }
    (frames, None)
}

/// Writes a transaction to the log: all of it, or nothing.
///
/// An empty transaction writes nothing and is accepted even by a read-only instance. `payload`s are
/// those that the changes are encoded as; `encode` seals them where the writer seals payloads, and
/// puts the frames together.
pub fn log_transaction<
    S: Storage,
    H: FsyncHook,
    E: Fn(&FramePlan, &Vec<LoggedOp>, bool) -> Result<EncodedFrame, MnemeError>,
>(
    wal: &mut WalWriter,
    storage: &mut S,
    hook: Option<&H>,
    ops: &Vec<LoggedOp>,
    read_only: bool,
    encode: &E,
) -> (result: Result<(), MnemeError>)
    requires
        old(wal).wf(),
        old(storage).wf(),
        old(wal)@.active_index < u32::MAX,
        payloads_of(ops@, ops@.len()).len() <= u64::MAX,
        forall|frame: FramePlan, sealed: bool| encode.requires((&frame, ops, sealed)),
    ensures
        final(wal).wf(),
        final(storage).wf(),
        final(storage).reliable() == old(storage).reliable(),
        final(storage).cuts() == old(storage).cuts(),
        final(storage).failures() == old(storage).failures(),
        final(storage).locked() == old(storage).locked(),
        kept_by_log(old(wal)@, old(storage).files(), final(storage).files()),
        outside_log_kept(old(storage).files(), final(storage).files()),
        result is Ok && ops@.len() > 0 && old(wal)@.syncs() ==> final(storage).settled().contains(
            old(wal)@.active(),
        ),
        ops@.len() == 0 ==> result is Ok,
        plan_outcome(ops@, read_only) matches Err(error) ==> result == Err::<(), MnemeError>(error),
        ops@.len() == 0 || plan_outcome(ops@, read_only) is Err ==> final(wal)@ == old(wal)@
            && final(storage).files() == old(storage).files(),
        result is Ok && ops@.len() > 0 ==> final(wal)@.agrees_with(final(storage).files())
            && exists|frames: Seq<EncodedFrame>|
            frames.len() == transaction_plan(ops@).len() && #[trigger] are_encoded(
                *encode,
                transaction_plan(ops@),
                *ops,
                old(wal)@.encrypts,
                frames,
            ) && transaction_passes(
                hook,
                old(wal)@,
                content_of(old(storage).files(), old(wal)@.active()).len(),
                frames,
            ) && content_of(final(storage).files(), old(wal)@.active()) == content_of(
                old(storage).files(),
                old(wal)@.active(),
            ) + frames_bytes(frames, frames.len()) && final(wal)@ == logged(
                old(wal)@,
                content_of(old(storage).files(), old(wal)@.active()).len() + frames_bytes(
                    frames,
                    frames.len(),
                ).len(),
            ),
        plan_outcome(ops@, read_only) is Ok ==> (result matches Err(error) ==> log_refused(
            hook,
            failures_of(*old(storage)),
            *encode,
            transaction_plan(ops@),
            *ops,
            old(wal)@,
            content_of(old(storage).files(), old(wal)@.active()).len(),
            error,
        )),
        result is Err ==> taken_back(
            old(wal)@,
            final(wal)@,
            old(storage).files(),
            final(storage).files(),
            old(storage).cuts() || old(storage).reliable(),
        ),
{
    let plan = match plan_transaction(ops, read_only) {
        Ok(plan) => plan,
        Err(error) => {
            return Err(error);
        },
    };
    let sealed: bool = wal.encrypts();
    let ghost model = wal@;
    let ghost before = content_of(storage.files(), model.active());
    let (frames, failure) = encode_frames(encode, &plan, ops, sealed);
    let error: MnemeError = match failure {
        None => {
            let result = log(wal, storage, hook, &frames);
            proof {
                if ops@.len() > 0 {
                    assert(are_encoded(*encode, transaction_plan(ops@), *ops, sealed, frames@));
                }
            }
            return result;
        },
        Some(error) => error,
    };
    let start: u64 = wal.len();
    let cause: MnemeError = if frames.len() > 0 {
        match append_frames(wal, storage, hook, &frames) {
            Ok(()) => error,
            Err(refused) => refused,
        }
    } else {
        assert(at_length(model, model.written as nat) =~= model);
        match wal.ensure_writable() {
            Ok(()) => error,
            Err(refused) => refused,
        }
    };
    let ghost len = choose|len: nat| wal@ == #[trigger] at_length(model, len);
    let ghost files = storage.files();
    proof {
        assert(first_refusal(model, frames@, 0) is None);
        assert(before.is_prefix_of(content_of(files, model.active()))) by {
            let now = content_of(files, model.active());
            assert((before + frames_bytes(frames@, frames@.len())).take(before.len() as int)
                =~= before);
            assert(now.take(before.len() as int) =~= before);
        }
        assert(are_encoded(*encode, transaction_plan(ops@), *ops, sealed, frames@));
        if frames@.len() == 0 {
            assert forall|path: Seq<char>| !in_log(path) implies #[trigger] same_at(
                old(storage).files(),
                files,
                path,
            ) by {}
        }
    }
    let result = fail_log(wal, storage, hook, start, cause);
    proof {
        lemma_outside_log(files, storage.files(), model.active_index);
        lemma_outside_log_twice(old(storage).files(), files, storage.files());
        lemma_kept_by_log(
            model,
            old(storage).files(),
            files,
            storage.files(),
            model.active_index,
        );
        if model.agrees_with(old(storage).files()) {
            assert(content_of(files, model.active()).take(start as int) =~= before);
            assert(before.take(before.len() as int) =~= before);
        }
        assert(at_length(at_length(model, len), start as nat) =~= model);
        if storage.reliable() && model.refusal() is Some && frames@.len() > 0 {
            lemma_refused_writer(model, frames@, frames@.len());
        }
    }
    result
}

proof fn lemma_refused_writer(writer: WriterModel, frames: Seq<EncodedFrame>, count: nat)
    requires
        writer.refusal() is Some,
        count > 0,
    ensures
        first_refusal(writer, frames, count) == writer.refusal(),
    decreases count,
{
    if count > 1 {
        lemma_refused_writer(writer, frames, (count - 1) as nat);
    } else {
        reveal_with_fuel(first_refusal, 2);
    }
}

/// Whether a frame of the log is what a plan asked for, read back.
pub open spec fn reads_back(plan: FramePlan, ops: Seq<LoggedOp>, frame: WalFrame) -> bool {
    match plan {
        FramePlan::Begin { seqno, .. } => frame.seqno == seqno && frame.content is BatchBegin,
        FramePlan::Op { position, seqno, .. } => {
            &&& frame.seqno == seqno
            &&& frame.payload@ == ops[position as int].payload@
            &&& frame.content matches FrameContent::Change { change } && (change matches Ok(change)
                && records(ops[position as int].op, change))
        },
        FramePlan::Commit { seqno, count, crc } => {
            &&& frame.seqno == seqno
            &&& frame.content matches FrameContent::BatchCommit { stated } && stated == Ok::<
                (u32, u32),
                MnemeError,
            >((count, crc))
        },
    }
}

/// Whether the frames from `from` on are a transaction, read back.
pub open spec fn holds_transaction(
    frames: Seq<WalFrame>,
    from: nat,
    ops: Seq<LoggedOp>,
    has_key: bool,
) -> bool {
    let plan = transaction_plan(ops);
    &&& from + plan.len() <= frames.len()
    &&& forall|i: int|
        0 <= i < plan.len() ==> reads_back(plan[i], ops, #[trigger] frames[from + i])
            && seal_failure(frames[from + i], has_key) is None
}

/// What the first `count` frames from `from` on make of a state.
pub open spec fn run_applied(
    frames: Seq<WalFrame>,
    from: nat,
    count: nat,
    state: StateModel,
    watermark: u64,
) -> Outcome {
    applied_all(frames, Seq::new(count, |i: int| from + i), count, state, watermark)
}

proof fn lemma_batch_gathers(
    frames: Seq<WalFrame>,
    from: nat,
    ops: Seq<LoggedOp>,
    count: nat,
    state: StateModel,
    header_len: nat,
    watermark: u64,
    has_key: bool,
)
    requires
        ops.len() > 1,
        ops.len() <= u32::MAX,
        count <= ops.len(),
        holds_transaction(frames, from, ops, has_key),
        replayed(frames, from, state, header_len, watermark, has_key).1 is Ok,
    ensures
        ({
            let start = replayed(frames, from, state, header_len, watermark, has_key).0;
            let members = Seq::new(count, |i: int| from + 1 + i);
            &&& replayed(frames, (from + 1 + count) as nat, state, header_len, watermark, has_key)
                == (Progress { batch: Some(members), ..start }, Ok::<(), MnemeError>(()))
            &&& joined_payloads(frames, members) == payloads_of(ops, count)
        }),
    decreases count,
{
    let start = replayed(frames, from, state, header_len, watermark, has_key).0;
    let plan = transaction_plan(ops);
    if count == 0 {
        assert(plan[0] == FramePlan::Begin { seqno: 0, count: ops.len() as u32 });
        assert(reads_back(plan[0], ops, frames[from + 0int]));
        assert(Seq::new(0, |i: int| from + 1 + i) =~= Seq::<int>::empty());
    } else {
        let less = (count - 1) as nat;
        lemma_batch_gathers(frames, from, ops, less, state, header_len, watermark, has_key);
        let at = from + count;
        assert(plan[count as int] == op_plans(ops)[count - 1]);
        assert(reads_back(plan[count as int], ops, frames[from + count as int]));
        let members = Seq::new(count, |i: int| from + 1 + i);
        assert(members.drop_last() =~= Seq::new(less, |i: int| from + 1 + i));
        assert(members =~= Seq::new(less, |i: int| from + 1 + i).push(at as int));
        assert(frames[members.last()].payload@ == ops[count - 1].payload@);
    }
}

/// A transaction that was logged is replayed as a whole. Where replay has come to its first frame
/// without an open batch, and its changes apply, replay of its frames makes of the state what its
/// changes make of it one after the other, leaves no batch open, and counts the transaction as
/// committed up to its last frame.
pub proof fn logged_transaction_replays(
    frames: Seq<WalFrame>,
    from: nat,
    ops: Seq<LoggedOp>,
    state: StateModel,
    header_len: nat,
    watermark: u64,
    has_key: bool,
)
    requires
        0 < ops.len() <= u32::MAX,
        holds_transaction(frames, from, ops, has_key),
        replayed(frames, from, state, header_len, watermark, has_key).1 is Ok,
        replayed(frames, from, state, header_len, watermark, has_key).0.batch is None,
        run_applied(
            frames,
            (if ops.len() == 1 {
                from
            } else {
                from + 1
            }) as nat,
            ops.len(),
            replayed(frames, from, state, header_len, watermark, has_key).0.state,
            watermark,
        ).1 is Ok,
    ensures
        ({
            let start = replayed(frames, from, state, header_len, watermark, has_key).0;
            let first = (if ops.len() == 1 {
                from
            } else {
                from + 1
            }) as nat;
            let length = transaction_plan(ops).len();
            replayed(
                frames,
                (from + length) as nat,
                state,
                header_len,
                watermark,
                has_key,
            ) == (
                Progress {
                    state: run_applied(frames, first, ops.len(), start.state, watermark).0,
                    batch: None,
                    committed: frames[from + length - 1].end as nat,
                },
                Ok::<(), MnemeError>(()),
            )
        }),
{
    if ops.len() == 1 {
        lemma_single_replays(frames, from, ops, state, header_len, watermark, has_key);
    } else {
        lemma_batch_replays(frames, from, ops, state, header_len, watermark, has_key);
    }
}

proof fn lemma_single_replays(
    frames: Seq<WalFrame>,
    from: nat,
    ops: Seq<LoggedOp>,
    state: StateModel,
    header_len: nat,
    watermark: u64,
    has_key: bool,
)
    requires
        ops.len() == 1,
        holds_transaction(frames, from, ops, has_key),
        replayed(frames, from, state, header_len, watermark, has_key).1 is Ok,
        replayed(frames, from, state, header_len, watermark, has_key).0.batch is None,
        run_applied(
            frames,
            from,
            1,
            replayed(frames, from, state, header_len, watermark, has_key).0.state,
            watermark,
        ).1 is Ok,
    ensures
        transaction_plan(ops).len() == 1,
        replayed(frames, (from + 1) as nat, state, header_len, watermark, has_key) == (
            Progress {
                state: run_applied(
                    frames,
                    from,
                    1,
                    replayed(frames, from, state, header_len, watermark, has_key).0.state,
                    watermark,
                ).0,
                batch: None,
                committed: frames[from as int].end as nat,
            },
            Ok::<(), MnemeError>(()),
        ),
{
    let start = replayed(frames, from, state, header_len, watermark, has_key).0;
    let plan = transaction_plan(ops);
    assert(plan[0] == op_plans(ops)[0]);
    assert(reads_back(plan[0], ops, frames[from + 0int]));
    let single = Seq::new(1, |i: int| from + i);
    reveal_with_fuel(applied_all, 2);
    assert(single[0] == from);
    assert(run_applied(frames, from, 1, start.state, watermark) == applied_after(
        start.state,
        frames[from as int].seqno,
        change_of(frames[from as int]),
        watermark,
    ));
}

#[verifier::spinoff_prover]
proof fn lemma_batch_replays(
    frames: Seq<WalFrame>,
    from: nat,
    ops: Seq<LoggedOp>,
    state: StateModel,
    header_len: nat,
    watermark: u64,
    has_key: bool,
)
    requires
        1 < ops.len() <= u32::MAX,
        holds_transaction(frames, from, ops, has_key),
        replayed(frames, from, state, header_len, watermark, has_key).1 is Ok,
        run_applied(
            frames,
            (from + 1) as nat,
            ops.len(),
            replayed(frames, from, state, header_len, watermark, has_key).0.state,
            watermark,
        ).1 is Ok,
    ensures
        transaction_plan(ops).len() == ops.len() + 2,
        replayed(
            frames,
            (from + ops.len() + 2) as nat,
            state,
            header_len,
            watermark,
            has_key,
        ) == (
            Progress {
                state: run_applied(
                    frames,
                    (from + 1) as nat,
                    ops.len(),
                    replayed(frames, from, state, header_len, watermark, has_key).0.state,
                    watermark,
                ).0,
                batch: None,
                committed: frames[from + ops.len() + 1int].end as nat,
            },
            Ok::<(), MnemeError>(()),
        ),
{
    let start = replayed(frames, from, state, header_len, watermark, has_key).0;
    let plan = transaction_plan(ops);
    let count = ops.len();
    lemma_batch_gathers(frames, from, ops, count, state, header_len, watermark, has_key);
    let members = Seq::new(count, |i: int| from + 1 + i);
    let other = Seq::new(count, |i: int| (from + 1) as nat + i);
    assert(members =~= other);
    let crc = crc32_of(payloads_of(ops, count));
    assert(plan[count + 1int] == FramePlan::Commit { seqno: 0, count: count as u32, crc });
    assert(reads_back(plan[count + 1int], ops, frames[from + (count + 1int)]));
    let at = from + count + 1;
    let progress = Progress { batch: Some(members), ..start };
    assert(replayed(frames, (at + 1) as nat, state, header_len, watermark, has_key) == stepped(
        frames,
        at as int,
        progress,
        watermark,
        has_key,
    ));
    assert(stepped(frames, at as int, progress, watermark, has_key) == batch_committed(
        frames,
        at as int,
        progress,
        Ok((count as u32, crc)),
        watermark,
    ));
    assert(members.len() == count as u32);
    assert(run_applied(frames, (from + 1) as nat, count, start.state, watermark) == applied_all(
        frames,
        members,
        count,
        start.state,
        watermark,
    ));
}

/// A transaction of more than one change whose last frame is missing takes no effect: replay of
/// any beginning of its frames leaves the state and the committed length as they were.
pub proof fn torn_transaction_is_dropped(
    frames: Seq<WalFrame>,
    from: nat,
    ops: Seq<LoggedOp>,
    written: nat,
    state: StateModel,
    header_len: nat,
    watermark: u64,
    has_key: bool,
)
    requires
        1 < ops.len() <= u32::MAX,
        holds_transaction(frames, from, ops, has_key),
        written <= ops.len() + 1,
        replayed(frames, from, state, header_len, watermark, has_key).1 is Ok,
    ensures
        replayed(frames, (from + written) as nat, state, header_len, watermark, has_key).1 is Ok,
        replayed(
            frames,
            (from + written) as nat,
            state,
            header_len,
            watermark,
            has_key,
        ).0.state == replayed(frames, from, state, header_len, watermark, has_key).0.state,
        replayed(
            frames,
            (from + written) as nat,
            state,
            header_len,
            watermark,
            has_key,
        ).0.committed == replayed(frames, from, state, header_len, watermark, has_key).0.committed,
{
    if written > 0 {
        lemma_batch_gathers(
            frames,
            from,
            ops,
            (written - 1) as nat,
            state,
            header_len,
            watermark,
            has_key,
        );
    }
}

/// How many times the soft limit the log may grow before it is flushed in any case.
pub const FLUSH_WAL_HARD_FACTOR: u64 = 12;

/// Whether the log is due to be flushed: it has reached its soft limit, and either there are enough
/// unwritten rows to keep all builders busy or it has reached its hard limit.
pub open spec fn flush_due(
    read_only: bool,
    soft: u64,
    wal_bytes: u64,
    unpersisted: usize,
    parallel_rows: nat,
) -> bool {
    &&& !read_only
    &&& soft != 0
    &&& wal_bytes >= soft
    &&& (wal_bytes >= soft * FLUSH_WAL_HARD_FACTOR || unpersisted >= parallel_rows || (soft
        * FLUSH_WAL_HARD_FACTOR > u64::MAX && wal_bytes == u64::MAX) || (parallel_rows > usize::MAX
        && unpersisted == usize::MAX))
}

/// Decides whether the log is due to be flushed. `parallelism` and `chunk_rows` are those of the
/// flush.
pub fn is_flush_due(
    read_only: bool,
    soft: u64,
    wal_bytes: u64,
    unpersisted: usize,
    parallelism: usize,
    chunk_rows: usize,
) -> (due: bool)
    ensures
        due == flush_due(
            read_only,
            soft,
            wal_bytes,
            unpersisted,
            (parallelism * chunk_rows) as nat,
        ),
{
    if read_only {
        return false;
    }
    if soft == 0 || wal_bytes < soft {
        return false;
    }
    let hard: u64 = match soft.checked_mul(FLUSH_WAL_HARD_FACTOR) {
        Some(hard) => hard,
        None => u64::MAX,
    };
    let parallel_rows: usize = match parallelism.checked_mul(chunk_rows) {
        Some(rows) => rows,
        None => usize::MAX,
    };
    assert(parallelism * chunk_rows >= 0) by (nonlinear_arith)
        requires
            parallelism >= 0,
            chunk_rows >= 0,
    ;
    wal_bytes >= hard || unpersisted >= parallel_rows
}

/// A flush is due once the log has grown to twelve times its soft limit; from the soft limit on it
/// is due where so many versions wait that they can be built in parallel. Below the soft limit,
/// without one, and for a reader it never is. More of the log or more versions never make it less
/// due.
pub proof fn flush_is_due_by_the_log(
    read_only: bool,
    soft: u64,
    wal_bytes: u64,
    unpersisted: usize,
    parallel_rows: nat,
    more_bytes: u64,
    more_rows: usize,
)
    requires
        wal_bytes <= more_bytes,
        unpersisted <= more_rows,
    ensures
        read_only || soft == 0 || wal_bytes < soft ==> !flush_due(
            read_only,
            soft,
            wal_bytes,
            unpersisted,
            parallel_rows,
        ),
        !read_only && soft > 0 && wal_bytes >= soft * 12 ==> flush_due(
            read_only,
            soft,
            wal_bytes,
            unpersisted,
            parallel_rows,
        ),
        !read_only && 0 < soft <= wal_bytes && unpersisted >= parallel_rows ==> flush_due(
            read_only,
            soft,
            wal_bytes,
            unpersisted,
            parallel_rows,
        ),
        wal_bytes < soft * 12 <= u64::MAX && unpersisted < parallel_rows <= usize::MAX
            ==> !flush_due(read_only, soft, wal_bytes, unpersisted, parallel_rows),
        flush_due(read_only, soft, wal_bytes, unpersisted, parallel_rows) ==> flush_due(
            read_only,
            soft,
            more_bytes,
            more_rows,
            parallel_rows,
        ),
{
}

proof fn lemma_insert_counted(ops: Seq<LoggedOp>, count: nat, a: int, b: int)
    requires
        count <= ops.len(),
    ensures
        0 <= a < count && ops[a].op is Insert ==> insert_count(ops, count) >= 1,
        0 <= a < b < count && ops[a].op is Insert && ops[b].op is Insert ==> insert_count(ops, count)
            >= 2,
    decreases count,
{
    if count > 0 {
        let less = (count - 1) as nat;
        if b == less {
            lemma_insert_counted(ops, less, a, a);
        } else {
            lemma_insert_counted(ops, less, a, b);
        }
    }
}

proof fn lemma_two_inserts(ops: Seq<LoggedOp>, count: nat) -> (pair: (int, int))
    requires
        count <= ops.len(),
        insert_count(ops, count) >= 1,
    ensures
        0 <= pair.1 < count && ops[pair.1].op is Insert,
        insert_count(ops, count) >= 2 ==> 0 <= pair.0 < pair.1 && ops[pair.0].op is Insert,
    decreases count,
{
    let less = (count - 1) as nat;
    if ops[less as int].op is Insert {
        if insert_count(ops, less) >= 1 {
            let rest = lemma_two_inserts(ops, less);
            (rest.1, less as int)
        } else {
            (0, less as int)
        }
    } else {
        lemma_two_inserts(ops, less)
    }
}

/// A transaction is observed as a batch exactly where it inserts two rows or more; otherwise as the
/// first of its changes that is observed, and not at all where none is.
pub proof fn transactions_are_observed_once(
    ops: Seq<LoggedOp>,
    result: Option<ObservedOp>,
    a: int,
    b: int,
)
    requires
        observed_of(ops, result),
    ensures
        0 <= a < b < ops.len() && ops[a].op is Insert && ops[b].op is Insert ==> result == Some(
            ObservedOp::InsertBatch,
        ),
        result == Some(ObservedOp::InsertBatch) ==> exists|i: int, j: int|
            0 <= i < j < ops.len() && (#[trigger] ops[i]).op is Insert && (
            #[trigger] ops[j]).op is Insert,
        result == Some(ObservedOp::Insert) ==> exists|i: int|
            0 <= i < ops.len() && (#[trigger] ops[i]).op is Insert,
        result == Some(ObservedOp::Delete) ==> exists|i: int|
            0 <= i < ops.len() && (#[trigger] ops[i]).op is DeleteRow,
        result == Some(ObservedOp::Touch) ==> exists|i: int|
            0 <= i < ops.len() && (#[trigger] ops[i]).op is Access,
        result == Some(ObservedOp::Relate) ==> exists|i: int|
            0 <= i < ops.len() && (#[trigger] ops[i]).op is Relate,
        result == Some(ObservedOp::Unrelate) ==> exists|i: int|
            0 <= i < ops.len() && (#[trigger] ops[i]).op is Unrelate,
        result is None && 0 <= a < ops.len() ==> !(ops[a].op is Insert) && !(ops[a].op is DeleteRow)
            && !(ops[a].op is Access) && !(ops[a].op is Relate) && !(ops[a].op is Unrelate),
{
    lemma_insert_counted(ops, ops.len(), a, b);
    if insert_count(ops, ops.len()) > 1 {
        let pair = lemma_two_inserts(ops, ops.len());
        assert(ops[pair.0].op is Insert && ops[pair.1].op is Insert);
    }
    if 0 <= a < ops.len() && result is None {
        assert(ops[a].op.observed() is None);
    }
}

/// Every frame of a transaction is written whole, one behind the other: a frame lies behind the
/// bytes of those before it, and nothing lies between or behind them.
pub proof fn every_frame_is_written(frames: Seq<EncodedFrame>, count: nat, at: int)
    requires
        0 <= at < count <= frames.len(),
    ensures
        ({
            let all = frames_bytes(frames, count);
            let from = frames_bytes(frames, at as nat).len() as int;
            let len = frames[at].bytes@.len() as int;
            &&& from + len <= all.len()
            &&& all.subrange(from, from + len) == frames[at].bytes@
            &&& at == 0 ==> from == 0
            &&& at == count - 1 ==> from + len == all.len()
            &&& at + 1 < count ==> frames_bytes(frames, (at + 1) as nat).len() == from + len
        }),
    decreases count,
{
    let less = (count - 1) as nat;
    let before = frames_bytes(frames, less);
    let all = frames_bytes(frames, count);
    let from = frames_bytes(frames, at as nat).len() as int;
    let len = frames[at].bytes@.len() as int;
    if at < less {
        every_frame_is_written(frames, less, at);
        assert(all.subrange(from, from + len) =~= before.subrange(from, from + len));
        if at + 1 == less {
            assert(frames_bytes(frames, (at + 1) as nat).len() == from + len);
        }
    } else {
        assert(all.subrange(from, from + len) =~= frames[at].bytes@);
    }
}

/// A transaction is written exactly where each of its frames is taken: where the writer can write
/// and was not taken out of use, and no payload is longer than its limit.
pub proof fn only_taken_frames_are_written(
    writer: WriterModel,
    frames: Seq<EncodedFrame>,
    count: nat,
)
    requires
        count <= frames.len(),
    ensures
        first_refusal(writer, frames, count) is None <==> forall|i: int|
            0 <= i < count ==> writer.writable && !writer.poisoned && (writer.frame_max == 0 || (
            #[trigger] frames[i]).payload_len <= writer.frame_max),
    decreases count,
{
    if count > 0 {
        only_taken_frames_are_written(writer, frames, (count - 1) as nat);
        assert(frames[count - 1] == frames[count - 1]);
    }
}

/// After a transaction the writer stands where its file ends; where the file has grown to its
/// limit, it stands behind the header of the next file, and what it left behind is counted.
pub proof fn writer_stands_where_the_file_ends(writer: WriterModel, len: nat)
    requires
        len <= u64::MAX,
        writer.sealed_bytes + len <= u64::MAX,
        writer.active_index < u32::MAX,
        writer.header.len() <= u64::MAX,
    ensures
        ({
            let after = logged(writer, len);
            let full = writer.writable && writer.max_file_bytes > 0 && len >= writer.max_file_bytes;
            &&& !full ==> after.written == len && after.active_index == writer.active_index
                && after.sealed_bytes == writer.sealed_bytes && after.poisoned == writer.poisoned
            &&& full ==> after.written == writer.header.len() && after.active_index
                == writer.active_index + 1 && after.sealed_bytes == writer.sealed_bytes + len
            &&& after.header == writer.header
            &&& after.policy == writer.policy
            &&& after.frame_max == writer.frame_max
            &&& after.writable == writer.writable
        }),
{
}

/// Nothing is planned for an empty transaction; a single change is one frame; several changes are
/// framed by a beginning and an end that state their number. A reader logs nothing.
pub proof fn transactions_are_framed(ops: Seq<LoggedOp>, at: int)
    requires
        ops.len() <= u32::MAX,
    ensures
        plan_outcome(ops, true) is Ok <==> ops.len() == 0,
        plan_outcome(ops, false) matches Ok(plan) && {
            &&& ops.len() <= 1 ==> plan.len() == ops.len()
            &&& ops.len() > 1 ==> plan.len() == ops.len() + 2 && (plan[0] matches FramePlan::Begin {
                count,
                ..
            } && count == ops.len()) && (plan.last() matches FramePlan::Commit { count, .. }
                && count == ops.len())
            &&& 0 <= at < ops.len() ==> {
                let frame = plan[if ops.len() > 1 {
                    at + 1
                } else {
                    at
                }];
                frame matches FramePlan::Op { position, seqno, .. } && position == at && seqno
                    == ops[at].op.seqno()
            }
        },
{
}

/// A frame states the commit number and the kind of the change that it records: of a new version
/// those of the version, of every other change its own.
pub proof fn frames_state_their_change(op: WriteOp, change: Change)
    ensures
        op matches WriteOp::Insert { slot, .. } ==> op.seqno() == slot.seqno && op.kind()
            == FrameKind::Insert,
        op matches WriteOp::DeleteRow { seqno, .. } ==> op.seqno() == seqno && op.kind()
            == FrameKind::DeleteRow,
        op matches WriteOp::Access { seqno, .. } ==> op.seqno() == seqno && op.kind()
            == FrameKind::TouchRow,
        op matches WriteOp::Relate { seqno, .. } ==> op.seqno() == seqno && op.kind()
            == FrameKind::Relate,
        op matches WriteOp::Unrelate { seqno, .. } ==> op.seqno() == seqno && op.kind()
            == FrameKind::Unrelate,
        op matches WriteOp::NsRegister { seqno, .. } ==> op.seqno() == seqno && op.kind()
            == FrameKind::NsRegister,
        op matches WriteOp::NsUnregister { seqno, .. } ==> op.seqno() == seqno && op.kind()
            == FrameKind::NsUnregister,
        op matches WriteOp::RelKindRegister { seqno, .. } ==> op.seqno() == seqno && op.kind()
            == FrameKind::RelKindRegister,
        records(op, change) ==> change.kind() == op.kind(),
{
}

} // verus!
