//! What comes back of a transaction that was logged.

use vstd::prelude::*;

use crate::error::MnemeError;
use crate::log::{
    holds_transaction, logged_transaction_replays, op_plans, reads_back, records, run_applied,
    transaction_plan, LoggedOp, WriteOp,
};
use crate::record::{text_hash_of, Meta, SlotData, SlotView, VectorView};
use crate::replay::{
    applied, applied_after, applied_all, change_of, replayed, stepped, Progress,
};
use crate::state::{EdgeKey, EdgeView, StateModel};
use crate::wal::{Change, Envelope, FrameContent, WalFrame};

verus! {

/// Whether the two states agree on everything but the versions and what tells of them.
pub open spec fn only_versions_differ(before: StateModel, after: StateModel) -> bool {
    &&& after.access == before.access
    &&& after.ns_registry == before.ns_registry
    &&& after.ns_by_path == before.ns_by_path
    &&& after.rel_kind_names == before.rel_kind_names
    &&& after.next_rel_kind == before.next_rel_kind
    &&& after.next_ns_id == before.next_ns_id
    &&& after.out_edges == before.out_edges
    &&& after.in_edges == before.in_edges
    &&& after.unavailable == before.unavailable
    &&& after.seqno == before.seqno
}

/// Whether the two states agree on the versions and on what tells of them.
pub open spec fn same_versions(before: StateModel, after: StateModel) -> bool {
    &&& after.slots == before.slots
    &&& after.hidden == before.hidden
    &&& after.slot_segment == before.slot_segment
    &&& after.latest == before.latest
    &&& after.next_rowid == before.next_rowid
}

/// Whether a version was put at the end: it is the latest of its row and visible, the version that
/// was the latest is hidden, no segment holds it yet, and every other version is as it was.
pub open spec fn version_added(before: StateModel, after: StateModel, rowid: u64) -> bool {
    let count = before.slots.len() as int;
    &&& after.slots.len() == count + 1
    &&& after.hidden.len() == count + 1
    &&& after.slot_segment.len() == count + 1
    &&& forall|i: int| 0 <= i < count ==> #[trigger] after.slots[i] == before.slots[i]
    &&& forall|i: int|
        0 <= i < count ==> #[trigger] after.slot_segment[i] == before.slot_segment[i]
    &&& forall|i: int|
        0 <= i < count ==> #[trigger] after.hidden[i] == (before.hidden[i] || (
        before.latest.dom().contains(rowid) && before.latest[rowid] == i))
    &&& after.slot_segment[count] is None
    &&& !after.hidden[count]
    &&& after.latest.dom().contains(rowid)
    &&& after.latest[rowid] == count
    &&& forall|row: u64|
        row != rowid ==> #[trigger] after.latest.dom().contains(row) == before.latest.dom().contains(
            row,
        ) && (before.latest.dom().contains(row) ==> after.latest[row] == before.latest[row])
    &&& after.next_rowid > rowid
    &&& after.next_rowid >= before.next_rowid
}

/// An insertion that was logged comes back whole. Replay makes of it the version that was written,
/// with every field of it and with the components of the vector that the transaction was given;
/// whatever the change replaced is hidden, and nothing else is touched.
pub proof fn logged_insertion_comes_back(
    state: StateModel,
    slot: SlotData,
    vector: Vec<u32>,
    change: Change,
)
    requires
        records(WriteOp::Insert { slot, vector }, change),
        !slot.deleted,
        slot.text_hash == text_hash_of(slot@.text),
        state.consistent(),
        state.ns_registry.dom().contains(slot.ns_id as u64),
        state.ns_registry[slot.ns_id as u64] == slot.ns_path@,
        state.slots.len() <= u32::MAX,
        slot.rowid < u64::MAX,
    ensures
        applied(state, slot.seqno, change).1 is Ok,
        version_added(state, applied(state, slot.seqno, change).0, slot.rowid),
        only_versions_differ(state, applied(state, slot.seqno, change).0),
        ({
            let version = applied(state, slot.seqno, change).0.slots.last();
            &&& version.vector == VectorView::Owned(vector@)
            &&& version.norm_sq == slot.norm_sq
            &&& version.rowid == slot.rowid
            &&& version.seqno == slot.seqno
            &&& version.ns_id == slot.ns_id
            &&& version.ns_path == slot.ns_path@
            &&& version.key == slot@.key
            &&& version.text == slot@.text
            &&& version.text_hash == slot.text_hash
            &&& version.meta == slot.meta@
            &&& version.created_at == slot.created_at
            &&& version.expires_at == slot.expires_at
            &&& version.importance == slot.importance
            &&& version.confidence == slot.confidence
            &&& version.valid_from == slot.valid_from
            &&& version.valid_to == slot.valid_to
            &&& version.provenance == slot@.provenance
            &&& version.tx_ms == slot.tx_ms
            &&& !version.deleted
        }),
        applied(state, slot.seqno, change).0.slots.last() == (SlotView {
            vector: VectorView::Owned(vector@),
            ..slot@
        }),
{
}

/// A record that states no importance, no confidence and no validity of its own gets one half, one,
/// and the time of its transaction on without an end.
pub proof fn unstated_fields_have_defaults(state: StateModel, seqno: u64, change: Change)
    requires
        state.slots.len() <= u32::MAX,
        change matches Change::Insert { entry, .. } && entry.rowid < u64::MAX && entry.importance
            is None && entry.confidence is None && entry.valid_time is None,
    ensures
        ({
            let version = applied(state, seqno, change).0.slots.last();
            &&& version.importance == 0x3F00_0000u32
            &&& version.confidence == 0x3F80_0000u32
            &&& version.valid_from == change->Insert_tx_ms
            &&& version.valid_to is None
            &&& version.seqno == change->Insert_entry.seqno
        }),
{
}

/// A deletion that was logged comes back: the row ends in a version that is marked as deleted, has
/// the commit number and the time of the deletion, and holds nothing of the record.
pub proof fn logged_deletion_comes_back(
    state: StateModel,
    seqno: u64,
    rowid: u64,
    tx_ms: i64,
    change: Change,
)
    requires
        records(WriteOp::DeleteRow { seqno, rowid, tx_ms }, change),
        state.consistent(),
        state.slots.len() <= u32::MAX,
        rowid < u64::MAX,
    ensures
        applied(state, seqno, change).1 is Ok,
        version_added(state, applied(state, seqno, change).0, rowid),
        only_versions_differ(state, applied(state, seqno, change).0),
        ({
            let version = applied(state, seqno, change).0.slots.last();
            &&& version.deleted
            &&& version.rowid == rowid
            &&& version.seqno == seqno
            &&& version.tx_ms == tx_ms
            &&& version.created_at == tx_ms
            &&& version.valid_from == tx_ms
            &&& version.key is None
            &&& version.text is None
            &&& version.vector == VectorView::Owned(Seq::empty())
        }),
{
}

/// Accesses that were logged are counted: the count of the row rises by what was recorded, up to
/// the largest count, its last access is the recorded one, and no other row is touched.
pub proof fn logged_access_is_counted(
    state: StateModel,
    seqno: u64,
    rowid: u64,
    at_ms: i64,
    access_delta: u32,
    importance_delta: u32,
    change: Change,
)
    requires
        records(
            WriteOp::Access { seqno, rowid, at_ms, access_delta, importance_delta },
            change,
        ),
    ensures
        applied(state, seqno, change).1 is Ok,
        ({
            let after = applied(state, seqno, change).0;
            let known = if state.access.dom().contains(rowid) {
                state.access[rowid].access_count as int
            } else {
                0
            };
            &&& after.access.dom().contains(rowid)
            &&& after.access[rowid].last_access_ms == at_ms
            &&& known + access_delta <= u32::MAX ==> after.access[rowid].access_count == known
                + access_delta
            &&& known + access_delta > u32::MAX ==> after.access[rowid].access_count == u32::MAX
            &&& forall|row: u64|
                row != rowid ==> #[trigger] after.access.dom().contains(row)
                    == state.access.dom().contains(row) && (state.access.dom().contains(row)
                    ==> after.access[row] == state.access[row])
            &&& same_versions(state, after)
            &&& after.out_edges == state.out_edges
            &&& after.in_edges == state.in_edges
            &&& after.ns_registry == state.ns_registry
            &&& after.rel_kind_names == state.rel_kind_names
        }),
{
}

/// An edge that was logged is found from both of its ends, with its weight and its metadata.
pub proof fn logged_edge_comes_back(
    state: StateModel,
    seqno: u64,
    from: u64,
    to: u64,
    kind: u16,
    weight: u32,
    meta: Meta,
    change: Change,
)
    requires
        records(WriteOp::Relate { seqno, from, to, kind, weight, meta }, change),
    ensures
        applied(state, seqno, change).1 is Ok,
        ({
            let after = applied(state, seqno, change).0;
            let out_key = EdgeKey { row: from, other: to, kind };
            let in_key = EdgeKey { row: to, other: from, kind };
            let body = EdgeView { weight, metadata: meta@ };
            &&& after.out_edges == state.out_edges.insert(out_key, body)
            &&& after.in_edges == state.in_edges.insert(in_key, body)
            &&& same_versions(state, after)
            &&& after.access == state.access
            &&& after.ns_registry == state.ns_registry
            &&& after.rel_kind_names == state.rel_kind_names
        }),
{
}

/// An edge whose removal was logged is found from neither of its ends, and every other edge stays.
pub proof fn logged_removal_takes_the_edge_out(
    state: StateModel,
    seqno: u64,
    from: u64,
    to: u64,
    kind: u16,
    change: Change,
)
    requires
        records(WriteOp::Unrelate { seqno, from, to, kind }, change),
    ensures
        applied(state, seqno, change).1 is Ok,
        ({
            let after = applied(state, seqno, change).0;
            let out_key = EdgeKey { row: from, other: to, kind };
            let in_key = EdgeKey { row: to, other: from, kind };
            &&& !after.out_edges.dom().contains(out_key)
            &&& !after.in_edges.dom().contains(in_key)
            &&& forall|key: EdgeKey|
                key != out_key ==> #[trigger] after.out_edges.dom().contains(key)
                    == state.out_edges.dom().contains(key) && (state.out_edges.dom().contains(key)
                    ==> after.out_edges[key] == state.out_edges[key])
            &&& forall|key: EdgeKey|
                key != in_key ==> #[trigger] after.in_edges.dom().contains(key)
                    == state.in_edges.dom().contains(key) && (state.in_edges.dom().contains(key)
                    ==> after.in_edges[key] == state.in_edges[key])
            &&& same_versions(state, after)
            &&& after.access == state.access
        }),
{
}

/// A namespace whose registration was logged is bound again, in both directions, and its number is
/// not handed out again. Only the largest number, which leaves no next one, is an error.
pub proof fn logged_namespace_comes_back(
    state: StateModel,
    seqno: u64,
    ns_id: u32,
    path: String,
    change: Change,
)
    requires
        records(WriteOp::NsRegister { seqno, ns_id, path }, change),
    ensures
        ({
            let (after, result) = applied(state, seqno, change);
            &&& result is Err <==> ns_id == u32::MAX
            &&& after.ns_registry == state.ns_registry.insert(ns_id as u64, path@)
            &&& after.ns_by_path == state.ns_by_path.insert(path@, ns_id)
            &&& result is Ok ==> after.next_ns_id > ns_id
            &&& after.next_ns_id >= state.next_ns_id
            &&& same_versions(state, after)
            &&& after.access == state.access
            &&& after.out_edges == state.out_edges
            &&& after.rel_kind_names == state.rel_kind_names
        }),
{
}

/// A namespace whose removal was logged is bound no more, in neither direction; the others stay.
pub proof fn logged_namespace_is_taken_out(
    state: StateModel,
    seqno: u64,
    ns_id: u32,
    change: Change,
)
    requires
        records(WriteOp::NsUnregister { seqno, ns_id }, change),
    ensures
        ({
            let (after, result) = applied(state, seqno, change);
            &&& result is Ok
            &&& !after.ns_registry.dom().contains(ns_id as u64)
            &&& state.ns_registry.dom().contains(ns_id as u64)
                ==> !after.ns_by_path.dom().contains(state.ns_registry[ns_id as u64])
            &&& forall|id: u64|
                id != ns_id as u64 ==> #[trigger] after.ns_registry.dom().contains(id)
                    == state.ns_registry.dom().contains(id) && (state.ns_registry.dom().contains(id)
                    ==> after.ns_registry[id] == state.ns_registry[id])
            &&& after.next_ns_id == state.next_ns_id
            &&& same_versions(state, after)
            &&& after.access == state.access
        }),
{
}

/// A relation kind whose registration was logged is bound again. It is refused where its number is
/// built in or leaves no next one, where the number has another name, and where the name has
/// another number.
pub proof fn logged_relation_kind_comes_back(
    state: StateModel,
    seqno: u64,
    kind: u16,
    name: String,
    change: Change,
)
    requires
        records(WriteOp::RelKindRegister { seqno, kind, name }, change),
    ensures
        ({
            let (after, result) = applied(state, seqno, change);
            &&& result is Ok ==> {
                &&& 16 <= kind < u16::MAX
                &&& after.rel_kind_names == state.rel_kind_names.insert(kind as u64, name@)
                &&& after.next_rel_kind > kind
                &&& after.next_rel_kind >= state.next_rel_kind
                &&& forall|k: u64|
                    state.rel_kind_names.dom().contains(k) && #[trigger] state.rel_kind_names[k]
                        == name@ ==> k == kind as u64
                &&& state.rel_kind_names.dom().contains(kind as u64)
                    ==> state.rel_kind_names[kind as u64] == name@
            }
            &&& result is Err ==> after == state
            &&& 16 <= kind < u16::MAX && (forall|k: u64| #[trigger]
                state.rel_kind_names.dom().contains(k) ==> k != kind as u64
                    && state.rel_kind_names[k] != name@) ==> result is Ok
            &&& same_versions(state, after)
            &&& after.access == state.access
            &&& after.ns_registry == state.ns_registry
        }),
{
}

/// Whether a state is what the change of a frame makes of another, with the commit number raised to
/// that of the frame; the same, where the watermark covers the frame.
pub open spec fn is_step(
    frame: WalFrame,
    watermark: u64,
    before: StateModel,
    after: StateModel,
) -> bool {
    if frame.seqno <= watermark {
        after == before
    } else {
        frame.content matches FrameContent::Change { change } && (change matches Ok(change) && {
            let made = applied(before, frame.seqno, change);
            &&& made.1 is Ok
            &&& after == (StateModel { seqno: after.seqno, ..made.0 })
            &&& after.seqno >= frame.seqno
            &&& after.seqno >= made.0.seqno
            &&& after.seqno == frame.seqno || after.seqno == made.0.seqno
        })
    }
}

/// Whether the frame at a place of a run leads from one state to the next.
pub open spec fn leads_on(
    frames: Seq<WalFrame>,
    from: nat,
    watermark: u64,
    states: Seq<StateModel>,
    at: int,
) -> bool {
    is_step(frames[from + at], watermark, states[at], states[at + 1])
}

/// The states that a run of changes goes through: each is what its change makes of the one before
/// it.
pub open spec fn is_trace(
    frames: Seq<WalFrame>,
    from: nat,
    watermark: u64,
    states: Seq<StateModel>,
) -> bool {
    forall|i: int|
        0 <= i < states.len() - 1 ==> #[trigger] leads_on(frames, from, watermark, states, i)
}

proof fn lemma_step(state: StateModel, frame: WalFrame, watermark: u64)
    requires
        frame.content is Change,
        applied_after(state, frame.seqno, change_of(frame), watermark).1 is Ok,
    ensures
        is_step(
            frame,
            watermark,
            state,
            applied_after(state, frame.seqno, change_of(frame), watermark).0,
        ),
{
}

#[verifier::spinoff_prover]
proof fn lemma_run_has_trace(
    frames: Seq<WalFrame>,
    from: nat,
    count: nat,
    total: nat,
    state: StateModel,
    watermark: u64,
) -> (states: Seq<StateModel>)
    requires
        count <= total,
        from + total <= frames.len(),
        forall|i: int| from <= i < from + total ==> (#[trigger] frames[i]).content is Change,
        applied_all(frames, Seq::new(total, |i: int| from + i), count, state, watermark).1 is Ok,
    ensures
        states.len() == count + 1,
        states[0] == state,
        states[count as int] == applied_all(
            frames,
            Seq::new(total, |i: int| from + i),
            count,
            state,
            watermark,
        ).0,
        is_trace(frames, from, watermark, states),
    decreases count,
{
    let members = Seq::new(total, |i: int| from + i);
    if count == 0 {
        seq![state]
    } else {
        let less = (count - 1) as nat;
        let before = lemma_run_has_trace(frames, from, less, total, state, watermark);
        let earlier = applied_all(frames, members, less, state, watermark);
        let end = applied_all(frames, members, count, state, watermark);
        let frame = frames[(from + less) as int];
        assert(members[count - 1] == from + less);
        assert(end == applied_after(earlier.0, frame.seqno, change_of(frame), watermark));
        lemma_step(earlier.0, frame, watermark);
        let states = before.push(end.0);
        assert forall|i: int| 0 <= i < states.len() - 1 implies #[trigger] leads_on(
            frames,
            from,
            watermark,
            states,
            i,
        ) by {
            if i < less {
                assert(leads_on(frames, from, watermark, before, i));
            }
        }
        states
    }
}

/// Where the changes of a transaction begin: behind the frame that opens its batch, where it has
/// more than one.
pub open spec fn first_change(from: nat, count: nat) -> nat {
    if count == 1 {
        from
    } else {
        from + 1
    }
}

/// A transaction that was logged is replayed change by change, and no change is left out: the state
/// goes through as many steps as the transaction has changes, each of which is what the change that
/// was logged makes of the state before it.
#[verifier::spinoff_prover]
pub proof fn every_logged_change_is_replayed(
    frames: Seq<WalFrame>,
    from: nat,
    ops: Seq<LoggedOp>,
    state: StateModel,
    header_len: nat,
    watermark: u64,
    has_key: bool,
)
    requires
        0 < ops.len() <= u32::MAX,
        holds_transaction(frames, from, ops, has_key),
        replayed(frames, from, state, header_len, watermark, has_key).1 is Ok,
        replayed(frames, from, state, header_len, watermark, has_key).0.batch is None,
        run_applied(
            frames,
            (if ops.len() == 1 {
                from
            } else {
                from + 1
            }) as nat,
            ops.len(),
            replayed(frames, from, state, header_len, watermark, has_key).0.state,
            watermark,
        ).1 is Ok,
    ensures
        exists|states: Seq<StateModel>|
            {
                let first = first_change(from, ops.len());
                let last = (if ops.len() == 1 {
                    from + 1
                } else {
                    from + ops.len() + 2
                }) as nat;
                let end = replayed(frames, last, state, header_len, watermark, has_key);
                &&& states.len() == ops.len() + 1
                &&& states[0] == replayed(
                    frames,
                    from,
                    state,
                    header_len,
                    watermark,
                    has_key,
                ).0.state
                &&& #[trigger] is_trace(
                    frames,
                    first_change(from, ops.len()),
                    watermark,
                    states,
                )
                &&& end.1 is Ok
                &&& end.0.state == states[ops.len() as int]
                &&& end.0.batch is None
                &&& end.0.committed == frames[last - 1].end
                &&& forall|i: int|
                    0 <= i < ops.len() ==> (#[trigger] frames[first + i]).seqno
                        == ops[i].op.seqno() && (frames[first
                        + i].content matches FrameContent::Change { change } && (
                    change matches Ok(change) && records(ops[i].op, change)))
            },
{
    let first = first_change(from, ops.len());
    let start = replayed(frames, from, state, header_len, watermark, has_key).0.state;
    let plan = transaction_plan(ops);
    logged_transaction_replays(frames, from, ops, state, header_len, watermark, has_key);
    assert forall|i: int| 0 <= i < ops.len() implies (#[trigger] frames[first + i]).seqno
        == ops[i].op.seqno() && (frames[first + i].content matches FrameContent::Change { change }
        && (change matches Ok(change) && records(ops[i].op, change))) by {
        let at = if ops.len() == 1 {
            i
        } else {
            i + 1
        };
        assert(plan[at] == op_plans(ops)[i]);
        assert(reads_back(plan[at], ops, frames[from + at]));
        assert(frames[from + at] == frames[first + i]);
    }
    assert forall|i: int| first <= i < first + ops.len() implies (
    #[trigger] frames[i]).content is Change by {
        assert(frames[first + (i - first)].seqno == ops[i - first].op.seqno());
    }
    let states = lemma_run_has_trace(frames, first, ops.len(), ops.len(), start, watermark);
    assert(is_trace(frames, first, watermark, states));
}

/// A sealed frame is not read without a key: replay ends with a refusal and changes nothing. With a
/// key, a frame that does not open ends it with its own failure.
pub proof fn sealed_frame_needs_its_key(
    frames: Seq<WalFrame>,
    at: int,
    progress: Progress,
    watermark: u64,
    has_key: bool,
)
    requires
        0 <= at < frames.len(),
        frames[at].envelope is Sealed,
    ensures
        !has_key ==> stepped(frames, at, progress, watermark, has_key) == (
            progress,
            Err::<(), MnemeError>(
                MnemeError::Unsupported { feature: crate::error::Feature::Encrypt },
            ),
        ),
        has_key ==> (frames[at].envelope matches Envelope::Sealed { failure } && (
        failure matches Some(error) ==> stepped(frames, at, progress, watermark, has_key) == (
            progress,
            Err::<(), MnemeError>(error),
        ))),
{
}

/// A change outside of a batch takes effect at once, is committed up to the end of its frame, and
/// raises the commit number of the state to its own.
pub proof fn single_change_takes_effect(
    frames: Seq<WalFrame>,
    at: int,
    progress: Progress,
    watermark: u64,
    has_key: bool,
    change: Change,
)
    requires
        0 <= at < frames.len(),
        progress.batch is None,
        frames[at].envelope is Plain,
        frames[at].content == (FrameContent::Change { change: Ok(change) }),
        frames[at].seqno > watermark,
        applied(progress.state, frames[at].seqno, change).1 is Ok,
    ensures
        ({
            let (after, result) = stepped(frames, at, progress, watermark, has_key);
            &&& result is Ok
            &&& after.batch is None
            &&& after.committed == frames[at].end
            &&& after.state.slots == applied(progress.state, frames[at].seqno, change).0.slots
            &&& after.state.access == applied(progress.state, frames[at].seqno, change).0.access
            &&& after.state.latest == applied(progress.state, frames[at].seqno, change).0.latest
            &&& after.state.seqno >= frames[at].seqno
            &&& after.state.seqno >= progress.state.seqno
        }),
{
}

} // verus!
