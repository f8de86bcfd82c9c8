//! Replay of the log.

use vstd::prelude::*;

use crate::crc::{crc32, crc32_of};
use crate::error::{corrupted, Fault, Feature, MnemeError};
use crate::record::{slot_of_entry, tombstone_of, VectorStorage, VectorView};
use crate::state::{counters_rise, Edge, EdgeView, Outcome, StateModel, WriterState};
use crate::wal::{Change, Envelope, FrameContent, WalFrame, WalImage};

verus! {

/// What a change makes of a state. `seqno` is the commit number of its frame.
pub open spec fn applied(state: StateModel, seqno: u64, change: Change) -> Outcome {
    match change {
        Change::NsRegister { ns_id, path } => state.register_ns(ns_id, path@),
        Change::NsUnregister { ns_id } => (state.unregister_ns(ns_id), Ok(())),
        Change::RelKindRegister { kind, name } => state.register_rel_kind(kind, name@),
        Change::Insert { entry, vector, norm_sq, tx_ms } => {
            let slot = slot_of_entry(
                state.path_of(entry.ns_id),
                entry@,
                VectorView::Owned(vector@),
                norm_sq,
                tx_ms,
                false,
            );
            let advanced = state.advance_rowid(entry.rowid);
            if advanced.1 is Err {
                advanced
            } else {
                advanced.0.commit(slot, true)
            }
        },
        Change::DeleteRow { rowid, tx_ms } => {
            let advanced = state.advance_rowid(rowid);
            if advanced.1 is Err {
                advanced
            } else {
                advanced.0.commit(
                    tombstone_of(rowid, seqno, tx_ms, VectorView::Owned(Seq::empty()), 0),
                    true,
                )
            }
        },
        Change::TouchRow { rowid, at_ms, access_delta, .. } => (
            state.touch(rowid, at_ms, access_delta),
            Ok(()),
        ),
        Change::Relate { edge } => (
            state.relate(
                edge.from,
                edge.to,
                edge.kind,
                EdgeView { weight: edge.weight, metadata: edge.metadata@ },
            ),
            Ok(()),
        ),
        Change::Unrelate { from, to, kind } => (state.unrelate(from, to, kind), Ok(())),
        Change::Passive => (state, Ok(())),
    }
}

/// What a frame makes of a state: nothing, where the state already covers its commit number.
pub open spec fn applied_after(
    state: StateModel,
    seqno: u64,
    change: Result<Change, MnemeError>,
    watermark: u64,
) -> Outcome {
    if seqno <= watermark {
        (state, Ok(()))
    } else {
        match change {
            Ok(change) => {
                let outcome = applied(state, seqno, change);
                if outcome.1 is Err {
                    outcome
                } else {
                    (outcome.0.raise_seqno(seqno), Ok(()))
                }
            },
            Err(error) => (state, Err(error)),
        }
    }
}

/// The change of a frame.
pub open spec fn change_of(frame: WalFrame) -> Result<Change, MnemeError> {
    match frame.content {
        FrameContent::Change { change } => change,
        _ => Ok(Change::Passive),
    }
}

/// What the first `count` of the listed frames make of a state, one after the other. The first
/// failure ends it.
pub open spec fn applied_all(
    frames: Seq<WalFrame>,
    members: Seq<int>,
    count: nat,
    state: StateModel,
    watermark: u64,
) -> Outcome
    decreases count,
{
    if count == 0 {
        (state, Ok(()))
    } else {
        let before = applied_all(frames, members, (count - 1) as nat, state, watermark);
        if before.1 is Err {
            before
        } else {
            let frame = frames[members[count - 1]];
            applied_after(before.0, frame.seqno, change_of(frame), watermark)
        }
    }
}

/// The payloads of the listed frames one behind the other.
pub open spec fn joined_payloads(frames: Seq<WalFrame>, members: Seq<int>) -> Seq<u8>
    decreases members.len(),
{
    if members.len() == 0 {
        Seq::empty()
    } else {
        joined_payloads(frames, members.drop_last()) + frames[members.last()].payload@
    }
}

/// How far a replay has come.
pub struct Progress {
    pub state: StateModel,
    /// The frames of the batch that is open, where one is.
    pub batch: Option<Seq<int>>,
    /// Up to where the file is committed.
    pub committed: nat,
}

/// What keeps a frame from being read.
pub open spec fn seal_failure(frame: WalFrame, has_key: bool) -> Option<MnemeError> {
    match frame.envelope {
        Envelope::Plain => None,
        Envelope::Sealed { failure } => if has_key {
            failure
        } else {
            Some(MnemeError::Unsupported { feature: Feature::Encrypt })
        },
    }
}

/// What the end of a batch makes of a replay.
pub open spec fn batch_committed(
    frames: Seq<WalFrame>,
    at: int,
    progress: Progress,
    stated: Result<(u32, u32), MnemeError>,
    watermark: u64,
) -> (Progress, Result<(), MnemeError>) {
    match stated {
        Err(error) => (progress, Err(error)),
        Ok((count, crc)) => match progress.batch {
            None => (Progress { committed: frames[at].end as nat, ..progress }, Ok(())),
            Some(members) => if members.len() != count || crc32_of(joined_payloads(frames, members))
                != crc {
                (Progress { batch: None, ..progress }, Err(corrupted(Fault::BatchMismatch)))
            } else {
                let outcome = applied_all(
                    frames,
                    members,
                    members.len(),
                    progress.state,
                    watermark,
                );
                if outcome.1 is Err {
                    (Progress { state: outcome.0, batch: None, ..progress }, outcome.1)
                } else {
                    (
                        Progress { state: outcome.0, batch: None, committed: frames[at].end as nat },
                        Ok(()),
                    )
                }
            },
        },
    }
}

/// What one frame makes of a replay.
pub open spec fn stepped(
    frames: Seq<WalFrame>,
    at: int,
    progress: Progress,
    watermark: u64,
    has_key: bool,
) -> (Progress, Result<(), MnemeError>) {
    match seal_failure(frames[at], has_key) {
        Some(error) => (progress, Err(error)),
        None => match frames[at].content {
            FrameContent::BatchBegin => (
                Progress { batch: Some(Seq::empty()), ..progress },
                Ok(()),
            ),
            FrameContent::BatchCommit { stated } => batch_committed(
                frames,
                at,
                progress,
                stated,
                watermark,
            ),
            FrameContent::Change { change } => match progress.batch {
                Some(members) => (Progress { batch: Some(members.push(at)), ..progress }, Ok(())),
                None => {
                    let outcome = applied_after(
                        progress.state,
                        frames[at].seqno,
                        change,
                        watermark,
                    );
                    if outcome.1 is Err {
                        (Progress { state: outcome.0, ..progress }, outcome.1)
                    } else {
                        (
                            Progress {
                                state: outcome.0,
                                committed: frames[at].end as nat,
                                ..progress
                            },
                            Ok(()),
                        )
                    }
                },
            },
        },
    }
}

/// What the first `count` frames make of a replay that starts behind the header.
pub open spec fn replayed(
    frames: Seq<WalFrame>,
    count: nat,
    state: StateModel,
    header_len: nat,
    watermark: u64,
    has_key: bool,
) -> (Progress, Result<(), MnemeError>)
    decreases count,
{
    if count == 0 {
        (Progress { state, batch: None, committed: header_len }, Ok(()))
    } else {
        let before = replayed(
            frames,
            (count - 1) as nat,
            state,
            header_len,
            watermark,
            has_key,
        );
        if before.1 is Err {
            before
        } else {
            stepped(frames, count - 1, before.0, watermark, has_key)
        }
    }
}

/// What a whole log file makes of a state, and up to where the file is committed. A file that is
/// shorter than a header counts as torn and holds nothing.
pub open spec fn replay_outcome(
    state: StateModel,
    image: WalImage,
    watermark: u64,
    has_key: bool,
) -> (StateModel, Result<usize, MnemeError>) {
    if image.byte_len < image.header_len {
        (state, Ok(0))
    } else {
        let end = replayed(
            image.frames@,
            image.frames@.len(),
            state,
            image.header_len as nat,
            watermark,
            has_key,
        );
        match end.1 {
            Err(error) => (end.0.state, Err(error)),
            Ok(()) => match image.stop {
                Some(error) => (end.0.state, Err(error)),
                None => (end.0.state, Ok(end.0.committed as usize)),
            },
        }
    }
}

/// Applies a change to the state.
pub fn apply_change(state: &mut WriterState, seqno: u64, change: &Change) -> (result: Result<
    (),
    MnemeError,
>)
    requires
        old(state).wf(),
    ensures
        final(state).wf(),
        (final(state)@, result) == applied(old(state)@, seqno, *change),
{
    match change {
        Change::NsRegister { ns_id, path } => apply_ns_register(state, *ns_id, path.as_str()),
        Change::NsUnregister { ns_id } => {
            apply_ns_unregister(state, *ns_id);
            Ok(())
        },
        Change::RelKindRegister { kind, name } => apply_rel_kind_register(
            state,
            *kind,
            name.as_str(),
        ),
        Change::Insert { .. } => apply_insert(state, change, Ghost(seqno)),
        Change::DeleteRow { rowid, tx_ms } => {
            match state.advance_rowid(*rowid) {
                Ok(()) => {},
                Err(error) => {
                    return Err(error);
                },
            }
            state.tombstone(*rowid, *tx_ms, seqno)
        },
        Change::TouchRow { rowid, at_ms, access_delta, .. } => {
            state.touch(*rowid, *at_ms, *access_delta);
            Ok(())
        },
        Change::Relate { edge } => {
            apply_relate(state, edge);
            Ok(())
        },
        Change::Unrelate { from, to, kind } => {
            apply_unrelate(state, *from, *to, *kind);
            Ok(())
        },
        Change::Passive => Ok(()),
    }
}

/// Applies the registration of a namespace.
pub fn apply_ns_register(state: &mut WriterState, ns_id: u32, path: &str) -> (result: Result<
    (),
    MnemeError,
>)
    requires
        old(state).wf(),
    ensures
        final(state).wf(),
        (final(state)@, result) == old(state)@.register_ns(ns_id, path@),
{
    state.register_ns(ns_id, path)
}

/// Applies the removal of a namespace. Its id is not handed out again.
pub fn apply_ns_unregister(state: &mut WriterState, ns_id: u32)
    requires
        old(state).wf(),
    ensures
        final(state).wf(),
        final(state)@ == old(state)@.unregister_ns(ns_id),
{
    state.unregister_ns(ns_id)
}

/// Applies the registration of a relation kind.
pub fn apply_rel_kind_register(state: &mut WriterState, kind: u16, name: &str) -> (result: Result<
    (),
    MnemeError,
>)
    requires
        old(state).wf(),
    ensures
        final(state).wf(),
        (final(state)@, result) == old(state)@.register_rel_kind(kind, name@),
{
    state.register_recovered_rel_kind(kind, name)
}

/// Applies an insertion: the record becomes the latest version of its row.
fn apply_insert(state: &mut WriterState, change: &Change, Ghost(seqno): Ghost<u64>) -> (result:
    Result<(), MnemeError>)
    requires
        old(state).wf(),
        change is Insert,
    ensures
        final(state).wf(),
        (final(state)@, result) == applied(old(state)@, seqno, *change),
{
    match change {
        Change::Insert { entry, vector, norm_sq, tx_ms } => {
            let owned = VectorStorage::Owned(vstd::slice::slice_to_vec(vector.as_slice()));
            let rowid: u64 = entry.rowid;
            let slot = state.slot_from_entry(entry.copied(), owned, *norm_sq, *tx_ms, false);
            match state.advance_rowid(rowid) {
                Ok(()) => {},
                Err(error) => {
                    return Err(error);
                },
            }
            state.commit_version(slot)
        },
        _ => Ok(()),
    }
}

/// Applies a new or changed edge.
pub fn apply_relate(state: &mut WriterState, edge: &Edge)
    requires
        old(state).wf(),
    ensures
        final(state).wf(),
        final(state)@ == old(state)@.relate(
            edge.from,
            edge.to,
            edge.kind,
            (EdgeView { weight: edge.weight, metadata: edge.metadata@ }),
        ),
{
    state.relate(
        Edge {
            from: edge.from,
            to: edge.to,
            kind: edge.kind,
            weight: edge.weight,
            metadata: edge.metadata.copied(),
        },
    )
}

/// Applies the removal of an edge.
pub fn apply_unrelate(state: &mut WriterState, from: u64, to: u64, kind: u16)
    requires
        old(state).wf(),
    ensures
        final(state).wf(),
        final(state)@ == old(state)@.unrelate(from, to, kind),
{
    state.unrelate(from, to, kind)
}

/// Applies a frame unless the state already covers its commit number, and raises the commit
/// number of the state.
pub fn apply_if_after_watermark(
    state: &mut WriterState,
    seqno: u64,
    change: &Result<Change, MnemeError>,
    watermark: u64,
) -> (result: Result<(), MnemeError>)
    requires
        old(state).wf(),
    ensures
        final(state).wf(),
        (final(state)@, result) == applied_after(old(state)@, seqno, *change, watermark),
{
    if seqno <= watermark {
        return Ok(());
    }
    match change {
        Ok(change) => match apply_change(state, seqno, change) {
            Ok(()) => {
                state.raise_seqno(seqno);
                Ok(())
            },
            Err(error) => Err(error),
        },
        Err(error) => Err(*error),
    }
}

/// The frames of the open batch and the committed length.
struct ReplayBuffers {
    batch: Option<Vec<usize>>,
    crc_input: Vec<u8>,
    committed_len: usize,
}

/// The positions that a batch holds.
spec fn members_of(batch: Option<Vec<usize>>) -> Option<Seq<int>> {
    match batch {
        Some(members) => Some(members@.map_values(|m: usize| m as int)),
        None => None,
    }
}

impl ReplayBuffers {
    spec fn matches(&self, frames: Seq<WalFrame>, state: StateModel, progress: Progress) -> bool {
        &&& progress.state == state
        &&& progress.batch == members_of(self.batch)
        &&& progress.committed == self.committed_len
        &&& self.batch matches Some(members) ==> {
            &&& forall|i: int| 0 <= i < members@.len() ==> (#[trigger] members@[i]) < frames.len()
            &&& forall|i: int|
                0 <= i < members@.len()
                    ==> frames[(#[trigger] members@[i]) as int].content is Change
            &&& self.crc_input@ == joined_payloads(
                frames,
                members@.map_values(|m: usize| m as int),
            )
        }
    }
}

/// Checks the count and the checksum that end a batch and applies its frames as one.
fn commit_batch(
    state: &mut WriterState,
    frames: &Vec<WalFrame>,
    buffers: &mut ReplayBuffers,
    at: usize,
    stated: &Result<(u32, u32), MnemeError>,
    watermark: u64,
    Ghost(progress): Ghost<Progress>,
) -> (result: Result<(), MnemeError>)
    requires
        old(state).wf(),
        at < frames.len(),
        old(buffers).matches(frames@, old(state)@, progress),
    ensures
        final(state).wf(),
        result == batch_committed(frames@, at as int, progress, *stated, watermark).1,
        final(state)@ == batch_committed(
            frames@,
            at as int,
            progress,
            *stated,
            watermark,
        ).0.state,
        result is Ok ==> final(buffers).matches(
            frames@,
            final(state)@,
            batch_committed(frames@, at as int, progress, *stated, watermark).0,
        ),
{
    let (count, stored_crc) = match stated {
        Ok(stated) => *stated,
        Err(error) => {
            return Err(*error);
        },
    };
    let members = match buffers.batch.take() {
        Some(members) => members,
        None => {
            buffers.committed_len = frames[at].end;
            buffers.crc_input.clear();
            return Ok(());
        },
    };
    let ghost listed = members@.map_values(|m: usize| m as int);
    if members.len() != count as usize || crc32(buffers.crc_input.as_slice()) != stored_crc {
        return Err(MnemeError::Corrupted { segment: None, reason: Fault::BatchMismatch });
    }
    let ghost start = state@;
    let mut i: usize = 0;
    while i < members.len()
        invariant
            state.wf(),
            i <= members.len(),
            listed == members@.map_values(|m: usize| m as int),
            forall|k: int| 0 <= k < members@.len() ==> (#[trigger] members@[k]) < frames.len(),
            forall|k: int|
                0 <= k < members@.len() ==> frames@[(#[trigger] members@[k]) as int].content
                    is Change,
            applied_all(frames@, listed, i as nat, start, watermark) == (
                state@,
                Ok::<(), MnemeError>(()),
            ),
            listed.len() == members.len(),
            count == members.len(),
            progress.state == start,
            progress.batch == Some(listed),
            *stated == Ok::<(u32, u32), MnemeError>((count, stored_crc)),
            crc32_of(joined_payloads(frames@, listed)) == stored_crc,
            at < frames.len(),
        decreases members.len() - i,
    {
        let member: usize = members[i];
        assert(listed[i as int] == member);
        let frame = &frames[member];
        match &frame.content {
            FrameContent::Change { change } => {
                let result = apply_if_after_watermark(state, frame.seqno, change, watermark);
                assert(change_of(*frame) == *change);
                assert(applied_all(frames@, listed, (i + 1) as nat, start, watermark) == (
                    state@,
                    result,
                ));
                match result {
                    Ok(()) => {},
                    Err(error) => {
                        proof {
                            lemma_failure_stays(
                                frames@,
                                listed,
                                (i + 1) as nat,
                                listed.len(),
                                start,
                                watermark,
                            );
                        }
                        return Err(error);
                    },
                }
            },
            _ => {},
        }
        i = i + 1;
    }
    buffers.committed_len = frames[at].end;
    buffers.crc_input.clear();
    Ok(())
}

/// Once a frame of a batch has failed, the rest of the batch changes nothing.
proof fn lemma_failure_stays(
    frames: Seq<WalFrame>,
    members: Seq<int>,
    from: nat,
    to: nat,
    state: StateModel,
    watermark: u64,
)
    requires
        from <= to,
        applied_all(frames, members, from, state, watermark).1 is Err,
    ensures
        applied_all(frames, members, to, state, watermark) == applied_all(
            frames,
            members,
            from,
            state,
            watermark,
        ),
    decreases to - from,
{
    if from < to {
        lemma_failure_stays(frames, members, from, (to - 1) as nat, state, watermark);
    }
}

/// Once a frame has failed, the frames behind it change nothing.
proof fn lemma_stop_stays(
    frames: Seq<WalFrame>,
    from: nat,
    to: nat,
    state: StateModel,
    header_len: nat,
    watermark: u64,
    has_key: bool,
)
    requires
        from <= to,
        replayed(frames, from, state, header_len, watermark, has_key).1 is Err,
    ensures
        replayed(frames, to, state, header_len, watermark, has_key) == replayed(
            frames,
            from,
            state,
            header_len,
            watermark,
            has_key,
        ),
    decreases to - from,
{
    if from < to {
        lemma_stop_stays(frames, from, (to - 1) as nat, state, header_len, watermark, has_key);
    }
}

/// Applies one frame: a frame of a batch waits for the end of the batch, any other frame takes
/// effect at once and moves the committed length.
fn apply_frame(
    state: &mut WriterState,
    frames: &Vec<WalFrame>,
    buffers: &mut ReplayBuffers,
    at: usize,
    watermark: u64,
    has_key: bool,
    Ghost(progress): Ghost<Progress>,
) -> (result: Result<(), MnemeError>)
    requires
        old(state).wf(),
        at < frames.len(),
        old(buffers).matches(frames@, old(state)@, progress),
    ensures
        final(state).wf(),
        result == stepped(frames@, at as int, progress, watermark, has_key).1,
        final(state)@ == stepped(frames@, at as int, progress, watermark, has_key).0.state,
        result is Ok ==> final(buffers).matches(
            frames@,
            final(state)@,
            stepped(frames@, at as int, progress, watermark, has_key).0,
        ),
{
    let frame = &frames[at];
    match frame.envelope {
        Envelope::Plain => {},
        Envelope::Sealed { failure } => {
            if !has_key {
                return Err(MnemeError::Unsupported { feature: Feature::Encrypt });
            }
            match failure {
                Some(error) => {
                    return Err(error);
                },
                None => {},
            }
        },
    }
    match &frame.content {
        FrameContent::BatchBegin => {
            let fresh: Vec<usize> = Vec::new();
            assert(fresh@.map_values(|m: usize| m as int) =~= Seq::<int>::empty());
            buffers.batch = Some(fresh);
            buffers.crc_input.clear();
            Ok(())
        },
        FrameContent::BatchCommit { stated } => commit_batch(
            state,
            frames,
            buffers,
            at,
            stated,
            watermark,
            Ghost(progress),
        ),
        FrameContent::Change { change } => {
            match buffers.batch.take() {
                Some(mut members) => {
                    let ghost before = members@.map_values(|m: usize| m as int);
                    let ghost input = buffers.crc_input@;
                    members.push(at);
                    buffers.crc_input.extend_from_slice(frame.payload.as_slice());
                    proof {
                        let after = members@.map_values(|m: usize| m as int);
                        assert(after =~= before.push(at as int));
                        assert(after.drop_last() =~= before);
                        assert(buffers.crc_input@ =~= input + frame.payload@);
                    }
                    buffers.batch = Some(members);
                    Ok(())
                },
                None => {
                    match apply_if_after_watermark(state, frame.seqno, change, watermark) {
                        Ok(()) => {
                            buffers.committed_len = frame.end;
                            Ok(())
                        },
                        Err(error) => Err(error),
                    }
                },
            }
        },
    }
}

/// Replays a log file: applies every frame whose commit number lies above the watermark.
///
/// Returns up to where the file is committed. What lies behind it is a torn frame or a batch
/// without an end; a writable instance cuts it off before it appends.
pub fn replay_wal(
    state: &mut WriterState,
    image: &WalImage,
    watermark: u64,
    has_key: bool,
) -> (result: Result<usize, MnemeError>)
    requires
        old(state).wf(),
    ensures
        final(state).wf(),
        (final(state)@, result) == replay_outcome(old(state)@, *image, watermark, has_key),
{
    if image.byte_len < image.header_len {
        return Ok(0);
    }
    let ghost start = state@;
    let ghost header = image.header_len as nat;
    let mut buffers = ReplayBuffers {
        batch: None,
        crc_input: Vec::new(),
        committed_len: image.header_len,
    };
    let frames = &image.frames;
    let mut i: usize = 0;
    while i < frames.len()
        invariant
            state.wf(),
            i <= frames.len(),
            start == old(state)@,
            header == image.header_len,
            frames@ == image.frames@,
            replayed(frames@, i as nat, start, header, watermark, has_key).1 is Ok,
            buffers.matches(
                frames@,
                state@,
                replayed(frames@, i as nat, start, header, watermark, has_key).0,
            ),
            image.byte_len >= image.header_len,
        decreases frames.len() - i,
    {
        let ghost progress = replayed(frames@, i as nat, start, header, watermark, has_key).0;
        let result = apply_frame(
            state,
            frames,
            &mut buffers,
            i,
            watermark,
            has_key,
            Ghost(progress),
        );
        assert(replayed(frames@, (i + 1) as nat, start, header, watermark, has_key) == stepped(
            frames@,
            i as int,
            progress,
            watermark,
            has_key,
        ));
        match result {
            Ok(()) => {},
            Err(error) => {
                proof {
                    lemma_stop_stays(
                        frames@,
                        (i + 1) as nat,
                        frames@.len(),
                        start,
                        header,
                        watermark,
                        has_key,
                    );
                }
                return Err(error);
            },
        }
        i = i + 1;
    }
    match image.stop {
        Some(error) => Err(error),
        None => Ok(buffers.committed_len),
    }
}

/// A frame at or below the watermark changes nothing, whatever it holds: a log that was left over
/// after a checkpoint brings nothing back.
pub proof fn covered_frame_is_skipped(
    state: StateModel,
    seqno: u64,
    change: Result<Change, MnemeError>,
    watermark: u64,
)
    requires
        seqno <= watermark,
    ensures
        applied_after(state, seqno, change, watermark) == (state, Ok::<(), MnemeError>(())),
{
}

/// While a batch is open, its frames change neither the state nor the committed length.
pub proof fn open_batch_waits(
    frames: Seq<WalFrame>,
    at: int,
    progress: Progress,
    watermark: u64,
    has_key: bool,
)
    requires
        0 <= at < frames.len(),
        progress.batch is Some,
        frames[at].content is Change,
    ensures
        stepped(frames, at, progress, watermark, has_key).0.state == progress.state,
        stepped(frames, at, progress, watermark, has_key).0.committed == progress.committed,
{
}

/// A batch that is cut off before its end takes no effect and is not counted as committed,
/// however many of its frames were written.
pub proof fn unclosed_batch_is_dropped(
    frames: Seq<WalFrame>,
    begin: nat,
    end: nat,
    state: StateModel,
    header_len: nat,
    watermark: u64,
    has_key: bool,
)
    requires
        begin < end <= frames.len(),
        frames[begin as int].content is BatchBegin,
        forall|i: int| begin < i < end ==> (#[trigger] frames[i]).content is Change,
        replayed(frames, end, state, header_len, watermark, has_key).1 is Ok,
    ensures
        replayed(frames, end, state, header_len, watermark, has_key).0.state == replayed(
            frames,
            begin,
            state,
            header_len,
            watermark,
            has_key,
        ).0.state,
        replayed(frames, end, state, header_len, watermark, has_key).0.committed == replayed(
            frames,
            begin,
            state,
            header_len,
            watermark,
            has_key,
        ).0.committed,
        replayed(frames, end, state, header_len, watermark, has_key).0.batch is Some,
    decreases end - begin,
{
    let last = (end - 1) as nat;
    if last > begin {
        unclosed_batch_is_dropped(frames, begin, last, state, header_len, watermark, has_key);
    }
}

/// A batch whose count or checksum does not match its frames is rejected, and none of its frames
/// takes effect.
pub proof fn mismatched_batch_is_rejected(
    frames: Seq<WalFrame>,
    at: int,
    progress: Progress,
    count: u32,
    crc: u32,
    watermark: u64,
)
    requires
        0 <= at < frames.len(),
        progress.batch matches Some(members) && (members.len() != count || crc32_of(
            joined_payloads(frames, members),
        ) != crc),
    ensures
        batch_committed(frames, at, progress, Ok((count, crc)), watermark).1 == Err::<
            (),
            MnemeError,
        >(corrupted(Fault::BatchMismatch)),
        batch_committed(frames, at, progress, Ok((count, crc)), watermark).0.state
            == progress.state,
{
}

proof fn lemma_change_counters(state: StateModel, seqno: u64, change: Change)
    ensures
        counters_rise(state, applied(state, seqno, change).0),
{
}

proof fn lemma_frame_counters(
    state: StateModel,
    seqno: u64,
    change: Result<Change, MnemeError>,
    watermark: u64,
)
    ensures
        counters_rise(state, applied_after(state, seqno, change, watermark).0),
{
    if change is Ok {
        lemma_change_counters(state, seqno, change->Ok_0);
    }
}

proof fn lemma_batch_counters(
    frames: Seq<WalFrame>,
    members: Seq<int>,
    count: nat,
    state: StateModel,
    watermark: u64,
)
    ensures
        counters_rise(state, applied_all(frames, members, count, state, watermark).0),
    decreases count,
{
    if count > 0 {
        lemma_batch_counters(frames, members, (count - 1) as nat, state, watermark);
        let before = applied_all(frames, members, (count - 1) as nat, state, watermark);
        let frame = frames[members[count - 1]];
        lemma_frame_counters(before.0, frame.seqno, change_of(frame), watermark);
    }
}

/// Replay never takes an identifier back: the counters of rows, namespaces and relation kinds and
/// the commit number only rise, whatever the log holds.
pub proof fn replay_counters_rise(
    frames: Seq<WalFrame>,
    count: nat,
    state: StateModel,
    header_len: nat,
    watermark: u64,
    has_key: bool,
)
    ensures
        counters_rise(
            state,
            replayed(frames, count, state, header_len, watermark, has_key).0.state,
        ),
    decreases count,
{
    if count > 0 {
        let last = (count - 1) as nat;
        replay_counters_rise(frames, last, state, header_len, watermark, has_key);
        let before = replayed(frames, last, state, header_len, watermark, has_key);
        if before.1 is Ok && seal_failure(frames[last as int], has_key) is None {
            let frame = frames[last as int];
            match frame.content {
                FrameContent::Change { change } => {
                    lemma_frame_counters(before.0.state, frame.seqno, change, watermark);
                },
                FrameContent::BatchCommit { stated } => {
                    if before.0.batch is Some {
                        let members = before.0.batch->0;
                        lemma_batch_counters(
                            frames,
                            members,
                            members.len(),
                            before.0.state,
                            watermark,
                        );
                    }
                },
                FrameContent::BatchBegin => {},
            }
        }
    }
}

proof fn lemma_committed_position(
    image: WalImage,
    count: nat,
    state: StateModel,
    watermark: u64,
    has_key: bool,
)
    requires
        image.laid_out(),
        count <= image.frames@.len(),
    ensures
        ({
            let committed = replayed(
                image.frames@,
                count,
                state,
                image.header_len as nat,
                watermark,
                has_key,
            ).0.committed;
            &&& image.header_len <= committed <= image.byte_len
            &&& committed == image.header_len || exists|i: int|
                0 <= i < count && #[trigger] image.frames@[i].end == committed
        }),
    decreases count,
{
    if count > 0 {
        let last = (count - 1) as nat;
        lemma_committed_position(image, last, state, watermark, has_key);
        assert(image.frames@[last as int].end <= image.byte_len);
    }
}

/// The committed length lies at the end of the header or of a whole frame, inside the file: what
/// is cut off never splits a frame that was kept.
pub proof fn committed_length_is_frame_boundary(
    state: StateModel,
    image: WalImage,
    watermark: u64,
    has_key: bool,
)
    requires
        image.laid_out(),
        replay_outcome(state, image, watermark, has_key).1 is Ok,
    ensures
        ({
            let committed = replay_outcome(state, image, watermark, has_key).1->Ok_0;
            &&& image.header_len <= committed <= image.byte_len
            &&& committed == image.header_len || exists|i: int|
                0 <= i < image.frames@.len() && #[trigger] image.frames@[i].end == committed
        }),
{
    lemma_committed_position(image, image.frames@.len(), state, watermark, has_key);
}

/// A log whose frames all lie at or below the watermark leaves the state as it was, provided that
/// it replays without an error.
pub proof fn covered_log_changes_nothing(
    frames: Seq<WalFrame>,
    count: nat,
    state: StateModel,
    header_len: nat,
    watermark: u64,
    has_key: bool,
)
    requires
        count <= frames.len(),
        forall|i: int| 0 <= i < count ==> (#[trigger] frames[i]).seqno <= watermark,
    ensures
        replayed(frames, count, state, header_len, watermark, has_key).0.state == state,
        replayed(frames, count, state, header_len, watermark, has_key).0.batch matches Some(members)
            ==> forall|i: int| 0 <= i < members.len() ==> 0 <= #[trigger] members[i] < count,
    decreases count,
{
    if count > 0 {
        let last = (count - 1) as nat;
        covered_log_changes_nothing(frames, last, state, header_len, watermark, has_key);
        let before = replayed(frames, last, state, header_len, watermark, has_key);
        if before.1 is Ok && before.0.batch is Some {
            let members = before.0.batch->0;
            lemma_covered_batch(frames, members, members.len(), state, watermark);
        }
    }
}

proof fn lemma_covered_batch(
    frames: Seq<WalFrame>,
    members: Seq<int>,
    count: nat,
    state: StateModel,
    watermark: u64,
)
    requires
        count <= members.len(),
        forall|i: int|
            0 <= i < count ==> frames[(#[trigger] members[i])].seqno <= watermark,
    ensures
        applied_all(frames, members, count, state, watermark) == (state, Ok::<(), MnemeError>(())),
    decreases count,
{
    if count > 0 {
        lemma_covered_batch(frames, members, (count - 1) as nat, state, watermark);
        assert(frames[members[count - 1]].seqno <= watermark);
    }
}

/// Whether a log file is what is left of another one that was cut at a length: the frames that
/// end at or before it.
pub open spec fn is_cut(image: WalImage, len: usize, cut: WalImage) -> bool {
    &&& cut.byte_len == len
    &&& cut.header_len == image.header_len
    &&& cut.stop is None
    &&& exists|kept: int|
        0 <= kept <= image.frames@.len() && cut.frames@ == #[trigger] image.frames@.take(kept) && (
        forall|i: int| 0 <= i < image.frames@.len() ==> ((#[trigger] image.frames@[i]).end <= len)
            == (i < kept))
}

/// Where a replay last moved the committed length, and that nothing behind it took effect.
proof fn lemma_last_commit(
    frames: Seq<WalFrame>,
    count: nat,
    state: StateModel,
    header_len: nat,
    watermark: u64,
    has_key: bool,
) -> (kept: nat)
    requires
        count <= frames.len(),
        replayed(frames, count, state, header_len, watermark, has_key).1 is Ok,
    ensures
        kept <= count,
        replayed(frames, kept, state, header_len, watermark, has_key).1 is Ok,
        replayed(frames, kept, state, header_len, watermark, has_key).0.state == replayed(
            frames,
            count,
            state,
            header_len,
            watermark,
            has_key,
        ).0.state,
        replayed(frames, kept, state, header_len, watermark, has_key).0.committed == replayed(
            frames,
            count,
            state,
            header_len,
            watermark,
            has_key,
        ).0.committed,
        replayed(frames, count, state, header_len, watermark, has_key).0.committed == if kept == 0 {
            header_len
        } else {
            frames[kept - 1].end as nat
        },
    decreases count,
{
    if count == 0 {
        0
    } else {
        let last = (count - 1) as nat;
        let before = replayed(frames, last, state, header_len, watermark, has_key).0;
        let frame = frames[last as int];
        if frame.content is BatchBegin || frame.content is Change && before.batch is Some {
            lemma_last_commit(frames, last, state, header_len, watermark, has_key)
        } else {
            count
        }
    }
}

proof fn lemma_batch_alike(
    frames: Seq<WalFrame>,
    others: Seq<WalFrame>,
    members: Seq<int>,
    count: nat,
    state: StateModel,
    watermark: u64,
)
    requires
        count <= members.len(),
        forall|i: int|
            0 <= i < members.len() ==> frames[#[trigger] members[i]] == others[members[i]],
    ensures
        applied_all(frames, members, count, state, watermark) == applied_all(
            others,
            members,
            count,
            state,
            watermark,
        ),
    decreases count,
{
    if count > 0 {
        lemma_batch_alike(frames, others, members, (count - 1) as nat, state, watermark);
        assert(frames[members[count - 1]] == others[members[count - 1]]);
    }
}

proof fn lemma_payloads_alike(frames: Seq<WalFrame>, others: Seq<WalFrame>, members: Seq<int>)
    requires
        forall|i: int|
            0 <= i < members.len() ==> frames[#[trigger] members[i]] == others[members[i]],
    ensures
        joined_payloads(frames, members) == joined_payloads(others, members),
    decreases members.len(),
{
    if members.len() > 0 {
        let rest = members.drop_last();
        assert forall|i: int| 0 <= i < rest.len() implies frames[#[trigger] rest[i]]
            == others[rest[i]] by {
            assert(rest[i] == members[i]);
        }
        lemma_payloads_alike(frames, others, rest);
        assert(frames[members[members.len() - 1]] == others[members[members.len() - 1]]);
    }
}

/// A replay rests on the frames that it has passed only.
proof fn lemma_replay_alike(
    frames: Seq<WalFrame>,
    kept: int,
    count: nat,
    state: StateModel,
    header_len: nat,
    watermark: u64,
    has_key: bool,
)
    requires
        count <= kept <= frames.len(),
    ensures
        replayed(frames.take(kept), count, state, header_len, watermark, has_key) == replayed(
            frames,
            count,
            state,
            header_len,
            watermark,
            has_key,
        ),
        replayed(frames, count, state, header_len, watermark, has_key).0.batch matches Some(members)
            ==> forall|i: int| 0 <= i < members.len() ==> 0 <= #[trigger] members[i] < count,
    decreases count,
{
    if count > 0 {
        let last = (count - 1) as nat;
        lemma_replay_alike(frames, kept, last, state, header_len, watermark, has_key);
        let before = replayed(frames, last, state, header_len, watermark, has_key);
        let others = frames.take(kept);
        assert(others[last as int] == frames[last as int]);
        if before.0.batch is Some {
            let members = before.0.batch->0;
            assert forall|i: int| 0 <= i < members.len() implies frames[#[trigger] members[i]]
                == others[members[i]] by {}
            lemma_batch_alike(
                frames,
                others,
                members,
                members.len(),
                before.0.state,
                watermark,
            );
            lemma_payloads_alike(frames, others, members);
        }
    }
}

/// A log that was cut at the committed length replays as before: to the same state, and all of it
/// is committed.
pub proof fn cut_log_replays_alike(
    state: StateModel,
    image: WalImage,
    watermark: u64,
    has_key: bool,
    cut: WalImage,
)
    requires
        image.byte_len >= image.header_len ==> image.laid_out(),
        replay_outcome(state, image, watermark, has_key).1 matches Ok(len) && is_cut(
            image,
            len,
            cut,
        ),
    ensures
        replay_outcome(state, cut, watermark, has_key) == replay_outcome(
            state,
            image,
            watermark,
            has_key,
        ),
{
    if image.byte_len >= image.header_len {
        let frames = image.frames@;
        let header = image.header_len as nat;
        let len = replay_outcome(state, image, watermark, has_key).1->Ok_0;
        let last = lemma_last_commit(frames, frames.len(), state, header, watermark, has_key);
        lemma_committed_position(image, frames.len(), state, watermark, has_key);
        let kept = choose|kept: int|
            0 <= kept <= frames.len() && cut.frames@ == #[trigger] frames.take(kept) && (forall|
                i: int,
            |
                0 <= i < frames.len() ==> ((#[trigger] frames[i]).end <= len) == (i < kept));
        assert(kept == last) by {
            if last > 0 {
                assert(frames[last - 1].end == len);
                assert(last - 1 < kept);
            }
            if kept > last {
                assert(frames[last as int].end <= len);
                if last > 0 {
                    assert(frames[last - 1].end < frames[last as int].end);
                }
            }
        }
        lemma_replay_alike(frames, kept, last, state, header, watermark, has_key);
    }
}

/// Damage in a log is reported: a log that ends in a frame that is no frame, a change that cannot
/// be read, and a batch whose end cannot be read are errors. A file that is too short for its
/// header holds nothing and is none.
pub proof fn damaged_log_is_reported(
    state: StateModel,
    image: WalImage,
    frames: Seq<WalFrame>,
    at: int,
    progress: Progress,
    watermark: u64,
    has_key: bool,
)
    requires
        0 <= at < frames.len(),
    ensures
        image.byte_len < image.header_len ==> replay_outcome(state, image, watermark, has_key) == (
            state,
            Ok::<usize, MnemeError>(0),
        ),
        image.byte_len >= image.header_len && image.stop is Some ==> replay_outcome(
            state,
            image,
            watermark,
            has_key,
        ).1 is Err,
        frames[at].envelope is Plain ==> (frames[at].content matches FrameContent::Change {
            change,
        } ==> (change matches Err(error) ==> (progress.batch is None && frames[at].seqno > watermark
            ==> stepped(frames, at, progress, watermark, has_key).1 == Err::<(), MnemeError>(
            error,
        )))),
        frames[at].envelope is Plain ==> (frames[at].content matches FrameContent::BatchCommit {
            stated,
        } ==> (stated matches Err(error) ==> stepped(frames, at, progress, watermark, has_key).1
            == Err::<(), MnemeError>(error))),
{
}

/// A change that is replayed raises the commit number of the state to its own, and never lowers it.
pub proof fn replayed_change_raises_the_seqno(
    state: StateModel,
    seqno: u64,
    change: Result<Change, MnemeError>,
    watermark: u64,
)
    requires
        applied_after(state, seqno, change, watermark).1 is Ok,
    ensures
        seqno > watermark ==> applied_after(state, seqno, change, watermark).0.seqno == (if seqno
            > state.seqno {
            seqno
        } else {
            state.seqno
        }),
        seqno > watermark ==> change is Ok,
{
}

} // verus!
