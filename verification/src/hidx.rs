//! Loading of the graphs that speed queries up.

use vstd::prelude::*;

use crate::error::{corrupted, Fault, MnemeError};
use crate::recover::RecoveredSegments;
use crate::remap::SegmentRemap;
use crate::source::ByteFile;
use crate::state::{StateModel, WriterState};

verus! {

/// How a vector file keeps a coarser copy of its vectors.
#[derive(Clone, Copy, Debug, PartialEq, Eq)]
pub struct QuantInfo {
    /// The format of the copy; `None`, where there is none.
    pub format: Option<u8>,
    /// What keeps this build from reading the format.
    pub unsupported: Option<MnemeError>,
    /// Where the copy begins and how long a row of it is, where the file says so.
    pub region: Option<(usize, usize)>,
}

/// The coarser copy of the vectors of a segment.
#[derive(Clone, Copy, Debug, PartialEq, Eq, Structural)]
pub struct QuantCopy {
    pub format: u8,
    /// Where it begins in the vector file.
    pub offset: usize,
    /// How long a row is.
    pub stride: usize,
    pub rows: usize,
}

/// A segment whose graph is to be loaded.
pub struct GraphSource {
    pub segment_id: u32,
    /// The graph file, where the segment has one that can be used.
    pub hidx: Option<ByteFile>,
    /// What the vector file says of its coarser copy.
    pub quant: Result<QuantInfo, MnemeError>,
    pub row_count: usize,
    /// Length of the vector file.
    pub vsec_len: usize,
}

/// A node of a graph: the version that it stands for.
#[derive(Clone, Copy, Debug, PartialEq, Eq, Structural)]
pub struct IndexNode {
    pub rowid: u64,
    /// The position of the version.
    pub slot: u32,
    pub norm_sq: u32,
}

/// A graph that was loaded.
pub struct SegmentIndex<I> {
    pub segment_id: u32,
    pub index: I,
    /// The version of every node.
    pub slots: Vec<u32>,
    /// The format of the coarser copy; `None`, where there is none.
    pub format: Option<u8>,
    /// The estimate of the recall that was made when the graph was built, as the bits of a single
    /// precision number; `None`, where none was made.
    pub recall_est: Option<u32>,
}

/// What a `SegmentIndex` holds.
pub struct GraphModel<I> {
    pub segment_id: u32,
    pub index: I,
    pub slots: Seq<u32>,
    pub format: Option<u8>,
    pub recall_est: Option<u32>,
}

impl<I> SegmentIndex<I> {
    /// The graph with its versions as a sequence.
    pub open spec fn model(self) -> GraphModel<I> {
        GraphModel {
            segment_id: self.segment_id,
            index: self.index,
            slots: self.slots@,
            format: self.format,
            recall_est: self.recall_est,
        }
    }
}

/// What the graphs of a list hold.
pub open spec fn graph_models<I>(indexes: Seq<SegmentIndex<I>>) -> Seq<GraphModel<I>> {
    indexes.map_values(|index: SegmentIndex<I>| index.model())
}

/// A graph as it was built together with its segment.
pub struct BuiltGraph<I> {
    pub index: I,
    /// The format of the coarser copy; `None`, where there is none.
    pub format: Option<u8>,
    /// The estimate of the recall that was made when the graph was built, as the bits of a single
    /// precision number; `None`, where none was made.
    pub recall_est: Option<u32>,
}

/// What the coarser copy of a segment is. A copy that is not where the file says is corruption; a
/// format that this build cannot read is refused as such.
pub open spec fn quant_outcome(source: GraphSource) -> Result<Option<QuantCopy>, MnemeError> {
    match source.quant {
        Err(error) => Err(error),
        Ok(info) => match info.format {
            None => Ok(None),
            Some(format) => match (info.unsupported, info.region) {
                (Some(error), _) => Err(error),
                (None, None) => Err(segment_fault(source.segment_id, Fault::QuantRegionMissing)),
                (None, Some((offset, stride))) => if stride * source.row_count > usize::MAX {
                    Err(segment_fault(source.segment_id, Fault::QuantLengthOverflow))
                } else if offset + stride * source.row_count > source.vsec_len {
                    Err(segment_fault(source.segment_id, Fault::QuantRegionOutOfRange))
                } else {
                    Ok(Some(QuantCopy { format, offset, stride, rows: source.row_count }))
                },
            },
        },
    }
}

/// Corruption of a segment.
pub open spec fn segment_fault(segment_id: u32, reason: Fault) -> MnemeError {
    MnemeError::Corrupted { segment: Some(segment_id), reason }
}

/// Finds the coarser copy of a segment.
pub fn load_quant_copy(source: &GraphSource) -> (result: Result<Option<QuantCopy>, MnemeError>)
    ensures
        result == quant_outcome(*source),
{
    let info = match source.quant {
        Ok(info) => info,
        Err(error) => {
            return Err(error);
        },
    };
    let format: u8 = match info.format {
        Some(format) => format,
        None => {
            return Ok(None);
        },
    };
    match info.unsupported {
        Some(error) => {
            return Err(error);
        },
        None => {},
    }
    let id = Some(source.segment_id);
    let (offset, stride): (usize, usize) = match info.region {
        Some(region) => region,
        None => {
            return Err(MnemeError::Corrupted { segment: id, reason: Fault::QuantRegionMissing });
        },
    };
    let len: usize = match stride.checked_mul(source.row_count) {
        Some(len) => len,
        None => {
            return Err(MnemeError::Corrupted { segment: id, reason: Fault::QuantLengthOverflow });
        },
    };
    let fits: bool = match offset.checked_add(len) {
        Some(end) => end <= source.vsec_len,
        None => false,
    };
    if !fits {
        return Err(MnemeError::Corrupted { segment: id, reason: Fault::QuantRegionOutOfRange });
    }
    Ok(Some(QuantCopy { format, offset, stride, rows: source.row_count }))
}

/// Whether every node has a version.
pub open spec fn remap_inside(remap: Seq<u32>, state: StateModel) -> bool {
    forall|i: int| 0 <= i < remap.len() ==> (#[trigger] remap[i]) < state.slots.len()
}

/// The node of a version.
pub open spec fn node_of(state: StateModel, slot: u32) -> IndexNode {
    IndexNode {
        rowid: state.slots[slot as int].rowid,
        slot,
        norm_sq: state.slots[slot as int].norm_sq,
    }
}

/// The nodes of a graph.
pub open spec fn nodes_of(state: StateModel, remap: Seq<u32>) -> Seq<IndexNode> {
    remap.map_values(|slot: u32| node_of(state, slot))
}

/// Puts the nodes of a graph together. A node without a version is corruption.
pub fn index_nodes(state: &WriterState, remap: &Vec<u32>) -> (result: Result<
    Vec<IndexNode>,
    MnemeError,
>)
    requires
        state.wf(),
    ensures
        match result {
            Ok(nodes) => remap_inside(remap@, state@) && nodes@ == nodes_of(state@, remap@),
            Err(error) => !remap_inside(remap@, state@) && error == corrupted(
                Fault::HidxSlotMissing,
            ),
        },
{
    let mut nodes: Vec<IndexNode> = Vec::new();
    let mut i: usize = 0;
    while i < remap.len()
        invariant
            state.wf(),
            i <= remap@.len(),
            nodes@.len() == i,
            forall|k: int| 0 <= k < i ==> (#[trigger] remap@[k]) < state@.slots.len(),
            forall|k: int| 0 <= k < i ==> (#[trigger] nodes@[k]) == node_of(state@, remap@[k]),
        decreases remap@.len() - i,
    {
        let slot: u32 = remap[i];
        if slot as usize >= state.slot_count() {
            assert(!(remap@[i as int] < state@.slots.len()));
            return Err(MnemeError::Corrupted { segment: None, reason: Fault::HidxSlotMissing });
        }
        let version = state.slot(slot as usize);
        nodes.push(IndexNode { rowid: version.rowid, slot, norm_sq: version.norm_sq });
        i = i + 1;
    }
    assert(nodes@ =~= nodes_of(state@, remap@));
    Ok(nodes)
}

/// Whether a graph may be loaded with this result.
pub open spec fn loads_index<
    I,
    F: Fn(&WriterState, &ByteFile, &Vec<IndexNode>, Option<QuantCopy>) -> Result<I, MnemeError>,
>(
    load: F,
    state: WriterState,
    hidx: ByteFile,
    remap: Seq<u32>,
    quant: Option<QuantCopy>,
    result: Result<I, MnemeError>,
) -> bool {
    if remap_inside(remap, state@) {
        exists|nodes: Vec<IndexNode>|
            #![trigger load.ensures((&state, &hidx, &nodes, quant), result)]
            nodes@ == nodes_of(state@, remap) && load.ensures(
                (&state, &hidx, &nodes, quant),
                result,
            )
    } else {
        result == Err::<I, MnemeError>(corrupted(Fault::HidxSlotMissing))
    }
}

/// Loads a graph for the versions that its nodes stand for.
pub fn load_index<
    I,
    F: Fn(&WriterState, &ByteFile, &Vec<IndexNode>, Option<QuantCopy>) -> Result<I, MnemeError>,
>(
    load: &F,
    state: &WriterState,
    hidx: &ByteFile,
    remap: &Vec<u32>,
    quant: Option<QuantCopy>,
) -> (result: Result<I, MnemeError>)
    requires
        state.wf(),
        forall|nodes: Vec<IndexNode>| load.requires((state, hidx, &nodes, quant)),
    ensures
        loads_index(*load, *state, *hidx, remap@, quant, result),
{
    match hidx.slice_at(0, hidx.len()) {
        Some(_) => {},
        None => {
            return Err(MnemeError::Corrupted { segment: None, reason: Fault::HidxSpanOutOfRange });
        },
    }
    let nodes = match index_nodes(state, remap) {
        Ok(nodes) => nodes,
        Err(error) => {
            return Err(error);
        },
    };
    let result = load(state, hidx, &nodes, quant);
    assert(load.ensures((state, hidx, &nodes, quant), result));
    result
}

/// What becomes of a graph that was loaded or could not be. A graph that cannot be loaded is left
/// out, unless corruption is to be reported at once: queries then scan the segment. A file says
/// nothing of the recall, so no estimate comes with a loaded graph.
pub open spec fn index_kept<I>(
    loaded: Result<I, MnemeError>,
    fail_fast: bool,
    segment_id: u32,
    remap: Seq<u32>,
    quant: Option<QuantCopy>,
    result: Result<Option<SegmentIndex<I>>, MnemeError>,
) -> bool {
    match loaded {
        Ok(index) => result matches Ok(Some(kept)) && kept.segment_id == segment_id && kept.index
            == index && kept.slots@ == remap && kept.format == (match quant {
            Some(copy) => Some(copy.format),
            None => None,
        }) && kept.recall_est is None,
        Err(error) => if fail_fast {
            result == Err::<Option<SegmentIndex<I>>, MnemeError>(error)
        } else {
            result == Ok::<Option<SegmentIndex<I>>, MnemeError>(None)
        },
    }
}

/// What loading the graph of a segment comes to.
pub open spec fn segment_index_outcome<
    I,
    F: Fn(&WriterState, &ByteFile, &Vec<IndexNode>, Option<QuantCopy>) -> Result<I, MnemeError>,
>(
    load: F,
    state: WriterState,
    source: GraphSource,
    remap: Seq<u32>,
    fail_fast: bool,
    result: Result<Option<SegmentIndex<I>>, MnemeError>,
) -> bool {
    match source.hidx {
        None => result == Ok::<Option<SegmentIndex<I>>, MnemeError>(None),
        Some(hidx) => match quant_outcome(source) {
            Err(error) => result == Err::<Option<SegmentIndex<I>>, MnemeError>(error),
            Ok(quant) => exists|loaded: Result<I, MnemeError>| #[trigger]
                loads_index(load, state, hidx, remap, quant, loaded) && index_kept(
                    loaded,
                    fail_fast,
                    source.segment_id,
                    remap,
                    quant,
                    result,
                ),
        },
    }
}

/// Loads the graph of a segment, where it has one.
pub fn build_segment_index<
    I,
    F: Fn(&WriterState, &ByteFile, &Vec<IndexNode>, Option<QuantCopy>) -> Result<I, MnemeError>,
>(
    load: &F,
    state: &WriterState,
    source: &GraphSource,
    remap: &Vec<u32>,
    fail_fast: bool,
) -> (result: Result<Option<SegmentIndex<I>>, MnemeError>)
    requires
        state.wf(),
        forall|hidx: ByteFile, nodes: Vec<IndexNode>, quant: Option<QuantCopy>|
            load.requires((state, &hidx, &nodes, quant)),
    ensures
        segment_index_outcome(*load, *state, *source, remap@, fail_fast, result),
{
    let hidx = match &source.hidx {
        Some(hidx) => hidx,
        None => {
            return Ok(None);
        },
    };
    let quant = match load_quant_copy(source) {
        Ok(quant) => quant,
        Err(error) => {
            return Err(error);
        },
    };
    let loaded = load_index(load, state, hidx, remap, quant);
    let ghost seen = loaded;
    assert(loads_index(*load, *state, *hidx, remap@, quant, seen));
    match loaded {
        Ok(index) => {
            let format: Option<u8> = match quant {
                Some(copy) => Some(copy.format),
                None => None,
            };
            let kept = SegmentIndex {
                segment_id: source.segment_id,
                index,
                slots: crate::recover::copied_numbers(remap),
                format,
                recall_est: None,
            };
            let result = Ok(Some(kept));
            assert(index_kept(seen, fail_fast, source.segment_id, remap@, quant, result));
            result
        },
        Err(error) => {
            if fail_fast {
                let result = Err(error);
                assert(index_kept(seen, fail_fast, source.segment_id, remap@, quant, result));
                result
            } else {
                let result = Ok(None);
                assert(index_kept(seen, fail_fast, source.segment_id, remap@, quant, result));
                result
            }
        },
    }
}

/// The first remap of a segment.
pub open spec fn remap_at(remaps: Seq<SegmentRemap>, segment_id: u32, at: int) -> bool {
    0 <= at < remaps.len() && remaps[at].segment_id == segment_id && forall|k: int|
        0 <= k < at ==> (#[trigger] remaps[k]).segment_id != segment_id
}

/// Whether a segment is loaded: it was not left out, and its slots went somewhere.
pub open spec fn is_job(
    source: GraphSource,
    skipped: Seq<u32>,
    remaps: Seq<SegmentRemap>,
) -> bool {
    !skipped.contains(source.segment_id) && exists|at: int| #[trigger]
        remap_at(remaps, source.segment_id, at)
}

/// The segments among the first `count` that are loaded.
pub open spec fn job_positions(
    sources: Seq<GraphSource>,
    skipped: Seq<u32>,
    remaps: Seq<SegmentRemap>,
    count: nat,
) -> Seq<int>
    decreases count,
{
    if count == 0 {
        Seq::empty()
    } else {
        let before = job_positions(sources, skipped, remaps, (count - 1) as nat);
        if is_job(sources[count - 1], skipped, remaps) {
            before.push(count - 1)
        } else {
            before
        }
    }
}

fn find_remap(remaps: &Vec<SegmentRemap>, segment_id: u32) -> (found: Option<usize>)
    ensures
        match found {
            Some(at) => remap_at(remaps@, segment_id, at as int),
            None => forall|at: int| !#[trigger] remap_at(remaps@, segment_id, at),
        },
{
    let mut i: usize = 0;
    while i < remaps.len()
        invariant
            i <= remaps@.len(),
            forall|k: int| 0 <= k < i ==> (#[trigger] remaps@[k]).segment_id != segment_id,
        decreases remaps@.len() - i,
    {
        if remaps[i].segment_id == segment_id {
            return Some(i);
        }
        i = i + 1;
    }
    assert forall|at: int| !#[trigger] remap_at(remaps@, segment_id, at) by {}
    None
}

fn holds_number(numbers: &Vec<u32>, number: u32) -> (found: bool)
    ensures
        found == numbers@.contains(number),
{
    let mut i: usize = 0;
    while i < numbers.len()
        invariant
            i <= numbers@.len(),
            forall|k: int| 0 <= k < i ==> numbers@[k] != number,
        decreases numbers@.len() - i,
    {
        if numbers[i] == number {
            assert(numbers@[i as int] == number);
            return true;
        }
        i = i + 1;
    }
    false
}

/// Gathers the segments that are loaded, in their order, each with its remap.
pub fn collect_hidx_jobs(sources: &Vec<GraphSource>, recovered: &RecoveredSegments) -> (jobs: Vec<
    (usize, usize),
>)
    ensures
        jobs@.map_values(|j: (usize, usize)| j.0 as int) == job_positions(
            sources@,
            recovered.skipped@,
            recovered.remaps@,
            sources@.len(),
        ),
        forall|i: int|
            0 <= i < jobs@.len() ==> (#[trigger] jobs@[i]).0 < sources@.len() && remap_at(
                recovered.remaps@,
                sources@[jobs@[i].0 as int].segment_id,
                jobs@[i].1 as int,
            ),
{
    let mut jobs: Vec<(usize, usize)> = Vec::new();
    let mut i: usize = 0;
    assert(jobs@.map_values(|j: (usize, usize)| j.0 as int) =~= Seq::empty());
    while i < sources.len()
        invariant
            i <= sources@.len(),
            jobs@.map_values(|j: (usize, usize)| j.0 as int) == job_positions(
                sources@,
                recovered.skipped@,
                recovered.remaps@,
                i as nat,
            ),
            forall|k: int|
                0 <= k < jobs@.len() ==> (#[trigger] jobs@[k]).0 < i && remap_at(
                    recovered.remaps@,
                    sources@[jobs@[k].0 as int].segment_id,
                    jobs@[k].1 as int,
                ),
        decreases sources@.len() - i,
    {
        let id: u32 = sources[i].segment_id;
        let ghost before = jobs@;
        if !holds_number(&recovered.skipped, id) {
            match find_remap(&recovered.remaps, id) {
                Some(at) => {
                    jobs.push((i, at));
                    assert(jobs@.map_values(|j: (usize, usize)| j.0 as int)
                        =~= before.map_values(|j: (usize, usize)| j.0 as int).push(i as int));
                    assert(is_job(sources@[i as int], recovered.skipped@, recovered.remaps@)) by {
                        assert(remap_at(recovered.remaps@, id, at as int));
                    }
                },
                None => {
                    assert(!is_job(sources@[i as int], recovered.skipped@, recovered.remaps@));
                },
            }
        }
        i = i + 1;
    }
    jobs
}

/// Whether these are the results of the first `count` jobs, and the graphs among them in order.
pub open spec fn loaded_in_order<I>(
    outcomes: Seq<Option<SegmentIndex<I>>>,
    indexes: Seq<SegmentIndex<I>>,
    count: nat,
) -> bool
    decreases count,
{
    if count == 0 {
        indexes.len() == 0
    } else {
        match outcomes[count - 1] {
            None => loaded_in_order(outcomes, indexes, (count - 1) as nat),
            Some(index) => indexes.len() > 0 && indexes.last() == index && loaded_in_order(
                outcomes,
                indexes.drop_last(),
                (count - 1) as nat,
            ),
        }
    }
}

/// Whether a job may be answered so.
pub open spec fn job_outcome<
    I,
    F: Fn(&WriterState, &ByteFile, &Vec<IndexNode>, Option<QuantCopy>) -> Result<I, MnemeError>,
>(
    load: F,
    state: WriterState,
    sources: Seq<GraphSource>,
    remaps: Seq<SegmentRemap>,
    job: (usize, usize),
    fail_fast: bool,
    result: Result<Option<SegmentIndex<I>>, MnemeError>,
) -> bool {
    segment_index_outcome(
        load,
        state,
        sources[job.0 as int],
        remaps[job.1 as int].remap@,
        fail_fast,
        result,
    )
}

/// Whether the jobs from a position on may be answered so.
pub open spec fn jobs_answered<
    I,
    F: Fn(&WriterState, &ByteFile, &Vec<IndexNode>, Option<QuantCopy>) -> Result<I, MnemeError>,
>(
    load: F,
    state: WriterState,
    sources: Seq<GraphSource>,
    remaps: Seq<SegmentRemap>,
    jobs: Seq<(usize, usize)>,
    from: int,
    fail_fast: bool,
    outcomes: Seq<Option<SegmentIndex<I>>>,
) -> bool {
    forall|i: int|
        0 <= i < outcomes.len() ==> job_outcome(
            load,
            state,
            sources,
            remaps,
            jobs[from + i],
            fail_fast,
            Ok(#[trigger] outcomes[i]),
        )
}

/// Whether these are the graphs of the jobs from one position up to another, in order.
pub open spec fn graphs_of<
    I,
    F: Fn(&WriterState, &ByteFile, &Vec<IndexNode>, Option<QuantCopy>) -> Result<I, MnemeError>,
>(
    load: F,
    state: WriterState,
    sources: Seq<GraphSource>,
    remaps: Seq<SegmentRemap>,
    jobs: Seq<(usize, usize)>,
    from: int,
    to: int,
    fail_fast: bool,
    outcomes: Seq<Option<SegmentIndex<I>>>,
    indexes: Seq<SegmentIndex<I>>,
) -> bool {
    &&& outcomes.len() == to - from
    &&& jobs_answered(load, state, sources, remaps, jobs, from, fail_fast, outcomes)
    &&& loaded_in_order(outcomes, indexes, outcomes.len())
}

/// Whether this is the error of the first job that fails, from one position up to another; the jobs
/// before it have these outcomes.
pub open spec fn first_graph_fails<
    I,
    F: Fn(&WriterState, &ByteFile, &Vec<IndexNode>, Option<QuantCopy>) -> Result<I, MnemeError>,
>(
    load: F,
    state: WriterState,
    sources: Seq<GraphSource>,
    remaps: Seq<SegmentRemap>,
    jobs: Seq<(usize, usize)>,
    from: int,
    to: int,
    fail_fast: bool,
    outcomes: Seq<Option<SegmentIndex<I>>>,
    error: MnemeError,
) -> bool {
    &&& from + outcomes.len() < to
    &&& jobs_answered(load, state, sources, remaps, jobs, from, fail_fast, outcomes)
    &&& job_outcome::<I, F>(
        load,
        state,
        sources,
        remaps,
        jobs[from + outcomes.len()],
        fail_fast,
        Err(error),
    )
}

/// Loads the graphs of a run of jobs, in order, up to the first that fails.
pub fn load_hidx_range<
    I,
    F: Fn(&WriterState, &ByteFile, &Vec<IndexNode>, Option<QuantCopy>) -> Result<I, MnemeError>,
>(
    load: &F,
    state: &WriterState,
    sources: &Vec<GraphSource>,
    recovered: &RecoveredSegments,
    jobs: &Vec<(usize, usize)>,
    from: usize,
    to: usize,
    fail_fast: bool,
) -> (result: Result<Vec<SegmentIndex<I>>, MnemeError>)
    requires
        state.wf(),
        from <= to <= jobs@.len(),
        forall|i: int|
            0 <= i < jobs@.len() ==> (#[trigger] jobs@[i]).0 < sources@.len() && jobs@[i].1
                < recovered.remaps@.len(),
        forall|hidx: ByteFile, nodes: Vec<IndexNode>, quant: Option<QuantCopy>|
            load.requires((state, &hidx, &nodes, quant)),
    ensures
        match result {
            Ok(indexes) => exists|outcomes: Seq<Option<SegmentIndex<I>>>| #[trigger]
                graphs_of(
                    *load,
                    *state,
                    sources@,
                    recovered.remaps@,
                    jobs@,
                    from as int,
                    to as int,
                    fail_fast,
                    outcomes,
                    indexes@,
                ),
            Err(error) => exists|outcomes: Seq<Option<SegmentIndex<I>>>| #[trigger]
                first_graph_fails(
                    *load,
                    *state,
                    sources@,
                    recovered.remaps@,
                    jobs@,
                    from as int,
                    to as int,
                    fail_fast,
                    outcomes,
                    error,
                ),
        },
{
    let mut indexes: Vec<SegmentIndex<I>> = Vec::new();
    let ghost mut outcomes: Seq<Option<SegmentIndex<I>>> = Seq::empty();
    let mut i: usize = from;
    while i < to
        invariant
            state.wf(),
            from <= i <= to <= jobs@.len(),
            forall|k: int|
                0 <= k < jobs@.len() ==> (#[trigger] jobs@[k]).0 < sources@.len() && jobs@[k].1
                    < recovered.remaps@.len(),
            forall|hidx: ByteFile, nodes: Vec<IndexNode>, quant: Option<QuantCopy>|
                load.requires((state, &hidx, &nodes, quant)),
            outcomes.len() == i - from,
            jobs_answered(
                *load,
                *state,
                sources@,
                recovered.remaps@,
                jobs@,
                from as int,
                fail_fast,
                outcomes,
            ),
            loaded_in_order(outcomes, indexes@, outcomes.len()),
        decreases to - i,
    {
        let (position, remap) = jobs[i];
        assert(jobs@[i as int].0 < sources@.len());
        let result = build_segment_index(
            load,
            state,
            &sources[position],
            &recovered.remaps[remap].remap,
            fail_fast,
        );
        let ghost before = outcomes;
        let ghost earlier = indexes@;
        match result {
            Err(error) => {
                assert(first_graph_fails(
                    *load,
                    *state,
                    sources@,
                    recovered.remaps@,
                    jobs@,
                    from as int,
                    to as int,
                    fail_fast,
                    outcomes,
                    error,
                ));
                return Err(error);
            },
            Ok(None) => {
                proof {
                    outcomes = outcomes.push(None);
                    lemma_in_order_prefix(before, outcomes, indexes@, before.len());
                }
            },
            Ok(Some(index)) => {
                proof {
                    outcomes = outcomes.push(Some(index));
                    lemma_in_order_prefix(before, outcomes, earlier, before.len());
                }
                indexes.push(index);
                assert(indexes@.drop_last() =~= earlier);
            },
        }
        proof {
            assert forall|k: int| 0 <= k < outcomes.len() implies job_outcome(
                *load,
                *state,
                sources@,
                recovered.remaps@,
                jobs@[from + k],
                fail_fast,
                Ok(#[trigger] outcomes[k]),
            ) by {
                if k < before.len() {
                    assert(outcomes[k] == before[k]);
                }
            }
        }
        i = i + 1;
    }
    let result: Result<Vec<SegmentIndex<I>>, MnemeError> = Ok(indexes);
    assert(result matches Ok(x) && graphs_of(
        *load,
        *state,
        sources@,
        recovered.remaps@,
        jobs@,
        from as int,
        to as int,
        fail_fast,
        outcomes,
        x@,
    ));
    result
}

proof fn lemma_in_order_prefix<I>(
    a: Seq<Option<SegmentIndex<I>>>,
    b: Seq<Option<SegmentIndex<I>>>,
    indexes: Seq<SegmentIndex<I>>,
    count: nat,
)
    requires
        count <= a.len(),
        count <= b.len(),
        forall|k: int| 0 <= k < count ==> a[k] == b[k],
        loaded_in_order(a, indexes, count),
    ensures
        loaded_in_order(b, indexes, count),
    decreases count,
{
    if count > 0 {
        match a[count - 1] {
            None => {
                lemma_in_order_prefix(a, b, indexes, (count - 1) as nat);
            },
            Some(_) => {
                lemma_in_order_prefix(a, b, indexes.drop_last(), (count - 1) as nat);
            },
        }
    }
}

/// Loads the graphs of the segments that were recovered, in the order of the segments.
pub fn load_hidx_indexes<
    I,
    F: Fn(&WriterState, &ByteFile, &Vec<IndexNode>, Option<QuantCopy>) -> Result<I, MnemeError>,
>(
    load: &F,
    state: &WriterState,
    sources: &Vec<GraphSource>,
    recovered: &RecoveredSegments,
    fail_fast: bool,
) -> (result: Result<Vec<SegmentIndex<I>>, MnemeError>)
    requires
        state.wf(),
        forall|hidx: ByteFile, nodes: Vec<IndexNode>, quant: Option<QuantCopy>|
            load.requires((state, &hidx, &nodes, quant)),
    ensures
        exists|jobs: Seq<(usize, usize)>| #[trigger]
            are_hidx_jobs(sources@, *recovered, jobs) && match result {
                Ok(indexes) => exists|outcomes: Seq<Option<SegmentIndex<I>>>| #[trigger]
                    graphs_of(
                        *load,
                        *state,
                        sources@,
                        recovered.remaps@,
                        jobs,
                        0,
                        jobs.len() as int,
                        fail_fast,
                        outcomes,
                        indexes@,
                    ),
                Err(error) => exists|outcomes: Seq<Option<SegmentIndex<I>>>| #[trigger]
                    first_graph_fails(
                        *load,
                        *state,
                        sources@,
                        recovered.remaps@,
                        jobs,
                        0,
                        jobs.len() as int,
                        fail_fast,
                        outcomes,
                        error,
                    ),
            },
{
    let jobs = collect_hidx_jobs(sources, recovered);
    assert(are_hidx_jobs(sources@, *recovered, jobs@));
    let count: usize = jobs.len();
    load_hidx_range(load, state, sources, recovered, &jobs, 0, count, fail_fast)
}

/// Whether these are the segments that are loaded, each with its remap.
pub open spec fn are_hidx_jobs(
    sources: Seq<GraphSource>,
    recovered: RecoveredSegments,
    jobs: Seq<(usize, usize)>,
) -> bool {
    &&& jobs.map_values(|j: (usize, usize)| j.0 as int) == job_positions(
        sources,
        recovered.skipped@,
        recovered.remaps@,
        sources.len(),
    )
    &&& forall|i: int|
        0 <= i < jobs.len() ==> (#[trigger] jobs[i]).0 < sources.len() && remap_at(
            recovered.remaps@,
            sources[jobs[i].0 as int].segment_id,
            jobs[i].1 as int,
        )
}

/// How many threads load graphs: no more than the machine has and than there are graphs.
pub fn hidx_load_workers(available: usize, job_count: usize) -> (workers: usize)
    ensures
        workers == crate::chunk::at_most(available as int, job_count as int),
{
    if available <= job_count {
        available
    } else {
        job_count
    }
}

/// A graph that is loaded never points past the versions that were recovered.
pub proof fn loaded_graph_stays_inside<
    I,
    F: Fn(&WriterState, &ByteFile, &Vec<IndexNode>, Option<QuantCopy>) -> Result<I, MnemeError>,
>(
    load: F,
    state: WriterState,
    source: GraphSource,
    remap: Seq<u32>,
    fail_fast: bool,
    result: Result<Option<SegmentIndex<I>>, MnemeError>,
)
    requires
        segment_index_outcome(load, state, source, remap, fail_fast, result),
        result matches Ok(Some(_)),
    ensures
        remap_inside(remap, state@),
        result->Ok_0->Some_0.slots@ == remap,
{
}

/// A graph that is loaded for a segment is the graph of that segment. It was read from its file
/// with one node for every slot of the segment, in the order of the slots: the node of a slot has
/// the number of the version that the slot was recovered to, its row and its norm. The coarser copy
/// of the vectors has the place that the segment states and lies inside of the vector file.
pub proof fn loaded_graph_is_that_of_its_segment<
    I,
    F: Fn(&WriterState, &ByteFile, &Vec<IndexNode>, Option<QuantCopy>) -> Result<I, MnemeError>,
>(
    load: F,
    state: WriterState,
    source: GraphSource,
    remap: Seq<u32>,
    fail_fast: bool,
    kept: SegmentIndex<I>,
)
    requires
        segment_index_outcome(load, state, source, remap, fail_fast, Ok(Some(kept))),
    ensures
        kept.segment_id == source.segment_id,
        kept.slots@ == remap,
        kept.recall_est is None,
        source.hidx is Some,
        source.quant matches Ok(info) && kept.format == info.format,
        forall|i: int| 0 <= i < remap.len() ==> (#[trigger] remap[i]) < state@.slots.len(),
        exists|nodes: Vec<IndexNode>, quant: Option<QuantCopy>|
            #![trigger load.ensures((&state, &source.hidx->0, &nodes, quant), Ok(kept.index))]
            load.ensures((&state, &source.hidx->0, &nodes, quant), Ok(kept.index)) && nodes@.len()
                == remap.len() && (forall|i: int|
                #![trigger nodes@[i]]
                0 <= i < remap.len() ==> nodes@[i].slot == remap[i] && nodes@[i].rowid
                    == state@.slots[remap[i] as int].rowid && nodes@[i].norm_sq
                    == state@.slots[remap[i] as int].norm_sq) && (quant is Some
                <==> source.quant->Ok_0.format is Some) && (quant matches Some(copy) ==> Some(
                copy.format,
            ) == source.quant->Ok_0.format && source.quant->Ok_0.region == Some(
                (copy.offset, copy.stride),
            ) && copy.rows == source.row_count && copy.offset + copy.stride * copy.rows
                <= source.vsec_len),
{
    let quant = quant_outcome(source)->Ok_0;
    let hidx = source.hidx->0;
    let loaded = choose|loaded: Result<I, MnemeError>| #[trigger]
        loads_index(load, state, hidx, remap, quant, loaded) && index_kept(
            loaded,
            fail_fast,
            source.segment_id,
            remap,
            quant,
            Ok(Some(kept)),
        );
    assert(loaded == Ok::<I, MnemeError>(kept.index));
    assert(remap_inside(remap, state@));
    let nodes = choose|nodes: Vec<IndexNode>|
        #![trigger load.ensures((&state, &hidx, &nodes, quant), loaded)]
        nodes@ == nodes_of(state@, remap) && load.ensures((&state, &hidx, &nodes, quant), loaded);
    assert(load.ensures((&state, &source.hidx->0, &nodes, quant), Ok(kept.index)));
    assert(nodes@.len() == remap.len());
}

/// A segment goes without its graph only where it has no graph file, or where loading the graph
/// failed and damage is not to be reported at once. Where damage is to be reported, a graph that
/// cannot be loaded is an error; a coarser copy that is damaged is one in any case.
pub proof fn only_damaged_graphs_are_left_out<
    I,
    F: Fn(&WriterState, &ByteFile, &Vec<IndexNode>, Option<QuantCopy>) -> Result<I, MnemeError>,
>(
    load: F,
    state: WriterState,
    source: GraphSource,
    remap: Seq<u32>,
    fail_fast: bool,
    result: Result<Option<SegmentIndex<I>>, MnemeError>,
)
    requires
        segment_index_outcome(load, state, source, remap, fail_fast, result),
    ensures
        source.hidx is None ==> result == Ok::<Option<SegmentIndex<I>>, MnemeError>(None),
        result == Ok::<Option<SegmentIndex<I>>, MnemeError>(None) ==> source.hidx is None
            || !fail_fast,
        source.hidx is Some && source.quant is Err ==> result is Err,
        source.hidx is Some ==> (source.quant matches Ok(info) ==> (info.format is Some
            && info.unsupported is Some ==> result == Err::<Option<SegmentIndex<I>>, MnemeError>(
            info.unsupported->0,
        ))),
        source.hidx is Some ==> (source.quant matches Ok(info) ==> (info.format is Some
            && info.unsupported is None && info.region is None ==> result == Err::<
            Option<SegmentIndex<I>>,
            MnemeError,
        >(
            MnemeError::Corrupted {
                segment: Some(source.segment_id),
                reason: Fault::QuantRegionMissing,
            },
        ))),
        source.hidx is Some && fail_fast && (exists|i: int|
            0 <= i < remap.len() && (#[trigger] remap[i]) >= state@.slots.len()) ==> result is Err,
{
    if source.hidx is Some && quant_outcome(source) is Ok {
        let quant = quant_outcome(source)->Ok_0;
        let loaded = choose|loaded: Result<I, MnemeError>| #[trigger]
            loads_index(load, state, source.hidx->0, remap, quant, loaded) && index_kept(
                loaded,
                fail_fast,
                source.segment_id,
                remap,
                quant,
                result,
            );
    }
}

proof fn lemma_job_positions(
    sources: Seq<GraphSource>,
    skipped: Seq<u32>,
    remaps: Seq<SegmentRemap>,
    count: nat,
    at: int,
)
    requires
        count <= sources.len(),
    ensures
        job_positions(sources, skipped, remaps, count).contains(at) <==> 0 <= at < count && is_job(
            sources[at],
            skipped,
            remaps,
        ),
    decreases count,
{
    if count > 0 {
        let less = (count - 1) as nat;
        lemma_job_positions(sources, skipped, remaps, less, at);
        let before = job_positions(sources, skipped, remaps, less);
        let all = job_positions(sources, skipped, remaps, count);
        if is_job(sources[count - 1], skipped, remaps) {
            assert(all[before.len() as int] == count - 1);
            if before.contains(at) {
                let k = choose|k: int| 0 <= k < before.len() && before[k] == at;
                assert(all[k] == at);
            }
            if all.contains(at) {
                let k = choose|k: int| 0 <= k < all.len() && all[k] == at;
                if k < before.len() {
                    assert(before[k] == at);
                }
            }
        }
    }
}

proof fn lemma_first_remap(remaps: Seq<SegmentRemap>, segment_id: u32, at: int) -> (first: int)
    requires
        0 <= at < remaps.len(),
        remaps[at].segment_id == segment_id,
    ensures
        remap_at(remaps, segment_id, first),
    decreases at,
{
    if forall|k: int| 0 <= k < at ==> (#[trigger] remaps[k]).segment_id != segment_id {
        at
    } else {
        let k = choose|k: int| 0 <= k < at && (#[trigger] remaps[k]).segment_id == segment_id;
        lemma_first_remap(remaps, segment_id, k)
    }
}

/// Every segment that was recovered has its graph loaded, with the slots of that segment, and no
/// segment that was left out has.
pub proof fn graphs_of_recovered_segments_are_loaded(
    sources: Seq<GraphSource>,
    recovered: RecoveredSegments,
    jobs: Seq<(usize, usize)>,
    at: int,
    place: int,
)
    requires
        are_hidx_jobs(sources, recovered, jobs),
    ensures
        0 <= at < sources.len() && !recovered.skipped@.contains(sources[at].segment_id) && 0
            <= place < recovered.remaps@.len() && recovered.remaps@[place].segment_id
            == sources[at].segment_id ==> exists|i: int|
            0 <= i < jobs.len() && (#[trigger] jobs[i]).0 == at
                && recovered.remaps@[jobs[i].1 as int].segment_id == sources[at].segment_id,
        0 <= at < jobs.len() ==> {
            &&& jobs[at].0 < sources.len()
            &&& jobs[at].1 < recovered.remaps@.len()
            &&& recovered.remaps@[jobs[at].1 as int].segment_id
                == sources[jobs[at].0 as int].segment_id
            &&& !recovered.skipped@.contains(sources[jobs[at].0 as int].segment_id)
        },
{
    let skipped = recovered.skipped@;
    let remaps = recovered.remaps@;
    let numbers = jobs.map_values(|j: (usize, usize)| j.0 as int);
    if 0 <= at < sources.len() && !skipped.contains(sources[at].segment_id) && 0 <= place
        < remaps.len() && remaps[place].segment_id == sources[at].segment_id {
        let first = lemma_first_remap(remaps, sources[at].segment_id, place);
        assert(remap_at(remaps, sources[at].segment_id, first));
        lemma_job_positions(sources, skipped, remaps, sources.len(), at);
        assert(numbers.contains(at));
        let i = choose|i: int| 0 <= i < numbers.len() && numbers[i] == at;
        assert(jobs[i].0 == at);
        assert(remap_at(remaps, sources[jobs[i].0 as int].segment_id, jobs[i].1 as int));
    }
    if 0 <= at < jobs.len() {
        let source = jobs[at].0 as int;
        assert(numbers[at] == source);
        assert(numbers.contains(source));
        lemma_job_positions(sources, skipped, remaps, sources.len(), source);
        assert(remap_at(remaps, sources[jobs[at].0 as int].segment_id, jobs[at].1 as int));
    }
}

/// The graphs that were loaded are kept, each once and in order, and nothing else is.
pub proof fn loaded_graphs_are_kept<I>(
    outcomes: Seq<Option<SegmentIndex<I>>>,
    indexes: Seq<SegmentIndex<I>>,
    count: nat,
    at: int,
)
    requires
        count <= outcomes.len(),
        loaded_in_order(outcomes, indexes, count),
    ensures
        0 <= at < count ==> (outcomes[at] matches Some(index) ==> indexes.contains(index)),
        0 <= at < indexes.len() ==> outcomes.contains(Some(indexes[at])),
        indexes.len() <= count,
    decreases count,
{
    if count > 0 {
        let less = (count - 1) as nat;
        match outcomes[count - 1] {
            None => {
                loaded_graphs_are_kept(outcomes, indexes, less, at);
            },
            Some(index) => {
                let rest = indexes.drop_last();
                loaded_graphs_are_kept(outcomes, rest, less, at);
                assert(indexes[indexes.len() - 1] == index);
                if 0 <= at < less && outcomes[at] is Some {
                    let k = choose|k: int| 0 <= k < rest.len() && rest[k] == outcomes[at]->0;
                    assert(indexes[k] == outcomes[at]->0);
                }
                if 0 <= at < rest.len() {
                    assert(rest[at] == indexes[at]);
                }
                assert(outcomes[count - 1] == Some(index));
            },
        }
    }
}

/// A coarser copy is used exactly where its format is known and it lies inside of the vector file,
/// whole; without a format there is none.
pub proof fn coarse_copy_is_used_where_it_fits(source: GraphSource)
    requires
        source.quant is Ok,
    ensures
        ({
            let info = source.quant->Ok_0;
            let (offset, stride) = info.region->0;
            let end = offset + stride * source.row_count;
            let fits = info.unsupported is None && info.region is Some && stride * source.row_count
                <= usize::MAX && end <= source.vsec_len;
            &&& info.format is None ==> quant_outcome(source) == Ok::<Option<QuantCopy>, MnemeError>(
                None,
            )
            &&& info.format is Some ==> (quant_outcome(source) is Ok <==> fits)
            &&& info.format is Some && fits ==> (quant_outcome(source) matches Ok(Some(copy))
                && copy.format == info.format->0 && copy.offset == offset && copy.stride == stride
                && copy.rows == source.row_count)
            &&& info.format is Some && info.unsupported is None && info.region is Some && end
                > source.vsec_len && stride * source.row_count <= usize::MAX
                ==> quant_outcome(source) == Err::<Option<QuantCopy>, MnemeError>(
                MnemeError::Corrupted {
                    segment: Some(source.segment_id),
                    reason: Fault::QuantRegionOutOfRange,
                },
            )
        }),
{
}

} // verus!
