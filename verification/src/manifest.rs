//! The manifest: what a committed library consists of.

use vstd::prelude::*;

use crate::error::{IdKind, Metric, MnemeError};
use crate::state::{fresh_state, Outcome, StateModel, WriterState, FIRST_CUSTOM_REL_KIND};

verus! {

/// A namespace of the manifest.
#[derive(Debug)]
pub struct NsEntry {
    pub ns_id: u32,
    pub path: String,
}

/// A relation kind of the manifest.
#[derive(Debug)]
pub struct RelKindEntry {
    pub kind: u16,
    pub name: String,
}

/// A segment of the manifest.
#[derive(Clone, Copy, Debug, PartialEq, Eq, Structural)]
pub struct SegmentEntry {
    pub segment_id: u32,
    pub format_version: u16,
    pub row_count: u64,
    pub min_seqno: u64,
    pub max_seqno: u64,
    pub created_ms: i64,
    pub vsec_crc: u32,
    pub msec_crc: u32,
    /// Checksum of the graph file; 0 for a segment without one.
    pub hidx_crc: u32,
    pub entry_slot: u32,
    pub entry_level: u8,
}

/// A committed state of a library.
#[derive(Debug)]
pub struct Manifest {
    pub dimension: u32,
    pub metric: Metric,
    pub stopwords: bool,
    pub next_rel_kind: u16,
    pub manifest_version: u64,
    /// The largest commit number that the segments cover.
    pub watermark_seqno: u64,
    pub next_rowid: u64,
    pub next_segment_id: u32,
    pub next_ns_id: u32,
    pub namespaces: Vec<NsEntry>,
    pub rel_kinds: Vec<RelKindEntry>,
    pub segments: Vec<SegmentEntry>,
}

/// What a `Manifest` holds.
#[verifier::ext_equal]
pub struct ManifestView {
    pub dimension: u32,
    pub metric: Metric,
    pub stopwords: bool,
    pub next_rel_kind: u16,
    pub manifest_version: u64,
    pub watermark_seqno: u64,
    pub next_rowid: u64,
    pub next_segment_id: u32,
    pub next_ns_id: u32,
    pub namespaces: Seq<(u32, Seq<char>)>,
    pub rel_kinds: Seq<(u16, Seq<char>)>,
    pub segments: Seq<SegmentEntry>,
}

/// The namespaces of a manifest.
pub open spec fn ns_views(entries: Seq<NsEntry>) -> Seq<(u32, Seq<char>)> {
    entries.map_values(|e: NsEntry| (e.ns_id, e.path@))
}

/// The relation kinds of a manifest.
pub open spec fn rel_kind_views(entries: Seq<RelKindEntry>) -> Seq<(u16, Seq<char>)> {
    entries.map_values(|e: RelKindEntry| (e.kind, e.name@))
}

impl View for Manifest {
    type V = ManifestView;

    open spec fn view(&self) -> ManifestView {
        ManifestView {
            dimension: self.dimension,
            metric: self.metric,
            stopwords: self.stopwords,
            next_rel_kind: self.next_rel_kind,
            manifest_version: self.manifest_version,
            watermark_seqno: self.watermark_seqno,
            next_rowid: self.next_rowid,
            next_segment_id: self.next_segment_id,
            next_ns_id: self.next_ns_id,
            namespaces: ns_views(self.namespaces@),
            rel_kinds: rel_kind_views(self.rel_kinds@),
            segments: self.segments@,
        }
    }
}

/// A copy of the namespaces.
pub fn copied_namespaces(entries: &Vec<NsEntry>) -> (copy: Vec<NsEntry>)
    ensures
        ns_views(copy@) == ns_views(entries@),
{
    let mut copy: Vec<NsEntry> = Vec::new();
    let mut i: usize = 0;
    while i < entries.len()
        invariant
            i <= entries@.len(),
            copy@.len() == i,
            forall|k: int|
                0 <= k < i ==> (#[trigger] copy@[k]).ns_id == entries@[k].ns_id && copy@[k].path@
                    == entries@[k].path@,
        decreases entries@.len() - i,
    {
        copy.push(NsEntry { ns_id: entries[i].ns_id, path: entries[i].path.clone() });
        i = i + 1;
    }
    assert(ns_views(copy@) =~= ns_views(entries@));
    copy
}

/// A copy of the relation kinds.
pub fn copied_rel_kinds(entries: &Vec<RelKindEntry>) -> (copy: Vec<RelKindEntry>)
    ensures
        rel_kind_views(copy@) == rel_kind_views(entries@),
{
    let mut copy: Vec<RelKindEntry> = Vec::new();
    let mut i: usize = 0;
    while i < entries.len()
        invariant
            i <= entries@.len(),
            copy@.len() == i,
            forall|k: int|
                0 <= k < i ==> (#[trigger] copy@[k]).kind == entries@[k].kind && copy@[k].name@
                    == entries@[k].name@,
        decreases entries@.len() - i,
    {
        copy.push(RelKindEntry { kind: entries[i].kind, name: entries[i].name.clone() });
        i = i + 1;
    }
    assert(rel_kind_views(copy@) =~= rel_kind_views(entries@));
    copy
}

/// A copy of the segments.
pub fn copied_segments(entries: &Vec<SegmentEntry>) -> (copy: Vec<SegmentEntry>)
    ensures
        copy@ == entries@,
{
    let mut copy: Vec<SegmentEntry> = Vec::new();
    let mut i: usize = 0;
    while i < entries.len()
        invariant
            i <= entries@.len(),
            copy@ == entries@.take(i as int),
        decreases entries@.len() - i,
    {
        copy.push(entries[i]);
        assert(entries@.take(i + 1) =~= entries@.take(i as int).push(entries@[i as int]));
        i = i + 1;
    }
    assert(entries@.take(entries@.len() as int) =~= entries@);
    copy
}

impl Manifest {
    /// A copy of its own.
    pub fn copied(&self) -> (copy: Manifest)
        ensures
            copy@ == self@,
    {
        Manifest {
            dimension: self.dimension,
            metric: self.metric,
            stopwords: self.stopwords,
            next_rel_kind: self.next_rel_kind,
            manifest_version: self.manifest_version,
            watermark_seqno: self.watermark_seqno,
            next_rowid: self.next_rowid,
            next_segment_id: self.next_segment_id,
            next_ns_id: self.next_ns_id,
            namespaces: copied_namespaces(&self.namespaces),
            rel_kinds: copied_rel_kinds(&self.rel_kinds),
            segments: copied_segments(&self.segments),
        }
    }
}

/// The segment number after `segment_id`. The largest number has none after it.
pub fn next_segment_id(segment_id: u32) -> (next: Result<u32, MnemeError>)
    ensures
        next == (if segment_id == u32::MAX {
            Err(MnemeError::IdExhausted { kind: IdKind::SegmentId })
        } else {
            Ok((segment_id + 1) as u32)
        }),
{
    match segment_id.checked_add(1) {
        Some(next) => Ok(next),
        None => Err(MnemeError::IdExhausted { kind: IdKind::SegmentId }),
    }
}

/// The manifest version after `version`. The largest version has none after it.
pub fn next_manifest_version(version: u64) -> (next: Result<u64, MnemeError>)
    ensures
        next == (if version == u64::MAX {
            Err(MnemeError::IdExhausted { kind: IdKind::ManifestVersion })
        } else {
            Ok((version + 1) as u64)
        }),
{
    match version.checked_add(1) {
        Some(next) => Ok(next),
        None => Err(MnemeError::IdExhausted { kind: IdKind::ManifestVersion }),
    }
}

/// The first `count` namespaces of a manifest bound in a state.
pub open spec fn namespaces_bound(
    state: StateModel,
    namespaces: Seq<(u32, Seq<char>)>,
    count: nat,
) -> StateModel
    decreases count,
{
    if count == 0 {
        state
    } else {
        let before = namespaces_bound(state, namespaces, (count - 1) as nat);
        let (ns_id, path) = namespaces[count - 1];
        StateModel {
            ns_registry: before.ns_registry.insert(ns_id as u64, path),
            ns_by_path: before.ns_by_path.insert(path, ns_id),
            ..before
        }
    }
}

/// The first `count` relation kinds of a manifest bound in a state, up to the first that does not
/// fit.
pub open spec fn rel_kinds_bound(
    state: StateModel,
    rel_kinds: Seq<(u16, Seq<char>)>,
    count: nat,
) -> Outcome
    decreases count,
{
    if count == 0 {
        (state, Ok(()))
    } else {
        let before = rel_kinds_bound(state, rel_kinds, (count - 1) as nat);
        if before.1 is Err {
            before
        } else {
            before.0.register_rel_kind(rel_kinds[count - 1].0, rel_kinds[count - 1].1)
        }
    }
}

/// The state that a manifest stands for before its segments are loaded: its registries and its
/// counters.
pub open spec fn empty_outcome(manifest: ManifestView) -> Result<StateModel, MnemeError> {
    let bound = namespaces_bound(fresh_state(), manifest.namespaces, manifest.namespaces.len());
    let registered = rel_kinds_bound(bound, manifest.rel_kinds, manifest.rel_kinds.len());
    match registered.1 {
        Err(error) => Err(error),
        Ok(()) => Ok(
            StateModel {
                next_rel_kind: if manifest.next_rel_kind > registered.0.next_rel_kind {
                    manifest.next_rel_kind
                } else {
                    registered.0.next_rel_kind
                },
                next_ns_id: manifest.next_ns_id,
                next_rowid: manifest.next_rowid,
                seqno: manifest.watermark_seqno,
                ..registered.0
            },
        ),
    }
}

proof fn lemma_rel_kind_failure_stays(
    state: StateModel,
    rel_kinds: Seq<(u16, Seq<char>)>,
    from: nat,
    to: nat,
)
    requires
        from <= to,
        rel_kinds_bound(state, rel_kinds, from).1 is Err,
    ensures
        rel_kinds_bound(state, rel_kinds, to) == rel_kinds_bound(state, rel_kinds, from),
    decreases to - from,
{
    if from < to {
        lemma_rel_kind_failure_stays(state, rel_kinds, from, (to - 1) as nat);
    }
}

/// Starts a state from the registries and counters of a manifest.
pub fn empty_state(manifest: &Manifest) -> (result: Result<WriterState, MnemeError>)
    ensures
        match result {
            Ok(state) => state.wf() && empty_outcome(manifest@) == Ok::<StateModel, MnemeError>(
                state@,
            ),
            Err(error) => empty_outcome(manifest@) == Err::<StateModel, MnemeError>(error),
        },
{
    let mut state = WriterState::new();
    let ghost view = manifest@;
    let mut i: usize = 0;
    while i < manifest.namespaces.len()
        invariant
            state.wf(),
            view == manifest@,
            i <= manifest.namespaces@.len(),
            state@ == namespaces_bound(fresh_state(), view.namespaces, i as nat),
        decreases manifest.namespaces@.len() - i,
    {
        let entry = &manifest.namespaces[i];
        assert(view.namespaces[i as int] == (entry.ns_id, entry.path@));
        state.bind_ns(entry.ns_id, entry.path.as_str());
        i = i + 1;
    }
    let ghost bound = state@;
    let mut j: usize = 0;
    while j < manifest.rel_kinds.len()
        invariant
            state.wf(),
            view == manifest@,
            bound == namespaces_bound(fresh_state(), view.namespaces, view.namespaces.len()),
            j <= manifest.rel_kinds@.len(),
            rel_kinds_bound(bound, view.rel_kinds, j as nat) == (
                state@,
                Ok::<(), MnemeError>(()),
            ),
        decreases manifest.rel_kinds@.len() - j,
    {
        let entry = &manifest.rel_kinds[j];
        assert(view.rel_kinds[j as int] == (entry.kind, entry.name@));
        let result = state.register_recovered_rel_kind(entry.kind, entry.name.as_str());
        assert(rel_kinds_bound(bound, view.rel_kinds, (j + 1) as nat) == (state@, result));
        match result {
            Ok(()) => {},
            Err(error) => {
                proof {
                    lemma_rel_kind_failure_stays(
                        bound,
                        view.rel_kinds,
                        (j + 1) as nat,
                        view.rel_kinds.len(),
                    );
                }
                return Err(error);
            },
        }
        j = j + 1;
    }
    state.take_counters(
        manifest.next_rel_kind,
        manifest.next_ns_id,
        manifest.next_rowid,
        manifest.watermark_seqno,
    );
    Ok(state)
}

proof fn lemma_namespace_bound(
    state: StateModel,
    namespaces: Seq<(u32, Seq<char>)>,
    count: nat,
    at: int,
)
    requires
        0 <= at < count <= namespaces.len(),
    ensures
        (forall|later: int|
            at < later < count ==> (#[trigger] namespaces[later]).0 != namespaces[at].0) ==> {
            let bound = namespaces_bound(state, namespaces, count);
            bound.ns_registry.dom().contains(namespaces[at].0 as u64)
                && bound.ns_registry[namespaces[at].0 as u64] == namespaces[at].1
        },
        (forall|later: int|
            at < later < count ==> (#[trigger] namespaces[later]).1 != namespaces[at].1) ==> {
            let bound = namespaces_bound(state, namespaces, count);
            bound.ns_by_path.dom().contains(namespaces[at].1)
                && bound.ns_by_path[namespaces[at].1] == namespaces[at].0
        },
    decreases count,
{
    if at < count - 1 {
        let less = (count - 1) as nat;
        lemma_namespace_bound(state, namespaces, less, at);
        assert(namespaces[less as int] == namespaces[less as int]);
    }
}

proof fn lemma_only_namespaces_bound(
    state: StateModel,
    namespaces: Seq<(u32, Seq<char>)>,
    count: nat,
    id: u64,
)
    requires
        count <= namespaces.len(),
        forall|i: int| 0 <= i < count ==> (#[trigger] namespaces[i]).0 != id,
    ensures
        ({
            let bound = namespaces_bound(state, namespaces, count);
            &&& bound.ns_registry.dom().contains(id) == state.ns_registry.dom().contains(id)
            &&& bound.ns_registry[id] == state.ns_registry[id]
        }),
    decreases count,
{
    if count > 0 {
        lemma_only_namespaces_bound(state, namespaces, (count - 1) as nat, id);
        assert(namespaces[count - 1].0 != id);
    }
}

proof fn lemma_namespaces_keep(
    state: StateModel,
    namespaces: Seq<(u32, Seq<char>)>,
    count: nat,
)
    ensures
        ({
            let bound = namespaces_bound(state, namespaces, count);
            bound == (StateModel {
                ns_registry: bound.ns_registry,
                ns_by_path: bound.ns_by_path,
                ..state
            })
        }),
    decreases count,
{
    if count > 0 {
        lemma_namespaces_keep(state, namespaces, (count - 1) as nat);
    }
}

proof fn lemma_rel_kind_bound(
    state: StateModel,
    rel_kinds: Seq<(u16, Seq<char>)>,
    count: nat,
    at: int,
)
    requires
        count <= rel_kinds.len(),
        rel_kinds_bound(state, rel_kinds, count).1 is Ok,
    ensures
        ({
            let bound = rel_kinds_bound(state, rel_kinds, count).0;
            &&& 0 <= at < count ==> {
                &&& bound.rel_kind_names.dom().contains(rel_kinds[at].0 as u64)
                &&& bound.rel_kind_names[rel_kinds[at].0 as u64] == rel_kinds[at].1
                &&& bound.next_rel_kind > rel_kinds[at].0
                &&& rel_kinds[at].0 >= FIRST_CUSTOM_REL_KIND
            }
            &&& bound.next_rel_kind >= state.next_rel_kind
            &&& bound == (StateModel {
                rel_kind_names: bound.rel_kind_names,
                next_rel_kind: bound.next_rel_kind,
                ..state
            })
        }),
    decreases count,
{
    if count > 0 {
        lemma_rel_kind_bound(state, rel_kinds, (count - 1) as nat, at);
    }
}

/// A manifest gives a state that holds no version yet, has the counters of the manifest, and binds
/// what the manifest binds: every namespace to its path and every path to its namespace, the last
/// where one is listed again, and every relation kind to its name. The number of the next relation
/// kind lies above all that are bound.
pub proof fn manifest_registries_are_bound(manifest: ManifestView, at: int, id: u64)
    ensures
        empty_outcome(manifest) matches Ok(state) ==> {
            let listed = manifest.namespaces;
            let kinds = manifest.rel_kinds;
            &&& state.slots.len() == 0
            &&& state.hidden.len() == 0
            &&& state.slot_segment.len() == 0
            &&& state.latest == Map::<u64, u32>::empty()
            &&& state.access.dom().is_empty()
            &&& state.out_edges.dom().is_empty()
            &&& state.in_edges.dom().is_empty()
            &&& state.seqno == manifest.watermark_seqno
            &&& state.next_rowid == manifest.next_rowid
            &&& state.next_ns_id == manifest.next_ns_id
            &&& state.next_rel_kind >= manifest.next_rel_kind
            &&& 0 <= at < listed.len() && (forall|later: int|
                at < later < listed.len() ==> (#[trigger] listed[later]).0 != listed[at].0)
                ==> state.ns_registry.dom().contains(listed[at].0 as u64)
                && state.ns_registry[listed[at].0 as u64] == listed[at].1
            &&& 0 <= at < listed.len() && (forall|later: int|
                at < later < listed.len() ==> (#[trigger] listed[later]).1 != listed[at].1)
                ==> state.ns_by_path.dom().contains(listed[at].1)
                && state.ns_by_path[listed[at].1] == listed[at].0
            &&& (forall|i: int| 0 <= i < listed.len() ==> (#[trigger] listed[i]).0 != id)
                ==> !state.ns_registry.dom().contains(id)
            &&& 0 <= at < kinds.len() ==> {
                &&& state.rel_kind_names.dom().contains(kinds[at].0 as u64)
                &&& state.rel_kind_names[kinds[at].0 as u64] == kinds[at].1
                &&& state.next_rel_kind > kinds[at].0 >= 16
            }
        },
{
    let listed = manifest.namespaces;
    let bound = namespaces_bound(fresh_state(), listed, listed.len());
    lemma_namespaces_keep(fresh_state(), listed, listed.len());
    if empty_outcome(manifest) is Ok {
        lemma_rel_kind_bound(bound, manifest.rel_kinds, manifest.rel_kinds.len(), at);
        if 0 <= at < listed.len() {
            lemma_namespace_bound(fresh_state(), listed, listed.len(), at);
        }
        if forall|i: int| 0 <= i < listed.len() ==> (#[trigger] listed[i]).0 != id {
            lemma_only_namespaces_bound(fresh_state(), listed, listed.len(), id);
        }
    }
}

} // verus!
