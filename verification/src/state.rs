//! The state that recovery rebuilds: versions, registries, access statistics and edges.

use vstd::prelude::*;

use crate::error::{corrupted, Fault, LimitField, MnemeError};
use crate::record::{
    slot_of_entry, text_hash_of, tombstone_of, tombstone_slot, EntryData, Meta, MetaView, SlotData,
    SlotView, TombstoneSlotInput, VectorStorage, VectorView,
};
use crate::tables::{NameTable, NumberTable, Table, TableKey};
use crate::text::text_equal;

verus! {

/// How often and when a row was last read.
#[derive(Clone, Copy, Debug, PartialEq, Eq, Structural)]
pub struct AccessStat {
    pub last_access_ms: i64,
    pub access_count: u32,
}

/// What identifies an edge in a table that is kept by one of its ends: that end, the other end
/// and the relation kind.
#[derive(Clone, Copy, Debug, PartialEq, Eq, Structural)]
pub struct EdgeKey {
    pub row: u64,
    pub other: u64,
    pub kind: u16,
}

impl TableKey for EdgeKey {
    open spec fn lt(self, other: Self) -> bool {
        self.row < other.row || (self.row == other.row && (self.other < other.other || (self.other
            == other.other && self.kind < other.kind)))
    }

    proof fn lt_irreflexive(a: Self) {
    }

    proof fn lt_transitive(a: Self, b: Self, c: Self) {
    }

    proof fn lt_total(a: Self, b: Self) {
    }

    fn less(&self, other: &Self) -> (result: bool) {
        self.row < other.row || (self.row == other.row && (self.other < other.other || (self.other
            == other.other && self.kind < other.kind)))
    }
}

/// An edge between two rows. The weight is an IEEE 754 bit pattern.
#[derive(Debug)]
pub struct Edge {
    pub from: u64,
    pub to: u64,
    pub kind: u16,
    pub weight: u32,
    pub metadata: Meta,
}

/// What an edge carries besides its ends and its kind.
#[derive(Debug)]
pub struct EdgeBody {
    pub weight: u32,
    pub metadata: Meta,
}

/// What an `EdgeBody` holds.
pub struct EdgeView {
    pub weight: u32,
    pub metadata: MetaView,
}

/// How the search structures of a state came about.
#[derive(Clone, Copy, Debug, PartialEq, Eq, Structural)]
pub enum IndexOrigin {
    /// They were not loaded or built.
    Unset,
    /// They were taken from the only segment.
    Disk,
    /// They were merged from several segments.
    Merged,
    /// They were built from the versions.
    Rebuilt,
}

/// The first relation kind that is not built in.
pub const FIRST_CUSTOM_REL_KIND: u16 = 16;

/// The mathematical state.
#[verifier::ext_equal]
pub struct StateModel {
    /// Every version, in the order in which it was committed.
    pub slots: Seq<SlotView>,
    /// Which versions a later version of their row hides.
    pub hidden: Seq<bool>,
    /// The segment that holds a version, where one does.
    pub slot_segment: Seq<Option<u32>>,
    /// The position of the latest version of every row.
    pub latest: Map<u64, u32>,
    pub access: Map<u64, AccessStat>,
    pub ns_registry: Map<u64, Seq<char>>,
    pub ns_by_path: Map<Seq<char>, u32>,
    pub rel_kind_names: Map<u64, Seq<char>>,
    pub next_rel_kind: u16,
    pub next_ns_id: u32,
    pub next_rowid: u64,
    pub seqno: u64,
    /// Edges by their source.
    pub out_edges: Map<EdgeKey, EdgeView>,
    /// Edges by their target.
    pub in_edges: Map<EdgeKey, EdgeView>,
    /// Segments that recovery left out.
    pub unavailable: Seq<u32>,
    pub indexing_paused: bool,
    pub index_origin: IndexOrigin,
}

/// What a step makes of a state, and what it returns.
pub type Outcome = (StateModel, Result<(), MnemeError>);

/// The state of a library before anything was recovered.
pub open spec fn fresh_state() -> StateModel {
    StateModel {
        slots: Seq::empty(),
        hidden: Seq::empty(),
        slot_segment: Seq::empty(),
        latest: Map::empty(),
        access: Map::empty(),
        ns_registry: Map::empty(),
        ns_by_path: Map::empty(),
        rel_kind_names: Map::empty(),
        next_rel_kind: FIRST_CUSTOM_REL_KIND,
        next_ns_id: 1,
        next_rowid: 0,
        seqno: 0,
        out_edges: Map::empty(),
        in_edges: Map::empty(),
        unavailable: Seq::empty(),
        indexing_paused: false,
        index_origin: IndexOrigin::Unset,
    }
}

impl StateModel {
    /// Every version has its flags, the latest version of a row is a version of that row,
    /// namespace ids have their size, and relation kinds have numbers that are not built in and
    /// names of their own.
    pub open spec fn consistent(self) -> bool {
        &&& self.hidden.len() == self.slots.len()
        &&& self.slot_segment.len() == self.slots.len()
        &&& self.slots.len() <= u32::MAX + 1
        &&& forall|row: u64| #[trigger]
            self.latest.dom().contains(row) ==> self.latest[row] < self.slots.len()
                && self.slots[self.latest[row] as int].rowid == row
        &&& forall|id: u64| #[trigger] self.ns_registry.dom().contains(id) ==> id <= u32::MAX
        &&& self.next_rel_kind >= FIRST_CUSTOM_REL_KIND
        &&& forall|kind: u64| #[trigger]
            self.rel_kind_names.dom().contains(kind) ==> FIRST_CUSTOM_REL_KIND <= kind
                < self.next_rel_kind
        &&& forall|a: u64, b: u64|
            #![trigger self.rel_kind_names.dom().contains(a), self.rel_kind_names.dom().contains(b)]
            self.rel_kind_names.dom().contains(a) && self.rel_kind_names.dom().contains(b)
                && self.rel_kind_names[a] == self.rel_kind_names[b] ==> a == b
    }

    /// The latest version of a row stands last among the versions of the row and is the only
    /// one that is not hidden.
    pub open spec fn chains_hold(self) -> bool {
        &&& self.consistent()
        &&& forall|i: int|
            0 <= i < self.slots.len() ==> self.latest.dom().contains(
                (#[trigger] self.slots[i]).rowid,
            ) && i <= self.latest[self.slots[i].rowid] && (self.hidden[i] <==> i
                != self.latest[self.slots[i].rowid])
    }

    /// The path of a namespace; empty, where the namespace is not registered.
    pub open spec fn path_of(self, ns_id: u32) -> Seq<char> {
        if self.ns_registry.dom().contains(ns_id as u64) {
            self.ns_registry[ns_id as u64]
        } else {
            Seq::empty()
        }
    }

    /// The access statistics of a row; zero, where there are none.
    pub open spec fn access_of(self, rowid: u64) -> AccessStat {
        if self.access.dom().contains(rowid) {
            self.access[rowid]
        } else {
            AccessStat { last_access_ms: 0, access_count: 0 }
        }
    }

    /// A version at the end of the chain of its row. The version that was the latest is hidden
    /// where `hide` asks for it.
    pub open spec fn with_version(self, slot: SlotView, hide: bool) -> StateModel {
        StateModel {
            slots: self.slots.push(slot),
            hidden: (if hide && self.latest.dom().contains(slot.rowid) {
                self.hidden.update(self.latest[slot.rowid] as int, true)
            } else {
                self.hidden
            }).push(false),
            slot_segment: self.slot_segment.push(None),
            latest: self.latest.insert(slot.rowid, self.slots.len() as u32),
            ..self
        }
    }

    /// Committing a version: positions have 32 bits, so there are at most 2^32 versions.
    pub open spec fn commit(self, slot: SlotView, hide: bool) -> Outcome {
        if self.slots.len() > u32::MAX {
            (
                self,
                Err(
                    MnemeError::LimitExceeded {
                        field: LimitField::SlotCount,
                        limit: u32::MAX as usize,
                        got: self.slots.len() as usize,
                    },
                ),
            )
        } else {
            (self.with_version(slot, hide), Ok(()))
        }
    }

    /// Moving the row id counter past a row id. The largest row id leaves no next one.
    pub open spec fn advance_rowid(self, rowid: u64) -> Outcome {
        if rowid < self.next_rowid {
            (self, Ok(()))
        } else if rowid == u64::MAX {
            (self, Err(corrupted(Fault::RowIdExhausted)))
        } else {
            (StateModel { next_rowid: (rowid + 1) as u64, ..self }, Ok(()))
        }
    }

    /// Moving the commit number up to `seqno`, never down.
    pub open spec fn raise_seqno(self, seqno: u64) -> StateModel {
        if seqno > self.seqno {
            StateModel { seqno, ..self }
        } else {
            self
        }
    }

    /// Binding a namespace to a path. The largest namespace id leaves no next one.
    pub open spec fn register_ns(self, ns_id: u32, path: Seq<char>) -> Outcome {
        let bound = StateModel {
            ns_registry: self.ns_registry.insert(ns_id as u64, path),
            ns_by_path: self.ns_by_path.insert(path, ns_id),
            ..self
        };
        if ns_id < self.next_ns_id {
            (bound, Ok(()))
        } else if ns_id == u32::MAX {
            (bound, Err(corrupted(Fault::NsIdExhausted)))
        } else {
            (StateModel { next_ns_id: (ns_id + 1) as u32, ..bound }, Ok(()))
        }
    }

    /// Taking a namespace out of the registry together with its path. The counter stays.
    pub open spec fn unregister_ns(self, ns_id: u32) -> StateModel {
        if self.ns_registry.dom().contains(ns_id as u64) {
            StateModel {
                ns_registry: self.ns_registry.remove(ns_id as u64),
                ns_by_path: self.ns_by_path.remove(self.ns_registry[ns_id as u64]),
                ..self
            }
        } else {
            self
        }
    }

    /// Whether a relation kind can take a name: its number is not built in and leaves a next
    /// one, and neither the number nor the name is bound otherwise.
    pub open spec fn rel_kind_fits(self, kind: u16, name: Seq<char>) -> bool {
        &&& FIRST_CUSTOM_REL_KIND <= kind < u16::MAX
        &&& forall|k: u64| #[trigger]
            self.rel_kind_names.dom().contains(k) ==> ((k == kind as u64)
                == (self.rel_kind_names[k] == name))
    }

    /// Binding a relation kind to a name.
    pub open spec fn register_rel_kind(self, kind: u16, name: Seq<char>) -> Outcome {
        if self.rel_kind_fits(kind, name) {
            (
                StateModel {
                    rel_kind_names: self.rel_kind_names.insert(kind as u64, name),
                    next_rel_kind: if kind >= self.next_rel_kind {
                        (kind + 1) as u16
                    } else {
                        self.next_rel_kind
                    },
                    ..self
                },
                Ok(()),
            )
        } else {
            (self, Err(corrupted(Fault::RelKindConflict)))
        }
    }

    /// Counting accesses that the log recorded: the count stops at its maximum, the time is the
    /// recorded one.
    pub open spec fn touch(self, rowid: u64, at_ms: i64, access_delta: u32) -> StateModel {
        StateModel {
            access: self.access.insert(
                rowid,
                AccessStat {
                    last_access_ms: at_ms,
                    access_count: saturating_count(
                        self.access_of(rowid).access_count,
                        access_delta,
                    ),
                },
            ),
            ..self
        }
    }

    /// Counting accesses that a segment recorded: the later of the two times is kept.
    pub open spec fn touch_latest(self, rowid: u64, at_ms: i64, access_delta: u32) -> StateModel {
        let stat = self.access_of(rowid);
        StateModel {
            access: self.access.insert(
                rowid,
                AccessStat {
                    last_access_ms: if stat.last_access_ms >= at_ms {
                        stat.last_access_ms
                    } else {
                        at_ms
                    },
                    access_count: saturating_count(stat.access_count, access_delta),
                },
            ),
            ..self
        }
    }

    /// Putting an edge into the table of its source and into that of its target.
    pub open spec fn relate(self, from: u64, to: u64, kind: u16, edge: EdgeView) -> StateModel {
        StateModel {
            out_edges: self.out_edges.insert(EdgeKey { row: from, other: to, kind }, edge),
            in_edges: self.in_edges.insert(EdgeKey { row: to, other: from, kind }, edge),
            ..self
        }
    }

    /// Putting an edge into the table of its target alone.
    pub open spec fn relate_in(self, from: u64, to: u64, kind: u16, edge: EdgeView) -> StateModel {
        StateModel {
            in_edges: self.in_edges.insert(EdgeKey { row: to, other: from, kind }, edge),
            ..self
        }
    }

    /// Taking an edge out of both tables.
    pub open spec fn unrelate(self, from: u64, to: u64, kind: u16) -> StateModel {
        StateModel {
            out_edges: self.out_edges.remove(EdgeKey { row: from, other: to, kind }),
            in_edges: self.in_edges.remove(EdgeKey { row: to, other: from, kind }),
            ..self
        }
    }

    /// Taking every edge out of both tables.
    pub open spec fn without_edges(self) -> StateModel {
        StateModel { out_edges: Map::empty(), in_edges: Map::empty(), ..self }
    }

    /// Whether the latest version of a row is younger than a commit number.
    pub open spec fn superseded(self, rowid: u64, seqno: u64) -> bool {
        self.latest.dom().contains(rowid) && self.slots[self.latest[rowid] as int].seqno > seqno
    }
}

/// Whether `listed` holds the entries of a registry, in ascending order of their numbers.
pub open spec fn lists_registry(
    registry: Map<u64, Seq<char>>,
    listed: Seq<(u64, Seq<char>)>,
) -> bool {
    &&& forall|i: int|
        0 <= i < listed.len() ==> registry.dom().contains((#[trigger] listed[i]).0)
            && registry[listed[i].0] == listed[i].1
    &&& forall|i: int, j: int|
        0 <= i < j < listed.len() ==> (#[trigger] listed[i]).0 < (#[trigger] listed[j]).0
    &&& forall|id: u64| #[trigger]
        registry.dom().contains(id) ==> exists|i: int|
            0 <= i < listed.len() && (#[trigger] listed[i]).0 == id
}

/// A count that stops at its maximum.
pub open spec fn saturating_count(count: u32, more: u32) -> u32 {
    if count + more > u32::MAX {
        u32::MAX
    } else {
        (count + more) as u32
    }
}

/// The views of the bodies of a table of edges.
pub open spec fn edge_views(table: Map<EdgeKey, EdgeBody>) -> Map<EdgeKey, EdgeView> {
    table.map_values(|b: EdgeBody| EdgeView { weight: b.weight, metadata: b.metadata@ })
}

/// The texts of a table of strings.
pub open spec fn text_views(table: Map<u64, String>) -> Map<u64, Seq<char>> {
    table.map_values(|s: String| s@)
}

/// The state that writers work on and that recovery rebuilds.
pub struct WriterState {
    slots: Vec<SlotData>,
    hidden: Vec<bool>,
    slot_segment: Vec<Option<u32>>,
    latest: NumberTable<u32>,
    access: NumberTable<AccessStat>,
    ns_registry: NumberTable<String>,
    ns_by_path: NameTable<u32>,
    rel_kind_names: NumberTable<String>,
    next_rel_kind: u16,
    next_ns_id: u32,
    next_rowid: u64,
    seqno: u64,
    out_edges: Table<EdgeKey, EdgeBody>,
    in_edges: Table<EdgeKey, EdgeBody>,
    unavailable: Vec<u32>,
    indexing_paused: bool,
    index_origin: IndexOrigin,
}

impl View for WriterState {
    type V = StateModel;

    closed spec fn view(&self) -> StateModel {
        StateModel {
            slots: self.slots@.map_values(|s: SlotData| s@),
            hidden: self.hidden@,
            slot_segment: self.slot_segment@,
            latest: self.latest@,
            access: self.access@,
            ns_registry: text_views(self.ns_registry@),
            ns_by_path: self.ns_by_path@,
            rel_kind_names: text_views(self.rel_kind_names@),
            next_rel_kind: self.next_rel_kind,
            next_ns_id: self.next_ns_id,
            next_rowid: self.next_rowid,
            seqno: self.seqno,
            out_edges: edge_views(self.out_edges@),
            in_edges: edge_views(self.in_edges@),
            unavailable: self.unavailable@,
            indexing_paused: self.indexing_paused,
            index_origin: self.index_origin,
        }
    }
}

impl WriterState {
    /// The invariant of the state.
    pub closed spec fn wf(&self) -> bool {
        &&& self@.consistent()
        &&& self.latest.wf()
        &&& self.access.wf()
        &&& self.ns_registry.wf()
        &&& self.ns_by_path.wf()
        &&& self.rel_kind_names.wf()
        &&& self.out_edges.wf()
        &&& self.in_edges.wf()
    }

    /// The invariant speaks of the model.
    pub proof fn lemma_wf(&self)
        requires
            self.wf(),
        ensures
            self@.consistent(),
    {
    }

    /// The state of a library before anything was recovered.
    pub fn new() -> (state: Self)
        ensures
            state.wf(),
            state@ == fresh_state(),
    {
        let state = WriterState {
            slots: Vec::new(),
            hidden: Vec::new(),
            slot_segment: Vec::new(),
            latest: Table::new(),
            access: Table::new(),
            ns_registry: Table::new(),
            ns_by_path: NameTable::new(),
            rel_kind_names: Table::new(),
            next_rel_kind: FIRST_CUSTOM_REL_KIND,
            next_ns_id: 1,
            next_rowid: 0,
            seqno: 0,
            out_edges: Table::new(),
            in_edges: Table::new(),
            unavailable: Vec::new(),
            indexing_paused: false,
            index_origin: IndexOrigin::Unset,
        };
        assert(state@ =~= fresh_state());
        state
    }

    /// How many versions there are.
    pub fn slot_count(&self) -> (count: usize)
        ensures
            count == self@.slots.len(),
    {
        self.slots.len()
    }

    /// A version.
    pub fn slot(&self, at: usize) -> (slot: &SlotData)
        requires
            at < self@.slots.len(),
        ensures
            slot@ == self@.slots[at as int],
    {
        &self.slots[at]
    }

    /// Whether a later version hides a version.
    pub fn is_hidden(&self, at: usize) -> (hidden: bool)
        requires
            self.wf(),
            at < self@.slots.len(),
        ensures
            hidden == self@.hidden[at as int],
    {
        self.hidden[at]
    }

    /// The segment that holds a version.
    pub fn segment_of(&self, at: usize) -> (segment: Option<u32>)
        requires
            self.wf(),
            at < self@.slots.len(),
        ensures
            segment == self@.slot_segment[at as int],
    {
        self.slot_segment[at]
    }

    /// The position of the latest version of a row.
    pub fn latest_of(&self, rowid: u64) -> (at: Option<u32>)
        requires
            self.wf(),
        ensures
            at == (if self@.latest.dom().contains(rowid) {
                Some(self@.latest[rowid])
            } else {
                None
            }),
    {
        match self.latest.get(rowid) {
            Some(at) => Some(*at),
            None => None,
        }
    }

    /// The access statistics of a row.
    pub fn access_of(&self, rowid: u64) -> (stat: AccessStat)
        requires
            self.wf(),
        ensures
            stat == self@.access_of(rowid),
    {
        match self.access.get(rowid) {
            Some(stat) => *stat,
            None => AccessStat { last_access_ms: 0, access_count: 0 },
        }
    }

    /// How many namespaces are registered.
    pub fn namespace_count(&self) -> (count: usize)
        requires
            self.wf(),
        ensures
            count == self@.ns_registry.len(),
            count == self.listed_namespaces().len(),
    {
        proof {
            self.ns_registry.lemma_listed();
            assert(self@.ns_registry.dom() =~= self.ns_registry@.dom());
        }
        self.ns_registry.len()
    }

    /// The registered namespaces in ascending order of their ids.
    pub closed spec fn listed_namespaces(&self) -> Seq<(u64, Seq<char>)> {
        self.ns_registry.listed().map_values(|e: (u64, String)| (e.0, e.1@))
    }

    /// What the listing of the namespaces has to do with the registry.
    pub proof fn lemma_listed_namespaces(&self)
        requires
            self.wf(),
        ensures
            lists_registry(self@.ns_registry, self.listed_namespaces()),
    {
        self.ns_registry.lemma_listed();
        let listed = self.listed_namespaces();
        assert forall|id: u64| #[trigger] self@.ns_registry.dom().contains(id) implies exists|
            i: int,
        |
            0 <= i < listed.len() && (#[trigger] listed[i]).0 == id by {
            assert(self.ns_registry@.dom().contains(id));
            let i = choose|i: int|
                0 <= i < self.ns_registry.listed().len()
                    && #[trigger] self.ns_registry.listed()[i].0 == id;
            assert(listed[i].0 == id);
        }
        assert forall|i: int, j: int| 0 <= i < j < listed.len() implies (#[trigger] listed[i]).0 < (
        #[trigger] listed[j]).0 by {
            let entries = self.ns_registry.listed();
            assert(entries[i].0.lt(entries[j].0));
        }
        assert forall|i: int| 0 <= i < listed.len() implies self@.ns_registry.dom().contains(
            (#[trigger] listed[i]).0,
        ) && self@.ns_registry[listed[i].0] == listed[i].1 by {
            let entry = self.ns_registry.listed()[i];
            assert(self.ns_registry@.dom().contains(entry.0));
        }
    }

    /// A registered namespace by its place in the listing.
    pub fn namespace_at(&self, at: usize) -> (entry: (u64, &String))
        requires
            self.wf(),
            at < self.listed_namespaces().len(),
        ensures
            self.listed_namespaces()[at as int] == (entry.0, entry.1@),
    {
        self.ns_registry.entry_at(at)
    }

    /// How many relation kinds are registered.
    pub fn rel_kind_count(&self) -> (count: usize)
        requires
            self.wf(),
        ensures
            count == self@.rel_kind_names.len(),
            count == self.listed_rel_kinds().len(),
    {
        proof {
            self.rel_kind_names.lemma_listed();
            assert(self@.rel_kind_names.dom() =~= self.rel_kind_names@.dom());
        }
        self.rel_kind_names.len()
    }

    /// The registered relation kinds in ascending order of their numbers.
    pub closed spec fn listed_rel_kinds(&self) -> Seq<(u64, Seq<char>)> {
        self.rel_kind_names.listed().map_values(|e: (u64, String)| (e.0, e.1@))
    }

    /// What the listing of the relation kinds has to do with the registry.
    pub proof fn lemma_listed_rel_kinds(&self)
        requires
            self.wf(),
        ensures
            lists_registry(self@.rel_kind_names, self.listed_rel_kinds()),
    {
        self.rel_kind_names.lemma_listed();
        let listed = self.listed_rel_kinds();
        assert forall|id: u64| #[trigger] self@.rel_kind_names.dom().contains(id) implies exists|
            i: int,
        |
            0 <= i < listed.len() && (#[trigger] listed[i]).0 == id by {
            assert(self.rel_kind_names@.dom().contains(id));
            let i = choose|i: int|
                0 <= i < self.rel_kind_names.listed().len()
                    && #[trigger] self.rel_kind_names.listed()[i].0 == id;
            assert(listed[i].0 == id);
        }
        assert forall|i: int, j: int| 0 <= i < j < listed.len() implies (#[trigger] listed[i]).0 < (
        #[trigger] listed[j]).0 by {
            let entries = self.rel_kind_names.listed();
            assert(entries[i].0.lt(entries[j].0));
        }
        assert forall|i: int| 0 <= i < listed.len() implies self@.rel_kind_names.dom().contains(
            (#[trigger] listed[i]).0,
        ) && self@.rel_kind_names[listed[i].0] == listed[i].1 by {
            let entry = self.rel_kind_names.listed()[i];
            assert(self.rel_kind_names@.dom().contains(entry.0));
        }
    }

    /// A registered relation kind by its place in the listing.
    pub fn rel_kind_at(&self, at: usize) -> (entry: (u64, &String))
        requires
            self.wf(),
            at < self.listed_rel_kinds().len(),
        ensures
            self.listed_rel_kinds()[at as int] == (entry.0, entry.1@),
    {
        self.rel_kind_names.entry_at(at)
    }

    /// The next row id.
    pub fn next_rowid(&self) -> (next: u64)
        ensures
            next == self@.next_rowid,
    {
        self.next_rowid
    }

    /// The next namespace id.
    pub fn next_ns_id(&self) -> (next: u32)
        ensures
            next == self@.next_ns_id,
    {
        self.next_ns_id
    }

    /// The next relation kind.
    pub fn next_rel_kind(&self) -> (next: u16)
        ensures
            next == self@.next_rel_kind,
    {
        self.next_rel_kind
    }

    /// The largest commit number.
    pub fn seqno(&self) -> (seqno: u64)
        ensures
            seqno == self@.seqno,
    {
        self.seqno
    }

    /// How the search structures came about.
    pub fn index_origin(&self) -> (origin: IndexOrigin)
        ensures
            origin == self@.index_origin,
    {
        self.index_origin
    }

    /// The path of a namespace; empty, where the namespace is not registered.
    pub fn namespace_path(&self, ns_id: u32) -> (path: String)
        requires
            self.wf(),
        ensures
            path@ == self@.path_of(ns_id),
    {
        match self.ns_registry.get(ns_id as u64) {
            Some(path) => path.clone(),
            None => String::new(),
        }
    }

    /// The path of a namespace, where it is registered.
    pub fn registered_path(&self, ns_id: u32) -> (path: Option<&String>)
        requires
            self.wf(),
        ensures
            match path {
                Some(text) => self@.ns_registry.dom().contains(ns_id as u64)
                    && self@.ns_registry[ns_id as u64] == text@,
                None => !self@.ns_registry.dom().contains(ns_id as u64),
            },
    {
        self.ns_registry.get(ns_id as u64)
    }

    /// The namespace of a path.
    pub fn namespace_of(&self, path: &str) -> (ns_id: Option<u32>)
        requires
            self.wf(),
        ensures
            ns_id == (if self@.ns_by_path.dom().contains(path@) {
                Some(self@.ns_by_path[path@])
            } else {
                None
            }),
    {
        match self.ns_by_path.get(path) {
            Some(ns_id) => Some(*ns_id),
            None => None,
        }
    }

    /// Whether an edge leads from one row to another.
    pub fn has_edge(&self, from: u64, to: u64, kind: u16) -> (found: bool)
        requires
            self.wf(),
        ensures
            found == self@.out_edges.dom().contains(EdgeKey { row: from, other: to, kind }),
    {
        self.out_edges.contains(EdgeKey { row: from, other: to, kind })
    }

    /// Whether an edge is entered at its target.
    pub fn has_edge_in(&self, from: u64, to: u64, kind: u16) -> (found: bool)
        requires
            self.wf(),
        ensures
            found == self@.in_edges.dom().contains(EdgeKey { row: to, other: from, kind }),
    {
        self.in_edges.contains(EdgeKey { row: to, other: from, kind })
    }

    /// Appends a version and makes it the latest of its row.
    fn append_version(&mut self, slot: SlotData, hide: bool) -> (result: Result<(), MnemeError>)
        requires
            old(self).wf(),
        ensures
            final(self).wf(),
            (final(self)@, result) == old(self)@.commit(slot@, hide),
    {
        let count: usize = self.slots.len();
        if count > u32::MAX as usize {
            return Err(
                MnemeError::LimitExceeded {
                    field: LimitField::SlotCount,
                    limit: u32::MAX as usize,
                    got: count,
                },
            );
        }
        let ghost before = self@;
        let ghost view = slot@;
        let rowid: u64 = slot.rowid;
        if hide {
            match self.latest_of(rowid) {
                Some(at) => {
                    self.hidden.set(at as usize, true);
                },
                None => {},
            }
        }
        self.hidden.push(false);
        self.slot_segment.push(None);
        self.latest.insert(rowid, count as u32);
        self.slots.push(slot);
        proof {
            let model = before.with_version(view, hide);
            assert(self@.slots =~= model.slots);
            assert(self@.hidden =~= model.hidden);
            assert(self@.latest =~= model.latest);
            assert(self@ =~= model);
            assert forall|row: u64| #[trigger]
                self@.latest.dom().contains(row) implies self@.latest[row] < self@.slots.len()
                && self@.slots[self@.latest[row] as int].rowid == row by {
                if row != rowid {
                    assert(before.latest.dom().contains(row));
                }
            }
        }
        Ok(())
    }

    /// Commits a version; the version that was the latest of its row is hidden.
    pub fn commit_version(&mut self, slot: SlotData) -> (result: Result<(), MnemeError>)
        requires
            old(self).wf(),
        ensures
            final(self).wf(),
            (final(self)@, result) == old(self)@.commit(slot@, true),
    {
        self.append_version(slot, true)
    }

    /// Commits a recovered version. `previous_exists` says whether the row has an older version
    /// to hide.
    pub fn commit_recovered(&mut self, slot: SlotData, previous_exists: bool) -> (result: Result<
        (),
        MnemeError,
    >)
        requires
            old(self).wf(),
        ensures
            final(self).wf(),
            (final(self)@, result) == old(self)@.commit(slot@, previous_exists),
    {
        self.append_version(slot, previous_exists)
    }

    /// Commits a version that marks a row as deleted.
    pub fn tombstone(&mut self, rowid: u64, tx_ms: i64, seqno: u64) -> (result: Result<
        (),
        MnemeError,
    >)
        requires
            old(self).wf(),
        ensures
            final(self).wf(),
            (final(self)@, result) == old(self)@.commit(
                tombstone_of(rowid, seqno, tx_ms, VectorView::Owned(Seq::empty()), 0),
                true,
            ),
    {
        let vector = VectorStorage::Owned(Vec::new());
        let slot = tombstone_slot(
            TombstoneSlotInput { rowid, seqno, tx_ms, vector, norm_sq: 0 },
        );
        assert(slot@.vector == VectorView::Owned(Seq::<u32>::empty()));
        self.append_version(slot, true)
    }

    /// Moves the row id counter past a row id.
    pub fn advance_rowid(&mut self, rowid: u64) -> (result: Result<(), MnemeError>)
        requires
            old(self).wf(),
        ensures
            final(self).wf(),
            (final(self)@, result) == old(self)@.advance_rowid(rowid),
    {
        if rowid >= self.next_rowid {
            match rowid.checked_add(1) {
                Some(next) => {
                    self.next_rowid = next;
                },
                None => {
                    return Err(
                        MnemeError::Corrupted { segment: None, reason: Fault::RowIdExhausted },
                    );
                },
            }
        }
        Ok(())
    }

    /// Raises the commit number.
    pub fn raise_seqno(&mut self, seqno: u64)
        requires
            old(self).wf(),
        ensures
            final(self).wf(),
            final(self)@ == old(self)@.raise_seqno(seqno),
    {
        if seqno > self.seqno {
            self.seqno = seqno;
        }
    }

    /// Binds a namespace to a path and moves the namespace counter past it.
    pub fn register_ns(&mut self, ns_id: u32, path: &str) -> (result: Result<(), MnemeError>)
        requires
            old(self).wf(),
        ensures
            final(self).wf(),
            (final(self)@, result) == old(self)@.register_ns(ns_id, path@),
    {
        self.bind_ns(ns_id, path);
        if ns_id >= self.next_ns_id {
            match ns_id.checked_add(1) {
                Some(next) => {
                    self.next_ns_id = next;
                },
                None => {
                    return Err(
                        MnemeError::Corrupted { segment: None, reason: Fault::NsIdExhausted },
                    );
                },
            }
        }
        Ok(())
    }

    /// Binds a namespace to a path and leaves the namespace counter alone.
    pub fn bind_ns(&mut self, ns_id: u32, path: &str)
        requires
            old(self).wf(),
        ensures
            final(self).wf(),
            final(self)@ == (StateModel {
                ns_registry: old(self)@.ns_registry.insert(ns_id as u64, path@),
                ns_by_path: old(self)@.ns_by_path.insert(path@, ns_id),
                ..old(self)@
            }),
    {
        let ghost before = self.ns_registry@;
        self.ns_registry.insert(ns_id as u64, path.to_owned());
        self.ns_by_path.insert(path, ns_id);
        assert(text_views(self.ns_registry@) =~= text_views(before).insert(ns_id as u64, path@));
    }

    /// Takes a namespace out of the registry together with its path.
    pub fn unregister_ns(&mut self, ns_id: u32)
        requires
            old(self).wf(),
        ensures
            final(self).wf(),
            final(self)@ == old(self)@.unregister_ns(ns_id),
    {
        let ghost before = self.ns_registry@;
        match self.ns_registry.remove(ns_id as u64) {
            Some(path) => {
                let _ = self.ns_by_path.remove(path.as_str());
            },
            None => {},
        }
        assert(text_views(self.ns_registry@) =~= text_views(before).remove(ns_id as u64));
        assert(text_views(before).remove(ns_id as u64) =~= text_views(before)
            || before.dom().contains(ns_id as u64));
    }

    /// Whether a relation kind can take a name.
    fn rel_kind_fits(&self, kind: u16, name: &str) -> (fits: bool)
        requires
            self.wf(),
        ensures
            fits == self@.rel_kind_fits(kind, name@),
    {
        if kind < FIRST_CUSTOM_REL_KIND || kind == u16::MAX {
            return false;
        }
        proof {
            self.rel_kind_names.lemma_listed();
        }
        let mut i: usize = 0;
        while i < self.rel_kind_names.len()
            invariant
                self.wf(),
                FIRST_CUSTOM_REL_KIND <= kind < u16::MAX,
                i <= self.rel_kind_names.listed().len(),
                forall|j: int|
                    0 <= j < i ==> (((#[trigger] self.rel_kind_names.listed()[j]).0 == kind as u64)
                        == (self.rel_kind_names.listed()[j].1@ == name@)),
            decreases self.rel_kind_names.listed().len() - i,
        {
            proof {
                self.rel_kind_names.lemma_listed();
            }
            let (bound, text) = self.rel_kind_names.entry_at(i);
            if (bound == kind as u64) != text_equal(text.as_str(), name) {
                proof {
                    assert(self@.rel_kind_names.dom().contains(
                        self.rel_kind_names.listed()[i as int].0,
                    ));
                }
                return false;
            }
            i = i + 1;
        }
        proof {
            self.rel_kind_names.lemma_listed();
            assert forall|k: u64| #[trigger] self@.rel_kind_names.dom().contains(k) implies ((k
                == kind as u64) == (self@.rel_kind_names[k] == name@)) by {
                assert(self.rel_kind_names@.dom().contains(k));
                let j = choose|j: int|
                    0 <= j < self.rel_kind_names.listed().len()
                        && #[trigger] self.rel_kind_names.listed()[j].0 == k;
                assert(self.rel_kind_names.listed()[j].0 == k);
            }
        }
        true
    }

    /// Binds a recovered relation kind to its name.
    pub fn register_recovered_rel_kind(&mut self, kind: u16, name: &str) -> (result: Result<
        (),
        MnemeError,
    >)
        requires
            old(self).wf(),
        ensures
            final(self).wf(),
            (final(self)@, result) == old(self)@.register_rel_kind(kind, name@),
    {
        if !self.rel_kind_fits(kind, name) {
            return Err(MnemeError::Corrupted { segment: None, reason: Fault::RelKindConflict });
        }
        let ghost before = self.rel_kind_names@;
        self.rel_kind_names.insert(kind as u64, name.to_owned());
        assert(text_views(self.rel_kind_names@) =~= text_views(before).insert(
            kind as u64,
            name@,
        ));
        if kind >= self.next_rel_kind {
            self.next_rel_kind = kind + 1;
        }
        proof {
            let model = old(self)@;
            assert(self@ =~= model.register_rel_kind(kind, name@).0);
            assert(self@.consistent()) by {
                assert(model.consistent());
                assert forall|k: u64| #[trigger]
                    self@.rel_kind_names.dom().contains(k) implies k <= u16::MAX by {
                    assert(k == kind as u64 || model.rel_kind_names.dom().contains(k));
                }
            }
        }
        Ok(())
    }

    /// Sets the access statistics of a row.
    pub fn set_access(&mut self, rowid: u64, stat: AccessStat)
        requires
            old(self).wf(),
        ensures
            final(self).wf(),
            final(self)@ == (StateModel {
                access: old(self)@.access.insert(rowid, stat),
                ..old(self)@
            }),
    {
        self.access.insert(rowid, stat);
    }

    /// Counts accesses that the log recorded.
    pub fn touch(&mut self, rowid: u64, at_ms: i64, access_delta: u32)
        requires
            old(self).wf(),
        ensures
            final(self).wf(),
            final(self)@ == old(self)@.touch(rowid, at_ms, access_delta),
    {
        let stat = self.access_of(rowid);
        let count: u32 = stat.access_count.saturating_add(access_delta);
        self.access.insert(rowid, AccessStat { last_access_ms: at_ms, access_count: count });
    }

    /// Counts accesses that a segment recorded.
    pub fn touch_latest(&mut self, rowid: u64, at_ms: i64, access_delta: u32)
        requires
            old(self).wf(),
        ensures
            final(self).wf(),
            final(self)@ == old(self)@.touch_latest(rowid, at_ms, access_delta),
    {
        let stat = self.access_of(rowid);
        let count: u32 = stat.access_count.saturating_add(access_delta);
        let last: i64 = if stat.last_access_ms >= at_ms {
            stat.last_access_ms
        } else {
            at_ms
        };
        self.access.insert(rowid, AccessStat { last_access_ms: last, access_count: count });
    }

    /// Enters an edge at both of its ends.
    pub fn relate(&mut self, edge: Edge)
        requires
            old(self).wf(),
        ensures
            final(self).wf(),
            final(self)@ == old(self)@.relate(
                edge.from,
                edge.to,
                edge.kind,
                (EdgeView { weight: edge.weight, metadata: edge.metadata@ }),
            ),
    {
        let ghost before = self.out_edges@;
        let ghost view = EdgeView { weight: edge.weight, metadata: edge.metadata@ };
        let out_key = EdgeKey { row: edge.from, other: edge.to, kind: edge.kind };
        let body = EdgeBody { weight: edge.weight, metadata: edge.metadata.copied() };
        self.out_edges.insert(out_key, body);
        assert(edge_views(self.out_edges@) =~= edge_views(before).insert(out_key, view));
        self.relate_in(edge);
    }

    /// Enters an edge at its target alone.
    pub fn relate_in(&mut self, edge: Edge)
        requires
            old(self).wf(),
        ensures
            final(self).wf(),
            final(self)@ == old(self)@.relate_in(
                edge.from,
                edge.to,
                edge.kind,
                (EdgeView { weight: edge.weight, metadata: edge.metadata@ }),
            ),
    {
        let ghost before = self.in_edges@;
        let ghost view = EdgeView { weight: edge.weight, metadata: edge.metadata@ };
        let key = EdgeKey { row: edge.to, other: edge.from, kind: edge.kind };
        self.in_edges.insert(key, EdgeBody { weight: edge.weight, metadata: edge.metadata });
        assert(edge_views(self.in_edges@) =~= edge_views(before).insert(key, view));
    }

    /// Takes an edge out at both of its ends.
    pub fn unrelate(&mut self, from: u64, to: u64, kind: u16)
        requires
            old(self).wf(),
        ensures
            final(self).wf(),
            final(self)@ == old(self)@.unrelate(from, to, kind),
    {
        let ghost before_out = self.out_edges@;
        let ghost before_in = self.in_edges@;
        let out_key = EdgeKey { row: from, other: to, kind };
        let in_key = EdgeKey { row: to, other: from, kind };
        let _ = self.out_edges.remove(out_key);
        let _ = self.in_edges.remove(in_key);
        assert(edge_views(self.out_edges@) =~= edge_views(before_out).remove(out_key));
        assert(edge_views(self.in_edges@) =~= edge_views(before_in).remove(in_key));
    }

    /// Takes every edge out.
    pub fn clear_edges(&mut self)
        requires
            old(self).wf(),
        ensures
            final(self).wf(),
            final(self)@ == old(self)@.without_edges(),
    {
        self.out_edges = Table::new();
        self.in_edges = Table::new();
        assert(edge_views(self.out_edges@) =~= Map::empty());
        assert(edge_views(self.in_edges@) =~= Map::empty());
    }

    /// Builds the version that a stored record stands for.
    pub fn slot_from_entry(
        &self,
        entry: EntryData,
        vector: VectorStorage,
        norm_sq: u32,
        tx_ms: i64,
        deleted: bool,
    ) -> (slot: SlotData)
        requires
            self.wf(),
        ensures
            slot@ == slot_of_entry(
                self@.path_of(entry.ns_id),
                entry@,
                vector@,
                norm_sq,
                tx_ms,
                deleted,
            ),
    {
        let ns_path = self.namespace_path(entry.ns_id);
        let text_hash: Option<u64> = match &entry.text {
            Some(text) => Some(crate::record::fnv1a64(text.as_str().as_bytes())),
            None => None,
        };
        assert(text_hash == text_hash_of(entry@.text));
        let (valid_from, valid_to): (i64, Option<i64>) = match entry.valid_time {
            Some((from, to)) => (from, to),
            None => (tx_ms, None),
        };
        let importance: u32 = match entry.importance {
            Some(bits) => bits,
            None => crate::record::DEFAULT_IMPORTANCE,
        };
        let confidence: u32 = match entry.confidence {
            Some(bits) => bits,
            None => crate::record::DEFAULT_CONFIDENCE,
        };
        SlotData {
            rowid: entry.rowid,
            ns_id: entry.ns_id,
            ns_path,
            seqno: entry.seqno,
            key: entry.key,
            vector,
            norm_sq,
            text: entry.text,
            text_hash,
            meta: entry.meta,
            created_at: entry.created_at_ms,
            expires_at: entry.expires_at_ms,
            importance,
            confidence,
            valid_from,
            valid_to,
            provenance: entry.provenance,
            tx_ms,
            deleted,
        }
    }

    /// Enters the segment that holds a version.
    pub fn assign_segment(&mut self, at: usize, segment_id: u32)
        requires
            old(self).wf(),
            at < old(self)@.slots.len(),
        ensures
            final(self).wf(),
            final(self)@ == (StateModel {
                slot_segment: old(self)@.slot_segment.update(at as int, Some(segment_id)),
                ..old(self)@
            }),
    {
        self.slot_segment.set(at, Some(segment_id));
    }

    /// Takes over the counters of a manifest. The relation kind counter is only raised.
    pub fn take_counters(
        &mut self,
        next_rel_kind: u16,
        next_ns_id: u32,
        next_rowid: u64,
        seqno: u64,
    )
        requires
            old(self).wf(),
        ensures
            final(self).wf(),
            final(self)@ == (StateModel {
                next_rel_kind: if next_rel_kind > old(self)@.next_rel_kind {
                    next_rel_kind
                } else {
                    old(self)@.next_rel_kind
                },
                next_ns_id,
                next_rowid,
                seqno,
                ..old(self)@
            }),
    {
        if next_rel_kind > self.next_rel_kind {
            self.next_rel_kind = next_rel_kind;
        }
        self.next_ns_id = next_ns_id;
        self.next_rowid = next_rowid;
        self.seqno = seqno;
    }

    /// Stops or resumes the upkeep of the search structures.
    pub fn pause_indexing(&mut self, paused: bool)
        requires
            old(self).wf(),
        ensures
            final(self).wf(),
            final(self)@ == (StateModel { indexing_paused: paused, ..old(self)@ }),
    {
        self.indexing_paused = paused;
    }

    /// Notes how the search structures came about.
    pub fn note_index_origin(&mut self, origin: IndexOrigin)
        requires
            old(self).wf(),
        ensures
            final(self).wf(),
            final(self)@ == (StateModel { index_origin: origin, ..old(self)@ }),
    {
        self.index_origin = origin;
    }

    /// Notes the segments that recovery left out.
    pub fn note_unavailable(&mut self, segments: Vec<u32>)
        requires
            old(self).wf(),
        ensures
            final(self).wf(),
            final(self)@ == (StateModel { unavailable: segments@, ..old(self)@ }),
    {
        self.unavailable = segments;
    }

    /// Whether the latest version of a row is younger than a commit number. The access column of
    /// that version then already counts what was recorded under the number.
    pub fn superseded_by_latest_version(&self, rowid: u64, delta_seqno: u64) -> (covered: bool)
        requires
            self.wf(),
        ensures
            covered == self@.superseded(rowid, delta_seqno),
    {
        match self.latest_of(rowid) {
            Some(at) => self.slots[at as usize].seqno > delta_seqno,
            None => false,
        }
    }
}

/// Committing versions keeps the chains: of the versions of a row only the latest is visible.
pub proof fn commit_keeps_chains(state: StateModel, slot: SlotView)
    requires
        state.chains_hold(),
        state.slots.len() <= u32::MAX,
    ensures
        state.commit(slot, true).0.chains_hold(),
{
    let after = state.with_version(slot, true);
    assert forall|i: int| 0 <= i < after.slots.len() implies after.latest.dom().contains(
        (#[trigger] after.slots[i]).rowid,
    ) && i <= after.latest[after.slots[i].rowid] && (after.hidden[i] <==> i
        != after.latest[after.slots[i].rowid]) by {
        if i < state.slots.len() {
            assert(after.slots[i] == state.slots[i]);
            if state.slots[i].rowid == slot.rowid {
                assert(state.latest.dom().contains(slot.rowid));
            }
        }
    }
    assert forall|row: u64| #[trigger] after.latest.dom().contains(row) implies after.latest[row]
        < after.slots.len() && after.slots[after.latest[row] as int].rowid == row by {
        if row != slot.rowid {
            assert(state.latest.dom().contains(row));
        }
    }
}

/// No step takes an identifier back: the counters of rows, namespaces and relation kinds and the
/// commit number only rise.
pub open spec fn counters_rise(before: StateModel, after: StateModel) -> bool {
    &&& before.next_rowid <= after.next_rowid
    &&& before.next_ns_id <= after.next_ns_id
    &&& before.next_rel_kind <= after.next_rel_kind
    &&& before.seqno <= after.seqno
}

/// A namespace id that was handed out is never handed out again: after a registration the
/// counter lies above the id, and taking the namespace out does not lower it.
pub proof fn ns_id_never_reused(state: StateModel, ns_id: u32, path: Seq<char>)
    requires
        state.register_ns(ns_id, path).1 is Ok,
    ensures
        state.register_ns(ns_id, path).0.next_ns_id > ns_id,
        state.register_ns(ns_id, path).0.unregister_ns(ns_id).next_ns_id > ns_id,
        !state.register_ns(ns_id, path).0.unregister_ns(ns_id).ns_registry.dom().contains(
            ns_id as u64,
        ),
        !state.register_ns(ns_id, path).0.unregister_ns(ns_id).ns_by_path.dom().contains(path),
{
}

/// Taking an edge out undoes putting it in, for an edge that was not there.
pub proof fn unrelate_undoes_relate(
    state: StateModel,
    from: u64,
    to: u64,
    kind: u16,
    edge: EdgeView,
)
    requires
        !state.out_edges.dom().contains(EdgeKey { row: from, other: to, kind }),
        !state.in_edges.dom().contains(EdgeKey { row: to, other: from, kind }),
    ensures
        state.relate(from, to, kind, edge).unrelate(from, to, kind) == state,
{
    let after = state.relate(from, to, kind, edge).unrelate(from, to, kind);
    assert(after.out_edges =~= state.out_edges);
    assert(after.in_edges =~= state.in_edges);
    assert(after =~= state);
}

/// What does not fit is refused, and the state stays as it was: a version beyond the positions that
/// there are, the row id that leaves no next one, and a relation kind that is built in, is the
/// last, or contradicts a binding that is there.
pub proof fn what_does_not_fit_is_refused(
    state: StateModel,
    slot: SlotView,
    hide: bool,
    rowid: u64,
    kind: u16,
    name: Seq<char>,
    bound: u64,
)
    ensures
        state.commit(slot, hide).1 is Ok <==> state.slots.len() <= 0xffff_ffff,
        state.commit(slot, hide).1 is Err ==> state.commit(slot, hide).0 == state,
        state.advance_rowid(rowid).1 is Ok <==> rowid < state.next_rowid || rowid
            < 0xffff_ffff_ffff_ffff,
        state.advance_rowid(rowid).1 is Err ==> state.advance_rowid(rowid).0 == state,
        state.advance_rowid(rowid).1 is Ok ==> state.advance_rowid(rowid).0.next_rowid > rowid
            && state.advance_rowid(rowid).0.next_rowid >= state.next_rowid && (
        state.advance_rowid(rowid).0.next_rowid == state.next_rowid || state.advance_rowid(
            rowid,
        ).0.next_rowid == rowid + 1),
        kind < 16 || kind == 0xffff ==> state.register_rel_kind(kind, name).1 is Err,
        state.rel_kind_names.dom().contains(bound) && bound == kind && state.rel_kind_names[bound]
            != name ==> state.register_rel_kind(kind, name).1 is Err,
        state.rel_kind_names.dom().contains(bound) && bound != kind && state.rel_kind_names[bound]
            == name ==> state.register_rel_kind(kind, name).1 is Err,
        state.register_rel_kind(kind, name).1 is Err ==> state.register_rel_kind(kind, name).0
            == state,
        16 <= kind < 0xffff && (forall|k: u64| #[trigger]
            state.rel_kind_names.dom().contains(k) ==> k != kind && state.rel_kind_names[k] != name)
            ==> state.register_rel_kind(kind, name).1 is Ok,
{
}

/// A count of accesses never runs over and never falls, and it adds up as long as it can.
pub proof fn counts_stop_at_their_maximum(count: u32, more: u32)
    ensures
        saturating_count(count, more) >= count,
        saturating_count(count, more) >= more,
        count + more <= 0xffff_ffff ==> saturating_count(count, more) == count + more,
        count + more > 0xffff_ffff ==> saturating_count(count, more) == 0xffff_ffff,
{
}

} // verus!
