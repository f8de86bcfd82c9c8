//! Records: what a row holds, on its way in and out of storage.

use vstd::prelude::*;
use vstd::utf8::encode_utf8;

verus! {

/// Metadata of a row or an edge, which this layer carries without looking inside.
#[derive(Debug)]
pub enum Meta {
    Null,
    Encoded(Vec<u8>),
}

/// What a `Meta` holds.
pub enum MetaView {
    Null,
    Encoded(Seq<u8>),
}

impl View for Meta {
    type V = MetaView;

    open spec fn view(&self) -> MetaView {
        match self {
            Meta::Null => MetaView::Null,
            Meta::Encoded(bytes) => MetaView::Encoded(bytes@),
        }
    }
}

impl Meta {
    /// A copy of its own.
    pub fn copied(&self) -> (copy: Meta)
        ensures
            copy@ == self@,
    {
        match self {
            Meta::Null => Meta::Null,
            Meta::Encoded(bytes) => Meta::Encoded(vstd::slice::slice_to_vec(bytes.as_slice())),
        }
    }
}

/// Where the vector of a version lies. Components are IEEE 754 bit patterns.
#[derive(Debug)]
pub enum VectorStorage {
    /// In the vector file of a segment, read when it is needed.
    Lazy { segment_id: u32, offset: usize, dimension: usize },
    /// In memory.
    Owned(Vec<u32>),
}

/// What a `VectorStorage` holds.
pub enum VectorView {
    Lazy { segment_id: u32, offset: usize, dimension: usize },
    Owned(Seq<u32>),
}

impl View for VectorStorage {
    type V = VectorView;

    open spec fn view(&self) -> VectorView {
        match *self {
            VectorStorage::Lazy { segment_id, offset, dimension } => VectorView::Lazy {
                segment_id,
                offset,
                dimension,
            },
            VectorStorage::Owned(components) => VectorView::Owned(components@),
        }
    }
}

/// The text in an optional string.
pub open spec fn text_view(text: Option<String>) -> Option<Seq<char>> {
    match text {
        Some(t) => Some(t@),
        None => None,
    }
}

/// A copy of an optional string.
pub fn copied_text(text: &Option<String>) -> (copy: Option<String>)
    ensures
        text_view(copy) == text_view(*text),
{
    match text {
        Some(t) => Some(t.clone()),
        None => None,
    }
}

/// A record as it is stored in the log and in the metadata file. `importance` and `confidence`
/// are IEEE 754 bit patterns.
#[derive(Debug)]
pub struct EntryData {
    pub rowid: u64,
    pub seqno: u64,
    pub ns_id: u32,
    pub key: Option<String>,
    pub text: Option<String>,
    pub meta: Meta,
    pub created_at_ms: i64,
    pub expires_at_ms: Option<i64>,
    pub importance: Option<u32>,
    /// Last access and access count at the time of writing.
    pub access: Option<(i64, u32)>,
    pub valid_time: Option<(i64, Option<i64>)>,
    pub confidence: Option<u32>,
    pub provenance: Option<String>,
}

/// What an `EntryData` holds.
pub struct EntryView {
    pub rowid: u64,
    pub seqno: u64,
    pub ns_id: u32,
    pub key: Option<Seq<char>>,
    pub text: Option<Seq<char>>,
    pub meta: MetaView,
    pub created_at_ms: i64,
    pub expires_at_ms: Option<i64>,
    pub importance: Option<u32>,
    pub access: Option<(i64, u32)>,
    pub valid_time: Option<(i64, Option<i64>)>,
    pub confidence: Option<u32>,
    pub provenance: Option<Seq<char>>,
}

impl View for EntryData {
    type V = EntryView;

    open spec fn view(&self) -> EntryView {
        EntryView {
            rowid: self.rowid,
            seqno: self.seqno,
            ns_id: self.ns_id,
            key: text_view(self.key),
            text: text_view(self.text),
            meta: self.meta@,
            created_at_ms: self.created_at_ms,
            expires_at_ms: self.expires_at_ms,
            importance: self.importance,
            access: self.access,
            valid_time: self.valid_time,
            confidence: self.confidence,
            provenance: text_view(self.provenance),
        }
    }
}

impl EntryData {
    /// A copy of its own.
    pub fn copied(&self) -> (copy: EntryData)
        ensures
            copy@ == self@,
    {
        EntryData {
            rowid: self.rowid,
            seqno: self.seqno,
            ns_id: self.ns_id,
            key: copied_text(&self.key),
            text: copied_text(&self.text),
            meta: self.meta.copied(),
            created_at_ms: self.created_at_ms,
            expires_at_ms: self.expires_at_ms,
            importance: self.importance,
            access: self.access,
            valid_time: self.valid_time,
            confidence: self.confidence,
            provenance: copied_text(&self.provenance),
        }
    }
}

/// One version of a row in memory. `norm_sq`, `importance` and `confidence` are IEEE 754 bit
/// patterns.
#[derive(Debug)]
pub struct SlotData {
    pub rowid: u64,
    pub ns_id: u32,
    pub ns_path: String,
    pub seqno: u64,
    pub key: Option<String>,
    pub vector: VectorStorage,
    pub norm_sq: u32,
    pub text: Option<String>,
    pub text_hash: Option<u64>,
    pub meta: Meta,
    pub created_at: i64,
    pub expires_at: Option<i64>,
    pub importance: u32,
    pub confidence: u32,
    pub valid_from: i64,
    pub valid_to: Option<i64>,
    pub provenance: Option<String>,
    pub tx_ms: i64,
    pub deleted: bool,
}

/// What a `SlotData` holds.
pub struct SlotView {
    pub rowid: u64,
    pub ns_id: u32,
    pub ns_path: Seq<char>,
    pub seqno: u64,
    pub key: Option<Seq<char>>,
    pub vector: VectorView,
    pub norm_sq: u32,
    pub text: Option<Seq<char>>,
    pub text_hash: Option<u64>,
    pub meta: MetaView,
    pub created_at: i64,
    pub expires_at: Option<i64>,
    pub importance: u32,
    pub confidence: u32,
    pub valid_from: i64,
    pub valid_to: Option<i64>,
    pub provenance: Option<Seq<char>>,
    pub tx_ms: i64,
    pub deleted: bool,
}

impl View for SlotData {
    type V = SlotView;

    open spec fn view(&self) -> SlotView {
        SlotView {
            rowid: self.rowid,
            ns_id: self.ns_id,
            ns_path: self.ns_path@,
            seqno: self.seqno,
            key: text_view(self.key),
            vector: self.vector@,
            norm_sq: self.norm_sq,
            text: text_view(self.text),
            text_hash: self.text_hash,
            meta: self.meta@,
            created_at: self.created_at,
            expires_at: self.expires_at,
            importance: self.importance,
            confidence: self.confidence,
            valid_from: self.valid_from,
            valid_to: self.valid_to,
            provenance: text_view(self.provenance),
            tx_ms: self.tx_ms,
            deleted: self.deleted,
        }
    }
}

/// The bit pattern of 0.5, the importance of a record that states none.
pub const DEFAULT_IMPORTANCE: u32 = 0x3F00_0000;

/// The bit pattern of 1.0, the confidence of a record that states none.
pub const DEFAULT_CONFIDENCE: u32 = 0x3F80_0000;

/// The FNV-1a hash of a run of bytes, in 64 bits.
pub open spec fn fnv1a64_of(bytes: Seq<u8>) -> u64
    decreases bytes.len(),
{
    if bytes.len() == 0 {
        0xcbf2_9ce4_8422_2325
    } else {
        (fnv1a64_of(bytes.drop_last()) ^ bytes.last() as u64).wrapping_mul(0x100_0000_01b3)
    }
}

/// Hashes a run of bytes with FNV-1a.
pub fn fnv1a64(bytes: &[u8]) -> (hash: u64)
    ensures
        hash == fnv1a64_of(bytes@),
{
    let mut hash: u64 = 0xcbf2_9ce4_8422_2325;
    let mut i: usize = 0;
    assert(bytes@.take(0) =~= Seq::empty());
    while i < bytes.len()
        invariant
            i <= bytes.len(),
            hash == fnv1a64_of(bytes@.take(i as int)),
        decreases bytes.len() - i,
    {
        let byte: u64 = bytes[i] as u64;
        hash = (hash ^ byte).wrapping_mul(0x100_0000_01b3);
        proof {
            assert(bytes@.take(i + 1).drop_last() =~= bytes@.take(i as int));
        }
        i = i + 1;
    }
    assert(bytes@.take(bytes@.len() as int) =~= bytes@);
    hash
}

/// The hash of a text, where there is one.
pub open spec fn text_hash_of(text: Option<Seq<char>>) -> Option<u64> {
    match text {
        Some(t) => Some(fnv1a64_of(encode_utf8(t))),
        None => None,
    }
}

/// The version that a stored record stands for. `ns_path` is the path of its namespace, `tx_ms`
/// the time of the transaction. A record without its own validity is valid from `tx_ms` on.
pub open spec fn slot_of_entry(
    ns_path: Seq<char>,
    entry: EntryView,
    vector: VectorView,
    norm_sq: u32,
    tx_ms: i64,
    deleted: bool,
) -> SlotView {
    SlotView {
        rowid: entry.rowid,
        ns_id: entry.ns_id,
        ns_path,
        seqno: entry.seqno,
        key: entry.key,
        vector,
        norm_sq,
        text: entry.text,
        text_hash: text_hash_of(entry.text),
        meta: entry.meta,
        created_at: entry.created_at_ms,
        expires_at: entry.expires_at_ms,
        importance: match entry.importance {
            Some(bits) => bits,
            None => DEFAULT_IMPORTANCE,
        },
        confidence: match entry.confidence {
            Some(bits) => bits,
            None => DEFAULT_CONFIDENCE,
        },
        valid_from: match entry.valid_time {
            Some(span) => span.0,
            None => tx_ms,
        },
        valid_to: match entry.valid_time {
            Some(span) => span.1,
            None => None,
        },
        provenance: entry.provenance,
        tx_ms,
        deleted,
    }
}

/// The version that marks a row as deleted: no record, only what visibility needs.
pub open spec fn tombstone_of(
    rowid: u64,
    seqno: u64,
    tx_ms: i64,
    vector: VectorView,
    norm_sq: u32,
) -> SlotView {
    SlotView {
        rowid,
        ns_id: 0,
        ns_path: Seq::empty(),
        seqno,
        key: None,
        vector,
        norm_sq,
        text: None,
        text_hash: None,
        meta: MetaView::Null,
        created_at: tx_ms,
        expires_at: None,
        importance: DEFAULT_IMPORTANCE,
        confidence: DEFAULT_CONFIDENCE,
        valid_from: tx_ms,
        valid_to: None,
        provenance: None,
        tx_ms,
        deleted: true,
    }
}

/// What `tombstone_slot` builds a deleted version from.
pub struct TombstoneSlotInput {
    pub rowid: u64,
    pub seqno: u64,
    pub tx_ms: i64,
    pub vector: VectorStorage,
    pub norm_sq: u32,
}

/// Builds the version that marks a row as deleted.
pub fn tombstone_slot(input: TombstoneSlotInput) -> (slot: SlotData)
    ensures
        slot@ == tombstone_of(
            input.rowid,
            input.seqno,
            input.tx_ms,
            input.vector@,
            input.norm_sq,
        ),
{
    SlotData {
        rowid: input.rowid,
        ns_id: 0,
        ns_path: String::new(),
        seqno: input.seqno,
        key: None,
        vector: input.vector,
        norm_sq: input.norm_sq,
        text: None,
        text_hash: None,
        meta: Meta::Null,
        created_at: input.tx_ms,
        expires_at: None,
        importance: DEFAULT_IMPORTANCE,
        confidence: DEFAULT_CONFIDENCE,
        valid_from: input.tx_ms,
        valid_to: None,
        provenance: None,
        tx_ms: input.tx_ms,
        deleted: true,
    }
}

/// The record that a version is stored as. Access statistics are stored apart from it.
pub open spec fn entry_of_slot(slot: SlotView) -> EntryView {
    EntryView {
        rowid: slot.rowid,
        seqno: slot.seqno,
        ns_id: slot.ns_id,
        key: slot.key,
        text: slot.text,
        meta: slot.meta,
        created_at_ms: slot.created_at,
        expires_at_ms: slot.expires_at,
        importance: Some(slot.importance),
        access: None,
        valid_time: Some((slot.valid_from, slot.valid_to)),
        confidence: Some(slot.confidence),
        provenance: slot.provenance,
    }
}

/// Builds the record that a version is stored as.
pub fn entry_from_slot(slot: &SlotData) -> (entry: EntryData)
    ensures
        entry@ == entry_of_slot(slot@),
{
    EntryData {
        rowid: slot.rowid,
        seqno: slot.seqno,
        ns_id: slot.ns_id,
        key: copied_text(&slot.key),
        text: copied_text(&slot.text),
        meta: slot.meta.copied(),
        created_at_ms: slot.created_at,
        expires_at_ms: slot.expires_at,
        importance: Some(slot.importance),
        access: None,
        valid_time: Some((slot.valid_from, slot.valid_to)),
        confidence: Some(slot.confidence),
        provenance: copied_text(&slot.provenance),
    }
}

/// Storing a live version and reading it back gives the same version, given that its namespace
/// still has its path and that its text hash is that of its text.
pub proof fn entry_round_trip(slot: SlotView)
    requires
        slot.text_hash == text_hash_of(slot.text),
    ensures
        slot_of_entry(
            slot.ns_path,
            entry_of_slot(slot),
            slot.vector,
            slot.norm_sq,
            slot.tx_ms,
            slot.deleted,
        ) == slot,
{
}

/// The hash of a text starts from the offset basis of the hash and takes every byte in: first by
/// exclusive or, then by a product with the prime of the hash.
pub proof fn hash_takes_every_byte(bytes: Seq<u8>, byte: u8)
    ensures
        fnv1a64_of(Seq::<u8>::empty()) == 0xcbf2_9ce4_8422_2325,
        fnv1a64_of(bytes.push(byte)) == (fnv1a64_of(bytes) ^ (byte as u64)).wrapping_mul(
            0x100_0000_01b3,
        ),
{
    assert(bytes.push(byte).drop_last() =~= bytes);
}

/// A text has the hash of its bytes, and only a version without a text has none.
pub proof fn texts_are_hashed_by_their_bytes(text: Seq<char>)
    ensures
        text_hash_of(Some(text)) == Some(fnv1a64_of(encode_utf8(text))),
        text_hash_of(None::<Seq<char>>) is None,
{
}

} // verus!
