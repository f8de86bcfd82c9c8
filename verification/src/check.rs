//! Statistics of an open library and the check of its segments.

use vstd::prelude::*;

use crate::crc::{crc32, crc32_of};
use crate::error::{Fault, MnemeError, SegmentFile};
use crate::layout::{library_paths_stay_below, segment_path, segment_rel};
use crate::manifest::{Manifest, SegmentEntry};
use crate::remap::VersionRow;
use crate::segment::{record_outcome, MsecImage, SegmentImage, StoredRecord};
use crate::source::{is_opening, ByteFile};
use crate::storage::{failures_of, prefix_of, FileMap, Storage};
use crate::wal_writer::capped_sum;

verus! {

/// What is known of a graph that is loaded.
#[derive(Clone, Copy, Debug, PartialEq, Eq, Structural)]
pub struct GraphStat {
    pub segment_id: u32,
    pub nodes: u64,
    pub levels: u8,
    /// The format of the coarser copy; `None`, where there is none.
    pub format: Option<u8>,
    /// The estimate of the recall, as the bits of a single precision number.
    pub recall_est: Option<u32>,
}

/// The statistics of a segment.
#[derive(Clone, Copy, Debug, PartialEq, Eq, Structural)]
pub struct SegmentStat {
    pub id: u32,
    pub rows: u64,
    /// Length of the vector file and of the graph file.
    pub bytes: u64,
    pub created: i64,
    pub index_nodes: u64,
    pub index_levels: u8,
    pub format: Option<u8>,
    /// The estimate of the recall, as the bits of a single precision number.
    pub recall_est: Option<u32>,
}

/// The length of a file; 0, where it is not there.
pub open spec fn length_of(files: FileMap, path: Seq<char>) -> u64 {
    if files.dom().contains(path) {
        files[path].len() as u64
    } else {
        0
    }
}

/// The length of the files of a segment that are counted.
pub open spec fn counted_bytes(files: FileMap, entry: SegmentEntry) -> u64 {
    let vectors = length_of(files, segment_path(SegmentFile::Vsec, entry.segment_id));
    if entry.hidx_crc != 0 {
        capped_sum(vectors, length_of(files, segment_path(SegmentFile::Hidx, entry.segment_id)))
    } else {
        vectors
    }
}

/// The statistics of a segment with files of this length.
pub open spec fn stat_of(
    entry: SegmentEntry,
    bytes: u64,
    graph: Option<GraphStat>,
) -> SegmentStat {
    SegmentStat {
        id: entry.segment_id,
        rows: entry.row_count,
        bytes,
        created: entry.created_ms,
        index_nodes: match graph {
            Some(stat) => stat.nodes,
            None => 0,
        },
        index_levels: match graph {
            Some(stat) => stat.levels,
            None => 0,
        },
        format: match graph {
            Some(stat) => stat.format,
            None => None,
        },
        recall_est: match graph {
            Some(stat) => stat.recall_est,
            None => None,
        },
    }
}

/// The length of a segment file. Statistics count what can be had: a file whose length cannot be
/// had counts as 0.
fn file_bytes<S: Storage>(storage: &S, file: SegmentFile, segment_id: u32) -> (len: u64)
    requires
        storage.wf(),
    ensures
        len == 0 || len == length_of(storage.files(), segment_path(file, segment_id)),
        storage.reliable() ==> len == length_of(
            storage.files(),
            segment_path(file, segment_id),
        ),
{
    proof {
        library_paths_stay_below(file, segment_id, 0, 0);
    }
    let rel = segment_rel(file, segment_id);
    match storage.stat(rel.as_str()) {
        Ok(meta) => meta.len,
        Err(_) => 0,
    }
}

/// Gathers the statistics of a segment.
pub fn segment_stat<S: Storage>(storage: &S, entry: &SegmentEntry, graph: Option<GraphStat>) -> (stat:
    SegmentStat)
    requires
        storage.wf(),
    ensures
        stat == stat_of(*entry, stat.bytes, graph),
        stat.bytes <= counted_bytes(storage.files(), *entry),
        storage.reliable() ==> stat.bytes == counted_bytes(storage.files(), *entry),
{
    let mut bytes: u64 = file_bytes(storage, SegmentFile::Vsec, entry.segment_id);
    if entry.hidx_crc != 0 {
        let more: u64 = file_bytes(storage, SegmentFile::Hidx, entry.segment_id);
        bytes = bytes.saturating_add(more);
    }
    let (index_nodes, index_levels): (u64, u8) = match graph {
        Some(stat) => (stat.nodes, stat.levels),
        None => (0, 0),
    };
    let (format, recall_est): (Option<u8>, Option<u32>) = match graph {
        Some(stat) => (stat.format, stat.recall_est),
        None => (None, None),
    };
    SegmentStat {
        id: entry.segment_id,
        rows: entry.row_count,
        bytes,
        created: entry.created_ms,
        index_nodes,
        index_levels,
        format,
        recall_est,
    }
}

/// Whether this is the first graph of a segment among those that are loaded; `None`, where none is.
pub open spec fn is_graph_of(
    graphs: Seq<GraphStat>,
    segment_id: u32,
    found: Option<GraphStat>,
) -> bool {
    match found {
        Some(stat) => exists|i: int|
            0 <= i < graphs.len() && #[trigger] graphs[i] == stat && stat.segment_id == segment_id
                && forall|k: int| 0 <= k < i ==> (#[trigger] graphs[k]).segment_id != segment_id,
        None => forall|i: int|
            0 <= i < graphs.len() ==> (#[trigger] graphs[i]).segment_id != segment_id,
    }
}

fn find_graph(graphs: &Vec<GraphStat>, segment_id: u32) -> (found: Option<GraphStat>)
    ensures
        is_graph_of(graphs@, segment_id, found),
{
    let mut i: usize = 0;
    while i < graphs.len()
        invariant
            i <= graphs@.len(),
            forall|k: int| 0 <= k < i ==> (#[trigger] graphs@[k]).segment_id != segment_id,
        decreases graphs@.len() - i,
    {
        if graphs[i].segment_id == segment_id {
            assert(graphs@[i as int] == graphs@[i as int]);
            return Some(graphs[i]);
        }
        i = i + 1;
    }
    None
}

/// Whether a statistic is that of a segment.
pub open spec fn describes_segment(
    stat: SegmentStat,
    entry: SegmentEntry,
    graphs: Seq<GraphStat>,
    files: FileMap,
    reliable: bool,
) -> bool {
    exists|graph: Option<GraphStat>| #[trigger]
        is_graph_of(graphs, entry.segment_id, graph) && stat == stat_of(entry, stat.bytes, graph)
            && stat.bytes <= counted_bytes(files, entry) && (reliable ==> stat.bytes
            == counted_bytes(files, entry))
}

/// Gathers the statistics of every segment of a manifest, in its order.
pub fn segment_stats<S: Storage>(storage: &S, manifest: &Manifest, graphs: &Vec<GraphStat>) -> (stats:
    Vec<SegmentStat>)
    requires
        storage.wf(),
    ensures
        stats@.len() == manifest.segments@.len(),
        forall|i: int|
            0 <= i < stats@.len() ==> describes_segment(
                #[trigger] stats@[i],
                manifest.segments@[i],
                graphs@,
                storage.files(),
                storage.reliable(),
            ),
{
    let mut stats: Vec<SegmentStat> = Vec::new();
    let mut i: usize = 0;
    while i < manifest.segments.len()
        invariant
            storage.wf(),
            i <= manifest.segments@.len(),
            stats@.len() == i,
            forall|k: int|
                0 <= k < i ==> describes_segment(
                    #[trigger] stats@[k],
                    manifest.segments@[k],
                    graphs@,
                    storage.files(),
                    storage.reliable(),
                ),
        decreases manifest.segments@.len() - i,
    {
        let entry = manifest.segments[i];
        let graph = find_graph(graphs, entry.segment_id);
        stats.push(segment_stat(storage, &entry, graph));
        i = i + 1;
    }
    stats
}

/// How many of the first `count` marks are set.
pub open spec fn set_count(marks: Seq<bool>, count: nat) -> nat
    decreases count,
{
    if count == 0 {
        0
    } else {
        set_count(marks, (count - 1) as nat) + if marks[count - 1] {
            1nat
        } else {
            0nat
        }
    }
}

/// How many bytes of a sealed file tell its key.
pub const ENVELOPE_HEAD: usize = 10;

/// Whether a mark tells if a segment is sealed with a key.
pub open spec fn marks_key<K: Fn(&Vec<u8>) -> Option<u32>>(
    files: FileMap,
    key_of: K,
    segment_id: u32,
    key: u32,
    reliable: bool,
    mark: bool,
) -> bool {
    let path = segment_path(SegmentFile::Vsec, segment_id);
    if files.dom().contains(path) && (reliable || mark) {
        exists|head: Vec<u8>, found: Option<u32>|
            #![trigger key_of.ensures((&head,), found)]
            head@ == prefix_of(files[path], ENVELOPE_HEAD as nat) && key_of.ensures(
                (&head,),
                found,
            ) && mark == (found == Some(key))
    } else {
        !mark
    }
}

/// Counts the segments that are sealed with the key in use; all of them, where nothing is sealed. A
/// segment whose head cannot be read counts as not sealed with it.
pub fn migrated_segments<S: Storage, K: Fn(&Vec<u8>) -> Option<u32>>(
    storage: &S,
    manifest: &Manifest,
    active: Option<u32>,
    key_of: &K,
) -> (count: usize)
    requires
        storage.wf(),
        forall|head: Vec<u8>| key_of.requires((&head,)),
    ensures
        active is None ==> count == manifest.segments@.len(),
        active matches Some(key) ==> exists|marks: Seq<bool>|
            marks.len() == manifest.segments@.len() && (forall|i: int|
                0 <= i < marks.len() ==> marks_key(
                    storage.files(),
                    *key_of,
                    manifest.segments@[i].segment_id,
                    key,
                    storage.reliable(),
                    #[trigger] marks[i],
                )) && count == #[trigger] set_count(marks, marks.len()),
{
    let key: u32 = match active {
        Some(key) => key,
        None => {
            return manifest.segments.len();
        },
    };
    let ghost mut marks: Seq<bool> = Seq::empty();
    let mut count: usize = 0;
    let mut i: usize = 0;
    while i < manifest.segments.len()
        invariant
            storage.wf(),
            forall|head: Vec<u8>| key_of.requires((&head,)),
            i <= manifest.segments@.len(),
            marks.len() == i,
            count <= i,
            count == set_count(marks, i as nat),
            forall|k: int|
                0 <= k < i ==> marks_key(
                    storage.files(),
                    *key_of,
                    manifest.segments@[k].segment_id,
                    key,
                    storage.reliable(),
                    #[trigger] marks[k],
                ),
        decreases manifest.segments@.len() - i,
    {
        let id: u32 = manifest.segments[i].segment_id;
        proof {
            library_paths_stay_below(SegmentFile::Vsec, id, 0, 0);
        }
        let rel = segment_rel(SegmentFile::Vsec, id);
        let mark: bool = match storage.read_prefix(rel.as_str(), ENVELOPE_HEAD) {
            Ok(head) => {
                let found = key_of(&head);
                assert(key_of.ensures((&head,), found));
                match found {
                    Some(found_key) => found_key == key,
                    None => false,
                }
            },
            Err(_) => false,
        };
        assert(marks_key(storage.files(), *key_of, id, key, storage.reliable(), mark));
        let ghost before = marks;
        proof {
            marks = marks.push(mark);
            lemma_set_prefix(before, marks, i as nat);
            assert forall|k: int| 0 <= k < i + 1 implies marks_key(
                storage.files(),
                *key_of,
                manifest.segments@[k].segment_id,
                key,
                storage.reliable(),
                #[trigger] marks[k],
            ) by {
                if k < i {
                    assert(marks[k] == before[k]);
                }
            }
        }
        if mark {
            count = count + 1;
        }
        i = i + 1;
    }
    assert(count == set_count(marks, marks.len()));
    count
}

proof fn lemma_set_prefix(a: Seq<bool>, b: Seq<bool>, count: nat)
    requires
        count <= a.len(),
        count <= b.len(),
        forall|k: int| 0 <= k < count ==> a[k] == b[k],
    ensures
        set_count(a, count) == set_count(b, count),
    decreases count,
{
    if count > 0 {
        lemma_set_prefix(a, b, (count - 1) as nat);
    }
}

/// A segment with what a check reads besides what recovery does.
pub struct SegmentAudit {
    pub image: SegmentImage,
    /// Whether the key index decodes.
    pub key_rows: Result<(), MnemeError>,
    /// Whether the statistics of the namespaces decode.
    pub ns_stats: Result<(), MnemeError>,
}

/// What is wrong with the first record that does not decode, among the first `count` version rows.
pub open spec fn record_failure(
    msec: MsecImage,
    rows: Seq<VersionRow>,
    count: nat,
) -> Option<MnemeError>
    decreases count,
{
    if count == 0 {
        None
    } else {
        match record_failure(msec, rows, (count - 1) as nat) {
            Some(error) => Some(error),
            None => match record_outcome(msec, rows[count - 1].doc_offset) {
                StoredRecord::Malformed(error) => Some(error),
                _ => None,
            },
        }
    }
}

/// What the check of the vector file and of the metadata file of a segment comes to.
pub open spec fn files_outcome(audit: SegmentAudit) -> Result<(), MnemeError> {
    let image = audit.image;
    if image.vsec_handle is Err {
        image.vsec_handle
    } else if image.msec_handle is Err {
        image.msec_handle
    } else {
        match (image.vsec, image.msec) {
            (Err(error), _) => Err(error),
            (Ok(vsec), Err(error)) => if vsec.payload is Err {
                vsec.payload
            } else {
                Err(error)
            },
            (Ok(vsec), Ok(msec)) => if vsec.payload is Err {
                vsec.payload
            } else if msec.payload is Err {
                msec.payload
            } else if vsec.row_count != msec.row_count {
                Err(
                    MnemeError::Corrupted {
                        segment: Some(image.segment_id),
                        reason: Fault::RowCountMismatch,
                    },
                )
            } else if audit.key_rows is Err {
                audit.key_rows
            } else if audit.ns_stats is Err {
                audit.ns_stats
            } else {
                match msec.version_rows {
                    Err(error) => Err(error),
                    Ok(rows) => match record_failure(msec, rows@, rows@.len()) {
                        Some(error) => Err(error),
                        None => Ok(()),
                    },
                }
            },
        }
    }
}

proof fn lemma_failure_stays(msec: MsecImage, rows: Seq<VersionRow>, from: nat, to: nat)
    requires
        from <= to,
        record_failure(msec, rows, from) is Some,
    ensures
        record_failure(msec, rows, to) == record_failure(msec, rows, from),
    decreases to - from,
{
    if from < to {
        lemma_failure_stays(msec, rows, from, (to - 1) as nat);
    }
}

/// Checks that every record decodes.
fn verify_records(msec: &MsecImage, rows: &Vec<VersionRow>) -> (result: Result<(), MnemeError>)
    requires
        msec.records.wf(),
    ensures
        result == (match record_failure(*msec, rows@, rows@.len()) {
            Some(error) => Err::<(), MnemeError>(error),
            None => Ok::<(), MnemeError>(()),
        }),
{
    let mut i: usize = 0;
    while i < rows.len()
        invariant
            msec.records.wf(),
            i <= rows@.len(),
            record_failure(*msec, rows@, i as nat) is None,
        decreases rows@.len() - i,
    {
        let failure: Option<MnemeError> = match msec.records.get(rows[i].doc_offset) {
            Some(record) => match record {
                StoredRecord::Malformed(error) => Some(*error),
                _ => None,
            },
            None => Some(
                MnemeError::Corrupted {
                    segment: None,
                    reason: Fault::Malformed { region: crate::error::Region::Record },
                },
            ),
        };
        assert(record_failure(*msec, rows@, (i + 1) as nat) == failure);
        match failure {
            Some(error) => {
                proof {
                    lemma_failure_stays(*msec, rows@, (i + 1) as nat, rows@.len());
                }
                return Err(error);
            },
            None => {},
        }
        i = i + 1;
    }
    Ok(())
}

/// Checks the vector file and the metadata file of a segment: that their payloads have their
/// checksums, that they agree on the number of rows, and that the metadata decodes.
pub fn verify_segment_files(audit: &SegmentAudit) -> (result: Result<(), MnemeError>)
    requires
        audit.image.wf(),
    ensures
        result == files_outcome(*audit),
{
    let image = &audit.image;
    match image.vsec_handle {
        Ok(()) => {},
        Err(error) => {
            return Err(error);
        },
    }
    match image.msec_handle {
        Ok(()) => {},
        Err(error) => {
            return Err(error);
        },
    }
    let vsec = match &image.vsec {
        Ok(vsec) => vsec,
        Err(error) => {
            return Err(*error);
        },
    };
    match vsec.payload {
        Ok(()) => {},
        Err(error) => {
            return Err(error);
        },
    }
    let msec = match &image.msec {
        Ok(msec) => msec,
        Err(error) => {
            return Err(*error);
        },
    };
    match msec.payload {
        Ok(()) => {},
        Err(error) => {
            return Err(error);
        },
    }
    if vsec.row_count != msec.row_count {
        return Err(
            MnemeError::Corrupted {
                segment: Some(image.segment_id),
                reason: Fault::RowCountMismatch,
            },
        );
    }
    match audit.key_rows {
        Ok(()) => {},
        Err(error) => {
            return Err(error);
        },
    }
    match audit.ns_stats {
        Ok(()) => {},
        Err(error) => {
            return Err(error);
        },
    }
    match &msec.version_rows {
        Ok(rows) => verify_records(msec, rows),
        Err(error) => Err(*error),
    }
}

/// What the check of a graph file that was read comes to: first its checksum, then its layout.
pub open spec fn graph_outcome<V: Fn(&ByteFile) -> Result<(), MnemeError>>(
    opened: Result<ByteFile, MnemeError>,
    entry: SegmentEntry,
    verify: V,
    result: Result<(), MnemeError>,
) -> bool {
    match opened {
        Err(error) => result == Err::<(), MnemeError>(error),
        Ok(file) => if crc32_of(file.bytes()) != entry.hidx_crc {
            result == Err::<(), MnemeError>(
                MnemeError::Corrupted {
                    segment: Some(entry.segment_id),
                    reason: Fault::HidxCrcMismatch,
                },
            )
        } else {
            verify.ensures((&file,), result)
        },
    }
}

/// Checks the graph file of a segment, where it has one and a way to check graphs is at hand.
pub fn verify_hidx<
    S: Storage,
    U: Fn(SegmentFile, u32, Vec<u8>) -> Result<Vec<u8>, MnemeError>,
    V: Fn(&ByteFile) -> Result<(), MnemeError>,
>(storage: &S, entry: &SegmentEntry, magic: &[u8], unseal: &U, verify: Option<&V>) -> (result: Result<
    (),
    MnemeError,
>)
    requires
        storage.wf(),
        forall|raw: Vec<u8>| unseal.requires((SegmentFile::Hidx, entry.segment_id, raw)),
        verify matches Some(check) ==> forall|file: ByteFile| check.requires((&file,)),
    ensures
        entry.hidx_crc == 0 || verify is None ==> result is Ok,
        entry.hidx_crc != 0 ==> (verify matches Some(check) ==> exists|
            opened: Result<ByteFile, MnemeError>,
        | #[trigger]
            is_opening(
                storage.files(),
                SegmentFile::Hidx,
                entry.segment_id,
                magic@,
                *unseal,
                failures_of(*storage),
                opened,
            ) && graph_outcome(opened, *entry, *check, result)),
{
    if entry.hidx_crc == 0 {
        return Ok(());
    }
    let check = match verify {
        Some(check) => check,
        None => {
            return Ok(());
        },
    };
    let opened = ByteFile::open(storage, SegmentFile::Hidx, entry.segment_id, magic, unseal);
    let ghost seen = opened;
    assert(is_opening(
        storage.files(),
        SegmentFile::Hidx,
        entry.segment_id,
        magic@,
        *unseal,
        failures_of(*storage),
        seen,
    ));
    match opened {
        Ok(file) => {
            if crc32(file.as_slice()) != entry.hidx_crc {
                return Err(
                    MnemeError::Corrupted {
                        segment: Some(entry.segment_id),
                        reason: Fault::HidxCrcMismatch,
                    },
                );
            }
            check(&file)
        },
        Err(error) => Err(error),
    }
}

/// The numbers of the segments among the first `count` that a check found damaged.
pub open spec fn damaged_of(
    segments: Seq<SegmentEntry>,
    audits: Seq<SegmentAudit>,
    graphs: Seq<Result<(), MnemeError>>,
    count: nat,
) -> Seq<u32>
    decreases count,
{
    if count == 0 {
        Seq::empty()
    } else {
        let before = damaged_of(segments, audits, graphs, (count - 1) as nat);
        if files_outcome(audits[count - 1]) is Err || graphs[count - 1] is Err {
            before.push(segments[count - 1].segment_id)
        } else {
            before
        }
    }
}

/// Lists the segments that are damaged. `audits` and `graphs` tell of every segment of the manifest
/// what its files hold and what the check of its graph came to.
pub fn verify_segments(
    manifest: &Manifest,
    audits: &Vec<SegmentAudit>,
    graphs: &Vec<Result<(), MnemeError>>,
) -> (damaged: Vec<u32>)
    requires
        audits@.len() == manifest.segments@.len(),
        graphs@.len() == manifest.segments@.len(),
        forall|i: int| 0 <= i < audits@.len() ==> (#[trigger] audits@[i]).image.wf(),
    ensures
        damaged@ == damaged_of(
            manifest.segments@,
            audits@,
            graphs@,
            manifest.segments@.len(),
        ),
{
    let mut damaged: Vec<u32> = Vec::new();
    let mut i: usize = 0;
    while i < manifest.segments.len()
        invariant
            audits@.len() == manifest.segments@.len(),
            graphs@.len() == manifest.segments@.len(),
            forall|k: int| 0 <= k < audits@.len() ==> (#[trigger] audits@[k]).image.wf(),
            i <= manifest.segments@.len(),
            damaged@ == damaged_of(manifest.segments@, audits@, graphs@, i as nat),
        decreases manifest.segments@.len() - i,
    {
        assert(audits@[i as int].image.wf());
        let files = verify_segment_files(&audits[i]);
        if files.is_err() || graphs[i].is_err() {
            damaged.push(manifest.segments[i].segment_id);
        }
        i = i + 1;
    }
    damaged
}

/// A segment passes the check exactly where nothing about it is damaged: both files are at hand and
/// parse, both payloads have their checksums, the files agree on the number of rows, and the key
/// index, the statistics of the namespaces, the version rows and every record decode.
pub proof fn only_sound_segments_pass(audit: SegmentAudit)
    ensures
        files_outcome(audit) is Ok <==> {
            &&& audit.image.vsec_handle is Ok
            &&& audit.image.msec_handle is Ok
            &&& audit.image.vsec matches Ok(vsec) && vsec.payload is Ok
            &&& audit.image.msec matches Ok(msec) && msec.payload is Ok
            &&& audit.image.vsec->Ok_0.row_count == audit.image.msec->Ok_0.row_count
            &&& audit.key_rows is Ok
            &&& audit.ns_stats is Ok
            &&& audit.image.msec->Ok_0.version_rows matches Ok(rows) && forall|i: int|
                0 <= i < rows@.len() ==> {
                    let msec = audit.image.msec->Ok_0;
                    let offset = (#[trigger] rows@[i]).doc_offset;
                    msec.records@.dom().contains(offset) && !(msec.records@[offset] is Malformed)
                }
        },
{
    if audit.image.msec is Ok && audit.image.msec->Ok_0.version_rows is Ok {
        let msec = audit.image.msec->Ok_0;
        let rows = msec.version_rows->Ok_0@;
        lemma_records_decode(msec, rows, rows.len());
    }
}

proof fn lemma_records_decode(msec: MsecImage, rows: Seq<VersionRow>, count: nat)
    requires
        count <= rows.len(),
    ensures
        record_failure(msec, rows, count) is None <==> forall|i: int|
            0 <= i < count ==> msec.records@.dom().contains((#[trigger] rows[i]).doc_offset)
                && !(msec.records@[rows[i].doc_offset] is Malformed),
    decreases count,
{
    if count > 0 {
        lemma_records_decode(msec, rows, (count - 1) as nat);
        let last = rows[count - 1];
        if record_failure(msec, rows, count) is None {
            assert forall|i: int| 0 <= i < count implies msec.records@.dom().contains(
                (#[trigger] rows[i]).doc_offset,
            ) && !(msec.records@[rows[i].doc_offset] is Malformed) by {
                if i == count - 1 {
                    assert(rows[i] == last);
                }
            }
        }
    }
}

/// The check of a segment names what is damaged first: a file that is not at hand, then a file that
/// does not parse, then a payload without its checksum, the vector file before the metadata file.
pub proof fn damage_is_named(audit: SegmentAudit, error: MnemeError)
    requires
        files_outcome(audit) == Err::<(), MnemeError>(error),
    ensures
        ({
            let image = audit.image;
            &&& image.vsec_handle is Err ==> image.vsec_handle == Err::<(), MnemeError>(error)
            &&& image.vsec_handle is Ok && image.msec_handle is Err ==> image.msec_handle == Err::<
                (),
                MnemeError,
            >(error)
            &&& image.vsec_handle is Ok && image.msec_handle is Ok ==> {
                &&& image.vsec matches Err(e) ==> e == error
                &&& image.vsec matches Ok(vsec) ==> {
                    &&& vsec.payload matches Err(e) ==> e == error
                    &&& vsec.payload is Ok ==> {
                        &&& image.msec matches Err(e) ==> e == error
                        &&& image.msec matches Ok(msec) ==> (msec.payload matches Err(e) ==> e
                            == error)
                    }
                }
            }
        }),
{
}

/// A segment is listed as damaged exactly where its files are not sound or its graph failed its
/// check; the list keeps the order of the manifest, and no segment stands in it for another.
pub proof fn damaged_segments_are_listed(
    segments: Seq<SegmentEntry>,
    audits: Seq<SegmentAudit>,
    graphs: Seq<Result<(), MnemeError>>,
    count: nat,
)
    requires
        count <= segments.len(),
        audits.len() == segments.len(),
        graphs.len() == segments.len(),
    ensures
        forall|i: int|
            0 <= i < count && ((#[trigger] audits[i]).image.vsec_handle is Err
                || audits[i].image.msec_handle is Err || audits[i].image.vsec is Err
                || audits[i].image.msec is Err || audits[i].key_rows is Err
                || audits[i].ns_stats is Err || graphs[i] is Err) ==> damaged_of(
                segments,
                audits,
                graphs,
                count,
            ).contains(segments[i].segment_id),
        forall|i: int|
            0 <= i < count && ((#[trigger] audits[i]).image.vsec matches Ok(vsec) && (
            vsec.payload is Err || (audits[i].image.msec matches Ok(msec) && (msec.payload is Err
                || msec.row_count != vsec.row_count || msec.version_rows is Err))))
                ==> damaged_of(segments, audits, graphs, count).contains(segments[i].segment_id),
        forall|id: u32|
            damaged_of(segments, audits, graphs, count).contains(id) ==> exists|i: int|
                0 <= i < count && (#[trigger] segments[i]).segment_id == id && (files_outcome(
                    audits[i],
                ) is Err || graphs[i] is Err),
        damaged_of(segments, audits, graphs, count).len() <= count,
        (forall|i: int|
            0 <= i < count ==> files_outcome(#[trigger] audits[i]) is Ok && graphs[i] is Ok)
            <==> damaged_of(segments, audits, graphs, count).len() == 0,
    decreases count,
{
    let all = damaged_of(segments, audits, graphs, count);
    if count > 0 {
        let last = (count - 1) as nat;
        let before = damaged_of(segments, audits, graphs, last);
        damaged_segments_are_listed(segments, audits, graphs, last);
        only_sound_segments_pass(audits[last as int]);
        assert forall|id: u32| before.contains(id) implies all.contains(id) by {
            let k = choose|k: int| 0 <= k < before.len() && before[k] == id;
            assert(all[k] == id);
        }
        if files_outcome(audits[last as int]) is Err || graphs[last as int] is Err {
            assert(all[all.len() - 1] == segments[last as int].segment_id);
        }
        assert forall|id: u32| all.contains(id) implies exists|i: int|
            0 <= i < count && (#[trigger] segments[i]).segment_id == id && (files_outcome(
                audits[i],
            ) is Err || graphs[i] is Err) by {
            let k = choose|k: int| 0 <= k < all.len() && all[k] == id;
            if k < before.len() {
                assert(before[k] == id);
                assert(before.contains(id));
            } else {
                assert(segments[last as int].segment_id == id);
            }
        }
        if all.len() == 0 {
            assert forall|i: int| 0 <= i < count implies files_outcome(#[trigger] audits[i]) is Ok
                && graphs[i] is Ok by {}
        }
    }
}

/// The statistics of a segment tell of that segment: its number, its rows and its time, the length
/// of its vector file and, where it has a graph, that of its graph file, and of the first graph
/// that is loaded for it the nodes, the levels, the format and the recall. A segment without a
/// graph has none of these.
pub proof fn statistics_tell_of_the_segment(
    stat: SegmentStat,
    entry: SegmentEntry,
    graphs: Seq<GraphStat>,
    files: FileMap,
    at: int,
)
    requires
        describes_segment(stat, entry, graphs, files, true),
        forall|path: Seq<char>| #[trigger]
            files.dom().contains(path) ==> files[path].len() <= u64::MAX,
    ensures
        stat.id == entry.segment_id,
        stat.rows == entry.row_count,
        stat.created == entry.created_ms,
        ({
            let vectors = segment_path(SegmentFile::Vsec, entry.segment_id);
            let graph = segment_path(SegmentFile::Hidx, entry.segment_id);
            let first = if files.dom().contains(vectors) {
                files[vectors].len() as int
            } else {
                0
            };
            let second = if entry.hidx_crc != 0 && files.dom().contains(graph) {
                files[graph].len() as int
            } else {
                0
            };
            stat.bytes == (if first + second > u64::MAX {
                u64::MAX as int
            } else {
                first + second
            })
        }),
        0 <= at < graphs.len() && graphs[at].segment_id == entry.segment_id && (forall|k: int|
            0 <= k < at ==> (#[trigger] graphs[k]).segment_id != entry.segment_id) ==> {
            &&& stat.index_nodes == graphs[at].nodes
            &&& stat.index_levels == graphs[at].levels
            &&& stat.format == graphs[at].format
            &&& stat.recall_est == graphs[at].recall_est
        },
        (forall|k: int|
            0 <= k < graphs.len() ==> (#[trigger] graphs[k]).segment_id != entry.segment_id) ==> {
            &&& stat.index_nodes == 0
            &&& stat.index_levels == 0
            &&& stat.format is None
            &&& stat.recall_est is None
        },
{
    let found = choose|graph: Option<GraphStat>| #[trigger]
        is_graph_of(graphs, entry.segment_id, graph) && stat == stat_of(entry, stat.bytes, graph);
    if 0 <= at < graphs.len() && graphs[at].segment_id == entry.segment_id && (forall|k: int|
        0 <= k < at ==> (#[trigger] graphs[k]).segment_id != entry.segment_id) {
        assert(found is Some);
        let i = choose|i: int|
            0 <= i < graphs.len() && #[trigger] graphs[i] == found->0 && found->0.segment_id
                == entry.segment_id && forall|k: int|
                0 <= k < i ==> (#[trigger] graphs[k]).segment_id != entry.segment_id;
        assert(i == at);
    }
}

/// Marking one segment more raises the count by one, and of no marks none is counted: the count is
/// the number of marks that are set.
pub proof fn every_mark_counts_once(marks: Seq<bool>, count: nat, at: int)
    requires
        0 <= at < count <= marks.len(),
    ensures
        !marks[at] ==> set_count(marks.update(at, true), count) == set_count(marks, count) + 1,
        set_count(Seq::new(marks.len(), |i: int| false), count) == 0,
        set_count(marks, count) <= count,
    decreases count,
{
    let unset = Seq::new(marks.len(), |i: int| false);
    let raised = marks.update(at, true);
    lemma_none_set(unset, count);
    if at < count - 1 {
        every_mark_counts_once(marks, (count - 1) as nat, at);
        assert(raised[count - 1] == marks[count - 1]);
    } else {
        lemma_marks_alike(marks, raised, (count - 1) as nat);
        lemma_at_most(marks, count);
    }
}

proof fn lemma_none_set(marks: Seq<bool>, count: nat)
    requires
        count <= marks.len(),
        forall|i: int| 0 <= i < marks.len() ==> !(#[trigger] marks[i]),
    ensures
        set_count(marks, count) == 0,
    decreases count,
{
    if count > 0 {
        lemma_none_set(marks, (count - 1) as nat);
    }
}

proof fn lemma_at_most(marks: Seq<bool>, count: nat)
    ensures
        set_count(marks, count) <= count,
    decreases count,
{
    if count > 0 {
        lemma_at_most(marks, (count - 1) as nat);
    }
}

proof fn lemma_marks_alike(a: Seq<bool>, b: Seq<bool>, count: nat)
    requires
        count <= a.len(),
        a.len() == b.len(),
        forall|i: int| 0 <= i < count ==> #[trigger] a[i] == b[i],
    ensures
        set_count(a, count) == set_count(b, count),
    decreases count,
{
    if count > 0 {
        lemma_marks_alike(a, b, (count - 1) as nat);
        assert(a[count - 1] == b[count - 1]);
    }
}

/// A segment is counted as sealed with a key only where its vector file is there and the head of
/// the file, its first ten bytes or the whole of a shorter file, names that key.
pub proof fn counted_segment_names_the_key<K: Fn(&Vec<u8>) -> Option<u32>>(
    files: FileMap,
    key_of: K,
    segment_id: u32,
    key: u32,
    reliable: bool,
)
    requires
        marks_key(files, key_of, segment_id, key, reliable, true),
    ensures
        ({
            let path = segment_path(SegmentFile::Vsec, segment_id);
            files.dom().contains(path) && exists|head: Vec<u8>|
                #![trigger key_of.ensures((&head,), Some(key))]
                key_of.ensures((&head,), Some(key)) && head@.len() <= 10 && (head@.len() == 10
                    || head@.len() == files[path].len()) && head@ =~= files[path].take(
                    head@.len() as int,
                )
        }),
{
    let path = segment_path(SegmentFile::Vsec, segment_id);
    let (head, found) = choose|head: Vec<u8>, found: Option<u32>|
        #![trigger key_of.ensures((&head,), found)]
        head@ == prefix_of(files[path], ENVELOPE_HEAD as nat) && key_of.ensures((&head,), found)
            && true == (found == Some(key));
    assert(key_of.ensures((&head,), Some(key)));
}

/// A graph passes its check only where its file could be opened, has the checksum that the manifest
/// states, and its layout was found sound; a failure to open and a wrong checksum are reported.
pub proof fn only_sound_graphs_pass<V: Fn(&ByteFile) -> Result<(), MnemeError>>(
    opened: Result<ByteFile, MnemeError>,
    entry: SegmentEntry,
    verify: V,
    result: Result<(), MnemeError>,
)
    requires
        graph_outcome(opened, entry, verify, result),
    ensures
        result is Ok ==> (opened matches Ok(file) && crc32_of(file.bytes()) == entry.hidx_crc
            && verify.ensures((&file,), result)),
        opened matches Err(error) ==> result == Err::<(), MnemeError>(error),
        opened matches Ok(file) ==> (crc32_of(file.bytes()) != entry.hidx_crc ==> result == Err::<
            (),
            MnemeError,
        >(
            MnemeError::Corrupted {
                segment: Some(entry.segment_id),
                reason: Fault::HidxCrcMismatch,
            },
        )),
        opened matches Ok(file) ==> (crc32_of(file.bytes()) == entry.hidx_crc ==> verify.ensures(
            (&file,),
            result,
        )),
{
}

} // verus!
