//! Physical reconciliation: every byte of every segment file classified into
//! mutually exclusive categories.

use vstd::prelude::*;

use crate::error::SegmentError;
use crate::map::SortedMap;
use crate::object::{Location, ObjectIndex};
use crate::record::{all_zero, record_size, RecordView};
use crate::segment::{record_views, scan_from, scan_of, scan_segment, ScanFault, ScanRecord};
use crate::sorted::{has_key, lookup};

verus! {

/// A set of content ids.
pub type IdSet = SortedMap<()>;

/// What a scanned record is to the index and the live set.
pub enum RecordClass {
    /// Indexed here, reachable.
    Live,
    /// Indexed here, unreachable.
    DeadIndexed,
    /// Indexed elsewhere: shadowed by another copy.
    IndexHidden,
    /// Not indexed at all.
    Unindexed,
}

/// Per-segment physical reconciliation. All byte fields are physical bytes on
/// disk; record totals include the header.
#[derive(Debug, Clone, Copy, PartialEq, Eq, Structural)]
pub struct SegmentPhysical {
    /// Segment sequence number.
    pub seq: u64,
    /// Physical file length.
    pub file_bytes: u64,
    /// Records whose index location is this physical record.
    pub canonical_records: u64,
    /// Canonical records in the live set.
    pub live_bytes: u64,
    /// Canonical records not in the live set; reclaimable.
    pub dead_indexed_bytes: u64,
    /// Valid records shadowed by another location; reclaimable.
    pub index_hidden_bytes: u64,
    /// Valid records with no index entry; reclaimable.
    pub unindexed_bytes: u64,
    /// Tail bytes that fail envelope validation.
    pub torn_bytes: u64,
    /// All-zero tail bytes.
    pub zero_padding_bytes: u64,
    /// Neither record nor tail: the segment magic.
    pub format_overhead_bytes: u64,
}

/// The sum of the exclusive categories.
pub open spec fn explained(s: SegmentPhysical) -> nat {
    (s.live_bytes + s.dead_indexed_bytes + s.index_hidden_bytes + s.unindexed_bytes + s.torn_bytes
        + s.zero_padding_bytes + s.format_overhead_bytes) as nat
}

/// Saturating at the machine word.
pub open spec fn saturated(n: nat) -> u64 {
    if n > u64::MAX {
        u64::MAX
    } else {
        n as u64
    }
}

impl SegmentPhysical {
    /// Reclaimable physical bytes: dead canonical, index-hidden, unindexed, torn
    /// and padding.
    pub fn reclaimable_bytes(&self) -> (r: u64)
        ensures
            r == saturated(
                (self.dead_indexed_bytes + self.index_hidden_bytes + self.unindexed_bytes
                    + self.torn_bytes + self.zero_padding_bytes) as nat,
            ),
    {
        self.dead_indexed_bytes.saturating_add(self.index_hidden_bytes).saturating_add(
            self.unindexed_bytes,
        ).saturating_add(self.torn_bytes).saturating_add(self.zero_padding_bytes)
    }

    /// Live bytes and all record bytes: the two terms of the physical live
    /// ratio.
    pub fn physical_live_terms(&self) -> (r: (u64, u64))
        ensures
            r.0 == self.live_bytes,
            r.1 == saturated(
                (self.live_bytes + self.dead_indexed_bytes + self.index_hidden_bytes
                    + self.unindexed_bytes) as nat,
            ),
    {
        (
            self.live_bytes,
            self.live_bytes.saturating_add(self.dead_indexed_bytes).saturating_add(
                self.index_hidden_bytes,
            ).saturating_add(self.unindexed_bytes),
        )
    }

    /// Live bytes and canonical record bytes: the two terms of the index-based
    /// live ratio.
    pub fn index_live_terms(&self) -> (r: (u64, u64))
        ensures
            r.0 == self.live_bytes,
            r.1 == saturated((self.live_bytes + self.dead_indexed_bytes) as nat),
    {
        (self.live_bytes, self.live_bytes.saturating_add(self.dead_indexed_bytes))
    }
}

/// How a record at its offset is classified.
pub open spec fn class_of(
    rec: (RecordView, nat),
    seq: u64,
    live: Seq<(Seq<u8>, ())>,
    index: Seq<(Seq<u8>, Location)>,
) -> RecordClass {
    match lookup(index, rec.0.content_id) {
        Some(loc) => if loc.segment_seq == seq && loc.offset == rec.1 {
            if has_key(live, rec.0.content_id) {
                RecordClass::Live
            } else {
                RecordClass::DeadIndexed
            }
        } else {
            RecordClass::IndexHidden
        },
        None => RecordClass::Unindexed,
    }
}

/// Classify one scanned record against the index and the live set.
pub fn classify(rec: &ScanRecord, seq: u64, live: &IdSet, index: &ObjectIndex) -> (r: RecordClass)
    requires
        live.wf(),
        index.wf(),
    ensures
        r == class_of(rec@, seq, live@, index@),
{
    match index.get(&rec.content_id) {
        Some(loc) => if loc.segment_seq == seq && loc.offset == rec.offset {
            if live.contains(rec.content_id.as_slice()) {
                RecordClass::Live
            } else {
                RecordClass::DeadIndexed
            }
        } else {
            RecordClass::IndexHidden
        },
        None => RecordClass::Unindexed,
    }
}

/// Total size of the records of one class.
pub open spec fn class_bytes(
    rs: Seq<(RecordView, nat)>,
    class: RecordClass,
    seq: u64,
    live: Seq<(Seq<u8>, ())>,
    index: Seq<(Seq<u8>, Location)>,
) -> nat
    decreases rs.len(),
{
    if rs.len() == 0 {
        0
    } else {
        class_bytes(rs.drop_last(), class, seq, live, index) + if class_of(
            rs.last(),
            seq,
            live,
            index,
        ) == class {
            record_size(rs.last().0)
        } else {
            0
        }
    }
}

/// Number of records indexed at their own place.
pub open spec fn canonical_count(
    rs: Seq<(RecordView, nat)>,
    seq: u64,
    live: Seq<(Seq<u8>, ())>,
    index: Seq<(Seq<u8>, Location)>,
) -> nat
    decreases rs.len(),
{
    if rs.len() == 0 {
        0
    } else {
        let c = class_of(rs.last(), seq, live, index);
        canonical_count(rs.drop_last(), seq, live, index) + if c is Live || c is DeadIndexed {
            1nat
        } else {
            0
        }
    }
}

/// Total size of a run of records.
pub open spec fn total_bytes(rs: Seq<(RecordView, nat)>) -> nat
    decreases rs.len(),
{
    if rs.len() == 0 {
        0
    } else {
        total_bytes(rs.drop_last()) + record_size(rs.last().0)
    }
}

/// Every record falls into exactly one class.
pub proof fn classes_partition(
    rs: Seq<(RecordView, nat)>,
    seq: u64,
    live: Seq<(Seq<u8>, ())>,
    index: Seq<(Seq<u8>, Location)>,
)
    ensures
        class_bytes(rs, RecordClass::Live, seq, live, index) + class_bytes(
            rs,
            RecordClass::DeadIndexed,
            seq,
            live,
            index,
        ) + class_bytes(rs, RecordClass::IndexHidden, seq, live, index) + class_bytes(
            rs,
            RecordClass::Unindexed,
            seq,
            live,
            index,
        ) == total_bytes(rs),
    decreases rs.len(),
{
    if rs.len() > 0 {
        classes_partition(rs.drop_last(), seq, live, index);
    }
}

/// The records of a scan fill the segment from its start to where it ends.
proof fn lemma_scan_fills(bytes: Seq<u8>, at: nat, found: Seq<(RecordView, nat)>, limit: nat)
    requires
        scan_from(bytes, at, found, limit) is Ok,
    ensures
        total_bytes(scan_from(bytes, at, found, limit)->Ok_0.0) + at == total_bytes(found)
            + scan_from(bytes, at, found, limit)->Ok_0.1,
    decreases bytes.len() - at,
{
    if at < bytes.len() {
        match crate::record::parse_record(bytes.skip(at as int)) {
            Ok(Some(v)) => {
                let s = bytes.skip(at as int);
                crate::record::lemma_parse_local(s, s.len());
                let more = found.push((v, at));
                assert(more.drop_last() =~= found);
                lemma_scan_fills(bytes, at + record_size(v), more, limit);
            },
            _ => {},
        }
    }
}

proof fn lemma_class_le(
    rs: Seq<(RecordView, nat)>,
    n: int,
    seq: u64,
    live: Seq<(Seq<u8>, ())>,
    index: Seq<(Seq<u8>, Location)>,
)
    requires
        0 <= n <= rs.len(),
    ensures
        total_bytes(rs.take(n)) <= total_bytes(rs),
        canonical_count(rs.take(n), seq, live, index) <= n,
    decreases rs.len() - n, n,
{
    if n < rs.len() {
        assert(rs.take(n + 1).drop_last() =~= rs.take(n));
        lemma_class_le(rs, n + 1, seq, live, index);
    } else {
        assert(rs.take(n) =~= rs);
    }
    lemma_count_le(rs.take(n), seq, live, index);
}

proof fn lemma_count_le(
    rs: Seq<(RecordView, nat)>,
    seq: u64,
    live: Seq<(Seq<u8>, ())>,
    index: Seq<(Seq<u8>, Location)>,
)
    ensures
        canonical_count(rs, seq, live, index) <= rs.len(),
    decreases rs.len(),
{
    if rs.len() > 0 {
        lemma_count_le(rs.drop_last(), seq, live, index);
    }
}

/// Whether all bytes from `from` on are zero.
fn zero_tail(bytes: &[u8], from: usize) -> (r: bool)
    requires
        from <= bytes@.len(),
    ensures
        r == all_zero(bytes@.skip(from as int)),
{
    let ghost t = bytes@.skip(from as int);
    let mut i: usize = from;
    while i < bytes.len()
        invariant
            from <= i <= bytes@.len(),
            t == bytes@.skip(from as int),
            forall|j: int| 0 <= j < i - from ==> t[j] == 0,
        decreases bytes@.len() - i,
    {
        assert(t[i - from] == bytes@[i as int]);
        if bytes[i] != 0 {
            return false;
        }
        i += 1;
    }
    true
}

/// The reconciliation of one segment.
pub open spec fn reconciled(
    s: SegmentPhysical,
    bytes: Seq<u8>,
    rs: Seq<(RecordView, nat)>,
    end: nat,
    seq: u64,
    live: Seq<(Seq<u8>, ())>,
    index: Seq<(Seq<u8>, Location)>,
) -> bool {
    &&& s.seq == seq
    &&& s.file_bytes == bytes.len()
    &&& s.canonical_records == canonical_count(rs, seq, live, index)
    &&& s.live_bytes == class_bytes(rs, RecordClass::Live, seq, live, index)
    &&& s.dead_indexed_bytes == class_bytes(rs, RecordClass::DeadIndexed, seq, live, index)
    &&& s.index_hidden_bytes == class_bytes(rs, RecordClass::IndexHidden, seq, live, index)
    &&& s.unindexed_bytes == class_bytes(rs, RecordClass::Unindexed, seq, live, index)
    &&& s.torn_bytes == if all_zero(bytes.skip(end as int)) {
        0
    } else {
        bytes.len() - end
    }
    &&& s.zero_padding_bytes == if all_zero(bytes.skip(end as int)) {
        bytes.len() - end
    } else {
        0
    }
    &&& s.format_overhead_bytes == end - total_bytes(rs)
}

/// Scans one segment and classifies every byte of it.
pub fn scan_segment_classified(
    bytes: &[u8],
    seq: u64,
    limit_records: u64,
    live: &IdSet,
    index: &ObjectIndex,
) -> (r: Result<SegmentPhysical, SegmentError>)
    requires
        live.wf(),
        index.wf(),
    ensures
        match r {
            Ok(s) => {
                &&& scan_of(bytes@, limit_records as nat) is Ok
                &&& reconciled(
                    s,
                    bytes@,
                    scan_of(bytes@, limit_records as nat)->Ok_0.0,
                    scan_of(bytes@, limit_records as nat)->Ok_0.1,
                    seq,
                    live@,
                    index@,
                )
                &&& explained(s) == s.file_bytes
            },
            Err(e) => match scan_of(bytes@, limit_records as nat) {
                Err(ScanFault::Malformed) => e is Malformed,
                Err(ScanFault::Corrupt) => e is CorruptRecord,
                Ok(_) => false,
            },
        },
{
    let (records, clean_end) = match scan_segment(bytes, limit_records) {
        Ok(v) => v,
        Err(e) => return Err(e),
    };
    let ghost rs = record_views(records@);
    let file_len: u64 = bytes.len() as u64;
    proof {
        if bytes@.len() >= 4 {
            lemma_scan_fills(bytes@, 4, Seq::empty(), limit_records as nat);
        }
        assert(total_bytes(rs) <= clean_end);
    }
    let mut out = SegmentPhysical {
        seq,
        file_bytes: file_len,
        canonical_records: 0,
        live_bytes: 0,
        dead_indexed_bytes: 0,
        index_hidden_bytes: 0,
        unindexed_bytes: 0,
        torn_bytes: 0,
        zero_padding_bytes: 0,
        format_overhead_bytes: 0,
    };
    let mut valid: u64 = 0;
    let mut i: usize = 0;
    assert(rs.take(0) =~= Seq::empty());
    while i < records.len()
        invariant
            i <= records@.len(),
            rs == record_views(records@),
            live.wf(),
            index.wf(),
            total_bytes(rs) <= clean_end <= file_len,
            forall|j: int|
                0 <= j < records@.len() ==> (#[trigger] records@[j]).stored_len
                    == records@[j].payload@.len(),
            valid == total_bytes(rs.take(i as int)),
            out.seq == seq,
            out.file_bytes == file_len,
            out.canonical_records == canonical_count(rs.take(i as int), seq, live@, index@),
            out.live_bytes == class_bytes(
                rs.take(i as int),
                RecordClass::Live,
                seq,
                live@,
                index@,
            ),
            out.dead_indexed_bytes == class_bytes(
                rs.take(i as int),
                RecordClass::DeadIndexed,
                seq,
                live@,
                index@,
            ),
            out.index_hidden_bytes == class_bytes(
                rs.take(i as int),
                RecordClass::IndexHidden,
                seq,
                live@,
                index@,
            ),
            out.unindexed_bytes == class_bytes(
                rs.take(i as int),
                RecordClass::Unindexed,
                seq,
                live@,
                index@,
            ),
            out.torn_bytes == 0,
            out.zero_padding_bytes == 0,
            out.format_overhead_bytes == 0,
        decreases records@.len() - i,
    {
        let rec = &records[i];
        let size: u64 = rec.total_size();
        proof {
            assert(rs.take(i + 1).drop_last() =~= rs.take(i as int));
            assert(rs.take(i + 1).last() == rec@);
            lemma_class_le(rs, i + 1, seq, live@, index@);
            classes_partition(rs.take(i + 1), seq, live@, index@);
            classes_partition(rs.take(i as int), seq, live@, index@);
        }
        valid = valid + size;
        match classify(rec, seq, live, index) {
            RecordClass::Live => {
                out.canonical_records = out.canonical_records + 1;
                out.live_bytes = out.live_bytes + size;
            },
            RecordClass::DeadIndexed => {
                out.canonical_records = out.canonical_records + 1;
                out.dead_indexed_bytes = out.dead_indexed_bytes + size;
            },
            RecordClass::IndexHidden => {
                out.index_hidden_bytes = out.index_hidden_bytes + size;
            },
            RecordClass::Unindexed => {
                out.unindexed_bytes = out.unindexed_bytes + size;
            },
        }
        i += 1;
    }
    proof {
        assert(rs.take(i as int) =~= rs);
        classes_partition(rs, seq, live@, index@);
    }
    let tail: u64 = file_len - clean_end;
    if zero_tail(bytes, clean_end as usize) {
        out.zero_padding_bytes = tail;
    } else {
        out.torn_bytes = tail;
    }
    out.format_overhead_bytes = file_len - tail - valid;
    Ok(out)
}

/// Whole-store reconciliation: the per-segment table plus the summed
/// categories.
pub struct PhysicalReport {
    /// Per-segment table.
    pub segments: Vec<SegmentPhysical>,
    pub file_bytes: u64,
    pub live_bytes: u64,
    pub dead_indexed_bytes: u64,
    pub index_hidden_bytes: u64,
    pub unindexed_bytes: u64,
    pub torn_bytes: u64,
    pub zero_padding_bytes: u64,
    pub format_overhead_bytes: u64,
}

/// The sum of one field over the segments.
pub open spec fn sum_by(s: Seq<SegmentPhysical>, f: spec_fn(SegmentPhysical) -> u64) -> nat
    decreases s.len(),
{
    if s.len() == 0 {
        0
    } else {
        sum_by(s.drop_last(), f) + f(s.last()) as nat
    }
}

/// The report's totals are the saturated sums of its table.
pub open spec fn totalled(r: PhysicalReport) -> bool {
    &&& r.file_bytes == saturated(sum_by(r.segments@, |s: SegmentPhysical| s.file_bytes))
    &&& r.live_bytes == saturated(sum_by(r.segments@, |s: SegmentPhysical| s.live_bytes))
    &&& r.dead_indexed_bytes == saturated(
        sum_by(r.segments@, |s: SegmentPhysical| s.dead_indexed_bytes),
    )
    &&& r.index_hidden_bytes == saturated(
        sum_by(r.segments@, |s: SegmentPhysical| s.index_hidden_bytes),
    )
    &&& r.unindexed_bytes == saturated(sum_by(r.segments@, |s: SegmentPhysical| s.unindexed_bytes))
    &&& r.torn_bytes == saturated(sum_by(r.segments@, |s: SegmentPhysical| s.torn_bytes))
    &&& r.zero_padding_bytes == saturated(
        sum_by(r.segments@, |s: SegmentPhysical| s.zero_padding_bytes),
    )
    &&& r.format_overhead_bytes == saturated(
        sum_by(r.segments@, |s: SegmentPhysical| s.format_overhead_bytes),
    )
}

/// Where every segment is explained, the sums of the categories explain the sum
/// of the files.
proof fn lemma_sums(s: Seq<SegmentPhysical>)
    requires
        forall|i: int| 0 <= i < s.len() ==> explained(#[trigger] s[i]) == s[i].file_bytes,
    ensures
        sum_by(s, |s: SegmentPhysical| s.file_bytes) == sum_by(
            s,
            |s: SegmentPhysical| s.live_bytes,
        ) + sum_by(s, |s: SegmentPhysical| s.dead_indexed_bytes) + sum_by(
            s,
            |s: SegmentPhysical| s.index_hidden_bytes,
        ) + sum_by(s, |s: SegmentPhysical| s.unindexed_bytes) + sum_by(
            s,
            |s: SegmentPhysical| s.torn_bytes,
        ) + sum_by(s, |s: SegmentPhysical| s.zero_padding_bytes) + sum_by(
            s,
            |s: SegmentPhysical| s.format_overhead_bytes,
        ),
    decreases s.len(),
{
    if s.len() > 0 {
        let p = s.drop_last();
        assert forall|i: int| 0 <= i < p.len() implies explained(#[trigger] p[i])
            == p[i].file_bytes by {
            assert(p[i] == s[i]);
        }
        lemma_sums(p);
        assert(explained(s[s.len() - 1]) == s[s.len() - 1].file_bytes);
    }
}

impl PhysicalReport {
    /// An empty report.
    pub fn new() -> (r: PhysicalReport)
        ensures
            r.segments@ == Seq::<SegmentPhysical>::empty(),
            totalled(r),
    {
        PhysicalReport {
            segments: Vec::new(),
            file_bytes: 0,
            live_bytes: 0,
            dead_indexed_bytes: 0,
            index_hidden_bytes: 0,
            unindexed_bytes: 0,
            torn_bytes: 0,
            zero_padding_bytes: 0,
            format_overhead_bytes: 0,
        }
    }

    /// Add one segment to the report.
    pub fn add_segment(&mut self, seg: SegmentPhysical)
        requires
            totalled(*old(self)),
        ensures
            totalled(*final(self)),
            final(self).segments@ == old(self).segments@.push(seg),
    {
        let ghost before = self.segments@;
        self.file_bytes = self.file_bytes.saturating_add(seg.file_bytes);
        self.live_bytes = self.live_bytes.saturating_add(seg.live_bytes);
        self.dead_indexed_bytes = self.dead_indexed_bytes.saturating_add(seg.dead_indexed_bytes);
        self.index_hidden_bytes = self.index_hidden_bytes.saturating_add(seg.index_hidden_bytes);
        self.unindexed_bytes = self.unindexed_bytes.saturating_add(seg.unindexed_bytes);
        self.torn_bytes = self.torn_bytes.saturating_add(seg.torn_bytes);
        self.zero_padding_bytes = self.zero_padding_bytes.saturating_add(seg.zero_padding_bytes);
        self.format_overhead_bytes = self.format_overhead_bytes.saturating_add(
            seg.format_overhead_bytes,
        );
        self.segments.push(seg);
        assert(self.segments@.drop_last() =~= before);
    }

    /// The index's accounting of the same store: live and dead canonical bytes.
    pub fn index_accounted_bytes(&self) -> (r: u64)
        ensures
            r == saturated((self.live_bytes + self.dead_indexed_bytes) as nat),
    {
        self.live_bytes.saturating_add(self.dead_indexed_bytes)
    }

    /// Physical file bytes not explained by any category. Zero for a well-formed
    /// store.
    pub fn unexplained(&self) -> (r: u64)
        ensures
            r as int == {
                let sum = saturated(
                    (self.live_bytes + self.dead_indexed_bytes + self.index_hidden_bytes
                        + self.unindexed_bytes + self.torn_bytes + self.zero_padding_bytes
                        + self.format_overhead_bytes) as nat,
                );
                if self.file_bytes > sum {
                    self.file_bytes - sum
                } else {
                    0
                }
            },
    {
        self.file_bytes.saturating_sub(
            self.live_bytes.saturating_add(self.dead_indexed_bytes).saturating_add(
                self.index_hidden_bytes,
            ).saturating_add(self.unindexed_bytes).saturating_add(self.torn_bytes).saturating_add(
                self.zero_padding_bytes,
            ).saturating_add(self.format_overhead_bytes),
        )
    }
}

/// A report over reconciled segments leaves nothing unexplained.
pub proof fn census_is_exact(r: PhysicalReport)
    requires
        totalled(r),
        forall|i: int|
            0 <= i < r.segments@.len() ==> explained(#[trigger] r.segments@[i])
                == r.segments@[i].file_bytes,
    ensures
        ({
            let sum = r.live_bytes + r.dead_indexed_bytes + r.index_hidden_bytes
                + r.unindexed_bytes + r.torn_bytes + r.zero_padding_bytes
                + r.format_overhead_bytes;
            &&& r.file_bytes <= sum
            &&& sum_by(r.segments@, |s: SegmentPhysical| s.file_bytes) <= u64::MAX ==> r.file_bytes
                == sum
        }),
{
    lemma_sums(r.segments@);
}

/// The classification of one segment file holds of its bytes.
pub open spec fn accounted(
    s: SegmentPhysical,
    seq: u64,
    bytes: Seq<u8>,
    limit: nat,
    live: Seq<(Seq<u8>, ())>,
    index: Seq<(Seq<u8>, Location)>,
) -> bool {
    &&& scan_of(bytes, limit) is Ok
    &&& reconciled(s, bytes, scan_of(bytes, limit)->Ok_0.0, scan_of(bytes, limit)->Ok_0.1, seq, live, index)
    &&& explained(s) == s.file_bytes
}

/// Scan every segment and reconcile the physical bytes. `segments` holds
/// sequence numbers and file contents in sequence order.
pub fn scan_physical(
    segments: &Vec<(u64, Vec<u8>)>,
    limit_records: u64,
    live: &IdSet,
    index: &ObjectIndex,
) -> (r: Result<PhysicalReport, SegmentError>)
    requires
        live.wf(),
        index.wf(),
    ensures
        match r {
            Ok(report) => {
                &&& totalled(report)
                &&& report.segments@.len() == segments@.len()
                &&& forall|i: int|
                    0 <= i < segments@.len() ==> accounted(
                        #[trigger] report.segments@[i],
                        segments@[i].0,
                        segments@[i].1@,
                        limit_records as nat,
                        live@,
                        index@,
                    )
            },
            Err(_) => exists|i: int|
                0 <= i < segments@.len() && scan_of(
                    (#[trigger] segments@[i]).1@,
                    limit_records as nat,
                ) is Err,
        },
{
    let mut report = PhysicalReport::new();
    let mut i: usize = 0;
    while i < segments.len()
        invariant
            i <= segments@.len(),
            live.wf(),
            index.wf(),
            totalled(report),
            report.segments@.len() == i,
            forall|j: int|
                0 <= j < i ==> accounted(
                    #[trigger] report.segments@[j],
                    segments@[j].0,
                    segments@[j].1@,
                    limit_records as nat,
                    live@,
                    index@,
                ),
        decreases segments@.len() - i,
    {
        let seq: u64 = segments[i].0;
        match scan_segment_classified(&segments[i].1, seq, limit_records, live, index) {
            Ok(seg) => {
                let ghost had = report.segments@;
                report.add_segment(seg);
                assert(forall|j: int| 0 <= j < i ==> report.segments@[j] == had[j]);
            },
            Err(e) => {
                assert(scan_of(segments@[i as int].1@, limit_records as nat) is Err);
                return Err(e);
            },
        }
        i += 1;
    }
    Ok(report)
}

} // verus!
