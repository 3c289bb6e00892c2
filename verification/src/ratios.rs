//! Live and total bytes per segment, for the choice of segments to collect.

use vstd::prelude::*;

use crate::object::{Location, ObjectIndex};
use crate::physical::{IdSet, PhysicalReport, SegmentPhysical};
use crate::sorted::has_key;
use crate::totals::capped_sum;

verus! {

/// A segment with its live bytes and all its bytes.
pub type SegmentRatio = (u64, (u64, u64));

/// The size of a record, header included, as far as it can be counted.
pub open spec fn counted_size(loc: Location) -> u64 {
    capped_sum(crate::record::HEADER_SIZE, loc.stored_len)
}

/// The indexed bytes of a segment.
pub open spec fn indexed_bytes(s: Seq<(Seq<u8>, Location)>, seq: u64) -> u64
    decreases s.len(),
{
    if s.len() == 0 {
        0
    } else {
        let before = indexed_bytes(s.drop_last(), seq);
        if s.last().1.segment_seq == seq {
            capped_sum(before, counted_size(s.last().1))
        } else {
            before
        }
    }
}

/// The live indexed bytes of a segment.
pub open spec fn live_indexed_bytes(s: Seq<(Seq<u8>, Location)>, live: IdSet, seq: u64) -> u64
    decreases s.len(),
{
    if s.len() == 0 {
        0
    } else {
        let before = live_indexed_bytes(s.drop_last(), live, seq);
        if s.last().1.segment_seq == seq && has_key(live@, s.last().0) {
            capped_sum(before, counted_size(s.last().1))
        } else {
            before
        }
    }
}

fn capped(a: u64, b: u64) -> (r: u64)
    ensures
        r == capped_sum(a, b),
{
    if b > u64::MAX - a {
        u64::MAX
    } else {
        a + b
    }
}

/// The live and the indexed bytes of a segment, as the index sees them: each id counts
/// at its one place, so that records which the index does not see are left out.
pub fn live_ratio(index: &ObjectIndex, live: &IdSet, seq: u64) -> (r: (u64, u64))
    requires
        index.wf(),
        live.wf(),
    ensures
        r.0 == live_indexed_bytes(index@, *live, seq),
        r.1 == indexed_bytes(index@, seq),
{
    let mut lived: u64 = 0;
    let mut total: u64 = 0;
    let ghost s = index@;
    let mut i: usize = 0;
    assert(s.take(0) =~= Seq::empty());
    while i < index.len()
        invariant
            i <= s.len(),
            s == index@,
            index.wf(),
            live.wf(),
            lived == live_indexed_bytes(s.take(i as int), *live, seq),
            total == indexed_bytes(s.take(i as int), seq),
        decreases s.len() - i,
    {
        let (id, loc) = index.entry(i);
        proof {
            let t = s.take(i + 1);
            assert(t.drop_last() =~= s.take(i as int));
            assert(t.last() == s[i as int]);
        }
        if loc.segment_seq == seq {
            let size: u64 = capped(crate::record::HEADER_SIZE, loc.stored_len);
            total = capped(total, size);
            if live.contains(id) {
                lived = capped(lived, size);
            }
        }
        i += 1;
    }
    assert(s.take(i as int) =~= s);
    (lived, total)
}

/// The live and the indexed bytes of each of the segments.
pub fn live_ratios(index: &ObjectIndex, live: &IdSet, seqs: &Vec<u64>) -> (r: Vec<SegmentRatio>)
    requires
        index.wf(),
        live.wf(),
    ensures
        r@.len() == seqs@.len(),
        forall|i: int|
            0 <= i < r@.len() ==> #[trigger] r@[i] == (
                seqs@[i],
                (
                    live_indexed_bytes(index@, *live, seqs@[i]),
                    indexed_bytes(index@, seqs@[i]),
                ),
            ),
{
    let mut out: Vec<SegmentRatio> = Vec::new();
    let mut i: usize = 0;
    while i < seqs.len()
        invariant
            i <= seqs@.len(),
            index.wf(),
            live.wf(),
            out@.len() == i,
            forall|j: int|
                0 <= j < i ==> #[trigger] out@[j] == (
                    seqs@[j],
                    (
                        live_indexed_bytes(index@, *live, seqs@[j]),
                        indexed_bytes(index@, seqs@[j]),
                    ),
                ),
        decreases seqs@.len() - i,
    {
        let seq: u64 = seqs[i];
        let terms = live_ratio(index, live, seq);
        out.push((seq, terms));
        i += 1;
    }
    out
}

/// The live bytes and all the record bytes of each segment of a report.
pub fn physical_ratios(report: &PhysicalReport) -> (r: Vec<SegmentRatio>)
    ensures
        r@.len() == report.segments@.len(),
        forall|i: int| 0 <= i < r@.len() ==> #[trigger] r@[i] == ratio_of(report.segments@[i]),
{
    let mut out: Vec<SegmentRatio> = Vec::new();
    let mut i: usize = 0;
    while i < report.segments.len()
        invariant
            i <= report.segments@.len(),
            out@.len() == i,
            forall|j: int| 0 <= j < i ==> #[trigger] out@[j] == ratio_of(report.segments@[j]),
        decreases report.segments@.len() - i,
    {
        let terms = report.segments[i].physical_live_terms();
        out.push((report.segments[i].seq, terms));
        i += 1;
    }
    out
}

/// The live bytes and all the record bytes of a segment.
pub open spec fn ratio_of(s: SegmentPhysical) -> SegmentRatio {
    (
        s.seq,
        (
            s.live_bytes,
            capped_sum(
                capped_sum(
                    capped_sum(s.live_bytes, s.dead_indexed_bytes),
                    s.index_hidden_bytes,
                ),
                s.unindexed_bytes,
            ),
        ),
    )
}

/// No more is live than is there.
pub proof fn live_is_part_of_indexed(s: Seq<(Seq<u8>, Location)>, live: IdSet, seq: u64)
    ensures
        live_indexed_bytes(s, live, seq) <= indexed_bytes(s, seq),
    decreases s.len(),
{
    if s.len() > 0 {
        live_is_part_of_indexed(s.drop_last(), live, seq);
    }
}

} // verus!
