//! Where records go: behind the last one while the segment has room for them, else at the
//! end of the next segment.

use vstd::prelude::*;

use crate::io::{clean_end, file_of, lemma_clean_bounds};
use crate::record::{record_of, RecordView, HEADER_SIZE};
use crate::store::{flags_of, laid_with};
use crate::transaction::PendingRecord;
use crate::version::RecordTag;

verus! {

/// Where a file goes on once it is opened for append.
#[verifier::opaque]
pub open spec fn open_end(f: Seq<u8>) -> nat {
    if f.len() == 0 {
        4
    } else {
        clean_end(f)
    }
}

/// The segment and the offset behind a record of `size` bytes, with the next free offset
/// at `at` before it. None where the segment is full and the segment numbers end, or the
/// next file's offsets do.
#[verifier::opaque]
pub open spec fn laid_at(
    files: Map<u64, Seq<u8>>,
    segment_size: u64,
    at: (u64, nat),
    size: nat,
) -> Option<(u64, nat)> {
    if at.1 + size <= segment_size {
        Some((at.0, at.1 + size))
    } else if at.0 == u64::MAX {
        None
    } else {
        let next = (at.0 + 1) as u64;
        let end = open_end(file_of(files, next)) + size;
        if end > u64::MAX {
            None
        } else {
            Some((next, end))
        }
    }
}

/// The segment and the offset behind records of these payload lengths, one after another.
/// None where one is longer than a record holds, or finds no place.
pub open spec fn laid_out(
    files: Map<u64, Seq<u8>>,
    segment_size: u64,
    at: (u64, nat),
    lens: Seq<nat>,
) -> Option<(u64, nat)>
    decreases lens.len(),
{
    if lens.len() == 0 {
        Some(at)
    } else {
        match laid_out(files, segment_size, at, lens.drop_last()) {
            Some(p) => if lens.last() > u32::MAX {
                None
            } else {
                laid_at(files, segment_size, p, HEADER_SIZE as nat + lens.last())
            },
            None => None,
        }
    }
}

/// The payload lengths of records.
pub open spec fn lens_of(records: Seq<PendingRecord>) -> Seq<nat> {
    Seq::new(records.len(), |i: int| records[i].payload@.len())
}

/// The record that a pending one is laid down as.
pub open spec fn view_of(rec: PendingRecord) -> RecordView {
    record_of(rec.tag, flags_of(rec.materialized_len), rec.materialized_len, rec.payload@)
}

/// The records that pending ones are laid down as.
pub open spec fn views_of(records: Seq<PendingRecord>) -> Seq<RecordView> {
    Seq::new(records.len(), |i: int| view_of(records[i]))
}

/// The payload lengths of laid down records.
pub open spec fn view_lens(rs: Seq<RecordView>) -> Seq<nat> {
    Seq::new(rs.len(), |i: int| rs[i].payload.len())
}

/// A record more in a segment, behind those that it has.
#[verifier::opaque]
pub open spec fn laid_one(
    laid: Map<u64, Seq<RecordView>>,
    seq: u64,
    v: RecordView,
) -> Map<u64, Seq<RecordView>> {
    laid.insert(seq, laid_with(laid, seq)[seq].push(v))
}

pub proof fn lemma_laid_one(laid: Map<u64, Seq<RecordView>>, seq: u64, v: RecordView)
    ensures
        laid_one(laid_with(laid, seq), seq, v) == laid_one(laid, seq, v),
{
    reveal(laid_one);
    assert(laid_one(laid_with(laid, seq), seq, v) =~= laid_one(laid, seq, v));
}

/// The records of the segments with further ones laid down, each in the segment where it
/// finds its place, behind those that the segment has.
pub open spec fn laid_down(
    laid: Map<u64, Seq<RecordView>>,
    files: Map<u64, Seq<u8>>,
    segment_size: u64,
    at: (u64, nat),
    rs: Seq<RecordView>,
) -> Map<u64, Seq<RecordView>>
    decreases rs.len(),
{
    if rs.len() == 0 {
        laid
    } else {
        let had = laid_down(laid, files, segment_size, at, rs.drop_last());
        match laid_out(files, segment_size, at, view_lens(rs)) {
            Some(p) => laid_one(had, p.0, rs.last()),
            None => had,
        }
    }
}

/// The files ahead of a segment are the same.
pub open spec fn ahead_same(a: Map<u64, Seq<u8>>, b: Map<u64, Seq<u8>>, seq: u64) -> bool {
    forall|s: u64| s > seq ==> #[trigger] file_of(a, s) == file_of(b, s)
}

/// Laying down records, and then others, is laying down all of them.
pub proof fn lemma_laid_join(
    laid: Map<u64, Seq<RecordView>>,
    files: Map<u64, Seq<u8>>,
    later: Map<u64, Seq<u8>>,
    segment_size: u64,
    at: (u64, nat),
    mid: (u64, nat),
    rs: Seq<RecordView>,
    qs: Seq<RecordView>,
)
    requires
        laid_out(files, segment_size, at, view_lens(rs)) == Some(mid),
        ahead_same(files, later, mid.0),
    ensures
        laid_out(files, segment_size, at, view_lens(rs + qs)) == laid_out(
            later,
            segment_size,
            mid,
            view_lens(qs),
        ),
        laid_out(later, segment_size, mid, view_lens(qs)) is Some ==> laid_down(
            laid,
            files,
            segment_size,
            at,
            rs + qs,
        ) == laid_down(
            laid_down(laid, files, segment_size, at, rs),
            later,
            segment_size,
            mid,
            qs,
        ),
        laid_out(later, segment_size, mid, view_lens(qs)) matches Some(p) ==> p.0 >= mid.0,
    decreases qs.len(),
{
    if qs.len() == 0 {
        assert(rs + qs =~= rs);
    } else {
        let had = qs.drop_last();
        lemma_laid_join(laid, files, later, segment_size, at, mid, rs, had);
        let all = rs + qs;
        assert(all.drop_last() =~= rs + had);
        assert(all.last() == qs.last());
        assert(view_lens(all).drop_last() =~= view_lens(rs + had));
        assert(view_lens(qs).drop_last() =~= view_lens(had));
        assert(view_lens(all).last() == view_lens(qs).last());
        reveal(laid_at);
        if let Some(p) = laid_out(later, segment_size, mid, view_lens(had)) {
            if p.0 < u64::MAX {
                let next = (p.0 + 1) as u64;
                assert(file_of(files, next) == file_of(later, next));
            }
        }
    }
}

/// Records find a place only where the first of them do.
pub proof fn lemma_laid_prefix(
    files: Map<u64, Seq<u8>>,
    segment_size: u64,
    at: (u64, nat),
    lens: Seq<nat>,
    n: int,
)
    requires
        0 <= n <= lens.len(),
        laid_out(files, segment_size, at, lens) is Some,
    ensures
        laid_out(files, segment_size, at, lens.take(n)) is Some,
    decreases lens.len(),
{
    if n == lens.len() {
        assert(lens.take(n) =~= lens);
    } else {
        lemma_laid_prefix(files, segment_size, at, lens.drop_last(), n);
        assert(lens.drop_last().take(n) =~= lens.take(n));
    }
}

/// Records that find no place are too long, or the segment numbers or the offsets of a
/// file ahead end.
pub proof fn lemma_crowded(
    files: Map<u64, Seq<u8>>,
    segment_size: u64,
    at: (u64, nat),
    lens: Seq<nat>,
)
    ensures
        match laid_out(files, segment_size, at, lens) {
            Some(p) => at.0 <= p.0 <= at.0 + lens.len(),
            None => {
                ||| exists|i: int| 0 <= i < lens.len() && #[trigger] lens[i] > u32::MAX
                ||| at.0 + lens.len() > u64::MAX
                ||| exists|s: u64|
                    s > at.0 && (#[trigger] file_of(files, s)).len() + HEADER_SIZE + u32::MAX
                        > u64::MAX
            },
        },
    decreases lens.len(),
{
    if lens.len() > 0 {
        let had = lens.drop_last();
        lemma_crowded(files, segment_size, at, had);
        match laid_out(files, segment_size, at, had) {
            Some(p) => {
                assert(lens[lens.len() - 1] == lens.last());
                reveal(open_end);
                reveal(laid_at);
                if p.0 < u64::MAX {
                    let f = file_of(files, (p.0 + 1) as u64);
                    if f.len() >= 4 {
                        lemma_clean_bounds(f, 4);
                    }
                }
            },
            None => {
                if exists|i: int| 0 <= i < had.len() && #[trigger] had[i] > u32::MAX {
                    let i = choose|i: int| 0 <= i < had.len() && #[trigger] had[i] > u32::MAX;
                    assert(lens[i] == had[i]);
                }
            },
        }
    }
}

// ---------------------------------------------------------------------------
// What lies in the segments
// ---------------------------------------------------------------------------

/// The record lies in some segment.
#[verifier::opaque]
pub open spec fn on_record(laid: Map<u64, Seq<RecordView>>, v: RecordView) -> bool {
    exists|s: u64, j: int|
        #![trigger laid[s][j]]
        laid.contains_key(s) && 0 <= j < laid[s].len() && laid[s][j] == v
}

proof fn lemma_one_on_record(laid: Map<u64, Seq<RecordView>>, seq: u64, v: RecordView)
    ensures
        forall|x: RecordView| #[trigger]
            on_record(laid_one(laid, seq, v), x) <==> on_record(laid, x) || x == v,
{
    reveal(on_record);
    reveal(laid_one);
    let now = laid_one(laid, seq, v);
    let had = laid_with(laid, seq)[seq];
    assert(now[seq] == had.push(v));
    assert forall|x: RecordView| #[trigger] on_record(now, x) <==> on_record(laid, x) || x == v by {
        if on_record(laid, x) {
            let (s, j) = choose|s: u64, j: int|
                #![trigger laid[s][j]]
                laid.contains_key(s) && 0 <= j < laid[s].len() && laid[s][j] == x;
            assert(now.contains_key(s) && now[s][j] == x);
        }
        if x == v {
            assert(now[seq][had.len() as int] == v);
        }
        if on_record(now, x) {
            let (s, j) = choose|s: u64, j: int|
                #![trigger now[s][j]]
                now.contains_key(s) && 0 <= j < now[s].len() && now[s][j] == x;
            if s != seq {
                assert(laid[s][j] == x);
            } else if j < had.len() {
                assert(laid.contains_key(seq));
                assert(laid[seq][j] == x);
            }
        }
    }
}

/// What lies in the segments after records are laid down: what did, and these.
pub proof fn lemma_down_on_record(
    laid: Map<u64, Seq<RecordView>>,
    files: Map<u64, Seq<u8>>,
    segment_size: u64,
    at: (u64, nat),
    rs: Seq<RecordView>,
)
    requires
        laid_out(files, segment_size, at, view_lens(rs)) is Some,
    ensures
        forall|x: RecordView| #[trigger]
            on_record(laid_down(laid, files, segment_size, at, rs), x) <==> on_record(laid, x)
                || rs.contains(x),
    decreases rs.len(),
{
    if rs.len() > 0 {
        let had = rs.drop_last();
        assert(view_lens(rs).drop_last() =~= view_lens(had));
        lemma_down_on_record(laid, files, segment_size, at, had);
        let p = laid_out(files, segment_size, at, view_lens(rs))->0;
        let mid = laid_down(laid, files, segment_size, at, had);
        lemma_one_on_record(mid, p.0, rs.last());
        assert forall|x: RecordView| #[trigger] rs.contains(x) <==> had.contains(x) || x
            == rs.last() by {
            if had.contains(x) {
                let i = choose|i: int| 0 <= i < had.len() && had[i] == x;
                assert(rs[i] == x);
            }
            assert(rs[rs.len() - 1] == rs.last());
            if rs.contains(x) && x != rs.last() {
                let i = choose|i: int| 0 <= i < rs.len() && rs[i] == x;
                assert(had[i] == x);
            }
        }
    }
}

/// Every record of the log that lies in the segments lay there before.
#[verifier::opaque]
pub open spec fn keeps_log(
    before: Map<u64, Seq<RecordView>>,
    after: Map<u64, Seq<RecordView>>,
) -> bool {
    forall|v: RecordView| #[trigger]
        on_record(after, v) && v.tag == RecordTag::MutationLog ==> on_record(before, v)
}

/// No record of the log is added, one step after another.
pub proof fn lemma_keeps_log(
    a: Map<u64, Seq<RecordView>>,
    b: Map<u64, Seq<RecordView>>,
    c: Map<u64, Seq<RecordView>>,
)
    ensures
        keeps_log(a, a),
        keeps_log(a, b) && keeps_log(b, c) ==> keeps_log(a, c),
{
    reveal(keeps_log);
}

/// Records that are not of the log leave the log as it is.
pub proof fn lemma_down_keeps_log(
    laid: Map<u64, Seq<RecordView>>,
    files: Map<u64, Seq<u8>>,
    segment_size: u64,
    at: (u64, nat),
    rs: Seq<RecordView>,
)
    requires
        laid_out(files, segment_size, at, view_lens(rs)) is Some,
        forall|i: int| 0 <= i < rs.len() ==> (#[trigger] rs[i]).tag != RecordTag::MutationLog,
    ensures
        keeps_log(laid, laid_down(laid, files, segment_size, at, rs)),
{
    reveal(keeps_log);
    lemma_down_on_record(laid, files, segment_size, at, rs);
}

} // verus!
