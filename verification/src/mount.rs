//! Creating and opening a store: the derived index, the choice of the root, the
//! replay of the log.

use vstd::prelude::*;

use crate::bytes::copy_bytes;
use crate::chunk::digest;
use crate::codec::CodecError;
use crate::commit::{lemma_flushed_disk, slot_written};
use crate::epoch::{empty_overlay, fresh, Epoch};
use crate::error::StoreError;
use crate::fs::{lemma_fs_grows, lemma_tree_grows};
use crate::index_edit::lemma_clash_free_subset;
use crate::io::{file_of, IoBackend};

use crate::object::{Location, ObjectIndex};
use crate::record::{record_bytes, record_ok, record_round_trip, record_size, RecordView,
    HEADER_SIZE};
use crate::root::{parse_root, root_bytes, root_ok, root_round_trip, slot_reading, slot_view, Root, RootView, SuperblockPair};
use crate::segment::{magic_bytes, newest_root, newest_root_in, placed, record_views, records_bytes,
    recovered, scan_from, scan_of, scan_segment, superblock_for, ScanFault, ScanRecord,
    SegmentWriter};
use crate::sorted::{has_key, lemma_rank, lookup, rank, upsert};
use crate::store::{backed, body_of, disk_laid, file_laid, index_placed, inside_records,
    laid_id, laid_with, lemma_backed_but, own_record, torn, traced, Store, StoreConfig};
use crate::superblock::{slot_bytes, slot_of_generation, slot_ok, slot_round_trip, Superblock,
    SuperblockView};
use crate::tried::Tried;
use crate::tree::clash_free;
use crate::version::{RecordTag, SUPERBLOCK_SLOT_B_OFFSET, SUPERBLOCK_SLOT_SIZE};
use crate::transaction::{committed, index_sound, object_at};

verus! {

// ---------------------------------------------------------------------------
// The derived index
// ---------------------------------------------------------------------------

/// Where a scanned record is.
pub open spec fn place_of(seq: u64, rec: (RecordView, nat)) -> Location {
    Location {
        segment_seq: seq,
        offset: rec.1 as u64,
        stored_len: rec.0.payload.len() as u64,
        materialized_len: rec.0.materialized_len,
        tag: rec.0.tag,
    }
}

/// The index with the records of a segment: the last record of an id counts.
pub open spec fn indexed(
    ix: Seq<(Seq<u8>, Location)>,
    seq: u64,
    rs: Seq<(RecordView, nat)>,
) -> Seq<(Seq<u8>, Location)>
    decreases rs.len(),
{
    if rs.len() == 0 {
        ix
    } else {
        upsert(
            indexed(ix, seq, rs.drop_last()),
            rs.last().0.content_id,
            place_of(seq, rs.last()),
        )
    }
}

/// The index of the segments, in order; nothing where one does not scan.
pub open spec fn index_over(
    segments: Map<u64, Seq<u8>>,
    seqs: Seq<u64>,
    limit: nat,
) -> Option<Seq<(Seq<u8>, Location)>>
    decreases seqs.len(),
{
    if seqs.len() == 0 {
        Some(Seq::empty())
    } else {
        match (
            index_over(segments, seqs.drop_last(), limit),
            scan_of(file_of(segments, seqs.last()), limit),
        ) {
            (Some(ix), Ok((rs, _))) => Some(indexed(ix, seqs.last(), rs)),
            _ => None,
        }
    }
}

/// Index the records of a scanned segment.
fn index_records(index: &mut ObjectIndex, seq: u64, records: &Vec<ScanRecord>)
    requires
        old(index).wf(),
        forall|i: int|
            0 <= i < records@.len() ==> (#[trigger] records@[i]).stored_len
                == records@[i].payload@.len(),
    ensures
        final(index).wf(),
        final(index)@ == indexed(old(index)@, seq, record_views(records@)),
{
    let ghost was = index@;
    let ghost rs = record_views(records@);
    let mut i: usize = 0;
    assert(rs.take(0) =~= Seq::empty());
    while i < records.len()
        invariant
            i <= records@.len(),
            rs == record_views(records@),
            index.wf(),
            index@ == indexed(was, seq, rs.take(i as int)),
            forall|i: int|
                0 <= i < records@.len() ==> (#[trigger] records@[i]).stored_len
                    == records@[i].payload@.len(),
        decreases records@.len() - i,
    {
        let rec = &records[i];
        index.insert(
            rec.content_id,
            Location {
                segment_seq: seq,
                offset: rec.offset,
                stored_len: rec.stored_len as u64,
                materialized_len: rec.materialized_len,
                tag: rec.tag,
            },
        );
        proof {
            assert(rs.take(i + 1).drop_last() =~= rs.take(i as int));
            assert(rs.take(i + 1).last() == rec@);
        }
        i += 1;
    }
    assert(rs.take(i as int) =~= rs);
}

/// Rebuild the object index from the segments.
pub fn rebuild_index<B: IoBackend>(io: &B, seqs: &Vec<u64>, max_records_per_segment: u64) -> (r:
    Result<ObjectIndex, StoreError>)
    ensures
        match r {
            Ok(ix) => ix.wf() && index_over(
                io.segments(),
                seqs@,
                max_records_per_segment as nat,
            ) == Some(ix@) && forall|i: int|
                0 <= i < seqs@.len() ==> file_of(io.segments(), #[trigger] seqs@[i]).len()
                    <= u64::MAX,
            Err(e) => !io.reliable() || e is Segment && index_over(
                io.segments(),
                seqs@,
                max_records_per_segment as nat,
            ) is None,
        },
{
    let ghost limit = max_records_per_segment as nat;
    let mut index = ObjectIndex::new();
    let mut i: usize = 0;
    assert(seqs@.take(0) =~= Seq::empty());
    while i < seqs.len()
        invariant
            i <= seqs@.len(),
            limit == max_records_per_segment as nat,
            index.wf(),
            index_over(io.segments(), seqs@.take(i as int), limit) == Some(index@),
            forall|j: int|
                0 <= j < i ==> file_of(io.segments(), #[trigger] seqs@[j]).len() <= u64::MAX,
        decreases seqs@.len() - i,
    {
        proof {
            assert(seqs@.take(i + 1).drop_last() =~= seqs@.take(i as int));
            assert(seqs@.take(i + 1).last() == seqs@[i as int]);
        }
        let bytes = match io.read_segment_file(seqs[i]) {
            Ok(b) => b,
            Err(e) => return Err(e),
        };
        assert(bytes.len() <= u64::MAX);
        match scan_segment(&bytes, max_records_per_segment) {
            Ok((records, _)) => {
                index_records(&mut index, seqs[i], &records);
            },
            Err(e) => {
                proof {
                    lemma_over_stuck(io.segments(), seqs@, limit, i + 1);
                }
                return Err(StoreError::Segment(e));
            },
        }
        i += 1;
    }
    assert(seqs@.take(i as int) =~= seqs@);
    Ok(index)
}

proof fn lemma_over_stuck(segments: Map<u64, Seq<u8>>, seqs: Seq<u64>, limit: nat, n: int)
    requires
        0 <= n <= seqs.len(),
        index_over(segments, seqs.take(n), limit) is None,
    ensures
        index_over(segments, seqs, limit) is None,
    decreases seqs.len() - n,
{
    if n < seqs.len() {
        assert(seqs.take(n + 1).drop_last() =~= seqs.take(n));
        lemma_over_stuck(segments, seqs, limit, n + 1);
    } else {
        assert(seqs.take(n) =~= seqs);
    }
}

// ---------------------------------------------------------------------------
// What a rebuilt index is worth
// ---------------------------------------------------------------------------

/// The segments hold these records, the list names them all, and none holds more
/// than a scan reads.
pub open spec fn laid_out(
    segments: Map<u64, Seq<u8>>,
    seqs: Seq<u64>,
    limit: nat,
    laid: Map<u64, Seq<RecordView>>,
) -> bool {
    &&& disk_laid(segments, laid)
    &&& forall|s: u64| #[trigger] laid.contains_key(s) == seqs.contains(s)
    &&& forall|s: u64| #[trigger] laid.contains_key(s) ==> laid[s].len() < limit
}

/// A scan gives the records back, in spite of a torn tail.
proof fn lemma_scan_tail(
    head: Seq<u8>,
    rs: Seq<RecordView>,
    tail: Seq<u8>,
    found: Seq<(RecordView, nat)>,
    limit: nat,
)
    requires
        forall|i: int| 0 <= i < rs.len() ==> record_ok(#[trigger] rs[i]),
        found.len() + rs.len() < limit,
        torn(tail),
    ensures
        scan_from(head + records_bytes(rs) + tail, head.len(), found, limit) == Ok::<
            (Seq<(RecordView, nat)>, nat),
            ScanFault,
        >((found + placed(rs, head.len()), (head + records_bytes(rs)).len())),
    decreases rs.len(),
{
    let whole = head + records_bytes(rs) + tail;
    if rs.len() == 0 {
        assert(found + placed(rs, head.len()) =~= found);
        assert(whole.skip(head.len() as int) =~= tail);
    } else {
        let v = rs[0];
        let rest = rs.drop_first();
        record_round_trip(v, records_bytes(rest) + tail);
        assert(whole.skip(head.len() as int) =~= record_bytes(v) + (records_bytes(rest) + tail));
        assert forall|i: int| 0 <= i < rest.len() implies record_ok(#[trigger] rest[i]) by {
            assert(rest[i] == rs[i + 1]);
        }
        let head2 = head + record_bytes(v);
        assert(whole =~= head2 + records_bytes(rest) + tail);
        lemma_scan_tail(head2, rest, tail, found.push((v, head.len())), limit);
        assert(found.push((v, head.len())) + placed(rest, head2.len()) =~= found + placed(
            rs,
            head.len(),
        ));
        assert(head2 + records_bytes(rest) =~= head + records_bytes(rs));
    }
}

/// The records of a laid file, each at its place.
pub(crate) proof fn lemma_scan_laid(f: Seq<u8>, rs: Seq<RecordView>, limit: nat)
    requires
        file_laid(f, rs),
        rs.len() < limit,
    ensures
        scan_of(f, limit) is Ok,
        scan_of(f, limit)->Ok_0.0 == placed(rs, 4),
{
    crate::codec::lemma_scan_u32(crate::version::SEGMENT_MAGIC, Seq::empty());
    assert(magic_bytes().len() == 4);
    if f.len() == 0 {
        assert(placed(rs, 4) =~= Seq::empty());
    } else {
        let body = body_of(rs);
        let tail = f.skip(body.len() as int);
        assert(f.take(4) =~= body.take(4));
        assert(body.take(4) =~= magic_bytes());
        assert forall|i: int| 0 <= i < rs.len() implies record_ok(#[trigger] rs[i]) by {
            assert(own_record(rs[i]));
        }
        lemma_scan_tail(magic_bytes(), rs, tail, Seq::empty(), limit);
        assert(magic_bytes() + records_bytes(rs) + tail =~= f);
        assert(Seq::<(RecordView, nat)>::empty() + placed(rs, 4) =~= placed(rs, 4));
    }
}

/// A placed record lies where it was placed: its payload is read there.
proof fn lemma_placed_at(head: Seq<u8>, rs: Seq<RecordView>, tail: Seq<u8>, i: int)
    requires
        forall|i: int| 0 <= i < rs.len() ==> record_ok(#[trigger] rs[i]),
        0 <= i < rs.len(),
    ensures
        placed(rs, head.len()).len() == rs.len(),
        ({
            let q = placed(rs, head.len())[i];
            let f = head + records_bytes(rs) + tail;
            &&& q.0 == rs[i]
            &&& q.1 + HEADER_SIZE + rs[i].payload.len() <= (head + records_bytes(rs)).len()
            &&& crate::io::payload_in(f, q.1, rs[i].payload.len()) == Some(rs[i].payload)
        }),
    decreases rs.len(),
{
    let v = rs[0];
    let rest = rs.drop_first();
    let head2 = head + record_bytes(v);
    let f = head + records_bytes(rs) + tail;
    record_round_trip(v, Seq::empty());
    crate::record::lemma_record_payload(v);
    assert(f =~= head2 + records_bytes(rest) + tail);
    assert(head2 + records_bytes(rest) =~= head + records_bytes(rs));
    assert forall|i: int| 0 <= i < rest.len() implies record_ok(#[trigger] rest[i]) by {
        assert(rest[i] == rs[i + 1]);
    }
    lemma_placed_len(rest, head2.len());
    if i == 0 {
        assert(f.subrange(
            (head.len() + HEADER_SIZE) as int,
            (head.len() + HEADER_SIZE + v.payload.len()) as int,
        ) =~= record_bytes(v).subrange(
            HEADER_SIZE as int,
            (HEADER_SIZE + v.payload.len()) as int,
        ));
    } else {
        lemma_placed_at(head2, rest, tail, i - 1);
        assert(placed(rs, head.len())[i] == placed(rest, head2.len())[i - 1]);
    }
}

pub(crate) proof fn lemma_placed_len(rs: Seq<RecordView>, at: nat)
    ensures
        placed(rs, at).len() == rs.len(),
    decreases rs.len(),
{
    if rs.len() > 0 {
        lemma_placed_len(rs.drop_first(), at + record_size(rs[0]));
    }
}

/// The payloads of the records of a segment.
#[verifier::opaque]
pub open spec fn payloads_in(laid: Map<u64, Seq<RecordView>>, s: u64) -> Set<Seq<u8>> {
    Set::new(
        |b: Seq<u8>|
            laid.contains_key(s) && exists|j: int|
                0 <= j < laid[s].len() && (#[trigger] laid[s][j]).payload == b,
    )
}

/// The payloads of the records.
#[verifier::opaque]
pub open spec fn all_payloads(laid: Map<u64, Seq<RecordView>>) -> Set<Seq<u8>> {
    Set::new(|b: Seq<u8>| exists|s: u64| #[trigger] payloads_in(laid, s).contains(b))
}

/// Every record is indexed.
pub open spec fn all_indexed(
    laid: Map<u64, Seq<RecordView>>,
    index: Seq<(Seq<u8>, Location)>,
) -> bool {
    forall|s: u64, j: int|
        #![trigger laid[s][j]]
        laid.contains_key(s) && 0 <= j < laid[s].len() ==> has_key(index, laid[s][j].content_id)
}

/// What holds of the index of the segments seen so far.
spec fn index_good(
    segments: Map<u64, Seq<u8>>,
    laid: Map<u64, Seq<RecordView>>,
    ix: Seq<(Seq<u8>, Location)>,
) -> bool {
    &&& index_sound(segments, ix)
    &&& index_placed(laid, ix)
    &&& forall|i: int|
        0 <= i < ix.len() ==> (object_at(segments, (#[trigger] ix[i]).1) matches Some(b)
            && payloads_in(laid, ix[i].1.segment_seq).contains(b))
}

#[verifier::rlimit(40)]
#[verifier::spinoff_prover]
proof fn lemma_indexed_good(
    segments: Map<u64, Seq<u8>>,
    laid: Map<u64, Seq<RecordView>>,
    ix: Seq<(Seq<u8>, Location)>,
    seq: u64,
    n: nat,
)
    requires
        disk_laid(segments, laid),
        laid.contains_key(seq),
        segments[seq].len() <= u64::MAX,
        n <= laid[seq].len(),
        index_good(segments, laid, ix),
    ensures
        ({
            let out = indexed(ix, seq, placed(laid[seq], 4).take(n as int));
            &&& index_good(segments, laid, out)
            &&& forall|id: Seq<u8>| #[trigger] has_key(ix, id) ==> has_key(out, id)
            &&& forall|j: int|
                0 <= j < n ==> has_key(out, (#[trigger] laid[seq][j]).content_id)
        }),
    decreases n,
{
    let rs = laid[seq];
    let ps = placed(rs, 4);
    lemma_placed_len(rs, 4);
    if n == 0 {
        assert(ps.take(0) =~= Seq::empty());
    } else {
        let m = (n - 1) as nat;
        lemma_indexed_good(segments, laid, ix, seq, m);
        let mid = indexed(ix, seq, ps.take(m as int));
        assert(ps.take(n as int).drop_last() =~= ps.take(m as int));
        assert(ps.take(n as int).last() == ps[m as int]);
        let f = segments[seq];
        assert(file_laid(f, rs));
        crate::codec::lemma_scan_u32(crate::version::SEGMENT_MAGIC, Seq::empty());
        assert(magic_bytes().len() == 4);
        assert(own_record(rs[m as int]));
        assert(f.len() > 0);
        let body = body_of(rs);
        let tail = f.skip(body.len() as int);
        assert(magic_bytes() + records_bytes(rs) + tail =~= f);
        assert forall|i: int| 0 <= i < rs.len() implies record_ok(#[trigger] rs[i]) by {
            assert(own_record(rs[i]));
        }
        lemma_placed_at(magic_bytes(), rs, tail, m as int);
        let v = rs[m as int];
        let loc = place_of(seq, ps[m as int]);
        assert(object_at(segments, loc) == Some(v.payload));
        assert(inside_records(laid, loc));
        crate::store::lemma_indexed(segments, segments, mid, loc, v.payload);
        crate::store::lemma_placed(laid, laid, mid, v.content_id, loc);
        let out = indexed(ix, seq, ps.take(n as int));
        assert(out == upsert(mid, v.content_id, loc));
        lemma_rank(mid, v.content_id);
        assert forall|i: int| 0 <= i < out.len() implies (object_at(
            segments,
            (#[trigger] out[i]).1,
        ) matches Some(b) && payloads_in(laid, out[i].1.segment_seq).contains(b)) by {
            if out[i] == (v.content_id, loc) {
                reveal(payloads_in);
                assert(laid[seq][m as int].payload == v.payload);
            } else {
                let k = choose|k: int| 0 <= k < mid.len() && mid[k] == out[i];
                assert(object_at(segments, mid[k].1) is Some);
            }
        }
        assert forall|j: int| 0 <= j < n implies has_key(
            out,
            (#[trigger] rs[j]).content_id,
        ) by {
            if j < m {
                assert(has_key(mid, rs[j].content_id));
            }
        }
    }
}

/// Over segments that are runs of records, the rebuilt index finds every record,
/// and every object where it is.
pub proof fn rebuilt_index_is_sound(
    segments: Map<u64, Seq<u8>>,
    seqs: Seq<u64>,
    limit: nat,
    laid: Map<u64, Seq<RecordView>>,
)
    requires
        laid_out(segments, seqs, limit, laid),
        forall|s: u64| #[trigger] segments.contains_key(s) ==> segments[s].len() <= u64::MAX,
    ensures
        index_over(segments, seqs, limit) is Some,
        index_sound(segments, index_over(segments, seqs, limit)->0),
        index_placed(laid, index_over(segments, seqs, limit)->0),
        all_indexed(laid, index_over(segments, seqs, limit)->0),
        ({
            let ix = index_over(segments, seqs, limit)->0;
            forall|i: int|
                0 <= i < ix.len() ==> (object_at(segments, (#[trigger] ix[i]).1) matches Some(b)
                    && payloads_in(laid, ix[i].1.segment_seq).contains(b))
        }),
{
    lemma_rebuilt(segments, seqs, limit, laid, seqs.len());
    assert(seqs.take(seqs.len() as int) =~= seqs);
    let ix = index_over(segments, seqs, limit)->0;
    assert forall|s: u64, j: int|
        #![trigger laid[s][j]]
        laid.contains_key(s) && 0 <= j < laid[s].len() implies has_key(
        ix,
        laid[s][j].content_id,
    ) by {
        assert(seqs.contains(s));
        let i = choose|i: int| 0 <= i < seqs.len() && seqs[i] == s;
        assert(seqs[i] == s);
    }
}

/// The ids of records' payloads are ids of records.
proof fn lemma_ids_laid(
    segments: Map<u64, Seq<u8>>,
    laid: Map<u64, Seq<RecordView>>,
    ix: Seq<(Seq<u8>, Location)>,
)
    requires
        disk_laid(segments, laid),
        index_sound(segments, ix),
        forall|i: int|
            0 <= i < ix.len() ==> (object_at(segments, (#[trigger] ix[i]).1) matches Some(b)
                && payloads_in(laid, ix[i].1.segment_seq).contains(b)),
    ensures
        forall|i: int|
            0 <= i < ix.len() ==> laid_id(laid, (#[trigger] ix[i]).1.segment_seq, ix[i].0),
{
    assert forall|i: int| 0 <= i < ix.len() implies laid_id(
        laid,
        (#[trigger] ix[i]).1.segment_seq,
        ix[i].0,
    ) by {
        let b = object_at(segments, ix[i].1)->0;
        reveal(payloads_in);
        let s = ix[i].1.segment_seq;
        let j = choose|j: int| 0 <= j < laid[s].len() && (#[trigger] laid[s][j]).payload == b;
        assert(file_laid(segments[s], laid[s]));
        assert(own_record(laid[s][j]));
        reveal(laid_id);
        assert(laid[s][j].content_id == ix[i].0);
    }
}

proof fn lemma_rebuilt(
    segments: Map<u64, Seq<u8>>,
    seqs: Seq<u64>,
    limit: nat,
    laid: Map<u64, Seq<RecordView>>,
    n: nat,
)
    requires
        laid_out(segments, seqs, limit, laid),
        forall|s: u64| #[trigger] segments.contains_key(s) ==> segments[s].len() <= u64::MAX,
        n <= seqs.len(),
    ensures
        index_over(segments, seqs.take(n as int), limit) is Some,
        index_good(segments, laid, index_over(segments, seqs.take(n as int), limit)->0),
        forall|i: int, j: int|
            #![trigger laid[seqs[i]][j]]
            0 <= i < n && 0 <= j < laid[seqs[i]].len() ==> has_key(
                index_over(segments, seqs.take(n as int), limit)->0,
                laid[seqs[i]][j].content_id,
            ),
    decreases n,
{
    let now = seqs.take(n as int);
    if n > 0 {
        let m = (n - 1) as nat;
        lemma_rebuilt(segments, seqs, limit, laid, m);
        assert(now.drop_last() =~= seqs.take(m as int));
        let s = seqs[m as int];
        assert(now.last() == s);
        assert(seqs.contains(s));
        assert(laid.contains_key(s));
        assert(segments.contains_key(s));
        lemma_scan_laid(segments[s], laid[s], limit);
        lemma_placed_len(laid[s], 4);
        let ix = index_over(segments, seqs.take(m as int), limit)->0;
        lemma_indexed_good(segments, laid, ix, s, laid[s].len());
        assert(placed(laid[s], 4).take(laid[s].len() as int) =~= placed(laid[s], 4));
    } else {
        assert(now =~= Seq::empty());
    }
}

// ---------------------------------------------------------------------------
// The choice of the root
// ---------------------------------------------------------------------------

/// The root that a superblock names, if it is there, decodes, and is of the
/// superblock's generation.
pub open spec fn root_under(
    segments: Map<u64, Seq<u8>>,
    ix: Seq<(Seq<u8>, Location)>,
    sb: SuperblockView,
) -> Option<RootView> {
    match lookup(ix, sb.root_object_id) {
        None => None,
        Some(loc) => match object_at(segments, loc) {
            None => None,
            Some(b) => match parse_root(b) {
                Err(_) => None,
                Ok(r) => if r.generation == sb.generation {
                    Some(r)
                } else {
                    None
                },
            },
        },
    }
}

/// The superblock of the higher generation that names its root; slot A first
/// where the generations are equal.
pub open spec fn slot_choice(
    segments: Map<u64, Seq<u8>>,
    ix: Seq<(Seq<u8>, Location)>,
    a: Option<SuperblockView>,
    b: Option<SuperblockView>,
) -> Option<(SuperblockView, RootView)> {
    let (first, second) = match (a, b) {
        (Some(x), Some(y)) => if y.generation > x.generation {
            (b, a)
        } else {
            (a, b)
        },
        _ => (a, b),
    };
    match first {
        Some(x) if root_under(segments, ix, x) is Some => Some(
            (x, root_under(segments, ix, x)->0),
        ),
        _ => match second {
            Some(y) if root_under(segments, ix, y) is Some => Some(
                (y, root_under(segments, ix, y)->0),
            ),
            _ => None,
        },
    }
}

/// The newest root record in the segments.
pub open spec fn newest_over(
    segments: Map<u64, Seq<u8>>,
    seqs: Seq<u64>,
    limit: nat,
) -> Option<RootView>
    decreases seqs.len(),
{
    if seqs.len() == 0 {
        None
    } else {
        match scan_of(file_of(segments, seqs.last()), limit) {
            Ok((rs, _)) => newest_root_in(rs, newest_over(segments, seqs.drop_last(), limit)),
            Err(_) => None,
        }
    }
}

/// The chosen superblock and root: of the slots, or else the newest root record
/// with the superblock that stands for it.
pub open spec fn root_choice(
    segments: Map<u64, Seq<u8>>,
    ix: Seq<(Seq<u8>, Location)>,
    seqs: Seq<u64>,
    limit: nat,
    a: Option<SuperblockView>,
    b: Option<SuperblockView>,
) -> Option<(SuperblockView, RootView)> {
    match slot_choice(segments, ix, a, b) {
        Some(c) => Some(c),
        None => match newest_over(segments, seqs, limit) {
            Some(r) => Some((superblock_for(r), r)),
            None => None,
        },
    }
}

/// Load and validate the root object that a superblock references: nothing where
/// it is missing or does not decode.
pub fn load_root_for<B: IoBackend>(sb: &Superblock, io: &B, index: &ObjectIndex) -> (r: Result<
    Option<Root>,
    StoreError,
>)
    requires
        index.wf(),
    ensures
        match r {
            Ok(o) => match lookup(index@, sb@.root_object_id) {
                None => o is None,
                Some(loc) => match object_at(io.segments(), loc) {
                    Some(b) => match o {
                        Some(root) => parse_root(b) == Ok::<RootView, CodecError>(root@),
                        None => parse_root(b) is Err,
                    },
                    None => false,
                },
            },
            Err(_) => io.reliable() ==> !index_sound(io.segments(), index@),
        },
{
    match index.get(&sb.root_object_id) {
        None => Ok(None),
        Some(loc) => {
            proof {
                lemma_rank(index@, sb@.root_object_id);
                let k = rank(index@, sb@.root_object_id);
                assert(index@[k].1 == *loc);
            }
            match io.read_payload(loc.segment_seq, loc.offset, loc.stored_len) {
                Ok(b) => match Root::decode(&b) {
                    Ok(root) => Ok(Some(root)),
                    Err(_) => Ok(None),
                },
                Err(e) => Err(e),
            }
        },
    }
}

fn try_slot<B: IoBackend>(slot: &Option<Superblock>, io: &B, index: &ObjectIndex) -> (r: Result<
    Option<(Superblock, Root)>,
    StoreError,
>)
    requires
        index.wf(),
    ensures
        match r {
            Ok(o) => match slot {
                None => o is None,
                Some(sb) => match root_under(io.segments(), index@, sb@) {
                    Some(v) => (o matches Some(c) && c.0 == *sb && c.1@ == v),
                    None => o is None,
                },
            },
            Err(_) => io.reliable() ==> !index_sound(io.segments(), index@),
        },
{
    match slot {
        None => Ok(None),
        Some(sb) => match load_root_for(sb, io, index) {
            Err(e) => Err(e),
            Ok(None) => Ok(None),
            Ok(Some(root)) => if root.generation == sb.generation {
                Ok(Some((*sb, root)))
            } else {
                Ok(None)
            },
        },
    }
}

/// The newest root record in the segments, with the superblock that stands for
/// it.
fn newest_record<B: IoBackend>(io: &B, seqs: &Vec<u64>, max_records_per_segment: u64) -> (r: Result<
    Option<(Superblock, Root)>,
    StoreError,
>)
    requires
        index_over(io.segments(), seqs@, max_records_per_segment as nat) is Some,
    ensures
        match r {
            Ok(o) => recovered(
                o,
                newest_over(io.segments(), seqs@, max_records_per_segment as nat),
            ),
            Err(_) => !io.reliable(),
        },
{
    let ghost limit = max_records_per_segment as nat;
    let mut best: Option<(Superblock, Root)> = None;
    let mut i: usize = 0;
    assert(seqs@.take(0) =~= Seq::empty());
    while i < seqs.len()
        invariant
            i <= seqs@.len(),
            limit == max_records_per_segment as nat,
            index_over(io.segments(), seqs@, limit) is Some,
            recovered(best, newest_over(io.segments(), seqs@.take(i as int), limit)),
        decreases seqs@.len() - i,
    {
        proof {
            assert(seqs@.take(i + 1).drop_last() =~= seqs@.take(i as int));
            assert(seqs@.take(i + 1).last() == seqs@[i as int]);
            if index_over(io.segments(), seqs@.take(i + 1), limit) is None {
                lemma_over_stuck(io.segments(), seqs@, limit, i + 1);
            }
        }
        let bytes = match io.read_segment_file(seqs[i]) {
            Ok(b) => b,
            Err(e) => return Err(e),
        };
        match scan_segment(&bytes, max_records_per_segment) {
            Ok((records, _)) => {
                best = newest_root(&records, best);
            },
            Err(e) => return Err(StoreError::Segment(e)),
        }
        i += 1;
    }
    assert(seqs@.take(i as int) =~= seqs@);
    Ok(best)
}

/// Recovery root selection: the superblock slot of the highest generation whose
/// root object decodes with a matching generation; else the newest valid root
/// record in the segments.
pub fn choose_root<B: IoBackend>(
    pair: &SuperblockPair,
    io: &B,
    index: &ObjectIndex,
    seqs: &Vec<u64>,
    max_records_per_segment: u64,
) -> (r: Result<(Superblock, Root), StoreError>)
    requires
        index.wf(),
        index_over(io.segments(), seqs@, max_records_per_segment as nat) is Some,
    ensures
        match r {
            Ok(c) => root_choice(
                io.segments(),
                index@,
                seqs@,
                max_records_per_segment as nat,
                slot_view(pair.a),
                slot_view(pair.b),
            ) == Some((c.0@, c.1@)),
            Err(e) => !io.reliable() || !index_sound(io.segments(), index@) || e is Superblock && root_choice(
                io.segments(),
                index@,
                seqs@,
                max_records_per_segment as nat,
                slot_view(pair.a),
                slot_view(pair.b),
            ) is None,
        },
{
    let swap = match (&pair.a, &pair.b) {
        (Some(x), Some(y)) => y.generation > x.generation,
        _ => false,
    };
    let (first, second) = if swap {
        (&pair.b, &pair.a)
    } else {
        (&pair.a, &pair.b)
    };
    match try_slot(first, io, index) {
        Err(e) => return Err(e),
        Ok(Some(c)) => return Ok(c),
        Ok(None) => {},
    }
    match try_slot(second, io, index) {
        Err(e) => return Err(e),
        Ok(Some(c)) => return Ok(c),
        Ok(None) => {},
    }
    match newest_record(io, seqs, max_records_per_segment) {
        Err(e) => Err(e),
        Ok(Some(c)) => Ok(c),
        Ok(None) => Err(
            StoreError::Superblock(
                "no valid root: slot roots missing and no root record in segments".to_string(),
            ),
        ),
    }
}

// ---------------------------------------------------------------------------
// Mounting
// ---------------------------------------------------------------------------

/// The list names every segment, and what scans is a run of this store's records
/// with maybe a torn tail.
pub open spec fn owned(segments: Map<u64, Seq<u8>>, seqs: Seq<u64>, limit: nat) -> bool {
    &&& forall|s: u64| #[trigger] segments.contains_key(s) == seqs.contains(s)
    &&& forall|s: u64| #[trigger]
        segments.contains_key(s) && scan_of(segments[s], limit) is Ok ==> exists|rs: Seq<
            RecordView,
        >| #[trigger] file_laid(segments[s], rs) && rs.len() < limit
}

/// The records of the segments.
pub open spec fn own_records(segments: Map<u64, Seq<u8>>, seqs: Seq<u64>, limit: nat) -> Map<
    u64,
    Seq<RecordView>,
> {
    Map::new(
        |s: u64| segments.contains_key(s),
        |s: u64|
            choose|rs: Seq<RecordView>| #[trigger]
                file_laid(segments[s], rs) && rs.len() < limit,
    )
}

proof fn lemma_all_scan(segments: Map<u64, Seq<u8>>, seqs: Seq<u64>, limit: nat, i: int)
    requires
        index_over(segments, seqs, limit) is Some,
        0 <= i < seqs.len(),
    ensures
        scan_of(file_of(segments, seqs[i]), limit) is Ok,
    decreases seqs.len(),
{
    if i < seqs.len() - 1 {
        assert(seqs.drop_last()[i] == seqs[i]);
        lemma_all_scan(segments, seqs.drop_last(), limit, i);
    }
}

pub(crate) proof fn lemma_own_records(segments: Map<u64, Seq<u8>>, seqs: Seq<u64>, limit: nat)
    requires
        owned(segments, seqs, limit),
        index_over(segments, seqs, limit) is Some,
    ensures
        laid_out(segments, seqs, limit, own_records(segments, seqs, limit)),
{
    let laid = own_records(segments, seqs, limit);
    assert forall|s: u64| #[trigger] laid.contains_key(s) implies file_laid(segments[s], laid[s])
        && laid[s].len() < limit by {
        assert(seqs.contains(s));
        let i = choose|i: int| 0 <= i < seqs.len() && seqs[i] == s;
        lemma_all_scan(segments, seqs, limit, i);
        assert(file_of(segments, s) == segments[s]);
    }
    assert(laid.dom() =~= segments.dom());
    assert forall|s: u64| #[trigger] laid.contains_key(s) == seqs.contains(s) by {
        assert(segments.contains_key(s) == seqs.contains(s));
    }
}

/// The store behind the segments and slots: the chosen root is current, the
/// rebuilt index stands, nothing is pending, and the log goes on behind it.
pub open spec fn mounted<B: IoBackend>(
    st: Store<B>,
    io: B,
    config: StoreConfig,
    seqs: Seq<u64>,
    a: Seq<u8>,
    b: Seq<u8>,
) -> bool {
    let limit = config.max_records_per_segment as nat;
    let ix = index_over(io.segments(), seqs, limit);
    &&& slot_reading(a) is Ok && slot_reading(b) is Ok && ix is Some
    &&& root_choice(
        io.segments(),
        ix->0,
        seqs,
        limit,
        slot_reading(a)->Ok_0,
        slot_reading(b)->Ok_0,
    ) == Some((st.superblock@, st.root@))
    &&& st.config == config
    &&& st.index@ == ix->0
    &&& st.generation == st.superblock.generation
    &&& st.features_in_use == st.superblock.incompat
    &&& st.segment.seq_of() == st.superblock.segment_seq
    &&& st.segment.buffered().len() == 0
    &&& st.epoch.wf() && fresh(st.epoch) && st.epoch.seq == st.root.log_seq
    &&& st.epoch_pending == 0
    &&& st.io.superblock() == io.superblock()
    &&& st.io.reliable() == io.reliable()
    &&& crate::io::same_but(io.segments(), st.io.segments(), st.superblock.segment_seq)
    &&& backed(io, st.superblock.segment_seq) ==> backed(st.io, st.superblock.segment_seq)
    &&& forall|i: int|
        0 <= i < seqs.len() ==> file_of(io.segments(), #[trigger] seqs[i]).len() <= u64::MAX
    &&& owned(io.segments(), seqs, limit) ==> st.ready() && st.objects() == committed(
        io.segments(),
        ix->0,
    ) && st.given@ == st.objects() && st.seen@ == st.objects().union(
        all_payloads(own_records(io.segments(), seqs, limit)),
    ) && st.laid@ == laid_with(
        own_records(io.segments(), seqs, limit),
        st.superblock.segment_seq,
    )
}

/// Why there is nothing to mount: the transport failed, a slot does not read, the
/// segments cannot be scanned or are not the store's own, or no root is found.
pub open spec fn unmountable<B: IoBackend>(
    io: B,
    config: StoreConfig,
    seqs: Seq<u64>,
    a: Seq<u8>,
    b: Seq<u8>,
) -> bool {
    let limit = config.max_records_per_segment as nat;
    let ix = index_over(io.segments(), seqs, limit);
    ||| !io.reliable()
    ||| slot_reading(a) is Err || slot_reading(b) is Err
    ||| ix is None
    ||| !index_sound(io.segments(), ix->0)
    ||| root_choice(
        io.segments(),
        ix->0,
        seqs,
        limit,
        slot_reading(a)->Ok_0,
        slot_reading(b)->Ok_0,
    ) is None
    ||| !owned(io.segments(), seqs, limit)
}

impl<B: IoBackend> Store<B> {
    /// Mount: read the slots, rebuild the index, choose the root, open the
    /// current segment.
    #[verifier::rlimit(80)]
    #[verifier::spinoff_prover]
    pub fn mount(
        io: B,
        config: &StoreConfig,
        seqs: &Vec<u64>,
        slot_a: &[u8],
        slot_b: &[u8],
    ) -> (r: Result<Store<B>, StoreError>)
        ensures
            match r {
                Ok(st) => mounted(st, io, *config, seqs@, slot_a@, slot_b@),
                Err(_) => unmountable(io, *config, seqs@, slot_a@, slot_b@),
            },
    {
        let mut io = io;
        let ghost before = io;
        let ghost limit = config.max_records_per_segment as nat;
        let pair = match SuperblockPair::read(slot_a, slot_b) {
            Ok(p) => p,
            Err(e) => return Err(e),
        };
        let index = match rebuild_index(&io, seqs, config.max_records_per_segment) {
            Ok(ix) => ix,
            Err(e) => return Err(e),
        };
        let (sb, root) = match choose_root(
            &pair,
            &io,
            &index,
            seqs,
            config.max_records_per_segment,
        ) {
            Ok(c) => c,
            Err(e) => return Err(e),
        };
        let ghost segs = io.segments();
        let ghost laid = own_records(segs, seqs@, limit);
        proof {
            if owned(segs, seqs@, limit) {
                lemma_own_records(segs, seqs@, limit);
                assert forall|s: u64| #[trigger] segs.contains_key(s) implies segs[s].len()
                    <= u64::MAX by {
                    assert(seqs@.contains(s));
                    let i = choose|i: int| 0 <= i < seqs@.len() && seqs@[i] == s;
                    assert(file_of(segs, seqs@[i]).len() <= u64::MAX);
                }
                rebuilt_index_is_sound(segs, seqs@, limit, laid);
                if laid.contains_key(sb.segment_seq) && segs[sb.segment_seq].len() > 0 {
                    crate::store::lemma_laid_clean(segs[sb.segment_seq], laid[sb.segment_seq]);
                }
            }
        }
        let mut seen: Tried<B> = Tried::indexed(&io, &index);
        let in_records: Tried<B> = Tried::recorded(&io, seqs, config.max_records_per_segment);
        seen.absorb(&in_records);
        let segment = match SegmentWriter::open(&mut io, sb.segment_seq) {
            Ok(w) => w,
            Err(e) => return Err(StoreError::Segment(e)),
        };
        proof {
            lemma_backed_but(before, io, sb.segment_seq);
        }
        let mut epoch = Epoch::new();
        epoch.seq = root.log_seq;
        let ghost objects = committed(segs, index@);
        proof {
            assert(seen@ == objects.union(all_payloads(laid)));
        }
        let st = Store {
            io,
            config: *config,
            index,
            segment,
            root,
            superblock: sb,
            generation: sb.generation,
            features_in_use: sb.incompat,
            epoch,
            epoch_pending: 0,
            laid: Ghost(laid_with(laid, sb.segment_seq)),
            given: Ghost(objects),
            seen,
        };
        proof {
            let now = st.io.segments();
            let seq = sb.segment_seq;
            assert(st.epoch@ =~= empty_overlay());
            if owned(segs, seqs@, limit) {
                crate::store::lemma_opened(segs, now, laid, st.index@, seq, st.segment.end_of() as nat);
                assert(file_of(now, seq) + st.segment.buffered() =~= file_of(now, seq));
                assert(st.disk() =~= now);
                assert forall|x: Seq<u8>| #[trigger]
                    objects.contains(x) implies crate::store::digest_found(objects, x) by {}
                assert(traced(laid, st.index@, st.seen@)) by {
                    reveal(traced);
                    lemma_ids_laid(segs, laid, st.index@);
                    assert forall|s: u64, j: int|
                        #![trigger laid[s][j]]
                        laid.contains_key(s) && 0 <= j < laid[s].len() implies st.seen@.contains(
                        laid[s][j].payload,
                    ) by {
                        reveal(all_payloads);
                        reveal(payloads_in);
                        assert(payloads_in(laid, s).contains(laid[s][j].payload));
                    }
                }
            }
        }
        Ok(st)
    }
}

// ---------------------------------------------------------------------------
// What survives
// ---------------------------------------------------------------------------

/// The superblock names the root, and the root object is there.
pub open spec fn root_kept<B: IoBackend>(st: Store<B>) -> bool {
    &&& st.superblock@.root_object_id == digest(root_bytes(st.root@))
    &&& st.superblock@.generation == st.root@.generation
    &&& st.objects().contains(root_bytes(st.root@))
    &&& root_ok(st.root@)
}

/// One slot reads as the superblock, and the other as nothing or an earlier
/// generation.
pub open spec fn slots_hold(sb: SuperblockView, a: Seq<u8>, b: Seq<u8>) -> bool {
    let x = slot_reading(a);
    let y = slot_reading(b);
    &&& x is Ok && y is Ok
    &&& {
        ||| x->Ok_0 == Some(sb) && (y->Ok_0 matches Some(o) ==> o.generation < sb.generation)
        ||| y->Ok_0 == Some(sb) && (x->Ok_0 matches Some(o) ==> o.generation < sb.generation)
    }
}

/// Mounting what a store has flushed gives the store back: the same root, every
/// object, the same namespace.
#[verifier::rlimit(60)]
#[verifier::spinoff_prover]
pub proof fn commit_survives_reopen<B: IoBackend>(
    old_store: Store<B>,
    st: Store<B>,
    seqs: Seq<u64>,
    a: Seq<u8>,
    b: Seq<u8>,
)
    requires
        old_store.flushed(),
        root_kept(old_store),
        clash_free(old_store.seen@),
        slots_hold(old_store.superblock@, a, b),
        forall|s: u64| #[trigger]
            old_store.io.segments().contains_key(s) == seqs.contains(s),
        forall|s: u64| #[trigger]
            old_store.laid@.contains_key(s) ==> old_store.laid@[s].len()
                < old_store.config.max_records_per_segment,
        mounted(st, old_store.io, old_store.config, seqs, a, b),
    ensures
        st.ready(),
        st.root@ == old_store.root@,
        st.superblock@ == old_store.superblock@,
        old_store.objects().subset_of(st.objects()),
        forall|h: nat| #[trigger]
            old_store.whole(h) ==> st.whole(h) && st.ns() == old_store.ns(),
        forall|h: nat| #[trigger]
            old_store.chunks_ok(h) ==> st.chunks_ok(h) && st.chunks() == old_store.chunks(),
{
    let segs = old_store.io.segments();
    let laid = old_store.laid@;
    let limit = old_store.config.max_records_per_segment as nat;
    lemma_flushed_disk(old_store);
    assert forall|s: u64| #[trigger]
        segs.contains_key(s) && scan_of(segs[s], limit) is Ok implies exists|rs: Seq<RecordView>|
        #[trigger] file_laid(segs[s], rs) && rs.len() < limit by {
        assert(laid.contains_key(s));
        assert(file_laid(segs[s], laid[s]));
    }
    assert(owned(segs, seqs, limit));
    assert forall|s: u64| #[trigger] laid.contains_key(s) == seqs.contains(s) by {
        assert(segs.contains_key(s) == laid.contains_key(s));
    }
    assert(laid_out(segs, seqs, limit, laid));
    let ix = index_over(segs, seqs, limit)->0;
    assert forall|s: u64| #[trigger] segs.contains_key(s) implies segs[s].len() <= u64::MAX by {
        assert(seqs.contains(s));
        let i = choose|i: int| 0 <= i < seqs.len() && seqs[i] == s;
        assert(file_of(segs, seqs[i]).len() <= u64::MAX);
    }
    rebuilt_index_is_sound(segs, seqs, limit, laid);
    let was = old_store.objects();
    let now = committed(segs, ix);
    let seen = old_store.seen@;
    assert forall|x: Seq<u8>| #[trigger] now.contains(x) implies seen.contains(x) by {
        let i = choose|i: int|
            0 <= i < ix.len() && object_at(segs, (#[trigger] ix[i]).1) == Some(x);
        let s = ix[i].1.segment_seq;
        assert(payloads_in(laid, s).contains(x));
        reveal(payloads_in);
        let j = choose|j: int| 0 <= j < laid[s].len() && (#[trigger] laid[s][j]).payload == x;
        reveal(traced);
        assert(seen.contains(laid[s][j].payload));
    }
    assert forall|x: Seq<u8>| #[trigger] was.contains(x) implies now.contains(x) by {
        let i = choose|i: int|
            0 <= i < old_store.index@.len() && object_at(segs, (#[trigger] old_store.index@[i]).1)
                == Some(x);
        let s = old_store.index@[i].1.segment_seq;
        reveal(traced);
        reveal(laid_id);
        assert(laid_id(laid, s, old_store.index@[i].0));
        let j = choose|j: int|
            0 <= j < laid[s].len() && (#[trigger] laid[s][j]).content_id == digest(x);
        assert(has_key(ix, laid[s][j].content_id));
        lemma_held_under(segs, ix, digest(x));
        let y = choose|y: Seq<u8>| #[trigger] now.contains(y) && digest(y) == digest(x);
        assert(seen.contains(y));
        assert(seen.contains(x));
    }
    lemma_clash_free_subset(now, seen);
    let top = root_bytes(old_store.root@);
    assert(root_under(segs, ix, old_store.superblock@) == Some(old_store.root@)) by {
        let i = choose|i: int|
            0 <= i < ix.len() && object_at(segs, (#[trigger] ix[i]).1) == Some(top);
        assert(now.contains(top));
        crate::epoch::lemma_at(ix, i);
        root_round_trip(old_store.root@);
    }
    let fanout = old_store.config.max_fanout;
    assert forall|h: nat| #[trigger] old_store.whole(h) implies st.whole(h) && st.ns()
        == old_store.ns() by {
        lemma_fs_grows(was, now, old_store.root@.inode_index_root, fanout, h, h);
    }
    assert forall|h: nat| #[trigger] old_store.chunks_ok(h) implies st.chunks_ok(h) && st.chunks()
        == old_store.chunks() by {
        lemma_tree_grows(was, now, old_store.root@.chunk_index_root, fanout, h, h);
    }
}

/// Some object is indexed under an id that is a key.
proof fn lemma_held_under(segs: Map<u64, Seq<u8>>, ix: Seq<(Seq<u8>, Location)>, id: Seq<u8>)
    requires
        index_sound(segs, ix),
        has_key(ix, id),
    ensures
        exists|y: Seq<u8>| #[trigger] committed(segs, ix).contains(y) && digest(y) == id,
{
    let i = choose|i: int| 0 <= i < ix.len() && (#[trigger] ix[i]).0 == id;
    let y = object_at(segs, ix[i].1)->0;
    assert(committed(segs, ix).contains(y));
}

/// A slot that was written reads back as its superblock, and the other slot as
/// before.
pub proof fn slot_write_reads_back(before: Seq<u8>, after: Seq<u8>, sb: SuperblockView)
    requires
        slot_written(before, after, sb),
        slot_ok(sb),
        before.len() >= SUPERBLOCK_SLOT_B_OFFSET + SUPERBLOCK_SLOT_SIZE,
    ensures
        ({
            let mine = slot_of_generation(sb.generation) as int;
            let other = SUPERBLOCK_SLOT_B_OFFSET - mine;
            &&& slot_reading(after.subrange(mine, mine + SUPERBLOCK_SLOT_SIZE)) == Ok::<
                Option<SuperblockView>,
                (),
            >(Some(sb))
            &&& after.subrange(other, other + SUPERBLOCK_SLOT_SIZE) == before.subrange(
                other,
                other + SUPERBLOCK_SLOT_SIZE,
            )
        }),
{
    let mine = slot_of_generation(sb.generation) as int;
    let other = SUPERBLOCK_SLOT_B_OFFSET - mine;
    slot_round_trip(sb);
    let bytes = slot_bytes(sb);
    assert(bytes.len() == SUPERBLOCK_SLOT_SIZE);
    assert(after.subrange(mine, mine + SUPERBLOCK_SLOT_SIZE) =~= bytes);
    assert(after.subrange(other, other + SUPERBLOCK_SLOT_SIZE) =~= before.subrange(
        other,
        other + SUPERBLOCK_SLOT_SIZE,
    ));
}

// ---------------------------------------------------------------------------
// The log at open
// ---------------------------------------------------------------------------

/// The mutation-log payloads among records.
pub open spec fn logs_in(rs: Seq<(RecordView, nat)>) -> Seq<Seq<u8>>
    decreases rs.len(),
{
    if rs.len() == 0 {
        Seq::empty()
    } else {
        let rest = logs_in(rs.drop_last());
        if rs.last().0.tag == RecordTag::MutationLog {
            rest.push(rs.last().0.payload)
        } else {
            rest
        }
    }
}

/// The mutation-log payloads in the segments, in order; nothing where one does not
/// scan.
pub open spec fn logs_over(segments: Map<u64, Seq<u8>>, seqs: Seq<u64>, limit: nat) -> Option<
    Seq<Seq<u8>>,
>
    decreases seqs.len(),
{
    if seqs.len() == 0 {
        Some(Seq::empty())
    } else {
        match (
            logs_over(segments, seqs.drop_last(), limit),
            scan_of(file_of(segments, seqs.last()), limit),
        ) {
            (Some(done), Ok((rs, _))) => Some(done + logs_in(rs)),
            _ => None,
        }
    }
}

pub open spec fn byte_views(v: Seq<Vec<u8>>) -> Seq<Seq<u8>> {
    Seq::new(v.len(), |i: int| v[i]@)
}

fn take_logs(records: Vec<ScanRecord>, out: &mut Vec<Vec<u8>>)
    ensures
        byte_views(final(out)@) == byte_views(old(out)@) + logs_in(record_views(records@)),
{
    let ghost had = byte_views(out@);
    let ghost rs = record_views(records@);
    let mut i: usize = 0;
    assert(rs.take(0) =~= Seq::empty());
    assert(had + logs_in(rs.take(0)) =~= had);
    while i < records.len()
        invariant
            i <= records@.len(),
            rs == record_views(records@),
            byte_views(out@) == had + logs_in(rs.take(i as int)),
        decreases records@.len() - i,
    {
        proof {
            assert(rs.take(i + 1).drop_last() =~= rs.take(i as int));
            assert(rs.take(i + 1).last() == records@[i as int]@);
        }
        if records[i].tag == RecordTag::MutationLog {
            let ghost now = out@;
            out.push(copy_bytes(&records[i].payload));
            proof {
                assert(byte_views(out@) =~= byte_views(now).push(records@[i as int].payload@));
                assert(byte_views(out@) =~= had + logs_in(rs.take(i + 1)));
            }
        }
        i += 1;
    }
    assert(rs.take(i as int) =~= rs);
}

proof fn lemma_logs_stuck(segments: Map<u64, Seq<u8>>, seqs: Seq<u64>, limit: nat, n: int)
    requires
        0 <= n <= seqs.len(),
        logs_over(segments, seqs.take(n), limit) is None,
    ensures
        logs_over(segments, seqs, limit) is None,
    decreases seqs.len() - n,
{
    if n < seqs.len() {
        assert(seqs.take(n + 1).drop_last() =~= seqs.take(n));
        lemma_logs_stuck(segments, seqs, limit, n + 1);
    } else {
        assert(seqs.take(n) =~= seqs);
    }
}

/// The mutation-log payloads in the segments, in order.
pub fn gather_log<B: IoBackend>(io: &B, seqs: &Vec<u64>, max_records_per_segment: u64) -> (r: Result<
    Vec<Vec<u8>>,
    StoreError,
>)
    ensures
        match r {
            Ok(v) => logs_over(io.segments(), seqs@, max_records_per_segment as nat) == Some(
                byte_views(v@),
            ),
            Err(_) => !io.reliable() || logs_over(
                io.segments(),
                seqs@,
                max_records_per_segment as nat,
            ) is None,
        },
{
    let ghost limit = max_records_per_segment as nat;
    let mut out: Vec<Vec<u8>> = Vec::new();
    let mut i: usize = 0;
    assert(seqs@.take(0) =~= Seq::empty());
    assert(byte_views(out@) =~= Seq::empty());
    while i < seqs.len()
        invariant
            i <= seqs@.len(),
            limit == max_records_per_segment as nat,
            logs_over(io.segments(), seqs@.take(i as int), limit) == Some(byte_views(out@)),
        decreases seqs@.len() - i,
    {
        proof {
            assert(seqs@.take(i + 1).drop_last() =~= seqs@.take(i as int));
            assert(seqs@.take(i + 1).last() == seqs@[i as int]);
        }
        let bytes = match io.read_segment_file(seqs[i]) {
            Ok(b) => b,
            Err(e) => return Err(e),
        };
        match scan_segment(&bytes, max_records_per_segment) {
            Ok((records, _)) => {
                take_logs(records, &mut out);
            },
            Err(e) => {
                proof {
                    lemma_logs_stuck(io.segments(), seqs@, limit, i + 1);
                }
                return Err(StoreError::Segment(e));
            },
        }
        i += 1;
    }
    assert(seqs@.take(i as int) =~= seqs@);
    Ok(out)
}

} // verus!
