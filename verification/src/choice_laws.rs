//! Laws of what is taken for the state of the store when it is opened: the newest of what is
//! there, and the last record of each object.

use vstd::prelude::*;

use crate::chunk::digest;
use crate::mount::{index_over, indexed, newest_over, place_of, root_choice, root_under,
    slot_choice};
use crate::object::Location;
use crate::record::RecordView;
use crate::root::{newest, parse_root, root_bytes, RootView};
use crate::segment::{decimal, name_of, newest_root_in, newest_root_over, scan_of};
use crate::io::file_of;
use crate::sorted::{lemma_lookup_upsert, lemma_upsert_sorted, lookup, sorted};
use crate::superblock::{slot_of_generation, SuperblockView};
use crate::version::RecordTag;

verus! {

/// The newest of two slots is one of them, and neither is newer. There is none only where
/// neither slot is valid.
pub proof fn newest_is_latest(a: Option<SuperblockView>, b: Option<SuperblockView>)
    ensures
        newest(a, b) is None <==> a is None && b is None,
        newest(a, b) is Some ==> newest(a, b) == a || newest(a, b) == b,
        a is Some ==> a->0.generation <= newest(a, b)->0.generation,
        b is Some ==> b->0.generation <= newest(a, b)->0.generation,
        a is Some && b is Some && a->0.generation == b->0.generation ==> newest(a, b) == b,
{
}

/// Even generations are committed to the first slot of the file and odd ones to the second, so
/// that two in a row are committed to different slots.
pub proof fn next_commit_spares_the_slot(generation: u64)
    requires
        generation < u64::MAX,
    ensures
        generation % 2 == 0 ==> slot_of_generation(generation) == 0,
        generation % 2 == 1 ==> slot_of_generation(generation) == 4096,
        slot_of_generation(generation) != slot_of_generation((generation + 1) as u64),
{
}

/// The slot that is mounted is one of the two and comes with the root that it names, of its
/// own generation. A slot whose root is not there is passed over; of two whose roots are
/// there, the one of the higher generation is taken. Nothing is chosen only where neither
/// root is there.
pub proof fn chosen_slot_is_newest_rooted(
    segments: Map<u64, Seq<u8>>,
    ix: Seq<(Seq<u8>, Location)>,
    a: Option<SuperblockView>,
    b: Option<SuperblockView>,
)
    ensures
        ({
            let c = slot_choice(segments, ix, a, b);
            &&& c matches Some((sb, r)) ==> {
                &&& a == Some(sb) || b == Some(sb)
                &&& root_under(segments, ix, sb) == Some(r)
                &&& r.generation == sb.generation
            }
            &&& a is Some && b is Some && a->0.generation == b->0.generation && root_under(
                segments,
                ix,
                a->0,
            ) is Some ==> (c matches Some((sb, _)) && a == Some(sb))
            &&& forall|x: SuperblockView| #![trigger root_under(segments, ix, x)]
                (a == Some(x) || b == Some(x)) && root_under(segments, ix, x) is Some ==> c is Some
                    && x.generation <= (c->0).0.generation
        }),
{
}

/// The root that a superblock names is an object that is there, decodes to it, and is of the
/// superblock's generation.
pub proof fn named_root_is_stored(
    segments: Map<u64, Seq<u8>>,
    ix: Seq<(Seq<u8>, Location)>,
    sb: SuperblockView,
)
    ensures
        root_under(segments, ix, sb) matches Some(r) ==> {
            &&& lookup(ix, sb.root_object_id) matches Some(loc) && (crate::transaction::object_at(
                segments,
                loc,
            ) matches Some(b) && parse_root(b) == Ok::<RootView, crate::codec::CodecError>(r))
            &&& r.generation == sb.generation
        },
{
}

/// The slots come before what a scan finds; the scan decides only where neither slot names
/// its root.
pub proof fn slots_come_first(
    segments: Map<u64, Seq<u8>>,
    ix: Seq<(Seq<u8>, Location)>,
    seqs: Seq<u64>,
    limit: nat,
    a: Option<SuperblockView>,
    b: Option<SuperblockView>,
)
    ensures
        slot_choice(segments, ix, a, b) is Some ==> root_choice(segments, ix, seqs, limit, a, b)
            == slot_choice(segments, ix, a, b),
        slot_choice(segments, ix, a, b) is None ==> match (
            newest_over(segments, seqs, limit),
            root_choice(segments, ix, seqs, limit, a, b),
        ) {
            (Some(r), Some(c)) => c.1 == r && c.0.root_object_id == digest(root_bytes(r))
                && c.0.generation == r.generation && c.0.segment_seq == r.segment_seq && c.0.uuid
                == r.uuid && c.0.incompat == 0,
            (None, None) => true,
            _ => false,
        },
{
}

/// The record is a root record that decodes.
pub open spec fn holds_root(rec: (RecordView, nat)) -> bool {
    rec.0.tag == RecordTag::Root && parse_root(rec.0.payload) is Ok
}

/// The newest root among records is that of a record, or the one known before, and no
/// record's root is of a higher generation. There is one as soon as a record holds one.
pub proof fn newest_root_is_latest(rs: Seq<(RecordView, nat)>, best: Option<RootView>)
    ensures
        ({
            let r = newest_root_in(rs, best);
            &&& r is Some ==> r == best || exists|i: int|
                0 <= i < rs.len() && holds_root(#[trigger] rs[i]) && parse_root(rs[i].0.payload)
                    == Ok::<RootView, crate::codec::CodecError>(r->0)
            &&& best is Some ==> r is Some && best->0.generation <= r->0.generation
            &&& forall|i: int|
                0 <= i < rs.len() && holds_root(#[trigger] rs[i]) ==> r is Some && parse_root(
                    rs[i].0.payload,
                )->Ok_0.generation <= r->0.generation
        }),
    decreases rs.len(),
{
    if rs.len() > 0 {
        let p = rs.drop_last();
        newest_root_is_latest(p, best);
        let q = newest_root_in(p, best);
        let r = newest_root_in(rs, best);
        assert forall|i: int| 0 <= i < rs.len() && holds_root(#[trigger] rs[i]) implies r is Some
            && parse_root(rs[i].0.payload)->Ok_0.generation <= r->0.generation by {
            if i < p.len() {
                assert(holds_root(p[i]));
            }
        }
        if r is Some && r != best {
            if r == q {
                let i = choose|i: int|
                    0 <= i < p.len() && holds_root(#[trigger] p[i]) && parse_root(p[i].0.payload)
                        == Ok::<RootView, crate::codec::CodecError>(q->0);
                assert(holds_root(rs[i]));
            } else {
                assert(holds_root(rs[rs.len() - 1]));
            }
        }
    }
}

/// No root record in any of the segments is of a higher generation than the newest.
pub proof fn newest_root_of_segments_is_latest(
    segments: Map<u64, Seq<u8>>,
    seqs: Seq<u64>,
    limit: nat,
    i: int,
    j: int,
)
    requires
        forall|k: int|
            0 <= k < seqs.len() ==> scan_of(file_of(segments, #[trigger] seqs[k]), limit) is Ok,
        0 <= i < seqs.len(),
        0 <= j < scan_of(file_of(segments, seqs[i]), limit)->Ok_0.0.len(),
        holds_root(scan_of(file_of(segments, seqs[i]), limit)->Ok_0.0[j]),
    ensures
        newest_over(segments, seqs, limit) matches Some(r) && parse_root(
            scan_of(file_of(segments, seqs[i]), limit)->Ok_0.0[j].0.payload,
        )->Ok_0.generation <= r.generation,
    decreases seqs.len(),
{
    let p = seqs.drop_last();
    assert(scan_of(file_of(segments, seqs[seqs.len() - 1]), limit) is Ok);
    let rs = scan_of(file_of(segments, seqs.last()), limit)->Ok_0.0;
    newest_root_is_latest(rs, newest_over(segments, p, limit));
    assert forall|k: int| 0 <= k < p.len() implies scan_of(
        file_of(segments, #[trigger] p[k]),
        limit,
    ) is Ok by {
        assert(p[k] == seqs[k]);
    }
    if i < p.len() {
        assert(p[i] == seqs[i]);
        newest_root_of_segments_is_latest(segments, p, limit, i, j);
    } else {
        assert(holds_root(rs[j]));
    }
}

/// No root record in any of the segment files is of a higher generation than the newest, and
/// a file that does not scan is an error.
pub proof fn newest_root_of_files_is_latest(
    segments: Seq<Vec<u8>>,
    limit: nat,
    i: int,
    j: int,
)
    requires
        0 <= i < segments.len(),
    ensures
        scan_of(segments[i]@, limit) is Err ==> newest_root_over(segments, limit) is Err,
        newest_root_over(segments, limit) is Ok && 0 <= j < scan_of(
            segments[i]@,
            limit,
        )->Ok_0.0.len() && holds_root(scan_of(segments[i]@, limit)->Ok_0.0[j])
            ==> newest_root_over(segments, limit)->Ok_0 is Some && parse_root(
            scan_of(segments[i]@, limit)->Ok_0.0[j].0.payload,
        )->Ok_0.generation <= newest_root_over(segments, limit)->Ok_0->0.generation,
    decreases segments.len(),
{
    let p = segments.drop_last();
    if i < p.len() {
        assert(p[i] == segments[i]);
        newest_root_of_files_is_latest(p, limit, i, j);
    }
    if newest_root_over(p, limit) is Ok && scan_of(segments.last()@, limit) is Ok {
        let rs = scan_of(segments.last()@, limit)->Ok_0.0;
        newest_root_is_latest(rs, newest_root_over(p, limit)->Ok_0);
        if i == p.len() && 0 <= j < rs.len() {
            assert(rs[j] == scan_of(segments[i]@, limit)->Ok_0.0[j]);
        }
    }
}

/// In the rebuilt index an object is found where the last record of its id lies, with that
/// record's segment, offset, lengths and tag; an object without a record in the segment is
/// found where it was.
#[verifier::rlimit(40)]
#[verifier::spinoff_prover]
pub proof fn last_record_is_indexed(
    ix: Seq<(Seq<u8>, Location)>,
    seq: u64,
    rs: Seq<(RecordView, nat)>,
    id: Seq<u8>,
)
    requires
        sorted(ix),
    ensures
        sorted(indexed(ix, seq, rs)),
        forall|i: int|
            0 <= i < rs.len() && (#[trigger] rs[i]).0.content_id == id && (forall|j: int|
                i < j < rs.len() ==> (#[trigger] rs[j]).0.content_id != id) ==> ({
                let l = lookup(indexed(ix, seq, rs), id);
                &&& l is Some
                &&& l->0.segment_seq == seq && l->0.offset == rs[i].1 as u64 && l->0.tag
                    == rs[i].0.tag
                &&& l->0.stored_len == rs[i].0.payload.len() as u64 && l->0.materialized_len
                    == rs[i].0.materialized_len
            }),
        (forall|i: int| 0 <= i < rs.len() ==> (#[trigger] rs[i]).0.content_id != id) ==> lookup(
            indexed(ix, seq, rs),
            id,
        ) == lookup(ix, id),
    decreases rs.len(),
{
    if rs.len() > 0 {
        let p = rs.drop_last();
        last_record_is_indexed(ix, seq, p, id);
        let before = indexed(ix, seq, p);
        let last = rs.last();
        lemma_lookup_upsert(before, last.0.content_id, place_of(seq, last), id);
        lemma_upsert_sorted(before, last.0.content_id, place_of(seq, last));
        assert(rs[rs.len() - 1] == last);
        assert forall|i: int|
            0 <= i < rs.len() && (#[trigger] rs[i]).0.content_id == id && (forall|j: int|
                i < j < rs.len() ==> (#[trigger] rs[j]).0.content_id != id) implies ({
            let l = lookup(indexed(ix, seq, rs), id);
            &&& l is Some
            &&& l->0.segment_seq == seq && l->0.offset == rs[i].1 as u64 && l->0.tag
                == rs[i].0.tag
            &&& l->0.stored_len == rs[i].0.payload.len() as u64 && l->0.materialized_len
                == rs[i].0.materialized_len
        }) by {
            if i < p.len() {
                assert(p[i] == rs[i]);
                assert(rs[rs.len() - 1].0.content_id != id);
                assert forall|j: int| i < j < p.len() implies (#[trigger] p[j]).0.content_id
                    != id by {
                    assert(p[j] == rs[j]);
                }
            }
        }
        if forall|i: int| 0 <= i < rs.len() ==> (#[trigger] rs[i]).0.content_id != id {
            assert forall|i: int| 0 <= i < p.len() implies (#[trigger] p[i]).0.content_id
                != id by {
                assert(p[i] == rs[i]);
            }
        }
    }
}

/// A later segment's record of an object hides an earlier one's: the index over the segments
/// is that over all but the last, with the records of the last on top.
pub proof fn later_segment_hides_earlier(
    segments: Map<u64, Seq<u8>>,
    seqs: Seq<u64>,
    limit: nat,
    last: u64,
    id: Seq<u8>,
)
    requires
        index_over(segments, seqs, limit) matches Some(ix) && sorted(ix),
        scan_of(file_of(segments, last), limit) is Ok,
    ensures
        ({
            let rs = scan_of(file_of(segments, last), limit)->Ok_0.0;
            let ix = index_over(segments, seqs.push(last), limit);
            &&& ix is Some && sorted(ix->0)
            &&& (forall|i: int| 0 <= i < rs.len() ==> (#[trigger] rs[i]).0.content_id != id)
                ==> lookup(ix->0, id) == lookup(index_over(segments, seqs, limit)->0, id)
            &&& (exists|i: int| 0 <= i < rs.len() && (#[trigger] rs[i]).0.content_id == id)
                ==> (lookup(ix->0, id) matches Some(l) && l.segment_seq == last)
        }),
{
    let rs = scan_of(file_of(segments, last), limit)->Ok_0.0;
    assert(seqs.push(last).drop_last() =~= seqs);
    last_record_is_indexed(index_over(segments, seqs, limit)->0, last, rs, id);
    if exists|i: int| 0 <= i < rs.len() && (#[trigger] rs[i]).0.content_id == id {
        let i = lemma_last_of(rs, id);
        assert(rs[i].0.content_id == id);
    }
}

proof fn lemma_last_of(rs: Seq<(RecordView, nat)>, id: Seq<u8>) -> (i: int)
    requires
        exists|i: int| 0 <= i < rs.len() && (#[trigger] rs[i]).0.content_id == id,
    ensures
        0 <= i < rs.len(),
        rs[i].0.content_id == id,
        forall|j: int| i < j < rs.len() ==> (#[trigger] rs[j]).0.content_id != id,
    decreases rs.len(),
{
    let n = rs.len() - 1;
    if rs[n].0.content_id == id {
        n
    } else {
        let p = rs.drop_last();
        let k = choose|k: int| 0 <= k < rs.len() && (#[trigger] rs[k]).0.content_id == id;
        assert(p[k].0.content_id == id);
        let i = lemma_last_of(p, id);
        assert forall|j: int| i < j < rs.len() implies (#[trigger] rs[j]).0.content_id != id by {
            if j < n {
                assert(p[j] == rs[j]);
            }
        }
        i
    }
}

/// The name of a segment file is its number in decimal, filled up with zeros to sixteen
/// digits, and the suffix.
pub proof fn segment_names(seq: u64)
    ensures
        ({
            let n = name_of(seq);
            let k = decimal(seq as nat).len();
            &&& n.len() == (if k < 16 {
                16
            } else {
                k
            }) + 4
            &&& n.subrange(n.len() - 4, n.len() as int) == seq![46u8, 115u8, 101u8, 103u8]
            &&& n.subrange(n.len() - 4 - k, n.len() - 4) == decimal(seq as nat)
            &&& forall|i: int| 0 <= i < n.len() - 4 - k ==> #[trigger] n[i] == 48
            &&& seq < 10 ==> decimal(seq as nat) == seq![(48 + seq) as u8]
            &&& seq >= 10 ==> decimal(seq as nat) == decimal((seq / 10) as nat).push(
                (48 + seq % 10) as u8,
            )
        }),
{
    let n = name_of(seq);
    let d = decimal(seq as nat);
    let k = d.len() as int;
    assert(n.subrange(n.len() - 4, n.len() as int) =~= seq![46u8, 115u8, 101u8, 103u8]);
    assert(n.subrange(n.len() - 4 - k, n.len() - 4) =~= d);
}

} // verus!
