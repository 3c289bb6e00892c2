//! Laws of what is counted and decided in small steps: the classes of records, the bytes they
//! sum up to, transfers in parts, the requests for slots, and the versions that a chunk is
//! encoded against.

use vstd::prelude::*;

use crate::compact::{compacted_root, copied, kept_entries, keeps_entry, reclaimed_bytes};
use crate::compose::{old_of, held_chunk, WriteOverlay};
use crate::gc::{dead_bytes, dead_tag_bytes, LiveMark};
use crate::object::Location;
use crate::physical::{class_bytes, class_of, explained, reconciled, total_bytes, IdSet,
    RecordClass, SegmentPhysical};
use crate::prepare::{base_of, dictionary_of, reuse_of, DictionarySource};
use crate::ratios::{counted_size, indexed_bytes, live_indexed_bytes, ratio_of};
use crate::readcost::{last_samples, ReadCostSample};
use crate::record::{record_size, RecordView, HEADER_SIZE};
use crate::root::RootView;
use crate::sorted::{has_key, lemma_rank, lookup, rank, sorted};
use crate::transfer::{step_of, Step};
use crate::version::RecordTag;
use crate::window::{chunk_of_write, Extent};
use crate::workers::{clamped, streak_after, Streak};

verus! {

/// A transfer that moves its bytes in two parts stands where it stands after moving them at
/// once.
pub proof fn parts_add_up(filled: usize, want: usize, a: i32, b: i32)
    requires
        filled <= want,
        a > 0,
        b > 0,
        a + b <= i32::MAX,
        filled + a < want,
    ensures
        step_of(filled, want, a) matches Step::Again { filled: f } && step_of(f, want, b)
            == step_of(filled, want, (a + b) as i32),
{
}

/// A transfer is done exactly when all its bytes are there, fails on an error with its
/// number, is stuck where it is not done and moved nothing, and goes on otherwise, with more
/// bytes than before and fewer than wanted.
pub proof fn transfer_stands(filled: usize, want: usize, result: i32)
    requires
        filled <= want,
        result > i32::MIN,
    ensures
        match step_of(filled, want, result) {
            Step::Failed { errno } => result < 0 && errno + result == 0,
            Step::Done => result >= 0 && filled + result >= want,
            Step::Stuck => result == 0 && filled < want,
            Step::Again { filled: f } => result > 0 && f == filled + result && filled < f < want,
        },
{
}

/// A request for slots is granted as it is where it is in range, and else at the nearer end
/// of the range.
pub proof fn requests_stay_in_range(want: usize, cap: usize)
    requires
        cap >= 1,
    ensures
        1 <= clamped(want, cap) <= cap,
        1 <= want <= cap ==> clamped(want, cap) == want,
        want > cap ==> clamped(want, cap) == cap,
        want == 0 ==> clamped(want, cap) == 1,
{
}

/// A record is live exactly where the index finds its object at this very place and the
/// object is reached; indexed and dead where it is found there and not reached; hidden where
/// the object is found elsewhere; and not indexed where it is not found at all.
pub proof fn classes_by_place(
    rec: (RecordView, nat),
    seq: u64,
    live: Seq<(Seq<u8>, ())>,
    index: Seq<(Seq<u8>, Location)>,
)
    ensures
        ({
            let id = rec.0.content_id;
            let here = lookup(index, id) matches Some(l) && l.segment_seq == seq && l.offset
                == rec.1;
            let c = class_of(rec, seq, live, index);
            &&& c is Live <==> here && lookup(live, id) is Some
            &&& c is DeadIndexed <==> here && lookup(live, id) is None
            &&& c is IndexHidden <==> !here && lookup(index, id) is Some
            &&& c is Unindexed <==> lookup(index, id) is None
        }),
{
}

/// The bytes that the index holds of a segment's object are those of its record.
pub proof fn counted_is_the_record(loc: Location, v: RecordView)
    requires
        loc.stored_len == v.payload.len(),
        record_size(v) <= u64::MAX,
    ensures
        counted_size(loc) == record_size(v),
{
}

/// The live and the other records of a segment make up all its record bytes.
pub proof fn ratio_counts_all_records(s: SegmentPhysical)
    requires
        explained(s) <= u64::MAX,
    ensures
        ratio_of(s).0 == s.seq,
        (ratio_of(s).1).0 == s.live_bytes,
        (ratio_of(s).1).1 == explained(s) - s.torn_bytes - s.zero_padding_bytes
            - s.format_overhead_bytes,
{
}

/// The bytes, header and payload, of the listed records that meet a condition.
pub open spec fn listed_bytes(index: Seq<(Seq<u8>, Location)>, f: spec_fn((Seq<u8>, Location)) -> bool) -> nat
    decreases index.len(),
{
    if index.len() == 0 {
        0
    } else {
        (if f(index[0]) {
            (HEADER_SIZE + index[0].1.stored_len) as nat
        } else {
            0
        }) + listed_bytes(index.drop_first(), f)
    }
}

proof fn lemma_listed_last(
    index: Seq<(Seq<u8>, Location)>,
    f: spec_fn((Seq<u8>, Location)) -> bool,
)
    requires
        index.len() > 0,
    ensures
        listed_bytes(index, f) == listed_bytes(index.drop_last(), f) + (if f(index.last()) {
            (HEADER_SIZE + index.last().1.stored_len) as nat
        } else {
            0
        }),
    decreases index.len(),
{
    let r = index.drop_first();
    let p = index.drop_last();
    if r.len() > 0 {
        lemma_listed_last(r, f);
        assert(p.drop_first() =~= r.drop_last());
        assert(p[0] == index[0]);
        assert(r.last() == index.last());
    } else {
        assert(listed_bytes(r, f) == 0 && listed_bytes(p, f) == 0);
        assert(index.last() == index[0]);
    }
}

/// The dead bytes are the bytes of the listed records, header and payload, whose objects are
/// not live; by tag, those of the tag.
pub proof fn dead_is_what_is_not_live(
    index: Seq<(Seq<u8>, Location)>,
    live: Set<Seq<u8>>,
    tag: RecordTag,
)
    ensures
        dead_bytes(index, live) == listed_bytes(
            index,
            |e: (Seq<u8>, Location)| !live.contains(e.0),
        ),
        dead_tag_bytes(index, live, tag) == listed_bytes(
            index,
            |e: (Seq<u8>, Location)| !live.contains(e.0) && e.1.tag == tag,
        ),
        dead_tag_bytes(index, live, tag) <= dead_bytes(index, live),
    decreases index.len(),
{
    let f = |e: (Seq<u8>, Location)| !live.contains(e.0);
    let t = |e: (Seq<u8>, Location)| !live.contains(e.0) && e.1.tag == tag;
    if index.len() > 0 {
        dead_is_what_is_not_live(index.drop_last(), live, tag);
        lemma_listed_last(index, f);
        lemma_listed_last(index, t);
    }
}

/// What a compaction frees are the bytes of the victims' listed records that it does not
/// copy.
pub proof fn freed_is_what_is_not_copied(
    index: Seq<(Seq<u8>, Location)>,
    victims: Seq<u64>,
    live: Set<Seq<u8>>,
    replaced: Set<Seq<u8>>,
)
    ensures
        reclaimed_bytes(index, victims, live, replaced) == listed_bytes(
            index,
            |e: (Seq<u8>, Location)|
                victims.contains(e.1.segment_seq) && !copied(e, victims, live, replaced),
        ),
    decreases index.len(),
{
    let f = |e: (Seq<u8>, Location)|
        victims.contains(e.1.segment_seq) && !copied(e, victims, live, replaced);
    if index.len() > 0 {
        freed_is_what_is_not_copied(index.drop_last(), victims, live, replaced);
        lemma_listed_last(index, f);
    }
}

/// The bytes of a segment's listed objects, and those of its live ones, up to the largest
/// number.
pub proof fn indexed_is_what_is_listed(
    s: Seq<(Seq<u8>, Location)>,
    live: IdSet,
    seq: u64,
)
    requires
        forall|i: int| 0 <= i < s.len() ==> HEADER_SIZE + (#[trigger] s[i]).1.stored_len <= u64::MAX,
    ensures
        ({
            let all = listed_bytes(s, |e: (Seq<u8>, Location)| e.1.segment_seq == seq);
            let some = listed_bytes(
                s,
                |e: (Seq<u8>, Location)| e.1.segment_seq == seq && has_key(live@, e.0),
            );
            &&& indexed_bytes(s, seq) == if all > u64::MAX {
                u64::MAX as nat
            } else {
                all
            }
            &&& live_indexed_bytes(s, live, seq) == if some > u64::MAX {
                u64::MAX as nat
            } else {
                some
            }
        }),
    decreases s.len(),
{
    let f = |e: (Seq<u8>, Location)| e.1.segment_seq == seq;
    let t = |e: (Seq<u8>, Location)| e.1.segment_seq == seq && has_key(live@, e.0);
    if s.len() > 0 {
        let p = s.drop_last();
        assert forall|i: int| 0 <= i < p.len() implies HEADER_SIZE + (#[trigger] p[i]).1.stored_len
            <= u64::MAX by {
            assert(p[i] == s[i]);
        }
        indexed_is_what_is_listed(p, live, seq);
        lemma_listed_last(s, f);
        lemma_listed_last(s, t);
        assert(HEADER_SIZE + s[s.len() - 1].1.stored_len <= u64::MAX);
    }
}

/// The old bytes of a chunk serve as its base only where the write changes it in part, the
/// batch has not changed it, and all its bytes are stored; the stored chunk only where the
/// write replaces it as a whole. Nothing is stored at or beyond the stored size.
pub proof fn base_is_stored(
    o: WriteOverlay,
    off: u64,
    offset: u64,
    end: u64,
    stored_size: u64,
    len: nat,
)
    ensures
        ({
            let b = base_of(o, off, offset, end, stored_size, len);
            let whole = offset <= off && off + o.class <= end;
            &&& stored_size <= off ==> b is Nothing
            &&& b is Stored <==> whole && off < stored_size
            &&& b is OldBytes <==> !whole && off < stored_size && off + len <= stored_size
                && held_chunk(o.chunks@, off) is None
        }),
{
}

/// A compaction publishes the root as it was, with the rebuilt chunk index and the next
/// generation and epoch: the namespace, the snapshots, the models and the log stay.
pub proof fn compaction_keeps_the_trees(root: RootView, index: Seq<u8>, segment_seq: u64)
    requires
        root.generation < u64::MAX,
        root.index_epoch < u64::MAX,
    ensures
        ({
            let r = compacted_root(root, index, segment_seq, root.generation);
            &&& r.inode_index_root == root.inode_index_root
            &&& r.snapshot_tree_root == root.snapshot_tree_root
            &&& r.model_index_root == root.model_index_root
            &&& r.root_dir_ino == root.root_dir_ino && r.uuid == root.uuid
            &&& r.log_seq == root.log_seq
            &&& r.format_major == root.format_major && r.format_minor == root.format_minor
            &&& r.chunk_index_root == index && r.segment_seq == segment_seq
            &&& r.generation == root.generation + 1 && r.index_epoch == root.index_epoch + 1
        }),
{
}

/// A rebuilt chunk index lists a chunk exactly where the old one did and the chunk is
/// referenced or its descriptor is that of a live extent, with the same descriptor.
pub proof fn kept_chunks_are_listed(m: LiveMark, s: Seq<(Seq<u8>, Seq<u8>)>, id: Seq<u8>)
    requires
        sorted(s),
    ensures
        sorted(kept_entries(m, s)),
        lookup(kept_entries(m, s), id) == match lookup(s, id) {
            Some(d) => if has_key(m.referenced@, id) || has_key(m.live_descriptors@, d) {
                Some(d)
            } else {
                None
            },
            None => None,
        },
{
    lemma_kept(m, s);
    let k = kept_entries(m, s);
    lemma_rank(s, id);
    lemma_rank(k, id);
    if has_key(k, id) {
        let e = k[rank(k, id)];
        assert(k.contains(e));
        let i = choose|i: int| 0 <= i < s.len() && s[i] == e;
        assert(s[i].0 == id);
    }
    if has_key(s, id) {
        let e = s[rank(s, id)];
        assert(s.contains(e));
        if keeps_entry(m, e) {
            assert(k.contains(e));
            let i = choose|i: int| 0 <= i < k.len() && k[i] == e;
            assert(k[i].0 == id);
        }
    }
}

#[verifier::rlimit(40)]
#[verifier::spinoff_prover]
proof fn lemma_kept(m: LiveMark, s: Seq<(Seq<u8>, Seq<u8>)>)
    requires
        sorted(s),
    ensures
        sorted(kept_entries(m, s)),
        forall|e: (Seq<u8>, Seq<u8>)| #[trigger]
            kept_entries(m, s).contains(e) <==> s.contains(e) && keeps_entry(m, e),
    decreases s.len(),
{
    if s.len() > 0 {
        let p = s.drop_last();
        assert forall|i: int, j: int| #![trigger p[i], p[j]] 0 <= i < j < p.len() implies crate::bytes::lex_lt(
            p[i].0,
            p[j].0,
        ) by {
            assert(p[i] == s[i] && p[j] == s[j]);
        }
        lemma_kept(m, p);
        let q = kept_entries(m, p);
        let k = kept_entries(m, s);
        assert forall|e: (Seq<u8>, Seq<u8>)| #[trigger] k.contains(e) <==> s.contains(e)
            && keeps_entry(m, e) by {
            if s.contains(e) {
                let i = choose|i: int| 0 <= i < s.len() && s[i] == e;
                if i < p.len() {
                    assert(p[i] == e);
                    assert(p.contains(e));
                }
            }
            if p.contains(e) {
                let i = choose|i: int| 0 <= i < p.len() && p[i] == e;
                assert(s[i] == e);
            }
            if q.contains(e) {
                let i = choose|i: int| 0 <= i < q.len() && q[i] == e;
                assert(k[i] == e);
            }
            if k.contains(e) {
                let i = choose|i: int| 0 <= i < k.len() && k[i] == e;
                if i < q.len() {
                    assert(q[i] == e);
                    assert(q.contains(e));
                } else {
                    assert(e == s.last());
                    assert(s[s.len() - 1] == e);
                }
            }
            if e == s.last() && keeps_entry(m, e) {
                assert(k[k.len() - 1] == e);
            }
        }
        if keeps_entry(m, s.last()) {
            assert forall|i: int, j: int| #![trigger k[i], k[j]] 0 <= i < j < k.len() implies crate::bytes::lex_lt(
                k[i].0,
                k[j].0,
            ) by {
                assert(k[i] == q[i]);
                assert(q.contains(q[i]));
                if j < q.len() {
                    assert(k[j] == q[j]);
                } else {
                    assert(p.contains(q[i]));
                    let x = choose|x: int| 0 <= x < p.len() && p[x] == q[i];
                    assert(s[x] == p[x] && s[s.len() - 1] == s.last());
                }
            }
        }
    }
}

/// A chunk is encoded exactly where the batch holds no descriptor for it. Where it holds one,
/// a reference takes its place only where that is shorter.
pub proof fn reuse_takes_the_shorter(
    s: Seq<(Seq<u8>, Vec<u8>)>,
    cid: Seq<u8>,
    alias_cost: Option<u64>,
)
    ensures
        reuse_of(s, cid, alias_cost) is Encode <==> lookup(s, cid) is None,
        reuse_of(s, cid, alias_cost) is Alias ==> alias_cost is Some && alias_cost->0 < lookup(
            s,
            cid,
        )->0@.len(),
        reuse_of(s, cid, alias_cost) is Canonical ==> (alias_cost matches Some(c) ==> lookup(
            s,
            cid,
        )->0@.len() <= c),
{
}

/// What lies behind the records of a segment file is counted once: as padding where it is all
/// zeros, and as torn where not; the records count each with its header.
pub proof fn tail_is_counted_once(
    s: SegmentPhysical,
    bytes: Seq<u8>,
    rs: Seq<(RecordView, nat)>,
    end: nat,
    seq: u64,
    live: Seq<(Seq<u8>, ())>,
    index: Seq<(Seq<u8>, Location)>,
)
    requires
        reconciled(s, bytes, rs, end, seq, live, index),
        end <= bytes.len(),
    ensures
        s.seq == seq,
        s.file_bytes == bytes.len(),
        s.torn_bytes + s.zero_padding_bytes == bytes.len() - end,
        s.torn_bytes > 0 ==> exists|i: int| end <= i < bytes.len() && #[trigger] bytes[i] != 0,
        s.zero_padding_bytes > 0 ==> forall|i: int|
            end <= i < bytes.len() ==> #[trigger] bytes[i] == 0,
{
    let t = bytes.skip(end as int);
    if s.torn_bytes > 0 {
        let k = choose|k: int| 0 <= k < t.len() && #[trigger] t[k] != 0;
        assert(bytes[end + k] != 0);
    }
    if s.zero_padding_bytes > 0 {
        assert forall|i: int| end <= i < bytes.len() implies #[trigger] bytes[i] == 0 by {
            assert(t[i - end] == bytes[i]);
        }
    }
}

/// Every record counts in its own class, with its header and its payload, and in no other.
pub proof fn record_counts_in_its_class(
    rs: Seq<(RecordView, nat)>,
    r: (RecordView, nat),
    class: RecordClass,
    seq: u64,
    live: Seq<(Seq<u8>, ())>,
    index: Seq<(Seq<u8>, Location)>,
)
    ensures
        class_bytes(rs.push(r), class, seq, live, index) == class_bytes(
            rs,
            class,
            seq,
            live,
            index,
        ) + (if class_of(r, seq, live, index) == class {
            58 + r.0.payload.len()
        } else {
            0
        }),
        total_bytes(rs.push(r)) == total_bytes(rs) + 58 + r.0.payload.len(),
{
    assert(rs.push(r).drop_last() =~= rs);
}

/// The dictionary of a chunk is the one right before it, as the batch made it where the batch
/// did; the first chunk has none.
pub proof fn dictionary_is_right_before(o: WriteOverlay, off: u64)
    requires
        o.class > 0,
    ensures
        match dictionary_of(o, off) {
            DictionarySource::Nothing => off < o.class,
            DictionarySource::Batch { offset } => offset + o.class == off && held_chunk(
                o.chunks@,
                offset,
            ) is Some,
            DictionarySource::Stored { offset } => offset + o.class == off && held_chunk(
                o.chunks@,
                offset,
            ) is None,
        },
{
}

/// A write asks for the old content of exactly those of its chunks that it needs some of and
/// that the batch does not hold.
#[verifier::rlimit(40)]
#[verifier::spinoff_prover]
pub proof fn needed_is_what_is_not_held(o: WriteOverlay, offset: u64, end: u64, n: nat, i: int)
    requires
        o.class > 0,
        0 <= i < n,
    ensures
        ({
            let c = chunk_of_write(
                o.class,
                ((offset / o.class + i) * o.class) as u64,
                offset,
                end,
                o.size,
            );
            c.read_len > 0 && held_chunk(o.chunks@, c.chunk_off) is None ==> o.needs(
                offset,
                end,
                n,
            ).contains((c.chunk_off, c.read_len))
        }),
        forall|x: (u64, u64)| #[trigger]
            o.needs(offset, end, n).contains(x) ==> x.1 > 0 && held_chunk(o.chunks@, x.0) is None,
    decreases n,
{
    let all = o.needs(offset, end, n);
    let rest = o.needs(offset, end, (n - 1) as nat);
    let m = n - 1;
    let d = chunk_of_write(
        o.class,
        ((offset / o.class + m) * o.class) as u64,
        offset,
        end,
        o.size,
    );
    if m > 0 {
        needed_is_what_is_not_held(o, offset, end, (n - 1) as nat, if i < m { i } else { 0 });
    } else {
        assert(rest.len() == 0);
    }
    let c = chunk_of_write(
        o.class,
        ((offset / o.class + i) * o.class) as u64,
        offset,
        end,
        o.size,
    );
    if c.read_len > 0 && held_chunk(o.chunks@, c.chunk_off) is None {
        if i < m {
            let j = choose|j: int| 0 <= j < rest.len() && rest[j] == (c.chunk_off, c.read_len);
            assert(all[j] == rest[j]);
        } else {
            assert(all[all.len() - 1] == (c.chunk_off, c.read_len));
        }
    }
    assert forall|x: (u64, u64)| #[trigger] all.contains(x) implies x.1 > 0 && held_chunk(
        o.chunks@,
        x.0,
    ) is None by {
        let j = choose|j: int| 0 <= j < all.len() && all[j] == x;
        if j < rest.len() {
            assert(rest[j] == x);
            assert(rest.contains(x));
        }
    }
}

/// The ring holds the newest samples of a stream, in the order in which they came: the last one
/// last, and as many as there were or as it takes.
pub proof fn ring_holds_the_newest(stream: Seq<ReadCostSample>, n: nat, i: int)
    requires
        0 <= i < last_samples(stream, n).len(),
    ensures
        last_samples(stream, n).len() == if stream.len() < n {
            stream.len()
        } else {
            n
        },
        last_samples(stream, n)[i] == stream[stream.len() - last_samples(stream, n).len() + i],
{
}

/// A worker's run of picks counts how often it picked the same request in a row.
pub proof fn streak_counts_runs(s: Streak, a: u64, b: u64)
    requires
        a != b,
    ensures
        streak_after(s, a).last == Some(a),
        s.last != Some(a) ==> streak_after(s, a).consecutive == 1,
        s.last == Some(a) && s.consecutive < usize::MAX ==> streak_after(s, a).consecutive
            == s.consecutive + 1,
        streak_after(streak_after(s, a), b).consecutive == 1,
{
}

/// A chunk is composed over what the batch made of it, else over what was read of it, else
/// over nothing.
pub proof fn composed_over_the_latest(chunks: Seq<Extent>, reads: Seq<Extent>, off: u64)
    ensures
        held_chunk(chunks, off) matches Some(b) ==> old_of(chunks, reads, off) == b,
        held_chunk(chunks, off) is None ==> (held_chunk(reads, off) matches Some(b) ==> old_of(
            chunks,
            reads,
            off,
        ) == b),
        held_chunk(chunks, off) is None && held_chunk(reads, off) is None ==> old_of(
            chunks,
            reads,
            off,
        ).len() == 0,
{
}

} // verus!
