//! Compaction: live records of victim segments are copied to a fresh one, the
//! chunk index is rebuilt from reachability, a new root is published, and only
//! then are the victims deleted.

use vstd::prelude::*;

use crate::bytes::{copy_bytes, lex_lt};
use crate::chunk::{digest, zero_id, ChunkId};
use crate::epoch::{lemma_at, lemma_erase_at};
use crate::error::StoreError;
use crate::fs::{tree_ok, BTREE_ORDER};
use crate::gc::{broken, ground, list_roots, mark_live_full, markable, marked, roots_of, snapshots_of,
    LiveMark};
use crate::index::{self, pair_views, EntryPair, ObjectProvider};
use crate::index_batch::bulk_load;
use crate::io::{file_of, IoBackend};
use crate::journal::{checkpoint_failed, idle, lemma_begun, lemma_slot_held, merged, slot_held};
use crate::map::SortedMap;
use crate::node::leaf_encodable;
use crate::object::{Location, ObjectIndex};
use crate::physical::{saturated, IdSet};
use crate::reach::{id_set, insert_id, out_of, place_views, reachable, walk_from, walked, MarkKind,
    Place};
use crate::record::{RecordView, HEADER_SIZE};
use crate::sorted::{lemma_rank, lookup, rank, sorted};
use crate::commit::{lemma_flushed_disk, root_record, same_files, slot_written, superblock_of, Space};
use crate::descriptor::{steady, Descriptor};
use crate::root::{root_bytes, Root, RootView};
use crate::snapshot::parse_snapshot;
use crate::place::{laid_down, laid_out, lemma_laid_join, lens_of, open_end, view_lens, views_of};
use crate::store::{backed, crowded, digest_found, full_ahead, index_placed, inside_records, keeps_backed, laid_id,
    laid_with, lemma_no_place, moved_on, objects_after, payloads_of, rolled_over, same_ahead, same_behind,
    same_state, spot_of, traced, Store};
use crate::transaction::{committed, index_sound, object_at, CrashHooks, CrashPoint, Pending,
    PendingRecord};
use crate::tree::{clash_free, lists, max_height};
use crate::version::RecordTag;

verus! {

// ---------------------------------------------------------------------------
// Dropping segments
// ---------------------------------------------------------------------------

/// The index without what lies in the segments.
pub open spec fn pruned(
    was: Seq<(Seq<u8>, Location)>,
    now: Seq<(Seq<u8>, Location)>,
    gone: Seq<u64>,
) -> bool {
    &&& sorted(now)
    &&& forall|k: Seq<u8>| #[trigger]
        lookup(now, k) == match lookup(was, k) {
            Some(l) => if gone.contains(l.segment_seq) {
                None
            } else {
                Some(l)
            },
            None => None,
        }
}

/// Whether the segment is among the numbers.
fn among(seqs: &Vec<u64>, s: u64) -> (r: bool)
    ensures
        r == seqs@.contains(s),
{
    let mut i: usize = 0;
    while i < seqs.len()
        invariant
            i <= seqs@.len(),
            forall|j: int| 0 <= j < i ==> seqs@[j] != s,
        decreases seqs@.len() - i,
    {
        if seqs[i] == s {
            return true;
        }
        i += 1;
    }
    false
}

/// Every binding of the one is a binding of the other.
proof fn lemma_sub_index(was: Seq<(Seq<u8>, Location)>, now: Seq<(Seq<u8>, Location)>, i: int) -> (j:
    int)
    requires
        sorted(was),
        sorted(now),
        0 <= i < now.len(),
        forall|k: Seq<u8>| (#[trigger] lookup(now, k)) is Some ==> lookup(now, k) == lookup(was, k),
    ensures
        0 <= j < was.len(),
        was[j] == now[i],
{
    lemma_at(now, i);
    let k = now[i].0;
    assert(lookup(now, k) == Some(now[i].1));
    lemma_rank(was, k);
    rank(was, k)
}

impl<B: IoBackend> Store<B> {
    /// Drop what lies in the segments from the index.
    #[verifier::rlimit(30)]
    #[verifier::spinoff_prover]
    fn prune(&mut self, gone: &Vec<u64>)
        requires
            old(self).flushed(),
            !gone@.contains(old(self).segment.seq_of()),
        ensures
            same_state(*old(self), *final(self)),
            final(self).flushed(),
            final(self).io == old(self).io,
            final(self).segment == old(self).segment,
            final(self).laid == old(self).laid,
            final(self).seen == old(self).seen,
            pruned(old(self).index@, final(self).index@, gone@),
            forall|x: Seq<u8>| #[trigger]
                old(self).objects().contains(x) ==> (lookup(
                    old(self).index@,
                    digest(x),
                ) matches Some(l) && (gone@.contains(l.segment_seq) || final(self).objects().contains(x))),
            final(self).objects().subset_of(old(self).objects()),
    {
        let ghost was = *self;
        let ghost w = self.index@;
        let all = self.index.iter();
        let mut i: usize = 0;
        proof {
            assert forall|j: int| 0 <= j < w.len() implies lookup(w, (#[trigger] w[j]).0) == Some(
                w[j].1,
            ) by {
                lemma_at(w, j);
            }
        }
        while i < all.len()
            invariant
                i <= all@.len(),
                all@.len() == w.len(),
                forall|j: int|
                    0 <= j < all@.len() ==> (#[trigger] all@[j]).0@ == w[j].0 && all@[j].1
                        == w[j].1,
                sorted(w),
                w == was.index@,
                was == *old(self),
                self.index.wf(),
                *self == (Store { index: self.index, ..was }),
                forall|j: int| 0 <= j < w.len() ==> (#[trigger] w[j]).0.len() == 32,
                forall|j: int|
                    0 <= j < w.len() ==> lookup(self.index@, (#[trigger] w[j]).0) == if j < i
                        && gone@.contains(w[j].1.segment_seq) {
                        None
                    } else {
                        Some(w[j].1)
                    },
                forall|k: Seq<u8>|
                    (#[trigger] lookup(self.index@, k)) is Some ==> lookup(w, k) is Some,
            decreases all@.len() - i,
        {
            let ghost had = self.index@;
            if among(gone, all[i].1.segment_seq) {
                let id = ChunkId::from_slice(&all[i].0);
                let _ = self.index.remove(&id);
                proof {
                    let key = w[i as int].0;
                    lemma_erase_at(had, key);
                    assert forall|j: int| 0 <= j < w.len() implies lookup(
                        self.index@,
                        (#[trigger] w[j]).0,
                    ) == if j < i + 1 && gone@.contains(w[j].1.segment_seq) {
                        None
                    } else {
                        Some(w[j].1)
                    } by {
                        lemma_at(w, j);
                        lemma_at(w, i as int);
                        if w[j].0 == key {
                            lemma_rank(w, key);
                            assert(j == i);
                        }
                    }
                    assert forall|k: Seq<u8>| (#[trigger] lookup(self.index@, k)) is Some implies lookup(
                        w,
                        k,
                    ) is Some by {
                        assert(lookup(had, k) is Some);
                    }
                }
            }
            i += 1;
        }
        proof {
            let n = self.index@;
            assert forall|k: Seq<u8>| #[trigger] lookup(n, k) == (match lookup(w, k) {
                Some(l) => if gone@.contains(l.segment_seq) {
                    None
                } else {
                    Some(l)
                },
                None => None,
            }) by {
                if lookup(w, k) is Some {
                    lemma_rank(w, k);
                    let j = rank(w, k);
                    assert(w[j].0 == k);
                }
            }
            assert(pruned(w, n, gone@));
            lemma_pruned(was.disk(), was.laid@, was.seen@, w, n, gone@);
            self.given@ = committed(was.disk(), n);
            assert(self.disk() == was.disk());
            assert forall|x: Seq<u8>| #[trigger] self.given@.contains(x) implies digest_found(
                self.objects(),
                x,
            ) by {}
        }
    }
}

/// What a pruned index is worth.
proof fn lemma_pruned(
    disk: Map<u64, Seq<u8>>,
    laid: Map<u64, Seq<RecordView>>,
    seen: Set<Seq<u8>>,
    was: Seq<(Seq<u8>, Location)>,
    now: Seq<(Seq<u8>, Location)>,
    gone: Seq<u64>,
)
    requires
        index_sound(disk, was),
        index_placed(laid, was),
        traced(laid, was, seen),
        pruned(was, now, gone),
    ensures
        index_sound(disk, now),
        index_placed(laid, now),
        traced(laid, now, seen),
        committed(disk, now).subset_of(committed(disk, was)),
        forall|i: int|
            0 <= i < now.len() ==> !gone.contains((#[trigger] now[i]).1.segment_seq),
        forall|x: Seq<u8>| #[trigger]
            committed(disk, was).contains(x) ==> (lookup(was, digest(x)) matches Some(l) && (
            gone.contains(l.segment_seq) || committed(disk, now).contains(x))),
{
    assert forall|i: int| 0 <= i < now.len() implies (object_at(
        disk,
        (#[trigger] now[i]).1,
    ) matches Some(b) && digest(b) == now[i].0) && inside_records(laid, now[i].1)
        && !gone.contains(now[i].1.segment_seq) by {
        let j = lemma_sub_index(was, now, i);
        assert(object_at(disk, was[j].1) is Some);
        assert(inside_records(laid, was[j].1));
        lemma_at(now, i);
        lemma_at(was, j);
    }
    assert(traced(laid, now, seen)) by {
        reveal(traced);
        assert forall|i: int| 0 <= i < now.len() implies laid_id(
            laid,
            (#[trigger] now[i]).1.segment_seq,
            now[i].0,
        ) by {
            let j = lemma_sub_index(was, now, i);
            assert(laid_id(laid, was[j].1.segment_seq, was[j].0));
        }
    }
    assert forall|x: Seq<u8>| #[trigger] committed(disk, now).contains(x) implies committed(
        disk,
        was,
    ).contains(x) by {
        let i = choose|i: int|
            0 <= i < now.len() && object_at(disk, (#[trigger] now[i]).1) == Some(x);
        let j = lemma_sub_index(was, now, i);
        assert(object_at(disk, was[j].1) == Some(x));
    }
    assert forall|x: Seq<u8>| #[trigger] committed(disk, was).contains(x) implies (lookup(
        was,
        digest(x),
    ) matches Some(l) && (gone.contains(l.segment_seq) || committed(disk, now).contains(x))) by {
        let j = choose|j: int|
            0 <= j < was.len() && object_at(disk, (#[trigger] was[j]).1) == Some(x);
        lemma_at(was, j);
        assert(was[j].0 == digest(x));
        if !gone.contains(was[j].1.segment_seq) {
            assert(lookup(now, digest(x)) == Some(was[j].1));
            lemma_rank(now, digest(x));
            let i = rank(now, digest(x));
            assert(object_at(disk, now[i].1) == Some(x));
        }
    }
}

/// The records of the segments but those of some.
pub open spec fn without(
    laid: Map<u64, Seq<RecordView>>,
    gone: Seq<u64>,
) -> Map<u64, Seq<RecordView>> {
    Map::new(|s: u64| laid.contains_key(s) && !gone.contains(s), |s: u64| laid[s])
}

proof fn lemma_without_more(laid: Map<u64, Seq<RecordView>>, gone: Seq<u64>, i: int)
    requires
        0 <= i < gone.len(),
    ensures
        without(laid, gone.take(i)).remove(gone[i]) == without(laid, gone.take(i + 1)),
{
    let had = gone.take(i);
    let more = gone.take(i + 1);
    assert forall|s: u64| #[trigger] more.contains(s) == (had.contains(s) || s == gone[i]) by {
        if had.contains(s) {
            let j = choose|j: int| 0 <= j < had.len() && had[j] == s;
            assert(more[j] == s);
        }
        assert(more[i] == gone[i]);
        if more.contains(s) && s != gone[i] {
            let j = choose|j: int| 0 <= j < more.len() && more[j] == s;
            assert(had[j] == s);
        }
    }
    assert(without(laid, gone.take(i)).remove(gone[i]) =~= without(laid, gone.take(i + 1)));
}

impl<B: IoBackend> Store<B> {
    /// Delete a segment in which nothing indexed lies.
    #[verifier::rlimit(40)]
    fn delete_one(&mut self, seq: u64) -> (r: Result<(), StoreError>)
        requires
            old(self).flushed(),
            seq != old(self).segment.seq_of(),
            forall|i: int|
                0 <= i < old(self).index@.len() ==> (#[trigger] old(self).index@[i]).1.segment_seq
                    != seq,
        ensures
            same_state(*old(self), *final(self)),
            final(self).index == old(self).index,
            final(self).segment == old(self).segment,
            final(self).seen == old(self).seen,
            match r {
                Ok(_) => {
                    &&& final(self).flushed()
                    &&& final(self).io.segments() == old(self).io.segments().remove(seq)
                    &&& final(self).objects() == old(self).objects()
                    &&& final(self).laid@ == old(self).laid@.remove(seq)
                    &&& final(self).io.synced() == old(self).io.synced()
                    &&& keeps_backed(*old(self), *final(self))
                },
                Err(_) => !old(self).io.reliable(),
            },
    {
        let ghost was = *self;
        proof {
            crate::commit::lemma_flushed_disk(was);
        }
        match self.io.delete_segment(seq) {
            Ok(_) => {},
            Err(e) => return Err(e),
        }
        proof {
            self.laid@ = self.laid@.remove(seq);
            let cur = self.segment.seq_of();
            reveal(backed);
            let d0 = was.io.segments();
            let d1 = self.io.segments();
            crate::store::lemma_dom(was);
            assert(crate::io::file_of(d1, cur) == crate::io::file_of(d0, cur));
            assert(crate::io::file_of(d1, cur) + self.segment.buffered() =~= crate::io::file_of(
                d1,
                cur,
            ));
            assert(self.disk() =~= d1);
            let laid = self.laid@;
            assert(d1.dom() =~= laid.dom());
            assert forall|s: u64| #[trigger] laid.contains_key(s) implies crate::store::file_laid(
                d1[s],
                laid[s],
            ) by {
                assert(was.laid@.contains_key(s));
            }
            assert forall|i: int| 0 <= i < self.index@.len() implies object_at(
                d1,
                (#[trigger] self.index@[i]).1,
            ) == object_at(d0, self.index@[i].1) && inside_records(laid, self.index@[i].1) by {
                assert(was.index@[i].1.segment_seq != seq);
                assert(inside_records(was.laid@, was.index@[i].1));
            }
            crate::store::lemma_sound_moves(d0, d1, self.index@);
            assert(traced(laid, self.index@, self.seen@)) by {
                reveal(traced);
                reveal(laid_id);
                assert forall|i: int| 0 <= i < self.index@.len() implies laid_id(
                    laid,
                    (#[trigger] self.index@[i]).1.segment_seq,
                    self.index@[i].0,
                ) by {
                    let s = was.index@[i].1.segment_seq;
                    assert(s != seq);
                    assert(laid_id(was.laid@, s, was.index@[i].0));
                    let j = choose|j: int|
                        0 <= j < was.laid@[s].len() && (#[trigger] was.laid@[s][j]).content_id
                            == was.index@[i].0;
                    assert(laid[s][j] == was.laid@[s][j]);
                }
                assert forall|s: u64, j: int|
                    #![trigger laid[s][j]]
                    laid.contains_key(s) && 0 <= j < laid[s].len() implies self.seen@.contains(
                    laid[s][j].payload,
                ) by {
                    assert(was.laid@[s][j] == laid[s][j]);
                }
            }
        }
        Ok(())
    }

    /// Drop segments: what lies in them leaves the index, and the files are
    /// deleted.
    #[verifier::rlimit(40)]
    pub fn drop_segments(&mut self, gone: &Vec<u64>) -> (r: Result<(), StoreError>)
        requires
            old(self).flushed(),
            !gone@.contains(old(self).segment.seq_of()),
        ensures
            same_state(*old(self), *final(self)),
            match r {
                Ok(_) => {
                    &&& final(self).flushed()
                    &&& pruned(old(self).index@, final(self).index@, gone@)
                    &&& forall|s: u64| #[trigger]
                        gone@.contains(s) ==> !final(self).io.segments().contains_key(s)
                    &&& forall|x: Seq<u8>| #[trigger]
                        old(self).objects().contains(x) ==> (lookup(
                            old(self).index@,
                            digest(x),
                        ) matches Some(l) && (gone@.contains(l.segment_seq) || final(self).objects().contains(x)))
                    &&& final(self).objects().subset_of(old(self).objects())
                    &&& final(self).laid@ == without(old(self).laid@, gone@)
                    &&& final(self).io.synced() == old(self).io.synced()
                    &&& keeps_backed(*old(self), *final(self))
                    &&& final(self).segment == old(self).segment
                },
                Err(_) => !old(self).io.reliable(),
            },
    {
        let ghost was = *self;
        assert(without(was.laid@, gone@.take(0)) =~= was.laid@);
        self.prune(gone);
        let ghost mid = *self;
        proof {
            lemma_pruned(
                was.disk(),
                was.laid@,
                was.seen@,
                was.index@,
                self.index@,
                gone@,
            );
        }
        let mut i: usize = 0;
        while i < gone.len()
            invariant
                i <= gone@.len(),
                was == *old(self),
                same_state(was, *self),
                self.flushed(),
                self.index == mid.index,
                self.segment == mid.segment,
                self.objects() == mid.objects(),
                self.laid@ == without(was.laid@, gone@.take(i as int)),
                self.io.synced() == was.io.synced(),
                keeps_backed(was, *self),
                self.segment == was.segment,
                !gone@.contains(self.segment.seq_of()),
                forall|j: int|
                    0 <= j < self.index@.len() ==> !gone@.contains(
                        (#[trigger] self.index@[j]).1.segment_seq,
                    ),
                forall|j: int|
                    0 <= j < i ==> !self.io.segments().contains_key(#[trigger] gone@[j]),
            decreases gone@.len() - i,
        {
            let ghost before = *self;
            proof {
                assert(gone@.contains(gone@[i as int]));
                assert forall|j: int| 0 <= j < self.index@.len() implies (
                #[trigger] self.index@[j]).1.segment_seq != gone@[i as int] by {}
            }
            match self.delete_one(gone[i]) {
                Ok(_) => {},
                Err(e) => return Err(e),
            }
            proof {
                lemma_without_more(was.laid@, gone@, i as int);
            }
            i += 1;
        }
        assert(gone@.take(i as int) =~= gone@);
        Ok(())
    }
}

// ---------------------------------------------------------------------------
// The rebuilt chunk index
// ---------------------------------------------------------------------------

/// An entry of the chunk index that is kept: its chunk is referenced, or its
/// descriptor is that of a live extent.
pub open spec fn keeps_entry(m: LiveMark, e: (Seq<u8>, Seq<u8>)) -> bool {
    id_set(m.referenced).contains(e.0) || id_set(m.live_descriptors).contains(e.1)
}

/// The kept entries of the chunk index.
pub open spec fn kept_entries(m: LiveMark, s: Seq<(Seq<u8>, Seq<u8>)>) -> Seq<(Seq<u8>, Seq<u8>)>
    decreases s.len(),
{
    if s.len() == 0 {
        Seq::empty()
    } else if keeps_entry(m, s.last()) {
        kept_entries(m, s.drop_last()).push(s.last())
    } else {
        kept_entries(m, s.drop_last())
    }
}

/// What is kept of a sorted index is sorted.
proof fn lemma_kept_sorted(m: LiveMark, s: Seq<(Seq<u8>, Seq<u8>)>)
    requires
        sorted(s),
    ensures
        sorted(kept_entries(m, s)),
        forall|i: int|
            0 <= i < kept_entries(m, s).len() ==> s.contains(#[trigger] kept_entries(m, s)[i]),
    decreases s.len(),
{
    if s.len() > 0 {
        let p = s.drop_last();
        assert(sorted(p)) by {
            assert forall|x: int, y: int| #![trigger p[x], p[y]] 0 <= x < y < p.len() implies lex_lt(
                p[x].0,
                p[y].0,
            ) by {
                assert(p[x] == s[x] && p[y] == s[y]);
            }
        }
        lemma_kept_sorted(m, p);
        let k = kept_entries(m, p);
        let out = kept_entries(m, s);
        assert forall|x: int, y: int| #![trigger out[x], out[y]] 0 <= x < y < out.len() implies lex_lt(
            out[x].0,
            out[y].0,
        ) by {
            if y < k.len() {
                assert(out[x] == k[x] && out[y] == k[y]);
            } else {
                assert(out[x] == k[x]);
                assert(p.contains(k[x]));
                let q = choose|q: int| 0 <= q < p.len() && p[q] == k[x];
                assert(s[q] == k[x]);
                assert(s[s.len() - 1] == out[y]);
            }
        }
        assert forall|i: int| 0 <= i < out.len() implies s.contains(#[trigger] out[i]) by {
            if i < k.len() {
                assert(p.contains(k[i]));
                let q = choose|q: int| 0 <= q < p.len() && p[q] == k[i];
                assert(s[q] == out[i]);
            } else {
                assert(s[s.len() - 1] == out[i]);
            }
        }
    }
}

fn filter_entries(m: &LiveMark, all: &Vec<EntryPair>) -> (r: Result<Vec<EntryPair>, StoreError>)
    requires
        m.referenced.wf(),
        m.live_descriptors.wf(),
    ensures
        match r {
            Ok(v) => pair_views(v@) == kept_entries(*m, pair_views(all@)) && leaf_encodable(
                pair_views(v@),
            ),
            Err(_) => exists|i: int|
                0 <= i < all@.len() && ((#[trigger] all@[i]).0@.len() != 32 || all@[i].1@.len()
                    > u32::MAX),
        },
{
    let ghost s = pair_views(all@);
    let mut out: Vec<EntryPair> = Vec::new();
    let mut i: usize = 0;
    assert(s.take(0) =~= Seq::empty());
    assert(pair_views(out@) =~= Seq::empty());
    while i < all.len()
        invariant
            i <= all@.len(),
            s == pair_views(all@),
            m.referenced.wf(),
            m.live_descriptors.wf(),
            pair_views(out@) == kept_entries(*m, s.take(i as int)),
            leaf_encodable(pair_views(out@)),
        decreases all@.len() - i,
    {
        proof {
            assert(s.take(i + 1).drop_last() =~= s.take(i as int));
            assert(s.take(i + 1).last() == s[i as int]);
        }
        if all[i].0.len() != 32 || all[i].1.len() > 0xffff_ffff {
            assert(all@[i as int].0@.len() != 32 || all@[i as int].1@.len() > u32::MAX);
            return Err(StoreError::Invariant("chunk index entry out of form".to_string()));
        }
        if m.referenced.contains(&all[i].0) || m.live_descriptors.contains(&all[i].1) {
            let ghost had = pair_views(out@);
            out.push((copy_bytes(&all[i].0), copy_bytes(&all[i].1)));
            assert(pair_views(out@) =~= had.push(s[i as int]));
        }
        i += 1;
    }
    assert(s.take(i as int) =~= s);
    Ok(out)
}

/// The nodes of a rebuilt chunk index, staged for append.
pub struct RebuiltIndex {
    /// The root of the new tree; zero for an empty index.
    pub root: ChunkId,
    /// A record for every node of the new tree.
    pub records: Vec<PendingRecord>,
    /// The payloads of the nodes.
    pub payloads: Ghost<Set<Seq<u8>>>,
}

/// The staged nodes are the new tree: it lists the kept entries.
pub open spec fn rebuilt<B: IoBackend>(st: Store<B>, m: LiveMark, r: RebuiltIndex) -> bool {
    &&& forall|b: Seq<u8>| #[trigger]
        r.payloads@.contains(b) ==> crate::transaction::recorded(r.records@, digest(b))
    &&& forall|i: int|
        0 <= i < r.records@.len() ==> r.payloads@.contains((#[trigger] r.records@[i]).payload@)
    &&& forall|h: nat| #[trigger]
        st.chunks_ok(h) && clash_free(st.objects()) && clash_free(r.payloads@)
            && st.chunks().len() <= usize::MAX ==> lists(
            r.payloads@,
            r.root@,
            BTREE_ORDER,
            st.config.max_fanout,
            65,
            kept_entries(m, st.chunks()),
        )
}

/// The chunk index cannot be rebuilt: the transport failed, the tree is too tall, a key
/// is no content id, or the tree order is above the fanout limit.
pub open spec fn unreadable<B: IoBackend>(st: Store<B>) -> bool {
    forall|h: nat| #[trigger]
        st.chunks_ok(h) && clash_free(st.objects()) && st.chunks().len() <= usize::MAX
            && BTREE_ORDER <= st.config.max_fanout ==> !st.io.reliable() || h > max_height()
            || exists|i: int| 0 <= i < st.chunks().len() && (#[trigger] st.chunks()[i]).0.len() != 32
}

impl<B: IoBackend> Store<B> {
    /// Rebuild the chunk index from reachability: the descriptors of live extents
    /// and those on their reference chains. Every node of the new tree is staged,
    /// once.
    pub fn rebuild_chunk_index(&self, m: &LiveMark) -> (r: Result<RebuiltIndex, StoreError>)
        requires
            self.flushed(),
            m.referenced.wf(),
            m.live_descriptors.wf(),
        ensures
            match r {
                Ok(o) => rebuilt(*self, *m, o),
                Err(_) => unreadable(*self),
            },
    {
        let tx = self.begin_tx();
        proof {
            lemma_begun(*self, tx);
        }
        let all = match index::scan_all(
            self.root.chunk_index_root,
            BTREE_ORDER,
            self.config.max_fanout,
            &tx.objects,
        ) {
            Ok(v) => v,
            Err(e) => {
                proof {
                    assert forall|h: nat| #[trigger] self.chunks_ok(h) && clash_free(
                        self.objects(),
                    ) && self.chunks().len() <= usize::MAX implies !self.io.reliable() || h
                        > max_height() by {
                        assert(tree_ok(
                            tx.objects.payloads(),
                            self.root@.chunk_index_root,
                            self.config.max_fanout,
                            h,
                        ));
                    }
                }
                return Err(StoreError::index(e));
            },
        };
        proof {
            assert forall|h: nat| #[trigger] self.chunks_ok(h) && clash_free(self.objects())
                && self.chunks().len() <= usize::MAX implies pair_views(all@) == self.chunks() by {
                assert(tree_ok(
                    tx.objects.payloads(),
                    self.root@.chunk_index_root,
                    self.config.max_fanout,
                    h,
                ));
            }
        }
        let kept = match filter_entries(m, &all) {
            Ok(v) => v,
            Err(e) => {
                proof {
                    let i = choose|i: int|
                        0 <= i < all@.len() && ((#[trigger] all@[i]).0@.len() != 32
                            || all@[i].1@.len() > u32::MAX);
                    assert forall|h: nat| #[trigger] self.chunks_ok(h) && clash_free(
                        self.objects(),
                    ) && self.chunks().len() <= usize::MAX implies exists|j: int|
                        0 <= j < self.chunks().len() && (#[trigger] self.chunks()[j]).0.len() != 32 by {
                        crate::fs::lemma_tree_encodable(
                            self.objects(),
                            self.root@.chunk_index_root,
                            self.config.max_fanout,
                            h,
                        );
                        assert(self.chunks()[i] == (all@[i].0@, all@[i].1@));
                    }
                }
                return Err(e);
            },
        };
        let nothing = ObjectIndex::new();
        let mut pending = Pending::over(&self.io, &nothing);
        let ghost p0 = pending;
        let root = match bulk_load(
            kept.as_slice(),
            BTREE_ORDER,
            self.config.max_fanout,
            &mut pending,
        ) {
            Ok(id) => id,
            Err(e) => return Err(StoreError::index(e)),
        };
        let ghost p1 = pending;
        let ghost payloads = pending.payloads();
        let records = pending.records;
        let out = RebuiltIndex { root, records, payloads: Ghost(payloads) };
        proof {
            assert(committed(self.io.segments(), nothing@) =~= Set::empty());
            crate::transaction::lemma_covered(p1);
            assert forall|b: Seq<u8>| #[trigger]
                payloads.contains(b) implies crate::transaction::recorded(
                records@,
                digest(b),
            ) by {
                assert(!crate::transaction::digest_in(p1.ground(), digest(b)));
            }
            assert forall|h: nat| #[trigger] self.chunks_ok(h) && clash_free(self.objects())
                && clash_free(payloads) && self.chunks().len() <= usize::MAX implies lists(
                payloads,
                root@,
                BTREE_ORDER,
                self.config.max_fanout,
                65,
                kept_entries(*m, self.chunks()),
            ) by {
                assert(tree_ok(
                    tx.objects.payloads(),
                    self.root@.chunk_index_root,
                    self.config.max_fanout,
                    h,
                ));
                assert(pair_views(all@) == self.chunks());
                crate::fs::lemma_tree_sorted(
                    self.objects(),
                    self.root@.chunk_index_root,
                    self.config.max_fanout,
                    h,
                );
                lemma_kept_sorted(*m, self.chunks());
            }
        }
        Ok(out)
    }
}

// ---------------------------------------------------------------------------
// Copying
// ---------------------------------------------------------------------------

/// An indexed object that is copied: it lies in a victim, is live, and is not
/// replaced.
pub open spec fn copied(
    e: (Seq<u8>, Location),
    victims: Seq<u64>,
    live: Set<Seq<u8>>,
    replaced: Set<Seq<u8>>,
) -> bool {
    victims.contains(e.1.segment_seq) && live.contains(e.0) && !replaced.contains(e.0)
}

/// In the order of their places.
pub open spec fn by_place(v: Seq<Location>) -> bool {
    forall|i: int, j: int|
        #![trigger v[i], v[j]]
        0 <= i < j < v.len() ==> place_le(v[i], v[j])
}

pub open spec fn place_le(a: Location, b: Location) -> bool {
    a.segment_seq < b.segment_seq || (a.segment_seq == b.segment_seq && a.offset <= b.offset)
}

fn insert_place(v: &mut Vec<Location>, loc: Location)
    requires
        by_place(old(v)@),
    ensures
        by_place(final(v)@),
        final(v)@.len() == old(v)@.len() + 1,
        forall|l: Location| #[trigger]
            final(v)@.contains(l) <==> old(v)@.contains(l) || l == loc,
{
    let ghost was = v@;
    let mut at: usize = v.len();
    while at > 0 && !(v[at - 1].segment_seq < loc.segment_seq || (v[at - 1].segment_seq
        == loc.segment_seq && v[at - 1].offset <= loc.offset))
        invariant
            at <= v@.len(),
            v@ == was,
            by_place(was),
            forall|j: int| at <= j < was.len() ==> place_le(loc, #[trigger] was[j]),
        decreases at,
    {
        at = at - 1;
    }
    v.insert(at, loc);
    proof {
        let n = v@;
        assert(n =~= was.insert(at as int, loc));
        assert forall|i: int, j: int|
            #![trigger n[i], n[j]]
            0 <= i < j < n.len() implies place_le(n[i], n[j]) by {
            let a = if i < at { i } else { i - 1 };
            let b = if j < at { j } else { j - 1 };
            if i != at && j != at {
                assert(n[i] == was[a] && n[j] == was[b]);
            } else if j == at {
                assert(n[i] == was[i]);
                assert(place_le(was[at - 1], loc));
                if i < at - 1 {
                    assert(place_le(was[i], was[at - 1]));
                }
            } else {
                assert(n[j] == was[j - 1]);
            }
        }
        assert forall|l: Location| #[trigger] n.contains(l) <==> was.contains(l) || l == loc by {
            if was.contains(l) {
                let k = choose|k: int| 0 <= k < was.len() && was[k] == l;
                if k < at {
                    assert(n[k] == l);
                } else {
                    assert(n[k + 1] == l);
                }
            }
            assert(n[at as int] == loc);
            if n.contains(l) {
                let k = choose|k: int| 0 <= k < n.len() && n[k] == l;
                if k < at {
                    assert(was[k] == l);
                } else if k > at {
                    assert(was[k - 1] == l);
                }
            }
        }
    }
}

impl<B: IoBackend> Store<B> {
    /// The places of the objects to copy, in order.
    fn plan_copies(&self, victims: &Vec<u64>, live: &IdSet, replaced: &IdSet) -> (r: Vec<Location>)
        requires
            live.wf(),
            replaced.wf(),
        ensures
            by_place(r@),
            r@.len() <= self.index@.len(),
            forall|i: int|
                0 <= i < self.index@.len() && copied(
                    #[trigger] self.index@[i],
                    victims@,
                    id_set(*live),
                    id_set(*replaced),
                ) ==> r@.contains(self.index@[i].1),
            forall|l: Location| #[trigger]
                r@.contains(l) ==> exists|i: int|
                    0 <= i < self.index@.len() && copied(
                        #[trigger] self.index@[i],
                        victims@,
                        id_set(*live),
                        id_set(*replaced),
                    ) && self.index@[i].1 == l,
    {
        let mut out: Vec<Location> = Vec::new();
        let mut i: usize = 0;
        let ghost ix = self.index@;
        let ghost lv = id_set(*live);
        let ghost rp = id_set(*replaced);
        while i < self.index.len()
            invariant
                i <= self.index@.len(),
                ix == self.index@,
                lv == id_set(*live),
                rp == id_set(*replaced),
                live.wf(),
                replaced.wf(),
                by_place(out@),
                out@.len() <= i,
                forall|j: int|
                    0 <= j < i && copied(#[trigger] ix[j], victims@, lv, rp) ==> out@.contains(
                        ix[j].1,
                    ),
                forall|l: Location| #[trigger]
                    out@.contains(l) ==> exists|j: int|
                        0 <= j < i && copied(#[trigger] ix[j], victims@, lv, rp) && ix[j].1 == l,
            decreases self.index@.len() - i,
        {
            let (id, loc) = self.index.entry(i);
            let ghost had = out@;
            if among(victims, loc.segment_seq) && live.contains(id) && !replaced.contains(id) {
                insert_place(&mut out, *loc);
                assert(copied(ix[i as int], victims@, lv, rp));
            }
            proof {
                assert forall|l: Location| #[trigger] out@.contains(l) implies exists|j: int|
                    0 <= j < i + 1 && copied(#[trigger] ix[j], victims@, lv, rp) && ix[j].1 == l by {
                    if had.contains(l) {
                        let j = choose|j: int|
                            0 <= j < i && copied(#[trigger] ix[j], victims@, lv, rp) && ix[j].1
                                == l;
                        assert(ix[j].1 == l);
                    }
                }
            }
            i += 1;
        }
        out
    }

    /// The records of the objects at these places.
    fn copy_records(&self, places: &Vec<Location>) -> (r: Result<Vec<PendingRecord>, StoreError>)
        requires
            self.flushed(),
        ensures
            match r {
                Ok(v) => {
                    &&& v@.len() == places@.len()
                    &&& forall|i: int|
                        0 <= i < v@.len() ==> object_at(self.io.segments(), #[trigger] places@[i])
                            == Some(v@[i].payload@) && v@[i].tag == places@[i].tag
                            && v@[i].materialized_len == places@[i].materialized_len
                },
                Err(_) => self.io.reliable() ==> exists|i: int|
                    0 <= i < places@.len() && object_at(
                        self.io.segments(),
                        #[trigger] places@[i],
                    ) is None,
            },
    {
        let mut out: Vec<PendingRecord> = Vec::new();
        let mut i: usize = 0;
        while i < places.len()
            invariant
                i <= places@.len(),
                out@.len() == i,
                forall|j: int|
                    0 <= j < i ==> object_at(self.io.segments(), #[trigger] places@[j]) == Some(
                        out@[j].payload@,
                    ) && out@[j].tag == places@[j].tag && out@[j].materialized_len
                        == places@[j].materialized_len,
            decreases places@.len() - i,
        {
            match self.read_payload_at(&places[i]) {
                Ok(payload) => {
                    out.push(
                        PendingRecord {
                            tag: places[i].tag,
                            payload,
                            materialized_len: places[i].materialized_len,
                        },
                    );
                },
                Err(e) => {
                    proof {
                        if self.io.reliable() {
                            assert(object_at(self.io.segments(), places@[i as int]) is None);
                        }
                    }
                    return Err(e);
                },
            }
            i += 1;
        }
        Ok(out)
    }
}

// ---------------------------------------------------------------------------
// Compaction
// ---------------------------------------------------------------------------

/// The bytes of the victims' indexed records that are not copied.
pub open spec fn reclaimed_bytes(
    index: Seq<(Seq<u8>, Location)>,
    victims: Seq<u64>,
    live: Set<Seq<u8>>,
    replaced: Set<Seq<u8>>,
) -> nat
    decreases index.len(),
{
    if index.len() == 0 {
        0
    } else {
        let rest = reclaimed_bytes(index.drop_last(), victims, live, replaced);
        let e = index.last();
        if victims.contains(e.1.segment_seq) && (!live.contains(e.0) || replaced.contains(e.0)) {
            rest + HEADER_SIZE as nat + e.1.stored_len as nat
        } else {
            rest
        }
    }
}

/// The record bytes that dropping the victims frees, by the index.
pub fn reclaimable_bytes(index: &ObjectIndex, victims: &Vec<u64>, live: &IdSet, replaced: &IdSet) -> (r:
    u64)
    requires
        live.wf(),
        replaced.wf(),
    ensures
        r == saturated(
            reclaimed_bytes(index@, victims@, id_set(*live), id_set(*replaced)),
        ),
{
    let ghost s = index@;
    let mut total: u64 = 0;
    let mut i: usize = 0;
    assert(s.take(0) =~= Seq::empty());
    while i < index.len()
        invariant
            i <= index@.len(),
            s == index@,
            live.wf(),
            replaced.wf(),
            total == saturated(
                reclaimed_bytes(s.take(i as int), victims@, id_set(*live), id_set(*replaced)),
            ),
        decreases index@.len() - i,
    {
        let (id, loc) = index.entry(i);
        proof {
            assert(s.take(i + 1).drop_last() =~= s.take(i as int));
            assert(s.take(i + 1).last() == s[i as int]);
        }
        if among(victims, loc.segment_seq) && (!live.contains(id) || replaced.contains(id)) {
            total = total.saturating_add(HEADER_SIZE.saturating_add(loc.stored_len));
        }
        i += 1;
    }
    assert(s.take(i as int) =~= s);
    total
}

/// The root that a compaction publishes.
pub open spec fn compacted_root(
    root: RootView,
    chunk_index_root: Seq<u8>,
    segment_seq: u64,
    generation: u64,
) -> RootView {
    RootView {
        chunk_index_root,
        segment_seq,
        index_epoch: if root.index_epoch == u64::MAX {
            u64::MAX
        } else {
            (root.index_epoch + 1) as u64
        },
        generation: (generation + 1) as u64,
        ..root
    }
}

/// An object that a compaction keeps: it is indexed outside the victims, or is
/// copied.
pub open spec fn survives(
    index: Seq<(Seq<u8>, Location)>,
    gone: Seq<u64>,
    live: Set<Seq<u8>>,
    replaced: Set<Seq<u8>>,
    id: Seq<u8>,
) -> bool {
    lookup(index, id) matches Some(l) && (!gone.contains(l.segment_seq) || (live.contains(id)
        && !replaced.contains(id)))
}

/// The store is compacted: victims are gone, what survives can be read, the new
/// root is published and its chunk index is the rebuilt one.
pub open spec fn compacted<B: IoBackend>(
    a: Store<B>,
    b: Store<B>,
    tree: RebuiltIndex,
    gone: Seq<u64>,
    live: Set<Seq<u8>>,
    replaced: Set<Seq<u8>>,
) -> bool {
    &&& b.flushed()
    &&& b.config == a.config && b.epoch == a.epoch && b.features_in_use == a.features_in_use
    &&& a.generation < u64::MAX && b.generation == a.generation + 1
    &&& b.root@ == compacted_root(a.root@, tree.root@, b.root@.segment_seq, a.generation)
    &&& b.superblock@ == superblock_of(
        a.superblock@,
        b.root@,
        digest(root_bytes(b.root@)),
        a.features_in_use,
    )
    &&& forall|s: u64| #[trigger] gone.contains(s) ==> !b.io.segments().contains_key(s)
    &&& forall|x: Seq<u8>| #[trigger]
        a.objects().contains(x) && survives(a.index@, gone, live, replaced, digest(x))
            ==> digest_found(b.objects(), x)
    &&& forall|x: Seq<u8>| #[trigger] tree.payloads@.contains(x) ==> digest_found(b.objects(), x)
    &&& digest_found(b.objects(), root_bytes(b.root@))
    &&& keeps_backed(a, b)
    &&& slot_held(b.io.superblock(), b.superblock@)
    &&& b.io.synced().superblock == b.io.superblock()
    &&& exists|places: Seq<Location>, copies: Seq<PendingRecord>| #[trigger]
        copies_of(a, gone, live, replaced, places, copies) && b.laid@ == without(
            rewritten(
                a,
                views_of(tree.records@) + views_of(copies) + seq![root_record(b.root@)],
            ),
            gone,
        )
}

/// Copies of the objects at these places: those that the victims hold, are live and are not
/// replaced, in the order of their places, each under its tag and with its length.
#[verifier::opaque]
pub open spec fn copies_of<B: IoBackend>(
    a: Store<B>,
    gone: Seq<u64>,
    live: Set<Seq<u8>>,
    replaced: Set<Seq<u8>>,
    places: Seq<Location>,
    copies: Seq<PendingRecord>,
) -> bool {
    &&& by_place(places)
    &&& forall|i: int|
        0 <= i < a.index@.len() && copied(#[trigger] a.index@[i], gone, live, replaced)
            ==> places.contains(a.index@[i].1)
    &&& forall|l: Location| #[trigger]
        places.contains(l) ==> exists|i: int|
            0 <= i < a.index@.len() && copied(#[trigger] a.index@[i], gone, live, replaced)
                && a.index@[i].1 == l
    &&& copies.len() == places.len()
    &&& forall|i: int|
        0 <= i < copies.len() ==> object_at(a.io.segments(), #[trigger] places[i]) == Some(
            copies[i].payload@,
        ) && copies[i].tag == places[i].tag && copies[i].materialized_len
            == places[i].materialized_len
}

/// The records of the segments once further ones are laid down from the segment behind the
/// current one on.
#[verifier::opaque]
pub open spec fn rewritten<B: IoBackend>(a: Store<B>, rs: Seq<RecordView>) -> Map<
    u64,
    Seq<RecordView>,
> {
    let next = (a.segment.seq_of() + 1) as u64;
    laid_down(
        laid_with(a.laid@, next),
        a.io.segments(),
        a.config.segment_size,
        (next, open_end(file_of(a.io.segments(), next))),
        rs,
    )
}

/// Nothing that was stored is gone: the files up to the segment that was current are as
/// they were, and every object is found.
#[verifier::opaque]
pub open spec fn all_kept<B: IoBackend>(a: Store<B>, b: Store<B>) -> bool {
    &&& forall|s: u64|
        s <= a.segment.seq_of() && #[trigger] a.io.segments().contains_key(s)
            ==> b.io.segments().contains_key(s) && b.io.segments()[s] == a.io.segments()[s]
    &&& forall|x: Seq<u8>| #[trigger] a.objects().contains(x) ==> digest_found(b.objects(), x)
}

/// A compaction that a simulated crash stopped: nothing is gone. The superblock file is as
/// it was where the slot is not written yet, and names the new root where it is; at the
/// last points it is durable.
#[verifier::opaque]
pub open spec fn compact_crashed<B: IoBackend>(a: Store<B>, b: Store<B>, p: CrashPoint) -> bool {
    &&& b.flushed()
    &&& all_kept(a, b)
    &&& keeps_backed(a, b)
    &&& b.io.synced().names == b.io.segments().dom()
    &&& if p == CrashPoint::AfterRootWrite {
        b.io.superblock() == a.io.superblock() && b.superblock == a.superblock
    } else {
        &&& slot_written(a.io.superblock(), b.io.superblock(), b.superblock@)
        &&& b.superblock@.generation == a.generation + 1
        &&& exists|x: Seq<u8>| #[trigger]
            b.objects().contains(x) && digest(x) == b.superblock@.root_object_id
    }
    &&& p == CrashPoint::AfterSuperblockFsync || p == CrashPoint::BeforeOldSegmentDelete
        ==> b.io.synced().superblock == b.io.superblock()
}

/// The victims that may be deleted: those up to the segment that was current.
fn deletable(victims: &Vec<u64>, last: u64) -> (r: Vec<u64>)
    ensures
        forall|s: u64| #[trigger] r@.contains(s) == (victims@.contains(s) && s <= last),
{
    let mut out: Vec<u64> = Vec::new();
    let mut i: usize = 0;
    while i < victims.len()
        invariant
            i <= victims@.len(),
            forall|s: u64| #[trigger]
                out@.contains(s) == (s <= last && exists|j: int|
                    0 <= j < i && #[trigger] victims@[j] == s),
        decreases victims@.len() - i,
    {
        let ghost had = out@;
        if victims[i] <= last {
            out.push(victims[i]);
        }
        proof {
            assert forall|s: u64| #[trigger] out@.contains(s) == (s <= last && exists|j: int|
                0 <= j < i + 1 && #[trigger] victims@[j] == s) by {
                if had.contains(s) {
                    let j = choose|j: int| 0 <= j < i && #[trigger] victims@[j] == s;
                    assert(victims@[j] == s);
                    let q = choose|q: int| 0 <= q < had.len() && had[q] == s;
                    assert(out@[q] == s);
                }
                if victims@[i as int] == s && s <= last {
                    assert(out@[had.len() as int] == s);
                }
                if out@.contains(s) && !had.contains(s) {
                    let q = choose|q: int| 0 <= q < out@.len() && out@[q] == s;
                    if q < had.len() {
                        assert(had[q] == s);
                    }
                    assert(victims@[i as int] == s);
                }
            }
        }
        i += 1;
    }
    proof {
        assert forall|s: u64| #[trigger] out@.contains(s) == (victims@.contains(s) && s <= last) by {
            if victims@.contains(s) {
                let j = choose|j: int| 0 <= j < victims@.len() && victims@[j] == s;
                assert(victims@[j] == s);
            }
        }
    }
    out
}

/// A crash point of a compaction.
pub open spec fn compact_point(p: CrashPoint) -> bool {
    p == CrashPoint::AfterRootWrite || p == CrashPoint::AfterSuperblockWrite || p
        == CrashPoint::AfterSuperblockFsync || p == CrashPoint::BeforeOldSegmentDelete
}

/// Why a compaction failed: the transport did, the generations end, there is no place for
/// what it appends, or a crash is simulated.
pub open spec fn compact_failed<B: IoBackend>(
    a: Store<B>,
    b: Store<B>,
    e: StoreError,
    tree: RebuiltIndex,
    hooks: CrashHooks,
) -> bool {
    let n = tree.records@.len() + a.index@.len() + 2;
    ||| !a.io.reliable()
    ||| a.generation == u64::MAX && e is Limit && b == a
    ||| e is Limit && b.wf() && {
        ||| crowded(a, tree.records@, n)
        ||| exists|x: Seq<u8>| #[trigger] a.objects().contains(x) && x.len() > u32::MAX
    }
    ||| e is CrashSimulated && (hooks.armed matches Some(p) && compact_point(p)
        && compact_crashed(a, b, p))
}

impl<B: IoBackend> Store<B> {
    /// Append what a compaction writes: the rebuilt index, the copies, the root.
    #[verifier::rlimit(30)]
    #[verifier::spinoff_prover]
    fn write_compacted(
        &mut self,
        nodes: &Vec<PendingRecord>,
        copies: &Vec<PendingRecord>,
        chunk_index_root: ChunkId,
    ) -> (r: Result<Root, StoreError>)
        requires
            old(self).flushed(),
            old(self).generation < u64::MAX,
        ensures
            same_state(*old(self), *final(self)),
            match r {
                Ok(root) => final(self).flushed() && written_out(
                    *old(self),
                    *final(self),
                    nodes@,
                    copies@,
                    chunk_index_root@,
                    root@,
                ),
                Err(e) => {
                    ||| !old(self).io.reliable()
                    ||| e is Limit && final(self).wf() && {
                        ||| crowded(
                            *old(self),
                            nodes@,
                            nodes@.len() + copies@.len() + 2,
                        )
                        ||| crowded(
                            *old(self),
                            copies@,
                            nodes@.len() + copies@.len() + 2,
                        )
                    }
                },
            },
    {
        let ghost was = *self;
        match self.start_segment() {
            Ok(_) => {},
            Err(e) => return Err(e),
        }
        let ghost s0 = *self;
        match self.add_records(nodes) {
            Ok(_) => {},
            Err(e) => {
                proof {
                    lemma_crowded_on(was, s0, nodes@, nodes@.len() + copies@.len() + 2);
                }
                return Err(e);
            },
        }
        let ghost s1 = *self;
        match self.add_records(copies) {
            Ok(_) => {},
            Err(e) => {
                proof {
                    lemma_crowded_later(was, s0, s1, nodes@, copies@, nodes@.len() + copies@.len() + 2);
                }
                return Err(e);
            },
        }
        let ghost s2 = *self;
        let mut root = self.root;
        root.chunk_index_root = chunk_index_root;
        root.segment_seq = self.segment.seq();
        root.index_epoch = root.index_epoch.saturating_add(1);
        root.generation = self.generation + 1;
        let mut last: Vec<PendingRecord> = Vec::new();
        last.push(
            PendingRecord { tag: RecordTag::Root, payload: root.encode(), materialized_len: None },
        );
        assert(payloads_of(last@) =~= seq![root_bytes(root@)]);
        match self.add_records(&last) {
            Ok(_) => {},
            Err(e) => {
                proof {
                    assert(last@[0].payload@.len() == 188);
                    lemma_crowded_last(was, s0, s1, s2, nodes@, copies@, last@);
                }
                return Err(e);
            },
        }
        let ghost s3 = *self;
        match self.fdatasync_segment() {
            Ok(_) => {},
            Err(e) => return Err(e),
        }
        proof {
            assert(views_of(last@) =~= seq![root_record(root@)]);
            lemma_compacted_files(was, s0, s1, s2, s3, *self, nodes@, copies@, last@);
            assert(last@[0].payload@ == root_bytes(root@));
            reveal(written_out);
        }
        Ok(root)
    }

    /// Close the current segment and go on in the next.
    fn start_segment(&mut self) -> (r: Result<(), StoreError>)
        requires
            old(self).flushed(),
        ensures
            same_state(*old(self), *final(self)),
            match r {
                Ok(_) => final(self).wf() && started(*old(self), *final(self)),
                Err(e) => {
                    ||| !old(self).io.reliable()
                    ||| e is Limit && old(self).segment.seq_of() == u64::MAX && final(self).wf()
                },
            },
    {
        proof {
            reveal(started);
        }
        self.roll()
    }

    /// Append records.
    fn add_records(&mut self, records: &Vec<PendingRecord>) -> (r: Result<(), StoreError>)
        requires
            old(self).wf(),
        ensures
            same_state(*old(self), *final(self)),
            match r {
                Ok(_) => final(self).wf() && added(*old(self), *final(self), records@),
                Err(e) => {
                    ||| !old(self).io.reliable()
                    ||| e is Limit && final(self).wf() && crowded(
                        *old(self),
                        records@,
                        records@.len(),
                    )
                },
            },
    {
        let ghost was = *self;
        let r = self.append_records(records);
        proof {
            reveal(added);
            if r is Err && was.io.reliable() {
                lemma_no_place(was, records@);
            }
        }
        r
    }

    /// Publish a compaction: the superblock names the new root and is synced.
    #[verifier::rlimit(30)]
    #[verifier::spinoff_prover]
    fn publish_compacted(&mut self, root: &Root, hooks: &CrashHooks) -> (r: Result<(), StoreError>)
        requires
            old(self).flushed(),
            root.generation == old(self).generation + 1,
            digest_found(old(self).objects(), root_bytes(root@)),
        ensures
            final(self).io.reliable() == old(self).io.reliable() || r is Err,
            match r {
                Ok(_) => final(self).flushed() && flipped(*old(self), *final(self), *root),
                Err(e) => !old(self).io.reliable() || e is CrashSimulated && (
                hooks.armed matches Some(p) && compact_point(p) && compact_crashed(
                    *old(self),
                    *final(self),
                    p,
                )),
            },
    {
        let ghost was = *self;
        match self.sync_segments_dir() {
            Ok(_) => {},
            Err(e) => return Err(e),
        }
        match hooks.hit(CrashPoint::AfterRootWrite) {
            Ok(_) => {},
            Err(e) => {
                proof {
                    lemma_at_point(was, *self, root@, CrashPoint::AfterRootWrite);
                }
                return Err(e);
            },
        }
        let root_id = root.id();
        match self.write_superblock(root_id, root) {
            Ok(_) => {},
            Err(e) => return Err(e),
        }
        match hooks.hit(CrashPoint::AfterSuperblockWrite) {
            Ok(_) => {},
            Err(e) => {
                proof {
                    lemma_at_point(was, *self, root@, CrashPoint::AfterSuperblockWrite);
                }
                return Err(e);
            },
        }
        match self.fsync_superblock() {
            Ok(_) => {},
            Err(e) => return Err(e),
        }
        match hooks.hit(CrashPoint::AfterSuperblockFsync) {
            Ok(_) => {},
            Err(e) => {
                proof {
                    lemma_at_point(was, *self, root@, CrashPoint::AfterSuperblockFsync);
                }
                return Err(e);
            },
        }
        self.publish_commit(root);
        proof {
            assert(self.disk() == was.disk());
            lemma_slot_held(was.io.superblock(), self.io.superblock(), self.superblock@);
            reveal(flipped);
        }
        match hooks.hit(CrashPoint::BeforeOldSegmentDelete) {
            Ok(_) => Ok(()),
            Err(e) => {
                proof {
                    lemma_at_point(was, *self, root@, CrashPoint::BeforeOldSegmentDelete);
                }
                Err(e)
            },
        }
    }

    /// Copies of what is live in the victims and not replaced, and their places.
    fn gather_copies(&self, gone: &Vec<u64>, live: &IdSet, replaced: &IdSet) -> (r: Result<
        (Vec<PendingRecord>, Ghost<Seq<Location>>),
        StoreError,
    >)
        requires
            self.flushed(),
            live.wf(),
            replaced.wf(),
        ensures
            match r {
                Ok(o) => copies_of(
                    *self,
                    gone@,
                    id_set(*live),
                    id_set(*replaced),
                    o.1@,
                    o.0@,
                ) && o.0@.len() <= self.index@.len(),
                Err(_) => !self.io.reliable(),
            },
    {
        proof {
            lemma_flushed_disk(*self);
        }
        let places = self.plan_copies(gone, live, replaced);
        match self.copy_records(&places) {
            Ok(v) => {
                proof {
                    reveal(copies_of);
                }
                Ok((v, Ghost(places@)))
            },
            Err(e) => {
                proof {
                    if self.io.reliable() {
                        let i = choose|i: int|
                            0 <= i < places@.len() && object_at(
                                self.io.segments(),
                                #[trigger] places@[i],
                            ) is None;
                        assert(places@.contains(places@[i]));
                    }
                }
                Err(e)
            },
        }
    }

    /// Drop the victims.
    fn drop_victims(&mut self, gone: &Vec<u64>) -> (r: Result<(), StoreError>)
        requires
            old(self).flushed(),
            !gone@.contains(old(self).segment.seq_of()),
        ensures
            match r {
                Ok(_) => final(self).flushed() && victims_gone(*old(self), *final(self), gone@),
                Err(_) => !old(self).io.reliable(),
            },
    {
        proof {
            reveal(victims_gone);
        }
        self.drop_segments(gone)
    }

    /// Compact the victims: rebuilt index, copies of what is live and not replaced,
    /// a new root; the victims are deleted once it is durable. Returns the bytes
    /// that the index counts as freed.
    #[verifier::rlimit(30)]
    #[verifier::spinoff_prover]
    pub fn compact(
        &mut self,
        tree: &RebuiltIndex,
        live: &IdSet,
        replaced: &IdSet,
        victims: &Vec<u64>,
        hooks: &CrashHooks,
    ) -> (r: Result<u64, StoreError>)
        requires
            old(self).flushed(),
            live.wf(),
            replaced.wf(),
            forall|b: Seq<u8>| #[trigger]
                tree.payloads@.contains(b) ==> crate::transaction::recorded(
                    tree.records@,
                    digest(b),
                ),
        ensures
            match r {
                Ok(n) => {
                    &&& n == saturated(
                        reclaimed_bytes(
                            old(self).index@,
                            victims@,
                            id_set(*live),
                            id_set(*replaced),
                        ),
                    )
                    &&& exists|gone: Seq<u64>| #[trigger]
                        compacted(
                            *old(self),
                            *final(self),
                            *tree,
                            gone,
                            id_set(*live),
                            id_set(*replaced),
                        ) && forall|s: u64| #[trigger]
                            gone.contains(s) == (victims@.contains(s) && s <= old(self).segment.seq_of())
                },
                Err(e) => compact_failed(*old(self), *final(self), e, *tree, *hooks),
            },
    {
        let ghost was = *self;
        proof {
            lemma_flushed_disk(was);
        }
        if self.generation == u64::MAX {
            return Err(StoreError::Limit("no generation left".to_string()));
        }
        let freed: u64 = reclaimable_bytes(&self.index, victims, live, replaced);
        let gone = deletable(victims, self.segment.seq());
        let (copies, places) = match self.gather_copies(&gone, live, replaced) {
            Ok(v) => v,
            Err(e) => return Err(e),
        };
        let root = match self.write_compacted(&tree.records, &copies, tree.root) {
            Ok(v) => v,
            Err(e) => {
                proof {
                    lemma_long_copy(
                        was,
                        gone@,
                        id_set(*live),
                        id_set(*replaced),
                        places@,
                        copies@,
                    );
                }
                return Err(e);
            },
        };
        let ghost s1 = *self;
        proof {
            lemma_written_out(was, s1, tree.records@, copies@, tree.root@, root@);
        }
        match self.publish_compacted(&root, hooks) {
            Ok(_) => {},
            Err(e) => {
                proof {
                    if was.io.reliable() {
                        lemma_crashed(was, s1, *self, hooks.armed->0);
                    }
                }
                return Err(e);
            },
        }
        let ghost s2 = *self;
        proof {
            lemma_flipped_segment(s1, s2, root);
        }
        match self.drop_victims(&gone) {
            Ok(_) => {},
            Err(e) => return Err(e),
        }
        proof {
            lemma_compacted(
                was,
                s1,
                s2,
                *self,
                *tree,
                gone@,
                id_set(*live),
                id_set(*replaced),
                places@,
                copies@,
                root,
            );
        }
        Ok(freed)
    }
}

/// A compaction has written its records and its root.
#[verifier::opaque]
spec fn written_out<B: IoBackend>(
    a: Store<B>,
    b: Store<B>,
    nodes: Seq<PendingRecord>,
    copies: Seq<PendingRecord>,
    chunk_index_root: Seq<u8>,
    root: RootView,
) -> bool {
    let floor = (a.segment.seq_of() + 1) as u64;
    &&& a.segment.seq_of() < u64::MAX
    &&& b.segment.seq_of() >= floor
    &&& root == compacted_root(a.root@, chunk_index_root, root.segment_seq, a.generation)
    &&& moved_on(
        a.index@,
        b.index@,
        payloads_of(nodes) + payloads_of(copies) + seq![root_bytes(root)],
        floor,
    )
    &&& b.laid@ == rewritten(a, views_of(nodes) + views_of(copies) + seq![root_record(root)])
    &&& keeps_backed(a, b)
    &&& all_kept(a, b)
    &&& digest_found(b.objects(), root_bytes(root))
}

/// The superblock names the new root, and is durable.
#[verifier::opaque]
spec fn flipped<B: IoBackend>(a: Store<B>, b: Store<B>, root: Root) -> bool {
    &&& keeps_backed(a, b)
    &&& slot_held(b.io.superblock(), b.superblock@)
    &&& b.io.synced().superblock == b.io.superblock()
    &&& same_files(a, b)
    &&& b.features_in_use == a.features_in_use
    &&& b.root == root
    &&& b.generation == root.generation
    &&& b.superblock@ == superblock_of(
        a.superblock@,
        root@,
        digest(root_bytes(root@)),
        a.features_in_use,
    )
}

/// The victims are gone, and what is indexed in them.
#[verifier::opaque]
spec fn victims_gone<B: IoBackend>(a: Store<B>, b: Store<B>, gone: Seq<u64>) -> bool {
    &&& same_state(a, b)
    &&& pruned(a.index@, b.index@, gone)
    &&& forall|s: u64| #[trigger] gone.contains(s) ==> !b.io.segments().contains_key(s)
    &&& b.laid@ == without(a.laid@, gone)
    &&& b.io.synced() == a.io.synced()
    &&& keeps_backed(a, b)
}

proof fn lemma_written_out<B: IoBackend>(
    a: Store<B>,
    b: Store<B>,
    nodes: Seq<PendingRecord>,
    copies: Seq<PendingRecord>,
    chunk_index_root: Seq<u8>,
    root: RootView,
)
    requires
        written_out(a, b, nodes, copies, chunk_index_root, root),
        a.generation < u64::MAX,
    ensures
        a.segment.seq_of() < b.segment.seq_of(),
        root.generation == a.generation + 1,
        keeps_backed(a, b),
        all_kept(a, b),
        digest_found(b.objects(), root_bytes(root)),
{
    reveal(written_out);
}

proof fn lemma_flipped_segment<B: IoBackend>(a: Store<B>, b: Store<B>, root: Root)
    requires
        flipped(a, b, root),
    ensures
        b.segment == a.segment,
{
    reveal(flipped);
}

/// What a compaction has done.
#[verifier::rlimit(30)]
proof fn lemma_compacted<B: IoBackend>(
    a: Store<B>,
    s1: Store<B>,
    s2: Store<B>,
    b: Store<B>,
    tree: RebuiltIndex,
    gone: Seq<u64>,
    live: Set<Seq<u8>>,
    replaced: Set<Seq<u8>>,
    places: Seq<Location>,
    copies: Seq<PendingRecord>,
    root: Root,
)
    requires
        a.flushed(),
        s2.flushed(),
        b.flushed(),
        a.generation < u64::MAX,
        same_state(a, s1),
        written_out(a, s1, tree.records@, copies, tree.root@, root@),
        flipped(s1, s2, root),
        victims_gone(s2, b, gone),
        copies_of(a, gone, live, replaced, places, copies),
        forall|s: u64| #[trigger] gone.contains(s) ==> s <= a.segment.seq_of(),
        forall|x: Seq<u8>| #[trigger]
            tree.payloads@.contains(x) ==> crate::transaction::recorded(tree.records@, digest(x)),
    ensures
        compacted(a, b, tree, gone, live, replaced),
{
    reveal(written_out);
    reveal(flipped);
    reveal(victims_gone);
    lemma_flushed_disk(a);
    let floor = (a.segment.seq_of() + 1) as u64;
    lemma_kept(
        a,
        s2,
        b,
        tree,
        payloads_of(copies),
        root_bytes(root@),
        floor,
        gone,
        live,
        replaced,
        places,
        copies,
    );
}

/// A copy that is too long is a copy of such an object.
proof fn lemma_long_copy<B: IoBackend>(
    a: Store<B>,
    gone: Seq<u64>,
    live: Set<Seq<u8>>,
    replaced: Set<Seq<u8>>,
    places: Seq<Location>,
    copies: Seq<PendingRecord>,
)
    requires
        a.flushed(),
        copies_of(a, gone, live, replaced, places, copies),
    ensures
        (exists|i: int| 0 <= i < copies.len() && (#[trigger] copies[i]).payload@.len() > u32::MAX)
            ==> exists|x: Seq<u8>| #[trigger] a.objects().contains(x) && x.len() > u32::MAX,
{
    reveal(copies_of);
    lemma_flushed_disk(a);
    if exists|i: int| 0 <= i < copies.len() && (#[trigger] copies[i]).payload@.len() > u32::MAX {
        let i = choose|i: int|
            0 <= i < copies.len() && (#[trigger] copies[i]).payload@.len() > u32::MAX;
        assert(places.contains(places[i]));
        let j = choose|j: int|
            0 <= j < a.index@.len() && copied(#[trigger] a.index@[j], gone, live, replaced)
                && a.index@[j].1 == places[i];
        assert(object_at(a.disk(), a.index@[j].1) == Some(copies[i].payload@));
        assert(a.objects().contains(copies[i].payload@));
    }
}

/// Where a compaction that publishes its root is stopped, nothing is gone.
proof fn lemma_at_point<B: IoBackend>(a: Store<B>, b: Store<B>, root: RootView, p: CrashPoint)
    requires
        a.flushed(),
        same_files(a, b),
        keeps_backed(a, b),
        b.io.synced().names == b.io.segments().dom(),
        digest_found(a.objects(), root_bytes(root)),
        p == CrashPoint::AfterRootWrite ==> b.io.superblock() == a.io.superblock() && b.superblock
            == a.superblock,
        p != CrashPoint::AfterRootWrite ==> {
            &&& slot_written(a.io.superblock(), b.io.superblock(), b.superblock@)
            &&& b.superblock@.generation == a.generation + 1
            &&& b.superblock@.root_object_id == digest(root_bytes(root))
        },
        p == CrashPoint::AfterSuperblockFsync || p == CrashPoint::BeforeOldSegmentDelete
            ==> b.io.synced().superblock == b.io.superblock(),
    ensures
        compact_crashed(a, b, p),
{
    reveal(compact_crashed);
    reveal(all_kept);
    assert(b.disk() == a.disk());
    assert forall|x: Seq<u8>| #[trigger] a.objects().contains(x) implies digest_found(
        b.objects(),
        x,
    ) by {}
}

/// A crash behind an append that kept everything kept everything.
proof fn lemma_crashed<B: IoBackend>(a: Store<B>, mid: Store<B>, b: Store<B>, p: CrashPoint)
    requires
        same_state(a, mid),
        all_kept(a, mid),
        keeps_backed(a, mid),
        a.segment.seq_of() < mid.segment.seq_of(),
        compact_crashed(mid, b, p),
    ensures
        compact_crashed(a, b, p),
{
    reveal(compact_crashed);
    reveal(all_kept);
    assert forall|x: Seq<u8>| #[trigger] a.objects().contains(x) implies digest_found(
        b.objects(),
        x,
    ) by {
        assert(digest_found(mid.objects(), x));
        let y = choose|y: Seq<u8>| #[trigger] mid.objects().contains(y) && digest(y) == digest(x);
        assert(digest_found(b.objects(), y));
        let z = choose|z: Seq<u8>| #[trigger] b.objects().contains(z) && digest(z) == digest(y);
        assert(b.objects().contains(z));
    }
}

/// The segment behind the current one is the current one now.
#[verifier::opaque]
spec fn started<B: IoBackend>(a: Store<B>, b: Store<B>) -> bool {
    &&& a.segment.seq_of() < u64::MAX
    &&& b.segment.seq_of() == a.segment.seq_of() + 1
    &&& b.segment.buffered().len() == 0
    &&& b.segment.end_of() == open_end(file_of(a.io.segments(), b.segment.seq_of()))
    &&& b.laid@ == laid_with(a.laid@, b.segment.seq_of())
    &&& b.objects() == a.objects()
    &&& b.index@ == a.index@
    &&& same_ahead(a, b)
    &&& rolled_over(a, b)
    &&& keeps_backed(a, b)
}

/// The records are appended, one after another.
#[verifier::opaque]
spec fn added<B: IoBackend>(a: Store<B>, b: Store<B>, records: Seq<PendingRecord>) -> bool {
    &&& a.segment.seq_of() <= b.segment.seq_of() <= a.segment.seq_of() + records.len()
    &&& same_ahead(a, b)
    &&& same_behind(a, b)
    &&& keeps_backed(a, b)
    &&& objects_after(a.objects(), b.objects(), payloads_of(records))
    &&& moved_on(a.index@, b.index@, payloads_of(records), a.segment.seq_of())
    &&& laid_out(
        a.io.segments(),
        a.config.segment_size,
        spot_of(a),
        lens_of(records),
    ) == Some(spot_of(b))
    &&& b.laid@ == laid_down(
        a.laid@,
        a.io.segments(),
        a.config.segment_size,
        spot_of(a),
        views_of(records),
    )
}

proof fn lemma_ahead_full<B: IoBackend>(a: Store<B>, b: Store<B>)
    requires
        same_ahead(a, b),
        full_ahead(b),
    ensures
        full_ahead(a),
{
    let s = choose|s: u64|
        s > b.segment.seq_of() && (#[trigger] file_of(b.io.segments(), s)).len() + HEADER_SIZE
            + u32::MAX > u64::MAX;
    assert(file_of(a.io.segments(), s).len() + HEADER_SIZE + u32::MAX > u64::MAX);
}

proof fn lemma_crowded_on<B: IoBackend>(
    a: Store<B>,
    s0: Store<B>,
    records: Seq<PendingRecord>,
    n: nat,
)
    requires
        started(a, s0),
        n >= records.len() + 1,
    ensures
        crowded(s0, records, records.len()) ==> crowded(a, records, n),
{
    reveal(started);
    if full_ahead(s0) {
        lemma_ahead_full(a, s0);
    }
}

proof fn lemma_crowded_later<B: IoBackend>(
    a: Store<B>,
    s0: Store<B>,
    s1: Store<B>,
    first: Seq<PendingRecord>,
    records: Seq<PendingRecord>,
    n: nat,
)
    requires
        started(a, s0),
        added(s0, s1, first),
        n >= first.len() + records.len() + 1,
    ensures
        crowded(s1, records, records.len()) ==> crowded(a, records, n),
{
    reveal(started);
    reveal(added);
    if full_ahead(s1) {
        lemma_ahead_full(s0, s1);
        lemma_ahead_full(a, s0);
    }
}

proof fn lemma_crowded_last<B: IoBackend>(
    a: Store<B>,
    s0: Store<B>,
    s1: Store<B>,
    s2: Store<B>,
    r1: Seq<PendingRecord>,
    r2: Seq<PendingRecord>,
    last: Seq<PendingRecord>,
)
    requires
        started(a, s0),
        added(s0, s1, r1),
        added(s1, s2, r2),
        last.len() == 1,
        last[0].payload@.len() <= u32::MAX,
    ensures
        crowded(s2, last, 1) ==> crowded(a, r1, r1.len() + r2.len() + 2),
{
    reveal(started);
    reveal(added);
    if full_ahead(s2) {
        lemma_ahead_full(s1, s2);
        lemma_ahead_full(s0, s1);
        lemma_ahead_full(a, s0);
    }
}

/// What three appends in a new segment make of a store: the records lie one behind another,
/// and nothing that was stored is gone.
#[verifier::rlimit(30)]
proof fn lemma_compacted_files<B: IoBackend>(
    a: Store<B>,
    s0: Store<B>,
    s1: Store<B>,
    s2: Store<B>,
    s3: Store<B>,
    b: Store<B>,
    r1: Seq<PendingRecord>,
    r2: Seq<PendingRecord>,
    r3: Seq<PendingRecord>,
)
    requires
        a.flushed(),
        s0.config == a.config && s1.config == a.config && s2.config == a.config,
        started(a, s0),
        added(s0, s1, r1),
        added(s1, s2, r2),
        added(s2, s3, r3),
        b.io.segments() == s3.disk(),
        b.disk() == s3.disk(),
        b.index@ == s3.index@,
        b.laid == s3.laid,
        b.segment.seq_of() == s3.segment.seq_of(),
        keeps_backed(s3, b),
    ensures
        a.segment.seq_of() < u64::MAX,
        b.segment.seq_of() >= a.segment.seq_of() + 1,
        b.laid@ == rewritten(a, views_of(r1) + views_of(r2) + views_of(r3)),
        moved_on(
            a.index@,
            b.index@,
            payloads_of(r1) + payloads_of(r2) + payloads_of(r3),
            (a.segment.seq_of() + 1) as u64,
        ),
        all_kept(a, b),
        keeps_backed(a, b),
        forall|i: int| 0 <= i < r3.len() ==> digest_found(b.objects(), (#[trigger] r3[i]).payload@),
{
    reveal(started);
    reveal(added);
    let floor = s0.segment.seq_of();
    lemma_moved_join(
        a.index@,
        s1.index@,
        s2.index@,
        payloads_of(r1),
        payloads_of(r2),
        floor,
        s1.segment.seq_of(),
    );
    lemma_moved_join(
        a.index@,
        s2.index@,
        s3.index@,
        payloads_of(r1) + payloads_of(r2),
        payloads_of(r3),
        floor,
        s2.segment.seq_of(),
    );
    let size = a.config.segment_size;
    let f = a.io.segments();
    let at = spot_of(s0);
    let v1 = views_of(r1);
    let v2 = views_of(r2);
    let v3 = views_of(r3);
    assert(view_lens(v1) =~= lens_of(r1));
    assert(view_lens(v2) =~= lens_of(r2));
    assert(view_lens(v3) =~= lens_of(r3));
    let none = Seq::<RecordView>::empty();
    assert(view_lens(none) =~= Seq::empty());
    lemma_laid_join(s0.laid@, f, s0.io.segments(), size, at, at, none, v1);
    assert(none + v1 =~= v1);
    lemma_laid_join(s0.laid@, f, s1.io.segments(), size, at, spot_of(s1), v1, v2);
    lemma_laid_join(s0.laid@, f, s2.io.segments(), size, at, spot_of(s2), v1 + v2, v3);
    assert(b.laid@ == rewritten(a, v1 + v2 + v3)) by {
        reveal(rewritten);
    }
    assert(all_kept(a, b)) by {
        lemma_all_kept(a, s0, s1, s2, s3, b, r1, r2, r3);
    }
    assert forall|i: int| 0 <= i < r3.len() implies digest_found(
        b.objects(),
        (#[trigger] r3[i]).payload@,
    ) by {
        assert(payloads_of(r3)[i] == r3[i].payload@);
    }
}

/// Appends in a new segment leave what was stored.
#[verifier::rlimit(60)]
#[verifier::spinoff_prover]
proof fn lemma_all_kept<B: IoBackend>(
    a: Store<B>,
    s0: Store<B>,
    s1: Store<B>,
    s2: Store<B>,
    s3: Store<B>,
    b: Store<B>,
    r1: Seq<PendingRecord>,
    r2: Seq<PendingRecord>,
    r3: Seq<PendingRecord>,
)
    requires
        a.flushed(),
        started(a, s0),
        added(s0, s1, r1),
        added(s1, s2, r2),
        added(s2, s3, r3),
        b.io.segments() == s3.disk(),
        b.objects() == s3.objects(),
    ensures
        all_kept(a, b),
{
    reveal(started);
    reveal(added);
    reveal(all_kept);
    reveal(same_behind);
    reveal(rolled_over);
    lemma_flushed_disk(a);
    assert forall|s: u64|
        s <= a.segment.seq_of() && #[trigger] a.io.segments().contains_key(
            s,
        ) implies b.io.segments().contains_key(s) && b.io.segments()[s] == a.io.segments()[s] by {
        assert(a.disk().contains_key(s));
        assert(s0.io.segments().contains_key(s));
        assert(s1.io.segments().contains_key(s));
        assert(s2.io.segments().contains_key(s));
        assert(s3.io.segments().contains_key(s));
    }
    assert forall|x: Seq<u8>| #[trigger] a.objects().contains(x) implies digest_found(
        b.objects(),
        x,
    ) by {
        assert(digest_found(s1.objects(), x));
        let y = choose|y: Seq<u8>| #[trigger] s1.objects().contains(y) && digest(y) == digest(x);
        assert(digest_found(s2.objects(), y));
        let z = choose|z: Seq<u8>| #[trigger] s2.objects().contains(z) && digest(z) == digest(y);
        assert(digest_found(s3.objects(), z));
        let w = choose|w: Seq<u8>| #[trigger] s3.objects().contains(w) && digest(w) == digest(z);
        assert(s3.objects().contains(w));
    }
}

proof fn lemma_moved_join(
    a: Seq<(Seq<u8>, Location)>,
    b: Seq<(Seq<u8>, Location)>,
    c: Seq<(Seq<u8>, Location)>,
    ps: Seq<Seq<u8>>,
    qs: Seq<Seq<u8>>,
    floor: u64,
    next: u64,
)
    requires
        moved_on(a, b, ps, floor),
        moved_on(b, c, qs, next),
        floor <= next,
    ensures
        moved_on(a, c, ps + qs, floor),
{
    reveal(moved_on);
    let all = ps + qs;
    assert forall|k: Seq<u8>|
        (#[trigger] lookup(c, k)) == lookup(a, k) || (lookup(c, k) matches Some(l)
            && l.segment_seq >= floor) by {
        let _ = lookup(b, k);
    }
    assert forall|i: int| 0 <= i < all.len() implies (lookup(
        c,
        digest(#[trigger] all[i]),
    ) matches Some(l) && l.segment_seq >= floor) by {
        if i < ps.len() {
            assert(all[i] == ps[i]);
            assert(lookup(b, digest(ps[i])) is Some);
        } else {
            assert(all[i] == qs[i - ps.len()]);
        }
    }
}

/// An id that was indexed outside the dropped segments, or was appended, is indexed
/// outside them.
proof fn lemma_stays(
    a: Seq<(Seq<u8>, Location)>,
    d: Seq<(Seq<u8>, Location)>,
    ps: Seq<Seq<u8>>,
    floor: u64,
    gone: Seq<u64>,
    id: Seq<u8>,
)
    requires
        moved_on(a, d, ps, floor),
        forall|s: u64| #[trigger] gone.contains(s) ==> s < floor,
        (lookup(a, id) matches Some(l) && !gone.contains(l.segment_seq)) || appended(ps, id),
    ensures
        lookup(d, id) matches Some(l) && !gone.contains(l.segment_seq),
{
    reveal(moved_on);
    let _ = lookup(d, id);
}

/// A payload of this digest was appended.
spec fn appended(ps: Seq<Seq<u8>>, id: Seq<u8>) -> bool {
    exists|i: int| 0 <= i < ps.len() && digest(#[trigger] ps[i]) == id
}

proof fn lemma_appended_copy(ns: Seq<Seq<u8>>, cs: Seq<Seq<u8>>, top: Seq<u8>, id: Seq<u8>)
    ensures
        appended(cs, id) ==> appended(ns + cs + seq![top], id),
        appended(ns, id) ==> appended(ns + cs + seq![top], id),
        id == digest(top) ==> appended(ns + cs + seq![top], id),
{
    let all = ns + cs + seq![top];
    if appended(cs, id) {
        let i = choose|i: int| 0 <= i < cs.len() && digest(#[trigger] cs[i]) == id;
        assert(all[ns.len() + i] == cs[i]);
    }
    if appended(ns, id) {
        let i = choose|i: int| 0 <= i < ns.len() && digest(#[trigger] ns[i]) == id;
        assert(all[i] == ns[i]);
    }
    assert(all[all.len() - 1] == top);
}

/// What a compaction keeps.
#[verifier::rlimit(60)]
#[verifier::spinoff_prover]
proof fn lemma_kept<B: IoBackend>(
    a: Store<B>,
    b: Store<B>,
    c: Store<B>,
    tree: RebuiltIndex,
    cs: Seq<Seq<u8>>,
    top: Seq<u8>,
    floor: u64,
    gone: Seq<u64>,
    live: Set<Seq<u8>>,
    replaced: Set<Seq<u8>>,
    places: Seq<Location>,
    copies: Seq<PendingRecord>,
)
    requires
        a.wf(),
        a.disk() == a.io.segments(),
        b.wf(),
        c.wf(),
        cs == payloads_of(copies),
        moved_on(a.index@, b.index@, payloads_of(tree.records@) + cs + seq![top], floor),
        pruned(b.index@, c.index@, gone),
        forall|s: u64| #[trigger] gone.contains(s) ==> s < floor,
        copies_of(a, gone, live, replaced, places, copies),
        forall|x: Seq<u8>| #[trigger]
            tree.payloads@.contains(x) ==> crate::transaction::recorded(tree.records@, digest(x)),
    ensures
        forall|x: Seq<u8>| #[trigger]
            a.objects().contains(x) && survives(a.index@, gone, live, replaced, digest(x))
                ==> digest_found(c.objects(), x),
        forall|x: Seq<u8>| #[trigger]
            tree.payloads@.contains(x) ==> digest_found(c.objects(), x),
        digest_found(c.objects(), top),
{
    reveal(copies_of);
    let ns = payloads_of(tree.records@);
    let all = ns + cs + seq![top];
    assert forall|x: Seq<u8>| #[trigger]
        a.objects().contains(x) && survives(a.index@, gone, live, replaced, digest(x)) implies digest_found(
        c.objects(),
        x,
    ) by {
        lemma_survivor(a, gone, live, replaced, places, copies, x);
        lemma_appended_copy(ns, cs, top, digest(x));
        lemma_stays(a.index@, b.index@, all, floor, gone, digest(x));
        lemma_found(b, c, gone, x);
    }
    assert forall|x: Seq<u8>| #[trigger]
        tree.payloads@.contains(x) implies digest_found(c.objects(), x) by {
        let i = choose|i: int|
            0 <= i < tree.records@.len() && digest((#[trigger] tree.records@[i]).payload@)
                == digest(x);
        assert(ns[i] == tree.records@[i].payload@);
        assert(appended(ns, digest(x)));
        lemma_appended_copy(ns, cs, top, digest(x));
        lemma_stays(a.index@, b.index@, all, floor, gone, digest(x));
        lemma_found(b, c, gone, x);
    }
    lemma_appended_copy(ns, cs, top, digest(top));
    lemma_stays(a.index@, b.index@, all, floor, gone, digest(top));
    lemma_found(b, c, gone, top);
}

/// A survivor in a victim is among the copies.
proof fn lemma_survivor<B: IoBackend>(
    st: Store<B>,
    gone: Seq<u64>,
    live: Set<Seq<u8>>,
    replaced: Set<Seq<u8>>,
    places: Seq<Location>,
    copies: Seq<PendingRecord>,
    x: Seq<u8>,
)
    requires
        st.wf(),
        st.disk() == st.io.segments(),
        st.objects().contains(x),
        survives(st.index@, gone, live, replaced, digest(x)),
        copies.len() == places.len(),
        forall|i: int|
            0 <= i < st.index@.len() && copied(#[trigger] st.index@[i], gone, live, replaced)
                ==> places.contains(st.index@[i].1),
        forall|i: int|
            0 <= i < copies.len() ==> object_at(st.io.segments(), #[trigger] places[i]) == Some(
                copies[i].payload@,
            ),
    ensures
        (lookup(st.index@, digest(x)) matches Some(l) && !gone.contains(l.segment_seq)) || appended(
            payloads_of(copies),
            digest(x),
        ),
{
    let ix = st.index@;
    let i = choose|i: int|
        0 <= i < ix.len() && object_at(st.disk(), (#[trigger] ix[i]).1) == Some(x);
    lemma_at(ix, i);
    assert(ix[i].0 == digest(x));
    if gone.contains(ix[i].1.segment_seq) {
        assert(copied(ix[i], gone, live, replaced));
        let j = choose|j: int| 0 <= j < places.len() && places[j] == ix[i].1;
        assert(object_at(st.io.segments(), places[j]) == Some(copies[j].payload@));
        assert(payloads_of(copies)[j] == copies[j].payload@);
    }
}

/// An object is indexed under its digest.
pub proof fn lemma_object_indexed<B: IoBackend>(st: Store<B>, x: Seq<u8>)
    requires
        st.wf(),
        st.objects().contains(x),
    ensures
        lookup(st.index@, digest(x)) is Some,
{
    let ix = st.index@;
    let i = choose|i: int|
        0 <= i < ix.len() && object_at(st.disk(), (#[trigger] ix[i]).1) == Some(x);
    lemma_at(ix, i);
    assert(ix[i].0 == digest(x));
}

/// An id that is indexed outside the dropped segments is found afterwards.
proof fn lemma_indexed_found<B: IoBackend>(a: Store<B>, b: Store<B>, gone: Seq<u64>, id: Seq<u8>)
    requires
        a.wf(),
        b.wf(),
        pruned(a.index@, b.index@, gone),
        lookup(a.index@, id) matches Some(l) && !gone.contains(l.segment_seq),
    ensures
        exists|y: Seq<u8>| #[trigger] b.objects().contains(y) && digest(y) == id,
{
    let n = b.index@;
    assert(lookup(n, id) is Some);
    lemma_rank(n, id);
    let i = rank(n, id);
    assert(n[i].0 == id);
    let y = object_at(b.disk(), n[i].1)->0;
    assert(b.objects().contains(y));
}

proof fn lemma_found<B: IoBackend>(a: Store<B>, b: Store<B>, gone: Seq<u64>, x: Seq<u8>)
    requires
        a.wf(),
        b.wf(),
        pruned(a.index@, b.index@, gone),
        lookup(a.index@, digest(x)) matches Some(l) && !gone.contains(l.segment_seq),
    ensures
        digest_found(b.objects(), x),
{
    lemma_indexed_found(a, b, gone, digest(x));
}

// ---------------------------------------------------------------------------
// Collection
// ---------------------------------------------------------------------------

/// The ids of the one set and one more, but for those in the other.
fn replaced_ids(nodes: &IdSet, pinned: &IdSet, root_id: &ChunkId) -> (r: IdSet)
    requires
        nodes.wf(),
        pinned.wf(),
    ensures
        r.wf(),
        id_set(r) == id_set(*nodes).insert(root_id@).difference(id_set(*pinned)),
{
    let mut out: IdSet = SortedMap::new();
    let ghost ns = nodes@;
    proof {
        assert(id_set(out) =~= Set::empty());
    }
    if !pinned.contains(root_id.as_slice()) {
        let _ = insert_id(&mut out, copy_bytes(root_id.as_slice()));
    }
    let mut i: usize = 0;
    while i < nodes.len()
        invariant
            i <= nodes@.len(),
            ns == nodes@,
            nodes.wf(),
            pinned.wf(),
            out.wf(),
            forall|k: Seq<u8>| #[trigger]
                id_set(out).contains(k) <==> !id_set(*pinned).contains(k) && (k == root_id@
                    || exists|j: int| 0 <= j < i && (#[trigger] ns[j]).0 == k),
        decreases nodes@.len() - i,
    {
        let ghost had = id_set(out);
        if !pinned.contains(nodes.key_at(i)) {
            let _ = insert_id(&mut out, copy_bytes(nodes.key_at(i)));
        }
        proof {
            assert forall|k: Seq<u8>| #[trigger]
                id_set(out).contains(k) <==> !id_set(*pinned).contains(k) && (k == root_id@
                    || exists|j: int| 0 <= j < i + 1 && (#[trigger] ns[j]).0 == k) by {
                assert(ns[i as int].0 == ns[i as int].0);
                if had.contains(k) && k != root_id@ {
                    let j = choose|j: int| 0 <= j < i && (#[trigger] ns[j]).0 == k;
                    assert(ns[j].0 == k);
                }
            }
        }
        i += 1;
    }
    proof {
        assert forall|k: Seq<u8>| #[trigger] id_set(out).contains(k) == id_set(*nodes).insert(
            root_id@,
        ).difference(id_set(*pinned)).contains(k) by {
            if id_set(*nodes).contains(k) {
                let j = choose|j: int| 0 <= j < ns.len() && (#[trigger] ns[j]).0 == k;
                assert(ns[j].0 == k);
            }
            if exists|j: int| 0 <= j < ns.len() && (#[trigger] ns[j]).0 == k {
                let j = choose|j: int| 0 <= j < ns.len() && (#[trigger] ns[j]).0 == k;
                lemma_at(ns, j);
                crate::fs::lemma_has_key(ns, k);
            }
        }
        assert(id_set(out) =~= id_set(*nodes).insert(root_id@).difference(id_set(*pinned)));
    }
    out
}

/// What a collection did to the store that it marked: everything marked survives,
/// but for the nodes of the replaced chunk index and the replaced root, where nothing
/// else pins them.
pub open spec fn collected<B: IoBackend, F: Fn(&[u8]) -> Option<Descriptor>>(
    a: Store<B>,
    b: Store<B>,
    victims: Seq<u64>,
    decode: F,
    m: LiveMark,
    tree: RebuiltIndex,
    gone: Seq<u64>,
    replaced: Set<Seq<u8>>,
) -> bool {
    &&& forall|h: nat| #[trigger] markable(a, h) ==> marked(a, decode, m) && replaces(
        a,
        decode,
        replaced,
    )
    &&& rebuilt(a, m, tree)
    &&& compacted(a, b, tree, gone, id_set(m.live), replaced)
    &&& forall|s: u64| #[trigger]
        gone.contains(s) == (victims.contains(s) && s <= a.segment.seq_of())
}

/// The trees that the current root names beside its chunk index.
pub open spec fn named_trees<B: IoBackend>(st: Store<B>) -> Seq<Place> {
    let table = seq![(st.root@.inode_index_root, MarkKind::TreeInodeIndex)];
    let snaps = if st.root@.snapshot_tree_root == zero_id() {
        Seq::empty()
    } else {
        seq![(st.root@.snapshot_tree_root, MarkKind::TreeSnapshot)]
    };
    let models = if st.root@.model_index_root == zero_id() {
        Seq::empty()
    } else {
        seq![(st.root@.model_index_root, MarkKind::TreeChunkIndex)]
    };
    table + snaps + models
}

/// The places that pin index nodes.
pub open spec fn pins_of<B: IoBackend>(st: Store<B>) -> Seq<Place> {
    named_trees(st) + roots_of(st).skip(1)
}

/// Some snapshot does not decode.
pub open spec fn broken_snapshot<B: IoBackend>(st: Store<B>) -> bool {
    exists|i: int|
        0 <= i < snapshots_of(st).len() && parse_snapshot((#[trigger] snapshots_of(st)[i]).1) is Err
}

/// A place that is reached from these does not hold what is expected.
pub open spec fn broken_from<B: IoBackend, F: Fn(&[u8]) -> Option<Descriptor>>(
    st: Store<B>,
    decode: F,
    from: Seq<Place>,
) -> bool {
    exists|x: Place| #[trigger]
        reachable(ground(st, decode), from, x) && out_of(
            st.objects(),
            st.config.max_fanout,
            decode,
            x,
        ) is None
}

/// What is replaced: the old root and the nodes that the old chunk index reaches, but for
/// what the pinning places reach. `nodes` and `pinned` are complete walks from both.
pub open spec fn replaces_by<B: IoBackend, F: Fn(&[u8]) -> Option<Descriptor>>(
    st: Store<B>,
    decode: F,
    replaced: Set<Seq<u8>>,
    nodes: Set<Seq<u8>>,
    pinned: Set<Seq<u8>>,
    seen: Set<Place>,
    seen_pins: Set<Place>,
) -> bool {
    let g = ground(st, decode);
    &&& walked(g, seq![(st.root@.chunk_index_root, MarkKind::TreeChunkIndex)], seen, nodes)
    &&& walked(g, pins_of(st), seen_pins, pinned)
    &&& replaced == nodes.insert(digest(root_bytes(st.root@))).difference(pinned)
}

pub open spec fn replaces<B: IoBackend, F: Fn(&[u8]) -> Option<Descriptor>>(
    st: Store<B>,
    decode: F,
    replaced: Set<Seq<u8>>,
) -> bool {
    exists|
        nodes: Set<Seq<u8>>,
        pinned: Set<Seq<u8>>,
        seen: Set<Place>,
        seen_pins: Set<Place>,
    | #[trigger]
        replaces_by(st, decode, replaced, nodes, pinned, seen, seen_pins)
}

/// Why a collection came to nothing: the live objects could not be marked or the chunk
/// index rebuilt, and the store is as it was; or the compaction failed.
pub open spec fn collection_failed<B: IoBackend, F: Fn(&[u8]) -> Option<Descriptor>>(
    a: Store<B>,
    b: Store<B>,
    e: StoreError,
    victims: Seq<u64>,
    decode: F,
    hooks: CrashHooks,
) -> bool {
    &&& victims.len() > 0
    &&& {
        ||| b == a && forall|h: nat| #[trigger]
            markable(a, h) ==> {
                ||| !a.io.reliable()
                ||| h > max_height()
                ||| broken(a, decode)
                ||| broken_from(a, decode, seq![(a.root@.chunk_index_root, MarkKind::TreeChunkIndex)])
                ||| broken_from(a, decode, pins_of(a))
                ||| unreadable(a)
            }
        ||| exists|m: LiveMark, tree: RebuiltIndex| #[trigger]
            rebuilt(a, m, tree) && (forall|h: nat| #[trigger]
                markable(a, h) ==> marked(a, decode, m)) && compact_failed(a, b, e, tree, hooks)
    }
}

impl<B: IoBackend> Store<B> {
    /// The places that pin index nodes: everything that the current root reaches
    /// but its chunk index, and the snapshots.
    fn pinning_roots(&self) -> (r: Result<Vec<(ChunkId, MarkKind)>, StoreError>)
        requires
            self.flushed(),
        ensures
            forall|h: nat| #[trigger]
                markable(*self, h) ==> match r {
                    Ok(v) => place_views(v@) == pins_of(*self),
                    Err(_) => !self.io.reliable() || h > max_height() || broken_snapshot(*self),
                },
    {
        let roots = match list_roots(self) {
            Ok(v) => v,
            Err(e) => return Err(e),
        };
        let mut out: Vec<(ChunkId, MarkKind)> = Vec::new();
        let ghost named = named_trees(*self);
        out.push((self.root.inode_index_root, MarkKind::TreeInodeIndex));
        if !self.root.snapshot_tree_root.is_zero() {
            out.push((self.root.snapshot_tree_root, MarkKind::TreeSnapshot));
        }
        if !self.root.model_index_root.is_zero() {
            out.push((self.root.model_index_root, MarkKind::TreeChunkIndex));
        }
        assert(place_views(out@) =~= named);
        let mut i: usize = 1;
        proof {
            if roots@.len() > 0 {
                assert(place_views(roots@).subrange(1, 1) =~= Seq::empty());
                assert(place_views(out@) =~= named + place_views(roots@).subrange(1, 1));
            }
        }
        while i < roots.len()
            invariant
                1 <= i,
                roots@.len() > 0 ==> i <= roots@.len() && place_views(out@) == named
                    + place_views(roots@).subrange(1, i as int),
            decreases roots@.len() - i,
        {
            let ghost had = place_views(out@);
            out.push(roots[i]);
            proof {
                let rs = place_views(roots@);
                assert(rs.subrange(1, i + 1) =~= rs.subrange(1, i as int).push(rs[i as int]));
                assert(place_views(out@) =~= had.push(rs[i as int]));
                assert(named + rs.subrange(1, i + 1) =~= had.push(rs[i as int]));
            }
            i += 1;
        }
        proof {
            assert forall|h: nat| #[trigger] markable(*self, h) implies place_views(out@)
                == pins_of(*self) by {
                assert(place_views(roots@) == roots_of(*self));
                assert(place_views(roots@).subrange(1, i as int) =~= roots_of(*self).skip(1));
            }
        }
        Ok(out)
    }

    /// Collect the victims of a store with nothing pending: what the roots reach is
    /// marked, and the victims are compacted. Returns the bytes that the index
    /// counts as freed.
    #[verifier::rlimit(40)]
    #[verifier::spinoff_prover]
    pub fn compact_full<F: Fn(&[u8]) -> Option<Descriptor>>(
        &mut self,
        victims: &Vec<u64>,
        decode: &F,
        hooks: &CrashHooks,
    ) -> (r: Result<u64, StoreError>)
        requires
            old(self).flushed(),
            steady(*decode),
        ensures
            match r {
                Ok(n) => collection(*old(self), *final(self), victims@, *decode, n),
                Err(e) => collection_failed(
                    *old(self),
                    *final(self),
                    e,
                    victims@,
                    *decode,
                    *hooks,
                ),
            },
    {
        let ghost mid = *self;
        if victims.len() == 0 {
            return Ok(0);
        }
        let mark = match mark_live_full(self, decode) {
            Ok(m) => m,
            Err(e) => return Err(e),
        };
        let tree = match self.rebuild_chunk_index(&mark) {
            Ok(t) => t,
            Err(e) => return Err(e),
        };
        let mut from: Vec<(ChunkId, MarkKind)> = Vec::new();
        from.push((self.root.chunk_index_root, MarkKind::TreeChunkIndex));
        assert(place_views(from@) =~= seq![
            (mid.root@.chunk_index_root, MarkKind::TreeChunkIndex),
        ]);
        let nodes = match walk_from(self, from, decode) {
            Ok(w) => w,
            Err(e) => return Err(e),
        };
        let pins = match self.pinning_roots() {
            Ok(v) => v,
            Err(e) => return Err(e),
        };
        let pinned = match walk_from(self, pins, decode) {
            Ok(w) => w,
            Err(e) => return Err(e),
        };
        let root_id = self.root.id();
        let replaced = replaced_ids(&nodes.live, &pinned.live, &root_id);
        proof {
            assert forall|h: nat| #[trigger] markable(mid, h) implies replaces(
                mid,
                *decode,
                id_set(replaced),
            ) by {
                assert(replaces_by(
                    mid,
                    *decode,
                    id_set(replaced),
                    id_set(nodes.live),
                    id_set(pinned.live),
                    nodes.done@,
                    pinned.done@,
                ));
            }
        }
        match self.compact(&tree, &mark.live, &replaced, victims, hooks) {
            Ok(n) => {
                proof {
                    let gone = choose|gone: Seq<u64>| #[trigger]
                        compacted(mid, *self, tree, gone, id_set(mark.live), id_set(replaced))
                            && forall|s: u64| #[trigger]
                            gone.contains(s) == (victims@.contains(s) && s
                                <= mid.segment.seq_of());
                    assert(collected(
                        mid,
                        *self,
                        victims@,
                        *decode,
                        mark,
                        tree,
                        gone,
                        id_set(replaced),
                    ));
                }
                Ok(n)
            },
            Err(e) => Err(e),
        }
    }

    /// Collect the victims: the epoch is flushed first, since its objects are only
    /// referenced by the log.
    pub fn collect<F: Fn(&[u8]) -> Option<Descriptor>>(
        &mut self,
        victims: &Vec<u64>,
        decode: &F,
        hooks: &CrashHooks,
        space: &Space,
    ) -> (r: Result<u64, StoreError>)
        requires
            old(self).ready(),
            steady(*decode),
        ensures
            match r {
                Ok(n) => exists|mid: Store<B>| #[trigger]
                    epoch_flushed(*old(self), mid) && collection(
                        mid,
                        *final(self),
                        victims@,
                        *decode,
                        n,
                    ),
                Err(e) => {
                    ||| !idle(*old(self)) && checkpoint_failed(
                        *old(self),
                        *final(self),
                        e,
                        *hooks,
                        *space,
                    )
                    ||| exists|mid: Store<B>| #[trigger]
                        epoch_flushed(*old(self), mid) && collection_failed(
                            mid,
                            *final(self),
                            e,
                            victims@,
                            *decode,
                            *hooks,
                        )
                },
            },
    {
        let ghost was = *self;
        match self.ensure_epoch_flushed(hooks, space) {
            Ok(_) => {},
            Err(e) => return Err(e),
        }
        assert(epoch_flushed(was, *self));
        self.compact_full(victims, decode, hooks)
    }
}

/// What is pending is merged.
pub open spec fn epoch_flushed<B: IoBackend>(a: Store<B>, b: Store<B>) -> bool {
    if idle(a) {
        b == a
    } else {
        merged(a, b)
    }
}

/// A collection of these victims, and the bytes that it frees.
pub open spec fn collection<B: IoBackend, F: Fn(&[u8]) -> Option<Descriptor>>(
    a: Store<B>,
    b: Store<B>,
    victims: Seq<u64>,
    decode: F,
    n: u64,
) -> bool {
    if victims.len() == 0 {
        n == 0 && b == a
    } else {
        exists|m: LiveMark, tree: RebuiltIndex, gone: Seq<u64>, rp: Set<Seq<u8>>| #[trigger]
            collected(a, b, victims, decode, m, tree, gone, rp) && n == saturated(
                reclaimed_bytes(a.index@, victims, id_set(m.live), rp),
            )
    }
}

} // verus!
