//! Appending: records go behind what the current segment holds, and roll it when full.

use vstd::prelude::*;

use crate::chunk::digest;
use crate::error::StoreError;
use crate::io::{file_of, IoBackend};
use crate::object::Location;
use crate::place::{laid_at, laid_down, laid_one, laid_out, lemma_laid_one, lemma_laid_prefix, lens_of, view_lens, view_of,
    views_of};
use crate::record::{self, FLAG_HAS_MATERIALIZED_LEN, HEADER_SIZE};
use crate::sorted::lookup;
use crate::store::{digest_found, encodes, keeps_backed, laid_with, lemma_dom, moved_on, no_place, objects_after, objects_with, payloads_of,
    record_put, same_ahead, same_behind, same_state, spot_of, Store};
use crate::transaction::PendingRecord;

verus! {

/// Room for a record of `n` bytes is made: in the current segment, or in the next.
#[verifier::opaque]
spec fn room_made<B: IoBackend>(a: Store<B>, b: Store<B>, n: nat) -> bool {
    let seq = b.segment.seq_of();
    &&& same_state(a, b)
    &&& b.index@ == a.index@
    &&& b.given@ == a.given@
    &&& b.seen@ == a.seen@
    &&& b.objects() == a.objects()
    &&& a.segment.seq_of() <= seq <= a.segment.seq_of() + 1
    &&& same_ahead(a, b)
    &&& laid_at(a.io.segments(), a.config.segment_size, spot_of(a), n) == Some(
        (spot_of(b).0, spot_of(b).1 + n),
    )
    &&& b.laid@ == laid_with(a.laid@, seq)
    &&& keeps_backed(a, b)
    &&& same_behind(a, b)
}

/// A record is appended.
#[verifier::opaque]
spec fn one_appended<B: IoBackend>(a: Store<B>, b: Store<B>, rec: PendingRecord) -> bool {
    &&& same_state(a, b)
    &&& objects_with(a.objects(), b.objects(), rec.payload@)
    &&& b.given@ == a.given@.insert(rec.payload@)
    &&& b.seen@ == a.seen@.insert(rec.payload@)
    &&& a.segment.seq_of() <= b.segment.seq_of() <= a.segment.seq_of() + 1
    &&& rec.payload@.len() <= u32::MAX
    &&& laid_at(
        a.io.segments(),
        a.config.segment_size,
        spot_of(a),
        HEADER_SIZE as nat + rec.payload@.len(),
    ) == Some(spot_of(b))
    &&& b.laid@ == laid_one(a.laid@, b.segment.seq_of(), view_of(rec))
    &&& keeps_backed(a, b)
    &&& same_behind(a, b)
    &&& same_ahead(a, b)
    &&& moved_on(a.index@, b.index@, seq![rec.payload@], a.segment.seq_of())
}

/// There is no place for the record.
#[verifier::opaque]
spec fn one_refused<B: IoBackend>(a: Store<B>, rec: PendingRecord) -> bool {
    ||| rec.payload@.len() > u32::MAX
    ||| laid_at(
        a.io.segments(),
        a.config.segment_size,
        spot_of(a),
        HEADER_SIZE as nat + rec.payload@.len(),
    ) is None
}

/// The first `n` of the records are appended.
#[verifier::opaque]
spec fn some_appended<B: IoBackend>(
    a: Store<B>,
    b: Store<B>,
    records: Seq<PendingRecord>,
    n: int,
) -> bool {
    let had = payloads_of(records).take(n);
    &&& same_state(a, b)
    &&& objects_after(a.objects(), b.objects(), had)
    &&& b.given@ == a.given@.union(had.to_set())
    &&& b.seen@ == a.seen@.union(had.to_set())
    &&& a.segment.seq_of() <= b.segment.seq_of() <= a.segment.seq_of() + n
    &&& laid_out(
        a.io.segments(),
        a.config.segment_size,
        spot_of(a),
        lens_of(records).take(n),
    ) == Some(spot_of(b))
    &&& b.laid@ == laid_down(
        a.laid@,
        a.io.segments(),
        a.config.segment_size,
        spot_of(a),
        views_of(records).take(n),
    )
    &&& keeps_backed(a, b)
    &&& same_behind(a, b)
    &&& same_ahead(a, b)
    &&& moved_on(a.index@, b.index@, had, a.segment.seq_of())
}

proof fn lemma_one_appended<B: IoBackend>(
    a: Store<B>,
    mid: Store<B>,
    b: Store<B>,
    rec: PendingRecord,
)
    requires
        room_made(a, mid, HEADER_SIZE as nat + rec.payload@.len()),
        rec.payload@.len() <= u32::MAX,
        same_state(mid, b),
        record_put(mid, b, rec, HEADER_SIZE as nat + rec.payload@.len()),
    ensures
        one_appended(a, b, rec),
{
    reveal(room_made);
    reveal(record_put);
    reveal(one_appended);
    reveal(same_behind);
    lemma_laid_one(a.laid@, b.segment.seq_of(), view_of(rec));
    lemma_floor_lowers(
        mid.index@,
        b.index@,
        rec.payload@,
        mid.segment.seq_of(),
        a.segment.seq_of(),
    );
}

proof fn lemma_none_appended<B: IoBackend>(a: Store<B>, records: Seq<PendingRecord>)
    ensures
        some_appended(a, a, records, 0),
{
    reveal(some_appended);
    reveal(moved_on);
    reveal(same_behind);
    let none = Seq::<Seq<u8>>::empty();
    assert(payloads_of(records).take(0) =~= none);
    assert(lens_of(records).take(0) =~= Seq::empty());
    assert(views_of(records).take(0) =~= Seq::empty());
    assert(a.given@.union(none.to_set()) =~= a.given@);
    assert(a.seen@.union(none.to_set()) =~= a.seen@);
    assert forall|x: Seq<u8>| #[trigger] a.objects().contains(x) implies digest_found(
        a.objects(),
        x,
    ) by {}
}

#[verifier::rlimit(30)]
proof fn lemma_one_more<B: IoBackend>(
    a: Store<B>,
    mid: Store<B>,
    b: Store<B>,
    records: Seq<PendingRecord>,
    i: int,
)
    requires
        0 <= i < records.len(),
        some_appended(a, mid, records, i),
        one_appended(mid, b, records[i]),
    ensures
        some_appended(a, b, records, i + 1),
{
    reveal(some_appended);
    reveal(one_appended);
    reveal(same_behind);
    let rec = records[i];
    let p = rec.payload@;
    let had = payloads_of(records).take(i);
    let lens = lens_of(records);
    let views = views_of(records);
    lemma_laid_ahead(a, mid, HEADER_SIZE as nat + p.len());
    assert(lens.take(i + 1).drop_last() =~= lens.take(i));
    assert(lens.take(i + 1).last() == p.len());
    let more = views.take(i + 1);
    assert(more.drop_last() =~= views.take(i));
    assert(more.last() == view_of(rec));
    assert(view_lens(more) =~= lens.take(i + 1));
    lemma_objects_step(a.objects(), mid.objects(), b.objects(), had, p);
    assert(had.push(p) =~= payloads_of(records).take(i + 1));
    lemma_push_set(had, p);
    assert(b.given@ =~= a.given@.union(had.push(p).to_set()));
    assert(b.seen@ =~= a.seen@.union(had.push(p).to_set()));
    lemma_moved_step(
        a.index@,
        mid.index@,
        b.index@,
        had,
        p,
        a.segment.seq_of(),
        mid.segment.seq_of(),
    );
}

proof fn lemma_stuck<B: IoBackend>(
    a: Store<B>,
    mid: Store<B>,
    records: Seq<PendingRecord>,
    i: int,
)
    requires
        0 <= i < records.len(),
        some_appended(a, mid, records, i),
        one_refused(mid, records[i]),
    ensures
        no_place(a, lens_of(records)),
{
    reveal(some_appended);
    reveal(one_refused);
    let lens = lens_of(records);
    let files = a.io.segments();
    let size = a.config.segment_size;
    lemma_laid_ahead(a, mid, HEADER_SIZE as nat + records[i].payload@.len());
    assert(lens.take(i + 1).drop_last() =~= lens.take(i));
    assert(lens.take(i + 1).last() == records[i].payload@.len());
    if laid_out(files, size, spot_of(a), lens) is Some {
        lemma_laid_prefix(files, size, spot_of(a), lens, i + 1);
    }
}

impl<B: IoBackend> Store<B> {
    /// Roll the segment where a record of `n` bytes does not fit into it any more.
    #[verifier::rlimit(40)]
    #[verifier::spinoff_prover]
    fn make_room(&mut self, n: u64) -> (r: Result<(), StoreError>)
        requires
            old(self).wf(),
        ensures
            same_state(*old(self), *final(self)),
            match r {
                Ok(_) => {
                    &&& final(self).wf()
                    &&& room_made(*old(self), *final(self), n as nat)
                    &&& spot_of(*final(self)).1 + n <= u64::MAX
                },
                Err(e) => {
                    ||| !old(self).io.reliable()
                    ||| e is Limit && final(self).wf() && laid_at(
                        old(self).io.segments(),
                        old(self).config.segment_size,
                        spot_of(*old(self)),
                        n as nat,
                    ) is None
                },
            },
    {
        proof {
            reveal(laid_at);
            reveal(room_made);
            reveal(same_behind);
            lemma_dom(*self);
        }
        let base: u64 = self.segment.durable_end() + self.segment.buffered_len();
        if base > u64::MAX - n || base + n > self.config.segment_size {
            match self.roll() {
                Ok(_) => {},
                Err(e) => return Err(e),
            }
            if self.segment.durable_end() > u64::MAX - n {
                return Err(StoreError::Limit("segment too long".to_string()));
            }
        }
        Ok(())
    }

    /// Append one record to the current segment; rolls the segment when full.
    #[verifier::spinoff_prover]
    fn append_record(&mut self, rec: &PendingRecord) -> (r: Result<(), StoreError>)
        requires
            old(self).wf(),
        ensures
            same_state(*old(self), *final(self)),
            match r {
                Ok(_) => final(self).wf() && one_appended(*old(self), *final(self), *rec),
                Err(e) => {
                    ||| !old(self).io.reliable()
                    ||| e is Limit && final(self).wf() && one_refused(*old(self), *rec)
                },
            },
    {
        let ghost was = *self;
        if rec.payload.len() > 0xffff_ffff {
            proof {
                reveal(one_refused);
            }
            return Err(StoreError::Limit("record payload too long".to_string()));
        }
        let encoded = encode_record(rec);
        let n: u64 = encoded.len() as u64;
        match self.make_room(n) {
            Ok(_) => {},
            Err(e) => {
                proof {
                    reveal(one_refused);
                }
                return Err(e);
            },
        }
        let ghost mid = *self;
        self.append_encoded(rec, encoded);
        proof {
            lemma_one_appended(was, mid, *self, *rec);
        }
        Ok(())
    }
}

/// The bytes of a pending record.
fn encode_record(rec: &PendingRecord) -> (r: Vec<u8>)
    requires
        rec.payload@.len() <= u32::MAX,
    ensures
        encodes(r@, *rec),
        r@.len() == HEADER_SIZE + rec.payload@.len(),
{
    let flags: u16 = match rec.materialized_len {
        Some(_) => FLAG_HAS_MATERIALIZED_LEN,
        None => 0,
    };
    proof {
        reveal(encodes);
    }
    record::encode(rec.tag, flags, rec.materialized_len, &rec.payload)
}

/// Where a record goes rests on the files ahead, which are as they were.
proof fn lemma_laid_ahead<B: IoBackend>(a: Store<B>, b: Store<B>, size: nat)
    requires
        same_ahead(a, b),
    ensures
        laid_at(b.io.segments(), a.config.segment_size, spot_of(b), size) == laid_at(
            a.io.segments(),
            a.config.segment_size,
            spot_of(b),
            size,
        ),
{
    reveal(laid_at);
    let s = spot_of(b);
    if s.0 < u64::MAX {
        let next = (s.0 + 1) as u64;
        assert(file_of(b.io.segments(), next) == file_of(a.io.segments(), next));
    }
}

proof fn lemma_floor_lowers(
    a: Seq<(Seq<u8>, Location)>,
    b: Seq<(Seq<u8>, Location)>,
    p: Seq<u8>,
    floor: u64,
    low: u64,
)
    requires
        moved_on(a, b, seq![p], floor),
        low <= floor,
    ensures
        moved_on(a, b, seq![p], low),
{
    reveal(moved_on);
}

proof fn lemma_moved_step(
    a: Seq<(Seq<u8>, Location)>,
    b: Seq<(Seq<u8>, Location)>,
    c: Seq<(Seq<u8>, Location)>,
    ps: Seq<Seq<u8>>,
    p: Seq<u8>,
    floor: u64,
    next: u64,
)
    requires
        moved_on(a, b, ps, floor),
        moved_on(b, c, seq![p], next),
        floor <= next,
    ensures
        moved_on(a, c, ps.push(p), floor),
{
    reveal(moved_on);
    let all = ps.push(p);
    assert forall|k: Seq<u8>|
        (#[trigger] lookup(c, k)) == lookup(a, k) || (lookup(c, k) matches Some(l)
            && l.segment_seq >= floor) by {
        let _ = lookup(b, k);
    }
    assert forall|i: int| 0 <= i < all.len() implies (lookup(
        c,
        digest(#[trigger] all[i]),
    ) matches Some(l) && l.segment_seq >= floor) by {
        if i < ps.len() {
            assert(all[i] == ps[i]);
            assert(lookup(b, digest(ps[i])) is Some);
        } else {
            assert(seq![p][0] == all[i]);
        }
    }
}

proof fn lemma_push_set(s: Seq<Seq<u8>>, p: Seq<u8>)
    ensures
        s.push(p).to_set() == s.to_set().insert(p),
{
    let t = s.push(p);
    assert forall|x: Seq<u8>| #[trigger] t.to_set().contains(x) == s.to_set().insert(p).contains(
        x,
    ) by {
        if s.contains(x) {
            let i = choose|i: int| 0 <= i < s.len() && s[i] == x;
            assert(t[i] == x);
        }
        assert(t[s.len() as int] == p);
        if t.contains(x) {
            let i = choose|i: int| 0 <= i < t.len() && t[i] == x;
            if i < s.len() {
                assert(s[i] == x);
            }
        }
    }
    assert(t.to_set() =~= s.to_set().insert(p));
}

proof fn lemma_objects_step(
    a: Set<Seq<u8>>,
    b: Set<Seq<u8>>,
    c: Set<Seq<u8>>,
    ps: Seq<Seq<u8>>,
    p: Seq<u8>,
)
    requires
        objects_after(a, b, ps),
        objects_with(b, c, p),
    ensures
        objects_after(a, c, ps.push(p)),
{
    let has = ps.push(p);
    assert forall|x: Seq<u8>| digest_found(b, x) implies #[trigger] digest_found(c, x) by {
        let y = choose|y: Seq<u8>| #[trigger] b.contains(y) && digest(y) == digest(x);
        if digest(y) == digest(p) {
            assert(c.contains(p));
        } else {
            assert(c.contains(y));
        }
    }
    assert forall|j: int| 0 <= j < has.len() implies digest_found(c, #[trigger] has[j]) by {
        if j < ps.len() {
            assert(has[j] == ps[j]);
            assert(digest_found(b, ps[j]));
        } else {
            assert(c.contains(p));
        }
    }
    assert forall|x: Seq<u8>| #[trigger] a.contains(x) implies digest_found(c, x) by {
        assert(digest_found(b, x));
    }
    assert forall|x: Seq<u8>| #[trigger] c.contains(x) implies a.contains(x) || exists|j: int|
        0 <= j < has.len() && #[trigger] has[j] == x by {
        if x == p {
            assert(has[ps.len() as int] == x);
        } else {
            assert(b.contains(x));
            if !a.contains(x) {
                let j = choose|j: int| 0 <= j < ps.len() && #[trigger] ps[j] == x;
                assert(has[j] == ps[j]);
            }
        }
    }
}

impl<B: IoBackend> Store<B> {
    /// Append pending records to the current segment, rolling it when full.
    #[verifier::rlimit(40)]
    pub fn append_records(&mut self, records: &Vec<PendingRecord>) -> (r: Result<(), StoreError>)
        requires
            old(self).wf(),
        ensures
            same_state(*old(self), *final(self)),
            match r {
                Ok(_) => {
                    &&& final(self).wf()
                    &&& objects_after(
                        old(self).objects(),
                        final(self).objects(),
                        payloads_of(records@),
                    )
                    &&& final(self).given@ == old(self).given@.union(
                        payloads_of(records@).to_set(),
                    )
                    &&& final(self).seen@ == old(self).seen@.union(
                        payloads_of(records@).to_set(),
                    )
                    &&& final(self).segment.seq_of() >= old(self).segment.seq_of()
                    &&& final(self).segment.seq_of() <= old(self).segment.seq_of() + records@.len()
                    &&& laid_out(
                        old(self).io.segments(),
                        old(self).config.segment_size,
                        spot_of(*old(self)),
                        lens_of(records@),
                    ) == Some(spot_of(*final(self)))
                    &&& final(self).laid@ == laid_down(
                        old(self).laid@,
                        old(self).io.segments(),
                        old(self).config.segment_size,
                        spot_of(*old(self)),
                        views_of(records@),
                    )
                    &&& keeps_backed(*old(self), *final(self))
                    &&& same_behind(*old(self), *final(self))
                    &&& same_ahead(*old(self), *final(self))
                    &&& moved_on(
                        old(self).index@,
                        final(self).index@,
                        payloads_of(records@),
                        old(self).segment.seq_of(),
                    )
                },
                Err(e) => {
                    ||| !old(self).io.reliable()
                    ||| e is Limit && final(self).wf() && no_place(
                        *old(self),
                        lens_of(records@),
                    )
                },
            },
    {
        let ghost was = *self;
        let mut i: usize = 0;
        proof {
            lemma_none_appended(was, records@);
        }
        while i < records.len()
            invariant
                i <= records@.len(),
                was == *old(self),
                same_state(was, *self),
                self.wf(),
                some_appended(was, *self, records@, i as int),
            decreases records@.len() - i,
        {
            let ghost mid = *self;
            match self.append_record(&records[i]) {
                Ok(_) => {},
                Err(e) => {
                    proof {
                        if was.io.reliable() {
                            lemma_stuck(was, mid, records@, i as int);
                        }
                    }
                    return Err(e);
                },
            }
            proof {
                lemma_one_more(was, mid, *self, records@, i as int);
                reveal(some_appended);
            }
            i += 1;
        }
        proof {
            reveal(some_appended);
            assert(payloads_of(records@).take(i as int) =~= payloads_of(records@));
            assert(lens_of(records@).take(i as int) =~= lens_of(records@));
            assert(views_of(records@).take(i as int) =~= views_of(records@));
        }
        Ok(())
    }
}

} // verus!
