//! The store: segment files and superblock slots behind a transport, the index
//! of their objects, the current root and the commit protocol.

use vstd::prelude::*;

use crate::chunk::{digest, ChunkId};
use crate::codec::CodecError;
use crate::epoch::Epoch;
use crate::error::StoreError;
use crate::io::{file_of, opened, payload_in, same_but, segment_synced, IoBackend, IoBackendKind};
use crate::object::{Location, ObjectIndex};
use crate::place::{laid_one, laid_out, lemma_crowded, lens_of, open_end, view_of};
use crate::record::{self, record_bytes, record_of, record_ok, RecordView, FLAG_HAS_MATERIALIZED_LEN,
    HEADER_SIZE};
use crate::root::Root;
use crate::segment::{lemma_records_push, magic_bytes, records_bytes,
    SegmentWriter};
use crate::sorted::{has_key, lemma_rank, lookup, rank, sorted, upsert};
use crate::superblock::Superblock;
use crate::transaction::{committed, index_sound, object_at, PendingRecord};
use crate::tried::Tried;
use crate::tree::clash_free;

verus! {

/// Store configuration: what the store's rules read.
#[derive(Debug, Clone, Copy, PartialEq, Eq)]
pub struct StoreConfig {
    /// Segment size cap (bytes); segments roll over when full.
    pub segment_size: u64,
    /// Maximum records scanned per segment (defense).
    pub max_records_per_segment: u64,
    /// Node fanout that readers accept.
    pub max_fanout: u32,
    /// Chunk size class of new extents.
    pub chunk_class: u64,
    /// Capacity override: caps the reported physical capacity.
    pub capacity_override: Option<u64>,
    /// Owner uid of the filesystem root directory.
    pub root_uid: u32,
    /// Owner gid of the filesystem root directory.
    pub root_gid: u32,
    /// Storage transport.
    pub io_backend: IoBackendKind,
    /// Submission queue capacity of the io_uring transport.
    pub io_uring_entries: u32,
}

/// The filesystem store.
pub struct Store<B: IoBackend> {
    /// Storage transport.
    pub io: B,
    pub config: StoreConfig,
    /// Derived object index; append-only while mounted.
    pub index: ObjectIndex,
    /// Current segment.
    pub segment: SegmentWriter,
    /// Current root.
    pub root: Root,
    /// Superblock last written.
    pub superblock: Superblock,
    /// Commit generation.
    pub generation: u64,
    /// Feature bits in use.
    pub features_in_use: u64,
    /// The active epoch.
    pub epoch: Epoch,
    /// Operations staged since the last checkpoint.
    pub epoch_pending: u64,
    /// The records of each segment.
    pub laid: Ghost<Map<u64, Seq<RecordView>>>,
    /// Every payload that was put.
    pub given: Ghost<Set<Seq<u8>>>,
    /// Every payload that was put or tried.
    pub seen: Tried<B>,
}

/// The objects are payloads that were put; for every payload that was put, an
/// object of its digest is there.
pub open spec fn given_held(objects: Set<Seq<u8>>, given: Set<Seq<u8>>) -> bool {
    &&& objects.subset_of(given)
    &&& forall|x: Seq<u8>| #[trigger] given.contains(x) ==> digest_found(objects, x)
}

/// Where no two payloads share a digest, the objects are the payloads.
pub proof fn lemma_given(objects: Set<Seq<u8>>, given: Set<Seq<u8>>)
    requires
        given_held(objects, given),
        clash_free(given),
    ensures
        objects == given,
{
    assert forall|x: Seq<u8>| #[trigger] given.contains(x) implies objects.contains(x) by {
        assert(digest_found(objects, x));
        let y = choose|y: Seq<u8>| #[trigger] objects.contains(y) && digest(y) == digest(x);
        assert(given.contains(y));
    }
    assert(objects =~= given);
}

// ---------------------------------------------------------------------------
// Segments as runs of records
// ---------------------------------------------------------------------------

/// A record of this store: it reads back, under its own content id.
pub open spec fn own_record(v: RecordView) -> bool {
    record_ok(v) && v.content_id == digest(v.payload)
}

/// The magic and these records.
pub open spec fn body_of(rs: Seq<RecordView>) -> Seq<u8> {
    magic_bytes() + records_bytes(rs)
}

/// The file is the magic and these records, and maybe a torn tail; or it was
/// created and nothing written.
pub open spec fn file_laid(f: Seq<u8>, rs: Seq<RecordView>) -> bool {
    &&& forall|i: int| 0 <= i < rs.len() ==> own_record(#[trigger] rs[i])
    &&& {
        ||| f.len() == 0 && rs.len() == 0
        ||| {
            &&& body_of(rs).len() <= f.len()
            &&& f.take(body_of(rs).len() as int) == body_of(rs)
            &&& torn(f.skip(body_of(rs).len() as int))
        }
    }
}

/// Nothing, zero padding, or a record cut short.
pub open spec fn torn(tail: Seq<u8>) -> bool {
    ||| tail.len() == 0
    ||| crate::record::parse_record(tail) == Ok::<Option<RecordView>, CodecError>(None)
    ||| crate::record::parse_record(tail) == Err::<Option<RecordView>, CodecError>(
        CodecError::Truncated,
    )
}

/// The location lies within the records of its segment.
pub open spec fn inside_records(laid: Map<u64, Seq<RecordView>>, l: Location) -> bool {
    &&& laid.contains_key(l.segment_seq)
    &&& l.offset + HEADER_SIZE + l.stored_len <= body_of(laid[l.segment_seq]).len()
}

/// Every indexed object lies within the records of its segment.
pub open spec fn index_placed(
    laid: Map<u64, Seq<RecordView>>,
    index: Seq<(Seq<u8>, Location)>,
) -> bool {
    forall|i: int| 0 <= i < index.len() ==> inside_records(laid, (#[trigger] index[i]).1)
}

/// Every segment is a run of records.
pub open spec fn disk_laid(disk: Map<u64, Seq<u8>>, laid: Map<u64, Seq<RecordView>>) -> bool {
    &&& disk.dom() == laid.dom()
    &&& forall|s: u64| #[trigger] laid.contains_key(s) ==> file_laid(disk[s], laid[s])
}

/// A record of this id is laid down in the segment.
#[verifier::opaque]
pub open spec fn laid_id(laid: Map<u64, Seq<RecordView>>, s: u64, id: Seq<u8>) -> bool {
    laid.contains_key(s) && exists|j: int|
        0 <= j < laid[s].len() && (#[trigger] laid[s][j]).content_id == id
}

/// Every indexed id is that of a record of its segment, and every record's payload
/// was put.
#[verifier::opaque]
pub open spec fn traced(
    laid: Map<u64, Seq<RecordView>>,
    index: Seq<(Seq<u8>, Location)>,
    seen: Set<Seq<u8>>,
) -> bool {
    &&& forall|i: int|
        0 <= i < index.len() ==> laid_id(
            laid,
            (#[trigger] index[i]).1.segment_seq,
            index[i].0,
        )
    &&& forall|s: u64, j: int|
        #![trigger laid[s][j]]
        laid.contains_key(s) && 0 <= j < laid[s].len() ==> seen.contains(laid[s][j].payload)
}

/// The records of the segments once one was opened for appending.
pub open spec fn laid_with(laid: Map<u64, Seq<RecordView>>, seq: u64) -> Map<
    u64,
    Seq<RecordView>,
> {
    if laid.contains_key(seq) {
        laid
    } else {
        laid.insert(seq, Seq::empty())
    }
}

/// The segments and what is buffered for the current one.
pub open spec fn disk_of(segments: Map<u64, Seq<u8>>, w: SegmentWriter) -> Map<u64, Seq<u8>> {
    segments.insert(w.seq_of(), file_of(segments, w.seq_of()) + w.buffered())
}

impl<B: IoBackend> Store<B> {
    /// The segments as the next flush leaves them.
    pub open spec fn disk(&self) -> Map<u64, Seq<u8>> {
        disk_of(self.io.segments(), self.segment)
    }

    /// The payloads of the indexed objects.
    pub open spec fn objects(&self) -> Set<Seq<u8>> {
        committed(self.disk(), self.index@)
    }

    /// Segments are runs of records, and what is indexed is among them; the writer
    /// is at the end of its file.
    pub open spec fn wf(&self) -> bool {
        &&& file_of(self.io.segments(), self.segment.seq_of()).len() == self.segment.end_of()
        &&& self.segment.end_of() + self.segment.buffered().len() <= u64::MAX
        &&& disk_laid(self.disk(), self.laid@)
        &&& index_sound(self.disk(), self.index@)
        &&& index_placed(self.laid@, self.index@)
        &&& given_held(self.objects(), self.given@)
        &&& self.given@.subset_of(self.seen@)
        &&& traced(self.laid@, self.index@, self.seen@)
        &&& self.disk()[self.segment.seq_of()] == body_of(self.laid@[self.segment.seq_of()])
    }

    /// Nothing is buffered: what is indexed can be read.
    pub open spec fn flushed(&self) -> bool {
        &&& self.wf()
        &&& self.segment.buffered().len() == 0
    }
}

/// Every segment file but the current one is durable as it is, and so is its entry.
#[verifier::opaque]
pub open spec fn backed<B: IoBackend>(io: B, current: u64) -> bool {
    forall|s: u64| #[trigger]
        io.segments().contains_key(s) && s != current ==> {
            &&& io.synced().names.contains(s)
            &&& io.synced().segments.contains_key(s)
            &&& io.synced().segments[s] == io.segments()[s]
        }
}

/// What is behind the current segment stays durable.
pub open spec fn keeps_backed<B: IoBackend>(a: Store<B>, b: Store<B>) -> bool {
    backed(a.io, a.segment.seq_of()) ==> backed(b.io, b.segment.seq_of())
}

/// What a commit leaves alone.
pub open spec fn same_state<B: IoBackend>(a: Store<B>, b: Store<B>) -> bool {
    &&& a.config == b.config
    &&& a.root == b.root
    &&& a.superblock == b.superblock
    &&& a.generation == b.generation
    &&& a.features_in_use == b.features_in_use
    &&& a.epoch == b.epoch
    &&& a.epoch_pending == b.epoch_pending
    &&& a.io.superblock() == b.io.superblock()
    &&& a.io.reliable() == b.io.reliable()
    &&& a.seen@.subset_of(b.seen@)
}

/// The objects of `b` are those of `a` and the payloads; an object of the same
/// digest as a payload gives way to it.
pub open spec fn objects_with(a: Set<Seq<u8>>, b: Set<Seq<u8>>, payload: Seq<u8>) -> bool {
    &&& b.contains(payload)
    &&& forall|x: Seq<u8>| #[trigger] a.contains(x) && digest(x) != digest(payload) ==> b.contains(x)
    &&& forall|x: Seq<u8>| #[trigger] b.contains(x) ==> a.contains(x) || x == payload
}

// ---------------------------------------------------------------------------
// Appending
// ---------------------------------------------------------------------------

/// The record's flags.
pub open spec fn flags_of(materialized_len: Option<u64>) -> u16 {
    if materialized_len is Some {
        FLAG_HAS_MATERIALIZED_LEN
    } else {
        0
    }
}

proof fn lemma_flags(materialized_len: Option<u64>)
    ensures
        (flags_of(materialized_len) & FLAG_HAS_MATERIALIZED_LEN != 0) == (materialized_len is Some),
{
    assert(1u16 & 1u16 != 0 && 0u16 & 1u16 == 0) by (bit_vector);
}

/// A payload written at the end of a file is found there, and what was found
/// before still is.
proof fn lemma_appended(f: Seq<u8>, v: RecordView)
    requires
        record_ok(v),
    ensures
        payload_in(f + record_bytes(v), f.len(), v.payload.len()) == Some(v.payload),
        forall|o: nat, n: nat| #[trigger]
            payload_in(f, o, n) is Some ==> payload_in(f + record_bytes(v), o, n) == payload_in(
                f,
                o,
                n,
            ),
{
    let g = f + record_bytes(v);
    record::record_round_trip(v, Seq::empty());
    record::lemma_record_payload(v);
    assert(g.subrange(
        (f.len() + HEADER_SIZE) as int,
        (f.len() + HEADER_SIZE + v.payload.len()) as int,
    ) =~= record_bytes(v).subrange(
        HEADER_SIZE as int,
        (HEADER_SIZE + v.payload.len()) as int,
    ));
    assert forall|o: nat, n: nat| #[trigger] payload_in(f, o, n) is Some implies payload_in(g, o, n)
        == payload_in(f, o, n) by {
        assert(g.subrange((o + HEADER_SIZE) as int, (o + HEADER_SIZE + n) as int) =~= f.subrange(
            (o + HEADER_SIZE) as int,
            (o + HEADER_SIZE + n) as int,
        ));
    }
}

/// Indexing an object that a segment holds.
pub proof fn lemma_indexed(
    disk: Map<u64, Seq<u8>>,
    next: Map<u64, Seq<u8>>,
    index: Seq<(Seq<u8>, Location)>,
    loc: Location,
    payload: Seq<u8>,
)
    requires
        index_sound(disk, index),
        forall|l: Location| #[trigger]
            object_at(disk, l) is Some ==> object_at(next, l) == object_at(disk, l),
        object_at(next, loc) == Some(payload),
    ensures
        index_sound(next, upsert(index, digest(payload), loc)),
        objects_with(
            committed(disk, index),
            committed(next, upsert(index, digest(payload), loc)),
            payload,
        ),
        forall|id: Seq<u8>| #[trigger]
            has_key(index, id) ==> has_key(upsert(index, digest(payload), loc), id),
        has_key(upsert(index, digest(payload), loc), digest(payload)),
{
    let id = digest(payload);
    let u = upsert(index, id, loc);
    lemma_rank(index, id);
    crate::epoch::lemma_upsert_at(index, id, loc);
    crate::epoch::lemma_upsert_keys(index, id, loc);
    assert forall|i: int| 0 <= i < u.len() implies (object_at(
        next,
        (#[trigger] u[i]).1,
    ) matches Some(b) && digest(b) == u[i].0) by {
        if u[i] != (id, loc) {
            let j = choose|j: int| 0 <= j < index.len() && index[j] == u[i];
            assert(object_at(disk, index[j].1) is Some);
        }
    }
    let a = committed(disk, index);
    let b = committed(next, u);
    let r = rank(index, id);
    assert(u[r] == (id, loc));
    assert(b.contains(payload));
    assert forall|x: Seq<u8>| #[trigger] a.contains(x) && digest(x) != id implies b.contains(x) by {
        let j = choose|j: int|
            0 <= j < index.len() && object_at(disk, (#[trigger] index[j]).1) == Some(x);
        assert(index[j].0 == digest(x));
        crate::epoch::lemma_at(index, j);
        lemma_rank(u, index[j].0);
        assert(lookup(u, index[j].0) == Some(index[j].1));
        let k = rank(u, index[j].0);
        assert(object_at(next, u[k].1) == Some(x));
    }
    assert forall|x: Seq<u8>| #[trigger] b.contains(x) implies a.contains(x) || x == payload by {
        let k = choose|k: int|
            0 <= k < u.len() && object_at(next, (#[trigger] u[k]).1) == Some(x);
        if u[k] != (id, loc) {
            let j = choose|j: int| 0 <= j < index.len() && index[j] == u[k];
            assert(object_at(disk, index[j].1) is Some);
            assert(object_at(disk, index[j].1) == Some(x));
        }
    }
    assert forall|q: Seq<u8>| #[trigger] has_key(index, q) implies has_key(u, q) by {
        crate::fs::lemma_has_key(index, q);
        crate::fs::lemma_has_key(u, q);
        assert(lookup(u, q) is Some);
    }
    crate::fs::lemma_has_key(u, id);
}

/// Files other than the one that changed are the same.
pub proof fn lemma_same_but(a: Map<u64, Seq<u8>>, b: Map<u64, Seq<u8>>, seq: u64, s: u64)
    requires
        same_but(a, b, seq),
        s != seq,
    ensures
        a.contains_key(s) == b.contains_key(s),
        a.contains_key(s) ==> a[s] == b[s],
        file_of(a, s) == file_of(b, s),
{
    assert(a.remove(seq).contains_key(s) == b.remove(seq).contains_key(s));
    if a.contains_key(s) {
        assert(a.remove(seq)[s] == b.remove(seq)[s]);
    }
}

/// A run of records is clean to its torn tail.
pub proof fn lemma_laid_clean(f: Seq<u8>, rs: Seq<RecordView>)
    requires
        file_laid(f, rs),
        f.len() > 0,
    ensures
        f.len() >= 4,
        crate::segment::has_magic(f),
        crate::io::clean_end(f) == body_of(rs).len(),
        f.take(crate::io::clean_end(f) as int) == body_of(rs),
{
    crate::codec::lemma_scan_u32(crate::version::SEGMENT_MAGIC, Seq::empty());
    let body = body_of(rs);
    assert(magic_bytes().len() == 4);
    assert(f.take(4) =~= body.take(4));
    assert(body.take(4) =~= magic_bytes());
    assert forall|i: int| 0 <= i < rs.len() implies record_ok(#[trigger] rs[i]) by {
        assert(own_record(rs[i]));
    }
    lemma_clean_tail(magic_bytes(), rs, f.skip(body.len() as int));
    assert(f =~= body + f.skip(body.len() as int));
    assert(magic_bytes() + records_bytes(rs) + f.skip(body.len() as int) =~= f);
}

proof fn lemma_clean_tail(head: Seq<u8>, rs: Seq<RecordView>, tail: Seq<u8>)
    requires
        forall|i: int| 0 <= i < rs.len() ==> record_ok(#[trigger] rs[i]),
        torn(tail),
    ensures
        crate::io::clean_from(head + records_bytes(rs) + tail, head.len()) == (head + records_bytes(
            rs,
        )).len(),
    decreases rs.len(),
{
    let whole = head + records_bytes(rs) + tail;
    if rs.len() > 0 {
        let v = rs[0];
        let rest = rs.drop_first();
        record::record_round_trip(v, records_bytes(rest) + tail);
        assert(whole.skip(head.len() as int) =~= record_bytes(v) + (records_bytes(rest) + tail));
        assert forall|i: int| 0 <= i < rest.len() implies record_ok(#[trigger] rest[i]) by {
            assert(rest[i] == rs[i + 1]);
        }
        let head2 = head + record_bytes(v);
        assert(whole =~= head2 + records_bytes(rest) + tail);
        lemma_clean_tail(head2, rest, tail);
    } else {
        assert(whole.skip(head.len() as int) =~= tail);
    }
}

/// Opening a segment of a laid disk keeps every indexed object.
pub proof fn lemma_opened(
    segs: Map<u64, Seq<u8>>,
    now: Map<u64, Seq<u8>>,
    laid: Map<u64, Seq<RecordView>>,
    index: Seq<(Seq<u8>, Location)>,
    seq: u64,
    end: nat,
)
    requires
        disk_laid(segs, laid),
        index_sound(segs, index),
        index_placed(laid, index),
        opened(file_of(segs, seq), file_of(now, seq), end),
        same_but(segs, now, seq),
    ensures
        disk_laid(now, laid_with(laid, seq)),
        index_sound(now, index),
        index_placed(laid_with(laid, seq), index),
        committed(now, index) == committed(segs, index),
        now.contains_key(seq),
        now[seq] == body_of(laid_with(laid, seq)[seq]),
        end == now[seq].len(),
        forall|seen: Set<Seq<u8>>| #[trigger]
            traced(laid, index, seen) ==> traced(laid_with(laid, seq), index, seen),
{
    let next = laid_with(laid, seq);
    let f = file_of(now, seq);
    crate::codec::lemma_scan_u32(crate::version::SEGMENT_MAGIC, Seq::empty());
    assert(body_of(Seq::empty()) =~= magic_bytes());
    if laid.contains_key(seq) {
        assert(segs.contains_key(seq));
        if segs[seq].len() > 0 {
            lemma_laid_clean(segs[seq], laid[seq]);
        } else {
            assert(laid[seq] =~= Seq::empty());
        }
    } else {
        assert(!segs.contains_key(seq)) by {
            if segs.contains_key(seq) {
                assert(laid.contains_key(seq));
            }
        }
    }
    assert(f == body_of(next[seq]));
    assert(f.len() > 0);
    assert(now.contains_key(seq)) by {
        if !now.contains_key(seq) {
            assert(f.len() == 0);
        }
    }
    assert(f.take(f.len() as int) =~= f);
    assert(file_laid(f, next[seq])) by {
        assert forall|i: int| 0 <= i < next[seq].len() implies own_record(
            #[trigger] next[seq][i],
        ) by {
            assert(laid.contains_key(seq));
            assert(file_laid(segs[seq], laid[seq]));
        }
    }
    assert forall|s: u64| #[trigger] now.contains_key(s) == next.contains_key(s) by {
        if s != seq {
            lemma_same_but(segs, now, seq, s);
            assert(segs.contains_key(s) == laid.contains_key(s));
        }
    }
    assert(now.dom() =~= next.dom());
    assert forall|s: u64| #[trigger] next.contains_key(s) implies file_laid(now[s], next[s]) by {
        if s != seq {
            lemma_same_but(segs, now, seq, s);
            assert(laid.contains_key(s));
        }
    }
    assert forall|i: int| 0 <= i < index.len() implies object_at(now, (#[trigger] index[i]).1)
        == object_at(segs, index[i].1) && inside_records(next, index[i].1) by {
        let l = index[i].1;
        assert(inside_records(laid, l));
        if l.segment_seq != seq {
            lemma_same_but(segs, now, seq, l.segment_seq);
        } else {
            assert(object_at(segs, l) is Some);
            let o = (l.offset + HEADER_SIZE) as int;
            assert(f.subrange(o, o + l.stored_len) =~= segs[seq].subrange(o, o + l.stored_len));
        }
    }
    lemma_sound_moves(segs, now, index);
    assert forall|seen: Set<Seq<u8>>| #[trigger] traced(laid, index, seen) implies traced(
        next,
        index,
        seen,
    ) by {
        reveal(traced);
        reveal(laid_id);
        assert forall|i: int| 0 <= i < index.len() implies laid_id(
            next,
            (#[trigger] index[i]).1.segment_seq,
            index[i].0,
        ) by {
            let s = index[i].1.segment_seq;
            assert(laid_id(laid, s, index[i].0));
            let j = choose|j: int|
                0 <= j < laid[s].len() && (#[trigger] laid[s][j]).content_id == index[i].0;
            assert(next[s][j] == laid[s][j]);
        }
        assert forall|s: u64, j: int|
            #![trigger next[s][j]]
            next.contains_key(s) && 0 <= j < next[s].len() implies seen.contains(
            next[s][j].payload,
        ) by {
            assert(laid[s][j] == next[s][j]);
        }
    }
}

impl<B: IoBackend> Store<B> {
    /// Flush buffered segment bytes.
    pub fn flush_segment(&mut self) -> (r: Result<(), StoreError>)
        requires
            old(self).wf(),
        ensures
            same_state(*old(self), *final(self)),
            final(self).index@ == old(self).index@,
            final(self).laid == old(self).laid,
            final(self).given == old(self).given,
            final(self).seen == old(self).seen,
            final(self).segment.seq_of() == old(self).segment.seq_of(),
            final(self).io.synced() == old(self).io.synced(),
            keeps_backed(*old(self), *final(self)),
            match r {
                Ok(_) => {
                    &&& final(self).flushed()
                    &&& final(self).disk() == old(self).disk()
                    &&& final(self).io.segments() == old(self).disk()
                },
                Err(e) => e is Segment && !old(self).io.reliable(),
            },
    {
        let ghost was = *self;
        let ghost segs = self.io.segments();
        let ghost seq = self.segment.seq_of();
        let ghost f = file_of(segs, seq);
        let flushed = self.segment.flush(&mut self.io);
        proof {
            lemma_backed_but(was.io, self.io, seq);
        }
        match flushed {
            Ok(_) => {
                proof {
                    let b = was.segment.buffered();
                    if b.len() > 0 {
                        crate::io::write_at_end_appends(f, b);
                        assert(self.io.segments() == was.disk());
                    } else {
                        lemma_dom(was);
                        assert(f + b =~= f);
                        assert(was.disk() =~= segs);
                    }
                    assert(file_of(self.io.segments(), seq) + self.segment.buffered() =~= file_of(
                        self.io.segments(),
                        seq,
                    ));
                    assert(self.disk() =~= was.disk());
                }
                Ok(())
            },
            Err(e) => Err(StoreError::Segment(e)),
        }
    }

    /// Flush and fdatasync the current segment.
    pub fn fdatasync_segment(&mut self) -> (r: Result<(), StoreError>)
        requires
            old(self).wf(),
        ensures
            same_state(*old(self), *final(self)),
            final(self).index@ == old(self).index@,
            final(self).laid == old(self).laid,
            final(self).given == old(self).given,
            final(self).seen == old(self).seen,
            final(self).segment.seq_of() == old(self).segment.seq_of(),
            keeps_backed(*old(self), *final(self)),
            match r {
                Ok(_) => {
                    &&& final(self).flushed()
                    &&& final(self).disk() == old(self).disk()
                    &&& final(self).io.segments() == old(self).disk()
                    &&& segment_synced(
                        old(self).io.synced(),
                        final(self).io.synced(),
                        old(self).disk(),
                        old(self).segment.seq_of(),
                        true,
                    )
                },
                Err(e) => e is Segment && !old(self).io.reliable(),
            },
    {
        match self.flush_segment() {
            Ok(_) => {},
            Err(e) => return Err(e),
        }
        let ghost mid = *self;
        let synced = self.segment.fdatasync(&mut self.io);
        proof {
            let seq = mid.segment.seq_of();
            let done = mid.io.synced().segments.insert(seq, file_of(mid.io.segments(), seq));
            assert(done.remove(seq) =~= mid.io.synced().segments.remove(seq));
            lemma_backed_but(mid.io, self.io, seq);
        }
        match synced {
            Ok(_) => Ok(()),
            Err(e) => Err(StoreError::Segment(e)),
        }
    }

    /// Close the current segment and go on in the next.
    #[verifier::rlimit(60)]
    #[verifier::spinoff_prover]
    pub(crate) fn roll(&mut self) -> (r: Result<(), StoreError>)
        requires
            old(self).wf(),
        ensures
            same_state(*old(self), *final(self)),
            final(self).index@ == old(self).index@,
            final(self).given == old(self).given,
            final(self).seen == old(self).seen,
            match r {
                Ok(_) => {
                    &&& final(self).flushed()
                    &&& final(self).segment.seq_of() == old(self).segment.seq_of() + 1
                    &&& final(self).objects() == old(self).objects()
                    &&& same_ahead(*old(self), *final(self))
                    &&& final(self).segment.end_of() == open_end(
                        file_of(old(self).io.segments(), final(self).segment.seq_of()),
                    )
                    &&& final(self).laid@ == laid_with(
                        old(self).laid@,
                        final(self).segment.seq_of(),
                    )
                    &&& keeps_backed(*old(self), *final(self))
                    &&& same_behind(*old(self), *final(self))
                    &&& rolled_over(*old(self), *final(self))
                },
                Err(e) => {
                    ||| !old(self).io.reliable()
                    ||| e is Limit && old(self).segment.seq_of() == u64::MAX && final(self).wf()
                },
            },
    {
        let ghost was = *self;
        match self.fdatasync_segment() {
            Ok(_) => {},
            Err(e) => return Err(e),
        }
        let ghost mid = *self;
        let ghost segs = self.io.segments();
        let seq: u64 = self.segment.seq();
        if seq == u64::MAX {
            return Err(StoreError::Limit("no segment number left".to_string()));
        }
        let next: u64 = seq + 1;
        proof {
            lemma_dom(mid);
            if mid.laid@.contains_key(next) {
                assert(mid.disk().contains_key(next));
                assert(mid.disk()[next] == segs[next]);
                if segs[next].len() > 0 {
                    lemma_laid_clean(segs[next], mid.laid@[next]);
                }
            }
        }
        let w = match SegmentWriter::open(&mut self.io, next) {
            Ok(w) => w,
            Err(e) => {
                proof {
                    if mid.io.reliable() {
                        assert(segs.contains_key(next));
                        assert(mid.disk().contains_key(next));
                        assert(mid.laid@.contains_key(next));
                    }
                }
                return Err(StoreError::Segment(e));
            },
        };
        let ghost now_segs = self.io.segments();
        proof {
            self.laid@ = laid_with(self.laid@, next);
        }
        self.segment = w;
        proof {
            assert(mid.disk() =~= segs) by {
                assert(file_of(segs, seq) + mid.segment.buffered() =~= file_of(segs, seq));
            }
            lemma_opened(
                segs,
                now_segs,
                mid.laid@,
                self.index@,
                next,
                self.segment.end_of() as nat,
            );
            let f = file_of(now_segs, next);
            assert(f + w.buffered() =~= f);
            assert(self.disk() =~= now_segs);
        }
        let ghost t = *self;
        proof {
            let old_segs = was.io.segments();
            assert forall|s: u64| s > seq && s != next implies #[trigger] file_of(now_segs, s)
                == file_of(old_segs, s) by {
                assert(now_segs.remove(next).contains_key(s) == segs.remove(next).contains_key(s));
                if now_segs.contains_key(s) {
                    assert(now_segs.remove(next)[s] == segs.remove(next)[s]);
                }
                assert(segs == was.disk());
                assert(segs.contains_key(s) == old_segs.contains_key(s));
            }
            let f = file_of(segs, next);
            assert(f == file_of(old_segs, next)) by {
                assert(segs == was.disk());
            }
            assert(self.segment.end_of() == open_end(f)) by {
                reveal(open_end);
                if f.len() >= 4 {
                    crate::io::lemma_clean_bounds(f, 4);
                }
            }
        }
        assert(t.flushed()) by {
            crate::codec::lemma_scan_u32(crate::version::SEGMENT_MAGIC, Seq::empty());
        }
        assert(t.objects() == was.objects());
        match self.io.sync_segments_dir() {
            Ok(_) => {
                proof {
                    assert(self.disk() == t.disk());
                    if backed(mid.io, seq) {
                        lemma_backed_on(mid.io, t.io, self.io, seq, next);
                    }
                    lemma_rolled_behind(was, *self, segs, next);
                }
                Ok(())
            },
            Err(e) => Err(e),
        }
    }
}

/// What is done to the current file alone leaves the others durable.
pub(crate) proof fn lemma_backed_but<B: IoBackend>(a: B, b: B, current: u64)
    requires
        same_but(a.segments(), b.segments(), current),
        same_but(a.synced().segments, b.synced().segments, current),
        forall|s: u64|
            b.segments().contains_key(s) && a.synced().names.contains(s) ==> #[trigger] b.synced().names.contains(
                s,
            ),
    ensures
        backed(a, current) ==> backed(b, current),
{
    reveal(backed);
    if backed(a, current) {
        assert forall|s: u64| #[trigger] b.segments().contains_key(s) && s != current implies {
            &&& b.synced().names.contains(s)
            &&& b.synced().segments.contains_key(s)
            &&& b.synced().segments[s] == b.segments()[s]
        } by {
            assert(b.segments().remove(current).contains_key(s));
            assert(a.segments().remove(current)[s] == b.segments().remove(current)[s]);
            assert(a.segments().contains_key(s));
            assert(a.synced().segments.remove(current).contains_key(s));
            assert(a.synced().segments.remove(current)[s] == b.synced().segments.remove(
                current,
            )[s]);
        }
    }
}

proof fn lemma_rolled_behind<B: IoBackend>(
    a: Store<B>,
    b: Store<B>,
    segs: Map<u64, Seq<u8>>,
    next: u64,
)
    requires
        segs == a.disk(),
        next == a.segment.seq_of() + 1,
        same_but(segs, b.io.segments(), next),
    ensures
        same_behind(a, b),
        rolled_over(a, b),
{
    reveal(same_behind);
    reveal(rolled_over);
    assert forall|s: u64|
        s <= a.segment.seq_of() && #[trigger] a.disk().contains_key(
            s,
        ) implies b.io.segments().contains_key(s) && b.io.segments()[s] == a.disk()[s] by {
        assert(b.io.segments().remove(next).contains_key(s) == segs.remove(next).contains_key(s));
        assert(b.io.segments().remove(next)[s] == segs.remove(next)[s]);
    }
    assert forall|s: u64| s < a.segment.seq_of() implies {
        &&& #[trigger] b.io.segments().contains_key(s) == a.io.segments().contains_key(s)
        &&& a.io.segments().contains_key(s) ==> b.io.segments()[s] == a.io.segments()[s]
    } by {
        assert(b.io.segments().remove(next).contains_key(s) == segs.remove(next).contains_key(s));
        if segs.contains_key(s) {
            assert(b.io.segments().remove(next)[s] == segs.remove(next)[s]);
        }
    }
}

/// With the current file durable and the directory synced, the next one can be the
/// current one.
proof fn lemma_backed_on<B: IoBackend>(a: B, b: B, c: B, current: u64, next: u64)
    requires
        backed(a, current),
        current != next,
        a.synced().segments.contains_key(current),
        a.segments().contains_key(current) ==> a.synced().segments[current]
            == a.segments()[current],
        same_but(a.segments(), b.segments(), next),
        same_but(a.synced().segments, b.synced().segments, next),
        c.segments() == b.segments(),
        c.synced().segments == b.synced().segments,
        c.synced().names == b.segments().dom(),
    ensures
        backed(c, next),
{
    reveal(backed);
    assert forall|s: u64| #[trigger] c.segments().contains_key(s) && s != next implies {
        &&& c.synced().names.contains(s)
        &&& c.synced().segments.contains_key(s)
        &&& c.synced().segments[s] == c.segments()[s]
    } by {
        assert(b.segments().remove(next).contains_key(s));
        assert(a.segments().remove(next)[s] == b.segments().remove(next)[s]);
        assert(a.segments().contains_key(s));
        assert(a.synced().segments.remove(next).contains_key(s));
        assert(a.synced().segments.remove(next)[s] == b.synced().segments.remove(next)[s]);
    }
}

/// The current segment has a file.
pub proof fn lemma_dom<B: IoBackend>(st: Store<B>)
    requires
        st.wf(),
    ensures
        st.laid@.contains_key(st.segment.seq_of()),
        st.segment.buffered().len() == 0 ==> st.io.segments().contains_key(st.segment.seq_of()),
{
    let seq = st.segment.seq_of();
    assert(st.disk().contains_key(seq));
    assert(st.laid@.contains_key(seq));
    crate::codec::lemma_scan_u32(crate::version::SEGMENT_MAGIC, Seq::empty());
    if st.segment.buffered().len() == 0 && !st.io.segments().contains_key(seq) {
        assert(file_of(st.io.segments(), seq).len() == 0);
        assert(st.disk()[seq].len() == 0);
    }
}

/// What is indexed stays indexed where every indexed object stays in place.
pub proof fn lemma_sound_moves(
    disk: Map<u64, Seq<u8>>,
    next: Map<u64, Seq<u8>>,
    index: Seq<(Seq<u8>, Location)>,
)
    requires
        index_sound(disk, index),
        forall|i: int|
            0 <= i < index.len() ==> object_at(next, (#[trigger] index[i]).1) == object_at(
                disk,
                index[i].1,
            ),
    ensures
        index_sound(next, index),
        committed(next, index) == committed(disk, index),
{
    assert forall|i: int| 0 <= i < index.len() implies (object_at(
        next,
        (#[trigger] index[i]).1,
    ) matches Some(b) && digest(b) == index[i].0) by {
        assert(object_at(disk, index[i].1) is Some);
    }
    let a = committed(disk, index);
    let b = committed(next, index);
    assert forall|x: Seq<u8>| a.contains(x) == #[trigger] b.contains(x) by {
        if a.contains(x) {
            let i = choose|i: int|
                0 <= i < index.len() && object_at(disk, (#[trigger] index[i]).1) == Some(x);
            assert(object_at(next, index[i].1) == Some(x));
        }
        if b.contains(x) {
            let i = choose|i: int|
                0 <= i < index.len() && object_at(next, (#[trigger] index[i]).1) == Some(x);
            assert(object_at(disk, index[i].1) is Some);
        }
    }
    assert(a =~= b);
}

proof fn lemma_held(a: Set<Seq<u8>>, b: Set<Seq<u8>>, given: Set<Seq<u8>>, p: Seq<u8>)
    requires
        given_held(a, given),
        objects_with(a, b, p),
    ensures
        given_held(b, given.insert(p)),
{
    let g = given.insert(p);
    assert forall|x: Seq<u8>| #[trigger] g.contains(x) implies digest_found(b, x) by {
        if x != p {
            assert(digest_found(a, x));
            let y = choose|y: Seq<u8>| #[trigger] a.contains(y) && digest(y) == digest(x);
            if digest(y) == digest(p) {
                assert(b.contains(p));
            } else {
                assert(b.contains(y));
            }
        } else {
            assert(b.contains(p));
        }
    }
    assert forall|x: Seq<u8>| #[trigger] b.contains(x) implies g.contains(x) by {
        if x != p {
            assert(a.contains(x));
        }
    }
}

pub proof fn lemma_traced_grows(
    laid: Map<u64, Seq<RecordView>>,
    index: Seq<(Seq<u8>, Location)>,
    a: Set<Seq<u8>>,
    b: Set<Seq<u8>>,
)
    requires
        traced(laid, index, a),
        a.subset_of(b),
    ensures
        traced(laid, index, b),
{
    reveal(traced);
}

/// The index stays traced as a segment gains a record.
proof fn lemma_traced(
    laid: Map<u64, Seq<RecordView>>,
    index: Seq<(Seq<u8>, Location)>,
    seen: Set<Seq<u8>>,
    seq: u64,
    v: RecordView,
    loc: Location,
)
    requires
        sorted(index),
        traced(laid, index, seen),
        laid.contains_key(seq),
        loc.segment_seq == seq,
    ensures
        traced(
            laid.insert(seq, laid[seq].push(v)),
            upsert(index, v.content_id, loc),
            seen.insert(v.payload),
        ),
{
    reveal(traced);
    reveal(laid_id);
    let next = laid.insert(seq, laid[seq].push(v));
    let u = upsert(index, v.content_id, loc);
    let n = laid[seq].len() as int;
    lemma_rank(index, v.content_id);
    assert forall|i: int| 0 <= i < u.len() implies laid_id(
        next,
        (#[trigger] u[i]).1.segment_seq,
        u[i].0,
    ) by {
        if u[i] == (v.content_id, loc) {
            assert(next[seq][n].content_id == v.content_id);
        } else {
            let k = choose|k: int| 0 <= k < index.len() && index[k] == u[i];
            let s = index[k].1.segment_seq;
            assert(laid_id(laid, s, index[k].0));
            let j = choose|j: int|
                0 <= j < laid[s].len() && (#[trigger] laid[s][j]).content_id == index[k].0;
            assert(next[s][j] == laid[s][j]);
        }
    }
    assert forall|s: u64, j: int|
        #![trigger next[s][j]]
        next.contains_key(s) && 0 <= j < next[s].len() implies seen.insert(v.payload).contains(
        next[s][j].payload,
    ) by {
        if s == seq && j == n {
        } else {
            assert(laid[s][j] == next[s][j]);
        }
    }
}

/// The index stays placed as segments gain records.
pub proof fn lemma_placed(
    laid: Map<u64, Seq<RecordView>>,
    next: Map<u64, Seq<RecordView>>,
    index: Seq<(Seq<u8>, Location)>,
    id: Seq<u8>,
    loc: Location,
)
    requires
        sorted(index),
        index_placed(laid, index),
        inside_records(next, loc),
        forall|s: u64| #[trigger]
            laid.contains_key(s) ==> next.contains_key(s) && body_of(laid[s]).len() <= body_of(
                next[s],
            ).len(),
    ensures
        index_placed(next, upsert(index, id, loc)),
{
    let u = upsert(index, id, loc);
    lemma_rank(index, id);
    assert forall|i: int| 0 <= i < u.len() implies inside_records(next, (#[trigger] u[i]).1) by {
        if u[i] != (id, loc) {
            let j = choose|j: int| 0 <= j < index.len() && index[j] == u[i];
            assert(inside_records(laid, index[j].1));
        }
    }
}

/// The payloads are indexed at or behind the segment, and the other ids where they
/// were.
#[verifier::opaque]
pub open spec fn moved_on(
    was: Seq<(Seq<u8>, Location)>,
    now: Seq<(Seq<u8>, Location)>,
    payloads: Seq<Seq<u8>>,
    floor: u64,
) -> bool {
    &&& forall|k: Seq<u8>|
        (#[trigger] lookup(now, k)) == lookup(was, k) || (lookup(now, k) matches Some(l)
            && l.segment_seq >= floor)
    &&& forall|i: int|
        0 <= i < payloads.len() ==> (lookup(now, digest(#[trigger] payloads[i])) matches Some(l)
            && l.segment_seq >= floor)
}

proof fn lemma_moved_one(a: Seq<(Seq<u8>, Location)>, p: Seq<u8>, loc: Location, floor: u64)
    requires
        sorted(a),
        loc.segment_seq >= floor,
    ensures
        moved_on(a, upsert(a, digest(p), loc), seq![p], floor),
{
    reveal(moved_on);
    crate::epoch::lemma_upsert_at(a, digest(p), loc);
}

/// The bytes are those of the pending record.
#[verifier::opaque]
pub open spec fn encodes(bytes: Seq<u8>, rec: PendingRecord) -> bool {
    bytes == record_bytes(
        record_of(
            rec.tag,
            flags_of(rec.materialized_len),
            rec.materialized_len,
            rec.payload@,
        ),
    )
}

/// A record of `n` bytes is put behind what the current segment holds, and indexed.
#[verifier::opaque]
pub(crate) open spec fn record_put<B: IoBackend>(
    a: Store<B>,
    b: Store<B>,
    rec: PendingRecord,
    n: nat,
) -> bool {
    &&& b.io == a.io
    &&& b.laid@ == laid_one(a.laid@, a.segment.seq_of(), view_of(rec))
    &&& b.segment.seq_of() == a.segment.seq_of()
    &&& b.segment.end_of() == a.segment.end_of()
    &&& b.segment.buffered().len() == a.segment.buffered().len() + n
    &&& b.given@ == a.given@.insert(rec.payload@)
    &&& b.seen@ == a.seen@.insert(rec.payload@)
    &&& moved_on(a.index@, b.index@, seq![rec.payload@], a.segment.seq_of())
    &&& objects_with(a.objects(), b.objects(), rec.payload@)
}

impl<B: IoBackend> Store<B> {
    /// Put an encoded record behind what the current segment holds, and index it.
    #[verifier::rlimit(60)]
    #[verifier::spinoff_prover]
    pub(crate) fn append_encoded(&mut self, rec: &PendingRecord, encoded: Vec<u8>)
        requires
            old(self).wf(),
            rec.payload@.len() <= u32::MAX,
            encodes(encoded@, *rec),
            old(self).segment.end_of() + old(self).segment.buffered().len() + encoded@.len()
                <= u64::MAX,
        ensures
            same_state(*old(self), *final(self)),
            final(self).wf(),
            record_put(*old(self), *final(self), *rec, encoded@.len()),
    {
        let ghost was = *self;
        let ghost v = record_of(
            rec.tag,
            flags_of(rec.materialized_len),
            rec.materialized_len,
            rec.payload@,
        );
        let ghost seq = self.segment.seq_of();
        let offset: u64 = self.segment.durable_end() + self.segment.buffered_len();
        proof {
            reveal(encodes);
            lemma_flags(rec.materialized_len);
            lemma_dom(was);
            reveal(laid_one);
            self.laid@ = self.laid@.insert(seq, self.laid@[seq].push(v));
            self.given@ = self.given@.insert(rec.payload@);
        }
        self.seen.note(&rec.payload);
        self.segment.append(encoded);
        let loc = Location {
            segment_seq: self.segment.seq(),
            offset,
            stored_len: rec.payload.len() as u64,
            materialized_len: rec.materialized_len,
            tag: rec.tag,
        };
        self.index.insert(ChunkId::of(&rec.payload), loc);
        proof {
            let d0 = was.disk();
            let d = self.disk();
            let laid = self.laid@;
            let rs = was.laid@[seq];
            assert(d0[seq] == body_of(rs));
            lemma_records_push(rs, v);
            assert(d[seq] =~= d0[seq] + record_bytes(v));
            assert(d[seq] =~= body_of(rs.push(v)));
            assert(d[seq].take(d[seq].len() as int) =~= d[seq]);
            lemma_appended(d0[seq], v);
            assert(file_laid(d[seq], rs.push(v))) by {
                assert forall|i: int| 0 <= i < rs.push(v).len() implies own_record(
                    #[trigger] rs.push(v)[i],
                ) by {
                    if i < rs.len() {
                        assert(own_record(rs[i]));
                    }
                }
            }
            assert(d =~= d0.insert(seq, d[seq]));
            assert(d.dom() =~= laid.dom());
            assert forall|s: u64| #[trigger] laid.contains_key(s) implies file_laid(
                d[s],
                laid[s],
            ) by {
                if s != seq {
                    assert(was.laid@.contains_key(s));
                }
            }
            assert(disk_laid(d, laid));
            assert forall|l: Location| #[trigger] object_at(d0, l) is Some implies object_at(d, l)
                == object_at(d0, l) by {
                if l.segment_seq == seq {
                    assert(payload_in(d0[seq], l.offset as nat, l.stored_len as nat) is Some);
                }
            }
            assert(d0[seq].len() == offset);
            lemma_indexed(d0, d, was.index@, loc, rec.payload@);
            record::lemma_record_payload(v);
            lemma_placed(was.laid@, laid, was.index@, digest(rec.payload@), loc);
            lemma_held(was.objects(), self.objects(), was.given@, rec.payload@);
            lemma_traced(was.laid@, was.index@, was.seen@, seq, v, loc);
            lemma_moved_one(was.index@, rec.payload@, loc, seq);
            reveal(record_put);
        }
    }
}

/// A file ahead of the current segment is as long as a file can be: a further record may
/// not fit behind it.
pub open spec fn full_ahead<B: IoBackend>(st: Store<B>) -> bool {
    exists|s: u64|
        s > st.segment.seq_of() && (#[trigger] file_of(st.io.segments(), s)).len() + HEADER_SIZE
            + u32::MAX > u64::MAX
}

/// The files ahead of the current segment of `b` are as they were.
pub open spec fn same_ahead<B: IoBackend>(a: Store<B>, b: Store<B>) -> bool {
    &&& a.segment.seq_of() <= b.segment.seq_of()
    &&& forall|s: u64|
        s > b.segment.seq_of() ==> #[trigger] file_of(b.io.segments(), s) == file_of(
            a.io.segments(),
            s,
        )
}

/// The files behind the current segment of `a` are as they were.
#[verifier::opaque]
pub open spec fn same_behind<B: IoBackend>(a: Store<B>, b: Store<B>) -> bool {
    forall|s: u64|
        s < a.segment.seq_of() ==> {
            &&& #[trigger] b.io.segments().contains_key(s) == a.io.segments().contains_key(s)
            &&& a.io.segments().contains_key(s) ==> b.io.segments()[s] == a.io.segments()[s]
        }
}

/// The files up to the current segment of `a` hold what was buffered, and are else as they
/// were.
#[verifier::opaque]
pub open spec fn rolled_over<B: IoBackend>(a: Store<B>, b: Store<B>) -> bool {
    forall|s: u64|
        s <= a.segment.seq_of() && #[trigger] a.disk().contains_key(s)
            ==> b.io.segments().contains_key(s) && b.io.segments()[s] == a.disk()[s]
}

/// Where the next record goes: the current segment, behind what it holds and what is
/// buffered for it.
pub open spec fn spot_of<B: IoBackend>(st: Store<B>) -> (u64, nat) {
    (st.segment.seq_of(), (st.segment.end_of() + st.segment.buffered().len()) as nat)
}

/// There is no place for records of these payload lengths.
pub open spec fn no_place<B: IoBackend>(a: Store<B>, lens: Seq<nat>) -> bool {
    laid_out(a.io.segments(), a.config.segment_size, spot_of(a), lens) is None
}

/// There may be no place for `n` records, of which these are some: a payload is longer than
/// a record holds, the segment numbers end, or a file ahead is as long as a file can be.
pub open spec fn crowded<B: IoBackend>(a: Store<B>, records: Seq<PendingRecord>, n: nat) -> bool {
    ||| exists|i: int| 0 <= i < records.len() && (#[trigger] records[i]).payload@.len() > u32::MAX
    ||| a.segment.seq_of() + n >= u64::MAX
    ||| full_ahead(a)
}

/// Where there is no place for records, it is crowded.
pub proof fn lemma_no_place<B: IoBackend>(a: Store<B>, records: Seq<PendingRecord>)
    requires
        no_place(a, lens_of(records)),
    ensures
        crowded(a, records, records.len()),
{
    let lens = lens_of(records);
    lemma_crowded(a.io.segments(), a.config.segment_size, spot_of(a), lens);
    if exists|i: int| 0 <= i < lens.len() && #[trigger] lens[i] > u32::MAX {
        let i = choose|i: int| 0 <= i < lens.len() && #[trigger] lens[i] > u32::MAX;
        assert(records[i].payload@.len() > u32::MAX);
    }
}

/// The payloads of records.
pub open spec fn payloads_of(records: Seq<PendingRecord>) -> Seq<Seq<u8>> {
    Seq::new(records.len(), |i: int| records[i].payload@)
}

/// The objects after payloads were appended: the earlier ones and the payloads.
pub open spec fn objects_after(
    a: Set<Seq<u8>>,
    b: Set<Seq<u8>>,
    payloads: Seq<Seq<u8>>,
) -> bool {
    &&& forall|i: int| 0 <= i < payloads.len() ==> digest_found(b, #[trigger] payloads[i])
    &&& forall|x: Seq<u8>| #[trigger] a.contains(x) ==> digest_found(b, x)
    &&& forall|x: Seq<u8>| #[trigger]
        b.contains(x) ==> a.contains(x) || exists|i: int|
            0 <= i < payloads.len() && #[trigger] payloads[i] == x
}

/// An object of this digest is among them.
pub open spec fn digest_found(b: Set<Seq<u8>>, x: Seq<u8>) -> bool {
    exists|y: Seq<u8>| #[trigger] b.contains(y) && digest(y) == digest(x)
}

} // verus!
