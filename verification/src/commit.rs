//! The commit protocol: the space guard, the deferred commit, the durability
//! barrier.

use vstd::prelude::*;

use crate::chunk::{digest, ChunkId};
use crate::error::StoreError;
use crate::index::ObjectProvider;
use crate::io::{file_of, payload_in, written, IoBackend, ReadRequest, Synced};
use crate::journal::{keeps_given, lemma_keeps_given};
use crate::object::Location;
use crate::physical::saturated;
use crate::record::{record_of, RecordView, HEADER_SIZE};
use crate::root::{root_bytes, Root, RootView};
use crate::sorted::{lemma_rank, lookup, rank};
use crate::place::{keeps_log, laid_down, lemma_down_keeps_log, lens_of, view_lens, view_of, views_of};
use crate::store::{digest_found, given_held, keeps_backed, lemma_backed_but, lemma_given, no_place,
    objects_after, payloads_of, spot_of, Store};
use crate::superblock::{slot_bytes, slot_for_generation, slot_of_generation, Superblock,
    SuperblockView};
use crate::transaction::{committed, covers_staged, index_sound, object_at, CrashHooks, CrashPoint,
    PendingRecord, Staged, Tx};
use crate::tree::clash_free;
use crate::version::RecordTag;

verus! {

// ---------------------------------------------------------------------------
// Space
// ---------------------------------------------------------------------------

/// What the backing filesystem has, and how much of it commits may fill.
#[derive(Debug, Clone, Copy, PartialEq, Eq)]
pub struct Space {
    /// Capacity; zero where it is not known.
    pub capacity: u64,
    /// Bytes in use.
    pub used: u64,
    /// Bytes that commits may fill; what lies above is kept for collection.
    pub watermark: u64,
}

/// The size of the records once encoded.
pub open spec fn encoded_size(records: Seq<PendingRecord>) -> nat
    decreases records.len(),
{
    if records.len() == 0 {
        0
    } else {
        encoded_size(records.drop_last()) + HEADER_SIZE as nat + records.last().payload@.len()
    }
}

/// A commit of the records would fill more than commits may.
pub open spec fn no_room(space: Space, buffered: nat, records: Seq<PendingRecord>) -> bool {
    space.capacity != 0 && saturated(
        (space.used + buffered + encoded_size(records)) as nat,
    ) > space.watermark
}

impl<B: IoBackend> Store<B> {
    /// Refuse a commit before staging anything when the projected usage would
    /// exceed the watermark.
    pub fn ensure_commit_space(&self, records: &Vec<PendingRecord>, space: &Space) -> (r: Result<
        (),
        StoreError,
    >)
        ensures
            match r {
                Ok(_) => !no_room(*space, self.segment.buffered().len(), records@),
                Err(e) => e is Full && no_room(*space, self.segment.buffered().len(), records@),
            },
    {
        if space.capacity == 0 {
            return Ok(());
        }
        let ghost base = (space.used + self.segment.buffered().len()) as nat;
        let mut projected: u64 = space.used.saturating_add(self.segment.buffered_len());
        let mut i: usize = 0;
        while i < records.len()
            invariant
                i <= records@.len(),
                projected == saturated(base + encoded_size(records@.take(i as int))),
            decreases records@.len() - i,
        {
            let n: u64 = HEADER_SIZE.saturating_add(records[i].payload.len() as u64);
            projected = projected.saturating_add(n);
            proof {
                assert(records@.take(i + 1).drop_last() =~= records@.take(i as int));
            }
            i += 1;
        }
        assert(records@.take(i as int) =~= records@);
        if projected > space.watermark {
            return Err(
                StoreError::Full(
                    "commit would pass the watermark; delete data or collect first".to_string(),
                ),
            );
        }
        Ok(())
    }
}

// ---------------------------------------------------------------------------
// Superblock
// ---------------------------------------------------------------------------

/// The superblock for a root: the identity of `sb`, the rest from the root.
pub open spec fn superblock_of(
    sb: SuperblockView,
    root: RootView,
    root_id: Seq<u8>,
    features: u64,
) -> SuperblockView {
    SuperblockView {
        uuid: sb.uuid,
        generation: root.generation,
        root_object_id: root_id,
        segment_seq: root.segment_seq,
        incompat: features,
    }
}

/// The same segments, index and writer.
pub open spec fn same_files<B: IoBackend>(a: Store<B>, b: Store<B>) -> bool {
    &&& a.io.segments() == b.io.segments()
    &&& a.io.reliable() == b.io.reliable()
    &&& a.config == b.config
    &&& a.index == b.index
    &&& a.segment == b.segment
    &&& a.laid == b.laid
    &&& a.given == b.given
    &&& a.seen == b.seen
    &&& a.epoch == b.epoch
    &&& a.epoch_pending == b.epoch_pending
}

/// The slot of the superblock's generation holds it.
pub open spec fn slot_written(before: Seq<u8>, after: Seq<u8>, sb: SuperblockView) -> bool {
    after == written(before, slot_of_generation(sb.generation) as nat, slot_bytes(sb))
}

impl<B: IoBackend> Store<B> {
    /// Write the inactive superblock slot for the root; not yet durable.
    pub fn write_superblock(&mut self, root_id: ChunkId, root: &Root) -> (r: Result<
        (),
        StoreError,
    >)
        ensures
            same_files(*old(self), *final(self)),
            final(self).root == old(self).root,
            final(self).generation == old(self).generation,
            final(self).features_in_use == old(self).features_in_use,
            final(self).io.synced() == old(self).io.synced(),
            keeps_backed(*old(self), *final(self)),
            match r {
                Ok(_) => {
                    &&& final(self).superblock@ == superblock_of(
                        old(self).superblock@,
                        root@,
                        root_id@,
                        old(self).features_in_use,
                    )
                    &&& slot_written(
                        old(self).io.superblock(),
                        final(self).io.superblock(),
                        final(self).superblock@,
                    )
                },
                Err(e) => e is Io && !old(self).io.reliable() && final(self).superblock == old(self).superblock,
            },
    {
        let sb = Superblock {
            uuid: self.superblock.uuid,
            generation: root.generation,
            root_object_id: root_id,
            segment_seq: root.segment_seq,
            incompat: self.features_in_use,
        };
        let offset: u64 = slot_for_generation(root.generation);
        let bytes = sb.encode();
        let ghost was = *self;
        let written = self.io.write_superblock_slot(offset, &bytes);
        proof {
            lemma_backed_but(was.io, self.io, was.segment.seq_of());
        }
        match written {
            Ok(_) => {
                self.superblock = sb;
                Ok(())
            },
            Err(e) => Err(e),
        }
    }

    /// fsync the superblock file (commit durable).
    pub fn fsync_superblock(&mut self) -> (r: Result<(), StoreError>)
        ensures
            same_files(*old(self), *final(self)),
            final(self).root == old(self).root,
            final(self).generation == old(self).generation,
            final(self).features_in_use == old(self).features_in_use,
            final(self).superblock == old(self).superblock,
            final(self).io.superblock() == old(self).io.superblock(),
            final(self).io.synced() == (Synced {
                superblock: final(self).io.synced().superblock,
                ..old(self).io.synced()
            }),
            r is Ok ==> final(self).io.synced().superblock == old(self).io.superblock(),
            keeps_backed(*old(self), *final(self)),
            r matches Err(e) ==> e is Io && !old(self).io.reliable(),
    {
        let ghost was = *self;
        let r = self.io.fsync_superblock();
        proof {
            lemma_backed_but(was.io, self.io, was.segment.seq_of());
        }
        r
    }

    /// Make the entries of the segments directory durable.
    pub fn sync_segments_dir(&mut self) -> (r: Result<(), StoreError>)
        ensures
            same_files(*old(self), *final(self)),
            final(self).root == old(self).root,
            final(self).generation == old(self).generation,
            final(self).features_in_use == old(self).features_in_use,
            final(self).superblock == old(self).superblock,
            final(self).io.superblock() == old(self).io.superblock(),
            final(self).io.synced() == (Synced {
                names: final(self).io.synced().names,
                ..old(self).io.synced()
            }),
            r is Ok ==> final(self).io.synced().names == old(self).io.segments().dom()
                && keeps_backed(*old(self), *final(self)),
            r matches Err(e) ==> e is Io && !old(self).io.reliable(),
    {
        let ghost was = *self;
        let r = self.io.sync_segments_dir();
        proof {
            if r is Ok {
                lemma_backed_but(was.io, self.io, was.segment.seq_of());
            }
        }
        r
    }

    /// Publish a committed root to the in-memory state.
    pub fn publish_commit(&mut self, root: &Root)
        ensures
            *final(self) == (Store { root: *root, generation: root.generation, ..*old(self) }),
    {
        self.root = *root;
        self.generation = root.generation;
    }

    /// Begin a write transaction from the current root.
    pub fn begin_tx(&self) -> (tx: Tx<'_, B>)
        ensures
            tx.root == self.root,
            tx.max_fanout == self.config.max_fanout,
            tx.objects.payloads() == committed(self.io.segments(), self.index@),
            tx.objects.ground() == committed(self.io.segments(), self.index@),
            tx.objects.faithful() == index_sound(self.io.segments(), self.index@),
            tx.objects.may_fail() == !self.io.reliable(),
            tx.objects.staged().len() == 0,
            *tx.objects.index == self.index,
    {
        Tx::begin(&self.io, &self.index, self.root, self.config.max_fanout)
    }
}

// ---------------------------------------------------------------------------
// Commit
// ---------------------------------------------------------------------------

/// The root that a commit publishes.
pub open spec fn next_root(root: RootView, generation: u64, segment_seq: u64) -> RootView {
    RootView { generation: (generation + 1) as u64, segment_seq, ..root }
}

/// The published root names another inode table, and for the rest what the one before did.
pub open spec fn only_inodes<B: IoBackend>(a: Store<B>, b: Store<B>) -> bool {
    b.root@ == next_root(
        RootView { inode_index_root: b.root@.inode_index_root, ..a.root@ },
        a.generation,
        a.segment.seq_of(),
    )
}

/// The published root names another inode table and chunk index, and for the rest what the
/// one before did.
pub open spec fn only_data<B: IoBackend>(a: Store<B>, b: Store<B>) -> bool {
    b.root@ == next_root(
        RootView {
            inode_index_root: b.root@.inode_index_root,
            chunk_index_root: b.root@.chunk_index_root,
            ..a.root@
        },
        a.generation,
        a.segment.seq_of(),
    )
}

/// The published root names another snapshot tree, and for the rest what the one before
/// did.
pub open spec fn only_snapshots<B: IoBackend>(a: Store<B>, b: Store<B>) -> bool {
    b.root@ == next_root(
        RootView { snapshot_tree_root: b.root@.snapshot_tree_root, ..a.root@ },
        a.generation,
        a.segment.seq_of(),
    )
}

/// What a commit leaves alone.
pub open spec fn commit_keeps<B: IoBackend>(a: Store<B>, b: Store<B>) -> bool {
    &&& a.config == b.config
    &&& a.features_in_use == b.features_in_use
    &&& a.epoch == b.epoch
    &&& a.epoch_pending == b.epoch_pending
    &&& a.io.reliable() == b.io.reliable()
    &&& a.seen@.subset_of(b.seen@)
}

/// The payload lengths of what a commit appends: the records, and the root.
pub open spec fn commit_lens(records: Seq<PendingRecord>) -> Seq<nat> {
    lens_of(records).push(188)
}

/// The record of a root.
pub open spec fn root_record(root: RootView) -> RecordView {
    record_of(RecordTag::Root, 0, None, root_bytes(root))
}

/// The records and the root are committed: the objects are there and can be
/// read, the slot of the new generation names the root.
pub open spec fn commit_done<B: IoBackend>(a: Store<B>, b: Store<B>, staged: Staged<B>) -> bool {
    &&& a.generation < u64::MAX
    &&& b.flushed()
    &&& !no_place(a, commit_lens(staged.records@))
    &&& b.root@ == next_root(staged.root@, a.generation, a.segment.seq_of())
    &&& b.generation == a.generation + 1
    &&& b.superblock@ == superblock_of(
        a.superblock@,
        b.root@,
        digest(root_bytes(b.root@)),
        a.features_in_use,
    )
    &&& slot_written(a.io.superblock(), b.io.superblock(), b.superblock@)
    &&& objects_after(
        a.objects(),
        b.objects(),
        payloads_of(staged.records@).push(root_bytes(b.root@)),
    )
    &&& b.given@ == a.given@.union(staged.payloads@).insert(root_bytes(b.root@))
    &&& b.seen@ == a.seen@.union(b.given@)
    &&& keeps_given(a.given@, b.given@)
    &&& b.laid@ == laid_down(
        a.laid@,
        a.io.segments(),
        a.config.segment_size,
        spot_of(a),
        views_of(staged.records@).push(root_record(b.root@)),
    )
    &&& keeps_log(a.laid@, b.laid@)
    &&& keeps_backed(a, b)
}

/// Why a commit of the records came to nothing. There is no room for them, the
/// generations end, or a crash is simulated: the store is as it was. Else the transport
/// failed, or there was no place to append them.
pub open spec fn commit_failed<B: IoBackend>(
    a: Store<B>,
    b: Store<B>,
    e: StoreError,
    hooks: CrashHooks,
    space: Space,
    records: Seq<PendingRecord>,
) -> bool {
    if no_room(space, a.segment.buffered().len(), records) {
        e is Full && b == a
    } else if a.generation == u64::MAX {
        e is Limit && b == a
    } else if hooks.armed == Some(CrashPoint::AfterRootWrite) {
        e is CrashSimulated && b == a
    } else {
        ||| !a.io.reliable()
        ||| e is Limit && b.wf() && no_place(a, commit_lens(records))
    }
}

impl<B: IoBackend> Store<B> {
    /// Commit logically: the staged records and the finalized root are appended
    /// and flushed, the inactive superblock slot is written, the root is
    /// published. Nothing is synced.
    ///
    /// Refused before anything is staged where there is no room. Where the
    /// transport fails, what was appended is left open.
    #[verifier::rlimit(40)]
    pub fn commit_deferred(&mut self, staged: Staged<B>, hooks: &CrashHooks, space: &Space) -> (r:
        Result<(), StoreError>)
        requires
            old(self).wf(),
            covers_staged(old(self).objects(), staged.records@, staged.payloads@),
        ensures
            commit_keeps(*old(self), *final(self)),
            match r {
                Ok(_) => {
                    &&& commit_done(*old(self), *final(self), staged)
                    &&& !no_room(*space, old(self).segment.buffered().len(), staged.records@)
                    &&& hooks.armed != Some(CrashPoint::AfterRootWrite)
                },
                Err(e) => {
                    &&& final(self).root == old(self).root
                    &&& final(self).generation == old(self).generation
                    &&& commit_failed(*old(self), *final(self), e, *hooks, *space, staged.records@)
                },
            },
    {
        let ghost was = *self;
        match self.ensure_commit_space(&staged.records, space) {
            Ok(_) => {},
            Err(e) => return Err(e),
        }
        if self.generation == u64::MAX {
            return Err(StoreError::Limit("no generation left".to_string()));
        }
        let mut root = staged.root;
        root.generation = self.generation + 1;
        root.segment_seq = self.segment.seq();
        let bytes = root.encode();
        let root_id = ChunkId::of(&bytes);
        let mut records = staged.records;
        let ghost had = payloads_of(records@);
        records.push(
            PendingRecord { tag: RecordTag::Root, payload: bytes, materialized_len: None },
        );
        assert(payloads_of(records@) =~= had.push(root_bytes(root@)));
        assert(lens_of(records@) =~= commit_lens(staged.records@));
        assert(views_of(records@) =~= views_of(staged.records@).push(root_record(root@)));
        match hooks.hit(CrashPoint::AfterRootWrite) {
            Ok(_) => {},
            Err(e) => return Err(e),
        }
        match self.append_records(&records) {
            Ok(_) => {},
            Err(e) => return Err(e),
        }
        match self.flush_segment() {
            Ok(_) => {},
            Err(e) => return Err(e),
        }
        let ghost t = *self;
        match self.write_superblock(root_id, &root) {
            Ok(_) => {},
            Err(e) => return Err(e),
        }
        self.publish_commit(&root);
        self.seen.absorb(&staged.payloads);
        proof {
            assert(self.disk() == t.disk());
            self.given@ = self.given@.union(staged.payloads@);
            crate::store::lemma_traced_grows(self.laid@, self.index@, t.seen@, self.seen@);
            lemma_all_held(
                was.objects(),
                self.objects(),
                was.given@,
                staged,
                root_bytes(root@),
            );
            assert(self.given@ =~= was.given@.union(staged.payloads@).insert(root_bytes(root@)))
                by {
                assert(t.given@ == was.given@.union(had.push(root_bytes(root@)).to_set()));
                lemma_records_given(staged, was.given@, root_bytes(root@));
            }
            assert(self.seen@ =~= was.seen@.union(self.given@));
            assert(self.root@ =~= next_root(staged.root@, was.generation, was.segment.seq_of()));
            lemma_commit_keeps_log(was, staged.records@, root@);
            lemma_keeps_given(was.given@, staged.payloads@, self.given@);
        }
        Ok(())
    }
}

/// A commit adds nothing to the log.
proof fn lemma_commit_keeps_log<B: IoBackend>(a: Store<B>, records: Seq<PendingRecord>, root: RootView)
    requires
        !no_place(a, commit_lens(records)),
        root_bytes(root).len() == 188,
        forall|i: int|
            0 <= i < records.len() ==> (#[trigger] records[i]).tag != RecordTag::MutationLog,
    ensures
        keeps_log(
            a.laid@,
            laid_down(
                a.laid@,
                a.io.segments(),
                a.config.segment_size,
                spot_of(a),
                views_of(records).push(root_record(root)),
            ),
        ),
{
    let rs = views_of(records).push(root_record(root));
    assert(view_lens(rs) =~= commit_lens(records));
    assert forall|i: int| 0 <= i < rs.len() implies (#[trigger] rs[i]).tag
        != RecordTag::MutationLog by {
        if i < records.len() {
            assert(rs[i] == view_of(records[i]));
            assert(records[i].tag != RecordTag::MutationLog);
        }
    }
    lemma_down_keeps_log(a.laid@, a.io.segments(), a.config.segment_size, spot_of(a), rs);
}

/// The recorded payloads are payloads of the transaction.
proof fn lemma_records_given<B: IoBackend>(staged: Staged<B>, given: Set<Seq<u8>>, top: Seq<u8>)
    requires
        forall|i: int|
            0 <= i < staged.records@.len() ==> staged.payloads@.contains(
                (#[trigger] staged.records@[i]).payload@,
            ),
    ensures
        given.union(payloads_of(staged.records@).push(top).to_set()).union(staged.payloads@)
            == given.union(staged.payloads@).insert(top),
{
    let ps = payloads_of(staged.records@).push(top);
    let a = given.union(ps.to_set()).union(staged.payloads@);
    let b = given.union(staged.payloads@).insert(top);
    assert(ps[staged.records@.len() as int] == top);
    assert forall|x: Seq<u8>| #[trigger] a.contains(x) implies b.contains(x) by {
        if ps.contains(x) {
            let i = choose|i: int| 0 <= i < ps.len() && ps[i] == x;
            if i < staged.records@.len() {
                assert(staged.payloads@.contains(staged.records@[i].payload@));
            }
        }
    }
    assert(ps.contains(top));
    assert(a =~= b);
}

proof fn lemma_all_held<B: IoBackend>(
    a: Set<Seq<u8>>,
    b: Set<Seq<u8>>,
    given: Set<Seq<u8>>,
    staged: Staged<B>,
    top: Seq<u8>,
)
    requires
        given_held(a, given),
        covers_staged(a, staged.records@, staged.payloads@),
        objects_after(a, b, payloads_of(staged.records@).push(top)),
        b.subset_of(given.union(payloads_of(staged.records@).push(top).to_set())),
    ensures
        given_held(b, given.union(staged.payloads@).insert(top)),
{
    let ps = payloads_of(staged.records@).push(top);
    let n = staged.records@.len() as int;
    let g = given.union(staged.payloads@).insert(top);
    lemma_records_given(staged, given, top);
    assert forall|x: Seq<u8>| #[trigger] b.contains(x) implies g.contains(x) by {
        assert(given.union(ps.to_set()).union(staged.payloads@).contains(x));
    }
    assert forall|x: Seq<u8>| #[trigger] g.contains(x) implies digest_found(b, x) by {
        if x == top {
            assert(digest_found(b, ps[n]));
        } else if given.contains(x) || crate::transaction::digest_in(a, digest(x)) {
            if given.contains(x) {
                assert(digest_found(a, x));
            }
            let y = choose|y: Seq<u8>| #[trigger] a.contains(y) && digest(y) == digest(x);
            assert(digest_found(b, y));
        } else {
            let i = choose|i: int|
                0 <= i < n && digest((#[trigger] staged.records@[i]).payload@) == digest(x);
            assert(digest_found(b, ps[i]));
        }
    }
}

/// What a commit leaves readable: every payload put before, those of the
/// transaction, and the root object.
pub proof fn commit_holds_transaction<B: IoBackend>(a: Store<B>, b: Store<B>, staged: Staged<B>)
    requires
        commit_done(a, b, staged),
        clash_free(b.given@),
    ensures
        b.objects() == a.given@.union(staged.payloads@).insert(root_bytes(b.root@)),
        staged.payloads@.subset_of(b.objects()),
{
    lemma_given(b.objects(), b.given@);
}

// ---------------------------------------------------------------------------
// Barrier
// ---------------------------------------------------------------------------

/// A crash point of the durability barrier.
pub open spec fn barrier_point(p: CrashPoint) -> bool {
    p != CrashPoint::AfterRootWrite && p != CrashPoint::BeforeOldSegmentDelete
}

/// A crash point before the barrier writes the superblock slot.
pub open spec fn before_slot(p: CrashPoint) -> bool {
    p == CrashPoint::AfterRecordAppend || p == CrashPoint::AfterSegmentFdatasync || p
        == CrashPoint::AfterSegmentDirFsync
}

/// What a barrier leaves alone.
pub open spec fn barrier_keeps<B: IoBackend>(a: Store<B>, b: Store<B>) -> bool {
    &&& commit_keeps(a, b)
    &&& a.root == b.root
    &&& a.generation == b.generation
    &&& a.index@ == b.index@
    &&& a.laid == b.laid
    &&& a.given == b.given
    &&& a.seen == b.seen
    &&& a.segment.seq_of() == b.segment.seq_of()
}

/// The slot of the current root's generation names it.
pub open spec fn root_named<B: IoBackend>(a: Store<B>, b: Store<B>) -> bool {
    &&& b.superblock@ == superblock_of(
        a.superblock@,
        a.root@,
        digest(root_bytes(a.root@)),
        a.features_in_use,
    )
    &&& slot_written(a.io.superblock(), b.io.superblock(), b.superblock@)
}

/// What is durable once a barrier has come to a point: the current segment file, then the
/// entries of the segment files, and in the end the superblock file.
pub open spec fn synced_until<B: IoBackend>(p: CrashPoint, a: Store<B>, b: Store<B>) -> bool {
    let was = a.io.synced();
    let seq = a.segment.seq_of();
    if p == CrashPoint::AfterRecordAppend {
        b.io.synced() == was
    } else {
        b.io.synced() == (Synced {
            segments: was.segments.insert(seq, a.disk()[seq]),
            names: if p == CrashPoint::AfterSegmentFdatasync {
                was.names
            } else {
                b.io.segments().dom()
            },
            superblock: if p == CrashPoint::AfterSuperblockFsync {
                b.io.superblock()
            } else {
                was.superblock
            },
        })
    }
}

/// Why a barrier did not come to its end: the transport failed, or a crash was
/// simulated at a point on the way, with the work before it done.
pub open spec fn sync_failed<B: IoBackend>(
    a: Store<B>,
    b: Store<B>,
    e: StoreError,
    hooks: CrashHooks,
) -> bool {
    &&& barrier_keeps(a, b)
    &&& {
        ||| !a.io.reliable()
        ||| {
            &&& hooks.armed matches Some(p)
            &&& barrier_point(p)
            &&& e matches StoreError::CrashSimulated(m)
            &&& m@ == p.text()
            &&& b.wf()
            &&& b.disk() == a.disk()
            &&& p != CrashPoint::AfterRecordAppend ==> b.flushed()
            &&& synced_until(p, a, b)
            &&& keeps_backed(a, b)
            &&& if before_slot(p) {
                b.io.superblock() == a.io.superblock()
            } else {
                root_named(a, b)
            }
        }
    }
}

impl<B: IoBackend> Store<B> {
    /// The physical barrier: the segment is flushed and synced, its directory
    /// entry made durable, the superblock slot of the current root written and
    /// synced. An armed point stops it there, with the work before it done.
    pub fn make_durable(&mut self, hooks: &CrashHooks) -> (r: Result<(), StoreError>)
        requires
            old(self).wf(),
        ensures
            barrier_keeps(*old(self), *final(self)),
            match r {
                Ok(_) => {
                    &&& !(hooks.armed matches Some(p) && barrier_point(p))
                    &&& final(self).flushed()
                    &&& final(self).io.segments() == old(self).disk()
                    &&& root_named(*old(self), *final(self))
                    &&& synced_until(CrashPoint::AfterSuperblockFsync, *old(self), *final(self))
                    &&& keeps_backed(*old(self), *final(self))
                },
                Err(e) => sync_failed(*old(self), *final(self), e, *hooks),
            },
    {
        let ghost was = *self;
        match hooks.hit(CrashPoint::AfterRecordAppend) {
            Ok(_) => {},
            Err(e) => return Err(e),
        }
        match self.fdatasync_segment() {
            Ok(_) => {},
            Err(e) => return Err(e),
        }
        match hooks.hit(CrashPoint::AfterSegmentFdatasync) {
            Ok(_) => {},
            Err(e) => return Err(e),
        }
        let ghost t = *self;
        match self.sync_segments_dir() {
            Ok(_) => {},
            Err(e) => return Err(e),
        }
        assert(self.disk() == t.disk());
        match hooks.hit(CrashPoint::AfterSegmentDirFsync) {
            Ok(_) => {},
            Err(e) => return Err(e),
        }
        let root = self.root;
        let root_id = root.id();
        match self.write_superblock(root_id, &root) {
            Ok(_) => {},
            Err(e) => return Err(e),
        }
        assert(self.disk() == t.disk());
        match hooks.hit(CrashPoint::AfterSuperblockWrite) {
            Ok(_) => {},
            Err(e) => return Err(e),
        }
        match self.fsync_superblock() {
            Ok(_) => {},
            Err(e) => return Err(e),
        }
        assert(self.disk() == t.disk());
        match hooks.hit(CrashPoint::AfterSuperblockFsync) {
            Ok(_) => {},
            Err(e) => return Err(e),
        }
        Ok(())
    }
}

// ---------------------------------------------------------------------------
// Objects
// ---------------------------------------------------------------------------

/// The answer to a fetch of `id`.
pub open spec fn fetched<B: IoBackend>(
    st: Store<B>,
    id: Seq<u8>,
    r: Result<Option<Vec<u8>>, StoreError>,
) -> bool {
    match r {
        Ok(Some(b)) => st.objects().contains(b@) && digest(b@) == id,
        Ok(None) => forall|b: Seq<u8>| #[trigger] st.objects().contains(b) ==> digest(b) != id,
        Err(_) => !st.io.reliable(),
    }
}

/// The payload that a request reads.
pub open spec fn answer_of(segments: Map<u64, Seq<u8>>, q: ReadRequest) -> Option<Seq<u8>> {
    payload_in(file_of(segments, q.segment_seq), q.offset as nat, q.stored_len as nat)
}

/// Place `j` is among the first `n` that wait for an answer.
spec fn waits(need: Seq<usize>, n: int, j: int) -> bool {
    exists|q: int| 0 <= q < n && #[trigger] need[q] == j
}

/// The transport's answer to a request.
pub open spec fn answered<B: IoBackend>(
    st: Store<B>,
    q: ReadRequest,
    r: Result<Vec<u8>, StoreError>,
) -> bool {
    match r {
        Ok(b) => answer_of(st.io.segments(), q) == Some(b@),
        Err(_) => st.io.reliable() ==> answer_of(st.io.segments(), q) is None,
    }
}

/// The request reads the object of this id.
pub open spec fn asks_for<B: IoBackend>(st: Store<B>, q: ReadRequest, id: Seq<u8>) -> bool {
    &&& answer_of(st.io.segments(), q) matches Some(b)
    &&& st.objects().contains(b)
    &&& digest(b) == id
}

impl<B: IoBackend> Store<B> {
    /// Fetch a record payload by location.
    pub fn read_payload_at(&self, loc: &Location) -> (r: Result<Vec<u8>, StoreError>)
        ensures
            match r {
                Ok(b) => object_at(self.io.segments(), *loc) == Some(b@),
                Err(_) => self.io.reliable() ==> object_at(self.io.segments(), *loc) is None,
            },
    {
        self.io.read_payload(loc.segment_seq, loc.offset, loc.stored_len)
    }

    /// Fetch an object payload by content id.
    pub fn fetch_object(&self, id: &ChunkId) -> (r: Result<Option<Vec<u8>>, StoreError>)
        requires
            self.flushed(),
        ensures
            fetched(*self, id@, r),
    {
        proof {
            lemma_flushed_disk(*self);
        }
        match self.index.get(id) {
            Some(loc) => {
                proof {
                    lemma_rank(self.index@, id@);
                    assert(self.index@[rank(self.index@, id@)].1 == *loc);
                }
                match self.read_payload_at(loc) {
                    Ok(b) => Ok(Some(b)),
                    Err(e) => Err(e),
                }
            },
            None => {
                proof {
                    lemma_not_indexed(*self, id@);
                }
                Ok(None)
            },
        }
    }

    /// Fetch many object payloads in one call of the transport; the i-th result
    /// answers the i-th id.
    #[verifier::rlimit(40)]
    pub fn fetch_objects_many(&self, ids: &Vec<ChunkId>) -> (r: Vec<
        Result<Option<Vec<u8>>, StoreError>,
    >)
        requires
            self.flushed(),
        ensures
            r@.len() == ids@.len(),
            forall|i: int| 0 <= i < ids@.len() ==> fetched(*self, ids@[i]@, #[trigger] r@[i]),
    {
        proof {
            lemma_flushed_disk(*self);
        }
        let mut reqs: Vec<ReadRequest> = Vec::new();
        let mut need: Vec<usize> = Vec::new();
        let mut out: Vec<Result<Option<Vec<u8>>, StoreError>> = Vec::new();
        let mut i: usize = 0;
        while i < ids.len()
            invariant
                self.flushed(),
                self.disk() == self.io.segments(),
                i <= ids@.len(),
                out@.len() == i,
                reqs@.len() == need@.len(),
                forall|k: int|
                    0 <= k < need@.len() ==> (#[trigger] need@[k]) < i && asks_for(
                        *self,
                        reqs@[k],
                        ids@[need@[k] as int]@,
                    ),
                forall|j: int|
                    0 <= j < i && !waits(need@, need@.len() as int, j) ==> fetched(
                        *self,
                        ids@[j]@,
                        #[trigger] out@[j],
                    ),
            decreases ids@.len() - i,
        {
            let ghost had = need@;
            out.push(Ok(None));
            match self.index.get(&ids[i]) {
                Some(loc) => {
                    proof {
                        let id = ids@[i as int]@;
                        lemma_rank(self.index@, id);
                        let at = rank(self.index@, id);
                        assert(self.index@[at].1 == *loc);
                        let b = object_at(self.disk(), self.index@[at].1)->0;
                        assert(self.objects().contains(b));
                    }
                    reqs.push(
                        ReadRequest {
                            segment_seq: loc.segment_seq,
                            offset: loc.offset,
                            stored_len: loc.stored_len,
                        },
                    );
                    need.push(i);
                    proof {
                        assert(need@[had.len() as int] == i);
                        assert forall|j: int| 0 <= j < i + 1 && !waits(need@, need@.len() as int, j) implies fetched(
                            *self,
                            ids@[j]@,
                            #[trigger] out@[j],
                        ) by {
                            if waits(had, had.len() as int, j) {
                                let k = choose|k: int|
                                    0 <= k < had.len() && #[trigger] had[k] == j;
                                assert(need@[k] == j);
                            }
                        }
                    }
                },
                None => {
                    proof {
                        lemma_not_indexed(*self, ids@[i as int]@);
                    }
                },
            }
            i += 1;
        }
        if reqs.len() == 0 {
            return out;
        }
        let mut results = self.io.read_many(&reqs);
        let ghost answers = results@;
        assert(answers.take(answers.len() as int) =~= answers);
        while results.len() > 0
            invariant
                out@.len() == ids@.len(),
                reqs@.len() == need@.len(),
                answers.len() == need@.len(),
                results@.len() <= answers.len(),
                results@ == answers.take(results@.len() as int),
                forall|k: int|
                    0 <= k < need@.len() ==> (#[trigger] need@[k]) < ids@.len() && asks_for(
                        *self,
                        reqs@[k],
                        ids@[need@[k] as int]@,
                    ),
                forall|k: int| 0 <= k < answers.len() ==> answered(*self, reqs@[k], #[trigger] answers[k]),
                forall|j: int|
                    0 <= j < ids@.len() && !waits(need@, results@.len() as int, j)
                        ==> fetched(*self, ids@[j]@, #[trigger] out@[j]),
            decreases results@.len(),
        {
            let ghost n = results@.len() as int;
            let ghost had = out@;
            let k: usize = results.len() - 1;
            let at: usize = need[k];
            assert(answers[k as int] == results@[k as int]);
            assert(answered(*self, reqs@[k as int], answers[k as int]));
            match results.pop() {
                Some(Ok(b)) => {
                    out.set(at, Ok(Some(b)));
                },
                Some(Err(e)) => {
                    out.set(at, Err(e));
                },
                None => {},
            }
            proof {
                assert(results@ =~= answers.take(k as int));
                assert(fetched(*self, ids@[at as int]@, out@[at as int]));
                assert forall|j: int|
                    0 <= j < ids@.len() && !waits(need@, k as int, j) implies fetched(
                    *self,
                    ids@[j]@,
                    #[trigger] out@[j],
                ) by {
                    if j != at {
                        if waits(need@, n, j) {
                            let q = choose|q: int| 0 <= q < n && #[trigger] need@[q] == j;
                            assert(q < k);
                        }
                        assert(had[j] == out@[j]);
                        assert(fetched(*self, ids@[j]@, had[j]));
                    }
                }
            }
        }
        out
    }
}

pub proof fn lemma_flushed_disk<B: IoBackend>(st: Store<B>)
    requires
        st.flushed(),
    ensures
        st.disk() == st.io.segments(),
{
    let seq = st.segment.seq_of();
    crate::store::lemma_dom(st);
    assert(crate::io::file_of(st.io.segments(), seq) + st.segment.buffered()
        =~= crate::io::file_of(st.io.segments(), seq));
    assert(st.disk() =~= st.io.segments());
}

proof fn lemma_not_indexed<B: IoBackend>(st: Store<B>, id: Seq<u8>)
    requires
        st.wf(),
        lookup(st.index@, id) is None,
    ensures
        forall|b: Seq<u8>| #[trigger] st.objects().contains(b) ==> digest(b) != id,
{
    assert forall|b: Seq<u8>| #[trigger] st.objects().contains(b) implies digest(b) != id by {
        let i = choose|i: int|
            0 <= i < st.index@.len() && object_at(st.disk(), (#[trigger] st.index@[i]).1) == Some(
                b,
            );
        crate::epoch::lemma_at(st.index@, i);
    }
}

} // verus!
