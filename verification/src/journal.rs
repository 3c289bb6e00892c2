//! The store's epoch: appending to the mutation log, checkpoints, the durability
//! barrier, and the replay of the log at open.

use vstd::prelude::*;

use crate::checkpoint::{chunks_fit, merged_levels};
use crate::chunk::digest;
use crate::commit::{barrier_keeps, barrier_point, commit_done, commit_failed, commit_keeps,
    lemma_flushed_disk, root_named, slot_written, superblock_of, sync_failed, Space};
use crate::descriptor::{feature_mask, Feature};
use crate::epoch::{empty_overlay, faces, mapped, overlaid};
use crate::epoch_ops::holdable;
use crate::error::StoreError;
use crate::fs::{fs_ok, lemma_fs_grows, lemma_tree_grows, listing, ns, tree_ok, Listing, Namespace,
    BTREE_ORDER};
use crate::index::{grown, ObjectProvider};
use crate::index_edit::lemma_clash_free_subset;
use crate::io::IoBackend;
use crate::overlay::overlay_ok;
use crate::root::{root_bytes, RootView};
use crate::place::{keeps_log, laid_down, lens_of, views_of};
use crate::store::{backed, keeps_backed, lemma_dom, lemma_given, no_place, objects_after, payloads_of,
    spot_of, Store};
use crate::superblock::{slot_bytes, slot_of_generation, SuperblockView};
use crate::transaction::{covers_staged, CrashHooks, CrashPoint, PendingRecord, Staged, Tx};
use crate::tree::{clash_free, max_height};

verus! {

// ---------------------------------------------------------------------------
// The committed namespace
// ---------------------------------------------------------------------------

impl<B: IoBackend> Store<B> {
    /// The committed namespace.
    pub open spec fn ns(&self) -> Namespace {
        ns(self.objects(), self.root@.inode_index_root, self.config.max_fanout)
    }

    /// The committed namespace is whole; no tree has more than `h` levels.
    pub open spec fn whole(&self, h: nat) -> bool {
        fs_ok(self.objects(), self.root@.inode_index_root, self.config.max_fanout, h)
    }

    /// The committed chunk index.
    pub open spec fn chunks(&self) -> Listing {
        listing(self.objects(), self.root@.chunk_index_root, self.config.max_fanout)
    }

    /// The committed chunk index can be read.
    pub open spec fn chunks_ok(&self, h: nat) -> bool {
        tree_ok(self.objects(), self.root@.chunk_index_root, self.config.max_fanout, h)
    }

    /// Nothing is buffered, and the epoch is in order.
    pub open spec fn ready(&self) -> bool {
        &&& self.flushed()
        &&& self.epoch.wf()
    }
}

/// A transaction on the objects of the store: each payload that it holds is one of
/// these, or has a record of its digest.
pub open spec fn attempt<B: IoBackend>(a: Store<B>, t: Tx<B>) -> bool {
    &&& t.max_fanout == a.config.max_fanout
    &&& t.objects.ground() == a.objects()
    &&& t.objects.faithful()
}

/// What was tried since `a` is what one transaction held.
pub open spec fn tried_once<B: IoBackend>(a: Store<B>, b: Store<B>) -> bool {
    ||| b.seen == a.seen
    ||| exists|t: Tx<B>| #[trigger] attempt(a, t) && b.seen@ == a.seen@.union(t.objects.payloads())
}

/// The same store, but for the payloads that were tried.
pub open spec fn same_but_seen<B: IoBackend>(a: Store<B>, b: Store<B>) -> bool {
    &&& b == (Store { seen: b.seen, ..a })
    &&& a.seen@.subset_of(b.seen@)
    &&& tried_once(a, b)
}

pub proof fn lemma_tried<B: IoBackend>(a: Store<B>, b: Store<B>, t0: Tx<B>, t1: Tx<B>)
    requires
        b == (Store { seen: b.seen, ..a }),
        b.seen@ == a.seen@.union(t1.objects.payloads()),
        attempt(a, t0),
        grown(&t0.objects, &t1.objects),
        t1.max_fanout == t0.max_fanout,
    ensures
        same_but_seen(a, b),
{
    assert(attempt(a, t1));
}

/// What was put before is still there.
#[verifier::opaque]
pub open spec fn keeps_given(before: Set<Seq<u8>>, after: Set<Seq<u8>>) -> bool {
    before.subset_of(after)
}

/// Nothing that was put is lost, one step after another.
pub proof fn lemma_keeps_given(a: Set<Seq<u8>>, b: Set<Seq<u8>>, c: Set<Seq<u8>>)
    ensures
        keeps_given(a, a),
        keeps_given(a, b) && keeps_given(b, c) ==> keeps_given(a, c),
        keeps_given(a, a.union(b)),
        forall|x: Seq<u8>| keeps_given(a, #[trigger] a.union(b).insert(x)),
{
    reveal(keeps_given);
}

/// What was tried since `a` is now there and what was there still is, nothing was added to
/// the log, and what was durable behind the current segment still is.
pub open spec fn accounted<B: IoBackend>(a: Store<B>, b: Store<B>) -> bool {
    &&& b.seen@ == a.seen@.union(b.given@)
    &&& keeps_given(a.given@, b.given@)
    &&& keeps_log(a.laid@, b.laid@)
    &&& keeps_backed(a, b)
}

/// A transaction begun on a store sees its objects.
pub proof fn lemma_begun<B: IoBackend>(st: Store<B>, tx: Tx<B>)
    requires
        st.flushed(),
        tx.root == st.root,
        tx.max_fanout == st.config.max_fanout,
        tx.objects.payloads() == crate::transaction::committed(st.io.segments(), st.index@),
        tx.objects.ground() == crate::transaction::committed(st.io.segments(), st.index@),
        tx.objects.faithful() == crate::transaction::index_sound(st.io.segments(), st.index@),
    ensures
        attempt(st, tx),
        tx.objects.payloads() == st.objects(),
        tx.objects.faithful(),
        tx.ns() == st.ns(),
        tx.chunks() == st.chunks(),
        forall|h: nat| #[trigger] tx.whole(h) == st.whole(h),
        forall|h: nat| #[trigger] tx.chunks_ok(h) == st.chunks_ok(h),
{
    lemma_flushed_disk(st);
}

/// A commit publishes what the transaction holds: the same namespace and chunk
/// index, in trees of the same height.
pub proof fn commit_publishes<B: IoBackend>(
    a: Store<B>,
    b: Store<B>,
    staged: Staged<B>,
    t: Tx<B>,
    h: nat,
)
    requires
        commit_done(a, b, staged),
        staged.payloads@ == t.objects.payloads(),
        staged.root@.inode_index_root == t.root@.inode_index_root,
        staged.root@.chunk_index_root == t.root@.chunk_index_root,
        b.config.max_fanout == t.max_fanout,
        clash_free(b.given@),
    ensures
        clash_free(t.objects.payloads()),
        t.whole(h) ==> b.whole(h) && b.ns() == t.ns(),
        t.chunks_ok(h) ==> b.chunks_ok(h) && b.chunks() == t.chunks(),
{
    let p = t.objects.payloads();
    let q = b.objects();
    lemma_given(q, b.given@);
    assert(p.subset_of(q));
    lemma_clash_free_subset(p, q);
    if t.whole(h) {
        lemma_fs_grows(p, q, t.root@.inode_index_root, t.max_fanout, h, h);
    }
    if t.chunks_ok(h) {
        lemma_tree_grows(p, q, t.root@.chunk_index_root, t.max_fanout, h, h);
    }
}

/// Pending operations per epoch before an automatic close.
pub const EPOCH_MAX_OPS: u64 = 1024;

// ---------------------------------------------------------------------------
// The log
// ---------------------------------------------------------------------------

/// The features in use once the mutation log is.
pub open spec fn with_log(features: u64) -> u64 {
    if features & feature_mask(Feature::MutationLog) == 0 {
        features | feature_mask(Feature::MutationLog)
    } else {
        features
    }
}

/// The records are appended and flushed, the log's feature bit is set.
pub open spec fn log_appended<B: IoBackend>(
    a: Store<B>,
    b: Store<B>,
    records: Seq<PendingRecord>,
) -> bool {
    &&& b.flushed()
    &&& !no_place(a, lens_of(records))
    &&& objects_after(a.objects(), b.objects(), payloads_of(records))
    &&& b.given@ == a.given@.union(payloads_of(records).to_set())
    &&& b.laid@ == laid_down(
        a.laid@,
        a.io.segments(),
        a.config.segment_size,
        spot_of(a),
        views_of(records),
    )
    &&& b.seen@ == a.seen@.union(b.given@)
    &&& keeps_backed(a, b)
    &&& b.features_in_use == with_log(a.features_in_use)
    &&& if b.features_in_use == a.features_in_use {
        b.superblock == a.superblock && b.io.superblock() == a.io.superblock()
    } else {
        root_named(Store { features_in_use: b.features_in_use, ..a }, b)
    }
}

impl<B: IoBackend> Store<B> {
    /// Append the records of one epoch operation and flush them: what an
    /// acknowledgment waits for. The root and its generation stay; the first time,
    /// the log's feature bit is persisted.
    #[verifier::rlimit(40)]
    pub fn epoch_append(&mut self, records: &Vec<PendingRecord>, hooks: &CrashHooks) -> (r: Result<
        (),
        StoreError,
    >)
        requires
            old(self).wf(),
        ensures
            final(self).config == old(self).config,
            final(self).root == old(self).root,
            final(self).generation == old(self).generation,
            final(self).epoch == old(self).epoch,
            final(self).epoch_pending == old(self).epoch_pending,
            final(self).io.reliable() == old(self).io.reliable(),
            match r {
                Ok(_) => log_appended(*old(self), *final(self), records@) && hooks.armed != Some(
                    CrashPoint::AfterSegmentFdatasync,
                ),
                Err(e) => {
                    ||| !old(self).io.reliable()
                    ||| e is Limit && final(self).wf() && no_place(
                        *old(self),
                        lens_of(records@),
                    )
                    ||| e is CrashSimulated && hooks.armed == Some(
                        CrashPoint::AfterSegmentFdatasync,
                    ) && log_appended(*old(self), *final(self), records@)
                },
            },
    {
        let ghost was = *self;
        let bit: u64 = 0x100;
        let needs_bit = self.features_in_use & bit == 0;
        match self.append_records(records) {
            Ok(_) => {},
            Err(e) => return Err(e),
        }
        match self.flush_segment() {
            Ok(_) => {},
            Err(e) => return Err(e),
        }
        if needs_bit {
            self.features_in_use = self.features_in_use | bit;
            let ghost t = *self;
            assert(t.flushed()) by {
                assert(t.disk() == self.disk());
            }
            let root = self.root;
            let root_id = root.id();
            match self.write_superblock(root_id, &root) {
                Ok(_) => {},
                Err(e) => return Err(e),
            }
            proof {
                assert(self.disk() == t.disk());
                let f = was.features_in_use;
                assert(f & 0x100 == 0 ==> f | 0x100 != f) by (bit_vector);
            }
        }
        assert(self.seen@ =~= was.seen@.union(self.given@));
        match hooks.hit(CrashPoint::AfterSegmentFdatasync) {
            Ok(_) => Ok(()),
            Err(e) => Err(e),
        }
    }
}

// ---------------------------------------------------------------------------
// Checkpoint
// ---------------------------------------------------------------------------

/// What a checkpoint starts from: whole trees under an overlay that they can
/// take in one batch each.
pub open spec fn checkpointable<B: IoBackend>(a: Store<B>, b: Store<B>, h: nat) -> bool {
    &&& a.whole(h)
    &&& a.chunks_ok(h)
    &&& clash_free(b.seen@)
    &&& BTREE_ORDER <= a.config.max_fanout
    &&& overlay_ok(a.ns(), a.epoch@)
    &&& holdable(a.ns())
    &&& chunks_fit(a.epoch@)
}

/// What merging the overlay starts from, where the transaction comes to hold the
/// payloads `p`.
pub open spec fn mergeable<B: IoBackend>(a: Store<B>, p: Set<Seq<u8>>, h: nat) -> bool {
    &&& a.whole(h)
    &&& a.chunks_ok(h)
    &&& clash_free(p)
    &&& BTREE_ORDER <= a.config.max_fanout
    &&& overlay_ok(a.ns(), a.epoch@)
    &&& holdable(a.ns())
    &&& chunks_fit(a.epoch@)
}

/// A finished transaction holds the trees that show what the overlay showed.
pub open spec fn stages_merge<B: IoBackend>(a: Store<B>, staged: Staged<B>) -> bool {
    let f = a.config.max_fanout;
    let p = staged.payloads@;
    &&& covers_staged(a.objects(), staged.records@, p)
    &&& forall|h: nat| #[trigger]
        mergeable(a, p, h) ==> {
            &&& fs_ok(p, staged.root@.inode_index_root, f, merged_levels(h))
            &&& tree_ok(p, staged.root@.chunk_index_root, f, merged_levels(h))
            &&& faces(ns(p, staged.root@.inode_index_root, f)) == overlaid(a.ns(), a.epoch@)
            &&& mapped(listing(p, staged.root@.chunk_index_root, f)) == mapped(
                a.chunks(),
            ).union_prefer_right(a.epoch@.chunks)
        }
}

/// Why a checkpoint came to nothing: the trees could not be read, or the commit of the
/// merged trees failed. What is pending stays pending.
pub open spec fn checkpoint_failed<B: IoBackend>(
    a: Store<B>,
    b: Store<B>,
    e: StoreError,
    hooks: CrashHooks,
    space: Space,
) -> bool {
    &&& b.root == a.root
    &&& b.generation == a.generation
    &&& b.epoch == a.epoch
    &&& b.epoch_pending == a.epoch_pending
    &&& {
        ||| same_but_seen(a, b) && (!a.io.reliable() || forall|h: nat| #[trigger]
            checkpointable(a, b, h) ==> h > max_height())
        ||| exists|staged: Staged<B>| #[trigger]
            stages_merge(a, staged) && commit_failed(a, b, e, hooks, space, staged.records@)
    }
}

/// Nothing is pending above the committed root.
pub open spec fn idle<B: IoBackend>(st: Store<B>) -> bool {
    st.epoch@ == empty_overlay() && st.epoch.seq <= st.root.log_seq
}

/// The overlay is merged: the trees show what it showed, the root names the log
/// up to it, and nothing is pending.
pub open spec fn merged<B: IoBackend>(a: Store<B>, b: Store<B>) -> bool {
    &&& b.ready()
    &&& b.generation == a.generation + 1
    &&& b.root@.log_seq == if a.epoch.seq > a.root@.log_seq {
        a.epoch.seq
    } else {
        a.root@.log_seq
    }
    &&& b.epoch@ == empty_overlay() && b.epoch.staged_objects@.len() == 0
    &&& b.epoch.seq == a.epoch.seq
    &&& b.epoch.max_ino == a.epoch.max_ino
    &&& b.epoch_pending == 0
    &&& accounted(a, b)
    &&& b.root@ == (RootView {
        inode_index_root: b.root@.inode_index_root,
        chunk_index_root: b.root@.chunk_index_root,
        log_seq: b.root@.log_seq,
        generation: (a.generation + 1) as u64,
        segment_seq: b.root@.segment_seq,
        ..a.root@
    })
    &&& forall|h: nat| #[trigger]
        checkpointable(a, b, h) ==> {
            &&& b.whole(merged_levels(h))
            &&& b.chunks_ok(merged_levels(h))
            &&& faces(b.ns()) == overlaid(a.ns(), a.epoch@)
            &&& mapped(b.chunks()) == mapped(a.chunks()).union_prefer_right(a.epoch@.chunks)
        }
}

impl<B: IoBackend> Store<B> {
    /// Flush the active epoch to a checkpoint: the overlay is merged into the
    /// trees and one root is published. A no-op where nothing is pending. Until
    /// the commit has succeeded the epoch keeps what it holds.
    #[verifier::rlimit(60)]
    #[verifier::spinoff_prover]
    pub fn epoch_checkpoint(&mut self, hooks: &CrashHooks, space: &Space) -> (r: Result<
        (),
        StoreError,
    >)
        requires
            old(self).ready(),
        ensures
            final(self).config == old(self).config,
            final(self).features_in_use == old(self).features_in_use,
            final(self).io.reliable() == old(self).io.reliable(),
            idle(*old(self)) ==> r is Ok && *final(self) == *old(self),
            !idle(*old(self)) ==> match r {
                Ok(_) => merged(*old(self), *final(self)),
                Err(e) => checkpoint_failed(*old(self), *final(self), e, *hooks, *space),
            },
    {
        let ghost was = *self;
        if self.epoch.is_idle(self.root.log_seq) {
            return Ok(());
        }
        let mut tx = self.begin_tx();
        let ghost t0 = tx;
        proof {
            lemma_begun(was, t0);
        }
        match Store::epoch_checkpoint_in_tx(&mut tx, &self.epoch) {
            Ok(_) => {},
            Err(e) => {
                let ghost t1 = tx;
                let tried = tx.abandon();
                self.seen.absorb(&tried);
                proof {
                    assert(self.disk() == was.disk());
                    lemma_tried(was, *self, t0, t1);
                    assert forall|h: nat|
                        was.io.reliable() && #[trigger] checkpointable(was, *self, h) implies h
                        > max_height() by {
                        lemma_clash_free_subset(t1.objects.payloads(), self.seen@);
                        assert(t0.whole(h) && t0.chunks_ok(h));
                        assert(crate::checkpoint::merging(t0, t1, was.epoch, h));
                    }
                }
                return Err(e);
            },
        }
        let ghost t1 = tx;
        let seq: u64 = self.epoch.seq;
        if seq > tx.root.log_seq {
            tx.root.log_seq = seq;
        }
        let log_seq: u64 = tx.root.log_seq;
        let ghost t2 = tx;
        let staged = tx.finish();
        let ghost handed = staged;
        proof {
            assert forall|h: nat| #[trigger] mergeable(was, handed.payloads@, h) implies {
                &&& t1.whole(merged_levels(h))
                &&& t1.chunks_ok(merged_levels(h))
                &&& faces(t1.ns()) == overlaid(was.ns(), was.epoch@)
                &&& mapped(t1.chunks()) == mapped(was.chunks()).union_prefer_right(was.epoch@.chunks)
            } by {
                assert(t0.whole(h) && t0.chunks_ok(h));
                assert(crate::checkpoint::merging(t0, t1, was.epoch, h));
            }
            assert(stages_merge(was, handed));
        }
        match self.commit_deferred(staged, hooks, space) {
            Ok(_) => {},
            Err(e) => return Err(e),
        }
        let ghost now = *self;
        self.epoch_pending = seq.saturating_sub(log_seq);
        self.epoch.retire();
        proof {
            assert(self.disk() == now.disk());
            assert forall|h: nat| #[trigger] checkpointable(was, *self, h) implies {
                &&& self.whole(merged_levels(h))
                &&& self.chunks_ok(merged_levels(h))
                &&& faces(self.ns()) == overlaid(was.ns(), was.epoch@)
                &&& mapped(self.chunks()) == mapped(was.chunks()).union_prefer_right(
                    was.epoch@.chunks,
                )
            } by {
                assert(t0.whole(h) && t0.chunks_ok(h));
                lemma_clash_free_subset(now.given@, self.seen@);
                commit_publishes(was, now, handed, t2, merged_levels(h));
                assert(crate::checkpoint::merging(t0, t1, was.epoch, h));
                assert(t2.ns() == t1.ns() && t2.chunks() == t1.chunks());
                assert(t2.whole(merged_levels(h)) == t1.whole(merged_levels(h)));
                assert(t2.chunks_ok(merged_levels(h)) == t1.chunks_ok(merged_levels(h)));
            }
        }
        Ok(())
    }
}

// ---------------------------------------------------------------------------
// Barrier
// ---------------------------------------------------------------------------

/// What is pending is merged; where nothing is, the store stays.
pub open spec fn settled<B: IoBackend>(a: Store<B>, b: Store<B>) -> bool {
    if idle(a) {
        barrier_keeps(a, b) && keeps_backed(a, b)
    } else {
        merged(a, b)
    }
}

/// The slot of the superblock's generation holds it.
pub open spec fn slot_held(file: Seq<u8>, sb: SuperblockView) -> bool {
    let at = slot_of_generation(sb.generation) as int;
    let bytes = slot_bytes(sb);
    at + bytes.len() <= file.len() && file.subrange(at, at + bytes.len()) == bytes
}

/// The root is durable: everything is flushed; the superblock names the root, and its slot
/// holds it; the superblock file, the entries of the segment files and the current segment
/// file are synced as they are.
pub open spec fn durable<B: IoBackend>(st: Store<B>) -> bool {
    let seq = st.segment.seq_of();
    &&& st.ready()
    &&& slot_held(st.io.superblock(), st.superblock@)
    &&& st.io.synced().superblock == st.io.superblock()
    &&& st.io.synced().names == st.io.segments().dom()
    &&& st.io.segments().contains_key(seq)
    &&& st.io.synced().segments.contains_key(seq)
    &&& st.io.synced().segments[seq] == st.io.segments()[seq]
    &&& st.superblock@ == superblock_of(
        st.superblock@,
        st.root@,
        digest(root_bytes(st.root@)),
        st.features_in_use,
    )
}

/// Where the segments behind the current one were durable, everything that a durable store
/// holds is: each file reads after a loss of power as it reads now.
pub proof fn durable_is_synced<B: IoBackend>(st: Store<B>)
    requires
        durable(st),
        backed(st.io, st.segment.seq_of()),
    ensures
        st.io.synced().superblock == st.io.superblock(),
        st.io.synced().names == st.io.segments().dom(),
        forall|s: u64| #[trigger]
            st.io.segments().contains_key(s) ==> st.io.synced().segments.contains_key(s)
                && st.io.synced().segments[s] == st.io.segments()[s],
{
    reveal(backed);
}

/// A written slot is held.
pub(crate) proof fn lemma_slot_held(before: Seq<u8>, after: Seq<u8>, sb: SuperblockView)
    requires
        slot_written(before, after, sb),
    ensures
        slot_held(after, sb),
{
    let at = slot_of_generation(sb.generation) as int;
    let bytes = slot_bytes(sb);
    assert(after.subrange(at, at + bytes.len()) =~= bytes);
}

/// Why the durability barrier did not come to its end: what was pending could not be
/// merged, or the physical barrier failed.
pub open spec fn barrier_failed<B: IoBackend>(
    a: Store<B>,
    b: Store<B>,
    e: StoreError,
    hooks: CrashHooks,
    space: Space,
) -> bool {
    ||| !idle(a) && checkpoint_failed(a, b, e, hooks, space)
    ||| exists|mid: Store<B>| #[trigger] settled(a, mid) && sync_failed(mid, b, e, hooks)
}

/// A merge stays what it is through a barrier.
proof fn lemma_merged_kept<B: IoBackend>(a: Store<B>, b: Store<B>, c: Store<B>)
    requires
        merged(a, b),
        barrier_keeps(b, c),
        keeps_backed(b, c),
        c.flushed(),
        c.disk() == b.disk(),
    ensures
        merged(a, c),
{
    assert(c.objects() == b.objects());
    assert forall|h: nat| #[trigger] checkpointable(a, c, h) implies {
        &&& c.whole(merged_levels(h))
        &&& c.chunks_ok(merged_levels(h))
        &&& faces(c.ns()) == overlaid(a.ns(), a.epoch@)
        &&& mapped(c.chunks()) == mapped(a.chunks()).union_prefer_right(a.epoch@.chunks)
    } by {
        assert(checkpointable(a, b, h));
    }
}

/// The epoch is merged where it has accumulated too many operations; else it stays.
pub open spec fn closed_when_full<B: IoBackend>(a: Store<B>, b: Store<B>) -> bool {
    if a.epoch_pending < EPOCH_MAX_OPS || idle(a) {
        b == a
    } else {
        merged(a, b)
    }
}

/// The epoch has accumulated too many operations, and could not be merged.
pub open spec fn close_failed<B: IoBackend>(
    a: Store<B>,
    b: Store<B>,
    e: StoreError,
    space: Space,
) -> bool {
    &&& a.epoch_pending >= EPOCH_MAX_OPS
    &&& !idle(a)
    &&& checkpoint_failed(a, b, e, (CrashHooks { armed: None }), space)
}

/// Why a durable commit failed: nothing was committed, or what was committed could not
/// be made durable.
pub open spec fn durable_failed<B: IoBackend>(
    a: Store<B>,
    b: Store<B>,
    e: StoreError,
    hooks: CrashHooks,
    space: Space,
    staged: Staged<B>,
) -> bool {
    ||| commit_failed(a, b, e, hooks, space, staged.records@) && b.root == a.root && b.generation
        == a.generation && commit_keeps(a, b)
    ||| exists|mid: Store<B>| #[trigger]
        commit_done(a, mid, staged) && commit_keeps(a, mid) && barrier_failed(
            mid,
            b,
            e,
            hooks,
            space,
        )
}

impl<B: IoBackend> Store<B> {
    /// The durability barrier: what is pending is merged into the trees, and the
    /// current root made durable.
    pub fn durability_barrier(&mut self, hooks: &CrashHooks, space: &Space) -> (r: Result<
        (),
        StoreError,
    >)
        requires
            old(self).ready(),
        ensures
            final(self).config == old(self).config,
            final(self).features_in_use == old(self).features_in_use,
            final(self).io.reliable() == old(self).io.reliable(),
            match r {
                Ok(_) => {
                    &&& settled(*old(self), *final(self))
                    &&& durable(*final(self))
                    &&& !(hooks.armed matches Some(p) && barrier_point(p))
                },
                Err(e) => barrier_failed(*old(self), *final(self), e, *hooks, *space),
            },
    {
        let ghost was = *self;
        match self.epoch_checkpoint(hooks, space) {
            Ok(_) => {},
            Err(e) => return Err(e),
        }
        let ghost mid = *self;
        assert(settled(was, mid));
        match self.make_durable(hooks) {
            Ok(_) => {},
            Err(e) => return Err(e),
        }
        proof {
            lemma_flushed_disk(*self);
            assert(self.disk() == mid.disk());
            lemma_slot_held(mid.io.superblock(), self.io.superblock(), self.superblock@);
            lemma_dom(*self);
            if !idle(was) {
                lemma_merged_kept(was, mid, *self);
            }
        }
        Ok(())
    }

    /// Flush the epoch before collection: its objects are only referenced by the
    /// log, which is no root of a collection.
    pub fn ensure_epoch_flushed(&mut self, hooks: &CrashHooks, space: &Space) -> (r: Result<
        (),
        StoreError,
    >)
        requires
            old(self).ready(),
        ensures
            final(self).config == old(self).config,
            final(self).features_in_use == old(self).features_in_use,
            final(self).io.reliable() == old(self).io.reliable(),
            idle(*old(self)) ==> r is Ok && *final(self) == *old(self),
            !idle(*old(self)) ==> match r {
                Ok(_) => merged(*old(self), *final(self)),
                Err(e) => checkpoint_failed(*old(self), *final(self), e, *hooks, *space),
            },
    {
        self.epoch_checkpoint(hooks, space)
    }

    /// Close the epoch when it has accumulated too many operations.
    pub fn maybe_checkpoint_epoch(&mut self, space: &Space) -> (r: Result<(), StoreError>)
        requires
            old(self).ready(),
        ensures
            final(self).config == old(self).config,
            final(self).features_in_use == old(self).features_in_use,
            final(self).io.reliable() == old(self).io.reliable(),
            match r {
                Ok(_) => closed_when_full(*old(self), *final(self)),
                Err(e) => close_failed(*old(self), *final(self), e, *space),
            },
    {
        if self.epoch_pending >= EPOCH_MAX_OPS {
            self.epoch_checkpoint(&CrashHooks::none(), space)
        } else {
            Ok(())
        }
    }

    /// Commit with full durability: commit, and run the barrier.
    #[verifier::rlimit(40)]
    pub fn commit(&mut self, staged: Staged<B>, hooks: &CrashHooks, space: &Space) -> (r: Result<
        (),
        StoreError,
    >)
        requires
            old(self).ready(),
            covers_staged(old(self).objects(), staged.records@, staged.payloads@),
        ensures
            final(self).config == old(self).config,
            final(self).features_in_use == old(self).features_in_use,
            final(self).io.reliable() == old(self).io.reliable(),
            match r {
                Ok(_) => {
                    &&& durable(*final(self))
                    &&& exists|mid: Store<B>| #[trigger]
                        commit_done(*old(self), mid, staged) && commit_keeps(*old(self), mid)
                            && settled(mid, *final(self))
                },
                Err(e) => durable_failed(*old(self), *final(self), e, *hooks, *space, staged),
            },
    {
        let ghost was = *self;
        match self.commit_deferred(staged, hooks, space) {
            Ok(_) => {},
            Err(e) => return Err(e),
        }
        let ghost mid = *self;
        let r = self.durability_barrier(hooks, space);
        proof {
            assert(commit_done(was, mid, staged) && commit_keeps(was, mid));
            assert(r is Ok ==> settled(mid, *self));
        }
        r
    }
}

} // verus!
