//! The replay of the log at open, and opening and creating a store.

use vstd::prelude::*;

use crate::chunk::{zero_id, ChunkId};
use crate::commit::{commit_failed, next_root, Space};
use crate::descriptor::{steady, Descriptor};
use crate::epoch::{empty_overlay, fresh, Epoch};
use crate::epoch_store::begun;
use crate::error::StoreError;
use crate::extents::data_editing;
use crate::fs::{fs_ok, inode_fits, item_of, lemma_fs_grows, lemma_ns_at, lemma_tree_grows, listing, ns,
    rootless, tree_ok, Item, Namespace, BTREE_ORDER};
use crate::index::ObjectProvider;
use crate::index_edit::lemma_clash_free_subset;
use crate::inode::{dir_at, inode_ok, DataView, Inode, InodeView, Timespec};
use crate::io::{file_of, written, IoBackend};
use crate::journal::{durable, idle, lemma_begun, lemma_tried, same_but_seen, accounted};
use crate::log::{op_ok, MutationOp, OpView};
use crate::namespace::{editing, first_row, strained, time_ok};
use crate::object::ObjectIndex;
use crate::paths::countable;
use crate::place::{keeps_log, lemma_keeps_log, on_record};
use crate::record::RecordView;
use crate::mount::{byte_views, gather_log, logs_over, mounted, owned, unmountable};
use crate::recovery::{indexes_walk, inodes_walk, rooted, verify_root};
use crate::replay::{all_applicable, is_tail, log_broken, log_levels, op_views, read_log, replay_all,
    replayed, replayed_chunks, replayed_mask};
use crate::root::{empty_root, root_bytes, Root, RootView};
use crate::segment::{magic_bytes, SegmentWriter};
use crate::store::{backed, laid_with, lemma_given, traced, Store, StoreConfig};
use crate::superblock::{slot_bytes, Superblock};
use crate::transaction::{covers_staged, CrashHooks, Staged, Tx};
use crate::tried::Tried;
use crate::tree::{clash_free, max_height};
use crate::version::SUPERBLOCK_SLOT_A_OFFSET;

verus! {

// ---------------------------------------------------------------------------
// Replay
// ---------------------------------------------------------------------------

/// What a replay starts from.
#[verifier::opaque]
pub open spec fn replayable<B: IoBackend, F: Fn(&[u8]) -> Option<Descriptor>>(
    a: Store<B>,
    b: Store<B>,
    ops: Seq<OpView>,
    decode: F,
    h: nat,
) -> bool {
    &&& a.whole(h)
    &&& a.chunks_ok(h)
    &&& clash_free(b.seen@)
    &&& BTREE_ORDER <= a.config.max_fanout
    &&& all_applicable(a.ns(), a.objects(), ops, decode)
}

/// The log is replayed: the committed namespace is what its records make of the
/// one before, and the root names the log up to its end.
pub open spec fn log_replayed<B: IoBackend, F: Fn(&[u8]) -> Option<Descriptor>>(
    a: Store<B>,
    b: Store<B>,
    log: Seq<(u64, MutationOp)>,
    decode: F,
) -> bool {
    let ops = op_views(log);
    &&& durable(b)
    &&& b.config == a.config
    &&& b.io.reliable() == a.io.reliable()
    &&& b.generation == a.generation + 1
    &&& b.root@.log_seq == log.last().0
    &&& b.features_in_use == a.features_in_use | replayed_mask(ops, decode)
    &&& b.epoch@ == empty_overlay() && b.epoch.seq == log.last().0
    &&& fresh(a.epoch) ==> fresh(b.epoch)
    &&& accounted(a, b)
    &&& b.root@ == (RootView {
        inode_index_root: b.root@.inode_index_root,
        chunk_index_root: b.root@.chunk_index_root,
        log_seq: b.root@.log_seq,
        generation: (a.generation + 1) as u64,
        segment_seq: b.root@.segment_seq,
        ..a.root@
    })
    &&& forall|h: nat| #[trigger]
        replayable(a, b, ops, decode, h) ==> {
            &&& b.whole(h + log_levels(ops))
            &&& b.chunks_ok(h + log_levels(ops))
            &&& b.ns() == replayed(a.ns(), a.objects(), ops)
            &&& b.chunks() == replayed_chunks(a.chunks(), ops, decode)
        }
}

/// What the staged transaction of a replay holds.
#[verifier::opaque]
pub open spec fn stages_replay<B: IoBackend, F: Fn(&[u8]) -> Option<Descriptor>>(
    a: Store<B>,
    staged: Staged<B>,
    ops: Seq<OpView>,
    decode: F,
    h: nat,
) -> bool {
    let p = staged.payloads@;
    let k = h + log_levels(ops);
    let table = staged.root@.inode_index_root;
    let chunks = staged.root@.chunk_index_root;
    let fanout = a.config.max_fanout;
    &&& fs_ok(p, table, fanout, k)
    &&& ns(p, table, fanout) == replayed(a.ns(), a.objects(), ops)
    &&& tree_ok(p, chunks, fanout, k)
    &&& listing(p, chunks, fanout) == replayed_chunks(a.chunks(), ops, decode)
}

/// A finished transaction from `a` holds what the records make of the store; `mid` is
/// the store that commits it, with the features that the records need.
pub open spec fn log_staged<B: IoBackend, F: Fn(&[u8]) -> Option<Descriptor>>(
    a: Store<B>,
    mid: Store<B>,
    staged: Staged<B>,
    ops: Seq<OpView>,
    decode: F,
) -> bool {
    &&& mid == (Store {
        features_in_use: a.features_in_use | replayed_mask(ops, decode),
        seen: mid.seen,
        ..a
    })
    &&& mid.seen@ == a.seen@.union(staged.payloads@)
    &&& covers_staged(a.objects(), staged.records@, staged.payloads@)
    &&& forall|h: nat| #[trigger]
        replayable(a, mid, ops, decode, h) ==> stages_replay(a, staged, ops, decode, h)
}

/// Why a replay came to nothing: the transport failed, a record does not apply to the
/// store, or the commit of what the records make of it failed.
pub open spec fn log_unreplayed<B: IoBackend, F: Fn(&[u8]) -> Option<Descriptor>>(
    a: Store<B>,
    b: Store<B>,
    e: StoreError,
    log: Seq<(u64, MutationOp)>,
    decode: F,
    space: Space,
) -> bool {
    ||| !a.io.reliable()
    ||| same_but_seen(a, b) && forall|h: nat| #[trigger]
        replayable(a, b, op_views(log), decode, h) ==> h + log_levels(op_views(log)) > max_height()
    ||| exists|mid: Store<B>, staged: Staged<B>| #[trigger]
        log_staged(a, mid, staged, op_views(log), decode) && commit_failed(
            mid,
            b,
            e,
            (CrashHooks { armed: None }),
            space,
            staged.records@,
        )
}

proof fn lemma_replayable<B: IoBackend, F: Fn(&[u8]) -> Option<Descriptor>>(
    a: Store<B>,
    b: Store<B>,
    c: Store<B>,
    ops: Seq<OpView>,
    decode: F,
    h: nat,
)
    requires
        replayable(a, c, ops, decode, h),
        b.seen@.subset_of(c.seen@),
    ensures
        replayable(a, b, ops, decode, h),
        clash_free(c.seen@),
{
    reveal(replayable);
    lemma_clash_free_subset(b.seen@, c.seen@);
}

proof fn lemma_published<B: IoBackend, F: Fn(&[u8]) -> Option<Descriptor>>(
    a: Store<B>,
    b: Store<B>,
    staged: Staged<B>,
    ops: Seq<OpView>,
    decode: F,
    h: nat,
)
    requires
        stages_replay(a, staged, ops, decode, h),
        b.wf(),
        clash_free(b.seen@),
        b.config == a.config,
        b.root@.inode_index_root == staged.root@.inode_index_root,
        b.root@.chunk_index_root == staged.root@.chunk_index_root,
        staged.payloads@.subset_of(b.given@),
    ensures
        b.whole(h + log_levels(ops)),
        b.chunks_ok(h + log_levels(ops)),
        b.ns() == replayed(a.ns(), a.objects(), ops),
        b.chunks() == replayed_chunks(a.chunks(), ops, decode),
{
    reveal(stages_replay);
    let k = h + log_levels(ops);
    let p = staged.payloads@;
    let q = b.objects();
    let fanout = a.config.max_fanout;
    lemma_clash_free_subset(b.given@, b.seen@);
    lemma_given(q, b.given@);
    lemma_fs_grows(p, q, staged.root@.inode_index_root, fanout, k, k);
    lemma_tree_grows(p, q, staged.root@.chunk_index_root, fanout, k, k);
}

impl<B: IoBackend> Store<B> {
    /// Replay records in a transaction.
    #[verifier::rlimit(40)]
    #[verifier::spinoff_prover]
    fn stage_replay<F: Fn(&[u8]) -> Option<Descriptor>>(
        &mut self,
        log: &Vec<(u64, MutationOp)>,
        decode: &F,
        now: Timespec,
    ) -> (r: Result<(Staged<B>, u64), StoreError>)
        requires
            old(self).ready(),
            log@.len() > 0,
            forall|i: int| 0 <= i < log@.len() ==> op_ok((#[trigger] log@[i]).1@),
            time_ok(now),
            steady(*decode),
        ensures
            same_but_seen(*old(self), *final(self)),
            match r {
                Ok(o) => {
                    &&& covers_staged(old(self).objects(), o.0.records@, o.0.payloads@)
                    &&& o.0.root@ == (RootView {
                        inode_index_root: o.0.root@.inode_index_root,
                        chunk_index_root: o.0.root@.chunk_index_root,
                        log_seq: log@.last().0,
                        ..old(self).root@
                    })
                    &&& o.1 == replayed_mask(op_views(log@), *decode)
                    &&& final(self).seen@ == old(self).seen@.union(o.0.payloads@)
                    &&& forall|h: nat| #[trigger]
                        replayable(*old(self), *final(self), op_views(log@), *decode, h)
                            ==> stages_replay(*old(self), o.0, op_views(log@), *decode, h)
                },
                Err(_) => !old(self).io.reliable() || forall|h: nat| #[trigger]
                    replayable(*old(self), *final(self), op_views(log@), *decode, h) ==> h
                        + log_levels(op_views(log@)) > max_height(),
            },
    {
        let ghost was = *self;
        let ghost ops = op_views(log@);
        let mut tx = self.begin_tx();
        let ghost t0 = tx;
        proof {
            lemma_begun(was, t0);
        }
        let out = replay_all(&mut tx, log, decode, now);
        let ghost t1 = tx;
        let last: u64 = log[log.len() - 1].0;
        tx.root.log_seq = last;
        let staged = tx.finish();
        self.seen.absorb(&staged.payloads);
        proof {
            lemma_tried(was, *self, t0, t1);
            assert forall|h: nat| #[trigger] replayable(was, *self, ops, *decode, h) implies (
            match out {
                Ok(_) => stages_replay(was, staged, ops, *decode, h),
                Err(_) => h + log_levels(ops) > max_height() || !was.io.reliable(),
            }) by {
                reveal(replayable);
                reveal(stages_replay);
                lemma_clash_free_subset(t1.objects.payloads(), self.seen@);
                assert(t0.whole(h) && t0.chunks_ok(h));
                assert(data_editing(t0, t1, h));
            }
        }
        match out {
            Ok(mask) => Ok((staged, mask)),
            Err(e) => Err(e),
        }
    }

    /// Replay records, in one transaction, and make the outcome durable.
    #[verifier::rlimit(40)]
    #[verifier::spinoff_prover]
    pub fn replay_log<F: Fn(&[u8]) -> Option<Descriptor>>(
        &mut self,
        log: &Vec<(u64, MutationOp)>,
        decode: &F,
        now: Timespec,
        space: &Space,
    ) -> (r: Result<(), StoreError>)
        requires
            old(self).ready(),
            old(self).epoch@ == empty_overlay(),
            log@.len() > 0,
            forall|i: int| 0 <= i < log@.len() ==> op_ok((#[trigger] log@[i]).1@),
            time_ok(now),
            steady(*decode),
        ensures
            match r {
                Ok(_) => log_replayed(*old(self), *final(self), log@, *decode),
                Err(e) => log_unreplayed(*old(self), *final(self), e, log@, *decode, *space),
            },
    {
        let ghost was = *self;
        let ghost ops = op_views(log@);
        let (staged, mask) = match self.stage_replay(log, decode, now) {
            Ok(o) => o,
            Err(e) => return Err(e),
        };
        let last: u64 = log[log.len() - 1].0;
        let ghost handed = staged;
        let ghost tried = *self;
        self.features_in_use = self.features_in_use | mask;
        let ghost mid = *self;
        proof {
            assert(mid.disk() == was.disk());
            crate::store::lemma_traced_grows(mid.laid@, mid.index@, was.seen@, mid.seen@);
        }
        proof {
            assert forall|h: nat| #[trigger] replayable(was, mid, ops, *decode, h) implies
                stages_replay(was, handed, ops, *decode, h) by {
                lemma_replayable(was, tried, mid, ops, *decode, h);
            }
            assert(log_staged(was, mid, handed, ops, *decode));
        }
        match self.publish_staged(staged, last, space) {
            Ok(_) => {},
            Err(e) => return Err(e),
        }
        proof {
            assert forall|h: nat| #[trigger] replayable(was, *self, ops, *decode, h) implies {
                &&& self.whole(h + log_levels(ops))
                &&& self.chunks_ok(h + log_levels(ops))
                &&& self.ns() == replayed(was.ns(), was.objects(), ops)
                &&& self.chunks() == replayed_chunks(was.chunks(), ops, *decode)
            } by {
                lemma_replayable(was, tried, *self, ops, *decode, h);
                lemma_published(was, *self, handed, ops, *decode, h);
            }
            assert(self.seen@ =~= was.seen@.union(self.given@));
        }
        Ok(())
    }

    /// Commit what was staged and run the barrier.
    fn publish_staged(&mut self, staged: Staged<B>, last: u64, space: &Space) -> (r: Result<
        (),
        StoreError,
    >)
        requires
            old(self).ready(),
            old(self).epoch@ == empty_overlay(),
            covers_staged(old(self).objects(), staged.records@, staged.payloads@),
            staged.root@.log_seq == last,
        ensures
            match r {
                Ok(_) => {
                    &&& durable(*final(self))
                    &&& final(self).config == old(self).config
                    &&& final(self).io.reliable() == old(self).io.reliable()
                    &&& final(self).features_in_use == old(self).features_in_use
                    &&& final(self).generation == old(self).generation + 1
                    &&& final(self).root@ == next_root(
                        staged.root@,
                        old(self).generation,
                        old(self).segment.seq_of(),
                    )
                    &&& final(self).epoch@ == empty_overlay() && final(self).epoch.seq == last
                    &&& fresh(old(self).epoch) ==> fresh(final(self).epoch)
                    &&& final(self).given@ == old(self).given@.union(staged.payloads@).insert(
                        root_bytes(final(self).root@),
                    )
                    &&& accounted(*old(self), *final(self))
                },
                Err(e) => !old(self).io.reliable() || commit_failed(
                    *old(self),
                    *final(self),
                    e,
                    (CrashHooks { armed: None }),
                    *space,
                    staged.records@,
                ),
            },
    {
        let ghost was = *self;
        let hooks = CrashHooks::none();
        match self.commit_deferred(staged, &hooks, space) {
            Ok(_) => {},
            Err(e) => return Err(e),
        }
        let ghost done = *self;
        self.epoch.seq = last;
        proof {
            assert(self.disk() == done.disk());
            assert(self.epoch@ =~= was.epoch@);
            assert(idle(*self));
        }
        self.durability_barrier(&hooks, space)
    }
}

// ---------------------------------------------------------------------------
// Opening and creating
// ---------------------------------------------------------------------------

/// The tail of the log above the root is replayed; where there is none, the store
/// stays.
pub open spec fn tail_replayed<B: IoBackend, F: Fn(&[u8]) -> Option<Descriptor>>(
    a: Store<B>,
    b: Store<B>,
    seqs: Seq<u64>,
    decode: F,
    envs: Seq<Vec<u8>>,
    log: Seq<(u64, MutationOp)>,
) -> bool {
    &&& logs_over(a.io.segments(), seqs, a.config.max_records_per_segment as nat) == Some(
        byte_views(envs),
    )
    &&& is_tail(log, envs, a.root.log_seq)
    &&& log.len() == 0 ==> b == a
    &&& log.len() > 0 ==> log_replayed(a, b, log, decode)
}

/// Why the tail of the log was not replayed: the transport failed, the segments cannot
/// be scanned, an envelope is broken, or the replay came to nothing.
pub open spec fn tail_unreplayed<B: IoBackend, F: Fn(&[u8]) -> Option<Descriptor>>(
    a: Store<B>,
    b: Store<B>,
    e: StoreError,
    seqs: Seq<u64>,
    decode: F,
    space: Space,
) -> bool {
    let found = logs_over(a.io.segments(), seqs, a.config.max_records_per_segment as nat);
    ||| !a.io.reliable()
    ||| b == a && found is None
    ||| b == a && exists|envs: Seq<Vec<u8>>| #[trigger]
        log_broken(envs, a.root.log_seq) && found == Some(byte_views(envs))
    ||| exists|envs: Seq<Vec<u8>>, log: Seq<(u64, MutationOp)>|
        #![trigger is_tail(log, envs, a.root.log_seq)]
        is_tail(log, envs, a.root.log_seq) && found == Some(byte_views(envs)) && log_unreplayed(
            a,
            b,
            e,
            log,
            decode,
            space,
        )
}

/// What the root of a store reaches cannot be walked.
pub open spec fn root_broken<B: IoBackend>(st: Store<B>) -> bool {
    exists|tx: Tx<B>| #[trigger]
        begun(st, tx) && forall|h: nat| #[trigger]
            tx.reads(h) && countable(tx) ==> strained(tx, h) || !indexes_walk(tx) || !rooted(tx)
                || !inodes_walk(tx)
}

impl<B: IoBackend> Store<B> {
    /// Replay the log that no checkpoint consumed: the envelopes above the root's
    /// sequence number, in order, in one transaction.
    pub fn epoch_replay<F: Fn(&[u8]) -> Option<Descriptor>>(
        &mut self,
        seqs: &Vec<u64>,
        decode: &F,
        now: Timespec,
        space: &Space,
    ) -> (r: Result<(), StoreError>)
        requires
            old(self).ready(),
            old(self).epoch@ == empty_overlay(),
            time_ok(now),
            steady(*decode),
        ensures
            match r {
                Ok(_) => exists|envs: Seq<Vec<u8>>, log: Seq<(u64, MutationOp)>| #[trigger]
                    tail_replayed(*old(self), *final(self), seqs@, *decode, envs, log),
                Err(e) => tail_unreplayed(*old(self), *final(self), e, seqs@, *decode, *space),
            },
    {
        let ghost was = *self;
        let envs = match gather_log(&self.io, seqs, self.config.max_records_per_segment) {
            Ok(v) => v,
            Err(e) => return Err(e),
        };
        let log = match read_log(&envs, self.root.log_seq) {
            Ok(l) => l,
            Err(e) => {
                assert(log_broken(envs@, was.root.log_seq));
                return Err(e);
            },
        };
        assert(is_tail(log@, envs@, was.root.log_seq));
        if log.len() == 0 {
            assert(tail_replayed(was, *self, seqs@, *decode, envs@, log@));
            return Ok(());
        }
        match self.replay_log(&log, decode, now, space) {
            Ok(_) => {
                assert(tail_replayed(was, *self, seqs@, *decode, envs@, log@));
                Ok(())
            },
            Err(e) => Err(e),
        }
    }

    /// Open an existing store: mount it, check that the root's trees can be
    /// walked, replay the log.
    #[verifier::rlimit(60)]
    #[verifier::spinoff_prover]
    pub fn open<F: Fn(&[u8]) -> Option<Descriptor>>(
        io: B,
        config: &StoreConfig,
        seqs: &Vec<u64>,
        slot_a: &[u8],
        slot_b: &[u8],
        decode: &F,
        now: Timespec,
        space: &Space,
    ) -> (r: Result<Store<B>, StoreError>)
        requires
            owned(io.segments(), seqs@, config.max_records_per_segment as nat),
            time_ok(now),
            steady(*decode),
        ensures
            match r {
                Ok(st) => st.ready() && exists|m: Store<B>,
                    envs: Seq<Vec<u8>>,
                    log: Seq<(u64, MutationOp)>,
                |
                    #![trigger tail_replayed(m, st, seqs@, *decode, envs, log)]
                    mounted(m, io, *config, seqs@, slot_a@, slot_b@) && m.root.root_dir_ino != 0
                        && tail_replayed(m, st, seqs@, *decode, envs, log),
                Err(e) => {
                    ||| unmountable(io, *config, seqs@, slot_a@, slot_b@)
                    ||| exists|m: Store<B>| #[trigger]
                        mounted(m, io, *config, seqs@, slot_a@, slot_b@) && root_broken(m)
                    ||| exists|m: Store<B>, st: Store<B>| #[trigger]
                        tail_unreplayed(m, st, e, seqs@, *decode, *space) && mounted(
                            m,
                            io,
                            *config,
                            seqs@,
                            slot_a@,
                            slot_b@,
                        )
                },
            },
    {
        let mut st = match Store::mount(io, config, seqs, slot_a, slot_b) {
            Ok(st) => st,
            Err(e) => return Err(e),
        };
        let ghost m = st;
        let tx = st.begin_tx();
        proof {
            lemma_begun(m, tx);
        }
        assert(begun(m, tx));
        match verify_root(&tx) {
            Ok(_) => {},
            Err(e) => {
                assert(root_broken(m));
                return Err(e);
            },
        }
        match st.epoch_replay(seqs, decode, now, space) {
            Ok(_) => {},
            Err(e) => return Err(e),
        }
        Ok(st)
    }
}

/// A namespace of one directory, with the number 1.
pub open spec fn first_namespace(dir: InodeView) -> Namespace {
    Map::empty().insert(
        1u64,
        Item { inode: rootless(dir), entries: Seq::empty(), xattrs: Seq::empty() },
    )
}

/// The store was handed the root directory, its table and the root, and shows them.
pub open spec fn created_at<B: IoBackend>(st: Store<B>, dir: InodeView) -> bool {
    &&& st.seen@ == first_row(1, dir).insert(root_bytes(st.root@))
    &&& clash_free(st.seen@) && BTREE_ORDER <= st.config.max_fanout ==> st.whole(1) && st.ns()
        == first_namespace(dir)
}

/// A store with a root directory and nothing else.
pub open spec fn created<B: IoBackend>(st: Store<B>, config: StoreConfig, uuid: Seq<u8>) -> bool {
    &&& durable(st)
    &&& backed(st.io, st.segment.seq_of())
    &&& st.config == config
    &&& st.generation == 1
    &&& st.root@.uuid == uuid
    &&& st.root@.root_dir_ino == 1
    &&& st.root@.log_seq == 0
    &&& st.features_in_use == 0
    &&& fresh(st.epoch) && st.epoch.seq == 0
    &&& st.root@.chunk_index_root == zero_id()
    &&& keeps_log(Map::empty(), st.laid@)
    &&& exists|at: Timespec| #[trigger]
        created_at(st, dir_at(config.root_uid, config.root_gid, 0o755, at))
}

/// A store with nothing in it.
pub open spec fn is_blank<B: IoBackend>(st: Store<B>, config: StoreConfig, uuid: Seq<u8>) -> bool {
    &&& st.ready()
    &&& st.config == config
    &&& st.generation == 0 && st.features_in_use == 0
    &&& st.root@ == (RootView { root_dir_ino: 1, uuid, ..empty_root() })
    &&& st.superblock@.uuid == uuid
    &&& fresh(st.epoch) && st.epoch.seq == 0
    &&& keeps_log(Map::empty(), st.laid@)
    &&& st.objects() == Set::<Seq<u8>>::empty()
    &&& st.seen@ == Set::<Seq<u8>>::empty() && st.given@ == Set::<Seq<u8>>::empty()
    &&& st.segment.seq_of() == 0
    &&& backed(st.io, 0)
    &&& st.segment.buffered().len() == 0
}

/// The transport once the first superblock is written and the first segment is there.
pub open spec fn blank_io<B: IoBackend>(before: B, st: Store<B>) -> bool {
    &&& st.io.reliable() == before.reliable()
    &&& st.io.segments() == Map::<u64, Seq<u8>>::empty().insert(0, magic_bytes())
    &&& st.io.superblock() == written(
        before.superblock(),
        SUPERBLOCK_SLOT_A_OFFSET as nat,
        slot_bytes(st.superblock@),
    )
    &&& st.io.synced().superblock == st.io.superblock()
}

/// The first transaction: it holds the root directory and the table that names it.
pub open spec fn stages_first<B: IoBackend>(staged: Staged<B>, config: StoreConfig, at: Timespec) -> bool {
    &&& staged.payloads@ == first_row(1, dir_at(config.root_uid, config.root_gid, 0o755, at))
    &&& covers_staged(Set::empty(), staged.records@, staged.payloads@)
}

/// The first commit, from the blank store `a`, failed.
pub open spec fn not_created<B: IoBackend>(
    a: Store<B>,
    b: Store<B>,
    e: StoreError,
    config: StoreConfig,
    space: Space,
) -> bool {
    exists|staged: Staged<B>, at: Timespec| #[trigger]
        stages_first(staged, config, at) && commit_failed(
            a,
            b,
            e,
            (CrashHooks { armed: None }),
            space,
            staged.records@,
        )
}

impl<B: IoBackend> Store<B> {
    /// An empty store over an empty transport: the first superblock is written,
    /// the first segment is there, and nothing is committed.
    fn blank(io: B, config: &StoreConfig, uuid: [u8; 16]) -> (r: Result<Store<B>, StoreError>)
        requires
            io.segments() == Map::<u64, Seq<u8>>::empty(),
        ensures
            match r {
                Ok(st) => is_blank(st, *config, uuid@) && blank_io(io, st),
                Err(_) => !io.reliable(),
            },
    {
        let mut io = io;
        let ghost segs = io.segments();
        let mut root = Root::default();
        root.uuid = uuid;
        root.root_dir_ino = 1;
        let sb = Superblock {
            uuid,
            generation: 0,
            root_object_id: ChunkId::zero(),
            segment_seq: 0,
            incompat: 0,
        };
        let bytes = sb.encode();
        match io.write_superblock_slot(SUPERBLOCK_SLOT_A_OFFSET, &bytes) {
            Ok(_) => {},
            Err(e) => return Err(e),
        }
        match io.fsync_superblock() {
            Ok(_) => {},
            Err(e) => return Err(e),
        }
        let segment = match SegmentWriter::open(&mut io, 0) {
            Ok(w) => w,
            Err(e) => return Err(StoreError::Segment(e)),
        };
        let ghost now = io.segments();
        let st = Store {
            io,
            config: *config,
            index: ObjectIndex::new(),
            segment,
            root,
            superblock: sb,
            generation: 0,
            features_in_use: 0,
            epoch: Epoch::new(),
            epoch_pending: 0,
            laid: Ghost(laid_with(Map::empty(), 0)),
            given: Ghost(Set::empty()),
            seen: Tried::none(),
        };
        proof {
            let none = Map::<u64, Seq<RecordView>>::empty();
            assert(segs.dom() =~= none.dom());
            assert(traced(none, st.index@, st.seen@)) by {
                reveal(traced);
            }
            crate::store::lemma_opened(segs, now, none, st.index@, 0, st.segment.end_of() as nat);
            assert(file_of(now, 0) + st.segment.buffered() =~= file_of(now, 0));
            assert(st.disk() =~= now);
            assert(st.objects() =~= Set::empty());
            assert(now =~= Map::<u64, Seq<u8>>::empty().insert(0, magic_bytes())) by {
                let none = Map::<u64, Seq<u8>>::empty();
                assert(now.remove(0) =~= none.remove(0));
                assert forall|q: u64| now.contains_key(q) implies q == 0 by {
                    assert(now.remove(0).contains_key(q) == none.remove(0).contains_key(q));
                }
            }
            reveal(backed);
            reveal(keeps_log);
            reveal(on_record);
        }
        Ok(st)
    }

    /// Create a new store on an empty transport: the root directory has the number
    /// 1, and is committed with full durability.
    #[verifier::rlimit(40)]
    pub fn create(io: B, config: &StoreConfig, uuid: [u8; 16], space: &Space) -> (r: Result<
        Store<B>,
        StoreError,
    >)
        requires
            io.segments() == Map::<u64, Seq<u8>>::empty(),
        ensures
            match r {
                Ok(st) => created(st, *config, uuid@),
                Err(e) => {
                    ||| !io.reliable()
                    ||| exists|a: Store<B>, b: Store<B>| #[trigger]
                        not_created(a, b, e, *config, *space) && is_blank(a, *config, uuid@)
                            && blank_io(io, a)
                },
            },
    {
        let mut st = match Store::blank(io, config, uuid) {
            Ok(st) => st,
            Err(e) => return Err(e),
        };
        let ghost was = st;
        let root_inode = Inode::new_dir(config.root_uid, config.root_gid, 0o755);
        let mut tx = st.begin_tx();
        let ghost t0 = tx;
        proof {
            lemma_begun(was, t0);
        }
        match Store::put_inode_in_tx(&mut tx, 1, &root_inode) {
            Ok(_) => {},
            Err(e) => return Err(e),
        }
        let ghost t1 = tx;
        let staged = tx.finish();
        let ghost handed = staged;
        proof {
            assert(handed.payloads@ =~= first_row(1, root_inode@));
            assert(stages_first(handed, *config, root_inode.crtime));
        }
        match st.publish_staged(staged, 0, space) {
            Ok(_) => {},
            Err(e) => {
                assert(io.reliable() ==> not_created(was, st, e, *config, *space));
                return Err(e);
            },
        }
        proof {
            if clash_free(st.seen@) && BTREE_ORDER <= config.max_fanout {
                lemma_first(was, st, handed, t0, t1, root_inode@);
            }
            lemma_keeps_log(Map::empty(), was.laid@, st.laid@);
            let at = root_inode.crtime;
            assert(st.seen@ =~= first_row(1, root_inode@).insert(root_bytes(st.root@)));
            assert(created_at(st, dir_at(config.root_uid, config.root_gid, 0o755, at)));
        }
        Ok(st)
    }
}

/// The zero id is the empty tree.
proof fn lemma_empty_tree(p: Set<Seq<u8>>, fanout: u32)
    ensures
        tree_ok(p, zero_id(), fanout, 0),
        listing(p, zero_id(), fanout) == Seq::<(Seq<u8>, Seq<u8>)>::empty(),
{
}

proof fn lemma_nothing<B: IoBackend>(st: Store<B>)
    requires
        st.root@.inode_index_root == zero_id(),
    ensures
        st.whole(0),
        st.ns() == Namespace::empty(),
{
    lemma_empty_tree(st.objects(), st.config.max_fanout);
    assert forall|ino: u64| !(#[trigger] st.ns().contains_key(ino)) by {
        lemma_ns_at(
            st.objects(),
            st.root@.inode_index_root,
            st.config.max_fanout,
            0,
            ino,
        );
    }
    assert(st.ns() =~= Namespace::empty());
}

/// The first commit shows the root directory.
proof fn lemma_first<B: IoBackend>(
    a: Store<B>,
    b: Store<B>,
    staged: Staged<B>,
    t0: Tx<B>,
    t1: Tx<B>,
    dir: InodeView,
)
    requires
        b.wf(),
        b.config == a.config,
        b.root@.inode_index_root == staged.root@.inode_index_root,
        staged.payloads@.subset_of(b.given@),
        clash_free(b.seen@),
        BTREE_ORDER <= a.config.max_fanout,
        a.root@.inode_index_root == zero_id(),
        staged.payloads@ == t1.objects.payloads(),
        staged.root == t1.root,
        t0.max_fanout == a.config.max_fanout,
        t1.max_fanout == t0.max_fanout,
        t0.objects.faithful(),
        t0.root == a.root,
        t0.objects.payloads() == a.objects(),
        inode_ok(dir),
        dir.data == (DataView::Directory { dir_root: zero_id() }),
        dir.xattr_root == zero_id(),
        editing(t0, t1, 0) && inode_fits(t0.objects.payloads(), dir, t0.max_fanout, 0) ==> {
            &&& t1.whole(1)
            &&& t1.ns() == t0.ns().insert(1, item_of(t0.objects.payloads(), dir, t0.max_fanout))
        },
    ensures
        b.whole(1),
        b.ns() == first_namespace(dir),
{
    let p = t0.objects.payloads();
    lemma_nothing(a);
    lemma_empty_tree(p, t0.max_fanout);
    lemma_clash_free_subset(b.given@, b.seen@);
    lemma_given(b.objects(), b.given@);
    lemma_clash_free_subset(t1.objects.payloads(), b.objects());
    assert(editing(t0, t1, 0));
    assert(inode_fits(p, dir, t0.max_fanout, 0));
    assert(t1.ns() =~= first_namespace(dir));
    lemma_fs_grows(
        t1.objects.payloads(),
        b.objects(),
        t1.root@.inode_index_root,
        t1.max_fanout,
        1,
        1,
    );
}

} // verus!
