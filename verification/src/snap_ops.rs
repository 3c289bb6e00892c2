//! Snapshots: named roots that stay reachable.

use vstd::prelude::*;

use crate::chunk::digest;
use crate::commit::{commit_done, commit_failed, commit_keeps, next_root, only_snapshots, Space};
use crate::error::StoreError;
use crate::fs::{fs_ok, lemma_fs_grows, lemma_listing, lemma_tree_grows, listing, ns, tree_ok, Listing,
    BTREE_ORDER};
use crate::index::{grown, trusty, ObjectProvider};
use crate::index_edit::lemma_clash_free_subset;
use crate::inode::Timespec;
use crate::io::IoBackend;
use crate::journal::{attempt, barrier_failed, commit_publishes, durable, lemma_begun, lemma_tried,
    same_but_seen, settled, accounted};
use crate::namespace::valid_xattr_name;
use crate::ops::changing;
use crate::root::{parse_root, root_bytes, root_ok, root_round_trip, Root, RootView};
use crate::snapshot::{self, opt_entry, snapshot_bytes, snapshot_cut, snapshot_in, snapshot_put,
    snapshots_decode, SnapshotEntry};
use crate::sorted::{erase, has_key, upsert};
use crate::store::{lemma_given, Store};
use crate::transaction::{covers_staged, CrashHooks, Staged, Tx};
use crate::tree::{clash_free, max_height};

verus! {

impl<B: IoBackend> Store<B> {
    /// The committed snapshots, by name.
    pub open spec fn snaps(&self) -> Listing {
        listing(self.objects(), self.root@.snapshot_tree_root, self.config.max_fanout)
    }

    /// The committed snapshots can be read.
    pub open spec fn snaps_ok(&self, h: nat) -> bool {
        tree_ok(self.objects(), self.root@.snapshot_tree_root, self.config.max_fanout, h)
    }
}

/// What an operation on snapshots starts from.
pub open spec fn snap_changing<B: IoBackend>(a: Store<B>, b: Store<B>, h: nat) -> bool {
    &&& BTREE_ORDER <= a.config.max_fanout
    &&& clash_free(b.seen@)
    &&& a.snaps_ok(h)
}

/// The commit published the snapshots `s`, and left the namespace alone.
pub open spec fn snap_landed<B: IoBackend>(
    a: Store<B>,
    mid: Store<B>,
    b: Store<B>,
    more: nat,
    s: Listing,
    fine: bool,
) -> bool {
    &&& commit_keeps(a, mid)
    &&& mid.generation == a.generation + 1
    &&& accounted(a, mid)
    &&& only_snapshots(a, mid)
    &&& settled(mid, b)
    &&& forall|h: nat| #[trigger]
        snap_changing(a, mid, h) ==> mid.snaps_ok(h + more) && mid.snaps() == s && fine
    &&& forall|h: nat| #[trigger] changing(a, mid, h) ==> mid.whole(h) && mid.ns() == a.ns()
}

/// The operation went through and is durable.
pub open spec fn snap_lands<B: IoBackend>(
    a: Store<B>,
    b: Store<B>,
    more: nat,
    s: Listing,
    fine: bool,
) -> bool {
    &&& durable(b)
    &&& exists|mid: Store<B>| #[trigger] snap_landed(a, mid, b, more, s, fine)
}

/// What a transaction on snapshots starts from, where it comes to hold the payloads `p`.
pub open spec fn snap_staging<B: IoBackend>(a: Store<B>, p: Set<Seq<u8>>, h: nat) -> bool {
    &&& BTREE_ORDER <= a.config.max_fanout
    &&& clash_free(p)
    &&& a.snaps_ok(h)
}

/// A finished transaction holds the snapshots `s`, and the committed namespace.
pub open spec fn snap_stages<B: IoBackend>(
    a: Store<B>,
    staged: Staged<B>,
    more: nat,
    s: Listing,
) -> bool {
    let f = a.config.max_fanout;
    let p = staged.payloads@;
    &&& covers_staged(a.objects(), staged.records@, p)
    &&& staged.root@.inode_index_root == a.root@.inode_index_root
    &&& forall|h: nat| #[trigger]
        snap_staging(a, p, h) ==> tree_ok(p, staged.root@.snapshot_tree_root, f, h + more)
            && listing(p, staged.root@.snapshot_tree_root, f) == s
}

/// A commit published the snapshots `s`, and left the namespace alone.
pub open spec fn snap_published<B: IoBackend>(
    a: Store<B>,
    mid: Store<B>,
    more: nat,
    s: Listing,
) -> bool {
    &&& commit_keeps(a, mid)
    &&& mid.generation == a.generation + 1
    &&& accounted(a, mid)
    &&& only_snapshots(a, mid)
    &&& mid.ready()
    &&& forall|h: nat| #[trigger]
        snap_changing(a, mid, h) ==> mid.snaps_ok(h + more) && mid.snaps() == s
    &&& forall|h: nat| #[trigger] changing(a, mid, h) ==> mid.whole(h) && mid.ns() == a.ns()
}

/// Nothing was changed: the backend failed, the tree may be too tall, or the operation
/// was refused.
pub open spec fn snap_turned_down<B: IoBackend>(a: Store<B>, b: Store<B>, refused: bool) -> bool {
    &&& same_but_seen(a, b)
    &&& {
        ||| !a.io.reliable()
        ||| forall|h: nat| #[trigger] snap_changing(a, b, h) ==> h > max_height() || refused
    }
}

/// Why the operation failed: it was turned down, the commit of its transaction failed,
/// or what it committed could not be made durable.
pub open spec fn snap_failed<B: IoBackend>(
    a: Store<B>,
    b: Store<B>,
    e: StoreError,
    hooks: CrashHooks,
    space: Space,
    refused: bool,
    more: nat,
    s: Listing,
) -> bool {
    ||| snap_turned_down(a, b, refused)
    ||| exists|staged: Staged<B>| #[trigger]
        snap_stages(a, staged, more, s) && commit_failed(a, b, e, hooks, space, staged.records@)
    ||| exists|mid: Store<B>| #[trigger]
        snap_published(a, mid, more, s) && barrier_failed(mid, b, e, hooks, space)
}

/// The time as a snapshot holds it: nanoseconds since the Unix epoch.
pub open spec fn nanoseconds(t: Timespec) -> int {
    t.sec * 1_000_000_000 + t.nsec
}

proof fn lemma_snap_begun<B: IoBackend>(a: Store<B>, b: Store<B>, t0: Tx<B>, t1: Tx<B>)
    requires
        a.ready(),
        t0.objects.payloads() == a.objects(),
        attempt(a, t0),
        grown(&t0.objects, &t1.objects),
        t1.max_fanout == t0.max_fanout,
        b == (Store { seen: b.seen, ..a }),
        b.seen@ == a.seen@.union(t1.objects.payloads()),
    ensures
        same_but_seen(a, b),
        clash_free(b.seen@) ==> clash_free(t1.objects.payloads()),
{
    lemma_tried(a, b, t0, t1);
    if clash_free(b.seen@) {
        lemma_clash_free_subset(t1.objects.payloads(), b.seen@);
    }
}

proof fn lemma_snap_landed<B: IoBackend>(
    a: Store<B>,
    mid: Store<B>,
    staged: Staged<B>,
    t1: Tx<B>,
)
    requires
        commit_done(a, mid, staged),
        commit_keeps(a, mid),
        t1.max_fanout == a.config.max_fanout,
        staged.payloads@ == t1.objects.payloads(),
        staged.root == t1.root,
    ensures
        clash_free(mid.seen@) ==> clash_free(t1.objects.payloads()),
        forall|k: nat|
            clash_free(mid.seen@) && #[trigger] tree_ok(
                t1.objects.payloads(),
                t1.root@.snapshot_tree_root,
                t1.max_fanout,
                k,
            ) ==> mid.snaps_ok(k) && mid.snaps() == listing(
                t1.objects.payloads(),
                t1.root@.snapshot_tree_root,
                t1.max_fanout,
            ),
        forall|k: nat|
            clash_free(mid.seen@) && #[trigger] t1.whole(k) ==> mid.whole(k) && mid.ns() == t1.ns(),
{
    if clash_free(mid.seen@) {
        lemma_clash_free_subset(mid.given@, mid.seen@);
        commit_publishes(a, mid, staged, t1, 0);
        let p = t1.objects.payloads();
        let q = mid.objects();
        lemma_given(q, mid.given@);
        assert(p.subset_of(q));
        assert forall|k: nat| #[trigger] tree_ok(
            p,
            t1.root@.snapshot_tree_root,
            t1.max_fanout,
            k,
        ) implies mid.snaps_ok(k) && mid.snaps() == listing(
            p,
            t1.root@.snapshot_tree_root,
            t1.max_fanout,
        ) by {
            lemma_tree_grows(p, q, t1.root@.snapshot_tree_root, t1.max_fanout, k, k);
        }
        assert forall|k: nat| #[trigger] t1.whole(k) implies mid.whole(k) && mid.ns() == t1.ns() by {
            commit_publishes(a, mid, staged, t1, k);
        }
    }
}

proof fn lemma_put_snapshot<B: IoBackend>(t0: Tx<B>, t1: Tx<B>, h: nat, s: Listing)
    requires
        t0.objects.payloads().subset_of(t1.objects.payloads()),
        clash_free(t1.objects.payloads()),
        t1.max_fanout == t0.max_fanout,
        t1.root.inode_index_root == t0.root.inode_index_root,
    ensures
        t0.whole(h) ==> t1.whole(h) && t1.ns() == t0.ns(),
{
    if t0.whole(h) {
        lemma_fs_grows(
            t0.objects.payloads(),
            t1.objects.payloads(),
            t0.root.inode_index_root@,
            t0.max_fanout,
            h,
            h,
        );
    }
}

impl<B: IoBackend> Store<B> {
    /// The snapshots, in name order.
    pub fn list_snapshots(&self) -> (r: Result<Vec<(Vec<u8>, SnapshotEntry)>, StoreError>)
        requires
            self.flushed(),
        ensures
            forall|h: nat| #[trigger]
                snap_changing(*self, *self, h) && self.snaps().len() <= usize::MAX ==> match r {
                    Ok(v) => snapshots_decode(self.snaps(), v@),
                    Err(_) => !self.io.reliable() || h > max_height() || exists|i: int|
                        0 <= i < self.snaps().len() && snapshot::parse_snapshot(
                            (#[trigger] self.snaps()[i]).1,
                        ) is Err,
                },
    {
        let tx = self.begin_tx();
        proof {
            lemma_begun(*self, tx);
            assert forall|h: nat| #[trigger] snap_changing(*self, *self, h) implies trusty(
                &tx.objects,
            ) by {
                lemma_clash_free_subset(self.given@, self.seen@);
                lemma_given(self.objects(), self.given@);
            }
        }
        match snapshot::list(
            self.root.snapshot_tree_root,
            BTREE_ORDER,
            self.config.max_fanout,
            &tx.objects,
        ) {
            Ok(v) => Ok(v),
            Err(e) => Err(StoreError::index(e)),
        }
    }

    /// A snapshot by name.
    pub fn snapshot_lookup(&self, name: &[u8]) -> (r: Result<Option<SnapshotEntry>, StoreError>)
        requires
            self.flushed(),
        ensures
            forall|h: nat| #[trigger]
                snap_changing(*self, *self, h) ==> match r {
                    Ok(e) => snapshot_in(self.snaps(), name@) == Ok::<
                        Option<(Seq<u8>, u64)>,
                        crate::codec::CodecError,
                    >(opt_entry(e)),
                    Err(_) => !self.io.reliable() || h > max_height() || snapshot_in(
                        self.snaps(),
                        name@,
                    ) is Err,
                },
    {
        let tx = self.begin_tx();
        proof {
            lemma_begun(*self, tx);
            assert forall|h: nat| #[trigger] snap_changing(*self, *self, h) implies trusty(
                &tx.objects,
            ) by {
                lemma_clash_free_subset(self.given@, self.seen@);
                lemma_given(self.objects(), self.given@);
            }
        }
        match snapshot::lookup(
            self.root.snapshot_tree_root,
            name,
            BTREE_ORDER,
            self.config.max_fanout,
            &tx.objects,
        ) {
            Ok(v) => Ok(v),
            Err(e) => Err(StoreError::index(e)),
        }
    }

    /// Take a snapshot of the committed root under a name.
    #[verifier::rlimit(40)]
    pub fn create_snapshot(
        &mut self,
        name: &[u8],
        now: Timespec,
        hooks: &CrashHooks,
        space: &Space,
    ) -> (r: Result<SnapshotEntry, StoreError>)
        requires
            old(self).ready(),
            nanoseconds(now) <= u64::MAX,
        ensures
            match r {
                Ok(e) => {
                    &&& valid_xattr_name(name@)
                    &&& e@ == (digest(root_bytes(old(self).root@)), nanoseconds(now) as u64)
                    &&& snap_lands(
                        *old(self),
                        *final(self),
                        1,
                        snapshot_put(old(self).snaps(), name@, e@),
                        true,
                    )
                },
                Err(e) => {
                    ||| e is Config && !valid_xattr_name(name@) && *final(self) == *old(self)
                    ||| snap_failed(
                        *old(self),
                        *final(self),
                        e,
                        *hooks,
                        *space,
                        false,
                        1,
                        snapshot_put(
                            old(self).snaps(),
                            name@,
                            (digest(root_bytes(old(self).root@)), nanoseconds(now) as u64),
                        ),
                    )
                },
            },
    {
        if !Self::validate_xattr_name(name) {
            return Err(StoreError::Config("invalid snapshot name".to_string()));
        }
        let ghost was = *self;
        let root_id = self.root.id();
        let created_unix_ns: u64 = now.sec * 1_000_000_000 + now.nsec as u64;
        let entry = SnapshotEntry { root_id, created_unix_ns };
        let mut tx = self.begin_tx();
        let ghost t0 = tx;
        proof {
            lemma_begun(was, t0);
        }
        let out = snapshot::insert(
            tx.root.snapshot_tree_root,
            name,
            entry,
            BTREE_ORDER,
            tx.max_fanout,
            &mut tx.objects,
        );
        let ghost t1 = tx;
        match out {
            Ok(id) => {
                tx.root.snapshot_tree_root = id;
            },
            Err(e) => {
                let tried = tx.abandon();
                self.seen.absorb(&tried);
                proof {
                    lemma_snap_begun(was, *self, t0, t1);
                }
                return Err(StoreError::index(e));
            },
        }
        let ghost t2 = tx;
        let staged = tx.finish();
        let ghost handed = staged;
        let r = self.commit(staged, hooks, space);
        proof {
            if r is Ok {
                let mid = choose|mid: Store<B>| #[trigger]
                    commit_done(was, mid, handed) && commit_keeps(was, mid) && settled(mid, *self);
                let s = upsert(was.snaps(), name@, snapshot_bytes(entry@));
                lemma_snap_published(was, mid, handed, t0, t2, 1, s);
                assert(snap_landed(was, mid, *self, 1, s, true));
            } else {
                let e = r->Err_0;
                let s = upsert(was.snaps(), name@, snapshot_bytes(entry@));
                lemma_snap_stages(was, handed, t0, t2, 1, s);
                if !commit_failed(was, *self, e, *hooks, *space, handed.records@) {
                    let mid = choose|mid: Store<B>| #[trigger]
                        commit_done(was, mid, handed) && commit_keeps(was, mid) && barrier_failed(
                            mid,
                            *self,
                            e,
                            *hooks,
                            *space,
                        );
                    lemma_snap_published(was, mid, handed, t0, t2, 1, s);
                    assert(snap_published(was, mid, 1, s));
                }
            }
        }
        match r {
            Ok(_) => Ok(entry),
            Err(e) => Err(e),
        }
    }

    /// Delete a snapshot; says whether it was there.
    #[verifier::rlimit(40)]
    pub fn delete_snapshot(&mut self, name: &[u8], hooks: &CrashHooks, space: &Space) -> (r: Result<
        bool,
        StoreError,
    >)
        requires
            old(self).ready(),
        ensures
            match r {
                Ok(present) => snap_lands(
                    *old(self),
                    *final(self),
                    0,
                    snapshot_cut(old(self).snaps(), name@),
                    present == has_key(old(self).snaps(), name@),
                ),
                Err(e) => snap_failed(
                    *old(self),
                    *final(self),
                    e,
                    *hooks,
                    *space,
                    snapshot_in(old(self).snaps(), name@) is Err,
                    0,
                    snapshot_cut(old(self).snaps(), name@),
                ),
            },
    {
        let ghost was = *self;
        let mut tx = self.begin_tx();
        let ghost t0 = tx;
        proof {
            lemma_begun(was, t0);
        }
        let out = snapshot::remove(
            tx.root.snapshot_tree_root,
            name,
            BTREE_ORDER,
            tx.max_fanout,
            &mut tx.objects,
        );
        let ghost t1 = tx;
        let present = match out {
            Ok((id, present)) => {
                tx.root.snapshot_tree_root = id;
                present
            },
            Err(e) => {
                let tried = tx.abandon();
                self.seen.absorb(&tried);
                proof {
                    lemma_snap_begun(was, *self, t0, t1);
                }
                return Err(StoreError::index(e));
            },
        };
        let ghost t2 = tx;
        let staged = tx.finish();
        let ghost handed = staged;
        let r = self.commit(staged, hooks, space);
        proof {
            if r is Ok {
                let mid = choose|mid: Store<B>| #[trigger]
                    commit_done(was, mid, handed) && commit_keeps(was, mid) && settled(mid, *self);
                let s = erase(was.snaps(), name@);
                lemma_snap_published(was, mid, handed, t0, t2, 0, s);
                assert(snap_landed(
                    was,
                    mid,
                    *self,
                    0,
                    s,
                    present == has_key(was.snaps(), name@),
                ));
            } else {
                let e = r->Err_0;
                let s = erase(was.snaps(), name@);
                lemma_snap_stages(was, handed, t0, t2, 0, s);
                if !commit_failed(was, *self, e, *hooks, *space, handed.records@) {
                    let mid = choose|mid: Store<B>| #[trigger]
                        commit_done(was, mid, handed) && commit_keeps(was, mid) && barrier_failed(
                            mid,
                            *self,
                            e,
                            *hooks,
                            *space,
                        );
                    lemma_snap_published(was, mid, handed, t0, t2, 0, s);
                    assert(snap_published(was, mid, 0, s));
                }
            }
        }
        match r {
            Ok(_) => Ok(present),
            Err(e) => Err(e),
        }
    }
}

/// A commit that changed the snapshots alone publishes them and keeps the namespace.
proof fn lemma_snap_stages<B: IoBackend>(
    a: Store<B>,
    staged: Staged<B>,
    t0: Tx<B>,
    t2: Tx<B>,
    more: nat,
    s: Listing,
)
    requires
        t0.max_fanout == a.config.max_fanout,
        t0.root == a.root,
        t2.max_fanout == t0.max_fanout,
        t2.root == (Root { snapshot_tree_root: t2.root.snapshot_tree_root, ..t0.root }),
        staged.payloads@ == t2.objects.payloads(),
        staged.root == t2.root,
        covers_staged(a.objects(), staged.records@, staged.payloads@),
        forall|h: nat|
            clash_free(t2.objects.payloads()) && BTREE_ORDER <= a.config.max_fanout
                && #[trigger] a.snaps_ok(h) ==> crate::tree::lists(
                t2.objects.payloads(),
                t2.root@.snapshot_tree_root,
                BTREE_ORDER,
                t2.max_fanout,
                h + more,
                s,
            ),
    ensures
        snap_stages(a, staged, more, s),
{
    let p = t2.objects.payloads();
    assert forall|h: nat| #[trigger] snap_staging(a, p, h) implies tree_ok(
        p,
        staged.root@.snapshot_tree_root,
        a.config.max_fanout,
        h + more,
    ) && listing(p, staged.root@.snapshot_tree_root, a.config.max_fanout) == s by {
        assert(a.snaps_ok(h));
        lemma_listing(p, t2.root@.snapshot_tree_root, t2.max_fanout, h + more, s);
    }
}

proof fn lemma_snap_published<B: IoBackend>(
    a: Store<B>,
    mid: Store<B>,
    staged: Staged<B>,
    t0: Tx<B>,
    t2: Tx<B>,
    more: nat,
    s: Listing,
)
    requires
        commit_done(a, mid, staged),
        commit_keeps(a, mid),
        t0.objects.payloads() == a.objects(),
        t0.max_fanout == a.config.max_fanout,
        t0.root == a.root,
        t0.ns() == a.ns(),
        forall|h: nat| #[trigger] t0.whole(h) == a.whole(h),
        t0.objects.payloads().subset_of(t2.objects.payloads()),
        t2.max_fanout == t0.max_fanout,
        t2.root == (Root { snapshot_tree_root: t2.root.snapshot_tree_root, ..t0.root }),
        staged.payloads@ == t2.objects.payloads(),
        staged.root == t2.root,
        forall|h: nat|
            clash_free(t2.objects.payloads()) && BTREE_ORDER <= a.config.max_fanout
                && #[trigger] a.snaps_ok(h) ==> crate::tree::lists(
                t2.objects.payloads(),
                t2.root@.snapshot_tree_root,
                BTREE_ORDER,
                t2.max_fanout,
                h + more,
                s,
            ),
    ensures
        only_snapshots(a, mid),
        forall|h: nat| #[trigger]
            snap_changing(a, mid, h) ==> mid.snaps_ok(h + more) && mid.snaps() == s,
        clash_free(mid.seen@) ==> clash_free(t2.objects.payloads()),
        forall|h: nat| #[trigger] changing(a, mid, h) ==> mid.whole(h) && mid.ns() == a.ns(),
{
    lemma_snap_landed(a, mid, staged, t2);
    let p = t2.objects.payloads();
    assert forall|h: nat| #[trigger] snap_changing(a, mid, h) implies mid.snaps_ok(h + more)
        && mid.snaps() == s by {
        assert(a.snaps_ok(h));
        lemma_listing(p, t2.root@.snapshot_tree_root, t2.max_fanout, h + more, s);
        assert(tree_ok(p, t2.root@.snapshot_tree_root, t2.max_fanout, h + more));
    }
    assert forall|h: nat| #[trigger] changing(a, mid, h) implies mid.whole(h) && mid.ns()
        == a.ns() by {
        assert(t0.whole(h) == a.whole(h));
        lemma_put_snapshot(t0, t2, h, s);
        assert(t2.whole(h));
    }
}

// ---------------------------------------------------------------------------
// Restoring
// ---------------------------------------------------------------------------

/// The root that is restored: the snapshot's, with the snapshot tree given; the log
/// is never run back.
pub open spec fn restored_root(snap: RootView, snapshot_tree_root: Seq<u8>, log_seq: u64) -> RootView {
    RootView {
        snapshot_tree_root,
        log_seq: if log_seq > snap.log_seq {
            log_seq
        } else {
            snap.log_seq
        },
        ..snap
    }
}

/// The payload is that of a root object of the store.
pub open spec fn root_object<B: IoBackend>(a: Store<B>, id: Seq<u8>, bytes: Seq<u8>, snap: RootView) -> bool {
    &&& a.objects().contains(bytes)
    &&& digest(bytes) == id
    &&& parse_root(bytes) == Ok::<RootView, crate::codec::CodecError>(snap)
}

/// The commit published the snapshot's trees, with its own snapshots and the one
/// restored from.
#[verifier::opaque]
pub open spec fn restored<B: IoBackend>(
    a: Store<B>,
    mid: Store<B>,
    name: Seq<u8>,
    entry: (Seq<u8>, u64),
    bytes: Seq<u8>,
    snap: RootView,
) -> bool {
    let f = a.config.max_fanout;
    &&& root_object(a, entry.0, bytes, snap)
    &&& commit_keeps(a, mid)
    &&& mid.generation == a.generation + 1
    &&& accounted(a, mid)
    &&& mid.root@ == next_root(
        restored_root(snap, mid.root@.snapshot_tree_root, a.root@.log_seq),
        a.generation,
        a.segment.seq_of(),
    )
    &&& forall|h: nat|
        clash_free(mid.seen@) && BTREE_ORDER <= f && #[trigger] tree_ok(
            a.objects(),
            snap.snapshot_tree_root,
            f,
            h,
        ) ==> mid.snaps_ok(h + 1) && mid.snaps() == upsert(
            listing(a.objects(), snap.snapshot_tree_root, f),
            name,
            snapshot_bytes(entry),
        )
    &&& forall|h: nat|
        clash_free(mid.seen@) && #[trigger] fs_ok(a.objects(), snap.inode_index_root, f, h)
            ==> mid.whole(h) && mid.ns() == ns(a.objects(), snap.inode_index_root, f)
    &&& forall|h: nat|
        clash_free(mid.seen@) && #[trigger] tree_ok(a.objects(), snap.chunk_index_root, f, h)
            ==> mid.chunks_ok(h) && mid.chunks() == listing(a.objects(), snap.chunk_index_root, f)
}

/// A restore went through from this entry.
pub open spec fn restored_from<B: IoBackend>(
    a: Store<B>,
    mid: Store<B>,
    name: Seq<u8>,
    entry: (Seq<u8>, u64),
) -> bool {
    &&& exists|bytes: Seq<u8>, snap: RootView| #[trigger]
        restored(a, mid, name, entry, bytes, snap)
    &&& forall|h: nat| #[trigger]
        snap_changing(a, a, h) ==> snapshot_in(a.snaps(), name) == Ok::<
            Option<(Seq<u8>, u64)>,
            crate::codec::CodecError,
        >(Some(entry))
}

/// The snapshot cannot be restored: it is not there, its root object is not, or does
/// not decode.
#[verifier::opaque]
pub open spec fn unrestorable<B: IoBackend>(a: Store<B>, name: Seq<u8>) -> bool {
    match snapshot_in(a.snaps(), name) {
        Ok(Some(e)) => forall|b: Seq<u8>| #[trigger]
            a.objects().contains(b) && digest(b) == e.0 ==> parse_root(b) is Err,
        _ => true,
    }
}

/// No snapshot has a name that is too long to store.
proof fn lemma_long_name<B: IoBackend>(a: Store<B>, name: Seq<u8>)
    requires
        name.len() > u16::MAX,
    ensures
        forall|h: nat| #[trigger] snap_changing(a, a, h) ==> unrestorable(a, name),
{
    reveal(unrestorable);
    assert forall|h: nat| #[trigger] snap_changing(a, a, h) implies unrestorable(a, name) by {
        let s = a.snaps();
        crate::fs::lemma_tree_encodable(
            a.objects(),
            a.root@.snapshot_tree_root,
            a.config.max_fanout,
            h,
        );
        crate::fs::lemma_tree_sorted(
            a.objects(),
            a.root@.snapshot_tree_root,
            a.config.max_fanout,
            h,
        );
        crate::fs::lemma_has_key(s, name);
        if has_key(s, name) {
            assert(s[crate::sorted::rank(s, name)].0 == name);
        }
    }
}

/// The root that a snapshot pins is the one it was taken of, where the store still
/// holds that root object.
pub proof fn snapshot_pins_its_root<B: IoBackend>(
    a: Store<B>,
    root: RootView,
    bytes: Seq<u8>,
    snap: RootView,
)
    requires
        root_ok(root),
        clash_free(a.objects()),
        a.objects().contains(root_bytes(root)),
        root_object(a, digest(root_bytes(root)), bytes, snap),
    ensures
        snap == root,
{
    root_round_trip(root);
}

/// The object of the committed root is in the store after every commit, so that a
/// snapshot of it can be restored.
pub proof fn committed_root_is_held<B: IoBackend>(a: Store<B>, b: Store<B>, staged: Staged<B>)
    requires
        commit_done(a, b, staged),
        clash_free(b.given@),
    ensures
        b.objects().contains(root_bytes(b.root@)),
{
    lemma_given(b.objects(), b.given@);
}

/// A finished transaction holds the root of the named snapshot in place of the
/// committed one.
pub open spec fn stages_restore<B: IoBackend>(
    a: Store<B>,
    staged: Staged<B>,
    name: Seq<u8>,
    snap: RootView,
) -> bool {
    &&& covers_staged(a.objects(), staged.records@, staged.payloads@)
    &&& staged.root@ == restored_root(snap, staged.root@.snapshot_tree_root, a.root@.log_seq)
    &&& exists|entry: (Seq<u8>, u64), bytes: Seq<u8>| #[trigger]
        pinned(a, name, entry, bytes, snap)
}

/// The snapshot's own snapshot tree is too tall or cannot be read.
#[verifier::opaque]
pub open spec fn unlisted<B: IoBackend>(a: Store<B>, snap: RootView) -> bool {
    forall|h: nat| #[trigger]
        tree_ok(a.objects(), snap.snapshot_tree_root, a.config.max_fanout, h) ==> h > max_height()
}

/// The snapshot, the bytes of its root object and the root.
#[verifier::opaque]
pub open spec fn pinned<B: IoBackend>(
    a: Store<B>,
    name: Seq<u8>,
    entry: (Seq<u8>, u64),
    bytes: Seq<u8>,
    snap: RootView,
) -> bool {
    &&& root_object(a, entry.0, bytes, snap)
    &&& forall|h: nat| #[trigger]
        snap_changing(a, a, h) ==> snapshot_in(a.snaps(), name) == Ok::<
            Option<(Seq<u8>, u64)>,
            crate::codec::CodecError,
        >(Some(entry))
}

/// Some snapshot root whose snapshot tree cannot be read.
pub open spec fn some_unlisted<B: IoBackend>(a: Store<B>, name: Seq<u8>) -> bool {
    exists|entry: (Seq<u8>, u64), bytes: Seq<u8>, snap: RootView| #[trigger]
        pinned(a, name, entry, bytes, snap) && unlisted(a, snap)
}

impl<B: IoBackend> Store<B> {
    /// The root that a snapshot pins.
    fn pinned_root(&self, name: &[u8]) -> (r: Result<(SnapshotEntry, Root, Vec<u8>), StoreError>)
        requires
            self.flushed(),
        ensures
            match r {
                Ok(o) => pinned(*self, name@, o.0@, o.2@, o.1@),
                Err(_) => forall|h: nat| #[trigger]
                    snap_changing(*self, *self, h) ==> !self.io.reliable() || h > max_height()
                        || unrestorable(*self, name@),
            },
    {
        proof {
            reveal(pinned);
            reveal(unrestorable);
        }
        let entry = match self.snapshot_lookup(name) {
            Ok(Some(e)) => e,
            Ok(None) => return Err(StoreError::Invariant("no such snapshot".to_string())),
            Err(e) => return Err(e),
        };
        let bytes = match self.fetch_object(&entry.root_id) {
            Ok(Some(b)) => b,
            Ok(None) => {
                return Err(StoreError::Invariant("snapshot root object missing".to_string()));
            },
            Err(e) => return Err(e),
        };
        match Root::decode(&bytes) {
            Ok(v) => {
                Ok((entry, v, bytes))
            },
            Err(_) => {
                proof {
                    assert forall|h: nat| #[trigger] snap_changing(
                        *self,
                        *self,
                        h,
                    ) implies unrestorable(*self, name@) by {
                        lemma_clash_free_subset(self.given@, self.seen@);
                        lemma_given(self.objects(), self.given@);
                    }
                }
                Err(StoreError::Superblock("snapshot root decode".to_string()))
            },
        }
    }

    /// Roll back to a snapshot's root. The generation goes on, the snapshot restored
    /// from stays, and the log's counter is never run back.
    #[verifier::rlimit(40)]
    #[verifier::spinoff_prover]
    pub fn restore_snapshot(&mut self, name: &[u8], hooks: &CrashHooks, space: &Space) -> (r: Result<
        (),
        StoreError,
    >)
        requires
            old(self).ready(),
        ensures
            match r {
                Ok(_) => {
                    &&& durable(*final(self))
                    &&& exists|mid: Store<B>, entry: (Seq<u8>, u64)| #[trigger]
                        restored_from(*old(self), mid, name@, entry) && settled(mid, *final(self))
                },
                Err(e) => {
                    ||| snap_turned_down(
                        *old(self),
                        *final(self),
                        unrestorable(*old(self), name@) || some_unlisted(*old(self), name@),
                    )
                    ||| exists|staged: Staged<B>, snap: RootView| #[trigger]
                        stages_restore(*old(self), staged, name@, snap) && commit_failed(
                            *old(self),
                            *final(self),
                            e,
                            *hooks,
                            *space,
                            staged.records@,
                        )
                    ||| exists|mid: Store<B>, entry: (Seq<u8>, u64)| #[trigger]
                        restored_from(*old(self), mid, name@, entry) && barrier_failed(
                            mid,
                            *final(self),
                            e,
                            *hooks,
                            *space,
                        )
                },
            },
    {
        let ghost was = *self;
        if name.len() > 0xffff {
            proof {
                lemma_long_name(was, name@);
            }
            return Err(StoreError::Invariant("no such snapshot".to_string()));
        }
        let (entry, snap, held) = match self.pinned_root(name) {
            Ok(o) => o,
            Err(e) => return Err(e),
        };
        let ghost bytes = held@;
        let mut tx = self.begin_tx();
        let ghost t0 = tx;
        proof {
            lemma_begun(was, t0);
        }
        let out = Store::restore_in_tx(&mut tx, name, &entry, &snap);
        let ghost t2 = tx;
        match out {
            Ok(_) => {},
            Err(e) => {
                let tried = tx.abandon();
                self.seen.absorb(&tried);
                proof {
                    lemma_snap_begun(was, *self, t0, t2);
                    lemma_unlisted(was, *self, t0, t2, name@, entry@, bytes, snap@);
                }
                return Err(e);
            },
        }
        let staged = tx.finish();
        let ghost handed = staged;
        let r = self.commit(staged, hooks, space);
        proof {
            if r is Ok {
                let mid = choose|mid: Store<B>| #[trigger]
                    commit_done(was, mid, handed) && commit_keeps(was, mid) && settled(mid, *self);
                lemma_restored(was, mid, handed, t0, t2, name@, entry@, bytes, snap@);
            } else {
                let e = r->Err_0;
                assert(stages_restore(was, handed, name@, snap@)) by {
                    reveal(rolled);
                    assert(pinned(was, name@, entry@, bytes, snap@));
                }
                if !commit_failed(was, *self, e, *hooks, *space, handed.records@) {
                    let mid = choose|mid: Store<B>| #[trigger]
                        commit_done(was, mid, handed) && commit_keeps(was, mid) && barrier_failed(
                            mid,
                            *self,
                            e,
                            *hooks,
                            *space,
                        );
                    lemma_restored(was, mid, handed, t0, t2, name@, entry@, bytes, snap@);
                }
            }
        }
        r
    }

    /// Put a snapshot's root in place of the working one, with the snapshot restored
    /// from in its tree.
    fn restore_in_tx(tx: &mut Tx<'_, B>, name: &[u8], entry: &SnapshotEntry, snap: &Root) -> (r: Result<
        (),
        StoreError,
    >)
        requires
            name@.len() <= u16::MAX,
        ensures
            final(tx).max_fanout == old(tx).max_fanout,
            crate::index::grown(&old(tx).objects, &final(tx).objects),
            r is Ok ==> rolled(*old(tx), *final(tx), name@, entry@, snap@),
            r is Err ==> not_rolled(*old(tx), *final(tx), snap@),
    {
        let ghost t0 = *tx;
        proof {
            reveal(rolled);
            reveal(not_rolled);
        }
        let current: u64 = tx.root.log_seq;
        let tree = match snapshot::insert(
            snap.snapshot_tree_root,
            name,
            *entry,
            BTREE_ORDER,
            tx.max_fanout,
            &mut tx.objects,
        ) {
            Ok(id) => id,
            Err(e) => {
                return Err(StoreError::index(e));
            },
        };
        let log_seq: u64 = if current > snap.log_seq {
            current
        } else {
            snap.log_seq
        };
        tx.root = Root { snapshot_tree_root: tree, log_seq, ..*snap };
        Ok(())
    }
}

/// The working root is the snapshot's, with the snapshot in its tree.
#[verifier::opaque]
pub open spec fn rolled<B: IoBackend>(
    t0: Tx<B>,
    t2: Tx<B>,
    name: Seq<u8>,
    entry: (Seq<u8>, u64),
    snap: RootView,
) -> bool {
    let p = t0.objects.payloads();
    let f = t0.max_fanout;
    &&& t2.root@ == restored_root(snap, t2.root@.snapshot_tree_root, t0.root@.log_seq)
    &&& forall|h: nat|
        t0.objects.faithful() && clash_free(t2.objects.payloads()) && BTREE_ORDER <= f
            && #[trigger] tree_ok(p, snap.snapshot_tree_root, f, h) ==> crate::tree::lists(
            t2.objects.payloads(),
            t2.root@.snapshot_tree_root,
            BTREE_ORDER,
            f,
            h + 1,
            upsert(listing(p, snap.snapshot_tree_root, f), name, snapshot_bytes(entry)),
        )
}

/// The snapshot's tree could not be added to.
#[verifier::opaque]
pub open spec fn not_rolled<B: IoBackend>(t0: Tx<B>, t2: Tx<B>, snap: RootView) -> bool {
    forall|h: nat|
        t0.objects.faithful() && clash_free(t2.objects.payloads()) && BTREE_ORDER <= t0.max_fanout
            && #[trigger] tree_ok(t0.objects.payloads(), snap.snapshot_tree_root, t0.max_fanout, h)
            ==> t0.objects.may_fail() || h > max_height()
}

proof fn lemma_unlisted<B: IoBackend>(
    a: Store<B>,
    b: Store<B>,
    t0: Tx<B>,
    t2: Tx<B>,
    name: Seq<u8>,
    entry: (Seq<u8>, u64),
    bytes: Seq<u8>,
    snap: RootView,
)
    requires
        not_rolled(t0, t2, snap),
        pinned(a, name, entry, bytes, snap),
        t0.objects.payloads() == a.objects(),
        t0.objects.faithful(),
        t0.objects.may_fail() == !a.io.reliable(),
        t0.max_fanout == a.config.max_fanout,
        clash_free(b.seen@) ==> clash_free(t2.objects.payloads()),
    ensures
        forall|h: nat|
            a.io.reliable() && #[trigger] snap_changing(a, b, h) ==> some_unlisted(a, name),
{
    reveal(not_rolled);
    assert forall|h: nat| a.io.reliable() && #[trigger] snap_changing(a, b, h) implies some_unlisted(
        a,
        name,
    ) by {
        assert(unlisted(a, snap)) by {
            reveal(unlisted);
        }
    }
}

/// A commit publishes the chunk index that the snapshot's root names.
proof fn lemma_restored_chunks<B: IoBackend>(
    a: Store<B>,
    mid: Store<B>,
    p: Set<Seq<u8>>,
    root: Seq<u8>,
)
    requires
        mid.wf(),
        a.objects().subset_of(p),
        p.subset_of(mid.given@),
        mid.given@.subset_of(mid.seen@),
        mid.config == a.config,
        mid.root@.chunk_index_root == root,
    ensures
        forall|h: nat|
            clash_free(mid.seen@) && #[trigger] tree_ok(a.objects(), root, a.config.max_fanout, h)
                ==> mid.chunks_ok(h) && mid.chunks() == listing(
                a.objects(),
                root,
                a.config.max_fanout,
            ),
{
    let f = a.config.max_fanout;
    assert forall|h: nat|
        clash_free(mid.seen@) && #[trigger] tree_ok(a.objects(), root, f, h) implies mid.chunks_ok(h)
        && mid.chunks() == listing(a.objects(), root, f) by {
        lemma_clash_free_subset(mid.given@, mid.seen@);
        lemma_given(mid.objects(), mid.given@);
        lemma_tree_grows(a.objects(), mid.objects(), root, f, h, h);
    }
}

#[verifier::rlimit(60)]
#[verifier::spinoff_prover]
proof fn lemma_restored<B: IoBackend>(
    a: Store<B>,
    mid: Store<B>,
    staged: Staged<B>,
    t0: Tx<B>,
    t2: Tx<B>,
    name: Seq<u8>,
    entry: (Seq<u8>, u64),
    bytes: Seq<u8>,
    snap: RootView,
)
    requires
        commit_done(a, mid, staged),
        commit_keeps(a, mid),
        pinned(a, name, entry, bytes, snap),
        t0.objects.payloads() == a.objects(),
        t0.objects.faithful(),
        t0.max_fanout == a.config.max_fanout,
        t0.root == a.root,
        t0.objects.payloads().subset_of(t2.objects.payloads()),
        t2.max_fanout == a.config.max_fanout,
        rolled(t0, t2, name, entry, snap),
        staged.payloads@ == t2.objects.payloads(),
        staged.root == t2.root,
    ensures
        restored_from(a, mid, name, entry),
{
    reveal(pinned);
    reveal(restored);
    reveal(rolled);
    let f = a.config.max_fanout;
    let p = t2.objects.payloads();
    lemma_snap_landed(a, mid, staged, t2);
    assert forall|h: nat|
        clash_free(mid.seen@) && BTREE_ORDER <= f && #[trigger] tree_ok(
            a.objects(),
            snap.snapshot_tree_root,
            f,
            h,
        ) implies mid.snaps_ok(h + 1) && mid.snaps() == upsert(
        listing(a.objects(), snap.snapshot_tree_root, f),
        name,
        snapshot_bytes(entry),
    ) by {
        let s = upsert(
            listing(a.objects(), snap.snapshot_tree_root, f),
            name,
            snapshot_bytes(entry),
        );
        lemma_listing(p, t2.root@.snapshot_tree_root, t2.max_fanout, h + 1, s);
        assert(tree_ok(p, t2.root@.snapshot_tree_root, t2.max_fanout, h + 1));
    }
    assert forall|h: nat|
        clash_free(mid.seen@) && #[trigger] fs_ok(a.objects(), snap.inode_index_root, f, h) implies mid.whole(
        h,
    ) && mid.ns() == ns(a.objects(), snap.inode_index_root, f) by {
        lemma_fs_grows(a.objects(), p, snap.inode_index_root, f, h, h);
        assert(t2.root.inode_index_root@ == snap.inode_index_root);
        assert(t2.whole(h));
    }
    lemma_restored_chunks(a, mid, p, snap.chunk_index_root);
    assert(restored(a, mid, name, entry, bytes, snap));
}

} // verus!
