//! Operations that build on others: creation under a fresh number, extended
//! attributes, file data and snapshots.

use vstd::prelude::*;

use crate::attrs::{keys_of, update_ok, xattr_cut, xattr_put, AttrUpdate, XATTR_SIZE_MAX};
use crate::commit::{commit_done, commit_failed, commit_keeps, only_data, Space};
use crate::descriptor::{steady, Descriptor};
use crate::error::StoreError;
use crate::extent_tree::{self, at_or_below, extent_key_of};
use crate::extents::{chunks_put, data_edited, data_editing, extents_put, find_file, find_trim, has_file,
    item_updated, mask_for, masks, opt_update, region_refused, region_written, trim_chunks, trim_due,
    truncate_refused, truncated, update_chunks, update_refused, updates_fit, ExtentUpdate};
use crate::fs::{fs_ok, inode_at, listing, ns, rootless, tree_ok, Listing, Namespace, BTREE_ORDER};
use crate::index::{grown, key_views, opt_bytes, ObjectProvider};
use crate::index_edit::lemma_clash_free_subset;
use crate::inode::{Inode, Timespec};
use crate::io::IoBackend;
use crate::journal::{attempt, barrier_failed, checkpoint_failed, commit_publishes, durable, idle,
    lemma_begun, same_but_seen, settled, accounted};
use crate::namespace::{create_refused, created, entry_fits, entry_inode, entry_type, time_ok,
    valid_name, valid_xattr_name, NewEntry};
use crate::ops::{caught_up, changing, failed, landed, lands, lemma_landed, lemma_stages,
    lemma_turned_down, published, stages, staging};
use crate::paths::tops;
use crate::sorted::{has_key, lookup};
use crate::store::Store;
use crate::transaction::{covers_staged, CrashHooks, Staged, Tx};
use crate::tree::{clash_free, lists, max_height};
use crate::views::{lemma_seeing, numbered, seeing, troubled};

verus! {

/// `ino` is the next number after the greatest in use.
pub open spec fn next_free<B: IoBackend>(a: Store<B>, ino: u64) -> bool {
    forall|h: nat| #[trigger]
        seeing(a, h) && numbered(a) ==> ino > 0 && tops(a.ns(), (ino - 1) as u64)
}

impl<B: IoBackend> Store<B> {
    /// Create an entry: a file, a directory, a symbolic link or a device. Its inode
    /// gets the next number after the greatest in use, which is given back.
    #[verifier::rlimit(40)]
    pub fn create_entry(
        &mut self,
        parent: u64,
        name: &[u8],
        entry: &NewEntry,
        now: Timespec,
        hooks: &CrashHooks,
        space: &Space,
    ) -> (r: Result<u64, StoreError>)
        requires
            old(self).ready(),
            time_ok(now),
            entry_fits(*entry),
        ensures
            !valid_name(name@) ==> r is Err,
            match r {
                Ok(ino) => {
                    &&& lands(
                        *old(self),
                        *final(self),
                        2,
                        created(
                            old(self).ns(),
                            parent,
                            name@,
                            ino,
                            rootless(entry_inode(*entry, now)),
                            entry_type(entry.kind),
                            now,
                        ),
                        !create_refused(old(self).ns(), parent, name@),
                    )
                    &&& next_free(*old(self), ino)
                },
                Err(e) => {
                    ||| exists|ino: u64| #[trigger]
                        next_free(*old(self), ino) && failed(
                    *old(self),
                    *final(self),
                    e,
                    *hooks,
                    *space,
                    1,
                    create_refused(old(self).ns(), parent, name@),
                    2,
                    created(
                            old(self).ns(),
                            parent,
                            name@,
                            ino,
                            rootless(entry_inode(*entry, now)),
                            entry_type(entry.kind),
                            now,
                        ),
                )
                    ||| *final(self) == *old(self) && (!valid_name(name@) || forall|h: nat|
                        #[trigger]
                        seeing(*old(self), h) && numbered(*old(self)) ==> troubled(
                            *old(self),
                            h,
                        ) || tops(old(self).ns(), u64::MAX))
                },
            },
    {
        if !Self::validate_name(name) {
            return Err(StoreError::Config("invalid entry name".to_string()));
        }
        let ino = match self.alloc_ino() {
            Ok(ino) => ino,
            Err(e) => return Err(e),
        };
        assert(next_free(*old(self), ino));
        match self.create_entry_as(parent, name, entry, ino, now, hooks, space) {
            Ok(_) => Ok(ino),
            Err(e) => Err(e),
        }
    }

    /// Set an extended attribute, in place of one of that name. What is pending is
    /// merged first.
    #[verifier::rlimit(40)]
    pub fn set_xattr(
        &mut self,
        ino: u64,
        name: &[u8],
        value: &[u8],
        now: Timespec,
        hooks: &CrashHooks,
        space: &Space,
    ) -> (r: Result<(), StoreError>)
        requires
            old(self).ready(),
            time_ok(now),
        ensures
            !valid_xattr_name(name@) || value@.len() > XATTR_SIZE_MAX ==> r is Err,
            match r {
                Ok(_) => exists|pre: Store<B>| #[trigger]
                    caught_up(*old(self), pre) && lands(
                        pre,
                        *final(self),
                        2,
                        xattr_put(pre.ns(), ino, name@, value@, now),
                        pre.ns().contains_key(ino),
                    ),
                Err(e) => {
                    ||| !idle(*old(self)) && checkpoint_failed(
                        *old(self),
                        *final(self),
                        e,
                        *hooks,
                        *space,
                    )
                    ||| exists|pre: Store<B>| #[trigger]
                        caught_up(*old(self), pre) && failed(
                            pre,
                            *final(self),
                            e,
                            *hooks,
                            *space,
                            1,
                            !pre.ns().contains_key(ino) || !valid_xattr_name(name@) || value@.len()
                                > XATTR_SIZE_MAX,
                            2,
                            xattr_put(pre.ns(), ino, name@, value@, now),
                        )
                },
            },
    {
        let ghost start = *self;
        match self.ensure_epoch_flushed(hooks, space) {
            Ok(_) => {},
            Err(e) => {
                return Err(e);
            },
        }
        let ghost was = *self;
        let mut tx = self.begin_tx();
        let ghost t0 = tx;
        proof {
            assert(caught_up(start, was));
            lemma_begun(was, t0);
        }
        let out = Store::set_xattr_in_tx(&mut tx, ino, name, value, now);
        let ghost t1 = tx;
        let v = match out {
            Ok(v) => v,
            Err(e) => {
                let tried = tx.abandon();
                self.seen.absorb(&tried);
                proof {
                    lemma_turned_down(was, *self, t0, t1);
                }
                return Err(e);
            },
        };
        let staged = tx.finish();
        let ghost handed = staged;
        let r = self.commit(staged, hooks, space);
        proof {
            if r is Ok {
                let mid = choose|mid: Store<B>| #[trigger]
                    commit_done(was, mid, handed) && commit_keeps(was, mid) && settled(mid, *self);
                lemma_landed(was, mid, handed, t0, t1);
                assert(landed(was, mid, *self, 2, xattr_put(was.ns(), ino, name@, value@, now), was.ns().contains_key(ino)));
            } else {
                let e = r->Err_0;
                lemma_stages(was, handed, t0, t1);
                assert(stages(was, handed, 2, xattr_put(was.ns(), ino, name@, value@, now)));
                if !commit_failed(was, *self, e, *hooks, *space, handed.records@) {
                    let mid = choose|mid: Store<B>| #[trigger]
                        commit_done(was, mid, handed) && commit_keeps(was, mid) && barrier_failed(
                            mid,
                            *self,
                            e,
                            *hooks,
                            *space,
                        );
                    lemma_landed(was, mid, handed, t0, t1);
                    assert(published(was, mid, 2, xattr_put(was.ns(), ino, name@, value@, now)));
                }
            }
        }
        match r {
            Ok(_) => Ok(v),
            Err(e) => Err(e),
        }
    }

    /// Remove an extended attribute; says whether it was there. What is pending is
    /// merged first.
    #[verifier::rlimit(40)]
    pub fn remove_xattr(
        &mut self,
        ino: u64,
        name: &[u8],
        now: Timespec,
        hooks: &CrashHooks,
        space: &Space,
    ) -> (r: Result<bool, StoreError>)
        requires
            old(self).ready(),
            time_ok(now),
        ensures
            match r {
                Ok(present) => exists|pre: Store<B>| #[trigger]
                    caught_up(*old(self), pre) && if present {
                        lands(
                            pre,
                            *final(self),
                            1,
                            xattr_cut(pre.ns(), ino, name@, now),
                            pre.ns().contains_key(ino) && has_key(pre.ns()[ino].xattrs, name@),
                        )
                    } else {
                        same_but_seen(pre, *final(self)) && forall|h: nat| #[trigger]
                            changing(pre, *final(self), h) ==> pre.ns().contains_key(ino)
                                && !has_key(pre.ns()[ino].xattrs, name@)
                    },
                Err(e) => {
                    ||| !idle(*old(self)) && checkpoint_failed(
                        *old(self),
                        *final(self),
                        e,
                        *hooks,
                        *space,
                    )
                    ||| exists|pre: Store<B>| #[trigger]
                        caught_up(*old(self), pre) && failed(
                            pre,
                            *final(self),
                            e,
                            *hooks,
                            *space,
                            0,
                            !pre.ns().contains_key(ino),
                            1,
                            xattr_cut(pre.ns(), ino, name@, now),
                        )
                },
            },
    {
        let ghost start = *self;
        match self.ensure_epoch_flushed(hooks, space) {
            Ok(_) => {},
            Err(e) => {
                return Err(e);
            },
        }
        let ghost was = *self;
        let mut tx = self.begin_tx();
        let ghost t0 = tx;
        proof {
            assert(caught_up(start, was));
            lemma_begun(was, t0);
        }
        let out = Store::remove_xattr_in_tx(&mut tx, ino, name, now);
        let ghost t1 = tx;
        match out {
            Ok(true) => {},
            Ok(false) => {
                let tried = tx.abandon();
                self.seen.absorb(&tried);
                proof {
                    lemma_turned_down(was, *self, t0, t1);
                }
                return Ok(false);
            },
            Err(e) => {
                let tried = tx.abandon();
                self.seen.absorb(&tried);
                proof {
                    lemma_turned_down(was, *self, t0, t1);
                }
                return Err(e);
            },
        }
        let staged = tx.finish();
        let ghost handed = staged;
        let r = self.commit(staged, hooks, space);
        proof {
            if r is Ok {
                let mid = choose|mid: Store<B>| #[trigger]
                    commit_done(was, mid, handed) && commit_keeps(was, mid) && settled(mid, *self);
                lemma_landed(was, mid, handed, t0, t1);
                assert(landed(
                    was,
                    mid,
                    *self,
                    1,
                    xattr_cut(was.ns(), ino, name@, now),
                    was.ns().contains_key(ino) && has_key(was.ns()[ino].xattrs, name@),
                ));
            } else {
                let e = r->Err_0;
                lemma_stages(was, handed, t0, t1);
                assert(stages(was, handed, 1, xattr_cut(was.ns(), ino, name@, now)));
                if !commit_failed(was, *self, e, *hooks, *space, handed.records@) {
                    let mid = choose|mid: Store<B>| #[trigger]
                        commit_done(was, mid, handed) && commit_keeps(was, mid) && barrier_failed(
                            mid,
                            *self,
                            e,
                            *hooks,
                            *space,
                        );
                    lemma_landed(was, mid, handed, t0, t1);
                    assert(published(was, mid, 1, xattr_cut(was.ns(), ino, name@, now)));
                }
            }
        }
        match r {
            Ok(_) => Ok(true),
            Err(e) => Err(e),
        }
    }

    /// The value of an extended attribute, where it is set. What is pending is merged
    /// first.
    pub fn get_xattr(&mut self, ino: u64, name: &[u8], space: &Space) -> (r: Result<
        Option<Vec<u8>>,
        StoreError,
    >)
        requires
            old(self).ready(),
        ensures
            match r {
                Ok(v) => caught_up(*old(self), *final(self)) && forall|h: nat| #[trigger]
                    seeing(*final(self), h) ==> final(self).ns().contains_key(ino) && opt_bytes(v)
                        == lookup(final(self).ns()[ino].xattrs, name@),
                Err(e) => {
                    ||| !idle(*old(self)) && checkpoint_failed(
                        *old(self),
                        *final(self),
                        e,
                        (CrashHooks { armed: None }),
                        *space,
                    )
                    ||| caught_up(*old(self), *final(self)) && forall|h: nat| #[trigger]
                        seeing(*final(self), h) ==> troubled(*final(self), h)
                            || !final(self).ns().contains_key(ino)
                },
            },
    {
        match self.ensure_epoch_flushed(&CrashHooks::none(), space) {
            Ok(_) => {},
            Err(e) => {
                return Err(e);
            },
        }
        let tx = self.begin_tx();
        proof {
            lemma_begun(*self, tx);
            lemma_seeing(*self, tx);
        }
        Store::get_xattr_in_tx(&tx, ino, name)
    }

    /// The names of an inode's extended attributes, in order. What is pending is merged
    /// first.
    pub fn list_xattr(&mut self, ino: u64, space: &Space) -> (r: Result<Vec<Vec<u8>>, StoreError>)
        requires
            old(self).ready(),
        ensures
            match r {
                Ok(v) => caught_up(*old(self), *final(self)) && forall|h: nat| #[trigger]
                    seeing(*final(self), h) && (final(self).ns().contains_key(ino) ==> final(self).ns()[ino].xattrs.len() <= usize::MAX) ==> final(self).ns().contains_key(ino)
                        && key_views(v@) == keys_of(final(self).ns()[ino].xattrs),
                Err(e) => {
                    ||| !idle(*old(self)) && checkpoint_failed(
                        *old(self),
                        *final(self),
                        e,
                        (CrashHooks { armed: None }),
                        *space,
                    )
                    ||| caught_up(*old(self), *final(self)) && forall|h: nat| #[trigger]
                        seeing(*final(self), h) && (final(self).ns().contains_key(ino)
                            ==> final(self).ns()[ino].xattrs.len() <= usize::MAX) ==> troubled(
                            *final(self),
                            h,
                        ) || !final(self).ns().contains_key(ino)
                },
            },
    {
        match self.ensure_epoch_flushed(&CrashHooks::none(), space) {
            Ok(_) => {},
            Err(e) => {
                return Err(e);
            },
        }
        let tx = self.begin_tx();
        proof {
            lemma_begun(*self, tx);
            lemma_seeing(*self, tx);
        }
        Store::list_xattr_in_tx(&tx, ino)
    }
}

// ---------------------------------------------------------------------------
// File data
// ---------------------------------------------------------------------------

/// What an operation on file data starts from: as any other, and a chunk index that
/// can be read.
pub open spec fn data_changing<B: IoBackend>(a: Store<B>, b: Store<B>, h: nat) -> bool {
    changing(a, b, h) && a.chunks_ok(h)
}

/// The store with further feature bits in use.
pub open spec fn with_features<B: IoBackend>(a: Store<B>, mask: u64) -> Store<B> {
    Store { features_in_use: a.features_in_use | mask, ..a }
}

/// The commit published the namespace `n` and the chunk index `c`, and `mask` is in use.
pub open spec fn data_landed<B: IoBackend>(
    a: Store<B>,
    mid: Store<B>,
    mask: u64,
    more: nat,
    room: bool,
    n: Namespace,
    c: Listing,
) -> bool {
    &&& commit_keeps(with_features(a, mask), mid)
    &&& mid.generation == a.generation + 1
    &&& mid.ready()
    &&& accounted(a, mid)
    &&& only_data(a, mid)
    &&& forall|h: nat| #[trigger]
        data_changing(a, mid, h) && room ==> {
            &&& mid.whole(h + more)
            &&& mid.ns() == n
            &&& mid.chunks_ok(h + more)
            &&& mid.chunks() == c
        }
}

/// Nothing was changed: the backend failed, the trees may be too tall, or the operation
/// was refused.
pub open spec fn data_turned_down<B: IoBackend>(
    a: Store<B>,
    b: Store<B>,
    least: nat,
    room: bool,
    refused: bool,
) -> bool {
    &&& same_but_seen(a, b)
    &&& {
        ||| !a.io.reliable()
        ||| forall|h: nat| #[trigger]
            data_changing(a, b, h) && room ==> h + least > max_height() || refused
    }
}

/// What a transaction on file data starts from, where it comes to hold the payloads `p`.
pub open spec fn data_staging<B: IoBackend>(a: Store<B>, p: Set<Seq<u8>>, h: nat) -> bool {
    staging(a, p, h) && a.chunks_ok(h)
}

/// A finished transaction holds the namespace `n` and the chunk index `c`.
pub open spec fn data_stages<B: IoBackend>(
    a: Store<B>,
    staged: Staged<B>,
    more: nat,
    room: bool,
    n: Namespace,
    c: Listing,
) -> bool {
    let f = a.config.max_fanout;
    let p = staged.payloads@;
    &&& covers_staged(a.objects(), staged.records@, p)
    &&& forall|h: nat| #[trigger]
        data_staging(a, p, h) && room ==> {
            &&& fs_ok(p, staged.root@.inode_index_root, f, h + more)
            &&& ns(p, staged.root@.inode_index_root, f) == n
            &&& tree_ok(p, staged.root@.chunk_index_root, f, h + more)
            &&& listing(p, staged.root@.chunk_index_root, f) == c
        }
}

/// Why nothing was committed: the operation was turned down, or the commit of its
/// transaction failed; the feature bits that it needs are then in use.
pub open spec fn data_uncommitted<B: IoBackend>(
    a: Store<B>,
    b: Store<B>,
    e: StoreError,
    hooks: CrashHooks,
    space: Space,
    least: nat,
    room: bool,
    refused: bool,
    more: nat,
    n: Namespace,
    c: Listing,
) -> bool {
    ||| data_turned_down(a, b, least, room, refused)
    ||| exists|staged: Staged<B>, mask: u64| #[trigger]
        data_stages(with_features(a, mask), staged, more, room, n, c) && commit_failed(
            with_features(a, mask),
            b,
            e,
            hooks,
            space,
            staged.records@,
        )
}

/// Why the operation failed: nothing was committed, or what was could not be made
/// durable.
pub open spec fn data_failed<B: IoBackend>(
    a: Store<B>,
    b: Store<B>,
    e: StoreError,
    hooks: CrashHooks,
    space: Space,
    least: nat,
    room: bool,
    refused: bool,
    more: nat,
    n: Namespace,
    c: Listing,
) -> bool {
    ||| data_uncommitted(a, b, e, hooks, space, least, room, refused, more, n, c)
    ||| exists|mid: Store<B>, mask: u64| #[trigger]
        data_landed(a, mid, mask, more, room, n, c) && barrier_failed(mid, b, e, hooks, space)
}

proof fn lemma_data_stages<B: IoBackend>(a: Store<B>, staged: Staged<B>, t0: Tx<B>, t1: Tx<B>)
    requires
        t0.objects.faithful(),
        t0.max_fanout == a.config.max_fanout,
        forall|h: nat| #[trigger] t0.whole(h) == a.whole(h),
        forall|h: nat| #[trigger] t0.chunks_ok(h) == a.chunks_ok(h),
        t1.max_fanout == t0.max_fanout,
        staged.payloads@ == t1.objects.payloads(),
        staged.root == t1.root,
    ensures
        forall|h: nat| #[trigger] data_staging(a, staged.payloads@, h) ==> data_editing(t0, t1, h),
        forall|k: nat| #[trigger]
            t1.whole(k) == fs_ok(
                staged.payloads@,
                staged.root@.inode_index_root,
                a.config.max_fanout,
                k,
            ),
        t1.ns() == ns(staged.payloads@, staged.root@.inode_index_root, a.config.max_fanout),
        forall|k: nat| #[trigger]
            t1.chunks_ok(k) == tree_ok(
                staged.payloads@,
                staged.root@.chunk_index_root,
                a.config.max_fanout,
                k,
            ),
        t1.chunks() == listing(
            staged.payloads@,
            staged.root@.chunk_index_root,
            a.config.max_fanout,
        ),
{
    lemma_stages(a, staged, t0, t1);
    assert forall|h: nat| #[trigger] data_staging(a, staged.payloads@, h) implies data_editing(
        t0,
        t1,
        h,
    ) by {
        assert(staging(a, staged.payloads@, h));
        assert(t0.chunks_ok(h) == a.chunks_ok(h));
    }
}

/// Feature bits leave what a store holds as it is.
proof fn lemma_with_features<B: IoBackend>(a: Store<B>, mask: u64)
    ensures
        with_features(a, mask).disk() == a.disk(),
        with_features(a, mask).objects() == a.objects(),
        a.ready() ==> with_features(a, mask).ready(),
        with_features(a, mask).ns() == a.ns(),
        with_features(a, mask).chunks() == a.chunks(),
        forall|h: nat| #[trigger] with_features(a, mask).whole(h) == a.whole(h),
        forall|h: nat| #[trigger] with_features(a, mask).chunks_ok(h) == a.chunks_ok(h),
{
}

proof fn lemma_data_down<B: IoBackend>(a: Store<B>, b: Store<B>, t0: Tx<B>, t1: Tx<B>)
    requires
        a.ready(),
        t0.objects.faithful(),
        t0.max_fanout == a.config.max_fanout,
        forall|h: nat| #[trigger] t0.whole(h) == a.whole(h),
        forall|h: nat| #[trigger] t0.chunks_ok(h) == a.chunks_ok(h),
        attempt(a, t0),
        grown(&t0.objects, &t1.objects),
        t1.max_fanout == t0.max_fanout,
        b == (Store { seen: b.seen, ..a }),
        b.seen@ == a.seen@.union(t1.objects.payloads()),
    ensures
        same_but_seen(a, b),
        forall|h: nat| #[trigger] data_changing(a, b, h) ==> data_editing(t0, t1, h),
{
    lemma_turned_down(a, b, t0, t1);
    assert forall|h: nat| #[trigger] data_changing(a, b, h) implies data_editing(t0, t1, h) by {
        assert(changing(a, b, h));
        assert(t0.chunks_ok(h) == a.chunks_ok(h));
    }
}

proof fn lemma_data_landed<B: IoBackend>(
    a: Store<B>,
    mid: Store<B>,
    staged: Staged<B>,
    t0: Tx<B>,
    t1: Tx<B>,
)
    requires
        commit_done(a, mid, staged),
        commit_keeps(a, mid),
        t0.objects.faithful(),
        t0.max_fanout == a.config.max_fanout,
        forall|h: nat| #[trigger] t0.whole(h) == a.whole(h),
        forall|h: nat| #[trigger] t0.chunks_ok(h) == a.chunks_ok(h),
        data_edited(t0, t1),
        staged.payloads@ == t1.objects.payloads(),
        staged.root == t1.root,
    ensures
        forall|h: nat| #[trigger] data_changing(a, mid, h) ==> data_editing(t0, t1, h),
        forall|k: nat|
            clash_free(mid.seen@) && #[trigger] t1.whole(k) ==> mid.whole(k) && mid.ns() == t1.ns(),
        forall|k: nat|
            clash_free(mid.seen@) && #[trigger] t1.chunks_ok(k) ==> mid.chunks_ok(k)
                && mid.chunks() == t1.chunks(),
{
    assert forall|h: nat| #[trigger] data_changing(a, mid, h) implies data_editing(t0, t1, h) by {
        lemma_clash_free_subset(mid.given@, mid.seen@);
        commit_publishes(a, mid, staged, t1, h);
        assert(t0.whole(h) == a.whole(h));
        assert(t0.chunks_ok(h) == a.chunks_ok(h));
    }
    assert forall|k: nat| clash_free(mid.seen@) && #[trigger] t1.whole(k) implies mid.whole(k)
        && mid.ns() == t1.ns() by {
        lemma_clash_free_subset(mid.given@, mid.seen@);
        commit_publishes(a, mid, staged, t1, k);
    }
    assert forall|k: nat| clash_free(mid.seen@) && #[trigger] t1.chunks_ok(k) implies mid.chunks_ok(
        k,
    ) && mid.chunks() == t1.chunks() by {
        lemma_clash_free_subset(mid.given@, mid.seen@);
        commit_publishes(a, mid, staged, t1, k);
    }
}

/// A tree of few levels is one of at most more.
proof fn lemma_chunks_taller<B: IoBackend>(t: Tx<B>, h: nat, k: nat)
    requires
        clash_free(t.objects.payloads()),
        t.chunks_ok(h),
        h <= k,
    ensures
        t.chunks_ok(k),
{
    crate::fs::lemma_tree_grows(
        t.objects.payloads(),
        t.objects.payloads(),
        t.root@.chunk_index_root,
        t.max_fanout,
        h,
        k,
    );
}

/// A file's extents after the updates can be counted.
pub open spec fn extents_room<B: IoBackend>(
    a: Store<B>,
    ino: u64,
    updates: Seq<ExtentUpdate>,
    now: Timespec,
) -> bool {
    a.ns().contains_key(ino) ==> extents_put(a.ns()[ino], updates, now).entries.len()
        <= usize::MAX
}

/// A file's extents can be counted.
pub open spec fn entries_room<B: IoBackend>(a: Store<B>, ino: u64) -> bool {
    a.ns().contains_key(ino) ==> a.ns()[ino].entries.len() <= usize::MAX
}

/// A commit of the staged namespace and chunk index published them.
proof fn lemma_data_published<B: IoBackend>(
    start: Store<B>,
    was: Store<B>,
    mid: Store<B>,
    staged: Staged<B>,
    t0: Tx<B>,
    t1: Tx<B>,
    mask: u64,
    more: nat,
    room: bool,
    n: Namespace,
    c: Listing,
)
    requires
        start.ready(),
        was == with_features(start, mask),
        commit_done(was, mid, staged),
        commit_keeps(was, mid),
        t0.objects.faithful(),
        t0.max_fanout == was.config.max_fanout,
        forall|h: nat| #[trigger] t0.whole(h) == was.whole(h),
        forall|h: nat| #[trigger] t0.chunks_ok(h) == was.chunks_ok(h),
        t0.root == start.root,
        data_edited(t0, t1),
        staged.payloads@ == t1.objects.payloads(),
        staged.root == t1.root,
        data_stages(was, staged, more, room, n, c),
    ensures
        data_landed(start, mid, mask, more, room, n, c),
        forall|h: nat| #[trigger] data_changing(start, mid, h) ==> data_editing(t0, t1, h),
{
    lemma_with_features(start, mask);
    lemma_data_landed(was, mid, staged, t0, t1);
    lemma_data_stages(was, staged, t0, t1);
    assert forall|h: nat| #[trigger] data_changing(start, mid, h) implies data_editing(t0, t1, h)
        && (room ==> mid.whole(h + more) && mid.ns() == n && mid.chunks_ok(h + more)
        && mid.chunks() == c) by {
        assert(was.whole(h) == start.whole(h) && was.chunks_ok(h) == start.chunks_ok(h));
        assert(data_changing(was, mid, h));
        assert(data_editing(t0, t1, h));
        assert(data_staging(was, staged.payloads@, h));
        if room {
            assert(t1.whole(h + more));
            assert(t1.chunks_ok(h + more));
        }
    }
}

/// A commit publishes the stored inodes.
proof fn lemma_inode_published<B: IoBackend>(
    a: Store<B>,
    mid: Store<B>,
    staged: Staged<B>,
    t0: Tx<B>,
    t1: Tx<B>,
    ino: u64,
)
    requires
        commit_done(a, mid, staged),
        commit_keeps(a, mid),
        t0.max_fanout == a.config.max_fanout,
        data_edited(t0, t1),
        staged.payloads@ == t1.objects.payloads(),
        staged.root == t1.root,
    ensures
        forall|k: nat|
            clash_free(mid.seen@) && #[trigger] t1.whole(k) ==> inode_at(
                mid.objects(),
                mid.root@.inode_index_root,
                mid.config.max_fanout,
                ino,
            ) == t1.inode_of(ino),
{
    assert forall|k: nat| clash_free(mid.seen@) && #[trigger] t1.whole(k) implies inode_at(
        mid.objects(),
        mid.root@.inode_index_root,
        mid.config.max_fanout,
        ino,
    ) == t1.inode_of(ino) by {
        let p = t1.objects.payloads();
        let q = mid.objects();
        lemma_clash_free_subset(mid.given@, mid.seen@);
        crate::store::lemma_given(q, mid.given@);
        lemma_clash_free_subset(p, q);
        crate::fs::lemma_fs_grows(p, q, t1.root@.inode_index_root, t1.max_fanout, k, k);
    }
}

/// The attributes are replaced, and that is durable. The inode that is stored is the one
/// given back.
pub open spec fn attrs_landed<B: IoBackend, F: Fn(&[u8]) -> Option<Descriptor>>(
    a: Store<B>,
    b: Store<B>,
    ino: u64,
    u: AttrUpdate,
    trim: Option<ExtentUpdate>,
    decode: F,
    now: Timespec,
    v: Inode,
) -> bool {
    let it = a.ns()[ino];
    &&& durable(b)
    &&& exists|mid: Store<B>, mask: u64| #[trigger]
        data_landed(
            a,
            mid,
            mask,
            3,
            entries_room(a, ino),
            a.ns().insert(ino, item_updated(it, u, trim, now)),
            update_chunks(a.chunks(), it, u, trim),
        ) && settled(mid, b) && forall|h: nat| #[trigger]
            data_changing(a, mid, h) && entries_room(a, ino) ==> !update_refused(a.ns(), ino, u, decode, trim)
                && rootless(v@) == item_updated(it, u, trim, now).inode && inode_at(
                mid.objects(),
                mid.root@.inode_index_root,
                mid.config.max_fanout,
                ino,
            ) == Some(v@)
}

/// Why the attributes were not replaced.
pub open spec fn attrs_failed<B: IoBackend, F: Fn(&[u8]) -> Option<Descriptor>>(
    a: Store<B>,
    b: Store<B>,
    e: StoreError,
    hooks: CrashHooks,
    space: Space,
    ino: u64,
    u: AttrUpdate,
    trim: Option<ExtentUpdate>,
    decode: F,
    now: Timespec,
) -> bool {
    let it = a.ns()[ino];
    data_failed(
        a,
        b,
        e,
        hooks,
        space,
        2,
        entries_room(a, ino),
        update_refused(a.ns(), ino, u, decode, trim),
        3,
        a.ns().insert(ino, item_updated(it, u, trim, now)),
        update_chunks(a.chunks(), it, u, trim),
    )
}

impl<B: IoBackend> Store<B> {
    /// What a truncation of a file to `new_size` has to shorten: where the extent starts
    /// that reaches past it, and how much of that stays.
    pub fn trim_due<F: Fn(&[u8]) -> Option<Descriptor>>(
        &self,
        ino: u64,
        new_size: u64,
        decode: &F,
    ) -> (r: Result<Option<(u64, u64)>, StoreError>)
        requires
            self.ready(),
            steady(*decode),
        ensures
            forall|h: nat| #[trigger]
                seeing(*self, h) && BTREE_ORDER <= self.config.max_fanout ==> match r {
                    Ok(o) => has_file(self.ns(), ino) && trim_due(
                        self.ns()[ino].entries,
                        new_size,
                        *decode,
                    ) == Some(o),
                    Err(_) => troubled(*self, h) || !has_file(self.ns(), ino) || trim_due(
                        self.ns()[ino].entries,
                        new_size,
                        *decode,
                    ) is None,
                },
    {
        let tx = self.begin_tx();
        proof {
            lemma_begun(*self, tx);
            lemma_seeing(*self, tx);
        }
        let (_, root) = match find_file(&tx, ino) {
            Ok(v) => v,
            Err(e) => return Err(e),
        };
        let out = find_trim(&tx, root, new_size, decode);
        proof {
            assert forall|h: nat| #[trigger] seeing(*self, h) && BTREE_ORDER
                <= self.config.max_fanout implies crate::extents::file_editing(tx, tx, root@, h) by {
                assert(tx.reads(h));
            }
        }
        out
    }

    /// The descriptor of the extent that covers `offset` of a file: of the last one that
    /// starts at or before it; nothing where there is none.
    pub fn extent_descriptor(&self, ino: u64, offset: u64) -> (r: Result<
        Option<Vec<u8>>,
        StoreError,
    >)
        requires
            self.ready(),
        ensures
            forall|h: nat| #[trigger]
                seeing(*self, h) ==> match r {
                    Ok(v) => has_file(self.ns(), ino) && opt_bytes(v) == match at_or_below(
                        self.ns()[ino].entries,
                        extent_key_of(offset),
                    ) {
                        Some(e) => Some(e.1),
                        None => None,
                    },
                    Err(_) => troubled(*self, h) || !has_file(self.ns(), ino),
                },
    {
        let tx = self.begin_tx();
        proof {
            lemma_begun(*self, tx);
            lemma_seeing(*self, tx);
        }
        let (inode, root) = match find_file(&tx, ino) {
            Ok(v) => v,
            Err(e) => return Err(e),
        };
        let found = extent_tree::covering(root, offset, BTREE_ORDER, tx.max_fanout, &tx.objects);
        proof {
            let p = tx.objects.payloads();
            let s = listing(p, root@, tx.max_fanout);
            let k = extent_key_of(offset);
            assert forall|h: nat| #[trigger] seeing(*self, h) implies (match found {
                Ok(None) => at_or_below(s, k) is None,
                Ok(Some(e)) => at_or_below(s, k) == Some((extent_key_of(e.0), e.1@)),
                Err(_) => troubled(*self, h),
            }) && s == self.ns()[ino].entries by {
                assert(tx.reads(h));
                crate::fs::lemma_tree_sorted(p, root@, tx.max_fanout, h);
                assert(lists(p, root@, BTREE_ORDER, tx.max_fanout, h, s));
                crate::sorted::lemma_rank(s, k);
            }
        }
        match found {
            Ok(Some((_, bytes))) => Ok(Some(bytes)),
            Ok(None) => Ok(None),
            Err(e) => Err(StoreError::index(e)),
        }
    }

    /// Put extents into a file, and set its size where one is given: committed, not yet
    /// durable. Gives the feature bits that the extents need, which are then in use.
    #[verifier::rlimit(80)]
    #[verifier::spinoff_prover]
    pub fn commit_file_extents_deferred(
        &mut self,
        ino: u64,
        updates: &Vec<ExtentUpdate>,
        new_size: Option<u64>,
        now: Timespec,
        hooks: &CrashHooks,
        space: &Space,
    ) -> (r: Result<u64, StoreError>)
        requires
            old(self).ready(),
            time_ok(now),
            updates_fit(updates@),
        ensures
            match r {
                Ok(mask) => {
                    &&& final(self).ready()
                    &&& data_landed(
                        *old(self),
                        *final(self),
                        mask,
                        2 * updates@.len() + 1,
                        extents_room(*old(self), ino, updates@, now),
                        region_written(old(self).ns(), ino, updates@, new_size, now),
                        chunks_put(old(self).chunks(), updates@),
                    )
                    &&& forall|h: nat| #[trigger]
                        data_changing(*old(self), *final(self), h) && extents_room(
                            *old(self),
                            ino,
                            updates@,
                            now,
                        ) ==> mask == masks(updates@) && !region_refused(
                            old(self).ns(),
                            ino,
                            updates@,
                            new_size,
                        )
                },
                Err(e) => data_uncommitted(
                    *old(self),
                    *final(self),
                    e,
                    *hooks,
                    *space,
                    2 * updates@.len(),
                    extents_room(*old(self), ino, updates@, now),
                    region_refused(old(self).ns(), ino, updates@, new_size),
                    2 * updates@.len() + 1,
                    region_written(old(self).ns(), ino, updates@, new_size, now),
                    chunks_put(old(self).chunks(), updates@),
                ),
            },
    {
        let ghost start = *self;
        let mut tx = self.begin_tx();
        let ghost t0 = tx;
        proof {
            lemma_begun(start, t0);
        }
        let out = Store::file_extents_in_tx(&mut tx, ino, updates, new_size, now);
        let ghost t1 = tx;
        let mask: u64 = match out {
            Ok(v) => v,
            Err(e) => {
                let tried = tx.abandon();
                self.seen.absorb(&tried);
                proof {
                    lemma_data_down(start, *self, t0, t1);
                }
                return Err(e);
            },
        };
        let staged = tx.finish();
        let ghost handed = staged;
        self.features_in_use = self.features_in_use | mask;
        let ghost was = *self;
        proof {
            lemma_with_features(start, mask);
            lemma_data_stages(was, handed, t0, t1);
            let more = 2 * updates@.len();
            assert forall|h: nat|
                clash_free(t1.objects.payloads()) && #[trigger] t1.chunks_ok(
                    h + more,
                ) implies t1.chunks_ok(h + (more + 1)) by {
                lemma_chunks_taller(t1, h + more, h + (more + 1));
            }
            assert(data_stages(
                was,
                handed,
                more + 1,
                extents_room(start, ino, updates@, now),
                region_written(start.ns(), ino, updates@, new_size, now),
                chunks_put(start.chunks(), updates@),
            ));
        }
        match self.commit_deferred(staged, hooks, space) {
            Ok(_) => {},
            Err(e) => return Err(e),
        }
        proof {
            lemma_data_landed(was, *self, handed, t0, t1);
            assert forall|h: nat| #[trigger] data_changing(start, *self, h) implies data_changing(
                was,
                *self,
                h,
            ) by {
                assert(was.whole(h) == start.whole(h) && was.chunks_ok(h) == start.chunks_ok(h));
            }
        }
        Ok(mask)
    }

    /// Put extents into a file, and set its size where one is given, with full
    /// durability.
    pub fn commit_file_extents(
        &mut self,
        ino: u64,
        updates: &Vec<ExtentUpdate>,
        new_size: Option<u64>,
        now: Timespec,
        hooks: &CrashHooks,
        space: &Space,
    ) -> (r: Result<u64, StoreError>)
        requires
            old(self).ready(),
            time_ok(now),
            updates_fit(updates@),
        ensures
            match r {
                Ok(mask) => {
                    &&& durable(*final(self))
                    &&& exists|mid: Store<B>| #[trigger]
                        settled(mid, *final(self)) && data_landed(
                            *old(self),
                            mid,
                            mask,
                            2 * updates@.len() + 1,
                            extents_room(*old(self), ino, updates@, now),
                            region_written(old(self).ns(), ino, updates@, new_size, now),
                            chunks_put(old(self).chunks(), updates@),
                        ) && forall|h: nat| #[trigger]
                            data_changing(*old(self), mid, h) && extents_room(
                                *old(self),
                                ino,
                                updates@,
                                now,
                            ) ==> mask == masks(updates@) && !region_refused(
                                old(self).ns(),
                                ino,
                                updates@,
                                new_size,
                            )
                },
                Err(e) => data_failed(
                    *old(self),
                    *final(self),
                    e,
                    *hooks,
                    *space,
                    2 * updates@.len(),
                    extents_room(*old(self), ino, updates@, now),
                    region_refused(old(self).ns(), ino, updates@, new_size),
                    2 * updates@.len() + 1,
                    region_written(old(self).ns(), ino, updates@, new_size, now),
                    chunks_put(old(self).chunks(), updates@),
                ),
            },
    {
        let mask = match self.commit_file_extents_deferred(ino, updates, new_size, now, hooks, space) {
            Ok(mask) => mask,
            Err(e) => return Err(e),
        };
        let ghost mid = *self;
        match self.durability_barrier(hooks, space) {
            Ok(_) => {
                assert(settled(mid, *self));
                Ok(mask)
            },
            Err(e) => Err(e),
        }
    }

    /// Truncate a file, or extend it by a hole. `trim` is the extent that reaches past
    /// the new size, cut to it. Gives the feature bits that it needs, which are then in
    /// use.
    #[verifier::rlimit(80)]
    #[verifier::spinoff_prover]
    pub fn truncate_file<F: Fn(&[u8]) -> Option<Descriptor>>(
        &mut self,
        ino: u64,
        new_size: u64,
        trim: Option<&ExtentUpdate>,
        decode: &F,
        now: Timespec,
        hooks: &CrashHooks,
        space: &Space,
    ) -> (r: Result<u64, StoreError>)
        requires
            old(self).ready(),
            time_ok(now),
            trim matches Some(u) ==> u.bytes@.len() <= u32::MAX,
            steady(*decode),
        ensures
            match r {
                Ok(mask) => {
                    &&& durable(*final(self))
                    &&& mask == match trim {
                        Some(u) => mask_for(*u),
                        None => 0,
                    }
                    &&& exists|mid: Store<B>| #[trigger]
                        data_landed(
                            *old(self),
                            mid,
                            mask,
                            2,
                            entries_room(*old(self), ino),
                            old(self).ns().insert(ino, truncated(old(self).ns()[ino], new_size, opt_update(trim), now)),
                            trim_chunks(old(self).chunks(), opt_update(trim)),
                        ) && settled(mid, *final(self)) && forall|h: nat| #[trigger]
                            data_changing(*old(self), mid, h) && entries_room(*old(self), ino)
                                ==> !truncate_refused(
                                old(self).ns(),
                                ino,
                                new_size,
                                *decode,
                                opt_update(trim),
                            )
                },
                Err(e) => data_failed(
                    *old(self),
                    *final(self),
                    e,
                    *hooks,
                    *space,
                    1,
                    entries_room(*old(self), ino),
                    truncate_refused(old(self).ns(), ino, new_size, *decode, opt_update(trim)),
                    2,
                    old(self).ns().insert(ino, truncated(old(self).ns()[ino], new_size, opt_update(trim), now)),
                    trim_chunks(old(self).chunks(), opt_update(trim)),
                ),
            },
    {
        let ghost start = *self;
        let mut tx = self.begin_tx();
        let ghost t0 = tx;
        proof {
            lemma_begun(start, t0);
        }
        let out = Store::truncate_in_tx(&mut tx, ino, new_size, trim, decode, now);
        let ghost t1 = tx;
        let mask = match out {
            Ok(v) => v,
            Err(e) => {
                let tried = tx.abandon();
                self.seen.absorb(&tried);
                proof {
                    lemma_data_down(start, *self, t0, t1);
                }
                return Err(e);
            },
        };
        let staged = tx.finish();
        let ghost handed = staged;
        self.features_in_use = self.features_in_use | mask;
        let ghost was = *self;
        let ghost room = entries_room(start, ino);
        let ghost n = start.ns().insert(ino, truncated(start.ns()[ino], new_size, opt_update(trim), now));
        let ghost c = trim_chunks(start.chunks(), opt_update(trim));
        proof {
            lemma_with_features(start, mask);
            lemma_data_stages(was, handed, t0, t1);
            assert forall|h: nat|
                clash_free(t1.objects.payloads()) && #[trigger] t1.chunks_ok(
                    h + 1,
                ) implies t1.chunks_ok(h + 2) by {
                lemma_chunks_taller(t1, h + 1, h + 2);
            }
            assert(data_stages(was, handed, 2, room, n, c));
        }
        let r = self.commit(staged, hooks, space);
        proof {
            if r is Ok {
                let mid = choose|mid: Store<B>| #[trigger]
                    commit_done(was, mid, handed) && commit_keeps(was, mid) && settled(mid, *self);
                lemma_data_published(start, was, mid, handed, t0, t1, mask, 2, room, n, c);
                assert(data_landed(start, mid, mask, 2, room, n, c) && settled(mid, *self));
            } else {
                let e = r->Err_0;
                if !commit_failed(was, *self, e, *hooks, *space, handed.records@) {
                    let mid = choose|mid: Store<B>| #[trigger]
                        commit_done(was, mid, handed) && commit_keeps(was, mid) && barrier_failed(
                            mid,
                            *self,
                            e,
                            *hooks,
                            *space,
                        );
                    lemma_data_published(start, was, mid, handed, t0, t1, mask, 2, room, n, c);
                    assert(data_landed(start, mid, mask, 2, room, n, c));
                }
            }
        }
        match r {
            Ok(_) => Ok(mask),
            Err(e) => Err(e),
        }
    }

    /// Replace the attributes of an inode that the update gives. A change of the size
    /// truncates or extends the file, in the same transaction; `trim` is the extent that
    /// reaches past the new size, cut to it. Gives the inode as it is now.
    #[verifier::rlimit(80)]
    #[verifier::spinoff_prover]
    pub fn setattr_inode<F: Fn(&[u8]) -> Option<Descriptor>>(
        &mut self,
        ino: u64,
        update: &AttrUpdate,
        trim: Option<&ExtentUpdate>,
        decode: &F,
        now: Timespec,
        hooks: &CrashHooks,
        space: &Space,
    ) -> (r: Result<Inode, StoreError>)
        requires
            old(self).ready(),
            time_ok(now),
            update_ok(*update),
            trim matches Some(u) ==> u.bytes@.len() <= u32::MAX,
            steady(*decode),
        ensures
            match r {
                Ok(v) => attrs_landed(
                    *old(self),
                    *final(self),
                    ino,
                    *update,
                    opt_update(trim),
                    *decode,
                    now,
                    v,
                ),
                Err(e) => attrs_failed(
                    *old(self),
                    *final(self),
                    e,
                    *hooks,
                    *space,
                    ino,
                    *update,
                    opt_update(trim),
                    *decode,
                    now,
                ),
            },
    {
        let ghost start = *self;
        let mut tx = self.begin_tx();
        let ghost t0 = tx;
        proof {
            lemma_begun(start, t0);
        }
        let out = Store::update_in_tx(&mut tx, ino, update, trim, decode, now);
        let ghost t1 = tx;
        let (v, mask) = match out {
            Ok(v) => v,
            Err(e) => {
                let tried = tx.abandon();
                self.seen.absorb(&tried);
                proof {
                    lemma_data_down(start, *self, t0, t1);
                }
                return Err(e);
            },
        };
        let staged = tx.finish();
        let ghost handed = staged;
        self.features_in_use = self.features_in_use | mask;
        let ghost was = *self;
        let ghost room = entries_room(start, ino);
        let ghost n = start.ns().insert(ino, item_updated(start.ns()[ino], *update, opt_update(trim), now));
        let ghost c = update_chunks(start.chunks(), start.ns()[ino], *update, opt_update(trim));
        proof {
            lemma_with_features(start, mask);
            lemma_data_stages(was, handed, t0, t1);
            assert forall|h: nat|
                clash_free(t1.objects.payloads()) && #[trigger] t1.chunks_ok(
                    h + 1,
                ) implies t1.chunks_ok(h + 2) by {
                lemma_chunks_taller(t1, h + 1, h + 2);
            }
            assert(data_stages(was, handed, 3, room, n, c));
        }
        let r = self.commit(staged, hooks, space);
        proof {
            if r is Ok {
                let mid = choose|mid: Store<B>| #[trigger]
                    commit_done(was, mid, handed) && commit_keeps(was, mid) && settled(mid, *self);
                lemma_data_published(start, was, mid, handed, t0, t1, mask, 3, room, n, c);
                lemma_inode_published(was, mid, handed, t0, t1, ino);
                assert(data_landed(start, mid, mask, 3, room, n, c) && settled(mid, *self));
            } else {
                let e = r->Err_0;
                if !commit_failed(was, *self, e, *hooks, *space, handed.records@) {
                    let mid = choose|mid: Store<B>| #[trigger]
                        commit_done(was, mid, handed) && commit_keeps(was, mid) && barrier_failed(
                            mid,
                            *self,
                            e,
                            *hooks,
                            *space,
                        );
                    lemma_data_published(start, was, mid, handed, t0, t1, mask, 3, room, n, c);
                    assert(data_landed(start, mid, mask, 3, room, n, c));
                }
            }
        }
        match r {
            Ok(_) => Ok(v),
            Err(e) => Err(e),
        }
    }
}

} // verus!
