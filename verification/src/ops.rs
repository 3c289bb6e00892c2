//! The store's operations: each runs in a transaction of its own and commits with
//! full durability.

use vstd::prelude::*;

use crate::bytes::bytes_equal;
use crate::commit::{commit_done, commit_failed, commit_keeps, only_inodes, Space};
use crate::directory::DirEntry;
use crate::error::StoreError;
use crate::fs::{fs_ok, ns, rootless, Namespace, BTREE_ORDER};
use crate::index::{grown, ObjectProvider};
use crate::index_edit::lemma_clash_free_subset;
use crate::inode::Timespec;
use crate::io::IoBackend;
use crate::journal::{barrier_failed, checkpoint_failed, commit_publishes, attempt, durable, idle,
    lemma_begun, lemma_tried, merged, same_but_seen, settled, accounted};
use crate::links::{link_refused, linked, moved, rename_refused, renamed, replaced};
use crate::namespace::{child_of, create_refused, created, edited, editing, entry_cut, entry_fits,
    entry_inode, entry_put, entry_type, has_dir, time_ok, unlink_refused, unlinked, valid_name,
    NewEntry, RenameOutcome};
use crate::store::Store;
use crate::transaction::{covers_staged, CrashHooks, Staged, Tx};
use crate::tree::{clash_free, max_height};

verus! {

/// What an operation from `a` starts from: a whole namespace, and no two payloads
/// of one digest in the end.
pub open spec fn changing<B: IoBackend>(a: Store<B>, b: Store<B>, h: nat) -> bool {
    &&& BTREE_ORDER <= a.config.max_fanout
    &&& clash_free(b.seen@)
    &&& a.whole(h)
}

/// The operation's commit published the namespace `n`, in trees of at most `more`
/// further levels, and what it gave back is `fine`; what was pending is then merged.
pub open spec fn landed<B: IoBackend>(
    a: Store<B>,
    mid: Store<B>,
    b: Store<B>,
    more: nat,
    n: Namespace,
    fine: bool,
) -> bool {
    &&& commit_keeps(a, mid)
    &&& mid.generation == a.generation + 1
    &&& accounted(a, mid)
    &&& only_inodes(a, mid)
    &&& settled(mid, b)
    &&& forall|h: nat| #[trigger] changing(a, mid, h) ==> mid.whole(h + more) && mid.ns() == n
        && fine
}

/// The operation went through and is durable.
pub open spec fn lands<B: IoBackend>(
    a: Store<B>,
    b: Store<B>,
    more: nat,
    n: Namespace,
    fine: bool,
) -> bool {
    &&& durable(b)
    &&& exists|mid: Store<B>| #[trigger] landed(a, mid, b, more, n, fine)
}

/// The operation changed nothing: the backend failed, the trees may be too tall, or it
/// was refused.
pub open spec fn turned_down<B: IoBackend>(
    a: Store<B>,
    b: Store<B>,
    more: nat,
    refused: bool,
) -> bool {
    &&& same_but_seen(a, b)
    &&& {
        ||| !a.io.reliable()
        ||| forall|h: nat| #[trigger] changing(a, b, h) ==> h + more > max_height() || refused
    }
}

/// What a transaction from `a` starts from, where it comes to hold the payloads `p`.
pub open spec fn staging<B: IoBackend>(a: Store<B>, p: Set<Seq<u8>>, h: nat) -> bool {
    &&& BTREE_ORDER <= a.config.max_fanout
    &&& clash_free(p)
    &&& a.whole(h)
}

/// A finished transaction from `a` holds the namespace `n`, in trees of at most `more`
/// further levels.
pub open spec fn stages<B: IoBackend>(
    a: Store<B>,
    staged: Staged<B>,
    more: nat,
    n: Namespace,
) -> bool {
    let f = a.config.max_fanout;
    let p = staged.payloads@;
    &&& covers_staged(a.objects(), staged.records@, p)
    &&& forall|h: nat| #[trigger]
        staging(a, p, h) ==> fs_ok(p, staged.root@.inode_index_root, f, h + more) && ns(
            p,
            staged.root@.inode_index_root,
            f,
        ) == n
}

/// A commit from `a` published the namespace `n`.
pub open spec fn published<B: IoBackend>(
    a: Store<B>,
    mid: Store<B>,
    more: nat,
    n: Namespace,
) -> bool {
    &&& commit_keeps(a, mid)
    &&& mid.generation == a.generation + 1
    &&& mid.ready()
    &&& accounted(a, mid)
    &&& only_inodes(a, mid)
    &&& forall|h: nat| #[trigger] changing(a, mid, h) ==> mid.whole(h + more) && mid.ns() == n
}

/// Why the operation failed: it was turned down, the commit of its transaction failed,
/// or what it committed could not be made durable. On a reliable backend with room and
/// place, and with no crash simulated, only the first is left.
pub open spec fn failed<B: IoBackend>(
    a: Store<B>,
    b: Store<B>,
    e: StoreError,
    hooks: CrashHooks,
    space: Space,
    least: nat,
    refused: bool,
    more: nat,
    n: Namespace,
) -> bool {
    ||| turned_down(a, b, least, refused)
    ||| exists|staged: Staged<B>| #[trigger]
        stages(a, staged, more, n) && commit_failed(a, b, e, hooks, space, staged.records@)
    ||| exists|mid: Store<B>| #[trigger]
        published(a, mid, more, n) && barrier_failed(mid, b, e, hooks, space)
}

/// What was pending is merged first, where anything was.
pub open spec fn caught_up<B: IoBackend>(a: Store<B>, pre: Store<B>) -> bool {
    if idle(a) {
        pre == a
    } else {
        merged(a, pre)
    }
}

pub proof fn lemma_turned_down<B: IoBackend>(a: Store<B>, b: Store<B>, t0: Tx<B>, t1: Tx<B>)
    requires
        a.ready(),
        t0.objects.faithful(),
        attempt(a, t0),
        grown(&t0.objects, &t1.objects),
        t1.max_fanout == t0.max_fanout,
        t0.max_fanout == a.config.max_fanout,
        forall|h: nat| #[trigger] t0.whole(h) == a.whole(h),
        b == (Store { seen: b.seen, ..a }),
        b.seen@ == a.seen@.union(t1.objects.payloads()),
    ensures
        same_but_seen(a, b),
        forall|h: nat| #[trigger] changing(a, b, h) ==> editing(t0, t1, h),
{
    lemma_tried(a, b, t0, t1);
    assert forall|h: nat| #[trigger] changing(a, b, h) implies editing(t0, t1, h) by {
        lemma_clash_free_subset(t1.objects.payloads(), b.seen@);
        assert(t0.whole(h) == a.whole(h));
    }
}

pub proof fn lemma_landed<B: IoBackend>(
    a: Store<B>,
    mid: Store<B>,
    staged: Staged<B>,
    t0: Tx<B>,
    t1: Tx<B>,
)
    requires
        commit_done(a, mid, staged),
        commit_keeps(a, mid),
        t0.objects.faithful(),
        t0.max_fanout == a.config.max_fanout,
        forall|h: nat| #[trigger] t0.whole(h) == a.whole(h),
        t0.root == a.root,
        edited(t0, t1),
        staged.payloads@ == t1.objects.payloads(),
        staged.root == t1.root,
    ensures
        only_inodes(a, mid),
        forall|h: nat| #[trigger] changing(a, mid, h) ==> editing(t0, t1, h),
        forall|k: nat|
            clash_free(mid.seen@) && #[trigger] t1.whole(k) ==> mid.whole(k) && mid.ns() == t1.ns(),
{
    assert forall|h: nat| #[trigger] changing(a, mid, h) implies editing(t0, t1, h) by {
        lemma_clash_free_subset(mid.given@, mid.seen@);
        commit_publishes(a, mid, staged, t1, h);
        assert(t0.whole(h) == a.whole(h));
    }
    assert forall|k: nat| clash_free(mid.seen@) && #[trigger] t1.whole(k) implies mid.whole(k)
        && mid.ns() == t1.ns() by {
        lemma_clash_free_subset(mid.given@, mid.seen@);
        commit_publishes(a, mid, staged, t1, k);
    }
}

pub proof fn lemma_stages<B: IoBackend>(a: Store<B>, staged: Staged<B>, t0: Tx<B>, t1: Tx<B>)
    requires
        t0.objects.faithful(),
        t0.max_fanout == a.config.max_fanout,
        forall|h: nat| #[trigger] t0.whole(h) == a.whole(h),
        t1.max_fanout == t0.max_fanout,
        staged.payloads@ == t1.objects.payloads(),
        staged.root == t1.root,
    ensures
        forall|h: nat| #[trigger] staging(a, staged.payloads@, h) ==> editing(t0, t1, h),
        forall|k: nat| #[trigger]
            t1.whole(k) == fs_ok(
                staged.payloads@,
                staged.root@.inode_index_root,
                a.config.max_fanout,
                k,
            ),
        t1.ns() == ns(staged.payloads@, staged.root@.inode_index_root, a.config.max_fanout),
{
    assert forall|h: nat| #[trigger] staging(a, staged.payloads@, h) implies editing(t0, t1, h) by {
        assert(t0.whole(h) == a.whole(h));
    }
}

impl<B: IoBackend> Store<B> {
    /// Create an entry as the inode `ino`: a file, a directory, a symbolic link or a
    /// device.
    #[verifier::rlimit(40)]
    pub fn create_entry_as(
        &mut self,
        parent: u64,
        name: &[u8],
        entry: &NewEntry,
        ino: u64,
        now: Timespec,
        hooks: &CrashHooks,
        space: &Space,
    ) -> (r: Result<(), StoreError>)
        requires
            old(self).ready(),
            time_ok(now),
            entry_fits(*entry),
        ensures
            !valid_name(name@) ==> r is Err,
            match r {
                Ok(_) => lands(
                    *old(self),
                    *final(self),
                    2,
                    created(old(self).ns(), parent, name@, ino, rootless(entry_inode(*entry, now)), entry_type(entry.kind), now),
                    !create_refused(old(self).ns(), parent, name@),
                ),
                Err(e) => failed(
                    *old(self),
                    *final(self),
                    e,
                    *hooks,
                    *space,
                    1,
                    create_refused(old(self).ns(), parent, name@),
                    2,
                    created(old(self).ns(), parent, name@, ino, rootless(entry_inode(*entry, now)), entry_type(entry.kind), now),
                ),
            },
    {
        let ghost was = *self;
        let mut tx = self.begin_tx();
        let ghost t0 = tx;
        proof {
            lemma_begun(was, t0);
        }
        let out = Store::create_in_tx(&mut tx, parent, name, entry, ino, now);
        let ghost t1 = tx;
        let v = match out {
            Ok(v) => v,
            Err(e) => {
                let tried = tx.abandon();
                self.seen.absorb(&tried);
                proof {
                    lemma_turned_down(was, *self, t0, t1);
                }
                return Err(e);
            },
        };
        let staged = tx.finish();
        let ghost handed = staged;
        let r = self.commit(staged, hooks, space);
        proof {
            if r is Ok {
                let mid = choose|mid: Store<B>| #[trigger]
                    commit_done(was, mid, handed) && commit_keeps(was, mid) && settled(mid, *self);
                lemma_landed(was, mid, handed, t0, t1);
                assert(landed(was, mid, *self, 2, created(was.ns(), parent, name@, ino, rootless(entry_inode(*entry, now)), entry_type(entry.kind), now), !create_refused(was.ns(), parent, name@)));
            } else {
                let e = r->Err_0;
                lemma_stages(was, handed, t0, t1);
                assert(stages(was, handed, 2, created(was.ns(), parent, name@, ino, rootless(entry_inode(*entry, now)), entry_type(entry.kind), now)));
                if !commit_failed(was, *self, e, *hooks, *space, handed.records@) {
                    let mid = choose|mid: Store<B>| #[trigger]
                        commit_done(was, mid, handed) && commit_keeps(was, mid) && barrier_failed(
                            mid,
                            *self,
                            e,
                            *hooks,
                            *space,
                        );
                    lemma_landed(was, mid, handed, t0, t1);
                    assert(published(was, mid, 2, created(was.ns(), parent, name@, ino, rootless(entry_inode(*entry, now)), entry_type(entry.kind), now)));
                }
            }
        }
        match r {
            Ok(_) => Ok(v),
            Err(e) => Err(e),
        }
    }

    /// Remove an entry: a directory where `rmdir` says so, else anything else. Gives the
    /// inode that it named.
    #[verifier::rlimit(40)]
    pub fn unlink(
        &mut self,
        parent: u64,
        name: &[u8],
        rmdir: bool,
        now: Timespec,
        hooks: &CrashHooks,
        space: &Space,
    ) -> (r: Result<u64, StoreError>)
        requires
            old(self).ready(),
            time_ok(now),
        ensures
            !valid_name(name@) ==> r is Err,
            match r {
                Ok(v) => lands(
                    *old(self),
                    *final(self),
                    2,
                    unlinked(old(self).ns(), parent, name@, rmdir, now),
                    v == child_of(old(self).ns(), parent, name@) && !unlink_refused(
                        old(self).ns(),
                        parent,
                        name@,
                        rmdir,
                    ),
                ),
                Err(e) => failed(
                    *old(self),
                    *final(self),
                    e,
                    *hooks,
                    *space,
                    1,
                    unlink_refused(old(self).ns(), parent, name@, rmdir),
                    2,
                    unlinked(old(self).ns(), parent, name@, rmdir, now),
                ),
            },
    {
        let ghost was = *self;
        let mut tx = self.begin_tx();
        let ghost t0 = tx;
        proof {
            lemma_begun(was, t0);
        }
        let out = Store::unlink_in_tx(&mut tx, parent, name, rmdir, now);
        let ghost t1 = tx;
        let v = match out {
            Ok(v) => v,
            Err(e) => {
                let tried = tx.abandon();
                self.seen.absorb(&tried);
                proof {
                    lemma_turned_down(was, *self, t0, t1);
                }
                return Err(e);
            },
        };
        let staged = tx.finish();
        let ghost handed = staged;
        let r = self.commit(staged, hooks, space);
        proof {
            if r is Ok {
                let mid = choose|mid: Store<B>| #[trigger]
                    commit_done(was, mid, handed) && commit_keeps(was, mid) && settled(mid, *self);
                lemma_landed(was, mid, handed, t0, t1);
                assert(landed(was, mid, *self, 2, unlinked(was.ns(), parent, name@, rmdir, now), v == child_of(was.ns(), parent, name@) && !unlink_refused(was.ns(), parent, name@, rmdir)));
            } else {
                let e = r->Err_0;
                lemma_stages(was, handed, t0, t1);
                assert(stages(was, handed, 2, unlinked(was.ns(), parent, name@, rmdir, now)));
                if !commit_failed(was, *self, e, *hooks, *space, handed.records@) {
                    let mid = choose|mid: Store<B>| #[trigger]
                        commit_done(was, mid, handed) && commit_keeps(was, mid) && barrier_failed(
                            mid,
                            *self,
                            e,
                            *hooks,
                            *space,
                        );
                    lemma_landed(was, mid, handed, t0, t1);
                    assert(published(was, mid, 2, unlinked(was.ns(), parent, name@, rmdir, now)));
                }
            }
        }
        match r {
            Ok(_) => Ok(v),
            Err(e) => Err(e),
        }
    }

    /// Rename an entry, over an existing one where there is one. A name renamed onto itself
    /// stays, and nothing is committed.
    #[verifier::rlimit(40)]
    pub fn rename(
        &mut self,
        src_parent: u64,
        src_name: &[u8],
        dst_parent: u64,
        dst_name: &[u8],
        now: Timespec,
        hooks: &CrashHooks,
        space: &Space,
    ) -> (r: Result<RenameOutcome, StoreError>)
        requires
            old(self).ready(),
            time_ok(now),
        ensures
            !valid_name(src_name@) || !valid_name(dst_name@) ==> r is Err,
            match r {
                Ok(v) => if src_parent == dst_parent && src_name@ == dst_name@ {
                    same_but_seen(*old(self), *final(self)) && forall|h: nat| #[trigger]
                        changing(*old(self), *final(self), h) ==> !rename_refused(
                            old(self).ns(),
                            src_parent,
                            src_name@,
                            dst_parent,
                            dst_name@,
                        ) && v.replaced_dst_ino is None && v.src_ino == moved(old(self).ns(), src_parent, src_name@).ino
                } else {
                    lands(
                    *old(self),
                    *final(self),
                    4,
                    renamed(old(self).ns(), src_parent, src_name@, dst_parent, dst_name@, now),
                    v.src_ino == moved(old(self).ns(), src_parent, src_name@).ino && v.replaced_dst_ino == replaced(old(self).ns(), src_parent, src_name@, dst_parent, dst_name@) && !rename_refused(old(self).ns(), src_parent, src_name@, dst_parent, dst_name@),
                )
                },
                Err(e) => failed(
                    *old(self),
                    *final(self),
                    e,
                    *hooks,
                    *space,
                    3,
                    rename_refused(old(self).ns(), src_parent, src_name@, dst_parent, dst_name@),
                    4,
                    renamed(old(self).ns(), src_parent, src_name@, dst_parent, dst_name@, now),
                ),
            },
    {
        let ghost was = *self;
        let mut tx = self.begin_tx();
        let ghost t0 = tx;
        proof {
            lemma_begun(was, t0);
        }
        let out = Store::rename_in_tx(&mut tx, src_parent, src_name, dst_parent, dst_name, now);
        let ghost t1 = tx;
        let v = match out {
            Ok(v) => v,
            Err(e) => {
                let tried = tx.abandon();
                self.seen.absorb(&tried);
                proof {
                    lemma_turned_down(was, *self, t0, t1);
                }
                return Err(e);
            },
        };
        if src_parent == dst_parent && bytes_equal(src_name, dst_name) {
            let tried = tx.abandon();
            self.seen.absorb(&tried);
            proof {
                lemma_turned_down(was, *self, t0, t1);
            }
            return Ok(v);
        }
        let staged = tx.finish();
        let ghost handed = staged;
        let r = self.commit(staged, hooks, space);
        proof {
            if r is Ok {
                let mid = choose|mid: Store<B>| #[trigger]
                    commit_done(was, mid, handed) && commit_keeps(was, mid) && settled(mid, *self);
                lemma_landed(was, mid, handed, t0, t1);
                assert(landed(was, mid, *self, 4, renamed(was.ns(), src_parent, src_name@, dst_parent, dst_name@, now), v.src_ino == moved(was.ns(), src_parent, src_name@).ino && v.replaced_dst_ino == replaced(was.ns(), src_parent, src_name@, dst_parent, dst_name@) && !rename_refused(was.ns(), src_parent, src_name@, dst_parent, dst_name@)));
            } else {
                let e = r->Err_0;
                lemma_stages(was, handed, t0, t1);
                assert(stages(was, handed, 4, renamed(was.ns(), src_parent, src_name@, dst_parent, dst_name@, now)));
                if !commit_failed(was, *self, e, *hooks, *space, handed.records@) {
                    let mid = choose|mid: Store<B>| #[trigger]
                        commit_done(was, mid, handed) && commit_keeps(was, mid) && barrier_failed(
                            mid,
                            *self,
                            e,
                            *hooks,
                            *space,
                        );
                    lemma_landed(was, mid, handed, t0, t1);
                    assert(published(was, mid, 4, renamed(was.ns(), src_parent, src_name@, dst_parent, dst_name@, now)));
                }
            }
        }
        match r {
            Ok(_) => Ok(v),
            Err(e) => Err(e),
        }
    }

    /// Link an inode under a further name. What is pending is merged first.
    #[verifier::rlimit(40)]
    pub fn link(
        &mut self,
        parent: u64,
        name: &[u8],
        ino: u64,
        now: Timespec,
        hooks: &CrashHooks,
        space: &Space,
    ) -> (r: Result<(), StoreError>)
        requires
            old(self).ready(),
            time_ok(now),
        ensures
            !valid_name(name@) ==> r is Err,
            match r {
                Ok(_) => exists|pre: Store<B>| #[trigger]
                    caught_up(*old(self), pre) && lands(
                        pre,
                        *final(self),
                        3,
                        linked(pre.ns(), parent, name@, ino, now),
                        !link_refused(pre.ns(), parent, name@, ino),
                    ),
                Err(e) => {
                    ||| !idle(*old(self)) && checkpoint_failed(
                        *old(self),
                        *final(self),
                        e,
                        *hooks,
                        *space,
                    )
                    ||| exists|pre: Store<B>| #[trigger]
                        caught_up(*old(self), pre) && failed(
                            pre,
                            *final(self),
                            e,
                            *hooks,
                            *space,
                            2,
                            link_refused(pre.ns(), parent, name@, ino),
                            3,
                            linked(pre.ns(), parent, name@, ino, now),
                        )
                },
            },
    {
        let ghost start = *self;
        match self.ensure_epoch_flushed(hooks, space) {
            Ok(_) => {},
            Err(e) => {
                return Err(e);
            },
        }
        let ghost was = *self;
        let mut tx = self.begin_tx();
        let ghost t0 = tx;
        proof {
            assert(caught_up(start, was));
            lemma_begun(was, t0);
        }
        let out = Store::link_in_tx(&mut tx, parent, name, ino, now);
        let ghost t1 = tx;
        let v = match out {
            Ok(v) => v,
            Err(e) => {
                let tried = tx.abandon();
                self.seen.absorb(&tried);
                proof {
                    lemma_turned_down(was, *self, t0, t1);
                }
                return Err(e);
            },
        };
        let staged = tx.finish();
        let ghost handed = staged;
        let r = self.commit(staged, hooks, space);
        proof {
            if r is Ok {
                let mid = choose|mid: Store<B>| #[trigger]
                    commit_done(was, mid, handed) && commit_keeps(was, mid) && settled(mid, *self);
                lemma_landed(was, mid, handed, t0, t1);
                assert(landed(was, mid, *self, 3, linked(was.ns(), parent, name@, ino, now), !link_refused(was.ns(), parent, name@, ino)));
            } else {
                let e = r->Err_0;
                lemma_stages(was, handed, t0, t1);
                assert(stages(was, handed, 3, linked(was.ns(), parent, name@, ino, now)));
                if !commit_failed(was, *self, e, *hooks, *space, handed.records@) {
                    let mid = choose|mid: Store<B>| #[trigger]
                        commit_done(was, mid, handed) && commit_keeps(was, mid) && barrier_failed(
                            mid,
                            *self,
                            e,
                            *hooks,
                            *space,
                        );
                    lemma_landed(was, mid, handed, t0, t1);
                    assert(published(was, mid, 3, linked(was.ns(), parent, name@, ino, now)));
                }
            }
        }
        match r {
            Ok(_) => Ok(v),
            Err(e) => Err(e),
        }
    }

    /// Put an entry into a directory, in place of one of that name.
    #[verifier::rlimit(40)]
    pub fn dir_insert(
        &mut self,
        dir_ino: u64,
        name: &[u8],
        entry: DirEntry,
        now: Timespec,
        hooks: &CrashHooks,
        space: &Space,
    ) -> (r: Result<(), StoreError>)
        requires
            old(self).ready(),
            time_ok(now),
            name@.len() <= u16::MAX,
        ensures
            match r {
                Ok(_) => lands(
                    *old(self),
                    *final(self),
                    2,
                    entry_put(old(self).ns(), dir_ino, name@, entry, now),
                    has_dir(old(self).ns(), dir_ino),
                ),
                Err(e) => failed(
                    *old(self),
                    *final(self),
                    e,
                    *hooks,
                    *space,
                    1,
                    !has_dir(old(self).ns(), dir_ino),
                    2,
                    entry_put(old(self).ns(), dir_ino, name@, entry, now),
                ),
            },
    {
        let ghost was = *self;
        let mut tx = self.begin_tx();
        let ghost t0 = tx;
        proof {
            lemma_begun(was, t0);
        }
        let out = Store::dir_insert_in_tx(&mut tx, dir_ino, name, entry, now);
        let ghost t1 = tx;
        let v = match out {
            Ok(v) => v,
            Err(e) => {
                let tried = tx.abandon();
                self.seen.absorb(&tried);
                proof {
                    lemma_turned_down(was, *self, t0, t1);
                }
                return Err(e);
            },
        };
        let staged = tx.finish();
        let ghost handed = staged;
        let r = self.commit(staged, hooks, space);
        proof {
            if r is Ok {
                let mid = choose|mid: Store<B>| #[trigger]
                    commit_done(was, mid, handed) && commit_keeps(was, mid) && settled(mid, *self);
                lemma_landed(was, mid, handed, t0, t1);
                assert(landed(was, mid, *self, 2, entry_put(was.ns(), dir_ino, name@, entry, now), has_dir(was.ns(), dir_ino)));
            } else {
                let e = r->Err_0;
                lemma_stages(was, handed, t0, t1);
                assert(stages(was, handed, 2, entry_put(was.ns(), dir_ino, name@, entry, now)));
                if !commit_failed(was, *self, e, *hooks, *space, handed.records@) {
                    let mid = choose|mid: Store<B>| #[trigger]
                        commit_done(was, mid, handed) && commit_keeps(was, mid) && barrier_failed(
                            mid,
                            *self,
                            e,
                            *hooks,
                            *space,
                        );
                    lemma_landed(was, mid, handed, t0, t1);
                    assert(published(was, mid, 2, entry_put(was.ns(), dir_ino, name@, entry, now)));
                }
            }
        }
        match r {
            Ok(_) => Ok(v),
            Err(e) => Err(e),
        }
    }

    /// Take an entry out of a directory; one that is absent is no error.
    #[verifier::rlimit(40)]
    pub fn dir_remove(
        &mut self,
        dir_ino: u64,
        name: &[u8],
        now: Timespec,
        hooks: &CrashHooks,
        space: &Space,
    ) -> (r: Result<(), StoreError>)
        requires
            old(self).ready(),
            time_ok(now),
        ensures
            match r {
                Ok(_) => lands(
                    *old(self),
                    *final(self),
                    1,
                    entry_cut(old(self).ns(), dir_ino, name@, now),
                    has_dir(old(self).ns(), dir_ino),
                ),
                Err(e) => failed(
                    *old(self),
                    *final(self),
                    e,
                    *hooks,
                    *space,
                    0,
                    !has_dir(old(self).ns(), dir_ino),
                    1,
                    entry_cut(old(self).ns(), dir_ino, name@, now),
                ),
            },
    {
        let ghost was = *self;
        let mut tx = self.begin_tx();
        let ghost t0 = tx;
        proof {
            lemma_begun(was, t0);
        }
        let out = Store::dir_remove_in_tx(&mut tx, dir_ino, name, now);
        let ghost t1 = tx;
        let v = match out {
            Ok(v) => v,
            Err(e) => {
                let tried = tx.abandon();
                self.seen.absorb(&tried);
                proof {
                    lemma_turned_down(was, *self, t0, t1);
                }
                return Err(e);
            },
        };
        let staged = tx.finish();
        let ghost handed = staged;
        let r = self.commit(staged, hooks, space);
        proof {
            if r is Ok {
                let mid = choose|mid: Store<B>| #[trigger]
                    commit_done(was, mid, handed) && commit_keeps(was, mid) && settled(mid, *self);
                lemma_landed(was, mid, handed, t0, t1);
                assert(landed(was, mid, *self, 1, entry_cut(was.ns(), dir_ino, name@, now), has_dir(was.ns(), dir_ino)));
            } else {
                let e = r->Err_0;
                lemma_stages(was, handed, t0, t1);
                assert(stages(was, handed, 1, entry_cut(was.ns(), dir_ino, name@, now)));
                if !commit_failed(was, *self, e, *hooks, *space, handed.records@) {
                    let mid = choose|mid: Store<B>| #[trigger]
                        commit_done(was, mid, handed) && commit_keeps(was, mid) && barrier_failed(
                            mid,
                            *self,
                            e,
                            *hooks,
                            *space,
                        );
                    lemma_landed(was, mid, handed, t0, t1);
                    assert(published(was, mid, 1, entry_cut(was.ns(), dir_ino, name@, now)));
                }
            }
        }
        match r {
            Ok(_) => Ok(v),
            Err(e) => Err(e),
        }
    }
}

} // verus!
