//! Operations through the mutation log: staged in the epoch, appended to the log, and
//! merged into the trees with the next checkpoint.

use vstd::prelude::*;

use crate::attrs::{attrs_set, update_ok, AttrUpdate};
use crate::chunk::digest;
use crate::commit::Space;
use crate::data_ops::{attrs_failed, attrs_landed};
use crate::descriptor::{steady, Descriptor};
use crate::directory::{entry_bytes, entry_round_trip, DirEntry};
use crate::epoch::{faces, mapped, overlaid, shown, shown_entries, shown_inode, slot, Epoch};
use crate::epoch_ops::{child_over, create_over_refused, create_parent, create_staged, holdable,
    inode_over, inode_staged, link_left, logged, next_number, numbers_full, opt_digest, reachable,
    records_cover, rename_done, rename_over_refused, unlink_over_refused, unlink_parent,
    unlink_staged, update_chunks, write_inode, write_staged};
use crate::error::StoreError;
use crate::extents::{opt_update, updates_fit, ExtentUpdate};
use crate::fs::{entry_at, lemma_ns_at, listing, BTREE_ORDER};
use crate::index::ObjectProvider;
use crate::index_edit::lemma_clash_free_subset;
use crate::inode::{inode_bytes, Inode, Timespec};
use crate::io::IoBackend;
use crate::journal::{checkpoint_failed, checkpointable, close_failed, closed_when_full, idle,
    lemma_begun, log_appended, merged};
use crate::log::{OpView, MAX_CHUNKS};
use crate::namespace::{entry_fits, entry_inode, entry_type, has_dir, strained, time_ok, NewEntry,
    RenameOutcome};
use crate::ops::caught_up;
use crate::overlay::{entry_over, file_shown, overlay_ok, overlays};
use crate::paths::countable;
use crate::sorted::lookup;
use crate::place::lens_of;
use crate::store::{lemma_given, no_place, Store};
use crate::transaction::{CrashHooks, CrashPoint, PendingRecord, Tx};
use crate::tree::clash_free;

verus! {

/// A transaction that was begun on the store.
pub open spec fn begun<B: IoBackend>(a: Store<B>, tx: Tx<B>) -> bool {
    &&& tx.root == a.root
    &&& tx.max_fanout == a.config.max_fanout
    &&& tx.objects.payloads() == a.objects()
    &&& tx.objects.faithful()
    &&& tx.objects.may_fail() == !a.io.reliable()
    &&& *tx.objects.index == a.index
}

/// One more operation is counted, its records are in the log, and every object that it
/// staged is among them.
pub open spec fn op_logged<B: IoBackend>(
    a: Store<B>,
    b: Store<B>,
    tx: Tx<B>,
    records: Seq<PendingRecord>,
) -> bool {
    &&& begun(a, tx)
    &&& records_cover(a.epoch, b.epoch, records)
    &&& if records.len() == 0 {
        b == (Store { epoch: b.epoch, ..a })
    } else {
        &&& b.epoch_pending == if a.epoch_pending < u64::MAX {
            a.epoch_pending + 1
        } else {
            u64::MAX as int
        }
        &&& log_appended(Store { epoch: b.epoch, epoch_pending: b.epoch_pending, ..a }, b, records)
    }
}

/// The operation is staged above the committed root and counted, and these are its
/// records.
pub open spec fn op_staged<B: IoBackend>(
    a: Store<B>,
    mid: Store<B>,
    tx: Tx<B>,
    records: Seq<PendingRecord>,
) -> bool {
    &&& begun(a, tx)
    &&& records_cover(a.epoch, mid.epoch, records)
    &&& records.len() > 0
    &&& mid == (Store { epoch: mid.epoch, epoch_pending: mid.epoch_pending, ..a })
    &&& mid.epoch_pending == if a.epoch_pending < u64::MAX {
        a.epoch_pending + 1
    } else {
        u64::MAX as int
    }
}

/// Why the records of a staged operation were not acknowledged: the transport failed,
/// there was no place for them, or a crash was simulated once they were appended. The
/// operation stays staged.
pub open spec fn append_failed<B: IoBackend>(
    mid: Store<B>,
    b: Store<B>,
    e: StoreError,
    hooks: CrashHooks,
    records: Seq<PendingRecord>,
) -> bool {
    &&& b.config == mid.config && b.root == mid.root && b.generation == mid.generation
    &&& b.epoch == mid.epoch && b.epoch_pending == mid.epoch_pending
    &&& {
        ||| !mid.io.reliable()
        ||| e is Limit && b.wf() && no_place(mid, lens_of(records))
        ||| e is CrashSimulated && hooks.armed == Some(CrashPoint::AfterSegmentFdatasync)
            && log_appended(mid, b, records)
    }
}

/// The creation is staged: the overlay after it, and its log record.
pub open spec fn create_recorded<B: IoBackend>(
    tx: Tx<B>,
    was: Epoch,
    ep: Epoch,
    records: Seq<PendingRecord>,
    parent: u64,
    name: Seq<u8>,
    entry: NewEntry,
    now: Timespec,
    ino: u64,
) -> bool {
    &&& ep.seq == was.seq + 1 && ep.max_ino == ino
    &&& forall|h: nat| #[trigger]
        overlays(tx, was, h) && countable(tx) ==> {
            let v = entry_inode(entry, now);
            let pv = create_parent(inode_over(tx, was@, parent), entry.kind, now);
            &&& !create_over_refused(tx.ns(), was@, parent, name)
            &&& next_number(tx.ns(), was, ino)
            &&& ep@ == create_staged(
                was@,
                parent,
                name,
                ino,
                entry_type(entry.kind),
                v,
                pv,
            )
            &&& logged(
                records,
                ep.seq,
                OpView::Create {
                    parent,
                    name: name,
                    ino,
                    d_type: entry_type(entry.kind),
                    inode_id: digest(inode_bytes(v)),
                    parent_inode_id: digest(inode_bytes(pv)),
                },
            )
            &&& reachable(ep, *tx.objects.index, digest(inode_bytes(v)))
            &&& reachable(ep, *tx.objects.index, digest(inode_bytes(pv)))
        }
}

/// The creation is in the log.
pub open spec fn create_logged<B: IoBackend>(
    a: Store<B>,
    b: Store<B>,
    parent: u64,
    name: Seq<u8>,
    entry: NewEntry,
    now: Timespec,
    ino: u64,
) -> bool {
    &&& b.ready()
    &&& b.config == a.config && b.root == a.root && b.generation == a.generation
    &&& b.io.reliable() == a.io.reliable()
    &&& exists|tx: Tx<B>, records: Seq<PendingRecord>| #[trigger]
        op_logged(a, b, tx, records) && create_recorded(tx, a.epoch, b.epoch, records, parent, name, entry, now, ino)
}

/// Why the creation is not in the log: the log's numbers end, it was refused, or its records
/// could not be appended.
pub open spec fn create_unlogged<B: IoBackend>(
    a: Store<B>,
    b: Store<B>,
    e: StoreError,
    hooks: CrashHooks,
    parent: u64,
    name: Seq<u8>,
    entry: NewEntry,
    now: Timespec,
) -> bool {
    ||| a.epoch.seq == u64::MAX && e is Limit && b == a
    ||| b == a && exists|tx: Tx<B>| #[trigger]
        begun(a, tx) && forall|h: nat| #[trigger]
            overlays(tx, a.epoch, h) && countable(tx) ==> {
                        ||| strained(tx, h)
                        ||| create_over_refused(tx.ns(), a.epoch@, parent, name)
                        ||| numbers_full(tx.ns(), a.epoch)
                    }
    ||| exists|mid: Store<B>, tx: Tx<B>, records: Seq<PendingRecord>, ino: u64| #[trigger]
        op_staged(a, mid, tx, records) && #[trigger] create_recorded(tx, a.epoch, mid.epoch, records, parent, name, entry, now, ino)
            && append_failed(mid, b, e, hooks, records)
}

/// The change of attributes is staged: the overlay after it, and its log record.
pub open spec fn setattr_recorded<B: IoBackend>(
    tx: Tx<B>,
    was: Epoch,
    ep: Epoch,
    records: Seq<PendingRecord>,
    ino: u64,
    update: AttrUpdate,
    now: Timespec,
    inode: Inode,
) -> bool {
    &&& ep.seq == was.seq + 1 && ep.max_ino == was.max_ino
    &&& forall|h: nat| #[trigger]
        overlays(tx, was, h) ==> {
            let v = attrs_set(inode_over(tx, was@, ino), update, now);
            &&& shown(tx.ns(), was@, ino)
            &&& inode@ == v
            &&& ep@ == inode_staged(was@, ino, v)
            &&& logged(
                records,
                ep.seq,
                OpView::Setattr { ino, inode_id: digest(inode_bytes(v)) },
            )
            &&& reachable(ep, *tx.objects.index, digest(inode_bytes(v)))
        }
}

/// The change of attributes is in the log.
pub open spec fn setattr_logged<B: IoBackend>(
    a: Store<B>,
    b: Store<B>,
    ino: u64,
    update: AttrUpdate,
    now: Timespec,
    inode: Inode,
) -> bool {
    &&& b.ready()
    &&& b.config == a.config && b.root == a.root && b.generation == a.generation
    &&& b.io.reliable() == a.io.reliable()
    &&& exists|tx: Tx<B>, records: Seq<PendingRecord>| #[trigger]
        op_logged(a, b, tx, records) && setattr_recorded(tx, a.epoch, b.epoch, records, ino, update, now, inode)
}

/// Why the change of attributes is not in the log: the log's numbers end, it was refused, or its records
/// could not be appended.
pub open spec fn setattr_unlogged<B: IoBackend>(
    a: Store<B>,
    b: Store<B>,
    e: StoreError,
    hooks: CrashHooks,
    ino: u64,
    update: AttrUpdate,
    now: Timespec,
) -> bool {
    ||| a.epoch.seq == u64::MAX && e is Limit && b == a
    ||| b == a && exists|tx: Tx<B>| #[trigger]
        begun(a, tx) && forall|h: nat| #[trigger]
            overlays(tx, a.epoch, h) ==> strained(tx, h) || !shown(tx.ns(), a.epoch@, ino)
    ||| exists|mid: Store<B>, tx: Tx<B>, records: Seq<PendingRecord>, inode: Inode| #[trigger]
        op_staged(a, mid, tx, records) && #[trigger] setattr_recorded(tx, a.epoch, mid.epoch, records, ino, update, now, inode)
            && append_failed(mid, b, e, hooks, records)
}

/// The removal is staged: the overlay after it, and its log record.
pub open spec fn unlink_recorded<B: IoBackend>(
    tx: Tx<B>,
    was: Epoch,
    ep: Epoch,
    records: Seq<PendingRecord>,
    parent: u64,
    name: Seq<u8>,
    rmdir: bool,
    now: Timespec,
    child: u64,
) -> bool {
    &&& ep.seq == was.seq + 1 && ep.max_ino == was.max_ino
    &&& forall|h: nat| #[trigger]
        overlays(tx, was, h) && holdable(tx.ns()) ==> {
            let left = link_left(inode_over(tx, was@, child), rmdir);
            let pv = unlink_parent(inode_over(tx, was@, parent), rmdir, now);
            &&& !unlink_over_refused(tx.ns(), was@, parent, name, rmdir)
            &&& child == child_over(tx.ns(), was@, parent, name)
            &&& ep@ == unlink_staged(was@, parent, name, child, left, pv)
            &&& logged(
                records,
                ep.seq,
                OpView::Unlink {
                    parent,
                    name: name,
                    child,
                    is_dir: rmdir,
                    parent_inode_id: digest(inode_bytes(pv)),
                    child_inode_id: opt_digest(left),
                },
            )
            &&& reachable(ep, *tx.objects.index, digest(inode_bytes(pv)))
            &&& left matches Some(v) ==> reachable(
                ep,
                *tx.objects.index,
                digest(inode_bytes(v)),
            )
        }
}

/// The removal is in the log.
pub open spec fn unlink_logged<B: IoBackend>(
    a: Store<B>,
    b: Store<B>,
    parent: u64,
    name: Seq<u8>,
    rmdir: bool,
    now: Timespec,
    child: u64,
) -> bool {
    &&& b.ready()
    &&& b.config == a.config && b.root == a.root && b.generation == a.generation
    &&& b.io.reliable() == a.io.reliable()
    &&& exists|tx: Tx<B>, records: Seq<PendingRecord>| #[trigger]
        op_logged(a, b, tx, records) && unlink_recorded(tx, a.epoch, b.epoch, records, parent, name, rmdir, now, child)
}

/// Why the removal is not in the log: the log's numbers end, it was refused, or its records
/// could not be appended.
pub open spec fn unlink_unlogged<B: IoBackend>(
    a: Store<B>,
    b: Store<B>,
    e: StoreError,
    hooks: CrashHooks,
    parent: u64,
    name: Seq<u8>,
    rmdir: bool,
    now: Timespec,
) -> bool {
    ||| a.epoch.seq == u64::MAX && e is Limit && b == a
    ||| b == a && exists|tx: Tx<B>| #[trigger]
        begun(a, tx) && forall|h: nat| #[trigger]
            overlays(tx, a.epoch, h) && holdable(tx.ns()) ==> strained(tx, h) || unlink_over_refused(
                        tx.ns(),
                        a.epoch@,
                        parent,
                        name,
                        rmdir,
                    )
    ||| exists|mid: Store<B>, tx: Tx<B>, records: Seq<PendingRecord>, child: u64| #[trigger]
        op_staged(a, mid, tx, records) && #[trigger] unlink_recorded(tx, a.epoch, mid.epoch, records, parent, name, rmdir, now, child)
            && append_failed(mid, b, e, hooks, records)
}

/// The rename is staged: the overlay after it, and its log record.
pub open spec fn rename_recorded<B: IoBackend>(
    tx: Tx<B>,
    was: Epoch,
    ep: Epoch,
    records: Seq<PendingRecord>,
    src_parent: u64,
    src_name: Seq<u8>,
    dst_parent: u64,
    dst_name: Seq<u8>,
    now: Timespec,
    out: RenameOutcome,
) -> bool {
    &&& ep.max_ino == was.max_ino
    &&& src_parent == dst_parent && src_name == dst_name ==> ep == was && records.len() == 0
    &&& forall|h: nat| #[trigger]
        overlays(tx, was, h) && holdable(tx.ns()) ==> {
            &&& !rename_over_refused(
                tx.ns(),
                was@,
                src_parent,
                src_name,
                dst_parent,
                dst_name,
            )
            &&& out.src_ino == child_over(tx.ns(), was@, src_parent, src_name)
            &&& if src_parent == dst_parent && src_name == dst_name {
                out.replaced_dst_ino is None
            } else {
                rename_done(
                    tx,
                    was,
                    ep,
                    src_parent,
                    src_name,
                    dst_parent,
                    dst_name,
                    now,
                    out.replaced_dst_ino,
                    records,
                )
            }
        }
}

/// The rename is in the log.
pub open spec fn rename_logged<B: IoBackend>(
    a: Store<B>,
    b: Store<B>,
    src_parent: u64,
    src_name: Seq<u8>,
    dst_parent: u64,
    dst_name: Seq<u8>,
    now: Timespec,
    out: RenameOutcome,
) -> bool {
    &&& b.ready()
    &&& b.config == a.config && b.root == a.root && b.generation == a.generation
    &&& b.io.reliable() == a.io.reliable()
    &&& exists|tx: Tx<B>, records: Seq<PendingRecord>| #[trigger]
        op_logged(a, b, tx, records) && rename_recorded(tx, a.epoch, b.epoch, records, src_parent, src_name, dst_parent, dst_name, now, out)
}

/// Why the rename is not in the log: the log's numbers end, it was refused, or its records
/// could not be appended.
pub open spec fn rename_unlogged<B: IoBackend>(
    a: Store<B>,
    b: Store<B>,
    e: StoreError,
    hooks: CrashHooks,
    src_parent: u64,
    src_name: Seq<u8>,
    dst_parent: u64,
    dst_name: Seq<u8>,
    now: Timespec,
) -> bool {
    ||| a.epoch.seq == u64::MAX && e is Limit && b == a
    ||| b == a && exists|tx: Tx<B>| #[trigger]
        begun(a, tx) && forall|h: nat| #[trigger]
            overlays(tx, a.epoch, h) && holdable(tx.ns()) ==> strained(tx, h) || rename_over_refused(
                        tx.ns(),
                        a.epoch@,
                        src_parent,
                        src_name,
                        dst_parent,
                        dst_name,
                    )
    ||| exists|mid: Store<B>, tx: Tx<B>, records: Seq<PendingRecord>, out: RenameOutcome| #[trigger]
        op_staged(a, mid, tx, records) && #[trigger] rename_recorded(tx, a.epoch, mid.epoch, records, src_parent, src_name, dst_parent, dst_name, now, out)
            && append_failed(mid, b, e, hooks, records)
}

/// The write is staged: the overlay after it, and its log record.
pub open spec fn write_recorded<B: IoBackend>(
    tx: Tx<B>,
    was: Epoch,
    ep: Epoch,
    records: Seq<PendingRecord>,
    ino: u64,
    updates: Seq<ExtentUpdate>,
    end: u64,
) -> bool {
    &&& ep.seq == was.seq + 1 && ep.max_ino == was.max_ino
    &&& forall|h: nat| #[trigger]
        overlays(tx, was, h) ==> {
            let v = write_inode(inode_over(tx, was@, ino), end);
            &&& file_shown(tx.ns(), was@, ino)
            &&& ep@ == write_staged(was@, ino, updates, v)
            &&& logged(
                records,
                ep.seq,
                OpView::Write {
                    ino,
                    size: v.size,
                    chunks: update_chunks(updates),
                    inode_id: digest(inode_bytes(v)),
                },
            )
            &&& reachable(ep, *tx.objects.index, digest(inode_bytes(v)))
        }
}

/// The write is in the log.
pub open spec fn write_logged<B: IoBackend>(
    a: Store<B>,
    b: Store<B>,
    ino: u64,
    updates: Seq<ExtentUpdate>,
    end: u64,
) -> bool {
    &&& b.ready()
    &&& b.config == a.config && b.root == a.root && b.generation == a.generation
    &&& b.io.reliable() == a.io.reliable()
    &&& exists|tx: Tx<B>, records: Seq<PendingRecord>| #[trigger]
        op_logged(a, b, tx, records) && write_recorded(tx, a.epoch, b.epoch, records, ino, updates, end)
}

/// Why the write is not in the log: the log's numbers end, it was refused, or its records
/// could not be appended.
pub open spec fn write_unlogged<B: IoBackend>(
    a: Store<B>,
    b: Store<B>,
    e: StoreError,
    hooks: CrashHooks,
    ino: u64,
    updates: Seq<ExtentUpdate>,
    end: u64,
) -> bool {
    ||| a.epoch.seq == u64::MAX && e is Limit && b == a
    ||| b == a && exists|tx: Tx<B>| #[trigger]
        begun(a, tx) && forall|h: nat| #[trigger]
            overlays(tx, a.epoch, h) ==> strained(tx, h) || !file_shown(tx.ns(), a.epoch@, ino)
    ||| exists|mid: Store<B>, tx: Tx<B>, records: Seq<PendingRecord>| #[trigger]
        op_staged(a, mid, tx, records) && #[trigger] write_recorded(tx, a.epoch, mid.epoch, records, ino, updates, end)
            && append_failed(mid, b, e, hooks, records)
}

impl<B: IoBackend> Store<B> {
    /// Stage the creation and append its records to the log.
    #[verifier::rlimit(60)]
    #[verifier::spinoff_prover]
    fn log_create(
        &mut self,
        parent: u64,
        name: &[u8],
        entry: &NewEntry,
        now: Timespec,
        hooks: &CrashHooks,
    ) -> (r: Result<u64, StoreError>)
        requires
            old(self).ready(),
            time_ok(now),
            entry_fits(*entry),
        ensures
            match r {
                Ok(ino) => create_logged(*old(self), *final(self), parent, name@, *entry, now, ino),
                Err(e) => create_unlogged(*old(self), *final(self), e, *hooks, parent, name@, *entry, now),
            },
    {
        let ghost was = *self;
        if self.epoch.seq == u64::MAX {
            return Err(StoreError::Limit("log sequence exhausted".to_string()));
        }
        let mut ep = Epoch::new();
        std::mem::swap(&mut self.epoch, &mut ep);
        let tx = self.begin_tx();
        let ghost t0 = tx;
        proof {
            lemma_begun(was, t0);
            assert(begun(was, t0));
        }
        let staged = Store::stage_create(&mut ep, &tx, parent, name, entry, now);
        self.epoch = ep;
        let (v, records) = match staged {
            Ok(o) => o,
            Err(e) => {
                return Err(e);
            },
        };
        let counted: bool = records.len() > 0;
        if counted && self.epoch_pending < u64::MAX {
            self.epoch_pending = self.epoch_pending + 1;
        }
        let ghost mid = *self;
        proof {
            assert(mid.disk() == was.disk());
        }
        if counted {
            match self.epoch_append(&records, hooks) {
                Ok(_) => {},
                Err(e) => {
                    proof {
                        assert(op_staged(was, mid, t0, records@));
                        assert(create_recorded(t0, was.epoch, mid.epoch, records@, parent, name@, *entry, now, v));
                    }
                    return Err(e);
                },
            }
        }
        proof {
            assert(op_logged(was, *self, t0, records@));
            assert(create_recorded(t0, was.epoch, self.epoch, records@, parent, name@, *entry, now, v));
        }
        Ok(v)
    }

    /// Create an entry through the log: acknowledged once its records are appended, in
    /// the trees with the next checkpoint. Gives the inode number. The epoch is closed where it has accumulated too many
    /// operations.
    pub fn epoch_create(
        &mut self,
        parent: u64,
        name: &[u8],
        entry: &NewEntry,
        now: Timespec,
        hooks: &CrashHooks,
        space: &Space,
    ) -> (r: Result<u64, StoreError>)
        requires
            old(self).ready(),
            time_ok(now),
            entry_fits(*entry),
        ensures
            match r {
                Ok(ino) => exists|mid: Store<B>| #[trigger]
                    create_logged(*old(self), mid, parent, name@, *entry, now, ino) && closed_when_full(mid, *final(self)),
                Err(e) => {
                    ||| create_unlogged(*old(self), *final(self), e, *hooks, parent, name@, *entry, now)
                    ||| exists|mid: Store<B>, ino: u64| #[trigger]
                        create_logged(*old(self), mid, parent, name@, *entry, now, ino) && #[trigger] close_failed(
                            mid,
                            *final(self),
                            e,
                            *space,
                        )
                },
            },
    {
        let v = match self.log_create(parent, name, entry, now, hooks) {
            Ok(v) => v,
            Err(e) => return Err(e),
        };
        let ghost mid = *self;
        assert(create_logged(*old(self), mid, parent, name@, *entry, now, v));
        match self.maybe_checkpoint_epoch(space) {
            Ok(_) => Ok(v),
            Err(e) => Err(e),
        }
    }

    /// Stage the change of attributes and append its records to the log.
    #[verifier::rlimit(60)]
    #[verifier::spinoff_prover]
    fn log_setattr(
        &mut self,
        ino: u64,
        update: &AttrUpdate,
        now: Timespec,
        hooks: &CrashHooks,
    ) -> (r: Result<Inode, StoreError>)
        requires
            old(self).ready(),
            time_ok(now),
            update_ok(*update),
            update.size is None,
        ensures
            match r {
                Ok(inode) => setattr_logged(*old(self), *final(self), ino, *update, now, inode),
                Err(e) => setattr_unlogged(*old(self), *final(self), e, *hooks, ino, *update, now),
            },
    {
        let ghost was = *self;
        if self.epoch.seq == u64::MAX {
            return Err(StoreError::Limit("log sequence exhausted".to_string()));
        }
        let mut ep = Epoch::new();
        std::mem::swap(&mut self.epoch, &mut ep);
        let tx = self.begin_tx();
        let ghost t0 = tx;
        proof {
            lemma_begun(was, t0);
            assert(begun(was, t0));
        }
        let staged = Store::stage_setattr(&mut ep, &tx, ino, update, now);
        self.epoch = ep;
        let (v, records) = match staged {
            Ok(o) => o,
            Err(e) => {
                return Err(e);
            },
        };
        let counted: bool = records.len() > 0;
        if counted && self.epoch_pending < u64::MAX {
            self.epoch_pending = self.epoch_pending + 1;
        }
        let ghost mid = *self;
        proof {
            assert(mid.disk() == was.disk());
        }
        if counted {
            match self.epoch_append(&records, hooks) {
                Ok(_) => {},
                Err(e) => {
                    proof {
                        assert(op_staged(was, mid, t0, records@));
                        assert(setattr_recorded(t0, was.epoch, mid.epoch, records@, ino, *update, now, v));
                    }
                    return Err(e);
                },
            }
        }
        proof {
            assert(op_logged(was, *self, t0, records@));
            assert(setattr_recorded(t0, was.epoch, self.epoch, records@, ino, *update, now, v));
        }
        Ok(v)
    }

    /// Set attributes through the log. A change of the size is a truncation: what is
    /// pending is merged first, and the update is committed; `trim` is the extent that
    /// reaches past the new size, cut to it. Gives the inode as it is now. The epoch is
    /// closed where it has accumulated too many operations.
    pub fn epoch_setattr<F: Fn(&[u8]) -> Option<Descriptor>>(
        &mut self,
        ino: u64,
        update: &AttrUpdate,
        trim: Option<&ExtentUpdate>,
        decode: &F,
        now: Timespec,
        hooks: &CrashHooks,
        space: &Space,
    ) -> (r: Result<Inode, StoreError>)
        requires
            old(self).ready(),
            time_ok(now),
            update_ok(*update),
            trim matches Some(u) ==> u.bytes@.len() <= u32::MAX,
            steady(*decode),
        ensures
            update.size is None ==> match r {
                Ok(inode) => exists|mid: Store<B>| #[trigger]
                    setattr_logged(*old(self), mid, ino, *update, now, inode) && closed_when_full(
                        mid,
                        *final(self),
                    ),
                Err(e) => {
                    ||| setattr_unlogged(*old(self), *final(self), e, *hooks, ino, *update, now)
                    ||| exists|mid: Store<B>, inode: Inode| #[trigger]
                        setattr_logged(*old(self), mid, ino, *update, now, inode)
                            && #[trigger] close_failed(mid, *final(self), e, *space)
                },
            },
            update.size is Some ==> match r {
                Ok(v) => exists|pre: Store<B>| #[trigger]
                    caught_up(*old(self), pre) && attrs_landed(
                        pre,
                        *final(self),
                        ino,
                        *update,
                        opt_update(trim),
                        *decode,
                        now,
                        v,
                    ),
                Err(e) => {
                    ||| !idle(*old(self)) && checkpoint_failed(
                        *old(self),
                        *final(self),
                        e,
                        *hooks,
                        *space,
                    )
                    ||| exists|pre: Store<B>| #[trigger]
                        caught_up(*old(self), pre) && attrs_failed(
                            pre,
                            *final(self),
                            e,
                            *hooks,
                            *space,
                            ino,
                            *update,
                            opt_update(trim),
                            *decode,
                            now,
                        )
                },
            },
    {
        if update.size.is_some() {
            match self.epoch_checkpoint(hooks, space) {
                Ok(_) => {},
                Err(e) => return Err(e),
            }
            assert(caught_up(*old(self), *self));
            return self.setattr_inode(ino, update, trim, decode, now, hooks, space);
        }
        let v = match self.log_setattr(ino, update, now, hooks) {
            Ok(v) => v,
            Err(e) => return Err(e),
        };
        let ghost mid = *self;
        assert(setattr_logged(*old(self), mid, ino, *update, now, v));
        match self.maybe_checkpoint_epoch(space) {
            Ok(_) => Ok(v),
            Err(e) => Err(e),
        }
    }

    /// Stage the removal and append its records to the log.
    #[verifier::rlimit(60)]
    #[verifier::spinoff_prover]
    fn log_unlink(
        &mut self,
        parent: u64,
        name: &[u8],
        rmdir: bool,
        now: Timespec,
        hooks: &CrashHooks,
    ) -> (r: Result<u64, StoreError>)
        requires
            old(self).ready(),
            time_ok(now),
        ensures
            match r {
                Ok(child) => unlink_logged(*old(self), *final(self), parent, name@, rmdir, now, child),
                Err(e) => unlink_unlogged(*old(self), *final(self), e, *hooks, parent, name@, rmdir, now),
            },
    {
        let ghost was = *self;
        if self.epoch.seq == u64::MAX {
            return Err(StoreError::Limit("log sequence exhausted".to_string()));
        }
        let mut ep = Epoch::new();
        std::mem::swap(&mut self.epoch, &mut ep);
        let tx = self.begin_tx();
        let ghost t0 = tx;
        proof {
            lemma_begun(was, t0);
            assert(begun(was, t0));
        }
        let staged = Store::stage_unlink(&mut ep, &tx, parent, name, rmdir, now);
        self.epoch = ep;
        let (v, records) = match staged {
            Ok(o) => o,
            Err(e) => {
                return Err(e);
            },
        };
        let counted: bool = records.len() > 0;
        if counted && self.epoch_pending < u64::MAX {
            self.epoch_pending = self.epoch_pending + 1;
        }
        let ghost mid = *self;
        proof {
            assert(mid.disk() == was.disk());
        }
        if counted {
            match self.epoch_append(&records, hooks) {
                Ok(_) => {},
                Err(e) => {
                    proof {
                        assert(op_staged(was, mid, t0, records@));
                        assert(unlink_recorded(t0, was.epoch, mid.epoch, records@, parent, name@, rmdir, now, v));
                    }
                    return Err(e);
                },
            }
        }
        proof {
            assert(op_logged(was, *self, t0, records@));
            assert(unlink_recorded(t0, was.epoch, self.epoch, records@, parent, name@, rmdir, now, v));
        }
        Ok(v)
    }

    /// Remove an entry through the log. Gives the inode that it named. The epoch is closed where it has accumulated too many
    /// operations.
    pub fn epoch_unlink(
        &mut self,
        parent: u64,
        name: &[u8],
        rmdir: bool,
        now: Timespec,
        hooks: &CrashHooks,
        space: &Space,
    ) -> (r: Result<u64, StoreError>)
        requires
            old(self).ready(),
            time_ok(now),
        ensures
            match r {
                Ok(child) => exists|mid: Store<B>| #[trigger]
                    unlink_logged(*old(self), mid, parent, name@, rmdir, now, child) && closed_when_full(mid, *final(self)),
                Err(e) => {
                    ||| unlink_unlogged(*old(self), *final(self), e, *hooks, parent, name@, rmdir, now)
                    ||| exists|mid: Store<B>, child: u64| #[trigger]
                        unlink_logged(*old(self), mid, parent, name@, rmdir, now, child) && #[trigger] close_failed(
                            mid,
                            *final(self),
                            e,
                            *space,
                        )
                },
            },
    {
        let v = match self.log_unlink(parent, name, rmdir, now, hooks) {
            Ok(v) => v,
            Err(e) => return Err(e),
        };
        let ghost mid = *self;
        assert(unlink_logged(*old(self), mid, parent, name@, rmdir, now, v));
        match self.maybe_checkpoint_epoch(space) {
            Ok(_) => Ok(v),
            Err(e) => Err(e),
        }
    }

    /// Stage the rename and append its records to the log.
    #[verifier::rlimit(60)]
    #[verifier::spinoff_prover]
    fn log_rename(
        &mut self,
        src_parent: u64,
        src_name: &[u8],
        dst_parent: u64,
        dst_name: &[u8],
        now: Timespec,
        hooks: &CrashHooks,
    ) -> (r: Result<RenameOutcome, StoreError>)
        requires
            old(self).ready(),
            time_ok(now),
        ensures
            match r {
                Ok(out) => rename_logged(*old(self), *final(self), src_parent, src_name@, dst_parent, dst_name@, now, out),
                Err(e) => rename_unlogged(*old(self), *final(self), e, *hooks, src_parent, src_name@, dst_parent, dst_name@, now),
            },
    {
        let ghost was = *self;
        if self.epoch.seq == u64::MAX {
            return Err(StoreError::Limit("log sequence exhausted".to_string()));
        }
        let mut ep = Epoch::new();
        std::mem::swap(&mut self.epoch, &mut ep);
        let tx = self.begin_tx();
        let ghost t0 = tx;
        proof {
            lemma_begun(was, t0);
            assert(begun(was, t0));
        }
        let staged = Store::stage_rename(&mut ep, &tx, src_parent, src_name, dst_parent, dst_name, now);
        self.epoch = ep;
        let (v, records) = match staged {
            Ok(o) => o,
            Err(e) => {
                return Err(e);
            },
        };
        let counted: bool = records.len() > 0;
        if counted && self.epoch_pending < u64::MAX {
            self.epoch_pending = self.epoch_pending + 1;
        }
        let ghost mid = *self;
        proof {
            assert(mid.disk() == was.disk());
        }
        if counted {
            match self.epoch_append(&records, hooks) {
                Ok(_) => {},
                Err(e) => {
                    proof {
                        assert(op_staged(was, mid, t0, records@));
                        assert(rename_recorded(t0, was.epoch, mid.epoch, records@, src_parent, src_name@, dst_parent, dst_name@, now, v));
                    }
                    return Err(e);
                },
            }
        }
        proof {
            assert(op_logged(was, *self, t0, records@));
            assert(rename_recorded(t0, was.epoch, self.epoch, records@, src_parent, src_name@, dst_parent, dst_name@, now, v));
        }
        Ok(v)
    }

    /// Rename an entry through the log, over an existing one where there is one. A name
    /// renamed onto itself is no operation. The epoch is closed where it has accumulated too many
    /// operations.
    pub fn epoch_rename(
        &mut self,
        src_parent: u64,
        src_name: &[u8],
        dst_parent: u64,
        dst_name: &[u8],
        now: Timespec,
        hooks: &CrashHooks,
        space: &Space,
    ) -> (r: Result<RenameOutcome, StoreError>)
        requires
            old(self).ready(),
            time_ok(now),
        ensures
            match r {
                Ok(out) => exists|mid: Store<B>| #[trigger]
                    rename_logged(*old(self), mid, src_parent, src_name@, dst_parent, dst_name@, now, out) && closed_when_full(mid, *final(self)),
                Err(e) => {
                    ||| rename_unlogged(*old(self), *final(self), e, *hooks, src_parent, src_name@, dst_parent, dst_name@, now)
                    ||| exists|mid: Store<B>, out: RenameOutcome| #[trigger]
                        rename_logged(*old(self), mid, src_parent, src_name@, dst_parent, dst_name@, now, out) && #[trigger] close_failed(
                            mid,
                            *final(self),
                            e,
                            *space,
                        )
                },
            },
    {
        let v = match self.log_rename(src_parent, src_name, dst_parent, dst_name, now, hooks) {
            Ok(v) => v,
            Err(e) => return Err(e),
        };
        let ghost mid = *self;
        assert(rename_logged(*old(self), mid, src_parent, src_name@, dst_parent, dst_name@, now, v));
        match self.maybe_checkpoint_epoch(space) {
            Ok(_) => Ok(v),
            Err(e) => Err(e),
        }
    }

    /// Stage the write and append its records to the log.
    #[verifier::rlimit(60)]
    #[verifier::spinoff_prover]
    fn log_write(
        &mut self,
        ino: u64,
        updates: &Vec<ExtentUpdate>,
        end: u64,
        hooks: &CrashHooks,
    ) -> (r: Result<(), StoreError>)
        requires
            old(self).ready(),
            updates@.len() <= MAX_CHUNKS,
            updates_fit(updates@),
        ensures
            match r {
                Ok(_) => write_logged(*old(self), *final(self), ino, updates@, end),
                Err(e) => write_unlogged(*old(self), *final(self), e, *hooks, ino, updates@, end),
            },
    {
        let ghost was = *self;
        if self.epoch.seq == u64::MAX {
            return Err(StoreError::Limit("log sequence exhausted".to_string()));
        }
        let mut ep = Epoch::new();
        std::mem::swap(&mut self.epoch, &mut ep);
        let tx = self.begin_tx();
        let ghost t0 = tx;
        proof {
            lemma_begun(was, t0);
            assert(begun(was, t0));
        }
        let staged = Store::stage_write(&mut ep, &tx, ino, updates, end);
        self.epoch = ep;
        let records = match staged {
            Ok(o) => o,
            Err(e) => {
                return Err(e);
            },
        };
        let counted: bool = records.len() > 0;
        if counted && self.epoch_pending < u64::MAX {
            self.epoch_pending = self.epoch_pending + 1;
        }
        let ghost mid = *self;
        proof {
            assert(mid.disk() == was.disk());
        }
        if counted {
            match self.epoch_append(&records, hooks) {
                Ok(_) => {},
                Err(e) => {
                    proof {
                        assert(op_staged(was, mid, t0, records@));
                        assert(write_recorded(t0, was.epoch, mid.epoch, records@, ino, updates@, end));
                    }
                    return Err(e);
                },
            }
        }
        proof {
            assert(op_logged(was, *self, t0, records@));
            assert(write_recorded(t0, was.epoch, self.epoch, records@, ino, updates@, end));
        }
        Ok(())
    }

    /// Write extents through the log; the file reaches at least to `end`. The epoch is closed where it has accumulated too many
    /// operations.
    pub fn epoch_write(
        &mut self,
        ino: u64,
        updates: &Vec<ExtentUpdate>,
        end: u64,
        hooks: &CrashHooks,
        space: &Space,
    ) -> (r: Result<(), StoreError>)
        requires
            old(self).ready(),
            updates@.len() <= MAX_CHUNKS,
            updates_fit(updates@),
        ensures
            match r {
                Ok(_) => exists|mid: Store<B>| #[trigger]
                    write_logged(*old(self), mid, ino, updates@, end) && closed_when_full(mid, *final(self)),
                Err(e) => {
                    ||| write_unlogged(*old(self), *final(self), e, *hooks, ino, updates@, end)
                    ||| exists|mid: Store<B>| #[trigger]
                        write_logged(*old(self), mid, ino, updates@, end) && #[trigger] close_failed(
                            mid,
                            *final(self),
                            e,
                            *space,
                        )
                },
            },
    {
        let v = match self.log_write(ino, updates, end, hooks) {
            Ok(v) => v,
            Err(e) => return Err(e),
        };
        let ghost mid = *self;
        assert(write_logged(*old(self), mid, ino, updates@, end));
        match self.maybe_checkpoint_epoch(space) {
            Ok(_) => Ok(v),
            Err(e) => Err(e),
        }
    }
}

/// What an operation through the log starts from: whole trees under an overlay in order.
pub open spec fn loggable<B: IoBackend>(a: Store<B>, h: nat) -> bool {
    &&& a.whole(h)
    &&& clash_free(a.seen@)
    &&& BTREE_ORDER <= a.config.max_fanout
    &&& overlay_ok(a.ns(), a.epoch@)
    &&& listing(a.objects(), a.root@.inode_index_root, a.config.max_fanout).len() <= usize::MAX
}

/// A later operation sees the earlier ones of its epoch: a name that was removed and
/// created again is looked up as the new entry, and so it is in the trees once the epoch
/// is merged.
pub proof fn recreated_is_looked_up<B: IoBackend>(
    a: Store<B>,
    b: Store<B>,
    c: Store<B>,
    d: Store<B>,
    parent: u64,
    name: Seq<u8>,
    rmdir: bool,
    entry: NewEntry,
    now: Timespec,
    child: u64,
    ino: u64,
    h: nat,
)
    requires
        unlink_logged(a, b, parent, name, rmdir, now, child),
        b.ready(),
        loggable(b, h),
        create_logged(b, c, parent, name, entry, now, ino),
    ensures
        entry_over(c.ns(), c.epoch@, parent, name) == Some(
            DirEntry { ino, d_type: entry_type(entry.kind) },
        ),
        merged(c, d) && checkpointable(c, d, h) ==> has_dir(d.ns(), parent) && entry_at(
            d.ns()[parent].entries,
            name,
        ) == Some(DirEntry { ino, d_type: entry_type(entry.kind) }),
{
    let e = DirEntry { ino, d_type: entry_type(entry.kind) };
    let (tx, records) = choose|tx: Tx<B>, records: Seq<PendingRecord>| #[trigger]
        op_logged(b, c, tx, records) && create_recorded(
            tx,
            b.epoch,
            c.epoch,
            records,
            parent,
            name,
            entry,
            now,
            ino,
        );
    lemma_clash_free_subset(b.given@, b.seen@);
    lemma_given(b.objects(), b.given@);
    assert(overlays(tx, b.epoch, h) && countable(tx));
    lemma_ns_at(tx.objects.payloads(), tx.root.inode_index_root@, tx.max_fanout, h, parent);
    if merged(c, d) && checkpointable(c, d, h) {
        let n = c.ns();
        let o = c.epoch@;
        let s = d.ns()[parent].entries;
        assert(shown(n, o, parent));
        assert(slot(n, o, parent, name) == Some(entry_bytes(e)));
        assert(overlaid(n, o).contains_key(parent));
        assert(faces(d.ns()).contains_key(parent));
        assert(faces(d.ns())[parent] == overlaid(n, o)[parent]);
        assert(mapped(s) == shown_entries(n, o, parent));
        assert(shown_entries(n, o, parent).contains_key(name));
        assert(lookup(s, name) == Some(entry_bytes(e))) by {
            assert(mapped(s).contains_key(name));
            assert(mapped(s)[name] == shown_entries(n, o, parent)[name]);
        }
        entry_round_trip(e);
        assert(d.ns()[parent].inode == shown_inode(n, o, parent));
    }
}

} // verus!
