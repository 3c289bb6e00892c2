//! Operations of the active epoch: each is checked against the overlay, staged
//! into it and recorded in the log. No tree is touched.

use vstd::prelude::*;

use crate::attrs::{attrs_set, update_ok, AttrUpdate};
use crate::bytes::{bytes_equal, copy_bytes};
use crate::chunk::{digest, ChunkId};
use crate::directory::DirEntry;
use crate::epoch::{base_entries, lemma_at, shown, shown_inode, Epoch, Overlay};
use crate::descriptor::self_alias;
use crate::error::StoreError;
use crate::extent_tree::extent_key_of;
use crate::extents::{updates_fit, ExtentUpdate, ObjectKind};
use crate::fs::{rootless, Namespace};
use crate::index::ObjectProvider;
use crate::inode::{inode_bytes, inode_ok, Inode, InodeData, InodeView, Timespec};
use crate::io::IoBackend;
use crate::log::{chunk_ok, chunk_views, envelope_bytes, op_ok, MutationOp, OpView, MAX_CHUNKS};
use crate::namespace::{entry_fits, entry_inode, entry_type, is_dir, one_less, one_more, strained,
    time_ok, valid_name, EntryKind, NewEntry, RenameOutcome};
use crate::object::ObjectIndex;
use crate::overlay::{base_not_dir, dir_shown, dir_views, entry_over, file_shown, fits_memory, kind_kept, overlay_ok, overlays};
use crate::paths::{countable, tops};
use crate::sorted::{has_key, lookup, rank};
use crate::store::Store;
use crate::transaction::{PendingRecord, Tx};
use crate::version::RecordTag;

verus! {

// ---------------------------------------------------------------------------
// Staging objects
// ---------------------------------------------------------------------------

/// An earlier operation of the epoch staged the object.
pub open spec fn staged(ep: Epoch, id: Seq<u8>) -> bool {
    lookup(ep.staged_objects@, id) is Some
}

/// Some record has the object.
pub open spec fn recorded_in(records: Seq<PendingRecord>, id: Seq<u8>) -> bool {
    exists|i: int| 0 <= i < records.len() && digest((#[trigger] records[i]).payload@) == id
}

/// None of the records is one of the log.
pub open spec fn plain(records: Seq<PendingRecord>) -> bool {
    forall|i: int| 0 <= i < records.len() ==> (#[trigger] records[i]).tag != RecordTag::MutationLog
}

/// Every object that was staged since `was` has a record.
pub open spec fn records_cover(was: Epoch, now: Epoch, records: Seq<PendingRecord>) -> bool {
    forall|id: Seq<u8>| #[trigger] staged(now, id) ==> staged(was, id) || recorded_in(records, id)
}

/// The object will be found at recovery: it is committed, or staged by the
/// epoch.
pub open spec fn reachable(ep: Epoch, index: ObjectIndex, id: Seq<u8>) -> bool {
    index.wf() ==> has_key(index@, id) || staged(ep, id)
}

/// Only what is staged differs.
pub open spec fn only_staged(a: Epoch, b: Epoch) -> bool {
    &&& a@ == b@
    &&& a.seq == b.seq
    &&& a.max_ino == b.max_ino
    &&& a.feature_persisted == b.feature_persisted
    &&& forall|id: Seq<u8>| #[trigger] staged(a, id) ==> staged(b, id)
}

proof fn lemma_recorded_push(records: Seq<PendingRecord>, rec: PendingRecord, id: Seq<u8>)
    ensures
        recorded_in(records, id) ==> recorded_in(records.push(rec), id),
        digest(rec.payload@) == id ==> recorded_in(records.push(rec), id),
{
    let r = records.push(rec);
    if recorded_in(records, id) {
        let i = choose|i: int|
            0 <= i < records.len() && digest((#[trigger] records[i]).payload@) == id;
        assert(r[i] == records[i]);
    }
    assert(r[records.len() as int] == rec);
}

/// Stage an object record, unless the epoch staged the object before or it is
/// committed.
pub fn epoch_stage(
    ep: &mut Epoch,
    index: &ObjectIndex,
    records: &mut Vec<PendingRecord>,
    tag: RecordTag,
    payload: Vec<u8>,
    materialized_len: Option<u64>,
) -> (r: ChunkId)
    requires
        old(ep).wf(),
    ensures
        final(ep).wf(),
        only_staged(*old(ep), *final(ep)),
        r@ == digest(payload@),
        reachable(*final(ep), *index, r@),
        forall|was: Epoch| #[trigger]
            records_cover(was, *old(ep), old(records)@) ==> records_cover(
                was,
                *final(ep),
                final(records)@,
            ),
        tag != RecordTag::MutationLog && plain(old(records)@) ==> plain(final(records)@),
        final(records)@.len() >= old(records)@.len(),
        index.wf() && (staged(*old(ep), r@) || has_key(index@, r@)) ==> final(records)@ == old(records)@,
        index.wf() && !(staged(*old(ep), r@) || has_key(index@, r@)) ==> {
            &&& final(records)@.len() == old(records)@.len() + 1
            &&& final(records)@.drop_last() == old(records)@
            &&& final(records)@.last().tag == tag
            &&& final(records)@.last().payload@ == payload@
            &&& final(records)@.last().materialized_len == materialized_len
        },
{
    let id = ChunkId::of(&payload);
    if ep.is_staged(&id) || index.contains(&id) {
        return id;
    }
    let ghost was = *ep;
    let ghost had = records@;
    ep.mark_staged(id);
    ep.staged_payloads.insert(copy_bytes(id.as_slice()), copy_bytes(&payload));
    let rec = PendingRecord { tag, payload, materialized_len };
    let ghost added = rec;
    records.push(rec);
    proof {
        assert(ep@ == was@);
        let now = *ep;
        assert forall|w: Epoch| #[trigger] records_cover(w, was, had) implies records_cover(
            w,
            now,
            records@,
        ) by {
            assert forall|i: Seq<u8>| #[trigger] staged(now, i) implies staged(w, i)
                || recorded_in(records@, i) by {
                lemma_recorded_push(had, added, i);
                if staged(was, i) {
                }
            }
        }
        assert(records@.drop_last() =~= had);
    }
    id
}

/// Stage an inode object.
fn stage_inode(ep: &mut Epoch, index: &ObjectIndex, records: &mut Vec<PendingRecord>, inode: &Inode) -> (r:
    ChunkId)
    requires
        old(ep).wf(),
        inode_ok(inode@),
    ensures
        final(ep).wf(),
        only_staged(*old(ep), *final(ep)),
        r@ == digest(inode_bytes(inode@)),
        reachable(*final(ep), *index, r@),
        forall|was: Epoch| #[trigger]
            records_cover(was, *old(ep), old(records)@) ==> records_cover(
                was,
                *final(ep),
                final(records)@,
            ),
        plain(old(records)@) ==> plain(final(records)@),
{
    epoch_stage(ep, index, records, RecordTag::Inode, inode.encode(), None)
}

/// The last record is the op's envelope under the epoch's sequence number, and no other is
/// one of the log.
pub open spec fn logged(records: Seq<PendingRecord>, seq: u64, op: OpView) -> bool {
    &&& records.len() > 0
    &&& records.last().tag == RecordTag::MutationLog
    &&& records.last().payload@ == envelope_bytes(seq, op)
    &&& records.last().materialized_len is None
    &&& plain(records.drop_last())
    &&& op_ok(op)
}

/// Append the op's envelope under the next sequence number.
fn log_op(ep: &mut Epoch, records: &mut Vec<PendingRecord>, op: &MutationOp)
    requires
        old(ep).wf(),
        op_ok(op@),
        old(ep).seq < u64::MAX,
        plain(old(records)@),
    ensures
        final(ep).wf(),
        final(ep)@ == old(ep)@,
        *final(ep) == (Epoch { seq: (old(ep).seq + 1) as u64, ..*old(ep) }),
        logged(final(records)@, final(ep).seq, op@),
        forall|was: Epoch| #[trigger]
            records_cover(was, *old(ep), old(records)@) ==> records_cover(
                was,
                *final(ep),
                final(records)@,
            ),
{
    let ghost was = *ep;
    let ghost had = records@;
    let env = ep.envelope(op);
    let rec = PendingRecord { tag: RecordTag::MutationLog, payload: env, materialized_len: None };
    let ghost added = rec;
    records.push(rec);
    proof {
        assert(records@.drop_last() =~= had);
        let now = *ep;
        assert forall|w: Epoch| #[trigger] records_cover(w, was, had) implies records_cover(
            w,
            now,
            records@,
        ) by {
            assert forall|i: Seq<u8>| #[trigger] staged(now, i) implies staged(w, i)
                || recorded_in(records@, i) by {
                lemma_recorded_push(had, added, i);
                assert(staged(was, i));
            }
        }
    }
}

// ---------------------------------------------------------------------------
// What operations start from
// ---------------------------------------------------------------------------

/// The inode of a number, with the tree ids that the epoch would read.
pub open spec fn inode_over<B: IoBackend>(tx: Tx<B>, o: Overlay, ino: u64) -> InodeView {
    if o.inodes.contains_key(ino) {
        o.inodes[ino]
    } else {
        tx.inode_of(ino)->0
    }
}

/// The numbers that the epoch has given out are above the committed ones, and
/// nothing pending is above them.
pub open spec fn numbered(n: Namespace, ep: Epoch) -> bool {
    &&& ep.max_ino != 0 ==> forall|i: u64| #[trigger] n.contains_key(i) ==> i <= ep.max_ino
    &&& forall|i: u64| #[trigger]
        ep@.inodes.contains_key(i) ==> n.contains_key(i) || i <= ep.max_ino
    &&& forall|i: u64| #[trigger] ep@.gone.contains(i) ==> n.contains_key(i) || i <= ep.max_ino
}

/// The number that a create gets: above all numbers in use.
pub open spec fn next_number(n: Namespace, ep: Epoch, ino: u64) -> bool {
    if ep.max_ino == 0 {
        ino > 0 && tops(n, (ino - 1) as u64)
    } else {
        ino == ep.max_ino + 1
    }
}

/// No number is left.
pub open spec fn numbers_full(n: Namespace, ep: Epoch) -> bool {
    if ep.max_ino == 0 {
        tops(n, u64::MAX)
    } else {
        ep.max_ino == u64::MAX
    }
}

// ---------------------------------------------------------------------------
// Create
// ---------------------------------------------------------------------------

/// No entry can be created: the name is not valid, the parent is no directory,
/// or the name is taken.
pub open spec fn create_over_refused(n: Namespace, o: Overlay, parent: u64, name: Seq<u8>) -> bool {
    ||| !valid_name(name)
    ||| !dir_shown(n, o, parent)
    ||| entry_over(n, o, parent, name) is Some
}

/// A parent whose entries change: its time, and its links.
pub open spec fn parent_touched(v: InodeView, nlink: u32, now: Timespec) -> InodeView {
    InodeView { mtime: now, nlink, ..v }
}

/// The overlay with a new entry.
pub open spec fn create_staged(
    o: Overlay,
    parent: u64,
    name: Seq<u8>,
    ino: u64,
    d_type: u8,
    inode: InodeView,
    parent_inode: InodeView,
) -> Overlay {
    Overlay {
        inodes: o.inodes.insert(ino, inode).insert(parent, parent_inode),
        names: o.names.insert((parent, name), DirEntry { ino, d_type }),
        cuts: o.cuts.remove((parent, name)),
        ..o
    }
}

/// The parent's inode after a create.
pub open spec fn create_parent(v: InodeView, kind: EntryKind, now: Timespec) -> InodeView {
    parent_touched(
        v,
        if kind is Directory {
            one_more(v.nlink)
        } else {
            v.nlink
        },
        now,
    )
}

/// The directory inode of a number, seen through the epoch.
fn find_dir_epoch<B: IoBackend>(ep: &Epoch, tx: &Tx<'_, B>, ino: u64) -> (r: Result<
    Inode,
    StoreError,
>)
    requires
        ep.wf(),
    ensures
        r matches Ok(v) ==> inode_ok(v@) && v.data is Directory,
        forall|h: nat| #[trigger]
            tx.reads(h) ==> match r {
                Ok(v) => dir_shown(tx.ns(), ep@, ino) && v@ == inode_over(*tx, ep@, ino)
                    && rootless(v@) == shown_inode(tx.ns(), ep@, ino),
                Err(_) => strained(*tx, h) || !dir_shown(tx.ns(), ep@, ino),
            },
{
    match Store::get_inode_epoch(ep, tx, ino) {
        Ok(Some(v)) => match &v.data {
            InodeData::Directory { .. } => Ok(v),
            _ => Err(StoreError::Invariant("not a directory".to_string())),
        },
        Ok(None) => Err(StoreError::Invariant("parent missing".to_string())),
        Err(e) => Err(e),
    }
}

impl<B: IoBackend> Store<B> {
    /// The number for a create.
    fn next_ino(ep: &Epoch, tx: &Tx<'_, B>) -> (r: Result<u64, StoreError>)
        ensures
            forall|h: nat| #[trigger]
                tx.reads(h) && countable(*tx) ==> match r {
                    Ok(ino) => next_number(tx.ns(), *ep, ino),
                    Err(_) => strained(*tx, h) || numbers_full(tx.ns(), *ep),
                },
            r matches Ok(ino) ==> ino > 0,
            ep.max_ino != 0 ==> match r {
                Ok(ino) => ino == ep.max_ino + 1,
                Err(_) => ep.max_ino == u64::MAX,
            },
    {
        if ep.max_ino == 0 {
            match Self::alloc_ino_in_tx(tx) {
                Ok(ino) => if ino == 0 {
                    Err(StoreError::Limit("no inode number left".to_string()))
                } else {
                    Ok(ino)
                },
                Err(e) => Err(e),
            }
        } else if ep.max_ino == u64::MAX {
            Err(StoreError::Limit("no inode number left".to_string()))
        } else {
            Ok(ep.max_ino + 1)
        }
    }

    /// Create an entry in the epoch: the inode objects and the record of the
    /// operation are staged, and the overlay shows the entry.
    #[verifier::rlimit(60)]
    #[verifier::spinoff_prover]
    pub fn stage_create(
        ep: &mut Epoch,
        tx: &Tx<'_, B>,
        parent: u64,
        name: &[u8],
        entry: &NewEntry,
        now: Timespec,
    ) -> (r: Result<(u64, Vec<PendingRecord>), StoreError>)
        requires
            old(ep).wf(),
            old(ep).seq < u64::MAX,
            time_ok(now),
            entry_fits(*entry),
        ensures
            final(ep).wf(),
            r is Err ==> *final(ep) == *old(ep),
            r matches Ok(o) ==> records_cover(*old(ep), *final(ep), o.1@) && final(ep).seq
                == old(ep).seq + 1 && final(ep).max_ino == o.0,
            forall|h: nat| #[trigger]
                overlays(*tx, *old(ep), h) && countable(*tx) ==> match r {
                    Ok((ino, records)) => {
                        let v = entry_inode(*entry, now);
                        let pv = create_parent(inode_over(*tx, old(ep)@, parent), entry.kind, now);
                        &&& !create_over_refused(tx.ns(), old(ep)@, parent, name@)
                        &&& next_number(tx.ns(), *old(ep), ino)
                        &&& final(ep)@ == create_staged(
                            old(ep)@,
                            parent,
                            name@,
                            ino,
                            entry_type(entry.kind),
                            v,
                            pv,
                        )
                        &&& logged(
                            records@,
                            final(ep).seq,
                            OpView::Create {
                                parent,
                                name: name@,
                                ino,
                                d_type: entry_type(entry.kind),
                                inode_id: digest(inode_bytes(v)),
                                parent_inode_id: digest(inode_bytes(pv)),
                            },
                        )
                        &&& reachable(*final(ep), *tx.objects.index, digest(inode_bytes(v)))
                        &&& reachable(*final(ep), *tx.objects.index, digest(inode_bytes(pv)))
                    },
                    Err(_) => {
                        ||| strained(*tx, h)
                        ||| create_over_refused(tx.ns(), old(ep)@, parent, name@)
                        ||| numbers_full(tx.ns(), *old(ep))
                    },
                },
    {
        let ghost was = *ep;
        if !Self::validate_name(name) {
            return Err(StoreError::Config("invalid entry name".to_string()));
        }
        proof {
            assert forall|h: nat| #[trigger] overlays(*tx, was, h) implies tx.reads(h) by {}
        }
        let pin = match find_dir_epoch(ep, tx, parent) {
            Ok(v) => v,
            Err(e) => return Err(e),
        };
        match Self::dir_lookup_epoch(ep, tx, parent, name) {
            Ok(Some(_)) => {
                return Err(StoreError::Invariant("entry already exists".to_string()));
            },
            Ok(None) => {},
            Err(e) => {
                proof {
                    assert forall|h: nat| #[trigger] overlays(*tx, was, h) implies strained(*tx, h)
                        || !dir_shown(tx.ns(), was@, parent) by {
                        lemma_base_dir(*tx, was, h, parent);
                    }
                }
                return Err(e);
            },
        }
        let ino: u64 = match Self::next_ino(ep, tx) {
            Ok(v) => v,
            Err(e) => return Err(e),
        };
        let inode = entry.inode(now);
        let d_type: u8 = entry.d_type();
        let mut pin = pin;
        pin.mtime = now;
        match &entry.kind {
            EntryKind::Directory => {
                pin.nlink = pin.nlink.saturating_add(1);
            },
            _ => {},
        }
        let mut records: Vec<PendingRecord> = Vec::new();
        assert(records_cover(was, *ep, records@));
        let inode_id = stage_inode(ep, tx.objects.index, &mut records, &inode);
        let ghost e1 = *ep;
        let parent_inode_id = stage_inode(ep, tx.objects.index, &mut records, &pin);
        let ghost e2 = *ep;
        assert(staged(e1, inode_id@) ==> staged(e2, inode_id@));
        ep.put_inode(ino, inode);
        ep.put_inode(parent, pin);
        ep.bind_entry(parent, name, DirEntry { ino, d_type });
        ep.max_ino = ino;
        let ghost e3 = *ep;
        proof {
            assert(e3@.inodes == create_staged(
                was@,
                parent,
                name@,
                ino,
                d_type,
                inode@,
                pin@,
            ).inodes);
            assert(e3.staged_objects == e2.staged_objects);
            assert forall|id: Seq<u8>| #[trigger] staged(e3, id) == staged(e2, id) by {}
            assert(records_cover(was, e3, records@)) by {
                assert(records_cover(was, e2, records@));
                assert forall|id: Seq<u8>| #[trigger] staged(e3, id) implies staged(was, id)
                    || recorded_in(records@, id) by {
                    assert(staged(e2, id));
                }
            }
        }
        let op = MutationOp::Create {
            parent,
            name: copy_bytes(name),
            ino,
            d_type,
            inode_id,
            parent_inode_id,
        };
        log_op(ep, &mut records, &op);
        proof {
            let e4 = *ep;
            assert forall|id: Seq<u8>| #[trigger] staged(e4, id) == staged(e3, id) by {}
            assert(staged(e4, inode_id@) == staged(e2, inode_id@));
            assert(staged(e4, parent_inode_id@) == staged(e2, parent_inode_id@));
        }
        Ok((ino, records))
    }
}

/// A directory that is shown has a directory below it, or nothing.
pub proof fn lemma_base_dir<B: IoBackend>(tx: Tx<B>, ep: Epoch, h: nat, ino: u64)
    requires
        overlays(tx, ep, h),
        dir_shown(tx.ns(), ep@, ino),
    ensures
        !crate::overlay::base_not_dir(tx.ns(), ino),
{
    if ep@.inodes.contains_key(ino) {
        assert(crate::overlay::kind_kept(tx.ns(), ep@, ino));
    }
}

/// A name is bound or unbound in directories only.
pub proof fn lemma_bound_dir(n: Namespace, o: Overlay, dir: u64, name: Seq<u8>)
    requires
        overlay_ok(n, o),
    ensures
        o.names.contains_key((dir, name)) || o.cuts.contains((dir, name)) ==> !base_not_dir(n, dir),
{
    if o.names.contains_key((dir, name)) || o.cuts.contains((dir, name)) {
        assert(o.inodes.contains_key(dir));
        assert(kind_kept(n, o, dir));
    }
}

/// What is staged is the same.
proof fn lemma_staged_same(was: Epoch, a: Epoch, b: Epoch, records: Seq<PendingRecord>)
    requires
        a.staged_objects == b.staged_objects,
        records_cover(was, a, records),
    ensures
        records_cover(was, b, records),
        forall|id: Seq<u8>| #[trigger] staged(b, id) == staged(a, id),
{
    assert forall|id: Seq<u8>| #[trigger] staged(b, id) implies staged(was, id) || recorded_in(
        records,
        id,
    ) by {
        assert(staged(a, id));
    }
}

// ---------------------------------------------------------------------------
// Attributes
// ---------------------------------------------------------------------------

/// The overlay with other metadata for a number.
pub open spec fn inode_staged(o: Overlay, ino: u64, v: InodeView) -> Overlay {
    Overlay { inodes: o.inodes.insert(ino, v), ..o }
}

impl<B: IoBackend> Store<B> {
    /// Update attributes other than the size in the epoch.
    #[verifier::rlimit(40)]
    pub fn stage_setattr(
        ep: &mut Epoch,
        tx: &Tx<'_, B>,
        ino: u64,
        update: &AttrUpdate,
        now: Timespec,
    ) -> (r: Result<(Inode, Vec<PendingRecord>), StoreError>)
        requires
            old(ep).wf(),
            old(ep).seq < u64::MAX,
            time_ok(now),
            update_ok(*update),
            update.size is None,
        ensures
            final(ep).wf(),
            r is Err ==> *final(ep) == *old(ep),
            r matches Ok(o) ==> records_cover(*old(ep), *final(ep), o.1@) && final(ep).seq
                == old(ep).seq + 1 && final(ep).max_ino == old(ep).max_ino,
            forall|h: nat| #[trigger]
                overlays(*tx, *old(ep), h) ==> match r {
                    Ok((inode, records)) => {
                        let v = attrs_set(inode_over(*tx, old(ep)@, ino), *update, now);
                        &&& shown(tx.ns(), old(ep)@, ino)
                        &&& inode@ == v
                        &&& final(ep)@ == inode_staged(old(ep)@, ino, v)
                        &&& logged(
                            records@,
                            final(ep).seq,
                            OpView::Setattr { ino, inode_id: digest(inode_bytes(v)) },
                        )
                        &&& reachable(*final(ep), *tx.objects.index, digest(inode_bytes(v)))
                    },
                    Err(_) => strained(*tx, h) || !shown(tx.ns(), old(ep)@, ino),
                },
    {
        let ghost was = *ep;
        proof {
            assert forall|h: nat| #[trigger] overlays(*tx, was, h) implies tx.reads(h) by {}
        }
        let mut inode = match Self::get_inode_epoch(ep, tx, ino) {
            Ok(Some(v)) => v,
            Ok(None) => return Err(StoreError::Invariant("inode missing".to_string())),
            Err(e) => return Err(e),
        };
        inode.set_attrs(update, now);
        let mut records: Vec<PendingRecord> = Vec::new();
        assert(records_cover(was, *ep, records@));
        let inode_id = stage_inode(ep, tx.objects.index, &mut records, &inode);
        let ghost e1 = *ep;
        ep.put_inode(ino, inode.copy());
        let ghost e2 = *ep;
        proof {
            lemma_staged_same(was, e1, e2, records@);
        }
        let ghost mid = records@;
        log_op(ep, &mut records, &MutationOp::Setattr { ino, inode_id });
        proof {
            let e3 = *ep;
            lemma_staged_same(was, e2, e3, mid);
            assert(staged(e1, inode_id@) ==> staged(e3, inode_id@));
        }
        Ok((inode, records))
    }
}

// ---------------------------------------------------------------------------
// Unlink
// ---------------------------------------------------------------------------

/// What a name stands for, seen through the overlay.
pub open spec fn child_over(n: Namespace, o: Overlay, parent: u64, name: Seq<u8>) -> u64 {
    entry_over(n, o, parent, name)->0.ino
}

/// A directory with entries, seen through the overlay.
pub open spec fn occupied_over(n: Namespace, o: Overlay, dir: u64) -> bool {
    exists|k: Seq<u8>| #[trigger] entry_over(n, o, dir, k) is Some
}

/// An entry cannot be removed: the name is not valid, there is no such entry, it
/// is of the other type, or a directory with entries.
pub open spec fn unlink_over_refused(
    n: Namespace,
    o: Overlay,
    parent: u64,
    name: Seq<u8>,
    rmdir: bool,
) -> bool {
    let child = child_over(n, o, parent, name);
    ||| !valid_name(name)
    ||| base_not_dir(n, parent)
    ||| entry_over(n, o, parent, name) is None
    ||| !shown(n, o, child)
    ||| !shown(n, o, parent)
    ||| rmdir != is_dir(shown_inode(n, o, child))
    ||| rmdir && (base_not_dir(n, child) || occupied_over(n, o, child))
}

/// The links that are left to an unlinked inode; `None` where it goes.
pub open spec fn link_left(v: InodeView, rmdir: bool) -> Option<InodeView> {
    if rmdir || one_less(v.nlink) == 0 {
        None
    } else {
        Some(InodeView { nlink: one_less(v.nlink), ..v })
    }
}

/// The overlay with what is left of an unlinked inode.
pub open spec fn child_staged(o: Overlay, ino: u64, left: Option<InodeView>) -> Overlay {
    match left {
        Some(v) => Overlay { inodes: o.inodes.insert(ino, v), ..o },
        None => Overlay { gone: o.gone.insert(ino), ..o },
    }
}

/// The overlay without an entry.
pub open spec fn unlink_staged(
    o: Overlay,
    parent: u64,
    name: Seq<u8>,
    child: u64,
    left: Option<InodeView>,
    parent_inode: InodeView,
) -> Overlay {
    let c = child_staged(o, child, left);
    Overlay {
        inodes: c.inodes.insert(parent, parent_inode),
        names: c.names.remove((parent, name)),
        cuts: c.cuts.insert((parent, name)),
        ..c
    }
}

/// The parent's inode after an unlink.
pub open spec fn unlink_parent(v: InodeView, rmdir: bool, now: Timespec) -> InodeView {
    parent_touched(
        v,
        if rmdir {
            one_less(v.nlink)
        } else {
            v.nlink
        },
        now,
    )
}

pub open spec fn opt_digest(v: Option<InodeView>) -> Option<Seq<u8>> {
    match v {
        Some(v) => Some(digest(inode_bytes(v))),
        None => None,
    }
}

/// Whether a directory has entries, seen through the epoch.
fn is_occupied_epoch<B: IoBackend>(ep: &Epoch, tx: &Tx<'_, B>, dir: u64) -> (r: Result<
    bool,
    StoreError,
>)
    requires
        ep.wf(),
    ensures
        forall|h: nat| #[trigger]
            tx.reads(h) && fits_memory(base_entries(tx.ns(), dir)) ==> match r {
                Ok(b) => b == occupied_over(tx.ns(), ep@, dir) && !base_not_dir(tx.ns(), dir),
                Err(_) => strained(*tx, h) || base_not_dir(tx.ns(), dir),
            },
{
    match Store::read_dir_epoch(ep, tx, dir) {
        Ok(v) => {
            proof {
                let s = dir_views(v@);
                assert forall|h: nat| #[trigger] tx.reads(h) && fits_memory(
                    base_entries(tx.ns(), dir),
                ) implies (v@.len() > 0) == occupied_over(tx.ns(), ep@, dir) by {
                    if v@.len() > 0 {
                        lemma_at(s, 0);
                        assert(entry_over(tx.ns(), ep@, dir, s[0].0) is Some);
                    } else if occupied_over(tx.ns(), ep@, dir) {
                        let k = choose|k: Seq<u8>| #[trigger]
                            entry_over(tx.ns(), ep@, dir, k) is Some;
                        assert(lookup(s, k) is Some);
                        assert(rank(s, k) == 0);
                    }
                }
            }
            Ok(v.len() > 0)
        },
        Err(e) => Err(e),
    }
}

/// The overlay holds every directory in memory.
pub open spec fn holdable(n: Namespace) -> bool {
    forall|d: u64| #[trigger] n.contains_key(d) ==> fits_memory(n[d].entries)
}

impl<B: IoBackend> Store<B> {
    /// What an unlink in the epoch acts on: the child's number and inode, and
    /// the parent's inode.
    #[verifier::rlimit(40)]
    fn plan_epoch_unlink(ep: &Epoch, tx: &Tx<'_, B>, parent: u64, name: &[u8], rmdir: bool) -> (r:
        Result<(u64, Inode, Inode), StoreError>)
        requires
            ep.wf(),
        ensures
            r matches Ok(o) ==> inode_ok(o.1@) && inode_ok(o.2@) && is_dir(o.1@) == rmdir
                && valid_name(name@),
            forall|h: nat| #[trigger]
                overlays(*tx, *ep, h) && holdable(tx.ns()) ==> match r {
                    Ok((child, target, pin)) => {
                        &&& !unlink_over_refused(tx.ns(), ep@, parent, name@, rmdir)
                        &&& child == child_over(tx.ns(), ep@, parent, name@)
                        &&& target@ == inode_over(*tx, ep@, child)
                        &&& pin@ == inode_over(*tx, ep@, parent)
                    },
                    Err(_) => strained(*tx, h) || unlink_over_refused(
                        tx.ns(),
                        ep@,
                        parent,
                        name@,
                        rmdir,
                    ),
                },
    {
        if !Self::validate_name(name) {
            return Err(StoreError::Config("invalid entry name".to_string()));
        }
        proof {
            assert forall|h: nat| #[trigger] overlays(*tx, *ep, h) && holdable(
                tx.ns(),
            ) implies tx.reads(h) && (forall|d: u64|
                fits_memory(#[trigger] base_entries(tx.ns(), d))) by {}
        }
        let entry = match Self::dir_lookup_epoch(ep, tx, parent, name) {
            Ok(Some(e)) => e,
            Ok(None) => return Err(StoreError::Invariant("no such entry".to_string())),
            Err(e) => return Err(e),
        };
        proof {
            assert forall|h: nat| #[trigger] overlays(*tx, *ep, h) implies !base_not_dir(
                tx.ns(),
                parent,
            ) by {
                lemma_bound_dir(tx.ns(), ep@, parent, name@);
            }
        }
        let target = match Self::get_inode_epoch(ep, tx, entry.ino) {
            Ok(Some(v)) => v,
            Ok(None) => return Err(StoreError::Invariant("target inode missing".to_string())),
            Err(e) => return Err(e),
        };
        if rmdir {
            if !target.is_dir() {
                return Err(StoreError::Invariant("not a directory".to_string()));
            }
            match is_occupied_epoch(ep, tx, entry.ino) {
                Ok(true) => {
                    return Err(StoreError::Invariant("directory not empty".to_string()));
                },
                Ok(false) => {},
                Err(e) => return Err(e),
            }
        } else if target.is_dir() {
            return Err(StoreError::Invariant("is a directory".to_string()));
        }
        let pin = match Self::get_inode_epoch(ep, tx, parent) {
            Ok(Some(v)) => v,
            Ok(None) => return Err(StoreError::Invariant("parent missing".to_string())),
            Err(e) => return Err(e),
        };
        Ok((entry.ino, target, pin))
    }

    /// Remove an entry in the epoch: a file or link (`rmdir` false), or an empty
    /// directory (`rmdir` true). The last link takes the inode with it.
    #[verifier::rlimit(60)]
    #[verifier::spinoff_prover]
    pub fn stage_unlink(
        ep: &mut Epoch,
        tx: &Tx<'_, B>,
        parent: u64,
        name: &[u8],
        rmdir: bool,
        now: Timespec,
    ) -> (r: Result<(u64, Vec<PendingRecord>), StoreError>)
        requires
            old(ep).wf(),
            old(ep).seq < u64::MAX,
            time_ok(now),
        ensures
            final(ep).wf(),
            r is Err ==> *final(ep) == *old(ep),
            r matches Ok(o) ==> records_cover(*old(ep), *final(ep), o.1@) && final(ep).seq
                == old(ep).seq + 1 && final(ep).max_ino == old(ep).max_ino,
            forall|h: nat| #[trigger]
                overlays(*tx, *old(ep), h) && holdable(tx.ns()) ==> match r {
                    Ok((child, records)) => {
                        let left = link_left(inode_over(*tx, old(ep)@, child), rmdir);
                        let pv = unlink_parent(inode_over(*tx, old(ep)@, parent), rmdir, now);
                        &&& !unlink_over_refused(tx.ns(), old(ep)@, parent, name@, rmdir)
                        &&& child == child_over(tx.ns(), old(ep)@, parent, name@)
                        &&& final(ep)@ == unlink_staged(old(ep)@, parent, name@, child, left, pv)
                        &&& logged(
                            records@,
                            final(ep).seq,
                            OpView::Unlink {
                                parent,
                                name: name@,
                                child,
                                is_dir: rmdir,
                                parent_inode_id: digest(inode_bytes(pv)),
                                child_inode_id: opt_digest(left),
                            },
                        )
                        &&& reachable(*final(ep), *tx.objects.index, digest(inode_bytes(pv)))
                        &&& left matches Some(v) ==> reachable(
                            *final(ep),
                            *tx.objects.index,
                            digest(inode_bytes(v)),
                        )
                    },
                    Err(_) => strained(*tx, h) || unlink_over_refused(
                        tx.ns(),
                        old(ep)@,
                        parent,
                        name@,
                        rmdir,
                    ),
                },
    {
        let ghost was = *ep;
        let (child, target, pin) = match Self::plan_epoch_unlink(ep, tx, parent, name, rmdir) {
            Ok(v) => v,
            Err(e) => return Err(e),
        };
        let ghost tv = target@;
        let ghost left = link_left(tv, rmdir);
        let mut pin = pin;
        pin.mtime = now;
        if rmdir {
            pin.nlink = pin.nlink.saturating_sub(1);
        }
        let mut records: Vec<PendingRecord> = Vec::new();
        assert(records_cover(was, *ep, records@));
        let parent_inode_id = stage_inode(ep, tx.objects.index, &mut records, &pin);
        let ghost e1 = *ep;
        let mut child_inode_id: Option<ChunkId> = None;
        let mut t = target;
        t.nlink = t.nlink.saturating_sub(1);
        let ghost mut e2 = *ep;
        if rmdir || t.nlink == 0 {
            ep.drop_inode(child);
            proof {
                e2 = *ep;
                lemma_staged_same(was, e1, e2, records@);
            }
        } else {
            let id = stage_inode(ep, tx.objects.index, &mut records, &t);
            let ghost m = *ep;
            child_inode_id = Some(id);
            ep.put_inode(child, t);
            proof {
                e2 = *ep;
                lemma_staged_same(was, m, e2, records@);
                assert(staged(e1, parent_inode_id@) ==> staged(m, parent_inode_id@));
            }
        }
        assert(ep@ == child_staged(was@, child, left));
        assert(crate::log::opt_id(child_inode_id) == opt_digest(left));
        ep.put_inode(parent, pin);
        ep.unbind_entry(parent, name);
        let ghost e3 = *ep;
        proof {
            lemma_staged_same(was, e2, e3, records@);
        }
        let ghost mid = records@;
        let op = MutationOp::Unlink {
            parent,
            name: copy_bytes(name),
            child,
            is_dir: rmdir,
            parent_inode_id,
            child_inode_id,
        };
        log_op(ep, &mut records, &op);
        proof {
            let e4 = *ep;
            lemma_staged_same(was, e3, e4, mid);
            assert(staged(e1, parent_inode_id@) ==> staged(e4, parent_inode_id@));
            if child_inode_id is Some {
                assert(staged(e2, child_inode_id->0@) ==> staged(e4, child_inode_id->0@));
            }
        }
        Ok((child, records))
    }
}

// ---------------------------------------------------------------------------
// Rename
// ---------------------------------------------------------------------------

/// The inode that a rename replaces, seen through the overlay.
pub open spec fn replaced_over(n: Namespace, o: Overlay, src: u64, dp: u64, dn: Seq<u8>) -> Option<
    u64,
> {
    match entry_over(n, o, dp, dn) {
        Some(d) => if d.ino == src {
            None
        } else {
            Some(d.ino)
        },
        None => None,
    }
}

/// A destination cannot be replaced: it has no inode, is of the other type, or a
/// directory with entries.
pub open spec fn replace_over_refused(n: Namespace, o: Overlay, src: u64, dst: u64) -> bool {
    ||| !shown(n, o, dst)
    ||| is_dir(shown_inode(n, o, src)) != is_dir(shown_inode(n, o, dst))
    ||| is_dir(shown_inode(n, o, dst)) && (base_not_dir(n, dst) || occupied_over(n, o, dst))
}

/// An entry cannot be renamed.
pub open spec fn rename_over_refused(
    n: Namespace,
    o: Overlay,
    sp: u64,
    sn: Seq<u8>,
    dp: u64,
    dn: Seq<u8>,
) -> bool {
    let src = child_over(n, o, sp, sn);
    ||| !valid_name(sn)
    ||| !valid_name(dn)
    ||| base_not_dir(n, sp)
    ||| entry_over(n, o, sp, sn) is None
    ||| !(sp == dp && sn == dn) && {
        ||| !shown(n, o, src)
        ||| !shown(n, o, sp)
        ||| !dir_shown(n, o, dp)
        ||| replaced_over(n, o, src, dp, dn) matches Some(d) && replace_over_refused(n, o, src, d)
    }
}

/// The source parent's inode after a rename.
pub open spec fn rename_src_parent(v: InodeView, across: bool, dir: bool, now: Timespec) -> InodeView {
    parent_touched(
        v,
        if across && dir {
            one_less(v.nlink)
        } else {
            v.nlink
        },
        now,
    )
}

/// The destination parent's inode after a rename.
pub open spec fn rename_dst_parent(
    v: InodeView,
    across: bool,
    dir: bool,
    replaced_dir: bool,
    now: Timespec,
) -> InodeView {
    let more = if across && dir {
        one_more(v.nlink)
    } else {
        v.nlink
    };
    parent_touched(
        v,
        if replaced_dir {
            one_less(more)
        } else {
            more
        },
        now,
    )
}

/// The overlay with an entry moved.
pub open spec fn rename_staged(
    o: Overlay,
    sp: u64,
    sn: Seq<u8>,
    dp: u64,
    dn: Seq<u8>,
    e: DirEntry,
    dst: Option<(u64, Option<InodeView>)>,
    spv: InodeView,
    dpv: InodeView,
) -> Overlay {
    let c = match dst {
        Some(d) => child_staged(o, d.0, d.1),
        None => o,
    };
    Overlay {
        inodes: if sp == dp {
            c.inodes.insert(sp, spv)
        } else {
            c.inodes.insert(sp, spv).insert(dp, dpv)
        },
        names: c.names.insert((dp, dn), e).remove((sp, sn)),
        cuts: c.cuts.remove((dp, dn)).insert((sp, sn)),
        ..c
    }
}

/// What a rename acts on.
pub struct RenamePlan {
    pub entry: DirEntry,
    pub src: Inode,
    pub src_parent: Inode,
    pub dst_parent: Inode,
    /// The replaced number and its inode.
    pub dst: Option<(u64, Inode)>,
}

/// The replaced number and what is left of its inode.
pub open spec fn dst_left(dst: Option<(u64, Inode)>) -> Option<(u64, Option<InodeView>)> {
    match dst {
        Some(d) => Some((d.0, link_left(d.1@, is_dir(d.1@)))),
        None => None,
    }
}

pub open spec fn dst_is_dir(dst: Option<(u64, Inode)>) -> bool {
    dst matches Some(d) && is_dir(d.1@)
}

pub open spec fn dst_number(dst: Option<(u64, Inode)>) -> Option<u64> {
    match dst {
        Some(d) => Some(d.0),
        None => None,
    }
}

/// The plan is that of the rename.
pub open spec fn rename_planned<B: IoBackend>(
    tx: Tx<B>,
    o: Overlay,
    sp: u64,
    sn: Seq<u8>,
    dp: u64,
    dn: Seq<u8>,
    plan: RenamePlan,
) -> bool {
    let n = tx.ns();
    &&& entry_over(n, o, sp, sn) == Some(plan.entry)
    &&& plan.src@ == inode_over(tx, o, plan.entry.ino)
    &&& plan.src_parent@ == inode_over(tx, o, sp)
    &&& plan.dst_parent@ == inode_over(tx, o, dp)
    &&& dst_number(plan.dst) == replaced_over(n, o, plan.entry.ino, dp, dn)
    &&& plan.dst matches Some(d) ==> d.1@ == inode_over(tx, o, d.0)
}

impl<B: IoBackend> Store<B> {
    /// The inode that a rename would replace, where it may.
    #[verifier::rlimit(40)]
    fn plan_replaced(ep: &Epoch, tx: &Tx<'_, B>, src_ino: u64, src: &Inode, dp: u64, dn: &[u8]) -> (r:
        Result<Option<(u64, Inode)>, StoreError>)
        requires
            ep.wf(),
        ensures
            r matches Ok(Some(d)) ==> inode_ok(d.1@),
            forall|h: nat| #[trigger]
                overlays(*tx, *ep, h) && holdable(tx.ns()) && dir_shown(tx.ns(), ep@, dp)
                    && rootless(src@) == shown_inode(tx.ns(), ep@, src_ino) ==> match r {
                    Ok(dst) => {
                        &&& dst_number(dst) == replaced_over(tx.ns(), ep@, src_ino, dp, dn@)
                        &&& dst matches Some(d) ==> d.1@ == inode_over(*tx, ep@, d.0)
                            && !replace_over_refused(tx.ns(), ep@, src_ino, d.0)
                    },
                    Err(_) => strained(*tx, h) || (replaced_over(
                        tx.ns(),
                        ep@,
                        src_ino,
                        dp,
                        dn@,
                    ) matches Some(d) && replace_over_refused(tx.ns(), ep@, src_ino, d)),
                },
    {
        proof {
            assert forall|h: nat| #[trigger] overlays(*tx, *ep, h) && holdable(
                tx.ns(),
            ) implies tx.reads(h) && (forall|d: u64|
                fits_memory(#[trigger] base_entries(tx.ns(), d))) by {}
            assert forall|h: nat| #[trigger] overlays(*tx, *ep, h) && dir_shown(
                tx.ns(),
                ep@,
                dp,
            ) implies !base_not_dir(tx.ns(), dp) by {
                lemma_base_dir(*tx, *ep, h, dp);
            }
        }
        let found = match Self::dir_lookup_epoch(ep, tx, dp, dn) {
            Ok(v) => v,
            Err(e) => return Err(e),
        };
        let d = match found {
            Some(e) => e,
            None => return Ok(None),
        };
        if d.ino == src_ino {
            return Ok(None);
        }
        let inode = match Self::get_inode_epoch(ep, tx, d.ino) {
            Ok(Some(v)) => v,
            Ok(None) => return Err(StoreError::Invariant("dst inode missing".to_string())),
            Err(e) => return Err(e),
        };
        let src_dir = src.is_dir();
        let dst_dir = inode.is_dir();
        if src_dir && !dst_dir {
            return Err(StoreError::Invariant("cannot rename dir over file".to_string()));
        }
        if !src_dir && dst_dir {
            return Err(StoreError::Invariant("cannot rename file over dir".to_string()));
        }
        if src_dir {
            match is_occupied_epoch(ep, tx, d.ino) {
                Ok(true) => {
                    return Err(StoreError::Invariant("directory not empty".to_string()));
                },
                Ok(false) => {},
                Err(e) => return Err(e),
            }
        }
        Ok(Some((d.ino, inode)))
    }

    #[verifier::rlimit(40)]
    fn plan_epoch_rename(
        ep: &Epoch,
        tx: &Tx<'_, B>,
        src_parent: u64,
        src_name: &[u8],
        dst_parent: u64,
        dst_name: &[u8],
    ) -> (r: Result<RenamePlan, StoreError>)
        requires
            ep.wf(),
            valid_name(src_name@),
            valid_name(dst_name@),
            !(src_parent == dst_parent && src_name@ == dst_name@),
        ensures
            r matches Ok(plan) ==> inode_ok(plan.src@) && inode_ok(plan.src_parent@) && inode_ok(
                plan.dst_parent@,
            ) && (plan.dst matches Some(d) ==> inode_ok(d.1@)),
            forall|h: nat| #[trigger]
                overlays(*tx, *ep, h) && holdable(tx.ns()) ==> match r {
                    Ok(plan) => {
                        &&& !rename_over_refused(
                            tx.ns(),
                            ep@,
                            src_parent,
                            src_name@,
                            dst_parent,
                            dst_name@,
                        )
                        &&& rename_planned(
                            *tx,
                            ep@,
                            src_parent,
                            src_name@,
                            dst_parent,
                            dst_name@,
                            plan,
                        )
                    },
                    Err(_) => strained(*tx, h) || rename_over_refused(
                        tx.ns(),
                        ep@,
                        src_parent,
                        src_name@,
                        dst_parent,
                        dst_name@,
                    ),
                },
    {
        proof {
            assert forall|h: nat| #[trigger] overlays(*tx, *ep, h) implies tx.reads(h) by {}
        }
        let entry = match Self::dir_lookup_epoch(ep, tx, src_parent, src_name) {
            Ok(Some(e)) => e,
            Ok(None) => return Err(StoreError::Invariant("no such entry".to_string())),
            Err(e) => return Err(e),
        };
        proof {
            assert forall|h: nat| #[trigger] overlays(*tx, *ep, h) implies !base_not_dir(
                tx.ns(),
                src_parent,
            ) by {
                lemma_bound_dir(tx.ns(), ep@, src_parent, src_name@);
            }
        }
        let src = match Self::get_inode_epoch(ep, tx, entry.ino) {
            Ok(Some(v)) => v,
            Ok(None) => return Err(StoreError::Invariant("src inode missing".to_string())),
            Err(e) => return Err(e),
        };
        let sp = match Self::get_inode_epoch(ep, tx, src_parent) {
            Ok(Some(v)) => v,
            Ok(None) => return Err(StoreError::Invariant("src parent missing".to_string())),
            Err(e) => return Err(e),
        };
        let dp = match find_dir_epoch(ep, tx, dst_parent) {
            Ok(v) => v,
            Err(e) => return Err(e),
        };
        let dst = match Self::plan_replaced(ep, tx, entry.ino, &src, dst_parent, dst_name) {
            Ok(v) => v,
            Err(e) => return Err(e),
        };
        Ok(RenamePlan { entry, src, src_parent: sp, dst_parent: dp, dst })
    }

    /// Stage a planned rename.
    #[verifier::rlimit(80)]
    #[verifier::spinoff_prover]
    fn record_rename(
        ep: &mut Epoch,
        index: &ObjectIndex,
        src_parent: u64,
        src_name: &[u8],
        dst_parent: u64,
        dst_name: &[u8],
        plan: RenamePlan,
        now: Timespec,
    ) -> (r: Vec<PendingRecord>)
        requires
            old(ep).wf(),
            old(ep).seq < u64::MAX,
            time_ok(now),
            src_name@.len() <= 255,
            dst_name@.len() <= 255,
            inode_ok(plan.src@),
            inode_ok(plan.src_parent@),
            inode_ok(plan.dst_parent@),
            plan.dst matches Some(d) ==> inode_ok(d.1@),
        ensures
            final(ep).wf(),
            records_cover(*old(ep), *final(ep), r@),
            final(ep).seq == old(ep).seq + 1,
            final(ep).max_ino == old(ep).max_ino,
            ({
                let across = src_parent != dst_parent;
                let dir = is_dir(plan.src@);
                let spv = rename_src_parent(plan.src_parent@, across, dir, now);
                let dpv = rename_dst_parent(
                    plan.dst_parent@,
                    across,
                    dir,
                    dst_is_dir(plan.dst),
                    now,
                );
                &&& final(ep)@ == rename_staged(
                    old(ep)@,
                    src_parent,
                    src_name@,
                    dst_parent,
                    dst_name@,
                    plan.entry,
                    dst_left(plan.dst),
                    spv,
                    dpv,
                )
                &&& logged(
                    r@,
                    final(ep).seq,
                    OpView::Rename {
                        src_parent,
                        src_name: src_name@,
                        dst_parent,
                        dst_name: dst_name@,
                        src_ino: plan.entry.ino,
                        dst_ino: dst_number(plan.dst),
                        src_is_dir: dir,
                        sp_inode_id: digest(inode_bytes(spv)),
                        dp_inode_id: digest(inode_bytes(dpv)),
                        src_child_inode_id: Some(digest(inode_bytes(plan.src@))),
                        dst_child_inode_id: None,
                    },
                )
                &&& reachable(*final(ep), *index, digest(inode_bytes(spv)))
                &&& reachable(*final(ep), *index, digest(inode_bytes(dpv)))
                &&& reachable(*final(ep), *index, digest(inode_bytes(plan.src@)))
            }),
    {
        let ghost was = *ep;
        let ghost dst0 = plan.dst;
        let ghost left0 = dst_left(plan.dst);
        let dir = plan.src.is_dir();
        let across = src_parent != dst_parent;
        let mut dst_ino: Option<u64> = None;
        let mut replaced_dir = false;
        match plan.dst {
            Some((d, inode)) => {
                dst_ino = Some(d);
                replaced_dir = inode.is_dir();
                let mut t = inode;
                t.nlink = t.nlink.saturating_sub(1);
                if replaced_dir || t.nlink == 0 {
                    ep.drop_inode(d);
                } else {
                    ep.put_inode(d, t);
                }
            },
            None => {},
        }
        let ghost e0 = *ep;
        let ghost c0 = match left0 {
            Some(d) => child_staged(was@, d.0, d.1),
            None => was@,
        };
        assert(e0@ == c0);
        let mut records: Vec<PendingRecord> = Vec::new();
        assert(records_cover(was, was, records@));
        proof {
            lemma_staged_same(was, was, e0, records@);
        }
        let src_id = stage_inode(ep, index, &mut records, &plan.src);
        let ghost e1 = *ep;
        let mut nsp = plan.src_parent;
        nsp.mtime = now;
        let mut ndp = plan.dst_parent;
        ndp.mtime = now;
        if across && dir {
            nsp.nlink = nsp.nlink.saturating_sub(1);
            ndp.nlink = ndp.nlink.saturating_add(1);
        }
        if replaced_dir {
            ndp.nlink = ndp.nlink.saturating_sub(1);
        }
        let sp_id = stage_inode(ep, index, &mut records, &nsp);
        let ghost e2 = *ep;
        let dp_id = stage_inode(ep, index, &mut records, &ndp);
        let ghost e3 = *ep;
        assert(staged(e1, src_id@) ==> staged(e2, src_id@));
        assert(staged(e2, src_id@) ==> staged(e3, src_id@));
        assert(staged(e2, sp_id@) ==> staged(e3, sp_id@));
        ep.bind_entry(dst_parent, dst_name, plan.entry);
        ep.unbind_entry(src_parent, src_name);
        ep.put_inode(src_parent, nsp);
        if across {
            ep.put_inode(dst_parent, ndp);
        }
        let ghost e4 = *ep;
        proof {
            lemma_staged_same(was, e3, e4, records@);
        }
        let ghost mid = records@;
        let op = MutationOp::Rename {
            src_parent,
            src_name: copy_bytes(src_name),
            dst_parent,
            dst_name: copy_bytes(dst_name),
            src_ino: plan.entry.ino,
            dst_ino,
            src_is_dir: dir,
            sp_inode_id: sp_id,
            dp_inode_id: dp_id,
            src_child_inode_id: Some(src_id),
            dst_child_inode_id: None,
        };
        log_op(ep, &mut records, &op);
        proof {
            let e5 = *ep;
            lemma_staged_same(was, e4, e5, mid);
            assert(staged(e3, src_id@) ==> staged(e5, src_id@));
            assert(staged(e3, sp_id@) ==> staged(e5, sp_id@));
            assert(staged(e3, dp_id@) ==> staged(e5, dp_id@));
        }
        records
    }

    /// Rename an entry in the epoch, over what the new name stood for where the
    /// types allow it. A name renamed onto itself changes nothing.
    #[verifier::rlimit(40)]
    pub fn stage_rename(
        ep: &mut Epoch,
        tx: &Tx<'_, B>,
        src_parent: u64,
        src_name: &[u8],
        dst_parent: u64,
        dst_name: &[u8],
        now: Timespec,
    ) -> (r: Result<(RenameOutcome, Vec<PendingRecord>), StoreError>)
        requires
            old(ep).wf(),
            old(ep).seq < u64::MAX,
            time_ok(now),
        ensures
            final(ep).wf(),
            r is Err ==> *final(ep) == *old(ep),
            r matches Ok(o) ==> records_cover(*old(ep), *final(ep), o.1@) && final(ep).max_ino
                == old(ep).max_ino,
            src_parent == dst_parent && src_name@ == dst_name@ ==> *final(ep) == *old(ep) && (
            r matches Ok(o) ==> o.1@.len() == 0),
            forall|h: nat| #[trigger]
                overlays(*tx, *old(ep), h) && holdable(tx.ns()) ==> match r {
                    Ok((out, records)) => {
                        &&& !rename_over_refused(
                            tx.ns(),
                            old(ep)@,
                            src_parent,
                            src_name@,
                            dst_parent,
                            dst_name@,
                        )
                        &&& out.src_ino == child_over(tx.ns(), old(ep)@, src_parent, src_name@)
                        &&& if src_parent == dst_parent && src_name@ == dst_name@ {
                            out.replaced_dst_ino is None
                        } else {
                            rename_done(
                                *tx,
                                *old(ep),
                                *final(ep),
                                src_parent,
                                src_name@,
                                dst_parent,
                                dst_name@,
                                now,
                                out.replaced_dst_ino,
                                records@,
                            )
                        }
                    },
                    Err(_) => strained(*tx, h) || rename_over_refused(
                        tx.ns(),
                        old(ep)@,
                        src_parent,
                        src_name@,
                        dst_parent,
                        dst_name@,
                    ),
                },
    {
        let ghost was = *ep;
        if !Self::validate_name(src_name) || !Self::validate_name(dst_name) {
            return Err(StoreError::Config("invalid entry name".to_string()));
        }
        if src_parent == dst_parent && bytes_equal(src_name, dst_name) {
            proof {
                assert forall|h: nat| #[trigger] overlays(*tx, was, h) implies tx.reads(h) && (
                was@.names.contains_key((src_parent, src_name@)) || was@.cuts.contains(
                    (src_parent, src_name@),
                ) ==> !base_not_dir(tx.ns(), src_parent)) by {
                    lemma_bound_dir(tx.ns(), was@, src_parent, src_name@);
                }
            }
            return match Self::dir_lookup_epoch(ep, tx, src_parent, src_name) {
                Ok(Some(e)) => Ok(
                    (RenameOutcome { src_ino: e.ino, replaced_dst_ino: None }, Vec::new()),
                ),
                Ok(None) => Err(StoreError::Invariant("no such entry".to_string())),
                Err(e) => Err(e),
            };
        }
        let plan = match Self::plan_epoch_rename(
            ep,
            tx,
            src_parent,
            src_name,
            dst_parent,
            dst_name,
        ) {
            Ok(v) => v,
            Err(e) => return Err(e),
        };
        let src_ino: u64 = plan.entry.ino;
        let replaced: Option<u64> = match &plan.dst {
            Some(d) => Some(d.0),
            None => None,
        };
        let ghost p0 = plan;
        let records = Self::record_rename(
            ep,
            tx.objects.index,
            src_parent,
            src_name,
            dst_parent,
            dst_name,
            plan,
            now,
        );
        proof {
            let fin = *ep;
            assert forall|h: nat| #[trigger] overlays(*tx, was, h) && holdable(
                tx.ns(),
            ) implies rename_done(
                *tx,
                was,
                fin,
                src_parent,
                src_name@,
                dst_parent,
                dst_name@,
                now,
                replaced,
                records@,
            ) by {
                assert(rename_planned(
                    *tx,
                    was@,
                    src_parent,
                    src_name@,
                    dst_parent,
                    dst_name@,
                    p0,
                ));
            }
        }
        Ok((RenameOutcome { src_ino, replaced_dst_ino: replaced }, records))
    }
}

/// What is left of the inode that a rename replaces.
pub open spec fn replaced_left<B: IoBackend>(tx: Tx<B>, o: Overlay, dst: Option<u64>) -> Option<
    (u64, Option<InodeView>),
> {
    match dst {
        Some(d) => Some((d, link_left(inode_over(tx, o, d), is_dir(inode_over(tx, o, d))))),
        None => None,
    }
}

/// The epoch after a rename, and the record of it.
pub open spec fn rename_done<B: IoBackend>(
    tx: Tx<B>,
    was: Epoch,
    now_ep: Epoch,
    sp: u64,
    sn: Seq<u8>,
    dp: u64,
    dn: Seq<u8>,
    now: Timespec,
    replaced: Option<u64>,
    records: Seq<PendingRecord>,
) -> bool {
    let o = was@;
    let e = entry_over(tx.ns(), o, sp, sn)->0;
    let src = inode_over(tx, o, e.ino);
    let dir = is_dir(src);
    let across = sp != dp;
    let spv = rename_src_parent(inode_over(tx, o, sp), across, dir, now);
    let dpv = rename_dst_parent(
        inode_over(tx, o, dp),
        across,
        dir,
        replaced matches Some(d) && is_dir(inode_over(tx, o, d)),
        now,
    );
    &&& replaced == replaced_over(tx.ns(), o, e.ino, dp, dn)
    &&& now_ep.seq == was.seq + 1
    &&& now_ep@ == rename_staged(
        o,
        sp,
        sn,
        dp,
        dn,
        e,
        replaced_left(tx, o, replaced),
        spv,
        dpv,
    )
    &&& logged(
        records,
        now_ep.seq,
        OpView::Rename {
            src_parent: sp,
            src_name: sn,
            dst_parent: dp,
            dst_name: dn,
            src_ino: e.ino,
            dst_ino: replaced,
            src_is_dir: dir,
            sp_inode_id: digest(inode_bytes(spv)),
            dp_inode_id: digest(inode_bytes(dpv)),
            src_child_inode_id: Some(digest(inode_bytes(src))),
            dst_child_inode_id: None,
        },
    )
    &&& reachable(now_ep, *tx.objects.index, digest(inode_bytes(spv)))
    &&& reachable(now_ep, *tx.objects.index, digest(inode_bytes(dpv)))
    &&& reachable(now_ep, *tx.objects.index, digest(inode_bytes(src)))
}

// ---------------------------------------------------------------------------
// Write
// ---------------------------------------------------------------------------

/// The pending extents with those of a write.
pub open spec fn extents_over(
    m: Map<(u64, Seq<u8>), Seq<u8>>,
    ino: u64,
    chunks: Seq<(u64, Seq<u8>, Seq<u8>)>,
) -> Map<(u64, Seq<u8>), Seq<u8>>
    decreases chunks.len(),
{
    if chunks.len() == 0 {
        m
    } else {
        extents_over(m, ino, chunks.drop_last()).insert(
            (ino, extent_key_of(chunks.last().0)),
            chunks.last().2,
        )
    }
}

/// The pending descriptors with those of a write. A content id keeps the one it
/// has, and gets none that refers to the id itself.
pub open spec fn chunks_over(m: Map<Seq<u8>, Seq<u8>>, us: Seq<ExtentUpdate>) -> Map<
    Seq<u8>,
    Seq<u8>,
>
    decreases us.len(),
{
    if us.len() == 0 {
        m
    } else {
        let had = chunks_over(m, us.drop_last());
        let u = us.last();
        if self_alias(u.descriptor.form, u.content_id@) || had.contains_key(u.content_id@) {
            had
        } else {
            had.insert(u.content_id@, u.bytes@)
        }
    }
}

/// The chunks of the record of a write.
pub open spec fn update_chunks(us: Seq<ExtentUpdate>) -> Seq<(u64, Seq<u8>, Seq<u8>)> {
    Seq::new(us.len(), |i: int| (us[i].offset, us[i].content_id@, us[i].bytes@))
}

/// The overlay after a write.
pub open spec fn write_staged(o: Overlay, ino: u64, us: Seq<ExtentUpdate>, v: InodeView) -> Overlay {
    Overlay {
        inodes: o.inodes.insert(ino, v),
        extents: extents_over(o.extents, ino, update_chunks(us)),
        chunks: chunks_over(o.chunks, us),
        ..o
    }
}

/// The inode after a write that ends at `end`.
pub open spec fn write_inode(v: InodeView, end: u64) -> InodeView {
    InodeView {
        size: if v.size < end {
            end
        } else {
            v.size
        },
        ..v
    }
}

/// Stage the objects of an update.
fn stage_update_objects(
    ep: &mut Epoch,
    index: &ObjectIndex,
    records: &mut Vec<PendingRecord>,
    u: &ExtentUpdate,
)
    requires
        old(ep).wf(),
    ensures
        final(ep).wf(),
        only_staged(*old(ep), *final(ep)),
        forall|j: int|
            0 <= j < u.objects@.len() ==> reachable(
                *final(ep),
                *index,
                digest((#[trigger] u.objects@[j]).payload@),
            ),
        forall|was: Epoch| #[trigger]
            records_cover(was, *old(ep), old(records)@) ==> records_cover(
                was,
                *final(ep),
                final(records)@,
            ),
        plain(old(records)@) ==> plain(final(records)@),
{
    let ghost e0 = *ep;
    let ghost r0 = records@;
    let mut j: usize = 0;
    while j < u.objects.len()
        invariant
            j <= u.objects@.len(),
            ep.wf(),
            only_staged(e0, *ep),
            forall|i: int|
                0 <= i < j ==> reachable(
                    *ep,
                    *index,
                    digest((#[trigger] u.objects@[i]).payload@),
                ),
            forall|was: Epoch| #[trigger]
                records_cover(was, e0, r0) ==> records_cover(was, *ep, records@),
            plain(r0) ==> plain(records@),
        decreases u.objects@.len() - j,
    {
        let obj = &u.objects[j];
        let (tag, ml) = match obj.kind {
            ObjectKind::Data => (RecordTag::Data, Some(u.descriptor.len)),
            ObjectKind::Model => (RecordTag::Model, None),
        };
        let ghost e1 = *ep;
        let ghost r1 = records@;
        let id = epoch_stage(ep, index, records, tag, copy_bytes(&obj.payload), ml);
        proof {
            let e2 = *ep;
            assert forall|i: int| 0 <= i < j + 1 implies reachable(
                e2,
                *index,
                digest((#[trigger] u.objects@[i]).payload@),
            ) by {
                let d = digest(u.objects@[i].payload@);
                assert(staged(e1, d) ==> staged(e2, d));
            }
            assert forall|id: Seq<u8>| #[trigger] staged(e0, id) implies staged(e2, id) by {
                assert(staged(e1, id));
            }
            assert forall|was: Epoch| #[trigger] records_cover(was, e0, r0) implies records_cover(
                was,
                e2,
                records@,
            ) by {
                assert(records_cover(was, e1, r1));
            }
        }
        j += 1;
    }
}

/// Stage the updates of a write; gives the chunks of its record.
#[verifier::rlimit(60)]
#[verifier::spinoff_prover]
fn stage_updates(
    ep: &mut Epoch,
    index: &ObjectIndex,
    records: &mut Vec<PendingRecord>,
    ino: u64,
    updates: &Vec<ExtentUpdate>,
) -> (r: Vec<(u64, ChunkId, Vec<u8>)>)
    requires
        old(ep).wf(),
    ensures
        final(ep).wf(),
        final(ep).seq == old(ep).seq,
        final(ep).max_ino == old(ep).max_ino,
        final(ep)@ == (Overlay {
            extents: extents_over(old(ep)@.extents, ino, update_chunks(updates@)),
            chunks: chunks_over(old(ep)@.chunks, updates@),
            ..old(ep)@
        }),
        chunk_views(r@) == update_chunks(updates@),
        all_reachable(*final(ep), *index, updates@),
        forall|was: Epoch| #[trigger]
            records_cover(was, *old(ep), old(records)@) ==> records_cover(
                was,
                *final(ep),
                final(records)@,
            ),
        plain(old(records)@) ==> plain(final(records)@),
{
    let ghost e0 = *ep;
    let ghost r0 = records@;
    let ghost us = updates@;
    let ghost cs = update_chunks(us);
    let mut chunks: Vec<(u64, ChunkId, Vec<u8>)> = Vec::new();
    let mut i: usize = 0;
    assert(us.take(0) =~= Seq::empty());
    assert(cs.take(0) =~= Seq::empty());
    while i < updates.len()
        invariant
            i <= updates@.len(),
            us == updates@,
            cs == update_chunks(us),
            ep.wf(),
            ep.seq == e0.seq,
            ep.max_ino == e0.max_ino,
            ep@ == (Overlay {
                extents: extents_over(e0@.extents, ino, cs.take(i as int)),
                chunks: chunks_over(e0@.chunks, us.take(i as int)),
                ..e0@
            }),
            chunks@.len() == i,
            forall|j: int|
                0 <= j < i ==> (#[trigger] chunks@[j]).0 == cs[j].0 && chunks@[j].1@ == cs[j].1
                    && chunks@[j].2@ == cs[j].2,
            all_reachable(*ep, *index, us.take(i as int)),
            forall|was: Epoch| #[trigger]
                records_cover(was, e0, r0) ==> records_cover(was, *ep, records@),
            plain(r0) ==> plain(records@),
        decreases updates@.len() - i,
    {
        let u = &updates[i];
        let ghost e1 = *ep;
        let ghost r1 = records@;
        stage_update_objects(ep, index, records, u);
        let ghost e2 = *ep;
        chunks.push((u.offset, u.content_id, copy_bytes(&u.bytes)));
        ep.put_extent(ino, u.offset, copy_bytes(&u.bytes));
        if !u.descriptor.aliases(&u.content_id) {
            ep.put_chunk(&u.content_id, copy_bytes(&u.bytes));
        }
        proof {
            let e3 = *ep;
            let had = us.take(i as int);
            let has = us.take(i + 1);
            assert(has.drop_last() =~= had);
            assert(has.last() == *u);
            assert(cs.take(i + 1).drop_last() =~= cs.take(i as int));
            assert(cs.take(i + 1).last() == cs[i as int]);
            assert(cs[i as int] == (u.offset, u.content_id@, u.bytes@));
            assert(e3.staged_objects == e2.staged_objects);
            assert forall|a: int, b: int|
                #![trigger has[a].objects@[b]]
                0 <= a < has.len() && 0 <= b < has[a].objects@.len() implies reachable(
                e3,
                *index,
                digest(has[a].objects@[b].payload@),
            ) by {
                let d = digest(has[a].objects@[b].payload@);
                assert(staged(e2, d) == staged(e3, d));
                if a < i {
                    assert(had[a] == has[a]);
                    assert(reachable(e1, *index, digest(had[a].objects@[b].payload@)));
                    assert(staged(e1, d) ==> staged(e2, d));
                } else {
                    assert(has[a] == *u);
                    assert(reachable(e2, *index, digest(u.objects@[b].payload@)));
                }
            }
            assert forall|was: Epoch| #[trigger] records_cover(was, e0, r0) implies records_cover(
                was,
                e3,
                records@,
            ) by {
                assert(records_cover(was, e1, r1));
                assert(records_cover(was, e2, records@));
                lemma_staged_same(was, e2, e3, records@);
            }
        }
        i += 1;
    }
    proof {
        assert(us.take(i as int) =~= us);
        assert(cs.take(i as int) =~= cs);
        assert(chunk_views(chunks@) =~= cs);
    }
    chunks
}

/// The objects of updates will be found at recovery.
pub open spec fn all_reachable(ep: Epoch, index: ObjectIndex, us: Seq<ExtentUpdate>) -> bool {
    forall|a: int, b: int|
        #![trigger us[a].objects@[b]]
        0 <= a < us.len() && 0 <= b < us[a].objects@.len() ==> reachable(
            ep,
            index,
            digest(us[a].objects@[b].payload@),
        )
}

impl<B: IoBackend> Store<B> {
    /// Stage a prepared write that ends at `end` in the epoch: its objects,
    /// extents and descriptors, and the file at the size that it then has.
    #[verifier::rlimit(60)]
    #[verifier::spinoff_prover]
    pub fn stage_write(
        ep: &mut Epoch,
        tx: &Tx<'_, B>,
        ino: u64,
        updates: &Vec<ExtentUpdate>,
        end: u64,
    ) -> (r: Result<Vec<PendingRecord>, StoreError>)
        requires
            old(ep).wf(),
            old(ep).seq < u64::MAX,
            updates@.len() <= MAX_CHUNKS,
            updates_fit(updates@),
        ensures
            final(ep).wf(),
            r is Err ==> *final(ep) == *old(ep),
            r matches Ok(records) ==> records_cover(*old(ep), *final(ep), records@) && final(ep).seq == old(ep).seq + 1 && final(ep).max_ino == old(ep).max_ino && all_reachable(
                *final(ep),
                *tx.objects.index,
                updates@,
            ),
            forall|h: nat| #[trigger]
                overlays(*tx, *old(ep), h) ==> match r {
                    Ok(records) => {
                        let v = write_inode(inode_over(*tx, old(ep)@, ino), end);
                        &&& file_shown(tx.ns(), old(ep)@, ino)
                        &&& final(ep)@ == write_staged(old(ep)@, ino, updates@, v)
                        &&& logged(
                            records@,
                            final(ep).seq,
                            OpView::Write {
                                ino,
                                size: v.size,
                                chunks: update_chunks(updates@),
                                inode_id: digest(inode_bytes(v)),
                            },
                        )
                        &&& reachable(*final(ep), *tx.objects.index, digest(inode_bytes(v)))
                    },
                    Err(_) => strained(*tx, h) || !file_shown(tx.ns(), old(ep)@, ino),
                },
    {
        let ghost was = *ep;
        proof {
            assert forall|h: nat| #[trigger] overlays(*tx, was, h) implies tx.reads(h) by {}
        }
        let mut fin = match Self::get_inode_epoch(ep, tx, ino) {
            Ok(Some(v)) => v,
            Ok(None) => return Err(StoreError::Invariant("inode missing".to_string())),
            Err(e) => return Err(e),
        };
        match &fin.data {
            InodeData::File { .. } => {},
            _ => return Err(StoreError::Invariant("not a regular file".to_string())),
        }
        if fin.size < end {
            fin.size = end;
        }
        let size: u64 = fin.size;
        let mut records: Vec<PendingRecord> = Vec::new();
        assert(records_cover(was, was, records@));
        let chunks = stage_updates(ep, tx.objects.index, &mut records, ino, updates);
        let ghost e1 = *ep;
        let inode_id = stage_inode(ep, tx.objects.index, &mut records, &fin);
        let ghost e2 = *ep;
        ep.put_inode(ino, fin);
        let ghost e3 = *ep;
        proof {
            lemma_staged_same(was, e2, e3, records@);
            assert forall|i: int| 0 <= i < update_chunks(updates@).len() implies chunk_ok(
                #[trigger] update_chunks(updates@)[i],
            ) by {
                assert(updates@[i].bytes@.len() <= u32::MAX);
            }
        }
        let ghost mid = records@;
        let op = MutationOp::Write { ino, size, chunks, inode_id };
        log_op(ep, &mut records, &op);
        proof {
            let e4 = *ep;
            lemma_staged_same(was, e3, e4, mid);
            assert(staged(e2, inode_id@) ==> staged(e4, inode_id@));
            assert forall|a: int, b: int|
                #![trigger updates@[a].objects@[b]]
                0 <= a < updates@.len() && 0 <= b < updates@[a].objects@.len() implies reachable(
                e4,
                *tx.objects.index,
                digest(updates@[a].objects@[b].payload@),
            ) by {
                let d = digest(updates@[a].objects@[b].payload@);
                assert(reachable(e1, *tx.objects.index, d));
                assert(staged(e1, d) ==> staged(e2, d));
                assert(staged(e2, d) == staged(e3, d));
                assert(staged(e3, d) == staged(e4, d));
            }
        }
        Ok(records)
    }
}

} // verus!
