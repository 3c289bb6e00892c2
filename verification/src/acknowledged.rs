//! Every acknowledged operation is survived: after it, the log mirrors the overlay as
//! before it.

use vstd::prelude::*;

use crate::attrs::{attrs_set, AttrUpdate};
use crate::chunk::digest;
use crate::descriptor::{decoded, self_alias, Descriptor};
use crate::epoch::{mapped, shown, Epoch, Overlay};
use crate::epoch_laws::{create_is_shown, lemma_mapped_upsert, mirrors, read_inode_stands,
    rename_is_shown, setattr_is_shown, unlink_is_shown, write_is_shown};
use crate::epoch_ops::{child_over, chunks_over, create_parent, holdable, inode_over, link_left,
    logged, numbered, opt_digest, reachable, records_cover, recorded_in, rename_done,
    rename_dst_parent, rename_over_refused, rename_src_parent, rename_staged, replaced_left,
    replaced_over, staged, unlink_over_refused, unlink_parent, unlink_staged, update_chunks,
    write_inode};
use crate::epoch_store::{begun, create_logged, create_recorded, op_logged, rename_logged,
    rename_recorded, setattr_logged, setattr_recorded, unlink_logged, unlink_recorded,
    write_logged, write_recorded};
use crate::extents::ExtentUpdate;
use crate::fs::{inode_at, lemma_has_key, lemma_ns_at, lemma_object, lemma_tree_sorted, listing,
    stored_inode, Listing, Namespace, BTREE_ORDER};
use crate::index_edit::lemma_clash_free_subset;
use crate::inode::{inode_bytes, inode_decoded_ok, inode_ok, inode_round_trip, Inode, InodeView,
    Timespec};
use crate::io::IoBackend;
use crate::journal::log_appended;
use crate::log::OpView;
use crate::namespace::{entry_inode, entry_type, is_dir, NewEntry, RenameOutcome};
use crate::overlay::{dir_shown, entry_over, kind_kept, overlay_ok, overlays};
use crate::paths::countable;
use crate::replay::{all_decode, applicable, applied, bare, chunk_index_with, op_chunks, replayed,
    replayed_chunks, resolved, resolves, Event};
use crate::sorted::{lookup, rank, sorted};
use crate::store::{payloads_of, Store};
use crate::survival::{lemma_objects_grow, lemma_step, mirrored, ops_of, staged_held};
use crate::transaction::{object_at, PendingRecord, Tx};
use crate::tree::clash_free;

verus! {

/// The payloads of the inodes that an overlay holds.
pub open spec fn inode_payloads(o: Overlay) -> Set<Seq<u8>> {
    Set::new(
        |x: Seq<u8>|
            exists|i: u64| #[trigger] o.inodes.contains_key(i) && x == inode_bytes(o.inodes[i]),
    )
}

/// No two payloads share a digest among those that the store was handed and the inodes of
/// its overlay.
pub open spec fn unclashing<B: IoBackend>(b: Store<B>) -> bool {
    clash_free(b.seen@.union(inode_payloads(b.epoch@)))
}

/// The inode of a number as the operations of a store read it.
pub open spec fn inode_read<B: IoBackend>(a: Store<B>, ino: u64) -> InodeView {
    if a.epoch@.inodes.contains_key(ino) {
        a.epoch@.inodes[ino]
    } else {
        inode_at(a.objects(), a.root@.inode_index_root, a.config.max_fanout, ino)->0
    }
}

/// The table of the store's inodes fits memory, and so does every directory.
pub open spec fn countable_store<B: IoBackend>(a: Store<B>) -> bool {
    &&& BTREE_ORDER <= a.config.max_fanout
    &&& listing(a.objects(), a.root@.inode_index_root, a.config.max_fanout).len() <= usize::MAX
    &&& holdable(a.ns())
}

/// An inode of an epoch in order is in order.
proof fn lemma_epoch_inode(ep: Epoch, ino: u64)
    requires
        ep.wf(),
        ep@.inodes.contains_key(ino),
    ensures
        inode_ok(ep@.inodes[ino]),
{
    let s = ep.pending_inodes@;
    let k = crate::fs::ino_key(ino);
    assert(lookup(s, k) is Some);
    lemma_has_key(s, k);
    assert(inode_ok(s[rank(s, k)].1@));
}

/// What an operation that was logged starts from.
proof fn lemma_setup<B: IoBackend, F: Fn(&[u8]) -> Option<Descriptor>>(
    a: Store<B>,
    b: Store<B>,
    tx: Tx<B>,
    records: Seq<PendingRecord>,
    decode: F,
    log: Seq<(u64, OpView)>,
    h: nat,
)
    requires
        mirrored(a, decode, log, h),
        op_logged(a, b, tx, records),
        records.len() > 0,
        b.ready(),
        b.config == a.config && b.root == a.root,
        clash_free(b.seen@),
        BTREE_ORDER <= a.config.max_fanout,
    ensures
        overlays(tx, a.epoch, h),
        tx.ns() == a.ns(),
        a.ready(),
        a.objects().subset_of(b.objects()),
        b.objects() == b.given@,
        staged_held(b),
        clash_free(b.objects()),
        mirrors(replayed(a.ns(), a.objects(), ops_of(log)), a.ns(), a.epoch@),
        numbered(a.ns(), a.epoch),
        sorted(replayed_chunks(a.chunks(), ops_of(log), decode)),
        mapped(replayed_chunks(a.chunks(), ops_of(log), decode)) == mapped(
            a.chunks(),
        ).union_prefer_right(a.epoch@.chunks),
        forall|i: u64| #[trigger] inode_over(tx, a.epoch@, i) == inode_read(a, i),
        log_appended(
            (Store { epoch: b.epoch, epoch_pending: b.epoch_pending, ..a }),
            b,
            records,
        ),
{
    reveal(mirrored);
    assert(b.given@ == a.given@.union(payloads_of(records).to_set()));
    lemma_objects_grow(a, b);
    lemma_clash_free_subset(a.objects(), b.objects());
    let p = a.objects();
    let q = b.objects();
    assert forall|id: Seq<u8>| #[trigger] staged(b.epoch, id) implies exists|x: Seq<u8>| #[trigger]
        q.contains(x) && digest(x) == id by {
        if staged(a.epoch, id) {
            let x = choose|x: Seq<u8>| #[trigger] p.contains(x) && digest(x) == id;
            assert(q.contains(x));
        } else {
            assert(recorded_in(records, id));
            let i = choose|i: int|
                0 <= i < records.len() && digest((#[trigger] records[i]).payload@) == id;
            let ps = payloads_of(records);
            assert(ps[i] == records[i].payload@);
            assert(ps.to_set().contains(ps[i]));
            assert(q.contains(records[i].payload@));
        }
    }
    lemma_tree_sorted(p, a.root@.chunk_index_root, a.config.max_fanout, h);
    lemma_chunks_sorted(a.chunks(), ops_of(log), decode);
}

proof fn lemma_with_sorted<F: Fn(&[u8]) -> Option<Descriptor>>(
    s: Listing,
    chunks: Seq<(u64, Seq<u8>, Seq<u8>)>,
    decode: F,
)
    requires
        sorted(s),
    ensures
        sorted(chunk_index_with(s, chunks, decode)),
    decreases chunks.len(),
{
    if chunks.len() > 0 {
        lemma_with_sorted(s, chunks.drop_last(), decode);
        let c = chunks.last();
        lemma_mapped_upsert(chunk_index_with(s, chunks.drop_last(), decode), c.1, c.2);
    }
}

proof fn lemma_chunks_sorted<F: Fn(&[u8]) -> Option<Descriptor>>(
    s: Listing,
    ops: Seq<OpView>,
    decode: F,
)
    requires
        sorted(s),
    ensures
        sorted(replayed_chunks(s, ops, decode)),
    decreases ops.len(),
{
    if ops.len() > 0 {
        lemma_chunks_sorted(s, ops.drop_last(), decode);
        lemma_with_sorted(
            replayed_chunks(s, ops.drop_last(), decode),
            op_chunks(ops.last()),
            decode,
        );
    }
}

/// A staged inode is read back from the objects.
proof fn lemma_held_inode<B: IoBackend>(a: Store<B>, b: Store<B>, v: InodeView)
    requires
        a.ready(),
        a.objects().subset_of(b.objects()),
        staged_held(b),
        b.given@.subset_of(b.seen@),
        b.objects() == b.given@,
        clash_free(b.seen@.insert(inode_bytes(v))),
        reachable(b.epoch, a.index, digest(inode_bytes(v))),
        inode_ok(v),
    ensures
        stored_inode(b.objects(), digest(inode_bytes(v))) == Some(v),
{
    let id = digest(inode_bytes(v));
    let q = b.objects();
    let all = b.seen@.insert(inode_bytes(v));
    assert(exists|x: Seq<u8>| #[trigger] q.contains(x) && digest(x) == id) by {
        if staged(b.epoch, id) {
        } else {
            let ix = a.index@;
            assert(crate::sorted::has_key(ix, id));
            let i = choose|i: int| 0 <= i < ix.len() && (#[trigger] ix[i]).0 == id;
            let x = object_at(a.disk(), ix[i].1)->0;
            assert(a.objects().contains(x));
            assert(q.contains(x) && digest(x) == id);
        }
    }
    let x = choose|x: Seq<u8>| #[trigger] q.contains(x) && digest(x) == id;
    assert(all.contains(x) && all.contains(inode_bytes(v)));
    assert(x == inode_bytes(v));
    lemma_clash_free_subset(q, all);
    lemma_object(q, x);
    inode_round_trip(v);
}

/// An inode of the overlay is read back.
proof fn lemma_held_in_overlay<B: IoBackend>(a: Store<B>, b: Store<B>, ino: u64)
    requires
        a.ready(),
        b.ready(),
        a.objects().subset_of(b.objects()),
        staged_held(b),
        b.objects() == b.given@,
        unclashing(b),
        b.epoch@.inodes.contains_key(ino),
        reachable(b.epoch, a.index, digest(inode_bytes(b.epoch@.inodes[ino]))),
    ensures
        stored_inode(b.objects(), digest(inode_bytes(b.epoch@.inodes[ino]))) == Some(
            b.epoch@.inodes[ino],
        ),
{
    let v = b.epoch@.inodes[ino];
    lemma_epoch_inode(b.epoch, ino);
    assert(inode_payloads(b.epoch@).contains(inode_bytes(v)));
    lemma_clash_free_subset(
        b.seen@.insert(inode_bytes(v)),
        b.seen@.union(inode_payloads(b.epoch@)),
    );
    lemma_held_inode(a, b, v);
}

/// An acknowledged creation is survived.
#[verifier::rlimit(60)]
#[verifier::spinoff_prover]
pub proof fn create_is_survived<B: IoBackend, F: Fn(&[u8]) -> Option<Descriptor>>(
    a: Store<B>,
    b: Store<B>,
    parent: u64,
    name: Seq<u8>,
    entry: NewEntry,
    now: Timespec,
    ino: u64,
    decode: F,
    log: Seq<(u64, OpView)>,
    h: nat,
)
    requires
        mirrored(a, decode, log, h),
        countable_store(a),
        create_logged(a, b, parent, name, entry, now, ino),
        unclashing(b),
    ensures
        exists|op: OpView| #[trigger] mirrored(b, decode, log.push((b.epoch.seq, op)), h),
{
    let (tx, records) = choose|tx: Tx<B>, records: Seq<PendingRecord>| #[trigger]
        op_logged(a, b, tx, records) && create_recorded(
            tx,
            a.epoch,
            b.epoch,
            records,
            parent,
            name,
            entry,
            now,
            ino,
        );
    lemma_clash_free_subset(b.seen@, b.seen@.union(inode_payloads(b.epoch@)));
    assert(a.ready()) by {
        reveal(mirrored);
    }
    lemma_overlaying(a, b, tx, decode, log, h);
    assert(countable(tx));
    let n = a.ns();
    let o = a.epoch@;
    let v = entry_inode(entry, now);
    let pv = create_parent(inode_over(tx, o, parent), entry.kind, now);
    let op = OpView::Create {
        parent,
        name,
        ino,
        d_type: entry_type(entry.kind),
        inode_id: digest(inode_bytes(v)),
        parent_inode_id: digest(inode_bytes(pv)),
    };
    assert(logged(records, b.epoch.seq, op));
    lemma_setup(a, b, tx, records, decode, log, h);
    assert(!n.contains_key(ino) && !o.inodes.contains_key(ino) && !o.gone.contains(ino));
    assert(parent != ino);
    lemma_held_in_overlay(a, b, ino);
    lemma_held_in_overlay(a, b, parent);
    read_inode_stands(tx, a.epoch, h, parent);
    let m = replayed(n, a.objects(), ops_of(log));
    assert(bare(v));
    create_is_shown(m, n, o, parent, name, ino, entry_type(entry.kind), v, pv);
    assert(op_chunks(op).len() == 0);
    lemma_step(a, b, records, op, decode, log, h);
}

/// An operation reads the overlay of a store whose log mirrors it.
proof fn lemma_overlaying<B: IoBackend, F: Fn(&[u8]) -> Option<Descriptor>>(
    a: Store<B>,
    b: Store<B>,
    tx: Tx<B>,
    decode: F,
    log: Seq<(u64, OpView)>,
    h: nat,
)
    requires
        mirrored(a, decode, log, h),
        begun(a, tx),
        clash_free(b.seen@),
        a.seen@.subset_of(b.seen@),
        BTREE_ORDER <= a.config.max_fanout,
    ensures
        overlays(tx, a.epoch, h),
        tx.ns() == a.ns(),
{
    reveal(mirrored);
    lemma_clash_free_subset(a.seen@, b.seen@);
    lemma_clash_free_subset(a.objects(), a.seen@);
}

/// An acknowledged change of attributes is survived.
#[verifier::rlimit(40)]
#[verifier::spinoff_prover]
pub proof fn setattr_is_survived<B: IoBackend, F: Fn(&[u8]) -> Option<Descriptor>>(
    a: Store<B>,
    b: Store<B>,
    ino: u64,
    update: AttrUpdate,
    now: Timespec,
    inode: Inode,
    decode: F,
    log: Seq<(u64, OpView)>,
    h: nat,
)
    requires
        mirrored(a, decode, log, h),
        countable_store(a),
        setattr_logged(a, b, ino, update, now, inode),
        unclashing(b),
    ensures
        exists|op: OpView| #[trigger] mirrored(b, decode, log.push((b.epoch.seq, op)), h),
{
    let (tx, records) = choose|tx: Tx<B>, records: Seq<PendingRecord>| #[trigger]
        op_logged(a, b, tx, records) && setattr_recorded(
            tx,
            a.epoch,
            b.epoch,
            records,
            ino,
            update,
            now,
            inode,
        );
    lemma_clash_free_subset(b.seen@, b.seen@.union(inode_payloads(b.epoch@)));
    lemma_overlaying(a, b, tx, decode, log, h);
    let n = a.ns();
    let o = a.epoch@;
    let v = attrs_set(inode_over(tx, o, ino), update, now);
    let op = OpView::Setattr { ino, inode_id: digest(inode_bytes(v)) };
    assert(logged(records, b.epoch.seq, op));
    lemma_setup(a, b, tx, records, decode, log, h);
    lemma_held_in_overlay(a, b, ino);
    read_inode_stands(tx, a.epoch, h, ino);
    let m = replayed(n, a.objects(), ops_of(log));
    setattr_is_shown(m, n, o, ino, v);
    assert(op_chunks(op).len() == 0);
    lemma_step(a, b, records, op, decode, log, h);
}

/// A name that is found in a directory that is no other thing is found in a directory.
proof fn lemma_found_in_dir(n: Namespace, o: Overlay, dir: u64, name: Seq<u8>)
    requires
        overlay_ok(n, o),
        shown(n, o, dir),
        !crate::overlay::base_not_dir(n, dir),
        entry_over(n, o, dir, name) is Some,
    ensures
        dir_shown(n, o, dir),
{
    if o.inodes.contains_key(dir) {
        assert(kind_kept(n, o, dir));
    }
    if o.names.contains_key((dir, name)) {
        assert(o.inodes.contains_key(dir));
    } else if !n.contains_key(dir) {
        let s = crate::epoch::base_entries(n, dir);
        assert(s.len() == 0);
        assert(lookup(s, name) is None) by {
            assert(rank(s, name) == 0);
        }
    }
}

/// An acknowledged removal is survived. The child is not the directory itself.
#[verifier::rlimit(60)]
#[verifier::spinoff_prover]
pub proof fn unlink_is_survived<B: IoBackend, F: Fn(&[u8]) -> Option<Descriptor>>(
    a: Store<B>,
    b: Store<B>,
    parent: u64,
    name: Seq<u8>,
    rmdir: bool,
    now: Timespec,
    child: u64,
    decode: F,
    log: Seq<(u64, OpView)>,
    h: nat,
)
    requires
        mirrored(a, decode, log, h),
        countable_store(a),
        unlink_logged(a, b, parent, name, rmdir, now, child),
        unclashing(b),
        child != parent,
    ensures
        exists|op: OpView| #[trigger] mirrored(b, decode, log.push((b.epoch.seq, op)), h),
{
    let (tx, records) = choose|tx: Tx<B>, records: Seq<PendingRecord>| #[trigger]
        op_logged(a, b, tx, records) && unlink_recorded(
            tx,
            a.epoch,
            b.epoch,
            records,
            parent,
            name,
            rmdir,
            now,
            child,
        );
    lemma_clash_free_subset(b.seen@, b.seen@.union(inode_payloads(b.epoch@)));
    lemma_overlaying(a, b, tx, decode, log, h);
    let n = a.ns();
    let o = a.epoch@;
    let left = link_left(inode_over(tx, o, child), rmdir);
    let pv = unlink_parent(inode_over(tx, o, parent), rmdir, now);
    let op = OpView::Unlink {
        parent,
        name,
        child,
        is_dir: rmdir,
        parent_inode_id: digest(inode_bytes(pv)),
        child_inode_id: opt_digest(left),
    };
    let e = Event::Unlink { parent, name, child, parent_inode: pv, child_inode: left };
    assert(logged(records, b.epoch.seq, op));
    lemma_setup(a, b, tx, records, decode, log, h);
    let m = replayed(n, a.objects(), ops_of(log));
    assert(b.epoch@ == unlink_staged(o, parent, name, child, left, pv));
    lemma_unlink_shown(tx, a.epoch, b.epoch, m, h, parent, name, rmdir, child, now);
    assert(reachable(b.epoch, a.index, digest(inode_bytes(pv))));
    assert(left matches Some(v) ==> reachable(b.epoch, a.index, digest(inode_bytes(v))));
    lemma_unlink_resolved(a, b, op, e);
    lemma_step_event(a, b, records, op, e, decode, log, h);
}

/// What a removal stages, its record makes of the mirrored namespace.
#[verifier::rlimit(40)]
#[verifier::spinoff_prover]
proof fn lemma_unlink_shown<B: IoBackend>(
    tx: Tx<B>,
    ep: Epoch,
    next: Epoch,
    m: Namespace,
    h: nat,
    parent: u64,
    name: Seq<u8>,
    rmdir: bool,
    child: u64,
    now: Timespec,
)
    requires
        overlays(tx, ep, h),
        mirrors(m, tx.ns(), ep@),
        numbered(tx.ns(), ep),
        child != parent,
        !unlink_over_refused(tx.ns(), ep@, parent, name, rmdir),
        child == child_over(tx.ns(), ep@, parent, name),
        next.max_ino == ep.max_ino,
        next@ == unlink_staged(
            ep@,
            parent,
            name,
            child,
            link_left(inode_over(tx, ep@, child), rmdir),
            unlink_parent(inode_over(tx, ep@, parent), rmdir, now),
        ),
    ensures
        ({
            let e = Event::Unlink {
                parent,
                name,
                child,
                parent_inode: unlink_parent(inode_over(tx, ep@, parent), rmdir, now),
                child_inode: link_left(inode_over(tx, ep@, child), rmdir),
            };
            applicable(m, e) && mirrors(applied(m, e), tx.ns(), next@)
        }),
        numbered(tx.ns(), next),
{
    let n = tx.ns();
    let o = ep@;
    let left = link_left(inode_over(tx, o, child), rmdir);
    let pv = unlink_parent(inode_over(tx, o, parent), rmdir, now);
    lemma_found_in_dir(n, o, parent, name);
    read_inode_stands(tx, ep, h, parent);
    read_inode_stands(tx, ep, h, child);
    unlink_is_shown(m, n, o, parent, name, child, left, pv);
}

#[verifier::rlimit(40)]
#[verifier::spinoff_prover]
proof fn lemma_unlink_resolved<B: IoBackend>(a: Store<B>, b: Store<B>, op: OpView, e: Event)
    requires
        a.ready(),
        b.ready(),
        a.objects().subset_of(b.objects()),
        staged_held(b),
        b.objects() == b.given@,
        unclashing(b),
        e matches Event::Unlink { parent, name, child, parent_inode, child_inode } && {
            &&& op matches OpView::Unlink {
                parent: p,
                name: s,
                child: c,
                is_dir,
                parent_inode_id,
                child_inode_id,
            }
            &&& p == parent && s == name && c == child
            &&& parent_inode_id == digest(inode_bytes(parent_inode))
            &&& child_inode_id == opt_digest(child_inode)
            &&& b.epoch@.inodes.contains_key(parent) && b.epoch@.inodes[parent] == parent_inode
            &&& reachable(b.epoch, a.index, parent_inode_id)
            &&& child_inode matches Some(v) ==> b.epoch@.inodes.contains_key(child)
                && b.epoch@.inodes[child] == v && reachable(
                b.epoch,
                a.index,
                digest(inode_bytes(v)),
            )
        },
    ensures
        resolves(b.objects(), op),
        resolved(b.objects(), op) == e,
        op_chunks(op).len() == 0,
{
    lemma_held_in_overlay(a, b, e->Unlink_parent);
    if e->child_inode is Some {
        lemma_held_in_overlay(a, b, e->child);
    }
    lemma_unlink_event(b.objects(), op, e);
}

proof fn lemma_unlink_event(q: Set<Seq<u8>>, op: OpView, e: Event)
    requires
        e matches Event::Unlink { parent, name, child, parent_inode, child_inode } && {
            &&& op matches OpView::Unlink {
                parent: p,
                name: s,
                child: c,
                is_dir,
                parent_inode_id,
                child_inode_id,
            }
            &&& p == parent && s == name && c == child
            &&& stored_inode(q, parent_inode_id) == Some(parent_inode)
            &&& child_inode_id is Some == child_inode is Some
            &&& child_inode_id matches Some(id) ==> stored_inode(q, id) == child_inode
        },
    ensures
        resolves(q, op),
        resolved(q, op) == e,
        op_chunks(op).len() == 0,
{
}

/// One operation without chunks more, by its event.
proof fn lemma_step_event<B: IoBackend, F: Fn(&[u8]) -> Option<Descriptor>>(
    a: Store<B>,
    b: Store<B>,
    records: Seq<PendingRecord>,
    op: OpView,
    e: Event,
    decode: F,
    log: Seq<(u64, OpView)>,
    h: nat,
)
    requires
        mirrored(a, decode, log, h),
        clash_free(b.seen@),
        b.ready(),
        b.config == a.config && b.root == a.root,
        b.epoch.seq == a.epoch.seq + 1,
        log_appended(
            (Store { epoch: b.epoch, epoch_pending: b.epoch_pending, ..a }),
            b,
            records,
        ),
        records_cover(a.epoch, b.epoch, records),
        logged(records, b.epoch.seq, op),
        resolves(b.objects(), op),
        resolved(b.objects(), op) == e,
        op_chunks(op).len() == 0,
        applicable(replayed(a.ns(), a.objects(), ops_of(log)), e),
        mirrors(
            applied(replayed(a.ns(), a.objects(), ops_of(log)), e),
            a.ns(),
            b.epoch@,
        ),
        mapped(replayed_chunks(a.chunks(), ops_of(log), decode)) == mapped(
            a.chunks(),
        ).union_prefer_right(b.epoch@.chunks),
        numbered(a.ns(), b.epoch),
    ensures
        mirrored(b, decode, log.push((b.epoch.seq, op)), h),
{
    lemma_step(a, b, records, op, decode, log, h);
}

/// The inodes that a rename stages besides those of the overlay.
pub open spec fn rename_payloads<B: IoBackend>(
    a: Store<B>,
    sp: u64,
    sn: Seq<u8>,
    dp: u64,
    now: Timespec,
    replaced: Option<u64>,
) -> Set<Seq<u8>> {
    let src = inode_read(a, child_over(a.ns(), a.epoch@, sp, sn));
    let dpv = rename_dst_parent(
        inode_read(a, dp),
        sp != dp,
        is_dir(src),
        replaced matches Some(d) && is_dir(inode_read(a, d)),
        now,
    );
    set![inode_bytes(src), inode_bytes(dpv)]
}

/// The inode of a number as it is read is in order.
proof fn lemma_read_inode_ok<B: IoBackend, F: Fn(&[u8]) -> Option<Descriptor>>(
    a: Store<B>,
    decode: F,
    log: Seq<(u64, OpView)>,
    h: nat,
    ino: u64,
)
    requires
        mirrored(a, decode, log, h),
        shown(a.ns(), a.epoch@, ino),
    ensures
        inode_ok(inode_read(a, ino)),
{
    reveal(mirrored);
    if a.epoch@.inodes.contains_key(ino) {
        lemma_epoch_inode(a.epoch, ino);
    } else {
        let p = a.objects();
        let table = a.root@.inode_index_root;
        let f = a.config.max_fanout;
        lemma_ns_at(p, table, f, h, ino);
        let id = lookup(listing(p, table, f), crate::fs::ino_key(ino))->0;
        inode_decoded_ok(crate::fs::object(p, id)->0);
    }
}

/// An acknowledged rename is survived. The moved inode and the replaced one are none of the
/// directories. A name renamed onto itself leaves the store.
#[verifier::rlimit(80)]
#[verifier::spinoff_prover]
pub proof fn rename_is_survived<B: IoBackend, F: Fn(&[u8]) -> Option<Descriptor>>(
    a: Store<B>,
    b: Store<B>,
    sp: u64,
    sn: Seq<u8>,
    dp: u64,
    dn: Seq<u8>,
    now: Timespec,
    out: RenameOutcome,
    decode: F,
    log: Seq<(u64, OpView)>,
    h: nat,
)
    requires
        mirrored(a, decode, log, h),
        countable_store(a),
        rename_logged(a, b, sp, sn, dp, dn, now, out),
        clash_free(
            b.seen@.union(inode_payloads(b.epoch@)).union(
                rename_payloads(a, sp, sn, dp, now, out.replaced_dst_ino),
            ),
        ),
        out.src_ino != sp && out.src_ino != dp,
        out.replaced_dst_ino != Some(sp) && out.replaced_dst_ino != Some(dp),
    ensures
        sp == dp && sn == dn ==> mirrored(b, decode, log, h),
        !(sp == dp && sn == dn) ==> exists|op: OpView| #[trigger]
            mirrored(b, decode, log.push((b.epoch.seq, op)), h),
{
    let (tx, records) = choose|tx: Tx<B>, records: Seq<PendingRecord>| #[trigger]
        op_logged(a, b, tx, records) && rename_recorded(
            tx,
            a.epoch,
            b.epoch,
            records,
            sp,
            sn,
            dp,
            dn,
            now,
            out,
        );
    let extra = rename_payloads(a, sp, sn, dp, now, out.replaced_dst_ino);
    let all = b.seen@.union(inode_payloads(b.epoch@)).union(extra);
    lemma_clash_free_subset(b.seen@, all);
    lemma_clash_free_subset(b.seen@.union(inode_payloads(b.epoch@)), all);
    if sp == dp && sn == dn {
        assert(b == a);
    } else {
        lemma_overlaying(a, b, tx, decode, log, h);
        let n = a.ns();
        let o = a.epoch@;
        let e = entry_over(n, o, sp, sn)->0;
        let src = inode_over(tx, o, e.ino);
        let dir = is_dir(src);
        let across = sp != dp;
        let replaced = out.replaced_dst_ino;
        let spv = rename_src_parent(inode_over(tx, o, sp), across, dir, now);
        let dpv = rename_dst_parent(
            inode_over(tx, o, dp),
            across,
            dir,
            replaced matches Some(d) && is_dir(inode_over(tx, o, d)),
            now,
        );
        let op = OpView::Rename {
            src_parent: sp,
            src_name: sn,
            dst_parent: dp,
            dst_name: dn,
            src_ino: e.ino,
            dst_ino: replaced,
            src_is_dir: dir,
            sp_inode_id: digest(inode_bytes(spv)),
            dp_inode_id: digest(inode_bytes(dpv)),
            src_child_inode_id: Some(digest(inode_bytes(src))),
            dst_child_inode_id: None,
        };
        let ev = Event::Rename {
            src_parent: sp,
            src_name: sn,
            dst_parent: dp,
            dst_name: dn,
            src_ino: e.ino,
            dst_ino: replaced,
            src_is_dir: dir,
            src_parent_inode: spv,
            dst_parent_inode: dpv,
            src_inode: Some(src),
        };
        assert(rename_done(tx, a.epoch, b.epoch, sp, sn, dp, dn, now, replaced, records));
        assert(logged(records, b.epoch.seq, op));
        lemma_setup(a, b, tx, records, decode, log, h);
        let m = replayed(n, a.objects(), ops_of(log));
        lemma_rename_shown(tx, a.epoch, b.epoch, m, h, sp, sn, dp, dn, now, replaced, spv, dpv);
        assert(extra.contains(inode_bytes(src)) && extra.contains(inode_bytes(dpv)));
        lemma_read_inode_ok(a, decode, log, h, e.ino);
        lemma_read_inode_ok(a, decode, log, h, dp);
        lemma_clash_free_subset(b.seen@.insert(inode_bytes(src)), all);
        lemma_clash_free_subset(b.seen@.insert(inode_bytes(dpv)), all);
        lemma_epoch_inode(b.epoch, sp);
        lemma_rename_resolved(a, b, op, ev);
        lemma_step_event(a, b, records, op, ev, decode, log, h);
    }
}

/// What a rename stages, its record makes of the mirrored namespace.
#[verifier::rlimit(60)]
#[verifier::spinoff_prover]
proof fn lemma_rename_shown<B: IoBackend>(
    tx: Tx<B>,
    ep: Epoch,
    next: Epoch,
    m: Namespace,
    h: nat,
    sp: u64,
    sn: Seq<u8>,
    dp: u64,
    dn: Seq<u8>,
    now: Timespec,
    replaced: Option<u64>,
    spv: InodeView,
    dpv: InodeView,
)
    requires
        overlays(tx, ep, h),
        mirrors(m, tx.ns(), ep@),
        numbered(tx.ns(), ep),
        !rename_over_refused(tx.ns(), ep@, sp, sn, dp, dn),
        !(sp == dp && sn == dn),
        replaced == replaced_over(tx.ns(), ep@, child_over(tx.ns(), ep@, sp, sn), dp, dn),
        child_over(tx.ns(), ep@, sp, sn) != sp && child_over(tx.ns(), ep@, sp, sn) != dp,
        replaced != Some(sp) && replaced != Some(dp),
        next.max_ino == ep.max_ino,
        ({
            let dir = is_dir(inode_over(tx, ep@, child_over(tx.ns(), ep@, sp, sn)));
            &&& spv == rename_src_parent(inode_over(tx, ep@, sp), sp != dp, dir, now)
            &&& dpv == rename_dst_parent(
                inode_over(tx, ep@, dp),
                sp != dp,
                dir,
                replaced matches Some(d) && is_dir(inode_over(tx, ep@, d)),
                now,
            )
        }),
        next@ == rename_staged(
            ep@,
            sp,
            sn,
            dp,
            dn,
            entry_over(tx.ns(), ep@, sp, sn)->0,
            replaced_left(tx, ep@, replaced),
            spv,
            dpv,
        ),
    ensures
        ({
            let src = inode_over(tx, ep@, child_over(tx.ns(), ep@, sp, sn));
            let ev = Event::Rename {
                src_parent: sp,
                src_name: sn,
                dst_parent: dp,
                dst_name: dn,
                src_ino: child_over(tx.ns(), ep@, sp, sn),
                dst_ino: replaced,
                src_is_dir: is_dir(src),
                src_parent_inode: spv,
                dst_parent_inode: dpv,
                src_inode: Some(src),
            };
            applicable(m, ev) && mirrors(applied(m, ev), tx.ns(), next@)
        }),
        numbered(tx.ns(), next),
        next@.chunks == ep@.chunks,
        next@.inodes.contains_key(sp) && next@.inodes[sp] == spv,
        shown(tx.ns(), ep@, child_over(tx.ns(), ep@, sp, sn)),
        shown(tx.ns(), ep@, dp),
{
    let n = tx.ns();
    let o = ep@;
    let e = entry_over(n, o, sp, sn)->0;
    let src = inode_over(tx, o, e.ino);
    lemma_found_in_dir(n, o, sp, sn);
    read_inode_stands(tx, ep, h, sp);
    read_inode_stands(tx, ep, h, dp);
    read_inode_stands(tx, ep, h, e.ino);
    let dst = match replaced {
        Some(d) => Some((d, inode_over(tx, o, d))),
        None => None,
    };
    if let Some(d) = replaced {
        read_inode_stands(tx, ep, h, d);
    }
    assert(replaced_left(tx, o, replaced) == (match dst {
        Some(d) => Some((d.0, link_left(d.1, is_dir(d.1)))),
        None => None,
    }));
    rename_is_shown(m, n, o, sp, sn, spv, dp, dn, dpv, e, src, dst);
}

#[verifier::rlimit(40)]
#[verifier::spinoff_prover]
proof fn lemma_rename_resolved<B: IoBackend>(a: Store<B>, b: Store<B>, op: OpView, e: Event)
    requires
        a.ready(),
        b.ready(),
        a.objects().subset_of(b.objects()),
        staged_held(b),
        b.objects() == b.given@,
        unclashing(b),
        e matches Event::Rename {
            src_parent,
            src_name,
            dst_parent,
            dst_name,
            src_ino,
            dst_ino,
            src_is_dir,
            src_parent_inode,
            dst_parent_inode,
            src_inode,
        } && {
            &&& src_inode is Some
            &&& op == (OpView::Rename {
                src_parent,
                src_name,
                dst_parent,
                dst_name,
                src_ino,
                dst_ino,
                src_is_dir,
                sp_inode_id: digest(inode_bytes(src_parent_inode)),
                dp_inode_id: digest(inode_bytes(dst_parent_inode)),
                src_child_inode_id: Some(digest(inode_bytes(src_inode->0))),
                dst_child_inode_id: None,
            })
            &&& b.epoch@.inodes.contains_key(src_parent)
            &&& b.epoch@.inodes[src_parent] == src_parent_inode
            &&& inode_ok(dst_parent_inode) && inode_ok(src_inode->0)
            &&& clash_free(b.seen@.insert(inode_bytes(dst_parent_inode)))
            &&& clash_free(b.seen@.insert(inode_bytes(src_inode->0)))
            &&& reachable(b.epoch, a.index, digest(inode_bytes(src_parent_inode)))
            &&& reachable(b.epoch, a.index, digest(inode_bytes(dst_parent_inode)))
            &&& reachable(b.epoch, a.index, digest(inode_bytes(src_inode->0)))
        },
    ensures
        resolves(b.objects(), op),
        resolved(b.objects(), op) == e,
        op_chunks(op).len() == 0,
{
    lemma_held_in_overlay(a, b, e->src_parent);
    lemma_held_inode(a, b, e->dst_parent_inode);
    lemma_held_inode(a, b, e->src_inode->0);
    lemma_rename_event(b.objects(), op, e);
}

#[verifier::rlimit(80)]
#[verifier::spinoff_prover]
proof fn lemma_rename_event(q: Set<Seq<u8>>, op: OpView, e: Event)
    requires
        e matches Event::Rename {
            src_parent,
            src_name,
            dst_parent,
            dst_name,
            src_ino,
            dst_ino,
            src_is_dir,
            src_parent_inode,
            dst_parent_inode,
            src_inode,
        } && {
            &&& src_inode is Some
            &&& op == (OpView::Rename {
                src_parent,
                src_name,
                dst_parent,
                dst_name,
                src_ino,
                dst_ino,
                src_is_dir,
                sp_inode_id: digest(inode_bytes(src_parent_inode)),
                dp_inode_id: digest(inode_bytes(dst_parent_inode)),
                src_child_inode_id: Some(digest(inode_bytes(src_inode->0))),
                dst_child_inode_id: None,
            })
            &&& stored_inode(q, digest(inode_bytes(src_parent_inode))) == Some(src_parent_inode)
            &&& stored_inode(q, digest(inode_bytes(dst_parent_inode))) == Some(dst_parent_inode)
            &&& stored_inode(q, digest(inode_bytes(src_inode->0))) == src_inode
        },
    ensures
        resolves(q, op),
        resolved(q, op) == e,
        op_chunks(op).len() == 0,
{
}

/// The descriptors of a write are those that the epoch has for their chunks, where it has
/// any.
pub open spec fn agreeing(m: Map<Seq<u8>, Seq<u8>>, us: Seq<ExtentUpdate>) -> bool
    decreases us.len(),
{
    us.len() == 0 || {
        let had = chunks_over(m, us.drop_last());
        let u = us.last();
        &&& agreeing(m, us.drop_last())
        &&& self_alias(u.descriptor.form, u.content_id@) || !had.contains_key(u.content_id@)
            || had[u.content_id@] == u.bytes@
    }
}

/// The bytes of each update decode to its descriptor.
pub open spec fn decodes<F: Fn(&[u8]) -> Option<Descriptor>>(
    us: Seq<ExtentUpdate>,
    decode: F,
) -> bool {
    forall|i: int|
        0 <= i < us.len() ==> decoded(decode, (#[trigger] us[i]).bytes@) == Some(us[i].descriptor)
}

proof fn lemma_chunks_shown<F: Fn(&[u8]) -> Option<Descriptor>>(
    s: Listing,
    base: Map<Seq<u8>, Seq<u8>>,
    m: Map<Seq<u8>, Seq<u8>>,
    us: Seq<ExtentUpdate>,
    decode: F,
)
    requires
        sorted(s),
        mapped(s) == base.union_prefer_right(m),
        agreeing(m, us),
        decodes(us, decode),
    ensures
        mapped(chunk_index_with(s, update_chunks(us), decode)) == base.union_prefer_right(
            chunks_over(m, us),
        ),
    decreases us.len(),
{
    let cs = update_chunks(us);
    if us.len() > 0 {
        let had = us.drop_last();
        let u = us.last();
        assert(update_chunks(had) =~= cs.drop_last());
        assert(cs.last() == (u.offset, u.content_id@, u.bytes@));
        assert(us[us.len() - 1] == u);
        assert forall|i: int| 0 <= i < had.len() implies decoded(
            decode,
            (#[trigger] had[i]).bytes@,
        ) == Some(had[i].descriptor) by {
            assert(us[i] == had[i]);
        }
        lemma_chunks_shown(s, base, m, had, decode);
        lemma_with_sorted(s, cs.drop_last(), decode);
        let t = chunk_index_with(s, cs.drop_last(), decode);
        lemma_mapped_upsert(t, u.content_id@, u.bytes@);
        assert(mapped(chunk_index_with(s, cs, decode)) =~= base.union_prefer_right(
            chunks_over(m, us),
        ));
    }
}

/// An acknowledged write is survived, with the descriptors of its chunks. It is so where
/// its descriptors are those that the epoch has for the chunks already, if any.
#[verifier::rlimit(60)]
#[verifier::spinoff_prover]
pub proof fn write_is_survived<B: IoBackend, F: Fn(&[u8]) -> Option<Descriptor>>(
    a: Store<B>,
    b: Store<B>,
    ino: u64,
    updates: Seq<ExtentUpdate>,
    end: u64,
    decode: F,
    log: Seq<(u64, OpView)>,
    h: nat,
)
    requires
        mirrored(a, decode, log, h),
        countable_store(a),
        write_logged(a, b, ino, updates, end),
        unclashing(b),
        decodes(updates, decode),
        agreeing(a.epoch@.chunks, updates),
    ensures
        exists|op: OpView| #[trigger] mirrored(b, decode, log.push((b.epoch.seq, op)), h),
{
    let (tx, records) = choose|tx: Tx<B>, records: Seq<PendingRecord>| #[trigger]
        op_logged(a, b, tx, records) && write_recorded(
            tx,
            a.epoch,
            b.epoch,
            records,
            ino,
            updates,
            end,
        );
    lemma_clash_free_subset(b.seen@, b.seen@.union(inode_payloads(b.epoch@)));
    lemma_overlaying(a, b, tx, decode, log, h);
    let n = a.ns();
    let o = a.epoch@;
    let v = write_inode(inode_over(tx, o, ino), end);
    let cs = update_chunks(updates);
    let op = OpView::Write { ino, size: v.size, chunks: cs, inode_id: digest(inode_bytes(v)) };
    assert(logged(records, b.epoch.seq, op));
    lemma_setup(a, b, tx, records, decode, log, h);
    lemma_held_in_overlay(a, b, ino);
    read_inode_stands(tx, a.epoch, h, ino);
    let m = replayed(n, a.objects(), ops_of(log));
    write_is_shown(m, n, o, ino, cs, v, chunks_over(o.chunks, updates));
    assert(all_decode(op_chunks(op), decode)) by {
        assert forall|i: int| 0 <= i < cs.len() implies decoded(decode, (#[trigger] cs[i]).2) is Some by {
            assert(decoded(decode, updates[i].bytes@) is Some);
        }
    }
    lemma_chunks_shown(
        replayed_chunks(a.chunks(), ops_of(log), decode),
        mapped(a.chunks()),
        o.chunks,
        updates,
        decode,
    );
    lemma_step(a, b, records, op, decode, log, h);
}

} // verus!
