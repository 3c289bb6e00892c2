//! Laws of snapshots, and of what each operation leaves alone: a snapshot that is restored
//! gives back everything that there was when it was taken.

use vstd::prelude::*;

use crate::chunk::digest;
use crate::codec::CodecError;
use crate::data_ops::data_landed;
use crate::fs::{lemma_fs_grows, lemma_tree_grows, Listing, Namespace, BTREE_ORDER};
use crate::index_edit::lemma_clash_free_subset;
use crate::io::IoBackend;
use crate::journal::{accounted, keeps_given, merged};
use crate::ops::landed;
use crate::root::{root_bytes, root_ok};
use crate::snap_ops::{restored, restored_from, snap_changing, snap_landed, snapshot_pins_its_root};
use crate::snapshot::{parse_snapshot, snapshot_bytes, snapshot_cut, snapshot_in, snapshot_put,
    snapshot_round_trip};
use crate::sorted::{lemma_lookup_erase, lemma_lookup_upsert, lookup, sorted, upsert};
use crate::store::{lemma_given, Store};
use crate::tree::clash_free;

verus! {

/// What was in the store stays in it.
proof fn lemma_held<B: IoBackend>(a: Store<B>, b: Store<B>)
    requires
        a.wf(),
        b.wf(),
        accounted(a, b),
        clash_free(b.seen@),
    ensures
        a.objects().subset_of(b.objects()),
        clash_free(b.objects()),
{
    reveal(keeps_given);
    lemma_clash_free_subset(b.given@, b.seen@);
    lemma_clash_free_subset(a.given@, b.given@);
    lemma_given(a.objects(), a.given@);
    lemma_given(b.objects(), b.given@);
}

/// Restoring a snapshot gives back the namespace, the chunk index and the snapshots of when
/// it was taken, with the snapshot itself among them; the directory at the top is the one of
/// then, and neither the generations nor the log run back.
pub proof fn restore_gives_back<B: IoBackend>(
    a: Store<B>,
    c: Store<B>,
    mid: Store<B>,
    name: Seq<u8>,
    taken: u64,
    h: nat,
)
    requires
        restored_from(c, mid, name, (digest(root_bytes(a.root@)), taken)),
        root_ok(a.root@),
        c.wf() && mid.wf(),
        c.config.max_fanout == a.config.max_fanout,
        BTREE_ORDER <= a.config.max_fanout,
        clash_free(mid.seen@),
        a.objects().subset_of(c.objects()),
        c.objects().contains(root_bytes(a.root@)),
        a.whole(h),
        a.chunks_ok(h),
        a.snaps_ok(h),
    ensures
        mid.ns() == a.ns(),
        mid.chunks() == a.chunks(),
        mid.snaps() == upsert(
            a.snaps(),
            name,
            snapshot_bytes((digest(root_bytes(a.root@)), taken)),
        ),
        mid.whole(h) && mid.chunks_ok(h) && mid.snaps_ok(h + 1),
        mid.root@.root_dir_ino == a.root@.root_dir_ino,
        mid.root@.uuid == a.root@.uuid,
        mid.generation == c.generation + 1,
        mid.root@.log_seq >= a.root@.log_seq && mid.root@.log_seq >= c.root@.log_seq,
{
    let entry = (digest(root_bytes(a.root@)), taken);
    let (bytes, snap) = choose|bytes: Seq<u8>, snap: crate::root::RootView| #[trigger]
        restored(c, mid, name, entry, bytes, snap);
    reveal(restored);
    let f = a.config.max_fanout;
    lemma_held(c, mid);
    lemma_clash_free_subset(c.objects(), mid.objects());
    snapshot_pins_its_root(c, a.root@, bytes, snap);
    lemma_fs_grows(a.objects(), c.objects(), a.root@.inode_index_root, f, h, h);
    lemma_tree_grows(a.objects(), c.objects(), a.root@.chunk_index_root, f, h, h);
    lemma_tree_grows(a.objects(), c.objects(), a.root@.snapshot_tree_root, f, h, h);
}

/// A snapshot that is taken is found under its name, with the root of now and the time
/// given; every other snapshot is found as before, and the namespace and the chunk index
/// stay.
pub proof fn snapshot_is_found<B: IoBackend>(
    a: Store<B>,
    mid: Store<B>,
    b: Store<B>,
    more: nat,
    name: Seq<u8>,
    e: (Seq<u8>, u64),
    fine: bool,
    h: nat,
    other: Seq<u8>,
)
    requires
        snap_landed(a, mid, b, more, snapshot_put(a.snaps(), name, e), fine),
        snap_changing(a, mid, h),
        a.wf() && mid.wf(),
        a.whole(h) && a.chunks_ok(h),
    ensures
        lookup(mid.snaps(), name) == Some(snapshot_bytes(e)),
        other != name ==> lookup(mid.snaps(), other) == lookup(a.snaps(), other),
        mid.ns() == a.ns() && mid.chunks() == a.chunks(),
        mid.root@.log_seq == a.root@.log_seq && mid.root@.root_dir_ino == a.root@.root_dir_ino,
        mid.generation == a.generation + 1,
{
    let f = a.config.max_fanout;
    lemma_held(a, mid);
    lemma_tree_grows(a.objects(), mid.objects(), a.root@.chunk_index_root, f, h, h);
    lemma_fs_grows(a.objects(), mid.objects(), a.root@.inode_index_root, f, h, h);
    crate::fs::lemma_tree_sorted(a.objects(), a.root@.snapshot_tree_root, f, h);
    lemma_lookup_upsert(a.snaps(), name, snapshot_bytes(e), name);
    lemma_lookup_upsert(a.snaps(), name, snapshot_bytes(e), other);
}

/// A deleted snapshot is gone, every other is found as before, and the namespace and the
/// chunk index stay.
pub proof fn deleted_snapshot_is_gone<B: IoBackend>(
    a: Store<B>,
    mid: Store<B>,
    b: Store<B>,
    more: nat,
    name: Seq<u8>,
    fine: bool,
    h: nat,
    other: Seq<u8>,
)
    requires
        snap_landed(a, mid, b, more, snapshot_cut(a.snaps(), name), fine),
        snap_changing(a, mid, h),
        a.wf() && mid.wf(),
        a.whole(h) && a.chunks_ok(h),
    ensures
        lookup(mid.snaps(), name) is None,
        other != name ==> lookup(mid.snaps(), other) == lookup(a.snaps(), other),
        mid.ns() == a.ns() && mid.chunks() == a.chunks(),
        mid.root@.log_seq == a.root@.log_seq && mid.root@.root_dir_ino == a.root@.root_dir_ino,
{
    let f = a.config.max_fanout;
    lemma_held(a, mid);
    lemma_tree_grows(a.objects(), mid.objects(), a.root@.chunk_index_root, f, h, h);
    lemma_fs_grows(a.objects(), mid.objects(), a.root@.inode_index_root, f, h, h);
    crate::fs::lemma_tree_sorted(a.objects(), a.root@.snapshot_tree_root, f, h);
    lemma_lookup_erase(a.snaps(), name, name);
    lemma_lookup_erase(a.snaps(), name, other);
}

/// An operation on names or attributes leaves the chunk index, the snapshots, the log and
/// the top directory as they were, and counts one generation.
pub proof fn names_keep_chunks_and_snapshots<B: IoBackend>(
    a: Store<B>,
    mid: Store<B>,
    b: Store<B>,
    more: nat,
    n: Namespace,
    fine: bool,
    h: nat,
)
    requires
        landed(a, mid, b, more, n, fine),
        clash_free(mid.seen@),
        a.wf() && mid.wf(),
        a.chunks_ok(h) && a.snaps_ok(h),
    ensures
        mid.chunks() == a.chunks() && mid.chunks_ok(h),
        mid.snaps() == a.snaps() && mid.snaps_ok(h),
        mid.root@.log_seq == a.root@.log_seq && mid.root@.root_dir_ino == a.root@.root_dir_ino,
        mid.root@.uuid == a.root@.uuid,
        mid.generation == a.generation + 1 && mid.epoch == a.epoch,
{
    let f = a.config.max_fanout;
    lemma_held(a, mid);
    lemma_tree_grows(a.objects(), mid.objects(), a.root@.chunk_index_root, f, h, h);
    lemma_tree_grows(a.objects(), mid.objects(), a.root@.snapshot_tree_root, f, h, h);
}

/// A write of file data leaves the snapshots, the log and the top directory as they were.
pub proof fn writes_keep_snapshots<B: IoBackend>(
    a: Store<B>,
    mid: Store<B>,
    mask: u64,
    more: nat,
    room: bool,
    n: Namespace,
    c: Listing,
    h: nat,
)
    requires
        data_landed(a, mid, mask, more, room, n, c),
        clash_free(mid.seen@),
        a.wf() && mid.wf(),
        a.snaps_ok(h),
    ensures
        mid.snaps() == a.snaps() && mid.snaps_ok(h),
        mid.root@.log_seq == a.root@.log_seq && mid.root@.root_dir_ino == a.root@.root_dir_ino,
        mid.root@.uuid == a.root@.uuid,
        mid.generation == a.generation + 1 && mid.epoch == a.epoch,
{
    lemma_held(a, mid);
    lemma_tree_grows(
        a.objects(),
        mid.objects(),
        a.root@.snapshot_tree_root,
        a.config.max_fanout,
        h,
        h,
    );
}

/// A checkpoint leaves the snapshots and the top directory as they were.
pub proof fn checkpoint_keeps_snapshots<B: IoBackend>(a: Store<B>, b: Store<B>, h: nat)
    requires
        merged(a, b),
        clash_free(b.seen@),
        a.wf() && b.wf(),
        b.config == a.config,
        a.snaps_ok(h),
    ensures
        b.snaps() == a.snaps() && b.snaps_ok(h),
        b.root@.root_dir_ino == a.root@.root_dir_ino && b.root@.uuid == a.root@.uuid,
        b.root@.log_seq >= a.root@.log_seq && b.root@.log_seq >= a.epoch.seq,
{
    lemma_held(a, b);
    lemma_tree_grows(
        a.objects(),
        b.objects(),
        a.root@.snapshot_tree_root,
        a.config.max_fanout,
        h,
        h,
    );
}

/// A lookup tells a snapshot apart from none: it finds the one that was put under the name, and
/// none where none was or it was taken out. A value that does not decode is an error.
pub proof fn lookup_tells_snapshots(s: Listing, name: Seq<u8>, e: (Seq<u8>, u64))
    requires
        sorted(s),
        e.0.len() == 32,
    ensures
        snapshot_in(snapshot_put(s, name, e), name) == Ok::<Option<(Seq<u8>, u64)>, CodecError>(
            Some(e),
        ),
        snapshot_in(snapshot_cut(s, name), name) == Ok::<Option<(Seq<u8>, u64)>, CodecError>(None),
        lookup(s, name) is None ==> snapshot_in(s, name) == Ok::<
            Option<(Seq<u8>, u64)>,
            CodecError,
        >(None),
        lookup(s, name) matches Some(b) ==> (parse_snapshot(b) is Err ==> snapshot_in(
            s,
            name,
        ) is Err),
{
    lemma_lookup_upsert(s, name, snapshot_bytes(e), name);
    lemma_lookup_erase(s, name, name);
    snapshot_round_trip(e);
}

} // verus!
