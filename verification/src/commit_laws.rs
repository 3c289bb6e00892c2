//! Laws of commits: which are refused for want of room, what a published root and its
//! superblock keep of those before, and what a checkpoint leaves.

use vstd::prelude::*;

use crate::commit::{barrier_point, before_slot, encoded_size, next_root, no_room, superblock_of,
    synced_until, Space};
use crate::descriptor::{feature_mask, mask_of, self_alias, Descriptor, Feature, Form};
use crate::epoch::mapped;
use crate::extents::{mask_for, masks, ExtentUpdate};
use crate::inode::Timespec;
use crate::io::{file_of, IoBackend};
use crate::journal::{checkpointable, closed_when_full, idle, merged, settled, with_log,
    EPOCH_MAX_OPS};
use crate::place::{laid_at, open_end, view_of};
use crate::read_deps::resolved;
use crate::record::record_size;
use crate::root::RootView;
use crate::snap_ops::nanoseconds;
use crate::sorted::lookup;
use crate::store::Store;
use crate::superblock::SuperblockView;
use crate::transaction::{CrashPoint, PendingRecord};

verus! {

/// The records take the room that they take on disk, one after another.
pub proof fn records_take_their_size(records: Seq<PendingRecord>, r: PendingRecord)
    ensures
        encoded_size(Seq::<PendingRecord>::empty()) == 0,
        encoded_size(records.push(r)) == encoded_size(records) + record_size(view_of(r)),
        record_size(view_of(r)) == 58 + r.payload@.len(),
{
    assert(records.push(r).drop_last() =~= records);
}

/// A commit is refused for want of room exactly where the store has a capacity and what is
/// used, buffered and added is more than commits may fill.
pub proof fn room_is_what_is_left(space: Space, buffered: nat, records: Seq<PendingRecord>)
    requires
        space.used + buffered + encoded_size(records) <= u64::MAX,
    ensures
        no_room(space, buffered, records) <==> space.capacity > 0 && space.used + buffered
            + encoded_size(records) > space.watermark,
{
}

/// A commit publishes the root that was prepared, under the next generation and for the
/// segment that is written to.
pub proof fn next_root_is_prepared(root: RootView, generation: u64, segment_seq: u64)
    requires
        generation < u64::MAX,
    ensures
        ({
            let r = next_root(root, generation, segment_seq);
            &&& r.generation == generation + 1 && r.segment_seq == segment_seq
            &&& r.inode_index_root == root.inode_index_root
            &&& r.chunk_index_root == root.chunk_index_root
            &&& r.snapshot_tree_root == root.snapshot_tree_root
            &&& r.model_index_root == root.model_index_root
            &&& r.root_dir_ino == root.root_dir_ino && r.uuid == root.uuid
            &&& r.log_seq == root.log_seq && r.index_epoch == root.index_epoch
            &&& r.format_major == root.format_major && r.format_minor == root.format_minor
        }),
{
}

/// The superblock of a root names it, its generation and its segment, and the features in
/// use; the identity of the store stays.
pub proof fn superblock_names_the_root(
    sb: SuperblockView,
    root: RootView,
    id: Seq<u8>,
    features: u64,
)
    ensures
        ({
            let s = superblock_of(sb, root, id, features);
            &&& s.uuid == sb.uuid && s.root_object_id == id && s.incompat == features
            &&& s.generation == root.generation && s.segment_seq == root.segment_seq
        }),
{
}

/// A checkpoint leaves nothing pending, and its root stands for everything logged before.
pub proof fn checkpoint_leaves_nothing_pending<B: IoBackend>(a: Store<B>, b: Store<B>)
    requires
        merged(a, b),
    ensures
        idle(b),
        b.epoch_pending == 0,
        b.root@.log_seq >= a.epoch.seq,
        b.root@.log_seq >= a.root@.log_seq,
        b.root@.snapshot_tree_root == a.root@.snapshot_tree_root,
        b.root@.model_index_root == a.root@.model_index_root,
        b.root@.root_dir_ino == a.root@.root_dir_ino,
        b.root@.uuid == a.root@.uuid,
{
}

/// Once an operation was logged and the epoch was closed where it was full, it is not full.
pub proof fn full_epoch_is_closed<B: IoBackend>(a: Store<B>, b: Store<B>)
    requires
        closed_when_full(a, b),
        !idle(a),
    ensures
        b.epoch_pending < EPOCH_MAX_OPS,
        a.epoch_pending < EPOCH_MAX_OPS ==> b == a,
        a.epoch_pending >= EPOCH_MAX_OPS ==> idle(b),
{
}

/// What settles leaves nothing pending.
pub proof fn settled_is_idle<B: IoBackend>(a: Store<B>, b: Store<B>)
    requires
        settled(a, b),
    ensures
        idle(b),
{
}

/// The superblock file is durable only where the segment and the entries of the segment files
/// are.
pub proof fn superblock_is_synced_last<B: IoBackend>(p: CrashPoint, a: Store<B>, b: Store<B>)
    requires
        synced_until(p, a, b),
        p == CrashPoint::AfterSegmentFdatasync || p == CrashPoint::AfterSegmentDirFsync || p
            == CrashPoint::AfterSuperblockWrite || p == CrashPoint::AfterSuperblockFsync,
    ensures
        b.io.synced().segments.contains_key(a.segment.seq_of()),
        b.io.synced().segments[a.segment.seq_of()] == a.disk()[a.segment.seq_of()],
        p != CrashPoint::AfterSegmentFdatasync ==> b.io.synced().names == b.io.segments().dom(),
        p != CrashPoint::AfterSuperblockFsync ==> b.io.synced().superblock
            == a.io.synced().superblock,
        p == CrashPoint::AfterSuperblockFsync ==> b.io.synced().superblock == b.io.superblock(),
{
}

/// The bits of two features are never the same, and every feature has one.
pub proof fn features_have_their_bits(f: Feature, g: Feature)
    ensures
        feature_mask(f) != 0,
        f != g ==> feature_mask(f) & feature_mask(g) == 0,
{
    let x = feature_mask(f);
    let y = feature_mask(g);
    assert(x != y && (x == 0x001 || x == 0x002 || x == 0x004 || x == 0x008 || x == 0x010 || x
        == 0x020 || x == 0x040 || x == 0x080 || x == 0x100) && (y == 0x001 || y == 0x002 || y
        == 0x004 || y == 0x008 || y == 0x010 || y == 0x020 || y == 0x040 || y == 0x080 || y
        == 0x100) ==> x & y == 0) by (bit_vector);
}

/// Putting the log to use sets its bit and no other.
pub proof fn log_sets_its_bit(features: u64)
    ensures
        with_log(features) & 0x100 == 0x100,
        with_log(features) & !0x100u64 == features & !0x100u64,
{
    assert((features | 0x100) & 0x100 == 0x100) by (bit_vector);
    assert((features | 0x100) & !0x100u64 == features & !0x100u64) by (bit_vector);
    assert(features & 0x100 != 0 ==> features & 0x100 == 0x100) by (bit_vector);
}

/// The features of updates are those of each of them.
pub proof fn every_update_counts(us: Seq<ExtentUpdate>, i: int)
    requires
        0 <= i < us.len(),
    ensures
        masks(us) & mask_for(us[i]) == mask_for(us[i]),
    decreases us.len(),
{
    let p = us.drop_last();
    let a = masks(p);
    let b = mask_for(us.last());
    let c = mask_for(us[i]);
    if i < p.len() {
        every_update_counts(p, i);
        assert(p[i] == us[i]);
        assert(a & c == c ==> (a | b) & c == c) by (bit_vector);
    } else {
        assert((a | b) & b == b) by (bit_vector);
    }
}

/// A record goes behind what the segment has where it fits, and else to the next segment,
/// behind what that has.
pub proof fn record_goes_where_it_fits(
    files: Map<u64, Seq<u8>>,
    segment_size: u64,
    at: (u64, nat),
    size: nat,
)
    requires
        at.0 < u64::MAX,
        open_end(file_of(files, (at.0 + 1) as u64)) + size <= u64::MAX,
    ensures
        laid_at(files, segment_size, at, size) == Some(
            if at.1 + size <= segment_size {
                (at.0, at.1 + size)
            } else {
                ((at.0 + 1) as u64, open_end(file_of(files, (at.0 + 1) as u64)) + size)
            },
        ),
{
    reveal(laid_at);
}

/// A checkpoint lists every chunk with the descriptor that was pending for it, else with the
/// one that was committed; a read resolves a chunk as before.
pub proof fn checkpoint_keeps_descriptors<B: IoBackend, F: Fn(&[u8]) -> Option<Descriptor>>(
    a: Store<B>,
    b: Store<B>,
    h: nat,
    f: F,
    id: Seq<u8>,
)
    requires
        merged(a, b),
        checkpointable(a, b, h),
    ensures
        lookup(b.chunks(), id) == if a.epoch@.chunks.contains_key(id) {
            Some(a.epoch@.chunks[id])
        } else {
            lookup(a.chunks(), id)
        },
        resolved(f, b.epoch, b.chunks(), id) == resolved(f, a.epoch, a.chunks(), id),
{
    let m = mapped(a.chunks()).union_prefer_right(a.epoch@.chunks);
    assert(mapped(b.chunks()) == m);
    assert(mapped(b.chunks()).contains_key(id) == m.contains_key(id));
    if m.contains_key(id) {
        assert(mapped(b.chunks())[id] == m[id]);
    }
    assert(!b.epoch@.chunks.contains_key(id));
}

/// An update that only refers to its own content needs no feature; every other needs those of
/// its representation.
pub proof fn own_reference_needs_nothing(u: ExtentUpdate)
    ensures
        self_alias(u.descriptor.form, u.content_id@) ==> mask_for(u) == 0,
        !self_alias(u.descriptor.form, u.content_id@) ==> mask_for(u) == mask_of(u.descriptor.form),
        self_alias(u.descriptor.form, u.content_id@) <==> (u.descriptor.form matches Form::ExactRef {
            target,
        } && target@ == u.content_id@),
{
}

/// The time that a snapshot holds gives back the seconds and the nanoseconds.
pub proof fn snapshot_time_gives_back(t: Timespec)
    requires
        t.nsec < 1_000_000_000,
    ensures
        nanoseconds(t) / 1_000_000_000 == t.sec,
        nanoseconds(t) % 1_000_000_000 == t.nsec,
{
}

/// The points of a barrier that come before the slot is written are those up to the sync of the
/// segment directory; a crash before the commit or after the barrier is none of its points.
pub proof fn slot_comes_after_segments(p: CrashPoint)
    ensures
        before_slot(p) <==> p == CrashPoint::AfterRecordAppend || p
            == CrashPoint::AfterSegmentFdatasync || p == CrashPoint::AfterSegmentDirFsync,
        barrier_point(p) && !before_slot(p) <==> p == CrashPoint::AfterSuperblockWrite || p
            == CrashPoint::AfterSuperblockFsync,
{
}

} // verus!
