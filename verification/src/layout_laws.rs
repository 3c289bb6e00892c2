//! Laws of the format on disk: where each field of a stored value lies, and in which order its
//! bytes come.

use vstd::prelude::*;

use crate::bytes::{be_bytes, le_bytes, lemma_le_len};
use crate::codec::{u16_bytes, u32_bytes, u64_bytes, u8_bytes};
use crate::crc::crc32_of;
use crate::directory::{entry_bytes, DirEntry};
use crate::extent_tree::extent_key_of;
use crate::fs::ino_key;
use crate::inode::{data_bytes, inode_bytes, inode_ok, owner_bytes, tail_bytes, time_bytes,
    times_bytes, DataView, InodeView, Timespec};
use crate::log::{body_bytes, chunk_bytes, chunks_bytes, envelope_bytes, op_bytes, op_ok, OpView};
use crate::record::{header_bytes, record_bytes, record_ok, record_size, RecordView};
use crate::root::{root_bytes, root_head, root_middle, root_ok, root_tail, RootView};
use crate::snapshot::snapshot_bytes;
use crate::superblock::{slot_body, slot_bytes, slot_ok, SuperblockView};
use crate::version::{RecordTag, FORMAT_MAJOR};

verus! {

/// The bytes lie in the value, from the offset on.
pub open spec fn lies_at(s: Seq<u8>, at: int, part: Seq<u8>) -> bool {
    0 <= at && at + part.len() <= s.len() && s.subrange(at, at + part.len()) == part
}

/// A number lies in the value, in `n` bytes from the offset on, the least significant first.
pub open spec fn number_at(s: Seq<u8>, at: int, n: nat, v: nat) -> bool {
    lies_at(s, at, le_bytes(v, n))
}

/// Numbers are stored with their least significant byte first, keys with their most
/// significant one.
pub proof fn byte_orders(v: nat, n: nat)
    requires
        n > 0,
    ensures
        le_bytes(v, n)[0] == v % 256,
        le_bytes(v, n).drop_first() == le_bytes(v / 256, (n - 1) as nat),
        be_bytes(v, n).last() == v % 256,
        be_bytes(v, n).drop_last() == be_bytes(v / 256, (n - 1) as nat),
        le_bytes(v, n).len() == n,
{
    lemma_le_len(v, n);
    assert(le_bytes(v, n).drop_first() =~= le_bytes(v / 256, (n - 1) as nat));
    assert(be_bytes(v, n).drop_last() =~= be_bytes(v / 256, (n - 1) as nat));
}

/// The keys of inodes and extents are eight bytes, the most significant first.
pub proof fn keys_are_big_endian(ino: u64, offset: u64)
    ensures
        ino_key(ino) == be_bytes(ino as nat, 8),
        extent_key_of(offset) == be_bytes(offset as nat, 8),
{
}

proof fn lemma_lens()
    ensures
        forall|v: u8| (#[trigger] u8_bytes(v)).len() == 1,
        forall|v: u16| (#[trigger] u16_bytes(v)).len() == 2,
        forall|v: u32| (#[trigger] u32_bytes(v)).len() == 4,
        forall|v: u64| (#[trigger] u64_bytes(v)).len() == 8,
{
    assert forall|v: u8| (#[trigger] u8_bytes(v)).len() == 1 by {
        lemma_le_len(v as nat, 1);
    }
    assert forall|v: u16| (#[trigger] u16_bytes(v)).len() == 2 by {
        lemma_le_len(v as nat, 2);
    }
    assert forall|v: u32| (#[trigger] u32_bytes(v)).len() == 4 by {
        lemma_le_len(v as nat, 4);
    }
    assert forall|v: u64| (#[trigger] u64_bytes(v)).len() == 8 by {
        lemma_le_len(v as nat, 8);
    }
}

/// A superblock slot: magic, versions, identity, generation, root, segment and features, then
/// the checksum over these, then zeros up to the size of a slot.
#[verifier::rlimit(40)]
pub proof fn slot_layout(v: SuperblockView)
    requires
        slot_ok(v),
    ensures
        ({
            let s = slot_bytes(v);
            &&& s.len() == 4096
            &&& number_at(s, 0, 4, 0x4253_4645)
            &&& number_at(s, 4, 2, 1)
            &&& number_at(s, 6, 2, 0)
            &&& lies_at(s, 8, v.uuid)
            &&& number_at(s, 24, 8, v.generation as nat)
            &&& lies_at(s, 32, v.root_object_id)
            &&& number_at(s, 64, 8, v.segment_seq as nat)
            &&& number_at(s, 72, 8, v.incompat as nat)
            &&& number_at(s, 80, 4, crc32_of(s.take(80)) as nat)
            &&& forall|i: int| 84 <= i < 4096 ==> #[trigger] s[i] == 0
        }),
{
    lemma_lens();
    let s = slot_bytes(v);
    let b = slot_body(v);
    assert(b.len() == 80);
    assert(s.take(80) =~= b);
    assert(s.subrange(0, 4) =~= u32_bytes(0x4253_4645));
    assert(s.subrange(4, 6) =~= u16_bytes(1));
    assert(s.subrange(6, 8) =~= u16_bytes(0));
    assert(s.subrange(8, 24) =~= v.uuid);
    assert(s.subrange(24, 32) =~= u64_bytes(v.generation));
    assert(s.subrange(32, 64) =~= v.root_object_id);
    assert(s.subrange(64, 72) =~= u64_bytes(v.segment_seq));
    assert(s.subrange(72, 80) =~= u64_bytes(v.incompat));
    assert(s.subrange(80, 84) =~= u32_bytes(crc32_of(b)));
}

/// A root: versions, inode table, root directory, snapshots, models, segment, epoch, identity,
/// generation, chunk index and log sequence.
#[verifier::rlimit(40)]
pub proof fn root_layout(v: RootView)
    requires
        root_ok(v),
    ensures
        ({
            let s = root_bytes(v);
            &&& s.len() == 188
            &&& number_at(s, 0, 2, v.format_major as nat)
            &&& number_at(s, 2, 2, v.format_minor as nat)
            &&& lies_at(s, 4, v.inode_index_root)
            &&& number_at(s, 36, 8, v.root_dir_ino as nat)
            &&& lies_at(s, 44, v.snapshot_tree_root)
            &&& lies_at(s, 76, v.model_index_root)
            &&& number_at(s, 108, 8, v.segment_seq as nat)
            &&& number_at(s, 116, 8, v.index_epoch as nat)
            &&& lies_at(s, 124, v.uuid)
            &&& number_at(s, 140, 8, v.generation as nat)
            &&& lies_at(s, 148, v.chunk_index_root)
            &&& number_at(s, 180, 8, v.log_seq as nat)
        }),
{
    lemma_lens();
    let s = root_bytes(v);
    assert(root_head(v).len() == 44);
    assert(root_middle(v).len() == 80);
    assert(root_tail(v).len() == 64);
    assert(s.subrange(0, 2) =~= u16_bytes(v.format_major));
    assert(s.subrange(2, 4) =~= u16_bytes(v.format_minor));
    assert(s.subrange(4, 36) =~= v.inode_index_root);
    assert(s.subrange(36, 44) =~= u64_bytes(v.root_dir_ino));
    assert(s.subrange(44, 76) =~= v.snapshot_tree_root);
    assert(s.subrange(76, 108) =~= v.model_index_root);
    assert(s.subrange(108, 116) =~= u64_bytes(v.segment_seq));
    assert(s.subrange(116, 124) =~= u64_bytes(v.index_epoch));
    assert(s.subrange(124, 140) =~= v.uuid);
    assert(s.subrange(140, 148) =~= u64_bytes(v.generation));
    assert(s.subrange(148, 180) =~= v.chunk_index_root);
    assert(s.subrange(180, 188) =~= u64_bytes(v.log_seq));
}

/// A record: magic, version, tag, flags, lengths and content id, the checksum over these and
/// the payload, then the payload.
#[verifier::rlimit(40)]
pub proof fn record_layout(v: RecordView)
    requires
        record_ok(v),
    ensures
        ({
            let s = record_bytes(v);
            &&& s.len() == 58 + v.payload.len()
            &&& s.len() == record_size(v)
            &&& number_at(s, 0, 4, 0x5253_4645)
            &&& number_at(s, 4, 2, 1)
            &&& number_at(
                s,
                6,
                2,
                match v.tag {
                    RecordTag::Data => 1nat,
                    RecordTag::Model => 2nat,
                    RecordTag::BtreeNode => 3nat,
                    RecordTag::Inode => 4nat,
                    RecordTag::Root => 5nat,
                    RecordTag::MutationLog => 6nat,
                },
            )
            &&& number_at(s, 8, 2, v.flags as nat)
            &&& number_at(s, 10, 4, v.payload.len())
            &&& number_at(
                s,
                14,
                8,
                match v.materialized_len {
                    Some(n) => n as nat,
                    None => 0nat,
                },
            )
            &&& lies_at(s, 22, v.content_id)
            &&& number_at(s, 54, 4, crc32_of(s.take(54) + v.payload) as nat)
            &&& lies_at(s, 58, v.payload)
        }),
{
    lemma_lens();
    let s = record_bytes(v);
    let h = header_bytes(v);
    assert(h.len() == 54);
    assert(s.take(54) =~= h);
    assert(s.subrange(0, 4) =~= u32_bytes(0x5253_4645));
    assert(s.subrange(4, 6) =~= u16_bytes(FORMAT_MAJOR));
    assert(s.subrange(6, 8) =~= u16_bytes(v.tag.code_of()));
    assert(s.subrange(8, 10) =~= u16_bytes(v.flags));
    assert(s.subrange(10, 14) =~= u32_bytes(v.payload.len() as u32));
    let m = match v.materialized_len {
        Some(n) => n,
        None => 0,
    };
    assert(s.subrange(14, 22) =~= u64_bytes(m));
    assert(s.subrange(22, 54) =~= v.content_id);
    assert(s.subrange(54, 58) =~= u32_bytes(crc32_of(h + v.payload)));
    assert(s.subrange(58, 58 + v.payload.len() as int) =~= v.payload);
}

/// The time in twelve bytes: seconds, then nanoseconds.
pub open spec fn time_at(s: Seq<u8>, at: int, t: Timespec) -> bool {
    number_at(s, at, 8, t.sec as nat) && number_at(s, at + 8, 4, t.nsec as nat)
}

/// An inode: mode, owner and size, the times of access, change, modification and creation,
/// links, device and flags, the tree of its extended attributes, and the kind of its data;
/// then a tree, or a target behind its length.
#[verifier::rlimit(60)]
#[verifier::spinoff_prover]
pub proof fn inode_layout(v: InodeView)
    requires
        inode_ok(v),
    ensures
        ({
            let s = inode_bytes(v);
            &&& number_at(s, 0, 4, v.mode as nat)
            &&& number_at(s, 4, 4, v.uid as nat)
            &&& number_at(s, 8, 4, v.gid as nat)
            &&& number_at(s, 12, 8, v.size as nat)
            &&& time_at(s, 20, v.atime)
            &&& time_at(s, 32, v.ctime)
            &&& time_at(s, 44, v.mtime)
            &&& time_at(s, 56, v.crtime)
            &&& number_at(s, 68, 4, v.nlink as nat)
            &&& number_at(s, 72, 4, v.rdev as nat)
            &&& number_at(s, 76, 4, v.flags as nat)
            &&& lies_at(s, 80, v.xattr_root)
            &&& match v.data {
                DataView::Directory { dir_root } => number_at(s, 112, 1, 1) && lies_at(
                    s,
                    113,
                    dir_root,
                ) && s.len() == 145,
                DataView::File { extent_root } => number_at(s, 112, 1, 2) && lies_at(
                    s,
                    113,
                    extent_root,
                ) && s.len() == 145,
                DataView::Symlink { target } => number_at(s, 112, 1, 3) && number_at(
                    s,
                    113,
                    4,
                    target.len(),
                ) && lies_at(s, 117, target) && s.len() == 117 + target.len(),
                DataView::Device => number_at(s, 112, 1, 4) && s.len() == 113,
            }
        }),
{
    lemma_lens();
    let s = inode_bytes(v);
    let a = owner_bytes(v);
    let t = times_bytes(v);
    let b = tail_bytes(v);
    let d = data_bytes(v.data);
    assert(a.len() == 20);
    assert(t.len() == 48);
    assert(b.len() == 45);
    assert(a.subrange(0, 4) =~= u32_bytes(v.mode));
    assert(a.subrange(4, 8) =~= u32_bytes(v.uid));
    assert(a.subrange(8, 12) =~= u32_bytes(v.gid));
    assert(a.subrange(12, 20) =~= u64_bytes(v.size));
    lemma_times(v);
    assert(b.subrange(0, 4) =~= u32_bytes(v.nlink));
    assert(b.subrange(4, 8) =~= u32_bytes(v.rdev));
    assert(b.subrange(8, 12) =~= u32_bytes(v.flags));
    assert(b.subrange(12, 44) =~= v.xattr_root);
    assert(b.subrange(44, 45) =~= u8_bytes(v.data_kind));
    assert(s.subrange(0, 20) =~= a);
    assert(s.subrange(20, 68) =~= t);
    assert(s.subrange(68, 113) =~= b);
    assert(s.subrange(113, 113 + d.len() as int) =~= d);
    lemma_part(s, 0, a, 0, u32_bytes(v.mode));
    lemma_part(s, 0, a, 4, u32_bytes(v.uid));
    lemma_part(s, 0, a, 8, u32_bytes(v.gid));
    lemma_part(s, 0, a, 12, u64_bytes(v.size));
    lemma_time(s, 20, t, 0, v.atime);
    lemma_time(s, 20, t, 12, v.ctime);
    lemma_time(s, 20, t, 24, v.mtime);
    lemma_time(s, 20, t, 36, v.crtime);
    lemma_part(s, 68, b, 0, u32_bytes(v.nlink));
    lemma_part(s, 68, b, 4, u32_bytes(v.rdev));
    lemma_part(s, 68, b, 8, u32_bytes(v.flags));
    lemma_part(s, 68, b, 12, v.xattr_root);
    lemma_part(s, 68, b, 44, u8_bytes(v.data_kind));
    if let DataView::Symlink { target } = v.data {
        lemma_le_len(target.len(), 4);
        assert(d.subrange(0, 4) =~= le_bytes(target.len(), 4));
        assert(d.subrange(4, 4 + target.len() as int) =~= target);
        lemma_part(s, 113, d, 0, le_bytes(target.len(), 4));
        lemma_part(s, 113, d, 4, target);
    }
}

/// What lies in a part lies in the whole.
proof fn lemma_part(s: Seq<u8>, at: int, part: Seq<u8>, i: int, x: Seq<u8>)
    requires
        lies_at(s, at, part),
        lies_at(part, i, x),
    ensures
        lies_at(s, at + i, x),
{
    assert(s.subrange(at, at + part.len()).subrange(i, i + x.len()) =~= s.subrange(
        at + i,
        at + i + x.len(),
    ));
}

proof fn lemma_time(s: Seq<u8>, at: int, part: Seq<u8>, i: int, t: Timespec)
    requires
        lies_at(s, at, part),
        time_at(part, i, t),
    ensures
        time_at(s, at + i, t),
{
    lemma_part(s, at, part, i, le_bytes(t.sec as nat, 8));
    lemma_part(s, at, part, i + 8, le_bytes(t.nsec as nat, 4));
}

proof fn lemma_times(v: InodeView)
    ensures
        time_at(times_bytes(v), 0, v.atime),
        time_at(times_bytes(v), 12, v.ctime),
        time_at(times_bytes(v), 24, v.mtime),
        time_at(times_bytes(v), 36, v.crtime),
{
    lemma_lens();
    let t = times_bytes(v);
    lemma_time_bytes(v.atime);
    lemma_time_bytes(v.ctime);
    lemma_time_bytes(v.mtime);
    lemma_time_bytes(v.crtime);
    assert(t.subrange(0, 12) =~= time_bytes(v.atime));
    assert(t.subrange(12, 24) =~= time_bytes(v.ctime));
    assert(t.subrange(24, 36) =~= time_bytes(v.mtime));
    assert(t.subrange(36, 48) =~= time_bytes(v.crtime));
    lemma_time(t, 0, time_bytes(v.atime), 0, v.atime);
    lemma_time(t, 12, time_bytes(v.ctime), 0, v.ctime);
    lemma_time(t, 24, time_bytes(v.mtime), 0, v.mtime);
    lemma_time(t, 36, time_bytes(v.crtime), 0, v.crtime);
}

proof fn lemma_time_bytes(t: Timespec)
    ensures
        time_bytes(t).len() == 12,
        time_at(time_bytes(t), 0, t),
{
    lemma_lens();
    assert(time_bytes(t).subrange(0, 8) =~= u64_bytes(t.sec));
    assert(time_bytes(t).subrange(8, 12) =~= u32_bytes(t.nsec));
}

/// A directory entry: inode number and type. A snapshot: root and time of creation.
pub proof fn small_layouts(e: DirEntry, id: Seq<u8>, time: u64)
    requires
        id.len() == 32,
    ensures
        entry_bytes(e).len() == 9,
        number_at(entry_bytes(e), 0, 8, e.ino as nat),
        number_at(entry_bytes(e), 8, 1, e.d_type as nat),
        snapshot_bytes((id, time)).len() == 40,
        lies_at(snapshot_bytes((id, time)), 0, id),
        number_at(snapshot_bytes((id, time)), 32, 8, time as nat),
{
    lemma_lens();
    assert(entry_bytes(e).subrange(0, 8) =~= u64_bytes(e.ino));
    assert(entry_bytes(e).subrange(8, 9) =~= u8_bytes(e.d_type));
    let s = snapshot_bytes((id, time));
    assert(s.subrange(0, 32) =~= id);
    assert(s.subrange(32, 40) =~= u64_bytes(time));
}

/// An operation of the log begins with the number of its kind.
pub proof fn op_kinds(op: OpView)
    ensures
        number_at(
            op_bytes(op),
            0,
            1,
            match op {
                OpView::Create { .. } => 1nat,
                OpView::Setattr { .. } => 2nat,
                OpView::Unlink { .. } => 3nat,
                OpView::Rename { .. } => 4nat,
                OpView::Write { .. } => 5nat,
            },
        ),
        lies_at(op_bytes(op), 1, body_bytes(op)),
{
    lemma_lens();
    let s = op_bytes(op);
    assert(s.subrange(0, 1) =~= u8_bytes(crate::log::op_tag(op)));
    assert(s.subrange(1, 1 + body_bytes(op).len() as int) =~= body_bytes(op));
}

/// A record of the log: the sequence number, then the operation.
pub proof fn envelope_layout(seq: u64, op: OpView)
    ensures
        number_at(envelope_bytes(seq, op), 0, 8, seq as nat),
        lies_at(envelope_bytes(seq, op), 8, op_bytes(op)),
{
    lemma_lens();
    let s = envelope_bytes(seq, op);
    assert(s.subrange(0, 8) =~= u64_bytes(seq));
    assert(s.subrange(8, 8 + op_bytes(op).len() as int) =~= op_bytes(op));
}

/// A logged create: parent, name behind its length, inode number, type, and the ids of the
/// inode and of the parent's inode.
#[verifier::rlimit(40)]
pub proof fn create_layout(op: OpView)
    requires
        op_ok(op),
        op is Create,
    ensures
        ({
            let s = body_bytes(op);
            let n = op->Create_name.len() as int;
            &&& number_at(s, 0, 8, op->Create_parent as nat)
            &&& number_at(s, 8, 2, n as nat)
            &&& lies_at(s, 10, op->Create_name)
            &&& number_at(s, 10 + n, 8, op->Create_ino as nat)
            &&& number_at(s, 18 + n, 1, op->d_type as nat)
            &&& lies_at(s, 19 + n, op->Create_inode_id)
            &&& lies_at(s, 51 + n, op->Create_parent_inode_id)
        }),
{
    lemma_lens();
    let s = body_bytes(op);
    let n = op->Create_name.len() as int;
    lemma_le_len(n as nat, 2);
    assert(s.subrange(0, 8) =~= u64_bytes(op->Create_parent));
    assert(s.subrange(8, 10) =~= le_bytes(n as nat, 2));
    assert(s.subrange(10, 10 + n) =~= op->Create_name);
    assert(s.subrange(10 + n, 18 + n) =~= u64_bytes(op->Create_ino));
    assert(s.subrange(18 + n, 19 + n) =~= u8_bytes(op->d_type));
    assert(s.subrange(19 + n, 51 + n) =~= op->Create_inode_id);
    assert(s.subrange(51 + n, 83 + n) =~= op->Create_parent_inode_id);
}

/// A logged write: inode number, size, the number of chunks, the chunks, and the id of the
/// inode; a chunk is its offset, its content id and its descriptor behind its length.
#[verifier::rlimit(40)]
pub proof fn write_layout(op: OpView, c: (u64, Seq<u8>, Seq<u8>))
    requires
        op_ok(op),
        op is Write,
        c.1.len() == 32,
    ensures
        ({
            let s = body_bytes(op);
            let cs = chunks_bytes(op->chunks);
            &&& number_at(s, 0, 8, op->Write_ino as nat)
            &&& number_at(s, 8, 8, op->size as nat)
            &&& number_at(s, 16, 4, op->chunks.len())
            &&& lies_at(s, 20, cs)
            &&& lies_at(s, 20 + cs.len() as int, op->Write_inode_id)
            &&& number_at(chunk_bytes(c), 0, 8, c.0 as nat)
            &&& lies_at(chunk_bytes(c), 8, c.1)
            &&& number_at(chunk_bytes(c), 40, 4, c.2.len())
            &&& lies_at(chunk_bytes(c), 44, c.2)
        }),
{
    lemma_lens();
    let s = body_bytes(op);
    let cs = chunks_bytes(op->chunks);
    let k = cs.len() as int;
    assert(s.subrange(0, 8) =~= u64_bytes(op->Write_ino));
    assert(s.subrange(8, 16) =~= u64_bytes(op->size));
    assert(s.subrange(16, 20) =~= u32_bytes(op->chunks.len() as u32));
    assert(s.subrange(20, 20 + k) =~= cs);
    assert(s.subrange(20 + k, 52 + k) =~= op->Write_inode_id);
    let b = chunk_bytes(c);
    lemma_le_len(c.2.len(), 4);
    assert(b.subrange(0, 8) =~= u64_bytes(c.0));
    assert(b.subrange(8, 40) =~= c.1);
    assert(b.subrange(40, 44) =~= le_bytes(c.2.len(), 4));
    assert(b.subrange(44, 44 + c.2.len() as int) =~= c.2);
}

} // verus!
