//! The mutation log: acknowledged operations between checkpoints, as records
//! that a recovery replays in sequence order.

use vstd::prelude::*;

use crate::bytes::copy_bytes;
use crate::chunk::ChunkId;
use crate::codec::{bytes16, bytes32, lemma_scan_bytes16, lemma_scan_bytes32, lemma_scan_take,
    lemma_scan_u32, lemma_scan_u64, lemma_scan_u8, scan_bytes16, scan_bytes32, scan_check,
    scan_take, scan_u16, scan_u32, scan_u64, scan_u8, u32_bytes, u64_bytes, u8_bytes, CodecError, Cursor,
    Scan, Writer};
use crate::error::StoreError;

verus! {

/// One acknowledged mutation, persisted as a `MutationLog` record. Inodes are
/// named by the ids of objects staged beside it.
#[derive(Debug, PartialEq, Eq)]
pub enum MutationOp {
    /// Create a new entry: a fresh inode object plus a directory entry under
    /// `parent`.
    Create {
        parent: u64,
        name: Vec<u8>,
        ino: u64,
        d_type: u8,
        inode_id: ChunkId,
        /// The parent inode after the update.
        parent_inode_id: ChunkId,
    },
    /// Attribute update.
    Setattr { ino: u64, inode_id: ChunkId },
    /// Remove an entry. The child is updated, or removed outright.
    Unlink {
        parent: u64,
        name: Vec<u8>,
        child: u64,
        is_dir: bool,
        parent_inode_id: ChunkId,
        /// `None` when the child was removed.
        child_inode_id: Option<ChunkId>,
    },
    /// Rename between (possibly equal) parents.
    Rename {
        src_parent: u64,
        src_name: Vec<u8>,
        dst_parent: u64,
        dst_name: Vec<u8>,
        src_ino: u64,
        /// A replaced destination's inode, if any.
        dst_ino: Option<u64>,
        src_is_dir: bool,
        sp_inode_id: ChunkId,
        dp_inode_id: ChunkId,
        src_child_inode_id: Option<ChunkId>,
        dst_child_inode_id: Option<ChunkId>,
    },
    /// Data write: chunk descriptors and the inode's size update.
    Write {
        ino: u64,
        size: u64,
        /// (offset, content id, descriptor bytes) per touched chunk.
        chunks: Vec<(u64, ChunkId, Vec<u8>)>,
        inode_id: ChunkId,
    },
}

/// Op tags (persisted in the envelope).
pub const OP_CREATE: u8 = 0x01;

pub const OP_SETATTR: u8 = 0x02;

pub const OP_UNLINK: u8 = 0x03;

pub const OP_RENAME: u8 = 0x04;

pub const OP_WRITE: u8 = 0x05;

/// The most chunks that a decoded write may have.
pub const MAX_CHUNKS: u32 = 0x10_0000;

/// Mathematical [`MutationOp`].
#[verifier::ext_equal]
pub enum OpView {
    Create {
        parent: u64,
        name: Seq<u8>,
        ino: u64,
        d_type: u8,
        inode_id: Seq<u8>,
        parent_inode_id: Seq<u8>,
    },
    Setattr { ino: u64, inode_id: Seq<u8> },
    Unlink {
        parent: u64,
        name: Seq<u8>,
        child: u64,
        is_dir: bool,
        parent_inode_id: Seq<u8>,
        child_inode_id: Option<Seq<u8>>,
    },
    Rename {
        src_parent: u64,
        src_name: Seq<u8>,
        dst_parent: u64,
        dst_name: Seq<u8>,
        src_ino: u64,
        dst_ino: Option<u64>,
        src_is_dir: bool,
        sp_inode_id: Seq<u8>,
        dp_inode_id: Seq<u8>,
        src_child_inode_id: Option<Seq<u8>>,
        dst_child_inode_id: Option<Seq<u8>>,
    },
    Write { ino: u64, size: u64, chunks: Seq<(u64, Seq<u8>, Seq<u8>)>, inode_id: Seq<u8> },
}

pub open spec fn opt_id(o: Option<ChunkId>) -> Option<Seq<u8>> {
    match o {
        Some(id) => Some(id@),
        None => None,
    }
}

pub open spec fn chunk_views(v: Seq<(u64, ChunkId, Vec<u8>)>) -> Seq<(u64, Seq<u8>, Seq<u8>)> {
    Seq::new(v.len(), |i: int| (v[i].0, v[i].1@, v[i].2@))
}

impl View for MutationOp {
    type V = OpView;

    open spec fn view(&self) -> OpView {
        match self {
            MutationOp::Create { parent, name, ino, d_type, inode_id, parent_inode_id } => {
                OpView::Create {
                    parent: *parent,
                    name: name@,
                    ino: *ino,
                    d_type: *d_type,
                    inode_id: inode_id@,
                    parent_inode_id: parent_inode_id@,
                }
            },
            MutationOp::Setattr { ino, inode_id } => OpView::Setattr {
                ino: *ino,
                inode_id: inode_id@,
            },
            MutationOp::Unlink { parent, name, child, is_dir, parent_inode_id, child_inode_id } => {
                OpView::Unlink {
                    parent: *parent,
                    name: name@,
                    child: *child,
                    is_dir: *is_dir,
                    parent_inode_id: parent_inode_id@,
                    child_inode_id: opt_id(*child_inode_id),
                }
            },
            MutationOp::Rename {
                src_parent,
                src_name,
                dst_parent,
                dst_name,
                src_ino,
                dst_ino,
                src_is_dir,
                sp_inode_id,
                dp_inode_id,
                src_child_inode_id,
                dst_child_inode_id,
            } => OpView::Rename {
                src_parent: *src_parent,
                src_name: src_name@,
                dst_parent: *dst_parent,
                dst_name: dst_name@,
                src_ino: *src_ino,
                dst_ino: *dst_ino,
                src_is_dir: *src_is_dir,
                sp_inode_id: sp_inode_id@,
                dp_inode_id: dp_inode_id@,
                src_child_inode_id: opt_id(*src_child_inode_id),
                dst_child_inode_id: opt_id(*dst_child_inode_id),
            },
            MutationOp::Write { ino, size, chunks, inode_id } => OpView::Write {
                ino: *ino,
                size: *size,
                chunks: chunk_views(chunks@),
                inode_id: inode_id@,
            },
        }
    }
}

// ---------------------------------------------------------------------------
// Format
// ---------------------------------------------------------------------------

pub open spec fn flag_bytes(b: bool) -> Seq<u8> {
    u8_bytes(
        if b {
            1
        } else {
            0
        },
    )
}

pub open spec fn opt_id_bytes(o: Option<Seq<u8>>) -> Seq<u8> {
    match o {
        Some(id) => u8_bytes(1) + id,
        None => u8_bytes(0),
    }
}

pub open spec fn opt_u64_bytes(o: Option<u64>) -> Seq<u8> {
    match o {
        Some(v) => u8_bytes(1) + u64_bytes(v),
        None => u8_bytes(0),
    }
}

pub open spec fn chunk_bytes(c: (u64, Seq<u8>, Seq<u8>)) -> Seq<u8> {
    u64_bytes(c.0) + c.1 + bytes32(c.2)
}

pub open spec fn chunks_bytes(cs: Seq<(u64, Seq<u8>, Seq<u8>)>) -> Seq<u8>
    decreases cs.len(),
{
    if cs.len() == 0 {
        Seq::empty()
    } else {
        chunks_bytes(cs.drop_last()) + chunk_bytes(cs.last())
    }
}

/// The names and ids that a rename begins with.
pub open spec fn rename_head(
    src_parent: u64,
    src_name: Seq<u8>,
    dst_parent: u64,
    dst_name: Seq<u8>,
) -> Seq<u8> {
    u64_bytes(src_parent) + bytes16(src_name) + u64_bytes(dst_parent) + bytes16(dst_name)
}

/// The inode ids that a rename ends with.
pub open spec fn rename_tail(
    sp: Seq<u8>,
    dp: Seq<u8>,
    src_child: Option<Seq<u8>>,
    dst_child: Option<Seq<u8>>,
) -> Seq<u8> {
    sp + dp + (opt_id_bytes(src_child) + opt_id_bytes(dst_child))
}

/// The body of an op, without its tag.
pub open spec fn body_bytes(v: OpView) -> Seq<u8> {
    match v {
        OpView::Create { parent, name, ino, d_type, inode_id, parent_inode_id } => u64_bytes(parent)
            + bytes16(name) + u64_bytes(ino) + u8_bytes(d_type) + inode_id + parent_inode_id,
        OpView::Setattr { ino, inode_id } => u64_bytes(ino) + inode_id,
        OpView::Unlink { parent, name, child, is_dir, parent_inode_id, child_inode_id } => u64_bytes(
            parent,
        ) + bytes16(name) + u64_bytes(child) + flag_bytes(is_dir) + parent_inode_id
            + opt_id_bytes(child_inode_id),
        OpView::Rename {
            src_parent,
            src_name,
            dst_parent,
            dst_name,
            src_ino,
            dst_ino,
            src_is_dir,
            sp_inode_id,
            dp_inode_id,
            src_child_inode_id,
            dst_child_inode_id,
        } => rename_head(src_parent, src_name, dst_parent, dst_name) + u64_bytes(src_ino)
            + opt_u64_bytes(dst_ino) + flag_bytes(src_is_dir) + rename_tail(
            sp_inode_id,
            dp_inode_id,
            src_child_inode_id,
            dst_child_inode_id,
        ),
        OpView::Write { ino, size, chunks, inode_id } => u64_bytes(ino) + u64_bytes(size)
            + u32_bytes(chunks.len() as u32) + chunks_bytes(chunks) + inode_id,
    }
}

pub open spec fn op_tag(v: OpView) -> u8 {
    match v {
        OpView::Create { .. } => OP_CREATE,
        OpView::Setattr { .. } => OP_SETATTR,
        OpView::Unlink { .. } => OP_UNLINK,
        OpView::Rename { .. } => OP_RENAME,
        OpView::Write { .. } => OP_WRITE,
    }
}

/// The encoded op.
pub open spec fn op_bytes(v: OpView) -> Seq<u8> {
    u8_bytes(op_tag(v)) + body_bytes(v)
}

pub open spec fn scan_flag(st: Scan) -> (bool, Scan) {
    let (b, st) = scan_u8(st);
    (b != 0, st)
}

pub open spec fn scan_opt_id(st: Scan) -> (Option<Seq<u8>>, Scan) {
    let (b, st) = scan_flag(st);
    if b {
        let (id, st) = scan_take(st, 32);
        (Some(id), st)
    } else {
        (None, st)
    }
}

pub open spec fn scan_opt_u64(st: Scan) -> (Option<u64>, Scan) {
    let (b, st) = scan_flag(st);
    if b {
        let (v, st) = scan_u64(st);
        (Some(v), st)
    } else {
        (None, st)
    }
}

pub open spec fn scan_chunk(st: Scan) -> ((u64, Seq<u8>, Seq<u8>), Scan) {
    let (off, st) = scan_u64(st);
    let (cid, st) = scan_take(st, 32);
    let (desc, st) = scan_bytes32(st);
    ((off, cid, desc), st)
}

pub open spec fn scan_chunks(st: Scan, n: nat) -> (Seq<(u64, Seq<u8>, Seq<u8>)>, Scan)
    decreases n,
{
    if n == 0 {
        (Seq::empty(), st)
    } else {
        let (cs, st) = scan_chunks(st, (n - 1) as nat);
        let (c, st) = scan_chunk(st);
        (cs.push(c), st)
    }
}

pub open spec fn scan_create(st: Scan) -> (OpView, Scan) {
    let (parent, st) = scan_u64(st);
    let (name, st) = scan_bytes16(st);
    let (ino, st) = scan_u64(st);
    let (d_type, st) = scan_u8(st);
    let (inode_id, st) = scan_take(st, 32);
    let (parent_inode_id, st) = scan_take(st, 32);
    (OpView::Create { parent, name, ino, d_type, inode_id, parent_inode_id }, st)
}

pub open spec fn scan_setattr(st: Scan) -> (OpView, Scan) {
    let (ino, st) = scan_u64(st);
    let (inode_id, st) = scan_take(st, 32);
    (OpView::Setattr { ino, inode_id }, st)
}

pub open spec fn scan_unlink(st: Scan) -> (OpView, Scan) {
    let (parent, st) = scan_u64(st);
    let (name, st) = scan_bytes16(st);
    let (child, st) = scan_u64(st);
    let (is_dir, st) = scan_flag(st);
    let (parent_inode_id, st) = scan_take(st, 32);
    let (child_inode_id, st) = scan_opt_id(st);
    (OpView::Unlink { parent, name, child, is_dir, parent_inode_id, child_inode_id }, st)
}

pub open spec fn scan_rename_head(st: Scan) -> ((u64, Seq<u8>, u64, Seq<u8>), Scan) {
    let (src_parent, st) = scan_u64(st);
    let (src_name, st) = scan_bytes16(st);
    let (dst_parent, st) = scan_u64(st);
    let (dst_name, st) = scan_bytes16(st);
    ((src_parent, src_name, dst_parent, dst_name), st)
}

pub open spec fn scan_rename(st: Scan) -> (OpView, Scan) {
    let (head, st) = scan_rename_head(st);
    let (src_ino, st) = scan_u64(st);
    let (dst_ino, st) = scan_opt_u64(st);
    let (src_is_dir, st) = scan_flag(st);
    let (sp_inode_id, st) = scan_take(st, 32);
    let (dp_inode_id, st) = scan_take(st, 32);
    let (src_child_inode_id, st) = scan_opt_id(st);
    let (dst_child_inode_id, st) = scan_opt_id(st);
    (
        OpView::Rename {
            src_parent: head.0,
            src_name: head.1,
            dst_parent: head.2,
            dst_name: head.3,
            src_ino,
            dst_ino,
            src_is_dir,
            sp_inode_id,
            dp_inode_id,
            src_child_inode_id,
            dst_child_inode_id,
        },
        st,
    )
}

pub open spec fn scan_write(st: Scan) -> (OpView, Scan) {
    let (ino, st) = scan_u64(st);
    let (size, st) = scan_u64(st);
    let (n, st) = scan_u32(st);
    let st = scan_check(st, n <= MAX_CHUNKS, CodecError::Malformed);
    let (chunks, st) = scan_chunks(st, n as nat);
    let (inode_id, st) = scan_take(st, 32);
    (OpView::Write { ino, size, chunks, inode_id }, st)
}

pub open spec fn scan_body(tag: u8, st: Scan) -> (OpView, Scan) {
    if tag == OP_CREATE {
        scan_create(st)
    } else if tag == OP_SETATTR {
        scan_setattr(st)
    } else if tag == OP_UNLINK {
        scan_unlink(st)
    } else if tag == OP_RENAME {
        scan_rename(st)
    } else if tag == OP_WRITE {
        scan_write(st)
    } else {
        (
            OpView::Setattr { ino: 0, inode_id: Seq::empty() },
            scan_check(st, false, CodecError::Malformed),
        )
    }
}

/// The op behind encoded bytes. What follows it is not looked at.
pub open spec fn parse_op(bytes: Seq<u8>) -> Result<OpView, CodecError> {
    let (tag, st) = scan_u8(Ok(bytes));
    let (op, st) = scan_body(tag, st);
    match st {
        Err(e) => Err(e),
        Ok(_) => Ok(op),
    }
}

pub open spec fn opt_id_ok(o: Option<Seq<u8>>) -> bool {
    o matches Some(id) ==> id.len() == 32
}

pub open spec fn chunk_ok(c: (u64, Seq<u8>, Seq<u8>)) -> bool {
    c.1.len() == 32 && c.2.len() <= u32::MAX
}

pub open spec fn chunks_ok(cs: Seq<(u64, Seq<u8>, Seq<u8>)>) -> bool {
    forall|i: int| 0 <= i < cs.len() ==> chunk_ok(#[trigger] cs[i])
}

/// An op that its bytes give back: names and descriptors within their length
/// prefixes, ids whole, not too many chunks.
pub open spec fn op_ok(v: OpView) -> bool {
    match v {
        OpView::Create { name, inode_id, parent_inode_id, .. } => {
            &&& name.len() <= u16::MAX
            &&& inode_id.len() == 32
            &&& parent_inode_id.len() == 32
        },
        OpView::Setattr { inode_id, .. } => inode_id.len() == 32,
        OpView::Unlink { name, parent_inode_id, child_inode_id, .. } => {
            &&& name.len() <= u16::MAX
            &&& parent_inode_id.len() == 32
            &&& opt_id_ok(child_inode_id)
        },
        OpView::Rename {
            src_name,
            dst_name,
            sp_inode_id,
            dp_inode_id,
            src_child_inode_id,
            dst_child_inode_id,
            ..
        } => {
            &&& src_name.len() <= u16::MAX
            &&& dst_name.len() <= u16::MAX
            &&& sp_inode_id.len() == 32
            &&& dp_inode_id.len() == 32
            &&& opt_id_ok(src_child_inode_id)
            &&& opt_id_ok(dst_child_inode_id)
        },
        OpView::Write { chunks, inode_id, .. } => {
            &&& chunks.len() <= MAX_CHUNKS
            &&& chunks_ok(chunks)
            &&& inode_id.len() == 32
        },
    }
}

// ---------------------------------------------------------------------------
// Round trip
// ---------------------------------------------------------------------------

proof fn lemma_flag(b: bool, rest: Seq<u8>)
    ensures
        scan_flag(Ok(flag_bytes(b) + rest)) == (b, Ok::<Seq<u8>, CodecError>(rest)),
{
    lemma_scan_u8(
        if b {
            1
        } else {
            0
        },
        rest,
    );
}

proof fn lemma_opt_id(o: Option<Seq<u8>>, rest: Seq<u8>)
    requires
        opt_id_ok(o),
    ensures
        scan_opt_id(Ok(opt_id_bytes(o) + rest)) == (o, Ok::<Seq<u8>, CodecError>(rest)),
{
    match o {
        Some(id) => {
            assert(opt_id_bytes(o) + rest =~= u8_bytes(1) + (id + rest));
            lemma_scan_u8(1, id + rest);
            lemma_scan_take(id, rest);
        },
        None => {
            lemma_scan_u8(0, rest);
        },
    }
}

proof fn lemma_opt_u64(o: Option<u64>, rest: Seq<u8>)
    ensures
        scan_opt_u64(Ok(opt_u64_bytes(o) + rest)) == (o, Ok::<Seq<u8>, CodecError>(rest)),
{
    match o {
        Some(v) => {
            assert(opt_u64_bytes(o) + rest =~= u8_bytes(1) + (u64_bytes(v) + rest));
            lemma_scan_u8(1, u64_bytes(v) + rest);
            lemma_scan_u64(v, rest);
        },
        None => {
            lemma_scan_u8(0, rest);
        },
    }
}

proof fn lemma_chunks(cs: Seq<(u64, Seq<u8>, Seq<u8>)>, rest: Seq<u8>)
    requires
        chunks_ok(cs),
    ensures
        scan_chunks(Ok(chunks_bytes(cs) + rest), cs.len()) == (
            cs,
            Ok::<Seq<u8>, CodecError>(rest),
        ),
    decreases cs.len(),
{
    if cs.len() == 0 {
        assert(chunks_bytes(cs) + rest =~= rest);
        assert(cs =~= Seq::empty());
    } else {
        let c = cs.last();
        let front = cs.drop_last();
        assert(chunk_ok(cs[cs.len() - 1]));
        assert forall|i: int| 0 <= i < front.len() implies chunk_ok(#[trigger] front[i]) by {
            assert(front[i] == cs[i]);
        }
        assert(chunks_bytes(cs) + rest =~= chunks_bytes(front) + (chunk_bytes(c) + rest));
        lemma_chunks(front, chunk_bytes(c) + rest);
        let s2 = bytes32(c.2) + rest;
        let s1 = c.1 + s2;
        assert(chunk_bytes(c) + rest =~= u64_bytes(c.0) + s1);
        lemma_scan_u64(c.0, s1);
        lemma_scan_take(c.1, s2);
        lemma_scan_bytes32(c.2, rest);
        assert(front.push(c) =~= cs);
    }
}

proof fn lemma_create(v: OpView)
    requires
        v is Create,
        op_ok(v),
    ensures
        scan_create(Ok(body_bytes(v))) == (v, Ok::<Seq<u8>, CodecError>(Seq::empty())),
{
    if let OpView::Create { parent, name, ino, d_type, inode_id, parent_inode_id } = v {
        let none = Seq::<u8>::empty();
        let s5 = parent_inode_id + none;
        let s4 = inode_id + s5;
        let s3 = u8_bytes(d_type) + s4;
        let s2 = u64_bytes(ino) + s3;
        let s1 = bytes16(name) + s2;
        assert(body_bytes(v) =~= u64_bytes(parent) + s1);
        lemma_scan_u64(parent, s1);
        lemma_scan_bytes16(name, s2);
        lemma_scan_u64(ino, s3);
        lemma_scan_u8(d_type, s4);
        lemma_scan_take(inode_id, s5);
        lemma_scan_take(parent_inode_id, none);
    }
}

proof fn lemma_setattr(v: OpView)
    requires
        v is Setattr,
        op_ok(v),
    ensures
        scan_setattr(Ok(body_bytes(v))) == (v, Ok::<Seq<u8>, CodecError>(Seq::empty())),
{
    if let OpView::Setattr { ino, inode_id } = v {
        let none = Seq::<u8>::empty();
        assert(body_bytes(v) =~= u64_bytes(ino) + (inode_id + none));
        lemma_scan_u64(ino, inode_id + none);
        lemma_scan_take(inode_id, none);
    }
}

proof fn lemma_unlink(v: OpView)
    requires
        v is Unlink,
        op_ok(v),
    ensures
        scan_unlink(Ok(body_bytes(v))) == (v, Ok::<Seq<u8>, CodecError>(Seq::empty())),
{
    if let OpView::Unlink { parent, name, child, is_dir, parent_inode_id, child_inode_id } = v {
        let none = Seq::<u8>::empty();
        let s5 = opt_id_bytes(child_inode_id) + none;
        let s4 = parent_inode_id + s5;
        let s3 = flag_bytes(is_dir) + s4;
        let s2 = u64_bytes(child) + s3;
        let s1 = bytes16(name) + s2;
        assert(body_bytes(v) =~= u64_bytes(parent) + s1);
        lemma_scan_u64(parent, s1);
        lemma_scan_bytes16(name, s2);
        lemma_scan_u64(child, s3);
        lemma_flag(is_dir, s4);
        lemma_scan_take(parent_inode_id, s5);
        lemma_opt_id(child_inode_id, none);
    }
}

proof fn lemma_rename_head(sp: u64, sn: Seq<u8>, dp: u64, dn: Seq<u8>, rest: Seq<u8>)
    requires
        sn.len() <= u16::MAX,
        dn.len() <= u16::MAX,
    ensures
        scan_rename_head(Ok(rename_head(sp, sn, dp, dn) + rest)) == (
            (sp, sn, dp, dn),
            Ok::<Seq<u8>, CodecError>(rest),
        ),
{
    let s3 = bytes16(dn) + rest;
    let s2 = u64_bytes(dp) + s3;
    let s1 = bytes16(sn) + s2;
    assert(rename_head(sp, sn, dp, dn) + rest =~= u64_bytes(sp) + s1);
    lemma_scan_u64(sp, s1);
    lemma_scan_bytes16(sn, s2);
    lemma_scan_u64(dp, s3);
    lemma_scan_bytes16(dn, rest);
}

proof fn lemma_rename(v: OpView)
    requires
        v is Rename,
        op_ok(v),
    ensures
        scan_rename(Ok(body_bytes(v))) == (v, Ok::<Seq<u8>, CodecError>(Seq::empty())),
{
    if let OpView::Rename {
        src_parent,
        src_name,
        dst_parent,
        dst_name,
        src_ino,
        dst_ino,
        src_is_dir,
        sp_inode_id,
        dp_inode_id,
        src_child_inode_id,
        dst_child_inode_id,
    } = v {
        let none = Seq::<u8>::empty();
        let s7 = opt_id_bytes(dst_child_inode_id) + none;
        let s6 = opt_id_bytes(src_child_inode_id) + s7;
        let s5 = dp_inode_id + s6;
        let s4 = sp_inode_id + s5;
        let s3 = flag_bytes(src_is_dir) + s4;
        let s2 = opt_u64_bytes(dst_ino) + s3;
        let s1 = u64_bytes(src_ino) + s2;
        assert(body_bytes(v) =~= rename_head(src_parent, src_name, dst_parent, dst_name) + s1);
        lemma_rename_head(src_parent, src_name, dst_parent, dst_name, s1);
        lemma_scan_u64(src_ino, s2);
        lemma_opt_u64(dst_ino, s3);
        lemma_flag(src_is_dir, s4);
        lemma_scan_take(sp_inode_id, s5);
        lemma_scan_take(dp_inode_id, s6);
        lemma_opt_id(src_child_inode_id, s7);
        lemma_opt_id(dst_child_inode_id, none);
    }
}

proof fn lemma_write(v: OpView)
    requires
        v is Write,
        op_ok(v),
    ensures
        scan_write(Ok(body_bytes(v))) == (v, Ok::<Seq<u8>, CodecError>(Seq::empty())),
{
    if let OpView::Write { ino, size, chunks, inode_id } = v {
        let none = Seq::<u8>::empty();
        let s4 = inode_id + none;
        let s3 = chunks_bytes(chunks) + s4;
        let s2 = u32_bytes(chunks.len() as u32) + s3;
        let s1 = u64_bytes(size) + s2;
        assert(body_bytes(v) =~= u64_bytes(ino) + s1);
        lemma_scan_u64(ino, s1);
        lemma_scan_u64(size, s2);
        lemma_scan_u32(chunks.len() as u32, s3);
        lemma_chunks(chunks, s4);
        lemma_scan_take(inode_id, none);
    }
}

/// Decoding an encoded op gives the op back.
pub proof fn op_round_trip(v: OpView)
    requires
        op_ok(v),
    ensures
        parse_op(op_bytes(v)) == Ok::<OpView, CodecError>(v),
{
    lemma_scan_u8(op_tag(v), body_bytes(v));
    match v {
        OpView::Create { .. } => lemma_create(v),
        OpView::Setattr { .. } => lemma_setattr(v),
        OpView::Unlink { .. } => lemma_unlink(v),
        OpView::Rename { .. } => lemma_rename(v),
        OpView::Write { .. } => lemma_write(v),
    }
}

// ---------------------------------------------------------------------------
// Prefixes
// ---------------------------------------------------------------------------

/// A scan of the same input with `x` behind it has got as far.
spec fn ahead(a: Scan, b: Scan, x: Seq<u8>) -> bool {
    a matches Ok(s) ==> b == Ok::<Seq<u8>, CodecError>(s + x)
}

proof fn lemma_take_ahead(a: Scan, b: Scan, x: Seq<u8>, n: nat)
    requires
        ahead(a, b, x),
    ensures
        ahead(scan_take(a, n).1, scan_take(b, n).1, x),
        scan_take(a, n).1 is Ok ==> a is Ok && scan_take(a, n).0 == scan_take(b, n).0,
{
    if let Ok(s) = a {
        if s.len() >= n {
            assert((s + x).take(n as int) =~= s.take(n as int));
            assert((s + x).skip(n as int) =~= s.skip(n as int) + x);
        }
    }
}

proof fn lemma_numbers_ahead(a: Scan, b: Scan, x: Seq<u8>)
    requires
        ahead(a, b, x),
    ensures
        ahead(scan_u8(a).1, scan_u8(b).1, x),
        scan_u8(a).1 is Ok ==> a is Ok && scan_u8(a).0 == scan_u8(b).0,
        ahead(scan_u32(a).1, scan_u32(b).1, x),
        scan_u32(a).1 is Ok ==> a is Ok && scan_u32(a).0 == scan_u32(b).0,
        ahead(scan_u64(a).1, scan_u64(b).1, x),
        scan_u64(a).1 is Ok ==> a is Ok && scan_u64(a).0 == scan_u64(b).0,
{
    lemma_take_ahead(a, b, x, 1);
    lemma_take_ahead(a, b, x, 4);
    lemma_take_ahead(a, b, x, 8);
}

proof fn lemma_strings_ahead(a: Scan, b: Scan, x: Seq<u8>)
    requires
        ahead(a, b, x),
    ensures
        ahead(scan_bytes16(a).1, scan_bytes16(b).1, x),
        scan_bytes16(a).1 is Ok ==> a is Ok && scan_bytes16(a).0 == scan_bytes16(b).0,
        ahead(scan_bytes32(a).1, scan_bytes32(b).1, x),
        scan_bytes32(a).1 is Ok ==> a is Ok && scan_bytes32(a).0 == scan_bytes32(b).0,
{
    lemma_take_ahead(a, b, x, 2);
    lemma_take_ahead(a, b, x, 4);
    lemma_take_ahead(scan_u16(a).1, scan_u16(b).1, x, scan_u16(a).0 as nat);
    lemma_take_ahead(scan_u32(a).1, scan_u32(b).1, x, scan_u32(a).0 as nat);
}

proof fn lemma_options_ahead(a: Scan, b: Scan, x: Seq<u8>)
    requires
        ahead(a, b, x),
    ensures
        ahead(scan_flag(a).1, scan_flag(b).1, x),
        scan_flag(a).1 is Ok ==> a is Ok && scan_flag(a).0 == scan_flag(b).0,
        ahead(scan_opt_id(a).1, scan_opt_id(b).1, x),
        scan_opt_id(a).1 is Ok ==> a is Ok && scan_opt_id(a).0 == scan_opt_id(b).0,
        ahead(scan_opt_u64(a).1, scan_opt_u64(b).1, x),
        scan_opt_u64(a).1 is Ok ==> a is Ok && scan_opt_u64(a).0 == scan_opt_u64(b).0,
{
    lemma_numbers_ahead(a, b, x);
    lemma_take_ahead(scan_flag(a).1, scan_flag(b).1, x, 32);
    lemma_numbers_ahead(scan_flag(a).1, scan_flag(b).1, x);
}

proof fn lemma_chunks_ahead(a: Scan, b: Scan, x: Seq<u8>, n: nat)
    requires
        ahead(a, b, x),
    ensures
        ahead(scan_chunks(a, n).1, scan_chunks(b, n).1, x),
        scan_chunks(a, n).1 is Ok ==> a is Ok,
    decreases n,
{
    if n > 0 {
        lemma_chunks_ahead(a, b, x, (n - 1) as nat);
        let a1 = scan_chunks(a, (n - 1) as nat).1;
        let b1 = scan_chunks(b, (n - 1) as nat).1;
        lemma_numbers_ahead(a1, b1, x);
        let a2 = scan_u64(a1).1;
        let b2 = scan_u64(b1).1;
        lemma_take_ahead(a2, b2, x, 32);
        lemma_strings_ahead(scan_take(a2, 32).1, scan_take(b2, 32).1, x);
    }
}

proof fn lemma_create_ahead(a: Scan, b: Scan, x: Seq<u8>)
    requires
        ahead(a, b, x),
    ensures
        ahead(scan_create(a).1, scan_create(b).1, x),
{
    lemma_numbers_ahead(a, b, x);
    let (a1, b1) = (scan_u64(a).1, scan_u64(b).1);
    lemma_strings_ahead(a1, b1, x);
    let (a2, b2) = (scan_bytes16(a1).1, scan_bytes16(b1).1);
    lemma_numbers_ahead(a2, b2, x);
    let (a3, b3) = (scan_u64(a2).1, scan_u64(b2).1);
    lemma_numbers_ahead(a3, b3, x);
    let (a4, b4) = (scan_u8(a3).1, scan_u8(b3).1);
    lemma_take_ahead(a4, b4, x, 32);
    lemma_take_ahead(scan_take(a4, 32).1, scan_take(b4, 32).1, x, 32);
}

proof fn lemma_unlink_ahead(a: Scan, b: Scan, x: Seq<u8>)
    requires
        ahead(a, b, x),
    ensures
        ahead(scan_unlink(a).1, scan_unlink(b).1, x),
{
    lemma_numbers_ahead(a, b, x);
    let (a1, b1) = (scan_u64(a).1, scan_u64(b).1);
    lemma_strings_ahead(a1, b1, x);
    let (a2, b2) = (scan_bytes16(a1).1, scan_bytes16(b1).1);
    lemma_numbers_ahead(a2, b2, x);
    let (a3, b3) = (scan_u64(a2).1, scan_u64(b2).1);
    lemma_options_ahead(a3, b3, x);
    let (a4, b4) = (scan_flag(a3).1, scan_flag(b3).1);
    lemma_take_ahead(a4, b4, x, 32);
    lemma_options_ahead(scan_take(a4, 32).1, scan_take(b4, 32).1, x);
}

proof fn lemma_rename_ahead(a: Scan, b: Scan, x: Seq<u8>)
    requires
        ahead(a, b, x),
    ensures
        ahead(scan_rename(a).1, scan_rename(b).1, x),
{
    lemma_numbers_ahead(a, b, x);
    let (a1, b1) = (scan_u64(a).1, scan_u64(b).1);
    lemma_strings_ahead(a1, b1, x);
    let (a2, b2) = (scan_bytes16(a1).1, scan_bytes16(b1).1);
    lemma_numbers_ahead(a2, b2, x);
    let (a3, b3) = (scan_u64(a2).1, scan_u64(b2).1);
    lemma_strings_ahead(a3, b3, x);
    let (a4, b4) = (scan_rename_head(a).1, scan_rename_head(b).1);
    lemma_numbers_ahead(a4, b4, x);
    let (a5, b5) = (scan_u64(a4).1, scan_u64(b4).1);
    lemma_options_ahead(a5, b5, x);
    let (a6, b6) = (scan_opt_u64(a5).1, scan_opt_u64(b5).1);
    lemma_options_ahead(a6, b6, x);
    let (a7, b7) = (scan_flag(a6).1, scan_flag(b6).1);
    lemma_take_ahead(a7, b7, x, 32);
    let (a8, b8) = (scan_take(a7, 32).1, scan_take(b7, 32).1);
    lemma_take_ahead(a8, b8, x, 32);
    let (a9, b9) = (scan_take(a8, 32).1, scan_take(b8, 32).1);
    lemma_options_ahead(a9, b9, x);
    lemma_options_ahead(scan_opt_id(a9).1, scan_opt_id(b9).1, x);
}

proof fn lemma_write_ahead(a: Scan, b: Scan, x: Seq<u8>)
    requires
        ahead(a, b, x),
    ensures
        ahead(scan_write(a).1, scan_write(b).1, x),
{
    lemma_numbers_ahead(a, b, x);
    let (a1, b1) = (scan_u64(a).1, scan_u64(b).1);
    lemma_numbers_ahead(a1, b1, x);
    let (a2, b2) = (scan_u64(a1).1, scan_u64(b1).1);
    lemma_numbers_ahead(a2, b2, x);
    let n = scan_u32(a2).0;
    let a3 = scan_check(scan_u32(a2).1, n <= MAX_CHUNKS, CodecError::Malformed);
    let b3 = scan_check(
        scan_u32(b2).1,
        scan_u32(b2).0 <= MAX_CHUNKS,
        CodecError::Malformed,
    );
    lemma_chunks_ahead(a3, b3, x, n as nat);
    if a3 is Ok {
        lemma_take_ahead(scan_chunks(a3, n as nat).1, scan_chunks(b3, n as nat).1, x, 32);
    } else {
        lemma_chunks_failed(a3, n as nat);
    }
}

proof fn lemma_chunks_failed(a: Scan, n: nat)
    requires
        a is Err,
    ensures
        scan_chunks(a, n).1 is Err,
    decreases n,
{
    if n > 0 {
        lemma_chunks_failed(a, (n - 1) as nat);
    }
}

proof fn lemma_body_ahead(tag: u8, a: Scan, b: Scan, x: Seq<u8>)
    requires
        ahead(a, b, x),
    ensures
        ahead(scan_body(tag, a).1, scan_body(tag, b).1, x),
{
    lemma_create_ahead(a, b, x);
    lemma_unlink_ahead(a, b, x);
    lemma_rename_ahead(a, b, x);
    lemma_write_ahead(a, b, x);
    lemma_numbers_ahead(a, b, x);
    lemma_take_ahead(scan_u64(a).1, scan_u64(b).1, x, 32);
}

/// Every proper prefix of an encoded op is refused.
pub proof fn op_prefix_is_refused(v: OpView, n: nat)
    requires
        op_ok(v),
        n < op_bytes(v).len(),
    ensures
        parse_op(op_bytes(v).take(n as int)) is Err,
{
    let all = op_bytes(v);
    let p = all.take(n as int);
    let x = all.skip(n as int);
    assert(p + x =~= all);
    let a: Scan = Ok(p);
    let b: Scan = Ok(all);
    lemma_numbers_ahead(a, b, x);
    let tag = scan_u8(a).0;
    lemma_body_ahead(tag, scan_u8(a).1, scan_u8(b).1, x);
    lemma_scan_u8(op_tag(v), body_bytes(v));
    match v {
        OpView::Create { .. } => lemma_create(v),
        OpView::Setattr { .. } => lemma_setattr(v),
        OpView::Unlink { .. } => lemma_unlink(v),
        OpView::Rename { .. } => lemma_rename(v),
        OpView::Write { .. } => lemma_write(v),
    }
    if let Ok(_) = parse_op(p) {
        let r = scan_body(tag, scan_u8(a).1).1->Ok_0;
        assert((r + x).len() == 0);
    }
}


// ---------------------------------------------------------------------------
// Encoding
// ---------------------------------------------------------------------------

fn put_flag(w: &mut Writer, b: bool)
    ensures
        final(w)@ == old(w)@ + flag_bytes(b),
{
    w.u8(
        if b {
            1
        } else {
            0
        },
    );
}

fn put_opt_id(w: &mut Writer, o: &Option<ChunkId>)
    ensures
        final(w)@ == old(w)@ + opt_id_bytes(opt_id(*o)),
{
    let ghost s = w@;
    match o {
        Some(id) => {
            w.u8(1);
            w.bytes(id.as_slice());
            assert(w@ =~= s + opt_id_bytes(opt_id(*o)));
        },
        None => w.u8(0),
    }
}

fn put_opt_u64(w: &mut Writer, o: &Option<u64>)
    ensures
        final(w)@ == old(w)@ + opt_u64_bytes(*o),
{
    let ghost s = w@;
    match o {
        Some(v) => {
            w.u8(1);
            w.u64(*v);
            assert(w@ =~= s + opt_u64_bytes(*o));
        },
        None => w.u8(0),
    }
}

/// A name within its length prefix.
fn put_name(w: &mut Writer, name: &Vec<u8>)
    requires
        name@.len() <= u16::MAX,
    ensures
        final(w)@ == old(w)@ + bytes16(name@),
{
    let _ = w.bytes16(name);
}

fn put_chunks(w: &mut Writer, chunks: &Vec<(u64, ChunkId, Vec<u8>)>)
    requires
        chunks_ok(chunk_views(chunks@)),
    ensures
        final(w)@ == old(w)@ + chunks_bytes(chunk_views(chunks@)),
{
    let ghost s = w@;
    let ghost cs = chunk_views(chunks@);
    let mut i: usize = 0;
    proof {
        assert(cs.take(0) =~= Seq::empty());
        assert(s + chunks_bytes(cs.take(0)) =~= s);
    }
    while i < chunks.len()
        invariant
            i <= chunks@.len(),
            cs == chunk_views(chunks@),
            chunks_ok(cs),
            w@ == s + chunks_bytes(cs.take(i as int)),
        decreases chunks@.len() - i,
    {
        let c = &chunks[i];
        let ghost at = w@;
        assert(cs[i as int] == (c.0, c.1@, c.2@));
        assert(chunk_ok(cs[i as int]));
        w.u64(c.0);
        w.bytes(c.1.as_slice());
        let _ = w.bytes32(&c.2);
        proof {
            let next = cs.take(i + 1);
            assert(next.drop_last() =~= cs.take(i as int));
            assert(next.last() == cs[i as int]);
            assert(w@ =~= at + chunk_bytes(cs[i as int]));
            assert(w@ =~= s + chunks_bytes(next));
        }
        i += 1;
    }
    assert(cs.take(i as int) =~= cs);
}

/// The names and parents that a rename begins with.
fn put_rename_head(
    w: &mut Writer,
    src_parent: u64,
    src_name: &Vec<u8>,
    dst_parent: u64,
    dst_name: &Vec<u8>,
)
    requires
        src_name@.len() <= u16::MAX,
        dst_name@.len() <= u16::MAX,
    ensures
        final(w)@ == old(w)@ + rename_head(src_parent, src_name@, dst_parent, dst_name@),
{
    let ghost s = w@;
    w.u64(src_parent);
    put_name(w, src_name);
    w.u64(dst_parent);
    put_name(w, dst_name);
    assert(w@ =~= s + rename_head(src_parent, src_name@, dst_parent, dst_name@));
}

/// The inode ids that a rename ends with.
fn put_rename_tail(
    w: &mut Writer,
    sp: &ChunkId,
    dp: &ChunkId,
    src_child: &Option<ChunkId>,
    dst_child: &Option<ChunkId>,
)
    ensures
        final(w)@ == old(w)@ + rename_tail(sp@, dp@, opt_id(*src_child), opt_id(*dst_child)),
{
    let ghost s = w@;
    w.bytes(sp.as_slice());
    w.bytes(dp.as_slice());
    let ghost mid = w@;
    put_opt_id(w, src_child);
    put_opt_id(w, dst_child);
    proof {
        let a = opt_id_bytes(opt_id(*src_child));
        let b = opt_id_bytes(opt_id(*dst_child));
        assert(w@ =~= mid + (a + b));
        assert(mid + (a + b) =~= s + (sp@ + dp@ + (a + b)));
    }
}

impl MutationOp {
    fn encode_entry(&self) -> (r: Vec<u8>)
        requires
            op_ok(self@),
            self is Create || self is Unlink,
        ensures
            r@ == op_bytes(self@),
    {
        let mut w = Writer::new();
        match self {
            MutationOp::Create { parent, name, ino, d_type, inode_id, parent_inode_id } => {
                w.u8(OP_CREATE);
                w.u64(*parent);
                put_name(&mut w, name);
                w.u64(*ino);
                w.u8(*d_type);
                w.bytes(inode_id.as_slice());
                w.bytes(parent_inode_id.as_slice());
                assert(w@ =~= op_bytes(self@));
            },
            MutationOp::Unlink { parent, name, child, is_dir, parent_inode_id, child_inode_id } => {
                w.u8(OP_UNLINK);
                w.u64(*parent);
                put_name(&mut w, name);
                w.u64(*child);
                put_flag(&mut w, *is_dir);
                w.bytes(parent_inode_id.as_slice());
                put_opt_id(&mut w, child_inode_id);
                assert(w@ =~= op_bytes(self@));
            },
            _ => {},
        }
        w.into_bytes()
    }

    fn encode_rename(&self) -> (r: Vec<u8>)
        requires
            op_ok(self@),
            self is Rename,
        ensures
            r@ == op_bytes(self@),
    {
        let mut w = Writer::new();
        match self {
            MutationOp::Rename {
                src_parent,
                src_name,
                dst_parent,
                dst_name,
                src_ino,
                dst_ino,
                src_is_dir,
                sp_inode_id,
                dp_inode_id,
                src_child_inode_id,
                dst_child_inode_id,
            } => {
                w.u8(OP_RENAME);
                put_rename_head(&mut w, *src_parent, src_name, *dst_parent, dst_name);
                w.u64(*src_ino);
                put_opt_u64(&mut w, dst_ino);
                put_flag(&mut w, *src_is_dir);
                put_rename_tail(
                    &mut w,
                    sp_inode_id,
                    dp_inode_id,
                    src_child_inode_id,
                    dst_child_inode_id,
                );
                assert(w@ =~= op_bytes(self@));
            },
            _ => {},
        }
        w.into_bytes()
    }

    /// Encode the op body (without the sequence number).
    pub fn encode(&self) -> (r: Vec<u8>)
        requires
            op_ok(self@),
        ensures
            r@ == op_bytes(self@),
    {
        match self {
            MutationOp::Create { .. } => self.encode_entry(),
            MutationOp::Unlink { .. } => self.encode_entry(),
            MutationOp::Rename { .. } => self.encode_rename(),
            MutationOp::Setattr { ino, inode_id } => {
                let mut w = Writer::new();
                w.u8(OP_SETATTR);
                w.u64(*ino);
                w.bytes(inode_id.as_slice());
                assert(w@ =~= op_bytes(self@));
                w.into_bytes()
            },
            MutationOp::Write { ino, size, chunks, inode_id } => {
                let mut w = Writer::new();
                w.u8(OP_WRITE);
                w.u64(*ino);
                w.u64(*size);
                w.u32(chunks.len() as u32);
                put_chunks(&mut w, chunks);
                w.bytes(inode_id.as_slice());
                assert(w@ =~= op_bytes(self@));
                w.into_bytes()
            },
        }
    }
}

// ---------------------------------------------------------------------------
// Decoding
// ---------------------------------------------------------------------------

fn get_flag(c: &mut Cursor<'_>) -> (r: bool)
    ensures
        scan_flag(old(c)@) == (r, final(c)@),
{
    c.u8() != 0
}

fn get_opt_id(c: &mut Cursor<'_>) -> (r: Option<ChunkId>)
    ensures
        final(c)@ == scan_opt_id(old(c)@).1,
        final(c)@ is Ok ==> opt_id(r) == scan_opt_id(old(c)@).0,
{
    if get_flag(c) {
        Some(c.id())
    } else {
        None
    }
}

fn get_opt_u64(c: &mut Cursor<'_>) -> (r: Option<u64>)
    ensures
        scan_opt_u64(old(c)@) == (r, final(c)@),
{
    if get_flag(c) {
        Some(c.u64())
    } else {
        None
    }
}

proof fn lemma_chunks_stuck(st: Scan, n: nat)
    requires
        st is Err,
    ensures
        scan_chunks(st, n).1 == st,
    decreases n,
{
    if n > 0 {
        lemma_chunks_stuck(st, (n - 1) as nat);
    }
}

fn get_chunks(c: &mut Cursor<'_>, n: u32) -> (r: Vec<(u64, ChunkId, Vec<u8>)>)
    ensures
        final(c)@ == scan_chunks(old(c)@, n as nat).1,
        final(c)@ is Ok ==> chunk_views(r@) == scan_chunks(old(c)@, n as nat).0,
{
    let ghost st = c@;
    let mut out: Vec<(u64, ChunkId, Vec<u8>)> = Vec::new();
    let mut i: u32 = 0;
    assert(chunk_views(out@) =~= Seq::empty());
    while i < n
        invariant
            i <= n,
            c@ == scan_chunks(st, i as nat).1,
            c@ is Ok ==> chunk_views(out@) == scan_chunks(st, i as nat).0,
        decreases n - i,
    {
        let ghost had = out@;
        let off: u64 = c.u64();
        let cid = c.id();
        let desc = copy_bytes(c.bytes32());
        out.push((off, cid, desc));
        proof {
            assert(chunk_views(out@) =~= chunk_views(had).push((off, cid@, desc@)));
        }
        i += 1;
    }
    out
}

impl MutationOp {
    fn get_create(c: &mut Cursor<'_>) -> (r: MutationOp)
        ensures
            final(c)@ == scan_create(old(c)@).1,
            final(c)@ is Ok ==> r@ == scan_create(old(c)@).0,
    {
        let parent: u64 = c.u64();
        let name = copy_bytes(c.bytes16());
        let ino: u64 = c.u64();
        let d_type: u8 = c.u8();
        let inode_id = c.id();
        let parent_inode_id = c.id();
        MutationOp::Create { parent, name, ino, d_type, inode_id, parent_inode_id }
    }

    fn get_setattr(c: &mut Cursor<'_>) -> (r: MutationOp)
        ensures
            final(c)@ == scan_setattr(old(c)@).1,
            final(c)@ is Ok ==> r@ == scan_setattr(old(c)@).0,
    {
        let ino: u64 = c.u64();
        let inode_id = c.id();
        MutationOp::Setattr { ino, inode_id }
    }

    fn get_unlink(c: &mut Cursor<'_>) -> (r: MutationOp)
        ensures
            final(c)@ == scan_unlink(old(c)@).1,
            final(c)@ is Ok ==> r@ == scan_unlink(old(c)@).0,
    {
        let parent: u64 = c.u64();
        let name = copy_bytes(c.bytes16());
        let child: u64 = c.u64();
        let is_dir = get_flag(c);
        let parent_inode_id = c.id();
        let child_inode_id = get_opt_id(c);
        MutationOp::Unlink { parent, name, child, is_dir, parent_inode_id, child_inode_id }
    }

    fn get_rename(c: &mut Cursor<'_>) -> (r: MutationOp)
        ensures
            final(c)@ == scan_rename(old(c)@).1,
            final(c)@ is Ok ==> r@ == scan_rename(old(c)@).0,
    {
        let src_parent: u64 = c.u64();
        let src_name = copy_bytes(c.bytes16());
        let dst_parent: u64 = c.u64();
        let dst_name = copy_bytes(c.bytes16());
        let src_ino: u64 = c.u64();
        let dst_ino = get_opt_u64(c);
        let src_is_dir = get_flag(c);
        let sp_inode_id = c.id();
        let dp_inode_id = c.id();
        let src_child_inode_id = get_opt_id(c);
        let dst_child_inode_id = get_opt_id(c);
        MutationOp::Rename {
            src_parent,
            src_name,
            dst_parent,
            dst_name,
            src_ino,
            dst_ino,
            src_is_dir,
            sp_inode_id,
            dp_inode_id,
            src_child_inode_id,
            dst_child_inode_id,
        }
    }

    fn get_write(c: &mut Cursor<'_>) -> (r: MutationOp)
        ensures
            final(c)@ == scan_write(old(c)@).1,
            final(c)@ is Ok ==> r@ == scan_write(old(c)@).0,
    {
        let ino: u64 = c.u64();
        let size: u64 = c.u64();
        let n: u32 = c.u32();
        c.check(n <= MAX_CHUNKS, CodecError::Malformed);
        let ghost st = c@;
        let chunks = if c.result().is_ok() {
            get_chunks(c, n)
        } else {
            proof {
                lemma_chunks_stuck(st, n as nat);
            }
            Vec::new()
        };
        let inode_id = c.id();
        MutationOp::Write { ino, size, chunks, inode_id }
    }

    /// Decode an op body (the sequence number is read by the caller).
    pub fn decode(bytes: &[u8]) -> (r: Result<MutationOp, CodecError>)
        ensures
            match r {
                Ok(op) => parse_op(bytes@) == Ok::<OpView, CodecError>(op@),
                Err(e) => parse_op(bytes@) == Err::<OpView, CodecError>(e),
            },
    {
        let mut c = Cursor::new(bytes);
        let tag: u8 = c.u8();
        let op = if tag == OP_CREATE {
            Self::get_create(&mut c)
        } else if tag == OP_SETATTR {
            Self::get_setattr(&mut c)
        } else if tag == OP_UNLINK {
            Self::get_unlink(&mut c)
        } else if tag == OP_RENAME {
            Self::get_rename(&mut c)
        } else if tag == OP_WRITE {
            Self::get_write(&mut c)
        } else {
            c.check(false, CodecError::Malformed);
            MutationOp::Setattr { ino: 0, inode_id: ChunkId::zero() }
        };
        match c.result() {
            Ok(_) => Ok(op),
            Err(e) => Err(e),
        }
    }
}

proof fn lemma_chunks_parsed(st: Scan, n: nat)
    ensures
        scan_chunks(st, n).1 is Ok ==> scan_chunks(st, n).0.len() == n && chunks_ok(
            scan_chunks(st, n).0,
        ),
    decreases n,
{
    if n > 0 {
        lemma_chunks_parsed(st, (n - 1) as nat);
        let (cs, st1) = scan_chunks(st, (n - 1) as nat);
        let (c, st2) = scan_chunk(st1);
        if st2 is Ok {
            assert(chunk_ok(c));
            assert forall|i: int| 0 <= i < cs.push(c).len() implies chunk_ok(
                #[trigger] cs.push(c)[i],
            ) by {
                if i < cs.len() {
                    assert(chunk_ok(cs[i]));
                }
            }
        }
    }
}

proof fn lemma_create_parsed(st: Scan)
    ensures
        scan_create(st).1 is Ok ==> op_ok(scan_create(st).0),
{
}

proof fn lemma_setattr_parsed(st: Scan)
    ensures
        scan_setattr(st).1 is Ok ==> op_ok(scan_setattr(st).0),
{
}

proof fn lemma_unlink_parsed(st: Scan)
    ensures
        scan_unlink(st).1 is Ok ==> op_ok(scan_unlink(st).0),
{
}

proof fn lemma_rename_head_parsed(st: Scan)
    ensures
        scan_rename_head(st).1 is Ok ==> scan_rename_head(st).0.1.len() <= u16::MAX
            && scan_rename_head(st).0.3.len() <= u16::MAX,
{
}

proof fn lemma_rename_parsed(st: Scan)
    ensures
        scan_rename(st).1 is Ok ==> op_ok(scan_rename(st).0),
{
    lemma_rename_head_parsed(st);
}

proof fn lemma_write_parsed(st: Scan)
    ensures
        scan_write(st).1 is Ok ==> op_ok(scan_write(st).0),
{
    let (_, a) = scan_u64(st);
    let (_, b) = scan_u64(a);
    let (n, c) = scan_u32(b);
    let d = scan_check(c, n <= MAX_CHUNKS, CodecError::Malformed);
    if d is Err {
        lemma_chunks_stuck(d, n as nat);
    }
    lemma_chunks_parsed(d, n as nat);
}

/// What can be decoded can be encoded.
pub proof fn parsed_op_ok(bytes: Seq<u8>)
    ensures
        parse_op(bytes) matches Ok(v) ==> op_ok(v),
{
    let (tag, st) = scan_u8(Ok(bytes));
    if tag == OP_CREATE {
        lemma_create_parsed(st);
    } else if tag == OP_SETATTR {
        lemma_setattr_parsed(st);
    } else if tag == OP_UNLINK {
        lemma_unlink_parsed(st);
    } else if tag == OP_RENAME {
        lemma_rename_parsed(st);
    } else if tag == OP_WRITE {
        lemma_write_parsed(st);
    }
}

// ---------------------------------------------------------------------------
// Envelopes
// ---------------------------------------------------------------------------

/// The envelope payload of an op under a sequence number.
pub open spec fn envelope_bytes(seq: u64, v: OpView) -> Seq<u8> {
    u64_bytes(seq) + op_bytes(v)
}

/// The sequence number and the op of an envelope payload.
pub open spec fn parse_envelope(bytes: Seq<u8>) -> Result<(u64, OpView), CodecError> {
    let (seq, st) = scan_u64(Ok(bytes));
    match st {
        Err(e) => Err(e),
        Ok(rest) => match parse_op(rest) {
            Ok(op) => Ok((seq, op)),
            Err(e) => Err(e),
        },
    }
}

/// Decoding an envelope gives its sequence number and its op back.
pub proof fn envelope_round_trip(seq: u64, v: OpView)
    requires
        op_ok(v),
    ensures
        parse_envelope(envelope_bytes(seq, v)) == Ok::<(u64, OpView), CodecError>((seq, v)),
{
    lemma_scan_u64(seq, op_bytes(v));
    op_round_trip(v);
}

/// Encode an envelope payload.
pub fn encode_envelope(seq: u64, op: &MutationOp) -> (r: Vec<u8>)
    requires
        op_ok(op@),
    ensures
        r@ == envelope_bytes(seq, op@),
{
    let mut w = Writer::new();
    w.u64(seq);
    w.bytes(&op.encode());
    assert(w@ =~= envelope_bytes(seq, op@));
    w.into_bytes()
}

/// Recover the sequence number from an envelope payload.
pub fn envelope_seq(bytes: &[u8]) -> (r: Result<u64, StoreError>)
    ensures
        match r {
            Ok(seq) => scan_u64(Ok(bytes@)).1 is Ok && seq == scan_u64(Ok(bytes@)).0,
            Err(e) => scan_u64(Ok(bytes@)).1 is Err && e is Descriptor,
        },
{
    let mut c = Cursor::new(bytes);
    let seq: u64 = c.u64();
    match c.result() {
        Ok(_) => Ok(seq),
        Err(e) => Err(StoreError::descriptor(e)),
    }
}

/// Decode an envelope payload (sequence and op).
pub fn decode_envelope(bytes: &[u8]) -> (r: Result<(u64, MutationOp), StoreError>)
    ensures
        match r {
            Ok(o) => parse_envelope(bytes@) == Ok::<(u64, OpView), CodecError>((o.0, o.1@)),
            Err(e) => parse_envelope(bytes@) is Err && e is Descriptor,
        },
{
    let mut c = Cursor::new(bytes);
    let seq: u64 = c.u64();
    match c.result() {
        Err(e) => return Err(StoreError::descriptor(e)),
        Ok(_) => {},
    }
    let rest = vstd::slice::slice_subrange(bytes, 8, bytes.len());
    assert(rest@ =~= bytes@.skip(8));
    match MutationOp::decode(rest) {
        Ok(op) => Ok((seq, op)),
        Err(e) => Err(StoreError::descriptor(e)),
    }
}

} // verus!
