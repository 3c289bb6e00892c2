//! Inode structure and codec.

use vstd::prelude::*;

use crate::bytes::copy_bytes;
use crate::chunk::{digest, zero_id, ChunkId};
use crate::codec::{bytes32, lemma_scan_bytes32, lemma_scan_take, lemma_scan_u32, lemma_scan_u64,
    lemma_scan_u8, scan_bytes32, scan_check, scan_end, scan_take, scan_u32, scan_u64, scan_u8,
    u32_bytes, u64_bytes, u8_bytes, CodecError, Cursor, Reader, Scan, Writer};
use crate::mode::{S_IFBLK, S_IFCHR, S_IFDIR, S_IFLNK, S_IFMT, S_IFREG, S_IPERM};

verus! {

/// Directory.
pub const DATA_DIRECTORY: u8 = 0x01;

/// Regular file.
pub const DATA_FILE: u8 = 0x02;

/// Symbolic link.
pub const DATA_SYMLINK: u8 = 0x03;

/// Device node.
pub const DATA_DEVICE: u8 = 0x04;

/// Nanoseconds in a second.
pub const NSEC_PER_SEC: u32 = 1_000_000_000;

/// A nanosecond-resolution timestamp.
#[derive(Debug, Clone, Copy, PartialEq, Eq, Structural)]
pub struct Timespec {
    /// Seconds since the epoch.
    pub sec: u64,
    /// Nanoseconds (below one second).
    pub nsec: u32,
}

/// `std::time::SystemTime::elapsed` of the Unix epoch: whole seconds and the
/// nanoseconds beyond them, which are below one second. A clock before the
/// epoch counts as the epoch. The time itself is left open.
#[verifier::external_body]
fn unix_elapsed() -> (r: (u64, u32))
    ensures
        r.1 < NSEC_PER_SEC,
{
    let d = std::time::UNIX_EPOCH.elapsed().unwrap_or_default();
    (d.as_secs(), d.subsec_nanos())
}

impl Default for Timespec {
    fn default() -> (r: Timespec)
        ensures
            r == (Timespec { sec: 0, nsec: 0 }),
    {
        Timespec { sec: 0, nsec: 0 }
    }
}

pub open spec fn time_bytes(t: Timespec) -> Seq<u8> {
    u64_bytes(t.sec) + u32_bytes(t.nsec)
}

/// A timestamp; nanoseconds of a second or more are malformed.
pub open spec fn scan_time(st: Scan) -> (Timespec, Scan) {
    let (sec, st) = scan_u64(st);
    let (nsec, st) = scan_u32(st);
    (Timespec { sec, nsec }, scan_check(st, nsec < NSEC_PER_SEC, CodecError::Malformed))
}

pub proof fn lemma_scan_time(t: Timespec, rest: Seq<u8>)
    requires
        t.nsec < NSEC_PER_SEC,
    ensures
        time_bytes(t).len() == 12,
        scan_time(Ok(time_bytes(t) + rest)) == (t, Ok::<Seq<u8>, CodecError>(rest)),
{
    assert(time_bytes(t) + rest =~= u64_bytes(t.sec) + (u32_bytes(t.nsec) + rest));
    lemma_scan_u64(t.sec, u32_bytes(t.nsec) + rest);
    lemma_scan_u32(t.nsec, rest);
}

impl Timespec {
    /// Now (wall clock; metadata only, never affects decodability).
    pub fn now() -> (r: Timespec)
        ensures
            r.nsec < NSEC_PER_SEC,
    {
        let (sec, nsec) = unix_elapsed();
        Timespec { sec, nsec }
    }

    pub fn encode(&self, w: &mut Writer)
        ensures
            final(w)@ == old(w)@ + time_bytes(*self),
    {
        let ghost before = w@;
        w.u64(self.sec);
        w.u32(self.nsec);
        assert(w@ =~= before + time_bytes(*self));
    }

    pub fn decode(r: &mut Reader<'_>) -> (out: Result<Timespec, CodecError>)
        ensures
            match out {
                Ok(t) => scan_time(Ok(old(r)@)) == (t, Ok::<Seq<u8>, CodecError>(final(r)@)),
                Err(e) => scan_time(Ok(old(r)@)).1 == Err::<Seq<u8>, CodecError>(e),
            },
    {
        let sec: u64 = match r.u64() {
            Ok(v) => v,
            Err(e) => return Err(e),
        };
        let nsec: u32 = match r.u32() {
            Ok(v) => v,
            Err(e) => return Err(e),
        };
        if nsec >= NSEC_PER_SEC {
            return Err(CodecError::Malformed);
        }
        Ok(Timespec { sec, nsec })
    }
}

/// The immutable inode object.
#[derive(Debug, PartialEq, Eq)]
pub struct Inode {
    /// st_mode (type + permissions).
    pub mode: u32,
    /// Owner uid.
    pub uid: u32,
    /// Owner gid.
    pub gid: u32,
    /// Logical size in bytes.
    pub size: u64,
    /// Access time.
    pub atime: Timespec,
    /// Change time.
    pub ctime: Timespec,
    /// Modification time.
    pub mtime: Timespec,
    /// Creation time.
    pub crtime: Timespec,
    /// Link count.
    pub nlink: u32,
    /// Device number (for device inodes).
    pub rdev: u32,
    /// Reserved flags.
    pub flags: u32,
    /// xattr tree root (zero: none).
    pub xattr_root: ChunkId,
    /// Data kind.
    pub data_kind: u8,
    /// Data payload (per kind).
    pub data: InodeData,
}

/// Per-kind inode data.
#[derive(Debug, PartialEq, Eq)]
pub enum InodeData {
    /// Directory: root of the directory entry B-tree.
    Directory { dir_root: ChunkId },
    /// Regular file: root of the extent B-tree.
    File { extent_root: ChunkId },
    /// Symlink: target bytes (size == target length).
    Symlink { target: Vec<u8> },
    /// Device: `rdev` carries the number.
    Device,
}

/// Mathematical [`InodeData`].
#[verifier::ext_equal]
pub enum DataView {
    Directory { dir_root: Seq<u8> },
    File { extent_root: Seq<u8> },
    Symlink { target: Seq<u8> },
    Device,
}

/// Mathematical [`Inode`].
#[verifier::ext_equal]
pub struct InodeView {
    pub mode: u32,
    pub uid: u32,
    pub gid: u32,
    pub size: u64,
    pub atime: Timespec,
    pub ctime: Timespec,
    pub mtime: Timespec,
    pub crtime: Timespec,
    pub nlink: u32,
    pub rdev: u32,
    pub flags: u32,
    pub xattr_root: Seq<u8>,
    pub data_kind: u8,
    pub data: DataView,
}

impl View for InodeData {
    type V = DataView;

    open spec fn view(&self) -> DataView {
        match self {
            InodeData::Directory { dir_root } => DataView::Directory { dir_root: dir_root@ },
            InodeData::File { extent_root } => DataView::File { extent_root: extent_root@ },
            InodeData::Symlink { target } => DataView::Symlink { target: target@ },
            InodeData::Device => DataView::Device,
        }
    }
}

impl View for Inode {
    type V = InodeView;

    open spec fn view(&self) -> InodeView {
        InodeView {
            mode: self.mode,
            uid: self.uid,
            gid: self.gid,
            size: self.size,
            atime: self.atime,
            ctime: self.ctime,
            mtime: self.mtime,
            crtime: self.crtime,
            nlink: self.nlink,
            rdev: self.rdev,
            flags: self.flags,
            xattr_root: self.xattr_root@,
            data_kind: self.data_kind,
            data: self.data@,
        }
    }
}

// ---------------------------------------------------------------------------
// Format
// ---------------------------------------------------------------------------

/// Mode, owner and size.
pub open spec fn owner_bytes(v: InodeView) -> Seq<u8> {
    u32_bytes(v.mode) + u32_bytes(v.uid) + u32_bytes(v.gid) + u64_bytes(v.size)
}

/// The four timestamps.
pub open spec fn times_bytes(v: InodeView) -> Seq<u8> {
    time_bytes(v.atime) + time_bytes(v.ctime) + time_bytes(v.mtime) + time_bytes(v.crtime)
}

/// Link count to data kind.
pub open spec fn tail_bytes(v: InodeView) -> Seq<u8> {
    u32_bytes(v.nlink) + u32_bytes(v.rdev) + u32_bytes(v.flags) + v.xattr_root + u8_bytes(
        v.data_kind,
    )
}

pub open spec fn data_bytes(d: DataView) -> Seq<u8> {
    match d {
        DataView::Directory { dir_root } => dir_root,
        DataView::File { extent_root } => extent_root,
        DataView::Symlink { target } => bytes32(target),
        DataView::Device => Seq::empty(),
    }
}

/// The inode payload.
pub open spec fn inode_bytes(v: InodeView) -> Seq<u8> {
    owner_bytes(v) + times_bytes(v) + tail_bytes(v) + data_bytes(v.data)
}

pub open spec fn scan_data(kind: u8, st: Scan) -> (DataView, Scan) {
    if kind == DATA_DIRECTORY {
        let (dir_root, st) = scan_take(st, 32);
        (DataView::Directory { dir_root }, st)
    } else if kind == DATA_FILE {
        let (extent_root, st) = scan_take(st, 32);
        (DataView::File { extent_root }, st)
    } else if kind == DATA_SYMLINK {
        let (target, st) = scan_bytes32(st);
        (DataView::Symlink { target }, st)
    } else {
        (DataView::Device, scan_check(st, kind == DATA_DEVICE, CodecError::Malformed))
    }
}

/// The type bits of `mode` are those of the data kind.
pub open spec fn type_matches(mode: u32, kind: u8) -> bool {
    let ft = mode & S_IFMT;
    if kind == DATA_DIRECTORY {
        ft == S_IFDIR
    } else if kind == DATA_FILE {
        ft == S_IFREG
    } else if kind == DATA_SYMLINK {
        ft == S_IFLNK
    } else {
        ft == S_IFCHR || ft == S_IFBLK
    }
}

pub open spec fn scan_owner(st: Scan) -> ((u32, u32, u32, u64), Scan) {
    let (mode, st) = scan_u32(st);
    let (uid, st) = scan_u32(st);
    let (gid, st) = scan_u32(st);
    let (size, st) = scan_u64(st);
    ((mode, uid, gid, size), st)
}

pub open spec fn scan_times(st: Scan) -> ((Timespec, Timespec, Timespec, Timespec), Scan) {
    let (atime, st) = scan_time(st);
    let (ctime, st) = scan_time(st);
    let (mtime, st) = scan_time(st);
    let (crtime, st) = scan_time(st);
    ((atime, ctime, mtime, crtime), st)
}

pub open spec fn scan_tail(st: Scan) -> ((u32, u32, u32, Seq<u8>, u8), Scan) {
    let (nlink, st) = scan_u32(st);
    let (rdev, st) = scan_u32(st);
    let (flags, st) = scan_u32(st);
    let (xattr_root, st) = scan_take(st, 32);
    let (data_kind, st) = scan_u8(st);
    ((nlink, rdev, flags, xattr_root, data_kind), st)
}

/// The inode behind a payload, or why there is none.
pub open spec fn parse_inode(bytes: Seq<u8>) -> Result<InodeView, CodecError> {
    let ((mode, uid, gid, size), st) = scan_owner(Ok(bytes));
    let ((atime, ctime, mtime, crtime), st) = scan_times(st);
    let ((nlink, rdev, flags, xattr_root, data_kind), st) = scan_tail(st);
    let (data, st) = scan_data(data_kind, st);
    let st = scan_end(st);
    let st = scan_check(st, type_matches(mode, data_kind), CodecError::Malformed);
    match st {
        Err(e) => Err(e),
        Ok(_) => Ok(
            InodeView {
                mode,
                uid,
                gid,
                size,
                atime,
                ctime,
                mtime,
                crtime,
                nlink,
                rdev,
                flags,
                xattr_root,
                data_kind,
                data,
            },
        ),
    }
}

/// The data kind that goes with the data.
pub open spec fn kind_of(d: DataView) -> u8 {
    match d {
        DataView::Directory { .. } => DATA_DIRECTORY,
        DataView::File { .. } => DATA_FILE,
        DataView::Symlink { .. } => DATA_SYMLINK,
        DataView::Device => DATA_DEVICE,
    }
}

/// An inode that its payload gives back: timestamps in range, the data kind and
/// the type bits those of the data.
pub open spec fn inode_ok(v: InodeView) -> bool {
    &&& v.atime.nsec < NSEC_PER_SEC
    &&& v.ctime.nsec < NSEC_PER_SEC
    &&& v.mtime.nsec < NSEC_PER_SEC
    &&& v.crtime.nsec < NSEC_PER_SEC
    &&& v.xattr_root.len() == 32
    &&& v.data_kind == kind_of(v.data)
    &&& type_matches(v.mode, v.data_kind)
    &&& match v.data {
        DataView::Directory { dir_root } => dir_root.len() == 32,
        DataView::File { extent_root } => extent_root.len() == 32,
        DataView::Symlink { target } => target.len() <= u32::MAX,
        DataView::Device => true,
    }
}

proof fn lemma_scan_owner(v: InodeView, rest: Seq<u8>)
    ensures
        scan_owner(Ok(owner_bytes(v) + rest)) == (
            (v.mode, v.uid, v.gid, v.size),
            Ok::<Seq<u8>, CodecError>(rest),
        ),
{
    let s4 = u64_bytes(v.size) + rest;
    let s3 = u32_bytes(v.gid) + s4;
    let s2 = u32_bytes(v.uid) + s3;
    let s1 = u32_bytes(v.mode) + s2;
    assert(owner_bytes(v) + rest =~= s1);
    lemma_scan_u32(v.mode, s2);
    lemma_scan_u32(v.uid, s3);
    lemma_scan_u32(v.gid, s4);
    lemma_scan_u64(v.size, rest);
}

proof fn lemma_scan_times(v: InodeView, rest: Seq<u8>)
    requires
        inode_ok(v),
    ensures
        scan_times(Ok(times_bytes(v) + rest)) == (
            (v.atime, v.ctime, v.mtime, v.crtime),
            Ok::<Seq<u8>, CodecError>(rest),
        ),
{
    let s4 = time_bytes(v.crtime) + rest;
    let s3 = time_bytes(v.mtime) + s4;
    let s2 = time_bytes(v.ctime) + s3;
    let s1 = time_bytes(v.atime) + s2;
    assert(times_bytes(v) + rest =~= s1);
    lemma_scan_time(v.atime, s2);
    lemma_scan_time(v.ctime, s3);
    lemma_scan_time(v.mtime, s4);
    lemma_scan_time(v.crtime, rest);
}

proof fn lemma_scan_tail(v: InodeView, rest: Seq<u8>)
    requires
        v.xattr_root.len() == 32,
    ensures
        scan_tail(Ok(tail_bytes(v) + rest)) == (
            (v.nlink, v.rdev, v.flags, v.xattr_root, v.data_kind),
            Ok::<Seq<u8>, CodecError>(rest),
        ),
{
    let s5 = u8_bytes(v.data_kind) + rest;
    let s4 = v.xattr_root + s5;
    let s3 = u32_bytes(v.flags) + s4;
    let s2 = u32_bytes(v.rdev) + s3;
    let s1 = u32_bytes(v.nlink) + s2;
    assert(tail_bytes(v) + rest =~= s1);
    lemma_scan_u32(v.nlink, s2);
    lemma_scan_u32(v.rdev, s3);
    lemma_scan_u32(v.flags, s4);
    lemma_scan_take(v.xattr_root, s5);
    lemma_scan_u8(v.data_kind, rest);
}

/// Decoding an encoded inode gives the inode back.
#[verifier::rlimit(60)]
#[verifier::spinoff_prover]
pub proof fn inode_round_trip(v: InodeView)
    requires
        inode_ok(v),
    ensures
        parse_inode(inode_bytes(v)) == Ok::<InodeView, CodecError>(v),
{
    let none = Seq::<u8>::empty();
    let d = data_bytes(v.data);
    let s3 = tail_bytes(v) + d;
    let s2 = times_bytes(v) + s3;
    assert(inode_bytes(v) =~= owner_bytes(v) + s2);
    lemma_scan_owner(v, s2);
    lemma_scan_times(v, s3);
    lemma_scan_tail(v, d);
    assert(d + none =~= d);
    match v.data {
        DataView::Directory { dir_root } => lemma_scan_take(dir_root, none),
        DataView::File { extent_root } => lemma_scan_take(extent_root, none),
        DataView::Symlink { target } => lemma_scan_bytes32(target, none),
        DataView::Device => {},
    }
}

/// What decodes is in range: timestamps, data kind and type bits.
pub proof fn inode_decoded_ok(bytes: Seq<u8>)
    requires
        parse_inode(bytes) is Ok,
    ensures
        inode_ok(parse_inode(bytes)->Ok_0),
{
    crate::bytes::lemma_pow256();
}

impl InodeData {
    pub fn copy(&self) -> (r: InodeData)
        ensures
            r@ == self@,
    {
        match self {
            InodeData::Directory { dir_root } => InodeData::Directory { dir_root: *dir_root },
            InodeData::File { extent_root } => InodeData::File { extent_root: *extent_root },
            InodeData::Symlink { target } => InodeData::Symlink { target: copy_bytes(target) },
            InodeData::Device => InodeData::Device,
        }
    }
}

/// A fresh inode of the given type and permissions, all timestamps `now`.
pub open spec fn fresh_inode(
    mode: u32,
    uid: u32,
    gid: u32,
    size: u64,
    nlink: u32,
    now: Timespec,
    data: DataView,
) -> InodeView {
    InodeView {
        mode,
        uid,
        gid,
        size,
        atime: now,
        ctime: now,
        mtime: now,
        crtime: now,
        nlink,
        rdev: 0,
        flags: 0,
        xattr_root: zero_id(),
        data_kind: kind_of(data),
        data,
    }
}

/// A new regular file, directory or symlink at a given time.
pub open spec fn file_at(uid: u32, gid: u32, mode_perms: u32, now: Timespec) -> InodeView {
    fresh_inode(
        S_IFREG | (mode_perms & S_IPERM),
        uid,
        gid,
        0,
        1,
        now,
        DataView::File { extent_root: zero_id() },
    )
}

pub open spec fn dir_at(uid: u32, gid: u32, mode_perms: u32, now: Timespec) -> InodeView {
    fresh_inode(
        S_IFDIR | (mode_perms & S_IPERM),
        uid,
        gid,
        0,
        2,
        now,
        DataView::Directory { dir_root: zero_id() },
    )
}

pub open spec fn symlink_at(target: Seq<u8>, uid: u32, gid: u32, now: Timespec) -> InodeView {
    fresh_inode(
        S_IFLNK | 0o777,
        uid,
        gid,
        target.len() as u64,
        1,
        now,
        DataView::Symlink { target },
    )
}

/// The permission bits never reach the type bits.
pub proof fn lemma_type_bits(perms: u32)
    ensures
        (S_IFREG | (perms & S_IPERM)) & S_IFMT == S_IFREG,
        (S_IFDIR | (perms & S_IPERM)) & S_IFMT == S_IFDIR,
        (S_IFLNK | 0o777u32) & S_IFMT == S_IFLNK,
{
    assert((0o100000u32 | (perms & 0o7777u32)) & 0o170000u32 == 0o100000u32) by (bit_vector);
    assert((0o040000u32 | (perms & 0o7777u32)) & 0o170000u32 == 0o040000u32) by (bit_vector);
    assert((0o120000u32 | 0o777u32) & 0o170000u32 == 0o120000u32) by (bit_vector);
}

impl Inode {
    pub fn copy(&self) -> (r: Inode)
        ensures
            r@ == self@,
    {
        Inode {
            mode: self.mode,
            uid: self.uid,
            gid: self.gid,
            size: self.size,
            atime: self.atime,
            ctime: self.ctime,
            mtime: self.mtime,
            crtime: self.crtime,
            nlink: self.nlink,
            rdev: self.rdev,
            flags: self.flags,
            xattr_root: self.xattr_root,
            data_kind: self.data_kind,
            data: self.data.copy(),
        }
    }

    /// New regular file inode.
    pub fn new_file(uid: u32, gid: u32, mode_perms: u32) -> (r: Inode)
        ensures
            r@ == file_at(uid, gid, mode_perms, r.crtime),
            inode_ok(r@),
    {
        Inode::file_with(uid, gid, mode_perms, Timespec::now())
    }

    /// New regular file inode at a given time.
    pub fn file_with(uid: u32, gid: u32, mode_perms: u32, now: Timespec) -> (r: Inode)
        ensures
            r@ == file_at(uid, gid, mode_perms, now),
            now.nsec < NSEC_PER_SEC ==> inode_ok(r@),
    {
        proof {
            lemma_type_bits(mode_perms);
        }
        Inode {
            mode: S_IFREG | (mode_perms & S_IPERM),
            uid,
            gid,
            size: 0,
            atime: now,
            ctime: now,
            mtime: now,
            crtime: now,
            nlink: 1,
            rdev: 0,
            flags: 0,
            xattr_root: ChunkId::zero(),
            data_kind: DATA_FILE,
            data: InodeData::File { extent_root: ChunkId::zero() },
        }
    }

    /// New directory inode.
    pub fn new_dir(uid: u32, gid: u32, mode_perms: u32) -> (r: Inode)
        ensures
            r@ == dir_at(uid, gid, mode_perms, r.crtime),
            inode_ok(r@),
    {
        Inode::dir_with(uid, gid, mode_perms, Timespec::now())
    }

    /// New directory inode at a given time.
    pub fn dir_with(uid: u32, gid: u32, mode_perms: u32, now: Timespec) -> (r: Inode)
        ensures
            r@ == dir_at(uid, gid, mode_perms, now),
            now.nsec < NSEC_PER_SEC ==> inode_ok(r@),
    {
        proof {
            lemma_type_bits(mode_perms);
        }
        Inode {
            mode: S_IFDIR | (mode_perms & S_IPERM),
            uid,
            gid,
            size: 0,
            atime: now,
            ctime: now,
            mtime: now,
            crtime: now,
            nlink: 2,
            rdev: 0,
            flags: 0,
            xattr_root: ChunkId::zero(),
            data_kind: DATA_DIRECTORY,
            data: InodeData::Directory { dir_root: ChunkId::zero() },
        }
    }

    /// New symlink inode.
    pub fn new_symlink(target: Vec<u8>, uid: u32, gid: u32) -> (r: Inode)
        ensures
            r@ == symlink_at(target@, uid, gid, r.crtime),
            target@.len() <= u32::MAX ==> inode_ok(r@),
    {
        Inode::symlink_with(target, uid, gid, Timespec::now())
    }

    /// New symlink inode at a given time.
    pub fn symlink_with(target: Vec<u8>, uid: u32, gid: u32, now: Timespec) -> (r: Inode)
        ensures
            r@ == symlink_at(target@, uid, gid, now),
            target@.len() <= u32::MAX && now.nsec < NSEC_PER_SEC ==> inode_ok(r@),
    {
        proof {
            lemma_type_bits(0);
        }
        let size: u64 = target.len() as u64;
        Inode {
            mode: S_IFLNK | 0o777,
            uid,
            gid,
            size,
            atime: now,
            ctime: now,
            mtime: now,
            crtime: now,
            nlink: 1,
            rdev: 0,
            flags: 0,
            xattr_root: ChunkId::zero(),
            data_kind: DATA_SYMLINK,
            data: InodeData::Symlink { target },
        }
    }

    /// File type bits.
    pub fn file_type(&self) -> (r: u32)
        ensures
            r == self.mode & S_IFMT,
    {
        self.mode & S_IFMT
    }

    /// Whether this is a directory.
    pub fn is_dir(&self) -> (r: bool)
        ensures
            r == (self.mode & S_IFMT == S_IFDIR),
    {
        self.file_type() == S_IFDIR
    }

    /// Whether this is a regular file.
    pub fn is_file(&self) -> (r: bool)
        ensures
            r == (self.mode & S_IFMT == S_IFREG),
    {
        self.file_type() == S_IFREG
    }

    /// Whether this is a symlink.
    pub fn is_symlink(&self) -> (r: bool)
        ensures
            r == (self.mode & S_IFMT == S_IFLNK),
    {
        self.file_type() == S_IFLNK
    }

    /// Encode to the inode payload.
    pub fn encode(&self) -> (r: Vec<u8>)
        requires
            self.data@ matches DataView::Symlink { target } ==> target.len() <= u32::MAX,
        ensures
            r@ == inode_bytes(self@),
    {
        let mut w = Writer::new();
        w.u32(self.mode);
        w.u32(self.uid);
        w.u32(self.gid);
        w.u64(self.size);
        assert(w@ =~= owner_bytes(self@));
        self.atime.encode(&mut w);
        self.ctime.encode(&mut w);
        self.mtime.encode(&mut w);
        self.crtime.encode(&mut w);
        assert(w@ =~= owner_bytes(self@) + times_bytes(self@));
        w.u32(self.nlink);
        w.u32(self.rdev);
        w.u32(self.flags);
        w.bytes(self.xattr_root.as_slice());
        w.u8(self.data_kind);
        assert(w@ =~= owner_bytes(self@) + times_bytes(self@) + tail_bytes(self@));
        match &self.data {
            InodeData::Directory { dir_root } => {
                w.bytes(dir_root.as_slice());
            },
            InodeData::File { extent_root } => {
                w.bytes(extent_root.as_slice());
            },
            InodeData::Symlink { target } => {
                let _ = w.bytes32(target);
            },
            InodeData::Device => {},
        }
        assert(w@ =~= inode_bytes(self@));
        w.into_bytes()
    }

    /// Decode an inode payload.
    pub fn decode(bytes: &[u8]) -> (r: Result<Inode, CodecError>)
        ensures
            match r {
                Ok(n) => parse_inode(bytes@) == Ok::<InodeView, CodecError>(n@) && inode_ok(n@),
                Err(e) => parse_inode(bytes@) == Err::<InodeView, CodecError>(e),
            },
    {
        let mut c = Cursor::new(bytes);
        let mode: u32 = c.u32();
        let uid: u32 = c.u32();
        let gid: u32 = c.u32();
        let size: u64 = c.u64();
        let atime = read_time(&mut c);
        let ctime = read_time(&mut c);
        let mtime = read_time(&mut c);
        let crtime = read_time(&mut c);
        let nlink: u32 = c.u32();
        let rdev: u32 = c.u32();
        let flags: u32 = c.u32();
        let xattr_root = c.id();
        let data_kind: u8 = c.u8();
        let data = read_data(&mut c, data_kind);
        c.end();
        let ft: u32 = mode & S_IFMT;
        let matching = if data_kind == DATA_DIRECTORY {
            ft == S_IFDIR
        } else if data_kind == DATA_FILE {
            ft == S_IFREG
        } else if data_kind == DATA_SYMLINK {
            ft == S_IFLNK
        } else {
            ft == S_IFCHR || ft == S_IFBLK
        };
        c.check(matching, CodecError::Malformed);
        proof {
            if parse_inode(bytes@) is Ok {
                inode_decoded_ok(bytes@);
            }
        }
        match c.result() {
            Err(e) => Err(e),
            Ok(_) => Ok(
                Inode {
                    mode,
                    uid,
                    gid,
                    size,
                    atime,
                    ctime,
                    mtime,
                    crtime,
                    nlink,
                    rdev,
                    flags,
                    xattr_root,
                    data_kind,
                    data,
                },
            ),
        }
    }

    /// Content id of the inode object.
    pub fn id(&self) -> (r: ChunkId)
        requires
            self.data@ matches DataView::Symlink { target } ==> target.len() <= u32::MAX,
        ensures
            r@ == digest(inode_bytes(self@)),
    {
        ChunkId::of(&self.encode())
    }
}

fn read_time(c: &mut Cursor<'_>) -> (r: Timespec)
    ensures
        scan_time(old(c)@) == (r, final(c)@),
{
    let sec: u64 = c.u64();
    let nsec: u32 = c.u32();
    c.check(nsec < NSEC_PER_SEC, CodecError::Malformed);
    Timespec { sec, nsec }
}

fn read_data(c: &mut Cursor<'_>, kind: u8) -> (r: InodeData)
    ensures
        final(c)@ == scan_data(kind, old(c)@).1,
        final(c)@ is Ok ==> r@ == scan_data(kind, old(c)@).0,
{
    if kind == DATA_DIRECTORY {
        InodeData::Directory { dir_root: c.id() }
    } else if kind == DATA_FILE {
        InodeData::File { extent_root: c.id() }
    } else if kind == DATA_SYMLINK {
        InodeData::Symlink { target: copy_bytes(c.bytes32()) }
    } else {
        c.check(kind == DATA_DEVICE, CodecError::Malformed);
        InodeData::Device
    }
}

} // verus!
