//! Namespace operations inside a transaction: entries, links, attributes and
//! extended attributes.
//!
//! Each operation is stated over the [`Namespace`] behind the working root, and
//! keeps that namespace whole.

use vstd::prelude::*;

use crate::bytes::{copy_bytes, u64_be};
use crate::chunk::{digest, zero_id, ChunkId};
use crate::directory::{self, entry_bytes, DirEntry};
use crate::dt::{DT_DIR, DT_LNK, DT_REG, DT_UNKNOWN};
use crate::error::StoreError;
use crate::fs::{data_root, entries_ok, entry_at, fs_ok, inode_at, inode_fits, ino_key, item_of,
    lemma_drop_row, lemma_entries_erase, lemma_entries_upsert, lemma_entry_at, lemma_fits_grows,
    lemma_fs_grows, lemma_listing, lemma_ns_at, lemma_object, lemma_put_row, lemma_tree_grows,
    lemma_tree_sorted, listing, ns, rootless, tree_ok, Item, Listing, Namespace, BTREE_ORDER};
use crate::index::{self, grown, opt_bytes, trusty, ObjectProvider};
use crate::index_edit::lemma_clash_free_subset;
use crate::inode::{dir_at, file_at, inode_bytes, inode_ok, lemma_type_bits, parse_inode, symlink_at, DataView,
    Inode, InodeData, InodeView, Timespec, DATA_DEVICE, NSEC_PER_SEC};
use crate::io::IoBackend;
use crate::mode::{S_IFBLK, S_IFCHR, S_IFDIR, S_IFMT, S_IPERM};
use crate::root::Root;
use crate::sorted::{erase, has_key, lookup, upsert};
use crate::store::Store;
use crate::transaction::{put_inode, Tx};
use crate::tree::{clash_free, max_height, tree_bytes, Tree};

verus! {

// ---------------------------------------------------------------------------
// State
// ---------------------------------------------------------------------------

/// The namespace behind `table` can be read through this provider.
pub open spec fn readable<P: ObjectProvider>(p: &P, table: Seq<u8>, fanout: u32, h: nat) -> bool {
    &&& trusty(p)
    &&& fs_ok(p.payloads(), table, fanout, h)
}

impl<'a, B: IoBackend> Tx<'a, B> {
    /// The namespace behind the working root.
    pub open spec fn ns(&self) -> Namespace {
        ns(self.objects.payloads(), self.root.inode_index_root@, self.max_fanout)
    }

    /// The namespace behind the working root is whole; no tree has more than
    /// `h` levels.
    pub open spec fn whole(&self, h: nat) -> bool {
        fs_ok(self.objects.payloads(), self.root.inode_index_root@, self.max_fanout, h)
    }

    /// The namespace behind the working root can be read.
    pub open spec fn reads(&self, h: nat) -> bool {
        readable(&self.objects, self.root.inode_index_root@, self.max_fanout, h)
    }

    /// The inode with this number.
    pub open spec fn inode_of(&self, ino: u64) -> Option<InodeView> {
        inode_at(self.objects.payloads(), self.root.inode_index_root@, self.max_fanout, ino)
    }
}

/// From `was` to `now` objects were added and the inode table replaced.
pub open spec fn edited<B: IoBackend>(was: Tx<B>, now: Tx<B>) -> bool {
    &&& grown(&was.objects, &now.objects)
    &&& now.max_fanout == was.max_fanout
    &&& now.root == (Root { inode_index_root: now.root.inode_index_root, ..was.root })
}

/// What an edit from `was` to `now` starts from: a whole namespace with room
/// above its trees, and no two objects of one digest in the end.
pub open spec fn editing<B: IoBackend>(was: Tx<B>, now: Tx<B>, h: nat) -> bool {
    &&& was.objects.faithful()
    &&& clash_free(now.objects.payloads())
    &&& BTREE_ORDER <= was.max_fanout
    &&& was.whole(h)
}

/// Reads of `tx` may fail: the backend may, or the trees may be too tall.
pub open spec fn strained<B: IoBackend>(tx: Tx<B>, h: nat) -> bool {
    tx.objects.may_fail() || h > max_height()
}

pub open spec fn opt_inode(v: Option<Inode>) -> Option<InodeView> {
    match v {
        Some(i) => Some(i@),
        None => None,
    }
}

/// The type bits say directory.
pub open spec fn is_dir(v: InodeView) -> bool {
    v.mode & S_IFMT == S_IFDIR
}

/// Nanoseconds in range.
pub open spec fn time_ok(t: Timespec) -> bool {
    t.nsec < NSEC_PER_SEC
}

pub open spec fn one_more(n: u32) -> u32 {
    if n == u32::MAX {
        n
    } else {
        (n + 1) as u32
    }
}

pub open spec fn one_less(n: u32) -> u32 {
    if n == 0 {
        n
    } else {
        (n - 1) as u32
    }
}

// ---------------------------------------------------------------------------
// Inodes
// ---------------------------------------------------------------------------

/// Look up an inode by number in the table at `table`.
pub fn read_inode<P: ObjectProvider>(
    table: ChunkId,
    ino: u64,
    max_fanout: u32,
    provider: &P,
) -> (r: Result<Option<Inode>, StoreError>)
    ensures
        r matches Ok(Some(v)) ==> inode_ok(v@),
        forall|h: nat| #[trigger]
            readable(provider, table@, max_fanout, h) ==> match r {
                Ok(v) => opt_inode(v) == inode_at(
                    provider.payloads(),
                    table@,
                    max_fanout,
                    ino,
                ),
                Err(_) => provider.may_fail() || h > max_height(),
            },
{
    let ghost p = provider.payloads();
    let key = u64_be(ino);
    let found = match index::get(table, &key, BTREE_ORDER, max_fanout, provider) {
        Ok(v) => v,
        Err(e) => {
            assert forall|h: nat| #[trigger] readable(
                provider,
                table@,
                max_fanout,
                h,
            ) implies provider.may_fail() || h > max_height() by {
                assert(tree_ok(p, table@, max_fanout, h));
            }
            return Err(StoreError::index(e));
        },
    };
    proof {
        assert forall|h: nat| #[trigger] readable(provider, table@, max_fanout, h) implies {
            &&& opt_bytes(found) == lookup(listing(p, table@, max_fanout), ino_key(ino))
            &&& found is Some == (inode_at(p, table@, max_fanout, ino) is Some)
            &&& found matches Some(id) ==> id@.len() == 32
        } by {
            assert(tree_ok(p, table@, max_fanout, h));
            lemma_ns_at(p, table@, max_fanout, h, ino);
            lemma_tree_sorted(p, table@, max_fanout, h);
            let s = listing(p, table@, max_fanout);
            crate::fs::lemma_has_key(s, ino_key(ino));
            if has_key(s, ino_key(ino)) {
                assert(crate::fs::row_ok(
                    p,
                    s[crate::sorted::rank(s, ino_key(ino))],
                    max_fanout,
                    h,
                ));
            }
        }
    }
    let id_bytes = match found {
        None => return Ok(None),
        Some(b) => b,
    };
    if id_bytes.len() != 32 {
        return Err(StoreError::Invariant("inode index value not an id".to_string()));
    }
    let id = ChunkId::from_slice(&id_bytes);
    let payload = match provider.get(&id) {
        Ok(Some(b)) => b,
        Ok(None) => {
            assert forall|h: nat| #[trigger] readable(
                provider,
                table@,
                max_fanout,
                h,
            ) implies provider.may_fail() || h > max_height() by {
                assert(inode_at(p, table@, max_fanout, ino) is Some);
                let b = crate::fs::object(p, id@)->0;
                assert(p.contains(b));
            }
            return Err(StoreError::Invariant("inode object missing".to_string()));
        },
        Err(e) => return Err(StoreError::index(e)),
    };
    proof {
        assert forall|h: nat| #[trigger] readable(
            provider,
            table@,
            max_fanout,
            h,
        ) implies inode_at(p, table@, max_fanout, ino) == (match parse_inode(payload@) {
            Ok(v) => Some(v),
            Err(_) => None,
        }) by {
            lemma_object(p, payload@);
        }
    }
    match Inode::decode(&payload) {
        Ok(v) => Ok(Some(v)),
        Err(e) => Err(StoreError::descriptor(e)),
    }
}

/// The payloads of an inode table of one row: the inode, and the leaf that names it.
pub open spec fn first_row(ino: u64, v: InodeView) -> Set<Seq<u8>> {
    let leaf = Tree::Leaf { entries: seq![(ino_key(ino), digest(inode_bytes(v)))] };
    Set::empty().insert(inode_bytes(v)).insert(tree_bytes(leaf, BTREE_ORDER))
}

impl<B: IoBackend> Store<B> {
    /// The inode with this number in the transaction; an error where there is
    /// none.
    pub fn inode_for_tx(tx: &Tx<'_, B>, ino: u64) -> (r: Result<Inode, StoreError>)
        ensures
            r matches Ok(v) ==> inode_ok(v@),
            forall|h: nat| #[trigger]
                tx.reads(h) ==> match r {
                    Ok(v) => tx.inode_of(ino) == Some(v@) && tx.ns().contains_key(ino)
                        && inode_fits(tx.objects.payloads(), v@, tx.max_fanout, h)
                        && tx.ns()[ino] == item_of(
                        tx.objects.payloads(),
                        v@,
                        tx.max_fanout,
                    ),
                    Err(e) => strained(*tx, h) || (e is Invariant && !tx.ns().contains_key(
                        ino,
                    )),
                },
    {
        let found = read_inode(tx.root.inode_index_root, ino, tx.max_fanout, &tx.objects);
        proof {
            assert forall|h: nat| #[trigger] tx.reads(h) implies {
                &&& tx.ns().contains_key(ino) == (tx.inode_of(ino) is Some)
                &&& tx.inode_of(ino) matches Some(v) ==> inode_fits(
                    tx.objects.payloads(),
                    v,
                    tx.max_fanout,
                    h,
                ) && tx.ns()[ino] == item_of(tx.objects.payloads(), v, tx.max_fanout)
                &&& readable(&tx.objects, tx.root.inode_index_root@, tx.max_fanout, h)
            } by {
                lemma_ns_at(
                    tx.objects.payloads(),
                    tx.root.inode_index_root@,
                    tx.max_fanout,
                    h,
                    ino,
                );
            }
        }
        match found {
            Ok(Some(v)) => Ok(v),
            Ok(None) => Err(StoreError::Invariant("inode missing".to_string())),
            Err(e) => Err(e),
        }
    }

    /// Insert/update an inode in the index (within a transaction).
    pub fn put_inode_in_tx(tx: &mut Tx<'_, B>, ino: u64, inode: &Inode) -> (r: Result<
        (),
        StoreError,
    >)
        requires
            inode.data@ matches DataView::Symlink { target } ==> target.len() <= u32::MAX,
        ensures
            edited(*old(tx), *final(tx)),
            forall|h: nat| #[trigger]
                editing(*old(tx), *final(tx), h) && inode_fits(
                    old(tx).objects.payloads(),
                    inode@,
                    old(tx).max_fanout,
                    h,
                ) ==> match r {
                    Ok(_) => {
                        &&& final(tx).whole(h + 1)
                        &&& final(tx).ns() == old(tx).ns().insert(
                            ino,
                            item_of(old(tx).objects.payloads(), inode@, old(tx).max_fanout),
                        )
                        &&& final(tx).inode_of(ino) == Some(inode@)
                    },
                    Err(_) => strained(*old(tx), h),
                },
            old(tx).root.inode_index_root@ == zero_id() ==> r is Ok
                && final(tx).objects.payloads() == old(tx).objects.payloads().union(
                first_row(ino, inode@),
            ),
    {
        let ghost p0 = tx.objects.payloads();
        let ghost t0 = tx.root.inode_index_root@;
        let ghost f = tx.max_fanout;
        let id = put_inode(tx, inode);
        let ghost p1 = tx.objects.payloads();
        let key = u64_be(ino);
        let out = index::insert(
            tx.root.inode_index_root,
            &key,
            id.as_slice(),
            BTREE_ORDER,
            tx.max_fanout,
            &mut tx.objects,
        );
        let ghost p2 = tx.objects.payloads();
        proof {
            assert forall|h: nat|
                BTREE_ORDER <= f && old(tx).objects.faithful() && clash_free(p2) && #[trigger] fs_ok(p0, t0, f, h) && inode_fits(
                    p0,
                    inode@,
                    f,
                    h,
                ) implies match out {
                Ok(now) => fs_ok(p2, now@, f, h + 1) && ns(p2, now@, f) == ns(p0, t0, f).insert(
                    ino,
                    item_of(p0, inode@, f),
                ) && inode_at(p2, now@, f, ino) == Some(inode@),
                Err(_) => strained(*old(tx), h),
            } by {
                lemma_clash_free_subset(p1, p2);
                lemma_tree_grows(p0, p1, t0, f, h, h);
                assert(tree_ok(p1, t0, f, h));
                if let Ok(now) = out {
                    lemma_fs_grows(p0, p2, t0, f, h, h + 1);
                    lemma_fits_grows(p0, p2, inode@, f, h, h + 1);
                    lemma_put_row(p2, t0, now@, f, h + 1, ino, inode@);
                }
            }
        }
        proof {
            if t0 == zero_id() {
                let leaf = tree_bytes(
                    Tree::Leaf { entries: seq![(key@, id@)] },
                    BTREE_ORDER,
                );
                assert(seq![leaf][0] == leaf);
                assert(seq![leaf].to_set().contains(leaf));
                assert(p2 =~= p0.union(first_row(ino, inode@)));
            }
        }
        match out {
            Ok(root) => {
                tx.root.inode_index_root = root;
                Ok(())
            },
            Err(e) => Err(StoreError::index(e)),
        }
    }

    /// Remove an inode from the index (unlink of the last link).
    pub fn remove_inode_in_tx(tx: &mut Tx<'_, B>, ino: u64) -> (r: Result<(), StoreError>)
        ensures
            edited(*old(tx), *final(tx)),
            forall|h: nat| #[trigger]
                editing(*old(tx), *final(tx), h) ==> match r {
                    Ok(_) => final(tx).whole(h) && final(tx).ns() == old(tx).ns().remove(ino),
                    Err(_) => strained(*old(tx), h),
                },
    {
        let ghost p0 = tx.objects.payloads();
        let ghost t0 = tx.root.inode_index_root@;
        let ghost f = tx.max_fanout;
        let key = u64_be(ino);
        let out = index::remove(
            tx.root.inode_index_root,
            &key,
            BTREE_ORDER,
            tx.max_fanout,
            &mut tx.objects,
        );
        let ghost p2 = tx.objects.payloads();
        proof {
            assert forall|h: nat|
                old(tx).objects.faithful() && clash_free(p2)
                    && #[trigger] fs_ok(p0, t0, f, h) implies match out {
                Ok(now) => fs_ok(p2, now@, f, h) && ns(p2, now@, f) == ns(p0, t0, f).remove(ino),
                Err(_) => strained(*old(tx), h),
            } by {
                assert(tree_ok(p0, t0, f, h));
                if let Ok(now) = out {
                    lemma_fs_grows(p0, p2, t0, f, h, h);
                    lemma_drop_row(p2, t0, now@, f, h, ino);
                }
            }
        }
        match out {
            Ok(root) => {
                tx.root.inode_index_root = root;
                Ok(())
            },
            Err(e) => Err(StoreError::index(e)),
        }
    }
}

// ---------------------------------------------------------------------------
// Names and new entries
// ---------------------------------------------------------------------------

/// A byte that no entry name holds.
pub open spec fn bad_byte(b: u8) -> bool {
    b == 0 || b == 0x2f
}

/// A directory entry name: not empty, not a dot name, at most 255 bytes, no NUL
/// and no slash.
pub open spec fn valid_name(name: Seq<u8>) -> bool {
    &&& 1 <= name.len() <= 255
    &&& name != seq![0x2eu8]
    &&& name != seq![0x2eu8, 0x2eu8]
    &&& forall|i: int| 0 <= i < name.len() ==> !bad_byte(#[trigger] name[i])
}

/// An extended attribute name: not empty, at most 255 bytes, no NUL and no slash.
pub open spec fn valid_xattr_name(name: Seq<u8>) -> bool {
    &&& 1 <= name.len() <= 255
    &&& forall|i: int| 0 <= i < name.len() ==> !bad_byte(#[trigger] name[i])
}

/// Whether no byte is NUL or a slash.
pub(crate) fn clean_bytes(name: &[u8]) -> (r: bool)
    ensures
        r == (forall|i: int| 0 <= i < name@.len() ==> !bad_byte(#[trigger] name@[i])),
{
    let mut i: usize = 0;
    while i < name.len()
        invariant
            i <= name@.len(),
            forall|j: int| 0 <= j < i ==> !bad_byte(#[trigger] name@[j]),
        decreases name@.len() - i,
    {
        let b: u8 = name[i];
        if b == 0 || b == 0x2f {
            assert(bad_byte(name@[i as int]));
            return false;
        }
        i += 1;
    }
    true
}

/// Entry kinds for `create_entry`.
#[derive(Debug, PartialEq, Eq)]
pub enum EntryKind {
    /// Regular file.
    File,
    /// Directory.
    Directory,
    /// Symbolic link with target bytes.
    Symlink(Vec<u8>),
    /// Device node (char, rdev).
    Device(bool, u32),
}

/// Parameters for creating a new entry.
#[derive(Debug, PartialEq, Eq)]
pub struct NewEntry {
    /// Entry kind.
    pub kind: EntryKind,
    /// Permission bits (type bits are implied by the kind).
    pub mode: u32,
    /// Owner uid.
    pub uid: u32,
    /// Owner gid.
    pub gid: u32,
}

/// Outcome of a rename, for cache invalidation.
#[derive(Debug, Clone, Copy, PartialEq, Eq, Structural)]
pub struct RenameOutcome {
    /// Inode that was moved.
    pub src_ino: u64,
    /// Inode of a replaced destination entry, if any.
    pub replaced_dst_ino: Option<u64>,
}

/// The `d_type` of a new entry.
pub open spec fn entry_type(kind: EntryKind) -> u8 {
    match kind {
        EntryKind::File => DT_REG,
        EntryKind::Directory => DT_DIR,
        EntryKind::Symlink(_) => DT_LNK,
        EntryKind::Device(_, _) => DT_UNKNOWN,
    }
}

/// The inode of a new entry.
pub open spec fn entry_inode(entry: NewEntry, now: Timespec) -> InodeView {
    match entry.kind {
        EntryKind::File => file_at(entry.uid, entry.gid, entry.mode, now),
        EntryKind::Directory => dir_at(entry.uid, entry.gid, entry.mode, now),
        EntryKind::Symlink(target) => symlink_at(target@, entry.uid, entry.gid, now),
        EntryKind::Device(is_char, rdev) => InodeView {
            mode: (if is_char {
                S_IFCHR
            } else {
                S_IFBLK
            }) | (entry.mode & S_IPERM),
            rdev,
            data_kind: DATA_DEVICE,
            data: DataView::Device,
            ..file_at(entry.uid, entry.gid, entry.mode, now)
        },
    }
}

/// A symlink target within the format's length prefix.
pub open spec fn entry_fits(entry: NewEntry) -> bool {
    entry.kind matches EntryKind::Symlink(target) ==> target@.len() <= u32::MAX
}

proof fn lemma_device_bits(perms: u32)
    ensures
        (S_IFCHR | (perms & S_IPERM)) & S_IFMT == S_IFCHR,
        (S_IFBLK | (perms & S_IPERM)) & S_IFMT == S_IFBLK,
        S_IFCHR & (S_IFCHR | S_IFBLK) != 0,
        S_IFBLK & (S_IFCHR | S_IFBLK) != 0,
{
    assert((0o020000u32 | (perms & 0o7777u32)) & 0o170000u32 == 0o020000u32
        && (0o060000u32 | (perms & 0o7777u32)) & 0o170000u32 == 0o060000u32
        && 0o020000u32 & (0o020000u32 | 0o060000u32) != 0
        && 0o060000u32 & (0o020000u32 | 0o060000u32) != 0) by (bit_vector);
}

impl NewEntry {
    /// A regular file with the given permission bits.
    pub fn file(mode: u32, uid: u32, gid: u32) -> (r: NewEntry)
        ensures
            r == (NewEntry { kind: EntryKind::File, mode, uid, gid }),
    {
        NewEntry { kind: EntryKind::File, mode, uid, gid }
    }

    /// A directory with the given permission bits.
    pub fn dir(mode: u32, uid: u32, gid: u32) -> (r: NewEntry)
        ensures
            r == (NewEntry { kind: EntryKind::Directory, mode, uid, gid }),
    {
        NewEntry { kind: EntryKind::Directory, mode, uid, gid }
    }

    /// A symlink with the given target.
    pub fn symlink(target: Vec<u8>, uid: u32, gid: u32) -> (r: NewEntry)
        ensures
            r == (NewEntry { kind: EntryKind::Symlink(target), mode: 0o777, uid, gid }),
    {
        NewEntry { kind: EntryKind::Symlink(target), mode: 0o777, uid, gid }
    }

    /// A device node.
    pub fn device(is_char: bool, rdev: u32, mode: u32, uid: u32, gid: u32) -> (r: NewEntry)
        ensures
            r == (NewEntry { kind: EntryKind::Device(is_char, rdev), mode, uid, gid }),
    {
        NewEntry { kind: EntryKind::Device(is_char, rdev), mode, uid, gid }
    }

    /// The `d_type` of the entry.
    pub fn d_type(&self) -> (r: u8)
        ensures
            r == entry_type(self.kind),
    {
        match &self.kind {
            EntryKind::File => DT_REG,
            EntryKind::Directory => DT_DIR,
            EntryKind::Symlink(_) => DT_LNK,
            EntryKind::Device(_, _) => DT_UNKNOWN,
        }
    }

    /// The inode of the entry, created at `now`.
    pub fn inode(&self, now: Timespec) -> (r: Inode)
        requires
            time_ok(now),
            entry_fits(*self),
        ensures
            r@ == entry_inode(*self, now),
            inode_ok(r@),
            data_root(r@.data) == zero_id(),
            r@.xattr_root == zero_id(),
    {
        proof {
            lemma_type_bits(self.mode);
            lemma_device_bits(self.mode);
        }
        match &self.kind {
            EntryKind::File => Inode::file_with(self.uid, self.gid, self.mode, now),
            EntryKind::Directory => Inode::dir_with(self.uid, self.gid, self.mode, now),
            EntryKind::Symlink(target) => Inode::symlink_with(
                copy_bytes(target),
                self.uid,
                self.gid,
                now,
            ),
            EntryKind::Device(is_char, rdev) => {
                let mut i = Inode::file_with(self.uid, self.gid, self.mode, now);
                i.data_kind = DATA_DEVICE;
                i.data = InodeData::Device;
                i.rdev = *rdev;
                i.mode = (if *is_char {
                    S_IFCHR
                } else {
                    S_IFBLK
                }) | (self.mode & S_IPERM);
                i
            },
        }
    }
}

// ---------------------------------------------------------------------------
// Directory trees
// ---------------------------------------------------------------------------

/// Only objects were added.
pub open spec fn objects_added<B: IoBackend>(was: Tx<B>, now: Tx<B>) -> bool {
    &&& grown(&was.objects, &now.objects)
    &&& now.max_fanout == was.max_fanout
    &&& now.root == was.root
}

/// A directory tree to edit.
pub open spec fn dir_editing<B: IoBackend>(was: Tx<B>, now: Tx<B>, dir: Seq<u8>, h: nat) -> bool {
    &&& was.objects.faithful()
    &&& clash_free(now.objects.payloads())
    &&& BTREE_ORDER <= was.max_fanout
    &&& tree_ok(was.objects.payloads(), dir, was.max_fanout, h)
    &&& entries_ok(listing(was.objects.payloads(), dir, was.max_fanout))
}

/// Bind a name in a directory tree.
pub(crate) fn dir_bind<B: IoBackend>(tx: &mut Tx<'_, B>, dir_root: ChunkId, name: &[u8], entry: DirEntry) -> (r:
    Result<ChunkId, StoreError>)
    requires
        name@.len() <= u16::MAX,
    ensures
        objects_added(*old(tx), *final(tx)),
        forall|h: nat| #[trigger]
            dir_editing(*old(tx), *final(tx), dir_root@, h) ==> match r {
                Ok(id) => {
                    let s = listing(old(tx).objects.payloads(), dir_root@, old(tx).max_fanout);
                    let p = final(tx).objects.payloads();
                    &&& tree_ok(p, id@, final(tx).max_fanout, h + 1)
                    &&& listing(p, id@, final(tx).max_fanout) == upsert(
                        s,
                        name@,
                        entry_bytes(entry),
                    )
                    &&& entries_ok(listing(p, id@, final(tx).max_fanout))
                },
                Err(_) => strained(*old(tx), h),
            },
{
    let ghost p0 = tx.objects.payloads();
    let ghost f = tx.max_fanout;
    let out = directory::insert(
        dir_root,
        name,
        entry,
        BTREE_ORDER,
        tx.max_fanout,
        &mut tx.objects,
    );
    proof {
        assert forall|h: nat| #[trigger] dir_editing(*old(tx), *tx, dir_root@, h) implies match out {
            Ok(id) => {
                let s = listing(p0, dir_root@, f);
                let p = tx.objects.payloads();
                &&& tree_ok(p, id@, f, h + 1)
                &&& listing(p, id@, f) == upsert(s, name@, entry_bytes(entry))
                &&& entries_ok(listing(p, id@, f))
            },
            Err(_) => strained(*old(tx), h),
        } by {
            assert(tree_ok(p0, dir_root@, f, h));
            lemma_tree_sorted(p0, dir_root@, f, h);
            if let Ok(id) = out {
                let s = listing(p0, dir_root@, f);
                lemma_listing(
                    tx.objects.payloads(),
                    id@,
                    f,
                    h + 1,
                    upsert(s, name@, entry_bytes(entry)),
                );
                lemma_entries_upsert(s, name@, entry);
            }
        }
    }
    match out {
        Ok(id) => Ok(id),
        Err(e) => Err(StoreError::index(e)),
    }
}

/// Unbind a name in a directory tree.
pub(crate) fn dir_unbind<B: IoBackend>(tx: &mut Tx<'_, B>, dir_root: ChunkId, name: &[u8]) -> (r: Result<
    ChunkId,
    StoreError,
>)
    ensures
        objects_added(*old(tx), *final(tx)),
        forall|h: nat| #[trigger]
            dir_editing(*old(tx), *final(tx), dir_root@, h) ==> match r {
                Ok(id) => {
                    let s = listing(old(tx).objects.payloads(), dir_root@, old(tx).max_fanout);
                    let p = final(tx).objects.payloads();
                    &&& tree_ok(p, id@, final(tx).max_fanout, h)
                    &&& listing(p, id@, final(tx).max_fanout) == erase(s, name@)
                    &&& entries_ok(listing(p, id@, final(tx).max_fanout))
                },
                Err(_) => strained(*old(tx), h),
            },
{
    let ghost p0 = tx.objects.payloads();
    let ghost f = tx.max_fanout;
    let out = directory::remove(dir_root, name, BTREE_ORDER, tx.max_fanout, &mut tx.objects);
    proof {
        assert forall|h: nat| #[trigger] dir_editing(*old(tx), *tx, dir_root@, h) implies match out {
            Ok(id) => {
                let s = listing(p0, dir_root@, f);
                let p = tx.objects.payloads();
                &&& tree_ok(p, id.0@, f, h)
                &&& listing(p, id.0@, f) == erase(s, name@)
                &&& entries_ok(listing(p, id.0@, f))
            },
            Err(_) => strained(*old(tx), h),
        } by {
            assert(tree_ok(p0, dir_root@, f, h));
            lemma_tree_sorted(p0, dir_root@, f, h);
            let s = listing(p0, dir_root@, f);
            lemma_entry_at(s, name@);
            if let Ok(id) = out {
                lemma_listing(tx.objects.payloads(), id.0@, f, h, erase(s, name@));
                lemma_entries_erase(s, name@);
            }
        }
    }
    match out {
        Ok((id, _)) => Ok(id),
        Err(e) => Err(StoreError::index(e)),
    }
}

/// The entry under a name of a directory tree.
pub(crate) fn dir_find<B: IoBackend>(tx: &Tx<'_, B>, dir_root: ChunkId, name: &[u8]) -> (r: Result<
    Option<DirEntry>,
    StoreError,
>)
    ensures
        forall|h: nat| #[trigger]
            dir_editing(*tx, *tx, dir_root@, h) ==> match r {
                Ok(e) => e == entry_at(
                    listing(tx.objects.payloads(), dir_root@, tx.max_fanout),
                    name@,
                ),
                Err(_) => strained(*tx, h),
            },
{
    let ghost p = tx.objects.payloads();
    let out = directory::lookup(dir_root, name, BTREE_ORDER, tx.max_fanout, &tx.objects);
    proof {
        assert forall|h: nat| #[trigger] dir_editing(*tx, *tx, dir_root@, h) implies match out {
            Ok(e) => e == entry_at(listing(p, dir_root@, tx.max_fanout), name@),
            Err(_) => strained(*tx, h),
        } by {
            assert(tree_ok(p, dir_root@, tx.max_fanout, h));
            lemma_tree_sorted(p, dir_root@, tx.max_fanout, h);
            lemma_entry_at(listing(p, dir_root@, tx.max_fanout), name@);
        }
    }
    match out {
        Ok(e) => Ok(e),
        Err(e) => Err(StoreError::index(e)),
    }
}

/// Whether a directory tree lists nothing.
pub(crate) fn dir_is_empty<B: IoBackend>(tx: &Tx<'_, B>, dir_root: ChunkId) -> (r: Result<bool, StoreError>)
    ensures
        forall|h: nat| #[trigger]
            dir_editing(*tx, *tx, dir_root@, h) ==> match r {
                Ok(e) => e == (listing(tx.objects.payloads(), dir_root@, tx.max_fanout).len() == 0),
                Err(_) => strained(*tx, h),
            },
{
    if dir_root.is_zero() {
        return Ok(true);
    }
    let ghost p = tx.objects.payloads();
    let out = directory::scan(dir_root, None, 1, BTREE_ORDER, tx.max_fanout, &tx.objects);
    proof {
        assert forall|h: nat| #[trigger] dir_editing(*tx, *tx, dir_root@, h) implies match out {
            Ok(o) => (o.0@.len() == 0) == (listing(p, dir_root@, tx.max_fanout).len() == 0),
            Err(_) => strained(*tx, h),
        } by {
            let s = listing(p, dir_root@, tx.max_fanout);
            assert(tree_ok(p, dir_root@, tx.max_fanout, h));
            assert(directory::names_after(s, None) == s);
            let shown = index::first_of(s, 1);
            if directory::some_undecodable(shown) {
                let i = choose|i: int|
                    0 <= i < shown.len() && directory::parse_entry((#[trigger] shown[i]).1) is Err;
                assert(shown[i] == s[i]);
            }
        }
    }
    match out {
        Ok(o) => Ok(o.0.len() == 0),
        Err(e) => Err(StoreError::index(e)),
    }
}

/// A directory with new entries.
pub open spec fn relisted(it: Item, entries: Listing, nlink: u32, now: Timespec) -> Item {
    Item { inode: InodeView { mtime: now, nlink, ..it.inode }, entries, xattrs: it.xattrs }
}

/// Write a directory inode with a new entry tree.
pub(crate) fn put_dir<B: IoBackend>(
    tx: &mut Tx<'_, B>,
    ino: u64,
    inode: Inode,
    dir_root: ChunkId,
    nlink: u32,
    now: Timespec,
) -> (r: Result<(), StoreError>)
    requires
        time_ok(now),
        inode.data is Directory,
    ensures
        edited(*old(tx), *final(tx)),
        forall|h: nat| #[trigger]
            editing(*old(tx), *final(tx), h) && inode_fits(
                old(tx).objects.payloads(),
                inode@,
                old(tx).max_fanout,
                h,
            ) && tree_ok(old(tx).objects.payloads(), dir_root@, old(tx).max_fanout, h)
                && entries_ok(
                listing(old(tx).objects.payloads(), dir_root@, old(tx).max_fanout),
            ) ==> match r {
                Ok(_) => {
                    &&& final(tx).whole(h + 1)
                    &&& final(tx).ns() == old(tx).ns().insert(
                        ino,
                        relisted(
                            item_of(old(tx).objects.payloads(), inode@, old(tx).max_fanout),
                            listing(
                                old(tx).objects.payloads(),
                                dir_root@,
                                old(tx).max_fanout,
                            ),
                            nlink,
                            now,
                        ),
                    )
                },
                Err(_) => strained(*old(tx), h),
            },
{
    let mut d = inode;
    d.data = InodeData::Directory { dir_root };
    d.mtime = now;
    d.nlink = nlink;
    proof {
        let p = tx.objects.payloads();
        let f = tx.max_fanout;
        assert(rootless(d@) =~= InodeView { mtime: now, nlink, ..rootless(inode@) });
        assert(item_of(p, d@, f) =~= relisted(
            item_of(p, inode@, f),
            listing(p, dir_root@, f),
            nlink,
            now,
        ));
    }
    Store::put_inode_in_tx(tx, ino, &d)
}

/// An edit to a later state is one to every state before it.
pub(crate) proof fn lemma_editing<B: IoBackend>(was: Tx<B>, mid: Tx<B>, now: Tx<B>, h: nat)
    requires
        editing(was, now, h),
        mid.objects.payloads().subset_of(now.objects.payloads()),
    ensures
        editing(was, mid, h),
{
    lemma_clash_free_subset(mid.objects.payloads(), now.objects.payloads());
}

/// The rest of an edit starts where its first part ended.
pub(crate) proof fn lemma_edit_on<B: IoBackend>(was: Tx<B>, mid: Tx<B>, now: Tx<B>, h: nat, k: nat)
    requires
        editing(was, now, h),
        grown(&was.objects, &mid.objects),
        mid.max_fanout == was.max_fanout,
        mid.whole(k),
    ensures
        editing(mid, now, k),
{
}

/// Adding objects leaves the namespace and its inodes as they are.
pub(crate) proof fn lemma_added<B: IoBackend>(was: Tx<B>, now: Tx<B>, h: nat, k: nat)
    requires
        objects_added(was, now),
        clash_free(now.objects.payloads()),
        was.whole(h),
        h <= k,
    ensures
        now.whole(k),
        now.ns() == was.ns(),
{
    lemma_fs_grows(
        was.objects.payloads(),
        now.objects.payloads(),
        was.root.inode_index_root@,
        was.max_fanout,
        h,
        k,
    );
}

// ---------------------------------------------------------------------------
// Create
// ---------------------------------------------------------------------------

/// The namespace with an entry put into a directory.
pub open spec fn entry_put(
    n: Namespace,
    dir: u64,
    name: Seq<u8>,
    entry: DirEntry,
    now: Timespec,
) -> Namespace {
    n.insert(
        dir,
        relisted(
            n[dir],
            upsert(n[dir].entries, name, entry_bytes(entry)),
            n[dir].inode.nlink,
            now,
        ),
    )
}

/// The namespace with an entry taken out of a directory.
pub open spec fn entry_cut(n: Namespace, dir: u64, name: Seq<u8>, now: Timespec) -> Namespace {
    n.insert(dir, relisted(n[dir], erase(n[dir].entries, name), n[dir].inode.nlink, now))
}

/// There is a directory at `ino`.
pub open spec fn has_dir(n: Namespace, ino: u64) -> bool {
    n.contains_key(ino) && n[ino].inode.data is Directory
}

/// No entry can be created: the name is not valid, the parent is no directory,
/// or the name is taken.
pub open spec fn create_refused(n: Namespace, parent: u64, name: Seq<u8>) -> bool {
    ||| !valid_name(name)
    ||| !has_dir(n, parent)
    ||| entry_at(n[parent].entries, name) is Some
}

/// A new inode without entries.
pub open spec fn fresh_item(v: InodeView) -> Item {
    Item { inode: v, entries: Seq::empty(), xattrs: Seq::empty() }
}

/// The namespace with a new inode `v` as `ino`, under `name` in `parent`.
pub open spec fn created(
    n: Namespace,
    parent: u64,
    name: Seq<u8>,
    ino: u64,
    v: InodeView,
    d_type: u8,
    now: Timespec,
) -> Namespace {
    n.insert(ino, fresh_item(v)).insert(
        parent,
        relisted(
            n[parent],
            upsert(n[parent].entries, name, entry_bytes(DirEntry { ino, d_type })),
            if v.data is Directory {
                one_more(n[parent].inode.nlink)
            } else {
                n[parent].inode.nlink
            },
            now,
        ),
    )
}

impl<B: IoBackend> Store<B> {
    /// Validate a directory entry name (raw bytes; never assumed UTF-8).
    pub fn validate_name(name: &[u8]) -> (r: bool)
        ensures
            r == valid_name(name@),
    {
        if name.len() == 0 || name.len() > 255 {
            return false;
        }
        if name.len() == 1 && name[0] == 0x2e {
            assert(name@ =~= seq![0x2eu8]);
            return false;
        }
        if name.len() == 2 && name[0] == 0x2e && name[1] == 0x2e {
            assert(name@ =~= seq![0x2eu8, 0x2eu8]);
            return false;
        }
        clean_bytes(name)
    }

    /// Create `entry` under `name` in the directory `parent`, as inode `ino`:
    /// what [`Store::create_entry`] does inside its transaction.
    #[verifier::rlimit(60)]
    #[verifier::spinoff_prover]
    pub fn create_in_tx(
        tx: &mut Tx<'_, B>,
        parent: u64,
        name: &[u8],
        entry: &NewEntry,
        ino: u64,
        now: Timespec,
    ) -> (r: Result<(), StoreError>)
        requires
            time_ok(now),
            entry_fits(*entry),
        ensures
            edited(*old(tx), *final(tx)),
            !valid_name(name@) ==> r is Err && r->Err_0 is Config,
            forall|h: nat| #[trigger]
                editing(*old(tx), *final(tx), h) ==> match r {
                    Ok(_) => {
                        &&& !create_refused(old(tx).ns(), parent, name@)
                        &&& final(tx).whole(h + 2)
                        &&& final(tx).ns() == created(
                            old(tx).ns(),
                            parent,
                            name@,
                            ino,
                            rootless(entry_inode(*entry, now)),
                            entry_type(entry.kind),
                            now,
                        )
                    },
                    Err(_) => strained(*old(tx), h + 1) || (*final(tx) == *old(tx)
                        && create_refused(old(tx).ns(), parent, name@)),
                },
    {
        if !Self::validate_name(name) {
            return Err(StoreError::Config("invalid entry name".to_string()));
        }
        let ghost was = *tx;
        let ghost f = tx.max_fanout;
        let ghost p0 = tx.objects.payloads();
        let parent_inode = match Self::inode_for_tx(tx, parent) {
            Ok(v) => v,
            Err(e) => {
                assert forall|h: nat| #[trigger] editing(was, was, h) implies was.reads(h) by {}
                return Err(e);
            },
        };
        let ghost pv = parent_inode@;
        proof {
            assert forall|h: nat| #[trigger] editing(was, was, h) implies was.reads(h) by {}
        }
        let dir_root = match &parent_inode.data {
            InodeData::Directory { dir_root } => *dir_root,
            _ => return Err(StoreError::Invariant("parent not a directory".to_string())),
        };
        let found = dir_find(tx, dir_root, name);
        proof {
            assert forall|h: nat| #[trigger] editing(was, was, h) implies dir_editing(
                was,
                was,
                dir_root@,
                h,
            ) by {
                assert(was.reads(h));
            }
        }
        match found {
            Err(e) => return Err(e),
            Ok(Some(_)) => return Err(StoreError::Invariant("entry already exists".to_string())),
            Ok(None) => {},
        }
        let inode = entry.inode(now);
        let ghost v = inode@;
        let out = Self::put_inode_in_tx(tx, ino, &inode);
        let ghost t1 = *tx;
        let ghost p1 = tx.objects.payloads();
        proof {
            assert forall|h: nat| #[trigger] editing(was, t1, h) implies {
                &&& editing(was, was, h)
                &&& inode_fits(p0, v, f, h)
                &&& item_of(p0, v, f) == fresh_item(rootless(v))
            } by {
                lemma_editing(was, was, t1, h);
                assert(listing(p0, zero_id(), f) =~= Seq::empty());
            }
        }
        match out {
            Err(e) => return Err(e),
            Ok(_) => {},
        }
        let link = DirEntry { ino, d_type: entry.d_type() };
        let bound = dir_bind(tx, dir_root, name, link);
        let ghost t2 = *tx;
        let ghost p2 = tx.objects.payloads();
        proof {
            assert forall|h: nat| #[trigger] editing(was, t2, h) implies {
                &&& editing(was, t1, h)
                &&& dir_editing(t1, t2, dir_root@, h)
                &&& listing(p1, dir_root@, f) == listing(p0, dir_root@, f)
            } by {
                lemma_editing(was, t1, t2, h);
                assert(editing(was, was, h));
                assert(was.reads(h));
                lemma_tree_grows(p0, p1, dir_root@, f, h, h);
            }
        }
        let root = match bound {
            Ok(id) => id,
            Err(e) => return Err(e),
        };
        let nlink: u32 = match &entry.kind {
            EntryKind::Directory => parent_inode.nlink.saturating_add(1),
            _ => parent_inode.nlink,
        };
        let done = put_dir(tx, parent, parent_inode, root, nlink, now);
        proof {
            let t3 = *tx;
            assert forall|h: nat| #[trigger] editing(was, t3, h) implies match done {
                Ok(_) => {
                    &&& !create_refused(was.ns(), parent, name@)
                    &&& t3.whole(h + 2)
                    &&& t3.ns() == created(
                        was.ns(),
                        parent,
                        name@,
                        ino,
                        rootless(v),
                        link.d_type,
                        now,
                    )
                },
                Err(_) => strained(was, h + 1),
            } by {
                lemma_editing(was, t2, t3, h);
                assert(editing(was, t1, h));
                assert(editing(was, was, h));
                assert(was.reads(h));
                assert(dir_editing(t1, t2, dir_root@, h));
                assert(t1.whole(h + 1));
                lemma_added(t1, t2, h + 1, h + 1);
                lemma_edit_on(was, t2, t3, h, h + 1);
                lemma_fits_grows(p0, p2, pv, f, h, h + 1);
                assert(was.ns()[parent] == item_of(p0, pv, f));
            }
        }
        done
    }
}

// ---------------------------------------------------------------------------
// Unlink
// ---------------------------------------------------------------------------

/// The item with another link count.
pub open spec fn relinked(it: Item, nlink: u32) -> Item {
    Item { inode: InodeView { nlink, ..it.inode }, ..it }
}

/// The namespace after the item `it` at `ino` lost a link: gone with its last
/// one.
pub open spec fn link_dropped(n: Namespace, ino: u64, it: Item) -> Namespace {
    let left = one_less(it.inode.nlink);
    if left == 0 {
        n.remove(ino)
    } else {
        n.insert(ino, relinked(it, left))
    }
}

/// The inode that a name stands for.
pub open spec fn child_of(n: Namespace, parent: u64, name: Seq<u8>) -> u64 {
    entry_at(n[parent].entries, name)->0.ino
}

/// A directory with entries.
pub open spec fn occupied(it: Item) -> bool {
    it.inode.data is Directory && it.entries.len() > 0
}

/// No entry can be removed: the name is not valid or not there, its inode is
/// missing, or it is of the wrong kind; a directory must be empty.
pub open spec fn unlink_refused(n: Namespace, parent: u64, name: Seq<u8>, rmdir: bool) -> bool {
    ||| !valid_name(name)
    ||| !has_dir(n, parent)
    ||| entry_at(n[parent].entries, name) is None
    ||| !n.contains_key(child_of(n, parent, name))
    ||| rmdir != is_dir(n[child_of(n, parent, name)].inode)
    ||| rmdir && occupied(n[child_of(n, parent, name)])
}

/// The namespace without the entry. A removed directory is gone; a file loses a
/// link.
pub open spec fn unlinked(
    n: Namespace,
    parent: u64,
    name: Seq<u8>,
    rmdir: bool,
    now: Timespec,
) -> Namespace {
    let child = child_of(n, parent, name);
    let rest = n.insert(
        parent,
        relisted(
            n[parent],
            erase(n[parent].entries, name),
            if rmdir {
                one_less(n[parent].inode.nlink)
            } else {
                n[parent].inode.nlink
            },
            now,
        ),
    );
    if rmdir {
        rest.remove(child)
    } else {
        link_dropped(rest, child, n[child])
    }
}

/// Write an inode with another link count.
pub(crate) fn put_links<B: IoBackend>(tx: &mut Tx<'_, B>, ino: u64, inode: Inode, nlink: u32) -> (r: Result<
    (),
    StoreError,
>)
    requires
        inode_ok(inode@),
    ensures
        edited(*old(tx), *final(tx)),
        forall|h: nat| #[trigger]
            editing(*old(tx), *final(tx), h) && inode_fits(
                old(tx).objects.payloads(),
                inode@,
                old(tx).max_fanout,
                h,
            ) ==> match r {
                Ok(_) => {
                    &&& final(tx).whole(h + 1)
                    &&& final(tx).ns() == old(tx).ns().insert(
                        ino,
                        relinked(
                            item_of(old(tx).objects.payloads(), inode@, old(tx).max_fanout),
                            nlink,
                        ),
                    )
                },
                Err(_) => strained(*old(tx), h),
            },
{
    let mut t = inode;
    t.nlink = nlink;
    proof {
        let p = tx.objects.payloads();
        let f = tx.max_fanout;
        assert(item_of(p, t@, f) =~= relinked(item_of(p, inode@, f), nlink));
    }
    Store::put_inode_in_tx(tx, ino, &t)
}

/// Take a link from an inode; the last one takes the inode with it.
pub(crate) fn drop_link<B: IoBackend>(tx: &mut Tx<'_, B>, ino: u64, inode: Inode) -> (r: Result<
    (),
    StoreError,
>)
    requires
        inode_ok(inode@),
    ensures
        edited(*old(tx), *final(tx)),
        forall|h: nat| #[trigger]
            editing(*old(tx), *final(tx), h) && inode_fits(
                old(tx).objects.payloads(),
                inode@,
                old(tx).max_fanout,
                h,
            ) ==> match r {
                Ok(_) => {
                    &&& final(tx).whole(h + 1)
                    &&& final(tx).ns() == link_dropped(
                        old(tx).ns(),
                        ino,
                        item_of(old(tx).objects.payloads(), inode@, old(tx).max_fanout),
                    )
                },
                Err(_) => strained(*old(tx), h),
            },
{
    let left: u32 = inode.nlink.saturating_sub(1);
    if left == 0 {
        let ghost was = *tx;
        let out = Store::remove_inode_in_tx(tx, ino);
        proof {
            let now = *tx;
            assert forall|h: nat| #[trigger] editing(was, now, h) && out is Ok implies now.whole(
                h + 1,
            ) by {
                lemma_fs_grows(
                    now.objects.payloads(),
                    now.objects.payloads(),
                    now.root.inode_index_root@,
                    now.max_fanout,
                    h,
                    h + 1,
                );
            }
        }
        out
    } else {
        put_links(tx, ino, inode, left)
    }
}

/// A directory inode and its entry tree, for a number.
pub(crate) fn find_dir<B: IoBackend>(tx: &Tx<'_, B>, ino: u64) -> (r: Result<(Inode, ChunkId), StoreError>)
    ensures
        r matches Ok(o) ==> inode_ok(o.0@) && o.0.data is Directory && o.1@ == data_root(o.0@.data),
        forall|h: nat| #[trigger]
            tx.reads(h) ==> match r {
                Ok(o) => {
                    &&& has_dir(tx.ns(), ino)
                    &&& inode_fits(tx.objects.payloads(), o.0@, tx.max_fanout, h)
                    &&& tx.ns()[ino] == item_of(tx.objects.payloads(), o.0@, tx.max_fanout)
                },
                Err(_) => strained(*tx, h) || !has_dir(tx.ns(), ino),
            },
{
    let inode = match Store::inode_for_tx(tx, ino) {
        Ok(v) => v,
        Err(e) => return Err(e),
    };
    match &inode.data {
        InodeData::Directory { dir_root } => {
            let root = *dir_root;
            Ok((inode, root))
        },
        _ => Err(StoreError::Invariant("not a directory".to_string())),
    }
}

/// Whether an inode is a directory with entries.
pub(crate) fn is_occupied<B: IoBackend>(tx: &Tx<'_, B>, inode: &Inode) -> (r: Result<bool, StoreError>)
    ensures
        forall|h: nat| #[trigger]
            inode_fits(tx.objects.payloads(), inode@, tx.max_fanout, h) && trusty(&tx.objects)
                && BTREE_ORDER <= tx.max_fanout ==> match r {
                Ok(b) => b == occupied(item_of(tx.objects.payloads(), inode@, tx.max_fanout)),
                Err(_) => strained(*tx, h),
            },
{
    match &inode.data {
        InodeData::Directory { dir_root } => {
            let out = dir_is_empty(tx, *dir_root);
            proof {
                assert forall|h: nat| #[trigger]
                    inode_fits(tx.objects.payloads(), inode@, tx.max_fanout, h) && trusty(
                        &tx.objects,
                    ) && BTREE_ORDER <= tx.max_fanout implies dir_editing(
                    *tx,
                    *tx,
                    dir_root@,
                    h,
                ) by {}
            }
            match out {
                Ok(b) => Ok(!b),
                Err(e) => Err(e),
            }
        },
        _ => Ok(false),
    }
}

/// What an unlink works with.
struct UnlinkPlan {
    parent: Inode,
    dir_root: ChunkId,
    child: u64,
    target: Inode,
}

/// The checks of an unlink.
fn plan_unlink<B: IoBackend>(tx: &Tx<'_, B>, parent: u64, name: &[u8], rmdir: bool) -> (r: Result<
    UnlinkPlan,
    StoreError,
>)
    requires
        valid_name(name@),
    ensures
        r matches Ok(o) ==> inode_ok(o.parent@) && inode_ok(o.target@) && o.parent.data is Directory
            && o.dir_root@ == data_root(o.parent@.data),
        forall|h: nat| #[trigger]
            editing(*tx, *tx, h) ==> match r {
                Ok(o) => {
                    let p = tx.objects.payloads();
                    &&& !unlink_refused(tx.ns(), parent, name@, rmdir)
                    &&& o.child == child_of(tx.ns(), parent, name@)
                    &&& inode_fits(p, o.parent@, tx.max_fanout, h)
                    &&& tx.ns()[parent] == item_of(p, o.parent@, tx.max_fanout)
                    &&& inode_fits(p, o.target@, tx.max_fanout, h)
                    &&& tx.ns()[o.child] == item_of(p, o.target@, tx.max_fanout)
                },
                Err(_) => strained(*tx, h) || unlink_refused(tx.ns(), parent, name@, rmdir),
            },
{
    proof {
        assert forall|h: nat| #[trigger] editing(*tx, *tx, h) implies tx.reads(h) by {}
    }
    let (inode, dir_root) = match find_dir(tx, parent) {
        Ok(v) => v,
        Err(e) => return Err(e),
    };
    let found = dir_find(tx, dir_root, name);
    proof {
        assert forall|h: nat| #[trigger] editing(*tx, *tx, h) implies dir_editing(
            *tx,
            *tx,
            dir_root@,
            h,
        ) by {
            assert(tx.reads(h));
        }
    }
    let entry = match found {
        Ok(Some(e)) => e,
        Ok(None) => return Err(StoreError::Invariant("no such entry".to_string())),
        Err(e) => return Err(e),
    };
    let target = match Store::inode_for_tx(tx, entry.ino) {
        Ok(v) => v,
        Err(e) => return Err(e),
    };
    if rmdir {
        if !target.is_dir() {
            return Err(StoreError::Invariant("not a directory".to_string()));
        }
        let full = is_occupied(tx, &target);
        proof {
            assert forall|h: nat| #[trigger] editing(*tx, *tx, h) implies inode_fits(
                tx.objects.payloads(),
                target@,
                tx.max_fanout,
                h,
            ) by {
                assert(tx.reads(h));
            }
        }
        match full {
            Ok(false) => {},
            Ok(true) => return Err(StoreError::Invariant("directory not empty".to_string())),
            Err(e) => return Err(e),
        }
    } else if target.is_dir() {
        return Err(StoreError::Invariant("is a directory".to_string()));
    }
    Ok(UnlinkPlan { parent: inode, dir_root, child: entry.ino, target })
}

impl<B: IoBackend> Store<B> {
    /// Remove the entry `name` from the directory `parent`: what
    /// [`Store::unlink`] does inside its transaction. Returns the inode number
    /// of the removed entry.
    #[verifier::rlimit(60)]
    #[verifier::spinoff_prover]
    pub fn unlink_in_tx(
        tx: &mut Tx<'_, B>,
        parent: u64,
        name: &[u8],
        rmdir: bool,
        now: Timespec,
    ) -> (r: Result<u64, StoreError>)
        requires
            time_ok(now),
        ensures
            edited(*old(tx), *final(tx)),
            !valid_name(name@) ==> r is Err && r->Err_0 is Config,
            forall|h: nat| #[trigger]
                editing(*old(tx), *final(tx), h) ==> match r {
                    Ok(ino) => {
                        &&& !unlink_refused(old(tx).ns(), parent, name@, rmdir)
                        &&& ino == child_of(old(tx).ns(), parent, name@)
                        &&& final(tx).whole(h + 2)
                        &&& final(tx).ns() == unlinked(old(tx).ns(), parent, name@, rmdir, now)
                    },
                    Err(_) => strained(*old(tx), h + 1) || (*final(tx) == *old(tx)
                        && unlink_refused(old(tx).ns(), parent, name@, rmdir)),
                },
    {
        if !Self::validate_name(name) {
            return Err(StoreError::Config("invalid entry name".to_string()));
        }
        let ghost was = *tx;
        let ghost f = tx.max_fanout;
        let ghost p0 = tx.objects.payloads();
        let plan = match plan_unlink(tx, parent, name, rmdir) {
            Ok(v) => v,
            Err(e) => return Err(e),
        };
        let ghost pv = plan.parent@;
        let ghost tv = plan.target@;
        let child: u64 = plan.child;
        let bound = dir_unbind(tx, plan.dir_root, name);
        let ghost t1 = *tx;
        let ghost p1 = tx.objects.payloads();
        proof {
            assert forall|h: nat| #[trigger] editing(was, t1, h) implies editing(was, was, h)
                && dir_editing(was, t1, plan.dir_root@, h) by {
                lemma_editing(was, was, t1, h);
            }
        }
        let root = match bound {
            Ok(id) => id,
            Err(e) => return Err(e),
        };
        let nlink: u32 = if plan.target.is_dir() {
            plan.parent.nlink.saturating_sub(1)
        } else {
            plan.parent.nlink
        };
        let put = put_dir(tx, parent, plan.parent, root, nlink, now);
        let ghost t2 = *tx;
        let ghost p2 = tx.objects.payloads();
        proof {
            assert forall|h: nat| #[trigger] editing(was, t2, h) implies match put {
                Ok(_) => {
                    &&& t2.whole(h + 1)
                    &&& t2.ns() == was.ns().insert(
                        parent,
                        relisted(was.ns()[parent], erase(was.ns()[parent].entries, name@), nlink, now),
                    )
                    &&& inode_fits(p2, tv, f, h + 1)
                    &&& item_of(p2, tv, f) == was.ns()[child]
                },
                Err(_) => strained(was, h + 1),
            } by {
                lemma_editing(was, t1, t2, h);
                assert(editing(was, was, h));
                lemma_added(was, t1, h, h);
                lemma_edit_on(was, t1, t2, h, h);
                lemma_fits_grows(p0, p1, pv, f, h, h);
                lemma_fits_grows(p0, p2, tv, f, h, h + 1);
            }
        }
        match put {
            Ok(_) => {},
            Err(e) => return Err(e),
        }
        let done = if rmdir {
            Self::remove_inode_in_tx(tx, child)
        } else {
            drop_link(tx, child, plan.target)
        };
        proof {
            let t3 = *tx;
            assert forall|h: nat| #[trigger] editing(was, t3, h) implies match done {
                Ok(_) => {
                    &&& !unlink_refused(was.ns(), parent, name@, rmdir)
                    &&& child == child_of(was.ns(), parent, name@)
                    &&& t3.whole(h + 2)
                    &&& t3.ns() == unlinked(was.ns(), parent, name@, rmdir, now)
                },
                Err(_) => strained(was, h + 1),
            } by {
                lemma_editing(was, was, t3, h);
                lemma_editing(was, t2, t3, h);
                lemma_edit_on(was, t2, t3, h, h + 1);
                if done is Ok && rmdir {
                    lemma_fs_grows(
                        t3.objects.payloads(),
                        t3.objects.payloads(),
                        t3.root.inode_index_root@,
                        f,
                        h + 1,
                        h + 2,
                    );
                }
            }
        }
        match done {
            Ok(_) => Ok(child),
            Err(e) => Err(e),
        }
    }
}

// ---------------------------------------------------------------------------
// Directory reads and single-entry edits
// ---------------------------------------------------------------------------

impl<B: IoBackend> Store<B> {
    /// The entry under `name` of the directory `dir_ino`.
    pub fn dir_lookup_in_tx(tx: &Tx<'_, B>, dir_ino: u64, name: &[u8]) -> (r: Result<
        Option<DirEntry>,
        StoreError,
    >)
        ensures
            forall|h: nat| #[trigger]
                tx.reads(h) && BTREE_ORDER <= tx.max_fanout ==> match r {
                    Ok(e) => has_dir(tx.ns(), dir_ino) && e == entry_at(
                        tx.ns()[dir_ino].entries,
                        name@,
                    ),
                    Err(_) => strained(*tx, h) || !has_dir(tx.ns(), dir_ino),
                },
    {
        let (_, dir_root) = match find_dir(tx, dir_ino) {
            Ok(v) => v,
            Err(e) => return Err(e),
        };
        let out = dir_find(tx, dir_root, name);
        proof {
            assert forall|h: nat| #[trigger] tx.reads(h) && BTREE_ORDER
                <= tx.max_fanout implies dir_editing(*tx, *tx, dir_root@, h) by {}
        }
        out
    }
}

} // verus!
