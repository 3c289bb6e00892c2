//! Recovery: applying the mutations of the log to a transaction.
//!
//! A log record names staged inode objects. An [`Event`] is the record with
//! those objects read; [`applied`] says what it does to a namespace. A staged
//! inode gives a number its metadata. Its trees stay what they were: the ids
//! that the object holds were taken before earlier records were applied.

use vstd::prelude::*;

use crate::bytes::{bytes_equal, copy_bytes, lex_lt, u64_be};
use crate::chunk::{zero_id, ChunkId};
use crate::codec::{scan_u64, CodecError};
use crate::descriptor::{decode_with, decoded, mask_of, self_alias, steady, Descriptor};
use crate::directory::{entry_bytes, DirEntry};
use crate::error::StoreError;
use crate::extent_tree::extent_key_of;
use crate::extents::{apply_update, chunk_put, data_edited, data_editing, extent_put, has_file,
    lemma_chunks_kept, ExtentUpdate};
use crate::fs::{data_root, entries_ok, entry_at, inode_fits, item_of, ino_key, lemma_fits_grows,
    lemma_fs_grows, lemma_has_key, lemma_ino_key, lemma_object, lemma_object_grows,
    lemma_tree_grows, listing, rootless, rootless_data, stored_inode, tree_ok, Item, Listing,
    Namespace};
use crate::index::ObjectProvider;
use crate::index_edit::lemma_clash_free_subset;
use crate::inode::{inode_ok, DataView, Inode, InodeData, InodeView, Timespec};
use crate::io::IoBackend;
use crate::log::{chunk_views, decode_envelope, envelope_seq, op_ok, parse_envelope, parsed_op_ok,
    MutationOp, OpView};
use crate::map::SortedMap;
use crate::namespace::{dir_bind, dir_editing, dir_find, dir_unbind, drop_link, edited, editing,
    find_dir, has_dir, lemma_added, lemma_edit_on, lemma_editing, link_dropped, objects_added,
    read_inode, readable, strained, time_ok};
use crate::sorted::{erase, lemma_lookup_upsert, lemma_rank, lookup, rank, upsert};
use crate::store::Store;
use crate::transaction::Tx;
use crate::tree::clash_free;

verus! {

// ---------------------------------------------------------------------------
// Events
// ---------------------------------------------------------------------------

/// A log record with its staged inodes read.
#[verifier::ext_equal]
pub enum Event {
    Create {
        parent: u64,
        name: Seq<u8>,
        ino: u64,
        d_type: u8,
        inode: InodeView,
        parent_inode: InodeView,
    },
    Setattr { ino: u64, inode: InodeView },
    Unlink {
        parent: u64,
        name: Seq<u8>,
        child: u64,
        parent_inode: InodeView,
        child_inode: Option<InodeView>,
    },
    Rename {
        src_parent: u64,
        src_name: Seq<u8>,
        dst_parent: u64,
        dst_name: Seq<u8>,
        src_ino: u64,
        dst_ino: Option<u64>,
        src_is_dir: bool,
        src_parent_inode: InodeView,
        dst_parent_inode: InodeView,
        src_inode: Option<InodeView>,
    },
    Write { ino: u64, chunks: Seq<(u64, Seq<u8>, Seq<u8>)>, inode: InodeView },
}

/// The staged inode of an optional id, where there is one.
pub open spec fn staged_opt(p: Set<Seq<u8>>, id: Option<Seq<u8>>) -> Option<InodeView> {
    match id {
        Some(b) => stored_inode(p, b),
        None => None,
    }
}

pub open spec fn opt_found(p: Set<Seq<u8>>, id: Option<Seq<u8>>) -> bool {
    id matches Some(b) ==> stored_inode(p, b) is Some
}

/// The staged inodes of a record can all be read.
pub open spec fn resolves(p: Set<Seq<u8>>, op: OpView) -> bool {
    match op {
        OpView::Create { inode_id, parent_inode_id, .. } => stored_inode(p, inode_id) is Some
            && stored_inode(p, parent_inode_id) is Some,
        OpView::Setattr { inode_id, .. } => stored_inode(p, inode_id) is Some,
        OpView::Unlink { parent_inode_id, child_inode_id, .. } => stored_inode(
            p,
            parent_inode_id,
        ) is Some && opt_found(p, child_inode_id),
        OpView::Rename { sp_inode_id, dp_inode_id, src_child_inode_id, .. } => stored_inode(
            p,
            sp_inode_id,
        ) is Some && stored_inode(p, dp_inode_id) is Some && opt_found(p, src_child_inode_id),
        OpView::Write { inode_id, .. } => stored_inode(p, inode_id) is Some,
    }
}

/// The record with its staged inodes.
pub open spec fn resolved(p: Set<Seq<u8>>, op: OpView) -> Event {
    match op {
        OpView::Create { parent, name, ino, d_type, inode_id, parent_inode_id } => Event::Create {
            parent,
            name,
            ino,
            d_type,
            inode: stored_inode(p, inode_id)->0,
            parent_inode: stored_inode(p, parent_inode_id)->0,
        },
        OpView::Setattr { ino, inode_id } => Event::Setattr {
            ino,
            inode: stored_inode(p, inode_id)->0,
        },
        OpView::Unlink { parent, name, child, is_dir, parent_inode_id, child_inode_id } => {
            Event::Unlink {
                parent,
                name,
                child,
                parent_inode: stored_inode(p, parent_inode_id)->0,
                child_inode: staged_opt(p, child_inode_id),
            }
        },
        OpView::Rename {
            src_parent,
            src_name,
            dst_parent,
            dst_name,
            src_ino,
            dst_ino,
            src_is_dir,
            sp_inode_id,
            dp_inode_id,
            src_child_inode_id,
            dst_child_inode_id,
        } => Event::Rename {
            src_parent,
            src_name,
            dst_parent,
            dst_name,
            src_ino,
            dst_ino,
            src_is_dir,
            src_parent_inode: stored_inode(p, sp_inode_id)->0,
            dst_parent_inode: stored_inode(p, dp_inode_id)->0,
            src_inode: staged_opt(p, src_child_inode_id),
        },
        OpView::Write { ino, size, chunks, inode_id } => Event::Write {
            ino,
            chunks,
            inode: stored_inode(p, inode_id)->0,
        },
    }
}

// ---------------------------------------------------------------------------
// What an event does
// ---------------------------------------------------------------------------

/// The data is of one kind.
pub open spec fn same_kind(a: DataView, b: DataView) -> bool {
    (a is Directory == b is Directory) && (a is File == b is File)
}

/// An inode without trees.
pub open spec fn bare(v: InodeView) -> bool {
    data_root(v.data) == zero_id() && v.xattr_root == zero_id()
}

/// A staged inode can stand for the number: it is of the kind that the number
/// has, or new and without trees.
pub open spec fn adopts(n: Namespace, ino: u64, v: InodeView) -> bool {
    if n.contains_key(ino) {
        same_kind(n[ino].inode.data, v.data)
    } else {
        bare(v)
    }
}

/// The number with the metadata of `v` and the trees it had.
pub open spec fn item_under(n: Namespace, ino: u64, v: InodeView) -> Item {
    Item {
        inode: rootless(v),
        entries: if n.contains_key(ino) {
            n[ino].entries
        } else {
            Seq::empty()
        },
        xattrs: if n.contains_key(ino) {
            n[ino].xattrs
        } else {
            Seq::empty()
        },
    }
}

pub open spec fn meta_put(n: Namespace, ino: u64, v: InodeView) -> Namespace {
    n.insert(ino, item_under(n, ino, v))
}

/// Entries with one bound, then one unbound.
pub open spec fn entries_edited(
    s: Listing,
    bind: Option<(Seq<u8>, DirEntry)>,
    unbind: Option<Seq<u8>>,
) -> Listing {
    let bound = match bind {
        Some(b) => upsert(s, b.0, entry_bytes(b.1)),
        None => s,
    };
    match unbind {
        Some(name) => erase(bound, name),
        None => bound,
    }
}

/// The directory with the metadata of `v` and its entries edited.
pub open spec fn dir_edited(
    n: Namespace,
    ino: u64,
    v: InodeView,
    bind: Option<(Seq<u8>, DirEntry)>,
    unbind: Option<Seq<u8>>,
) -> Namespace {
    n.insert(
        ino,
        Item {
            inode: rootless(v),
            entries: entries_edited(n[ino].entries, bind, unbind),
            xattrs: n[ino].xattrs,
        },
    )
}

/// The entry that a rename moves.
pub open spec fn moving(n: Namespace, parent: u64, name: Seq<u8>) -> DirEntry {
    entry_at(n[parent].entries, name)->0
}

/// The namespace with an entry moved.
pub open spec fn entry_moved(
    n: Namespace,
    sp: u64,
    sn: Seq<u8>,
    spv: InodeView,
    dp: u64,
    dn: Seq<u8>,
    dpv: InodeView,
) -> Namespace {
    let e = moving(n, sp, sn);
    if sp == dp {
        dir_edited(
            n,
            sp,
            spv,
            Some((dn, e)),
            if sn == dn {
                None
            } else {
                Some(sn)
            },
        )
    } else {
        dir_edited(dir_edited(n, dp, dpv, Some((dn, e)), None), sp, spv, None, Some(sn))
    }
}

/// The number with a staged inode, or without one.
pub open spec fn child_put(n: Namespace, ino: u64, v: Option<InodeView>) -> Namespace {
    match v {
        Some(v) => meta_put(n, ino, v),
        None => n.remove(ino),
    }
}

/// The namespace without the inode that a rename replaced.
pub open spec fn replaced_dropped(
    n: Namespace,
    src_ino: u64,
    dst_ino: Option<u64>,
    src_is_dir: bool,
) -> Namespace {
    match dst_ino {
        Some(d) => if d == src_ino {
            n
        } else if src_is_dir {
            n.remove(d)
        } else {
            link_dropped(n, d, n[d])
        },
        None => n,
    }
}

/// The extents of a file with those of a write.
pub open spec fn extents_with(s: Listing, chunks: Seq<(u64, Seq<u8>, Seq<u8>)>) -> Listing
    decreases chunks.len(),
{
    if chunks.len() == 0 {
        s
    } else {
        upsert(
            extents_with(s, chunks.drop_last()),
            extent_key_of(chunks.last().0),
            chunks.last().2,
        )
    }
}

/// The file after a write: its extents, its size, its change time.
pub open spec fn written(it: Item, chunks: Seq<(u64, Seq<u8>, Seq<u8>)>, v: InodeView) -> Item {
    Item {
        inode: InodeView { size: v.size, ctime: v.ctime, ..it.inode },
        entries: extents_with(it.entries, chunks),
        xattrs: it.xattrs,
    }
}

/// The namespace after an event.
pub open spec fn applied(n: Namespace, e: Event) -> Namespace {
    match e {
        Event::Create { parent, name, ino, d_type, inode, parent_inode } => dir_edited(
            meta_put(n, ino, inode),
            parent,
            parent_inode,
            Some((name, DirEntry { ino, d_type })),
            None,
        ),
        Event::Setattr { ino, inode } => meta_put(n, ino, inode),
        Event::Unlink { parent, name, child, parent_inode, child_inode } => child_put(
            dir_edited(n, parent, parent_inode, None, Some(name)),
            child,
            child_inode,
        ),
        Event::Rename {
            src_parent,
            src_name,
            dst_parent,
            dst_name,
            src_ino,
            dst_ino,
            src_is_dir,
            src_parent_inode,
            dst_parent_inode,
            src_inode,
        } => replaced_dropped(
            child_put(
                entry_moved(
                    n,
                    src_parent,
                    src_name,
                    src_parent_inode,
                    dst_parent,
                    dst_name,
                    dst_parent_inode,
                ),
                src_ino,
                src_inode,
            ),
            src_ino,
            dst_ino,
            src_is_dir,
        ),
        Event::Write { ino, chunks, inode } => n.insert(ino, written(n[ino], chunks, inode)),
    }
}

/// The number is a directory, and the staged inode is one.
pub open spec fn dir_adopts(n: Namespace, ino: u64, v: InodeView) -> bool {
    has_dir(n, ino) && v.data is Directory
}

pub open spec fn child_adopts(n: Namespace, ino: u64, v: Option<InodeView>) -> bool {
    v matches Some(v) ==> adopts(n, ino, v)
}

/// The event can be applied: what it edits is there and of the right kind.
pub open spec fn applicable(n: Namespace, e: Event) -> bool {
    match e {
        Event::Create { parent, name, ino, d_type, inode, parent_inode } => adopts(n, ino, inode)
            && dir_adopts(meta_put(n, ino, inode), parent, parent_inode),
        Event::Setattr { ino, inode } => adopts(n, ino, inode),
        Event::Unlink { parent, name, child, parent_inode, child_inode } => dir_adopts(
            n,
            parent,
            parent_inode,
        ) && child_adopts(
            dir_edited(n, parent, parent_inode, None, Some(name)),
            child,
            child_inode,
        ),
        Event::Rename {
            src_parent,
            src_name,
            dst_parent,
            dst_name,
            src_ino,
            dst_ino,
            src_is_dir,
            src_parent_inode,
            dst_parent_inode,
            src_inode,
        } => {
            let moved = entry_moved(
                n,
                src_parent,
                src_name,
                src_parent_inode,
                dst_parent,
                dst_name,
                dst_parent_inode,
            );
            &&& dir_adopts(n, src_parent, src_parent_inode)
            &&& src_parent == dst_parent || dir_adopts(n, dst_parent, dst_parent_inode)
            &&& entry_at(n[src_parent].entries, src_name) is Some
            &&& child_adopts(moved, src_ino, src_inode)
            &&& dst_ino matches Some(d) ==> d == src_ino || src_is_dir || child_put(
                moved,
                src_ino,
                src_inode,
            ).contains_key(d)
        },
        Event::Write { ino, chunks, inode } => has_file(n, ino),
    }
}

// ---------------------------------------------------------------------------
// Steps
// ---------------------------------------------------------------------------

/// Read a staged inode.
pub(crate) fn fetch_meta<B: IoBackend>(tx: &Tx<'_, B>, id: &ChunkId) -> (r: Result<
    Inode,
    StoreError,
>)
    ensures
        r matches Ok(v) ==> inode_ok(v@),
        tx.objects.faithful() && clash_free(tx.objects.payloads()) ==> match r {
            Ok(v) => stored_inode(tx.objects.payloads(), id@) == Some(v@),
            Err(_) => tx.objects.may_fail() || stored_inode(tx.objects.payloads(), id@) is None,
        },
{
    let ghost p = tx.objects.payloads();
    let bytes = match tx.fetch_pending_or_store(id) {
        Ok(Some(b)) => b,
        Ok(None) => {
            return Err(StoreError::Invariant("replay: staged inode object missing".to_string()));
        },
        Err(e) => return Err(e),
    };
    proof {
        if tx.objects.faithful() && clash_free(p) {
            lemma_object(p, bytes@);
        }
    }
    match Inode::decode(&bytes) {
        Ok(v) => Ok(v),
        Err(e) => Err(StoreError::descriptor(e)),
    }
}

/// Give `meta` the trees of `cur`; `false` where they are of different kinds.
fn take_trees(meta: &mut Inode, cur: &Inode) -> (r: bool)
    ensures
        r == same_kind(old(meta)@.data, cur@.data),
        r ==> {
            &&& final(meta)@ == (InodeView {
                xattr_root: cur@.xattr_root,
                data: final(meta)@.data,
                ..old(meta)@
            })
            &&& rootless_data(final(meta)@.data) == rootless_data(old(meta)@.data)
            &&& data_root(final(meta)@.data) == data_root(cur@.data)
        },
{
    match &cur.data {
        InodeData::Directory { dir_root } => match &meta.data {
            InodeData::Directory { .. } => {
                meta.data = InodeData::Directory { dir_root: *dir_root };
            },
            _ => return false,
        },
        InodeData::File { extent_root } => match &meta.data {
            InodeData::File { .. } => {
                meta.data = InodeData::File { extent_root: *extent_root };
            },
            _ => return false,
        },
        _ => match &meta.data {
            InodeData::Directory { .. } => return false,
            InodeData::File { .. } => return false,
            _ => {},
        },
    }
    meta.xattr_root = cur.xattr_root;
    true
}

proof fn lemma_adopted(p: Set<Seq<u8>>, f: u32, h: nat, meta: InodeView, cur: InodeView, v: InodeView)
    requires
        inode_ok(meta),
        inode_fits(p, cur, f, h),
        same_kind(meta.data, cur.data),
        v == (InodeView { xattr_root: cur.xattr_root, data: v.data, ..meta }),
        rootless_data(v.data) == rootless_data(meta.data),
        data_root(v.data) == data_root(cur.data),
    ensures
        inode_fits(p, v, f, h),
        item_of(p, v, f) == (Item {
            inode: rootless(meta),
            entries: item_of(p, cur, f).entries,
            xattrs: item_of(p, cur, f).xattrs,
        }),
{
    assert(rootless(v) =~= rootless(meta));
}

/// Write a staged inode: its metadata over the trees that the number has.
#[verifier::rlimit(40)]
pub(crate) fn put_meta<B: IoBackend>(tx: &mut Tx<'_, B>, ino: u64, meta: Inode) -> (r: Result<
    (),
    StoreError,
>)
    requires
        inode_ok(meta@),
    ensures
        edited(*old(tx), *final(tx)),
        forall|h: nat| #[trigger]
            editing(*old(tx), *final(tx), h) && adopts(old(tx).ns(), ino, meta@) ==> match r {
                Ok(_) => {
                    &&& final(tx).whole(h + 1)
                    &&& final(tx).ns() == meta_put(old(tx).ns(), ino, meta@)
                },
                Err(_) => strained(*old(tx), h),
            },
{
    let ghost was = *tx;
    let ghost p = tx.objects.payloads();
    let ghost f = tx.max_fanout;
    let ghost v0 = meta@;
    let found = match read_inode(tx.root.inode_index_root, ino, tx.max_fanout, &tx.objects) {
        Ok(v) => v,
        Err(e) => {
            proof {
                assert forall|h: nat| #[trigger] editing(was, was, h) implies strained(was, h) by {
                    assert(readable(&was.objects, was.root.inode_index_root@, f, h));
                }
            }
            return Err(e);
        },
    };
    let mut meta = meta;
    match &found {
        Some(cur) => {
            if !take_trees(&mut meta, cur) {
                proof {
                    assert forall|h: nat| #[trigger] editing(was, was, h) implies !adopts(
                        was.ns(),
                        ino,
                        v0,
                    ) by {
                        assert(readable(&was.objects, was.root.inode_index_root@, f, h));
                        crate::fs::lemma_ns_at(p, was.root.inode_index_root@, f, h, ino);
                    }
                }
                return Err(StoreError::Invariant("replay: staged inode of another kind".to_string()));
            }
        },
        None => {},
    }
    let ghost v1 = meta@;
    let done = Store::put_inode_in_tx(tx, ino, &meta);
    proof {
        let now = *tx;
        assert forall|h: nat| #[trigger] editing(was, now, h) && adopts(
            was.ns(),
            ino,
            v0,
        ) implies inode_fits(p, v1, f, h) && item_of(p, v1, f) == item_under(
            was.ns(),
            ino,
            v0,
        ) by {
            lemma_editing(was, was, now, h);
            assert(readable(&was.objects, was.root.inode_index_root@, f, h));
            crate::fs::lemma_ns_at(p, was.root.inode_index_root@, f, h, ino);
            match found {
                Some(cur) => lemma_adopted(p, f, h, v0, cur@, v1),
                None => {
                    assert(tree_ok(p, zero_id(), f, h));
                    assert(item_of(p, v1, f) =~= item_under(was.ns(), ino, v0));
                },
            }
        }
    }
    done
}

/// Bind a name, then unbind one, in a directory tree.
#[verifier::rlimit(40)]
fn edit_tree<B: IoBackend>(
    tx: &mut Tx<'_, B>,
    dir_root: ChunkId,
    bind: Option<(&[u8], DirEntry)>,
    unbind: Option<&[u8]>,
) -> (r: Result<ChunkId, StoreError>)
    requires
        bind matches Some(b) ==> b.0@.len() <= u16::MAX,
    ensures
        objects_added(*old(tx), *final(tx)),
        forall|h: nat| #[trigger]
            dir_editing(*old(tx), *final(tx), dir_root@, h) ==> match r {
                Ok(id) => {
                    let p = final(tx).objects.payloads();
                    let f = final(tx).max_fanout;
                    &&& tree_ok(p, id@, f, h + 1)
                    &&& listing(p, id@, f) == entries_edited(
                        listing(old(tx).objects.payloads(), dir_root@, f),
                        binding(bind),
                        unbinding(unbind),
                    )
                    &&& entries_ok(listing(p, id@, f))
                },
                Err(_) => strained(*old(tx), h + 1),
            },
{
    let ghost was = *tx;
    let ghost f = tx.max_fanout;
    let mid = match bind {
        Some((name, entry)) => match dir_bind(tx, dir_root, name, entry) {
            Ok(id) => id,
            Err(e) => return Err(e),
        },
        None => dir_root,
    };
    let ghost t1 = *tx;
    let out = match unbind {
        Some(name) => dir_unbind(tx, mid, name),
        None => Ok(mid),
    };
    proof {
        let t2 = *tx;
        assert forall|h: nat| #[trigger] dir_editing(was, t2, dir_root@, h) implies dir_editing(
            was,
            t1,
            dir_root@,
            h,
        ) && dir_editing(t1, t2, mid@, h + 1) && (out matches Ok(id) ==> tree_ok(
            t2.objects.payloads(),
            id@,
            f,
            h + 1,
        )) by {
            lemma_clash_free_subset(t1.objects.payloads(), t2.objects.payloads());
            assert(dir_editing(was, t1, dir_root@, h));
            if bind is None {
                lemma_tree_grows(
                    was.objects.payloads(),
                    t1.objects.payloads(),
                    dir_root@,
                    f,
                    h,
                    h + 1,
                );
            }
            assert(dir_editing(t1, t2, mid@, h + 1));
        }
    }
    out
}

pub open spec fn binding(b: Option<(&[u8], DirEntry)>) -> Option<(Seq<u8>, DirEntry)> {
    match b {
        Some((name, e)) => Some((name@, e)),
        None => None,
    }
}

pub open spec fn unbinding(b: Option<&[u8]>) -> Option<Seq<u8>> {
    match b {
        Some(name) => Some(name@),
        None => None,
    }
}

/// Edit the entries of a directory, and give it the metadata of a staged inode.
#[verifier::rlimit(60)]
#[verifier::spinoff_prover]
pub(crate) fn edit_dir<B: IoBackend>(
    tx: &mut Tx<'_, B>,
    ino: u64,
    meta: Inode,
    bind: Option<(&[u8], DirEntry)>,
    unbind: Option<&[u8]>,
) -> (r: Result<(), StoreError>)
    requires
        inode_ok(meta@),
        bind matches Some(b) ==> b.0@.len() <= u16::MAX,
    ensures
        edited(*old(tx), *final(tx)),
        forall|h: nat| #[trigger]
            editing(*old(tx), *final(tx), h) ==> match r {
                Ok(_) => {
                    &&& dir_adopts(old(tx).ns(), ino, meta@)
                    &&& final(tx).whole(h + 2)
                    &&& final(tx).ns() == dir_edited(
                        old(tx).ns(),
                        ino,
                        meta@,
                        binding(bind),
                        unbinding(unbind),
                    )
                },
                Err(_) => strained(*old(tx), h + 2) || !dir_adopts(old(tx).ns(), ino, meta@),
            },
{
    let ghost was = *tx;
    let ghost p0 = tx.objects.payloads();
    let ghost f = tx.max_fanout;
    let ghost v0 = meta@;
    match &meta.data {
        InodeData::Directory { .. } => {},
        _ => return Err(StoreError::Invariant("replay: staged parent not a directory".to_string())),
    }
    proof {
        assert forall|h: nat| #[trigger] editing(was, was, h) implies was.reads(h) by {}
    }
    let (cur, dir_root) = match find_dir(tx, ino) {
        Ok(v) => v,
        Err(e) => return Err(e),
    };
    let ghost c0 = cur@;
    let edit = edit_tree(tx, dir_root, bind, unbind);
    let ghost t1 = *tx;
    let ghost p1 = tx.objects.payloads();
    proof {
        assert forall|h: nat| #[trigger] editing(was, t1, h) implies {
            &&& dir_editing(was, t1, dir_root@, h)
            &&& has_dir(was.ns(), ino)
            &&& inode_fits(p0, c0, f, h)
            &&& was.ns()[ino] == item_of(p0, c0, f)
        } by {
            lemma_editing(was, was, t1, h);
            assert(was.reads(h));
        }
    }
    let new_root = match edit {
        Ok(id) => id,
        Err(e) => return Err(e),
    };
    let mut pin = meta;
    pin.data = InodeData::Directory { dir_root: new_root };
    pin.xattr_root = cur.xattr_root;
    let ghost v1 = pin@;
    let done = Store::put_inode_in_tx(tx, ino, &pin);
    proof {
        let t2 = *tx;
        assert forall|h: nat| #[trigger] editing(was, t2, h) implies {
            &&& editing(was, t1, h)
            &&& editing(t1, t2, h + 1)
            &&& t1.ns() == was.ns()
            &&& inode_fits(p1, v1, f, h + 1)
            &&& was.ns().insert(ino, item_of(p1, v1, f)) == dir_edited(
                was.ns(),
                ino,
                v0,
                binding(bind),
                unbinding(unbind),
            )
        } by {
            lemma_editing(was, t1, t2, h);
            assert(dir_editing(was, t1, dir_root@, h));
            lemma_added(was, t1, h, h + 1);
            lemma_edit_on(was, t1, t2, h, h + 1);
            lemma_fits_grows(p0, p1, c0, f, h, h + 1);
            assert(rootless(v1) =~= rootless(v0));
            assert(item_of(p1, v1, f) =~= Item {
                inode: rootless(v0),
                entries: entries_edited(
                    was.ns()[ino].entries,
                    binding(bind),
                    unbinding(unbind),
                ),
                xattrs: was.ns()[ino].xattrs,
            });
        }
    }
    done
}

// ---------------------------------------------------------------------------
// Replaying a record
// ---------------------------------------------------------------------------

/// The outcome that a record calls for, from `was` to `now`.
pub open spec fn replays<B: IoBackend>(
    was: Tx<B>,
    now: Tx<B>,
    h: nat,
    k: nat,
    op: OpView,
    done: bool,
) -> bool {
    let p = was.objects.payloads();
    let e = resolved(p, op);
    if done {
        &&& resolves(p, op)
        &&& applicable(was.ns(), e) ==> now.whole(k) && now.ns() == applied(was.ns(), e)
    } else {
        strained(was, k) || !resolves(p, op) || !applicable(was.ns(), e)
    }
}

#[verifier::rlimit(40)]
fn replay_create<B: IoBackend>(
    tx: &mut Tx<'_, B>,
    op: &MutationOp,
    parent: u64,
    name: &[u8],
    ino: u64,
    d_type: u8,
    inode_id: &ChunkId,
    parent_inode_id: &ChunkId,
) -> (r: Result<(), StoreError>)
    requires
        name@.len() <= u16::MAX,
        op@ == (OpView::Create {
            parent,
            name: name@,
            ino,
            d_type,
            inode_id: inode_id@,
            parent_inode_id: parent_inode_id@,
        }),
    ensures
        edited(*old(tx), *final(tx)),
        forall|h: nat| #[trigger]
            editing(*old(tx), *final(tx), h) ==> replays(
                *old(tx),
                *final(tx),
                h,
                h + 3,
                op@,
                r is Ok,
            ),
{
    let ghost was = *tx;
    let ghost p = tx.objects.payloads();
    proof {
        assert forall|h: nat| #[trigger] editing(was, was, h) implies was.objects.faithful()
            && clash_free(p) by {}
    }
    let inode = match fetch_meta(tx, inode_id) {
        Ok(v) => v,
        Err(e) => return Err(e),
    };
    let pmeta = match fetch_meta(tx, parent_inode_id) {
        Ok(v) => v,
        Err(e) => return Err(e),
    };
    let ghost v = inode@;
    let ghost pv = pmeta@;
    let put = put_meta(tx, ino, inode);
    let ghost t1 = *tx;
    proof {
        assert forall|h: nat| #[trigger] editing(was, t1, h) implies editing(was, was, h) by {
            lemma_editing(was, was, t1, h);
        }
    }
    match put {
        Ok(_) => {},
        Err(e) => return Err(e),
    }
    let entry = DirEntry { ino, d_type };
    let done = edit_dir(tx, parent, pmeta, Some((name, entry)), None);
    proof {
        let t2 = *tx;
        assert forall|h: nat| #[trigger] editing(was, t2, h) implies {
            &&& editing(was, was, h)
            &&& editing(was, t1, h)
            &&& adopts(was.ns(), ino, v) ==> editing(t1, t2, h + 1)
        } by {
            lemma_editing(was, was, t2, h);
            lemma_editing(was, t1, t2, h);
            if adopts(was.ns(), ino, v) {
                lemma_edit_on(was, t1, t2, h, h + 1);
            }
        }
    }
    done
}

/// Give a number a staged inode, or take the number away.
#[verifier::rlimit(40)]
fn put_child<B: IoBackend>(tx: &mut Tx<'_, B>, ino: u64, meta: Option<Inode>) -> (r: Result<
    (),
    StoreError,
>)
    requires
        meta matches Some(v) ==> inode_ok(v@),
    ensures
        edited(*old(tx), *final(tx)),
        forall|h: nat| #[trigger]
            editing(*old(tx), *final(tx), h) && child_adopts(
                old(tx).ns(),
                ino,
                crate::namespace::opt_inode(meta),
            ) ==> match r {
                Ok(_) => {
                    &&& final(tx).whole(h + 1)
                    &&& final(tx).ns() == child_put(
                        old(tx).ns(),
                        ino,
                        crate::namespace::opt_inode(meta),
                    )
                },
                Err(_) => strained(*old(tx), h),
            },
{
    let ghost was = *tx;
    match meta {
        Some(v) => put_meta(tx, ino, v),
        None => {
            let out = Store::remove_inode_in_tx(tx, ino);
            proof {
                let now = *tx;
                assert forall|h: nat| #[trigger] editing(was, now, h) && out is Ok implies now.whole(
                    h + 1,
                ) by {
                    lemma_fs_grows(
                        now.objects.payloads(),
                        now.objects.payloads(),
                        now.root.inode_index_root@,
                        now.max_fanout,
                        h,
                        h + 1,
                    );
                }
            }
            out
        },
    }
}

/// Read an optional staged inode.
fn fetch_opt<B: IoBackend>(tx: &Tx<'_, B>, id: &Option<ChunkId>) -> (r: Result<
    Option<Inode>,
    StoreError,
>)
    ensures
        r matches Ok(Some(v)) ==> inode_ok(v@),
        tx.objects.faithful() && clash_free(tx.objects.payloads()) ==> match r {
            Ok(v) => opt_found(tx.objects.payloads(), crate::log::opt_id(*id))
                && crate::namespace::opt_inode(v) == staged_opt(
                tx.objects.payloads(),
                crate::log::opt_id(*id),
            ),
            Err(_) => tx.objects.may_fail() || !opt_found(
                tx.objects.payloads(),
                crate::log::opt_id(*id),
            ),
        },
{
    match id {
        Some(b) => match fetch_meta(tx, b) {
            Ok(v) => Ok(Some(v)),
            Err(e) => Err(e),
        },
        None => Ok(None),
    }
}

#[verifier::rlimit(40)]
fn replay_unlink<B: IoBackend>(
    tx: &mut Tx<'_, B>,
    op: &MutationOp,
    parent: u64,
    name: &[u8],
    child: u64,
    is_dir: bool,
    parent_inode_id: &ChunkId,
    child_inode_id: &Option<ChunkId>,
) -> (r: Result<(), StoreError>)
    requires
        op@ == (OpView::Unlink {
            parent,
            name: name@,
            child,
            is_dir,
            parent_inode_id: parent_inode_id@,
            child_inode_id: crate::log::opt_id(*child_inode_id),
        }),
    ensures
        edited(*old(tx), *final(tx)),
        forall|h: nat| #[trigger]
            editing(*old(tx), *final(tx), h) ==> replays(
                *old(tx),
                *final(tx),
                h,
                h + 3,
                op@,
                r is Ok,
            ),
{
    let ghost was = *tx;
    let ghost p = tx.objects.payloads();
    proof {
        assert forall|h: nat| #[trigger] editing(was, was, h) implies was.objects.faithful()
            && clash_free(p) by {}
    }
    let pmeta = match fetch_meta(tx, parent_inode_id) {
        Ok(v) => v,
        Err(e) => return Err(e),
    };
    let cmeta = match fetch_opt(tx, child_inode_id) {
        Ok(v) => v,
        Err(e) => return Err(e),
    };
    let ghost pv = pmeta@;
    let ghost cv = crate::namespace::opt_inode(cmeta);
    let cut = edit_dir(tx, parent, pmeta, None, Some(name));
    let ghost t1 = *tx;
    proof {
        assert forall|h: nat| #[trigger] editing(was, t1, h) implies editing(was, was, h) by {
            lemma_editing(was, was, t1, h);
        }
    }
    match cut {
        Ok(_) => {},
        Err(e) => return Err(e),
    }
    let done = put_child(tx, child, cmeta);
    proof {
        let t2 = *tx;
        assert forall|h: nat| #[trigger] editing(was, t2, h) implies {
            &&& editing(was, was, h)
            &&& editing(was, t1, h)
            &&& editing(t1, t2, h + 2)
        } by {
            lemma_editing(was, was, t2, h);
            lemma_editing(was, t1, t2, h);
            lemma_edit_on(was, t1, t2, h, h + 2);
        }
    }
    done
}

/// Move an entry, and give both directories the metadata of staged inodes.
#[verifier::rlimit(60)]
#[verifier::spinoff_prover]
fn move_entry<B: IoBackend>(
    tx: &mut Tx<'_, B>,
    sp: u64,
    sn: &[u8],
    spmeta: Inode,
    dp: u64,
    dn: &[u8],
    dpmeta: Inode,
) -> (r: Result<(), StoreError>)
    requires
        inode_ok(spmeta@),
        inode_ok(dpmeta@),
        dn@.len() <= u16::MAX,
    ensures
        edited(*old(tx), *final(tx)),
        forall|h: nat| #[trigger]
            editing(*old(tx), *final(tx), h) ==> match r {
                Ok(_) => {
                    &&& dir_adopts(old(tx).ns(), sp, spmeta@)
                    &&& sp == dp || dir_adopts(old(tx).ns(), dp, dpmeta@)
                    &&& entry_at(old(tx).ns()[sp].entries, sn@) is Some
                    &&& final(tx).whole(h + 4)
                    &&& final(tx).ns() == entry_moved(
                        old(tx).ns(),
                        sp,
                        sn@,
                        spmeta@,
                        dp,
                        dn@,
                        dpmeta@,
                    )
                },
                Err(_) => {
                    ||| strained(*old(tx), h + 4)
                    ||| !dir_adopts(old(tx).ns(), sp, spmeta@)
                    ||| sp != dp && !dir_adopts(old(tx).ns(), dp, dpmeta@)
                    ||| entry_at(old(tx).ns()[sp].entries, sn@) is None
                },
            },
{
    let ghost was = *tx;
    let ghost f = tx.max_fanout;
    proof {
        assert forall|h: nat| #[trigger] editing(was, was, h) implies was.reads(h) by {}
    }
    let (_, src_root) = match find_dir(tx, sp) {
        Ok(v) => v,
        Err(e) => return Err(e),
    };
    proof {
        assert forall|h: nat| #[trigger] editing(was, was, h) implies dir_editing(
            was,
            was,
            src_root@,
            h,
        ) by {
            assert(was.reads(h));
        }
    }
    let entry = match dir_find(tx, src_root, sn) {
        Ok(Some(e)) => e,
        Ok(None) => {
            return Err(StoreError::Invariant("replay: src entry missing".to_string()));
        },
        Err(e) => return Err(e),
    };
    if sp == dp {
        let same = bytes_equal(sn, dn);
        let out = edit_dir(
            tx,
            sp,
            spmeta,
            Some((dn, entry)),
            if same {
                None
            } else {
                Some(sn)
            },
        );
        proof {
            let now = *tx;
            assert forall|h: nat| #[trigger] editing(was, now, h) implies editing(was, was, h) && (
            out is Ok ==> now.whole(h + 4)) by {
                lemma_editing(was, was, now, h);
                if out is Ok {
                    lemma_fs_grows(
                        now.objects.payloads(),
                        now.objects.payloads(),
                        now.root.inode_index_root@,
                        f,
                        h + 2,
                        h + 4,
                    );
                }
            }
        }
        return out;
    }
    let ghost sv = spmeta@;
    let ghost dv = dpmeta@;
    let bound = edit_dir(tx, dp, dpmeta, Some((dn, entry)), None);
    let ghost t1 = *tx;
    proof {
        assert forall|h: nat| #[trigger] editing(was, t1, h) implies editing(was, was, h) by {
            lemma_editing(was, was, t1, h);
        }
    }
    match bound {
        Ok(_) => {},
        Err(e) => return Err(e),
    }
    let done = edit_dir(tx, sp, spmeta, None, Some(sn));
    proof {
        let t2 = *tx;
        assert forall|h: nat| #[trigger] editing(was, t2, h) implies {
            &&& editing(was, was, h)
            &&& editing(was, t1, h)
            &&& editing(t1, t2, h + 2)
            &&& dir_adopts(t1.ns(), sp, sv) == dir_adopts(was.ns(), sp, sv)
        } by {
            lemma_editing(was, was, t2, h);
            lemma_editing(was, t1, t2, h);
            lemma_edit_on(was, t1, t2, h, h + 2);
        }
    }
    done
}

/// Drop the inode that a rename replaced.
#[verifier::rlimit(40)]
fn drop_replaced<B: IoBackend>(
    tx: &mut Tx<'_, B>,
    src_ino: u64,
    dst_ino: Option<u64>,
    src_is_dir: bool,
) -> (r: Result<(), StoreError>)
    ensures
        edited(*old(tx), *final(tx)),
        forall|h: nat| #[trigger]
            editing(*old(tx), *final(tx), h) && (dst_ino matches Some(d) ==> d == src_ino
                || src_is_dir || old(tx).ns().contains_key(d)) ==> match r {
                Ok(_) => {
                    &&& final(tx).whole(h + 1)
                    &&& final(tx).ns() == replaced_dropped(
                        old(tx).ns(),
                        src_ino,
                        dst_ino,
                        src_is_dir,
                    )
                },
                Err(_) => strained(*old(tx), h),
            },
{
    let ghost was = *tx;
    let ghost f = tx.max_fanout;
    proof {
        assert forall|h: nat| #[trigger] editing(was, was, h) implies was.reads(h) && was.whole(
            h + 1,
        ) by {
            lemma_fs_grows(
                was.objects.payloads(),
                was.objects.payloads(),
                was.root.inode_index_root@,
                f,
                h,
                h + 1,
            );
        }
    }
    let d: u64 = match dst_ino {
        Some(d) => d,
        None => return Ok(()),
    };
    if d == src_ino {
        return Ok(());
    }
    if src_is_dir {
        return put_child(tx, d, None);
    }
    let cur = match Store::inode_for_tx(tx, d) {
        Ok(v) => v,
        Err(e) => return Err(e),
    };
    let out = drop_link(tx, d, cur);
    proof {
        let now = *tx;
        assert forall|h: nat| #[trigger] editing(was, now, h) implies was.reads(h) by {
            lemma_editing(was, was, now, h);
        }
    }
    out
}

#[verifier::rlimit(60)]
#[verifier::spinoff_prover]
fn replay_rename<B: IoBackend>(tx: &mut Tx<'_, B>, op: &MutationOp) -> (r: Result<(), StoreError>)
    requires
        op is Rename,
        op_ok(op@),
    ensures
        edited(*old(tx), *final(tx)),
        forall|h: nat| #[trigger]
            editing(*old(tx), *final(tx), h) ==> replays(
                *old(tx),
                *final(tx),
                h,
                h + 6,
                op@,
                r is Ok,
            ),
{
    let ghost was = *tx;
    let ghost p = tx.objects.payloads();
    proof {
        assert forall|h: nat| #[trigger] editing(was, was, h) implies was.objects.faithful()
            && clash_free(p) by {}
    }
    match op {
        MutationOp::Rename {
            src_parent,
            src_name,
            dst_parent,
            dst_name,
            src_ino,
            dst_ino,
            src_is_dir,
            sp_inode_id,
            dp_inode_id,
            src_child_inode_id,
            dst_child_inode_id,
        } => {
            let spmeta = match fetch_meta(tx, sp_inode_id) {
                Ok(v) => v,
                Err(e) => return Err(e),
            };
            let dpmeta = match fetch_meta(tx, dp_inode_id) {
                Ok(v) => v,
                Err(e) => return Err(e),
            };
            let child = match fetch_opt(tx, src_child_inode_id) {
                Ok(v) => v,
                Err(e) => return Err(e),
            };
            let ghost spv = spmeta@;
            let ghost dpv = dpmeta@;
            let ghost cv = crate::namespace::opt_inode(child);
            let moved = move_entry(
                tx,
                *src_parent,
                src_name,
                spmeta,
                *dst_parent,
                dst_name,
                dpmeta,
            );
            let ghost t1 = *tx;
            proof {
                assert forall|h: nat| #[trigger] editing(was, t1, h) implies editing(
                    was,
                    was,
                    h,
                ) by {
                    lemma_editing(was, was, t1, h);
                }
            }
            match moved {
                Ok(_) => {},
                Err(e) => return Err(e),
            }
            let put = put_child(tx, *src_ino, child);
            let ghost t2 = *tx;
            proof {
                assert forall|h: nat| #[trigger] editing(was, t2, h) implies {
                    &&& editing(was, was, h)
                    &&& editing(was, t1, h)
                    &&& editing(t1, t2, h + 4)
                } by {
                    lemma_editing(was, was, t2, h);
                    lemma_editing(was, t1, t2, h);
                    lemma_edit_on(was, t1, t2, h, h + 4);
                }
            }
            match put {
                Ok(_) => {},
                Err(e) => return Err(e),
            }
            let done = drop_replaced(tx, *src_ino, *dst_ino, *src_is_dir);
            proof {
                let t3 = *tx;
                assert forall|h: nat| #[trigger] editing(was, t3, h) implies {
                    &&& editing(was, was, h)
                    &&& editing(was, t1, h)
                    &&& editing(was, t2, h)
                    &&& editing(t1, t2, h + 4)
                    &&& child_adopts(t1.ns(), *src_ino, cv) ==> editing(t2, t3, h + 5)
                } by {
                    lemma_editing(was, was, t3, h);
                    lemma_editing(was, t1, t3, h);
                    lemma_editing(was, t2, t3, h);
                    assert(editing(t1, t2, h + 4));
                    if child_adopts(t1.ns(), *src_ino, cv) {
                        lemma_edit_on(was, t2, t3, h, h + 5);
                    }
                }
            }
            done
        },
        _ => Ok(()),
    }
}

/// The chunk index with the descriptors of a write.
pub open spec fn chunk_index_with<F: Fn(&[u8]) -> Option<Descriptor>>(
    s: Listing,
    chunks: Seq<(u64, Seq<u8>, Seq<u8>)>,
    decode: F,
) -> Listing
    decreases chunks.len(),
{
    if chunks.len() == 0 {
        s
    } else {
        let c = chunks.last();
        chunk_put(
            chunk_index_with(s, chunks.drop_last(), decode),
            c.1,
            decoded(decode, c.2)->0,
            c.2,
        )
    }
}

/// The feature bits that a chunk needs.
pub open spec fn chunk_mask(d: Descriptor, cid: Seq<u8>) -> u64 {
    if self_alias(d.form, cid) {
        0
    } else {
        mask_of(d.form)
    }
}

/// The feature bits that the chunks of a write need.
pub open spec fn write_mask<F: Fn(&[u8]) -> Option<Descriptor>>(
    chunks: Seq<(u64, Seq<u8>, Seq<u8>)>,
    decode: F,
) -> u64
    decreases chunks.len(),
{
    if chunks.len() == 0 {
        0
    } else {
        let c = chunks.last();
        write_mask(chunks.drop_last(), decode) | chunk_mask(decoded(decode, c.2)->0, c.1)
    }
}

/// Every descriptor of a write can be decoded.
pub open spec fn all_decode<F: Fn(&[u8]) -> Option<Descriptor>>(
    chunks: Seq<(u64, Seq<u8>, Seq<u8>)>,
    decode: F,
) -> bool {
    forall|i: int| 0 <= i < chunks.len() ==> decoded(decode, (#[trigger] chunks[i]).2) is Some
}

/// The file part way through a write.
pub open spec fn part_written(
    it: Item,
    chunks: Seq<(u64, Seq<u8>, Seq<u8>)>,
    now: Timespec,
) -> Item {
    Item {
        inode: if chunks.len() == 0 {
            it.inode
        } else {
            InodeView { ctime: now, ..it.inode }
        },
        entries: extents_with(it.entries, chunks),
        xattrs: it.xattrs,
    }
}

/// A write part way through: the first `cs` chunks are in.
spec fn writing<B: IoBackend, F: Fn(&[u8]) -> Option<Descriptor>>(
    was: Tx<B>,
    now: Tx<B>,
    h: nat,
    ino: u64,
    cs: Seq<(u64, Seq<u8>, Seq<u8>)>,
    decode: F,
    at: Timespec,
) -> bool {
    &&& now.whole(h + 2 * cs.len())
    &&& now.ns() == was.ns().insert(ino, part_written(was.ns()[ino], cs, at))
    &&& now.chunks_ok(h + 2 * cs.len())
    &&& now.chunks() == chunk_index_with(was.chunks(), cs, decode)
}

/// Put the chunks of a write.
#[verifier::rlimit(60)]
#[verifier::spinoff_prover]
fn write_chunks<B: IoBackend, F: Fn(&[u8]) -> Option<Descriptor>>(
    tx: &mut Tx<'_, B>,
    ino: u64,
    chunks: &Vec<(u64, ChunkId, Vec<u8>)>,
    decode: &F,
    now: Timespec,
) -> (r: Result<u64, StoreError>)
    requires
        time_ok(now),
        steady(*decode),
        crate::log::chunks_ok(chunk_views(chunks@)),
    ensures
        data_edited(*old(tx), *final(tx)),
        r matches Ok(mask) ==> {
            &&& all_decode(chunk_views(chunks@), *decode)
            &&& mask == write_mask(chunk_views(chunks@), *decode)
        },
        forall|h: nat| #[trigger]
            data_editing(*old(tx), *final(tx), h) && has_file(old(tx).ns(), ino) ==> match r {
                Ok(_) => writing(
                    *old(tx),
                    *final(tx),
                    h,
                    ino,
                    chunk_views(chunks@),
                    *decode,
                    now,
                ),
                Err(_) => strained(*old(tx), h + 2 * chunks@.len()) || !all_decode(
                    chunk_views(chunks@),
                    *decode,
                ),
            },
{
    let ghost was = *tx;
    let ghost cs = chunk_views(chunks@);
    let mut mask: u64 = 0;
    let mut i: usize = 0;
    proof {
        assert(cs.take(0) =~= Seq::empty());
        assert forall|h: nat| #[trigger] data_editing(was, was, h) && has_file(
            was.ns(),
            ino,
        ) implies writing(was, was, h, ino, cs.take(0), *decode, now) by {
            assert(part_written(was.ns()[ino], cs.take(0), now) =~= was.ns()[ino]);
            assert(was.ns().insert(ino, was.ns()[ino]) =~= was.ns());
        }
    }
    while i < chunks.len()
        invariant
            was == *old(tx),
            i <= chunks@.len(),
            cs == chunk_views(chunks@),
            crate::log::chunks_ok(cs),
            time_ok(now),
            steady(*decode),
            data_edited(was, *tx),
            mask == write_mask(cs.take(i as int), *decode),
            forall|j: int| 0 <= j < i ==> decoded(*decode, (#[trigger] cs[j]).2) is Some,
            forall|h: nat| #[trigger]
                data_editing(was, *tx, h) && has_file(was.ns(), ino) ==> writing(
                    was,
                    *tx,
                    h,
                    ino,
                    cs.take(i as int),
                    *decode,
                    now,
                ),
        decreases chunks@.len() - i,
    {
        let c = &chunks[i];
        assert(cs[i as int] == (c.0, c.1@, c.2@));
        assert(crate::log::chunk_ok(cs[i as int]));
        let d = match decode_with(decode, &c.2) {
            Some(d) => d,
            None => {
                return Err(StoreError::Descriptor("invalid descriptor".to_string()));
            },
        };
        let u = ExtentUpdate {
            offset: c.0,
            descriptor: d,
            bytes: copy_bytes(&c.2),
            content_id: c.1,
            objects: Vec::new(),
        };
        let ghost mid = *tx;
        let put = apply_update(tx, ino, &u, now);
        proof {
            let next = *tx;
            let had = cs.take(i as int);
            let has = cs.take(i + 1);
            assert(has.drop_last() =~= had);
            assert(has.last() == cs[i as int]);
            assert forall|h: nat| #[trigger] data_editing(was, next, h) && has_file(
                was.ns(),
                ino,
            ) implies (if put is Ok {
                writing(was, next, h, ino, has, *decode, now)
            } else {
                strained(was, h + 2 * cs.len())
            }) by {
                lemma_clash_free_subset(mid.objects.payloads(), next.objects.payloads());
                assert(data_editing(was, mid, h));
                assert(writing(was, mid, h, ino, had, *decode, now));
                assert(data_editing(mid, next, h + 2 * had.len()));
                let it = part_written(was.ns()[ino], had, now);
                assert(mid.ns()[ino] == it);
                if put is Ok {
                    assert(extent_put(it, u.offset, u.bytes@, now) =~= part_written(
                        was.ns()[ino],
                        has,
                        now,
                    ));
                    assert(next.ns() =~= was.ns().insert(
                        ino,
                        part_written(was.ns()[ino], has, now),
                    ));
                }
            }
        }
        match put {
            Ok(m) => {
                mask = mask | m;
            },
            Err(e) => return Err(e),
        }
        i += 1;
    }
    assert(cs.take(i as int) =~= cs);
    Ok(mask)
}

/// The levels that replaying a record may add.
pub open spec fn op_levels(op: OpView) -> nat {
    match op {
        OpView::Write { chunks, .. } => 2 * chunks.len() + 1,
        _ => 6,
    }
}

/// The chunks that a record writes.
pub open spec fn op_chunks(op: OpView) -> Seq<(u64, Seq<u8>, Seq<u8>)> {
    match op {
        OpView::Write { chunks, .. } => chunks,
        _ => Seq::empty(),
    }
}

/// Replay a write: chunks first, then the size and change time of the staged
/// inode over the file that they are now part of.
#[verifier::rlimit(60)]
#[verifier::spinoff_prover]
fn replay_write<B: IoBackend, F: Fn(&[u8]) -> Option<Descriptor>>(
    tx: &mut Tx<'_, B>,
    op: &MutationOp,
    decode: &F,
    now: Timespec,
) -> (r: Result<u64, StoreError>)
    requires
        op is Write,
        op_ok(op@),
        time_ok(now),
        steady(*decode),
    ensures
        data_edited(*old(tx), *final(tx)),
        r matches Ok(mask) ==> {
            &&& all_decode(op_chunks(op@), *decode)
            &&& mask == write_mask(op_chunks(op@), *decode)
        },
        forall|h: nat| #[trigger]
            data_editing(*old(tx), *final(tx), h) ==> {
                &&& replays(*old(tx), *final(tx), h, h + op_levels(op@), op@, r is Ok)
                    || r is Err && !all_decode(op_chunks(op@), *decode)
                &&& r is Ok && applicable(
                    old(tx).ns(),
                    resolved(old(tx).objects.payloads(), op@),
                ) ==> {
                    &&& final(tx).chunks_ok(h + op_levels(op@))
                    &&& final(tx).chunks() == chunk_index_with(
                        old(tx).chunks(),
                        op_chunks(op@),
                        *decode,
                    )
                }
            },
{
    let ghost was = *tx;
    let ghost p = tx.objects.payloads();
    let ghost f = tx.max_fanout;
    proof {
        assert forall|h: nat| #[trigger] data_editing(was, was, h) implies was.objects.faithful()
            && clash_free(p) by {}
    }
    match op {
        MutationOp::Write { ino, size, chunks, inode_id } => {
            let fin = match fetch_meta(tx, inode_id) {
                Ok(v) => v,
                Err(e) => return Err(e),
            };
            let ghost v = fin@;
            let put = write_chunks(tx, *ino, chunks, decode, now);
            let ghost cs = chunk_views(chunks@);
            let ghost t1 = *tx;
            proof {
                assert forall|h: nat| #[trigger] data_editing(was, t1, h) implies data_editing(
                    was,
                    was,
                    h,
                ) by {
                    lemma_clash_free_subset(p, t1.objects.payloads());
                }
            }
            let mask: u64 = match put {
                Ok(m) => m,
                Err(e) => return Err(e),
            };
            proof {
                assert forall|h: nat| #[trigger] data_editing(was, t1, h) && has_file(
                    was.ns(),
                    *ino,
                ) implies t1.reads(h + 2 * cs.len()) by {
                    assert(writing(was, t1, h, *ino, cs, *decode, now));
                }
            }
            let mut cur = match Store::inode_for_tx(tx, *ino) {
                Ok(v) => v,
                Err(e) => return Err(e),
            };
            let ghost c0 = cur@;
            cur.size = fin.size;
            cur.ctime = fin.ctime;
            let ghost c1 = cur@;
            let done = Store::put_inode_in_tx(tx, *ino, &cur);
            proof {
                let t2 = *tx;
                let k = 2 * cs.len();
                assert forall|h: nat| #[trigger] data_editing(was, t2, h) implies {
                    &&& data_editing(was, was, h)
                    &&& has_file(was.ns(), *ino) ==> {
                        &&& editing(t1, t2, h + k)
                        &&& inode_fits(t1.objects.payloads(), c1, f, h + k)
                        &&& done is Ok ==> t2.ns() == was.ns().insert(
                            *ino,
                            written(was.ns()[*ino], cs, v),
                        ) && t2.chunks_ok(h + k + 1) && t2.chunks() == t1.chunks()
                            && t1.chunks() == chunk_index_with(was.chunks(), cs, *decode)
                    }
                } by {
                    lemma_clash_free_subset(p, t2.objects.payloads());
                    lemma_clash_free_subset(t1.objects.payloads(), t2.objects.payloads());
                    assert(data_editing(was, t1, h));
                    if has_file(was.ns(), *ino) {
                        assert(writing(was, t1, h, *ino, cs, *decode, now));
                        assert(t1.reads(h + k));
                        let q = t1.objects.payloads();
                        assert(inode_fits(q, c0, f, h + k));
                        assert(inode_fits(q, c1, f, h + k));
                        assert(item_of(q, c1, f) =~= written(was.ns()[*ino], cs, v));
                        assert(editing(t1, t2, h + k));
                        if done is Ok {
                            assert(t2.ns() =~= was.ns().insert(
                                *ino,
                                written(was.ns()[*ino], cs, v),
                            ));
                            lemma_chunks_kept(t1, t2, h + k, h + k + 1);
                        }
                    }
                }
            }
            match done {
                Ok(_) => Ok(mask),
                Err(e) => Err(e),
            }
        },
        _ => Ok(0),
    }
}

impl<B: IoBackend> Store<B> {
    /// Apply one mutation op to a transaction's trees. Returns the feature bits
    /// that it needs.
    #[verifier::rlimit(60)]
    #[verifier::spinoff_prover]
    pub fn replay_op<F: Fn(&[u8]) -> Option<Descriptor>>(
        tx: &mut Tx<'_, B>,
        op: &MutationOp,
        decode: &F,
        now: Timespec,
    ) -> (r: Result<u64, StoreError>)
        requires
            op_ok(op@),
            time_ok(now),
            steady(*decode),
        ensures
            data_edited(*old(tx), *final(tx)),
            r matches Ok(mask) ==> {
                &&& all_decode(op_chunks(op@), *decode)
                &&& mask == write_mask(op_chunks(op@), *decode)
            },
            forall|h: nat| #[trigger]
                data_editing(*old(tx), *final(tx), h) ==> {
                    &&& replays(*old(tx), *final(tx), h, h + op_levels(op@), op@, r is Ok)
                        || r is Err && !all_decode(op_chunks(op@), *decode)
                    &&& r is Ok && applicable(
                        old(tx).ns(),
                        resolved(old(tx).objects.payloads(), op@),
                    ) ==> {
                        &&& final(tx).chunks_ok(h + op_levels(op@))
                        &&& final(tx).chunks() == chunk_index_with(
                            old(tx).chunks(),
                            op_chunks(op@),
                            *decode,
                        )
                    }
                },
    {
        let ghost was = *tx;
        let ghost p = tx.objects.payloads();
        let ghost f = tx.max_fanout;
        let out = match op {
            MutationOp::Write { .. } => {
                return replay_write(tx, op, decode, now);
            },
            MutationOp::Create { parent, name, ino, d_type, inode_id, parent_inode_id } => {
                replay_create(tx, op, *parent, name, *ino, *d_type, inode_id, parent_inode_id)
            },
            MutationOp::Setattr { ino, inode_id } => {
                proof {
                    assert forall|h: nat| #[trigger] editing(
                        was,
                        was,
                        h,
                    ) implies was.objects.faithful() && clash_free(p) by {}
                }
                match fetch_meta(tx, inode_id) {
                    Ok(v) => {
                        let out = put_meta(tx, *ino, v);
                        proof {
                            let next = *tx;
                            assert forall|h: nat| #[trigger] editing(was, next, h) implies editing(
                                was,
                                was,
                                h,
                            ) by {
                                lemma_editing(was, was, next, h);
                            }
                        }
                        out
                    },
                    Err(e) => Err(e),
                }
            },
            MutationOp::Unlink { parent, name, child, is_dir, parent_inode_id, child_inode_id } => {
                replay_unlink(tx, op, *parent, name, *child, *is_dir, parent_inode_id, child_inode_id)
            },
            MutationOp::Rename { .. } => replay_rename(tx, op),
        };
        proof {
            let next = *tx;
            assert forall|h: nat| #[trigger] data_editing(was, next, h) implies {
                &&& replays(was, next, h, h + 6, op@, out is Ok)
                &&& next.chunks_ok(h + 6)
                &&& next.chunks() == was.chunks()
            } by {
                assert(editing(was, next, h));
                lemma_editing(was, was, next, h);
                lemma_chunks_kept(was, next, h, h + 6);
                if out is Ok && applicable(was.ns(), resolved(p, op@)) {
                    let k: nat = match op {
                        MutationOp::Rename { .. } => h + 6,
                        MutationOp::Setattr { .. } => h + 1,
                        _ => h + 3,
                    };
                    assert(next.whole(k));
                    lemma_fs_grows(
                        next.objects.payloads(),
                        next.objects.payloads(),
                        next.root.inode_index_root@,
                        f,
                        k,
                        h + 6,
                    );
                }
            }
        }
        match out {
            Ok(_) => Ok(0),
            Err(e) => Err(e),
        }
    }
}

// ---------------------------------------------------------------------------
// Replaying the log
// ---------------------------------------------------------------------------

/// The namespace after records, in order. Their staged inodes are among `p`.
pub open spec fn replayed(n: Namespace, p: Set<Seq<u8>>, ops: Seq<OpView>) -> Namespace
    decreases ops.len(),
{
    if ops.len() == 0 {
        n
    } else {
        applied(replayed(n, p, ops.drop_last()), resolved(p, ops.last()))
    }
}

/// The chunk index after records, in order.
pub open spec fn replayed_chunks<F: Fn(&[u8]) -> Option<Descriptor>>(
    s: Listing,
    ops: Seq<OpView>,
    decode: F,
) -> Listing
    decreases ops.len(),
{
    if ops.len() == 0 {
        s
    } else {
        chunk_index_with(
            replayed_chunks(s, ops.drop_last(), decode),
            op_chunks(ops.last()),
            decode,
        )
    }
}

/// The feature bits that records need.
pub open spec fn replayed_mask<F: Fn(&[u8]) -> Option<Descriptor>>(
    ops: Seq<OpView>,
    decode: F,
) -> u64
    decreases ops.len(),
{
    if ops.len() == 0 {
        0
    } else {
        replayed_mask(ops.drop_last(), decode) | write_mask(op_chunks(ops.last()), decode)
    }
}

/// The levels that replaying records may add.
pub open spec fn log_levels(ops: Seq<OpView>) -> nat
    decreases ops.len(),
{
    if ops.len() == 0 {
        0
    } else {
        log_levels(ops.drop_last()) + op_levels(ops.last())
    }
}

/// Each record in turn can be applied.
pub open spec fn all_applicable<F: Fn(&[u8]) -> Option<Descriptor>>(
    n: Namespace,
    p: Set<Seq<u8>>,
    ops: Seq<OpView>,
    decode: F,
) -> bool {
    forall|i: int|
        0 <= i < ops.len() ==> {
            &&& resolves(p, #[trigger] ops[i])
            &&& applicable(replayed(n, p, ops.take(i)), resolved(p, ops[i]))
            &&& all_decode(op_chunks(ops[i]), decode)
        }
}

/// The records of a log.
pub open spec fn op_views(log: Seq<(u64, MutationOp)>) -> Seq<OpView> {
    Seq::new(log.len(), |i: int| log[i].1@)
}

pub proof fn lemma_resolved_grows(p: Set<Seq<u8>>, q: Set<Seq<u8>>, op: OpView)
    requires
        resolves(p, op),
        p.subset_of(q),
        clash_free(q),
    ensures
        resolves(q, op),
        resolved(q, op) == resolved(p, op),
{
    match op {
        OpView::Create { inode_id, parent_inode_id, .. } => {
            lemma_object_grows(p, q, inode_id);
            lemma_object_grows(p, q, parent_inode_id);
        },
        OpView::Setattr { inode_id, .. } => lemma_object_grows(p, q, inode_id),
        OpView::Unlink { parent_inode_id, child_inode_id, .. } => {
            lemma_object_grows(p, q, parent_inode_id);
            if let Some(id) = child_inode_id {
                lemma_object_grows(p, q, id);
            }
        },
        OpView::Rename { sp_inode_id, dp_inode_id, src_child_inode_id, .. } => {
            lemma_object_grows(p, q, sp_inode_id);
            lemma_object_grows(p, q, dp_inode_id);
            if let Some(id) = src_child_inode_id {
                lemma_object_grows(p, q, id);
            }
        },
        OpView::Write { inode_id, .. } => lemma_object_grows(p, q, inode_id),
    }
}

proof fn lemma_levels_mono(ops: Seq<OpView>, i: int)
    requires
        0 <= i <= ops.len(),
    ensures
        log_levels(ops.take(i)) <= log_levels(ops),
    decreases ops.len() - i,
{
    if i < ops.len() {
        lemma_levels_mono(ops, i + 1);
        assert(ops.take(i + 1).drop_last() =~= ops.take(i));
    } else {
        assert(ops.take(i) =~= ops);
    }
}

/// A log replayed so far: the records `ops` are in.
spec fn replaying<B: IoBackend, F: Fn(&[u8]) -> Option<Descriptor>>(
    was: Tx<B>,
    now: Tx<B>,
    h: nat,
    ops: Seq<OpView>,
    decode: F,
) -> bool {
    &&& now.whole(h + log_levels(ops))
    &&& now.ns() == replayed(was.ns(), was.objects.payloads(), ops)
    &&& now.chunks_ok(h + log_levels(ops))
    &&& now.chunks() == replayed_chunks(was.chunks(), ops, decode)
}

/// Replay records in order.
#[verifier::rlimit(60)]
#[verifier::spinoff_prover]
pub fn replay_all<B: IoBackend, F: Fn(&[u8]) -> Option<Descriptor>>(
    tx: &mut Tx<'_, B>,
    log: &Vec<(u64, MutationOp)>,
    decode: &F,
    now: Timespec,
) -> (r: Result<u64, StoreError>)
    requires
        forall|i: int| 0 <= i < log@.len() ==> op_ok((#[trigger] log@[i]).1@),
        time_ok(now),
        steady(*decode),
    ensures
        data_edited(*old(tx), *final(tx)),
        r matches Ok(mask) ==> mask == replayed_mask(op_views(log@), *decode),
        forall|h: nat| #[trigger]
            data_editing(*old(tx), *final(tx), h) && all_applicable(
                old(tx).ns(),
                old(tx).objects.payloads(),
                op_views(log@),
                *decode,
            ) ==> match r {
                Ok(_) => {
                    let ops = op_views(log@);
                    &&& final(tx).whole(h + log_levels(ops))
                    &&& final(tx).ns() == replayed(
                        old(tx).ns(),
                        old(tx).objects.payloads(),
                        ops,
                    )
                    &&& final(tx).chunks_ok(h + log_levels(ops))
                    &&& final(tx).chunks() == replayed_chunks(old(tx).chunks(), ops, *decode)
                },
                Err(_) => strained(*old(tx), h + log_levels(op_views(log@))),
            },
{
    let ghost was = *tx;
    let ghost p = tx.objects.payloads();
    let ghost ops = op_views(log@);
    let mut mask: u64 = 0;
    let mut i: usize = 0;
    assert(ops.take(0) =~= Seq::empty());
    while i < log.len()
        invariant
            was == *old(tx),
            p == was.objects.payloads(),
            i <= log@.len(),
            ops == op_views(log@),
            forall|j: int| 0 <= j < log@.len() ==> op_ok((#[trigger] log@[j]).1@),
            time_ok(now),
            steady(*decode),
            data_edited(was, *tx),
            mask == replayed_mask(ops.take(i as int), *decode),
            forall|h: nat| #[trigger]
                data_editing(was, *tx, h) && all_applicable(was.ns(), p, ops, *decode)
                    ==> replaying(was, *tx, h, ops.take(i as int), *decode),
        decreases log@.len() - i,
    {
        let ghost mid = *tx;
        let op = &log[i].1;
        assert(ops[i as int] == op@);
        assert(op_ok(log@[i as int].1@));
        let out = Store::replay_op(tx, op, decode, now);
        proof {
            let next = *tx;
            let had = ops.take(i as int);
            let has = ops.take(i + 1);
            assert(has.drop_last() =~= had);
            assert(has.last() == op@);
            lemma_levels_mono(ops, i + 1);
            assert forall|h: nat| #[trigger] data_editing(was, next, h) && all_applicable(
                was.ns(),
                p,
                ops,
                *decode,
            ) implies (if out is Ok {
                replaying(was, next, h, has, *decode)
            } else {
                strained(was, h + log_levels(ops))
            }) by {
                let q = mid.objects.payloads();
                lemma_clash_free_subset(q, next.objects.payloads());
                assert(data_editing(was, mid, h));
                assert(replaying(was, mid, h, had, *decode));
                assert(data_editing(mid, next, h + log_levels(had)));
                assert(resolves(p, ops[i as int]));
                lemma_resolved_grows(p, q, op@);
            }
        }
        match out {
            Ok(m) => {
                mask = mask | m;
            },
            Err(e) => return Err(e),
        }
        i += 1;
    }
    assert(ops.take(i as int) =~= ops);
    Ok(mask)
}

// ---------------------------------------------------------------------------
// Reading the log
// ---------------------------------------------------------------------------

/// The sequence number of an envelope, where it can be read.
pub open spec fn seq_of(env: Seq<u8>) -> Option<u64> {
    match scan_u64(Ok(env)) {
        (n, Ok(_)) => Some(n),
        _ => None,
    }
}

/// The envelope belongs to the tail above `floor`.
pub open spec fn in_tail(env: Seq<u8>, floor: u64) -> bool {
    seq_of(env) matches Some(n) && n > floor
}

/// The log is the tail of the envelopes: those above `floor`, by sequence number.
pub open spec fn is_tail(log: Seq<(u64, MutationOp)>, envs: Seq<Vec<u8>>, floor: u64) -> bool {
    &&& forall|i: int, j: int|
        #![trigger log[i], log[j]]
        0 <= i < j < log.len() ==> log[i].0 < log[j].0
    &&& forall|i: int|
        0 <= i < log.len() ==> exists|j: int|
            0 <= j < envs.len() && in_tail((#[trigger] envs[j])@, floor) && parse_envelope(
                envs[j]@,
            ) == Ok::<(u64, OpView), CodecError>(((#[trigger] log[i]).0, log[i].1@))
    &&& forall|j: int|
        0 <= j < envs.len() && in_tail((#[trigger] envs[j])@, floor) ==> exists|i: int|
            0 <= i < log.len() && parse_envelope(envs[j]@) == Ok::<(u64, OpView), CodecError>(
                ((#[trigger] log[i]).0, log[i].1@),
            )
}

/// An envelope that cannot be read, or two of the tail with one sequence number.
pub open spec fn log_broken(envs: Seq<Vec<u8>>, floor: u64) -> bool {
    ||| exists|j: int| 0 <= j < envs.len() && seq_of((#[trigger] envs[j])@) is None
    ||| exists|j: int|
        0 <= j < envs.len() && in_tail((#[trigger] envs[j])@, floor) && parse_envelope(
            envs[j]@,
        ) is Err
    ||| exists|i: int, j: int|
        #![trigger envs[i], envs[j]]
        0 <= i < j < envs.len() && in_tail(envs[i]@, floor) && seq_of(envs[i]@) == seq_of(
            envs[j]@,
        )
}

/// The tail of the log, in sequence order.
#[verifier::rlimit(60)]
pub fn read_log(envs: &Vec<Vec<u8>>, floor: u64) -> (r: Result<Vec<(u64, MutationOp)>, StoreError>)
    ensures
        match r {
            Ok(log) => is_tail(log@, envs@, floor) && forall|i: int|
                0 <= i < log@.len() ==> op_ok((#[trigger] log@[i]).1@),
            Err(e) => log_broken(envs@, floor) && (e is Descriptor || e is Invariant),
        },
{
    let mut places: SortedMap<usize> = SortedMap::new();
    let mut i: usize = 0;
    while i < envs.len()
        invariant
            i <= envs@.len(),
            places.wf(),
            forall|k: int|
                0 <= k < places@.len() ==> {
                    let at = (#[trigger] places@[k]).1 as int;
                    &&& 0 <= at < i
                    &&& in_tail(envs@[at]@, floor)
                    &&& places@[k].0 == ino_key(seq_of(envs@[at]@)->0)
                },
            forall|j: int|
                0 <= j < i && in_tail((#[trigger] envs@[j])@, floor) ==> lookup(
                    places@,
                    ino_key(seq_of(envs@[j]@)->0),
                ) == Some(j as usize),
        decreases envs@.len() - i,
    {
        let env = &envs[i];
        let n: u64 = match envelope_seq(env) {
            Ok(n) => n,
            Err(e) => {
                assert(seq_of(envs@[i as int]@) is None);
                return Err(e);
            },
        };
        if n > floor {
            let key = u64_be(n);
            if places.contains(&key) {
                proof {
                    let k = rank(places@, ino_key(n));
                    let at = places@[k].1 as int;
                    lemma_ino_key(n, seq_of(envs@[at]@)->0);
                    assert(in_tail(envs@[at]@, floor) && seq_of(envs@[at]@) == seq_of(
                        envs@[i as int]@,
                    ));
                }
                return Err(
                    StoreError::Invariant(
                        "duplicate mutation log sequence at recovery".to_string(),
                    ),
                );
            }
            let ghost had = places@;
            places.insert(key, i);
            proof {
                let k0 = ino_key(n);
                lemma_rank(had, k0);
                assert forall|k: int| 0 <= k < places@.len() implies {
                    let at = (#[trigger] places@[k]).1 as int;
                    &&& 0 <= at < i + 1
                    &&& in_tail(envs@[at]@, floor)
                    &&& places@[k].0 == ino_key(seq_of(envs@[at]@)->0)
                } by {
                    let r = rank(had, k0);
                    if k < r {
                        assert(places@[k] == had[k]);
                    } else if k > r {
                        assert(places@[k] == had[k - 1]);
                    }
                }
                assert forall|j: int| 0 <= j < i + 1 && in_tail(
                    (#[trigger] envs@[j])@,
                    floor,
                ) implies lookup(places@, ino_key(seq_of(envs@[j]@)->0)) == Some(j as usize) by {
                    lemma_ino_key(n, seq_of(envs@[j]@)->0);
                    lemma_lookup_upsert(had, k0, i, ino_key(seq_of(envs@[j]@)->0));
                    if j < i && seq_of(envs@[j]@)->0 == n {
                        lemma_has_key(had, k0);
                    }
                }
            }
        }
        i += 1;
    }
    let mut log: Vec<(u64, MutationOp)> = Vec::new();
    let mut k: usize = 0;
    while k < places.len()
        invariant
            i == envs@.len(),
            k <= places@.len(),
            log@.len() == k,
            places.wf(),
            forall|k: int|
                0 <= k < places@.len() ==> {
                    let at = (#[trigger] places@[k]).1 as int;
                    &&& 0 <= at < i
                    &&& in_tail(envs@[at]@, floor)
                    &&& places@[k].0 == ino_key(seq_of(envs@[at]@)->0)
                },
            forall|j: int|
                0 <= j < k ==> op_ok((#[trigger] log@[j]).1@) && parse_envelope(
                    envs@[places@[j].1 as int]@,
                ) == Ok::<(u64, OpView), CodecError>((log@[j].0, log@[j].1@)),
        decreases places@.len() - k,
    {
        let at: usize = *places.value_at(k);
        assert(places@[k as int].1 == at);
        let env = &envs[at];
        match decode_envelope(env) {
            Ok(o) => {
                proof {
                    parsed_op_ok(env@.skip(8));
                }
                log.push(o);
            },
            Err(e) => {
                assert(in_tail(envs@[at as int]@, floor));
                return Err(e);
            },
        }
        k += 1;
    }
    proof {
        assert forall|a: int, b: int|
            #![trigger log@[a], log@[b]]
            0 <= a < b < log@.len() implies log@[a].0 < log@[b].0 by {
            assert(lex_lt(places@[a].0, places@[b].0));
            lemma_ino_key(log@[a].0, log@[b].0);
        }
        assert forall|a: int| 0 <= a < log@.len() implies exists|j: int|
            0 <= j < envs@.len() && in_tail((#[trigger] envs@[j])@, floor) && parse_envelope(
                envs@[j]@,
            ) == Ok::<(u64, OpView), CodecError>(((#[trigger] log@[a]).0, log@[a].1@)) by {
            let at = places@[a].1 as int;
            assert(in_tail(envs@[at]@, floor));
        }
        assert forall|j: int| 0 <= j < envs@.len() && in_tail(
            (#[trigger] envs@[j])@,
            floor,
        ) implies exists|a: int|
            0 <= a < log@.len() && parse_envelope(envs@[j]@) == Ok::<(u64, OpView), CodecError>(
                ((#[trigger] log@[a]).0, log@[a].1@),
            ) by {
            let key = ino_key(seq_of(envs@[j]@)->0);
            lemma_has_key(places@, key);
            let a = rank(places@, key);
            assert(log@[a].1@ == log@[a].1@);
        }
    }
    Ok(log)
}

} // verus!
