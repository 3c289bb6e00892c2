//! File data inside a transaction: extents, chunk descriptors and truncation.

use vstd::prelude::*;

use crate::attrs::{item_attrs_set, update_ok, AttrUpdate};
use crate::bytes::copy_bytes;
use crate::chunk::{zero_id, ChunkId};
use crate::descriptor::{decode_with, decoded, mask_of, self_alias, steady, Descriptor};
use crate::error::StoreError;
use crate::extent_tree::{self, at_or_below, extent_key_of, extent_key_order, starts_decode};
use crate::fs::{data_root, inode_fits, item_of, lemma_fits_grows, lemma_fs_grows, lemma_listing,
    lemma_tree_grows, lemma_tree_sorted, listing, offsets_ok, rootless, tree_ok, Item, Listing,
    Namespace, BTREE_ORDER};
use crate::index::{self, grown, ObjectProvider};
use crate::index_edit::lemma_clash_free_subset;
use crate::inode::{inode_ok, Inode, InodeData, InodeView, Timespec};
use crate::io::IoBackend;
use crate::mode::S_IFMT;
use crate::namespace::{strained, edited, editing, lemma_added, lemma_edit_on, lemma_editing, objects_added,
    time_ok};
use crate::root::Root;
use crate::sorted::{erase, has_key, lemma_erase_sorted, lemma_rank, lemma_upsert_sorted, rank,
    sorted, upsert};
use crate::store::Store;
use crate::transaction::{put_object, Tx};
use crate::tree::{clash_free, lists};
use crate::version::RecordTag;
use crate::window::plan_trim;

verus! {

/// What a new object of an extent update is.
#[derive(Debug, Clone, Copy, PartialEq, Eq, Structural)]
pub enum ObjectKind {
    Data,
    Model,
}

/// A new object of an extent update.
#[derive(Debug)]
pub struct ObjectRecord {
    pub kind: ObjectKind,
    pub payload: Vec<u8>,
}

/// One extent update within a file-region commit.
#[derive(Debug)]
pub struct ExtentUpdate {
    /// Logical offset of the extent.
    pub offset: u64,
    /// What the descriptor says.
    pub descriptor: Descriptor,
    /// The descriptor's bytes.
    pub bytes: Vec<u8>,
    /// Logical content id of the chunk bytes.
    pub content_id: ChunkId,
    /// New objects to persist.
    pub objects: Vec<ObjectRecord>,
}

/// There is a regular file's data at `ino`.
pub open spec fn has_file(n: Namespace, ino: u64) -> bool {
    n.contains_key(ino) && n[ino].inode.data is File
}

// ---------------------------------------------------------------------------
// Listings of extents
// ---------------------------------------------------------------------------

#[verifier::rlimit(60)]
#[verifier::spinoff_prover]
pub proof fn lemma_offsets_upsert(s: Listing, offset: u64, v: Seq<u8>)
    requires
        sorted(s),
        offsets_ok(s),
    ensures
        offsets_ok(upsert(s, extent_key_of(offset), v)),
        sorted(upsert(s, extent_key_of(offset), v)),
{
    let k = extent_key_of(offset);
    crate::fs::lemma_ino_key(offset, offset);
    lemma_rank(s, k);
    lemma_upsert_sorted(s, k, v);
    let u = upsert(s, k, v);
    let r = rank(s, k);
    assert forall|i: int| 0 <= i < u.len() implies (#[trigger] u[i]).0.len() == 8 by {
        if i == r {
            assert(u[i] == (k, v));
        } else if has_key(s, k) || i < r {
            assert(u[i] == s[i]);
        } else {
            assert(u[i] == s[i - 1]);
        }
    }
}

#[verifier::rlimit(60)]
#[verifier::spinoff_prover]
pub proof fn lemma_offsets_erase(s: Listing, k: Seq<u8>)
    requires
        sorted(s),
        offsets_ok(s),
    ensures
        offsets_ok(erase(s, k)),
        sorted(erase(s, k)),
{
    lemma_rank(s, k);
    lemma_erase_sorted(s, k);
    let e = erase(s, k);
    let r = rank(s, k);
    assert forall|i: int| 0 <= i < e.len() implies (#[trigger] e[i]).0.len() == 8 by {
        if has_key(s, k) && i >= r {
            assert(e[i] == s[i + 1]);
        } else {
            assert(e[i] == s[i]);
        }
    }
}

/// The extents that start below `size`.
pub open spec fn cut(s: Listing, size: u64) -> Listing {
    s.take(rank(s, extent_key_of(size)))
}

// ---------------------------------------------------------------------------
// The chunk index
// ---------------------------------------------------------------------------

/// From `was` to `now` objects were added and the chunk index replaced.
pub open spec fn chunks_edited<B: IoBackend>(was: Tx<B>, now: Tx<B>) -> bool {
    &&& grown(&was.objects, &now.objects)
    &&& now.max_fanout == was.max_fanout
    &&& now.root == (Root { chunk_index_root: now.root.chunk_index_root, ..was.root })
}

impl<'a, B: IoBackend> Tx<'a, B> {
    /// The chunk index: descriptor bytes by content id.
    pub open spec fn chunks(&self) -> Listing {
        listing(self.objects.payloads(), self.root.chunk_index_root@, self.max_fanout)
    }

    /// The chunk index can be read.
    pub open spec fn chunks_ok(&self, h: nat) -> bool {
        tree_ok(self.objects.payloads(), self.root.chunk_index_root@, self.max_fanout, h)
    }
}

/// What an edit of the chunk index starts from.
pub open spec fn chunks_editing<B: IoBackend>(was: Tx<B>, now: Tx<B>, h: nat) -> bool {
    &&& was.objects.faithful()
    &&& clash_free(now.objects.payloads())
    &&& BTREE_ORDER <= was.max_fanout
    &&& was.chunks_ok(h)
}

/// The chunk index with a descriptor for `cid`, unless that is a reference to
/// `cid` itself.
pub open spec fn chunk_put(s: Listing, cid: Seq<u8>, d: Descriptor, bytes: Seq<u8>) -> Listing {
    if self_alias(d.form, cid) {
        s
    } else {
        upsert(s, cid, bytes)
    }
}

impl<B: IoBackend> Store<B> {
    /// Insert a chunk descriptor (within a transaction). Returns the feature
    /// bits that it needs.
    pub fn put_chunk_in_tx(tx: &mut Tx<'_, B>, cid: &ChunkId, d: &Descriptor, bytes: &[u8]) -> (r:
        Result<u64, StoreError>)
        requires
            bytes@.len() <= u32::MAX,
        ensures
            chunks_edited(*old(tx), *final(tx)),
            r matches Ok(mask) ==> mask == if self_alias(d.form, cid@) {
                0
            } else {
                mask_of(d.form)
            },
            forall|h: nat| #[trigger]
                chunks_editing(*old(tx), *final(tx), h) ==> match r {
                    Ok(_) => {
                        &&& final(tx).chunks_ok(h + 1)
                        &&& final(tx).chunks() == chunk_put(old(tx).chunks(), cid@, *d, bytes@)
                    },
                    Err(_) => strained(*old(tx), h),
                },
    {
        let ghost was = *tx;
        let ghost p0 = tx.objects.payloads();
        let ghost f = tx.max_fanout;
        let ghost t0 = tx.root.chunk_index_root@;
        if d.aliases(cid) {
            proof {
                assert forall|h: nat| #[trigger] chunks_editing(was, was, h) implies was.chunks_ok(
                    h + 1,
                ) by {
                    lemma_tree_grows(p0, p0, t0, f, h, h + 1);
                }
            }
            return Ok(0);
        }
        let out = index::insert(
            tx.root.chunk_index_root,
            cid.as_slice(),
            bytes,
            BTREE_ORDER,
            tx.max_fanout,
            &mut tx.objects,
        );
        let ghost p1 = tx.objects.payloads();
        proof {
            let mid = *tx;
            assert forall|h: nat| #[trigger] chunks_editing(was, mid, h) implies (match out {
                Ok(id) => tree_ok(p1, id@, f, h + 1) && listing(p1, id@, f) == upsert(
                    was.chunks(),
                    cid@,
                    bytes@,
                ),
                Err(_) => strained(was, h),
            }) by {
                assert(tree_ok(p0, t0, f, h));
                if let Ok(id) = out {
                    lemma_listing(p1, id@, f, h + 1, upsert(was.chunks(), cid@, bytes@));
                }
            }
        }
        match out {
            Ok(id) => {
                let ghost mid = *tx;
                tx.root.chunk_index_root = id;
                proof {
                    let now = *tx;
                    assert forall|h: nat| #[trigger] chunks_editing(
                        was,
                        now,
                        h,
                    ) implies chunks_editing(was, mid, h) by {}
                }
                Ok(d.mask())
            },
            Err(e) => Err(StoreError::index(e)),
        }
    }
}

// ---------------------------------------------------------------------------
// Extents
// ---------------------------------------------------------------------------

/// The item with other extents.
pub open spec fn restored(it: Item, entries: Listing) -> Item {
    Item { entries, ..it }
}

/// A file inode and its extent tree, for a number.
pub(crate) fn find_file<B: IoBackend>(tx: &Tx<'_, B>, ino: u64) -> (r: Result<
    (Inode, ChunkId),
    StoreError,
>)
    ensures
        r matches Ok(o) ==> inode_ok(o.0@) && o.0.data is File && o.1@ == data_root(o.0@.data),
        forall|h: nat| #[trigger]
            tx.reads(h) ==> match r {
                Ok(o) => {
                    &&& has_file(tx.ns(), ino)
                    &&& inode_fits(tx.objects.payloads(), o.0@, tx.max_fanout, h)
                    &&& tx.ns()[ino] == item_of(tx.objects.payloads(), o.0@, tx.max_fanout)
                },
                Err(_) => strained(*tx, h) || !has_file(tx.ns(), ino),
            },
{
    let inode = match Store::inode_for_tx(tx, ino) {
        Ok(v) => v,
        Err(e) => return Err(e),
    };
    match &inode.data {
        InodeData::File { extent_root } => {
            let root = *extent_root;
            Ok((inode, root))
        },
        _ => Err(StoreError::Invariant("not a regular file".to_string())),
    }
}

/// Write a file inode with another extent tree. The caller has set the rest of
/// the inode.
pub(crate) fn put_file<B: IoBackend>(
    tx: &mut Tx<'_, B>,
    ino: u64,
    inode: Inode,
    extent_root: ChunkId,
) -> (r: Result<(), StoreError>)
    requires
        inode.data is File,
    ensures
        edited(*old(tx), *final(tx)),
        forall|h: nat| #[trigger]
            editing(*old(tx), *final(tx), h) && inode_fits(
                old(tx).objects.payloads(),
                inode@,
                old(tx).max_fanout,
                h,
            ) && tree_ok(old(tx).objects.payloads(), extent_root@, old(tx).max_fanout, h)
                && offsets_ok(
                listing(old(tx).objects.payloads(), extent_root@, old(tx).max_fanout),
            ) ==> match r {
                Ok(_) => {
                    &&& final(tx).whole(h + 1)
                    &&& final(tx).ns() == old(tx).ns().insert(
                        ino,
                        restored(
                            item_of(old(tx).objects.payloads(), inode@, old(tx).max_fanout),
                            listing(
                                old(tx).objects.payloads(),
                                extent_root@,
                                old(tx).max_fanout,
                            ),
                        ),
                    )
                },
                Err(_) => strained(*old(tx), h),
            },
{
    let mut t = inode;
    t.data = InodeData::File { extent_root };
    proof {
        let p = tx.objects.payloads();
        let f = tx.max_fanout;
        assert(rootless(t@) =~= rootless(inode@));
        assert(item_of(p, t@, f) =~= restored(item_of(p, inode@, f), listing(p, extent_root@, f)));
    }
    Store::put_inode_in_tx(tx, ino, &t)
}

/// An extent tree to edit.
pub open spec fn file_editing<B: IoBackend>(was: Tx<B>, now: Tx<B>, root: Seq<u8>, h: nat) -> bool {
    &&& was.objects.faithful()
    &&& clash_free(now.objects.payloads())
    &&& BTREE_ORDER <= was.max_fanout
    &&& tree_ok(was.objects.payloads(), root, was.max_fanout, h)
    &&& offsets_ok(listing(was.objects.payloads(), root, was.max_fanout))
}

/// Bind an extent in an extent tree.
pub(crate) fn extent_bind<B: IoBackend>(
    tx: &mut Tx<'_, B>,
    root: ChunkId,
    offset: u64,
    bytes: &[u8],
) -> (r: Result<ChunkId, StoreError>)
    requires
        bytes@.len() <= u32::MAX,
    ensures
        objects_added(*old(tx), *final(tx)),
        forall|h: nat| #[trigger]
            file_editing(*old(tx), *final(tx), root@, h) ==> match r {
                Ok(id) => {
                    let s = listing(old(tx).objects.payloads(), root@, old(tx).max_fanout);
                    let p = final(tx).objects.payloads();
                    &&& tree_ok(p, id@, final(tx).max_fanout, h + 1)
                    &&& listing(p, id@, final(tx).max_fanout) == upsert(
                        s,
                        extent_key_of(offset),
                        bytes@,
                    )
                    &&& offsets_ok(listing(p, id@, final(tx).max_fanout))
                },
                Err(_) => strained(*old(tx), h),
            },
{
    let ghost p0 = tx.objects.payloads();
    let ghost f = tx.max_fanout;
    let out = extent_tree::insert(
        root,
        offset,
        bytes,
        BTREE_ORDER,
        tx.max_fanout,
        &mut tx.objects,
    );
    proof {
        assert forall|h: nat| #[trigger] file_editing(*old(tx), *tx, root@, h) implies (match out {
            Ok(id) => {
                let s = listing(p0, root@, f);
                let p = tx.objects.payloads();
                &&& tree_ok(p, id@, f, h + 1)
                &&& listing(p, id@, f) == upsert(s, extent_key_of(offset), bytes@)
                &&& offsets_ok(listing(p, id@, f))
            },
            Err(_) => strained(*old(tx), h),
        }) by {
            assert(tree_ok(p0, root@, f, h));
            lemma_tree_sorted(p0, root@, f, h);
            if let Ok(id) = out {
                let s = listing(p0, root@, f);
                lemma_listing(
                    tx.objects.payloads(),
                    id@,
                    f,
                    h + 1,
                    upsert(s, extent_key_of(offset), bytes@),
                );
                lemma_offsets_upsert(s, offset, bytes@);
            }
        }
    }
    match out {
        Ok(id) => Ok(id),
        Err(e) => Err(StoreError::index(e)),
    }
}

/// Unbind an extent in an extent tree.
pub(crate) fn extent_unbind<B: IoBackend>(tx: &mut Tx<'_, B>, root: ChunkId, offset: u64) -> (r:
    Result<ChunkId, StoreError>)
    ensures
        objects_added(*old(tx), *final(tx)),
        forall|h: nat| #[trigger]
            file_editing(*old(tx), *final(tx), root@, h) ==> match r {
                Ok(id) => {
                    let s = listing(old(tx).objects.payloads(), root@, old(tx).max_fanout);
                    let p = final(tx).objects.payloads();
                    &&& tree_ok(p, id@, final(tx).max_fanout, h)
                    &&& listing(p, id@, final(tx).max_fanout) == erase(s, extent_key_of(offset))
                    &&& offsets_ok(listing(p, id@, final(tx).max_fanout))
                },
                Err(_) => strained(*old(tx), h),
            },
{
    let ghost p0 = tx.objects.payloads();
    let ghost f = tx.max_fanout;
    let out = extent_tree::remove(root, offset, BTREE_ORDER, tx.max_fanout, &mut tx.objects);
    proof {
        assert forall|h: nat| #[trigger] file_editing(*old(tx), *tx, root@, h) implies (match out {
            Ok(o) => {
                let s = listing(p0, root@, f);
                let p = tx.objects.payloads();
                &&& tree_ok(p, o.0@, f, h)
                &&& listing(p, o.0@, f) == erase(s, extent_key_of(offset))
                &&& offsets_ok(listing(p, o.0@, f))
            },
            Err(_) => strained(*old(tx), h),
        }) by {
            assert(tree_ok(p0, root@, f, h));
            lemma_tree_sorted(p0, root@, f, h);
            let s = listing(p0, root@, f);
            if let Ok(o) = out {
                lemma_listing(tx.objects.payloads(), o.0@, f, h, erase(s, extent_key_of(offset)));
                lemma_offsets_erase(s, extent_key_of(offset));
            }
        }
    }
    match out {
        Ok((id, _)) => Ok(id),
        Err(e) => Err(StoreError::index(e)),
    }
}

/// The item with one extent more, changed at `now`.
pub open spec fn extent_put(it: Item, offset: u64, bytes: Seq<u8>, now: Timespec) -> Item {
    Item {
        inode: InodeView { ctime: now, ..it.inode },
        entries: upsert(it.entries, extent_key_of(offset), bytes),
        xattrs: it.xattrs,
    }
}

impl<B: IoBackend> Store<B> {
    /// Insert an extent (within a transaction) for the given inode.
    pub fn put_extent_in_tx(
        tx: &mut Tx<'_, B>,
        ino: u64,
        offset: u64,
        bytes: &[u8],
        now: Timespec,
    ) -> (r: Result<(), StoreError>)
        requires
            time_ok(now),
            bytes@.len() <= u32::MAX,
        ensures
            edited(*old(tx), *final(tx)),
            forall|h: nat| #[trigger]
                editing(*old(tx), *final(tx), h) ==> match r {
                    Ok(_) => {
                        &&& has_file(old(tx).ns(), ino)
                        &&& final(tx).whole(h + 2)
                        &&& final(tx).ns() == old(tx).ns().insert(
                            ino,
                            extent_put(old(tx).ns()[ino], offset, bytes@, now),
                        )
                    },
                    Err(_) => strained(*old(tx), h + 1) || (*final(tx) == *old(tx) && !has_file(
                        old(tx).ns(),
                        ino,
                    )),
                },
    {
        let ghost was = *tx;
        let ghost p0 = tx.objects.payloads();
        let ghost f = tx.max_fanout;
        proof {
            assert forall|h: nat| #[trigger] editing(was, was, h) implies was.reads(h) by {}
        }
        let (mut inode, root) = match find_file(tx, ino) {
            Ok(v) => v,
            Err(e) => return Err(e),
        };
        let ghost v0 = inode@;
        let bound = extent_bind(tx, root, offset, bytes);
        let ghost t1 = *tx;
        let ghost p1 = tx.objects.payloads();
        proof {
            assert forall|h: nat| #[trigger] editing(was, t1, h) implies {
                &&& file_editing(was, t1, root@, h)
                &&& has_file(was.ns(), ino)
                &&& inode_fits(p0, v0, f, h)
                &&& was.ns()[ino] == item_of(p0, v0, f)
            } by {
                lemma_editing(was, was, t1, h);
                assert(was.reads(h));
            }
        }
        let new_root = match bound {
            Ok(id) => id,
            Err(e) => return Err(e),
        };
        inode.ctime = now;
        let ghost v1 = inode@;
        let done = put_file(tx, ino, inode, new_root);
        proof {
            let t2 = *tx;
            assert forall|h: nat| #[trigger] editing(was, t2, h) implies {
                &&& editing(was, t1, h)
                &&& editing(t1, t2, h + 1)
                &&& t1.ns() == was.ns()
                &&& inode_fits(p1, v1, f, h + 1)
                &&& restored(item_of(p1, v1, f), listing(p1, new_root@, f)) == extent_put(
                    was.ns()[ino],
                    offset,
                    bytes@,
                    now,
                )
            } by {
                lemma_editing(was, t1, t2, h);
                lemma_added(was, t1, h, h + 1);
                lemma_edit_on(was, t1, t2, h, h + 1);
                lemma_fits_grows(p0, p1, v0, f, h, h + 1);
                assert(restored(item_of(p1, v1, f), listing(p1, new_root@, f)) =~= extent_put(
                    was.ns()[ino],
                    offset,
                    bytes@,
                    now,
                ));
            }
        }
        done
    }

    /// Remove an extent (within a transaction).
    pub fn remove_extent_in_tx(tx: &mut Tx<'_, B>, ino: u64, offset: u64) -> (r: Result<
        (),
        StoreError,
    >)
        ensures
            edited(*old(tx), *final(tx)),
            forall|h: nat| #[trigger]
                editing(*old(tx), *final(tx), h) ==> match r {
                    Ok(_) => {
                        &&& has_file(old(tx).ns(), ino)
                        &&& final(tx).whole(h + 1)
                        &&& final(tx).ns() == old(tx).ns().insert(
                            ino,
                            restored(
                                old(tx).ns()[ino],
                                erase(old(tx).ns()[ino].entries, extent_key_of(offset)),
                            ),
                        )
                    },
                    Err(_) => strained(*old(tx), h) || (*final(tx) == *old(tx) && !has_file(
                        old(tx).ns(),
                        ino,
                    )),
                },
    {
        let ghost was = *tx;
        let ghost p0 = tx.objects.payloads();
        let ghost f = tx.max_fanout;
        proof {
            assert forall|h: nat| #[trigger] editing(was, was, h) implies was.reads(h) by {}
        }
        let (inode, root) = match find_file(tx, ino) {
            Ok(v) => v,
            Err(e) => return Err(e),
        };
        let ghost v0 = inode@;
        let bound = extent_unbind(tx, root, offset);
        let ghost t1 = *tx;
        let ghost p1 = tx.objects.payloads();
        proof {
            assert forall|h: nat| #[trigger] editing(was, t1, h) implies {
                &&& file_editing(was, t1, root@, h)
                &&& has_file(was.ns(), ino)
                &&& inode_fits(p0, v0, f, h)
                &&& was.ns()[ino] == item_of(p0, v0, f)
            } by {
                lemma_editing(was, was, t1, h);
                assert(was.reads(h));
            }
        }
        let new_root = match bound {
            Ok(id) => id,
            Err(e) => return Err(e),
        };
        let done = put_file(tx, ino, inode, new_root);
        proof {
            let t2 = *tx;
            assert forall|h: nat| #[trigger] editing(was, t2, h) implies {
                &&& editing(was, t1, h)
                &&& editing(t1, t2, h)
                &&& t1.ns() == was.ns()
                &&& inode_fits(p1, v0, f, h)
                &&& item_of(p1, v0, f) == item_of(p0, v0, f)
            } by {
                lemma_editing(was, t1, t2, h);
                lemma_added(was, t1, h, h);
                lemma_edit_on(was, t1, t2, h, h);
                lemma_fits_grows(p0, p1, v0, f, h, h);
            }
        }
        done
    }
}

// ---------------------------------------------------------------------------
// Cutting a file
// ---------------------------------------------------------------------------

/// Removing the extents from `r` on, one by one from the front, has removed the
/// first `j` of them.
spec fn gap(s: Listing, r: int, j: int) -> Listing {
    s.take(r) + s.skip(r + j)
}

proof fn lemma_gap(s: Listing, r: int, j: int)
    requires
        sorted(s),
        0 <= r,
        0 <= j,
        r + j < s.len(),
    ensures
        sorted(gap(s, r, j)),
        erase(gap(s, r, j), s[r + j].0) == gap(s, r, j + 1),
{
    crate::bytes::lemma_lex_order();
    let g = gap(s, r, j);
    assert forall|a: int, b: int| 0 <= a < b < g.len() implies crate::bytes::lex_lt(
        (#[trigger] g[a]).0,
        (#[trigger] g[b]).0,
    ) by {
        let x = if a < r { a } else { a + j };
        let y = if b < r { b } else { b + j };
        assert(g[a] == s[x]);
        assert(g[b] == s[y]);
    }
    let k = s[r + j].0;
    assert(g[r].0 == k);
    lemma_rank(g, k);
    assert(rank(g, k) == r);
    assert(erase(g, k) =~= gap(s, r, j + 1));
}

/// Drop the extents of an extent tree that start at or beyond `size`.
pub(crate) fn extents_cut<B: IoBackend>(tx: &mut Tx<'_, B>, root: ChunkId, size: u64) -> (r: Result<
    ChunkId,
    StoreError,
>)
    ensures
        objects_added(*old(tx), *final(tx)),
        forall|h: nat| #[trigger]
            file_editing(*old(tx), *final(tx), root@, h) && listing(
                old(tx).objects.payloads(),
                root@,
                old(tx).max_fanout,
            ).len() <= usize::MAX ==> match r {
                Ok(id) => {
                    let s = listing(old(tx).objects.payloads(), root@, old(tx).max_fanout);
                    let p = final(tx).objects.payloads();
                    &&& tree_ok(p, id@, final(tx).max_fanout, h)
                    &&& listing(p, id@, final(tx).max_fanout) == cut(s, size)
                    &&& offsets_ok(listing(p, id@, final(tx).max_fanout))
                },
                Err(_) => strained(*old(tx), h),
            },
{
    let ghost was = *tx;
    let ghost p0 = tx.objects.payloads();
    let ghost f = tx.max_fanout;
    let ghost s = listing(p0, root@, f);
    let ghost r = rank(s, extent_key_of(size));
    let out = extent_tree::scan_all(root, BTREE_ORDER, tx.max_fanout, &tx.objects);
    proof {
        assert forall|h: nat| #[trigger] file_editing(was, was, root@, h) && s.len()
            <= usize::MAX implies (match out {
            Ok(o) => starts_decode(s, o@),
            Err(_) => strained(was, h),
        }) by {
            assert(tree_ok(p0, root@, f, h));
        }
    }
    let all = match out {
        Ok(v) => v,
        Err(e) => return Err(StoreError::index(e)),
    };
    let mut keep = root;
    let mut i: usize = 0;
    proof {
        assert forall|h: nat| #[trigger] file_editing(was, *tx, root@, h) && s.len()
            <= usize::MAX implies cut_at(*tx, s, all@, 0, keep@, size, h) by {
            lemma_tree_sorted(p0, root@, f, h);
            lemma_rank(s, extent_key_of(size));
            assert(gap(s, r, 0) =~= s);
        }
    }
    while i < all.len()
        invariant
            i <= all@.len(),
            was == *old(tx),
            p0 == was.objects.payloads(),
            f == was.max_fanout,
            s == listing(p0, root@, f),
            r == rank(s, extent_key_of(size)),
            objects_added(was, *tx),
            forall|h: nat| #[trigger]
                file_editing(was, *tx, root@, h) && s.len() <= usize::MAX ==> cut_at(
                    *tx,
                    s,
                    all@,
                    i as int,
                    keep@,
                    size,
                    h,
                ),
        decreases all@.len() - i,
    {
        let start: u64 = all[i].0;
        if start >= size {
            let ghost mid = *tx;
            let ghost keep0 = keep@;
            let step = extent_unbind(tx, keep, start);
            proof {
                let now = *tx;
                assert forall|h: nat| #[trigger] file_editing(was, now, root@, h) && s.len()
                    <= usize::MAX implies (match step {
                    Ok(id) => cut_at(now, s, all@, i + 1, id@, size, h),
                    Err(_) => strained(was, h),
                }) by {
                    lemma_clash_free_subset(mid.objects.payloads(), now.objects.payloads());
                    assert(file_editing(was, mid, root@, h));
                    assert(file_editing(mid, now, keep0, h));
                    lemma_cut_step(mid, s, all@, i as int, keep0, size, h);
                }
            }
            keep = match step {
                Ok(id) => id,
                Err(e) => return Err(e),
            };
        } else {
            proof {
                assert forall|h: nat| #[trigger] file_editing(was, *tx, root@, h) && s.len()
                    <= usize::MAX implies cut_at(*tx, s, all@, i + 1, keep@, size, h) by {
                    lemma_cut_skip(*tx, s, all@, i as int, keep@, size, h);
                }
            }
        }
        i += 1;
    }
    proof {
        assert forall|h: nat| #[trigger] file_editing(was, *tx, root@, h) && s.len()
            <= usize::MAX implies listing(tx.objects.payloads(), keep@, f) == cut(s, size) by {
            assert(cut_at(*tx, s, all@, i as int, keep@, size, h));
            lemma_rank(s, extent_key_of(size));
            assert(gap(s, r, s.len() - r) =~= s.take(r));
        }
    }
    Ok(keep)
}

/// Where the cutting loop is after `i` extents: those at or beyond `size` among
/// them are gone.
spec fn cut_at<B: IoBackend>(
    tx: Tx<B>,
    s: Listing,
    all: Seq<(u64, Vec<u8>)>,
    i: int,
    keep: Seq<u8>,
    size: u64,
    h: nat,
) -> bool {
    let r = rank(s, extent_key_of(size));
    let p = tx.objects.payloads();
    &&& sorted(s)
    &&& starts_decode(s, all)
    &&& tree_ok(p, keep, tx.max_fanout, h)
    &&& listing(p, keep, tx.max_fanout) == gap(
        s,
        r,
        if i <= r {
            0
        } else {
            i - r
        },
    )
    &&& offsets_ok(listing(p, keep, tx.max_fanout))
}

proof fn lemma_cut_step<B: IoBackend>(
    tx: Tx<B>,
    s: Listing,
    all: Seq<(u64, Vec<u8>)>,
    i: int,
    keep: Seq<u8>,
    size: u64,
    h: nat,
)
    requires
        cut_at(tx, s, all, i, keep, size, h),
        0 <= i < all.len(),
        all[i].0 >= size,
    ensures
        rank(s, extent_key_of(size)) <= i,
        erase(
            gap(s, rank(s, extent_key_of(size)), i - rank(s, extent_key_of(size))),
            extent_key_of(all[i].0),
        ) == gap(s, rank(s, extent_key_of(size)), i + 1 - rank(s, extent_key_of(size))),
{
    let r = rank(s, extent_key_of(size));
    lemma_rank(s, extent_key_of(size));
    extent_key_order(all[i].0, size);
    assert(s[i].0 == extent_key_of(all[i].0));
    if i < r {
        assert(crate::bytes::lex_lt(s[i].0, extent_key_of(size)));
    }
    lemma_gap(s, r, i - r);
}

proof fn lemma_cut_skip<B: IoBackend>(
    tx: Tx<B>,
    s: Listing,
    all: Seq<(u64, Vec<u8>)>,
    i: int,
    keep: Seq<u8>,
    size: u64,
    h: nat,
)
    requires
        cut_at(tx, s, all, i, keep, size, h),
        0 <= i < all.len(),
        all[i].0 < size,
    ensures
        i < rank(s, extent_key_of(size)),
{
    let r = rank(s, extent_key_of(size));
    lemma_rank(s, extent_key_of(size));
    extent_key_order(all[i].0, size);
    assert(s[i].0 == extent_key_of(all[i].0));
}

// ---------------------------------------------------------------------------
// File regions
// ---------------------------------------------------------------------------

/// From `was` to `now` objects were added, and the inode table and the chunk
/// index replaced.
pub open spec fn data_edited<B: IoBackend>(was: Tx<B>, now: Tx<B>) -> bool {
    &&& grown(&was.objects, &now.objects)
    &&& now.max_fanout == was.max_fanout
    &&& now.root == (Root {
        inode_index_root: now.root.inode_index_root,
        chunk_index_root: now.root.chunk_index_root,
        ..was.root
    })
}

/// What an edit of file data starts from: a whole namespace and a readable
/// chunk index.
pub open spec fn data_editing<B: IoBackend>(was: Tx<B>, now: Tx<B>, h: nat) -> bool {
    editing(was, now, h) && was.chunks_ok(h)
}

/// The bytes of the descriptors fit the format's length prefix.
pub open spec fn updates_fit(us: Seq<ExtentUpdate>) -> bool {
    forall|i: int| 0 <= i < us.len() ==> (#[trigger] us[i]).bytes@.len() <= u32::MAX
}

/// The item after the updates, in order.
pub open spec fn extents_put(it: Item, us: Seq<ExtentUpdate>, now: Timespec) -> Item
    decreases us.len(),
{
    if us.len() == 0 {
        it
    } else {
        extent_put(
            extents_put(it, us.drop_last(), now),
            us.last().offset,
            us.last().bytes@,
            now,
        )
    }
}

/// The chunk index after the updates, in order.
pub open spec fn chunks_put(s: Listing, us: Seq<ExtentUpdate>) -> Listing
    decreases us.len(),
{
    if us.len() == 0 {
        s
    } else {
        chunk_put(
            chunks_put(s, us.drop_last()),
            us.last().content_id@,
            us.last().descriptor,
            us.last().bytes@,
        )
    }
}

/// The feature bits that an update needs.
pub open spec fn mask_for(u: ExtentUpdate) -> u64 {
    if self_alias(u.descriptor.form, u.content_id@) {
        0
    } else {
        mask_of(u.descriptor.form)
    }
}

/// The feature bits that the updates need.
pub open spec fn masks(us: Seq<ExtentUpdate>) -> u64
    decreases us.len(),
{
    if us.len() == 0 {
        0
    } else {
        masks(us.drop_last()) | mask_for(us.last())
    }
}

/// The item at another size: no extent of a file starts at or beyond it.
pub open spec fn resized(it: Item, size: u64, now: Timespec) -> Item {
    Item {
        inode: InodeView { size, mtime: now, ..it.inode },
        entries: if it.inode.data is File {
            cut(it.entries, size)
        } else {
            it.entries
        },
        xattrs: it.xattrs,
    }
}

/// The payloads hold every object of the update.
pub open spec fn objects_in(p: Set<Seq<u8>>, objects: Seq<ObjectRecord>) -> bool {
    forall|i: int| 0 <= i < objects.len() ==> p.contains((#[trigger] objects[i]).payload@)
}

/// The payloads hold the objects of every update.
pub open spec fn all_objects_in(p: Set<Seq<u8>>, us: Seq<ExtentUpdate>) -> bool {
    forall|i: int| 0 <= i < us.len() ==> objects_in(p, (#[trigger] us[i]).objects@)
}

/// Stage the new objects of an update. Data objects carry the logical length.
fn stage_objects<B: IoBackend>(tx: &mut Tx<'_, B>, objects: &Vec<ObjectRecord>, len: u64)
    ensures
        objects_added(*old(tx), *final(tx)),
        objects_in(final(tx).objects.payloads(), objects@),
{
    let ghost was = *tx;
    let mut i: usize = 0;
    while i < objects.len()
        invariant
            i <= objects@.len(),
            was == *old(tx),
            objects_added(was, *tx),
            forall|j: int|
                0 <= j < i ==> tx.objects.payloads().contains((#[trigger] objects@[j]).payload@),
        decreases objects@.len() - i,
    {
        let o = &objects[i];
        let tag = match o.kind {
            ObjectKind::Data => RecordTag::Data,
            ObjectKind::Model => RecordTag::Model,
        };
        let ml = match o.kind {
            ObjectKind::Data => Some(len),
            ObjectKind::Model => None,
        };
        put_object(tx, tag, copy_bytes(&o.payload), ml);
        i += 1;
    }
}

pub(crate) proof fn lemma_chunks_kept<B: IoBackend>(was: Tx<B>, now: Tx<B>, h: nat, k: nat)
    requires
        grown(&was.objects, &now.objects),
        now.max_fanout == was.max_fanout,
        now.root.chunk_index_root == was.root.chunk_index_root,
        clash_free(now.objects.payloads()),
        was.chunks_ok(h),
        h <= k,
    ensures
        now.chunks_ok(k),
        now.chunks() == was.chunks(),
{
    lemma_tree_grows(
        was.objects.payloads(),
        now.objects.payloads(),
        was.root.chunk_index_root@,
        was.max_fanout,
        h,
        k,
    );
}

pub(crate) proof fn lemma_ns_kept<B: IoBackend>(was: Tx<B>, now: Tx<B>, h: nat, k: nat)
    requires
        grown(&was.objects, &now.objects),
        now.max_fanout == was.max_fanout,
        now.root.inode_index_root == was.root.inode_index_root,
        clash_free(now.objects.payloads()),
        was.whole(h),
        h <= k,
    ensures
        now.whole(k),
        now.ns() == was.ns(),
{
    lemma_fs_grows(
        was.objects.payloads(),
        now.objects.payloads(),
        was.root.inode_index_root@,
        was.max_fanout,
        h,
        k,
    );
}

/// Apply one extent update: its objects, its chunk index entry, its extent.
#[verifier::rlimit(60)]
#[verifier::spinoff_prover]
pub(crate) fn apply_update<B: IoBackend>(tx: &mut Tx<'_, B>, ino: u64, u: &ExtentUpdate, now: Timespec) -> (r:
    Result<u64, StoreError>)
    requires
        time_ok(now),
        u.bytes@.len() <= u32::MAX,
    ensures
        data_edited(*old(tx), *final(tx)),
        objects_in(final(tx).objects.payloads(), u.objects@),
        r matches Ok(mask) ==> mask == mask_for(*u),
        forall|h: nat| #[trigger]
            data_editing(*old(tx), *final(tx), h) ==> match r {
                Ok(_) => {
                    &&& has_file(old(tx).ns(), ino)
                    &&& final(tx).whole(h + 2)
                    &&& final(tx).ns() == old(tx).ns().insert(
                        ino,
                        extent_put(old(tx).ns()[ino], u.offset, u.bytes@, now),
                    )
                    &&& final(tx).chunks_ok(h + 2)
                    &&& final(tx).chunks() == chunk_put(
                        old(tx).chunks(),
                        u.content_id@,
                        u.descriptor,
                        u.bytes@,
                    )
                },
                Err(_) => strained(*old(tx), h + 1) || !has_file(old(tx).ns(), ino),
            },
{
    let ghost was = *tx;
    stage_objects(tx, &u.objects, u.descriptor.len);
    let ghost t1 = *tx;
    let put = Store::put_chunk_in_tx(tx, &u.content_id, &u.descriptor, &u.bytes);
    let ghost t2 = *tx;
    proof {
        assert forall|h: nat| #[trigger] data_editing(was, t2, h) implies chunks_editing(
            t1,
            t2,
            h,
        ) && t1.chunks() == was.chunks() by {
            lemma_clash_free_subset(t1.objects.payloads(), t2.objects.payloads());
            lemma_chunks_kept(was, t1, h, h);
        }
    }
    let mask: u64 = match put {
        Ok(m) => m,
        Err(e) => return Err(e),
    };
    let done = Store::put_extent_in_tx(tx, ino, u.offset, &u.bytes, now);
    proof {
        let t3 = *tx;
        assert forall|h: nat| #[trigger] data_editing(was, t3, h) implies {
            &&& data_editing(was, t2, h)
            &&& editing(t2, t3, h)
            &&& t2.ns() == was.ns()
            &&& t3.chunks() == t2.chunks()
            &&& t3.chunks_ok(h + 2)
        } by {
            lemma_clash_free_subset(t1.objects.payloads(), t3.objects.payloads());
            lemma_clash_free_subset(t2.objects.payloads(), t3.objects.payloads());
            lemma_ns_kept(was, t2, h, h);
            lemma_edit_on(was, t2, t3, h, h);
            assert(data_editing(was, t2, h));
            assert(chunks_editing(t1, t2, h));
            assert(t2.objects.may_fail() == was.objects.may_fail());
            if put is Ok && t2.chunks_ok(h + 1) {
                lemma_chunks_kept(t2, t3, h + 1, h + 2);
            }
        }
    }
    match done {
        Ok(_) => Ok(mask),
        Err(e) => Err(e),
    }
}

/// The namespace after the updates of a file and its new size.
pub open spec fn region_written(
    n: Namespace,
    ino: u64,
    us: Seq<ExtentUpdate>,
    new_size: Option<u64>,
    now: Timespec,
) -> Namespace {
    let n1 = if us.len() == 0 {
        n
    } else {
        n.insert(ino, extents_put(n[ino], us, now))
    };
    match new_size {
        None => n1,
        Some(size) => n1.insert(ino, resized(n1[ino], size, now)),
    }
}

/// The updates cannot be applied: there is no such file.
pub open spec fn region_refused(
    n: Namespace,
    ino: u64,
    us: Seq<ExtentUpdate>,
    new_size: Option<u64>,
) -> bool {
    ||| us.len() > 0 && !has_file(n, ino)
    ||| new_size is Some && !n.contains_key(ino)
}

/// Write a file inode without the extents at or beyond `size`.
#[verifier::spinoff_prover]
pub(crate) fn put_cut<B: IoBackend>(
    tx: &mut Tx<'_, B>,
    ino: u64,
    inode: Inode,
    root: ChunkId,
    size: u64,
) -> (r: Result<(), StoreError>)
    requires
        inode.data is File,
        root@ == data_root(inode@.data),
    ensures
        edited(*old(tx), *final(tx)),
        forall|h: nat| #[trigger]
            editing(*old(tx), *final(tx), h) && inode_fits(
                old(tx).objects.payloads(),
                inode@,
                old(tx).max_fanout,
                h,
            ) && item_of(
                old(tx).objects.payloads(),
                inode@,
                old(tx).max_fanout,
            ).entries.len() <= usize::MAX ==> match r {
                Ok(_) => {
                    let it = item_of(old(tx).objects.payloads(), inode@, old(tx).max_fanout);
                    &&& final(tx).whole(h + 1)
                    &&& final(tx).ns() == old(tx).ns().insert(
                        ino,
                        restored(it, cut(it.entries, size)),
                    )
                },
                Err(_) => strained(*old(tx), h),
            },
{
    let ghost was = *tx;
    let ghost p0 = tx.objects.payloads();
    let ghost f = tx.max_fanout;
    let ghost v = inode@;
    let trimmed = extents_cut(tx, root, size);
    let ghost t1 = *tx;
    let ghost p1 = tx.objects.payloads();
    proof {
        assert forall|h: nat| #[trigger] editing(was, t1, h) && inode_fits(
            p0,
            v,
            f,
            h,
        ) implies file_editing(was, t1, root@, h) by {}
    }
    let keep = match trimmed {
        Ok(id) => id,
        Err(e) => return Err(e),
    };
    let done = put_file(tx, ino, inode, keep);
    proof {
        let t2 = *tx;
        assert forall|h: nat| #[trigger] editing(was, t2, h) && inode_fits(p0, v, f, h) implies {
            &&& editing(was, t1, h)
            &&& editing(t1, t2, h)
            &&& t1.ns() == was.ns()
            &&& inode_fits(p1, v, f, h)
            &&& item_of(p1, v, f) == item_of(p0, v, f)
        } by {
            lemma_editing(was, t1, t2, h);
            lemma_added(was, t1, h, h);
            lemma_edit_on(was, t1, t2, h, h);
            lemma_fits_grows(p0, p1, v, f, h, h);
        }
    }
    done
}

/// Set the size of an inode; a file loses the extents at or beyond it.
#[verifier::spinoff_prover]
fn set_size<B: IoBackend>(tx: &mut Tx<'_, B>, ino: u64, size: u64, now: Timespec) -> (r: Result<
    (),
    StoreError,
>)
    requires
        time_ok(now),
    ensures
        edited(*old(tx), *final(tx)),
        forall|h: nat| #[trigger]
            editing(*old(tx), *final(tx), h) && (old(tx).ns().contains_key(ino)
                ==> old(tx).ns()[ino].entries.len() <= usize::MAX) ==> match r {
                Ok(_) => {
                    &&& old(tx).ns().contains_key(ino)
                    &&& final(tx).whole(h + 1)
                    &&& final(tx).ns() == old(tx).ns().insert(
                        ino,
                        resized(old(tx).ns()[ino], size, now),
                    )
                },
                Err(_) => strained(*old(tx), h) || !old(tx).ns().contains_key(ino),
            },
{
    let ghost was = *tx;
    let ghost p0 = tx.objects.payloads();
    let ghost f = tx.max_fanout;
    proof {
        assert forall|h: nat| #[trigger] editing(was, was, h) implies was.reads(h) by {}
    }
    let mut inode = match Store::inode_for_tx(tx, ino) {
        Ok(v) => v,
        Err(e) => return Err(e),
    };
    let ghost v0 = inode@;
    inode.size = size;
    inode.mtime = now;
    let ghost v1 = inode@;
    let root = match &inode.data {
        InodeData::File { extent_root } => Some(*extent_root),
        _ => None,
    };
    let done = match root {
        Some(root) => put_cut(tx, ino, inode, root, size),
        None => Store::put_inode_in_tx(tx, ino, &inode),
    };
    proof {
        let t2 = *tx;
        assert forall|h: nat| #[trigger] editing(was, t2, h) implies {
            &&& was.ns().contains_key(ino)
            &&& inode_fits(p0, v1, f, h)
            &&& was.ns()[ino].entries == item_of(p0, v1, f).entries
            &&& resized(was.ns()[ino], size, now) == if root is Some {
                restored(item_of(p0, v1, f), cut(item_of(p0, v1, f).entries, size))
            } else {
                item_of(p0, v1, f)
            }
        } by {
            lemma_editing(was, was, t2, h);
            assert(was.reads(h));
            assert(was.ns()[ino] == item_of(p0, v0, f));
            assert(resized(was.ns()[ino], size, now) =~= if root is Some {
                restored(item_of(p0, v1, f), cut(item_of(p0, v1, f).entries, size))
            } else {
                item_of(p0, v1, f)
            });
        }
    }
    done
}

impl<B: IoBackend> Store<B> {
    /// Apply a set of extent updates of one file, and its new size: what
    /// [`Store::commit_file_extents`] does inside its transaction. Returns the
    /// feature bits that the descriptors need.
    #[verifier::rlimit(80)]
    #[verifier::spinoff_prover]
    pub fn file_extents_in_tx(
        tx: &mut Tx<'_, B>,
        ino: u64,
        updates: &Vec<ExtentUpdate>,
        new_size: Option<u64>,
        now: Timespec,
    ) -> (r: Result<u64, StoreError>)
        requires
            time_ok(now),
            updates_fit(updates@),
        ensures
            data_edited(*old(tx), *final(tx)),
            r is Ok ==> all_objects_in(final(tx).objects.payloads(), updates@),
            forall|h: nat| #[trigger]
                data_editing(*old(tx), *final(tx), h) 
                    && (old(tx).ns().contains_key(ino) ==> extents_put(
                    old(tx).ns()[ino],
                    updates@,
                    now,
                ).entries.len() <= usize::MAX) ==> match r {
                    Ok(mask) => {
                        &&& !region_refused(old(tx).ns(), ino, updates@, new_size)
                        &&& mask == masks(updates@)
                        &&& final(tx).whole(h + 2 * updates@.len() + 1)
                        &&& final(tx).ns() == region_written(
                            old(tx).ns(),
                            ino,
                            updates@,
                            new_size,
                            now,
                        )
                        &&& final(tx).chunks_ok(h + 2 * updates@.len())
                        &&& final(tx).chunks() == chunks_put(old(tx).chunks(), updates@)
                    },
                    Err(_) => strained(*old(tx), h + 2 * updates@.len()) || region_refused(
                        old(tx).ns(),
                        ino,
                        updates@,
                        new_size,
                    ),
                },
    {
        let ghost was = *tx;
        let ghost n0 = tx.ns();
        let ghost us = updates@;
        let mut mask: u64 = 0;
        let mut i: usize = 0;
        assert(us.take(0) =~= Seq::empty());
        while i < updates.len()
            invariant
                i <= updates@.len(),
                us == updates@,
                updates_fit(us),
                time_ok(now),
                was == *old(tx),
                n0 == was.ns(),
                data_edited(was, *tx),
                all_objects_in(tx.objects.payloads(), us.take(i as int)),
                mask == masks(us.take(i as int)),
                forall|h: nat| #[trigger]
                    data_editing(was, *tx, h)  ==> {
                        &&& i > 0 ==> has_file(n0, ino)
                        &&& tx.whole(h + 2 * i as nat)
                        &&& tx.ns() == region_written(n0, ino, us.take(i as int), None, now)
                        &&& tx.chunks_ok(h + 2 * i as nat)
                        &&& tx.chunks() == chunks_put(was.chunks(), us.take(i as int))
                    },
            decreases updates@.len() - i,
        {
            let ghost mid = *tx;
            let ghost done = us.take(i as int);
            let out = apply_update(tx, ino, &updates[i], now);
            let ghost next = us.take(i + 1);
            proof {
                assert(next.drop_last() =~= done);
                assert(next.last() == us[i as int]);
                let now_tx = *tx;
                assert forall|h: nat| #[trigger] data_editing(was, now_tx, h)  implies {
                    &&& data_editing(mid, now_tx, h + 2 * i as nat)
                    &&& mid.ns() == region_written(n0, ino, done, None, now)
                    &&& mid.chunks() == chunks_put(was.chunks(), done)
                    &&& i > 0 ==> has_file(n0, ino)
                    &&& has_file(mid.ns(), ino) == has_file(n0, ino)
                } by {
                    lemma_clash_free_subset(mid.objects.payloads(), now_tx.objects.payloads());
                    assert(data_editing(was, mid, h));
                    lemma_kind_kept(n0[ino], done, now);
                }
            }
            match out {
                Ok(m) => {
                    mask = mask | m;
                    proof {
                        let now_tx = *tx;
                        assert(all_objects_in(now_tx.objects.payloads(), next)) by {
                            assert forall|j: int| 0 <= j < next.len() implies objects_in(
                                now_tx.objects.payloads(),
                                (#[trigger] next[j]).objects@,
                            ) by {
                                if j < i {
                                    assert(next[j] == done[j]);
                                    assert(objects_in(mid.objects.payloads(), done[j].objects@));
                                }
                            }
                        }
                        assert forall|h: nat| #[trigger] data_editing(was, now_tx, h)  implies now_tx.ns() == region_written(
                            n0,
                            ino,
                            next,
                            None,
                            now,
                        ) && now_tx.whole(h + 2 * (i + 1) as nat) && now_tx.chunks_ok(
                            h + 2 * (i + 1) as nat,
                        ) by {
                            assert(data_editing(mid, now_tx, h + 2 * i as nat));
                            let it = if i == 0 {
                                n0[ino]
                            } else {
                                extents_put(n0[ino], done, now)
                            };
                            assert(mid.ns()[ino] == it);
                            assert(now_tx.ns() =~= region_written(n0, ino, next, None, now));
                        }
                    }
                },
                Err(e) => {
                    return Err(e);
                },
            }
            i += 1;
        }
        proof {
            assert(us.take(i as int) =~= us);
        }
        let ghost mid = *tx;
        match new_size {
            None => {
                proof {
                    assert forall|h: nat| #[trigger] data_editing(was, mid, h)  implies mid.whole(h + 2 * us.len() + 1) by {
                        lemma_ns_kept(mid, mid, h + 2 * us.len(), h + 2 * us.len() + 1);
                    }
                }
                Ok(mask)
            },
            Some(size) => {
                let out = set_size(tx, ino, size, now);
                proof {
                    let fin = *tx;
                    assert forall|h: nat| #[trigger] data_editing(was, fin, h)  implies {
                        &&& editing(mid, fin, h + 2 * us.len())
                        &&& mid.ns() == region_written(n0, ino, us, None, now)
                        &&& mid.chunks() == chunks_put(was.chunks(), us)
                        &&& fin.chunks() == mid.chunks()
                        &&& fin.chunks_ok(h + 2 * us.len())
                        &&& us.len() > 0 ==> has_file(n0, ino)
                        &&& mid.ns().contains_key(ino) == n0.contains_key(ino)
                        &&& mid.ns().contains_key(ino) ==> mid.ns()[ino] == extents_put(
                            n0[ino],
                            us,
                            now,
                        )
                    } by {
                        lemma_clash_free_subset(mid.objects.payloads(), fin.objects.payloads());
                        assert(data_editing(was, mid, h));
                        lemma_chunks_kept(mid, fin, h + 2 * us.len(), h + 2 * us.len());
                    }
                    assert(all_objects_in(fin.objects.payloads(), us)) by {
                        assert forall|j: int| 0 <= j < us.len() implies objects_in(
                            fin.objects.payloads(),
                            (#[trigger] us[j]).objects@,
                        ) by {
                            assert(objects_in(mid.objects.payloads(), us[j].objects@));
                        }
                    }
                }
                match out {
                    Ok(_) => Ok(mask),
                    Err(e) => Err(e),
                }
            },
        }
    }
}

proof fn lemma_kind_kept(it: Item, us: Seq<ExtentUpdate>, now: Timespec)
    ensures
        extents_put(it, us, now).inode.data == it.inode.data,
    decreases us.len(),
{
    if us.len() > 0 {
        lemma_kind_kept(it, us.drop_last(), now);
    }
}

// ---------------------------------------------------------------------------
// Truncation
// ---------------------------------------------------------------------------

/// The trailing extent that a truncation to `new_size` has to shorten: the one
/// that covers the last byte to stay, where it reaches beyond it; and the
/// length to keep of it.
pub open spec fn trim_of(covering: Option<(u64, u64)>, new_size: u64) -> Option<(u64, u64)> {
    match covering {
        Some((start, len)) => if start + len > new_size {
            Some((start, (new_size - start) as u64))
        } else {
            None
        },
        None => None,
    }
}

/// The offset that a key of an extent tree stands for.
pub open spec fn offset_of(key: Seq<u8>) -> u64 {
    choose|o: u64| extent_key_of(o) == key
}

/// What a truncation of these extents to `new_size` has to shorten: where the extent
/// starts, and how much of it stays. Nothing is said where its descriptor does not
/// decode.
pub open spec fn trim_due<F: Fn(&[u8]) -> Option<Descriptor>>(
    s: Listing,
    new_size: u64,
    decode: F,
) -> Option<Option<(u64, u64)>> {
    if new_size == 0 {
        Some(None)
    } else {
        match at_or_below(s, extent_key_of((new_size - 1) as u64)) {
            None => Some(None),
            Some(e) => match decoded(decode, e.1) {
                Some(d) => Some(trim_of(Some((offset_of(e.0), d.len)), new_size)),
                None => None,
            },
        }
    }
}

/// The shortened extent is there exactly where one is due: at its start, and of the
/// length that stays.
#[verifier::opaque]
pub open spec fn trim_fits<F: Fn(&[u8]) -> Option<Descriptor>>(
    s: Listing,
    new_size: u64,
    decode: F,
    trim: Option<ExtentUpdate>,
) -> bool {
    match trim_due(s, new_size, decode) {
        None => false,
        Some(None) => trim is None,
        Some(Some((start, keep))) => trim matches Some(u) && u.offset == start && u.descriptor.len
            == keep,
    }
}

/// What a truncation of the extent tree at `root` has to shorten.
pub(crate) fn find_trim<B: IoBackend, F: Fn(&[u8]) -> Option<Descriptor>>(
    tx: &Tx<'_, B>,
    root: ChunkId,
    new_size: u64,
    decode: &F,
) -> (r: Result<Option<(u64, u64)>, StoreError>)
    requires
        steady(*decode),
    ensures
        forall|h: nat| #[trigger]
            file_editing(*tx, *tx, root@, h) ==> {
                let due = trim_due(
                    listing(tx.objects.payloads(), root@, tx.max_fanout),
                    new_size,
                    *decode,
                );
                match r {
                    Ok(o) => due == Some(o),
                    Err(_) => strained(*tx, h) || due is None,
                }
            },
{
    if new_size == 0 {
        return Ok(None);
    }
    let found = extent_tree::covering(
        root,
        new_size - 1,
        BTREE_ORDER,
        tx.max_fanout,
        &tx.objects,
    );
    let ghost s = listing(tx.objects.payloads(), root@, tx.max_fanout);
    let ghost k = extent_key_of((new_size - 1) as u64);
    proof {
        assert forall|h: nat| #[trigger] file_editing(*tx, *tx, root@, h) implies (match found {
            Ok(None) => at_or_below(s, k) is None,
            Ok(Some(e)) => at_or_below(s, k) == Some((extent_key_of(e.0), e.1@)) && e.0 < new_size
                && offset_of(extent_key_of(e.0)) == e.0,
            Err(_) => strained(*tx, h),
        }) by {
            lemma_tree_sorted(tx.objects.payloads(), root@, tx.max_fanout, h);
            assert(lists(tx.objects.payloads(), root@, BTREE_ORDER, tx.max_fanout, h, s));
            lemma_rank(s, k);
            if let Ok(Some(e)) = found {
                let o = offset_of(extent_key_of(e.0));
                assert(extent_key_of(o) == extent_key_of(e.0));
                extent_key_order(o, e.0);
            }
        }
    }
    match found {
        Ok(None) => Ok(None),
        Ok(Some((start, bytes))) => {
            match decode_with(decode, &bytes) {
                None => Err(StoreError::Descriptor("invalid descriptor".to_string())),
                Some(d) => match plan_trim(start, d.len, new_size) {
                    Some(keep) => Ok(Some((start, keep))),
                    None => Ok(None),
                },
            }
        },
        Err(e) => Err(StoreError::index(e)),
    }
}

fn same_trim(due: Option<(u64, u64)>, trim: Option<&ExtentUpdate>) -> (r: bool)
    ensures
        r == match due {
            None => trim is None,
            Some((start, keep)) => opt_update(trim) matches Some(u) && u.offset == start
                && u.descriptor.len == keep,
        },
{
    match (due, trim) {
        (None, None) => true,
        (Some((start, keep)), Some(u)) => u.offset == start && u.descriptor.len == keep,
        _ => false,
    }
}

/// The extents after a truncation.
pub open spec fn extents_truncated(
    s: Listing,
    new_size: u64,
    trim: Option<ExtentUpdate>,
) -> Listing {
    match trim {
        None => cut(s, new_size),
        Some(u) => upsert(cut(s, new_size), extent_key_of(u.offset), u.bytes@),
    }
}

/// The file after a truncation.
pub open spec fn truncated(
    it: Item,
    new_size: u64,
    trim: Option<ExtentUpdate>,
    now: Timespec,
) -> Item {
    Item {
        inode: InodeView { size: new_size, mtime: now, ctime: now, ..it.inode },
        entries: extents_truncated(it.entries, new_size, trim),
        xattrs: it.xattrs,
    }
}

pub open spec fn opt_update(u: Option<&ExtentUpdate>) -> Option<ExtentUpdate> {
    match u {
        Some(u) => Some(*u),
        None => None,
    }
}

/// A truncation is refused: there is no such file, or the shortened extent does not fit.
pub open spec fn truncate_refused<F: Fn(&[u8]) -> Option<Descriptor>>(
    n: Namespace,
    ino: u64,
    new_size: u64,
    decode: F,
    trim: Option<ExtentUpdate>,
) -> bool {
    !has_file(n, ino) || !trim_fits(n[ino].entries, new_size, decode, trim)
}

/// The chunk index after a truncation.
pub open spec fn trim_chunks(s: Listing, trim: Option<ExtentUpdate>) -> Listing {
    match trim {
        None => s,
        Some(u) => chunk_put(s, u.content_id@, u.descriptor, u.bytes@),
    }
}

/// Stage the shortened trailing extent of a truncation.
#[verifier::spinoff_prover]
fn stage_trim<B: IoBackend>(tx: &mut Tx<'_, B>, keep: ChunkId, u: &ExtentUpdate) -> (r: Result<
    (ChunkId, u64),
    StoreError,
>)
    requires
        u.bytes@.len() <= u32::MAX,
    ensures
        chunks_edited(*old(tx), *final(tx)),
        objects_in(final(tx).objects.payloads(), u.objects@),
        r matches Ok(o) ==> o.1 == mask_for(*u),
        forall|h: nat| #[trigger]
            chunks_editing(*old(tx), *final(tx), h) && file_editing(
                *old(tx),
                *final(tx),
                keep@,
                h,
            ) ==> match r {
                Ok(o) => {
                    let p = final(tx).objects.payloads();
                    &&& final(tx).chunks_ok(h + 1)
                    &&& final(tx).chunks() == chunk_put(
                        old(tx).chunks(),
                        u.content_id@,
                        u.descriptor,
                        u.bytes@,
                    )
                    &&& tree_ok(p, o.0@, final(tx).max_fanout, h + 1)
                    &&& listing(p, o.0@, final(tx).max_fanout) == upsert(
                        listing(old(tx).objects.payloads(), keep@, old(tx).max_fanout),
                        extent_key_of(u.offset),
                        u.bytes@,
                    )
                    &&& offsets_ok(listing(p, o.0@, final(tx).max_fanout))
                },
                Err(_) => strained(*old(tx), h),
            },
{
    let ghost was = *tx;
    stage_objects(tx, &u.objects, u.descriptor.len);
    let ghost t1 = *tx;
    let put = Store::put_chunk_in_tx(tx, &u.content_id, &u.descriptor, &u.bytes);
    let ghost t2 = *tx;
    proof {
        assert forall|h: nat| #[trigger] chunks_editing(was, t2, h) implies chunks_editing(
            t1,
            t2,
            h,
        ) && t1.chunks() == was.chunks() by {
            lemma_clash_free_subset(t1.objects.payloads(), t2.objects.payloads());
            lemma_chunks_kept(was, t1, h, h);
        }
    }
    let mask: u64 = match put {
        Ok(m) => m,
        Err(e) => return Err(e),
    };
    let bound = extent_bind(tx, keep, u.offset, &u.bytes);
    proof {
        let t3 = *tx;
        let p0 = was.objects.payloads();
        assert forall|h: nat| #[trigger] chunks_editing(was, t3, h) && file_editing(
            was,
            t3,
            keep@,
            h,
        ) implies {
            &&& file_editing(t2, t3, keep@, h)
            &&& listing(t2.objects.payloads(), keep@, was.max_fanout) == listing(
                p0,
                keep@,
                was.max_fanout,
            )
            &&& t3.chunks_ok(h + 1)
            &&& t3.chunks() == chunk_put(
                was.chunks(),
                u.content_id@,
                u.descriptor,
                u.bytes@,
            )
        } by {
            lemma_clash_free_subset(t2.objects.payloads(), t3.objects.payloads());
            assert(chunks_editing(was, t2, h));
            assert(chunks_editing(t1, t2, h));
            lemma_tree_grows(p0, t2.objects.payloads(), keep@, was.max_fanout, h, h);
            lemma_chunks_kept(t2, t3, h + 1, h + 1);
        }
    }
    match bound {
        Ok(id) => Ok((id, mask)),
        Err(e) => Err(e),
    }
}

/// Truncate an extent tree.
#[verifier::spinoff_prover]
fn truncate_tree<B: IoBackend>(
    tx: &mut Tx<'_, B>,
    root: ChunkId,
    new_size: u64,
    trim: Option<&ExtentUpdate>,
) -> (r: Result<(ChunkId, u64), StoreError>)
    requires
        trim matches Some(u) ==> u.bytes@.len() <= u32::MAX,
    ensures
        chunks_edited(*old(tx), *final(tx)),
        r is Ok ==> (trim matches Some(u) ==> objects_in(
            final(tx).objects.payloads(),
            u.objects@,
        )),
        r matches Ok(o) ==> o.1 == match trim {
            Some(u) => mask_for(*u),
            None => 0,
        },
        forall|h: nat| #[trigger]
            chunks_editing(*old(tx), *final(tx), h) && file_editing(
                *old(tx),
                *final(tx),
                root@,
                h,
            ) && listing(old(tx).objects.payloads(), root@, old(tx).max_fanout).len()
                <= usize::MAX ==> match r {
                Ok(o) => {
                    let p = final(tx).objects.payloads();
                    &&& final(tx).chunks_ok(h + 1)
                    &&& final(tx).chunks() == trim_chunks(old(tx).chunks(), opt_update(trim))
                    &&& tree_ok(p, o.0@, final(tx).max_fanout, h + 1)
                    &&& listing(p, o.0@, final(tx).max_fanout) == extents_truncated(
                        listing(old(tx).objects.payloads(), root@, old(tx).max_fanout),
                        new_size,
                        opt_update(trim),
                    )
                    &&& offsets_ok(listing(p, o.0@, final(tx).max_fanout))
                },
                Err(_) => strained(*old(tx), h),
            },
{
    let ghost was = *tx;
    let ghost p0 = tx.objects.payloads();
    let ghost f = tx.max_fanout;
    let ghost s0 = listing(p0, root@, f);
    let trimmed = if new_size > 0 {
        extents_cut(tx, root, new_size)
    } else {
        Ok(ChunkId::zero())
    };
    let ghost t1 = *tx;
    let ghost p1 = tx.objects.payloads();
    let keep = match trimmed {
        Ok(id) => id,
        Err(e) => return Err(e),
    };
    proof {
        assert forall|h: nat| #[trigger] chunks_editing(was, t1, h) && file_editing(
            was,
            t1,
            root@,
            h,
        ) && s0.len() <= usize::MAX implies {
            &&& file_editing(t1, t1, keep@, h)
            &&& listing(p1, keep@, f) == cut(s0, new_size)
            &&& t1.chunks_ok(h + 1)
            &&& t1.chunks_ok(h)
            &&& t1.chunks() == was.chunks()
            &&& tree_ok(p1, keep@, f, h + 1)
        } by {
            if new_size == 0 {
                lemma_tree_sorted(p0, root@, f, h);
                lemma_cut_zero(s0);
                assert(listing(p1, zero_id(), f) =~= cut(s0, 0));
            }
            lemma_chunks_kept(was, t1, h, h);
            lemma_chunks_kept(was, t1, h, h + 1);
            lemma_tree_grows(p1, p1, keep@, f, h, h + 1);
        }
    }
    match trim {
        None => Ok((keep, 0)),
        Some(u) => {
            let out = stage_trim(tx, keep, u);
            proof {
                let t2 = *tx;
                assert forall|h: nat| #[trigger] chunks_editing(was, t2, h) && file_editing(
                    was,
                    t2,
                    root@,
                    h,
                ) && s0.len() <= usize::MAX implies {
                    &&& chunks_editing(was, t1, h)
                    &&& file_editing(was, t1, root@, h)
                    &&& chunks_editing(t1, t2, h)
                    &&& file_editing(t1, t2, keep@, h)
                } by {
                    lemma_clash_free_subset(p1, t2.objects.payloads());
                    assert(chunks_editing(was, t1, h));
                    assert(file_editing(was, t1, root@, h));
                    assert(file_editing(t1, t1, keep@, h));
                }
            }
            out
        },
    }
}

/// The inode of the number `ino` is the file `v`, with its extents at `root`.
spec fn found_file<B: IoBackend>(
    tx: Tx<B>,
    ino: u64,
    v: InodeView,
    root: Seq<u8>,
    h: nat,
) -> bool {
    &&& has_file(tx.ns(), ino)
    &&& inode_fits(tx.objects.payloads(), v, tx.max_fanout, h)
    &&& tx.ns()[ino] == item_of(tx.objects.payloads(), v, tx.max_fanout)
}

/// Truncate a file that was found.
#[verifier::rlimit(100)]
#[verifier::spinoff_prover]
fn truncate_found<B: IoBackend>(
    tx: &mut Tx<'_, B>,
    ino: u64,
    inode: Inode,
    root: ChunkId,
    new_size: u64,
    trim: Option<&ExtentUpdate>,
    now: Timespec,
) -> (r: Result<u64, StoreError>)
    requires
        time_ok(now),
        trim matches Some(u) ==> u.bytes@.len() <= u32::MAX,
        inode_ok(inode@),
        inode.data is File,
        root@ == data_root(inode@.data),
    ensures
        data_edited(*old(tx), *final(tx)),
        r is Ok ==> (trim matches Some(u) ==> objects_in(
            final(tx).objects.payloads(),
            u.objects@,
        )),
        r matches Ok(mask) ==> mask == match trim {
            Some(u) => mask_for(*u),
            None => 0,
        },
        forall|h: nat| #[trigger]
            data_editing(*old(tx), *final(tx), h) && found_file(*old(tx), ino, inode@, root@, h)
                && old(tx).ns()[ino].entries.len() <= usize::MAX ==> match r {
                Ok(_) => {
                    &&& final(tx).whole(h + 2)
                    &&& final(tx).ns() == old(tx).ns().insert(
                        ino,
                        truncated(old(tx).ns()[ino], new_size, opt_update(trim), now),
                    )
                    &&& final(tx).chunks_ok(h + 1)
                    &&& final(tx).chunks() == trim_chunks(old(tx).chunks(), opt_update(trim))
                },
                Err(_) => strained(*old(tx), h + 1),
            },
{
    let ghost was = *tx;
    let ghost p0 = tx.objects.payloads();
    let ghost f = tx.max_fanout;
    let mut inode = inode;
    let ghost v0 = inode@;
    let ghost s0 = listing(p0, root@, f);
    let out = truncate_tree(tx, root, new_size, trim);
    let ghost t2 = *tx;
    let ghost p2 = tx.objects.payloads();
    proof {
        assert forall|h: nat| #[trigger] data_editing(was, t2, h) && found_file(was, ino, v0, root@, h) implies {
            &&& has_file(was.ns(), ino)
            &&& inode_fits(p0, v0, f, h)
            &&& was.ns()[ino] == item_of(p0, v0, f)
            &&& chunks_editing(was, t2, h)
            &&& file_editing(was, t2, root@, h)
        } by {
            lemma_editing(was, was, t2, h);
            assert(data_editing(was, t2, h));
        }
    }
    let (last, mask) = match out {
        Ok(v) => v,
        Err(e) => return Err(e),
    };
    inode.size = new_size;
    inode.mtime = now;
    inode.ctime = now;
    let ghost v1 = inode@;
    let done = put_file(tx, ino, inode, last);
    proof {
        let t3 = *tx;
        assert forall|h: nat| #[trigger] data_editing(was, t3, h) && found_file(was, ino, v0, root@, h) implies has_file(was.ns(), ino)
            && was.ns()[ino].entries == s0 by {
            lemma_editing(was, t2, t3, h);
            assert(data_editing(was, t2, h));
        }
        assert forall|h: nat| #[trigger] data_editing(was, t3, h) && found_file(was, ino, v0, root@, h) && s0.len()
            <= usize::MAX implies {
            &&& data_editing(was, t2, h)
            &&& editing(t2, t3, h + 1)
            &&& t2.ns() == was.ns()
            &&& inode_fits(p2, v1, f, h + 1)
            &&& restored(item_of(p2, v1, f), listing(p2, last@, f)) == truncated(
                was.ns()[ino],
                new_size,
                opt_update(trim),
                now,
            )
            &&& t3.chunks() == t2.chunks()
            &&& t3.chunks_ok(h + 1)
        } by {
            lemma_editing(was, t2, t3, h);
            assert(data_editing(was, t2, h));
            lemma_ns_kept(was, t2, h, h + 1);
            lemma_edit_on(was, t2, t3, h, h + 1);
            lemma_fits_grows(p0, p2, v0, f, h, h + 1);
            lemma_chunks_kept(t2, t3, h + 1, h + 1);
            assert(restored(item_of(p2, v1, f), listing(p2, last@, f)) =~= truncated(
                was.ns()[ino],
                new_size,
                opt_update(trim),
                now,
            ));
        }
    }
    match done {
        Ok(_) => Ok(mask),
        Err(e) => Err(e),
    }
}

/// The file to truncate, where the shortened extent fits.
#[verifier::spinoff_prover]
fn find_trimmed<B: IoBackend, F: Fn(&[u8]) -> Option<Descriptor>>(
    tx: &Tx<'_, B>,
    ino: u64,
    new_size: u64,
    trim: Option<&ExtentUpdate>,
    decode: &F,
) -> (r: Result<(Inode, ChunkId), StoreError>)
    requires
        steady(*decode),
    ensures
        r matches Ok(o) ==> inode_ok(o.0@) && o.0.data is File && o.1@ == data_root(o.0@.data),
        forall|h: nat| #[trigger]
            data_editing(*tx, *tx, h) ==> match r {
                Ok(o) => {
                    &&& has_file(tx.ns(), ino)
                    &&& !truncate_refused(tx.ns(), ino, new_size, *decode, opt_update(trim))
                    &&& inode_fits(tx.objects.payloads(), o.0@, tx.max_fanout, h)
                    &&& tx.ns()[ino] == item_of(tx.objects.payloads(), o.0@, tx.max_fanout)
                },
                Err(_) => strained(*tx, h) || truncate_refused(
                    tx.ns(),
                    ino,
                    new_size,
                    *decode,
                    opt_update(trim),
                ),
            },
{
    proof {
        reveal(trim_fits);
        assert forall|h: nat| #[trigger] data_editing(*tx, *tx, h) implies tx.reads(h) by {}
    }
    let (inode, root) = match find_file(tx, ino) {
        Ok(v) => v,
        Err(e) => return Err(e),
    };
    let due = find_trim(tx, root, new_size, decode);
    proof {
        assert forall|h: nat| #[trigger] data_editing(*tx, *tx, h) implies {
            &&& has_file(tx.ns(), ino)
            &&& tx.ns()[ino].entries == listing(tx.objects.payloads(), root@, tx.max_fanout)
            &&& file_editing(*tx, *tx, root@, h)
        } by {
            assert(tx.reads(h));
        }
    }
    match due {
        Ok(d) => if same_trim(d, trim) {
            Ok((inode, root))
        } else {
            Err(StoreError::Invariant("the trimmed extent does not fit".to_string()))
        },
        Err(e) => Err(e),
    }
}

impl<B: IoBackend> Store<B> {
    /// Truncate a file: drop the extents starting at or beyond the new size,
    /// with `trim` in place of the trailing one where that reaches beyond it:
    /// what [`Store::truncate_file`] does inside its transaction. Returns the
    /// feature bits that `trim` needs.
    #[verifier::rlimit(100)]
    #[verifier::spinoff_prover]
    pub fn truncate_in_tx<F: Fn(&[u8]) -> Option<Descriptor>>(
        tx: &mut Tx<'_, B>,
        ino: u64,
        new_size: u64,
        trim: Option<&ExtentUpdate>,
        decode: &F,
        now: Timespec,
    ) -> (r: Result<u64, StoreError>)
        requires
            time_ok(now),
            steady(*decode),
            trim matches Some(u) ==> u.bytes@.len() <= u32::MAX,
        ensures
            data_edited(*old(tx), *final(tx)),
            r is Ok ==> (trim matches Some(u) ==> objects_in(
                final(tx).objects.payloads(),
                u.objects@,
            )),
            r matches Ok(mask) ==> mask == match trim {
                Some(u) => mask_for(*u),
                None => 0,
            },
            forall|h: nat| #[trigger]
                data_editing(*old(tx), *final(tx), h) && (old(tx).ns().contains_key(ino) ==> old(tx).ns()[ino].entries.len() <= usize::MAX)
                    ==> match r {
                    Ok(_) => {
                        &&& !truncate_refused(
                            old(tx).ns(),
                            ino,
                            new_size,
                            *decode,
                            opt_update(trim),
                        )
                        &&& final(tx).whole(h + 2)
                        &&& final(tx).ns() == old(tx).ns().insert(
                            ino,
                            truncated(old(tx).ns()[ino], new_size, opt_update(trim), now),
                        )
                        &&& final(tx).chunks_ok(h + 1)
                        &&& final(tx).chunks() == trim_chunks(old(tx).chunks(), opt_update(trim))
                    },
                    Err(_) => strained(*old(tx), h + 1) || truncate_refused(
                        old(tx).ns(),
                        ino,
                        new_size,
                        *decode,
                        opt_update(trim),
                    ),
                },
    {
        let ghost was = *tx;
        let ghost p0 = tx.objects.payloads();
        let ghost f = tx.max_fanout;
        let (inode, root) = match find_trimmed(tx, ino, new_size, trim, decode) {
            Ok(v) => v,
            Err(e) => return Err(e),
        };
        let ghost v0 = inode@;
        let done = truncate_found(tx, ino, inode, root, new_size, trim, now);
        proof {
            let t3 = *tx;
            assert forall|h: nat| #[trigger] data_editing(was, t3, h) implies {
                &&& has_file(was.ns(), ino)
                &&& !truncate_refused(was.ns(), ino, new_size, *decode, opt_update(trim))
                &&& inode_fits(p0, v0, f, h)
                &&& was.ns()[ino] == item_of(p0, v0, f)
            } by {
                lemma_editing(was, was, t3, h);
                assert(data_editing(was, was, h));
            }
        }
        done
    }
}

proof fn lemma_cut_zero(s: Listing)
    requires
        offsets_ok(s),
        sorted(s),
    ensures
        cut(s, 0) == Seq::<(Seq<u8>, Seq<u8>)>::empty(),
{
    lemma_rank(s, extent_key_of(0));
    if rank(s, extent_key_of(0)) > 0 {
        let k = s[0].0;
        crate::fs::lemma_key_ino(k);
        extent_key_order(crate::fs::key_ino(k), 0);
    }
    assert(cut(s, 0) =~= Seq::empty());
}

// ---------------------------------------------------------------------------
// Attributes with a size
// ---------------------------------------------------------------------------

/// The update changes the size.
pub open spec fn resizes(v: InodeView, u: AttrUpdate) -> bool {
    u.size matches Some(s) && s != v.size
}

/// The item truncated or extended to the size that the update gives.
pub open spec fn sized_to(it: Item, u: AttrUpdate, trim: Option<ExtentUpdate>, now: Timespec) -> Item {
    if resizes(it.inode, u) {
        truncated(it, u.size->0, trim, now)
    } else {
        it
    }
}

/// The item with the attributes that the update gives, the size among them.
pub open spec fn item_updated(
    it: Item,
    u: AttrUpdate,
    trim: Option<ExtentUpdate>,
    now: Timespec,
) -> Item {
    item_attrs_set(sized_to(it, u, trim, now), u, now)
}

/// The chunk index after the update.
pub open spec fn update_chunks(
    s: Listing,
    it: Item,
    u: AttrUpdate,
    trim: Option<ExtentUpdate>,
) -> Listing {
    if resizes(it.inode, u) {
        trim_chunks(s, trim)
    } else {
        s
    }
}

/// The update is refused: there is no such inode, or the truncation to its size is.
pub open spec fn update_refused<F: Fn(&[u8]) -> Option<Descriptor>>(
    n: Namespace,
    ino: u64,
    u: AttrUpdate,
    decode: F,
    trim: Option<ExtentUpdate>,
) -> bool {
    !n.contains_key(ino) || resizes(n[ino].inode, u) && truncate_refused(
        n,
        ino,
        u.size->0,
        decode,
        trim,
    )
}

/// Every field that the update gives is replaced.
pub proof fn update_is_shown(
    it: Item,
    u: AttrUpdate,
    trim: Option<ExtentUpdate>,
    now: Timespec,
)
    ensures
        u.size matches Some(s) ==> item_updated(it, u, trim, now).inode.size == s,
        u.size is None ==> item_updated(it, u, trim, now).inode.size == it.inode.size,
        u.uid matches Some(v) ==> item_updated(it, u, trim, now).inode.uid == v,
        u.gid matches Some(v) ==> item_updated(it, u, trim, now).inode.gid == v,
        u.atime matches Some(v) ==> item_updated(it, u, trim, now).inode.atime == v,
        u.mtime matches Some(v) ==> item_updated(it, u, trim, now).inode.mtime == v,
        u.mode matches Some(v) ==> item_updated(it, u, trim, now).inode.mode == (it.inode.mode
            & S_IFMT) | (v & 0o7777),
{
}

impl<B: IoBackend> Store<B> {
    /// Replace the attributes that the update gives; a change of the size truncates or
    /// extends the file. What [`Store::setattr_inode`] does inside its transaction.
    /// Returns the updated inode, and the feature bits that `trim` needs.
    #[verifier::rlimit(60)]
    #[verifier::spinoff_prover]
    pub fn update_in_tx<F: Fn(&[u8]) -> Option<Descriptor>>(
        tx: &mut Tx<'_, B>,
        ino: u64,
        update: &AttrUpdate,
        trim: Option<&ExtentUpdate>,
        decode: &F,
        now: Timespec,
    ) -> (r: Result<(Inode, u64), StoreError>)
        requires
            time_ok(now),
            steady(*decode),
            update_ok(*update),
            trim matches Some(u) ==> u.bytes@.len() <= u32::MAX,
        ensures
            data_edited(*old(tx), *final(tx)),
            forall|h: nat| #[trigger]
                data_editing(*old(tx), *final(tx), h) && (old(tx).ns().contains_key(ino) ==> old(
                    tx,
                ).ns()[ino].entries.len() <= usize::MAX) ==> match r {
                    Ok(o) => {
                        let it = old(tx).ns()[ino];
                        &&& !update_refused(old(tx).ns(), ino, *update, *decode, opt_update(trim))
                        &&& rootless(o.0@) == item_updated(it, *update, opt_update(trim), now).inode
                        &&& final(tx).whole(h + 3)
                        &&& final(tx).ns() == old(tx).ns().insert(
                            ino,
                            item_updated(it, *update, opt_update(trim), now),
                        )
                        &&& final(tx).inode_of(ino) == Some(o.0@)
                        &&& final(tx).chunks_ok(h + 3)
                        &&& final(tx).chunks() == update_chunks(
                            old(tx).chunks(),
                            it,
                            *update,
                            opt_update(trim),
                        )
                    },
                    Err(_) => strained(*old(tx), h + 2) || update_refused(
                        old(tx).ns(),
                        ino,
                        *update,
                        *decode,
                        opt_update(trim),
                    ),
                },
    {
        let ghost was = *tx;
        proof {
            assert forall|h: nat| #[trigger] editing(was, was, h) implies was.reads(h) by {}
        }
        let inode = match Self::inode_for_tx(tx, ino) {
            Ok(v) => v,
            Err(e) => {
                proof {
                    assert forall|h: nat| #[trigger] data_editing(was, *tx, h) implies was.reads(
                        h,
                    ) by {
                        assert(editing(was, was, h));
                    }
                }
                return Err(e);
            },
        };
        let ghost v0 = inode@;
        let mut mask: u64 = 0;
        let new_size: Option<u64> = match update.size {
            Some(s) => if s != inode.size {
                Some(s)
            } else {
                None
            },
            None => None,
        };
        match new_size {
            Some(s) => {
                match Self::truncate_in_tx(tx, ino, s, trim, decode, now) {
                    Ok(m) => {
                        mask = m;
                    },
                    Err(e) => {
                        let ghost t1 = *tx;
                        proof {
                            assert forall|h: nat| #[trigger] data_editing(was, t1, h) implies {
                                &&& was.ns().contains_key(ino)
                                &&& was.ns()[ino].inode == rootless(v0)
                            } by {
                                lemma_editing(was, was, t1, h);
                                assert(was.reads(h));
                            }
                        }
                        return Err(e);
                    },
                }
            },
            None => {},
        }
        let ghost t1 = *tx;
        let done = Self::setattr_in_tx(tx, ino, update, now);
        let ghost t2 = *tx;
        proof {
            assert forall|h: nat| #[trigger]
                data_editing(was, t2, h) && (was.ns().contains_key(ino)
                    ==> was.ns()[ino].entries.len() <= usize::MAX) implies {
                &&& was.ns().contains_key(ino)
                &&& !update_refused(was.ns(), ino, *update, *decode, opt_update(trim))
                &&& editing(t1, t2, h + 2)
                &&& t1.ns() == was.ns().insert(
                    ino,
                    sized_to(was.ns()[ino], *update, opt_update(trim), now),
                )
                &&& t2.chunks_ok(h + 3)
                &&& t2.chunks() == update_chunks(
                    was.chunks(),
                    was.ns()[ino],
                    *update,
                    opt_update(trim),
                )
            } by {
                lemma_editing(was, was, t2, h);
                assert(was.reads(h));
                lemma_editing(was, t1, t2, h);
                assert(data_editing(was, t1, h));
                assert(was.ns()[ino].inode == rootless(v0));
                let p1 = t1.objects.payloads();
                let p2 = t2.objects.payloads();
                if new_size is None {
                    lemma_fs_grows(
                        was.objects.payloads(),
                        was.objects.payloads(),
                        was.root.inode_index_root@,
                        was.max_fanout,
                        h,
                        h + 2,
                    );
                    assert(was.ns().insert(ino, was.ns()[ino]) =~= was.ns());
                    lemma_tree_grows(p1, p2, t1.root.chunk_index_root@, was.max_fanout, h, h + 3);
                } else {
                    lemma_tree_grows(
                        p1,
                        p2,
                        t1.root.chunk_index_root@,
                        was.max_fanout,
                        h + 1,
                        h + 3,
                    );
                }
                lemma_edit_on(was, t1, t2, h, h + 2);
            }
            assert forall|h: nat| #[trigger]
                data_editing(was, t2, h) && (was.ns().contains_key(ino)
                    ==> was.ns()[ino].entries.len() <= usize::MAX) && done is Ok implies t2.ns()
                == was.ns().insert(ino, item_updated(was.ns()[ino], *update, opt_update(trim), now))
                && t2.whole(h + 3) && t2.inode_of(ino) == Some(done->Ok_0@) by {
                assert(editing(t1, t2, h + 2));
                assert(t2.ns() =~= was.ns().insert(
                    ino,
                    item_updated(was.ns()[ino], *update, opt_update(trim), now),
                ));
                assert(h + 2 + 1 == h + 3);
            }
        }
        match done {
            Ok(v) => Ok((v, mask)),
            Err(e) => Err(e),
        }
    }
}

} // verus!
