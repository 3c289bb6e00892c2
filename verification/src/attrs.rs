//! Attributes and extended attributes inside a transaction.

use vstd::prelude::*;

use crate::bytes::copy_bytes;
use crate::chunk::ChunkId;
use crate::error::StoreError;
use crate::fs::{inode_fits, item_of, lemma_fits_grows, lemma_has_key, lemma_listing,
    lemma_tree_sorted, listing, rootless, tree_ok, Item, Listing, Namespace, BTREE_ORDER};
use crate::index::{self, key_views, opt_bytes, pair_views, ObjectProvider};
use crate::inode::{inode_ok, Inode, InodeView, Timespec};
use crate::io::IoBackend;
use crate::mode::S_IFMT;
use crate::namespace::{strained, clean_bytes, edited, editing, lemma_added, lemma_edit_on, lemma_editing,
    time_ok, valid_xattr_name};
use crate::sorted::{erase, has_key, lookup, upsert};
use crate::store::Store;
use crate::transaction::Tx;

verus! {

/// Attribute updates (all optional).
#[derive(Debug, Clone, Copy, PartialEq, Eq)]
pub struct AttrUpdate {
    /// Replace permission bits (type bits preserved).
    pub mode: Option<u32>,
    /// Replace uid.
    pub uid: Option<u32>,
    /// Replace gid.
    pub gid: Option<u32>,
    /// Replace size (truncate or extend).
    pub size: Option<u64>,
    /// Replace atime.
    pub atime: Option<Timespec>,
    /// Replace mtime.
    pub mtime: Option<Timespec>,
}

impl Default for AttrUpdate {
    fn default() -> (r: AttrUpdate)
        ensures
            r == (AttrUpdate {
                mode: None,
                uid: None,
                gid: None,
                size: None,
                atime: None,
                mtime: None,
            }),
    {
        AttrUpdate { mode: None, uid: None, gid: None, size: None, atime: None, mtime: None }
    }
}

/// The given times are in range.
pub open spec fn update_ok(u: AttrUpdate) -> bool {
    &&& u.atime matches Some(t) ==> time_ok(t)
    &&& u.mtime matches Some(t) ==> time_ok(t)
}

pub open spec fn or_else<T>(o: Option<T>, d: T) -> T {
    match o {
        Some(v) => v,
        None => d,
    }
}

/// The inode with the attributes replaced: the type bits stay, and the change
/// time is now. The size is left alone.
pub open spec fn attrs_set(v: InodeView, u: AttrUpdate, now: Timespec) -> InodeView {
    InodeView {
        mode: match u.mode {
            Some(m) => (v.mode & S_IFMT) | (m & 0o7777),
            None => v.mode,
        },
        uid: or_else(u.uid, v.uid),
        gid: or_else(u.gid, v.gid),
        atime: or_else(u.atime, v.atime),
        mtime: or_else(u.mtime, v.mtime),
        ctime: now,
        ..v
    }
}

proof fn lemma_mode_kept(mode: u32, m: u32)
    ensures
        ((mode & S_IFMT) | (m & 0o7777)) & S_IFMT == mode & S_IFMT,
{
    assert(((mode & 0o170000u32) | (m & 0o7777u32)) & 0o170000u32 == mode & 0o170000u32)
        by (bit_vector);
}

impl Inode {
    /// Replace the attributes that the update names, but for the size.
    pub fn set_attrs(&mut self, update: &AttrUpdate, now: Timespec)
        ensures
            final(self)@ == attrs_set(old(self)@, *update, now),
            inode_ok(old(self)@) && update_ok(*update) && time_ok(now) ==> inode_ok(final(self)@),
    {
        proof {
            if update.mode is Some {
                lemma_mode_kept(self.mode, update.mode->0);
            }
        }
        match update.mode {
            Some(m) => {
                self.mode = (self.mode & S_IFMT) | (m & 0o7777);
            },
            None => {},
        }
        match update.uid {
            Some(u) => {
                self.uid = u;
            },
            None => {},
        }
        match update.gid {
            Some(g) => {
                self.gid = g;
            },
            None => {},
        }
        match update.atime {
            Some(a) => {
                self.atime = a;
            },
            None => {},
        }
        match update.mtime {
            Some(m) => {
                self.mtime = m;
            },
            None => {},
        }
        self.ctime = now;
    }
}

/// The item with other attributes.
pub open spec fn item_attrs_set(it: Item, u: AttrUpdate, now: Timespec) -> Item {
    Item { inode: attrs_set(it.inode, u, now), ..it }
}

/// The item with other extended attributes.
pub open spec fn item_xattrs(it: Item, xattrs: Listing, now: Timespec) -> Item {
    Item { inode: InodeView { ctime: now, ..it.inode }, xattrs, ..it }
}

/// Maximum extended attribute name length.
pub const XATTR_NAME_MAX: usize = 255;

/// Maximum extended attribute value size.
pub const XATTR_SIZE_MAX: u64 = 65536;

/// Write an inode with another extended attribute tree.
fn put_xattrs<B: IoBackend>(
    tx: &mut Tx<'_, B>,
    ino: u64,
    inode: Inode,
    root: ChunkId,
    now: Timespec,
) -> (r: Result<(), StoreError>)
    requires
        time_ok(now),
        inode_ok(inode@),
    ensures
        edited(*old(tx), *final(tx)),
        forall|h: nat| #[trigger]
            editing(*old(tx), *final(tx), h) && inode_fits(
                old(tx).objects.payloads(),
                inode@,
                old(tx).max_fanout,
                h,
            ) && tree_ok(old(tx).objects.payloads(), root@, old(tx).max_fanout, h) ==> match r {
                Ok(_) => {
                    &&& final(tx).whole(h + 1)
                    &&& final(tx).ns() == old(tx).ns().insert(
                        ino,
                        item_xattrs(
                            item_of(old(tx).objects.payloads(), inode@, old(tx).max_fanout),
                            listing(old(tx).objects.payloads(), root@, old(tx).max_fanout),
                            now,
                        ),
                    )
                },
                Err(_) => strained(*old(tx), h),
            },
{
    let mut t = inode;
    t.xattr_root = root;
    t.ctime = now;
    proof {
        let p = tx.objects.payloads();
        let f = tx.max_fanout;
        assert(root@.len() == 32);
        assert(item_of(p, t@, f) =~= item_xattrs(item_of(p, inode@, f), listing(p, root@, f), now));
    }
    Store::put_inode_in_tx(tx, ino, &t)
}

impl<B: IoBackend> Store<B> {
    /// Replace mode, owner and times of an inode: what
    /// [`Store::setattr_inode`] does inside its transaction where the size
    /// stays. Returns the updated inode.
    pub fn setattr_in_tx(tx: &mut Tx<'_, B>, ino: u64, update: &AttrUpdate, now: Timespec) -> (r:
        Result<Inode, StoreError>)
        requires
            time_ok(now),
            update_ok(*update),
        ensures
            edited(*old(tx), *final(tx)),
            forall|h: nat| #[trigger]
                editing(*old(tx), *final(tx), h) ==> match r {
                    Ok(v) => {
                        &&& old(tx).ns().contains_key(ino)
                        &&& rootless(v@) == attrs_set(old(tx).ns()[ino].inode, *update, now)
                        &&& final(tx).whole(h + 1)
                        &&& final(tx).ns() == old(tx).ns().insert(
                            ino,
                            item_attrs_set(old(tx).ns()[ino], *update, now),
                        )
                        &&& final(tx).inode_of(ino) == Some(v@)
                    },
                    Err(_) => strained(*old(tx), h) || (*final(tx) == *old(tx)
                        && !old(tx).ns().contains_key(ino)),
                },
    {
        let ghost was = *tx;
        let ghost p0 = tx.objects.payloads();
        let ghost f = tx.max_fanout;
        proof {
            assert forall|h: nat| #[trigger] editing(was, was, h) implies was.reads(h) by {}
        }
        let mut inode = match Self::inode_for_tx(tx, ino) {
            Ok(v) => v,
            Err(e) => return Err(e),
        };
        let ghost v0 = inode@;
        inode.set_attrs(update, now);
        proof {
            assert(item_of(p0, inode@, f) =~= item_attrs_set(item_of(p0, v0, f), *update, now));
            assert(rootless(inode@) =~= attrs_set(rootless(v0), *update, now));
        }
        let done = Self::put_inode_in_tx(tx, ino, &inode);
        proof {
            let t1 = *tx;
            assert forall|h: nat| #[trigger] editing(was, t1, h) implies {
                &&& editing(was, was, h)
                &&& inode_fits(p0, inode@, f, h)
                &&& was.ns().contains_key(ino)
                &&& was.ns()[ino] == item_of(p0, v0, f)
            } by {
                lemma_editing(was, was, t1, h);
                assert(was.reads(h));
            }
        }
        match done {
            Ok(_) => Ok(inode),
            Err(e) => Err(e),
        }
    }

    /// Validate an extended attribute name (raw bytes; no NUL, no slash).
    pub fn validate_xattr_name(name: &[u8]) -> (r: bool)
        ensures
            r == valid_xattr_name(name@),
    {
        name.len() != 0 && name.len() <= XATTR_NAME_MAX && clean_bytes(name)
    }

    /// The value of an extended attribute of an inode.
    pub fn get_xattr_in_tx(tx: &Tx<'_, B>, ino: u64, name: &[u8]) -> (r: Result<
        Option<Vec<u8>>,
        StoreError,
    >)
        ensures
            forall|h: nat| #[trigger]
                tx.reads(h) ==> match r {
                    Ok(v) => tx.ns().contains_key(ino) && opt_bytes(v) == lookup(
                        tx.ns()[ino].xattrs,
                        name@,
                    ),
                    Err(_) => strained(*tx, h) || !tx.ns().contains_key(ino),
                },
    {
        let inode = match Self::inode_for_tx(tx, ino) {
            Ok(v) => v,
            Err(e) => return Err(e),
        };
        let out = index::get(inode.xattr_root, name, BTREE_ORDER, tx.max_fanout, &tx.objects);
        proof {
            assert forall|h: nat| #[trigger] tx.reads(h) implies tree_ok(
                tx.objects.payloads(),
                inode.xattr_root@,
                tx.max_fanout,
                h,
            ) by {}
        }
        match out {
            Ok(v) => Ok(v),
            Err(e) => Err(StoreError::index(e)),
        }
    }

    /// Set an extended attribute (insert or replace).
    pub fn set_xattr_in_tx(
        tx: &mut Tx<'_, B>,
        ino: u64,
        name: &[u8],
        value: &[u8],
        now: Timespec,
    ) -> (r: Result<(), StoreError>)
        requires
            time_ok(now),
        ensures
            edited(*old(tx), *final(tx)),
            !valid_xattr_name(name@) ==> r is Err && r->Err_0 is Config && *final(tx) == *old(tx),
            valid_xattr_name(name@) && value@.len() > XATTR_SIZE_MAX ==> r is Err
                && r->Err_0 is Limit && *final(tx) == *old(tx),
            forall|h: nat| #[trigger]
                editing(*old(tx), *final(tx), h) && valid_xattr_name(name@)
                    && value@.len() <= XATTR_SIZE_MAX ==> match r {
                    Ok(_) => {
                        &&& old(tx).ns().contains_key(ino)
                        &&& final(tx).whole(h + 2)
                        &&& final(tx).ns() == old(tx).ns().insert(
                            ino,
                            item_xattrs(
                                old(tx).ns()[ino],
                                upsert(old(tx).ns()[ino].xattrs, name@, value@),
                                now,
                            ),
                        )
                    },
                    Err(_) => strained(*old(tx), h + 1) || (*final(tx) == *old(tx)
                        && !old(tx).ns().contains_key(ino)),
                },
    {
        if !Self::validate_xattr_name(name) {
            return Err(StoreError::Config("invalid xattr name".to_string()));
        }
        if value.len() as u64 > XATTR_SIZE_MAX {
            return Err(StoreError::Limit("xattr value too large".to_string()));
        }
        let ghost was = *tx;
        let ghost p0 = tx.objects.payloads();
        let ghost f = tx.max_fanout;
        proof {
            assert forall|h: nat| #[trigger] editing(was, was, h) implies was.reads(h) by {}
        }
        let inode = match Self::inode_for_tx(tx, ino) {
            Ok(v) => v,
            Err(e) => return Err(e),
        };
        let ghost v0 = inode@;
        let out = index::insert(
            inode.xattr_root,
            name,
            value,
            BTREE_ORDER,
            tx.max_fanout,
            &mut tx.objects,
        );
        let ghost t1 = *tx;
        let ghost p1 = tx.objects.payloads();
        proof {
            assert forall|h: nat| #[trigger] editing(was, t1, h) implies match out {
                Ok(root) => {
                    &&& was.ns().contains_key(ino)
                    &&& was.ns()[ino] == item_of(p0, v0, f)
                    &&& inode_fits(p0, v0, f, h)
                    &&& tree_ok(p1, root@, f, h + 1)
                    &&& listing(p1, root@, f) == upsert(was.ns()[ino].xattrs, name@, value@)
                },
                Err(_) => strained(was, h + 1),
            } by {
                lemma_editing(was, was, t1, h);
                assert(was.reads(h));
                assert(tree_ok(p0, v0.xattr_root, f, h));
                if let Ok(root) = out {
                    lemma_listing(
                        p1,
                        root@,
                        f,
                        h + 1,
                        upsert(was.ns()[ino].xattrs, name@, value@),
                    );
                }
            }
        }
        let root = match out {
            Ok(id) => id,
            Err(e) => return Err(StoreError::index(e)),
        };
        let done = put_xattrs(tx, ino, inode, root, now);
        proof {
            let t2 = *tx;
            assert forall|h: nat| #[trigger] editing(was, t2, h) implies {
                &&& editing(was, t1, h)
                &&& editing(t1, t2, h + 1)
                &&& t1.ns() == was.ns()
                &&& inode_fits(p1, v0, f, h + 1)
                &&& item_of(p1, v0, f) == item_of(p0, v0, f)
            } by {
                lemma_editing(was, t1, t2, h);
                lemma_added(was, t1, h, h + 1);
                lemma_edit_on(was, t1, t2, h, h + 1);
                lemma_fits_grows(p0, p1, v0, f, h, h + 1);
            }
        }
        done
    }

    /// Remove an extended attribute; returns whether it existed.
    pub fn remove_xattr_in_tx(tx: &mut Tx<'_, B>, ino: u64, name: &[u8], now: Timespec) -> (r:
        Result<bool, StoreError>)
        requires
            time_ok(now),
        ensures
            edited(*old(tx), *final(tx)),
            r == Ok::<bool, StoreError>(false) ==> *final(tx) == *old(tx),
            forall|h: nat| #[trigger]
                editing(*old(tx), *final(tx), h) ==> match r {
                    Ok(present) => {
                        &&& old(tx).ns().contains_key(ino)
                        &&& present == has_key(old(tx).ns()[ino].xattrs, name@)
                        &&& present ==> final(tx).whole(h + 1) && final(tx).ns()
                            == old(tx).ns().insert(
                            ino,
                            item_xattrs(
                                old(tx).ns()[ino],
                                erase(old(tx).ns()[ino].xattrs, name@),
                                now,
                            ),
                        )
                    },
                    Err(_) => strained(*old(tx), h) || (*final(tx) == *old(tx)
                        && !old(tx).ns().contains_key(ino)),
                },
    {
        let ghost was = *tx;
        let ghost p0 = tx.objects.payloads();
        let ghost f = tx.max_fanout;
        proof {
            assert forall|h: nat| #[trigger] editing(was, was, h) implies was.reads(h) by {}
        }
        let inode = match Self::inode_for_tx(tx, ino) {
            Ok(v) => v,
            Err(e) => return Err(e),
        };
        let ghost v0 = inode@;
        let found = index::get(inode.xattr_root, name, BTREE_ORDER, tx.max_fanout, &tx.objects);
        proof {
            assert forall|h: nat| #[trigger] editing(was, was, h) implies {
                &&& was.ns().contains_key(ino)
                &&& was.ns()[ino] == item_of(p0, v0, f)
                &&& inode_fits(p0, v0, f, h)
                &&& match found {
                    Ok(v) => v is Some == has_key(was.ns()[ino].xattrs, name@),
                    Err(_) => strained(was, h),
                }
            } by {
                assert(was.reads(h));
                assert(tree_ok(p0, v0.xattr_root, f, h));
                lemma_tree_sorted(p0, v0.xattr_root, f, h);
                lemma_has_key(was.ns()[ino].xattrs, name@);
            }
        }
        match found {
            Ok(None) => return Ok(false),
            Ok(Some(_)) => {},
            Err(e) => return Err(StoreError::index(e)),
        }
        let out = index::remove(
            inode.xattr_root,
            name,
            BTREE_ORDER,
            tx.max_fanout,
            &mut tx.objects,
        );
        let ghost t1 = *tx;
        let ghost p1 = tx.objects.payloads();
        proof {
            assert forall|h: nat| #[trigger] editing(was, t1, h) implies editing(was, was, h) && (
            match out {
                Ok(root) => tree_ok(p1, root@, f, h) && listing(p1, root@, f) == erase(
                    was.ns()[ino].xattrs,
                    name@,
                ),
                Err(_) => strained(was, h),
            }) by {
                lemma_editing(was, was, t1, h);
                assert(tree_ok(p0, v0.xattr_root, f, h));
                if let Ok(root) = out {
                    lemma_listing(p1, root@, f, h, erase(was.ns()[ino].xattrs, name@));
                }
            }
        }
        let root = match out {
            Ok(id) => id,
            Err(e) => return Err(StoreError::index(e)),
        };
        let done = put_xattrs(tx, ino, inode, root, now);
        proof {
            let t2 = *tx;
            assert forall|h: nat| #[trigger] editing(was, t2, h) implies {
                &&& editing(was, t1, h)
                &&& editing(t1, t2, h)
                &&& t1.ns() == was.ns()
                &&& inode_fits(p1, v0, f, h)
                &&& item_of(p1, v0, f) == item_of(p0, v0, f)
            } by {
                lemma_editing(was, t1, t2, h);
                lemma_added(was, t1, h, h);
                lemma_edit_on(was, t1, t2, h, h);
                lemma_fits_grows(p0, p1, v0, f, h, h);
            }
        }
        match done {
            Ok(_) => Ok(true),
            Err(e) => Err(e),
        }
    }

    /// The extended attribute names of an inode, in order.
    pub fn list_xattr_in_tx(tx: &Tx<'_, B>, ino: u64) -> (r: Result<Vec<Vec<u8>>, StoreError>)
        ensures
            forall|h: nat| #[trigger]
                tx.reads(h) && (tx.ns().contains_key(ino) ==> tx.ns()[ino].xattrs.len()
                    <= usize::MAX) ==> match r {
                    Ok(v) => tx.ns().contains_key(ino) && key_views(v@) == keys_of(
                        tx.ns()[ino].xattrs,
                    ),
                    Err(_) => strained(*tx, h) || !tx.ns().contains_key(ino),
                },
    {
        let inode = match Self::inode_for_tx(tx, ino) {
            Ok(v) => v,
            Err(e) => return Err(e),
        };
        let out = index::scan_all(inode.xattr_root, BTREE_ORDER, tx.max_fanout, &tx.objects);
        proof {
            assert forall|h: nat| #[trigger] tx.reads(h) implies tree_ok(
                tx.objects.payloads(),
                inode.xattr_root@,
                tx.max_fanout,
                h,
            ) by {}
        }
        let entries = match out {
            Ok(v) => v,
            Err(e) => return Err(StoreError::index(e)),
        };
        let mut names: Vec<Vec<u8>> = Vec::new();
        let mut i: usize = 0;
        while i < entries.len()
            invariant
                i <= entries@.len(),
                names@.len() == i,
                forall|j: int| 0 <= j < i ==> names@[j]@ == (#[trigger] entries@[j]).0@,
            decreases entries@.len() - i,
        {
            names.push(copy_bytes(&entries[i].0));
            i += 1;
        }
        assert(key_views(names@) =~= keys_of(pair_views(entries@)));
        Ok(names)
    }
}

/// The namespace with an extended attribute set.
pub open spec fn xattr_put(
    n: Namespace,
    ino: u64,
    name: Seq<u8>,
    value: Seq<u8>,
    now: Timespec,
) -> Namespace {
    n.insert(ino, item_xattrs(n[ino], upsert(n[ino].xattrs, name, value), now))
}

/// The namespace with an extended attribute removed.
pub open spec fn xattr_cut(n: Namespace, ino: u64, name: Seq<u8>, now: Timespec) -> Namespace {
    n.insert(ino, item_xattrs(n[ino], erase(n[ino].xattrs, name), now))
}

/// The keys of a listing.
pub open spec fn keys_of<V>(s: Seq<(Seq<u8>, V)>) -> Seq<Seq<u8>> {
    Seq::new(s.len(), |i: int| s[i].0)
}

} // verus!
