//! The structural check of a chosen root: every tree that it reaches can be
//! walked.

use vstd::prelude::*;

use crate::chunk::{zero_id, ChunkId};
use crate::error::StoreError;
use crate::fs::{data_root, lemma_listing, lemma_ns_at, tree_ok, BTREE_ORDER};
use crate::index::{self, checks, trusty, BTreeError, ObjectProvider};
use crate::inode::{Inode, InodeData};
use crate::io::IoBackend;
use crate::mode::{S_IFDIR, S_IFMT};
use crate::namespace::{is_dir, strained};
use crate::paths::{countable, numbers};
use crate::store::Store;
use crate::transaction::Tx;
use crate::tree::{clash_free, flat, height, holds, lists, max_height, Tree};

verus! {

/// Every node of the tree at `root` is there and in order, and a reader can
/// descend and count it.
pub open spec fn walks(p: Set<Seq<u8>>, root: Seq<u8>, fanout: u32) -> bool {
    root == zero_id() || exists|t: Tree| #[trigger]
        checks(p, root, t, BTREE_ORDER, fanout) && height(t) <= max_height() && flat(t).len()
            <= u64::MAX
}

/// The error of an index walk.
pub fn btree_err(e: BTreeError) -> (r: StoreError)
    ensures
        r == StoreError::Index(e),
{
    StoreError::Index(e)
}

fn walk<B: IoBackend>(tx: &Tx<'_, B>, root: ChunkId) -> (r: Result<(), StoreError>)
    ensures
        trusty(&tx.objects) ==> match r {
            Ok(_) => walks(tx.objects.payloads(), root@, tx.max_fanout),
            Err(e) => e is Index && (tx.objects.may_fail() || !walks(
                tx.objects.payloads(),
                root@,
                tx.max_fanout,
            )),
        },
{
    match index::verify(root, BTREE_ORDER, tx.max_fanout, &tx.objects) {
        Ok(_) => Ok(()),
        Err(e) => Err(btree_err(e)),
    }
}

/// Verify the tree of one inode.
pub fn verify_inode_trees<B: IoBackend>(tx: &Tx<'_, B>, inode: &Inode) -> (r: Result<
    (),
    StoreError,
>)
    ensures
        trusty(&tx.objects) ==> match r {
            Ok(_) => walks(tx.objects.payloads(), data_root(inode@.data), tx.max_fanout),
            Err(e) => e is Index && (tx.objects.may_fail() || !walks(
                tx.objects.payloads(),
                data_root(inode@.data),
                tx.max_fanout,
            )),
        },
{
    match &inode.data {
        InodeData::Directory { dir_root } => walk(tx, *dir_root),
        InodeData::File { extent_root } => walk(tx, *extent_root),
        _ => Ok(()),
    }
}

/// The root is a directory.
pub open spec fn rooted<B: IoBackend>(tx: Tx<B>) -> bool {
    &&& tx.root.root_dir_ino != 0
    &&& tx.ns().contains_key(tx.root.root_dir_ino)
    &&& tx.ns()[tx.root.root_dir_ino].inode.mode & S_IFMT == S_IFDIR
}

/// The index trees of the root can be walked.
pub open spec fn indexes_walk<B: IoBackend>(tx: Tx<B>) -> bool {
    let p = tx.objects.payloads();
    &&& walks(p, tx.root.inode_index_root@, tx.max_fanout)
    &&& walks(p, tx.root.chunk_index_root@, tx.max_fanout)
    &&& walks(p, tx.root.snapshot_tree_root@, tx.max_fanout)
}

/// The tree of every inode can be walked.
pub open spec fn inodes_walk<B: IoBackend>(tx: Tx<B>) -> bool {
    forall|ino: u64|
        (#[trigger] tx.inode_of(ino)) matches Some(v) ==> walks(
            tx.objects.payloads(),
            data_root(v.data),
            tx.max_fanout,
        )
}

/// Verify that what the root reaches can be walked: the index trees, the root
/// directory, and the tree of every inode.
#[verifier::rlimit(40)]
pub fn verify_root<B: IoBackend>(tx: &Tx<'_, B>) -> (r: Result<(), StoreError>)
    ensures
        trusty(&tx.objects) && r is Ok ==> indexes_walk(*tx),
        r is Ok ==> tx.root.root_dir_ino != 0,
        forall|h: nat| #[trigger]
            tx.reads(h) && countable(*tx) ==> match r {
                Ok(_) => rooted(*tx) && inodes_walk(*tx),
                Err(_) => strained(*tx, h) || !indexes_walk(*tx) || !rooted(*tx) || !inodes_walk(
                    *tx,
                ),
            },
{
    match walk(tx, tx.root.inode_index_root) {
        Ok(_) => {},
        Err(e) => return Err(e),
    }
    match walk(tx, tx.root.chunk_index_root) {
        Ok(_) => {},
        Err(e) => return Err(e),
    }
    match walk(tx, tx.root.snapshot_tree_root) {
        Ok(_) => {},
        Err(e) => return Err(e),
    }
    if tx.root.root_dir_ino == 0 {
        return Err(StoreError::Superblock("root dir inode is zero".to_string()));
    }
    match Store::inode_for_tx(tx, tx.root.root_dir_ino) {
        Ok(v) => {
            if !v.is_dir() {
                return Err(StoreError::Superblock("root inode is not a directory".to_string()));
            }
        },
        Err(e) => return Err(e),
    }
    let inodes = match Store::all_inodes_in_tx(tx) {
        Ok(v) => v,
        Err(e) => return Err(e),
    };
    let mut i: usize = 0;
    while i < inodes.len()
        invariant
            i <= inodes@.len(),
            forall|h: nat, j: int|
                #![trigger tx.reads(h), inodes@[j]]
                tx.reads(h) && countable(*tx) && 0 <= j < i ==> (tx.inode_of(
                    inodes@[j],
                ) matches Some(v) && walks(
                    tx.objects.payloads(),
                    data_root(v.data),
                    tx.max_fanout,
                )),
            forall|h: nat| #[trigger]
                tx.reads(h) && countable(*tx) ==> numbers(inodes@, tx.ns()),
        decreases inodes@.len() - i,
    {
        proof {
            assert(inodes@.contains(inodes@[i as int]));
        }
        let inode = match Store::inode_for_tx(tx, inodes[i]) {
            Ok(v) => v,
            Err(e) => return Err(e),
        };
        match verify_inode_trees(tx, &inode) {
            Ok(_) => {},
            Err(e) => {
                proof {
                    assert forall|h: nat| #[trigger] tx.reads(h) && countable(*tx) implies strained(
                        *tx,
                        h,
                    ) || !inodes_walk(*tx) by {
                        assert(tx.inode_of(inodes@[i as int]) == Some(inode@));
                    }
                }
                return Err(e);
            },
        }
        i += 1;
    }
    proof {
        assert forall|h: nat| #[trigger] tx.reads(h) && countable(*tx) implies inodes_walk(*tx) by {
            assert forall|ino: u64| (#[trigger] tx.inode_of(ino)) is Some implies walks(
                tx.objects.payloads(),
                data_root(tx.inode_of(ino)->0.data),
                tx.max_fanout,
            ) by {
                lemma_ns_at(
                    tx.objects.payloads(),
                    tx.root.inode_index_root@,
                    tx.max_fanout,
                    h,
                    ino,
                );
                assert(inodes@.contains(ino));
                let j = choose|j: int| 0 <= j < inodes@.len() && inodes@[j] == ino;
                assert(tx.inode_of(inodes@[j]) is Some);
            }
        }
    }
    Ok(())
}

/// A tree that was verified can be read: it lists its entries within the height that readers
/// descend.
pub proof fn verified_tree_is_read(p: Set<Seq<u8>>, root: Seq<u8>, fanout: u32)
    requires
        walks(p, root, fanout),
        clash_free(p),
    ensures
        tree_ok(p, root, fanout, max_height()),
{
    if root != zero_id() {
        let t = choose|t: Tree| #[trigger]
            checks(p, root, t, BTREE_ORDER, fanout) && height(t) <= max_height() && flat(t).len()
                <= u64::MAX;
        assert(holds(p, root, t, BTREE_ORDER, fanout, None, None));
        assert(lists(p, root, BTREE_ORDER, fanout, max_height(), flat(t)));
        lemma_listing(p, root, fanout, max_height(), flat(t));
    } else {
        lemma_listing(p, root, fanout, max_height(), Seq::empty());
    }
}

/// Where the trees of a root were verified, its inode table, its chunk index and its snapshots
/// can be read, and so can the entries or extents of every inode; its top is a directory.
pub proof fn verified_root_is_read<B: IoBackend>(tx: Tx<B>, ino: u64)
    requires
        indexes_walk(tx),
        inodes_walk(tx),
        rooted(tx),
        clash_free(tx.objects.payloads()),
    ensures
        ({
            let p = tx.objects.payloads();
            &&& tree_ok(p, tx.root.inode_index_root@, tx.max_fanout, max_height())
            &&& tree_ok(p, tx.root.chunk_index_root@, tx.max_fanout, max_height())
            &&& tree_ok(p, tx.root.snapshot_tree_root@, tx.max_fanout, max_height())
            &&& tx.inode_of(ino) matches Some(v) ==> tree_ok(
                p,
                data_root(v.data),
                tx.max_fanout,
                max_height(),
            )
            &&& tx.root.root_dir_ino != 0 && tx.ns().contains_key(tx.root.root_dir_ino) && is_dir(
                tx.ns()[tx.root.root_dir_ino].inode,
            )
        }),
{
    let p = tx.objects.payloads();
    verified_tree_is_read(p, tx.root.inode_index_root@, tx.max_fanout);
    verified_tree_is_read(p, tx.root.chunk_index_root@, tx.max_fanout);
    verified_tree_is_read(p, tx.root.snapshot_tree_root@, tx.max_fanout);
    if let Some(v) = tx.inode_of(ino) {
        verified_tree_is_read(p, data_root(v.data), tx.max_fanout);
    }
}

} // verus!
