//! Reads of the committed state.

use vstd::prelude::*;

use crate::chunk::ChunkId;
use crate::descriptor::{steady, Descriptor};
use crate::directory::{self, DirEntry};
use crate::error::StoreError;
use crate::fs::{entry_at, inode_at, listing, BTREE_ORDER};
use crate::index::{first_of, opt_bytes, opt_slice, trusty, ObjectProvider};
use crate::index_edit::lemma_clash_free_subset;
use crate::inode::Inode;
use crate::io::IoBackend;
use crate::journal::lemma_begun;
use crate::namespace::{has_dir, opt_inode, read_inode};
use crate::object::ObjectIndex;
use crate::paths::{components, listable, numbers, parent_is, tops, walk};
use crate::root::Root;
use crate::sorted::lookup;
use crate::store::{lemma_given, Store, StoreConfig};
use crate::totals::files_len;
use crate::transaction::Tx;
use crate::tree::{clash_free, max_height};

verus! {

/// The committed namespace is whole, and no two payloads share a digest.
pub open spec fn seeing<B: IoBackend>(st: Store<B>, h: nat) -> bool {
    &&& BTREE_ORDER <= st.config.max_fanout
    &&& clash_free(st.seen@)
    &&& st.whole(h)
}

/// A read may fail: the backend may, or the trees may be too tall.
pub open spec fn troubled<B: IoBackend>(st: Store<B>, h: nat) -> bool {
    !st.io.reliable() || h > max_height()
}

/// The inodes can be counted.
pub open spec fn numbered<B: IoBackend>(st: Store<B>) -> bool {
    listing(st.objects(), st.root@.inode_index_root, st.config.max_fanout).len() <= usize::MAX
}

/// A transaction begun on such a store can be read.
pub proof fn lemma_seeing<B: IoBackend>(st: Store<B>, tx: Tx<B>)
    requires
        st.flushed(),
        tx.objects.faithful(),
        tx.objects.payloads() == st.objects(),
        tx.root == st.root,
        tx.max_fanout == st.config.max_fanout,
        forall|h: nat| #[trigger] tx.whole(h) == st.whole(h),
    ensures
        forall|h: nat| #[trigger] seeing(st, h) ==> tx.reads(h) && trusty(&tx.objects),
{
    assert forall|h: nat| #[trigger] seeing(st, h) implies tx.reads(h) && trusty(&tx.objects) by {
        lemma_clash_free_subset(st.given@, st.seen@);
        lemma_given(st.objects(), st.given@);
        assert(tx.whole(h) == st.whole(h));
    }
}

impl<B: IoBackend> Store<B> {
    /// An inode, where there is one.
    pub fn get_inode(&self, ino: u64) -> (r: Result<Option<Inode>, StoreError>)
        requires
            self.flushed(),
        ensures
            forall|h: nat| #[trigger]
                seeing(*self, h) ==> match r {
                    Ok(v) => opt_inode(v) == inode_at(
                        self.objects(),
                        self.root@.inode_index_root,
                        self.config.max_fanout,
                        ino,
                    ),
                    Err(_) => troubled(*self, h),
                },
    {
        let tx = self.begin_tx();
        proof {
            lemma_begun(*self, tx);
            lemma_seeing(*self, tx);
        }
        read_inode(tx.root.inode_index_root, ino, tx.max_fanout, &tx.objects)
    }

    /// The numbers of all inodes, in order.
    pub fn all_inodes(&self) -> (r: Result<Vec<u64>, StoreError>)
        requires
            self.flushed(),
        ensures
            forall|h: nat| #[trigger]
                seeing(*self, h) && numbered(*self) ==> match r {
                    Ok(v) => numbers(v@, self.ns()),
                    Err(_) => troubled(*self, h),
                },
    {
        let tx = self.begin_tx();
        proof {
            lemma_begun(*self, tx);
            lemma_seeing(*self, tx);
        }
        Store::all_inodes_in_tx(&tx)
    }

    /// A number that no inode has: the next one after the greatest.
    pub fn alloc_ino(&self) -> (r: Result<u64, StoreError>)
        requires
            self.flushed(),
        ensures
            forall|h: nat| #[trigger]
                seeing(*self, h) && numbered(*self) ==> match r {
                    Ok(ino) => ino > 0 && tops(self.ns(), (ino - 1) as u64),
                    Err(_) => troubled(*self, h) || tops(self.ns(), u64::MAX),
                },
    {
        let tx = self.begin_tx();
        proof {
            lemma_begun(*self, tx);
            lemma_seeing(*self, tx);
        }
        Store::alloc_ino_in_tx(&tx)
    }

    /// The entry under a name of a directory.
    pub fn dir_lookup(&self, dir_ino: u64, name: &[u8]) -> (r: Result<Option<DirEntry>, StoreError>)
        requires
            self.flushed(),
        ensures
            forall|h: nat| #[trigger]
                seeing(*self, h) ==> match r {
                    Ok(e) => has_dir(self.ns(), dir_ino) && e == entry_at(
                        self.ns()[dir_ino].entries,
                        name@,
                    ),
                    Err(_) => troubled(*self, h) || !has_dir(self.ns(), dir_ino),
                },
    {
        let tx = self.begin_tx();
        proof {
            lemma_begun(*self, tx);
            lemma_seeing(*self, tx);
        }
        Store::dir_lookup_in_tx(&tx, dir_ino, name)
    }

    /// Entries of a directory in name order, from after a name on, and whether more
    /// follow.
    pub fn dir_scan(&self, dir_ino: u64, start_after: Option<&[u8]>, limit: usize) -> (r: Result<directory::DirScan, StoreError>)
        requires
            self.flushed(),
        ensures
            forall|h: nat| #[trigger]
                seeing(*self, h) && (has_dir(self.ns(), dir_ino) ==> limit < usize::MAX
                    || self.ns()[dir_ino].entries.len() < usize::MAX) ==> match r {
                    Ok(o) => {
                        let all = directory::names_after(
                            self.ns()[dir_ino].entries,
                            opt_slice(start_after),
                        );
                        &&& has_dir(self.ns(), dir_ino)
                        &&& directory::entries_decode(first_of(all, limit as nat), o.0@)
                        &&& o.1 == (all.len() > limit)
                    },
                    Err(_) => troubled(*self, h) || !has_dir(self.ns(), dir_ino),
                },
    {
        let tx = self.begin_tx();
        proof {
            lemma_begun(*self, tx);
            lemma_seeing(*self, tx);
        }
        Store::dir_scan_in_tx(&tx, dir_ino, start_after, limit)
    }

    /// The inode that a path leads to, where it leads to one.
    pub fn resolve_path(&self, path: &[u8]) -> (r: Result<Option<u64>, StoreError>)
        requires
            self.flushed(),
        ensures
            forall|h: nat| #[trigger]
                seeing(*self, h) ==> match r {
                    Ok(v) => walk(self.ns(), self.root.root_dir_ino, components(path@)) == Some(v),
                    Err(_) => troubled(*self, h) || walk(
                        self.ns(),
                        self.root.root_dir_ino,
                        components(path@),
                    ) is None,
                },
    {
        let tx = self.begin_tx();
        proof {
            lemma_begun(*self, tx);
            lemma_seeing(*self, tx);
        }
        Store::resolve_path_in_tx(&tx, path)
    }

    /// The directory that holds an inode; the root directory where none does.
    pub fn parent_of(&self, ino: u64) -> (r: Result<u64, StoreError>)
        requires
            self.flushed(),
        ensures
            forall|h: nat| #[trigger]
                seeing(*self, h) && numbered(*self) && listable(self.ns()) ==> match r {
                    Ok(d) => parent_is(self.ns(), self.root.root_dir_ino, ino, d),
                    Err(_) => troubled(*self, h),
                },
    {
        let tx = self.begin_tx();
        proof {
            lemma_begun(*self, tx);
            lemma_seeing(*self, tx);
        }
        Store::parent_of_in_tx(&tx, ino)
    }

    /// The descriptor of a chunk, where the committed index has one.
    pub fn chunk_descriptor(&self, cid: &ChunkId) -> (r: Result<Option<Vec<u8>>, StoreError>)
        requires
            self.flushed(),
        ensures
            forall|h: nat| #[trigger]
                seeing(*self, h) && self.chunks_ok(h) ==> match r {
                    Ok(v) => opt_bytes(v) == lookup(self.chunks(), cid@),
                    Err(_) => troubled(*self, h),
                },
    {
        let tx = self.begin_tx();
        proof {
            lemma_begun(*self, tx);
            lemma_seeing(*self, tx);
            assert forall|h: nat| #[trigger] seeing(*self, h) && self.chunks_ok(h) implies tx.chunks_ok(
                h,
            ) by {
                assert(tx.chunks_ok(h) == self.chunks_ok(h));
            }
        }
        Store::chunk_descriptor_in_tx(&tx, cid)
    }

    /// The logical bytes of all files: what their extents stand for, capped.
    pub fn logical_bytes<F: Fn(&[u8]) -> Option<Descriptor>>(&self, decode: &F) -> (r: Result<
        u64,
        StoreError,
    >)
        requires
            self.flushed(),
            steady(*decode),
        ensures
            forall|h: nat| #[trigger]
                seeing(*self, h) && numbered(*self) && listable(self.ns()) ==> match r {
                    Ok(n) => exists|v: Seq<u64>| #[trigger]
                        numbers(v, self.ns()) && n == files_len(*decode, self.ns(), v),
                    Err(_) => troubled(*self, h),
                },
    {
        let tx = self.begin_tx();
        proof {
            lemma_begun(*self, tx);
            lemma_seeing(*self, tx);
        }
        Store::logical_bytes_in_tx(&tx, decode)
    }

    /// The configuration.
    pub fn config(&self) -> (r: StoreConfig)
        ensures
            r == self.config,
    {
        self.config
    }

    /// The index of stored objects.
    pub fn object_index(&self) -> (r: &ObjectIndex)
        ensures
            *r == self.index,
    {
        &self.index
    }

    /// The committed root.
    pub fn current_root(&self) -> (r: Root)
        ensures
            r == self.root,
    {
        self.root
    }

    /// The generation of the committed root.
    pub fn generation(&self) -> (r: u64)
        ensures
            r == self.generation,
    {
        self.generation
    }

    /// The feature bits in use.
    pub fn features_in_use(&self) -> (r: u64)
        ensures
            r == self.features_in_use,
    {
        self.features_in_use
    }

    /// The segment that records are appended to.
    pub fn current_segment_seq(&self) -> (r: u64)
        ensures
            r == self.segment.seq_of(),
    {
        self.segment.seq()
    }
}

} // verus!
