use entropyfs_store::chunk::ChunkId;
use entropyfs_store::extent_tree::{covering, insert, remove, scan_range};
use entropyfs_store::index::{BTreeError, ObjectProvider};

use std::collections::HashMap;

#[derive(Default)]
struct MemProvider {
    nodes: HashMap<ChunkId, Vec<u8>>,
}

impl ObjectProvider for MemProvider {
    fn get(&self, id: &ChunkId) -> Result<Option<Vec<u8>>, BTreeError> {
        Ok(self.nodes.get(id).cloned())
    }
    fn put(&mut self, id: ChunkId, bytes: Vec<u8>) {
        self.nodes.insert(id, bytes);
    }
}

const ORDER: u16 = 8;

#[test]
fn insert_covering_scan_remove() {
    let mut p = MemProvider::default();
    let mut root = ChunkId::zero();
    for (off, tag) in [(0u64, 1u8), (65536, 2), (131072, 3)] {
        root = insert(root, off, &[tag, 0, 0, 0], ORDER, 4096, &mut p).unwrap();
    }
    // covering lookups
    let (start, v) = covering(root, 100, ORDER, 4096, &p).unwrap().unwrap();
    assert_eq!(start, 0);
    assert_eq!(v, vec![1, 0, 0, 0]);
    let (start, v) = covering(root, 65536, ORDER, 4096, &p).unwrap().unwrap();
    assert_eq!(start, 65536);
    assert_eq!(v, vec![2, 0, 0, 0]);
    // range scan: extents whose START is in [100, 200000) => two of
    // them (the extent at 0 starts before the range).
    let (range, _) = scan_range(root, 100, 200000, 100, ORDER, 4096, &p).unwrap();
    assert_eq!(range.len(), 2);
    let (all, _) = scan_range(root, 0, 200000, 100, ORDER, 4096, &p).unwrap();
    assert_eq!(all.len(), 3);
    // remove middle
    let (new_root, removed) = remove(root, 65536, ORDER, 4096, &mut p).unwrap();
    assert!(removed);
    let (start, v) = covering(new_root, 70000, ORDER, 4096, &p).unwrap().unwrap();
    // 70000 now falls in the hole between 0-extent and 131072-extent;
    // the predecessor is the 0 extent.
    assert_eq!(start, 0);
    assert_eq!(v, vec![1, 0, 0, 0]);
}
