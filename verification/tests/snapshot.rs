use entropyfs_store::chunk::ChunkId;
use entropyfs_store::index::{BTreeError, ObjectProvider};
use entropyfs_store::snapshot::{insert, list, lookup, remove, SnapshotEntry};

use std::collections::HashMap;

#[derive(Default)]
struct MemProvider {
    nodes: HashMap<ChunkId, Vec<u8>>,
}

impl ObjectProvider for MemProvider {
    fn get(&self, id: &ChunkId) -> Result<Option<Vec<u8>>, BTreeError> {
        Ok(self.nodes.get(id).cloned())
    }
    fn put(&mut self, id: ChunkId, bytes: Vec<u8>) {
        self.nodes.insert(id, bytes);
    }
}

const ORDER: u16 = 8;

#[test]
fn snapshot_tree_ops() {
    let mut p = MemProvider::default();
    let mut root = ChunkId::zero();
    root = insert(
        root,
        b"before-upgrade",
        SnapshotEntry {
            root_id: ChunkId::of(b"rootA"),
            created_unix_ns: 1,
        },
        ORDER,
        4096,
        &mut p,
    )
    .unwrap();
    root = insert(
        root,
        b"after-upgrade",
        SnapshotEntry {
            root_id: ChunkId::of(b"rootB"),
            created_unix_ns: 2,
        },
        ORDER,
        4096,
        &mut p,
    )
    .unwrap();
    assert_eq!(
        lookup(root, b"before-upgrade", ORDER, 4096, &p)
            .unwrap()
            .unwrap()
            .root_id,
        ChunkId::of(b"rootA")
    );
    let all = list(root, ORDER, 4096, &p).unwrap();
    assert_eq!(all.len(), 2);
    let (new_root, removed) = remove(root, b"before-upgrade", ORDER, 4096, &mut p).unwrap();
    assert!(removed);
    assert_eq!(list(new_root, ORDER, 4096, &p).unwrap().len(), 1);
}

#[test]
fn a_decoded_entry_encodes_back() {
    let bytes: Vec<u8> = (0..40u8).collect();
    let e = SnapshotEntry::decode(&bytes).unwrap();
    assert_eq!(e.encode(), bytes);
    assert!(SnapshotEntry::decode(&bytes[..39]).is_err());
}
