use entropyfs_store::chunk::ChunkId;
use entropyfs_store::directory::{count, insert, lookup, remove, scan, DirEntry};
use entropyfs_store::dt;
use entropyfs_store::index::{BTreeError, ObjectProvider};

use std::collections::HashMap;

#[derive(Default)]
struct MemProvider {
    nodes: HashMap<ChunkId, Vec<u8>>,
}

impl ObjectProvider for MemProvider {
    fn get(&self, id: &ChunkId) -> Result<Option<Vec<u8>>, BTreeError> {
        Ok(self.nodes.get(id).cloned())
    }
    fn put(&mut self, id: ChunkId, bytes: Vec<u8>) {
        self.nodes.insert(id, bytes);
    }
}

const ORDER: u16 = 8;

#[test]
fn insert_lookup_remove_scan() {
    let mut p = MemProvider::default();
    let mut root = ChunkId::zero();
    root = insert(
        root,
        b"alpha",
        DirEntry {
            ino: 10,
            d_type: dt::DT_REG,
        },
        ORDER,
        4096,
        &mut p,
    )
    .unwrap();
    root = insert(
        root,
        b"beta",
        DirEntry {
            ino: 11,
            d_type: dt::DT_DIR,
        },
        ORDER,
        4096,
        &mut p,
    )
    .unwrap();
    root = insert(
        root,
        b"gamma",
        DirEntry {
            ino: 12,
            d_type: dt::DT_LNK,
        },
        ORDER,
        4096,
        &mut p,
    )
    .unwrap();
    assert_eq!(
        lookup(root, b"beta", ORDER, 4096, &p).unwrap(),
        Some(DirEntry {
            ino: 11,
            d_type: dt::DT_DIR
        })
    );
    assert_eq!(lookup(root, b"missing", ORDER, 4096, &p).unwrap(), None);
    let (entries, more) = scan(root, None, 100, ORDER, 4096, &p).unwrap();
    assert!(!more);
    assert_eq!(entries.len(), 3);
    assert_eq!(entries[0].0, b"alpha");
    // bounded scan with start_after
    let (page2, more2) = scan(root, Some(b"alpha"), 1, ORDER, 4096, &p).unwrap();
    assert!(more2);
    assert_eq!(page2[0].0, b"beta");
    // remove
    let (new_root, removed) = remove(root, b"beta", ORDER, 4096, &mut p).unwrap();
    assert!(removed);
    assert_eq!(lookup(new_root, b"beta", ORDER, 4096, &p).unwrap(), None);
    assert_eq!(count(new_root, ORDER, 4096, &p).unwrap(), 2);
}

#[test]
fn raw_bytes_names() {
    let mut p = MemProvider::default();
    let mut root = ChunkId::zero();
    // Names with invalid UTF-8 must work.
    let weird: &[u8] = &[0xFF, 0xFE, 0x00, 0x41];
    root = insert(
        root,
        weird,
        DirEntry {
            ino: 7,
            d_type: dt::DT_REG,
        },
        ORDER,
        4096,
        &mut p,
    )
    .unwrap();
    assert_eq!(
        lookup(root, weird, ORDER, 4096, &p).unwrap(),
        Some(DirEntry {
            ino: 7,
            d_type: dt::DT_REG
        })
    );
}
