use entropyfs_store::chunk::ChunkId;
use entropyfs_store::root::Root;

#[test]
fn root_roundtrip() {
    let root = Root {
        inode_index_root: ChunkId::of(b"inodes"),
        root_dir_ino: 2,
        snapshot_tree_root: ChunkId::of(b"snaps"),
        chunk_index_root: ChunkId::of(b"chunks"),
        segment_seq: 7,
        index_epoch: 3,
        uuid: [9u8; 16],
        generation: 42,
        ..Default::default()
    };
    let bytes = root.encode();
    let back = Root::decode(&bytes).unwrap();
    assert_eq!(back, root);
    assert_eq!(root.id(), ChunkId::of(&bytes));
}

#[test]
fn corrupt_root_rejected() {
    let root = Root::default();
    let mut bytes = root.encode();
    // Corrupt the format_major field (bytes 0..2): decode must reject.
    bytes[0] ^= 0xFF;
    assert!(Root::decode(&bytes).is_err());
    // A corrupt hash byte decodes fine structurally (hashes are
    // validated against the payload by fsck, not the codec).
    let mut bytes2 = root.encode();
    bytes2[5] ^= 0xFF;
    assert!(Root::decode(&bytes2).is_ok());
}


#[test]
fn a_decoded_root_encodes_back() {
    let mut bytes = Root::default().encode();
    for (i, b) in bytes.iter_mut().enumerate().skip(2) {
        *b = i as u8;
    }
    let root = Root::decode(&bytes).unwrap();
    assert_eq!(root.encode(), bytes);
    bytes.push(0);
    assert!(Root::decode(&bytes).is_err());
}
