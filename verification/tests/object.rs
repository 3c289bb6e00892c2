use entropyfs_store::chunk::ChunkId;
use entropyfs_store::object::{Location, ObjectIndex};
use entropyfs_store::version::RecordTag;

#[test]
fn index_basics() {
    let mut idx = ObjectIndex::new();
    let id = ChunkId::of(b"obj");
    let loc = Location {
        segment_seq: 0,
        offset: 64,
        stored_len: 16,
        materialized_len: Some(16),
        tag: RecordTag::Data,
    };
    assert!(!idx.contains(&id));
    idx.insert(id, loc);
    assert!(idx.contains(&id));
    assert_eq!(idx.get(&id), Some(&loc));
    assert_eq!(idx.len(), 1);
    assert_eq!(idx.remove(&id), Some(loc));
    assert!(idx.is_empty());
}
