use entropyfs_store::chunk::ChunkId;
use entropyfs_store::compose::WriteOverlay;
use entropyfs_store::error::StoreError;
use entropyfs_store::prepare::{
    check_redo, edit_base, needs_redo, prepare_write, DictionarySource, EditBase, Encoded,
    PendingBatch, Reuse, Verdict,
};
use entropyfs_store::transfer::{advance, transfer_error, Step, TransferBatch};
use entropyfs_store::window::{
    clip_read, materialize_decode, plan_punch, plan_trim, plan_write, run_bounds, sort_regions,
    Punch,
};

#[test]
fn reads_stop_at_the_end_of_the_file() {
    assert_eq!(clip_read(10, 3, 4), (4, 7));
    assert_eq!(clip_read(10, 8, 4), (2, 10));
    assert_eq!(clip_read(10, 10, 4), (0, 10));
    assert_eq!(clip_read(10, u64::MAX, 4), (0, u64::MAX));
}

#[test]
fn holes_read_as_zeros() {
    let extents = vec![(2u64, vec![1u8, 2, 3]), (8, vec![9, 9])];
    assert_eq!(
        materialize_decode(&extents, 0, 10, 10),
        vec![0, 0, 1, 2, 3, 0, 0, 0, 9, 9]
    );
    assert_eq!(materialize_decode(&extents, 3, 9, 6), vec![2, 3, 0, 0, 0, 9]);
}

#[test]
fn assembly_in_any_order() {
    let a = vec![(0u64, vec![1u8; 4]), (4, vec![2; 4])];
    let b = vec![(4u64, vec![2u8; 4]), (0, vec![1; 4])];
    assert_eq!(materialize_decode(&a, 1, 7, 6), materialize_decode(&b, 1, 7, 6));
}

#[test]
fn decode_runs_tile() {
    let mut next = 0;
    for w in 0..3 {
        let (lo, hi) = run_bounds(w, 10, 3);
        assert_eq!(lo, next);
        assert!(hi > lo);
        next = hi;
    }
    assert_eq!(next, 10);
}

#[test]
fn plan_splits_at_chunk_boundaries() {
    let (plan, size) = plan_write(8, 6, 12, 7).unwrap();
    assert_eq!(size, 18);
    assert_eq!(plan.len(), 3);
    assert_eq!((plan[0].chunk_off, plan[0].in_start, plan[0].in_end), (0, 6, 8));
    assert_eq!((plan[0].read_len, plan[0].chunk_len), (7, 8));
    assert_eq!((plan[1].read_len, plan[1].chunk_len), (0, 8));
    assert_eq!((plan[2].chunk_off, plan[2].chunk_len), (16, 2));
    assert!(plan_write(8, u64::MAX - 3, 2, 0).is_none());
    // A write may end a whole chunk before the positions do, and no later.
    let (plan, size) = plan_write(8, u64::MAX - 8, 1, 0).unwrap();
    assert_eq!(plan.len(), 1);
    assert_eq!((plan[0].chunk_off, size), (u64::MAX - 15, u64::MAX - 7));
    assert!(plan_write(8, u64::MAX - 7, 1, 0).is_none());
}

#[test]
fn batch_composes_over_what_it_wrote() {
    let mut o = WriteOverlay::new(8, 5);
    let reads = vec![(0u64, b"hello".to_vec())];
    assert_eq!(o.needed(3, 10), Some(vec![(0, 5)]));
    assert_eq!(o.apply(3, b"ABCDEFGHIJ", &reads), Some(vec![0, 8]));
    assert_eq!(o.size, 13);
    assert_eq!(
        o.chunks,
        vec![(0, b"helABCDE".to_vec()), (8, b"FGHIJ".to_vec())]
    );
    // The second region lies inside the first: nothing of the first is lost.
    assert_eq!(o.needed(4, 2), Some(vec![]));
    assert_eq!(o.apply(4, b"xy", &Vec::new()), Some(vec![0]));
    assert_eq!(o.size, 13);
    assert_eq!(o.chunks[0], (0, b"helAxyDE".to_vec()));
    assert_eq!(materialize_decode(&o.chunks, 0, 13, 13), b"helAxyDEFGHIJ".to_vec());
}

#[test]
fn short_region_keeps_longer_one() {
    let mut o = WriteOverlay::new(1024, 0);
    o.apply(0, &[7u8; 100], &Vec::new()).unwrap();
    o.apply(10, &[1u8; 5], &Vec::new()).unwrap();
    assert_eq!(o.size, 100);
    let bytes = materialize_decode(&o.chunks, 0, 100, 100);
    assert_eq!(bytes[99], 7);
    assert_eq!(bytes[12], 1);
}

#[test]
fn regions_sort_by_offset() {
    let sorted = sort_regions(vec![
        (8, b"a".to_vec()),
        (0, b"b".to_vec()),
        (8, b"c".to_vec()),
    ]);
    assert_eq!(
        sorted,
        vec![(0, b"b".to_vec()), (8, b"a".to_vec()), (8, b"c".to_vec())]
    );
}

#[test]
fn punch_plans() {
    assert_eq!(plan_punch(10, 4, 10, false), Punch::Truncate { size: 4 });
    assert_eq!(plan_punch(10, 4, 20, true), Punch::Zero { start: 4, len: 6 });
    assert_eq!(plan_punch(10, 4, 6, false), Punch::Zero { start: 4, len: 2 });
    assert_eq!(plan_punch(10, 12, 20, true), Punch::Nothing);
}

#[test]
fn bases_and_dictionaries() {
    assert_eq!(edit_base(true, true, 100, 0, 8), EditBase::Nothing);
    assert_eq!(edit_base(false, true, 100, 0, 8), EditBase::Stored);
    assert_eq!(edit_base(false, false, 100, 0, 8), EditBase::OldBytes);
    assert_eq!(edit_base(false, false, 4, 0, 8), EditBase::Nothing);
    let mut o = WriteOverlay::new(8, 0);
    o.apply(0, &[1u8; 8], &Vec::new()).unwrap();
    assert_eq!(o.dictionary_source(0), DictionarySource::Nothing);
    assert_eq!(o.dictionary_source(8), DictionarySource::Batch { offset: 0 });
    assert_eq!(o.dictionary_source(16), DictionarySource::Stored { offset: 8 });
}

#[test]
fn content_is_encoded_once_per_batch() {
    let mut b = PendingBatch::new();
    let cid = ChunkId::of(b"content");
    assert_eq!(b.reuse(&cid, Some(3)), Reuse::Encode);
    b.register(&cid, true, vec![1; 9], 1, vec![(ChunkId::of(b"o"), b"o".to_vec())]);
    assert_eq!(b.reuse(&cid, Some(3)), Reuse::Encode);
    b.register(&cid, false, vec![1; 10], 2, Vec::new());
    b.register(&cid, false, vec![2; 4], 5, Vec::new());
    assert_eq!(b.depth_of(&cid), 2);
    assert_eq!(b.reuse(&cid, Some(9)), Reuse::Alias);
    assert_eq!(b.reuse(&cid, Some(10)), Reuse::Canonical);
    assert_eq!(b.reuse(&cid, None), Reuse::Canonical);
}

#[test]
fn encoding_again() {
    assert!(!needs_redo(false, 0, false));
    assert!(needs_redo(true, 0, false));
    assert!(needs_redo(false, 1, false));
    assert!(!needs_redo(true, 1, true));
    assert!(check_redo(true, 4, 4).is_ok());
    assert!(matches!(check_redo(true, 5, 4), Err(StoreError::Invariant(_))));
    assert!(matches!(check_redo(false, 0, 4), Err(StoreError::Invariant(_))));
}

#[test]
fn a_write_is_prepared_chunk_by_chunk() {
    let mut o = WriteOverlay::new(8, 20);
    let reads = vec![(0u64, vec![1u8; 8]), (16, vec![3u8; 4])];
    let chunks = prepare_write(&mut o, 6, &[9u8; 12], &reads, 20).unwrap();
    assert_eq!(chunks.len(), 3);
    assert_eq!(chunks[0].bytes, vec![1, 1, 1, 1, 1, 1, 9, 9]);
    assert_eq!(chunks[0].cid, ChunkId::of(&chunks[0].bytes));
    assert_eq!(chunks[0].base, EditBase::OldBytes);
    assert_eq!(chunks[0].dictionary, DictionarySource::Nothing);
    assert_eq!(chunks[1].base, EditBase::Stored);
    assert_eq!(chunks[1].dictionary, DictionarySource::Batch { offset: 0 });
    assert_eq!(chunks[2].bytes, vec![9, 9, 3, 3]);
    assert_eq!(o.size, 20);
    let again = prepare_write(&mut o, 0, b"x", &Vec::new(), 20).unwrap();
    assert_eq!(again[0].base, EditBase::Nothing);
    let nothing = prepare_write(&mut o, 5, b"", &Vec::new(), 20).unwrap();
    assert_eq!(nothing.len(), 0);
    assert_eq!(o.size, 20);
}

fn encoded(descriptor: &[u8], depth: u8, valid: bool) -> Encoded {
    Encoded {
        descriptor: descriptor.to_vec(),
        is_alias: false,
        synthetic: false,
        depth,
        valid,
        objects: Vec::new(),
    }
}

#[test]
fn a_batch_settles_its_chunks() {
    let mut b = PendingBatch::new();
    let cid = ChunkId::of(b"c");
    assert_eq!(b.settle(&cid, None, encoded(b"d", 1, false)), Verdict::Redo);
    assert!(matches!(
        b.settle_redo(&cid, encoded(b"d", 9, true), 8),
        Err(StoreError::Invariant(_))
    ));
    b.settle_redo(&cid, encoded(b"dd", 2, true), 8).unwrap();
    assert_eq!(b.depth_of(&cid), 2);
    assert_eq!(b.settle(&cid, Some(1), encoded(b"e", 0, true)), Verdict::Alias);
    assert_eq!(b.settle(&cid, Some(5), encoded(b"e", 0, true)), Verdict::Canonical);
    let other = ChunkId::of(b"o");
    assert_eq!(b.settle(&other, None, encoded(b"f", 0, false)), Verdict::Keep);
}

#[test]
fn trims() {
    assert_eq!(plan_trim(0, 100, 40), Some(40));
    assert_eq!(plan_trim(0, 100, 100), None);
    assert_eq!(plan_trim(40, 100, 40), None);
}

#[test]
fn short_transfers_go_on() {
    assert_eq!(advance(0, 10, 10), Step::Done);
    assert_eq!(advance(2, 10, 3), Step::Again { filled: 5 });
    assert_eq!(advance(2, 10, 0), Step::Stuck);
    assert_eq!(advance(0, 10, -5), Step::Failed { errno: 5 });
    let mut b = TransferBatch::new(vec![4, 0, 6]);
    assert_eq!(b.open_requests(), vec![0, 2]);
    b.complete(2, 6);
    b.complete(0, 1);
    assert_eq!(b.open_requests(), vec![0]);
    b.complete(0, -9);
    assert!(b.open_requests().is_empty());
    assert!(matches!(
        transfer_error(&b.ended[0].unwrap()),
        Some(StoreError::Io(_))
    ));
    assert!(transfer_error(&b.ended[2].unwrap()).is_none());
}

#[test]
fn a_batch_of_regions_composes() {
    let mut o = WriteOverlay::new(8, 10);
    let reads = vec![(0u64, b"abcdefgh".to_vec()), (8, b"ij".to_vec())];
    let writes = vec![
        (9u64, b"XY".to_vec()),
        (2, b"123".to_vec()),
        (3, b"9".to_vec()),
        (2, b"".to_vec()),
        (14, b"Z".to_vec()),
    ];
    assert!(o.write_region_batch(writes, &reads));
    assert_eq!(o.size, 15);
    let mut want = b"ab193fghiXY".to_vec();
    want.extend_from_slice(&[0, 0, 0, b'Z']);
    assert_eq!(materialize_decode(&o.chunks, 0, 15, 15), want);
    let mut far = WriteOverlay::new(8, 0);
    assert!(!far.write_region_batch(vec![(u64::MAX - 1, b"x".to_vec())], &Vec::new()));
}
