use entropyfs_store::chunk::ChunkId;
use entropyfs_store::node::{Entry, Node};
use entropyfs_store::index::{apply_sorted_batch, bulk_load, count, get, insert, predecessor, remove, scan, scan_all, verify, BTreeError, ObjectProvider};

use std::collections::HashMap;

#[derive(Default)]
struct MemProvider {
    nodes: HashMap<ChunkId, Vec<u8>>,
    puts: usize,
}

impl ObjectProvider for MemProvider {
    fn get(&self, id: &ChunkId) -> Result<Option<Vec<u8>>, BTreeError> {
        Ok(self.nodes.get(id).cloned())
    }
    fn put(&mut self, id: ChunkId, bytes: Vec<u8>) {
        self.nodes.insert(id, bytes);
        self.puts += 1;
    }
}

fn key(n: u64) -> Vec<u8> {
    n.to_be_bytes().to_vec()
}

fn value(n: u64) -> Vec<u8> {
    format!("value-{n}").into_bytes()
}

#[test]
fn insert_get_remove_roundtrip() {
    let mut p = MemProvider::default();
    let order = 8u16;
    let mut root = ChunkId::zero();
    let n = 500u64;
    // Insert in random-ish deterministic order.
    for i in 0..n {
        let k = (i * 37 + 11) % n;
        root = insert(root, &key(k), &value(k), order, 4096, &mut p).unwrap();
    }
    // All present.
    for k in 0..n {
        let v = get(root, &key(k), order, 4096, &p).unwrap();
        assert_eq!(v, Some(value(k)));
    }
    // Verify invariants.
    assert_eq!(verify(root, order, 4096, &p).unwrap(), n);
    // Scan full.
    let all = scan_all(root, order, 4096, &p).unwrap();
    assert_eq!(all.len(), n as usize);
    for w in all.windows(2) {
        assert!(w[0].0 < w[1].0);
    }
    // Remove half.
    for k in (0..n).step_by(2) {
        root = remove(root, &key(k), order, 4096, &mut p).unwrap();
    }
    for k in 0..n {
        let v = get(root, &key(k), order, 4096, &p).unwrap();
        if k % 2 == 0 {
            assert_eq!(v, None, "key {k} should be removed");
        } else {
            assert_eq!(v, Some(value(k)));
        }
    }
    assert_eq!(verify(root, order, 4096, &p).unwrap(), n / 2);
    // Remove the rest.
    for k in (1..n).step_by(2) {
        root = remove(root, &key(k), order, 4096, &mut p).unwrap();
    }
    assert_eq!(root, ChunkId::zero());
}

#[test]
fn replace_updates_value() {
    let mut p = MemProvider::default();
    let order = 8u16;
    let mut root = ChunkId::zero();
    root = insert(root, &key(1), b"a", order, 4096, &mut p).unwrap();
    root = insert(root, &key(1), b"b", order, 4096, &mut p).unwrap();
    assert_eq!(
        get(root, &key(1), order, 4096, &p).unwrap(),
        Some(b"b".to_vec())
    );
    assert_eq!(verify(root, order, 4096, &p).unwrap(), 1);
}

#[test]
fn apply_sorted_batch_matches_sequential_ops() {
    // Build a tree, then apply a mixed sorted batch (upserts +
    // removes) and require the result to match sequential insert/remove
    // exactly — content, invariants, and the final root's content id.
    let order = 8u16;
    let n = 400u64;

    let build = |inserts: &[(u64, u64)]| {
        let mut p = MemProvider::default();
        let mut root = ChunkId::zero();
        for &(k, v) in inserts {
            root = insert(root, &key(k), &value(v), order, 4096, &mut p).unwrap();
        }
        (p, root)
    };

    let inserts: Vec<(u64, u64)> = (0..n).map(|k| (k, k)).collect();
    let (mut p, root) = build(&inserts);

    // A mixed batch: upsert every 3rd key with a new value, remove
    // every 7th key, add 20 fresh keys at the high end, remove 10 at
    // the low end (exercises first_child collapse paths). Built as one
    // sorted, duplicate-free pass.
    let mut batch: Vec<(Vec<u8>, Option<Vec<u8>>)> = Vec::new();
    for k in 0..n + 20 {
        let op = if k < 10 {
            Some(None) // low-end removals
        } else if k < n {
            if k % 7 == 0 {
                Some(None)
            } else if k % 3 == 0 {
                Some(Some(value(k + 1000)))
            } else {
                None // untouched
            }
        } else {
            Some(Some(value(k))) // high-end fresh inserts
        };
        if let Some(op) = op {
            batch.push((key(k), op));
        }
    }

    // Reference: sequential ops.
    let (mut refp, mut refroot) = build(&inserts);
    for (k, v) in &batch {
        match v {
            Some(vv) => {
                refroot = insert(refroot, k, vv, order, 4096, &mut refp).unwrap();
            }
            None => {
                refroot = remove(refroot, k, order, 4096, &mut refp).unwrap();
            }
        }
    }

    // Batch application.
    let new_root = apply_sorted_batch(root, &batch, order, 4096, &mut p).unwrap();
    // Content must match the sequential result exactly (the tree SHAPE
    // may legitimately differ — sequential inserts split at different
    // moments than one bulk patch — so compare content + invariants,
    // not the root id).
    let expected = scan_all(refroot, order, 4096, &refp).unwrap();
    let got = scan_all(new_root, order, 4096, &p).unwrap();
    assert_eq!(got, expected, "content must match the sequential result");
    assert_eq!(
        verify(new_root, order, 4096, &p).unwrap(),
        expected.len() as u64
    );

    // Idempotence: applying the SAME batch again changes nothing.
    let mut p2 = p;
    let again = apply_sorted_batch(new_root, &batch, order, 4096, &mut p2).unwrap();
    assert_eq!(again, new_root, "re-applying the batch must be a no-op");
}

#[test]
fn apply_sorted_batch_collapses_to_empty() {
    let order = 4u16;
    let mut p = MemProvider::default();
    let mut root = ChunkId::zero();
    for k in 0..50u64 {
        root = insert(root, &key(k), &value(k), order, 4096, &mut p).unwrap();
    }
    let batch: Vec<(Vec<u8>, Option<Vec<u8>>)> = (0..50u64).map(|k| (key(k), None)).collect();
    let new_root = apply_sorted_batch(root, &batch, order, 4096, &mut p).unwrap();
    assert_eq!(new_root, ChunkId::zero(), "all keys removed -> empty tree");
    assert_eq!(scan_all(new_root, order, 4096, &p).unwrap().len(), 0);
}

#[test]
fn apply_sorted_batch_keeps_unchanged_subtrees() {
    // A single-key patch must not rewrite nodes outside its path.
    let order = 8u16;
    let mut p = MemProvider::default();
    let mut root = ChunkId::zero();
    for k in 0..500u64 {
        root = insert(root, &key(k), &value(k), order, 4096, &mut p).unwrap();
    }
    let puts_before = p.puts;
    let batch = vec![(key(250), Some(value(9999)))];
    let new_root = apply_sorted_batch(root, &batch, order, 4096, &mut p).unwrap();
    assert_eq!(verify(new_root, order, 4096, &p).unwrap(), 500);
    assert_eq!(
        get(new_root, &key(250), order, 4096, &p).unwrap(),
        Some(value(9999))
    );
    // Only the path nodes (depth + 1 leaf) may be new; far fewer than
    // a full rebuild (500 inserts put 500/8 ~= 60+ leaf + internal
    // nodes).
    let new_puts = p.puts - puts_before;
    assert!(
        new_puts < 8,
        "sparse patch must touch only the affected path (put {new_puts})"
    );
    // The unchanged sibling subtrees keep their ids: the whole-tree
    // scan still resolves through the retained nodes.
    let mut all = scan_all(new_root, order, 4096, &p).unwrap();
    assert_eq!(all.len(), 500);
    let _ = all.pop();
    assert_eq!(
        get(new_root, &key(0), order, 4096, &p).unwrap(),
        Some(value(0))
    );
}

#[test]
fn range_scan() {
    let mut p = MemProvider::default();
    let order = 4u16;
    let mut root = ChunkId::zero();
    for i in 0..100u64 {
        root = insert(root, &key(i), &value(i), order, 4096, &mut p).unwrap();
    }
    // Keys in [10, 20)
    let (entries, more, last) = scan(
        root,
        Some(&key(10)),
        Some(&key(20)),
        usize::MAX,
        order,
        4096,
        &p,
    )
    .unwrap();
    assert!(!more);
    assert_eq!(entries.len(), 10);
    assert_eq!(entries[0].0, key(10));
    assert_eq!(last, Some(key(19)));
    // Bounded scan
    let (entries2, more2, _) = scan(root, None, None, 5, order, 4096, &p).unwrap();
    assert_eq!(entries2.len(), 5);
    assert!(more2);
}

#[test]
fn string_keys_lexicographic() {
    let mut p = MemProvider::default();
    let order = 8u16;
    let mut root = ChunkId::zero();
    for name in ["zeta", "alpha", "mike", "bravo"] {
        root = insert(root, name.as_bytes(), b"v", order, 4096, &mut p).unwrap();
    }
    let all = scan_all(root, order, 4096, &p).unwrap();
    let names: Vec<String> = all
        .iter()
        .map(|(k, _)| String::from_utf8(k.clone()).unwrap())
        .collect();
    assert_eq!(names, vec!["alpha", "bravo", "mike", "zeta"]);
}

#[test]
fn corrupt_node_typed_error() {
    let mut p = MemProvider::default();
    let order = 8u16;
    let mut root = ChunkId::zero();
    root = insert(root, b"k", b"v", order, 4096, &mut p).unwrap();
    // Corrupt the root node payload.
    let bad = p.nodes.get(&root).cloned().unwrap();
    let mut bad = bad;
    bad[0] ^= 0xFF; // node kind byte
    let fake_id = ChunkId::of(&bad);
    p.nodes.insert(fake_id, bad);
    let res = get(fake_id, b"k", order, 4096, &p);
    assert!(res.is_err());
    assert!(matches!(res, Err(BTreeError::Corrupt(_))));
}

fn leaf(pairs: &[(&[u8], &[u8])]) -> Node {
    Node::Leaf {
        entries: pairs.iter().map(|(k, v)| Entry { key: k.to_vec(), value: v.to_vec() }).collect(),
    }
}

#[test]
fn keys_must_increase_from_leaf_to_leaf() {
    let mut p = MemProvider::default();
    let a = leaf(&[(b"z", b"1")]);
    let b = leaf(&[(b"a", b"2")]);
    let top = Node::Internal {
        first_child: a.id(8),
        entries: vec![Entry { key: b"m".to_vec(), value: b.id(8).as_slice().to_vec() }],
    };
    for n in [&a, &b, &top] {
        p.put(n.id(8), n.encode(8));
    }
    assert!(matches!(verify(top.id(8), 8, 4096, &p), Err(BTreeError::Corrupt(_))));
    let right = Node::Internal {
        first_child: b.id(8),
        entries: vec![Entry { key: b"m".to_vec(), value: a.id(8).as_slice().to_vec() }],
    };
    p.put(right.id(8), right.encode(8));
    assert_eq!(verify(right.id(8), 8, 4096, &p), Ok(2));
}

fn pairs(text: &[(&[u8], &[u8])]) -> Vec<(Vec<u8>, Vec<u8>)> {
    text.iter().map(|(k, v)| (k.to_vec(), v.to_vec())).collect()
}

#[test]
fn a_batch_beyond_the_fanout_reads_back() {
    let mut p = MemProvider::default();
    let root = insert(ChunkId::zero(), b"a", b"v", 2, 2, &mut p).unwrap();
    let batch: Vec<(Vec<u8>, Option<Vec<u8>>)> =
        b"bcdef".iter().map(|c| (vec![*c], Some(b"v".to_vec()))).collect();
    let r = apply_sorted_batch(root, &batch, 2, 2, &mut p).unwrap();
    let want: Vec<(Vec<u8>, Vec<u8>)> =
        b"abcdef".iter().map(|c| (vec![*c], b"v".to_vec())).collect();
    assert_eq!(scan_all(r, 2, 2, &p), Ok(want));
    assert_eq!(verify(r, 2, 2, &p), Ok(6));
    assert_eq!(apply_sorted_batch(r, &batch, 2, 2, &mut p), Ok(r));
}

#[test]
fn large_batches_read_back() {
    for order in [1u16, 2, 3, 8] {
        let mut p = MemProvider::default();
        let fanout = order as u32;
        let mut root = insert(ChunkId::zero(), &key(500), &value(0), order, fanout, &mut p).unwrap();
        let batch: Vec<(Vec<u8>, Option<Vec<u8>>)> =
            (0..1000u64).map(|n| (key(n), Some(value(n)))).collect();
        root = apply_sorted_batch(root, &batch, order, fanout, &mut p).unwrap();
        assert_eq!(verify(root, order, fanout, &p), Ok(1000));
        assert_eq!(get(root, &key(777), order, fanout, &p), Ok(Some(value(777))));
        let cut: Vec<(Vec<u8>, Option<Vec<u8>>)> =
            (0..1000u64).filter(|n| n % 7 != 0).map(|n| (key(n), None)).collect();
        root = apply_sorted_batch(root, &cut, order, fanout, &mut p).unwrap();
        assert_eq!(verify(root, order, fanout, &p), Ok(143));
        assert_eq!(get(root, &key(7), order, fanout, &p), Ok(Some(value(7))));
        assert_eq!(get(root, &key(8), order, fanout, &p), Ok(None));
    }
}

#[test]
fn one_changed_value_rewrites_one_path() {
    let mut p = MemProvider::default();
    let entries = pairs(&[(b"a", b"1"), (b"b", b"2"), (b"c", b"3"), (b"d", b"4")]);
    let root = bulk_load(&entries, 2, 4096, &mut p).unwrap();
    assert_eq!(p.puts, 3);
    let batch = vec![(b"c".to_vec(), Some(b"9".to_vec()))];
    let r = apply_sorted_batch(root, &batch, 2, 4096, &mut p).unwrap();
    let left = leaf(&[(b"a", b"1"), (b"b", b"2")]);
    let right = leaf(&[(b"c", b"9"), (b"d", b"4")]);
    let top = Node::Internal {
        first_child: left.id(2),
        entries: vec![Entry { key: b"c".to_vec(), value: right.id(2).as_slice().to_vec() }],
    };
    assert_eq!(r, top.id(2));
    assert_eq!(p.puts, 5);
    assert_eq!(
        scan_all(r, 2, 4096, &p),
        Ok(pairs(&[(b"a", b"1"), (b"b", b"2"), (b"c", b"9"), (b"d", b"4")]))
    );
}

#[test]
fn bulk_load_puts_each_node_once() {
    let mut p = MemProvider::default();
    let entries: Vec<(Vec<u8>, Vec<u8>)> = (0..100u64).map(|n| (key(n), value(n))).collect();
    let root = bulk_load(&entries, 3, 4096, &mut p).unwrap();
    assert_eq!(p.puts, p.nodes.len());
    // 34 leaves under 9, 3 and 1 internal nodes.
    assert_eq!(p.puts, 47);
    for bytes in p.nodes.values() {
        let node = Node::decode(bytes, 3, 4096).unwrap();
        assert!(node.len() <= 3);
    }
    assert_eq!(scan_all(root, 3, 4096, &p), Ok(entries));
    assert_eq!(bulk_load(&[], 3, 4096, &mut p), Ok(ChunkId::zero()));
}

#[test]
fn a_batch_out_of_order_puts_nothing() {
    let mut p = MemProvider::default();
    let long = vec![b'z'; 70_000];
    let batch = vec![(long.clone(), Some(b"1".to_vec())), (b"a".to_vec(), Some(b"2".to_vec()))];
    for root in [ChunkId::zero(), ChunkId::of(b"anything")] {
        let out = apply_sorted_batch(root, &batch, 8, 4096, &mut p);
        assert!(matches!(out, Err(BTreeError::Invariant(_))));
    }
    assert_eq!(p.puts, 0);
    assert_eq!(apply_sorted_batch(ChunkId::of(b"r"), &[], 8, 4096, &mut p), Ok(ChunkId::of(b"r")));
    // An over-long key may be removed: it cannot be there.
    let root = insert(ChunkId::zero(), b"a", b"v", 8, 4096, &mut p).unwrap();
    assert_eq!(apply_sorted_batch(root, &[(long, None)], 8, 4096, &mut p), Ok(root));
}

/// The number of levels, following the first children.
fn levels(p: &MemProvider, root: ChunkId, order: u16) -> usize {
    match Node::decode(&p.nodes[&root], order, 4096).unwrap() {
        Node::Leaf { .. } => 1,
        Node::Internal { first_child, .. } => 1 + levels(p, first_child, order),
    }
}

#[test]
fn binding_keys_keeps_trees_low() {
    let mut p = MemProvider::default();
    let mut root = ChunkId::zero();
    for n in 0..300u64 {
        let before = p.puts;
        let height = if root.is_zero() { 0 } else { levels(&p, root, 2) };
        root = insert(root, &key(n * 7919 % 300), &value(n), 2, 4096, &mut p).unwrap();
        let height_after = levels(&p, root, 2);
        // Every node of the path is written, twice where it is split, and a new root.
        assert!(p.puts - before <= 2 * height + 1);
        assert!(p.puts - before >= height);
        assert!(height_after <= height + 1);
        // Twice the entries for each level more.
        assert!(n + 1 >= 1 << (height_after - 1));
    }
    assert_eq!(verify(root, 2, 4096, &p), Ok(300));
}

#[test]
fn a_failed_edit_puts_nothing() {
    let mut p = MemProvider::default();
    let missing = ChunkId::of(b"missing");
    assert!(insert(missing, b"k", b"v", 8, 4096, &mut p).is_err());
    assert!(remove(missing, b"k", 8, 4096, &mut p).is_err());
    assert_eq!(p.puts, 0);
}

#[test]
fn removing_the_last_key_leaves_the_zero_root() {
    let mut p = MemProvider::default();
    let mut root = ChunkId::zero();
    for k in 0..40u64 {
        root = insert(root, &key(k), &value(k), 4, 4096, &mut p).unwrap();
    }
    for k in 0..40u64 {
        assert_ne!(root, ChunkId::zero());
        root = remove(root, &key(k), 4, 4096, &mut p).unwrap();
    }
    assert_eq!(root, ChunkId::zero());
    assert_eq!(remove(root, &key(1), 4, 4096, &mut p).unwrap(), ChunkId::zero());
}

#[test]
fn loading_nothing_puts_nothing() {
    let mut p = MemProvider::default();
    assert_eq!(bulk_load(&[], 0, 0, &mut p).unwrap(), ChunkId::zero());
    assert_eq!(p.puts, 0);
}

#[test]
fn a_batch_applied_once_more_puts_nothing() {
    let mut p = MemProvider::default();
    let mut root = ChunkId::zero();
    for k in 0..60u64 {
        root = insert(root, &key(k), &value(k), 8, 4096, &mut p).unwrap();
    }
    let batch = vec![
        (key(3), None),
        (key(7), Some(b"seven".to_vec())),
        (key(99), Some(value(99))),
        (key(200), None),
    ];
    let once = apply_sorted_batch(root, &batch, 8, 4096, &mut p).unwrap();
    let puts = p.puts;
    let twice = apply_sorted_batch(once, &batch, 8, 4096, &mut p).unwrap();
    assert_eq!(twice, once);
    assert_eq!(p.puts, puts);
    assert_eq!(get(once, &key(3), 8, 4096, &p).unwrap(), None);
    assert_eq!(get(once, &key(7), 8, 4096, &p).unwrap(), Some(b"seven".to_vec()));
    assert_eq!(get(once, &key(8), 8, 4096, &p).unwrap(), Some(value(8)));
}

#[test]
fn a_missing_node_is_met_only_where_a_reader_goes() {
    let mut p = MemProvider::default();
    let mut root = ChunkId::zero();
    for k in 0..40u64 {
        root = insert(root, &key(k), &value(k), 4, 4096, &mut p).unwrap();
    }
    assert_eq!(predecessor(root, &key(17), 4, 4096, &p).unwrap(), Some((key(16), value(16))));
    assert_eq!(predecessor(root, &key(0), 4, 4096, &p).unwrap(), None);
    assert_eq!(count(root, 4, 4096, &p), Ok(40));
    // The leaf of the last key is gone.
    let dropped: Vec<ChunkId> = p
        .nodes
        .iter()
        .filter(|(_, b)| match Node::decode(b, 4, 4096) {
            Ok(Node::Leaf { entries }) => entries.iter().any(|e| e.key == key(39)),
            _ => false,
        })
        .map(|(id, _)| *id)
        .collect();
    assert!(!dropped.is_empty());
    for id in dropped {
        p.nodes.remove(&id);
    }
    assert!(matches!(predecessor(root, &key(99), 4, 4096, &p), Err(BTreeError::Invariant(_))));
    assert!(matches!(scan_all(root, 4, 4096, &p), Err(BTreeError::Invariant(_))));
    assert!(matches!(count(root, 4, 4096, &p), Err(BTreeError::Invariant(_))));
    // A scan that ends before it does not meet it.
    let (some, more, _) = scan(root, None, None, 3, 4, 4096, &p).unwrap();
    assert_eq!((some.len(), more), (3, true));
    assert_eq!(predecessor(root, &key(5), 4, 4096, &p).unwrap(), Some((key(4), value(4))));
}
