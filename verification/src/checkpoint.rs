//! Checkpoint: the overlay merged into the committed trees, each of them
//! rebuilt once.

use vstd::prelude::*;

use crate::bytes::{be_u64, copy_bytes, copy_range, lex_lt};
use crate::chunk::{digest, zero_id, ChunkId};
use crate::directory::{entry_bytes, entry_round_trip, DirEntry};
use crate::epoch::{base_entries, base_xattrs, faces, lemma_at, lemma_upsert_at, lemma_upsert_keys,
    mapped, number_keys, overlaid, shown, shown_entries, shown_inode, slot, slot_key, slot_keys,
    Epoch, Overlay};
use crate::epoch_laws::{lemma_faces, ordered, readable_is_ordered};
use crate::epoch_ops::holdable;
use crate::error::StoreError;
use crate::extents::data_edited;
use crate::fs::{contents_ok, data_root, entries_ok, fs_ok, ino_key, inode_fits, item_of, key_ino,
    lemma_fits_grows, lemma_fs_grows, lemma_has_key, lemma_ino_key, lemma_key_ino, lemma_listing,
    lemma_ns_at, lemma_object, lemma_row_grows, lemma_tree_encodable, lemma_tree_grows,
    lemma_tree_sorted, listing, ns, offsets_ok, rootless, row_ok, stored_inode, tree_ok, Listing,
    Namespace, BTREE_ORDER};
use crate::index::{self, pair_views, EntryPair, ObjectProvider};
use crate::index_batch::{op_view, ops, ops_encodable, BatchOp};
use crate::index_edit::lemma_clash_free_subset;
use crate::inode::{inode_bytes, inode_ok, inode_round_trip, Inode, InodeData, InodeView};
use crate::io::IoBackend;
use crate::map::SortedMap;
use crate::namespace::{objects_added, read_inode, readable, strained};
use crate::node::leaf_encodable;
use crate::overlay::{dir_views, entry_over, kind_kept, lemma_entry_over, lemma_lookup_take,
    overlay_ok, overlays, slot_of_number};
use crate::sorted::{apply_ops, has_key, lemma_apply_sorted, lemma_lookup_apply, lemma_rank, lookup,
    rank, sorted};
use crate::store::Store;
use crate::transaction::{put_inode, Tx};
use crate::tree::{clash_free, lists};

verus! {

// ---------------------------------------------------------------------------
// One directory
// ---------------------------------------------------------------------------

/// The pairs of a listing as stored.
pub open spec fn stored_pairs(v: Seq<(Seq<u8>, DirEntry)>) -> Listing {
    Seq::new(v.len(), |i: int| (v[i].0, entry_bytes(v[i].1)))
}

proof fn lemma_stored_pairs(v: Seq<(Seq<u8>, DirEntry)>)
    requires
        sorted(v),
    ensures
        sorted(stored_pairs(v)),
        entries_ok(stored_pairs(v)),
        forall|k: Seq<u8>| #[trigger]
            lookup(stored_pairs(v), k) == match lookup(v, k) {
                Some(e) => Some(entry_bytes(e)),
                None => None,
            },
{
    let s = stored_pairs(v);
    assert forall|i: int, j: int| #![trigger s[i], s[j]] 0 <= i < j < s.len() implies lex_lt(
        s[i].0,
        s[j].0,
    ) by {
        assert(v[i].0 == s[i].0 && v[j].0 == s[j].0);
    }
    assert forall|i: int| 0 <= i < s.len() implies crate::directory::parse_entry(
        (#[trigger] s[i]).1,
    ) is Ok by {
        entry_round_trip(v[i].1);
    }
    assert forall|k: Seq<u8>| #[trigger] lookup(s, k) == (match lookup(v, k) {
        Some(e) => Some(entry_bytes(e)),
        None => None,
    }) by {
        lemma_rank(s, k);
        lemma_rank(v, k);
        if has_key(s, k) {
            assert(v[rank(s, k)].0 == k);
        }
        if has_key(v, k) {
            assert(s[rank(v, k)].0 == k);
        }
    }
}

/// Encode the entries of a directory; `None` where a name is too long to store.
fn encode_entries(entries: &Vec<(Vec<u8>, DirEntry)>) -> (r: Option<Vec<EntryPair>>)
    ensures
        match r {
            Some(v) => pair_views(v@) == stored_pairs(dir_views(entries@)) && leaf_encodable(
                pair_views(v@),
            ),
            None => exists|i: int|
                0 <= i < entries@.len() && (#[trigger] entries@[i]).0@.len() > u16::MAX,
        },
{
    let mut out: Vec<EntryPair> = Vec::new();
    let mut i: usize = 0;
    while i < entries.len()
        invariant
            i <= entries@.len(),
            out@.len() == i,
            forall|j: int|
                0 <= j < i ==> (#[trigger] out@[j]).0@ == entries@[j].0@ && out@[j].1@
                    == entry_bytes(entries@[j].1) && entries@[j].0@.len() <= u16::MAX,
        decreases entries@.len() - i,
    {
        if entries[i].0.len() > 0xffff {
            return None;
        }
        out.push((copy_bytes(&entries[i].0), entries[i].1.encode()));
        i += 1;
    }
    proof {
        assert(pair_views(out@) =~= stored_pairs(dir_views(entries@)));
        assert forall|j: int| 0 <= j < pair_views(out@).len() implies (#[trigger] pair_views(
            out@,
        )[j]).0.len() <= u16::MAX && pair_views(out@)[j].1.len() <= u32::MAX by {
            entry_round_trip(entries@[j].1);
            assert(out@[j].0@ == entries@[j].0@);
        }
    }
    Some(out)
}

/// The levels of a merged tree.
pub open spec fn merged_levels(h: nat) -> nat {
    h + 65
}

/// Every shown name of a directory can be stored.
proof fn lemma_names_short<B: IoBackend>(
    tx: Tx<B>,
    ep: Epoch,
    h: nat,
    dir: u64,
    name: Seq<u8>,
)
    requires
        overlays(tx, ep, h),
        entry_over(tx.ns(), ep@, dir, name) is Some,
    ensures
        name.len() <= u16::MAX,
{
    let n = tx.ns();
    if ep@.names.contains_key((dir, name)) {
    } else {
        let s = base_entries(n, dir);
        if n.contains_key(dir) {
            let p = tx.objects.payloads();
            lemma_ns_at(p, tx.root.inode_index_root@, tx.max_fanout, h, dir);
            let v = tx.inode_of(dir)->0;
            lemma_tree_encodable(p, data_root(v.data), tx.max_fanout, h);
            lemma_tree_sorted(p, data_root(v.data), tx.max_fanout, h);
            lemma_has_key(s, name);
            assert(s[rank(s, name)].0 == name);
        } else {
            assert(rank(s, name) == 0);
        }
    }
}

/// Rebuild the tree of a directory from what the epoch shows of it.
#[verifier::rlimit(60)]
#[verifier::spinoff_prover]
fn rebuild_dir<B: IoBackend>(tx: &mut Tx<'_, B>, ep: &Epoch, dir: u64) -> (r: Result<
    ChunkId,
    StoreError,
>)
    requires
        ep.wf(),
    ensures
        objects_added(*old(tx), *final(tx)),
        forall|h: nat| #[trigger]
            overlays(*old(tx), *ep, h) && clash_free(final(tx).objects.payloads()) && holdable(
                old(tx).ns(),
            ) && dir_kind(old(tx).ns(), ep@, dir) ==> match r {
                Ok(id) => {
                    let p = final(tx).objects.payloads();
                    let f = final(tx).max_fanout;
                    &&& tree_ok(p, id@, f, 65)
                    &&& mapped(listing(p, id@, f)) == shown_entries(old(tx).ns(), ep@, dir)
                    &&& entries_ok(listing(p, id@, f))
                },
                Err(_) => strained(*old(tx), h),
            },
{
    let ghost was = *tx;
    let ghost n = tx.ns();
    proof {
        assert forall|h: nat| #[trigger] overlays(was, *ep, h) && holdable(n) implies was.reads(h)
            && crate::overlay::fits_memory(base_entries(n, dir)) by {}
    }
    let entries = match Store::read_dir_epoch(ep, tx, dir) {
        Ok(v) => v,
        Err(e) => {
            proof {
                assert forall|h: nat| #[trigger] overlays(was, *ep, h) && dir_kind(
                    n,
                    ep@,
                    dir,
                ) implies !crate::overlay::base_not_dir(n, dir) by {}
            }
            return Err(e);
        },
    };
    let ghost views = dir_views(entries@);
    let pairs = match encode_entries(&entries) {
        Some(v) => v,
        None => {
            proof {
                let i = choose|i: int|
                    0 <= i < entries@.len() && (#[trigger] entries@[i]).0@.len() > u16::MAX;
                assert forall|h: nat| #[trigger] overlays(was, *ep, h) && holdable(n) implies false by {
                    lemma_at(views, i);
                    assert(views[i].0 == entries@[i].0@);
                    lemma_names_short(was, *ep, h, dir, views[i].0);
                }
            }
            return Err(StoreError::Invariant("entry name too long".to_string()));
        },
    };
    let ghost s = pair_views(pairs@);
    let out = index::bulk_load(&pairs, BTREE_ORDER, tx.max_fanout, &mut tx.objects);
    proof {
        lemma_stored_pairs(views);
        let p = tx.objects.payloads();
        let f = tx.max_fanout;
        if let Ok(id) = out {
            assert forall|h: nat| #[trigger] overlays(was, *ep, h) && clash_free(p) && holdable(n)
                && dir_kind(n, ep@, dir) implies {
                &&& tree_ok(p, id@, f, 65)
                &&& mapped(listing(p, id@, f)) == shown_entries(n, ep@, dir)
                &&& entries_ok(listing(p, id@, f))
            } by {
                lemma_listing(p, id@, f, 65, s);
                assert forall|k: Seq<u8>| #[trigger] lookup(s, k) == slot(n, ep@, dir, k) by {
                    lemma_dir_slot(was, *ep, h, dir, k);
                }
                assert(mapped(s) =~= shown_entries(n, ep@, dir));
            }
        }
    }
    match out {
        Ok(id) => Ok(id),
        Err(e) => Err(StoreError::index(e)),
    }
}

/// A pending directory.
pub open spec fn dir_kind(n: Namespace, o: Overlay, dir: u64) -> bool {
    &&& o.inodes.contains_key(dir)
    &&& o.inodes[dir].data is Directory
    &&& kind_kept(n, o, dir)
}

/// A pending file.
pub open spec fn file_kind(n: Namespace, o: Overlay, ino: u64) -> bool {
    &&& o.inodes.contains_key(ino)
    &&& o.inodes[ino].data is File
    &&& kind_kept(n, o, ino)
}

/// What is under a name of a pending directory is what its entry is.
proof fn lemma_dir_slot<B: IoBackend>(tx: Tx<B>, ep: Epoch, h: nat, dir: u64, k: Seq<u8>)
    requires
        overlays(tx, ep, h),
        dir_kind(tx.ns(), ep@, dir),
    ensures
        slot(tx.ns(), ep@, dir, k) == (match entry_over(tx.ns(), ep@, dir, k) {
            Some(e) => Some(entry_bytes(e)),
            None => None,
        }),
{
    // Whether the number is gone makes no difference to its slots.
    let o = ep@;
    let kept = Overlay { gone: Set::empty(), ..o };
    let n = tx.ns();
    readable_is_ordered(tx, h);
    assert(overlay_ok(n, kept)) by {
        assert forall|i: u64| #[trigger] kept.inodes.contains_key(i) implies kind_kept(
            n,
            kept,
            i,
        ) by {
            assert(kind_kept(n, o, i));
        }
        assert forall|p: (u64, Seq<u8>)| #[trigger] kept.names.contains_key(p) implies p.1.len()
            <= 255 && kept.inodes.contains_key(p.0) && kept.inodes[p.0].data is Directory
            && !kept.cuts.contains(p) by {
            assert(o.names.contains_key(p));
        }
        assert forall|p: (u64, Seq<u8>)| #[trigger] kept.cuts.contains(
            p,
        ) implies kept.inodes.contains_key(p.0) && kept.inodes[p.0].data is Directory by {
            assert(o.cuts.contains(p));
        }
        assert forall|p: (u64, Seq<u8>)| #[trigger] kept.extents.contains_key(p) implies p.1.len()
            == 8 && kept.extents[p].len() <= u32::MAX && kept.inodes.contains_key(p.0)
            && kept.inodes[p.0].data is File by {
            assert(o.extents.contains_key(p));
        }
    }
    lemma_entry_over(n, kept, dir, k);
}

// ---------------------------------------------------------------------------
// Batches
// ---------------------------------------------------------------------------

/// The operations of a batch: values by view.
pub open spec fn opt_views(s: Seq<(Seq<u8>, Option<Vec<u8>>)>) -> Seq<(Seq<u8>, Option<Seq<u8>>)> {
    Seq::new(
        s.len(),
        |i: int|
            (
                s[i].0,
                match s[i].1 {
                    Some(v) => Some(v@),
                    None => None,
                },
            ),
    )
}

/// What a batch does at a key.
pub open spec fn op_at(s: Seq<(Seq<u8>, Option<Vec<u8>>)>, k: Seq<u8>) -> Option<Option<Seq<u8>>> {
    match lookup(s, k) {
        Some(Some(v)) => Some(Some(v@)),
        Some(None) => Some(None),
        None => None,
    }
}

proof fn lemma_opt_views(s: Seq<(Seq<u8>, Option<Vec<u8>>)>)
    requires
        sorted(s),
    ensures
        sorted(opt_views(s)),
        forall|k: Seq<u8>| #[trigger] lookup(opt_views(s), k) == op_at(s, k),
{
    let t = opt_views(s);
    assert forall|i: int, j: int| #![trigger t[i], t[j]] 0 <= i < j < t.len() implies lex_lt(
        t[i].0,
        t[j].0,
    ) by {
        assert(s[i].0 == t[i].0 && s[j].0 == t[j].0);
    }
    assert forall|k: Seq<u8>| #[trigger] lookup(t, k) == op_at(s, k) by {
        lemma_rank(s, k);
        lemma_rank(t, k);
        if has_key(t, k) {
            assert(s[rank(t, k)].0 == k);
        }
        if has_key(s, k) {
            assert(t[rank(s, k)].0 == k);
        }
    }
}

/// The operations of a map in key order; `None` where one is too long to store.
fn batch_of(m: &SortedMap<Option<Vec<u8>>>) -> (r: Option<Vec<BatchOp>>)
    ensures
        match r {
            Some(v) => ops(v@) == opt_views(m@) && ops_encodable(ops(v@)),
            None => exists|i: int|
                0 <= i < m@.len() && ((#[trigger] m@[i]).0.len() > u16::MAX || (m@[i].1 matches Some(
                    v,
                ) && v@.len() > u32::MAX)),
        },
{
    let mut out: Vec<BatchOp> = Vec::new();
    let mut i: usize = 0;
    while i < m.len()
        invariant
            i <= m@.len(),
            out@.len() == i,
            forall|j: int|
                0 <= j < i ==> op_view(#[trigger] out@[j]) == opt_views(m@)[j] && opt_views(
                    m@,
                )[j].0.len() <= u16::MAX && (opt_views(m@)[j].1 matches Some(v) ==> v.len()
                    <= u32::MAX),
        decreases m@.len() - i,
    {
        let key = m.key_at(i);
        if key.len() > 0xffff {
            assert(m@[i as int].0.len() > u16::MAX);
            return None;
        }
        let val = match m.value_at(i) {
            Some(v) => {
                if v.len() > 0xffff_ffff {
                    assert(m@[i as int].1 is Some);
                    return None;
                }
                Some(copy_bytes(v))
            },
            None => None,
        };
        out.push((copy_bytes(key), val));
        i += 1;
    }
    assert(ops(out@) =~= opt_views(m@));
    Some(out)
}

// ---------------------------------------------------------------------------
// One file
// ---------------------------------------------------------------------------

/// The pending extents of a file, as a batch by offset key.
#[verifier::rlimit(40)]
fn file_batch(ep: &Epoch, ino: u64) -> (r: SortedMap<Option<Vec<u8>>>)
    requires
        ep.wf(),
    ensures
        r.wf(),
        r@.len() <= ep.pending_extents@.len(),
        forall|k: Seq<u8>| #[trigger]
            op_at(r@, k) == if ep@.extents.contains_key((ino, k)) {
                Some(Some(ep@.extents[(ino, k)]))
            } else {
                None
            },
{
    let mut m: SortedMap<Option<Vec<u8>>> = SortedMap::new();
    let ghost ps = ep.pending_extents@;
    let mut i: usize = 0;
    assert forall|q: Seq<u8>| #[trigger] lookup(ps.take(0), q) is None by {
        assert(rank(ps.take(0), q) == 0);
    }
    assert forall|q: Seq<u8>| #[trigger] op_at(m@, q) is None by {
        assert(rank(m@, q) == 0);
    }
    while i < ep.pending_extents.len()
        invariant
            ep.wf(),
            m.wf(),
            ps == ep.pending_extents@,
            i <= ps.len(),
            m@.len() <= i,
            forall|k: Seq<u8>| #[trigger]
                op_at(m@, k) == match lookup(ps.take(i as int), slot_key(ino, k)) {
                    Some(b) => Some(Some(b@)),
                    None => None,
                },
        decreases ps.len() - i,
    {
        let key = ep.pending_extents.key_at(i);
        assert(ps[i as int].0.len() >= 8);
        let ghost had = m@;
        if slot_of_number(key, ino) {
            let off = copy_range(key, 8, key.len());
            let b = copy_bytes(ep.pending_extents.value_at(i));
            let ghost k0 = off@;
            let ghost v0 = Some(b);
            assert(k0 =~= key@.skip(8));
            m.insert(off, Some(b));
            proof {
                crate::epoch::lemma_upsert_at(had, k0, v0);
                lemma_rank(had, k0);
            }
        }
        proof {
            assert forall|k: Seq<u8>| #[trigger] op_at(m@, k) == (match lookup(
                ps.take(i + 1),
                slot_key(ino, k),
            ) {
                Some(b) => Some(Some(b@)),
                None => None,
            }) by {
                lemma_lookup_take(ps, i as int, slot_key(ino, k));
                assert(op_at(had, k) == op_at(had, k));
                if k == key@.skip(8) {
                    assert(slot_key(ino, k) == slot_key(ino, key@.skip(8)));
                }
            }
        }
        i += 1;
    }
    assert(ps.take(i as int) =~= ps);
    m
}

/// Patch the extent tree of a file with its pending extents.
#[verifier::rlimit(60)]
#[verifier::spinoff_prover]
fn patch_file<B: IoBackend>(tx: &mut Tx<'_, B>, ep: &Epoch, ino: u64, root: ChunkId) -> (r: Result<
    ChunkId,
    StoreError,
>)
    requires
        ep.wf(),
    ensures
        objects_added(*old(tx), *final(tx)),
        forall|h: nat| #[trigger]
            overlays(*old(tx), *ep, h) && clash_free(final(tx).objects.payloads()) && BTREE_ORDER <= old(tx).max_fanout && file_kind(old(tx).ns(), ep@, ino) && tree_ok(
                old(tx).objects.payloads(),
                root@,
                old(tx).max_fanout,
                h,
            ) && base_entries(old(tx).ns(), ino) == listing(
                old(tx).objects.payloads(),
                root@,
                old(tx).max_fanout,
            ) && offsets_ok(base_entries(old(tx).ns(), ino)) ==> match r {
                Ok(id) => {
                    let p = final(tx).objects.payloads();
                    let f = final(tx).max_fanout;
                    &&& tree_ok(p, id@, f, merged_levels(h))
                    &&& mapped(listing(p, id@, f)) == shown_entries(old(tx).ns(), ep@, ino)
                    &&& offsets_ok(listing(p, id@, f))
                },
                Err(_) => strained(*old(tx), h),
            },
{
    let ghost was = *tx;
    let ghost n = tx.ns();
    let ghost p0 = tx.objects.payloads();
    let ghost f = tx.max_fanout;
    let m = file_batch(ep, ino);
    proof {
        lemma_opt_views(m@);
    }
    let batch = match batch_of(&m) {
        Some(v) => v,
        None => {
            proof {
                let i = choose|i: int|
                    0 <= i < m@.len() && ((#[trigger] m@[i]).0.len() > u16::MAX || (
                    m@[i].1 matches Some(v) && v@.len() > u32::MAX));
                assert forall|h: nat| #[trigger] overlays(was, *ep, h) implies false by {
                    lemma_at(m@, i);
                    let k = m@[i].0;
                    assert(op_at(m@, k) is Some);
                    assert(ep@.extents.contains_key((ino, k)));
                }
            }
            return Err(StoreError::Invariant("extent too large".to_string()));
        },
    };
    let out = index::apply_sorted_batch(root, &batch, BTREE_ORDER, tx.max_fanout, &mut tx.objects);
    proof {
        let p = tx.objects.payloads();
        let b = ops(batch@);
        assert(b.len() == m@.len());
        assert forall|h: nat| #[trigger] overlays(was, *ep, h) && clash_free(p) && BTREE_ORDER <= f && file_kind(n, ep@, ino) && tree_ok(p0, root@, f, h) && base_entries(n, ino) == listing(
            p0,
            root@,
            f,
        ) && offsets_ok(base_entries(n, ino)) implies (match out {
            Ok(id) => {
                &&& tree_ok(p, id@, f, merged_levels(h))
                &&& mapped(listing(p, id@, f)) == shown_entries(n, ep@, ino)
                &&& offsets_ok(listing(p, id@, f))
            },
            Err(_) => strained(was, h),
        }) by {
            let s = listing(p0, root@, f);
            lemma_tree_sorted(p0, root@, f, h);
            if let Ok(id) = out {
                let after = apply_ops(s, b);
                lemma_listing(p, id@, f, merged_levels(h), after);
                lemma_apply_sorted(s, b);
                assert forall|k: Seq<u8>| #[trigger] lookup(after, k) == slot(n, ep@, ino, k) by {
                    lemma_lookup_apply(s, b, k);
                    assert(lookup(opt_views(m@), k) == op_at(m@, k));
                    assert(!ep@.names.contains_key((ino, k)) && !ep@.cuts.contains((ino, k)));
                }
                assert(mapped(after) =~= shown_entries(n, ep@, ino));
                assert forall|i: int| 0 <= i < after.len() implies (#[trigger] after[i]).0.len()
                    == 8 by {
                    let k = after[i].0;
                    lemma_at(after, i);
                    assert(lookup(after, k) == slot(n, ep@, ino, k));
                    if !ep@.extents.contains_key((ino, k)) {
                        lemma_has_key(s, k);
                        assert(s[rank(s, k)].0 == k);
                    }
                }
            }
        }
    }
    match out {
        Ok(id) => Ok(id),
        Err(e) => Err(StoreError::index(e)),
    }
}

// ---------------------------------------------------------------------------
// One inode
// ---------------------------------------------------------------------------

/// Whether some slot of a number is in the map.
fn any_slot<V>(m: &SortedMap<V>, ino: u64) -> (r: bool)
    requires
        sorted(m@),
        slot_keys(m@),
    ensures
        r == exists|k: Seq<u8>| lookup(m@, #[trigger] slot_key(ino, k)) is Some,
{
    let ghost s = m@;
    let mut i: usize = 0;
    while i < m.len()
        invariant
            i <= s.len(),
            s == m@,
            sorted(s),
            slot_keys(s),
            forall|j: int, k: Seq<u8>|
                0 <= j < i ==> (#[trigger] s[j]).0 != #[trigger] slot_key(ino, k),
        decreases s.len() - i,
    {
        let key = m.key_at(i);
        assert(s[i as int].0.len() >= 8);
        if slot_of_number(key, ino) {
            proof {
                lemma_at(s, i as int);
                assert(lookup(s, slot_key(ino, key@.skip(8))) is Some);
            }
            return true;
        }
        i += 1;
    }
    proof {
        assert forall|k: Seq<u8>| lookup(s, #[trigger] slot_key(ino, k)) is None by {
            lemma_rank(s, slot_key(ino, k));
            if has_key(s, slot_key(ino, k)) {
                let r = rank(s, slot_key(ino, k));
                assert(s[r].0 == slot_key(ino, k));
            }
        }
    }
    false
}

/// The inode is what the checkpoint makes of a pending one.
pub open spec fn merged(
    p: Set<Seq<u8>>,
    fanout: u32,
    h: nat,
    n: Namespace,
    o: Overlay,
    ino: u64,
    v: InodeView,
) -> bool {
    let it = item_of(p, v, fanout);
    &&& inode_fits(p, v, fanout, h)
    &&& it.inode == rootless(o.inodes[ino])
    &&& mapped(it.entries) == shown_entries(n, o, ino)
    &&& it.xattrs == base_xattrs(n, ino)
}

/// The trees of a committed inode; zero ids where there is none.
fn base_roots(base: &Option<Inode>) -> (r: (ChunkId, ChunkId))
    ensures
        match base {
            Some(b) => r.0@ == data_root(b@.data) && r.1@ == b@.xattr_root,
            None => r.0@ == zero_id() && r.1@ == zero_id(),
        },
{
    match base {
        Some(b) => match &b.data {
            InodeData::Directory { dir_root } => (*dir_root, b.xattr_root),
            InodeData::File { extent_root } => (*extent_root, b.xattr_root),
            _ => (ChunkId::zero(), b.xattr_root),
        },
        None => (ChunkId::zero(), ChunkId::zero()),
    }
}

/// What a checkpoint starts from.
pub open spec fn merging<B: IoBackend>(was: Tx<B>, now: Tx<B>, ep: Epoch, h: nat) -> bool {
    &&& overlays(was, ep, h)
    &&& clash_free(now.objects.payloads())
    &&& holdable(was.ns())
    &&& BTREE_ORDER <= was.max_fanout
}

/// Merge a pending inode: its metadata, over trees with what the epoch holds for
/// it.
#[verifier::rlimit(80)]
#[verifier::spinoff_prover]
fn merge_inode<B: IoBackend>(tx: &mut Tx<'_, B>, ep: &Epoch, ino: u64, v: &Inode) -> (r: Result<
    Inode,
    StoreError,
>)
    requires
        ep.wf(),
        inode_ok(v@),
        ep@.inodes.contains_key(ino),
        v@ == ep@.inodes[ino],
    ensures
        objects_added(*old(tx), *final(tx)),
        r matches Ok(i) ==> inode_ok(i@),
        forall|h: nat| #[trigger]
            merging(*old(tx), *final(tx), *ep, h) ==> match r {
                Ok(i) => merged(
                    final(tx).objects.payloads(),
                    final(tx).max_fanout,
                    merged_levels(h),
                    old(tx).ns(),
                    ep@,
                    ino,
                    i@,
                ),
                Err(_) => strained(*old(tx), h),
            },
{
    let ghost was = *tx;
    let ghost n = tx.ns();
    let ghost o = ep@;
    let ghost p0 = tx.objects.payloads();
    let ghost f = tx.max_fanout;
    let found = read_inode(tx.root.inode_index_root, ino, tx.max_fanout, &tx.objects);
    proof {
        assert forall|h: nat| #[trigger] merging(was, was, *ep, h) implies (match found {
            Ok(b) => {
                &&& n.contains_key(ino) == (b is Some)
                &&& b matches Some(c) ==> inode_fits(p0, c@, f, h) && n[ino] == item_of(p0, c@, f)
            },
            Err(_) => strained(was, h),
        }) && kind_kept(n, o, ino) by {
            assert(readable(&was.objects, was.root.inode_index_root@, f, h));
            lemma_ns_at(p0, was.root.inode_index_root@, f, h, ino);
        }
    }
    let base = match found {
        Ok(b) => b,
        Err(e) => return Err(e),
    };
    let (root0, xattr_root) = base_roots(&base);
    let mut out = v.copy();
    out.xattr_root = xattr_root;
    match &v.data {
        InodeData::Directory { .. } => {
            let touched = any_slot(&ep.pending_entries, ino) || any_slot(&ep.removed_entries, ino);
            let root = if touched {
                match rebuild_dir(tx, ep, ino) {
                    Ok(id) => id,
                    Err(e) => {
                        proof {
                            let now = *tx;
                            assert forall|h: nat| #[trigger] merging(
                                was,
                                now,
                                *ep,
                                h,
                            ) implies strained(was, h) by {
                                lemma_clash_free_subset(p0, now.objects.payloads());
                                assert(merging(was, was, *ep, h));
                                assert(overlays(was, *ep, h));
                            }
                        }
                        return Err(e);
                    },
                }
            } else {
                root0
            };
            out.data = InodeData::Directory { dir_root: root };
            proof {
                let now = *tx;
                let p = now.objects.payloads();
                assert forall|h: nat| #[trigger] merging(was, now, *ep, h) implies merged(
                    p,
                    f,
                    merged_levels(h),
                    n,
                    o,
                    ino,
                    out@,
                ) by {
                    let k = merged_levels(h);
                    lemma_clash_free_subset(p0, p);
                    assert(merging(was, was, *ep, h));
                    assert(overlays(was, *ep, h));
                    assert(dir_kind(n, o, ino));
                    lemma_roots(p0, p, f, h, n, ino, base, root0, xattr_root);
                    if touched {
                        lemma_tree_grows(p, p, root@, f, 65, k);
                    } else {
                        assert forall|q: Seq<u8>| #[trigger] slot(n, o, ino, q) == lookup(
                            base_entries(n, ino),
                            q,
                        ) by {
                            assert(lookup(ep.pending_entries@, slot_key(ino, q)) is None);
                            assert(lookup(ep.removed_entries@, slot_key(ino, q)) is None);
                        }
                        assert(mapped(base_entries(n, ino)) =~= shown_entries(n, o, ino));
                    }
                    assert(rootless(out@) =~= rootless(v@));
                }
            }
        },
        InodeData::File { .. } => {
            let root = match patch_file(tx, ep, ino, root0) {
                Ok(id) => id,
                Err(e) => {
                    proof {
                        let now = *tx;
                        assert forall|h: nat| #[trigger] merging(
                            was,
                            now,
                            *ep,
                            h,
                        ) implies strained(was, h) by {
                            lemma_clash_free_subset(p0, now.objects.payloads());
                            assert(merging(was, was, *ep, h));
                            assert(overlays(was, *ep, h));
                            lemma_roots(p0, p0, f, h, n, ino, base, root0, xattr_root);
                        }
                    }
                    return Err(e);
                },
            };
            out.data = InodeData::File { extent_root: root };
            proof {
                let now = *tx;
                let p = now.objects.payloads();
                assert forall|h: nat| #[trigger] merging(was, now, *ep, h) implies merged(
                    p,
                    f,
                    merged_levels(h),
                    n,
                    o,
                    ino,
                    out@,
                ) by {
                    lemma_clash_free_subset(p0, p);
                    assert(merging(was, was, *ep, h));
                    assert(overlays(was, *ep, h));
                    assert(file_kind(n, o, ino));
                    lemma_roots(p0, p0, f, h, n, ino, base, root0, xattr_root);
                    lemma_roots(p0, p, f, h, n, ino, base, root0, xattr_root);
                    assert(rootless(out@) =~= rootless(v@));
                }
            }
        },
        _ => {
            proof {
                let now = *tx;
                assert forall|h: nat| #[trigger] merging(was, now, *ep, h) implies merged(
                    p0,
                    f,
                    merged_levels(h),
                    n,
                    o,
                    ino,
                    out@,
                ) by {
                    assert(overlays(was, *ep, h));
                    lemma_roots(p0, p0, f, h, n, ino, base, root0, xattr_root);
                    assert(rootless(out@) =~= rootless(v@));
                    let k = merged_levels(h);
                    assert(data_root(out@.data) == zero_id());
                    assert(tree_ok(p0, zero_id(), f, k));
                    assert(base_entries(n, ino).len() == 0);
                    assert forall|q: Seq<u8>| #[trigger] slot(n, o, ino, q) is None by {
                        assert(!o.names.contains_key((ino, q)));
                        assert(!o.cuts.contains((ino, q)));
                        assert(!o.extents.contains_key((ino, q)));
                        assert(rank(base_entries(n, ino), q) == 0);
                    }
                    assert(mapped(listing(p0, zero_id(), f)) =~= shown_entries(n, o, ino)) by {
                        assert forall|q: Seq<u8>| #[trigger] lookup(
                            listing(p0, zero_id(), f),
                            q,
                        ) is None by {
                            assert(rank(listing(p0, zero_id(), f), q) == 0);
                        }
                    }
                }
            }
        },
    }
    Ok(out)
}

/// The committed trees of a number stay what they are as payloads are added.
proof fn lemma_roots(
    p0: Set<Seq<u8>>,
    p: Set<Seq<u8>>,
    f: u32,
    h: nat,
    n: Namespace,
    ino: u64,
    base: Option<Inode>,
    root: ChunkId,
    xattr_root: ChunkId,
)
    requires
        p0.subset_of(p),
        clash_free(p),
        n.contains_key(ino) == (base is Some),
        base matches Some(b) ==> inode_fits(p0, b@, f, h) && n[ino] == item_of(p0, b@, f) && root@
            == data_root(b@.data) && xattr_root@ == b@.xattr_root,
        base is None ==> root@ == zero_id() && xattr_root@ == zero_id(),
    ensures
        tree_ok(p, root@, f, h),
        tree_ok(p, root@, f, merged_levels(h)),
        listing(p, root@, f) == base_entries(n, ino),
        sorted(base_entries(n, ino)),
        tree_ok(p, xattr_root@, f, merged_levels(h)),
        listing(p, xattr_root@, f) == base_xattrs(n, ino),
        n.contains_key(ino) ==> contents_ok(n[ino].inode.data, n[ino].entries),
{
    let k = merged_levels(h);
    match base {
        Some(b) => {
            lemma_fits_grows(p0, p, b@, f, h, k);
            lemma_tree_grows(p0, p, root@, f, h, h);
            lemma_tree_sorted(p0, root@, f, h);
        },
        None => {
            assert(tree_ok(p, zero_id(), f, h));
            assert(tree_ok(p, zero_id(), f, k));
        },
    }
}

// ---------------------------------------------------------------------------
// All inodes
// ---------------------------------------------------------------------------

/// Adding objects leaves a checkpoint's starting point as it is.
proof fn lemma_merging_on<B: IoBackend>(was: Tx<B>, mid: Tx<B>, now: Tx<B>, ep: Epoch, h: nat)
    requires
        merging(was, now, ep, h),
        objects_added(was, mid),
        mid.objects.payloads().subset_of(now.objects.payloads()),
    ensures
        merging(was, mid, ep, h),
        merging(mid, now, ep, h),
        mid.ns() == was.ns(),
{
    lemma_clash_free_subset(mid.objects.payloads(), now.objects.payloads());
    lemma_fs_grows(
        was.objects.payloads(),
        mid.objects.payloads(),
        was.root.inode_index_root@,
        was.max_fanout,
        h,
        h,
    );
}

/// A merged inode stays one as payloads are added.
proof fn lemma_merged_grows(
    p: Set<Seq<u8>>,
    q: Set<Seq<u8>>,
    f: u32,
    h: nat,
    n: Namespace,
    o: Overlay,
    ino: u64,
    v: InodeView,
)
    requires
        merged(p, f, h, n, o, ino, v),
        p.subset_of(q),
        clash_free(q),
    ensures
        merged(q, f, h, n, o, ino, v),
{
    lemma_fits_grows(p, q, v, f, h, h);
}

/// What the batch does for a number: a dropped one is unbound, a pending one is
/// bound to its merged inode, others are left alone.
pub open spec fn batch_right(
    m: Seq<(Seq<u8>, Option<Vec<u8>>)>,
    done: Seq<(Seq<u8>, Inode)>,
    p: Set<Seq<u8>>,
    o: Overlay,
    fins: Map<u64, InodeView>,
    ino: u64,
) -> bool {
    if o.gone.contains(ino) {
        op_at(m, ino_key(ino)) == Some(None::<Seq<u8>>)
    } else if lookup(done, ino_key(ino)) is Some {
        &&& fins.contains_key(ino)
        &&& inode_ok(fins[ino])
        &&& p.contains(inode_bytes(fins[ino]))
        &&& op_at(m, ino_key(ino)) == Some(Some(digest(inode_bytes(fins[ino]))))
    } else {
        op_at(m, ino_key(ino)) is None
    }
}

/// The numbers that the epoch dropped, as a batch.
fn removed_batch(ep: &Epoch) -> (r: SortedMap<Option<Vec<u8>>>)
    requires
        ep.wf(),
    ensures
        r.wf(),
        number_keys(r@),
        r@.len() <= ep.removed_inodes@.len(),
        forall|ino: u64| #[trigger]
            op_at(r@, ino_key(ino)) == if ep@.gone.contains(ino) {
                Some(None::<Seq<u8>>)
            } else {
                None
            },
{
    let mut m: SortedMap<Option<Vec<u8>>> = SortedMap::new();
    let ghost ps = ep.removed_inodes@;
    let mut i: usize = 0;
    assert forall|q: Seq<u8>| #[trigger] lookup(ps.take(0), q) is None by {
        assert(rank(ps.take(0), q) == 0);
    }
    assert forall|q: Seq<u8>| #[trigger] op_at(m@, q) is None by {
        assert(rank(m@, q) == 0);
    }
    while i < ep.removed_inodes.len()
        invariant
            ep.wf(),
            m.wf(),
            number_keys(m@),
            ps == ep.removed_inodes@,
            i <= ps.len(),
            m@.len() <= i,
            forall|k: Seq<u8>| #[trigger]
                op_at(m@, k) == match lookup(ps.take(i as int), k) {
                    Some(_) => Some(None::<Seq<u8>>),
                    None => None,
                },
        decreases ps.len() - i,
    {
        let key = ep.removed_inodes.key_at(i);
        assert(ps[i as int].0.len() == 8);
        let ghost had = m@;
        let ghost none: Option<Vec<u8>> = None;
        m.insert(copy_bytes(key), None);
        proof {
            lemma_upsert_at(had, key@, none);
            lemma_upsert_keys(had, key@, none);
            lemma_rank(had, key@);
            assert forall|k: Seq<u8>| #[trigger] op_at(m@, k) == (match lookup(ps.take(i + 1), k) {
                Some(_) => Some(None::<Seq<u8>>),
                None => None,
            }) by {
                lemma_lookup_take(ps, i as int, k);
                assert(op_at(had, k) == op_at(had, k));
            }
        }
        i += 1;
    }
    assert(ps.take(i as int) =~= ps);
    m
}

/// Stage every final inode, and gather the batch for the inode table.
#[verifier::rlimit(80)]
#[verifier::spinoff_prover]
fn merge_inodes<B: IoBackend>(tx: &mut Tx<'_, B>, ep: &Epoch) -> (r: Result<
    (SortedMap<Option<Vec<u8>>>, Ghost<Map<u64, InodeView>>),
    StoreError,
>)
    requires
        ep.wf(),
    ensures
        objects_added(*old(tx), *final(tx)),
        r matches Ok(o) ==> {
            &&& o.0.wf()
            &&& number_keys(o.0@)
            &&& o.0@.len() <= ep.removed_inodes@.len() + ep.pending_inodes@.len()
            &&& forall|ino: u64| #[trigger]
                batch_right(
                    o.0@,
                    ep.pending_inodes@,
                    final(tx).objects.payloads(),
                    ep@,
                    o.1@,
                    ino,
                )
        },
        forall|h: nat| #[trigger]
            merging(*old(tx), *final(tx), *ep, h) ==> match r {
                Ok(o) => forall|ino: u64| #[trigger]
                    o.1@.contains_key(ino) ==> merged(
                        final(tx).objects.payloads(),
                        final(tx).max_fanout,
                        merged_levels(h),
                        old(tx).ns(),
                        ep@,
                        ino,
                        o.1@[ino],
                    ),
                Err(_) => strained(*old(tx), h),
            },
{
    let ghost was = *tx;
    let ghost n = tx.ns();
    let ghost o = ep@;
    let ghost f = tx.max_fanout;
    let ghost ps = ep.pending_inodes@;
    let mut m = removed_batch(ep);
    let ghost mut fins: Map<u64, InodeView> = Map::empty();
    let mut i: usize = 0;
    assert forall|q: Seq<u8>| #[trigger] lookup(ps.take(0), q) is None by {
        assert(rank(ps.take(0), q) == 0);
    }
    assert forall|ino: u64| #[trigger] batch_right(
        m@,
        ps.take(0),
        tx.objects.payloads(),
        o,
        fins,
        ino,
    ) by {
        assert(op_at(m@, ino_key(ino)) == op_at(m@, ino_key(ino)));
    }
    while i < ep.pending_inodes.len()
        invariant
            ep.wf(),
            o == ep@,
            n == was.ns(),
            f == was.max_fanout,
            was == *old(tx),
            objects_added(was, *tx),
            ps == ep.pending_inodes@,
            i <= ps.len(),
            m.wf(),
            number_keys(m@),
            m@.len() <= ep.removed_inodes@.len() + i,
            forall|ino: u64| #[trigger]
                batch_right(m@, ps.take(i as int), tx.objects.payloads(), o, fins, ino),
            forall|h: nat| #[trigger]
                merging(was, *tx, *ep, h) ==> forall|ino: u64| #[trigger]
                    fins.contains_key(ino) ==> merged(
                        tx.objects.payloads(),
                        f,
                        merged_levels(h),
                        n,
                        o,
                        ino,
                        fins[ino],
                    ),
        decreases ps.len() - i,
    {
        let key = ep.pending_inodes.key_at(i);
        assert(ps[i as int].0.len() == 8);
        let ino: u64 = be_u64(key);
        proof {
            lemma_key_ino(key@);
            lemma_at(ps, i as int);
            assert(ino_key(ino) == key@);
            lemma_has_key(ep.removed_inodes@, key@);
            assert(inode_ok(ps[i as int].1@));
        }
        let ghost before = m@;
        let ghost mid = *tx;
        let ghost had = fins;
        if !ep.removed_inodes.contains(key) {
            let merged_out = merge_inode(tx, ep, ino, ep.pending_inodes.value_at(i));
            let ghost t1 = *tx;
            let fin = match merged_out {
                Ok(v) => v,
                Err(e) => {
                    proof {
                        assert forall|h: nat| #[trigger] merging(
                            was,
                            t1,
                            *ep,
                            h,
                        ) implies strained(was, h) by {
                            lemma_merging_on(was, mid, t1, *ep, h);
                        }
                    }
                    return Err(e);
                },
            };
            let id = put_inode(tx, &fin);
            let idv = copy_bytes(id.as_slice());
            let ghost val = Some(idv);
            m.insert(copy_bytes(key), Some(idv));
            proof {
                fins = fins.insert(ino, fin@);
                lemma_upsert_at(before, key@, val);
                lemma_upsert_keys(before, key@, val);
                lemma_rank(before, key@);
                let t2 = *tx;
                assert forall|h: nat| #[trigger] merging(was, t2, *ep, h) implies forall|x: u64|
                    #[trigger]
                    fins.contains_key(x) ==> merged(
                        t2.objects.payloads(),
                        f,
                        merged_levels(h),
                        n,
                        o,
                        x,
                        fins[x],
                    ) by {
                    lemma_merging_on(was, t1, t2, *ep, h);
                    lemma_merging_on(was, mid, t1, *ep, h);
                    assert(merging(mid, t1, *ep, h));
                    assert forall|x: u64| #[trigger] fins.contains_key(x) implies merged(
                        t2.objects.payloads(),
                        f,
                        merged_levels(h),
                        n,
                        o,
                        x,
                        fins[x],
                    ) by {
                        if x == ino {
                            lemma_merged_grows(
                                t1.objects.payloads(),
                                t2.objects.payloads(),
                                f,
                                merged_levels(h),
                                n,
                                o,
                                x,
                                fins[x],
                            );
                        } else {
                            assert(had.contains_key(x));
                            lemma_merged_grows(
                                mid.objects.payloads(),
                                t2.objects.payloads(),
                                f,
                                merged_levels(h),
                                n,
                                o,
                                x,
                                fins[x],
                            );
                        }
                    }
                }
            }
        }
        proof {
            let t2 = *tx;
            assert forall|x: u64| #[trigger] batch_right(
                m@,
                ps.take(i + 1),
                t2.objects.payloads(),
                o,
                fins,
                x,
            ) by {
                lemma_ino_key(x, ino);
                lemma_lookup_take(ps, i as int, ino_key(x));
                assert(batch_right(
                    before,
                    ps.take(i as int),
                    mid.objects.payloads(),
                    o,
                    had,
                    x,
                ));
                assert(op_at(before, ino_key(x)) == op_at(before, ino_key(x)));
            }
        }
        i += 1;
    }
    assert(ps.take(i as int) =~= ps);
    Ok((m, Ghost(fins)))
}

// ---------------------------------------------------------------------------
// The checkpoint
// ---------------------------------------------------------------------------

/// The inode table after the batch names whole inodes, and they are what the
/// overlay shows.
#[verifier::rlimit(80)]
#[verifier::spinoff_prover]
proof fn lemma_table_merged(
    p0: Set<Seq<u8>>,
    table: Seq<u8>,
    p: Set<Seq<u8>>,
    now: Seq<u8>,
    f: u32,
    h: nat,
    o: Overlay,
    pending: Seq<(Seq<u8>, Inode)>,
    m: Seq<(Seq<u8>, Option<Vec<u8>>)>,
    fins: Map<u64, InodeView>,
)
    requires
        fs_ok(p0, table, f, h),
        p0.subset_of(p),
        clash_free(p),
        sorted(m),
        number_keys(m),
        o.inodes == crate::epoch::inode_map(pending),
        overlay_ok(ns(p0, table, f), o),
        ordered(ns(p0, table, f)),
        forall|ino: u64| #[trigger] batch_right(m, pending, p, o, fins, ino),
        forall|ino: u64| #[trigger]
            fins.contains_key(ino) ==> merged(
                p,
                f,
                merged_levels(h),
                ns(p0, table, f),
                o,
                ino,
                fins[ino],
            ),
        lists(
            p,
            now,
            BTREE_ORDER,
            f,
            merged_levels(h),
            apply_ops(listing(p0, table, f), opt_views(m)),
        ),
    ensures
        fs_ok(p, now, f, merged_levels(h)),
        faces(ns(p, now, f)) == overlaid(ns(p0, table, f), o),
{
    let k = merged_levels(h);
    let s = listing(p0, table, f);
    let b = opt_views(m);
    let t = apply_ops(s, b);
    let n = ns(p0, table, f);
    let r = ns(p, now, f);
    lemma_tree_sorted(p0, table, f, h);
    lemma_opt_views(m);
    lemma_listing(p, now, f, k, t);
    // Each row is a committed one or one of the batch.
    assert forall|x: Seq<u8>| #[trigger] lookup(t, x) == (match op_at(m, x) {
        Some(op) => op,
        None => lookup(s, x),
    }) by {
        lemma_lookup_apply(s, b, x);
        assert(lookup(b, x) == op_at(m, x));
    }
    assert forall|i: int| 0 <= i < t.len() implies row_ok(p, #[trigger] t[i], f, k) by {
        let x = t[i].0;
        lemma_at(t, i);
        assert(lookup(t, x) == Some(t[i].1));
        match op_at(m, x) {
            Some(op) => {
                lemma_has_key(m, x);
                assert(m[rank(m, x)].0.len() == 8);
                let ino = key_ino(x);
                lemma_key_ino(x);
                assert(batch_right(m, pending, p, o, fins, ino));
                let v = fins[ino];
                lemma_object(p, inode_bytes(v));
                inode_round_trip(v);
            },
            None => {
                lemma_has_key(s, x);
                let j = rank(s, x);
                assert(row_ok(p0, s[j], f, h));
                lemma_row_grows(p0, p, s[j], f, h, k);
            },
        }
    }
    assert(fs_ok(p, now, f, k));
    assert forall|ino: u64| #[trigger] r.contains_key(ino) == shown(n, o, ino) by {
        lemma_ns_at(p, now, f, k, ino);
        lemma_ns_at(p0, table, f, h, ino);
        lemma_has_key(t, ino_key(ino));
        lemma_has_key(s, ino_key(ino));
        assert(batch_right(m, pending, p, o, fins, ino));
        assert(lookup(t, ino_key(ino)) is Some == shown(n, o, ino));
    }
    assert forall|ino: u64| #[trigger] r.contains_key(ino) implies {
        &&& r[ino].inode == shown_inode(n, o, ino)
        &&& mapped(r[ino].entries) == shown_entries(n, o, ino)
        &&& r[ino].xattrs == base_xattrs(n, ino)
    } by {
        lemma_ns_at(p, now, f, k, ino);
        lemma_ns_at(p0, table, f, h, ino);
        lemma_has_key(t, ino_key(ino));
        lemma_has_key(s, ino_key(ino));
        assert(batch_right(m, pending, p, o, fins, ino));
        if o.inodes.contains_key(ino) {
            let v = fins[ino];
            lemma_object(p, inode_bytes(v));
            inode_round_trip(v);
            assert(stored_inode(p, digest(inode_bytes(v))) == Some(v));
        } else {
            let j = rank(s, ino_key(ino));
            lemma_row_grows(p0, p, s[j], f, h, k);
            assert(r[ino] == n[ino]);
            assert forall|q: Seq<u8>| #[trigger] slot(n, o, ino, q) == lookup(
                n[ino].entries,
                q,
            ) by {
                assert(!o.names.contains_key((ino, q)));
                assert(!o.cuts.contains((ino, q)));
                assert(!o.extents.contains_key((ino, q)));
            }
            assert(mapped(n[ino].entries) =~= shown_entries(n, o, ino));
        }
    }
    lemma_faces(r, n, o);
}

/// The pending descriptors, as a batch.
fn chunk_batch(ep: &Epoch) -> (r: SortedMap<Option<Vec<u8>>>)
    requires
        ep.wf(),
    ensures
        r.wf(),
        r@.len() <= ep.pending_chunks@.len(),
        forall|k: Seq<u8>| #[trigger]
            op_at(r@, k) == if ep@.chunks.contains_key(k) {
                Some(Some(ep@.chunks[k]))
            } else {
                None
            },
{
    let mut m: SortedMap<Option<Vec<u8>>> = SortedMap::new();
    let ghost ps = ep.pending_chunks@;
    let mut i: usize = 0;
    assert forall|q: Seq<u8>| #[trigger] lookup(ps.take(0), q) is None by {
        assert(rank(ps.take(0), q) == 0);
    }
    assert forall|q: Seq<u8>| #[trigger] op_at(m@, q) is None by {
        assert(rank(m@, q) == 0);
    }
    while i < ep.pending_chunks.len()
        invariant
            ep.wf(),
            m.wf(),
            ps == ep.pending_chunks@,
            i <= ps.len(),
            m@.len() <= i,
            forall|k: Seq<u8>| #[trigger]
                op_at(m@, k) == match lookup(ps.take(i as int), k) {
                    Some(b) => Some(Some(b@)),
                    None => None,
                },
        decreases ps.len() - i,
    {
        let key = ep.pending_chunks.key_at(i);
        let ghost had = m@;
        let val = copy_bytes(ep.pending_chunks.value_at(i));
        let ghost v0 = Some(val);
        m.insert(copy_bytes(key), Some(val));
        proof {
            lemma_upsert_at(had, key@, v0);
            lemma_rank(had, key@);
            assert forall|k: Seq<u8>| #[trigger] op_at(m@, k) == (match lookup(ps.take(i + 1), k) {
                Some(b) => Some(Some(b@)),
                None => None,
            }) by {
                lemma_lookup_take(ps, i as int, k);
                assert(op_at(had, k) == op_at(had, k));
            }
        }
        i += 1;
    }
    assert(ps.take(i as int) =~= ps);
    m
}

/// The pending descriptors fit the chunk index.
pub open spec fn chunks_fit(o: Overlay) -> bool {
    forall|k: Seq<u8>| #[trigger]
        o.chunks.contains_key(k) ==> k.len() <= u16::MAX && o.chunks[k].len() <= u32::MAX
}

/// Patch the chunk index with the pending descriptors.
#[verifier::rlimit(60)]
#[verifier::spinoff_prover]
fn merge_chunks<B: IoBackend>(tx: &mut Tx<'_, B>, ep: &Epoch) -> (r: Result<ChunkId, StoreError>)
    requires
        ep.wf(),
    ensures
        objects_added(*old(tx), *final(tx)),
        forall|h: nat| #[trigger]
            merging(*old(tx), *final(tx), *ep, h) && old(tx).chunks_ok(h) && chunks_fit(ep@)
                ==> match r {
                Ok(id) => {
                    let p = final(tx).objects.payloads();
                    let f = final(tx).max_fanout;
                    &&& tree_ok(p, id@, f, merged_levels(h))
                    &&& mapped(listing(p, id@, f)) == mapped(
                        old(tx).chunks(),
                    ).union_prefer_right(ep@.chunks)
                },
                Err(_) => strained(*old(tx), h),
            },
{
    let ghost was = *tx;
    let ghost p0 = tx.objects.payloads();
    let ghost f = tx.max_fanout;
    let m = chunk_batch(ep);
    proof {
        lemma_opt_views(m@);
    }
    let batch = match batch_of(&m) {
        Some(v) => v,
        None => {
            proof {
                let i = choose|i: int|
                    0 <= i < m@.len() && ((#[trigger] m@[i]).0.len() > u16::MAX || (
                    m@[i].1 matches Some(v) && v@.len() > u32::MAX));
                assert(!chunks_fit(ep@)) by {
                    lemma_at(m@, i);
                    let k = m@[i].0;
                    assert(op_at(m@, k) is Some);
                    assert(ep@.chunks.contains_key(k));
                }
            }
            return Err(StoreError::Invariant("descriptor too large".to_string()));
        },
    };
    let out = index::apply_sorted_batch(
        tx.root.chunk_index_root,
        &batch,
        BTREE_ORDER,
        tx.max_fanout,
        &mut tx.objects,
    );
    proof {
        let now = *tx;
        let p = now.objects.payloads();
        let b = ops(batch@);
        assert(b.len() == m@.len());
        assert forall|h: nat| #[trigger] merging(was, now, *ep, h) && was.chunks_ok(h) && chunks_fit(
            ep@,
        ) implies (match out {
            Ok(id) => {
                &&& tree_ok(p, id@, f, merged_levels(h))
                &&& mapped(listing(p, id@, f)) == mapped(was.chunks()).union_prefer_right(
                    ep@.chunks,
                )
            },
            Err(_) => strained(was, h),
        }) by {
            let s = was.chunks();
            assert(overlays(was, *ep, h));
            assert(tree_ok(p0, was.root.chunk_index_root@, f, h));
            lemma_tree_sorted(p0, was.root.chunk_index_root@, f, h);
            if let Ok(id) = out {
                let after = apply_ops(s, b);
                lemma_listing(p, id@, f, merged_levels(h), after);
                assert forall|k: Seq<u8>| #[trigger] lookup(after, k) == (if ep@.chunks.contains_key(
                    k,
                ) {
                    Some(ep@.chunks[k])
                } else {
                    lookup(s, k)
                }) by {
                    lemma_lookup_apply(s, b, k);
                    assert(lookup(opt_views(m@), k) == op_at(m@, k));
                }
                assert(mapped(after) =~= mapped(s).union_prefer_right(ep@.chunks));
            }
        }
    }
    match out {
        Ok(id) => Ok(id),
        Err(e) => Err(StoreError::index(e)),
    }
}

impl<B: IoBackend> Store<B> {
    /// Merge the epoch into the transaction's trees: every touched directory
    /// and file tree, the chunk index and the inode table are each rebuilt once.
    #[verifier::rlimit(80)]
    #[verifier::spinoff_prover]
    pub fn epoch_checkpoint_in_tx(tx: &mut Tx<'_, B>, ep: &Epoch) -> (r: Result<(), StoreError>)
        requires
            ep.wf(),
        ensures
            data_edited(*old(tx), *final(tx)),
            forall|h: nat| #[trigger]
                merging(*old(tx), *final(tx), *ep, h) && old(tx).chunks_ok(h) && chunks_fit(ep@)
                    ==> match r {
                    Ok(_) => {
                        &&& final(tx).whole(merged_levels(h))
                        &&& faces(final(tx).ns()) == overlaid(old(tx).ns(), ep@)
                        &&& final(tx).chunks_ok(merged_levels(h))
                        &&& mapped(final(tx).chunks()) == mapped(
                            old(tx).chunks(),
                        ).union_prefer_right(ep@.chunks)
                    },
                    Err(_) => strained(*old(tx), h),
                },
    {
        let ghost was = *tx;
        let ghost p0 = tx.objects.payloads();
        let ghost f = tx.max_fanout;
        let ghost table = tx.root.inode_index_root@;
        let (m, fins) = match merge_inodes(tx, ep) {
            Ok(v) => v,
            Err(e) => return Err(e),
        };
        let ghost t1 = *tx;
        proof {
            lemma_opt_views(m@);
        }
        let batch = match batch_of(&m) {
            Some(v) => v,
            None => {
                proof {
                    let i = choose|i: int|
                        0 <= i < m@.len() && ((#[trigger] m@[i]).0.len() > u16::MAX || (
                        m@[i].1 matches Some(v) && v@.len() > u32::MAX));
                    lemma_at(m@, i);
                    let ino = key_ino(m@[i].0);
                    lemma_key_ino(m@[i].0);
                    assert(batch_right(
                        m@,
                        ep.pending_inodes@,
                        t1.objects.payloads(),
                        ep@,
                        fins@,
                        ino,
                    ));
                    assert(false);
                }
                return Err(StoreError::Invariant("inode batch".to_string()));
            },
        };
        let chunk_root = match merge_chunks(tx, ep) {
            Ok(id) => id,
            Err(e) => {
                proof {
                    let t2 = *tx;
                    assert forall|h: nat| #[trigger] merging(was, t2, *ep, h) && was.chunks_ok(h)
                        && chunks_fit(ep@) implies strained(was, h) by {
                        lemma_merging_on(was, t1, t2, *ep, h);
                        crate::extents::lemma_chunks_kept(was, t1, h, h);
                    }
                }
                return Err(e);
            },
        };
        let ghost t2 = *tx;
        let out = index::apply_sorted_batch(
            tx.root.inode_index_root,
            &batch,
            BTREE_ORDER,
            tx.max_fanout,
            &mut tx.objects,
        );
        let ghost t3 = *tx;
        proof {
            let p = t3.objects.payloads();
            let b = ops(batch@);
            assert(b.len() == m@.len());
            assert forall|h: nat| #[trigger] merging(was, t3, *ep, h) && was.chunks_ok(h)
                && chunks_fit(ep@) implies (match out {
                Ok(id) => {
                    &&& fs_ok(p, id@, f, merged_levels(h))
                    &&& faces(ns(p, id@, f)) == overlaid(was.ns(), ep@)
                    &&& tree_ok(p, chunk_root@, f, merged_levels(h))
                    &&& mapped(listing(p, chunk_root@, f)) == mapped(
                        was.chunks(),
                    ).union_prefer_right(ep@.chunks)
                },
                Err(_) => strained(was, h),
            }) by {
                let k = merged_levels(h);
                lemma_merging_on(was, t1, t3, *ep, h);
                lemma_merging_on(was, t2, t3, *ep, h);
                lemma_merging_on(t1, t2, t3, *ep, h);
                crate::extents::lemma_chunks_kept(was, t1, h, h);
                assert(merging(t1, t2, *ep, h));
                lemma_tree_grows(t2.objects.payloads(), p, chunk_root@, f, k, k);
                let p2 = t2.objects.payloads();
                lemma_fs_grows(p0, p2, table, f, h, h);
                assert(tree_ok(p2, table, f, h));
                if let Ok(id) = out {
                    readable_is_ordered(was, h);
                    assert forall|ino: u64| #[trigger] batch_right(
                        m@,
                        ep.pending_inodes@,
                        p,
                        ep@,
                        fins@,
                        ino,
                    ) by {
                        assert(batch_right(
                            m@,
                            ep.pending_inodes@,
                            t1.objects.payloads(),
                            ep@,
                            fins@,
                            ino,
                        ));
                    }
                    assert forall|ino: u64| #[trigger] fins@.contains_key(ino) implies merged(
                        p,
                        f,
                        k,
                        was.ns(),
                        ep@,
                        ino,
                        fins@[ino],
                    ) by {
                        lemma_merged_grows(
                            t1.objects.payloads(),
                            p,
                            f,
                            k,
                            was.ns(),
                            ep@,
                            ino,
                            fins@[ino],
                        );
                    }
                    lemma_table_merged(
                        p0,
                        table,
                        p,
                        id@,
                        f,
                        h,
                        ep@,
                        ep.pending_inodes@,
                        m@,
                        fins@,
                    );
                }
            }
        }
        match out {
            Ok(id) => {
                tx.root.chunk_index_root = chunk_root;
                tx.root.inode_index_root = id;
                proof {
                    let now = *tx;
                    assert forall|h: nat| #[trigger] merging(was, now, *ep, h) implies merging(
                        was,
                        t3,
                        *ep,
                        h,
                    ) by {}
                }
                Ok(())
            },
            Err(e) => Err(StoreError::index(e)),
        }
    }
}

} // verus!
