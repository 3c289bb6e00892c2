//! Reads through the active epoch: the committed trees, shadowed by what the
//! epoch holds.

use vstd::prelude::*;

use crate::bytes::{bytes_equal, copy_bytes, copy_range, lemma_lex_order, lex_lt, u64_be};
use crate::chunk::ChunkId;
use crate::directory::{self, entry_bytes, entry_canonical, parse_entry, DirEntry};
use crate::epoch::{base_entries, lemma_erase_at, lemma_upsert_at, shown, shown_entries, shown_inode,
    slot, slot_key, Epoch, Overlay};
use crate::error::StoreError;
use crate::fs::{contents_ok, entries_ok, entry_at, ino_key, inode_fits, item_of, lemma_entry_at,
    lemma_has_key, lemma_ino_key, lemma_ns_at, lemma_tree_sorted, listing, rootless, Listing,
    Namespace, BTREE_ORDER};
use crate::index::{self, first_of, opt_bytes, trusty, ObjectProvider};
use crate::inode::{inode_ok, Inode, InodeData};
use crate::io::IoBackend;
use crate::map::SortedMap;
use crate::namespace::{dir_editing, dir_find, has_dir, opt_inode, read_inode, readable, strained};
use crate::replay::{bare, same_kind};
use crate::sorted::{has_key, lemma_rank, lookup, rank, sorted};
use crate::store::Store;
use crate::transaction::Tx;

verus! {

// ---------------------------------------------------------------------------
// What holds of an overlay
// ---------------------------------------------------------------------------

/// A pending inode is of the committed kind, or new and without trees.
pub open spec fn kind_kept(n: Namespace, o: Overlay, ino: u64) -> bool {
    if n.contains_key(ino) {
        same_kind(n[ino].inode.data, o.inodes[ino].data)
    } else {
        bare(o.inodes[ino])
    }
}

/// Entries are pending for directories, extents for files; the inode of either
/// is pending too. No name is both bound and unbound.
pub open spec fn overlay_ok(n: Namespace, o: Overlay) -> bool {
    &&& forall|ino: u64| #[trigger] o.inodes.contains_key(ino) ==> kind_kept(n, o, ino)
    &&& forall|p: (u64, Seq<u8>)| #[trigger]
        o.names.contains_key(p) ==> p.1.len() <= 255 && o.inodes.contains_key(p.0)
            && o.inodes[p.0].data is Directory && !o.cuts.contains(p)
    &&& forall|p: (u64, Seq<u8>)| #[trigger]
        o.cuts.contains(p) ==> o.inodes.contains_key(p.0) && o.inodes[p.0].data is Directory
    &&& forall|p: (u64, Seq<u8>)| #[trigger]
        o.extents.contains_key(p) ==> p.1.len() == 8 && o.extents[p].len() <= u32::MAX
            && o.inodes.contains_key(p.0) && o.inodes[p.0].data is File
}

/// The epoch can be read over the transaction's namespace.
pub open spec fn overlays<B: IoBackend>(tx: Tx<B>, ep: Epoch, h: nat) -> bool {
    &&& tx.reads(h)
    &&& BTREE_ORDER <= tx.max_fanout
    &&& overlay_ok(tx.ns(), ep@)
}

/// The entry under a name of a directory, seen through the overlay.
pub open spec fn entry_over(n: Namespace, o: Overlay, dir: u64, name: Seq<u8>) -> Option<DirEntry> {
    if o.cuts.contains((dir, name)) {
        None
    } else if o.names.contains_key((dir, name)) {
        Some(o.names[(dir, name)])
    } else {
        entry_at(base_entries(n, dir), name)
    }
}

/// A directory seen through the overlay.
pub open spec fn dir_shown(n: Namespace, o: Overlay, ino: u64) -> bool {
    shown(n, o, ino) && shown_inode(n, o, ino).data is Directory
}

/// A file seen through the overlay.
pub open spec fn file_shown(n: Namespace, o: Overlay, ino: u64) -> bool {
    shown(n, o, ino) && shown_inode(n, o, ino).data is File
}

/// The committed number is no directory, though something is there.
pub open spec fn base_not_dir(n: Namespace, ino: u64) -> bool {
    n.contains_key(ino) && !(n[ino].inode.data is Directory)
}

/// What is shown of a directory is what its entries are.
pub proof fn lemma_entry_over(n: Namespace, o: Overlay, dir: u64, name: Seq<u8>)
    requires
        overlay_ok(n, o),
        dir_shown(n, o, dir),
        n.contains_key(dir) ==> sorted(n[dir].entries) && contents_ok(
            n[dir].inode.data,
            n[dir].entries,
        ),
    ensures
        slot(n, o, dir, name) == (match entry_over(n, o, dir, name) {
            Some(e) => Some(entry_bytes(e)),
            None => None,
        }),
        shown_entries(n, o, dir).contains_key(name) == (entry_over(n, o, dir, name) is Some),
{
    let s = base_entries(n, dir);
    assert(sorted(s));
    assert(!o.extents.contains_key((dir, name)));
    if n.contains_key(dir) {
        assert(n[dir].inode.data is Directory);
        lemma_entry_at(s, name);
        lemma_has_key(s, name);
        if has_key(s, name) {
            let b = s[rank(s, name)].1;
            assert(parse_entry(s[rank(s, name)].1) is Ok);
            entry_canonical(b);
        }
    }
}

// ---------------------------------------------------------------------------
// Inodes and entries
// ---------------------------------------------------------------------------

impl<B: IoBackend> Store<B> {
    /// The inode of a number, seen through the epoch.
    pub fn get_inode_epoch(ep: &Epoch, tx: &Tx<'_, B>, ino: u64) -> (r: Result<
        Option<Inode>,
        StoreError,
    >)
        requires
            ep.wf(),
        ensures
            r matches Ok(Some(v)) ==> inode_ok(v@),
            forall|h: nat| #[trigger]
                tx.reads(h) ==> match r {
                    Ok(Some(v)) => {
                        &&& shown(tx.ns(), ep@, ino)
                        &&& rootless(v@) == shown_inode(tx.ns(), ep@, ino)
                        &&& ep@.inodes.contains_key(ino) ==> v@ == ep@.inodes[ino]
                        &&& !ep@.inodes.contains_key(ino) ==> tx.inode_of(ino) == Some(v@)
                    },
                    Ok(None) => !shown(tx.ns(), ep@, ino),
                    Err(_) => strained(*tx, h),
                },
    {
        let committed = match read_inode(tx.root.inode_index_root, ino, tx.max_fanout, &tx.objects) {
            Ok(v) => v,
            Err(e) => {
                proof {
                    assert forall|h: nat| #[trigger] tx.reads(h) implies strained(*tx, h) by {
                        assert(readable(&tx.objects, tx.root.inode_index_root@, tx.max_fanout, h));
                    }
                }
                return Err(e);
            },
        };
        proof {
            assert forall|h: nat| #[trigger] tx.reads(h) implies {
                &&& opt_inode(committed) == tx.inode_of(ino)
                &&& tx.ns().contains_key(ino) == (committed is Some)
                &&& committed matches Some(v) ==> tx.ns()[ino].inode == rootless(v@)
            } by {
                assert(readable(&tx.objects, tx.root.inode_index_root@, tx.max_fanout, h));
                lemma_ns_at(
                    tx.objects.payloads(),
                    tx.root.inode_index_root@,
                    tx.max_fanout,
                    h,
                    ino,
                );
            }
        }
        Ok(ep.overlay_inode(ino, committed))
    }

    /// The entry under a name, seen through the epoch. What the epoch does not
    /// bind is looked up in the committed directory.
    pub fn dir_lookup_epoch(ep: &Epoch, tx: &Tx<'_, B>, dir_ino: u64, name: &[u8]) -> (r: Result<
        Option<DirEntry>,
        StoreError,
    >)
        requires
            ep.wf(),
        ensures
            forall|h: nat| #[trigger]
                tx.reads(h) && BTREE_ORDER <= tx.max_fanout ==> match r {
                    Ok(e) => e == entry_over(tx.ns(), ep@, dir_ino, name@) && (base_not_dir(
                        tx.ns(),
                        dir_ino,
                    ) ==> ep@.names.contains_key((dir_ino, name@)) || ep@.cuts.contains(
                        (dir_ino, name@),
                    )),
                    Err(_) => strained(*tx, h) || base_not_dir(tx.ns(), dir_ino),
                },
    {
        match ep.overlay_entry(dir_ino, name) {
            Some(e) => return Ok(Some(e)),
            None => {},
        }
        if ep.is_cut(dir_ino, name) {
            return Ok(None);
        }
        let root = match base_dir(tx, dir_ino) {
            Ok(Some(id)) => id,
            Ok(None) => {
                assert(entry_at(Seq::empty(), name@) is None);
                return Ok(None);
            },
            Err(e) => return Err(e),
        };
        proof {
            assert forall|h: nat| #[trigger] tx.reads(h) && BTREE_ORDER
                <= tx.max_fanout implies dir_editing(*tx, *tx, root@, h) by {}
        }
        dir_find(tx, root, name)
    }
}

/// The committed entry tree of a directory; none where nothing is committed
/// under the number.
fn base_dir<B: IoBackend>(tx: &Tx<'_, B>, dir_ino: u64) -> (r: Result<Option<ChunkId>, StoreError>)
    ensures
        forall|h: nat| #[trigger]
            tx.reads(h) ==> match r {
                Ok(Some(id)) => {
                    &&& has_dir(tx.ns(), dir_ino)
                    &&& crate::fs::tree_ok(tx.objects.payloads(), id@, tx.max_fanout, h)
                    &&& tx.ns()[dir_ino].entries == listing(
                        tx.objects.payloads(),
                        id@,
                        tx.max_fanout,
                    )
                    &&& entries_ok(tx.ns()[dir_ino].entries)
                },
                Ok(None) => !tx.ns().contains_key(dir_ino),
                Err(_) => strained(*tx, h) || base_not_dir(tx.ns(), dir_ino),
            },
{
    let found = read_inode(tx.root.inode_index_root, dir_ino, tx.max_fanout, &tx.objects);
    proof {
        assert forall|h: nat| #[trigger] tx.reads(h) implies match found {
            Ok(v) => {
                &&& tx.ns().contains_key(dir_ino) == (v is Some)
                &&& v matches Some(i) ==> {
                    &&& inode_fits(tx.objects.payloads(), i@, tx.max_fanout, h)
                    &&& tx.ns()[dir_ino] == item_of(tx.objects.payloads(), i@, tx.max_fanout)
                }
            },
            Err(_) => strained(*tx, h),
        } by {
            assert(readable(&tx.objects, tx.root.inode_index_root@, tx.max_fanout, h));
            lemma_ns_at(
                tx.objects.payloads(),
                tx.root.inode_index_root@,
                tx.max_fanout,
                h,
                dir_ino,
            );
        }
    }
    match found {
        Ok(None) => Ok(None),
        Ok(Some(i)) => match &i.data {
            InodeData::Directory { dir_root } => Ok(Some(*dir_root)),
            _ => Err(StoreError::Invariant("not a directory".to_string())),
        },
        Err(e) => Err(e),
    }
}

// ---------------------------------------------------------------------------
// Listing a directory
// ---------------------------------------------------------------------------

/// The names and entries of a listing.
pub open spec fn dir_views(v: Seq<(Vec<u8>, DirEntry)>) -> Seq<(Seq<u8>, DirEntry)> {
    Seq::new(v.len(), |i: int| (v[i].0@, v[i].1))
}

/// One more binding of a sorted listing.
pub proof fn lemma_lookup_take<V>(s: Seq<(Seq<u8>, V)>, i: int, q: Seq<u8>)
    requires
        sorted(s),
        0 <= i < s.len(),
    ensures
        sorted(s.take(i)),
        sorted(s.take(i + 1)),
        lookup(s.take(i + 1), q) == if q == s[i].0 {
            Some(s[i].1)
        } else {
            lookup(s.take(i), q)
        },
        q == s[i].0 ==> lookup(s.take(i), q) is None,
{
    let a = s.take(i);
    let b = s.take(i + 1);
    assert forall|x: int, y: int| #![trigger a[x], a[y]] 0 <= x < y < a.len() implies lex_lt(
        a[x].0,
        a[y].0,
    ) by {
        assert(a[x] == s[x] && a[y] == s[y]);
    }
    assert forall|x: int, y: int| #![trigger b[x], b[y]] 0 <= x < y < b.len() implies lex_lt(
        b[x].0,
        b[y].0,
    ) by {
        assert(b[x] == s[x] && b[y] == s[y]);
    }
    lemma_rank(a, q);
    lemma_rank(b, q);
    assert(b[i] == s[i]);
    lemma_lex_order();
    if q == s[i].0 {
        assert(rank(b, q) == i);
        if has_key(a, q) {
            let r = rank(a, q);
            assert(a[r] == s[r]);
            assert(lex_lt(s[r].0, s[i].0));
        }
    } else if has_key(a, q) {
        let r = rank(a, q);
        assert(b[r] == a[r]);
    } else if has_key(b, q) {
        let r = rank(b, q);
        assert(b[r] == s[r]);
        assert(r < i);
        assert(a[r] == b[r]);
    }
}

/// Whether a slot's key is one of `ino`.
pub(crate) fn slot_of_number(key: &[u8], ino: u64) -> (r: bool)
    requires
        key@.len() >= 8,
    ensures
        r == (key@ == slot_key(ino, key@.skip(8))),
        forall|k: Seq<u8>| #[trigger] slot_key(ino, k) == key@ ==> r && k == key@.skip(8),
{
    let head = copy_range(key, 0, 8);
    let want = u64_be(ino);
    proof {
        lemma_ino_key(ino, ino);
        assert(key@.take(8) + key@.skip(8) =~= key@);
        assert(slot_key(ino, key@.skip(8)).take(8) =~= ino_key(ino));
        assert(head@ =~= key@.take(8));
        assert forall|k: Seq<u8>| #[trigger] slot_key(ino, k) == key@ implies key@.take(8)
            == ino_key(ino) && k == key@.skip(8) by {
            assert(slot_key(ino, k).take(8) =~= ino_key(ino));
            assert(slot_key(ino, k).skip(8) =~= k);
        }
    }
    bytes_equal(&head, &want)
}

/// The bindings of a directory that the epoch leaves, over those in `merged`.
#[verifier::rlimit(40)]
fn merge_entries(ep: &Epoch, dir_ino: u64, merged: &mut SortedMap<DirEntry>)
    requires
        ep.wf(),
        old(merged).wf(),
    ensures
        final(merged).wf(),
        forall|k: Seq<u8>| #[trigger]
            lookup(final(merged)@, k) == if ep@.cuts.contains((dir_ino, k)) {
                None
            } else if ep@.names.contains_key((dir_ino, k)) {
                Some(ep@.names[(dir_ino, k)])
            } else {
                lookup(old(merged)@, k)
            },
{
    let ghost base = merged@;
    let ghost ps = ep.pending_entries@;
    let ghost cs = ep.removed_entries@;
    let mut i: usize = 0;
    assert(ps.take(0) =~= Seq::empty());
    assert forall|q: Seq<u8>| #[trigger] lookup(ps.take(0), q) is None by {
        assert(rank(ps.take(0), q) == 0);
    }
    while i < ep.pending_entries.len()
        invariant
            ep.wf(),
            merged.wf(),
            ps == ep.pending_entries@,
            i <= ps.len(),
            forall|k: Seq<u8>| #[trigger]
                lookup(merged@, k) == match lookup(ps.take(i as int), slot_key(dir_ino, k)) {
                    Some(e) => Some(e),
                    None => lookup(base, k),
                },
        decreases ps.len() - i,
    {
        let key = ep.pending_entries.key_at(i);
        assert(ps[i as int].0.len() >= 8);
        let ghost had = merged@;
        if slot_of_number(key, dir_ino) {
            let name = copy_range(key, 8, key.len());
            let e = *ep.pending_entries.value_at(i);
            let ghost nm = name@;
            assert(nm =~= key@.skip(8));
            merged.insert(name, e);
            proof {
                lemma_upsert_at(had, nm, e);
            }
        }
        proof {
            assert forall|k: Seq<u8>| #[trigger] lookup(merged@, k) == (match lookup(
                ps.take(i + 1),
                slot_key(dir_ino, k),
            ) {
                Some(e) => Some(e),
                None => lookup(base, k),
            }) by {
                lemma_lookup_take(ps, i as int, slot_key(dir_ino, k));
                if k == key@.skip(8) {
                    assert(slot_key(dir_ino, k) == slot_key(dir_ino, key@.skip(8)));
                }
            }
        }
        i += 1;
    }
    assert(ps.take(i as int) =~= ps);
    let ghost bound = merged@;
    let mut j: usize = 0;
    assert(cs.take(0) =~= Seq::empty());
    assert forall|q: Seq<u8>| #[trigger] lookup(cs.take(0), q) is None by {
        assert(rank(cs.take(0), q) == 0);
    }
    while j < ep.removed_entries.len()
        invariant
            ep.wf(),
            merged.wf(),
            cs == ep.removed_entries@,
            j <= cs.len(),
            forall|k: Seq<u8>| #[trigger]
                lookup(merged@, k) == match lookup(cs.take(j as int), slot_key(dir_ino, k)) {
                    Some(_) => None,
                    None => lookup(bound, k),
                },
        decreases cs.len() - j,
    {
        let key = ep.removed_entries.key_at(j);
        assert(cs[j as int].0.len() >= 8);
        let ghost had = merged@;
        if slot_of_number(key, dir_ino) {
            let name = copy_range(key, 8, key.len());
            assert(name@ =~= key@.skip(8));
            merged.remove(&name);
            proof {
                lemma_erase_at(had, name@);
            }
        }
        proof {
            assert forall|k: Seq<u8>| #[trigger] lookup(merged@, k) == (match lookup(
                cs.take(j + 1),
                slot_key(dir_ino, k),
            ) {
                Some(_) => None,
                None => lookup(bound, k),
            }) by {
                lemma_lookup_take(cs, j as int, slot_key(dir_ino, k));
                if k == key@.skip(8) {
                    assert(slot_key(dir_ino, k) == slot_key(dir_ino, key@.skip(8)));
                }
            }
        }
        j += 1;
    }
    assert(cs.take(j as int) =~= cs);
}

/// A listing that memory can hold.
pub open spec fn fits_memory(s: Listing) -> bool {
    s.len() < usize::MAX
}

/// The committed entries of a directory, by name.
#[verifier::rlimit(40)]
fn base_listing<B: IoBackend>(tx: &Tx<'_, B>, dir_ino: u64) -> (r: Result<
    SortedMap<DirEntry>,
    StoreError,
>)
    ensures
        r matches Ok(m) ==> m.wf(),
        forall|h: nat| #[trigger]
            tx.reads(h) && fits_memory(base_entries(tx.ns(), dir_ino)) ==> match r {
                Ok(m) => !base_not_dir(tx.ns(), dir_ino) && forall|k: Seq<u8>| #[trigger]
                    lookup(m@, k) == entry_at(base_entries(tx.ns(), dir_ino), k),
                Err(_) => strained(*tx, h) || base_not_dir(tx.ns(), dir_ino),
            },
{
    let mut merged: SortedMap<DirEntry> = SortedMap::new();
    assert forall|k: Seq<u8>| #[trigger] lookup(merged@, k) is None && entry_at(
        Seq::empty(),
        k,
    ) is None by {
        assert(rank(merged@, k) == 0);
    }
    let root = match base_dir(tx, dir_ino) {
        Ok(Some(id)) => id,
        Ok(None) => return Ok(merged),
        Err(e) => return Err(e),
    };
    let ghost p = tx.objects.payloads();
    let ghost s = listing(p, root@, tx.max_fanout);
    let out = match directory::scan(root, None, usize::MAX, BTREE_ORDER, tx.max_fanout, &tx.objects) {
        Ok((v, _)) => v,
        Err(e) => {
            proof {
                assert forall|h: nat| #[trigger] tx.reads(h) && fits_memory(
                    base_entries(tx.ns(), dir_ino),
                ) implies strained(*tx, h) by {
                    assert(crate::fs::tree_ok(p, root@, tx.max_fanout, h));
                    assert(directory::names_after(s, None) == s);
                    assert(first_of(s, usize::MAX as nat) =~= s);
                    if directory::some_undecodable(s) {
                        let i = choose|i: int|
                            0 <= i < s.len() && parse_entry((#[trigger] s[i]).1) is Err;
                        assert(parse_entry(s[i].1) is Ok);
                    }
                }
            }
            return Err(StoreError::index(e));
        },
    };
    let ghost good = exists|h: nat| #[trigger]
        tx.reads(h) && fits_memory(base_entries(tx.ns(), dir_ino));
    proof {
        if good {
            let h = choose|h: nat| #[trigger]
                tx.reads(h) && fits_memory(base_entries(tx.ns(), dir_ino));
            assert(crate::fs::tree_ok(p, root@, tx.max_fanout, h));
            lemma_tree_sorted(p, root@, tx.max_fanout, h);
            assert(directory::names_after(s, None) == s);
            assert(first_of(s, usize::MAX as nat) =~= s);
            assert(directory::entries_decode(s, out@));
        }
    }
    let mut i: usize = 0;
    assert forall|q: Seq<u8>| #[trigger] entry_at(s.take(0), q) is None by {
        assert(rank(s.take(0), q) == 0);
    }
    while i < out.len()
        invariant
            i <= out@.len(),
            merged.wf(),
            good ==> sorted(s) && directory::entries_decode(s, out@),
            good ==> forall|k: Seq<u8>| #[trigger]
                lookup(merged@, k) == entry_at(s.take(i as int), k),
        decreases out@.len() - i,
    {
        let ghost had = merged@;
        let e = out[i].1;
        merged.insert(copy_bytes(&out[i].0), e);
        proof {
            lemma_upsert_at(had, out@[i as int].0@, e);
            if good {
                assert(s[i as int].0 == out@[i as int].0@);
                assert forall|k: Seq<u8>| #[trigger] lookup(merged@, k) == entry_at(
                    s.take(i + 1),
                    k,
                ) by {
                    lemma_lookup_take(s, i as int, k);
                }
            }
        }
        i += 1;
    }
    proof {
        if good {
            assert(s.take(i as int) =~= s);
        }
    }
    Ok(merged)
}

/// The bindings of a map, in key order.
fn listed(m: &SortedMap<DirEntry>) -> (r: Vec<(Vec<u8>, DirEntry)>)
    ensures
        dir_views(r@) == m@,
{
    let mut out: Vec<(Vec<u8>, DirEntry)> = Vec::new();
    let mut i: usize = 0;
    while i < m.len()
        invariant
            i <= m@.len(),
            out@.len() == i,
            forall|j: int|
                0 <= j < i ==> (#[trigger] out@[j]).0@ == m@[j].0 && out@[j].1 == m@[j].1,
        decreases m@.len() - i,
    {
        out.push((copy_bytes(m.key_at(i)), *m.value_at(i)));
        i += 1;
    }
    assert(dir_views(out@) =~= m@);
    out
}

impl<B: IoBackend> Store<B> {
    /// The entries of a directory in name order, seen through the epoch.
    pub fn read_dir_epoch(ep: &Epoch, tx: &Tx<'_, B>, dir_ino: u64) -> (r: Result<
        Vec<(Vec<u8>, DirEntry)>,
        StoreError,
    >)
        requires
            ep.wf(),
        ensures
            r matches Ok(v) ==> sorted(dir_views(v@)),
            forall|h: nat| #[trigger]
                tx.reads(h) && fits_memory(base_entries(tx.ns(), dir_ino)) ==> match r {
                    Ok(v) => !base_not_dir(tx.ns(), dir_ino) && forall|k: Seq<u8>| #[trigger]
                        lookup(dir_views(v@), k) == entry_over(tx.ns(), ep@, dir_ino, k),
                    Err(_) => strained(*tx, h) || base_not_dir(tx.ns(), dir_ino),
                },
    {
        let mut merged = match base_listing(tx, dir_ino) {
            Ok(m) => m,
            Err(e) => return Err(e),
        };
        merge_entries(ep, dir_ino, &mut merged);
        Ok(listed(&merged))
    }

    /// The descriptor of a chunk, seen through the epoch: the pending one, else
    /// the committed one.
    pub fn chunk_descriptor_epoch(ep: &Epoch, tx: &Tx<'_, B>, cid: &ChunkId) -> (r: Result<
        Option<Vec<u8>>,
        StoreError,
    >)
        requires
            ep.wf(),
        ensures
            forall|h: nat| #[trigger]
                tx.chunks_ok(h) && trusty(&tx.objects) ==> match r {
                    Ok(v) => opt_bytes(v) == if ep@.chunks.contains_key(cid@) {
                        Some(ep@.chunks[cid@])
                    } else {
                        lookup(tx.chunks(), cid@)
                    },
                    Err(_) => strained(*tx, h),
                },
    {
        match ep.overlay_chunk(cid) {
            Some(b) => return Ok(Some(b)),
            None => {},
        }
        Self::chunk_descriptor_in_tx(tx, cid)
    }

    /// The committed descriptor of a chunk.
    pub fn chunk_descriptor_in_tx(tx: &Tx<'_, B>, cid: &ChunkId) -> (r: Result<
        Option<Vec<u8>>,
        StoreError,
    >)
        ensures
            forall|h: nat| #[trigger]
                tx.chunks_ok(h) && trusty(&tx.objects) ==> match r {
                    Ok(v) => opt_bytes(v) == lookup(tx.chunks(), cid@),
                    Err(_) => strained(*tx, h),
                },
    {
        match index::get(
            tx.root.chunk_index_root,
            cid.as_slice(),
            BTREE_ORDER,
            tx.max_fanout,
            &tx.objects,
        ) {
            Ok(v) => Ok(v),
            Err(e) => Err(StoreError::index(e)),
        }
    }
}

} // verus!
