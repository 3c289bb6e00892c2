//! Inode numbers, directory reads and path lookups in a transaction.

use vstd::prelude::*;

use crate::bytes::be_u64;
use crate::chunk::ChunkId;
use crate::directory::{self, entry_bytes, parse_entry, DirEntry};
use crate::error::StoreError;
use crate::fs::{entry_at, ino_key, key_ino, lemma_fits_grows, lemma_has_key, inode_fits, item_of,
    lemma_ino_key, lemma_key_ino, lemma_ns_at, lemma_tree_sorted, listing, row_ok, tree_ok, Listing,
    Namespace, BTREE_ORDER};
use crate::index::{self, first_of, opt_slice, pair_views, ObjectProvider};
use crate::inode::{InodeData, Timespec};
use crate::io::IoBackend;
use crate::namespace::{strained, dir_bind, dir_editing, dir_unbind, edited, editing, find_dir, has_dir,
    lemma_added, lemma_edit_on, lemma_editing, put_dir, relisted, time_ok};
use crate::sorted::{erase, has_key, rank, sorted, upsert};
use crate::store::Store;
use crate::transaction::Tx;

verus! {

// ---------------------------------------------------------------------------
// Inode numbers
// ---------------------------------------------------------------------------

/// Exactly the numbers of the namespace, in order.
pub open spec fn numbers(v: Seq<u64>, n: Namespace) -> bool {
    &&& forall|i: int, j: int| 0 <= i < j < v.len() ==> v[i] < v[j]
    &&& forall|ino: u64| #[trigger] v.contains(ino) == n.contains_key(ino)
}

proof fn lemma_numbers<B: IoBackend>(tx: Tx<B>, h: nat, v: Seq<u64>)
    requires
        tx.reads(h),
        ({
            let s = listing(tx.objects.payloads(), tx.root.inode_index_root@, tx.max_fanout);
            &&& v.len() == s.len()
            &&& forall|i: int| 0 <= i < s.len() ==> v[i] == key_ino((#[trigger] s[i]).0)
        }),
    ensures
        numbers(v, tx.ns()),
{
    let p = tx.objects.payloads();
    let table = tx.root.inode_index_root@;
    let s = listing(p, table, tx.max_fanout);
    lemma_tree_sorted(p, table, tx.max_fanout, h);
    assert forall|i: int| 0 <= i < s.len() implies ino_key(v[i]) == (#[trigger] s[i]).0 by {
        assert(row_ok(p, s[i], tx.max_fanout, h));
        lemma_key_ino(s[i].0);
    }
    assert forall|i: int, j: int| 0 <= i < j < v.len() implies v[i] < v[j] by {
        assert(crate::bytes::lex_lt(s[i].0, s[j].0));
        lemma_ino_key(v[i], v[j]);
    }
    assert forall|ino: u64| #[trigger] v.contains(ino) == tx.ns().contains_key(ino) by {
        lemma_ns_at(p, table, tx.max_fanout, h, ino);
        lemma_has_key(s, ino_key(ino));
        if v.contains(ino) {
            let i = choose|i: int| 0 <= i < v.len() && v[i] == ino;
            assert(s[i].0 == ino_key(ino));
            crate::sorted::lemma_rank(s, ino_key(ino));
        }
        if has_key(s, ino_key(ino)) {
            let i = rank(s, ino_key(ino));
            lemma_ino_key(v[i], ino);
            assert(v[i] == ino);
        }
    }
}

/// The count of inodes can be held in memory.
pub open spec fn countable<B: IoBackend>(tx: Tx<B>) -> bool {
    listing(tx.objects.payloads(), tx.root.inode_index_root@, tx.max_fanout).len() <= usize::MAX
}

/// The greatest number in use, and at least 1.
pub open spec fn tops(n: Namespace, top: u64) -> bool {
    &&& top >= 1
    &&& forall|k: u64| #[trigger] n.contains_key(k) ==> k <= top
    &&& top > 1 ==> n.contains_key(top)
}

proof fn lemma_top(v: Seq<u64>, n: Namespace, top: u64)
    requires
        numbers(v, n),
        top == if v.len() == 0 || v.last() < 1 {
            1
        } else {
            v.last()
        },
    ensures
        tops(n, top),
{
    assert forall|k: u64| #[trigger] n.contains_key(k) implies k <= top by {
        assert(v.contains(k));
        let i = choose|i: int| 0 <= i < v.len() && v[i] == k;
        if i < v.len() - 1 {
            assert(v[i] < v[v.len() - 1]);
        }
    }
    if top > 1 {
        assert(v[v.len() - 1] == top);
        assert(v.contains(top));
    }
}

impl<B: IoBackend> Store<B> {
    /// All inode numbers, in order.
    pub fn all_inodes_in_tx(tx: &Tx<'_, B>) -> (r: Result<Vec<u64>, StoreError>)
        ensures
            forall|h: nat| #[trigger]
                tx.reads(h) && countable(*tx) ==> match r {
                    Ok(v) => numbers(v@, tx.ns()),
                    Err(_) => strained(*tx, h),
                },
    {
        let out = index::scan_all(
            tx.root.inode_index_root,
            BTREE_ORDER,
            tx.max_fanout,
            &tx.objects,
        );
        let ghost p = tx.objects.payloads();
        let ghost table = tx.root.inode_index_root@;
        let ghost s = listing(p, table, tx.max_fanout);
        proof {
            assert forall|h: nat| #[trigger] tx.reads(h) && countable(*tx) implies (match out {
                Ok(v) => pair_views(v@) == s,
                Err(_) => strained(*tx, h),
            }) by {
                assert(tree_ok(p, table, tx.max_fanout, h));
            }
        }
        let entries = match out {
            Ok(v) => v,
            Err(e) => return Err(StoreError::index(e)),
        };
        let mut inos: Vec<u64> = Vec::new();
        let mut i: usize = 0;
        while i < entries.len()
            invariant
                i <= entries@.len(),
                inos@.len() == i,
                p == tx.objects.payloads(),
                table == tx.root.inode_index_root@,
                s == listing(p, table, tx.max_fanout),
                forall|j: int| 0 <= j < i ==> inos@[j] == key_ino((#[trigger] entries@[j]).0@),
                forall|h: nat| #[trigger] tx.reads(h) && countable(*tx) ==> pair_views(entries@) == s,
            decreases entries@.len() - i,
        {
            let key = &entries[i].0;
            if key.len() != 8 {
                assert forall|h: nat| #[trigger] tx.reads(h) && countable(
                    *tx,
                ) implies strained(*tx, h) by {
                    assert(pair_views(entries@)[i as int] == s[i as int]);
                    assert(row_ok(p, s[i as int], tx.max_fanout, h));
                }
                return Err(StoreError::Invariant("inode key not a number".to_string()));
            }
            inos.push(be_u64(key));
            i += 1;
        }
        proof {
            assert forall|h: nat| #[trigger] tx.reads(h) && countable(*tx) implies numbers(
                inos@,
                tx.ns(),
            ) by {
                assert forall|j: int| 0 <= j < s.len() implies inos@[j] == key_ino(
                    (#[trigger] s[j]).0,
                ) by {
                    assert(pair_views(entries@)[j] == s[j]);
                    assert(entries@[j].0@ == s[j].0);
                }
                lemma_numbers(*tx, h, inos@);
            }
        }
        Ok(inos)
    }

    /// Allocate a fresh inode number: one above the greatest. The error of a
    /// full number space is a limit.
    pub fn alloc_ino_in_tx(tx: &Tx<'_, B>) -> (r: Result<u64, StoreError>)
        ensures
            forall|h: nat| #[trigger]
                tx.reads(h) && countable(*tx) ==> match r {
                    Ok(ino) => ino > 0 && tops(tx.ns(), (ino - 1) as u64),
                    Err(_) => strained(*tx, h) || tops(tx.ns(), u64::MAX),
                },
    {
        let inos = match Self::all_inodes_in_tx(tx) {
            Ok(v) => v,
            Err(e) => return Err(e),
        };
        let top: u64 = if inos.len() == 0 {
            1
        } else {
            let last: u64 = inos[inos.len() - 1];
            if last < 1 {
                1
            } else {
                last
            }
        };
        proof {
            assert forall|h: nat| #[trigger] tx.reads(h) && countable(*tx) implies tops(
                tx.ns(),
                top,
            ) by {
                lemma_top(inos@, tx.ns(), top);
            }
        }
        if top == u64::MAX {
            return Err(StoreError::Limit("no inode number left".to_string()));
        }
        Ok(top + 1)
    }
}

// ---------------------------------------------------------------------------
// Single directories
// ---------------------------------------------------------------------------

impl<B: IoBackend> Store<B> {
    /// Bind a name in the directory `dir_ino`, over what it stood for.
    pub fn dir_insert_in_tx(
        tx: &mut Tx<'_, B>,
        dir_ino: u64,
        name: &[u8],
        entry: DirEntry,
        now: Timespec,
    ) -> (r: Result<(), StoreError>)
        requires
            time_ok(now),
            name@.len() <= u16::MAX,
        ensures
            edited(*old(tx), *final(tx)),
            forall|h: nat| #[trigger]
                editing(*old(tx), *final(tx), h) ==> match r {
                    Ok(_) => {
                        let n = old(tx).ns();
                        &&& has_dir(n, dir_ino)
                        &&& final(tx).whole(h + 2)
                        &&& final(tx).ns() == n.insert(
                            dir_ino,
                            relisted(
                                n[dir_ino],
                                upsert(n[dir_ino].entries, name@, entry_bytes(entry)),
                                n[dir_ino].inode.nlink,
                                now,
                            ),
                        )
                    },
                    Err(_) => strained(*old(tx), h + 1) || (*final(tx) == *old(tx) && !has_dir(
                        old(tx).ns(),
                        dir_ino,
                    )),
                },
    {
        let ghost was = *tx;
        let ghost p0 = tx.objects.payloads();
        let ghost f = tx.max_fanout;
        proof {
            assert forall|h: nat| #[trigger] editing(was, was, h) implies was.reads(h) by {}
        }
        let (inode, dir_root) = match find_dir(tx, dir_ino) {
            Ok(v) => v,
            Err(e) => return Err(e),
        };
        let ghost v0 = inode@;
        let bound = dir_bind(tx, dir_root, name, entry);
        let ghost t1 = *tx;
        proof {
            assert forall|h: nat| #[trigger] editing(was, t1, h) implies {
                &&& dir_editing(was, t1, dir_root@, h)
                &&& has_dir(was.ns(), dir_ino)
                &&& inode_fits(p0, v0, f, h)
                &&& was.ns()[dir_ino] == item_of(p0, v0, f)
            } by {
                lemma_editing(was, was, t1, h);
                assert(was.reads(h));
            }
        }
        let root = match bound {
            Ok(id) => id,
            Err(e) => return Err(e),
        };
        let nlink: u32 = inode.nlink;
        let done = put_dir(tx, dir_ino, inode, root, nlink, now);
        proof {
            let t2 = *tx;
            assert forall|h: nat| #[trigger] editing(was, t2, h) implies {
                &&& editing(was, t1, h)
                &&& editing(t1, t2, h + 1)
                &&& t1.ns() == was.ns()
                &&& inode_fits(t1.objects.payloads(), v0, f, h + 1)
                &&& item_of(t1.objects.payloads(), v0, f) == item_of(p0, v0, f)
            } by {
                lemma_editing(was, t1, t2, h);
                lemma_added(was, t1, h, h + 1);
                lemma_edit_on(was, t1, t2, h, h + 1);
                lemma_fits_grows(p0, t1.objects.payloads(), v0, f, h, h + 1);
            }
        }
        done
    }

    /// Unbind a name in the directory `dir_ino`.
    pub fn dir_remove_in_tx(tx: &mut Tx<'_, B>, dir_ino: u64, name: &[u8], now: Timespec) -> (r:
        Result<(), StoreError>)
        requires
            time_ok(now),
        ensures
            edited(*old(tx), *final(tx)),
            forall|h: nat| #[trigger]
                editing(*old(tx), *final(tx), h) ==> match r {
                    Ok(_) => {
                        let n = old(tx).ns();
                        &&& has_dir(n, dir_ino)
                        &&& final(tx).whole(h + 1)
                        &&& final(tx).ns() == n.insert(
                            dir_ino,
                            relisted(
                                n[dir_ino],
                                erase(n[dir_ino].entries, name@),
                                n[dir_ino].inode.nlink,
                                now,
                            ),
                        )
                    },
                    Err(_) => strained(*old(tx), h) || (*final(tx) == *old(tx) && !has_dir(
                        old(tx).ns(),
                        dir_ino,
                    )),
                },
    {
        let ghost was = *tx;
        let ghost p0 = tx.objects.payloads();
        let ghost f = tx.max_fanout;
        proof {
            assert forall|h: nat| #[trigger] editing(was, was, h) implies was.reads(h) by {}
        }
        let (inode, dir_root) = match find_dir(tx, dir_ino) {
            Ok(v) => v,
            Err(e) => return Err(e),
        };
        let ghost v0 = inode@;
        let bound = dir_unbind(tx, dir_root, name);
        let ghost t1 = *tx;
        proof {
            assert forall|h: nat| #[trigger] editing(was, t1, h) implies {
                &&& dir_editing(was, t1, dir_root@, h)
                &&& has_dir(was.ns(), dir_ino)
                &&& inode_fits(p0, v0, f, h)
                &&& was.ns()[dir_ino] == item_of(p0, v0, f)
            } by {
                lemma_editing(was, was, t1, h);
                assert(was.reads(h));
            }
        }
        let root = match bound {
            Ok(id) => id,
            Err(e) => return Err(e),
        };
        let nlink: u32 = inode.nlink;
        let done = put_dir(tx, dir_ino, inode, root, nlink, now);
        proof {
            let t2 = *tx;
            assert forall|h: nat| #[trigger] editing(was, t2, h) implies {
                &&& editing(was, t1, h)
                &&& editing(t1, t2, h)
                &&& t1.ns() == was.ns()
                &&& inode_fits(t1.objects.payloads(), v0, f, h)
                &&& item_of(t1.objects.payloads(), v0, f) == item_of(p0, v0, f)
            } by {
                lemma_editing(was, t1, t2, h);
                lemma_added(was, t1, h, h);
                lemma_edit_on(was, t1, t2, h, h);
                lemma_fits_grows(p0, t1.objects.payloads(), v0, f, h, h);
            }
        }
        done
    }

    /// Scan a directory in name order, from behind `start_after` on, up to
    /// `limit` entries; whether more remain.
    pub fn dir_scan_in_tx(tx: &Tx<'_, B>, dir_ino: u64, start_after: Option<&[u8]>, limit: usize) -> (r:
        Result<directory::DirScan, StoreError>)
        ensures
            forall|h: nat| #[trigger]
                tx.reads(h) && (has_dir(tx.ns(), dir_ino) ==> limit < usize::MAX || tx.ns()[dir_ino].entries.len()
                    < usize::MAX) ==> match r {
                    Ok(o) => {
                        let all = directory::names_after(
                            tx.ns()[dir_ino].entries,
                            opt_slice(start_after),
                        );
                        &&& has_dir(tx.ns(), dir_ino)
                        &&& directory::entries_decode(first_of(all, limit as nat), o.0@)
                        &&& o.1 == (all.len() > limit)
                    },
                    Err(_) => strained(*tx, h) || !has_dir(tx.ns(), dir_ino),
                },
    {
        let (inode, dir_root) = match find_dir(tx, dir_ino) {
            Ok(v) => v,
            Err(e) => return Err(e),
        };
        let ghost p = tx.objects.payloads();
        let out = directory::scan(
            dir_root,
            start_after,
            limit,
            BTREE_ORDER,
            tx.max_fanout,
            &tx.objects,
        );
        proof {
            assert forall|h: nat| #[trigger] tx.reads(h) && (limit < usize::MAX
                || tx.ns()[dir_ino].entries.len() < usize::MAX) implies tree_ok(
                p,
                dir_root@,
                tx.max_fanout,
                h,
            ) && !directory::some_undecodable(
                first_of(
                    directory::names_after(tx.ns()[dir_ino].entries, opt_slice(start_after)),
                    limit as nat,
                ),
            ) by {
                let s = tx.ns()[dir_ino].entries;
                assert(inode_fits(p, inode@, tx.max_fanout, h));
                assert(s == listing(p, dir_root@, tx.max_fanout));
                lemma_tree_sorted(p, dir_root@, tx.max_fanout, h);
                let all = directory::names_after(s, opt_slice(start_after));
                let shown = first_of(all, limit as nat);
                if opt_slice(start_after) is Some {
                    crate::sorted::lemma_rank(s, opt_slice(start_after)->0);
                }
                assert forall|i: int| 0 <= i < shown.len() implies parse_entry(
                    (#[trigger] shown[i]).1,
                ) is Ok by {
                    let skip = s.len() - all.len();
                    assert(shown[i] == all[i]);
                    assert(all[i] == s[i + skip]);
                }
            }
        }
        match out {
            Ok(o) => Ok(o),
            Err(e) => Err(StoreError::index(e)),
        }
    }
}

// ---------------------------------------------------------------------------
// Paths
// ---------------------------------------------------------------------------

/// A path split at its slashes.
pub open spec fn pieces(path: Seq<u8>) -> Seq<Seq<u8>>
    decreases path.len(),
{
    if path.len() == 0 {
        seq![Seq::<u8>::empty()]
    } else {
        let front = pieces(path.drop_last());
        if path.last() == 0x2f {
            front.push(Seq::empty())
        } else {
            front.drop_last().push(front.last().push(path.last()))
        }
    }
}

/// A piece that names something: not empty and not the dot.
pub open spec fn is_component(piece: Seq<u8>) -> bool {
    piece.len() > 0 && piece != seq![0x2eu8]
}

pub open spec fn components_of(ps: Seq<Seq<u8>>) -> Seq<Seq<u8>>
    decreases ps.len(),
{
    if ps.len() == 0 {
        Seq::empty()
    } else if is_component(ps.last()) {
        components_of(ps.drop_last()).push(ps.last())
    } else {
        components_of(ps.drop_last())
    }
}

/// The components of a path: its pieces that are not empty and not the dot.
pub open spec fn components(path: Seq<u8>) -> Seq<Seq<u8>> {
    components_of(pieces(path))
}

/// Where the components lead from `ino`: nowhere where a name is missing; no
/// answer where a name is looked up in what is no directory, or where a
/// component is the parent.
pub open spec fn walk(n: Namespace, ino: u64, cs: Seq<Seq<u8>>) -> Option<Option<u64>>
    decreases cs.len(),
{
    if cs.len() == 0 {
        Some(Some(ino))
    } else if cs[0] == seq![0x2eu8, 0x2eu8] || !has_dir(n, ino) {
        None
    } else {
        match entry_at(n[ino].entries, cs[0]) {
            None => Some(None),
            Some(e) => walk(n, e.ino, cs.drop_first()),
        }
    }
}

proof fn lemma_pieces(path: Seq<u8>)
    ensures
        pieces(path).len() > 0,
    decreases path.len(),
{
    if path.len() > 0 {
        lemma_pieces(path.drop_last());
    }
}

/// Whether a piece names something.
fn keeps(piece: &Vec<u8>) -> (r: bool)
    ensures
        r == is_component(piece@),
{
    if piece.len() == 1 && piece[0] == 0x2e {
        assert(piece@ =~= seq![0x2eu8]);
        return false;
    }
    piece.len() > 0
}

pub open spec fn piece_views(v: Seq<Vec<u8>>) -> Seq<Seq<u8>> {
    Seq::new(v.len(), |i: int| v[i]@)
}

/// The components of a path.
pub fn split_path(path: &[u8]) -> (r: Vec<Vec<u8>>)
    ensures
        piece_views(r@) == components(path@),
{
    let mut out: Vec<Vec<u8>> = Vec::new();
    let mut cur: Vec<u8> = Vec::new();
    let ghost mut front: Seq<Seq<u8>> = Seq::empty();
    let mut i: usize = 0;
    proof {
        assert(path@.take(0) =~= Seq::empty());
        assert(pieces(path@.take(0)) =~= front.push(cur@));
        assert(piece_views(out@) =~= components_of(front));
    }
    while i < path.len()
        invariant
            i <= path@.len(),
            pieces(path@.take(i as int)) == front.push(cur@),
            piece_views(out@) == components_of(front),
        decreases path@.len() - i,
    {
        let b: u8 = path[i];
        proof {
            assert(path@.take(i + 1).drop_last() =~= path@.take(i as int));
            assert(path@.take(i + 1).last() == b);
            assert(front.push(cur@).drop_last() =~= front);
        }
        if b == 0x2f {
            let ghost had = front.push(cur@);
            let ghost kept = out@;
            let ghost done = cur@;
            if keeps(&cur) {
                out.push(cur);
                assert(piece_views(out@) =~= piece_views(kept).push(done));
            }
            cur = Vec::new();
            proof {
                front = had;
                assert(cur@ =~= Seq::empty());
            }
        } else {
            cur.push(b);
        }
        i += 1;
    }
    proof {
        assert(path@.take(i as int) =~= path@);
        assert(front.push(cur@).drop_last() =~= front);
    }
    let ghost kept = out@;
    let ghost done = cur@;
    if keeps(&cur) {
        out.push(cur);
        assert(piece_views(out@) =~= piece_views(kept).push(done));
    }
    out
}

impl<B: IoBackend> Store<B> {
    /// Resolve an absolute path (raw bytes) to an inode number. A missing
    /// component gives `None`; symbolic links are not followed, and the parent
    /// component is an error.
    pub fn resolve_path_in_tx(tx: &Tx<'_, B>, path: &[u8]) -> (r: Result<Option<u64>, StoreError>)
        ensures
            forall|h: nat| #[trigger]
                tx.reads(h) && BTREE_ORDER <= tx.max_fanout ==> match r {
                    Ok(v) => walk(tx.ns(), tx.root.root_dir_ino, components(path@)) == Some(v),
                    Err(_) => strained(*tx, h) || walk(
                        tx.ns(),
                        tx.root.root_dir_ino,
                        components(path@),
                    ) is None,
                },
    {
        let cs = split_path(path);
        let ghost all = components(path@);
        let ghost start = tx.root.root_dir_ino;
        let mut ino: u64 = tx.root.root_dir_ino;
        let mut i: usize = 0;
        assert(all.skip(0) =~= all);
        while i < cs.len()
            invariant
                i <= cs@.len(),
                piece_views(cs@) == all,
                forall|h: nat| #[trigger]
                    tx.reads(h) && BTREE_ORDER <= tx.max_fanout ==> walk(tx.ns(), start, all)
                        == walk(tx.ns(), ino, all.skip(i as int)),
                start == tx.root.root_dir_ino,
                all == components(path@),
            decreases cs@.len() - i,
        {
            let comp = &cs[i];
            proof {
                assert(all[i as int] == comp@);
                assert(all.skip(i as int)[0] == comp@);
                assert(all.skip(i as int).drop_first() =~= all.skip(i + 1));
            }
            if comp.len() == 2 && comp[0] == 0x2e && comp[1] == 0x2e {
                assert(comp@ =~= seq![0x2eu8, 0x2eu8]);
                return Err(
                    StoreError::Invariant("parent component not supported".to_string()),
                );
            }
            match Self::dir_lookup_in_tx(tx, ino, comp) {
                Ok(Some(e)) => {
                    ino = e.ino;
                },
                Ok(None) => return Ok(None),
                Err(e) => return Err(e),
            }
            i += 1;
        }
        assert(all.skip(i as int) =~= Seq::empty());
        Ok(Some(ino))
    }
}

// ---------------------------------------------------------------------------
// Parents
// ---------------------------------------------------------------------------

/// The directory listing has an entry for `ino`.
pub open spec fn lists_child(s: Listing, ino: u64) -> bool {
    exists|i: int|
        0 <= i < s.len() && (parse_entry((#[trigger] s[i]).1) matches Ok(e) && e.ino == ino)
}

/// `d` is a directory with an entry for `ino`.
pub open spec fn parents(n: Namespace, d: u64, ino: u64) -> bool {
    has_dir(n, d) && lists_child(n[d].entries, ino)
}

/// The directory that contains `ino`: the first by number with an entry for it,
/// and the root directory where there is none, or for the root itself.
pub open spec fn parent_is(n: Namespace, root_dir: u64, ino: u64, r: u64) -> bool {
    if ino == root_dir {
        r == root_dir
    } else {
        ||| parents(n, r, ino) && forall|d: u64| #[trigger] parents(n, d, ino) ==> r <= d
        ||| r == root_dir && forall|d: u64| !#[trigger] parents(n, d, ino)
    }
}

/// Whether a directory tree has an entry for `ino`.
fn has_child<B: IoBackend>(tx: &Tx<'_, B>, dir_root: ChunkId, ino: u64) -> (r: Result<
    bool,
    StoreError,
>)
    ensures
        forall|h: nat| #[trigger]
            dir_editing(*tx, *tx, dir_root@, h) && listing(
                tx.objects.payloads(),
                dir_root@,
                tx.max_fanout,
            ).len() <= usize::MAX ==> match r {
                Ok(b) => b == lists_child(
                    listing(tx.objects.payloads(), dir_root@, tx.max_fanout),
                    ino,
                ),
                Err(_) => strained(*tx, h),
            },
{
    let out = index::scan_all(dir_root, BTREE_ORDER, tx.max_fanout, &tx.objects);
    let ghost s = listing(tx.objects.payloads(), dir_root@, tx.max_fanout);
    proof {
        assert forall|h: nat| #[trigger] dir_editing(*tx, *tx, dir_root@, h) && s.len()
            <= usize::MAX implies (match out {
            Ok(v) => pair_views(v@) == s,
            Err(_) => strained(*tx, h),
        }) by {
            assert(tree_ok(tx.objects.payloads(), dir_root@, tx.max_fanout, h));
        }
    }
    let entries = match out {
        Ok(v) => v,
        Err(e) => return Err(StoreError::index(e)),
    };
    let ghost views = pair_views(entries@);
    let mut i: usize = 0;
    while i < entries.len()
        invariant
            i <= entries@.len(),
            views == pair_views(entries@),
            s == listing(tx.objects.payloads(), dir_root@, tx.max_fanout),
            forall|h: nat| #[trigger]
                dir_editing(*tx, *tx, dir_root@, h) && s.len() <= usize::MAX ==> views == s,
            forall|j: int|
                0 <= j < i ==> !(parse_entry((#[trigger] views[j]).1) matches Ok(e) && e.ino == ino),
        decreases entries@.len() - i,
    {
        assert(views[i as int].1 == entries@[i as int].1@);
        match DirEntry::decode(&entries[i].1) {
            Ok(e) => if e.ino == ino {
                assert(parse_entry(views[i as int].1) matches Ok(x) && x.ino == ino);
                assert(lists_child(views, ino));
                return Ok(true);
            },
            Err(_) => {},
        }
        i += 1;
    }
    assert(!lists_child(views, ino));
    Ok(false)
}

/// Every directory's entries can be held in memory.
pub open spec fn listable(n: Namespace) -> bool {
    forall|d: u64| #[trigger] n.contains_key(d) ==> n[d].entries.len() <= usize::MAX
}

impl<B: IoBackend> Store<B> {
    /// Find the directory containing `ino`. The root directory is its own
    /// parent.
    #[verifier::rlimit(40)]
    pub fn parent_of_in_tx(tx: &Tx<'_, B>, ino: u64) -> (r: Result<u64, StoreError>)
        ensures
            forall|h: nat| #[trigger]
                tx.reads(h) && BTREE_ORDER <= tx.max_fanout && countable(*tx) && listable(tx.ns())
                    ==> match r {
                    Ok(d) => parent_is(tx.ns(), tx.root.root_dir_ino, ino, d),
                    Err(_) => strained(*tx, h),
                },
    {
        let root_dir: u64 = tx.root.root_dir_ino;
        if ino == root_dir {
            return Ok(root_dir);
        }
        let inos = match Self::all_inodes_in_tx(tx) {
            Ok(v) => v,
            Err(e) => return Err(e),
        };
        let ghost n = tx.ns();
        let ghost good = (exists|h: nat| #[trigger] tx.reads(h)) && BTREE_ORDER <= tx.max_fanout
            && countable(*tx) && listable(tx.ns());
        proof {
            if good {
                let h = choose|h: nat| #[trigger] tx.reads(h);
                assert(numbers(inos@, n));
            }
        }
        let mut i: usize = 0;
        while i < inos.len()
            invariant
                i <= inos@.len(),
                n == tx.ns(),
                good == ((exists|h: nat| #[trigger] tx.reads(h)) && BTREE_ORDER <= tx.max_fanout
                    && countable(*tx) && listable(tx.ns())),
                good ==> numbers(inos@, n),
                good ==> forall|j: int| 0 <= j < i ==> !parents(n, #[trigger] inos@[j], ino),
                root_dir == tx.root.root_dir_ino,
                ino != root_dir,
            decreases inos@.len() - i,
        {
            let dir_ino: u64 = inos[i];
            assert(inos@.contains(dir_ino));
            assert(good ==> n.contains_key(dir_ino));
            let inode = match Self::inode_for_tx(tx, dir_ino) {
                Ok(v) => v,
                Err(e) => return Err(e),
            };
            match &inode.data {
                InodeData::Directory { dir_root } => {
                    let out = has_child(tx, *dir_root, ino);
                    proof {
                        if good {
                            assert forall|h: nat| #[trigger] tx.reads(h) implies dir_editing(
                                *tx,
                                *tx,
                                dir_root@,
                                h,
                            ) by {}
                            let h = choose|h: nat| #[trigger] tx.reads(h);
                            assert(dir_editing(*tx, *tx, dir_root@, h));
                        }
                    }
                    match out {
                        Ok(true) => {
                            proof {
                                if good {
                                    let h = choose|h: nat| #[trigger] tx.reads(h);
                                    lemma_first(inos@, n, i as int, ino);
                                }
                            }
                            return Ok(dir_ino);
                        },
                        Ok(false) => {},
                        Err(e) => return Err(e),
                    }
                },
                _ => {},
            }
            proof {
                if good {
                    let h = choose|h: nat| #[trigger] tx.reads(h);
                    assert(!parents(n, dir_ino, ino));
                }
            }
            i += 1;
        }
        proof {
            if good {
                assert forall|d: u64| !#[trigger] parents(n, d, ino) by {
                    if parents(n, d, ino) {
                        assert(inos@.contains(d));
                        let j = choose|j: int| 0 <= j < inos@.len() && inos@[j] == d;
                        assert(!parents(n, inos@[j], ino));
                    }
                }
            }
        }
        Ok(root_dir)
    }
}

proof fn lemma_first(v: Seq<u64>, n: Namespace, i: int, ino: u64)
    requires
        numbers(v, n),
        0 <= i < v.len(),
        parents(n, v[i], ino),
        forall|j: int| 0 <= j < i ==> !parents(n, #[trigger] v[j], ino),
    ensures
        forall|d: u64| #[trigger] parents(n, d, ino) ==> v[i] <= d,
{
    assert forall|d: u64| #[trigger] parents(n, d, ino) implies v[i] <= d by {
        assert(v.contains(d));
        let j = choose|j: int| 0 <= j < v.len() && v[j] == d;
        if j < i {
            assert(!parents(n, v[j], ino));
        } else if i < j {
            assert(v[i] < v[j]);
        }
    }
}

} // verus!
