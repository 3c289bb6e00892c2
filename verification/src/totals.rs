//! Sums over the files of the store, and the parent of a pending inode.

use vstd::prelude::*;

use crate::bytes::{be_u64, lemma_lex_order, lex_lt};
use crate::descriptor::{decode_with, decoded, steady, Descriptor};
use crate::epoch::{slot_key, Epoch, Overlay};
use crate::error::StoreError;
use crate::extent_tree::{self, starts_decode};
use crate::extents::has_file;
use crate::fs::{data_root, ino_key, inode_fits, lemma_ino_key, listing, offsets_ok, Listing,
    Namespace, BTREE_ORDER};
use crate::index::ObjectProvider;
use crate::inode::InodeData;
use crate::io::IoBackend;
use crate::namespace::strained;
use crate::paths::{countable, listable, numbers, parent_is};
use crate::sorted::lemma_lookup_contains;
use crate::store::Store;
use crate::transaction::Tx;
use crate::tree::lists;

verus! {

// ---------------------------------------------------------------------------
// Logical bytes
// ---------------------------------------------------------------------------

pub open spec fn capped_sum(a: u64, b: u64) -> u64 {
    if a + b > u64::MAX {
        u64::MAX
    } else {
        (a + b) as u64
    }
}

/// The logical length that descriptor bytes stand for; zero where they do not decode.
pub open spec fn described_len<F: Fn(&[u8]) -> Option<Descriptor>>(f: F, bytes: Seq<u8>) -> u64 {
    match decoded(f, bytes) {
        Some(d) => d.len,
        None => 0,
    }
}

/// The logical bytes of a file's extents, on top of `start`.
pub open spec fn extents_len<F: Fn(&[u8]) -> Option<Descriptor>>(
    f: F,
    s: Listing,
    start: u64,
) -> u64
    decreases s.len(),
{
    if s.len() == 0 {
        start
    } else {
        capped_sum(extents_len(f, s.drop_last(), start), described_len(f, s.last().1))
    }
}

/// The logical bytes of the files among the numbers.
pub open spec fn files_len<F: Fn(&[u8]) -> Option<Descriptor>>(
    f: F,
    n: Namespace,
    v: Seq<u64>,
) -> u64
    decreases v.len(),
{
    if v.len() == 0 {
        0
    } else {
        let before = files_len(f, n, v.drop_last());
        if has_file(n, v.last()) {
            extents_len(f, n[v.last()].entries, before)
        } else {
            before
        }
    }
}

fn add_extents<F: Fn(&[u8]) -> Option<Descriptor>>(
    f: &F,
    extents: &Vec<(u64, Vec<u8>)>,
    start: u64,
    Ghost(s): Ghost<Listing>,
) -> (r: u64)
    requires
        steady(*f),
    ensures
        starts_decode(s, extents@) ==> r == extents_len(*f, s, start),
{
    let mut total: u64 = start;
    let mut i: usize = 0;
    assert(s.take(0) =~= Seq::empty());
    while i < extents.len()
        invariant
            i <= extents@.len(),
            steady(*f),
            starts_decode(s, extents@) ==> total == extents_len(*f, s.take(i as int), start),
        decreases extents@.len() - i,
    {
        let len: u64 = match decode_with(f, &extents[i].1) {
            Some(d) => d.len,
            None => 0,
        };
        proof {
            if starts_decode(s, extents@) {
                let t = s.take(i + 1);
                assert(t.drop_last() =~= s.take(i as int));
                assert(t.last() == s[i as int]);
            }
        }
        total = if len > u64::MAX - total {
            u64::MAX
        } else {
            total + len
        };
        i += 1;
    }
    proof {
        if starts_decode(s, extents@) {
            assert(s.take(i as int) =~= s);
        }
    }
    total
}

impl<B: IoBackend> Store<B> {
    /// The logical bytes of all files: what their extents stand for, capped.
    #[verifier::rlimit(40)]
    pub fn logical_bytes_in_tx<F: Fn(&[u8]) -> Option<Descriptor>>(tx: &Tx<'_, B>, decode: &F) -> (r:
        Result<u64, StoreError>)
        requires
            steady(*decode),
        ensures
            forall|h: nat| #[trigger]
                tx.reads(h) && countable(*tx) && listable(tx.ns()) ==> match r {
                    Ok(n) => exists|v: Seq<u64>| #[trigger]
                        numbers(v, tx.ns()) && n == files_len(*decode, tx.ns(), v),
                    Err(_) => strained(*tx, h),
                },
    {
        let inos = match Self::all_inodes_in_tx(tx) {
            Ok(v) => v,
            Err(e) => return Err(e),
        };
        let mut total: u64 = 0;
        let mut i: usize = 0;
        assert(inos@.take(0) =~= Seq::empty());
        while i < inos.len()
            invariant
                i <= inos@.len(),
                steady(*decode),
                forall|h: nat| #[trigger]
                    tx.reads(h) && countable(*tx) && listable(tx.ns()) ==> numbers(
                        inos@,
                        tx.ns(),
                    ) && total == files_len(*decode, tx.ns(), inos@.take(i as int)),
            decreases inos@.len() - i,
        {
            let ghost t = inos@.take(i + 1);
            proof {
                assert(t.drop_last() =~= inos@.take(i as int));
                assert(t.last() == inos@[i as int]);
                assert(inos@.contains(inos@[i as int]));
            }
            total = match Self::file_bytes_in_tx(tx, inos[i], total, decode) {
                Ok(n) => n,
                Err(e) => return Err(e),
            };
            i += 1;
        }
        assert(inos@.take(i as int) =~= inos@);
        Ok(total)
    }

    /// The logical bytes of a file on top of `start`; nothing for what is no file.
    fn file_bytes_in_tx<F: Fn(&[u8]) -> Option<Descriptor>>(
        tx: &Tx<'_, B>,
        ino: u64,
        start: u64,
        decode: &F,
    ) -> (r: Result<u64, StoreError>)
        requires
            steady(*decode),
        ensures
            forall|h: nat| #[trigger]
                tx.reads(h) && tx.ns().contains_key(ino) && tx.ns()[ino].entries.len()
                    <= usize::MAX ==> match r {
                    Ok(n) => n == if has_file(tx.ns(), ino) {
                        extents_len(*decode, tx.ns()[ino].entries, start)
                    } else {
                        start
                    },
                    Err(_) => strained(*tx, h),
                },
    {
        let inode = match Self::inode_for_tx(tx, ino) {
            Ok(v) => v,
            Err(e) => return Err(e),
        };
        let extent_root = match &inode.data {
            InodeData::File { extent_root } => *extent_root,
            _ => return Ok(start),
        };
        let ghost s = listing(tx.objects.payloads(), extent_root@, tx.max_fanout);
        proof {
            assert forall|h: nat| #[trigger] tx.reads(h) implies ({
                &&& tx.ns()[ino].entries == s
                &&& offsets_ok(s)
                &&& lists(tx.objects.payloads(), extent_root@, BTREE_ORDER, tx.max_fanout, h, s)
            }) by {
                assert(inode_fits(tx.objects.payloads(), inode@, tx.max_fanout, h));
                assert(data_root(inode@.data) == extent_root@);
            }
        }
        match extent_tree::scan_all(extent_root, BTREE_ORDER, tx.max_fanout, &tx.objects) {
            Ok(extents) => Ok(add_extents(decode, &extents, start, Ghost(s))),
            Err(e) => Err(StoreError::index(e)),
        }
    }
}

// ---------------------------------------------------------------------------
// The parent of a pending inode
// ---------------------------------------------------------------------------

/// The epoch binds the inode in this directory.
pub open spec fn binds(o: Overlay, d: u64, ino: u64) -> bool {
    exists|name: Seq<u8>| o.names.contains_key((d, name)) && (#[trigger] o.names[(d, name)]).ino == ino
}

/// The first directory by number in which the epoch binds the inode.
pub open spec fn first_binding(o: Overlay, d: u64, ino: u64) -> bool {
    binds(o, d, ino) && forall|e: u64| #[trigger] binds(o, e, ino) ==> d <= e
}

/// Of two sequences of one length the lesser stays the lesser, whatever follows.
proof fn lemma_lex_front(x: Seq<u8>, y: Seq<u8>, p: Seq<u8>, q: Seq<u8>)
    requires
        x.len() == y.len(),
        lex_lt(x, y),
    ensures
        lex_lt(x + p, y + q),
    decreases x.len(),
{
    if x.len() > 0 {
        assert((x + p)[0] == x[0] && (y + q)[0] == y[0]);
        assert((x + p).drop_first() =~= x.drop_first() + p);
        assert((y + q).drop_first() =~= y.drop_first() + q);
        if x[0] == y[0] {
            lemma_lex_front(x.drop_first(), y.drop_first(), p, q);
        }
    }
}

/// The first directory in which the epoch binds the inode.
fn bound_in(ep: &Epoch, ino: u64) -> (r: Option<u64>)
    requires
        ep.wf(),
    ensures
        match r {
            Some(d) => first_binding(ep@, d, ino),
            None => forall|d: u64| !#[trigger] binds(ep@, d, ino),
        },
{
    let ghost s = ep.pending_entries@;
    let mut i: usize = 0;
    while i < ep.pending_entries.len()
        invariant
            i <= s.len(),
            s == ep.pending_entries@,
            ep.wf(),
            forall|j: int| 0 <= j < i ==> (#[trigger] s[j]).1.ino != ino,
        decreases s.len() - i,
    {
        if ep.pending_entries.value_at(i).ino == ino {
            let key = ep.pending_entries.key_at(i);
            let mut head: Vec<u8> = Vec::new();
            let mut k: usize = 0;
            while k < 8
                invariant
                    k <= 8,
                    key@.len() >= 8,
                    head@ == key@.take(k as int),
                decreases 8 - k,
            {
                head.push(key[k]);
                assert(head@ =~= key@.take(k + 1));
                k += 1;
            }
            let d: u64 = be_u64(&head);
            proof {
                let e = s[i as int].1;
                let name = key@.skip(8);
                assert(slot_key(d, name) =~= key@);
                lemma_lookup_contains(s, key@, e);
                assert(s.contains((key@, e))) by {
                    assert(s[i as int] == (key@, e));
                }
                assert(ep@.names.contains_key((d, name)));
                assert(ep@.names[(d, name)].ino == ino);
                assert(binds(ep@, d, ino));
                assert forall|e: u64| #[trigger] binds(ep@, e, ino) implies d <= e by {
                    let other = choose|other: Seq<u8>|
                        ep@.names.contains_key((e, other)) && (#[trigger] ep@.names[(e, other)]).ino
                            == ino;
                    let v = ep@.names[(e, other)];
                    lemma_lookup_contains(s, slot_key(e, other), v);
                    let j = choose|j: int| 0 <= j < s.len() && s[j] == (slot_key(e, other), v);
                    assert(s[j].1.ino == ino);
                    assert(i <= j);
                    if e < d {
                        lemma_ino_key(e, d);
                        lemma_ino_key(d, e);
                        lemma_lex_front(ino_key(e), ino_key(d), other, name);
                        assert(lex_lt(s[j].0, s[i as int].0));
                        lemma_lex_order();
                        if i < j {
                            assert(lex_lt(s[i as int].0, s[j].0));
                        }
                        assert(false);
                    }
                }
            }
            return Some(d);
        }
        i += 1;
    }
    proof {
        assert forall|d: u64| !#[trigger] binds(ep@, d, ino) by {
            if binds(ep@, d, ino) {
                let name = choose|name: Seq<u8>|
                    ep@.names.contains_key((d, name)) && (#[trigger] ep@.names[(d, name)]).ino == ino;
                let e = ep@.names[(d, name)];
                lemma_lookup_contains(s, slot_key(d, name), e);
                let j = choose|j: int| 0 <= j < s.len() && s[j] == (slot_key(d, name), e);
                assert(s[j].1.ino == ino);
            }
        }
    }
    None
}

impl<B: IoBackend> Store<B> {
    /// The directory that holds an inode: the first in which the epoch binds it, else the
    /// committed one.
    pub fn parent_of_epoch(ep: &Epoch, tx: &Tx<'_, B>, ino: u64) -> (r: Result<u64, StoreError>)
        requires
            ep.wf(),
        ensures
            ino == tx.root.root_dir_ino ==> r == Ok::<u64, StoreError>(ino),
            ino != tx.root.root_dir_ino && (exists|d: u64| #[trigger] binds(ep@, d, ino)) ==> (
            r matches Ok(d) && first_binding(ep@, d, ino)),
            forall|h: nat| #[trigger]
                tx.reads(h) && BTREE_ORDER <= tx.max_fanout && countable(*tx) && listable(tx.ns())
                    && (forall|d: u64| !#[trigger] binds(ep@, d, ino)) ==> match r {
                    Ok(d) => parent_is(tx.ns(), tx.root.root_dir_ino, ino, d),
                    Err(_) => strained(*tx, h),
                },
    {
        if ino == tx.root.root_dir_ino {
            return Ok(ino);
        }
        match bound_in(ep, ino) {
            Some(d) => Ok(d),
            None => Self::parent_of_in_tx(tx, ino),
        }
    }
}

} // verus!
