//! Reads through the overlay: committed extents, and the pending ones over them.

use vstd::prelude::*;

use crate::bytes::{be_u64, bytes_equal, copy_bytes, lemma_lex_order, u64_be};
use crate::chunk::ChunkId;
use crate::compose::{find_chunk, held_chunk, lemma_held};
use crate::descriptor::{decode_with, decoded, steady, Descriptor};
use crate::epoch::{lemma_at, lemma_slot_key, shown, shown_inode, slot_key, Epoch};
use crate::error::StoreError;
use crate::extent_tree::{self, extent_key_of, extent_key_order, some_bad_key, starts_decode};
use crate::extents::has_file;
use crate::fs::{ino_key, lemma_listing, lemma_ns_at, offsets_ok, Listing, Namespace, BTREE_ORDER};
use crate::index::{first_of, in_range, range_of, trusty, ObjectProvider};
use crate::inode::InodeData;
use crate::io::IoBackend;
use crate::namespace::{read_inode, strained};
use crate::read_plan::{lemma_scan, scan_extents_batched, scan_from, ReadPlan};
use crate::sorted::{lemma_lookup_contains, lookup, sorted};
use crate::store::Store;
use crate::transaction::Tx;
use crate::tree::{lists, max_height};
use crate::window::{clip_read, Extent};

verus! {

/// The pending extent of a file at an offset of the window.
pub open spec fn pending_at(ep: Epoch, ino: u64, lo: u64, hi: int, x: u64) -> Option<Seq<u8>> {
    if lo <= x < hi && ep@.extents.contains_key((ino, extent_key_of(x))) {
        Some(ep@.extents[(ino, extent_key_of(x))])
    } else {
        None
    }
}

/// The same, among the first of the pending extents.
spec fn pending_part(
    t: Seq<(Seq<u8>, Vec<u8>)>,
    ino: u64,
    lo: u64,
    hi: int,
    x: u64,
) -> Option<Seq<u8>>
    decreases t.len(),
{
    if t.len() == 0 {
        None
    } else if lo <= x < hi && t.last().0 == slot_key(ino, extent_key_of(x)) {
        Some(t.last().1@)
    } else {
        pending_part(t.drop_last(), ino, lo, hi, x)
    }
}

proof fn lemma_part(t: Seq<(Seq<u8>, Vec<u8>)>, ino: u64, lo: u64, hi: int, x: u64)
    ensures
        match pending_part(t, ino, lo, hi, x) {
            Some(b) => lo <= x < hi && exists|j: int|
                0 <= j < t.len() && (#[trigger] t[j]).0 == slot_key(ino, extent_key_of(x)) && t[j].1@
                    == b,
            None => lo <= x < hi ==> forall|j: int|
                0 <= j < t.len() ==> (#[trigger] t[j]).0 != slot_key(ino, extent_key_of(x)),
        },
    decreases t.len(),
{
    if t.len() > 0 {
        let d = t.drop_last();
        let n = t.len() - 1;
        assert(t[n] == t.last());
        lemma_part(d, ino, lo, hi, x);
        match pending_part(d, ino, lo, hi, x) {
            Some(b) => {
                let j = choose|j: int|
                    0 <= j < d.len() && (#[trigger] d[j]).0 == slot_key(ino, extent_key_of(x))
                        && d[j].1@ == b;
                assert(t[j] == d[j]);
            },
            None => {
                assert forall|j: int| 0 <= j < n implies (#[trigger] t[j]) == d[j] by {}
            },
        }
    }
}

proof fn lemma_all(ep: Epoch, ino: u64, lo: u64, hi: int, x: u64)
    requires
        ep.wf(),
    ensures
        pending_part(ep.pending_extents@, ino, lo, hi, x) == pending_at(ep, ino, lo, hi, x),
{
    let s = ep.pending_extents@;
    let k = slot_key(ino, extent_key_of(x));
    lemma_part(s, ino, lo, hi, x);
    match pending_part(s, ino, lo, hi, x) {
        Some(b) => {
            let j = choose|j: int| 0 <= j < s.len() && (#[trigger] s[j]).0 == k && s[j].1@ == b;
            lemma_at(s, j);
        },
        None => {
            if lo <= x < hi && lookup(s, k) is Some {
                let v = lookup(s, k)->0;
                lemma_lookup_contains(s, k, v);
                let j = choose|j: int| 0 <= j < s.len() && s[j] == (k, v);
                assert(s[j].0 == k);
            }
        },
    }
}

/// The offset that a pending extent's key stands for, where it is one of the file.
fn offset_of(key: &Vec<u8>, ino: u64) -> (r: Option<u64>)
    ensures
        match r {
            Some(x) => key@ == slot_key(ino, extent_key_of(x)),
            None => forall|x: u64| key@ != #[trigger] slot_key(ino, extent_key_of(x)),
        },
{
    proof {
        assert forall|x: u64| (#[trigger] slot_key(ino, extent_key_of(x))).len() == 16 by {
            crate::fs::lemma_ino_key(ino, ino);
            extent_key_order(x, x);
            crate::fs::lemma_ino_key(x, x);
        }
    }
    if key.len() != 16 {
        return None;
    }
    let own = u64_be(ino);
    let mut head: Vec<u8> = Vec::new();
    let mut tail: Vec<u8> = Vec::new();
    let mut k: usize = 0;
    while k < 8
        invariant
            k <= 8,
            key@.len() == 16,
            head@ == key@.take(k as int),
            tail@ == key@.subrange(8, 8 + k),
        decreases 8 - k,
    {
        head.push(key[k]);
        tail.push(key[8 + k]);
        assert(head@ =~= key@.take(k + 1));
        assert(tail@ =~= key@.subrange(8, 8 + (k + 1)));
        k += 1;
    }
    assert(key@ =~= head@ + tail@);
    if !bytes_equal(&head, &own) {
        proof {
            assert forall|x: u64| key@ != #[trigger] slot_key(ino, extent_key_of(x)) by {
                let y = slot_key(ino, extent_key_of(x));
                if key@ == y {
                    assert(y.take(8) =~= ino_key(ino));
                    assert(head@ =~= key@.take(8));
                }
            }
        }
        return None;
    }
    let x: u64 = be_u64(&tail);
    assert(key@ =~= slot_key(ino, extent_key_of(x)));
    Some(x)
}

/// The pending extents of a file in a window.
pub fn pending_in(ep: &Epoch, ino: u64, lo: u64, hi: u64) -> (r: Vec<Extent>)
    requires
        ep.wf(),
    ensures
        forall|x: u64| #[trigger] held_chunk(r@, x) == pending_at(*ep, ino, lo, hi as int, x),
{
    let ghost s = ep.pending_extents@;
    let mut out: Vec<Extent> = Vec::new();
    let mut i: usize = 0;
    assert(s.take(0) =~= Seq::empty());
    while i < ep.pending_extents.len()
        invariant
            i <= s.len(),
            s == ep.pending_extents@,
            forall|x: u64| #[trigger]
                held_chunk(out@, x) == pending_part(s.take(i as int), ino, lo, hi as int, x),
        decreases s.len() - i,
    {
        let ghost had = out@;
        let ghost t = s.take(i + 1);
        proof {
            assert(t.drop_last() =~= s.take(i as int));
            assert(t.last() == s[i as int]);
        }
        match offset_of(ep.pending_extents.key_at(i), ino) {
            Some(x) => {
                if lo <= x && x < hi {
                    let b = copy_bytes(ep.pending_extents.value_at(i));
                    out.push((x, b));
                    proof {
                        assert(out@.drop_last() =~= had);
                    }
                }
                proof {
                    assert forall|y: u64| #[trigger] held_chunk(out@, y) == pending_part(
                        t,
                        ino,
                        lo,
                        hi as int,
                        y,
                    ) by {
                        lemma_slot_key(ino, extent_key_of(x), ino, extent_key_of(y));
                        extent_key_order(x, y);
                        assert(held_chunk(had, y) == pending_part(
                            s.take(i as int),
                            ino,
                            lo,
                            hi as int,
                            y,
                        ));
                    }
                }
            },
            None => {
                proof {
                    assert forall|y: u64| #[trigger] held_chunk(out@, y) == pending_part(
                        t,
                        ino,
                        lo,
                        hi as int,
                        y,
                    ) by {
                        assert(t.last().0 != slot_key(ino, extent_key_of(y)));
                    }
                }
            },
        }
        i += 1;
    }
    proof {
        assert(s.take(i as int) =~= s);
        assert forall|x: u64| #[trigger] held_chunk(out@, x) == pending_at(
            *ep,
            ino,
            lo,
            hi as int,
            x,
        ) by {
            lemma_all(*ep, ino, lo, hi as int, x);
        }
    }
    out
}

proof fn lemma_held_concat(a: Seq<Extent>, b: Seq<Extent>, x: u64)
    ensures
        held_chunk(a + b, x) == match held_chunk(b, x) {
            Some(v) => Some(v),
            None => held_chunk(a, x),
        },
    decreases b.len(),
{
    if b.len() == 0 {
        assert(a + b =~= a);
    } else {
        assert((a + b).drop_last() =~= a + b.drop_last());
        assert((a + b).last() == b.last());
        lemma_held_concat(a, b.drop_last(), x);
    }
}

/// Put pending extents over committed ones: at each offset the pending one, where
/// there is one.
pub fn merge_pending(committed: Vec<Extent>, pending: Vec<Extent>) -> (r: Vec<Extent>)
    ensures
        forall|x: u64| #[trigger]
            held_chunk(r@, x) == match held_chunk(pending@, x) {
                Some(b) => Some(b),
                None => held_chunk(committed@, x),
            },
{
    let mut out: Vec<Extent> = Vec::new();
    let mut i: usize = 0;
    let ghost c = committed@;
    assert(c.take(0) =~= Seq::empty());
    while i < committed.len()
        invariant
            i <= c.len(),
            c == committed@,
            forall|x: u64| #[trigger]
                held_chunk(out@, x) == if held_chunk(pending@, x) is Some {
                    None
                } else {
                    held_chunk(c.take(i as int), x)
                },
        decreases c.len() - i,
    {
        let ghost had = out@;
        let ghost t = c.take(i + 1);
        proof {
            assert(t.drop_last() =~= c.take(i as int));
            assert(t.last() == c[i as int]);
        }
        let x: u64 = committed[i].0;
        if find_chunk(&pending, x).is_none() {
            let b = copy_bytes(&committed[i].1);
            out.push((x, b));
            assert(out@.drop_last() =~= had);
        }
        proof {
            assert forall|y: u64| #[trigger] held_chunk(out@, y) == if held_chunk(
                pending@,
                y,
            ) is Some {
                None
            } else {
                held_chunk(t, y)
            } by {
                assert(held_chunk(had, y) == if held_chunk(pending@, y) is Some {
                    None
                } else {
                    held_chunk(c.take(i as int), y)
                });
            }
        }
        i += 1;
    }
    assert(c.take(i as int) =~= c);
    let ghost kept = out@;
    let mut rest = pending;
    out.append(&mut rest);
    proof {
        assert forall|x: u64| #[trigger] held_chunk(out@, x) == match held_chunk(pending@, x) {
            Some(b) => Some(b),
            None => held_chunk(committed@, x),
        } by {
            lemma_held_concat(kept, pending@, x);
            assert(held_chunk(kept, x) == if held_chunk(pending@, x) is Some {
                None
            } else {
                held_chunk(c, x)
            });
        }
    }
    out
}

/// Where the window of a read starts once a pending extent that covers its offset is
/// counted in.
pub open spec fn pulled_back<F: Fn(&[u8]) -> Option<Descriptor>>(
    f: F,
    ep: Epoch,
    ino: u64,
    offset: u64,
    from: u64,
) -> u64 {
    if exists|p: u64| #[trigger] covers_offset(f, ep, ino, offset, p) {
        let p = choose|p: u64| #[trigger] covers_offset(f, ep, ino, offset, p);
        if p < from {
            p
        } else {
            from
        }
    } else {
        from
    }
}

/// The last pending extent at or below the offset starts at `p` and covers it.
pub open spec fn covers_offset<F: Fn(&[u8]) -> Option<Descriptor>>(
    f: F,
    ep: Epoch,
    ino: u64,
    offset: u64,
    p: u64,
) -> bool {
    &&& last_pending(ep, ino, offset, p)
    &&& decoded(f, pending_at(ep, ino, 0, offset + 1, p)->0) matches Some(d) && p + d.len > offset
}

/// The last pending extent at or below the offset starts at `p`.
pub open spec fn last_pending(ep: Epoch, ino: u64, offset: u64, p: u64) -> bool {
    &&& pending_at(ep, ino, 0, offset + 1, p) is Some
    &&& forall|q: u64| p < q && q <= offset ==> #[trigger] pending_at(ep, ino, 0, offset + 1, q) is None
}

proof fn lemma_range_member(
    s: Seq<(Seq<u8>, Seq<u8>)>,
    a: Option<Seq<u8>>,
    b: Option<Seq<u8>>,
    e: (Seq<u8>, Seq<u8>),
)
    ensures
        range_of(s, a, b).contains(e) <==> s.contains(e) && in_range(a, b, e.0),
    decreases s.len(),
{
    if s.len() > 0 {
        let d = s.drop_last();
        let rest = range_of(d, a, b);
        let all = range_of(s, a, b);
        let n = s.len() - 1;
        lemma_range_member(d, a, b, e);
        assert(s =~= d.push(s.last()));
        if s.contains(e) && in_range(a, b, e.0) {
            let i = choose|i: int| 0 <= i < s.len() && s[i] == e;
            if i < n {
                assert(d[i] == e);
                let j = choose|j: int| 0 <= j < rest.len() && rest[j] == e;
                assert(all[j] == e);
            } else {
                assert(all[all.len() - 1] == e);
            }
        }
        if all.contains(e) {
            let j = choose|j: int| 0 <= j < all.len() && all[j] == e;
            if j < rest.len() {
                assert(rest[j] == e);
                let i = choose|i: int| 0 <= i < d.len() && d[i] == e;
                assert(s[i] == e);
            } else {
                assert(s[n] == e);
            }
        }
    }
}

/// A scan of a tree of offsets holds at each offset of the range what the tree maps it
/// to.
proof fn lemma_scanned(s: Listing, from: u64, end: u64, v: Seq<Extent>, x: u64)
    requires
        sorted(s),
        starts_decode(range_of(s, Some(extent_key_of(from)), Some(extent_key_of(end))), v),
    ensures
        held_chunk(v, x) == if from <= x < end {
            lookup(s, extent_key_of(x))
        } else {
            None
        },
{
    let a = Some(extent_key_of(from));
    let b = Some(extent_key_of(end));
    let part = range_of(s, a, b);
    let k = extent_key_of(x);
    lemma_held(v, x);
    lemma_lex_order();
    extent_key_order(x, from);
    extent_key_order(from, x);
    extent_key_order(x, end);
    assert(in_range(a, b, k) == (from <= x < end));
    match held_chunk(v, x) {
        Some(bytes) => {
            let j = choose|j: int| 0 <= j < v.len() && (#[trigger] v[j]).0 == x && v[j].1@ == bytes;
            assert(part[j] == (k, bytes));
            assert(part.contains((k, bytes)));
            lemma_range_member(s, a, b, (k, bytes));
            lemma_lookup_contains(s, k, bytes);
        },
        None => {
            if from <= x < end && lookup(s, k) is Some {
                let bytes = lookup(s, k)->0;
                lemma_lookup_contains(s, k, bytes);
                lemma_range_member(s, a, b, (k, bytes));
                let j = choose|j: int| 0 <= j < part.len() && part[j] == (k, bytes);
                extent_key_order(v[j].0, x);
                assert(v[j].0 == x);
            }
        },
    }
}

/// The last pending extent of a file at or below an offset.
fn last_pending_of(ep: &Epoch, ino: u64, offset: u64) -> (r: Option<Extent>)
    requires
        ep.wf(),
    ensures
        match r {
            Some(e) => last_pending(*ep, ino, offset, e.0) && pending_at(
                *ep,
                ino,
                0,
                offset + 1,
                e.0,
            ) == Some(e.1@),
            None => forall|p: u64| !#[trigger] last_pending(*ep, ino, offset, p),
        },
{
    match ep.overlay_extent(ino, offset) {
        Some(b) => {
            return Some((offset, b));
        },
        None => {},
    }
    let v = pending_in(ep, ino, 0, offset);
    proof {
        assert forall|q: u64| q <= offset implies #[trigger] pending_at(*ep, ino, 0, offset + 1, q)
            == held_chunk(v@, q) by {
            assert(held_chunk(v@, q) == pending_at(*ep, ino, 0, offset as int, q));
        }
    }
    if v.len() == 0 {
        proof {
            assert forall|p: u64| !#[trigger] last_pending(*ep, ino, offset, p) by {
                assert(held_chunk(v@, p) is None);
                assert(held_chunk(v@, p) == pending_at(*ep, ino, 0, offset as int, p));
            }
        }
        return None;
    }
    let mut best: u64 = v[0].0;
    let mut i: usize = 1;
    while i < v.len()
        invariant
            1 <= i <= v@.len(),
            exists|j: int| 0 <= j < v@.len() && (#[trigger] v@[j]).0 == best,
            forall|j: int| 0 <= j < i ==> (#[trigger] v@[j]).0 <= best,
        decreases v@.len() - i,
    {
        if v[i].0 > best {
            best = v[i].0;
        }
        i += 1;
    }
    proof {
        lemma_held(v@, best);
    }
    match find_chunk(&v, best) {
        Some(at) => {
            let b = copy_bytes(&v[at].1);
            proof {
                assert(held_chunk(v@, best) == pending_at(*ep, ino, 0, offset as int, best));
                assert forall|q: u64| best < q && q <= offset implies #[trigger] pending_at(
                    *ep,
                    ino,
                    0,
                    offset + 1,
                    q,
                ) is None by {
                    lemma_held(v@, q);
                }
            }
            Some((best, b))
        },
        None => None,
    }
}

/// Where the window of a read starts: pulled back to a pending extent that covers the
/// offset.
fn window_start<F: Fn(&[u8]) -> Option<Descriptor>>(
    ep: &Epoch,
    ino: u64,
    offset: u64,
    from: u64,
    decode: &F,
) -> (r: u64)
    requires
        ep.wf(),
        steady(*decode),
    ensures
        r == pulled_back(*decode, *ep, ino, offset, from),
{
    match last_pending_of(ep, ino, offset) {
        Some(e) => {
            let covers = match decode_with(decode, &e.1) {
                Some(d) => d.len > offset - e.0,
                None => false,
            };
            proof {
                assert forall|p: u64| #[trigger] covers_offset(*decode, *ep, ino, offset, p) implies p
                    == e.0 by {
                    if p < e.0 {
                        assert(pending_at(*ep, ino, 0, offset + 1, e.0) is None);
                    } else if p > e.0 {
                        assert(pending_at(*ep, ino, 0, offset + 1, p) is None);
                    }
                }
                if covers {
                    assert(covers_offset(*decode, *ep, ino, offset, e.0));
                }
            }
            if covers && e.0 < from {
                e.0
            } else {
                from
            }
        },
        None => {
            proof {
                assert forall|p: u64| !#[trigger] covers_offset(*decode, *ep, ino, offset, p) by {
                    assert(!last_pending(*ep, ino, offset, p));
                }
            }
            from
        },
    }
}

/// The committed extents of a file, where the committed inode is one.
pub open spec fn base_extents(n: Namespace, ino: u64) -> Listing {
    if has_file(n, ino) {
        n[ino].entries
    } else {
        Seq::empty()
    }
}

/// The plan of a read through the overlay: at each offset of the window the pending
/// extent, else the committed one.
pub open spec fn plan_over<F: Fn(&[u8]) -> Option<Descriptor>>(
    f: F,
    s: Listing,
    ep: Epoch,
    ino: u64,
    plan: ReadPlan,
    offset: u64,
    len: u64,
    size: u64,
) -> bool {
    &&& plan.offset == offset
    &&& plan.end == if offset + len < size {
        offset + len
    } else {
        size as int
    }
    &&& exists|from: u64| #[trigger]
        scan_from(s, offset, from) && plan.from == pulled_back(f, ep, ino, offset, from)
    &&& forall|x: u64| #[trigger]
        held_chunk(plan.extents@, x) == match pending_at(ep, ino, plan.from, plan.end as int, x) {
            Some(b) => Some(b),
            None => if plan.from <= x < plan.end {
                lookup(s, extent_key_of(x))
            } else {
                None
            },
        }
}

/// The extents of a read through the overlay, of a committed tree of offsets.
fn extents_over<P: ObjectProvider, F: Fn(&[u8]) -> Option<Descriptor>>(
    ep: &Epoch,
    ino: u64,
    extent_root: ChunkId,
    window: (u64, u64),
    max_fanout: u32,
    provider: &P,
    decode: &F,
) -> (r: Result<ReadPlan, StoreError>)
    requires
        ep.wf(),
        steady(*decode),
    ensures
        forall|h: nat, s: Listing|
            trusty(provider) && s.len() <= usize::MAX && offsets_ok(s) && #[trigger] lists(
                provider.payloads(),
                extent_root@,
                BTREE_ORDER,
                max_fanout,
                h,
                s,
            ) ==> match r {
                Ok(plan) => {
                    &&& plan.offset == window.0
                    &&& plan.end == window.1
                    &&& exists|from: u64| #[trigger]
                        scan_from(s, window.0, from) && plan.from == pulled_back(
                            *decode,
                            *ep,
                            ino,
                            window.0,
                            from,
                        )
                    &&& forall|x: u64| #[trigger]
                        held_chunk(plan.extents@, x) == match pending_at(
                            *ep,
                            ino,
                            plan.from,
                            plan.end as int,
                            x,
                        ) {
                            Some(b) => Some(b),
                            None => if plan.from <= x < plan.end {
                                lookup(s, extent_key_of(x))
                            } else {
                                None
                            },
                        }
                },
                Err(_) => provider.may_fail() || h > max_height(),
            },
{
    let (offset, end) = window;
    let base = match scan_extents_batched(extent_root, offset, end, max_fanout, provider) {
        Ok((from, _)) => from,
        Err(e) => return Err(e),
    };
    let from: u64 = window_start(ep, ino, offset, base, decode);
    proof {
        assert forall|h: nat, s: Listing|
            trusty(provider) && s.len() <= usize::MAX && offsets_ok(s) && #[trigger] lists(
                provider.payloads(),
                extent_root@,
                BTREE_ORDER,
                max_fanout,
                h,
                s,
            ) implies ({
            let part = range_of(s, Some(extent_key_of(from)), Some(extent_key_of(end)));
            &&& first_of(part, usize::MAX as nat) == part
            &&& !some_bad_key(part)
            &&& sorted(s)
        }) by {
            lemma_listing(provider.payloads(), extent_root@, max_fanout, h, s);
            lemma_scan(s, from, end);
        }
    }
    let committed = match extent_tree::scan_range(
        extent_root,
        from,
        end,
        usize::MAX,
        BTREE_ORDER,
        max_fanout,
        provider,
    ) {
        Ok(scan) => scan.0,
        Err(e) => return Err(StoreError::index(e)),
    };
    let ghost c = committed@;
    let pending = pending_in(ep, ino, from, end);
    let ghost q = pending@;
    let extents = merge_pending(committed, pending);
    let plan = ReadPlan { extents, from, offset, end };
    proof {
        assert forall|h: nat, s: Listing|
            trusty(provider) && s.len() <= usize::MAX && offsets_ok(s) && #[trigger] lists(
                provider.payloads(),
                extent_root@,
                BTREE_ORDER,
                max_fanout,
                h,
                s,
            ) implies ({
            &&& scan_from(s, offset, base)
            &&& forall|x: u64| #[trigger]
                held_chunk(plan.extents@, x) == match pending_at(
                    *ep,
                    ino,
                    plan.from,
                    plan.end as int,
                    x,
                ) {
                    Some(b) => Some(b),
                    None => if plan.from <= x < plan.end {
                        lookup(s, extent_key_of(x))
                    } else {
                        None
                    },
                }
        }) by {
            assert forall|x: u64| #[trigger]
                held_chunk(plan.extents@, x) == match pending_at(
                    *ep,
                    ino,
                    plan.from,
                    plan.end as int,
                    x,
                ) {
                    Some(b) => Some(b),
                    None => if plan.from <= x < plan.end {
                        lookup(s, extent_key_of(x))
                    } else {
                        None
                    },
                } by {
                lemma_scanned(s, from, end, c, x);
                assert(held_chunk(q, x) == pending_at(*ep, ino, from, end as int, x));
            }
        }
    }
    Ok(plan)
}

impl<B: IoBackend> Store<B> {
    /// The extents that a read through the overlay needs. The size is that of the
    /// pending inode; the committed extents are those of the inode as it is committed
    /// now.
    #[verifier::rlimit(40)]
    pub fn read_file_epoch_prepare<F: Fn(&[u8]) -> Option<Descriptor>>(
        ep: &Epoch,
        tx: &Tx<'_, B>,
        ino: u64,
        offset: u64,
        len: u64,
        decode: &F,
    ) -> (r: Result<Option<ReadPlan>, StoreError>)
        requires
            ep.wf(),
            steady(*decode),
        ensures
            forall|h: nat| #[trigger]
                tx.reads(h) && base_extents(tx.ns(), ino).len() <= usize::MAX ==> match r {
                    Ok(None) => {
                        &&& shown(tx.ns(), ep@, ino)
                        &&& shown_inode(tx.ns(), ep@, ino).data is File
                        &&& len == 0 || offset >= shown_inode(tx.ns(), ep@, ino).size
                    },
                    Ok(Some(plan)) => {
                        &&& shown(tx.ns(), ep@, ino)
                        &&& shown_inode(tx.ns(), ep@, ino).data is File
                        &&& len > 0
                        &&& offset < shown_inode(tx.ns(), ep@, ino).size
                        &&& plan_over(
                            *decode,
                            base_extents(tx.ns(), ino),
                            *ep,
                            ino,
                            plan,
                            offset,
                            len,
                            shown_inode(tx.ns(), ep@, ino).size,
                        )
                    },
                    Err(_) => strained(*tx, h) || !shown(tx.ns(), ep@, ino) || !(shown_inode(
                        tx.ns(),
                        ep@,
                        ino,
                    ).data is File),
                },
    {
        let inode = match Self::get_inode_epoch(ep, tx, ino) {
            Ok(Some(v)) => v,
            Ok(None) => return Err(StoreError::Invariant("inode missing".to_string())),
            Err(e) => return Err(e),
        };
        match &inode.data {
            InodeData::File { .. } => {},
            _ => return Err(StoreError::Invariant("not a regular file".to_string())),
        }
        let (avail, end) = clip_read(inode.size, offset, len);
        if avail == 0 {
            return Ok(None);
        }
        let extent_root = match Self::base_root(tx, ino) {
            Ok(id) => id,
            Err(e) => return Err(e),
        };
        match extents_over(
            ep,
            ino,
            extent_root,
            (offset, end),
            tx.max_fanout,
            &tx.objects,
            decode,
        ) {
            Ok(plan) => Ok(Some(plan)),
            Err(e) => Err(e),
        }
    }

    /// The committed extent tree of a file; none where the committed inode is no file.
    fn base_root(tx: &Tx<'_, B>, ino: u64) -> (r: Result<ChunkId, StoreError>)
        ensures
            forall|h: nat| #[trigger]
                tx.reads(h) ==> match r {
                    Ok(id) => offsets_ok(base_extents(tx.ns(), ino)) && lists(
                        tx.objects.payloads(),
                        id@,
                        BTREE_ORDER,
                        tx.max_fanout,
                        h,
                        base_extents(tx.ns(), ino),
                    ),
                    Err(_) => strained(*tx, h),
                },
    {
        match read_inode(tx.root.inode_index_root, ino, tx.max_fanout, &tx.objects) {
            Ok(Some(v)) => {
                let id = match &v.data {
                    InodeData::File { extent_root } => *extent_root,
                    _ => ChunkId::zero(),
                };
                proof {
                    assert forall|h: nat| #[trigger] tx.reads(h) implies ({
                        &&& offsets_ok(base_extents(tx.ns(), ino))
                        &&& lists(
                            tx.objects.payloads(),
                            id@,
                            BTREE_ORDER,
                            tx.max_fanout,
                            h,
                            base_extents(tx.ns(), ino),
                        )
                    }) by {
                        lemma_ns_at(
                            tx.objects.payloads(),
                            tx.root.inode_index_root@,
                            tx.max_fanout,
                            h,
                            ino,
                        );
                    }
                }
                Ok(id)
            },
            Ok(None) => {
                proof {
                    assert forall|h: nat| #[trigger] tx.reads(h) implies base_extents(
                        tx.ns(),
                        ino,
                    ).len() == 0 by {
                        lemma_ns_at(
                            tx.objects.payloads(),
                            tx.root.inode_index_root@,
                            tx.max_fanout,
                            h,
                            ino,
                        );
                    }
                }
                Ok(ChunkId::zero())
            },
            Err(e) => Err(e),
        }
    }
}

} // verus!
