//! Sorted listings: sequences of key/value pairs in strictly increasing key
//! order, the mathematical contents of every tree and map of the store.

use vstd::prelude::*;

use crate::bytes::{lemma_lex_order, lex_lt};

verus! {

/// Keys strictly increase.
pub open spec fn sorted<V>(s: Seq<(Seq<u8>, V)>) -> bool {
    forall|i: int, j: int|
        #![trigger s[i], s[j]]
        0 <= i < j < s.len() ==> lex_lt(s[i].0, s[j].0)
}

/// A strictly increasing sequence of keys.
pub open spec fn increasing(keys: Seq<Seq<u8>>) -> bool {
    forall|i: int, j: int|
        #![trigger keys[i], keys[j]]
        0 <= i < j < keys.len() ==> lex_lt(keys[i], keys[j])
}

/// Every key of `s` is below `k`.
pub open spec fn all_lt<V>(s: Seq<(Seq<u8>, V)>, k: Seq<u8>) -> bool {
    forall|i: int| 0 <= i < s.len() ==> lex_lt((#[trigger] s[i]).0, k)
}

/// Every key of `s` is at or above `k`.
pub open spec fn all_ge<V>(s: Seq<(Seq<u8>, V)>, k: Seq<u8>) -> bool {
    forall|i: int| 0 <= i < s.len() ==> !lex_lt((#[trigger] s[i]).0, k)
}

/// Every key of `s` is above `k`.
pub open spec fn all_gt<V>(s: Seq<(Seq<u8>, V)>, k: Seq<u8>) -> bool {
    forall|i: int| 0 <= i < s.len() ==> lex_lt(k, (#[trigger] s[i]).0)
}

/// How many keys of the sorted listing are below `k`.
pub open spec fn rank<V>(s: Seq<(Seq<u8>, V)>, k: Seq<u8>) -> int
    decreases s.len(),
{
    if s.len() == 0 {
        0
    } else if lex_lt(s.last().0, k) {
        s.len() as int
    } else {
        rank(s.drop_last(), k)
    }
}

pub open spec fn has_key<V>(s: Seq<(Seq<u8>, V)>, k: Seq<u8>) -> bool {
    0 <= rank(s, k) < s.len() && s[rank(s, k)].0 == k
}

/// The value under `k`.
pub open spec fn lookup<V>(s: Seq<(Seq<u8>, V)>, k: Seq<u8>) -> Option<V> {
    if has_key(s, k) {
        Some(s[rank(s, k)].1)
    } else {
        None
    }
}

/// The listing with `k` bound to `v`.
pub open spec fn upsert<V>(s: Seq<(Seq<u8>, V)>, k: Seq<u8>, v: V) -> Seq<(Seq<u8>, V)> {
    if has_key(s, k) {
        s.update(rank(s, k), (k, v))
    } else {
        s.insert(rank(s, k), (k, v))
    }
}

/// The listing without `k`.
pub open spec fn erase<V>(s: Seq<(Seq<u8>, V)>, k: Seq<u8>) -> Seq<(Seq<u8>, V)> {
    if has_key(s, k) {
        s.remove(rank(s, k))
    } else {
        s
    }
}

/// The entry with the largest key below `k`.
pub open spec fn below<V>(s: Seq<(Seq<u8>, V)>, k: Seq<u8>) -> Option<(Seq<u8>, V)> {
    if rank(s, k) > 0 {
        Some(s[rank(s, k) - 1])
    } else {
        None
    }
}

/// The operations of `batch` applied in order: `Some` binds, `None` removes.
pub open spec fn apply_ops<V>(s: Seq<(Seq<u8>, V)>, batch: Seq<(Seq<u8>, Option<V>)>) -> Seq<
    (Seq<u8>, V),
>
    decreases batch.len(),
{
    if batch.len() == 0 {
        s
    } else {
        let t = apply_ops(s, batch.drop_last());
        match batch.last().1 {
            Some(v) => upsert(t, batch.last().0, v),
            None => erase(t, batch.last().0),
        }
    }
}

/// Every operation of `batch` already holds of `s`.
pub open spec fn already_holds<V>(
    s: Seq<(Seq<u8>, V)>,
    batch: Seq<(Seq<u8>, Option<V>)>,
) -> bool {
    forall|i: int| 0 <= i < batch.len() ==> lookup(s, (#[trigger] batch[i]).0) == batch[i].1
}

/// The concatenation of a sequence of listings.
pub open spec fn concat<T>(ss: Seq<Seq<T>>) -> Seq<T>
    decreases ss.len(),
{
    if ss.len() == 0 {
        Seq::empty()
    } else {
        concat(ss.drop_last()) + ss.last()
    }
}

// ---------------------------------------------------------------------------
// Rank
// ---------------------------------------------------------------------------

pub proof fn lemma_rank<V>(s: Seq<(Seq<u8>, V)>, k: Seq<u8>)
    requires
        sorted(s),
    ensures
        0 <= rank(s, k) <= s.len(),
        forall|i: int| 0 <= i < rank(s, k) ==> lex_lt((#[trigger] s[i]).0, k),
        forall|i: int| rank(s, k) <= i < s.len() ==> !lex_lt((#[trigger] s[i]).0, k),
        forall|i: int| 0 <= i < s.len() && (#[trigger] s[i]).0 == k ==> i == rank(s, k),
    decreases s.len(),
{
    lemma_lex_order();
    if s.len() > 0 {
        let p = s.drop_last();
        lemma_rank(p, k);
        if !lex_lt(s.last().0, k) {
            assert forall|i: int| 0 <= i < rank(s, k) implies lex_lt((#[trigger] s[i]).0, k) by {
                assert(p[i] == s[i]);
            }
            assert forall|i: int| rank(s, k) <= i < s.len() implies !lex_lt(
                (#[trigger] s[i]).0,
                k,
            ) by {
                if i < p.len() {
                    assert(p[i] == s[i]);
                }
            }
        }
        assert forall|i: int| 0 <= i < s.len() && (#[trigger] s[i]).0 == k implies i == rank(
            s,
            k,
        ) by {
            if i > rank(s, k) {
                assert(!lex_lt(s[rank(s, k)].0, k));
                assert(lex_lt(s[rank(s, k)].0, s[i].0));
            }
        }
    }
}

/// The rank is the one position with smaller keys before it and none behind.
pub proof fn lemma_rank_is<V>(s: Seq<(Seq<u8>, V)>, k: Seq<u8>, r: int)
    requires
        sorted(s),
        0 <= r <= s.len(),
        r > 0 ==> lex_lt(s[r - 1].0, k),
        r < s.len() ==> !lex_lt(s[r].0, k),
    ensures
        rank(s, k) == r,
{
    lemma_lex_order();
    lemma_rank(s, k);
    let q = rank(s, k);
    if q < r {
        assert(!lex_lt(s[q].0, k));
        if q < r - 1 {
            assert(lex_lt(s[q].0, s[r - 1].0));
        }
    } else if q > r {
        assert(lex_lt(s[r].0, k));
    }
}

/// Searching in a run of a listing is searching in the listing, where the
/// entries before the run are below the key and those behind it above.
pub proof fn lemma_rank_context<V>(
    a: Seq<(Seq<u8>, V)>,
    m: Seq<(Seq<u8>, V)>,
    c: Seq<(Seq<u8>, V)>,
    k: Seq<u8>,
)
    requires
        sorted(a + m + c),
        all_lt(a, k),
        all_gt(c, k),
    ensures
        sorted(a),
        sorted(m),
        sorted(c),
        rank(a + m + c, k) == a.len() + rank(m, k),
        has_key(a + m + c, k) == has_key(m, k),
        lookup(a + m + c, k) == lookup(m, k),
{
    lemma_lex_order();
    let s = a + m + c;
    assert forall|i: int, j: int| #![trigger a[i], a[j]] 0 <= i < j < a.len() implies lex_lt(
        a[i].0,
        a[j].0,
    ) by {
        assert(s[i] == a[i] && s[j] == a[j]);
    }
    assert forall|i: int, j: int| #![trigger m[i], m[j]] 0 <= i < j < m.len() implies lex_lt(
        m[i].0,
        m[j].0,
    ) by {
        assert(s[a.len() + i] == m[i] && s[a.len() + j] == m[j]);
    }
    assert forall|i: int, j: int| #![trigger c[i], c[j]] 0 <= i < j < c.len() implies lex_lt(
        c[i].0,
        c[j].0,
    ) by {
        assert(s[a.len() + m.len() + i] == c[i] && s[a.len() + m.len() + j] == c[j]);
    }
    lemma_rank(m, k);
    let r = a.len() + rank(m, k);
    if r > 0 {
        if rank(m, k) > 0 {
            assert(s[r - 1] == m[rank(m, k) - 1]);
        } else {
            assert(s[r - 1] == a[r - 1]);
        }
    }
    if r < s.len() {
        if rank(m, k) < m.len() {
            assert(s[r] == m[rank(m, k)]);
        } else {
            assert(s[r] == c[0]);
        }
    }
    lemma_rank_is(s, k, r);
}

// ---------------------------------------------------------------------------
// Binding and removing
// ---------------------------------------------------------------------------

pub proof fn lemma_upsert_sorted<V>(s: Seq<(Seq<u8>, V)>, k: Seq<u8>, v: V)
    requires
        sorted(s),
    ensures
        sorted(upsert(s, k, v)),
{
    lemma_lex_order();
    lemma_rank(s, k);
    let r = rank(s, k);
    let u = upsert(s, k, v);
    assert forall|i: int, j: int| #![trigger u[i], u[j]] 0 <= i < j < u.len() implies lex_lt(
        u[i].0,
        u[j].0,
    ) by {
        if has_key(s, k) {
            assert(u[i].0 == s[i].0 && u[j].0 == s[j].0);
        } else {
            let si = if i < r { i } else { i - 1 };
            let sj = if j < r { j } else { j - 1 };
            if i != r {
                assert(u[i] == s[si]);
            }
            if j != r {
                assert(u[j] == s[sj]);
            }
        }
    }
}

pub proof fn lemma_erase_sorted<V>(s: Seq<(Seq<u8>, V)>, k: Seq<u8>)
    requires
        sorted(s),
    ensures
        sorted(erase(s, k)),
{
    let e = erase(s, k);
    if has_key(s, k) {
        let r = rank(s, k);
        assert forall|i: int, j: int| #![trigger e[i], e[j]] 0 <= i < j < e.len() implies lex_lt(
            e[i].0,
            e[j].0,
        ) by {
            let si = if i < r { i } else { i + 1 };
            let sj = if j < r { j } else { j + 1 };
            assert(e[i] == s[si] && e[j] == s[sj]);
        }
    }
}

proof fn lemma_update_mid<T>(a: Seq<T>, m: Seq<T>, c: Seq<T>, r: int, x: T)
    requires
        0 <= r < m.len(),
    ensures
        (a + m + c).update(a.len() + r, x) == a + m.update(r, x) + c,
{
    assert((a + m + c).update(a.len() + r, x) =~= a + m.update(r, x) + c);
}

proof fn lemma_insert_mid<T>(a: Seq<T>, m: Seq<T>, c: Seq<T>, r: int, x: T)
    requires
        0 <= r <= m.len(),
    ensures
        (a + m + c).insert(a.len() + r, x) == a + m.insert(r, x) + c,
{
    assert((a + m + c).insert(a.len() + r, x) =~= a + m.insert(r, x) + c);
}

proof fn lemma_remove_mid<T>(a: Seq<T>, m: Seq<T>, c: Seq<T>, r: int)
    requires
        0 <= r < m.len(),
    ensures
        (a + m + c).remove(a.len() + r) == a + m.remove(r) + c,
{
    assert((a + m + c).remove(a.len() + r) =~= a + m.remove(r) + c);
}

pub proof fn lemma_upsert_context<V>(
    a: Seq<(Seq<u8>, V)>,
    m: Seq<(Seq<u8>, V)>,
    c: Seq<(Seq<u8>, V)>,
    k: Seq<u8>,
    v: V,
)
    requires
        sorted(a + m + c),
        all_lt(a, k),
        all_gt(c, k),
    ensures
        sorted(m),
        upsert(a + m + c, k, v) == a + upsert(m, k, v) + c,
        sorted(a + upsert(m, k, v) + c),
{
    lemma_rank_context(a, m, c, k);
    lemma_rank(m, k);
    lemma_upsert_sorted(a + m + c, k, v);
    if has_key(m, k) {
        lemma_update_mid(a, m, c, rank(m, k), (k, v));
    } else {
        lemma_insert_mid(a, m, c, rank(m, k), (k, v));
    }
}

pub proof fn lemma_erase_context<V>(
    a: Seq<(Seq<u8>, V)>,
    m: Seq<(Seq<u8>, V)>,
    c: Seq<(Seq<u8>, V)>,
    k: Seq<u8>,
)
    requires
        sorted(a + m + c),
        all_lt(a, k),
        all_gt(c, k),
    ensures
        sorted(m),
        erase(a + m + c, k) == a + erase(m, k) + c,
        sorted(a + erase(m, k) + c),
{
    lemma_rank_context(a, m, c, k);
    lemma_rank(m, k);
    lemma_erase_sorted(a + m + c, k);
    if has_key(m, k) {
        lemma_remove_mid(a, m, c, rank(m, k));
    }
}

/// A listing holds exactly the pairs that its lookup finds.
pub proof fn lemma_lookup_contains<V>(s: Seq<(Seq<u8>, V)>, k: Seq<u8>, v: V)
    requires
        sorted(s),
    ensures
        (lookup(s, k) == Some(v)) == s.contains((k, v)),
{
    lemma_rank(s, k);
    if s.contains((k, v)) {
        let i = choose|i: int| 0 <= i < s.len() && s[i] == (k, v);
        assert(i == rank(s, k));
    }
    if lookup(s, k) == Some(v) {
        assert(s[rank(s, k)] == (k, v));
    }
}

/// What a lookup finds after a binding: the new value under the bound key, and
/// what was there before under every other.
pub proof fn lemma_lookup_upsert<V>(s: Seq<(Seq<u8>, V)>, k: Seq<u8>, v: V, q: Seq<u8>)
    requires
        sorted(s),
    ensures
        lookup(upsert(s, k, v), q) == if q == k {
            Some(v)
        } else {
            lookup(s, q)
        },
{
    lemma_rank(s, k);
    lemma_rank(s, q);
    lemma_upsert_sorted(s, k, v);
    let u = upsert(s, k, v);
    let r = rank(s, k);
    if q == k {
        assert(u[r] == (k, v));
        lemma_rank(u, k);
    } else {
        lemma_rank(u, q);
        if has_key(s, q) {
            let i = rank(s, q);
            let j = if has_key(s, k) || i < r { i } else { i + 1 };
            assert(u[j] == s[i]);
        } else if has_key(u, q) {
            let j = rank(u, q);
            let i = if has_key(s, k) || j < r { j } else { j - 1 };
            assert(j != r);
            assert(u[j] == s[i]);
        }
    }
}

/// What a lookup finds after a removal: nothing under the removed key, and what
/// was there before under every other.
pub proof fn lemma_lookup_erase<V>(s: Seq<(Seq<u8>, V)>, k: Seq<u8>, q: Seq<u8>)
    requires
        sorted(s),
    ensures
        lookup(erase(s, k), q) == if q == k {
            None
        } else {
            lookup(s, q)
        },
{
    lemma_rank(s, k);
    lemma_rank(s, q);
    lemma_erase_sorted(s, k);
    let e = erase(s, k);
    let r = rank(s, k);
    lemma_rank(e, q);
    if has_key(s, k) {
        if has_key(e, q) {
            let j = rank(e, q);
            let i = if j < r { j } else { j + 1 };
            assert(e[j] == s[i]);
        }
        if has_key(s, q) && q != k {
            let i = rank(s, q);
            let j = if i < r { i } else { i - 1 };
            assert(e[j] == s[i]);
        }
    }
}

// ---------------------------------------------------------------------------
// Batches
// ---------------------------------------------------------------------------

pub proof fn lemma_apply_sorted<V>(s: Seq<(Seq<u8>, V)>, batch: Seq<(Seq<u8>, Option<V>)>)
    requires
        sorted(s),
    ensures
        sorted(apply_ops(s, batch)),
    decreases batch.len(),
{
    if batch.len() > 0 {
        lemma_apply_sorted(s, batch.drop_last());
        let t = apply_ops(s, batch.drop_last());
        match batch.last().1 {
            Some(v) => lemma_upsert_sorted(t, batch.last().0, v),
            None => lemma_erase_sorted(t, batch.last().0),
        }
    }
}

pub proof fn lemma_apply_split<V>(
    s: Seq<(Seq<u8>, V)>,
    b1: Seq<(Seq<u8>, Option<V>)>,
    b2: Seq<(Seq<u8>, Option<V>)>,
)
    ensures
        apply_ops(s, b1 + b2) == apply_ops(apply_ops(s, b1), b2),
    decreases b2.len(),
{
    if b2.len() == 0 {
        assert(b1 + b2 =~= b1);
    } else {
        lemma_apply_split(s, b1, b2.drop_last());
        assert((b1 + b2).drop_last() =~= b1 + b2.drop_last());
    }
}

pub proof fn lemma_apply_context<V>(
    a: Seq<(Seq<u8>, V)>,
    m: Seq<(Seq<u8>, V)>,
    c: Seq<(Seq<u8>, V)>,
    batch: Seq<(Seq<u8>, Option<V>)>,
)
    requires
        sorted(a + m + c),
        forall|i: int| 0 <= i < batch.len() ==> all_lt(a, (#[trigger] batch[i]).0),
        forall|i: int| 0 <= i < batch.len() ==> all_gt(c, (#[trigger] batch[i]).0),
    ensures
        apply_ops(a + m + c, batch) == a + apply_ops(m, batch) + c,
        sorted(a + apply_ops(m, batch) + c),
    decreases batch.len(),
{
    if batch.len() > 0 {
        let p = batch.drop_last();
        assert forall|i: int| 0 <= i < p.len() implies all_lt(a, (#[trigger] p[i]).0) by {
            assert(p[i] == batch[i]);
        }
        assert forall|i: int| 0 <= i < p.len() implies all_gt(c, (#[trigger] p[i]).0) by {
            assert(p[i] == batch[i]);
        }
        lemma_apply_context(a, m, c, p);
        let k = batch[batch.len() - 1].0;
        match batch.last().1 {
            Some(v) => lemma_upsert_context(a, apply_ops(m, p), c, k, v),
            None => lemma_erase_context(a, apply_ops(m, p), c, k),
        }
    }
}

/// After a batch with distinct keys a lookup finds what the batch says of its
/// keys, and what was there before under every other key.
pub proof fn lemma_lookup_apply<V>(
    s: Seq<(Seq<u8>, V)>,
    batch: Seq<(Seq<u8>, Option<V>)>,
    q: Seq<u8>,
)
    requires
        sorted(s),
        sorted(batch),
    ensures
        lookup(apply_ops(s, batch), q) == match lookup(batch, q) {
            Some(op) => op,
            None => lookup(s, q),
        },
    decreases batch.len(),
{
    lemma_rank(batch, q);
    if batch.len() > 0 {
        lemma_lex_order();
        let p = batch.drop_last();
        assert forall|i: int, j: int| #![trigger p[i], p[j]] 0 <= i < j < p.len() implies lex_lt(
            p[i].0,
            p[j].0,
        ) by {
            assert(p[i] == batch[i] && p[j] == batch[j]);
        }
        lemma_lookup_apply(s, p, q);
        lemma_rank(p, q);
        let t = apply_ops(s, p);
        lemma_apply_sorted(s, p);
        let k = batch.last().0;
        match batch.last().1 {
            Some(v) => lemma_lookup_upsert(t, k, v, q),
            None => lemma_lookup_erase(t, k, q),
        }
        if q == k {
            assert(batch[batch.len() - 1].0 == q);
        } else {
            if has_key(p, q) {
                assert(batch[rank(p, q)] == p[rank(p, q)]);
            } else if has_key(batch, q) {
                assert(p[rank(batch, q)] == batch[rank(batch, q)]);
            }
        }
    }
}

/// Applying a batch that already holds changes nothing.
pub proof fn lemma_apply_noop<V>(s: Seq<(Seq<u8>, V)>, batch: Seq<(Seq<u8>, Option<V>)>)
    requires
        sorted(s),
        already_holds(s, batch),
    ensures
        apply_ops(s, batch) == s,
    decreases batch.len(),
{
    if batch.len() > 0 {
        let p = batch.drop_last();
        assert forall|i: int| 0 <= i < p.len() implies lookup(s, (#[trigger] p[i]).0)
            == p[i].1 by {
            assert(p[i] == batch[i]);
        }
        lemma_apply_noop(s, p);
        let k = batch[batch.len() - 1].0;
        if let Some(v) = batch.last().1 {
            assert(upsert(s, k, v) =~= s);
        }
    }
}

// ---------------------------------------------------------------------------
// Concatenation
// ---------------------------------------------------------------------------

pub proof fn lemma_concat_split<T>(a: Seq<Seq<T>>, b: Seq<Seq<T>>)
    ensures
        concat(a + b) == concat(a) + concat(b),
    decreases b.len(),
{
    if b.len() == 0 {
        assert(a + b =~= a);
        assert(concat(a) + concat(b) =~= concat(a));
    } else {
        lemma_concat_split(a, b.drop_last());
        assert((a + b).drop_last() =~= a + b.drop_last());
        assert(concat(a + b) =~= concat(a) + concat(b));
    }
}

pub proof fn lemma_concat_one<T>(x: Seq<T>)
    ensures
        concat(seq![x]) == x,
{
    assert(seq![x].drop_last() =~= Seq::empty());
    assert(concat(seq![x].drop_last()) =~= Seq::empty());
    assert(concat(seq![x]) =~= x);
}

/// The part before position `i`, the part at `i`, and the rest.
pub proof fn lemma_concat_at<T>(ss: Seq<Seq<T>>, i: int)
    requires
        0 <= i < ss.len(),
    ensures
        concat(ss) == concat(ss.take(i)) + ss[i] + concat(ss.skip(i + 1)),
{
    assert(ss =~= ss.take(i) + seq![ss[i]] + ss.skip(i + 1));
    lemma_concat_split(ss.take(i) + seq![ss[i]], ss.skip(i + 1));
    lemma_concat_split(ss.take(i), seq![ss[i]]);
    lemma_concat_one(ss[i]);
}

/// Sorted parts with a divider between them make a sorted whole.
pub proof fn lemma_sorted_join<V>(a: Seq<(Seq<u8>, V)>, b: Seq<(Seq<u8>, V)>, k: Seq<u8>)
    requires
        sorted(a),
        sorted(b),
        all_lt(a, k),
        all_ge(b, k),
    ensures
        sorted(a + b),
{
    lemma_lex_order();
    let s = a + b;
    assert forall|i: int, j: int| #![trigger s[i], s[j]] 0 <= i < j < s.len() implies lex_lt(
        s[i].0,
        s[j].0,
    ) by {
        if j < a.len() {
            assert(s[i] == a[i] && s[j] == a[j]);
        } else if i >= a.len() {
            assert(s[i] == b[i - a.len()] && s[j] == b[j - a.len()]);
        } else {
            assert(s[i] == a[i] && s[j] == b[j - a.len()]);
        }
    }
}

} // verus!
